use synapse::chart::Mark;
use synapse::report::{
    doctor_conclusion, dry_run_finding, fixed_note, order_findings, resolve_brain_root,
    resolve_tool_root, scan_summary, severity_mark, Severity,
};

#[test]
fn resolve_brain_root_prefers_explicit_then_defaults_to_aibrain() {
    assert_eq!(
        resolve_brain_root(Some("/tmp/some-brain"), Some("/env/brain"), Some("/home/u")),
        Ok("/tmp/some-brain".to_string())
    );
    assert_eq!(resolve_brain_root(None, None, Some("/home/u")), Ok("/home/u/AIBrain".to_string()));
    assert!(resolve_brain_root(None, None, Some("/home/u")).unwrap().ends_with("AIBrain"));
}

#[test]
fn brain_root_env_order() {
    assert_eq!(resolve_brain_root(None, Some("/b"), Some("/h")), Ok("/b".to_string()));
    assert_eq!(
        resolve_brain_root(None, None, None),
        Err("cannot locate a home directory; pass --brain <PATH>".to_string())
    );
}

#[test]
fn tool_root_order() {
    assert_eq!(resolve_tool_root(Some("/x"), Some("/w"), None, Some("/h")), Ok("/x".to_string()));
    assert_eq!(resolve_tool_root(None, Some("/w"), Some("/t"), Some("/h")), Ok("/w".to_string()));
    assert_eq!(resolve_tool_root(None, None, Some("/t"), Some("/h")), Ok("/t".to_string()));
    assert_eq!(resolve_tool_root(None, None, None, Some("/h")), Ok("/h".to_string()));
    assert_eq!(
        resolve_tool_root(None, None, None, None),
        Err("cannot locate a home directory; pass --tool-root <PATH>".to_string())
    );
}

#[test]
fn findings_list_present_tools_first_then_by_id() {
    let f = vec![
        ("zed".to_string(), false),
        ("cursor".to_string(), true),
        ("aider".to_string(), false),
        ("cline".to_string(), true),
    ];
    assert_eq!(
        order_findings(f),
        vec![
            ("cline".to_string(), true),
            ("cursor".to_string(), true),
            ("aider".to_string(), false),
            ("zed".to_string(), false),
        ]
    );
    assert!(order_findings(Vec::new()).is_empty());
}

#[test]
fn ids_order_by_code_point() {
    let f = vec![("b".to_string(), true), ("ab".to_string(), true), ("a".to_string(), true), ("B".to_string(), true)];
    let ids: Vec<String> = order_findings(f).into_iter().map(|x| x.0).collect();
    assert_eq!(ids, vec!["B", "a", "ab", "b"]);
}

#[test]
fn scan_summary_suggests_import_only_when_something_was_found() {
    assert_eq!(
        scan_summary(4, 13),
        ("4 of 13 present".to_string(), "4 of 13 supported tools present.".to_string(), Some("synapse import --dry-run".to_string()))
    );
    assert_eq!(scan_summary(0, 13).2, None);
}

#[test]
fn dry_run_finding_counts_everything() {
    assert_eq!(
        dry_run_finding(3, 1, 0, 2),
        "3 skills, 1 agent, 0 mcp servers would enter the Brain from 2 tools. Nothing was written."
    );
}

#[test]
fn doctor_conclusions() {
    let clean = doctor_conclusion(&Vec::new(), false);
    assert_eq!(clean, ("no findings".to_string(), "Clean bill of health.".to_string(), Some("synapse sync --once".to_string()), false));
    let bad = doctor_conclusion(&vec![(Severity::Critical, false), (Severity::Warning, true), (Severity::Warning, false)], false);
    assert_eq!(bad.0, "3 findings");
    assert_eq!(bad.1, "1 critical finding need a human. 2 warnings can wait.");
    assert_eq!(bad.2, Some("synapse doctor --fix".to_string()));
    assert!(bad.3);
    let fixed = doctor_conclusion(&vec![(Severity::Critical, true)], true);
    assert_eq!(fixed.2, None);
    assert!(fixed.3);
    let mild = doctor_conclusion(&vec![(Severity::Info, false)], false);
    assert_eq!(mild.1, "No critical findings. 1 observation noted.");
    assert_eq!(mild.2, Some("synapse sync --once".to_string()));
    assert!(!mild.3);
}

#[test]
fn severities_map_to_marks() {
    assert_eq!(severity_mark(Severity::Critical), Mark::Critical);
    assert_eq!(severity_mark(Severity::Warning), Mark::Warning);
    assert_eq!(severity_mark(Severity::Info), Mark::Partial);
    assert_eq!(fixed_note(1), "1 diagnosis");
    assert_eq!(fixed_note(3), "3 diagnoses");
}
