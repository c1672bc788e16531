use synapse::adapters::agent_docs::missing_env;
use synapse::adapters::agent_docs::{
    split_frontmatter, command_parts, mcp_entries, parse_agent_tools, serialize_agent_frontmatter, ToolLayout,
};
use synapse::adapters::aider::{read_list_of, parse_flat_yaml, read_paths, serialize_flat_yaml, set_key, AiderAdapter};
use synapse::adapters::paths::{file_name, name_parts, safe_join, strip_provenance};
use synapse::model::{AdapterError, Agent, HealthStatus, McpServer, Skill};

fn skill(id: &str, targets: &[&str], source: &str) -> Skill {
    Skill {
        id: id.to_string(),
        version: "1.0.0".to_string(),
        triggers: vec!["*".to_string()],
        targets: targets.iter().map(|t| t.to_string()).collect(),
        source: source.to_string(),
        sha256: "hash".to_string(),
    }
}

fn pairs(v: &[(&str, &str)]) -> Vec<(String, String)> {
    v.iter().map(|(k, v)| (k.to_string(), v.to_string())).collect()
}

#[test]
fn flat_yaml_parses_pairs_and_skips_comments() {
    let parsed = parse_flat_yaml("model: gpt-4o\nread: CONVENTIONS.md\n# a comment\nauto-commits: false").unwrap();
    assert_eq!(
        parsed,
        pairs(&[("model", "gpt-4o"), ("read", "CONVENTIONS.md"), ("auto-commits", "false")])
    );
    let quoted = parse_flat_yaml("  name: \"x\"  \n\n key :'y'").unwrap();
    assert_eq!(quoted, pairs(&[("name", "x"), ("key", "y")]));
}

#[test]
fn flat_yaml_rejects_a_line_without_colon() {
    let res = parse_flat_yaml("this is not a key value line");
    assert_eq!(
        res,
        Err(AdapterError::Malformed(
            "malformed config: line 1: expected `key: value`, got `this is not a key value line`".to_string()
        ))
    );
}

#[test]
fn flat_yaml_rejects_an_unclosed_bracket() {
    let res = parse_flat_yaml("model: x\nread: [a, b\n");
    assert_eq!(
        res,
        Err(AdapterError::Malformed("malformed config: line 2 has unclosed bracket in YAML".to_string()))
    );
}

#[test]
fn flat_yaml_serializes_in_order() {
    assert_eq!(serialize_flat_yaml(&pairs(&[("a", "1"), ("b", "2")])), "a: 1\nb: 2");
    assert_eq!(serialize_flat_yaml(&[]), "");
}

#[test]
fn set_key_replaces_or_appends() {
    let mut p = pairs(&[("model", "gpt-4o"), ("read", "old.md"), ("read", "second.md")]);
    set_key(&mut p, "read", "CONVENTIONS.md");
    assert_eq!(p, pairs(&[("model", "gpt-4o"), ("read", "CONVENTIONS.md"), ("read", "second.md")]));
    let mut q = pairs(&[("model", "gpt-4o")]);
    set_key(&mut q, "read", "CONVENTIONS.md");
    assert_eq!(q, pairs(&[("model", "gpt-4o"), ("read", "CONVENTIONS.md")]));
}

#[test]
fn read_paths_lists_entries() {
    assert_eq!(read_paths("[CONVENTIONS.md, \"docs\\x.md\", ]"), vec!["CONVENTIONS.md", "docs/x.md"]);
    assert_eq!(read_paths("CONVENTIONS.md"), vec!["CONVENTIONS.md"]);
    assert!(read_paths("").is_empty());
}

#[test]
fn aider_conventions_join_targeted_skills() {
    let a = AiderAdapter;
    assert_eq!(a.id(), "aider");
    let skills = vec![
        skill("one", &["aider"], "Use snake_case for Python."),
        skill("two", &["cursor"], "ignored"),
        skill("three", &["cursor", "aider"], "Second"),
    ];
    assert_eq!(
        a.conventions_file(&skills).unwrap(),
        "<!-- GENERATED BY LLM NEUROSURGEON — edit in the Brain -->\nUse snake_case for Python.\n\n---\n\nSecond"
    );
    assert_eq!(a.conventions_file(&skills[1..2]), None);
}

#[test]
fn aider_conf_keeps_unrelated_keys() {
    let a = AiderAdapter;
    let merged = a.merged_conf(Some("model: gpt-4o")).unwrap();
    assert_eq!(merged, "model: gpt-4o\nread: CONVENTIONS.md");
    assert_eq!(a.merged_conf(None).unwrap(), "read: CONVENTIONS.md");
    assert!(matches!(a.merged_conf(Some("this is not a key value line")), Err(AdapterError::Malformed(_))));
}

#[test]
fn safe_join_refuses_traversal() {
    assert_eq!(
        safe_join("/r", "../../../evil/SKILL.md"),
        Err(AdapterError::Malformed(
            "refusing to write outside the target root: ../../../evil/SKILL.md".to_string()
        ))
    );
    assert!(matches!(safe_join("/r", "/etc/passwd"), Err(AdapterError::Malformed(_))));
    assert!(matches!(safe_join("/r", "a/../b"), Err(AdapterError::Malformed(_))));
}

#[test]
fn safe_join_accepts_plain_relative_paths() {
    assert_eq!(safe_join("/r", ".tool/skills/x/SKILL.md").unwrap(), "/r/.tool/skills/x/SKILL.md");
    assert_eq!(safe_join("/r", "a/..b/c").unwrap(), "/r/a/..b/c");
}

#[test]
fn agent_tools_are_read_from_frontmatter() {
    assert_eq!(parse_agent_tools("tools:\n  - Read\n  - Grep"), vec!["Read", "Grep"]);
    assert_eq!(parse_agent_tools("name: r\ntools: [Read, \"Grep\"]\nmodel: x"), vec!["Read", "Grep"]);
    assert_eq!(parse_agent_tools("tools: Read, Grep"), vec!["Read", "Grep"]);
    assert_eq!(parse_agent_tools("tools:\n  - Read\nmodel: x\n  - Grep"), vec!["Read"]);
    assert!(parse_agent_tools("model: x").is_empty());
}

#[test]
fn agent_frontmatter_round_trips() {
    let tools = vec!["Read".to_string(), "Grep".to_string()];
    let fm = serialize_agent_frontmatter(&tools);
    assert_eq!(fm, "---\ntools:\n  - Read\n  - Grep\n---");
    let inner = fm.trim_start_matches("---\n").trim_end_matches("---");
    assert_eq!(parse_agent_tools(inner), tools);
}

#[test]
fn command_lines_split_at_whitespace() {
    assert_eq!(
        command_parts("npx -y @mcp/github"),
        Some(("npx".to_string(), vec!["-y".to_string(), "@mcp/github".to_string()]))
    );
    assert_eq!(command_parts("   "), None);
}

fn layout() -> ToolLayout {
    ToolLayout {
        tool_id: "agent-cli".to_string(),
        memory_name: "AGENTS.md".to_string(),
        memory_id: "agent-rules".to_string(),
        config_dir: ".agent".to_string(),
        skill_prefix: "agent-skill-".to_string(),
        agent_prefix: "agent-agent-".to_string(),
    }
}

#[test]
fn layout_places_skill_and_memory_files() {
    let l = layout();
    let skills = vec![
        skill("agent-rules", &["agent-cli"], "Project instructions"),
        skill("agent-skill-pdf-extractor", &["agent-cli"], "Extract text from PDFs."),
        skill("obsidian-session-worklog", &["agent-cli"], "worklog"),
        skill("other", &["cursor"], "not ours"),
    ];
    assert_eq!(
        l.memory_file(&skills).unwrap(),
        "<!-- GENERATED BY LLM NEUROSURGEON — edit in the Brain -->\nProject instructions"
    );
    assert_eq!(
        l.skill_file(&skills[1]),
        Some((
            ".agent/skills/pdf-extractor/SKILL.md".to_string(),
            "<!-- GENERATED BY LLM NEUROSURGEON — edit in the Brain -->\nExtract text from PDFs.".to_string()
        ))
    );
    assert_eq!(l.skill_file(&skills[2]).unwrap().0, ".agent/skills/obsidian-session-worklog/SKILL.md");
    assert_eq!(l.skill_file(&skills[0]), None);
    assert_eq!(l.skill_file(&skills[3]), None);
    assert_eq!(l.memory_file(&skills[1..]), None);
}

#[test]
fn layout_writes_agent_with_companion_body() {
    let l = layout();
    let agent = Agent {
        slug: "auditor".to_string(),
        tools: vec!["Read".to_string(), "Grep".to_string()],
        model_hints: Vec::new(),
        targets: vec!["agent-cli".to_string()],
    };
    let skills = vec![skill("agent-agent-auditor", &["agent-cli"], "You audit code for bugs.")];
    let (path, content) = l.agent_file(&agent, &skills);
    assert_eq!(path, ".agent/agents/auditor.md");
    assert_eq!(
        content,
        "<!-- GENERATED BY LLM NEUROSURGEON — edit in the Brain -->\n---\ntools:\n  - Read\n  - Grep\n---\n\nYou audit code for bugs."
    );
    let (_, bare) = l.agent_file(&agent, &[]);
    assert!(bare.ends_with("---\n\n"));
}

#[test]
fn traversal_in_a_skill_slug_is_refused() {
    let l = layout();
    let s = skill("agent-skill-../../../evil", &["agent-cli"], "malicious");
    assert!(matches!(l.skill_target("/root", &s), Some(Err(AdapterError::Malformed(_)))));
    let ok = skill("agent-skill-fine", &["agent-cli"], "x");
    assert_eq!(l.skill_target("/root", &ok).unwrap().unwrap().0, "/root/.agent/skills/fine/SKILL.md");
    assert_eq!(l.skill_target("/root", &skill("agent-skill-x", &["cursor"], "x")), None);
}

#[test]
fn traversal_in_an_agent_slug_is_refused() {
    let l = layout();
    let agent = Agent {
        slug: "../../../evil".to_string(),
        tools: Vec::new(),
        model_hints: Vec::new(),
        targets: vec!["agent-cli".to_string()],
    };
    assert!(matches!(l.agent_target("/root", &agent, &[]), Err(AdapterError::Malformed(_))));
}

#[test]
fn missing_env_keeps_filled_values() {
    let existing = vec!["TOKEN".to_string()];
    let ph = vec!["TOKEN".to_string(), "ORG".to_string(), "ORG".to_string(), "HOST".to_string()];
    assert_eq!(missing_env(&existing, &ph), vec!["ORG".to_string(), "HOST".to_string()]);
}

#[test]
fn projection_plan_orders_memory_skills_agents() {
    let l = layout();
    let skills = vec![
        skill("agent-rules", &["agent-cli"], "Project instructions"),
        skill("agent-skill-pdf", &["agent-cli"], "PDF"),
        skill("agent-agent-auditor", &["agent-cli"], "Audit."),
    ];
    let agents = vec![Agent {
        slug: "auditor".to_string(),
        tools: vec!["Read".to_string()],
        model_hints: Vec::new(),
        targets: vec!["agent-cli".to_string()],
    }];
    let (files, err) = l.plan("/r", &skills, &agents);
    assert!(err.is_none());
    let rels: Vec<&str> = files.iter().map(|f| f.rel.as_str()).collect();
    assert_eq!(rels, vec!["AGENTS.md", ".agent/skills/pdf/SKILL.md", ".agent/agents/auditor.md"]);
    assert_eq!(files[0].path, "/r/AGENTS.md");
    assert_eq!(files[2].path, "/r/.agent/agents/auditor.md");
    assert!(files[2].content.ends_with("---\n\nAudit."));
}

#[test]
fn projection_plan_stops_at_traversal() {
    let l = layout();
    let skills = vec![
        skill("agent-rules", &["agent-cli"], "Project instructions"),
        skill("agent-skill-../../../evil", &["agent-cli"], "malicious"),
        skill("agent-skill-late", &["agent-cli"], "never"),
    ];
    let (files, err) = l.plan("/r", &skills, &[]);
    assert_eq!(files.len(), 1);
    assert_eq!(
        err,
        Some(AdapterError::Malformed(
            "refusing to write outside the target root: .agent/skills/../../../evil/SKILL.md".to_string()
        ))
    );
}

#[test]
fn mcp_entries_split_command_lines() {
    let server = |id: &str, line: &str, targets: &[&str]| McpServer {
        id: id.to_string(),
        transport: "stdio".to_string(),
        command_or_url: line.to_string(),
        env_placeholders: vec!["GITHUB_TOKEN".to_string()],
        targets: targets.iter().map(|t| t.to_string()).collect(),
        health: HealthStatus::Unknown,
    };
    let entries = mcp_entries(
        "agent-cli",
        &[server("github", "npx -y @mcp/github", &["agent-cli"]), server("blank", "  ", &["agent-cli"]), server("other", "x", &["cursor"])],
    );
    assert_eq!(entries.len(), 1);
    assert_eq!(entries[0].id, "github");
    assert_eq!(entries[0].command, "npx");
    assert_eq!(entries[0].args, vec!["-y".to_string(), "@mcp/github".to_string()]);
    assert_eq!(entries[0].env_placeholders, vec!["GITHUB_TOKEN".to_string()]);
}

#[test]
fn aider_plan_writes_conventions_then_config() {
    let a = AiderAdapter;
    let skills = vec![skill("conventions", &["aider"], "Use snake_case for Python.")];
    let (files, err) = a.plan(&skills, Some("model: gpt-4o"));
    assert!(err.is_none());
    assert_eq!(files.len(), 2);
    assert_eq!(files[0].0, "CONVENTIONS.md");
    assert!(files[0].1.contains("Use snake_case for Python."));
    assert_eq!(files[1], (".aider.conf.yml".to_string(), "model: gpt-4o\nread: CONVENTIONS.md".to_string()));
    let (bad, err) = a.plan(&skills, Some("this is not a key value line"));
    assert_eq!(bad.len(), 1);
    assert!(matches!(err, Some(AdapterError::Malformed(_))));
    let (none, err) = a.plan(&[], Some("model: x"));
    assert!(none.is_empty() && err.is_none());
}

#[test]
fn flat_yaml_round_trips_clean_pairs() {
    let p = pairs(&[("model", "gpt-4o"), ("read", "[a.md, b.md]"), ("empty", ""), ("auto-commits", "false")]);
    let text = serialize_flat_yaml(&p);
    assert_eq!(parse_flat_yaml(&text).unwrap(), p);
}

fn mcp_server(id: &str, line: &str, ph: &[&str]) -> McpServer {
    McpServer {
        id: id.to_string(),
        transport: "stdio".to_string(),
        command_or_url: line.to_string(),
        env_placeholders: ph.iter().map(|p| p.to_string()).collect(),
        targets: vec!["agent-cli".to_string()],
        health: HealthStatus::Unknown,
    }
}

#[test]
fn mcp_config_keeps_filled_env_values_and_other_keys() {
    let l = layout();
    let existing = r#"{"other": 1, "mcpServers": {"github": {"command": "old", "env": {"GITHUB_TOKEN": "secret"}}}}"#;
    let servers = vec![mcp_server("github", "npx -y @mcp/github", &["GITHUB_TOKEN", "ORG"])];
    let text = l.mcp_file(Some(existing), &servers).unwrap().unwrap();
    let v: serde_json::Value = serde_json::from_str(&text).unwrap();
    assert_eq!(v["other"], serde_json::Value::from(1));
    let g = &v["mcpServers"]["github"];
    assert_eq!(g["command"], "npx");
    assert_eq!(g["args"], serde_json::Value::Array(vec!["-y".into(), "@mcp/github".into()]));
    assert_eq!(g["env"]["GITHUB_TOKEN"], "secret");
    assert_eq!(g["env"]["ORG"], "");
    assert!(text.contains("\n  \"mcpServers\": {"));
}

#[test]
fn mcp_config_errors() {
    let l = layout();
    let servers = vec![mcp_server("github", "npx x", &[])];
    assert!(matches!(l.mcp_file(Some("{ not json"), &servers), Err(AdapterError::Malformed(m)) if m.starts_with("Invalid JSON in .mcp.json: ")));
    assert_eq!(
        l.mcp_file(Some("[1, 2]"), &servers),
        Err(AdapterError::Malformed(".mcp.json root is not an object".to_string()))
    );
    assert_eq!(
        l.mcp_file(Some(r#"{"mcpServers": 3}"#), &servers),
        Err(AdapterError::Malformed("mcpServers is not an object".to_string()))
    );
    assert_eq!(l.mcp_file(Some("{ not json"), &[]), Ok(None));
    let fresh = l.mcp_file(None, &servers).unwrap().unwrap();
    let v: serde_json::Value = serde_json::from_str(&fresh).unwrap();
    assert_eq!(v["mcpServers"]["github"]["args"], serde_json::Value::Array(vec!["x".into()]));
}

#[test]
fn projection_ends_with_the_mcp_config() {
    let l = layout();
    let skills = vec![skill("agent-rules", &["agent-cli"], "Project instructions")];
    let servers = vec![mcp_server("github", "npx -y @mcp/github", &[])];
    let (files, err) = l.projection("/r", &skills, &[], &servers, None);
    assert!(err.is_none());
    let rels: Vec<&str> = files.iter().map(|f| f.rel.as_str()).collect();
    assert_eq!(rels, vec!["AGENTS.md", ".mcp.json"]);
    assert_eq!(files[1].path, "/r/.mcp.json");
    let (files, err) = l.projection("/r", &skills, &[], &servers, Some("[]"));
    assert_eq!(files.len(), 1);
    assert!(err.is_some());
}

#[test]
fn import_reads_every_read_key() {
    assert_eq!(
        read_list_of("model: gpt-4o\nread: [CONVENTIONS.md, docs/a.md]\n# c\nread: extra.md").unwrap(),
        vec!["CONVENTIONS.md", "docs/a.md", "extra.md"]
    );
    assert!(read_list_of("model: x").unwrap().is_empty());
    assert!(matches!(read_list_of("this is not a key value line"), Err(AdapterError::Malformed(_))));
}

fn entry(name: &str, link: bool, text: Option<&str>) -> (String, bool, Option<(String, String)>) {
    (name.to_string(), link, text.map(|t| (t.to_string(), format!("sha-{name}"))))
}

#[test]
fn tool_import_reads_memory_skills_agents_and_servers() {
    let l = layout();
    let dirs = vec![
        entry("pdf-extractor", false, Some("  Extract text from PDFs.\n")),
        entry("planted", true, Some("top secret skill")),
        entry("empty-dir", false, None),
    ];
    let files = vec![
        entry("auditor.md", false, Some("---\ntools:\n  - Read\n  - Grep\n---\nYou audit code for bugs.\n")),
        entry("planted.md", true, Some("top secret agent")),
        entry("notes.txt", false, Some("x")),
    ];
    let r = l
        .import_of(
            Some(("<!-- GENERATED BY LLM NEUROSURGEON — edit in the Brain -->\nProject instructions", "h0")),
            &dirs,
            &files,
            None,
            Some(r#"{"mcpServers": {"github": {"command": "npx", "args": ["-y", "@mcp/github"]}}}"#),
        )
        .unwrap();
    let ids: Vec<&str> = r.skills.iter().map(|s| s.id.as_str()).collect();
    assert_eq!(ids, vec!["agent-rules", "agent-skill-pdf-extractor", "agent-agent-auditor"]);
    assert_eq!(r.skills[0].source, "Project instructions");
    assert_eq!(r.skills[0].sha256, "h0");
    assert_eq!(r.skills[1].source, "Extract text from PDFs.");
    assert_eq!(r.skills[2].source, "You audit code for bugs.");
    assert_eq!(r.skills[1].targets, vec!["agent-cli".to_string()]);
    assert_eq!(r.agents.len(), 1);
    assert_eq!(r.agents[0].slug, "auditor");
    assert_eq!(r.agents[0].tools, vec!["Read".to_string(), "Grep".to_string()]);
    assert_eq!(r.servers.len(), 1);
    assert_eq!(r.servers[0].0, "github");
}

#[test]
fn tool_import_refuses_bad_json() {
    let l = layout();
    assert!(matches!(
        l.import_of(None, &[], &[], None, Some("{ not json")),
        Err(AdapterError::Malformed(m)) if m.starts_with("Invalid JSON in .mcp.json: ")
    ));
    assert!(matches!(
        l.import_of(None, &[], &[], Some("{"), None),
        Err(AdapterError::Malformed(m)) if m.starts_with("Invalid JSON in .agent/settings.json: ")
    ));
}

#[test]
fn frontmatter_splits_at_the_fences() {
    assert_eq!(
        split_frontmatter("---\ntools: [Read]\n---\nbody\nmore"),
        (Some("tools: [Read]".to_string()), "body\nmore".to_string())
    );
    assert_eq!(split_frontmatter("no fence"), (None, "no fence".to_string()));
    assert_eq!(split_frontmatter("---\nunclosed"), (None, "---\nunclosed".to_string()));
}

#[test]
fn file_names_split_like_paths() {
    assert_eq!(file_name("docs/x.md"), Some("x.md".to_string()));
    assert_eq!(file_name("docs/"), Some("docs".to_string()));
    assert_eq!(file_name("."), None);
    assert_eq!(name_parts("a.b.c"), ("a.b".to_string(), Some("c".to_string())));
    assert_eq!(name_parts(".hidden"), (".hidden".to_string(), None));
    assert_eq!(name_parts("x"), ("x".to_string(), None));
    assert_eq!(strip_provenance("<!-- GENERATED BY LLM NEUROSURGEON — edit in the Brain -->\nbody"), "body");
    assert_eq!(strip_provenance("body"), "body");
}

#[test]
fn aider_import_reads_listed_files_then_conventions() {
    let a = AiderAdapter;
    let files = vec![
        ("docs/style.md".to_string(), Some(("Style".to_string(), "h1".to_string()))),
        ("missing.md".to_string(), None),
    ];
    let skills = a
        .import_of(Some("model: gpt-4o\nread: [docs/style.md, missing.md]"), &files, Some(("Use snake_case for Python.", "h2")))
        .unwrap();
    let ids: Vec<&str> = skills.iter().map(|s| s.id.as_str()).collect();
    assert_eq!(ids, vec!["style", "conventions"]);
    assert_eq!(skills[0].triggers, vec!["docs/style.md".to_string()]);
    assert_eq!(skills[0].targets, vec!["aider".to_string()]);
    assert_eq!(skills[1].source, "Use snake_case for Python.");
    assert_eq!(skills[1].triggers, vec!["*".to_string()]);
}

#[test]
fn aider_import_refuses_traversal_and_malformed_conf() {
    let a = AiderAdapter;
    assert_eq!(
        a.import_of(Some("read: ../secret.md"), &[], None),
        Err(AdapterError::Malformed("malformed config: path traversal detected in read path: ../secret.md".to_string()))
    );
    assert!(matches!(a.import_of(Some("this is not a key value line"), &[], None), Err(AdapterError::Malformed(_))));
    let empty = a.import_of(None, &[], Some(("", "h"))).unwrap();
    assert_eq!(empty.len(), 1);
    assert_eq!(empty[0].source, "");
}
