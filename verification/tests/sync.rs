use synapse::sync::conflict_for;
use synapse::sync::both_sides_changed;
use synapse::sync::SyncOutcome;

#[test]
fn no_changes_is_clean() {
    assert!(SyncOutcome::NoChanges.is_clean());
}

#[test]
fn conflict_queued_is_not_clean() {
    let outcome = SyncOutcome::ConflictQueued {
        conflict_ids: vec!["skills/repo-conventions".into()],
    };
    assert!(!outcome.is_clean());
}

#[test]
fn applied_is_clean() {
    let outcome = SyncOutcome::Applied {
        changed_paths: vec!["AGENTS.md".into()],
    };
    assert!(outcome.is_clean());
}

#[test]
fn divergence_uses_the_base_when_there_is_one() {
    assert!(both_sides_changed("base", "w", "b", "x", "r"));
    assert!(!both_sides_changed("base", "x", "b", "x", "r"));
    assert!(!both_sides_changed("base", "w", "x", "x", "r"));
    // Without a base, the recorded hash stands in.
    assert!(both_sides_changed("", "w", "b", "x", "r"));
    assert!(!both_sides_changed("", "w", "r", "x", "r"));
    assert!(!both_sides_changed("", "r", "b", "x", "r"));
}

#[test]
fn conclude_prefers_conflicts_then_changes() {
    let q = SyncOutcome::conclude(vec!["a".into()], vec!["x".into()], vec![]);
    assert_eq!(q, SyncOutcome::ConflictQueued { conflict_ids: vec!["a".into()] });
    let n = SyncOutcome::conclude(vec![], vec![], vec![]);
    assert_eq!(n, SyncOutcome::NoChanges);
    let a = SyncOutcome::conclude(vec![], vec!["skills/x/SKILL.md".into()], vec!["AGENTS.md".into()]);
    assert_eq!(
        a,
        SyncOutcome::Applied { changed_paths: vec!["skills/x/SKILL.md".into(), "AGENTS.md".into()] }
    );
    assert_eq!(synapse::sync::lock_path("/b"), "/b/.lock");
}

#[test]
fn conflicts_are_queued_only_when_both_sides_changed_and_merge_fails() {
    assert!(conflict_for("x", "same", "same", "base", "w", "b", "s", "r", Some("<<<")).is_none());
    assert!(conflict_for("x", "ws", "brain", "base", "s", "b", "s", "r", Some("<<<")).is_none());
    assert!(conflict_for("x", "ws", "brain", "base", "w", "b", "s", "r", None).is_none());
    let c = conflict_for("x", "ws", "brain", "base", "w", "b", "s", "r", Some("<<< m")).unwrap();
    assert_eq!(c.id, "x");
    assert_eq!(c.canonical_path, "skills/x");
    assert_eq!(c.base, "base");
    assert_eq!(c.local, "brain");
    assert_eq!(c.remote, "ws");
    assert_eq!(c.merged_with_markers, "<<< m");
}
