use synapse::brain::{
    agent_from_file, agent_stub, import_paths, import_skill, projection_outcome, server_file,
    skill_from_markdown, with_default_targets, ImportResult, ProjectionPolicy,
};
use synapse::json::mcp_server_table;
use synapse::model::{AdapterError, Agent, HealthStatus, McpServer, Skill};

fn ids() -> Vec<String> {
    vec!["aider".to_string(), "cursor".to_string()]
}

fn skill(id: &str, targets: &[&str]) -> Skill {
    Skill {
        id: id.to_string(),
        version: "1.0.0".to_string(),
        triggers: vec!["*".to_string()],
        targets: targets.iter().map(|t| t.to_string()).collect(),
        source: "body".to_string(),
        sha256: "abc".to_string(),
    }
}

#[test]
fn imported_skills_default_to_every_tool() {
    let (s, md, yaml, mapping) = import_skill("aider", &ids(), skill("conventions", &[]));
    assert_eq!(s.targets, ids());
    assert_eq!(md, "skills/conventions/SKILL.md");
    assert_eq!(yaml, "skills/conventions/skill.yaml");
    assert_eq!(mapping.tool_id, "aider");
    assert_eq!(mapping.canonical_path, "skills/conventions/SKILL.md");
    assert_eq!(mapping.projection_path, ".agents/skills/conventions/SKILL.md");
    assert_eq!(mapping.policy, ProjectionPolicy::Generate);
    assert_eq!(mapping.content_sha256, "abc");
    let (kept, _, _, _) = import_skill("aider", &ids(), skill("x", &["cursor"]));
    assert_eq!(kept.targets, vec!["cursor".to_string()]);
    assert_eq!(with_default_targets(Vec::new(), &ids()), ids());
}

#[test]
fn agent_stub_names_the_first_model() {
    let mut a = Agent { slug: "auditor".to_string(), tools: vec![], model_hints: vec![], targets: vec![] };
    assert_eq!(
        agent_stub(&a),
        ("agents/auditor.md".to_string(), "---\nname: auditor\nmodel: auto\n---\n\nImported agent definition.\n".to_string())
    );
    a.model_hints = vec!["opus".to_string(), "x".to_string()];
    assert!(agent_stub(&a).1.contains("\nmodel: opus\n"));
}

#[test]
fn import_reports_paths_in_order() {
    let res = ImportResult {
        skills: vec![skill("a", &[]), skill("b", &[])],
        agents: vec![Agent { slug: "r".to_string(), tools: vec![], model_hints: vec![], targets: vec![] }],
        mcp_servers: vec![McpServer {
            id: "github".to_string(),
            transport: "stdio".to_string(),
            command_or_url: "npx".to_string(),
            env_placeholders: vec![],
            targets: vec![],
            health: HealthStatus::Unknown,
        }],
    };
    assert_eq!(
        import_paths(&res),
        vec!["skills/a/SKILL.md", "skills/b/SKILL.md", "agents/r.md", "mcp_servers/github.json"]
    );
    assert_eq!(server_file(&res.mcp_servers[0]), "mcp_servers/github.json");
}

#[test]
fn brain_files_read_back_with_defaults() {
    let s = skill_from_markdown("notes", "raw".to_string(), "h".to_string(), &ids());
    assert_eq!(s.id, "notes");
    assert_eq!(s.version, "1.0.0");
    assert_eq!(s.triggers, vec!["*".to_string()]);
    assert_eq!(s.targets, ids());
    let a = agent_from_file("auditor", &ids());
    assert_eq!(a.tools, vec!["*".to_string()]);
    assert_eq!(a.model_hints, vec!["auto".to_string()]);
    assert_eq!(a.targets, ids());
}

#[test]
fn projection_outcome_reports_the_last_failure() {
    let ok = projection_outcome(vec![
        ("aider".to_string(), Ok(vec!["CONVENTIONS.md".to_string()])),
        ("cursor".to_string(), Ok(vec![".cursor/rules/x.mdc".to_string()])),
    ]);
    assert_eq!(ok, Ok(vec!["CONVENTIONS.md".to_string(), ".cursor/rules/x.mdc".to_string()]));
    let bad = projection_outcome(vec![
        ("aider".to_string(), Err("one".to_string())),
        ("cursor".to_string(), Ok(vec![])),
        ("zed".to_string(), Err("two".to_string())),
    ]);
    assert_eq!(bad, Err("Adapter zed project failed: two".to_string()));
}

#[test]
fn mcp_server_tables_are_read_from_either_key() {
    let t = mcp_server_table(r#"{"mcpServers": {"b": {}, "a": {"command": "x"}}}"#, ".mcp.json").unwrap();
    let ids: Vec<&str> = t.iter().map(|e| e.0.as_str()).collect();
    assert_eq!(ids, vec!["a", "b"]);
    let t2 = mcp_server_table(r#"{"mcp_servers": {"c": 1}}"#, ".mcp.json").unwrap();
    assert_eq!(t2.len(), 1);
    assert!(mcp_server_table(r#"{"mcpServers": 1, "mcp_servers": {"c": 1}}"#, ".mcp.json").unwrap().is_empty());
    assert!(matches!(
        mcp_server_table("{ not json", ".mcp.json"),
        Err(AdapterError::Malformed(m)) if m.starts_with("Invalid JSON in .mcp.json: ")
    ));
}
