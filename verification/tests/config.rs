use synapse::config::{config_file_path, expand_tilde};

#[test]
fn tilde_expands_to_home() {
    assert_eq!(expand_tilde("~/AIBrain", Some("/home/u")), "/home/u/AIBrain");
    assert_eq!(expand_tilde("~/AIBrain", None), "~/AIBrain");
    assert_eq!(expand_tilde("/etc/x", Some("/home/u")), "/etc/x");
    assert_eq!(expand_tilde("~user/x", Some("/home/u")), "~user/x");
}

#[test]
fn settings_file_lives_in_the_config_dir() {
    assert_eq!(
        config_file_path(Some("/home/u/.config/llm-neurosurgeon")),
        Ok("/home/u/.config/llm-neurosurgeon/settings.json".to_string())
    );
    assert_eq!(
        config_file_path(None),
        Err("could not determine an OS config directory for this platform".to_string())
    );
}

#[test]
fn first_run_settings() {
    let c = synapse::config::AppConfig::with_defaults(vec!["AGENTS.md".to_string()]);
    assert_eq!(c.project_root, "~/AIBrain");
    assert_eq!(c.adapter_paths, vec!["AGENTS.md".to_string()]);
    assert!(c.workspace_mode && c.dark_mode && c.auto_save && !c.sync_enabled);
}
