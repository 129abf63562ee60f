use wrk::config::{
    Config, FileConfig, expand_tilde, expand_tilde_with, resolve_editor_from_env, validate_kind,
    validate_project, validate_token,
};

fn test_config() -> Config {
    Config {
        log_dir: "/tmp/wrk-test".to_string(),
        default_project: None,
        default_type: "note".to_string(),
        types: vec!["note".to_string(), "build".to_string()],
        editor: Some("true".to_string()),
    }
}

fn empty_file() -> FileConfig {
    FileConfig { log_dir: None, default_project: None, default_type: None, types: None, editor: None }
}

#[test]
fn expands_tilde_prefix() {
    let path = expand_tilde("~/logs").unwrap();
    assert!(path.ends_with("logs"));
}

#[test]
fn rejects_bad_type_tokens() {
    let err = validate_kind("status update").unwrap_err();
    assert!(err.to_string().contains("cannot contain whitespace"));
}

#[test]
fn tilde_expansion_uses_the_home_directory() {
    assert_eq!(expand_tilde_with("~", "/home/me"), "/home/me");
    assert_eq!(expand_tilde_with("~/logs", "/home/me"), "/home/me/logs");
    assert_eq!(expand_tilde_with("/var/log", "/home/me"), "/var/log");
    assert_eq!(expand_tilde_with("~other/x", "/home/me"), "~other/x");
}

#[test]
fn tokens_must_be_non_empty_without_spaces_or_colons() {
    assert_eq!(validate_token("project", "").unwrap_err().to_string(), "project cannot be empty");
    assert_eq!(
        validate_token("type", "a:b").unwrap_err().to_string(),
        "type `a:b` cannot contain whitespace or `:`"
    );
    assert!(validate_token("type", "build").is_ok());
    assert!(validate_project(None).is_ok());
    assert!(validate_project(Some("a\tb")).is_err());
}

#[test]
fn resolves_project_and_kind_from_defaults() {
    let mut config = test_config();
    assert_eq!(config.resolve_project(None).unwrap(), None);
    config.default_project = Some("api".to_string());
    assert_eq!(config.resolve_project(None).unwrap(), Some("api".to_string()));
    assert_eq!(config.resolve_project(Some("cli")).unwrap(), Some("cli".to_string()));
    assert_eq!(config.resolve_kind(None).unwrap(), "note");
    assert_eq!(config.resolve_kind(Some("build")).unwrap(), "build");
    assert_eq!(
        config.resolve_kind(Some("meeting")).unwrap_err().to_string(),
        "unknown type `meeting`; allowed types: note, build"
    );
}

#[test]
fn loading_applies_defaults_and_overrides() {
    let config = Config::load(empty_file(), Some("/srv/logs".to_string()), None).unwrap();
    assert_eq!(config.log_dir, "/srv/logs");
    assert_eq!(config.default_type, "note");
    assert_eq!(config.types, vec!["note".to_string()]);
    assert_eq!(config.default_project, None);
    assert_eq!(config.editor, None);

    let file = FileConfig {
        log_dir: Some("/data/wrk".to_string()),
        default_project: Some(String::new()),
        default_type: Some("build".to_string()),
        types: Some(vec!["note".to_string()]),
        editor: None,
    };
    let config = Config::load(file, None, Some("vim".to_string())).unwrap();
    assert_eq!(config.log_dir, "/data/wrk");
    assert_eq!(config.default_project, None);
    assert_eq!(config.types, vec!["note".to_string(), "build".to_string()]);
    assert_eq!(config.editor, Some("vim".to_string()));
}

#[test]
fn loading_rejects_bad_settings() {
    let file = FileConfig {
        log_dir: None,
        default_project: Some("my project".to_string()),
        default_type: None,
        types: None,
        editor: None,
    };
    assert!(Config::load(file, None, None).is_err());
    let file = FileConfig {
        log_dir: None,
        default_project: None,
        default_type: None,
        types: Some(vec!["ok".to_string(), "".to_string()]),
        editor: None,
    };
    assert_eq!(Config::load(file, None, None).unwrap_err().to_string(), "type cannot be empty");
}

#[test]
fn editor_falls_back_from_visual_to_editor() {
    assert_eq!(resolve_editor_from_env(Some("code".to_string()), Some("vim".to_string())), Some("code".to_string()));
    assert_eq!(resolve_editor_from_env(Some(String::new()), Some("vim".to_string())), Some("vim".to_string()));
    assert_eq!(resolve_editor_from_env(None, Some(String::new())), None);
}
