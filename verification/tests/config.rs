use oob_tui::config::Config;

#[test]
fn partial_config_keeps_defaults() {
    let cfg = Config::from_toml(r#"host = "oob""#).unwrap();
    assert_eq!(cfg.host, "oob");
    assert_eq!(cfg.remote_log, "/var/log/interactsh/interactions.jsonl");
    assert!(cfg.editor.is_none());
    assert_eq!(cfg.refresh_secs, 60);
}

#[test]
fn all_fields_parse() {
    let cfg = Config::from_toml("host='h'\nremote_log='/x.jsonl'\neditor='code -w'\nrefresh_secs=10").unwrap();
    assert_eq!(cfg.host, "h");
    assert_eq!(cfg.remote_log, "/x.jsonl");
    assert_eq!(cfg.editor.as_deref(), Some("code -w"));
    assert_eq!(cfg.refresh_secs, 10);
}

#[test]
fn refresh_can_be_disabled() {
    let cfg = Config::from_toml("refresh_secs = 0").unwrap();
    assert_eq!(cfg.refresh_secs, 0);
}

#[test]
fn unknown_field_is_rejected() {
    assert!(Config::from_toml("host='h'\nnope=1").is_err());
}

#[test]
fn empty_config_is_all_defaults() {
    let cfg = Config::from_toml("").unwrap();
    assert!(cfg.host.is_empty());
    assert_eq!(cfg.remote_log, "/var/log/interactsh/interactions.jsonl");
}

#[test]
fn command_line_overrides() {
    assert_eq!(oob_tui::config::effective_host(Some("cli".into()), &"cfg".to_string()), "cli");
    assert_eq!(oob_tui::config::effective_host(None, &"cfg".to_string()), "cfg");
    assert_eq!(oob_tui::config::effective_refresh(true, false, 60), 0);
    assert_eq!(oob_tui::config::effective_refresh(false, true, 60), 0);
    assert_eq!(oob_tui::config::effective_refresh(false, false, 60), 60);
}

