use tg_opencode::runtime_env::EnvVars;
use tg_opencode::settings::settings_from_env;

fn env(pairs: &[(&str, &str)]) -> EnvVars {
    EnvVars::from_pairs(pairs.iter().map(|(k, v)| (k.to_string(), v.to_string())).collect())
}

#[test]
fn token_is_required() {
    match settings_from_env(&env(&[]), false) {
        Err(e) => assert_eq!(e, "Missing BOT_TOKEN in environment."),
        Ok(_) => panic!("settings without a token"),
    }
}

#[test]
fn defaults() {
    let s = settings_from_env(&env(&[("BOT_TOKEN", "t")]), false).ok().unwrap();
    assert_eq!(s.bot_token, "t");
    assert_eq!(s.workspace_root, "workspace");
    assert_eq!(s.history_file, "data/task-history.json");
    assert_eq!(s.config.sandbox_root, "workspace");
    assert_eq!(s.config.strategy.default_model, "gpt-5.3-codex");
    assert_eq!(s.config.strategy.fallback_model, "GLM-5");
    assert_eq!(s.config.max_output_chars, 0);
    assert_eq!(s.config.default_agent, "build");
    assert_eq!(s.config.default_project, "main");
    assert_eq!(s.config.default_thinking, None);
}

#[test]
fn values_from_environment() {
    let s = settings_from_env(&env(&[
        ("BOT_TOKEN", "t"),
        ("WORKSPACE_ROOT", "/srv/ws"),
        ("DEFAULT_MODEL", "a/b"),
        ("FALLBACK_MODEL", "c/d"),
        ("TASK_HISTORY_FILE", "/tmp/h.json"),
        ("MAX_OUTPUT_CHARS", "5000"),
        ("DEFAULT_AGENT", "plan"),
        ("DEFAULT_PROJECT_NAME", "home"),
        ("DEFAULT_THINKING", "  high "),
    ]), false)
    .ok()
    .unwrap();
    assert_eq!(s.config.sandbox_root, "/srv/ws");
    assert_eq!(s.config.strategy.default_model, "a/b");
    assert_eq!(s.config.strategy.fallback_model, "c/d");
    assert_eq!(s.history_file, "/tmp/h.json");
    assert_eq!(s.config.max_output_chars, 5000);
    assert_eq!(s.config.default_agent, "plan");
    assert_eq!(s.config.default_project, "home");
    assert_eq!(s.config.default_thinking, Some("high".to_string()));
    let s = settings_from_env(&env(&[("BOT_TOKEN", "t"), ("MAX_OUTPUT_CHARS", "lots"), ("DEFAULT_THINKING", "  ")]), false).ok().unwrap();
    assert_eq!(s.config.max_output_chars, 0);
    assert_eq!(s.config.default_thinking, None);
}
