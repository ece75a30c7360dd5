use tg_opencode::runner::{
    parse_agent_list, parse_model_list, session_after_run, session_from_listing, ListingError,
    OpenCodeRunner, RunnerRequest,
};

#[test]
fn model_list_keeps_model_ids() {
    let out = "acme/coder-3\n\u{1b}[32mvendor/big-4o\u{1b}[0m\nNot a model\n  kimi/moonshot-v1-128k  \nUPPER/Case\n";
    assert_eq!(
        parse_model_list(out),
        vec!["acme/coder-3", "vendor/big-4o", "kimi/moonshot-v1-128k"]
    );
    assert!(parse_model_list("").is_empty());
}

#[test]
fn agent_list_keeps_named_agents() {
    let out = "build (primary)\r\nplan (primary)\n  general (subagent)  \nfoo bar\nx (tool)\n";
    assert_eq!(
        parse_agent_list(out),
        vec!["build (primary)", "plan (primary)", "general (subagent)"]
    );
}

#[test]
fn runner_defaults_and_extra_args() {
    let r = OpenCodeRunner::new(None, Some("--log  debug ".to_string()), false);
    assert_eq!(r.bin, "opencode");
    assert_eq!(r.base_args, vec!["--log", "debug"]);
    let w = OpenCodeRunner::new(None, None, true);
    assert_eq!(w.bin, "opencode.cmd");
    assert!(w.base_args.is_empty());
    let c = OpenCodeRunner::new(Some("/opt/oc".to_string()), None, false);
    assert_eq!(c.bin, "/opt/oc");
}

#[test]
fn run_arguments_skip_blank_settings() {
    let r = OpenCodeRunner::new(None, Some("--log debug".to_string()), false);
    let req = RunnerRequest {
        task: "do it".to_string(),
        model: "m".to_string(),
        work_dir: "/w".to_string(),
        agent: Some("plan".to_string()),
        thinking: Some("  ".to_string()),
        session_id: Some("s1".to_string()),
    };
    assert_eq!(
        r.run_args(&req),
        vec!["--log", "debug", "run", "--model", "m", "--agent", "plan", "--session", "s1", "do it"]
    );
    let req2 = RunnerRequest {
        task: "t".to_string(),
        model: "m".to_string(),
        work_dir: "/w".to_string(),
        agent: None,
        thinking: Some("high".to_string()),
        session_id: None,
    };
    assert_eq!(r.run_args(&req2), vec!["--log", "debug", "run", "--model", "m", "--variant", "high", "t"]);
}

#[test]
fn session_is_found_by_directory() {
    let listing = r#"[{"id":"a","directory":"/other"},{"id":"b","directory":"C:\\Work\\Proj"},{"id":"c","directory":"c:/work/proj"}]"#;
    assert_eq!(session_from_listing(true, listing, "c:/work/proj"), Ok(Some("b".to_string())));
    assert_eq!(session_from_listing(true, listing, "/nowhere"), Ok(None));
    assert_eq!(session_from_listing(false, listing, "/other"), Ok(None));
    assert_eq!(session_from_listing(true, "{\"id\":\"a\"}", "/other"), Ok(None));
    assert_eq!(session_from_listing(true, "not json", "/other"), Err(ListingError::InvalidJson));
}

#[test]
fn session_after_run_falls_back_to_previous() {
    assert_eq!(session_after_run(Ok(Some("x".to_string())), Some("p".to_string())), Some("x".to_string()));
    assert_eq!(session_after_run(Ok(None), Some("p".to_string())), Some("p".to_string()));
    assert_eq!(session_after_run(Err(ListingError::InvalidJson), None), None);
}
