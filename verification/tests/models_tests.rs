use tg_opencode::models::{RunMode, RunTaskOptions};

#[test]
fn mode_follows_agent_name() {
    assert_eq!(RunMode::from_agent("plan"), RunMode::Plan);
    assert_eq!(RunMode::from_agent("  PLAN "), RunMode::Plan);
    assert_eq!(RunMode::from_agent("build"), RunMode::Build);
    assert_eq!(RunMode::from_agent("planner"), RunMode::Build);
    assert_eq!(RunMode::from_agent(""), RunMode::Build);
}

#[test]
fn default_options_override_nothing() {
    let o = RunTaskOptions::default();
    assert!(o.project.is_none());
    assert!(o.model.is_none());
    assert!(o.agent.is_none());
    assert!(o.mode.is_none());
    assert!(o.thinking.is_none());
}
