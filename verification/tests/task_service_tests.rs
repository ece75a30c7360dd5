use tg_opencode::models::{ModelStrategy, RunMode, RunTaskOptions, TaskStatus};
use tg_opencode::runner::RunnerResult;
use tg_opencode::task_service::{
    fallback_outcome, format_header, is_retryable_failure, is_success, primary_outcome,
    AttemptOutcome, ContextRecord, ServiceConfig, ServiceError, TaskService,
};

fn config(max_output_chars: usize) -> ServiceConfig {
    ServiceConfig {
        sandbox_root: "/ws".to_string(),
        strategy: ModelStrategy {
            default_model: "gpt-5.3-codex".to_string(),
            fallback_model: "GLM-5".to_string(),
        },
        max_output_chars,
        default_agent: "build".to_string(),
        default_project: "main".to_string(),
        default_thinking: None,
        windows: false,
    }
}

fn names(s: &mut TaskService, chat: i64) -> Vec<String> {
    s.get_context(chat, None, 0).projects.into_iter().map(|p| p.name).collect()
}

#[test]
fn new_chat_gets_the_default_project() {
    let mut s = TaskService::new(config(0));
    let c = s.get_context(1, None, 100);
    assert_eq!(c.key, "1:main");
    assert_eq!(c.active_project, "main");
    assert_eq!(c.version, 0);
    assert_eq!(c.projects.len(), 1);
    let p = &c.projects[0];
    assert_eq!(p.work_dir, "/ws/1-main/main");
    assert_eq!(p.agent, "build");
    assert_eq!(p.model, "gpt-5.3-codex");
    assert_eq!(p.created_at, 100);
    let a = s.get_active_project(1, None, 200);
    assert_eq!(a.name, "main");
    assert_eq!(a.created_at, 100);
    let t = s.get_context(5, Some(9), 0);
    assert_eq!(t.key, "5:9");
    assert_eq!(t.projects[0].work_dir, "/ws/5-9/main");
}

#[test]
fn unusable_default_project_name_falls_back_to_main() {
    let mut cfg = config(0);
    cfg.default_project = " // ".to_string();
    let mut s = TaskService::new(cfg);
    assert_eq!(s.get_context(1, None, 0).active_project, "main");
}

#[test]
fn created_project_becomes_active() {
    let mut s = TaskService::new(config(0));
    let c = s.create_project(1, None, "  My  App ", 200).ok().unwrap();
    assert_eq!(c.active_project, "My-App");
    assert_eq!(c.version, 1);
    assert_eq!(names(&mut s, 1), vec!["My-App", "main"]);
    let a = s.get_active_project(1, None, 300);
    assert_eq!(a.name, "My-App");
    assert_eq!(a.work_dir, "/ws/1-main/My-App");
    assert_eq!(a.created_at, 200);
}

#[test]
fn create_refusals() {
    let mut s = TaskService::new(config(0));
    s.create_project(1, None, "demo", 0).ok().unwrap();
    match s.create_project(1, None, " demo ", 0) {
        Err(e) => {
            assert!(matches!(e, ServiceError::ProjectExists(ref n) if n == "demo"));
            assert_eq!(e.message(), "Project 'demo' already exists.");
        }
        Ok(_) => panic!("created twice"),
    }
    match s.create_project(1, None, " ** ", 0) {
        Err(e) => assert_eq!(e.message(), "Project name cannot be empty."),
        Ok(_) => panic!("created an empty name"),
    }
}

#[test]
fn use_project_switches() {
    let mut s = TaskService::new(config(0));
    s.create_project(1, None, "demo", 0).ok().unwrap();
    let c = s.use_project(1, None, "main", 0).ok().unwrap();
    assert_eq!(c.active_project, "main");
    assert_eq!(c.version, 2);
    assert_eq!(s.get_active_project(1, None, 0).name, "main");
    match s.use_project(1, None, "nope", 0) {
        Err(e) => assert_eq!(e.message(), "Project 'nope' does not exist. Use /projects to list available projects."),
        Ok(_) => panic!("switched to a missing project"),
    }
    // A shown name is found again.
    let shown = s.get_context(1, None, 0).projects[0].name.clone();
    assert!(s.use_project(1, None, &shown, 0).is_ok());
}

#[test]
fn delete_keeps_an_active_project() {
    let mut s = TaskService::new(config(0));
    match s.delete_project(1, None, "main", 0) {
        Err(e) => {
            assert!(matches!(e, ServiceError::LastProject));
            assert_eq!(e.message(), "Cannot delete the last project.");
        }
        Ok(_) => panic!("deleted the last project"),
    }
    s.create_project(1, None, "b", 0).ok().unwrap();
    s.create_project(1, None, "a", 0).ok().unwrap();
    s.use_project(1, None, "main", 0).ok().unwrap();
    let (c, deleted) = s.delete_project(1, None, "main", 0).ok().unwrap();
    assert_eq!(deleted.name, "main");
    assert_eq!(c.active_project, "a");
    assert_eq!(names(&mut s, 1), vec!["a", "b"]);
    let (c, _) = s.delete_project(1, None, "b", 0).ok().unwrap();
    assert_eq!(c.active_project, "a");
    match s.delete_project(1, None, "zzz", 0) {
        Err(e) => assert!(matches!(e, ServiceError::LastProject)),
        Ok(_) => panic!("deleted the last project"),
    }
}

#[test]
fn delete_missing_project() {
    let mut s = TaskService::new(config(0));
    s.create_project(1, None, "b", 0).ok().unwrap();
    match s.delete_project(1, None, "zzz", 0) {
        Err(e) => assert_eq!(e.message(), "Project 'zzz' does not exist. Use /projects to list available projects."),
        Ok(_) => panic!("deleted a missing project"),
    }
}

#[test]
fn settings_of_the_active_project() {
    let mut s = TaskService::new(config(0));
    let p = s.set_agent(1, None, "  plan ", 50).ok().unwrap();
    assert_eq!(p.agent, "plan");
    assert_eq!(p.updated_at, 50);
    match s.set_agent(1, None, "  ", 0) {
        Err(e) => assert_eq!(e.message(), "Agent name cannot be empty."),
        Ok(_) => panic!("blank agent"),
    }
    match s.set_model(1, None, "", 0) {
        Err(e) => assert_eq!(e.message(), "Model cannot be empty."),
        Ok(_) => panic!("blank model"),
    }
    assert_eq!(s.set_model(1, None, " kimi/x ", 0).ok().unwrap().model, "kimi/x");
    assert_eq!(s.set_thinking(1, None, Some(" high "), 0).ok().unwrap().thinking, Some("high".to_string()));
    assert_eq!(s.set_thinking(1, None, Some("  "), 0).ok().unwrap().thinking, None);
    assert_eq!(s.set_thinking(1, None, None, 0).ok().unwrap().thinking, None);
    let snap = s.get_snapshot(1, None, None, 0).ok().unwrap();
    assert_eq!(snap.status, TaskStatus::Idle);
    assert_eq!(snap.agent, "plan");
    assert_eq!(snap.mode, RunMode::Plan);
    assert_eq!(snap.model, "kimi/x");
    assert_eq!(snap.version, 0);
}

#[test]
fn snapshot_of_unknown_project() {
    let mut s = TaskService::new(config(0));
    match s.get_snapshot(1, None, Some("ghost"), 0) {
        Err(e) => assert_eq!(e.message(), "Project 'ghost' does not exist."),
        Ok(_) => panic!("snapshot of a missing project"),
    }
}

#[test]
fn run_then_cancel() {
    let mut s = TaskService::new(config(0));
    let (snap, dir) = s.run(1, None, "fix bug".to_string(), RunTaskOptions::default(), 300).ok().unwrap();
    assert_eq!(snap.status, TaskStatus::Running);
    assert_eq!(snap.key, "1:main|main");
    assert_eq!(snap.project, "main");
    assert_eq!(snap.command, Some("fix bug".to_string()));
    assert_eq!(snap.output, "Project: main\nTask: fix bug\n");
    assert_eq!(snap.version, 1);
    assert_eq!(snap.started_at, Some(300));
    assert_eq!(dir, "/ws/1-main/main");
    // A second run in the chat is refused.
    match s.run(1, None, "again".to_string(), RunTaskOptions::default(), 301) {
        Err(e) => assert_eq!(e.message(), "A task is already running for project 'main'."),
        Ok(_) => panic!("two tasks at once"),
    }
    assert_eq!(s.get_running_snapshot(1, None).unwrap().key, "1:main|main");
    assert!(s.get_running_snapshot(2, None).is_none());
    let (c, had_token) = s.cancel(1, None, None, 400).ok().unwrap();
    assert!(had_token);
    assert_eq!(c.status, TaskStatus::Cancelled);
    assert_eq!(c.finished_at, Some(400));
    assert_eq!(c.version, 2);
    assert!(s.get_running_snapshot(1, None).is_none());
    match s.cancel(1, None, None, 401) {
        Err(e) => assert_eq!(e.message(), "No running task to cancel."),
        Ok(_) => panic!("cancelled twice"),
    }
    // After the cancel the chat can run again.
    assert!(s.run(1, None, "again".to_string(), RunTaskOptions::default(), 500).is_ok());
}

#[test]
fn run_options_override_the_project() {
    let mut s = TaskService::new(config(0));
    s.create_project(1, None, "other", 0).ok().unwrap();
    let options = RunTaskOptions {
        project: Some("main".to_string()),
        model: Some("a/b".to_string()),
        agent: Some("plan".to_string()),
        mode: None,
        thinking: Some(Some("  ".to_string())),
    };
    let (snap, _) = s.run(1, None, "t".to_string(), options, 0).ok().unwrap();
    assert_eq!(snap.project, "main");
    assert_eq!(snap.model, "a/b");
    assert_eq!(snap.agent, "plan");
    assert_eq!(snap.mode, RunMode::Plan);
    assert_eq!(snap.thinking, None);
    let bad = RunTaskOptions { project: Some("ghost".to_string()), ..RunTaskOptions::default() };
    let mut s2 = TaskService::new(config(0));
    match s2.run(1, None, "t".to_string(), bad, 0) {
        Err(e) => assert_eq!(e.message(), "Project 'ghost' does not exist."),
        Ok(_) => panic!("ran in a missing project"),
    }
}

#[test]
fn busy_project_cannot_be_deleted() {
    let mut s = TaskService::new(config(0));
    s.create_project(1, None, "other", 0).ok().unwrap();
    s.run(1, None, "t".to_string(), RunTaskOptions::default(), 0).ok().unwrap();
    match s.delete_project(1, None, "other", 0) {
        Err(e) => assert_eq!(e.message(), "Project 'other' has a running task. Cancel it before deleting the project."),
        Ok(_) => panic!("deleted a busy project"),
    }
    assert!(s.delete_project(1, None, "main", 0).is_ok());
}

#[test]
fn task_lifecycle() {
    let mut s = TaskService::new(config(0));
    let (snap, _) = s.run(1, None, "t".to_string(), RunTaskOptions::default(), 0).ok().unwrap();
    let key = snap.key.clone();
    s.append_output(&key, &format_header(&snap, "GLM-5")).ok().unwrap();
    s.mark_attempt(&key, "gpt-5.3-codex").ok().unwrap();
    let req = s.attempt_request(&key, "gpt-5.3-codex", "/ws/1-main/main").ok().unwrap();
    assert_eq!(req.task, "t");
    assert_eq!(req.model, "gpt-5.3-codex");
    assert_eq!(req.agent, Some("build".to_string()));
    s.append_output(&key, "hello\n").ok().unwrap();
    s.set_session(&key, "ses_1", 10).ok().unwrap();
    assert_eq!(s.get_active_project(1, None, 0).session_id, Some("ses_1".to_string()));
    s.set_fallback_used(&key).ok().unwrap();
    assert_eq!(s.is_cancelled(&key).ok(), Some(false));
    s.finish(&key, TaskStatus::Success, Some(0), None, "Completed with model gpt-5.3-codex.", 20).ok().unwrap();
    let t = s.task_snapshot(&key).ok().unwrap();
    assert_eq!(t.status, TaskStatus::Success);
    assert_eq!(t.exit_code, Some(0));
    assert_eq!(t.finished_at, Some(20));
    assert_eq!(t.attempted_models, vec!["gpt-5.3-codex"]);
    assert_eq!(t.last_run_model, Some("gpt-5.3-codex".to_string()));
    assert!(t.fallback_used);
    assert_eq!(t.session_id, Some("ses_1".to_string()));
    assert_eq!(
        t.output,
        "Project: main\nTask: t\nAgent: build; Mode: Build; Model: gpt-5.3-codex; Thinking: -; Session: new\nModel strategy: gpt-5.3-codex -> GLM-5\n\n--- Running with model: gpt-5.3-codex ---\nhello\n\nCompleted with model gpt-5.3-codex.\n"
    );
    assert_eq!(t.version, 7);
    let missing = "nope".to_string();
    assert!(matches!(s.task_snapshot(&missing), Err(ServiceError::TaskNotFound)));
    assert!(matches!(s.append_output(&missing, "x"), Err(ServiceError::TaskNotFound)));
    assert_eq!(ServiceError::TokenMissing.message(), "Task cancel token missing.");
}

#[test]
fn output_limit_keeps_the_last_bytes() {
    let mut s = TaskService::new(config(10));
    let (snap, _) = s.run(1, None, "t".to_string(), RunTaskOptions::default(), 0).ok().unwrap();
    let key = snap.key.clone();
    assert!(s.can_append_output(&key, "0123456789abc"));
    s.append_output(&key, "0123456789abc").ok().unwrap();
    assert_eq!(s.task_snapshot(&key).ok().unwrap().output, "3456789abc");
    assert!(s.can_append_output(&key, "éé"));
    s.append_output(&key, "éé").ok().unwrap();
    assert_eq!(s.task_snapshot(&key).ok().unwrap().output, "789abcéé");
    // Keeping the last ten bytes here would cut a two-byte character.
    assert!(!s.can_append_output(&key, "abcdefg"));
}

#[test]
fn restore_fails_running_tasks() {
    let mut s = TaskService::new(config(0));
    let (snap, _) = s.run(1, None, "t".to_string(), RunTaskOptions::default(), 0).ok().unwrap();
    let tasks = s.task_snapshots();
    let contexts = s.saved_contexts();
    let mut r = TaskService::restore(config(0), tasks, contexts, 99);
    let t = r.task_snapshot(&snap.key).ok().unwrap();
    assert_eq!(t.status, TaskStatus::Failed);
    assert_eq!(t.finished_at, Some(99));
    assert!(t.output.ends_with("\nTask interrupted by bot restart.\n"));
    assert_eq!(t.version, 2);
    assert!(r.get_running_snapshot(1, None).is_none());
    assert_eq!(r.get_context(1, None, 0).active_project, "main");
}

#[test]
fn restore_keeps_what_can_be_taken_up() {
    let mut s = TaskService::new(config(0));
    s.create_project(2, None, "keep", 10).ok().unwrap();
    let (snap, _) = s.run(2, None, "t".to_string(), RunTaskOptions::default(), 20).ok().unwrap();
    let mut contexts = s.saved_contexts();
    // A context without projects, and one whose active project is missing.
    contexts.push(ContextRecord { key: "1:main".to_string(), active_project: "x".to_string(), projects: Vec::new(), version: 0 });
    let mut other = s.saved_contexts().remove(0);
    other.key = "3:main".to_string();
    other.active_project = "gone".to_string();
    contexts.push(other);
    let mut tasks = s.task_snapshots();
    // A second task under a key already taken: the first one stays.
    let mut dup = tasks[0].clone();
    dup.output = "other".to_string();
    tasks.push(dup);
    let mut r = TaskService::restore(config(0), tasks, contexts, 30);
    let kept = r.get_context(2, None, 40);
    assert_eq!(kept.active_project, "keep");
    assert_eq!(kept.projects.len(), 2);
    let t = r.task_snapshot(&snap.key).ok().unwrap();
    assert_eq!(t.status, TaskStatus::Failed);
    assert_ne!(t.output, "other");
    // The contexts left out start afresh with the default project.
    let fresh = r.get_context(1, None, 50);
    assert_eq!(fresh.active_project, "main");
    assert_eq!(fresh.projects.len(), 1);
    assert_eq!(r.get_context(3, None, 50).active_project, "main");
}

fn result(exit_code: Option<i32>, output: &str, error: Option<&str>) -> RunnerResult {
    RunnerResult {
        exit_code,
        signal: None,
        output: output.to_string(),
        error_message: error.map(|e| e.to_string()),
        session_id: None,
    }
}

#[test]
fn attempt_decisions() {
    assert!(is_success(&result(Some(0), "", None)));
    assert!(!is_success(&result(Some(1), "", None)));
    assert!(!is_success(&result(None, "", None)));
    assert!(is_retryable_failure(&result(Some(1), "Error: Rate  Limit", None)) == false);
    assert!(is_retryable_failure(&result(Some(1), "error: rate  limit", None)));
    assert!(is_retryable_failure(&result(Some(1), "", Some("HTTP 429"))));
    assert!(is_retryable_failure(&result(Some(1), "insufficient_credit", None)));
    assert!(!is_retryable_failure(&result(Some(1), "syntax error", None)));
    match primary_outcome(false, &result(Some(1), "quota exceeded", None), "a", "b") {
        AttemptOutcome::Retry(n) => assert_eq!(n, "\nPrimary model failed with quota/rate-limit style error. Retrying once with b.\n"),
        _ => panic!("expected a retry"),
    }
    match primary_outcome(false, &result(Some(1), "quota exceeded", None), "a", "a") {
        AttemptOutcome::Finish(s, f) => {
            assert_eq!(s, TaskStatus::Failed);
            assert_eq!(f, "Failed with model a.");
        }
        _ => panic!("no retry with the same model"),
    }
    match primary_outcome(true, &result(Some(0), "", None), "a", "b") {
        AttemptOutcome::Finish(s, f) => {
            assert_eq!(s, TaskStatus::Cancelled);
            assert_eq!(f, "Task cancelled.");
        }
        _ => panic!("cancel wins"),
    }
    match primary_outcome(false, &result(Some(0), "", None), "a", "b") {
        AttemptOutcome::Finish(s, f) => {
            assert_eq!(s, TaskStatus::Success);
            assert_eq!(f, "Completed with model a.");
        }
        _ => panic!("success ends the task"),
    }
    assert_eq!(fallback_outcome(false, &result(Some(0), "", None), "b"), (TaskStatus::Success, "Completed via fallback model b.".to_string()));
    assert_eq!(fallback_outcome(false, &result(Some(2), "quota", None), "b"), (TaskStatus::Failed, "Fallback model b failed.".to_string()));
    assert_eq!(fallback_outcome(true, &result(Some(2), "", None), "b"), (TaskStatus::Cancelled, "Task cancelled.".to_string()));
}

#[test]
fn saved_state_is_restored() {
    let mut s = TaskService::new(config(0));
    s.create_project(1, None, "b", 10).ok().unwrap();
    s.set_model(1, None, "x/y", 20).ok().unwrap();
    s.create_project(2, Some(4), "c", 30).ok().unwrap();
    let (snap, _) = s.run(2, Some(4), "t".to_string(), RunTaskOptions::default(), 40).ok().unwrap();
    let key = snap.key.clone();
    s.finish(&key, TaskStatus::Failed, Some(3), None, "Failed with model gpt-5.3-codex.", 50).ok().unwrap();
    let before_1 = s.get_context(1, None, 0);
    let before_2 = s.get_context(2, Some(4), 0);
    let before_task = s.task_snapshot(&key).ok().unwrap();
    let mut r = TaskService::restore(config(0), s.task_snapshots(), s.saved_contexts(), 60);
    for (chat, thread, before) in [(1, None, before_1), (2, Some(4), before_2)] {
        let after = r.get_context(chat, thread, 0);
        assert_eq!(after.active_project, before.active_project);
        assert_eq!(after.version, before.version);
        let a: Vec<(String, String, String)> = after.projects.iter().map(|p| (p.name.clone(), p.model.clone(), p.work_dir.clone())).collect();
        let b: Vec<(String, String, String)> = before.projects.iter().map(|p| (p.name.clone(), p.model.clone(), p.work_dir.clone())).collect();
        assert_eq!(a, b);
    }
    let t = r.task_snapshot(&key).ok().unwrap();
    assert_eq!(t.status, before_task.status);
    assert_eq!(t.output, before_task.output);
    assert_eq!(t.version, before_task.version);
}

#[test]
fn project_folders_on_windows() {
    let mut cfg = config(0);
    cfg.sandbox_root = r"C:\ws".to_string();
    cfg.windows = true;
    let mut s = TaskService::new(cfg);
    assert_eq!(s.get_active_project(7, None, 0).work_dir, r"C:\ws\7-main\main");
    s.create_project(7, Some(2), "My App", 1).ok().unwrap();
    assert_eq!(s.get_active_project(7, Some(2), 2).work_dir, r"C:\ws\7-2\My-App");
}
