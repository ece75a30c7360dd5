use tg_opencode::models::{RunMode, TaskSnapshot, TaskStatus};
use tg_opencode::output::{
    can_show, can_split_output, clean_output_line, completion_text, is_noise_output_line,
    monitor_step, normalized_output, output_messages, render_output, split_output_chunks,
    task_to_text,
};

fn snapshot(status: TaskStatus, output: &str) -> TaskSnapshot {
    TaskSnapshot {
        key: "1:main|p".to_string(),
        context_key: "1:main".to_string(),
        project: "p".to_string(),
        command: Some("do".to_string()),
        status,
        started_at: Some(1),
        finished_at: None,
        exit_code: None,
        signal: None,
        output: output.to_string(),
        attempted_models: Vec::new(),
        last_run_model: None,
        fallback_used: false,
        model: "m".to_string(),
        agent: "build".to_string(),
        mode: RunMode::Build,
        thinking: None,
        session_id: None,
        version: 3,
    }
}

#[test]
fn output_lines_are_cleaned() {
    assert_eq!(clean_output_line("\u{1b}[32m  % hello  \r"), "hello");
    assert_eq!(clean_output_line("%%%"), "");
    assert_eq!(clean_output_line("  plain  "), "plain");
    assert_eq!(clean_output_line("100%"), "100%");
}

#[test]
fn own_lines_are_noise() {
    assert!(is_noise_output_line(""));
    assert!(is_noise_output_line("Project: x"));
    assert!(is_noise_output_line("TASK CANCELLED."));
    assert!(is_noise_output_line("--- Running with model: m ---"));
    assert!(is_noise_output_line("Model strategy: a -> b"));
    assert!(!is_noise_output_line("real output"));
    assert!(!is_noise_output_line(" project: indented"));
}

#[test]
fn output_is_normalized() {
    let out = "Project: p\nTask: t\n\nhello\n\u{1b}[1mworld\u{1b}[0m\n--- Running with model: m ---\nCompleted with model m.\n";
    assert_eq!(normalized_output(out), "hello\nworld");
    assert_eq!(normalized_output(""), "");
}

#[test]
fn output_is_cut_into_messages() {
    assert_eq!(split_output_chunks("a\nbb\nccc", 4), vec!["a\nbb", "ccc"]);
    assert_eq!(split_output_chunks("abcdefghij", 4), vec!["abcd", "efgh", "ij"]);
    assert_eq!(split_output_chunks("x\nabcdefghij\ny", 4), vec!["x", "abcd", "efgh", "ij", "y"]);
    assert!(split_output_chunks("", 4).is_empty());
    for c in split_output_chunks("one\ntwo\nthree four five six\nseven", 5) {
        assert!(!c.is_empty() && c.len() <= 5);
    }
}

#[test]
fn cuts_must_fall_on_character_boundaries() {
    assert!(!can_split_output("ééé", 3));
    assert!(can_split_output("ééé", 4));
    assert_eq!(split_output_chunks("ééé", 4), vec!["éé", "é"]);
    assert!(!can_split_output("abc", 0));
    assert!(can_split_output("\n\n", 0));
    assert!(can_split_output("short", 2800));
}

#[test]
fn completion_lines() {
    let mut s = snapshot(TaskStatus::Success, "");
    assert_eq!(completion_text(&s), "Completed with model m.");
    s.last_run_model = Some("fb".to_string());
    assert_eq!(completion_text(&s), "Completed with model fb.");
    s.status = TaskStatus::Failed;
    assert_eq!(completion_text(&s), "Failed with model fb.");
    s.status = TaskStatus::Cancelled;
    assert_eq!(completion_text(&s), "Task cancelled.");
    s.status = TaskStatus::Running;
    assert_eq!(completion_text(&s), "Running with model fb...");
    s.status = TaskStatus::Idle;
    assert_eq!(completion_text(&s), "Idle.");
}

#[test]
fn status_card_escapes_html() {
    let mut s = snapshot(TaskStatus::Failed, "");
    s.last_run_model = Some("x<y".to_string());
    assert_eq!(
        task_to_text(&s),
        "Status: Failed\nProject: p\nAgent: build\nMode: Build\nModel: x<y\n\n<pre>Failed with model x&lt;y.</pre>"
    );
    let r = snapshot(TaskStatus::Running, "");
    assert_eq!(
        task_to_text(&r),
        "Status: Running\nProject: p\nAgent: build\nMode: Build\nModel: m\n\n<pre>Streaming output...</pre>"
    );
}

#[test]
fn status_card_is_cut_to_message_size() {
    let mut s = snapshot(TaskStatus::Idle, "");
    s.project = "p".repeat(5000);
    let t = task_to_text(&s);
    assert_eq!(t.chars().count(), 3900);
    assert!(t.ends_with("<pre>Idle.</pre>"));
}

#[test]
fn live_output_message() {
    assert_eq!(render_output(&snapshot(TaskStatus::Running, "")), "<pre>Waiting for output...\n\n▍</pre>");
    assert_eq!(render_output(&snapshot(TaskStatus::Success, "Project: p\nhi & bye")), "<pre>hi &amp; bye</pre>");
    assert_eq!(render_output(&snapshot(TaskStatus::Running, "line1")), "<pre>line1\n\n▍</pre>");
    assert_eq!(render_output(&snapshot(TaskStatus::Cancelled, "")), "<pre>Task cancelled.</pre>");
    assert!(can_show(&snapshot(TaskStatus::Running, "x")));
}

#[test]
fn status_output_messages() {
    assert_eq!(output_messages(&snapshot(TaskStatus::Success, "a\n  \nb")), vec!["<pre>a\nb</pre>"]);
    assert!(output_messages(&snapshot(TaskStatus::Success, "Task: t")).is_empty());
}

#[test]
fn monitor_redraws_on_new_version_only() {
    let s = snapshot(TaskStatus::Running, "hello");
    let u = monitor_step(&s, 3, "");
    assert!(u.status_text.is_none() && u.output_text.is_none() && !u.done);
    let u = monitor_step(&s, 2, "");
    assert_eq!(u.status_text, Some(task_to_text(&s)));
    assert_eq!(u.output_text, Some("<pre>hello\n\n▍</pre>".to_string()));
    let u = monitor_step(&s, 2, "<pre>hello\n\n▍</pre>");
    assert!(u.status_text.is_some() && u.output_text.is_none());
    let done = snapshot(TaskStatus::Success, "hello");
    assert!(monitor_step(&done, 2, "").done);
}
