use tg_opencode::models::{ContextSnapshot, ProjectSettings, RunMode};
use tg_opencode::replies::{
    agents_reply, check_delete, created_card_text, delete_prompt_text, delete_target,
    filter_models, model_list_text, models_from_listing, project_list_text, task_prompt_text,
    DeleteCheck,
};

fn project(name: &str) -> ProjectSettings {
    ProjectSettings {
        name: name.to_string(),
        work_dir: format!("/ws/1-main/{}", name),
        agent: "build".to_string(),
        model: "m".to_string(),
        thinking: None,
        session_id: None,
        created_at: 0,
        updated_at: 0,
    }
}

fn context(active: &str, names: &[&str]) -> ContextSnapshot {
    ContextSnapshot {
        key: "1:main".to_string(),
        active_project: active.to_string(),
        projects: names.iter().map(|n| project(n)).collect(),
        version: 0,
    }
}

#[test]
fn project_list_marks_active_project() {
    let mut c = context("b", &["a", "b"]);
    c.projects[1].thinking = Some("high".to_string());
    c.projects[1].session_id = Some("s1".to_string());
    assert_eq!(
        project_list_text(&c, true),
        "Active project: b\n\nProjects:\n- a | agent=build | model=m | thinking=- | session=-\n* b | agent=build | model=m | thinking=high | session=s1\n\nUse /new <name> to create, /use <name> to switch."
    );
    assert_eq!(
        project_list_text(&context("a", &["a"]), false),
        "Active project: a\n\nProjects:\n* a | agent=build | model=m | thinking=- | session=-"
    );
}

#[test]
fn agent_listing_replies() {
    assert_eq!(agents_reply(false, "out", "err "), "Failed to list agents.\nerr out");
    assert_eq!(agents_reply(true, "\u{1b}[1mnothing here\u{1b}[0m", ""), "nothing here");
    assert_eq!(agents_reply(true, "build (primary)\nplan (primary)\n", ""), "Available agents:\n- build (primary)\n- plan (primary)");
    let many: String = (0..45).map(|i| format!("a{} (subagent)\n", i)).collect();
    let text = agents_reply(true, &many, "");
    assert!(text.starts_with("Available agents:\n- a0 (subagent)\n"));
    assert!(text.contains("- a39 (subagent)\n... and 5 more"));
    assert!(!text.contains("a40"));
}

#[test]
fn model_listing_outcomes() {
    assert_eq!(models_from_listing(false, "o", "e"), Err("Failed to list models.\neo".to_string()));
    assert_eq!(models_from_listing(true, "no models", ""), Err("No models found.".to_string()));
    assert_eq!(models_from_listing(true, "a/b\nc/d\n", ""), Ok(vec!["a/b".to_string(), "c/d".to_string()]));
}

#[test]
fn models_are_filtered_by_keyword() {
    let ms = vec!["OpenAI/GPT-4o".to_string(), "kimi/moonshot".to_string(), "openai/o3".to_string()];
    assert_eq!(filter_models(&ms, "openai"), vec!["OpenAI/GPT-4o", "openai/o3"]);
    assert_eq!(filter_models(&ms, ""), ms);
    assert!(filter_models(&ms, "zzz").is_empty());
}

#[test]
fn model_list_texts() {
    assert_eq!(model_list_text(&Vec::new(), ""), "No models found.");
    assert_eq!(model_list_text(&Vec::new(), "gpt"), "No models matching 'gpt'.");
    assert_eq!(model_list_text(&vec!["a/b".to_string()], ""), "Available models:\n- a/b");
    assert_eq!(model_list_text(&vec!["a/b".to_string()], "a"), "Models matching 'a':\n- a/b");
    let many: Vec<String> = (0..41).map(|i| format!("p/m{}", i)).collect();
    assert!(model_list_text(&many, "").ends_with("- p/m39\n... and 1 more. Add keyword: /model list <keyword>"));
}

#[test]
fn delete_this_target() {
    assert_eq!(delete_target(&context("h", &["a", "b", "c", "d", "e", "f", "g", "h"])), Some((7, 1)));
    assert_eq!(delete_target(&context("zz", &["a", "b"])), Some((0, 0)));
    assert_eq!(delete_target(&context("a", &[])), None);
}

#[test]
fn delete_checks() {
    let c = context("a", &["a", "b"]);
    assert!(matches!(check_delete(&context("a", &["a"]), 0, None), DeleteCheck::LastProject));
    assert!(matches!(check_delete(&c, 5, None), DeleteCheck::NoTarget));
    match check_delete(&c, 1, Some("b")) {
        DeleteCheck::Busy(n) => assert_eq!(n, "b"),
        _ => panic!("expected busy"),
    }
    match check_delete(&c, 1, Some("a")) {
        DeleteCheck::Delete(n) => assert_eq!(n, "b"),
        _ => panic!("expected delete"),
    }
    match check_delete(&c, 0, None) {
        DeleteCheck::Delete(n) => assert_eq!(n, "a"),
        _ => panic!("expected delete"),
    }
}

#[test]
fn project_cards() {
    let p = project("demo");
    assert_eq!(
        delete_prompt_text(&p),
        "Delete project 'demo' ?\nThis will remove project data and delete folder:\n/ws/1-main/demo"
    );
    assert_eq!(
        created_card_text("demo", &p),
        "Created and switched to project 'demo'.\n\nProject: demo\nAgent: build\nModel: m\nThinking: -\nSession: -\nWorkdir: /ws/1-main/demo"
    );
}

#[test]
fn task_prompts_name_the_mode() {
    assert_eq!(task_prompt_text(None), "Send your task prompt in the next message. Mode: None. Type 'cancel' to abort.");
    assert_eq!(task_prompt_text(Some(RunMode::Plan)), "Send your task prompt in the next message. Mode: Some(Plan). Type 'cancel' to abort.");
    assert_eq!(task_prompt_text(Some(RunMode::Build)), format!("Send your task prompt in the next message. Mode: {:?}. Type 'cancel' to abort.", Some(RunMode::Build)));
}
