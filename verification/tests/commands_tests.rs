use tg_opencode::commands::{
    is_cache_fresh, is_delete_this, is_pending_alive, model_cache_key, monitor_key,
    parse_agent_args, parse_callback, parse_mode_arg, parse_model_args, parse_run_payload,
    parse_thinking_args, parse_usize, pending_key, plain_text_action, run_request, AgentRequest,
    command_action, CallbackAction, ChatCommand, CommandAction, ModelRequest, PendingInput, PendingKind, TextAction, ThinkingRequest,
};
use tg_opencode::menus::{model_picker, project_delete_confirm_menu, project_delete_menu, project_switch_menu};
use tg_opencode::models::RunMode;

fn chars(s: &str) -> Vec<char> {
    s.chars().collect()
}

#[test]
fn numbers_are_read_like_str_parse() {
    assert_eq!(parse_usize(&chars("42")), Some(42));
    assert_eq!(parse_usize(&chars("+7")), Some(7));
    assert_eq!(parse_usize(&chars("007")), Some(7));
    assert_eq!(parse_usize(&chars("")), None);
    assert_eq!(parse_usize(&chars("+")), None);
    assert_eq!(parse_usize(&chars("-1")), None);
    assert_eq!(parse_usize(&chars("1a")), None);
    assert_eq!(parse_usize(&chars(&usize::MAX.to_string())), Some(usize::MAX));
    assert_eq!(parse_usize(&chars("99999999999999999999999")), None);
    for s in ["12", "+3", "x", "", "18446744073709551616"] {
        assert_eq!(parse_usize(&chars(s)), s.parse::<usize>().ok());
    }
}

#[test]
fn keys() {
    assert_eq!(pending_key(-5, 99), "-5:main:99");
    assert_eq!(monitor_key(12, "demo"), "12|demo");
    assert_eq!(model_cache_key(12, "demo"), "12|main|demo");
}

#[test]
fn run_payload_modes() {
    assert_eq!(parse_run_payload("  plan  fix the bug "), ("fix the bug".to_string(), Some(RunMode::Plan)));
    assert_eq!(parse_run_payload("PLAN"), (String::new(), Some(RunMode::Plan)));
    assert_eq!(parse_run_payload("Build it"), ("it".to_string(), Some(RunMode::Build)));
    assert_eq!(parse_run_payload("bulid it now"), ("it now".to_string(), Some(RunMode::Build)));
    assert_eq!(parse_run_payload("build"), (String::new(), Some(RunMode::Build)));
    assert_eq!(parse_run_payload("planner x"), ("planner x".to_string(), None));
    assert_eq!(parse_run_payload(" just do it "), ("just do it".to_string(), None));
}

#[test]
fn run_request_needs_a_task() {
    assert!(run_request("   ", None).is_none());
    let (t, o) = run_request("  go ", Some(RunMode::Plan)).unwrap();
    assert_eq!(t, "go");
    assert_eq!(o.mode, Some(RunMode::Plan));
    assert_eq!(o.agent, Some("plan".to_string()));
    assert!(o.project.is_none() && o.model.is_none() && o.thinking.is_none());
    let (_, o) = run_request("go", Some(RunMode::Build)).unwrap();
    assert_eq!(o.agent, Some("build".to_string()));
    let (_, o) = run_request("go", None).unwrap();
    assert!(o.agent.is_none() && o.mode.is_none());
}

fn action(data: &str) -> CallbackAction {
    parse_callback(data)
}

#[test]
fn fixed_buttons() {
    assert!(matches!(action("m:home"), CallbackAction::Home));
    assert!(matches!(action("m:projects"), CallbackAction::ProjectsMenu));
    assert!(matches!(action("m:cancel"), CallbackAction::Cancel));
    assert!(matches!(action("p:delthis"), CallbackAction::DeleteThis));
    assert!(matches!(action("r:input"), CallbackAction::RunInput(None)));
    assert!(matches!(action("r:input:plan"), CallbackAction::RunInput(Some(RunMode::Plan))));
    assert!(matches!(action("mdl:refresh"), CallbackAction::ModelPicker(0, true)));
    assert!(matches!(action("th:off"), CallbackAction::ThinkingOff));
    assert!(matches!(action("mode:plan"), CallbackAction::SetMode(RunMode::Plan)));
    assert!(matches!(action("nonsense"), CallbackAction::Unknown));
}

#[test]
fn buttons_with_numbers() {
    assert!(matches!(action("p:switch:2"), CallbackAction::SwitchPage(2)));
    assert!(matches!(action("p:switch:x"), CallbackAction::SwitchPage(0)));
    assert!(matches!(action("p:use:3:1"), CallbackAction::UseProject(3, 1)));
    assert!(matches!(action("p:use:x:1"), CallbackAction::UseProject(usize::MAX, 1)));
    assert!(matches!(action("p:use:3"), CallbackAction::Malformed));
    assert!(matches!(action("p:use:1:2:3"), CallbackAction::Malformed));
    assert!(matches!(action("p:delete:4"), CallbackAction::DeletePage(4)));
    assert!(matches!(action("p:delpick:5:0"), CallbackAction::DeletePick(5, 0)));
    assert!(matches!(action("p:delconfirm:5:0"), CallbackAction::DeleteConfirm(5, 0)));
    assert!(matches!(action("p:delcancel:3"), CallbackAction::DeleteCancel(3)));
    assert!(matches!(action("mdl:pick:6"), CallbackAction::ModelPicker(6, false)));
    assert!(matches!(action("mdl:use:9:1"), CallbackAction::ModelUse(9, 1)));
}

#[test]
fn thinking_buttons_strip_every_prefix() {
    match action("th:set:high") {
        CallbackAction::ThinkingSet(v) => assert_eq!(v, "high"),
        _ => panic!("not a thinking value"),
    }
    match action("th:set:th:set:low") {
        CallbackAction::ThinkingSet(v) => assert_eq!(v, "low"),
        _ => panic!("not a thinking value"),
    }
}

#[test]
fn every_picker_button_reads_back() {
    let names: Vec<String> = (0..15).map(|i| format!("n{}", i)).collect();
    for page in 0..3 {
        for k in 0..3 {
            let kb = match k {
                0 => project_switch_menu(&names, "n1", page),
                1 => project_delete_menu(&names, "n1", page),
                _ => model_picker(&names, "n1", page),
            };
            for row in &kb.rows {
                for b in row {
                    assert!(!matches!(action(&b.data), CallbackAction::Unknown | CallbackAction::Malformed), "{}", b.data);
                }
            }
        }
    }
    let kb = project_delete_confirm_menu(12, 2);
    assert!(matches!(action(&kb.rows[0][0].data), CallbackAction::DeleteConfirm(12, 2)));
    assert!(matches!(action(&kb.rows[0][1].data), CallbackAction::DeleteCancel(2)));
}

#[test]
fn agent_arguments() {
    assert!(matches!(parse_agent_args(""), AgentRequest::ShowCurrent));
    assert!(matches!(parse_agent_args(" LIST "), AgentRequest::List));
    assert!(matches!(parse_agent_args("set"), AgentRequest::AskName));
    match parse_agent_args("set  my   agent ") {
        AgentRequest::SetName(v) => assert_eq!(v, "my agent"),
        _ => panic!("expected a name"),
    }
    assert!(matches!(parse_agent_args("remove x"), AgentRequest::Usage));
}

#[test]
fn model_arguments() {
    assert!(matches!(parse_model_args(""), ModelRequest::Picker));
    assert!(matches!(parse_model_args("pick"), ModelRequest::Pick));
    match parse_model_args("list GPT  4") {
        ModelRequest::List(k) => assert_eq!(k, "gpt 4"),
        _ => panic!("expected a list"),
    }
    match parse_model_args("list") {
        ModelRequest::List(k) => assert_eq!(k, ""),
        _ => panic!("expected a list"),
    }
    assert!(matches!(parse_model_args("Set"), ModelRequest::AskId));
    match parse_model_args("set kimi/moonshot-v1-128k") {
        ModelRequest::SetId(v) => assert_eq!(v, "kimi/moonshot-v1-128k"),
        _ => panic!("expected a model"),
    }
    assert!(matches!(parse_model_args("what"), ModelRequest::Usage));
}

#[test]
fn thinking_arguments() {
    assert!(matches!(parse_thinking_args(""), ThinkingRequest::ShowCurrent));
    assert!(matches!(parse_thinking_args("set"), ThinkingRequest::AskValue));
    match parse_thinking_args("set high") {
        ThinkingRequest::SetValue(v) => assert_eq!(v, "high"),
        _ => panic!("expected a value"),
    }
    assert!(matches!(parse_thinking_args("OFF"), ThinkingRequest::Off));
    assert!(matches!(parse_thinking_args("clear"), ThinkingRequest::Off));
    assert!(matches!(parse_thinking_args("max"), ThinkingRequest::Usage));
}

#[test]
fn mode_and_delete_arguments() {
    assert_eq!(parse_mode_arg(" Plan "), Some(RunMode::Plan));
    assert_eq!(parse_mode_arg("BUILD"), Some(RunMode::Build));
    assert_eq!(parse_mode_arg("bulid"), Some(RunMode::Build));
    assert_eq!(parse_mode_arg(""), None);
    assert!(is_delete_this(""));
    assert!(is_delete_this(" This Project "));
    assert!(is_delete_this("this-project"));
    assert!(is_delete_this("THIS"));
    assert!(!is_delete_this("other"));
}

fn pending(kind: PendingKind, mode: Option<RunMode>) -> Option<PendingInput> {
    Some(PendingInput { kind, mode_override: mode, created_at: 0 })
}

#[test]
fn plain_text_without_pending_input() {
    assert!(matches!(plain_text_action("/start", None), TextAction::Ignore));
    assert!(matches!(plain_text_action("PiNg", None), TextAction::Pong));
    match plain_text_action("fix it", None) {
        TextAction::RunTask(t, None) => assert_eq!(t, "fix it"),
        _ => panic!("expected a run"),
    }
}

#[test]
fn plain_text_with_pending_input() {
    assert!(matches!(plain_text_action("Cancel", pending(PendingKind::RunTask, None)), TextAction::CancelPending));
    match plain_text_action("demo", pending(PendingKind::NewProject, None)) {
        TextAction::CreateProject(t) => assert_eq!(t, "demo"),
        _ => panic!("expected a project"),
    }
    match plain_text_action("task", pending(PendingKind::RunTask, Some(RunMode::Plan))) {
        TextAction::RunTask(t, Some(RunMode::Plan)) => assert_eq!(t, "task"),
        _ => panic!("expected a plan run"),
    }
    match plain_text_action("a/b", pending(PendingKind::SetModel, None)) {
        TextAction::SetModel(t) => assert_eq!(t, "a/b"),
        _ => panic!("expected a model"),
    }
    match plain_text_action("plan", pending(PendingKind::SetAgent, None)) {
        TextAction::SetAgent(t) => assert_eq!(t, "plan"),
        _ => panic!("expected an agent"),
    }
    assert!(matches!(plain_text_action("OFF", pending(PendingKind::SetThinking, None)), TextAction::SetThinking(None)));
    assert!(matches!(plain_text_action("clear", pending(PendingKind::SetThinking, None)), TextAction::SetThinking(None)));
    match plain_text_action("high", pending(PendingKind::SetThinking, None)) {
        TextAction::SetThinking(Some(t)) => assert_eq!(t, "high"),
        _ => panic!("expected a value"),
    }
    // "ping" goes to the awaited input.
    assert!(matches!(plain_text_action("ping", pending(PendingKind::SetAgent, None)), TextAction::SetAgent(_)));
}

#[test]
fn waiting_and_caching_times() {
    let p = PendingInput { kind: PendingKind::RunTask, mode_override: None, created_at: 1_000 };
    assert!(is_pending_alive(&p, 1_000 + 600_000));
    assert!(!is_pending_alive(&p, 1_000 + 600_001));
    assert!(is_cache_fresh(0, 299_999));
    assert!(!is_cache_fresh(0, 300_000));
}

#[test]
fn cancel_and_interrupt_both_cancel_the_task() {
    assert!(matches!(command_action(ChatCommand::Cancel), CommandAction::CancelTask));
    assert!(matches!(command_action(ChatCommand::Interrupt), CommandAction::CancelTask));
}

#[test]
fn commands_map_to_their_actions() {
    assert!(matches!(command_action(ChatCommand::Start), CommandAction::ShowHelp));
    assert!(matches!(command_action(ChatCommand::Help), CommandAction::ShowHelp));
    assert!(matches!(command_action(ChatCommand::Status), CommandAction::ShowStatus));
    assert!(matches!(command_action(ChatCommand::Run("fix it".to_string())), CommandAction::RunTask(p) if p == "fix it"));
    assert!(matches!(command_action(ChatCommand::Mode("plan".to_string())), CommandAction::Mode(m) if m == "plan"));
    assert!(matches!(command_action(ChatCommand::Del("this".to_string())), CommandAction::DeleteProject(a) if a == "this"));
}
