use tg_opencode::menus::{
    agent_menu, main_menu, mode_menu, model_menu, model_picker, page_total, project_delete_confirm_menu,
    project_delete_menu, project_menu, project_switch_menu, run_menu, thinking_menu, Keyboard,
};
use tg_opencode::models::RunMode;

fn rows(k: &Keyboard) -> Vec<Vec<(String, String)>> {
    k.rows
        .iter()
        .map(|r| r.iter().map(|b| (b.label.clone(), b.data.clone())).collect())
        .collect()
}

fn row(pairs: &[(&str, &str)]) -> Vec<(String, String)> {
    pairs.iter().map(|(l, d)| (l.to_string(), d.to_string())).collect()
}

#[test]
fn main_menu_layout() {
    assert_eq!(
        rows(&main_menu()),
        vec![
            row(&[("Projects", "m:projects"), ("Run", "m:run")]),
            row(&[("Model", "m:model"), ("Agent", "m:agent")]),
            row(&[("Thinking", "m:thinking"), ("Mode", "m:mode")]),
            row(&[("Status", "m:status"), ("Cancel Task", "m:cancel")]),
        ]
    );
}

#[test]
fn submenus_layout() {
    assert_eq!(
        rows(&project_menu()),
        vec![
            row(&[("New Project", "p:new"), ("Switch Project", "p:switch:0")]),
            row(&[("Project List", "p:list"), ("Delete This Project", "p:delthis")]),
            row(&[("Back", "m:home")]),
        ]
    );
    assert_eq!(
        rows(&run_menu()),
        vec![
            row(&[("Run Task", "r:input")]),
            row(&[("Run Plan", "r:input:plan"), ("Run Build", "r:input:build")]),
            row(&[("Back", "m:home")]),
        ]
    );
    assert_eq!(
        rows(&model_menu()),
        vec![
            row(&[("Select Model", "mdl:pick:0")]),
            row(&[("List Models", "mdl:list"), ("Set Model", "mdl:set")]),
            row(&[("Back", "m:home")]),
        ]
    );
    assert_eq!(
        rows(&agent_menu()),
        vec![row(&[("List Agents", "agt:list"), ("Set Agent", "agt:set")]), row(&[("Back", "m:home")])]
    );
}

#[test]
fn thinking_menu_marks_current_value() {
    let k = rows(&thinking_menu(Some("HIGH")));
    assert_eq!(k[0], row(&[("Off", "th:off")]));
    assert_eq!(k[2], row(&[("Medium", "th:set:medium"), ("High ✓", "th:set:high")]));
    let k = rows(&thinking_menu(None));
    assert_eq!(k[0], row(&[("Off ✓", "th:off")]));
    assert_eq!(k[3], row(&[("Max", "th:set:max"), ("XHigh", "th:set:xhigh")]));
    assert_eq!(k[4], row(&[("Back", "m:home")]));
}

#[test]
fn mode_menu_marks_current_mode() {
    assert_eq!(
        rows(&mode_menu(RunMode::Plan)),
        vec![row(&[("Build", "mode:build"), ("Plan ✓", "mode:plan")]), row(&[("Back", "m:home")])]
    );
}

#[test]
fn delete_confirmation_buttons() {
    assert_eq!(
        rows(&project_delete_confirm_menu(7, 1)),
        vec![row(&[("Confirm Delete", "p:delconfirm:7:1"), ("Cancel", "p:delcancel:1")])]
    );
}

fn names(n: usize) -> Vec<String> {
    (0..n).map(|i| format!("p{:02}", i)).collect()
}

#[test]
fn switcher_pages() {
    let ps = names(8);
    let k = rows(&project_switch_menu(&ps, "p07", 0));
    assert_eq!(k.len(), 8);
    assert_eq!(k[0], row(&[("p00", "p:use:0:0")]));
    assert_eq!(k[6], row(&[("Next", "p:switch:1")]));
    assert_eq!(k[7], row(&[("New Project", "p:new"), ("Back", "m:projects")]));
    // A page past the end shows the last page.
    let k = rows(&project_switch_menu(&ps, "p07", 9));
    assert_eq!(k[0], row(&[("p06", "p:use:6:1")]));
    assert_eq!(k[1], row(&[("✓ p07", "p:use:7:1")]));
    assert_eq!(k[2], row(&[("Prev", "p:switch:0")]));
    // One page: no navigation row.
    let k = rows(&project_switch_menu(&names(2), "p00", 0));
    assert_eq!(k, vec![row(&[("✓ p00", "p:use:0:0")]), row(&[("p01", "p:use:1:0")]), row(&[("New Project", "p:new"), ("Back", "m:projects")])]);
    // No projects.
    let k = rows(&project_switch_menu(&Vec::new(), "x", 3));
    assert_eq!(k, vec![row(&[("New Project", "p:new"), ("Back", "m:projects")])]);
}

#[test]
fn delete_picker_and_model_picker() {
    let ps = names(13);
    let k = rows(&project_delete_menu(&ps, "p06", 1));
    assert_eq!(k[0], row(&[("* p06", "p:delpick:6:1")]));
    assert_eq!(k[6], row(&[("Prev", "p:delete:0"), ("Next", "p:delete:2")]));
    assert_eq!(k[7], row(&[("Back", "m:projects")]));
    let ms = names(9);
    let k = rows(&model_picker(&ms, "p08", 1));
    assert_eq!(k, vec![row(&[("✓ p08", "mdl:use:8:1")]), row(&[("Prev", "mdl:pick:0")]), row(&[("Refresh", "mdl:refresh"), ("Back", "m:model")])]);
}

#[test]
fn page_totals() {
    assert_eq!(page_total(0, 8), 1);
    assert_eq!(page_total(8, 8), 1);
    assert_eq!(page_total(9, 8), 2);
    assert_eq!(page_total(13, 6), 3);
    assert_eq!(page_total(usize::MAX, 2), usize::MAX / 2 + 1);
}
