//! The inline keyboards of the bot: fixed menus and paged pickers.
use vstd::prelude::*;
use crate::models::RunMode;
use crate::runner::{copy_string, lowercase, owned, to_lowercase, views};
use crate::text::{chars_eq, chars_of, decimal, push_str, string_from, usize_text, extend_chars};

verus! {

broadcast use vstd::string::group_string_axioms;

/// A button: its label and the callback data it sends.
pub struct Button {
    pub label: String,
    pub data: String,
}

impl View for Button {
    type V = (Seq<char>, Seq<char>);

    open spec fn view(&self) -> (Seq<char>, Seq<char>) {
        (self.label@, self.data@)
    }
}

/// Rows of buttons.
pub struct Keyboard {
    pub rows: Vec<Vec<Button>>,
}

/// The view of a row.
pub open spec fn row_view(r: Vec<Button>) -> Seq<(Seq<char>, Seq<char>)> {
    r@.map_values(|b: Button| b@)
}

impl View for Keyboard {
    type V = Seq<Seq<(Seq<char>, Seq<char>)>>;

    open spec fn view(&self) -> Seq<Seq<(Seq<char>, Seq<char>)>> {
        self.rows@.map_values(|r: Vec<Button>| row_view(r))
    }
}

pub fn button(label: &str, data: &str) -> (b: Button)
    ensures
        b@ == (label@, data@),
{
    Button { label: owned(label), data: owned(data) }
}

fn row1(a: Button) -> (r: Vec<Button>)
    ensures
        row_view(r) == seq![a@],
{
    let mut r = Vec::new();
    r.push(a);
    proof {
        assert(row_view(r) =~= seq![a@]);
    }
    r
}

fn row2(a: Button, b: Button) -> (r: Vec<Button>)
    ensures
        row_view(r) == seq![a@, b@],
{
    let mut r = Vec::new();
    r.push(a);
    r.push(b);
    proof {
        assert(row_view(r) =~= seq![a@, b@]);
    }
    r
}

/// A keyboard from rows whose views are known.
fn keyboard(rows: Vec<Vec<Button>>) -> (k: Keyboard)
    ensures
        k@ == rows@.map_values(|r: Vec<Button>| row_view(r)),
{
    Keyboard { rows }
}

proof fn lemma_rows_view(rows: Seq<Vec<Button>>, views: Seq<Seq<(Seq<char>, Seq<char>)>>)
    requires
        rows.len() == views.len(),
        forall|i: int| 0 <= i < rows.len() ==> row_view(#[trigger] rows[i]) == views[i],
    ensures
        rows.map_values(|r: Vec<Button>| row_view(r)) == views,
{
    assert(rows.map_values(|r: Vec<Button>| row_view(r)) =~= views);
}

/// The main menu.
pub open spec fn main_menu_view() -> Seq<Seq<(Seq<char>, Seq<char>)>> {
    seq![
        seq![("Projects"@, "m:projects"@), ("Run"@, "m:run"@)],
        seq![("Model"@, "m:model"@), ("Agent"@, "m:agent"@)],
        seq![("Thinking"@, "m:thinking"@), ("Mode"@, "m:mode"@)],
        seq![("Status"@, "m:status"@), ("Cancel Task"@, "m:cancel"@)],
    ]
}

pub fn main_menu() -> (k: Keyboard)
    ensures
        k@ == main_menu_view(),
{
    let mut rows: Vec<Vec<Button>> = Vec::new();
    rows.push(row2(button("Projects", "m:projects"), button("Run", "m:run")));
    rows.push(row2(button("Model", "m:model"), button("Agent", "m:agent")));
    rows.push(row2(button("Thinking", "m:thinking"), button("Mode", "m:mode")));
    rows.push(row2(button("Status", "m:status"), button("Cancel Task", "m:cancel")));
    proof {
        lemma_rows_view(rows@, main_menu_view());
    }
    keyboard(rows)
}

/// The projects menu.
pub open spec fn project_menu_view() -> Seq<Seq<(Seq<char>, Seq<char>)>> {
    seq![
        seq![("New Project"@, "p:new"@), ("Switch Project"@, "p:switch:0"@)],
        seq![("Project List"@, "p:list"@), ("Delete This Project"@, "p:delthis"@)],
        seq![("Back"@, "m:home"@)],
    ]
}

pub fn project_menu() -> (k: Keyboard)
    ensures
        k@ == project_menu_view(),
{
    let mut rows: Vec<Vec<Button>> = Vec::new();
    rows.push(row2(button("New Project", "p:new"), button("Switch Project", "p:switch:0")));
    rows.push(row2(button("Project List", "p:list"), button("Delete This Project", "p:delthis")));
    rows.push(row1(button("Back", "m:home")));
    proof {
        lemma_rows_view(rows@, project_menu_view());
    }
    keyboard(rows)
}

/// The run menu.
pub open spec fn run_menu_view() -> Seq<Seq<(Seq<char>, Seq<char>)>> {
    seq![
        seq![("Run Task"@, "r:input"@)],
        seq![("Run Plan"@, "r:input:plan"@), ("Run Build"@, "r:input:build"@)],
        seq![("Back"@, "m:home"@)],
    ]
}

pub fn run_menu() -> (k: Keyboard)
    ensures
        k@ == run_menu_view(),
{
    let mut rows: Vec<Vec<Button>> = Vec::new();
    rows.push(row1(button("Run Task", "r:input")));
    rows.push(row2(button("Run Plan", "r:input:plan"), button("Run Build", "r:input:build")));
    rows.push(row1(button("Back", "m:home")));
    proof {
        lemma_rows_view(rows@, run_menu_view());
    }
    keyboard(rows)
}

/// The model menu.
pub open spec fn model_menu_view() -> Seq<Seq<(Seq<char>, Seq<char>)>> {
    seq![
        seq![("Select Model"@, "mdl:pick:0"@)],
        seq![("List Models"@, "mdl:list"@), ("Set Model"@, "mdl:set"@)],
        seq![("Back"@, "m:home"@)],
    ]
}

pub fn model_menu() -> (k: Keyboard)
    ensures
        k@ == model_menu_view(),
{
    let mut rows: Vec<Vec<Button>> = Vec::new();
    rows.push(row1(button("Select Model", "mdl:pick:0")));
    rows.push(row2(button("List Models", "mdl:list"), button("Set Model", "mdl:set")));
    rows.push(row1(button("Back", "m:home")));
    proof {
        lemma_rows_view(rows@, model_menu_view());
    }
    keyboard(rows)
}

/// The agent menu.
pub open spec fn agent_menu_view() -> Seq<Seq<(Seq<char>, Seq<char>)>> {
    seq![
        seq![("List Agents"@, "agt:list"@), ("Set Agent"@, "agt:set"@)],
        seq![("Back"@, "m:home"@)],
    ]
}

pub fn agent_menu() -> (k: Keyboard)
    ensures
        k@ == agent_menu_view(),
{
    let mut rows: Vec<Vec<Button>> = Vec::new();
    rows.push(row2(button("List Agents", "agt:list"), button("Set Agent", "agt:set")));
    rows.push(row1(button("Back", "m:home")));
    proof {
        lemma_rows_view(rows@, agent_menu_view());
    }
    keyboard(rows)
}

/// A thinking option's label: marked with " ✓" when it is the current one.
pub open spec fn thinking_label(name: Seq<char>, value: Seq<char>, current: Seq<char>) -> Seq<char> {
    if current == value {
        name + " ✓"@
    } else {
        name
    }
}

/// The current thinking value as compared with the options: "off" when unset, lowercased.
pub open spec fn current_thinking(current: Option<Seq<char>>) -> Seq<char> {
    lowercase(
        match current {
            Some(c) => c,
            None => "off"@,
        },
    )
}

/// The thinking menu, the current value marked.
pub open spec fn thinking_menu_view(current: Option<Seq<char>>) -> Seq<Seq<(Seq<char>, Seq<char>)>> {
    let c = current_thinking(current);
    seq![
        seq![(thinking_label("Off"@, "off"@, c), "th:off"@)],
        seq![(thinking_label("Minimal"@, "minimal"@, c), "th:set:minimal"@), (thinking_label("Low"@, "low"@, c), "th:set:low"@)],
        seq![(thinking_label("Medium"@, "medium"@, c), "th:set:medium"@), (thinking_label("High"@, "high"@, c), "th:set:high"@)],
        seq![(thinking_label("Max"@, "max"@, c), "th:set:max"@), (thinking_label("XHigh"@, "xhigh"@, c), "th:set:xhigh"@)],
        seq![("Back"@, "m:home"@)],
    ]
}

fn thinking_button(name: &str, value: &str, current: &[char], data: &str) -> (b: Button)
    ensures
        b@ == (thinking_label(name@, value@, current@), data@),
{
    let v = chars_of(value);
    if chars_eq(current, v.as_slice()) {
        let mut l = chars_of(name);
        push_str(&mut l, " ✓");
        Button { label: string_from(l.as_slice()), data: owned(data) }
    } else {
        button(name, data)
    }
}

pub fn thinking_menu(current: Option<&str>) -> (k: Keyboard)
    ensures
        k@ == thinking_menu_view(match current {
            Some(c) => Some(c@),
            None => None,
        }),
{
    let base = match current {
        Some(c) => c,
        None => "off",
    };
    let lower = to_lowercase(base);
    let c = chars_of(lower.as_str());
    let mut rows: Vec<Vec<Button>> = Vec::new();
    rows.push(row1(thinking_button("Off", "off", c.as_slice(), "th:off")));
    rows.push(row2(thinking_button("Minimal", "minimal", c.as_slice(), "th:set:minimal"), thinking_button("Low", "low", c.as_slice(), "th:set:low")));
    rows.push(row2(thinking_button("Medium", "medium", c.as_slice(), "th:set:medium"), thinking_button("High", "high", c.as_slice(), "th:set:high")));
    rows.push(row2(thinking_button("Max", "max", c.as_slice(), "th:set:max"), thinking_button("XHigh", "xhigh", c.as_slice(), "th:set:xhigh")));
    rows.push(row1(button("Back", "m:home")));
    proof {
        lemma_rows_view(rows@, thinking_menu_view(match current {
            Some(c) => Some(c@),
            None => None,
        }));
    }
    keyboard(rows)
}

/// The mode menu, the current mode marked.
pub open spec fn mode_menu_view(current: RunMode) -> Seq<Seq<(Seq<char>, Seq<char>)>> {
    seq![
        seq![
            (if current == RunMode::Build { "Build ✓"@ } else { "Build"@ }, "mode:build"@),
            (if current == RunMode::Plan { "Plan ✓"@ } else { "Plan"@ }, "mode:plan"@),
        ],
        seq![("Back"@, "m:home"@)],
    ]
}

pub fn mode_menu(current: RunMode) -> (k: Keyboard)
    ensures
        k@ == mode_menu_view(current),
{
    let build = if current == RunMode::Build { "Build ✓" } else { "Build" };
    let plan = if current == RunMode::Plan { "Plan ✓" } else { "Plan" };
    let mut rows: Vec<Vec<Button>> = Vec::new();
    rows.push(row2(button(build, "mode:build"), button(plan, "mode:plan")));
    rows.push(row1(button("Back", "m:home")));
    proof {
        lemma_rows_view(rows@, mode_menu_view(current));
    }
    keyboard(rows)
}

/// The confirmation asked before a project is deleted.
pub open spec fn delete_confirm_view(index: nat, page: nat) -> Seq<Seq<(Seq<char>, Seq<char>)>> {
    seq![
        seq![
            ("Confirm Delete"@, "p:delconfirm:"@ + decimal(index) + ":"@ + decimal(page)),
            ("Cancel"@, "p:delcancel:"@ + decimal(page)),
        ],
    ]
}

pub fn project_delete_confirm_menu(index: usize, page: usize) -> (k: Keyboard)
    ensures
        k@ == delete_confirm_view(index as nat, page as nat),
{
    let mut d1 = chars_of("p:delconfirm:");
    let iv = usize_text(index);
    extend_chars(&mut d1, iv.as_slice());
    push_str(&mut d1, ":");
    let pv = usize_text(page);
    extend_chars(&mut d1, pv.as_slice());
    let mut d2 = chars_of("p:delcancel:");
    extend_chars(&mut d2, pv.as_slice());
    let b1 = Button { label: owned("Confirm Delete"), data: string_from(d1.as_slice()) };
    let b2 = Button { label: owned("Cancel"), data: string_from(d2.as_slice()) };
    let mut rows: Vec<Vec<Button>> = Vec::new();
    rows.push(row2(b1, b2));
    proof {
        lemma_rows_view(rows@, delete_confirm_view(index as nat, page as nat));
    }
    keyboard(rows)
}


/// Number of pages for `len` items, `size` per page (at least one page).
pub open spec fn page_count(len: nat, size: nat) -> nat {
    let n = if len == 0 { 1 } else { len };
    if n % size == 0 {
        n / size
    } else {
        n / size + 1
    }
}

/// The number of pages of a picker with `len` items, `size` per page.
pub fn page_total(len: usize, size: usize) -> (r: usize)
    requires
        size > 0,
    ensures
        r == page_count(len as nat, size as nat),
{
    let n: usize = if len == 0 { 1 } else { len };
    if n % size == 0 {
        n / size
    } else {
        proof {
            assert(size > 1) by {
                if size == 1 {
                    assert(n % 1 == 0);
                }
            }
            assert(n / size < n) by (nonlinear_arith)
                requires
                    size > 1,
                    n >= 1,
            {
                vstd::arithmetic::div_mod::lemma_fundamental_div_mod(n as int, size as int);
            }
        }
        n / size + 1
    }
}

/// The page shown when `page` is asked for: the last one at most.
pub open spec fn shown_page(page: nat, total: nat) -> nat {
    if page < total {
        page
    } else {
        (total - 1) as nat
    }
}

/// The button of item `i`: marked when it is the active one, sending `prefix<i>:<page>`.
pub open spec fn item_button(items: Seq<Seq<char>>, active: Seq<char>, mark: Seq<char>, prefix: Seq<char>, page: nat, i: int) -> (Seq<char>, Seq<char>) {
    (
        if items[i] == active { mark + items[i] } else { items[i] },
        prefix + decimal(i as nat) + ":"@ + decimal(page),
    )
}

/// A paged picker: one row per item of the shown page; a row with "Prev" and
/// "Next" (sending `nav<page>`) when there are several pages; then the footer row.
pub open spec fn paged_view(
    items: Seq<Seq<char>>,
    active: Seq<char>,
    page: nat,
    size: nat,
    mark: Seq<char>,
    prefix: Seq<char>,
    nav: Seq<char>,
    footer: Seq<(Seq<char>, Seq<char>)>,
) -> Seq<Seq<(Seq<char>, Seq<char>)>> {
    let total = page_count(items.len(), size);
    let p = shown_page(page, total);
    let start = p * size;
    let end = if start + size < items.len() { start + size } else { items.len() as nat };
    let shown = Seq::new((end - start) as nat, |k: int| seq![item_button(items, active, mark, prefix, p, start + k)]);
    let prev = if p > 0 { seq![("Prev"@, nav + decimal((p - 1) as nat))] } else { Seq::empty() };
    let next = if p + 1 < total { seq![("Next"@, nav + decimal(p + 1))] } else { Seq::empty() };
    let navs = prev + next;
    shown + (if total > 1 && navs.len() > 0 { seq![navs] } else { Seq::empty() }) + seq![footer]
}

proof fn lemma_page_bounds(len: nat, size: nat, page: nat)
    requires
        size > 0,
    ensures
        page_count(len, size) >= 1,
        shown_page(page, page_count(len, size)) * size <= len,
        len > 0 ==> shown_page(page, page_count(len, size)) * size < len,
{
    let n = if len == 0 { 1 } else { len };
    let total = page_count(len, size);
    assert(n / size * size <= n) by (nonlinear_arith)
        requires
            size > 0,
            n >= 1,
    {
        vstd::arithmetic::div_mod::lemma_fundamental_div_mod(n as int, size as int);
    }
    if n % size == 0 {
        assert(n / size >= 1) by (nonlinear_arith)
            requires
                size > 0,
                n >= 1,
                n % size == 0,
        {
            vstd::arithmetic::div_mod::lemma_fundamental_div_mod(n as int, size as int);
        }
        assert((n / size - 1) * size < n) by (nonlinear_arith)
            requires
                size > 0,
                n >= 1,
                n / size >= 1,
                n / size * size <= n,
        {
        }
    } else {
        assert(n / size * size < n) by (nonlinear_arith)
            requires
                size > 0,
                n >= 1,
                n % size != 0,
        {
            vstd::arithmetic::div_mod::lemma_fundamental_div_mod(n as int, size as int);
        }
    }
    let p = shown_page(page, total);
    assert(p <= total - 1);
    assert(p * size <= (total - 1) * size) by (nonlinear_arith)
        requires
            p <= total - 1,
            total >= 1,
    {
    }
}

fn paged_menu(
    items: &Vec<String>,
    active: &str,
    page: usize,
    size: usize,
    mark: &str,
    prefix: &str,
    nav: &str,
    footer: Vec<Button>,
) -> (k: Keyboard)
    requires
        size > 0,
        items@.len() + size <= usize::MAX,
    ensures
        k@ == paged_view(views(items@), active@, page as nat, size as nat, mark@, prefix@, nav@, row_view(footer)),
{
    let ghost iv = views(items@);
    let n: usize = if items.len() == 0 { 1 } else { items.len() };
    let total: usize = if n % size == 0 { n / size } else { n / size + 1 };
    proof {
        lemma_page_bounds(items@.len() as nat, size as nat, page as nat);
    }
    let p: usize = if page < total { page } else { total - 1 };
    let start: usize = p * size;
    let end: usize = if start + size < items.len() { start + size } else { items.len() };
    let av = chars_of(active);
    let pv = usize_text(p);
    let mut rows: Vec<Vec<Button>> = Vec::new();
    let mut i: usize = start;
    while i < end
        invariant
            start <= i <= end,
            end <= items@.len(),
            iv == views(items@),
            av@ == active@,
            pv@ == decimal(p as nat),
            rows@.len() == i - start,
            forall|k: int| 0 <= k < rows@.len() ==> row_view(#[trigger] rows@[k]) == seq![item_button(iv, active@, mark@, prefix@, p as nat, start + k)],
        decreases end - i,
    {
        let name = chars_of(items[i].as_str());
        let label = if chars_eq(name.as_slice(), av.as_slice()) {
            let mut l = chars_of(mark);
            extend_chars(&mut l, name.as_slice());
            string_from(l.as_slice())
        } else {
            copy_string(&items[i])
        };
        let mut d = chars_of(prefix);
        let idx = usize_text(i);
        extend_chars(&mut d, idx.as_slice());
        push_str(&mut d, ":");
        extend_chars(&mut d, pv.as_slice());
        let b = Button { label, data: string_from(d.as_slice()) };
        proof {
            assert(b@ == item_button(iv, active@, mark@, prefix@, p as nat, i as int));
        }
        rows.push(row1(b));
        i = i + 1;
    }
    let ghost shown_rows = rows@;
    let mut navs: Vec<Button> = Vec::new();
    if p > 0 {
        let mut d = chars_of(nav);
        let t = usize_text(p - 1);
        extend_chars(&mut d, t.as_slice());
        navs.push(Button { label: owned("Prev"), data: string_from(d.as_slice()) });
    }
    if p + 1 < total {
        let mut d = chars_of(nav);
        let t = usize_text(p + 1);
        extend_chars(&mut d, t.as_slice());
        navs.push(Button { label: owned("Next"), data: string_from(d.as_slice()) });
    }
    let ghost nav_view = row_view(navs);
    let has_nav = total > 1 && navs.len() > 0;
    if has_nav {
        rows.push(navs);
    }
    let ghost with_nav = rows@;
    rows.push(footer);
    proof {
        let spec_rows = paged_view(iv, active@, page as nat, size as nat, mark@, prefix@, nav@, row_view(footer));
        let prev: Seq<(Seq<char>, Seq<char>)> = if p > 0 { seq![("Prev"@, nav@ + decimal((p - 1) as nat))] } else { Seq::empty() };
        let next: Seq<(Seq<char>, Seq<char>)> = if p + 1 < total { seq![("Next"@, nav@ + decimal((p + 1) as nat))] } else { Seq::empty() };
        assert(nav_view =~= prev + next);
        let shown = Seq::new((end - start) as nat, |k: int| seq![item_button(iv, active@, mark@, prefix@, p as nat, start + k)]);
        let expected = shown + (if has_nav { seq![nav_view] } else { Seq::empty() }) + seq![row_view(footer)];
        assert(spec_rows == expected);
        assert(rows@.len() == expected.len());
        assert forall|k: int| 0 <= k < rows@.len() implies row_view(#[trigger] rows@[k]) == expected[k] by {
            if k < shown_rows.len() {
                assert(rows@[k] == shown_rows[k]);
            }
        }
        lemma_rows_view(rows@, expected);
    }
    keyboard(rows)
}

pub const PROJECT_PAGE_SIZE: usize = 6;
pub const MODEL_PAGE_SIZE: usize = 8;

/// The project switcher.
pub open spec fn project_switch_view(projects: Seq<Seq<char>>, active: Seq<char>, page: nat) -> Seq<Seq<(Seq<char>, Seq<char>)>> {
    paged_view(projects, active, page, 6, "✓ "@, "p:use:"@, "p:switch:"@, seq![("New Project"@, "p:new"@), ("Back"@, "m:projects"@)])
}

pub fn project_switch_menu(projects: &Vec<String>, active: &str, page: usize) -> (k: Keyboard)
    requires
        projects@.len() + 6 <= usize::MAX,
    ensures
        k@ == project_switch_view(views(projects@), active@, page as nat),
{
    paged_menu(projects, active, page, PROJECT_PAGE_SIZE, "✓ ", "p:use:", "p:switch:", row2(button("New Project", "p:new"), button("Back", "m:projects")))
}

/// The project deletion picker.
pub open spec fn project_delete_view(projects: Seq<Seq<char>>, active: Seq<char>, page: nat) -> Seq<Seq<(Seq<char>, Seq<char>)>> {
    paged_view(projects, active, page, 6, "* "@, "p:delpick:"@, "p:delete:"@, seq![("Back"@, "m:projects"@)])
}

pub fn project_delete_menu(projects: &Vec<String>, active: &str, page: usize) -> (k: Keyboard)
    requires
        projects@.len() + 6 <= usize::MAX,
    ensures
        k@ == project_delete_view(views(projects@), active@, page as nat),
{
    paged_menu(projects, active, page, PROJECT_PAGE_SIZE, "* ", "p:delpick:", "p:delete:", row1(button("Back", "m:projects")))
}

/// The model picker.
pub open spec fn model_picker_view(models: Seq<Seq<char>>, current: Seq<char>, page: nat) -> Seq<Seq<(Seq<char>, Seq<char>)>> {
    paged_view(models, current, page, 8, "✓ "@, "mdl:use:"@, "mdl:pick:"@, seq![("Refresh"@, "mdl:refresh"@), ("Back"@, "m:model"@)])
}

pub fn model_picker(models: &Vec<String>, current: &str, page: usize) -> (k: Keyboard)
    requires
        models@.len() + 8 <= usize::MAX,
    ensures
        k@ == model_picker_view(views(models@), current@, page as nat),
{
    paged_menu(models, current, page, MODEL_PAGE_SIZE, "✓ ", "mdl:use:", "mdl:pick:", row2(button("Refresh", "mdl:refresh"), button("Back", "m:model")))
}

} // verus!
