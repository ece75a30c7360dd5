//! The bot's answers that depend on data: project and model lists, listings from
//! the opencode CLI, and the checks before a project is deleted.
use vstd::prelude::*;
use crate::models::{project_views, ContextSnapshot, ContextView, ProjectSettings, ProjectView, RunMode};
use crate::output::MAX_TELEGRAM_TEXT;
use crate::runner::{
    listed_agents, listed_models, lowercase, owned, parse_agent_list, parse_model_list, to_lowercase,
    views,
};
use crate::task_service::or_text;
use crate::text::{
    chars_of, contains_chars, decimal, extend_chars, has_infix, join, join_parts, push_str,
    string_from, usize_text,
};
use crate::util::{fit_telegram_text, fit_text, strip_ansi, strip_ansi_from};

verus! {

broadcast use vstd::string::group_string_axioms;

/// Most entries listed in one message.
pub const MAX_LIST_ITEMS: usize = 40;

/// The views of a list of lines.
pub open spec fn line_views(ls: Seq<Vec<char>>) -> Seq<Seq<char>> {
    ls.map_values(|l: Vec<char>| l@)
}

fn push_line(lines: &mut Vec<Vec<char>>, l: Vec<char>)
    ensures
        line_views(final(lines)@) == line_views(old(lines)@).push(l@),
{
    let ghost before = lines@;
    lines.push(l);
    proof {
        assert(line_views(lines@) =~= line_views(before).push(l@));
    }
}

fn line_of(s: &str) -> (r: Vec<char>)
    ensures
        r@ == s@,
{
    chars_of(s)
}

/// The lines joined by newlines, cut to the message size.
fn finish_lines(lines: &Vec<Vec<char>>) -> (r: String)
    ensures
        r@ == fit_text(join(line_views(lines@), "\n"@), MAX_TELEGRAM_TEXT as nat),
{
    let nl = ['\n'];
    proof {
        assert(nl@ =~= "\n"@) by {
            reveal_strlit("\n");
        }
    }
    let joined = join_parts(lines, nl.as_slice());
    let s = string_from(joined.as_slice());
    fit_telegram_text(s.as_str(), MAX_TELEGRAM_TEXT)
}

fn push_or(v: &mut Vec<char>, o: &Option<String>, missing: &str)
    ensures
        final(v)@ == old(v)@ + or_text(crate::models::opt_view(*o), missing@),
{
    match o {
        Some(s) => push_str(v, s.as_str()),
        None => push_str(v, missing),
    }
}

/// A project in the project list: '*' for the active one, '-' for the others, then
/// its name, agent, model, thinking and session ('-' where unset).
pub open spec fn project_line(p: ProjectView, active: Seq<char>) -> Seq<char> {
    (if p.name == active {
        "*"@
    } else {
        "-"@
    }) + " "@ + p.name + " | agent="@ + p.agent + " | model="@ + p.model + " | thinking="@ + or_text(
        p.thinking,
        "-"@,
    ) + " | session="@ + or_text(p.session_id, "-"@)
}

/// The lines of the project list of a chat; with `footer`, a hint on creating and
/// switching projects follows.
pub open spec fn project_list_lines(c: ContextView, footer: bool) -> Seq<Seq<char>> {
    seq!["Active project: "@ + c.active_project, Seq::empty(), "Projects:"@] + c.projects.map_values(
        |p: ProjectView| project_line(p, c.active_project),
    ) + if footer {
        seq![Seq::<char>::empty(), "Use /new <name> to create, /use <name> to switch."@]
    } else {
        Seq::<Seq<char>>::empty()
    }
}

pub open spec fn project_list(c: ContextView, footer: bool) -> Seq<char> {
    fit_text(join(project_list_lines(c, footer), "\n"@), MAX_TELEGRAM_TEXT as nat)
}

pub fn project_list_text(ctx: &ContextSnapshot, footer: bool) -> (r: String)
    ensures
        r@ == project_list(ctx@, footer),
{
    let mut lines: Vec<Vec<char>> = Vec::new();
    let mut first = line_of("Active project: ");
    push_str(&mut first, ctx.active_project.as_str());
    push_line(&mut lines, first);
    push_line(&mut lines, Vec::new());
    push_line(&mut lines, line_of("Projects:"));
    let ghost head = line_views(lines@);
    let ghost ps = project_views(ctx.projects@);
    let mut i: usize = 0;
    while i < ctx.projects.len()
        invariant
            i <= ctx.projects@.len(),
            ps == project_views(ctx.projects@),
            line_views(lines@) == head + ps.take(i as int).map_values(|p: ProjectView| project_line(p, ctx@.active_project)),
        decreases ctx.projects@.len() - i,
    {
        let p = &ctx.projects[i];
        let mut l: Vec<char> = Vec::new();
        if p.name == ctx.active_project {
            push_str(&mut l, "*");
        } else {
            push_str(&mut l, "-");
        }
        push_str(&mut l, " ");
        push_str(&mut l, p.name.as_str());
        push_str(&mut l, " | agent=");
        push_str(&mut l, p.agent.as_str());
        push_str(&mut l, " | model=");
        push_str(&mut l, p.model.as_str());
        push_str(&mut l, " | thinking=");
        push_or(&mut l, &p.thinking, "-");
        push_str(&mut l, " | session=");
        push_or(&mut l, &p.session_id, "-");
        proof {
            assert(ps[i as int] == p@);
            assert(l@ =~= project_line(p@, ctx@.active_project));
        }
        push_line(&mut lines, l);
        proof {
            assert(ps.take(i + 1).map_values(|p: ProjectView| project_line(p, ctx@.active_project)) =~= ps.take(
                i as int,
            ).map_values(|p: ProjectView| project_line(p, ctx@.active_project)).push(project_line(ps[i as int], ctx@.active_project)));
        }
        i = i + 1;
    }
    proof {
        assert(ps.take(ctx.projects@.len() as int) =~= ps);
    }
    if footer {
        push_line(&mut lines, Vec::new());
        push_line(&mut lines, line_of("Use /new <name> to create, /use <name> to switch."));
    }
    proof {
        assert(line_views(lines@) =~= project_list_lines(ctx@, footer));
    }
    finish_lines(&lines)
}

/// The first entries of a list (at most `MAX_LIST_ITEMS`), each as "- entry".
pub open spec fn bullets(items: Seq<Seq<char>>) -> Seq<Seq<char>> {
    let n = if items.len() > MAX_LIST_ITEMS {
        MAX_LIST_ITEMS as int
    } else {
        items.len() as int
    };
    items.take(n).map_values(|a: Seq<char>| "- "@ + a)
}

fn push_bullets(lines: &mut Vec<Vec<char>>, items: &Vec<String>)
    ensures
        line_views(final(lines)@) == line_views(old(lines)@) + bullets(views(items@)),
{
    let ghost start = line_views(lines@);
    let ghost vs = views(items@);
    let n = if items.len() > MAX_LIST_ITEMS {
        MAX_LIST_ITEMS
    } else {
        items.len()
    };
    let mut i: usize = 0;
    while i < n
        invariant
            i <= n <= items@.len(),
            n == if items@.len() > MAX_LIST_ITEMS { MAX_LIST_ITEMS as int } else { items@.len() as int },
            vs == views(items@),
            line_views(lines@) == start + vs.take(i as int).map_values(|a: Seq<char>| "- "@ + a),
        decreases n - i,
    {
        let mut l = line_of("- ");
        push_str(&mut l, items[i].as_str());
        push_line(lines, l);
        proof {
            assert(vs.take(i + 1).map_values(|a: Seq<char>| "- "@ + a) =~= vs.take(i as int).map_values(
                |a: Seq<char>| "- "@ + a,
            ).push("- "@ + vs[i as int]));
        }
        i = i + 1;
    }
}

/// The agents listed by the CLI: a header, the first entries, and how many more there are.
pub open spec fn agent_list(agents: Seq<Seq<char>>) -> Seq<char> {
    fit_text(
        join(
            seq!["Available agents:"@] + bullets(agents) + if agents.len() > MAX_LIST_ITEMS {
                seq!["... and "@ + decimal((agents.len() - MAX_LIST_ITEMS) as nat) + " more"@]
            } else {
                Seq::<Seq<char>>::empty()
            },
            "\n"@,
        ),
        MAX_TELEGRAM_TEXT as nat,
    )
}

/// Terminal text with its escape sequences removed (see `strip_ansi`).
pub open spec fn plain(s: Seq<char>) -> Seq<char> {
    strip_ansi_from(vstd::utf8::encode_utf8(s), 0)
}

/// The answer to listing agents, from the result of `opencode agent list`: on
/// failure a note with the end of the CLI's output; the raw output when no agent
/// line is found in it; else the list.
pub open spec fn agents_reply_text(ok: bool, stdout: Seq<char>, stderr: Seq<char>) -> Seq<char> {
    if !ok {
        "Failed to list agents.\n"@ + fit_text(plain(stderr + stdout), MAX_TELEGRAM_TEXT as nat)
    } else if listed_agents(stdout).len() == 0 {
        fit_text(plain(stdout), MAX_TELEGRAM_TEXT as nat)
    } else {
        agent_list(listed_agents(stdout))
    }
}

fn stripped_end(first: &str, second: &str) -> (r: String)
    ensures
        r@ == fit_text(plain(first@ + second@), MAX_TELEGRAM_TEXT as nat),
{
    let mut v = chars_of(first);
    push_str(&mut v, second);
    let both = string_from(v.as_slice());
    let s = strip_ansi(both.as_str());
    fit_telegram_text(s.as_str(), MAX_TELEGRAM_TEXT)
}

fn push_more_line(lines: &mut Vec<Vec<char>>, total: usize, tail: &str)
    requires
        total > MAX_LIST_ITEMS,
    ensures
        line_views(final(lines)@) == line_views(old(lines)@).push(
            "... and "@ + decimal((total - MAX_LIST_ITEMS) as nat) + tail@,
        ),
{
    let mut l = line_of("... and ");
    let n = usize_text(total - MAX_LIST_ITEMS);
    extend_chars(&mut l, n.as_slice());
    push_str(&mut l, tail);
    push_line(lines, l);
}

pub fn agents_reply(ok: bool, stdout: &str, stderr: &str) -> (r: String)
    ensures
        r@ == agents_reply_text(ok, stdout@, stderr@),
{
    if !ok {
        let mut v = line_of("Failed to list agents.\n");
        let tail = stripped_end(stderr, stdout);
        push_str(&mut v, tail.as_str());
        return string_from(v.as_slice());
    }
    let agents = parse_agent_list(stdout);
    if agents.len() == 0 {
        let s = strip_ansi(stdout);
        return fit_telegram_text(s.as_str(), MAX_TELEGRAM_TEXT);
    }
    let mut lines: Vec<Vec<char>> = Vec::new();
    push_line(&mut lines, line_of("Available agents:"));
    push_bullets(&mut lines, &agents);
    if agents.len() > MAX_LIST_ITEMS {
        push_more_line(&mut lines, agents.len(), " more");
    }
    proof {
        let a = views(agents@);
        assert(line_views(lines@) =~= seq!["Available agents:"@] + bullets(a) + if a.len() > MAX_LIST_ITEMS {
            seq!["... and "@ + decimal((a.len() - MAX_LIST_ITEMS) as nat) + " more"@]
        } else {
            Seq::<Seq<char>>::empty()
        });
    }
    finish_lines(&lines)
}

/// The models the CLI lists, or why there are none to pick from.
pub open spec fn models_listing(ok: bool, stdout: Seq<char>, stderr: Seq<char>) -> Result<Seq<Seq<char>>, Seq<char>> {
    if !ok {
        Err("Failed to list models.\n"@ + fit_text(plain(stderr + stdout), MAX_TELEGRAM_TEXT as nat))
    } else if listed_models(stdout).len() == 0 {
        Err("No models found."@)
    } else {
        Ok(listed_models(stdout))
    }
}

pub fn models_from_listing(ok: bool, stdout: &str, stderr: &str) -> (r: Result<Vec<String>, String>)
    ensures
        match models_listing(ok, stdout@, stderr@) {
            Ok(ms) => r matches Ok(v) && views(v@) == ms,
            Err(e) => r matches Err(m) && m@ == e,
        },
{
    if !ok {
        let mut v = line_of("Failed to list models.\n");
        let tail = stripped_end(stderr, stdout);
        push_str(&mut v, tail.as_str());
        return Err(string_from(v.as_slice()));
    }
    let models = parse_model_list(stdout);
    if models.len() == 0 {
        return Err(owned("No models found."));
    }
    Ok(models)
}

/// The models whose lower-cased id contains the keyword (all of them for an empty keyword).
pub open spec fn matching_models(ms: Seq<Seq<char>>, keyword: Seq<char>) -> Seq<Seq<char>>
    decreases ms.len(),
{
    if ms.len() == 0 {
        Seq::empty()
    } else {
        let rest = matching_models(ms.drop_last(), keyword);
        if keyword.len() == 0 || has_infix(lowercase(ms.last()), keyword) {
            rest.push(ms.last())
        } else {
            rest
        }
    }
}

proof fn lemma_matching_models_filter(ms: Seq<Seq<char>>, keyword: Seq<char>, keep: spec_fn(Seq<char>) -> bool)
    requires
        forall|m: Seq<char>| #[trigger] keep(m) == (keyword.len() == 0 || exists|i: int| 0 <= i && i + keyword.len() <= lowercase(m).len()
            && #[trigger] lowercase(m).subrange(i, i + keyword.len()) == keyword),
    ensures
        matching_models(ms, keyword) == ms.filter(keep),
    decreases ms.len(),
{
    reveal(Seq::filter);
    if ms.len() > 0 {
        lemma_matching_models_filter(ms.drop_last(), keyword, keep);
        assert(keep(ms.last()) == (keyword.len() == 0 || has_infix(lowercase(ms.last()), keyword)));
    }
}

/// `/model list <keyword>` keeps exactly the models whose lower-cased id contains
/// the keyword anywhere (every model for an empty keyword), in their order.
pub proof fn law_model_filter_keeps_exact_matches(ms: Seq<Seq<char>>, keyword: Seq<char>)
    ensures
        matching_models(ms, keyword) == ms.filter(
            |m: Seq<char>| keyword.len() == 0 || exists|i: int| 0 <= i && i + keyword.len() <= lowercase(m).len()
                && #[trigger] lowercase(m).subrange(i, i + keyword.len()) == keyword,
        ),
        forall|j: int| 0 <= j < ms.len() ==> (#[trigger] matching_models(ms, keyword).contains(ms[j]) <==> (keyword.len() == 0
            || exists|i: int| 0 <= i && i + keyword.len() <= lowercase(ms[j]).len()
                && #[trigger] lowercase(ms[j]).subrange(i, i + keyword.len()) == keyword)),
        forall|m: Seq<char>| #[trigger] matching_models(ms, keyword).contains(m) ==> ms.contains(m),
{
    let keep = |m: Seq<char>| keyword.len() == 0 || exists|i: int| 0 <= i && i + keyword.len() <= lowercase(m).len()
        && #[trigger] lowercase(m).subrange(i, i + keyword.len()) == keyword;
    lemma_matching_models_filter(ms, keyword, keep);
    let f = ms.filter(keep);
    assert forall|j: int| 0 <= j < ms.len() implies (#[trigger] matching_models(ms, keyword).contains(ms[j]) <==> keep(ms[j])) by {
        if keep(ms[j]) {
            ms.lemma_filter_contains(keep, j);
        }
        if f.contains(ms[j]) {
            let k = choose|k: int| 0 <= k < f.len() && f[k] == ms[j];
            ms.lemma_filter_pred(keep, k);
        }
    }
    assert forall|m: Seq<char>| #[trigger] matching_models(ms, keyword).contains(m) implies ms.contains(m) by {
        ms.lemma_filter_contains_rev(keep, m);
    }
}

pub fn filter_models(models: &Vec<String>, keyword: &str) -> (r: Vec<String>)
    ensures
        views(r@) == matching_models(views(models@), keyword@),
{
    let kv = chars_of(keyword);
    let ghost ms = views(models@);
    let mut out: Vec<String> = Vec::new();
    let mut i: usize = 0;
    while i < models.len()
        invariant
            i <= models@.len(),
            ms == views(models@),
            kv@ == keyword@,
            views(out@) == matching_models(ms.take(i as int), keyword@),
        decreases models@.len() - i,
    {
        proof {
            assert(ms.take(i + 1).drop_last() =~= ms.take(i as int));
            assert(ms.take(i + 1).last() == models@[i as int]@);
        }
        let lower = to_lowercase(models[i].as_str());
        let lv = chars_of(lower.as_str());
        if kv.len() == 0 || contains_chars(lv.as_slice(), kv.as_slice()) {
            let ghost before = views(out@);
            out.push(models[i].clone());
            proof {
                assert(views(out@) =~= before.push(models@[i as int]@));
            }
        }
        i = i + 1;
    }
    proof {
        assert(ms.take(models@.len() as int) =~= ms);
    }
    out
}

/// The answer to `/model list [keyword]` for the matching models.
pub open spec fn model_list(ms: Seq<Seq<char>>, keyword: Seq<char>) -> Seq<char> {
    if ms.len() == 0 {
        if keyword.len() == 0 {
            "No models found."@
        } else {
            "No models matching '"@ + keyword + "'."@
        }
    } else {
        let header = if keyword.len() == 0 {
            "Available models:"@
        } else {
            "Models matching '"@ + keyword + "':"@
        };
        fit_text(
            join(
                seq![header] + bullets(ms) + if ms.len() > MAX_LIST_ITEMS {
                    seq![
                        "... and "@ + decimal((ms.len() - MAX_LIST_ITEMS) as nat)
                            + " more. Add keyword: /model list <keyword>"@,
                    ]
                } else {
                    Seq::<Seq<char>>::empty()
                },
                "\n"@,
            ),
            MAX_TELEGRAM_TEXT as nat,
        )
    }
}

pub fn model_list_text(models: &Vec<String>, keyword: &str) -> (r: String)
    ensures
        r@ == model_list(views(models@), keyword@),
{
    let kv = chars_of(keyword);
    if models.len() == 0 {
        if kv.len() == 0 {
            return owned("No models found.");
        }
        let mut v = line_of("No models matching '");
        push_str(&mut v, keyword);
        push_str(&mut v, "'.");
        return string_from(v.as_slice());
    }
    let mut header: Vec<char>;
    if kv.len() == 0 {
        header = line_of("Available models:");
    } else {
        header = line_of("Models matching '");
        push_str(&mut header, keyword);
        push_str(&mut header, "':");
    }
    let mut lines: Vec<Vec<char>> = Vec::new();
    push_line(&mut lines, header);
    push_bullets(&mut lines, models);
    if models.len() > MAX_LIST_ITEMS {
        push_more_line(&mut lines, models.len(), " more. Add keyword: /model list <keyword>");
    }
    proof {
        let ms = views(models@);
        let h = if keyword@.len() == 0 {
            "Available models:"@
        } else {
            "Models matching '"@ + keyword@ + "':"@
        };
        assert(line_views(lines@) =~= seq![h] + bullets(ms) + if ms.len() > MAX_LIST_ITEMS {
            seq!["... and "@ + decimal((ms.len() - MAX_LIST_ITEMS) as nat) + " more. Add keyword: /model list <keyword>"@]
        } else {
            Seq::<Seq<char>>::empty()
        });
    }
    finish_lines(&lines)
}

/// The position of the first project with this name.
pub open spec fn position_of(ps: Seq<ProjectView>, name: Seq<char>) -> Option<int>
    decreases ps.len(),
{
    if ps.len() == 0 {
        None
    } else if ps[0].name == name {
        Some(0)
    } else {
        match position_of(ps.drop_first(), name) {
            Some(i) => Some(i + 1),
            None => None,
        }
    }
}

proof fn lemma_position_of(ps: Seq<ProjectView>, name: Seq<char>)
    ensures
        match position_of(ps, name) {
            Some(i) => 0 <= i < ps.len() && ps[i].name == name && forall|k: int| 0 <= k < i ==> (#[trigger] ps[k]).name != name,
            None => forall|k: int| 0 <= k < ps.len() ==> (#[trigger] ps[k]).name != name,
        },
    decreases ps.len(),
{
    if ps.len() > 0 && ps[0].name != name {
        let t = ps.drop_first();
        lemma_position_of(t, name);
        match position_of(t, name) {
            Some(j) => {
                assert(ps[j + 1] == t[j]);
                assert forall|k: int| 0 <= k < j + 1 implies (#[trigger] ps[k]).name != name by {
                    if k > 0 {
                        assert(ps[k] == t[k - 1]);
                    }
                }
            },
            None => {
                assert forall|k: int| 0 <= k < ps.len() implies (#[trigger] ps[k]).name != name by {
                    if k > 0 {
                        assert(ps[k] == t[k - 1]);
                    }
                }
            },
        }
    }
}

/// The project "delete this project" aims at: the active one (the first project
/// when the active one is not listed), with the page of the delete picker it is
/// on; `None` when the chat lists no project.
pub open spec fn delete_this_target(c: ContextView) -> Option<(nat, nat)> {
    let idx = match position_of(c.projects, c.active_project) {
        Some(i) => i,
        None => 0,
    };
    if idx < c.projects.len() {
        Some((idx as nat, (idx / 6) as nat))
    } else {
        None
    }
}

pub fn delete_target(ctx: &ContextSnapshot) -> (r: Option<(usize, usize)>)
    ensures
        match delete_this_target(ctx@) {
            Some((i, p)) => r == Some((i as usize, p as usize)),
            None => r is None,
        },
{
    let ghost ps = ctx@.projects;
    proof {
        lemma_position_of(ps, ctx@.active_project);
    }
    let mut i: usize = 0;
    while i < ctx.projects.len()
        invariant
            i <= ctx.projects@.len(),
            ps == ctx@.projects,
            ps.len() == ctx.projects@.len(),
            forall|k: int| 0 <= k < i ==> (#[trigger] ps[k]).name != ctx@.active_project,
        decreases ctx.projects@.len() - i,
    {
        proof {
            assert(ps[i as int] == ctx.projects@[i as int]@);
        }
        if ctx.projects[i].name == ctx.active_project {
            proof {
                lemma_position_of(ps, ctx@.active_project);
                assert(ps[i as int].name == ctx@.active_project);
                if let Some(j) = position_of(ps, ctx@.active_project) {
                    if j > i {
                        assert(ps[i as int].name != ctx@.active_project);
                    }
                    assert(j == i);
                }
            }
            return Some((i, i / 6));
        }
        i = i + 1;
    }
    proof {
        lemma_position_of(ps, ctx@.active_project);
    }
    if ctx.projects.len() == 0 {
        None
    } else {
        Some((0, 0))
    }
}

/// The question asked before a project is deleted.
pub open spec fn delete_prompt(p: ProjectView) -> Seq<char> {
    "Delete project '"@ + p.name + "' ?\nThis will remove project data and delete folder:\n"@ + p.work_dir
}

pub fn delete_prompt_text(p: &ProjectSettings) -> (r: String)
    ensures
        r@ == delete_prompt(p@),
{
    let mut v = line_of("Delete project '");
    push_str(&mut v, p.name.as_str());
    push_str(&mut v, "' ?\nThis will remove project data and delete folder:\n");
    push_str(&mut v, p.work_dir.as_str());
    string_from(v.as_slice())
}

/// What confirming the deletion of the listed project at `idx` leads to.
pub enum DeleteCheck {
    /// The chat has only one project.
    LastProject,
    /// No project is listed at that index: nothing is deleted.
    NoTarget,
    /// The project's task is running: cancel it first.
    Busy(String),
    /// Delete the project with this name.
    Delete(String),
}

pub open spec fn delete_check(c: ContextView, idx: nat, running_project: Option<Seq<char>>, r: DeleteCheck) -> bool {
    if c.projects.len() <= 1 {
        r == DeleteCheck::LastProject
    } else if idx >= c.projects.len() {
        r == DeleteCheck::NoTarget
    } else if running_project == Some(c.projects[idx as int].name) {
        r matches DeleteCheck::Busy(n) && n@ == c.projects[idx as int].name
    } else {
        r matches DeleteCheck::Delete(n) && n@ == c.projects[idx as int].name
    }
}

pub fn check_delete(ctx: &ContextSnapshot, idx: usize, running_project: Option<&str>) -> (r: DeleteCheck)
    ensures
        delete_check(ctx@, idx as nat, match running_project {
            Some(p) => Some(p@),
            None => None,
        }, r),
{
    if ctx.projects.len() <= 1 {
        return DeleteCheck::LastProject;
    }
    if idx >= ctx.projects.len() {
        return DeleteCheck::NoTarget;
    }
    let target = &ctx.projects[idx];
    proof {
        assert(ctx@.projects[idx as int] == target@);
    }
    let name = target.name.clone();
    match running_project {
        Some(p) => {
            let pv = chars_of(p);
            let nv = chars_of(name.as_str());
            if crate::text::chars_eq(pv.as_slice(), nv.as_slice()) {
                return DeleteCheck::Busy(name);
            }
            DeleteCheck::Delete(name)
        },
        None => DeleteCheck::Delete(name),
    }
}

/// The answer to creating a project: the new active project and its settings
/// ('-' for an unset thinking value or session).
pub open spec fn created_card(active: Seq<char>, p: ProjectView) -> Seq<char> {
    "Created and switched to project '"@ + active + "'.\n\nProject: "@ + p.name + "\nAgent: "@ + p.agent
        + "\nModel: "@ + p.model + "\nThinking: "@ + or_text(p.thinking, "-"@) + "\nSession: "@ + or_text(
        p.session_id,
        "-"@,
    ) + "\nWorkdir: "@ + p.work_dir
}

pub fn created_card_text(active: &str, p: &ProjectSettings) -> (r: String)
    ensures
        r@ == created_card(active@, p@),
{
    let mut v = line_of("Created and switched to project '");
    push_str(&mut v, active);
    push_str(&mut v, "'.\n\nProject: ");
    push_str(&mut v, p.name.as_str());
    push_str(&mut v, "\nAgent: ");
    push_str(&mut v, p.agent.as_str());
    push_str(&mut v, "\nModel: ");
    push_str(&mut v, p.model.as_str());
    push_str(&mut v, "\nThinking: ");
    push_or(&mut v, &p.thinking, "-");
    push_str(&mut v, "\nSession: ");
    push_or(&mut v, &p.session_id, "-");
    push_str(&mut v, "\nWorkdir: ");
    push_str(&mut v, p.work_dir.as_str());
    string_from(v.as_slice())
}

/// An optional mode as it is printed (`{:?}`): "Some(Build)", "Some(Plan)" or "None".
pub open spec fn mode_option_label(m: Option<RunMode>) -> Seq<char> {
    match m {
        Some(RunMode::Build) => "Some(Build)"@,
        Some(RunMode::Plan) => "Some(Plan)"@,
        None => "None"@,
    }
}

/// The request for a task, naming the mode it will run in.
pub open spec fn task_prompt(m: Option<RunMode>) -> Seq<char> {
    "Send your task prompt in the next message. Mode: "@ + mode_option_label(m) + ". Type 'cancel' to abort."@
}

pub fn task_prompt_text(mode: Option<RunMode>) -> (r: String)
    ensures
        r@ == task_prompt(mode),
{
    let mut v = line_of("Send your task prompt in the next message. Mode: ");
    match mode {
        Some(RunMode::Build) => push_str(&mut v, "Some(Build)"),
        Some(RunMode::Plan) => push_str(&mut v, "Some(Plan)"),
        None => push_str(&mut v, "None"),
    }
    push_str(&mut v, ". Type 'cancel' to abort.");
    string_from(v.as_slice())
}

} // verus!
