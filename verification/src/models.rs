//! The records the bot keeps about tasks and projects.
use vstd::prelude::*;
use crate::runner::{copy_string, views};
use crate::text::{chars_eq_ignore_ascii_case, chars_of, eq_ignore_ascii_case, slice_of, trim, trim_bounds};

verus! {

/// Where a task stands.
#[derive(Clone, Copy, Debug, PartialEq, Eq, Structural)]
pub enum TaskStatus {
    Idle,
    Running,
    Success,
    Failed,
    Cancelled,
}

/// How the opencode agent is asked to work.
#[derive(Clone, Copy, Debug, PartialEq, Eq, Structural)]
pub enum RunMode {
    Build,
    Plan,
}

/// The mode an agent name selects: `Plan` exactly for "plan" (ASCII case-insensitive,
/// surrounding whitespace ignored), `Build` for everything else.
pub open spec fn mode_of_agent(agent: Seq<char>) -> RunMode {
    if eq_ignore_ascii_case(trim(agent), seq!['p', 'l', 'a', 'n']) {
        RunMode::Plan
    } else {
        RunMode::Build
    }
}

impl RunMode {
    pub fn from_agent(agent: &str) -> (r: Self)
        ensures
            r == mode_of_agent(agent@),
    {
        let v = chars_of(agent);
        let (a, b) = trim_bounds(v.as_slice());
        let plan = ['p', 'l', 'a', 'n'];
        let is_plan = chars_eq_ignore_ascii_case(slice_of(v.as_slice(), a, b), plan.as_slice());
        proof {
            assert(plan@ =~= seq!['p', 'l', 'a', 'n']);
        }
        if is_plan {
            RunMode::Plan
        } else {
            RunMode::Build
        }
    }
}


/// Everything known about one task of one project: what runs, how, and what it printed.
#[derive(Clone, Debug)]
pub struct TaskSnapshot {
    pub key: String,
    pub context_key: String,
    pub project: String,
    pub command: Option<String>,
    pub status: TaskStatus,
    pub started_at: Option<i64>,
    pub finished_at: Option<i64>,
    pub exit_code: Option<i32>,
    pub signal: Option<String>,
    pub output: String,
    pub attempted_models: Vec<String>,
    pub last_run_model: Option<String>,
    pub fallback_used: bool,
    pub model: String,
    pub agent: String,
    pub mode: RunMode,
    pub thinking: Option<String>,
    pub session_id: Option<String>,
    pub version: u64,
}

/// The settings of one project of a chat.
#[derive(Clone, Debug)]
pub struct ProjectSettings {
    pub name: String,
    pub work_dir: String,
    pub agent: String,
    pub model: String,
    pub thinking: Option<String>,
    pub session_id: Option<String>,
    pub created_at: i64,
    pub updated_at: i64,
}

/// A chat's projects (sorted by name) and which of them is active.
#[derive(Clone, Debug)]
pub struct ContextSnapshot {
    pub key: String,
    pub active_project: String,
    pub projects: Vec<ProjectSettings>,
    pub version: u64,
}

/// The model tried first and the one tried once more after a quota-style failure.
#[derive(Clone, Debug)]
pub struct ModelStrategy {
    pub default_model: String,
    pub fallback_model: String,
}

/// Overrides for one run; `None` keeps the project's setting.
#[derive(Clone, Debug)]
pub struct RunTaskOptions {
    pub project: Option<String>,
    pub model: Option<String>,
    pub agent: Option<String>,
    pub mode: Option<RunMode>,
    pub thinking: Option<Option<String>>,
}

impl Default for RunTaskOptions {
    fn default() -> (r: Self)
        ensures
            r.project is None,
            r.model is None,
            r.agent is None,
            r.mode is None,
            r.thinking is None,
    {
        RunTaskOptions { project: None, model: None, agent: None, mode: None, thinking: None }
    }
}


/// The view of an optional string.
pub open spec fn opt_view(o: Option<String>) -> Option<Seq<char>> {
    match o {
        Some(s) => Some(s@),
        None => None,
    }
}

pub fn copy_opt_string(o: &Option<String>) -> (r: Option<String>)
    ensures
        opt_view(r) == opt_view(*o),
{
    match o {
        Some(s) => Some(copy_string(s)),
        None => None,
    }
}

pub fn copy_strings(v: &Vec<String>) -> (r: Vec<String>)
    ensures
        views(r@) == views(v@),
{
    let mut out: Vec<String> = Vec::new();
    let mut i: usize = 0;
    while i < v.len()
        invariant
            i <= v@.len(),
            out@.len() == i,
            views(out@) == views(v@).take(i as int),
        decreases v@.len() - i,
    {
        let ghost prev = out@;
        let s = copy_string(&v[i]);
        out.push(s);
        i = i + 1;
        proof {
            assert(views(out@) =~= views(prev).push(s@));
            assert(views(out@) =~= views(v@).take(i as int));
        }
    }
    proof {
        assert(views(v@).take(v@.len() as int) =~= views(v@));
    }
    out
}

/// What a project's settings say, as values.
pub struct ProjectView {
    pub name: Seq<char>,
    pub work_dir: Seq<char>,
    pub agent: Seq<char>,
    pub model: Seq<char>,
    pub thinking: Option<Seq<char>>,
    pub session_id: Option<Seq<char>>,
    pub created_at: i64,
    pub updated_at: i64,
}

impl View for ProjectSettings {
    type V = ProjectView;

    open spec fn view(&self) -> ProjectView {
        ProjectView {
            name: self.name@,
            work_dir: self.work_dir@,
            agent: self.agent@,
            model: self.model@,
            thinking: opt_view(self.thinking),
            session_id: opt_view(self.session_id),
            created_at: self.created_at,
            updated_at: self.updated_at,
        }
    }
}

impl ProjectSettings {
    pub fn duplicate(&self) -> (r: Self)
        ensures
            r@ == self@,
    {
        ProjectSettings {
            name: copy_string(&self.name),
            work_dir: copy_string(&self.work_dir),
            agent: copy_string(&self.agent),
            model: copy_string(&self.model),
            thinking: copy_opt_string(&self.thinking),
            session_id: copy_opt_string(&self.session_id),
            created_at: self.created_at,
            updated_at: self.updated_at,
        }
    }
}

/// What a task snapshot says, as values.
pub struct TaskView {
    pub key: Seq<char>,
    pub context_key: Seq<char>,
    pub project: Seq<char>,
    pub command: Option<Seq<char>>,
    pub status: TaskStatus,
    pub started_at: Option<i64>,
    pub finished_at: Option<i64>,
    pub exit_code: Option<i32>,
    pub signal: Option<Seq<char>>,
    pub output: Seq<char>,
    pub attempted_models: Seq<Seq<char>>,
    pub last_run_model: Option<Seq<char>>,
    pub fallback_used: bool,
    pub model: Seq<char>,
    pub agent: Seq<char>,
    pub mode: RunMode,
    pub thinking: Option<Seq<char>>,
    pub session_id: Option<Seq<char>>,
    pub version: u64,
}

impl View for TaskSnapshot {
    type V = TaskView;

    open spec fn view(&self) -> TaskView {
        TaskView {
            key: self.key@,
            context_key: self.context_key@,
            project: self.project@,
            command: opt_view(self.command),
            status: self.status,
            started_at: self.started_at,
            finished_at: self.finished_at,
            exit_code: self.exit_code,
            signal: opt_view(self.signal),
            output: self.output@,
            attempted_models: views(self.attempted_models@),
            last_run_model: opt_view(self.last_run_model),
            fallback_used: self.fallback_used,
            model: self.model@,
            agent: self.agent@,
            mode: self.mode,
            thinking: opt_view(self.thinking),
            session_id: opt_view(self.session_id),
            version: self.version,
        }
    }
}

impl TaskSnapshot {
    pub fn duplicate(&self) -> (r: Self)
        ensures
            r@ == self@,
    {
        TaskSnapshot {
            key: copy_string(&self.key),
            context_key: copy_string(&self.context_key),
            project: copy_string(&self.project),
            command: copy_opt_string(&self.command),
            status: self.status,
            started_at: self.started_at,
            finished_at: self.finished_at,
            exit_code: self.exit_code,
            signal: copy_opt_string(&self.signal),
            output: copy_string(&self.output),
            attempted_models: copy_strings(&self.attempted_models),
            last_run_model: copy_opt_string(&self.last_run_model),
            fallback_used: self.fallback_used,
            model: copy_string(&self.model),
            agent: copy_string(&self.agent),
            mode: self.mode,
            thinking: copy_opt_string(&self.thinking),
            session_id: copy_opt_string(&self.session_id),
            version: self.version,
        }
    }
}

/// The views of a list of projects.
pub open spec fn project_views(ps: Seq<ProjectSettings>) -> Seq<ProjectView> {
    ps.map_values(|p: ProjectSettings| p@)
}

/// What a context snapshot says, as values.
pub struct ContextView {
    pub key: Seq<char>,
    pub active_project: Seq<char>,
    pub projects: Seq<ProjectView>,
    pub version: u64,
}

impl View for ContextSnapshot {
    type V = ContextView;

    open spec fn view(&self) -> ContextView {
        ContextView {
            key: self.key@,
            active_project: self.active_project@,
            projects: project_views(self.projects@),
            version: self.version,
        }
    }
}

} // verus!
