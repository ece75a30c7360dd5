//! The task service: the chats' projects and the tasks run in them.
//!
//! This is the state machine of the bot. Every operation takes the current time
//! as an argument; running the opencode CLI, the cancellation tokens, the lock
//! and persistence belong to the caller, which performs what the operations
//! ask for.
use vstd::prelude::*;
use crate::keyed::{
    find_key, has_key, index_of, keyed, keys_unique, lemma_keyed_absent, lemma_keyed_at,
    lemma_keyed_insert, lemma_keyed_len, lemma_keyed_push, lemma_keyed_remove, lemma_keyed_update,
    Keyed,
};
use crate::models::{
    mode_of_agent, RunTaskOptions,
    copy_opt_string, opt_view, project_views, ContextSnapshot, ContextView, ModelStrategy,
    ProjectSettings, ProjectView, RunMode, TaskSnapshot, TaskStatus, TaskView,
};
use crate::runner::{copy_string, owned, views, RunnerRequest, RunnerResult};
use crate::patterns::{compile, is_match, regex_compiles, regex_is_match};
use crate::text::push_str;
use crate::text::{
    chars_less, chars_of, join_path, join_path_chars, lemma_seq_less_asymmetric,
    lemma_seq_less_irreflexive, lemma_seq_less_total, lemma_seq_less_transitive, replace_char,
    replace_chars, seq_less, string_from, trim, trim_bounds, slice_of, byte_boundary_index,
    drop_bytes, extend_chars, is_byte_boundary, utf8_len, lemma_utf8_len_append,
};
use crate::util::{
    normalize_thinking, normalized_thinking,
    context_key, context_key_text, normalize_project_name, normalized_project_name, task_key,
    task_key_text, NameError,
};

verus! {

broadcast use vstd::string::group_string_axioms;

impl Keyed for ProjectSettings {
    open spec fn key_of(&self) -> Seq<char> {
        self.name@
    }

    fn key_ref(&self) -> (r: &String) {
        &self.name
    }
}

/// A chat's projects, kept sorted by name, and its active project.
pub struct ContextRecord {
    pub key: String,
    pub active_project: String,
    pub projects: Vec<ProjectSettings>,
    pub version: u64,
}

/// What a context record says: the active project and the projects by name.
pub struct ContextState {
    pub active_project: Seq<char>,
    pub projects: Map<Seq<char>, ProjectView>,
    pub version: u64,
}

impl View for ContextRecord {
    type V = ContextState;

    open spec fn view(&self) -> ContextState {
        ContextState {
            active_project: self.active_project@,
            projects: keyed(self.projects@),
            version: self.version,
        }
    }
}

impl Keyed for ContextRecord {
    open spec fn key_of(&self) -> Seq<char> {
        self.key@
    }

    fn key_ref(&self) -> (r: &String) {
        &self.key
    }
}

/// A task and whether a cancellation token is still held for it.
pub struct TaskRecord {
    pub snapshot: TaskSnapshot,
    pub cancellable: bool,
}

pub struct TaskEntry {
    pub snapshot: TaskView,
    pub cancellable: bool,
}

impl View for TaskRecord {
    type V = TaskEntry;

    open spec fn view(&self) -> TaskEntry {
        TaskEntry { snapshot: self.snapshot@, cancellable: self.cancellable }
    }
}

impl Keyed for TaskRecord {
    open spec fn key_of(&self) -> Seq<char> {
        self.snapshot.key@
    }

    fn key_ref(&self) -> (r: &String) {
        &self.snapshot.key
    }
}

/// How new contexts and projects are set up, and how much output is kept.
pub struct ServiceConfig {
    pub sandbox_root: String,
    pub strategy: ModelStrategy,
    pub max_output_chars: usize,
    pub default_agent: String,
    pub default_project: String,
    pub default_thinking: Option<String>,
    /// Project folders are joined as on Windows ('\\' between components).
    pub windows: bool,
}

/// Projects sorted strictly by name.
pub open spec fn sorted_by_name(ps: Seq<ProjectSettings>) -> bool {
    forall|i: int, j: int| 0 <= i < j < ps.len() ==> seq_less((#[trigger] ps[i]).name@, (#[trigger] ps[j]).name@)
}

/// A context record is sound: it has projects, sorted by name, and its active project is one of them.
pub open spec fn context_wf(c: ContextRecord) -> bool {
    &&& c.projects@.len() > 0
    &&& sorted_by_name(c.projects@)
    &&& keys_unique(c.projects@)
    &&& has_key(c.projects@, c.active_project@)
}

/// Task `i` is running in context `ctx`.
pub open spec fn running_at(ts: Seq<TaskRecord>, i: int, ctx: Seq<char>) -> bool {
    0 <= i < ts.len() && ts[i].snapshot.status == TaskStatus::Running && ts[i].snapshot.context_key@ == ctx
}

/// At most one task runs per context.
pub open spec fn one_running_per_context(ts: Seq<TaskRecord>) -> bool {
    forall|i: int, j: int, ctx: Seq<char>| #[trigger] running_at(ts, i, ctx) && #[trigger] running_at(ts, j, ctx) ==> i == j
}

/// The name of the project every new context starts with: the configured default
/// normalized, or "main" where it cannot be normalized.
pub open spec fn default_project_name(cfg: ServiceConfig) -> Seq<char> {
    match normalized_project_name(cfg.default_project@) {
        Ok(n) => n,
        Err(_) => seq!['m', 'a', 'i', 'n'],
    }
}

/// A project as it is created: under the sandbox root, in a folder named after the
/// context (':' replaced by '-') and then the project (joined with the platform's
/// separator), with the configured agent,
/// model and thinking, no session, created and updated `now`.
pub open spec fn fresh_project(cfg: ServiceConfig, ctx_key: Seq<char>, name: Seq<char>, now: i64) -> ProjectView {
    ProjectView {
        name: name,
        work_dir: join_path(join_path(cfg.sandbox_root@, replace_char(ctx_key, ':', '-'), cfg.windows), name, cfg.windows),
        agent: cfg.default_agent@,
        model: cfg.strategy.default_model@,
        thinking: opt_view(cfg.default_thinking),
        session_id: None,
        created_at: now,
        updated_at: now,
    }
}

/// A context as it is created: its only project is the default one, which is active.
pub open spec fn fresh_context(cfg: ServiceConfig, key: Seq<char>, now: i64) -> ContextState {
    let n = default_project_name(cfg);
    ContextState {
        active_project: n,
        projects: Map::empty().insert(n, fresh_project(cfg, key, n, now)),
        version: 0,
    }
}

/// The contexts after the context `key` is made sure to exist.
pub open spec fn with_context(
    m: Map<Seq<char>, ContextState>,
    cfg: ServiceConfig,
    key: Seq<char>,
    now: i64,
) -> Map<Seq<char>, ContextState> {
    if m.contains_key(key) {
        m
    } else {
        m.insert(key, fresh_context(cfg, key, now))
    }
}

/// `ps` lists the projects of `m` sorted by name.
pub open spec fn lists_projects(ps: Seq<ProjectView>, m: Map<Seq<char>, ProjectView>) -> bool {
    &&& forall|i: int, j: int| 0 <= i < j < ps.len() ==> seq_less((#[trigger] ps[i]).name, (#[trigger] ps[j]).name)
    &&& forall|i: int| 0 <= i < ps.len() ==> m.contains_key((#[trigger] ps[i]).name) && m[ps[i].name] == ps[i]
    &&& forall|k: Seq<char>| #[trigger] m.contains_key(k) ==> exists|i: int| 0 <= i < ps.len() && (#[trigger] ps[i]).name == k
}

/// `snap` is the snapshot of context `key` in state `c`.
pub open spec fn is_context_snapshot(snap: ContextView, key: Seq<char>, c: ContextState) -> bool {
    &&& snap.key == key
    &&& snap.active_project == c.active_project
    &&& snap.version == c.version
    &&& lists_projects(snap.projects, c.projects)
}

proof fn lemma_sorted_lists(ps: Seq<ProjectSettings>)
    requires
        sorted_by_name(ps),
        keys_unique(ps),
    ensures
        lists_projects(project_views(ps), keyed(ps)),
{
    let vs = project_views(ps);
    assert forall|i: int| 0 <= i < vs.len() implies keyed(ps).contains_key((#[trigger] vs[i]).name) && keyed(ps)[vs[i].name] == vs[i] by {
        lemma_keyed_at(ps, i);
    }
    assert forall|k: Seq<char>| #[trigger] keyed(ps).contains_key(k) implies exists|i: int| 0 <= i < vs.len() && (#[trigger] vs[i]).name == k by {
        let i = index_of(ps, k);
        assert(vs[i].name == k);
    }
    assert forall|i: int, j: int| 0 <= i < j < vs.len() implies seq_less((#[trigger] vs[i]).name, (#[trigger] vs[j]).name) by {
        assert(seq_less(ps[i].name@, ps[j].name@));
    }
}

/// Position at which a project named `name` keeps the list sorted, and whether
/// the name is already taken.
fn sorted_position(ps: &Vec<ProjectSettings>, name: &String) -> (r: (usize, bool))
    requires
        sorted_by_name(ps@),
        keys_unique(ps@),
    ensures
        r.0 <= ps@.len(),
        r.1 == has_key(ps@, name@),
        forall|i: int| 0 <= i < r.0 ==> seq_less((#[trigger] ps@[i]).name@, name@),
        !r.1 ==> forall|i: int| r.0 <= i < ps@.len() ==> seq_less(name@, (#[trigger] ps@[i]).name@),
{
    let nv = chars_of(name.as_str());
    let mut i: usize = 0;
    while i < ps.len()
        invariant
            nv@ == name@,
            i <= ps@.len(),
            sorted_by_name(ps@),
            forall|k: int| 0 <= k < i ==> seq_less((#[trigger] ps@[k]).name@, name@),
        decreases ps@.len() - i,
    {
        let pv = chars_of(ps[i].name.as_str());
        if !chars_less(pv.as_slice(), nv.as_slice()) {
            proof {
                lemma_seq_less_total(ps@[i as int].name@, name@);
            }
            if ps[i].name == *name {
                proof {
                    assert(ps@[i as int].key_of() == name@);
                }
                return (i, true);
            }
            proof {
                assert forall|k: int| i <= k < ps@.len() implies seq_less(name@, (#[trigger] ps@[k]).name@) by {
                    if k > i {
                        assert(seq_less(ps@[i as int].name@, ps@[k].name@));
                        lemma_seq_less_transitive(name@, ps@[i as int].name@, ps@[k].name@);
                    }
                }
                assert forall|k: int| 0 <= k < ps@.len() implies (#[trigger] ps@[k]).key_of() != name@ by {
                    if k < i {
                        lemma_seq_less_irreflexive(name@);
                    } else {
                        lemma_seq_less_irreflexive(name@);
                    }
                }
            }
            return (i, false);
        }
        i = i + 1;
    }
    proof {
        assert forall|k: int| 0 <= k < ps@.len() implies (#[trigger] ps@[k]).key_of() != name@ by {
            lemma_seq_less_irreflexive(name@);
        }
    }
    (i, false)
}

/// Inserts a project with a new name, keeping the list sorted.
fn insert_project(ps: &mut Vec<ProjectSettings>, p: ProjectSettings)
    requires
        sorted_by_name(old(ps)@),
        keys_unique(old(ps)@),
        !has_key(old(ps)@, p.name@),
    ensures
        sorted_by_name(final(ps)@),
        keys_unique(final(ps)@),
        keyed(final(ps)@) == keyed(old(ps)@).insert(p.name@, p@),
        forall|k: Seq<char>| has_key(final(ps)@, k) == (has_key(old(ps)@, k) || k == p.name@),
        final(ps)@.len() == old(ps)@.len() + 1,
{
    let (pos, _) = sorted_position(ps, &p.name);
    let ghost before = ps@;
    proof {
        lemma_keyed_insert(before, pos as int, p);
    }
    ps.insert(pos, p);
    proof {
        let t = ps@;
        assert forall|i: int, j: int| 0 <= i < j < t.len() implies seq_less((#[trigger] t[i]).name@, (#[trigger] t[j]).name@) by {
            if j < pos {
                assert(t[i] == before[i] && t[j] == before[j]);
            } else if j == pos {
                assert(t[i] == before[i]);
            } else if i < pos {
                assert(t[i] == before[i] && t[j] == before[j - 1]);
                assert(seq_less(before[i].name@, t[pos as int].name@));
                assert(seq_less(t[pos as int].name@, before[j - 1].name@));
                lemma_seq_less_transitive(before[i].name@, t[pos as int].name@, before[j - 1].name@);
            } else if i == pos {
                assert(t[j] == before[j - 1]);
            } else {
                assert(t[i] == before[i - 1] && t[j] == before[j - 1]);
            }
        }
    }
}

/// Why an operation of the service is refused.
#[derive(Debug)]
pub enum ServiceError {
    /// The project name cannot be used.
    InvalidName(NameError),
    /// A project with this name exists already.
    ProjectExists(String),
    /// There is no project with this name (asked to use or delete it).
    NoSuchProject(String),
    /// There is no project with this name (asked for its task).
    UnknownProject(String),
    /// The project has a running task.
    ProjectBusy(String),
    /// The only project of a chat cannot be deleted.
    LastProject,
    /// An agent name must not be blank.
    EmptyAgent,
    /// A model must not be blank.
    EmptyModel,
    /// No running task was found.
    NothingToCancel,
    /// A task of this project is running already.
    AlreadyRunning(String),
    /// No task has this key.
    TaskNotFound,
    /// The task holds no cancellation token.
    TokenMissing,
}

impl ServiceError {
    /// The message shown to the user.
    pub open spec fn text(&self) -> Seq<char> {
        match self {
            ServiceError::InvalidName(e) => e.text(),
            ServiceError::ProjectExists(p) => "Project '"@ + p@ + "' already exists."@,
            ServiceError::NoSuchProject(p) => "Project '"@ + p@ + "' does not exist. Use /projects to list available projects."@,
            ServiceError::UnknownProject(p) => "Project '"@ + p@ + "' does not exist."@,
            ServiceError::ProjectBusy(p) => "Project '"@ + p@ + "' has a running task. Cancel it before deleting the project."@,
            ServiceError::LastProject => "Cannot delete the last project."@,
            ServiceError::EmptyAgent => "Agent name cannot be empty."@,
            ServiceError::EmptyModel => "Model cannot be empty."@,
            ServiceError::NothingToCancel => "No running task to cancel."@,
            ServiceError::AlreadyRunning(p) => "A task is already running for project '"@ + p@ + "'."@,
            ServiceError::TaskNotFound => "Task not found."@,
            ServiceError::TokenMissing => "Task cancel token missing."@,
        }
    }

    pub fn message(&self) -> (r: String)
        ensures
            r@ == self.text(),
    {
        let mut v: Vec<char> = Vec::new();
        match self {
            ServiceError::InvalidName(e) => {
                return e.message();
            },
            ServiceError::ProjectExists(p) => {
                push_str(&mut v, "Project '");
                push_str(&mut v, p.as_str());
                push_str(&mut v, "' already exists.");
            },
            ServiceError::NoSuchProject(p) => {
                push_str(&mut v, "Project '");
                push_str(&mut v, p.as_str());
                push_str(&mut v, "' does not exist. Use /projects to list available projects.");
            },
            ServiceError::UnknownProject(p) => {
                push_str(&mut v, "Project '");
                push_str(&mut v, p.as_str());
                push_str(&mut v, "' does not exist.");
            },
            ServiceError::ProjectBusy(p) => {
                push_str(&mut v, "Project '");
                push_str(&mut v, p.as_str());
                push_str(&mut v, "' has a running task. Cancel it before deleting the project.");
            },
            ServiceError::LastProject => {
                push_str(&mut v, "Cannot delete the last project.");
            },
            ServiceError::EmptyAgent => {
                push_str(&mut v, "Agent name cannot be empty.");
            },
            ServiceError::EmptyModel => {
                push_str(&mut v, "Model cannot be empty.");
            },
            ServiceError::NothingToCancel => {
                push_str(&mut v, "No running task to cancel.");
            },
            ServiceError::AlreadyRunning(p) => {
                push_str(&mut v, "A task is already running for project '");
                push_str(&mut v, p.as_str());
                push_str(&mut v, "'.");
            },
            ServiceError::TaskNotFound => {
                push_str(&mut v, "Task not found.");
            },
            ServiceError::TokenMissing => {
                push_str(&mut v, "Task cancel token missing.");
            },
        }
        proof {
            assert(v@ =~= self.text());
        }
        string_from(v.as_slice())
    }
}

/// A version counter after one more change (wrapping at the maximum).
pub open spec fn bump(v: u64) -> u64 {
    if v == u64::MAX {
        0
    } else {
        (v + 1) as u64
    }
}

pub fn bump_version(v: u64) -> (r: u64)
    ensures
        r == bump(v),
{
    if v == u64::MAX {
        0
    } else {
        v + 1
    }
}

/// The service state. Only the operations below change it.
pub struct TaskService {
    config: ServiceConfig,
    contexts: Vec<ContextRecord>,
    tasks: Vec<TaskRecord>,
}

impl TaskService {
    /// The configuration the service was made with.
    pub closed spec fn cfg(&self) -> ServiceConfig {
        self.config
    }

    /// The contexts by key.
    pub closed spec fn contexts(&self) -> Map<Seq<char>, ContextState> {
        keyed(self.contexts@)
    }

    /// The tasks by key.
    pub closed spec fn tasks(&self) -> Map<Seq<char>, TaskEntry> {
        keyed(self.tasks@)
    }

    /// The service's invariant.
    pub closed spec fn wf(&self) -> bool {
        &&& keys_unique(self.contexts@)
        &&& keys_unique(self.tasks@)
        &&& forall|i: int| 0 <= i < self.contexts@.len() ==> context_wf(#[trigger] self.contexts@[i])
        &&& one_running_per_context(self.tasks@)
    }

    /// A service with no contexts and no tasks.
    pub fn new(config: ServiceConfig) -> (r: Self)
        ensures
            r.wf(),
            r.cfg() == config,
            r.contexts() == Map::<Seq<char>, ContextState>::empty(),
            r.tasks() == Map::<Seq<char>, TaskEntry>::empty(),
    {
        let r = TaskService { config, contexts: Vec::new(), tasks: Vec::new() };
        proof {
            assert(r.contexts() =~= Map::<Seq<char>, ContextState>::empty());
            assert(r.tasks() =~= Map::<Seq<char>, TaskEntry>::empty());
        }
        r
    }

    /// The configured model strategy.
    pub fn strategy(&self) -> (r: ModelStrategy)
        ensures
            r.default_model@ == self.cfg().strategy.default_model@,
            r.fallback_model@ == self.cfg().strategy.fallback_model@,
    {
        ModelStrategy {
            default_model: copy_string(&self.config.strategy.default_model),
            fallback_model: copy_string(&self.config.strategy.fallback_model),
        }
    }

    fn default_name(&self) -> (r: String)
        ensures
            r@ == default_project_name(self.cfg()),
    {
        match normalize_project_name(self.config.default_project.as_str()) {
            Ok(n) => n,
            Err(_) => {
                let m = owned("main");
                proof {
                    reveal_strlit("main");
                    assert(m@ =~= seq!['m', 'a', 'i', 'n']);
                }
                m
            },
        }
    }

    fn new_project(&self, ctx_key: &String, name: &String, now: i64) -> (r: ProjectSettings)
        ensures
            r@ == fresh_project(self.cfg(), ctx_key@, name@, now),
    {
        let root = chars_of(self.config.sandbox_root.as_str());
        let ck = chars_of(ctx_key.as_str());
        let folder = replace_chars(ck.as_slice(), ':', '-');
        let nv = chars_of(name.as_str());
        let dir = join_path_chars(root.as_slice(), folder.as_slice(), self.config.windows);
        let full = join_path_chars(dir.as_slice(), nv.as_slice(), self.config.windows);
        ProjectSettings {
            name: copy_string(name),
            work_dir: string_from(full.as_slice()),
            agent: copy_string(&self.config.default_agent),
            model: copy_string(&self.config.strategy.default_model),
            thinking: copy_opt_string(&self.config.default_thinking),
            session_id: None,
            created_at: now,
            updated_at: now,
        }
    }

    /// Makes sure context `key` exists and returns its position.
    fn ensure_context(&mut self, key: &String, now: i64) -> (idx: usize)
        requires
            old(self).wf(),
        ensures
            final(self).wf(),
            final(self).cfg() == old(self).cfg(),
            final(self).tasks@ == old(self).tasks@,
            final(self).contexts() == with_context(old(self).contexts(), old(self).cfg(), key@, now),
            idx < final(self).contexts@.len(),
            final(self).contexts@[idx as int].key@ == key@,
            index_of(final(self).contexts@, key@) == idx,
    {
        match find_key(&self.contexts, key) {
            Some(i) => i,
            None => {
                let name = self.default_name();
                let p = self.new_project(key, &name, now);
                let ghost pv = p@;
                let mut projects: Vec<ProjectSettings> = Vec::new();
                projects.push(p);
                let rec = ContextRecord {
                    key: copy_string(key),
                    active_project: name,
                    projects,
                    version: 0,
                };
                proof {
                    lemma_keyed_push(Seq::<ProjectSettings>::empty(), rec.projects@[0]);
                    assert(rec.projects@ =~= Seq::<ProjectSettings>::empty().push(rec.projects@[0]));
                    assert(keyed(Seq::<ProjectSettings>::empty()) =~= Map::<Seq<char>, ProjectView>::empty());
                    assert(rec@ == fresh_context(self.config, key@, now));
                    assert(rec.projects@[0].key_of() == rec.active_project@);
                    assert(has_key(rec.projects@, rec.active_project@));
                    lemma_keyed_push(self.contexts@, rec);
                }
                self.contexts.push(rec);
                let idx = self.contexts.len() - 1;
                proof {
                    lemma_keyed_at(self.contexts@, idx as int);
                }
                idx
            },
        }
    }

    /// A snapshot of the context at `idx`.
    fn context_snapshot(&self, idx: usize) -> (r: ContextSnapshot)
        requires
            self.wf(),
            idx < self.contexts@.len(),
        ensures
            is_context_snapshot(r@, self.contexts@[idx as int].key@, self.contexts@[idx as int]@),
    {
        let c = &self.contexts[idx];
        let mut ps: Vec<ProjectSettings> = Vec::new();
        let mut i: usize = 0;
        while i < c.projects.len()
            invariant
                i <= c.projects@.len(),
                ps@.len() == i,
                forall|k: int| 0 <= k < i ==> (#[trigger] ps@[k])@ == c.projects@[k]@,
            decreases c.projects@.len() - i,
        {
            ps.push(c.projects[i].duplicate());
            i = i + 1;
        }
        proof {
            assert(context_wf(self.contexts@[idx as int]));
            lemma_sorted_lists(c.projects@);
            assert(project_views(ps@) =~= project_views(c.projects@));
        }
        ContextSnapshot {
            key: copy_string(&c.key),
            active_project: copy_string(&c.active_project),
            projects: ps,
            version: c.version,
        }
    }
}


/// `ts` holds the snapshots of the tasks `tasks`, each once.
pub open spec fn saved_tasks(tasks: Map<Seq<char>, TaskEntry>, ts: Seq<TaskSnapshot>) -> bool {
    &&& snapshot_keys_unique(ts)
    &&& forall|i: int| 0 <= i < ts.len() ==> tasks.contains_key((#[trigger] ts[i]).key@) && ts[i]@ == tasks[ts[i].key@].snapshot
    &&& forall|k: Seq<char>| #[trigger] tasks.contains_key(k) ==> exists|i: int| 0 <= i < ts.len() && (#[trigger] ts[i]).key@ == k
}

/// `cs` holds sound records of the contexts `m`, each once.
pub open spec fn saved_contexts_of(m: Map<Seq<char>, ContextState>, cs: Seq<ContextRecord>) -> bool {
    &&& keys_unique(cs)
    &&& forall|i: int| 0 <= i < cs.len() ==> context_wf(#[trigger] cs[i])
    &&& keyed(cs) == m
}

fn copy_projects(ps: &Vec<ProjectSettings>) -> (r: Vec<ProjectSettings>)
    ensures
        r@.len() == ps@.len(),
        forall|i: int| 0 <= i < r@.len() ==> (#[trigger] r@[i])@ == ps@[i]@,
{
    let mut out: Vec<ProjectSettings> = Vec::new();
    let mut i: usize = 0;
    while i < ps.len()
        invariant
            i <= ps@.len(),
            out@.len() == i,
            forall|k: int| 0 <= k < i ==> (#[trigger] out@[k])@ == ps@[k]@,
        decreases ps@.len() - i,
    {
        out.push(ps[i].duplicate());
        i = i + 1;
    }
    out
}

proof fn lemma_same_projects(a: Seq<ProjectSettings>, b: Seq<ProjectSettings>)
    requires
        a.len() == b.len(),
        forall|i: int| 0 <= i < b.len() ==> (#[trigger] b[i])@ == a[i]@,
    ensures
        forall|k: Seq<char>| has_key(a, k) == has_key(b, k),
        sorted_by_name(a) ==> sorted_by_name(b),
        keys_unique(a) ==> keys_unique(b),
        keys_unique(a) ==> keyed(a) == keyed(b),
{
    assert forall|k: Seq<char>| has_key(a, k) == has_key(b, k) by {
        if has_key(a, k) {
            let j = choose|j: int| 0 <= j < a.len() && (#[trigger] a[j]).key_of() == k;
            assert(b[j]@ == a[j]@);
        }
        if has_key(b, k) {
            let j = choose|j: int| 0 <= j < b.len() && (#[trigger] b[j]).key_of() == k;
            assert(b[j]@ == a[j]@);
        }
    }
    if sorted_by_name(a) {
        assert forall|i: int, j: int| 0 <= i < j < b.len() implies seq_less((#[trigger] b[i]).name@, (#[trigger] b[j]).name@) by {
            assert(b[i]@ == a[i]@ && b[j]@ == a[j]@);
            assert(seq_less(a[i].name@, a[j].name@));
        }
    }
    if keys_unique(a) {
        assert forall|i: int, j: int| 0 <= i < b.len() && 0 <= j < b.len() && (#[trigger] b[i]).key_of() == (#[trigger] b[j]).key_of() implies i == j by {
            assert(b[i]@ == a[i]@ && b[j]@ == a[j]@);
            assert(a[i].key_of() == a[j].key_of());
        }
        assert forall|k: Seq<char>| #[trigger] keyed(b).contains_key(k) implies keyed(b)[k] == keyed(a)[k] by {
            let j = index_of(b, k);
            lemma_keyed_at(b, j);
            assert(b[j]@ == a[j]@);
            lemma_keyed_at(a, j);
        }
        assert(keyed(b) =~= keyed(a));
    }
}

proof fn lemma_same_records(a: Seq<ContextRecord>, b: Seq<ContextRecord>)
    requires
        keys_unique(a),
        a.len() == b.len(),
        forall|i: int| 0 <= i < b.len() ==> (#[trigger] b[i]).key@ == a[i].key@ && b[i]@ == a[i]@ && context_wf(b[i]),
    ensures
        saved_contexts_of(keyed(a), b),
{
    assert forall|i: int, j: int| 0 <= i < b.len() && 0 <= j < b.len() && (#[trigger] b[i]).key_of() == (#[trigger] b[j]).key_of() implies i == j by {
        assert(a[i].key_of() == a[j].key_of());
    }
    assert forall|k: Seq<char>| has_key(a, k) == has_key(b, k) by {
        if has_key(a, k) {
            let j = choose|j: int| 0 <= j < a.len() && (#[trigger] a[j]).key_of() == k;
            assert(b[j].key_of() == k);
        }
        if has_key(b, k) {
            let j = choose|j: int| 0 <= j < b.len() && (#[trigger] b[j]).key_of() == k;
            assert(a[j].key_of() == k);
        }
    }
    assert forall|k: Seq<char>| #[trigger] keyed(b).contains_key(k) implies keyed(b)[k] == keyed(a)[k] by {
        let j = index_of(b, k);
        lemma_keyed_at(b, j);
        lemma_keyed_at(a, j);
    }
    assert(keyed(b) =~= keyed(a));
}

impl TaskService {
    /// The chat's context, created with its default project if it is new.
    pub fn get_context(&mut self, chat_id: i64, thread_id: Option<i32>, now: i64) -> (r: ContextSnapshot)
        requires
            old(self).wf(),
        ensures
            final(self).wf(),
            final(self).cfg() == old(self).cfg(),
            final(self).tasks() == old(self).tasks(),
            final(self).contexts() == with_context(old(self).contexts(), old(self).cfg(), context_key_text(chat_id, thread_id), now),
            is_context_snapshot(
                r@,
                context_key_text(chat_id, thread_id),
                final(self).contexts()[context_key_text(chat_id, thread_id)],
            ),
    {
        let key = context_key(chat_id, thread_id);
        let idx = self.ensure_context(&key, now);
        proof {
            lemma_keyed_at(self.contexts@, idx as int);
        }
        self.context_snapshot(idx)
    }

    /// The settings of the chat's active project.
    pub fn get_active_project(&mut self, chat_id: i64, thread_id: Option<i32>, now: i64) -> (r: ProjectSettings)
        requires
            old(self).wf(),
        ensures
            final(self).wf(),
            final(self).cfg() == old(self).cfg(),
            final(self).tasks() == old(self).tasks(),
            final(self).contexts() == with_context(old(self).contexts(), old(self).cfg(), context_key_text(chat_id, thread_id), now),
            ({
                let c = final(self).contexts()[context_key_text(chat_id, thread_id)];
                c.projects.contains_key(c.active_project) && r@ == c.projects[c.active_project]
            }),
    {
        let key = context_key(chat_id, thread_id);
        let idx = self.ensure_context(&key, now);
        let c = &self.contexts[idx];
        proof {
            lemma_keyed_at(self.contexts@, idx as int);
            assert(context_wf(self.contexts@[idx as int]));
        }
        match find_key(&c.projects, &c.active_project) {
            Some(j) => {
                proof {
                    lemma_keyed_at(c.projects@, j as int);
                }
                c.projects[j].duplicate()
            },
            None => {
                proof {
                    assert(false);
                }
                c.projects[0].duplicate()
            },
        }
    }
}

proof fn lemma_reinsert(before: Seq<ContextRecord>, idx: int, rec: ContextRecord)
    requires
        keys_unique(before),
        0 <= idx < before.len(),
        rec.key@ == before[idx].key@,
        forall|i: int| 0 <= i < before.len() ==> context_wf(#[trigger] before[i]),
        context_wf(rec),
    ensures
        before.remove(idx).insert(idx, rec) == before.update(idx, rec),
        keys_unique(before.update(idx, rec)),
        keyed(before.update(idx, rec)) == keyed(before).insert(rec.key@, rec@),
        forall|i: int| 0 <= i < before.len() ==> context_wf(#[trigger] before.update(idx, rec)[i]),
{
    assert(before.remove(idx).insert(idx, rec) =~= before.update(idx, rec));
    lemma_keyed_update(before, idx, rec);
}

/// The state of a context after a project is added and made active.
pub open spec fn with_new_project(c: ContextState, cfg: ServiceConfig, ctx_key: Seq<char>, name: Seq<char>, now: i64) -> ContextState {
    ContextState {
        active_project: name,
        projects: c.projects.insert(name, fresh_project(cfg, ctx_key, name, now)),
        version: bump(c.version),
    }
}

impl TaskService {
    /// Creates a project in the chat and makes it active.
    pub fn create_project(&mut self, chat_id: i64, thread_id: Option<i32>, name: &str, now: i64) -> (r: Result<ContextSnapshot, ServiceError>)
        requires
            old(self).wf(),
        ensures
            final(self).wf(),
            final(self).cfg() == old(self).cfg(),
            final(self).tasks() == old(self).tasks(),
            ({
                let key = context_key_text(chat_id, thread_id);
                let ensured = with_context(old(self).contexts(), old(self).cfg(), key, now);
                match normalized_project_name(name@) {
                    Err(e) => r matches Err(ServiceError::InvalidName(e2)) && e2 == e && final(self).contexts() == old(self).contexts(),
                    Ok(n) => if ensured[key].projects.contains_key(n) {
                        &&& r matches Err(ServiceError::ProjectExists(s)) && s@ == n
                        &&& final(self).contexts() == ensured
                    } else {
                        &&& final(self).contexts() == ensured.insert(key, with_new_project(ensured[key], old(self).cfg(), key, n, now))
                        &&& r matches Ok(snap) && is_context_snapshot(snap@, key, final(self).contexts()[key])
                    },
                }
            }),
    {
        let n = match normalize_project_name(name) {
            Ok(n) => n,
            Err(e) => {
                return Err(ServiceError::InvalidName(e));
            },
        };
        let key = context_key(chat_id, thread_id);
        let idx = self.ensure_context(&key, now);
        let ghost before = self.contexts@;
        proof {
            lemma_keyed_at(before, idx as int);
            assert(context_wf(before[idx as int]));
        }
        match find_key(&self.contexts[idx].projects, &n) {
            Some(_) => {
                return Err(ServiceError::ProjectExists(n));
            },
            None => {},
        }
        let p = self.new_project(&key, &n, now);
        let mut rec = self.contexts.remove(idx);
        proof {
            assert(rec == before[idx as int]);
        }
        insert_project(&mut rec.projects, p);
        rec.active_project = n;
        rec.version = bump_version(rec.version);
        proof {
            assert(has_key(rec.projects@, rec.active_project@));
            lemma_reinsert(before, idx as int, rec);
        }
        self.contexts.insert(idx, rec);
        proof {
            assert(self.contexts@ == before.update(idx as int, rec));
            lemma_keyed_at(self.contexts@, idx as int);
        }
        Ok(self.context_snapshot(idx))
    }

    /// Makes an existing project the chat's active one.
    pub fn use_project(&mut self, chat_id: i64, thread_id: Option<i32>, name: &str, now: i64) -> (r: Result<ContextSnapshot, ServiceError>)
        requires
            old(self).wf(),
        ensures
            final(self).wf(),
            final(self).cfg() == old(self).cfg(),
            final(self).tasks() == old(self).tasks(),
            ({
                let key = context_key_text(chat_id, thread_id);
                let ensured = with_context(old(self).contexts(), old(self).cfg(), key, now);
                match normalized_project_name(name@) {
                    Err(e) => r matches Err(ServiceError::InvalidName(e2)) && e2 == e && final(self).contexts() == old(self).contexts(),
                    Ok(n) => if !ensured[key].projects.contains_key(n) {
                        &&& r matches Err(ServiceError::NoSuchProject(s)) && s@ == n
                        &&& final(self).contexts() == ensured
                    } else {
                        &&& final(self).contexts() == ensured.insert(key, ContextState {
                            active_project: n,
                            projects: ensured[key].projects,
                            version: bump(ensured[key].version),
                        })
                        &&& r matches Ok(snap) && is_context_snapshot(snap@, key, final(self).contexts()[key])
                    },
                }
            }),
    {
        let n = match normalize_project_name(name) {
            Ok(n) => n,
            Err(e) => {
                return Err(ServiceError::InvalidName(e));
            },
        };
        let key = context_key(chat_id, thread_id);
        let idx = self.ensure_context(&key, now);
        let ghost before = self.contexts@;
        proof {
            lemma_keyed_at(before, idx as int);
            assert(context_wf(before[idx as int]));
        }
        match find_key(&self.contexts[idx].projects, &n) {
            Some(_) => {},
            None => {
                return Err(ServiceError::NoSuchProject(n));
            },
        }
        let mut rec = self.contexts.remove(idx);
        proof {
            assert(rec == before[idx as int]);
        }
        rec.active_project = n;
        rec.version = bump_version(rec.version);
        proof {
            lemma_reinsert(before, idx as int, rec);
        }
        self.contexts.insert(idx, rec);
        proof {
            assert(self.contexts@ == before.update(idx as int, rec));
            lemma_keyed_at(self.contexts@, idx as int);
        }
        Ok(self.context_snapshot(idx))
    }
}


/// The first name of a set of projects in name order.
pub open spec fn first_name(m: Map<Seq<char>, ProjectView>) -> Seq<char> {
    choose|k: Seq<char>| #[trigger] m.contains_key(k) && forall|k2: Seq<char>| #[trigger] m.contains_key(k2) ==> k == k2 || seq_less(k, k2)
}

/// The state of a context after project `name` is deleted: when it was active, the
/// first remaining project in name order becomes active.
pub open spec fn without_project(c: ContextState, name: Seq<char>) -> ContextState {
    let rest = c.projects.remove(name);
    ContextState {
        active_project: if c.active_project == name { first_name(rest) } else { c.active_project },
        projects: rest,
        version: bump(c.version),
    }
}

proof fn lemma_sorted_remove(ps: Seq<ProjectSettings>, j: int)
    requires
        sorted_by_name(ps),
        0 <= j < ps.len(),
    ensures
        sorted_by_name(ps.remove(j)),
{
    let t = ps.remove(j);
    assert forall|a: int, b: int| 0 <= a < b < t.len() implies seq_less((#[trigger] t[a]).name@, (#[trigger] t[b]).name@) by {
        let a2 = if a < j { a } else { a + 1 };
        let b2 = if b < j { b } else { b + 1 };
        assert(t[a] == ps[a2] && t[b] == ps[b2]);
    }
}

proof fn lemma_first_is_least(ps: Seq<ProjectSettings>)
    requires
        sorted_by_name(ps),
        keys_unique(ps),
        ps.len() > 0,
    ensures
        first_name(keyed(ps)) == ps[0].name@,
{
    let m = keyed(ps);
    let p0 = ps[0].name@;
    lemma_keyed_at(ps, 0);
    assert forall|k2: Seq<char>| #[trigger] m.contains_key(k2) implies p0 == k2 || seq_less(p0, k2) by {
        let i = index_of(ps, k2);
        if i > 0 {
            assert(seq_less(ps[0].name@, ps[i].name@));
        }
    }
    let k = first_name(m);
    assert(m.contains_key(k));
    assert(p0 == k || seq_less(p0, k));
    assert(k == p0 || seq_less(k, p0));
    if k != p0 {
        lemma_seq_less_asymmetric(p0, k);
    }
}

impl TaskService {
    /// Removes the task with `key`, if there is one.
    fn drop_task(&mut self, key: &String)
        requires
            old(self).wf(),
        ensures
            final(self).wf(),
            final(self).cfg() == old(self).cfg(),
            final(self).contexts@ == old(self).contexts@,
            final(self).tasks() == old(self).tasks().remove(key@),
    {
        match find_key(&self.tasks, key) {
            Some(i) => {
                let ghost before = self.tasks@;
                proof {
                    lemma_keyed_remove(before, i as int);
                }
                self.tasks.remove(i);
                proof {
                    let t = self.tasks@;
                    assert forall|a: int, b: int, ctx: Seq<char>| #[trigger] running_at(t, a, ctx) && #[trigger] running_at(t, b, ctx) implies a == b by {
                        let a2 = if a < i { a } else { a + 1 };
                        let b2 = if b < i { b } else { b + 1 };
                        assert(t[a] == before[a2] && t[b] == before[b2]);
                        assert(running_at(before, a2, ctx) && running_at(before, b2, ctx));
                    }
                }
            },
            None => {
                proof {
                    assert(self.tasks() =~= old(self).tasks().remove(key@));
                }
            },
        }
    }

    /// Deletes a project of the chat, with its task; refused while that task runs
    /// and for the chat's last project.
    pub fn delete_project(&mut self, chat_id: i64, thread_id: Option<i32>, name: &str, now: i64) -> (r: Result<(ContextSnapshot, ProjectSettings), ServiceError>)
        requires
            old(self).wf(),
        ensures
            final(self).wf(),
            final(self).cfg() == old(self).cfg(),
            ({
                let key = context_key_text(chat_id, thread_id);
                let ensured = with_context(old(self).contexts(), old(self).cfg(), key, now);
                match normalized_project_name(name@) {
                    Err(e) => {
                        &&& r matches Err(ServiceError::InvalidName(e2)) && e2 == e
                        &&& final(self).contexts() == old(self).contexts()
                        &&& final(self).tasks() == old(self).tasks()
                    },
                    Ok(n) => {
                        let tk = task_key_text(key, n);
                        if old(self).tasks().contains_key(tk) && old(self).tasks()[tk].snapshot.status == TaskStatus::Running {
                            &&& r matches Err(ServiceError::ProjectBusy(s)) && s@ == n
                            &&& final(self).contexts() == old(self).contexts()
                            &&& final(self).tasks() == old(self).tasks()
                        } else if ensured[key].projects.dom().len() <= 1 {
                            &&& r matches Err(ServiceError::LastProject)
                            &&& final(self).contexts() == ensured
                            &&& final(self).tasks() == old(self).tasks()
                        } else if !ensured[key].projects.contains_key(n) {
                            &&& r matches Err(ServiceError::NoSuchProject(s)) && s@ == n
                            &&& final(self).contexts() == ensured
                            &&& final(self).tasks() == old(self).tasks()
                        } else {
                            &&& final(self).contexts() == ensured.insert(key, without_project(ensured[key], n))
                            &&& final(self).tasks() == old(self).tasks().remove(tk)
                            &&& r matches Ok((snap, deleted)) && deleted@ == ensured[key].projects[n]
                                && is_context_snapshot(snap@, key, final(self).contexts()[key])
                        }
                    },
                }
            }),
    {
        let n = match normalize_project_name(name) {
            Ok(n) => n,
            Err(e) => {
                return Err(ServiceError::InvalidName(e));
            },
        };
        let key = context_key(chat_id, thread_id);
        let tk = task_key(key.as_str(), n.as_str());
        match find_key(&self.tasks, &tk) {
            Some(t) => {
                proof {
                    lemma_keyed_at(self.tasks@, t as int);
                }
                if self.tasks[t].snapshot.status == TaskStatus::Running {
                    return Err(ServiceError::ProjectBusy(n));
                }
            },
            None => {},
        }
        let idx = self.ensure_context(&key, now);
        let ghost before = self.contexts@;
        proof {
            lemma_keyed_at(before, idx as int);
            assert(context_wf(before[idx as int]));
            lemma_keyed_len(before[idx as int].projects@);
        }
        if self.contexts[idx].projects.len() <= 1 {
            return Err(ServiceError::LastProject);
        }
        let j = match find_key(&self.contexts[idx].projects, &n) {
            Some(j) => j,
            None => {
                return Err(ServiceError::NoSuchProject(n));
            },
        };
        let mut rec = self.contexts.remove(idx);
        proof {
            assert(rec == before[idx as int]);
            lemma_keyed_remove(rec.projects@, j as int);
            lemma_keyed_at(rec.projects@, j as int);
            lemma_sorted_remove(rec.projects@, j as int);
        }
        let ghost old_rec = rec;
        let deleted = rec.projects.remove(j);
        if rec.active_project == n {
            rec.active_project = copy_string(&rec.projects[0].name);
            proof {
                lemma_first_is_least(rec.projects@);
                lemma_keyed_at(rec.projects@, 0);
            }
        } else {
            proof {
                let a = index_of(old_rec.projects@, old_rec.active_project@);
                assert(a != j);
                let a2 = if a < j { a } else { a - 1 };
                assert(rec.projects@[a2].key_of() == rec.active_project@);
            }
        }
        rec.version = bump_version(rec.version);
        proof {
            lemma_reinsert(before, idx as int, rec);
            assert(rec@ == without_project(old_rec@, n@));
        }
        self.contexts.insert(idx, rec);
        proof {
            assert(self.contexts@ == before.update(idx as int, rec));
            lemma_keyed_at(self.contexts@, idx as int);
        }
        self.drop_task(&tk);
        let snap = self.context_snapshot(idx);
        Ok((snap, deleted))
    }
}


/// A change to one setting of a project (already checked).
pub enum ProjectChange {
    Agent(String),
    Model(String),
    Thinking(Option<String>),
}

/// A project after a change, updated `now`.
pub open spec fn apply_change(p: ProjectView, ch: ProjectChange, now: i64) -> ProjectView {
    match ch {
        ProjectChange::Agent(a) => ProjectView { agent: a@, updated_at: now, ..p },
        ProjectChange::Model(m) => ProjectView { model: m@, updated_at: now, ..p },
        ProjectChange::Thinking(t) => ProjectView { thinking: opt_view(t), updated_at: now, ..p },
    }
}

/// A context after its active project is replaced by `p`.
pub open spec fn with_active_replaced(c: ContextState, p: ProjectView) -> ContextState {
    ContextState {
        active_project: c.active_project,
        projects: c.projects.insert(c.active_project, p),
        version: bump(c.version),
    }
}

/// The contract of the three setters: the context is made sure to exist; a refused
/// value leaves it so, else the active project gets the change.
pub open spec fn setter_outcome(
    old_contexts: Map<Seq<char>, ContextState>,
    new_contexts: Map<Seq<char>, ContextState>,
    cfg: ServiceConfig,
    key: Seq<char>,
    now: i64,
    change: Option<ProjectChange>,
    r: Option<ProjectView>,
) -> bool {
    let ensured = with_context(old_contexts, cfg, key, now);
    let c = ensured[key];
    match change {
        None => new_contexts == ensured && r is None,
        Some(ch) => {
            let p = apply_change(c.projects[c.active_project], ch, now);
            &&& new_contexts == ensured.insert(key, with_active_replaced(c, p))
            &&& r == Some(p)
        },
    }
}

/// The task a project shows before it has run anything.
pub open spec fn idle_snapshot(ctx_key: Seq<char>, p: ProjectView) -> TaskView {
    TaskView {
        key: task_key_text(ctx_key, p.name),
        context_key: ctx_key,
        project: p.name,
        command: None,
        status: TaskStatus::Idle,
        started_at: None,
        finished_at: None,
        exit_code: None,
        signal: None,
        output: Seq::empty(),
        attempted_models: Seq::empty(),
        last_run_model: None,
        fallback_used: false,
        model: p.model,
        agent: p.agent,
        mode: mode_of_agent(p.agent),
        thinking: p.thinking,
        session_id: p.session_id,
        version: 0,
    }
}

/// The trimmed value when it is not blank.
fn nonblank(value: &str) -> (r: Option<String>)
    ensures
        match r {
            Some(t) => t@ == trim(value@) && trim(value@).len() > 0,
            None => trim(value@).len() == 0,
        },
{
    let v = chars_of(value);
    let (a, b) = trim_bounds(v.as_slice());
    if a == b {
        None
    } else {
        Some(string_from(slice_of(v.as_slice(), a, b)))
    }
}

impl TaskService {
    fn update_active(&mut self, chat_id: i64, thread_id: Option<i32>, change: Option<ProjectChange>, now: i64) -> (r: Option<ProjectSettings>)
        requires
            old(self).wf(),
        ensures
            final(self).wf(),
            final(self).cfg() == old(self).cfg(),
            final(self).tasks() == old(self).tasks(),
            setter_outcome(
                old(self).contexts(),
                final(self).contexts(),
                old(self).cfg(),
                context_key_text(chat_id, thread_id),
                now,
                change,
                match r {
                    Some(p) => Some(p@),
                    None => None,
                },
            ),
    {
        let key = context_key(chat_id, thread_id);
        let idx = self.ensure_context(&key, now);
        let ghost before = self.contexts@;
        proof {
            lemma_keyed_at(before, idx as int);
            assert(context_wf(before[idx as int]));
        }
        let ch = match change {
            Some(ch) => ch,
            None => {
                return None;
            },
        };
        let mut rec = self.contexts.remove(idx);
        proof {
            assert(rec == before[idx as int]);
        }
        let j = match find_key(&rec.projects, &rec.active_project) {
            Some(j) => j,
            None => {
                proof {
                    assert(false);
                }
                0
            },
        };
        let mut p = rec.projects[j].duplicate();
        match ch {
            ProjectChange::Agent(a) => {
                p.agent = a;
            },
            ProjectChange::Model(m) => {
                p.model = m;
            },
            ProjectChange::Thinking(t) => {
                p.thinking = t;
            },
        }
        p.updated_at = now;
        let out = p.duplicate();
        let ghost ps0 = rec.projects@;
        proof {
            lemma_keyed_at(ps0, j as int);
            lemma_keyed_update(ps0, j as int, p);
            assert forall|a: int, b: int| 0 <= a < b < ps0.len() implies seq_less((#[trigger] ps0.update(j as int, p)[a]).name@, (#[trigger] ps0.update(j as int, p)[b]).name@) by {
                assert(seq_less(ps0[a].name@, ps0[b].name@));
            }
        }
        rec.projects.set(j, p);
        rec.version = bump_version(rec.version);
        proof {
            assert(rec.projects@ == ps0.update(j as int, p));
            assert(has_key(rec.projects@, rec.active_project@));
            lemma_reinsert(before, idx as int, rec);
        }
        self.contexts.insert(idx, rec);
        proof {
            assert(self.contexts@ == before.update(idx as int, rec));
        }
        Some(out)
    }

    /// Sets the agent of the chat's active project (refused when blank).
    pub fn set_agent(&mut self, chat_id: i64, thread_id: Option<i32>, value: &str, now: i64) -> (r: Result<ProjectSettings, ServiceError>)
        requires
            old(self).wf(),
        ensures
            final(self).wf(),
            final(self).cfg() == old(self).cfg(),
            final(self).tasks() == old(self).tasks(),
            ({
                let key = context_key_text(chat_id, thread_id);
                let t = trim(value@);
                let ensured = with_context(old(self).contexts(), old(self).cfg(), key, now);
                let c = ensured[key];
                if t.len() == 0 {
                    r matches Err(ServiceError::EmptyAgent) && final(self).contexts() == ensured
                } else {
                    let p = ProjectView { agent: t, updated_at: now, ..c.projects[c.active_project] };
                    &&& final(self).contexts() == ensured.insert(key, with_active_replaced(c, p))
                    &&& r matches Ok(q) && q@ == p
                }
            }),
    {
        let change = match nonblank(value) {
            Some(t) => Some(ProjectChange::Agent(t)),
            None => None,
        };
        match self.update_active(chat_id, thread_id, change, now) {
            Some(p) => Ok(p),
            None => Err(ServiceError::EmptyAgent),
        }
    }

    /// Sets the model of the chat's active project (refused when blank).
    pub fn set_model(&mut self, chat_id: i64, thread_id: Option<i32>, value: &str, now: i64) -> (r: Result<ProjectSettings, ServiceError>)
        requires
            old(self).wf(),
        ensures
            final(self).wf(),
            final(self).cfg() == old(self).cfg(),
            final(self).tasks() == old(self).tasks(),
            ({
                let key = context_key_text(chat_id, thread_id);
                let t = trim(value@);
                let ensured = with_context(old(self).contexts(), old(self).cfg(), key, now);
                let c = ensured[key];
                if t.len() == 0 {
                    r matches Err(ServiceError::EmptyModel) && final(self).contexts() == ensured
                } else {
                    let p = ProjectView { model: t, updated_at: now, ..c.projects[c.active_project] };
                    &&& final(self).contexts() == ensured.insert(key, with_active_replaced(c, p))
                    &&& r matches Ok(q) && q@ == p
                }
            }),
    {
        let change = match nonblank(value) {
            Some(t) => Some(ProjectChange::Model(t)),
            None => None,
        };
        match self.update_active(chat_id, thread_id, change, now) {
            Some(p) => Ok(p),
            None => Err(ServiceError::EmptyModel),
        }
    }

    /// Sets (or, for a missing or blank value, clears) the thinking variant of the
    /// chat's active project.
    pub fn set_thinking(&mut self, chat_id: i64, thread_id: Option<i32>, value: Option<&str>, now: i64) -> (r: Result<ProjectSettings, ServiceError>)
        requires
            old(self).wf(),
        ensures
            final(self).wf(),
            final(self).cfg() == old(self).cfg(),
            final(self).tasks() == old(self).tasks(),
            ({
                let key = context_key_text(chat_id, thread_id);
                let ensured = with_context(old(self).contexts(), old(self).cfg(), key, now);
                let c = ensured[key];
                let t = normalized_thinking(match value { Some(v) => Some(v@), None => None });
                let p = ProjectView { thinking: t, updated_at: now, ..c.projects[c.active_project] };
                &&& final(self).contexts() == ensured.insert(key, with_active_replaced(c, p))
                &&& r matches Ok(q) && q@ == p
            }),
    {
        let t = normalize_thinking(value);
        let ghost tv = opt_view(t);
        proof {
            assert(tv == normalized_thinking(match value { Some(v) => Some(v@), None => None }));
        }
        match self.update_active(chat_id, thread_id, Some(ProjectChange::Thinking(t)), now) {
            Some(p) => Ok(p),
            None => Err(ServiceError::EmptyAgent),
        }
    }
}


/// Some task of context `ctx` is running.
pub open spec fn has_running(tasks: Map<Seq<char>, TaskEntry>, ctx: Seq<char>) -> bool {
    exists|k: Seq<char>| #[trigger] tasks.contains_key(k) && tasks[k].snapshot.status == TaskStatus::Running && tasks[k].snapshot.context_key == ctx
}

/// The key of the running task of context `ctx` (meaningful when `has_running`).
pub open spec fn running_key(tasks: Map<Seq<char>, TaskEntry>, ctx: Seq<char>) -> Seq<char> {
    choose|k: Seq<char>| #[trigger] tasks.contains_key(k) && tasks[k].snapshot.status == TaskStatus::Running && tasks[k].snapshot.context_key == ctx
}

/// A task after it is cancelled `now`.
pub open spec fn cancelled(t: TaskView, now: i64) -> TaskView {
    TaskView { status: TaskStatus::Cancelled, finished_at: Some(now), version: bump(t.version), ..t }
}

/// The task key a cancel request aims at, if any: the named project's task, or the
/// running task of the context.
pub open spec fn cancel_target(tasks: Map<Seq<char>, TaskEntry>, key: Seq<char>, project: Option<Seq<char>>) -> Result<Option<Seq<char>>, NameError> {
    match project {
        Some(v) => match normalized_project_name(v) {
            Err(e) => Err(e),
            Ok(n) => if tasks.contains_key(task_key_text(key, n)) {
                Ok(Some(task_key_text(key, n)))
            } else {
                Ok(None)
            },
        },
        None => if has_running(tasks, key) {
            Ok(Some(running_key(tasks, key)))
        } else {
            Ok(None)
        },
    }
}

proof fn lemma_tasks_update(before: Seq<TaskRecord>, i: int, rec: TaskRecord)
    requires
        keys_unique(before),
        one_running_per_context(before),
        0 <= i < before.len(),
        rec.snapshot.key@ == before[i].snapshot.key@,
        rec.snapshot.status != TaskStatus::Running || (before[i].snapshot.status == TaskStatus::Running
            && rec.snapshot.context_key@ == before[i].snapshot.context_key@),
    ensures
        keys_unique(before.update(i, rec)),
        one_running_per_context(before.update(i, rec)),
        keyed(before.update(i, rec)) == keyed(before).insert(rec.snapshot.key@, rec@),
        before.remove(i).insert(i, rec) == before.update(i, rec),
{
    lemma_keyed_update(before, i, rec);
    assert(before.remove(i).insert(i, rec) =~= before.update(i, rec));
    let t = before.update(i, rec);
    assert forall|a: int, b: int, ctx: Seq<char>| #[trigger] running_at(t, a, ctx) && #[trigger] running_at(t, b, ctx) implies a == b by {
        assert(running_at(before, a, ctx));
        assert(running_at(before, b, ctx));
    }
}

impl TaskService {
    /// The position of a running task of context `ctx`.
    fn find_running(&self, ctx: &String) -> (r: Option<usize>)
        requires
            self.wf(),
        ensures
            match r {
                Some(i) => i < self.tasks@.len() && has_running(self.tasks(), ctx@)
                    && running_key(self.tasks(), ctx@) == self.tasks@[i as int].snapshot.key@
                    && self.tasks()[self.tasks@[i as int].snapshot.key@] == self.tasks@[i as int]@
                    && index_of(self.tasks@, self.tasks@[i as int].snapshot.key@) == i,
                None => !has_running(self.tasks(), ctx@),
            },
    {
        let mut i: usize = 0;
        while i < self.tasks.len()
            invariant
                self.wf(),
                i <= self.tasks@.len(),
                forall|k: int| 0 <= k < i ==> !running_at(self.tasks@, k, ctx@),
            decreases self.tasks@.len() - i,
        {
            if self.tasks[i].snapshot.status == TaskStatus::Running && self.tasks[i].snapshot.context_key == *ctx {
                proof {
                    let ts = self.tasks@;
                    lemma_keyed_at(ts, i as int);
                    let k0 = ts[i as int].snapshot.key@;
                    assert(self.tasks().contains_key(k0));
                    let k = running_key(self.tasks(), ctx@);
                    let j = index_of(ts, k);
                    lemma_keyed_at(ts, j);
                    assert(running_at(ts, j, ctx@));
                    assert(running_at(ts, i as int, ctx@));
                }
                return Some(i);
            }
            i = i + 1;
        }
        proof {
            if has_running(self.tasks(), ctx@) {
                let k = choose|k: Seq<char>| #[trigger] self.tasks().contains_key(k) && self.tasks()[k].snapshot.status == TaskStatus::Running && self.tasks()[k].snapshot.context_key == ctx@;
                let j = index_of(self.tasks@, k);
                lemma_keyed_at(self.tasks@, j);
                assert(running_at(self.tasks@, j, ctx@));
            }
        }
        None
    }

    fn idle_record(ctx_key: &String, p: &ProjectSettings) -> (r: TaskSnapshot)
        ensures
            r@ == idle_snapshot(ctx_key@, p@),
    {
        let agent = copy_string(&p.agent);
        let mode = RunMode::from_agent(agent.as_str());
        let attempted: Vec<String> = Vec::new();
        proof {
            assert(crate::runner::views(attempted@) =~= Seq::<Seq<char>>::empty());
        }
        TaskSnapshot {
            key: task_key(ctx_key.as_str(), p.name.as_str()),
            context_key: copy_string(ctx_key),
            project: copy_string(&p.name),
            command: None,
            status: TaskStatus::Idle,
            started_at: None,
            finished_at: None,
            exit_code: None,
            signal: None,
            output: String::new(),
            attempted_models: attempted,
            last_run_model: None,
            fallback_used: false,
            model: copy_string(&p.model),
            agent,
            mode,
            thinking: copy_opt_string(&p.thinking),
            session_id: copy_opt_string(&p.session_id),
            version: 0,
        }
    }

    /// The task of a project of the chat (the active one when none is named): its
    /// record, or an idle one when it has never run.
    pub fn get_snapshot(&mut self, chat_id: i64, thread_id: Option<i32>, project: Option<&str>, now: i64) -> (r: Result<TaskSnapshot, ServiceError>)
        requires
            old(self).wf(),
        ensures
            final(self).wf(),
            final(self).cfg() == old(self).cfg(),
            final(self).tasks() == old(self).tasks(),
            ({
                let key = context_key_text(chat_id, thread_id);
                let ensured = with_context(old(self).contexts(), old(self).cfg(), key, now);
                let c = ensured[key];
                let name: Result<Seq<char>, NameError> = match project {
                    Some(v) => normalized_project_name(v@),
                    None => Ok(c.active_project),
                };
                &&& final(self).contexts() == ensured
                &&& match name {
                    Err(e) => r matches Err(ServiceError::InvalidName(e2)) && e2 == e,
                    Ok(n) => if !c.projects.contains_key(n) {
                        r matches Err(ServiceError::UnknownProject(s)) && s@ == n
                    } else {
                        let tk = task_key_text(key, n);
                        r matches Ok(t) && t@ == if old(self).tasks().contains_key(tk) {
                            old(self).tasks()[tk].snapshot
                        } else {
                            idle_snapshot(key, c.projects[n])
                        }
                    },
                }
            }),
    {
        let key = context_key(chat_id, thread_id);
        let idx = self.ensure_context(&key, now);
        proof {
            lemma_keyed_at(self.contexts@, idx as int);
            assert(context_wf(self.contexts@[idx as int]));
        }
        let name = match project {
            Some(v) => match normalize_project_name(v) {
                Ok(n) => n,
                Err(e) => {
                    return Err(ServiceError::InvalidName(e));
                },
            },
            None => copy_string(&self.contexts[idx].active_project),
        };
        let j = match find_key(&self.contexts[idx].projects, &name) {
            Some(j) => j,
            None => {
                return Err(ServiceError::UnknownProject(name));
            },
        };
        proof {
            lemma_keyed_at(self.contexts@[idx as int].projects@, j as int);
        }
        let tk = task_key(key.as_str(), name.as_str());
        match find_key(&self.tasks, &tk) {
            Some(t) => {
                proof {
                    lemma_keyed_at(self.tasks@, t as int);
                }
                Ok(self.tasks[t].snapshot.duplicate())
            },
            None => Ok(Self::idle_record(&key, &self.contexts[idx].projects[j])),
        }
    }

    /// The running task of the chat, if any.
    pub fn get_running_snapshot(&self, chat_id: i64, thread_id: Option<i32>) -> (r: Option<TaskSnapshot>)
        requires
            self.wf(),
        ensures
            ({
                let key = context_key_text(chat_id, thread_id);
                match r {
                    Some(t) => has_running(self.tasks(), key) && t@ == self.tasks()[running_key(self.tasks(), key)].snapshot,
                    None => !has_running(self.tasks(), key),
                }
            }),
    {
        let key = context_key(chat_id, thread_id);
        match self.find_running(&key) {
            Some(i) => Some(self.tasks[i].snapshot.duplicate()),
            None => None,
        }
    }

    /// Cancels the running task of the chat (or of the named project): it becomes
    /// cancelled, and the result tells whether a cancellation token was held for it.
    pub fn cancel(&mut self, chat_id: i64, thread_id: Option<i32>, project: Option<&str>, now: i64) -> (r: Result<(TaskSnapshot, bool), ServiceError>)
        requires
            old(self).wf(),
        ensures
            final(self).wf(),
            final(self).cfg() == old(self).cfg(),
            final(self).contexts() == old(self).contexts(),
            ({
                let key = context_key_text(chat_id, thread_id);
                let tasks = old(self).tasks();
                match cancel_target(tasks, key, match project { Some(v) => Some(v@), None => None }) {
                    Err(e) => r matches Err(ServiceError::InvalidName(e2)) && e2 == e && final(self).tasks() == tasks,
                    Ok(target) => if target is None || tasks[target->0].snapshot.status != TaskStatus::Running {
                        r matches Err(ServiceError::NothingToCancel) && final(self).tasks() == tasks
                    } else {
                        let t = target->0;
                        let c = cancelled(tasks[t].snapshot, now);
                        &&& final(self).tasks() == tasks.insert(t, TaskEntry { snapshot: c, cancellable: false })
                        &&& r matches Ok((snap, had_token)) && snap@ == c && had_token == tasks[t].cancellable
                    },
                }
            }),
    {
        let key = context_key(chat_id, thread_id);
        let found = match project {
            Some(v) => match normalize_project_name(v) {
                Ok(n) => {
                    let tk = task_key(key.as_str(), n.as_str());
                    let f = find_key(&self.tasks, &tk);
                    proof {
                        if let Some(i) = f {
                            lemma_keyed_at(self.tasks@, i as int);
                        }
                    }
                    f
                },
                Err(e) => {
                    return Err(ServiceError::InvalidName(e));
                },
            },
            None => self.find_running(&key),
        };
        let i = match found {
            Some(i) => i,
            None => {
                return Err(ServiceError::NothingToCancel);
            },
        };
        proof {
            lemma_keyed_at(self.tasks@, i as int);
        }
        if self.tasks[i].snapshot.status != TaskStatus::Running {
            return Err(ServiceError::NothingToCancel);
        }
        let ghost before = self.tasks@;
        let mut rec = self.tasks.remove(i);
        proof {
            assert(rec == before[i as int]);
        }
        let had = rec.cancellable;
        rec.cancellable = false;
        rec.snapshot.status = TaskStatus::Cancelled;
        rec.snapshot.finished_at = Some(now);
        rec.snapshot.version = bump_version(rec.snapshot.version);
        let snap = rec.snapshot.duplicate();
        proof {
            lemma_tasks_update(before, i as int, rec);
        }
        self.tasks.insert(i, rec);
        Ok((snap, had))
    }
}


/// The task record of a run as it starts.
pub open spec fn started_task(
    key: Seq<char>,
    p: ProjectView,
    command: Seq<char>,
    model: Seq<char>,
    agent: Seq<char>,
    mode: RunMode,
    thinking: Option<Seq<char>>,
    now: i64,
) -> TaskView {
    TaskView {
        command: Some(command),
        status: TaskStatus::Running,
        started_at: Some(now),
        output: "Project: "@ + p.name + "\nTask: "@ + command + "\n"@,
        version: 1,
        model: model,
        agent: agent,
        mode: mode,
        thinking: thinking,
        session_id: p.session_id,
        ..idle_snapshot(key, p)
    }
}

/// The task a run of `command` in project `p` starts with: the options override
/// the project's model, agent, mode and thinking; the mode follows the agent
/// unless given; a blank thinking value counts as none.
pub open spec fn run_start(key: Seq<char>, p: ProjectView, command: Seq<char>, options: RunTaskOptions, now: i64) -> TaskView {
    let model = match options.model {
        Some(m) => m@,
        None => p.model,
    };
    let agent = match options.agent {
        Some(a) => a@,
        None => p.agent,
    };
    let mode = match options.mode {
        Some(m) => m,
        None => mode_of_agent(agent),
    };
    let thinking = normalized_thinking(
        match options.thinking {
            Some(t) => opt_view(t),
            None => p.thinking,
        },
    );
    started_task(key, p, command, model, agent, mode, thinking, now)
}

proof fn lemma_no_running_index(ts: Seq<TaskRecord>, ctx: Seq<char>)
    requires
        keys_unique(ts),
        !has_running(keyed(ts), ctx),
    ensures
        forall|a: int| !running_at(ts, a, ctx),
{
    assert forall|a: int| !running_at(ts, a, ctx) by {
        if running_at(ts, a, ctx) {
            lemma_keyed_at(ts, a);
            assert(keyed(ts).contains_key(ts[a].snapshot.key@));
        }
    }
}

impl TaskService {
    /// Starts a task in a project of the chat (the active one unless the options
    /// name another); refused while a task of the chat runs. Gives the started
    /// task and the project's working directory; running it is up to the caller.
    pub fn run(&mut self, chat_id: i64, thread_id: Option<i32>, command: String, options: RunTaskOptions, now: i64) -> (r: Result<(TaskSnapshot, String), ServiceError>)
        requires
            old(self).wf(),
        ensures
            final(self).wf(),
            final(self).cfg() == old(self).cfg(),
            ({
                let key = context_key_text(chat_id, thread_id);
                let tasks = old(self).tasks();
                let ensured = with_context(old(self).contexts(), old(self).cfg(), key, now);
                let c = ensured[key];
                let selected: Result<Seq<char>, NameError> = match options.project {
                    Some(v) => normalized_project_name(v@),
                    None => Ok(c.active_project),
                };
                if has_running(tasks, key) {
                    &&& r matches Err(ServiceError::AlreadyRunning(s)) && s@ == tasks[running_key(tasks, key)].snapshot.project
                    &&& final(self).contexts() == old(self).contexts()
                    &&& final(self).tasks() == tasks
                } else {
                    &&& final(self).contexts() == ensured
                    &&& match selected {
                        Err(e) => r matches Err(ServiceError::InvalidName(e2)) && e2 == e && final(self).tasks() == tasks,
                        Ok(n) => if !c.projects.contains_key(n) {
                            r matches Err(ServiceError::UnknownProject(s)) && s@ == n && final(self).tasks() == tasks
                        } else {
                            let p = c.projects[n];
                            let t = run_start(key, p, command@, options, now);
                            &&& final(self).tasks() == tasks.insert(task_key_text(key, n), TaskEntry { snapshot: t, cancellable: true })
                            &&& r matches Ok((snap, dir)) && snap@ == t && dir@ == p.work_dir
                        },
                    }
                }
            }),
    {
        let key = context_key(chat_id, thread_id);
        match self.find_running(&key) {
            Some(i) => {
                return Err(ServiceError::AlreadyRunning(copy_string(&self.tasks[i].snapshot.project)));
            },
            None => {},
        }
        let idx = self.ensure_context(&key, now);
        proof {
            lemma_keyed_at(self.contexts@, idx as int);
            assert(context_wf(self.contexts@[idx as int]));
        }
        let RunTaskOptions { project: opt_project, model: opt_model, agent: opt_agent, mode: opt_mode, thinking: opt_thinking } = options;
        let name = match opt_project {
            Some(v) => match normalize_project_name(v.as_str()) {
                Ok(n) => n,
                Err(e) => {
                    return Err(ServiceError::InvalidName(e));
                },
            },
            None => copy_string(&self.contexts[idx].active_project),
        };
        let j = match find_key(&self.contexts[idx].projects, &name) {
            Some(j) => j,
            None => {
                return Err(ServiceError::UnknownProject(name));
            },
        };
        proof {
            lemma_keyed_at(self.contexts@[idx as int].projects@, j as int);
        }
        let p = self.contexts[idx].projects[j].duplicate();
        let model = match opt_model {
            Some(m) => m,
            None => copy_string(&p.model),
        };
        let agent = match opt_agent {
            Some(a) => a,
            None => copy_string(&p.agent),
        };
        let mode = match opt_mode {
            Some(m) => m,
            None => RunMode::from_agent(agent.as_str()),
        };
        let chosen = match opt_thinking {
            Some(t) => t,
            None => copy_opt_string(&p.thinking),
        };
        let thinking = match chosen {
            Some(t) => normalize_thinking(Some(t.as_str())),
            None => None,
        };
        let mut out = chars_of("Project: ");
        let nv = chars_of(p.name.as_str());
        crate::text::extend_chars(&mut out, nv.as_slice());
        let t2 = chars_of("\nTask: ");
        crate::text::extend_chars(&mut out, t2.as_slice());
        let cv = chars_of(command.as_str());
        crate::text::extend_chars(&mut out, cv.as_slice());
        out.push('\n');
        proof {
            reveal_strlit("\n");
            assert(out@ =~= "Project: "@ + p.name@ + "\nTask: "@ + command@ + "\n"@);
        }
        let mut snapshot = Self::idle_record(&key, &p);
        snapshot.command = Some(command);
        snapshot.status = TaskStatus::Running;
        snapshot.started_at = Some(now);
        snapshot.output = string_from(out.as_slice());
        snapshot.version = 1;
        snapshot.model = model;
        snapshot.agent = agent;
        snapshot.mode = mode;
        snapshot.thinking = thinking;
        snapshot.session_id = copy_opt_string(&p.session_id);
        let first = snapshot.duplicate();
        let rec = TaskRecord { snapshot, cancellable: true };
        let ghost before = self.tasks@;
        proof {
            lemma_no_running_index(before, key@);
        }
        match find_key(&self.tasks, &rec.snapshot.key) {
            Some(i) => {
                proof {
                    lemma_keyed_update(before, i as int, rec);
                    assert(before.remove(i as int).insert(i as int, rec) =~= before.update(i as int, rec));
                }
                self.tasks.remove(i);
                self.tasks.insert(i, rec);
                proof {
                    let t = self.tasks@;
                    assert(t == before.update(i as int, rec));
                    assert forall|a: int, b: int, ctx: Seq<char>| #[trigger] running_at(t, a, ctx) && #[trigger] running_at(t, b, ctx) implies a == b by {
                        if a != i as int {
                            assert(running_at(before, a, ctx));
                        }
                        if b != i as int {
                            assert(running_at(before, b, ctx));
                        }
                    }
                }
            },
            None => {
                proof {
                    lemma_keyed_push(before, rec);
                }
                self.tasks.push(rec);
                proof {
                    let t = self.tasks@;
                    assert forall|a: int, b: int, ctx: Seq<char>| #[trigger] running_at(t, a, ctx) && #[trigger] running_at(t, b, ctx) implies a == b by {
                        if a < before.len() {
                            assert(running_at(before, a, ctx));
                        }
                        if b < before.len() {
                            assert(running_at(before, b, ctx));
                        }
                    }
                }
            },
        }
        Ok((first, p.work_dir))
    }
}


/// The output after `chunk` is appended, keeping only its last `max` bytes when
/// `max` is not zero.
pub open spec fn appended_output(out: Seq<char>, chunk: Seq<char>, max: nat) -> Seq<char> {
    let o = out + chunk;
    if max > 0 && utf8_len(o) > max {
        drop_bytes(o, (utf8_len(o) - max) as nat)
    } else {
        o
    }
}

/// Appending keeps the output valid text: where it must be cut, the cut falls on a
/// character boundary (elsewhere slicing the text would panic).
pub open spec fn appendable(out: Seq<char>, chunk: Seq<char>, max: nat) -> bool {
    let o = out + chunk;
    max == 0 || utf8_len(o) <= max || is_byte_boundary(o, (utf8_len(o) - max) as nat)
}

/// The task after a model attempt is announced.
pub open spec fn attempt_marked(t: TaskView, model: Seq<char>) -> TaskView {
    TaskView {
        attempted_models: t.attempted_models.push(model),
        last_run_model: Some(model),
        output: t.output + "\n--- Running with model: "@ + model + " ---\n"@,
        version: bump(t.version),
        ..t
    }
}

/// The task after it ends with `status`.
pub open spec fn finished(t: TaskView, status: TaskStatus, exit_code: Option<i32>, signal: Option<Seq<char>>, footer: Seq<char>, now: i64) -> TaskView {
    TaskView {
        status: status,
        finished_at: Some(now),
        exit_code: exit_code,
        signal: signal,
        output: t.output + "\n"@ + footer + "\n"@,
        version: bump(t.version),
        ..t
    }
}

/// The request for one attempt of the task with a model.
pub open spec fn attempt_request_for(t: TaskView, model: Seq<char>, work_dir: Seq<char>, req: RunnerRequest) -> bool {
    &&& req.task@ == match t.command {
        Some(c) => c,
        None => Seq::empty(),
    }
    &&& req.model@ == model
    &&& req.work_dir@ == work_dir
    &&& opt_view(req.agent) == Some(t.agent)
    &&& opt_view(req.thinking) == t.thinking
    &&& opt_view(req.session_id) == t.session_id
}

/// The contexts after a run reports its session: the project the task belongs to
/// (if it still exists) gets the session, unless it has it already.
pub open spec fn with_session(contexts: Map<Seq<char>, ContextState>, t: TaskView, session: Seq<char>, now: i64) -> Map<Seq<char>, ContextState> {
    if contexts.contains_key(t.context_key) && contexts[t.context_key].projects.contains_key(t.project) {
        let c = contexts[t.context_key];
        let p = c.projects[t.project];
        if p.session_id == Some(session) {
            contexts
        } else {
            contexts.insert(t.context_key, ContextState {
                active_project: c.active_project,
                projects: c.projects.insert(t.project, ProjectView { session_id: Some(session), updated_at: now, ..p }),
                version: bump(c.version),
            })
        }
    } else {
        contexts
    }
}

impl TaskService {
    /// Replaces the record at `i` by `rec`, which keeps its key and does not start running.
    fn put_task(&mut self, i: usize, rec: TaskRecord)
        requires
            old(self).wf(),
            i < old(self).tasks@.len(),
            rec.snapshot.key@ == old(self).tasks@[i as int].snapshot.key@,
            rec.snapshot.status != TaskStatus::Running || (old(self).tasks@[i as int].snapshot.status == TaskStatus::Running
                && rec.snapshot.context_key@ == old(self).tasks@[i as int].snapshot.context_key@),
        ensures
            final(self).wf(),
            final(self).cfg() == old(self).cfg(),
            final(self).contexts@ == old(self).contexts@,
            final(self).tasks() == old(self).tasks().insert(rec.snapshot.key@, rec@),
            final(self).tasks@.len() == old(self).tasks@.len(),
    {
        let ghost before = self.tasks@;
        proof {
            lemma_tasks_update(before, i as int, rec);
        }
        self.tasks.set(i, rec);
        proof {
            assert(self.tasks@ == before.update(i as int, rec));
        }
    }

    /// The record of the task with `key`, copied out.
    fn take_task(&self, key: &String) -> (r: Option<(usize, TaskRecord)>)
        requires
            self.wf(),
        ensures
            match r {
                Some((i, rec)) => i < self.tasks@.len() && self.tasks().contains_key(key@)
                    && self.tasks@[i as int].snapshot.key@ == key@
                    && rec@ == self.tasks()[key@] && rec.snapshot.key@ == key@
                    && self.tasks()[key@] == self.tasks@[i as int]@,
                None => !self.tasks().contains_key(key@),
            },
    {
        match find_key(&self.tasks, key) {
            Some(i) => {
                proof {
                    lemma_keyed_at(self.tasks@, i as int);
                }
                let rec = TaskRecord { snapshot: self.tasks[i].snapshot.duplicate(), cancellable: self.tasks[i].cancellable };
                Some((i, rec))
            },
            None => None,
        }
    }

    /// The snapshot of the task with `key`.
    pub fn task_snapshot(&self, key: &String) -> (r: Result<TaskSnapshot, ServiceError>)
        requires
            self.wf(),
        ensures
            match r {
                Ok(t) => self.tasks().contains_key(key@) && t@ == self.tasks()[key@].snapshot,
                Err(e) => !self.tasks().contains_key(key@) && e is TaskNotFound,
            },
    {
        match self.take_task(key) {
            Some((_, rec)) => Ok(rec.snapshot),
            None => Err(ServiceError::TaskNotFound),
        }
    }

    /// Whether the task with `key` has been cancelled.
    pub fn is_cancelled(&self, key: &String) -> (r: Result<bool, ServiceError>)
        requires
            self.wf(),
        ensures
            match r {
                Ok(b) => self.tasks().contains_key(key@) && b == (self.tasks()[key@].snapshot.status == TaskStatus::Cancelled),
                Err(e) => !self.tasks().contains_key(key@) && e is TaskNotFound,
            },
    {
        match self.take_task(key) {
            Some((_, rec)) => Ok(rec.snapshot.status == TaskStatus::Cancelled),
            None => Err(ServiceError::TaskNotFound),
        }
    }

    /// Whether appending `chunk` to the task's output can be done (see `appendable`).
    pub fn can_append_output(&self, key: &String, chunk: &str) -> (r: bool)
        requires
            self.wf(),
            self.tasks().contains_key(key@) ==> utf8_len(self.tasks()[key@].snapshot.output + chunk@) <= usize::MAX,
        ensures
            r == (!self.tasks().contains_key(key@) || appendable(self.tasks()[key@].snapshot.output, chunk@, self.cfg().max_output_chars as nat)),
    {
        match self.take_task(key) {
            Some((_, rec)) => {
                let mut o = chars_of(rec.snapshot.output.as_str());
                let c = chars_of(chunk);
                extend_chars(&mut o, c.as_slice());
                let max = self.config.max_output_chars;
                proof {
                    crate::text::lemma_utf8_len_bounds(o@);
                }
                let len = crate::text::utf8_length(o.as_slice());
                if max == 0 || len <= max {
                    true
                } else {
                    byte_boundary_index(o.as_slice(), len - max).is_some()
                }
            },
            None => true,
        }
    }

    /// Appends a chunk of output to the task with `key`, keeping only the last
    /// `max_output_chars` bytes when that limit is set.
    pub fn append_output(&mut self, key: &String, chunk: &str) -> (r: Result<(), ServiceError>)
        requires
            old(self).wf(),
            old(self).tasks().contains_key(key@) ==> utf8_len(old(self).tasks()[key@].snapshot.output + chunk@) <= usize::MAX
                && appendable(old(self).tasks()[key@].snapshot.output, chunk@, old(self).cfg().max_output_chars as nat),
        ensures
            final(self).wf(),
            final(self).cfg() == old(self).cfg(),
            final(self).contexts() == old(self).contexts(),
            match r {
                Ok(()) => old(self).tasks().contains_key(key@) && ({
                    let e = old(self).tasks()[key@];
                    final(self).tasks() == old(self).tasks().insert(key@, TaskEntry {
                        snapshot: TaskView {
                            output: appended_output(e.snapshot.output, chunk@, old(self).cfg().max_output_chars as nat),
                            version: bump(e.snapshot.version),
                            ..e.snapshot
                        },
                        cancellable: e.cancellable,
                    })
                }),
                Err(e) => !old(self).tasks().contains_key(key@) && e is TaskNotFound && final(self).tasks() == old(self).tasks(),
            },
    {
        let (i, mut rec) = match self.take_task(key) {
            Some(x) => x,
            None => {
                return Err(ServiceError::TaskNotFound);
            },
        };
        let mut o = chars_of(rec.snapshot.output.as_str());
        let c = chars_of(chunk);
        extend_chars(&mut o, c.as_slice());
        let max = self.config.max_output_chars;
        proof {
            crate::text::lemma_utf8_len_bounds(o@);
        }
        let len = crate::text::utf8_length(o.as_slice());
        if max > 0 && len > max {
            match byte_boundary_index(o.as_slice(), len - max) {
                Some(cut) => {
                    rec.snapshot.output = string_from(slice_of(o.as_slice(), cut, o.len()));
                    proof {
                        assert(o@.subrange(cut as int, o@.len() as int) =~= o@.skip(cut as int));
                    }
                },
                None => {
                    proof {
                        assert(false);
                    }
                },
            }
        } else {
            rec.snapshot.output = string_from(o.as_slice());
        }
        rec.snapshot.version = bump_version(rec.snapshot.version);
        self.put_task(i, rec);
        Ok(())
    }

    /// Records that the task with `key` now runs with `model`.
    pub fn mark_attempt(&mut self, key: &String, model: &str) -> (r: Result<(), ServiceError>)
        requires
            old(self).wf(),
        ensures
            final(self).wf(),
            final(self).cfg() == old(self).cfg(),
            final(self).contexts() == old(self).contexts(),
            match r {
                Ok(()) => old(self).tasks().contains_key(key@) && ({
                    let e = old(self).tasks()[key@];
                    final(self).tasks() == old(self).tasks().insert(key@, TaskEntry { snapshot: attempt_marked(e.snapshot, model@), cancellable: e.cancellable })
                }),
                Err(e) => !old(self).tasks().contains_key(key@) && e is TaskNotFound && final(self).tasks() == old(self).tasks(),
            },
    {
        let (i, mut rec) = match self.take_task(key) {
            Some(x) => x,
            None => {
                return Err(ServiceError::TaskNotFound);
            },
        };
        let ghost before = rec.snapshot@;
        let m = owned(model);
        let ghost models0 = rec.snapshot.attempted_models@;
        rec.snapshot.attempted_models.push(m);
        proof {
            assert(views(rec.snapshot.attempted_models@) =~= views(models0).push(model@));
        }
        rec.snapshot.last_run_model = Some(owned(model));
        let mut o = chars_of(rec.snapshot.output.as_str());
        let a = chars_of("\n--- Running with model: ");
        let mv = chars_of(model);
        let b = chars_of(" ---\n");
        extend_chars(&mut o, a.as_slice());
        extend_chars(&mut o, mv.as_slice());
        extend_chars(&mut o, b.as_slice());
        rec.snapshot.output = string_from(o.as_slice());
        rec.snapshot.version = bump_version(rec.snapshot.version);
        proof {
            assert(rec.snapshot.output@ =~= before.output + "\n--- Running with model: "@ + model@ + " ---\n"@);
        }
        self.put_task(i, rec);
        Ok(())
    }

    /// Records that the task with `key` switched to the fallback model.
    pub fn set_fallback_used(&mut self, key: &String) -> (r: Result<(), ServiceError>)
        requires
            old(self).wf(),
        ensures
            final(self).wf(),
            final(self).cfg() == old(self).cfg(),
            final(self).contexts() == old(self).contexts(),
            match r {
                Ok(()) => old(self).tasks().contains_key(key@) && ({
                    let e = old(self).tasks()[key@];
                    final(self).tasks() == old(self).tasks().insert(key@, TaskEntry {
                        snapshot: TaskView { fallback_used: true, version: bump(e.snapshot.version), ..e.snapshot },
                        cancellable: e.cancellable,
                    })
                }),
                Err(e) => !old(self).tasks().contains_key(key@) && e is TaskNotFound && final(self).tasks() == old(self).tasks(),
            },
    {
        let (i, mut rec) = match self.take_task(key) {
            Some(x) => x,
            None => {
                return Err(ServiceError::TaskNotFound);
            },
        };
        rec.snapshot.fallback_used = true;
        rec.snapshot.version = bump_version(rec.snapshot.version);
        self.put_task(i, rec);
        Ok(())
    }

    /// Ends the task with `key` with a status other than running: its exit code and
    /// signal, and a footer line, are recorded and its cancellation token is dropped.
    pub fn finish(&mut self, key: &String, status: TaskStatus, exit_code: Option<i32>, signal: Option<String>, footer: &str, now: i64) -> (r: Result<(), ServiceError>)
        requires
            old(self).wf(),
            status != TaskStatus::Running,
        ensures
            final(self).wf(),
            final(self).cfg() == old(self).cfg(),
            final(self).contexts() == old(self).contexts(),
            match r {
                Ok(()) => old(self).tasks().contains_key(key@) && ({
                    let e = old(self).tasks()[key@];
                    final(self).tasks() == old(self).tasks().insert(key@, TaskEntry {
                        snapshot: finished(e.snapshot, status, exit_code, opt_view(signal), footer@, now),
                        cancellable: false,
                    })
                }),
                Err(e) => !old(self).tasks().contains_key(key@) && e is TaskNotFound && final(self).tasks() == old(self).tasks(),
            },
    {
        let (i, mut rec) = match self.take_task(key) {
            Some(x) => x,
            None => {
                return Err(ServiceError::TaskNotFound);
            },
        };
        let ghost before = rec.snapshot@;
        rec.snapshot.status = status;
        rec.snapshot.finished_at = Some(now);
        rec.snapshot.exit_code = exit_code;
        rec.snapshot.signal = signal;
        rec.cancellable = false;
        let mut o = chars_of(rec.snapshot.output.as_str());
        o.push('\n');
        let f = chars_of(footer);
        extend_chars(&mut o, f.as_slice());
        o.push('\n');
        rec.snapshot.output = string_from(o.as_slice());
        rec.snapshot.version = bump_version(rec.snapshot.version);
        proof {
            reveal_strlit("\n");
            assert(rec.snapshot.output@ =~= before.output + "\n"@ + footer@ + "\n"@);
        }
        self.put_task(i, rec);
        Ok(())
    }

    /// The request for one attempt of the task with `key` with `model`; refused when
    /// the task holds no cancellation token.
    pub fn attempt_request(&self, key: &String, model: &str, work_dir: &str) -> (r: Result<RunnerRequest, ServiceError>)
        requires
            self.wf(),
        ensures
            match r {
                Ok(req) => self.tasks().contains_key(key@) && self.tasks()[key@].cancellable
                    && attempt_request_for(self.tasks()[key@].snapshot, model@, work_dir@, req),
                Err(e) => if self.tasks().contains_key(key@) {
                    !self.tasks()[key@].cancellable && e is TokenMissing
                } else {
                    e is TaskNotFound
                },
            },
    {
        let (_, rec) = match self.take_task(key) {
            Some(x) => x,
            None => {
                return Err(ServiceError::TaskNotFound);
            },
        };
        if !rec.cancellable {
            return Err(ServiceError::TokenMissing);
        }
        let task = match &rec.snapshot.command {
            Some(c) => copy_string(c),
            None => String::new(),
        };
        Ok(RunnerRequest {
            task,
            model: owned(model),
            work_dir: owned(work_dir),
            agent: Some(rec.snapshot.agent),
            thinking: rec.snapshot.thinking,
            session_id: rec.snapshot.session_id,
        })
    }

    /// Records the session a run of the task with `key` reported, on the task and on its project.
    pub fn set_session(&mut self, key: &String, session_id: &str, now: i64) -> (r: Result<(), ServiceError>)
        requires
            old(self).wf(),
        ensures
            final(self).wf(),
            final(self).cfg() == old(self).cfg(),
            match r {
                Ok(()) => old(self).tasks().contains_key(key@) && ({
                    let e = old(self).tasks()[key@];
                    &&& final(self).tasks() == old(self).tasks().insert(key@, TaskEntry {
                        snapshot: TaskView { session_id: Some(session_id@), version: bump(e.snapshot.version), ..e.snapshot },
                        cancellable: e.cancellable,
                    })
                    &&& final(self).contexts() == with_session(old(self).contexts(), e.snapshot, session_id@, now)
                }),
                Err(e) => !old(self).tasks().contains_key(key@) && e is TaskNotFound
                    && final(self).tasks() == old(self).tasks() && final(self).contexts() == old(self).contexts(),
            },
    {
        let (i, mut rec) = match self.take_task(key) {
            Some(x) => x,
            None => {
                return Err(ServiceError::TaskNotFound);
            },
        };
        let ghost t0 = rec.snapshot@;
        rec.snapshot.session_id = Some(owned(session_id));
        rec.snapshot.version = bump_version(rec.snapshot.version);
        let ctx_key = copy_string(&rec.snapshot.context_key);
        let project = copy_string(&rec.snapshot.project);
        self.put_task(i, rec);
        let ghost mid = self.contexts();
        let idx = match find_key(&self.contexts, &ctx_key) {
            Some(idx) => idx,
            None => {
                return Ok(());
            },
        };
        let ghost before = self.contexts@;
        proof {
            lemma_keyed_at(before, idx as int);
            assert(context_wf(before[idx as int]));
        }
        let j = match find_key(&self.contexts[idx].projects, &project) {
            Some(j) => j,
            None => {
                return Ok(());
            },
        };
        proof {
            lemma_keyed_at(before[idx as int].projects@, j as int);
        }
        let same = match &self.contexts[idx].projects[j].session_id {
            Some(s) => {
                let a = chars_of(s.as_str());
                let b = chars_of(session_id);
                crate::text::chars_eq(a.as_slice(), b.as_slice())
            },
            None => false,
        };
        if same {
            proof {
                assert(self.contexts() == mid);
            }
            return Ok(());
        }
        let mut rec = self.contexts.remove(idx);
        proof {
            assert(rec == before[idx as int]);
        }
        let mut p = rec.projects[j].duplicate();
        p.session_id = Some(owned(session_id));
        p.updated_at = now;
        let ghost ps0 = rec.projects@;
        proof {
            lemma_keyed_update(ps0, j as int, p);
            assert forall|a: int, b: int| 0 <= a < b < ps0.len() implies seq_less((#[trigger] ps0.update(j as int, p)[a]).name@, (#[trigger] ps0.update(j as int, p)[b]).name@) by {
                assert(seq_less(ps0[a].name@, ps0[b].name@));
            }
        }
        rec.projects.set(j, p);
        rec.version = bump_version(rec.version);
        proof {
            assert(rec.projects@ == ps0.update(j as int, p));
            assert(has_key(rec.projects@, rec.active_project@));
            lemma_reinsert(before, idx as int, rec);
        }
        self.contexts.insert(idx, rec);
        proof {
            assert(self.contexts@ == before.update(idx as int, rec));
        }
        Ok(())
    }
}


/// A task as it is found after a restart: one that was running failed, with a note.
pub open spec fn after_restart(t: TaskView, now: i64) -> TaskView {
    if t.status == TaskStatus::Running {
        TaskView {
            status: TaskStatus::Failed,
            finished_at: Some(now),
            output: t.output + "\nTask interrupted by bot restart.\n"@,
            version: bump(t.version),
            ..t
        }
    } else {
        t
    }
}

/// No two snapshots share a key.
pub open spec fn snapshot_keys_unique(ts: Seq<TaskSnapshot>) -> bool {
    forall|i: int, j: int| 0 <= i < ts.len() && 0 <= j < ts.len() && (#[trigger] ts[i]).key@ == (#[trigger] ts[j]).key@ ==> i == j
}

/// Saved contexts and tasks can be taken up: keys are unique, and every context
/// has projects with unique names, among them its active one.
pub open spec fn loadable(ts: Seq<TaskSnapshot>, cs: Seq<ContextRecord>) -> bool {
    &&& snapshot_keys_unique(ts)
    &&& keys_unique(cs)
    &&& forall|i: int| 0 <= i < cs.len() ==> {
        &&& (#[trigger] cs[i]).projects@.len() > 0
        &&& keys_unique(cs[i].projects@)
        &&& has_key(cs[i].projects@, cs[i].active_project@)
    }
}

/// The tasks after a restart, by key.
pub open spec fn restored_tasks(ts: Seq<TaskSnapshot>, now: i64) -> Map<Seq<char>, TaskEntry> {
    Map::new(
        |k: Seq<char>| exists|i: int| 0 <= i < ts.len() && (#[trigger] ts[i]).key@ == k,
        |k: Seq<char>| TaskEntry {
            snapshot: after_restart(ts[choose|i: int| 0 <= i < ts.len() && (#[trigger] ts[i]).key@ == k]@, now),
            cancellable: false,
        },
    )
}

fn records_unique<T: Keyed>(v: &Vec<T>) -> (r: bool)
    ensures
        r == keys_unique(v@),
{
    let mut i: usize = 0;
    while i < v.len()
        invariant
            i <= v@.len(),
            forall|a: int, b: int| 0 <= a < i && 0 <= b < v@.len() && a != b ==> (#[trigger] v@[a]).key_of() != (#[trigger] v@[b]).key_of(),
        decreases v@.len() - i,
    {
        let mut j: usize = 0;
        while j < v.len()
            invariant
                i < v@.len(),
                j <= v@.len(),
                forall|a: int, b: int| 0 <= a < i && 0 <= b < v@.len() && a != b ==> (#[trigger] v@[a]).key_of() != (#[trigger] v@[b]).key_of(),
                forall|b: int| 0 <= b < j && b != i ==> v@[i as int].key_of() != (#[trigger] v@[b]).key_of(),
            decreases v@.len() - j,
        {
            if j != i && *v[i].key_ref() == *v[j].key_ref() {
                return false;
            }
            j = j + 1;
        }
        i = i + 1;
    }
    true
}

/// The projects of a saved context, sorted by name (`None` when names repeat).
fn sorted_projects(ps: Vec<ProjectSettings>) -> (r: Option<Vec<ProjectSettings>>)
    ensures
        r is Some <==> keys_unique(ps@),
        r matches Some(v) ==> sorted_by_name(v@) && keys_unique(v@) && keyed(v@) == keyed(ps@)
            && v@.len() == ps@.len(),
{
    if !records_unique(&ps) {
        return None;
    }
    let mut out: Vec<ProjectSettings> = Vec::new();
    let mut rest = ps;
    let ghost all = rest@;
    let ghost mut done: Seq<ProjectSettings> = Seq::empty();
    proof {
        assert(keyed(out@) =~= keyed(done));
    }
    while rest.len() > 0
        invariant
            keys_unique(all),
            all == done + rest@,
            sorted_by_name(out@),
            keys_unique(out@),
            keys_unique(done),
            keyed(out@) == keyed(done),
            out@.len() == done.len(),
            forall|k: Seq<char>| has_key(out@, k) == has_key(done, k),
        decreases rest@.len(),
    {
        let p = rest.remove(0);
        let ghost d0 = done;
        proof {
            assert(all[d0.len() as int] == p);
            assert(all == d0.push(p) + rest@);
            assert forall|k: int| 0 <= k < d0.len() implies (#[trigger] d0[k]).key_of() != p.key_of() by {
                assert(all[k] == d0[k]);
            }
            assert(!has_key(d0, p.key_of()));
            lemma_keyed_push(d0, p);
            done = d0.push(p);
            assert forall|a: int, b: int| 0 <= a < done.len() && 0 <= b < done.len() && (#[trigger] done[a]).key_of() == (#[trigger] done[b]).key_of() implies a == b by {
                assert(all[a] == done[a] && all[b] == done[b]);
            }
        }
        let ghost o0 = out@;
        insert_project(&mut out, p);
        proof {
            assert forall|k: Seq<char>| has_key(out@, k) == has_key(done, k) by {
                assert(has_key(out@, k) == (has_key(o0, k) || k == p.name@));
                assert(has_key(done, k) == (has_key(d0, k) || k == p.key_of()));
            }
        }
    }
    proof {
        assert(done =~= all);
    }
    Some(out)
}

/// A saved context that can be taken up: it has projects with unique names, among
/// them its active one.
pub open spec fn context_usable(c: ContextRecord) -> bool {
    &&& c.projects@.len() > 0
    &&& keys_unique(c.projects@)
    &&& has_key(c.projects@, c.active_project@)
}

/// The saved contexts that are taken up: each usable one whose key no earlier usable
/// one has.
pub open spec fn usable_contexts(cs: Seq<ContextRecord>) -> Seq<ContextRecord>
    decreases cs.len(),
{
    if cs.len() == 0 {
        cs
    } else {
        let p = usable_contexts(cs.drop_last());
        let c = cs.last();
        if context_usable(c) && !has_key(p, c.key@) {
            p.push(c)
        } else {
            p
        }
    }
}

/// Some snapshot of `ts` has key `k`.
pub open spec fn has_snapshot_key(ts: Seq<TaskSnapshot>, k: Seq<char>) -> bool {
    exists|i: int| 0 <= i < ts.len() && (#[trigger] ts[i]).key@ == k
}

/// The saved tasks that are taken up: the first one of each key.
pub open spec fn usable_tasks(ts: Seq<TaskSnapshot>) -> Seq<TaskSnapshot>
    decreases ts.len(),
{
    if ts.len() == 0 {
        ts
    } else {
        let p = usable_tasks(ts.drop_last());
        if has_snapshot_key(p, ts.last().key@) {
            p
        } else {
            p.push(ts.last())
        }
    }
}

proof fn lemma_usable_contexts_all(cs: Seq<ContextRecord>)
    requires
        keys_unique(cs),
        forall|i: int| 0 <= i < cs.len() ==> context_usable(#[trigger] cs[i]),
    ensures
        usable_contexts(cs) == cs,
    decreases cs.len(),
{
    if cs.len() > 0 {
        let t = cs.drop_last();
        assert forall|i: int, j: int| 0 <= i < t.len() && 0 <= j < t.len() && (#[trigger] t[i]).key_of() == (#[trigger] t[j]).key_of() implies i == j by {
            assert(t[i] == cs[i] && t[j] == cs[j]);
        }
        assert forall|i: int| 0 <= i < t.len() implies context_usable(#[trigger] t[i]) by {
            assert(t[i] == cs[i]);
        }
        lemma_usable_contexts_all(t);
        let c = cs.last();
        assert(context_usable(cs[cs.len() - 1]));
        if has_key(t, c.key@) {
            let i = choose|i: int| 0 <= i < t.len() && (#[trigger] t[i]).key_of() == c.key@;
            assert(cs[i].key_of() == cs[cs.len() - 1].key_of());
        }
        assert(t.push(c) =~= cs);
    }
}

proof fn lemma_usable_tasks_all(ts: Seq<TaskSnapshot>)
    requires
        snapshot_keys_unique(ts),
    ensures
        usable_tasks(ts) == ts,
    decreases ts.len(),
{
    if ts.len() > 0 {
        let t = ts.drop_last();
        assert forall|i: int, j: int| 0 <= i < t.len() && 0 <= j < t.len() && (#[trigger] t[i]).key@ == (#[trigger] t[j]).key@ implies i == j by {
            assert(t[i] == ts[i] && t[j] == ts[j]);
        }
        lemma_usable_tasks_all(t);
        if has_snapshot_key(t, ts.last().key@) {
            let i = choose|i: int| 0 <= i < t.len() && (#[trigger] t[i]).key@ == ts.last().key@;
            assert(ts[i].key@ == ts[ts.len() - 1].key@);
        }
        assert(t.push(ts.last()) =~= ts);
    }
}

/// Saved data that can be taken up whole is taken up whole.
pub proof fn law_loadable_state_is_kept_whole(ts: Seq<TaskSnapshot>, cs: Seq<ContextRecord>)
    requires
        loadable(ts, cs),
    ensures
        usable_contexts(cs) == cs,
        usable_tasks(ts) == ts,
{
    assert forall|i: int| 0 <= i < cs.len() implies context_usable(#[trigger] cs[i]) by {
        assert(cs[i].projects@.len() > 0);
    }
    lemma_usable_contexts_all(cs);
    lemma_usable_tasks_all(ts);
}

impl TaskService {
    /// A service holding saved contexts and tasks, as after a restart (running tasks
    /// failed). A saved context without projects, with a repeated project name or
    /// without its active project is left out, as is a context or task whose key an
    /// earlier one has; all the rest is taken up.
    pub fn restore(config: ServiceConfig, tasks: Vec<TaskSnapshot>, contexts: Vec<ContextRecord>, now: i64) -> (s: TaskService)
        ensures
            s.wf(),
            s.cfg() == config,
            s.contexts() == keyed(usable_contexts(contexts@)),
            s.tasks() == restored_tasks(usable_tasks(tasks@), now),
    {
        let ghost cs0 = contexts@;
        let ghost ts0 = tasks@;
        let mut cs: Vec<ContextRecord> = Vec::new();
        let mut rest = contexts;
        let ghost mut done: Seq<ContextRecord> = Seq::empty();
        while rest.len() > 0
            invariant
                cs0 == done + rest@,
                cs@.len() == usable_contexts(done).len(),
                keys_unique(cs@),
                forall|i: int| 0 <= i < cs@.len() ==> context_wf(#[trigger] cs@[i]) && cs@[i].key@ == usable_contexts(done)[i].key@
                    && cs@[i]@ == usable_contexts(done)[i]@,
            decreases rest@.len(),
        {
            let c = rest.remove(0);
            let ghost d0 = done;
            let ghost u0 = usable_contexts(d0);
            proof {
                assert(cs0[d0.len() as int] == c);
                assert(cs0 == d0.push(c) + rest@);
                done = d0.push(c);
                assert(done.drop_last() =~= d0);
                assert(done.last() == c);
            }
            let usable = c.projects.len() > 0 && records_unique(&c.projects)
                && find_key(&c.projects, &c.active_project).is_some();
            let fresh = find_key(&cs, &c.key).is_none();
            proof {
                assert(has_key(u0, c.key@) == has_key(cs@, c.key@)) by {
                    if has_key(u0, c.key@) {
                        let i = choose|i: int| 0 <= i < u0.len() && (#[trigger] u0[i]).key_of() == c.key@;
                        assert(cs@[i].key_of() == c.key@);
                    }
                    if has_key(cs@, c.key@) {
                        let i = choose|i: int| 0 <= i < cs@.len() && (#[trigger] cs@[i]).key_of() == c.key@;
                        assert(u0[i].key_of() == c.key@);
                    }
                }
                assert(usable == context_usable(c));
            }
            if usable && fresh {
                let ghost cs_before = cs@;
                let ContextRecord { key, active_project, projects, version } = c;
                let ghost pv = projects@;
                let sorted = match sorted_projects(projects) {
                    Some(v) => v,
                    None => {
                        proof {
                            assert(false);
                        }
                        Vec::new()
                    },
                };
                proof {
                    let k = index_of(pv, active_project@);
                    lemma_keyed_at(pv, k);
                    assert(keyed(sorted@).contains_key(active_project@));
                    crate::keyed::lemma_keyed_len(sorted@);
                    crate::keyed::lemma_keyed_len(pv);
                }
                let rec = ContextRecord { key, active_project, projects: sorted, version };
                proof {
                    assert(keyed(pv).contains_key(rec.active_project@));
                    assert(has_key(pv, rec.active_project@));
                    assert(usable_contexts(done) == u0.push(c));
                }
                cs.push(rec);
                proof {
                    assert forall|a: int, b: int| 0 <= a < cs@.len() && 0 <= b < cs@.len() && (#[trigger] cs@[a]).key_of() == (#[trigger] cs@[b]).key_of() implies a == b by {
                        if a < cs_before.len() && b == cs_before.len() {
                            assert(cs_before[a].key_of() == rec.key@);
                        }
                        if b < cs_before.len() && a == cs_before.len() {
                            assert(cs_before[b].key_of() == rec.key@);
                        }
                    }
                }
            } else {
                proof {
                    assert(usable_contexts(done) == u0);
                }
            }
        }
        let ghost u = usable_contexts(cs0);
        proof {
            assert(done =~= cs0);
            assert forall|a: int, b: int| 0 <= a < u.len() && 0 <= b < u.len() && (#[trigger] u[a]).key_of() == (#[trigger] u[b]).key_of() implies a == b by {
                assert(cs@[a].key_of() == cs@[b].key_of());
            }
            assert forall|k: Seq<char>| #[trigger] keyed(cs@).contains_key(k) == keyed(u).contains_key(k) by {
                if has_key(cs@, k) {
                    let i = index_of(cs@, k);
                    assert(u[i].key_of() == k);
                }
                if has_key(u, k) {
                    let i = index_of(u, k);
                    assert(cs@[i].key_of() == k);
                }
            }
            assert forall|k: Seq<char>| #[trigger] keyed(cs@).contains_key(k) implies keyed(cs@)[k] == keyed(u)[k] by {
                let i = index_of(cs@, k);
                lemma_keyed_at(cs@, i);
                lemma_keyed_at(u, i);
            }
            assert(keyed(cs@) =~= keyed(u));
        }
        let mut ts: Vec<TaskRecord> = Vec::new();
        let mut trest = tasks;
        let ghost mut tdone: Seq<TaskSnapshot> = Seq::empty();
        while trest.len() > 0
            invariant
                ts0 == tdone + trest@,
                ts@.len() == usable_tasks(tdone).len(),
                keys_unique(ts@),
                forall|i: int| 0 <= i < ts@.len() ==> (#[trigger] ts@[i]).snapshot@ == after_restart(usable_tasks(tdone)[i]@, now)
                    && ts@[i].snapshot.key@ == usable_tasks(tdone)[i].key@
                    && !ts@[i].cancellable && ts@[i].snapshot.status != TaskStatus::Running,
            decreases trest@.len(),
        {
            let mut t = trest.remove(0);
            let ghost t0 = t;
            let ghost v0 = usable_tasks(tdone);
            proof {
                assert(ts0[tdone.len() as int] == t);
                assert(ts0 == tdone.push(t) + trest@);
                let d = tdone.push(t0);
                assert(d.drop_last() =~= tdone);
                assert(d.last() == t0);
                tdone = d;
            }
            let fresh = find_key(&ts, &t.key).is_none();
            proof {
                assert(has_snapshot_key(v0, t0.key@) == has_key(ts@, t0.key@)) by {
                    if has_snapshot_key(v0, t0.key@) {
                        let i = choose|i: int| 0 <= i < v0.len() && (#[trigger] v0[i]).key@ == t0.key@;
                        assert(ts@[i].key_of() == t0.key@);
                    }
                    if has_key(ts@, t0.key@) {
                        let i = choose|i: int| 0 <= i < ts@.len() && (#[trigger] ts@[i]).key_of() == t0.key@;
                        assert(v0[i].key@ == t0.key@);
                    }
                }
            }
            if fresh {
                if t.status == TaskStatus::Running {
                    t.status = TaskStatus::Failed;
                    t.finished_at = Some(now);
                    let mut o = chars_of(t.output.as_str());
                    let note = chars_of("\nTask interrupted by bot restart.\n");
                    extend_chars(&mut o, note.as_slice());
                    t.output = string_from(o.as_slice());
                    t.version = bump_version(t.version);
                }
                let ghost ts_before = ts@;
                proof {
                    assert(usable_tasks(tdone) == v0.push(t0));
                }
                ts.push(TaskRecord { snapshot: t, cancellable: false });
                proof {
                    assert forall|a: int, b: int| 0 <= a < ts@.len() && 0 <= b < ts@.len() && (#[trigger] ts@[a]).key_of() == (#[trigger] ts@[b]).key_of() implies a == b by {
                        if a < ts_before.len() && b == ts_before.len() {
                            assert(ts_before[a].key_of() == t0.key@);
                        }
                        if b < ts_before.len() && a == ts_before.len() {
                            assert(ts_before[b].key_of() == t0.key@);
                        }
                    }
                }
            } else {
                proof {
                    assert(usable_tasks(tdone) == v0);
                }
            }
        }
        let ghost v = usable_tasks(ts0);
        proof {
            assert(tdone =~= ts0);
            assert forall|a: int, b: int| 0 <= a < v.len() && 0 <= b < v.len() && (#[trigger] v[a]).key@ == (#[trigger] v[b]).key@ implies a == b by {
                assert(ts@[a].key_of() == ts@[b].key_of());
            }
            assert forall|a: int, b: int, ctx: Seq<char>| #[trigger] running_at(ts@, a, ctx) && #[trigger] running_at(ts@, b, ctx) implies a == b by {
            }
            let rt = restored_tasks(v, now);
            assert forall|k: Seq<char>| #[trigger] keyed(ts@).contains_key(k) == rt.contains_key(k) by {
                if has_key(ts@, k) {
                    let i = index_of(ts@, k);
                    assert(v[i].key@ == k);
                }
                if rt.contains_key(k) {
                    let i = choose|i: int| 0 <= i < v.len() && (#[trigger] v[i]).key@ == k;
                    assert(ts@[i].key_of() == k);
                }
            }
            assert forall|k: Seq<char>| #[trigger] keyed(ts@).contains_key(k) implies keyed(ts@)[k] == rt[k] by {
                let i = index_of(ts@, k);
                lemma_keyed_at(ts@, i);
                let j = choose|j: int| 0 <= j < v.len() && (#[trigger] v[j]).key@ == k;
                assert(v[i].key@ == k);
            }
            assert(keyed(ts@) =~= rt);
        }
        TaskService { config, contexts: cs, tasks: ts }
    }

    /// Every task, for saving.
    pub fn task_snapshots(&self) -> (r: Vec<TaskSnapshot>)
        requires
            self.wf(),
        ensures
            saved_tasks(self.tasks(), r@),
    {
        let mut out: Vec<TaskSnapshot> = Vec::new();
        let mut i: usize = 0;
        while i < self.tasks.len()
            invariant
                self.wf(),
                i <= self.tasks@.len(),
                out@.len() == i,
                forall|k: int| 0 <= k < i ==> (#[trigger] out@[k])@ == self.tasks@[k].snapshot@,
            decreases self.tasks@.len() - i,
        {
            out.push(self.tasks[i].snapshot.duplicate());
            i = i + 1;
        }
        proof {
            assert forall|j: int| 0 <= j < out@.len() implies self.tasks().contains_key((#[trigger] out@[j]).key@) && out@[j]@ == self.tasks()[out@[j].key@].snapshot by {
                lemma_keyed_at(self.tasks@, j);
            }
            assert forall|k: Seq<char>| #[trigger] self.tasks().contains_key(k) implies exists|j: int| 0 <= j < out@.len() && (#[trigger] out@[j]).key@ == k by {
                let j = index_of(self.tasks@, k);
                assert(out@[j].key@ == k);
            }
            assert forall|a: int, b: int| 0 <= a < out@.len() && 0 <= b < out@.len() && (#[trigger] out@[a]).key@ == (#[trigger] out@[b]).key@ implies a == b by {
                assert(self.tasks@[a].key_of() == out@[a].key@);
                assert(self.tasks@[b].key_of() == out@[b].key@);
            }
        }
        out
    }

    /// Every context record, as it is saved.
    pub fn saved_contexts(&self) -> (r: Vec<ContextRecord>)
        requires
            self.wf(),
        ensures
            saved_contexts_of(self.contexts(), r@),
    {
        let mut out: Vec<ContextRecord> = Vec::new();
        let mut i: usize = 0;
        while i < self.contexts.len()
            invariant
                self.wf(),
                i <= self.contexts@.len(),
                out@.len() == i,
                forall|k: int| 0 <= k < i ==> (#[trigger] out@[k]).key@ == self.contexts@[k].key@ && out@[k]@ == self.contexts@[k]@
                    && context_wf(out@[k]),
            decreases self.contexts@.len() - i,
        {
            let c = &self.contexts[i];
            proof {
                assert(context_wf(self.contexts@[i as int]));
            }
            let ps = copy_projects(&c.projects);
            let rec = ContextRecord {
                key: copy_string(&c.key),
                active_project: copy_string(&c.active_project),
                projects: ps,
                version: c.version,
            };
            proof {
                lemma_same_projects(c.projects@, rec.projects@);
                assert(context_wf(rec));
            }
            out.push(rec);
            i = i + 1;
        }
        proof {
            lemma_same_records(self.contexts@, out@);
        }
        out
    }
}


/// How a mode is printed (`{:?}`).
pub open spec fn mode_label(m: RunMode) -> Seq<char> {
    match m {
        RunMode::Build => "Build"@,
        RunMode::Plan => "Plan"@,
    }
}

pub fn mode_text(m: RunMode) -> (r: String)
    ensures
        r@ == mode_label(m),
{
    match m {
        RunMode::Build => owned("Build"),
        RunMode::Plan => owned("Plan"),
    }
}

/// An optional value, or a placeholder when missing.
pub open spec fn or_text(o: Option<Seq<char>>, missing: Seq<char>) -> Seq<char> {
    match o {
        Some(v) => v,
        None => missing,
    }
}

/// The header written to a task's output before its first attempt.
pub open spec fn header_text(t: TaskView, fallback_label: Seq<char>) -> Seq<char> {
    "Agent: "@ + t.agent + "; Mode: "@ + mode_label(t.mode) + "; Model: "@ + t.model + "; Thinking: "@
        + or_text(t.thinking, "-"@) + "; Session: "@ + or_text(t.session_id, "new"@) + "\nModel strategy: "@
        + t.model + " -> "@ + fallback_label + "\n"@
}

fn push_opt(out: &mut Vec<char>, o: &Option<String>, missing: &str)
    ensures
        final(out)@ == old(out)@ + or_text(opt_view(*o), missing@),
{
    match o {
        Some(v) => push_str(out, v.as_str()),
        None => push_str(out, missing),
    }
}

pub fn format_header(snapshot: &TaskSnapshot, fallback_label: &str) -> (r: String)
    ensures
        r@ == header_text(snapshot@, fallback_label@),
{
    let mut out: Vec<char> = Vec::new();
    push_str(&mut out, "Agent: ");
    push_str(&mut out, snapshot.agent.as_str());
    push_str(&mut out, "; Mode: ");
    let m = mode_text(snapshot.mode);
    push_str(&mut out, m.as_str());
    push_str(&mut out, "; Model: ");
    push_str(&mut out, snapshot.model.as_str());
    push_str(&mut out, "; Thinking: ");
    push_opt(&mut out, &snapshot.thinking, "-");
    push_str(&mut out, "; Session: ");
    push_opt(&mut out, &snapshot.session_id, "new");
    push_str(&mut out, "\nModel strategy: ");
    push_str(&mut out, snapshot.model.as_str());
    push_str(&mut out, " -> ");
    push_str(&mut out, fallback_label);
    push_str(&mut out, "\n");
    proof {
        assert(out@ =~= header_text(snapshot@, fallback_label@));
    }
    string_from(out.as_slice())
}

/// A run succeeded when it exited with code 0.
pub open spec fn succeeded(result: RunnerResult) -> bool {
    result.exit_code == Some(0i32)
}

pub fn is_success(result: &RunnerResult) -> (r: bool)
    ensures
        r == succeeded(*result),
{
    match result.exit_code {
        Some(c) => c == 0,
        None => false,
    }
}

/// Error texts that mean the model's quota or rate limit was hit.
pub const RETRYABLE_PATTERNS: [&'static str; 7] = [
    "rate\\s*limit",
    "quota",
    "insufficient",
    "insufficient[_\\s-]*credit",
    "billing",
    "too\\s*many\\s*requests",
    "429",
];

/// The text searched for quota errors: the output, a newline, and the error message.
pub open spec fn failure_text(result: RunnerResult) -> Seq<char> {
    result.output@ + "\n"@ + or_text(opt_view(result.error_message), Seq::empty())
}

/// Some quota pattern (one the regex crate accepts) matches the failure text.
pub open spec fn retryable(result: RunnerResult) -> bool {
    exists|i: int| 0 <= i < 7 && regex_compiles(#[trigger] RETRYABLE_PATTERNS@[i]@)
        && regex_is_match(RETRYABLE_PATTERNS@[i]@, failure_text(result))
}

/// A failed run whose output or error message matches any quota or rate-limit
/// pattern (rate limit, quota, insufficient credit, billing, too many requests, 429)
/// is a quota failure; it is one only when some such pattern matches; and when it
/// is one and the fallback model differs, the primary attempt asks for one retry
/// with the fallback model.
pub proof fn law_quota_failures_are_retried(result: RunnerResult, primary: Seq<char>, fallback: Seq<char>)
    ensures
        regex_compiles("rate\\s*limit"@) && regex_is_match("rate\\s*limit"@, failure_text(result)) ==> retryable(result),
        regex_compiles("quota"@) && regex_is_match("quota"@, failure_text(result)) ==> retryable(result),
        regex_compiles("insufficient"@) && regex_is_match("insufficient"@, failure_text(result)) ==> retryable(result),
        regex_compiles("insufficient[_\\s-]*credit"@) && regex_is_match("insufficient[_\\s-]*credit"@, failure_text(result)) ==> retryable(result),
        regex_compiles("billing"@) && regex_is_match("billing"@, failure_text(result)) ==> retryable(result),
        regex_compiles("too\\s*many\\s*requests"@) && regex_is_match("too\\s*many\\s*requests"@, failure_text(result)) ==> retryable(result),
        regex_compiles("429"@) && regex_is_match("429"@, failure_text(result)) ==> retryable(result),
        forall|k: int| 0 <= k < 7 && regex_compiles(#[trigger] RETRYABLE_PATTERNS@[k]@)
            && regex_is_match(RETRYABLE_PATTERNS@[k]@, failure_text(result)) ==> retryable(result),
        retryable(result) ==> exists|k: int| 0 <= k < 7 && regex_compiles(#[trigger] RETRYABLE_PATTERNS@[k]@)
            && regex_is_match(RETRYABLE_PATTERNS@[k]@, failure_text(result)),
        !succeeded(result) && retryable(result) && fallback != primary ==> primary_decision(false, result, primary, fallback).2
            && primary_decision(false, result, primary, fallback).1
                == "\nPrimary model failed with quota/rate-limit style error. Retrying once with "@ + fallback + ".\n"@,
{
    assert(RETRYABLE_PATTERNS@[0]@ == "rate\\s*limit"@);
    assert(RETRYABLE_PATTERNS@[1]@ == "quota"@);
    assert(RETRYABLE_PATTERNS@[2]@ == "insufficient"@);
    assert(RETRYABLE_PATTERNS@[3]@ == "insufficient[_\\s-]*credit"@);
    assert(RETRYABLE_PATTERNS@[4]@ == "billing"@);
    assert(RETRYABLE_PATTERNS@[5]@ == "too\\s*many\\s*requests"@);
    assert(RETRYABLE_PATTERNS@[6]@ == "429"@);
}

pub fn is_retryable_failure(result: &RunnerResult) -> (r: bool)
    ensures
        r == retryable(*result),
{
    let mut text: Vec<char> = Vec::new();
    push_str(&mut text, result.output.as_str());
    push_str(&mut text, "\n");
    match &result.error_message {
        Some(e) => push_str(&mut text, e.as_str()),
        None => {},
    }
    proof {
        assert(text@ =~= failure_text(*result));
    }
    let haystack = string_from(text.as_slice());
    let mut i: usize = 0;
    while i < 7
        invariant
            i <= 7,
            haystack@ == failure_text(*result),
            forall|k: int| 0 <= k < i ==> !(regex_compiles(#[trigger] RETRYABLE_PATTERNS@[k]@)
                && regex_is_match(RETRYABLE_PATTERNS@[k]@, failure_text(*result))),
        decreases 7 - i,
    {
        let pat = RETRYABLE_PATTERNS[i];
        match compile(pat) {
            Some(re) => {
                if is_match(&re, haystack.as_str()) {
                    return true;
                }
            },
            None => {},
        }
        i = i + 1;
    }
    false
}

/// What happens after an attempt.
pub enum AttemptOutcome {
    /// The task ends with this status and footer.
    Finish(TaskStatus, String),
    /// The task is tried once more with the fallback model, after this notice.
    Retry(String),
}

/// The decision after the attempt with the primary model: a cancelled task ends
/// cancelled; success ends it; a quota-style failure is retried once with the
/// fallback model when that is another model; any other failure ends it failed.
pub open spec fn primary_decision(cancelled: bool, result: RunnerResult, primary: Seq<char>, fallback: Seq<char>) -> (TaskStatus, Seq<char>, bool) {
    if cancelled {
        (TaskStatus::Cancelled, "Task cancelled."@, false)
    } else if succeeded(result) {
        (TaskStatus::Success, "Completed with model "@ + primary + "."@, false)
    } else if fallback != primary && retryable(result) {
        (TaskStatus::Running, "\nPrimary model failed with quota/rate-limit style error. Retrying once with "@ + fallback + ".\n"@, true)
    } else {
        (TaskStatus::Failed, "Failed with model "@ + primary + "."@, false)
    }
}

/// The decision after the attempt with the fallback model: it always ends the task.
pub open spec fn fallback_decision(cancelled: bool, result: RunnerResult, fallback: Seq<char>) -> (TaskStatus, Seq<char>) {
    if cancelled {
        (TaskStatus::Cancelled, "Task cancelled."@)
    } else if succeeded(result) {
        (TaskStatus::Success, "Completed via fallback model "@ + fallback + "."@)
    } else {
        (TaskStatus::Failed, "Fallback model "@ + fallback + " failed."@)
    }
}

fn text_of(parts: Vec<char>) -> (r: String)
    ensures
        r@ == parts@,
{
    string_from(parts.as_slice())
}

pub fn primary_outcome(cancelled: bool, result: &RunnerResult, primary: &str, fallback: &str) -> (r: AttemptOutcome)
    ensures
        ({
            let (status, text, retry) = primary_decision(cancelled, *result, primary@, fallback@);
            if retry {
                r matches AttemptOutcome::Retry(n) && n@ == text
            } else {
                r matches AttemptOutcome::Finish(s, f) && s == status && f@ == text
            }
        }),
{
    if cancelled {
        return AttemptOutcome::Finish(TaskStatus::Cancelled, owned("Task cancelled."));
    }
    if is_success(result) {
        let mut v: Vec<char> = Vec::new();
        push_str(&mut v, "Completed with model ");
        push_str(&mut v, primary);
        push_str(&mut v, ".");
        return AttemptOutcome::Finish(TaskStatus::Success, text_of(v));
    }
    let pv = chars_of(primary);
    let fv = chars_of(fallback);
    if !crate::text::chars_eq(fv.as_slice(), pv.as_slice()) && is_retryable_failure(result) {
        let mut v: Vec<char> = Vec::new();
        push_str(&mut v, "\nPrimary model failed with quota/rate-limit style error. Retrying once with ");
        push_str(&mut v, fallback);
        push_str(&mut v, ".\n");
        return AttemptOutcome::Retry(text_of(v));
    }
    let mut v: Vec<char> = Vec::new();
    push_str(&mut v, "Failed with model ");
    push_str(&mut v, primary);
    push_str(&mut v, ".");
    AttemptOutcome::Finish(TaskStatus::Failed, text_of(v))
}

pub fn fallback_outcome(cancelled: bool, result: &RunnerResult, fallback: &str) -> (r: (TaskStatus, String))
    ensures
        r.0 == fallback_decision(cancelled, *result, fallback@).0,
        r.1@ == fallback_decision(cancelled, *result, fallback@).1,
{
    if cancelled {
        return (TaskStatus::Cancelled, owned("Task cancelled."));
    }
    let mut v: Vec<char> = Vec::new();
    if is_success(result) {
        push_str(&mut v, "Completed via fallback model ");
        push_str(&mut v, fallback);
        push_str(&mut v, ".");
        (TaskStatus::Success, text_of(v))
    } else {
        push_str(&mut v, "Fallback model ");
        push_str(&mut v, fallback);
        push_str(&mut v, " failed.");
        (TaskStatus::Failed, text_of(v))
    }
}

// The laws of the service.

/// Every chat the service knows has at least one project, and its active project
/// is one of them.
pub proof fn law_active_project_exists(s: &TaskService, key: Seq<char>)
    requires
        s.wf(),
        s.contexts().contains_key(key),
    ensures
        s.contexts()[key].projects.dom().finite(),
        s.contexts()[key].projects.dom().len() >= 1,
        s.contexts()[key].projects.contains_key(s.contexts()[key].active_project),
{
    let i = index_of(s.contexts@, key);
    lemma_keyed_at(s.contexts@, i);
    let c = s.contexts@[i];
    assert(context_wf(c));
    lemma_keyed_len(c.projects@);
}

/// At most one task runs in a chat at a time.
pub proof fn law_one_running_task_per_chat(s: &TaskService, k1: Seq<char>, k2: Seq<char>)
    requires
        s.wf(),
        s.tasks().contains_key(k1),
        s.tasks().contains_key(k2),
        s.tasks()[k1].snapshot.status == TaskStatus::Running,
        s.tasks()[k2].snapshot.status == TaskStatus::Running,
        s.tasks()[k1].snapshot.context_key == s.tasks()[k2].snapshot.context_key,
    ensures
        k1 == k2,
{
    let i = index_of(s.tasks@, k1);
    let j = index_of(s.tasks@, k2);
    lemma_keyed_at(s.tasks@, i);
    lemma_keyed_at(s.tasks@, j);
    let ctx = s.tasks@[i].snapshot.context_key@;
    assert(running_at(s.tasks@, i, ctx));
    assert(running_at(s.tasks@, j, ctx));
}

/// A task that `run` starts is running, in the chat it was started in, under the
/// key of its project.
pub proof fn law_started_task_runs(key: Seq<char>, p: ProjectView, command: Seq<char>, options: RunTaskOptions, now: i64)
    ensures
        run_start(key, p, command, options, now).status == TaskStatus::Running,
        run_start(key, p, command, options, now).context_key == key,
        run_start(key, p, command, options, now).key == task_key_text(key, p.name),
        run_start(key, p, command, options, now).project == p.name,
{
}

/// While a task runs in a chat, `cancel` without a project aims at exactly that task
/// (and a second `run` in the chat is refused, see `run`).
pub proof fn law_cancel_targets_running_task(s: &TaskService, key: Seq<char>, tk: Seq<char>)
    requires
        s.wf(),
        s.tasks().contains_key(tk),
        s.tasks()[tk].snapshot.status == TaskStatus::Running,
        s.tasks()[tk].snapshot.context_key == key,
    ensures
        has_running(s.tasks(), key),
        running_key(s.tasks(), key) == tk,
        cancel_target(s.tasks(), key, None) == Ok::<Option<Seq<char>>, NameError>(Some(tk)),
{
    assert(has_running(s.tasks(), key));
    let k = running_key(s.tasks(), key);
    law_one_running_task_per_chat(s, k, tk);
}

/// Cancelling the running task of a chat leaves the chat with no running task, so
/// that `run` is accepted there again; the task ends cancelled.
pub proof fn law_cancel_frees_chat(s: &TaskService, key: Seq<char>, tk: Seq<char>, now: i64)
    requires
        s.wf(),
        s.tasks().contains_key(tk),
        s.tasks()[tk].snapshot.status == TaskStatus::Running,
        s.tasks()[tk].snapshot.context_key == key,
    ensures
        cancelled(s.tasks()[tk].snapshot, now).status == TaskStatus::Cancelled,
        !has_running(
            s.tasks().insert(tk, TaskEntry { snapshot: cancelled(s.tasks()[tk].snapshot, now), cancellable: false }),
            key,
        ),
{
    let after = s.tasks().insert(tk, TaskEntry { snapshot: cancelled(s.tasks()[tk].snapshot, now), cancellable: false });
    assert forall|k: Seq<char>| #[trigger] after.contains_key(k) implies !(after[k].snapshot.status == TaskStatus::Running
        && after[k].snapshot.context_key == key) by {
        if k != tk && after[k].snapshot.status == TaskStatus::Running && after[k].snapshot.context_key == key {
            law_one_running_task_per_chat(s, k, tk);
        }
    }
}

/// Every change of a task or a chat gives it a new version number, so a reader that
/// redraws on a new version misses no change.
pub proof fn law_version_changes(v: u64)
    ensures
        bump(v) != v,
{
}

/// With a limit set, a task's output never grows past it: after an append it holds
/// at most `max` bytes, the last ones of the old output followed by the chunk.
pub proof fn law_output_stays_within_limit(out: Seq<char>, chunk: Seq<char>, max: nat)
    requires
        max > 0,
        appendable(out, chunk, max),
    ensures
        utf8_len(appended_output(out, chunk, max)) <= max,
        exists|j: int| 0 <= j <= (out + chunk).len() && appended_output(out, chunk, max) == #[trigger] (out + chunk).skip(j),
{
    let o = out + chunk;
    if utf8_len(o) > max {
        let n = (utf8_len(o) - max) as nat;
        let c = choose|i: int| 0 <= i <= o.len() && #[trigger] utf8_len(o.take(i)) == n;
        assert(o.take(c) + o.skip(c) =~= o);
        lemma_utf8_len_append(o.take(c), o.skip(c));
        assert(appended_output(out, chunk, max) == o.skip(c));
    } else {
        assert(o.skip(0) =~= o);
    }
}

/// After a restart no task is running and none holds a cancellation token.
pub proof fn law_restart_stops_tasks(ts: Seq<TaskSnapshot>, now: i64, k: Seq<char>)
    requires
        restored_tasks(ts, now).contains_key(k),
    ensures
        restored_tasks(ts, now)[k].snapshot.status != TaskStatus::Running,
        !restored_tasks(ts, now)[k].cancellable,
{
}

proof fn lemma_least_name_exists(m: Map<Seq<char>, ProjectView>)
    requires
        m.dom().finite(),
        m.dom().len() > 0,
    ensures
        exists|k: Seq<char>| #[trigger] m.contains_key(k) && forall|k2: Seq<char>| #[trigger] m.contains_key(k2) ==> k == k2 || seq_less(k, k2),
    decreases m.dom().len(),
{
    let a = m.dom().choose();
    let rest = m.remove(a);
    assert(rest.dom() =~= m.dom().remove(a));
    if rest.dom().len() == 0 {
        assert forall|k2: Seq<char>| #[trigger] m.contains_key(k2) implies a == k2 || seq_less(a, k2) by {
            if k2 != a {
                assert(rest.dom().contains(k2));
            }
        }
    } else {
        lemma_least_name_exists(rest);
        let b = choose|k: Seq<char>| #[trigger] rest.contains_key(k) && forall|k2: Seq<char>| #[trigger] rest.contains_key(k2) ==> k == k2 || seq_less(k, k2);
        lemma_seq_less_total(a, b);
        if seq_less(a, b) {
            assert forall|k2: Seq<char>| #[trigger] m.contains_key(k2) implies a == k2 || seq_less(a, k2) by {
                if k2 != a {
                    assert(rest.contains_key(k2));
                    if k2 != b {
                        lemma_seq_less_transitive(a, b, k2);
                    }
                }
            }
        } else {
            assert forall|k2: Seq<char>| #[trigger] m.contains_key(k2) implies b == k2 || seq_less(b, k2) by {
                if k2 != a {
                    assert(rest.contains_key(k2));
                }
            }
            assert(m.contains_key(b));
        }
    }
}

/// Deleting a project of a chat that has another one removes it and leaves the chat
/// an active project among those left: the same one, or when the deleted project
/// was active, the first remaining one in name order.
pub proof fn law_delete_keeps_an_active_project(c: ContextState, name: Seq<char>)
    requires
        c.projects.dom().finite(),
        c.projects.dom().len() >= 2,
        c.projects.contains_key(name),
        c.projects.contains_key(c.active_project),
    ensures
        !without_project(c, name).projects.contains_key(name),
        without_project(c, name).projects.dom().len() == c.projects.dom().len() - 1,
        without_project(c, name).projects.contains_key(without_project(c, name).active_project),
        c.active_project != name ==> without_project(c, name).active_project == c.active_project,
        forall|k: Seq<char>| #[trigger] without_project(c, name).projects.contains_key(k)
            ==> k == without_project(c, name).active_project || c.active_project != name
                || seq_less(without_project(c, name).active_project, k),
{
    let rest = c.projects.remove(name);
    assert(rest.dom() =~= c.projects.dom().remove(name));
    if c.active_project == name {
        lemma_least_name_exists(rest);
    }
}

/// What is saved is what is restored: the saved tasks and contexts of a service can
/// be taken up again, and restoring them gives back every chat as it was and every
/// task as a restart leaves it (one that was running has failed).
pub proof fn law_restore_gives_back_saved_state(s: &TaskService, ts: Seq<TaskSnapshot>, cs: Seq<ContextRecord>, now: i64)
    requires
        s.wf(),
        saved_tasks(s.tasks(), ts),
        saved_contexts_of(s.contexts(), cs),
    ensures
        loadable(ts, cs),
        usable_contexts(cs) == cs,
        usable_tasks(ts) == ts,
        keyed(cs) == s.contexts(),
        restored_tasks(ts, now) == s.tasks().map_values(
            |e: TaskEntry| TaskEntry { snapshot: after_restart(e.snapshot, now), cancellable: false },
        ),
{
    assert forall|i: int| 0 <= i < cs.len() implies {
        &&& (#[trigger] cs[i]).projects@.len() > 0
        &&& keys_unique(cs[i].projects@)
        &&& has_key(cs[i].projects@, cs[i].active_project@)
    } by {
        assert(context_wf(cs[i]));
    }
    let r = restored_tasks(ts, now);
    let m = s.tasks().map_values(|e: TaskEntry| TaskEntry { snapshot: after_restart(e.snapshot, now), cancellable: false });
    assert forall|k: Seq<char>| r.contains_key(k) <==> m.contains_key(k) by {
        if s.tasks().contains_key(k) {
            let i = choose|i: int| 0 <= i < ts.len() && (#[trigger] ts[i]).key@ == k;
            assert(r.contains_key(k));
        }
    }
    assert forall|k: Seq<char>| #[trigger] r.contains_key(k) implies r[k] == m[k] by {
        let i = choose|i: int| 0 <= i < ts.len() && (#[trigger] ts[i]).key@ == k;
        assert(ts[i]@ == s.tasks()[k].snapshot);
    }
    assert(r =~= m);
    law_loadable_state_is_kept_whole(ts, cs);
}

/// A task is tried at most twice: after the first attempt it is retried only when it
/// was neither cancelled nor successful, failed in a quota-like way, and the fallback
/// model is another model; after the retry it always ends. A cancelled task ends
/// cancelled whatever the attempt gave.
pub proof fn law_fallback_at_most_once(cancelled: bool, result: RunnerResult, primary: Seq<char>, fallback: Seq<char>)
    ensures
        primary_decision(cancelled, result, primary, fallback).2 ==> !cancelled && !succeeded(result) && retryable(result)
            && fallback != primary,
        !primary_decision(cancelled, result, primary, fallback).2 ==> primary_decision(cancelled, result, primary, fallback).0
            != TaskStatus::Running,
        fallback_decision(cancelled, result, fallback).0 != TaskStatus::Running,
        cancelled ==> primary_decision(cancelled, result, primary, fallback).0 == TaskStatus::Cancelled
            && fallback_decision(cancelled, result, fallback).0 == TaskStatus::Cancelled,
{
}

} // verus!
