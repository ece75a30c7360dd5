//! How the opencode command line is put together, and how its listings are read.
use vstd::prelude::*;
use crate::patterns::{captures, compile, group_views, is_match, regex_captures, regex_compiles, regex_is_match};
use crate::text::{
    chars_eq, chars_of, extend_chars, lines, lines_of, push_str, replace_char, replace_chars,
    slice_of, split_whitespace, string_from, trim, trim_bounds, words,
};
use crate::util::{strip_ansi, strip_ansi_from};

verus! {

broadcast use vstd::string::group_string_axioms;

/// One run of the opencode CLI.
#[derive(Clone, Debug)]
pub struct RunnerRequest {
    pub task: String,
    pub model: String,
    pub work_dir: String,
    pub agent: Option<String>,
    pub thinking: Option<String>,
    pub session_id: Option<String>,
}

/// What a run of the CLI ended with.
#[derive(Clone, Debug)]
pub struct RunnerResult {
    pub exit_code: Option<i32>,
    pub signal: Option<String>,
    pub output: String,
    pub error_message: Option<String>,
    pub session_id: Option<String>,
}

/// The opencode binary and the arguments put before every command.
#[derive(Clone, Debug)]
pub struct OpenCodeRunner {
    pub bin: String,
    pub base_args: Vec<String>,
}

/// The views of a list of strings.
pub open spec fn views(v: Seq<String>) -> Seq<Seq<char>> {
    v.map_values(|s: String| s@)
}

/// An optional setting counts only when it is not blank.
pub open spec fn present(o: Option<String>) -> bool {
    o matches Some(s) && trim(s@).len() > 0
}

/// `flag value` when the setting is present, nothing otherwise.
pub open spec fn flag_args(flag: Seq<char>, o: Option<String>) -> Seq<Seq<char>> {
    if present(o) {
        seq![flag, o->0@]
    } else {
        Seq::empty()
    }
}

/// The command line of a run: the base arguments, `run --model <model>`, then
/// `--agent`, `--variant` (thinking) and `--session` for the settings that are
/// present, and the task text last.
pub open spec fn run_args(base: Seq<Seq<char>>, req: RunnerRequest) -> Seq<Seq<char>> {
    base + seq![seq!['r', 'u', 'n'], seq!['-', '-', 'm', 'o', 'd', 'e', 'l'], req.model@]
        + flag_args(seq!['-', '-', 'a', 'g', 'e', 'n', 't'], req.agent)
        + flag_args(seq!['-', '-', 'v', 'a', 'r', 'i', 'a', 'n', 't'], req.thinking)
        + flag_args(seq!['-', '-', 's', 'e', 's', 's', 'i', 'o', 'n'], req.session_id)
        + seq![req.task@]
}

/// What the command line of a run holds, each setting on its own: it starts with
/// the base arguments and `run --model <model>`, ends with the task, and carries
/// `--agent <agent>`, `--variant <thinking>` and `--session <id>` for each of those
/// settings that is present, whatever the others are.
pub proof fn law_run_args_carry_each_setting(base: Seq<Seq<char>>, req: RunnerRequest)
    ensures
        run_args(base, req).subrange(0, base.len() as int) == base,
        run_args(base, req)[base.len() as int] == "run"@,
        run_args(base, req)[base.len() as int + 1] == "--model"@,
        run_args(base, req)[base.len() as int + 2] == req.model@,
        run_args(base, req).last() == req.task@,
        present(req.agent) ==> exists|i: int| 0 <= i && i + 1 < run_args(base, req).len()
            && #[trigger] run_args(base, req)[i] == "--agent"@ && run_args(base, req)[i + 1] == req.agent->0@,
        present(req.thinking) ==> exists|i: int| 0 <= i && i + 1 < run_args(base, req).len()
            && #[trigger] run_args(base, req)[i] == "--variant"@ && run_args(base, req)[i + 1] == req.thinking->0@,
        present(req.session_id) ==> exists|i: int| 0 <= i && i + 1 < run_args(base, req).len()
            && #[trigger] run_args(base, req)[i] == "--session"@ && run_args(base, req)[i + 1] == req.session_id->0@,
        run_args(base, req).len() == base.len() + 4 + (if present(req.agent) { 2int } else { 0int })
            + (if present(req.thinking) { 2int } else { 0int }) + (if present(req.session_id) { 2int } else { 0int }),
{
    reveal_strlit("run");
    reveal_strlit("--model");
    reveal_strlit("--agent");
    reveal_strlit("--variant");
    reveal_strlit("--session");
    let a = run_args(base, req);
    let head = base + seq![seq!['r', 'u', 'n'], seq!['-', '-', 'm', 'o', 'd', 'e', 'l'], req.model@];
    let fa = flag_args(seq!['-', '-', 'a', 'g', 'e', 'n', 't'], req.agent);
    let fv = flag_args(seq!['-', '-', 'v', 'a', 'r', 'i', 'a', 'n', 't'], req.thinking);
    let fs = flag_args(seq!['-', '-', 's', 'e', 's', 's', 'i', 'o', 'n'], req.session_id);
    assert(a == head + fa + fv + fs + seq![req.task@]);
    assert(a.subrange(0, base.len() as int) =~= base);
    assert(a[base.len() as int] == head[base.len() as int]);
    assert(a[base.len() as int + 1] == head[base.len() as int + 1]);
    assert(a[base.len() as int + 2] == head[base.len() as int + 2]);
    let n = head.len() as int;
    if present(req.agent) {
        assert(a[n] == fa[0] && a[n + 1] == fa[1]);
        assert("--agent"@ =~= seq!['-', '-', 'a', 'g', 'e', 'n', 't']);
    }
    if present(req.thinking) {
        let i = n + fa.len();
        assert(a[i] == fv[0] && a[i + 1] == fv[1]);
        assert("--variant"@ =~= seq!['-', '-', 'v', 'a', 'r', 'i', 'a', 'n', 't']);
    }
    if present(req.session_id) {
        let i = n + fa.len() + fv.len();
        assert(a[i] == fs[0] && a[i + 1] == fs[1]);
        assert("--session"@ =~= seq!['-', '-', 's', 'e', 's', 's', 'i', 'o', 'n']);
    }
    assert("run"@ =~= seq!['r', 'u', 'n']);
    assert("--model"@ =~= seq!['-', '-', 'm', 'o', 'd', 'e', 'l']);
}

/// A copy of a string with the same view.
pub fn copy_string(s: &String) -> (r: String)
    ensures
        r@ == s@,
{
    s.clone()
}

/// An owned copy of a string slice.
pub fn owned(s: &str) -> (r: String)
    ensures
        r@ == s@,
{
    s.to_string()
}

fn is_present(o: &Option<String>) -> (r: bool)
    ensures
        r == present(*o),
{
    match o {
        Some(s) => {
            let v = chars_of(s.as_str());
            let (a, b) = trim_bounds(v.as_slice());
            a < b
        },
        None => false,
    }
}

fn push_flag(args: &mut Vec<String>, flag: &str, o: &Option<String>)
    ensures
        views(final(args)@) == views(old(args)@) + flag_args(flag@, *o),
{
    let ghost before = views(args@);
    if is_present(o) {
        args.push(owned(flag));
        args.push(copy_string(o.as_ref().unwrap()));
        proof {
            assert(views(args@) =~= before + flag_args(flag@, *o));
        }
    } else {
        proof {
            assert(views(args@) =~= before + flag_args(flag@, *o));
        }
    }
}

impl OpenCodeRunner {
    /// The command line for a request.
    pub fn run_args(&self, request: &RunnerRequest) -> (r: Vec<String>)
        ensures
            views(r@) == run_args(views(self.base_args@), *request),
    {
        let mut args: Vec<String> = Vec::new();
        let mut i: usize = 0;
        while i < self.base_args.len()
            invariant
                i <= self.base_args@.len(),
                args@.len() == i,
                views(args@) == views(self.base_args@).take(i as int),
            decreases self.base_args@.len() - i,
        {
            let ghost prev = args@;
            let a = copy_string(&self.base_args[i]);
            args.push(a);
            proof {
                assert(args@ == prev.push(a));
                assert(prev.len() == i);
                assert(args@.len() == i + 1);
                assert(views(args@).len() == i + 1);
                assert(views(args@)[i as int] == a@);
                assert(views(args@).drop_last() =~= views(prev));
            }
            i = i + 1;
            proof {
                assert(views(args@) =~= views(self.base_args@).take(i as int));
            }
        }
        proof {
            assert(views(self.base_args@).take(self.base_args@.len() as int) =~= views(self.base_args@));
        }
        let ghost b0 = args@;
        let r1 = owned("run");
        let r2 = owned("--model");
        let r3 = copy_string(&request.model);
        args.push(r1);
        args.push(r2);
        args.push(r3);
        proof {
            reveal_strlit("run");
            reveal_strlit("--model");
            assert(r1@ =~= seq!['r', 'u', 'n']);
            assert(r2@ =~= seq!['-', '-', 'm', 'o', 'd', 'e', 'l']);
            assert(args@ == b0.push(r1).push(r2).push(r3));
            assert(views(args@) =~= views(b0) + seq![r1@, r2@, r3@]);
        }
        proof {
            reveal_strlit("--agent");
            reveal_strlit("--variant");
            reveal_strlit("--session");
            assert("--agent"@ =~= seq!['-', '-', 'a', 'g', 'e', 'n', 't']);
            assert("--variant"@ =~= seq!['-', '-', 'v', 'a', 'r', 'i', 'a', 'n', 't']);
            assert("--session"@ =~= seq!['-', '-', 's', 'e', 's', 's', 'i', 'o', 'n']);
        }
        push_flag(&mut args, "--agent", &request.agent);
        push_flag(&mut args, "--variant", &request.thinking);
        push_flag(&mut args, "--session", &request.session_id);
        let ghost c = views(args@);
        args.push(copy_string(&request.task));
        proof {
            assert(views(args@) =~= c + seq![request.task@]);
        }
        args
    }
}


/// A model id as `opencode models` lists it: `provider/model`.
pub const MODEL_LIST_PATTERN: &'static str = "^[a-z0-9._-]+/[a-z0-9._-]+$";

/// An agent as `opencode agent list` lists it: `name (primary)` or `name (subagent)`.
pub const AGENT_LIST_PATTERN: &'static str = "^([a-z0-9-]+)\\s+\\((primary|subagent)\\)$";

/// The trimmed lines that match `pattern`, in order.
pub open spec fn matching_lines(pattern: Seq<char>, ls: Seq<Seq<char>>) -> Seq<Seq<char>>
    decreases ls.len(),
{
    if ls.len() == 0 {
        Seq::empty()
    } else {
        let prev = matching_lines(pattern, ls.drop_last());
        let t = trim(ls.last());
        if regex_is_match(pattern, t) {
            prev.push(t)
        } else {
            prev
        }
    }
}

/// The cleaned (ANSI-free) text of a command's output.
pub open spec fn cleaned_output(output: Seq<char>) -> Seq<char> {
    strip_ansi_from(vstd::utf8::encode_utf8(output), 0)
}

/// The model ids listed in the output of `opencode models` (none if the
/// pattern were refused by the regex crate).
pub open spec fn listed_models(output: Seq<char>) -> Seq<Seq<char>> {
    if regex_compiles(MODEL_LIST_PATTERN@) {
        matching_lines(MODEL_LIST_PATTERN@, lines(cleaned_output(output)))
    } else {
        Seq::empty()
    }
}

/// `name (kind)` from the groups of an agent line.
pub open spec fn agent_entry(groups: Option<Seq<Option<Seq<char>>>>) -> Option<Seq<char>> {
    match groups {
        Some(g) => if g.len() > 2 && g[1] is Some && g[2] is Some {
            Some(g[1]->0 + seq![' ', '('] + g[2]->0 + seq![')'])
        } else {
            None
        },
        None => None,
    }
}

/// The agent entries of the lines, in order.
pub open spec fn agent_lines(pattern: Seq<char>, ls: Seq<Seq<char>>) -> Seq<Seq<char>>
    decreases ls.len(),
{
    if ls.len() == 0 {
        Seq::empty()
    } else {
        let prev = agent_lines(pattern, ls.drop_last());
        match agent_entry(regex_captures(pattern, trim(ls.last()))) {
            Some(e) => prev.push(e),
            None => prev,
        }
    }
}

/// The agents listed in the output of `opencode agent list`, as `name (kind)`.
pub open spec fn listed_agents(output: Seq<char>) -> Seq<Seq<char>> {
    if regex_compiles(AGENT_LIST_PATTERN@) {
        agent_lines(AGENT_LIST_PATTERN@, lines(cleaned_output(output)))
    } else {
        Seq::empty()
    }
}

/// The lines of the cleaned output.
fn cleaned_lines(output: &str) -> (r: Vec<Vec<char>>)
    ensures
        r@.len() == lines(cleaned_output(output@)).len(),
        forall|i: int| 0 <= i < r@.len() ==> (#[trigger] r@[i])@ == lines(cleaned_output(output@))[i],
{
    let cleaned = strip_ansi(output);
    let cv = chars_of(cleaned.as_str());
    lines_of(cv.as_slice())
}

pub fn parse_model_list(output: &str) -> (r: Vec<String>)
    ensures
        views(r@) == listed_models(output@),
{
    let ls = cleaned_lines(output);
    let mut out: Vec<String> = Vec::new();
    let pat = match compile(MODEL_LIST_PATTERN) {
        Some(p) => p,
        None => {
            proof {
                assert(views(out@) =~= Seq::<Seq<char>>::empty());
            }
            return out;
        },
    };
    let ghost all = lines(cleaned_output(output@));
    let mut i: usize = 0;
    while i < ls.len()
        invariant
            i <= ls@.len(),
            ls@.len() == all.len(),
            forall|k: int| 0 <= k < ls@.len() ==> (#[trigger] ls@[k])@ == all[k],
            pat.source() == MODEL_LIST_PATTERN@,
            views(out@) == matching_lines(MODEL_LIST_PATTERN@, all.take(i as int)),
        decreases ls@.len() - i,
    {
        proof {
            assert(all.take(i + 1).drop_last() =~= all.take(i as int));
            assert(all.take(i + 1).last() == ls@[i as int]@);
        }
        let (a, b) = trim_bounds(ls[i].as_slice());
        let t = string_from(slice_of(ls[i].as_slice(), a, b));
        if is_match(&pat, t.as_str()) {
            let ghost prev = out@;
            out.push(t);
            proof {
                assert(views(out@) =~= views(prev).push(t@));
            }
        }
        i = i + 1;
    }
    proof {
        assert(all.take(ls@.len() as int) =~= all);
    }
    out
}

fn agent_text(groups: &Vec<Option<String>>) -> (r: Option<String>)
    ensures
        match agent_entry(Some(group_views(groups@))) {
            Some(e) => r matches Some(s) && s@ == e,
            None => r is None,
        },
{
    if groups.len() > 2 {
        match (&groups[1], &groups[2]) {
            (Some(name), Some(kind)) => {
                let mut v = chars_of(name.as_str());
                v.push(' ');
                v.push('(');
                let k = chars_of(kind.as_str());
                extend_chars(&mut v, k.as_slice());
                v.push(')');
                proof {
                    assert(group_views(groups@)[1] == Some(name@));
                    assert(group_views(groups@)[2] == Some(kind@));
                    assert(v@ =~= name@ + seq![' ', '('] + kind@ + seq![')']);
                }
                Some(string_from(v.as_slice()))
            },
            _ => {
                proof {
                    assert(group_views(groups@)[1] is None || group_views(groups@)[2] is None);
                }
                None
            },
        }
    } else {
        None
    }
}

pub fn parse_agent_list(output: &str) -> (r: Vec<String>)
    ensures
        views(r@) == listed_agents(output@),
{
    let ls = cleaned_lines(output);
    let mut out: Vec<String> = Vec::new();
    let pat = match compile(AGENT_LIST_PATTERN) {
        Some(p) => p,
        None => {
            proof {
                assert(views(out@) =~= Seq::<Seq<char>>::empty());
            }
            return out;
        },
    };
    let ghost all = lines(cleaned_output(output@));
    let mut i: usize = 0;
    while i < ls.len()
        invariant
            i <= ls@.len(),
            ls@.len() == all.len(),
            forall|k: int| 0 <= k < ls@.len() ==> (#[trigger] ls@[k])@ == all[k],
            pat.source() == AGENT_LIST_PATTERN@,
            views(out@) == agent_lines(AGENT_LIST_PATTERN@, all.take(i as int)),
        decreases ls@.len() - i,
    {
        proof {
            assert(all.take(i + 1).drop_last() =~= all.take(i as int));
            assert(all.take(i + 1).last() == ls@[i as int]@);
        }
        let (a, b) = trim_bounds(ls[i].as_slice());
        let t = string_from(slice_of(ls[i].as_slice(), a, b));
        let caps = captures(&pat, t.as_str());
        match caps {
            Some(groups) => {
                match agent_text(&groups) {
                    Some(e) => {
                        let ghost prev = out@;
                        out.push(e);
                        proof {
                            assert(views(out@) =~= views(prev).push(e@));
                        }
                    },
                    None => {},
                }
            },
            None => {},
        }
        i = i + 1;
    }
    proof {
        assert(all.take(ls@.len() as int) =~= all);
    }
    out
}


impl OpenCodeRunner {
    /// The runner for a binary and extra arguments as read from the environment:
    /// the binary defaults to "opencode" ("opencode.cmd" on Windows), and the extra
    /// arguments are split at whitespace.
    pub fn new(bin: Option<String>, extra_args: Option<String>, windows: bool) -> (r: Self)
        ensures
            r.bin@ == match bin {
                Some(b) => b@,
                None => if windows { "opencode.cmd"@ } else { "opencode"@ },
            },
            views(r.base_args@) == words(match extra_args {
                Some(a) => a@,
                None => Seq::empty(),
            }),
    {
        let bin = match bin {
            Some(b) => b,
            None => if windows {
                owned("opencode.cmd")
            } else {
                owned("opencode")
            },
        };
        let extra = match extra_args {
            Some(a) => chars_of(a.as_str()),
            None => Vec::new(),
        };
        let ws = split_whitespace(extra.as_slice());
        let mut base_args: Vec<String> = Vec::new();
        let mut i: usize = 0;
        while i < ws.len()
            invariant
                i <= ws@.len(),
                base_args@.len() == i,
                forall|k: int| 0 <= k < i ==> (#[trigger] base_args@[k])@ == ws@[k]@,
            decreases ws@.len() - i,
        {
            base_args.push(string_from(ws[i].as_slice()));
            i = i + 1;
        }
        proof {
            assert(views(base_args@) =~= words(extra@));
        }
        OpenCodeRunner { bin, base_args }
    }
}

/// A JSON value, with numbers kept as their text.
pub enum JsonValue {
    Null,
    Bool(bool),
    Number(String),
    Str(String),
    Array(Vec<JsonValue>),
    Object(Vec<(String, JsonValue)>),
}

#[verifier::external_type_specification]
#[verifier::external_body]
pub struct ExJsonValue(serde_json::Value);

/// What `serde_json::from_str::<serde_json::Value>` reads from a text: `None` where it
/// reports an error, else the value (objects with their keys in the crate's order).
pub uninterp spec fn json_parse(text: Seq<char>) -> Option<JsonValue>;

/// A `serde_json::Value` as a `JsonValue`, field for field.
#[verifier::external_body]
fn json_from_serde(v: serde_json::Value) -> JsonValue {
    match v {
        serde_json::Value::Null => JsonValue::Null,
        serde_json::Value::Bool(b) => JsonValue::Bool(b),
        serde_json::Value::Number(n) => JsonValue::Number(n.to_string()),
        serde_json::Value::String(s) => JsonValue::Str(s),
        serde_json::Value::Array(a) => JsonValue::Array(a.into_iter().map(json_from_serde).collect()),
        serde_json::Value::Object(m) => JsonValue::Object(m.into_iter().map(|(k, x)| (k, json_from_serde(x))).collect()),
    }
}

/// `serde_json::from_str` into a JSON value.
#[verifier::external_body]
pub(crate) fn parse_json(text: &str) -> (r: Option<JsonValue>)
    ensures
        r == json_parse(text@),
{
    match serde_json::from_str::<serde_json::Value>(text) {
        Ok(v) => Some(json_from_serde(v)),
        Err(_) => None,
    }
}

/// What `str::to_lowercase` gives for a text.
pub uninterp spec fn lowercase(s: Seq<char>) -> Seq<char>;

/// `str::to_lowercase`.
#[verifier::external_body]
pub(crate) fn to_lowercase(s: &str) -> (r: String)
    ensures
        r@ == lowercase(s@),
{
    s.to_lowercase()
}

/// The value of the first entry with key `key`.
pub open spec fn entry_value(entries: Seq<(String, JsonValue)>, key: Seq<char>) -> Option<JsonValue>
    decreases entries.len(),
{
    if entries.len() == 0 {
        None
    } else if entries[0].0@ == key {
        Some(entries[0].1)
    } else {
        entry_value(entries.drop_first(), key)
    }
}

/// `value.get(key).and_then(Value::as_str)`.
pub open spec fn json_str_field(v: JsonValue, key: Seq<char>) -> Option<Seq<char>> {
    match v {
        JsonValue::Object(entries) => match entry_value(entries@, key) {
            Some(JsonValue::Str(s)) => Some(s@),
            _ => None,
        },
        _ => None,
    }
}

/// A directory as compared: backslashes turned into slashes, then lowercased.
pub open spec fn comparable_dir(d: Seq<char>) -> Seq<char> {
    lowercase(replace_char(d, '\\', '/'))
}

/// The id of the first listed session whose directory is `target` (compared as
/// `comparable_dir`); entries without a string id and directory are skipped.
pub open spec fn session_in(items: Seq<JsonValue>, target: Seq<char>) -> Option<Seq<char>>
    decreases items.len(),
{
    if items.len() == 0 {
        None
    } else {
        match (json_str_field(items[0], "id"@), json_str_field(items[0], "directory"@)) {
            (Some(id), Some(dir)) => if comparable_dir(dir) == target {
                Some(id)
            } else {
                session_in(items.drop_first(), target)
            },
            _ => session_in(items.drop_first(), target),
        }
    }
}

/// Why a session listing could not be read.
#[derive(Clone, Copy, Debug, PartialEq, Eq, Structural)]
pub enum ListingError {
    /// The listing is not JSON.
    InvalidJson,
}

/// The session of `work_dir` in the output of `opencode session list --format json`:
/// none when the command failed or the listing is not an array, an error when it is
/// not JSON.
pub open spec fn listed_session(ok: bool, stdout: Seq<char>, work_dir: Seq<char>) -> Result<Option<Seq<char>>, ListingError> {
    if !ok {
        Ok(None)
    } else {
        match json_parse(stdout) {
            None => Err(ListingError::InvalidJson),
            Some(JsonValue::Array(items)) => Ok(session_in(items@, comparable_dir(work_dir))),
            Some(_) => Ok(None),
        }
    }
}

fn str_field(v: &JsonValue, key: &str) -> (r: Option<String>)
    ensures
        match json_str_field(*v, key@) {
            Some(s) => r matches Some(t) && t@ == s,
            None => r is None,
        },
{
    match v {
        JsonValue::Object(entries) => {
            let kv = chars_of(key);
            let mut i: usize = 0;
            proof {
                assert(entries@.skip(0) =~= entries@);
            }
            while i < entries.len()
                invariant
                    kv@ == key@,
                    *v == JsonValue::Object(*entries),
                    i <= entries@.len(),
                    entry_value(entries@, key@) == entry_value(entries@.skip(i as int), key@),
                decreases entries@.len() - i,
            {
                proof {
                    assert(entries@.skip(i as int).drop_first() =~= entries@.skip(i + 1));
                    assert(entries@.skip(i as int)[0] == entries@[i as int]);
                }
                let ek = chars_of(entries[i].0.as_str());
                if chars_eq(ek.as_slice(), kv.as_slice()) {
                    proof {
                        assert(entries@.skip(i as int)[0].0@ == key@);
                        assert(entry_value(entries@.skip(i as int), key@) == Some(entries@[i as int].1));
                        assert(entry_value(entries@, key@) == Some(entries@[i as int].1));
                    }
                    let val = &entries[i].1;
                    match val {
                        JsonValue::Str(s) => {
                            let r = Some(copy_string(s));
                            proof {
                                assert(*v == JsonValue::Object(*entries));
                                assert(json_str_field(*v, key@) == Some(s@));
                            }
                            return r;
                        },
                        _ => {
                            proof {
                                assert(*v == JsonValue::Object(*entries));
                                assert(json_str_field(*v, key@) is None);
                            }
                            return None;
                        },
                    }
                }
                i = i + 1;
            }
            proof {
                assert(entries@.skip(i as int).len() == 0);
            }
            None
        },
        _ => None,
    }
}

fn comparable(d: &str) -> (r: String)
    ensures
        r@ == comparable_dir(d@),
{
    let v = chars_of(d);
    let swapped = replace_chars(v.as_slice(), '\\', '/');
    let t = string_from(swapped.as_slice());
    to_lowercase(t.as_str())
}

/// Reads the session of `work_dir` from a session listing (see `listed_session`).
pub fn session_from_listing(ok: bool, stdout: &str, work_dir: &str) -> (r: Result<Option<String>, ListingError>)
    ensures
        match listed_session(ok, stdout@, work_dir@) {
            Ok(Some(id)) => r matches Ok(Some(s)) && s@ == id,
            Ok(None) => r matches Ok(None),
            Err(e) => r == Err::<Option<String>, ListingError>(e),
        },
{
    if !ok {
        return Ok(None);
    }
    let parsed = parse_json(stdout);
    let items = match &parsed {
        None => {
            return Err(ListingError::InvalidJson);
        },
        Some(JsonValue::Array(items)) => items,
        Some(_) => {
            return Ok(None);
        },
    };
    let target = comparable(work_dir);
    let mut i: usize = 0;
    proof {
        assert(items@.skip(0) =~= items@);
    }
    while i < items.len()
        invariant
            ok,
            parsed == json_parse(stdout@),
            parsed == Some(JsonValue::Array(*items)),
            i <= items@.len(),
            target@ == comparable_dir(work_dir@),
            session_in(items@, target@) == session_in(items@.skip(i as int), target@),
        decreases items@.len() - i,
    {
        proof {
            assert(items@.skip(i as int).drop_first() =~= items@.skip(i + 1));
            assert(items@.skip(i as int)[0] == items@[i as int]);
        }
        let id = str_field(&items[i], "id");
        let dir = str_field(&items[i], "directory");
        match (id, dir) {
            (Some(id), Some(dir)) => {
                let c = comparable(dir.as_str());
                if c == target {
                    proof {
                        assert(parsed == Some(JsonValue::Array(*items)));
                        assert(comparable_dir(dir@) == target@);
                        assert(session_in(items@.skip(i as int), target@) == Some(id@));
                    }
                    return Ok(Some(id));
                }
            },
            _ => {},
        }
        i = i + 1;
    }
    proof {
        assert(items@.skip(i as int).len() == 0);
    }
    Ok(None)
}

/// The session a run ends with: the one listed for its folder, else the one it was
/// started with.
pub fn session_after_run(listed: Result<Option<String>, ListingError>, previous: Option<String>) -> (r: Option<String>)
    ensures
        r == match listed {
            Ok(Some(s)) => Some(s),
            _ => previous,
        },
{
    match listed {
        Ok(Some(s)) => Some(s),
        _ => previous,
    }
}

} // verus!
