//! The environment an opencode run gets: isolated config, state, data and home
//! folders under the project, the host's `OPENCODE*` variables removed, and an
//! inline provider configuration.
use vstd::prelude::*;
use crate::keyed::{find_key, has_key, index_of, keyed, keys_unique, lemma_keyed_at, lemma_keyed_push, lemma_keyed_remove, lemma_keyed_update, Keyed};
use crate::runner::{copy_string, owned};
use crate::text::{chars_of, has_prefix, join_path, join_path_chars, push_str, starts_with, string_from, trim, trim_bounds, slice_of};

verus! {

broadcast use vstd::string::group_string_axioms;

/// One environment variable.
pub struct EnvVar {
    pub name: String,
    pub value: String,
}

impl View for EnvVar {
    type V = Seq<char>;

    open spec fn view(&self) -> Seq<char> {
        self.value@
    }
}

impl Keyed for EnvVar {
    open spec fn key_of(&self) -> Seq<char> {
        self.name@
    }

    fn key_ref(&self) -> (r: &String) {
        &self.name
    }
}

/// A set of environment variables, each name once.
pub struct EnvVars {
    vars: Vec<EnvVar>,
}

/// The variables that a list of name/value pairs sets, a later pair winning.
pub open spec fn pairs_map(pairs: Seq<(String, String)>) -> Map<Seq<char>, Seq<char>>
    decreases pairs.len(),
{
    if pairs.len() == 0 {
        Map::empty()
    } else {
        pairs_map(pairs.drop_last()).insert(pairs.last().0@, pairs.last().1@)
    }
}

impl EnvVars {
    /// The variables by name.
    pub closed spec fn map(&self) -> Map<Seq<char>, Seq<char>> {
        keyed(self.vars@)
    }

    /// Each name once.
    pub closed spec fn wf(&self) -> bool {
        keys_unique(self.vars@)
    }

    pub fn new() -> (r: Self)
        ensures
            r.wf(),
            r.map() == Map::<Seq<char>, Seq<char>>::empty(),
    {
        let r = EnvVars { vars: Vec::new() };
        proof {
            assert(r.map() =~= Map::<Seq<char>, Seq<char>>::empty());
        }
        r
    }

    /// The value of variable `name`.
    pub fn get(&self, name: &String) -> (r: Option<String>)
        requires
            self.wf(),
        ensures
            match r {
                Some(v) => self.map().contains_key(name@) && v@ == self.map()[name@],
                None => !self.map().contains_key(name@),
            },
    {
        match find_key(&self.vars, name) {
            Some(i) => {
                proof {
                    lemma_keyed_at(self.vars@, i as int);
                }
                Some(copy_string(&self.vars[i].value))
            },
            None => None,
        }
    }

    /// Sets variable `name` to `value`.
    pub fn insert(&mut self, name: String, value: String)
        requires
            old(self).wf(),
        ensures
            final(self).wf(),
            final(self).map() == old(self).map().insert(name@, value@),
    {
        let ghost before = self.vars@;
        match find_key(&self.vars, &name) {
            Some(i) => {
                let v = EnvVar { name, value };
                proof {
                    lemma_keyed_update(before, i as int, v);
                }
                self.vars.set(i, v);
            },
            None => {
                let v = EnvVar { name, value };
                proof {
                    lemma_keyed_push(before, v);
                }
                self.vars.push(v);
            },
        }
    }

    /// Removes variable `name`.
    pub fn remove(&mut self, name: &String)
        requires
            old(self).wf(),
        ensures
            final(self).wf(),
            final(self).map() == old(self).map().remove(name@),
    {
        match find_key(&self.vars, name) {
            Some(i) => {
                proof {
                    lemma_keyed_remove(self.vars@, i as int);
                }
                self.vars.remove(i);
            },
            None => {
                proof {
                    assert(self.map() =~= old(self).map().remove(name@));
                }
            },
        }
    }

    /// Removes every variable whose name starts with `prefix`.
    pub fn remove_prefixed(&mut self, prefix: &str)
        requires
            old(self).wf(),
        ensures
            final(self).wf(),
            final(self).map() == old(self).map().restrict(
                old(self).map().dom().filter(|k: Seq<char>| !has_prefix(k, prefix@)),
            ),
    {
        let pv = chars_of(prefix);
        let ghost orig = self.map();
        let ghost target = orig.restrict(orig.dom().filter(|k: Seq<char>| !has_prefix(k, prefix@)));
        let mut i: usize = 0;
        while i < self.vars.len()
            invariant
                keys_unique(self.vars@),
                pv@ == prefix@,
                i <= self.vars@.len(),
                forall|k: int| 0 <= k < i ==> !has_prefix((#[trigger] self.vars@[k]).name@, prefix@),
                forall|k: Seq<char>| #[trigger] keyed(self.vars@).contains_key(k) ==> orig.contains_key(k) && keyed(self.vars@)[k] == orig[k],
                forall|k: Seq<char>| #[trigger] orig.contains_key(k) && !has_prefix(k, prefix@) ==> keyed(self.vars@).contains_key(k),
            decreases self.vars@.len() - i,
        {
            let nv = chars_of(self.vars[i].name.as_str());
            if starts_with(nv.as_slice(), pv.as_slice()) {
                let ghost before = self.vars@;
                proof {
                    lemma_keyed_remove(before, i as int);
                    assert forall|k: int| 0 <= k < i implies !has_prefix((#[trigger] before.remove(i as int)[k]).name@, prefix@) by {
                        assert(before.remove(i as int)[k] == before[k]);
                    }
                }
                self.vars.remove(i);
            } else {
                i = i + 1;
            }
        }
        proof {
            assert forall|k: Seq<char>| #[trigger] keyed(self.vars@).contains_key(k) implies !has_prefix(k, prefix@) by {
                let j = index_of(self.vars@, k);
            }
            assert(keyed(self.vars@) =~= target);
        }
    }

    /// Builds the variables from name/value pairs (a later pair wins).
    pub fn from_pairs(pairs: Vec<(String, String)>) -> (r: Self)
        ensures
            r.wf(),
            r.map() == pairs_map(pairs@),
    {
        let mut r = EnvVars::new();
        let ghost all = pairs@;
        let mut rest = pairs;
        let ghost mut done: Seq<(String, String)> = Seq::empty();
        while rest.len() > 0
            invariant
                r.wf(),
                all == done + rest@,
                r.map() == pairs_map(done),
            decreases rest@.len(),
        {
            let (n, v) = rest.remove(0);
            proof {
                assert(all[done.len() as int] == (n, v));
                assert(done.push((n, v)).drop_last() =~= done);
                done = done.push((n, v));
                assert(all == done + rest@);
            }
            r.insert(n, v);
        }
        proof {
            assert(done =~= all);
        }
        r
    }

    /// The variables as name/value pairs.
    pub fn to_pairs(&self) -> (r: Vec<(String, String)>)
        requires
            self.wf(),
        ensures
            pairs_map(r@) == self.map(),
    {
        let mut out: Vec<(String, String)> = Vec::new();
        let mut i: usize = 0;
        while i < self.vars.len()
            invariant
                keys_unique(self.vars@),
                i <= self.vars@.len(),
                out@.len() == i,
                pairs_map(out@) == keyed(self.vars@.take(i as int)),
            decreases self.vars@.len() - i,
        {
            let ghost before = out@;
            out.push((copy_string(&self.vars[i].name), copy_string(&self.vars[i].value)));
            proof {
                let t = self.vars@.take(i as int);
                assert(self.vars@.take(i + 1) =~= t.push(self.vars@[i as int]));
                assert(keys_unique(t)) by {
                    assert forall|a: int, b: int| 0 <= a < t.len() && 0 <= b < t.len() && (#[trigger] t[a]).key_of() == (#[trigger] t[b]).key_of() implies a == b by {
                        assert(t[a] == self.vars@[a] && t[b] == self.vars@[b]);
                    }
                }
                assert(!has_key(t, self.vars@[i as int].key_of())) by {
                    if has_key(t, self.vars@[i as int].key_of()) {
                        let j = choose|j: int| 0 <= j < t.len() && (#[trigger] t[j]).key_of() == self.vars@[i as int].key_of();
                        assert(self.vars@[j].key_of() == self.vars@[i as int].key_of());
                    }
                }
                lemma_keyed_push(t, self.vars@[i as int]);
                assert(out@.drop_last() =~= before);
            }
            i = i + 1;
        }
        proof {
            assert(self.vars@.take(self.vars@.len() as int) =~= self.vars@);
        }
        out
    }
}

/// The DashScope endpoint: `DASHSCOPE_BASE_URL` when set (trimmed, not blank);
/// otherwise the coding endpoint for API keys starting with "sk-sp-" and the
/// compatible-mode endpoint for any other key.
pub open spec fn dashscope_base_url(m: Map<Seq<char>, Seq<char>>) -> Seq<char> {
    let url = if m.contains_key("DASHSCOPE_BASE_URL"@) { trim(m["DASHSCOPE_BASE_URL"@]) } else { Seq::empty() };
    if url.len() > 0 {
        url
    } else {
        let key = if m.contains_key("DASHSCOPE_API_KEY"@) { trim(m["DASHSCOPE_API_KEY"@]) } else { Seq::empty() };
        if has_prefix(key, "sk-sp-"@) {
            "https://coding.dashscope.aliyuncs.com/v1"@
        } else {
            "https://dashscope.aliyuncs.com/compatible-mode/v1"@
        }
    }
}

fn trimmed(s: &String) -> (r: Vec<char>)
    ensures
        r@ == trim(s@),
{
    let v = chars_of(s.as_str());
    let (a, b) = trim_bounds(v.as_slice());
    let mut out: Vec<char> = Vec::new();
    crate::text::extend_chars(&mut out, slice_of(v.as_slice(), a, b));
    out
}

pub fn resolve_dashscope_base_url(envs: &EnvVars) -> (r: String)
    requires
        envs.wf(),
    ensures
        r@ == dashscope_base_url(envs.map()),
{
    let url = match envs.get(&owned("DASHSCOPE_BASE_URL")) {
        Some(u) => trimmed(&u),
        None => Vec::new(),
    };
    if url.len() > 0 {
        return string_from(url.as_slice());
    }
    let key = match envs.get(&owned("DASHSCOPE_API_KEY")) {
        Some(k) => trimmed(&k),
        None => Vec::new(),
    };
    let p = chars_of("sk-sp-");
    if starts_with(key.as_slice(), p.as_slice()) {
        owned("https://coding.dashscope.aliyuncs.com/v1")
    } else {
        owned("https://dashscope.aliyuncs.com/compatible-mode/v1")
    }
}

/// Lowercase hexadecimal digit.
pub open spec fn hex_digit(d: nat) -> char {
    if d < 10 {
        (('0' as u32) + d) as char
    } else {
        (('a' as u32) + d - 10) as char
    }
}

/// A character as it appears inside a JSON string: quote, backslash and control
/// characters escaped (`\b \f \n \r \t` by name, others as `\u00XX`).
pub open spec fn json_escape_char(c: char) -> Seq<char> {
    let u = c as u32;
    if c == '"' {
        seq!['\\', '"']
    } else if c == '\\' {
        seq!['\\', '\\']
    } else if u == 0x08 {
        seq!['\\', 'b']
    } else if u == 0x0C {
        seq!['\\', 'f']
    } else if c == '\n' {
        seq!['\\', 'n']
    } else if c == '\r' {
        seq!['\\', 'r']
    } else if c == '\t' {
        seq!['\\', 't']
    } else if u < 0x20 {
        seq!['\\', 'u', '0', '0', hex_digit((u / 16) as nat), hex_digit((u % 16) as nat)]
    } else {
        seq![c]
    }
}

pub open spec fn json_escape(s: Seq<char>) -> Seq<char>
    decreases s.len(),
{
    if s.len() == 0 {
        Seq::empty()
    } else {
        json_escape(s.drop_last()) + json_escape_char(s.last())
    }
}

/// A JSON string literal with the given contents.
pub open spec fn json_string(s: Seq<char>) -> Seq<char> {
    seq!['"'] + json_escape(s) + seq!['"']
}

/// `serde_json::to_string` of a string slice: the quoted, escaped literal. (Serializing
/// a string does not fail: `to_string` fails only for a failing `Serialize` impl or a
/// map with non-string keys.)
#[verifier::external_body]
fn json_string_literal(s: &str) -> (r: Option<String>)
    ensures
        r is Some,
        r->0@ == json_string(s@),
{
    match serde_json::to_string(s) {
        Ok(t) => Some(t),
        Err(_) => None,
    }
}

/// The provider configuration passed inline: a Kimi provider and an Alibaba Bailian
/// provider whose endpoint is `base_url`, as compact JSON with keys in order.
pub open spec fn inline_config(base_url: Seq<char>) -> Seq<char> {
    "{\"$schema\":\"https://opencode.ai/config.json\",\"provider\":{\"bailian-coding\":{\"models\":{\"glm-5\":{\"name\":\"GLM-5\"}},\"name\":\"Alibaba Bailian (custom)\",\"npm\":\"@ai-sdk/openai-compatible\",\"options\":{\"apiKey\":\"{env:DASHSCOPE_API_KEY}\",\"baseURL\":"@
        + json_string(base_url)
        + "}},\"kimi\":{\"models\":{\"moonshot-v1-128k\":{\"name\":\"Moonshot v1 128k\"},\"moonshot-v1-32k\":{\"name\":\"Moonshot v1 32k\"},\"moonshot-v1-8k\":{\"name\":\"Moonshot v1 8k\"}},\"name\":\"Kimi (custom)\",\"npm\":\"@ai-sdk/openai-compatible\",\"options\":{\"apiKey\":\"{env:KIMI_API_KEY}\",\"baseURL\":\"https://api.moonshot.ai/v1\"}}}}"@
}

pub fn build_inline_config(dashscope_base_url: &str) -> (r: String)
    ensures
        r@ == inline_config(dashscope_base_url@),
{
    let quoted = match json_string_literal(dashscope_base_url) {
        Some(q) => q,
        None => String::new(),
    };
    let mut out: Vec<char> = Vec::new();
    push_str(&mut out, "{\"$schema\":\"https://opencode.ai/config.json\",\"provider\":{\"bailian-coding\":{\"models\":{\"glm-5\":{\"name\":\"GLM-5\"}},\"name\":\"Alibaba Bailian (custom)\",\"npm\":\"@ai-sdk/openai-compatible\",\"options\":{\"apiKey\":\"{env:DASHSCOPE_API_KEY}\",\"baseURL\":");
    push_str(&mut out, quoted.as_str());
    push_str(&mut out, "}},\"kimi\":{\"models\":{\"moonshot-v1-128k\":{\"name\":\"Moonshot v1 128k\"},\"moonshot-v1-32k\":{\"name\":\"Moonshot v1 32k\"},\"moonshot-v1-8k\":{\"name\":\"Moonshot v1 8k\"}},\"name\":\"Kimi (custom)\",\"npm\":\"@ai-sdk/openai-compatible\",\"options\":{\"apiKey\":\"{env:KIMI_API_KEY}\",\"baseURL\":\"https://api.moonshot.ai/v1\"}}}}");
    string_from(out.as_slice())
}

/// The folders a run is isolated in, all under `<work_dir>/.opencode-runtime`.
pub struct RuntimeDirs {
    pub root: String,
    pub config: String,
    pub state: String,
    pub data: String,
    pub home: String,
}

/// `<work_dir>/.opencode-runtime`, joined with the platform's separator.
pub open spec fn runtime_root(work_dir: Seq<char>, windows: bool) -> Seq<char> {
    join_path(work_dir, ".opencode-runtime"@, windows)
}

pub fn runtime_dirs(work_dir: &str, windows: bool) -> (r: RuntimeDirs)
    ensures
        r.root@ == runtime_root(work_dir@, windows),
        r.config@ == join_path(runtime_root(work_dir@, windows), "config"@, windows),
        r.state@ == join_path(runtime_root(work_dir@, windows), "state"@, windows),
        r.data@ == join_path(runtime_root(work_dir@, windows), "data"@, windows),
        r.home@ == join_path(runtime_root(work_dir@, windows), "home"@, windows),
{
    let w = chars_of(work_dir);
    let rt = chars_of(".opencode-runtime");
    let root = join_path_chars(w.as_slice(), rt.as_slice(), windows);
    let c = chars_of("config");
    let s = chars_of("state");
    let d = chars_of("data");
    let h = chars_of("home");
    RuntimeDirs {
        config: string_from(join_path_chars(root.as_slice(), c.as_slice(), windows).as_slice()),
        state: string_from(join_path_chars(root.as_slice(), s.as_slice(), windows).as_slice()),
        data: string_from(join_path_chars(root.as_slice(), d.as_slice(), windows).as_slice()),
        home: string_from(join_path_chars(root.as_slice(), h.as_slice(), windows).as_slice()),
        root: string_from(root.as_slice()),
    }
}

/// Where a host auth file is copied: `<data>/opencode/auth.json`.
pub fn auth_target(data_dir: &str, windows: bool) -> (r: String)
    ensures
        r@ == join_path(join_path(data_dir@, "opencode"@, windows), "auth.json"@, windows),
{
    let d = chars_of(data_dir);
    let o = chars_of("opencode");
    let a = chars_of("auth.json");
    let dir = join_path_chars(d.as_slice(), o.as_slice(), windows);
    string_from(join_path_chars(dir.as_slice(), a.as_slice(), windows).as_slice())
}

/// The host auth file to seed from: the variable's value trimmed, when not blank.
pub fn auth_seed_source(host_auth_file: Option<&str>) -> (r: Option<String>)
    ensures
        match host_auth_file {
            Some(s) => if trim(s@).len() > 0 { r matches Some(t) && t@ == trim(s@) } else { r is None },
            None => r is None,
        },
{
    match host_auth_file {
        Some(s) => {
            let v = chars_of(s);
            let (a, b) = trim_bounds(v.as_slice());
            if a == b {
                None
            } else {
                Some(string_from(slice_of(v.as_slice(), a, b)))
            }
        },
        None => None,
    }
}

/// The environment of a run: the host variables without any `OPENCODE*` ones and
/// without `AGENT`, with the config, state, data and home folders pointed into the
/// runtime folder, the client set to "cli", and the inline provider configuration.
pub open spec fn isolated_env(host: Map<Seq<char>, Seq<char>>, work_dir: Seq<char>, windows: bool) -> Map<Seq<char>, Seq<char>> {
    let root = runtime_root(work_dir, windows);
    let config = join_path(root, "config"@, windows);
    let state = join_path(root, "state"@, windows);
    let data = join_path(root, "data"@, windows);
    let home = join_path(root, "home"@, windows);
    let kept = host.restrict(host.dom().filter(|k: Seq<char>| !has_prefix(k, "OPENCODE"@))).remove("AGENT"@);
    let m = kept.insert("OPENCODE_CONFIG_DIR"@, config)
        .insert("OPENCODE_CLIENT"@, "cli"@)
        .insert("XDG_CONFIG_HOME"@, config)
        .insert("XDG_STATE_HOME"@, state)
        .insert("XDG_DATA_HOME"@, data)
        .insert("HOME"@, home)
        .insert("USERPROFILE"@, home)
        .insert("APPDATA"@, config)
        .insert("LOCALAPPDATA"@, data);
    m.insert("OPENCODE_CONFIG_CONTENT"@, inline_config(dashscope_base_url(m)))
}

/// The environment variables of an opencode run in `work_dir`, given the host's.
pub fn build_isolated_opencode_env(work_dir: &str, host_vars: Vec<(String, String)>, windows: bool) -> (r: Vec<(String, String)>)
    ensures
        pairs_map(r@) == isolated_env(pairs_map(host_vars@), work_dir@, windows),
{
    let dirs = runtime_dirs(work_dir, windows);
    let mut envs = EnvVars::from_pairs(host_vars);
    envs.remove_prefixed("OPENCODE");
    envs.remove(&owned("AGENT"));
    envs.insert(owned("OPENCODE_CONFIG_DIR"), copy_string(&dirs.config));
    envs.insert(owned("OPENCODE_CLIENT"), owned("cli"));
    envs.insert(owned("XDG_CONFIG_HOME"), copy_string(&dirs.config));
    envs.insert(owned("XDG_STATE_HOME"), copy_string(&dirs.state));
    envs.insert(owned("XDG_DATA_HOME"), copy_string(&dirs.data));
    envs.insert(owned("HOME"), copy_string(&dirs.home));
    envs.insert(owned("USERPROFILE"), copy_string(&dirs.home));
    envs.insert(owned("APPDATA"), copy_string(&dirs.config));
    envs.insert(owned("LOCALAPPDATA"), copy_string(&dirs.data));
    let base = resolve_dashscope_base_url(&envs);
    envs.insert(owned("OPENCODE_CONFIG_CONTENT"), build_inline_config(base.as_str()));
    envs.to_pairs()
}

} // verus!
