//! What the bot makes of what users send: command arguments, plain text, the data
//! of pressed buttons, and the input it is waiting for.
use vstd::prelude::*;
use crate::models::{RunMode, RunTaskOptions};
use crate::runner::{lowercase, owned, to_lowercase};
use crate::text::{
    chars_eq, chars_eq_ignore_ascii_case, chars_of, decimal, digit_char, eq_ignore_ascii_case,
    extend_chars, has_prefix, has_prefix_ignore_ascii_case, i64_text, int_text, join, join_parts,
    push_str, slice_of, split_whitespace, starts_with, starts_with_ignore_ascii_case, string_from,
    trim, trim_bounds, u64_decimal, words,
};

verus! {

broadcast use vstd::string::group_string_axioms;

/// The value of an ASCII digit.
pub open spec fn digit_value(c: char) -> nat {
    ((c as u32) - ('0' as u32)) as nat
}

pub open spec fn is_digit(c: char) -> bool {
    '0' <= c <= '9'
}

/// The number written by a string of decimal digits.
pub open spec fn digits_value(s: Seq<char>) -> nat
    decreases s.len(),
{
    if s.len() == 0 {
        0
    } else {
        digits_value(s.drop_last()) * 10 + digit_value(s.last())
    }
}

/// The text after an optional leading '+'.
pub open spec fn digits_part(s: Seq<char>) -> Seq<char> {
    if s.len() > 0 && s[0] == '+' {
        s.drop_first()
    } else {
        s
    }
}

/// `str::parse::<usize>`: an optional '+' and at least one decimal digit, with a
/// value that fits in `usize`.
pub open spec fn parsed_usize(s: Seq<char>) -> Option<nat> {
    let d = digits_part(s);
    if d.len() > 0 && (forall|i: int| 0 <= i < d.len() ==> is_digit(#[trigger] d[i])) && digits_value(d)
        <= usize::MAX {
        Some(digits_value(d))
    } else {
        None
    }
}

proof fn lemma_digits_prefix_le(s: Seq<char>, i: int)
    requires
        0 <= i <= s.len(),
        forall|k: int| 0 <= k < s.len() ==> is_digit(#[trigger] s[k]),
    ensures
        digits_value(s.take(i)) <= digits_value(s),
    decreases s.len(),
{
    if i < s.len() {
        assert(s.drop_last().take(i) =~= s.take(i));
        lemma_digits_prefix_le(s.drop_last(), i);
    } else {
        assert(s.take(i) =~= s);
    }
}

/// `s.parse::<usize>().ok()`.
pub fn parse_usize(s: &[char]) -> (r: Option<usize>)
    ensures
        match parsed_usize(s@) {
            Some(n) => r == Some(n as usize),
            None => r is None,
        },
{
    let start: usize = if s.len() > 0 && s[0] == '+' {
        1
    } else {
        0
    };
    let d = slice_of(s, start, s.len());
    proof {
        if start == 1 {
            assert(d@ =~= s@.drop_first());
        } else {
            assert(d@ =~= s@);
        }
    }
    if d.len() == 0 {
        return None;
    }
    let mut value: usize = 0;
    let mut i: usize = 0;
    while i < d.len()
        invariant
            i <= d@.len(),
            d@ == digits_part(s@),
            d@.len() > 0,
            value == digits_value(d@.take(i as int)),
            forall|k: int| 0 <= k < i ==> is_digit(#[trigger] d@[k]),
        decreases d@.len() - i,
    {
        let c = d[i];
        proof {
            assert(d@.take(i + 1).drop_last() =~= d@.take(i as int));
        }
        if !('0' <= c && c <= '9') {
            return None;
        }
        let dv: usize = ((c as u32) - ('0' as u32)) as usize;
        let next = match value.checked_mul(10) {
            Some(m) => m.checked_add(dv),
            None => None,
        };
        match next {
            Some(n) => {
                proof {
                    assert(d@.take(i + 1).last() == c);
                }
                value = n;
            },
            None => {
                proof {
                    assert(d@.take(i + 1).last() == c);
                    assert(digits_value(d@.take(i + 1)) == value * 10 + dv);
                    assert(digits_value(d@.take(i + 1)) > usize::MAX);
                    if forall|k: int| 0 <= k < d@.len() ==> is_digit(#[trigger] d@[k]) {
                        lemma_digits_prefix_le(d@, i + 1);
                    }
                }
                return None;
            },
        }
        i = i + 1;
    }
    proof {
        assert(d@.take(d@.len() as int) =~= d@);
    }
    Some(value)
}

proof fn lemma_decimal_digits(n: nat)
    ensures
        decimal(n).len() > 0,
        forall|i: int| 0 <= i < decimal(n).len() ==> is_digit(#[trigger] decimal(n)[i]),
        decimal(n)[0] != '+',
        digits_value(decimal(n)) == n,
    decreases n,
{
    if n < 10 {
        assert(digit_char(n) as u32 == ('0' as u32) + n);
        assert(digit_value(digit_char(n)) == n);
        assert(decimal(n).drop_last() =~= Seq::<char>::empty());
        assert(digits_value(decimal(n)) == digits_value(decimal(n).drop_last()) * 10 + digit_value(decimal(n).last()));
    } else {
        lemma_decimal_digits(n / 10);
        let p = decimal(n / 10);
        assert(decimal(n) == p.push(digit_char(n % 10)));
        assert(decimal(n).drop_last() =~= p);
        assert(digit_char(n % 10) as u32 == ('0' as u32) + n % 10);
        assert(n == (n / 10) * 10 + n % 10);
        assert(digit_value(digit_char(n % 10)) == n % 10);
        assert(digits_value(decimal(n)) == digits_value(p) * 10 + digit_value(digit_char(n % 10)));
        assert forall|i: int| 0 <= i < decimal(n).len() implies is_digit(#[trigger] decimal(n)[i]) by {
            if i < p.len() {
                assert(decimal(n)[i] == p[i]);
            }
        }
    }
}

/// Numbers written by the bot are read back as the same numbers.
pub proof fn law_parse_decimal(n: nat)
    requires
        n <= usize::MAX,
    ensures
        parsed_usize(decimal(n)) == Some(n),
{
    lemma_decimal_digits(n);
}

/// The key under which the input awaited from a user of a chat is kept:
/// `"<chat>:main:<user>"`.
pub open spec fn pending_key_text(chat_id: i64, user_id: u64) -> Seq<char> {
    int_text(chat_id as int) + ":main:"@ + decimal(user_id as nat)
}

pub fn pending_key(chat_id: i64, user_id: u64) -> (r: String)
    ensures
        r@ == pending_key_text(chat_id, user_id),
{
    let mut v = i64_text(chat_id);
    push_str(&mut v, ":main:");
    let u = u64_decimal(user_id);
    extend_chars(&mut v, u.as_slice());
    string_from(v.as_slice())
}

/// The key of the follower of a project's task: `"<chat>|<project>"`.
pub open spec fn monitor_key_text(chat_id: i64, project: Seq<char>) -> Seq<char> {
    int_text(chat_id as int) + "|"@ + project
}

pub fn monitor_key(chat_id: i64, project: &str) -> (r: String)
    ensures
        r@ == monitor_key_text(chat_id, project@),
{
    let mut v = i64_text(chat_id);
    push_str(&mut v, "|");
    push_str(&mut v, project);
    string_from(v.as_slice())
}

/// The key under which a project's model list is cached: `"<chat>|main|<project>"`.
pub open spec fn model_cache_key_text(chat_id: i64, project: Seq<char>) -> Seq<char> {
    int_text(chat_id as int) + "|main|"@ + project
}

pub fn model_cache_key(chat_id: i64, project: &str) -> (r: String)
    ensures
        r@ == model_cache_key_text(chat_id, project@),
{
    let mut v = i64_text(chat_id);
    push_str(&mut v, "|main|");
    push_str(&mut v, project);
    string_from(v.as_slice())
}

/// What `/run <payload>` asks for: the task text and the mode it names. A payload
/// that starts with "plan" or "build" (or the misspelling "bulid"), in any ASCII
/// case and followed by a space or nothing, selects that mode and the rest is the
/// task. (The comparison is made on the lower-cased payload; a character lowercases
/// to one of these ASCII letters or to a space only if it is that letter in either
/// case, or that space.)
pub open spec fn run_payload(raw: Seq<char>) -> (Seq<char>, Option<RunMode>) {
    let text = trim(raw);
    if has_prefix_ignore_ascii_case(text, "plan "@) {
        (trim(text.skip(5)), Some(RunMode::Plan))
    } else if eq_ignore_ascii_case(text, "plan"@) {
        (Seq::empty(), Some(RunMode::Plan))
    } else if has_prefix_ignore_ascii_case(text, "build "@) || has_prefix_ignore_ascii_case(text, "bulid "@) {
        (trim(text.skip(5)), Some(RunMode::Build))
    } else if eq_ignore_ascii_case(text, "build"@) || eq_ignore_ascii_case(text, "bulid"@) {
        (Seq::empty(), Some(RunMode::Build))
    } else {
        (text, None)
    }
}

fn literal(s: &str) -> (r: Vec<char>)
    ensures
        r@ == s@,
{
    chars_of(s)
}

fn trimmed_tail(v: &[char], from: usize) -> (r: String)
    requires
        from <= v@.len(),
    ensures
        r@ == trim(v@.skip(from as int)),
{
    let rest = slice_of(v, from, v.len());
    proof {
        assert(rest@ =~= v@.skip(from as int));
    }
    let (a, b) = trim_bounds(rest);
    string_from(slice_of(rest, a, b))
}

pub fn parse_run_payload(raw: &str) -> (r: (String, Option<RunMode>))
    ensures
        r.0@ == run_payload(raw@).0,
        r.1 == run_payload(raw@).1,
{
    let rv = chars_of(raw);
    let (a, b) = trim_bounds(rv.as_slice());
    let text = slice_of(rv.as_slice(), a, b);
    let plan_sp = literal("plan ");
    let plan = literal("plan");
    let build_sp = literal("build ");
    let bulid_sp = literal("bulid ");
    let build = literal("build");
    let bulid = literal("bulid");
    if starts_with_ignore_ascii_case(text, plan_sp.as_slice()) {
        proof {
            assert(text@.len() >= 5) by {
                reveal_strlit("plan ");
            }
        }
        (trimmed_tail(text, 5), Some(RunMode::Plan))
    } else if chars_eq_ignore_ascii_case(text, plan.as_slice()) {
        (String::new(), Some(RunMode::Plan))
    } else if starts_with_ignore_ascii_case(text, build_sp.as_slice()) || starts_with_ignore_ascii_case(
        text,
        bulid_sp.as_slice(),
    ) {
        proof {
            assert(text@.len() >= 5) by {
                reveal_strlit("build ");
                reveal_strlit("bulid ");
            }
        }
        (trimmed_tail(text, 5), Some(RunMode::Build))
    } else if chars_eq_ignore_ascii_case(text, build.as_slice()) || chars_eq_ignore_ascii_case(
        text,
        bulid.as_slice(),
    ) {
        (String::new(), Some(RunMode::Build))
    } else {
        (string_from(text), None)
    }
}

/// The options of a run started from the chat: the mode it names, if any, and the
/// agent of that mode ("build" or "plan").
pub open spec fn chat_run_options(mode: Option<RunMode>, o: RunTaskOptions) -> bool {
    &&& o.project is None
    &&& o.model is None
    &&& o.thinking is None
    &&& o.mode == mode
    &&& match mode {
        Some(RunMode::Build) => o.agent matches Some(a) && a@ == "build"@,
        Some(RunMode::Plan) => o.agent matches Some(a) && a@ == "plan"@,
        None => o.agent is None,
    }
}

/// The task and options of a run asked for in the chat; `None` (the usage hint)
/// when the task is blank.
pub fn run_request(task: &str, mode: Option<RunMode>) -> (r: Option<(String, RunTaskOptions)>)
    ensures
        match r {
            Some((t, o)) => trim(task@).len() > 0 && t@ == trim(task@) && chat_run_options(mode, o),
            None => trim(task@).len() == 0,
        },
{
    let tv = chars_of(task);
    let (a, b) = trim_bounds(tv.as_slice());
    if a == b {
        return None;
    }
    let agent = match mode {
        Some(RunMode::Build) => Some(owned("build")),
        Some(RunMode::Plan) => Some(owned("plan")),
        None => None,
    };
    let options = RunTaskOptions { project: None, model: None, agent, mode, thinking: None };
    Some((string_from(slice_of(tv.as_slice(), a, b)), options))
}

fn is_text(data: &[char], lit: &str) -> (r: bool)
    ensures
        r == (data@ == lit@),
{
    let l = chars_of(lit);
    chars_eq(data, l.as_slice())
}

fn strip_text<'a>(data: &'a [char], lit: &str) -> (r: Option<&'a [char]>)
    ensures
        match r {
            Some(rest) => has_prefix(data@, lit@) && rest@ == data@.skip(lit@.len() as int),
            None => !has_prefix(data@, lit@),
        },
{
    let l = chars_of(lit);
    if starts_with(data, l.as_slice()) {
        let rest = slice_of(data, l.len(), data.len());
        proof {
            assert(rest@ =~= data@.skip(lit@.len() as int));
        }
        Some(rest)
    } else {
        None
    }
}

/// The number written in `s`, or `default` when it is not one.
pub open spec fn number_or(s: Seq<char>, default: nat) -> nat {
    match parsed_usize(s) {
        Some(n) => n,
        None => default,
    }
}

fn parse_or(s: &[char], default: usize) -> (r: usize)
    ensures
        r as nat == number_or(s@, default as nat),
{
    match parse_usize(s) {
        Some(n) => n,
        None => default,
    }
}

/// How many times `c` occurs in `s`.
pub open spec fn count_char(s: Seq<char>, c: char) -> nat
    decreases s.len(),
{
    if s.len() == 0 {
        0
    } else {
        count_char(s.drop_last(), c) + if s.last() == c {
            1nat
        } else {
            0nat
        }
    }
}

/// `s.split(':')` when it gives exactly two parts: the text before and after its only ':'.
pub open spec fn two_fields(s: Seq<char>) -> Option<(Seq<char>, Seq<char>)> {
    if count_char(s, ':') == 1 {
        let p = choose|p: int| 0 <= p < s.len() && s[p] == ':';
        Some((s.take(p), s.skip(p + 1)))
    } else {
        None
    }
}

proof fn lemma_count_zero(s: Seq<char>, c: char)
    requires
        forall|k: int| 0 <= k < s.len() ==> s[k] != c,
    ensures
        count_char(s, c) == 0,
    decreases s.len(),
{
    if s.len() > 0 {
        lemma_count_zero(s.drop_last(), c);
    }
}

proof fn lemma_count_positive(s: Seq<char>, c: char, p: int)
    requires
        0 <= p < s.len(),
        s[p] == c,
    ensures
        count_char(s, c) >= 1,
        count_char(s, c) == 1 ==> forall|k: int| 0 <= k < s.len() && k != p ==> s[k] != c,
    decreases s.len(),
{
    let t = s.drop_last();
    if p < s.len() - 1 {
        assert(t[p] == s[p]);
        lemma_count_positive(t, c, p);
        if count_char(s, c) == 1 {
            assert(s.last() != c);
            assert forall|k: int| 0 <= k < s.len() && k != p implies s[k] != c by {
                if k < s.len() - 1 {
                    assert(t[k] == s[k]);
                }
            }
        }
    } else if count_char(s, c) == 1 {
        assert(count_char(t, c) == 0);
        assert forall|k: int| 0 <= k < s.len() && k != p implies s[k] != c by {
            assert(t[k] == s[k]);
            if s[k] == c {
                lemma_count_positive(t, c, k);
            }
        }
    }
}

fn split_two(s: &[char]) -> (r: Option<(&[char], &[char])>)
    ensures
        match two_fields(s@) {
            Some((a, b)) => r matches Some((x, y)) && x@ == a && y@ == b,
            None => r is None,
        },
{
    let mut first: usize = s.len();
    let mut count: usize = 0;
    let mut i: usize = 0;
    while i < s.len()
        invariant
            i <= s@.len(),
            count == count_char(s@.take(i as int), ':'),
            count <= i,
            first <= s@.len(),
            count == 0 ==> first == s@.len(),
            count > 0 ==> first < i && s@[first as int] == ':' && forall|k: int| 0 <= k < first ==> s@[k] != ':',
        decreases s@.len() - i,
    {
        proof {
            assert(s@.take(i + 1).drop_last() =~= s@.take(i as int));
        }
        if s[i] == ':' {
            if count == 0 {
                first = i;
                proof {
                    assert forall|k: int| 0 <= k < first implies s@[k] != ':' by {
                        if s@[k] == ':' {
                            lemma_count_positive(s@.take(i as int), ':', k);
                        }
                    }
                }
            }
            count = count + 1;
        }
        i = i + 1;
    }
    proof {
        assert(s@.take(s@.len() as int) =~= s@);
    }
    if count != 1 {
        return None;
    }
    proof {
        lemma_count_positive(s@, ':', first as int);
        let p = choose|p: int| 0 <= p < s@.len() && s@[p] == ':';
        assert(p == first);
    }
    let a = slice_of(s, 0, first);
    let b = slice_of(s, first + 1, s.len());
    proof {
        assert(a@ =~= s@.take(first as int));
        assert(b@ =~= s@.skip(first + 1));
    }
    Some((a, b))
}

/// `s.trim_start_matches(p)`: `p` removed from the start as often as it is there.
pub open spec fn strip_repeated(s: Seq<char>, p: Seq<char>) -> Seq<char>
    decreases s.len(),
{
    if p.len() > 0 && has_prefix(s, p) {
        strip_repeated(s.skip(p.len() as int), p)
    } else {
        s
    }
}

fn strip_repeated_text(s: &[char], p: &str) -> (r: String)
    ensures
        r@ == strip_repeated(s@, p@),
{
    let pv = chars_of(p);
    let mut start: usize = 0;
    proof {
        assert(s@.skip(0) =~= s@);
    }
    while pv.len() > 0 && start <= s.len() && starts_with(slice_of(s, start, s.len()), pv.as_slice())
        invariant
            pv@ == p@,
            start <= s@.len(),
            strip_repeated(s@.skip(start as int), p@) == strip_repeated(s@, p@),
        decreases s@.len() - start,
    {
        proof {
            assert(s@.subrange(start as int, s@.len() as int) =~= s@.skip(start as int));
            assert(s@.skip(start as int).skip(p@.len() as int) =~= s@.skip(start + p@.len()));
        }
        start = start + pv.len();
    }
    let rest = slice_of(s, start, s.len());
    proof {
        assert(rest@ =~= s@.skip(start as int));
    }
    string_from(rest)
}

/// What a pressed button asks for.
pub enum CallbackAction {
    Home,
    ProjectsMenu,
    RunMenu,
    ModelMenu,
    AgentMenu,
    ThinkingMenu,
    ModeMenu,
    Status,
    Cancel,
    NewProject,
    ListProjects,
    DeleteThis,
    /// The project switcher at a page.
    SwitchPage(usize),
    /// Switch to the project at an index, then show the switcher at a page.
    UseProject(usize, usize),
    /// The delete picker at a page.
    DeletePage(usize),
    /// Ask to confirm deleting the project at an index (picker page).
    DeletePick(usize, usize),
    /// Delete the project at an index (picker page).
    DeleteConfirm(usize, usize),
    /// Back to the delete picker at a page.
    DeleteCancel(usize),
    /// Wait for a task, to run in the given mode.
    RunInput(Option<RunMode>),
    ModelList,
    ModelSet,
    /// The model picker at a page; `true` when the model list is to be fetched anew.
    ModelPicker(usize, bool),
    /// Use the model at an index, then show the picker at a page.
    ModelUse(usize, usize),
    AgentList,
    AgentSet,
    ThinkingOff,
    ThinkingSet(String),
    SetMode(RunMode),
    /// A picker button whose payload is not two fields: nothing to do.
    Malformed,
    Unknown,
}

/// An index and a page read from a two-field payload: a missing index is out of
/// range (`usize::MAX`), a missing page is the first.
pub open spec fn index_page(a: Seq<char>, b: Seq<char>) -> (usize, usize) {
    (number_or(a, usize::MAX as nat) as usize, number_or(b, 0) as usize)
}

/// The action a button's data asks for.
pub open spec fn callback_action(data: Seq<char>, r: CallbackAction) -> bool {
    if data == "m:home"@ {
        r == CallbackAction::Home
    } else if data == "m:projects"@ {
        r == CallbackAction::ProjectsMenu
    } else if data == "m:run"@ {
        r == CallbackAction::RunMenu
    } else if data == "m:model"@ {
        r == CallbackAction::ModelMenu
    } else if data == "m:agent"@ {
        r == CallbackAction::AgentMenu
    } else if data == "m:thinking"@ {
        r == CallbackAction::ThinkingMenu
    } else if data == "m:mode"@ {
        r == CallbackAction::ModeMenu
    } else if data == "m:status"@ {
        r == CallbackAction::Status
    } else if data == "m:cancel"@ {
        r == CallbackAction::Cancel
    } else if data == "p:new"@ {
        r == CallbackAction::NewProject
    } else if data == "p:list"@ {
        r == CallbackAction::ListProjects
    } else if data == "p:delthis"@ {
        r == CallbackAction::DeleteThis
    } else if has_prefix(data, "p:switch:"@) {
        r == CallbackAction::SwitchPage(number_or(data.skip(9), 0) as usize)
    } else if has_prefix(data, "p:use:"@) {
        match two_fields(data.skip(6)) {
            Some((a, b)) => r == CallbackAction::UseProject(index_page(a, b).0, index_page(a, b).1),
            None => r == CallbackAction::Malformed,
        }
    } else if has_prefix(data, "p:delete:"@) {
        r == CallbackAction::DeletePage(number_or(data.skip(9), 0) as usize)
    } else if has_prefix(data, "p:delpick:"@) {
        match two_fields(data.skip(10)) {
            Some((a, b)) => r == CallbackAction::DeletePick(index_page(a, b).0, index_page(a, b).1),
            None => r == CallbackAction::Malformed,
        }
    } else if has_prefix(data, "p:delconfirm:"@) {
        match two_fields(data.skip(13)) {
            Some((a, b)) => r == CallbackAction::DeleteConfirm(index_page(a, b).0, index_page(a, b).1),
            None => r == CallbackAction::Malformed,
        }
    } else if has_prefix(data, "p:delcancel:"@) {
        r == CallbackAction::DeleteCancel(number_or(data.skip(12), 0) as usize)
    } else if data == "r:input"@ {
        r == CallbackAction::RunInput(None)
    } else if data == "r:input:plan"@ {
        r == CallbackAction::RunInput(Some(RunMode::Plan))
    } else if data == "r:input:build"@ {
        r == CallbackAction::RunInput(Some(RunMode::Build))
    } else if data == "mdl:list"@ {
        r == CallbackAction::ModelList
    } else if data == "mdl:set"@ {
        r == CallbackAction::ModelSet
    } else if data == "mdl:refresh"@ {
        r == CallbackAction::ModelPicker(0, true)
    } else if has_prefix(data, "mdl:pick:"@) {
        r == CallbackAction::ModelPicker(number_or(data.skip(9), 0) as usize, false)
    } else if has_prefix(data, "mdl:use:"@) {
        match two_fields(data.skip(8)) {
            Some((a, b)) => r == CallbackAction::ModelUse(index_page(a, b).0, index_page(a, b).1),
            None => r == CallbackAction::Malformed,
        }
    } else if data == "agt:list"@ {
        r == CallbackAction::AgentList
    } else if data == "agt:set"@ {
        r == CallbackAction::AgentSet
    } else if data == "th:off"@ {
        r == CallbackAction::ThinkingOff
    } else if has_prefix(data, "th:set:"@) {
        r matches CallbackAction::ThinkingSet(v) && v@ == strip_repeated(data, "th:set:"@)
    } else if data == "mode:build"@ {
        r == CallbackAction::SetMode(RunMode::Build)
    } else if data == "mode:plan"@ {
        r == CallbackAction::SetMode(RunMode::Plan)
    } else {
        r == CallbackAction::Unknown
    }
}

fn two_numbers(payload: &[char]) -> (r: Option<(usize, usize)>)
    ensures
        match two_fields(payload@) {
            Some((a, b)) => r == Some(index_page(a, b)),
            None => r is None,
        },
{
    match split_two(payload) {
        Some((a, b)) => Some((parse_or(a, usize::MAX), parse_or(b, 0))),
        None => None,
    }
}

pub fn parse_callback(data: &str) -> (r: CallbackAction)
    ensures
        callback_action(data@, r),
{
    let d = chars_of(data);
    let v = d.as_slice();
    if is_text(v, "m:home") {
        return CallbackAction::Home;
    }
    if is_text(v, "m:projects") {
        return CallbackAction::ProjectsMenu;
    }
    if is_text(v, "m:run") {
        return CallbackAction::RunMenu;
    }
    if is_text(v, "m:model") {
        return CallbackAction::ModelMenu;
    }
    if is_text(v, "m:agent") {
        return CallbackAction::AgentMenu;
    }
    if is_text(v, "m:thinking") {
        return CallbackAction::ThinkingMenu;
    }
    if is_text(v, "m:mode") {
        return CallbackAction::ModeMenu;
    }
    if is_text(v, "m:status") {
        return CallbackAction::Status;
    }
    if is_text(v, "m:cancel") {
        return CallbackAction::Cancel;
    }
    if is_text(v, "p:new") {
        return CallbackAction::NewProject;
    }
    if is_text(v, "p:list") {
        return CallbackAction::ListProjects;
    }
    if is_text(v, "p:delthis") {
        return CallbackAction::DeleteThis;
    }
    proof {
        reveal_strlit("p:switch:");
        reveal_strlit("p:use:");
        reveal_strlit("p:delete:");
        reveal_strlit("p:delpick:");
        reveal_strlit("p:delconfirm:");
        reveal_strlit("p:delcancel:");
        reveal_strlit("mdl:pick:");
        reveal_strlit("mdl:use:");
    }
    if let Some(rest) = strip_text(v, "p:switch:") {
        return CallbackAction::SwitchPage(parse_or(rest, 0));
    }
    if let Some(rest) = strip_text(v, "p:use:") {
        return match two_numbers(rest) {
            Some((i, p)) => CallbackAction::UseProject(i, p),
            None => CallbackAction::Malformed,
        };
    }
    if let Some(rest) = strip_text(v, "p:delete:") {
        return CallbackAction::DeletePage(parse_or(rest, 0));
    }
    if let Some(rest) = strip_text(v, "p:delpick:") {
        return match two_numbers(rest) {
            Some((i, p)) => CallbackAction::DeletePick(i, p),
            None => CallbackAction::Malformed,
        };
    }
    if let Some(rest) = strip_text(v, "p:delconfirm:") {
        return match two_numbers(rest) {
            Some((i, p)) => CallbackAction::DeleteConfirm(i, p),
            None => CallbackAction::Malformed,
        };
    }
    if let Some(rest) = strip_text(v, "p:delcancel:") {
        return CallbackAction::DeleteCancel(parse_or(rest, 0));
    }
    if is_text(v, "r:input") {
        return CallbackAction::RunInput(None);
    }
    if is_text(v, "r:input:plan") {
        return CallbackAction::RunInput(Some(RunMode::Plan));
    }
    if is_text(v, "r:input:build") {
        return CallbackAction::RunInput(Some(RunMode::Build));
    }
    if is_text(v, "mdl:list") {
        return CallbackAction::ModelList;
    }
    if is_text(v, "mdl:set") {
        return CallbackAction::ModelSet;
    }
    if is_text(v, "mdl:refresh") {
        return CallbackAction::ModelPicker(0, true);
    }
    if let Some(rest) = strip_text(v, "mdl:pick:") {
        return CallbackAction::ModelPicker(parse_or(rest, 0), false);
    }
    if let Some(rest) = strip_text(v, "mdl:use:") {
        return match two_numbers(rest) {
            Some((i, p)) => CallbackAction::ModelUse(i, p),
            None => CallbackAction::Malformed,
        };
    }
    if is_text(v, "agt:list") {
        return CallbackAction::AgentList;
    }
    if is_text(v, "agt:set") {
        return CallbackAction::AgentSet;
    }
    if is_text(v, "th:off") {
        return CallbackAction::ThinkingOff;
    }
    if let Some(_) = strip_text(v, "th:set:") {
        return CallbackAction::ThinkingSet(strip_repeated_text(v, "th:set:"));
    }
    if is_text(v, "mode:build") {
        return CallbackAction::SetMode(RunMode::Build);
    }
    if is_text(v, "mode:plan") {
        return CallbackAction::SetMode(RunMode::Plan);
    }
    CallbackAction::Unknown
}

/// The words of a command's arguments (`split_whitespace`).
fn arg_words(args: &str) -> (r: Vec<Vec<char>>)
    ensures
        r@.map_values(|p: Vec<char>| p@) == words(args@),
{
    let v = chars_of(args);
    let ws = split_whitespace(v.as_slice());
    proof {
        assert(ws@.map_values(|p: Vec<char>| p@) =~= words(args@));
    }
    ws
}

/// The first word, lower-cased (`to_lowercase`).
fn first_word_lower(ws: &Vec<Vec<char>>) -> (r: Vec<char>)
    requires
        ws@.len() > 0,
    ensures
        r@ == lowercase(ws@[0]@),
{
    let w = string_from(ws[0].as_slice());
    let l = to_lowercase(w.as_str());
    chars_of(l.as_str())
}

/// The words after the first, joined by single spaces.
fn rest_joined(ws: &Vec<Vec<char>>) -> (r: Vec<char>)
    requires
        ws@.len() > 0,
    ensures
        r@ == join(ws@.map_values(|p: Vec<char>| p@).skip(1), " "@),
{
    let mut rest: Vec<Vec<char>> = Vec::new();
    let mut i: usize = 1;
    let ghost all = ws@.map_values(|p: Vec<char>| p@);
    while i < ws.len()
        invariant
            1 <= i <= ws@.len(),
            all == ws@.map_values(|p: Vec<char>| p@),
            rest@.map_values(|p: Vec<char>| p@) == all.skip(1).take(i - 1),
        decreases ws@.len() - i,
    {
        let ghost before = rest@;
        let w = crate::text::string_from(ws[i].as_slice());
        rest.push(chars_of(w.as_str()));
        proof {
            assert(rest@.map_values(|p: Vec<char>| p@) =~= before.map_values(|p: Vec<char>| p@).push(all[i as int]));
            assert(all.skip(1).take(i as int) =~= all.skip(1).take(i - 1).push(all[i as int]));
        }
        i = i + 1;
    }
    proof {
        assert(all.skip(1).take(ws@.len() - 1) =~= all.skip(1));
    }
    let sp = [' '];
    proof {
        assert(sp@ =~= " "@) by {
            reveal_strlit(" ");
        }
    }
    join_parts(&rest, sp.as_slice())
}

/// What `/agent <args>` asks for.
pub enum AgentRequest {
    /// No arguments: show the current agent.
    ShowCurrent,
    List,
    /// `set` without a name: wait for it.
    AskName,
    SetName(String),
    Usage,
}

pub open spec fn agent_request(args: Seq<char>, r: AgentRequest) -> bool {
    let ws = words(args);
    if ws.len() == 0 {
        r == AgentRequest::ShowCurrent
    } else if lowercase(ws[0]) == "list"@ {
        r == AgentRequest::List
    } else if lowercase(ws[0]) == "set"@ {
        let v = trim(join(ws.skip(1), " "@));
        if v.len() == 0 {
            r == AgentRequest::AskName
        } else {
            r matches AgentRequest::SetName(x) && x@ == v
        }
    } else {
        r == AgentRequest::Usage
    }
}

fn trimmed_text(v: &[char]) -> (r: Option<String>)
    ensures
        match r {
            Some(t) => trim(v@).len() > 0 && t@ == trim(v@),
            None => trim(v@).len() == 0,
        },
{
    let (a, b) = trim_bounds(v);
    if a == b {
        None
    } else {
        Some(string_from(slice_of(v, a, b)))
    }
}

pub fn parse_agent_args(args: &str) -> (r: AgentRequest)
    ensures
        agent_request(args@, r),
{
    let ws = arg_words(args);
    if ws.len() == 0 {
        return AgentRequest::ShowCurrent;
    }
    let first = first_word_lower(&ws);
    if is_text(first.as_slice(), "list") {
        return AgentRequest::List;
    }
    if is_text(first.as_slice(), "set") {
        let value = rest_joined(&ws);
        return match trimmed_text(value.as_slice()) {
            Some(t) => AgentRequest::SetName(t),
            None => AgentRequest::AskName,
        };
    }
    AgentRequest::Usage
}

/// What `/model <args>` asks for.
pub enum ModelRequest {
    /// No arguments: the model picker, from the cached list when it is fresh.
    Picker,
    /// `pick`: the model picker from a newly fetched list.
    Pick,
    /// `list [keyword]`: the models containing the keyword (lower-cased).
    List(String),
    /// `set` without a model: wait for it.
    AskId,
    SetId(String),
    Usage,
}

pub open spec fn model_request(args: Seq<char>, r: ModelRequest) -> bool {
    let ws = words(args);
    if ws.len() == 0 {
        r == ModelRequest::Picker
    } else if lowercase(ws[0]) == "pick"@ {
        r == ModelRequest::Pick
    } else if lowercase(ws[0]) == "list"@ {
        r matches ModelRequest::List(k) && k@ == lowercase(join(ws.skip(1), " "@))
    } else if lowercase(ws[0]) == "set"@ {
        let v = trim(join(ws.skip(1), " "@));
        if v.len() == 0 {
            r == ModelRequest::AskId
        } else {
            r matches ModelRequest::SetId(x) && x@ == v
        }
    } else {
        r == ModelRequest::Usage
    }
}

pub fn parse_model_args(args: &str) -> (r: ModelRequest)
    ensures
        model_request(args@, r),
{
    let ws = arg_words(args);
    if ws.len() == 0 {
        return ModelRequest::Picker;
    }
    let first = first_word_lower(&ws);
    if is_text(first.as_slice(), "pick") {
        return ModelRequest::Pick;
    }
    if is_text(first.as_slice(), "list") {
        let rest = rest_joined(&ws);
        let rs = string_from(rest.as_slice());
        return ModelRequest::List(to_lowercase(rs.as_str()));
    }
    if is_text(first.as_slice(), "set") {
        let value = rest_joined(&ws);
        return match trimmed_text(value.as_slice()) {
            Some(t) => ModelRequest::SetId(t),
            None => ModelRequest::AskId,
        };
    }
    ModelRequest::Usage
}

/// What `/thinking <args>` asks for.
pub enum ThinkingRequest {
    /// No arguments: show the current value.
    ShowCurrent,
    /// `set` without a value: wait for it.
    AskValue,
    SetValue(String),
    /// `off` or `clear`.
    Off,
    Usage,
}

pub open spec fn thinking_request(args: Seq<char>, r: ThinkingRequest) -> bool {
    let ws = words(args);
    if ws.len() == 0 {
        r == ThinkingRequest::ShowCurrent
    } else if lowercase(ws[0]) == "set"@ {
        let v = trim(join(ws.skip(1), " "@));
        if v.len() == 0 {
            r == ThinkingRequest::AskValue
        } else {
            r matches ThinkingRequest::SetValue(x) && x@ == v
        }
    } else if lowercase(ws[0]) == "off"@ || lowercase(ws[0]) == "clear"@ {
        r == ThinkingRequest::Off
    } else {
        r == ThinkingRequest::Usage
    }
}

pub fn parse_thinking_args(args: &str) -> (r: ThinkingRequest)
    ensures
        thinking_request(args@, r),
{
    let ws = arg_words(args);
    if ws.len() == 0 {
        return ThinkingRequest::ShowCurrent;
    }
    let first = first_word_lower(&ws);
    if is_text(first.as_slice(), "set") {
        let value = rest_joined(&ws);
        return match trimmed_text(value.as_slice()) {
            Some(t) => ThinkingRequest::SetValue(t),
            None => ThinkingRequest::AskValue,
        };
    }
    if is_text(first.as_slice(), "off") || is_text(first.as_slice(), "clear") {
        return ThinkingRequest::Off;
    }
    ThinkingRequest::Usage
}

fn lower_trimmed(raw: &str) -> (r: Vec<char>)
    ensures
        r@ == lowercase(trim(raw@)),
{
    let v = chars_of(raw);
    let (a, b) = trim_bounds(v.as_slice());
    let t = string_from(slice_of(v.as_slice(), a, b));
    let l = to_lowercase(t.as_str());
    chars_of(l.as_str())
}

/// The mode `/mode <arg>` selects: "plan", or "build" (also "bulid"), after trimming
/// and lower-casing; `None` shows the mode menu.
pub open spec fn mode_arg(raw: Seq<char>) -> Option<RunMode> {
    let l = lowercase(trim(raw));
    if l == "plan"@ {
        Some(RunMode::Plan)
    } else if l == "build"@ || l == "bulid"@ {
        Some(RunMode::Build)
    } else {
        None
    }
}

pub fn parse_mode_arg(raw: &str) -> (r: Option<RunMode>)
    ensures
        r == mode_arg(raw@),
{
    let l = lower_trimmed(raw);
    if is_text(l.as_slice(), "plan") {
        Some(RunMode::Plan)
    } else if is_text(l.as_slice(), "build") || is_text(l.as_slice(), "bulid") {
        Some(RunMode::Build)
    } else {
        None
    }
}

/// `/del <arg>` asks to delete the current project: the argument is empty, "this",
/// "this-project" or "this project", after trimming and lower-casing.
pub open spec fn deletes_this(raw: Seq<char>) -> bool {
    let l = lowercase(trim(raw));
    l.len() == 0 || l == "this"@ || l == "this-project"@ || l == "this project"@
}

pub fn is_delete_this(raw: &str) -> (r: bool)
    ensures
        r == deletes_this(raw@),
{
    let l = lower_trimmed(raw);
    l.len() == 0 || is_text(l.as_slice(), "this") || is_text(l.as_slice(), "this-project") || is_text(
        l.as_slice(),
        "this project",
    )
}

/// The input the bot waits for from a user after asking for it.
#[derive(Clone, Copy, Debug, PartialEq, Eq, Structural)]
pub enum PendingKind {
    NewProject,
    RunTask,
    SetModel,
    SetAgent,
    SetThinking,
}

/// An awaited input: what it is for, the mode a task is to run in, and when it was asked.
#[derive(Clone, Copy, Debug)]
pub struct PendingInput {
    pub kind: PendingKind,
    pub mode_override: Option<RunMode>,
    pub created_at: i64,
}

/// How long an awaited input is waited for, in milliseconds (ten minutes).
pub const PENDING_TTL_MS: i64 = 600000;

/// An awaited input asked for at `created_at` is still waited for at `now`.
pub open spec fn pending_alive(created_at: i64, now: i64) -> bool {
    now - created_at <= PENDING_TTL_MS
}

pub fn is_pending_alive(p: &PendingInput, now: i64) -> (r: bool)
    requires
        i64::MIN <= now - p.created_at <= i64::MAX,
    ensures
        r == pending_alive(p.created_at, now),
{
    now - p.created_at <= PENDING_TTL_MS
}

/// How long a fetched model list is used before it is fetched again (five minutes).
pub const MODEL_CACHE_TTL_MS: i64 = 300000;

/// A model list fetched at `updated_at` is still used at `now`.
pub open spec fn cache_fresh(updated_at: i64, now: i64) -> bool {
    now - updated_at < MODEL_CACHE_TTL_MS
}

pub fn is_cache_fresh(updated_at: i64, now: i64) -> (r: bool)
    requires
        i64::MIN <= now - updated_at <= i64::MAX,
    ensures
        r == cache_fresh(updated_at, now),
{
    now - updated_at < MODEL_CACHE_TTL_MS
}

/// What the bot does with a plain message.
pub enum TextAction {
    /// A command (it starts with '/'): left to the command handler.
    Ignore,
    /// "cancel" while an input is awaited: stop waiting.
    CancelPending,
    CreateProject(String),
    RunTask(String, Option<RunMode>),
    SetModel(String),
    SetAgent(String),
    SetThinking(Option<String>),
    /// "ping": answer "pong".
    Pong,
}

/// The action for a plain message `text`, given the input still awaited from its
/// sender, if any: an awaited input takes the message ("cancel", in any ASCII case,
/// stops waiting; for thinking, "off" or "clear" switch it off); otherwise "ping"
/// is answered and anything else is run as a task.
pub open spec fn text_action(text: Seq<char>, pending: Option<PendingInput>, r: TextAction) -> bool {
    if text.len() > 0 && text[0] == '/' {
        r == TextAction::Ignore
    } else if pending is Some {
        let p = pending->0;
        if eq_ignore_ascii_case(text, "cancel"@) {
            r == TextAction::CancelPending
        } else {
            match p.kind {
                PendingKind::NewProject => r matches TextAction::CreateProject(t) && t@ == text,
                PendingKind::RunTask => r matches TextAction::RunTask(t, m) && t@ == text && m == p.mode_override,
                PendingKind::SetModel => r matches TextAction::SetModel(t) && t@ == text,
                PendingKind::SetAgent => r matches TextAction::SetAgent(t) && t@ == text,
                PendingKind::SetThinking => if eq_ignore_ascii_case(text, "off"@) || eq_ignore_ascii_case(text, "clear"@) {
                    r == TextAction::SetThinking(None)
                } else {
                    r matches TextAction::SetThinking(Some(t)) && t@ == text
                },
            }
        }
    } else if eq_ignore_ascii_case(text, "ping"@) {
        r == TextAction::Pong
    } else {
        r matches TextAction::RunTask(t, None) && t@ == text
    }
}

pub fn plain_text_action(text: &str, pending: Option<PendingInput>) -> (r: TextAction)
    ensures
        text_action(text@, pending, r),
{
    let v = chars_of(text);
    if v.len() > 0 && v[0] == '/' {
        return TextAction::Ignore;
    }
    let cancel = literal("cancel");
    let off = literal("off");
    let clear = literal("clear");
    let ping = literal("ping");
    match pending {
        Some(p) => {
            if chars_eq_ignore_ascii_case(v.as_slice(), cancel.as_slice()) {
                return TextAction::CancelPending;
            }
            match p.kind {
                PendingKind::NewProject => TextAction::CreateProject(owned(text)),
                PendingKind::RunTask => TextAction::RunTask(owned(text), p.mode_override),
                PendingKind::SetModel => TextAction::SetModel(owned(text)),
                PendingKind::SetAgent => TextAction::SetAgent(owned(text)),
                PendingKind::SetThinking => {
                    if chars_eq_ignore_ascii_case(v.as_slice(), off.as_slice()) || chars_eq_ignore_ascii_case(
                        v.as_slice(),
                        clear.as_slice(),
                    ) {
                        TextAction::SetThinking(None)
                    } else {
                        TextAction::SetThinking(Some(owned(text)))
                    }
                },
            }
        },
        None => {
            if chars_eq_ignore_ascii_case(v.as_slice(), ping.as_slice()) {
                TextAction::Pong
            } else {
                TextAction::RunTask(owned(text), None)
            }
        },
    }
}

proof fn lemma_differs_at(d: Seq<char>, lit: Seq<char>, k: int)
    requires
        0 <= k < d.len(),
        0 <= k < lit.len(),
        d[k] != lit[k],
    ensures
        d != lit,
        !has_prefix(d, lit),
{
    if has_prefix(d, lit) {
        assert(d.take(lit.len() as int)[k] == d[k]);
    }
}

proof fn lemma_count_concat(a: Seq<char>, b: Seq<char>, c: char)
    ensures
        count_char(a + b, c) == count_char(a, c) + count_char(b, c),
    decreases b.len(),
{
    if b.len() > 0 {
        lemma_count_concat(a, b.drop_last(), c);
        assert((a + b).drop_last() =~= a + b.drop_last());
    } else {
        assert(a + b =~= a);
    }
}

/// Two numbers written by the bot with a ':' between them are read back as the same
/// index and page.
proof fn lemma_two_numbers(i: nat, page: nat)
    requires
        i <= usize::MAX,
        page <= usize::MAX,
    ensures
        two_fields(decimal(i) + ":"@ + decimal(page)) == Some((decimal(i), decimal(page))),
        index_page(decimal(i), decimal(page)) == (i as usize, page as usize),
{
    reveal_strlit(":");
    let a = decimal(i);
    let b = decimal(page);
    let s = a + ":"@ + b;
    lemma_decimal_digits(i);
    lemma_decimal_digits(page);
    lemma_count_zero(a, ':');
    lemma_count_zero(b, ':');
    lemma_count_concat(a, ":"@, ':');
    lemma_count_concat(a + ":"@, b, ':');
    let colon = ":"@;
    assert(colon.len() == 1 && colon[0] == ':');
    assert(colon.drop_last() =~= Seq::<char>::empty());
    assert(count_char(colon.drop_last(), ':') == 0);
    assert(colon.last() == ':');
    assert(count_char(colon, ':') == 1);
    assert(s[a.len() as int] == ':');
    lemma_count_positive(s, ':', a.len() as int);
    let p = choose|p: int| 0 <= p < s.len() && s[p] == ':';
    assert(p == a.len());
    assert(s.take(p) =~= a);
    assert(s.skip(p + 1) =~= b);
    law_parse_decimal(i);
    law_parse_decimal(page);
}

proof fn lemma_number_suffix(p: Seq<char>, n: nat)
    requires
        n <= usize::MAX,
    ensures
        has_prefix(p + decimal(n), p),
        (p + decimal(n)).skip(p.len() as int) == decimal(n),
        number_or(decimal(n), 0) == n,
{
    assert((p + decimal(n)).take(p.len() as int) =~= p);
    assert((p + decimal(n)).skip(p.len() as int) =~= decimal(n));
    law_parse_decimal(n);
}

proof fn lemma_pair_suffix(p: Seq<char>, i: nat, page: nat)
    requires
        i <= usize::MAX,
        page <= usize::MAX,
    ensures
        has_prefix(p + decimal(i) + ":"@ + decimal(page), p),
        (p + decimal(i) + ":"@ + decimal(page)).skip(p.len() as int) == decimal(i) + ":"@ + decimal(page),
{
    let d = p + decimal(i) + ":"@ + decimal(page);
    assert(d.take(p.len() as int) =~= p);
    assert(d.skip(p.len() as int) =~= decimal(i) + ":"@ + decimal(page));
}

/// The data of a project switcher's item button reads back as its index and page.
pub proof fn law_switch_item_reads_back(i: nat, page: nat, r: CallbackAction)
    requires
        i <= usize::MAX,
        page <= usize::MAX,
        callback_action("p:use:"@ + decimal(i) + ":"@ + decimal(page), r),
    ensures
        r == CallbackAction::UseProject(i as usize, page as usize),
{
    let d = "p:use:"@ + decimal(i) + ":"@ + decimal(page);
    reveal_strlit("p:use:");
    lemma_pair_suffix("p:use:"@, i, page);
    lemma_two_numbers(i, page);
    assert(d.len() > 6 && d[0] == 'p' && d[1] == ':' && d[2] == 'u');
    reveal_strlit("m:home");
    reveal_strlit("m:projects");
    reveal_strlit("m:run");
    reveal_strlit("m:model");
    reveal_strlit("m:agent");
    reveal_strlit("m:thinking");
    reveal_strlit("m:mode");
    reveal_strlit("m:status");
    reveal_strlit("m:cancel");
    reveal_strlit("p:new");
    reveal_strlit("p:list");
    reveal_strlit("p:delthis");
    reveal_strlit("p:switch:");
    lemma_differs_at(d, "m:home"@, 0);
    lemma_differs_at(d, "m:projects"@, 0);
    lemma_differs_at(d, "m:run"@, 0);
    lemma_differs_at(d, "m:model"@, 0);
    lemma_differs_at(d, "m:agent"@, 0);
    lemma_differs_at(d, "m:thinking"@, 0);
    lemma_differs_at(d, "m:mode"@, 0);
    lemma_differs_at(d, "m:status"@, 0);
    lemma_differs_at(d, "m:cancel"@, 0);
    lemma_differs_at(d, "p:new"@, 2);
    lemma_differs_at(d, "p:list"@, 2);
    lemma_differs_at(d, "p:delthis"@, 2);
    lemma_differs_at(d, "p:switch:"@, 2);
}

/// The data of a project switcher's page button reads back as its page.
pub proof fn law_switch_page_reads_back(page: nat, r: CallbackAction)
    requires
        page <= usize::MAX,
        callback_action("p:switch:"@ + decimal(page), r),
    ensures
        r == CallbackAction::SwitchPage(page as usize),
{
    let d = "p:switch:"@ + decimal(page);
    reveal_strlit("p:switch:");
    lemma_number_suffix("p:switch:"@, page);
    lemma_decimal_digits(page);
    assert(d.len() > 9 && d[0] == 'p' && d[1] == ':' && d[2] == 's');
    reveal_strlit("m:home");
    reveal_strlit("m:projects");
    reveal_strlit("m:run");
    reveal_strlit("m:model");
    reveal_strlit("m:agent");
    reveal_strlit("m:thinking");
    reveal_strlit("m:mode");
    reveal_strlit("m:status");
    reveal_strlit("m:cancel");
    reveal_strlit("p:new");
    reveal_strlit("p:list");
    reveal_strlit("p:delthis");
    lemma_differs_at(d, "m:home"@, 0);
    lemma_differs_at(d, "m:projects"@, 0);
    lemma_differs_at(d, "m:run"@, 0);
    lemma_differs_at(d, "m:model"@, 0);
    lemma_differs_at(d, "m:agent"@, 0);
    lemma_differs_at(d, "m:thinking"@, 0);
    lemma_differs_at(d, "m:mode"@, 0);
    lemma_differs_at(d, "m:status"@, 0);
    lemma_differs_at(d, "m:cancel"@, 0);
    lemma_differs_at(d, "p:new"@, 2);
    lemma_differs_at(d, "p:list"@, 2);
    lemma_differs_at(d, "p:delthis"@, 2);
}

proof fn lemma_not_main_menu(d: Seq<char>)
    requires
        d.len() > 1,
        d[0] != 'm' || d[1] != ':',
    ensures
        d != "m:home"@,
        d != "m:projects"@,
        d != "m:run"@,
        d != "m:model"@,
        d != "m:agent"@,
        d != "m:thinking"@,
        d != "m:mode"@,
        d != "m:status"@,
        d != "m:cancel"@,
{
    reveal_strlit("m:home");
    reveal_strlit("m:projects");
    reveal_strlit("m:run");
    reveal_strlit("m:model");
    reveal_strlit("m:agent");
    reveal_strlit("m:thinking");
    reveal_strlit("m:mode");
    reveal_strlit("m:status");
    reveal_strlit("m:cancel");
    let k: int = if d[0] != 'm' { 0 } else { 1 };
    lemma_differs_at(d, "m:home"@, k);
    lemma_differs_at(d, "m:projects"@, k);
    lemma_differs_at(d, "m:run"@, k);
    lemma_differs_at(d, "m:model"@, k);
    lemma_differs_at(d, "m:agent"@, k);
    lemma_differs_at(d, "m:thinking"@, k);
    lemma_differs_at(d, "m:mode"@, k);
    lemma_differs_at(d, "m:status"@, k);
    lemma_differs_at(d, "m:cancel"@, k);
}

/// Data that starts "p:del" but goes on otherwise than the named literals is none
/// of the project-menu buttons before the delete pickers.
proof fn lemma_not_project_menu(d: Seq<char>)
    requires
        d.len() > 6,
        d[0] == 'p' && d[1] == ':' && d[2] == 'd' && d[3] == 'e' && d[4] == 'l',
        d[5] != 't',
    ensures
        d != "p:new"@,
        d != "p:list"@,
        d != "p:delthis"@,
        !has_prefix(d, "p:switch:"@),
        !has_prefix(d, "p:use:"@),
{
    reveal_strlit("p:new");
    reveal_strlit("p:list");
    reveal_strlit("p:delthis");
    reveal_strlit("p:switch:");
    reveal_strlit("p:use:");
    lemma_not_main_menu(d);
    lemma_differs_at(d, "p:new"@, 2);
    lemma_differs_at(d, "p:list"@, 2);
    lemma_differs_at(d, "p:delthis"@, 5);
    lemma_differs_at(d, "p:switch:"@, 2);
    lemma_differs_at(d, "p:use:"@, 2);
}

/// The data of a delete picker's page button reads back as its page.
pub proof fn law_delete_page_reads_back(page: nat, r: CallbackAction)
    requires
        page <= usize::MAX,
        callback_action("p:delete:"@ + decimal(page), r),
    ensures
        r == CallbackAction::DeletePage(page as usize),
{
    let d = "p:delete:"@ + decimal(page);
    reveal_strlit("p:delete:");
    lemma_number_suffix("p:delete:"@, page);
    lemma_decimal_digits(page);
    assert(d.len() > 9 && d[0] == 'p' && d[1] == ':' && d[2] == 'd' && d[3] == 'e' && d[4] == 'l' && d[5] == 'e');
    lemma_not_main_menu(d);
    lemma_not_project_menu(d);
}

/// The data of a delete picker's item button reads back as its index and page.
pub proof fn law_delete_item_reads_back(i: nat, page: nat, r: CallbackAction)
    requires
        i <= usize::MAX,
        page <= usize::MAX,
        callback_action("p:delpick:"@ + decimal(i) + ":"@ + decimal(page), r),
    ensures
        r == CallbackAction::DeletePick(i as usize, page as usize),
{
    let d = "p:delpick:"@ + decimal(i) + ":"@ + decimal(page);
    reveal_strlit("p:delpick:");
    reveal_strlit("p:delete:");
    lemma_pair_suffix("p:delpick:"@, i, page);
    lemma_two_numbers(i, page);
    assert(d.len() > 10 && d[0] == 'p' && d[1] == ':' && d[2] == 'd' && d[3] == 'e' && d[4] == 'l' && d[5] == 'p');
    lemma_not_main_menu(d);
    lemma_not_project_menu(d);
    lemma_differs_at(d, "p:delete:"@, 5);
}

/// The data of the confirmation buttons reads back as the index and page they were
/// made for.
pub proof fn law_delete_confirm_reads_back(i: nat, page: nat, r1: CallbackAction, r2: CallbackAction)
    requires
        i <= usize::MAX,
        page <= usize::MAX,
        callback_action("p:delconfirm:"@ + decimal(i) + ":"@ + decimal(page), r1),
        callback_action("p:delcancel:"@ + decimal(page), r2),
    ensures
        r1 == CallbackAction::DeleteConfirm(i as usize, page as usize),
        r2 == CallbackAction::DeleteCancel(page as usize),
{
    reveal_strlit("p:delconfirm:");
    reveal_strlit("p:delcancel:");
    reveal_strlit("p:delete:");
    reveal_strlit("p:delpick:");
    let d1 = "p:delconfirm:"@ + decimal(i) + ":"@ + decimal(page);
    lemma_pair_suffix("p:delconfirm:"@, i, page);
    lemma_two_numbers(i, page);
    assert(d1.len() > 13 && d1[0] == 'p' && d1[1] == ':' && d1[2] == 'd' && d1[3] == 'e' && d1[4] == 'l' && d1[5] == 'c');
    lemma_not_main_menu(d1);
    lemma_not_project_menu(d1);
    lemma_differs_at(d1, "p:delete:"@, 5);
    lemma_differs_at(d1, "p:delpick:"@, 5);
    let d2 = "p:delcancel:"@ + decimal(page);
    lemma_number_suffix("p:delcancel:"@, page);
    lemma_decimal_digits(page);
    assert(d2.len() > 12 && d2[0] == 'p' && d2[1] == ':' && d2[2] == 'd' && d2[3] == 'e' && d2[4] == 'l' && d2[5] == 'c' && d2[6] == 'a');
    lemma_not_main_menu(d2);
    lemma_not_project_menu(d2);
    lemma_differs_at(d2, "p:delete:"@, 5);
    lemma_differs_at(d2, "p:delpick:"@, 5);
    lemma_differs_at(d2, "p:delconfirm:"@, 6);
}

/// Data that starts "mdl:" is none of the buttons checked before the model buttons.
proof fn lemma_not_before_models(d: Seq<char>)
    requires
        d.len() > 4,
        d[0] == 'm' && d[1] == 'd' && d[2] == 'l' && d[3] == ':',
    ensures
        d != "p:new"@,
        d != "p:list"@,
        d != "p:delthis"@,
        !has_prefix(d, "p:switch:"@),
        !has_prefix(d, "p:use:"@),
        !has_prefix(d, "p:delete:"@),
        !has_prefix(d, "p:delpick:"@),
        !has_prefix(d, "p:delconfirm:"@),
        !has_prefix(d, "p:delcancel:"@),
        d != "r:input"@,
        d != "r:input:plan"@,
        d != "r:input:build"@,
{
    reveal_strlit("p:new");
    reveal_strlit("p:list");
    reveal_strlit("p:delthis");
    reveal_strlit("p:switch:");
    reveal_strlit("p:use:");
    reveal_strlit("p:delete:");
    reveal_strlit("p:delpick:");
    reveal_strlit("p:delconfirm:");
    reveal_strlit("p:delcancel:");
    reveal_strlit("r:input");
    reveal_strlit("r:input:plan");
    reveal_strlit("r:input:build");
    lemma_not_main_menu(d);
    lemma_differs_at(d, "p:new"@, 0);
    lemma_differs_at(d, "p:list"@, 0);
    lemma_differs_at(d, "p:delthis"@, 0);
    lemma_differs_at(d, "p:switch:"@, 0);
    lemma_differs_at(d, "p:use:"@, 0);
    lemma_differs_at(d, "p:delete:"@, 0);
    lemma_differs_at(d, "p:delpick:"@, 0);
    lemma_differs_at(d, "p:delconfirm:"@, 0);
    lemma_differs_at(d, "p:delcancel:"@, 0);
    lemma_differs_at(d, "r:input"@, 0);
    lemma_differs_at(d, "r:input:plan"@, 0);
    lemma_differs_at(d, "r:input:build"@, 0);
}

/// The data of a model picker's page button reads back as its page (the cached
/// list is used).
pub proof fn law_model_page_reads_back(page: nat, r: CallbackAction)
    requires
        page <= usize::MAX,
        callback_action("mdl:pick:"@ + decimal(page), r),
    ensures
        r == CallbackAction::ModelPicker(page as usize, false),
{
    let d = "mdl:pick:"@ + decimal(page);
    reveal_strlit("mdl:pick:");
    reveal_strlit("mdl:list");
    reveal_strlit("mdl:set");
    reveal_strlit("mdl:refresh");
    lemma_number_suffix("mdl:pick:"@, page);
    lemma_decimal_digits(page);
    assert(d.len() > 9 && d[0] == 'm' && d[1] == 'd' && d[2] == 'l' && d[3] == ':' && d[4] == 'p');
    lemma_not_main_menu(d);
    lemma_not_before_models(d);
    lemma_differs_at(d, "mdl:list"@, 4);
    lemma_differs_at(d, "mdl:set"@, 4);
    lemma_differs_at(d, "mdl:refresh"@, 4);
}

/// The data of a model picker's item button reads back as its index and page.
pub proof fn law_model_item_reads_back(i: nat, page: nat, r: CallbackAction)
    requires
        i <= usize::MAX,
        page <= usize::MAX,
        callback_action("mdl:use:"@ + decimal(i) + ":"@ + decimal(page), r),
    ensures
        r == CallbackAction::ModelUse(i as usize, page as usize),
{
    let d = "mdl:use:"@ + decimal(i) + ":"@ + decimal(page);
    reveal_strlit("mdl:use:");
    reveal_strlit("mdl:list");
    reveal_strlit("mdl:set");
    reveal_strlit("mdl:refresh");
    reveal_strlit("mdl:pick:");
    lemma_pair_suffix("mdl:use:"@, i, page);
    lemma_two_numbers(i, page);
    assert(d.len() > 8 && d[0] == 'm' && d[1] == 'd' && d[2] == 'l' && d[3] == ':' && d[4] == 'u');
    lemma_not_main_menu(d);
    lemma_not_before_models(d);
    lemma_differs_at(d, "mdl:list"@, 4);
    lemma_differs_at(d, "mdl:set"@, 4);
    lemma_differs_at(d, "mdl:refresh"@, 4);
    lemma_differs_at(d, "mdl:pick:"@, 4);
}

/// Data that does not start with 'p' or 'r' is none of the project and run buttons.
proof fn lemma_not_project_or_run(d: Seq<char>)
    requires
        d.len() > 0,
        d[0] != 'p',
        d[0] != 'r',
    ensures
        d != "p:new"@,
        d != "p:list"@,
        d != "p:delthis"@,
        !has_prefix(d, "p:switch:"@),
        !has_prefix(d, "p:use:"@),
        !has_prefix(d, "p:delete:"@),
        !has_prefix(d, "p:delpick:"@),
        !has_prefix(d, "p:delconfirm:"@),
        !has_prefix(d, "p:delcancel:"@),
        d != "r:input"@,
        d != "r:input:plan"@,
        d != "r:input:build"@,
{
    reveal_strlit("p:new");
    reveal_strlit("p:list");
    reveal_strlit("p:delthis");
    reveal_strlit("p:switch:");
    reveal_strlit("p:use:");
    reveal_strlit("p:delete:");
    reveal_strlit("p:delpick:");
    reveal_strlit("p:delconfirm:");
    reveal_strlit("p:delcancel:");
    reveal_strlit("r:input");
    reveal_strlit("r:input:plan");
    reveal_strlit("r:input:build");
    lemma_differs_at(d, "p:new"@, 0);
    lemma_differs_at(d, "p:list"@, 0);
    lemma_differs_at(d, "p:delthis"@, 0);
    lemma_differs_at(d, "p:switch:"@, 0);
    lemma_differs_at(d, "p:use:"@, 0);
    lemma_differs_at(d, "p:delete:"@, 0);
    lemma_differs_at(d, "p:delpick:"@, 0);
    lemma_differs_at(d, "p:delconfirm:"@, 0);
    lemma_differs_at(d, "p:delcancel:"@, 0);
    lemma_differs_at(d, "r:input"@, 0);
    lemma_differs_at(d, "r:input:plan"@, 0);
    lemma_differs_at(d, "r:input:build"@, 0);
}

/// Data that does not start with "md" is none of the model buttons.
proof fn lemma_not_model(d: Seq<char>)
    requires
        d.len() > 1,
        d[0] != 'm' || d[1] != 'd',
    ensures
        d != "mdl:list"@,
        d != "mdl:set"@,
        d != "mdl:refresh"@,
        !has_prefix(d, "mdl:pick:"@),
        !has_prefix(d, "mdl:use:"@),
{
    reveal_strlit("mdl:list");
    reveal_strlit("mdl:set");
    reveal_strlit("mdl:refresh");
    reveal_strlit("mdl:pick:");
    reveal_strlit("mdl:use:");
    let k: int = if d[0] != 'm' { 0 } else { 1 };
    lemma_differs_at(d, "mdl:list"@, k);
    lemma_differs_at(d, "mdl:set"@, k);
    lemma_differs_at(d, "mdl:refresh"@, k);
    lemma_differs_at(d, "mdl:pick:"@, k);
    lemma_differs_at(d, "mdl:use:"@, k);
}

/// Data that starts with neither 'a' nor 't' is none of the agent and thinking buttons.
proof fn lemma_not_agent_or_thinking(d: Seq<char>)
    requires
        d.len() > 0,
        d[0] != 'a',
        d[0] != 't',
    ensures
        d != "agt:list"@,
        d != "agt:set"@,
        d != "th:off"@,
        !has_prefix(d, "th:set:"@),
{
    reveal_strlit("agt:list");
    reveal_strlit("agt:set");
    reveal_strlit("th:off");
    reveal_strlit("th:set:");
    lemma_differs_at(d, "agt:list"@, 0);
    lemma_differs_at(d, "agt:set"@, 0);
    lemma_differs_at(d, "th:off"@, 0);
    lemma_differs_at(d, "th:set:"@, 0);
}

/// The buttons of the main menu open the menus they name.
pub proof fn law_main_menu_buttons_read_back(r: CallbackAction)
    ensures
        callback_action("m:projects"@, r) ==> r == CallbackAction::ProjectsMenu,
        callback_action("m:run"@, r) ==> r == CallbackAction::RunMenu,
        callback_action("m:model"@, r) ==> r == CallbackAction::ModelMenu,
        callback_action("m:agent"@, r) ==> r == CallbackAction::AgentMenu,
        callback_action("m:thinking"@, r) ==> r == CallbackAction::ThinkingMenu,
        callback_action("m:mode"@, r) ==> r == CallbackAction::ModeMenu,
        callback_action("m:status"@, r) ==> r == CallbackAction::Status,
        callback_action("m:cancel"@, r) ==> r == CallbackAction::Cancel,
        callback_action("m:home"@, r) ==> r == CallbackAction::Home,
{
    reveal_strlit("m:home");
    reveal_strlit("m:projects");
    reveal_strlit("m:run");
    reveal_strlit("m:model");
    reveal_strlit("m:agent");
    reveal_strlit("m:thinking");
    reveal_strlit("m:mode");
    reveal_strlit("m:status");
    reveal_strlit("m:cancel");
    lemma_differs_at("m:projects"@, "m:home"@, 2);
    lemma_differs_at("m:run"@, "m:home"@, 2);
    lemma_differs_at("m:run"@, "m:projects"@, 2);
    lemma_differs_at("m:model"@, "m:projects"@, 2);
    lemma_differs_at("m:model"@, "m:run"@, 2);
    lemma_differs_at("m:agent"@, "m:home"@, 2);
    lemma_differs_at("m:agent"@, "m:projects"@, 2);
    lemma_differs_at("m:agent"@, "m:run"@, 2);
    lemma_differs_at("m:agent"@, "m:model"@, 2);
    lemma_differs_at("m:thinking"@, "m:home"@, 2);
    lemma_differs_at("m:thinking"@, "m:projects"@, 2);
    lemma_differs_at("m:thinking"@, "m:run"@, 2);
    lemma_differs_at("m:thinking"@, "m:model"@, 2);
    lemma_differs_at("m:thinking"@, "m:agent"@, 2);
    lemma_differs_at("m:mode"@, "m:home"@, 2);
    lemma_differs_at("m:mode"@, "m:projects"@, 2);
    lemma_differs_at("m:mode"@, "m:run"@, 2);
    lemma_differs_at("m:mode"@, "m:agent"@, 2);
    lemma_differs_at("m:mode"@, "m:thinking"@, 2);
    lemma_differs_at("m:status"@, "m:home"@, 2);
    lemma_differs_at("m:status"@, "m:projects"@, 2);
    lemma_differs_at("m:status"@, "m:run"@, 2);
    lemma_differs_at("m:status"@, "m:model"@, 2);
    lemma_differs_at("m:status"@, "m:agent"@, 2);
    lemma_differs_at("m:status"@, "m:thinking"@, 2);
    lemma_differs_at("m:status"@, "m:mode"@, 2);
    lemma_differs_at("m:cancel"@, "m:home"@, 2);
    lemma_differs_at("m:cancel"@, "m:projects"@, 2);
    lemma_differs_at("m:cancel"@, "m:run"@, 2);
    lemma_differs_at("m:cancel"@, "m:model"@, 2);
    lemma_differs_at("m:cancel"@, "m:agent"@, 2);
    lemma_differs_at("m:cancel"@, "m:thinking"@, 2);
    lemma_differs_at("m:cancel"@, "m:mode"@, 2);
    lemma_differs_at("m:cancel"@, "m:status"@, 2);
}

/// The buttons of the projects menu and of the run menu ask for what they name.
pub proof fn law_project_and_run_buttons_read_back(r: CallbackAction)
    ensures
        callback_action("p:new"@, r) ==> r == CallbackAction::NewProject,
        callback_action("p:list"@, r) ==> r == CallbackAction::ListProjects,
        callback_action("p:delthis"@, r) ==> r == CallbackAction::DeleteThis,
        callback_action("p:switch:0"@, r) ==> r == CallbackAction::SwitchPage(0),
        callback_action("r:input"@, r) ==> r == CallbackAction::RunInput(None),
        callback_action("r:input:plan"@, r) ==> r == CallbackAction::RunInput(Some(RunMode::Plan)),
        callback_action("r:input:build"@, r) ==> r == CallbackAction::RunInput(Some(RunMode::Build)),
{
    reveal_strlit("p:new");
    reveal_strlit("p:list");
    reveal_strlit("p:delthis");
    reveal_strlit("p:switch:0");
    reveal_strlit("p:switch:");
    reveal_strlit("p:use:");
    reveal_strlit("p:delete:");
    reveal_strlit("p:delpick:");
    reveal_strlit("p:delconfirm:");
    reveal_strlit("p:delcancel:");
    reveal_strlit("r:input");
    reveal_strlit("r:input:plan");
    reveal_strlit("r:input:build");
    lemma_not_main_menu("p:new"@);
    lemma_not_main_menu("p:list"@);
    lemma_differs_at("p:list"@, "p:new"@, 2);
    lemma_not_main_menu("p:delthis"@);
    lemma_differs_at("p:delthis"@, "p:new"@, 2);
    lemma_differs_at("p:delthis"@, "p:list"@, 2);
    let sw = "p:switch:0"@;
    lemma_not_main_menu(sw);
    lemma_differs_at(sw, "p:new"@, 2);
    lemma_differs_at(sw, "p:list"@, 2);
    lemma_differs_at(sw, "p:delthis"@, 2);
    lemma_number_suffix("p:switch:"@, 0);
    assert(decimal(0) == seq!['0']);
    assert(sw =~= "p:switch:"@ + decimal(0));
    let ri = "r:input"@;
    let rp = "r:input:plan"@;
    let rb = "r:input:build"@;
    lemma_not_main_menu(ri);
    lemma_not_main_menu(rp);
    lemma_not_main_menu(rb);
    lemma_not_project_menu_literals(ri);
    lemma_not_project_menu_literals(rp);
    lemma_not_project_menu_literals(rb);
    lemma_differs_at(rb, rp, 8);
}

/// Data that starts with 'r' is none of the buttons that start with "p:".
proof fn lemma_not_project_menu_literals(d: Seq<char>)
    requires
        d.len() > 0,
        d[0] == 'r',
    ensures
        d != "p:new"@,
        d != "p:list"@,
        d != "p:delthis"@,
        !has_prefix(d, "p:switch:"@),
        !has_prefix(d, "p:use:"@),
        !has_prefix(d, "p:delete:"@),
        !has_prefix(d, "p:delpick:"@),
        !has_prefix(d, "p:delconfirm:"@),
        !has_prefix(d, "p:delcancel:"@),
{
    reveal_strlit("p:new");
    reveal_strlit("p:list");
    reveal_strlit("p:delthis");
    reveal_strlit("p:switch:");
    reveal_strlit("p:use:");
    reveal_strlit("p:delete:");
    reveal_strlit("p:delpick:");
    reveal_strlit("p:delconfirm:");
    reveal_strlit("p:delcancel:");
    lemma_differs_at(d, "p:new"@, 0);
    lemma_differs_at(d, "p:list"@, 0);
    lemma_differs_at(d, "p:delthis"@, 0);
    lemma_differs_at(d, "p:switch:"@, 0);
    lemma_differs_at(d, "p:use:"@, 0);
    lemma_differs_at(d, "p:delete:"@, 0);
    lemma_differs_at(d, "p:delpick:"@, 0);
    lemma_differs_at(d, "p:delconfirm:"@, 0);
    lemma_differs_at(d, "p:delcancel:"@, 0);
}

/// The buttons of the model and agent menus, the pickers' footers, and the mode
/// menu ask for what they name.
pub proof fn law_model_agent_mode_buttons_read_back(r: CallbackAction)
    ensures
        callback_action("mdl:pick:0"@, r) ==> r == CallbackAction::ModelPicker(0, false),
        callback_action("mdl:list"@, r) ==> r == CallbackAction::ModelList,
        callback_action("mdl:set"@, r) ==> r == CallbackAction::ModelSet,
        callback_action("mdl:refresh"@, r) ==> r == CallbackAction::ModelPicker(0, true),
        callback_action("agt:list"@, r) ==> r == CallbackAction::AgentList,
        callback_action("agt:set"@, r) ==> r == CallbackAction::AgentSet,
        callback_action("mode:build"@, r) ==> r == CallbackAction::SetMode(RunMode::Build),
        callback_action("mode:plan"@, r) ==> r == CallbackAction::SetMode(RunMode::Plan),
{
    reveal_strlit("mdl:pick:0");
    reveal_strlit("mdl:pick:");
    reveal_strlit("mdl:list");
    reveal_strlit("mdl:set");
    reveal_strlit("mdl:refresh");
    reveal_strlit("mdl:use:");
    reveal_strlit("agt:list");
    reveal_strlit("agt:set");
    reveal_strlit("th:off");
    reveal_strlit("th:set:");
    reveal_strlit("mode:build");
    reveal_strlit("mode:plan");
    let mp = "mdl:pick:0"@;
    let ml = "mdl:list"@;
    let ms = "mdl:set"@;
    let mr = "mdl:refresh"@;
    lemma_not_main_menu(mp);
    lemma_not_before_models(mp);
    lemma_differs_at(mp, ml, 4);
    lemma_differs_at(mp, ms, 4);
    lemma_differs_at(mp, mr, 4);
    lemma_number_suffix("mdl:pick:"@, 0);
    assert(decimal(0) == seq!['0']);
    assert(mp =~= "mdl:pick:"@ + decimal(0));
    lemma_not_main_menu(ml);
    lemma_not_before_models(ml);
    lemma_not_main_menu(ms);
    lemma_not_before_models(ms);
    lemma_differs_at(ms, ml, 4);
    lemma_not_main_menu(mr);
    lemma_not_before_models(mr);
    lemma_differs_at(mr, ml, 4);
    lemma_differs_at(mr, ms, 4);
    let al = "agt:list"@;
    let aset = "agt:set"@;
    lemma_not_main_menu(al);
    lemma_not_project_or_run(al);
    lemma_not_model(al);
    lemma_not_main_menu(aset);
    lemma_not_project_or_run(aset);
    lemma_not_model(aset);
    lemma_differs_at(aset, al, 4);
    let mb = "mode:build"@;
    let mpl = "mode:plan"@;
    lemma_not_main_menu(mb);
    lemma_not_project_or_run(mb);
    lemma_not_model(mb);
    lemma_not_agent_or_thinking(mb);
    lemma_not_main_menu(mpl);
    lemma_not_project_or_run(mpl);
    lemma_not_model(mpl);
    lemma_not_agent_or_thinking(mpl);
    lemma_differs_at(mpl, mb, 5);
}

proof fn lemma_thinking_data(v: Seq<char>, r: CallbackAction)
    requires
        v.len() > 0,
        v[0] != 't',
        callback_action("th:set:"@ + v, r),
    ensures
        r matches CallbackAction::ThinkingSet(x) && x@ == v,
{
    reveal_strlit("th:set:");
    reveal_strlit("agt:list");
    reveal_strlit("agt:set");
    reveal_strlit("th:off");
    let p = "th:set:"@;
    let d = p + v;
    assert(d.len() > 7 && d[0] == 't' && d[1] == 'h' && d[3] == 's');
    assert(d.take(7) =~= p);
    assert(d.skip(7) =~= v);
    lemma_not_main_menu(d);
    lemma_not_project_or_run(d);
    lemma_not_model(d);
    lemma_differs_at(d, "agt:list"@, 0);
    lemma_differs_at(d, "agt:set"@, 0);
    lemma_differs_at(d, "th:off"@, 3);
    lemma_differs_at(v, p, 0);
    assert(strip_repeated(v, p) == v);
    assert(strip_repeated(d, p) == strip_repeated(v, p));
}

/// The buttons of the thinking menu switch thinking off or set the value they name.
pub proof fn law_thinking_buttons_read_back(r: CallbackAction)
    ensures
        callback_action("th:off"@, r) ==> r == CallbackAction::ThinkingOff,
        callback_action("th:set:minimal"@, r) ==> (r matches CallbackAction::ThinkingSet(x) && x@ == "minimal"@),
        callback_action("th:set:low"@, r) ==> (r matches CallbackAction::ThinkingSet(x) && x@ == "low"@),
        callback_action("th:set:medium"@, r) ==> (r matches CallbackAction::ThinkingSet(x) && x@ == "medium"@),
        callback_action("th:set:high"@, r) ==> (r matches CallbackAction::ThinkingSet(x) && x@ == "high"@),
        callback_action("th:set:max"@, r) ==> (r matches CallbackAction::ThinkingSet(x) && x@ == "max"@),
        callback_action("th:set:xhigh"@, r) ==> (r matches CallbackAction::ThinkingSet(x) && x@ == "xhigh"@),
{
    reveal_strlit("th:off");
    reveal_strlit("th:set:");
    reveal_strlit("agt:list");
    reveal_strlit("agt:set");
    reveal_strlit("minimal");
    reveal_strlit("low");
    reveal_strlit("medium");
    reveal_strlit("high");
    reveal_strlit("max");
    reveal_strlit("xhigh");
    let off = "th:off"@;
    lemma_not_main_menu(off);
    lemma_not_project_or_run(off);
    lemma_not_model(off);
    lemma_differs_at(off, "agt:list"@, 0);
    lemma_differs_at(off, "agt:set"@, 0);
    reveal_strlit("th:set:minimal");
    assert("th:set:minimal"@ =~= "th:set:"@ + "minimal"@);
    if callback_action("th:set:minimal"@, r) {
        lemma_thinking_data("minimal"@, r);
    }
    reveal_strlit("th:set:low");
    assert("th:set:low"@ =~= "th:set:"@ + "low"@);
    if callback_action("th:set:low"@, r) {
        lemma_thinking_data("low"@, r);
    }
    reveal_strlit("th:set:medium");
    assert("th:set:medium"@ =~= "th:set:"@ + "medium"@);
    if callback_action("th:set:medium"@, r) {
        lemma_thinking_data("medium"@, r);
    }
    reveal_strlit("th:set:high");
    assert("th:set:high"@ =~= "th:set:"@ + "high"@);
    if callback_action("th:set:high"@, r) {
        lemma_thinking_data("high"@, r);
    }
    reveal_strlit("th:set:max");
    assert("th:set:max"@ =~= "th:set:"@ + "max"@);
    if callback_action("th:set:max"@, r) {
        lemma_thinking_data("max"@, r);
    }
    reveal_strlit("th:set:xhigh");
    assert("th:set:xhigh"@ =~= "th:set:"@ + "xhigh"@);
    if callback_action("th:set:xhigh"@, r) {
        lemma_thinking_data("xhigh"@, r);
    }
}

/// A slash command of the bot, with its argument text where it takes one.
pub enum ChatCommand {
    Help,
    Start,
    Menu,
    Ping,
    Run(String),
    Status,
    Cancel,
    Interrupt,
    New(String),
    Projects,
    Use(String),
    Del(String),
    Agent(String),
    Model(String),
    Thinking(String),
    Mode(String),
}

/// What the bot does for a slash command.
pub enum CommandAction {
    ShowHelp,
    ShowMenu,
    Pong,
    RunTask(String),
    ShowStatus,
    /// Cancel the chat's running task and show its final state.
    CancelTask,
    NewProject(String),
    ListProjects,
    UseProject(String),
    DeleteProject(String),
    Agent(String),
    Model(String),
    Thinking(String),
    Mode(String),
}

/// The action for each command: `/start` is `/help`, `/interrupt` is `/cancel`,
/// and every other command has an action of its own that takes its argument text.
pub open spec fn command_action_of(c: ChatCommand) -> CommandAction {
    match c {
        ChatCommand::Help | ChatCommand::Start => CommandAction::ShowHelp,
        ChatCommand::Menu => CommandAction::ShowMenu,
        ChatCommand::Ping => CommandAction::Pong,
        ChatCommand::Run(p) => CommandAction::RunTask(p),
        ChatCommand::Status => CommandAction::ShowStatus,
        ChatCommand::Cancel | ChatCommand::Interrupt => CommandAction::CancelTask,
        ChatCommand::New(n) => CommandAction::NewProject(n),
        ChatCommand::Projects => CommandAction::ListProjects,
        ChatCommand::Use(n) => CommandAction::UseProject(n),
        ChatCommand::Del(a) => CommandAction::DeleteProject(a),
        ChatCommand::Agent(a) => CommandAction::Agent(a),
        ChatCommand::Model(a) => CommandAction::Model(a),
        ChatCommand::Thinking(a) => CommandAction::Thinking(a),
        ChatCommand::Mode(a) => CommandAction::Mode(a),
    }
}

pub fn command_action(c: ChatCommand) -> (r: CommandAction)
    ensures
        r == command_action_of(c),
{
    match c {
        ChatCommand::Help | ChatCommand::Start => CommandAction::ShowHelp,
        ChatCommand::Menu => CommandAction::ShowMenu,
        ChatCommand::Ping => CommandAction::Pong,
        ChatCommand::Run(p) => CommandAction::RunTask(p),
        ChatCommand::Status => CommandAction::ShowStatus,
        ChatCommand::Cancel | ChatCommand::Interrupt => CommandAction::CancelTask,
        ChatCommand::New(n) => CommandAction::NewProject(n),
        ChatCommand::Projects => CommandAction::ListProjects,
        ChatCommand::Use(n) => CommandAction::UseProject(n),
        ChatCommand::Del(a) => CommandAction::DeleteProject(a),
        ChatCommand::Agent(a) => CommandAction::Agent(a),
        ChatCommand::Model(a) => CommandAction::Model(a),
        ChatCommand::Thinking(a) => CommandAction::Thinking(a),
        ChatCommand::Mode(a) => CommandAction::Mode(a),
    }
}

/// `/interrupt` is another name for `/cancel`: both cancel the chat's running task,
/// so from the same state they have the same effect and the same reply.
pub proof fn law_cancel_and_interrupt_act_alike()
    ensures
        command_action_of(ChatCommand::Cancel) == command_action_of(ChatCommand::Interrupt),
        command_action_of(ChatCommand::Interrupt) == CommandAction::CancelTask,
{
}

/// `/start` is another name for `/help`.
pub proof fn law_start_shows_help()
    ensures
        command_action_of(ChatCommand::Start) == command_action_of(ChatCommand::Help),
{
}

} // verus!
