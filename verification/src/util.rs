//! Keys, names and text shaping shared by the task service and the bot.
use vstd::prelude::*;
use crate::text::{
    chars_of, decimal, extend_chars, i64_text, int_text, is_ws, join, join_parts, slice_of,
    split_whitespace, string_from, trim, trim_bounds, u64_decimal, utf8_len, utf8_length, words,
    lemma_utf8_len_bounds, push_char,
};

verus! {

#[verifier::external_type_specification]
#[verifier::external_body]
pub struct ExSystemTime(std::time::SystemTime);

/// `SystemTime::now()`: the clock's current reading; nothing is promised about it.
#[verifier::external_body]
fn system_now() -> std::time::SystemTime {
    std::time::SystemTime::now()
}

/// `SystemTime::duration_since(UNIX_EPOCH)`, `None` where the clock reads before the epoch.
/// Nothing is promised about the value, which depends on the clock.
#[verifier::external_body]
fn since_unix_epoch(t: std::time::SystemTime) -> Option<core::time::Duration> {
    match t.duration_since(std::time::UNIX_EPOCH) {
        Ok(d) => Some(d),
        Err(_) => None,
    }
}

/// `Duration::as_millis`; the value depends on a clock reading, so nothing is promised.
#[verifier::external_body]
fn duration_millis(d: core::time::Duration) -> u128 {
    d.as_millis()
}

/// The timestamp that a reading of milliseconds since the Unix epoch gives:
/// the reading truncated to `i64` (as `as i64` does), 0 when the clock is before the epoch.
pub open spec fn millis_timestamp(since_epoch: Option<u128>) -> i64 {
    match since_epoch {
        Some(m) => m as i64,
        None => 0,
    }
}

pub fn timestamp_from_millis(since_epoch: Option<u128>) -> (r: i64)
    ensures
        r == millis_timestamp(since_epoch),
{
    match since_epoch {
        Some(m) => m as i64,
        None => 0,
    }
}

/// Milliseconds since the Unix epoch, read from the system clock (0 before the epoch).
pub fn now_ms() -> (r: i64)
    ensures
        exists|reading: Option<u128>| r == millis_timestamp(reading),
{
    let reading = match since_unix_epoch(system_now()) {
        Some(d) => Some(duration_millis(d)),
        None => None,
    };
    let r = timestamp_from_millis(reading);
    proof {
        assert(r == millis_timestamp(reading));
    }
    r
}

/// `"<chat_id>:<thread_id or main>"`.
pub open spec fn context_key_text(chat_id: i64, thread_id: Option<i32>) -> Seq<char> {
    int_text(chat_id as int) + seq![':'] + match thread_id {
        Some(t) => int_text(t as int),
        None => seq!['m', 'a', 'i', 'n'],
    }
}

pub fn context_key(chat_id: i64, thread_id: Option<i32>) -> (r: String)
    ensures
        r@ == context_key_text(chat_id, thread_id),
{
    let mut v = i64_text(chat_id);
    v.push(':');
    match thread_id {
        Some(t) => {
            let tv = i64_text(t as i64);
            extend_chars(&mut v, tv.as_slice());
        },
        None => {
            let m = ['m', 'a', 'i', 'n'];
            extend_chars(&mut v, m.as_slice());
            proof {
                assert(m@ =~= seq!['m', 'a', 'i', 'n']);
            }
        },
    }
    proof {
        assert(v@ =~= context_key_text(chat_id, thread_id));
    }
    string_from(v.as_slice())
}

/// `"<context key>|<project>"`.
pub open spec fn task_key_text(ctx_key: Seq<char>, project: Seq<char>) -> Seq<char> {
    ctx_key + seq!['|'] + project
}

pub fn task_key(ctx_key: &str, project: &str) -> (r: String)
    ensures
        r@ == task_key_text(ctx_key@, project@),
{
    let mut v = chars_of(ctx_key);
    v.push('|');
    let p = chars_of(project);
    extend_chars(&mut v, p.as_slice());
    proof {
        assert(v@ =~= task_key_text(ctx_key@, project@));
    }
    string_from(v.as_slice())
}

/// Characters that cannot stand in a project name (they are path or shell metacharacters).
pub open spec fn is_forbidden_name_char(c: char) -> bool {
    c == '\\' || c == '/' || c == ':' || c == '*' || c == '?' || c == '"' || c == '<' || c == '>'
        || c == '|'
}

/// Forbidden characters replaced by '-'.
pub open spec fn dash_forbidden(s: Seq<char>) -> Seq<char> {
    s.map_values(|c: char| if is_forbidden_name_char(c) { '-' } else { c })
}

/// Every run of consecutive '-' reduced to a single '-'.
pub open spec fn squash_dashes(s: Seq<char>) -> Seq<char>
    decreases s.len(),
{
    if s.len() == 0 {
        s
    } else {
        let p = squash_dashes(s.drop_last());
        if s.last() == '-' && p.len() > 0 && p.last() == '-' {
            p
        } else {
            p.push(s.last())
        }
    }
}

/// Index of the first character at or after `i` that is not '-'.
pub open spec fn first_non_dash_from(s: Seq<char>, i: int) -> int
    decreases s.len() - i,
{
    if i >= s.len() {
        s.len() as int
    } else if s[i] == '-' {
        first_non_dash_from(s, i + 1)
    } else {
        i
    }
}

/// One past the last character before `j` that is not '-' (0 if none).
pub open spec fn last_non_dash_before(s: Seq<char>, j: int) -> int
    decreases j,
{
    if j <= 0 {
        0
    } else if s[j - 1] == '-' {
        last_non_dash_before(s, j - 1)
    } else {
        j
    }
}

/// `trim_matches('-')`.
pub open spec fn trim_dashes(s: Seq<char>) -> Seq<char> {
    let t = s.subrange(first_non_dash_from(s, 0), s.len() as int);
    t.subrange(0, last_non_dash_before(t, t.len() as int))
}

/// The name a project gets from what a user typed: whitespace runs become '-',
/// path and shell metacharacters become '-', runs of '-' shrink to one, and
/// leading and trailing '-' are removed.
pub open spec fn project_name_candidate(raw: Seq<char>) -> Seq<char> {
    trim_dashes(squash_dashes(dash_forbidden(join(words(trim(raw)), seq!['-']))))
}

/// Why a typed project name is refused.
#[derive(Clone, Copy, Debug, PartialEq, Eq, Structural)]
pub enum NameError {
    /// Nothing is left of the name after normalization.
    Empty,
    /// The normalized name is longer than 64 bytes.
    TooLong,
}

impl NameError {
    /// The message shown to the user.
    pub open spec fn text(&self) -> Seq<char> {
        match self {
            NameError::Empty => "Project name cannot be empty."@,
            NameError::TooLong => "Project name is too long (max 64 chars)."@,
        }
    }

    pub fn message(&self) -> (r: String)
        ensures
            r@ == self.text(),
    {
        match self {
            NameError::Empty => crate::runner::owned("Project name cannot be empty."),
            NameError::TooLong => crate::runner::owned("Project name is too long (max 64 chars)."),
        }
    }
}

/// Longest project name, in UTF-8 bytes.
pub const MAX_PROJECT_NAME_BYTES: usize = 64;

/// What `normalize_project_name` gives for a typed name.
pub open spec fn normalized_project_name(raw: Seq<char>) -> Result<Seq<char>, NameError> {
    let c = project_name_candidate(raw);
    if c.len() == 0 {
        Err(NameError::Empty)
    } else if utf8_len(c) > 64 {
        Err(NameError::TooLong)
    } else {
        Ok(c)
    }
}

fn dash_forbidden_chars(v: &mut Vec<char>)
    ensures
        final(v)@ == dash_forbidden(old(v)@),
{
    let ghost orig = v@;
    let mut i: usize = 0;
    while i < v.len()
        invariant
            i <= v@.len(),
            v@.len() == orig.len(),
            forall|k: int| 0 <= k < i ==> v@[k] == dash_forbidden(orig)[k],
            forall|k: int| i <= k < v@.len() ==> v@[k] == orig[k],
        decreases v@.len() - i,
    {
        let c = v[i];
        if c == '\\' || c == '/' || c == ':' || c == '*' || c == '?' || c == '"' || c == '<' || c
            == '>' || c == '|' {
            v.set(i, '-');
        }
        i = i + 1;
    }
    proof {
        assert(v@ =~= dash_forbidden(orig));
    }
}

fn squash_dash_chars(v: &[char]) -> (r: Vec<char>)
    ensures
        r@ == squash_dashes(v@),
{
    let mut out: Vec<char> = Vec::new();
    let mut i: usize = 0;
    while i < v.len()
        invariant
            i <= v@.len(),
            out@ == squash_dashes(v@.take(i as int)),
        decreases v@.len() - i,
    {
        proof {
            assert(v@.take(i + 1).drop_last() =~= v@.take(i as int));
        }
        let c = v[i];
        let n = out.len();
        if !(c == '-' && n > 0 && out[n - 1] == '-') {
            out.push(c);
        }
        i = i + 1;
    }
    proof {
        assert(v@.take(v@.len() as int) =~= v@);
    }
    out
}

fn trim_dash_chars(v: &[char]) -> (r: Vec<char>)
    ensures
        r@ == trim_dashes(v@),
{
    let n = v.len();
    let mut i: usize = 0;
    while i < n && v[i] == '-'
        invariant
            n == v@.len(),
            i <= n,
            first_non_dash_from(v@, i as int) == first_non_dash_from(v@, 0),
        decreases n - i,
    {
        i = i + 1;
    }
    let ghost t = v@.subrange(first_non_dash_from(v@, 0), v@.len() as int);
    proof {
        assert(first_non_dash_from(v@, i as int) == i);
    }
    let mut j: usize = n;
    while j > i && v[j - 1] == '-'
        invariant
            n == v@.len(),
            i <= j <= n,
            t == v@.subrange(i as int, n as int),
            last_non_dash_before(t, (j - i) as int) == last_non_dash_before(t, t.len() as int),
        decreases j,
    {
        assert(t[(j - i) - 1] == v@[j - 1]);
        j = j - 1;
    }
    proof {
        if j > i {
            assert(t[(j - i) - 1] == v@[j - 1]);
        }
        assert(last_non_dash_before(t, (j - i) as int) == (j - i));
        assert(v@.subrange(i as int, j as int) =~= t.subrange(0, (j - i) as int));
    }
    let mut out: Vec<char> = Vec::new();
    extend_chars(&mut out, slice_of(v, i, j));
    out
}

/// Turns a typed project name into the name the project is stored under.
pub fn normalize_project_name(raw: &str) -> (r: Result<String, NameError>)
    ensures
        match normalized_project_name(raw@) {
            Ok(name) => r matches Ok(s) && s@ == name,
            Err(e) => r == Err::<String, NameError>(e),
        },
{
    let v = chars_of(raw);
    let (a, b) = trim_bounds(v.as_slice());
    let ws = split_whitespace(slice_of(v.as_slice(), a, b));
    let dash = ['-'];
    let mut joined = join_parts(&ws, dash.as_slice());
    proof {
        assert(dash@ =~= seq!['-']);
        assert(ws@.map_values(|p: Vec<char>| p@) =~= words(trim(raw@)));
    }
    dash_forbidden_chars(&mut joined);
    let squashed = squash_dash_chars(joined.as_slice());
    let name = trim_dash_chars(squashed.as_slice());
    if name.len() == 0 {
        return Err(NameError::Empty);
    }
    if name.len() > 64 {
        proof {
            lemma_utf8_len_bounds(name@);
        }
        return Err(NameError::TooLong);
    }
    proof {
        lemma_utf8_len_bounds(name@);
    }
    let bytes = utf8_length(name.as_slice());
    if bytes > MAX_PROJECT_NAME_BYTES {
        return Err(NameError::TooLong);
    }
    Ok(string_from(name.as_slice()))
}

/// `None` for a missing or blank value, else the value trimmed.
pub open spec fn normalized_thinking(value: Option<Seq<char>>) -> Option<Seq<char>> {
    let t = match value {
        Some(v) => trim(v),
        None => Seq::empty(),
    };
    if t.len() == 0 {
        None
    } else {
        Some(t)
    }
}

pub fn normalize_thinking(value: Option<&str>) -> (r: Option<String>)
    ensures
        match normalized_thinking(
            match value {
                Some(v) => Some(v@),
                None => None,
            },
        ) {
            Some(t) => r matches Some(s) && s@ == t,
            None => r is None,
        },
{
    match value {
        Some(v) => {
            let c = chars_of(v);
            let (a, b) = trim_bounds(c.as_slice());
            if a == b {
                None
            } else {
                Some(string_from(slice_of(c.as_slice(), a, b)))
            }
        },
        None => None,
    }
}

/// The last `max` characters of `s` (all of it when it is no longer).
pub open spec fn fit_text(s: Seq<char>, max: nat) -> Seq<char> {
    if s.len() <= max {
        s
    } else {
        s.subrange(s.len() - max, s.len() as int)
    }
}

pub fn fit_telegram_text(input: &str, max: usize) -> (r: String)
    ensures
        r@ == fit_text(input@, max as nat),
{
    let v = chars_of(input);
    if v.len() <= max {
        return string_from(v.as_slice());
    }
    string_from(slice_of(v.as_slice(), v.len() - max, v.len()))
}

/// `u8::is_ascii_alphabetic`.
pub open spec fn is_ascii_alpha(b: u8) -> bool {
    (0x41 <= b <= 0x5A) || (0x61 <= b <= 0x7A)
}

fn is_ascii_alphabetic(b: u8) -> (r: bool)
    ensures
        r == is_ascii_alpha(b),
{
    (0x41 <= b && b <= 0x5A) || (0x61 <= b && b <= 0x7A)
}

/// Index just past the ANSI escape sequence whose ESC byte is at `i - 1`:
/// after "ESC [" every byte up to and including the first ASCII letter is dropped;
/// an ESC not followed by '[' drops only itself.
pub open spec fn skip_csi_params(b: Seq<u8>, i: int) -> int
    decreases b.len() - i,
{
    if i >= b.len() {
        b.len() as int
    } else if is_ascii_alpha(b[i]) {
        i + 1
    } else {
        skip_csi_params(b, i + 1)
    }
}

/// The output of `strip_ansi` for the input bytes from index `i` on: escape
/// sequences removed, every other byte kept as the character with that code
/// (bytes of multi-byte UTF-8 characters thus become separate Latin-1 characters).
pub open spec fn strip_ansi_from(b: Seq<u8>, i: int) -> Seq<char>
    decreases b.len() - i, 0int,
{
    if i >= b.len() || i < 0 {
        Seq::empty()
    } else if b[i] == 0x1b {
        if i + 1 < b.len() && b[i + 1] == 0x5b {
            strip_ansi_skip(b, i + 2)
        } else {
            strip_ansi_from(b, i + 1)
        }
    } else {
        seq![(b[i] as u32) as char] + strip_ansi_from(b, i + 1)
    }
}

/// `strip_ansi_from` resumed after an "ESC [" whose parameters start at `i`.
pub open spec fn strip_ansi_skip(b: Seq<u8>, i: int) -> Seq<char>
    decreases b.len() - i, 1int,
{
    if i >= b.len() || i < 0 {
        Seq::empty()
    } else {
        proof {
            lemma_skip_csi_params(b, i);
        }
        strip_ansi_from(b, skip_csi_params(b, i))
    }
}

pub proof fn lemma_skip_csi_params(b: Seq<u8>, i: int)
    ensures
        0 <= i < b.len() ==> i < skip_csi_params(b, i) <= b.len(),
    decreases b.len() - i,
{
    if 0 <= i < b.len() && !is_ascii_alpha(b[i]) {
        lemma_skip_csi_params(b, i + 1);
        if i + 1 >= b.len() {
            assert(skip_csi_params(b, i + 1) == b.len());
        }
    }
}

/// Removes ANSI escape sequences ("ESC [ ... letter", or a lone ESC) from terminal output.
pub fn strip_ansi(input: &str) -> (r: String)
    ensures
        r@ == strip_ansi_from(vstd::utf8::encode_utf8(input@), 0),
{
    let bytes = input.as_bytes();
    let ghost b = bytes@;
    assert(b == vstd::utf8::encode_utf8(input@));
    let mut out: Vec<char> = Vec::new();
    let mut i: usize = 0;
    while i < bytes.len()
        invariant
            b == bytes@,
            i <= b.len(),
            out@ + strip_ansi_from(b, i as int) == strip_ansi_from(b, 0),
        decreases b.len() - i,
    {
        if bytes[i] == 0x1b {
            let ghost esc = i as int;
            i = i + 1;
            if i < bytes.len() && bytes[i] == 0x5b {
                i = i + 1;
                let ghost start = i;
                while i < bytes.len() && !is_ascii_alphabetic(bytes[i])
                    invariant
                        b == bytes@,
                        start <= i <= b.len(),
                        skip_csi_params(b, i as int) == skip_csi_params(b, start as int),
                    decreases b.len() - i,
                {
                    i = i + 1;
                }
                if i < bytes.len() {
                    i = i + 1;
                }
                proof {
                    assert(strip_ansi_from(b, esc) == strip_ansi_skip(b, start as int));
                    if start >= b.len() {
                        assert(strip_ansi_skip(b, start as int) == Seq::<char>::empty());
                        assert(strip_ansi_from(b, i as int) == Seq::<char>::empty());
                    } else {
                        assert(i == skip_csi_params(b, start as int));
                    }
                }
            } else {
                proof {
                    assert(strip_ansi_from(b, esc) == strip_ansi_from(b, i as int));
                }
            }
            continue;
        }
        let c = bytes[i] as char;
        proof {
            assert(c == (bytes@[i as int] as u32) as char);
        }
        out.push(c);
        proof {
            assert(out@ + strip_ansi_from(b, i + 1) =~= out@.drop_last() + strip_ansi_from(b, i as int));
        }
        i = i + 1;
    }
    string_from(out.as_slice())
}

/// Text with its escape sequences removed holds no ESC character.
pub proof fn law_stripped_text_has_no_escape(b: Seq<u8>, i: int)
    ensures
        forall|k: int| 0 <= k < strip_ansi_from(b, i).len() ==> #[trigger] strip_ansi_from(b, i)[k] != '\u{1b}',
    decreases b.len() - i, 0int,
{
    if 0 <= i < b.len() {
        if b[i] == 0x1b {
            if i + 1 < b.len() && b[i + 1] == 0x5b {
                assert(strip_ansi_from(b, i) == strip_ansi_skip(b, i + 2));
                if i + 2 < b.len() {
                    lemma_skip_csi_params(b, i + 2);
                    assert(strip_ansi_skip(b, i + 2) == strip_ansi_from(b, skip_csi_params(b, i + 2)));
                    law_stripped_text_has_no_escape(b, skip_csi_params(b, i + 2));
                } else {
                    assert(strip_ansi_skip(b, i + 2) == Seq::<char>::empty());
                }
            } else {
                assert(strip_ansi_from(b, i) == strip_ansi_from(b, i + 1));
                law_stripped_text_has_no_escape(b, i + 1);
            }
        } else {
            law_stripped_text_has_no_escape(b, i + 1);
            let head = seq![(b[i] as u32) as char];
            let rest = strip_ansi_from(b, i + 1);
            assert(strip_ansi_from(b, i) == head + rest);
            assert((b[i] as u32) != 0x1b);
            assert(head[0] != '\u{1b}') by {
                assert(head[0] as u32 == b[i] as u32);
            }
            assert forall|k: int| 0 <= k < (head + rest).len() implies #[trigger] (head + rest)[k] != '\u{1b}' by {
                if k > 0 {
                    assert((head + rest)[k] == rest[k - 1]);
                }
            }
        }
    }
}


/// Every byte of `b` from `i` on is ASCII.
pub open spec fn ascii_bytes_from(b: Seq<u8>, i: int) -> bool {
    forall|k: int| i <= k < b.len() ==> #[trigger] b[k] < 0x80
}

proof fn lemma_strip_keeps_ascii(b: Seq<u8>, i: int)
    requires
        ascii_bytes_from(b, 0),
    ensures
        vstd::utf8::is_ascii_chars(strip_ansi_from(b, i)),
    decreases b.len() - i, 0int,
{
    if 0 <= i < b.len() {
        if b[i] == 0x1b {
            if i + 1 < b.len() && b[i + 1] == 0x5b {
                assert(strip_ansi_from(b, i) == strip_ansi_skip(b, i + 2));
                if i + 2 < b.len() {
                    lemma_skip_csi_params(b, i + 2);
                    assert(strip_ansi_skip(b, i + 2) == strip_ansi_from(b, skip_csi_params(b, i + 2)));
                    lemma_strip_keeps_ascii(b, skip_csi_params(b, i + 2));
                } else {
                    assert(strip_ansi_skip(b, i + 2) == Seq::<char>::empty());
                }
            } else {
                assert(strip_ansi_from(b, i) == strip_ansi_from(b, i + 1));
                lemma_strip_keeps_ascii(b, i + 1);
            }
        } else {
            lemma_strip_keeps_ascii(b, i + 1);
            let head = seq![(b[i] as u32) as char];
            let rest = strip_ansi_from(b, i + 1);
            assert(strip_ansi_from(b, i) == head + rest);
            assert(b[i] < 0x80);
            assert(head[0] as u32 == b[i] as u32);
            assert forall|k: int| 0 <= k < (head + rest).len() implies '\0' <= #[trigger] (head + rest)[k] <= '\u{7f}' by {
                if k > 0 {
                    assert((head + rest)[k] == rest[k - 1]);
                }
            }
        }
    }
}

proof fn lemma_strip_plain_ascii(s: Seq<char>, i: int)
    requires
        vstd::utf8::is_ascii_chars(s),
        forall|k: int| 0 <= k < s.len() ==> #[trigger] s[k] != '\u{1b}',
        0 <= i <= s.len(),
    ensures
        strip_ansi_from(vstd::utf8::encode_utf8(s), i) == s.subrange(i, s.len() as int),
    decreases s.len() - i,
{
    let b = vstd::utf8::encode_utf8(s);
    vstd::utf8::is_ascii_chars_encode_utf8(s);
    if i < s.len() {
        lemma_strip_plain_ascii(s, i + 1);
        let c = s[i];
        assert(b[i] == c as u8);
        assert((c as u32) < 0x80);
        assert(c as u8 == c as u32);
        assert(b[i] != 0x1b);
        assert(((b[i] as u32) as char) == c) by {
            vstd::utf8::char_u32_cast(c, c as u32);
        }
        assert(strip_ansi_from(b, i) == seq![c] + strip_ansi_from(b, i + 1));
        assert(seq![c] + s.subrange(i + 1, s.len() as int) =~= s.subrange(i, s.len() as int));
    } else {
        assert(s.subrange(i, s.len() as int) =~= Seq::<char>::empty());
    }
}

/// ASCII text without an ESC character comes out of `strip_ansi` unchanged.
pub proof fn law_strip_keeps_plain_ascii(s: Seq<char>)
    requires
        vstd::utf8::is_ascii_chars(s),
        forall|k: int| 0 <= k < s.len() ==> #[trigger] s[k] != '\u{1b}',
    ensures
        strip_ansi_from(vstd::utf8::encode_utf8(s), 0) == s,
{
    lemma_strip_plain_ascii(s, 0);
    assert(s.subrange(0, s.len() as int) =~= s);
}

/// On ASCII text, stripping escape sequences twice gives what stripping once gives.
pub proof fn law_strip_ansi_idempotent(s: Seq<char>)
    requires
        vstd::utf8::is_ascii_chars(s),
    ensures
        strip_ansi_from(vstd::utf8::encode_utf8(strip_ansi_from(vstd::utf8::encode_utf8(s), 0)), 0)
            == strip_ansi_from(vstd::utf8::encode_utf8(s), 0),
{
    let b = vstd::utf8::encode_utf8(s);
    vstd::utf8::is_ascii_chars_encode_utf8(s);
    assert forall|k: int| 0 <= k < b.len() implies #[trigger] b[k] < 0x80 by {
        assert(b[k] == s[k] as u8);
        assert((s[k] as u32) < 0x80);
    }
    let t = strip_ansi_from(b, 0);
    lemma_strip_keeps_ascii(b, 0);
    law_stripped_text_has_no_escape(b, 0);
    law_strip_keeps_plain_ascii(t);
}

} // verus!
