//! Character-level string model: the views of `str`/`String` are `Seq<char>`,
//! and the operations the bot needs (trimming, splitting, joining, lines,
//! prefixes, decimal numbers) are stated over those sequences.
use vstd::prelude::*;

verus! {

broadcast use vstd::string::group_string_axioms;

/// Appends one character to a string (std `String::push`).
#[verifier::external_body]
pub(crate) fn push_char(s: &mut String, c: char)
    ensures
        final(s)@ == old(s)@.push(c),
{
    s.push(c);
}

/// The characters of a string slice, in order.
pub fn chars_of(s: &str) -> (r: Vec<char>)
    ensures
        r@ == s@,
{
    let mut out: Vec<char> = Vec::new();
    for c in it: s.chars()
        invariant
            out@ == it.seq().take(it.index() as int),
    {
        out.push(c);
    }
    out
}

/// A string holding exactly the given characters.
pub fn string_from(v: &[char]) -> (r: String)
    ensures
        r@ == v@,
{
    let mut out = String::new();
    let mut i: usize = 0;
    while i < v.len()
        invariant
            i <= v@.len(),
            out@ == v@.take(i as int),
        decreases v@.len() - i,
    {
        push_char(&mut out, v[i]);
        i = i + 1;
        proof {
            assert(out@ =~= v@.take(i as int));
        }
    }
    proof {
        assert(v@.take(v@.len() as int) =~= v@);
    }
    out
}

/// Unicode `White_Space` (the property behind `char::is_whitespace`).
pub open spec fn is_ws(c: char) -> bool {
    let u = c as u32;
    ||| 0x09 <= u <= 0x0D
    ||| u == 0x20
    ||| u == 0x85
    ||| u == 0xA0
    ||| u == 0x1680
    ||| 0x2000 <= u <= 0x200A
    ||| u == 0x2028
    ||| u == 0x2029
    ||| u == 0x202F
    ||| u == 0x205F
    ||| u == 0x3000
}

pub fn is_whitespace(c: char) -> (r: bool)
    ensures
        r == is_ws(c),
{
    let u = c as u32;
    (0x09 <= u && u <= 0x0D) || u == 0x20 || u == 0x85 || u == 0xA0 || u == 0x1680 || (0x2000
        <= u && u <= 0x200A) || u == 0x2028 || u == 0x2029 || u == 0x202F || u == 0x205F || u
        == 0x3000
}

/// Index of the first character of `s` at or after `i` that does not satisfy `is_ws`.
pub open spec fn first_non_ws_from(s: Seq<char>, i: int) -> int
    decreases s.len() - i,
{
    if i >= s.len() {
        s.len() as int
    } else if is_ws(s[i]) {
        first_non_ws_from(s, i + 1)
    } else {
        i
    }
}

/// One past the last character of `s[..j]` that does not satisfy `is_ws` (0 if none).
pub open spec fn last_non_ws_before(s: Seq<char>, j: int) -> int
    decreases j,
{
    if j <= 0 {
        0
    } else if is_ws(s[j - 1]) {
        last_non_ws_before(s, j - 1)
    } else {
        j
    }
}

/// `str::trim_start`.
pub open spec fn trim_start(s: Seq<char>) -> Seq<char> {
    s.subrange(first_non_ws_from(s, 0), s.len() as int)
}

/// `str::trim_end`.
pub open spec fn trim_end(s: Seq<char>) -> Seq<char> {
    s.subrange(0, last_non_ws_before(s, s.len() as int))
}

/// `str::trim`: whitespace removed at both ends.
pub open spec fn trim(s: Seq<char>) -> Seq<char> {
    trim_end(trim_start(s))
}

proof fn lemma_first_non_ws(s: Seq<char>, i: int)
    requires
        0 <= i <= s.len(),
    ensures
        i <= first_non_ws_from(s, i) <= s.len(),
        forall|k: int| i <= k < first_non_ws_from(s, i) ==> is_ws(#[trigger] s[k]),
        first_non_ws_from(s, i) < s.len() ==> !is_ws(s[first_non_ws_from(s, i)]),
    decreases s.len() - i,
{
    if i < s.len() && is_ws(s[i]) {
        lemma_first_non_ws(s, i + 1);
    }
}

proof fn lemma_last_non_ws(s: Seq<char>, j: int)
    requires
        0 <= j <= s.len(),
    ensures
        0 <= last_non_ws_before(s, j) <= j,
        forall|k: int| last_non_ws_before(s, j) <= k < j ==> is_ws(#[trigger] s[k]),
        last_non_ws_before(s, j) > 0 ==> !is_ws(s[last_non_ws_before(s, j) - 1]),
    decreases j,
{
    if j > 0 && is_ws(s[j - 1]) {
        lemma_last_non_ws(s, j - 1);
    }
}

/// Bounds `(start, end)` such that `v[start..end]` is `trim(v)`.
pub fn trim_bounds(v: &[char]) -> (r: (usize, usize))
    ensures
        r.0 <= r.1 <= v@.len(),
        v@.subrange(r.0 as int, r.1 as int) == trim(v@),
{
    let n = v.len();
    let mut i: usize = 0;
    while i < n && is_whitespace(v[i])
        invariant
            n == v@.len(),
            i <= n,
            first_non_ws_from(v@, i as int) == first_non_ws_from(v@, 0),
        decreases n - i,
    {
        i = i + 1;
    }
    let mut j: usize = n;
    let ghost t = trim_start(v@);
    proof {
        assert(first_non_ws_from(v@, 0) == i);
        lemma_first_non_ws(v@, 0);
    }
    while j > i && is_whitespace(v[j - 1])
        invariant
            n == v@.len(),
            i <= j <= n,
            t == v@.subrange(i as int, n as int),
            last_non_ws_before(t, (j - i) as int) == last_non_ws_before(t, t.len() as int),
        decreases j,
    {
        assert(t[(j - i) - 1] == v@[j - 1]);
        j = j - 1;
    }
    proof {
        if j > i {
            assert(t[(j - i) - 1] == v@[j - 1]);
        }
        assert(last_non_ws_before(t, (j - i) as int) == (j - i));
        assert(v@.subrange(i as int, j as int) =~= t.subrange(0, (j - i) as int));
    }
    (i, j)
}

/// `&v[a..b]`.
pub fn slice_of(v: &[char], a: usize, b: usize) -> (r: &[char])
    requires
        a <= b <= v@.len(),
    ensures
        r@ == v@.subrange(a as int, b as int),
{
    vstd::slice::slice_subrange(v, a, b)
}


/// Left-to-right scan behind `split_whitespace`: the words completed so far and
/// the word being read.
pub open spec fn words_scan(s: Seq<char>) -> (Seq<Seq<char>>, Seq<char>)
    decreases s.len(),
{
    if s.len() == 0 {
        (Seq::empty(), Seq::empty())
    } else {
        let (done, cur) = words_scan(s.drop_last());
        let c = s.last();
        if is_ws(c) {
            if cur.len() > 0 {
                (done.push(cur), Seq::empty())
            } else {
                (done, Seq::empty())
            }
        } else {
            (done, cur.push(c))
        }
    }
}

/// `str::split_whitespace`: the maximal runs of non-whitespace characters, in order.
pub open spec fn words(s: Seq<char>) -> Seq<Seq<char>> {
    let (done, cur) = words_scan(s);
    if cur.len() > 0 {
        done.push(cur)
    } else {
        done
    }
}

/// `slice::join` of character sequences with a separator.
pub open spec fn join(parts: Seq<Seq<char>>, sep: Seq<char>) -> Seq<char>
    decreases parts.len(),
{
    if parts.len() == 0 {
        Seq::empty()
    } else if parts.len() == 1 {
        parts[0]
    } else {
        join(parts.drop_last(), sep) + sep + parts.last()
    }
}

pub fn split_whitespace(v: &[char]) -> (r: Vec<Vec<char>>)
    ensures
        r@.len() == words(v@).len(),
        forall|i: int| 0 <= i < r@.len() ==> (#[trigger] r@[i])@ == words(v@)[i],
{
    let mut done: Vec<Vec<char>> = Vec::new();
    let mut cur: Vec<char> = Vec::new();
    let mut i: usize = 0;
    while i < v.len()
        invariant
            i <= v@.len(),
            done@.len() == words_scan(v@.take(i as int)).0.len(),
            forall|k: int| 0 <= k < done@.len() ==> (#[trigger] done@[k])@ == words_scan(v@.take(i as int)).0[k],
            cur@ == words_scan(v@.take(i as int)).1,
        decreases v@.len() - i,
    {
        let c = v[i];
        proof {
            assert(v@.take(i + 1).drop_last() =~= v@.take(i as int));
            assert(v@.take(i + 1).last() == c);
        }
        if is_whitespace(c) {
            if cur.len() > 0 {
                done.push(cur);
                cur = Vec::new();
            }
        } else {
            cur.push(c);
        }
        i = i + 1;
    }
    proof {
        assert(v@.take(v@.len() as int) =~= v@);
    }
    if cur.len() > 0 {
        done.push(cur);
    }
    done
}

pub fn join_parts(parts: &Vec<Vec<char>>, sep: &[char]) -> (r: Vec<char>)
    ensures
        r@ == join(parts@.map_values(|p: Vec<char>| p@), sep@),
{
    let ghost ps = parts@.map_values(|p: Vec<char>| p@);
    let mut out: Vec<char> = Vec::new();
    let mut i: usize = 0;
    while i < parts.len()
        invariant
            i <= parts@.len(),
            ps == parts@.map_values(|p: Vec<char>| p@),
            out@ == join(ps.take(i as int), sep@),
        decreases parts@.len() - i,
    {
        proof {
            assert(ps.take(i + 1).drop_last() =~= ps.take(i as int));
            assert(ps.take(i + 1).last() == parts@[i as int]@);
        }
        if i > 0 {
            extend_chars(&mut out, sep);
        }
        extend_chars(&mut out, parts[i].as_slice());
        i = i + 1;
        proof {
            if i == 1 {
                assert(out@ =~= ps.take(1)[0]);
            }
        }
    }
    proof {
        assert(ps.take(parts@.len() as int) =~= ps);
    }
    out
}

/// `out.extend_from_slice(extra)`.
pub fn extend_chars(out: &mut Vec<char>, extra: &[char])
    ensures
        final(out)@ == old(out)@ + extra@,
{
    let mut i: usize = 0;
    let ghost start = out@;
    while i < extra.len()
        invariant
            i <= extra@.len(),
            out@ == start + extra@.take(i as int),
        decreases extra@.len() - i,
    {
        out.push(extra[i]);
        i = i + 1;
        proof {
            assert(out@ =~= start + extra@.take(i as int));
        }
    }
    proof {
        assert(extra@.take(extra@.len() as int) =~= extra@);
    }
}


/// Number of bytes of the UTF-8 encoding of one character.
pub open spec fn utf8_width(c: char) -> nat {
    let u = c as u32;
    if u < 0x80 {
        1
    } else if u < 0x800 {
        2
    } else if u < 0x10000 {
        3
    } else {
        4
    }
}

/// Byte length of the UTF-8 encoding (what `str::len` returns).
pub open spec fn utf8_len(s: Seq<char>) -> nat
    decreases s.len(),
{
    if s.len() == 0 {
        0
    } else {
        utf8_len(s.drop_last()) + utf8_width(s.last())
    }
}

proof fn lemma_encode_scalar_len(c: char)
    ensures
        vstd::utf8::encode_scalar(c as u32).len() == utf8_width(c),
{
    vstd::utf8::char_is_scalar(c);
}

/// `utf8_len` is the length of vstd's UTF-8 encoding, hence of `str::len`.
pub proof fn lemma_utf8_len_encode(s: Seq<char>)
    ensures
        vstd::utf8::encode_utf8(s).len() == utf8_len(s),
    decreases s.len(),
{
    if s.len() > 0 {
        lemma_utf8_len_encode(s.drop_first());
        lemma_encode_scalar_len(s[0]);
        lemma_utf8_len_first(s);
    }
}

/// `utf8_len` can also be taken from the front.
pub proof fn lemma_utf8_len_first(s: Seq<char>)
    requires
        s.len() > 0,
    ensures
        utf8_len(s) == utf8_width(s[0]) + utf8_len(s.drop_first()),
    decreases s.len(),
{
    if s.len() > 1 {
        lemma_utf8_len_first(s.drop_last());
        assert(s.drop_last().drop_first() =~= s.drop_first().drop_last());
        assert(s.drop_first().last() == s.last());
        assert(s.drop_last()[0] == s[0]);
        assert(utf8_len(s.drop_first()) == utf8_len(s.drop_first().drop_last()) + utf8_width(s.drop_first().last()));
        assert(utf8_len(s) == utf8_len(s.drop_last()) + utf8_width(s.last()));
    } else {
        assert(utf8_len(s.drop_last()) == 0);
        assert(utf8_len(s.drop_first()) == 0);
        assert(s.drop_first().len() == 0);
        assert(s.drop_last().len() == 0);
        assert(s.last() == s[0]);
    }
}

pub proof fn lemma_utf8_len_append(a: Seq<char>, b: Seq<char>)
    ensures
        utf8_len(a + b) == utf8_len(a) + utf8_len(b),
    decreases b.len(),
{
    if b.len() > 0 {
        lemma_utf8_len_append(a, b.drop_last());
        assert((a + b).drop_last() =~= a + b.drop_last());
    } else {
        assert(a + b =~= a);
    }
}

pub proof fn lemma_utf8_len_bounds(s: Seq<char>)
    ensures
        s.len() <= utf8_len(s) <= 4 * s.len(),
    decreases s.len(),
{
    if s.len() > 0 {
        lemma_utf8_len_bounds(s.drop_last());
    }
}

pub fn char_utf8_width(c: char) -> (r: usize)
    ensures
        r == utf8_width(c),
{
    let u = c as u32;
    if u < 0x80 {
        1
    } else if u < 0x800 {
        2
    } else if u < 0x10000 {
        3
    } else {
        4
    }
}

/// Byte length of the UTF-8 encoding of `v`.
pub fn utf8_length(v: &[char]) -> (r: usize)
    requires
        utf8_len(v@) <= usize::MAX,
    ensures
        r == utf8_len(v@),
{
    let mut n: usize = 0;
    let mut i: usize = 0;
    while i < v.len()
        invariant
            i <= v@.len(),
            utf8_len(v@) <= usize::MAX,
            n == utf8_len(v@.take(i as int)),
        decreases v@.len() - i,
    {
        proof {
            assert(v@.take(i + 1).drop_last() =~= v@.take(i as int));
            lemma_utf8_prefix_le(v@, i + 1);
        }
        n = n + char_utf8_width(v[i]);
        i = i + 1;
    }
    proof {
        assert(v@.take(v@.len() as int) =~= v@);
    }
    n
}

/// ASCII digit for a value below ten.
pub open spec fn digit_char(d: nat) -> char {
    (('0' as u32) + d) as char
}

/// Decimal digits of a natural number, without leading zeros ("0" for zero).
pub open spec fn decimal(n: nat) -> Seq<char>
    decreases n,
{
    if n < 10 {
        seq![digit_char(n)]
    } else {
        decimal(n / 10).push(digit_char(n % 10))
    }
}

/// Decimal text of an integer, with a leading '-' when negative (`Display` for integers).
pub open spec fn int_text(n: int) -> Seq<char> {
    if n < 0 {
        seq!['-'].add(decimal((-n) as nat))
    } else {
        decimal(n as nat)
    }
}

fn digit(d: u64) -> (c: char)
    requires
        d < 10,
    ensures
        c == digit_char(d as nat),
{
    let b: u8 = 48u8 + (d as u8);
    let c = b as char;
    proof {
        assert(c as u32 == 48 + d);
    }
    c
}

/// Decimal digits of `n`.
pub fn u64_decimal(n: u64) -> (r: Vec<char>)
    ensures
        r@ == decimal(n as nat),
    decreases n,
{
    if n < 10 {
        let mut v = Vec::new();
        v.push(digit(n));
        proof {
            assert(v@ =~= seq![digit_char(n as nat)]);
        }
        v
    } else {
        let mut v = u64_decimal(n / 10);
        v.push(digit(n % 10));
        v
    }
}

/// `n.to_string()` for an `i64`.
pub fn i64_text(n: i64) -> (r: Vec<char>)
    ensures
        r@ == int_text(n as int),
{
    if n < 0 {
        let m: u64 = if n == i64::MIN {
            9223372036854775808u64
        } else {
            (-n) as u64
        };
        let d = u64_decimal(m);
        let mut v = Vec::new();
        v.push('-');
        extend_chars(&mut v, d.as_slice());
        proof {
            assert(v@ =~= seq!['-'].add(decimal((-(n as int)) as nat)));
        }
        v
    } else {
        u64_decimal(n as u64)
    }
}

/// `n.to_string()` for a `usize`.
pub fn usize_text(n: usize) -> (r: Vec<char>)
    ensures
        r@ == decimal(n as nat),
{
    u64_decimal(n as u64)
}

/// `p` is a prefix of `s`.
pub open spec fn has_prefix(s: Seq<char>, p: Seq<char>) -> bool {
    p.len() <= s.len() && s.take(p.len() as int) == p
}

pub fn chars_eq(a: &[char], b: &[char]) -> (r: bool)
    ensures
        r == (a@ == b@),
{
    if a.len() != b.len() {
        return false;
    }
    let mut i: usize = 0;
    while i < a.len()
        invariant
            a@.len() == b@.len(),
            i <= a@.len(),
            forall|k: int| 0 <= k < i ==> a@[k] == b@[k],
        decreases a@.len() - i,
    {
        if a[i] != b[i] {
            return false;
        }
        i = i + 1;
    }
    proof {
        assert(a@ =~= b@);
    }
    true
}

pub fn starts_with(s: &[char], p: &[char]) -> (r: bool)
    ensures
        r == has_prefix(s@, p@),
{
    if p.len() > s.len() {
        return false;
    }
    let mut i: usize = 0;
    while i < p.len()
        invariant
            p@.len() <= s@.len(),
            i <= p@.len(),
            forall|k: int| 0 <= k < i ==> s@[k] == p@[k],
        decreases p@.len() - i,
    {
        if s[i] != p[i] {
            assert(s@.take(p@.len() as int)[i as int] != p@[i as int]);
            return false;
        }
        i = i + 1;
    }
    proof {
        assert(s@.take(p@.len() as int) =~= p@);
    }
    true
}


/// `char::to_ascii_lowercase`.
pub open spec fn ascii_lower(c: char) -> char {
    if 'A' <= c <= 'Z' {
        ((c as u32) + 32) as char
    } else {
        c
    }
}

pub fn to_ascii_lower(c: char) -> (r: char)
    ensures
        r == ascii_lower(c),
{
    if 'A' <= c && c <= 'Z' {
        let b: u8 = (c as u8) + 32;
        let r = b as char;
        proof {
            assert(r as u32 == (c as u32) + 32);
        }
        r
    } else {
        c
    }
}

/// `str::eq_ignore_ascii_case`: equal after ASCII lowercasing of every character.
pub open spec fn eq_ignore_ascii_case(a: Seq<char>, b: Seq<char>) -> bool {
    a.len() == b.len() && forall|i: int| 0 <= i < a.len() ==> ascii_lower(#[trigger] a[i]) == ascii_lower(b[i])
}

pub fn chars_eq_ignore_ascii_case(a: &[char], b: &[char]) -> (r: bool)
    ensures
        r == eq_ignore_ascii_case(a@, b@),
{
    if a.len() != b.len() {
        return false;
    }
    let mut i: usize = 0;
    while i < a.len()
        invariant
            a@.len() == b@.len(),
            i <= a@.len(),
            forall|k: int| 0 <= k < i ==> ascii_lower(#[trigger] a@[k]) == ascii_lower(b@[k]),
        decreases a@.len() - i,
    {
        if to_ascii_lower(a[i]) != to_ascii_lower(b[i]) {
            return false;
        }
        i = i + 1;
    }
    true
}

/// `p` has an ASCII case-insensitive match at the start of `s`.
pub open spec fn has_prefix_ignore_ascii_case(s: Seq<char>, p: Seq<char>) -> bool {
    p.len() <= s.len() && eq_ignore_ascii_case(s.take(p.len() as int), p)
}

pub fn starts_with_ignore_ascii_case(s: &[char], p: &[char]) -> (r: bool)
    ensures
        r == has_prefix_ignore_ascii_case(s@, p@),
{
    if p.len() > s.len() {
        return false;
    }
    let r = chars_eq_ignore_ascii_case(slice_of(s, 0, p.len()), p);
    proof {
        assert(s@.subrange(0, p@.len() as int) =~= s@.take(p@.len() as int));
    }
    r
}


/// A line as `str::lines` yields it: a trailing '\r' (from "\r\n") removed.
pub open spec fn strip_cr(line: Seq<char>) -> Seq<char> {
    if line.len() > 0 && line.last() == '\r' {
        line.drop_last()
    } else {
        line
    }
}

/// Left-to-right scan behind `str::lines`: the lines completed by a '\n' so far
/// and the text since the last '\n'.
pub open spec fn lines_scan(s: Seq<char>) -> (Seq<Seq<char>>, Seq<char>)
    decreases s.len(),
{
    if s.len() == 0 {
        (Seq::empty(), Seq::empty())
    } else {
        let (done, cur) = lines_scan(s.drop_last());
        if s.last() == '\n' {
            (done.push(strip_cr(cur)), Seq::empty())
        } else {
            (done, cur.push(s.last()))
        }
    }
}

/// `str::lines`: the text split at "\n" (and "\r\n"); a final line ending adds no empty line.
pub open spec fn lines(s: Seq<char>) -> Seq<Seq<char>> {
    let (done, cur) = lines_scan(s);
    if cur.len() > 0 {
        done.push(cur)
    } else {
        done
    }
}

pub fn lines_of(v: &[char]) -> (r: Vec<Vec<char>>)
    ensures
        r@.len() == lines(v@).len(),
        forall|i: int| 0 <= i < r@.len() ==> (#[trigger] r@[i])@ == lines(v@)[i],
{
    let mut done: Vec<Vec<char>> = Vec::new();
    let mut cur: Vec<char> = Vec::new();
    let mut i: usize = 0;
    while i < v.len()
        invariant
            i <= v@.len(),
            done@.len() == lines_scan(v@.take(i as int)).0.len(),
            forall|k: int| 0 <= k < done@.len() ==> (#[trigger] done@[k])@ == lines_scan(v@.take(i as int)).0[k],
            cur@ == lines_scan(v@.take(i as int)).1,
        decreases v@.len() - i,
    {
        let c = v[i];
        proof {
            assert(v@.take(i + 1).drop_last() =~= v@.take(i as int));
            assert(v@.take(i + 1).last() == c);
        }
        if c == '\n' {
            let n = cur.len();
            if n > 0 && cur[n - 1] == '\r' {
                cur.pop();
            }
            done.push(cur);
            cur = Vec::new();
        } else {
            cur.push(c);
        }
        i = i + 1;
    }
    proof {
        assert(v@.take(v@.len() as int) =~= v@);
    }
    if cur.len() > 0 {
        done.push(cur);
    }
    done
}

/// `s.replace(from, to)` for single characters.
pub open spec fn replace_char(s: Seq<char>, from: char, to: char) -> Seq<char> {
    s.map_values(|c: char| if c == from { to } else { c })
}

pub fn replace_chars(v: &[char], from: char, to: char) -> (r: Vec<char>)
    ensures
        r@ == replace_char(v@, from, to),
{
    let mut out: Vec<char> = Vec::new();
    let mut i: usize = 0;
    while i < v.len()
        invariant
            i <= v@.len(),
            out@ == replace_char(v@.take(i as int), from, to),
        decreases v@.len() - i,
    {
        let c = v[i];
        out.push(if c == from { to } else { c });
        i = i + 1;
        proof {
            assert(out@ =~= replace_char(v@.take(i as int), from, to));
        }
    }
    proof {
        assert(v@.take(v@.len() as int) =~= v@);
    }
    out
}

/// `p` occurs somewhere in `s`.
pub open spec fn has_infix(s: Seq<char>, p: Seq<char>) -> bool {
    exists|i: int| 0 <= i && i + p.len() <= s.len() && #[trigger] s.subrange(i, i + p.len()) == p
}

pub fn contains_chars(s: &[char], p: &[char]) -> (r: bool)
    ensures
        r == has_infix(s@, p@),
{
    if p.len() > s.len() {
        proof {
            assert forall|i: int| 0 <= i && i + p@.len() <= s@.len() implies #[trigger] s@.subrange(i, i + p@.len()) != p@ by {
            }
        }
        return false;
    }
    let mut i: usize = 0;
    let plen = p.len();
    let slen = s.len();
    let last = slen - plen;
    loop
        invariant
            plen == p@.len(),
            slen == s@.len(),
            last + plen == slen,
            p@.len() <= s@.len(),
            last == s@.len() - p@.len(),
            i <= last,
            forall|k: int| 0 <= k < i ==> #[trigger] s@.subrange(k, k + p@.len()) != p@,
        decreases last - i,
    {
        let window = slice_of(s, i, i + plen);
        if chars_eq(window, p) {
            return true;
        }
        if i == last {
            return false;
        }
        i = i + 1;
    }
}


/// The separator that `PathBuf::join` puts between components: '\\' on Windows,
/// '/' elsewhere.
pub open spec fn path_separator(windows: bool) -> char {
    if windows {
        '\\'
    } else {
        '/'
    }
}

/// A character that separates path components: '/' everywhere, and '\\' too on
/// Windows.
pub open spec fn is_path_separator(c: char, windows: bool) -> bool {
    c == '/' || (windows && c == '\\')
}

/// `PathBuf::join` shown as text, for a relative component without a drive prefix
/// (a plain folder or file name, the only kind this library joins): the platform's
/// separator is put between the two unless the base is empty or already ends with a
/// separator.
pub open spec fn join_path(base: Seq<char>, comp: Seq<char>, windows: bool) -> Seq<char> {
    if base.len() > 0 && !is_path_separator(base.last(), windows) {
        base + seq![path_separator(windows)] + comp
    } else {
        base + comp
    }
}

pub fn join_path_chars(base: &[char], comp: &[char], windows: bool) -> (r: Vec<char>)
    ensures
        r@ == join_path(base@, comp@, windows),
{
    let mut out: Vec<char> = Vec::new();
    extend_chars(&mut out, base);
    if base.len() > 0 {
        let last = base[base.len() - 1];
        if !(last == '/' || (windows && last == '\\')) {
            out.push(if windows { '\\' } else { '/' });
        }
    }
    extend_chars(&mut out, comp);
    out
}

/// Lexicographic order of character sequences by code point (the order of
/// `String`'s `Ord`, as UTF-8 preserves code point order).
pub open spec fn seq_less(a: Seq<char>, b: Seq<char>) -> bool
    decreases a.len(),
{
    if a.len() == 0 {
        b.len() > 0
    } else if b.len() == 0 {
        false
    } else if a[0] != b[0] {
        (a[0] as u32) < (b[0] as u32)
    } else {
        seq_less(a.drop_first(), b.drop_first())
    }
}

pub proof fn lemma_seq_less_irreflexive(a: Seq<char>)
    ensures
        !seq_less(a, a),
    decreases a.len(),
{
    if a.len() > 0 {
        lemma_seq_less_irreflexive(a.drop_first());
    }
}

pub proof fn lemma_seq_less_transitive(a: Seq<char>, b: Seq<char>, c: Seq<char>)
    requires
        seq_less(a, b),
        seq_less(b, c),
    ensures
        seq_less(a, c),
    decreases a.len(),
{
    if a.len() > 0 && b.len() > 0 && c.len() > 0 && a[0] == b[0] && b[0] == c[0] {
        lemma_seq_less_transitive(a.drop_first(), b.drop_first(), c.drop_first());
    }
}

pub proof fn lemma_seq_less_total(a: Seq<char>, b: Seq<char>)
    ensures
        seq_less(a, b) || a == b || seq_less(b, a),
    decreases a.len(),
{
    if a.len() > 0 && b.len() > 0 {
        if a[0] != b[0] {
            if (a[0] as u32) == (b[0] as u32) {
                vstd::utf8::char_u32_cast(a[0], a[0] as u32);
                vstd::utf8::char_u32_cast(b[0], b[0] as u32);
            }
        } else {
            lemma_seq_less_total(a.drop_first(), b.drop_first());
            if a.drop_first() == b.drop_first() {
                assert(a =~= seq![a[0]] + a.drop_first());
                assert(b =~= seq![b[0]] + b.drop_first());
            }
        }
    } else if a.len() == 0 && b.len() == 0 {
        assert(a =~= b);
    }
}

pub proof fn lemma_seq_less_asymmetric(a: Seq<char>, b: Seq<char>)
    requires
        seq_less(a, b),
    ensures
        !seq_less(b, a),
{
    if seq_less(b, a) {
        lemma_seq_less_transitive(a, b, a);
        lemma_seq_less_irreflexive(a);
    }
}

pub fn chars_less(a: &[char], b: &[char]) -> (r: bool)
    ensures
        r == seq_less(a@, b@),
{
    let mut i: usize = 0;
    proof {
        assert(a@.skip(0) =~= a@);
        assert(b@.skip(0) =~= b@);
    }
    while i < a.len() && i < b.len() && a[i] == b[i]
        invariant
            i <= a@.len(),
            i <= b@.len(),
            seq_less(a@.skip(i as int), b@.skip(i as int)) == seq_less(a@, b@),
        decreases a@.len() - i,
    {
        proof {
            assert(a@.skip(i as int).drop_first() =~= a@.skip(i + 1));
            assert(b@.skip(i as int).drop_first() =~= b@.skip(i + 1));
        }
        i = i + 1;
    }
    proof {
        assert(a@.skip(i as int).len() == a@.len() - i);
    }
    if i == a.len() {
        i < b.len()
    } else if i == b.len() {
        false
    } else {
        proof {
            assert(a@.skip(i as int)[0] == a@[i as int]);
            assert(b@.skip(i as int)[0] == b@[i as int]);
        }
        (a[i] as u32) < (b[i] as u32)
    }
}


/// `n` bytes into the UTF-8 encoding of `s` is a character boundary.
pub open spec fn is_byte_boundary(s: Seq<char>, n: nat) -> bool {
    exists|i: int| 0 <= i <= s.len() && #[trigger] utf8_len(s.take(i)) == n
}

/// What is left of `s` after its first `n` bytes (at a character boundary).
pub open spec fn drop_bytes(s: Seq<char>, n: nat) -> Seq<char> {
    s.skip(choose|i: int| 0 <= i <= s.len() && #[trigger] utf8_len(s.take(i)) == n)
}

pub proof fn lemma_utf8_prefix_step(s: Seq<char>, i: int)
    requires
        0 <= i < s.len(),
    ensures
        utf8_len(s.take(i + 1)) == utf8_len(s.take(i)) + utf8_width(s[i]),
{
    assert(s.take(i + 1).drop_last() =~= s.take(i));
}

pub proof fn lemma_utf8_prefix_strict(s: Seq<char>, i: int, j: int)
    requires
        0 <= i < j <= s.len(),
    ensures
        utf8_len(s.take(i)) < utf8_len(s.take(j)),
    decreases j - i,
{
    lemma_utf8_prefix_step(s, j - 1);
    if i < j - 1 {
        lemma_utf8_prefix_strict(s, i, j - 1);
    }
}

pub proof fn lemma_utf8_prefix_le(s: Seq<char>, i: int)
    requires
        0 <= i <= s.len(),
    ensures
        utf8_len(s.take(i)) <= utf8_len(s),
{
    if i < s.len() {
        lemma_utf8_prefix_strict(s, i, s.len() as int);
    }
    assert(s.take(s.len() as int) =~= s);
}

/// The character index at which the first `n` bytes of `v` end, if that is a boundary.
pub fn byte_boundary_index(v: &[char], n: usize) -> (r: Option<usize>)
    requires
        utf8_len(v@) <= usize::MAX,
    ensures
        match r {
            Some(i) => i <= v@.len() && utf8_len(v@.take(i as int)) == n && is_byte_boundary(v@, n as nat)
                && drop_bytes(v@, n as nat) == v@.skip(i as int),
            None => !is_byte_boundary(v@, n as nat),
        },
{
    let mut acc: usize = 0;
    let mut i: usize = 0;
    proof {
        assert(v@.take(0) =~= Seq::<char>::empty());
    }
    loop
        invariant
            i <= v@.len(),
            acc == utf8_len(v@.take(i as int)),
            acc <= n,
            utf8_len(v@) <= usize::MAX,
            forall|k: int| 0 <= k < i ==> utf8_len(#[trigger] v@.take(k)) < n,
        decreases v@.len() - i,
    {
        if acc == n {
            proof {
                assert(is_byte_boundary(v@, n as nat));
                let c = choose|k: int| 0 <= k <= v@.len() && #[trigger] utf8_len(v@.take(k)) == n;
                if c < i {
                    lemma_utf8_prefix_strict(v@, c, i as int);
                } else if c > i {
                    lemma_utf8_prefix_strict(v@, i as int, c);
                }
            }
            return Some(i);
        }
        if i == v.len() {
            proof {
                assert forall|k: int| 0 <= k <= v@.len() implies #[trigger] utf8_len(v@.take(k)) != n by {
                    if k == i {
                    } else {
                        assert(utf8_len(v@.take(k)) < n);
                    }
                }
            }
            return None;
        }
        proof {
            lemma_utf8_prefix_step(v@, i as int);
            lemma_utf8_prefix_le(v@, i + 1);
        }
        let w = char_utf8_width(v[i]);
        if acc + w > n {
            proof {
                assert forall|k: int| 0 <= k <= v@.len() implies #[trigger] utf8_len(v@.take(k)) != n by {
                    if k > i + 1 {
                        lemma_utf8_prefix_strict(v@, i + 1, k);
                    } else if k <= i {
                        if k < i {
                            assert(utf8_len(v@.take(k)) < n);
                        }
                    }
                }
            }
            return None;
        }
        acc = acc + w;
        i = i + 1;
    }
}


/// `out.push_str(s)` on a character buffer.
pub fn push_str(out: &mut Vec<char>, s: &str)
    ensures
        final(out)@ == old(out)@ + s@,
{
    let v = chars_of(s);
    extend_chars(out, v.as_slice());
}


/// The length of a string in bytes (`str::len`).
pub fn byte_len(s: &str) -> (r: usize)
    ensures
        r == utf8_len(s@),
{
    let b = s.as_bytes();
    proof {
        lemma_utf8_len_encode(s@);
    }
    b.len()
}

} // verus!
