//! Why project names survive a second normalization: a normalized name has no
//! whitespace, no forbidden character, no "--" and no dash at either end, and
//! every step of the normalization leaves such a name as it is.
use vstd::prelude::*;
use crate::text::{
    first_non_ws_from, is_ws, join, last_non_ws_before, trim, trim_end, trim_start, utf8_len, words, words_scan,
};
use crate::util::{
    dash_forbidden, first_non_dash_from, is_forbidden_name_char, last_non_dash_before,
    normalized_project_name, project_name_candidate, squash_dashes, trim_dashes,
};

verus! {

/// A character that can stand in a normalized name.
pub open spec fn name_char(c: char) -> bool {
    !is_ws(c) && !is_forbidden_name_char(c)
}

/// Every character of `s` satisfies `name_char`.
pub open spec fn name_chars(s: Seq<char>) -> bool {
    forall|i: int| 0 <= i < s.len() ==> name_char(#[trigger] s[i])
}

/// No whitespace in `s`.
pub open spec fn no_ws(s: Seq<char>) -> bool {
    forall|i: int| 0 <= i < s.len() ==> !is_ws(#[trigger] s[i])
}

/// No two '-' follow each other in `s`.
pub open spec fn single_dashes(s: Seq<char>) -> bool {
    forall|i: int| 0 <= i < s.len() - 1 ==> !(#[trigger] s[i] == '-' && s[i + 1] == '-')
}

/// The shape of a normalized name.
pub open spec fn tidy_name(s: Seq<char>) -> bool {
    &&& name_chars(s)
    &&& single_dashes(s)
    &&& s.len() > 0 ==> s[0] != '-' && s.last() != '-'
}

proof fn lemma_words_scan_no_ws(s: Seq<char>)
    ensures
        no_ws(words_scan(s).1),
        forall|i: int| 0 <= i < words_scan(s).0.len() ==> (#[trigger] words_scan(s).0[i]).len() > 0
            && no_ws(words_scan(s).0[i]),
    decreases s.len(),
{
    if s.len() > 0 {
        lemma_words_scan_no_ws(s.drop_last());
        let (done, cur) = words_scan(s.drop_last());
        let c = s.last();
        if is_ws(c) {
            if cur.len() > 0 {
                assert forall|i: int| 0 <= i < done.push(cur).len() implies (#[trigger] done.push(cur)[i]).len() > 0
                    && no_ws(done.push(cur)[i]) by {
                    if i < done.len() {
                        assert(done.push(cur)[i] == done[i]);
                    }
                }
            }
        } else {
            assert forall|i: int| 0 <= i < cur.push(c).len() implies !is_ws(#[trigger] cur.push(c)[i]) by {
                if i < cur.len() {
                    assert(cur.push(c)[i] == cur[i]);
                }
            }
        }
    }
}

proof fn lemma_words_no_ws(s: Seq<char>)
    ensures
        forall|i: int| 0 <= i < words(s).len() ==> no_ws(#[trigger] words(s)[i]),
{
    lemma_words_scan_no_ws(s);
    let (done, cur) = words_scan(s);
    if cur.len() > 0 {
        assert forall|i: int| 0 <= i < done.push(cur).len() implies no_ws(#[trigger] done.push(cur)[i]) by {
            if i < done.len() {
                assert(done.push(cur)[i] == done[i]);
            }
        }
    }
}

proof fn lemma_join_no_ws(parts: Seq<Seq<char>>, sep: Seq<char>)
    requires
        forall|i: int| 0 <= i < parts.len() ==> no_ws(#[trigger] parts[i]),
        no_ws(sep),
    ensures
        no_ws(join(parts, sep)),
    decreases parts.len(),
{
    if parts.len() > 1 {
        lemma_join_no_ws(parts.drop_last(), sep);
        let a = join(parts.drop_last(), sep);
        let b = parts.last();
        assert(no_ws(b)) by {
            assert(parts[parts.len() - 1] == b);
        }
        assert forall|i: int| 0 <= i < (a + sep + b).len() implies !is_ws(#[trigger] (a + sep + b)[i]) by {
            if i < a.len() {
                assert((a + sep + b)[i] == a[i]);
            } else if i < a.len() + sep.len() {
                assert((a + sep + b)[i] == sep[i - a.len()]);
            } else {
                assert((a + sep + b)[i] == b[i - a.len() - sep.len()]);
            }
        }
    } else if parts.len() == 1 {
        assert(no_ws(parts[0]));
    }
}

proof fn lemma_squash_shape(s: Seq<char>)
    requires
        name_chars(s),
    ensures
        name_chars(squash_dashes(s)),
        single_dashes(squash_dashes(s)),
        squash_dashes(s).len() > 0 ==> squash_dashes(s).last() == s.last(),
    decreases s.len(),
{
    if s.len() > 0 {
        let t = s.drop_last();
        assert(name_chars(t)) by {
            assert forall|i: int| 0 <= i < t.len() implies name_char(#[trigger] t[i]) by {
                assert(t[i] == s[i]);
            }
        }
        lemma_squash_shape(t);
        let p = squash_dashes(t);
        let c = s.last();
        assert(name_char(c)) by {
            assert(s[s.len() - 1] == c);
        }
        if !(c == '-' && p.len() > 0 && p.last() == '-') {
            let q = p.push(c);
            assert forall|i: int| 0 <= i < q.len() implies name_char(#[trigger] q[i]) by {
                if i < p.len() {
                    assert(q[i] == p[i]);
                }
            }
            assert forall|i: int| 0 <= i < q.len() - 1 implies !(#[trigger] q[i] == '-' && q[i + 1] == '-') by {
                assert(q[i] == p[i]);
                if i + 1 < p.len() {
                    assert(q[i + 1] == p[i + 1]);
                }
            }
        } else {
            if t.len() > 0 {
                assert(p.last() == t.last());
            }
        }
    }
}

proof fn lemma_first_non_dash(s: Seq<char>, i: int)
    requires
        0 <= i <= s.len(),
    ensures
        i <= first_non_dash_from(s, i) <= s.len(),
        forall|k: int| i <= k < first_non_dash_from(s, i) ==> #[trigger] s[k] == '-',
        first_non_dash_from(s, i) < s.len() ==> s[first_non_dash_from(s, i)] != '-',
    decreases s.len() - i,
{
    if i < s.len() && s[i] == '-' {
        lemma_first_non_dash(s, i + 1);
    }
}

proof fn lemma_last_non_dash(s: Seq<char>, j: int)
    requires
        0 <= j <= s.len(),
    ensures
        0 <= last_non_dash_before(s, j) <= j,
        forall|k: int| last_non_dash_before(s, j) <= k < j ==> #[trigger] s[k] == '-',
        last_non_dash_before(s, j) > 0 ==> s[last_non_dash_before(s, j) - 1] != '-',
    decreases j,
{
    if j > 0 && s[j - 1] == '-' {
        lemma_last_non_dash(s, j - 1);
    }
}

proof fn lemma_trim_dashes_shape(s: Seq<char>)
    requires
        name_chars(s),
        single_dashes(s),
    ensures
        tidy_name(trim_dashes(s)),
{
    let a = first_non_dash_from(s, 0);
    lemma_first_non_dash(s, 0);
    let t = s.subrange(a, s.len() as int);
    let b = last_non_dash_before(t, t.len() as int);
    lemma_last_non_dash(t, t.len() as int);
    let r = t.subrange(0, b);
    assert(trim_dashes(s) == r);
    assert forall|i: int| 0 <= i < r.len() implies name_char(#[trigger] r[i]) by {
        assert(r[i] == s[a + i]);
    }
    assert forall|i: int| 0 <= i < r.len() - 1 implies !(#[trigger] r[i] == '-' && r[i + 1] == '-') by {
        assert(r[i] == s[a + i]);
        assert(r[i + 1] == s[a + i + 1]);
    }
    if r.len() > 0 {
        assert(r[0] == t[0]);
        assert(r.last() == t[b - 1]);
    }
}

/// What `project_name_candidate` gives has the shape of a normalized name.
proof fn lemma_candidate_tidy(raw: Seq<char>)
    ensures
        tidy_name(project_name_candidate(raw)),
{
    let ws = words(trim(raw));
    lemma_words_no_ws(trim(raw));
    let dash = seq!['-'];
    assert(no_ws(dash)) by {
        assert forall|i: int| 0 <= i < dash.len() implies !is_ws(#[trigger] dash[i]) by {
            assert(dash[i] == '-');
        }
    }
    lemma_join_no_ws(ws, dash);
    let j = join(ws, dash);
    let d = dash_forbidden(j);
    assert forall|i: int| 0 <= i < d.len() implies name_char(#[trigger] d[i]) by {
        assert(!is_ws(j[i]));
    }
    lemma_squash_shape(d);
    lemma_trim_dashes_shape(squash_dashes(d));
}

proof fn lemma_words_scan_single(s: Seq<char>)
    requires
        no_ws(s),
    ensures
        words_scan(s) == (Seq::<Seq<char>>::empty(), s),
    decreases s.len(),
{
    if s.len() > 0 {
        let t = s.drop_last();
        assert(no_ws(t)) by {
            assert forall|i: int| 0 <= i < t.len() implies !is_ws(#[trigger] t[i]) by {
                assert(t[i] == s[i]);
            }
        }
        lemma_words_scan_single(t);
        assert(!is_ws(s.last())) by {
            assert(s[s.len() - 1] == s.last());
        }
        assert(t.push(s.last()) =~= s);
    } else {
        assert(s =~= Seq::<char>::empty());
    }
}

proof fn lemma_squash_single(s: Seq<char>)
    requires
        single_dashes(s),
    ensures
        squash_dashes(s) == s,
    decreases s.len(),
{
    if s.len() > 0 {
        let t = s.drop_last();
        assert(single_dashes(t)) by {
            assert forall|i: int| 0 <= i < t.len() - 1 implies !(#[trigger] t[i] == '-' && t[i + 1] == '-') by {
                assert(t[i] == s[i] && t[i + 1] == s[i + 1]);
            }
        }
        lemma_squash_single(t);
        if t.len() > 0 {
            assert(t.last() == s[s.len() - 2]);
            assert(!(s[s.len() - 2] == '-' && s[s.len() - 1] == '-'));
        }
        assert(t.push(s.last()) =~= s);
    }
}

/// A name of that shape comes out of every normalization step unchanged.
proof fn lemma_candidate_fixed(c: Seq<char>)
    requires
        tidy_name(c),
        c.len() > 0,
    ensures
        project_name_candidate(c) == c,
{
    // trimming
    assert(!is_ws(c[0]));
    assert(first_non_ws_from(c, 0) == 0);
    let ts = trim_start(c);
    assert(ts =~= c);
    assert(!is_ws(c[c.len() - 1]));
    assert(last_non_ws_before(c, c.len() as int) == c.len());
    assert(trim_end(c) =~= c);
    assert(trim(c) == c);
    // splitting and joining
    lemma_words_scan_single(c);
    assert(words(c) == seq![c]);
    assert(join(seq![c], seq!['-']) == c);
    // forbidden characters
    assert(dash_forbidden(c) =~= c);
    // runs of dashes
    lemma_squash_single(c);
    // dashes at the ends
    assert(first_non_dash_from(c, 0) == 0);
    let t = c.subrange(0, c.len() as int);
    assert(t =~= c);
    assert(last_non_dash_before(t, t.len() as int) == t.len());
    assert(t.subrange(0, t.len() as int) =~= c);
}

/// A normalized project name normalizes to itself: a name the bot shows (on a
/// button, in a list) finds the same project when it is sent back.
pub proof fn law_normalized_name_is_stable(raw: Seq<char>)
    requires
        normalized_project_name(raw) is Ok,
    ensures
        normalized_project_name(normalized_project_name(raw)->Ok_0) == normalized_project_name(raw),
{
    let c = project_name_candidate(raw);
    lemma_candidate_tidy(raw);
    lemma_candidate_fixed(c);
}

/// An accepted project name is non-empty, at most 64 UTF-8 bytes long, and tidy:
/// no whitespace, none of \\ / : * ? " < > |, no "--", and no '-' at either end.
pub proof fn law_normalized_name_shape(raw: Seq<char>)
    requires
        normalized_project_name(raw) is Ok,
    ensures
        normalized_project_name(raw)->Ok_0.len() > 0,
        utf8_len(normalized_project_name(raw)->Ok_0) <= 64,
        tidy_name(normalized_project_name(raw)->Ok_0),
{
    lemma_candidate_tidy(raw);
}

} // verus!
