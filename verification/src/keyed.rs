//! Lists of records with unique text keys, seen as maps from key to view.
use vstd::prelude::*;

verus! {

/// A record that is found by a text key.
pub trait Keyed: View + Sized {
    spec fn key_of(&self) -> Seq<char>;

    fn key_ref(&self) -> (r: &String)
        ensures
            r@ == self.key_of(),
    ;
}

/// No two records share a key.
pub open spec fn keys_unique<T: Keyed>(s: Seq<T>) -> bool {
    forall|i: int, j: int|
        0 <= i < s.len() && 0 <= j < s.len() && (#[trigger] s[i]).key_of() == (#[trigger] s[j]).key_of()
            ==> i == j
}

/// Some record has key `k`.
pub open spec fn has_key<T: Keyed>(s: Seq<T>, k: Seq<char>) -> bool {
    exists|i: int| 0 <= i < s.len() && (#[trigger] s[i]).key_of() == k
}

/// The position of the record with key `k`.
pub open spec fn index_of<T: Keyed>(s: Seq<T>, k: Seq<char>) -> int {
    choose|i: int| 0 <= i < s.len() && (#[trigger] s[i]).key_of() == k
}

/// The records as a map from key to view.
pub open spec fn keyed<T: Keyed>(s: Seq<T>) -> Map<Seq<char>, T::V> {
    Map::new(|k: Seq<char>| has_key(s, k), |k: Seq<char>| s[index_of(s, k)]@)
}

pub proof fn lemma_keyed_at<T: Keyed>(s: Seq<T>, i: int)
    requires
        keys_unique(s),
        0 <= i < s.len(),
    ensures
        keyed(s).contains_key(s[i].key_of()),
        keyed(s)[s[i].key_of()] == s[i]@,
        index_of(s, s[i].key_of()) == i,
{
    assert(has_key(s, s[i].key_of()));
    let j = index_of(s, s[i].key_of());
    assert(s[j].key_of() == s[i].key_of());
}

pub proof fn lemma_keyed_absent<T: Keyed>(s: Seq<T>, k: Seq<char>)
    requires
        !has_key(s, k),
    ensures
        !keyed(s).contains_key(k),
        forall|i: int| 0 <= i < s.len() ==> (#[trigger] s[i]).key_of() != k,
{
}

pub proof fn lemma_keyed_update<T: Keyed>(s: Seq<T>, i: int, x: T)
    requires
        keys_unique(s),
        0 <= i < s.len(),
        x.key_of() == s[i].key_of(),
    ensures
        keys_unique(s.update(i, x)),
        keyed(s.update(i, x)) == keyed(s).insert(x.key_of(), x@),
        forall|k: Seq<char>| has_key(s.update(i, x), k) == has_key(s, k),
{
    let t = s.update(i, x);
    assert forall|k: Seq<char>| has_key(t, k) == has_key(s, k) by {
        if has_key(t, k) {
            let j = choose|j: int| 0 <= j < t.len() && (#[trigger] t[j]).key_of() == k;
            assert(s[j].key_of() == k);
        }
        if has_key(s, k) {
            let j = choose|j: int| 0 <= j < s.len() && (#[trigger] s[j]).key_of() == k;
            assert(t[j].key_of() == k);
        }
    }
    assert forall|a: int, b: int|
        0 <= a < t.len() && 0 <= b < t.len() && (#[trigger] t[a]).key_of() == (#[trigger] t[b]).key_of()
            implies a == b by {
        assert(s[a].key_of() == t[a].key_of());
        assert(s[b].key_of() == t[b].key_of());
    }
    assert forall|k: Seq<char>| #[trigger] keyed(t).contains_key(k) implies keyed(t)[k] == keyed(s).insert(x.key_of(), x@)[k] by {
        let j = index_of(t, k);
        lemma_keyed_at(t, j);
        if j != i {
            lemma_keyed_at(s, j);
        }
    }
    assert(keyed(t) =~= keyed(s).insert(x.key_of(), x@));
}

pub proof fn lemma_keyed_push<T: Keyed>(s: Seq<T>, x: T)
    requires
        keys_unique(s),
        !has_key(s, x.key_of()),
    ensures
        keys_unique(s.push(x)),
        keyed(s.push(x)) == keyed(s).insert(x.key_of(), x@),
        forall|k: Seq<char>| has_key(s.push(x), k) == (has_key(s, k) || k == x.key_of()),
{
    let t = s.push(x);
    assert forall|k: Seq<char>| has_key(t, k) == (has_key(s, k) || k == x.key_of()) by {
        if has_key(t, k) {
            let j = choose|j: int| 0 <= j < t.len() && (#[trigger] t[j]).key_of() == k;
            if j < s.len() {
                assert(s[j].key_of() == k);
            }
        }
        if has_key(s, k) {
            let j = choose|j: int| 0 <= j < s.len() && (#[trigger] s[j]).key_of() == k;
            assert(t[j].key_of() == k);
        }
        if k == x.key_of() {
            assert(t[s.len() as int].key_of() == k);
        }
    }
    assert forall|a: int, b: int|
        0 <= a < t.len() && 0 <= b < t.len() && (#[trigger] t[a]).key_of() == (#[trigger] t[b]).key_of()
            implies a == b by {
        if a < s.len() {
            assert(t[a] == s[a]);
        }
        if b < s.len() {
            assert(t[b] == s[b]);
        }
    }
    assert forall|k: Seq<char>| #[trigger] keyed(t).contains_key(k) implies keyed(t)[k] == keyed(s).insert(x.key_of(), x@)[k] by {
        let j = index_of(t, k);
        lemma_keyed_at(t, j);
        if j < s.len() {
            assert(t[j] == s[j]);
            lemma_keyed_at(s, j);
        }
    }
    assert(keyed(t) =~= keyed(s).insert(x.key_of(), x@));
}

pub proof fn lemma_keyed_insert<T: Keyed>(s: Seq<T>, p: int, x: T)
    requires
        keys_unique(s),
        0 <= p <= s.len(),
        !has_key(s, x.key_of()),
    ensures
        keys_unique(s.insert(p, x)),
        keyed(s.insert(p, x)) == keyed(s).insert(x.key_of(), x@),
        forall|k: Seq<char>| has_key(s.insert(p, x), k) == (has_key(s, k) || k == x.key_of()),
{
    let t = s.insert(p, x);
    assert forall|j: int| 0 <= j < t.len() implies (#[trigger] t[j]) == if j < p { s[j] } else if j == p { x } else { s[j - 1] } by {
    }
    assert forall|k: Seq<char>| has_key(t, k) == (has_key(s, k) || k == x.key_of()) by {
        if has_key(t, k) {
            let j = choose|j: int| 0 <= j < t.len() && (#[trigger] t[j]).key_of() == k;
            if j < p {
                assert(s[j].key_of() == k);
            } else if j > p {
                assert(s[j - 1].key_of() == k);
            }
        }
        if has_key(s, k) {
            let j = choose|j: int| 0 <= j < s.len() && (#[trigger] s[j]).key_of() == k;
            if j < p {
                assert(t[j].key_of() == k);
            } else {
                assert(t[j + 1].key_of() == k);
            }
        }
        if k == x.key_of() {
            assert(t[p].key_of() == k);
        }
    }
    assert forall|a: int, b: int|
        0 <= a < t.len() && 0 <= b < t.len() && (#[trigger] t[a]).key_of() == (#[trigger] t[b]).key_of()
            implies a == b by {
        if a < p && b > p {
            assert(s[a].key_of() == s[b - 1].key_of());
        } else if a > p && b < p {
            assert(s[a - 1].key_of() == s[b].key_of());
        } else if a > p && b > p {
            assert(s[a - 1].key_of() == s[b - 1].key_of());
        } else if a == p && b != p {
            if b < p {
                assert(s[b].key_of() == x.key_of());
            } else {
                assert(s[b - 1].key_of() == x.key_of());
            }
        } else if b == p && a != p {
            if a < p {
                assert(s[a].key_of() == x.key_of());
            } else {
                assert(s[a - 1].key_of() == x.key_of());
            }
        }
    }
    assert forall|k: Seq<char>| #[trigger] keyed(t).contains_key(k) implies keyed(t)[k] == keyed(s).insert(x.key_of(), x@)[k] by {
        let j = index_of(t, k);
        lemma_keyed_at(t, j);
        if j < p {
            lemma_keyed_at(s, j);
        } else if j > p {
            lemma_keyed_at(s, j - 1);
        }
    }
    assert(keyed(t) =~= keyed(s).insert(x.key_of(), x@));
}

pub proof fn lemma_keyed_remove<T: Keyed>(s: Seq<T>, i: int)
    requires
        keys_unique(s),
        0 <= i < s.len(),
    ensures
        keys_unique(s.remove(i)),
        keyed(s.remove(i)) == keyed(s).remove(s[i].key_of()),
        forall|k: Seq<char>| has_key(s.remove(i), k) == (has_key(s, k) && k != s[i].key_of()),
{
    let t = s.remove(i);
    assert forall|j: int| 0 <= j < t.len() implies (#[trigger] t[j]) == if j < i { s[j] } else { s[j + 1] } by {
    }
    assert forall|k: Seq<char>| has_key(t, k) == (has_key(s, k) && k != s[i].key_of()) by {
        if has_key(t, k) {
            let j = choose|j: int| 0 <= j < t.len() && (#[trigger] t[j]).key_of() == k;
            if j < i {
                assert(s[j].key_of() == k);
            } else {
                assert(s[j + 1].key_of() == k);
            }
        }
        if has_key(s, k) && k != s[i].key_of() {
            let j = choose|j: int| 0 <= j < s.len() && (#[trigger] s[j]).key_of() == k;
            if j < i {
                assert(t[j].key_of() == k);
            } else {
                assert(t[j - 1].key_of() == k);
            }
        }
    }
    assert forall|a: int, b: int|
        0 <= a < t.len() && 0 <= b < t.len() && (#[trigger] t[a]).key_of() == (#[trigger] t[b]).key_of()
            implies a == b by {
        let a2 = if a < i { a } else { a + 1 };
        let b2 = if b < i { b } else { b + 1 };
        assert(s[a2].key_of() == s[b2].key_of());
    }
    assert forall|k: Seq<char>| #[trigger] keyed(t).contains_key(k) implies keyed(t)[k] == keyed(s).remove(s[i].key_of())[k] by {
        let j = index_of(t, k);
        lemma_keyed_at(t, j);
        if j < i {
            lemma_keyed_at(s, j);
        } else {
            lemma_keyed_at(s, j + 1);
        }
    }
    assert(keyed(t) =~= keyed(s).remove(s[i].key_of()));
}

/// The position of the record with key `k`, if any.
pub fn find_key<T: Keyed>(v: &Vec<T>, k: &String) -> (r: Option<usize>)
    requires
        keys_unique(v@),
    ensures
        match r {
            Some(i) => i < v@.len() && v@[i as int].key_of() == k@ && index_of(v@, k@) == i && has_key(v@, k@),
            None => !has_key(v@, k@) && !keyed(v@).contains_key(k@),
        },
{
    let mut i: usize = 0;
    while i < v.len()
        invariant
            keys_unique(v@),
            i <= v@.len(),
            forall|j: int| 0 <= j < i ==> (#[trigger] v@[j]).key_of() != k@,
        decreases v@.len() - i,
    {
        if *v[i].key_ref() == *k {
            proof {
                lemma_keyed_at(v@, i as int);
            }
            return Some(i);
        }
        i = i + 1;
    }
    None
}


/// The number of keys is the number of records.
pub proof fn lemma_keyed_len<T: Keyed>(s: Seq<T>)
    requires
        keys_unique(s),
    ensures
        keyed(s).dom().finite(),
        keyed(s).dom().len() == s.len(),
{
    let ks = s.map_values(|x: T| x.key_of());
    assert forall|k: Seq<char>| keyed(s).dom().contains(k) == ks.to_set().contains(k) by {
        if keyed(s).dom().contains(k) {
            let i = index_of(s, k);
            assert(ks[i] == k);
        }
        if ks.to_set().contains(k) {
            let i = choose|i: int| 0 <= i < ks.len() && ks[i] == k;
            assert(s[i].key_of() == k);
        }
    }
    assert(keyed(s).dom() =~= ks.to_set());
    assert(ks.no_duplicates()) by {
        assert forall|i: int, j: int| 0 <= i < ks.len() && 0 <= j < ks.len() && i != j implies #[trigger] ks[i] != #[trigger] ks[j] by {
            assert(s[i].key_of() == ks[i] && s[j].key_of() == ks[j]);
            if ks[i] == ks[j] {
                assert(s[i].key_of() == s[j].key_of());
            }
        }
    }
    ks.unique_seq_to_set();
    vstd::seq_lib::seq_to_set_is_finite(ks);
}

} // verus!
