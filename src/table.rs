//! Tables keyed by name, held as entries in strictly increasing key order.

use vstd::prelude::*;
use crate::keys::{compare_keys, key_lt, lemma_key_lt_irreflexive, lemma_key_lt_transitive};

verus! {

/// A table held as entries in strictly increasing key order.
pub open spec fn keyed<V>(t: Seq<(String, V)>) -> Seq<(Seq<char>, V)> {
    t.map_values(|e: (String, V)| (e.0@, e.1))
}

pub open spec fn keys_sorted<V>(s: Seq<(Seq<char>, V)>) -> bool {
    forall|i: int, j: int| 0 <= i < j < s.len() ==> key_lt(#[trigger] s[i].0, #[trigger] s[j].0)
}

pub open spec fn has_key<V>(s: Seq<(Seq<char>, V)>, k: Seq<char>) -> bool {
    exists|i: int| 0 <= i < s.len() && #[trigger] s[i].0 == k
}

/// The index at which a key stands, where it does.
pub open spec fn key_index<V>(s: Seq<(Seq<char>, V)>, k: Seq<char>) -> int {
    choose|i: int| 0 <= i < s.len() && #[trigger] s[i].0 == k
}

/// The mapping that a table stands for.
pub open spec fn table_map<V>(s: Seq<(Seq<char>, V)>) -> Map<Seq<char>, V> {
    Map::new(|k: Seq<char>| has_key(s, k), |k: Seq<char>| s[key_index(s, k)].1)
}

pub proof fn lemma_sorted_unique<V>(s: Seq<(Seq<char>, V)>, i: int, j: int)
    requires
        keys_sorted(s),
        0 <= i < s.len(),
        0 <= j < s.len(),
        s[i].0 == s[j].0,
    ensures
        i == j,
{
    if i < j {
        lemma_key_lt_irreflexive(s[i].0);
    } else if j < i {
        lemma_key_lt_irreflexive(s[i].0);
    }
}

/// In a sorted table the entry at a key is the one the mapping gives.
pub proof fn lemma_table_map_at<V>(s: Seq<(Seq<char>, V)>, i: int)
    requires
        keys_sorted(s),
        0 <= i < s.len(),
    ensures
        table_map(s).contains_key(s[i].0),
        table_map(s)[s[i].0] == s[i].1,
{
    let k = s[i].0;
    assert(has_key(s, k));
    let c = key_index(s, k);
    lemma_sorted_unique(s, i, c);
}

pub proof fn lemma_table_insert<V>(s: Seq<(Seq<char>, V)>, p: int, k: Seq<char>, v: V)
    requires
        keys_sorted(s),
        0 <= p <= s.len(),
        forall|i: int| 0 <= i < p ==> key_lt(#[trigger] s[i].0, k),
        forall|i: int| p <= i < s.len() ==> key_lt(k, #[trigger] s[i].0),
    ensures
        keys_sorted(s.insert(p, (k, v))),
        !has_key(s, k),
        table_map(s.insert(p, (k, v))) == table_map(s).insert(k, v),
{
    let t = s.insert(p, (k, v));
    assert forall|i: int, j: int| 0 <= i < j < t.len() implies key_lt(
        #[trigger] t[i].0,
        #[trigger] t[j].0,
    ) by {
        if i < p && j > p {
            lemma_key_lt_transitive(t[i].0, k, t[j].0);
        }
    }
    if has_key(s, k) {
        let c = choose|c: int| 0 <= c < s.len() && #[trigger] s[c].0 == k;
        lemma_key_lt_irreflexive(k);
    }
    assert forall|kk: Seq<char>| has_key(t, kk) <==> (has_key(s, kk) || kk == k) by {
        if has_key(s, kk) {
            let c = choose|c: int| 0 <= c < s.len() && #[trigger] s[c].0 == kk;
            if c < p {
                assert(t[c].0 == kk);
            } else {
                assert(t[c + 1].0 == kk);
            }
        }
        if kk == k {
            assert(t[p].0 == kk);
        }
        if has_key(t, kk) && kk != k {
            let c = choose|c: int| 0 <= c < t.len() && #[trigger] t[c].0 == kk;
            if c < p {
                assert(s[c].0 == kk);
            } else {
                assert(s[c - 1].0 == kk);
            }
        }
    }
    assert forall|kk: Seq<char>| #[trigger] table_map(t).contains_key(kk) implies table_map(t)[kk]
        == table_map(s).insert(k, v)[kk] by {
        if kk == k {
            lemma_table_map_at(t, p);
        } else {
            let c = choose|c: int| 0 <= c < s.len() && #[trigger] s[c].0 == kk;
            lemma_table_map_at(s, c);
            if c < p {
                lemma_table_map_at(t, c);
            } else {
                lemma_table_map_at(t, c + 1);
            }
        }
    }
    assert(table_map(t) =~= table_map(s).insert(k, v));
}

/// Where `k` stands in a sorted table: its index when present, else the index
/// at which it would be inserted.
pub fn seek<V>(t: &Vec<(String, V)>, k: &str) -> (r: (usize, bool))
    requires
        keys_sorted(keyed(t@)),
    ensures
        r.0 <= t@.len(),
        r.1 == has_key(keyed(t@), k@),
        r.1 ==> r.0 < t@.len() && t@[r.0 as int].0@ == k@,
        !r.1 ==> (forall|i: int| 0 <= i < r.0 ==> key_lt(#[trigger] keyed(t@)[i].0, k@)),
        !r.1 ==> (forall|i: int|
            r.0 <= i < t@.len() ==> key_lt(k@, #[trigger] keyed(t@)[i].0)),
{
    let ghost s = keyed(t@);
    let mut i: usize = 0;
    while i < t.len()
        invariant
            s == keyed(t@),
            keys_sorted(s),
            i <= t@.len(),
            forall|j: int| 0 <= j < i ==> key_lt(#[trigger] s[j].0, k@),
        decreases t@.len() - i,
    {
        let c = compare_keys(t[i].0.as_str(), k);
        if c == 0 {
            assert(s[i as int].0 == k@);
            return (i, true);
        }
        if c > 0 {
            assert forall|j: int| i <= j < t@.len() implies key_lt(k@, #[trigger] s[j].0) by {
                if j > i {
                    lemma_key_lt_transitive(k@, s[i as int].0, s[j].0);
                }
            }
            assert(!has_key(s, k@)) by {
                if has_key(s, k@) {
                    let c = choose|c: int| 0 <= c < s.len() && #[trigger] s[c].0 == k@;
                    lemma_key_lt_irreflexive(k@);
                }
            }
            return (i, false);
        }
        i = i + 1;
    }
    assert(!has_key(s, k@)) by {
        if has_key(s, k@) {
            let c = choose|c: int| 0 <= c < s.len() && #[trigger] s[c].0 == k@;
            lemma_key_lt_irreflexive(k@);
        }
    }
    (i, false)
}

} // verus!
