//! A list of pairs read as a map: what the replay keeps its trees and shelves
//! in, and what their contracts speak of.

use vstd::prelude::*;

verus! {

/// No key twice.
pub open spec fn unique<K, V>(s: Seq<(K, V)>) -> bool {
    forall|i: int, j: int| 0 <= i < j < s.len() ==> #[trigger] s[i].0 != #[trigger] s[j].0
}

/// Whether some pair has key `k`.
pub open spec fn holds<K, V>(s: Seq<(K, V)>, k: K) -> bool {
    exists|i: int| 0 <= i < s.len() && #[trigger] s[i].0 == k
}

/// The pairs, as the map they spell: each key to the value beside it.
pub open spec fn as_map<K, V>(s: Seq<(K, V)>) -> Map<K, V> {
    Map::new(
        |k: K| holds(s, k),
        |k: K| s[choose|i: int| 0 <= i < s.len() && #[trigger] s[i].0 == k].1,
    )
}

/// The keys, in the order the pairs stand.
pub open spec fn keys<K, V>(s: Seq<(K, V)>) -> Seq<K> {
    s.map_values(|pair: (K, V)| pair.0)
}

pub proof fn lemma_index<K, V>(s: Seq<(K, V)>, i: int)
    requires
        unique(s),
        0 <= i < s.len(),
    ensures
        as_map(s).contains_key(s[i].0),
        as_map(s)[s[i].0] == s[i].1,
{
    assert(holds(s, s[i].0));
    let j = choose|j: int| 0 <= j < s.len() && #[trigger] s[j].0 == s[i].0;
    if j != i {
        if j < i {
            assert(s[j].0 != s[i].0);
        } else {
            assert(s[i].0 != s[j].0);
        }
    }
}

pub proof fn lemma_absent<K, V>(s: Seq<(K, V)>, k: K)
    requires
        forall|i: int| 0 <= i < s.len() ==> #[trigger] s[i].0 != k,
    ensures
        !as_map(s).contains_key(k),
{
}

/// Every pair's value, read back through the map.
pub proof fn lemma_all<K, V>(s: Seq<(K, V)>)
    requires
        unique(s),
    ensures
        forall|i: int| 0 <= i < s.len() ==> as_map(s).contains_key(#[trigger] s[i].0) && as_map(
            s,
        )[s[i].0] == s[i].1,
{
    assert forall|i: int| 0 <= i < s.len() implies as_map(s).contains_key(#[trigger] s[i].0)
        && as_map(s)[s[i].0] == s[i].1 by {
        lemma_index(s, i);
    }
}

pub proof fn lemma_update<K, V>(s: Seq<(K, V)>, i: int, v: V)
    requires
        unique(s),
        0 <= i < s.len(),
    ensures
        unique(s.update(i, (s[i].0, v))),
        as_map(s.update(i, (s[i].0, v))) == as_map(s).insert(s[i].0, v),
{
    let t = s.update(i, (s[i].0, v));
    assert(unique(t)) by {
        assert forall|a: int, b: int| 0 <= a < b < t.len() implies #[trigger] t[a].0
            != #[trigger] t[b].0 by {
            assert(t[a].0 == s[a].0 && t[b].0 == s[b].0);
        }
    }
    lemma_all(s);
    lemma_all(t);
    assert(as_map(t) =~= as_map(s).insert(s[i].0, v)) by {
        assert forall|k: K| #[trigger] as_map(t).contains_key(k) <==> as_map(s).insert(
            s[i].0,
            v,
        ).contains_key(k) by {
            if holds(t, k) {
                let j = choose|j: int| 0 <= j < t.len() && #[trigger] t[j].0 == k;
                assert(s[j].0 == k);
            }
            if holds(s, k) {
                let j = choose|j: int| 0 <= j < s.len() && #[trigger] s[j].0 == k;
                assert(t[j].0 == k);
            }
        }
        assert forall|k: K| #[trigger] as_map(t).contains_key(k) implies as_map(t)[k] == as_map(
            s,
        ).insert(s[i].0, v)[k] by {
            let j = choose|j: int| 0 <= j < t.len() && #[trigger] t[j].0 == k;
            assert(t[j].0 == s[j].0);
        }
    }
}

pub proof fn lemma_insert<K, V>(s: Seq<(K, V)>, i: int, k: K, v: V)
    requires
        unique(s),
        0 <= i <= s.len(),
        !holds(s, k),
    ensures
        unique(s.insert(i, (k, v))),
        as_map(s.insert(i, (k, v))) == as_map(s).insert(k, v),
{
    let t = s.insert(i, (k, v));
    assert(forall|a: int| 0 <= a < i ==> t[a] == s[a]);
    assert(forall|a: int| i < a < t.len() ==> t[a] == s[a - 1]);
    assert(unique(t)) by {
        assert forall|a: int, b: int| 0 <= a < b < t.len() implies #[trigger] t[a].0
            != #[trigger] t[b].0 by {
            if a == i {
                assert(s[b - 1].0 != k);
            } else if b == i {
                assert(s[a].0 != k);
            } else if a < i && b > i {
                assert(t[b].0 == s[b - 1].0);
            } else if a > i {
                assert(t[a].0 == s[a - 1].0 && t[b].0 == s[b - 1].0);
            }
        }
    }
    lemma_all(s);
    lemma_all(t);
    assert(as_map(t) =~= as_map(s).insert(k, v)) by {
        assert forall|q: K| #[trigger] as_map(t).contains_key(q) <==> as_map(s).insert(
            k,
            v,
        ).contains_key(q) by {
            if holds(t, q) {
                let j = choose|j: int| 0 <= j < t.len() && #[trigger] t[j].0 == q;
                if j < i {
                    assert(s[j].0 == q);
                } else if j > i {
                    assert(s[j - 1].0 == q);
                }
            }
            if holds(s, q) {
                let j = choose|j: int| 0 <= j < s.len() && #[trigger] s[j].0 == q;
                if j < i {
                    assert(t[j].0 == q);
                } else {
                    assert(t[j + 1].0 == q);
                }
            }
            if q == k {
                assert(t[i].0 == k);
            }
        }
        assert forall|q: K| #[trigger] as_map(t).contains_key(q) implies as_map(t)[q] == as_map(
            s,
        ).insert(k, v)[q] by {
            let j = choose|j: int| 0 <= j < t.len() && #[trigger] t[j].0 == q;
            if j < i {
                assert(t[j] == s[j]);
            } else if j > i {
                assert(t[j] == s[j - 1]);
            }
        }
    }
}

pub proof fn lemma_remove<K, V>(s: Seq<(K, V)>, i: int)
    requires
        unique(s),
        0 <= i < s.len(),
    ensures
        unique(s.remove(i)),
        as_map(s.remove(i)) == as_map(s).remove(s[i].0),
{
    let t = s.remove(i);
    assert(forall|a: int| 0 <= a < i ==> t[a] == s[a]);
    assert(forall|a: int| i <= a < t.len() ==> t[a] == s[a + 1]);
    assert(unique(t)) by {
        assert forall|a: int, b: int| 0 <= a < b < t.len() implies #[trigger] t[a].0
            != #[trigger] t[b].0 by {
            if b < i {
            } else if a < i {
                assert(t[b].0 == s[b + 1].0);
            } else {
                assert(t[a].0 == s[a + 1].0 && t[b].0 == s[b + 1].0);
            }
        }
    }
    lemma_all(s);
    lemma_all(t);
    assert(as_map(t) =~= as_map(s).remove(s[i].0)) by {
        assert forall|q: K| #[trigger] as_map(t).contains_key(q) <==> as_map(s).remove(
            s[i].0,
        ).contains_key(q) by {
            if holds(t, q) {
                let j = choose|j: int| 0 <= j < t.len() && #[trigger] t[j].0 == q;
                if j < i {
                    assert(s[j].0 == q);
                    assert(s[j].0 != s[i].0);
                } else {
                    assert(s[j + 1].0 == q);
                    assert(s[i].0 != s[j + 1].0);
                }
            }
            if holds(s, q) && q != s[i].0 {
                let j = choose|j: int| 0 <= j < s.len() && #[trigger] s[j].0 == q;
                if j < i {
                    assert(t[j].0 == q);
                } else {
                    assert(t[j - 1].0 == q);
                }
            }
        }
        assert forall|q: K| #[trigger] as_map(t).contains_key(q) implies as_map(t)[q] == as_map(
            s,
        ).remove(s[i].0)[q] by {
            let j = choose|j: int| 0 <= j < t.len() && #[trigger] t[j].0 == q;
            if j < i {
                assert(t[j] == s[j]);
            } else {
                assert(t[j] == s[j + 1]);
            }
        }
    }
}

pub proof fn lemma_len<K, V>(s: Seq<(K, V)>)
    requires
        unique(s),
    ensures
        as_map(s).len() == s.len(),
{
    let k = keys(s);
    assert(k.no_duplicates()) by {
        assert forall|i: int, j: int| 0 <= i < k.len() && 0 <= j < k.len() && i != j implies k[i]
            != k[j] by {
            if i < j {
                assert(s[i].0 != s[j].0);
            } else {
                assert(s[j].0 != s[i].0);
            }
        }
    }
    k.unique_seq_to_set();
    assert(as_map(s).dom() =~= k.to_set()) by {
        assert forall|q: K| #[trigger] as_map(s).dom().contains(q) <==> k.to_set().contains(q) by {
            if holds(s, q) {
                let j = choose|j: int| 0 <= j < s.len() && #[trigger] s[j].0 == q;
                assert(k[j] == q);
            }
            if k.to_set().contains(q) {
                let j = choose|j: int| 0 <= j < k.len() && k[j] == q;
                assert(s[j].0 == q);
            }
        }
    }
}

} // verus!
