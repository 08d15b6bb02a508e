//! Ordered association lists with string keys.
//!
//! Both maps of this crate — element attributes and computed property
//! maps — are ordered key/value lists with unique keys. Lookup finds
//! the first entry with the key; insertion replaces that entry in
//! place, or appends when the key is new.

use vstd::prelude::*;

verus! {

/// Index of the first entry with key `k`; the length of `s` if absent.
pub open spec fn al_idx<V>(s: Seq<(Seq<char>, V)>, k: Seq<char>) -> int
    decreases s.len(),
{
    if s.len() == 0 {
        0
    } else if s[0].0 == k {
        0
    } else {
        1 + al_idx(s.skip(1), k)
    }
}

/// Value of the first entry with key `k`, if any.
pub open spec fn al_lookup<V>(s: Seq<(Seq<char>, V)>, k: Seq<char>) -> Option<V> {
    if al_idx(s, k) < s.len() {
        Some(s[al_idx(s, k)].1)
    } else {
        None
    }
}

/// The list after binding `k` to `v`: replaces the first entry with key
/// `k`, or appends a new entry when the key is absent.
pub open spec fn al_insert<V>(s: Seq<(Seq<char>, V)>, k: Seq<char>, v: V) -> Seq<(Seq<char>, V)> {
    if al_idx(s, k) < s.len() {
        s.update(al_idx(s, k), (k, v))
    } else {
        s.push((k, v))
    }
}

/// Keys are pairwise distinct.
pub open spec fn al_wf<V>(s: Seq<(Seq<char>, V)>) -> bool {
    forall|i: int, j: int| 0 <= i < j < s.len() ==> s[i].0 != s[j].0
}

/// `al_idx` stays within bounds, points at the key when in bounds,
/// and every earlier entry has a different key.
pub proof fn lemma_al_idx_props<V>(s: Seq<(Seq<char>, V)>, k: Seq<char>)
    ensures
        0 <= al_idx(s, k) <= s.len(),
        al_idx(s, k) < s.len() ==> s[al_idx(s, k)].0 == k,
        forall|i: int| 0 <= i < al_idx(s, k) ==> s[i].0 != k,
    decreases s.len(),
{
    if s.len() == 0 || s[0].0 == k {
    } else {
        lemma_al_idx_props(s.skip(1), k);
        assert forall|i: int| 0 <= i < al_idx(s, k) implies s[i].0 != k by {
            if i > 0 {
                assert(s.skip(1)[i - 1] == s[i]);
            }
        }
        if al_idx(s, k) < s.len() {
            assert(s.skip(1)[al_idx(s, k) - 1] == s[al_idx(s, k)]);
        }
    }
}

/// Any index whose earlier entries all miss `k`, and which either holds
/// `k` or is the length, is `al_idx`.
pub proof fn lemma_al_idx_unique<V>(s: Seq<(Seq<char>, V)>, k: Seq<char>, j: int)
    requires
        0 <= j <= s.len(),
        forall|i: int| 0 <= i < j ==> s[i].0 != k,
        j < s.len() ==> s[j].0 == k,
    ensures
        al_idx(s, k) == j,
{
    lemma_al_idx_props(s, k);
    if al_idx(s, k) < j {
        assert(s[al_idx(s, k)].0 != k);
    }
    if al_idx(s, k) > j {
        assert(s[j].0 != k);
    }
}

/// Binding `k` preserves well-formedness.
pub proof fn lemma_al_insert_wf<V>(s: Seq<(Seq<char>, V)>, k: Seq<char>, v: V)
    requires
        al_wf(s),
    ensures
        al_wf(al_insert(s, k, v)),
{
    lemma_al_idx_props(s, k);
    let s2 = al_insert(s, k, v);
    if al_idx(s, k) < s.len() {
        assert forall|i: int, j: int| 0 <= i < j < s2.len() implies s2[i].0 != s2[j].0 by {
            assert(s[i].0 != s[j].0);
        }
    } else {
        assert forall|i: int, j: int| 0 <= i < j < s2.len() implies s2[i].0 != s2[j].0 by {
            if j < s.len() {
                assert(s[i].0 != s[j].0);
            } else {
                assert(s[i].0 != k);
            }
        }
    }
}

/// After binding `k` to `v`, looking up `k` yields `v` and every other
/// key is unchanged.
pub proof fn lemma_al_insert_lookup<V>(s: Seq<(Seq<char>, V)>, k: Seq<char>, v: V, p: Seq<char>)
    ensures
        al_lookup(al_insert(s, k, v), p) == (if p == k {
            Some(v)
        } else {
            al_lookup(s, p)
        }),
{
    lemma_al_idx_props(s, k);
    lemma_al_idx_props(s, p);
    let s2 = al_insert(s, k, v);
    let i = al_idx(s, k);
    if p == k {
        if i < s.len() {
            lemma_al_idx_unique(s2, k, i);
        } else {
            lemma_al_idx_unique(s2, k, i);
        }
    } else {
        let q = al_idx(s, p);
        if i < s.len() {
            // keys are unchanged by the update
            if q < s.len() {
                lemma_al_idx_unique(s2, p, q);
                assert(s2[q] == s[q]);
            } else {
                lemma_al_idx_unique(s2, p, q);
            }
        } else {
            if q < s.len() {
                lemma_al_idx_unique(s2, p, q);
                assert(s2[q] == s[q]);
            } else {
                lemma_al_idx_unique(s2, p, s2.len() as int);
            }
        }
    }
}

} // verus!
