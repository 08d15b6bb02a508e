//! Selector specificity ordering and a stable insertion sort.
//!
//! Specificity is the triple `(id count, class count, tag count)`,
//! compared lexicographically: id dominates class dominates tag.
//! The sort specification inserts each new element after every element
//! it does not strictly precede, which keeps elements with equal keys
//! in their original relative order (stability).

use vstd::prelude::*;
use vstd::calc;

verus! {

/// A selector's matching precedence: id count, class count, tag count.
pub type Specificity = (usize, usize, usize);

/// Strict lexicographic order on specificities.
pub open spec fn spec_lt(a: Specificity, b: Specificity) -> bool {
    a.0 < b.0 || (a.0 == b.0 && (a.1 < b.1 || (a.1 == b.1 && a.2 < b.2)))
}

/// Non-strict lexicographic order on specificities.
pub open spec fn spec_le(a: Specificity, b: Specificity) -> bool {
    spec_lt(a, b) || a == b
}

/// Executable strict comparison of specificities.
pub fn specificity_lt(a: Specificity, b: Specificity) -> (r: bool)
    ensures
        r == spec_lt(a, b),
{
    a.0 < b.0 || (a.0 == b.0 && (a.1 < b.1 || (a.1 == b.1 && a.2 < b.2)))
}

/// The order is total: two specificities are always comparable.
pub proof fn lemma_spec_lt_total(a: Specificity, b: Specificity)
    ensures
        spec_lt(a, b) || spec_lt(b, a) || a == b,
{
}

/// The order is transitive.
pub proof fn lemma_spec_lt_trans(a: Specificity, b: Specificity, c: Specificity)
    requires
        spec_lt(a, b),
        spec_lt(b, c),
    ensures
        spec_lt(a, c),
{
}

/// Stable insertion of `x` into `t`: `x` lands after every element that
/// does not come strictly after it under `after` (`after(y, x)` reads
/// "y must come after x").
pub open spec fn insert_stable<T>(t: Seq<T>, x: T, after: spec_fn(T, T) -> bool) -> Seq<T>
    decreases t.len(),
{
    if t.len() == 0 {
        seq![x]
    } else if !after(t.last(), x) {
        t.push(x)
    } else {
        insert_stable(t.drop_last(), x, after).push(t.last())
    }
}

/// Stable insertion sort of `s` under `after`.
pub open spec fn sort_stable<T>(s: Seq<T>, after: spec_fn(T, T) -> bool) -> Seq<T>
    decreases s.len(),
{
    if s.len() == 0 {
        Seq::empty()
    } else {
        insert_stable(sort_stable(s.drop_last(), after), s.last(), after)
    }
}

/// Shape of a stable insertion: if every element from position `j` on
/// comes after `x`, and the element before `j` (if any) does not, then
/// inserting `x` splits `t` at `j`.
pub proof fn lemma_insert_stable_shape<T>(t: Seq<T>, x: T, after: spec_fn(T, T) -> bool, j: int)
    requires
        0 <= j <= t.len(),
        forall|m: int| j <= m < t.len() ==> after(t[m], x),
        j > 0 ==> !after(t[j - 1], x),
    ensures
        insert_stable(t, x, after) == t.take(j) + seq![x] + t.skip(j),
    decreases t.len(),
{
    if t.len() == 0 {
        assert(insert_stable(t, x, after) =~= t.take(j) + seq![x] + t.skip(j));
    } else if !after(t.last(), x) {
        assert(j == t.len());
        assert(insert_stable(t, x, after) =~= t.take(j) + seq![x] + t.skip(j));
    } else {
        lemma_insert_stable_shape(t.drop_last(), x, after, j);
        assert(insert_stable(t, x, after) =~= t.take(j) + seq![x] + t.skip(j));
    }
}

/// Inserting adds one element and keeps every element of `t`.
pub proof fn lemma_insert_stable_multiset<T>(t: Seq<T>, x: T, after: spec_fn(T, T) -> bool)
    ensures
        insert_stable(t, x, after).len() == t.len() + 1,
        insert_stable(t, x, after).to_multiset() == t.to_multiset().insert(x),
    decreases t.len(),
{
    broadcast use vstd::seq_lib::group_to_multiset_ensures;
    if t.len() == 0 {
    } else if !after(t.last(), x) {
    } else {
        lemma_insert_stable_multiset(t.drop_last(), x, after);
        assert(t.drop_last().push(t.last()) =~= t);
        calc! {
            (==)
            insert_stable(t, x, after).to_multiset(); {
            }
            insert_stable(t.drop_last(), x, after).to_multiset().insert(t.last()); {
            }
            t.drop_last().to_multiset().insert(x).insert(t.last()); {
                assert(t.drop_last().to_multiset().insert(x).insert(t.last())
                    =~= t.drop_last().to_multiset().insert(t.last()).insert(x));
            }
            t.drop_last().to_multiset().insert(t.last()).insert(x); {
            }
            t.to_multiset().insert(x);
        }
    }
}

/// Sorting keeps exactly the elements of `s`.
pub proof fn lemma_sort_stable_multiset<T>(s: Seq<T>, after: spec_fn(T, T) -> bool)
    ensures
        sort_stable(s, after).len() == s.len(),
        sort_stable(s, after).to_multiset() == s.to_multiset(),
    decreases s.len(),
{
    broadcast use vstd::seq_lib::group_to_multiset_ensures;
    if s.len() == 0 {
    } else {
        lemma_sort_stable_multiset(s.drop_last(), after);
        lemma_insert_stable_multiset(sort_stable(s.drop_last(), after), s.last(), after);
        assert(s.drop_last().push(s.last()) =~= s);
    }
}

} // verus!
