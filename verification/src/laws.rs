//! What holds of the operations of the set taken together, stated over the
//! sequences of elements by which the contracts of the operations speak.

use crate::merge::{
    difference_of, intersection_of, lemma_filter_ascending, lemma_symmetric_difference_of,
    lemma_union_of, member_of, not_member_of, symmetric_difference_of, union_of,
};
use crate::order::{lt, total_order};
use crate::sorted::{
    count_below, lemma_absent_splits, lemma_ascending_unique, lemma_insert_ascending,
    lemma_rank_count, strictly_ascending,
};
use vstd::prelude::*;

verus! {

/// Inserting a value that a set does not hold and then removing it gives the
/// set back: `insert` puts the value at the place `count_below` and `remove`
/// takes the element at that place out again.
pub proof fn lemma_insert_then_remove<T: Ord>(s: Seq<T>, v: T)
    requires
        total_order::<T>(),
        strictly_ascending(s),
        !s.contains(v),
    ensures
        strictly_ascending(s.insert(count_below(s, v), v)),
        s.insert(count_below(s, v), v).contains(v),
        count_below(s.insert(count_below(s, v), v), v) == count_below(s, v),
        s.insert(count_below(s, v), v).remove(count_below(s.insert(count_below(s, v), v), v)) == s,
{
    let q = count_below(s, v);
    lemma_absent_splits(s, v);
    lemma_insert_ascending(s, q, v);
    let mid = s.insert(q, v);
    assert(mid[q] == v);
    lemma_rank_count(mid, q);
    assert(mid.remove(q) =~= s);
}

/// The element at the rank of a value that the set holds is that value:
/// `select` undoes `rank`.
pub proof fn lemma_select_of_rank<T: Ord>(s: Seq<T>, v: T)
    requires
        total_order::<T>(),
        strictly_ascending(s),
        s.contains(v),
    ensures
        0 <= count_below(s, v) < s.len(),
        s[count_below(s, v)] == v,
{
    let i = choose|i: int| 0 <= i < s.len() && s[i] == v;
    lemma_rank_count(s, i);
}

/// The rank of the element at a rank is that rank: `rank` undoes `select`.
pub proof fn lemma_rank_of_select<T: Ord>(s: Seq<T>, i: int)
    requires
        total_order::<T>(),
        strictly_ascending(s),
        0 <= i < s.len(),
    ensures
        s.contains(s[i]),
        count_below(s, s[i]) == i,
{
    lemma_rank_count(s, i);
}

/// An iterator over a set `s` starts with all of `s` left. Iteration from the
/// front hands out `s[0]`, `s[1]`, ..., so that the step `nth(i)` of a fresh
/// iterator gives the element `s[i]` that `select(i)` gives, and each element
/// is below the ones handed out after it. Iteration from the back hands out
/// `s[len - 1]`, `s[len - 2]`, ...: each element is above the ones handed out
/// after it.
pub proof fn lemma_iteration_order<T: Ord>(s: Seq<T>, i: int, j: int)
    requires
        strictly_ascending(s),
        0 <= i < j < s.len(),
    ensures
        lt(s[i], s[j]),
        lt(s[s.len() - 1 - j], s[s.len() - 1 - i]),
{
}

/// The difference iterator hands out, in ascending order and each once, the
/// elements of the first set that the second does not hold.
pub proof fn lemma_difference<T: Ord>(a: Seq<T>, b: Seq<T>)
    requires
        total_order::<T>(),
        strictly_ascending(a),
    ensures
        strictly_ascending(difference_of(a, b)),
        difference_of(a, b).to_set() == a.to_set().difference(b.to_set()),
{
    lemma_filter_ascending(a, not_member_of(b));
    assert(difference_of(a, b).to_set() =~= a.to_set().difference(b.to_set()));
}

/// The intersection iterator hands out, in ascending order and each once,
/// the elements that both sets hold.
pub proof fn lemma_intersection<T: Ord>(a: Seq<T>, b: Seq<T>)
    requires
        total_order::<T>(),
        strictly_ascending(a),
    ensures
        strictly_ascending(intersection_of(a, b)),
        intersection_of(a, b).to_set() == a.to_set().intersect(b.to_set()),
{
    lemma_filter_ascending(a, member_of(b));
    assert(intersection_of(a, b).to_set() =~= a.to_set().intersect(b.to_set()));
}

/// The union iterator hands out, in ascending order and each once, the
/// elements that either set holds.
pub proof fn lemma_union<T: Ord>(a: Seq<T>, b: Seq<T>)
    requires
        total_order::<T>(),
        strictly_ascending(a),
        strictly_ascending(b),
    ensures
        strictly_ascending(union_of(a, b)),
        union_of(a, b).to_set() == a.to_set().union(b.to_set()),
{
    lemma_union_of(a, b);
    assert(union_of(a, b).to_set() =~= a.to_set().union(b.to_set()));
}

/// The symmetric difference iterator hands out, in ascending order and each
/// once, the elements that exactly one of the sets holds.
pub proof fn lemma_symmetric_difference<T: Ord>(a: Seq<T>, b: Seq<T>)
    requires
        total_order::<T>(),
        strictly_ascending(a),
        strictly_ascending(b),
    ensures
        strictly_ascending(symmetric_difference_of(a, b)),
        symmetric_difference_of(a, b).to_set() == a.to_set().difference(b.to_set()).union(
            b.to_set().difference(a.to_set()),
        ),
{
    lemma_symmetric_difference_of(a, b);
    assert(symmetric_difference_of(a, b).to_set() =~= a.to_set().difference(b.to_set()).union(
        b.to_set().difference(a.to_set()),
    ));
}

/// A set that is turned into the sequence of its elements and built again
/// from that sequence holds the same elements at the same ranks: two
/// well-formed sets with the same values are equal.
pub proof fn lemma_round_trip<T: Ord>(set: Seq<T>, rebuilt: Seq<T>)
    requires
        total_order::<T>(),
        strictly_ascending(set),
        strictly_ascending(rebuilt),
        rebuilt.to_set() == set.to_set(),
    ensures
        rebuilt == set,
{
    lemma_ascending_unique(rebuilt, set);
}

} // verus!
