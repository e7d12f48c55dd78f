//! The calls whose contracts are taken on trust: the sort of the standard
//! library and the sortedness test of the `is_sorted` crate.

use crate::order::{lt, total_order};
use is_sorted::IsSorted;
use vstd::prelude::*;

verus! {

/// No element of `s` is below the element before it.
pub open spec fn nondecreasing<T: Ord>(s: Seq<T>) -> bool {
    forall|i: int| 0 < i < s.len() ==> !lt(#[trigger] s[i], s[i - 1])
}

/// Sorts `v` with `sort_unstable` of the standard library. Trusted: the
/// result is a rearrangement of the elements in which no element is below the
/// one before it. The order of `T` has to be total, as the standard library
/// asks.
#[verifier::external_body]
pub(crate) fn sort_unstable<T: Ord>(v: &mut Vec<T>)
    requires
        total_order::<T>(),
    ensures
        final(v)@.to_multiset() == old(v)@.to_multiset(),
        nondecreasing(final(v)@),
{
    v.sort_unstable();
}

/// Asks `is_sorted::IsSorted::is_sorted` whether `v` is sorted. Trusted: the
/// answer is `true` exactly if each element compares as less than or equal to
/// the element after it, which is how the crate walks the sequence.
#[verifier::external_body]
pub(crate) fn is_sorted<T: Ord>(v: &Vec<T>) -> (sorted: bool)
    requires
        total_order::<T>(),
    ensures
        sorted == nondecreasing(v@),
{
    IsSorted::is_sorted(&mut v.iter())
}

} // verus!
