//! The total order on elements that the set relies on.

use core::cmp::Ordering;
use vstd::prelude::*;
use vstd::std_specs::cmp::{OrdSpec, PartialOrdSpec};

verus! {

/// `a` is strictly below `b` in the order of `T`.
pub open spec fn lt<T: Ord>(a: T, b: T) -> bool {
    a.cmp_spec(&b) == Ordering::Less
}

/// The comparison of `T` is a strict total order whose equality is equality of
/// values, the executable comparisons compute it, and the partial comparison
/// agrees with the total one.
pub open spec fn total_order<T: Ord>() -> bool {
    &&& T::obeys_cmp_spec()
    &&& T::obeys_partial_cmp_spec()
    &&& forall|a: T, b: T| #[trigger] a.partial_cmp_spec(&b) == Some(a.cmp_spec(&b))
    &&& forall|a: T, b: T| #[trigger] a.cmp_spec(&b) == Ordering::Equal <==> a == b
    &&& forall|a: T, b: T|
        #![trigger a.cmp_spec(&b), b.cmp_spec(&a)]
        a.cmp_spec(&b) == Ordering::Less <==> b.cmp_spec(&a) == Ordering::Greater
    &&& forall|a: T, b: T, c: T|
        #![trigger a.cmp_spec(&b), b.cmp_spec(&c), a.cmp_spec(&c)]
        a.cmp_spec(&b) == Ordering::Less && b.cmp_spec(&c) == Ordering::Less ==> a.cmp_spec(&c)
            == Ordering::Less
}

/// The three outcomes of comparing a value with another.
#[derive(Clone, Copy, Debug)]
pub enum Rel {
    Below,
    Same,
    Above,
}

/// Compares `a` with `b`.
pub fn compare<T: Ord>(a: &T, b: &T) -> (r: Rel)
    requires
        total_order::<T>(),
    ensures
        r == Rel::Below <==> lt(*a, *b),
        r == Rel::Same <==> *a == *b,
        r == Rel::Above <==> lt(*b, *a),
{
    match a.cmp(b) {
        Ordering::Less => Rel::Below,
        Ordering::Equal => Rel::Same,
        Ordering::Greater => Rel::Above,
    }
}

/// The comparison of two values that may be missing: `short` where the first
/// is missing, `long` where only the second is, and else the comparison of
/// the two.
pub fn cmp_opt<T: Ord>(x: Option<&T>, y: Option<&T>, short: Ordering, long: Ordering) -> (r:
    Ordering)
    requires
        total_order::<T>(),
    ensures
        x.is_none() ==> r == short,
        x.is_some() && y.is_none() ==> r == long,
        x.is_some() && y.is_some() ==> {
            &&& r == Ordering::Less <==> lt(*x.unwrap(), *y.unwrap())
            &&& r == Ordering::Equal <==> *x.unwrap() == *y.unwrap()
            &&& r == Ordering::Greater <==> lt(*y.unwrap(), *x.unwrap())
        },
{
    match (x, y) {
        (None, _) => short,
        (_, None) => long,
        (Some(x1), Some(y1)) => x1.cmp(y1),
    }
}

/// The signed and unsigned integers are totally ordered.
pub proof fn lemma_integers_totally_ordered()
    ensures
        total_order::<u8>(),
        total_order::<u16>(),
        total_order::<u32>(),
        total_order::<u64>(),
        total_order::<u128>(),
        total_order::<usize>(),
        total_order::<i8>(),
        total_order::<i16>(),
        total_order::<i32>(),
        total_order::<i64>(),
        total_order::<i128>(),
        total_order::<isize>(),
{
}

} // verus!
