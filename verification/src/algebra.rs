//! Lazy iterators over the difference, the symmetric difference, the
//! intersection and the union of two sets, and the tests and bulk operations
//! that are built on them.

use crate::iter::{Bound, Iter};
use crate::merge::{
    difference_of, intersection_of, lemma_filter_ascending, lemma_filter_parts,
    lemma_symmetric_difference_len, lemma_union_len, lemma_union_of, member_of, not_member_of,
    symmetric_difference_of, union_of,
};
use crate::order::{cmp_opt, lt, total_order};
use crate::set::RotatedArraySet;
use crate::sorted::{count_below, lemma_ascending_unique, strictly_ascending};
use crate::span::{lower_rank, upper_rank};
use core::cmp::Ordering;
use vstd::prelude::*;

verus! {

/// A lazy iterator over the elements of one set that another set does not hold.
#[derive(Clone, Debug)]
pub struct Difference<'a, T> {
    pub(crate) self_iter: Iter<'a, T>,
    pub(crate) other_set: &'a RotatedArraySet<T>,
}

impl<'a, T> View for Difference<'a, T> {
    type V = Seq<T>;

    /// The elements that the iterator has not handed out yet, in ascending order.
    open(crate) spec fn view(&self) -> Seq<T> {
        difference_of(self.self_iter@, self.other_set@)
    }
}

impl<'a, T: Ord + Copy> Difference<'a, T> {
    /// Both sets are well-formed.
    pub open(crate) spec fn wf(&self) -> bool {
        self.self_iter.wf() && self.other_set.wf()
    }

    /// What is left of the set whose elements are handed out.
    pub closed spec fn source(&self) -> Seq<T> {
        self.self_iter@
    }

    /// The set whose elements are left out.
    pub closed spec fn other(&self) -> Seq<T> {
        self.other_set@
    }

    /// Hands out the smallest element that is left.
    pub fn next(&mut self) -> (found: Option<&'a T>)
        requires
            old(self).wf(),
            total_order::<T>(),
        ensures
            final(self).wf(),
            final(self).other() == old(self).other(),
            old(self)@.len() > 0 ==> found == Some(&old(self)@[0]) && final(self)@
                == old(self)@.drop_first(),
            old(self)@.len() == 0 ==> found.is_none() && final(self)@.len() == 0,
    {
        loop
            invariant
                self.wf(),
                total_order::<T>(),
                self.other_set == old(self).other_set,
                self@ == old(self)@,
            decreases self.self_iter@.len(),
        {
            let ghost left = self.self_iter@;
            let self_next = match self.self_iter.next() {
                Some(x) => x,
                None => {
                    assert(self@ =~= Seq::<T>::empty()) by {
                        reveal(Seq::filter);
                    }
                    return None;
                },
            };
            proof {
                assert(left =~= seq![left[0]] + left.drop_first());
                left.drop_first().lemma_filter_prepend(left[0], not_member_of(self.other_set@));
            }
            if !self.other_set.contains(self_next) {
                assert(old(self)@ =~= seq![*self_next] + self@);
                assert(self@ =~= old(self)@.drop_first());
                return Some(self_next);
            }
        }
    }

    /// Between these two numbers lies the number of elements that are left:
    /// what is left of the first set, less the size of the second, and what
    /// is left of the first set.
    pub fn size_hint(&self) -> (hint: (usize, Option<usize>))
        requires
            self.wf(),
            total_order::<T>(),
        ensures
            hint.0 == if self.source().len() >= self.other().len() {
                self.source().len() - self.other().len()
            } else {
                0
            },
            hint.1 == Some(self.source().len() as usize),
            hint.0 <= self@.len() <= self.source().len(),
    {
        let self_len = self.self_iter.len();
        let other_len = self.other_set.len();
        proof {
            let source = self.self_iter@;
            let other = self.other_set@;
            source.lemma_filter_len(not_member_of(other));
            // what is left out is held by the other set, which bounds its number
            self.self_iter.lemma_ascending();
            lemma_filter_parts(source, not_member_of(other), member_of(other));
            lemma_filter_ascending(source, member_of(other));
            let common = intersection_of(source, other);
            if common.len() > other.len() {
                lemma_more_is_no_subset(common, other);
                assert(common.to_set().subset_of(other.to_set()));
            }
        }
        let low = if self_len >= other_len {
            self_len - other_len
        } else {
            0
        };
        (low, Some(self_len))
    }

    /// All elements that are left, in ascending order.
    pub fn collect(self) -> (v: Vec<T>)
        requires
            self.wf(),
            total_order::<T>(),
        ensures
            v@ == self@,
    {
        let mut it = self;
        let mut v: Vec<T> = Vec::new();
        loop
            invariant
                it.wf(),
                total_order::<T>(),
                v@ + it@ == self@,
            decreases it@.len(),
        {
            let ghost left = it@;
            match it.next() {
                Some(x) => {
                    v.push(*x);
                    assert(v@ + it@ =~= self@) by {
                        assert(left =~= seq![left[0]] + left.drop_first());
                    }
                },
                None => {
                    assert(v@ =~= self@);
                    return v;
                },
            }
        }
    }
}

/// A lazy iterator over the elements that both of two sets hold.
#[derive(Clone, Debug)]
pub struct Intersection<'a, T> {
    pub(crate) small_iter: Iter<'a, T>,
    pub(crate) large_set: &'a RotatedArraySet<T>,
}

impl<'a, T> View for Intersection<'a, T> {
    type V = Seq<T>;

    /// The elements that the iterator has not handed out yet, in ascending order.
    open(crate) spec fn view(&self) -> Seq<T> {
        intersection_of(self.small_iter@, self.large_set@)
    }
}

impl<'a, T: Ord + Copy> Intersection<'a, T> {
    /// Both sets are well-formed.
    pub open(crate) spec fn wf(&self) -> bool {
        self.small_iter.wf() && self.large_set.wf()
    }

    /// What is left of the set that the iterator walks, the smaller of the two.
    pub closed spec fn source(&self) -> Seq<T> {
        self.small_iter@
    }

    /// The set in which the elements are looked up.
    pub closed spec fn other(&self) -> Seq<T> {
        self.large_set@
    }

    /// Hands out the smallest element that is left.
    pub fn next(&mut self) -> (found: Option<&'a T>)
        requires
            old(self).wf(),
            total_order::<T>(),
        ensures
            final(self).wf(),
            final(self).other() == old(self).other(),
            old(self)@.len() > 0 ==> found == Some(&old(self)@[0]) && final(self)@
                == old(self)@.drop_first(),
            old(self)@.len() == 0 ==> found.is_none() && final(self)@.len() == 0,
    {
        loop
            invariant
                self.wf(),
                total_order::<T>(),
                self.large_set == old(self).large_set,
                self@ == old(self)@,
            decreases self.small_iter@.len(),
        {
            let ghost left = self.small_iter@;
            let small_next = match self.small_iter.next() {
                Some(x) => x,
                None => {
                    assert(self@ =~= Seq::<T>::empty()) by {
                        reveal(Seq::filter);
                    }
                    return None;
                },
            };
            proof {
                assert(left =~= seq![left[0]] + left.drop_first());
                left.drop_first().lemma_filter_prepend(left[0], member_of(self.large_set@));
            }
            if self.large_set.contains(small_next) {
                assert(old(self)@ =~= seq![*small_next] + self@);
                assert(self@ =~= old(self)@.drop_first());
                return Some(small_next);
            }
        }
    }

    /// Between these two numbers lies the number of elements that are left:
    /// zero, and what is left of the smaller set.
    pub fn size_hint(&self) -> (hint: (usize, Option<usize>))
        requires
            self.wf(),
        ensures
            hint.0 == 0,
            hint.1 == Some(self.source().len() as usize),
            self@.len() <= self.source().len(),
    {
        let min_len = self.small_iter.len();
        proof {
            self.small_iter@.lemma_filter_len(member_of(self.large_set@));
        }
        (0, Some(min_len))
    }

    /// All elements that are left, in ascending order.
    pub fn collect(self) -> (v: Vec<T>)
        requires
            self.wf(),
            total_order::<T>(),
        ensures
            v@ == self@,
    {
        let mut it = self;
        let mut v: Vec<T> = Vec::new();
        loop
            invariant
                it.wf(),
                total_order::<T>(),
                v@ + it@ == self@,
            decreases it@.len(),
        {
            let ghost left = it@;
            match it.next() {
                Some(x) => {
                    v.push(*x);
                    assert(v@ + it@ =~= self@) by {
                        assert(left =~= seq![left[0]] + left.drop_first());
                    }
                },
                None => {
                    assert(v@ =~= self@);
                    return v;
                },
            }
        }
    }
}

/// A lazy iterator over the elements that one of two sets holds.
#[derive(Clone, Debug)]
pub struct Union<'a, T> {
    pub(crate) a: Iter<'a, T>,
    pub(crate) b: Iter<'a, T>,
}

impl<'a, T: Ord> View for Union<'a, T> {
    type V = Seq<T>;

    /// The elements that the iterator has not handed out yet, in ascending order.
    open(crate) spec fn view(&self) -> Seq<T> {
        union_of(self.a@, self.b@)
    }
}

impl<'a, T: Ord + Copy> Union<'a, T> {
    /// Both sets are well-formed.
    pub open(crate) spec fn wf(&self) -> bool {
        self.a.wf() && self.b.wf()
    }

    /// What is left of the first set.
    pub closed spec fn left(&self) -> Seq<T> {
        self.a@
    }

    /// What is left of the second set.
    pub closed spec fn right(&self) -> Seq<T> {
        self.b@
    }

    /// Hands out the smallest element that is left.
    pub fn next(&mut self) -> (found: Option<&'a T>)
        requires
            old(self).wf(),
            total_order::<T>(),
        ensures
            final(self).wf(),
            old(self)@.len() > 0 ==> found == Some(&old(self)@[0]) && final(self)@
                == old(self)@.drop_first(),
            old(self)@.len() == 0 ==> found.is_none() && final(self)@.len() == 0,
    {
        let ghost a0 = self.a@;
        let ghost b0 = self.b@;
        match cmp_opt(self.a.peek(), self.b.peek(), Ordering::Greater, Ordering::Less) {
            Ordering::Less => {
                let found = self.a.next();
                assert(self@ =~= old(self)@.drop_first());
                found
            },
            Ordering::Equal => {
                self.b.next();
                let found = self.a.next();
                assert(self@ =~= old(self)@.drop_first());
                found
            },
            Ordering::Greater => {
                let found = self.b.next();
                proof {
                    if a0.len() == 0 {
                        assert(self.a@ =~= a0);
                    }
                    if b0.len() > 0 {
                        assert(self@ =~= old(self)@.drop_first());
                    }
                }
                found
            },
        }
    }

    /// Between these two numbers lies the number of elements that are left:
    /// what is left of the larger remainder, and what is left of both, if
    /// that number can be written down.
    pub fn size_hint(&self) -> (hint: (usize, Option<usize>))
        requires
            self.wf(),
        ensures
            hint.0 == if self.left().len() >= self.right().len() {
                self.left().len()
            } else {
                self.right().len()
            },
            hint.1 == if self.left().len() + self.right().len() <= usize::MAX {
                Some((self.left().len() + self.right().len()) as usize)
            } else {
                None
            },
            hint.0 <= self@.len() <= self.left().len() + self.right().len(),
    {
        let a_len = self.a.len();
        let b_len = self.b.len();
        proof {
            lemma_union_len(self.a@, self.b@);
        }
        let low = if a_len >= b_len {
            a_len
        } else {
            b_len
        };
        (low, a_len.checked_add(b_len))
    }

    /// All elements that are left, in ascending order.
    pub fn collect(self) -> (v: Vec<T>)
        requires
            self.wf(),
            total_order::<T>(),
        ensures
            v@ == self@,
    {
        let mut it = self;
        let mut v: Vec<T> = Vec::new();
        loop
            invariant
                it.wf(),
                total_order::<T>(),
                v@ + it@ == self@,
            decreases it@.len(),
        {
            let ghost left = it@;
            match it.next() {
                Some(x) => {
                    v.push(*x);
                    assert(v@ + it@ =~= self@) by {
                        assert(left =~= seq![left[0]] + left.drop_first());
                    }
                },
                None => {
                    assert(v@ =~= self@);
                    return v;
                },
            }
        }
    }
}

/// A lazy iterator over the elements that exactly one of two sets holds.
#[derive(Clone, Debug)]
pub struct SymmetricDifference<'a, T> {
    pub(crate) a: Iter<'a, T>,
    pub(crate) b: Iter<'a, T>,
}

impl<'a, T: Ord> View for SymmetricDifference<'a, T> {
    type V = Seq<T>;

    /// The elements that the iterator has not handed out yet, in ascending order.
    open(crate) spec fn view(&self) -> Seq<T> {
        symmetric_difference_of(self.a@, self.b@)
    }
}

impl<'a, T: Ord + Copy> SymmetricDifference<'a, T> {
    /// Both sets are well-formed.
    pub open(crate) spec fn wf(&self) -> bool {
        self.a.wf() && self.b.wf()
    }

    /// What is left of the first set.
    pub closed spec fn left(&self) -> Seq<T> {
        self.a@
    }

    /// What is left of the second set.
    pub closed spec fn right(&self) -> Seq<T> {
        self.b@
    }

    /// Hands out the smallest element that is left.
    pub fn next(&mut self) -> (found: Option<&'a T>)
        requires
            old(self).wf(),
            total_order::<T>(),
        ensures
            final(self).wf(),
            old(self)@.len() > 0 ==> found == Some(&old(self)@[0]) && final(self)@
                == old(self)@.drop_first(),
            old(self)@.len() == 0 ==> found.is_none() && final(self)@.len() == 0,
    {
        loop
            invariant
                self.wf(),
                total_order::<T>(),
                self@ == old(self)@,
            decreases self.a@.len() + self.b@.len(),
        {
            let ghost a0 = self.a@;
            let ghost b0 = self.b@;
            match cmp_opt(self.a.peek(), self.b.peek(), Ordering::Greater, Ordering::Less) {
                Ordering::Less => {
                    let found = self.a.next();
                    assert(self@ =~= old(self)@.drop_first());
                    return found;
                },
                Ordering::Equal => {
                    self.a.next();
                    self.b.next();
                },
                Ordering::Greater => {
                    let found = self.b.next();
                    proof {
                        if a0.len() == 0 {
                            assert(self.a@ =~= a0);
                        }
                        if b0.len() > 0 {
                            assert(self@ =~= old(self)@.drop_first());
                        }
                    }
                    return found;
                },
            }
        }
    }

    /// Between these two numbers lies the number of elements that are left:
    /// zero, and what is left of both sets, if that number can be written down.
    pub fn size_hint(&self) -> (hint: (usize, Option<usize>))
        requires
            self.wf(),
        ensures
            hint.0 == 0,
            hint.1 == if self.left().len() + self.right().len() <= usize::MAX {
                Some((self.left().len() + self.right().len()) as usize)
            } else {
                None
            },
            self@.len() <= self.left().len() + self.right().len(),
    {
        let a_len = self.a.len();
        let b_len = self.b.len();
        proof {
            lemma_symmetric_difference_len(self.a@, self.b@);
        }
        (0, a_len.checked_add(b_len))
    }

    /// All elements that are left, in ascending order.
    pub fn collect(self) -> (v: Vec<T>)
        requires
            self.wf(),
            total_order::<T>(),
        ensures
            v@ == self@,
    {
        let mut it = self;
        let mut v: Vec<T> = Vec::new();
        loop
            invariant
                it.wf(),
                total_order::<T>(),
                v@ + it@ == self@,
            decreases it@.len(),
        {
            let ghost left = it@;
            match it.next() {
                Some(x) => {
                    v.push(*x);
                    assert(v@ + it@ =~= self@) by {
                        assert(left =~= seq![left[0]] + left.drop_first());
                    }
                },
                None => {
                    assert(v@ =~= self@);
                    return v;
                },
            }
        }
    }
}

impl<T: Ord + Copy> RotatedArraySet<T> {
    /// The elements of `self` that `other` does not hold, in ascending order.
    pub fn difference<'a>(&'a self, other: &'a RotatedArraySet<T>) -> (d: Difference<'a, T>)
        requires
            self.wf(),
            other.wf(),
        ensures
            d.wf(),
            d@ == difference_of(self@, other@),
            d.source() == self@,
            d.other() == other@,
    {
        Difference { self_iter: self.iter(), other_set: other }
    }

    /// The elements that exactly one of `self` and `other` holds, in
    /// ascending order.
    pub fn symmetric_difference<'a>(&'a self, other: &'a RotatedArraySet<T>) -> (d:
        SymmetricDifference<'a, T>)
        requires
            self.wf(),
            other.wf(),
        ensures
            d.wf(),
            d@ == symmetric_difference_of(self@, other@),
            d.left() == self@,
            d.right() == other@,
    {
        SymmetricDifference { a: self.iter(), b: other.iter() }
    }

    /// The elements that both `self` and `other` hold, in ascending order.
    /// The smaller set is walked and the larger one searched.
    pub fn intersection<'a>(&'a self, other: &'a RotatedArraySet<T>) -> (i: Intersection<'a, T>)
        requires
            self.wf(),
            other.wf(),
            total_order::<T>(),
        ensures
            i.wf(),
            i@ == intersection_of(self@, other@),
            i.source().len() <= self@.len(),
            i.source().len() <= other@.len(),
    {
        let (small, other) = if self.len() <= other.len() {
            (self, other)
        } else {
            (other, self)
        };
        proof {
            let one = intersection_of(small@, other@);
            let two = intersection_of(other@, small@);
            lemma_filter_ascending(small@, member_of(other@));
            lemma_filter_ascending(other@, member_of(small@));
            assert(one.to_set() =~= two.to_set());
            lemma_ascending_unique(one, two);
        }
        Intersection { small_iter: small.iter(), large_set: other }
    }

    /// The elements that `self` or `other` holds, each once, in ascending order.
    pub fn union<'a>(&'a self, other: &'a RotatedArraySet<T>) -> (u: Union<'a, T>)
        requires
            self.wf(),
            other.wf(),
        ensures
            u.wf(),
            u@ == union_of(self@, other@),
            u.left() == self@,
            u.right() == other@,
    {
        Union { a: self.iter(), b: other.iter() }
    }

    /// Moves all elements of `other` into `self` and leaves `other` empty.
    pub fn append(&mut self, other: &mut Self)
        requires
            old(self).wf(),
            old(other).wf(),
            total_order::<T>(),
        ensures
            final(self).wf(),
            final(other).wf(),
            final(other)@ == Seq::<T>::empty(),
            final(self)@ == union_of(old(self)@, old(other)@),
            final(self)@.to_set() == old(self)@.to_set().union(old(other)@.to_set()),
    {
        // the union is collected into a new set, which then takes the place
        // of `self`
        let merged = self.union(other).collect();
        let mut union = Self::from_vec(merged);
        proof {
            lemma_union_of(old(self)@, old(other)@);
            lemma_ascending_unique(union@, merged@);
            assert(merged@.to_set() =~= old(self)@.to_set().union(old(other)@.to_set()));
        }
        other.clear();
        core::mem::swap(self, &mut union);
    }

    /// Splits the set at `value`: `self` keeps the elements below `value`,
    /// and the elements from `value` on are returned as a set of their own.
    pub fn split_off(&mut self, value: &T) -> (tail_set: Self)
        requires
            old(self).wf(),
            total_order::<T>(),
        ensures
            final(self).wf(),
            tail_set.wf(),
            final(self)@ == old(self)@.subrange(0, count_below(old(self)@, *value)),
            tail_set@ == old(self)@.subrange(
                count_below(old(self)@, *value),
                old(self)@.len() as int,
            ),
    {
        let ghost before = self@;
        let ghost cut = count_below(before, *value);
        let tail = self.range(Bound::Included(value), Bound::Unbounded);
        assert(lower_rank(before, Bound::Included(value)) == cut);
        assert(upper_rank::<T>(before, Bound::Unbounded) == before.len());
        assert(tail@.len() == before.len() - cut);
        let tail_len = tail.len();
        if tail_len == 0 {
            // the value is above all elements
            assert(self@ =~= before.subrange(0, cut));
            Self::default()
        } else if tail_len == self.len() {
            // the value is below all elements
            let mut taken = Self::default();
            core::mem::swap(self, &mut taken);
            assert(self@ =~= before.subrange(0, cut));
            assert(taken@ =~= before.subrange(cut, before.len() as int));
            taken
        } else {
            let new_len = self.len() - tail_len;
            let items = tail.collect();
            proof {
                assert(strictly_ascending(items@));
            }
            let tail_set = Self::from_vec(items);
            proof {
                lemma_ascending_unique(tail_set@, items@);
            }
            self.truncate(new_len);
            tail_set
        }
    }

    /// Whether `self` and `other` have no element in common.
    pub fn is_disjoint(&self, other: &RotatedArraySet<T>) -> (b: bool)
        requires
            self.wf(),
            other.wf(),
            total_order::<T>(),
        ensures
            b == self@.to_set().disjoint(other@.to_set()),
    {
        let mut common = self.intersection(other);
        let first = common.next();
        proof {
            let both = intersection_of(self@, other@);
            lemma_filter_ascending(self@, member_of(other@));
            if both.len() > 0 {
                assert(both.contains(both[0]));
                assert(self@.to_set().contains(both[0]) && other@.to_set().contains(both[0]));
            } else {
                assert forall|x: T|
                    !(self@.to_set().contains(x) && other@.to_set().contains(x)) by {
                    if self@.contains(x) && other@.contains(x) {
                        assert(both.contains(x));
                    }
                }
            }
        }
        first.is_none()
    }

    /// Whether `other` holds all elements of `self`.
    pub fn is_subset(&self, other: &RotatedArraySet<T>) -> (b: bool)
        requires
            self.wf(),
            other.wf(),
            total_order::<T>(),
        ensures
            b == self@.to_set().subset_of(other@.to_set()),
    {
        if self.len() > other.len() {
            proof {
                lemma_more_is_no_subset(self@, other@);
            }
            false
        } else {
            // walk `self` and look each element up in `other`
            let mut it = self.iter();
            let ghost mut i: int = 0;
            assert(self@.subrange(0, self@.len() as int) =~= it@);
            loop
                invariant
                    it.wf(),
                    other.wf(),
                    total_order::<T>(),
                    0 <= i <= self@.len(),
                    self@.subrange(i, self@.len() as int) == it@,
                    forall|j: int| 0 <= j < i ==> other@.contains(#[trigger] self@[j]),
                decreases it@.len(),
            {
                match it.next() {
                    Some(next) => {
                        assert(*next == self@[i]);
                        if !other.contains(next) {
                            assert(self@.to_set().contains(*next));
                            return false;
                        }
                        assert(self@.subrange(i + 1, self@.len() as int) =~= it@);
                        proof {
                            i = i + 1;
                        }
                    },
                    None => {
                        assert(i == self@.len());
                        assert forall|x: T| self@.to_set().contains(x) implies other@.to_set().contains(
                            x,
                        ) by {
                            let j = choose|j: int| 0 <= j < self@.len() && self@[j] == x;
                            assert(other@.contains(self@[j]));
                        }
                        return true;
                    },
                }
            }
        }
    }

    /// Whether `self` holds all elements of `other`.
    pub fn is_superset(&self, other: &RotatedArraySet<T>) -> (b: bool)
        requires
            self.wf(),
            other.wf(),
            total_order::<T>(),
        ensures
            b == other@.to_set().subset_of(self@.to_set()),
    {
        other.is_subset(self)
    }
}

/// A sequence without repetitions that is longer than another holds a value
/// that the other does not hold.
pub proof fn lemma_more_is_no_subset<T: Ord>(a: Seq<T>, b: Seq<T>)
    requires
        total_order::<T>(),
        strictly_ascending(a),
        strictly_ascending(b),
        a.len() > b.len(),
    ensures
        !a.to_set().subset_of(b.to_set()),
{
    assert(a.no_duplicates()) by {
        assert forall|i: int, j: int| 0 <= i < a.len() && 0 <= j < a.len() && i != j implies a[i]
            != a[j] by {
            if i < j {
                assert(lt(a[i], a[j]));
            } else {
                assert(lt(a[j], a[i]));
            }
        }
    }
    assert(b.no_duplicates()) by {
        assert forall|i: int, j: int| 0 <= i < b.len() && 0 <= j < b.len() && i != j implies b[i]
            != b[j] by {
            if i < j {
                assert(lt(b[i], b[j]));
            } else {
                assert(lt(b[j], b[i]));
            }
        }
    }
    a.unique_seq_to_set();
    b.unique_seq_to_set();
    vstd::seq_lib::seq_to_set_is_finite(a);
    vstd::seq_lib::seq_to_set_is_finite(b);
    if a.to_set().subset_of(b.to_set()) {
        vstd::set_lib::lemma_len_subset(a.to_set(), b.to_set());
    }
}

} // verus!
