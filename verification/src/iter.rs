//! Iteration in ascending and descending order over the whole set or over a
//! span of ranks.

use crate::set::RotatedArraySet;
use crate::sorted::strictly_ascending;
use vstd::prelude::*;

verus! {

/// An end of a span of values: a value that belongs to the span, a value that
/// does not, or no end at all.
#[derive(Clone, Copy, Debug)]
pub enum Bound<T> {
    Included(T),
    Excluded(T),
    Unbounded,
}

/// A span of ranks of a set.
#[derive(Clone, Copy, Debug)]
pub(crate) struct Range<'a, T> {
    pub(crate) container: &'a RotatedArraySet<T>,
    pub(crate) start_index_inclusive: usize,
    pub(crate) end_index_exclusive: usize,
}

impl<'a, T: Ord + Copy> Range<'a, T> {
    /// The span lies inside a well-formed set.
    pub(crate) open spec fn wf(&self) -> bool {
        &&& self.container.wf()
        &&& self.start_index_inclusive <= self.end_index_exclusive <= self.container@.len()
    }

    /// The elements of the span in ascending order.
    pub(crate) open spec fn items(&self) -> Seq<T> {
        self.container@.subrange(
            self.start_index_inclusive as int,
            self.end_index_exclusive as int,
        )
    }

    /// The span of the ranks from `start_index_inclusive` up to, and without,
    /// `end_index_exclusive`.
    pub(crate) fn with_bounds(
        container: &'a RotatedArraySet<T>,
        start_index_inclusive: usize,
        end_index_exclusive: usize,
    ) -> (range: Range<'a, T>)
        requires
            container.wf(),
            start_index_inclusive <= end_index_exclusive <= container@.len(),
        ensures
            range.wf(),
            range.container == container,
            range.start_index_inclusive == start_index_inclusive,
            range.end_index_exclusive == end_index_exclusive,
    {
        Range { container, start_index_inclusive, end_index_exclusive }
    }

    /// The span of all ranks.
    pub(crate) fn new(container: &'a RotatedArraySet<T>) -> (range: Range<'a, T>)
        requires
            container.wf(),
        ensures
            range.wf(),
            range.container == container,
            range.items() == container@,
    {
        let range = Range::with_bounds(container, 0, container.len());
        assert(range.items() =~= container@);
        range
    }

    /// The element at place `index` of the span, if the span has that many.
    pub(crate) fn at(&self, index: usize) -> (found: Option<&'a T>)
        requires
            self.wf(),
        ensures
            index < self.items().len() ==> found == Some(&self.items()[index as int]),
            index >= self.items().len() ==> found.is_none(),
    {
        if index >= self.len() {
            None
        } else {
            let container_idx = index + self.start_index_inclusive;
            self.container.select(container_idx)
        }
    }

    /// The number of elements of the span.
    pub(crate) fn len(&self) -> (n: usize)
        requires
            self.wf(),
        ensures
            n == self.items().len(),
    {
        self.end_index_exclusive - self.start_index_inclusive
    }
}

/// An iterator over the elements of a set, or of a span of them, from both ends.
#[derive(Clone, Copy, Debug)]
pub struct Iter<'a, T> {
    pub(crate) range: Range<'a, T>,
    pub(crate) next_index: usize,
    pub(crate) next_rev_index: usize,
}

impl<'a, T> View for Iter<'a, T> {
    type V = Seq<T>;

    /// The elements that the iterator has not handed out yet, in ascending order.
    open(crate) spec fn view(&self) -> Seq<T> {
        let items = self.range.container@.subrange(
            self.range.start_index_inclusive as int,
            self.range.end_index_exclusive as int,
        );
        if items.len() == 0 || self.next_index > self.next_rev_index {
            Seq::empty()
        } else {
            items.subrange(self.next_index as int, self.next_rev_index + 1)
        }
    }
}

impl<'a, T: Ord + Copy> Iter<'a, T> {
    /// The two cursors lie inside the span, and where they have crossed they
    /// have crossed by one place.
    pub open(crate) spec fn cursors_ok(&self) -> bool {
        let len = self.range.end_index_exclusive - self.range.start_index_inclusive;
        &&& self.next_index <= len
        &&& self.next_rev_index <= len
        &&& self.next_rev_index < self.next_index ==> self.next_index - self.next_rev_index == 1
    }

    /// The iterator walks a span of a well-formed set and its cursors are in order.
    pub open(crate) spec fn wf(&self) -> bool {
        &&& self.range.wf()
        &&& self.cursors_ok()
        &&& self.range.items().len() > 0 ==> self.next_rev_index < self.range.items().len()
    }

    /// The set that the iterator walks.
    pub closed spec fn container(&self) -> RotatedArraySet<T> {
        *self.range.container
    }

    /// What is left to hand out is a run of consecutive elements of the set,
    /// and so it is strictly ascending.
    pub proof fn lemma_ascending(&self)
        requires
            self.wf(),
        ensures
            strictly_ascending(self@),
            exists|lo: int, hi: int|
                0 <= lo <= hi <= self.container()@.len() && self@ == #[trigger] self.container()@.subrange(
                    lo,
                    hi,
                ),
    {
        let s = self.range.start_index_inclusive as int;
        let items = self.range.items();
        if items.len() == 0 || self.next_index > self.next_rev_index {
            assert(self@ =~= self.container()@.subrange(0, 0));
        } else {
            assert(self@ =~= self.container()@.subrange(
                s + self.next_index,
                s + self.next_rev_index + 1,
            ));
        }
    }

    /// The iterator over the elements of `range`.
    pub(crate) fn new(range: Range<'a, T>) -> (it: Iter<'a, T>)
        requires
            range.wf(),
        ensures
            it.wf(),
            it@ == range.items(),
            it.container() == *range.container,
    {
        let next_index: usize = 0;
        let next_rev_index = if range.len() == 0 {
            0
        } else {
            range.len() - 1
        };
        let it = Iter { range, next_index, next_rev_index };
        assert(it@ =~= range.items());
        it
    }

    /// Whether the cursors are in order. It holds of every iterator that the
    /// set hands out, after any number of steps; tests may call it.
    pub fn assert_invariants(&self) -> (ok: bool)
        ensures
            ok == self.cursors_ok(),
    {
        if self.range.end_index_exclusive < self.range.start_index_inclusive {
            return false;
        }
        let len = self.range.end_index_exclusive - self.range.start_index_inclusive;
        if self.next_index > len {
            return false;
        }
        if self.next_rev_index > len {
            return false;
        }
        if self.next_rev_index < self.next_index {
            if self.next_index - self.next_rev_index != 1 {
                return false;
            }
        }
        true
    }

    /// The number of elements that are left.
    pub fn len(&self) -> (n: usize)
        requires
            self.wf(),
        ensures
            n == self@.len(),
    {
        if self.range.len() == 0 || self.next_index > self.next_rev_index {
            0
        } else {
            self.next_rev_index - self.next_index + 1
        }
    }

    /// The smallest element that is left, without taking it.
    pub fn peek(&self) -> (found: Option<&'a T>)
        requires
            self.wf(),
        ensures
            self@.len() > 0 ==> found == Some(&self@[0]),
            self@.len() == 0 ==> found.is_none(),
    {
        if self.range.len() == 0 || self.next_index > self.next_rev_index {
            None
        } else {
            self.range.at(self.next_index)
        }
    }

    /// Hands out the smallest element that is left.
    pub fn next(&mut self) -> (found: Option<&'a T>)
        requires
            old(self).wf(),
        ensures
            final(self).wf(),
            final(self).container() == old(self).container(),
            old(self)@.len() > 0 ==> found == Some(&old(self)@[0]) && final(self)@
                == old(self)@.drop_first(),
            old(self)@.len() == 0 ==> found.is_none() && final(self)@.len() == 0,
    {
        if self.range.len() == 0 || self.next_index > self.next_rev_index {
            None
        } else {
            let current = self.range.at(self.next_index);
            self.next_index = self.next_index + 1;
            assert(self@ =~= old(self)@.drop_first());
            current
        }
    }

    /// Skips `n` elements from the front and hands out the one after them.
    /// With `n` or fewer elements left, nothing is left afterwards.
    pub fn nth(&mut self, n: usize) -> (found: Option<&'a T>)
        requires
            old(self).wf(),
        ensures
            final(self).wf(),
            final(self).container() == old(self).container(),
            n < old(self)@.len() ==> found == Some(&old(self)@[n as int]) && final(self)@
                == old(self)@.subrange(n + 1, old(self)@.len() as int),
            n >= old(self)@.len() ==> found.is_none() && final(self)@.len() == 0,
    {
        if self.range.len() == 0 || self.next_index > self.next_rev_index {
            None
        } else if n > self.next_rev_index - self.next_index {
            self.next_index = self.next_rev_index + 1;
            None
        } else {
            self.next_index = self.next_index + n;
            let nth = self.range.at(self.next_index);
            self.next_index = self.next_index + 1;
            assert(self@ =~= old(self)@.subrange(n + 1, old(self)@.len() as int));
            nth
        }
    }

    /// The number of elements that are left.
    pub fn count(self) -> (n: usize)
        requires
            self.wf(),
        ensures
            n == self@.len(),
    {
        self.len()
    }

    /// The last, and largest, element that is left.
    pub fn last(self) -> (found: Option<&'a T>)
        requires
            self.wf(),
        ensures
            self@.len() > 0 ==> found == Some(&self@.last()),
            self@.len() == 0 ==> found.is_none(),
    {
        if self.range.len() == 0 || self.next_index > self.next_rev_index {
            None
        } else {
            self.range.at(self.next_rev_index)
        }
    }

    /// The largest element that is left.
    pub fn max(self) -> (found: Option<&'a T>)
        requires
            self.wf(),
        ensures
            self@.len() > 0 ==> found == Some(&self@.last()),
            self@.len() == 0 ==> found.is_none(),
    {
        self.last()
    }

    /// The smallest element that is left.
    pub fn min(self) -> (found: Option<&'a T>)
        requires
            self.wf(),
        ensures
            self@.len() > 0 ==> found == Some(&self@[0]),
            self@.len() == 0 ==> found.is_none(),
    {
        self.peek()
    }

    /// The number of elements that are left, as a lower and an upper bound.
    pub fn size_hint(&self) -> (hint: (usize, Option<usize>))
        requires
            self.wf(),
        ensures
            hint.0 == self@.len(),
            hint.1 == Some(hint.0),
    {
        let remaining_count = self.len();
        (remaining_count, Some(remaining_count))
    }

    /// Hands out the largest element that is left.
    pub fn next_back(&mut self) -> (found: Option<&'a T>)
        requires
            old(self).wf(),
        ensures
            final(self).wf(),
            final(self).container() == old(self).container(),
            old(self)@.len() > 0 ==> found == Some(&old(self)@.last()) && final(self)@
                == old(self)@.drop_last(),
            old(self)@.len() == 0 ==> found.is_none() && final(self)@.len() == 0,
    {
        if self.range.len() == 0 || self.next_rev_index < self.next_index {
            None
        } else {
            let current = self.range.at(self.next_rev_index);
            // The back cursor cannot go below zero, so the front cursor goes
            // past it instead.
            if self.next_rev_index == 0 {
                self.next_index = self.next_index + 1;
            } else {
                self.next_rev_index = self.next_rev_index - 1;
            }
            assert(self@ =~= old(self)@.drop_last());
            current
        }
    }

    /// Skips `n` elements from the back and hands out the one before them.
    /// With `n` or fewer elements left, nothing is left afterwards.
    pub fn nth_back(&mut self, n: usize) -> (found: Option<&'a T>)
        requires
            old(self).wf(),
        ensures
            final(self).wf(),
            final(self).container() == old(self).container(),
            n < old(self)@.len() ==> found == Some(&old(self)@[old(self)@.len() - 1 - n])
                && final(self)@ == old(self)@.subrange(0, old(self)@.len() - 1 - n),
            n >= old(self)@.len() ==> found.is_none() && final(self)@.len() == 0,
    {
        if self.range.len() == 0 || self.next_rev_index < self.next_index {
            None
        } else if n > self.next_rev_index - self.next_index {
            self.next_index = self.next_rev_index + 1;
            None
        } else {
            self.next_rev_index = self.next_rev_index - n;
            let nth = self.range.at(self.next_rev_index);
            if self.next_rev_index == 0 {
                self.next_index = self.next_index + 1;
            } else {
                self.next_rev_index = self.next_rev_index - 1;
            }
            assert(self@ =~= old(self)@.subrange(0, old(self)@.len() - 1 - n));
            nth
        }
    }

    /// All elements that are left, in ascending order.
    pub fn collect(self) -> (v: Vec<T>)
        requires
            self.wf(),
        ensures
            v@ == self@,
    {
        let mut it = self;
        let mut v: Vec<T> = Vec::new();
        loop
            invariant
                it.wf(),
                v@ + it@ == self@,
            decreases it@.len(),
        {
            let ghost left = it@;
            match it.next() {
                Some(x) => {
                    v.push(*x);
                    assert(v@ + it@ =~= self@) by {
                        assert(left =~= seq![left[0]] + left.drop_first());
                    }
                },
                None => {
                    assert(v@ =~= self@);
                    return v;
                },
            }
        }
    }
}

/// An iterator that owns the elements of a set.
#[derive(Clone, Debug)]
pub struct IntoIter<T> {
    pub(crate) vec: Vec<T>,
    pub(crate) next_index: usize,
}

impl<T> View for IntoIter<T> {
    type V = Seq<T>;

    /// The elements that the iterator has not handed out yet, in ascending order.
    open(crate) spec fn view(&self) -> Seq<T> {
        self.vec@.subrange(self.next_index as int, self.vec@.len() as int)
    }
}

impl<T: Ord + Copy> IntoIter<T> {
    /// The cursor lies inside the elements.
    pub open(crate) spec fn wf(&self) -> bool {
        self.next_index <= self.vec@.len()
    }

    /// Hands out the smallest element that is left.
    pub fn next(&mut self) -> (found: Option<T>)
        requires
            old(self).wf(),
        ensures
            final(self).wf(),
            old(self)@.len() > 0 ==> found == Some(old(self)@[0]) && final(self)@
                == old(self)@.drop_first(),
            old(self)@.len() == 0 ==> found.is_none() && final(self)@.len() == 0,
    {
        if self.next_index == self.vec.len() {
            None
        } else {
            let current = self.vec[self.next_index];
            self.next_index = self.next_index + 1;
            assert(self@ =~= old(self)@.drop_first());
            Some(current)
        }
    }
}

impl<T: Ord + Copy> RotatedArraySet<T> {
    /// An iterator over the elements in ascending order, and from the back in
    /// descending order.
    pub fn iter(&self) -> (it: Iter<'_, T>)
        requires
            self.wf(),
        ensures
            it.wf(),
            it@ == self@,
            it.container() == *self,
    {
        Iter::new(Range::new(self))
    }

    /// An iterator that owns the elements and hands them out in ascending order.
    pub fn into_iter(self) -> (it: IntoIter<T>)
        requires
            self.wf(),
        ensures
            it.wf(),
            it@ == self@,
    {
        let it = IntoIter { vec: self.into_vec(), next_index: 0 };
        assert(it@ =~= self@);
        it
    }
}

} // verus!
