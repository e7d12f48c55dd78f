//! Spans of a set between two bounds.

use crate::iter::{Bound, Iter, Range};
use crate::order::{lt, total_order};
use crate::set::RotatedArraySet;
use crate::sorted::{
    count_below, lemma_rank_count, lemma_splits_absent, lemma_splits_count, strictly_ascending,
};
use vstd::prelude::*;

verus! {

/// The bounds leave room for a span: the start is not above the end, and two
/// excluded bounds are not the same value.
pub open spec fn bounds_in_order<T: Ord>(start: Bound<&T>, end: Bound<&T>) -> bool {
    match (start, end) {
        (Bound::Excluded(s), Bound::Excluded(e)) => lt(*s, *e),
        (Bound::Included(s), Bound::Included(e)) => !lt(*e, *s),
        (Bound::Included(s), Bound::Excluded(e)) => !lt(*e, *s),
        (Bound::Excluded(s), Bound::Included(e)) => !lt(*e, *s),
        _ => true,
    }
}

/// Whether `x` lies at or after the start bound.
pub open spec fn after_start<T: Ord>(x: T, start: Bound<&T>) -> bool {
    match start {
        Bound::Included(s) => !lt(x, *s),
        Bound::Excluded(s) => lt(*s, x),
        Bound::Unbounded => true,
    }
}

/// Whether `x` lies at or before the end bound.
pub open spec fn before_end<T: Ord>(x: T, end: Bound<&T>) -> bool {
    match end {
        Bound::Included(e) => !lt(*e, x),
        Bound::Excluded(e) => lt(x, *e),
        Bound::Unbounded => true,
    }
}

/// The number of elements of `s` that lie before the start bound.
pub open spec fn lower_rank<T: Ord>(s: Seq<T>, start: Bound<&T>) -> int {
    match start {
        Bound::Included(v) => count_below(s, *v),
        Bound::Excluded(v) => count_below(s, *v) + if s.contains(*v) {
            1int
        } else {
            0int
        },
        Bound::Unbounded => 0,
    }
}

/// The number of elements of `s` that lie at or before the end bound.
pub open spec fn upper_rank<T: Ord>(s: Seq<T>, end: Bound<&T>) -> int {
    match end {
        Bound::Included(v) => count_below(s, *v) + if s.contains(*v) {
            1int
        } else {
            0int
        },
        Bound::Excluded(v) => count_below(s, *v),
        Bound::Unbounded => s.len() as int,
    }
}

/// The elements before `a` lie before the start bound, the others do not.
pub open spec fn cut_at_start<T: Ord>(s: Seq<T>, a: int, start: Bound<&T>) -> bool {
    &&& 0 <= a <= s.len()
    &&& forall|r: int| 0 <= r < a ==> !after_start(#[trigger] s[r], start)
    &&& forall|r: int| a <= r < s.len() ==> after_start(#[trigger] s[r], start)
}

/// The elements before `b` lie at or before the end bound, the others do not.
pub open spec fn cut_at_end<T: Ord>(s: Seq<T>, b: int, end: Bound<&T>) -> bool {
    &&& 0 <= b <= s.len()
    &&& forall|r: int| 0 <= r < b ==> before_end(#[trigger] s[r], end)
    &&& forall|r: int| b <= r < s.len() ==> !before_end(#[trigger] s[r], end)
}

/// With bounds in order the start of the span is not after its end.
pub proof fn lemma_cuts_in_order<T: Ord>(
    s: Seq<T>,
    a: int,
    start: Bound<&T>,
    b: int,
    end: Bound<&T>,
)
    requires
        total_order::<T>(),
        bounds_in_order(start, end),
        cut_at_start(s, a, start),
        cut_at_end(s, b, end),
    ensures
        a <= b,
{
    if b < a {
        let x = s[b];
        assert(!after_start(x, start));
        assert(!before_end(x, end));
        match (start, end) {
            (Bound::Excluded(v), Bound::Excluded(w)) => {
                assert(lt(*w, x) || *w == x);
                assert(lt(x, *v) || x == *v);
            },
            (Bound::Included(v), Bound::Included(w)) => {
                assert(lt(*w, x));
                assert(lt(x, *v));
                assert(lt(*w, *v));
            },
            (Bound::Included(v), Bound::Excluded(w)) => {
                assert(lt(*w, x) || *w == x);
                assert(lt(x, *v));
                assert(lt(*w, *v));
            },
            (Bound::Excluded(v), Bound::Included(w)) => {
                assert(lt(*w, x));
                assert(lt(x, *v) || x == *v);
                assert(lt(*w, *v));
            },
            _ => {},
        }
    }
}

/// In an ascending sequence what stands before an element is below it and
/// what stands after it is above.
pub proof fn lemma_around<T: Ord>(s: Seq<T>, i: int)
    requires
        total_order::<T>(),
        strictly_ascending(s),
        0 <= i < s.len(),
    ensures
        forall|r: int| 0 <= r < i ==> lt(#[trigger] s[r], s[i]),
        forall|r: int| i < r < s.len() ==> lt(s[i], #[trigger] s[r]),
        s.contains(s[i]),
{
}

impl<T: Ord + Copy> RotatedArraySet<T> {
    /// The rank at which the span that starts at `start` begins.
    pub(crate) fn lower_index(&self, start: Bound<&T>) -> (a: usize)
        requires
            self.wf(),
            total_order::<T>(),
        ensures
            a == lower_rank(self@, start),
            cut_at_start(self@, a as int, start),
    {
        match start {
            Bound::Unbounded => 0,
            Bound::Included(s) => match self.rank(s) {
                Ok(index) => {
                    proof {
                        lemma_rank_count(self@, index as int);
                        lemma_around(self@, index as int);
                    }
                    index
                },
                Err(index) => {
                    proof {
                        lemma_splits_count(self@, index as int, *s);
                    }
                    index
                },
            },
            Bound::Excluded(s) => match self.rank(s) {
                Ok(index) => {
                    proof {
                        lemma_rank_count(self@, index as int);
                        lemma_around(self@, index as int);
                        assert(self.data.len() == self@.len());
                    }
                    index + 1
                },
                Err(index) => {
                    proof {
                        lemma_splits_count(self@, index as int, *s);
                        lemma_splits_absent(self@, index as int, *s);
                    }
                    index
                },
            },
        }
    }

    /// The rank before which the span that ends at `end` stops.
    pub(crate) fn upper_index(&self, end: Bound<&T>) -> (b: usize)
        requires
            self.wf(),
            total_order::<T>(),
        ensures
            b == upper_rank(self@, end),
            cut_at_end(self@, b as int, end),
    {
        match end {
            Bound::Unbounded => self.len(),
            Bound::Included(e) => match self.rank(e) {
                Ok(index) => {
                    proof {
                        lemma_rank_count(self@, index as int);
                        lemma_around(self@, index as int);
                        assert(self.data.len() == self@.len());
                    }
                    index + 1
                },
                Err(index) => {
                    proof {
                        lemma_splits_count(self@, index as int, *e);
                        lemma_splits_absent(self@, index as int, *e);
                    }
                    index
                },
            },
            Bound::Excluded(e) => match self.rank(e) {
                Ok(index) => {
                    proof {
                        lemma_rank_count(self@, index as int);
                        lemma_around(self@, index as int);
                    }
                    index
                },
                Err(index) => {
                    proof {
                        lemma_splits_count(self@, index as int, *e);
                    }
                    index
                },
            },
        }
    }

    /// The span of the ranks of the elements between the two bounds.
    pub(crate) fn get_range(&self, start: Bound<&T>, end: Bound<&T>) -> (range: Range<'_, T>)
        requires
            self.wf(),
            total_order::<T>(),
            bounds_in_order(start, end),
        ensures
            range.wf(),
            range.container == self,
            range.start_index_inclusive == lower_rank(self@, start),
            range.end_index_exclusive == upper_rank(self@, end),
            cut_at_start(self@, range.start_index_inclusive as int, start),
            cut_at_end(self@, range.end_index_exclusive as int, end),
    {
        let start_index_inclusive = self.lower_index(start);
        let end_index_exclusive = self.upper_index(end);
        proof {
            lemma_cuts_in_order(
                self@,
                start_index_inclusive as int,
                start,
                end_index_exclusive as int,
                end,
            );
        }
        Range::with_bounds(self, start_index_inclusive, end_index_exclusive)
    }

    /// An iterator over the elements between the two bounds, in ascending
    /// order and, from the back, in descending order. The bounds have to be
    /// in order.
    pub fn range(&self, start: Bound<&T>, end: Bound<&T>) -> (it: Iter<'_, T>)
        requires
            self.wf(),
            total_order::<T>(),
            bounds_in_order(start, end),
        ensures
            it.wf(),
            it.container() == *self,
            0 <= lower_rank(self@, start) <= upper_rank(self@, end) <= self@.len(),
            it@ == self@.subrange(lower_rank(self@, start), upper_rank(self@, end)),
            forall|x: T|
                it@.contains(x) <==> self@.contains(x) && after_start(x, start) && before_end(
                    x,
                    end,
                ),
    {
        let range = self.get_range(start, end);
        let it = Iter::new(range);
        proof {
            let a = range.start_index_inclusive as int;
            let b = range.end_index_exclusive as int;
            assert forall|x: T|
                it@.contains(x) <==> self@.contains(x) && after_start(x, start) && before_end(
                    x,
                    end,
                ) by {
                if it@.contains(x) {
                    let i = choose|i: int| 0 <= i < it@.len() && it@[i] == x;
                    assert(self@[a + i] == x);
                }
                if self@.contains(x) && after_start(x, start) && before_end(x, end) {
                    let r = choose|r: int| 0 <= r < self@.len() && self@[r] == x;
                    assert(a <= r < b);
                    assert(it@[r - a] == x);
                }
            }
        }
        it
    }
}

} // verus!
