//! The container, its representation invariant and its queries.

use crate::layout::{layout_ok, lemma_rank_parts, lemma_raw_of, lemma_sub_len, ordered, rot};
use crate::partition::{lemma_tri_mono, lemma_tri_step, lemma_tri_twice, lemma_tri_zero, tri};
use crate::sorted::strictly_ascending;
use vstd::arithmetic::div_mod::{lemma_fundamental_div_mod_converse, lemma_small_mod};
use vstd::prelude::*;

verus! {

/// An ordered set stored in one array cut into subarrays of sizes 1, 2, 3, ...,
/// each of them a sorted run rotated by its pivot offset.
#[derive(Debug)]
pub struct RotatedArraySet<T> {
    pub(crate) data: Vec<T>,
    pub(crate) min_indexes: Vec<usize>,
    pub(crate) min_data: Vec<T>,
}

impl<T> View for RotatedArraySet<T> {
    type V = Seq<T>;

    /// The elements in ascending order.
    open(crate) spec fn view(&self) -> Seq<T> {
        ordered(self.data@, self.min_indexes@)
    }
}

/// A copy of `v`, element by element.
pub(crate) fn copy_vec<T: Copy>(v: &Vec<T>) -> (r: Vec<T>)
    ensures
        r@ == v@,
{
    let mut r: Vec<T> = Vec::with_capacity(v.len());
    let mut i: usize = 0;
    while i < v.len()
        invariant
            0 <= i <= v.len(),
            r@ == v@.subrange(0, i as int),
        decreases v.len() - i,
    {
        r.push(v[i]);
        assert(r@ =~= v@.subrange(0, i + 1));
        i = i + 1;
    }
    assert(r@ =~= v@);
    r
}

impl<T: Ord + Copy> Clone for RotatedArraySet<T> {
    /// A set with the same elements, laid out in the same way.
    fn clone(&self) -> (copy: Self)
        ensures
            copy@ == self@,
            copy.wf() == self.wf(),
    {
        RotatedArraySet {
            data: copy_vec(&self.data),
            min_indexes: copy_vec(&self.min_indexes),
            min_data: copy_vec(&self.min_data),
        }
    }
}

impl<T: Ord + Copy> Default for RotatedArraySet<T> {
    /// The empty set.
    fn default() -> (s: Self)
        ensures
            s.wf(),
            s@ == Seq::<T>::empty(),
    {
        RotatedArraySet::new()
    }
}

impl<T: Ord + Copy> RotatedArraySet<T> {
    /// The representation invariant: there is one pivot and one cached minimum
    /// for each subarray in use, every subarray but the last is full, each
    /// pivot lies inside its subarray and is zero for a last subarray that is
    /// not full, each cached minimum is the element at its pivot, and the
    /// elements read subarray by subarray, each from its pivot, are strictly
    /// ascending.
    pub open(crate) spec fn wf(&self) -> bool {
        &&& self.synced()
        &&& strictly_ascending(self@)
    }

    /// The part of the invariant that says nothing of the order of the
    /// elements: the pivots fit the store, and each cached minimum is the
    /// element at its pivot.
    pub(crate) open spec fn synced(&self) -> bool {
        &&& layout_ok(self.min_indexes@, self.data@.len() as int)
        &&& self.min_data@.len() == self.min_indexes@.len()
        &&& forall|i: int|
            0 <= i < self.min_indexes@.len() ==> #[trigger] self.min_data@[i] == self.data@[tri(i)
                + self.min_indexes@[i]]
    }

    /// A well-formed set is strictly ascending: it holds no value twice.
    pub proof fn lemma_ascending(&self)
        requires
            self.wf(),
        ensures
            strictly_ascending(self@),
    {
    }

    /// Makes an empty set without allocating.
    pub fn new() -> (s: Self)
        ensures
            s.wf(),
            s@ == Seq::<T>::empty(),
    {
        let s = RotatedArraySet { data: Vec::new(), min_indexes: Vec::new(), min_data: Vec::new() };
        proof {
            lemma_tri_zero();
        }
        assert(s@ =~= Seq::<T>::empty());
        s
    }

    /// Makes an empty set with room for `capacity` elements.
    pub fn with_capacity(capacity: usize) -> (s: RotatedArraySet<T>)
        ensures
            s.wf(),
            s@ == Seq::<T>::empty(),
    {
        let min_indexes_capacity = if capacity > 0 {
            let last = Self::get_subarray_idx_from_array_idx(capacity - 1);
            proof {
                lemma_tri_mono(last as int, last as int);
            }
            last + 1
        } else {
            0
        };
        let s = RotatedArraySet {
            data: Vec::with_capacity(capacity),
            min_indexes: Vec::with_capacity(min_indexes_capacity),
            min_data: Vec::with_capacity(min_indexes_capacity),
        };
        proof {
            lemma_tri_zero();
        }
        assert(s@ =~= Seq::<T>::empty());
        s
    }

    /// Removes all elements.
    pub fn clear(&mut self)
        ensures
            final(self).wf(),
            final(self)@ == Seq::<T>::empty(),
    {
        self.data.clear();
        self.min_indexes.clear();
        self.min_data.clear();
        proof {
            lemma_tri_zero();
        }
        assert(self@ =~= Seq::<T>::empty());
    }

    /// The number of elements.
    pub fn len(&self) -> (n: usize)
        ensures
            n == self@.len(),
    {
        self.data.len()
    }

    /// Whether the set holds no element.
    pub fn is_empty(&self) -> (b: bool)
        ensures
            b == (self@.len() == 0),
    {
        self.data.is_empty()
    }

    /// Whether the last subarray holds as many elements as it can.
    pub(crate) fn is_last_subarray_full(&self) -> (full: bool)
        requires
            self.wf(),
        ensures
            full == (self.data@.len() == tri(self.min_indexes@.len() as int)),
    {
        let k = self.min_indexes.len();
        proof {
            lemma_tri_zero();
        }
        if k == 0 {
            true
        } else {
            proof {
                lemma_tri_step(k - 1);
                lemma_tri_mono(0, k - 1);
            }
            self.data.len() - Self::get_array_idx_from_subarray_idx(k - 1) == k
        }
    }

    /// The element of the given rank, if there is one.
    pub fn select(&self, rank: usize) -> (found: Option<&T>)
        requires
            self.wf(),
        ensures
            rank < self@.len() ==> found == Some(&self@[rank as int]),
            rank >= self@.len() ==> found.is_none(),
    {
        self.at_rank(rank)
    }

    /// The element of the given rank, if there is one, whatever the order of
    /// the elements.
    pub(crate) fn at_rank(&self, rank: usize) -> (found: Option<&T>)
        requires
            self.synced(),
        ensures
            rank < self@.len() ==> found == Some(&self@[rank as int]),
            rank >= self@.len() ==> found.is_none(),
    {
        if rank >= self.data.len() {
            return None;
        }
        let subarray_idx = Self::get_subarray_idx_from_array_idx(rank);
        proof {
            lemma_rank_parts(self.min_indexes@, self.data@.len() as int, rank as int);
            lemma_sub_len(self.min_indexes@, self.data@.len() as int, subarray_idx as int);
            lemma_raw_of(
                self.min_indexes@,
                self.data@.len() as int,
                subarray_idx as int,
                rank - tri(subarray_idx as int),
            );
        }
        let subarray_start_idx = Self::get_array_idx_from_subarray_idx(subarray_idx);
        let subarray_len = if subarray_idx == self.min_indexes.len() - 1 {
            self.data.len() - subarray_start_idx
        } else {
            subarray_idx + 1
        };
        let idx_offset = rank - subarray_start_idx;
        let pivot_offset = self.min_indexes[subarray_idx];
        proof {
            // the sum of two offsets of one subarray is no larger than an offset
            // of the store
            if subarray_idx >= 3 {
                lemma_tri_twice(subarray_idx as int);
            }
            let sum = pivot_offset + idx_offset;
            if sum < subarray_len {
                lemma_small_mod(sum as nat, subarray_len as nat);
            } else {
                lemma_fundamental_div_mod_converse(
                    sum,
                    subarray_len as int,
                    1,
                    sum - subarray_len,
                );
            }
            assert(sum % (subarray_len as int) == rot(
                pivot_offset as int,
                idx_offset as int,
                subarray_len as int,
            ));
        }
        let rotated_offset = (pivot_offset + idx_offset) % subarray_len;
        let raw_idx = subarray_start_idx + rotated_offset;
        Some(&self.data[raw_idx])
    }
}

} // verus!
