//! Operations on many elements at once: cutting the set, and building it from
//! a plain sequence and back.

use crate::layout::{layout_ok, lemma_ordered_zero, lemma_rank_parts, lemma_sub_len, sub_len};
use crate::order::{compare, lt, total_order, Rel};
use crate::partition::{lemma_sub_of, lemma_tri_mono, lemma_tri_step, lemma_tri_zero, sub_of, tri};
use crate::set::RotatedArraySet;
use crate::sorted::{ascending_in, lemma_ascending_unique, strictly_ascending};
use crate::trusted::{nondecreasing, sort_unstable};
use crate::withdraw::lemma_ordered_truncate;
use vstd::prelude::*;
use vstd::seq_lib::{to_multiset_contains, to_multiset_len};

verus! {

/// Leaves one of each run of equal elements in a vector that is sorted: the
/// result is strictly ascending and holds the same values.
pub fn dedup_sorted<T: Ord + Copy>(v: &mut Vec<T>)
    requires
        total_order::<T>(),
        nondecreasing(old(v)@),
    ensures
        strictly_ascending(final(v)@),
        final(v)@.to_set() == old(v)@.to_set(),
{
    let n = v.len();
    if n == 0 {
        return;
    }
    let ghost before = v@;
    let mut w: usize = 1;
    let mut r: usize = 1;
    proof {
        assert(v@.subrange(0, 1) =~= before.subrange(0, 1));
    }
    while r < n
        invariant
            total_order::<T>(),
            nondecreasing(before),
            before.len() == n,
            v.len() == n,
            1 <= w <= r <= n,
            forall|x: int| r <= x < n ==> #[trigger] v[x] == before[x],
            ascending_in(v@, 0, w as int),
            v[w - 1] == before[r - 1],
            v@.subrange(0, w as int).to_set() == before.subrange(0, r as int).to_set(),
        decreases n - r,
    {
        let ghost prev = v@;
        let x = v[r];
        let last = v[w - 1];
        proof {
            assert(!lt(before[r as int], before[r - 1]));
            lemma_take_push(before, r as int);
        }
        match compare(&last, &x) {
            Rel::Same => {
                proof {
                    let kept = prev.subrange(0, w as int);
                    assert(kept[w - 1] == x);
                    assert(kept.to_set().contains(x));
                    assert(kept.to_set().insert(x) =~= kept.to_set());
                }
            },
            _ => {
                v.set(w, x);
                proof {
                    assert(lt(last, x));
                    lemma_extend_ascending(prev, v@, w as int, x);
                    lemma_take_push(v@, w as int);
                    assert(v@.subrange(0, w as int) =~= prev.subrange(0, w as int));
                }
                w = w + 1;
            },
        }
        r = r + 1;
    }
    let ghost full = v@;
    v.truncate(w);
    proof {
        assert(v@ =~= full.subrange(0, w as int));
        assert(before.subrange(0, n as int) =~= before);
    }
}

/// The first `i + 1` elements are the first `i` elements and one more.
proof fn lemma_take_push<T>(s: Seq<T>, i: int)
    requires
        0 <= i < s.len(),
    ensures
        s.subrange(0, i + 1).to_set() == s.subrange(0, i).to_set().insert(s[i]),
{
    assert(s.subrange(0, i + 1) =~= s.subrange(0, i).push(s[i]));
    s.subrange(0, i).lemma_push_to_set_commute(s[i]);
}

/// A value above the last of an ascending run extends the run.
proof fn lemma_extend_ascending<T: Ord>(prev: Seq<T>, next: Seq<T>, w: int, x: T)
    requires
        total_order::<T>(),
        0 < w < prev.len(),
        ascending_in(prev, 0, w),
        lt(prev[w - 1], x),
        next == prev.update(w, x),
    ensures
        ascending_in(next, 0, w + 1),
{
    assert forall|i: int, j: int| 0 <= i < j < w + 1 implies lt(
        #[trigger] next[i],
        #[trigger] next[j],
    ) by {
        if j == w {
            if i < w - 1 {
                assert(lt(prev[i], prev[w - 1]));
            }
        } else {
            assert(lt(prev[i], prev[j]));
        }
    }
}

impl<T: Ord + Copy> RotatedArraySet<T> {
    /// Keeps the first `len` elements in ascending order and drops the rest.
    /// With `len` at or above the number of elements nothing changes.
    pub fn truncate(&mut self, len: usize)
        requires
            old(self).wf(),
        ensures
            final(self).wf(),
            len >= old(self)@.len() ==> final(self)@ == old(self)@,
            len < old(self)@.len() ==> final(self)@ == old(self)@.subrange(0, len as int),
    {
        if len == 0 {
            self.clear();
            assert(self@ =~= old(self)@.subrange(0, 0));
        } else if len < self.len() {
            let ghost before = self@;
            // the rank that corresponds to the new length
            let index = len - 1;
            // The subarray that holds that rank is put in ascending order; then
            // the store can be cut at the rank.
            let subarray_idx = Self::get_subarray_idx_from_array_idx(index);
            proof {
                lemma_rank_parts(self.min_indexes@, self.data@.len() as int, index as int);
            }
            self.unrotate(subarray_idx);
            let ghost d0 = self.data@;
            let ghost p0 = self.min_indexes@;
            assert(subarray_idx < self.min_indexes.len());
            self.data.truncate(len);
            self.min_indexes.truncate(subarray_idx + 1);
            self.min_data.truncate(subarray_idx + 1);
            proof {
                lemma_ordered_truncate(d0, p0, len as int);
                assert forall|i: int| 0 <= i < self.min_indexes@.len() implies #[trigger] self.min_data@[i]
                    == self.data@[tri(i) + self.min_indexes@[i]] by {
                    lemma_sub_len(self.min_indexes@, len as int, i);
                    assert(old(self).min_data@[i] == d0[tri(i) + p0[i]]);
                }
            }
        }
    }

    /// Builds the pivots and the cached minima for the elements in `data`:
    /// sorts them, leaves one of each value, and starts every subarray at its
    /// first offset.
    pub(crate) fn init(&mut self)
        requires
            total_order::<T>(),
            old(self).min_indexes@.len() == 0,
            old(self).min_data@.len() == 0,
        ensures
            final(self).wf(),
            final(self)@.to_set() == old(self).data@.to_set(),
    {
        proof {
            lemma_tri_zero();
        }
        if !self.data.is_empty() {
            let ghost given = self.data@;
            sort_unstable(&mut self.data);
            let ghost sorted = self.data@;
            dedup_sorted(&mut self.data);
            proof {
                assert forall|x: T| given.contains(x) <==> sorted.contains(x) by {
                    to_multiset_contains(given, x);
                    to_multiset_contains(sorted, x);
                }
                assert(given.to_set() =~= sorted.to_set());
                to_multiset_len(given);
                to_multiset_len(sorted);
                assert(sorted.contains(sorted[0]));
                assert(self.data@.to_set().contains(sorted[0]));
                assert(self.data@.contains(sorted[0]));
            }
            let ghost kept = self.data@;
            let n = self.data.len();
            let last_subarray_idx = Self::get_subarray_idx_from_array_idx(n - 1);
            proof {
                lemma_tri_mono(last_subarray_idx as int, last_subarray_idx as int);
                lemma_tri_step(last_subarray_idx as int);
            }
            let mut subarray_idx: usize = 0;
            while subarray_idx <= last_subarray_idx
                invariant
                    self.data@ == kept,
                    self.data@.len() == n,
                    n > 0,
                    last_subarray_idx < n,
                    last_subarray_idx == sub_of(n - 1),
                    tri(last_subarray_idx as int) <= n - 1,
                    0 <= subarray_idx <= last_subarray_idx + 1,
                    self.min_indexes@.len() == subarray_idx,
                    self.min_data@.len() == subarray_idx,
                    forall|i: int| 0 <= i < subarray_idx ==> #[trigger] self.min_indexes@[i] == 0,
                    forall|i: int|
                        0 <= i < subarray_idx ==> #[trigger] self.min_data@[i]
                            == self.data@[tri(i)],
                decreases last_subarray_idx + 1 - subarray_idx,
            {
                proof {
                    lemma_tri_mono(subarray_idx as int, last_subarray_idx as int);
                }
                let subarray_offset = Self::get_array_idx_from_subarray_idx(subarray_idx);
                self.min_indexes.push(0);
                let min = self.data[subarray_offset];
                self.min_data.push(min);
                subarray_idx = subarray_idx + 1;
            }
            proof {
                let k = last_subarray_idx + 1;
                lemma_sub_of(n - 1);
                assert forall|i: int| 0 <= i < k implies #[trigger] self.min_indexes@[i] < sub_len(
                    n as int,
                    i,
                ) by {
                    lemma_tri_mono(i, last_subarray_idx as int);
                }
                assert(layout_ok(self.min_indexes@, n as int));
                lemma_ordered_zero(self.data@, self.min_indexes@);
                assert(self.synced());
            }
        } else {
            assert(self@ =~= self.data@);
        }
    }

    /// Makes the set of the elements of `vec`, in `O(n log n)`.
    pub fn from_vec(vec: Vec<T>) -> (s: Self)
        requires
            total_order::<T>(),
        ensures
            s.wf(),
            s@.to_set() == vec@.to_set(),
            strictly_ascending(vec@) ==> s@ == vec@,
    {
        let mut this = RotatedArraySet { data: vec, min_indexes: Vec::new(), min_data: Vec::new() };
        this.init();
        proof {
            if strictly_ascending(vec@) {
                lemma_ascending_unique(this@, vec@);
            }
        }
        this
    }

    /// Makes the set of the elements of `slice`, in `O(n log n)`.
    pub fn from_slice(slice: &[T]) -> (s: Self)
        requires
            total_order::<T>(),
        ensures
            s.wf(),
            s@.to_set() == slice@.to_set(),
            strictly_ascending(slice@) ==> s@ == slice@,
    {
        let mut data: Vec<T> = Vec::new();
        let mut i: usize = 0;
        while i < slice.len()
            invariant
                0 <= i <= slice@.len(),
                data@ == slice@.subrange(0, i as int),
            decreases slice@.len() - i,
        {
            data.push(slice[i]);
            assert(data@ =~= slice@.subrange(0, i + 1));
            i = i + 1;
        }
        assert(data@ =~= slice@);
        Self::from_vec(data)
    }

    /// Turns the set into the vector of its elements in ascending order, in
    /// place: each subarray is written out in ascending order.
    pub fn into_vec(self) -> (v: Vec<T>)
        requires
            self.wf(),
        ensures
            v@ == self@,
    {
        let mut this = self;
        let k = this.min_indexes.len();
        let mut i: usize = 0;
        while i < k
            invariant
                this.synced(),
                this@ == self@,
                this.min_indexes@.len() == k,
                0 <= i <= k,
                forall|j: int| 0 <= j < i ==> #[trigger] this.min_indexes@[j] == 0,
            decreases k - i,
        {
            this.unrotate(i);
            i = i + 1;
        }
        proof {
            lemma_ordered_zero(this.data@, this.min_indexes@);
        }
        this.data
    }
}

} // verus!
