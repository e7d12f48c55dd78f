//! A check of the representation invariant at run time, and the comparison
//! of two sets.

use crate::layout::{layout_ok, sub_len};
use crate::order::{compare, lt, total_order, Rel};
use crate::partition::{lemma_sub_of_unique, lemma_tri_mono, lemma_tri_step, lemma_tri_zero, tri};
use crate::set::RotatedArraySet;
use crate::sorted::strictly_ascending;
use crate::trusted::{is_sorted, nondecreasing};
use vstd::prelude::*;

verus! {

/// No element of `s` equals the element before it.
pub open spec fn no_repeat<T>(s: Seq<T>) -> bool {
    forall|i: int| 0 < i < s.len() ==> #[trigger] s[i] != s[i - 1]
}

/// A sequence is strictly ascending exactly if no element is below or equal
/// to the element before it.
pub proof fn lemma_ascending_by_neighbours<T: Ord>(s: Seq<T>)
    requires
        total_order::<T>(),
    ensures
        strictly_ascending(s) <==> nondecreasing(s) && no_repeat(s),
{
    if strictly_ascending(s) {
        assert forall|i: int| 0 < i < s.len() implies !lt(#[trigger] s[i], s[i - 1]) && s[i]
            != s[i - 1] by {
            assert(lt(s[i - 1], s[i]));
        }
    }
    if nondecreasing(s) && no_repeat(s) {
        assert forall|i: int, j: int| 0 <= i < j < s.len() implies lt(
            #[trigger] s[i],
            #[trigger] s[j],
        ) by {
            lemma_chain(s, i, j);
        }
    }
}

/// Along a sequence in which each element is above the one before it, any
/// element is above any earlier one.
proof fn lemma_chain<T: Ord>(s: Seq<T>, i: int, j: int)
    requires
        total_order::<T>(),
        nondecreasing(s),
        no_repeat(s),
        0 <= i < j < s.len(),
    ensures
        lt(s[i], s[j]),
    decreases j - i,
{
    assert(!lt(s[j], s[j - 1]) && s[j] != s[j - 1]);
    assert(lt(s[j - 1], s[j]));
    if i < j - 1 {
        lemma_chain(s, i, j - 1);
    }
}

/// Whether `v` is strictly ascending: sorted, and without a value that repeats.
pub fn is_strictly_ascending<T: Ord + Copy>(v: &Vec<T>) -> (ok: bool)
    requires
        total_order::<T>(),
    ensures
        ok == strictly_ascending(v@),
{
    proof {
        lemma_ascending_by_neighbours(v@);
    }
    if !is_sorted(v) {
        return false;
    }
    let n = v.len();
    let mut r: usize = 1;
    while r < n
        invariant
            total_order::<T>(),
            n == v@.len(),
            1 <= r,
            forall|i: int| 0 < i < r && i < n ==> #[trigger] v@[i] != v@[i - 1],
        decreases n - r,
    {
        match compare(&v[r - 1], &v[r]) {
            Rel::Same => {
                return false;
            },
            _ => {},
        }
        r = r + 1;
    }
    true
}

impl<T: Ord + Copy> RotatedArraySet<T> {
    /// Whether the representation invariant holds. It holds of every set that
    /// this library hands out; tests may call it after each step.
    pub fn assert_invariants(&self) -> (ok: bool)
        requires
            total_order::<T>(),
        ensures
            ok == self.wf(),
    {
        let n = self.data.len();
        let k = self.min_indexes.len();
        proof {
            lemma_tri_zero();
        }
        // one cached minimum for each pivot
        if self.min_data.len() != k {
            return false;
        }
        if n == 0 {
            proof {
                if k > 0 {
                    lemma_tri_mono(0, k - 1);
                }
            }
            return k == 0;
        }
        if k == 0 {
            return false;
        }
        // as many subarrays as the elements need
        let last = Self::get_subarray_idx_from_array_idx(n - 1);
        if last != k - 1 {
            proof {
                if layout_ok(self.min_indexes@, n as int) {
                    lemma_sub_of_unique(n - 1, k - 1);
                }
            }
            return false;
        }
        proof {
            lemma_tri_step(k - 1);
        }
        // each pivot lies inside its subarray, and the cached minimum is the
        // element at the pivot
        let mut i: usize = 0;
        while i < k
            invariant
                total_order::<T>(),
                n == self.data@.len(),
                k == self.min_indexes@.len(),
                k == self.min_data@.len(),
                n > 0,
                k > 0,
                tri(k - 1) <= n - 1 < tri(k as int),
                0 <= i <= k,
                forall|j: int| 0 <= j < i ==> #[trigger] self.min_indexes@[j] < sub_len(n as int, j),
                forall|j: int|
                    0 <= j < i ==> #[trigger] self.min_data@[j] == self.data@[tri(j)
                        + self.min_indexes@[j]],
            decreases k - i,
        {
            proof {
                lemma_tri_mono(i as int, k - 1);
                lemma_tri_step(i as int);
                if i < k - 1 {
                    lemma_tri_mono(i + 1, k - 1);
                }
            }
            let start = Self::get_array_idx_from_subarray_idx(i);
            let len = if i == k - 1 {
                n - start
            } else {
                i + 1
            };
            let offset = self.min_indexes[i];
            if offset >= len {
                return false;
            }
            match compare(&self.min_data[i], &self.data[start + offset]) {
                Rel::Same => {},
                _ => {
                    return false;
                },
            }
            i = i + 1;
        }
        // a last subarray that is not full starts at its first offset
        let last_start = Self::get_array_idx_from_subarray_idx(k - 1);
        if n - last_start != k && self.min_indexes[k - 1] != 0 {
            return false;
        }
        assert(self.synced());
        // the elements in ascending rank are sorted and none of them repeats
        let mut by_rank: Vec<T> = Vec::with_capacity(n);
        let mut r: usize = 0;
        while r < n
            invariant
                self.synced(),
                n == self@.len(),
                0 <= r <= n,
                by_rank@ == self@.subrange(0, r as int),
            decreases n - r,
        {
            match self.at_rank(r) {
                Some(x) => {
                    by_rank.push(*x);
                },
                None => {},
            }
            assert(by_rank@ =~= self@.subrange(0, r + 1));
            r = r + 1;
        }
        assert(by_rank@ =~= self@);
        is_strictly_ascending(&by_rank)
    }

    /// Whether two sets hold the same elements.
    pub fn eq(&self, other: &Self) -> (same: bool)
        requires
            self.wf(),
            other.wf(),
            total_order::<T>(),
        ensures
            same == (self@ == other@),
    {
        if self.len() != other.len() {
            return false;
        }
        let n = self.len();
        let mut i: usize = 0;
        while i < n
            invariant
                self.wf(),
                other.wf(),
                total_order::<T>(),
                n == self@.len(),
                n == other@.len(),
                0 <= i <= n,
                forall|j: int| 0 <= j < i ==> self@[j] == other@[j],
            decreases n - i,
        {
            match (self.select(i), other.select(i)) {
                (Some(a), Some(b)) => match compare(a, b) {
                    Rel::Same => {},
                    _ => {
                        return false;
                    },
                },
                _ => {},
            }
            i = i + 1;
        }
        assert(self@ =~= other@);
        true
    }
}

} // verus!
