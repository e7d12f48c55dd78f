//! Insertion: a shift inside the subarray that takes the value, then a chain
//! that hands the maximum of each full subarray on to the next one.

use crate::exchange::{
    lemma_exchange_after_pivot, lemma_exchange_before_max, lemma_exchange_easy, lemma_max_of_full,
    lemma_ordered_grow_last, lemma_ordered_push, lemma_splice_finish, lemma_splice_step,
};
use crate::layout::{lemma_rank_of_value, lemma_sub_len, rank_of, spliced};
use crate::order::total_order;
use crate::partition::{lemma_tri_mono, lemma_tri_step, lemma_tri_zero, tri};
use crate::set::RotatedArraySet;
use crate::sorted::{count_below, lemma_insert_ascending, lemma_splits_absent, lemma_splits_count};
use crate::vec_util::copy_within;
use vstd::prelude::*;

verus! {

impl<T: Ord + Copy> RotatedArraySet<T> {
    /// Puts `value` into the full subarray `subarray_idx` at array offset
    /// `insert_idx` and takes the maximum of the subarray out: in ranks, the
    /// subarray becomes what it was with `value` inserted and its last element
    /// dropped. Returns the element that was dropped.
    pub(crate) fn exchange_hard(&mut self, subarray_idx: usize, insert_idx: usize, value: T) -> (evicted:
        T)
        requires
            old(self).synced(),
            subarray_idx < old(self).min_indexes@.len(),
            tri(subarray_idx + 1) <= old(self).data@.len(),
            tri(subarray_idx as int) <= insert_idx < tri(subarray_idx + 1),
        ensures
            final(self).synced(),
            final(self).data@.len() == old(self).data@.len(),
            final(self).min_indexes@.len() == old(self).min_indexes@.len(),
            evicted == old(self)@[tri(subarray_idx + 1) - 1],
            final(self)@ == spliced(
                old(self)@.insert(
                    rank_of(
                        old(self).min_indexes@,
                        old(self).data@.len() as int,
                        insert_idx as int,
                    ),
                    value,
                ),
                old(self)@,
                tri(subarray_idx + 1),
            ),
    {
        let ghost d0 = self.data@;
        let ghost p0 = self.min_indexes@;
        let ghost n = d0.len() as int;
        let ghost k = p0.len() as int;
        let ghost s = subarray_idx as int;
        proof {
            lemma_sub_len(p0, n, s);
            lemma_tri_step(s);
            lemma_tri_mono(s + 1, s + 1);
            assert(self.data.len() == n);
            lemma_rank_of_value(p0, n, insert_idx as int, s);
            lemma_max_of_full(d0, p0, s);
        }
        let subarray_offset = Self::get_array_idx_from_subarray_idx(subarray_idx);
        let len = subarray_idx + 1;
        let pivot_offset = self.min_indexes[subarray_idx];
        let insert_offset = insert_idx - subarray_offset;
        let max_offset = if pivot_offset == 0 {
            len - 1
        } else {
            pivot_offset - 1
        };
        let prev_max = self.data[subarray_offset + max_offset];
        let ghost q = rank_of(p0, n, insert_idx as int);
        if max_offset < pivot_offset && insert_offset >= pivot_offset {
            copy_within(
                &mut self.data,
                subarray_offset + pivot_offset,
                subarray_offset + insert_offset,
                subarray_offset + max_offset,
            );
            self.data.set(subarray_offset + insert_offset - 1, value);
            self.min_indexes.set(subarray_idx, max_offset);
            let new_min = self.data[subarray_offset + max_offset];
            self.min_data.set(subarray_idx, new_min);
            proof {
                lemma_exchange_after_pivot(
                    d0,
                    p0,
                    self.data@,
                    self.min_indexes@,
                    s,
                    insert_offset as int,
                    value,
                );
            }
        } else {
            copy_within(
                &mut self.data,
                subarray_offset + insert_offset,
                subarray_offset + max_offset,
                subarray_offset + insert_offset + 1,
            );
            self.data.set(subarray_offset + insert_offset, value);
            if insert_offset == pivot_offset {
                self.min_data.set(subarray_idx, value);
            }
            proof {
                lemma_exchange_before_max(d0, p0, self.data@, s, insert_offset as int, value);
            }
        }
        proof {
            let d1 = self.data@;
            let p1 = self.min_indexes@;
            assert forall|i: int| 0 <= i < k implies #[trigger] self.min_data@[i] == d1[tri(i)
                + p1[i]] by {
                lemma_sub_len(p0, n, i);
                lemma_tri_step(i);
                if i < s {
                    lemma_tri_mono(i + 1, s);
                } else if i > s {
                    lemma_tri_mono(s + 1, i);
                }
                assert(old(self).min_data@[i] == d0[tri(i) + p0[i]]);
            }
        }
        prev_max
    }

    /// Puts `carried` into the full subarray `cur` as its new minimum and takes
    /// the maximum of the subarray out. Returns the element taken out.
    pub(crate) fn exchange_easy(&mut self, cur: usize, carried: T) -> (evicted: T)
        requires
            old(self).synced(),
            cur < old(self).min_indexes@.len(),
            tri(cur + 1) <= old(self).data@.len(),
        ensures
            final(self).synced(),
            final(self).data@.len() == old(self).data@.len(),
            final(self).min_indexes@.len() == old(self).min_indexes@.len(),
            evicted == old(self)@[tri(cur + 1) - 1],
            final(self)@ == spliced(
                old(self)@.insert(tri(cur as int), carried),
                old(self)@,
                tri(cur + 1),
            ),
    {
        let ghost d0 = self.data@;
        let ghost p0 = self.min_indexes@;
        let ghost n = d0.len() as int;
        let ghost k = p0.len() as int;
        let ghost s = cur as int;
        proof {
            lemma_max_of_full(d0, p0, s);
            assert(self.data.len() == n);
        }
        let pivot_offset = self.min_indexes[cur];
        let max_offset = if pivot_offset == 0 {
            cur
        } else {
            pivot_offset - 1
        };
        let max_idx = max_offset + Self::get_array_idx_from_subarray_idx(cur);
        let next_max = self.data[max_idx];
        self.data.set(max_idx, carried);
        self.min_indexes.set(cur, max_offset);
        self.min_data.set(cur, carried);
        proof {
            let d1 = self.data@;
            let p1 = self.min_indexes@;
            lemma_exchange_easy(d0, p0, d1, p1, s, max_offset, carried);
            assert forall|i: int| 0 <= i < k implies #[trigger] self.min_data@[i] == d1[tri(i)
                + p1[i]] by {
                lemma_sub_len(p0, n, i);
                lemma_tri_step(i);
                if i < s {
                    lemma_tri_mono(i + 1, s);
                } else if i > s {
                    lemma_tri_mono(s + 1, i);
                }
                assert(old(self).min_data@[i] == d0[tri(i) + p0[i]]);
            }
        }
        next_max
    }

    /// Starts a new subarray with `value` after a full last subarray.
    pub(crate) fn push_subarray(&mut self, value: T)
        requires
            old(self).synced(),
            old(self).data@.len() == tri(old(self).min_indexes@.len() as int),
        ensures
            final(self).synced(),
            final(self)@ == old(self)@.push(value),
    {
        let ghost d0 = self.data@;
        let ghost p0 = self.min_indexes@;
        let ghost n = d0.len() as int;
        let ghost k = p0.len() as int;
        self.data.push(value);
        self.min_indexes.push(0);
        self.min_data.push(value);
        proof {
            lemma_ordered_push(d0, p0, value);
            assert forall|i: int| 0 <= i < k + 1 implies #[trigger] self.min_data@[i]
                == self.data@[tri(i) + self.min_indexes@[i]] by {
                if i < k {
                    lemma_sub_len(p0, n, i);
                    assert(old(self).min_data@[i] == d0[tri(i) + p0[i]]);
                }
            }
        }
    }

    /// Puts `value` at array offset `idx` of a last subarray that is not full.
    pub(crate) fn insert_in_last(&mut self, idx: usize, value: T)
        requires
            old(self).synced(),
            old(self).min_indexes@.len() > 0,
            old(self).data@.len() < tri(old(self).min_indexes@.len() as int),
            tri(old(self).min_indexes@.len() - 1) <= idx <= old(self).data@.len(),
        ensures
            final(self).synced(),
            final(self)@ == old(self)@.insert(idx as int, value),
    {
        let ghost d0 = self.data@;
        let ghost p0 = self.min_indexes@;
        let ghost n = d0.len() as int;
        let ghost k = p0.len() as int;
        let last = self.min_indexes.len() - 1;
        proof {
            lemma_sub_len(p0, n, k - 1);
            lemma_tri_mono(0, k - 1);
        }
        let subarray_offset = Self::get_array_idx_from_subarray_idx(last);
        self.data.insert(idx, value);
        // Nothing changes unless the minimum has changed.
        let new_min = self.data[subarray_offset];
        self.min_data.set(last, new_min);
        proof {
            lemma_ordered_grow_last(d0, p0, idx as int, value);
            assert forall|i: int| 0 <= i < k implies #[trigger] self.min_data@[i] == self.data@[tri(
                i,
            ) + self.min_indexes@[i]] by {
                if i < k - 1 {
                    lemma_sub_len(p0, n, i);
                    lemma_tri_step(i);
                    lemma_tri_mono(i + 1, k - 1);
                    assert(old(self).min_data@[i] == d0[tri(i) + p0[i]]);
                }
            }
        }
    }

    /// Adds `value` to the set. Returns whether it was added: `false`, with
    /// the set unchanged, where the set held it already.
    pub fn insert(&mut self, value: T) -> (added: bool)
        requires
            old(self).wf(),
            total_order::<T>(),
        ensures
            final(self).wf(),
            added == !old(self)@.contains(value),
            !added ==> *final(self) == *old(self),
            added ==> final(self)@ == old(self)@.insert(count_below(old(self)@, value), value),
            final(self)@.to_set() == old(self)@.to_set().insert(value),
    {
        let insert_idx = match self.find_raw_index(&value) {
            Ok(found_idx) => {
                proof {
                    self.lemma_data_rank(found_idx as int);
                    assert(self@.to_set() =~= self@.to_set().insert(value));
                }
                return false;
            },
            Err(idx) => idx,
        };
        let ghost before = self@;
        let ghost q = rank_of(self.min_indexes@, self.data@.len() as int, insert_idx as int);
        proof {
            lemma_splits_absent(before, q, value);
            lemma_splits_count(before, q, value);
            lemma_insert_ascending(before, q, value);
        }
        let k = self.min_indexes.len();
        let n = self.data.len();
        let last_full = self.is_last_subarray_full();
        let subarray_idx = Self::get_subarray_idx_from_array_idx(insert_idx);
        proof {
            lemma_tri_zero();
            if subarray_idx >= k {
                lemma_tri_mono(k as int, subarray_idx as int);
            }
            lemma_rank_of_value(
                self.min_indexes@,
                n as int,
                insert_idx as int,
                subarray_idx as int,
            );
        }
        // The value may start a subarray of its own.
        if subarray_idx == k {
            self.push_subarray(value);
            assert(before.push(value) =~= before.insert(q, value));
            return true;
        }
        proof {
            lemma_sub_len(self.min_indexes@, n as int, subarray_idx as int);
            lemma_tri_step(subarray_idx as int);
            if subarray_idx < k - 1 {
                lemma_tri_mono(subarray_idx + 1, k - 1);
            }
        }
        // Into a last subarray that is not full the value goes in sorted order:
        // the pivot stays, the cached minimum may change.
        if subarray_idx == k - 1 && !last_full {
            self.insert_in_last(insert_idx, value);
            return true;
        }
        // From here on the subarray that takes the value is full.
        let mut prev_max = self.exchange_hard(subarray_idx, insert_idx, value);
        let max_subarray_idx = k - 1;
        let mut cur = subarray_idx + 1;
        // Each further full subarray takes the maximum of the one before it as
        // its minimum and hands its own maximum on.
        while cur < k && !(cur == max_subarray_idx && !last_full)
            invariant
                self.synced(),
                self.data@.len() == n,
                self.min_indexes@.len() == k,
                k >= 1,
                max_subarray_idx == k - 1,
                last_full == (n == tri(k as int)),
                subarray_idx < cur <= k,
                !last_full ==> cur <= k - 1,
                0 <= q < tri(cur as int) <= n,
                before.len() == n,
                self@ == spliced(before.insert(q, value), before, tri(cur as int)),
                prev_max == before[tri(cur as int) - 1],
            decreases k - cur,
        {
            let ghost mid = self@;
            proof {
                lemma_tri_step(cur as int);
                if cur < k - 1 {
                    lemma_tri_mono(cur + 1, k - 1);
                }
            }
            let next_max = self.exchange_easy(cur, prev_max);
            proof {
                lemma_splice_step(
                    before,
                    q,
                    value,
                    mid,
                    self@,
                    tri(cur as int),
                    tri(cur + 1),
                    prev_max,
                );
            }
            prev_max = next_max;
            cur = cur + 1;
        }
        proof {
            lemma_splice_finish(before, q, value, self@, tri(cur as int), prev_max);
        }
        // The last maximum starts a new subarray if all were full, and else
        // goes to the front of the last one, since it is below all of it.
        if last_full {
            self.push_subarray(prev_max);
            assert(self@ =~= before.insert(q, value));
        } else {
            let max_subarray_offset = Self::get_array_idx_from_subarray_idx(max_subarray_idx);
            self.insert_in_last(max_subarray_offset, prev_max);
        }
        true
    }
}

} // verus!
