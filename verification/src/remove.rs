//! Removal: the gap is closed inside the subarray that held the value, then
//! each later subarray gives its minimum to the subarray before it.

use crate::layout::{
    lemma_ordered_at, lemma_rank_of, lemma_rank_of_value, lemma_rank_parts, lemma_sub_len, rank_of,
    spliced,
};
use crate::order::total_order;
use crate::partition::{lemma_sub_of, lemma_tri_mono, lemma_tri_step, lemma_tri_zero, tri};
use crate::set::RotatedArraySet;
use crate::sorted::{
    count_below, lemma_ascending_injective, lemma_rank_count, lemma_remove_ascending,
    lemma_splits_absent,
};
use crate::vec_util::{copy_within, rotate_left};
use crate::withdraw::{
    agree_except, lemma_ordered_shrink_last, lemma_ordered_update, lemma_unrotate,
    lemma_withdraw_after_pivot, lemma_withdraw_before_max, lemma_withdraw_easy,
    lemma_withdraw_finish, lemma_withdraw_step, max_slot, shrunk, withdrawn,
};
use vstd::prelude::*;

verus! {

impl<T: Ord + Copy> RotatedArraySet<T> {
    /// Writes subarray `subarray_idx` out in ascending order and sets its
    /// pivot to zero. No rank changes.
    pub(crate) fn unrotate(&mut self, subarray_idx: usize)
        requires
            old(self).synced(),
            subarray_idx < old(self).min_indexes@.len(),
        ensures
            final(self).synced(),
            final(self)@ == old(self)@,
            final(self).data@.len() == old(self).data@.len(),
            final(self).min_indexes@ == old(self).min_indexes@.update(subarray_idx as int, 0),
            final(self).min_data@ == old(self).min_data@,
            forall|x: int|
                0 <= x < tri(subarray_idx as int) ==> final(self).data@[x] == old(self).data@[x],
    {
        let ghost d0 = self.data@;
        let ghost p0 = self.min_indexes@;
        let ghost n = d0.len() as int;
        let ghost k = p0.len() as int;
        let ghost s = subarray_idx as int;
        proof {
            lemma_sub_len(p0, n, s);
            lemma_tri_step(s);
            assert(self.data.len() == n);
        }
        let subarray_offset = Self::get_array_idx_from_subarray_idx(subarray_idx);
        let next_subarray_offset = if subarray_idx == self.min_indexes.len() - 1 {
            self.data.len()
        } else {
            Self::get_array_idx_from_subarray_idx(subarray_idx + 1)
        };
        let min_offset = self.min_indexes[subarray_idx];
        rotate_left(&mut self.data, subarray_offset, next_subarray_offset, min_offset);
        self.min_indexes.set(subarray_idx, 0);
        proof {
            let d1 = self.data@;
            let p1 = self.min_indexes@;
            lemma_unrotate(d0, p0, d1, s);
            assert forall|i: int| 0 <= i < k implies #[trigger] self.min_data@[i] == d1[tri(i)
                + p1[i]] by {
                lemma_sub_len(p0, n, i);
                lemma_tri_step(i);
                if i < s {
                    lemma_tri_mono(i + 1, s);
                } else if i > s {
                    lemma_tri_mono(s + 1, i);
                }
                assert(old(self).min_data@[i] == d0[tri(i) + p0[i]]);
            }
        }
    }

    /// Takes the element at array offset `remove_idx` out of the full
    /// subarray `subarray_idx` and closes the gap, which leaves the place of
    /// the maximum of the subarray open. Returns the offset of that place in
    /// the subarray.
    pub(crate) fn pull_hard(&mut self, subarray_idx: usize, remove_idx: usize) -> (hole: usize)
        requires
            old(self).synced(),
            subarray_idx < old(self).min_indexes@.len(),
            tri(subarray_idx + 1) <= old(self).data@.len(),
            tri(subarray_idx as int) <= remove_idx < tri(subarray_idx + 1),
        ensures
            final(self).synced(),
            hole == max_slot(final(self).min_indexes@[subarray_idx as int] as int, subarray_idx as int),
            forall|i: int|
                0 <= i < old(self).min_indexes@.len() && i != subarray_idx
                    ==> final(self).min_indexes@[i] == old(self).min_indexes@[i],
            withdrawn(
                old(self).data@,
                old(self).min_indexes@,
                final(self).data@,
                final(self).min_indexes@,
                subarray_idx as int,
                rank_of(old(self).min_indexes@, old(self).data@.len() as int, remove_idx as int),
            ),
    {
        let ghost d0 = self.data@;
        let ghost p0 = self.min_indexes@;
        let ghost n = d0.len() as int;
        let ghost k = p0.len() as int;
        let ghost s = subarray_idx as int;
        proof {
            lemma_sub_len(p0, n, s);
            lemma_tri_step(s);
            lemma_tri_mono(s + 1, s + 1);
            assert(self.data.len() == n);
            lemma_rank_of_value(p0, n, remove_idx as int, s);
        }
        let subarray_offset = Self::get_array_idx_from_subarray_idx(subarray_idx);
        let len = subarray_idx + 1;
        let pivot_offset = self.min_indexes[subarray_idx];
        let remove_offset = remove_idx - subarray_offset;
        let max_offset = if pivot_offset == 0 {
            len - 1
        } else {
            pivot_offset - 1
        };
        let hole = if max_offset < pivot_offset && remove_offset >= pivot_offset {
            copy_within(
                &mut self.data,
                subarray_offset + pivot_offset,
                subarray_offset + remove_offset,
                subarray_offset + pivot_offset + 1,
            );
            let new_pivot_offset = if pivot_offset == len - 1 {
                0
            } else {
                pivot_offset + 1
            };
            self.min_indexes.set(subarray_idx, new_pivot_offset);
            let new_min = self.data[subarray_offset + new_pivot_offset];
            self.min_data.set(subarray_idx, new_min);
            proof {
                lemma_withdraw_after_pivot(
                    d0,
                    p0,
                    self.data@,
                    self.min_indexes@,
                    s,
                    remove_offset as int,
                    new_pivot_offset,
                );
            }
            pivot_offset
        } else {
            copy_within(
                &mut self.data,
                subarray_offset + remove_offset + 1,
                subarray_offset + max_offset + 1,
                subarray_offset + remove_offset,
            );
            if remove_offset == pivot_offset {
                let new_min = self.data[subarray_offset + pivot_offset];
                self.min_data.set(subarray_idx, new_min);
            }
            proof {
                lemma_withdraw_before_max(d0, p0, self.data@, s, remove_offset as int);
            }
            max_offset
        };
        proof {
            let d1 = self.data@;
            let p1 = self.min_indexes@;
            assert forall|i: int| 0 <= i < k implies #[trigger] self.min_data@[i] == d1[tri(i)
                + p1[i]] by {
                lemma_sub_len(p0, n, i);
                lemma_tri_step(i);
                if i < s {
                    lemma_tri_mono(i + 1, s);
                } else if i > s {
                    lemma_tri_mono(s + 1, i);
                }
                assert(old(self).min_data@[i] == d0[tri(i) + p0[i]]);
            }
        }
        hole
    }

    /// Gives the minimum of the full subarray `cur` to the open place at
    /// offset `hole` of the subarray before it, which leaves the place of the
    /// maximum of `cur` open. Returns the offset of that place in `cur`.
    pub(crate) fn pull_easy(&mut self, cur: usize, hole: usize) -> (next_hole: usize)
        requires
            old(self).synced(),
            1 <= cur < old(self).min_indexes@.len(),
            tri(cur + 1) <= old(self).data@.len(),
            hole == max_slot(old(self).min_indexes@[cur - 1] as int, cur - 1),
        ensures
            final(self).synced(),
            next_hole == max_slot(final(self).min_indexes@[cur as int] as int, cur as int),
            forall|i: int|
                0 <= i < old(self).min_indexes@.len() && i != cur ==> final(self).min_indexes@[i]
                    == old(self).min_indexes@[i],
            withdrawn(
                old(self).data@,
                old(self).min_indexes@,
                final(self).data@,
                final(self).min_indexes@,
                cur as int,
                tri(cur as int) - 1,
            ),
    {
        let ghost d0 = self.data@;
        let ghost p0 = self.min_indexes@;
        let ghost n = d0.len() as int;
        let ghost k = p0.len() as int;
        let ghost s = cur as int;
        proof {
            lemma_sub_len(p0, n, s);
            lemma_sub_len(p0, n, s - 1);
            lemma_tri_step(s);
            lemma_tri_step(s - 1);
            lemma_tri_mono(0, s - 1);
            lemma_tri_mono(s + 1, s + 1);
            lemma_tri_zero();
            assert(self.data.len() == n);
        }
        let cur_subarray_offset = Self::get_array_idx_from_subarray_idx(cur);
        let prev_max_idx = hole + Self::get_array_idx_from_subarray_idx(cur - 1);
        let pivot_offset = self.min_indexes[cur];
        let cur_min = self.data[cur_subarray_offset + pivot_offset];
        self.data.set(prev_max_idx, cur_min);
        // In subarray 0 the place of the maximum is the place of the minimum.
        if cur == 1 {
            let first = self.data[0];
            self.min_data.set(0, first);
        }
        let new_min_offset = if pivot_offset == cur {
            0
        } else {
            pivot_offset + 1
        };
        self.min_indexes.set(cur, new_min_offset);
        let new_min = self.data[cur_subarray_offset + new_min_offset];
        self.min_data.set(cur, new_min);
        proof {
            let d1 = self.data@;
            let p1 = self.min_indexes@;
            lemma_withdraw_easy(d0, p0, d1, p1, s, prev_max_idx as int, new_min_offset);
            assert forall|i: int| 0 <= i < k implies #[trigger] self.min_data@[i] == d1[tri(i)
                + p1[i]] by {
                lemma_sub_len(p0, n, i);
                lemma_tri_step(i);
                if i < s - 1 {
                    lemma_tri_mono(i + 1, s - 1);
                } else if i > s {
                    lemma_tri_mono(s + 1, i);
                }
                assert(old(self).min_data@[i] == d0[tri(i) + p0[i]]);
            }
        }
        pivot_offset
    }

    /// Copies the minimum of the last subarray, whose pivot is zero, to the
    /// open place at offset `hole` of the subarray before it.
    pub(crate) fn pull_last(&mut self, hole: usize)
        requires
            old(self).synced(),
            old(self).min_indexes@.len() >= 2,
            old(self).min_indexes@[old(self).min_indexes@.len() - 1] == 0,
            hole == max_slot(
                old(self).min_indexes@[old(self).min_indexes@.len() - 2] as int,
                old(self).min_indexes@.len() - 2,
            ),
        ensures
            final(self).synced(),
            final(self).min_indexes@ == old(self).min_indexes@,
            final(self).data@.len() == old(self).data@.len(),
            final(self)@ == old(self)@.update(
                tri(old(self).min_indexes@.len() - 1) - 1,
                old(self)@[tri(old(self).min_indexes@.len() - 1)],
            ),
    {
        let ghost d0 = self.data@;
        let ghost p0 = self.min_indexes@;
        let ghost n = d0.len() as int;
        let ghost k = p0.len() as int;
        proof {
            lemma_sub_len(p0, n, k - 1);
            lemma_sub_len(p0, n, k - 2);
            lemma_tri_step(k - 2);
            lemma_tri_mono(0, k - 2);
            lemma_tri_zero();
            assert(self.data.len() == n);
            lemma_ordered_at(d0, p0, k - 1, 0);
        }
        let max_subarray_idx = self.min_indexes.len() - 1;
        let max_subarray_offset = Self::get_array_idx_from_subarray_idx(max_subarray_idx);
        let prev_max_idx = hole + Self::get_array_idx_from_subarray_idx(max_subarray_idx - 1);
        let last_min = self.data[max_subarray_offset];
        self.data.set(prev_max_idx, last_min);
        if max_subarray_idx == 1 {
            let first = self.data[0];
            self.min_data.set(0, first);
        }
        proof {
            let d1 = self.data@;
            lemma_ordered_update(d0, p0, k - 2, k - 2, last_min);
            assert forall|i: int| 0 <= i < k implies #[trigger] self.min_data@[i] == d1[tri(i)
                + p0[i]] by {
                lemma_sub_len(p0, n, i);
                lemma_tri_step(i);
                if i < k - 2 {
                    lemma_tri_mono(i + 1, k - 2);
                }
                assert(old(self).min_data@[i] == d0[tri(i) + p0[i]]);
            }
        }
    }

    /// Takes the element at array offset `idx` out of the last subarray,
    /// whose pivot is zero, and drops the subarray if that empties it.
    pub(crate) fn remove_in_last(&mut self, idx: usize)
        requires
            old(self).synced(),
            old(self).min_indexes@.len() >= 1,
            old(self).min_indexes@[old(self).min_indexes@.len() - 1] == 0,
            tri(old(self).min_indexes@.len() - 1) <= idx < old(self).data@.len(),
        ensures
            final(self).synced(),
            final(self)@ == old(self)@.remove(idx as int),
    {
        let ghost d0 = self.data@;
        let ghost p0 = self.min_indexes@;
        let ghost n = d0.len() as int;
        let ghost k = p0.len() as int;
        proof {
            lemma_sub_len(p0, n, k - 1);
            lemma_tri_mono(0, k - 1);
            lemma_tri_zero();
            assert(self.data.len() == n);
        }
        let max_subarray_idx = self.min_indexes.len() - 1;
        let max_subarray_offset = Self::get_array_idx_from_subarray_idx(max_subarray_idx);
        self.data.remove(idx);
        if max_subarray_offset == self.data.len() {
            self.min_indexes.pop();
            self.min_data.pop();
        } else {
            let new_min = self.data[max_subarray_offset];
            self.min_data.set(max_subarray_idx, new_min);
        }
        proof {
            lemma_ordered_shrink_last(d0, p0, idx as int);
            assert(self.min_indexes@ =~= shrunk(p0, n));
            assert forall|i: int| 0 <= i < self.min_indexes@.len() implies #[trigger] self.min_data@[i]
                == self.data@[tri(i) + self.min_indexes@[i]] by {
                if i < k - 1 {
                    lemma_sub_len(p0, n, i);
                    lemma_tri_step(i);
                    lemma_tri_mono(i + 1, k - 1);
                    assert(old(self).min_data@[i] == d0[tri(i) + p0[i]]);
                }
            }
        }
    }

    /// Removes `value` from the set. Returns whether it was removed: `false`,
    /// with the set unchanged, where the set did not hold it.
    pub fn remove(&mut self, value: &T) -> (removed: bool)
        requires
            old(self).wf(),
            total_order::<T>(),
        ensures
            final(self).wf(),
            removed == old(self)@.contains(*value),
            !removed ==> *final(self) == *old(self),
            removed ==> final(self)@ == old(self)@.remove(count_below(old(self)@, *value)),
            final(self)@.to_set() == old(self)@.to_set().remove(*value),
    {
        let mut remove_idx = match self.find_raw_index(value) {
            Ok(idx) => idx,
            Err(idx) => {
                proof {
                    lemma_splits_absent(
                        self@,
                        rank_of(self.min_indexes@, self.data@.len() as int, idx as int),
                        *value,
                    );
                    assert(self@.to_set() =~= self@.to_set().remove(*value));
                }
                return false;
            },
        };
        let ghost before = self@;
        let ghost n = self.data@.len() as int;
        let ghost q = rank_of(self.min_indexes@, n, remove_idx as int);
        let k = self.min_indexes.len();
        proof {
            self.lemma_data_rank(remove_idx as int);
            assert(before[q] == *value);
            assert(before.contains(*value));
            lemma_rank_of(self.min_indexes@, n, remove_idx as int);
            lemma_rank_parts(self.min_indexes@, n, remove_idx as int);
            lemma_rank_count(before, q);
            lemma_remove_ascending(before, q);
            lemma_sub_len(self.min_indexes@, n, k - 1);
            lemma_tri_zero();
            lemma_tri_mono(0, k - 1);
            assert(self.data.len() == n);
        }
        let max_subarray_idx = k - 1;
        let max_subarray_offset = Self::get_array_idx_from_subarray_idx(max_subarray_idx);
        // find the subarray that holds the element to remove
        let subarray_idx = Self::get_subarray_idx_from_array_idx(remove_idx);
        proof {
            lemma_tri_step(subarray_idx as int);
            if subarray_idx < max_subarray_idx {
                lemma_tri_mono(subarray_idx + 1, k - 1);
            }
        }
        // The chain takes elements from the last subarray, so that one is put
        // in ascending order first.
        if self.is_last_subarray_full() {
            self.unrotate(max_subarray_idx);
            // the offset of the value may have changed with that
            if subarray_idx == max_subarray_idx {
                remove_idx = match self.find_raw_index(value) {
                    Ok(idx) => idx,
                    Err(idx) => {
                        proof {
                            lemma_splits_absent(
                                self@,
                                rank_of(self.min_indexes@, n, idx as int),
                                *value,
                            );
                        }
                        remove_idx
                    },
                };
            }
        }
        proof {
            // the offset still has the rank of the value
            assert(self.data@[remove_idx as int] == *value);
            self.lemma_data_rank(remove_idx as int);
            lemma_ascending_injective(
                before,
                q,
                rank_of(self.min_indexes@, n, remove_idx as int),
            );
            lemma_rank_of(self.min_indexes@, n, remove_idx as int);
            lemma_rank_parts(self.min_indexes@, n, remove_idx as int);
            lemma_sub_of(q);
            lemma_tri_step(subarray_idx as int);
            if subarray_idx < max_subarray_idx {
                lemma_tri_mono(subarray_idx + 1, k - 1);
            }
        }
        if subarray_idx < max_subarray_idx {
            let ghost d0 = self.data@;
            let ghost p0 = self.min_indexes@;
            let mut hole = self.pull_hard(subarray_idx, remove_idx);
            let mut cur = subarray_idx + 1;
            // Each full subarray before the last gives its minimum to the one
            // before it.
            while cur < max_subarray_idx
                invariant
                    self.synced(),
                    self.data@.len() == n,
                    self.min_indexes@.len() == k,
                    k >= 2,
                    max_subarray_idx == k - 1,
                    subarray_idx < cur <= max_subarray_idx,
                    self.min_indexes@[k - 1] == 0,
                    hole == max_slot(self.min_indexes@[cur - 1] as int, cur - 1),
                    0 <= q < tri(cur as int) < n,
                    before.len() == n,
                    agree_except(
                        self@,
                        spliced(before.remove(q), before, tri(cur as int) - 1),
                        tri(cur as int) - 1,
                    ),
                decreases max_subarray_idx - cur,
            {
                let ghost mid = self@;
                proof {
                    lemma_tri_step(cur as int);
                    lemma_tri_mono(cur + 1, k - 1);
                }
                hole = self.pull_easy(cur, hole);
                proof {
                    lemma_withdraw_step(
                        before,
                        q,
                        mid,
                        self@,
                        tri(cur as int) - 1,
                        tri(cur + 1) - 1,
                    );
                }
                cur = cur + 1;
            }
            let ghost mid = self@;
            // The last subarray is ascending: its minimum stands first.
            self.pull_last(hole);
            self.remove_in_last(max_subarray_offset);
            proof {
                let h = tri(k - 1) - 1;
                lemma_withdraw_finish(before, q, mid, h);
                assert(mid.update(h, mid[h + 1]).remove(h + 1) =~= mid.remove(h));
            }
        } else {
            proof {
                lemma_rank_of_value(self.min_indexes@, n, remove_idx as int, k - 1);
            }
            self.remove_in_last(remove_idx);
        }
        true
    }

    /// Removes the element that equals `value` and returns it, if there is one.
    pub fn take(&mut self, value: &T) -> (taken: Option<T>)
        requires
            old(self).wf(),
            total_order::<T>(),
        ensures
            final(self).wf(),
            taken == (if old(self)@.contains(*value) {
                Some(*value)
            } else {
                None
            }),
            taken.is_none() ==> *final(self) == *old(self),
            taken.is_some() ==> final(self)@ == old(self)@.remove(count_below(old(self)@, *value)),
            final(self)@.to_set() == old(self)@.to_set().remove(*value),
    {
        let ret = match self.get(value) {
            Some(found) => Some(*found),
            None => None,
        };
        if ret.is_some() {
            self.remove(value);
        } else {
            proof {
                assert(self@.to_set() =~= self@.to_set().remove(*value));
            }
        }
        ret
    }
}

} // verus!
