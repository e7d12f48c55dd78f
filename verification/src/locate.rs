//! The locator: from a value to the array offset that holds it, or to the
//! offset at which it would be inserted.

use crate::layout::{
    lemma_rank_of, lemma_rank_of_value, lemma_rank_parts, lemma_raw_of, lemma_sub_len, rank_of,
    rot, sub_len,
};
use crate::order::{compare, lt, total_order, Rel};
use crate::partition::{lemma_tri_mono, lemma_tri_step, lemma_tri_zero, tri};
use crate::set::RotatedArraySet;
use crate::sorted::{
    ascending_in, binary_search, count_below, lemma_rank_count, lemma_splits_absent,
    lemma_splits_count, lemma_splits_from_neighbours, splits_at,
};
use vstd::prelude::*;

verus! {

impl<T: Ord + Copy> RotatedArraySet<T> {
    /// The element at array offset `x` is the element of rank `rank_of(x)`.
    pub(crate) proof fn lemma_data_rank(&self, x: int)
        requires
            self.wf(),
            0 <= x < self.data@.len(),
        ensures
            0 <= rank_of(self.min_indexes@, self.data@.len() as int, x) < self@.len(),
            self.data@[x] == self@[rank_of(self.min_indexes@, self.data@.len() as int, x)],
    {
        lemma_rank_of(self.min_indexes@, self.data@.len() as int, x);
    }

    /// The element that comes `j` places after the minimum of subarray `i`.
    pub(crate) proof fn lemma_view_at(&self, i: int, j: int)
        requires
            self.wf(),
            0 <= i < self.min_indexes@.len(),
            0 <= j < sub_len(self.data@.len() as int, i),
        ensures
            0 <= tri(i) + j < self@.len(),
            0 <= tri(i) + rot(self.min_indexes@[i] as int, j, sub_len(self.data@.len() as int, i))
                < self.data@.len(),
            self@[tri(i) + j] == self.data@[tri(i) + rot(
                self.min_indexes@[i] as int,
                j,
                sub_len(self.data@.len() as int, i),
            )],
    {
        lemma_sub_len(self.min_indexes@, self.data@.len() as int, i);
        lemma_raw_of(self.min_indexes@, self.data@.len() as int, i, j);
    }

    /// The cached minima are strictly ascending.
    pub(crate) proof fn lemma_min_data_ascending(&self)
        requires
            self.wf(),
        ensures
            ascending_in(self.min_data@, 0, self.min_data@.len() as int),
    {
        let n = self.data@.len() as int;
        assert forall|a: int, b: int| 0 <= a < b < self.min_data@.len() implies lt(
            #[trigger] self.min_data@[a],
            #[trigger] self.min_data@[b],
        ) by {
            lemma_sub_len(self.min_indexes@, n, a);
            lemma_sub_len(self.min_indexes@, n, b);
            self.lemma_view_at(a, 0);
            self.lemma_view_at(b, 0);
            lemma_tri_mono(a, b);
        }
    }

    /// Each subarray is ascending before its pivot and ascending from its pivot on.
    pub(crate) proof fn lemma_parts_ascending(&self, i: int)
        requires
            self.wf(),
            0 <= i < self.min_indexes@.len(),
        ensures
            ascending_in(self.data@, tri(i), tri(i) + self.min_indexes@[i]),
            ascending_in(
                self.data@,
                tri(i) + self.min_indexes@[i],
                tri(i) + sub_len(self.data@.len() as int, i),
            ),
    {
        let n = self.data@.len() as int;
        let p = self.min_indexes@[i] as int;
        let len = sub_len(n, i);
        lemma_sub_len(self.min_indexes@, n, i);
        assert forall|a: int, b: int| tri(i) <= a < b < tri(i) + p implies lt(
            #[trigger] self.data@[a],
            #[trigger] self.data@[b],
        ) by {
            self.lemma_view_at(i, a - tri(i) + len - p);
            self.lemma_view_at(i, b - tri(i) + len - p);
        }
        assert forall|a: int, b: int| tri(i) + p <= a < b < tri(i) + len implies lt(
            #[trigger] self.data@[a],
            #[trigger] self.data@[b],
        ) by {
            self.lemma_view_at(i, a - tri(i) - p);
            self.lemma_view_at(i, b - tri(i) - p);
        }
    }

    /// What `locate_subarray` has settled about subarray `s` and `value`:
    /// whatever stands before the subarray is below the value, and the value
    /// is not above the maximum of a full subarray; past the last subarray,
    /// that subarray is full and everything is below the value.
    pub(crate) open spec fn fenced(&self, s: int, value: T) -> bool {
        let n = self.data@.len() as int;
        let k = self.min_indexes@.len() as int;
        &&& 0 <= s <= k
        &&& s == k ==> n == tri(k) && (n > 0 ==> lt(self@[n - 1], value))
        &&& 0 < s < k ==> lt(self@[tri(s) - 1], value)
        &&& s < k && sub_len(n, s) == s + 1 ==> !lt(self@[tri(s) + s], value)
    }

    /// Finds the subarray in which `value` lies or belongs, by the cached
    /// minima and the maximum of the subarray before the insertion point:
    /// `Ok` with the array offset of `value` where it is a cached minimum.
    pub(crate) fn locate_subarray(&self, value: &T) -> (r: Result<usize, usize>)
        requires
            self.wf(),
            total_order::<T>(),
            self.data@.len() > 0,
        ensures
            match r {
                Ok(x) => x < self.data@.len() && self.data@[x as int] == *value,
                Err(s) => self.fenced(s as int, *value),
            },
    {
        let n = self.data.len();
        let k = self.min_indexes.len();
        proof {
            self.lemma_min_data_ascending();
            lemma_tri_zero();
        }
        match binary_search(&self.min_data, 0, k, value) {
            Ok(idx) => {
                proof {
                    lemma_sub_len(self.min_indexes@, n as int, idx as int);
                }
                let found_idx = Self::get_array_idx_from_subarray_idx(idx) + self.min_indexes[idx];
                Ok(found_idx)
            },
            Err(idx) => {
                if idx == 0 {
                    proof {
                        self.lemma_view_at(0, 0);
                        lemma_sub_len(self.min_indexes@, n as int, 0);
                        assert(lt(*value, self.min_data@[0]));
                        assert(self.fenced(0, *value));
                    }
                    Err(0)
                } else if idx == k && !self.is_last_subarray_full() {
                    proof {
                        lemma_sub_len(self.min_indexes@, n as int, k - 1);
                        lemma_tri_step(k - 1);
                        self.lemma_below_subarray(k - 1, *value);
                        assert(self.fenced(k - 1, *value));
                    }
                    Err(idx - 1)
                } else {
                    proof {
                        lemma_sub_len(self.min_indexes@, n as int, idx - 1);
                        lemma_tri_step(idx - 1);
                        self.lemma_view_at(idx - 1, idx - 1);
                    }
                    let prev_max_idx = if self.min_indexes[idx - 1] == 0 {
                        Self::get_array_idx_from_subarray_idx(idx) - 1
                    } else {
                        Self::get_array_idx_from_subarray_idx(idx - 1) + self.min_indexes[idx - 1]
                            - 1
                    };
                    match compare(value, &self.data[prev_max_idx]) {
                        Rel::Above => {
                            proof {
                                if idx < k {
                                    let len = sub_len(n as int, idx as int);
                                    lemma_sub_len(self.min_indexes@, n as int, idx as int);
                                    self.lemma_view_at(idx as int, 0);
                                    self.lemma_view_at(idx as int, len - 1);
                                    assert(lt(*value, self.min_data@[idx as int]));
                                    assert(self@[tri(idx as int)] == self.min_data@[idx as int]);
                                    if len > 1 {
                                        assert(lt(
                                            self@[tri(idx as int)],
                                            self@[tri(idx as int) + len - 1],
                                        ));
                                    }
                                    assert(lt(*value, self@[tri(idx as int) + len - 1]));
                                }
                                assert(lt(self@[tri(idx as int) - 1], *value));
                                assert(self.fenced(idx as int, *value));
                            }
                            Err(idx)
                        },
                        _ => {
                            proof {
                                self.lemma_below_subarray(idx - 1, *value);
                                assert(self.fenced(idx - 1, *value));
                            }
                            Err(idx - 1)
                        },
                    }
                }
            },
        }
    }

    /// A value above the minimum of subarray `s` is above all that stands
    /// before that subarray.
    pub(crate) proof fn lemma_below_subarray(&self, s: int, value: T)
        requires
            self.wf(),
            total_order::<T>(),
            0 <= s < self.min_indexes@.len(),
            lt(self.min_data@[s], value),
        ensures
            s > 0 ==> lt(self@[tri(s) - 1], value),
    {
        let n = self.data@.len() as int;
        if s > 0 {
            lemma_sub_len(self.min_indexes@, n, s);
            lemma_sub_len(self.min_indexes@, n, s - 1);
            lemma_tri_step(s - 1);
            self.lemma_view_at(s, 0);
            self.lemma_view_at(s - 1, s - 1);
            assert(lt(self@[tri(s) - 1], self@[tri(s)]));
        }
    }

    /// Searches subarray `s` on both sides of its pivot.
    pub(crate) fn search_subarray(&self, subarray_idx: usize, value: &T) -> (r: Result<
        usize,
        usize,
    >)
        requires
            self.wf(),
            total_order::<T>(),
            subarray_idx < self.min_indexes@.len(),
            self.fenced(subarray_idx as int, *value),
        ensures
            match r {
                Ok(x) => x < self.data@.len() && self.data@[x as int] == *value,
                Err(x) => {
                    &&& x <= self.data@.len()
                    &&& splits_at(
                        self@,
                        rank_of(self.min_indexes@, self.data@.len() as int, x as int),
                        *value,
                    )
                },
            },
    {
        let n = self.data.len();
        let k = self.min_indexes.len();
        let ghost s = subarray_idx as int;
        let ghost len = sub_len(n as int, s);
        proof {
            lemma_sub_len(self.min_indexes@, n as int, s);
            lemma_tri_step(s);
            lemma_tri_zero();
        }
        let subarray_offset = Self::get_array_idx_from_subarray_idx(subarray_idx);
        let next_subarray_offset = if subarray_idx == k - 1 {
            n
        } else {
            Self::get_array_idx_from_subarray_idx(subarray_idx + 1)
        };
        let pivot_offset = self.min_indexes[subarray_idx];
        let subarray_pivot = subarray_offset + pivot_offset;
        let ghost p = pivot_offset as int;
        proof {
            self.lemma_parts_ascending(s);
        }
        let left = binary_search(&self.data, subarray_offset, subarray_pivot, value);
        let right = binary_search(&self.data, subarray_pivot, next_subarray_offset, value);
        match (left, right) {
            (Ok(i), _) => Ok(i),
            (_, Ok(i)) => Ok(i),
            (Err(left_idx), Err(right_idx)) => {
                if right_idx == next_subarray_offset && pivot_offset > 0 {
                    proof {
                        let q = rank_of(self.min_indexes@, n as int, left_idx as int);
                        assert(left_idx < subarray_pivot) by {
                            self.lemma_view_at(s, len - 1);
                            assert(!lt(self.data@[subarray_pivot - 1], *value));
                        }
                        lemma_rank_of_value(self.min_indexes@, n as int, left_idx as int, s);
                        assert(q == left_idx + len - p);
                        assert(lt(*value, self@[q])) by {
                            self.lemma_view_at(s, q - tri(s));
                        }
                        assert(lt(self@[q - 1], *value)) by {
                            self.lemma_view_at(s, q - tri(s) - 1);
                            assert(lt(self.data@[next_subarray_offset - 1], *value));
                            if left_idx > subarray_offset {
                                assert(lt(self.data@[left_idx - 1], *value));
                            }
                        }
                        lemma_splits_from_neighbours(self@, q, *value);
                    }
                    Err(left_idx)
                } else {
                    proof {
                        let q = rank_of(self.min_indexes@, n as int, right_idx as int);
                        if right_idx < next_subarray_offset {
                            lemma_rank_of_value(self.min_indexes@, n as int, right_idx as int, s);
                            assert(q == right_idx - p);
                            assert(lt(*value, self@[q])) by {
                                self.lemma_view_at(s, q - tri(s));
                            }
                            if q > tri(s) {
                                assert(lt(self@[q - 1], *value)) by {
                                    self.lemma_view_at(s, q - tri(s) - 1);
                                    assert(lt(self.data@[right_idx - 1], *value));
                                }
                            }
                        } else {
                            assert(p == 0);
                            assert(lt(self@[tri(s) + len - 1], *value)) by {
                                self.lemma_view_at(s, len - 1);
                                assert(lt(self.data@[next_subarray_offset - 1], *value));
                            }
                            assert(right_idx == n);
                            lemma_rank_of_value(self.min_indexes@, n as int, n as int, s);
                        }
                        lemma_splits_from_neighbours(self@, q, *value);
                    }
                    Err(right_idx)
                }
            },
        }
    }

    /// Finds `value`: `Ok` with the array offset that holds it, or `Err` with
    /// the array offset at which `insert` places it. The rank that belongs to
    /// that offset is the place at which `value` splits the elements.
    pub(crate) fn find_raw_index(&self, value: &T) -> (r: Result<usize, usize>)
        requires
            self.wf(),
            total_order::<T>(),
        ensures
            match r {
                Ok(x) => x < self.data@.len() && self.data@[x as int] == *value,
                Err(x) => {
                    &&& x <= self.data@.len()
                    &&& splits_at(
                        self@,
                        rank_of(self.min_indexes@, self.data@.len() as int, x as int),
                        *value,
                    )
                },
            },
    {
        if self.data.is_empty() {
            proof {
                lemma_rank_of_value(self.min_indexes@, 0, 0, 0);
            }
            return Err(0);
        }
        match self.locate_subarray(value) {
            Ok(found_idx) => Ok(found_idx),
            Err(subarray_idx) => {
                if subarray_idx == self.min_indexes.len() {
                    // the value belongs in a subarray of its own
                    proof {
                        let n = self.data@.len() as int;
                        lemma_rank_of_value(self.min_indexes@, n, n, 0);
                        lemma_splits_from_neighbours(self@, n, *value);
                    }
                    Err(self.data.len())
                } else {
                    self.search_subarray(subarray_idx, value)
                }
            },
        }
    }

    /// Whether the set holds `value`.
    pub fn contains(&self, value: &T) -> (b: bool)
        requires
            self.wf(),
            total_order::<T>(),
        ensures
            b == self@.contains(*value),
    {
        self.get(value).is_some()
    }

    /// The element of the set that equals `value`, if there is one.
    pub fn get(&self, value: &T) -> (found: Option<&T>)
        requires
            self.wf(),
            total_order::<T>(),
        ensures
            found.is_some() == self@.contains(*value),
            found.is_some() ==> *found.unwrap() == *value,
    {
        match self.find_raw_index(value) {
            Ok(raw_idx) => {
                proof {
                    self.lemma_data_rank(raw_idx as int);
                }
                Some(&self.data[raw_idx])
            },
            Err(raw_idx) => {
                proof {
                    lemma_splits_absent(
                        self@,
                        rank_of(self.min_indexes@, self.data@.len() as int, raw_idx as int),
                        *value,
                    );
                }
                None
            },
        }
    }

    /// The rank of `value`: `Ok` with its rank if the set holds it, and else
    /// `Err` with the rank at which it would stand, which is the number of
    /// elements below it.
    pub fn rank(&self, value: &T) -> (r: Result<usize, usize>)
        requires
            self.wf(),
            total_order::<T>(),
        ensures
            match r {
                Ok(i) => i < self@.len() && self@[i as int] == *value,
                Err(i) => splits_at(self@, i as int, *value),
            },
            r.is_ok() == self@.contains(*value),
            match r {
                Ok(i) => i == count_below(self@, *value),
                Err(i) => i == count_below(self@, *value),
            },
    {
        let (raw_index, exists) = match self.find_raw_index(value) {
            Ok(index) => (index, true),
            Err(index) => (index, false),
        };
        let n = self.data.len();
        proof {
            let q = rank_of(self.min_indexes@, n as int, raw_index as int);
            if exists {
                self.lemma_data_rank(raw_index as int);
                lemma_rank_count(self@, q);
            } else {
                lemma_splits_absent(self@, q, *value);
                lemma_splits_count(self@, q, *value);
            }
        }
        if raw_index == n {
            proof {
                lemma_rank_of_value(self.min_indexes@, n as int, n as int, 0);
            }
            return Err(raw_index);
        }
        let subarray_idx = Self::get_subarray_idx_from_array_idx(raw_index);
        proof {
            lemma_rank_parts(self.min_indexes@, n as int, raw_index as int);
            lemma_sub_len(self.min_indexes@, n as int, subarray_idx as int);
            lemma_rank_of_value(self.min_indexes@, n as int, raw_index as int, subarray_idx as int);
            self.lemma_data_rank(raw_index as int);
        }
        let subarray_start_idx = Self::get_array_idx_from_subarray_idx(subarray_idx);
        let subarray_len = if subarray_idx == self.min_indexes.len() - 1 {
            self.data.len() - subarray_start_idx
        } else {
            subarray_idx + 1
        };
        let pivot_idx = subarray_start_idx + self.min_indexes[subarray_idx];
        let logical_index = if raw_index >= pivot_idx {
            subarray_start_idx + (raw_index - pivot_idx)
        } else {
            subarray_start_idx + subarray_len - (pivot_idx - raw_index)
        };
        if exists {
            Ok(logical_index)
        } else {
            Err(logical_index)
        }
    }
}

} // verus!
