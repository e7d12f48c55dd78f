//! Arithmetic of the partition: subarray `i` starts at the triangular number
//! `i * (i + 1) / 2` and holds at most `i + 1` elements.

use crate::set::RotatedArraySet;
use vstd::prelude::*;

verus! {

/// The start offset of subarray `i`: the `i`-th triangular number.
#[verifier::opaque]
pub open spec fn tri(i: int) -> int {
    i * (i + 1) / 2
}

/// The subarray that holds offset `r`: the largest `i` with `tri(i) <= r`.
#[verifier::opaque]
pub open spec fn sub_of(r: int) -> int {
    choose|i: int| 0 <= i && #[trigger] tri(i) <= r && r < tri(i + 1)
}

/// Each subarray starts where the one before it ends, and subarray `i` has
/// room for `i + 1` elements.
pub proof fn lemma_tri_step(i: int)
    ensures
        tri(i + 1) == tri(i) + i + 1,
{
    reveal(tri);
    assert((i + 1) * (i + 2) == i * (i + 1) + 2 * (i + 1)) by (nonlinear_arith);
}

/// The first subarray starts at offset 0 and the second at offset 1.
pub proof fn lemma_tri_zero()
    ensures
        tri(0) == 0,
        tri(1) == 1,
{
    reveal(tri);
}

/// Later subarrays start at later offsets, and no subarray starts before the
/// offset of its own index.
pub proof fn lemma_tri_mono(i: int, j: int)
    requires
        0 <= i <= j,
    ensures
        tri(i) <= tri(j),
        i < j ==> tri(i) + i + 1 <= tri(j),
        0 <= tri(i),
        i <= tri(i),
    decreases j,
{
    lemma_tri_zero();
    if i < j {
        lemma_tri_mono(i, j - 1);
        lemma_tri_step(j - 1);
    } else if i > 0 {
        lemma_tri_mono(i - 1, i - 1);
        lemma_tri_step(i - 1);
    }
}

/// From subarray 3 on, a subarray starts at an offset of at least twice its index.
pub proof fn lemma_tri_twice(i: int)
    requires
        3 <= i,
    ensures
        2 * i <= tri(i),
    decreases i,
{
    if i == 3 {
        reveal(tri);
    } else {
        lemma_tri_twice(i - 1);
        lemma_tri_step(i - 1);
    }
}

/// Every offset lies in exactly one subarray.
pub proof fn lemma_sub_of(r: int)
    requires
        0 <= r,
    ensures
        0 <= sub_of(r),
        tri(sub_of(r)) <= r < tri(sub_of(r) + 1),
    decreases r,
{
    reveal(sub_of);
    lemma_tri_zero();
    if r == 0 {
        assert(tri(0) <= r && r < tri(0int + 1));
    } else {
        lemma_sub_of(r - 1);
        let p = sub_of(r - 1);
        lemma_tri_step(p + 1);
        if r < tri(p + 1) {
            assert(tri(p) <= r && r < tri(p + 1));
        } else {
            lemma_tri_mono(0, p + 1);
            assert(tri(p + 1) <= r && r < tri(p + 1 + 1));
        }
    }
}

/// The subarray whose span holds an offset is the subarray of that offset.
pub proof fn lemma_sub_of_unique(r: int, i: int)
    requires
        0 <= i,
        tri(i) <= r < tri(i + 1),
    ensures
        sub_of(r) == i,
{
    reveal(sub_of);
    lemma_tri_mono(0, i);
    lemma_sub_of(r);
    let s = sub_of(r);
    if s < i {
        lemma_tri_mono(s + 1, i);
    } else if i < s {
        lemma_tri_mono(i + 1, s);
    }
}

impl<T: Ord + Copy> RotatedArraySet<T> {
    /// The sum `0 + 1 + ... + n`, the start offset of subarray `n`.
    pub fn integer_sum(n: usize) -> (sum: usize)
        requires
            tri(n as int) <= usize::MAX,
        ensures
            sum == tri(n as int),
    {
        proof {
            reveal(tri);
            lemma_tri_mono(n as int, n as int);
        }
        if n % 2 == 0 {
            let h: usize = n / 2;
            assert(h * (n + 1) == n * (n + 1) / 2) by (nonlinear_arith)
                requires
                    n == 2 * h,
            ;
            h * (n + 1)
        } else {
            let h: usize = n / 2 + 1;
            assert(n * h == n * (n + 1) / 2) by (nonlinear_arith)
                requires
                    n + 1 == 2 * h,
            ;
            n * h
        }
    }

    /// The largest `i` whose start offset `tri(i)` is at most `n`.
    pub fn integer_sum_inverse(n: usize) -> (i: usize)
        ensures
            i == sub_of(n as int),
            tri(i as int) <= n < tri(i + 1),
    {
        let cap: u128 = 0x2_0000_0000;
        let mut lo: u128 = 0;
        let mut hi: u128 = if (n as u128) + 1 < cap {
            (n as u128) + 1
        } else {
            cap
        };
        proof {
            lemma_tri_zero();
            lemma_tri_mono(hi as int, hi as int);
            assert(tri(0x2_0000_0000) > 0xffff_ffff_ffff_ffff) by {
                reveal(tri);
            }
        }
        while hi - lo > 1
            invariant
                lo < hi <= cap,
                cap == 0x2_0000_0000,
                tri(lo as int) <= n < tri(hi as int),
            decreases hi - lo,
        {
            let mid: u128 = lo + (hi - lo) / 2;
            assert(mid * (mid + 1) < 0x10_0000_0000_0000_0000_0000) by (nonlinear_arith)
                requires
                    0 <= mid < 0x2_0000_0000,
            ;
            let start: u128 = mid * (mid + 1) / 2;
            assert(start == tri(mid as int)) by {
                reveal(tri);
            }
            if start <= n as u128 {
                lo = mid;
            } else {
                hi = mid;
            }
        }
        proof {
            lemma_sub_of_unique(n as int, lo as int);
            lemma_tri_mono(lo as int, lo as int);
        }
        lo as usize
    }

    /// The subarray that holds array offset `idx`.
    pub fn get_subarray_idx_from_array_idx(idx: usize) -> (i: usize)
        ensures
            i == sub_of(idx as int),
            tri(i as int) <= idx < tri(i + 1),
    {
        if idx == 0 {
            proof {
                lemma_tri_zero();
                lemma_sub_of_unique(0, 0);
            }
            0
        } else {
            Self::integer_sum_inverse(idx)
        }
    }

    /// The array offset at which subarray `idx` starts.
    pub fn get_array_idx_from_subarray_idx(idx: usize) -> (start: usize)
        requires
            tri(idx as int) <= usize::MAX,
        ensures
            start == tri(idx as int),
    {
        if idx == 0 {
            proof {
                lemma_tri_zero();
            }
            0
        } else {
            Self::integer_sum(idx)
        }
    }
}

} // verus!
