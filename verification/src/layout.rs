//! How ranks map to array offsets: the store of `n` elements is cut into the
//! subarrays `tri(i) .. tri(i + 1)`, and subarray `i` is read cyclically from
//! its pivot offset.

use crate::partition::{lemma_sub_of, lemma_sub_of_unique, lemma_tri_mono, lemma_tri_step, sub_of, tri};
use vstd::prelude::*;

verus! {

/// The number of elements that subarray `i` holds in a store of `n` elements.
pub open spec fn sub_len(n: int, i: int) -> int {
    if tri(i + 1) <= n {
        i + 1
    } else {
        n - tri(i)
    }
}

/// The offset, inside a subarray of `len` elements with pivot `p`, of the
/// element that comes `j` places after the minimum.
pub open spec fn rot(p: int, j: int, len: int) -> int {
    if p + j < len {
        p + j
    } else {
        p + j - len
    }
}

/// How many places after the minimum the element at offset `x` comes, inside a
/// subarray of `len` elements with pivot `p`.
pub open spec fn unrot(p: int, x: int, len: int) -> int {
    if x >= p {
        x - p
    } else {
        x + len - p
    }
}

/// The array offset that holds the element of rank `r`.
#[verifier::opaque]
pub open spec fn raw_of(pivots: Seq<usize>, n: int, r: int) -> int {
    let i = sub_of(r);
    tri(i) + rot(pivots[i] as int, r - tri(i), sub_len(n, i))
}

/// The rank of the element at array offset `x`; `n` itself stands for the end.
#[verifier::opaque]
pub open spec fn rank_of(pivots: Seq<usize>, n: int, x: int) -> int {
    if x >= n {
        n
    } else {
        let i = sub_of(x);
        tri(i) + unrot(pivots[i] as int, x - tri(i), sub_len(n, i))
    }
}

/// The elements in ascending rank: what the store holds, read subarray by
/// subarray, each from its pivot.
pub open spec fn ordered<T>(data: Seq<T>, pivots: Seq<usize>) -> Seq<T> {
    Seq::new(data.len(), |r: int| data[raw_of(pivots, data.len() as int, r)])
}

/// `pivots` fits a store of `n` elements: one pivot for each subarray in use,
/// each inside its subarray, and zero for a last subarray that is not full.
pub open spec fn layout_ok(pivots: Seq<usize>, n: int) -> bool {
    &&& pivots.len() == 0 <==> n == 0
    &&& pivots.len() > 0 ==> tri(pivots.len() - 1) < n <= tri(pivots.len() as int)
    &&& forall|i: int| 0 <= i < pivots.len() ==> #[trigger] pivots[i] < sub_len(n, i)
    &&& n < tri(pivots.len() as int) ==> pivots[pivots.len() - 1] == 0
}

/// In a fitting layout every subarray but the last is full and the last is not empty.
pub proof fn lemma_sub_len(pivots: Seq<usize>, n: int, i: int)
    requires
        layout_ok(pivots, n),
        0 <= i < pivots.len(),
    ensures
        0 < sub_len(n, i) <= i + 1,
        i < pivots.len() - 1 ==> sub_len(n, i) == i + 1,
        tri(i) + sub_len(n, i) <= n,
        i == pivots.len() - 1 ==> tri(i) + sub_len(n, i) == n,
        0 <= tri(i),
{
    let k = pivots.len() as int;
    lemma_tri_step(i);
    lemma_tri_step(k - 1);
    lemma_tri_mono(0, i);
    if i < k - 1 {
        lemma_tri_mono(i + 1, k - 1);
    }
}

/// Where the element of rank `tri(i) + j` lies.
pub proof fn lemma_raw_of(pivots: Seq<usize>, n: int, i: int, j: int)
    requires
        layout_ok(pivots, n),
        0 <= i < pivots.len(),
        0 <= j < sub_len(n, i),
    ensures
        0 <= tri(i) + j < n,
        sub_of(tri(i) + j) == i,
        raw_of(pivots, n, tri(i) + j) == tri(i) + rot(pivots[i] as int, j, sub_len(n, i)),
        tri(i) <= raw_of(pivots, n, tri(i) + j) < tri(i) + sub_len(n, i),
        rank_of(pivots, n, raw_of(pivots, n, tri(i) + j)) == tri(i) + j,
{
    reveal(raw_of);
    reveal(rank_of);
    lemma_sub_len(pivots, n, i);
    lemma_tri_step(i);
    lemma_sub_of_unique(tri(i) + j, i);
    let x = tri(i) + rot(pivots[i] as int, j, sub_len(n, i));
    lemma_sub_of_unique(x, i);
}

/// The subarray and the place in it of any rank below `n`.
pub proof fn lemma_rank_parts(pivots: Seq<usize>, n: int, r: int)
    requires
        layout_ok(pivots, n),
        0 <= r < n,
    ensures
        0 <= sub_of(r) < pivots.len(),
        0 <= r - tri(sub_of(r)) < sub_len(n, sub_of(r)),
{
    let k = pivots.len() as int;
    lemma_sub_of(r);
    let i = sub_of(r);
    if i >= k {
        lemma_tri_mono(k, i);
    }
    lemma_tri_step(i);
}

/// The rank of an offset, by its subarray; the end has the rank `n`.
pub proof fn lemma_rank_of_value(pivots: Seq<usize>, n: int, x: int, i: int)
    requires
        layout_ok(pivots, n),
        0 <= x <= n,
        x < n ==> 0 <= i && tri(i) <= x < tri(i + 1),
    ensures
        x == n ==> rank_of(pivots, n, x) == n,
        x < n ==> rank_of(pivots, n, x) == tri(i) + unrot(
            pivots[i] as int,
            x - tri(i),
            sub_len(n, i),
        ),
{
    reveal(rank_of);
    if x < n {
        lemma_sub_of_unique(x, i);
    }
}

/// Ranks and offsets are inverse to each other.
pub proof fn lemma_rank_of(pivots: Seq<usize>, n: int, x: int)
    requires
        layout_ok(pivots, n),
        0 <= x < n,
    ensures
        0 <= rank_of(pivots, n, x) < n,
        sub_of(rank_of(pivots, n, x)) == sub_of(x),
        raw_of(pivots, n, rank_of(pivots, n, x)) == x,
{
    reveal(rank_of);
    lemma_rank_parts(pivots, n, x);
    let i = sub_of(x);
    lemma_sub_len(pivots, n, i);
    let j = unrot(pivots[i] as int, x - tri(i), sub_len(n, i));
    lemma_raw_of(pivots, n, i, j);
}

/// The element of rank `tri(i) + j`, read from the store.
pub proof fn lemma_ordered_at<T>(data: Seq<T>, pivots: Seq<usize>, i: int, j: int)
    requires
        layout_ok(pivots, data.len() as int),
        0 <= i < pivots.len(),
        0 <= j < sub_len(data.len() as int, i),
    ensures
        0 <= tri(i) + j < data.len(),
        0 <= tri(i) + rot(pivots[i] as int, j, sub_len(data.len() as int, i)) < data.len(),
        ordered(data, pivots)[tri(i) + j] == data[tri(i) + rot(
            pivots[i] as int,
            j,
            sub_len(data.len() as int, i),
        )],
{
    lemma_sub_len(pivots, data.len() as int, i);
    lemma_raw_of(pivots, data.len() as int, i, j);
}

/// Two stores that agree on the subarrays `lo..hi`, in elements, pivots and
/// lengths, hold the same elements at the ranks of those subarrays.
pub proof fn lemma_ordered_agree<T>(
    d0: Seq<T>,
    p0: Seq<usize>,
    d1: Seq<T>,
    p1: Seq<usize>,
    lo: int,
    hi: int,
)
    requires
        layout_ok(p0, d0.len() as int),
        layout_ok(p1, d1.len() as int),
        0 <= lo <= hi,
        hi <= p0.len(),
        hi <= p1.len(),
        forall|i: int| lo <= i < hi ==> #[trigger] p0[i] == p1[i],
        forall|i: int|
            lo <= i < hi ==> #[trigger] sub_len(d0.len() as int, i) == sub_len(d1.len() as int, i),
        forall|x: int|
            0 <= x && tri(lo) <= x < tri(hi) && x < d0.len() && x < d1.len() ==> #[trigger] d0[x]
                == d1[x],
    ensures
        forall|r: int|
            0 <= r && tri(lo) <= r < tri(hi) && r < d0.len() ==> #[trigger] ordered(d0, p0)[r]
                == ordered(d1, p1)[r],
{
    assert forall|r: int| 0 <= r && tri(lo) <= r < tri(hi) && r < d0.len() implies #[trigger] ordered(
        d0,
        p0,
    )[r] == ordered(d1, p1)[r] by {
        lemma_tri_mono(0, lo);
        lemma_rank_parts(p0, d0.len() as int, r);
        let i = sub_of(r);
        lemma_sub_of(r);
        if i < lo {
            lemma_tri_mono(i + 1, lo);
        }
        if i >= hi {
            lemma_tri_mono(hi, i);
        }
        let j = r - tri(i);
        assert(p0[i] == p1[i]);
        assert(sub_len(d0.len() as int, i) == sub_len(d1.len() as int, i));
        lemma_ordered_at(d0, p0, i, j);
        lemma_ordered_at(d1, p1, i, j);
        lemma_sub_len(p0, d0.len() as int, i);
        lemma_tri_step(i);
        lemma_tri_mono(lo, i);
        lemma_tri_mono(i + 1, hi);
    }
}

/// `ins` below the rank `bound`, and `old` from there on.
pub open spec fn spliced<T>(ins: Seq<T>, old: Seq<T>, bound: int) -> Seq<T> {
    Seq::new(
        old.len(),
        |r: int|
            if r < bound {
                ins[r]
            } else {
                old[r]
            },
    )
}

/// With all pivots at zero the store holds the elements in ascending rank.
pub proof fn lemma_ordered_zero<T>(d: Seq<T>, p: Seq<usize>)
    requires
        layout_ok(p, d.len() as int),
        forall|i: int| 0 <= i < p.len() ==> #[trigger] p[i] == 0,
    ensures
        ordered(d, p) == d,
{
    assert forall|r: int| 0 <= r < d.len() implies #[trigger] ordered(d, p)[r] == d[r] by {
        lemma_rank_parts(p, d.len() as int, r);
        let i = sub_of(r);
        assert(p[i] == 0);
        lemma_ordered_at(d, p, i, r - tri(i));
    }
    assert(ordered(d, p) =~= d);
}

} // verus!
