//! What the exchanges of a removal do to the elements in ranks.
//!
//! A removal closes the gap inside one full subarray and leaves the place of
//! its maximum open; each later full subarray then gives its minimum to fill
//! the place that the one before it left open, and leaves the place of its own
//! maximum open in turn.

use crate::layout::{
    layout_ok, lemma_ordered_agree, lemma_ordered_at, lemma_sub_len, ordered, rot, spliced,
    sub_len,
};
use crate::partition::{lemma_sub_of, lemma_tri_mono, lemma_tri_step, lemma_tri_zero, sub_of, tri};
use vstd::prelude::*;

verus! {

/// `a` and `b` hold the same elements at all ranks but, possibly, at rank `h`.
pub open spec fn agree_except<T>(a: Seq<T>, b: Seq<T>, h: int) -> bool {
    &&& a.len() == b.len()
    &&& forall|r: int| 0 <= r < a.len() && r != h ==> #[trigger] a[r] == b[r]
}

/// Up to the last rank of subarray `s` the store holds what it held with the
/// element of rank `q` removed, after that subarray it is unchanged, and the
/// last rank of the subarray is open.
pub open spec fn withdrawn<T>(
    d0: Seq<T>,
    p0: Seq<usize>,
    d1: Seq<T>,
    p1: Seq<usize>,
    s: int,
    q: int,
) -> bool {
    &&& layout_ok(p1, d1.len() as int)
    &&& d1.len() == d0.len()
    &&& p1.len() == p0.len()
    &&& agree_except(
        ordered(d1, p1),
        spliced(ordered(d0, p0).remove(q), ordered(d0, p0), tri(s + 1) - 1),
        tri(s + 1) - 1,
    )
}

/// The offset of the maximum in a full subarray `s` with pivot `p`.
pub open spec fn max_slot(p: int, s: int) -> int {
    if p == 0 {
        s
    } else {
        p - 1
    }
}

/// The pivot after `p` in a full subarray `s`, cyclically.
pub open spec fn next_pivot(p: int, s: int) -> int {
    if p == s {
        0
    } else {
        p + 1
    }
}

/// The element went out at or after a pivot that is not zero: the elements
/// from the pivot up to the gap moved one offset up and the pivot with them.
pub proof fn lemma_withdraw_after_pivot<T>(
    d0: Seq<T>,
    p0: Seq<usize>,
    d1: Seq<T>,
    p1: Seq<usize>,
    s: int,
    o: int,
    np: usize,
)
    requires
        layout_ok(p0, d0.len() as int),
        0 <= s < p0.len(),
        tri(s + 1) <= d0.len(),
        0 < p0[s] <= o < s + 1,
        d1.len() == d0.len(),
        np == next_pivot(p0[s] as int, s),
        p1 == p0.update(s, np),
        forall|x: int| tri(s) + p0[s] < x <= tri(s) + o ==> #[trigger] d1[x] == d0[x - 1],
        forall|x: int|
            0 <= x < d0.len() && !(tri(s) + p0[s] <= x <= tri(s) + o) ==> #[trigger] d1[x]
                == d0[x],
    ensures
        withdrawn(d0, p0, d1, p1, s, tri(s) + o - p0[s]),
        max_slot(p1[s] as int, s) == p0[s],
{
    let n = d0.len() as int;
    let k = p0.len() as int;
    let p = p0[s] as int;
    let q = tri(s) + o - p;
    let h = tri(s + 1) - 1;
    lemma_sub_len(p0, n, s);
    lemma_tri_step(s);
    lemma_tri_zero();
    lemma_tri_mono(s + 1, k);
    assert(layout_ok(p1, n)) by {
        assert forall|i: int| 0 <= i < p1.len() implies #[trigger] p1[i] < sub_len(n, i) by {
            if i != s {
                assert(p1[i] == p0[i]);
            }
        }
    }
    lemma_ordered_agree(d0, p0, d1, p1, 0, s);
    lemma_ordered_agree(d0, p0, d1, p1, s + 1, k);
    let o0 = ordered(d0, p0);
    let goal = spliced(o0.remove(q), o0, h);
    assert forall|r: int| 0 <= r < n && r != h implies #[trigger] ordered(d1, p1)[r]
        == goal[r] by {
        if tri(s) <= r < h {
            let t = r - tri(s);
            lemma_ordered_at(d1, p1, s, t);
            if t < o - p {
                lemma_ordered_at(d0, p0, s, t);
            } else {
                lemma_ordered_at(d0, p0, s, t + 1);
            }
        }
    }
}

/// The element went out before the maximum, in a subarray whose pivot is zero
/// or lies after the gap: the elements after the gap up to the maximum moved
/// one offset down.
pub proof fn lemma_withdraw_before_max<T>(d0: Seq<T>, p0: Seq<usize>, d1: Seq<T>, s: int, o: int)
    requires
        layout_ok(p0, d0.len() as int),
        0 <= s < p0.len(),
        tri(s + 1) <= d0.len(),
        0 <= o < s + 1,
        p0[s] == 0 || o < p0[s],
        d1.len() == d0.len(),
        forall|x: int|
            tri(s) + o <= x < tri(s) + max_slot(p0[s] as int, s) ==> #[trigger] d1[x] == d0[x + 1],
        forall|x: int|
            0 <= x < d0.len() && !(tri(s) + o <= x <= tri(s) + max_slot(p0[s] as int, s))
                ==> #[trigger] d1[x] == d0[x],
    ensures
        withdrawn(
            d0,
            p0,
            d1,
            p0,
            s,
            tri(s) + (if p0[s] == 0 {
                o
            } else {
                o + s + 1 - p0[s]
            }),
        ),
{
    let n = d0.len() as int;
    let k = p0.len() as int;
    let p = p0[s] as int;
    let j = if p == 0 {
        o
    } else {
        o + s + 1 - p
    };
    let q = tri(s) + j;
    let h = tri(s + 1) - 1;
    lemma_sub_len(p0, n, s);
    lemma_tri_step(s);
    lemma_tri_zero();
    lemma_tri_mono(s + 1, k);
    lemma_ordered_agree(d0, p0, d1, p0, 0, s);
    lemma_ordered_agree(d0, p0, d1, p0, s + 1, k);
    let o0 = ordered(d0, p0);
    let goal = spliced(o0.remove(q), o0, h);
    assert forall|r: int| 0 <= r < n && r != h implies #[trigger] ordered(d1, p0)[r]
        == goal[r] by {
        if tri(s) <= r < h {
            let t = r - tri(s);
            lemma_ordered_at(d1, p0, s, t);
            if t < j {
                lemma_ordered_at(d0, p0, s, t);
            } else {
                lemma_ordered_at(d0, p0, s, t + 1);
            }
        }
    }
}

/// Subarray `cur` gave its minimum to the open place before it and moved its
/// pivot on: its own last rank is open now.
pub proof fn lemma_withdraw_easy<T>(
    d0: Seq<T>,
    p0: Seq<usize>,
    d1: Seq<T>,
    p1: Seq<usize>,
    cur: int,
    hole: int,
    np: usize,
)
    requires
        layout_ok(p0, d0.len() as int),
        1 <= cur < p0.len(),
        tri(cur + 1) <= d0.len(),
        hole == tri(cur - 1) + max_slot(p0[cur - 1] as int, cur - 1),
        d1 == d0.update(hole, d0[tri(cur) + p0[cur]]),
        np == next_pivot(p0[cur] as int, cur),
        p1 == p0.update(cur, np),
    ensures
        withdrawn(d0, p0, d1, p1, cur, tri(cur) - 1),
        max_slot(p1[cur] as int, cur) == p0[cur],
{
    let n = d0.len() as int;
    let k = p0.len() as int;
    let h = tri(cur + 1) - 1;
    lemma_sub_len(p0, n, cur);
    lemma_sub_len(p0, n, cur - 1);
    lemma_tri_step(cur);
    lemma_tri_step(cur - 1);
    lemma_tri_zero();
    lemma_tri_mono(0, cur - 1);
    lemma_tri_mono(cur + 1, k);
    assert(layout_ok(p1, n)) by {
        assert forall|i: int| 0 <= i < p1.len() implies #[trigger] p1[i] < sub_len(n, i) by {
            if i != cur {
                assert(p1[i] == p0[i]);
            }
        }
    }
    lemma_ordered_agree(d0, p0, d1, p1, 0, cur - 1);
    lemma_ordered_agree(d0, p0, d1, p1, cur + 1, k);
    let o0 = ordered(d0, p0);
    let goal = spliced(o0.remove(tri(cur) - 1), o0, h);
    assert forall|r: int| 0 <= r < n && r != h implies #[trigger] ordered(d1, p1)[r]
        == goal[r] by {
        if tri(cur - 1) <= r < tri(cur) {
            let t = r - tri(cur - 1);
            lemma_ordered_at(d1, p1, cur - 1, t);
            lemma_ordered_at(d0, p0, cur - 1, t);
            lemma_ordered_at(d0, p0, cur, 0);
        } else if tri(cur) <= r < h {
            let t = r - tri(cur);
            lemma_ordered_at(d1, p1, cur, t);
            lemma_ordered_at(d0, p0, cur, t + 1);
        }
    }
}

/// One more subarray has given its minimum: the store agrees with the wanted
/// sequence up to the open place, which moved to the end of that subarray.
pub proof fn lemma_withdraw_step<T>(
    old: Seq<T>,
    q: int,
    before: Seq<T>,
    after: Seq<T>,
    h0: int,
    h1: int,
)
    requires
        0 <= q <= h0 < h1 < old.len(),
        agree_except(before, spliced(old.remove(q), old, h0), h0),
        agree_except(after, spliced(before.remove(h0), before, h1), h1),
    ensures
        agree_except(after, spliced(old.remove(q), old, h1), h1),
{
    let goal = spliced(old.remove(q), old, h1);
    let mid = spliced(before.remove(h0), before, h1);
    let first = spliced(old.remove(q), old, h0);
    assert forall|r: int| 0 <= r < after.len() && r != h1 implies #[trigger] after[r]
        == goal[r] by {
        assert(after[r] == mid[r]);
        if r < h0 {
            assert(before[r] == first[r]);
        } else if r < h1 {
            assert(before[r + 1] == first[r + 1]);
        } else {
            assert(before[r] == first[r]);
        }
    }
}

/// The open place is closed by taking its rank out of the store: the store
/// holds the wanted sequence.
pub proof fn lemma_withdraw_finish<T>(old: Seq<T>, q: int, before: Seq<T>, h: int)
    requires
        0 <= q <= h < old.len(),
        agree_except(before, spliced(old.remove(q), old, h), h),
    ensures
        before.remove(h) == old.remove(q),
{
    let first = spliced(old.remove(q), old, h);
    assert forall|r: int| 0 <= r < old.len() - 1 implies #[trigger] before.remove(h)[r]
        == old.remove(q)[r] by {
        if r < h {
            assert(before[r] == first[r]);
        } else {
            assert(before[r + 1] == first[r + 1]);
        }
    }
    assert(before.remove(h) =~= old.remove(q));
}

/// Writing a subarray out in ascending order and setting its pivot to zero
/// changes no rank.
pub proof fn lemma_unrotate<T>(d0: Seq<T>, p0: Seq<usize>, d1: Seq<T>, i: int)
    requires
        layout_ok(p0, d0.len() as int),
        0 <= i < p0.len(),
        d1.len() == d0.len(),
        forall|x: int|
            tri(i) <= x < tri(i) + sub_len(d0.len() as int, i) ==> #[trigger] d1[x] == d0[tri(i)
                + rot(p0[i] as int, x - tri(i), sub_len(d0.len() as int, i))],
        forall|x: int|
            0 <= x < d0.len() && !(tri(i) <= x < tri(i) + sub_len(d0.len() as int, i))
                ==> #[trigger] d1[x] == d0[x],
    ensures
        layout_ok(p0.update(i, 0), d0.len() as int),
        ordered(d1, p0.update(i, 0)) == ordered(d0, p0),
{
    let n = d0.len() as int;
    let k = p0.len() as int;
    let p1 = p0.update(i, 0);
    lemma_sub_len(p0, n, i);
    lemma_tri_step(i);
    lemma_tri_zero();
    lemma_tri_mono(0, i);
    lemma_tri_mono(i + 1, k);
    assert(layout_ok(p1, n)) by {
        assert forall|m: int| 0 <= m < p1.len() implies #[trigger] p1[m] < sub_len(n, m) by {
            if m != i {
                assert(p1[m] == p0[m]);
            }
        }
    }
    lemma_ordered_agree(d0, p0, d1, p1, 0, i);
    lemma_ordered_agree(d0, p0, d1, p1, i + 1, k);
    assert forall|r: int| 0 <= r < n implies #[trigger] ordered(d1, p1)[r] == ordered(d0, p0)[r] by {
        if tri(i) <= r < tri(i) + sub_len(n, i) {
            let t = r - tri(i);
            lemma_ordered_at(d1, p1, i, t);
            lemma_ordered_at(d0, p0, i, t);
        } else if r >= tri(i + 1) {
        } else if r >= tri(i) {
            // a rank past the end of a last subarray that is not full
            assert(false);
        }
    }
    assert(ordered(d1, p1) =~= ordered(d0, p0));
}

/// Writing to the offset of one rank changes that rank only.
pub proof fn lemma_ordered_update<T>(d: Seq<T>, p: Seq<usize>, i: int, t: int, c: T)
    requires
        layout_ok(p, d.len() as int),
        0 <= i < p.len(),
        0 <= t < sub_len(d.len() as int, i),
    ensures
        ordered(d.update(tri(i) + rot(p[i] as int, t, sub_len(d.len() as int, i)), c), p)
            == ordered(d, p).update(tri(i) + t, c),
{
    let n = d.len() as int;
    let k = p.len() as int;
    let x = tri(i) + rot(p[i] as int, t, sub_len(n, i));
    lemma_sub_len(p, n, i);
    lemma_tri_step(i);
    lemma_tri_zero();
    lemma_tri_mono(0, i);
    lemma_tri_mono(i + 1, k);
    lemma_ordered_at(d, p, i, t);
    let d1 = d.update(x, c);
    lemma_ordered_agree(d, p, d1, p, 0, i);
    lemma_ordered_agree(d, p, d1, p, i + 1, k);
    let goal = ordered(d, p).update(tri(i) + t, c);
    assert forall|r: int| 0 <= r < n implies #[trigger] ordered(d1, p)[r] == goal[r] by {
        if tri(i) <= r < tri(i) + sub_len(n, i) {
            let u = r - tri(i);
            lemma_ordered_at(d1, p, i, u);
            lemma_ordered_at(d, p, i, u);
        } else if r >= tri(i + 1) {
        } else if r >= tri(i) {
            assert(false);
        }
    }
    assert(ordered(d1, p) =~= goal);
}

/// The pivots after one element has left a last subarray: the subarray goes
/// with its last element.
pub open spec fn shrunk(p: Seq<usize>, n: int) -> Seq<usize> {
    if n - 1 == tri(p.len() - 1) {
        p.drop_last()
    } else {
        p
    }
}

/// An element taken out of a last subarray whose pivot is zero.
pub proof fn lemma_ordered_shrink_last<T>(d: Seq<T>, p: Seq<usize>, x: int)
    requires
        layout_ok(p, d.len() as int),
        p.len() > 0,
        p[p.len() - 1] == 0,
        tri(p.len() - 1) <= x < d.len(),
    ensures
        layout_ok(shrunk(p, d.len() as int), d.len() - 1),
        ordered(d.remove(x), shrunk(p, d.len() as int)) == ordered(d, p).remove(x),
{
    let n = d.len() as int;
    let k = p.len() as int;
    let p1 = shrunk(p, n);
    lemma_tri_zero();
    lemma_tri_step(k - 1);
    lemma_tri_mono(0, k - 1);
    lemma_sub_len(p, n, k - 1);
    if k >= 2 {
        lemma_tri_step(k - 2);
        lemma_tri_mono(0, k - 2);
    }
    let d1 = d.remove(x);
    assert(layout_ok(p1, n - 1)) by {
        assert forall|i: int| 0 <= i < p1.len() implies #[trigger] p1[i] < sub_len(n - 1, i) by {
            lemma_sub_len(p, n, i);
            assert(p1[i] == p[i]);
            if i < k - 1 {
                lemma_tri_step(i);
                lemma_tri_mono(i + 1, k - 1);
            }
        }
    }
    assert forall|i: int| 0 <= i < k - 1 implies #[trigger] sub_len(n, i) == sub_len(n - 1, i) by {
        lemma_tri_step(i);
        lemma_tri_mono(i + 1, k - 1);
    }
    lemma_ordered_agree(d, p, d1, p1, 0, k - 1);
    let goal = ordered(d, p).remove(x);
    assert forall|r: int| 0 <= r < n - 1 implies #[trigger] ordered(d1, p1)[r] == goal[r] by {
        if r >= tri(k - 1) {
            lemma_ordered_at(d1, p1, k - 1, r - tri(k - 1));
            if r < x {
                lemma_ordered_at(d, p, k - 1, r - tri(k - 1));
            } else {
                lemma_ordered_at(d, p, k - 1, r + 1 - tri(k - 1));
            }
        }
    }
    assert(ordered(d1, p1) =~= goal);
}

/// Cutting the store after the first `len` elements, where the subarray that
/// holds the last of them has the pivot zero, keeps the first `len` ranks.
pub proof fn lemma_ordered_truncate<T>(d: Seq<T>, p: Seq<usize>, len: int)
    requires
        layout_ok(p, d.len() as int),
        0 < len <= d.len(),
        p[sub_of(len - 1)] == 0,
    ensures
        0 <= sub_of(len - 1) < p.len(),
        layout_ok(p.subrange(0, sub_of(len - 1) + 1), len),
        ordered(d.subrange(0, len), p.subrange(0, sub_of(len - 1) + 1)) == ordered(d, p).subrange(
            0,
            len,
        ),
{
    let n = d.len() as int;
    let k = p.len() as int;
    let s = sub_of(len - 1);
    lemma_sub_of(len - 1);
    lemma_tri_zero();
    lemma_tri_step(s);
    lemma_tri_mono(0, s);
    if s >= k {
        lemma_tri_mono(k, s);
    }
    lemma_sub_len(p, n, s);
    let d1 = d.subrange(0, len);
    let p1 = p.subrange(0, s + 1);
    assert(layout_ok(p1, len)) by {
        assert forall|i: int| 0 <= i < p1.len() implies #[trigger] p1[i] < sub_len(len, i) by {
            lemma_sub_len(p, n, i);
            assert(p1[i] == p[i]);
            if i < s {
                lemma_tri_step(i);
                lemma_tri_mono(i + 1, s);
            }
        }
    }
    assert forall|i: int| 0 <= i < s implies #[trigger] sub_len(n, i) == sub_len(len, i) by {
        lemma_tri_step(i);
        lemma_tri_mono(i + 1, s);
        lemma_tri_mono(s, k - 1);
        lemma_tri_step(k - 1);
    }
    lemma_ordered_agree(d, p, d1, p1, 0, s);
    let goal = ordered(d, p).subrange(0, len);
    assert forall|r: int| 0 <= r < len implies #[trigger] ordered(d1, p1)[r] == goal[r] by {
        if r >= tri(s) {
            lemma_ordered_at(d1, p1, s, r - tri(s));
            lemma_ordered_at(d, p, s, r - tri(s));
        }
    }
    assert(ordered(d1, p1) =~= goal);
}

} // verus!
