//! What the exchanges inside one full subarray do to the elements in ranks.
//!
//! Each lemma describes a change of the store that touches one full subarray
//! `s` only, and shows that in ranks the subarray has taken a value at some
//! place and has dropped its last element.

use crate::layout::{
    layout_ok, lemma_ordered_agree, lemma_ordered_at, lemma_sub_len, ordered, spliced, sub_len,
};
use crate::partition::{lemma_tri_mono, lemma_tri_step, lemma_tri_zero, tri};
use vstd::prelude::*;

verus! {

/// The first `tri(s + 1)` ranks are those of the store with `v` inserted at
/// rank `q`, the others are unchanged.
pub open spec fn exchanged<T>(
    d0: Seq<T>,
    p0: Seq<usize>,
    d1: Seq<T>,
    p1: Seq<usize>,
    s: int,
    q: int,
    v: T,
) -> bool {
    &&& layout_ok(p1, d1.len() as int)
    &&& d1.len() == d0.len()
    &&& p1.len() == p0.len()
    &&& ordered(d1, p1) == spliced(ordered(d0, p0).insert(q, v), ordered(d0, p0), tri(s + 1))
}

/// The value went in at or after the pivot of a subarray whose pivot is not
/// zero: the elements from the pivot up to the place moved one offset down,
/// onto the old maximum, and the pivot moved down with them.
pub proof fn lemma_exchange_after_pivot<T>(
    d0: Seq<T>,
    p0: Seq<usize>,
    d1: Seq<T>,
    p1: Seq<usize>,
    s: int,
    o: int,
    v: T,
)
    requires
        layout_ok(p0, d0.len() as int),
        0 <= s < p0.len(),
        tri(s + 1) <= d0.len(),
        0 < p0[s] <= o < s + 1,
        d1.len() == d0.len(),
        p1 == p0.update(s, (p0[s] - 1) as usize),
        forall|x: int|
            tri(s) + p0[s] - 1 <= x < tri(s) + o - 1 ==> #[trigger] d1[x] == d0[x + 1],
        d1[tri(s) + o - 1] == v,
        forall|x: int|
            0 <= x < d0.len() && !(tri(s) + p0[s] - 1 <= x <= tri(s) + o - 1) ==> #[trigger] d1[x]
                == d0[x],
    ensures
        exchanged(d0, p0, d1, p1, s, tri(s) + o - p0[s], v),
{
    let n = d0.len() as int;
    let k = p0.len() as int;
    let p = p0[s] as int;
    let q = tri(s) + o - p;
    lemma_sub_len(p0, n, s);
    lemma_tri_step(s);
    lemma_tri_zero();
    lemma_tri_mono(s + 1, k);
    assert(layout_ok(p1, n)) by {
        assert forall|i: int| 0 <= i < p1.len() implies #[trigger] p1[i] < sub_len(n, i) by {
            if i != s {
                assert(p1[i] == p0[i]);
            }
        }
    }
    lemma_ordered_agree(d0, p0, d1, p1, 0, s);
    lemma_ordered_agree(d0, p0, d1, p1, s + 1, k);
    let o0 = ordered(d0, p0);
    let goal = spliced(o0.insert(q, v), o0, tri(s + 1));
    assert forall|r: int| 0 <= r < n implies #[trigger] ordered(d1, p1)[r] == goal[r] by {
        if tri(s) <= r < tri(s + 1) {
            let t = r - tri(s);
            lemma_ordered_at(d1, p1, s, t);
            if t < o - p {
                lemma_ordered_at(d0, p0, s, t);
            } else if t > o - p {
                lemma_ordered_at(d0, p0, s, t - 1);
            }
        }
    }
    assert(ordered(d1, p1) =~= goal);
}

/// The value went in before the maximum, in a subarray whose pivot is zero or
/// lies after the place: the elements from the place up to the one before the
/// maximum moved one offset up, onto the old maximum.
pub proof fn lemma_exchange_before_max<T>(
    d0: Seq<T>,
    p0: Seq<usize>,
    d1: Seq<T>,
    s: int,
    o: int,
    v: T,
)
    requires
        layout_ok(p0, d0.len() as int),
        0 <= s < p0.len(),
        tri(s + 1) <= d0.len(),
        0 <= o < s + 1,
        p0[s] == 0 || o < p0[s],
        d1.len() == d0.len(),
        forall|x: int|
            tri(s) + o < x <= tri(s) + (if p0[s] == 0 {
                s
            } else {
                p0[s] - 1
            }) ==> #[trigger] d1[x] == d0[x - 1],
        d1[tri(s) + o] == v,
        forall|x: int|
            0 <= x < d0.len() && !(tri(s) + o <= x <= tri(s) + (if p0[s] == 0 {
                s
            } else {
                p0[s] - 1
            })) ==> #[trigger] d1[x] == d0[x],
    ensures
        exchanged(
            d0,
            p0,
            d1,
            p0,
            s,
            tri(s) + (if p0[s] == 0 {
                o
            } else {
                o + s + 1 - p0[s]
            }),
            v,
        ),
{
    let n = d0.len() as int;
    let k = p0.len() as int;
    let p = p0[s] as int;
    let j = if p == 0 {
        o
    } else {
        o + s + 1 - p
    };
    let q = tri(s) + j;
    lemma_sub_len(p0, n, s);
    lemma_tri_step(s);
    lemma_tri_zero();
    lemma_tri_mono(s + 1, k);
    lemma_ordered_agree(d0, p0, d1, p0, 0, s);
    lemma_ordered_agree(d0, p0, d1, p0, s + 1, k);
    let o0 = ordered(d0, p0);
    let goal = spliced(o0.insert(q, v), o0, tri(s + 1));
    assert forall|r: int| 0 <= r < n implies #[trigger] ordered(d1, p0)[r] == goal[r] by {
        if tri(s) <= r < tri(s + 1) {
            let t = r - tri(s);
            lemma_ordered_at(d1, p0, s, t);
            if t < j {
                lemma_ordered_at(d0, p0, s, t);
            } else if t > j {
                lemma_ordered_at(d0, p0, s, t - 1);
            }
        }
    }
    assert(ordered(d1, p0) =~= goal);
}

/// The value took the place of the maximum and the pivot moved onto it: the
/// value is the new minimum.
pub proof fn lemma_exchange_easy<T>(
    d0: Seq<T>,
    p0: Seq<usize>,
    d1: Seq<T>,
    p1: Seq<usize>,
    s: int,
    m: usize,
    v: T,
)
    requires
        layout_ok(p0, d0.len() as int),
        0 <= s < p0.len(),
        tri(s + 1) <= d0.len(),
        m == (if p0[s] == 0 {
            s
        } else {
            p0[s] - 1
        }),
        d1 == d0.update(tri(s) + m, v),
        p1 == p0.update(s, m),
    ensures
        exchanged(d0, p0, d1, p1, s, tri(s), v),
{
    let n = d0.len() as int;
    let k = p0.len() as int;
    lemma_sub_len(p0, n, s);
    lemma_tri_step(s);
    lemma_tri_zero();
    lemma_tri_mono(s + 1, k);
    assert(layout_ok(p1, n)) by {
        assert forall|i: int| 0 <= i < p1.len() implies #[trigger] p1[i] < sub_len(n, i) by {
            if i != s {
                assert(p1[i] == p0[i]);
            }
        }
    }
    lemma_ordered_agree(d0, p0, d1, p1, 0, s);
    lemma_ordered_agree(d0, p0, d1, p1, s + 1, k);
    let o0 = ordered(d0, p0);
    let goal = spliced(o0.insert(tri(s), v), o0, tri(s + 1));
    assert forall|r: int| 0 <= r < n implies #[trigger] ordered(d1, p1)[r] == goal[r] by {
        if tri(s) <= r < tri(s + 1) {
            let t = r - tri(s);
            lemma_ordered_at(d1, p1, s, t);
            if t > 0 {
                lemma_ordered_at(d0, p0, s, t - 1);
            }
        }
    }
    assert(ordered(d1, p1) =~= goal);
}

/// The maximum of a full subarray lies one offset before its pivot, cyclically.
pub proof fn lemma_max_of_full<T>(d0: Seq<T>, p0: Seq<usize>, s: int)
    requires
        layout_ok(p0, d0.len() as int),
        0 <= s < p0.len(),
        tri(s + 1) <= d0.len(),
    ensures
        0 <= tri(s),
        tri(s + 1) == tri(s) + s + 1,
        p0[s] <= s,
        ordered(d0, p0)[tri(s + 1) - 1] == d0[tri(s) + (if p0[s] == 0 {
            s
        } else {
            p0[s] - 1
        })],
{
    lemma_sub_len(p0, d0.len() as int, s);
    lemma_tri_step(s);
    lemma_ordered_at(d0, p0, s, s);
}

/// One more subarray has taken what the one before it dropped: the store now
/// agrees with the wanted sequence up to the end of that subarray.
pub proof fn lemma_splice_step<T>(
    old: Seq<T>,
    q: int,
    v: T,
    before: Seq<T>,
    after: Seq<T>,
    b0: int,
    b1: int,
    c: T,
)
    requires
        0 <= q < b0 < b1 <= old.len(),
        before == spliced(old.insert(q, v), old, b0),
        c == old[b0 - 1],
        after == spliced(before.insert(b0, c), before, b1),
    ensures
        after == spliced(old.insert(q, v), old, b1),
{
    assert(after =~= spliced(old.insert(q, v), old, b1));
}

/// The element that the last exchange dropped goes in where the exchanges
/// stopped: the store now holds the wanted sequence.
pub proof fn lemma_splice_finish<T>(old: Seq<T>, q: int, v: T, before: Seq<T>, b: int, c: T)
    requires
        0 <= q < b <= old.len(),
        before == spliced(old.insert(q, v), old, b),
        c == old[b - 1],
    ensures
        before.insert(b, c) == old.insert(q, v),
{
    assert(before.insert(b, c) =~= old.insert(q, v));
}

/// A new subarray of one element after a full last subarray.
pub proof fn lemma_ordered_push<T>(d: Seq<T>, p: Seq<usize>, c: T)
    requires
        layout_ok(p, d.len() as int),
        d.len() == tri(p.len() as int),
    ensures
        layout_ok(p.push(0), d.len() as int + 1),
        ordered(d.push(c), p.push(0)) == ordered(d, p).push(c),
{
    let n = d.len() as int;
    let k = p.len() as int;
    let d1 = d.push(c);
    let p1 = p.push(0);
    lemma_tri_zero();
    lemma_tri_step(k);
    lemma_tri_mono(0, k);
    assert(layout_ok(p1, n + 1)) by {
        assert forall|i: int| 0 <= i < p1.len() implies #[trigger] p1[i] < sub_len(n + 1, i) by {
            if i < k {
                lemma_sub_len(p, n, i);
                lemma_tri_step(i);
                lemma_tri_mono(i + 1, k);
                assert(p1[i] == p[i]);
            }
        }
    }
    assert forall|i: int| 0 <= i < k implies #[trigger] sub_len(n, i) == sub_len(n + 1, i) by {
        lemma_tri_step(i);
        lemma_tri_mono(i + 1, k);
    }
    lemma_ordered_agree(d, p, d1, p1, 0, k);
    lemma_ordered_at(d1, p1, k, 0);
    assert(ordered(d1, p1) =~= ordered(d, p).push(c));
}

/// An element put into a last subarray that is not full.
pub proof fn lemma_ordered_grow_last<T>(d: Seq<T>, p: Seq<usize>, x: int, c: T)
    requires
        layout_ok(p, d.len() as int),
        p.len() > 0,
        d.len() < tri(p.len() as int),
        tri(p.len() - 1) <= x <= d.len(),
    ensures
        layout_ok(p, d.len() as int + 1),
        ordered(d.insert(x, c), p) == ordered(d, p).insert(x, c),
{
    let n = d.len() as int;
    let k = p.len() as int;
    lemma_tri_zero();
    lemma_tri_step(k - 1);
    lemma_tri_mono(0, k - 1);
    lemma_sub_len(p, n, k - 1);
    let d1 = d.insert(x, c);
    assert(layout_ok(p, n + 1)) by {
        assert forall|i: int| 0 <= i < p.len() implies #[trigger] p[i] < sub_len(n + 1, i) by {
            lemma_sub_len(p, n, i);
            if i < k - 1 {
                lemma_tri_step(i);
                lemma_tri_mono(i + 1, k - 1);
            }
        }
    }
    assert forall|i: int| 0 <= i < k - 1 implies #[trigger] sub_len(n, i) == sub_len(n + 1, i) by {
        lemma_tri_step(i);
        lemma_tri_mono(i + 1, k - 1);
    }
    lemma_ordered_agree(d, p, d1, p, 0, k - 1);
    let goal = ordered(d, p).insert(x, c);
    assert forall|r: int| 0 <= r < n + 1 implies #[trigger] ordered(d1, p)[r] == goal[r] by {
        if r >= tri(k - 1) {
            lemma_ordered_at(d1, p, k - 1, r - tri(k - 1));
            if r < x {
                lemma_ordered_at(d, p, k - 1, r - tri(k - 1));
            } else if r > x {
                lemma_ordered_at(d, p, k - 1, r - 1 - tri(k - 1));
            }
        }
    }
    assert(ordered(d1, p) =~= goal);
}

} // verus!
