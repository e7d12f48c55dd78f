//! Strictly ascending sequences and the searches that rely on them.

use crate::order::{compare, lt, total_order, Rel};
use vstd::prelude::*;

verus! {

/// The elements of `s` at the indices `lo..hi` are strictly ascending.
pub open spec fn ascending_in<T: Ord>(s: Seq<T>, lo: int, hi: int) -> bool {
    forall|i: int, j: int| lo <= i < j < hi ==> lt(#[trigger] s[i], #[trigger] s[j])
}

/// The whole of `s` is strictly ascending; in particular it holds no value twice.
pub open spec fn strictly_ascending<T: Ord>(s: Seq<T>) -> bool {
    ascending_in(s, 0, s.len() as int)
}

/// `v` is not in `s`, and `q` is the place at which it keeps `s` ascending:
/// whatever stands before `q` is below `v`, whatever stands from `q` on is above.
pub open spec fn splits_at<T: Ord>(s: Seq<T>, q: int, v: T) -> bool {
    &&& 0 <= q <= s.len()
    &&& forall|r: int| 0 <= r < q ==> lt(#[trigger] s[r], v)
    &&& forall|r: int| q <= r < s.len() ==> lt(v, #[trigger] s[r])
}

/// In an ascending sequence the two neighbours of a place decide whether a
/// value splits the sequence there.
pub proof fn lemma_splits_from_neighbours<T: Ord>(s: Seq<T>, q: int, v: T)
    requires
        total_order::<T>(),
        strictly_ascending(s),
        0 <= q <= s.len(),
        q > 0 ==> lt(s[q - 1], v),
        q < s.len() ==> lt(v, s[q]),
    ensures
        splits_at(s, q, v),
{
    assert forall|r: int| 0 <= r < q implies lt(#[trigger] s[r], v) by {
        if r < q - 1 {
            assert(lt(s[r], s[q - 1]));
        }
    }
    assert forall|r: int| q <= r < s.len() implies lt(v, #[trigger] s[r]) by {
        if r > q {
            assert(lt(s[q], s[r]));
        }
    }
}

/// The number of elements of `s` that are below `v`.
pub open spec fn count_below<T: Ord>(s: Seq<T>, v: T) -> int
    decreases s.len(),
{
    if s.len() == 0 {
        0
    } else {
        count_below(s.drop_last(), v) + if lt(s.last(), v) {
            1int
        } else {
            0int
        }
    }
}

/// Where all before `q` is below `v` and nothing from `q` on is, `q` elements
/// are below `v`.
pub proof fn lemma_count_below<T: Ord>(s: Seq<T>, q: int, v: T)
    requires
        0 <= q <= s.len(),
        forall|r: int| 0 <= r < q ==> lt(#[trigger] s[r], v),
        forall|r: int| q <= r < s.len() ==> !lt(#[trigger] s[r], v),
    ensures
        count_below(s, v) == q,
    decreases s.len(),
{
    if s.len() > 0 {
        let t = s.drop_last();
        let q1 = if q == s.len() {
            q - 1
        } else {
            q
        };
        assert forall|r: int| 0 <= r < q1 implies lt(#[trigger] t[r], v) by {
            assert(t[r] == s[r]);
        }
        assert forall|r: int| q1 <= r < t.len() implies !lt(#[trigger] t[r], v) by {
            assert(t[r] == s[r]);
        }
        lemma_count_below(t, q1, v);
        assert(s.last() == s[s.len() - 1]);
    }
}

/// The place at which a value splits a sequence is the number of elements below it.
pub proof fn lemma_splits_count<T: Ord>(s: Seq<T>, q: int, v: T)
    requires
        total_order::<T>(),
        splits_at(s, q, v),
    ensures
        count_below(s, v) == q,
{
    assert forall|r: int| q <= r < s.len() implies !lt(#[trigger] s[r], v) by {
        assert(lt(v, s[r]));
    }
    lemma_count_below(s, q, v);
}

/// The rank of an element of an ascending sequence is the number of elements below it.
pub proof fn lemma_rank_count<T: Ord>(s: Seq<T>, i: int)
    requires
        total_order::<T>(),
        strictly_ascending(s),
        0 <= i < s.len(),
    ensures
        count_below(s, s[i]) == i,
{
    assert forall|r: int| i <= r < s.len() implies !lt(#[trigger] s[r], s[i]) by {
        if r > i {
            assert(lt(s[i], s[r]));
        }
    }
    lemma_count_below(s, i, s[i]);
}

/// A value that an ascending sequence does not hold splits it at the number
/// of elements below the value.
pub proof fn lemma_absent_splits<T: Ord>(s: Seq<T>, v: T)
    requires
        total_order::<T>(),
        strictly_ascending(s),
        !s.contains(v),
    ensures
        splits_at(s, count_below(s, v), v),
    decreases s.len(),
{
    if s.len() > 0 {
        let t = s.drop_last();
        let last = s.last();
        assert(s[s.len() - 1] == last);
        assert forall|i: int, j: int| 0 <= i < j < t.len() implies lt(
            #[trigger] t[i],
            #[trigger] t[j],
        ) by {
            assert(lt(s[i], s[j]));
        }
        if t.contains(v) {
            let i = choose|i: int| 0 <= i < t.len() && t[i] == v;
            assert(s[i] == v);
        }
        lemma_absent_splits(t, v);
        let q = count_below(t, v);
        assert forall|r: int| 0 <= r < q implies lt(#[trigger] s[r], v) by {
            assert(lt(t[r], v));
        }
        if lt(last, v) {
            if q < t.len() {
                assert(lt(v, t[q]));
                assert(lt(s[q], s[s.len() - 1]));
                assert(lt(v, last));
            }
            assert forall|r: int| 0 <= r < q + 1 implies lt(#[trigger] s[r], v) by {
                if r < q {
                    assert(lt(t[r], v));
                }
            }
        } else {
            assert(lt(v, last));
            assert forall|r: int| q <= r < s.len() implies lt(v, #[trigger] s[r]) by {
                if r < t.len() {
                    assert(lt(v, t[r]));
                }
            }
        }
    }
}

/// A value that splits a sequence does not occur in it.
pub proof fn lemma_splits_absent<T: Ord>(s: Seq<T>, q: int, v: T)
    requires
        total_order::<T>(),
        splits_at(s, q, v),
    ensures
        !s.contains(v),
{
    if s.contains(v) {
        let r = choose|r: int| 0 <= r < s.len() && s[r] == v;
        assert(lt(s[r], v) || lt(v, s[r]));
    }
}

/// Inserting a value at the place where it splits an ascending sequence keeps
/// the sequence ascending and adds the value to what it holds.
pub proof fn lemma_insert_ascending<T: Ord>(s: Seq<T>, q: int, v: T)
    requires
        total_order::<T>(),
        strictly_ascending(s),
        splits_at(s, q, v),
    ensures
        strictly_ascending(s.insert(q, v)),
        s.insert(q, v).to_set() == s.to_set().insert(v),
{
    let t = s.insert(q, v);
    assert forall|i: int, j: int| 0 <= i < j < t.len() implies lt(
        #[trigger] t[i],
        #[trigger] t[j],
    ) by {
        if i == q {
            assert(t[j] == s[j - 1]);
        } else if j == q {
            assert(t[i] == s[i]);
        } else {
            let a = if i < q { i } else { i - 1 };
            let b = if j < q { j } else { j - 1 };
            assert(t[i] == s[a] && t[j] == s[b]);
        }
    }
    assert forall|x: T| t.to_set().contains(x) <==> s.to_set().insert(v).contains(x) by {
        if t.contains(x) {
            let i = choose|i: int| 0 <= i < t.len() && t[i] == x;
            if i < q {
                assert(s[i] == x);
            } else if i > q {
                assert(s[i - 1] == x);
            }
        }
        if s.contains(x) {
            let i = choose|i: int| 0 <= i < s.len() && s[i] == x;
            if i < q {
                assert(t[i] == x);
            } else {
                assert(t[i + 1] == x);
            }
        }
        if x == v {
            assert(t[q] == v);
        }
    }
    assert(t.to_set() =~= s.to_set().insert(v));
}

/// Taking an element out of an ascending sequence keeps the sequence ascending
/// and takes the element out of what it holds.
pub proof fn lemma_remove_ascending<T: Ord>(s: Seq<T>, q: int)
    requires
        total_order::<T>(),
        strictly_ascending(s),
        0 <= q < s.len(),
    ensures
        strictly_ascending(s.remove(q)),
        s.remove(q).to_set() == s.to_set().remove(s[q]),
{
    let t = s.remove(q);
    assert forall|i: int, j: int| 0 <= i < j < t.len() implies lt(
        #[trigger] t[i],
        #[trigger] t[j],
    ) by {
        let a = if i < q { i } else { i + 1 };
        let b = if j < q { j } else { j + 1 };
        assert(t[i] == s[a] && t[j] == s[b]);
    }
    assert forall|x: T| t.to_set().contains(x) <==> s.to_set().remove(s[q]).contains(x) by {
        if t.contains(x) {
            let i = choose|i: int| 0 <= i < t.len() && t[i] == x;
            let a = if i < q { i } else { i + 1 };
            assert(s[a] == x);
            assert(lt(s[a], s[q]) || lt(s[q], s[a]));
        }
        if s.contains(x) && x != s[q] {
            let i = choose|i: int| 0 <= i < s.len() && s[i] == x;
            if i < q {
                assert(t[i] == x);
            } else {
                assert(t[i - 1] == x);
            }
        }
    }
    assert(t.to_set() =~= s.to_set().remove(s[q]));
}

/// An ascending sequence holds each of its values at one index only.
pub proof fn lemma_ascending_injective<T: Ord>(s: Seq<T>, i: int, j: int)
    requires
        total_order::<T>(),
        strictly_ascending(s),
        0 <= i < s.len(),
        0 <= j < s.len(),
        s[i] == s[j],
    ensures
        i == j,
{
    if i < j {
        assert(lt(s[i], s[j]));
    } else if j < i {
        assert(lt(s[j], s[i]));
    }
}

/// Two ascending sequences that hold the same values are the same sequence.
pub proof fn lemma_ascending_unique<T: Ord>(a: Seq<T>, b: Seq<T>)
    requires
        total_order::<T>(),
        strictly_ascending(a),
        strictly_ascending(b),
        a.to_set() == b.to_set(),
    ensures
        a == b,
    decreases a.len(),
{
    if a.len() == 0 {
        if b.len() > 0 {
            assert(b.contains(b[0]));
            assert(b.to_set().contains(b[0]));
            assert(a.contains(b[0]));
        }
        assert(a =~= b);
    } else {
        let x = a.last();
        assert(a.contains(x));
        assert(a.to_set().contains(x));
        assert(b.contains(x));
        let j = choose|j: int| 0 <= j < b.len() && b[j] == x;
        // nothing in `b` is above the largest element of `a`
        if j < b.len() - 1 {
            let y = b.last();
            assert(lt(b[j], y));
            assert(b.contains(y));
            assert(b.to_set().contains(y));
            assert(a.contains(y));
            let i = choose|i: int| 0 <= i < a.len() && a[i] == y;
            if i < a.len() - 1 {
                assert(lt(a[i], a[a.len() - 1]));
            }
            assert(false);
        }
        lemma_remove_ascending(a, a.len() - 1);
        lemma_remove_ascending(b, b.len() - 1);
        assert(a.remove(a.len() - 1) =~= a.drop_last());
        assert(b.remove(b.len() - 1) =~= b.drop_last());
        lemma_ascending_unique(a.drop_last(), b.drop_last());
        assert(a =~= a.drop_last().push(x));
        assert(b =~= b.drop_last().push(x));
    }
}

/// Searches the strictly ascending run `v[lo..hi]` for `value`: `Ok` with the
/// index that holds it, or `Err` with the index at which it would be inserted.
pub fn binary_search<T: Ord + Copy>(v: &Vec<T>, lo: usize, hi: usize, value: &T) -> (r: Result<
    usize,
    usize,
>)
    requires
        total_order::<T>(),
        lo <= hi <= v.len(),
        ascending_in(v@, lo as int, hi as int),
    ensures
        match r {
            Ok(i) => lo <= i < hi && v[i as int] == *value,
            Err(i) => {
                &&& lo <= i <= hi
                &&& forall|j: int| lo <= j < i ==> lt(#[trigger] v[j], *value)
                &&& forall|j: int| i <= j < hi ==> lt(*value, #[trigger] v[j])
            },
        },
{
    let mut a: usize = lo;
    let mut b: usize = hi;
    while a < b
        invariant
            total_order::<T>(),
            lo <= a <= b <= hi <= v.len(),
            ascending_in(v@, lo as int, hi as int),
            forall|j: int| lo <= j < a ==> lt(#[trigger] v[j], *value),
            forall|j: int| b <= j < hi ==> lt(*value, #[trigger] v[j]),
        decreases b - a,
    {
        let mid: usize = a + (b - a) / 2;
        match compare(value, &v[mid]) {
            Rel::Same => {
                return Ok(mid);
            },
            Rel::Above => {
                a = mid + 1;
            },
            Rel::Below => {
                b = mid;
            },
        }
    }
    Err(a)
}

} // verus!
