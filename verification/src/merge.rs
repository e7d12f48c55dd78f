//! The four operations of set algebra on ascending sequences, and the proofs
//! that they compute the operations on sets.

use crate::order::{lt, total_order};
use crate::sorted::strictly_ascending;
use vstd::prelude::*;

verus! {

/// The test "is an element of `b`".
pub open spec fn member_of<T>(b: Seq<T>) -> spec_fn(T) -> bool {
    |x: T| b.contains(x)
}

/// The test "is no element of `b`".
pub open spec fn not_member_of<T>(b: Seq<T>) -> spec_fn(T) -> bool {
    |x: T| !b.contains(x)
}

/// The elements of `a` that are not in `b`, in the order of `a`.
pub open spec fn difference_of<T>(a: Seq<T>, b: Seq<T>) -> Seq<T> {
    a.filter(not_member_of(b))
}

/// The elements of `a` that are also in `b`, in the order of `a`.
pub open spec fn intersection_of<T>(a: Seq<T>, b: Seq<T>) -> Seq<T> {
    a.filter(member_of(b))
}

/// The ordered merge of `a` and `b` that takes a value that both hold once.
pub open spec fn union_of<T: Ord>(a: Seq<T>, b: Seq<T>) -> Seq<T>
    decreases a.len() + b.len(),
{
    if a.len() == 0 {
        b
    } else if b.len() == 0 {
        a
    } else if lt(a[0], b[0]) {
        seq![a[0]] + union_of(a.drop_first(), b)
    } else if lt(b[0], a[0]) {
        seq![b[0]] + union_of(a, b.drop_first())
    } else {
        seq![a[0]] + union_of(a.drop_first(), b.drop_first())
    }
}

/// The ordered merge of `a` and `b` that leaves out a value that both hold.
pub open spec fn symmetric_difference_of<T: Ord>(a: Seq<T>, b: Seq<T>) -> Seq<T>
    decreases a.len() + b.len(),
{
    if a.len() == 0 {
        b
    } else if b.len() == 0 {
        a
    } else if lt(a[0], b[0]) {
        seq![a[0]] + symmetric_difference_of(a.drop_first(), b)
    } else if lt(b[0], a[0]) {
        seq![b[0]] + symmetric_difference_of(a, b.drop_first())
    } else {
        symmetric_difference_of(a.drop_first(), b.drop_first())
    }
}

/// What a filter keeps of an ascending sequence is ascending, and it is what
/// passes the test.
pub proof fn lemma_filter_ascending<T: Ord>(s: Seq<T>, p: spec_fn(T) -> bool)
    requires
        strictly_ascending(s),
    ensures
        strictly_ascending(s.filter(p)),
        forall|x: T| #[trigger] s.filter(p).contains(x) <==> s.contains(x) && p(x),
    decreases s.len(),
{
    reveal(Seq::filter);
    if s.len() > 0 {
        let rest = s.drop_last();
        let last = s.last();
        lemma_filter_ascending(rest, p);
        let kept = rest.filter(p);
        assert forall|x: T| #[trigger] s.filter(p).contains(x) <==> s.contains(x) && p(x) by {
            if s.filter(p).contains(x) {
                let i = choose|i: int| 0 <= i < s.filter(p).len() && s.filter(p)[i] == x;
                if i < kept.len() {
                    assert(kept[i] == x);
                    assert(kept.contains(x));
                    let j = choose|j: int| 0 <= j < rest.len() && rest[j] == x;
                    assert(s[j] == x);
                } else {
                    assert(s[s.len() - 1] == x);
                }
            }
            if s.contains(x) && p(x) {
                let j = choose|j: int| 0 <= j < s.len() && s[j] == x;
                if j < s.len() - 1 {
                    assert(rest[j] == x);
                    assert(rest.contains(x));
                    assert(kept.contains(x));
                    let i = choose|i: int| 0 <= i < kept.len() && kept[i] == x;
                    assert(s.filter(p)[i] == x);
                } else {
                    assert(s.filter(p)[kept.len() as int] == x);
                }
            }
        }
        if p(last) {
            let out = kept.push(last);
            assert forall|i: int, j: int| 0 <= i < j < out.len() implies lt(
                #[trigger] out[i],
                #[trigger] out[j],
            ) by {
                if j == kept.len() {
                    assert(kept.contains(kept[i]));
                    let m = choose|m: int| 0 <= m < rest.len() && rest[m] == kept[i];
                    assert(lt(s[m], s[s.len() - 1]));
                } else {
                    assert(lt(kept[i], kept[j]));
                }
            }
        }
    } else {
        assert(s.filter(p) =~= s);
    }
}

/// A value below all of an ascending sequence extends it at the front.
pub proof fn lemma_prepend_ascending<T: Ord>(h: T, s: Seq<T>)
    requires
        strictly_ascending(s),
        forall|i: int| 0 <= i < s.len() ==> lt(h, #[trigger] s[i]),
    ensures
        strictly_ascending(seq![h] + s),
{
    let t = seq![h] + s;
    assert forall|i: int, j: int| 0 <= i < j < t.len() implies lt(
        #[trigger] t[i],
        #[trigger] t[j],
    ) by {
        assert(t[j] == s[j - 1]);
        if i > 0 {
            assert(t[i] == s[i - 1]);
        }
    }
}

/// The tail of an ascending sequence is ascending and above the head.
pub proof fn lemma_tail_ascending<T: Ord>(s: Seq<T>)
    requires
        total_order::<T>(),
        strictly_ascending(s),
        s.len() > 0,
    ensures
        strictly_ascending(s.drop_first()),
        forall|x: T| #[trigger] s.drop_first().contains(x) ==> lt(s[0], x),
        forall|x: T| #[trigger] s.contains(x) <==> x == s[0] || s.drop_first().contains(x),
{
    let t = s.drop_first();
    assert forall|i: int, j: int| 0 <= i < j < t.len() implies lt(
        #[trigger] t[i],
        #[trigger] t[j],
    ) by {
        assert(lt(s[i + 1], s[j + 1]));
    }
    assert forall|x: T| #[trigger] t.contains(x) implies lt(s[0], x) by {
        let i = choose|i: int| 0 <= i < t.len() && t[i] == x;
        assert(lt(s[0], s[i + 1]));
    }
    assert forall|x: T| #[trigger] s.contains(x) <==> x == s[0] || t.contains(x) by {
        if s.contains(x) {
            let i = choose|i: int| 0 <= i < s.len() && s[i] == x;
            if i > 0 {
                assert(t[i - 1] == x);
            }
        }
        if t.contains(x) {
            let i = choose|i: int| 0 <= i < t.len() && t[i] == x;
            assert(s[i + 1] == x);
        }
        if x == s[0] {
            assert(s[0] == x);
        }
    }
}

/// What a sequence with a new head holds.
pub proof fn lemma_prepend_contains<T>(h: T, s: Seq<T>)
    ensures
        forall|x: T| #[trigger] (seq![h] + s).contains(x) <==> x == h || s.contains(x),
{
    let t = seq![h] + s;
    assert forall|x: T| #[trigger] t.contains(x) <==> x == h || s.contains(x) by {
        if t.contains(x) {
            let i = choose|i: int| 0 <= i < t.len() && t[i] == x;
            if i > 0 {
                assert(s[i - 1] == x);
            }
        }
        if s.contains(x) {
            let i = choose|i: int| 0 <= i < s.len() && s[i] == x;
            assert(t[i + 1] == x);
        }
        if x == h {
            assert(t[0] == x);
        }
    }
}

/// The merge of two ascending sequences is ascending and holds what either holds.
pub proof fn lemma_union_of<T: Ord>(a: Seq<T>, b: Seq<T>)
    requires
        total_order::<T>(),
        strictly_ascending(a),
        strictly_ascending(b),
    ensures
        strictly_ascending(union_of(a, b)),
        forall|x: T| #[trigger] union_of(a, b).contains(x) <==> a.contains(x) || b.contains(x),
    decreases a.len() + b.len(),
{
    if a.len() == 0 {
        assert forall|x: T| !a.contains(x) by {}
    } else if b.len() == 0 {
        assert forall|x: T| !b.contains(x) by {}
    } else {
        lemma_tail_ascending(a);
        lemma_tail_ascending(b);
        let (h, ra, rb) = if lt(a[0], b[0]) {
            (a[0], a.drop_first(), b)
        } else if lt(b[0], a[0]) {
            (b[0], a, b.drop_first())
        } else {
            (a[0], a.drop_first(), b.drop_first())
        };
        lemma_union_of(ra, rb);
        let rest = union_of(ra, rb);
        assert(union_of(a, b) == seq![h] + rest);
        lemma_prepend_contains(h, rest);
        assert forall|i: int| 0 <= i < rest.len() implies lt(h, #[trigger] rest[i]) by {
            let x = rest[i];
            assert(rest.contains(x));
            assert(ra.contains(x) || rb.contains(x));
            if lt(a[0], b[0]) {
                if b.contains(x) && x != b[0] {
                    assert(lt(b[0], x));
                }
            } else if lt(b[0], a[0]) {
                if a.contains(x) && x != a[0] {
                    assert(lt(a[0], x));
                }
            }
        }
        lemma_prepend_ascending(h, rest);
    }
}

/// The merge that leaves out what both hold is ascending and holds what
/// exactly one of the two holds.
pub proof fn lemma_symmetric_difference_of<T: Ord>(a: Seq<T>, b: Seq<T>)
    requires
        total_order::<T>(),
        strictly_ascending(a),
        strictly_ascending(b),
    ensures
        strictly_ascending(symmetric_difference_of(a, b)),
        forall|x: T| #[trigger]
            symmetric_difference_of(a, b).contains(x) <==> (a.contains(x) != b.contains(x)),
    decreases a.len() + b.len(),
{
    if a.len() == 0 {
        assert forall|x: T| !a.contains(x) by {}
    } else if b.len() == 0 {
        assert forall|x: T| !b.contains(x) by {}
    } else {
        lemma_tail_ascending(a);
        lemma_tail_ascending(b);
        if lt(a[0], b[0]) || lt(b[0], a[0]) {
            let (h, ra, rb) = if lt(a[0], b[0]) {
                (a[0], a.drop_first(), b)
            } else {
                (b[0], a, b.drop_first())
            };
            lemma_symmetric_difference_of(ra, rb);
            let rest = symmetric_difference_of(ra, rb);
            assert(symmetric_difference_of(a, b) == seq![h] + rest);
            lemma_prepend_contains(h, rest);
            assert forall|i: int| 0 <= i < rest.len() implies lt(h, #[trigger] rest[i]) by {
                let x = rest[i];
                assert(rest.contains(x));
                assert(ra.contains(x) || rb.contains(x));
                if lt(a[0], b[0]) {
                    if b.contains(x) && x != b[0] {
                        assert(lt(b[0], x));
                    }
                } else {
                    if a.contains(x) && x != a[0] {
                        assert(lt(a[0], x));
                    }
                }
            }
            lemma_prepend_ascending(h, rest);
            assert forall|x: T| #[trigger]
                symmetric_difference_of(a, b).contains(x) <==> (a.contains(x) != b.contains(
                    x,
                )) by {
                if lt(a[0], b[0]) {
                    if b.contains(a[0]) && a[0] != b[0] {
                        assert(lt(b[0], a[0]));
                    }
                } else {
                    if a.contains(b[0]) && a[0] != b[0] {
                        assert(lt(a[0], b[0]));
                    }
                }
            }
        } else {
            assert(a[0] == b[0]);
            lemma_symmetric_difference_of(a.drop_first(), b.drop_first());
            assert forall|x: T| #[trigger]
                symmetric_difference_of(a, b).contains(x) <==> (a.contains(x) != b.contains(
                    x,
                )) by {
                let rest = symmetric_difference_of(a.drop_first(), b.drop_first());
                if rest.contains(a[0]) {
                    assert(a.drop_first().contains(a[0]) || b.drop_first().contains(a[0]));
                }
            }
        }
    }
}

/// A test and its opposite cut a sequence into two parts.
pub proof fn lemma_filter_parts<T>(s: Seq<T>, p: spec_fn(T) -> bool, q: spec_fn(T) -> bool)
    requires
        forall|x: T| #[trigger] q(x) == !p(x),
    ensures
        s.filter(p).len() + s.filter(q).len() == s.len(),
    decreases s.len(),
{
    reveal(Seq::filter);
    if s.len() > 0 {
        lemma_filter_parts(s.drop_last(), p, q);
        assert(q(s.last()) == !p(s.last()));
    }
}

/// The merge of two sequences is at least as long as each of them and at
/// most as long as both together.
pub proof fn lemma_union_len<T: Ord>(a: Seq<T>, b: Seq<T>)
    ensures
        a.len() <= union_of(a, b).len(),
        b.len() <= union_of(a, b).len(),
        union_of(a, b).len() <= a.len() + b.len(),
    decreases a.len() + b.len(),
{
    if a.len() > 0 && b.len() > 0 {
        if lt(a[0], b[0]) {
            lemma_union_len(a.drop_first(), b);
        } else if lt(b[0], a[0]) {
            lemma_union_len(a, b.drop_first());
        } else {
            lemma_union_len(a.drop_first(), b.drop_first());
        }
    }
}

/// The merge that leaves out what both hold is at most as long as both
/// sequences together.
pub proof fn lemma_symmetric_difference_len<T: Ord>(a: Seq<T>, b: Seq<T>)
    ensures
        symmetric_difference_of(a, b).len() <= a.len() + b.len(),
    decreases a.len() + b.len(),
{
    if a.len() > 0 && b.len() > 0 {
        if lt(a[0], b[0]) {
            lemma_symmetric_difference_len(a.drop_first(), b);
        } else if lt(b[0], a[0]) {
            lemma_symmetric_difference_len(a, b.drop_first());
        } else {
            lemma_symmetric_difference_len(a.drop_first(), b.drop_first());
        }
    }
}

} // verus!
