//! Moves of runs of elements inside a vector.

use crate::layout::rot;
use vstd::prelude::*;

verus! {

/// Copies the run `src_start..src_end` of `v` to the run of the same length
/// that starts at `dest`; the two runs may overlap.
pub fn copy_within<T: Copy>(v: &mut Vec<T>, src_start: usize, src_end: usize, dest: usize)
    requires
        src_start <= src_end <= old(v).len(),
        dest + (src_end - src_start) <= old(v).len(),
    ensures
        final(v).len() == old(v).len(),
        forall|x: int|
            dest <= x < dest + (src_end - src_start) ==> #[trigger] final(v)[x] == old(v)[x - dest
                + src_start],
        forall|x: int|
            0 <= x < old(v).len() && !(dest <= x < dest + (src_end - src_start))
                ==> #[trigger] final(v)[x] == old(v)[x],
{
    let count: usize = src_end - src_start;
    if dest <= src_start {
        let mut t: usize = 0;
        while t < count
            invariant
                count == src_end - src_start,
                dest <= src_start <= src_end <= old(v).len(),
                v.len() == old(v).len(),
                0 <= t <= count,
                forall|x: int|
                    dest <= x < dest + t ==> #[trigger] v[x] == old(v)[x - dest + src_start],
                forall|x: int|
                    0 <= x < old(v).len() && !(dest <= x < dest + t)
                        ==> #[trigger] v[x] == old(v)[x],
            decreases count - t,
        {
            let x = v[src_start + t];
            v.set(dest + t, x);
            t = t + 1;
        }
    } else {
        let mut t: usize = count;
        while t > 0
            invariant
                count == src_end - src_start,
                src_start < dest,
                src_start <= src_end <= old(v).len(),
                dest + count <= old(v).len(),
                v.len() == old(v).len(),
                0 <= t <= count,
                forall|x: int|
                    dest + t <= x < dest + count ==> #[trigger] v[x] == old(v)[x - dest
                        + src_start],
                forall|x: int|
                    0 <= x < old(v).len() && !(dest + t <= x < dest + count) ==> #[trigger] v[x]
                        == old(v)[x],
            decreases t,
        {
            t = t - 1;
            let x = v[src_start + t];
            v.set(dest + t, x);
        }
    }
}

/// Reverses the run `lo..hi` of `v` in place.
pub fn reverse<T: Copy>(v: &mut Vec<T>, lo: usize, hi: usize)
    requires
        lo <= hi <= old(v).len(),
    ensures
        final(v).len() == old(v).len(),
        forall|x: int| lo <= x < hi ==> #[trigger] final(v)[x] == old(v)[lo + hi - 1 - x],
        forall|x: int|
            0 <= x < old(v).len() && !(lo <= x < hi) ==> #[trigger] final(v)[x] == old(v)[x],
{
    let mut a: usize = lo;
    let mut b: usize = hi;
    while b - a > 1
        invariant
            lo <= a <= b <= hi <= old(v).len(),
            a - lo == hi - b,
            v.len() == old(v).len(),
            forall|x: int|
                (lo <= x < a || b <= x < hi) ==> #[trigger] v[x] == old(v)[lo + hi - 1 - x],
            forall|x: int|
                0 <= x < old(v).len() && !(lo <= x < a || b <= x < hi) ==> #[trigger] v[x]
                    == old(v)[x],
        decreases b - a,
    {
        b = b - 1;
        let first = v[a];
        let last = v[b];
        v.set(a, last);
        v.set(b, first);
        a = a + 1;
    }
}

/// Rotates the run `lo..hi` of `v` in place, so that the element at offset
/// `mid` of the run becomes its first.
pub fn rotate_left<T: Copy>(v: &mut Vec<T>, lo: usize, hi: usize, mid: usize)
    requires
        lo <= hi <= old(v).len(),
        mid <= hi - lo,
    ensures
        final(v).len() == old(v).len(),
        forall|x: int|
            lo <= x < hi ==> #[trigger] final(v)[x] == old(v)[lo + rot(
                mid as int,
                x - lo,
                hi - lo,
            )],
        forall|x: int|
            0 <= x < old(v).len() && !(lo <= x < hi) ==> #[trigger] final(v)[x] == old(v)[x],
{
    reverse(v, lo, lo + mid);
    reverse(v, lo + mid, hi);
    reverse(v, lo, hi);
}

} // verus!
