//! An ordered set kept in one contiguous array.
//!
//! The array is cut into subarrays of the sizes 1, 2, 3, ..., so that
//! subarray `i` starts at the triangular number `i * (i + 1) / 2`. Each
//! subarray holds a run of consecutive ranks as a sorted array rotated by a
//! pivot offset, and the minimum of each subarray is cached. A value is found
//! by binary search over the cached minima and inside one subarray; an
//! insertion or a removal shifts elements inside one subarray and then moves
//! one element across each later subarray, which costs a constant amount of
//! work per subarray.
//!
//! The contracts speak of a set through its view, the sequence of its
//! elements in ascending order. The elements have to be totally ordered by
//! their `Ord` implementation, which [`order::total_order`] states.
//!
//! - [`partition`], [`layout`]: where ranks lie in the array.
//! - [`order`], [`sorted`], [`vec_util`]: the order of the elements,
//!   ascending sequences, binary search, moves inside a vector.
//! - [`set`], [`locate`]: the container, its invariant, its queries.
//! - [`insert`] with [`exchange`], [`remove`] with [`withdraw`]: the two
//!   mutators and what their steps do to the ranks.
//! - [`bulk`]: truncation and the conversions from and to vectors.
//! - [`iter`], [`span`]: iteration over the set and over spans of it.
//! - [`algebra`] with [`merge`]: difference, symmetric difference,
//!   intersection and union.
//! - [`validate`]: a check of the invariant at run time.
//! - [`laws`]: what holds of the operations taken together.
//! - [`trusted`]: the two calls whose contracts are not proved here.

pub mod algebra;
pub mod bulk;
pub mod exchange;
pub mod insert;
pub mod iter;
pub mod laws;
pub mod layout;
pub mod locate;
pub mod merge;
pub mod order;
pub mod partition;
pub mod remove;
pub mod set;
pub mod sorted;
pub mod span;
pub mod trusted;
pub mod validate;
pub mod vec_util;
pub mod withdraw;

pub use algebra::{Difference, Intersection, SymmetricDifference, Union};
pub use iter::{Bound, IntoIter, Iter};
pub use set::RotatedArraySet;
