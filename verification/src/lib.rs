//! A lazily allocated segment tree over a fixed range of integer positions.
//!
//! [`SegSum`] holds one element at each position, all `zero` at first, and
//! has three operations that take logarithmic time: add a value to every
//! element of a range, assign a value to every element of a range, and sum
//! the elements of a range. The elements are of any type that implements
//! [`Summable`]: `i64` with wrapping arithmetic, and pairs of such types.
//!
//! The contracts speak of a tree through its view, a map from positions to
//! elements. The module `range` defines the sum over a range of such a map
//! and the two edits, `segsum` holds the tree, `inspect` the records that
//! show a tree's nodes, and `laws` what follows from the contracts for a
//! caller.

pub mod inspect;
pub mod laws;
pub mod range;
pub mod segsum;
pub mod value;

pub use crate::inspect::{depth_counts, NodeInfo};
pub use crate::segsum::{Change, SegSum, N};
pub use crate::value::Summable;
