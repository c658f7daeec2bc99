//! Coalesces an unordered stream of integers into the minimal sorted list of
//! disjoint, non-adjacent inclusive ranges that covers it, and reports the
//! gaps that such a set leaves inside a bound.
pub mod discrete;
pub mod spans;
pub mod tree;
pub mod rover;
pub mod laws;

pub use discrete::Discrete;
pub use rover::{missed_in_range, range_rover};
pub use tree::RangeTree;
