//! Array-backed data structures and algorithms for range aggregates, graphs
//! and strings, with their behaviour stated in contracts and proved.
//!
//! The heart of the crate is a family of three trees over a sequence of
//! fixed length, each generic in the algebra it aggregates with:
//!
//! - [`data_structure::FenwickTree`]: point update, prefix query;
//! - [`data_structure::SegmentTree`]: point update, range query;
//! - [`data_structure::LazySegmentTree`]: range update, range query.
//!
//! Around them stand two graph containers, a union-find forest, a
//! heavy-light decomposition that turns tree paths into index ranges for the
//! trees, powers in a monoid, and string matching.

pub mod data_structure;
pub mod disjoint_set;
pub mod graph;
pub mod math;
pub mod string;
