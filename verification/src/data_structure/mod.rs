//! The trees for range aggregates, a graph kept as lists, and what they
//! share.

pub mod error;
pub mod fenwick;
pub mod graph;
pub mod layout;
pub mod lazy_segtree;
pub mod segtree;

pub use crate::disjoint_set::SetForest;
pub use crate::graph::hld::HeavyLight;
pub use error::IndexOutOfRange;
pub use fenwick::FenwickTree;
pub use graph::Graph;
pub use lazy_segtree::LazySegmentTree;
pub use segtree::SegmentTree;
