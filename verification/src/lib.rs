//! A composite-tree traversal engine with pluggable double-dispatch visitors.
//!
//! Heterogeneous nodes (leaves with an intrinsic size, composites with an
//! ordered sequence of children) live in an arena and are traversed
//! depth-first, pre-order, by externally supplied visitors.

pub mod composite;
pub mod visitor;
pub mod laws;
