//! The owned-tree variant of the engine: the same quadtree and the same
//! evolution algorithm, but with exclusively-owned nodes instead of
//! hash-consed handles, and therefore without memoization.

pub mod tree_node;
pub mod tree_universe;
