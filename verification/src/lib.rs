//! A HashLife engine: Conway's Game of Life on an unbounded grid, sped up by
//! hash-consing quadtree nodes and memoizing the evolution of each subtree.

pub mod coords;
pub mod model;
pub mod node;
pub mod rle;
pub mod treelife;
pub mod universe;

pub use crate::coords::Position;
pub use crate::node::Cell;
pub use crate::universe::Universe;
