//! Graph coloring by backtracking search: an exhaustive baseline and a
//! search with forward checking, value ordering and dynamic node ordering.
pub mod algo;
mod color_set;
pub mod graph;

pub use graph::{Graph, VecVecGraph};

use vstd::prelude::*;

verus! {

/// A node is an index below the graph's size.
pub type Node = usize;

/// A color is an index below the color budget.
pub type Color = usize;

} // verus!
