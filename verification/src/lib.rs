//! Longest simple paths in weighted graphs, by exhaustive backtracking search.

pub mod graph;
pub mod path;
pub mod walk;
pub mod best;
pub mod search;
pub mod laws;
pub mod parallel;
pub mod edge_list;
pub mod limits;

pub use graph::{Edge, Graph, Node};
pub use path::Path;
