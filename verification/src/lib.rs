//! A binary sort tree and the graphs that can be read off it.
//!
//! The tree keeps distinct keys in search-tree order. Its shape can be
//! written out as an adjacency list, level by level, and walked as a
//! route; a graph given by its edges can be written out the same way. The
//! contracts speak of the tree through its [`shape::Shape`], and the
//! module [`laws`] holds what is true of every such shape.

pub mod adjacency_list;
pub mod binary_sort_tree;
pub mod decimal;
pub mod forest;
pub mod graph;
pub mod key;
pub mod laws;
pub mod linked_list;
pub mod route;
pub mod sample;
pub mod shape;
