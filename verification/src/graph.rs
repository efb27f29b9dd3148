//! Graphs.

pub mod tree;
