//! Verified algorithm and data-structure building blocks.
//!
//! The centre of the crate is [`math::linalg::matrix::Matrix`], a dense
//! array of arbitrary rank addressed through per-axis strides.

pub mod algorithms;
pub mod data_structures;
pub mod graph;
pub mod math;
