//! Algorithms.

pub mod sorting;
