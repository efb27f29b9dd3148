//! Mathematical algorithms.

pub mod basic;
pub mod linalg;
