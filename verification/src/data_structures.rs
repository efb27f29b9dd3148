//! Data structures.

pub mod list;
pub mod lists;
