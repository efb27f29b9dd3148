//! Tree and tree-related algorithms.

use vstd::prelude::*;

verus! {

/// A tree; so far it holds nothing.
pub struct Tree {}

} // verus!
