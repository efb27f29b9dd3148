//! Linear algebra: a dense array of arbitrary rank with strided addressing.

pub mod layout;
pub mod laws;
pub mod matrix;

use vstd::prelude::*;

verus! {

/// Why an operation on a [`matrix::Matrix`] was refused.
#[derive(Debug, PartialEq, Eq)]
pub enum MatrixError {
    /// A requested shape has an axis of extent 0.
    InvalidShapeError,
    /// The supplied buffer does not hold as many elements as the shape spans.
    DataLengthMismatch { expected: usize, actual: usize },
    /// Coordinate `index` on axis `axis` is not below the extent `bound`.
    IndexOutOfBounds { axis: usize, index: usize, bound: usize },
    /// The flat position `flat` is not below the element count `bound`.
    FlatIndexOutOfBounds { flat: usize, bound: usize },
    /// The operands of an elementwise operation differ in shape.
    ShapeMismatch { shape_a: Vec<usize>, shape_b: Vec<usize> },
    /// Reserved for inversion; no operation of this crate raises it.
    SingularMatrixError,
}

} // verus!
