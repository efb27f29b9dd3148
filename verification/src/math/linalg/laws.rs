//! What holds between the operations of a matrix, stated over its view.

use super::layout::{
    decompose, dominant, element_count, in_bounds, is_permutation, last_index,
    lemma_decompose_inverts_offset, lemma_offset_bounded, lemma_permuted_offset, lemma_recompose,
    lemma_remaining_after_unit, lemma_reversal, lemma_row_major_decompose_in_bounds,
    lemma_row_major_properties, offset, permuted, product_from, remaining, reversal,
    row_major_strides, steps, sum_from,
};
use super::matrix::MatrixView;
use vstd::prelude::*;

verus! {

/// In a row-major matrix the step of each axis is the product of the
/// extents of all later axes, and the last axis has step 1.
pub proof fn lemma_row_major_strides<T>(v: MatrixView<T>)
    requires
        v.is_row_major(),
    ensures
        v.stride.len() == v.shape.len(),
        v.rank() > 0 ==> v.stride.last() == 1,
        forall|i: int| 0 <= i < v.rank() ==> #[trigger] v.stride[i] == product_from(v.shape, i + 1),
{
}

/// The strides of a valid row-major matrix are dominant.
pub proof fn lemma_row_major_is_dominant<T>(v: MatrixView<T>)
    requires
        v.valid(),
        v.is_row_major(),
    ensures
        dominant(v.shape, v.stride),
{
    lemma_row_major_properties(v.shape);
}

/// Every multi-index inside the shape addresses an element of the buffer.
pub proof fn lemma_element_in_buffer<T>(v: MatrixView<T>, index: Seq<int>)
    requires
        v.valid(),
        in_bounds(index, v.shape),
    ensures
        0 <= offset(index, v.stride) < v.data.len(),
{
    lemma_offset_bounded(index, v.shape, v.stride, 0);
}

/// Round trip: where the strides are dominant, as those of every row-major
/// matrix are, decomposing the position of a multi-index inside the shape
/// gives that multi-index back.
pub proof fn lemma_position_round_trip<T>(v: MatrixView<T>, index: Seq<int>)
    requires
        v.valid(),
        dominant(v.shape, v.stride),
        in_bounds(index, v.shape),
    ensures
        decompose(offset(index, v.stride), v.stride) == index,
{
    lemma_decompose_inverts_offset(index, v.shape, v.stride);
}

/// Dominance is also needed for the round trip: strides that bring every
/// multi-index inside the shape back are dominant.
pub proof fn lemma_round_trip_needs_dominance<T>(v: MatrixView<T>)
    requires
        v.valid(),
        forall|index: Seq<int>| #[trigger]
            in_bounds(index, v.shape) ==> decompose(offset(index, v.stride), v.stride) == index,
    ensures
        dominant(v.shape, v.stride),
{
    let n = v.shape.len() as int;
    let last = last_index(v.shape);
    assert forall|k: int| 0 <= k < n implies sum_from(steps(last, v.stride), k + 1)
        < #[trigger] v.stride[k] by {
        // The multi-index that is 0 up to axis k and last on every later axis.
        let index = Seq::new(
            n as nat,
            |j: int|
                if j <= k {
                    0int
                } else {
                    v.shape[j] - 1
                },
        );
        assert(in_bounds(index, v.shape));
        let a = steps(index, v.stride);
        let b = steps(last, v.stride);
        lemma_tail_agrees(a, b, k + 1);
        lemma_head_vanishes(a, k + 1, 0);
        let flat = offset(index, v.stride);
        assert(flat == sum_from(b, k + 1));
        lemma_offset_bounded(index, v.shape, v.stride, 0);
        lemma_zero_prefix(flat, v.stride, k);
        let t = v.stride[k];
        assert(decompose(flat, v.stride)[k] == 0);
        assert(flat / t == 0);
        assert(flat < t) by (nonlinear_arith)
            requires
                flat >= 0,
                t >= 1,
                flat / t == 0,
        ;
    }
}

/// Sums agree from `from` on where the entries do.
proof fn lemma_tail_agrees(a: Seq<int>, b: Seq<int>, from: int)
    requires
        a.len() == b.len(),
        0 <= from,
        forall|j: int| from <= j < a.len() ==> a[j] == b[j],
    ensures
        sum_from(a, from) == sum_from(b, from),
    decreases a.len() - from,
{
    if from < a.len() {
        lemma_tail_agrees(a, b, from + 1);
    }
}

/// Leading zeros add nothing to a sum.
proof fn lemma_head_vanishes(a: Seq<int>, upto: int, from: int)
    requires
        0 <= from <= upto <= a.len(),
        forall|j: int| 0 <= j < upto ==> a[j] == 0,
    ensures
        sum_from(a, from) == sum_from(a, upto),
    decreases upto - from,
{
    if from < upto {
        lemma_head_vanishes(a, upto, from + 1);
    }
}

/// While the coordinates taken out are 0, everything remains.
proof fn lemma_zero_prefix(flat: int, stride: Seq<int>, axis: int)
    requires
        flat >= 0,
        0 <= axis < stride.len(),
        forall|j: int| 0 <= j < stride.len() ==> #[trigger] stride[j] >= 1,
        forall|j: int| 0 <= j < axis ==> #[trigger] decompose(flat, stride)[j] == 0,
    ensures
        remaining(flat, stride, axis) == flat,
    decreases axis,
{
    if axis > 0 {
        lemma_zero_prefix(flat, stride, axis - 1);
        let t = stride[axis - 1];
        assert(decompose(flat, stride)[axis - 1] == 0);
        assert(flat / t == 0);
        assert(flat % t == flat) by (nonlinear_arith)
            requires
                flat >= 0,
                t >= 1,
                flat / t == 0,
        ;
    }
}

/// Decomposing a flat position by the strides as they stand and
/// recomposing it leads back to that position.
pub proof fn lemma_flat_round_trip<T>(v: MatrixView<T>, flat: int)
    requires
        v.valid(),
        0 <= flat < v.data.len(),
    ensures
        offset(decompose(flat, v.stride), v.stride) == flat,
{
    let t = v.stride;
    lemma_recompose(flat, t, 0);
    if t.len() > 0 {
        lemma_remaining_after_unit(flat, t, t.index_of(1), t.len() as int);
    }
}

/// The `k`-th element in logical order lies in the buffer.
pub proof fn lemma_logical_in_buffer<T>(v: MatrixView<T>, k: int)
    requires
        v.valid(),
        0 <= k < v.data.len(),
    ensures
        in_bounds(decompose(k, row_major_strides(v.shape)), v.shape),
        0 <= offset(decompose(k, row_major_strides(v.shape)), v.stride) < v.data.len(),
{
    lemma_row_major_decompose_in_bounds(k, v.shape);
    lemma_offset_bounded(decompose(k, row_major_strides(v.shape)), v.shape, v.stride, 0);
}

/// In a row-major matrix, logical order is buffer order.
pub proof fn lemma_row_major_logical<T>(v: MatrixView<T>, k: int)
    requires
        v.valid(),
        v.is_row_major(),
        0 <= k < v.data.len(),
    ensures
        v.logical(k) == v.data[k],
{
    lemma_flat_round_trip(v, k);
}

/// Counting the multi-indices inside the shape in logical order reaches
/// each of them: the element at a multi-index is the logical element
/// whose number is the row-major position of that multi-index.
pub proof fn lemma_logical_reaches<T>(v: MatrixView<T>, index: Seq<int>)
    requires
        v.valid(),
        in_bounds(index, v.shape),
    ensures
        0 <= offset(index, row_major_strides(v.shape)) < element_count(v.shape),
        v.logical(offset(index, row_major_strides(v.shape))) == v.element(index),
{
    let rm = row_major_strides(v.shape);
    lemma_row_major_properties(v.shape);
    lemma_offset_bounded(index, v.shape, rm, 0);
    lemma_decompose_inverts_offset(index, v.shape, rm);
}

/// Transposing twice gives the matrix back: shape, strides and buffer.
pub proof fn lemma_double_transpose<T>(v: MatrixView<T>)
    ensures
        v.transposed().transposed().shape == v.shape,
        v.transposed().transposed().stride == v.stride,
        v.transposed().transposed() == v,
{
    assert(v.shape.reverse().reverse() =~= v.shape);
    assert(v.stride.reverse().reverse() =~= v.stride);
}

/// Transposing keeps a matrix valid.
pub proof fn lemma_transposed_valid<T>(v: MatrixView<T>)
    requires
        v.valid(),
    ensures
        v.transposed().valid(),
{
    super::matrix::lemma_transposed_is_permuted(v);
    super::matrix::lemma_permuted_valid(v, reversal(v.rank()));
}

/// A permuted multi-index addresses in the permuted matrix the element
/// that the multi-index addresses in the matrix itself.
pub proof fn lemma_permuted_element<T>(v: MatrixView<T>, axes: Seq<int>, index: Seq<int>)
    requires
        v.shape.len() == v.stride.len(),
        is_permutation(axes),
        axes.len() == v.rank(),
        index.len() == v.rank(),
    ensures
        in_bounds(index, v.shape) ==> in_bounds(permuted(index, axes), v.permuted(axes).shape),
        v.permuted(axes).element(permuted(index, axes)) == v.element(index),
{
    lemma_permuted_offset(index, v.stride, axes);
}

/// A reversed multi-index addresses in the transposed matrix the element
/// that the multi-index addresses in the matrix itself.
pub proof fn lemma_transposed_element<T>(v: MatrixView<T>, index: Seq<int>)
    requires
        v.shape.len() == v.stride.len(),
        index.len() == v.rank(),
    ensures
        in_bounds(index, v.shape) ==> in_bounds(index.reverse(), v.transposed().shape),
        v.transposed().element(index.reverse()) == v.element(index),
{
    let axes = reversal(v.rank());
    super::matrix::lemma_transposed_is_permuted(v);
    lemma_reversal(index);
    lemma_permuted_element(v, axes, index);
}

} // verus!
