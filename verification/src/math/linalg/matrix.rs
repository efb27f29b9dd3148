//! Dense n-dimensional array with row-major construction, strided
//! addressing, axis permutation and elementwise arithmetic.

use super::layout::{
    all_positive, calculate_stride, coordinates_of, count_elements, decompose, element_count,
    first_zero, in_bounds, ints, is_permutation, last_index, lemma_offset_bounded,
    lemma_permuted_multiset, lemma_permuted_offset, lemma_permuted_sum_product,
    lemma_recompose, lemma_remaining_after_unit, lemma_reversal,
    lemma_row_major_decompose_in_bounds, lemma_row_major_properties, offset, permuted, position_of,
    product_from, reversal, row_major_strides, same_shape,
};
use super::MatrixError;
use core::ops::{Add, Sub};
use vstd::prelude::*;
use vstd::seq_lib::group_to_multiset_ensures;
use vstd::std_specs::ops::{AddSpec, SubSpec};

verus! {

/// A dense array of any rank. The elements lie in one flat buffer; the
/// element at a multi-index is found at the dot product of that index with
/// the strides.
#[derive(Debug, PartialEq)]
pub struct Matrix<T> {
    data: Vec<T>,
    shape: Vec<usize>,
    stride: Vec<usize>,
}

/// What a [`Matrix`] is, mathematically.
pub struct MatrixView<T> {
    /// Extent of each axis.
    pub shape: Seq<int>,
    /// Step through the buffer for each axis.
    pub stride: Seq<int>,
    /// The flat buffer.
    pub data: Seq<T>,
}

impl<T> MatrixView<T> {
    /// Number of axes.
    pub open spec fn rank(self) -> nat {
        self.shape.len()
    }

    /// What holds of every matrix: one positive step per positive extent,
    /// a buffer of exactly as many elements as the shape spans, whose last
    /// element is the one that the last multi-index addresses, and, unless
    /// the rank is 0, an axis of step 1.
    pub open spec fn valid(self) -> bool {
        &&& self.shape.len() == self.stride.len()
        &&& all_positive(self.shape)
        &&& all_positive(self.stride)
        &&& self.data.len() == element_count(self.shape)
        &&& offset(last_index(self.shape), self.stride) + 1 == self.data.len()
        &&& (self.shape.len() > 0 ==> self.stride.contains(1))
    }

    /// The strides are the row-major strides of the shape.
    pub open spec fn is_row_major(self) -> bool {
        self.stride == row_major_strides(self.shape)
    }

    /// The element at a multi-index.
    pub open spec fn element(self, index: Seq<int>) -> T {
        self.data[offset(index, self.stride)]
    }

    /// The element that comes `k`-th when the multi-indices inside the
    /// shape are counted with the last axis varying fastest.
    pub open spec fn logical(self, k: int) -> T {
        self.element(decompose(k, row_major_strides(self.shape)))
    }
}

impl<T> MatrixView<T> {
    /// The same buffer seen through permuted axes: axis `i` of the result
    /// is axis `axes[i]` of `self`.
    pub open spec fn permuted(self, axes: Seq<int>) -> Self {
        MatrixView {
            shape: permuted(self.shape, axes),
            stride: permuted(self.stride, axes),
            data: self.data,
        }
    }

    /// The same buffer seen through the axes in reverse order.
    pub open spec fn transposed(self) -> Self {
        MatrixView { shape: self.shape.reverse(), stride: self.stride.reverse(), data: self.data }
    }
}

/// Transposing is permuting by the reversal of the axes.
pub proof fn lemma_transposed_is_permuted<T>(v: MatrixView<T>)
    requires
        v.shape.len() == v.stride.len(),
    ensures
        is_permutation(reversal(v.rank())),
        v.transposed() == v.permuted(reversal(v.rank())),
{
    lemma_reversal(v.shape);
    lemma_reversal(v.stride);
}

/// Permuting the axes of a valid matrix gives a valid matrix.
pub proof fn lemma_permuted_valid<T>(v: MatrixView<T>, axes: Seq<int>)
    requires
        v.valid(),
        is_permutation(axes),
        axes.len() == v.rank(),
    ensures
        v.permuted(axes).valid(),
{
    broadcast use group_to_multiset_ensures;

    let p = v.permuted(axes);
    lemma_permuted_sum_product(v.shape, axes);
    assert(last_index(p.shape) =~= permuted(last_index(v.shape), axes));
    lemma_permuted_offset(last_index(v.shape), v.stride, axes);
    lemma_permuted_multiset(v.stride, axes);
    if v.rank() > 0 {
        assert(v.stride.to_multiset().count(1) > 0);
        assert(p.stride.contains(1));
    }
}

impl<T> View for Matrix<T> {
    type V = MatrixView<T>;

    closed spec fn view(&self) -> MatrixView<T> {
        MatrixView { shape: ints(self.shape@), stride: ints(self.stride@), data: self.data@ }
    }
}

impl<T> Matrix<T> {
    #[verifier::type_invariant]
    spec fn well_formed(self) -> bool {
        self@.valid()
    }

    /// Extent of each axis.
    pub fn shape(&self) -> (shape: &Vec<usize>)
        ensures
            ints(shape@) == self@.shape,
            self@.valid(),
    {
        proof {
            use_type_invariant(self);
        }
        &self.shape
    }

    /// Step through the buffer for each axis.
    pub fn stride(&self) -> (stride: &Vec<usize>)
        ensures
            ints(stride@) == self@.stride,
            self@.valid(),
    {
        proof {
            use_type_invariant(self);
        }
        &self.stride
    }

    /// The flat buffer.
    pub fn data(&self) -> (data: &Vec<T>)
        ensures
            data@ == self@.data,
            self@.valid(),
    {
        proof {
            use_type_invariant(self);
        }
        &self.data
    }
}

impl<T> Matrix<T> {
    /// Number of axes.
    pub fn rank(&self) -> (rank: usize)
        ensures
            rank == self@.rank(),
            self@.valid(),
    {
        proof {
            use_type_invariant(self);
        }
        self.shape.len()
    }

    /// Buffer position of the element at a multi-index, which has one
    /// coordinate per axis. A coordinate outside its extent is refused,
    /// the first such axis being reported.
    pub fn position(&self, index: &Vec<usize>) -> (found: Result<usize, MatrixError>)
        requires
            index.len() == self@.rank(),
        ensures
            match found {
                Ok(p) => {
                    &&& in_bounds(ints(index@), self@.shape)
                    &&& p == offset(ints(index@), self@.stride)
                    &&& p < self@.data.len()
                },
                Err(MatrixError::IndexOutOfBounds { axis, index: coordinate, bound }) => {
                    &&& axis < index.len()
                    &&& coordinate == index[axis as int]
                    &&& bound == self@.shape[axis as int]
                    &&& coordinate >= bound
                    &&& forall|k: int| 0 <= k < axis ==> index[k] < self@.shape[k]
                },
                Err(_) => false,
            },
    {
        proof {
            use_type_invariant(self);
        }
        let mut axis: usize = 0;
        while axis < index.len()
            invariant
                axis <= index.len(),
                index.len() == self.shape.len(),
                forall|k: int| 0 <= k < axis ==> index[k] < self.shape[k],
            decreases index.len() - axis,
        {
            if index[axis] >= self.shape[axis] {
                return Err(
                    MatrixError::IndexOutOfBounds {
                        axis,
                        index: index[axis],
                        bound: self.shape[axis],
                    },
                );
            }
            axis += 1;
        }
        proof {
            let m = ints(index@);
            assert forall|k: int| 0 <= k < m.len() implies 0 <= #[trigger] m[k]
                < self@.shape[k] by {
                assert(index[k] < self.shape[k]);
            }
            lemma_offset_bounded(m, self@.shape, self@.stride, 0);
            assert(self.data.len() == self@.data.len());
        }
        Ok(position_of(index, &self.stride))
    }

    /// The element at a multi-index, which has one coordinate per axis. A
    /// coordinate outside its extent is refused, the first such axis being
    /// reported.
    pub fn at(&self, index: &Vec<usize>) -> (found: Result<&T, MatrixError>)
        requires
            index.len() == self@.rank(),
        ensures
            match found {
                Ok(element) => {
                    &&& in_bounds(ints(index@), self@.shape)
                    &&& *element == self@.element(ints(index@))
                },
                Err(MatrixError::IndexOutOfBounds { axis, index: coordinate, bound }) => {
                    &&& axis < index.len()
                    &&& coordinate == index[axis as int]
                    &&& bound == self@.shape[axis as int]
                    &&& coordinate >= bound
                    &&& forall|k: int| 0 <= k < axis ==> index[k] < self@.shape[k]
                },
                Err(_) => false,
            },
    {
        match self.position(index) {
            Ok(p) => Ok(&self.data[p]),
            Err(e) => Err(e),
        }
    }

    /// Coordinates of a flat position under the strides as they stand:
    /// axis by axis in stored order, the quotient by the step is the
    /// coordinate and the remainder goes on to the next axis.
    pub fn coordinates(&self, flat: usize) -> (coords: Vec<usize>)
        ensures
            ints(coords@) == decompose(flat as int, self@.stride),
    {
        proof {
            use_type_invariant(self);
        }
        coordinates_of(flat, &self.stride)
    }

    /// The element at a flat position of the buffer. The position is
    /// decomposed into coordinates by the strides as they stand and
    /// recomposed from them, which leads back to where it started. A
    /// position that is not below the element count is refused.
    pub fn at_flat(&self, flat: usize) -> (found: Result<&T, MatrixError>)
        ensures
            match found {
                Ok(element) => {
                    &&& flat < self@.data.len()
                    &&& offset(decompose(flat as int, self@.stride), self@.stride) == flat
                    &&& *element == self@.data[flat as int]
                },
                Err(e) => {
                    &&& flat >= self@.data.len()
                    &&& e == (MatrixError::FlatIndexOutOfBounds {
                        flat,
                        bound: self@.data.len() as usize,
                    })
                },
            },
    {
        proof {
            use_type_invariant(self);
        }
        if flat >= self.data.len() {
            return Err(MatrixError::FlatIndexOutOfBounds { flat, bound: self.data.len() });
        }
        let coords = self.coordinates(flat);
        proof {
            let t = self@.stride;
            let n = t.len() as int;
            lemma_recompose(flat as int, t, 0);
            if n > 0 {
                let unit = t.index_of(1);
                lemma_remaining_after_unit(flat as int, t, unit, n);
            }
        }
        let p = position_of(&coords, &self.stride);
        Ok(&self.data[p])
    }

    /// The element that comes `k`-th when the multi-indices inside the
    /// shape are counted with the last axis varying fastest, whatever the
    /// strides are. A `k` that is not below the element count is refused.
    pub fn at_logical(&self, k: usize) -> (found: Result<&T, MatrixError>)
        ensures
            match found {
                Ok(element) => k < self@.data.len() && *element == self@.logical(k as int),
                Err(e) => {
                    &&& k >= self@.data.len()
                    &&& e == (MatrixError::FlatIndexOutOfBounds {
                        flat: k,
                        bound: self@.data.len() as usize,
                    })
                },
            },
    {
        proof {
            use_type_invariant(self);
        }
        if k >= self.data.len() {
            return Err(MatrixError::FlatIndexOutOfBounds { flat: k, bound: self.data.len() });
        }
        let p = self.logical_position(k);
        Ok(&self.data[p])
    }

    /// Buffer position of the `k`-th element in logical order.
    fn logical_position(&self, k: usize) -> (p: usize)
        requires
            k < self@.data.len(),
        ensures
            p == offset(decompose(k as int, row_major_strides(self@.shape)), self@.stride),
            p < self@.data.len(),
    {
        proof {
            use_type_invariant(self);
            let s = self@.shape;
            assert(self.data.len() == self@.data.len());
            lemma_row_major_properties(s);
            lemma_row_major_decompose_in_bounds(k as int, s);
            lemma_offset_bounded(
                decompose(k as int, row_major_strides(s)),
                s,
                self@.stride,
                0,
            );
        }
        let canonical = calculate_stride(&self.shape);
        let coords = coordinates_of(k, &canonical);
        position_of(&coords, &self.stride)
    }
}

impl<T: Clone> Clone for Matrix<T> {
    /// A matrix of the same shape and strides whose buffer is cloned
    /// element by element.
    fn clone(&self) -> (copy: Self)
        ensures
            copy@.valid(),
            copy@.shape == self@.shape,
            copy@.stride == self@.stride,
            copy@.data.len() == self@.data.len(),
            forall|i: int|
                0 <= i < self@.data.len() ==> cloned(self@.data[i], #[trigger] copy@.data[i]),
    {
        proof {
            use_type_invariant(self);
        }
        let shape = self.shape.clone();
        let stride = self.stride.clone();
        let data = self.data.clone();
        proof {
            assert(shape@ =~= self.shape@);
            assert(stride@ =~= self.stride@);
        }
        Matrix { data, shape, stride }
    }
}

impl<T: Default + Clone> Matrix<T> {
    /// A row-major matrix of the given shape in which every element is a
    /// default value of `T`.
    ///
    /// A shape with an axis of extent 0 is refused. The number of elements
    /// has to fit in a `usize`; [`count_elements`] tells.
    pub fn new(shape: Vec<usize>) -> (made: Result<Self, MatrixError>)
        requires
            all_positive(ints(shape@)) ==> element_count(ints(shape@)) <= usize::MAX,
        ensures
            match made {
                Ok(m) => {
                    &&& all_positive(ints(shape@))
                    &&& m@.valid()
                    &&& m@.shape == ints(shape@)
                    &&& m@.stride.len() == shape@.len()
                    &&& m@.is_row_major()
                    &&& m@.data.len() == element_count(ints(shape@))
                    &&& forall|i: int|
                        0 <= i < m@.data.len() ==> call_ensures(T::default, (), #[trigger] m@.data[i])
                },
                Err(e) => !all_positive(ints(shape@)) && e == MatrixError::InvalidShapeError,
            },
    {
        let ghost s = ints(shape@);
        match first_zero(&shape) {
            Some(axis) => {
                proof {
                    assert(s[axis as int] == 0);
                }
                Err(MatrixError::InvalidShapeError)
            },
            None => {
                let count = count_elements(&shape).unwrap();
                let mut data: Vec<T> = Vec::with_capacity(count);
                while data.len() < count
                    invariant
                        data.len() <= count,
                        forall|i: int|
                            0 <= i < data.len() ==> call_ensures(T::default, (), #[trigger] data[i]),
                    decreases count - data.len(),
                {
                    data.push(T::default());
                }
                proof {
                    lemma_row_major_properties(s);
                }
                let stride = calculate_stride(&shape);
                Ok(Matrix { data, shape, stride })
            },
        }
    }

    /// A row-major matrix of the given shape over the given buffer.
    ///
    /// A shape with an axis of extent 0 is refused, and so is a buffer whose
    /// length is not the number of elements that the shape spans. That
    /// number has to fit in a `usize`; [`count_elements`] tells.
    pub fn new_with_data(shape: Vec<usize>, data: Vec<T>) -> (made: Result<Self, MatrixError>)
        requires
            all_positive(ints(shape@)) ==> element_count(ints(shape@)) <= usize::MAX,
        ensures
            match made {
                Ok(m) => {
                    &&& all_positive(ints(shape@))
                    &&& data@.len() == element_count(ints(shape@))
                    &&& m@.valid()
                    &&& m@.shape == ints(shape@)
                    &&& m@.is_row_major()
                    &&& m@.data == data@
                },
                Err(e) => if !all_positive(ints(shape@)) {
                    e == MatrixError::InvalidShapeError
                } else {
                    &&& data@.len() != element_count(ints(shape@))
                    &&& e == (MatrixError::DataLengthMismatch {
                        expected: element_count(ints(shape@)) as usize,
                        actual: data@.len() as usize,
                    })
                },
            },
    {
        let ghost s = ints(shape@);
        match first_zero(&shape) {
            Some(axis) => {
                proof {
                    assert(s[axis as int] == 0);
                }
                Err(MatrixError::InvalidShapeError)
            },
            None => {
                let count = count_elements(&shape).unwrap();
                if data.len() != count {
                    return Err(
                        MatrixError::DataLengthMismatch { expected: count, actual: data.len() },
                    );
                }
                proof {
                    lemma_row_major_properties(s);
                }
                let stride = calculate_stride(&shape);
                Ok(Matrix { data, shape, stride })
            },
        }
    }

    /// The matrix seen through permuted axes: axis `i` of the result is
    /// axis `axes[i]` of `self`. Shape and strides are permuted alike and
    /// the buffer is cloned element by element, in place.
    pub fn permute_axes(&self, axes: &Vec<usize>) -> (seen: Self)
        requires
            is_permutation(ints(axes@)),
            axes.len() == self@.rank(),
        ensures
            seen@.valid(),
            seen@.shape == self@.permuted(ints(axes@)).shape,
            seen@.stride == self@.permuted(ints(axes@)).stride,
            seen@.data.len() == self@.data.len(),
            forall|i: int|
                0 <= i < self@.data.len() ==> cloned(self@.data[i], #[trigger] seen@.data[i]),
    {
        proof {
            use_type_invariant(self);
        }
        let ghost a = ints(axes@);
        let mut shape: Vec<usize> = Vec::new();
        let mut stride: Vec<usize> = Vec::new();
        let mut i: usize = 0;
        while i < axes.len()
            invariant
                i <= axes.len(),
                axes.len() == self.shape.len(),
                self.shape.len() == self.stride.len(),
                a == ints(axes@),
                is_permutation(a),
                shape.len() == i,
                stride.len() == i,
                forall|k: int| 0 <= k < i ==> shape[k] == self.shape[a[k]],
                forall|k: int| 0 <= k < i ==> stride[k] == self.stride[a[k]],
            decreases axes.len() - i,
        {
            let axis = axes[i];
            proof {
                assert(0 <= a[i as int] < a.len());
            }
            shape.push(self.shape[axis]);
            stride.push(self.stride[axis]);
            i += 1;
        }
        let data = self.data.clone();
        proof {
            assert(ints(shape@) =~= permuted(self@.shape, a));
            assert(ints(stride@) =~= permuted(self@.stride, a));
            lemma_permuted_valid(self@, a);
        }
        Matrix { data, shape, stride }
    }

    /// The matrix seen through its axes in reverse order: shape and
    /// strides are reversed and the buffer is cloned element by element,
    /// in place.
    pub fn transpose(&self) -> (seen: Self)
        ensures
            seen@.valid(),
            seen@.shape == self@.transposed().shape,
            seen@.stride == self@.transposed().stride,
            seen@.data.len() == self@.data.len(),
            forall|i: int|
                0 <= i < self@.data.len() ==> cloned(self@.data[i], #[trigger] seen@.data[i]),
    {
        proof {
            use_type_invariant(self);
            lemma_transposed_is_permuted(self@);
        }
        let rank = self.shape.len();
        let mut axes: Vec<usize> = Vec::new();
        while axes.len() < rank
            invariant
                axes.len() <= rank,
                forall|k: int| 0 <= k < axes.len() ==> axes[k] == rank - 1 - k,
            decreases rank - axes.len(),
        {
            axes.push(rank - 1 - axes.len());
        }
        proof {
            assert(ints(axes@) =~= reversal(rank as nat));
        }
        self.permute_axes(&axes)
    }
}

impl<T: Add<Output = T> + Copy> Matrix<T> {
    /// Elementwise sum of two matrices of the same shape, as a fresh
    /// row-major matrix. Each operand is read through its own strides, so
    /// the element at a multi-index of the result is made from the
    /// elements at that multi-index of the operands. Operands of different
    /// shapes are refused.
    pub fn add(self, other: Matrix<T>) -> (made: Result<Matrix<T>, MatrixError>)
        requires
            self@.shape == other@.shape ==> forall|k: int|
                0 <= k < self@.data.len() ==> #[trigger] self@.logical(k).add_req(
                    other@.logical(k),
                ),
        ensures
            match made {
                Ok(m) => {
                    &&& self@.shape == other@.shape
                    &&& m@.valid()
                    &&& m@.shape == self@.shape
                    &&& m@.is_row_major()
                    &&& m@.data.len() == self@.data.len()
                    &&& T::obeys_add_spec() ==> forall|k: int|
                        0 <= k < m@.data.len() ==> #[trigger] m@.data[k] == self@.logical(
                            k,
                        ).add_spec(other@.logical(k))
                },
                Err(MatrixError::ShapeMismatch { shape_a, shape_b }) => {
                    &&& self@.shape != other@.shape
                    &&& ints(shape_a@) == self@.shape
                    &&& ints(shape_b@) == other@.shape
                },
                Err(_) => false,
            },
    {
        proof {
            use_type_invariant(&self);
            use_type_invariant(&other);
        }
        if !same_shape(&self.shape, &other.shape) {
            return Err(MatrixError::ShapeMismatch { shape_a: self.shape, shape_b: other.shape });
        }
        let ghost s = self@.shape;
        let count = self.data.len();
        let mut data: Vec<T> = Vec::new();
        while data.len() < count
            invariant
                data.len() <= count,
                count == self@.data.len(),
                count == other@.data.len(),
                self@.shape == other@.shape,
                forall|k: int|
                    0 <= k < count ==> #[trigger] self@.logical(k).add_req(other@.logical(k)),
                T::obeys_add_spec() ==> forall|k: int|
                    0 <= k < data.len() ==> #[trigger] data[k] == self@.logical(k).add_spec(
                        other@.logical(k),
                    ),
            decreases count - data.len(),
        {
            let k = data.len();
            let left = self.data[self.logical_position(k)];
            let right = other.data[other.logical_position(k)];
            proof {
                assert(self@.logical(k as int).add_req(other@.logical(k as int)));
            }
            data.push(left + right);
        }
        proof {
            lemma_row_major_properties(s);
        }
        let stride = calculate_stride(&self.shape);
        Ok(Matrix { data, shape: self.shape, stride })
    }

    /// The matrix in which `scalar` has been added to every element; shape
    /// and strides stay as they are.
    pub fn add_scalar(self, scalar: T) -> (made: Matrix<T>)
        requires
            forall|i: int| 0 <= i < self@.data.len() ==> #[trigger] self@.data[i].add_req(scalar),
        ensures
            made@.valid(),
            made@.shape == self@.shape,
            made@.stride == self@.stride,
            made@.data.len() == self@.data.len(),
            T::obeys_add_spec() ==> forall|i: int|
                0 <= i < made@.data.len() ==> #[trigger] made@.data[i] == self@.data[i].add_spec(
                    scalar,
                ),
    {
        proof {
            use_type_invariant(&self);
        }
        let count = self.data.len();
        let mut data: Vec<T> = Vec::new();
        while data.len() < count
            invariant
                data.len() <= count,
                count == self@.data.len(),
                forall|i: int| 0 <= i < count ==> #[trigger] self@.data[i].add_req(scalar),
                T::obeys_add_spec() ==> forall|i: int|
                    0 <= i < data.len() ==> #[trigger] data[i] == self@.data[i].add_spec(scalar),
            decreases count - data.len(),
        {
            let element = self.data[data.len()];
            data.push(element + scalar);
        }
        Matrix { data, shape: self.shape, stride: self.stride }
    }
}

impl<T: Sub<Output = T> + Copy> Matrix<T> {
    /// Elementwise difference of two matrices of the same shape, as a fresh
    /// row-major matrix. Each operand is read through its own strides, so
    /// the element at a multi-index of the result is made from the
    /// elements at that multi-index of the operands. Operands of different
    /// shapes are refused.
    pub fn sub(self, other: Matrix<T>) -> (made: Result<Matrix<T>, MatrixError>)
        requires
            self@.shape == other@.shape ==> forall|k: int|
                0 <= k < self@.data.len() ==> #[trigger] self@.logical(k).sub_req(
                    other@.logical(k),
                ),
        ensures
            match made {
                Ok(m) => {
                    &&& self@.shape == other@.shape
                    &&& m@.valid()
                    &&& m@.shape == self@.shape
                    &&& m@.is_row_major()
                    &&& m@.data.len() == self@.data.len()
                    &&& T::obeys_sub_spec() ==> forall|k: int|
                        0 <= k < m@.data.len() ==> #[trigger] m@.data[k] == self@.logical(
                            k,
                        ).sub_spec(other@.logical(k))
                },
                Err(MatrixError::ShapeMismatch { shape_a, shape_b }) => {
                    &&& self@.shape != other@.shape
                    &&& ints(shape_a@) == self@.shape
                    &&& ints(shape_b@) == other@.shape
                },
                Err(_) => false,
            },
    {
        proof {
            use_type_invariant(&self);
            use_type_invariant(&other);
        }
        if !same_shape(&self.shape, &other.shape) {
            return Err(MatrixError::ShapeMismatch { shape_a: self.shape, shape_b: other.shape });
        }
        let ghost s = self@.shape;
        let count = self.data.len();
        let mut data: Vec<T> = Vec::new();
        while data.len() < count
            invariant
                data.len() <= count,
                count == self@.data.len(),
                count == other@.data.len(),
                self@.shape == other@.shape,
                forall|k: int|
                    0 <= k < count ==> #[trigger] self@.logical(k).sub_req(other@.logical(k)),
                T::obeys_sub_spec() ==> forall|k: int|
                    0 <= k < data.len() ==> #[trigger] data[k] == self@.logical(k).sub_spec(
                        other@.logical(k),
                    ),
            decreases count - data.len(),
        {
            let k = data.len();
            let left = self.data[self.logical_position(k)];
            let right = other.data[other.logical_position(k)];
            proof {
                assert(self@.logical(k as int).sub_req(other@.logical(k as int)));
            }
            data.push(left - right);
        }
        proof {
            lemma_row_major_properties(s);
        }
        let stride = calculate_stride(&self.shape);
        Ok(Matrix { data, shape: self.shape, stride })
    }

    /// The matrix in which `scalar` has been subtracted from every element; shape
    /// and strides stay as they are.
    pub fn sub_scalar(self, scalar: T) -> (made: Matrix<T>)
        requires
            forall|i: int| 0 <= i < self@.data.len() ==> #[trigger] self@.data[i].sub_req(scalar),
        ensures
            made@.valid(),
            made@.shape == self@.shape,
            made@.stride == self@.stride,
            made@.data.len() == self@.data.len(),
            T::obeys_sub_spec() ==> forall|i: int|
                0 <= i < made@.data.len() ==> #[trigger] made@.data[i] == self@.data[i].sub_spec(
                    scalar,
                ),
    {
        proof {
            use_type_invariant(&self);
        }
        let count = self.data.len();
        let mut data: Vec<T> = Vec::new();
        while data.len() < count
            invariant
                data.len() <= count,
                count == self@.data.len(),
                forall|i: int| 0 <= i < count ==> #[trigger] self@.data[i].sub_req(scalar),
                T::obeys_sub_spec() ==> forall|i: int|
                    0 <= i < data.len() ==> #[trigger] data[i] == self@.data[i].sub_spec(scalar),
            decreases count - data.len(),
        {
            let element = self.data[data.len()];
            data.push(element - scalar);
        }
        Matrix { data, shape: self.shape, stride: self.stride }
    }
}

} // verus!
