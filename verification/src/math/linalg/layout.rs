//! Shapes, strides and the arithmetic that maps a multi-index to a buffer
//! position and back.
//!
//! Everything here is stated over sequences of mathematical integers; the
//! executable functions work on `Vec<usize>` and are tied to that model by
//! [`ints`].

use vstd::arithmetic::div_mod::{lemma_fundamental_div_mod, lemma_fundamental_div_mod_converse};
use vstd::prelude::*;
use vstd::seq_lib::{commutative_foldr, group_to_multiset_ensures, lemma_fold_right_permutation};

verus! {

/// The mathematical value of a vector of extents, steps or coordinates.
pub open spec fn ints(v: Seq<usize>) -> Seq<int> {
    v.map_values(|x: usize| x as int)
}

/// Every entry is at least 1.
pub open spec fn all_positive(s: Seq<int>) -> bool {
    forall|i: int| 0 <= i < s.len() ==> #[trigger] s[i] >= 1
}

/// Product of the entries `s[from..]`; 1 where that range is empty.
pub open spec fn product_from(s: Seq<int>, from: int) -> int
    decreases s.len() - from,
{
    if from < 0 || from >= s.len() {
        1
    } else {
        s[from] * product_from(s, from + 1)
    }
}

/// Sum of the entries `s[from..]`; 0 where that range is empty.
pub open spec fn sum_from(s: Seq<int>, from: int) -> int
    decreases s.len() - from,
{
    if from < 0 || from >= s.len() {
        0
    } else {
        s[from] + sum_from(s, from + 1)
    }
}

/// Number of elements of an array with extents `shape`: the product of all
/// extents, which is 1 for rank 0.
pub open spec fn element_count(shape: Seq<int>) -> int {
    product_from(shape, 0)
}

/// Row-major strides: the step of axis `i` is the product of the extents of
/// all later axes, so the last axis has step 1.
pub open spec fn row_major_strides(shape: Seq<int>) -> Seq<int> {
    Seq::new(shape.len(), |i: int| product_from(shape, i + 1))
}

/// Per-axis contributions `index[k] * stride[k]` to a buffer position.
pub open spec fn steps(index: Seq<int>, stride: Seq<int>) -> Seq<int> {
    Seq::new(index.len(), |k: int| index[k] * stride[k])
}

/// Buffer position of a multi-index: its dot product with the strides.
pub open spec fn offset(index: Seq<int>, stride: Seq<int>) -> int {
    sum_from(steps(index, stride), 0)
}

/// `index` has one coordinate per axis and each lies inside its extent.
pub open spec fn in_bounds(index: Seq<int>, shape: Seq<int>) -> bool {
    &&& index.len() == shape.len()
    &&& forall|k: int| 0 <= k < index.len() ==> 0 <= #[trigger] index[k] < shape[k]
}

/// The multi-index of the last element: `shape[k] - 1` on every axis.
pub open spec fn last_index(shape: Seq<int>) -> Seq<int> {
    Seq::new(shape.len(), |k: int| shape[k] - 1)
}

/// What is left of `flat` after the axes before `axis` have taken their
/// coordinates out of it, one after the other in stored order.
pub open spec fn remaining(flat: int, stride: Seq<int>, axis: int) -> int
    decreases axis,
{
    if axis <= 0 {
        flat
    } else {
        remaining(flat, stride, axis - 1) % stride[axis - 1]
    }
}

/// Decomposition of a flat position into per-axis coordinates: axis by
/// axis in stored order, the coordinate is the quotient of what remains by
/// the axis's step, and the remainder is carried to the next axis.
pub open spec fn decompose(flat: int, stride: Seq<int>) -> Seq<int> {
    Seq::new(stride.len(), |axis: int| remaining(flat, stride, axis) / stride[axis])
}

/// Each step exceeds the largest position that the later axes can reach
/// together. This is what makes decomposition by `stride` invert
/// [`offset`].
pub open spec fn dominant(shape: Seq<int>, stride: Seq<int>) -> bool {
    &&& shape.len() == stride.len()
    &&& forall|k: int|
        0 <= k < shape.len() ==> sum_from(steps(last_index(shape), stride), k + 1)
            < #[trigger] stride[k]
}

/// A product of positive extents is positive.
pub proof fn lemma_product_positive(s: Seq<int>, from: int)
    requires
        all_positive(s),
    ensures
        product_from(s, from) >= 1,
    decreases s.len() - from,
{
    if 0 <= from < s.len() {
        lemma_product_positive(s, from + 1);
        let head = s[from];
        let tail = product_from(s, from + 1);
        assert(head * tail >= 1) by (nonlinear_arith)
            requires
                head >= 1,
                tail >= 1,
        ;
    }
}

/// With positive extents, leaving out leading axes never enlarges the
/// product.
pub proof fn lemma_product_monotone(s: Seq<int>, i: int, j: int)
    requires
        all_positive(s),
        0 <= i <= j,
    ensures
        1 <= product_from(s, j) <= product_from(s, i),
    decreases j - i,
{
    lemma_product_positive(s, j);
    if i < j && i < s.len() {
        lemma_product_monotone(s, i + 1, j);
        let head = s[i];
        let tail = product_from(s, i + 1);
        assert(head * tail >= tail) by (nonlinear_arith)
            requires
                head >= 1,
                tail >= 1,
        ;
    }
}

/// A sum of non-negative entries is non-negative and does not grow when
/// leading entries are left out.
pub proof fn lemma_sum_monotone(s: Seq<int>, i: int, j: int)
    requires
        forall|k: int| 0 <= k < s.len() ==> #[trigger] s[k] >= 0,
        0 <= i <= j,
    ensures
        0 <= sum_from(s, j) <= sum_from(s, i),
    decreases s.len() - i,
{
    if i < s.len() {
        lemma_sum_monotone(s, i + 1, if j > i { j } else { i + 1 });
    }
}

/// Entry by entry, a smaller sequence has the smaller sum.
pub proof fn lemma_sum_ordered(a: Seq<int>, b: Seq<int>, from: int)
    requires
        a.len() == b.len(),
        forall|k: int| 0 <= k < a.len() ==> #[trigger] a[k] <= b[k],
    ensures
        sum_from(a, from) <= sum_from(b, from),
    decreases a.len() - from,
{
    if 0 <= from < a.len() {
        lemma_sum_ordered(a, b, from + 1);
    }
}

/// No multi-index inside `shape` reaches further than the last one.
pub proof fn lemma_offset_bounded(index: Seq<int>, shape: Seq<int>, stride: Seq<int>, from: int)
    requires
        in_bounds(index, shape),
        shape.len() == stride.len(),
        forall|k: int| 0 <= k < stride.len() ==> #[trigger] stride[k] >= 0,
        0 <= from,
    ensures
        0 <= sum_from(steps(index, stride), from) <= sum_from(
            steps(last_index(shape), stride),
            from,
        ),
        sum_from(steps(index, stride), from) <= offset(index, stride),
{
    let a = steps(index, stride);
    let b = steps(last_index(shape), stride);
    assert forall|k: int| 0 <= k < a.len() implies 0 <= #[trigger] a[k] <= b[k] by {
        let m = index[k];
        let e = shape[k];
        let t = stride[k];
        assert(0 <= m * t <= (e - 1) * t) by (nonlinear_arith)
            requires
                0 <= m < e,
                t >= 0,
        ;
    }
    lemma_sum_ordered(a, b, from);
    lemma_sum_monotone(a, 0, from);
}

/// In a row-major layout the last multi-index of the axes `from..` lies
/// one below the number of elements that those axes span.
pub proof fn lemma_row_major_reach(shape: Seq<int>, from: int)
    requires
        all_positive(shape),
        0 <= from,
    ensures
        sum_from(steps(last_index(shape), row_major_strides(shape)), from) == product_from(
            shape,
            from,
        ) - 1,
    decreases shape.len() - from,
{
    if from < shape.len() {
        lemma_row_major_reach(shape, from + 1);
        let e = shape[from];
        let tail = product_from(shape, from + 1);
        assert((e - 1) * tail + (tail - 1) == e * tail - 1) by (nonlinear_arith);
    }
}

/// Row-major strides of positive extents are positive and dominant, they
/// end in 1, their last multi-index addresses the last element, and no
/// one of them exceeds the element count.
pub proof fn lemma_row_major_properties(shape: Seq<int>)
    requires
        all_positive(shape),
    ensures
        all_positive(row_major_strides(shape)),
        shape.len() > 0 ==> row_major_strides(shape).last() == 1,
        shape.len() > 0 ==> row_major_strides(shape).contains(1),
        dominant(shape, row_major_strides(shape)),
        offset(last_index(shape), row_major_strides(shape)) + 1 == element_count(shape),
        forall|i: int|
            0 <= i <= shape.len() ==> 1 <= #[trigger] product_from(shape, i) <= element_count(
                shape,
            ),
{
    let rm = row_major_strides(shape);
    assert forall|k: int| 0 <= k < rm.len() implies #[trigger] rm[k] >= 1 && sum_from(
        steps(last_index(shape), rm),
        k + 1,
    ) < rm[k] by {
        lemma_product_positive(shape, k + 1);
        lemma_row_major_reach(shape, k + 1);
    }
    lemma_row_major_reach(shape, 0);
    if shape.len() > 0 {
        assert(rm[shape.len() - 1] == 1);
    }
    assert forall|i: int| 0 <= i <= shape.len() implies 1 <= #[trigger] product_from(shape, i)
        <= element_count(shape) by {
        lemma_product_monotone(shape, 0, i);
    }
}

/// What remains after any number of axes lies between 0 and `flat`, and
/// below the step of the axis taken last.
pub proof fn lemma_remaining_bounds(flat: int, stride: Seq<int>, axis: int)
    requires
        flat >= 0,
        all_positive(stride),
        0 <= axis <= stride.len(),
    ensures
        0 <= remaining(flat, stride, axis) <= flat,
        axis > 0 ==> remaining(flat, stride, axis) < stride[axis - 1],
    decreases axis,
{
    if axis > 0 {
        lemma_remaining_bounds(flat, stride, axis - 1);
        let r = remaining(flat, stride, axis - 1);
        let t = stride[axis - 1];
        lemma_fundamental_div_mod(r, t);
        assert(0 <= r % t < t && r % t <= r) by (nonlinear_arith)
            requires
                r >= 0,
                t >= 1,
                r == t * (r / t) + (r % t),
        ;
    }
}

/// Once an axis of step 1 has taken its coordinate, nothing remains.
pub proof fn lemma_remaining_after_unit(flat: int, stride: Seq<int>, unit: int, axis: int)
    requires
        all_positive(stride),
        0 <= unit < axis <= stride.len(),
        stride[unit] == 1,
    ensures
        remaining(flat, stride, axis) == 0,
    decreases axis,
{
    let t = stride[axis - 1];
    if axis - 1 > unit {
        lemma_remaining_after_unit(flat, stride, unit, axis - 1);
        assert(0int % t == 0) by (nonlinear_arith)
            requires
                t >= 1,
        ;
    } else {
        let r = remaining(flat, stride, axis - 1);
        assert(r % 1 == 0);
    }
}

/// Recomposing the coordinates of the axes `from..` gives back what
/// remained before them, less what remains after the last axis.
pub proof fn lemma_recompose(flat: int, stride: Seq<int>, from: int)
    requires
        all_positive(stride),
        0 <= from <= stride.len(),
    ensures
        sum_from(steps(decompose(flat, stride), stride), from) + remaining(
            flat,
            stride,
            stride.len() as int,
        ) == remaining(flat, stride, from),
    decreases stride.len() - from,
{
    if from < stride.len() {
        lemma_recompose(flat, stride, from + 1);
        let r = remaining(flat, stride, from);
        let t = stride[from];
        lemma_fundamental_div_mod(r, t);
        assert((r / t) * t == t * (r / t)) by (nonlinear_arith);
    }
}

/// Under dominant strides, what remains of a position after `axis` axes is
/// exactly what the later coordinates contributed to it.
pub proof fn lemma_remaining_of_offset(
    index: Seq<int>,
    shape: Seq<int>,
    stride: Seq<int>,
    axis: int,
)
    requires
        in_bounds(index, shape),
        dominant(shape, stride),
        all_positive(stride),
        0 <= axis <= shape.len(),
    ensures
        remaining(offset(index, stride), stride, axis) == sum_from(steps(index, stride), axis),
    decreases axis,
{
    if axis > 0 {
        lemma_remaining_of_offset(index, shape, stride, axis - 1);
        lemma_offset_bounded(index, shape, stride, axis);
        let t = stride[axis - 1];
        let tail = sum_from(steps(index, stride), axis);
        let whole = sum_from(steps(index, stride), axis - 1);
        assert(whole == index[axis - 1] * t + tail);
        lemma_fundamental_div_mod_converse(whole, t, index[axis - 1], tail);
    }
}

/// Round trip: with dominant strides, decomposing the position of a
/// multi-index inside `shape` gives the multi-index back.
pub proof fn lemma_decompose_inverts_offset(index: Seq<int>, shape: Seq<int>, stride: Seq<int>)
    requires
        in_bounds(index, shape),
        dominant(shape, stride),
        all_positive(stride),
    ensures
        decompose(offset(index, stride), stride) == index,
{
    let flat = offset(index, stride);
    let back = decompose(flat, stride);
    assert forall|axis: int| 0 <= axis < index.len() implies back[axis] == index[axis] by {
        lemma_remaining_of_offset(index, shape, stride, axis);
        lemma_offset_bounded(index, shape, stride, axis + 1);
        let t = stride[axis];
        let tail = sum_from(steps(index, stride), axis + 1);
        let whole = sum_from(steps(index, stride), axis);
        assert(whole == index[axis] * t + tail);
        lemma_fundamental_div_mod_converse(whole, t, index[axis], tail);
    }
    assert(back =~= index);
}

/// Decomposing a position below the element count by the row-major strides
/// of `shape` gives a multi-index inside `shape`.
pub proof fn lemma_row_major_decompose_in_bounds(flat: int, shape: Seq<int>)
    requires
        all_positive(shape),
        0 <= flat < element_count(shape),
    ensures
        in_bounds(decompose(flat, row_major_strides(shape)), shape),
{
    let rm = row_major_strides(shape);
    let coords = decompose(flat, rm);
    lemma_row_major_properties(shape);
    assert forall|k: int| 0 <= k < coords.len() implies 0 <= #[trigger] coords[k] < shape[k] by {
        lemma_remaining_bounds(flat, rm, k);
        let r = remaining(flat, rm, k);
        let t = rm[k];
        let e = shape[k];
        assert(r < e * t);
        lemma_fundamental_div_mod(r, t);
        assert(0 <= r / t < e) by (nonlinear_arith)
            requires
                0 <= r < e * t,
                t >= 1,
                r == t * (r / t) + (r % t),
                0 <= r % t < t,
        ;
    }
}

/// `axes` names each of the axes `0..axes.len()` exactly once.
pub open spec fn is_permutation(axes: Seq<int>) -> bool {
    &&& forall|i: int| 0 <= i < axes.len() ==> 0 <= #[trigger] axes[i] < axes.len()
    &&& forall|i: int, j: int| 0 <= i < j < axes.len() ==> axes[i] != axes[j]
}

/// The sequence whose entry `i` is entry `axes[i]` of `s`.
pub open spec fn permuted(s: Seq<int>, axes: Seq<int>) -> Seq<int> {
    Seq::new(axes.len(), |i: int| s[axes[i]])
}

/// The permutation that reverses the order of `rank` axes.
pub open spec fn reversal(rank: nat) -> Seq<int> {
    Seq::new(rank, |i: int| rank - 1 - i)
}

/// Reversing a sequence is permuting it by [`reversal`].
pub proof fn lemma_reversal(s: Seq<int>)
    ensures
        is_permutation(reversal(s.len())),
        permuted(s, reversal(s.len())) == s.reverse(),
{
    assert(permuted(s, reversal(s.len())) =~= s.reverse());
}

/// A permuted sequence holds the same entries, each as often as before.
pub proof fn lemma_permuted_multiset(s: Seq<int>, axes: Seq<int>)
    requires
        is_permutation(axes),
        axes.len() == s.len(),
    ensures
        permuted(s, axes).to_multiset() == s.to_multiset(),
    decreases s.len(),
{
    broadcast use group_to_multiset_ensures;

    let p = permuted(s, axes);
    if s.len() == 0 {
        assert(p =~= s);
    } else {
        let n = s.len() as int;
        let k = axes[n - 1];
        let rest = s.remove(k);
        let rest_axes = Seq::new(
            (n - 1) as nat,
            |i: int|
                if axes[i] > k {
                    axes[i] - 1
                } else {
                    axes[i]
                },
        );
        assert forall|i: int| 0 <= i < n - 1 implies axes[i] != k by {
            assert(axes[i] != axes[n - 1]);
        }
        assert(is_permutation(rest_axes)) by {
            assert forall|i: int, j: int| 0 <= i < j < rest_axes.len() implies rest_axes[i]
                != rest_axes[j] by {
                assert(axes[i] != axes[j]);
            }
        }
        lemma_permuted_multiset(rest, rest_axes);
        assert(permuted(rest, rest_axes) =~= p.drop_last());
        assert(p =~= p.drop_last().push(s[k]));
        assert(s.to_multiset().count(s[k]) > 0);
        assert(s.to_multiset() =~= rest.to_multiset().insert(s[k]));
    }
}

/// [`sum_from`] across the whole sequence is a right fold with `+`.
pub proof fn lemma_sum_is_fold(s: Seq<int>, from: int)
    requires
        0 <= from <= s.len(),
    ensures
        sum_from(s, from) == s.subrange(from, s.len() as int).fold_right(
            |x: int, acc: int| x + acc,
            0,
        ),
    decreases s.len() - from,
{
    let f = |x: int, acc: int| x + acc;
    let tail = s.subrange(from, s.len() as int);
    tail.lemma_fold_right_alt(f, 0);
    if from < s.len() {
        lemma_sum_is_fold(s, from + 1);
        let next = s.subrange(from + 1, s.len() as int);
        next.lemma_fold_right_alt(f, 0);
        assert(tail.subrange(1, tail.len() as int) =~= next);
    }
}

/// [`product_from`] across the whole sequence is a right fold with `*`.
pub proof fn lemma_product_is_fold(s: Seq<int>, from: int)
    requires
        0 <= from <= s.len(),
    ensures
        product_from(s, from) == s.subrange(from, s.len() as int).fold_right(
            |x: int, acc: int| x * acc,
            1,
        ),
    decreases s.len() - from,
{
    let f = |x: int, acc: int| x * acc;
    let tail = s.subrange(from, s.len() as int);
    tail.lemma_fold_right_alt(f, 1);
    if from < s.len() {
        lemma_product_is_fold(s, from + 1);
        let next = s.subrange(from + 1, s.len() as int);
        next.lemma_fold_right_alt(f, 1);
        assert(tail.subrange(1, tail.len() as int) =~= next);
    }
}

/// Sum and product do not depend on the order of the entries.
pub proof fn lemma_permuted_sum_product(s: Seq<int>, axes: Seq<int>)
    requires
        is_permutation(axes),
        axes.len() == s.len(),
    ensures
        sum_from(permuted(s, axes), 0) == sum_from(s, 0),
        product_from(permuted(s, axes), 0) == product_from(s, 0),
{
    let p = permuted(s, axes);
    let plus = |x: int, acc: int| x + acc;
    let times = |x: int, acc: int| x * acc;
    lemma_permuted_multiset(s, axes);
    lemma_sum_is_fold(s, 0);
    lemma_sum_is_fold(p, 0);
    lemma_product_is_fold(s, 0);
    lemma_product_is_fold(p, 0);
    assert(s.subrange(0, s.len() as int) =~= s);
    assert(p.subrange(0, p.len() as int) =~= p);
    assert(commutative_foldr(plus));
    assert(commutative_foldr(times)) by {
        assert forall|x: int, y: int, v: int| #[trigger] times(x, times(y, v)) == times(
            y,
            times(x, v),
        ) by {
            assert(x * (y * v) == y * (x * v)) by (nonlinear_arith);
        }
    }
    lemma_fold_right_permutation(p, s, plus, 0);
    lemma_fold_right_permutation(p, s, times, 1);
}

/// Permuting the axes of a multi-index and of the strides alike leaves the
/// addressed position where it was.
pub proof fn lemma_permuted_offset(index: Seq<int>, stride: Seq<int>, axes: Seq<int>)
    requires
        is_permutation(axes),
        axes.len() == index.len(),
        axes.len() == stride.len(),
    ensures
        offset(permuted(index, axes), permuted(stride, axes)) == offset(index, stride),
{
    assert(steps(permuted(index, axes), permuted(stride, axes)) =~= permuted(
        steps(index, stride),
        axes,
    ));
    lemma_permuted_sum_product(steps(index, stride), axes);
}

/// A zero extent makes every product that includes it zero.
pub proof fn lemma_product_zero(s: Seq<int>, from: int, zero: int)
    requires
        0 <= from <= zero < s.len(),
        s[zero] == 0,
    ensures
        product_from(s, from) == 0,
    decreases zero - from,
{
    if from < zero {
        lemma_product_zero(s, from + 1, zero);
        let head = s[from];
        assert(head * 0 == 0) by (nonlinear_arith);
    } else {
        let tail = product_from(s, from + 1);
        assert(0 * tail == 0) by (nonlinear_arith);
    }
}

/// Position of the first zero extent, if there is one.
pub fn first_zero(shape: &Vec<usize>) -> (found: Option<usize>)
    ensures
        match found {
            Some(axis) => axis < shape.len() && shape[axis as int] == 0 && forall|k: int|
                0 <= k < axis ==> shape[k] != 0,
            None => all_positive(ints(shape@)),
        },
{
    let mut axis: usize = 0;
    while axis < shape.len()
        invariant
            axis <= shape.len(),
            forall|k: int| 0 <= k < axis ==> shape[k] != 0,
        decreases shape.len() - axis,
    {
        if shape[axis] == 0 {
            return Some(axis);
        }
        axis += 1;
    }
    proof {
        let s = ints(shape@);
        assert forall|k: int| 0 <= k < s.len() implies #[trigger] s[k] >= 1 by {
            assert(shape[k] != 0);
        }
    }
    None
}

/// Number of elements that `shape` spans, or `None` where that number does
/// not fit in a `usize`.
pub fn count_elements(shape: &Vec<usize>) -> (count: Option<usize>)
    ensures
        element_count(ints(shape@)) <= usize::MAX ==> count == Some(
            element_count(ints(shape@)) as usize,
        ),
        element_count(ints(shape@)) > usize::MAX ==> count.is_none(),
{
    let ghost s = ints(shape@);
    match first_zero(shape) {
        Some(axis) => {
            proof {
                lemma_product_zero(s, 0, axis as int);
            }
            Some(0)
        },
        None => {
            let mut from: usize = shape.len();
            let mut count: usize = 1;
            while from > 0
                invariant
                    from <= shape.len(),
                    s == ints(shape@),
                    all_positive(s),
                    count == product_from(s, from as int),
                decreases from,
            {
                from -= 1;
                proof {
                    lemma_product_monotone(s, 0, from as int);
                    assert(s[from as int] == shape[from as int]);
                }
                match shape[from].checked_mul(count) {
                    Some(wider) => {
                        count = wider;
                    },
                    None => {
                        return None;
                    },
                }
            }
            Some(count)
        },
    }
}

/// Row-major strides of `v`: entry `i` is the product of `v[i + 1..]`.
pub fn calculate_stride(v: &Vec<usize>) -> (strides: Vec<usize>)
    requires
        forall|i: int| 1 <= i <= v.len() ==> #[trigger] product_from(ints(v@), i) <= usize::MAX,
    ensures
        ints(strides@) == row_major_strides(ints(v@)),
{
    let ghost s = ints(v@);
    let n = v.len();
    let mut strides: Vec<usize> = Vec::new();
    while strides.len() < n
        invariant
            strides.len() <= n,
            forall|j: int| 0 <= j < strides.len() ==> strides[j] == 1,
        decreases n - strides.len(),
    {
        strides.push(1);
    }
    if n > 0 {
        let mut i: usize = n - 1;
        while i > 0
            invariant
                i < n,
                n == v.len(),
                strides.len() == n,
                s == ints(v@),
                forall|j: int| 1 <= j <= n ==> #[trigger] product_from(s, j) <= usize::MAX,
                forall|j: int| i <= j < n ==> strides[j] == product_from(s, j + 1),
            decreases i,
        {
            proof {
                assert(s[i as int] == v[i as int]);
                assert(product_from(s, i as int) == s[i as int] * product_from(s, i + 1));
            }
            let step = v[i] * strides[i];
            strides.set(i - 1, step);
            i -= 1;
        }
    }
    proof {
        assert(ints(strides@) =~= row_major_strides(s));
    }
    strides
}

/// Buffer position that `index` addresses under `stride`: their dot
/// product.
pub fn position_of(index: &Vec<usize>, stride: &Vec<usize>) -> (position: usize)
    requires
        index.len() == stride.len(),
        offset(ints(index@), ints(stride@)) <= usize::MAX,
    ensures
        position == offset(ints(index@), ints(stride@)),
{
    let ghost terms = steps(ints(index@), ints(stride@));
    proof {
        assert forall|k: int| 0 <= k < terms.len() implies #[trigger] terms[k] >= 0 by {
            let m = index[k];
            let t = stride[k];
            assert(m * t >= 0) by (nonlinear_arith)
                requires
                    m >= 0,
                    t >= 0,
            ;
        }
    }
    let mut axis: usize = index.len();
    let mut position: usize = 0;
    while axis > 0
        invariant
            axis <= index.len(),
            index.len() == stride.len(),
            terms == steps(ints(index@), ints(stride@)),
            forall|k: int| 0 <= k < terms.len() ==> #[trigger] terms[k] >= 0,
            sum_from(terms, 0) <= usize::MAX,
            position == sum_from(terms, axis as int),
        decreases axis,
    {
        axis -= 1;
        proof {
            lemma_sum_monotone(terms, 0, axis as int);
            lemma_sum_monotone(terms, axis as int + 1, axis as int + 1);
            assert(terms[axis as int] == index[axis as int] * stride[axis as int]);
        }
        position = position + index[axis] * stride[axis];
    }
    position
}

/// Coordinates of the flat position `flat` under `stride`: axis by axis in
/// stored order, quotient by the step, remainder carried on.
pub fn coordinates_of(flat: usize, stride: &Vec<usize>) -> (coords: Vec<usize>)
    requires
        all_positive(ints(stride@)),
    ensures
        ints(coords@) == decompose(flat as int, ints(stride@)),
{
    let ghost t = ints(stride@);
    let mut coords: Vec<usize> = Vec::new();
    let mut rest: usize = flat;
    let mut axis: usize = 0;
    while axis < stride.len()
        invariant
            axis <= stride.len(),
            coords.len() == axis,
            t == ints(stride@),
            all_positive(t),
            rest == remaining(flat as int, t, axis as int),
            forall|k: int| 0 <= k < axis ==> coords[k] == decompose(flat as int, t)[k],
        decreases stride.len() - axis,
    {
        let step = stride[axis];
        proof {
            assert(t[axis as int] >= 1);
        }
        coords.push(rest / step);
        rest = rest % step;
        axis += 1;
    }
    proof {
        assert(ints(coords@) =~= decompose(flat as int, t));
    }
    coords
}

/// Whether `axes` names each of the axes `0..axes.len()` exactly once.
pub fn is_axis_permutation(axes: &Vec<usize>) -> (ok: bool)
    ensures
        ok == is_permutation(ints(axes@)),
{
    let ghost a = ints(axes@);
    let n = axes.len();
    let mut seen: Vec<bool> = Vec::new();
    while seen.len() < n
        invariant
            seen.len() <= n,
            forall|v: int| 0 <= v < seen.len() ==> !seen[v],
        decreases n - seen.len(),
    {
        seen.push(false);
    }
    let mut i: usize = 0;
    while i < n
        invariant
            i <= n,
            n == axes.len(),
            seen.len() == n,
            a == ints(axes@),
            forall|k: int| 0 <= k < i ==> 0 <= #[trigger] a[k] < n,
            forall|k: int, l: int| 0 <= k < l < i ==> a[k] != a[l],
            forall|v: int| 0 <= v < n && seen[v] ==> exists|k: int| 0 <= k < i && a[k] == v,
            forall|k: int| 0 <= k < i ==> seen[#[trigger] a[k]],
        decreases n - i,
    {
        let axis = axes[i];
        proof {
            assert(a[i as int] == axis);
        }
        if axis >= n {
            return false;
        }
        if seen[axis] {
            proof {
                let k = choose|k: int| 0 <= k < i && a[k] == axis as int;
                assert(a[k] == a[i as int]);
            }
            return false;
        }
        seen.set(axis, true);
        i += 1;
    }
    true
}

/// Whether two vectors of extents are the same, entry for entry.
pub fn same_shape(a: &Vec<usize>, b: &Vec<usize>) -> (same: bool)
    ensures
        same == (ints(a@) == ints(b@)),
{
    if a.len() != b.len() {
        proof {
            assert(ints(a@).len() != ints(b@).len());
        }
        return false;
    }
    let mut axis: usize = 0;
    while axis < a.len()
        invariant
            axis <= a.len(),
            a.len() == b.len(),
            forall|k: int| 0 <= k < axis ==> a[k] == b[k],
        decreases a.len() - axis,
    {
        if a[axis] != b[axis] {
            proof {
                assert(ints(a@)[axis as int] != ints(b@)[axis as int]);
            }
            return false;
        }
        axis += 1;
    }
    proof {
        assert(ints(a@) =~= ints(b@));
    }
    true
}

} // verus!
