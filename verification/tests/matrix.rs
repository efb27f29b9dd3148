use algorithms::math::linalg::layout::{
    calculate_stride, coordinates_of, count_elements, first_zero, is_axis_permutation,
    position_of, same_shape,
};
use algorithms::math::linalg::matrix::Matrix;
use algorithms::math::linalg::MatrixError;

fn setup_matrices() -> Vec<(Vec<usize>, Matrix<i32>)> {
    let s1d: Vec<usize> = vec![5];
    let s2d: Vec<usize> = vec![3, 7];
    let s3d: Vec<usize> = vec![4, 2, 3];

    vec![
        (s1d.clone(), Matrix::new(s1d).unwrap()),
        (s2d.clone(), Matrix::new(s2d).unwrap()),
        (s3d.clone(), Matrix::new(s3d).unwrap()),
    ]
}

fn iota(shape: Vec<usize>) -> Matrix<i32> {
    let n = count_elements(&shape).unwrap() as i32;
    Matrix::new_with_data(shape, (0..n).collect()).unwrap()
}

#[test]
fn test_matrix_new_sizing() {
    let matrices: Vec<(Vec<usize>, Matrix<i32>)> = setup_matrices();

    for (svec, mx) in matrices {
        assert_eq!(*mx.shape(), svec);
        assert_eq!(mx.data().capacity(), svec.iter().fold(1, |t, n| t * n));
    }
}

#[test]
fn test_matrix_indexing() {
    let vec1: Vec<usize> = vec![3, 4, 5];
    let vec1idx: Vec<usize> = calculate_stride(&vec1);
    println!("{:?}, {:?}", vec1idx, vec1);
    assert_eq!(vec1idx, vec![20, 5, 1]);
}

#[test]
fn test_matrix_add_matrix() {
    let a = iota(vec![2, 3]);
    let b = Matrix::new_with_data(vec![2, 3], vec![10, 20, 30, 40, 50, 60]).unwrap();
    let sum = a.add(b).unwrap();
    assert_eq!(*sum.shape(), vec![2, 3]);
    assert_eq!(*sum.stride(), vec![3, 1]);
    assert_eq!(*sum.data(), vec![10, 21, 32, 43, 54, 65]);
}

#[test]
fn test_matrix_transpose() {
    let data: Vec<i32> = (0..30).collect();
    let shape: Vec<usize> = vec![2, 3, 5];
    let m1: Matrix<i32> = Matrix::new_with_data(shape, data).unwrap();

    assert_eq!(
        *m1.data(),
        vec![
            0, 1, 2, 3, 4, 5, 6, 7, 8, 9, 10, 11, 12, 13, 14, 15, 16, 17, 18, 19, 20, 21, 22, 23,
            24, 25, 26, 27, 28, 29
        ]
    );
    assert_eq!(*m1.stride(), vec![15, 5, 1]);

    let m1t: Matrix<i32> = m1.transpose();
    let m1t_data: Vec<i32> = vec![
        0, 15, 5, 20, 10, 25, 1, 16, 6, 21, 11, 26, 2, 17, 7, 22, 12, 27, 3, 18, 8, 23, 13, 28, 4,
        19, 9, 24, 14, 29,
    ];
    assert_eq!(*m1t.shape(), vec![5, 3, 2]);
    assert_eq!(*m1t.stride(), vec![1, 5, 15]);

    for i in 0..30 {
        assert_eq!(*m1t.at_logical(i).unwrap(), m1t_data[i]);
    }

    // Flat access goes by the strides as they stand and so follows the
    // buffer, which the transpose shares with the matrix it came from.
    for i in 0..30 {
        assert_eq!(*m1t.at_flat(i).unwrap(), m1.data()[i]);
        assert_eq!(*m1.at_flat(i).unwrap(), m1t_data[(i % 5) * 6 + ((i / 5) % 3) * 2 + i / 15]);
    }
    assert_eq!(m1t.at_flat(30), Err(MatrixError::FlatIndexOutOfBounds { flat: 30, bound: 30 }));
}

#[test]
fn transposed_elements_sit_at_the_reversed_coordinates() {
    let m = iota(vec![2, 3, 5]);
    let t = m.transpose();
    let expected: Vec<i32> = vec![
        0, 15, 5, 20, 10, 25, 1, 16, 6, 21, 11, 26, 2, 17, 7, 22, 12, 27, 3, 18, 8, 23, 13, 28, 4,
        19, 9, 24, 14, 29,
    ];
    let mut k = 0;
    for a in 0..5 {
        for b in 0..3 {
            for c in 0..2 {
                assert_eq!(*t.at(&vec![a, b, c]).unwrap(), expected[k]);
                assert_eq!(*m.at(&vec![c, b, a]).unwrap(), expected[k]);
                k += 1;
            }
        }
    }
}

#[test]
fn flat_access_follows_the_buffer_after_transpose() {
    let t = iota(vec![2, 3, 5]).transpose();
    for i in 0..30 {
        assert_eq!(*t.at_flat(i).unwrap(), i as i32);
    }
    assert_eq!(t.coordinates(23), vec![23, 0, 0]);
    assert_eq!(t.at_flat(30), Err(MatrixError::FlatIndexOutOfBounds { flat: 30, bound: 30 }));
}

#[test]
fn one_axis() {
    let m: Matrix<i32> = Matrix::new(vec![5]).unwrap();
    assert_eq!(m.data().len(), 5);
    assert_eq!(*m.stride(), vec![1]);
    assert_eq!(*m.data(), vec![0, 0, 0, 0, 0]);
    assert_eq!(m.rank(), 1);
}

#[test]
fn two_axes() {
    let m: Matrix<i32> = Matrix::new(vec![3, 7]).unwrap();
    assert_eq!(*m.stride(), vec![7, 1]);
    assert_eq!(m.data().len(), 21);
}

#[test]
fn three_axes() {
    let m: Matrix<u8> = Matrix::new(vec![4, 2, 3]).unwrap();
    assert_eq!(*m.stride(), vec![6, 3, 1]);
    assert_eq!(m.data().len(), 24);
    assert_eq!(m.stride().len(), m.shape().len());
}

#[test]
fn rank_zero_is_a_single_element() {
    let m: Matrix<i32> = Matrix::new(vec![]).unwrap();
    assert_eq!(m.data().len(), 1);
    assert_eq!(m.stride().len(), 0);
    assert_eq!(*m.at(&vec![]).unwrap(), 0);
    assert_eq!(*m.at_flat(0).unwrap(), 0);
    assert_eq!(m.at_flat(1), Err(MatrixError::FlatIndexOutOfBounds { flat: 1, bound: 1 }));
    let t = m.transpose();
    assert_eq!(t.data().len(), 1);
}

#[test]
fn zero_extent_is_refused() {
    assert_eq!(Matrix::<i32>::new(vec![3, 0, 2]).err(), Some(MatrixError::InvalidShapeError));
    assert_eq!(
        Matrix::<i32>::new_with_data(vec![0], vec![]).err(),
        Some(MatrixError::InvalidShapeError)
    );
    assert_eq!(first_zero(&vec![3, 0, 2, 0]), Some(1));
    assert_eq!(first_zero(&vec![3, 1, 2]), None);
}

#[test]
fn data_length_must_match_the_shape() {
    assert_eq!(
        Matrix::new_with_data(vec![2, 3], vec![1, 2, 3, 4, 5]).err(),
        Some(MatrixError::DataLengthMismatch { expected: 6, actual: 5 })
    );
    assert_eq!(
        Matrix::new_with_data(vec![2, 3], vec![1, 2, 3, 4, 5, 6, 7]).err(),
        Some(MatrixError::DataLengthMismatch { expected: 6, actual: 7 })
    );
    let m = Matrix::new_with_data(vec![2, 3], vec![1, 2, 3, 4, 5, 6]).unwrap();
    assert_eq!(*m.data(), vec![1, 2, 3, 4, 5, 6]);
    assert_eq!(*m.shape(), vec![2, 3]);
}

#[test]
fn out_of_bounds_access_is_refused() {
    let m: Matrix<i32> = Matrix::new(vec![3]).unwrap();
    assert!(m.at(&vec![0]).is_ok());
    assert!(m.at(&vec![2]).is_ok());
    assert_eq!(
        m.at(&vec![3]),
        Err(MatrixError::IndexOutOfBounds { axis: 0, index: 3, bound: 3 })
    );
    assert_eq!(m.at_flat(3), Err(MatrixError::FlatIndexOutOfBounds { flat: 3, bound: 3 }));
    assert_eq!(m.at_logical(3), Err(MatrixError::FlatIndexOutOfBounds { flat: 3, bound: 3 }));

    let m = iota(vec![2, 3, 5]);
    assert_eq!(
        m.at(&vec![1, 3, 9]),
        Err(MatrixError::IndexOutOfBounds { axis: 1, index: 3, bound: 3 })
    );
    assert_eq!(
        m.position(&vec![1, 2, 5]),
        Err(MatrixError::IndexOutOfBounds { axis: 2, index: 5, bound: 5 })
    );
}

#[test]
fn multi_index_access_is_the_dot_product_with_the_strides() {
    let m = iota(vec![2, 3, 5]);
    assert_eq!(m.position(&vec![1, 2, 3]), Ok(28));
    assert_eq!(*m.at(&vec![1, 2, 3]).unwrap(), 28);
    assert_eq!(*m.at(&vec![0, 0, 0]).unwrap(), 0);
    assert_eq!(*m.at(&vec![1, 2, 4]).unwrap(), 29);
    assert_eq!(position_of(&vec![1, 2, 3], &vec![15, 5, 1]), 28);
    assert_eq!(position_of(&vec![3, 2, 1], &vec![1, 5, 15]), 28);
}

#[test]
fn decomposition_recovers_every_multi_index() {
    let m = iota(vec![4, 2, 3]);
    for a in 0..4 {
        for b in 0..2 {
            for c in 0..3 {
                let index = vec![a, b, c];
                let flat = m.position(&index).unwrap();
                assert_eq!(m.coordinates(flat), index);
                assert_eq!(*m.at_flat(flat).unwrap(), *m.at(&index).unwrap());
            }
        }
    }
    assert_eq!(coordinates_of(23, &vec![6, 3, 1]), vec![3, 1, 2]);
    assert_eq!(coordinates_of(7, &vec![]), Vec::<usize>::new());
}

#[test]
fn double_transpose_is_identity() {
    let m = iota(vec![2, 3, 5]);
    let back = m.transpose().transpose();
    assert_eq!(back.shape(), m.shape());
    assert_eq!(back.stride(), m.stride());
    assert_eq!(back.data(), m.data());
    assert_eq!(back, m);
    assert!(m.transpose() != m);
    assert_eq!(m.clone(), m);
}

#[test]
fn axes_can_be_permuted() {
    let m = iota(vec![2, 3, 5]);
    let p = m.permute_axes(&vec![1, 2, 0]);
    assert_eq!(*p.shape(), vec![3, 5, 2]);
    assert_eq!(*p.stride(), vec![5, 1, 15]);
    assert_eq!(p.data(), m.data());
    for a in 0..2 {
        for b in 0..3 {
            for c in 0..5 {
                assert_eq!(p.at(&vec![b, c, a]).unwrap(), m.at(&vec![a, b, c]).unwrap());
            }
        }
    }
    assert!(is_axis_permutation(&vec![1, 2, 0]));
    assert!(is_axis_permutation(&vec![]));
    assert!(!is_axis_permutation(&vec![1, 1, 0]));
    assert!(!is_axis_permutation(&vec![0, 3, 1]));
}

#[test]
fn mismatched_shapes_are_refused() {
    let a = iota(vec![2, 3]);
    let b = iota(vec![3, 2]);
    assert_eq!(
        a.add(b).err(),
        Some(MatrixError::ShapeMismatch { shape_a: vec![2, 3], shape_b: vec![3, 2] })
    );
    let a = iota(vec![6]);
    let b = iota(vec![2, 3]);
    assert_eq!(
        a.sub(b).err(),
        Some(MatrixError::ShapeMismatch { shape_a: vec![6], shape_b: vec![2, 3] })
    );
    assert!(same_shape(&vec![2, 3], &vec![2, 3]));
    assert!(!same_shape(&vec![2, 3], &vec![2, 4]));
    assert!(!same_shape(&vec![2, 3], &vec![2]));
}

#[test]
fn subtraction_is_elementwise() {
    let a = Matrix::new_with_data(vec![2, 2], vec![10, 20, 30, 40]).unwrap();
    let b = Matrix::new_with_data(vec![2, 2], vec![1, 2, 3, 4]).unwrap();
    let d = a.sub(b).unwrap();
    assert_eq!(*d.data(), vec![9, 18, 27, 36]);
    assert_eq!(*d.shape(), vec![2, 2]);
}

#[test]
fn addition_reads_each_operand_through_its_own_strides() {
    // a is 3x2 stored row-major; b is the transpose of a 2x3 matrix.
    let a = Matrix::new_with_data(vec![3, 2], vec![100, 200, 300, 400, 500, 600]).unwrap();
    let b = iota(vec![2, 3]).transpose();
    assert_eq!(*b.shape(), vec![3, 2]);
    assert_eq!(*b.stride(), vec![1, 3]);
    let sum = a.add(b).unwrap();
    assert_eq!(*sum.shape(), vec![3, 2]);
    assert_eq!(*sum.stride(), vec![2, 1]);
    // b read logically is 0 3 / 1 4 / 2 5.
    assert_eq!(*sum.data(), vec![100, 203, 301, 404, 502, 605]);
    assert_eq!(*sum.at(&vec![2, 1]).unwrap(), 605);
}

#[test]
fn scalar_operations_keep_shape_and_strides() {
    let t = iota(vec![2, 3]).transpose();
    let plus = t.add_scalar(10);
    assert_eq!(*plus.shape(), vec![3, 2]);
    assert_eq!(*plus.stride(), vec![1, 3]);
    assert_eq!(*plus.data(), vec![10, 11, 12, 13, 14, 15]);
    let minus = plus.sub_scalar(3);
    assert_eq!(*minus.shape(), vec![3, 2]);
    assert_eq!(*minus.stride(), vec![1, 3]);
    assert_eq!(*minus.data(), vec![7, 8, 9, 10, 11, 12]);
}

#[test]
fn element_count_is_the_product_of_the_extents() {
    assert_eq!(count_elements(&vec![2, 3, 5]), Some(30));
    assert_eq!(count_elements(&vec![]), Some(1));
    assert_eq!(count_elements(&vec![7, 0, 9]), Some(0));
    assert_eq!(count_elements(&vec![usize::MAX, 2]), None);
    assert_eq!(count_elements(&vec![usize::MAX, 2, 0]), Some(0));
    assert_eq!(count_elements(&vec![usize::MAX, 1]), Some(usize::MAX));
}

#[test]
fn strides_of_degenerate_shapes() {
    assert_eq!(calculate_stride(&vec![]), Vec::<usize>::new());
    assert_eq!(calculate_stride(&vec![9]), vec![1]);
    assert_eq!(calculate_stride(&vec![2, 0, 4]), vec![0, 4, 1]);
}
