use sprs::{
    bmat, check_bmat, check_hstack, check_same_storage_stack, check_vstack, hstack,
    same_storage_fast_stack, vstack, CompressedStorage, CsMat, DenseMatrix, SprsError,
};

fn mat1() -> CsMat<f64> {
    CsMat::new(
        (5, 5),
        vec![0, 2, 4, 5, 6, 7],
        vec![2, 3, 3, 4, 2, 1, 3],
        vec![3., 4., 2., 5., 5., 8., 7.],
    )
}

fn mat3() -> CsMat<f64> {
    CsMat::new(
        (5, 4),
        vec![0, 2, 4, 5, 6, 7],
        vec![2, 3, 2, 3, 2, 1, 3],
        vec![3., 4., 2., 5., 5., 8., 7.],
    )
}

fn mat4() -> CsMat<f64> {
    CsMat::new_csc(
        (5, 5),
        vec![0, 4, 6, 6, 8, 10],
        vec![0, 1, 2, 4, 0, 3, 2, 3, 1, 2],
        vec![6., 7., 3., 3., 8., 9., 2., 4., 4., 4.],
    )
}

fn eye(n: usize) -> CsMat<f64> {
    CsMat::new((n, n), (0..=n).collect(), (0..n).collect(), vec![1.; n])
}

#[test]
fn getters_describe_the_matrix() {
    let a = mat3();
    assert_eq!(a.rows(), 5);
    assert_eq!(a.cols(), 4);
    assert_eq!(a.storage(), CompressedStorage::CSR);
    assert!(a.is_csr());
    assert!(!a.is_csc());
    assert_eq!(a.outer_dims(), 5);
    assert_eq!(a.inner_dims(), 4);
    assert_eq!(a.nnz(), 7);
    assert_eq!(a.indptr(), &[0, 2, 4, 5, 6, 7]);
    assert_eq!(a.indices(), &[2, 3, 2, 3, 2, 1, 3]);
    assert_eq!(a.data(), &[3., 4., 2., 5., 5., 8., 7.]);
    let d = mat4();
    assert!(d.is_csc());
    assert_eq!(d.outer_dims(), 5);
    assert_eq!(d.nnz(), d.data().len());
}

#[test]
fn to_csc_of_csr_matrix() {
    // mat1 read column by column
    let expected = CsMat::new_csc(
        (5, 5),
        vec![0, 0, 1, 3, 6, 7],
        vec![3, 0, 2, 0, 1, 4, 1],
        vec![8., 3., 5., 4., 2., 7., 5.],
    );
    assert_eq!(mat1().to_csc(), expected);
}

#[test]
fn storage_round_trip_gives_the_matrix_back() {
    assert_eq!(mat1().to_csc().to_csr(), mat1());
    assert_eq!(mat4().to_csr().to_csc(), mat4());
    assert_eq!(mat3().to_csr(), mat3());
    assert_eq!(mat4().to_other_storage().to_other_storage(), mat4());
}

#[test]
fn transpose_twice_gives_the_matrix_back() {
    assert_eq!(mat3().transpose_into().transpose_into(), mat3());
    let t = mat3().transpose_into();
    assert_eq!(t.rows(), 4);
    assert_eq!(t.cols(), 5);
    assert!(t.is_csc());
}

#[test]
fn fast_stack_of_csc_matrices_is_hstack() {
    let d = mat4();
    let fast = same_storage_fast_stack(&[&d, &d]);
    let side_by_side = hstack(&[&d, &d]);
    assert_eq!(fast, side_by_side);
    assert_eq!(fast.rows(), 5);
    assert_eq!(fast.cols(), 10);
}

#[test]
fn vstack_of_one_matrix_is_its_csr_form() {
    let d = mat4();
    assert_eq!(vstack(&[&d]), d.to_csr());
    let a = mat1();
    assert_eq!(vstack(&[&a]), a);
}

#[test]
fn bmat_of_one_block_is_the_block() {
    let c = mat3();
    assert_eq!(bmat(&[vec![Some(&c)]]), c);
    let d = mat4();
    assert_eq!(bmat(&[vec![Some(&d)]]), d.to_csr());
}

#[test]
fn bmat_diagonal_example() {
    let a = eye(3);
    let b = eye(4);
    let c = bmat(&[vec![Some(&a), None], vec![None, Some(&b)]]);
    assert_eq!(c.rows(), 7);
    assert_eq!(c, eye(7));
}

#[test]
fn zero_and_empty_matrices() {
    let z: CsMat<f64> = CsMat::zero((3, 2));
    assert_eq!(z.rows(), 3);
    assert_eq!(z.cols(), 2);
    assert_eq!(z.nnz(), 0);
    assert_eq!(z.indptr(), &[0, 0, 0, 0]);
    let e: CsMat<f64> = CsMat::empty(CompressedStorage::CSC, 4);
    assert_eq!(e.rows(), 4);
    assert_eq!(e.cols(), 0);
    assert_eq!(e.indptr(), &[0]);
}

#[test]
fn try_new_accepts_a_valid_structure() {
    let m = CsMat::try_new(
        CompressedStorage::CSR,
        (5, 4),
        vec![0, 2, 4, 5, 6, 7],
        vec![2, 3, 2, 3, 2, 1, 3],
        vec![3., 4., 2., 5., 5., 8., 7.],
    );
    assert_eq!(m, Ok(mat3()));
}

#[test]
fn try_new_reports_each_structure_error() {
    let t = |indptr: Vec<usize>, indices: Vec<usize>, data: Vec<f64>| {
        CsMat::try_new(CompressedStorage::CSR, (2, 3), indptr, indices, data).unwrap_err()
    };
    assert_eq!(t(vec![0, 1], vec![0], vec![1.]), SprsError::BadIndptrLength);
    assert_eq!(t(vec![0, 1, 1], vec![0], vec![]), SprsError::DataIndicesMismatch);
    assert_eq!(t(vec![1, 1, 1], vec![0], vec![1.]), SprsError::OutOfBoundsIndptr);
    assert_eq!(t(vec![0, 2, 1], vec![0, 1], vec![1., 2.]), SprsError::UnsortedIndptr);
    assert_eq!(t(vec![0, 1, 1], vec![0, 1], vec![1., 2.]), SprsError::BadNnzCount);
    assert_eq!(t(vec![0, 1, 2], vec![0, 3], vec![1., 2.]), SprsError::OutOfBoundsIndex);
    assert_eq!(t(vec![0, 2, 2], vec![1, 1], vec![1., 2.]), SprsError::NonSortedIndices);
    assert_eq!(t(vec![0, 2, 2], vec![2, 1], vec![1., 2.]), SprsError::NonSortedIndices);
}

#[test]
fn stacking_checks_report_each_error() {
    let a = mat1();
    let c = mat3();
    let d = mat4();
    let none: [&CsMat<f64>; 0] = [];
    assert_eq!(check_same_storage_stack(&none), Err(SprsError::EmptyStackingList));
    assert_eq!(check_same_storage_stack(&[&a, &c]), Err(SprsError::IncompatibleDimensions));
    assert_eq!(check_same_storage_stack(&[&a, &d]), Err(SprsError::IncompatibleStorages));
    assert_eq!(check_same_storage_stack(&[&a, &a]), Ok(()));
    assert_eq!(check_vstack(&none), Err(SprsError::EmptyStackingList));
    assert_eq!(check_vstack(&[&a, &c]), Err(SprsError::IncompatibleDimensions));
    assert_eq!(check_vstack(&[&a, &d]), Ok(()));
    assert_eq!(check_hstack(&none), Err(SprsError::EmptyStackingList));
    assert_eq!(check_hstack(&[&a, &mat3().transpose_into()]), Err(SprsError::IncompatibleDimensions));
    assert_eq!(check_hstack(&[&a, &c]), Ok(()));
}

#[test]
fn bmat_check_reports_each_error() {
    let a = mat1();
    let c = mat3();
    let none: [Vec<Option<&CsMat<f64>>>; 0] = [];
    assert_eq!(check_bmat(&none), Err(SprsError::EmptyStackingList));
    assert_eq!(check_bmat::<f64>(&[vec![]]), Err::<(), _>(SprsError::EmptyStackingList));
    assert_eq!(check_bmat(&[vec![Some(&a), None], vec![None]]), Err(SprsError::IncompatibleDimensions));
    assert_eq!(check_bmat(&[vec![None, None], vec![Some(&a), Some(&c)]]), Err(SprsError::EmptyBmatRow));
    assert_eq!(check_bmat(&[vec![Some(&c), None], vec![Some(&a), None]]), Err(SprsError::EmptyBmatCol));
    // blocks of differing heights in one block row
    let short = CsMat::new((2, 2), vec![0, 1, 2], vec![0, 1], vec![1., 1.]);
    assert_eq!(check_bmat(&[vec![Some(&a), Some(&short)]]), Err(SprsError::IncompatibleDimensions));
    // block rows of differing widths
    assert_eq!(
        check_bmat(&[vec![Some(&a), Some(&a)], vec![Some(&c), Some(&c)]]),
        Err(SprsError::IncompatibleDimensions)
    );
    assert_eq!(check_bmat(&[vec![Some(&a), Some(&c)], vec![Some(&a), None]]), Ok(()));
}

#[test]
fn bmat_with_rows_of_equal_width_but_different_columns() {
    // row widths 2 + 3 and 3 + 2 agree, so the blocks assemble
    let a = CsMat::new((1, 2), vec![0, 1], vec![1], vec![1.]);
    let b = CsMat::new((1, 3), vec![0, 1], vec![0], vec![2.]);
    let c = CsMat::new((1, 3), vec![0, 1], vec![2], vec![3.]);
    let d = CsMat::new((1, 2), vec![0, 1], vec![0], vec![4.]);
    let mats = [vec![Some(&a), Some(&b)], vec![Some(&c), Some(&d)]];
    assert_eq!(check_bmat(&mats), Ok(()));
    let m = bmat(&mats);
    let expected = CsMat::new((2, 5), vec![0, 2, 4], vec![1, 2, 2, 3], vec![1., 2., 3., 4.]);
    assert_eq!(m, expected);
}

#[test]
fn dense_orientations_agree() {
    let m = DenseMatrix::from_rows(
        5,
        vec![
            vec![1., 0., 2., 1e-7, 1.],
            vec![0., 0., 0., 1., 0.],
            vec![3., 0., 1., 0., 0.],
        ],
    )
    .unwrap();
    let csr = sprs::csr_from_dense(&m, |x: &f64| x.abs() > 1e-5);
    let csc = sprs::csc_from_dense(&m, |x: &f64| x.abs() > 1e-5);
    assert_eq!(csr.to_csc(), csc);
    assert_eq!(csc.to_csr(), csr);
}

#[test]
fn dense_rows_must_have_equal_length() {
    let bad = DenseMatrix::from_rows(2, vec![vec![1., 2.], vec![3.]]);
    assert!(bad.is_none());
    let good = DenseMatrix::from_rows(2, vec![vec![1., 2.], vec![3., 4.]]).unwrap();
    assert_eq!(good.nrows(), 2);
    assert_eq!(good.ncols(), 2);
    assert_eq!(*good.get(1, 0), 3.);
    let empty: DenseMatrix<f64> = DenseMatrix::from_rows(3, vec![]).unwrap();
    assert_eq!(sprs::csr_from_dense(&empty, |_: &f64| true), CsMat::new((0, 3), vec![0], vec![], vec![]));
}

#[test]
fn dense_keep_everything() {
    let m = DenseMatrix::from_rows(2, vec![vec![0., 5.], vec![-1., 0.]]).unwrap();
    let all = sprs::csr_from_dense(&m, |_: &f64| true);
    assert_eq!(all, CsMat::new((2, 2), vec![0, 2, 4], vec![0, 1, 0, 1], vec![0., 5., -1., 0.]));
    let negative = sprs::csc_from_dense(&m, |x: &f64| *x < 0.);
    assert_eq!(negative, CsMat::new_csc((2, 2), vec![0, 1, 1], vec![1], vec![-1.]));
}
