use sprs::{
    bmat, check_bmat, check_same_storage_stack, hstack,
    same_storage_fast_stack, vstack, CsMat, DenseMatrix,
};

fn mat1() -> CsMat<f64> {
    let indptr = vec![0, 2, 4, 5, 6, 7];
    let indices = vec![2, 3, 3, 4, 2, 1, 3];
    let data = vec![3., 4., 2., 5., 5., 8., 7.];
    CsMat::new((5, 5), indptr, indices, data)
}

fn mat2() -> CsMat<f64> {
    let indptr = vec![0, 4, 6, 6, 8, 10];
    let indices = vec![0, 1, 2, 4, 0, 3, 2, 3, 1, 2];
    let data = vec![6., 7., 3., 3., 8., 9., 2., 4., 4., 4.];
    CsMat::new((5, 5), indptr, indices, data)
}

fn mat3() -> CsMat<f64> {
    let indptr = vec![0, 2, 4, 5, 6, 7];
    let indices = vec![2, 3, 2, 3, 2, 1, 3];
    let data = vec![3., 4., 2., 5., 5., 8., 7.];
    CsMat::new((5, 4), indptr, indices, data)
}

fn mat4() -> CsMat<f64> {
    let indptr = vec![0, 4, 6, 6, 8, 10];
    let indices = vec![0, 1, 2, 4, 0, 3, 2, 3, 1, 2];
    let data = vec![6., 7., 3., 3., 8., 9., 2., 4., 4., 4.];
    CsMat::new_csc((5, 5), indptr, indices, data)
}

fn eye(n: usize) -> CsMat<f64> {
    CsMat::new((n, n), (0..=n).collect(), (0..n).collect(), vec![1.; n])
}

fn eye_csc(n: usize) -> CsMat<f64> {
    CsMat::new_csc((n, n), (0..=n).collect(), (0..n).collect(), vec![1.; n])
}

fn dense_eye(n: usize) -> DenseMatrix<f64> {
    let rows = (0..n)
        .map(|i| (0..n).map(|j| if i == j { 1. } else { 0. }).collect())
        .collect();
    DenseMatrix::from_rows(n, rows).unwrap()
}

fn mat1_vstack_mat2() -> CsMat<f64> {
    let indptr = vec![0, 2, 4, 5, 6, 7, 11, 13, 13, 15, 17];
    let indices = vec![2, 3, 3, 4, 2, 1, 3, 0, 1, 2, 4, 0, 3, 2, 3, 1, 2];
    let data = vec![3., 4., 2., 5., 5., 8., 7., 6., 7., 3., 3., 8., 9., 2., 4., 4., 4.];
    CsMat::new((10, 5), indptr, indices, data)
}

#[test]
#[should_panic]
fn same_storage_fast_stack_fail_empty_stacking_list() {
    let mats: [&CsMat<f64>; 0] = [];
    check_same_storage_stack(&mats).unwrap();
    let _: CsMat<f64> = same_storage_fast_stack(&mats);
}

#[test]
#[should_panic]
fn same_storage_fast_stack_fail_dim_mismatch() {
    let a = mat1();
    let c = mat3();
    check_same_storage_stack(&[&a, &c]).unwrap();
    let _ = same_storage_fast_stack(&[&a, &c]);
}

#[test]
#[should_panic]
fn same_storage_fast_stack_fail_storage() {
    let a = mat1();
    let d = mat4();
    check_same_storage_stack(&[&a, &d]).unwrap();
    let _ = same_storage_fast_stack(&[&a, &d]);
}

#[test]
fn same_storage_fast_stack_ok() {
    let a = mat1();
    let b = mat2();
    let res = same_storage_fast_stack(&[&a, &b]);
    let expected = mat1_vstack_mat2();
    assert_eq!(res, expected);
}

#[test]
fn vstack_trivial() {
    let a = mat1();
    let b = mat2();
    let res = vstack(&[&a, &b]);
    let expected = mat1_vstack_mat2();
    assert_eq!(res, expected);
}

#[test]
fn hstack_trivial() {
    let a = mat1().transpose_into();
    let b = mat2().transpose_into();
    let res = hstack(&[&a, &b]);
    let expected = mat1_vstack_mat2().transpose_into();
    assert_eq!(res, expected);
}

#[test]
fn vstack_with_conversion() {
    let a = mat1().to_csc();
    let b = mat2();
    let res = vstack(&[&a, &b]);
    let expected = mat1_vstack_mat2();
    assert_eq!(res, expected);
}

#[test]
#[should_panic]
fn bmat_fail_shapes() {
    let mats: Vec<Vec<Option<&CsMat<f64>>>> = vec![vec![None, None], vec![None]];
    check_bmat(&mats).unwrap();
    let _: CsMat<f64> = bmat(&mats);
}

#[test]
#[should_panic]
fn bmat_fail_empty_stacking_list() {
    let mats: [Vec<Option<&CsMat<f64>>>; 1] = [vec![]];
    check_bmat(&mats).unwrap();
    let _: CsMat<f64> = bmat(&mats);
}

#[test]
#[should_panic]
fn bmat_fail_empty_bmat_row() {
    let a = mat1();
    let c = mat3();
    let mats = [vec![None, None], vec![Some(&a), Some(&c)]];
    check_bmat(&mats).unwrap();
    let _: CsMat<f64> = bmat(&mats);
}

#[test]
#[should_panic]
fn bmat_fail_empty_bmat_col() {
    let a = mat1();
    let c = mat3();
    let mats = [vec![Some(&c), None], vec![Some(&a), None]];
    check_bmat(&mats).unwrap();
    let _: CsMat<f64> = bmat(&mats);
}

#[test]
fn bmat_simple() {
    let a = eye(5);
    let b = eye(4);
    let c = bmat(&[vec![Some(&a), None], vec![None, Some(&b)]]);
    let expected = CsMat::new(
        (9, 9),
        vec![0, 1, 2, 3, 4, 5, 6, 7, 8, 9],
        vec![0, 1, 2, 3, 4, 5, 6, 7, 8],
        vec![1.; 9],
    );
    assert_eq!(c, expected);
}

#[test]
fn bmat_complex() {
    let a = mat1();
    let b = mat2();
    let c = bmat(&[vec![Some(&a), Some(&b)], vec![Some(&b), None]]);
    let expected = CsMat::new(
        (10, 10),
        vec![0, 6, 10, 11, 14, 17, 21, 23, 23, 25, 27],
        vec![2, 3, 5, 6, 7, 9, 3, 4, 5, 8, 2, 1, 7, 8, 3, 6, 7, 0, 1, 2, 4, 0, 3, 2, 3, 1, 2],
        vec![
            3., 4., 6., 7., 3., 3., 2., 5., 8., 9., 5., 8., 2., 4., 7., 4., 4., 6., 7., 3., 3., 8.,
            9., 2., 4., 4., 4.,
        ],
    );
    assert_eq!(c, expected);

    let d = mat3();
    let e = mat4();
    let f = bmat(&[vec![Some(&d), Some(&a)], vec![None, Some(&e)]]);
    let expected = CsMat::new(
        (10, 9),
        vec![0, 4, 8, 10, 12, 14, 16, 18, 21, 23, 24],
        vec![2, 3, 6, 7, 2, 3, 7, 8, 2, 6, 1, 5, 3, 7, 4, 5, 4, 8, 4, 7, 8, 5, 7, 4],
        vec![
            3., 4., 3., 4., 2., 5., 2., 5., 5., 5., 8., 8., 7., 7., 6., 8., 7., 4., 3., 2., 4., 9.,
            4., 3.,
        ],
    );
    assert_eq!(f, expected);
}

#[test]
fn csr_from_dense() {
    let m = dense_eye(3);
    let m_sparse = sprs::csr_from_dense(&m, |x: &f64| x.abs() > 0.);

    assert_eq!(m_sparse, eye(3));

    let m = DenseMatrix::from_rows(
        5,
        vec![
            vec![1., 0., 2., 1e-7, 1.],
            vec![0., 0., 0., 1., 0.],
            vec![3., 0., 1., 0., 0.],
        ],
    )
    .unwrap();
    let m_sparse = sprs::csr_from_dense(&m, |x: &f64| x.abs() > 1e-5);

    let expected_output = CsMat::new(
        (3, 5),
        vec![0, 3, 4, 6],
        vec![0, 2, 4, 3, 0, 2],
        vec![1., 2., 1., 1., 3., 1.],
    );

    assert_eq!(m_sparse, expected_output);
}

#[test]
fn csc_from_dense() {
    let m = dense_eye(3);
    let m_sparse = sprs::csc_from_dense(&m, |x: &f64| x.abs() > 0.);

    assert_eq!(m_sparse, eye_csc(3));

    let m = DenseMatrix::from_rows(
        5,
        vec![
            vec![1., 0., 2., 1e-7, 1.],
            vec![0., 0., 0., 1., 0.],
            vec![3., 0., 1., 0., 0.],
        ],
    )
    .unwrap();
    let m_sparse = sprs::csc_from_dense(&m, |x: &f64| x.abs() > 1e-5);

    let expected_output = CsMat::new_csc(
        (3, 5),
        vec![0, 2, 2, 4, 5, 6],
        vec![0, 2, 0, 2, 1, 0],
        vec![1., 3., 2., 1., 1., 1.],
    );

    assert_eq!(m_sparse, expected_output);
}
