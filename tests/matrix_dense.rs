use lin_alg_lab::matrix_dense::{matmul, matvec, Matrix, MatrixError};
use lin_alg_lab::matrix_dense_access::{safe_batch_get, safe_get, safe_get_row};

fn mul_add(acc: f64, x: f64, y: f64) -> f64 {
    acc + x * y
}

fn a23() -> Matrix<f64> {
    Matrix::new(2, 3, vec![1.0, 2.0, 3.0, 4.0, 5.0, 6.0]).unwrap()
}

fn entries(m: &Matrix<f64>) -> Vec<Vec<f64>> {
    let mut out = Vec::new();
    for i in 0..m.rows() {
        let mut row = Vec::new();
        for j in 0..m.cols() {
            row.push(m.get(i, j).unwrap());
        }
        out.push(row);
    }
    out
}

#[test]
fn new_rejects_wrong_length() {
    assert!(matches!(
        Matrix::new(2, 2, vec![1.0, 2.0, 3.0]),
        Err(MatrixError::DimensionMismatch)
    ));
    assert!(matches!(
        Matrix::new(2, 3, vec![0.0; 7]),
        Err(MatrixError::DimensionMismatch)
    ));
    assert!(matches!(
        Matrix::<f64>::new(usize::MAX, 2, vec![]),
        Err(MatrixError::DimensionMismatch)
    ));
}

#[test]
fn new_lays_out_rows() {
    let a = a23();
    assert_eq!(a.rows(), 2);
    assert_eq!(a.cols(), 3);
    assert_eq!(entries(&a), vec![vec![1.0, 2.0, 3.0], vec![4.0, 5.0, 6.0]]);
    let empty = Matrix::<f64>::new(0, 4, vec![]).unwrap();
    assert_eq!(empty.rows(), 0);
    assert_eq!(empty.cols(), 4);
}

#[test]
fn get_out_of_range_fails() {
    let a = a23();
    assert_eq!(a.get(1, 2), Ok(6.0));
    assert_eq!(a.get(2, 0), Err(MatrixError::DimensionMismatch));
    assert_eq!(a.get(0, 3), Err(MatrixError::DimensionMismatch));
    assert_eq!(a.get(usize::MAX, usize::MAX), Err(MatrixError::DimensionMismatch));
}

#[test]
fn set_then_get_round_trip() {
    let mut a = a23();
    assert_eq!(a.set(1, 0, 9.5), Ok(()));
    assert_eq!(a.get(1, 0), Ok(9.5));
    assert_eq!(entries(&a), vec![vec![1.0, 2.0, 3.0], vec![9.5, 5.0, 6.0]]);
    assert_eq!(a.set(0, 3, 1.0), Err(MatrixError::DimensionMismatch));
    assert_eq!(a.set(2, 0, 1.0), Err(MatrixError::DimensionMismatch));
    assert_eq!(entries(&a), vec![vec![1.0, 2.0, 3.0], vec![9.5, 5.0, 6.0]]);
}

#[test]
fn filled_and_diagonal() {
    let z = Matrix::filled(2, 3, 0.0);
    assert_eq!(entries(&z), vec![vec![0.0; 3], vec![0.0; 3]]);
    let i3 = Matrix::diagonal(3, 0.0, 1.0);
    assert_eq!(
        entries(&i3),
        vec![vec![1.0, 0.0, 0.0], vec![0.0, 1.0, 0.0], vec![0.0, 0.0, 1.0]]
    );
    let i0 = Matrix::diagonal(0, 0.0, 1.0);
    assert_eq!(i0.rows(), 0);
    assert_eq!(i0.cols(), 0);
}

#[test]
fn transpose_swaps_shape_and_entries() {
    let t = a23().transpose().unwrap();
    assert_eq!(t.rows(), 3);
    assert_eq!(t.cols(), 2);
    assert_eq!(entries(&t), vec![vec![1.0, 4.0], vec![2.0, 5.0], vec![3.0, 6.0]]);
}

#[test]
fn transpose_twice_is_identity() {
    let a = a23();
    let back = a.transpose().unwrap().transpose().unwrap();
    assert_eq!(back.rows(), 2);
    assert_eq!(back.cols(), 3);
    assert_eq!(entries(&back), entries(&a));
    let wide = Matrix::<f64>::new(0, 5, vec![]).unwrap();
    let wide_back = wide.transpose().unwrap().transpose().unwrap();
    assert_eq!(wide_back.rows(), 0);
    assert_eq!(wide_back.cols(), 5);
}

#[test]
fn matmul_scenario() {
    let a = a23();
    let b = Matrix::new(3, 2, vec![7.0, 8.0, 9.0, 10.0, 11.0, 12.0]).unwrap();
    let c = matmul(&a, &b, 0.0, mul_add).unwrap();
    assert_eq!(c.rows(), 2);
    assert_eq!(c.cols(), 2);
    assert_eq!(entries(&c), vec![vec![58.0, 64.0], vec![139.0, 154.0]]);
}

#[test]
fn matmul_shape_mismatch() {
    let a = a23();
    assert!(matches!(
        matmul(&a, &a, 0.0, mul_add),
        Err(MatrixError::DimensionMismatch)
    ));
}

#[test]
fn matmul_by_identity_is_exact() {
    let a = Matrix::new(2, 3, vec![0.1, -2.5, 3.0e10, 1.0 / 3.0, 5.0, -0.0]).unwrap();
    let c = matmul(&a, &Matrix::diagonal(3, 0.0, 1.0), 0.0, mul_add).unwrap();
    assert_eq!(entries(&c), entries(&a));
}

#[test]
fn matvec_scenario() {
    let a = a23();
    assert_eq!(matvec(&a, &[1.0, 2.0, 3.0], 0.0, mul_add), Ok(vec![14.0, 32.0]));
    assert_eq!(
        matvec(&a, &[1.0, 2.0], 0.0, mul_add),
        Err(MatrixError::DimensionMismatch)
    );
}

#[test]
fn is_symmetric_by_tolerance() {
    let tol = 1e-9;
    let close = |x: f64, y: f64| (x - y).abs() <= tol;
    assert_eq!(Matrix::diagonal(4, 0.0, 1.0).is_symmetric_by(close), Ok(true));
    let s = Matrix::new(2, 2, vec![1.0, 2.0, 2.0 + 1e-12, 3.0]).unwrap();
    assert_eq!(s.is_symmetric_by(close), Ok(true));
    let mut m = Matrix::diagonal(3, 0.0, 1.0);
    m.set(0, 2, 0.5).unwrap();
    assert_eq!(m.is_symmetric_by(close), Ok(false));
    assert_eq!(a23().is_symmetric_by(close), Err(MatrixError::NotSquare));
}

#[test]
fn safe_access_helpers() {
    let a = a23();
    assert_eq!(safe_get(&a, 0, 1), Ok(2.0));
    assert_eq!(safe_get(&a, 0, 3), Err(MatrixError::DimensionMismatch));
    assert_eq!(safe_get_row(&a, 1), Ok(vec![4.0, 5.0, 6.0]));
    assert_eq!(safe_get_row(&a, 2), Err(MatrixError::DimensionMismatch));
    assert_eq!(safe_batch_get(&a, &[(1, 2), (0, 0)]), Ok(vec![6.0, 1.0]));
    assert_eq!(safe_batch_get(&a, &[]), Ok(vec![]));
    assert_eq!(
        safe_batch_get(&a, &[(0, 0), (5, 0), (0, 9)]),
        Err(MatrixError::DimensionMismatch)
    );
}
