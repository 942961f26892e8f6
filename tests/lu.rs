use lin_alg_lab::lu::{back_substitution, forward_substitution};
use lin_alg_lab::matrix_dense::{matmul, matvec, Matrix, MatrixError};

const PIVOT_TOL: f64 = 1e-12;

fn mul_sub(acc: f64, x: f64, y: f64) -> f64 {
    acc - x * y
}

fn mul_add(acc: f64, x: f64, y: f64) -> f64 {
    acc + x * y
}

fn div(x: f64, y: f64) -> f64 {
    x / y
}

fn pivot_ok(p: f64) -> bool {
    p.abs() > PIVOT_TOL
}

fn lu(a: &Matrix<f64>) -> Result<(Matrix<f64>, Matrix<f64>), MatrixError> {
    a.lu_decomposition(0.0, 1.0, mul_sub, div, pivot_ok)
}

fn solve(l: &Matrix<f64>, u: &Matrix<f64>, b: &[f64]) -> Result<Vec<f64>, MatrixError> {
    Matrix::solve_lu(l, u, b, mul_sub, div, pivot_ok)
}

fn max_abs_diff(a: &Matrix<f64>, b: &Matrix<f64>) -> f64 {
    assert_eq!(a.rows(), b.rows());
    assert_eq!(a.cols(), b.cols());
    let mut m: f64 = 0.0;
    for i in 0..a.rows() {
        for j in 0..a.cols() {
            m = m.max((a.get(i, j).unwrap() - b.get(i, j).unwrap()).abs());
        }
    }
    m
}

#[test]
fn lu_scenario_two_by_two() {
    let a = Matrix::new(2, 2, vec![4.0, 3.0, 6.0, 3.0]).unwrap();
    let (l, u) = lu(&a).unwrap();
    assert_eq!(l.get(0, 0), Ok(1.0));
    assert_eq!(l.get(0, 1), Ok(0.0));
    assert_eq!(l.get(1, 0), Ok(1.5));
    assert_eq!(l.get(1, 1), Ok(1.0));
    assert_eq!(u.get(0, 0), Ok(4.0));
    assert_eq!(u.get(0, 1), Ok(3.0));
    assert_eq!(u.get(1, 0), Ok(0.0));
    assert_eq!(u.get(1, 1), Ok(-1.5));
    let lu_product = matmul(&l, &u, 0.0, mul_add).unwrap();
    assert!(max_abs_diff(&a, &lu_product) < 1e-10);
    let x = solve(&l, &u, &[7.0, 9.0]).unwrap();
    assert_eq!(x.len(), 2);
    assert!((x[0] - 1.0).abs() < 1e-10);
    assert!((x[1] - 1.0).abs() < 1e-10);
}

#[test]
fn lu_reconstructs_and_solves_three_by_three() {
    let a = Matrix::new(3, 3, vec![2.0, -1.0, 0.5, 4.0, 1.0, 3.0, -2.0, 5.0, 7.0]).unwrap();
    let (l, u) = lu(&a).unwrap();
    for i in 0..3 {
        assert_eq!(l.get(i, i), Ok(1.0));
        for j in 0..3 {
            if j > i {
                assert_eq!(l.get(i, j), Ok(0.0));
            }
            if j < i {
                assert_eq!(u.get(i, j), Ok(0.0));
            }
        }
    }
    let lu_product = matmul(&l, &u, 0.0, mul_add).unwrap();
    assert!(max_abs_diff(&a, &lu_product) < 1e-9);
    let b = [1.0, -2.0, 3.5];
    let x = solve(&l, &u, &b).unwrap();
    let ax = matvec(&a, &x, 0.0, mul_add).unwrap();
    for i in 0..3 {
        assert!((ax[i] - b[i]).abs() < 1e-9);
    }
}

#[test]
fn lu_rejects_non_square() {
    let a = Matrix::new(2, 3, vec![1.0, 2.0, 3.0, 4.0, 5.0, 6.0]).unwrap();
    assert!(matches!(lu(&a), Err(MatrixError::NotSquare)));
}

#[test]
fn lu_rejects_zero_pivot() {
    let a = Matrix::new(2, 2, vec![0.0, 1.0, 1.0, 0.0]).unwrap();
    assert!(matches!(lu(&a), Err(MatrixError::SingularOrUnstable)));
    let singular = Matrix::new(2, 2, vec![1.0, 2.0, 2.0, 4.0]).unwrap();
    assert!(matches!(lu(&singular), Err(MatrixError::SingularOrUnstable)));
}

#[test]
fn lu_of_empty_matrix() {
    let a = Matrix::<f64>::new(0, 0, vec![]).unwrap();
    let (l, u) = lu(&a).unwrap();
    assert_eq!(l.rows(), 0);
    assert_eq!(u.cols(), 0);
    assert_eq!(solve(&l, &u, &[]), Ok(vec![]));
}

#[test]
fn solve_lu_shape_mismatch() {
    let a = Matrix::new(2, 2, vec![4.0, 3.0, 6.0, 3.0]).unwrap();
    let (l, u) = lu(&a).unwrap();
    assert_eq!(solve(&l, &u, &[1.0]), Err(MatrixError::DimensionMismatch));
    let big = Matrix::diagonal(3, 0.0, 1.0);
    assert_eq!(solve(&l, &big, &[1.0, 2.0]), Err(MatrixError::DimensionMismatch));
}

#[test]
fn solve_lu_singular_upper() {
    let l = Matrix::diagonal(2, 0.0, 1.0);
    let u = Matrix::new(2, 2, vec![1.0, 2.0, 0.0, 0.0]).unwrap();
    assert_eq!(solve(&l, &u, &[1.0, 1.0]), Err(MatrixError::SingularOrUnstable));
}

#[test]
fn forward_then_back_substitution() {
    let l = Matrix::new(2, 2, vec![1.0, 0.0, 1.5, 1.0]).unwrap();
    let z = forward_substitution(&l, &[7.0, 9.0], mul_sub).unwrap();
    assert_eq!(z, vec![7.0, -1.5]);
    let u = Matrix::new(2, 2, vec![4.0, 3.0, 0.0, -1.5]).unwrap();
    let x = back_substitution(&u, &z, mul_sub, div, pivot_ok).unwrap();
    assert_eq!(x, vec![1.0, 1.0]);
    assert_eq!(
        forward_substitution(&l, &[1.0], mul_sub),
        Err(MatrixError::DimensionMismatch)
    );
    let wide = Matrix::new(1, 2, vec![1.0, 2.0]).unwrap();
    assert_eq!(
        back_substitution(&wide, &[1.0], mul_sub, div, pivot_ok),
        Err(MatrixError::DimensionMismatch)
    );
}
