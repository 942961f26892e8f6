use vstd::prelude::*;

use crate::matrix_dense::{Matrix, MatrixError};

verus! {

/// Position (row, col) lies inside an r x c matrix.
pub open spec fn in_bounds(rows: nat, cols: nat, pos: (usize, usize)) -> bool {
    pos.0 < rows && pos.1 < cols
}

/// Reads entry (row, col) after checking both indices against the shape.
pub fn safe_get<T: Copy>(a: &Matrix<T>, row: usize, col: usize) -> (r: Result<T, MatrixError>)
    requires
        a.wf(),
    ensures
        r is Ok <==> in_bounds(a.nrows(), a.ncols(), (row, col)),
        r matches Ok(v) ==> v == a@[row as int][col as int],
        r matches Err(e) ==> e == MatrixError::DimensionMismatch,
{
    if row >= a.rows() || col >= a.cols() {
        return Err(MatrixError::DimensionMismatch);
    }
    a.get(row, col)
}

/// A copy of one row; a row index out of range is an error.
pub fn safe_get_row<T: Copy>(a: &Matrix<T>, row: usize) -> (r: Result<Vec<T>, MatrixError>)
    requires
        a.wf(),
    ensures
        r is Ok <==> row < a.nrows(),
        r matches Ok(v) ==> v@ == a@[row as int],
        r matches Err(e) ==> e == MatrixError::DimensionMismatch,
{
    if row >= a.rows() {
        return Err(MatrixError::DimensionMismatch);
    }
    let cols = a.cols();
    let mut row_data: Vec<T> = Vec::new();
    let mut col: usize = 0;
    while col < cols
        invariant
            a.wf(),
            row < a.nrows(),
            cols == a.ncols(),
            col <= cols,
            row_data@ == a@[row as int].subrange(0, col as int),
        decreases cols - col,
    {
        let v = safe_get(a, row, col)?;
        row_data.push(v);
        col = col + 1;
        assert(row_data@ =~= a@[row as int].subrange(0, col as int));
    }
    assert(row_data@ =~= a@[row as int]);
    Ok(row_data)
}

/// The entries at the given positions, in order; the first position out of range makes the
/// whole batch fail.
pub fn safe_batch_get<T: Copy>(a: &Matrix<T>, indices: &[(usize, usize)]) -> (r: Result<
    Vec<T>,
    MatrixError,
>)
    requires
        a.wf(),
    ensures
        r is Ok <==> forall|k: int|
            0 <= k < indices@.len() ==> #[trigger] in_bounds(a.nrows(), a.ncols(), indices@[k]),
        r matches Ok(v) ==> {
            &&& v@.len() == indices@.len()
            &&& forall|k: int|
                0 <= k < indices@.len() ==> #[trigger] v@[k] == a@[indices@[k].0 as int][indices@[k].1 as int]
        },
        r matches Err(e) ==> e == MatrixError::DimensionMismatch,
{
    let mut batch_data: Vec<T> = Vec::new();
    let mut k: usize = 0;
    while k < indices.len()
        invariant
            a.wf(),
            k <= indices@.len(),
            batch_data@.len() == k,
            forall|p: int| 0 <= p < k ==> #[trigger] in_bounds(a.nrows(), a.ncols(), indices@[p]),
            forall|p: int|
                0 <= p < k ==> #[trigger] batch_data@[p] == a@[indices@[p].0 as int][indices@[p].1 as int],
        decreases indices@.len() - k,
    {
        let (row, col) = indices[k];
        let v = safe_get(a, row, col)?;
        batch_data.push(v);
        k = k + 1;
    }
    Ok(batch_data)
}

} // verus!
