use vstd::prelude::*;

verus! {

/// Failures of the matrix operations.
#[derive(Debug, Clone, Copy, PartialEq, Eq, Structural)]
pub enum MatrixError {
    /// A shape or bounds violation: an index out of range, or operands whose shapes do not fit.
    DimensionMismatch,
    /// A square-only operation was given a matrix with rows != cols.
    NotSquare,
    /// A zero or near-zero pivot was met during factorization or substitution.
    SingularOrUnstable,
}

/// The r x c matrix whose entry (i, j) is `data[i * c + j]` (row-major layout).
pub open spec fn row_major<T>(rows: nat, cols: nat, data: Seq<T>) -> Seq<Seq<T>> {
    Seq::new(rows, |i: int| Seq::new(cols, |j: int| data[i * cols + j]))
}

/// `m` has `rows` rows, each of `cols` entries.
pub open spec fn shaped<T>(m: Seq<Seq<T>>, rows: nat, cols: nat) -> bool {
    &&& m.len() == rows
    &&& forall|i: int| 0 <= i < rows ==> #[trigger] m[i].len() == cols
}

/// The transpose of a `rows` x `cols` matrix: a `cols` x `rows` matrix.
pub open spec fn transposed<T>(m: Seq<Seq<T>>, rows: nat, cols: nat) -> Seq<Seq<T>> {
    Seq::new(cols, |j: int| Seq::new(rows, |i: int| m[i][j]))
}

/// `m` with entry (i, j) replaced by `v`.
pub open spec fn with_entry<T>(m: Seq<Seq<T>>, i: int, j: int, v: T) -> Seq<Seq<T>> {
    m.update(i, m[i].update(j, v))
}

/// The n x n matrix with `on` on the diagonal and `off` everywhere else.
pub open spec fn diagonal_of<T>(n: nat, off: T, on: T) -> Seq<Seq<T>> {
    Seq::new(n, |i: int| Seq::new(n, |j: int| if i == j { on } else { off }))
}

/// The rows x cols matrix with every entry equal to `v`.
pub open spec fn constant_of<T>(rows: nat, cols: nat, v: T) -> Seq<Seq<T>> {
    Seq::new(rows, |i: int| Seq::new(cols, |j: int| v))
}

/// Column j of a matrix with `rows` rows.
pub open spec fn column<T>(m: Seq<Seq<T>>, rows: nat, j: int) -> Seq<T> {
    Seq::new(rows, |k: int| m[k][j])
}

/// `partial` holds the running values of accumulating the pairs (xs[k], ys[k]) in order,
/// starting from `init`, where each step maps (acc, x, y) to the next acc through `step`.
pub open spec fn is_fold<T, F: Fn(T, T, T) -> T>(
    step: F,
    init: T,
    xs: Seq<T>,
    ys: Seq<T>,
    partial: Seq<T>,
) -> bool {
    &&& partial.len() == xs.len() + 1
    &&& partial[0] == init
    &&& forall|k: int|
        0 <= k < xs.len() ==> #[trigger] step.ensures((partial[k], xs[k], ys[k]), partial[k + 1])
}

/// `out` is what accumulating the pairs (xs[k], ys[k]) with `step` from `init` ends in:
/// the sum of products xs[k] * ys[k] when `step` is (acc, x, y) -> acc + x * y.
pub open spec fn folds_to<T, F: Fn(T, T, T) -> T>(
    step: F,
    init: T,
    xs: Seq<T>,
    ys: Seq<T>,
    out: T,
) -> bool {
    exists|partial: Seq<T>| #[trigger] is_fold(step, init, xs, ys, partial) && partial.last() == out
}

/// `close` answers false whenever it is asked about the pair (x, y).
pub open spec fn always_rejects<T, F: Fn(T, T) -> bool>(close: F, x: T, y: T) -> bool {
    forall|b: bool| #[trigger] close.ensures((x, y), b) ==> !b
}

/// A dense rows x cols matrix, stored row by row in one vector.
#[derive(Debug, Clone)]
pub struct Matrix<T> {
    rows: usize,
    cols: usize,
    data: Vec<T>,
}

impl<T> View for Matrix<T> {
    type V = Seq<Seq<T>>;

    closed spec fn view(&self) -> Seq<Seq<T>> {
        row_major(self.rows as nat, self.cols as nat, self.data@)
    }
}

/// Offsets of a row-major layout stay inside the storage.
proof fn lemma_offset_in_range(rows: int, cols: int, i: int, j: int)
    requires
        0 <= i < rows,
        0 <= j < cols,
    ensures
        0 <= i * cols + j < rows * cols,
{
    assert(i * cols + j < rows * cols) by (nonlinear_arith)
        requires
            0 <= i < rows,
            0 <= j < cols,
    ;
    assert(0 <= i * cols) by (nonlinear_arith)
        requires
            0 <= i,
            0 <= j < cols,
    ;
}

/// Distinct positions of a row-major layout have distinct offsets.
proof fn lemma_offset_unique(cols: int, i: int, j: int, k: int, l: int)
    requires
        0 <= i,
        0 <= k,
        0 <= j < cols,
        0 <= l < cols,
        i * cols + j == k * cols + l,
    ensures
        i == k,
        j == l,
{
    if i < k {
        assert(i * cols + cols <= k * cols) by (nonlinear_arith)
            requires
                i < k,
                0 <= cols,
        ;
    } else if k < i {
        assert(k * cols + cols <= i * cols) by (nonlinear_arith)
            requires
                k < i,
                0 <= cols,
        ;
    }
}

impl<T> Matrix<T> {
    /// Number of rows.
    pub closed spec fn nrows(&self) -> nat {
        self.rows as nat
    }

    /// Number of columns.
    pub closed spec fn ncols(&self) -> nat {
        self.cols as nat
    }

    /// The storage holds exactly rows * cols entries.
    pub closed spec fn storage_ok(&self) -> bool {
        self.data@.len() == self.rows * self.cols
    }

    /// Well-formedness: the storage invariant, and a view of the stated shape.
    pub open spec fn wf(&self) -> bool {
        &&& self.storage_ok()
        &&& shaped(self@, self.nrows(), self.ncols())
    }

    /// Builds a rows x cols matrix from its entries in row-major order.
    pub fn new(rows: usize, cols: usize, data: Vec<T>) -> (r: Result<Self, MatrixError>)
        ensures
            r is Ok <==> data@.len() == rows * cols,
            r matches Ok(m) ==> {
                &&& m.wf()
                &&& m.nrows() == rows
                &&& m.ncols() == cols
                &&& m@ == row_major(rows as nat, cols as nat, data@)
            },
            r matches Err(e) ==> e == MatrixError::DimensionMismatch,
    {
        let len = data.len();
        match rows.checked_mul(cols) {
            Some(n) if n == len => Ok(Matrix { rows, cols, data }),
            _ => Err(MatrixError::DimensionMismatch),
        }
    }

    /// Number of rows.
    pub fn rows(&self) -> (r: usize)
        ensures
            r == self.nrows(),
    {
        self.rows
    }

    /// Number of columns.
    pub fn cols(&self) -> (r: usize)
        ensures
            r == self.ncols(),
    {
        self.cols
    }

    /// Position of entry (row, col) in the storage.
    fn index(&self, row: usize, col: usize) -> (r: usize)
        requires
            self.wf(),
            row < self.nrows(),
            col < self.ncols(),
        ensures
            r == row * self.ncols() + col,
            r < self.data@.len(),
    {
        let len = self.data.len();
        proof {
            lemma_offset_in_range(self.rows as int, self.cols as int, row as int, col as int);
        }
        row * self.cols + col
    }

    /// Replaces entry (row, col) by `value`; an index out of range leaves the matrix as it was.
    pub fn set(&mut self, row: usize, col: usize, value: T) -> (r: Result<(), MatrixError>)
        requires
            old(self).wf(),
        ensures
            final(self).wf(),
            final(self).nrows() == old(self).nrows(),
            final(self).ncols() == old(self).ncols(),
            r is Ok <==> row < old(self).nrows() && col < old(self).ncols(),
            r is Ok ==> final(self)@ == with_entry(old(self)@, row as int, col as int, value),
            r matches Err(e) ==> e == MatrixError::DimensionMismatch && final(self)@ == old(self)@,
    {
        if row >= self.rows || col >= self.cols {
            return Err(MatrixError::DimensionMismatch);
        }
        let k = self.index(row, col);
        let ghost before = self@;
        self.data.set(k, value);
        proof {
            let rows = self.rows as int;
            let cols = self.cols as int;
            assert forall|i: int, j: int| 0 <= i < rows && 0 <= j < cols implies
                #[trigger] self@[i][j] == with_entry(before, row as int, col as int, value)[i][j] by {
                lemma_offset_in_range(rows, cols, i, j);
                if i * cols + j == k {
                    lemma_offset_unique(cols, i, j, row as int, col as int);
                } else if i == row && j == col {
                    assert(false);
                }
            }
            assert(self@ =~~= with_entry(before, row as int, col as int, value));
        }
        Ok(())
    }
}

impl<T: Copy> Matrix<T> {
    /// Reads entry (row, col); an index out of range is an error, never a panic.
    pub fn get(&self, row: usize, col: usize) -> (r: Result<T, MatrixError>)
        requires
            self.wf(),
        ensures
            r is Ok <==> row < self.nrows() && col < self.ncols(),
            r matches Ok(v) ==> v == self@[row as int][col as int],
            r matches Err(e) ==> e == MatrixError::DimensionMismatch,
    {
        if row < self.rows && col < self.cols {
            let k = self.index(row, col);
            Ok(self.data[k])
        } else {
            Err(MatrixError::DimensionMismatch)
        }
    }
    /// Entry (row, col), for indices known to be in range.
    pub(crate) fn entry(&self, row: usize, col: usize) -> (r: T)
        requires
            self.wf(),
            row < self.nrows(),
            col < self.ncols(),
        ensures
            r == self@[row as int][col as int],
    {
        self.data[self.index(row, col)]
    }

    /// Storage bound: a well-formed matrix's entry count fits in `usize`.
    pub(crate) fn entry_count(&self) -> (r: usize)
        requires
            self.wf(),
        ensures
            r == self.nrows() * self.ncols(),
    {
        self.data.len()
    }

    /// The transpose: a cols x rows matrix whose entry (j, i) is entry (i, j) of `self`.
    /// It never fails on a well-formed matrix.
    pub fn transpose(&self) -> (r: Result<Matrix<T>, MatrixError>)
        requires
            self.wf(),
        ensures
            r matches Ok(t) && {
                &&& t.wf()
                &&& t.nrows() == self.ncols()
                &&& t.ncols() == self.nrows()
                &&& t@ == transposed(self@, self.nrows(), self.ncols())
            },
    {
        let rows = self.rows;
        let cols = self.cols;
        let mut data: Vec<T> = Vec::new();
        let mut j: usize = 0;
        while j < cols
            invariant
                self.wf(),
                rows == self.nrows(),
                cols == self.ncols(),
                j <= cols,
                data@.len() == j * rows,
                forall|b: int, a: int|
                    0 <= b < j && 0 <= a < rows ==> #[trigger] data@[b * rows + a] == self@[a][b],
            decreases cols - j,
        {
            let mut i: usize = 0;
            while i < rows
                invariant
                    self.wf(),
                    rows == self.nrows(),
                    cols == self.ncols(),
                    j < cols,
                    i <= rows,
                    data@.len() == j * rows + i,
                    forall|b: int, a: int|
                        0 <= b < j && 0 <= a < rows ==> #[trigger] data@[b * rows + a]
                            == self@[a][b],
                    forall|a: int| 0 <= a < i ==> #[trigger] data@[j * rows + a] == self@[a][j as int],
                decreases rows - i,
            {
                let k = self.index(i, j);
                let ghost prev = data@;
                data.push(self.data[k]);
                proof {
                    assert forall|b: int, a: int| 0 <= b < j && 0 <= a < rows implies
                        #[trigger] data@[b * rows + a] == self@[a][b] by {
                        lemma_offset_in_range(j as int, rows as int, b, a);
                        assert(prev[b * rows + a] == self@[a][b]);
                    }
                }
                i = i + 1;
            }
            proof {
                assert((j + 1) * rows == j * rows + rows) by (nonlinear_arith);
                assert forall|b: int, a: int| 0 <= b < j + 1 && 0 <= a < rows implies
                    #[trigger] data@[b * rows + a] == self@[a][b] by {
                    if b == j {
                        assert(data@[j * rows + a] == self@[a][j as int]);
                    }
                }
            }
            j = j + 1;
        }
        let t = Matrix { rows: cols, cols: rows, data };
        proof {
            assert forall|b: int, a: int| 0 <= b < cols && 0 <= a < rows implies
                #[trigger] t@[b][a] == transposed(self@, rows as nat, cols as nat)[b][a] by {
                assert(data@[b * rows + a] == self@[a][b]);
            }
            assert(t@ =~~= transposed(self@, rows as nat, cols as nat));
        }
        Ok(t)
    }
    /// A rows x cols matrix with every entry equal to `value`.
    pub fn filled(rows: usize, cols: usize, value: T) -> (r: Matrix<T>)
        requires
            rows * cols <= usize::MAX,
        ensures
            r.wf(),
            r.nrows() == rows,
            r.ncols() == cols,
            r@ == constant_of(rows as nat, cols as nat, value),
    {
        let n = rows * cols;
        let mut data: Vec<T> = Vec::new();
        let mut k: usize = 0;
        while k < n
            invariant
                k <= n,
                data@.len() == k,
                forall|p: int| 0 <= p < k ==> #[trigger] data@[p] == value,
            decreases n - k,
        {
            data.push(value);
            k = k + 1;
        }
        let m = Matrix { rows, cols, data };
        proof {
            assert forall|i: int, j: int| 0 <= i < rows && 0 <= j < cols implies
                #[trigger] m@[i][j] == value by {
                lemma_offset_in_range(rows as int, cols as int, i, j);
            }
            assert(m@ =~~= constant_of(rows as nat, cols as nat, value));
        }
        m
    }

    /// The n x n matrix with `on` on the diagonal and `off` elsewhere.
    pub fn diagonal(n: usize, off: T, on: T) -> (r: Matrix<T>)
        requires
            n * n <= usize::MAX,
        ensures
            r.wf(),
            r.nrows() == n,
            r.ncols() == n,
            r@ == diagonal_of(n as nat, off, on),
    {
        let mut m = Matrix::filled(n, n, off);
        let mut i: usize = 0;
        while i < n
            invariant
                i <= n,
                m.wf(),
                m.nrows() == n,
                m.ncols() == n,
                forall|a: int, b: int| 0 <= a < n && 0 <= b < n ==>
                    #[trigger] m@[a][b] == if a == b && a < i { on } else { off },
            decreases n - i,
        {
            let _ = m.set(i, i, on);
            i = i + 1;
        }
        assert(m@ =~~= diagonal_of(n as nat, off, on));
        m
    }

    /// Tests symmetry: compares entry (i, j) with entry (j, i) for every i < j, in row order,
    /// with `close`, and answers false at the first pair that `close` rejects.
    /// A matrix that is not square is an error.
    pub fn is_symmetric_by<F: Fn(T, T) -> bool>(&self, close: F) -> (r: Result<bool, MatrixError>)
        requires
            self.wf(),
            forall|x: T, y: T| #[trigger] close.requires((x, y)),
        ensures
            r is Err <==> self.nrows() != self.ncols(),
            r matches Err(e) ==> e == MatrixError::NotSquare,
            r matches Ok(true) ==> forall|i: int, j: int| 0 <= i < j < self.nrows() ==>
                #[trigger] close.ensures((self@[i][j], self@[j][i]), true),
            r matches Ok(false) ==> exists|i: int, j: int| 0 <= i < j < self.nrows() &&
                #[trigger] close.ensures((self@[i][j], self@[j][i]), false),
            ({
                &&& self.nrows() == self.ncols()
                &&& self@ == transposed(self@, self.nrows(), self.ncols())
                &&& forall|x: T, b: bool| #[trigger] close.ensures((x, x), b) ==> b
            }) ==> r matches Ok(true),
            (self.nrows() == self.ncols() && forall|i: int, j: int, b: bool|
                0 <= i < j < self.nrows() && #[trigger] close.ensures((self@[i][j], self@[j][i]), b)
                    ==> b) ==> r matches Ok(true),
            (self.nrows() == self.ncols() && exists|i: int, j: int|
                0 <= i < j < self.nrows() && #[trigger] always_rejects(close, self@[i][j], self@[j][i]))
                ==> r matches Ok(false),
    {
        if self.rows != self.cols {
            return Err(MatrixError::NotSquare);
        }
        let n = self.rows;
        let mut i: usize = 0;
        while i < n
            invariant
                self.wf(),
                n == self.nrows(),
                n == self.ncols(),
                i <= n,
                forall|x: T, y: T| #[trigger] close.requires((x, y)),
                forall|a: int, b: int| 0 <= a < i && a < b < n ==>
                    #[trigger] close.ensures((self@[a][b], self@[b][a]), true),
            decreases n - i,
        {
            let mut j: usize = i + 1;
            while j < n
                invariant
                    self.wf(),
                    n == self.nrows(),
                    n == self.ncols(),
                    i < n,
                    i + 1 <= j <= n,
                    forall|x: T, y: T| #[trigger] close.requires((x, y)),
                    forall|a: int, b: int| 0 <= a < i && a < b < n ==>
                        #[trigger] close.ensures((self@[a][b], self@[b][a]), true),
                    forall|b: int| i < b < j ==>
                        #[trigger] close.ensures((self@[i as int][b], self@[b][i as int]), true),
                decreases n - j,
            {
                let upper = self.data[self.index(i, j)];
                let lower = self.data[self.index(j, i)];
                assert(upper == self@[i as int][j as int]);
                assert(lower == self@[j as int][i as int]);
                let ok = close(upper, lower);
                if !ok {
                    proof {
                        let t = transposed(self@, self.nrows(), self.ncols());
                        if self@ == t {
                            assert(t[i as int][j as int] == self@[j as int][i as int]);
                        }
                    }
                    return Ok(false);
                }
                j = j + 1;
            }
            i = i + 1;
        }
        proof {
            if exists|a: int, b: int|
                0 <= a < b < n && #[trigger] always_rejects(close, self@[a][b], self@[b][a]) {
                let (a, b) = choose|a: int, b: int|
                    0 <= a < b < n && #[trigger] always_rejects(close, self@[a][b], self@[b][a]);
                assert(close.ensures((self@[a][b], self@[b][a]), true));
            }
        }
        Ok(true)
    }
}

/// Matrix product C = A * B, where entry (i, j) of C accumulates row i of A against column j
/// of B with `mul_add`, starting from `zero`: with `mul_add` = (acc, x, y) -> acc + x * y,
/// C[i][j] = sum over k of A[i][k] * B[k][j]. The shapes must fit: A.cols == B.rows.
pub fn matmul<T: Copy, F: Fn(T, T, T) -> T>(
    a: &Matrix<T>,
    b: &Matrix<T>,
    zero: T,
    mul_add: F,
) -> (r: Result<Matrix<T>, MatrixError>)
    requires
        a.wf(),
        b.wf(),
        forall|acc: T, x: T, y: T| #[trigger] mul_add.requires((acc, x, y)),
    ensures
        r is Ok <==> a.ncols() == b.nrows(),
        r matches Err(e) ==> e == MatrixError::DimensionMismatch,
        r matches Ok(c) ==> {
            &&& c.wf()
            &&& c.nrows() == a.nrows()
            &&& c.ncols() == b.ncols()
            &&& forall|i: int, j: int|
                0 <= i < a.nrows() && 0 <= j < b.ncols() ==> #[trigger] folds_to(
                    mul_add,
                    zero,
                    a@[i],
                    column(b@, b.nrows(), j),
                    c@[i][j],
                )
        },
{
    if a.cols != b.rows {
        return Err(MatrixError::DimensionMismatch);
    }
    let rows = a.rows;
    let cols = b.cols;
    let inner = a.cols;
    let mut data: Vec<T> = Vec::new();
    let mut i: usize = 0;
    while i < rows
        invariant
            a.wf(),
            b.wf(),
            rows == a.nrows(),
            cols == b.ncols(),
            inner == a.ncols(),
            inner == b.nrows(),
            i <= rows,
            forall|acc: T, x: T, y: T| #[trigger] mul_add.requires((acc, x, y)),
            data@.len() == i * cols,
            forall|p: int, q: int|
                0 <= p < i && 0 <= q < cols ==> #[trigger] folds_to(
                    mul_add,
                    zero,
                    a@[p],
                    column(b@, b.nrows(), q),
                    data@[p * cols + q],
                ),
        decreases rows - i,
    {
        let mut j: usize = 0;
        while j < cols
            invariant
                a.wf(),
                b.wf(),
                rows == a.nrows(),
                cols == b.ncols(),
                inner == a.ncols(),
                inner == b.nrows(),
                i < rows,
                j <= cols,
                forall|acc: T, x: T, y: T| #[trigger] mul_add.requires((acc, x, y)),
                data@.len() == i * cols + j,
                forall|p: int, q: int|
                    0 <= p < i && 0 <= q < cols ==> #[trigger] folds_to(
                        mul_add,
                        zero,
                        a@[p],
                        column(b@, b.nrows(), q),
                        data@[p * cols + q],
                    ),
                forall|q: int|
                    0 <= q < j ==> #[trigger] folds_to(
                        mul_add,
                        zero,
                        a@[i as int],
                        column(b@, b.nrows(), q),
                        data@[i * cols + q],
                    ),
            decreases cols - j,
        {
            let ghost xs = a@[i as int];
            let ghost ys = column(b@, b.nrows(), j as int);
            let mut sum = zero;
            let ghost mut partial = seq![zero];
            let mut k: usize = 0;
            while k < inner
                invariant
                    a.wf(),
                    b.wf(),
                    rows == a.nrows(),
                    cols == b.ncols(),
                    inner == a.ncols(),
                    inner == b.nrows(),
                    i < rows,
                    j < cols,
                    k <= inner,
                    xs == a@[i as int],
                    ys == column(b@, b.nrows(), j as int),
                    forall|acc: T, x: T, y: T| #[trigger] mul_add.requires((acc, x, y)),
                    partial.len() == k + 1,
                    partial[0] == zero,
                    partial.last() == sum,
                    forall|t: int|
                        0 <= t < k ==> #[trigger] mul_add.ensures(
                            (partial[t], xs[t], ys[t]),
                            partial[t + 1],
                        ),
                decreases inner - k,
            {
                let x = a.data[a.index(i, k)];
                let y = b.data[b.index(k, j)];
                let next = mul_add(sum, x, y);
                proof {
                    partial = partial.push(next);
                }
                sum = next;
                k = k + 1;
            }
            proof {
                assert(is_fold(mul_add, zero, xs, ys, partial));
            }
            let ghost prev = data@;
            data.push(sum);
            proof {
                assert forall|p: int, q: int| 0 <= p < i && 0 <= q < cols implies
                    #[trigger] folds_to(
                        mul_add,
                        zero,
                        a@[p],
                        column(b@, b.nrows(), q),
                        data@[p * cols + q],
                    ) by {
                    lemma_offset_in_range(i as int, cols as int, p, q);
                    assert(data@[p * cols + q] == prev[p * cols + q]);
                }
                assert forall|q: int| 0 <= q < j + 1 implies
                    #[trigger] folds_to(
                        mul_add,
                        zero,
                        a@[i as int],
                        column(b@, b.nrows(), q),
                        data@[i * cols + q],
                    ) by {
                    if q < j {
                        assert(data@[i * cols + q] == prev[i * cols + q]);
                    }
                }
            }
            j = j + 1;
        }
        proof {
            assert((i + 1) * cols == i * cols + cols) by (nonlinear_arith);
        }
        i = i + 1;
    }
    let c = Matrix { rows, cols, data };
    proof {
        assert forall|p: int, q: int| 0 <= p < rows && 0 <= q < cols implies
            #[trigger] folds_to(
                mul_add,
                zero,
                a@[p],
                column(b@, b.nrows(), q),
                c@[p][q],
            ) by {
            assert(c@[p][q] == data@[p * cols + q]);
        }
    }
    Ok(c)
}

/// Matrix-vector product y = A * x, where y[i] accumulates row i of A against x with
/// `mul_add`, starting from `zero`: with `mul_add` = (acc, u, v) -> acc + u * v,
/// y[i] = sum over j of A[i][j] * x[j]. The length of x must equal A.cols.
pub fn matvec<T: Copy, F: Fn(T, T, T) -> T>(
    a: &Matrix<T>,
    x: &[T],
    zero: T,
    mul_add: F,
) -> (r: Result<Vec<T>, MatrixError>)
    requires
        a.wf(),
        forall|acc: T, u: T, v: T| #[trigger] mul_add.requires((acc, u, v)),
    ensures
        r is Ok <==> a.ncols() == x@.len(),
        r matches Err(e) ==> e == MatrixError::DimensionMismatch,
        r matches Ok(y) ==> {
            &&& y@.len() == a.nrows()
            &&& forall|i: int|
                0 <= i < a.nrows() ==> #[trigger] folds_to(mul_add, zero, a@[i], x@, y@[i])
        },
{
    if a.cols != x.len() {
        return Err(MatrixError::DimensionMismatch);
    }
    let rows = a.rows;
    let cols = a.cols;
    let mut y: Vec<T> = Vec::new();
    let mut i: usize = 0;
    while i < rows
        invariant
            a.wf(),
            rows == a.nrows(),
            cols == a.ncols(),
            cols == x@.len(),
            i <= rows,
            forall|acc: T, u: T, v: T| #[trigger] mul_add.requires((acc, u, v)),
            y@.len() == i,
            forall|p: int| 0 <= p < i ==> #[trigger] folds_to(mul_add, zero, a@[p], x@, y@[p]),
        decreases rows - i,
    {
        let ghost row = a@[i as int];
        let mut sum = zero;
        let ghost mut partial = seq![zero];
        let mut j: usize = 0;
        while j < cols
            invariant
                a.wf(),
                rows == a.nrows(),
                cols == a.ncols(),
                cols == x@.len(),
                i < rows,
                j <= cols,
                row == a@[i as int],
                forall|acc: T, u: T, v: T| #[trigger] mul_add.requires((acc, u, v)),
                partial.len() == j + 1,
                partial[0] == zero,
                partial.last() == sum,
                forall|t: int|
                    0 <= t < j ==> #[trigger] mul_add.ensures(
                        (partial[t], row[t], x@[t]),
                        partial[t + 1],
                    ),
            decreases cols - j,
        {
            let u = a.data[a.index(i, j)];
            let next = mul_add(sum, u, x[j]);
            proof {
                partial = partial.push(next);
            }
            sum = next;
            j = j + 1;
        }
        proof {
            assert(is_fold(mul_add, zero, row, x@, partial));
        }
        let ghost prev = y@;
        y.push(sum);
        proof {
            assert forall|p: int| 0 <= p < i + 1 implies
                #[trigger] folds_to(mul_add, zero, a@[p], x@, y@[p]) by {
                if p < i {
                    assert(y@[p] == prev[p]);
                }
            }
        }
        i = i + 1;
    }
    Ok(y)
}

/// Running values of accumulating a row against column j of a diagonal matrix: they stay at
/// `zero` up to position j, then hold the row's entry j.
proof fn lemma_diagonal_column_fold<T, F: Fn(T, T, T) -> T>(
    step: F,
    zero: T,
    off: T,
    on: T,
    xs: Seq<T>,
    n: nat,
    j: int,
    partial: Seq<T>,
    k: int,
)
    requires
        xs.len() == n,
        0 <= j < n,
        0 <= k <= n,
        is_fold(step, zero, xs, column(diagonal_of(n, off, on), n, j), partial),
        forall|acc: T, x: T, r: T| #[trigger] step.ensures((acc, x, off), r) ==> r == acc,
        forall|x: T, r: T| #[trigger] step.ensures((zero, x, on), r) ==> r == x,
    ensures
        partial[k] == if k <= j {
            zero
        } else {
            xs[j]
        },
    decreases k,
{
    if k > 0 {
        lemma_diagonal_column_fold(step, zero, off, on, xs, n, j, partial, k - 1);
        let ys = column(diagonal_of(n, off, on), n, j);
        let t = k - 1;
        assert(step.ensures((partial[t], xs[t], ys[t]), partial[t + 1]));
        assert(ys[t] == if t == j {
            on
        } else {
            off
        });
    }
}

/// Multiplying by a diagonal matrix on the right leaves a matrix unchanged when the step
/// absorbs the off-diagonal value (acc, x, off) -> acc and turns the diagonal value into the
/// entry from `zero` (zero, x, on) -> x. With (acc, x, y) -> acc + x * y, zero = off = 0 and
/// on = 1 this is A * I = A.
pub proof fn lemma_matmul_identity<T, F: Fn(T, T, T) -> T>(
    m: Seq<Seq<T>>,
    rows: nat,
    n: nat,
    zero: T,
    off: T,
    on: T,
    step: F,
    i: int,
    j: int,
    out: T,
)
    requires
        shaped(m, rows, n),
        0 <= i < rows,
        0 <= j < n,
        forall|acc: T, x: T, r: T| #[trigger] step.ensures((acc, x, off), r) ==> r == acc,
        forall|x: T, r: T| #[trigger] step.ensures((zero, x, on), r) ==> r == x,
        folds_to(step, zero, m[i], column(diagonal_of(n, off, on), n, j), out),
    ensures
        out == m[i][j],
{
    let ys = column(diagonal_of(n, off, on), n, j);
    let partial = choose|p: Seq<T>| #[trigger] is_fold(step, zero, m[i], ys, p) && p.last() == out;
    lemma_diagonal_column_fold(step, zero, off, on, m[i], n, j, partial, n as int);
}

/// Transposing twice gives back the same matrix, for every shape.
pub proof fn lemma_transpose_involution<T>(m: Seq<Seq<T>>, rows: nat, cols: nat)
    requires
        shaped(m, rows, cols),
    ensures
        shaped(transposed(m, rows, cols), cols, rows),
        transposed(transposed(m, rows, cols), cols, rows) == m,
{
    assert(transposed(transposed(m, rows, cols), cols, rows) =~~= m);
}

/// After entry (i, j) is set to `v`, reading (i, j) yields `v`; every other entry and the
/// shape are unchanged.
pub proof fn lemma_set_then_get<T>(m: Seq<Seq<T>>, rows: nat, cols: nat, i: int, j: int, v: T)
    requires
        shaped(m, rows, cols),
        0 <= i < rows,
        0 <= j < cols,
    ensures
        shaped(with_entry(m, i, j, v), rows, cols),
        with_entry(m, i, j, v)[i][j] == v,
        forall|a: int, b: int|
            0 <= a < rows && 0 <= b < cols && (a != i || b != j) ==> #[trigger] with_entry(
                m,
                i,
                j,
                v,
            )[a][b] == m[a][b],
{
}

/// The diagonal matrix (the identity among them) equals its own transpose.
pub proof fn lemma_diagonal_symmetric<T>(n: nat, off: T, on: T)
    ensures
        shaped(diagonal_of(n, off, on), n, n),
        transposed(diagonal_of(n, off, on), n, n) == diagonal_of(n, off, on),
{
    assert(transposed(diagonal_of(n, off, on), n, n) =~~= diagonal_of(n, off, on));
}

} // verus!
