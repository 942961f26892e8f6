use vstd::prelude::*;

use crate::matrix_dense::{column, folds_to, is_fold, shaped, Matrix, MatrixError};

verus! {

/// U[k][j] is the accumulation of A[k][j] with `mul_sub` over the pairs (L[k][t], U[t][j]),
/// t < k: with mul_sub = (acc, x, y) -> acc - x * y, U[k][j] = A[k][j] - sum of L[k][t] * U[t][j].
pub open spec fn upper_entry<T, FM: Fn(T, T, T) -> T>(
    mul_sub: FM,
    a: Seq<Seq<T>>,
    n: nat,
    l: Seq<Seq<T>>,
    u: Seq<Seq<T>>,
    k: int,
    j: int,
) -> bool {
    folds_to(mul_sub, a[k][j], l[k].take(k), column(u, n, j).take(k), u[k][j])
}

/// L[i][k] is `div` of the accumulation of A[i][k] with `mul_sub` over the pairs
/// (L[i][t], U[t][k]), t < k, by the pivot U[k][k].
pub open spec fn lower_entry<T, FM: Fn(T, T, T) -> T, FD: Fn(T, T) -> T>(
    mul_sub: FM,
    div: FD,
    a: Seq<Seq<T>>,
    n: nat,
    l: Seq<Seq<T>>,
    u: Seq<Seq<T>>,
    i: int,
    k: int,
) -> bool {
    exists|s: T|
        #[trigger] folds_to(mul_sub, a[i][k], l[i].take(k), column(u, n, k).take(k), s)
            && div.ensures((s, u[k][k]), l[i][k])
}

/// (L, U) is the Doolittle factorization of the n x n matrix A without row exchanges:
/// L is unit lower triangular (`one` on the diagonal, `zero` above it), U is upper triangular
/// (`zero` below the diagonal), every pivot U[k][k] passed `pivot_ok`, U's entries on and
/// above the diagonal follow `upper_entry` and L's entries below it follow `lower_entry`.
/// With exact arithmetic, mul_sub = (acc, x, y) -> acc - x * y and div = (x, y) -> x / y,
/// these equations say A = L * U.
pub open spec fn is_doolittle<T, FM: Fn(T, T, T) -> T, FD: Fn(T, T) -> T, FP: Fn(T) -> bool>(
    a: Seq<Seq<T>>,
    n: nat,
    l: Seq<Seq<T>>,
    u: Seq<Seq<T>>,
    zero: T,
    one: T,
    mul_sub: FM,
    div: FD,
    pivot_ok: FP,
) -> bool {
    &&& shaped(l, n, n)
    &&& shaped(u, n, n)
    &&& forall|i: int| 0 <= i < n ==> #[trigger] l[i][i] == one
    &&& forall|i: int, j: int| 0 <= i < j < n ==> #[trigger] l[i][j] == zero
    &&& forall|i: int, j: int| 0 <= j < i < n ==> #[trigger] u[i][j] == zero
    &&& forall|k: int| 0 <= k < n ==> #[trigger] pivot_ok.ensures((u[k][k],), true)
    &&& forall|k: int, j: int|
        0 <= k <= j < n ==> #[trigger] upper_entry(mul_sub, a, n, l, u, k, j)
    &&& forall|i: int, k: int|
        0 <= k < i < n ==> #[trigger] lower_entry(mul_sub, div, a, n, l, u, i, k)
}

/// The state of the elimination when pivot k is tested: L and U have their triangular shape,
/// pivots 0..k passed `pivot_ok`, rows 0..=k of U follow `upper_entry` and columns 0..k of L
/// follow `lower_entry`. U[k][k] is then the pivot that the elimination computed for step k.
pub open spec fn doolittle_upto<T, FM: Fn(T, T, T) -> T, FD: Fn(T, T) -> T, FP: Fn(T) -> bool>(
    a: Seq<Seq<T>>,
    n: nat,
    l: Seq<Seq<T>>,
    u: Seq<Seq<T>>,
    zero: T,
    one: T,
    mul_sub: FM,
    div: FD,
    pivot_ok: FP,
    k: int,
) -> bool {
    &&& shaped(l, n, n)
    &&& shaped(u, n, n)
    &&& forall|i: int| 0 <= i < n ==> #[trigger] l[i][i] == one
    &&& forall|i: int, j: int| 0 <= i < j < n ==> #[trigger] l[i][j] == zero
    &&& forall|i: int, j: int| 0 <= j < i < n ==> #[trigger] u[i][j] == zero
    &&& forall|p: int| 0 <= p < k ==> #[trigger] pivot_ok.ensures((u[p][p],), true)
    &&& forall|p: int, j: int|
        0 <= p <= k && p <= j < n ==> #[trigger] upper_entry(mul_sub, a, n, l, u, p, j)
    &&& forall|i: int, q: int|
        0 <= q < k && q < i < n ==> #[trigger] lower_entry(mul_sub, div, a, n, l, u, i, q)
}

/// The running values behind `upper_entry`, entry by entry.
spec fn upper_trace<T, FM: Fn(T, T, T) -> T>(
    mul_sub: FM,
    a: Seq<Seq<T>>,
    l: Seq<Seq<T>>,
    u: Seq<Seq<T>>,
    k: int,
    j: int,
    partial: Seq<T>,
) -> bool {
    &&& partial.len() == k + 1
    &&& partial[0] == a[k][j]
    &&& partial[k] == u[k][j]
    &&& forall|t: int|
        0 <= t < k ==> #[trigger] mul_sub.ensures((partial[t], l[k][t], u[t][j]), partial[t + 1])
}

/// The running values behind `lower_entry`, entry by entry.
spec fn lower_trace<T, FM: Fn(T, T, T) -> T, FD: Fn(T, T) -> T>(
    mul_sub: FM,
    div: FD,
    a: Seq<Seq<T>>,
    l: Seq<Seq<T>>,
    u: Seq<Seq<T>>,
    i: int,
    k: int,
    partial: Seq<T>,
) -> bool {
    &&& partial.len() == k + 1
    &&& partial[0] == a[i][k]
    &&& forall|t: int|
        0 <= t < k ==> #[trigger] mul_sub.ensures((partial[t], l[i][t], u[t][k]), partial[t + 1])
    &&& div.ensures((partial[k], u[k][k]), l[i][k])
}

/// An upper trace stays valid while the entries that it reads are unchanged.
proof fn lemma_upper_trace_frame<T, FM: Fn(T, T, T) -> T>(
    mul_sub: FM,
    a: Seq<Seq<T>>,
    l1: Seq<Seq<T>>,
    u1: Seq<Seq<T>>,
    l2: Seq<Seq<T>>,
    u2: Seq<Seq<T>>,
    k: int,
    j: int,
    partial: Seq<T>,
)
    requires
        upper_trace(mul_sub, a, l1, u1, k, j, partial),
        u2[k][j] == u1[k][j],
        forall|t: int| 0 <= t < k ==> #[trigger] l2[k][t] == l1[k][t],
        forall|t: int| 0 <= t < k ==> #[trigger] u2[t][j] == u1[t][j],
    ensures
        upper_trace(mul_sub, a, l2, u2, k, j, partial),
{
    assert forall|t: int| 0 <= t < k implies #[trigger] mul_sub.ensures(
        (partial[t], l2[k][t], u2[t][j]),
        partial[t + 1],
    ) by {
        assert(l2[k][t] == l1[k][t]);
        assert(u2[t][j] == u1[t][j]);
    }
}

/// A lower trace stays valid while the entries that it reads are unchanged.
proof fn lemma_lower_trace_frame<T, FM: Fn(T, T, T) -> T, FD: Fn(T, T) -> T>(
    mul_sub: FM,
    div: FD,
    a: Seq<Seq<T>>,
    l1: Seq<Seq<T>>,
    u1: Seq<Seq<T>>,
    l2: Seq<Seq<T>>,
    u2: Seq<Seq<T>>,
    i: int,
    k: int,
    partial: Seq<T>,
)
    requires
        lower_trace(mul_sub, div, a, l1, u1, i, k, partial),
        l2[i][k] == l1[i][k],
        u2[k][k] == u1[k][k],
        forall|t: int| 0 <= t < k ==> #[trigger] l2[i][t] == l1[i][t],
        forall|t: int| 0 <= t < k ==> #[trigger] u2[t][k] == u1[t][k],
    ensures
        lower_trace(mul_sub, div, a, l2, u2, i, k, partial),
{
    assert forall|t: int| 0 <= t < k implies #[trigger] mul_sub.ensures(
        (partial[t], l2[i][t], u2[t][k]),
        partial[t + 1],
    ) by {
        assert(l2[i][t] == l1[i][t]);
        assert(u2[t][k] == u1[t][k]);
    }
}

/// A complete upper trace shows `upper_entry`.
proof fn lemma_upper_trace_entry<T, FM: Fn(T, T, T) -> T>(
    mul_sub: FM,
    a: Seq<Seq<T>>,
    n: nat,
    l: Seq<Seq<T>>,
    u: Seq<Seq<T>>,
    k: int,
    j: int,
    partial: Seq<T>,
)
    requires
        shaped(l, n, n),
        shaped(u, n, n),
        0 <= k <= j < n,
        upper_trace(mul_sub, a, l, u, k, j, partial),
    ensures
        upper_entry(mul_sub, a, n, l, u, k, j),
{
    let xs = l[k].take(k);
    let ys = column(u, n, j).take(k);
    assert forall|t: int| 0 <= t < xs.len() implies #[trigger] mul_sub.ensures(
        (partial[t], xs[t], ys[t]),
        partial[t + 1],
    ) by {
        assert(xs[t] == l[k][t]);
        assert(ys[t] == u[t][j]);
    }
    assert(is_fold(mul_sub, a[k][j], xs, ys, partial));
}

/// A complete lower trace shows `lower_entry`.
proof fn lemma_lower_trace_entry<T, FM: Fn(T, T, T) -> T, FD: Fn(T, T) -> T>(
    mul_sub: FM,
    div: FD,
    a: Seq<Seq<T>>,
    n: nat,
    l: Seq<Seq<T>>,
    u: Seq<Seq<T>>,
    i: int,
    k: int,
    partial: Seq<T>,
)
    requires
        shaped(l, n, n),
        shaped(u, n, n),
        0 <= k < i < n,
        lower_trace(mul_sub, div, a, l, u, i, k, partial),
    ensures
        lower_entry(mul_sub, div, a, n, l, u, i, k),
{
    let xs = l[i].take(k);
    let ys = column(u, n, k).take(k);
    assert forall|t: int| 0 <= t < xs.len() implies #[trigger] mul_sub.ensures(
        (partial[t], xs[t], ys[t]),
        partial[t + 1],
    ) by {
        assert(xs[t] == l[i][t]);
        assert(ys[t] == u[t][k]);
    }
    assert(is_fold(mul_sub, a[i][k], xs, ys, partial));
    assert(folds_to(mul_sub, a[i][k], xs, ys, partial[k]));
}

/// What the elimination has settled once pivots 0..k are done: the triangular shape of L and
/// U, the accepted pivots, and a trace for every settled entry.
spec fn lu_progress<T, FM: Fn(T, T, T) -> T, FD: Fn(T, T) -> T, FP: Fn(T) -> bool>(
    a: Seq<Seq<T>>,
    n: nat,
    l: Seq<Seq<T>>,
    u: Seq<Seq<T>>,
    zero: T,
    one: T,
    mul_sub: FM,
    div: FD,
    pivot_ok: FP,
    ups: Map<(int, int), Seq<T>>,
    lows: Map<(int, int), Seq<T>>,
    k: int,
) -> bool {
    &&& shaped(l, n, n)
    &&& shaped(u, n, n)
    &&& forall|i: int| 0 <= i < n ==> #[trigger] l[i][i] == one
    &&& forall|i: int, j: int| 0 <= i < j < n ==> #[trigger] l[i][j] == zero
    &&& forall|i: int, j: int| 0 <= j < i < n ==> #[trigger] u[i][j] == zero
    &&& forall|p: int| 0 <= p < k ==> #[trigger] pivot_ok.ensures((u[p][p],), true)
    &&& forall|p: int, j: int|
        0 <= p < k && p <= j < n ==> #[trigger] upper_trace(mul_sub, a, l, u, p, j, ups[(p, j)])
    &&& forall|i: int, q: int|
        0 <= q < k && q < i < n ==> #[trigger] lower_trace(
            mul_sub,
            div,
            a,
            l,
            u,
            i,
            q,
            lows[(i, q)],
        )
}

impl<T: Copy> Matrix<T> {
    /// LU factorization by Doolittle's elimination, without row exchanges: returns (L, U) with
    /// L unit lower triangular and U upper triangular. Row k of U is computed first (each
    /// entry accumulates A[k][j] with `mul_sub` over the pairs (L[k][t], U[t][j]), t < k), then
    /// the pivot U[k][k] must pass `pivot_ok`, then column k of L below the diagonal (`div` of
    /// the same accumulation of A[i][k] by the pivot).
    /// A matrix that is not square is `NotSquare`; a pivot rejected by `pivot_ok` is
    /// `SingularOrUnstable`, and nothing partial is returned.
    pub fn lu_decomposition<FM, FD, FP>(
        &self,
        zero: T,
        one: T,
        mul_sub: FM,
        div: FD,
        pivot_ok: FP,
    ) -> (r: Result<(Matrix<T>, Matrix<T>), MatrixError>) where
        FM: Fn(T, T, T) -> T,
        FD: Fn(T, T) -> T,
        FP: Fn(T) -> bool,

        requires
            self.wf(),
            forall|acc: T, x: T, y: T| #[trigger] mul_sub.requires((acc, x, y)),
            forall|x: T, y: T| #[trigger] div.requires((x, y)),
            forall|x: T| #[trigger] pivot_ok.requires((x,)),
        ensures
            self.nrows() != self.ncols() ==> (r matches Err(e) && e == MatrixError::NotSquare),
            r matches Err(e) ==> (e == MatrixError::NotSquare && self.nrows() != self.ncols()) || (
            e == MatrixError::SingularOrUnstable && self.nrows() == self.ncols()),
            (r matches Err(e) && e == MatrixError::SingularOrUnstable) ==> exists|
                k: int,
                l: Seq<Seq<T>>,
                u: Seq<Seq<T>>,
            |
                0 <= k < self.nrows() && #[trigger] doolittle_upto(
                    self@,
                    self.nrows(),
                    l,
                    u,
                    zero,
                    one,
                    mul_sub,
                    div,
                    pivot_ok,
                    k,
                ) && pivot_ok.ensures((u[k][k],), false),
            (self.nrows() == self.ncols() && forall|x: T, b: bool|
                #[trigger] pivot_ok.ensures((x,), b) ==> b) ==> r is Ok,
            r matches Ok((l, u)) ==> {
                &&& l.wf()
                &&& u.wf()
                &&& l.nrows() == self.nrows()
                &&& l.ncols() == self.nrows()
                &&& u.nrows() == self.nrows()
                &&& u.ncols() == self.nrows()
                &&& is_doolittle(self@, self.nrows(), l@, u@, zero, one, mul_sub, div, pivot_ok)
            },
    {
        if self.rows() != self.cols() {
            return Err(MatrixError::NotSquare);
        }
        let n = self.rows();
        let _count = self.entry_count();
        let mut l = Matrix::diagonal(n, zero, one);
        let mut u = Matrix::filled(n, n, zero);
        let ghost a = self@;
        let ghost mut ups: Map<(int, int), Seq<T>> = Map::empty();
        let ghost mut lows: Map<(int, int), Seq<T>> = Map::empty();
        let mut k: usize = 0;
        while k < n
            invariant
                self.wf(),
                a == self@,
                n == self.nrows(),
                n == self.ncols(),
                k <= n,
                forall|acc: T, x: T, y: T| #[trigger] mul_sub.requires((acc, x, y)),
                forall|x: T, y: T| #[trigger] div.requires((x, y)),
                forall|x: T| #[trigger] pivot_ok.requires((x,)),
                l.wf(),
                u.wf(),
                l.nrows() == n,
                l.ncols() == n,
                u.nrows() == n,
                u.ncols() == n,
                lu_progress(a, n as nat, l@, u@, zero, one, mul_sub, div, pivot_ok, ups, lows, k as int),
            decreases n - k,
        {
            // Row k of U.
            let mut j: usize = k;
            while j < n
                invariant
                    self.wf(),
                    a == self@,
                    n == self.nrows(),
                    n == self.ncols(),
                    k < n,
                    k <= j <= n,
                    forall|acc: T, x: T, y: T| #[trigger] mul_sub.requires((acc, x, y)),
                    l.wf(),
                    u.wf(),
                    l.nrows() == n,
                    l.ncols() == n,
                    u.nrows() == n,
                    u.ncols() == n,
                    lu_progress(a, n as nat, l@, u@, zero, one, mul_sub, div, pivot_ok, ups, lows, k as int),
                    forall|jj: int|
                        k <= jj < j ==> #[trigger] upper_trace(mul_sub, a, l@, u@, k as int, jj, ups[(k as int, jj)]),
                decreases n - j,
            {
                let mut acc = self.entry(k, j);
                let ghost mut partial = seq![acc];
                let mut t: usize = 0;
                while t < k
                    invariant
                        l.wf(),
                        u.wf(),
                        l.nrows() == n,
                        l.ncols() == n,
                        u.nrows() == n,
                        u.ncols() == n,
                        k < n,
                        j < n,
                        t <= k,
                        forall|acc: T, x: T, y: T| #[trigger] mul_sub.requires((acc, x, y)),
                        partial.len() == t + 1,
                        partial[0] == a[k as int][j as int],
                        partial.last() == acc,
                        forall|s: int| 0 <= s < t ==> #[trigger] mul_sub.ensures(
                            (partial[s], l@[k as int][s], u@[s][j as int]),
                            partial[s + 1],
                        ),
                    decreases k - t,
                {
                    let next = mul_sub(acc, l.entry(k, t), u.entry(t, j));
                    proof {
                        partial = partial.push(next);
                    }
                    acc = next;
                    t = t + 1;
                }
                let ghost u1 = u@;
                let _ = u.set(k, j, acc);
                proof {
                    let u2 = u@;
                    let ki = k as int;
                    let ji = j as int;
                    assert forall|s: int| 0 <= s < ki implies #[trigger] mul_sub.ensures(
                        (partial[s], l@[ki][s], u2[s][ji]),
                        partial[s + 1],
                    ) by {
                        assert(u2[s][ji] == u1[s][ji]);
                    }
                    assert(upper_trace(mul_sub, a, l@, u2, ki, ji, partial));
                    let ups1 = ups;
                    ups = ups.insert((ki, ji), partial);
                    assert forall|p: int, jj: int| 0 <= p < ki && p <= jj < n implies
                        #[trigger] upper_trace(mul_sub, a, l@, u2, p, jj, ups[(p, jj)]) by {
                        assert(ups[(p, jj)] == ups1[(p, jj)]);
                        lemma_upper_trace_frame(mul_sub, a, l@, u1, l@, u2, p, jj, ups[(p, jj)]);
                    }
                    assert forall|jj: int| ki <= jj < ji + 1 implies
                        #[trigger] upper_trace(mul_sub, a, l@, u2, ki, jj, ups[(ki, jj)]) by {
                        if jj < ji {
                            assert(ups[(ki, jj)] == ups1[(ki, jj)]);
                            lemma_upper_trace_frame(mul_sub, a, l@, u1, l@, u2, ki, jj, ups[(ki, jj)]);
                        }
                    }
                    assert forall|i: int, q: int| 0 <= q < ki && q < i < n implies
                        #[trigger] lower_trace(mul_sub, div, a, l@, u2, i, q, lows[(i, q)]) by {
                        lemma_lower_trace_frame(mul_sub, div, a, l@, u1, l@, u2, i, q, lows[(i, q)]);
                    }
                }
                j = j + 1;
            }
            let pivot = u.entry(k, k);
            if !pivot_ok(pivot) {
                proof {
                    let nn = n as nat;
                    let ki = k as int;
                    assert forall|p: int, j: int| 0 <= p <= ki && p <= j < nn implies
                        #[trigger] upper_entry(mul_sub, a, nn, l@, u@, p, j) by {
                        lemma_upper_trace_entry(mul_sub, a, nn, l@, u@, p, j, ups[(p, j)]);
                    }
                    assert forall|i: int, q: int| 0 <= q < ki && q < i < nn implies
                        #[trigger] lower_entry(mul_sub, div, a, nn, l@, u@, i, q) by {
                        lemma_lower_trace_entry(mul_sub, div, a, nn, l@, u@, i, q, lows[(i, q)]);
                    }
                    assert(doolittle_upto(a, nn, l@, u@, zero, one, mul_sub, div, pivot_ok, ki));
                }
                return Err(MatrixError::SingularOrUnstable);
            }
            // Column k of L, below the diagonal.
            let mut i: usize = k + 1;
            while i < n
                invariant
                    self.wf(),
                    a == self@,
                    n == self.nrows(),
                    n == self.ncols(),
                    k < n,
                    k + 1 <= i <= n,
                    pivot == u@[k as int][k as int],
                    forall|acc: T, x: T, y: T| #[trigger] mul_sub.requires((acc, x, y)),
                    forall|x: T, y: T| #[trigger] div.requires((x, y)),
                    pivot_ok.ensures((pivot,), true),
                    l.wf(),
                    u.wf(),
                    l.nrows() == n,
                    l.ncols() == n,
                    u.nrows() == n,
                    u.ncols() == n,
                    lu_progress(a, n as nat, l@, u@, zero, one, mul_sub, div, pivot_ok, ups, lows, k as int),
                    forall|jj: int|
                        k <= jj < n ==> #[trigger] upper_trace(mul_sub, a, l@, u@, k as int, jj, ups[(k as int, jj)]),
                    forall|ii: int|
                        k < ii < i ==> #[trigger] lower_trace(
                            mul_sub,
                            div,
                            a,
                            l@,
                            u@,
                            ii,
                            k as int,
                            lows[(ii, k as int)],
                        ),
                decreases n - i,
            {
                let mut acc = self.entry(i, k);
                let ghost mut partial = seq![acc];
                let mut t: usize = 0;
                while t < k
                    invariant
                        l.wf(),
                        u.wf(),
                        l.nrows() == n,
                        l.ncols() == n,
                        u.nrows() == n,
                        u.ncols() == n,
                        k < n,
                        i < n,
                        t <= k,
                        forall|acc: T, x: T, y: T| #[trigger] mul_sub.requires((acc, x, y)),
                        partial.len() == t + 1,
                        partial[0] == a[i as int][k as int],
                        partial.last() == acc,
                        forall|s: int| 0 <= s < t ==> #[trigger] mul_sub.ensures(
                            (partial[s], l@[i as int][s], u@[s][k as int]),
                            partial[s + 1],
                        ),
                    decreases k - t,
                {
                    let next = mul_sub(acc, l.entry(i, t), u.entry(t, k));
                    proof {
                        partial = partial.push(next);
                    }
                    acc = next;
                    t = t + 1;
                }
                let v = div(acc, pivot);
                let ghost l1 = l@;
                let _ = l.set(i, k, v);
                proof {
                    let l2 = l@;
                    let ki = k as int;
                    let ii = i as int;
                    assert forall|s: int| 0 <= s < ki implies #[trigger] mul_sub.ensures(
                        (partial[s], l2[ii][s], u@[s][ki]),
                        partial[s + 1],
                    ) by {
                        assert(l2[ii][s] == l1[ii][s]);
                    }
                    assert(lower_trace(mul_sub, div, a, l2, u@, ii, ki, partial));
                    let lows1 = lows;
                    lows = lows.insert((ii, ki), partial);
                    assert forall|p: int, jj: int| 0 <= p < ki + 1 && p <= jj < n implies
                        #[trigger] upper_trace(mul_sub, a, l2, u@, p, jj, ups[(p, jj)]) by {
                        lemma_upper_trace_frame(mul_sub, a, l1, u@, l2, u@, p, jj, ups[(p, jj)]);
                    }
                    assert forall|i2: int, q: int| 0 <= q < ki && q < i2 < n implies
                        #[trigger] lower_trace(mul_sub, div, a, l2, u@, i2, q, lows[(i2, q)]) by {
                        assert(lows[(i2, q)] == lows1[(i2, q)]);
                        lemma_lower_trace_frame(mul_sub, div, a, l1, u@, l2, u@, i2, q, lows[(i2, q)]);
                    }
                    assert forall|i2: int| ki < i2 < ii + 1 implies #[trigger] lower_trace(
                        mul_sub,
                        div,
                        a,
                        l2,
                        u@,
                        i2,
                        ki,
                        lows[(i2, ki)],
                    ) by {
                        if i2 < ii {
                            assert(lows[(i2, ki)] == lows1[(i2, ki)]);
                            lemma_lower_trace_frame(mul_sub, div, a, l1, u@, l2, u@, i2, ki, lows[(i2, ki)]);
                        }
                    }
                }
                i = i + 1;
            }
            k = k + 1;
        }
        proof {
            let nn = n as nat;
            assert forall|p: int, j: int| 0 <= p <= j < nn implies #[trigger] upper_entry(
                mul_sub,
                a,
                nn,
                l@,
                u@,
                p,
                j,
            ) by {
                lemma_upper_trace_entry(mul_sub, a, nn, l@, u@, p, j, ups[(p, j)]);
            }
            assert forall|i: int, q: int| 0 <= q < i < nn implies #[trigger] lower_entry(
                mul_sub,
                div,
                a,
                nn,
                l@,
                u@,
                i,
                q,
            ) by {
                lemma_lower_trace_entry(mul_sub, div, a, nn, l@, u@, i, q, lows[(i, q)]);
            }
        }
        Ok((l, u))
    }
}

/// z solves L z = b by forward substitution with a unit diagonal: z[i] accumulates b[i] with
/// `mul_sub` over the pairs (L[i][t], z[t]), t < i.
pub open spec fn forward_solved<T, FM: Fn(T, T, T) -> T>(
    mul_sub: FM,
    l: Seq<Seq<T>>,
    b: Seq<T>,
    z: Seq<T>,
) -> bool {
    &&& z.len() == b.len()
    &&& forall|i: int|
        0 <= i < b.len() ==> #[trigger] folds_to(mul_sub, b[i], l[i].take(i), z.take(i), z[i])
}

/// Row i of back substitution: the pivot U[i][i] passed `pivot_ok`, and x[i] is `div` of the
/// accumulation of z[i] with `mul_sub` over the pairs (U[i][t], x[t]), t > i, by the pivot.
pub open spec fn back_entry<T, FM: Fn(T, T, T) -> T, FD: Fn(T, T) -> T, FP: Fn(T) -> bool>(
    mul_sub: FM,
    div: FD,
    pivot_ok: FP,
    u: Seq<Seq<T>>,
    z: Seq<T>,
    x: Seq<T>,
    i: int,
) -> bool {
    &&& pivot_ok.ensures((u[i][i],), true)
    &&& exists|s: T|
        #[trigger] folds_to(mul_sub, z[i], u[i].skip(i + 1), x.skip(i + 1), s) && div.ensures(
            (s, u[i][i]),
            x[i],
        )
}

/// x solves U x = z by back substitution.
pub open spec fn back_solved<T, FM: Fn(T, T, T) -> T, FD: Fn(T, T) -> T, FP: Fn(T) -> bool>(
    mul_sub: FM,
    div: FD,
    pivot_ok: FP,
    u: Seq<Seq<T>>,
    z: Seq<T>,
    x: Seq<T>,
) -> bool {
    &&& x.len() == z.len()
    &&& forall|i: int|
        0 <= i < z.len() ==> #[trigger] back_entry(mul_sub, div, pivot_ok, u, z, x, i)
}

/// Solves L z = b, for L unit lower triangular, row by row from the top; L's diagonal is not
/// read. L must be n x n and b of length n.
pub fn forward_substitution<T: Copy, FM: Fn(T, T, T) -> T>(
    l: &Matrix<T>,
    b: &[T],
    mul_sub: FM,
) -> (r: Result<Vec<T>, MatrixError>)
    requires
        l.wf(),
        forall|acc: T, x: T, y: T| #[trigger] mul_sub.requires((acc, x, y)),
    ensures
        r is Ok <==> l.nrows() == l.ncols() && l.nrows() == b@.len(),
        r matches Err(e) ==> e == MatrixError::DimensionMismatch,
        r matches Ok(z) ==> forward_solved(mul_sub, l@, b@, z@),
{
    let n = l.rows();
    if l.cols() != n || b.len() != n {
        return Err(MatrixError::DimensionMismatch);
    }
    let mut z: Vec<T> = Vec::new();
    let mut i: usize = 0;
    while i < n
        invariant
            l.wf(),
            n == l.nrows(),
            n == l.ncols(),
            n == b@.len(),
            i <= n,
            z@.len() == i,
            forall|acc: T, x: T, y: T| #[trigger] mul_sub.requires((acc, x, y)),
            forall|p: int|
                0 <= p < i ==> #[trigger] folds_to(mul_sub, b@[p], l@[p].take(p), z@.take(p), z@[p]),
        decreases n - i,
    {
        let mut acc = b[i];
        let ghost mut partial = seq![acc];
        let mut t: usize = 0;
        while t < i
            invariant
                l.wf(),
                n == l.nrows(),
                n == l.ncols(),
                i < n,
                t <= i,
                z@.len() == i,
                forall|acc: T, x: T, y: T| #[trigger] mul_sub.requires((acc, x, y)),
                partial.len() == t + 1,
                partial[0] == b@[i as int],
                partial.last() == acc,
                forall|s: int| 0 <= s < t ==> #[trigger] mul_sub.ensures(
                    (partial[s], l@[i as int][s], z@[s]),
                    partial[s + 1],
                ),
            decreases i - t,
        {
            let next = mul_sub(acc, l.entry(i, t), z[t]);
            proof {
                partial = partial.push(next);
            }
            acc = next;
            t = t + 1;
        }
        let ghost prev = z@;
        z.push(acc);
        proof {
            let ii = i as int;
            let xs = l@[ii].take(ii);
            let ys = z@.take(ii);
            assert(ys =~= prev);
            assert forall|s: int| 0 <= s < xs.len() implies #[trigger] mul_sub.ensures(
                (partial[s], xs[s], ys[s]),
                partial[s + 1],
            ) by {
                assert(xs[s] == l@[ii][s]);
            }
            assert(is_fold(mul_sub, b@[ii], xs, ys, partial));
            assert forall|p: int| 0 <= p < ii + 1 implies #[trigger] folds_to(
                mul_sub,
                b@[p],
                l@[p].take(p),
                z@.take(p),
                z@[p],
            ) by {
                if p < ii {
                    assert(z@.take(p) =~= prev.take(p));
                    assert(z@[p] == prev[p]);
                }
            }
        }
        i = i + 1;
    }
    Ok(z)
}

/// The running values behind `back_entry`, entry by entry.
spec fn back_trace<T, FM: Fn(T, T, T) -> T, FD: Fn(T, T) -> T>(
    mul_sub: FM,
    div: FD,
    u: Seq<Seq<T>>,
    z: Seq<T>,
    x: Seq<T>,
    n: int,
    i: int,
    partial: Seq<T>,
) -> bool {
    &&& partial.len() == n - i
    &&& partial[0] == z[i]
    &&& forall|t: int|
        0 <= t < n - i - 1 ==> #[trigger] mul_sub.ensures(
            (partial[t], u[i][i + 1 + t], x[i + 1 + t]),
            partial[t + 1],
        )
    &&& div.ensures((partial[n - i - 1], u[i][i]), x[i])
}

/// A back trace stays valid while the entries of x from position i on are unchanged.
proof fn lemma_back_trace_frame<T, FM: Fn(T, T, T) -> T, FD: Fn(T, T) -> T>(
    mul_sub: FM,
    div: FD,
    u: Seq<Seq<T>>,
    z: Seq<T>,
    x1: Seq<T>,
    x2: Seq<T>,
    n: int,
    i: int,
    partial: Seq<T>,
)
    requires
        0 <= i < n,
        x1.len() == n,
        x2.len() == n,
        back_trace(mul_sub, div, u, z, x1, n, i, partial),
        forall|k: int| i <= k < n ==> #[trigger] x2[k] == x1[k],
    ensures
        back_trace(mul_sub, div, u, z, x2, n, i, partial),
{
    assert forall|t: int| 0 <= t < n - i - 1 implies #[trigger] mul_sub.ensures(
        (partial[t], u[i][i + 1 + t], x2[i + 1 + t]),
        partial[t + 1],
    ) by {
        assert(x2[i + 1 + t] == x1[i + 1 + t]);
    }
    assert(x2[i] == x1[i]);
}

/// A back trace shows `back_entry` once its pivot is known to be accepted.
proof fn lemma_back_trace_entry<T, FM: Fn(T, T, T) -> T, FD: Fn(T, T) -> T, FP: Fn(T) -> bool>(
    mul_sub: FM,
    div: FD,
    pivot_ok: FP,
    u: Seq<Seq<T>>,
    z: Seq<T>,
    x: Seq<T>,
    n: int,
    i: int,
    partial: Seq<T>,
)
    requires
        0 <= i < n,
        u[i].len() == n,
        x.len() == n,
        back_trace(mul_sub, div, u, z, x, n, i, partial),
        pivot_ok.ensures((u[i][i],), true),
    ensures
        back_entry(mul_sub, div, pivot_ok, u, z, x, i),
{
    let xs = u[i].skip(i + 1);
    let ys = x.skip(i + 1);
    assert forall|t: int| 0 <= t < xs.len() implies #[trigger] mul_sub.ensures(
        (partial[t], xs[t], ys[t]),
        partial[t + 1],
    ) by {
        assert(xs[t] == u[i][i + 1 + t]);
        assert(ys[t] == x[i + 1 + t]);
    }
    assert(is_fold(mul_sub, z[i], xs, ys, partial));
    assert(folds_to(mul_sub, z[i], xs, ys, partial[n - i - 1]));
}

/// Solves U x = z, for U upper triangular, row by row from the bottom. Before row i is divided
/// by its pivot U[i][i], the pivot must pass `pivot_ok`; a rejected pivot is
/// `SingularOrUnstable`. U must be n x n and z of length n.
pub fn back_substitution<T: Copy, FM, FD, FP>(
    u: &Matrix<T>,
    z: &[T],
    mul_sub: FM,
    div: FD,
    pivot_ok: FP,
) -> (r: Result<Vec<T>, MatrixError>) where
    FM: Fn(T, T, T) -> T,
    FD: Fn(T, T) -> T,
    FP: Fn(T) -> bool,

    requires
        u.wf(),
        forall|acc: T, x: T, y: T| #[trigger] mul_sub.requires((acc, x, y)),
        forall|x: T, y: T| #[trigger] div.requires((x, y)),
        forall|x: T| #[trigger] pivot_ok.requires((x,)),
    ensures
        !(u.nrows() == u.ncols() && u.nrows() == z@.len()) ==> (r matches Err(e) && e
            == MatrixError::DimensionMismatch),
        r matches Err(e) ==> (e == MatrixError::DimensionMismatch && !(u.nrows() == u.ncols()
            && u.nrows() == z@.len())) || (e == MatrixError::SingularOrUnstable && u.nrows()
            == u.ncols() && u.nrows() == z@.len() && exists|i: int|
            0 <= i < u.nrows() && #[trigger] pivot_ok.ensures((u@[i][i],), false)),
        (u.nrows() == u.ncols() && u.nrows() == z@.len() && forall|i: int, b: bool|
            0 <= i < u.nrows() && #[trigger] pivot_ok.ensures((u@[i][i],), b) ==> b) ==> r is Ok,
        r matches Ok(x) ==> back_solved(mul_sub, div, pivot_ok, u@, z@, x@),
{
    let n = u.rows();
    if u.cols() != n || z.len() != n {
        return Err(MatrixError::DimensionMismatch);
    }
    let mut x: Vec<T> = Vec::new();
    let mut k: usize = 0;
    while k < n
        invariant
            k <= n,
            n == z@.len(),
            x@ == z@.take(k as int),
        decreases n - k,
    {
        x.push(z[k]);
        k = k + 1;
        assert(x@ =~= z@.take(k as int));
    }
    let ghost mut traces: Map<int, Seq<T>> = Map::empty();
    let mut i: usize = n;
    while i > 0
        invariant
            u.wf(),
            n == u.nrows(),
            n == u.ncols(),
            n == z@.len(),
            i <= n,
            x@.len() == n,
            forall|acc: T, x: T, y: T| #[trigger] mul_sub.requires((acc, x, y)),
            forall|x: T, y: T| #[trigger] div.requires((x, y)),
            forall|x: T| #[trigger] pivot_ok.requires((x,)),
            forall|p: int| i <= p < n ==> #[trigger] pivot_ok.ensures((u@[p][p],), true),
            forall|p: int|
                i <= p < n ==> #[trigger] back_trace(mul_sub, div, u@, z@, x@, n as int, p, traces[p]),
        decreases i,
    {
        i = i - 1;
        let mut acc = z[i];
        let ghost mut partial = seq![acc];
        let mut j: usize = i + 1;
        while j < n
            invariant
                u.wf(),
                n == u.nrows(),
                n == u.ncols(),
                i < n,
                i + 1 <= j <= n,
                x@.len() == n,
                forall|acc: T, x: T, y: T| #[trigger] mul_sub.requires((acc, x, y)),
                partial.len() == j - i,
                partial[0] == z@[i as int],
                partial.last() == acc,
                forall|t: int| 0 <= t < j - i - 1 ==> #[trigger] mul_sub.ensures(
                    (partial[t], u@[i as int][i + 1 + t], x@[i + 1 + t]),
                    partial[t + 1],
                ),
            decreases n - j,
        {
            let next = mul_sub(acc, u.entry(i, j), x[j]);
            proof {
                let t0 = j - i - 1;
                assert(i + 1 + t0 == j);
                partial = partial.push(next);
            }
            acc = next;
            j = j + 1;
        }
        let pivot = u.entry(i, i);
        if !pivot_ok(pivot) {
            return Err(MatrixError::SingularOrUnstable);
        }
        let v = div(acc, pivot);
        let ghost x1 = x@;
        x.set(i, v);
        proof {
            let ii = i as int;
            let ni = n as int;
            assert forall|t: int| 0 <= t < ni - ii - 1 implies #[trigger] mul_sub.ensures(
                (partial[t], u@[ii][ii + 1 + t], x@[ii + 1 + t]),
                partial[t + 1],
            ) by {
                assert(x@[ii + 1 + t] == x1[ii + 1 + t]);
            }
            assert(back_trace(mul_sub, div, u@, z@, x@, ni, ii, partial));
            let traces1 = traces;
            traces = traces.insert(ii, partial);
            assert forall|p: int| ii <= p < ni implies #[trigger] back_trace(
                mul_sub,
                div,
                u@,
                z@,
                x@,
                ni,
                p,
                traces[p],
            ) by {
                if p > ii {
                    assert(traces[p] == traces1[p]);
                    lemma_back_trace_frame(mul_sub, div, u@, z@, x1, x@, ni, p, traces[p]);
                }
            }
        }
    }
    proof {
        assert forall|p: int| 0 <= p < z@.len() implies #[trigger] back_entry(
            mul_sub,
            div,
            pivot_ok,
            u@,
            z@,
            x@,
            p,
        ) by {
            lemma_back_trace_entry(mul_sub, div, pivot_ok, u@, z@, x@, n as int, p, traces[p]);
        }
    }
    Ok(x)
}

/// L, U and b fit one system: L and U are n x n and b has length n.
pub open spec fn lu_system_fits<T>(l: &Matrix<T>, u: &Matrix<T>, b: Seq<T>) -> bool {
    &&& l.nrows() == l.ncols()
    &&& u.nrows() == u.ncols()
    &&& l.nrows() == u.nrows()
    &&& b.len() == l.nrows()
}

impl<T: Copy> Matrix<T> {
    /// Solves L U x = b from a factorization (L, U): forward substitution gives z with L z = b,
    /// back substitution then gives x with U x = z. Shapes that do not fit are
    /// `DimensionMismatch`; a pivot of U rejected by `pivot_ok` is `SingularOrUnstable`.
    pub fn solve_lu<FM, FD, FP>(
        l: &Matrix<T>,
        u: &Matrix<T>,
        b: &[T],
        mul_sub: FM,
        div: FD,
        pivot_ok: FP,
    ) -> (r: Result<Vec<T>, MatrixError>) where
        FM: Fn(T, T, T) -> T + Copy,
        FD: Fn(T, T) -> T,
        FP: Fn(T) -> bool,

        requires
            l.wf(),
            u.wf(),
            forall|acc: T, x: T, y: T| #[trigger] mul_sub.requires((acc, x, y)),
            forall|x: T, y: T| #[trigger] div.requires((x, y)),
            forall|x: T| #[trigger] pivot_ok.requires((x,)),
        ensures
            !lu_system_fits(l, u, b@) ==> (r matches Err(e) && e == MatrixError::DimensionMismatch),
            r matches Err(e) ==> (e == MatrixError::DimensionMismatch && !lu_system_fits(l, u, b@))
                || (e == MatrixError::SingularOrUnstable && lu_system_fits(l, u, b@) && exists|i: int|
                0 <= i < u.nrows() && #[trigger] pivot_ok.ensures((u@[i][i],), false)),
            (lu_system_fits(l, u, b@) && forall|i: int, c: bool|
                0 <= i < u.nrows() && #[trigger] pivot_ok.ensures((u@[i][i],), c) ==> c) ==> r is Ok,
            r matches Ok(x) ==> exists|z: Seq<T>|
                forward_solved(mul_sub, l@, b@, z) && #[trigger] back_solved(
                    mul_sub,
                    div,
                    pivot_ok,
                    u@,
                    z,
                    x@,
                ),
    {
        let n = l.rows();
        if l.cols() != n || u.rows() != n || u.cols() != n || b.len() != n {
            return Err(MatrixError::DimensionMismatch);
        }
        let z = match forward_substitution(l, b, mul_sub) {
            Ok(z) => z,
            Err(e) => {
                return Err(e);
            },
        };
        let x = back_substitution(u, z.as_slice(), mul_sub, div, pivot_ok);
        proof {
            if x is Ok {
                assert(back_solved(mul_sub, div, pivot_ok, u@, z@, x->Ok_0@));
            }
        }
        x
    }
}

/// Sum of xs[t] * ys[t] over t < k.
pub open spec fn dot_prefix(xs: Seq<int>, ys: Seq<int>, k: int) -> int
    decreases k,
{
    if k <= 0 {
        0
    } else {
        dot_prefix(xs, ys, k - 1) + xs[k - 1] * ys[k - 1]
    }
}

/// Accumulating with exact `acc - x * y` subtracts the sum of products.
proof fn lemma_fold_subtracts<FM: Fn(int, int, int) -> int>(
    mul_sub: FM,
    init: int,
    xs: Seq<int>,
    ys: Seq<int>,
    partial: Seq<int>,
    k: int,
)
    requires
        is_fold(mul_sub, init, xs, ys, partial),
        forall|acc: int, x: int, y: int, r: int| #[trigger] mul_sub.ensures((acc, x, y), r) ==> r
            == acc - x * y,
        0 <= k <= xs.len(),
    ensures
        partial[k] == init - dot_prefix(xs, ys, k),
    decreases k,
{
    if k > 0 {
        lemma_fold_subtracts(mul_sub, init, xs, ys, partial, k - 1);
        let t = k - 1;
        assert(mul_sub.ensures((partial[t], xs[t], ys[t]), partial[t + 1]));
    }
}

/// A sum of products only reads the first k pairs.
proof fn lemma_dot_prefix_take(xs: Seq<int>, ys: Seq<int>, m: int, k: int)
    requires
        0 <= k <= m <= xs.len(),
        m <= ys.len(),
    ensures
        dot_prefix(xs.take(m), ys.take(m), k) == dot_prefix(xs, ys, k),
    decreases k,
{
    if k > 0 {
        lemma_dot_prefix_take(xs, ys, m, k - 1);
    }
}

/// Terms that vanish from position m on do not change a sum of products.
proof fn lemma_dot_prefix_zero_tail(xs: Seq<int>, ys: Seq<int>, m: int, k: int)
    requires
        0 <= m <= k,
        forall|t: int| m <= t < k ==> #[trigger] xs[t] == 0 || ys[t] == 0,
    ensures
        dot_prefix(xs, ys, k) == dot_prefix(xs, ys, m),
    decreases k,
{
    if k > m {
        lemma_dot_prefix_zero_tail(xs, ys, m, k - 1);
        assert(xs[k - 1] == 0 || ys[k - 1] == 0);
        assert(xs[k - 1] * ys[k - 1] == 0) by (nonlinear_arith)
            requires
                xs[k - 1] == 0 || ys[k - 1] == 0,
        ;
    }
}

/// Entry (i, j) of the reconstruction, for one position.
proof fn lemma_doolittle_entry<FM, FD, FP>(
    a: Seq<Seq<int>>,
    n: nat,
    l: Seq<Seq<int>>,
    u: Seq<Seq<int>>,
    mul_sub: FM,
    div: FD,
    pivot_ok: FP,
    i: int,
    j: int,
) where
    FM: Fn(int, int, int) -> int,
    FD: Fn(int, int) -> int,
    FP: Fn(int) -> bool,

    requires
        shaped(a, n, n),
        is_doolittle(a, n, l, u, 0, 1, mul_sub, div, pivot_ok),
        forall|acc: int, x: int, y: int, r: int| #[trigger] mul_sub.ensures((acc, x, y), r) ==> r
            == acc - x * y,
        forall|x: int, y: int, r: int| #[trigger] div.ensures((x, y), r) ==> r * y == x,
        0 <= i < n,
        0 <= j < n,
    ensures
        a[i][j] == dot_prefix(l[i], column(u, n, j), n as int),
{
    let col = column(u, n, j);
    if i <= j {
        assert(upper_entry(mul_sub, a, n, l, u, i, j));
        let xs = l[i].take(i);
        let ys = col.take(i);
        let partial = choose|p: Seq<int>| #[trigger] is_fold(mul_sub, a[i][j], xs, ys, p) && p.last()
            == u[i][j];
        lemma_fold_subtracts(mul_sub, a[i][j], xs, ys, partial, i);
        lemma_dot_prefix_take(l[i], col, i, i);
        assert(dot_prefix(l[i], col, i + 1) == dot_prefix(l[i], col, i) + l[i][i] * col[i]);
        assert forall|t: int| i + 1 <= t < n implies #[trigger] l[i][t] == 0 || col[t] == 0 by {
            assert(l[i][t] == 0);
        }
        lemma_dot_prefix_zero_tail(l[i], col, i + 1, n as int);
    } else {
        assert(lower_entry(mul_sub, div, a, n, l, u, i, j));
        let xs = l[i].take(j);
        let ys = col.take(j);
        let s = choose|s: int| #[trigger] folds_to(mul_sub, a[i][j], xs, ys, s) && div.ensures(
            (s, u[j][j]),
            l[i][j],
        );
        let partial = choose|p: Seq<int>| #[trigger] is_fold(mul_sub, a[i][j], xs, ys, p) && p.last()
            == s;
        lemma_fold_subtracts(mul_sub, a[i][j], xs, ys, partial, j);
        lemma_dot_prefix_take(l[i], col, j, j);
        assert(l[i][j] * u[j][j] == s);
        assert(dot_prefix(l[i], col, j + 1) == dot_prefix(l[i], col, j) + l[i][j] * col[j]);
        assert forall|t: int| j + 1 <= t < n implies #[trigger] l[i][t] == 0 || col[t] == 0 by {
            assert(u[t][j] == 0);
        }
        lemma_dot_prefix_zero_tail(l[i], col, j + 1, n as int);
    }
}

/// With exact integer arithmetic, mul_sub = (acc, x, y) -> acc - x * y and a `div` that
/// divides exactly (r * y == x), the Doolittle factors multiply back to the matrix:
/// A[i][j] = sum over t of L[i][t] * U[t][j], that is A = L * U.
pub proof fn lemma_doolittle_reconstructs<FM, FD, FP>(
    a: Seq<Seq<int>>,
    n: nat,
    l: Seq<Seq<int>>,
    u: Seq<Seq<int>>,
    mul_sub: FM,
    div: FD,
    pivot_ok: FP,
) where
    FM: Fn(int, int, int) -> int,
    FD: Fn(int, int) -> int,
    FP: Fn(int) -> bool,

    requires
        shaped(a, n, n),
        is_doolittle(a, n, l, u, 0, 1, mul_sub, div, pivot_ok),
        forall|acc: int, x: int, y: int, r: int| #[trigger] mul_sub.ensures((acc, x, y), r) ==> r
            == acc - x * y,
        forall|x: int, y: int, r: int| #[trigger] div.ensures((x, y), r) ==> r * y == x,
    ensures
        forall|i: int, j: int|
            0 <= i < n && 0 <= j < n ==> #[trigger] a[i][j] == dot_prefix(l[i], column(u, n, j), n as int),
{
    assert forall|i: int, j: int| 0 <= i < n && 0 <= j < n implies #[trigger] a[i][j] == dot_prefix(
        l[i],
        column(u, n, j),
        n as int,
    ) by {
        lemma_doolittle_entry(a, n, l, u, mul_sub, div, pivot_ok, i, j);
    }
}

/// A sum of products over the pairs from position m on is the whole sum less its first m terms.
proof fn lemma_dot_prefix_skip(xs: Seq<int>, ys: Seq<int>, m: int, k: int)
    requires
        0 <= m,
        0 <= k,
        m + k <= xs.len(),
        m + k <= ys.len(),
    ensures
        dot_prefix(xs.skip(m), ys.skip(m), k) == dot_prefix(xs, ys, m + k) - dot_prefix(xs, ys, m),
    decreases k,
{
    if k > 0 {
        lemma_dot_prefix_skip(xs, ys, m, k - 1);
        assert(xs.skip(m)[k - 1] == xs[m + k - 1]);
        assert(ys.skip(m)[k - 1] == ys[m + k - 1]);
    }
}

/// With exact integer arithmetic (mul_sub = (acc, x, y) -> acc - x * y, and a `div` that
/// divides exactly), the two substitutions solve their triangular systems: for L unit lower
/// triangular, L z = b; for U upper triangular, U x = z. Together with A = L * U this is
/// A x = b.
pub proof fn lemma_substitution_solves<FM, FD, FP>(
    l: Seq<Seq<int>>,
    u: Seq<Seq<int>>,
    n: nat,
    b: Seq<int>,
    z: Seq<int>,
    x: Seq<int>,
    mul_sub: FM,
    div: FD,
    pivot_ok: FP,
) where
    FM: Fn(int, int, int) -> int,
    FD: Fn(int, int) -> int,
    FP: Fn(int) -> bool,

    requires
        shaped(l, n, n),
        shaped(u, n, n),
        b.len() == n,
        forall|i: int| 0 <= i < n ==> #[trigger] l[i][i] == 1,
        forall|i: int, j: int| 0 <= i < j < n ==> #[trigger] l[i][j] == 0,
        forall|i: int, j: int| 0 <= j < i < n ==> #[trigger] u[i][j] == 0,
        forward_solved(mul_sub, l, b, z),
        back_solved(mul_sub, div, pivot_ok, u, z, x),
        forall|acc: int, x: int, y: int, r: int| #[trigger] mul_sub.ensures((acc, x, y), r) ==> r
            == acc - x * y,
        forall|x: int, y: int, r: int| #[trigger] div.ensures((x, y), r) ==> r * y == x,
    ensures
        forall|i: int| 0 <= i < n ==> #[trigger] b[i] == dot_prefix(l[i], z, n as int),
        forall|i: int| 0 <= i < n ==> #[trigger] z[i] == dot_prefix(u[i], x, n as int),
{
    assert forall|i: int| 0 <= i < n implies #[trigger] b[i] == dot_prefix(l[i], z, n as int) by {
        let xs = l[i].take(i);
        let ys = z.take(i);
        assert(folds_to(mul_sub, b[i], xs, ys, z[i]));
        let partial = choose|p: Seq<int>| #[trigger] is_fold(mul_sub, b[i], xs, ys, p) && p.last()
            == z[i];
        lemma_fold_subtracts(mul_sub, b[i], xs, ys, partial, i);
        lemma_dot_prefix_take(l[i], z, i, i);
        assert(dot_prefix(l[i], z, i + 1) == dot_prefix(l[i], z, i) + l[i][i] * z[i]);
        assert forall|t: int| i + 1 <= t < n implies #[trigger] l[i][t] == 0 || z[t] == 0 by {
            assert(l[i][t] == 0);
        }
        lemma_dot_prefix_zero_tail(l[i], z, i + 1, n as int);
    }
    assert forall|i: int| 0 <= i < n implies #[trigger] z[i] == dot_prefix(u[i], x, n as int) by {
        assert(back_entry(mul_sub, div, pivot_ok, u, z, x, i));
        let xs = u[i].skip(i + 1);
        let ys = x.skip(i + 1);
        let s = choose|s: int| #[trigger] folds_to(mul_sub, z[i], xs, ys, s) && div.ensures(
            (s, u[i][i]),
            x[i],
        );
        let partial = choose|p: Seq<int>| #[trigger] is_fold(mul_sub, z[i], xs, ys, p) && p.last()
            == s;
        let k = n - i - 1;
        lemma_fold_subtracts(mul_sub, z[i], xs, ys, partial, k);
        lemma_dot_prefix_skip(u[i], x, i + 1, k);
        assert(x[i] * u[i][i] == s);
        assert(dot_prefix(u[i], x, i + 1) == dot_prefix(u[i], x, i) + u[i][i] * x[i]);
        assert forall|t: int| 0 <= t < i implies #[trigger] u[i][t] == 0 || x[t] == 0 by {
            assert(u[i][t] == 0);
        }
        lemma_dot_prefix_zero_tail(u[i], x, 0, i);
        assert(x[i] * u[i][i] == u[i][i] * x[i]) by (nonlinear_arith);
    }
}

} // verus!
