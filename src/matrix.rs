//! Fixed-dimension matrices stored flat in row-major order.

use vstd::prelude::*;

use vstd::arithmetic::div_mod::{
    lemma_fundamental_div_mod, lemma_fundamental_div_mod_converse_div,
    lemma_fundamental_div_mod_converse_mod,
};

use crate::error::MatrixError;
use crate::vector::{dot_with, is_dot, total, VectorN};

verus! {

/// Which kind of line `get_tuple` extracts from a matrix.
#[derive(Debug, Clone, Copy, PartialEq, Eq, Structural)]
pub enum Direction {
    Row,
    Column,
}

/// For `i < rows` and `j < cols`, the row-major position `i * cols + j`
/// lies inside a grid of `rows * cols` entries.
pub proof fn lemma_index_in_grid(i: int, j: int, rows: int, cols: int)
    requires
        0 <= i < rows,
        0 <= j < cols,
    ensures
        0 <= i * cols + j < rows * cols,
        i * cols + cols <= rows * cols,
{
    assert(0 <= i * cols) by (nonlinear_arith)
        requires
            0 <= i,
            0 <= cols,
    ;
    assert((i + 1) * cols <= rows * cols) by (nonlinear_arith)
        requires
            i + 1 <= rows,
            0 <= cols,
    ;
    assert((i + 1) * cols == i * cols + cols) by (nonlinear_arith);
}

/// An `R` x `C` matrix.
#[derive(Debug, Clone, PartialEq)]
pub struct Matrix<T, const R: usize, const C: usize> {
    matrix: Vec<T>,
}

impl<T, const R: usize, const C: usize> View for Matrix<T, R, C> {
    type V = Seq<T>;

    /// The entries, row by row.
    closed spec fn view(&self) -> Seq<T> {
        self.matrix@
    }
}

impl<T: Copy, const R: usize, const C: usize> Matrix<T, R, C> {
    /// A well-formed matrix holds exactly `R * C` entries, a number that
    /// fits in memory.
    pub open spec fn wf(&self) -> bool {
        &&& self@.len() == R * C
        &&& R * C <= usize::MAX
    }

    /// The entry at row `i` and column `j`.
    pub open spec fn entry(&self, i: int, j: int) -> T {
        self@[i * C + j]
    }

    /// Row `i`, from left to right.
    pub open spec fn row(&self, i: int) -> Seq<T> {
        Seq::new(C as nat, |j: int| self.entry(i, j))
    }

    /// Column `j`, from top to bottom.
    pub open spec fn column(&self, j: int) -> Seq<T> {
        Seq::new(R as nat, |i: int| self.entry(i, j))
    }

    /// Creates a matrix from its entries in row-major order. Succeeds exactly
    /// when `data` holds `R * C` entries, and fails with `InvalidDimensions`
    /// otherwise.
    pub fn new(data: Vec<T>) -> (r: Result<Self, MatrixError>)
        ensures
            r is Ok <==> data@.len() == R * C,
            r matches Ok(m) ==> m.wf() && m@ == data@,
            r matches Err(e) ==> e == MatrixError::InvalidDimensions,
    {
        let len = data.len();
        match R.checked_mul(C) {
            Some(n) => {
                if len != n {
                    return Err(MatrixError::InvalidDimensions);
                }
                Ok(Matrix { matrix: data })
            },
            None => Err(MatrixError::InvalidDimensions),
        }
    }

    /// The `n` x `n` identity matrix, with `one` on the main diagonal and
    /// `zero` elsewhere: flat position `k` holds `one` exactly when
    /// `k % n == k / n`. The caller picks `R == C == n`.
    pub fn new_identity_matrix(n: usize, one: T, zero: T) -> (r: Self)
        requires
            n == R,
            n == C,
            n * n <= usize::MAX,
        ensures
            r.wf(),
            forall|k: int|
                0 <= k < n * n ==> #[trigger] r@[k] == if k % (n as int) == k / (n as int) {
                    one
                } else {
                    zero
                },
            forall|i: int, j: int|
                0 <= i < n && 0 <= j < n ==> #[trigger] r.entry(i, j) == if i == j {
                    one
                } else {
                    zero
                },
    {
        let total_len = n * n;
        assert(n > 0 || total_len == 0) by (nonlinear_arith)
            requires
                total_len == n * n,
        ;
        let mut matrix: Vec<T> = Vec::new();
        let mut k: usize = 0;
        while k < total_len
            invariant
                total_len == n * n,
                n > 0 || total_len == 0,
                k <= total_len,
                matrix@.len() == k,
                forall|q: int|
                    0 <= q < k ==> #[trigger] matrix@[q] == if q % (n as int) == q / (n as int) {
                        one
                    } else {
                        zero
                    },
            decreases total_len - k,
        {
            if k % n == k / n {
                matrix.push(one);
            } else {
                matrix.push(zero);
            }
            k = k + 1;
        }
        let r = Matrix { matrix };
        assert forall|i: int, j: int| 0 <= i < n && 0 <= j < n implies #[trigger] r.entry(
            i,
            j,
        ) == if i == j {
            one
        } else {
            zero
        } by {
            lemma_index_in_grid(i, j, n as int, n as int);
            lemma_fundamental_div_mod_converse_div(i * n + j, n as int, i, j);
            lemma_fundamental_div_mod_converse_mod(i * n + j, n as int, i, j);
        }
        r
    }

    /// The dimensions as (rows, columns).
    pub fn dimensions(&self) -> (r: (usize, usize))
        ensures
            r == (R, C),
    {
        (R, C)
    }

    /// The entries in row-major order.
    pub fn data(&self) -> (r: &Vec<T>)
        ensures
            r@ == self@,
    {
        &self.matrix
    }

    /// The entry at row `i` and column `j`, or `None` when either index is
    /// out of range.
    pub fn get(&self, i: usize, j: usize) -> (r: Option<T>)
        requires
            self.wf(),
        ensures
            (i < R && j < C) ==> r == Some(self.entry(i as int, j as int)),
            !(i < R && j < C) ==> r is None,
    {
        if i >= R || j >= C {
            return None;
        }
        proof {
            lemma_index_in_grid(i as int, j as int, R as int, C as int);
        }
        Some(self.matrix[i * C + j])
    }

    /// Writes `entry` at row `i` and column `j`. Fails with `UndefinedIndex`,
    /// leaving the matrix as it was, when either index is out of range.
    pub fn set(&mut self, entry: T, i: usize, j: usize) -> (r: Result<(), MatrixError>)
        requires
            old(self).wf(),
        ensures
            final(self).wf(),
            r is Ok <==> (i < R && j < C),
            r is Ok ==> final(self)@ == old(self)@.update(i * C + j, entry),
            r matches Err(e) ==> e == MatrixError::UndefinedIndex && final(self)@ == old(self)@,
    {
        if i >= R || j >= C {
            return Err(MatrixError::UndefinedIndex);
        }
        proof {
            lemma_index_in_grid(i as int, j as int, R as int, C as int);
        }
        self.matrix.set(i * C + j, entry);
        Ok(())
    }

    /// Overwrites every entry with `k`.
    pub fn fill(&mut self, k: T)
        requires
            old(self).wf(),
        ensures
            final(self).wf(),
            forall|p: int| 0 <= p < R * C ==> #[trigger] final(self)@[p] == k,
    {
        let n = self.matrix.len();
        let mut p: usize = 0;
        while p < n
            invariant
                n == self@.len(),
                self.wf(),
                p <= n,
                forall|q: int| 0 <= q < p ==> #[trigger] self@[q] == k,
            decreases n - p,
        {
            self.matrix.set(p, k);
            p = p + 1;
        }
    }

    /// Scales every entry by `a` in place: entry `p` becomes `times(entry, a)`.
    pub fn scalar_multiply<M: Fn(T, T) -> T>(&mut self, a: T, times: M)
        requires
            old(self).wf(),
            total(times),
        ensures
            final(self).wf(),
            forall|p: int|
                0 <= p < R * C ==> #[trigger] times.ensures((old(self)@[p], a), final(self)@[p]),
    {
        let n = self.matrix.len();
        let mut p: usize = 0;
        while p < n
            invariant
                n == self@.len(),
                self.wf(),
                total(times),
                p <= n,
                forall|q: int| p <= q < n ==> self@[q] == old(self)@[q],
                forall|q: int| 0 <= q < p ==> #[trigger] times.ensures((old(self)@[q], a), self@[q]),
            decreases n - p,
        {
            let v = times(self.matrix[p], a);
            self.matrix.set(p, v);
            p = p + 1;
        }
    }

    /// Combines `self` and `rhs` entry by entry: entry `p` of the result is
    /// `f(self[p], rhs[p])`. With addition this is the matrix sum, with
    /// subtraction the difference. Two matrices of one type always combine.
    pub fn entrywise<F: Fn(T, T) -> T>(&self, rhs: &Self, f: F) -> (r: Result<Self, MatrixError>)
        requires
            self.wf(),
            rhs.wf(),
            total(f),
        ensures
            r is Ok,
            r matches Ok(m) ==> m.wf() && forall|p: int|
                0 <= p < R * C ==> #[trigger] f.ensures((self@[p], rhs@[p]), m@[p]),
    {
        let n = self.matrix.len();
        let mut out: Vec<T> = Vec::new();
        let mut p: usize = 0;
        while p < n
            invariant
                n == self@.len(),
                self.wf(),
                rhs.wf(),
                total(f),
                p <= n,
                out@.len() == p,
                forall|q: int| 0 <= q < p ==> #[trigger] f.ensures((self@[q], rhs@[q]), out@[q]),
            decreases n - p,
        {
            out.push(f(self.matrix[p], rhs.matrix[p]));
            p = p + 1;
        }
        Matrix::new(out)
    }

    /// The rows of `self`, top to bottom.
    fn rows(&self) -> (r: Vec<Vec<T>>)
        requires
            self.wf(),
        ensures
            r@.len() == R,
            forall|y: int| 0 <= y < R ==> #[trigger] r@[y]@ == self.row(y),
    {
        let mut rows: Vec<Vec<T>> = Vec::new();
        let mut y: usize = 0;
        while y < R
            invariant
                self.wf(),
                y <= R,
                rows@.len() == y,
                forall|q: int| 0 <= q < y ==> #[trigger] rows@[q]@ == self.row(q),
            decreases R - y,
        {
            if let Some(v) = self.get_tuple(y, Direction::Row) {
                rows.push(v);
            }
            y = y + 1;
        }
        rows
    }

    /// The columns of `self`, left to right.
    fn columns(&self) -> (r: Vec<Vec<T>>)
        requires
            self.wf(),
        ensures
            r@.len() == C,
            forall|x: int| 0 <= x < C ==> #[trigger] r@[x]@ == self.column(x),
    {
        let mut cols: Vec<Vec<T>> = Vec::new();
        let mut x: usize = 0;
        while x < C
            invariant
                self.wf(),
                x <= C,
                cols@.len() == x,
                forall|q: int| 0 <= q < x ==> #[trigger] cols@[q]@ == self.column(q),
            decreases C - x,
        {
            if let Some(v) = self.get_tuple(x, Direction::Column) {
                cols.push(v);
            }
            x = x + 1;
        }
        cols
    }

    /// The matrix product `self * other`: the entry at row `y` and column `x`
    /// is the dot product of row `y` of `self` and column `x` of `other`,
    /// under `times` and `plus` folded from `zero`.
    pub fn multiply<const K: usize, M: Fn(T, T) -> T, A: Fn(T, T) -> T>(
        &self,
        other: &Matrix<T, C, K>,
        zero: T,
        times: M,
        plus: A,
    ) -> (r: Matrix<T, R, K>)
        requires
            self.wf(),
            other.wf(),
            total(times),
            total(plus),
            R * K <= usize::MAX,
        ensures
            r.wf(),
            forall|y: int, x: int|
                0 <= y < R && 0 <= x < K ==> #[trigger] is_dot(
                    times,
                    plus,
                    zero,
                    self.row(y),
                    other.column(x),
                    r.entry(y, x),
                ),
    {
        let rows = self.rows();
        let cols = other.columns();
        let total_len = R * K;
        let mut out: Vec<T> = Vec::new();
        let mut idx: usize = 0;
        while idx < total_len
            invariant
                total_len == R * K,
                total(times),
                total(plus),
                rows@.len() == R,
                forall|y: int| 0 <= y < R ==> #[trigger] rows@[y]@ == self.row(y),
                cols@.len() == K,
                forall|x: int| 0 <= x < K ==> #[trigger] cols@[x]@ == other.column(x),
                idx <= total_len,
                out@.len() == idx,
                forall|q: int|
                    0 <= q < idx ==> #[trigger] is_dot(
                        times,
                        plus,
                        zero,
                        self.row(q / (K as int)),
                        other.column(q % (K as int)),
                        out@[q],
                    ),
            decreases total_len - idx,
        {
            let x = idx % K;
            let y = idx / K;
            proof {
                lemma_fundamental_div_mod(idx as int, K as int);
                assert(y < R) by (nonlinear_arith)
                    requires
                        idx == K * y + x,
                        0 <= x,
                        idx < R * K,
                        0 <= y,
                ;
            }
            let d = dot_with(rows[y].as_slice(), cols[x].as_slice(), zero, &times, &plus);
            out.push(d);
            idx = idx + 1;
        }
        let r = Matrix { matrix: out };
        assert forall|y: int, x: int| 0 <= y < R && 0 <= x < K implies #[trigger] is_dot(
            times,
            plus,
            zero,
            self.row(y),
            other.column(x),
            r.entry(y, x),
        ) by {
            lemma_index_in_grid(y, x, R as int, K as int);
            lemma_fundamental_div_mod_converse_div(y * K + x, K as int, y, x);
            lemma_fundamental_div_mod_converse_mod(y * K + x, K as int, y, x);
        }
        r
    }

    /// Row `i` (for `Row`) or column `i` (for `Column`), or `None` when
    /// there is no such line.
    pub fn get_tuple(&self, i: usize, direction: Direction) -> (r: Option<Vec<T>>)
        requires
            self.wf(),
        ensures
            direction == Direction::Row ==> (i < R <==> r is Some),
            direction == Direction::Column ==> (i < C <==> r is Some),
            direction == Direction::Row ==> (r matches Some(v) ==> v@ == self.row(i as int)),
            direction == Direction::Column ==> (r matches Some(v) ==> v@ == self.column(
                i as int,
            )),
    {
        match direction {
            Direction::Row => {
                if i >= R {
                    return None;
                }
                let mut out: Vec<T> = Vec::new();
                let mut j: usize = 0;
                while j < C
                    invariant
                        self.wf(),
                        i < R,
                        j <= C,
                        out@ =~= self.row(i as int).take(j as int),
                    decreases C - j,
                {
                    proof {
                        lemma_index_in_grid(i as int, j as int, R as int, C as int);
                    }
                    out.push(self.matrix[i * C + j]);
                    j = j + 1;
                }
                Some(out)
            },
            Direction::Column => {
                if i >= C {
                    return None;
                }
                let mut out: Vec<T> = Vec::new();
                let mut k: usize = 0;
                while k < R
                    invariant
                        self.wf(),
                        i < C,
                        k <= R,
                        out@ =~= self.column(i as int).take(k as int),
                    decreases R - k,
                {
                    proof {
                        lemma_index_in_grid(k as int, i as int, R as int, C as int);
                    }
                    out.push(self.matrix[k * C + i]);
                    k = k + 1;
                }
                Some(out)
            },
        }
    }
}

/// `f` can be applied to any value.
pub open spec fn total_unary<T, F: Fn(T) -> T>(f: F) -> bool {
    forall|x: T| #[trigger] f.requires((x,))
}

/// The products `p = m[0] * m[3]` and `q = m[1] * m[2]` under `times`,
/// and `d = p - q` under `minus`.
pub open spec fn det_trace<T, M: Fn(T, T) -> T, S: Fn(T, T) -> T>(
    times: M,
    minus: S,
    m: Seq<T>,
    p: T,
    q: T,
    d: T,
) -> bool {
    &&& times.ensures((m[0], m[3]), p)
    &&& times.ensures((m[1], m[2]), q)
    &&& minus.ensures((p, q), d)
}

/// `d` is the determinant `m[0] * m[3] - m[1] * m[2]` of the 2 x 2 matrix
/// with entries `m`, under `times` and `minus`.
pub open spec fn is_det<T, M: Fn(T, T) -> T, S: Fn(T, T) -> T>(
    times: M,
    minus: S,
    m: Seq<T>,
    d: T,
) -> bool {
    exists|p: T, q: T| #[trigger] det_trace(times, minus, m, p, q, d)
}

/// The steps of a 2 x 2 inversion: `d` is the determinant, `s` its
/// reciprocal, `nb` and `nc` the negated off-diagonal entries, and `r` is
/// `[m[3], nb, nc, m[0]]` scaled by `s`.
pub open spec fn inverse_trace<
    T,
    G: Fn(T) -> T,
    M: Fn(T, T) -> T,
    S: Fn(T, T) -> T,
    Q: Fn(T) -> T,
>(negate: G, times: M, minus: S, recip: Q, m: Seq<T>, d: T, s: T, nb: T, nc: T, r: Seq<T>) -> bool {
    &&& is_det(times, minus, m, d)
    &&& recip.ensures((d,), s)
    &&& negate.ensures((m[1],), nb)
    &&& negate.ensures((m[2],), nc)
    &&& r.len() == 4
    &&& times.ensures((m[3], s), r[0])
    &&& times.ensures((nb, s), r[1])
    &&& times.ensures((nc, s), r[2])
    &&& times.ensures((m[0], s), r[3])
}

/// `r` is the inverse of the 2 x 2 matrix with entries `m`: its adjugate
/// scaled by the reciprocal of its determinant.
pub open spec fn is_inverse<T, G: Fn(T) -> T, M: Fn(T, T) -> T, S: Fn(T, T) -> T, Q: Fn(T) -> T>(
    negate: G,
    times: M,
    minus: S,
    recip: Q,
    m: Seq<T>,
    r: Seq<T>,
) -> bool {
    exists|d: T, s: T, nb: T, nc: T|
        #[trigger] inverse_trace(negate, times, minus, recip, m, d, s, nb, nc, r)
}

impl<T: Copy> Matrix<T, 2, 2> {
    /// The determinant `a * d - b * c` of the matrix `[a, b; c, d]`.
    pub fn det<M: Fn(T, T) -> T, S: Fn(T, T) -> T>(&self, times: M, minus: S) -> (r: T)
        requires
            self.wf(),
            total(times),
            total(minus),
        ensures
            is_det(times, minus, self@, r),
    {
        let p = times(self.matrix[0], self.matrix[3]);
        let q = times(self.matrix[1], self.matrix[2]);
        let d = minus(p, q);
        assert(det_trace(times, minus, self@, p, q, d));
        d
    }

    /// The inverse: `[d, -b; -c, a]` scaled by `recip` of the determinant.
    /// A singular matrix is not rejected: its entries are whatever `recip`
    /// gives for a zero determinant, scaled (infinities or NaN for floating
    /// point).
    pub fn inv<G: Fn(T) -> T, M: Fn(T, T) -> T, S: Fn(T, T) -> T, Q: Fn(T) -> T>(
        &self,
        negate: G,
        times: M,
        minus: S,
        recip: Q,
    ) -> (r: Self)
        requires
            self.wf(),
            total_unary(negate),
            total(times),
            total(minus),
            total_unary(recip),
        ensures
            r.wf(),
            is_inverse(negate, times, minus, recip, self@, r@),
    {
        let a = self.matrix[0];
        let b = self.matrix[1];
        let c = self.matrix[2];
        let dd = self.matrix[3];
        let p = times(a, dd);
        let q = times(b, c);
        let d = minus(p, q);
        assert(det_trace(times, minus, self@, p, q, d));
        let s = recip(d);
        // a and d trade places, b and c are negated, and all is scaled by s
        let nb = negate(b);
        let nc = negate(c);
        let mut matrix: Vec<T> = Vec::new();
        matrix.push(times(dd, s));
        matrix.push(times(nb, s));
        matrix.push(times(nc, s));
        matrix.push(times(a, s));
        let r = Matrix { matrix };
        assert(inverse_trace(negate, times, minus, recip, self@, d, s, nb, nc, r@));
        r
    }
}

impl<T: Copy, const N: usize> Matrix<T, N, N> {
    /// The product of `self` and the column vector `v`: entry `i` is the dot
    /// product of row `i` with `v`, that is the sum over `j` in order of
    /// column `j` scaled by `v[j]`, folded from `zero`.
    pub fn transform<M: Fn(T, T) -> T, A: Fn(T, T) -> T>(
        &self,
        v: &VectorN<T, N>,
        zero: T,
        times: M,
        plus: A,
    ) -> (r: VectorN<T, N>)
        requires
            self.wf(),
            total(times),
            total(plus),
        ensures
            r@.len() == N,
            forall|i: int|
                0 <= i < N ==> #[trigger] is_dot(times, plus, zero, self.row(i), v@, r@[i]),
    {
        let rows = self.rows();
        let mut out: [T; N] = [zero; N];
        let mut i: usize = 0;
        while i < N
            invariant
                total(times),
                total(plus),
                rows@.len() == N,
                forall|y: int| 0 <= y < N ==> #[trigger] rows@[y]@ == self.row(y),
                i <= N,
                out@.len() == N,
                forall|q: int|
                    0 <= q < i ==> #[trigger] is_dot(times, plus, zero, self.row(q), v@, out@[q]),
            decreases N - i,
        {
            proof {
                v.lemma_len();
            }
            let d = dot_with(rows[i].as_slice(), v.data(), zero, &times, &plus);
            out[i] = d;
            i = i + 1;
        }
        VectorN::new(out)
    }
}

} // verus!
