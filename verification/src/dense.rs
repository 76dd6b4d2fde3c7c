use vstd::prelude::*;

verus! {

/// A dense matrix: a flat, row-major buffer of `rows * cols` cells of type
/// `T`, where the cell at (row, column) lives at flat offset
/// `row * cols + column`.
///
/// The fields are public so that specifications can speak about them
/// directly; every verified operation demands and preserves the
/// well-formedness predicate [`Matrix::wf`].
#[derive(Debug, Clone, Default)]
pub struct Matrix<T> {
    pub data: Vec<T>,
    pub rows: usize,
    pub cols: usize,
}

/// A flat offset built from an in-range (row, column) pair lies inside the
/// `nrows * ncols` buffer.
pub proof fn lemma_flat_bound(i: int, j: int, nrows: int, ncols: int) by (nonlinear_arith)
    requires
        0 <= i < nrows,
        0 <= j < ncols,
    ensures
        0 <= i * ncols + j,
        i * ncols + j < nrows * ncols,
{
}

/// Distinct in-range (row, column) pairs map to distinct flat offsets, so
/// the row-major layout never aliases two cells.
pub proof fn lemma_flat_injective(i1: int, j1: int, i2: int, j2: int, ncols: int) by (nonlinear_arith)
    requires
        0 <= j1 < ncols,
        0 <= j2 < ncols,
        0 <= i1,
        0 <= i2,
        i1 * ncols + j1 == i2 * ncols + j2,
    ensures
        i1 == i2,
        j1 == j2,
{
}

impl<T> Matrix<T> {
    /// Structural invariant: the flat buffer holds exactly `rows * cols`
    /// cells.
    pub open spec fn wf(&self) -> bool {
        self.data@.len() == self.rows * self.cols
    }

    /// The flat offset of the cell at (r, c).
    pub open spec fn flat_idx(&self, r: int, c: int) -> int {
        r * self.cols + c
    }

    /// The cells of row i, in column order.
    pub open spec fn row_seq(&self, i: int) -> Seq<T> {
        self.data@.subrange(i * self.cols, i * self.cols + self.cols)
    }

    /// The cells of column j, gathered across the rows.
    pub open spec fn col_seq(&self, j: int) -> Seq<T> {
        Seq::new(self.rows as nat, |i: int| self.data@[i * self.cols + j])
    }

    /// Writes `value` into the cell at (row, column), in place. An offset
    /// that falls outside the buffer leaves the matrix unchanged and reports
    /// an index error; out-of-range writes are an expected, recoverable
    /// outcome for callers that compute indices from untrusted input.
    pub fn set(&mut self, value: T, row: usize, column: usize) -> (r: Result<(), &'static str>)
        ensures
            old(self).flat_idx(row as int, column as int) < old(self).data@.len() ==> {
                &&& r is Ok
                &&& final(self).data@ == old(self).data@.update(
                    old(self).flat_idx(row as int, column as int),
                    value,
                )
                &&& final(self).rows == old(self).rows
                &&& final(self).cols == old(self).cols
            },
            old(self).flat_idx(row as int, column as int) >= old(self).data@.len() ==> {
                &&& r == Err::<(), &'static str>("Index out of range")
                &&& *final(self) == *old(self)
            },
    {
        let n = self.data.len();
        match row.checked_mul(self.cols) {
            Some(prod) => match prod.checked_add(column) {
                Some(index) => {
                    if index >= n {
                        Err("Index out of range")
                    } else {
                        self.data[index] = value;
                        Ok(())
                    }
                },
                None => Err("Index out of range"),
            },
            None => Err("Index out of range"),
        }
    }

    /// Builds a matrix from nested rows: each inner vector is one row, taken
    /// in order, and every row must have the same length as the first. The
    /// shape is derived from the input. Ragged or empty input is a caller
    /// bug, excluded by the precondition rather than recovered from.
    pub fn from(value: Vec<Vec<T>>) -> (r: Self)
        requires
            value@.len() > 0,
            forall|i: int| 0 <= i < value@.len() ==> (#[trigger] value@[i])@.len() == value@[0]@.len(),
        ensures
            r.wf(),
            r.rows == value@.len(),
            r.cols == value@[0]@.len(),
            forall|i: int, j: int|
                0 <= i < value@.len() && 0 <= j < value@[0]@.len() ==> r.data@[i * (value@[0]@.len() as int)
                    + j] == value@[i]@[j],
    {
        let rows = value.len();
        let cols = value[0].len();
        let ghost orig = value@;
        let mut value = value;
        let mut data: Vec<T> = Vec::new();
        let mut k: usize = 0;
        while k < rows
            invariant
                rows == orig.len(),
                cols == orig[0]@.len(),
                value@.len() == orig.len(),
                k <= rows,
                forall|i: int| k <= i < orig.len() ==> value@[i] == orig[i],
                forall|i: int| 0 <= i < orig.len() ==> (#[trigger] orig[i])@.len() == cols,
                data@.len() == k * cols,
                forall|i: int, j: int|
                    0 <= i < k && 0 <= j < cols ==> data@[i * cols + j] == orig[i]@[j],
            decreases rows - k,
        {
            let ghost kk = k as int;
            let ghost before = data@;
            data.append(&mut value[k]);
            proof {
                assert(orig[kk]@.len() == cols);
                assert(data@.len() == kk * cols + cols);
                assert((kk + 1) * cols == kk * cols + cols) by (nonlinear_arith);
                assert(data@.len() == (kk + 1) * cols);
                assert forall|i: int, j: int| 0 <= i < kk + 1 && 0 <= j < cols implies data@[i * cols
                    + j] == orig[i]@[j] by {
                    lemma_flat_bound(i, j, kk + 1, cols as int);
                    if i < kk {
                        assert(i * cols + j < kk * cols) by (nonlinear_arith)
                            requires
                                0 <= i < kk,
                                0 <= j < cols,
                        ;
                        assert(data@[i * cols + j] == before[i * cols + j]);
                    } else {
                        assert(i * cols + j - before.len() == j);
                    }
                }
            }
            k = k + 1;
        }
        Matrix { data, rows, cols }
    }
}

impl<T: Copy> Matrix<T> {
    /// Reads the cell at (row, column). An offset that falls outside the
    /// buffer yields `None`; an out-of-range read is a normal query outcome,
    /// not an error.
    pub fn get(&self, row: usize, column: usize) -> (r: Option<T>)
        ensures
            self.flat_idx(row as int, column as int) < self.data@.len() ==> r == Some(
                self.data@[self.flat_idx(row as int, column as int)],
            ),
            self.flat_idx(row as int, column as int) >= self.data@.len() ==> r is None,
    {
        let n = self.data.len();
        match row.checked_mul(self.cols) {
            Some(prod) => match prod.checked_add(column) {
                Some(index) => {
                    if index >= n {
                        None
                    } else {
                        Some(self.data[index])
                    }
                },
                None => None,
            },
            None => None,
        }
    }

    /// Returns a new matrix of the same shape whose flat buffer is the
    /// reversal, end to end, of this one's physical storage order. This is
    /// neither a transpose nor a row reversal; it only coincides with a
    /// half-turn rotation visually when the matrix is square.
    pub fn reverse(&self) -> (r: Self)
        ensures
            r.rows == self.rows,
            r.cols == self.cols,
            r.data@ == self.data@.reverse(),
            r.data@.len() == self.data@.len(),
            self.wf() ==> r.wf(),
    {
        let n = self.data.len();
        let mut data: Vec<T> = Vec::new();
        let mut k: usize = 0;
        while k < n
            invariant
                n == self.data@.len(),
                k <= n,
                data@.len() == k,
                forall|i: int| 0 <= i < k ==> data@[i] == self.data@[n - 1 - i],
            decreases n - k,
        {
            data.push(self.data[n - 1 - k]);
            k = k + 1;
        }
        proof {
            assert(data@ =~= self.data@.reverse());
        }
        Matrix { data, rows: self.rows, cols: self.cols }
    }

    /// Returns a new matrix of the same shape where every cell is the image
    /// of the corresponding cell of this matrix under `f`.
    pub fn apply<F: Fn(&T) -> T>(&self, f: F) -> (r: Self)
        requires
            forall|i: int| 0 <= i < self.data@.len() ==> call_requires(f, (&self.data@[i],)),
        ensures
            r.rows == self.rows,
            r.cols == self.cols,
            r.data@.len() == self.data@.len(),
            forall|i: int|
                0 <= i < self.data@.len() ==> call_ensures(f, (&self.data@[i],), #[trigger] r.data@[i]),
            self.wf() ==> r.wf(),
    {
        let n = self.data.len();
        let mut data: Vec<T> = Vec::new();
        let mut k: usize = 0;
        while k < n
            invariant
                n == self.data@.len(),
                k <= n,
                data@.len() == k,
                forall|i: int| 0 <= i < n ==> call_requires(f, (&self.data@[i],)),
                forall|i: int| 0 <= i < k ==> call_ensures(f, (&self.data@[i],), #[trigger] data@[i]),
            decreases n - k,
        {
            let y = f(&self.data[k]);
            data.push(y);
            k = k + 1;
        }
        Matrix { data, rows: self.rows, cols: self.cols }
    }
}

impl Matrix<i64> {
    /// Builds a `rows` by `cols` matrix with every cell zero.
    pub fn new(rows: usize, cols: usize) -> (r: Self)
        requires
            rows * cols <= usize::MAX,
        ensures
            r.wf(),
            r.rows == rows,
            r.cols == cols,
            forall|i: int| 0 <= i < r.data@.len() ==> r.data@[i] == 0,
    {
        let n: usize = rows * cols;
        let data: Vec<i64> = vec![0i64; n];
        Matrix { data, rows, cols }
    }

    /// Builds a `rows` by `cols` matrix with every cell set to the default
    /// value of the element type, which for integers is zero.
    pub fn empty(rows: usize, cols: usize) -> (r: Self)
        requires
            rows * cols <= usize::MAX,
        ensures
            r.wf(),
            r.rows == rows,
            r.cols == cols,
            forall|i: int| 0 <= i < r.data@.len() ==> r.data@[i] == 0,
    {
        let n: usize = rows * cols;
        let data: Vec<i64> = vec![0i64; n];
        Matrix { data, rows, cols }
    }
}

impl PartialEq for Matrix<i64> {
    /// Two matrices are equal when they have the same shape and the same
    /// cells in the same storage order.
    fn eq(&self, other: &Self) -> (r: bool) {
        if self.rows != other.rows || self.cols != other.cols {
            return false;
        }
        let n = self.data.len();
        if n != other.data.len() {
            return false;
        }
        let mut k: usize = 0;
        while k < n
            invariant
                n == self.data@.len(),
                n == other.data@.len(),
                k <= n,
                forall|i: int| 0 <= i < k ==> self.data@[i] == other.data@[i],
            decreases n - k,
        {
            if self.data[k] != other.data[k] {
                return false;
            }
            k = k + 1;
        }
        proof {
            assert(self.data@ =~= other.data@);
        }
        true
    }
}

impl vstd::std_specs::cmp::PartialEqSpecImpl for Matrix<i64> {
    open spec fn obeys_eq_spec() -> bool {
        true
    }

    open spec fn eq_spec(&self, other: &Self) -> bool {
        self.rows == other.rows && self.cols == other.cols && self.data@ == other.data@
    }
}

} // verus!
