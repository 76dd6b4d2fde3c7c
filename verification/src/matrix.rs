use vstd::prelude::*;

use crate::error::MatxError;

verus! {

/// The fixed-shape variant of the dense matrix: the row and column counts
/// are compile-time constants carried in the type, so combining two
/// matrices of different shapes is impossible to express. The cells live in
/// an ordinary dynamic matrix whose dimensions are pinned to `R` and `C`.
#[derive(Debug)]
pub struct Matrix<T, const R: usize, const C: usize> {
    pub inner: crate::dense::Matrix<T>,
}

impl<T, const R: usize, const C: usize> Matrix<T, R, C> {
    /// Structural invariant: the carried matrix is well formed and its
    /// dimensions are exactly the compile-time shape.
    pub open spec fn wf(&self) -> bool {
        &&& self.inner.wf()
        &&& self.inner.rows == R
        &&& self.inner.cols == C
    }

    /// Builds a fixed-shape matrix from nested rows: exactly `R` rows, each
    /// of exactly `C` cells. A shape that disagrees with the type is a
    /// caller bug, excluded by the precondition.
    pub fn from(value: Vec<Vec<T>>) -> (r: Self)
        requires
            value@.len() == R,
            R > 0,
            forall|i: int| 0 <= i < value@.len() ==> (#[trigger] value@[i])@.len() == C,
        ensures
            r.wf(),
            forall|i: int, j: int|
                0 <= i < R && 0 <= j < C ==> r.inner.data@[i * C + j] == value@[i]@[j],
    {
        Matrix { inner: crate::dense::Matrix::from(value) }
    }

    /// Writes `value` into the cell at (row, column), in place; an offset
    /// outside the buffer reports an index error and changes nothing.
    pub fn set(&mut self, value: T, row: usize, column: usize) -> (r: Result<(), &'static str>)
        requires
            old(self).wf(),
        ensures
            final(self).wf(),
            old(self).inner.flat_idx(row as int, column as int) < old(self).inner.data@.len()
                ==> {
                &&& r is Ok
                &&& final(self).inner.data@ == old(self).inner.data@.update(
                    old(self).inner.flat_idx(row as int, column as int),
                    value,
                )
            },
            old(self).inner.flat_idx(row as int, column as int) >= old(self).inner.data@.len()
                ==> r == Err::<(), &'static str>("Index out of range") && *final(self) == *old(
                self,
            ),
    {
        self.inner.set(value, row, column)
    }
}

impl<T: Copy, const R: usize, const C: usize> Matrix<T, R, C> {
    /// Reads the cell at (row, column); an offset outside the buffer yields
    /// `None`, a normal query outcome.
    pub fn get(&self, row: usize, column: usize) -> (r: Option<T>)
        ensures
            self.inner.flat_idx(row as int, column as int) < self.inner.data@.len() ==> r == Some(
                self.inner.data@[self.inner.flat_idx(row as int, column as int)],
            ),
            self.inner.flat_idx(row as int, column as int) >= self.inner.data@.len() ==> r is None,
    {
        self.inner.get(row, column)
    }

    /// Returns a new matrix of the same shape whose flat buffer is this
    /// one's reversed end to end; not a transpose.
    pub fn reverse(&self) -> (r: Self)
        ensures
            r.inner.data@ == self.inner.data@.reverse(),
            self.wf() ==> r.wf(),
    {
        Matrix { inner: self.inner.reverse() }
    }
}

impl<const R: usize, const C: usize> Matrix<i64, R, C> {
    /// Builds the all-zero matrix of this shape.
    pub fn new() -> (r: Self)
        requires
            R * C <= usize::MAX,
        ensures
            r.wf(),
            forall|i: int| 0 <= i < r.inner.data@.len() ==> r.inner.data@[i] == 0,
    {
        Matrix { inner: crate::dense::Matrix::new(R, C) }
    }

    /// Builds a matrix of this shape whose cells are drawn independently
    /// from the half-open sampling range, in row-major order.
    pub fn rand(range: core::ops::Range<i64>) -> (r: Self)
        requires
            R * C <= usize::MAX,
            range.start < range.end,
        ensures
            r.wf(),
            forall|i: int|
                0 <= i < r.inner.data@.len() ==> range.start <= #[trigger] r.inner.data@[i]
                    < range.end,
    {
        Matrix { inner: crate::dense::Matrix::rand(R, C, range) }
    }

    /// Elementwise addition. The shapes agree by construction — both
    /// operands have this type — so the sum always exists.
    pub fn add(self, rhs: Self) -> (r: Self)
        requires
            self.wf(),
            rhs.wf(),
            crate::arith::add_in_range(self.inner.data@, rhs.inner.data@),
        ensures
            r.wf(),
            r.inner.data@.len() == self.inner.data@.len(),
            forall|i: int|
                0 <= i < self.inner.data@.len() ==> r.inner.data@[i] == self.inner.data@[i]
                    + rhs.inner.data@[i],
    {
        match self.inner.add(rhs.inner) {
            Ok(m) => Matrix { inner: m },
            Err(_) => unreached(),
        }
    }

    /// Adds a scalar to every cell.
    pub fn add_scalar(self, rhs: i64) -> (r: Self)
        requires
            self.wf(),
            forall|i: int|
                0 <= i < self.inner.data@.len() ==> i64::MIN <= #[trigger] (self.inner.data@[i]
                    + rhs) <= i64::MAX,
        ensures
            r.wf(),
            r.inner.data@.len() == self.inner.data@.len(),
            forall|i: int|
                0 <= i < self.inner.data@.len() ==> r.inner.data@[i] == self.inner.data@[i] + rhs,
    {
        Matrix { inner: self.inner.add_scalar(rhs) }
    }

    /// The matrix product. The inner dimensions agree by construction —
    /// the type system only admits a right operand with `C` rows — so the
    /// product always exists, with `R` rows and the right operand's `K`
    /// columns.
    pub fn mul<const K: usize>(self, rhs: Matrix<i64, C, K>) -> (r: Matrix<i64, R, K>)
        requires
            self.wf(),
            rhs.wf(),
            crate::arith::mul_in_range(
                self.inner.data@,
                rhs.inner.data@,
                R as int,
                C as int,
                K as int,
            ),
        ensures
            r.wf(),
            forall|i: int, j: int|
                0 <= i < R && 0 <= j < K ==> r.inner.data@[i * K + j] == #[trigger] crate::arith::dot(
                    self.inner.data@,
                    rhs.inner.data@,
                    C as int,
                    K as int,
                    i,
                    j,
                ),
    {
        match self.inner.mul(rhs.inner) {
            Ok(m) => Matrix { inner: m },
            Err(_) => unreached(),
        }
    }
}

impl<const R: usize, const C: usize> PartialEq for Matrix<i64, R, C> {
    /// Two fixed-shape matrices are equal when their cells agree.
    fn eq(&self, other: &Self) -> (r: bool) {
        self.inner == other.inner
    }
}

impl<const R: usize, const C: usize> vstd::std_specs::cmp::PartialEqSpecImpl for Matrix<i64, R, C> {
    open spec fn obeys_eq_spec() -> bool {
        true
    }

    open spec fn eq_spec(&self, other: &Self) -> bool {
        self.inner.rows == other.inner.rows && self.inner.cols == other.inner.cols
            && self.inner.data@ == other.inner.data@
    }
}

} // verus!
