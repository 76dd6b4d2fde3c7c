use vstd::prelude::*;

use crate::dense::lemma_flat_bound;
use crate::dense::Matrix;

verus! {

/// A double-ended cursor over the rows of a matrix. `front` counts the rows
/// already yielded from the start, `back` those already yielded from the
/// end; the walk is exhausted once the two cursors meet.
pub struct Rows<'a, T> {
    pub mat: &'a Matrix<T>,
    pub front: usize,
    pub back: usize,
}

impl<'a, T> Rows<'a, T> {
    /// The cursor is attached to a well-formed matrix and the two ends have
    /// not crossed.
    pub open spec fn wf(&self) -> bool {
        &&& self.mat.wf()
        &&& self.front + self.back <= self.mat.rows
    }

    /// More rows remain between the two cursors.
    pub open spec fn has_next(&self) -> bool {
        self.front + self.back < self.mat.rows && self.mat.cols > 0
    }
}

impl<'a, T: Copy> Rows<'a, T> {
    /// Yields the next row from the front, as a copy of its cells in column
    /// order, or `None` once the two ends have met.
    pub fn next(&mut self) -> (r: Option<Vec<T>>)
        requires
            old(self).wf(),
        ensures
            final(self).wf(),
            final(self).mat == old(self).mat,
            old(self).has_next() ==> {
                &&& final(self).front == old(self).front + 1
                &&& final(self).back == old(self).back
                &&& r matches Some(v) && v@ == old(self).mat.row_seq(old(self).front as int)
            },
            !old(self).has_next() ==> r is None && *final(self) == *old(self),
    {
        let m = self.mat;
        let nrows = m.rows;
        let ncols = m.cols;
        let len = m.data.len();
        proof {
            assert(self.front * ncols + self.back * ncols <= nrows * ncols) by (nonlinear_arith)
                requires
                    self.front + self.back <= nrows,
                    0 <= ncols,
            ;
        }
        if self.front * ncols + self.back * ncols < len {
            proof {
                assert(self.front + self.back < nrows && ncols > 0) by (nonlinear_arith)
                    requires
                        self.front * ncols + self.back * ncols < nrows * ncols,
                        self.front + self.back <= nrows,
                        0 <= ncols,
                ;
                lemma_flat_bound(self.front as int, ncols - 1, nrows as int, ncols as int);
            }
            let base = self.front * ncols;
            let mut out: Vec<T> = Vec::new();
            let mut j: usize = 0;
            while j < ncols
                invariant
                    j <= ncols,
                    out@.len() == j,
                    base + ncols <= len,
                    len == m.data@.len(),
                    forall|q: int| 0 <= q < j ==> out@[q] == m.data@[base + q],
                decreases ncols - j,
            {
                out.push(m.data[base + j]);
                j = j + 1;
            }
            proof {
                assert(out@ =~= m.row_seq(self.front as int));
            }
            self.front = self.front + 1;
            Some(out)
        } else {
            proof {
                assert(!self.has_next()) by (nonlinear_arith)
                    requires
                        self.front * ncols + self.back * ncols >= nrows * ncols,
                        self.front + self.back <= nrows,
                        0 <= ncols,
                        self.has_next() <==> (self.front + self.back < nrows && ncols > 0),
                ;
            }
            None
        }
    }

    /// Yields the next row from the back — the row at
    /// `rows - back - 1` — or `None` once the two ends have met.
    pub fn next_back(&mut self) -> (r: Option<Vec<T>>)
        requires
            old(self).wf(),
        ensures
            final(self).wf(),
            final(self).mat == old(self).mat,
            old(self).has_next() ==> {
                &&& final(self).front == old(self).front
                &&& final(self).back == old(self).back + 1
                &&& r matches Some(v) && v@ == old(self).mat.row_seq(
                    old(self).mat.rows - old(self).back - 1,
                )
            },
            !old(self).has_next() ==> r is None && *final(self) == *old(self),
    {
        let m = self.mat;
        let nrows = m.rows;
        let ncols = m.cols;
        let len = m.data.len();
        proof {
            assert(self.front * ncols + self.back * ncols <= nrows * ncols) by (nonlinear_arith)
                requires
                    self.front + self.back <= nrows,
                    0 <= ncols,
            ;
        }
        if self.front * ncols + self.back * ncols < len {
            proof {
                assert(self.front + self.back < nrows && ncols > 0) by (nonlinear_arith)
                    requires
                        self.front * ncols + self.back * ncols < nrows * ncols,
                        self.front + self.back <= nrows,
                        0 <= ncols,
                ;
            }
            let row = nrows - self.back - 1;
            proof {
                assert((row + 1) * ncols <= nrows * ncols) by (nonlinear_arith)
                    requires
                        0 <= row,
                        row + 1 <= nrows,
                        0 <= ncols,
                ;
                assert((row + 1) * ncols == row * ncols + ncols) by (nonlinear_arith);
            }
            let base = row * ncols;
            let mut out: Vec<T> = Vec::new();
            let mut j: usize = 0;
            while j < ncols
                invariant
                    j <= ncols,
                    out@.len() == j,
                    base + ncols <= len,
                    len == m.data@.len(),
                    forall|q: int| 0 <= q < j ==> out@[q] == m.data@[base + q],
                decreases ncols - j,
            {
                out.push(m.data[base + j]);
                j = j + 1;
            }
            proof {
                assert(out@ =~= m.row_seq(row as int));
            }
            self.back = self.back + 1;
            Some(out)
        } else {
            proof {
                assert(!self.has_next()) by (nonlinear_arith)
                    requires
                        self.front * ncols + self.back * ncols >= nrows * ncols,
                        self.front + self.back <= nrows,
                        0 <= ncols,
                        self.has_next() <==> (self.front + self.back < nrows && ncols > 0),
                ;
            }
            None
        }
    }
}

/// A double-ended cursor over the columns of a matrix. Each yielded item is
/// the column's cells re-gathered across the rows, at a cost linear in the
/// number of rows; this is not a transpose.
pub struct Columns<'a, T> {
    pub mat: &'a Matrix<T>,
    pub front: usize,
    pub back: usize,
}

impl<'a, T> Columns<'a, T> {
    /// The cursor is attached to a well-formed matrix and the two ends have
    /// not crossed.
    pub open spec fn wf(&self) -> bool {
        &&& self.mat.wf()
        &&& self.front + self.back <= self.mat.cols
    }

    /// More columns remain between the two cursors.
    pub open spec fn has_next(&self) -> bool {
        self.front + self.back < self.mat.cols && self.mat.rows > 0
    }
}

impl<'a, T: Copy> Columns<'a, T> {
    /// Yields the next column from the front, as a copy of its cells in row
    /// order, or `None` once the two ends have met.
    pub fn next(&mut self) -> (r: Option<Vec<T>>)
        requires
            old(self).wf(),
        ensures
            final(self).wf(),
            final(self).mat == old(self).mat,
            old(self).has_next() ==> {
                &&& final(self).front == old(self).front + 1
                &&& final(self).back == old(self).back
                &&& r matches Some(v) && v@ == old(self).mat.col_seq(old(self).front as int)
            },
            !old(self).has_next() ==> r is None && *final(self) == *old(self),
    {
        let m = self.mat;
        let nrows = m.rows;
        let ncols = m.cols;
        let len = m.data.len();
        proof {
            assert(self.front * nrows + self.back * nrows <= ncols * nrows) by (nonlinear_arith)
                requires
                    self.front + self.back <= ncols,
                    0 <= nrows,
            ;
            assert(ncols * nrows == nrows * ncols) by (nonlinear_arith);
        }
        if self.front * nrows + self.back * nrows < len {
            proof {
                assert(self.front + self.back < ncols && nrows > 0) by (nonlinear_arith)
                    requires
                        self.front * nrows + self.back * nrows < ncols * nrows,
                        self.front + self.back <= ncols,
                        0 <= nrows,
                ;
            }
            let out = gather_column(m, self.front);
            self.front = self.front + 1;
            Some(out)
        } else {
            proof {
                assert(!self.has_next()) by (nonlinear_arith)
                    requires
                        self.front * nrows + self.back * nrows >= ncols * nrows,
                        self.front + self.back <= ncols,
                        0 <= nrows,
                        self.has_next() <==> (self.front + self.back < ncols && nrows > 0),
                ;
            }
            None
        }
    }

    /// Yields the next column from the back — the column at
    /// `cols - back - 1` — or `None` once the two ends have met.
    pub fn next_back(&mut self) -> (r: Option<Vec<T>>)
        requires
            old(self).wf(),
        ensures
            final(self).wf(),
            final(self).mat == old(self).mat,
            old(self).has_next() ==> {
                &&& final(self).front == old(self).front
                &&& final(self).back == old(self).back + 1
                &&& r matches Some(v) && v@ == old(self).mat.col_seq(
                    old(self).mat.cols - old(self).back - 1,
                )
            },
            !old(self).has_next() ==> r is None && *final(self) == *old(self),
    {
        let m = self.mat;
        let nrows = m.rows;
        let ncols = m.cols;
        let len = m.data.len();
        proof {
            assert(self.front * nrows + self.back * nrows <= ncols * nrows) by (nonlinear_arith)
                requires
                    self.front + self.back <= ncols,
                    0 <= nrows,
            ;
            assert(ncols * nrows == nrows * ncols) by (nonlinear_arith);
        }
        if self.front * nrows + self.back * nrows < len {
            proof {
                assert(self.front + self.back < ncols && nrows > 0) by (nonlinear_arith)
                    requires
                        self.front * nrows + self.back * nrows < ncols * nrows,
                        self.front + self.back <= ncols,
                        0 <= nrows,
                ;
            }
            let col = ncols - self.back - 1;
            let out = gather_column(m, col);
            self.back = self.back + 1;
            Some(out)
        } else {
            proof {
                assert(!self.has_next()) by (nonlinear_arith)
                    requires
                        self.front * nrows + self.back * nrows >= ncols * nrows,
                        self.front + self.back <= ncols,
                        0 <= nrows,
                        self.has_next() <==> (self.front + self.back < ncols && nrows > 0),
                ;
            }
            None
        }
    }
}

/// Copies column `col` of a well-formed matrix, one cell per row.
fn gather_column<T: Copy>(m: &Matrix<T>, col: usize) -> (out: Vec<T>)
    requires
        m.wf(),
        col < m.cols,
    ensures
        out@ == m.col_seq(col as int),
{
    let nrows = m.rows;
    let ncols = m.cols;
    let len = m.data.len();
    let mut out: Vec<T> = Vec::new();
    let mut i: usize = 0;
    while i < nrows
        invariant
            i <= nrows,
            out@.len() == i,
            col < ncols,
            m.wf(),
            len == m.data@.len(),
            nrows == m.rows,
            ncols == m.cols,
            forall|q: int| 0 <= q < i ==> out@[q] == m.data@[q * ncols + col],
        decreases nrows - i,
    {
        proof {
            lemma_flat_bound(i as int, col as int, nrows as int, ncols as int);
        }
        out.push(m.data[i * ncols + col]);
        i = i + 1;
    }
    proof {
        assert(out@ =~= m.col_seq(col as int));
    }
    out
}

/// A double-ended cursor over the cells of a matrix, walking the flat
/// buffer in row-major order.
pub struct Cells<'a, T> {
    pub mat: &'a Matrix<T>,
    pub front: usize,
    pub back: usize,
}

impl<'a, T> Cells<'a, T> {
    /// The two ends have not crossed.
    pub open spec fn wf(&self) -> bool {
        self.front + self.back <= self.mat.data@.len()
    }

    /// More cells remain between the two cursors.
    pub open spec fn has_next(&self) -> bool {
        self.front + self.back < self.mat.data@.len()
    }
}

impl<'a, T: Copy> Cells<'a, T> {
    /// Yields the next cell from the front, or `None` once the two ends
    /// have met.
    pub fn next(&mut self) -> (r: Option<T>)
        requires
            old(self).wf(),
        ensures
            final(self).wf(),
            final(self).mat == old(self).mat,
            old(self).has_next() ==> {
                &&& final(self).front == old(self).front + 1
                &&& final(self).back == old(self).back
                &&& r == Some(old(self).mat.data@[old(self).front as int])
            },
            !old(self).has_next() ==> r is None && *final(self) == *old(self),
    {
        let len = self.mat.data.len();
        if self.front + self.back < len {
            let v = self.mat.data[self.front];
            self.front = self.front + 1;
            Some(v)
        } else {
            None
        }
    }

    /// Yields the next cell from the back, or `None` once the two ends have
    /// met.
    pub fn next_back(&mut self) -> (r: Option<T>)
        requires
            old(self).wf(),
        ensures
            final(self).wf(),
            final(self).mat == old(self).mat,
            old(self).has_next() ==> {
                &&& final(self).front == old(self).front
                &&& final(self).back == old(self).back + 1
                &&& r == Some(
                    old(self).mat.data@[old(self).mat.data@.len() - old(self).back - 1],
                )
            },
            !old(self).has_next() ==> r is None && *final(self) == *old(self),
    {
        let len = self.mat.data.len();
        if self.front + self.back < len {
            let v = self.mat.data[len - self.back - 1];
            self.back = self.back + 1;
            Some(v)
        } else {
            None
        }
    }
}

impl<T> Matrix<T> {
    /// Starts a double-ended walk over the rows of this matrix.
    pub fn rows<'a>(&'a self) -> (r: Rows<'a, T>)
        requires
            self.wf(),
        ensures
            r.wf(),
            r.mat == self,
            r.front == 0,
            r.back == 0,
    {
        Rows { mat: self, front: 0, back: 0 }
    }

    /// Starts a double-ended walk over the columns of this matrix.
    pub fn cols<'a>(&'a self) -> (r: Columns<'a, T>)
        requires
            self.wf(),
        ensures
            r.wf(),
            r.mat == self,
            r.front == 0,
            r.back == 0,
    {
        Columns { mat: self, front: 0, back: 0 }
    }

    /// Starts a double-ended walk over the cells of this matrix, in
    /// row-major storage order.
    pub fn iter<'a>(&'a self) -> (r: Cells<'a, T>)
        requires
            self.wf(),
        ensures
            r.wf(),
            r.mat == self,
            r.front == 0,
            r.back == 0,
    {
        Cells { mat: self, front: 0, back: 0 }
    }
}

} // verus!
