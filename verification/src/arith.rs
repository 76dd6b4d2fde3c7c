use vstd::prelude::*;

use crate::dense::lemma_flat_bound;
use crate::dense::Matrix;
use crate::error::MatxError;

verus! {

/// The sum of the first `k` entries of `s`, folded left to right.
pub open spec fn sum_prefix(s: Seq<i64>, k: int) -> int
    decreases k,
{
    if k <= 0 {
        0
    } else {
        sum_prefix(s, k - 1) + s[k - 1]
    }
}

/// Division rounding toward zero: the semantics of `/` on Rust's signed
/// integers. It differs from the Euclidean `/` of specifications when
/// exactly one operand is negative.
pub open spec fn div_trunc(a: int, b: int) -> int
    recommends
        b != 0,
{
    if a == 0 {
        0
    } else if a > 0 && b > 0 {
        a / b
    } else if a < 0 && b < 0 {
        (a * -1) / (b * -1)
    } else if a < 0 {
        ((a * -1) / b) * -1
    } else {
        (a / (b * -1)) * -1
    }
}

impl Matrix<i64> {
    /// Two matrices have the same shape: equal row and column counts.
    pub open spec fn same_shape(&self, other: &Self) -> bool {
        self.rows == other.rows && self.cols == other.cols
    }
}

/// The first `k` terms of the product accumulation for output cell (i, j):
/// the sum over `t < k` of `A[i, t] * B[t, j]`, in flat row-major indexing.
pub open spec fn dot_prefix(
    a: Seq<i64>,
    b: Seq<i64>,
    acols: int,
    bcols: int,
    i: int,
    j: int,
    k: int,
) -> int
    decreases k,
{
    if k <= 0 {
        0
    } else {
        dot_prefix(a, b, acols, bcols, i, j, k - 1) + a[i * acols + (k - 1)] * b[(k - 1) * bcols
            + j]
    }
}

/// The full accumulation for output cell (i, j) of the matrix product.
pub open spec fn dot(a: Seq<i64>, b: Seq<i64>, acols: int, bcols: int, i: int, j: int) -> int {
    dot_prefix(a, b, acols, bcols, i, j, acols)
}

/// Every partial accumulation, and every individual product, that the
/// matrix product walks through fits the element type.
pub open spec fn mul_in_range(
    a: Seq<i64>,
    b: Seq<i64>,
    arows: int,
    acols: int,
    bcols: int,
) -> bool {
    forall|i: int, j: int, k: int|
        0 <= i < arows && 0 <= j < bcols && 0 <= k <= acols ==> {
            &&& i64::MIN <= #[trigger] dot_prefix(a, b, acols, bcols, i, j, k) <= i64::MAX
            &&& (k < acols ==> i64::MIN <= a[i * acols + k] * b[k * bcols + j] <= i64::MAX)
        }
}

/// The first `k` terms of the division-shaped accumulation for output cell
/// (i, j): the sum over `t < k` of `A[i, t] / B[t, j]`, rounding each
/// quotient toward zero.
pub open spec fn dotdiv_prefix(
    a: Seq<i64>,
    b: Seq<i64>,
    acols: int,
    bcols: int,
    i: int,
    j: int,
    k: int,
) -> int
    decreases k,
{
    if k <= 0 {
        0
    } else {
        dotdiv_prefix(a, b, acols, bcols, i, j, k - 1) + div_trunc(
            a[i * acols + (k - 1)] as int,
            b[(k - 1) * bcols + j] as int,
        )
    }
}

/// The full division-shaped accumulation for output cell (i, j).
pub open spec fn dotdiv(a: Seq<i64>, b: Seq<i64>, acols: int, bcols: int, i: int, j: int) -> int {
    dotdiv_prefix(a, b, acols, bcols, i, j, acols)
}

/// Every partial accumulation of the division-shaped product fits the
/// element type, every divisor cell is nonzero, and the one overflowing
/// quotient never arises.
pub open spec fn div_in_range(
    a: Seq<i64>,
    b: Seq<i64>,
    arows: int,
    acols: int,
    bcols: int,
) -> bool {
    forall|i: int, j: int, k: int|
        0 <= i < arows && 0 <= j < bcols && 0 <= k <= acols ==> {
            &&& i64::MIN <= #[trigger] dotdiv_prefix(a, b, acols, bcols, i, j, k) <= i64::MAX
            &&& (k < acols ==> b[k * bcols + j] != 0 && !(a[i * acols + k] == i64::MIN && b[k
                * bcols + j] == -1))
        }
}

/// The mathematical power `base ^ exp`, for a nonnegative exponent.
pub open spec fn pow_spec(base: i64, exp: int) -> int
    recommends
        0 <= exp,
{
    vstd::arithmetic::power::pow(base as int, exp as nat)
}

/// All powers of `base` up to exponent `exp` fit the element type.
pub open spec fn pow_in_range(base: i64, exp: i64) -> bool {
    forall|k: int| 0 <= k <= exp ==> i64::MIN <= #[trigger] pow_spec(base, k) <= i64::MAX
}

/// Every pairwise sum of cells fits the element type.
pub open spec fn add_in_range(a: Seq<i64>, b: Seq<i64>) -> bool {
    forall|i: int| 0 <= i < a.len() ==> i64::MIN <= #[trigger] (a[i] + b[i]) <= i64::MAX
}

/// Every pairwise difference of cells fits the element type.
pub open spec fn sub_in_range(a: Seq<i64>, b: Seq<i64>) -> bool {
    forall|i: int| 0 <= i < a.len() ==> i64::MIN <= #[trigger] (a[i] - b[i]) <= i64::MAX
}

impl Matrix<i64> {
    /// Elementwise addition of two same-shape matrices, producing a new
    /// matrix; operands of different shapes are rejected with a size
    /// mismatch and never partially combined.
    pub fn add(self, rhs: Matrix<i64>) -> (r: Result<Matrix<i64>, MatxError>)
        requires
            self.wf(),
            rhs.wf(),
            self.same_shape(&rhs) ==> add_in_range(self.data@, rhs.data@),
        ensures
            self.same_shape(&rhs) ==> (r matches Ok(m) && {
                &&& m.wf()
                &&& m.rows == self.rows
                &&& m.cols == self.cols
                &&& m.data@.len() == self.data@.len()
                &&& forall|i: int|
                    0 <= i < self.data@.len() ==> m.data@[i] == self.data@[i] + rhs.data@[i]
            }),
            !self.same_shape(&rhs) ==> r == Err::<Matrix<i64>, MatxError>(MatxError::SizeError),
    {
        if self.rows != rhs.rows || self.cols != rhs.cols {
            return Err(MatxError::SizeError);
        }
        let n = self.data.len();
        let mut data: Vec<i64> = Vec::new();
        let mut k: usize = 0;
        while k < n
            invariant
                n == self.data@.len(),
                n == rhs.data@.len(),
                k <= n,
                data@.len() == k,
                add_in_range(self.data@, rhs.data@),
                forall|i: int| 0 <= i < k ==> data@[i] == self.data@[i] + rhs.data@[i],
            decreases n - k,
        {
            data.push(self.data[k] + rhs.data[k]);
            k = k + 1;
        }
        Ok(Matrix { data, rows: self.rows, cols: self.cols })
    }

    /// Elementwise subtraction of two same-shape matrices, producing a new
    /// matrix; operands of different shapes are rejected with a size
    /// mismatch and never partially combined.
    pub fn sub(self, rhs: Matrix<i64>) -> (r: Result<Matrix<i64>, MatxError>)
        requires
            self.wf(),
            rhs.wf(),
            self.same_shape(&rhs) ==> sub_in_range(self.data@, rhs.data@),
        ensures
            self.same_shape(&rhs) ==> (r matches Ok(m) && {
                &&& m.wf()
                &&& m.rows == self.rows
                &&& m.cols == self.cols
                &&& m.data@.len() == self.data@.len()
                &&& forall|i: int|
                    0 <= i < self.data@.len() ==> m.data@[i] == self.data@[i] - rhs.data@[i]
            }),
            !self.same_shape(&rhs) ==> r == Err::<Matrix<i64>, MatxError>(MatxError::SizeError),
    {
        if self.rows != rhs.rows || self.cols != rhs.cols {
            return Err(MatxError::SizeError);
        }
        let n = self.data.len();
        let mut data: Vec<i64> = Vec::new();
        let mut k: usize = 0;
        while k < n
            invariant
                n == self.data@.len(),
                n == rhs.data@.len(),
                k <= n,
                data@.len() == k,
                sub_in_range(self.data@, rhs.data@),
                forall|i: int| 0 <= i < k ==> data@[i] == self.data@[i] - rhs.data@[i],
            decreases n - k,
        {
            data.push(self.data[k] - rhs.data[k]);
            k = k + 1;
        }
        Ok(Matrix { data, rows: self.rows, cols: self.cols })
    }

    /// Adds a scalar to every cell. There is no shape to mismatch, so this
    /// always succeeds.
    pub fn add_scalar(self, rhs: i64) -> (r: Matrix<i64>)
        requires
            forall|i: int|
                0 <= i < self.data@.len() ==> i64::MIN <= #[trigger] (self.data@[i] + rhs)
                    <= i64::MAX,
        ensures
            r.rows == self.rows,
            r.cols == self.cols,
            r.data@.len() == self.data@.len(),
            forall|i: int| 0 <= i < self.data@.len() ==> r.data@[i] == self.data@[i] + rhs,
            self.wf() ==> r.wf(),
    {
        let n = self.data.len();
        let mut data: Vec<i64> = Vec::new();
        let mut k: usize = 0;
        while k < n
            invariant
                n == self.data@.len(),
                k <= n,
                data@.len() == k,
                forall|i: int|
                    0 <= i < n ==> i64::MIN <= #[trigger] (self.data@[i] + rhs) <= i64::MAX,
                forall|i: int| 0 <= i < k ==> data@[i] == self.data@[i] + rhs,
            decreases n - k,
        {
            data.push(self.data[k] + rhs);
            k = k + 1;
        }
        Matrix { data, rows: self.rows, cols: self.cols }
    }

    /// Subtracts a scalar from every cell. There is no shape to mismatch,
    /// so this always succeeds.
    pub fn sub_scalar(self, rhs: i64) -> (r: Matrix<i64>)
        requires
            forall|i: int|
                0 <= i < self.data@.len() ==> i64::MIN <= #[trigger] (self.data@[i] - rhs)
                    <= i64::MAX,
        ensures
            r.rows == self.rows,
            r.cols == self.cols,
            r.data@.len() == self.data@.len(),
            forall|i: int| 0 <= i < self.data@.len() ==> r.data@[i] == self.data@[i] - rhs,
            self.wf() ==> r.wf(),
    {
        let n = self.data.len();
        let mut data: Vec<i64> = Vec::new();
        let mut k: usize = 0;
        while k < n
            invariant
                n == self.data@.len(),
                k <= n,
                data@.len() == k,
                forall|i: int|
                    0 <= i < n ==> i64::MIN <= #[trigger] (self.data@[i] - rhs) <= i64::MAX,
                forall|i: int| 0 <= i < k ==> data@[i] == self.data@[i] - rhs,
            decreases n - k,
        {
            data.push(self.data[k] - rhs);
            k = k + 1;
        }
        Matrix { data, rows: self.rows, cols: self.cols }
    }

    /// Multiplies every cell by a scalar. There is no shape to mismatch, so
    /// this always succeeds.
    pub fn mul_scalar(self, rhs: i64) -> (r: Matrix<i64>)
        requires
            forall|i: int|
                0 <= i < self.data@.len() ==> i64::MIN <= #[trigger] (self.data@[i] * rhs)
                    <= i64::MAX,
        ensures
            r.rows == self.rows,
            r.cols == self.cols,
            r.data@.len() == self.data@.len(),
            forall|i: int| 0 <= i < self.data@.len() ==> r.data@[i] == self.data@[i] * rhs,
            self.wf() ==> r.wf(),
    {
        let n = self.data.len();
        let mut data: Vec<i64> = Vec::new();
        let mut k: usize = 0;
        while k < n
            invariant
                n == self.data@.len(),
                k <= n,
                data@.len() == k,
                forall|i: int|
                    0 <= i < n ==> i64::MIN <= #[trigger] (self.data@[i] * rhs) <= i64::MAX,
                forall|i: int| 0 <= i < k ==> data@[i] == self.data@[i] * rhs,
            decreases n - k,
        {
            data.push(self.data[k] * rhs);
            k = k + 1;
        }
        Matrix { data, rows: self.rows, cols: self.cols }
    }

    /// Divides every cell by a scalar, rounding toward zero. There is no
    /// shape to mismatch, so this always succeeds; a zero divisor, and the
    /// one overflowing quotient, are excluded up front.
    pub fn div_scalar(self, rhs: i64) -> (r: Matrix<i64>)
        requires
            rhs != 0,
            forall|i: int| 0 <= i < self.data@.len() ==> !(#[trigger] self.data@[i] == i64::MIN
                && rhs == -1),
        ensures
            r.rows == self.rows,
            r.cols == self.cols,
            r.data@.len() == self.data@.len(),
            forall|i: int|
                0 <= i < self.data@.len() ==> r.data@[i] == div_trunc(self.data@[i] as int, rhs as int),
            self.wf() ==> r.wf(),
    {
        let n = self.data.len();
        let mut data: Vec<i64> = Vec::new();
        let mut k: usize = 0;
        while k < n
            invariant
                n == self.data@.len(),
                k <= n,
                data@.len() == k,
                rhs != 0,
                forall|i: int| 0 <= i < n ==> !(#[trigger] self.data@[i] == i64::MIN && rhs == -1),
                forall|i: int| 0 <= i < k ==> data@[i] == div_trunc(self.data@[i] as int, rhs as int),
            decreases n - k,
        {
            data.push(div_i64(self.data[k], rhs));
            k = k + 1;
        }
        Matrix { data, rows: self.rows, cols: self.cols }
    }

    /// Maps every cell through unary negation, shape preserved.
    pub fn neg(self) -> (r: Matrix<i64>)
        requires
            forall|i: int| 0 <= i < self.data@.len() ==> self.data@[i] != i64::MIN,
        ensures
            r.rows == self.rows,
            r.cols == self.cols,
            r.data@.len() == self.data@.len(),
            forall|i: int| 0 <= i < self.data@.len() ==> r.data@[i] == -self.data@[i],
            self.wf() ==> r.wf(),
    {
        let n = self.data.len();
        let mut data: Vec<i64> = Vec::new();
        let mut k: usize = 0;
        while k < n
            invariant
                n == self.data@.len(),
                k <= n,
                data@.len() == k,
                forall|i: int| 0 <= i < n ==> self.data@[i] != i64::MIN,
                forall|i: int| 0 <= i < k ==> data@[i] == -self.data@[i],
            decreases n - k,
        {
            data.push(-self.data[k]);
            k = k + 1;
        }
        Matrix { data, rows: self.rows, cols: self.cols }
    }

    /// The fold of every cell through addition, left to right in flat
    /// storage order.
    pub fn sum(&self) -> (r: i64)
        requires
            forall|k: int|
                0 <= k <= self.data@.len() ==> i64::MIN <= #[trigger] sum_prefix(self.data@, k)
                    <= i64::MAX,
        ensures
            r == sum_prefix(self.data@, self.data@.len() as int),
    {
        let n = self.data.len();
        let mut acc: i64 = 0;
        let mut k: usize = 0;
        while k < n
            invariant
                n == self.data@.len(),
                k <= n,
                forall|q: int|
                    0 <= q <= n ==> i64::MIN <= #[trigger] sum_prefix(self.data@, q) <= i64::MAX,
                acc == sum_prefix(self.data@, k as int),
            decreases n - k,
        {
            proof {
                assert(sum_prefix(self.data@, k + 1) == sum_prefix(self.data@, k as int)
                    + self.data@[k as int]);
            }
            acc = acc + self.data[k];
            k = k + 1;
        }
        acc
    }
}

impl Matrix<i64> {
    /// The standard triple-loop matrix product: valid only when the inner
    /// dimensions match (`self.cols == rhs.rows`), else a size mismatch.
    /// Output cell (i, j) accumulates `sum over k of A[i, k] * B[k, j]`,
    /// starting from the additive identity.
    pub fn mul(self, rhs: Matrix<i64>) -> (r: Result<Matrix<i64>, MatxError>)
        requires
            self.wf(),
            rhs.wf(),
            self.cols == rhs.rows ==> mul_in_range(
                self.data@,
                rhs.data@,
                self.rows as int,
                self.cols as int,
                rhs.cols as int,
            ),
        ensures
            self.cols == rhs.rows ==> (r matches Ok(m) && {
                &&& m.wf()
                &&& m.rows == self.rows
                &&& m.cols == rhs.cols
                &&& forall|i: int, j: int|
                    0 <= i < self.rows && 0 <= j < rhs.cols ==> m.data@[i * rhs.cols + j] == dot(
                        self.data@,
                        rhs.data@,
                        self.cols as int,
                        rhs.cols as int,
                        i,
                        j,
                    )
            }),
            self.cols != rhs.rows ==> r == Err::<Matrix<i64>, MatxError>(MatxError::SizeError),
    {
        if self.cols != rhs.rows {
            return Err(MatxError::SizeError);
        }
        let arows = self.rows;
        let acols = self.cols;
        let bcols = rhs.cols;
        let alen = self.data.len();
        let blen = rhs.data.len();
        let mut data: Vec<i64> = Vec::new();
        let mut i: usize = 0;
        while i < arows
            invariant
                arows == self.rows,
                acols == self.cols,
                bcols == rhs.cols,
                acols == rhs.rows,
                self.wf(),
                rhs.wf(),
                alen == self.data@.len(),
                blen == rhs.data@.len(),
                mul_in_range(self.data@, rhs.data@, arows as int, acols as int, bcols as int),
                i <= arows,
                data@.len() == i * bcols,
                forall|p: int, q: int|
                    0 <= p < i && 0 <= q < bcols ==> data@[p * bcols + q] == dot(
                        self.data@,
                        rhs.data@,
                        acols as int,
                        bcols as int,
                        p,
                        q,
                    ),
            decreases arows - i,
        {
            let mut j: usize = 0;
            while j < bcols
                invariant
                    arows == self.rows,
                    acols == self.cols,
                    bcols == rhs.cols,
                    acols == rhs.rows,
                    self.wf(),
                    rhs.wf(),
                    alen == self.data@.len(),
                    blen == rhs.data@.len(),
                    mul_in_range(self.data@, rhs.data@, arows as int, acols as int, bcols as int),
                    i < arows,
                    j <= bcols,
                    data@.len() == i * bcols + j,
                    forall|p: int, q: int|
                        0 <= p < i && 0 <= q < bcols ==> data@[p * bcols + q] == dot(
                            self.data@,
                            rhs.data@,
                            acols as int,
                            bcols as int,
                            p,
                            q,
                        ),
                    forall|q: int|
                        0 <= q < j ==> data@[i * bcols + q] == dot(
                            self.data@,
                            rhs.data@,
                            acols as int,
                            bcols as int,
                            i as int,
                            q,
                        ),
                decreases bcols - j,
            {
                let mut acc: i64 = 0;
                let mut k: usize = 0;
                while k < acols
                    invariant
                        arows == self.rows,
                        acols == self.cols,
                        bcols == rhs.cols,
                        acols == rhs.rows,
                        self.wf(),
                        rhs.wf(),
                        alen == self.data@.len(),
                        blen == rhs.data@.len(),
                        mul_in_range(
                            self.data@,
                            rhs.data@,
                            arows as int,
                            acols as int,
                            bcols as int,
                        ),
                        i < arows,
                        j < bcols,
                        k <= acols,
                        acc == dot_prefix(
                            self.data@,
                            rhs.data@,
                            acols as int,
                            bcols as int,
                            i as int,
                            j as int,
                            k as int,
                        ),
                    decreases acols - k,
                {
                    proof {
                        lemma_flat_bound(i as int, k as int, arows as int, acols as int);
                        lemma_flat_bound(k as int, j as int, acols as int, bcols as int);
                        assert(acc + self.data@[i * acols + k] * rhs.data@[k * bcols + j]
                            == dot_prefix(
                            self.data@,
                            rhs.data@,
                            acols as int,
                            bcols as int,
                            i as int,
                            j as int,
                            k + 1,
                        ));
                    }
                    let p = self.data[i * acols + k] * rhs.data[k * bcols + j];
                    acc = acc + p;
                    k = k + 1;
                }
                data.push(acc);
                proof {
                    assert forall|p: int, q: int| 0 <= p < i && 0 <= q < bcols implies data@[p
                        * bcols + q] == dot(
                        self.data@,
                        rhs.data@,
                        acols as int,
                        bcols as int,
                        p,
                        q,
                    ) by {
                        lemma_flat_bound(p, q, i as int, bcols as int);
                    }
                }
                j = j + 1;
            }
            proof {
                assert((i + 1) * bcols == i * bcols + bcols) by (nonlinear_arith);
            }
            i = i + 1;
        }
        proof {
            assert(arows * bcols == data@.len());
        }
        Ok(Matrix { data, rows: arows, cols: bcols })
    }

    /// The product's shape rules with elementwise division substituted for
    /// multiplication inside the accumulation: output cell (i, j)
    /// accumulates `sum over k of A[i, k] / B[k, j]`, each quotient rounded
    /// toward zero. This is a literal substitution, not an inverse-based
    /// matrix division.
    pub fn div(self, rhs: Matrix<i64>) -> (r: Result<Matrix<i64>, MatxError>)
        requires
            self.wf(),
            rhs.wf(),
            self.cols == rhs.rows ==> div_in_range(
                self.data@,
                rhs.data@,
                self.rows as int,
                self.cols as int,
                rhs.cols as int,
            ),
        ensures
            self.cols == rhs.rows ==> (r matches Ok(m) && {
                &&& m.wf()
                &&& m.rows == self.rows
                &&& m.cols == rhs.cols
                &&& forall|i: int, j: int|
                    0 <= i < self.rows && 0 <= j < rhs.cols ==> m.data@[i * rhs.cols + j] == dotdiv(
                        self.data@,
                        rhs.data@,
                        self.cols as int,
                        rhs.cols as int,
                        i,
                        j,
                    )
            }),
            self.cols != rhs.rows ==> r == Err::<Matrix<i64>, MatxError>(MatxError::SizeError),
    {
        if self.cols != rhs.rows {
            return Err(MatxError::SizeError);
        }
        let arows = self.rows;
        let acols = self.cols;
        let bcols = rhs.cols;
        let alen = self.data.len();
        let blen = rhs.data.len();
        let mut data: Vec<i64> = Vec::new();
        let mut i: usize = 0;
        while i < arows
            invariant
                arows == self.rows,
                acols == self.cols,
                bcols == rhs.cols,
                acols == rhs.rows,
                self.wf(),
                rhs.wf(),
                alen == self.data@.len(),
                blen == rhs.data@.len(),
                div_in_range(self.data@, rhs.data@, arows as int, acols as int, bcols as int),
                i <= arows,
                data@.len() == i * bcols,
                forall|p: int, q: int|
                    0 <= p < i && 0 <= q < bcols ==> data@[p * bcols + q] == dotdiv(
                        self.data@,
                        rhs.data@,
                        acols as int,
                        bcols as int,
                        p,
                        q,
                    ),
            decreases arows - i,
        {
            let mut j: usize = 0;
            while j < bcols
                invariant
                    arows == self.rows,
                    acols == self.cols,
                    bcols == rhs.cols,
                    acols == rhs.rows,
                    self.wf(),
                    rhs.wf(),
                    alen == self.data@.len(),
                    blen == rhs.data@.len(),
                    div_in_range(self.data@, rhs.data@, arows as int, acols as int, bcols as int),
                    i < arows,
                    j <= bcols,
                    data@.len() == i * bcols + j,
                    forall|p: int, q: int|
                        0 <= p < i && 0 <= q < bcols ==> data@[p * bcols + q] == dotdiv(
                            self.data@,
                            rhs.data@,
                            acols as int,
                            bcols as int,
                            p,
                            q,
                        ),
                    forall|q: int|
                        0 <= q < j ==> data@[i * bcols + q] == dotdiv(
                            self.data@,
                            rhs.data@,
                            acols as int,
                            bcols as int,
                            i as int,
                            q,
                        ),
                decreases bcols - j,
            {
                let mut acc: i64 = 0;
                let mut k: usize = 0;
                while k < acols
                    invariant
                        arows == self.rows,
                        acols == self.cols,
                        bcols == rhs.cols,
                        acols == rhs.rows,
                        self.wf(),
                        rhs.wf(),
                        alen == self.data@.len(),
                        blen == rhs.data@.len(),
                        div_in_range(
                            self.data@,
                            rhs.data@,
                            arows as int,
                            acols as int,
                            bcols as int,
                        ),
                        i < arows,
                        j < bcols,
                        k <= acols,
                        acc == dotdiv_prefix(
                            self.data@,
                            rhs.data@,
                            acols as int,
                            bcols as int,
                            i as int,
                            j as int,
                            k as int,
                        ),
                    decreases acols - k,
                {
                    proof {
                        lemma_flat_bound(i as int, k as int, arows as int, acols as int);
                        lemma_flat_bound(k as int, j as int, acols as int, bcols as int);
                        assert(acc + div_trunc(
                            self.data@[i * acols + k] as int,
                            rhs.data@[k * bcols + j] as int,
                        ) == dotdiv_prefix(
                            self.data@,
                            rhs.data@,
                            acols as int,
                            bcols as int,
                            i as int,
                            j as int,
                            k + 1,
                        ));
                    }
                    let t = div_i64(self.data[i * acols + k], rhs.data[k * bcols + j]);
                    acc = acc + t;
                    k = k + 1;
                }
                data.push(acc);
                proof {
                    assert forall|p: int, q: int| 0 <= p < i && 0 <= q < bcols implies data@[p
                        * bcols + q] == dotdiv(
                        self.data@,
                        rhs.data@,
                        acols as int,
                        bcols as int,
                        p,
                        q,
                    ) by {
                        lemma_flat_bound(p, q, i as int, bcols as int);
                    }
                }
                j = j + 1;
            }
            proof {
                assert((i + 1) * bcols == i * bcols + bcols) by (nonlinear_arith);
            }
            i = i + 1;
        }
        proof {
            assert(arows * bcols == data@.len());
        }
        Ok(Matrix { data, rows: arows, cols: bcols })
    }

    /// The elementwise power map with the scalar as the base: output cell i
    /// is `rhs` raised to the exponent held in cell i of this matrix. The
    /// scalar-as-base convention is deliberate and preserved exactly.
    pub fn pow(self, rhs: i64) -> (r: Matrix<i64>)
        requires
            forall|i: int| 0 <= i < self.data@.len() ==> 0 <= #[trigger] self.data@[i],
            forall|i: int|
                0 <= i < self.data@.len() ==> pow_in_range(rhs, #[trigger] self.data@[i]),
        ensures
            r.rows == self.rows,
            r.cols == self.cols,
            r.data@.len() == self.data@.len(),
            forall|i: int|
                0 <= i < self.data@.len() ==> r.data@[i] == pow_spec(rhs, self.data@[i] as int),
            self.wf() ==> r.wf(),
    {
        let n = self.data.len();
        let mut data: Vec<i64> = Vec::new();
        let mut k: usize = 0;
        while k < n
            invariant
                n == self.data@.len(),
                k <= n,
                data@.len() == k,
                forall|i: int| 0 <= i < n ==> 0 <= #[trigger] self.data@[i],
                forall|i: int| 0 <= i < n ==> pow_in_range(rhs, #[trigger] self.data@[i]),
                forall|i: int| 0 <= i < k ==> data@[i] == pow_spec(rhs, self.data@[i] as int),
            decreases n - k,
        {
            data.push(pow_i64(rhs, self.data[k]));
            k = k + 1;
        }
        Matrix { data, rows: self.rows, cols: self.cols }
    }
}

/// Exponentiation by repeated multiplication, the mathematical power for a
/// nonnegative exponent.
fn pow_i64(base: i64, exp: i64) -> (r: i64)
    requires
        0 <= exp,
        pow_in_range(base, exp),
    ensures
        r == pow_spec(base, exp as int),
{
    proof {
        vstd::arithmetic::power::lemma_pow0(base as int);
    }
    let mut acc: i64 = 1;
    let mut k: i64 = 0;
    while k < exp
        invariant
            0 <= k <= exp,
            pow_in_range(base, exp),
            acc == pow_spec(base, k as int),
        decreases exp - k,
    {
        proof {
            vstd::arithmetic::power::lemma_pow1(base as int);
            vstd::arithmetic::power::lemma_pow_adds(base as int, k as nat, 1nat);
            assert(pow_spec(base, k + 1) == acc * base);
            assert(i64::MIN <= pow_spec(base, k + 1) <= i64::MAX);
        }
        acc = acc * base;
        k = k + 1;
    }
    acc
}

/// Except for the excluded largest-magnitude case, a truncating quotient
/// never exceeds the magnitude of its dividend, so it fits the element
/// type.
proof fn lemma_div_trunc_bounds(x: int, d: int)
    requires
        i64::MIN <= x <= i64::MAX,
        i64::MIN <= d <= i64::MAX,
        d != 0,
        !(x == i64::MIN && d == -1),
    ensures
        i64::MIN <= div_trunc(x, d) <= i64::MAX,
{
    if x == 0 {
    } else if x > 0 && d > 0 {
        assert(0 <= x / d && x / d <= x) by (nonlinear_arith)
            requires
                0 < x,
                1 <= d,
        ;
    } else if x < 0 && d < 0 {
        let u: int = x * -1;
        let v: int = d * -1;
        assert(0 <= u / v && u / v <= u) by (nonlinear_arith)
            requires
                0 < u,
                1 <= v,
        ;
        if x == i64::MIN {
            assert(2 * (u / v) <= u) by (nonlinear_arith)
                requires
                    0 <= u,
                    2 <= v,
            ;
        }
    } else if x < 0 {
        let u: int = x * -1;
        assert(0 <= u / d && u / d <= u) by (nonlinear_arith)
            requires
                0 < u,
                1 <= d,
        ;
    } else {
        let v: int = d * -1;
        assert(0 <= x / v && x / v <= x) by (nonlinear_arith)
            requires
                0 < x,
                1 <= v,
        ;
    }
}

/// Division of `i64` values rounding toward zero, with the divide-by-zero
/// and lone overflowing case excluded up front.
fn div_i64(a: i64, b: i64) -> (r: i64)
    requires
        b != 0,
        !(a == i64::MIN && b == -1),
    ensures
        r == div_trunc(a as int, b as int),
{
    proof {
        lemma_div_trunc_bounds(a as int, b as int);
    }
    match a.checked_div(b) {
        Some(q) => q,
        None => {
            proof {
                assert(false);
            }
            0
        },
    }
}

} // verus!
