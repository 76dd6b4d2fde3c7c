use vstd::prelude::*;

use crate::dense::Matrix;
use rand::Rng;

verus! {

/// Relies on rand's `thread_rng` handle and its `Rng::gen_range`: a draw
/// from a nonempty half-open range `lo..hi` lies in that range. Nothing
/// more is assumed of the draw, which is random.
#[verifier::external_body]
fn sample_range(lo: i64, hi: i64) -> (r: i64)
    requires
        lo < hi,
    ensures
        lo <= r < hi,
{
    rand::thread_rng().gen_range(lo..hi)
}

impl Matrix<i64> {
    /// Builds a `rows` by `cols` matrix whose cells are drawn independently
    /// from the half-open sampling range, in row-major order with one draw
    /// per cell, so a seeded sampler reproduces the same fill.
    pub fn rand(rows: usize, cols: usize, range: core::ops::Range<i64>) -> (r: Self)
        requires
            rows * cols <= usize::MAX,
            range.start < range.end,
        ensures
            r.wf(),
            r.rows == rows,
            r.cols == cols,
            forall|i: int| 0 <= i < r.data@.len() ==> range.start <= #[trigger] r.data@[i]
                < range.end,
    {
        let lo = range.start;
        let hi = range.end;
        let n: usize = rows * cols;
        let mut data: Vec<i64> = Vec::new();
        let mut k: usize = 0;
        while k < n
            invariant
                k <= n,
                data@.len() == k,
                lo < hi,
                forall|i: int| 0 <= i < k ==> lo <= #[trigger] data@[i] < hi,
            decreases n - k,
        {
            data.push(sample_range(lo, hi));
            k = k + 1;
        }
        Matrix { data, rows, cols }
    }
}

} // verus!
