use vstd::prelude::*;

use crate::dense::lemma_flat_bound;
use crate::dense::Matrix;

verus! {

/// Row-major round trip: a matrix built from nested rows hands the same
/// rows back through row iteration. If a well-formed matrix holds, cell for
/// cell, the contents of a sequence of equal-length rows — exactly what
/// construction from nested rows establishes — then every row read back,
/// as the row iterator reads it, is the corresponding input row.
pub proof fn lemma_rows_round_trip<T>(m: Matrix<T>, value: Seq<Vec<T>>)
    requires
        m.wf(),
        m.rows == value.len(),
        forall|i: int| 0 <= i < value.len() ==> (#[trigger] value[i])@.len() == m.cols,
        forall|i: int, j: int|
            0 <= i < m.rows && 0 <= j < m.cols ==> m.data@[i * m.cols + j] == value[i]@[j],
    ensures
        forall|i: int| 0 <= i < m.rows ==> m.row_seq(i) == value[i]@,
{
    assert forall|i: int| 0 <= i < m.rows implies m.row_seq(i) == value[i]@ by {
        assert((i + 1) * m.cols <= m.rows * m.cols) by (nonlinear_arith)
            requires
                i + 1 <= m.rows,
                0 <= m.cols,
        ;
        assert(i * m.cols + m.cols == (i + 1) * m.cols) by (nonlinear_arith);
        assert(0 <= i * m.cols) by (nonlinear_arith)
            requires
                0 <= i,
                0 <= m.cols,
        ;
        assert(m.row_seq(i) =~= value[i]@);
    }
}

/// Reversal is an involution: reversing the flat buffer twice restores the
/// original matrix, shape and cells alike. The hypotheses are exactly what
/// two applications of `reverse` ensure.
pub proof fn lemma_reverse_involution<T>(m: Matrix<T>, once: Matrix<T>, twice: Matrix<T>)
    requires
        once.rows == m.rows,
        once.cols == m.cols,
        once.data@ == m.data@.reverse(),
        twice.rows == once.rows,
        twice.cols == once.cols,
        twice.data@ == once.data@.reverse(),
    ensures
        twice.rows == m.rows,
        twice.cols == m.cols,
        twice.data@ == m.data@,
{
    assert(m.data@.reverse().reverse() =~= m.data@);
}

/// Double-ended exhaustion: however `rows` yields are split between a
/// front cursor and a back cursor, once the cursors meet every row index
/// has been served exactly once — index i came from the front when
/// `i < front` and from the back when `i >= rows - back`, and exactly one
/// of the two holds. Together with the cursor contracts this rules out
/// both a duplicated and a skipped middle element.
pub proof fn lemma_double_ended_partition(front: int, back: int, rows: int, i: int)
    requires
        0 <= front,
        0 <= back,
        front + back == rows,
        0 <= i < rows,
    ensures
        (0 <= i < front) != (rows - back <= i < rows),
{
}

} // verus!
