use matx::Matrix;
use matx::MatxError;

#[test]
fn reverse_literal() {
    let mat = Matrix::<i64>::from(vec![vec![2, 3], vec![1, 0]]);

    let rev = mat.reverse();

    let rev_ = Matrix::<i64>::from(vec![vec![0, 1], vec![3, 2]]);

    assert_eq!(rev, rev_);
}

#[test]
fn reverse_involution() {
    let mat = Matrix::<i64>::from(vec![vec![7, -2, 0], vec![4, 9, 11]]);
    let twice = mat.reverse().reverse();
    assert_eq!(mat, twice);
}

#[test]
fn rows_round_trip() {
    let nested = vec![vec![1i64, 2, 3], vec![4, 5, 6], vec![7, 8, 9], vec![10, 11, 12]];
    let mat = Matrix::<i64>::from(nested.clone());

    let mut read_back: Vec<Vec<i64>> = Vec::new();
    let mut rows = mat.rows();
    while let Some(r) = rows.next() {
        read_back.push(r);
    }

    assert_eq!(read_back, nested);
}

#[test]
fn double_ended_rows_exhaust() {
    let mat = Matrix::<i64>::from(vec![
        vec![1i64; 4],
        vec![2i64; 4],
        vec![3i64; 4],
        vec![4i64; 4],
        vec![5i64; 4],
    ]);

    // front, back, front, back, front: all five rows, once each, then
    // both ends are exhausted.
    let mut it = mat.rows();
    assert_eq!(it.next().unwrap(), vec![1i64; 4]);
    assert_eq!(it.next_back().unwrap(), vec![5i64; 4]);
    assert_eq!(it.next().unwrap(), vec![2i64; 4]);
    assert_eq!(it.next_back().unwrap(), vec![4i64; 4]);
    assert_eq!(it.next().unwrap(), vec![3i64; 4]);
    assert!(it.next().is_none());
    assert!(it.next_back().is_none());
}

#[test]
fn double_ended_cols_exhaust() {
    let mat = Matrix::<i64>::from(vec![vec![1i64, 2, 3], vec![4, 5, 6]]);

    let mut it = mat.cols();
    assert_eq!(it.next().unwrap(), vec![1, 4]);
    assert_eq!(it.next_back().unwrap(), vec![3, 6]);
    assert_eq!(it.next().unwrap(), vec![2, 5]);
    assert!(it.next().is_none());
    assert!(it.next_back().is_none());
}

#[test]
fn double_ended_cells_exhaust() {
    let mat = Matrix::<i64>::from(vec![vec![1i64, 2], vec![3, 4]]);

    let mut it = mat.iter();
    assert_eq!(it.next(), Some(1));
    assert_eq!(it.next_back(), Some(4));
    assert_eq!(it.next(), Some(2));
    assert_eq!(it.next_back(), Some(3));
    assert!(it.next().is_none());
    assert!(it.next_back().is_none());
}

#[test]
fn get_in_and_out_of_range() {
    let mat = Matrix::<i64>::from(vec![vec![1, 2, 3], vec![4, 5, 6]]);

    assert_eq!(mat.get(0, 1), Some(2));
    assert_eq!(mat.get(1, 2), Some(6));
    // An offset past the buffer is "absent", a normal query outcome.
    assert_eq!(mat.get(2, 0), None);
    assert_eq!(mat.get(100, 100), None);
    // The contract is on the flat offset `row * cols + column`, so an
    // overlong column index can still land inside the buffer.
    assert_eq!(mat.get(0, 5), Some(6));
}

#[test]
fn set_out_of_range() {
    let mut mat = Matrix::<i64>::from(vec![vec![1, 2], vec![3, 4]]);
    let before = mat.clone();

    let r = mat.set(9, 2, 1);
    assert_eq!(r, Err("Index out of range"));
    assert_eq!(mat, before);

    let r = mat.set(9, usize::MAX, usize::MAX);
    assert_eq!(r, Err("Index out of range"));
    assert_eq!(mat, before);
}

#[test]
fn mul_shape_mismatch() {
    let a = Matrix::<i64>::from(vec![vec![1, 2, 3], vec![4, 5, 6]]);
    let b = Matrix::<i64>::from(vec![vec![1, 2], vec![3, 4]]);

    assert_eq!(a.mul(b), Err(MatxError::SizeError));
}

#[test]
fn add_shape_mismatch() {
    let a = Matrix::<i64>::from(vec![vec![1, 2, 3], vec![4, 5, 6]]);
    let b = Matrix::<i64>::from(vec![vec![1, 2], vec![3, 4]]);

    assert_eq!(a.add(b), Err(MatxError::SizeError));
}

#[test]
fn sub_shape_mismatch() {
    let a = Matrix::<i64>::from(vec![vec![1, 2]]);
    let b = Matrix::<i64>::from(vec![vec![1], vec![2]]);

    assert_eq!(a.sub(b), Err(MatxError::SizeError));
}

#[test]
fn div_shape_mismatch() {
    let a = Matrix::<i64>::from(vec![vec![1, 2]]);
    let b = Matrix::<i64>::from(vec![vec![1, 2]]);

    assert_eq!(a.div(b), Err(MatxError::SizeError));
}

#[test]
fn div_matrix_accumulates_quotients() {
    // cell (0,0) = 10/2 + 9/3 = 5 + 3 = 8
    let a = Matrix::<i64>::from(vec![vec![10, 9]]);
    let b = Matrix::<i64>::from(vec![vec![2], vec![3]]);

    let c = a.div(b).unwrap();
    assert_eq!(c, Matrix::<i64>::from(vec![vec![8]]));
}

#[test]
fn div_truncates_toward_zero() {
    // -7 / 2 rounds toward zero: -3, not -4.
    let a = Matrix::<i64>::from(vec![vec![-7]]);
    let b = Matrix::<i64>::from(vec![vec![2]]);

    let c = a.div(b).unwrap();
    assert_eq!(c, Matrix::<i64>::from(vec![vec![-3]]));

    let d = Matrix::<i64>::from(vec![vec![-7, 7, -7, 7]]);
    let e = d.div_scalar(-2);
    assert_eq!(e, Matrix::<i64>::from(vec![vec![3, -3, 3, -3]]));
}

#[test]
fn mul_scalar_cells() {
    let a = Matrix::<i64>::from(vec![vec![1, -2], vec![3, 0]]);
    let b = a.mul_scalar(5);
    assert_eq!(b, Matrix::<i64>::from(vec![vec![5, -10], vec![15, 0]]));
}

#[test]
fn neg_cells() {
    let a = Matrix::<i64>::from(vec![vec![1, -2], vec![0, 7]]);
    let b = a.neg();
    assert_eq!(b, Matrix::<i64>::from(vec![vec![-1, 2], vec![0, -7]]));
}

#[test]
fn pow_scalar_is_base() {
    // The scalar is the base; each cell is the exponent.
    let a = Matrix::<i64>::from(vec![vec![0, 1], vec![2, 10]]);
    let b = a.pow(2);
    assert_eq!(b, Matrix::<i64>::from(vec![vec![1, 2], vec![4, 1024]]));
}

#[test]
fn sum_folds_all_cells() {
    let a = Matrix::<i64>::from(vec![vec![1, 2], vec![3, 4]]);
    assert_eq!(a.sum(), 10);

    let z = Matrix::<i64>::new(0, 7);
    assert_eq!(z.sum(), 0);

    let n = Matrix::<i64>::from(vec![vec![-5, 5, -1]]);
    assert_eq!(n.sum(), -1);
}

#[test]
fn apply_maps_cells() {
    let a = Matrix::<i64>::from(vec![vec![1, 2], vec![3, 4]]);
    let b = a.apply(|x: &i64| *x + 1);
    assert_eq!(b, Matrix::<i64>::from(vec![vec![2, 3], vec![4, 5]]));
}

#[test]
fn empty_is_zero_filled() {
    let a = Matrix::<i64>::empty(2, 3);
    assert_eq!(a, Matrix::<i64>::new(2, 3));
    assert_eq!(a.get(1, 2), Some(0));
}

#[test]
fn rand_stays_in_range() {
    let mat = Matrix::<i64>::rand(3, 4, -5..5);
    assert_eq!(mat.rows, 3);
    assert_eq!(mat.cols, 4);
    let mut cells = mat.iter();
    while let Some(v) = cells.next() {
        assert!(-5 <= v && v < 5);
    }

    // A one-value range pins every draw.
    let pinned = Matrix::<i64>::rand(2, 2, 5..6);
    assert_eq!(pinned, Matrix::<i64>::from(vec![vec![5, 5], vec![5, 5]]));
}

#[test]
fn shape_mismatch_never_partial() {
    let a = Matrix::<i64>::from(vec![vec![1, 2, 3], vec![4, 5, 6]]);
    let b = Matrix::<i64>::from(vec![vec![7, 8], vec![9, 10], vec![11, 12]]);
    // rows/cols differ: elementwise addition refuses outright.
    assert_eq!(a.add(b), Err(MatxError::SizeError));
}
