use matx::matrix::Matrix;

#[test]
fn fixed_build_and_compare() {
    let mut a_ = Matrix::<i64, 2, 3>::new();
    a_.set(1, 0, 0).expect("Error");
    a_.set(2, 0, 1).expect("Error");
    a_.set(3, 0, 2).expect("Error");
    a_.set(4, 1, 0).expect("Error");
    a_.set(5, 1, 1).expect("Error");
    a_.set(6, 1, 2).expect("Error");

    let a = Matrix::<i64, 2, 3>::from(vec![vec![1, 2, 3], vec![4, 5, 6]]);

    assert_eq!(a_, a);
}

#[test]
fn fixed_product() {
    let a = Matrix::<i64, 2, 3>::from(vec![vec![1, 2, 3], vec![4, 5, 6]]);
    let b = Matrix::<i64, 3, 2>::from(vec![vec![7, 8], vec![9, 10], vec![11, 12]]);

    // The inner dimensions agree in the types, so the product needs no
    // fallible result.
    let c: Matrix<i64, 2, 2> = a.mul(b);

    let c_ = Matrix::<i64, 2, 2>::from(vec![vec![58, 64], vec![139, 154]]);
    assert_eq!(c, c_);
}

#[test]
fn fixed_add() {
    let a = Matrix::<i64, 2, 2>::from(vec![vec![1, 2], vec![3, 4]]);
    let b = Matrix::<i64, 2, 2>::from(vec![vec![10, 20], vec![30, 40]]);

    let c = a.add(b);
    assert_eq!(c, Matrix::<i64, 2, 2>::from(vec![vec![11, 22], vec![33, 44]]));
}

#[test]
fn fixed_add_scalar() {
    let a = Matrix::<i64, 2, 2>::from(vec![vec![1, 2], vec![3, 4]]);
    let c = a.add_scalar(3);
    assert_eq!(c, Matrix::<i64, 2, 2>::from(vec![vec![4, 5], vec![6, 7]]));
}

#[test]
fn fixed_get_set_reverse() {
    let a = Matrix::<i64, 2, 2>::from(vec![vec![2, 3], vec![1, 0]]);

    assert_eq!(a.get(0, 1), Some(3));
    assert_eq!(a.get(2, 0), None);

    let rev = a.reverse();
    assert_eq!(rev, Matrix::<i64, 2, 2>::from(vec![vec![0, 1], vec![3, 2]]));

    let mut b = Matrix::<i64, 2, 2>::new();
    assert!(b.set(5, 9, 9).is_err());
    assert!(b.set(5, 0, 0).is_ok());
    assert_eq!(b.get(0, 0), Some(5));
}

#[test]
fn fixed_rand_in_range() {
    let mat = Matrix::<i64, 4, 4>::rand(0..10);
    for i in 0..4usize {
        for j in 0..4usize {
            let v = mat.get(i, j).unwrap();
            assert!(0 <= v && v < 10);
        }
    }
}
