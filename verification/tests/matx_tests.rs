use matx::Matrix;

#[test]
fn inits() {
    let mut a_ = Matrix::<i64>::new(2, 3);
    a_.set(1, 0, 0).expect("Error");
    a_.set(2, 0, 1).expect("Error");
    a_.set(3, 0, 2).expect("Error");
    a_.set(4, 1, 0).expect("Error");
    a_.set(5, 1, 1).expect("Error");
    a_.set(6, 1, 2).expect("Error");

    let a = Matrix::<i64>::from(vec![vec![1, 2, 3], vec![4, 5, 6]]);

    assert_eq!(a_, a)
}

#[test]
fn multiply() {
    let a = Matrix::<i64>::from(vec![vec![1, 2, 3], vec![4, 5, 6]]);

    let b = Matrix::<i64>::from(vec![vec![7, 8], vec![9, 10], vec![11, 12]]);

    let c = (a.mul(b)).unwrap();

    let c_ = Matrix::<i64>::from(vec![vec![58, 64], vec![139, 154]]);

    assert_eq!(c, c_)
}

#[test]
fn add_scal() {
    let a = Matrix::<i64>::from(vec![vec![1, 2, 3], vec![4, 5, 6]]);

    // Expected result for a + 1
    let a_p1 = Matrix::<i64>::from(vec![vec![2, 3, 4], vec![5, 6, 7]]);

    let pl_scal = a.add_scalar(1);

    assert_eq!(pl_scal, a_p1); // Addition with a scalar
}

#[test]
fn sub_scal() {
    let a = Matrix::<i64>::from(vec![vec![1, 2, 3], vec![4, 5, 6]]);

    // Expected result for a - 1
    let a_p1 = Matrix::<i64>::from(vec![vec![0, 1, 2], vec![3, 4, 5]]);

    let pl_scal = a.sub_scalar(1);

    assert_eq!(pl_scal, a_p1); // Substraction with a scalar
}

#[test]
fn random() {
    let mat = Matrix::<i64>::rand(5, 5, 0..10);
    println!("{:?}", mat);
}

#[test]
fn add_mat() {
    // 1 1 1 1 1
    // 2 2 2 2 2
    // 3 3 3 3 3
    // 4 4 4 4 4
    // 5 5 5 5 5
    let a = Matrix::from(vec![
        vec![1i64; 5],
        vec![2i64; 5],
        vec![3i64; 5],
        vec![4i64; 5],
        vec![5i64; 5],
    ]);

    // 1 1 1 1 1
    // 1 1 1 1 1
    // 1 1 1 1 1
    // 1 1 1 0 1 notice the '0'!
    // 1 1 1 1 1
    let b = Matrix::<i64>::from(vec![
        vec![1i64; 5],
        vec![1i64; 5],
        vec![1i64; 5],
        vec![1, 1, 1, 0, 1],
        vec![1i64; 5],
    ]);

    let c = (a.add(b)).unwrap();

    // a + b should equal this:
    // 2 2 2 2 2
    // 3 3 3 3 3
    // 4 4 4 4 4
    // 5 5 5 4 5
    // 6 6 6 6 6
    let c_ = Matrix::<i64>::from(vec![
        vec![2i64; 5],
        vec![3i64; 5],
        vec![4i64; 5],
        vec![5, 5, 5, 4, 5],
        vec![6i64; 5],
    ]);

    assert_eq!(c, c_)
}

#[test]
fn sub_mat() {
    // 1 1 1 1 1
    // 2 2 2 2 2
    // 3 3 3 3 3
    // 4 4 4 4 4
    // 5 5 5 5 5
    let a = Matrix::from(vec![
        vec![1i64; 5],
        vec![2i64; 5],
        vec![3i64; 5],
        vec![4i64; 5],
        vec![5i64; 5],
    ]);

    // 1 1 1 1 1
    // 1 1 1 1 1
    // 1 1 1 1 1
    // 1 1 1 0 1 notice the '0'!
    // 1 1 1 1 1
    let b = Matrix::<i64>::from(vec![
        vec![1i64; 5],
        vec![1i64; 5],
        vec![1i64; 5],
        vec![1, 1, 1, 0, 1],
        vec![1i64; 5],
    ]);

    let c = (a.sub(b)).unwrap();

    // a - b should equal this:
    // 0 0 0 0 0
    // 1 1 1 1 1
    // 2 2 2 2 2
    // 3 3 3 4 3
    // 4 4 4 4 4
    let c_ = Matrix::<i64>::from(vec![
        vec![0i64; 5],
        vec![1i64; 5],
        vec![2i64; 5],
        vec![3, 3, 3, 4, 3],
        vec![4i64; 5],
    ]);

    assert_eq!(c, c_)
}

#[test]
fn iterators() {
    // 1 1 1 1 1
    // 2 2 3 2 2
    // 3 3 3 3 3
    // 4 4 4 4 4
    // 5 5 5 5 5
    let mut a = Matrix::from(vec![
        vec![1i64; 5],
        vec![2, 2, 3, 2, 2],
        vec![3i64; 5],
        vec![4i64; 5],
        vec![5i64; 5],
    ]);

    let mut rows = a.rows();
    while let Some(r) = rows.next() {
        println!("{:?}", r);
    }

    let mut cells = a.iter();
    while let Some(cell) = cells.next() {
        println!("{:?}", cell);
    }

    println!();

    let mut columns = a.cols();
    while let Some(c) = columns.next() {
        println!("{:?}", c);
    }

    a.set(9, 0, 4).unwrap();

    println!("{:?}", a);

    let mut col_iter = a.cols();
    let mut row_iter = a.rows();

    assert_eq!(col_iter.next_back().unwrap(), vec![9, 2, 3, 4, 5]);
    assert_eq!(row_iter.next_back().unwrap(), vec![5i64; 5]);
}

#[test]
fn iter_mix() {
    let mut a = Matrix::from(vec![
        vec![1i64; 5],
        vec![2, 2, 3, 2, 2],
        vec![3i64; 5],
        vec![4i64; 5],
        vec![5i64; 5],
    ]);
    a.set(9, 0, 4).unwrap();

    // Rows
    println!("ROWS");
    let mut iter = a.rows();
    let mut cmptr = 0;
    while let Some(r1) = iter.next() {
        println!("{}", cmptr);

        if let Some(r2) = iter.next_back() {
            println!("{:?}\t|\t{:?}", r1, r2);
        } else {
            println!("{:?}\t|", r1);
        }

        cmptr += 1;
    }

    assert!(cmptr == 3);

    // Columns
    println!("COLUMNS");
    let mut iter = a.cols();
    let mut cmptr = 0;
    while let Some(r1) = iter.next() {
        println!("{}", cmptr);

        if let Some(r2) = iter.next_back() {
            println!("{:?}\t|\t{:?}", r1, r2);
        } else {
            println!("{:?}\t|", r1);
        }

        cmptr += 1;
    }

    assert!(cmptr == 3);
}

#[test]
fn serialize() {
    let a = Matrix::from(vec![
        vec![1i64; 5],
        vec![2, 2, 3, 2, 2],
        vec![3i64; 5],
        vec![4i64; 5],
        vec![5i64; 5],
    ]);

    let serialized = a.to_json();
    println!("serialized = {}", String::from_utf8(serialized.clone()).unwrap());

    let output = String::from(
        "{\"data\":[1,1,1,1,1,2,2,3,2,2,3,3,3,3,3,4,4,4,4,4,5,5,5,5,5],\"rows\":5,\"cols\":5}",
    );

    assert_eq!(output, String::from_utf8(serialized.clone()).unwrap());

    let deserialized: Matrix<i64> = Matrix::from_json(&serialized).unwrap();

    assert_eq!(a, deserialized);
}

#[test]
fn complex_mat() {
    let a: Matrix<Matrix<i64>> = Matrix::from(vec![
        vec![Matrix::<i64>::new(2, 2), Matrix::<i64>::new(2, 2)],
        vec![
            Matrix::from(vec![vec![59, 8]]),
            Matrix::from(vec![vec![3, 5]]),
        ],
    ]);

    println!("{:?}", a);
}
