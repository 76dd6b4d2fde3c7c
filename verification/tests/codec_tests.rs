use matx::Matrix;
use matx::MatxError;

#[test]
fn json_exact_layout() {
    let a = Matrix::<i64>::from(vec![vec![1, 2, 3], vec![4, 5, 6]]);
    let encoded = String::from_utf8(a.to_json()).unwrap();
    assert_eq!(encoded, "{\"data\":[1,2,3,4,5,6],\"rows\":2,\"cols\":3}");
}

#[test]
fn json_round_trip_negative_and_zero() {
    let a = Matrix::<i64>::from(vec![vec![-5, 0], vec![7, -12]]);
    let encoded = a.to_json();
    assert_eq!(
        String::from_utf8(encoded.clone()).unwrap(),
        "{\"data\":[-5,0,7,-12],\"rows\":2,\"cols\":2}"
    );
    let decoded = Matrix::from_json(&encoded).unwrap();
    assert_eq!(a, decoded);
}

#[test]
fn json_round_trip_empty() {
    let a = Matrix::<i64>::new(0, 0);
    let encoded = a.to_json();
    assert_eq!(String::from_utf8(encoded.clone()).unwrap(), "{\"data\":[],\"rows\":0,\"cols\":0}");
    let decoded = Matrix::from_json(&encoded).unwrap();
    assert_eq!(a, decoded);
}

#[test]
fn json_round_trip_extremes() {
    let a = Matrix::<i64>::from(vec![vec![i64::MIN, i64::MAX]]);
    let encoded = a.to_json();
    assert_eq!(
        String::from_utf8(encoded.clone()).unwrap(),
        "{\"data\":[-9223372036854775808,9223372036854775807],\"rows\":1,\"cols\":2}"
    );
    let decoded = Matrix::from_json(&encoded).unwrap();
    assert_eq!(a, decoded);
}

#[test]
fn json_rejects_malformed() {
    assert!(Matrix::from_json(&Vec::new()).is_none());
    assert!(Matrix::from_json(&b"{}".to_vec()).is_none());
    // leading zero in a cell is not canonical
    assert!(Matrix::from_json(&b"{\"data\":[01],\"rows\":1,\"cols\":1}".to_vec()).is_none());
    // the record must be consistent: 1 cell cannot fill a 2 by 2 matrix
    assert!(Matrix::from_json(&b"{\"data\":[1],\"rows\":2,\"cols\":2}".to_vec()).is_none());
    // trailing bytes are refused
    assert!(Matrix::from_json(&b"{\"data\":[1],\"rows\":1,\"cols\":1} ".to_vec()).is_none());
    // a lone minus sign is not a number
    assert!(Matrix::from_json(&b"{\"data\":[-],\"rows\":1,\"cols\":1}".to_vec()).is_none());
    // negative zero is not canonical
    assert!(Matrix::from_json(&b"{\"data\":[-0],\"rows\":1,\"cols\":1}".to_vec()).is_none());
}

#[test]
fn json_accepts_encoder_output() {
    let a = Matrix::<i64>::from(vec![vec![1i64, -2, 3], vec![40, 5000, -60000]]);
    let decoded = Matrix::from_json(&a.to_json()).unwrap();
    assert_eq!(a, decoded);
}

#[test]
fn parts_round_trip() {
    let a = Matrix::<i64>::from(vec![vec![9, 8], vec![7, 6], vec![5, 4]]);
    let (data, rows, cols) = a.to_parts();
    assert_eq!(rows, 3);
    assert_eq!(cols, 2);
    assert_eq!(data, vec![9, 8, 7, 6, 5, 4]);

    let rebuilt = Matrix::from_parts(data, rows, cols).unwrap();
    assert_eq!(a, rebuilt);
}

#[test]
fn parts_size_mismatch() {
    let r = Matrix::<i64>::from_parts(vec![1, 2, 3], 2, 2);
    assert_eq!(r, Err(MatxError::SizeError));
}
