use feed_forward::matrix::Matrix;
use feed_forward::perceptron::Perceptron;
use feed_forward::rat::Ratio;

#[test]
fn normalize_quarters() {
    // normalize([[1,2],[3,4]]) == [[0, 1/3], [2/3, 1]]
    let m = Matrix::new(vec![vec![1, 2], vec![3, 4]], 1).unwrap();
    let n = Perceptron::normalize(&m);
    assert_eq!(n.den, 3);
    assert_eq!(n.rows, vec![vec![0, 1], vec![2, 3]]);
}

#[test]
fn normalize_midpoint() {
    // normalize([[0, 255], [127.5, 255]]) == [[0, 1], [0.5, 1]]
    // (127.5 is the numerator 255 over the matrix denominator 2)
    let m = Matrix::new(vec![vec![0, 510], vec![255, 510]], 2).unwrap();
    let n = Perceptron::normalize(&m);
    assert_eq!(n.den, 510);
    assert_eq!(n.rows, vec![vec![0, 510], vec![255, 510]]);
    // 255/510 is the rational value one half, and 510/510 is one
    let half = Ratio { num: 255, den: 510 };
    assert!(half.same_value(&Ratio { num: 1, den: 2 }));
    let one = Ratio { num: 510, den: 510 };
    assert!(one.same_value(&Ratio { num: 1, den: 1 }));
}

#[test]
fn normalize_idempotent() {
    let m = Matrix::new(vec![vec![7, 19], vec![3, 11]], 1).unwrap();
    let once = Perceptron::normalize(&m);
    let twice = Perceptron::normalize(&once);
    assert_eq!(once.rows, twice.rows);
    assert_eq!(once.den, twice.den);
}

#[test]
fn normalize_output_in_unit_range() {
    let m = Matrix::new(vec![vec![13, 0, 200], vec![255, 77, 4]], 1).unwrap();
    let n = Perceptron::normalize(&m);
    assert!(n.den >= 1);
    for row in &n.rows {
        for &v in row {
            assert!(0 <= v && v <= n.den);
        }
    }
}

#[test]
fn normalize_constant_matrix_maps_to_zero() {
    let m = Matrix::new(vec![vec![9, 9], vec![9, 9]], 1).unwrap();
    let n = Perceptron::normalize(&m);
    assert_eq!(n.den, 1);
    assert_eq!(n.rows, vec![vec![0, 0], vec![0, 0]]);
}

#[test]
fn normalize_empty_matrix() {
    let m = Matrix::new(vec![], 1).unwrap();
    let n = Perceptron::normalize(&m);
    assert_eq!(n.den, 1);
    assert!(n.rows.is_empty());
}

#[test]
fn ratio_comparison_is_exact() {
    let third = Ratio { num: 1, den: 3 };
    let half = Ratio { num: 1, den: 2 };
    assert!(third.lt(&half));
    assert!(!half.lt(&third));
    assert!(!half.lt(&half));
    assert!(Ratio { num: -1, den: 2 }.lt(&Ratio { num: 0, den: 7 }));
}

#[test]
fn matrix_new_rejects_ragged_rows() {
    let r = Matrix::new(vec![vec![1, 2], vec![3]], 1);
    assert_eq!(r.err(), Some(feed_forward::ClassifierError::DimensionMismatch));
}

#[test]
fn matrix_new_rejects_bad_values() {
    assert_eq!(
        Matrix::new(vec![vec![-1]], 1).err(),
        Some(feed_forward::ClassifierError::ConfigurationError)
    );
    assert_eq!(
        Matrix::new(vec![vec![0]], 0).err(),
        Some(feed_forward::ClassifierError::ConfigurationError)
    );
}

#[test]
fn from_flat_reshapes_row_major() {
    let m = Matrix::from_flat(&vec![1, 2, 3, 4, 5, 6], 3).unwrap();
    assert_eq!(m.den, 1);
    assert_eq!(m.rows, vec![vec![1, 2, 3], vec![4, 5, 6]]);
}

#[test]
fn from_flat_rejects_leftover_bytes() {
    assert_eq!(
        Matrix::from_flat(&vec![1, 2, 3, 4, 5], 3).err(),
        Some(feed_forward::ClassifierError::DimensionMismatch)
    );
    assert_eq!(
        Matrix::from_flat(&vec![1, 2, 3], 0).err(),
        Some(feed_forward::ClassifierError::ConfigurationError)
    );
}
