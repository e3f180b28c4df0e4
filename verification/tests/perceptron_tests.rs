use feed_forward::matrix::Matrix;
use feed_forward::perceptron::{correct_labels, Perceptron};
use feed_forward::ClassifierError;

#[test]
fn correct_labels_marks_target_class() {
    let labels: Vec<u8> = vec![3, 1, 3, 0, 3];
    assert_eq!(correct_labels(&labels, 3), vec![1, 0, 1, 0, 1]);
    assert_eq!(correct_labels(&labels, 0), vec![0, 0, 0, 1, 0]);
    assert_eq!(correct_labels(&vec![], 7), Vec::<u8>::new());
}

#[test]
fn fresh_perceptron_scores_zero() {
    let p = Perceptron::new(3);
    let (label, score) = p.predict(&vec![5, 0, 2], 1).unwrap();
    assert_eq!(label, 0);
    assert_eq!(score.num, 0);
    assert_eq!(score.den, 1);
}

#[test]
fn predict_rejects_wrong_width() {
    let p = Perceptron::new(3);
    assert_eq!(p.predict(&vec![1, 2], 1), Err(ClassifierError::DimensionMismatch));
}

#[test]
fn train_rejects_mismatched_labels() {
    let mut p = Perceptron::new(2);
    let m = Matrix::new(vec![vec![0, 0], vec![1, 1]], 1).unwrap();
    let r = p.train(&m, &vec![0], 5);
    assert_eq!(r, Err(ClassifierError::DimensionMismatch));
    assert_eq!(p.weights, vec![0, 0]);
    assert_eq!(p.wden, 1);
}

#[test]
fn train_updates_on_false_negative() {
    // one sample (1) with label 1: the first epoch adds the sample once,
    // the second epoch confirms the fixed point
    let mut p = Perceptron::new(1);
    let m = Matrix::new(vec![vec![0], vec![1]], 1).unwrap();
    p.train(&m, &vec![0, 1], 10).unwrap();
    assert_eq!(p.weights, vec![1]);
    assert_eq!(p.bias, 0);
    assert_eq!(p.wden, 1);
}

#[test]
fn fixed_point_reached_early_pins_the_outcome() {
    // this dataset reaches its fixed point after two epochs, so any
    // larger epoch budget trains to exactly the same weights
    let m = Matrix::new(vec![vec![0], vec![1]], 1).unwrap();
    let labels: Vec<u8> = vec![0, 1];
    let mut small = Perceptron::new(1);
    small.train(&m, &labels, 2).unwrap();
    let mut large = Perceptron::new(1);
    large.train(&m, &labels, 1000).unwrap();
    assert_eq!(small.weights, large.weights);
    assert_eq!(small.wden, large.wden);
    assert_eq!(small.bias, large.bias);
}

#[test]
fn convergence_in_one_epoch_stops_training() {
    // every sample is already classified correctly, so the very first
    // epoch changes nothing and training stops there whatever the budget
    let m = Matrix::new(vec![vec![3], vec![7]], 1).unwrap();
    let labels: Vec<u8> = vec![0, 0];
    let mut one = Perceptron::new(1);
    one.train(&m, &labels, 1).unwrap();
    let mut many = Perceptron::new(1);
    many.train(&m, &labels, 1000).unwrap();
    assert_eq!(one.weights, many.weights);
    assert_eq!(one.weights, vec![0]);
    assert_eq!(one.wden, many.wden);
}

#[test]
fn linearly_separable_dataset_trains_to_full_accuracy() {
    // points (0,0) -> 0 and (1,1) -> 1 are linearly separable: five
    // epochs reach 100% training-set accuracy
    let m = Matrix::new(vec![vec![0, 0], vec![1, 1]], 1).unwrap();
    let labels: Vec<u8> = vec![0, 1];
    let mut p = Perceptron::new(2);
    p.train(&m, &labels, 5).unwrap();
    let acc = p.validate(&m, &labels).unwrap();
    assert_eq!(acc.num, 2);
    assert_eq!(acc.den, 2);
}

#[test]
fn validate_reports_exact_fraction() {
    // weights fixed by one training pass; check the fraction on a set
    // where one row is misclassified
    let m = Matrix::new(vec![vec![0, 0], vec![1, 1]], 1).unwrap();
    let mut p = Perceptron::new(2);
    p.train(&m, &vec![0, 1], 5).unwrap();
    // swap the labels: now both rows disagree except the zero row
    let acc = p.validate(&m, &vec![1, 0]).unwrap();
    assert_eq!(acc.den, 2);
    assert_eq!(acc.num, 0);
}

#[test]
fn validate_empty_dataset_is_defined() {
    let p = Perceptron::new(2);
    let empty = Matrix::new(vec![], 1).unwrap();
    let acc = p.validate(&empty, &vec![]).unwrap();
    assert_eq!(acc.num, 0);
    assert_eq!(acc.den, 1);
}

#[test]
fn validate_accuracy_always_in_unit_interval() {
    let m = Matrix::new(vec![vec![0, 3], vec![9, 1], vec![4, 4]], 1).unwrap();
    let mut p = Perceptron::new(2);
    p.train(&m, &vec![1, 0, 1], 7).unwrap();
    let acc = p.validate(&m, &vec![0, 0, 0]).unwrap();
    assert!(0 <= acc.num && acc.num <= acc.den);
    assert!(acc.den >= 1);
}

#[test]
fn bias_stays_zero_through_training() {
    let m = Matrix::new(vec![vec![2, 0], vec![0, 2]], 1).unwrap();
    let mut p = Perceptron::new(2);
    p.train(&m, &vec![1, 0], 9).unwrap();
    assert_eq!(p.bias, 0);
}
