use feed_forward::matrix::Matrix;
use feed_forward::multiclass::MultiClassPerceptron;
use feed_forward::perceptron::{correct_labels, Perceptron};
use feed_forward::ClassifierError;

#[test]
fn new_rejects_duplicate_classes() {
    let r = MultiClassPerceptron::new(vec![1, 2, 1], 4);
    assert_eq!(r.err(), Some(ClassifierError::ConfigurationError));
}

#[test]
fn predict_returns_a_configured_class() {
    let m = Matrix::new(vec![vec![0, 0], vec![9, 9], vec![5, 0]], 1).unwrap();
    let labels: Vec<u8> = vec![0, 1, 2];
    let mut ens = MultiClassPerceptron::new(vec![7, 9, 11], 2).unwrap();
    ens.train(&m, &labels, 8).unwrap();
    for row in [vec![0i64, 0], vec![9, 9], vec![5, 0], vec![3, 8]] {
        let cls = ens.predict(&row, 1).unwrap();
        assert!(cls == 7 || cls == 9 || cls == 11);
    }
}

#[test]
fn predict_without_positives_takes_least_score() {
    // all-zero classifiers score 0 and vote 0 everywhere, so the least
    // score is shared and the first configured class wins
    let ens = MultiClassPerceptron::new(vec![4, 8], 2).unwrap();
    assert_eq!(ens.predict(&vec![1, 1], 1).unwrap(), 4);
    // a strictly more negative classifier draws the prediction to itself
    let ens2 = MultiClassPerceptron {
        perceptrons: vec![
            Perceptron { weights: vec![-1, 0], bias: 0, wden: 1 },
            Perceptron { weights: vec![-2, 0], bias: 0, wden: 1 },
        ],
        classes: vec![4, 8],
    };
    assert_eq!(ens2.predict(&vec![1, 1], 1).unwrap(), 8);
}

#[test]
fn predict_positive_tie_breaks_by_class_order() {
    let tie = MultiClassPerceptron {
        perceptrons: vec![
            Perceptron { weights: vec![3], bias: 0, wden: 1 },
            Perceptron { weights: vec![3], bias: 0, wden: 1 },
        ],
        classes: vec![21, 22],
    };
    assert_eq!(tie.predict(&vec![1], 1).unwrap(), 21);
    let stronger = MultiClassPerceptron {
        perceptrons: vec![
            Perceptron { weights: vec![3], bias: 0, wden: 1 },
            Perceptron { weights: vec![5], bias: 0, wden: 1 },
        ],
        classes: vec![21, 22],
    };
    assert_eq!(stronger.predict(&vec![1], 1).unwrap(), 22);
}

#[test]
fn predict_on_empty_ensemble_is_a_configuration_error() {
    let ens = MultiClassPerceptron::new(vec![], 2).unwrap();
    assert_eq!(ens.predict(&vec![1, 1], 1), Err(ClassifierError::ConfigurationError));
}

#[test]
fn per_class_training_is_independent() {
    // each ensemble member ends up with exactly the weights that
    // training a lone classifier on its own relabeled targets produces
    let m = Matrix::new(vec![vec![0, 0], vec![9, 9], vec![5, 0], vec![2, 7]], 1).unwrap();
    let labels: Vec<u8> = vec![0, 1, 2, 1];
    let classes: Vec<i32> = vec![0, 1, 2];
    let mut ens = MultiClassPerceptron::new(classes.clone(), 2).unwrap();
    ens.train(&m, &labels, 6).unwrap();
    for (i, &c) in classes.iter().enumerate() {
        let mut solo = Perceptron::new(2);
        let targets = correct_labels(&labels, c as u8);
        solo.train(&m, &targets, 6).unwrap();
        assert_eq!(ens.perceptrons[i].weights, solo.weights);
        assert_eq!(ens.perceptrons[i].wden, solo.wden);
        assert_eq!(ens.perceptrons[i].bias, solo.bias);
    }
}

#[test]
fn ensemble_validate_reports_exact_fraction() {
    let m = Matrix::new(vec![vec![0, 0], vec![9, 9]], 1).unwrap();
    let labels: Vec<u8> = vec![0, 1];
    let mut ens = MultiClassPerceptron::new(vec![0, 1], 2).unwrap();
    ens.train(&m, &labels, 8).unwrap();
    let acc = ens.validate(&m, &labels).unwrap();
    assert_eq!(acc.den, 2);
    assert!(0 <= acc.num && acc.num <= acc.den);
}

#[test]
fn ensemble_validate_empty_dataset_is_defined() {
    let ens = MultiClassPerceptron::new(vec![0, 1], 2).unwrap();
    let empty = Matrix::new(vec![], 1).unwrap();
    let acc = ens.validate(&empty, &vec![]).unwrap();
    assert_eq!(acc.num, 0);
    assert_eq!(acc.den, 1);
}

#[test]
fn ensemble_train_rejects_mismatched_labels() {
    let m = Matrix::new(vec![vec![0, 0], vec![1, 1]], 1).unwrap();
    let mut ens = MultiClassPerceptron::new(vec![0, 1], 2).unwrap();
    assert_eq!(ens.train(&m, &vec![0], 3), Err(ClassifierError::DimensionMismatch));
}

#[test]
fn validate_nth_perceptron_scores_one_sub_model() {
    let m = Matrix::new(vec![vec![0, 0], vec![9, 9]], 1).unwrap();
    let labels: Vec<u8> = vec![0, 1];
    let mut ens = MultiClassPerceptron::new(vec![0, 1], 2).unwrap();
    ens.train(&m, &labels, 8).unwrap();
    let acc = ens.validate_nth_perceptron(1, &m, &labels).unwrap();
    assert_eq!(acc.den, 2);
    assert_eq!(acc.num, 2);
}
