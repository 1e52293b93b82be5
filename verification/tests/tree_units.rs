//! Small trees.

use cvdt::{
    Classification, Column, DecisionTree, FeatureValue, Float, KFold, Mean, Regression, SplitRule,
    TreeParams,
};

fn n(x: f64) -> Float {
    Float::from_bits(x.to_bits())
}

fn x(v: Float) -> f64 {
    f64::from_bits(v.to_bits())
}

#[test]
fn max_depth_zero_is_a_single_leaf() {
    let cols = vec![Column::Categorical(vec![0, 1, 0, 1])];
    let y = vec![0usize, 1, 0, 1];
    let mut params = TreeParams::default();
    params.max_depth = Some(0);
    let mut t = DecisionTree::new(Classification::gini(2), params, Box::new(Mean));
    t.fit(&cols, &y).unwrap();
    assert_eq!(t.depth(), 0);
    assert_eq!(t.n_leaves(), 1);
}

#[test]
fn pure_node_does_not_split() {
    let cols = vec![Column::Categorical(vec![0, 1, 0, 1])];
    let y = vec![7usize, 7, 7, 7];
    let mut t = DecisionTree::classifier(8);
    t.fit(&cols, &y).unwrap();
    assert_eq!(t.n_leaves(), 1);
    assert_eq!(t.predict_one(&[FeatureValue::cat(0)]).class, 7);
}

#[test]
fn separable_categorical_classifier() {
    // The category tells the class.
    let cols = vec![Column::Categorical(vec![0, 0, 1, 1, 0, 0, 1, 1])];
    let y = vec![0usize, 0, 1, 1, 0, 0, 1, 1];
    let mut params = TreeParams::default();
    params.cv = KFold::new(2, 1);
    let mut t = DecisionTree::new(Classification::gini(2), params, Box::new(Mean));
    t.fit(&cols, &y).unwrap();
    assert!(t.n_leaves() >= 2);
    assert_eq!(t.predict_one(&[FeatureValue::cat(0)]).class, 0);
    assert_eq!(t.predict_one(&[FeatureValue::cat(1)]).class, 1);
}

#[test]
fn regression_predicts_group_means() {
    // Two categories with distinct responses.
    let cols = vec![Column::Categorical(vec![0, 0, 0, 1, 1, 1])];
    let y: Vec<Float> = [1.0, 1.0, 1.0, 9.0, 9.0, 9.0].iter().map(|&v| n(v)).collect();
    let mut params = TreeParams::default();
    params.cv = KFold::new(2, 3);
    let mut t = DecisionTree::new(Regression::mse(), params, Box::new(Mean));
    t.fit(&cols, &y).unwrap();
    assert!((x(t.predict_one(&[FeatureValue::cat(0)])) - 1.0).abs() < 1e-9);
    assert!((x(t.predict_one(&[FeatureValue::cat(1)])) - 9.0).abs() < 1e-9);
}

#[test]
fn class_prediction_probabilities_sum_to_one() {
    let cols = vec![Column::Categorical(vec![0, 0, 1, 1])];
    let y = vec![0usize, 1, 0, 1];
    let mut t = DecisionTree::classifier(2);
    t.fit(&cols, &y).unwrap();
    let p = t.predict_one(&[FeatureValue::cat(0)]);
    let s: f64 = p.proba.iter().map(|&v| x(v)).sum();
    assert!((s - 1.0).abs() < 1e-9);
}

#[test]
fn fit_rejects_mismatched_lengths() {
    let cols = vec![Column::Categorical(vec![0, 1, 0])];
    let y = vec![0usize, 1];
    let mut t = DecisionTree::classifier(2);
    assert!(t.fit(&cols, &y).is_err());
}

#[test]
fn continuous_bin_routing_matches_bounds() {
    let rule = SplitRule::ContinuousBin {
        feature: 0,
        lower: Some(n(1.0)),
        upper: Some(n(3.0)),
    };
    assert!(!rule.route_left_sample(&[FeatureValue::cont(n(0.5))]));
    assert!(rule.route_left_sample(&[FeatureValue::cont(n(1.0))]));
    assert!(rule.route_left_sample(&[FeatureValue::cont(n(2.9))]));
    assert!(!rule.route_left_sample(&[FeatureValue::cont(n(3.0))]));
    assert!(!rule.route_left_sample(&[FeatureValue::cont(n(f64::NAN))]));
}
