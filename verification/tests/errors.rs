//! Every error, and the input that gives it.

use cvdt::options::{
    build_aggregator, build_average, build_classification, build_objective, build_params,
    build_regression, UnknownName,
};
use cvdt::tree::restore::FlatTree;
use cvdt::{
    Aggregator, Average, BinnedData, ClassObjective, Classification, Column, Confusion, Dataset,
    DecisionTree, Float, FoldStats, KFold, Mean, Regression, SplitMode, SplitStyle, TreeParams,
};

fn n(x: f64) -> Float {
    Float::from_bits(x.to_bits())
}

fn x(v: Float) -> f64 {
    f64::from_bits(v.to_bits())
}

#[test]
fn datasets_need_columns_of_one_length() {
    assert_eq!(
        Dataset::new(vec![]).err(),
        Some("dataset needs at least one column".to_string())
    );
    let cols = vec![
        Column::Categorical(vec![0, 1, 2]),
        Column::Categorical(vec![0, 1, 2]),
        Column::Continuous(vec![n(1.0); 12]),
    ];
    assert_eq!(
        Dataset::new(cols).err(),
        Some("column 2 has length 12 but expected 3".to_string())
    );
}

fn fit_error(cols: &[Column], y: &[usize]) -> String {
    let mut t = DecisionTree::classifier(2);
    let e = t.fit(cols, y).unwrap_err();
    assert!(t.root.is_none());
    e
}

#[test]
fn fitting_needs_matching_samples() {
    assert_eq!(fit_error(&[], &[]), "need at least one feature column");
    let three = Column::Categorical(vec![0, 1, 0]);
    let two = Column::Categorical(vec![0, 1]);
    assert_eq!(
        fit_error(&[three.clone(), two], &[0, 1, 0]),
        "column 1 has length 2 but expected 3"
    );
    assert_eq!(
        fit_error(&[three], &[0, 1]),
        "targets length 2 does not match 3 samples"
    );
    assert_eq!(
        fit_error(&[Column::Categorical(vec![])], &[]),
        "need at least one sample"
    );
}

#[test]
fn histograms_cannot_serve_absolute_errors() {
    let mut p = TreeParams::default();
    p.mode = SplitMode::Fast;
    let mut t = DecisionTree::new(Regression::mae(), p, Box::new(Mean));
    let e = t
        .fit(&[Column::Categorical(vec![0, 1])], &[n(0.0), n(1.0)])
        .unwrap_err();
    assert_eq!(
        e,
        "this ".to_string() + "task (e.g. MAE) is not supported in SplitMode::Fast; use Strict"
    );
}

#[test]
fn too_many_bins_are_refused() {
    let many = Column::Categorical((0..65_536).collect());
    assert_eq!(
        BinnedData::fit(&[Column::Categorical(vec![1; 65_536]), many], 4).err(),
        Some("feature 1: 65536 categories exceed fast-mode limit".to_string())
    );
    let values = Column::Continuous((0..10).map(|i| n(i as f64)).collect());
    assert_eq!(
        BinnedData::fit(&[values], 70_000).err(),
        Some("feature 0: 70000 continuous bins exceed fast-mode limit".to_string())
    );
    // As many as there are codes.
    let most = Column::Categorical((0..65_535).collect());
    assert_eq!(BinnedData::fit(&[most], 4).unwrap().bins[0].max_bin, 65_535);
}

#[test]
fn a_failed_fit_keeps_the_tree() {
    let cols = [Column::Categorical(vec![0, 0, 1, 1, 0, 0, 1, 1])];
    let mut t = DecisionTree::classifier(2);
    t.fit(&cols, &[0, 0, 1, 1, 0, 0, 1, 1]).unwrap();
    let leaves = t.n_leaves();
    assert!(t.fit(&cols, &[0, 1]).is_err());
    assert_eq!(t.n_leaves(), leaves);
}

#[test]
fn an_unfitted_tree_is_empty() {
    let t = DecisionTree::classifier(2);
    assert_eq!(t.depth(), 0);
    assert_eq!(t.n_leaves(), 0);
    assert!(t.export_nodes().is_empty());
    assert!(t.predict(&[]).is_empty());
}

fn params_by_name(mode: &str, style: &str) -> Result<TreeParams, UnknownName> {
    build_params(
        Some(3),
        4,
        2,
        n(0.25),
        16,
        7,
        99,
        false,
        mode,
        style,
        true,
        3,
        100,
    )
}

#[test]
fn settings_are_read_by_name() {
    let p = params_by_name("fast", "bin").unwrap();
    assert_eq!(p.max_depth, Some(3));
    assert_eq!(p.min_samples_split, 4);
    assert_eq!(p.min_samples_leaf, 2);
    assert_eq!(x(p.min_impurity_decrease), 0.25);
    assert_eq!(p.n_bins, 16);
    assert_eq!((p.cv.k, p.cv.seed, p.cv.shuffle), (7, 99, false));
    assert_eq!(p.mode, SplitMode::Fast);
    assert_eq!(p.split_style, SplitStyle::BinMembership);
    assert_eq!((p.parallel, p.n_threads, p.parallel_min_samples), (true, 3, 100));
    let p = params_by_name("strict", "threshold").unwrap();
    assert_eq!(p.mode, SplitMode::Strict);
    assert_eq!(p.split_style, SplitStyle::Threshold);
    let p = params_by_name("strict", "bin_membership").unwrap();
    assert_eq!(p.split_style, SplitStyle::BinMembership);
    assert_eq!(params_by_name("Fast", "bin").err(), Some(UnknownName::Mode));
    assert_eq!(
        params_by_name("fast", "bins").err(),
        Some(UnknownName::SplitStyle)
    );
    assert_eq!(params_by_name("", "").err(), Some(UnknownName::Mode));
}

#[test]
fn default_settings() {
    let p = TreeParams::default();
    assert_eq!(p.max_depth, Some(8));
    assert_eq!(p.min_samples_split, 2);
    assert_eq!(p.min_samples_leaf, 1);
    assert_eq!(x(p.min_impurity_decrease), 0.0);
    assert_eq!(p.n_bins, 8);
    assert_eq!((p.cv.k, p.cv.seed, p.cv.shuffle), (5, 42, true));
    assert_eq!(p.mode, SplitMode::Strict);
    assert_eq!(p.split_style, SplitStyle::Threshold);
    assert_eq!((p.parallel, p.n_threads, p.parallel_min_samples), (false, 1, 512));
    assert!(KFold::new(3, 1).shuffle);
}

#[test]
fn aggregators_are_found_by_name() {
    let s = FoldStats::from_scores([1.0, 2.0, 6.0].iter().map(|&v| n(v)).collect(), 3);
    let std = (14.0f64 / 3.0).sqrt();
    for (name, want) in [
        ("mean", 3.0),
        ("median", 2.0),
        ("trimmed_mean", 2.0),
        ("signal_to_noise", 3.0 / (std + 0.5)),
        ("mean_minus_lambda_std", 3.0 - 2.0 * std),
    ] {
        let a = build_aggregator(name, n(0.4), n(0.5), n(2.0)).unwrap();
        assert_eq!(a.name(), name);
        assert_eq!(x(a.aggregate(&s)), want);
    }
    assert_eq!(
        build_aggregator("mode", n(0.0), n(0.0), n(0.0)).err(),
        Some(UnknownName::Aggregator)
    );
}

#[test]
fn metrics_are_found_by_name() {
    assert_eq!(
        build_average("binary", 4),
        Ok(Average::Binary { pos_label: 4 })
    );
    assert_eq!(build_average("micro", 4), Ok(Average::Micro));
    assert_eq!(build_average("macro", 4), Ok(Average::Macro));
    assert_eq!(build_average("weighted", 4), Ok(Average::Weighted));
    assert_eq!(build_average("none", 4), Err(UnknownName::Average));
    let mut cm = Confusion::zero(2);
    cm.add_group(1, &[2, 8]);
    cm.add_group(0, &[5, 1]);
    for (name, want) in [
        ("precision", 0.8),
        ("recall", 8.0 / 9.0),
        ("f1", 16.0 / 19.0),
        ("fbeta", 40.0 / 46.0),
        ("accuracy", 13.0 / 16.0),
    ] {
        let o = build_objective(name, "binary", 1, n(2.0)).unwrap();
        assert_eq!(o.name(), name);
        assert_eq!(x(o.score(&cm)), want);
    }
    assert_eq!(
        build_objective("gini", "binary", 1, n(2.0)).err(),
        Some(UnknownName::Objective)
    );
    assert_eq!(
        build_objective("gini", "mean", 1, n(2.0)).err(),
        Some(UnknownName::Average)
    );
}

#[test]
fn tasks_are_found_by_name() {
    assert_eq!(
        build_classification("entropy", 2).unwrap().criterion.name(),
        "entropy"
    );
    assert_eq!(
        build_classification("gini", 2).unwrap().criterion.name(),
        "gini"
    );
    assert_eq!(
        build_classification("mse", 2).err(),
        Some(UnknownName::ClassCriterion)
    );
    for name in ["mse", "variance", "mae"] {
        assert_eq!(build_regression(name).unwrap().criterion.name(), name);
    }
    assert_eq!(
        build_regression("gini").err(),
        Some(UnknownName::ValueCriterion)
    );
}

#[test]
fn stored_trees_have_nodes() {
    let r = FlatTree::from_arrays(
        vec![],
        vec![],
        vec![],
        vec![],
        vec![],
        vec![],
        vec![],
        vec![],
        vec![],
    );
    assert_eq!(r.err(), Some("tree state has no nodes".to_string()));
}

#[test]
fn arrays_with_a_cycle_are_no_tree() {
    let make = |left: Vec<i64>, right: Vec<i64>| {
        FlatTree::from_arrays(
            vec![false, true, true],
            left,
            right,
            vec![0, -1, -1],
            vec![false; 3],
            vec![n(f64::NEG_INFINITY); 3],
            vec![n(1.0); 3],
            vec![-1; 3],
            vec![2, 1, 1],
        )
        .unwrap()
    };
    assert!(make(vec![1, -1, -1], vec![2, -1, -1]).is_tree(0, 3));
    assert!(make(vec![2, -1, -1], vec![1, -1, -1]).is_tree(0, 3));
    assert!(!make(vec![0, -1, -1], vec![2, -1, -1]).is_tree(0, 3));
    assert!(!make(vec![1, -1, -1], vec![3, -1, -1]).is_tree(0, 3));
    assert!(!make(vec![-1, -1, -1], vec![2, -1, -1]).is_tree(0, 3));
    assert!(!make(vec![1, -1, -1], vec![2, -1, -1]).is_tree(0, 2));
    assert!(make(vec![1, -1, -1], vec![2, -1, -1]).is_tree(1, 2));
}

#[test]
fn classification_tasks_know_their_classes() {
    assert_eq!(Classification::gini(4).n_classes, 4);
    assert_eq!(Classification::entropy(3).n_classes, 3);
}
