//! Models fitted to tables.

use cvdt::model::proba_table;
use cvdt::options::{Options, UnknownName};
use cvdt::parallel::InTurn;
use cvdt::table::{
    build_columns, build_rows, class_labels, class_targets, is_categorical, sorted_categorical,
    to_cat,
};
use cvdt::tree::restore::{build_class_node, build_regr_node, tree_to_dict, LeafArrays};
use cvdt::{
    ClassPrediction, Column, DecisionTree, FeatureValue, Float, KFold, Mean, Model, Node,
    RawClassifier, RawObjectiveClassifier, RawRegressor, Regression, SplitRule, Table, TreeParams,
    UNKNOWN_CAT,
};

fn n(x: f64) -> Float {
    Float::from_bits(x.to_bits())
}

fn x(v: Float) -> f64 {
    f64::from_bits(v.to_bits())
}

fn ns(xs: &[f64]) -> Vec<Float> {
    xs.iter().map(|&v| n(v)).collect()
}

fn table(n_rows: usize, n_cols: usize, cells: &[f64]) -> Table {
    Table {
        n_rows,
        n_cols,
        cells: ns(cells),
    }
}

fn options(mode: &str, aggregator: &str) -> Options {
    Options {
        max_depth: Some(4),
        min_samples_split: 2,
        min_samples_leaf: 1,
        min_impurity_decrease: n(0.0),
        n_bins: 8,
        cv_folds: 4,
        cv_seed: 9,
        cv_shuffle: true,
        mode: mode.to_string(),
        split_style: "threshold".to_string(),
        aggregator: aggregator.to_string(),
        agg_frac: n(0.1),
        agg_eps: n(1e-12),
        agg_lambda: n(1.0),
        parallel: false,
        n_threads: 1,
        parallel_min_samples: 512,
    }
}

#[test]
fn categories_are_whole_numbers() {
    assert_eq!(to_cat(n(3.0)), 3);
    assert_eq!(to_cat(n(2.5)), 3);
    assert_eq!(to_cat(n(2.4)), 2);
    assert_eq!(to_cat(n(-0.0)), 0);
    assert_eq!(to_cat(n(-1.0)), UNKNOWN_CAT);
    assert_eq!(to_cat(n(f64::NAN)), UNKNOWN_CAT);
    assert_eq!(to_cat(n(f64::INFINITY)), UNKNOWN_CAT);
    assert_eq!(to_cat(n(1e12)), UNKNOWN_CAT);
}

#[test]
fn categorical_columns_are_listed_once() {
    assert_eq!(sorted_categorical(vec![4, 1, 4, 0, 1]), vec![0, 1, 4]);
    assert!(sorted_categorical(vec![]).is_empty());
    assert!(is_categorical(4, &[0, 1, 4]));
    assert!(!is_categorical(2, &[0, 1, 4]));
    assert!(!is_categorical(9, &[0, 1, 4]));
}

#[test]
fn columns_and_rows_of_a_table() {
    let t = table(2, 3, &[0.5, 7.0, 1.0, f64::NAN, -3.0, 2.0]);
    let cols = build_columns(&t, &[1]);
    match (&cols[0], &cols[1], &cols[2]) {
        (Column::Continuous(a), Column::Categorical(b), Column::Continuous(c)) => {
            assert_eq!(x(a[0]), 0.5);
            assert!(x(a[1]).is_nan());
            assert_eq!(b, &vec![7, UNKNOWN_CAT]);
            assert_eq!(c, &ns(&[1.0, 2.0]));
        }
        _ => panic!("wrong kinds of columns"),
    }
    let rows = build_rows(&t, &[1]);
    assert_eq!(rows.len(), 2);
    assert!(matches!(rows[0][1], FeatureValue::Categorical(7)));
    assert!(matches!(rows[1][1], FeatureValue::Categorical(UNKNOWN_CAT)));
    assert!(matches!(rows[1][2], FeatureValue::Continuous(v) if x(v) == 2.0));
    assert_eq!(x(t.cell(1, 2)), 2.0);
}

#[test]
fn labels_below_zero_count_as_zero() {
    assert_eq!(class_targets(&[3, -5, 0, 1]), vec![3, 0, 0, 1]);
    let preds = vec![
        ClassPrediction {
            class: 1,
            proba: ns(&[0.25, 0.75]),
        },
        ClassPrediction {
            class: 0,
            proba: ns(&[1.0]),
        },
    ];
    assert_eq!(class_labels(&preds), vec![1, 0]);
    let t = proba_table(&preds, 2);
    assert_eq!((t.n_rows, t.n_cols), (2, 2));
    assert_eq!(t.cells, ns(&[0.25, 0.75, 1.0, 0.0]));
    let t = proba_table(&preds, 0);
    assert_eq!((t.n_rows, t.n_cols), (2, 1));
    assert_eq!(t.cells, ns(&[0.25, 1.0]));
}

/// Rows whose class is told by a category and a number.
fn training_table() -> (Table, Vec<i64>, Vec<Float>) {
    let mut cells = Vec::new();
    let mut y = Vec::new();
    let mut v = Vec::new();
    for i in 0..48 {
        let a = ((i * 7) % 48) as f64 / 4.0;
        let k = (i % 3) as f64;
        cells.push(a);
        cells.push(k);
        let label = if k == 2.0 { 2 } else { i64::from(a > 6.0) };
        y.push(label);
        v.push(n(label as f64 * 2.5));
    }
    (table(48, 2, &cells), y, v)
}

#[test]
fn classifier_learns_a_table() {
    let (t, y, _) = training_table();
    for mode in ["strict", "fast"] {
        let mut m = RawClassifier::new(3, "gini", &options(mode, "mean"), vec![1, 1]).unwrap();
        assert_eq!(m.categorical, vec![1]);
        assert_eq!(
            m.predict_labels(&t).err(),
            Some("estimator is not fitted".to_string())
        );
        assert_eq!(m.depth(), 0);
        m.fit_labels(&t, &y, &InTurn).unwrap();
        let got = m.predict_labels(&t).unwrap();
        let right = got.iter().zip(&y).filter(|(a, b)| a == b).count();
        assert!(right >= 44);
        let p = m.predict_proba(&t).unwrap();
        assert_eq!((p.n_rows, p.n_cols), (48, 3));
        for i in 0..48 {
            let row: Vec<f64> = (0..3).map(|j| x(p.cell(i, j))).collect();
            assert!((row.iter().sum::<f64>() - 1.0).abs() < 1e-12);
            let best = row.iter().cloned().fold(0.0, f64::max);
            assert_eq!(row[got[i] as usize], best);
        }
        assert!(m.depth() >= 1 && m.n_leaves() >= 3);
    }
}

#[test]
fn unknown_names_are_refused() {
    let good = options("strict", "mean");
    let bad_mode = options("slow", "mode");
    let bad_aggregator = options("strict", "mode");
    assert_eq!(
        RawClassifier::new(2, "mse", &bad_mode, vec![]).err(),
        Some(UnknownName::ClassCriterion)
    );
    assert_eq!(
        RawClassifier::new(2, "gini", &bad_mode, vec![]).err(),
        Some(UnknownName::Mode)
    );
    assert_eq!(
        RawClassifier::new(2, "gini", &bad_aggregator, vec![]).err(),
        Some(UnknownName::Aggregator)
    );
    let objective = |name: &str, average: &str, o: &Options| {
        RawObjectiveClassifier::new(2, name, average, 1, n(1.0), o, vec![]).err()
    };
    assert_eq!(objective("f1", "all", &bad_mode), Some(UnknownName::Average));
    assert_eq!(objective("f2", "macro", &bad_mode), Some(UnknownName::Objective));
    assert_eq!(objective("f1", "macro", &bad_mode), Some(UnknownName::Mode));
    assert_eq!(objective("f1", "macro", &good), None);
    assert_eq!(
        RawRegressor::new("gini", &good, vec![]).err(),
        Some(UnknownName::ValueCriterion)
    );
    assert_eq!(
        RawRegressor::new("mse", &bad_aggregator, vec![]).err(),
        Some(UnknownName::Aggregator)
    );
}

#[test]
fn stored_classifier_predicts_the_same() {
    let (t, y, _) = training_table();
    let mut m = RawClassifier::new(3, "entropy", &options("strict", "median"), vec![1]).unwrap();
    assert_eq!(
        m.arrays(true).err(),
        Some("estimator is not fitted".to_string())
    );
    m.fit_labels(&t, &y, &InTurn).unwrap();
    let a = m.arrays(true).unwrap();
    assert_eq!(a.node_count, 2 * m.n_leaves() - 1);
    match &a.leaves {
        LeafArrays::Classes {
            predicted_class,
            proba,
            n_classes,
        } => {
            assert_eq!(*n_classes, 3);
            assert!(a.nodes.is_tree(0, predicted_class.len().min(proba.len())));
            let back = RawClassifier::from_tree(&a.nodes, predicted_class, proba, 3, vec![1]);
            assert_eq!(back.predict_labels(&t), m.predict_labels(&t));
            assert_eq!(
                back.predict_proba(&t).unwrap().cells,
                m.predict_proba(&t).unwrap().cells
            );
            assert_eq!((back.depth(), back.n_leaves()), (m.depth(), m.n_leaves()));
            let again = build_class_node(&a.nodes, predicted_class, proba, 0);
            assert!(matches!(again, Node::Internal { .. }));
        }
        LeafArrays::Values { .. } => panic!("classes expected"),
    }
}

#[test]
fn stored_objective_classifier_predicts_the_same() {
    let (t, y, _) = training_table();
    let o = options("fast", "trimmed_mean");
    let mut m =
        RawObjectiveClassifier::new(3, "f1", "macro", 1, n(1.0), &o, vec![1]).unwrap();
    m.fit_labels(&t, &y, &InTurn).unwrap();
    match m.arrays(true).unwrap() {
        a => match &a.leaves {
            LeafArrays::Classes {
                predicted_class,
                proba,
                ..
            } => {
                let back =
                    RawObjectiveClassifier::from_tree(&a.nodes, predicted_class, proba, 3, vec![1]);
                assert_eq!(back.predict_labels(&t), m.predict_labels(&t));
            }
            LeafArrays::Values { .. } => panic!("classes expected"),
        },
    }
}

#[test]
fn stored_regressor_predicts_the_same() {
    let (t, _, v) = training_table();
    for criterion in ["mse", "variance", "mae"] {
        let o = options("strict", "mean_minus_lambda_std");
        let mut m = RawRegressor::new(criterion, &o, vec![1]).unwrap();
        assert_eq!(
            m.predictions(&t).err(),
            Some("estimator is not fitted".to_string())
        );
        m.fit_targets(&t, &v, &InTurn).unwrap();
        let a = m.arrays(false).unwrap();
        match &a.leaves {
            LeafArrays::Values { value } => {
                let back = RawRegressor::from_tree(&a.nodes, value, vec![1]);
                assert_eq!(back.predictions(&t), m.predictions(&t));
                assert!(matches!(
                    build_regr_node(&a.nodes, value, 0),
                    Node::Internal { .. }
                ));
            }
            LeafArrays::Classes { .. } => panic!("values expected"),
        }
    }
}

#[test]
fn a_model_reports_fitting_errors() {
    let (t, y, _) = training_table();
    let mut m: Model<_> =
        RawClassifier::new(3, "gini", &options("strict", "mean"), vec![]).unwrap();
    assert_eq!(
        m.fit_labels(&t, &y[..40], &InTurn).err(),
        Some("targets length 40 does not match 48 samples".to_string())
    );
    assert!(!m.fitted);
    assert_eq!(
        m.fit_labels(&table(0, 0, &[]), &[], &InTurn).err(),
        Some("need at least one feature column".to_string())
    );
}

#[test]
fn exported_nodes_are_in_preorder() {
    // Category 5 against the rest, then a cut.
    let root = Node::Internal {
        rule: SplitRule::Category {
            feature: 1,
            category: 5,
        },
        left: Box::new(Node::Leaf {
            prediction: n(1.5),
            n_samples: 3,
        }),
        right: Box::new(Node::Internal {
            rule: SplitRule::ContinuousBin {
                feature: 0,
                lower: None,
                upper: Some(n(0.25)),
            },
            left: Box::new(Node::Leaf {
                prediction: n(-2.0),
                n_samples: 4,
            }),
            right: Box::new(Node::Leaf {
                prediction: n(9.0),
                n_samples: 5,
            }),
        }),
    };
    let mut t = DecisionTree::new(Regression::mse(), TreeParams::default(), Box::new(Mean));
    t.set_fitted_root(root);
    let nodes = t.export_nodes();
    let ids: Vec<usize> = nodes.iter().map(|e| e.id).collect();
    assert_eq!(ids, vec![0, 1, 2, 3, 4]);
    let sizes: Vec<usize> = nodes.iter().map(|e| e.n_samples).collect();
    assert_eq!(sizes, vec![12, 3, 9, 4, 5]);
    assert_eq!((nodes[0].left, nodes[0].right), (1, 2));
    assert_eq!((nodes[2].left, nodes[2].right), (3, 4));
    assert!(nodes[0].is_categorical && nodes[0].category == 5 && nodes[0].feature == 1);
    assert!(x(nodes[0].lower).is_nan() && x(nodes[0].upper).is_nan());
    assert_eq!(x(nodes[2].lower), f64::NEG_INFINITY);
    assert_eq!(x(nodes[2].upper), 0.25);
    assert_eq!((nodes[1].left, nodes[1].right, nodes[1].feature), (-1, -1, -1));
    assert_eq!((nodes[1].class, nodes[1].category), (-1, -1));
    assert_eq!(x(nodes[4].value), 9.0);
    assert!(nodes[4].proba.is_empty());
    let a = tree_to_dict(&nodes, false, 0);
    assert_eq!(a.node_count, 5);
    assert_eq!(a.nodes.n_samples, vec![12, 3, 9, 4, 5]);
    assert_eq!(a.nodes.left, vec![1, -1, 3, -1, -1]);
    assert_eq!(
        a.nodes.rule_at(2),
        SplitRule::ContinuousBin {
            feature: 0,
            lower: None,
            upper: Some(n(0.25))
        }
    );
    assert_eq!(
        a.nodes.rule_at(0),
        SplitRule::Category {
            feature: 1,
            category: 5
        }
    );
    assert_eq!(
        x(t.predict_one(&[FeatureValue::cont(n(0.3)), FeatureValue::cat(4)])),
        9.0
    );
    assert_eq!(KFold::new(2, 0).k, 2);
}
