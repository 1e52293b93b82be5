//! Classification trees that improve a metric.

use cvdt::{
    Aggregator, Average, Column, DecisionTree, FeatureValue, Float, KFold, Mean,
    ObjectiveClassification, SplitMode, SplitStyle, TreeParams,
};

fn n(x: f64) -> Float {
    Float::from_bits(x.to_bits())
}

fn params(k: usize, seed: u64) -> TreeParams {
    let mut p = TreeParams::default();
    p.cv = KFold::new(k, seed);
    p
}

fn separable() -> (Vec<Column>, Vec<usize>) {
    let mut xs = Vec::new();
    let mut y = Vec::new();
    for i in 0..60 {
        xs.push(n(i as f64 * 0.01));
        y.push(0usize);
    }
    for i in 0..60 {
        xs.push(n(3.0 + i as f64 * 0.01));
        y.push(1usize);
    }
    (vec![Column::Continuous(xs)], y)
}

fn class_at<A: Aggregator + ?Sized>(
    tree: &DecisionTree<ObjectiveClassification, A>,
    x: f64,
) -> usize {
    tree.predict(&[vec![FeatureValue::cont(n(x))]])[0].class
}

#[test]
fn each_objective_learns_separable_strict() {
    let (cols, y) = separable();
    let binary = Average::Binary { pos_label: 1 };
    // Every split that leaves all positives on one side ties in recall, and the lowest state wins.
    // With four bins the lowest one holds 0.2.
    let mut quarters = params(5, 7);
    quarters.split_style = SplitStyle::BinMembership;
    quarters.n_bins = 4;
    let tasks = [
        (ObjectiveClassification::f1(2, binary), params(5, 7)),
        (ObjectiveClassification::precision(2, Average::Macro), params(5, 7)),
        (ObjectiveClassification::recall(2, binary), quarters),
        (ObjectiveClassification::accuracy(2), params(5, 7)),
        (ObjectiveClassification::fbeta(2, n(2.0), binary), params(5, 7)),
    ];
    for (task, p) in tasks {
        let mut t = DecisionTree::new(task, p, Box::new(Mean));
        t.fit(&cols, &y).unwrap();
        assert!(t.n_leaves() >= 2, "objective tree should split separable data");
        assert_eq!(class_at(&t, 0.2), 0);
        assert_eq!(class_at(&t, 3.3), 1);
    }
}

#[test]
fn recall_stops_once_no_positive_is_missed() {
    // With eight bins the lowest state ends below 0.15. The rest is mostly positive, and no further
    // split improves its recall.
    let (cols, y) = separable();
    for style in [SplitStyle::Threshold, SplitStyle::BinMembership] {
        let mut p = params(5, 7);
        p.split_style = style;
        let mut t = DecisionTree::new(
            ObjectiveClassification::recall(2, Average::Binary { pos_label: 1 }),
            p,
            Box::new(Mean),
        );
        t.fit(&cols, &y).unwrap();
        assert_eq!(t.n_leaves(), 2);
        assert_eq!(class_at(&t, 0.1), 0);
        assert_eq!(class_at(&t, 0.2), 1);
        assert_eq!(class_at(&t, 3.3), 1);
    }
}

#[test]
fn objective_learns_separable_fast() {
    let (cols, y) = separable();
    let mut p = params(5, 7);
    p.mode = SplitMode::Fast;
    p.n_bins = 16;
    let mut t = DecisionTree::new(
        ObjectiveClassification::f1(2, Average::Binary { pos_label: 1 }),
        p,
        Box::new(Mean),
    );
    t.fit(&cols, &y).unwrap();
    assert_eq!(class_at(&t, 0.2), 0);
    assert_eq!(class_at(&t, 3.3), 1);
}

#[test]
fn objective_multiclass_macro_f1() {
    let mut xs = Vec::new();
    let mut y = Vec::new();
    for (cluster, base) in [0.0, 3.0, 6.0].iter().enumerate() {
        for i in 0..40 {
            xs.push(n(base + i as f64 * 0.01));
            y.push(cluster);
        }
    }
    let cols = vec![Column::Continuous(xs)];
    let mut t = DecisionTree::new(
        ObjectiveClassification::f1(3, Average::Macro),
        params(5, 1),
        Box::new(Mean),
    );
    t.fit(&cols, &y).unwrap();
    assert_eq!(class_at(&t, 0.2), 0);
    assert_eq!(class_at(&t, 6.2), 2);
}

#[test]
fn objective_single_class_is_one_leaf() {
    let cols = vec![Column::Continuous(
        [0.0, 1.0, 2.0, 3.0, 4.0].iter().map(|&v| n(v)).collect(),
    )];
    let y = vec![0usize; 5];
    let mut t = DecisionTree::new(
        ObjectiveClassification::f1(2, Average::Binary { pos_label: 1 }),
        params(3, 1),
        Box::new(Mean),
    );
    t.fit(&cols, &y).unwrap();
    assert_eq!(t.n_leaves(), 1);
}

#[test]
fn negative_min_impurity_allows_more_growth() {
    // Below zero, splits that do not improve the metric are made too.
    let (cols, y) = separable();
    let base = {
        let mut t = DecisionTree::new(
            ObjectiveClassification::accuracy(2),
            params(5, 7),
            Box::new(Mean),
        );
        t.fit(&cols, &y).unwrap();
        t.n_leaves()
    };
    let grown = {
        let mut p = params(5, 7);
        p.min_impurity_decrease = n(-1.0);
        let mut t = DecisionTree::new(ObjectiveClassification::accuracy(2), p, Box::new(Mean));
        t.fit(&cols, &y).unwrap();
        t.n_leaves()
    };
    assert!(grown >= base);
}
