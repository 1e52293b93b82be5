//! Whole trees, node by node.

use cvdt::{
    Classification, Column, DecisionTree, ExportedNode, Float, KFold, Mean, Regression, SplitMode,
    SplitStyle, TreeParams, UNKNOWN_CAT,
};

/// An expected node.
enum Row {
    /// A leaf with its class or value and its number of samples.
    Leaf(f64, usize),
    /// A test for an interval.
    Between(i64, Option<f64>, Option<f64>),
    /// A test for a category.
    Is(i64, i64),
}

fn n(x: f64) -> Float {
    Float::from_bits(x.to_bits())
}

fn x(v: Float) -> f64 {
    f64::from_bits(v.to_bits())
}

/// Two continuous features with missing values, a categorical one with unknown values, and noisy
/// labels.
fn dataset() -> (Vec<Column>, Vec<usize>) {
    let mut s: u64 = 12345;
    let mut next = || {
        s = s
            .wrapping_mul(6364136223846793005)
            .wrapping_add(1442695040888963407);
        s >> 33
    };
    let (mut a, mut b, mut c, mut y) = (Vec::new(), Vec::new(), Vec::new(), Vec::new());
    for _ in 0..90 {
        let p = next() % 100;
        let q = next() % 100;
        let k = next() % 4;
        let z = next() % 10;
        a.push(n(if p % 17 == 3 { f64::NAN } else { p as f64 / 8.0 }));
        b.push(n(q as f64 / 4.0 - 7.0));
        c.push(if q % 23 == 5 { UNKNOWN_CAT } else { 10 + 3 * k as u32 });
        let mut label = if k == 2 {
            2
        } else if p > 55 {
            1
        } else {
            0
        };
        if z == 0 {
            label = (label + 1) % 3;
        }
        y.push(label);
    }
    (
        vec![
            Column::Continuous(a),
            Column::Continuous(b),
            Column::Categorical(c),
        ],
        y,
    )
}

fn settings(mode: SplitMode, style: SplitStyle) -> TreeParams {
    let mut p = TreeParams::default();
    p.max_depth = Some(3);
    p.min_samples_leaf = 4;
    p.n_bins = 6;
    p.cv = KFold::new(4, 11);
    p.mode = mode;
    p.split_style = style;
    p
}

fn check(nodes: &[ExportedNode], rows: &[Row], classes: bool) {
    assert_eq!(nodes.len(), rows.len());
    for (node, row) in nodes.iter().zip(rows) {
        match row {
            Row::Leaf(value, samples) => {
                assert!(node.is_leaf);
                assert_eq!(node.n_samples, *samples);
                if classes {
                    assert_eq!(node.class as f64, *value);
                } else {
                    assert_eq!(x(node.value), *value);
                }
            }
            Row::Between(feature, lower, upper) => {
                assert!(!node.is_leaf && !node.is_categorical);
                assert_eq!(node.feature, *feature);
                assert_eq!(x(node.lower), lower.unwrap_or(f64::NEG_INFINITY));
                assert_eq!(x(node.upper), upper.unwrap_or(f64::INFINITY));
            }
            Row::Is(feature, category) => {
                assert!(!node.is_leaf && node.is_categorical);
                assert_eq!(node.feature, *feature);
                assert_eq!(node.category, *category);
            }
        }
    }
}

fn check_classes(task: Classification, mode: SplitMode, style: SplitStyle, rows: &[Row]) {
    let (cols, y) = dataset();
    let mut tree = DecisionTree::new(task, settings(mode, style), Box::new(Mean));
    tree.fit(&cols, &y).unwrap();
    check(&tree.export_nodes(), rows, true);
}

fn check_values(task: Regression, mode: SplitMode, style: SplitStyle, rows: &[Row]) {
    let (cols, labels) = dataset();
    let y: Vec<Float> = labels
        .iter()
        .enumerate()
        .map(|(i, &label)| n((3 * label + i % 2) as f64))
        .collect();
    let mut tree = DecisionTree::new(task, settings(mode, style), Box::new(Mean));
    tree.fit(&cols, &y).unwrap();
    check(&tree.export_nodes(), rows, false);
}

#[test]
fn gini_strict_cuts() {
    check_classes(
        Classification::gini(3),
        SplitMode::Strict,
        SplitStyle::Threshold,
        &[
            Row::Between(0, None, Some(6.125)),
            Row::Is(2, 16),
            Row::Leaf(2.0, 9),
            Row::Between(1, None, Some(9.0)),
            Row::Leaf(0.0, 22),
            Row::Leaf(0.0, 12),
            Row::Is(2, 16),
            Row::Leaf(2.0, 13),
            Row::Between(0, None, Some(8.25)),
            Row::Leaf(1.0, 5),
            Row::Leaf(1.0, 29),
        ],
    );
}

#[test]
fn gini_strict_bins() {
    check_classes(
        Classification::gini(3),
        SplitMode::Strict,
        SplitStyle::BinMembership,
        &[
            Row::Is(2, 16),
            Row::Between(0, Some(8.375), Some(11.125)),
            Row::Leaf(0.0, 4),
            Row::Leaf(2.0, 18),
            Row::Between(0, Some(9.125), Some(10.625)),
            Row::Between(0, Some(10.125), None),
            Row::Leaf(1.0, 4),
            Row::Leaf(1.0, 7),
            Row::Between(0, Some(6.5), Some(10.875)),
            Row::Leaf(1.0, 9),
            Row::Leaf(0.0, 48),
        ],
    );
}

#[test]
fn gini_fast_cuts() {
    check_classes(
        Classification::gini(3),
        SplitMode::Fast,
        SplitStyle::Threshold,
        &[
            Row::Is(2, 16),
            Row::Between(0, None, Some(9.125)),
            Row::Between(0, None, Some(3.75)),
            Row::Leaf(2.0, 5),
            Row::Leaf(2.0, 10),
            Row::Leaf(2.0, 7),
            Row::Between(0, None, Some(6.125)),
            Row::Is(2, 10),
            Row::Leaf(0.0, 11),
            Row::Leaf(0.0, 23),
            Row::Between(1, None, Some(-2.25)),
            Row::Leaf(1.0, 5),
            Row::Leaf(1.0, 29),
        ],
    );
}

#[test]
fn gini_fast_bins() {
    check_classes(
        Classification::gini(3),
        SplitMode::Fast,
        SplitStyle::BinMembership,
        &[
            Row::Is(2, 16),
            Row::Leaf(2.0, 22),
            Row::Between(0, Some(9.125), Some(10.625)),
            Row::Leaf(1.0, 11),
            Row::Between(0, Some(10.625), None),
            Row::Leaf(1.0, 11),
            Row::Leaf(0.0, 46),
        ],
    );
}

#[test]
fn entropy_strict_cuts() {
    check_classes(
        Classification::entropy(3),
        SplitMode::Strict,
        SplitStyle::Threshold,
        &[
            Row::Is(2, 16),
            Row::Between(0, None, Some(8.375)),
            Row::Leaf(2.0, 14),
            Row::Between(0, None, Some(11.125)),
            Row::Leaf(0.0, 4),
            Row::Leaf(2.0, 4),
            Row::Between(0, None, Some(6.0)),
            Row::Between(1, None, Some(-2.5)),
            Row::Leaf(0.0, 5),
            Row::Leaf(0.0, 27),
            Row::Between(0, None, Some(7.875)),
            Row::Leaf(0.0, 5),
            Row::Leaf(1.0, 31),
        ],
    );
}

#[test]
fn entropy_strict_bins() {
    check_classes(
        Classification::entropy(3),
        SplitMode::Strict,
        SplitStyle::BinMembership,
        &[
            Row::Is(2, 16),
            Row::Between(0, Some(8.375), Some(11.125)),
            Row::Leaf(0.0, 4),
            Row::Leaf(2.0, 18),
            Row::Between(0, Some(10.625), None),
            Row::Leaf(1.0, 11),
            Row::Between(0, Some(9.25), None),
            Row::Leaf(1.0, 10),
            Row::Leaf(0.0, 47),
        ],
    );
}

#[test]
fn entropy_fast_cuts() {
    check_classes(
        Classification::entropy(3),
        SplitMode::Fast,
        SplitStyle::Threshold,
        &[
            Row::Is(2, 16),
            Row::Between(0, None, Some(9.125)),
            Row::Between(0, None, Some(6.125)),
            Row::Leaf(2.0, 9),
            Row::Leaf(2.0, 6),
            Row::Leaf(2.0, 7),
            Row::Between(0, None, Some(6.125)),
            Row::Is(2, 13),
            Row::Leaf(0.0, 16),
            Row::Leaf(0.0, 18),
            Row::Between(1, None, Some(-2.25)),
            Row::Leaf(1.0, 5),
            Row::Leaf(1.0, 29),
        ],
    );
}

#[test]
fn entropy_fast_bins() {
    check_classes(
        Classification::entropy(3),
        SplitMode::Fast,
        SplitStyle::BinMembership,
        &[
            Row::Is(2, 16),
            Row::Leaf(2.0, 22),
            Row::Between(0, Some(9.125), Some(10.625)),
            Row::Leaf(1.0, 11),
            Row::Between(0, Some(10.625), None),
            Row::Leaf(1.0, 11),
            Row::Leaf(0.0, 46),
        ],
    );
}

#[test]
fn mse_strict_cuts() {
    check_values(
        Regression::mse(),
        SplitMode::Strict,
        SplitStyle::Threshold,
        &[
            Row::Is(2, 16),
            Row::Between(0, None, Some(8.375)),
            Row::Leaf(5.785714285714286, 14),
            Row::Between(0, None, Some(11.125)),
            Row::Leaf(2.0, 4),
            Row::Leaf(6.25, 4),
            Row::Between(0, None, Some(6.0)),
            Row::Between(1, None, Some(9.75)),
            Row::Leaf(0.8571428571428571, 21),
            Row::Leaf(0.5454545454545454, 11),
            Row::Between(0, None, Some(7.875)),
            Row::Leaf(1.4, 5),
            Row::Leaf(3.935483870967742, 31),
        ],
    );
}

#[test]
fn mse_strict_bins() {
    check_values(
        Regression::mse(),
        SplitMode::Strict,
        SplitStyle::BinMembership,
        &[
            Row::Is(2, 16),
            Row::Between(0, Some(8.375), Some(11.125)),
            Row::Leaf(2.0, 4),
            Row::Leaf(5.888888888888889, 18),
            Row::Between(0, Some(9.125), Some(10.625)),
            Row::Between(0, Some(10.125), None),
            Row::Leaf(4.5, 4),
            Row::Leaf(4.0, 7),
            Row::Between(0, Some(10.875), None),
            Row::Leaf(4.111111111111111, 9),
            Row::Leaf(1.4583333333333333, 48),
        ],
    );
}

#[test]
fn mse_fast_cuts() {
    check_values(
        Regression::mse(),
        SplitMode::Fast,
        SplitStyle::Threshold,
        &[
            Row::Is(2, 16),
            Row::Between(0, None, Some(9.125)),
            Row::Between(0, None, Some(6.125)),
            Row::Leaf(5.555555555555555, 9),
            Row::Leaf(5.166666666666667, 6),
            Row::Leaf(4.714285714285714, 7),
            Row::Between(0, None, Some(6.125)),
            Row::Is(2, 13),
            Row::Leaf(0.9375, 16),
            Row::Leaf(0.6111111111111112, 18),
            Row::Between(1, None, Some(-2.25)),
            Row::Leaf(2.2, 5),
            Row::Leaf(4.0, 29),
        ],
    );
}

#[test]
fn mse_fast_bins() {
    check_values(
        Regression::mse(),
        SplitMode::Fast,
        SplitStyle::BinMembership,
        &[
            Row::Is(2, 16),
            Row::Leaf(5.181818181818182, 22),
            Row::Between(0, Some(9.125), Some(10.625)),
            Row::Leaf(4.181818181818182, 11),
            Row::Between(0, Some(10.625), None),
            Row::Leaf(4.181818181818182, 11),
            Row::Leaf(1.326086956521739, 46),
        ],
    );
}

#[test]
fn mae_strict_cuts() {
    check_values(
        Regression::mae(),
        SplitMode::Strict,
        SplitStyle::Threshold,
        &[
            Row::Between(0, None, Some(6.125)),
            Row::Is(2, 16),
            Row::Leaf(5.555555555555555, 9),
            Row::Is(2, 10),
            Row::Leaf(0.8181818181818182, 11),
            Row::Leaf(0.7391304347826086, 23),
            Row::Is(2, 16),
            Row::Leaf(4.923076923076923, 13),
            Row::Between(1, None, Some(0.5)),
            Row::Leaf(3.0, 11),
            Row::Leaf(4.086956521739131, 23),
        ],
    );
}

#[test]
fn mae_strict_bins() {
    check_values(
        Regression::mae(),
        SplitMode::Strict,
        SplitStyle::BinMembership,
        &[
            Row::Is(2, 16),
            Row::Between(0, Some(8.375), Some(11.125)),
            Row::Leaf(2.0, 4),
            Row::Leaf(5.888888888888889, 18),
            Row::Between(0, Some(9.125), Some(10.625)),
            Row::Between(0, Some(10.125), None),
            Row::Leaf(4.5, 4),
            Row::Leaf(4.0, 7),
            Row::Between(0, Some(6.5), Some(10.875)),
            Row::Leaf(3.4444444444444446, 9),
            Row::Leaf(1.5833333333333333, 48),
        ],
    );
}
