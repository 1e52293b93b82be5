//! The laws of the library on concrete values.

use cvdt::criterion::{class_counts, variance_from_moments};
use cvdt::cross_validation::SplitMix64;
use cvdt::encoder::{bin_bounds, bin_of, quantile_edges};
use cvdt::histogram::{reset_floats, reset_u32};
use cvdt::objective::argmax;
use cvdt::parallel::{chunks, map_range};
use cvdt::sorting::sorted;
use cvdt::tree::fast::partition_in_place;
use cvdt::tree::rule::SplitRule;
use cvdt::tree::strict::accept;
use cvdt::{
    eval_feature, eval_feature_objective, present_states, score_classif, score_classif_objective,
    score_regr, select_best, Accuracy, Aggregator, Average, Candidate, ClassImpurityKind, ClassObjective, Classification,
    Column, Confusion, Criterion, DecisionTree, Entropy, FBeta, FastScratch, FeatureValue, Float,
    Fold, FoldStats, Gini, KFold, Mae, Mean, MeanMinusLambdaStd, Median, Mse, Node, Precision, Recall,
    ScoredCandidate, SignalToNoise, SplitMode, SplitStyle, Task, TreeParams, TrimmedMean, Variance, F1,
    UNKNOWN_CAT,
};

fn n(x: f64) -> Float {
    Float::from_bits(x.to_bits())
}

fn x(v: Float) -> f64 {
    f64::from_bits(v.to_bits())
}

fn ns(xs: &[f64]) -> Vec<Float> {
    xs.iter().map(|&v| n(v)).collect()
}

#[test]
fn sorting_orders_all_patterns() {
    let v = ns(&[2.0, f64::NAN, -1.0, f64::NEG_INFINITY, 0.0, -0.0, f64::INFINITY]);
    let bits: Vec<u64> = sorted(&v).iter().map(|a| a.to_bits()).collect();
    let want: Vec<u64> = [
        f64::NEG_INFINITY,
        -1.0,
        -0.0,
        0.0,
        2.0,
        f64::INFINITY,
        f64::NAN,
    ]
    .iter()
    .map(|a| a.to_bits())
    .collect();
    assert_eq!(bits, want);
}

#[test]
fn generator_gives_the_known_stream() {
    // The published first outputs of this generator for seed zero.
    let mut rng = SplitMix64::new(0);
    assert_eq!(rng.next_u64(), 0xe220_a839_7b1d_cdaf);
    assert_eq!(rng.next_u64(), 0x6e78_9e6a_a1b9_65f4);
    assert_eq!(rng.next_u64(), 0x06c4_5d18_8009_454f);
    let mut rng = SplitMix64::new(0);
    assert_eq!(rng.below(10), 0xe220_a839_7b1d_cdaf % 10);
}

#[test]
fn folds_without_shuffling_are_contiguous() {
    let kf = KFold {
        k: 3,
        seed: 1,
        shuffle: false,
    };
    let folds = kf.folds(&[10, 11, 12, 13, 14, 15, 16]);
    let val: Vec<Vec<usize>> = folds.iter().map(|f| f.val.clone()).collect();
    assert_eq!(val, vec![vec![10, 11, 12], vec![13, 14], vec![15, 16]]);
    assert_eq!(folds[1].train, vec![10, 11, 12, 15, 16]);
}

#[test]
fn compact_assignment_agrees_with_folds() {
    let idx: Vec<usize> = (0..37).map(|i| 2 * i + 1).collect();
    let kf = KFold::new(6, 99);
    let folds = kf.folds(&idx);
    let (order, val_fold, k) = kf.assign(&idx);
    assert_eq!(k, folds.len());
    for (f, fold) in folds.iter().enumerate() {
        let val: Vec<usize> = (0..order.len())
            .filter(|&p| val_fold[p] as usize == f)
            .map(|p| order[p] as usize)
            .collect();
        assert_eq!(val, fold.val);
    }
}

#[test]
fn empty_nodes_have_no_folds() {
    assert!(KFold::new(5, 1).folds(&[]).is_empty());
    let (order, val_fold, k) = KFold::new(5, 1).assign(&[]);
    assert!(order.is_empty() && val_fold.is_empty());
    assert_eq!(k, 0);
}

#[test]
fn fold_summary_of_an_even_number_of_scores() {
    let s = FoldStats::from_scores(ns(&[4.0, 1.0, 2.0, 9.0]), 6);
    assert_eq!(s.n_success, 4);
    assert_eq!(s.n_total, 6);
    assert_eq!(x(s.mean), 4.0);
    assert_eq!(x(s.median), 3.0);
    assert_eq!(x(s.std), ((0.0 + 9.0 + 4.0 + 25.0) / 4.0f64).sqrt());
    assert_eq!(s.scores, ns(&[4.0, 1.0, 2.0, 9.0]));
}

#[test]
fn quantile_bins_enclose_their_values() {
    let vals = ns(&[5.0, 1.0, 4.0, 2.0, 3.0, f64::NAN, 6.0]);
    let edges = quantile_edges(&vals, 3);
    assert_eq!(edges, ns(&[3.0, 5.0]));
    assert_eq!(bin_bounds(&edges, 0), Some((None, Some(n(3.0)))));
    assert_eq!(bin_bounds(&edges, 1), Some((Some(n(3.0)), Some(n(5.0)))));
    assert_eq!(bin_bounds(&edges, 2), Some((Some(n(5.0)), None)));
    assert_eq!(bin_bounds(&edges, 3), None);
    // A value is below a cut exactly when its bin is not above that of the cut.
    for v in [0.0, 2.9, 3.0, 4.9, 5.0, 7.0] {
        for (b, e) in edges.iter().enumerate() {
            assert_eq!(bin_of(&edges, n(v)) as usize <= b, v < x(*e));
        }
    }
}

#[test]
fn one_class_is_pure() {
    for size in [1usize, 3, 7, 10, 49] {
        let labels = vec![1usize; size];
        assert_eq!(Gini::new(3).impurity(&labels).to_bits(), 0);
        assert_eq!(Entropy::new(3).impurity(&labels).to_bits(), 0);
    }
}

#[test]
fn variance_is_mse_bit_for_bit() {
    let v = ns(&[0.1, 0.7, -3.25, 1e10, 1e-10]);
    assert_eq!(Variance.impurity(&v).to_bits(), Mse.impurity(&v).to_bits());
    assert_eq!(Variance.name(), "variance");
    assert_eq!(Mse.name(), "mse");
    assert_eq!(Mae.name(), "mae");
    assert_eq!(Gini::new(2).name(), "gini");
    assert_eq!(Entropy::new(2).name(), "entropy");
}

#[test]
fn classes_out_of_range_are_not_counted() {
    assert_eq!(class_counts(&[0, 2, 5, 2], 3), vec![1, 0, 2]);
    assert_eq!(x(Gini::new(3).impurity(&[0, 2, 5, 2])), x(Gini::new(3).impurity(&[0, 2, 2])));
    assert_eq!(x(Gini::new(2).impurity(&[0, 1, 5, 5])), 0.5);
    assert_eq!(x(Gini::new(2).impurity(&[5, 5])), 0.0);
    assert_eq!(x(Entropy::new(2).impurity(&[0, 9, 1, 5, 5])), 1.0);
    assert_eq!(x(Entropy::new(2).impurity(&[7])), 0.0);
}

#[test]
fn aggregators_on_values() {
    let s = FoldStats::from_scores(ns(&[1.0, 2.0, 3.0, 4.0]), 4);
    let std = 1.25f64.sqrt();
    assert_eq!(x(Mean.aggregate(&s)), 2.5);
    assert_eq!(x(Median.aggregate(&s)), 2.5);
    assert_eq!(x(TrimmedMean { frac: n(0.3) }.aggregate(&s)), 2.5);
    assert_eq!(x(TrimmedMean { frac: n(0.9) }.aggregate(&s)), 2.5);
    assert_eq!(
        x(SignalToNoise::default().aggregate(&s)),
        2.5 / (std + 1e-12)
    );
    assert_eq!(
        x(MeanMinusLambdaStd { lambda: n(0.5) }.aggregate(&s)),
        2.5 - 0.5 * std
    );
    assert_eq!(Mean.name(), "mean");
    assert_eq!(Median.name(), "median");
    assert_eq!(TrimmedMean { frac: n(0.1) }.name(), "trimmed_mean");
    assert_eq!(SignalToNoise::default().name(), "signal_to_noise");
    assert_eq!(
        MeanMinusLambdaStd { lambda: n(1.0) }.name(),
        "mean_minus_lambda_std"
    );
    let empty = FoldStats::from_scores(vec![], 4);
    assert_eq!(
        x(TrimmedMean { frac: n(0.1) }.aggregate(&empty)),
        f64::NEG_INFINITY
    );
    assert_eq!(
        x(MeanMinusLambdaStd { lambda: n(1.0) }.aggregate(&empty)),
        f64::NEG_INFINITY
    );
}

#[test]
fn selection_does_not_depend_on_order() {
    let make = |feature, state, score: f64| ScoredCandidate {
        candidate: Candidate { feature, state },
        score: n(score),
        stats: FoldStats::from_scores(ns(&[score]), 1),
    };
    let a = [make(2, 0, 0.5), make(0, 3, 0.5), make(1, 1, 0.4)];
    let b = [make(1, 1, 0.4), make(0, 3, 0.5), make(2, 0, 0.5)];
    assert_eq!(
        select_best(&a).unwrap().candidate,
        select_best(&b).unwrap().candidate
    );
    assert_eq!(select_best(&a).unwrap().candidate.feature, 0);
}

#[test]
fn the_first_largest_count_leads() {
    assert_eq!(argmax(&[1, 5, 5, 2]), 1);
    assert_eq!(argmax(&[0, 0]), 0);
    assert_eq!(argmax(&[]), 0);
}

#[test]
fn confusion_counts_stay_consistent() {
    let mut cm = Confusion::zero(3);
    cm.add_group(0, &[4, 1, 0]);
    cm.add_group(2, &[0, 2, 3]);
    cm.add_group(7, &[1, 0, 0]);
    assert_eq!(cm.tp, vec![4, 0, 3]);
    assert_eq!(cm.fp, vec![1, 0, 2]);
    assert_eq!(cm.fn_, vec![1, 3, 0]);
    assert_eq!(cm.support, vec![5, 3, 3]);
    assert_eq!(cm.total, 11);
    for c in 0..3 {
        assert_eq!(cm.tp[c] + cm.fn_[c], cm.support[c]);
    }
}

#[test]
fn metrics_on_values() {
    let mut cm = Confusion::zero(2);
    cm.add_group(1, &[2, 8]);
    cm.add_group(0, &[5, 1]);
    let micro = Average::Micro;
    assert_eq!(x(Recall { average: micro }.score(&cm)), 13.0 / 16.0);
    assert_eq!(x(F1 { average: micro }.score(&cm)), 26.0 / 32.0);
    let weighted = Average::Weighted;
    assert_eq!(
        x(Recall { average: weighted }.score(&cm)),
        (0.0 + 7.0 * (5.0 / 7.0) + 9.0 * (8.0 / 9.0)) / 16.0
    );
    let binary = Average::Binary { pos_label: 0 };
    assert_eq!(
        x(FBeta {
            beta: n(0.5),
            average: binary
        }
        .score(&cm)),
        (1.25 * 5.0) / (1.25 * 5.0 + 0.25 * 2.0 + 1.0)
    );
    assert_eq!(Precision { average: micro }.name(), "precision");
    assert_eq!(Recall { average: micro }.name(), "recall");
    assert_eq!(F1 { average: micro }.name(), "f1");
    assert_eq!(
        FBeta {
            beta: n(1.0),
            average: micro
        }
        .name(),
        "fbeta"
    );
    assert_eq!(Accuracy.name(), "accuracy");
}

#[test]
fn histograms_score_cuts_and_bins() {
    let codes = vec![0u16, 1, 2, 0, 1, 2, u16::MAX];
    let labels = vec![0usize, 0, 1, 0, 1, 1, 0];
    let order = vec![0u32, 1, 2, 3, 4, 5, 6];
    let val_fold = vec![0u8, 0, 0, 1, 1, 1, 1];
    let mut scratch = FastScratch::new();
    let cuts = score_classif(
        &codes,
        &labels,
        &order,
        &val_fold,
        2,
        3,
        2,
        ClassImpurityKind::Gini,
        &Mean,
        4,
        &mut scratch,
        true,
    );
    // The last bin has no cut above it.
    let states: Vec<u32> = cuts.iter().map(|c| c.candidate.state).collect();
    assert_eq!(states, vec![0, 1]);
    assert!(cuts.iter().all(|c| c.candidate.feature == 4));
    // First fold: labels 0, 0, 1 by bin. Second fold: 0, 1, 1.
    let parent = 1.0 - ((2.0f64 / 3.0) * (2.0 / 3.0) + (1.0f64 / 3.0) * (1.0 / 3.0));
    assert!((x(cuts[0].stats.scores[0]) - (parent - 2.0 * 0.5 / 3.0)).abs() < 1e-15);
    assert!((x(cuts[0].stats.scores[1]) - parent).abs() < 1e-15);
    let bins = score_classif(
        &codes,
        &labels,
        &order,
        &val_fold,
        2,
        3,
        2,
        ClassImpurityKind::Gini,
        &Mean,
        4,
        &mut scratch,
        false,
    );
    let states: Vec<u32> = bins.iter().map(|c| c.candidate.state).collect();
    assert_eq!(states, vec![0, 1, 2]);
    assert!((x(bins[1].stats.scores[0]) - (parent - 2.0 * 0.5 / 3.0)).abs() < 1e-15);
}

#[test]
fn moments_score_cuts_and_bins() {
    let codes = vec![0u16, 1, 2, 0, 1, 2];
    let y = ns(&[1.0, 1.0, 7.0, 1.0, 7.0, 7.0]);
    let order = vec![0u32, 1, 2, 3, 4, 5];
    let val_fold = vec![0u8, 0, 0, 1, 1, 1];
    let mut scratch = FastScratch::new();
    let cuts = score_regr(&codes, &y, &order, &val_fold, 2, 3, &Mean, 0, &mut scratch, true);
    assert_eq!(cuts.len(), 2);
    // First fold: 1, 1, 7. The cut above bin 1 leaves no variance.
    assert!((x(cuts[1].stats.scores[0]) - 8.0).abs() < 1e-12);
    assert!((x(cuts[0].stats.scores[0]) - (8.0 - 2.0 * 9.0 / 3.0)).abs() < 1e-12);
    let bins = score_regr(&codes, &y, &order, &val_fold, 2, 3, &Mean, 0, &mut scratch, false);
    assert_eq!(bins.len(), 3);
    assert!((x(bins[2].stats.scores[0]) - 8.0).abs() < 1e-12);
}

#[test]
fn objective_scores_agree_between_paths() {
    // With bins that do not depend on the fold, both paths count the same.
    let cats = vec![0u32, 1, 2, 0, 1, 2, 0, 1, 2, 1, 1, 0];
    let labels = vec![0usize, 1, 1, 0, 1, 0, 0, 1, 1, 0, 1, 1];
    let idx: Vec<usize> = (0..12).collect();
    let kf = KFold::new(3, 5);
    let folds = kf.folds(&idx);
    let metric = F1 {
        average: Average::Macro,
    };
    let strict = eval_feature_objective(
        &[Column::Categorical(cats.clone())],
        &labels,
        0,
        &idx,
        &folds,
        4,
        2,
        &metric,
        &Mean,
        false,
    );
    let codes: Vec<u16> = cats.iter().map(|&c| c as u16).collect();
    let (order, val_fold, k) = kf.assign(&idx);
    let mut scratch = FastScratch::new();
    let fast = score_classif_objective(
        &codes,
        &labels,
        &order,
        &val_fold,
        k,
        3,
        2,
        &metric,
        &Mean,
        0,
        &mut scratch,
        false,
    );
    assert_eq!(strict.len(), fast.len());
    for (a, b) in strict.iter().zip(&fast) {
        assert_eq!(a.candidate, b.candidate);
        assert_eq!(a.stats.scores, b.stats.scores);
        assert_eq!(a.score.to_bits(), b.score.to_bits());
    }
}

#[test]
fn impurity_scores_agree_between_paths() {
    let cats = vec![0u32, 4, 2, 2, 0, 4, 4, 2, 0, 0, 4, 2, 4, 0];
    let labels = vec![0usize, 1, 2, 1, 0, 2, 1, 2, 0, 1, 1, 2, 0, 0];
    let idx = vec![13usize, 0, 2, 3, 4, 6, 7, 8, 9, 10, 11, 12];
    let column = Column::Categorical(cats.clone());
    let kf = KFold::new(4, 9);
    let folds = kf.folds(&idx);
    let states = present_states(&column, &idx, 8);
    assert_eq!(states, vec![0, 2, 4]);
    let codes: Vec<u16> = cats.iter().map(|&c| c as u16).collect();
    let (order, val_fold, k) = kf.assign(&idx);
    for kind in [ClassImpurityKind::Gini, ClassImpurityKind::Entropy] {
        let strict = match kind {
            ClassImpurityKind::Gini => eval_feature(
                &[column.clone()],
                &labels,
                0,
                &states,
                &folds,
                8,
                &Gini::new(3),
                1,
                false,
            ),
            ClassImpurityKind::Entropy => eval_feature(
                &[column.clone()],
                &labels,
                0,
                &states,
                &folds,
                8,
                &Entropy::new(3),
                1,
                false,
            ),
        };
        let mut scratch = FastScratch::new();
        let fast = score_classif(
            &codes,
            &labels,
            &order,
            &val_fold,
            k,
            6,
            3,
            kind,
            &Mean,
            0,
            &mut scratch,
            false,
        );
        assert_eq!(fast.len(), states.len());
        for j in 0..states.len() {
            assert_eq!(fast[j].candidate, Candidate { feature: 0, state: states[j] });
            assert_eq!(fast[j].stats.scores, strict[j].scores);
            assert_eq!(fast[j].score.to_bits(), strict[j].mean.to_bits());
        }
    }
}

#[test]
fn exported_nodes_link_up() {
    let (cols, y) = noisy();
    let mut t = DecisionTree::classifier(3);
    assert!(t.export_nodes().is_empty());
    t.fit(&cols, &y).unwrap();
    let nodes = t.export_nodes();
    assert!(nodes.len() > 3);
    assert_eq!(nodes.len(), 2 * t.n_leaves() - 1);
    let mut parents = vec![0usize; nodes.len()];
    for (i, e) in nodes.iter().enumerate() {
        assert_eq!(e.id, i);
        if e.is_leaf {
            assert_eq!((e.left, e.right, e.feature, e.category), (-1, -1, -1, -1));
        } else {
            let (left, right) = (e.left as usize, e.right as usize);
            assert_eq!(left, i + 1);
            assert!(left < right && right < nodes.len());
            assert_eq!(e.n_samples, nodes[left].n_samples + nodes[right].n_samples);
            assert_eq!(e.class, -1);
            assert!(e.proba.is_empty());
            parents[left] += 1;
            parents[right] += 1;
        }
    }
    assert_eq!(parents[0], 0);
    assert!(parents[1..].iter().all(|&p| p == 1));
}

#[test]
fn buffers_grow_and_are_cleared() {
    let mut v = vec![3u32, 4];
    reset_u32(&mut v, 4);
    assert_eq!(&v[..4], &[0, 0, 0, 0]);
    v[0] = 9;
    reset_u32(&mut v, 2);
    assert_eq!(&v[..2], &[0, 0]);
    let mut w = ns(&[1.0]);
    reset_floats(&mut w, 3);
    assert_eq!(&w[..3], ns(&[0.0, 0.0, 0.0]).as_slice());
}

#[test]
fn chunks_cover_all_items_in_order() {
    for items in 0..30usize {
        for workers in 1..9usize {
            let parts = chunks(items, workers);
            let mut at = 0;
            for &(from, to) in &parts {
                assert_eq!(from, at);
                assert!(from < to);
                at = to;
            }
            assert_eq!(at, items);
            assert!(parts.len() <= workers);
        }
    }
    let items = vec![1u32, 2, 3, 4, 5];
    assert_eq!(map_range(&items, 1, 4, &|&v: &u32| v * 10), vec![20, 30, 40]);
}

#[test]
fn partition_moves_matches_to_the_front() {
    let mut s = vec![5u32, 2, 8, 1, 6, 3];
    let p = partition_in_place(&mut s, |v| v % 2 == 0);
    assert_eq!(p, 3);
    assert_eq!(&s[..p], &[2, 8, 6]);
    let mut rest = s[p..].to_vec();
    rest.sort_unstable();
    assert_eq!(rest, vec![1, 3, 5]);
}

#[test]
fn rules_route_training_samples_and_queries_alike() {
    let cols = vec![
        Column::Continuous(ns(&[0.5, 1.0, f64::NAN, 3.0])),
        Column::Categorical(vec![4, UNKNOWN_CAT, 9, 4]),
    ];
    let rules = [
        SplitRule::ContinuousBin {
            feature: 0,
            lower: None,
            upper: Some(n(1.0)),
        },
        SplitRule::ContinuousBin {
            feature: 0,
            lower: Some(n(1.0)),
            upper: None,
        },
        SplitRule::Category {
            feature: 1,
            category: 4,
        },
        SplitRule::Category {
            feature: 0,
            category: 4,
        },
        SplitRule::ContinuousBin {
            feature: 1,
            lower: None,
            upper: None,
        },
    ];
    let want = [
        [true, false, false, false],
        [false, true, false, true],
        [true, false, false, true],
        [false, false, false, false],
        [false, false, false, false],
    ];
    for (rule, row) in rules.iter().zip(want) {
        for i in 0..4 {
            let sample: Vec<FeatureValue> = cols
                .iter()
                .map(|c| match c {
                    Column::Continuous(v) => FeatureValue::cont(v[i]),
                    Column::Categorical(v) => FeatureValue::cat(v[i]),
                })
                .collect();
            assert_eq!(rule.route_left_train(&cols, i), row[i]);
            assert_eq!(rule.route_left_sample(&sample), row[i]);
        }
    }
    assert_eq!(rules[2].feature(), 1);
}

/// Noisy labels over two features.
fn noisy() -> (Vec<Column>, Vec<usize>) {
    let mut s: u64 = 77;
    let mut next = || {
        s ^= s << 13;
        s ^= s >> 7;
        s ^= s << 17;
        s
    };
    let (mut a, mut c, mut y) = (Vec::new(), Vec::new(), Vec::new());
    for _ in 0..120 {
        let v = (next() % 64) as f64;
        let k = (next() % 5) as u32;
        a.push(n(v));
        c.push(k);
        let mut label = usize::from(v > 30.0) + usize::from(k == 3);
        if next() % 6 == 0 {
            label = (next() % 3) as usize;
        }
        y.push(label);
    }
    (vec![Column::Continuous(a), Column::Categorical(c)], y)
}

/// Counts the leaves of a tree below a depth and checks the sizes of its nodes.
fn walk<P>(node: &Node<P>, least: usize) -> (usize, usize, usize) {
    match node {
        Node::Leaf { n_samples, .. } => {
            assert!(*n_samples >= least);
            (*n_samples, 1, 0)
        }
        Node::Internal { left, right, .. } => {
            let (a, l, d) = walk(left, least);
            let (b, r, e) = walk(right, least);
            (a + b, l + r, 1 + d.max(e))
        }
    }
}

#[test]
fn trees_keep_to_their_limits() {
    let (cols, y) = noisy();
    for mode in [SplitMode::Strict, SplitMode::Fast] {
        for style in [SplitStyle::Threshold, SplitStyle::BinMembership] {
            for (depth, least) in [(1, 1), (2, 5), (4, 3), (6, 1)] {
                let mut p = TreeParams::default();
                p.max_depth = Some(depth);
                p.min_samples_leaf = least;
                p.mode = mode;
                p.split_style = style;
                let mut t = DecisionTree::new(Classification::gini(3), p, Box::new(Mean));
                t.fit(&cols, &y).unwrap();
                let (samples, leaves, levels) = walk(t.root.as_ref().unwrap(), least);
                assert_eq!(samples, y.len());
                assert_eq!(leaves, t.n_leaves());
                assert_eq!(levels, t.depth());
                assert!(levels <= depth);
                assert_eq!(t.export_nodes().len(), 2 * leaves - 1);
            }
        }
    }
}

#[test]
fn leaves_predict_the_samples_that_reach_them() {
    let (cols, y) = noisy();
    for mode in [SplitMode::Strict, SplitMode::Fast] {
        let mut p = TreeParams::default();
        p.max_depth = Some(3);
        p.mode = mode;
        let mut t = DecisionTree::new(Classification::gini(3), p, Box::new(Mean));
        t.fit(&cols, &y).unwrap();
        let nodes = t.export_nodes();
        let mut counts = vec![[0usize; 3]; nodes.len()];
        for i in 0..y.len() {
            let mut at = 0;
            while !nodes[at].is_leaf {
                let e = &nodes[at];
                let left = match &cols[e.feature as usize] {
                    Column::Continuous(v) => x(e.lower) <= x(v[i]) && x(v[i]) < x(e.upper),
                    Column::Categorical(v) => v[i] as i64 == e.category,
                };
                at = (if left { e.left } else { e.right }) as usize;
            }
            counts[at][y[i]] += 1;
        }
        for (e, c) in nodes.iter().zip(&counts) {
            if e.is_leaf {
                let total: usize = c.iter().sum();
                assert_eq!(e.n_samples, total);
                for k in 0..3 {
                    assert_eq!(x(e.proba[k]), c[k] as f64 / total as f64);
                }
                assert_eq!(e.class as usize, argmax(&[c[0] as u64, c[1] as u64, c[2] as u64]));
            }
        }
    }
}

#[test]
fn missing_values_reach_the_rightmost_leaf() {
    let (cols, y) = noisy();
    let mut t = DecisionTree::new(
        Classification::gini(3),
        TreeParams::default(),
        Box::new(Mean),
    );
    t.fit(&cols, &y).unwrap();
    let missing = [FeatureValue::cont(n(f64::NAN)), FeatureValue::cat(UNKNOWN_CAT)];
    let got = t.predict_one(&missing);
    let mut node = t.root.as_ref().unwrap();
    while let Node::Internal { right, .. } = node {
        node = right;
    }
    match node {
        Node::Leaf { prediction, .. } => assert_eq!(&got, prediction),
        Node::Internal { .. } => unreachable!(),
    }
}

#[test]
fn fbeta_at_one_is_f1_bit_for_bit() {
    let mut cm = Confusion::zero(3);
    cm.add_group(0, &[17, 3, 1]);
    cm.add_group(1, &[2, 11, 6]);
    cm.add_group(2, &[5, 0, 23]);
    for average in [
        Average::Binary { pos_label: 1 },
        Average::Binary { pos_label: 9 },
        Average::Macro,
        Average::Weighted,
        Average::Micro,
    ] {
        let beta = FBeta { beta: Float::one(), average };
        let f1 = F1 { average };
        assert_eq!(beta.score(&cm).to_bits(), f1.score(&cm).to_bits());
    }
}

#[test]
fn leaf_probabilities_are_shares() {
    let leaf = Classification::gini(4).leaf(&[2, 0, 2, 1, 2, 0, 2]);
    assert_eq!(leaf.class, 2);
    let proba: Vec<f64> = leaf.proba.iter().map(|&v| x(v)).collect();
    assert_eq!(proba, vec![2.0 / 7.0, 1.0 / 7.0, 4.0 / 7.0, 0.0]);
}

#[test]
fn variances_are_never_negative() {
    assert_eq!(x(variance_from_moments(n(2.0), n(4.0), n(7.0))), 0.0);
    assert_eq!(x(variance_from_moments(n(2.0), n(4.0), n(10.0))), 1.0);
    assert_eq!(x(variance_from_moments(n(0.0), n(4.0), n(7.0))), 0.0);
    let mean = 0.3 / 3.0;
    assert_eq!(
        x(variance_from_moments(n(3.0), n(0.3), n(0.03))),
        0.03 / 3.0 - mean * mean
    );
}

#[test]
fn scores_do_not_leak() {
    let column = |last: f64| Column::Continuous(ns(&[0.1, 0.9, 0.3, 0.7, 0.2, 0.8, 0.4, last]));
    let fold = Fold { train: vec![0, 1, 2, 3], val: vec![4, 5, 6] };
    let score = |col: &Column, labels: &[usize]| {
        let stats = eval_feature(
            &[col.clone()],
            labels,
            0,
            &[0, 1, 2],
            &[fold.clone()],
            4,
            &Gini::new(2),
            1,
            true,
        );
        stats.iter().map(|s| s.mean.to_bits()).collect::<Vec<u64>>()
    };
    let base = score(&column(0.6), &[0, 1, 0, 1, 0, 1, 0, 1]);
    // Neither a value outside the fold nor the training labels matter.
    assert_eq!(base, score(&column(0.15), &[0, 1, 0, 1, 0, 1, 0, 1]));
    assert_eq!(base, score(&column(0.6), &[1, 1, 1, 0, 0, 1, 0, 0]));
    // The validation labels do.
    assert_ne!(base, score(&column(0.6), &[0, 1, 0, 1, 0, 1, 1, 1]));
}

#[test]
fn splits_are_made_only_where_they_pay() {
    let make = |feature, state, score: f64| ScoredCandidate {
        candidate: Candidate { feature, state },
        score: n(score),
        stats: FoldStats::from_scores(ns(&[score]), 1),
    };
    let scored = [
        make(0, 0, f64::NEG_INFINITY),
        make(0, 1, 0.25),
        make(1, 0, 0.125),
        make(1, 1, f64::NAN),
    ];
    let mut params = TreeParams::default();
    assert_eq!(accept(&params, &scored), Some(Candidate { feature: 0, state: 1 }));
    params.min_impurity_decrease = n(0.125);
    assert_eq!(accept(&params, &scored), Some(Candidate { feature: 0, state: 1 }));
    params.min_impurity_decrease = n(0.25);
    assert_eq!(accept(&params, &scored), None);
    params.min_impurity_decrease = n(-1.0);
    assert_eq!(accept(&params, &scored[..1]), None);
    assert_eq!(accept(&params, &[]), None);
}
