//! The building blocks, module by module.

use cvdt::binning::FeatureBins;
use cvdt::data::MISSING_BIN_CODE;
use cvdt::encoder::bin_bounds;
use cvdt::parallel::par_map;
use cvdt::{
    bin_of, eval_feature, generate_candidates, present_states, quantile_edges, score_classif,
    score_regr, select_best, Accuracy, Aggregator, Average, Bin, BinnedData, Candidate,
    ClassImpurityKind, ClassObjective, Column, Confusion, Criterion, Custom, Dataset, Entropy,
    FastScratch, FeatureValue, Float, FoldStats, Gini, KFold, Mae, Mean, MeanMinusLambdaStd,
    Median, Mse, Precision, Recall, SampleId, ScoredCandidate, SignalToNoise, TrimmedMean,
    Variance, F1, MISSING_BIN, UNKNOWN_CAT,
};
use std::collections::HashSet;

fn n(x: f64) -> Float {
    Float::from_bits(x.to_bits())
}

fn x(v: Float) -> f64 {
    f64::from_bits(v.to_bits())
}

fn ns(xs: &[f64]) -> Vec<Float> {
    xs.iter().map(|&v| n(v)).collect()
}

fn approx(a: Float, b: f64) -> bool {
    (x(a) - b).abs() < 1e-9
}

// Aggregation.

fn stats(scores: Vec<f64>) -> FoldStats {
    FoldStats::from_scores(ns(&scores), 5)
}

#[test]
fn mean_and_median() {
    let s = stats(vec![1.0, 2.0, 9.0]);
    assert!((x(Mean.aggregate(&s)) - 4.0).abs() < 1e-9);
    assert!((x(Median.aggregate(&s)) - 2.0).abs() < 1e-9);
}

#[test]
fn trimmed_mean_drops_extremes() {
    let s = stats(vec![0.0, 5.0, 5.0, 5.0, 100.0]);
    // A fifth from each end drops 0 and 100.
    let tm = TrimmedMean { frac: n(0.2) };
    assert!((x(tm.aggregate(&s)) - 5.0).abs() < 1e-9);
}

#[test]
fn signal_to_noise_prefers_consistency() {
    let consistent = stats(vec![1.0, 1.0, 1.0]);
    let volatile = stats(vec![0.0, 1.0, 2.0]);
    let stn = SignalToNoise::default();
    assert!(x(stn.aggregate(&consistent)) > x(stn.aggregate(&volatile)));
}

#[test]
fn mean_minus_lambda_std_penalises_volatility() {
    // Mean one, standard deviation one.
    let s = stats(vec![0.0, 2.0]);
    let a = MeanMinusLambdaStd { lambda: n(0.5) };
    assert!((x(a.aggregate(&s)) - 0.5).abs() < 1e-9);
}

#[test]
fn custom_closure_runs() {
    let a = Custom::new(|st: &FoldStats| n(st.n_success as f64));
    assert!((x(a.aggregate(&stats(vec![1.0, 2.0]))) - 2.0).abs() < 1e-9);
}

#[test]
fn empty_stats_lose() {
    let s = stats(vec![]);
    assert_eq!(x(Mean.aggregate(&s)), f64::NEG_INFINITY);
    assert_eq!(x(Median.aggregate(&s)), f64::NEG_INFINITY);
    assert_eq!(x(SignalToNoise::default().aggregate(&s)), f64::NEG_INFINITY);
}

// Binning.

#[test]
fn continuous_codes_match_bin_of() {
    let v: Vec<Float> = (0..40).map(|i| n(i as f64)).collect();
    let bd = BinnedData::fit(&[Column::Continuous(v.clone())], 4).unwrap();
    let fb = &bd.bins[0];
    for (i, &value) in v.iter().enumerate() {
        assert_eq!(bd.codes[0][i] as u32, bin_of(&fb.edges, value));
    }
}

#[test]
fn categorical_is_densely_indexed() {
    // Categories 2 and 7 get the dense ids 0 and 1.
    let bd = BinnedData::fit(&[Column::Categorical(vec![7, 2, 7, 2])], 4).unwrap();
    let fb = &bd.bins[0];
    assert_eq!(fb.max_bin, 2);
    assert_eq!(fb.category(0), Some(2));
    assert_eq!(fb.category(1), Some(7));
    assert_eq!(bd.codes[0], vec![1, 0, 1, 0]);
}

#[test]
fn unknown_category_codes_as_missing() {
    let bd = BinnedData::fit(&[Column::Categorical(vec![3, UNKNOWN_CAT, 3])], 4).unwrap();
    assert_eq!(bd.codes[0][1], MISSING_BIN_CODE);
}

#[test]
fn code_roundtrips_a_query_value() {
    let bd = BinnedData::fit(&[Column::Categorical(vec![10, 20, 30])], 4).unwrap();
    let fb: &FeatureBins = &bd.bins[0];
    assert_eq!(fb.code(FeatureValue::cat(20)), 1);
    assert_eq!(fb.code(FeatureValue::cat(999)), MISSING_BIN_CODE);
}

// Candidates.

#[test]
fn categorical_states_are_the_present_ids() {
    let col = Column::Categorical(vec![2, 0, 2, 1, 0]);
    let idx: Vec<usize> = (0..5).collect();
    assert_eq!(present_states(&col, &idx, 4), vec![0, 1, 2]);
}

#[test]
fn categorical_respects_index_subset() {
    let col = Column::Categorical(vec![2, 0, 2, 1, 0]);
    // Samples 0 and 2 hold only category 2.
    assert_eq!(present_states(&col, &[0, 2], 4), vec![2]);
}

#[test]
fn continuous_states_are_bin_ids() {
    let col = Column::Continuous((0..40).map(|i| n(i as f64)).collect());
    let idx: Vec<usize> = (0..40).collect();
    let states = present_states(&col, &idx, 4);
    assert_eq!(states, vec![0, 1, 2, 3]);
}

#[test]
fn generate_covers_all_features() {
    let cols = vec![
        Column::Categorical(vec![0, 1, 0, 1]),
        Column::Continuous(ns(&[0.0, 1.0, 2.0, 3.0])),
    ];
    let idx: Vec<usize> = (0..4).collect();
    let cands = generate_candidates(&cols, &idx, 2);
    assert!(cands.iter().any(|c| c.feature == 0));
    assert!(cands.iter().any(|c| c.feature == 1));
}

// Criteria.

#[test]
fn gini_pure_is_zero() {
    assert!(approx(Gini::new(2).impurity(&[0, 0, 0]), 0.0));
}

#[test]
fn gini_balanced_binary_is_half() {
    assert!(approx(Gini::new(2).impurity(&[0, 1, 0, 1]), 0.5));
}

#[test]
fn entropy_balanced_binary_is_one_bit() {
    assert!(approx(Entropy::new(2).impurity(&[0, 1, 0, 1]), 1.0));
}

#[test]
fn entropy_pure_is_zero() {
    assert!(approx(Entropy::new(3).impurity(&[2, 2, 2, 2]), 0.0));
}

#[test]
fn variance_matches_mse() {
    let v = ns(&[0.0, 2.0, 4.0, 6.0]);
    assert!(approx(Variance.impurity(&v), x(Mse.impurity(&v))));
}

#[test]
fn variance_known_value() {
    // Mean one, both deviations one.
    assert!(approx(Variance.impurity(&ns(&[0.0, 2.0])), 1.0));
}

#[test]
fn mae_known_value() {
    // Median one, both distances one.
    assert!(approx(Mae.impurity(&ns(&[0.0, 2.0])), 1.0));
}

#[test]
fn empty_is_zero_everywhere() {
    assert!(approx(Gini::new(2).impurity(&[]), 0.0));
    assert!(approx(Variance.impurity(&[]), 0.0));
    assert!(approx(Mae.impurity(&[]), 0.0));
}

// Cross-validation.

#[test]
fn folds_cover_all_and_are_disjoint() {
    let idx: Vec<usize> = (0..10).collect();
    let kf = KFold::new(5, 7);
    let folds = kf.folds(&idx);
    assert_eq!(folds.len(), 5);
    let mut seen: Vec<usize> = folds.iter().flat_map(|f| f.val.iter().copied()).collect();
    seen.sort_unstable();
    assert_eq!(seen, idx);
    for f in &folds {
        let vset: HashSet<usize> = f.val.iter().copied().collect();
        assert!(f.train.iter().all(|i| !vset.contains(i)));
        assert_eq!(f.train.len() + f.val.len(), idx.len());
    }
}

#[test]
fn folds_are_deterministic() {
    let idx: Vec<usize> = (0..23).collect();
    let a = KFold::new(4, 99).folds(&idx);
    let b = KFold::new(4, 99).folds(&idx);
    for (fa, fb) in a.iter().zip(b.iter()) {
        assert_eq!(fa.val, fb.val);
        assert_eq!(fa.train, fb.train);
    }
}

#[test]
fn k_is_clamped_to_sample_count() {
    let idx: Vec<usize> = (0..3).collect();
    let folds = KFold::new(10, 1).folds(&idx);
    assert_eq!(folds.len(), 3);
}

#[test]
fn foldstats_summary_is_correct() {
    let s = FoldStats::from_scores(ns(&[1.0, 3.0]), 2);
    assert_eq!(s.n_success, 2);
    assert!((x(s.mean) - 2.0).abs() < 1e-9);
    assert!((x(s.median) - 2.0).abs() < 1e-9);
    assert!((x(s.std) - 1.0).abs() < 1e-9);
}

#[test]
fn empty_scores_sink_to_neg_infinity() {
    let s = FoldStats::from_scores(vec![], 3);
    assert_eq!(s.n_success, 0);
    assert_eq!(x(s.mean), f64::NEG_INFINITY);
}

#[test]
fn perfectly_separating_split_has_positive_gain() {
    // The category tells the class.
    let columns = vec![Column::Categorical(vec![0, 0, 1, 1, 0, 0, 1, 1])];
    let targets = vec![0usize, 0, 1, 1, 0, 0, 1, 1];
    let idx: Vec<usize> = (0..8).collect();
    let folds = KFold::new(4, 5).folds(&idx);
    let gini = Gini::new(2);
    let stats = eval_feature(&columns, &targets, 0, &[0, 1], &folds, 2, &gini, 1, false);
    assert!(stats.iter().any(|s| s.n_success > 0 && x(s.mean) > 0.0));
}

// Data.

#[test]
fn dataset_rejects_ragged_columns() {
    let cols = vec![
        Column::Continuous(ns(&[1.0, 2.0, 3.0])),
        Column::Categorical(vec![0, 1]),
    ];
    assert!(Dataset::new(cols).is_err());
}

#[test]
fn dataset_accepts_aligned_columns() {
    let cols = vec![
        Column::Continuous(ns(&[1.0, 2.0, 3.0])),
        Column::Categorical(vec![0, 1, 0]),
    ];
    let ds = Dataset::new(cols).unwrap();
    assert_eq!(ds.n_samples, 3);
    assert_eq!(ds.n_features(), 2);
}

// Encoder.

#[test]
fn edges_are_sorted_and_sized() {
    let vals: Vec<Float> = (0..100).map(|i| n(i as f64)).collect();
    let edges = quantile_edges(&vals, 4);
    assert_eq!(edges.len(), 3);
    assert!(edges.windows(2).all(|w| x(w[0]) <= x(w[1])));
}

#[test]
fn bin_of_is_monotonic() {
    let edges = ns(&[10.0, 20.0]);
    assert_eq!(bin_of(&edges, n(5.0)), 0);
    assert_eq!(bin_of(&edges, n(10.0)), 1);
    assert_eq!(bin_of(&edges, n(15.0)), 1);
    assert_eq!(bin_of(&edges, n(20.0)), 2);
    assert_eq!(bin_of(&edges, n(99.0)), 2);
}

#[test]
fn missing_values_are_flagged() {
    let edges = ns(&[1.0, 2.0]);
    assert_eq!(bin_of(&edges, n(f64::NAN)), MISSING_BIN);
    assert_eq!(bin_of(&edges, n(f64::INFINITY)), MISSING_BIN);
}

#[test]
fn bounds_match_bin_of() {
    let vals: Vec<Float> = (0..40).map(|i| n(i as f64)).collect();
    let edges = quantile_edges(&vals, 5);
    for &v in &vals {
        let b = bin_of(&edges, v) as usize;
        let (lo, hi) = bin_bounds(&edges, b).unwrap();
        assert!(lo.map_or(true, |l| x(v) >= x(l)));
        assert!(hi.map_or(true, |h| x(v) < x(h)));
    }
}

#[test]
fn single_bin_has_no_edges() {
    assert!(quantile_edges(&ns(&[1.0, 2.0, 3.0]), 1).is_empty());
}

#[test]
fn empty_input_yields_no_edges() {
    assert!(quantile_edges(&[], 4).is_empty());
}

// Histograms.

#[test]
fn separating_bin_scores_positive() {
    // The bin tells the class.
    let codes: Vec<Bin> = vec![0, 0, 1, 1, 0, 0, 1, 1];
    let labels: Vec<usize> = vec![0, 0, 1, 1, 0, 0, 1, 1];
    let order: Vec<SampleId> = (0..8).collect();
    let val_fold: Vec<u8> = vec![0, 0, 0, 0, 1, 1, 1, 1];
    let mut sc = FastScratch::new();
    let out = score_classif(
        &codes,
        &labels,
        &order,
        &val_fold,
        2,
        2,
        2,
        ClassImpurityKind::Gini,
        &Mean,
        0,
        &mut sc,
        false,
    );
    assert!(out.iter().any(|c| c.stats.n_success > 0 && x(c.score) > 0.0));
}

#[test]
fn regression_separating_bin_scores_positive() {
    let codes: Vec<Bin> = vec![0, 0, 1, 1, 0, 0, 1, 1];
    let y = ns(&[1.0, 1.0, 9.0, 9.0, 1.0, 1.0, 9.0, 9.0]);
    let order: Vec<SampleId> = (0..8).collect();
    let val_fold: Vec<u8> = vec![0, 0, 0, 0, 1, 1, 1, 1];
    let mut sc = FastScratch::new();
    let out = score_regr(&codes, &y, &order, &val_fold, 2, 2, &Mean, 0, &mut sc, false);
    assert!(out.iter().any(|c| c.stats.n_success > 0 && x(c.score) > 0.0));
}

#[test]
fn scratch_reuse_is_consistent() {
    let codes: Vec<Bin> = vec![0, 1, 0, 1];
    let labels: Vec<usize> = vec![0, 1, 0, 1];
    let order: Vec<SampleId> = (0..4).collect();
    let val_fold: Vec<u8> = vec![0, 0, 1, 1];
    let mut sc = FastScratch::new();
    let a = score_classif(
        &codes,
        &labels,
        &order,
        &val_fold,
        2,
        2,
        2,
        ClassImpurityKind::Gini,
        &Mean,
        0,
        &mut sc,
        false,
    );
    let b = score_classif(
        &codes,
        &labels,
        &order,
        &val_fold,
        2,
        2,
        2,
        ClassImpurityKind::Gini,
        &Mean,
        0,
        &mut sc,
        false,
    );
    assert_eq!(a.len(), b.len());
    for (p, q) in a.iter().zip(b.iter()) {
        assert_eq!(p.candidate, q.candidate);
        assert_eq!(p.score.is_finite(), q.score.is_finite());
    }
}

// Metrics.

#[test]
fn precision_recall_f1_from_confusion() {
    let mut cm = Confusion::zero(2);
    cm.add_group(1, &[2, 8]);
    cm.add_group(0, &[5, 1]);
    // Of class 1: eight true positives, two false ones, one missed.
    let p = Precision {
        average: Average::Binary { pos_label: 1 },
    };
    let r = Recall {
        average: Average::Binary { pos_label: 1 },
    };
    assert!((x(p.score(&cm)) - 0.8).abs() < 1e-9);
    assert!((x(r.score(&cm)) - 8.0 / 9.0).abs() < 1e-9);
    let f1 = F1 {
        average: Average::Binary { pos_label: 1 },
    };
    let expect = 2.0 * 0.8 * (8.0 / 9.0) / (0.8 + 8.0 / 9.0);
    assert!((x(f1.score(&cm)) - expect).abs() < 1e-9);
}

#[test]
fn accuracy_counts_all_correct() {
    let mut cm = Confusion::zero(2);
    cm.add_group(0, &[7, 3]);
    cm.add_group(1, &[1, 9]);
    let a = Accuracy;
    assert!((x(a.score(&cm)) - 16.0 / 20.0).abs() < 1e-9);
}

#[test]
fn zero_division_is_zero() {
    let cm = Confusion::zero(2);
    let p = Precision {
        average: Average::Macro,
    };
    assert_eq!(x(p.score(&cm)), 0.0);
}

// Parallel map.

#[test]
fn serial_path_matches_map() {
    let items: Vec<usize> = (0..10).collect();
    let got = par_map(&items, 1, |&v| v * v);
    let want: Vec<usize> = items.iter().map(|&v| v * v).collect();
    assert_eq!(got, want);
}

#[test]
fn parallel_preserves_order() {
    let items: Vec<usize> = (0..1000).collect();
    let got = par_map(&items, 4, |&v| v * 2);
    let want: Vec<usize> = items.iter().map(|&v| v * 2).collect();
    assert_eq!(got, want);
}

#[test]
fn parallel_equals_serial() {
    let items: Vec<i64> = (-50..50).collect();
    let serial = par_map(&items, 1, |&v| v.pow(2) - v);
    let parallel = par_map(&items, 8, |&v| v.pow(2) - v);
    assert_eq!(serial, parallel);
}

#[test]
fn more_threads_than_items_is_fine() {
    let items = vec![1, 2, 3];
    let got = par_map(&items, 16, |&v| v + 1);
    assert_eq!(got, vec![2, 3, 4]);
}

#[test]
fn empty_input() {
    let items: Vec<usize> = Vec::new();
    let got = par_map(&items, 4, |&v| v);
    assert!(got.is_empty());
}

// Selector.

fn sc(feature: usize, state: u32, score: f64) -> ScoredCandidate {
    ScoredCandidate {
        candidate: Candidate { feature, state },
        score: n(score),
        stats: FoldStats::from_scores(ns(&[score]), 1),
    }
}

#[test]
fn picks_highest_score() {
    let v = vec![sc(0, 0, 0.1), sc(1, 2, 0.9), sc(2, 1, 0.5)];
    let best = select_best(&v).unwrap();
    assert_eq!(
        best.candidate,
        Candidate {
            feature: 1,
            state: 2
        }
    );
}

#[test]
fn ties_break_by_feature_then_state() {
    let v = vec![sc(3, 5, 0.5), sc(1, 9, 0.5), sc(1, 2, 0.5)];
    let best = select_best(&v).unwrap();
    assert_eq!(
        best.candidate,
        Candidate {
            feature: 1,
            state: 2
        }
    );
}

#[test]
fn ignores_non_finite_scores() {
    let v = vec![
        sc(0, 0, f64::NEG_INFINITY),
        sc(1, 1, f64::NAN),
        sc(2, 2, 0.3),
    ];
    let best = select_best(&v).unwrap();
    assert_eq!(
        best.candidate,
        Candidate {
            feature: 2,
            state: 2
        }
    );
}

#[test]
fn none_when_all_invalid() {
    let v = vec![sc(0, 0, f64::NEG_INFINITY), sc(1, 1, f64::NAN)];
    assert!(select_best(&v).is_none());
}

#[test]
fn empty_is_none() {
    assert!(select_best(&[]).is_none());
}
