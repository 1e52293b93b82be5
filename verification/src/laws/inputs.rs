//! How numbers and names are read.

use crate::aggregation::{
    Aggregator, Mean, MeanMinusLambdaStd, Median, SignalToNoise, TrimmedMean,
};
use crate::criterion::{Criterion, Mae, Mse, Variance};
use crate::cross_validation::StatsView;
use crate::data::FeatureValue;
use crate::float;
use crate::float::{Float, UNIT_EXP};
use crate::histogram;
use crate::histogram::ClassImpurityKind;
use crate::laws::histograms;
use crate::model;
use crate::objective::{
    Accuracy, Average, ClassObjective, ConfusionView, FBeta, Precision, Recall, F1,
};
use crate::options;
use crate::options::{Options, UnknownName};
use crate::table;
use crate::table::Table;
use crate::tree::params::{SplitMode, SplitStyle, TreeParams};
use crate::tree::task::{Classification, Regression};
use vstd::arithmetic::power2::*;
use vstd::prelude::*;

verus! {

/// A number stands for the nearest whole number as its category, halves upward, where categories
/// end at the largest one. A number below zero, or one that is not finite, stands for none.
pub proof fn law_category(x: Float)
    ensures
        !x.finite() || x.value() < 0 ==> table::category_of(x) == 0xffff_ffff,
        x.finite() && x.value() >= 0 ==> {
            let one = pow2(UNIT_EXP as nat) as int;
            let c = table::category_of(x) as int;
            ||| (2 * c - 1) * one <= 2 * x.value() < (2 * c + 1) * one
            ||| c == 0xffff_ffff && 2 * x.value() >= (2 * c + 1) * one
        },
{
    if x.finite() {
        float::law_order_is_by_value(Float::zero(), x);
        let one = pow2(UNIT_EXP as nat) as int;
        let v = x.value();
        lemma_pow2_pos(UNIT_EXP as nat);
        if v >= 0 {
            let top = (2 * v + one) / (2 * one);
            vstd::arithmetic::div_mod::lemma_fundamental_div_mod(2 * v + one, 2 * one);
            let rest = (2 * v + one) % (2 * one);
            assert(0 <= rest < 2 * one);
            assert((2 * one) * top == 2 * (top * one)) by (nonlinear_arith);
            assert((2 * top - 1) * one == 2 * (top * one) - one) by (nonlinear_arith);
            assert((2 * top + 1) * one == 2 * (top * one) + one) by (nonlinear_arith);
            assert(0 <= top) by (nonlinear_arith)
                requires
                    2 * v + one == 2 * (top * one) + rest,
                    v >= 0,
                    0 <= rest < 2 * one,
                    one > 0,
            ;
            let c = table::category_of(x) as int;
            if x.negative() {
                lemma_minus_zero(x);
                assert(c == 0);
                assert((2 * c - 1) * one == -one) by (nonlinear_arith)
                    requires
                        c == 0,
                ;
                assert((2 * c + 1) * one == one) by (nonlinear_arith)
                    requires
                        c == 0,
                ;
            } else if top <= 0xffff_ffff {
                assert(c == top);
            }
            if top > 0xffff_ffff && !x.negative() {
                assert(c == 0xffff_ffff);
                assert((2 * 0xffff_ffff + 1) * one <= 2 * v) by (nonlinear_arith)
                    requires
                        top >= 0xffff_ffff + 1,
                        2 * v + one == 2 * (top * one) + rest,
                        rest >= 0,
                        one > 0,
                ;
            }
        }
    }
}

proof fn lemma_minus_zero(x: Float)
    requires
        x.finite(),
        x.negative(),
        x.value() >= 0,
    ensures
        x.mag() == 0,
        x.value() == 0,
{
    if x.mag() > 0 {
        float::lemma_magval_increases(0, x.mag());
    }
}

/// A cell of a categorical column is read as a category, any other as a number.
pub proof fn law_reading(x: Float)
    ensures
        table::read_as(x, true) == FeatureValue::Categorical(table::category_of(x)),
        table::read_as(x, false) == FeatureValue::Continuous(x),
{
}

/// A class label is the number itself, or zero for a number below zero.
pub proof fn law_labels(y: Seq<i64>)
    ensures
        table::targets_of(y).len() == y.len(),
        forall|i: int|
            #![trigger table::targets_of(y)[i]]
            0 <= i < y.len() && 0 <= y[i] <= usize::MAX ==> table::targets_of(y)[i] == y[i],
        forall|i: int|
            #![trigger table::targets_of(y)[i]]
            0 <= i < y.len() && y[i] < 0 ==> table::targets_of(y)[i] == 0,
{
}

/// A row of probabilities has a number for each class, at least one, and zeros where the leaf has
/// none.
pub proof fn law_probability_rows(proba: Seq<Float>, n_classes: usize, j: int)
    ensures
        0 <= j < proba.len() ==> model::padded(proba, j) == proba[j],
        j >= proba.len() ==> model::padded(proba, j) == Float::zero(),
        n_classes > 0 ==> model::proba_width(n_classes) == n_classes,
        n_classes == 0 ==> model::proba_width(n_classes) == 1,
{
}

/// The names of split modes and styles.
pub proof fn law_mode_names(name: Seq<char>)
    ensures
        options::named_mode(name) == Some(SplitMode::Strict) <==> name == "strict"@,
        options::named_mode(name) == Some(SplitMode::Fast) <==> name == "fast"@,
        options::named_style(name) == Some(SplitStyle::Threshold) <==> name == "threshold"@,
        options::named_style(name) == Some(SplitStyle::BinMembership) <==> name == "bin"@ || name
            == "bin_membership"@,
{
    reveal_strlit("strict");
    reveal_strlit("fast");
    reveal_strlit("threshold");
    reveal_strlit("bin");
    reveal_strlit("bin_membership");
    assert("strict"@.len() != "fast"@.len());
    assert("threshold"@.len() != "bin"@.len());
    assert("threshold"@.len() != "bin_membership"@.len());
}

/// The names of averages.
pub proof fn law_average_names(name: Seq<char>, pos_label: usize)
    ensures
        options::named_average(name, pos_label) == Some(Average::Binary { pos_label }) <==> name
            == "binary"@,
        options::named_average(name, pos_label) == Some(Average::Micro) <==> name == "micro"@,
        options::named_average(name, pos_label) == Some(Average::Macro) <==> name == "macro"@,
        options::named_average(name, pos_label) == Some(Average::Weighted) <==> name == "weighted"@,
{
    reveal_strlit("binary");
    reveal_strlit("micro");
    reveal_strlit("macro");
    reveal_strlit("weighted");
    assert("binary"@.len() == 6);
    assert("micro"@.len() == 5);
    assert("macro"@.len() == 5);
    assert("weighted"@.len() == 8);
    assert("micro"@[1] != "macro"@[1]);
}

/// The names of aggregators: each stands for the aggregator with its parameter.
pub proof fn law_aggregator_names(frac: Float, eps: Float, lambda: Float, stats: StatsView)
    ensures
        options::named_score("mean"@, frac, eps, lambda, stats) == Some(Mean.score_of(stats)),
        options::named_score("median"@, frac, eps, lambda, stats) == Some(Median.score_of(stats)),
        options::named_score("trimmed_mean"@, frac, eps, lambda, stats) == Some(
            (TrimmedMean { frac }).score_of(stats),
        ),
        options::named_score("signal_to_noise"@, frac, eps, lambda, stats) == Some(
            (SignalToNoise { eps }).score_of(stats),
        ),
        options::named_score("mean_minus_lambda_std"@, frac, eps, lambda, stats) == Some(
            (MeanMinusLambdaStd { lambda }).score_of(stats),
        ),
        forall|name: Seq<char>|
            options::known_aggregator(name) <==> (#[trigger] options::named_score(
                name,
                frac,
                eps,
                lambda,
                stats,
            )) is Some,
{
    reveal_strlit("mean");
    reveal_strlit("median");
    reveal_strlit("trimmed_mean");
    reveal_strlit("signal_to_noise");
    reveal_strlit("mean_minus_lambda_std");
    assert("mean"@.len() == 4);
    assert("median"@.len() == 6);
    assert("trimmed_mean"@.len() == 12);
    assert("signal_to_noise"@.len() == 15);
    assert("mean_minus_lambda_std"@.len() == 21);
}

/// The names of metrics: each stands for the metric with its average.
pub proof fn law_metric_names(average: Average, beta: Float, cm: ConfusionView)
    ensures
        options::named_metric("precision"@, average, beta, cm) == Some(
            (Precision { average }).score_of(cm),
        ),
        options::named_metric("recall"@, average, beta, cm) == Some(
            (Recall { average }).score_of(cm),
        ),
        options::named_metric("f1"@, average, beta, cm) == Some((F1 { average }).score_of(cm)),
        options::named_metric("fbeta"@, average, beta, cm) == Some(
            (FBeta { beta, average }).score_of(cm),
        ),
        options::named_metric("accuracy"@, average, beta, cm) == Some(Accuracy.score_of(cm)),
        forall|name: Seq<char>|
            options::known_metric(name) <==> (#[trigger] options::named_metric(
                name,
                average,
                beta,
                cm,
            )) is Some,
{
    reveal_strlit("precision");
    reveal_strlit("recall");
    reveal_strlit("f1");
    reveal_strlit("fbeta");
    reveal_strlit("accuracy");
    assert("precision"@.len() == 9);
    assert("recall"@.len() == 6);
    assert("f1"@.len() == 2);
    assert("fbeta"@.len() == 5);
    assert("accuracy"@.len() == 8);
}

/// A classifier that was built by name scores splits by the same impurity from samples and from
/// histograms.
pub proof fn law_named_classifiers(task: Classification, name: Seq<char>, n_classes: usize)
    requires
        options::classifies_as(task, name, n_classes),
    ensures
        task.n_classes == n_classes,
        forall|t: Seq<usize>| #[trigger]
            task.criterion.impurity_of(t) == histogram::class_measure(
                task.kind,
                n_classes as nat,
            )(t),
        name == "gini"@ ==> task.kind == ClassImpurityKind::Gini,
        name == "entropy"@ ==> task.kind == ClassImpurityKind::Entropy,
{
    reveal_strlit("gini");
    reveal_strlit("entropy");
    assert("gini"@.len() == 4);
    assert("entropy"@.len() == 7);
    assert forall|t: Seq<usize>| #[trigger]
        task.criterion.impurity_of(t) == histogram::class_measure(
            task.kind,
            n_classes as nat,
        )(t) by {
        histograms::law_kinds(task.kind, n_classes);
    }
}

/// A regressor that was built by name measures the impurity of that name.
pub proof fn law_named_regressors(task: Regression, name: Seq<char>, t: Seq<Float>)
    requires
        options::regresses_as(task, name),
    ensures
        name == "mse"@ ==> task.criterion.impurity_of(t) == Mse.impurity_of(t),
        name == "variance"@ ==> task.criterion.impurity_of(t) == Variance.impurity_of(t),
        name == "mae"@ ==> task.criterion.impurity_of(t) == Mae.impurity_of(t),
        name == "mse"@ || name == "variance"@ || name == "mae"@,
{
    reveal_strlit("mse");
    reveal_strlit("variance");
    reveal_strlit("mae");
    assert("mse"@.len() == 3);
    assert("variance"@.len() == 8);
    assert("mae"@.len() == 3);
    assert("mse"@[1] != "mae"@[1]);
}

/// The options are refused exactly where one of their names is unknown. The name that is refused is
/// the first unknown one of the mode, the style and the aggregator.
pub proof fn law_refused_options(options: &Options)
    ensures
        ({
            let mode = options.mode@ == "strict"@ || options.mode@ == "fast"@;
            let style = options.split_style@ == "threshold"@ || options.split_style@ == "bin"@
                || options.split_style@ == "bin_membership"@;
            let aggregator = options.aggregator@ == "mean"@ || options.aggregator@ == "median"@
                || options.aggregator@ == "trimmed_mean"@ || options.aggregator@
                == "signal_to_noise"@ || options.aggregator@ == "mean_minus_lambda_std"@;
            &&& options::unknown_option(options) == Some(UnknownName::Mode) <==> !mode
            &&& options::unknown_option(options) == Some(UnknownName::SplitStyle) <==> mode
                && !style
            &&& options::unknown_option(options) == Some(UnknownName::Aggregator) <==> mode && style
                && !aggregator
            &&& options::unknown_option(options) is None <==> mode && style && aggregator
        }),
{
    law_mode_names(options.mode@);
    law_mode_names(options.split_style@);
}

/// Every setting reaches the tree as it was given.
pub proof fn law_settings(options: &Options)
    ensures
        ({
            let p = options::params_of(options);
            &&& p.max_depth == options.max_depth
            &&& p.min_samples_split == options.min_samples_split
            &&& p.min_samples_leaf == options.min_samples_leaf
            &&& p.min_impurity_decrease == options.min_impurity_decrease
            &&& p.n_bins == options.n_bins
            &&& p.cv.k == options.cv_folds
            &&& p.cv.seed == options.cv_seed
            &&& p.cv.shuffle == options.cv_shuffle
            &&& p.parallel == options.parallel
            &&& p.n_threads == options.n_threads
            &&& p.parallel_min_samples == options.parallel_min_samples
            &&& options.mode@ == "fast"@ ==> p.mode == SplitMode::Fast
            &&& options.mode@ == "strict"@ ==> p.mode == SplitMode::Strict
            &&& options.split_style@ == "threshold"@ ==> p.split_style == SplitStyle::Threshold
            &&& options.split_style@ == "bin"@ ==> p.split_style == SplitStyle::BinMembership
        }),
{
    law_mode_names(options.mode@);
    law_mode_names(options.split_style@);
}

/// The cells of a table stand row by row.
pub proof fn law_table_layout(t: &Table, i: int, j: int)
    ensures
        t.at(i, j) == t.cells@[i * t.n_cols + j],
        t.full() <==> t.cells@.len() == t.n_rows * t.n_cols,
{
}

/// The default settings.
pub proof fn law_default_settings(p: TreeParams)
    requires
        call_ensures(TreeParams::default, (), p),
    ensures
        p.max_depth == Some(8usize),
        p.min_samples_split == 2,
        p.min_samples_leaf == 1,
        p.min_impurity_decrease == Float::of_nat(0),
        p.n_bins == 8,
        p.cv.k == 5,
        p.cv.seed == 42,
        p.cv.shuffle,
        p.mode == SplitMode::Strict,
        p.split_style == SplitStyle::Threshold,
        !p.parallel,
        p.n_threads == 1,
        p.parallel_min_samples == 512,
{
    float::rounding::law_natural_is_finite(0);
}

} // verus!
