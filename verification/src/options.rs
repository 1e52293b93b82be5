//! Settings given by name.

use crate::aggregation::{
    Aggregator, Mean, MeanMinusLambdaStd, Median, SignalToNoise, TrimmedMean,
};
use crate::criterion::{Criterion, Entropy, Gini, Mae, Mse, Variance};
use crate::cross_validation::{KFold, StatsView};
use crate::float::Float;
use crate::histogram::ClassImpurityKind;
use crate::objective::{
    Accuracy, Average, ClassObjective, ConfusionView, FBeta, Precision, Recall, F1,
};
use crate::text::same_text;
use crate::tree::params::{SplitMode, SplitStyle, TreeParams};
use crate::tree::task::{Classification, Regression};
use vstd::prelude::*;

verus! {

/// A setting whose name is not known.
#[derive(Clone, Copy, Debug, PartialEq, Eq, Structural)]
pub enum UnknownName {
    /// How splits are evaluated.
    Mode,
    /// How continuous features are divided.
    SplitStyle,
    /// How fold scores become one score.
    Aggregator,
    /// How a metric is averaged over classes.
    Average,
    /// The metric that splits improve.
    Objective,
    /// The impurity of a classification tree.
    ClassCriterion,
    /// The impurity of a regression tree.
    ValueCriterion,
}

/// The score that the aggregator of the given name assigns; none when there is no such aggregator.
pub open spec fn named_score(
    name: Seq<char>,
    frac: Float,
    eps: Float,
    lambda: Float,
    stats: StatsView,
) -> Option<Float> {
    if name == "mean"@ {
        Some(Mean.score_of(stats))
    } else if name == "median"@ {
        Some(Median.score_of(stats))
    } else if name == "trimmed_mean"@ {
        Some((TrimmedMean { frac }).score_of(stats))
    } else if name == "signal_to_noise"@ {
        Some((SignalToNoise { eps }).score_of(stats))
    } else if name == "mean_minus_lambda_std"@ {
        Some((MeanMinusLambdaStd { lambda }).score_of(stats))
    } else {
        None
    }
}

/// The aggregator of the given name.
pub fn build_aggregator(name: &str, frac: Float, eps: Float, lambda: Float) -> (r: Result<
    Box<dyn Aggregator>,
    UnknownName,
>)
    ensures
        match r {
            Ok(a) => known_aggregator(name@) && a.applicable() && a.label() == name@ && forall|stats: StatsView|
                named_score(name@, frac, eps, lambda, stats) == Some(
                    #[trigger] a.score_of(stats),
                ),
            Err(e) => e == UnknownName::Aggregator && !known_aggregator(name@),
        },
{
    if same_text(name, "mean") {
        Ok(Box::new(Mean))
    } else if same_text(name, "median") {
        Ok(Box::new(Median))
    } else if same_text(name, "trimmed_mean") {
        Ok(Box::new(TrimmedMean { frac }))
    } else if same_text(name, "signal_to_noise") {
        Ok(Box::new(SignalToNoise { eps }))
    } else if same_text(name, "mean_minus_lambda_std") {
        Ok(Box::new(MeanMinusLambdaStd { lambda }))
    } else {
        Err(UnknownName::Aggregator)
    }
}

/// The split mode of the given name.
pub open spec fn named_mode(name: Seq<char>) -> Option<SplitMode> {
    if name == "strict"@ {
        Some(SplitMode::Strict)
    } else if name == "fast"@ {
        Some(SplitMode::Fast)
    } else {
        None
    }
}

/// The split style of the given name.
pub open spec fn named_style(name: Seq<char>) -> Option<SplitStyle> {
    if name == "threshold"@ {
        Some(SplitStyle::Threshold)
    } else if name == "bin"@ || name == "bin_membership"@ {
        Some(SplitStyle::BinMembership)
    } else {
        None
    }
}

/// Tree settings with the mode and the split style given by name.
pub fn build_params(
    max_depth: Option<usize>,
    min_samples_split: usize,
    min_samples_leaf: usize,
    min_impurity_decrease: Float,
    n_bins: usize,
    cv_folds: usize,
    cv_seed: u64,
    cv_shuffle: bool,
    mode: &str,
    split_style: &str,
    parallel: bool,
    n_threads: usize,
    parallel_min_samples: usize,
) -> (r: Result<TreeParams, UnknownName>)
    ensures
        match (named_mode(mode@), named_style(split_style@)) {
            (None, _) => r == Err::<TreeParams, UnknownName>(UnknownName::Mode),
            (Some(_), None) => r == Err::<TreeParams, UnknownName>(UnknownName::SplitStyle),
            (Some(mode), Some(split_style)) => r == Ok::<TreeParams, UnknownName>(
                TreeParams {
                    max_depth,
                    min_samples_split,
                    min_samples_leaf,
                    min_impurity_decrease,
                    n_bins,
                    cv: KFold { k: cv_folds, seed: cv_seed, shuffle: cv_shuffle },
                    mode,
                    split_style,
                    parallel,
                    n_threads,
                    parallel_min_samples,
                },
            ),
        },
{
    let mode: SplitMode = if same_text(mode, "strict") {
        SplitMode::Strict
    } else if same_text(mode, "fast") {
        SplitMode::Fast
    } else {
        return Err(UnknownName::Mode);
    };
    let split_style: SplitStyle = if same_text(split_style, "threshold") {
        SplitStyle::Threshold
    } else if same_text(split_style, "bin") || same_text(split_style, "bin_membership") {
        SplitStyle::BinMembership
    } else {
        return Err(UnknownName::SplitStyle);
    };
    Ok(
        TreeParams {
            max_depth,
            min_samples_split,
            min_samples_leaf,
            min_impurity_decrease,
            n_bins,
            cv: KFold { k: cv_folds, seed: cv_seed, shuffle: cv_shuffle },
            mode,
            split_style,
            parallel,
            n_threads,
            parallel_min_samples,
        },
    )
}

/// The averaging of the given name.
pub open spec fn named_average(name: Seq<char>, pos_label: usize) -> Option<Average> {
    if name == "binary"@ {
        Some(Average::Binary { pos_label })
    } else if name == "micro"@ {
        Some(Average::Micro)
    } else if name == "macro"@ {
        Some(Average::Macro)
    } else if name == "weighted"@ {
        Some(Average::Weighted)
    } else {
        None
    }
}

/// The averaging of the given name.
pub fn build_average(average: &str, pos_label: usize) -> (r: Result<Average, UnknownName>)
    ensures
        r == match named_average(average@, pos_label) {
            Some(a) => Ok::<Average, UnknownName>(a),
            None => Err::<Average, UnknownName>(UnknownName::Average),
        },
{
    if same_text(average, "binary") {
        Ok(Average::Binary { pos_label })
    } else if same_text(average, "micro") {
        Ok(Average::Micro)
    } else if same_text(average, "macro") {
        Ok(Average::Macro)
    } else if same_text(average, "weighted") {
        Ok(Average::Weighted)
    } else {
        Err(UnknownName::Average)
    }
}

/// The score that the metric of the given name assigns; none when there is no such metric.
pub open spec fn named_metric(
    name: Seq<char>,
    average: Average,
    beta: Float,
    cm: ConfusionView,
) -> Option<Float> {
    if name == "precision"@ {
        Some((Precision { average }).score_of(cm))
    } else if name == "recall"@ {
        Some((Recall { average }).score_of(cm))
    } else if name == "f1"@ {
        Some((F1 { average }).score_of(cm))
    } else if name == "fbeta"@ {
        Some((FBeta { beta, average }).score_of(cm))
    } else if name == "accuracy"@ {
        Some(Accuracy.score_of(cm))
    } else {
        None
    }
}

/// Whether there is a metric of the given name.
pub open spec fn known_metric(name: Seq<char>) -> bool {
    ||| name == "precision"@
    ||| name == "recall"@
    ||| name == "f1"@
    ||| name == "fbeta"@
    ||| name == "accuracy"@
}

/// The metric of the given name with the averaging of the given name.
pub fn build_objective(name: &str, average: &str, pos_label: usize, beta: Float) -> (r: Result<
    Box<dyn ClassObjective>,
    UnknownName,
>)
    ensures
        match (named_average(average@, pos_label), r) {
            (None, Err(e)) => e == UnknownName::Average,
            (Some(a), Ok(o)) => known_metric(name@) && o.label() == name@ && forall|cm: ConfusionView|
                named_metric(name@, a, beta, cm) == Some(#[trigger] o.score_of(cm)),
            (Some(_), Err(e)) => e == UnknownName::Objective && !known_metric(name@),
            (None, Ok(_)) => false,
        },
{
    let avg: Average = match build_average(average, pos_label) {
        Ok(a) => a,
        Err(e) => {
            return Err(e);
        },
    };
    if same_text(name, "precision") {
        Ok(Box::new(Precision { average: avg }))
    } else if same_text(name, "recall") {
        Ok(Box::new(Recall { average: avg }))
    } else if same_text(name, "f1") {
        Ok(Box::new(F1 { average: avg }))
    } else if same_text(name, "fbeta") {
        Ok(Box::new(FBeta { beta, average: avg }))
    } else if same_text(name, "accuracy") {
        Ok(Box::new(Accuracy))
    } else {
        Err(UnknownName::Objective)
    }
}

/// Whether a classification task has the impurity of the given name.
pub open spec fn classifies_as(task: Classification, name: Seq<char>, n_classes: usize) -> bool {
    &&& name == "gini"@ || name == "entropy"@
    &&& task.n_classes == n_classes
    &&& task.kind == if name == "gini"@ {
        ClassImpurityKind::Gini
    } else {
        ClassImpurityKind::Entropy
    }
    &&& forall|t: Seq<usize>| #[trigger]
        task.criterion.impurity_of(t) == if name == "gini"@ {
            (Gini { n_classes }).impurity_of(t)
        } else {
            (Entropy { n_classes }).impurity_of(t)
        }
}

/// A classification task with the impurity of the given name.
pub fn build_classification(criterion: &str, n_classes: usize) -> (r: Result<
    Classification,
    UnknownName,
>)
    ensures
        match r {
            Ok(task) => classifies_as(task, criterion@, n_classes),
            Err(e) => e == UnknownName::ClassCriterion && criterion@ != "gini"@ && criterion@
                != "entropy"@,
        },
{
    if same_text(criterion, "gini") {
        Ok(Classification::gini(n_classes))
    } else if same_text(criterion, "entropy") {
        Ok(Classification::entropy(n_classes))
    } else {
        Err(UnknownName::ClassCriterion)
    }
}

/// Whether a regression task has the impurity of the given name.
pub open spec fn regresses_as(task: Regression, name: Seq<char>) -> bool {
    &&& name == "mse"@ || name == "variance"@ || name == "mae"@
    &&& task.criterion.label() == name
    &&& forall|t: Seq<Float>| #[trigger]
        task.criterion.impurity_of(t) == if name == "mse"@ {
            Mse.impurity_of(t)
        } else if name == "variance"@ {
            Variance.impurity_of(t)
        } else {
            Mae.impurity_of(t)
        }
}

/// A regression task with the impurity of the given name.
pub fn build_regression(criterion: &str) -> (r: Result<Regression, UnknownName>)
    ensures
        match r {
            Ok(task) => regresses_as(task, criterion@),
            Err(e) => e == UnknownName::ValueCriterion && criterion@ != "mse"@ && criterion@
                != "variance"@ && criterion@ != "mae"@,
        },
{
    if same_text(criterion, "mse") {
        Ok(Regression::mse())
    } else if same_text(criterion, "variance") {
        Ok(Regression::variance())
    } else if same_text(criterion, "mae") {
        Ok(Regression::mae())
    } else {
        Err(UnknownName::ValueCriterion)
    }
}

/// The settings that all models share.
pub struct Options {
    /// Largest number of split levels; none for no limit.
    pub max_depth: Option<usize>,
    /// Fewest samples of a node that may be split.
    pub min_samples_split: usize,
    /// Fewest samples of each child of a split.
    pub min_samples_leaf: usize,
    /// Score that a split must exceed.
    pub min_impurity_decrease: Float,
    /// Number of quantile bins of continuous features.
    pub n_bins: usize,
    /// Number of folds.
    pub cv_folds: usize,
    /// Seed for shuffling.
    pub cv_seed: u64,
    /// Whether to shuffle before cutting into folds.
    pub cv_shuffle: bool,
    /// Name of the split mode.
    pub mode: String,
    /// Name of the split style.
    pub split_style: String,
    /// Name of the aggregator.
    pub aggregator: String,
    /// Fraction that a trimmed mean drops.
    pub agg_frac: Float,
    /// Constant of the signal-to-noise ratio.
    pub agg_eps: Float,
    /// Weight of the standard deviation.
    pub agg_lambda: Float,
    /// Whether features are evaluated in chunks, one for each worker.
    pub parallel: bool,
    /// Number of workers.
    pub n_threads: usize,
    /// Fewest samples of a node whose features are evaluated in chunks.
    pub parallel_min_samples: usize,
}

/// The first of the shared settings whose name is not known.
pub open spec fn unknown_option(options: &Options) -> Option<UnknownName> {
    if named_mode(options.mode@) is None {
        Some(UnknownName::Mode)
    } else if named_style(options.split_style@) is None {
        Some(UnknownName::SplitStyle)
    } else if !known_aggregator(options.aggregator@) {
        Some(UnknownName::Aggregator)
    } else {
        None
    }
}

/// Whether there is an aggregator of the given name.
pub open spec fn known_aggregator(name: Seq<char>) -> bool {
    ||| name == "mean"@
    ||| name == "median"@
    ||| name == "trimmed_mean"@
    ||| name == "signal_to_noise"@
    ||| name == "mean_minus_lambda_std"@
}

/// The tree settings that the shared settings name.
pub open spec fn params_of(options: &Options) -> TreeParams {
    TreeParams {
        max_depth: options.max_depth,
        min_samples_split: options.min_samples_split,
        min_samples_leaf: options.min_samples_leaf,
        min_impurity_decrease: options.min_impurity_decrease,
        n_bins: options.n_bins,
        cv: KFold { k: options.cv_folds, seed: options.cv_seed, shuffle: options.cv_shuffle },
        mode: named_mode(options.mode@)->Some_0,
        split_style: named_style(options.split_style@)->Some_0,
        parallel: options.parallel,
        n_threads: options.n_threads,
        parallel_min_samples: options.parallel_min_samples,
    }
}

/// Whether an aggregator is the one that the shared settings name.
pub open spec fn aggregates_as<A: Aggregator + ?Sized>(aggregator: &A, options: &Options) -> bool {
    &&& aggregator.applicable()
    &&& aggregator.label() == options.aggregator@
    &&& forall|stats: StatsView|
        named_score(
            options.aggregator@,
            options.agg_frac,
            options.agg_eps,
            options.agg_lambda,
            stats,
        ) == Some(#[trigger] aggregator.score_of(stats))
}

impl Options {
    /// The tree settings.
    pub fn params(&self) -> (r: Result<TreeParams, UnknownName>)
        ensures
            match r {
                Ok(params) => named_mode(self.mode@) is Some && named_style(self.split_style@) is Some
                    && params == params_of(self),
                Err(e) => unknown_option(self) == Some(e) && e != UnknownName::Aggregator,
            },
    {
        build_params(
            self.max_depth,
            self.min_samples_split,
            self.min_samples_leaf,
            self.min_impurity_decrease,
            self.n_bins,
            self.cv_folds,
            self.cv_seed,
            self.cv_shuffle,
            self.mode.as_str(),
            self.split_style.as_str(),
            self.parallel,
            self.n_threads,
            self.parallel_min_samples,
        )
    }

    /// The aggregator.
    pub fn fold_aggregator(&self) -> (r: Result<Box<dyn Aggregator>, UnknownName>)
        ensures
            match r {
                Ok(a) => known_aggregator(self.aggregator@) && aggregates_as(&*a, self),
                Err(e) => e == UnknownName::Aggregator && !known_aggregator(self.aggregator@),
            },
    {
        build_aggregator(self.aggregator.as_str(), self.agg_frac, self.agg_eps, self.agg_lambda)
    }
}

} // verus!
