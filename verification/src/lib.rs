//! Cross-validated decision trees.
//!
//! A decision tree is grown by choosing, at every node, the split with the best score. Here the
//! score of a split is not the impurity decrease on the samples of the node: every candidate is
//! evaluated by K-fold cross-validation, and the decreases on the held-out folds are collapsed into
//! one number by an aggregator.
//!
//! The stages, each in a module of its own:
//!
//! - [`float`]: binary64 numbers on integers; [`statistics`], [`sorting`] and [`text`] on top.
//! - [`data`], [`encoder`], [`binning`]: columns, quantile binning, binning of a whole dataset.
//! - [`candidate`], [`criterion`], [`objective`]: candidate splits, impurities and metrics.
//! - [`cross_validation`], [`histogram`], [`agreement`]: fold scores from the columns and from
//!   histograms, and where the two agree.
//! - [`aggregation`], [`selector`], [`parallel`]: from fold scores to the best split.
//! - [`tree`]: growing, prediction, export and restoring.
//! - [`table`], [`options`], [`model`]: tables of numbers, settings by name, models.
//!
//! A split tests one feature against one state. A categorical state is a category. A continuous
//! state is a quantile bin, and [`SplitStyle`] says whether the split is an ordered cut above the
//! bin or the bin against the rest. Missing values and unknown categories never match.

pub mod aggregation;
pub mod agreement;
pub mod binning;
pub mod candidate;
pub mod criterion;
pub mod cross_validation;
pub mod data;
pub mod encoder;
pub mod float;
pub mod histogram;
pub mod laws;
pub mod model;
pub mod objective;
pub mod options;
pub mod parallel;
pub mod selector;
pub mod sorting;
pub mod statistics;
pub mod table;
pub mod text;
pub mod tree;

pub use aggregation::{
    Aggregator, Custom, Mean, MeanMinusLambdaStd, Median, SignalToNoise, TrimmedMean,
};
pub use binning::{BinnedData, FeatureBins};
pub use candidate::{generate_candidates, present_states, Candidate};
pub use criterion::{Criterion, Entropy, Gini, Mae, Mse, Variance};
pub use cross_validation::{eval_feature, Fold, FoldStats, KFold};
pub use data::{Bin, CatId, Column, Dataset, FeatureValue, SampleId, UNKNOWN_CAT};
pub use encoder::{bin_of, quantile_edges, MISSING_BIN};
pub use float::Float;
pub use histogram::{score_classif, score_regr, ClassImpurityKind, FastScratch};
pub use model::{Model, RawClassifier, RawObjectiveClassifier, RawRegressor};
pub use objective::{
    eval_feature_objective, score_classif_objective, Accuracy, Average, ClassObjective, Confusion,
    FBeta, Precision, Recall, F1,
};
pub use selector::{select_best, ScoredCandidate};
pub use table::Table;
pub use tree::{
    ClassPrediction, Classification, DecisionTree, ExportedNode, LeafInfo, Node,
    ObjectiveClassification, Regression, SplitMode, SplitRule, SplitStyle, Task, TreeParams,
};
