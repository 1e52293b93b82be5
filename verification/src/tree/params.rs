//! Hyper-parameters of a tree.

use crate::cross_validation::KFold;
use crate::float::Float;
use vstd::prelude::*;

verus! {

/// How splits are evaluated.
#[derive(Clone, Copy, Debug, PartialEq, Eq, Structural)]
pub enum SplitMode {
    /// Cut points are refit on every training fold, and impurity is measured on the targets.
    Strict,
    /// Features are binned once, and splits are scored from per-fold histograms.
    Fast,
}

/// How a continuous feature is divided at a split. Categorical features are always tested by
/// equality.
#[derive(Clone, Copy, Debug, PartialEq, Eq, Structural)]
pub enum SplitStyle {
    /// An ordered cut: values below a cut point go left.
    Threshold,
    /// One bin against the rest.
    BinMembership,
}

/// Tree hyper-parameters.
#[derive(Clone, Debug)]
pub struct TreeParams {
    /// Largest number of split levels; none for no limit.
    pub max_depth: Option<usize>,
    /// Fewest samples of a node that may be split.
    pub min_samples_split: usize,
    /// Fewest samples of each child of a split.
    pub min_samples_leaf: usize,
    /// Score that a split must exceed.
    pub min_impurity_decrease: Float,
    /// Number of quantile bins of continuous features.
    pub n_bins: usize,
    /// Cross-validation used to score splits.
    pub cv: KFold,
    /// How splits are evaluated.
    pub mode: SplitMode,
    /// How continuous features are divided.
    pub split_style: SplitStyle,
    /// Whether features are evaluated in chunks, one for each worker.
    pub parallel: bool,
    /// Number of workers when `parallel` is set.
    pub n_threads: usize,
    /// Fewest samples of a node whose features are evaluated in chunks.
    pub parallel_min_samples: usize,
}

impl Default for TreeParams {
    fn default() -> (r: TreeParams)
        ensures
            r.max_depth == Some(8usize),
            r.min_samples_split == 2,
            r.min_samples_leaf == 1,
            r.min_impurity_decrease == Float::zero(),
            r.n_bins == 8,
            r.cv.k == 5,
            r.cv.seed == 42,
            r.cv.shuffle,
            r.mode == SplitMode::Strict,
            r.split_style == SplitStyle::Threshold,
            !r.parallel,
            r.n_threads == 1,
            r.parallel_min_samples == 512,
    {
        TreeParams {
            max_depth: Some(8),
            min_samples_split: 2,
            min_samples_leaf: 1,
            min_impurity_decrease: Float::zero(),
            n_bins: 8,
            cv: KFold { k: 5, seed: 42, shuffle: true },
            mode: SplitMode::Strict,
            split_style: SplitStyle::Threshold,
            parallel: false,
            n_threads: 1,
            parallel_min_samples: 512,
        }
    }
}

} // verus!
