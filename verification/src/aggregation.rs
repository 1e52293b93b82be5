//! Collapsing the per-fold scores of a split into one ranking number; higher is better.

use crate::cross_validation::{FoldStats, StatsView};
use crate::float::Float;
use crate::sorting;
use crate::statistics;
use vstd::prelude::*;

verus! {

/// Turns per-fold statistics into one comparable score.
pub trait Aggregator: Send + Sync {
    /// Whether the aggregator can be applied to all statistics.
    open spec fn applicable(&self) -> bool {
        true
    }

    /// The score of the given statistics; every aggregator says here what it computes.
    open spec fn score_of(&self, stats: StatsView) -> Float {
        Float::neg_infinity()
    }

    /// The name of the aggregator.
    open spec fn label(&self) -> Seq<char> {
        Seq::empty()
    }

    /// The score of the given statistics.
    fn aggregate(&self, stats: &FoldStats) -> (r: Float)
        requires
            self.applicable(),
        ensures
            r == self.score_of(stats@),
    ;

    /// The name of the aggregator.
    fn name(&self) -> (r: &'static str)
        ensures
            r@ == self.label(),
    ;
}

/// The scores that an aggregator assigns, as a function.
pub open spec fn ranking<A: Aggregator + ?Sized>(aggregator: &A) -> spec_fn(StatsView) -> Float {
    |stats: StatsView| aggregator.score_of(stats)
}

/// Arithmetic mean of the fold scores.
#[derive(Clone, Debug, Default)]
pub struct Mean;

impl Aggregator for Mean {
    open spec fn score_of(&self, stats: StatsView) -> Float {
        if stats.n_success == 0 {
            Float::neg_infinity()
        } else {
            stats.mean
        }
    }

    open spec fn label(&self) -> Seq<char> {
        "mean"@
    }

    fn aggregate(&self, stats: &FoldStats) -> (r: Float) {
        if stats.n_success == 0 {
            Float::neg_infinity()
        } else {
            stats.mean
        }
    }

    fn name(&self) -> (r: &'static str) {
        "mean"
    }
}

/// Median of the fold scores, robust to a single bad fold.
#[derive(Clone, Debug, Default)]
pub struct Median;

impl Aggregator for Median {
    open spec fn score_of(&self, stats: StatsView) -> Float {
        if stats.n_success == 0 {
            Float::neg_infinity()
        } else {
            stats.median
        }
    }

    open spec fn label(&self) -> Seq<char> {
        "median"@
    }

    fn aggregate(&self, stats: &FoldStats) -> (r: Float) {
        if stats.n_success == 0 {
            Float::neg_infinity()
        } else {
            stats.median
        }
    }

    fn name(&self) -> (r: &'static str) {
        "median"
    }
}

/// Symmetric trimmed mean: drops a fraction of the highest and of the lowest scores.
#[derive(Clone, Debug)]
pub struct TrimmedMean {
    /// Fraction to drop from each end, from zero to below one half.
    pub frac: Float,
}

/// How many of `len` scores are dropped from each end; at least one score stays.
pub open spec fn trim_count(len: nat, frac: Float) -> nat {
    let k = Float::product_of(Float::of_nat(len), frac).floor_within(usize::MAX as nat);
    let most = ((len - 1) / 2) as nat;
    if k > most {
        most
    } else {
        k
    }
}

/// The scores that stay when `k` are dropped from each end of the sorted scores.
pub open spec fn trimmed(scores: Seq<Float>, k: nat) -> Seq<Float> {
    sorting::in_order(scores).subrange(k as int, scores.len() - k)
}

impl Aggregator for TrimmedMean {
    open spec fn score_of(&self, stats: StatsView) -> Float {
        if stats.scores.len() == 0 {
            Float::neg_infinity()
        } else {
            statistics::mean_of(
                trimmed(stats.scores, trim_count(stats.scores.len(), self.frac)),
            )
        }
    }

    open spec fn label(&self) -> Seq<char> {
        "trimmed_mean"@
    }

    fn aggregate(&self, stats: &FoldStats) -> (r: Float) {
        let len: usize = stats.scores.len();
        if len == 0 {
            return Float::neg_infinity();
        }
        let v = sorting::sorted(stats.scores.as_slice());
        proof {
            sorting::law_in_order(stats.scores@);
        }
        let mut k: usize = statistics::count(len).times(self.frac).to_index();
        let most: usize = (len - 1) / 2;
        if k > most {
            k = most;
        }
        let kept = vstd::slice::slice_subrange(v.as_slice(), k, len - k);
        statistics::mean(kept)
    }

    fn name(&self) -> (r: &'static str) {
        "trimmed_mean"
    }
}

/// Signal-to-noise ratio `mean / (std + eps)`, which rewards consistent gains.
#[derive(Clone, Debug)]
pub struct SignalToNoise {
    /// Small constant that keeps the divisor from being zero.
    pub eps: Float,
}

impl Default for SignalToNoise {
    fn default() -> (r: SignalToNoise)
        ensures
            r.eps.bits == 0x3d71_9799_812d_ea11,
    {
        // The number nearest to 10^-12.
        SignalToNoise { eps: Float::from_bits(0x3d71_9799_812d_ea11) }
    }
}

impl Aggregator for SignalToNoise {
    open spec fn score_of(&self, stats: StatsView) -> Float {
        if stats.n_success == 0 {
            Float::neg_infinity()
        } else {
            Float::quotient_of(stats.mean, Float::sum_of(stats.std, self.eps))
        }
    }

    open spec fn label(&self) -> Seq<char> {
        "signal_to_noise"@
    }

    fn aggregate(&self, stats: &FoldStats) -> (r: Float) {
        if stats.n_success == 0 {
            Float::neg_infinity()
        } else {
            stats.mean.over(stats.std.plus(self.eps))
        }
    }

    fn name(&self) -> (r: &'static str) {
        "signal_to_noise"
    }
}

/// Risk-adjusted score `mean - lambda * std`, which penalises volatile splits.
#[derive(Clone, Debug)]
pub struct MeanMinusLambdaStd {
    /// Weight of the standard deviation.
    pub lambda: Float,
}

impl Aggregator for MeanMinusLambdaStd {
    open spec fn score_of(&self, stats: StatsView) -> Float {
        if stats.n_success == 0 {
            Float::neg_infinity()
        } else {
            Float::difference_of(stats.mean, Float::product_of(self.lambda, stats.std))
        }
    }

    open spec fn label(&self) -> Seq<char> {
        "mean_minus_lambda_std"@
    }

    fn aggregate(&self, stats: &FoldStats) -> (r: Float) {
        if stats.n_success == 0 {
            Float::neg_infinity()
        } else {
            stats.mean.minus(self.lambda.times(stats.std))
        }
    }

    fn name(&self) -> (r: &'static str) {
        "mean_minus_lambda_std"
    }
}

/// A caller-supplied scoring function.
pub struct Custom<F: Fn(&FoldStats) -> Float + Send + Sync> {
    /// The scoring function.
    pub f: F,
}

impl<F: Fn(&FoldStats) -> Float + Send + Sync> Custom<F> {
    /// Wraps a function as an aggregator.
    pub fn new(f: F) -> (r: Custom<F>)
        ensures
            r.f == f,
    {
        Custom { f }
    }

    /// Whether the function can return `r` on statistics with the given contents.
    pub open spec fn returns_on(&self, stats: StatsView, r: Float) -> bool {
        exists|s: FoldStats| s@ == stats && #[trigger] call_ensures(self.f, (&s,), r)
    }
}

impl<F: Fn(&FoldStats) -> Float + Send + Sync> Aggregator for Custom<F> {
    /// The function accepts all statistics, and its result depends on their contents alone.
    open spec fn applicable(&self) -> bool {
        &&& forall|s: FoldStats| call_requires(self.f, (&s,))
        &&& forall|stats: StatsView, a: Float, b: Float| #[trigger]
            self.returns_on(stats, a) && #[trigger] self.returns_on(stats, b) ==> a == b
    }

    open spec fn score_of(&self, stats: StatsView) -> Float {
        choose|r: Float| self.returns_on(stats, r)
    }

    open spec fn label(&self) -> Seq<char> {
        "custom"@
    }

    fn aggregate(&self, stats: &FoldStats) -> (r: Float) {
        let r = (self.f)(stats);
        assert(self.returns_on(stats@, r));
        r
    }

    fn name(&self) -> (r: &'static str) {
        "custom"
    }
}

/// Without any successful fold every built-in aggregator gives negative infinity, so the split
/// loses against all others.
pub proof fn law_empty_stats_lose(
    n_total: nat,
    t: TrimmedMean,
    s: SignalToNoise,
    m: MeanMinusLambdaStd,
)
    ensures
        ({
            let stats = crate::cross_validation::summary(Seq::empty(), n_total);
            &&& Mean.score_of(stats) == Float::neg_infinity()
            &&& Median.score_of(stats) == Float::neg_infinity()
            &&& t.score_of(stats) == Float::neg_infinity()
            &&& s.score_of(stats) == Float::neg_infinity()
            &&& m.score_of(stats) == Float::neg_infinity()
        }),
{
}

} // verus!
