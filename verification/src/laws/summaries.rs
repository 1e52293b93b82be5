//! What fold scores are summarised and collapsed to.

use crate::aggregation::{
    Aggregator, Custom, Mean, MeanMinusLambdaStd, Median, SignalToNoise, TrimmedMean,
};
use crate::cross_validation;
use crate::cross_validation::{FoldStats, StatsView};
use crate::float;
use crate::float::rounding;
use crate::float::{Float, UNIT_EXP};
use crate::sorting;
use crate::statistics;
use vstd::arithmetic::power2::*;
use vstd::prelude::*;
use vstd::seq_lib::*;

verus! {

/// Whether `t` holds the running sums of `s`, from zero on.
pub open spec fn running_sums(s: Seq<Float>, t: Seq<Float>) -> bool {
    &&& t.len() == s.len() + 1
    &&& t[0] == Float::zero()
    &&& forall|i: int| 0 <= i < s.len() ==> #[trigger] t[i + 1] == Float::sum_of(t[i], s[i])
}

/// Whether `mean` is the mean of `s`: the last running sum divided by how many numbers there are.
pub open spec fn is_mean(s: Seq<Float>, mean: Float) -> bool {
    exists|t: Seq<Float>| #[trigger]
        running_sums(s, t) && mean == Float::quotient_of(t[s.len() as int], Float::of_nat(s.len()))
}

/// Whether `a` holds the elements of `s` in ascending order.
pub open spec fn arranges(s: Seq<Float>, a: Seq<Float>) -> bool {
    &&& a.to_multiset() == s.to_multiset()
    &&& forall|i: int, j: int|
        0 <= i <= j < a.len() ==> (#[trigger] a[i]).rank() <= (#[trigger] a[j]).rank()
}

/// Running sums exist, and their last is the sum.
pub proof fn lemma_running_sums(s: Seq<Float>) -> (t: Seq<Float>)
    ensures
        running_sums(s, t),
        t[s.len() as int] == statistics::total(s),
    decreases s.len(),
{
    if s.len() == 0 {
        seq![Float::zero()]
    } else {
        let d = s.drop_last();
        let u = lemma_running_sums(d);
        let t = u.push(Float::sum_of(u[d.len() as int], s.last()));
        assert forall|i: int| 0 <= i < s.len() implies #[trigger] t[i + 1] == Float::sum_of(
            t[i],
            s[i],
        ) by {
            if i < d.len() {
                assert(t[i + 1] == u[i + 1]);
                assert(d[i] == s[i]);
            }
        }
        t
    }
}

/// Running sums are unique.
proof fn lemma_running_unique(s: Seq<Float>, t: Seq<Float>, k: nat)
    requires
        running_sums(s, t),
        k <= s.len(),
    ensures
        t[k as int] == statistics::total(s.take(k as int)),
    decreases k,
{
    if k > 0 {
        lemma_running_unique(s, t, (k - 1) as nat);
        assert(s.take(k as int).drop_last() =~= s.take(k - 1));
        assert(t[(k - 1) + 1] == Float::sum_of(t[k - 1], s[k - 1]));
    }
}

/// The sum is the last of the running sums.
pub proof fn law_total(s: Seq<Float>, t: Seq<Float>)
    requires
        running_sums(s, t),
    ensures
        statistics::total(s) == t[s.len() as int],
{
    lemma_running_unique(s, t, s.len());
    assert(s.take(s.len() as int) =~= s);
}

/// The mean is the one that the running sums give.
pub proof fn law_mean(s: Seq<Float>, mean: Float)
    ensures
        is_mean(s, mean) <==> statistics::mean_of(s) == mean,
{
    let t = lemma_running_sums(s);
    if is_mean(s, mean) {
        let u = choose|u: Seq<Float>| #[trigger]
            running_sums(s, u) && mean == Float::quotient_of(
                u[s.len() as int],
                Float::of_nat(s.len()),
            );
        law_total(s, u);
    }
}

/// The ascending arrangement is what sorting gives.
pub(crate) proof fn lemma_arranged(s: Seq<Float>, a: Seq<Float>)
    requires
        arranges(s, a),
    ensures
        a == sorting::in_order(s),
        a.len() == s.len(),
{
    sorting::law_in_order(s);
    sorting::law_arrangement_is_unique(a, sorting::in_order(s));
}

/// Whether `m` is the median of numbers with ascending arrangement `a`: the middle one, or half the
/// sum of the two middle ones.
pub open spec fn is_median(a: Seq<Float>, m: Float) -> bool {
    let n = a.len() as int;
    if n % 2 == 1 {
        m == a[(n - 1) / 2]
    } else {
        m == Float::quotient_of(Float::sum_of(a[n / 2 - 1], a[n / 2]), Float::of_nat(2))
    }
}

/// Two is the natural number two.
pub(crate) proof fn lemma_two()
    ensures
        Float::of_nat(2) == Float::two(),
{
    rounding::law_one_and_two();
}

/// The summary of fold scores: their mean, their median, and the root of the mean squared distance
/// from the mean; negative infinity and zero when there are none.
pub proof fn law_summary(scores: Seq<Float>, n_total: nat, a: Seq<Float>, squares: Seq<Float>)
    requires
        arranges(scores, a),
        squares.len() == scores.len(),
        forall|i: int|
            0 <= i < scores.len() ==> #[trigger] squares[i] == {
                let d = Float::difference_of(
                    scores[i],
                    cross_validation::summary(scores, n_total).mean,
                );
                Float::product_of(d, d)
            },
    ensures
        ({
            let r = cross_validation::summary(scores, n_total);
            &&& r.scores == scores
            &&& r.n_success == scores.len()
            &&& r.n_total == n_total
            &&& scores.len() > 0 ==> {
                &&& is_mean(scores, r.mean)
                &&& is_median(a, r.median)
                &&& exists|v: Float| #[trigger] is_mean(squares, v) && r.std == Float::root_of(v)
            }
            &&& scores.len() == 0 ==> {
                &&& r.mean == Float::neg_infinity()
                &&& r.median == Float::neg_infinity()
                &&& r.std == Float::zero()
            }
        }),
{
    let r = cross_validation::summary(scores, n_total);
    if scores.len() > 0 {
        lemma_arranged(scores, a);
        lemma_two();
        law_mean(scores, r.mean);
        assert(statistics::squared_distances(scores, r.mean) =~= squares);
        law_mean(squares, statistics::mean_of(squares));
        assert(is_mean(squares, statistics::mean_of(squares)));
        let n = scores.len() as int;
        assert(n % 2 == 1 ==> (n - 1) / 2 == n / 2);
    }
}

/// The mean, the median, the signal-to-noise ratio and the risk-adjusted mean of fold scores.
/// Without a score every one is negative infinity.
pub proof fn law_aggregators(
    stats: StatsView,
    snr: SignalToNoise,
    risk: MeanMinusLambdaStd,
)
    ensures
        stats.n_success > 0 ==> {
            &&& Mean.score_of(stats) == stats.mean
            &&& Median.score_of(stats) == stats.median
            &&& snr.score_of(stats) == Float::quotient_of(
                stats.mean,
                Float::sum_of(stats.std, snr.eps),
            )
            &&& risk.score_of(stats) == Float::difference_of(
                stats.mean,
                Float::product_of(risk.lambda, stats.std),
            )
        },
        stats.n_success == 0 ==> {
            &&& Mean.score_of(stats) == Float::neg_infinity()
            &&& Median.score_of(stats) == Float::neg_infinity()
            &&& snr.score_of(stats) == Float::neg_infinity()
            &&& risk.score_of(stats) == Float::neg_infinity()
        },
{
}

/// The trimmed mean drops `k` scores from each end, where `k` is the whole part of the number of
/// scores times the fraction, and averages the rest in ascending order. If nothing would be left,
/// it drops as many as leaves the middle one or two. A fraction that is negative or not a number
/// drops nothing.
pub proof fn law_trimmed_mean(t: TrimmedMean, stats: StatsView, a: Seq<Float>, k: nat)
    requires
        arranges(stats.scores, a),
        0 < stats.scores.len() <= usize::MAX,
        ({
            let part = Float::product_of(Float::of_nat(stats.scores.len()), t.frac);
            let one = pow2(UNIT_EXP as nat);
            if part.nan() || part.value() < 0 {
                k == 0
            } else if part.infinite() {
                k >= stats.scores.len()
            } else {
                k * one <= part.value() < (k + 1) * one
            }
        }),
    ensures
        ({
            let n = stats.scores.len();
            &&& 2 * k < n ==> is_mean(a.subrange(k as int, n - k), t.score_of(stats))
            &&& 2 * k >= n ==> {
                let h = ((n - 1) / 2) as int;
                is_mean(a.subrange(h, n - h), t.score_of(stats))
            }
        }),
{
    let n = stats.scores.len();
    let part = Float::product_of(Float::of_nat(n), t.frac);
    let one = pow2(UNIT_EXP as nat);
    lemma_arranged(stats.scores, a);
    lemma_pow2_pos(UNIT_EXP as nat);
    float::lemma_magval_increases(0, float::INF_MAG as nat);
    if !part.nan() && part.value() >= 0 && !part.infinite() {
        let v = part.value();
        assert((k + 1) * one == k * one + one) by (nonlinear_arith);
        assert(k * one == one * k) by (nonlinear_arith);
        vstd::arithmetic::div_mod::lemma_fundamental_div_mod_converse(
            v,
            one as int,
            k as int,
            v - k * one,
        );
    }
    let h = ((n - 1) / 2) as int;
    law_mean(a.subrange(k as int, n - k), t.score_of(stats));
    law_mean(a.subrange(h, n - h), t.score_of(stats));
}

/// A custom aggregator scores as its function does.
pub proof fn law_custom<F: Fn(&FoldStats) -> Float + Send + Sync>(
    c: Custom<F>,
    stats: FoldStats,
    r: Float,
)
    requires
        c.applicable(),
        call_ensures(c.f, (&stats,), r),
    ensures
        c.score_of(stats@) == r,
{
    assert(c.returns_on(stats@, r));
    assert(c.returns_on(stats@, c.score_of(stats@)));
}

} // verus!
