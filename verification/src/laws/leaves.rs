//! What leaves predict.

use crate::criterion;
use crate::float;
use crate::float::rounding;
use crate::float::{Float, INF_MAG, UNIT_EXP};
use crate::histogram;
use crate::laws::counting;
use crate::laws::metric_gain;
use crate::laws::summaries;
use crate::objective;
use crate::objective::ClassObjective;
use crate::statistics;
use crate::tree::task::{ClassView, Classification, ObjectiveClassification, Regression, Task};
use vstd::arithmetic::power2::*;
use vstd::prelude::*;

verus! {

/// The labels that are classes.
pub open spec fn known_labels(labels: Seq<usize>, n_classes: nat) -> spec_fn(int) -> bool {
    |i: int| labels[i] < n_classes
}

/// Whether a prediction is that of a leaf with the given labels: the most frequent class, and for
/// each class the number of its labels divided by the number of labels that are classes.
pub open spec fn is_class_leaf(n_classes: nat, labels: Seq<usize>, leaf: ClassView) -> bool {
    let total = counting::count_where(labels.len(), known_labels(labels, n_classes));
    &&& n_classes > 0 ==> metric_gain::is_majority(
        labels.len(),
        counting::everywhere(),
        counting::labels_at(labels),
        n_classes,
        leaf.class as nat,
    )
    &&& leaf.proba.len() == n_classes
    &&& forall|c: int|
        0 <= c < n_classes ==> {
            let count = counting::count_where(
                labels.len(),
                counting::labelled(counting::everywhere(), counting::labels_at(labels), c as nat),
            );
            &&& total > 0 ==> #[trigger] leaf.proba[c] == Float::quotient_of(
                Float::of_nat(count),
                Float::of_nat(total),
            )
            &&& total == 0 ==> leaf.proba[c] == Float::zero()
            &&& count > 0 ==> Float::below(Float::zero(), leaf.proba[c])
        }
}

pub(crate) proof fn lemma_known_total(labels: Seq<usize>, n_classes: nat)
    requires
        labels.len() <= u64::MAX,
    ensures
        histogram::sum_of_counts(criterion::tallies(labels, n_classes)) == counting::count_where(
            labels.len(),
            known_labels(labels, n_classes),
        ),
    decreases labels.len(),
{
    let t = criterion::tallies(labels, n_classes);
    if labels.len() == 0 {
        histogram::lemma_sum_zeros(t);
    } else {
        let d = labels.drop_last();
        let x = labels.last() as int;
        lemma_known_total(d, n_classes);
        counting::lemma_count_agrees(
            d.len(),
            known_labels(d, n_classes),
            known_labels(labels, n_classes),
        );
        let u = criterion::tallies(d, n_classes);
        if x < n_classes {
            criterion::lemma_tally_bound(d, x as nat);
            assert(t =~= u.update(x, (u[x] + 1) as u64));
            histogram::lemma_sum_update(u, x, (u[x] + 1) as u64);
        } else {
            assert(t =~= u);
        }
    }
}

/// A share of some of many is positive.
pub proof fn law_share_is_positive(c: nat, n: nat)
    requires
        0 < c <= u64::MAX,
        0 < n <= u64::MAX,
    ensures
        Float::below(Float::zero(), Float::quotient_of(Float::of_nat(c), Float::of_nat(n))),
{
    let u = pow2(UNIT_EXP as nat);
    let vc = float::magval(Float::of_nat(c).mag());
    let vn = float::magval(Float::of_nat(n).mag());
    rounding::law_natural_is_finite(c);
    rounding::law_natural_is_finite(n);
    rounding::lemma_one();
    lemma_pow2_pos(UNIT_EXP as nat);
    assert(vc >= u) by {
        if Float::one().mag() < Float::of_nat(c).mag() {
            float::lemma_magval_increases(Float::one().mag(), Float::of_nat(c).mag());
        }
    }
    rounding::law_rounding_exists(n * u, 1);
    assert(vn <= 2 * (n * u));
    assert(2 * n <= u) by {
        lemma2_to64();
        lemma_pow2_strictly_increases(65, UNIT_EXP as nat);
        lemma_pow2_unfold(65);
        lemma2_to64_rest();
    }
    assert(vn <= vc * u) by (nonlinear_arith)
        requires
            vn <= 2 * (n * u),
            2 * n <= u,
            vc >= u,
    ;
    float::lemma_magval_increases(0, Float::of_nat(n).mag());
    assert(float::magval(1) == 1);
    rounding::law_rounding_is_exact(1, vn);
    rounding::law_rounding_is_monotone(1 * vn, vc * u, vn);
    rounding::law_rounding_exists(vc * u, vn);
}

proof fn lemma_class_leaf(n_classes: nat, labels: Seq<usize>)
    requires
        labels.len() <= u64::MAX,
        n_classes <= usize::MAX,
    ensures
        is_class_leaf(n_classes, labels, crate::tree::task::class_leaf_of(n_classes, labels)),
{
    let n = labels.len();
    let leaf = crate::tree::task::class_leaf_of(n_classes, labels);
    let counts = criterion::tallies(labels, n_classes);
    let total = counting::count_where(n, known_labels(labels, n_classes));
    let truth = counting::labels_at(labels);
    let all = counting::everywhere();
    lemma_known_total(labels, n_classes);
    counting::lemma_count_bound(n, known_labels(labels, n_classes));
    assert forall|c: nat| c < n_classes implies #[trigger] metric_gain::how_often(n, all, truth, c)
        == counts[c as int] by {
        counting::law_label_counts(labels, c);
        criterion::lemma_tally_bound(labels, c);
    }
    crate::tree::task::law_class_leads(n_classes, labels);
    if n_classes > 0 {
        let m = leaf.class as nat;
        assert forall|c: nat| c < n_classes implies #[trigger] metric_gain::how_often(
            n,
            all,
            truth,
            c,
        ) <= metric_gain::how_often(n, all, truth, m) by {
            assert(counts[c as int] <= counts[m as int]);
        }
        assert forall|c: nat| c < m implies #[trigger] metric_gain::how_often(n, all, truth, c)
            < metric_gain::how_often(n, all, truth, m) by {
            assert(counts[c as int] < counts[m as int]);
        }
    }
    assert forall|c: int| 0 <= c < n_classes implies {
        let count = counting::count_where(n, counting::labelled(all, truth, c as nat));
        &&& total > 0 ==> #[trigger] leaf.proba[c] == Float::quotient_of(
            Float::of_nat(count),
            Float::of_nat(total),
        )
        &&& total == 0 ==> leaf.proba[c] == Float::zero()
        &&& count > 0 ==> Float::below(Float::zero(), leaf.proba[c])
    } by {
        let count = counting::count_where(n, counting::labelled(all, truth, c as nat));
        assert(metric_gain::how_often(n, all, truth, c as nat) == counts[c]);
        if count > 0 {
            objective::lemma_entry_bound(counts, c);
            law_share_is_positive(count, total);
        }
    }
}

/// A leaf of a classification tree predicts the most frequent of its labels, and for each class its
/// share of the labels that are classes; a class that occurs has a positive probability.
pub proof fn law_class_leaf(task: Classification, labels: Seq<usize>)
    requires
        labels.len() <= u64::MAX,
    ensures
        is_class_leaf(task.n_classes as nat, labels, task.leaf_of(labels)),
{
    lemma_class_leaf(task.n_classes as nat, labels);
}

/// A leaf of a tree that improves a metric predicts as a leaf of any classification tree does.
pub proof fn law_objective_leaf<O: ClassObjective>(
    task: ObjectiveClassification<O>,
    labels: Seq<usize>,
)
    requires
        labels.len() <= u64::MAX,
    ensures
        is_class_leaf(task.n_classes as nat, labels, task.leaf_of(labels)),
{
    lemma_class_leaf(task.n_classes as nat, labels);
}

/// A regression leaf predicts the mean of its targets, added up in their order; zero without any.
pub proof fn law_regression_leaf(task: Regression, targets: Seq<Float>)
    ensures
        targets.len() > 0 ==> summaries::is_mean(targets, task.leaf_of(targets)),
        targets.len() == 0 ==> task.leaf_of(targets) == Float::zero(),
{
    summaries::law_mean(targets, statistics::mean_of(targets));
}

/// Whether two numbers are opposite; two zeros are, whatever their signs.
pub open spec fn opposite(a: Float, b: Float) -> bool {
    b == a.negated() || (a.mag() == 0 && b.mag() == 0)
}

/// Negating all targets negates what a regression leaf predicts.
pub proof fn law_regression_is_odd(task: Regression, s: Seq<Float>, t: Seq<Float>)
    requires
        s.len() == t.len(),
        0 < s.len() <= u64::MAX,
        forall|i: int| 0 <= i < s.len() ==> (#[trigger] s[i]).finite() && t[i] == s[i].negated(),
    ensures
        opposite(task.leaf_of(s), task.leaf_of(t)),
{
    lemma_odd_total(s, t);
    rounding::law_natural_is_finite(s.len());
    let a = statistics::total(s);
    let u = pow2(UNIT_EXP as nat);
    let vn = float::magval(Float::of_nat(s.len()).mag());
    float::lemma_magval_increases(0, Float::of_nat(s.len()).mag());
    rounding::law_rounding_exists(float::magval(a.mag()) * u, vn);
    if a.mag() == 0 {
        assert(0 * u == 0 && 0 * vn == 0) by (nonlinear_arith);
        rounding::law_rounding_is_exact(0, vn);
    }
}

proof fn lemma_odd_total(s: Seq<Float>, t: Seq<Float>)
    requires
        s.len() == t.len(),
        forall|i: int| 0 <= i < s.len() ==> (#[trigger] s[i]).finite() && t[i] == s[i].negated(),
    ensures
        opposite(statistics::total(s), statistics::total(t)),
        !statistics::total(s).nan(),
        !statistics::total(t).nan(),
    decreases s.len(),
{
    if s.len() > 0 {
        let c = s.drop_last();
        let d = t.drop_last();
        assert forall|i: int| 0 <= i < c.len() implies (#[trigger] c[i]).finite() && d[i]
            == c[i].negated() by {
            assert(c[i] == s[i]);
            assert(d[i] == t[i]);
        }
        lemma_odd_total(c, d);
        let a = statistics::total(c);
        let b = statistics::total(d);
        let x = s.last();
        assert(s[s.len() - 1].finite());
        let v = a.value() + x.value();
        if !a.infinite() {
            if v > 0 {
                rounding::law_rounding_exists(v as nat, 1);
            } else if v < 0 {
                rounding::law_rounding_exists((-v) as nat, 1);
            }
        }
    }
}

/// Targets that are all negative have a negative prediction.
pub proof fn law_negative_targets(task: Regression, s: Seq<Float>)
    requires
        0 < s.len() <= u64::MAX,
        forall|i: int|
            0 <= i < s.len() ==> (#[trigger] s[i]).finite() && Float::below(s[i], Float::zero()),
    ensures
        task.leaf_of(s).negative(),
        !task.leaf_of(s).nan(),
{
    lemma_negative_total(s);
    rounding::law_natural_is_finite(s.len());
    let a = statistics::total(s);
    let b = Float::of_nat(s.len());
    rounding::law_rounding_exists(
        float::magval(a.mag()) * pow2(UNIT_EXP as nat),
        float::magval(b.mag()),
    );
}

proof fn lemma_negative_total(s: Seq<Float>)
    requires
        0 < s.len(),
        forall|i: int|
            0 <= i < s.len() ==> (#[trigger] s[i]).finite() && Float::below(s[i], Float::zero()),
    ensures
        statistics::total(s).negative(),
        0 < statistics::total(s).mag() <= INF_MAG,
    decreases s.len(),
{
    let x = s.last();
    assert(s[s.len() - 1].finite());
    let d = s.drop_last();
    float::lemma_magval_increases(0, x.mag());
    if d.len() > 0 {
        assert forall|i: int| 0 <= i < d.len() implies (#[trigger] d[i]).finite() && Float::below(
            d[i],
            Float::zero(),
        ) by {
            assert(d[i] == s[i]);
        }
        lemma_negative_total(d);
        let a = statistics::total(d);
        float::lemma_magval_increases(0, a.mag());
        let v = (-(a.value() + x.value())) as nat;
        rounding::law_rounding_exists(v, 1);
        assert(float::magval(1) == 1);
        rounding::law_rounding_is_exact(1, 1);
        rounding::law_rounding_is_monotone(1, v, 1);
    } else {
        assert(statistics::total(d) == Float::zero());
        rounding::law_plus_zero(x);
    }
}

} // verus!
