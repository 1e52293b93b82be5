//! Which splits histograms score, and on which samples.

use crate::agreement;
use crate::criterion;
use crate::cross_validation;
use crate::cross_validation::StatsView;
use crate::data::{Bin, SampleId};
use crate::float::Float;
use crate::histogram;
use crate::histogram::{ClassImpurityKind, ClassNode, RegrNode};
use crate::laws::impurities;
use crate::laws::scoring;
use crate::objective;
use crate::objective::{ClassObjective, ConfusionView};
use crate::statistics;
use crate::tree::task::{Classification, ObjectiveClassification, Regression, Task};
use vstd::prelude::*;

verus! {

/// Whether the sample at a place of a node is counted: its bin is known, below the number of bins,
/// and its label is a class.
pub open spec fn class_counts(node: ClassNode, p: int) -> bool {
    let s = node.order[p] as int;
    node.codes[s] != 65535 && node.codes[s] < node.bins && node.labels[s] < node.classes
}

/// The places of a node that are counted and validate in fold `f`, or do not.
pub open spec fn class_places(node: ClassNode, f: nat, validates: bool) -> spec_fn(int) -> bool {
    |p: int| class_counts(node, p) && (node.val_fold[p] == f) == validates
}

/// The validation labels and bins of a fold are those of the counted samples that validate in it,
/// the training ones those of all other counted samples, in the order of the node.
pub proof fn law_class_fold_samples(
    node: ClassNode,
    f: nat,
    n: nat,
    val: Seq<int>,
    train: Seq<int>,
)
    requires
        impurities::selects(n, class_places(node, f, true), val),
        impurities::selects(n, class_places(node, f, false), train),
    ensures
        node.labels_to(f, n) == Seq::new(val.len(), |i: int| node.labels[node.order[val[i]] as int]),
        node.bins_to(f, n) == Seq::new(
            val.len(),
            |i: int| node.codes[node.order[val[i]] as int] as u32,
        ),
        node.train_labels_to(f, n) == Seq::new(
            train.len(),
            |i: int| node.labels[node.order[train[i]] as int],
        ),
        node.train_bins_to(f, n) == Seq::new(
            train.len(),
            |i: int| node.codes[node.order[train[i]] as int] as u32,
        ),
    decreases n,
{
    let labels = Seq::new(val.len(), |i: int| node.labels[node.order[val[i]] as int]);
    let bins = Seq::new(val.len(), |i: int| node.codes[node.order[val[i]] as int] as u32);
    let train_labels = Seq::new(train.len(), |i: int| node.labels[node.order[train[i]] as int]);
    let train_bins = Seq::new(
        train.len(),
        |i: int| node.codes[node.order[train[i]] as int] as u32,
    );
    let a = class_places(node, f, true);
    let b = class_places(node, f, false);
    if n == 0 {
        if val.len() > 0 {
            let p = val[0];
            assert(a(p));
        }
        if train.len() > 0 {
            let p = train[0];
            assert(b(p));
        }
    } else {
        let m = (n - 1) as nat;
        scoring::lemma_selects_step(n, a, val);
        scoring::lemma_selects_step(n, b, train);
        let v = if a(n - 1) {
            val.drop_last()
        } else {
            val
        };
        let t = if b(n - 1) {
            train.drop_last()
        } else {
            train
        };
        law_class_fold_samples(node, f, m, v, t);
    }
    assert(node.labels_to(f, n) =~= labels);
    assert(node.bins_to(f, n) =~= bins);
    assert(node.train_labels_to(f, n) =~= train_labels);
    assert(node.train_bins_to(f, n) =~= train_bins);
}

/// The places of a node whose bin is known and that validate in fold `f`.
pub open spec fn value_places(node: RegrNode, f: nat) -> spec_fn(int) -> bool {
    |p: int|
        {
            let s = node.order[p] as int;
            node.codes[s] != 65535 && node.codes[s] < node.bins && node.val_fold[p] == f
        }
}

/// The targets and bins of a fold are those of the samples with a known bin that validate in it.
pub proof fn law_value_fold_samples(node: RegrNode, f: nat, n: nat, val: Seq<int>)
    requires
        impurities::selects(n, value_places(node, f), val),
    ensures
        node.values_to(f, n) == Seq::new(
            val.len(),
            |i: int| node.targets[node.order[val[i]] as int],
        ),
        node.bins_to(f, n) == Seq::new(
            val.len(),
            |i: int| node.codes[node.order[val[i]] as int] as u32,
        ),
    decreases n,
{
    let values = Seq::new(val.len(), |i: int| node.targets[node.order[val[i]] as int]);
    let bins = Seq::new(val.len(), |i: int| node.codes[node.order[val[i]] as int] as u32);
    let a = value_places(node, f);
    if n == 0 {
        if val.len() > 0 {
            let p = val[0];
            assert(a(p));
        }
    } else {
        scoring::lemma_selects_step(n, a, val);
        let v = if a(n - 1) {
            val.drop_last()
        } else {
            val
        };
        law_value_fold_samples(node, f, (n - 1) as nat, v);
    }
    assert(node.values_to(f, n) =~= values);
    assert(node.bins_to(f, n) =~= bins);
}

/// Whether `states` lists, in rising order, the bins that can be split at: those that occur in some
/// fold, and for ordered cuts not the last bin.
pub open spec fn splittable(
    states: Seq<u32>,
    occurs: spec_fn(nat) -> bool,
    bins: nat,
    prefix: bool,
    below: nat,
) -> bool {
    &&& forall|i: int, j: int|
        0 <= i < j < states.len() ==> #[trigger] states[i] < #[trigger] states[j]
    &&& forall|b: u32| #[trigger]
        states.contains(b) <==> b < below && occurs(b as nat) && (prefix ==> b + 1 < bins)
}

proof fn lemma_splittable_step(
    states: Seq<u32>,
    occurs: spec_fn(nat) -> bool,
    bins: nat,
    prefix: bool,
    below: nat,
)
    requires
        below < u32::MAX,
        splittable(states, occurs, bins, prefix, below),
    ensures
        splittable(
            if occurs(below) && (prefix ==> below + 1 < bins) {
                states.push(below as u32)
            } else {
                states
            },
            occurs,
            bins,
            prefix,
            below + 1,
        ),
{
    let more = if occurs(below) && (prefix ==> below + 1 < bins) {
        states.push(below as u32)
    } else {
        states
    };
    assert forall|i: int| 0 <= i < states.len() implies #[trigger] states[i] < below by {
        assert(states.contains(states[i]));
    }
    assert forall|i: int, j: int| 0 <= i < j < more.len() implies #[trigger] more[i]
        < #[trigger] more[j] by {
        assert(more[i] == states[i]);
        if j < states.len() {
            assert(more[j] == states[j]);
        }
    }
    assert forall|b: u32| #[trigger] more.contains(b) <==> b < below + 1 && occurs(b as nat) && (
    prefix ==> b + 1 < bins) by {
        if more.contains(b) {
            let i = choose|i: int| 0 <= i < more.len() && more[i] == b;
            if i < states.len() {
                assert(states[i] == b);
                assert(states.contains(b));
            }
        }
        if b < below && occurs(b as nat) && (prefix ==> b + 1 < bins) {
            assert(states.contains(b));
            let i = choose|i: int| 0 <= i < states.len() && states[i] == b;
            assert(more[i] == b);
        }
        if b == below && occurs(below) && (prefix ==> below + 1 < bins) {
            assert(more[more.len() - 1] == b);
        }
    }
}

/// The bins that occur at a classification node.
pub open spec fn class_occurs(node: ClassNode, k: nat) -> spec_fn(nat) -> bool {
    |b: nat| node.occupied(b, k)
}

/// The decrease of the impurity of a kind by a split at bin `b`, on each fold.
pub open spec fn class_decreases(
    node: ClassNode,
    kind: ClassImpurityKind,
    b: nat,
    prefix: bool,
    k: nat,
) -> Seq<Option<Float>> {
    Seq::new(
        k,
        |f: int|
            cross_validation::fold_gain(
                histogram::class_measure(kind, node.classes),
                node.labels_in(f as nat),
                node.bins_in(f as nat),
                b as u32,
                1,
                prefix,
            ),
    )
}

proof fn lemma_class_gains(node: ClassNode, kind: ClassImpurityKind, b: nat, prefix: bool, k: nat)
    ensures
        scoring::collects(
            class_decreases(node, kind, b, prefix, k),
            histogram::class_gains(node, kind, b, prefix, k),
        ),
    decreases k,
{
    let gains = class_decreases(node, kind, b, prefix, k);
    if k == 0 {
        scoring::lemma_collects_nothing();
        assert(gains =~= Seq::empty());
    } else {
        let d = (k - 1) as nat;
        let before = class_decreases(node, kind, b, prefix, d);
        lemma_class_gains(node, kind, b, prefix, d);
        assert(gains =~= before.push(gains.last()));
        scoring::lemma_collects_push(
            before,
            histogram::class_gains(node, kind, b, prefix, d),
            gains.last(),
        );
    }
}

proof fn lemma_class_candidates(
    node: ClassNode,
    kind: ClassImpurityKind,
    rank: spec_fn(StatsView) -> Float,
    feature: usize,
    prefix: bool,
    k: nat,
    b: nat,
) -> (states: Seq<u32>)
    requires
        b <= u32::MAX,
    ensures
        ({
            let scores = histogram::class_candidates(node, kind, rank, feature, prefix, k, b);
            &&& splittable(states, class_occurs(node, k), node.bins, prefix, b)
            &&& scores.len() == states.len()
            &&& forall|j: int|
                0 <= j < states.len() ==> scoring::scored_by(
                    #[trigger] scores[j],
                    feature,
                    states[j],
                    class_decreases(node, kind, states[j] as nat, prefix, k),
                    rank,
                )
        }),
    decreases b,
{
    let scores = histogram::class_candidates(node, kind, rank, feature, prefix, k, b);
    if b == 0 {
        let none = Seq::<u32>::empty();
        assert(splittable(none, class_occurs(node, k), node.bins, prefix, 0));
        none
    } else {
        let at = (b - 1) as nat;
        let before = histogram::class_candidates(node, kind, rank, feature, prefix, k, at);
        let old_states = lemma_class_candidates(node, kind, rank, feature, prefix, k, at);
        let occurs = class_occurs(node, k);
        lemma_splittable_step(old_states, occurs, node.bins, prefix, at);
        let states = if occurs(at) && (prefix ==> at + 1 < node.bins) {
            old_states.push(at as u32)
        } else {
            old_states
        };
        assert forall|j: int| 0 <= j < states.len() implies scoring::scored_by(
            #[trigger] scores[j],
            feature,
            states[j],
            class_decreases(node, kind, states[j] as nat, prefix, k),
            rank,
        ) by {
            if j < old_states.len() {
                assert(scores[j] == before[j]);
            } else {
                lemma_class_gains(node, kind, at, prefix, k);
            }
        }
        states
    }
}

/// The bins that occur at a node that is scored by a metric.
pub open spec fn metric_occurs(node: ClassNode, k: nat) -> spec_fn(nat) -> bool {
    |b: nat| node.occupied(b, k)
}

/// The improvement of a metric by a split at bin `b`, on each fold.
pub open spec fn metric_improvements(
    node: ClassNode,
    score: spec_fn(ConfusionView) -> Float,
    b: nat,
    prefix: bool,
    k: nat,
) -> Seq<Option<Float>> {
    Seq::new(
        k,
        |f: int|
            node.objective_gain_in(score, b, prefix, f as nat),
    )
}

proof fn lemma_metric_gains(node: ClassNode, score: spec_fn(ConfusionView) -> Float, b: nat, prefix: bool, k: nat)
    ensures
        scoring::collects(
            metric_improvements(node, score, b, prefix, k),
            objective::histogram_gains(node, score, b, prefix, k),
        ),
    decreases k,
{
    let gains = metric_improvements(node, score, b, prefix, k);
    if k == 0 {
        scoring::lemma_collects_nothing();
        assert(gains =~= Seq::empty());
    } else {
        let d = (k - 1) as nat;
        let before = metric_improvements(node, score, b, prefix, d);
        lemma_metric_gains(node, score, b, prefix, d);
        assert(gains =~= before.push(gains.last()));
        scoring::lemma_collects_push(
            before,
            objective::histogram_gains(node, score, b, prefix, d),
            gains.last(),
        );
    }
}

proof fn lemma_metric_candidates(
    node: ClassNode,
    score: spec_fn(ConfusionView) -> Float,
    rank: spec_fn(StatsView) -> Float,
    feature: usize,
    prefix: bool,
    k: nat,
    b: nat,
) -> (states: Seq<u32>)
    requires
        b <= u32::MAX,
    ensures
        ({
            let scores = objective::histogram_candidates(node, score, rank, feature, prefix, k, b);
            &&& splittable(states, metric_occurs(node, k), node.bins, prefix, b)
            &&& scores.len() == states.len()
            &&& forall|j: int|
                0 <= j < states.len() ==> scoring::scored_by(
                    #[trigger] scores[j],
                    feature,
                    states[j],
                    metric_improvements(node, score, states[j] as nat, prefix, k),
                    rank,
                )
        }),
    decreases b,
{
    let scores = objective::histogram_candidates(node, score, rank, feature, prefix, k, b);
    if b == 0 {
        let none = Seq::<u32>::empty();
        assert(splittable(none, metric_occurs(node, k), node.bins, prefix, 0));
        none
    } else {
        let at = (b - 1) as nat;
        let before = objective::histogram_candidates(node, score, rank, feature, prefix, k, at);
        let old_states = lemma_metric_candidates(node, score, rank, feature, prefix, k, at);
        let occurs = metric_occurs(node, k);
        lemma_splittable_step(old_states, occurs, node.bins, prefix, at);
        let states = if occurs(at) && (prefix ==> at + 1 < node.bins) {
            old_states.push(at as u32)
        } else {
            old_states
        };
        assert forall|j: int| 0 <= j < states.len() implies scoring::scored_by(
            #[trigger] scores[j],
            feature,
            states[j],
            metric_improvements(node, score, states[j] as nat, prefix, k),
            rank,
        ) by {
            if j < old_states.len() {
                assert(scores[j] == before[j]);
            } else {
                lemma_metric_gains(node, score, at, prefix, k);
            }
        }
        states
    }
}

/// The bins that occur at a regression node.
pub open spec fn value_occurs(node: RegrNode, k: nat) -> spec_fn(nat) -> bool {
    |b: nat| node.occupied(b, k)
}

/// The decrease of variance by a split at bin `b`, on each fold.
pub open spec fn value_decreases(
    node: RegrNode,
    b: nat,
    prefix: bool,
    k: nat,
) -> Seq<Option<Float>> {
    Seq::new(
        k,
        |f: int|
            {
                let values = node.values_in(f as nat);
                histogram::moment_gain(
                    (
                        values.len(),
                        statistics::total(values),
                        statistics::total(statistics::squares(values)),
                    ),
                    node.left_moments(f as nat, b, prefix),
                )
            },
    )
}

proof fn lemma_value_gains(node: RegrNode, b: nat, prefix: bool, k: nat)
    ensures
        scoring::collects(
            value_decreases(node, b, prefix, k),
            histogram::regr_gains(node, b, prefix, k),
        ),
    decreases k,
{
    let gains = value_decreases(node, b, prefix, k);
    if k == 0 {
        scoring::lemma_collects_nothing();
        assert(gains =~= Seq::empty());
    } else {
        let d = (k - 1) as nat;
        let before = value_decreases(node, b, prefix, d);
        lemma_value_gains(node, b, prefix, d);
        assert(gains =~= before.push(gains.last()));
        scoring::lemma_collects_push(
            before,
            histogram::regr_gains(node, b, prefix, d),
            gains.last(),
        );
    }
}

proof fn lemma_value_candidates(
    node: RegrNode,
    rank: spec_fn(StatsView) -> Float,
    feature: usize,
    prefix: bool,
    k: nat,
    b: nat,
) -> (states: Seq<u32>)
    requires
        b <= u32::MAX,
    ensures
        ({
            let scores = histogram::regr_candidates(node, rank, feature, prefix, k, b);
            &&& splittable(states, value_occurs(node, k), node.bins, prefix, b)
            &&& scores.len() == states.len()
            &&& forall|j: int|
                0 <= j < states.len() ==> scoring::scored_by(
                    #[trigger] scores[j],
                    feature,
                    states[j],
                    value_decreases(node, states[j] as nat, prefix, k),
                    rank,
                )
        }),
    decreases b,
{
    let scores = histogram::regr_candidates(node, rank, feature, prefix, k, b);
    if b == 0 {
        let none = Seq::<u32>::empty();
        assert(splittable(none, value_occurs(node, k), node.bins, prefix, 0));
        none
    } else {
        let at = (b - 1) as nat;
        let before = histogram::regr_candidates(node, rank, feature, prefix, k, at);
        let old_states = lemma_value_candidates(node, rank, feature, prefix, k, at);
        let occurs = value_occurs(node, k);
        lemma_splittable_step(old_states, occurs, node.bins, prefix, at);
        let states = if occurs(at) && (prefix ==> at + 1 < node.bins) {
            old_states.push(at as u32)
        } else {
            old_states
        };
        assert forall|j: int| 0 <= j < states.len() implies scoring::scored_by(
            #[trigger] scores[j],
            feature,
            states[j],
            value_decreases(node, states[j] as nat, prefix, k),
            rank,
        ) by {
            if j < old_states.len() {
                assert(scores[j] == before[j]);
            } else {
                lemma_value_gains(node, at, prefix, k);
            }
        }
        states
    }
}

/// Scores by impurity from histograms: every bin that can be split at, in order, each by the
/// decreases of the impurity of the task's kind on the folds.
pub proof fn law_class_scores_on_bins(
    task: Classification,
    codes: Seq<Bin>,
    targets: Seq<usize>,
    order: Seq<SampleId>,
    val_fold: Seq<u8>,
    k: nat,
    max_bin: nat,
    feature: usize,
    rank: spec_fn(StatsView) -> Float,
    prefix: bool,
) -> (states: Seq<u32>)
    requires
        max_bin <= u32::MAX,
        task.n_classes > 0,
    ensures
        ({
            let scores = task.fast_scores(
                codes,
                targets,
                order,
                val_fold,
                k,
                max_bin,
                feature,
                rank,
                prefix,
            );
            let node = histogram::class_node(codes, targets, order, val_fold, max_bin, task.n_classes as nat);
            &&& splittable(states, class_occurs(node, k), max_bin, prefix, max_bin)
            &&& scores.len() == states.len()
            &&& forall|j: int|
                0 <= j < states.len() ==> scoring::scored_by(
                    #[trigger] scores[j],
                    feature,
                    states[j],
                    class_decreases(node, task.kind, states[j] as nat, prefix, k),
                    rank,
                )
        }),
{
    let node = histogram::class_node(codes, targets, order, val_fold, max_bin, task.n_classes as nat);
    lemma_class_candidates(node, task.kind, rank, feature, prefix, k, max_bin)
}

/// Scores by a metric from histograms: every bin that can be split at, in order, each by the
/// improvements of the task's metric on the folds.
pub proof fn law_metric_scores_on_bins<O: ClassObjective>(
    task: ObjectiveClassification<O>,
    codes: Seq<Bin>,
    targets: Seq<usize>,
    order: Seq<SampleId>,
    val_fold: Seq<u8>,
    k: nat,
    max_bin: nat,
    feature: usize,
    rank: spec_fn(StatsView) -> Float,
    prefix: bool,
) -> (states: Seq<u32>)
    requires
        max_bin <= u32::MAX,
        task.n_classes > 0,
    ensures
        ({
            let scores = task.fast_scores(
                codes,
                targets,
                order,
                val_fold,
                k,
                max_bin,
                feature,
                rank,
                prefix,
            );
            let node = histogram::class_node(codes, targets, order, val_fold, max_bin, task.n_classes as nat);
            &&& splittable(states, metric_occurs(node, k), max_bin, prefix, max_bin)
            &&& scores.len() == states.len()
            &&& forall|j: int|
                0 <= j < states.len() ==> scoring::scored_by(
                    #[trigger] scores[j],
                    feature,
                    states[j],
                    metric_improvements(node, |cm: ConfusionView| task.objective.score_of(cm), states[j] as nat, prefix, k),
                    rank,
                )
        }),
{
    let node = histogram::class_node(codes, targets, order, val_fold, max_bin, task.n_classes as nat);
    let metric = |cm: ConfusionView| task.objective.score_of(cm);
    assert(metric =~= objective::scoring(&task.objective));
    lemma_metric_candidates(node, metric, rank, feature, prefix, k, max_bin)
}

/// Scores by variance from histograms: every bin that can be split at, in order, each by the
/// decreases of variance on the folds.
pub proof fn law_value_scores_on_bins(
    task: Regression,
    codes: Seq<Bin>,
    targets: Seq<Float>,
    order: Seq<SampleId>,
    val_fold: Seq<u8>,
    k: nat,
    max_bin: nat,
    feature: usize,
    rank: spec_fn(StatsView) -> Float,
    prefix: bool,
) -> (states: Seq<u32>)
    requires
        max_bin <= u32::MAX,
    ensures
        ({
            let scores = task.fast_scores(
                codes,
                targets,
                order,
                val_fold,
                k,
                max_bin,
                feature,
                rank,
                prefix,
            );
            let node = histogram::regr_node(codes, targets, order, val_fold, max_bin);
            &&& splittable(states, value_occurs(node, k), max_bin, prefix, max_bin)
            &&& scores.len() == states.len()
            &&& forall|j: int|
                0 <= j < states.len() ==> scoring::scored_by(
                    #[trigger] scores[j],
                    feature,
                    states[j],
                    value_decreases(node, states[j] as nat, prefix, k),
                    rank,
                )
        }),
{
    let node = histogram::regr_node(codes, targets, order, val_fold, max_bin);
    lemma_value_candidates(node, rank, feature, prefix, k, max_bin)
}

/// The impurity of a kind is that of the criterion with its name.
pub proof fn law_kinds(kind: ClassImpurityKind, n_classes: usize)
    ensures
        histogram::class_measure(kind, n_classes as nat) == agreement::impurity_measure(
            kind,
            n_classes,
        ),
{
    assert(histogram::class_measure(kind, n_classes as nat) =~= agreement::impurity_measure(
        kind,
        n_classes,
    ));
}

/// A bin occurs exactly when some counted sample of one of the first `k` folds has its code.
pub proof fn law_class_occurs(node: ClassNode, b: nat, k: nat)
    requires
        b < 0xffff,
    ensures
        node.occupied(b, k) <==> exists|p: int|
            0 <= p < node.order.len() && #[trigger] class_counts(node, p) && node.val_fold[p] < k
                && node.codes[node.order[p] as int] == b,
{
    let n = node.order.len();
    if node.occupied(b, k) {
        let f = choose|f: nat| f < k && (#[trigger] node.bins_in(f)).contains(b as u32);
        lemma_bins_at(node, f, n, b as u32);
    }
    if exists|p: int|
        0 <= p < n && #[trigger] class_counts(node, p) && node.val_fold[p] < k
            && node.codes[node.order[p] as int] == b {
        let p = choose|p: int|
            0 <= p < n && #[trigger] class_counts(node, p) && node.val_fold[p] < k
                && node.codes[node.order[p] as int] == b;
        let f = node.val_fold[p] as nat;
        lemma_bins_at(node, f, n, b as u32);
        assert(node.bins_in(f).contains(b as u32));
    }
}

proof fn lemma_bins_at(node: ClassNode, f: nat, n: nat, b: u32)
    ensures
        node.bins_to(f, n).contains(b) <==> exists|p: int|
            0 <= p < n && #[trigger] class_counts(node, p) && node.val_fold[p] == f
                && node.codes[node.order[p] as int] == b,
    decreases n,
{
    if n > 0 {
        let m = (n - 1) as nat;
        lemma_bins_at(node, f, m, b);
        let before = node.bins_to(f, m);
        let after = node.bins_to(f, n);
        if after.contains(b) {
            let i = choose|i: int| 0 <= i < after.len() && after[i] == b;
            if i < before.len() {
                assert(before[i] == b);
                assert(before.contains(b));
            } else {
                assert(class_counts(node, n - 1));
            }
        }
        if before.contains(b) {
            let i = choose|i: int| 0 <= i < before.len() && before[i] == b;
            assert(after[i] == b);
        }
        if class_counts(node, n - 1) && node.val_fold[n - 1] == f && node.codes[node.order[n
            - 1] as int] == b {
            assert(after[after.len() - 1] == b);
        }
    }
}

/// The variance of `n` numbers from their sum and the sum of their squares: the mean square less
/// the square of the mean, at least zero.
pub open spec fn variance(n: nat, sum: Float, squares: Float) -> Float {
    let mean = Float::quotient_of(sum, Float::of_nat(n));
    let v = Float::difference_of(
        Float::quotient_of(squares, Float::of_nat(n)),
        Float::product_of(mean, mean),
    );
    if v.nan() || Float::below(v, Float::zero()) {
        Float::zero()
    } else {
        v
    }
}

/// A split decreases variance by that of all targets less those of both sides, each weighted by the
/// part of the targets that it holds. The sums of the right side are those of all less the left.
pub proof fn law_variance_decrease(
    n: nat,
    sum: Float,
    squares: Float,
    nl: nat,
    left_sum: Float,
    left_squares: Float,
)
    requires
        nl <= n <= u64::MAX,
    ensures
        ({
            let gain = histogram::moment_gain((n, sum, squares), (nl, left_sum, left_squares));
            &&& nl == 0 || nl == n ==> gain is None
            &&& 0 < nl < n ==> gain == Some(
                Float::difference_of(
                    variance(n, sum, squares),
                    Float::quotient_of(
                        Float::sum_of(
                            Float::product_of(
                                Float::of_nat(nl),
                                variance(nl, left_sum, left_squares),
                            ),
                            Float::product_of(
                                Float::of_nat((n - nl) as nat),
                                variance(
                                    (n - nl) as nat,
                                    Float::difference_of(sum, left_sum),
                                    Float::difference_of(squares, left_squares),
                                ),
                            ),
                        ),
                        Float::of_nat(n),
                    ),
                ),
            )
        }),
{
    if 0 < nl < n {
        crate::float::rounding::law_natural_is_finite(n);
        crate::float::rounding::law_natural_is_finite(nl);
        crate::float::rounding::law_natural_is_finite((n - nl) as nat);
        crate::float::rounding::lemma_one();
    }
}

/// The left side of a split at one bin holds the targets of the bin. The left side of an ordered cut
/// above bin `b` adds the sums of bin `b` to those of the cut below it.
pub proof fn law_left_sums(node: RegrNode, f: nat, b: nat, cell: Seq<Float>)
    requires
        cell == cross_validation::side(node.values_in(f), node.bins_to(f, node.order.len()), b as u32, false, true),
    ensures
        ({
            let squares = Seq::new(cell.len(), |i: int| Float::product_of(cell[i], cell[i]));
            let sum = statistics::total(cell);
            let sum_squares = statistics::total(squares);
            &&& node.left_moments(f, b, false) == (cell.len(), sum, sum_squares)
            &&& b == 0 ==> node.left_moments(f, b, true) == (
                cell.len(),
                Float::sum_of(Float::zero(), sum),
                Float::sum_of(Float::zero(), sum_squares),
            )
            &&& b > 0 ==> {
                let (n, s, q) = node.left_moments(f, (b - 1) as nat, true);
                node.left_moments(f, b, true) == (
                    n + cell.len(),
                    Float::sum_of(s, sum),
                    Float::sum_of(q, sum_squares),
                )
            }
        }),
{
    let squares = Seq::new(cell.len(), |i: int| Float::product_of(cell[i], cell[i]));
    assert(statistics::squares(cell) =~= squares);
    if b == 0 {
        assert(node.moments_below(f, 0) == (0nat, Float::zero(), Float::zero()));
    }
}

} // verus!
