//! Which splits are scored, on which samples, and how the folds make up the score.

use crate::candidate;
use crate::candidate::Candidate;
use crate::criterion::Criterion;
use crate::cross_validation;
use crate::cross_validation::{FoldView, StatsView};
use crate::data::Column;
use crate::float::Float;
use crate::laws::impurities;
use crate::objective;
use crate::objective::{ClassObjective, ConfusionView};
use crate::selector::ScoredView;
use crate::tree::task::{Classification, ObjectiveClassification, Regression, Task};
use vstd::prelude::*;

verus! {

/// What is left of a list of chosen positions without the last of the range.
pub proof fn lemma_selects_step(n: nat, has: spec_fn(int) -> bool, positions: Seq<int>)
    requires
        n > 0,
        impurities::selects(n, has, positions),
    ensures
        has(n - 1) ==> positions.len() > 0 && positions.last() == n - 1 && impurities::selects(
            (n - 1) as nat,
            has,
            positions.drop_last(),
        ),
        has(n - 1) == false ==> impurities::selects((n - 1) as nat, has, positions),
{
    let m = n - 1;
    if has(m) {
        assert(positions.contains(m));
        let q = choose|q: int| 0 <= q < positions.len() && positions[q] == m;
        if q < positions.len() - 1 {
            assert(positions[q] < positions[positions.len() - 1]);
        }
        let rest = positions.drop_last();
        assert forall|i: int| 0 <= i < rest.len() implies 0 <= #[trigger] rest[i] < m && has(
            rest[i],
        ) by {
            assert(rest[i] == positions[i]);
            assert(positions[i] < positions[q]);
        }
        assert forall|x: int| 0 <= x < m && #[trigger] has(x) implies rest.contains(x) by {
            assert(positions.contains(x));
            let i = choose|i: int| 0 <= i < positions.len() && positions[i] == x;
            assert(rest[i] == x);
        }
    } else {
        assert forall|i: int| 0 <= i < positions.len() implies 0 <= #[trigger] positions[i] < m by {
            assert(has(positions[i]));
        }
    }
}

/// Whether `scores` are the gains of the folds that have one, in the order of the folds.
pub open spec fn collects(gains: Seq<Option<Float>>, scores: Seq<Float>) -> bool {
    exists|p: Seq<int>| #[trigger]
        impurities::selects(gains.len(), valid_folds(gains), p) && scores == Seq::new(
            p.len(),
            |i: int| gains[p[i]]->Some_0,
        )
}

/// The folds that have a gain.
pub open spec fn valid_folds(gains: Seq<Option<Float>>) -> spec_fn(int) -> bool {
    |f: int| gains[f] is Some
}

/// One more fold.
pub(crate) proof fn lemma_collects_push(gains: Seq<Option<Float>>, scores: Seq<Float>, next: Option<Float>)
    requires
        collects(gains, scores),
    ensures
        collects(
            gains.push(next),
            match next {
                Some(gain) => scores.push(gain),
                None => scores,
            },
        ),
{
    let p = choose|p: Seq<int>| #[trigger]
        impurities::selects(gains.len(), valid_folds(gains), p) && scores == Seq::new(
            p.len(),
            |i: int| gains[p[i]]->Some_0,
        );
    let more = gains.push(next);
    let n = gains.len() as int;
    let old_has = valid_folds(gains);
    let has = valid_folds(more);
    assert forall|f: int| 0 <= f < n implies #[trigger] old_has(f) == has(f) by {}
    let q = if next is Some {
        p.push(n)
    } else {
        p
    };
    assert forall|i: int, j: int| 0 <= i < j < q.len() implies #[trigger] q[i] < #[trigger] q[j] by {
        assert(q[i] == p[i]);
        if j < p.len() {
            assert(q[j] == p[j]);
        }
    }
    assert forall|i: int| 0 <= i < q.len() implies 0 <= #[trigger] q[i] < more.len() && has(
        q[i],
    ) by {
        if i < p.len() {
            assert(q[i] == p[i]);
            assert(old_has(p[i]));
        }
    }
    assert forall|x: int| 0 <= x < more.len() && #[trigger] has(x) implies q.contains(x) by {
        if x < n {
            assert(old_has(x));
            assert(p.contains(x));
            let i = choose|i: int| 0 <= i < p.len() && p[i] == x;
            assert(q[i] == x);
        } else {
            assert(q[q.len() - 1] == x);
        }
    }
    assert(impurities::selects(more.len(), has, q));
    let after = match next {
        Some(gain) => scores.push(gain),
        None => scores,
    };
    assert(after =~= Seq::new(q.len(), |i: int| more[q[i]]->Some_0)) by {
        assert forall|i: int| 0 <= i < after.len() implies after[i] == more[q[i]]->Some_0 by {
            if i < p.len() {
                assert(q[i] == p[i]);
                assert(0 <= p[i] < n);
            }
        }
    }
}

pub(crate) proof fn lemma_collects_nothing()
    ensures
        collects(Seq::empty(), Seq::empty()),
{
    let none = Seq::<Option<Float>>::empty();
    let p = Seq::<int>::empty();
    assert(impurities::selects(none.len(), valid_folds(none), p));
    assert(Seq::<Float>::empty() =~= Seq::new(p.len(), |i: int| none[p[i]]->Some_0));
}

/// Whether a candidate is summarised and ranked by the gains of its folds.
pub open spec fn scored_by(
    scored: ScoredView,
    feature: usize,
    state: u32,
    gains: Seq<Option<Float>>,
    rank: spec_fn(StatsView) -> Float,
) -> bool {
    &&& scored.candidate == Candidate { feature, state }
    &&& scored.score == rank(scored.stats)
    &&& exists|scores: Seq<Float>| #[trigger]
        collects(gains, scores) && scored.stats == cross_validation::summary(scores, gains.len())
}

/// The impurity decrease of a split on each fold: on the validation targets, with cut points of the
/// training samples; none without validation samples or with a side that is too small.
pub open spec fn decreases_on<T>(
    impurity: spec_fn(Seq<T>) -> Float,
    column: Column,
    targets: Seq<T>,
    state: u32,
    folds: Seq<FoldView>,
    n_bins: nat,
    min_child: nat,
    prefix: bool,
) -> Seq<Option<Float>> {
    Seq::new(
        folds.len(),
        |f: int|
            if folds[f].val.len() == 0 {
                None
            } else {
                cross_validation::fold_gain(
                    impurity,
                    cross_validation::pick(targets, folds[f].val),
                    cross_validation::coded(column, folds[f].train, folds[f].val, n_bins),
                    state,
                    min_child,
                    prefix,
                )
            },
    )
}

proof fn lemma_fold_gains<T>(
    impurity: spec_fn(Seq<T>) -> Float,
    column: Column,
    targets: Seq<T>,
    state: u32,
    folds: Seq<FoldView>,
    n_bins: nat,
    min_child: nat,
    prefix: bool,
)
    ensures
        collects(
            decreases_on(impurity, column, targets, state, folds, n_bins, min_child, prefix),
            cross_validation::fold_gains(
                impurity,
                column,
                targets,
                state,
                folds,
                n_bins,
                min_child,
                prefix,
            ),
        ),
    decreases folds.len(),
{
    let gains = decreases_on(impurity, column, targets, state, folds, n_bins, min_child, prefix);
    if folds.len() == 0 {
        lemma_collects_nothing();
        assert(gains =~= Seq::empty());
    } else {
        let d = folds.drop_last();
        let before = decreases_on(impurity, column, targets, state, d, n_bins, min_child, prefix);
        lemma_fold_gains(impurity, column, targets, state, d, n_bins, min_child, prefix);
        assert(gains =~= before.push(gains.last()));
        lemma_collects_push(
            before,
            cross_validation::fold_gains(
                impurity,
                column,
                targets,
                state,
                d,
                n_bins,
                min_child,
                prefix,
            ),
            gains.last(),
        );
    }
}

/// Evaluating the states of a feature summarises, for each state, its impurity decreases on the
/// folds in which both sides are large enough.
pub proof fn law_evaluated_states<T>(
    impurity: spec_fn(Seq<T>) -> Float,
    column: Column,
    targets: Seq<T>,
    states: Seq<u32>,
    folds: Seq<FoldView>,
    n_bins: nat,
    min_child: nat,
    prefix: bool,
    j: int,
)
    requires
        0 <= j < states.len(),
    ensures
        ({
            let stats = cross_validation::gain_stats(
                impurity,
                column,
                targets,
                states,
                folds,
                n_bins,
                min_child,
                prefix,
            );
            let gains = decreases_on(
                impurity,
                column,
                targets,
                states[j],
                folds,
                n_bins,
                min_child,
                prefix,
            );
            &&& stats.len() == states.len()
            &&& exists|scores: Seq<Float>| #[trigger]
                collects(gains, scores) && stats[j] == cross_validation::summary(
                    scores,
                    folds.len(),
                )
        }),
{
    lemma_fold_gains(impurity, column, targets, states[j], folds, n_bins, min_child, prefix);
}

/// Scores by impurity on the columns: every state that the feature can be split at, in order, each
/// by the decreases of the task's impurity on the folds.
pub proof fn law_class_scores_on_columns(
    task: Classification,
    column: Column,
    targets: Seq<usize>,
    feature: usize,
    indices: Seq<usize>,
    folds: Seq<FoldView>,
    n_bins: nat,
    rank: spec_fn(StatsView) -> Float,
    prefix: bool,
)
    ensures
        ({
            let scores = task.strict_scores(
                column,
                targets,
                feature,
                indices,
                folds,
                n_bins,
                rank,
                prefix,
            );
            let states = candidate::split_states_of(column, indices, n_bins, prefix);
            let impurity = |t: Seq<usize>| task.impurity_of(t);
            &&& scores.len() == states.len()
            &&& forall|j: int|
                0 <= j < states.len() ==> scored_by(
                    #[trigger] scores[j],
                    feature,
                    states[j],
                    decreases_on(impurity, column, targets, states[j], folds, n_bins, 1, prefix),
                    rank,
                )
        }),
{
    let scores = task.strict_scores(
        column,
        targets,
        feature,
        indices,
        folds,
        n_bins,
        rank,
        prefix,
    );
    let states = candidate::split_states_of(column, indices, n_bins, prefix);
    let impurity = |t: Seq<usize>| task.impurity_of(t);
    assert(impurity =~= cross_validation::measure::<usize, Box<dyn Criterion<usize>>>(
        &task.criterion,
    ));
    assert forall|j: int| 0 <= j < states.len() implies scored_by(
        #[trigger] scores[j],
        feature,
        states[j],
        decreases_on(impurity, column, targets, states[j], folds, n_bins, 1, prefix),
        rank,
    ) by {
        lemma_fold_gains(impurity, column, targets, states[j], folds, n_bins, 1, prefix);
    }
}

/// Scores by impurity on the columns, for regression.
pub proof fn law_value_scores_on_columns(
    task: Regression,
    column: Column,
    targets: Seq<Float>,
    feature: usize,
    indices: Seq<usize>,
    folds: Seq<FoldView>,
    n_bins: nat,
    rank: spec_fn(StatsView) -> Float,
    prefix: bool,
)
    ensures
        ({
            let scores = task.strict_scores(
                column,
                targets,
                feature,
                indices,
                folds,
                n_bins,
                rank,
                prefix,
            );
            let states = candidate::split_states_of(column, indices, n_bins, prefix);
            let impurity = |t: Seq<Float>| task.impurity_of(t);
            &&& scores.len() == states.len()
            &&& forall|j: int|
                0 <= j < states.len() ==> scored_by(
                    #[trigger] scores[j],
                    feature,
                    states[j],
                    decreases_on(impurity, column, targets, states[j], folds, n_bins, 1, prefix),
                    rank,
                )
        }),
{
    let scores = task.strict_scores(
        column,
        targets,
        feature,
        indices,
        folds,
        n_bins,
        rank,
        prefix,
    );
    let states = candidate::split_states_of(column, indices, n_bins, prefix);
    let impurity = |t: Seq<Float>| task.impurity_of(t);
    assert(impurity =~= cross_validation::measure::<Float, Box<dyn Criterion<Float>>>(
        &task.criterion,
    ));
    assert forall|j: int| 0 <= j < states.len() implies scored_by(
        #[trigger] scores[j],
        feature,
        states[j],
        decreases_on(impurity, column, targets, states[j], folds, n_bins, 1, prefix),
        rank,
    ) by {
        lemma_fold_gains(impurity, column, targets, states[j], folds, n_bins, 1, prefix);
    }
}

/// The improvement of a metric by a split on each fold; none without training or validation
/// samples.
pub open spec fn improvements_on(
    score: spec_fn(ConfusionView) -> Float,
    column: Column,
    labels: Seq<usize>,
    state: u32,
    folds: Seq<FoldView>,
    n_bins: nat,
    n_classes: nat,
    prefix: bool,
) -> Seq<Option<Float>> {
    Seq::new(
        folds.len(),
        |f: int|
            if folds[f].val.len() == 0 || folds[f].train.len() == 0 {
                None
            } else {
                objective::objective_gain_on(
                    score,
                    column,
                    labels,
                    state,
                    folds[f],
                    n_bins,
                    n_classes,
                    prefix,
                )
            },
    )
}

proof fn lemma_improvements(
    score: spec_fn(ConfusionView) -> Float,
    column: Column,
    labels: Seq<usize>,
    state: u32,
    folds: Seq<FoldView>,
    n_bins: nat,
    n_classes: nat,
    prefix: bool,
)
    ensures
        collects(
            improvements_on(score, column, labels, state, folds, n_bins, n_classes, prefix),
            objective::objective_gains(
                score,
                column,
                labels,
                state,
                folds,
                n_bins,
                n_classes,
                prefix,
            ),
        ),
    decreases folds.len(),
{
    let gains = improvements_on(score, column, labels, state, folds, n_bins, n_classes, prefix);
    if folds.len() == 0 {
        lemma_collects_nothing();
        assert(gains =~= Seq::empty());
    } else {
        let d = folds.drop_last();
        let before = improvements_on(score, column, labels, state, d, n_bins, n_classes, prefix);
        lemma_improvements(score, column, labels, state, d, n_bins, n_classes, prefix);
        assert(gains =~= before.push(gains.last()));
        lemma_collects_push(
            before,
            objective::objective_gains(
                score,
                column,
                labels,
                state,
                d,
                n_bins,
                n_classes,
                prefix,
            ),
            gains.last(),
        );
    }
}

/// Scores by a metric on the columns: every state that the feature can be split at, in order, each
/// by the improvements of the task's metric on the folds.
pub proof fn law_metric_scores_on_columns<O: ClassObjective>(
    task: ObjectiveClassification<O>,
    column: Column,
    targets: Seq<usize>,
    feature: usize,
    indices: Seq<usize>,
    folds: Seq<FoldView>,
    n_bins: nat,
    rank: spec_fn(StatsView) -> Float,
    prefix: bool,
)
    ensures
        ({
            let scores = task.strict_scores(
                column,
                targets,
                feature,
                indices,
                folds,
                n_bins,
                rank,
                prefix,
            );
            let states = candidate::split_states_of(column, indices, n_bins, prefix);
            let metric = |cm: ConfusionView| task.objective.score_of(cm);
            &&& scores.len() == states.len()
            &&& forall|j: int|
                0 <= j < states.len() ==> scored_by(
                    #[trigger] scores[j],
                    feature,
                    states[j],
                    improvements_on(
                        metric,
                        column,
                        targets,
                        states[j],
                        folds,
                        n_bins,
                        task.n_classes as nat,
                        prefix,
                    ),
                    rank,
                )
        }),
{
    let scores = task.strict_scores(
        column,
        targets,
        feature,
        indices,
        folds,
        n_bins,
        rank,
        prefix,
    );
    let states = candidate::split_states_of(column, indices, n_bins, prefix);
    let metric = |cm: ConfusionView| task.objective.score_of(cm);
    assert(metric =~= objective::scoring(&task.objective));
    assert forall|j: int| 0 <= j < states.len() implies scored_by(
        #[trigger] scores[j],
        feature,
        states[j],
        improvements_on(
            metric,
            column,
            targets,
            states[j],
            folds,
            n_bins,
            task.n_classes as nat,
            prefix,
        ),
        rank,
    ) by {
        lemma_improvements(
            metric,
            column,
            targets,
            states[j],
            folds,
            n_bins,
            task.n_classes as nat,
            prefix,
        );
    }
}

} // verus!
