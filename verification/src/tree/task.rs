//! Learning tasks: what a leaf predicts, and how splits are scored.

use crate::aggregation;
use crate::aggregation::Aggregator;
use crate::candidate;
use crate::candidate::{split_states, Candidate};
use crate::criterion;
use crate::criterion::{class_counts, Criterion, Entropy, Gini, Mae, Mse, Variance};
use crate::cross_validation;
use crate::cross_validation::{eval_feature, Fold, FoldView, StatsView};
use crate::data::{Bin, Column, SampleId};
use crate::float::Float;
use crate::histogram;
use crate::histogram::{score_classif, score_regr, ClassImpurityKind, FastScratch};
use crate::objective;
use crate::objective::{
    eval_feature_objective, score_classif_objective, Accuracy, Average, ClassObjective,
    ConfusionView, FBeta, Precision, Recall, F1,
};
use crate::selector;
use crate::selector::{ScoredCandidate, ScoredView};
use crate::statistics;
use crate::text;
use vstd::prelude::*;

verus! {

/// A leaf's prediction in a form that does not depend on the task.
#[derive(Clone, Debug)]
pub struct LeafInfo {
    /// Predicted class, for classification.
    pub class: Option<usize>,
    /// Class probabilities, for classification.
    pub proba: Vec<Float>,
    /// Predicted value, for regression.
    pub value: Option<Float>,
}

/// The contents of a leaf description.
#[verifier::ext_equal]
pub struct LeafView {
    pub class: Option<usize>,
    pub proba: Seq<Float>,
    pub value: Option<Float>,
}

impl View for LeafInfo {
    type V = LeafView;

    open spec fn view(&self) -> LeafView {
        LeafView { class: self.class, proba: self.proba@, value: self.value }
    }
}

/// What a leaf can predict: values that cloning keeps.
pub trait Prediction: Clone + View {
    /// A clone has the contents of the original.
    proof fn clone_keeps_contents(a: &Self, b: &Self)
        requires
            cloned::<Self>(*a, *b),
        ensures
            a@ == b@,
    ;
}

impl View for Float {
    type V = Float;

    open spec fn view(&self) -> Float {
        *self
    }
}

impl Prediction for Float {
    proof fn clone_keeps_contents(a: &Float, b: &Float) {
    }
}

/// A classifier's prediction: a class and the probability of each class.
#[derive(Debug, PartialEq)]
pub struct ClassPrediction {
    /// The class with the highest probability, the lowest id on ties.
    pub class: usize,
    /// Share of the leaf's training samples in each class.
    pub proba: Vec<Float>,
}

/// The contents of a classifier's prediction.
#[verifier::ext_equal]
pub struct ClassView {
    pub class: usize,
    pub proba: Seq<Float>,
}

impl View for ClassPrediction {
    type V = ClassView;

    open spec fn view(&self) -> ClassView {
        ClassView { class: self.class, proba: self.proba@ }
    }
}

/// The same numbers in a new vector.
pub(crate) fn copy_floats(v: &Vec<Float>) -> (r: Vec<Float>)
    ensures
        r@ == v@,
{
    let mut r: Vec<Float> = Vec::new();
    let mut i: usize = 0;
    while i < v.len()
        invariant
            i <= v@.len(),
            r@ == v@.take(i as int),
        decreases v@.len() - i,
    {
        r.push(v[i]);
        i += 1;
        assert(r@ =~= v@.take(i as int));
    }
    assert(r@ =~= v@);
    r
}

impl Clone for ClassPrediction {
    fn clone(&self) -> (r: ClassPrediction)
        ensures
            r@ == self@,
    {
        ClassPrediction { class: self.class, proba: copy_floats(&self.proba) }
    }
}

impl Prediction for ClassPrediction {
    proof fn clone_keeps_contents(a: &ClassPrediction, b: &ClassPrediction) {
    }
}

/// Whether every fold holds samples below `n`, few enough to be counted.
pub open spec fn folds_within(folds: Seq<FoldView>, n: nat) -> bool {
    forall|f: int|
        0 <= f < folds.len() ==> cross_validation::all_below((#[trigger] folds[f]).train, n)
            && cross_validation::all_below(folds[f].val, n) && 2 * folds[f].val.len() <= u64::MAX
}

/// Whether the samples of a node, and the folds in which they validate, can be read.
pub open spec fn samples_within(
    order: Seq<SampleId>,
    val_fold: Seq<u8>,
    n: nat,
    k: nat,
) -> bool {
    &&& order.len() <= u32::MAX
    &&& order.len() == val_fold.len()
    &&& forall|p: int| 0 <= p < order.len() ==> #[trigger] order[p] < n
    &&& forall|p: int| 0 <= p < val_fold.len() ==> #[trigger] val_fold[p] < k
}

/// Whether all candidates are splits of the given feature.
pub open spec fn all_name(scored: Seq<ScoredView>, feature: usize) -> bool {
    forall|i: int| 0 <= i < scored.len() ==> (#[trigger] scored[i]).candidate.feature == feature
}

/// A learning task.
pub trait Task: Send + Sync {
    /// Target of a sample.
    type Target: Copy + Send + Sync;

    /// What a leaf predicts.
    type Prediction: Prediction;

    /// Impurity criterion.
    type Criterion: Criterion<Self::Target>;

    /// What a leaf predicts that is reached by the given targets.
    spec fn leaf_of(&self, targets: Seq<Self::Target>) -> <Self::Prediction as View>::V;

    /// A prediction in a form that does not depend on the task.
    spec fn description(&self, prediction: <Self::Prediction as View>::V) -> LeafView;

    /// The impurity of the given targets.
    spec fn impurity_of(&self, targets: Seq<Self::Target>) -> Float;

    /// Whether splits can be scored from histograms.
    spec fn histograms(&self) -> bool;

    /// Whether tables for `k` folds and `bins` bins can be addressed.
    spec fn addressable(&self, k: nat, bins: nat) -> bool;

    /// The scored candidates of a feature, from histograms.
    spec fn fast_scores(
        &self,
        codes: Seq<Bin>,
        targets: Seq<Self::Target>,
        order: Seq<SampleId>,
        val_fold: Seq<u8>,
        k: nat,
        max_bin: nat,
        feature: usize,
        rank: spec_fn(StatsView) -> Float,
        prefix: bool,
    ) -> Seq<ScoredView>;

    /// The scored candidates of a feature, with cut points fit on each training fold.
    spec fn strict_scores(
        &self,
        column: Column,
        targets: Seq<Self::Target>,
        feature: usize,
        indices: Seq<usize>,
        folds: Seq<FoldView>,
        n_bins: nat,
        rank: spec_fn(StatsView) -> Float,
        prefix: bool,
    ) -> Seq<ScoredView>;

    /// Smaller tables can be addressed too.
    proof fn smaller_addressable(&self, k: nat, bins: nat, most_folds: nat, most_bins: nat)
        requires
            self.addressable(most_folds, most_bins),
            k <= most_folds,
            bins <= most_bins,
        ensures
            self.addressable(k, bins),
    ;

    /// The candidates scored from histograms are splits of the given feature.
    proof fn fast_scores_name_feature(
        &self,
        codes: Seq<Bin>,
        targets: Seq<Self::Target>,
        order: Seq<SampleId>,
        val_fold: Seq<u8>,
        k: nat,
        max_bin: nat,
        feature: usize,
        rank: spec_fn(StatsView) -> Float,
        prefix: bool,
    )
        ensures
            all_name(
                self.fast_scores(
                    codes,
                    targets,
                    order,
                    val_fold,
                    k,
                    max_bin,
                    feature,
                    rank,
                    prefix,
                ),
                feature,
            ),
    ;

    /// The candidates scored on the columns are splits of the given feature.
    proof fn strict_scores_name_feature(
        &self,
        column: Column,
        targets: Seq<Self::Target>,
        feature: usize,
        indices: Seq<usize>,
        folds: Seq<FoldView>,
        n_bins: nat,
        rank: spec_fn(StatsView) -> Float,
        prefix: bool,
    )
        ensures
            all_name(
                self.strict_scores(
                    column,
                    targets,
                    feature,
                    indices,
                    folds,
                    n_bins,
                    rank,
                    prefix,
                ),
                feature,
            ),
    ;

    /// What a leaf predicts that is reached by the given targets.
    fn leaf(&self, targets: &[Self::Target]) -> (r: Self::Prediction)
        ensures
            r@ == self.leaf_of(targets@),
    ;

    /// A prediction in a form that does not depend on the task.
    fn describe_leaf(&self, pred: &Self::Prediction) -> (r: LeafInfo)
        ensures
            r@ == self.description(pred@),
    ;

    /// The impurity criterion.
    fn criterion(&self) -> (r: &Self::Criterion)
        ensures
            forall|targets: Seq<Self::Target>| #[trigger]
                r.impurity_of(targets) == self.impurity_of(targets),
    ;

    /// Whether splits can be scored from histograms.
    fn fast_supported(&self) -> (r: bool)
        ensures
            r == self.histograms(),
    ;

    /// Scores every candidate split of one feature from histograms.
    fn score_feature_fast<A: Aggregator + ?Sized>(
        &self,
        codes: &[Bin],
        targets: &[Self::Target],
        order: &[SampleId],
        val_fold: &[u8],
        k: usize,
        max_bin: usize,
        feature: usize,
        aggregator: &A,
        scratch: &mut FastScratch,
        prefix: bool,
    ) -> (r: Vec<ScoredCandidate>)
        requires
            aggregator.applicable(),
            codes@.len() == targets@.len(),
            samples_within(order@, val_fold@, codes@.len(), k as nat),
            max_bin <= 0xffff,
            self.addressable(k as nat, max_bin as nat),
        ensures
            selector::scored_views(r@) == self.fast_scores(
                codes@,
                targets@,
                order@,
                val_fold@,
                k as nat,
                max_bin as nat,
                feature,
                aggregation::ranking(aggregator),
                prefix,
            ),
            forall|i: int| 0 <= i < r@.len() ==> (#[trigger] r@[i]).candidate.feature == feature,
    ;

    /// Scores every candidate split of one feature, with cut points fit on each training fold.
    fn score_feature_strict<A: Aggregator + ?Sized>(
        &self,
        columns: &[Column],
        targets: &[Self::Target],
        feature: usize,
        indices: &[usize],
        folds: &[Fold],
        n_bins: usize,
        aggregator: &A,
        prefix: bool,
    ) -> (r: Vec<ScoredCandidate>)
        requires
            aggregator.applicable(),
            feature < columns@.len(),
            columns@[feature as int].size() == targets@.len(),
            cross_validation::all_below(indices@, targets@.len()),
            folds_within(cross_validation::fold_views(folds@), targets@.len()),
        ensures
            selector::scored_views(r@) == self.strict_scores(
                columns@[feature as int],
                targets@,
                feature,
                indices@,
                cross_validation::fold_views(folds@),
                n_bins as nat,
                aggregation::ranking(aggregator),
                prefix,
            ),
            forall|i: int| 0 <= i < r@.len() ==> (#[trigger] r@[i]).candidate.feature == feature,
    ;
}

/// The scored candidates of a feature by impurity decrease.
pub open spec fn impurity_scores<T>(
    impurity: spec_fn(Seq<T>) -> Float,
    rank: spec_fn(StatsView) -> Float,
    column: Column,
    targets: Seq<T>,
    feature: usize,
    indices: Seq<usize>,
    folds: Seq<FoldView>,
    n_bins: nat,
    prefix: bool,
) -> Seq<ScoredView> {
    let states = candidate::split_states_of(column, indices, n_bins, prefix);
    Seq::new(
        states.len(),
        |i: int|
            histogram::scored_as(
                feature,
                states[i],
                cross_validation::fold_gains(
                    impurity,
                    column,
                    targets,
                    states[i],
                    folds,
                    n_bins,
                    1,
                    prefix,
                ),
                folds.len(),
                rank,
            ),
    )
}

/// Scores the states of one feature by impurity decrease. The smallest child that counts on a fold
/// is one sample; the node's own limits apply to the split of the node.
pub fn score_by_impurity<T: Copy, C: Criterion<T> + ?Sized, A: Aggregator + ?Sized>(
    criterion: &C,
    columns: &[Column],
    targets: &[T],
    feature: usize,
    indices: &[usize],
    folds: &[Fold],
    n_bins: usize,
    aggregator: &A,
    prefix: bool,
) -> (r: Vec<ScoredCandidate>)
    requires
        aggregator.applicable(),
        feature < columns@.len(),
        cross_validation::all_below(indices@, columns@[feature as int].size()),
        cross_validation::folds_fit(
            columns@[feature as int],
            targets@.len(),
            cross_validation::fold_views(folds@),
        ),
    ensures
        selector::scored_views(r@) == impurity_scores(
            cross_validation::measure::<T, C>(criterion),
            aggregation::ranking(aggregator),
            columns@[feature as int],
            targets@,
            feature,
            indices@,
            cross_validation::fold_views(folds@),
            n_bins as nat,
            prefix,
        ),
{
    let states = split_states(&columns[feature], indices, n_bins, prefix);
    let mut stats = eval_feature(
        columns,
        targets,
        feature,
        states.as_slice(),
        folds,
        n_bins,
        criterion,
        1,
        prefix,
    );
    let ghost goal = impurity_scores(
        cross_validation::measure::<T, C>(criterion),
        aggregation::ranking(aggregator),
        columns@[feature as int],
        targets@,
        feature,
        indices@,
        cross_validation::fold_views(folds@),
        n_bins as nat,
        prefix,
    );
    let ghost all = stats@;
    assert(all.len() == states@.len()) by {
        assert(cross_validation::stats_views(all).len() == states@.len());
    }
    let mut out: Vec<ScoredCandidate> = Vec::new();
    let mut s: usize = states.len();
    while s > 0
        invariant
            s <= states@.len(),
            all.len() == states@.len(),
            aggregator.applicable(),
            stats@ == all.take(s as int),
            cross_validation::stats_views(all) == cross_validation::gain_stats(
                cross_validation::measure::<T, C>(criterion),
                columns@[feature as int],
                targets@,
                states@,
                cross_validation::fold_views(folds@),
                n_bins as nat,
                1,
                prefix,
            ),
            states@ == candidate::split_states_of(
                columns@[feature as int],
                indices@,
                n_bins as nat,
                prefix,
            ),
            goal == impurity_scores(
                cross_validation::measure::<T, C>(criterion),
                aggregation::ranking(aggregator),
                columns@[feature as int],
                targets@,
                feature,
                indices@,
                cross_validation::fold_views(folds@),
                n_bins as nat,
                prefix,
            ),
            out@.len() == states@.len() - s,
            forall|i: int| 0 <= i < out@.len() ==> #[trigger] out@[i]@ == goal[s + i],
        decreases s,
    {
        match stats.pop() {
            Some(st) => {
                s -= 1;
                assert(st == all[s as int]);
                assert(cross_validation::stats_views(all)[s as int] == st@);
                let score = aggregator.aggregate(&st);
                let ghost later = out@;
                out.insert(
                    0,
                    ScoredCandidate {
                        candidate: Candidate { feature, state: states[s] },
                        score,
                        stats: st,
                    },
                );
                assert forall|i: int| 0 <= i < out@.len() implies #[trigger] out@[i]@ == goal[s
                    + i] by {
                    if i > 0 {
                        assert(out@[i] == later[i - 1]);
                    }
                }
                assert(stats@ =~= all.take(s as int));
            },
            None => {
                assert(false);
            },
        }
    }
    assert(selector::scored_views(out@) =~= goal);
    out
}

/// Class probabilities from class counts: the shares, or zeros when there are no samples.
pub open spec fn shares(counts: Seq<u64>) -> Seq<Float> {
    let n = histogram::sum_of_counts(counts);
    Seq::new(
        counts.len(),
        |c: int|
            if n == 0 {
                Float::zero()
            } else {
                criterion::share(counts[c] as nat, n)
            },
    )
}

/// What a classification leaf predicts that is reached by the given labels.
pub open spec fn class_leaf_of(n_classes: nat, labels: Seq<usize>) -> ClassView {
    let counts = criterion::tallies(labels, n_classes);
    ClassView { class: objective::leader(counts) as usize, proba: shares(counts) }
}

/// A classification leaf predicts the most frequent class, the lowest id on ties; class zero when
/// there are no classes.
pub proof fn law_class_leads(n_classes: nat, labels: Seq<usize>)
    requires
        n_classes <= usize::MAX,
    ensures
        objective::leads(
            criterion::tallies(labels, n_classes),
            class_leaf_of(n_classes, labels).class as nat,
        ),
        class_leaf_of(n_classes, labels).class < n_classes || n_classes == 0 && class_leaf_of(
            n_classes,
            labels,
        ).class == 0,
{
    objective::law_leader_leads(criterion::tallies(labels, n_classes));
}

/// A classification leaf has a probability for each class, from zero to one. When all labels are
/// classes, the probabilities are the shares of counts that add up to the number of labels.
pub proof fn law_class_probabilities(n_classes: nat, labels: Seq<usize>)
    requires
        labels.len() <= u64::MAX,
    ensures
        ({
            let proba = class_leaf_of(n_classes, labels).proba;
            let counts = criterion::tallies(labels, n_classes);
            &&& proba.len() == n_classes
            &&& forall|c: int|
                0 <= c < n_classes ==> Float::at_most(Float::zero(), #[trigger] proba[c])
                    && Float::at_most(proba[c], Float::one())
            &&& labels.len() > 0 && (forall|i: int|
                0 <= i < labels.len() ==> #[trigger] labels[i] < n_classes) ==> {
                &&& histogram::sum_of_counts(counts) == labels.len()
                &&& forall|c: int|
                    0 <= c < n_classes ==> #[trigger] proba[c] == criterion::share(
                        counts[c] as nat,
                        labels.len(),
                    )
            }
        }),
{
    let proba = class_leaf_of(n_classes, labels).proba;
    let counts = criterion::tallies(labels, n_classes);
    histogram::lemma_tallies_sum_bound(labels, n_classes);
    assert forall|c: int| 0 <= c < n_classes implies Float::at_most(
        Float::zero(),
        #[trigger] proba[c],
    ) && Float::at_most(proba[c], Float::one()) by {
        objective::lemma_entry_bound(counts, c);
        if histogram::sum_of_counts(counts) > 0 {
            criterion::law_share_is_a_fraction(
                counts[c] as nat,
                histogram::sum_of_counts(counts),
            );
        }
    }
    if forall|i: int| 0 <= i < labels.len() ==> #[trigger] labels[i] < n_classes {
        histogram::lemma_tallies_sum(labels, n_classes);
    }
}

fn class_leaf(n_classes: usize, labels: &[usize]) -> (r: ClassPrediction)
    ensures
        r@ == class_leaf_of(n_classes as nat, labels@),
{
    let counts = class_counts(labels, n_classes);
    let n: usize = labels.len();
    proof {
        histogram::lemma_tallies_sum_bound(labels@, n_classes as nat);
    }
    let total: u64 = histogram::sum_counts(counts.as_slice());
    let mut proba: Vec<Float> = Vec::new();
    let mut c: usize = 0;
    while c < counts.len()
        invariant
            c <= counts@.len(),
            total == histogram::sum_of_counts(counts@),
            proba@ == shares(counts@).take(c as int),
        decreases counts@.len() - c,
    {
        let p = if total == 0 {
            Float::zero()
        } else {
            Float::from_u64(counts[c]).over(Float::from_u64(total))
        };
        proba.push(p);
        c += 1;
        assert(proba@ =~= shares(counts@).take(c as int));
    }
    assert(proba@ =~= shares(counts@));
    let class: usize = objective::argmax(counts.as_slice());
    ClassPrediction { class, proba }
}

/// A classification prediction in a form that does not depend on the task.
pub open spec fn class_description(prediction: ClassView) -> LeafView {
    LeafView { class: Some(prediction.class), proba: prediction.proba, value: None }
}

fn describe_class(pred: &ClassPrediction) -> (r: LeafInfo)
    ensures
        r@ == class_description(pred@),
{
    LeafInfo { class: Some(pred.class), proba: copy_floats(&pred.proba), value: None }
}

/// A regression prediction in a form that does not depend on the task.
pub open spec fn value_description(prediction: Float) -> LeafView {
    LeafView { class: None, proba: Seq::empty(), value: Some(prediction) }
}

/// A histogram node whose entries can all be read.
proof fn lemma_class_readable(
    codes: Seq<Bin>,
    labels: Seq<usize>,
    order: Seq<SampleId>,
    val_fold: Seq<u8>,
    k: nat,
    bins: nat,
    classes: nat,
)
    requires
        codes.len() == labels.len(),
        samples_within(order, val_fold, codes.len(), k),
    ensures
        histogram::class_node(codes, labels, order, val_fold, bins, classes).readable(k),
{
    let node = histogram::class_node(codes, labels, order, val_fold, bins, classes);
    assert forall|p: int| 0 <= p < node.order.len() implies {
        let s = (#[trigger] node.order[p]) as int;
        &&& s < node.codes.len()
        &&& node.codes[s] != crate::data::MISSING_BIN_CODE && node.codes[s] < node.bins ==> {
            &&& s < node.labels.len()
            &&& node.labels[s] < node.classes ==> p < node.val_fold.len() && node.val_fold[p] < k
        }
    } by {
        assert(order[p] < codes.len());
        assert(val_fold[p] < k);
    }
}

/// All candidates of a scorer are splits of the given feature.
proof fn lemma_features(
    scored: Seq<ScoredCandidate>,
    views: Seq<ScoredView>,
    feature: usize,
)
    requires
        selector::scored_views(scored) == views,
        forall|i: int| 0 <= i < views.len() ==> (#[trigger] views[i]).candidate.feature == feature,
    ensures
        forall|i: int|
            0 <= i < scored.len() ==> (#[trigger] scored[i]).candidate.feature == feature,
{
    assert forall|i: int| 0 <= i < scored.len() implies (#[trigger] scored[i]).candidate.feature
        == feature by {
        assert(selector::scored_views(scored)[i] == scored[i]@);
        assert(views[i].candidate.feature == feature);
    }
}

proof fn lemma_class_features(
    node: histogram::ClassNode,
    kind: ClassImpurityKind,
    rank: spec_fn(StatsView) -> Float,
    feature: usize,
    prefix: bool,
    k: nat,
    b: nat,
)
    ensures
        forall|i: int|
            0 <= i < histogram::class_candidates(node, kind, rank, feature, prefix, k, b).len()
                ==> (#[trigger] histogram::class_candidates(
                node,
                kind,
                rank,
                feature,
                prefix,
                k,
                b,
            )[i]).candidate.feature == feature,
    decreases b,
{
    if b > 0 {
        lemma_class_features(node, kind, rank, feature, prefix, k, (b - 1) as nat);
        let at = (b - 1) as nat;
        let before = histogram::class_candidates(node, kind, rank, feature, prefix, k, at);
        let after = histogram::class_candidates(node, kind, rank, feature, prefix, k, b);
        assert forall|i: int| 0 <= i < after.len() implies (#[trigger] after[i]).candidate.feature
            == feature by {
            if i < before.len() {
                assert(before[i].candidate.feature == feature);
            }
        }
    }
}

proof fn lemma_objective_features(
    node: histogram::ClassNode,
    score: spec_fn(objective::ConfusionView) -> Float,
    rank: spec_fn(StatsView) -> Float,
    feature: usize,
    prefix: bool,
    k: nat,
    b: nat,
)
    ensures
        forall|i: int|
            0 <= i < objective::histogram_candidates(
                node,
                score,
                rank,
                feature,
                prefix,
                k,
                b,
            ).len() ==> (#[trigger] objective::histogram_candidates(
                node,
                score,
                rank,
                feature,
                prefix,
                k,
                b,
            )[i]).candidate.feature == feature,
    decreases b,
{
    if b > 0 {
        lemma_objective_features(node, score, rank, feature, prefix, k, (b - 1) as nat);
        let at = (b - 1) as nat;
        let before = objective::histogram_candidates(
            node,
            score,
            rank,
            feature,
            prefix,
            k,
            at,
        );
        let after = objective::histogram_candidates(
            node,
            score,
            rank,
            feature,
            prefix,
            k,
            b,
        );
        assert forall|i: int| 0 <= i < after.len() implies (#[trigger] after[i]).candidate.feature
            == feature by {
            if i < before.len() {
                assert(before[i].candidate.feature == feature);
            }
        }
    }
}

proof fn lemma_regr_features(
    node: histogram::RegrNode,
    rank: spec_fn(StatsView) -> Float,
    feature: usize,
    prefix: bool,
    k: nat,
    b: nat,
)
    ensures
        forall|i: int|
            0 <= i < histogram::regr_candidates(node, rank, feature, prefix, k, b).len()
                ==> (#[trigger] histogram::regr_candidates(
                node,
                rank,
                feature,
                prefix,
                k,
                b,
            )[i]).candidate.feature == feature,
    decreases b,
{
    if b > 0 {
        lemma_regr_features(node, rank, feature, prefix, k, (b - 1) as nat);
        let at = (b - 1) as nat;
        let before = histogram::regr_candidates(node, rank, feature, prefix, k, at);
        let after = histogram::regr_candidates(node, rank, feature, prefix, k, b);
        assert forall|i: int| 0 <= i < after.len() implies (#[trigger] after[i]).candidate.feature
            == feature by {
            if i < before.len() {
                assert(before[i].candidate.feature == feature);
            }
        }
    }
}

/// Classification by impurity.
pub struct Classification {
    /// Number of classes.
    pub n_classes: usize,
    /// Impurity criterion over class ids.
    pub criterion: Box<dyn Criterion<usize>>,
    /// Impurity computed from class counts on the histogram path.
    pub kind: ClassImpurityKind,
}

impl Classification {
    /// A classifier with Gini impurity.
    pub fn gini(n_classes: usize) -> (r: Classification)
        ensures
            r.n_classes == n_classes,
            r.kind == ClassImpurityKind::Gini,
            forall|t: Seq<usize>| #[trigger]
                r.criterion.impurity_of(t) == (Gini { n_classes }).impurity_of(t),
            r.criterion.label() == (Gini { n_classes }).label(),
    {
        Classification {
            n_classes,
            criterion: Box::new(Gini::new(n_classes)),
            kind: ClassImpurityKind::Gini,
        }
    }

    /// A classifier with Shannon entropy.
    pub fn entropy(n_classes: usize) -> (r: Classification)
        ensures
            r.n_classes == n_classes,
            r.kind == ClassImpurityKind::Entropy,
            forall|t: Seq<usize>| #[trigger]
                r.criterion.impurity_of(t) == (Entropy { n_classes }).impurity_of(t),
            r.criterion.label() == (Entropy { n_classes }).label(),
    {
        Classification {
            n_classes,
            criterion: Box::new(Entropy::new(n_classes)),
            kind: ClassImpurityKind::Entropy,
        }
    }
}

impl Task for Classification {
    type Target = usize;

    type Prediction = ClassPrediction;

    type Criterion = Box<dyn Criterion<usize>>;

    open spec fn leaf_of(&self, targets: Seq<usize>) -> ClassView {
        class_leaf_of(self.n_classes as nat, targets)
    }

    open spec fn description(&self, prediction: ClassView) -> LeafView {
        class_description(prediction)
    }

    open spec fn impurity_of(&self, targets: Seq<usize>) -> Float {
        self.criterion.impurity_of(targets)
    }

    open spec fn histograms(&self) -> bool {
        true
    }

    open spec fn addressable(&self, k: nat, bins: nat) -> bool {
        k * bins * self.n_classes <= usize::MAX
    }

    open spec fn fast_scores(
        &self,
        codes: Seq<Bin>,
        targets: Seq<usize>,
        order: Seq<SampleId>,
        val_fold: Seq<u8>,
        k: nat,
        max_bin: nat,
        feature: usize,
        rank: spec_fn(StatsView) -> Float,
        prefix: bool,
    ) -> Seq<ScoredView> {
        histogram::class_scores(
            histogram::class_node(
                codes,
                targets,
                order,
                val_fold,
                max_bin,
                self.n_classes as nat,
            ),
            self.kind,
            rank,
            feature,
            prefix,
            k,
        )
    }

    open spec fn strict_scores(
        &self,
        column: Column,
        targets: Seq<usize>,
        feature: usize,
        indices: Seq<usize>,
        folds: Seq<FoldView>,
        n_bins: nat,
        rank: spec_fn(StatsView) -> Float,
        prefix: bool,
    ) -> Seq<ScoredView> {
        impurity_scores(
            cross_validation::measure::<usize, Box<dyn Criterion<usize>>>(&self.criterion),
            rank,
            column,
            targets,
            feature,
            indices,
            folds,
            n_bins,
            prefix,
        )
    }

    proof fn smaller_addressable(&self, k: nat, bins: nat, most_folds: nat, most_bins: nat) {
        let classes = self.n_classes as nat;
        assert(k * bins * classes <= most_folds * most_bins * classes) by (nonlinear_arith)
            requires
                k <= most_folds,
                bins <= most_bins,
        ;
    }

    proof fn fast_scores_name_feature(
        &self,
        codes: Seq<Bin>,
        targets: Seq<usize>,
        order: Seq<SampleId>,
        val_fold: Seq<u8>,
        k: nat,
        max_bin: nat,
        feature: usize,
        rank: spec_fn(StatsView) -> Float,
        prefix: bool,
    ) {
        lemma_class_features(
            histogram::class_node(
                codes,
                targets,
                order,
                val_fold,
                max_bin,
                self.n_classes as nat,
            ),
            self.kind,
            rank,
            feature,
            prefix,
            k,
            max_bin,
        );
    }

    proof fn strict_scores_name_feature(
        &self,
        column: Column,
        targets: Seq<usize>,
        feature: usize,
        indices: Seq<usize>,
        folds: Seq<FoldView>,
        n_bins: nat,
        rank: spec_fn(StatsView) -> Float,
        prefix: bool,
    ) {
    }

    fn leaf(&self, targets: &[usize]) -> (r: ClassPrediction) {
        class_leaf(self.n_classes, targets)
    }

    fn describe_leaf(&self, pred: &ClassPrediction) -> (r: LeafInfo) {
        describe_class(pred)
    }

    fn criterion(&self) -> (r: &Self::Criterion) {
        &self.criterion
    }

    fn fast_supported(&self) -> (r: bool) {
        true
    }

    fn score_feature_fast<A: Aggregator + ?Sized>(
        &self,
        codes: &[Bin],
        targets: &[usize],
        order: &[SampleId],
        val_fold: &[u8],
        k: usize,
        max_bin: usize,
        feature: usize,
        aggregator: &A,
        scratch: &mut FastScratch,
        prefix: bool,
    ) -> (r: Vec<ScoredCandidate>) {
        proof {
            lemma_class_readable(
                codes@,
                targets@,
                order@,
                val_fold@,
                k as nat,
                max_bin as nat,
                self.n_classes as nat,
            );
            lemma_class_features(
                histogram::class_node(
                    codes@,
                    targets@,
                    order@,
                    val_fold@,
                    max_bin as nat,
                    self.n_classes as nat,
                ),
                self.kind,
                aggregation::ranking(aggregator),
                feature,
                prefix,
                k as nat,
                max_bin as nat,
            );
        }
        let r = score_classif(
            codes,
            targets,
            order,
            val_fold,
            k,
            max_bin,
            self.n_classes,
            self.kind,
            aggregator,
            feature,
            scratch,
            prefix,
        );
        proof {
            lemma_features(r@, selector::scored_views(r@), feature);
        }
        r
    }

    fn score_feature_strict<A: Aggregator + ?Sized>(
        &self,
        columns: &[Column],
        targets: &[usize],
        feature: usize,
        indices: &[usize],
        folds: &[Fold],
        n_bins: usize,
        aggregator: &A,
        prefix: bool,
    ) -> (r: Vec<ScoredCandidate>) {
        let r = score_by_impurity(
            &self.criterion,
            columns,
            targets,
            feature,
            indices,
            folds,
            n_bins,
            aggregator,
            prefix,
        );
        proof {
            lemma_features(r@, selector::scored_views(r@), feature);
        }
        r
    }
}

/// Classification that selects splits by a metric on held-out folds.
pub struct ObjectiveClassification<O: ClassObjective = Box<dyn ClassObjective>> {
    /// Number of classes.
    pub n_classes: usize,
    /// Decides whether a node is pure; it takes no part in scoring splits.
    pub gini: Gini,
    /// The metric to improve.
    pub objective: O,
}

impl<O: ClassObjective> ObjectiveClassification<O> {
    /// A classifier for a metric of a known type.
    pub fn with_objective(n_classes: usize, objective: O) -> (r: ObjectiveClassification<O>)
        ensures
            r.n_classes == n_classes,
            r.objective == objective,
            r.gini.n_classes == n_classes,
    {
        ObjectiveClassification { n_classes, gini: Gini::new(n_classes), objective }
    }
}

impl ObjectiveClassification {
    /// A classifier for any metric.
    pub fn new(n_classes: usize, objective: Box<dyn ClassObjective>) -> (r: ObjectiveClassification)
        ensures
            r.n_classes == n_classes,
            r.objective == objective,
            r.gini.n_classes == n_classes,
    {
        let task = ObjectiveClassification::with_objective(n_classes, objective);
        task
    }

    /// Improves F1.
    pub fn f1(n_classes: usize, average: Average) -> (r: ObjectiveClassification)
        ensures
            r.n_classes == n_classes,
            r.gini.n_classes == n_classes,
            forall|cm: ConfusionView| #[trigger]
                r.objective.score_of(cm) == (F1 { average }).score_of(cm),
            r.objective.label() == (F1 { average }).label(),
    {
        let metric: Box<dyn ClassObjective> = Box::new(F1 { average });
        let task = ObjectiveClassification::with_objective(n_classes, metric);
        task
    }

    /// Improves precision.
    pub fn precision(n_classes: usize, average: Average) -> (r: ObjectiveClassification)
        ensures
            r.n_classes == n_classes,
            r.gini.n_classes == n_classes,
            forall|cm: ConfusionView| #[trigger]
                r.objective.score_of(cm) == (Precision { average }).score_of(cm),
            r.objective.label() == (Precision { average }).label(),
    {
        let metric: Box<dyn ClassObjective> = Box::new(Precision { average });
        let task = ObjectiveClassification::with_objective(n_classes, metric);
        task
    }

    /// Improves recall.
    pub fn recall(n_classes: usize, average: Average) -> (r: ObjectiveClassification)
        ensures
            r.n_classes == n_classes,
            r.gini.n_classes == n_classes,
            forall|cm: ConfusionView| #[trigger]
                r.objective.score_of(cm) == (Recall { average }).score_of(cm),
            r.objective.label() == (Recall { average }).label(),
    {
        let metric: Box<dyn ClassObjective> = Box::new(Recall { average });
        let task = ObjectiveClassification::with_objective(n_classes, metric);
        task
    }

    /// Improves F-beta.
    pub fn fbeta(n_classes: usize, beta: Float, average: Average) -> (r: ObjectiveClassification)
        ensures
            r.n_classes == n_classes,
            r.gini.n_classes == n_classes,
            forall|cm: ConfusionView| #[trigger]
                r.objective.score_of(cm) == (FBeta { beta, average }).score_of(cm),
            r.objective.label() == (FBeta { beta, average }).label(),
    {
        let metric: Box<dyn ClassObjective> = Box::new(FBeta { beta, average });
        let task = ObjectiveClassification::with_objective(n_classes, metric);
        task
    }

    /// Improves accuracy.
    pub fn accuracy(n_classes: usize) -> (r: ObjectiveClassification)
        ensures
            r.n_classes == n_classes,
            r.gini.n_classes == n_classes,
            forall|cm: ConfusionView| #[trigger]
                r.objective.score_of(cm) == Accuracy.score_of(cm),
            r.objective.label() == Accuracy.label(),
    {
        let metric: Box<dyn ClassObjective> = Box::new(Accuracy);
        let task = ObjectiveClassification::with_objective(n_classes, metric);
        task
    }
}

impl<O: ClassObjective> Task for ObjectiveClassification<O> {
    type Target = usize;

    type Prediction = ClassPrediction;

    type Criterion = Gini;

    open spec fn leaf_of(&self, targets: Seq<usize>) -> ClassView {
        class_leaf_of(self.n_classes as nat, targets)
    }

    open spec fn description(&self, prediction: ClassView) -> LeafView {
        class_description(prediction)
    }

    open spec fn impurity_of(&self, targets: Seq<usize>) -> Float {
        self.gini.impurity_of(targets)
    }

    open spec fn histograms(&self) -> bool {
        true
    }

    open spec fn addressable(&self, k: nat, bins: nat) -> bool {
        k * bins * self.n_classes <= usize::MAX
    }

    open spec fn fast_scores(
        &self,
        codes: Seq<Bin>,
        targets: Seq<usize>,
        order: Seq<SampleId>,
        val_fold: Seq<u8>,
        k: nat,
        max_bin: nat,
        feature: usize,
        rank: spec_fn(StatsView) -> Float,
        prefix: bool,
    ) -> Seq<ScoredView> {
        objective::histogram_scores(
            histogram::class_node(
                codes,
                targets,
                order,
                val_fold,
                max_bin,
                self.n_classes as nat,
            ),
            objective::scoring(&self.objective),
            rank,
            feature,
            prefix,
            k,
        )
    }

    open spec fn strict_scores(
        &self,
        column: Column,
        targets: Seq<usize>,
        feature: usize,
        indices: Seq<usize>,
        folds: Seq<FoldView>,
        n_bins: nat,
        rank: spec_fn(StatsView) -> Float,
        prefix: bool,
    ) -> Seq<ScoredView> {
        objective::objective_scores(
            objective::scoring(&self.objective),
            rank,
            column,
            targets,
            feature,
            indices,
            folds,
            n_bins,
            self.n_classes as nat,
            prefix,
        )
    }

    proof fn smaller_addressable(&self, k: nat, bins: nat, most_folds: nat, most_bins: nat) {
        let classes = self.n_classes as nat;
        assert(k * bins * classes <= most_folds * most_bins * classes) by (nonlinear_arith)
            requires
                k <= most_folds,
                bins <= most_bins,
        ;
    }

    proof fn fast_scores_name_feature(
        &self,
        codes: Seq<Bin>,
        targets: Seq<usize>,
        order: Seq<SampleId>,
        val_fold: Seq<u8>,
        k: nat,
        max_bin: nat,
        feature: usize,
        rank: spec_fn(StatsView) -> Float,
        prefix: bool,
    ) {
        lemma_objective_features(
            histogram::class_node(
                codes,
                targets,
                order,
                val_fold,
                max_bin,
                self.n_classes as nat,
            ),
            objective::scoring(&self.objective),
            rank,
            feature,
            prefix,
            k,
            max_bin,
        );
    }

    proof fn strict_scores_name_feature(
        &self,
        column: Column,
        targets: Seq<usize>,
        feature: usize,
        indices: Seq<usize>,
        folds: Seq<FoldView>,
        n_bins: nat,
        rank: spec_fn(StatsView) -> Float,
        prefix: bool,
    ) {
    }

    fn leaf(&self, targets: &[usize]) -> (r: ClassPrediction) {
        class_leaf(self.n_classes, targets)
    }

    fn describe_leaf(&self, pred: &ClassPrediction) -> (r: LeafInfo) {
        describe_class(pred)
    }

    fn criterion(&self) -> (r: &Gini) {
        &self.gini
    }

    fn fast_supported(&self) -> (r: bool) {
        true
    }

    fn score_feature_fast<A: Aggregator + ?Sized>(
        &self,
        codes: &[Bin],
        targets: &[usize],
        order: &[SampleId],
        val_fold: &[u8],
        k: usize,
        max_bin: usize,
        feature: usize,
        aggregator: &A,
        scratch: &mut FastScratch,
        prefix: bool,
    ) -> (r: Vec<ScoredCandidate>) {
        proof {
            lemma_class_readable(
                codes@,
                targets@,
                order@,
                val_fold@,
                k as nat,
                max_bin as nat,
                self.n_classes as nat,
            );
            lemma_objective_features(
                histogram::class_node(
                    codes@,
                    targets@,
                    order@,
                    val_fold@,
                    max_bin as nat,
                    self.n_classes as nat,
                ),
                objective::scoring(&self.objective),
                aggregation::ranking(aggregator),
                feature,
                prefix,
                k as nat,
                max_bin as nat,
            );
        }
        let r = score_classif_objective(
            codes,
            targets,
            order,
            val_fold,
            k,
            max_bin,
            self.n_classes,
            &self.objective,
            aggregator,
            feature,
            scratch,
            prefix,
        );
        proof {
            lemma_features(r@, selector::scored_views(r@), feature);
        }
        r
    }

    fn score_feature_strict<A: Aggregator + ?Sized>(
        &self,
        columns: &[Column],
        targets: &[usize],
        feature: usize,
        indices: &[usize],
        folds: &[Fold],
        n_bins: usize,
        aggregator: &A,
        prefix: bool,
    ) -> (r: Vec<ScoredCandidate>) {
        let r = eval_feature_objective(
            columns,
            targets,
            feature,
            indices,
            folds,
            n_bins,
            self.n_classes,
            &self.objective,
            aggregator,
            prefix,
        );
        proof {
            lemma_features(r@, selector::scored_views(r@), feature);
        }
        r
    }
}

/// Regression.
pub struct Regression {
    /// Impurity criterion over responses.
    pub criterion: Box<dyn Criterion<Float>>,
}

impl Regression {
    /// A regressor with mean squared error.
    pub fn mse() -> (r: Regression)
        ensures
            forall|t: Seq<Float>| #[trigger] r.criterion.impurity_of(t) == Mse.impurity_of(t),
            r.criterion.label() == Mse.label(),
    {
        Regression { criterion: Box::new(Mse) }
    }

    /// A regressor with variance, which is the mean squared error.
    pub fn variance() -> (r: Regression)
        ensures
            forall|t: Seq<Float>| #[trigger] r.criterion.impurity_of(t) == Variance.impurity_of(t),
            r.criterion.label() == Variance.label(),
    {
        Regression { criterion: Box::new(Variance) }
    }

    /// A regressor with mean absolute error.
    pub fn mae() -> (r: Regression)
        ensures
            forall|t: Seq<Float>| #[trigger] r.criterion.impurity_of(t) == Mae.impurity_of(t),
            r.criterion.label() == Mae.label(),
    {
        Regression { criterion: Box::new(Mae) }
    }
}

impl Task for Regression {
    type Target = Float;

    type Prediction = Float;

    type Criterion = Box<dyn Criterion<Float>>;

    open spec fn leaf_of(&self, targets: Seq<Float>) -> Float {
        if targets.len() == 0 {
            Float::zero()
        } else {
            statistics::mean_of(targets)
        }
    }

    open spec fn description(&self, prediction: Float) -> LeafView {
        value_description(prediction)
    }

    open spec fn impurity_of(&self, targets: Seq<Float>) -> Float {
        self.criterion.impurity_of(targets)
    }

    /// The median of absolute errors cannot be found from sums.
    open spec fn histograms(&self) -> bool {
        self.criterion.label() != "mae"@
    }

    open spec fn addressable(&self, k: nat, bins: nat) -> bool {
        k * bins <= usize::MAX
    }

    open spec fn fast_scores(
        &self,
        codes: Seq<Bin>,
        targets: Seq<Float>,
        order: Seq<SampleId>,
        val_fold: Seq<u8>,
        k: nat,
        max_bin: nat,
        feature: usize,
        rank: spec_fn(StatsView) -> Float,
        prefix: bool,
    ) -> Seq<ScoredView> {
        histogram::regr_scores(
            histogram::regr_node(codes, targets, order, val_fold, max_bin),
            rank,
            feature,
            prefix,
            k,
        )
    }

    open spec fn strict_scores(
        &self,
        column: Column,
        targets: Seq<Float>,
        feature: usize,
        indices: Seq<usize>,
        folds: Seq<FoldView>,
        n_bins: nat,
        rank: spec_fn(StatsView) -> Float,
        prefix: bool,
    ) -> Seq<ScoredView> {
        impurity_scores(
            cross_validation::measure::<Float, Box<dyn Criterion<Float>>>(&self.criterion),
            rank,
            column,
            targets,
            feature,
            indices,
            folds,
            n_bins,
            prefix,
        )
    }

    proof fn smaller_addressable(&self, k: nat, bins: nat, most_folds: nat, most_bins: nat) {
        assert(k * bins <= most_folds * most_bins) by (nonlinear_arith)
            requires
                k <= most_folds,
                bins <= most_bins,
        ;
    }

    proof fn fast_scores_name_feature(
        &self,
        codes: Seq<Bin>,
        targets: Seq<Float>,
        order: Seq<SampleId>,
        val_fold: Seq<u8>,
        k: nat,
        max_bin: nat,
        feature: usize,
        rank: spec_fn(StatsView) -> Float,
        prefix: bool,
    ) {
        lemma_regr_features(
            histogram::regr_node(codes, targets, order, val_fold, max_bin),
            rank,
            feature,
            prefix,
            k,
            max_bin,
        );
    }

    proof fn strict_scores_name_feature(
        &self,
        column: Column,
        targets: Seq<Float>,
        feature: usize,
        indices: Seq<usize>,
        folds: Seq<FoldView>,
        n_bins: nat,
        rank: spec_fn(StatsView) -> Float,
        prefix: bool,
    ) {
    }

    fn leaf(&self, targets: &[Float]) -> (r: Float) {
        if targets.len() == 0 {
            Float::zero()
        } else {
            statistics::mean(targets)
        }
    }

    fn describe_leaf(&self, pred: &Float) -> (r: LeafInfo) {
        LeafInfo { class: None, proba: Vec::new(), value: Some(*pred) }
    }

    fn criterion(&self) -> (r: &Self::Criterion) {
        &self.criterion
    }

    fn fast_supported(&self) -> (r: bool) {
        !text::same_text(self.criterion.name(), "mae")
    }

    fn score_feature_fast<A: Aggregator + ?Sized>(
        &self,
        codes: &[Bin],
        targets: &[Float],
        order: &[SampleId],
        val_fold: &[u8],
        k: usize,
        max_bin: usize,
        feature: usize,
        aggregator: &A,
        scratch: &mut FastScratch,
        prefix: bool,
    ) -> (r: Vec<ScoredCandidate>) {
        let ghost node = histogram::regr_node(
            codes@,
            targets@,
            order@,
            val_fold@,
            max_bin as nat,
        );
        proof {
            assert forall|p: int| 0 <= p < node.order.len() implies {
                let s = (#[trigger] node.order[p]) as int;
                &&& s < node.codes.len()
                &&& node.counted(p) ==> s < node.targets.len() && p < node.val_fold.len()
                    && node.val_fold[p] < k
            } by {
                assert(order@[p] < codes@.len());
                assert(val_fold@[p] < k);
            }
            lemma_regr_features(
                node,
                aggregation::ranking(aggregator),
                feature,
                prefix,
                k as nat,
                max_bin as nat,
            );
        }
        let r = score_regr(
            codes,
            targets,
            order,
            val_fold,
            k,
            max_bin,
            aggregator,
            feature,
            scratch,
            prefix,
        );
        proof {
            lemma_features(r@, selector::scored_views(r@), feature);
        }
        r
    }

    fn score_feature_strict<A: Aggregator + ?Sized>(
        &self,
        columns: &[Column],
        targets: &[Float],
        feature: usize,
        indices: &[usize],
        folds: &[Fold],
        n_bins: usize,
        aggregator: &A,
        prefix: bool,
    ) -> (r: Vec<ScoredCandidate>) {
        let r = score_by_impurity(
            &self.criterion,
            columns,
            targets,
            feature,
            indices,
            folds,
            n_bins,
            aggregator,
            prefix,
        );
        proof {
            lemma_features(r@, selector::scored_views(r@), feature);
        }
        r
    }
}

} // verus!
