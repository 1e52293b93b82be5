//! Scoring from histograms agrees with scoring from columns where no cut points are fit: on a
//! categorical feature whose bin codes are its category ids.

use crate::candidate;
use crate::candidate::Candidate;
use crate::criterion::{Entropy, Gini};
use crate::cross_validation;
use crate::cross_validation::{KFold, StatsView};
use crate::data::{Bin, CatId, Column, SampleId};
use crate::float::Float;
use crate::histogram;
use crate::histogram::{ClassImpurityKind, ClassNode};
use crate::objective;
use crate::objective::ConfusionView;
use vstd::prelude::*;
use vstd::seq_lib::*;

verus! {

/// A categorical feature of labelled samples, with the bin codes of its values.
pub struct CodedFeature {
    pub cats: Seq<CatId>,
    pub codes: Seq<Bin>,
    pub labels: Seq<usize>,
    pub bins: nat,
    pub classes: nat,
}

impl CodedFeature {
    /// Whether sample `s` has its category id as bin code and a class as label.
    pub open spec fn sample_agrees(self, s: usize) -> bool {
        &&& s <= u32::MAX
        &&& s < self.cats.len()
        &&& s < self.codes.len()
        &&& s < self.labels.len()
        &&& self.codes[s as int] as u32 == self.cats[s as int]
        &&& self.cats[s as int] < self.bins
        &&& self.labels[s as int] < self.classes
    }

    /// Whether the bin codes of the given samples are their category ids and their labels are
    /// classes.
    pub open spec fn agrees(self, indices: Seq<usize>) -> bool {
        &&& self.bins <= 0xffff
        &&& forall|i: int| 0 <= i < indices.len() ==> self.sample_agrees(#[trigger] indices[i])
    }

    /// The node that histogram scoring sees when the given samples are assigned to folds.
    pub open spec fn node(self, kf: KFold, indices: Seq<usize>) -> ClassNode {
        histogram::class_node(
            self.codes,
            self.labels,
            Seq::new(indices.len(), |p: int| kf.arranged(indices)[p] as SampleId),
            cross_validation::fold_ids(indices.len(), kf.compact_count(indices.len())),
            self.bins,
            self.classes,
        )
    }
}

/// The arranged samples are the given samples.
proof fn lemma_arranged_members(kf: KFold, indices: Seq<usize>)
    requires
        indices.len() <= u64::MAX,
    ensures
        kf.arranged(indices).len() == indices.len(),
        forall|p: int|
            0 <= p < indices.len() ==> indices.contains(#[trigger] kf.arranged(indices)[p]),
        forall|i: int|
            0 <= i < indices.len() ==> kf.arranged(indices).contains(#[trigger] indices[i]),
{
    broadcast use group_to_multiset_ensures;

    let order = kf.arranged(indices);
    cross_validation::law_arranged_permutes(kf, indices);
    assert forall|p: int| 0 <= p < indices.len() implies indices.contains(#[trigger] order[p]) by {
        assert(order.contains(order[p]));
        assert(order.to_multiset().count(order[p]) > 0);
    }
    assert forall|i: int| 0 <= i < indices.len() implies order.contains(#[trigger] indices[i]) by {
        assert(indices.contains(indices[i]));
        assert(indices.to_multiset().count(indices[i]) > 0);
    }
}

/// What stands in fold `f` among the first `m` samples in fold order: a run of validation samples,
/// and the samples before and after it for training.
proof fn lemma_fold_prefix(
    feature: CodedFeature,
    kf: KFold,
    indices: Seq<usize>,
    f: nat,
    m: nat,
)
    requires
        feature.agrees(indices),
        m <= indices.len() <= u64::MAX,
        f < kf.fold_count(indices.len()) <= 255,
    ensures
        ({
            let node = feature.node(kf, indices);
            let order = kf.arranged(indices);
            let n = indices.len();
            let k = kf.fold_count(n);
            let a = cross_validation::fold_start(n, k, f) as int;
            let b = cross_validation::fold_start(n, k, f + 1) as int;
            let val = if m < a {
                order.subrange(a, a)
            } else if m < b {
                order.subrange(a, m as int)
            } else {
                order.subrange(a, b)
            };
            let train = if m < a {
                order.subrange(0, m as int)
            } else if m < b {
                order.subrange(0, a)
            } else {
                order.subrange(0, a) + order.subrange(b, m as int)
            };
            &&& node.labels_to(f, m) == cross_validation::pick(feature.labels, val)
            &&& node.bins_to(f, m) == cross_validation::pick(feature.cats, val)
            &&& node.train_labels_to(f, m) == cross_validation::pick(feature.labels, train)
            &&& node.train_bins_to(f, m) == cross_validation::pick(feature.cats, train)
        }),
    decreases m,
{
    let node = feature.node(kf, indices);
    let order = kf.arranged(indices);
    let n = indices.len();
    let k = kf.fold_count(n);
    let a = cross_validation::fold_start(n, k, f) as int;
    let b = cross_validation::fold_start(n, k, f + 1) as int;
    cross_validation::lemma_fold_range(n, k, f);
    lemma_arranged_members(kf, indices);
    if m == 0 {
        let none = Seq::<usize>::empty();
        assert(order.subrange(a, a) =~= none);
        assert(order.subrange(0, 0) =~= none);
        assert(a == 0 ==> order.subrange(0, a) =~= none);
        assert(b == 0 ==> order.subrange(a, b) =~= none);
        assert(b == 0 ==> order.subrange(0, a) + order.subrange(b, 0) =~= none);
        assert(cross_validation::pick(feature.labels, none) =~= Seq::empty());
        assert(cross_validation::pick(feature.cats, none) =~= Seq::empty());
    } else {
        let p = (m - 1) as nat;
        lemma_fold_prefix(feature, kf, indices, f, p);
        let s = order[p as int];
        assert(indices.contains(s));
        assert(feature.sample_agrees(s));
        assert(node.order[p as int] as int == s);
        let g = cross_validation::law_fold_exists(n, k, p);
        let h = cross_validation::fold_of(n, k, p);
        assert(cross_validation::fold_holds(n, k, h, p));
        assert(node.val_fold[p as int] == h);
        if a <= p < b {
            cross_validation::law_fold_is_unique(n, k, f, h, p);
            let before = order.subrange(a, p as int);
            let after = order.subrange(a, m as int);
            assert(after =~= before.push(s));
            assert(cross_validation::pick(feature.labels, after) =~= cross_validation::pick(
                feature.labels,
                before,
            ).push(feature.labels[s as int]));
            assert(cross_validation::pick(feature.cats, after) =~= cross_validation::pick(
                feature.cats,
                before,
            ).push(feature.cats[s as int]));
            assert(order.subrange(0, a) + order.subrange(b, b) =~= order.subrange(0, a));
        } else {
            assert(h != f);
            let before = if p < a {
                order.subrange(0, p as int)
            } else {
                order.subrange(0, a) + order.subrange(b, p as int)
            };
            let after = if p < a {
                order.subrange(0, m as int)
            } else {
                order.subrange(0, a) + order.subrange(b, m as int)
            };
            assert(after =~= before.push(s));
            assert(cross_validation::pick(feature.labels, after) =~= cross_validation::pick(
                feature.labels,
                before,
            ).push(feature.labels[s as int]));
            assert(cross_validation::pick(feature.cats, after) =~= cross_validation::pick(
                feature.cats,
                before,
            ).push(feature.cats[s as int]));
            assert(b == m ==> order.subrange(0, a) + order.subrange(b, b) =~= order.subrange(0, a));
        }
    }
}

/// The samples that histogram scoring counts in a fold are those of the fold.
proof fn lemma_fold_contents(feature: CodedFeature, kf: KFold, indices: Seq<usize>, f: nat)
    requires
        feature.agrees(indices),
        indices.len() <= u64::MAX,
        f < kf.fold_count(indices.len()) <= 255,
    ensures
        ({
            let node = feature.node(kf, indices);
            let fold = kf.folds_of(indices)[f as int];
            let n = indices.len();
            &&& node.labels_to(f, n) == cross_validation::pick(feature.labels, fold.val)
            &&& node.bins_to(f, n) == cross_validation::pick(feature.cats, fold.val)
            &&& node.train_labels_to(f, n) == cross_validation::pick(feature.labels, fold.train)
            &&& node.train_bins_to(f, n) == cross_validation::pick(feature.cats, fold.train)
        }),
{
    let n = indices.len();
    lemma_arranged_members(kf, indices);
    cross_validation::lemma_fold_range(n, kf.fold_count(n), f);
    lemma_fold_prefix(feature, kf, indices, f, n);
}

/// A bin is occupied exactly when some sample has its category.
proof fn lemma_occupied(feature: CodedFeature, kf: KFold, indices: Seq<usize>, b: nat)
    requires
        feature.agrees(indices),
        b < feature.bins,
        indices.len() <= u64::MAX,
        kf.fold_count(indices.len()) <= 255,
    ensures
        feature.node(kf, indices).occupied(b, kf.fold_count(indices.len()))
            <==> cross_validation::pick(feature.cats, indices).contains(b as u32),
{
    let node = feature.node(kf, indices);
    let order = kf.arranged(indices);
    let n = indices.len();
    let k = kf.fold_count(n);
    let here = cross_validation::pick(feature.cats, indices);
    lemma_arranged_members(kf, indices);
    if node.occupied(b, k) {
        let f = choose|f: nat| f < k && (#[trigger] node.bins_in(f)).contains(b as u32);
        lemma_fold_contents(feature, kf, indices, f);
        cross_validation::lemma_fold_range(n, k, f);
        let start = cross_validation::fold_start(n, k, f) as int;
        let val = kf.folds_of(indices)[f as int].val;
        let i = choose|i: int| 0 <= i < node.bins_in(f).len() && node.bins_in(f)[i] == b as u32;
        assert(val[i] == order[start + i]);
        assert(indices.contains(order[start + i]));
        let j = choose|j: int| 0 <= j < n && indices[j] == order[start + i];
        assert(here[j] == b as u32);
    }
    if here.contains(b as u32) {
        let i = choose|i: int| 0 <= i < here.len() && here[i] == b as u32;
        assert(order.contains(indices[i]));
        let p = choose|p: int| 0 <= p < n && order[p] == indices[i];
        let f = cross_validation::law_fold_exists(n, k, p as nat);
        lemma_fold_contents(feature, kf, indices, f);
        cross_validation::lemma_fold_range(n, k, f);
        let start = cross_validation::fold_start(n, k, f) as int;
        let val = kf.folds_of(indices)[f as int].val;
        assert(val[p - start] == order[p]);
        assert(node.bins_in(f)[p - start] == b as u32);
        assert(node.bins_in(f).contains(b as u32));
    }
}

/// The occupied bins below `b`, in rising order.
spec fn occupied_below(node: ClassNode, k: nat, b: nat) -> Seq<u32>
    decreases b,
{
    if b == 0 {
        Seq::empty()
    } else {
        let before = occupied_below(node, k, (b - 1) as nat);
        if node.occupied((b - 1) as nat, k) {
            before.push((b - 1) as u32)
        } else {
            before
        }
    }
}

proof fn lemma_occupied_below(node: ClassNode, k: nat, b: nat)
    requires
        b <= u32::MAX,
    ensures
        candidate::rising(occupied_below(node, k, b)),
        forall|x: u32| #[trigger]
            occupied_below(node, k, b).contains(x) <==> x < b && node.occupied(x as nat, k),
    decreases b,
{
    if b > 0 {
        let at = (b - 1) as nat;
        let before = occupied_below(node, k, at);
        let after = occupied_below(node, k, b);
        lemma_occupied_below(node, k, at);
        assert forall|i: int| 0 <= i < before.len() implies #[trigger] before[i] < at by {
            assert(before.contains(before[i]));
        }
        assert forall|x: u32| #[trigger] after.contains(x) <==> x < b && node.occupied(
            x as nat,
            k,
        ) by {
            if after.contains(x) {
                let i = choose|i: int| 0 <= i < after.len() && after[i] == x;
                if i < before.len() {
                    assert(before[i] == x);
                    assert(before.contains(x));
                }
            }
            if x < at && node.occupied(x as nat, k) {
                assert(before.contains(x));
                let i = choose|i: int| 0 <= i < before.len() && before[i] == x;
                assert(after[i] == x);
            }
            if x == at && node.occupied(at, k) {
                assert(after[after.len() - 1] == x);
            }
        }
    } else {
        assert(occupied_below(node, k, b) =~= Seq::empty());
    }
}

/// The occupied bins are the states of the column.
proof fn lemma_states(
    feature: CodedFeature,
    kf: KFold,
    column: Column,
    indices: Seq<usize>,
    n_bins: nat,
)
    requires
        column matches Column::Categorical(c) && c@ == feature.cats,
        feature.agrees(indices),
        indices.len() <= u64::MAX,
        kf.fold_count(indices.len()) <= 255,
    ensures
        occupied_below(
            feature.node(kf, indices),
            kf.fold_count(indices.len()),
            feature.bins,
        ) == candidate::states_of(column, indices, n_bins),
{
    let node = feature.node(kf, indices);
    let k = kf.fold_count(indices.len());
    let list = occupied_below(node, k, feature.bins);
    let states = candidate::states_of(column, indices, n_bins);
    let here = cross_validation::pick(feature.cats, indices);
    lemma_occupied_below(node, k, feature.bins);
    candidate::law_states(column, indices, n_bins);
    assert forall|x: u32| #[trigger] list.contains(x) <==> states.contains(x) by {
        if x < feature.bins {
            lemma_occupied(feature, kf, indices, x as nat);
        } else if here.contains(x) {
            let i = choose|i: int| 0 <= i < here.len() && here[i] == x;
            assert(feature.sample_agrees(indices[i]));
        }
    }
    candidate::law_list_is_unique(list, states, states);
}

/// The impurity decreases from histograms are those from the column.
proof fn lemma_gains(
    feature: CodedFeature,
    kf: KFold,
    column: Column,
    indices: Seq<usize>,
    n_bins: nat,
    kind: ClassImpurityKind,
    state: u32,
    j: nat,
)
    requires
        column matches Column::Categorical(c) && c@ == feature.cats,
        feature.agrees(indices),
        indices.len() <= u64::MAX,
        j <= kf.fold_count(indices.len()) <= 255,
    ensures
        histogram::class_gains(feature.node(kf, indices), kind, state as nat, false, j)
            == cross_validation::fold_gains(
            histogram::class_measure(kind, feature.classes),
            column,
            feature.labels,
            state,
            kf.folds_of(indices).take(j as int),
            n_bins,
            1,
            false,
        ),
    decreases j,
{
    let folds = kf.folds_of(indices);
    if j > 0 {
        let f = (j - 1) as nat;
        lemma_gains(feature, kf, column, indices, n_bins, kind, state, f);
        lemma_fold_contents(feature, kf, indices, f);
        assert(folds.take(j as int).drop_last() =~= folds.take(f as int));
        assert(folds.take(j as int).last() == folds[f as int]);
    }
}

/// The improvements of a metric from histograms are those from the column.
proof fn lemma_improvements(
    feature: CodedFeature,
    kf: KFold,
    column: Column,
    indices: Seq<usize>,
    n_bins: nat,
    score: spec_fn(ConfusionView) -> Float,
    state: u32,
    j: nat,
)
    requires
        column matches Column::Categorical(c) && c@ == feature.cats,
        feature.agrees(indices),
        indices.len() <= u64::MAX,
        j <= kf.fold_count(indices.len()) <= 255,
    ensures
        objective::histogram_gains(feature.node(kf, indices), score, state as nat, false, j)
            == objective::objective_gains(
            score,
            column,
            feature.labels,
            state,
            kf.folds_of(indices).take(j as int),
            n_bins,
            feature.classes,
            false,
        ),
    decreases j,
{
    let folds = kf.folds_of(indices);
    if j > 0 {
        let f = (j - 1) as nat;
        lemma_improvements(feature, kf, column, indices, n_bins, score, state, f);
        lemma_fold_contents(feature, kf, indices, f);
        assert(folds.take(j as int).drop_last() =~= folds.take(f as int));
        assert(folds.take(j as int).last() == folds[f as int]);
        histogram::lemma_tallies_sum(Seq::empty(), feature.classes);
    }
}

/// The candidates among the first `b` bins are the occupied ones.
proof fn lemma_class_candidates(
    node: ClassNode,
    kind: ClassImpurityKind,
    rank: spec_fn(StatsView) -> Float,
    feature: usize,
    k: nat,
    b: nat,
)
    requires
        b <= u32::MAX,
    ensures
        ({
            let list = occupied_below(node, k, b);
            histogram::class_candidates(node, kind, rank, feature, false, k, b) == Seq::new(
                list.len(),
                |i: int|
                    histogram::scored_as(
                        feature,
                        list[i],
                        histogram::class_gains(node, kind, list[i] as nat, false, k),
                        k,
                        rank,
                    ),
            )
        }),
    decreases b,
{
    let list = occupied_below(node, k, b);
    let goal = Seq::new(
        list.len(),
        |i: int|
            histogram::scored_as(
                feature,
                list[i],
                histogram::class_gains(node, kind, list[i] as nat, false, k),
                k,
                rank,
            ),
    );
    if b > 0 {
        lemma_class_candidates(node, kind, rank, feature, k, (b - 1) as nat);
    }
    assert(histogram::class_candidates(node, kind, rank, feature, false, k, b) =~= goal);
}

/// The candidates among the first `b` bins are the occupied ones.
proof fn lemma_objective_candidates(
    node: ClassNode,
    score: spec_fn(ConfusionView) -> Float,
    rank: spec_fn(StatsView) -> Float,
    feature: usize,
    k: nat,
    b: nat,
)
    requires
        b <= u32::MAX,
    ensures
        ({
            let list = occupied_below(node, k, b);
            objective::histogram_candidates(node, score, rank, feature, false, k, b) == Seq::new(
                list.len(),
                |i: int|
                    histogram::scored_as(
                        feature,
                        list[i],
                        objective::histogram_gains(node, score, list[i] as nat, false, k),
                        k,
                        rank,
                    ),
            )
        }),
    decreases b,
{
    let list = occupied_below(node, k, b);
    let goal = Seq::new(
        list.len(),
        |i: int|
            histogram::scored_as(
                feature,
                list[i],
                objective::histogram_gains(node, score, list[i] as nat, false, k),
                k,
                rank,
            ),
    );
    if b > 0 {
        lemma_objective_candidates(node, score, rank, feature, k, (b - 1) as nat);
    }
    assert(objective::histogram_candidates(node, score, rank, feature, false, k, b) =~= goal);
}

/// The impurity criterion of a kind, as a function.
pub open spec fn impurity_measure(kind: ClassImpurityKind, n_classes: usize) -> spec_fn(
    Seq<usize>,
) -> Float {
    match kind {
        ClassImpurityKind::Gini => cross_validation::measure::<usize, Gini>(&Gini { n_classes }),
        ClassImpurityKind::Entropy => cross_validation::measure::<usize, Entropy>(
            &Entropy { n_classes },
        ),
    }
}

/// On a categorical feature whose bin codes are its category ids, impurity scores from histograms
/// are those from the column: the candidates are the states of the column in their order, each with
/// the summary of its fold scores.
pub proof fn law_impurity_paths_agree(
    coded: CodedFeature,
    kf: KFold,
    column: Column,
    indices: Seq<usize>,
    n_bins: nat,
    n_classes: usize,
    kind: ClassImpurityKind,
    rank: spec_fn(StatsView) -> Float,
    feature: usize,
)
    requires
        column matches Column::Categorical(c) && c@ == coded.cats,
        coded.agrees(indices),
        coded.classes == n_classes,
        indices.len() <= u64::MAX,
        kf.fold_count(indices.len()) <= 255,
    ensures
        ({
            let states = candidate::states_of(column, indices, n_bins);
            let scores = histogram::class_scores(
                coded.node(kf, indices),
                kind,
                rank,
                feature,
                false,
                kf.compact_count(indices.len()),
            );
            let stats = cross_validation::gain_stats(
                impurity_measure(kind, n_classes),
                column,
                coded.labels,
                states,
                kf.folds_of(indices),
                n_bins,
                1,
                false,
            );
            &&& scores.len() == states.len()
            &&& forall|j: int|
                0 <= j < states.len() ==> {
                    &&& (#[trigger] scores[j]).candidate == (Candidate {
                        feature,
                        state: states[j],
                    })
                    &&& scores[j].stats == stats[j]
                    &&& scores[j].score == rank(stats[j])
                }
        }),
{
    let node = coded.node(kf, indices);
    let k = kf.fold_count(indices.len());
    let folds = kf.folds_of(indices);
    let states = candidate::states_of(column, indices, n_bins);
    let scores = histogram::class_scores(node, kind, rank, feature, false, k);
    lemma_states(coded, kf, column, indices, n_bins);
    lemma_class_candidates(node, kind, rank, feature, k, coded.bins);
    assert(impurity_measure(kind, n_classes) =~= histogram::class_measure(kind, coded.classes));
    assert(folds.take(k as int) =~= folds);
    if coded.classes == 0 {
        lemma_no_states(coded, column, indices, n_bins);
    }
    assert forall|j: int| 0 <= j < states.len() implies (#[trigger] scores[j]).stats
        == cross_validation::summary(
        cross_validation::fold_gains(
            impurity_measure(kind, n_classes),
            column,
            coded.labels,
            states[j],
            folds,
            n_bins,
            1,
            false,
        ),
        k,
    ) by {
        lemma_gains(coded, kf, column, indices, n_bins, kind, states[j], k);
    }
}

/// Without classes no sample agrees, so there are no states.
proof fn lemma_no_states(
    coded: CodedFeature,
    column: Column,
    indices: Seq<usize>,
    n_bins: nat,
)
    requires
        column matches Column::Categorical(c) && c@ == coded.cats,
        coded.agrees(indices),
        coded.classes == 0,
    ensures
        candidate::states_of(column, indices, n_bins).len() == 0,
{
    let states = candidate::states_of(column, indices, n_bins);
    candidate::law_states(column, indices, n_bins);
    if indices.len() > 0 {
        assert(coded.sample_agrees(indices[0]));
    }
    if states.len() > 0 {
        assert(states.contains(states[0]));
    }
}

/// On a categorical feature whose bin codes are its category ids, metric scores from histograms are
/// those from the column.
pub proof fn law_objective_paths_agree(
    coded: CodedFeature,
    kf: KFold,
    column: Column,
    indices: Seq<usize>,
    n_bins: nat,
    score: spec_fn(ConfusionView) -> Float,
    rank: spec_fn(StatsView) -> Float,
    feature: usize,
)
    requires
        column matches Column::Categorical(c) && c@ == coded.cats,
        coded.agrees(indices),
        indices.len() <= u64::MAX,
        kf.fold_count(indices.len()) <= 255,
    ensures
        objective::histogram_scores(
            coded.node(kf, indices),
            score,
            rank,
            feature,
            false,
            kf.compact_count(indices.len()),
        ) == objective::objective_scores(
            score,
            rank,
            column,
            coded.labels,
            feature,
            indices,
            kf.folds_of(indices),
            n_bins,
            coded.classes,
            false,
        ),
{
    let node = coded.node(kf, indices);
    let k = kf.fold_count(indices.len());
    let folds = kf.folds_of(indices);
    let states = candidate::states_of(column, indices, n_bins);
    let a = objective::histogram_scores(node, score, rank, feature, false, k);
    let b = objective::objective_scores(
        score,
        rank,
        column,
        coded.labels,
        feature,
        indices,
        folds,
        n_bins,
        coded.classes,
        false,
    );
    lemma_states(coded, kf, column, indices, n_bins);
    lemma_objective_candidates(node, score, rank, feature, k, coded.bins);
    assert(folds.take(k as int) =~= folds);
    if coded.classes == 0 {
        lemma_no_states(coded, column, indices, n_bins);
    }
    assert forall|j: int| 0 <= j < states.len() implies a[j] == b[j] by {
        lemma_improvements(coded, kf, column, indices, n_bins, score, states[j], k);
    }
    assert(a =~= b);
}

} // verus!
