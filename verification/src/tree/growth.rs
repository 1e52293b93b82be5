//! What holds of every tree that is grown.

use crate::binning;
use crate::binning::BinnedView;
use crate::candidate;
use crate::cross_validation;
use crate::cross_validation::StatsView;
use crate::data;
use crate::data::{Column, FeatureValue, SampleId, UNKNOWN_CAT};
use crate::encoder;
use crate::float::Float;
use crate::objective::ClassObjective;
use crate::selector;
use crate::selector::ScoredView;
use crate::tree::estimator;
use crate::tree::export;
use crate::tree::fast;
use crate::tree::node;
use crate::tree::node::NodeView;
use crate::tree::params::{SplitMode, SplitStyle, TreeParams};
use crate::tree::restore;
use crate::tree::rule::SplitRule;
use crate::tree::strict;
use crate::tree::task;
use crate::tree::task::{
    ClassView, Classification, ObjectiveClassification, Regression, Task,
};
use vstd::multiset::*;
use vstd::prelude::*;
use vstd::seq_lib::*;

verus! {

/// What every tree keeps to that is grown at the given depth over the given number of samples with
/// the given number of features.
pub open spec fn within_limits<V>(
    tree: NodeView<V>,
    params: TreeParams,
    n_features: nat,
    n: nat,
    depth: nat,
) -> bool {
    let least = strict::at_least(params.min_samples_leaf, 1);
    &&& tree.samples() == n
    &&& n >= least || tree is Internal ==> tree.leaves_hold(least)
    &&& tree.splits_hold(strict::at_least(params.min_samples_split, 2))
    &&& params.max_depth matches Some(limit) ==> tree.depth() == 0 || depth + tree.depth() <= limit
    &&& tree.tests_below(n_features)
    &&& tree.ignores_unknown()
    &&& tree.ends_finite()
}

/// Every candidate is a split of one of the first features.
proof fn lemma_strict_features<K: Task>(
    task: K,
    params: TreeParams,
    rank: spec_fn(StatsView) -> Float,
    columns: Seq<Column>,
    targets: Seq<K::Target>,
    indices: Seq<usize>,
    f: nat,
)
    requires
        f <= columns.len() <= usize::MAX,
    ensures
        forall|i: int|
            0 <= i < strict::strict_candidates(
                task,
                params,
                rank,
                columns,
                targets,
                indices,
                f,
            ).len() ==> (#[trigger] strict::strict_candidates(
                task,
                params,
                rank,
                columns,
                targets,
                indices,
                f,
            )[i]).candidate.feature < f,
    decreases f,
{
    if f > 0 {
        let g = (f - 1) as nat;
        lemma_strict_features(task, params, rank, columns, targets, indices, g);
        task.strict_scores_name_feature(
            columns[g as int],
            targets,
            g as usize,
            indices,
            params.cv.folds_of(indices),
            params.n_bins as nat,
            rank,
            strict::cuts_ordered(columns[g as int], params.split_style),
        );
        let before = strict::strict_candidates(task, params, rank, columns, targets, indices, g);
        let after = strict::strict_candidates(task, params, rank, columns, targets, indices, f);
        assert forall|i: int| 0 <= i < after.len() implies (#[trigger] after[i]).candidate.feature
            < f by {
            if i < before.len() {
                assert(after[i] == before[i]);
            }
        }
    }
}

/// The samples that go to one side of a rule, as a bag.
proof fn lemma_routed_bag(
    rule: SplitRule,
    columns: Seq<Column>,
    indices: Seq<usize>,
    left: bool,
)
    ensures
        strict::routed(rule, columns, indices, left).to_multiset()
            == indices.to_multiset().filter(node::sent(rule, columns, left)),
    decreases indices.len(),
{
    broadcast use group_to_multiset_ensures;

    let bag = indices.to_multiset().filter(node::sent(rule, columns, left));
    if indices.len() == 0 {
        assert(bag =~= Multiset::empty());
    } else {
        let d = indices.drop_last();
        lemma_routed_bag(rule, columns, d, left);
        assert(indices =~= d.push(indices.last()));
        let part = d.to_multiset().filter(node::sent(rule, columns, left));
        if rule.takes_sample(columns, indices.last() as int) == left {
            assert(bag =~= part.insert(indices.last()));
        } else {
            assert(bag =~= part);
        }
    }
}

/// A tree grown on the columns keeps to its limits and counts the samples that reach its leaves.
pub proof fn law_strict_tree<K: Task>(
    task: K,
    params: TreeParams,
    rank: spec_fn(StatsView) -> Float,
    columns: Seq<Column>,
    targets: Seq<K::Target>,
    indices: Seq<usize>,
    depth: nat,
)
    requires
        columns.len() <= usize::MAX,
    ensures
        within_limits(
            strict::strict_tree(task, params, rank, columns, targets, indices, depth),
            params,
            columns.len(),
            indices.len(),
            depth,
        ),
        strict::strict_tree(task, params, rank, columns, targets, indices, depth).accounts_for(
            columns,
            indices.to_multiset(),
        ),
    decreases indices.len(),
{
    broadcast use group_to_multiset_ensures;

    let here = cross_validation::pick(targets, indices);
    let scored = strict::strict_candidates(
        task,
        params,
        rank,
        columns,
        targets,
        indices,
        columns.len(),
    );
    strict::lemma_split_shrinks(params, columns, indices, scored);
    if !strict::stops(task, params, here, depth) {
        match strict::split_of(params, columns, indices, scored) {
            None => {},
            Some(s) => {
                lemma_strict_features(
                    task,
                    params,
                    rank,
                    columns,
                    targets,
                    indices,
                    columns.len(),
                );
                selector::law_winner(scored);
                match columns[s.rule.tested() as int] {
                    Column::Continuous(v) => {
                        encoder::law_edges(
                            cross_validation::pick(v@, indices),
                            params.n_bins as nat,
                        );
                    },
                    Column::Categorical(_) => {},
                }
                lemma_routed_bag(s.rule, columns, indices, true);
                lemma_routed_bag(s.rule, columns, indices, false);
                law_strict_tree(task, params, rank, columns, targets, s.left, depth + 1);
                law_strict_tree(task, params, rank, columns, targets, s.right, depth + 1);
            },
        }
    }
}

/// Every candidate is a split of one of the first features.
proof fn lemma_fast_features<K: Task>(
    task: K,
    params: TreeParams,
    rank: spec_fn(StatsView) -> Float,
    binned: BinnedView,
    targets: Seq<K::Target>,
    samples: Seq<SampleId>,
    f: nat,
)
    requires
        f <= usize::MAX,
    ensures
        forall|i: int|
            0 <= i < fast::fast_candidates(
                task,
                params,
                rank,
                binned,
                targets,
                samples,
                f,
            ).len() ==> (#[trigger] fast::fast_candidates(
                task,
                params,
                rank,
                binned,
                targets,
                samples,
                f,
            )[i]).candidate.feature < f,
    decreases f,
{
    if f > 0 {
        let g = (f - 1) as nat;
        lemma_fast_features(task, params, rank, binned, targets, samples, g);
        let k = params.cv.compact_count(samples.len());
        task.fast_scores_name_feature(
            binned.codes[g as int],
            targets,
            fast::fold_order(params.cv, samples),
            cross_validation::fold_ids(samples.len(), k),
            k,
            binned.bins[g as int].max_bin,
            g as usize,
            rank,
            fast::bins_ordered(binned.bins[g as int], params.split_style),
        );
        let before = fast::fast_candidates(task, params, rank, binned, targets, samples, g);
        let after = fast::fast_candidates(task, params, rank, binned, targets, samples, f);
        assert forall|i: int| 0 <= i < after.len() implies (#[trigger] after[i]).candidate.feature
            < f by {
            if i < before.len() {
                assert(after[i] == before[i]);
            }
        }
    }
}

/// A training sample goes to the same side by its bin code as by the rule that the tree keeps.
pub proof fn law_codes_route_as_rules(
    column: Column,
    n_bins: nat,
    feature: usize,
    state: u32,
    style: SplitStyle,
    i: int,
)
    requires
        binning::bins_fit(column, n_bins),
        fast::fast_rule(binning::bins_of(column, n_bins), feature, state, style) is Some,
        0 <= i < column.size(),
    ensures
        fast::code_goes_left(
            binning::column_codes(column, n_bins)[i],
            state,
            fast::bins_ordered(binning::bins_of(column, n_bins), style),
        ) == fast::fast_rule(binning::bins_of(column, n_bins), feature, state, style)->Some_0.takes(
            binning::value_at(column, i),
        ),
{
    let bins = binning::bins_of(column, n_bins);
    match column {
        Column::Continuous(v) => {
            let x = v@[i];
            encoder::law_edges(v@, n_bins);
            if x.finite() {
                encoder::lemma_reached_bound(bins.edges, x);
                match style {
                    SplitStyle::Threshold => {
                        encoder::law_cut_divides(bins.edges, x, state as nat);
                    },
                    SplitStyle::BinMembership => {
                        encoder::law_bin_encloses(bins.edges, x, state as nat);
                    },
                }
            }
        },
        Column::Categorical(c) => {
            let x = c@[i];
            candidate::law_distinct(candidate::known(c@));
            if bins.categories.contains(x) {
                let k = bins.categories.index_of(x);
                assert(0 <= k < bins.categories.len() && bins.categories[k] == x);
            }
            assert(bins.categories.contains(bins.categories[state as int]));
        },
    }
}

/// Sample ids as a bag of indices.
proof fn lemma_widened_bag(samples: Seq<SampleId>, x: usize)
    ensures
        fast::widened(samples).to_multiset().count(x) == if x <= u32::MAX {
            samples.to_multiset().count(x as SampleId)
        } else {
            0
        },
    decreases samples.len(),
{
    broadcast use group_to_multiset_ensures;

    if samples.len() == 0 {
        assert(fast::widened(samples) =~= Seq::empty());
        assert(samples =~= Seq::empty());
    } else {
        let d = samples.drop_last();
        lemma_widened_bag(d, x);
        assert(samples =~= d.push(samples.last()));
        assert(fast::widened(samples) =~= fast::widened(d).push(samples.last() as usize));
    }
}

/// The same sample ids are the same indices.
proof fn lemma_widened_alike(a: Seq<SampleId>, b: Seq<SampleId>)
    requires
        a.to_multiset() == b.to_multiset(),
    ensures
        fast::widened(a).to_multiset() == fast::widened(b).to_multiset(),
{
    let m = fast::widened(a).to_multiset();
    let n = fast::widened(b).to_multiset();
    assert forall|x: usize| #[trigger] m.count(x) == n.count(x) by {
        lemma_widened_bag(a, x);
        lemma_widened_bag(b, x);
    }
    assert(m =~= n);
}

/// The samples on which decisions agree with a rule, as a bag.
proof fn lemma_decided_bag(
    rule: SplitRule,
    columns: Seq<Column>,
    samples: Seq<SampleId>,
    decisions: Seq<bool>,
    yes: bool,
)
    requires
        decisions.len() <= samples.len(),
        forall|j: int|
            0 <= j < decisions.len() ==> #[trigger] decisions[j] == rule.takes_sample(
                columns,
                samples[j] as int,
            ),
    ensures
        fast::widened(fast::decided(samples, decisions, yes)).to_multiset() == fast::widened(
            samples.take(decisions.len() as int),
        ).to_multiset().filter(node::sent(rule, columns, yes)),
    decreases decisions.len(),
{
    broadcast use group_to_multiset_ensures;

    let all = fast::widened(samples.take(decisions.len() as int));
    let bag = all.to_multiset().filter(node::sent(rule, columns, yes));
    let kept = fast::decided(samples, decisions, yes);
    if decisions.len() == 0 {
        assert(all =~= Seq::empty());
        assert(fast::widened(kept) =~= Seq::empty());
        assert(bag =~= Multiset::empty());
    } else {
        let d = decisions.drop_last();
        let last = samples[d.len() as int];
        assert forall|j: int| 0 <= j < d.len() implies #[trigger] d[j] == rule.takes_sample(
            columns,
            samples[j] as int,
        ) by {
            assert(d[j] == decisions[j]);
        }
        lemma_decided_bag(rule, columns, samples, d, yes);
        let before = fast::widened(samples.take(d.len() as int));
        assert(all =~= before.push(last as usize));
        let part = before.to_multiset().filter(node::sent(rule, columns, yes));
        assert(decisions[d.len() as int] == rule.takes_sample(columns, last as int));
        if decisions.last() == yes {
            assert(fast::widened(kept) =~= fast::widened(
                fast::decided(samples, d, yes),
            ).push(last as usize));
            assert(bag =~= part.insert(last as usize));
        } else {
            assert(bag =~= part);
        }
    }
}

/// Both sides of a split of a binned node hold the samples that its rule sends there.
proof fn lemma_fast_sides(
    params: TreeParams,
    columns: Seq<Column>,
    samples: Seq<SampleId>,
    scored: Seq<ScoredView>,
)
    requires
        forall|f: int|
            0 <= f < columns.len() ==> binning::bins_fit(
                #[trigger] columns[f],
                params.n_bins as nat,
            ),
        forall|f: int|
            0 <= f < columns.len() ==> fast::ids_below(samples, (#[trigger] columns[f]).size()),
        forall|i: int|
            0 <= i < scored.len() ==> (#[trigger] scored[i]).candidate.feature < columns.len(),
    ensures
        fast::fast_split_of(
            params,
            binning::binned_of(columns, params.n_bins as nat),
            samples,
            scored,
        ) matches Some(s) ==> {
            &&& s.rule.tested() < columns.len()
            &&& !s.rule.takes(FeatureValue::Categorical(UNKNOWN_CAT))
            &&& s.rule.ends_finite()
            &&& fast::widened(s.left).to_multiset() == fast::widened(samples).to_multiset().filter(
                node::sent(s.rule, columns, true),
            )
            &&& fast::widened(s.right).to_multiset() == fast::widened(samples).to_multiset().filter(
                node::sent(s.rule, columns, false),
            )
            &&& (s.left + s.right).to_multiset() == samples.to_multiset()
            &&& s.left.len() >= strict::at_least(params.min_samples_leaf, 1)
            &&& s.right.len() >= strict::at_least(params.min_samples_leaf, 1)
        },
{
    let binned = binning::binned_of(columns, params.n_bins as nat);
    match fast::fast_split_of(params, binned, samples, scored) {
        None => {},
        Some(s) => {
            selector::law_winner(scored);
            let c = strict::accepted(params, scored)->Some_0;
            let column = columns[c.feature as int];
            let bins = binning::bins_of(column, params.n_bins as nat);
            let ordered = fast::bins_ordered(bins, params.split_style);
            let decisions = fast::decisions_of(
                binned.codes[c.feature as int],
                samples,
                c.state,
                ordered,
            );
            fast::law_partition(samples, decisions);
            assert forall|j: int| 0 <= j < decisions.len() implies #[trigger] decisions[j]
                == s.rule.takes_sample(columns, samples[j] as int) by {
                assert(fast::ids_below(samples, column.size()));
                assert(samples[j] < column.size());
                law_codes_route_as_rules(
                    column,
                    params.n_bins as nat,
                    c.feature,
                    c.state,
                    params.split_style,
                    samples[j] as int,
                );
            }
            lemma_decided_bag(s.rule, columns, samples, decisions, true);
            lemma_decided_bag(s.rule, columns, samples, decisions, false);
            assert(samples.take(decisions.len() as int) =~= samples);
            let (moved, p) = fast::partitioned(samples, decisions);
            assert(moved.skip(p as int) =~= moved.subrange(p as int, decisions.len() as int));
            lemma_widened_alike(s.right, fast::decided(samples, decisions, false));
            assert(s.left + s.right =~= moved);
            match column {
                Column::Continuous(v) => {
                    encoder::law_edges(v@, params.n_bins as nat);
                },
                Column::Categorical(v) => {
                    candidate::law_distinct(candidate::known(v@));
                    assert(bins.categories.contains(bins.categories[c.state as int]));
                },
            }
        },
    }
}

/// Both sides of a split hold samples of the columns.
proof fn lemma_sides_below(
    columns: Seq<Column>,
    samples: Seq<SampleId>,
    left: Seq<SampleId>,
    right: Seq<SampleId>,
)
    requires
        forall|f: int|
            0 <= f < columns.len() ==> fast::ids_below(samples, (#[trigger] columns[f]).size()),
        (left + right).to_multiset() == samples.to_multiset(),
    ensures
        forall|f: int|
            0 <= f < columns.len() ==> fast::ids_below(left, (#[trigger] columns[f]).size()),
        forall|f: int|
            0 <= f < columns.len() ==> fast::ids_below(right, (#[trigger] columns[f]).size()),
{
    assert forall|f: int| 0 <= f < columns.len() implies fast::ids_below(
        left,
        (#[trigger] columns[f]).size(),
    ) && fast::ids_below(right, columns[f].size()) by {
        let n = columns[f].size();
        assert(fast::ids_below(samples, n));
        fast::lemma_ids_permuted(samples, left + right, n);
        assert forall|i: int| 0 <= i < left.len() implies #[trigger] left[i] < n by {
            assert((left + right)[i] < n);
        }
        assert forall|i: int| 0 <= i < right.len() implies #[trigger] right[i] < n by {
            assert((left + right)[left.len() + i] < n);
        }
    }
}

/// A tree grown on binned data keeps to its limits and counts the samples that reach its leaves.
pub proof fn law_fast_tree<K: Task>(
    task: K,
    params: TreeParams,
    rank: spec_fn(StatsView) -> Float,
    columns: Seq<Column>,
    targets: Seq<K::Target>,
    samples: Seq<SampleId>,
    depth: nat,
)
    requires
        columns.len() <= usize::MAX,
        forall|f: int|
            0 <= f < columns.len() ==> binning::bins_fit(
                #[trigger] columns[f],
                params.n_bins as nat,
            ),
        forall|f: int|
            0 <= f < columns.len() ==> fast::ids_below(samples, (#[trigger] columns[f]).size()),
    ensures
        within_limits(
            fast::fast_tree(
                task,
                params,
                rank,
                binning::binned_of(columns, params.n_bins as nat),
                targets,
                samples,
                depth,
            ),
            params,
            columns.len(),
            samples.len(),
            depth,
        ),
        fast::fast_tree(
            task,
            params,
            rank,
            binning::binned_of(columns, params.n_bins as nat),
            targets,
            samples,
            depth,
        ).accounts_for(columns, fast::widened(samples).to_multiset()),
    decreases samples.len(),
{
    broadcast use group_to_multiset_ensures;

    let binned = binning::binned_of(columns, params.n_bins as nat);
    let here = cross_validation::pick(targets, fast::widened(samples));
    let scored = fast::fast_candidates(
        task,
        params,
        rank,
        binned,
        targets,
        samples,
        columns.len(),
    );
    fast::lemma_fast_split_shrinks(params, binned, samples, scored);
    if !strict::stops(task, params, here, depth) {
        match fast::fast_split_of(params, binned, samples, scored) {
            None => {},
            Some(s) => {
                lemma_fast_features(
                    task,
                    params,
                    rank,
                    binned,
                    targets,
                    samples,
                    columns.len(),
                );
                lemma_fast_sides(params, columns, samples, scored);
                lemma_sides_below(columns, samples, s.left, s.right);
                law_fast_tree(task, params, rank, columns, targets, s.left, depth + 1);
                law_fast_tree(task, params, rank, columns, targets, s.right, depth + 1);
            },
        }
    }
}

/// The columns of a dataset that is binned hold all samples, and their bins fit.
proof fn lemma_all_ids_below(params: TreeParams, columns: Seq<Column>, n: nat)
    requires
        n <= u32::MAX,
        forall|f: int| 0 <= f < columns.len() ==> (#[trigger] columns[f]).size() == n,
        binning::first_overfull(columns, params.n_bins as nat) >= columns.len(),
    ensures
        forall|f: int|
            0 <= f < columns.len() ==> binning::bins_fit(
                #[trigger] columns[f],
                params.n_bins as nat,
            ),
        forall|f: int|
            0 <= f < columns.len() ==> fast::ids_below(
                estimator::all_ids(n),
                (#[trigger] columns[f]).size(),
            ),
{
    binning::law_first_overfull(columns, params.n_bins as nat);
    assert forall|f: int| 0 <= f < columns.len() implies fast::ids_below(
        estimator::all_ids(n),
        (#[trigger] columns[f]).size(),
    ) by {
        assert(columns[f].size() == n);
    }
}

/// A fitted tree keeps to its limits. It has no more leaves than there are samples, and it counts
/// in each leaf the samples that reach it.
pub proof fn law_fitted_tree<K: Task>(
    task: K,
    params: TreeParams,
    rank: spec_fn(StatsView) -> Float,
    columns: Seq<Column>,
    targets: Seq<K::Target>,
)
    requires
        columns.len() <= usize::MAX,
        params.mode == SplitMode::Fast ==> targets.len() <= u32::MAX,
        estimator::fit_error(task, params, columns, targets.len()) is None,
    ensures
        ({
            let tree = estimator::fitted_tree(task, params, rank, columns, targets);
            let n = targets.len();
            &&& within_limits(tree, params, columns.len(), n, 0)
            &&& tree.accounts_for(columns, estimator::all_indices(n).to_multiset())
            &&& tree.leaves() <= n
            &&& tree.depth() < n
        }),
{
    let tree = estimator::fitted_tree(task, params, rank, columns, targets);
    let n = targets.len();
    let size = columns[0].size();
    data::law_first_ragged(columns, size);
    match params.mode {
        SplitMode::Strict => {
            law_strict_tree(
                task,
                params,
                rank,
                columns,
                targets,
                estimator::all_indices(n),
                0,
            );
        },
        SplitMode::Fast => {
            let samples = estimator::all_ids(n);
            lemma_all_ids_below(params, columns, n);
            law_fast_tree(task, params, rank, columns, targets, samples, 0);
            assert(fast::widened(samples) =~= estimator::all_indices(n));
        },
    }
    if n >= strict::at_least(params.min_samples_leaf, 1) || tree is Internal {
        lemma_leaves_hold_less(tree, strict::at_least(params.min_samples_leaf, 1), 1);
    }
    node::law_leaves_below_samples(tree);
    node::law_depth_below_leaves(tree);
}

proof fn lemma_leaves_hold_less<V>(tree: NodeView<V>, least: nat, less: nat)
    requires
        tree.leaves_hold(least),
        less <= least,
    ensures
        tree.leaves_hold(less),
    decreases tree,
{
    match tree {
        NodeView::Leaf { .. } => {},
        NodeView::Internal { left, right, .. } => {
            lemma_leaves_hold_less(*left, least, less);
            lemma_leaves_hold_less(*right, least, less);
        },
    }
}

/// Whether a tree predicts for training sample `i` what a leaf predicts that is reached by the
/// targets of the given samples which end where sample `i` does.
pub open spec fn predicts_companions<K: Task>(
    task: K,
    tree: NodeView<<K::Prediction as View>::V>,
    columns: Seq<Column>,
    targets: Seq<K::Target>,
    samples: Multiset<usize>,
    i: int,
) -> bool {
    exists|order: Seq<usize>|
        #![trigger order.to_multiset()]
        order.to_multiset() == tree.companions(columns, samples, i) && tree.answer(
            node::row_of(columns, i),
        ) == task.leaf_of(cross_validation::pick(targets, order))
}

proof fn lemma_strict_predictions<K: Task>(
    task: K,
    params: TreeParams,
    rank: spec_fn(StatsView) -> Float,
    columns: Seq<Column>,
    targets: Seq<K::Target>,
    indices: Seq<usize>,
    depth: nat,
    i: int,
)
    requires
        columns.len() <= usize::MAX,
    ensures
        predicts_companions(
            task,
            strict::strict_tree(task, params, rank, columns, targets, indices, depth),
            columns,
            targets,
            indices.to_multiset(),
            i,
        ),
    decreases indices.len(),
{
    let tree = strict::strict_tree(task, params, rank, columns, targets, indices, depth);
    let here = cross_validation::pick(targets, indices);
    let scored = strict::strict_candidates(
        task,
        params,
        rank,
        columns,
        targets,
        indices,
        columns.len(),
    );
    strict::lemma_split_shrinks(params, columns, indices, scored);
    law_strict_tree(task, params, rank, columns, targets, indices, depth);
    match tree {
        NodeView::Leaf { .. } => {
            assert(indices.to_multiset() == tree.companions(columns, indices.to_multiset(), i));
        },
        NodeView::Internal { rule, left, right } => {
            let s = strict::split_of(params, columns, indices, scored)->Some_0;
            lemma_routed_bag(rule, columns, indices, true);
            lemma_routed_bag(rule, columns, indices, false);
            lemma_strict_predictions(
                task,
                params,
                rank,
                columns,
                targets,
                s.left,
                depth + 1,
                i,
            );
            lemma_strict_predictions(
                task,
                params,
                rank,
                columns,
                targets,
                s.right,
                depth + 1,
                i,
            );
        },
    }
}

proof fn lemma_fast_predictions<K: Task>(
    task: K,
    params: TreeParams,
    rank: spec_fn(StatsView) -> Float,
    columns: Seq<Column>,
    targets: Seq<K::Target>,
    samples: Seq<SampleId>,
    depth: nat,
    i: int,
)
    requires
        columns.len() <= usize::MAX,
        forall|f: int|
            0 <= f < columns.len() ==> binning::bins_fit(
                #[trigger] columns[f],
                params.n_bins as nat,
            ),
        forall|f: int|
            0 <= f < columns.len() ==> fast::ids_below(samples, (#[trigger] columns[f]).size()),
    ensures
        predicts_companions(
            task,
            fast::fast_tree(
                task,
                params,
                rank,
                binning::binned_of(columns, params.n_bins as nat),
                targets,
                samples,
                depth,
            ),
            columns,
            targets,
            fast::widened(samples).to_multiset(),
            i,
        ),
    decreases samples.len(),
{
    let binned = binning::binned_of(columns, params.n_bins as nat);
    let tree = fast::fast_tree(task, params, rank, binned, targets, samples, depth);
    let bag = fast::widened(samples).to_multiset();
    let scored = fast::fast_candidates(
        task,
        params,
        rank,
        binned,
        targets,
        samples,
        columns.len(),
    );
    fast::lemma_fast_split_shrinks(params, binned, samples, scored);
    match tree {
        NodeView::Leaf { .. } => {
            assert(bag == tree.companions(columns, bag, i));
        },
        NodeView::Internal { rule, left, right } => {
            let s = fast::fast_split_of(params, binned, samples, scored)->Some_0;
            lemma_fast_features(task, params, rank, binned, targets, samples, columns.len());
            lemma_fast_sides(params, columns, samples, scored);
            lemma_sides_below(columns, samples, s.left, s.right);
            lemma_fast_predictions(task, params, rank, columns, targets, s.left, depth + 1, i);
            lemma_fast_predictions(task, params, rank, columns, targets, s.right, depth + 1, i);
        },
    }
}

/// A fitted tree predicts for each training sample what a leaf predicts that is reached by the
/// targets of the samples which end in the same leaf.
pub proof fn law_fitted_predictions<K: Task>(
    task: K,
    params: TreeParams,
    rank: spec_fn(StatsView) -> Float,
    columns: Seq<Column>,
    targets: Seq<K::Target>,
    i: int,
)
    requires
        columns.len() <= usize::MAX,
        params.mode == SplitMode::Fast ==> targets.len() <= u32::MAX,
        estimator::fit_error(task, params, columns, targets.len()) is None,
        0 <= i < targets.len(),
    ensures
        predicts_companions(
            task,
            estimator::fitted_tree(task, params, rank, columns, targets),
            columns,
            targets,
            estimator::all_indices(targets.len()).to_multiset(),
            i,
        ),
{
    let n = targets.len();
    data::law_first_ragged(columns, columns[0].size());
    match params.mode {
        SplitMode::Strict => {
            lemma_strict_predictions(
                task,
                params,
                rank,
                columns,
                targets,
                estimator::all_indices(n),
                0,
                i,
            );
        },
        SplitMode::Fast => {
            let samples = estimator::all_ids(n);
            lemma_all_ids_below(params, columns, n);
            lemma_fast_predictions(task, params, rank, columns, targets, samples, 0, i);
            assert(fast::widened(samples) =~= estimator::all_indices(n));
        },
    }
}

/// Whether two settings differ at most in how work is shared among workers.
pub open spec fn same_but_for_workers(a: TreeParams, b: TreeParams) -> bool {
    &&& a.max_depth == b.max_depth
    &&& a.min_samples_split == b.min_samples_split
    &&& a.min_samples_leaf == b.min_samples_leaf
    &&& a.min_impurity_decrease == b.min_impurity_decrease
    &&& a.n_bins == b.n_bins
    &&& a.cv == b.cv
    &&& a.mode == b.mode
    &&& a.split_style == b.split_style
}

proof fn lemma_strict_workers<K: Task>(
    task: K,
    a: TreeParams,
    b: TreeParams,
    rank: spec_fn(StatsView) -> Float,
    columns: Seq<Column>,
    targets: Seq<K::Target>,
    indices: Seq<usize>,
    f: nat,
)
    requires
        same_but_for_workers(a, b),
    ensures
        strict::strict_candidates(task, a, rank, columns, targets, indices, f)
            == strict::strict_candidates(task, b, rank, columns, targets, indices, f),
    decreases f,
{
    if f > 0 {
        lemma_strict_workers(task, a, b, rank, columns, targets, indices, (f - 1) as nat);
    }
}

proof fn lemma_fast_workers<K: Task>(
    task: K,
    a: TreeParams,
    b: TreeParams,
    rank: spec_fn(StatsView) -> Float,
    binned: BinnedView,
    targets: Seq<K::Target>,
    samples: Seq<SampleId>,
    f: nat,
)
    requires
        same_but_for_workers(a, b),
    ensures
        fast::fast_candidates(task, a, rank, binned, targets, samples, f)
            == fast::fast_candidates(task, b, rank, binned, targets, samples, f),
    decreases f,
{
    if f > 0 {
        lemma_fast_workers(task, a, b, rank, binned, targets, samples, (f - 1) as nat);
    }
}

proof fn lemma_strict_tree_workers<K: Task>(
    task: K,
    a: TreeParams,
    b: TreeParams,
    rank: spec_fn(StatsView) -> Float,
    columns: Seq<Column>,
    targets: Seq<K::Target>,
    indices: Seq<usize>,
    depth: nat,
)
    requires
        same_but_for_workers(a, b),
    ensures
        strict::strict_tree(task, a, rank, columns, targets, indices, depth)
            == strict::strict_tree(task, b, rank, columns, targets, indices, depth),
    decreases indices.len(),
{
    let scored = strict::strict_candidates(
        task,
        a,
        rank,
        columns,
        targets,
        indices,
        columns.len(),
    );
    lemma_strict_workers(task, a, b, rank, columns, targets, indices, columns.len());
    strict::lemma_split_shrinks(a, columns, indices, scored);
    match strict::split_of(a, columns, indices, scored) {
        None => {},
        Some(s) => {
            lemma_strict_tree_workers(task, a, b, rank, columns, targets, s.left, depth + 1);
            lemma_strict_tree_workers(task, a, b, rank, columns, targets, s.right, depth + 1);
        },
    }
}

proof fn lemma_fast_tree_workers<K: Task>(
    task: K,
    a: TreeParams,
    b: TreeParams,
    rank: spec_fn(StatsView) -> Float,
    binned: BinnedView,
    targets: Seq<K::Target>,
    samples: Seq<SampleId>,
    depth: nat,
)
    requires
        same_but_for_workers(a, b),
    ensures
        fast::fast_tree(task, a, rank, binned, targets, samples, depth) == fast::fast_tree(
            task,
            b,
            rank,
            binned,
            targets,
            samples,
            depth,
        ),
    decreases samples.len(),
{
    let scored = fast::fast_candidates(
        task,
        a,
        rank,
        binned,
        targets,
        samples,
        binned.codes.len(),
    );
    lemma_fast_workers(task, a, b, rank, binned, targets, samples, binned.codes.len());
    fast::lemma_fast_split_shrinks(a, binned, samples, scored);
    match fast::fast_split_of(a, binned, samples, scored) {
        None => {},
        Some(s) => {
            lemma_fast_tree_workers(task, a, b, rank, binned, targets, s.left, depth + 1);
            lemma_fast_tree_workers(task, a, b, rank, binned, targets, s.right, depth + 1);
        },
    }
}

/// Sharing the work among workers changes neither the fitted tree nor whether fitting fails.
pub proof fn law_workers_do_not_matter<K: Task>(
    task: K,
    a: TreeParams,
    b: TreeParams,
    rank: spec_fn(StatsView) -> Float,
    columns: Seq<Column>,
    targets: Seq<K::Target>,
)
    requires
        same_but_for_workers(a, b),
    ensures
        estimator::fitted_tree(task, a, rank, columns, targets) == estimator::fitted_tree(
            task,
            b,
            rank,
            columns,
            targets,
        ),
        estimator::fit_error(task, a, columns, targets.len()) == estimator::fit_error(
            task,
            b,
            columns,
            targets.len(),
        ),
{
    match a.mode {
        SplitMode::Strict => {
            lemma_strict_tree_workers(
                task,
                a,
                b,
                rank,
                columns,
                targets,
                estimator::all_indices(targets.len()),
                0,
            );
        },
        SplitMode::Fast => {
            lemma_fast_tree_workers(
                task,
                a,
                b,
                rank,
                binning::binned_of(columns, a.n_bins as nat),
                targets,
                estimator::all_ids(targets.len()),
                0,
            );
        },
    }
}

proof fn lemma_strict_predicts<K: Task>(
    task: K,
    params: TreeParams,
    rank: spec_fn(StatsView) -> Float,
    columns: Seq<Column>,
    targets: Seq<K::Target>,
    indices: Seq<usize>,
    depth: nat,
    p: spec_fn(<K::Prediction as View>::V) -> bool,
)
    requires
        forall|t: Seq<K::Target>| p(#[trigger] task.leaf_of(t)),
    ensures
        strict::strict_tree(task, params, rank, columns, targets, indices, depth).predicts(p),
    decreases indices.len(),
{
    let scored = strict::strict_candidates(
        task,
        params,
        rank,
        columns,
        targets,
        indices,
        columns.len(),
    );
    strict::lemma_split_shrinks(params, columns, indices, scored);
    match strict::split_of(params, columns, indices, scored) {
        None => {},
        Some(s) => {
            lemma_strict_predicts(task, params, rank, columns, targets, s.left, depth + 1, p);
            lemma_strict_predicts(task, params, rank, columns, targets, s.right, depth + 1, p);
        },
    }
}

proof fn lemma_fast_predicts<K: Task>(
    task: K,
    params: TreeParams,
    rank: spec_fn(StatsView) -> Float,
    binned: BinnedView,
    targets: Seq<K::Target>,
    samples: Seq<SampleId>,
    depth: nat,
    p: spec_fn(<K::Prediction as View>::V) -> bool,
)
    requires
        forall|t: Seq<K::Target>| p(#[trigger] task.leaf_of(t)),
    ensures
        fast::fast_tree(task, params, rank, binned, targets, samples, depth).predicts(p),
    decreases samples.len(),
{
    let scored = fast::fast_candidates(
        task,
        params,
        rank,
        binned,
        targets,
        samples,
        binned.codes.len(),
    );
    fast::lemma_fast_split_shrinks(params, binned, samples, scored);
    match fast::fast_split_of(params, binned, samples, scored) {
        None => {},
        Some(s) => {
            lemma_fast_predicts(task, params, rank, binned, targets, s.left, depth + 1, p);
            lemma_fast_predicts(task, params, rank, binned, targets, s.right, depth + 1, p);
        },
    }
}

proof fn lemma_storable<V>(tree: NodeView<V>, n_features: nat)
    requires
        tree.tests_below(n_features),
        n_features <= i64::MAX,
        tree.ends_finite(),
        tree.samples() <= usize::MAX,
    ensures
        restore::storable(tree),
    decreases tree,
{
    match tree {
        NodeView::Leaf { .. } => {},
        NodeView::Internal { left, right, .. } => {
            lemma_storable(*left, n_features);
            lemma_storable(*right, n_features);
        },
    }
}

/// A fitted tree can be stored as arrays: it has fewer than twice as many nodes as there are
/// samples, and its leaves predict only what the task predicts for some targets.
pub proof fn law_fitted_tree_is_storable<K: Task>(
    task: K,
    params: TreeParams,
    rank: spec_fn(StatsView) -> Float,
    columns: Seq<Column>,
    targets: Seq<K::Target>,
    p: spec_fn(<K::Prediction as View>::V) -> bool,
)
    requires
        columns.len() <= i64::MAX,
        columns.len() <= usize::MAX,
        targets.len() <= usize::MAX,
        params.mode == SplitMode::Fast ==> targets.len() <= u32::MAX,
        estimator::fit_error(task, params, columns, targets.len()) is None,
        forall|t: Seq<K::Target>| p(#[trigger] task.leaf_of(t)),
    ensures
        ({
            let tree = estimator::fitted_tree(task, params, rank, columns, targets);
            &&& restore::storable(tree)
            &&& tree.nodes() < 2 * targets.len()
            &&& tree.predicts(p)
        }),
{
    let tree = estimator::fitted_tree(task, params, rank, columns, targets);
    law_fitted_tree(task, params, rank, columns, targets);
    lemma_storable(tree, columns.len());
    node::law_node_count(tree);
    match params.mode {
        SplitMode::Strict => {
            lemma_strict_predicts(
                task,
                params,
                rank,
                columns,
                targets,
                estimator::all_indices(targets.len()),
                0,
                p,
            );
        },
        SplitMode::Fast => {
            lemma_fast_predicts(
                task,
                params,
                rank,
                binning::binned_of(columns, params.n_bins as nat),
                targets,
                estimator::all_ids(targets.len()),
                0,
                p,
            );
        },
    }
}

/// Storing a fitted classifier as arrays and building it again gives the same tree, so the same
/// predictions.
pub proof fn law_classifier_survives_storage(
    task: Classification,
    params: TreeParams,
    rank: spec_fn(StatsView) -> Float,
    columns: Seq<Column>,
    targets: Seq<usize>,
    other: NodeView<ClassView>,
)
    requires
        columns.len() <= i64::MAX,
        columns.len() <= usize::MAX,
        2 * targets.len() <= i64::MAX,
        2 * targets.len() <= usize::MAX,
        task.n_classes <= i64::MAX,
        params.mode == SplitMode::Fast ==> targets.len() <= u32::MAX,
        estimator::fit_error(task, params, columns, targets.len()) is None,
    ensures
        ({
            let tree = estimator::fitted_tree(task, params, rank, columns, targets);
            let nodes = export::flattened(tree, export::describing(&task), 0);
            let leaves = restore::class_leaves(
                restore::classes_of(nodes),
                restore::probas_of(nodes),
            );
            &&& restore::flat_of(nodes).describes(leaves, 0, other) <==> other == tree
            &&& restore::flat_of(nodes).ends(0, nodes.len())
        }),
{
    let tree = estimator::fitted_tree(task, params, rank, columns, targets);
    let p = |p: ClassView| p.class <= i64::MAX;
    assert forall|t: Seq<usize>| p(#[trigger] task.leaf_of(t)) by {
        task::law_class_leads(task.n_classes as nat, t);
    }
    law_fitted_tree_is_storable(task, params, rank, columns, targets, p);
    restore::law_class_tree_restored(tree, export::describing(&task), other);
}

/// Storing a fitted classifier for a metric as arrays and building it again gives the same tree.
pub proof fn law_objective_classifier_survives_storage<O: ClassObjective>(
    task: ObjectiveClassification<O>,
    params: TreeParams,
    rank: spec_fn(StatsView) -> Float,
    columns: Seq<Column>,
    targets: Seq<usize>,
    other: NodeView<ClassView>,
)
    requires
        columns.len() <= i64::MAX,
        columns.len() <= usize::MAX,
        2 * targets.len() <= i64::MAX,
        2 * targets.len() <= usize::MAX,
        task.n_classes <= i64::MAX,
        params.mode == SplitMode::Fast ==> targets.len() <= u32::MAX,
        estimator::fit_error(task, params, columns, targets.len()) is None,
    ensures
        ({
            let tree = estimator::fitted_tree(task, params, rank, columns, targets);
            let nodes = export::flattened(tree, export::describing(&task), 0);
            let leaves = restore::class_leaves(
                restore::classes_of(nodes),
                restore::probas_of(nodes),
            );
            &&& restore::flat_of(nodes).describes(leaves, 0, other) <==> other == tree
            &&& restore::flat_of(nodes).ends(0, nodes.len())
        }),
{
    let tree = estimator::fitted_tree(task, params, rank, columns, targets);
    let p = |p: ClassView| p.class <= i64::MAX;
    assert forall|t: Seq<usize>| p(#[trigger] task.leaf_of(t)) by {
        task::law_class_leads(task.n_classes as nat, t);
    }
    law_fitted_tree_is_storable(task, params, rank, columns, targets, p);
    restore::law_class_tree_restored(tree, export::describing(&task), other);
}

/// Storing a fitted regressor as arrays and building it again gives the same tree.
pub proof fn law_regressor_survives_storage(
    task: Regression,
    params: TreeParams,
    rank: spec_fn(StatsView) -> Float,
    columns: Seq<Column>,
    targets: Seq<Float>,
    other: NodeView<Float>,
)
    requires
        columns.len() <= i64::MAX,
        columns.len() <= usize::MAX,
        2 * targets.len() <= i64::MAX,
        2 * targets.len() <= usize::MAX,
        params.mode == SplitMode::Fast ==> targets.len() <= u32::MAX,
        estimator::fit_error(task, params, columns, targets.len()) is None,
    ensures
        ({
            let tree = estimator::fitted_tree(task, params, rank, columns, targets);
            let nodes = export::flattened(tree, export::describing(&task), 0);
            let leaves = restore::value_leaves(restore::values_of(nodes));
            &&& restore::flat_of(nodes).describes(leaves, 0, other) <==> other == tree
            &&& restore::flat_of(nodes).ends(0, nodes.len())
        }),
{
    let tree = estimator::fitted_tree(task, params, rank, columns, targets);
    let p = |p: Float| true;
    law_fitted_tree_is_storable(task, params, rank, columns, targets, p);
    restore::law_value_tree_restored(tree, export::describing(&task), other);
}

/// Samples without impurity are not split: the fitted tree is a leaf.
pub proof fn law_pure_samples_stay_together<K: Task>(
    task: K,
    params: TreeParams,
    rank: spec_fn(StatsView) -> Float,
    columns: Seq<Column>,
    targets: Seq<K::Target>,
)
    requires
        targets.len() <= usize::MAX,
        params.mode == SplitMode::Fast ==> targets.len() <= u32::MAX,
        Float::at_most(task.impurity_of(targets), Float::zero()),
    ensures
        estimator::fitted_tree(task, params, rank, columns, targets) == (NodeView::Leaf {
            prediction: task.leaf_of(targets),
            n_samples: targets.len(),
        }),
{
    let n = targets.len();
    let all = estimator::all_indices(n);
    assert(cross_validation::pick(targets, all) =~= targets);
    match params.mode {
        SplitMode::Strict => {},
        SplitMode::Fast => {
            assert(fast::widened(estimator::all_ids(n)) =~= all);
        },
    }
}

} // verus!
