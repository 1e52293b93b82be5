//! Growing a tree over data that is binned once, with splits scored from histograms.

use crate::aggregation;
use crate::aggregation::Aggregator;
use crate::binning::{BinnedData, BinnedView, BinsView, FeatureBins};
use crate::cross_validation;
use crate::cross_validation::{KFold, StatsView};
use crate::data::{Bin, SampleId, MISSING_BIN_CODE};
use crate::float::Float;
use crate::histogram::FastScratch;
use crate::parallel::Workers;
use crate::selector;
use crate::selector::{ScoredCandidate, ScoredView};
use crate::tree::node::{Node, NodeView};
use crate::tree::params::{SplitStyle, TreeParams};
use crate::tree::rule::SplitRule;
use crate::tree::strict;
use crate::tree::task;
use crate::tree::task::Task;
use vstd::prelude::*;
use vstd::seq_lib::*;

verus! {

/// Sample ids as indices.
pub open spec fn widened(samples: Seq<SampleId>) -> Seq<usize> {
    Seq::new(samples.len(), |i: int| samples[i] as usize)
}

/// The samples of a node in fold order.
pub open spec fn fold_order(cv: KFold, samples: Seq<SampleId>) -> Seq<SampleId> {
    Seq::new(samples.len(), |p: int| cv.arranged(widened(samples))[p] as SampleId)
}

/// Whether splits of a binned feature are ordered cuts.
pub open spec fn bins_ordered(bins: BinsView, style: SplitStyle) -> bool {
    bins.is_continuous && style == SplitStyle::Threshold
}

/// The scored candidates of one feature of a node.
pub open spec fn feature_scores<K: Task>(
    task: K,
    params: TreeParams,
    rank: spec_fn(StatsView) -> Float,
    binned: BinnedView,
    targets: Seq<K::Target>,
    samples: Seq<SampleId>,
    f: int,
) -> Seq<ScoredView> {
    let k = params.cv.compact_count(samples.len());
    task.fast_scores(
        binned.codes[f],
        targets,
        fold_order(params.cv, samples),
        cross_validation::fold_ids(samples.len(), k),
        k,
        binned.bins[f].max_bin,
        f as usize,
        rank,
        bins_ordered(binned.bins[f], params.split_style),
    )
}

/// The scored candidates of the first `f` features of a node.
pub open spec fn fast_candidates<K: Task>(
    task: K,
    params: TreeParams,
    rank: spec_fn(StatsView) -> Float,
    binned: BinnedView,
    targets: Seq<K::Target>,
    samples: Seq<SampleId>,
    f: nat,
) -> Seq<ScoredView>
    decreases f,
{
    if f == 0 {
        Seq::empty()
    } else {
        fast_candidates(task, params, rank, binned, targets, samples, (f - 1) as nat)
            + feature_scores(task, params, rank, binned, targets, samples, f - 1)
    }
}

/// The routing rule of a split at a bin of the whole dataset; none when there is no such bin.
pub open spec fn fast_rule(
    bins: BinsView,
    feature: usize,
    state: u32,
    style: SplitStyle,
) -> Option<SplitRule> {
    if bins.is_continuous {
        strict::continuous_rule(bins.edges, feature, state, style)
    } else if state < bins.categories.len() {
        Some(SplitRule::Category { feature, category: bins.categories[state as int] })
    } else {
        None
    }
}

/// The routing rule of a split at a bin of the whole dataset.
pub fn make_rule_fast(fb: &FeatureBins, feature: usize, state: u32, style: SplitStyle) -> (r:
    Option<SplitRule>)
    ensures
        r == fast_rule(fb@, feature, state, style),
{
    if fb.is_continuous {
        strict::make_continuous_rule(fb.edges.as_slice(), feature, state, style)
    } else {
        match fb.category(state as usize) {
            Some(category) => Some(SplitRule::Category { feature, category }),
            None => None,
        }
    }
}

/// Whether a sample with the given code goes left of a split at a bin.
pub open spec fn code_goes_left(code: Bin, state: u32, ordered: bool) -> bool {
    if ordered {
        code != MISSING_BIN_CODE && code <= state as Bin
    } else {
        code == state as Bin
    }
}

/// `s` after moving elements to the front one by one: element `j`, if the decision on it is yes, is
/// exchanged with the first element that was not moved. Also how many were moved.
pub open spec fn partitioned(s: Seq<SampleId>, decisions: Seq<bool>) -> (Seq<SampleId>, nat)
    decreases decisions.len(),
{
    if decisions.len() == 0 {
        (s, 0)
    } else {
        let (t, i) = partitioned(s, decisions.drop_last());
        if decisions.last() {
            (cross_validation::exchanged(t, i as int, decisions.len() - 1), i + 1)
        } else {
            (t, i)
        }
    }
}

/// The elements on which the decision is `yes`, in order.
pub open spec fn decided(s: Seq<SampleId>, decisions: Seq<bool>, yes: bool) -> Seq<SampleId>
    decreases decisions.len(),
{
    if decisions.len() == 0 {
        Seq::empty()
    } else {
        let before = decided(s, decisions.drop_last(), yes);
        if decisions.last() == yes {
            before.push(s[decisions.len() - 1])
        } else {
            before
        }
    }
}

/// Partitioning keeps the elements; those with a positive decision come first, in order, and those
/// with a negative decision after them.
pub proof fn law_partition(s: Seq<SampleId>, decisions: Seq<bool>)
    requires
        decisions.len() <= s.len(),
    ensures
        ({
            let (t, i) = partitioned(s, decisions);
            &&& t.len() == s.len()
            &&& i <= decisions.len()
            &&& t.to_multiset() == s.to_multiset()
            &&& t.take(i as int) == decided(s, decisions, true)
            &&& t.subrange(i as int, decisions.len() as int).to_multiset() == decided(
                s,
                decisions,
                false,
            ).to_multiset()
            &&& forall|j: int| decisions.len() <= j < s.len() ==> #[trigger] t[j] == s[j]
        }),
    decreases decisions.len(),
{
    let (t, i) = partitioned(s, decisions);
    if decisions.len() == 0 {
        assert(t.take(0) =~= decided(s, decisions, true));
        assert(t.subrange(0, 0) =~= decided(s, decisions, false));
    } else {
        broadcast use group_to_multiset_ensures;

        let d = decisions.drop_last();
        law_partition(s, d);
        let (u, m) = partitioned(s, d);
        let j = d.len() as int;
        let rest = u.subrange(m as int, j);
        if decisions.last() {
            cross_validation::lemma_exchange_permutes(u, m as int, j);
            assert(t.take(i as int) =~= u.take(m as int).push(u[j]));
            if m < j {
                // The first element that was not moved goes to the end of the others.
                let moved = t.subrange(i as int, j + 1);
                assert(rest =~= seq![rest[0]] + rest.subrange(1, rest.len() as int));
                assert(moved =~= rest.subrange(1, rest.len() as int).push(rest[0]));
                lemma_multiset_commutative(seq![rest[0]], rest.subrange(1, rest.len() as int));
                lemma_multiset_commutative(rest.subrange(1, rest.len() as int), seq![rest[0]]);
                assert(rest.subrange(1, rest.len() as int).push(rest[0]) =~= rest.subrange(
                    1,
                    rest.len() as int,
                ) + seq![rest[0]]);
                assert(moved.to_multiset() =~= rest.to_multiset());
            } else {
                assert(t.subrange(i as int, j + 1) =~= rest);
            }
        } else {
            assert(t.take(i as int) =~= u.take(m as int));
            assert(t.subrange(i as int, j + 1) =~= rest.push(u[j]));
        }
    }
}

/// Whether a predicate can take the given decisions on `s`.
pub open spec fn decides<F: Fn(SampleId) -> bool>(
    pred: F,
    s: Seq<SampleId>,
    decisions: Seq<bool>,
) -> bool {
    &&& decisions.len() == s.len()
    &&& forall|j: int|
        0 <= j < s.len() ==> call_ensures(pred, (s[j],), #[trigger] decisions[j])
}

/// Moves the samples that satisfy `pred` to the front, in place, and returns how many there are.
pub fn partition_in_place<F: Fn(SampleId) -> bool>(samples: &mut [SampleId], pred: F) -> (r: usize)
    requires
        forall|j: int|
            0 <= j < old(samples)@.len() ==> call_requires(pred, (#[trigger] old(samples)@[j],)),
    ensures
        final(samples)@.len() == old(samples)@.len(),
        exists|d: Seq<bool>| #[trigger]
            decides(pred, old(samples)@, d) && (final(samples)@, r as nat) == partitioned(
                old(samples)@,
                d,
            ),
{
    let ghost s = samples@;
    let ghost mut d: Seq<bool> = Seq::empty();
    let n: usize = samples.len();
    let mut i: usize = 0;
    let mut j: usize = 0;
    while j < n
        invariant
            i <= j <= n,
            n == s.len(),
            s == old(samples)@,
            samples@.len() == n,
            forall|j: int| 0 <= j < s.len() ==> call_requires(pred, (#[trigger] s[j],)),
            d.len() == j,
            forall|k: int| 0 <= k < j ==> call_ensures(pred, (s[k],), #[trigger] d[k]),
            (samples@, i as nat) == partitioned(s, d),
            forall|k: int| j <= k < n ==> #[trigger] samples@[k] == s[k],
        decreases n - j,
    {
        let x: SampleId = samples[j];
        let ghost before = samples@;
        assert(x == s[j as int]);
        let yes: bool = pred(x);
        proof {
            assert(d.push(yes).drop_last() =~= d);
            d = d.push(yes);
        }
        if yes {
            let y: SampleId = samples[i];
            samples[i] = x;
            samples[j] = y;
            assert(samples@ =~= cross_validation::exchanged(before, i as int, j as int));
            i += 1;
        }
        j += 1;
    }
    assert(decides(pred, s, d));
    i
}

/// The decisions of a split at a bin on the given samples.
pub open spec fn decisions_of(
    codes: Seq<Bin>,
    samples: Seq<SampleId>,
    state: u32,
    ordered: bool,
) -> Seq<bool> {
    Seq::new(samples.len(), |j: int| code_goes_left(codes[samples[j] as int], state, ordered))
}

/// A split of a node: its rule, and the samples of both children.
#[verifier::ext_equal]
pub struct FastSplitView {
    pub rule: SplitRule,
    pub left: Seq<SampleId>,
    pub right: Seq<SampleId>,
}

/// The split of a node given its scored candidates; none when no candidate is good enough, cannot
/// be realised, or leaves too few samples to a child.
pub open spec fn fast_split_of(
    params: TreeParams,
    binned: BinnedView,
    samples: Seq<SampleId>,
    scored: Seq<ScoredView>,
) -> Option<FastSplitView> {
    match strict::accepted(params, scored) {
        None => None,
        Some(c) => match fast_rule(
            binned.bins[c.feature as int],
            c.feature,
            c.state,
            params.split_style,
        ) {
            None => None,
            Some(rule) => {
                let (moved, p) = partitioned(
                    samples,
                    decisions_of(
                        binned.codes[c.feature as int],
                        samples,
                        c.state,
                        bins_ordered(binned.bins[c.feature as int], params.split_style),
                    ),
                );
                let least = strict::at_least(params.min_samples_leaf, 1);
                if p < least || samples.len() - p < least {
                    None
                } else {
                    Some(
                        FastSplitView {
                            rule,
                            left: moved.take(p as int),
                            right: moved.skip(p as int),
                        },
                    )
                }
            },
        },
    }
}

/// The children of a split are smaller than the node and hold its samples between them.
pub proof fn lemma_fast_split_shrinks(
    params: TreeParams,
    binned: BinnedView,
    samples: Seq<SampleId>,
    scored: Seq<ScoredView>,
)
    ensures
        fast_split_of(params, binned, samples, scored) matches Some(s) ==> {
            &&& s.left.len() + s.right.len() == samples.len()
            &&& 0 < s.left.len() < samples.len()
            &&& 0 < s.right.len() < samples.len()
        },
{
    match strict::accepted(params, scored) {
        None => {},
        Some(c) => {
            law_partition(
                samples,
                decisions_of(
                    binned.codes[c.feature as int],
                    samples,
                    c.state,
                    bins_ordered(binned.bins[c.feature as int], params.split_style),
                ),
            );
        },
    }
}

/// The tree over the given samples of a node at the given depth.
pub open spec fn fast_tree<K: Task>(
    task: K,
    params: TreeParams,
    rank: spec_fn(StatsView) -> Float,
    binned: BinnedView,
    targets: Seq<K::Target>,
    samples: Seq<SampleId>,
    depth: nat,
) -> NodeView<<K::Prediction as View>::V>
    decreases samples.len(),
{
    let here = cross_validation::pick(targets, widened(samples));
    let leaf = NodeView::Leaf { prediction: task.leaf_of(here), n_samples: samples.len() };
    let scored = fast_candidates(
        task,
        params,
        rank,
        binned,
        targets,
        samples,
        binned.codes.len(),
    );
    proof {
        lemma_fast_split_shrinks(params, binned, samples, scored);
    }
    if strict::stops(task, params, here, depth) {
        leaf
    } else {
        match fast_split_of(params, binned, samples, scored) {
            None => leaf,
            Some(s) => NodeView::Internal {
                rule: s.rule,
                left: Box::new(
                    fast_tree(task, params, rank, binned, targets, s.left, depth + 1),
                ),
                right: Box::new(
                    fast_tree(task, params, rank, binned, targets, s.right, depth + 1),
                ),
            },
        }
    }
}

/// Whether every sample is below `n`.
pub open spec fn ids_below(samples: Seq<SampleId>, n: nat) -> bool {
    forall|i: int| 0 <= i < samples.len() ==> #[trigger] samples[i] < n
}

/// Whether the tables of every feature can be addressed for a node with `n` samples.
pub open spec fn tables_fit<K: Task>(task: K, cv: KFold, bins: Seq<BinsView>, n: nat) -> bool {
    forall|f: int|
        0 <= f < bins.len() ==> task.addressable(cv.compact_count(n), (#[trigger] bins[f]).max_bin)
}

/// The tables of a smaller node can be addressed too.
proof fn lemma_tables_shrink<K: Task>(task: K, cv: KFold, bins: Seq<BinsView>, n: nat, m: nat)
    requires
        tables_fit(task, cv, bins, n),
        m <= n,
    ensures
        tables_fit(task, cv, bins, m),
{
    assert forall|f: int| 0 <= f < bins.len() implies task.addressable(
        cv.compact_count(m),
        (#[trigger] bins[f]).max_bin,
    ) by {
        task.smaller_addressable(
            cv.compact_count(m),
            bins[f].max_bin,
            cv.compact_count(n),
            bins[f].max_bin,
        );
    }
}

/// Whether a binned dataset belongs to `n` targets.
pub open spec fn binned_for(binned: BinnedView, n: nat) -> bool {
    &&& binned.codes.len() == binned.bins.len()
    &&& forall|f: int| 0 <= f < binned.codes.len() ==> (#[trigger] binned.codes[f]).len() == n
    &&& forall|f: int| 0 <= f < binned.bins.len() ==> (#[trigger] binned.bins[f]).max_bin <= 0xffff
}

/// The fold order of a node holds only samples of the node, each with a fold id in range.
pub(crate) proof fn lemma_assignment(cv: KFold, samples: Seq<SampleId>, n: nat)
    requires
        ids_below(samples, n),
        0 < samples.len() <= u32::MAX,
    ensures
        task::samples_within(
            fold_order(cv, samples),
            cross_validation::fold_ids(samples.len(), cv.compact_count(samples.len())),
            n,
            cv.compact_count(samples.len()),
        ),
        cv.compact_count(samples.len()) <= 255,
{
    let idx = widened(samples);
    let order = fold_order(cv, samples);
    let m = samples.len();
    let k = cv.compact_count(m);
    cross_validation::law_arranged_permutes(cv, idx);
    assert forall|p: int| 0 <= p < order.len() implies #[trigger] order[p] < n by {
        broadcast use group_to_multiset_ensures;

        let a = cv.arranged(idx);
        assert(a.contains(a[p]));
        assert(a.to_multiset().count(a[p]) > 0);
        assert(idx.contains(a[p]));
        let i = choose|i: int| 0 <= i < idx.len() && idx[i] == a[p];
        assert(samples[i] < n);
    }
    let ids = cross_validation::fold_ids(m, k);
    assert forall|p: int| 0 <= p < ids.len() implies #[trigger] ids[p] < k by {
        let f = cross_validation::law_fold_exists(m, k, p as nat);
        assert(cross_validation::fold_holds(
            m,
            k,
            cross_validation::fold_of(m, k, p as nat),
            p as nat,
        ));
    }
}

proof fn lemma_chained<K: Task>(
    task: K,
    params: TreeParams,
    rank: spec_fn(StatsView) -> Float,
    binned: BinnedView,
    targets: Seq<K::Target>,
    samples: Seq<SampleId>,
    parts: Seq<Vec<ScoredCandidate>>,
)
    requires
        forall|f: int|
            0 <= f < parts.len() ==> selector::scored_views((#[trigger] parts[f])@)
                == feature_scores(task, params, rank, binned, targets, samples, f),
    ensures
        strict::chained(parts) == fast_candidates(
            task,
            params,
            rank,
            binned,
            targets,
            samples,
            parts.len(),
        ),
    decreases parts.len(),
{
    if parts.len() > 0 {
        let d = parts.drop_last();
        assert forall|f: int| 0 <= f < d.len() implies selector::scored_views((#[trigger] d[f])@)
            == feature_scores(task, params, rank, binned, targets, samples, f) by {
            assert(d[f] == parts[f]);
        }
        lemma_chained(task, params, rank, binned, targets, samples, d);
        assert(parts[parts.len() - 1] == parts.last());
    }
}

/// Scores every candidate split of a node with the given samples, feature by feature. `order`,
/// `val_fold` and `k` are the compact fold assignment of the node.
pub fn score_node_fast<K: Task, A: Aggregator + ?Sized, W: Workers>(
    task: &K,
    params: &TreeParams,
    aggregator: &A,
    binned: &BinnedData,
    targets: &[K::Target],
    order: &[SampleId],
    val_fold: &[u8],
    k: usize,
    samples: &[SampleId],
    workers: &W,
) -> (r: Vec<ScoredCandidate>)
    requires
        aggregator.applicable(),
        tables_fit(*task, params.cv, binned@.bins, samples@.len()),
        binned_for(binned@, targets@.len()),
        ids_below(samples@, targets@.len()),
        0 < samples@.len() <= u32::MAX,
        order@ == fold_order(params.cv, samples@),
        k == params.cv.compact_count(samples@.len()),
        val_fold@ == cross_validation::fold_ids(samples@.len(), k as nat),
    ensures
        selector::scored_views(r@) == fast_candidates(
            *task,
            *params,
            aggregation::ranking(aggregator),
            binned@,
            targets@,
            samples@,
            binned@.codes.len(),
        ),
        forall|i: int|
            0 <= i < r@.len() ==> (#[trigger] r@[i]).candidate.feature < binned@.codes.len(),
{
    let n_features: usize = binned.n_features();
    proof {
        lemma_assignment(params.cv, samples@, targets@.len());
    }
    if params.parallel && params.n_threads > 1 && order.len() >= params.parallel_min_samples {
        let eval_one = |f: &usize| -> (r: Vec<ScoredCandidate>)
            requires
                *f < n_features,
            ensures
                selector::scored_views(r@) == feature_scores(
                    *task,
                    *params,
                    aggregation::ranking(aggregator),
                    binned@,
                    targets@,
                    samples@,
                    *f as int,
                ),
                forall|i: int| 0 <= i < r@.len() ==> (#[trigger] r@[i]).candidate.feature == *f,
            {
                let mut scratch = FastScratch::new();
                score_one(
                    task,
                    params,
                    aggregator,
                    binned,
                    targets,
                    order,
                    val_fold,
                    k,
                    *f,
                    &mut scratch,
                    samples,
                )
            };
        let ids = strict::numbers(n_features);
        let parts = workers.map(ids.as_slice(), params.n_threads, eval_one);
        proof {
            assert forall|f: int| 0 <= f < parts@.len() implies selector::scored_views(
                (#[trigger] parts@[f])@,
            ) == feature_scores(
                *task,
                *params,
                aggregation::ranking(aggregator),
                binned@,
                targets@,
                samples@,
                f,
            ) && forall|i: int|
                0 <= i < parts@[f]@.len() ==> (#[trigger] parts@[f]@[i]).candidate.feature == f by {
                assert(call_ensures(eval_one, (&ids@[f],), parts@[f]));
            }
        }
        join(task, params, aggregator, binned, targets, parts, samples)
    } else {
        let mut scratch = FastScratch::new();
        let mut parts: Vec<Vec<ScoredCandidate>> = Vec::new();
        let mut f: usize = 0;
        while f < n_features
            invariant
                f <= n_features,
                n_features == binned@.codes.len(),
                aggregator.applicable(),
                tables_fit(*task, params.cv, binned@.bins, samples@.len()),
                binned_for(binned@, targets@.len()),
                ids_below(samples@, targets@.len()),
                0 < samples@.len() <= u32::MAX,
                order@ == fold_order(params.cv, samples@),
                k == params.cv.compact_count(samples@.len()),
                val_fold@ == cross_validation::fold_ids(samples@.len(), k as nat),
                parts@.len() == f,
                forall|g: int|
                    0 <= g < f ==> selector::scored_views((#[trigger] parts@[g])@)
                        == feature_scores(
                        *task,
                        *params,
                        aggregation::ranking(aggregator),
                        binned@,
                        targets@,
                        samples@,
                        g,
                    ) && forall|i: int|
                        0 <= i < parts@[g]@.len() ==> (#[trigger] parts@[g]@[i]).candidate.feature
                            == g,
            decreases n_features - f,
        {
            let part = score_one(
                task,
                params,
                aggregator,
                binned,
                targets,
                order,
                val_fold,
                k,
                f,
                &mut scratch,
                samples,
            );
            parts.push(part);
            f += 1;
        }
        join(task, params, aggregator, binned, targets, parts, samples)
    }
}

/// Scores one feature of a node.
fn score_one<K: Task, A: Aggregator + ?Sized>(
    task: &K,
    params: &TreeParams,
    aggregator: &A,
    binned: &BinnedData,
    targets: &[K::Target],
    order: &[SampleId],
    val_fold: &[u8],
    k: usize,
    f: usize,
    scratch: &mut FastScratch,
    samples: &[SampleId],
) -> (r: Vec<ScoredCandidate>)
    requires
        aggregator.applicable(),
        tables_fit(*task, params.cv, binned@.bins, samples@.len()),
        binned_for(binned@, targets@.len()),
        ids_below(samples@, targets@.len()),
        0 < samples@.len() <= u32::MAX,
        f < binned@.codes.len(),
        order@ == fold_order(params.cv, samples@),
        k == params.cv.compact_count(samples@.len()),
        val_fold@ == cross_validation::fold_ids(samples@.len(), k as nat),
    ensures
        selector::scored_views(r@) == feature_scores(
            *task,
            *params,
            aggregation::ranking(aggregator),
            binned@,
            targets@,
            samples@,
            f as int,
        ),
        forall|i: int| 0 <= i < r@.len() ==> (#[trigger] r@[i]).candidate.feature == f,
{
    proof {
        lemma_assignment(params.cv, samples@, targets@.len());
        assert(binned@.codes[f as int] == binned.codes@[f as int]@);
        assert(binned@.bins[f as int] == binned.bins@[f as int]@);
        assert(binned@.codes[f as int].len() == targets@.len());
        assert(binned@.bins[f as int].max_bin <= 0xffff);
    }
    let bins = &binned.bins[f];
    let ordered: bool = bins.is_continuous && params.split_style == SplitStyle::Threshold;
    task.score_feature_fast(
        binned.codes[f].as_slice(),
        targets,
        order,
        val_fold,
        k,
        bins.max_bin,
        f,
        aggregator,
        scratch,
        ordered,
    )
}

/// Puts the candidates of all features into one list.
fn join<K: Task, A: Aggregator + ?Sized>(
    task: &K,
    params: &TreeParams,
    aggregator: &A,
    binned: &BinnedData,
    targets: &[K::Target],
    parts: Vec<Vec<ScoredCandidate>>,
    samples: &[SampleId],
) -> (r: Vec<ScoredCandidate>)
    requires
        parts@.len() == binned@.codes.len(),
        forall|f: int|
            0 <= f < parts@.len() ==> selector::scored_views((#[trigger] parts@[f])@)
                == feature_scores(
                *task,
                *params,
                aggregation::ranking(aggregator),
                binned@,
                targets@,
                samples@,
                f,
            ) && forall|i: int|
                0 <= i < parts@[f]@.len() ==> (#[trigger] parts@[f]@[i]).candidate.feature == f,
    ensures
        selector::scored_views(r@) == fast_candidates(
            *task,
            *params,
            aggregation::ranking(aggregator),
            binned@,
            targets@,
            samples@,
            binned@.codes.len(),
        ),
        forall|i: int|
            0 <= i < r@.len() ==> (#[trigger] r@[i]).candidate.feature < binned@.codes.len(),
{
    proof {
        lemma_chained(
            *task,
            *params,
            aggregation::ranking(aggregator),
            binned@,
            targets@,
            samples@,
            parts@,
        );
    }
    let scored = strict::chain(parts);
    proof {
        assert forall|i: int| 0 <= i < scored@.len() implies (
        #[trigger] scored@[i]).candidate.feature < binned@.codes.len() by {
            assert(strict::listed(parts@, scored@[i]));
            let (f, j) = choose|f: int, j: int|
                0 <= f < parts@.len() && 0 <= j < parts@[f]@.len() && #[trigger] parts@[f]@[j]
                    == scored@[i];
            assert(parts@[f]@[j].candidate.feature == f);
        }
    }
    scored
}

/// The rule of a split and how many samples of the node go left, once they stand in front.
pub fn split_node_fast(
    params: &TreeParams,
    binned: &BinnedData,
    samples: &mut [SampleId],
    scored: &[ScoredCandidate],
) -> (r: Option<(SplitRule, usize)>)
    requires
        binned@.codes.len() == binned@.bins.len(),
        forall|i: int|
            0 <= i < scored@.len() ==> (#[trigger] scored@[i]).candidate.feature
                < binned@.codes.len(),
        forall|f: int|
            0 <= f < binned@.codes.len() ==> ids_below(
                old(samples)@,
                (#[trigger] binned@.codes[f]).len(),
            ),
    ensures
        final(samples)@.len() == old(samples)@.len(),
        final(samples)@.to_multiset() == old(samples)@.to_multiset(),
        match fast_split_of(*params, binned@, old(samples)@, selector::scored_views(scored@)) {
            Some(s) => r matches Some((rule, p)) && rule == s.rule && p <= final(samples)@.len()
                && final(samples)@.take(p as int) == s.left && final(samples)@.skip(p as int)
                == s.right,
            None => r is None,
        },
{
    let c = match strict::accept(params, scored) {
        Some(c) => c,
        None => {
            return None;
        },
    };
    let bins = &binned.bins[c.feature];
    proof {
        assert(binned@.codes[c.feature as int] == binned.codes@[c.feature as int]@);
        assert(binned@.bins[c.feature as int] == binned.bins@[c.feature as int]@);
    }
    let rule = match make_rule_fast(bins, c.feature, c.state, params.split_style) {
        Some(rule) => rule,
        None => {
            return None;
        },
    };
    let ordered: bool = bins.is_continuous && params.split_style == SplitStyle::Threshold;
    let codes = &binned.codes[c.feature];
    let state: Bin = c.state as Bin;
    let goes_left = |s: SampleId| -> (b: bool)
        requires
            s < codes@.len(),
        ensures
            b == code_goes_left(codes@[s as int], c.state, ordered),
        {
            let code: Bin = codes[s as usize];
            if ordered {
                code != MISSING_BIN_CODE && code <= state
            } else {
                code == state
            }
        };
    let n: usize = samples.len();
    let ghost before = samples@;
    assert(ids_below(before, binned@.codes[c.feature as int].len()));
    let p: usize = partition_in_place(samples, goes_left);
    proof {
        let d = choose|d: Seq<bool>| #[trigger]
            decides(goes_left, before, d) && (samples@, p as nat) == partitioned(before, d);
        let goal = decisions_of(codes@, before, c.state, ordered);
        assert forall|j: int| 0 <= j < before.len() implies d[j] == goal[j] by {
            assert(call_ensures(goes_left, (before[j],), d[j]));
        }
        assert(d =~= goal);
        law_partition(before, goal);
    }
    let least: usize = if params.min_samples_leaf < 1 {
        1
    } else {
        params.min_samples_leaf
    };
    if p < least || n - p < least {
        return None;
    }
    Some((rule, p))
}

/// Permuting samples keeps them in range.
pub(crate) proof fn lemma_ids_permuted(a: Seq<SampleId>, b: Seq<SampleId>, n: nat)
    requires
        a.to_multiset() == b.to_multiset(),
        ids_below(a, n),
    ensures
        ids_below(b, n),
{
    broadcast use group_to_multiset_ensures;

    assert forall|i: int| 0 <= i < b.len() implies #[trigger] b[i] < n by {
        assert(b.contains(b[i]));
        assert(b.to_multiset().count(b[i]) > 0);
        assert(a.contains(b[i]));
    }
}

/// Grows the tree over the given samples of a node, reordering them so that the samples of the two
/// children stand next to each other.
pub fn build_node_fast<K: Task, A: Aggregator + ?Sized, W: Workers>(
    task: &K,
    params: &TreeParams,
    aggregator: &A,
    binned: &BinnedData,
    targets: &[K::Target],
    samples: &mut [SampleId],
    depth: usize,
    workers: &W,
) -> (r: Node<K::Prediction>)
    requires
        aggregator.applicable(),
        tables_fit(*task, params.cv, binned@.bins, old(samples)@.len()),
        binned_for(binned@, targets@.len()),
        ids_below(old(samples)@, targets@.len()),
        old(samples)@.len() <= u32::MAX,
        depth + old(samples)@.len() <= usize::MAX,
    ensures
        r@ == fast_tree(
            *task,
            *params,
            aggregation::ranking(aggregator),
            binned@,
            targets@,
            old(samples)@,
            depth as nat,
        ),
        final(samples)@.to_multiset() == old(samples)@.to_multiset(),
        final(samples)@.len() == old(samples)@.len(),
    decreases old(samples)@.len(),
{
    let ghost before = samples@;
    let ghost rank = aggregation::ranking(aggregator);
    let n: usize = samples.len();
    let mut indices: Vec<usize> = Vec::new();
    let mut i: usize = 0;
    while i < n
        invariant
            i <= n,
            n == samples@.len(),
            samples@ == before,
            indices@ == widened(before).take(i as int),
        decreases n - i,
    {
        indices.push(samples[i] as usize);
        i += 1;
        assert(indices@ =~= widened(before).take(i as int));
    }
    assert(indices@ =~= widened(before));
    assert forall|i: int| 0 <= i < indices@.len() implies #[trigger] indices@[i] < targets@.len() by {
        assert(before[i] < targets@.len());
    }
    let node_targets = cross_validation::picked(targets, indices.as_slice());
    let prediction = task.leaf(node_targets.as_slice());
    if strict::is_terminal(task, params, node_targets.as_slice(), depth) {
        return Node::Leaf { prediction, n_samples: n };
    }
    let (order, val_fold, k) = params.cv.assign(indices.as_slice());
    assert(order@ =~= fold_order(params.cv, before));
    let scored = score_node_fast(
        task,
        params,
        aggregator,
        binned,
        targets,
        order.as_slice(),
        val_fold.as_slice(),
        k,
        &*samples,
        workers,
    );
    proof {
        lemma_fast_split_shrinks(*params, binned@, before, selector::scored_views(scored@));
        assert forall|f: int| 0 <= f < binned@.codes.len() implies ids_below(
            before,
            (#[trigger] binned@.codes[f]).len(),
        ) by {
            assert(binned@.codes[f].len() == targets@.len());
        }
    }
    match split_node_fast(params, binned, samples, scored.as_slice()) {
        None => Node::Leaf { prediction, n_samples: n },
        Some((rule, p)) => {
            let ghost moved = samples@;
            proof {
                lemma_ids_permuted(before, moved, targets@.len());
                assert forall|i: int| 0 <= i < moved.take(p as int).len() implies #[trigger] moved.take(
                    p as int,
                )[i] < targets@.len() by {
                    assert(moved[i] < targets@.len());
                }
                assert forall|i: int| 0 <= i < moved.skip(p as int).len() implies #[trigger] moved.skip(
                    p as int,
                )[i] < targets@.len() by {
                    assert(moved[i + p] < targets@.len());
                }
                lemma_tables_shrink(*task, params.cv, binned@.bins, n as nat, p as nat);
                lemma_tables_shrink(*task, params.cv, binned@.bins, n as nat, (n - p) as nat);
                assert(moved.subrange(0, p as int) =~= moved.take(p as int));
                assert(moved.subrange(p as int, moved.len() as int) =~= moved.skip(p as int));
            }
            let (left_samples, right_samples) = samples.split_at_mut(p);
            let left = build_node_fast(
                task,
                params,
                aggregator,
                binned,
                targets,
                left_samples,
                depth + 1,
                workers,
            );
            let right = build_node_fast(
                task,
                params,
                aggregator,
                binned,
                targets,
                right_samples,
                depth + 1,
                workers,
            );
            let ghost l = left_samples@;
            let ghost r = right_samples@;
            proof {
                assert(samples@ =~= l + r);
                assert(samples@.take(p as int) =~= l);
                assert(samples@.skip(p as int) =~= r);
                lemma_halves_permuted(moved, p as int, samples@);
            }
            Node::Internal { rule, left: Box::new(left), right: Box::new(right) }
        },
    }
}

/// Permuting both parts of a sequence permutes the sequence.
proof fn lemma_halves_permuted(a: Seq<SampleId>, p: int, b: Seq<SampleId>)
    requires
        0 <= p <= a.len(),
        a.len() == b.len(),
        a.take(p).to_multiset() == b.take(p).to_multiset(),
        a.skip(p).to_multiset() == b.skip(p).to_multiset(),
    ensures
        a.to_multiset() == b.to_multiset(),
{
    assert(a =~= a.take(p) + a.skip(p));
    assert(b =~= b.take(p) + b.skip(p));
    lemma_multiset_commutative(a.take(p), a.skip(p));
    lemma_multiset_commutative(b.take(p), b.skip(p));
}

} // verus!
