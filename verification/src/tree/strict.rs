//! Growing a tree with cut points refit on every training fold.

use crate::aggregation;
use crate::aggregation::Aggregator;
use crate::candidate::Candidate;
use crate::cross_validation;
use crate::cross_validation::{Fold, KFold, StatsView};
use crate::criterion::Criterion;
use crate::data::{Column, UNKNOWN_CAT};
use crate::encoder;
use crate::encoder::{bin_bounds, quantile_edges};
use crate::float::Float;
use crate::parallel::Workers;
use crate::selector;
use crate::selector::{select_best, ScoredCandidate, ScoredView};
use crate::tree::node::{Node, NodeView};
use crate::tree::params::{SplitStyle, TreeParams};
use crate::tree::rule::SplitRule;
use crate::tree::task;
use crate::tree::task::Task;
use vstd::prelude::*;
use vstd::seq_lib::*;

verus! {

/// The larger of a limit and its smallest sensible value.
pub open spec fn at_least(limit: usize, least: nat) -> nat {
    if limit < least {
        least
    } else {
        limit as nat
    }
}

/// Whether a node becomes a leaf before any split is considered: it is too small, too deep or
/// pure.
pub open spec fn stops<K: Task>(
    task: K,
    params: TreeParams,
    targets: Seq<K::Target>,
    depth: nat,
) -> bool {
    ||| targets.len() < at_least(params.min_samples_split, 2)
    ||| params.max_depth matches Some(limit) && depth >= limit
    ||| Float::at_most(task.impurity_of(targets), Float::zero())
}

/// Whether a node becomes a leaf before any split is considered.
pub fn is_terminal<K: Task>(
    task: &K,
    params: &TreeParams,
    targets: &[K::Target],
    depth: usize,
) -> (r: bool)
    ensures
        r == stops(*task, *params, targets@, depth as nat),
{
    let least: usize = if params.min_samples_split < 2 {
        2
    } else {
        params.min_samples_split
    };
    if targets.len() < least {
        return true;
    }
    match params.max_depth {
        Some(limit) => {
            if depth >= limit {
                return true;
            }
        },
        None => {},
    }
    task.criterion().impurity(targets).le(Float::zero())
}

/// Whether splits of a column are ordered cuts.
pub open spec fn cuts_ordered(column: Column, style: SplitStyle) -> bool {
    column is Continuous && style == SplitStyle::Threshold
}

/// The scored candidates of the first `f` features.
pub open spec fn strict_candidates<K: Task>(
    task: K,
    params: TreeParams,
    rank: spec_fn(StatsView) -> Float,
    columns: Seq<Column>,
    targets: Seq<K::Target>,
    indices: Seq<usize>,
    f: nat,
) -> Seq<ScoredView>
    decreases f,
{
    if f == 0 {
        Seq::empty()
    } else {
        let feature = f - 1;
        strict_candidates(task, params, rank, columns, targets, indices, feature as nat)
            + task.strict_scores(
            columns[feature],
            targets,
            feature as usize,
            indices,
            params.cv.folds_of(indices),
            params.n_bins as nat,
            rank,
            cuts_ordered(columns[feature], params.split_style),
        )
    }
}

/// The split to make, if any: the winner, if its score exceeds the limit.
pub open spec fn accepted(params: TreeParams, scored: Seq<ScoredView>) -> Option<Candidate> {
    match selector::winner(scored) {
        None => None,
        Some(b) => if Float::at_most(scored[b as int].score, params.min_impurity_decrease) {
            None
        } else {
            Some(scored[b as int].candidate)
        },
    }
}

/// A node is split only where that pays: there is a split to make exactly when some finite score
/// exceeds the limit. It has a finite score that exceeds the limit, and no finite score is higher.
pub proof fn law_splits_pay(params: TreeParams, scored: Seq<ScoredView>)
    ensures
        accepted(params, scored) is Some <==> exists|i: int|
            0 <= i < scored.len() && (#[trigger] scored[i]).score.finite() && !Float::at_most(
                scored[i].score,
                params.min_impurity_decrease,
            ),
        accepted(params, scored) matches Some(c) ==> exists|b: int|
            {
                &&& 0 <= b < scored.len()
                &&& (#[trigger] scored[b]).candidate == c
                &&& scored[b].score.finite()
                &&& !Float::at_most(scored[b].score, params.min_impurity_decrease)
                &&& forall|i: int|
                    0 <= i < scored.len() && (#[trigger] scored[i]).score.finite()
                        ==> Float::at_most(scored[i].score, scored[b].score)
            },
{
    selector::law_winner(scored);
    match selector::winner(scored) {
        None => {},
        Some(b) => {
            let best = scored[b as int];
            assert forall|i: int|
                0 <= i < scored.len() && (#[trigger] scored[i]).score.finite() implies Float::at_most(
                scored[i].score,
                best.score,
            ) by {
                assert(!selector::beats(scored[i], best));
            }
            assert(scored[b as int].score.finite());
        },
    }
}

/// The split to make, if any.
pub fn accept(params: &TreeParams, scored: &[ScoredCandidate]) -> (r: Option<Candidate>)
    ensures
        r == accepted(*params, selector::scored_views(scored@)),
        r matches Some(c) ==> exists|i: int| 0 <= i < scored@.len() && scored@[i].candidate == c,
{
    proof {
        selector::law_winner(selector::scored_views(scored@));
    }
    match select_best(scored) {
        None => None,
        Some(best) => {
            if best.score.le(params.min_impurity_decrease) {
                None
            } else {
                Some(best.candidate)
            }
        },
    }
}

/// The routing rule of a continuous split at a bin, given cut points; none when there is no such
/// bin or cut.
pub open spec fn continuous_rule(
    edges: Seq<Float>,
    feature: usize,
    state: u32,
    style: SplitStyle,
) -> Option<SplitRule> {
    match style {
        SplitStyle::Threshold => if state < edges.len() {
            Some(
                SplitRule::ContinuousBin {
                    feature,
                    lower: None,
                    upper: Some(edges[state as int]),
                },
            )
        } else {
            None
        },
        SplitStyle::BinMembership => match encoder::bounds_of(edges, state as nat) {
            Some((lower, upper)) => Some(SplitRule::ContinuousBin { feature, lower, upper }),
            None => None,
        },
    }
}

pub(crate) fn make_continuous_rule(
    edges: &[Float],
    feature: usize,
    state: u32,
    style: SplitStyle,
) -> (r: Option<SplitRule>)
    ensures
        r == continuous_rule(edges@, feature, state, style),
{
    match style {
        SplitStyle::Threshold => {
            let at: usize = state as usize;
            if at < edges.len() {
                Some(SplitRule::ContinuousBin { feature, lower: None, upper: Some(edges[at]) })
            } else {
                None
            }
        },
        SplitStyle::BinMembership => {
            match bin_bounds(edges, state as usize) {
                Some((lower, upper)) => Some(SplitRule::ContinuousBin { feature, lower, upper }),
                None => None,
            }
        },
    }
}

/// The routing rule of a split of a node, with cut points fit on the samples of the node.
pub open spec fn rule_for(
    column: Column,
    feature: usize,
    state: u32,
    indices: Seq<usize>,
    n_bins: nat,
    style: SplitStyle,
) -> Option<SplitRule> {
    match column {
        Column::Continuous(v) => continuous_rule(
            encoder::edges_of(cross_validation::pick(v@, indices), n_bins),
            feature,
            state,
            style,
        ),
        Column::Categorical(_) => if state == UNKNOWN_CAT {
            None
        } else {
            Some(SplitRule::Category { feature, category: state })
        },
    }
}

/// The routing rule of a split of a node; none when the state cannot be realised.
pub fn make_rule(
    col: &Column,
    feature: usize,
    state: u32,
    indices: &[usize],
    n_bins: usize,
    style: SplitStyle,
) -> (r: Option<SplitRule>)
    requires
        cross_validation::all_below(indices@, col.size()),
    ensures
        r == rule_for(*col, feature, state, indices@, n_bins as nat, style),
{
    match col {
        Column::Continuous(v) => {
            let values = cross_validation::picked(v.as_slice(), indices);
            let edges = quantile_edges(values.as_slice(), n_bins);
            make_continuous_rule(edges.as_slice(), feature, state, style)
        },
        Column::Categorical(_) => {
            if state == UNKNOWN_CAT {
                None
            } else {
                Some(SplitRule::Category { feature, category: state })
            }
        },
    }
}

/// The samples that a rule sends to the given side, in order.
pub open spec fn routed(
    rule: SplitRule,
    columns: Seq<Column>,
    indices: Seq<usize>,
    left: bool,
) -> Seq<usize>
    decreases indices.len(),
{
    if indices.len() == 0 {
        Seq::empty()
    } else {
        let before = routed(rule, columns, indices.drop_last(), left);
        if rule.takes_sample(columns, indices.last() as int) == left {
            before.push(indices.last())
        } else {
            before
        }
    }
}

/// A split of a node: its rule, and the samples of both children.
#[derive(Debug)]
pub struct NodeSplit {
    /// The routing rule.
    pub rule: SplitRule,
    /// Samples that match the rule.
    pub left: Vec<usize>,
    /// The other samples.
    pub right: Vec<usize>,
}

/// The contents of a split.
#[verifier::ext_equal]
pub struct SplitView {
    pub rule: SplitRule,
    pub left: Seq<usize>,
    pub right: Seq<usize>,
}

impl View for NodeSplit {
    type V = SplitView;

    open spec fn view(&self) -> SplitView {
        SplitView { rule: self.rule, left: self.left@, right: self.right@ }
    }
}

/// The split of a node given its scored candidates; none when no candidate is good enough, cannot
/// be realised, or leaves too few samples to a child.
pub open spec fn split_of(
    params: TreeParams,
    columns: Seq<Column>,
    indices: Seq<usize>,
    scored: Seq<ScoredView>,
) -> Option<SplitView> {
    match accepted(params, scored) {
        None => None,
        Some(c) => match rule_for(
            columns[c.feature as int],
            c.feature,
            c.state,
            indices,
            params.n_bins as nat,
            params.split_style,
        ) {
            None => None,
            Some(rule) => {
                let left = routed(rule, columns, indices, true);
                let right = routed(rule, columns, indices, false);
                let least = at_least(params.min_samples_leaf, 1);
                if left.len() < least || right.len() < least {
                    None
                } else {
                    Some(SplitView { rule, left, right })
                }
            },
        },
    }
}

/// Both sides together hold all samples, and only those.
pub(crate) proof fn lemma_routed(
    rule: SplitRule,
    columns: Seq<Column>,
    indices: Seq<usize>,
    n: nat,
)
    ensures
        routed(rule, columns, indices, true).len() + routed(rule, columns, indices, false).len()
            == indices.len(),
        cross_validation::all_below(indices, n) ==> cross_validation::all_below(
            routed(rule, columns, indices, true),
            n,
        ) && cross_validation::all_below(routed(rule, columns, indices, false), n),
    decreases indices.len(),
{
    if indices.len() > 0 {
        let d = indices.drop_last();
        lemma_routed(rule, columns, d, n);
        if cross_validation::all_below(indices, n) {
            assert forall|i: int| 0 <= i < d.len() implies #[trigger] d[i] < n by {
                assert(d[i] == indices[i]);
            }
            assert(indices[indices.len() - 1] < n);
        }
    }
}

/// The children of a split are smaller than the node, and neither is empty.
pub proof fn lemma_split_shrinks(
    params: TreeParams,
    columns: Seq<Column>,
    indices: Seq<usize>,
    scored: Seq<ScoredView>,
)
    ensures
        split_of(params, columns, indices, scored) matches Some(s) ==> {
            &&& s.left.len() + s.right.len() == indices.len()
            &&& 0 < s.left.len() < indices.len()
            &&& 0 < s.right.len() < indices.len()
        },
{
    if split_of(params, columns, indices, scored) is Some {
        lemma_routed(
            split_of(params, columns, indices, scored)->Some_0.rule,
            columns,
            indices,
            0,
        );
    }
}

/// Chooses and makes the split of a node from its scored candidates.
pub fn split_node(
    params: &TreeParams,
    columns: &[Column],
    indices: &[usize],
    scored: &[ScoredCandidate],
) -> (r: Option<NodeSplit>)
    requires
        forall|i: int|
            0 <= i < scored@.len() ==> (#[trigger] scored@[i]).candidate.feature < columns@.len(),
        forall|f: int|
            0 <= f < columns@.len() ==> cross_validation::all_below(
                indices@,
                (#[trigger] columns@[f]).size(),
            ),
    ensures
        match split_of(*params, columns@, indices@, selector::scored_views(scored@)) {
            Some(s) => r matches Some(t) && t@ == s,
            None => r is None,
        },
{
    let c = match accept(params, scored) {
        Some(c) => c,
        None => {
            return None;
        },
    };
    let rule = match make_rule(
        &columns[c.feature],
        c.feature,
        c.state,
        indices,
        params.n_bins,
        params.split_style,
    ) {
        Some(rule) => rule,
        None => {
            return None;
        },
    };
    assert(rule.tested() == c.feature);
    let mut left: Vec<usize> = Vec::new();
    let mut right: Vec<usize> = Vec::new();
    let mut i: usize = 0;
    while i < indices.len()
        invariant
            i <= indices@.len(),
            rule.tested() < columns@.len(),
            forall|f: int|
                0 <= f < columns@.len() ==> cross_validation::all_below(
                    indices@,
                    (#[trigger] columns@[f]).size(),
                ),
            left@ == routed(rule, columns@, indices@.take(i as int), true),
            right@ == routed(rule, columns@, indices@.take(i as int), false),
        decreases indices@.len() - i,
    {
        assert(indices@.take(i + 1).drop_last() =~= indices@.take(i as int));
        let s: usize = indices[i];
        assert(cross_validation::all_below(
            indices@,
            columns@[rule.tested() as int].size(),
        ));
        if rule.route_left_train(columns, s) {
            left.push(s);
        } else {
            right.push(s);
        }
        i += 1;
    }
    assert(indices@.take(i as int) =~= indices@);
    let least: usize = if params.min_samples_leaf < 1 {
        1
    } else {
        params.min_samples_leaf
    };
    if left.len() < least || right.len() < least {
        return None;
    }
    Some(NodeSplit { rule, left, right })
}

/// The tree over the given samples of a node at the given depth.
pub open spec fn strict_tree<K: Task>(
    task: K,
    params: TreeParams,
    rank: spec_fn(StatsView) -> Float,
    columns: Seq<Column>,
    targets: Seq<K::Target>,
    indices: Seq<usize>,
    depth: nat,
) -> NodeView<<K::Prediction as View>::V>
    decreases indices.len(),
{
    let here = cross_validation::pick(targets, indices);
    let leaf = NodeView::Leaf { prediction: task.leaf_of(here), n_samples: indices.len() };
    let scored = strict_candidates(
        task,
        params,
        rank,
        columns,
        targets,
        indices,
        columns.len(),
    );
    proof {
        lemma_split_shrinks(params, columns, indices, scored);
    }
    if stops(task, params, here, depth) {
        leaf
    } else {
        match split_of(params, columns, indices, scored) {
            None => leaf,
            Some(s) => NodeView::Internal {
                rule: s.rule,
                left: Box::new(
                    strict_tree(task, params, rank, columns, targets, s.left, depth + 1),
                ),
                right: Box::new(
                    strict_tree(task, params, rank, columns, targets, s.right, depth + 1),
                ),
            },
        }
    }
}

/// Every fold of a node holds only samples of the node.
pub(crate) proof fn lemma_folds_within(kf: KFold, indices: Seq<usize>, n: nat)
    requires
        cross_validation::all_below(indices, n),
        2 * indices.len() <= u64::MAX,
    ensures
        task::folds_within(kf.folds_of(indices), n),
{
    let folds = kf.folds_of(indices);
    let order = kf.arranged(indices);
    let k = kf.fold_count(indices.len());
    cross_validation::law_arranged_permutes(kf, indices);
    assert forall|i: int| 0 <= i < order.len() implies #[trigger] order[i] < n by {
        broadcast use group_to_multiset_ensures;

        assert(order.contains(order[i]));
        assert(order.to_multiset().count(order[i]) > 0);
        assert(indices.contains(order[i]));
    }
    assert forall|f: int| 0 <= f < folds.len() implies cross_validation::all_below(
        (#[trigger] folds[f]).train,
        n,
    ) && cross_validation::all_below(folds[f].val, n) && 2 * folds[f].val.len() <= u64::MAX by {
        cross_validation::lemma_fold_range(indices.len(), k, f as nat);
        let a = cross_validation::fold_start(indices.len(), k, f as nat) as int;
        let b = cross_validation::fold_start(indices.len(), k, (f + 1) as nat) as int;
        assert forall|i: int| 0 <= i < folds[f].val.len() implies #[trigger] folds[f].val[i] < n by {
            assert(folds[f].val[i] == order[a + i]);
        }
        assert forall|i: int| 0 <= i < folds[f].train.len() implies #[trigger] folds[f].train[i]
            < n by {
            if i < a {
                assert(folds[f].train[i] == order[i]);
            } else {
                assert(folds[f].train[i] == order[b + (i - a)]);
            }
        }
    }
}

/// Several lists of candidates, one after another.
pub open spec fn chained(parts: Seq<Vec<ScoredCandidate>>) -> Seq<ScoredView>
    decreases parts.len(),
{
    if parts.len() == 0 {
        Seq::empty()
    } else {
        chained(parts.drop_last()) + selector::scored_views(parts.last()@)
    }
}

/// Whether a candidate stands in one of the lists.
pub open spec fn listed(parts: Seq<Vec<ScoredCandidate>>, x: ScoredCandidate) -> bool {
    exists|f: int, j: int|
        0 <= f < parts.len() && 0 <= j < parts[f]@.len() && #[trigger] parts[f]@[j] == x
}

/// Puts several lists of candidates into one.
pub fn chain(parts: Vec<Vec<ScoredCandidate>>) -> (r: Vec<ScoredCandidate>)
    ensures
        selector::scored_views(r@) == chained(parts@),
        forall|i: int| 0 <= i < r@.len() ==> listed(parts@, #[trigger] r@[i]),
{
    let mut rest = parts;
    let ghost all = rest@;
    let mut out: Vec<ScoredCandidate> = Vec::new();
    assert(selector::scored_views(out@) =~= Seq::empty());
    let ghost mut tail: Seq<ScoredView> = Seq::empty();
    assert(chained(all.take(all.len() as int)) + tail =~= chained(all)) by {
        assert(all.take(all.len() as int) =~= all);
    }
    while rest.len() > 0
        invariant
            rest@.len() <= all.len(),
            rest@ == all.take(rest@.len() as int),
            selector::scored_views(out@) == tail,
            chained(rest@) + tail == chained(all),
            forall|i: int| 0 <= i < out@.len() ==> listed(all, #[trigger] out@[i]),
        decreases rest@.len(),
    {
        let ghost before = rest@;
        let ghost later = out@;
        match rest.pop() {
            Some(part) => {
                assert(before.drop_last() =~= rest@);
                assert(rest@ =~= all.take(rest@.len() as int));
                assert(part == all[rest@.len() as int]);
                let mut head = part;
                let ghost first = head@;
                head.append(&mut out);
                out = head;
                assert(out@ =~= first + later);
                proof {
                    let views = selector::scored_views(first);
                    assert(selector::scored_views(out@) =~= views + tail);
                    assert(chained(rest@) + (views + tail) =~= (chained(rest@) + views) + tail);
                    tail = views + tail;
                    assert forall|i: int| 0 <= i < out@.len() implies listed(
                        all,
                        #[trigger] out@[i],
                    ) by {
                        if i < first.len() {
                            let f = rest@.len() as int;
                            assert(out@[i] == all[f]@[i]);
                        } else {
                            assert(out@[i] == later[i - first.len()]);
                        }
                    }
                }
            },
            None => {},
        }
    }
    proof {
        assert(chained(rest@) =~= Seq::empty());
        assert(chained(rest@) + tail =~= tail);
    }
    out
}

/// The scored candidates of the first features are those of their parts, one after another.
proof fn lemma_chained<K: Task>(
    task: K,
    params: TreeParams,
    rank: spec_fn(StatsView) -> Float,
    columns: Seq<Column>,
    targets: Seq<K::Target>,
    indices: Seq<usize>,
    parts: Seq<Vec<ScoredCandidate>>,
)
    requires
        parts.len() <= columns.len(),
        columns.len() <= usize::MAX,
        forall|f: int|
            0 <= f < parts.len() ==> selector::scored_views((#[trigger] parts[f])@)
                == task.strict_scores(
                columns[f],
                targets,
                f as usize,
                indices,
                params.cv.folds_of(indices),
                params.n_bins as nat,
                rank,
                cuts_ordered(columns[f], params.split_style),
            ),
    ensures
        chained(parts) == strict_candidates(
            task,
            params,
            rank,
            columns,
            targets,
            indices,
            parts.len(),
        ),
    decreases parts.len(),
{
    if parts.len() > 0 {
        let d = parts.drop_last();
        assert forall|f: int| 0 <= f < d.len() implies selector::scored_views((#[trigger] d[f])@)
            == task.strict_scores(
            columns[f],
            targets,
            f as usize,
            indices,
            params.cv.folds_of(indices),
            params.n_bins as nat,
            rank,
            cuts_ordered(columns[f], params.split_style),
        ) by {
            assert(d[f] == parts[f]);
        }
        lemma_chained(task, params, rank, columns, targets, indices, d);
        assert(parts[parts.len() - 1] == parts.last());
    }
}

/// The numbers below `n`.
pub(crate) fn numbers(n: usize) -> (r: Vec<usize>)
    ensures
        r@ == Seq::new(n as nat, |i: int| i as usize),
{
    let mut r: Vec<usize> = Vec::new();
    let mut i: usize = 0;
    while i < n
        invariant
            i <= n,
            r@ == Seq::new(i as nat, |j: int| j as usize),
        decreases n - i,
    {
        r.push(i);
        i += 1;
        assert(r@ =~= Seq::new(i as nat, |j: int| j as usize));
    }
    r
}

/// Scores every candidate split of a node, feature by feature.
pub fn score_node<K: Task, A: Aggregator + ?Sized, W: Workers>(
    task: &K,
    params: &TreeParams,
    aggregator: &A,
    columns: &[Column],
    targets: &[K::Target],
    indices: &[usize],
    folds: &[Fold],
    workers: &W,
) -> (r: Vec<ScoredCandidate>)
    requires
        aggregator.applicable(),
        forall|f: int| 0 <= f < columns@.len() ==> (#[trigger] columns@[f]).size() == targets@.len(),
        cross_validation::all_below(indices@, targets@.len()),
        2 * indices@.len() <= u64::MAX,
        cross_validation::fold_views(folds@) == params.cv.folds_of(indices@),
    ensures
        selector::scored_views(r@) == strict_candidates(
            *task,
            *params,
            aggregation::ranking(aggregator),
            columns@,
            targets@,
            indices@,
            columns@.len(),
        ),
        forall|i: int|
            0 <= i < r@.len() ==> (#[trigger] r@[i]).candidate.feature < columns@.len(),
{
    let ghost rank = aggregation::ranking(aggregator);
    proof {
        lemma_folds_within(params.cv, indices@, targets@.len());
    }
    let eval_one = |f: &usize| -> (r: Vec<ScoredCandidate>)
        requires
            *f < columns@.len(),
        ensures
            selector::scored_views(r@) == task.strict_scores(
                columns@[*f as int],
                targets@,
                *f,
                indices@,
                params.cv.folds_of(indices@),
                params.n_bins as nat,
                aggregation::ranking(aggregator),
                cuts_ordered(columns@[*f as int], params.split_style),
            ),
            forall|i: int| 0 <= i < r@.len() ==> (#[trigger] r@[i]).candidate.feature == *f,
        {
            let ordered: bool = columns[*f].is_continuous() && params.split_style
                == SplitStyle::Threshold;
            task.score_feature_strict(
                columns,
                targets,
                *f,
                indices,
                folds,
                params.n_bins,
                aggregator,
                ordered,
            )
        };
    let ids = numbers(columns.len());
    let n_threads: usize = if params.parallel {
        params.n_threads
    } else {
        1
    };
    let parts = workers.map(ids.as_slice(), n_threads, eval_one);
    proof {
        assert forall|f: int| 0 <= f < parts@.len() implies selector::scored_views(
            (#[trigger] parts@[f])@,
        ) == task.strict_scores(
            columns@[f],
            targets@,
            f as usize,
            indices@,
            params.cv.folds_of(indices@),
            params.n_bins as nat,
            rank,
            cuts_ordered(columns@[f], params.split_style),
        ) && forall|i: int|
            0 <= i < parts@[f]@.len() ==> (#[trigger] parts@[f]@[i]).candidate.feature == f by {
            assert(call_ensures(eval_one, (&ids@[f],), parts@[f]));
        }
        lemma_chained(*task, *params, rank, columns@, targets@, indices@, parts@);
    }
    let scored = chain(parts);
    proof {
        assert forall|i: int| 0 <= i < scored@.len() implies (
        #[trigger] scored@[i]).candidate.feature < columns@.len() by {
            assert(listed(parts@, scored@[i]));
            let (f, j) = choose|f: int, j: int|
                0 <= f < parts@.len() && 0 <= j < parts@[f]@.len() && #[trigger] parts@[f]@[j]
                    == scored@[i];
            assert(parts@[f]@[j].candidate.feature == f);
        }
    }
    scored
}

/// Grows the tree over the given samples of a node.
pub fn build_node<K: Task, A: Aggregator + ?Sized, W: Workers>(
    task: &K,
    params: &TreeParams,
    aggregator: &A,
    columns: &[Column],
    targets: &[K::Target],
    indices: &[usize],
    depth: usize,
    workers: &W,
) -> (r: Node<K::Prediction>)
    requires
        aggregator.applicable(),
        forall|f: int| 0 <= f < columns@.len() ==> (#[trigger] columns@[f]).size() == targets@.len(),
        cross_validation::all_below(indices@, targets@.len()),
        2 * indices@.len() <= u64::MAX,
        depth + indices@.len() <= usize::MAX,
    ensures
        r@ == strict_tree(
            *task,
            *params,
            aggregation::ranking(aggregator),
            columns@,
            targets@,
            indices@,
            depth as nat,
        ),
    decreases indices@.len(),
{
    let node_targets = cross_validation::picked(targets, indices);
    let prediction = task.leaf(node_targets.as_slice());
    if is_terminal(task, params, node_targets.as_slice(), depth) {
        return Node::Leaf { prediction, n_samples: indices.len() };
    }
    let folds = params.cv.folds(indices);
    let scored = score_node(
        task,
        params,
        aggregator,
        columns,
        targets,
        indices,
        folds.as_slice(),
        workers,
    );
    proof {
        lemma_split_shrinks(
            *params,
            columns@,
            indices@,
            selector::scored_views(scored@),
        );
    }
    match split_node(params, columns, indices, scored.as_slice()) {
        None => Node::Leaf { prediction, n_samples: indices.len() },
        Some(split) => {
            proof {
                lemma_routed(split.rule, columns@, indices@, targets@.len());
            }
            let left = build_node(
                task,
                params,
                aggregator,
                columns,
                targets,
                split.left.as_slice(),
                depth + 1,
                workers,
            );
            let right = build_node(
                task,
                params,
                aggregator,
                columns,
                targets,
                split.right.as_slice(),
                depth + 1,
                workers,
            );
            Node::Internal { rule: split.rule, left: Box::new(left), right: Box::new(right) }
        },
    }
}

} // verus!
