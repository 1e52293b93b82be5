//! When a node is split, and into what.

use crate::binning::BinnedView;
use crate::cross_validation;
use crate::cross_validation::StatsView;
use crate::data::{Bin, Column, SampleId};
use crate::encoder;
use crate::float::Float;
use crate::laws::counting;
use crate::laws::impurities;
use crate::laws::scoring;
use crate::selector;
use crate::selector::ScoredView;
use crate::tree::fast;
use crate::tree::node::NodeView;
use crate::tree::params::{SplitStyle, TreeParams};
use crate::tree::rule::SplitRule;
use crate::tree::strict;
use crate::tree::task::Task;
use vstd::prelude::*;

verus! {

/// Whether candidate `b` is the best: its score is finite, none is higher, and of those that are
/// equal it has the lowest feature, and then the lowest state.
pub open spec fn is_best(scored: Seq<ScoredView>, b: int) -> bool {
    &&& 0 <= b < scored.len()
    &&& scored[b].score.finite()
    &&& forall|i: int|
        0 <= i < scored.len() && (#[trigger] scored[i]).score.finite() ==> {
            let c = scored[i].candidate;
            let d = scored[b].candidate;
            ||| scored[i].score.value() < scored[b].score.value()
            ||| scored[i].score.value() == scored[b].score.value() && (d.feature < c.feature || (
            d.feature == c.feature && d.state <= c.state))
        }
}

/// Whether a node may be split: it is large enough, not too deep, and not pure.
pub open spec fn may_split(params: TreeParams, n: nat, depth: nat, impurity: Float) -> bool {
    &&& n >= 2
    &&& n >= params.min_samples_split
    &&& params.max_depth is None || depth < params.max_depth->Some_0
    &&& !Float::at_most(impurity, Float::zero())
}

/// The best candidate is the winner.
proof fn lemma_best_wins(scored: Seq<ScoredView>, b: int)
    requires
        is_best(scored, b),
    ensures
        selector::winner(scored) is Some,
        scored[selector::winner(scored)->Some_0 as int].candidate == scored[b].candidate,
        scored[selector::winner(scored)->Some_0 as int].score.place() == scored[b].score.place(),
        scored[selector::winner(scored)->Some_0 as int].score.finite(),
{
    selector::law_winner(scored);
    assert(scored[b].score.finite());
    let w = selector::winner(scored)->Some_0 as int;
    assert(scored[w].score.finite());
    assert(!selector::beats(scored[b], scored[w]));
    crate::float::law_order_is_by_value(scored[w].score, scored[b].score);
    crate::float::law_order_is_by_value(scored[b].score, scored[w].score);
}

/// The sizes of both sides of a rule.
proof fn lemma_routed_count(
    rule: SplitRule,
    columns: Seq<Column>,
    indices: Seq<usize>,
    left: bool,
)
    ensures
        strict::routed(rule, columns, indices, left).len() == counting::count_where(
            indices.len(),
            taken(rule, columns, indices, left),
        ),
        forall|i: int|
            0 <= i < strict::routed(rule, columns, indices, left).len() ==> rule.takes_sample(
                columns,
                (#[trigger] strict::routed(rule, columns, indices, left)[i]) as int,
            ) == left,
    decreases indices.len(),
{
    if indices.len() > 0 {
        let d = indices.drop_last();
        lemma_routed_count(rule, columns, d, left);
        counting::lemma_count_agrees(
            d.len(),
            taken(rule, columns, d, left),
            taken(rule, columns, indices, left),
        );
    }
}

/// The positions of samples that a rule sends to the given side.
pub open spec fn taken(
    rule: SplitRule,
    columns: Seq<Column>,
    indices: Seq<usize>,
    left: bool,
) -> spec_fn(int) -> bool {
    |i: int| rule.takes_sample(columns, indices[i] as int) == left
}

proof fn lemma_sizes_add_up(rule: SplitRule, columns: Seq<Column>, indices: Seq<usize>, n: nat)
    ensures
        counting::count_where(n, taken(rule, columns, indices, true)) + counting::count_where(
            n,
            taken(rule, columns, indices, false),
        ) == n,
    decreases n,
{
    if n > 0 {
        lemma_sizes_add_up(rule, columns, indices, (n - 1) as nat);
    }
}

/// A node grown on the columns is split exactly when it is large enough, not too deep and not pure,
/// some candidate has a finite score above the limit, and the rule of the best candidate leaves
/// enough samples on both sides. Otherwise it is a leaf of all its samples.
pub proof fn law_strict_split<K: Task>(
    task: K,
    params: TreeParams,
    rank: spec_fn(StatsView) -> Float,
    columns: Seq<Column>,
    targets: Seq<K::Target>,
    indices: Seq<usize>,
    depth: nat,
    scored: Seq<ScoredView>,
    here: Seq<K::Target>,
)
    requires
        scored == strict::strict_candidates(
            task,
            params,
            rank,
            columns,
            targets,
            indices,
            columns.len(),
        ),
        here.len() == indices.len(),
        forall|i: int| 0 <= i < indices.len() ==> #[trigger] here[i] == targets[indices[i] as int],
    ensures
        ({
            let tree = strict::strict_tree(task, params, rank, columns, targets, indices, depth);
            let n = indices.len();
            let leaf = NodeView::Leaf { prediction: task.leaf_of(here), n_samples: n };
            &&& !may_split(params, n, depth, task.impurity_of(here)) ==> tree == leaf
            &&& (forall|i: int|
                0 <= i < scored.len() && (#[trigger] scored[i]).score.finite() ==> Float::at_most(
                    scored[i].score,
                    params.min_impurity_decrease,
                )) ==> tree == leaf
            &&& forall|b: int| #[trigger]
                is_best(scored, b) && may_split(params, n, depth, task.impurity_of(here))
                    && !Float::at_most(scored[b].score, params.min_impurity_decrease) ==> {
                    let c = scored[b].candidate;
                    match strict::rule_for(
                        columns[c.feature as int],
                        c.feature,
                        c.state,
                        indices,
                        params.n_bins as nat,
                        params.split_style,
                    ) {
                        None => tree == leaf,
                        Some(rule) => {
                            let nl = counting::count_where(
                                n,
                                taken(rule, columns, indices, true),
                            );
                            if nl >= 1 && n - nl >= 1 && nl >= params.min_samples_leaf && n - nl
                                >= params.min_samples_leaf {
                                tree matches NodeView::Internal { rule: kept, left, right } && kept
                                    == rule && left.samples() == nl && right.samples() == n - nl
                            } else {
                                tree == leaf
                            }
                        },
                    }
                }
        }),
{
    let tree = strict::strict_tree(task, params, rank, columns, targets, indices, depth);
    let n = indices.len();
    assert(cross_validation::pick(targets, indices) =~= here);
    strict::law_splits_pay(params, scored);
    assert forall|b: int| #[trigger]
        is_best(scored, b) && may_split(params, n, depth, task.impurity_of(here))
            && !Float::at_most(scored[b].score, params.min_impurity_decrease) implies {
        let c = scored[b].candidate;
        strict::accepted(params, scored) == Some(c)
    } by {
        lemma_best_wins(scored, b);
    }
    if strict::split_of(params, columns, indices, scored) is Some {
        let s = strict::split_of(params, columns, indices, scored)->Some_0;
        strict::lemma_split_shrinks(params, columns, indices, scored);
        lemma_strict_samples(task, params, rank, columns, targets, s.left, depth + 1);
        lemma_strict_samples(task, params, rank, columns, targets, s.right, depth + 1);
    }
    assert forall|b: int| #[trigger]
        is_best(scored, b) && may_split(params, n, depth, task.impurity_of(here))
            && !Float::at_most(scored[b].score, params.min_impurity_decrease) implies ({
        let c = scored[b].candidate;
        match strict::rule_for(
            columns[c.feature as int],
            c.feature,
            c.state,
            indices,
            params.n_bins as nat,
            params.split_style,
        ) {
            None => true,
            Some(rule) => {
                &&& strict::routed(rule, columns, indices, true).len() == counting::count_where(
                    n,
                    taken(rule, columns, indices, true),
                )
                &&& strict::routed(rule, columns, indices, false).len() == n
                    - counting::count_where(n, taken(rule, columns, indices, true))
            },
        }
    }) by {
        let c = scored[b].candidate;
        let rule = strict::rule_for(
            columns[c.feature as int],
            c.feature,
            c.state,
            indices,
            params.n_bins as nat,
            params.split_style,
        );
        if rule is Some {
            lemma_routed_count(rule->Some_0, columns, indices, true);
            lemma_routed_count(rule->Some_0, columns, indices, false);
            lemma_sizes_add_up(rule->Some_0, columns, indices, n);
        }
    }
}

/// A tree counts the samples that it is grown on.
proof fn lemma_strict_samples<K: Task>(
    task: K,
    params: TreeParams,
    rank: spec_fn(StatsView) -> Float,
    columns: Seq<Column>,
    targets: Seq<K::Target>,
    indices: Seq<usize>,
    depth: nat,
)
    ensures
        strict::strict_tree(task, params, rank, columns, targets, indices, depth).samples()
            == indices.len(),
    decreases indices.len(),
{
    let scored = strict::strict_candidates(
        task,
        params,
        rank,
        columns,
        targets,
        indices,
        columns.len(),
    );
    strict::lemma_split_shrinks(params, columns, indices, scored);
    match strict::split_of(params, columns, indices, scored) {
        None => {},
        Some(s) => {
            lemma_strict_samples(task, params, rank, columns, targets, s.left, depth + 1);
            lemma_strict_samples(task, params, rank, columns, targets, s.right, depth + 1);
        },
    }
}

/// The positions of samples whose bin code is on the left: not above the state for an ordered cut,
/// where a missing value is never on the left, and equal to the state otherwise.
pub open spec fn coded_left(
    codes: Seq<Bin>,
    samples: Seq<SampleId>,
    state: u32,
    ordered: bool,
) -> spec_fn(int) -> bool {
    |i: int|
        {
            let code = codes[samples[i] as int];
            if ordered {
                code != 0xffff && code <= state
            } else {
                code as u32 == state
            }
        }
}

proof fn lemma_decided_count(
    codes: Seq<Bin>,
    samples: Seq<SampleId>,
    state: u32,
    ordered: bool,
    n: nat,
)
    requires
        n <= samples.len(),
        state <= 0xffff,
    ensures
        fast::partitioned(
            samples,
            fast::decisions_of(codes, samples, state, ordered).take(n as int),
        ).1 == counting::count_where(n, coded_left(codes, samples, state, ordered)),
    decreases n,
{
    let d = fast::decisions_of(codes, samples, state, ordered);
    if n > 0 {
        lemma_decided_count(codes, samples, state, ordered, (n - 1) as nat);
        assert(d.take(n as int).drop_last() =~= d.take(n - 1));
    }
}

/// A node grown on binned data is split exactly when it is large enough, not too deep and not pure,
/// some candidate has a finite score above the limit, and the best candidate leaves enough samples
/// on both sides. Otherwise it is a leaf of all its samples.
pub proof fn law_fast_split<K: Task>(
    task: K,
    params: TreeParams,
    rank: spec_fn(StatsView) -> Float,
    binned: BinnedView,
    targets: Seq<K::Target>,
    samples: Seq<SampleId>,
    depth: nat,
    scored: Seq<ScoredView>,
    here: Seq<K::Target>,
)
    requires
        scored == fast::fast_candidates(
            task,
            params,
            rank,
            binned,
            targets,
            samples,
            binned.codes.len(),
        ),
        here.len() == samples.len(),
        forall|i: int| 0 <= i < samples.len() ==> #[trigger] here[i] == targets[samples[i] as int],
    ensures
        ({
            let tree = fast::fast_tree(task, params, rank, binned, targets, samples, depth);
            let n = samples.len();
            let leaf = NodeView::Leaf { prediction: task.leaf_of(here), n_samples: n };
            &&& !may_split(params, n, depth, task.impurity_of(here)) ==> tree == leaf
            &&& (forall|i: int|
                0 <= i < scored.len() && (#[trigger] scored[i]).score.finite() ==> Float::at_most(
                    scored[i].score,
                    params.min_impurity_decrease,
                )) ==> tree == leaf
            &&& forall|b: int| #[trigger]
                is_best(scored, b) && may_split(params, n, depth, task.impurity_of(here))
                    && !Float::at_most(scored[b].score, params.min_impurity_decrease)
                    && scored[b].candidate.state <= 0xffff ==> {
                    let c = scored[b].candidate;
                    let bins = binned.bins[c.feature as int];
                    match fast::fast_rule(bins, c.feature, c.state, params.split_style) {
                        None => tree == leaf,
                        Some(rule) => {
                            let nl = counting::count_where(
                                n,
                                coded_left(
                                    binned.codes[c.feature as int],
                                    samples,
                                    c.state,
                                    bins.is_continuous && params.split_style
                                        == SplitStyle::Threshold,
                                ),
                            );
                            if nl >= 1 && n - nl >= 1 && nl >= params.min_samples_leaf && n - nl
                                >= params.min_samples_leaf {
                                tree matches NodeView::Internal { rule: kept, left, right } && kept
                                    == rule && left.samples() == nl && right.samples() == n - nl
                            } else {
                                tree == leaf
                            }
                        },
                    }
                }
        }),
{
    let n = samples.len();
    assert(cross_validation::pick(targets, fast::widened(samples)) =~= here);
    strict::law_splits_pay(params, scored);
    assert forall|b: int| #[trigger]
        is_best(scored, b) && may_split(params, n, depth, task.impurity_of(here))
            && !Float::at_most(scored[b].score, params.min_impurity_decrease)
            && scored[b].candidate.state <= 0xffff implies {
        let c = scored[b].candidate;
        let bins = binned.bins[c.feature as int];
        let ordered = bins.is_continuous && params.split_style == SplitStyle::Threshold;
        let codes = binned.codes[c.feature as int];
        &&& strict::accepted(params, scored) == Some(c)
        &&& fast::partitioned(samples, fast::decisions_of(codes, samples, c.state, ordered)).1
            == counting::count_where(n, coded_left(codes, samples, c.state, ordered))
        &&& fast::partitioned(samples, fast::decisions_of(codes, samples, c.state, ordered)).0.len()
            == n
    } by {
        lemma_best_wins(scored, b);
        let c = scored[b].candidate;
        let bins = binned.bins[c.feature as int];
        let ordered = bins.is_continuous && params.split_style == SplitStyle::Threshold;
        let codes = binned.codes[c.feature as int];
        let d = fast::decisions_of(codes, samples, c.state, ordered);
        lemma_decided_count(codes, samples, c.state, ordered, n);
        assert(d.take(n as int) =~= d);
        fast::law_partition(samples, d);
    }
    if fast::fast_split_of(params, binned, samples, scored) is Some {
        let s = fast::fast_split_of(params, binned, samples, scored)->Some_0;
        fast::lemma_fast_split_shrinks(params, binned, samples, scored);
        lemma_fast_samples(task, params, rank, binned, targets, s.left, depth + 1);
        lemma_fast_samples(task, params, rank, binned, targets, s.right, depth + 1);
    }
}

/// A tree counts the samples that it is grown on.
proof fn lemma_fast_samples<K: Task>(
    task: K,
    params: TreeParams,
    rank: spec_fn(StatsView) -> Float,
    binned: BinnedView,
    targets: Seq<K::Target>,
    samples: Seq<SampleId>,
    depth: nat,
)
    ensures
        fast::fast_tree(task, params, rank, binned, targets, samples, depth).samples()
            == samples.len(),
    decreases samples.len(),
{
    let scored = fast::fast_candidates(
        task,
        params,
        rank,
        binned,
        targets,
        samples,
        binned.codes.len(),
    );
    fast::lemma_fast_split_shrinks(params, binned, samples, scored);
    match fast::fast_split_of(params, binned, samples, scored) {
        None => {},
        Some(s) => {
            lemma_fast_samples(task, params, rank, binned, targets, s.left, depth + 1);
            lemma_fast_samples(task, params, rank, binned, targets, s.right, depth + 1);
        },
    }
}

/// The rule of a split sends a sample of the node to the side where its code lies: the code by the
/// cut points of the node, or the category. There is a rule unless the state is no bin with a cut
/// above it, no bin, or the unknown category.
pub proof fn law_rule_divides(
    columns: Seq<Column>,
    feature: usize,
    state: u32,
    indices: Seq<usize>,
    n_bins: nat,
    style: SplitStyle,
    i: usize,
)
    requires
        feature < columns.len(),
        i < columns[feature as int].size(),
        n_bins <= u32::MAX,
    ensures
        ({
            let column = columns[feature as int];
            let rule = strict::rule_for(column, feature, state, indices, n_bins, style);
            let code = cross_validation::coded(column, indices, seq![i], n_bins)[0];
            let ordered = column is Continuous && style == SplitStyle::Threshold;
            let cuts = match column {
                Column::Continuous(v) => encoder::edges_of(
                    cross_validation::pick(v@, indices),
                    n_bins,
                ).len(),
                Column::Categorical(_) => 0,
            };
            &&& rule matches Some(r) ==> {
                &&& r.tested() == feature
                &&& r.takes_sample(columns, i as int) == counting::on_left(code, state, ordered)
            }
            &&& rule is None <==> (if column is Categorical {
                state == 0xffff_ffff
            } else if ordered {
                state >= cuts
            } else {
                state > cuts
            })
        }),
{
    let column = columns[feature as int];
    match column {
        Column::Continuous(v) => {
            let values = cross_validation::pick(v@, indices);
            let edges = encoder::edges_of(values, n_bins);
            let x = v@[i as int];
            encoder::law_edges(values, n_bins);
            if x.finite() {
                encoder::lemma_reached_bound(edges, x);
                match style {
                    SplitStyle::Threshold => {
                        if state < edges.len() {
                            encoder::law_cut_divides(edges, x, state as nat);
                        }
                    },
                    SplitStyle::BinMembership => {
                        if state <= edges.len() {
                            encoder::law_bin_encloses(edges, x, state as nat);
                        }
                    },
                }
            }
        },
        Column::Categorical(c) => {},
    }
}

proof fn lemma_routed_items(
    rule: SplitRule,
    columns: Seq<Column>,
    indices: Seq<usize>,
    left: bool,
    p: Seq<int>,
)
    requires
        impurities::selects(indices.len(), taken(rule, columns, indices, left), p),
    ensures
        strict::routed(rule, columns, indices, left) == Seq::new(p.len(), |i: int| indices[p[i]]),
    decreases indices.len(),
{
    let has = taken(rule, columns, indices, left);
    let goal = Seq::new(p.len(), |i: int| indices[p[i]]);
    if indices.len() == 0 {
        if p.len() > 0 {
            let x = p[0];
            assert(has(x));
        }
    } else {
        let d = indices.drop_last();
        let m = d.len();
        let less = taken(rule, columns, d, left);
        scoring::lemma_selects_step(indices.len(), has, p);
        let q = if has(m as int) {
            p.drop_last()
        } else {
            p
        };
        assert forall|x: int| 0 <= x < m implies #[trigger] less(x) == has(x) by {}
        assert(impurities::selects(m, less, q)) by {
            assert forall|i: int| 0 <= i < q.len() implies 0 <= #[trigger] q[i] < m && less(
                q[i],
            ) by {
                assert(has(q[i]));
            }
            assert forall|x: int| 0 <= x < m && #[trigger] less(x) implies q.contains(x) by {
                assert(has(x));
            }
        }
        lemma_routed_items(rule, columns, d, left, q);
    }
    assert(strict::routed(rule, columns, indices, left) =~= goal);
}

/// The children of a decision node are grown one level deeper: the left one on the samples that the
/// rule takes, the right one on the others, both in the order of the node.
pub proof fn law_children<K: Task>(
    task: K,
    params: TreeParams,
    rank: spec_fn(StatsView) -> Float,
    columns: Seq<Column>,
    targets: Seq<K::Target>,
    indices: Seq<usize>,
    depth: nat,
    lp: Seq<int>,
    rp: Seq<int>,
)
    requires
        strict::strict_tree(
            task,
            params,
            rank,
            columns,
            targets,
            indices,
            depth,
        ) matches NodeView::Internal { rule, .. } && impurities::selects(
            indices.len(),
            taken(rule, columns, indices, true),
            lp,
        ) && impurities::selects(indices.len(), taken(rule, columns, indices, false), rp),
    ensures
        strict::strict_tree(
            task,
            params,
            rank,
            columns,
            targets,
            indices,
            depth,
        ) matches NodeView::Internal { left, right, .. } ==> {
            &&& *left == strict::strict_tree(
                task,
                params,
                rank,
                columns,
                targets,
                Seq::new(lp.len(), |i: int| indices[lp[i]]),
                depth + 1,
            )
            &&& *right == strict::strict_tree(
                task,
                params,
                rank,
                columns,
                targets,
                Seq::new(rp.len(), |i: int| indices[rp[i]]),
                depth + 1,
            )
        },
{
    let scored = strict::strict_candidates(
        task,
        params,
        rank,
        columns,
        targets,
        indices,
        columns.len(),
    );
    let s = strict::split_of(params, columns, indices, scored)->Some_0;
    lemma_routed_items(s.rule, columns, indices, true, lp);
    lemma_routed_items(s.rule, columns, indices, false, rp);
}

proof fn lemma_decided_items(
    codes: Seq<Bin>,
    samples: Seq<SampleId>,
    state: u32,
    ordered: bool,
    p: Seq<int>,
    n: nat,
)
    requires
        n <= samples.len(),
        state <= 0xffff,
        impurities::selects(n, coded_left(codes, samples, state, ordered), p),
    ensures
        fast::decided(
            samples,
            fast::decisions_of(codes, samples, state, ordered).take(n as int),
            true,
        ) == Seq::new(p.len(), |i: int| samples[p[i]]),
    decreases n,
{
    let d = fast::decisions_of(codes, samples, state, ordered);
    let has = coded_left(codes, samples, state, ordered);
    let goal = Seq::new(p.len(), |i: int| samples[p[i]]);
    if n == 0 {
        if p.len() > 0 {
            let x = p[0];
            assert(has(x));
        }
    } else {
        scoring::lemma_selects_step(n, has, p);
        let q = if has(n - 1) {
            p.drop_last()
        } else {
            p
        };
        lemma_decided_items(codes, samples, state, ordered, q, (n - 1) as nat);
        assert(d.take(n as int).drop_last() =~= d.take(n - 1));
    }
    assert(fast::decided(samples, d.take(n as int), true) =~= goal);
}

/// The children of a decision node of binned data are grown one level deeper: the left one on the
/// samples whose code is on the left, in the order of the node, the right one on the others.
pub proof fn law_binned_children<K: Task>(
    task: K,
    params: TreeParams,
    rank: spec_fn(StatsView) -> Float,
    binned: BinnedView,
    targets: Seq<K::Target>,
    samples: Seq<SampleId>,
    depth: nat,
    scored: Seq<ScoredView>,
    b: int,
    lp: Seq<int>,
)
    requires
        scored == fast::fast_candidates(
            task,
            params,
            rank,
            binned,
            targets,
            samples,
            binned.codes.len(),
        ),
        is_best(scored, b),
        scored[b].candidate.state <= 0xffff,
        fast::fast_tree(task, params, rank, binned, targets, samples, depth) is Internal,
        impurities::selects(
            samples.len(),
            coded_left(
                binned.codes[scored[b].candidate.feature as int],
                samples,
                scored[b].candidate.state,
                binned.bins[scored[b].candidate.feature as int].is_continuous && params.split_style
                    == SplitStyle::Threshold,
            ),
            lp,
        ),
    ensures
        ({
            let l = Seq::new(lp.len(), |i: int| samples[lp[i]]);
            fast::fast_tree(
                task,
                params,
                rank,
                binned,
                targets,
                samples,
                depth,
            ) matches NodeView::Internal { left, right, .. } ==> {
                &&& *left == fast::fast_tree(task, params, rank, binned, targets, l, depth + 1)
                &&& exists|r: Seq<SampleId>|
                    (#[trigger] r.to_multiset()).add(l.to_multiset()) == samples.to_multiset()
                        && *right == fast::fast_tree(
                        task,
                        params,
                        rank,
                        binned,
                        targets,
                        r,
                        depth + 1,
                    )
            }
        }),
{
    let c = scored[b].candidate;
    let codes = binned.codes[c.feature as int];
    let ordered = binned.bins[c.feature as int].is_continuous && params.split_style
        == SplitStyle::Threshold;
    let d = fast::decisions_of(codes, samples, c.state, ordered);
    let l = Seq::new(lp.len(), |i: int| samples[lp[i]]);
    lemma_best_wins(scored, b);
    lemma_decided_items(codes, samples, c.state, ordered, lp, samples.len());
    assert(d.take(samples.len() as int) =~= d);
    fast::law_partition(samples, d);
    let (moved, p) = fast::partitioned(samples, d);
    let r = moved.skip(p as int);
    assert(moved.take(p as int) == l);
    assert(moved =~= l + r);
    vstd::seq_lib::lemma_multiset_commutative(l, r);
    assert(r.to_multiset().add(l.to_multiset()) =~= samples.to_multiset());
}

/// The candidates of a node of binned data are those of its features, one feature after another,
/// each with the folds of the node's samples.
pub proof fn law_binned_candidates_by_feature<K: Task>(
    task: K,
    params: TreeParams,
    rank: spec_fn(StatsView) -> Float,
    binned: BinnedView,
    targets: Seq<K::Target>,
    samples: Seq<SampleId>,
    indices: Seq<usize>,
    order: Seq<SampleId>,
    f: nat,
)
    requires
        f < binned.codes.len() <= usize::MAX,
        indices.len() == samples.len(),
        forall|i: int| 0 <= i < samples.len() ==> #[trigger] indices[i] == samples[i],
        order.len() == samples.len(),
        forall|p: int|
            0 <= p < samples.len() ==> #[trigger] order[p] == params.cv.arranged(indices)[p],
    ensures
        ({
            let k = params.cv.compact_count(samples.len());
            let before = fast::fast_candidates(task, params, rank, binned, targets, samples, f);
            let after = fast::fast_candidates(task, params, rank, binned, targets, samples, f + 1);
            after == before + task.fast_scores(
                binned.codes[f as int],
                targets,
                order,
                cross_validation::fold_ids(samples.len(), k),
                k,
                binned.bins[f as int].max_bin,
                f as usize,
                rank,
                binned.bins[f as int].is_continuous && params.split_style
                    != SplitStyle::BinMembership,
            )
        }),
        fast::fast_candidates(task, params, rank, binned, targets, samples, 0).len() == 0,
{
    assert(fast::widened(samples) =~= indices);
    assert forall|p: int| 0 <= p < samples.len() implies params.cv.arranged(indices)[p] as SampleId
        == order[p] by {
        assert(order[p] == params.cv.arranged(indices)[p]);
    }
    assert(fast::fold_order(params.cv, samples) =~= order);
}

} // verus!
