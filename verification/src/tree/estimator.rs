//! The tree estimator.

use crate::aggregation;
use crate::aggregation::{Aggregator, Mean};
use crate::binning;
use crate::binning::BinnedData;
use crate::criterion::{Criterion, Gini, Mse};
use crate::cross_validation;
use crate::cross_validation::StatsView;
use crate::data;
use crate::data::{Column, FeatureValue, SampleId};
use crate::float::Float;
use crate::histogram::ClassImpurityKind;
use crate::parallel::{InTurn, Workers};
use crate::text;
use crate::tree::export;
use crate::tree::export::{walk_export, ExportedNode};
use crate::tree::fast;
use crate::tree::fast::build_node_fast;
use crate::tree::growth;
use crate::tree::node::{node_depth, node_leaves, predict_node, Node, NodeView};
use crate::tree::params::{SplitMode, SplitStyle, TreeParams};
use crate::tree::strict;
use crate::tree::strict::build_node;
use crate::tree::task::{Classification, Prediction, Regression, Task};
use vstd::prelude::*;
use vstd::string::*;

verus! {

/// A cross-validated decision tree.
pub struct DecisionTree<K: Task, A: Aggregator + ?Sized = dyn Aggregator> {
    /// The learning task.
    pub task: K,
    /// Hyper-parameters.
    pub params: TreeParams,
    /// The fitted tree, once there is one.
    pub root: Option<Node<K::Prediction>>,
    /// How the fold scores of a split become one score.
    pub aggregator: Box<A>,
}

/// The samples of a whole dataset.
pub open spec fn all_indices(n: nat) -> Seq<usize> {
    Seq::new(n, |i: int| i as usize)
}

/// The samples of a whole dataset, as compact ids.
pub open spec fn all_ids(n: nat) -> Seq<SampleId> {
    Seq::new(n, |i: int| i as SampleId)
}

/// The message for targets of the wrong length.
pub open spec fn mismatch_message(found: nat, expected: nat) -> Seq<char> {
    "targets length "@ + text::decimal(found) + " does not match "@ + text::decimal(expected)
        + " samples"@
}

/// The message for a task that histograms cannot serve.
pub open spec fn unsupported_message() -> Seq<char> {
    "this "@ + "task (e.g. MAE) is not supported in SplitMode::Fast; use Strict"@
}

/// Why fitting fails, if it does.
pub open spec fn fit_error<K: Task>(
    task: K,
    params: TreeParams,
    columns: Seq<Column>,
    n_targets: nat,
) -> Option<Seq<char>> {
    if columns.len() == 0 {
        Some("need at least one feature column"@)
    } else {
        let n = columns[0].size();
        let k = data::first_ragged(columns, n);
        if k < columns.len() {
            Some(data::ragged_message(k, columns[k as int].size(), n))
        } else if n_targets != n {
            Some(mismatch_message(n_targets, n))
        } else if n == 0 {
            Some("need at least one sample"@)
        } else if params.mode == SplitMode::Strict {
            None
        } else if !task.histograms() {
            Some(unsupported_message())
        } else {
            let f = binning::first_overfull(columns, params.n_bins as nat);
            if f < columns.len() {
                Some(
                    binning::overfull_message(
                        f,
                        binning::bins_of(columns[f as int], params.n_bins as nat).max_bin,
                        columns[f as int] is Continuous,
                    ),
                )
            } else {
                None
            }
        }
    }
}

/// The tree fitted to the given data.
pub open spec fn fitted_tree<K: Task>(
    task: K,
    params: TreeParams,
    rank: spec_fn(StatsView) -> Float,
    columns: Seq<Column>,
    targets: Seq<K::Target>,
) -> NodeView<<K::Prediction as View>::V> {
    match params.mode {
        SplitMode::Strict => strict::strict_tree(
            task,
            params,
            rank,
            columns,
            targets,
            all_indices(targets.len()),
            0,
        ),
        SplitMode::Fast => fast::fast_tree(
            task,
            params,
            rank,
            binning::binned_of(columns, params.n_bins as nat),
            targets,
            all_ids(targets.len()),
            0,
        ),
    }
}

/// Whether the machine can count and address what fitting to the given columns and `n` targets
/// needs.
pub open spec fn fit_in_range<K: Task>(
    task: K,
    params: TreeParams,
    columns: Seq<Column>,
    n: nat,
) -> bool {
    &&& 2 * n <= u64::MAX
    &&& params.mode == SplitMode::Fast && fit_error(task, params, columns, n) is None ==> {
        &&& n <= u32::MAX
        &&& fast::tables_fit(
            task,
            params.cv,
            binning::binned_of(columns, params.n_bins as nat).bins,
            n,
        )
    }
}

/// Whatever the columns hold, fitting is in range for a task that can address tables of 255 folds
/// and 65535 bins.
pub proof fn law_small_tasks_fit<K: Task>(
    task: K,
    params: TreeParams,
    columns: Seq<Column>,
    n: nat,
)
    requires
        2 * n <= u64::MAX,
        params.mode == SplitMode::Fast ==> n <= u32::MAX && task.addressable(255, 0xffff),
    ensures
        fit_in_range(task, params, columns, n),
{
    if params.mode == SplitMode::Fast && fit_error(task, params, columns, n) is None {
        let bins = binning::binned_of(columns, params.n_bins as nat).bins;
        binning::law_first_overfull(columns, params.n_bins as nat);
        assert forall|f: int| 0 <= f < bins.len() implies task.addressable(
            params.cv.compact_count(n),
            (#[trigger] bins[f]).max_bin,
        ) by {
            assert(binning::bins_fit(columns[f], params.n_bins as nat));
            task.smaller_addressable(params.cv.compact_count(n), bins[f].max_bin, 255, 0xffff);
        }
    }
}

fn mismatch_text(found: usize, expected: usize) -> (r: String)
    ensures
        r@ == mismatch_message(found as nat, expected as nat),
{
    let mut out = "targets length ".to_owned();
    text::push_decimal(&mut out, found);
    out.append(" does not match ");
    text::push_decimal(&mut out, expected);
    out.append(" samples");
    out
}

fn unsupported_text() -> (r: String)
    ensures
        r@ == unsupported_message(),
{
    let mut out = "this ".to_owned();
    out.append("task (e.g. MAE) is not supported in SplitMode::Fast; use Strict");
    out
}

/// A binned dataset belongs to targets of the same length.
proof fn lemma_binned_for(columns: Seq<Column>, n_bins: nat, n: nat)
    requires
        forall|f: int| 0 <= f < columns.len() ==> (#[trigger] columns[f]).size() == n,
        binning::first_overfull(columns, n_bins) == columns.len(),
    ensures
        fast::binned_for(binning::binned_of(columns, n_bins), n),
{
    binning::law_first_overfull(columns, n_bins);
    let binned = binning::binned_of(columns, n_bins);
    assert forall|f: int| 0 <= f < binned.codes.len() implies (#[trigger] binned.codes[f]).len()
        == n by {
        assert(columns[f].size() == n);
    }
    assert forall|f: int| 0 <= f < binned.bins.len() implies (#[trigger] binned.bins[f]).max_bin
        <= 0xffff by {
        assert(binning::bins_fit(columns[f], n_bins));
    }
}

/// The compact ids below `n`.
fn compact_ids(n: usize) -> (r: Vec<SampleId>)
    requires
        n <= u32::MAX,
    ensures
        r@ == all_ids(n as nat),
{
    let mut r: Vec<SampleId> = Vec::new();
    let mut i: usize = 0;
    while i < n
        invariant
            i <= n <= u32::MAX,
            r@ == all_ids(i as nat),
        decreases n - i,
    {
        r.push(i as SampleId);
        i += 1;
        assert(r@ =~= all_ids(i as nat));
    }
    r
}

impl<K: Task, A: Aggregator + ?Sized> DecisionTree<K, A> {
    /// An estimator that is not fitted yet.
    pub fn new(task: K, params: TreeParams, aggregator: Box<A>) -> (r: DecisionTree<K, A>)
        ensures
            r.task == task,
            r.params == params,
            r.aggregator == aggregator,
            r.root is None,
    {
        DecisionTree { task, params, root: None, aggregator }
    }

    /// Fits the tree. All columns must have the length of `targets`.
    pub fn fit(&mut self, columns: &[Column], targets: &[K::Target]) -> (r: Result<(), String>)
        requires
            old(self).aggregator.applicable(),
            fit_in_range(old(self).task, old(self).params, columns@, targets@.len()),
        ensures
            final(self).task == old(self).task,
            final(self).params == old(self).params,
            final(self).aggregator == old(self).aggregator,
            match fit_error(old(self).task, old(self).params, columns@, targets@.len()) {
                Some(message) => r matches Err(e) && e@ == message && final(self).root == old(
                    self,
                ).root,
                None => final(self).root matches Some(node) && r is Ok && node@ == fitted_tree(
                    old(self).task,
                    old(self).params,
                    aggregation::ranking(&*old(self).aggregator),
                    columns@,
                    targets@,
                ) && growth::within_limits(
                    node@,
                    old(self).params,
                    columns@.len(),
                    targets@.len(),
                    0,
                ) && node@.leaves() <= targets@.len() && node@.depth() < targets@.len(),
            },
    {
        self.fit_with(columns, targets, &InTurn)
    }

    /// Fits the tree, with features evaluated by the given workers.
    pub fn fit_with<W: Workers>(
        &mut self,
        columns: &[Column],
        targets: &[K::Target],
        workers: &W,
    ) -> (r: Result<(), String>)
        requires
            old(self).aggregator.applicable(),
            fit_in_range(old(self).task, old(self).params, columns@, targets@.len()),
        ensures
            final(self).task == old(self).task,
            final(self).params == old(self).params,
            final(self).aggregator == old(self).aggregator,
            match fit_error(old(self).task, old(self).params, columns@, targets@.len()) {
                Some(message) => r matches Err(e) && e@ == message && final(self).root == old(
                    self,
                ).root,
                None => final(self).root matches Some(node) && r is Ok && node@ == fitted_tree(
                    old(self).task,
                    old(self).params,
                    aggregation::ranking(&*old(self).aggregator),
                    columns@,
                    targets@,
                ) && growth::within_limits(
                    node@,
                    old(self).params,
                    columns@.len(),
                    targets@.len(),
                    0,
                ) && node@.leaves() <= targets@.len() && node@.depth() < targets@.len(),
            },
    {
        if columns.len() == 0 {
            return Err("need at least one feature column".to_owned());
        }
        let n: usize = columns[0].len();
        match data::find_ragged(columns, n) {
            Some(i) => {
                return Err(data::ragged_text(i, columns[i].len(), n));
            },
            None => {},
        }
        if targets.len() != n {
            return Err(mismatch_text(targets.len(), n));
        }
        if n == 0 {
            return Err("need at least one sample".to_owned());
        }
        proof {
            data::law_first_ragged(columns@, n as nat);
        }
        match self.params.mode {
            SplitMode::Strict => {
                let indices = strict::numbers(n);
                assert(indices@ =~= all_indices(n as nat));
                let node = build_node(
                    &self.task,
                    &self.params,
                    &*self.aggregator,
                    columns,
                    targets,
                    indices.as_slice(),
                    0,
                    workers,
                );
                self.root = Some(node);
            },
            SplitMode::Fast => {
                if !self.task.fast_supported() {
                    return Err(unsupported_text());
                }
                let binned = match BinnedData::fit(columns, self.params.n_bins) {
                    Ok(binned) => binned,
                    Err(e) => {
                        return Err(e);
                    },
                };
                proof {
                    binning::law_first_overfull(columns@, self.params.n_bins as nat);
                    lemma_binned_for(columns@, self.params.n_bins as nat, n as nat);
                }
                let mut samples = compact_ids(n);
                let node = build_node_fast(
                    &self.task,
                    &self.params,
                    &*self.aggregator,
                    &binned,
                    targets,
                    samples.as_mut_slice(),
                    0,
                    workers,
                );
                self.root = Some(node);
            },
        }
        proof {
            growth::law_fitted_tree(
                self.task,
                self.params,
                aggregation::ranking(&*self.aggregator),
                columns@,
                targets@,
            );
        }
        Ok(())
    }

    /// Installs a tree that was built elsewhere. Prediction reads nothing else.
    pub fn set_fitted_root(&mut self, root: Node<K::Prediction>)
        ensures
            final(self).root == Some(root),
            final(self).task == old(self).task,
            final(self).params == old(self).params,
            final(self).aggregator == old(self).aggregator,
    {
        self.root = Some(root);
    }

    /// What the fitted tree predicts for a sample.
    pub fn predict_one(&self, sample: &[FeatureValue]) -> (r: K::Prediction)
        requires
            self.root matches Some(node) && node@.routes(sample@),
        ensures
            r@ == self.root->Some_0@.answer(sample@),
    {
        match &self.root {
            Some(node) => {
                let found = predict_node(node, sample);
                let r = found.clone();
                proof {
                    K::Prediction::clone_keeps_contents(found, &r);
                }
                r
            },
            None => vstd::pervasive::unreached(),
        }
    }

    /// What the fitted tree predicts for each sample.
    pub fn predict(&self, samples: &[Vec<FeatureValue>]) -> (r: Vec<K::Prediction>)
        requires
            samples@.len() > 0 ==> self.root is Some,
            forall|i: int|
                0 <= i < samples@.len() ==> self.root->Some_0@.routes((#[trigger] samples@[i])@),
        ensures
            r@.len() == samples@.len(),
            forall|i: int|
                0 <= i < samples@.len() ==> (#[trigger] r@[i])@ == self.root->Some_0@.answer(
                    samples@[i]@,
                ),
    {
        let mut r: Vec<K::Prediction> = Vec::new();
        let mut i: usize = 0;
        while i < samples.len()
            invariant
                i <= samples@.len(),
                samples@.len() > 0 ==> self.root is Some,
                forall|i: int|
                    0 <= i < samples@.len() ==> self.root->Some_0@.routes(
                        (#[trigger] samples@[i])@,
                    ),
                r@.len() == i,
                forall|j: int|
                    0 <= j < i ==> (#[trigger] r@[j])@ == self.root->Some_0@.answer(samples@[j]@),
            decreases samples@.len() - i,
        {
            assert(self.root->Some_0@.routes(samples@[i as int]@));
            r.push(self.predict_one(samples[i].as_slice()));
            i += 1;
        }
        r
    }

    /// Number of split levels; zero for a lone leaf and before fitting.
    pub fn depth(&self) -> (r: usize)
        requires
            self.root matches Some(node) ==> node@.depth() <= usize::MAX,
        ensures
            r == match self.root {
                Some(node) => node@.depth(),
                None => 0,
            },
    {
        match &self.root {
            Some(node) => node_depth(node),
            None => 0,
        }
    }

    /// Number of leaves; zero before fitting.
    pub fn n_leaves(&self) -> (r: usize)
        requires
            self.root matches Some(node) ==> node@.leaves() <= usize::MAX,
        ensures
            r == match self.root {
                Some(node) => node@.leaves(),
                None => 0,
            },
    {
        match &self.root {
            Some(node) => node_leaves(node),
            None => 0,
        }
    }

    /// The fitted tree as a list of nodes in preorder; empty before fitting.
    pub fn export_nodes(&self) -> (r: Vec<ExportedNode>)
        requires
            self.root matches Some(node) ==> node@.samples() <= usize::MAX,
        ensures
            export::exported_views(r@) == match self.root {
                Some(node) => export::flattened(node@, export::describing(&self.task), 0),
                None => Seq::empty(),
            },
    {
        let mut out: Vec<ExportedNode> = Vec::new();
        match &self.root {
            Some(node) => {
                let _ = walk_export(&self.task, node, &mut out);
                assert(export::exported_views(out@) =~= export::flattened(
                    node@,
                    export::describing(&self.task),
                    0,
                ));
            },
            None => {
                assert(export::exported_views(out@) =~= Seq::empty());
            },
        }
        out
    }
}

impl DecisionTree<Classification> {
    /// A Gini classifier with default settings and the mean over folds.
    pub fn classifier(n_classes: usize) -> (r: DecisionTree<Classification>)
        ensures
            r.task.n_classes == n_classes,
            r.task.kind == ClassImpurityKind::Gini,
            forall|t: Seq<usize>| #[trigger]
                r.task.criterion.impurity_of(t) == (Gini { n_classes }).impurity_of(t),
            r.params.mode == SplitMode::Strict,
            r.params.split_style == SplitStyle::Threshold,
            call_ensures(TreeParams::default, (), r.params),
            r.aggregator.applicable(),
            forall|stats: StatsView| #[trigger]
                r.aggregator.score_of(stats) == Mean.score_of(stats),
            r.aggregator.label() == Mean.label(),
            r.root is None,
    {
        let params = TreeParams::default();
        let aggregator: Box<dyn Aggregator> = Box::new(Mean);
        let tree = DecisionTree::new(Classification::gini(n_classes), params, aggregator);
        tree
    }
}

impl DecisionTree<Regression> {
    /// A mean squared error regressor with default settings and the mean over folds.
    pub fn regressor() -> (r: DecisionTree<Regression>)
        ensures
            forall|t: Seq<Float>| #[trigger]
                r.task.criterion.impurity_of(t) == Mse.impurity_of(t),
            r.task.criterion.label() == Mse.label(),
            call_ensures(TreeParams::default, (), r.params),
            r.aggregator.applicable(),
            forall|stats: StatsView| #[trigger]
                r.aggregator.score_of(stats) == Mean.score_of(stats),
            r.aggregator.label() == Mean.label(),
            r.root is None,
    {
        let params = TreeParams::default();
        let aggregator: Box<dyn Aggregator> = Box::new(Mean);
        let tree = DecisionTree::new(Regression::mse(), params, aggregator);
        tree
    }
}

} // verus!
