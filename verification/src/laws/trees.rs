//! What trees answer, report and refuse.

use crate::binning;
use crate::criterion::{Criterion, Gini};
use crate::cross_validation::StatsView;
use crate::data;
use crate::data::{Column, FeatureValue, SampleId};
use crate::float::Float;
use crate::objective::ClassObjective;
use crate::tree::estimator;
use crate::tree::export;
use crate::tree::export::ExportedView;
use crate::tree::fast;
use crate::tree::node::NodeView;
use crate::tree::params::{SplitMode, TreeParams};
use crate::tree::restore;
use crate::tree::restore::FlatView;
use crate::tree::rule::SplitRule;
use crate::tree::strict;
use crate::tree::task::{
    ClassView, Classification, LeafView, ObjectiveClassification, Regression, Task,
};
use vstd::prelude::*;

verus! {

/// A decision node asks its rule about the tested feature, and answers as the left subtree where
/// the rule takes the value and as the right one where it does not. It is one level deeper than the
/// deeper subtree, and has the leaves, nodes and samples of both.
pub proof fn law_decision<V>(node: NodeView<V>, sample: Seq<FeatureValue>)
    ensures
        node matches NodeView::Leaf { prediction, n_samples } ==> {
            &&& node.answer(sample) == prediction
            &&& node.routes(sample)
            &&& node.depth() == 0
            &&& node.leaves() == 1
            &&& node.nodes() == 1
            &&& node.samples() == n_samples
        },
        node matches NodeView::Internal { rule, left, right } ==> {
            let feature = match rule {
                SplitRule::ContinuousBin { feature, .. } => feature,
                SplitRule::Category { feature, .. } => feature,
            };
            let taken = rule.takes(sample[feature as int]);
            &&& taken ==> node.answer(sample) == left.answer(sample)
            &&& !taken ==> node.answer(sample) == right.answer(sample)
            &&& node.routes(sample) <==> feature < sample.len() && (taken ==> left.routes(sample))
                && (!taken ==> right.routes(sample))
            &&& node.depth() > left.depth()
            &&& node.depth() > right.depth()
            &&& node.depth() == 1 + left.depth() || node.depth() == 1 + right.depth()
            &&& node.leaves() == left.leaves() + right.leaves()
            &&& node.nodes() == 1 + left.nodes() + right.nodes()
            &&& node.samples() == left.samples() + right.samples()
        },
{
}

/// What the first entry of an exported tree says of its root: of a leaf its prediction and number
/// of samples, of a decision node its rule. What it does not have is -1 or not a number.
pub proof fn law_exported_root<V>(node: NodeView<V>, describe: spec_fn(V) -> LeafView, base: nat)
    ensures
        ({
            let e = export::flattened(node, describe, base)[0];
            &&& e.id == base
            &&& node matches NodeView::Leaf { prediction, n_samples } ==> {
                let leaf = describe(prediction);
                &&& e.is_leaf
                &&& e.n_samples == n_samples
                &&& e.proba == leaf.proba
                &&& leaf.class matches Some(c) ==> e.class == c as i64
                &&& leaf.class is None ==> e.class == -1
                &&& leaf.value matches Some(x) ==> e.value == x
                &&& leaf.value is None ==> e.value.nan()
                &&& !e.is_categorical
                &&& e.lower.nan() && e.upper.nan()
            }
            &&& node matches NodeView::Internal { rule, .. } ==> {
                &&& !e.is_leaf
                &&& e.value.nan()
                &&& rule matches SplitRule::ContinuousBin { feature, lower, upper } ==> {
                    &&& e.feature == feature as i64
                    &&& !e.is_categorical
                    &&& e.category == -1
                    &&& lower matches Some(x) ==> e.lower == x
                    &&& upper matches Some(x) ==> e.upper == x
                    &&& lower is None ==> e.lower.infinite() && e.lower.negative()
                    &&& upper is None ==> e.upper.infinite() && !e.upper.negative()
                }
                &&& rule matches SplitRule::Category { feature, category } ==> {
                    &&& e.feature == feature as i64
                    &&& e.is_categorical
                    &&& e.category == category
                    &&& e.lower.nan() && e.upper.nan()
                }
            }
        }),
{
}

/// A class prediction is described by its class and probabilities, a regression one by its value.
pub proof fn law_descriptions<O: ClassObjective>(
    c: Classification,
    o: ObjectiveClassification<O>,
    r: Regression,
    leaf: ClassView,
    value: Float,
)
    ensures
        c.description(leaf).class == Some(leaf.class),
        c.description(leaf).proba == leaf.proba,
        c.description(leaf).value is None,
        o.description(leaf).class == Some(leaf.class),
        o.description(leaf).proba == leaf.proba,
        o.description(leaf).value is None,
        r.description(value).class is None,
        r.description(value).proba.len() == 0,
        r.description(value).value == Some(value),
{
}

/// The impurity that decides whether a node is pure: that of the criterion, and Gini impurity where
/// a metric scores splits. Histograms serve all tasks but mean absolute error.
pub proof fn law_task_impurity<O: ClassObjective>(
    c: Classification,
    o: ObjectiveClassification<O>,
    r: Regression,
    labels: Seq<usize>,
    values: Seq<Float>,
)
    ensures
        c.impurity_of(labels) == c.criterion.impurity_of(labels),
        o.impurity_of(labels) == (Gini { n_classes: o.gini.n_classes }).impurity_of(labels),
        r.impurity_of(values) == r.criterion.impurity_of(values),
        c.histograms(),
        o.histograms(),
        r.histograms() <==> r.criterion.label() != "mae"@,
{
}

/// Fitting is refused exactly when there are no columns, a column is longer or shorter than the
/// first, there are not as many targets as samples, there are no samples, or, with histograms, the
/// task has none or a column has more than 65535 bins.
pub proof fn law_refusals<K: Task>(
    task: K,
    params: TreeParams,
    columns: Seq<Column>,
    n_targets: nat,
)
    ensures
        estimator::fit_error(task, params, columns, n_targets) is None <==> {
            &&& columns.len() > 0
            &&& n_targets > 0
            &&& forall|f: int|
                0 <= f < columns.len() ==> (#[trigger] columns[f]).size() == n_targets
            &&& params.mode == SplitMode::Fast ==> task.histograms() && forall|f: int|
                0 <= f < columns.len() ==> binning::bins_of(
                    #[trigger] columns[f],
                    params.n_bins as nat,
                ).max_bin <= 65535
        },
{
    if columns.len() > 0 {
        let n = columns[0].size();
        data::law_first_ragged(columns, n);
        binning::law_first_overfull(columns, params.n_bins as nat);
        let k = data::first_ragged(columns, n);
        let f = binning::first_overfull(columns, params.n_bins as nat);
        if f < columns.len() {
            assert(!binning::bins_fit(columns[f as int], params.n_bins as nat));
        }
        assert forall|g: int| 0 <= g < f implies binning::bins_of(
            #[trigger] columns[g],
            params.n_bins as nat,
        ).max_bin <= 65535 by {
            assert(binning::bins_fit(columns[g], params.n_bins as nat));
        }
        if forall|f: int| 0 <= f < columns.len() ==> (#[trigger] columns[f]).size() == n_targets {
            assert(columns[0].size() == n_targets);
            if k < columns.len() {
                assert(columns[k as int].size() == n_targets);
            }
        }
    }
}

/// A fitted tree is grown from depth zero on all samples, in their order.
pub proof fn law_fitted_on_all<K: Task>(
    task: K,
    params: TreeParams,
    rank: spec_fn(StatsView) -> Float,
    columns: Seq<Column>,
    targets: Seq<K::Target>,
    indices: Seq<usize>,
    ids: Seq<SampleId>,
)
    requires
        targets.len() <= usize::MAX,
        indices.len() == targets.len(),
        forall|i: int| 0 <= i < indices.len() ==> #[trigger] indices[i] == i,
        params.mode == SplitMode::Fast ==> ids.len() == targets.len() <= u32::MAX,
        params.mode == SplitMode::Fast ==> forall|i: int|
            0 <= i < ids.len() ==> #[trigger] ids[i] == i,
    ensures
        params.mode == SplitMode::Strict ==> estimator::fitted_tree(
            task,
            params,
            rank,
            columns,
            targets,
        ) == strict::strict_tree(task, params, rank, columns, targets, indices, 0),
        params.mode == SplitMode::Fast ==> estimator::fitted_tree(
            task,
            params,
            rank,
            columns,
            targets,
        ) == fast::fast_tree(
            task,
            params,
            rank,
            binning::binned_of(columns, params.n_bins as nat),
            targets,
            ids,
            0,
        ),
{
    assert(estimator::all_indices(targets.len()) =~= indices);
    if params.mode == SplitMode::Fast {
        assert(estimator::all_ids(targets.len()) =~= ids);
    }
}

/// The candidates of a node are those of its features, one feature after another. Continuous
/// features are cut in order unless the style is to test single bins.
pub proof fn law_candidates_by_feature<K: Task>(
    task: K,
    params: TreeParams,
    rank: spec_fn(StatsView) -> Float,
    columns: Seq<Column>,
    targets: Seq<K::Target>,
    indices: Seq<usize>,
    f: nat,
)
    requires
        f < columns.len() <= usize::MAX,
    ensures
        ({
            let before = strict::strict_candidates(
                task,
                params,
                rank,
                columns,
                targets,
                indices,
                f,
            );
            let after = strict::strict_candidates(
                task,
                params,
                rank,
                columns,
                targets,
                indices,
                f + 1,
            );
            after == before + task.strict_scores(
                columns[f as int],
                targets,
                f as usize,
                indices,
                params.cv.folds_of(indices),
                params.n_bins as nat,
                rank,
                columns[f as int] is Continuous && params.split_style
                    != crate::tree::params::SplitStyle::BinMembership,
            )
        }),
        strict::strict_candidates(task, params, rank, columns, targets, indices, 0).len() == 0,
{
}

/// The arrays of a tree hold, place by place, what its exported nodes say.
pub proof fn law_arrays(nodes: Seq<ExportedView>, i: int)
    requires
        0 <= i < nodes.len(),
        nodes[i].n_samples <= u64::MAX,
    ensures
        ({
            let flat = restore::flat_of(nodes);
            &&& flat.is_leaf.len() == nodes.len() && flat.is_leaf[i] == nodes[i].is_leaf
            &&& flat.left.len() == nodes.len() && flat.left[i] == nodes[i].left
            &&& flat.right.len() == nodes.len() && flat.right[i] == nodes[i].right
            &&& flat.feature.len() == nodes.len() && flat.feature[i] == nodes[i].feature
            &&& flat.is_categorical.len() == nodes.len() && flat.is_categorical[i]
                == nodes[i].is_categorical
            &&& flat.lower.len() == nodes.len() && flat.lower[i] == nodes[i].lower
            &&& flat.upper.len() == nodes.len() && flat.upper[i] == nodes[i].upper
            &&& flat.category.len() == nodes.len() && flat.category[i] == nodes[i].category
            &&& flat.n_samples.len() == nodes.len() && flat.n_samples[i] == nodes[i].n_samples
        }),
        restore::classes_of(nodes).len() == nodes.len(),
        restore::classes_of(nodes)[i] == nodes[i].class,
        restore::probas_of(nodes).len() == nodes.len(),
        restore::probas_of(nodes)[i] == nodes[i].proba,
        restore::values_of(nodes).len() == nodes.len(),
        restore::values_of(nodes)[i] == nodes[i].value,
{
}

/// A rule is read from the arrays as it was written: a category, or a range in which an infinite
/// end is open.
pub proof fn law_stored_rule(flat: FlatView, id: nat)
    requires
        id < flat.is_categorical.len(),
        0 <= flat.feature[id as int] <= usize::MAX,
    ensures
        flat.rule(id).tested() == flat.feature[id as int],
        flat.is_categorical[id as int] ==> {
            &&& flat.rule(id) is Category
            &&& 0 <= flat.category[id as int] <= u32::MAX ==> flat.rule(id)->category
                == flat.category[id as int]
        },
        !flat.is_categorical[id as int] ==> {
            let lower = flat.lower[id as int];
            let upper = flat.upper[id as int];
            &&& flat.rule(id) matches SplitRule::ContinuousBin { lower: l, upper: u, .. }
            &&& lower.finite() ==> l == Some(lower)
            &&& upper.finite() ==> u == Some(upper)
            &&& lower.infinite() && lower.negative() ==> l is None
            &&& upper.infinite() && !upper.negative() ==> u is None
        },
{
}

/// A stored leaf predicts what stands at its place in every array of predictions: the stored class,
/// or the first class where the number is below zero, with the stored probabilities, and the stored
/// value. Where an array ends before its place, there is no prediction.
pub proof fn law_stored_leaves(
    class: Seq<i64>,
    proba: Seq<Seq<Float>>,
    value: Seq<Float>,
    id: nat,
)
    ensures
        id < class.len() && id < proba.len() ==> {
            &&& restore::class_leaves(class, proba)(id) matches Some(leaf)
            &&& leaf.proba == proba[id as int]
            &&& 0 <= class[id as int] <= usize::MAX ==> leaf.class == class[id as int]
            &&& class[id as int] < 0 ==> leaf.class == 0
        },
        id >= class.len() || id >= proba.len() ==> restore::class_leaves(class, proba)(id) is None,
        id < value.len() ==> restore::value_leaves(value)(id) == Some(value[id as int]),
        id >= value.len() ==> restore::value_leaves(value)(id) is None,
{
}

} // verus!
