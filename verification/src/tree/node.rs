//! Nodes of a fitted tree.

use crate::binning;
use crate::data::{Column, FeatureValue, UNKNOWN_CAT};
use crate::tree::rule;
use crate::tree::rule::SplitRule;
use vstd::multiset::*;
use vstd::prelude::*;

verus! {

/// A node of a fitted tree with predictions of type `P`.
#[derive(Debug)]
pub enum Node<P> {
    /// A terminal node.
    Leaf {
        /// What the node predicts.
        prediction: P,
        /// Training samples that reached the node.
        n_samples: usize,
    },
    /// A decision node.
    Internal {
        /// The routing rule.
        rule: SplitRule,
        /// Subtree for samples that match the rule.
        left: Box<Node<P>>,
        /// Subtree for the rest.
        right: Box<Node<P>>,
    },
}

/// Whether `b` is `a` with every prediction cloned.
pub open spec fn copies<P: Clone>(a: Node<P>, b: Node<P>) -> bool
    decreases a,
{
    match (a, b) {
        (
            Node::Leaf { prediction: p, n_samples: m },
            Node::Leaf { prediction: q, n_samples: n },
        ) => cloned::<P>(p, q) && m == n,
        (
            Node::Internal { rule: s, left: k, right: l },
            Node::Internal { rule: t, left: m, right: n },
        ) => s == t && copies(*k, *m) && copies(*l, *n),
        _ => false,
    }
}

impl<P: Clone> Clone for Node<P> {
    fn clone(&self) -> (r: Node<P>)
        ensures
            copies(*self, r),
        decreases self,
    {
        match self {
            Node::Leaf { prediction, n_samples } => Node::Leaf {
                prediction: prediction.clone(),
                n_samples: *n_samples,
            },
            Node::Internal { rule, left, right } => Node::Internal {
                rule: *rule,
                left: Box::new((&**left).clone()),
                right: Box::new((&**right).clone()),
            },
        }
    }
}

/// The contents of a node with predictions viewed as `V`.
pub enum NodeView<V> {
    Leaf { prediction: V, n_samples: nat },
    Internal { rule: SplitRule, left: Box<NodeView<V>>, right: Box<NodeView<V>> },
}

/// The contents of a node.
pub open spec fn node_view<P: View>(node: Node<P>) -> NodeView<P::V>
    decreases node,
{
    match node {
        Node::Leaf { prediction, n_samples } => NodeView::Leaf {
            prediction: prediction@,
            n_samples: n_samples as nat,
        },
        Node::Internal { rule, left, right } => NodeView::Internal {
            rule,
            left: Box::new(node_view(*left)),
            right: Box::new(node_view(*right)),
        },
    }
}

impl<P: View> View for Node<P> {
    type V = NodeView<P::V>;

    open spec fn view(&self) -> NodeView<P::V> {
        node_view(*self)
    }
}

impl<V> NodeView<V> {
    /// Number of split levels.
    pub open spec fn depth(self) -> nat
        decreases self,
    {
        match self {
            NodeView::Leaf { .. } => 0,
            NodeView::Internal { left, right, .. } => {
                let l = left.depth();
                let r = right.depth();
                1 + if l > r {
                    l
                } else {
                    r
                }
            },
        }
    }

    /// Number of leaves.
    pub open spec fn leaves(self) -> nat
        decreases self,
    {
        match self {
            NodeView::Leaf { .. } => 1,
            NodeView::Internal { left, right, .. } => left.leaves() + right.leaves(),
        }
    }

    /// Number of nodes.
    pub open spec fn nodes(self) -> nat
        decreases self,
    {
        match self {
            NodeView::Leaf { .. } => 1,
            NodeView::Internal { left, right, .. } => 1 + left.nodes() + right.nodes(),
        }
    }

    /// Number of training samples in all leaves.
    pub open spec fn samples(self) -> nat
        decreases self,
    {
        match self {
            NodeView::Leaf { n_samples, .. } => n_samples,
            NodeView::Internal { left, right, .. } => left.samples() + right.samples(),
        }
    }

    /// What the leaf that a sample reaches predicts.
    pub open spec fn answer(self, sample: Seq<FeatureValue>) -> V
        decreases self,
    {
        match self {
            NodeView::Leaf { prediction, .. } => prediction,
            NodeView::Internal { rule, left, right } => if rule.takes(
                sample[rule.tested() as int],
            ) {
                left.answer(sample)
            } else {
                right.answer(sample)
            },
        }
    }

    /// Whether a sample has every feature that is tested on its way to a leaf.
    pub open spec fn routes(self, sample: Seq<FeatureValue>) -> bool
        decreases self,
    {
        match self {
            NodeView::Leaf { .. } => true,
            NodeView::Internal { rule, left, right } => rule.tested() < sample.len() && if rule.takes(
                sample[rule.tested() as int],
            ) {
                left.routes(sample)
            } else {
                right.routes(sample)
            },
        }
    }

    /// Whether every rule tests one of the first `n` features.
    pub open spec fn tests_below(self, n: nat) -> bool
        decreases self,
    {
        match self {
            NodeView::Leaf { .. } => true,
            NodeView::Internal { rule, left, right } => rule.tested() < n && left.tests_below(n)
                && right.tests_below(n),
        }
    }

    /// Whether no rule tests for the unknown category.
    pub open spec fn ignores_unknown(self) -> bool
        decreases self,
    {
        match self {
            NodeView::Leaf { .. } => true,
            NodeView::Internal { rule, left, right } => !rule.takes(
                FeatureValue::Categorical(UNKNOWN_CAT),
            ) && left.ignores_unknown() && right.ignores_unknown(),
        }
    }

    /// Whether every end of every rule is finite or open.
    pub open spec fn ends_finite(self) -> bool
        decreases self,
    {
        match self {
            NodeView::Leaf { .. } => true,
            NodeView::Internal { rule, left, right } => rule.ends_finite() && left.ends_finite()
                && right.ends_finite(),
        }
    }

    /// Whether every leaf's prediction satisfies `p`.
    pub open spec fn predicts(self, p: spec_fn(V) -> bool) -> bool
        decreases self,
    {
        match self {
            NodeView::Leaf { prediction, .. } => p(prediction),
            NodeView::Internal { left, right, .. } => left.predicts(p) && right.predicts(p),
        }
    }

    /// What the rightmost leaf predicts.
    pub open spec fn last_answer(self) -> V
        decreases self,
    {
        match self {
            NodeView::Leaf { prediction, .. } => prediction,
            NodeView::Internal { right, .. } => right.last_answer(),
        }
    }

    /// Whether every leaf has at least the given number of training samples.
    pub open spec fn leaves_hold(self, least: nat) -> bool
        decreases self,
    {
        match self {
            NodeView::Leaf { n_samples, .. } => n_samples >= least,
            NodeView::Internal { left, right, .. } => left.leaves_hold(least) && right.leaves_hold(
                least,
            ),
        }
    }

    /// Whether every decision node has at least the given number of training samples.
    pub open spec fn splits_hold(self, least: nat) -> bool
        decreases self,
    {
        match self {
            NodeView::Leaf { .. } => true,
            NodeView::Internal { left, right, .. } => self.samples() >= least && left.splits_hold(
                least,
            ) && right.splits_hold(least),
        }
    }

    /// Whether the given training samples, sent through the rules, reach each leaf as often as it
    /// counts.
    pub open spec fn accounts_for(self, columns: Seq<Column>, samples: Multiset<usize>) -> bool
        decreases self,
    {
        match self {
            NodeView::Leaf { n_samples, .. } => n_samples == samples.len(),
            NodeView::Internal { rule, left, right } => left.accounts_for(
                columns,
                samples.filter(sent(rule, columns, true)),
            ) && right.accounts_for(columns, samples.filter(sent(rule, columns, false))),
        }
    }

    /// Those of the given training samples that reach the same leaf as sample `i`.
    pub open spec fn companions(
        self,
        columns: Seq<Column>,
        samples: Multiset<usize>,
        i: int,
    ) -> Multiset<usize>
        decreases self,
    {
        match self {
            NodeView::Leaf { .. } => samples,
            NodeView::Internal { rule, left, right } => if rule.takes_sample(columns, i) {
                left.companions(columns, samples.filter(sent(rule, columns, true)), i)
            } else {
                right.companions(columns, samples.filter(sent(rule, columns, false)), i)
            },
        }
    }
}

/// Training sample `i` as a row of values.
pub open spec fn row_of(columns: Seq<Column>, i: int) -> Seq<FeatureValue> {
    Seq::new(columns.len(), |f: int| binning::value_at(columns[f], i))
}

/// The training samples that a rule sends to the given side.
pub open spec fn sent(rule: SplitRule, columns: Seq<Column>, left: bool) -> spec_fn(usize) -> bool {
    |i: usize| rule.takes_sample(columns, i as int) == left
}

/// A tree whose leaves are not empty has no more leaves than training samples.
pub proof fn law_leaves_below_samples<V>(node: NodeView<V>)
    requires
        node.leaves_hold(1),
    ensures
        node.leaves() <= node.samples(),
    decreases node,
{
    match node {
        NodeView::Leaf { .. } => {},
        NodeView::Internal { left, right, .. } => {
            law_leaves_below_samples(*left);
            law_leaves_below_samples(*right);
        },
    }
}

/// A tree has one internal node less than leaves.
pub proof fn law_node_count<V>(node: NodeView<V>)
    ensures
        node.nodes() == 2 * node.leaves() - 1,
        node.leaves() >= 1,
    decreases node,
{
    match node {
        NodeView::Leaf { .. } => {},
        NodeView::Internal { left, right, .. } => {
            law_node_count(*left);
            law_node_count(*right);
        },
    }
}

/// A tree is less deep than it has leaves.
pub proof fn law_depth_below_leaves<V>(node: NodeView<V>)
    ensures
        node.depth() < node.leaves(),
    decreases node,
{
    match node {
        NodeView::Leaf { .. } => {},
        NodeView::Internal { left, right, .. } => {
            law_depth_below_leaves(*left);
            law_depth_below_leaves(*right);
        },
    }
}

/// A sample with all features that a tree tests can be routed through it.
pub proof fn law_complete_samples_route<V>(node: NodeView<V>, sample: Seq<FeatureValue>, n: nat)
    requires
        node.tests_below(n),
        n <= sample.len(),
    ensures
        node.routes(sample),
    decreases node,
{
    match node {
        NodeView::Leaf { .. } => {},
        NodeView::Internal { left, right, .. } => {
            law_complete_samples_route(*left, sample, n);
            law_complete_samples_route(*right, sample, n);
        },
    }
}

/// A sample with nothing but missing values goes right at every rule.
pub proof fn law_missing_sample_goes_right<V>(node: NodeView<V>, sample: Seq<FeatureValue>)
    requires
        node.ignores_unknown(),
        node.tests_below(sample.len()),
        forall|i: int| 0 <= i < sample.len() ==> rule::missing(#[trigger] sample[i]),
    ensures
        node.answer(sample) == node.last_answer(),
    decreases node,
{
    match node {
        NodeView::Leaf { .. } => {},
        NodeView::Internal { rule, right, .. } => {
            assert(rule::missing(sample[rule.tested() as int]));
            law_missing_sample_goes_right(*right, sample);
        },
    }
}

/// Number of split levels below a node.
pub fn node_depth<P: View>(node: &Node<P>) -> (r: usize)
    requires
        node@.depth() <= usize::MAX,
    ensures
        r == node@.depth(),
    decreases node,
{
    match node {
        Node::Leaf { .. } => 0,
        Node::Internal { left, right, .. } => {
            let l: usize = node_depth(left);
            let r: usize = node_depth(right);
            1 + if l > r {
                l
            } else {
                r
            }
        },
    }
}

/// Number of leaves below a node.
pub fn node_leaves<P: View>(node: &Node<P>) -> (r: usize)
    requires
        node@.leaves() <= usize::MAX,
    ensures
        r == node@.leaves(),
    decreases node,
{
    match node {
        Node::Leaf { .. } => 1,
        Node::Internal { left, right, .. } => node_leaves(left) + node_leaves(right),
    }
}

/// Number of training samples in all leaves below a node, if the machine can count them.
pub fn node_samples<P: View>(node: &Node<P>) -> (r: Option<usize>)
    ensures
        r == if node@.samples() <= usize::MAX {
            Some(node@.samples() as usize)
        } else {
            None
        },
    decreases node,
{
    match node {
        Node::Leaf { n_samples, .. } => Some(*n_samples),
        Node::Internal { left, right, .. } => {
            match (node_samples(left), node_samples(right)) {
                (Some(l), Some(r)) => l.checked_add(r),
                _ => None,
            }
        },
    }
}

/// Whether a sample has every feature that is tested on its way to a leaf.
pub fn node_routes<P: View>(node: &Node<P>, sample: &[FeatureValue]) -> (r: bool)
    ensures
        r == node@.routes(sample@),
    decreases node,
{
    match node {
        Node::Leaf { .. } => true,
        Node::Internal { rule, left, right } => {
            if rule.feature() >= sample.len() {
                false
            } else if rule.route_left_sample(sample) {
                node_routes(left, sample)
            } else {
                node_routes(right, sample)
            }
        },
    }
}

/// The prediction of the leaf that a sample reaches.
pub fn predict_node<'a, P: View>(node: &'a Node<P>, sample: &[FeatureValue]) -> (r: &'a P)
    requires
        node@.routes(sample@),
    ensures
        r@ == node@.answer(sample@),
    decreases node,
{
    match node {
        Node::Leaf { prediction, .. } => prediction,
        Node::Internal { rule, left, right } => {
            if rule.route_left_sample(sample) {
                predict_node(left, sample)
            } else {
                predict_node(right, sample)
            }
        },
    }
}

} // verus!
