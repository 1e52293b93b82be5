//! Fitted trees as flat lists of nodes.

use crate::float::Float;
use crate::tree::node;
use crate::tree::node::{Node, NodeView};
use crate::tree::rule::SplitRule;
use crate::tree::task::{LeafView, Task};
use vstd::prelude::*;

verus! {

/// Stands for an absent number.
pub const NONE: i64 = -1;

/// A node of a flattened tree. Children are positions in the list, and an absent number is `-1` or
/// not a number. The left child is the one for samples that match the rule.
#[derive(Clone, Debug)]
pub struct ExportedNode {
    /// Position in the list.
    pub id: usize,
    /// Whether this is a leaf.
    pub is_leaf: bool,
    /// Position of the left child.
    pub left: i64,
    /// Position of the right child.
    pub right: i64,
    /// Tested feature.
    pub feature: i64,
    /// Whether the test is for a category.
    pub is_categorical: bool,
    /// Lower end of a continuous test, included; negative infinity if open.
    pub lower: Float,
    /// Upper end of a continuous test, excluded; infinity if open.
    pub upper: Float,
    /// Category of a categorical test.
    pub category: i64,
    /// Training samples that reached the node.
    pub n_samples: usize,
    /// Predicted class of a leaf.
    pub class: i64,
    /// Predicted value of a regression leaf.
    pub value: Float,
    /// Class probabilities of a classification leaf.
    pub proba: Vec<Float>,
}

/// The contents of a node of a flattened tree.
#[verifier::ext_equal]
pub struct ExportedView {
    pub id: nat,
    pub is_leaf: bool,
    pub left: i64,
    pub right: i64,
    pub feature: i64,
    pub is_categorical: bool,
    pub lower: Float,
    pub upper: Float,
    pub category: i64,
    pub n_samples: nat,
    pub class: i64,
    pub value: Float,
    pub proba: Seq<Float>,
}

impl View for ExportedNode {
    type V = ExportedView;

    open spec fn view(&self) -> ExportedView {
        ExportedView {
            id: self.id as nat,
            is_leaf: self.is_leaf,
            left: self.left,
            right: self.right,
            feature: self.feature,
            is_categorical: self.is_categorical,
            lower: self.lower,
            upper: self.upper,
            category: self.category,
            n_samples: self.n_samples as nat,
            class: self.class,
            value: self.value,
            proba: self.proba@,
        }
    }
}

/// The contents of each node of a flattened tree.
pub open spec fn exported_views(nodes: Seq<ExportedNode>) -> Seq<ExportedView> {
    Seq::new(nodes.len(), |i: int| nodes[i]@)
}

/// A node with nothing filled in.
pub open spec fn blank(id: nat) -> ExportedView {
    ExportedView {
        id,
        is_leaf: false,
        left: NONE,
        right: NONE,
        feature: NONE,
        is_categorical: false,
        lower: Float::not_a_number(),
        upper: Float::not_a_number(),
        category: NONE,
        n_samples: 0,
        class: NONE,
        value: Float::not_a_number(),
        proba: Seq::empty(),
    }
}

/// A leaf as a node of a list.
pub open spec fn leaf_entry(id: nat, n_samples: nat, leaf: LeafView) -> ExportedView {
    ExportedView {
        is_leaf: true,
        n_samples,
        class: match leaf.class {
            Some(c) => c as i64,
            None => NONE,
        },
        value: match leaf.value {
            Some(x) => x,
            None => Float::not_a_number(),
        },
        proba: leaf.proba,
        ..blank(id)
    }
}

/// A decision node as a node of a list.
pub open spec fn split_entry(
    id: nat,
    rule: SplitRule,
    left: nat,
    right: nat,
    n_samples: nat,
) -> ExportedView {
    let entry = ExportedView {
        left: left as i64,
        right: right as i64,
        feature: rule.tested() as i64,
        n_samples,
        ..blank(id)
    };
    match rule {
        SplitRule::ContinuousBin { lower, upper, .. } => ExportedView {
            lower: match lower {
                Some(x) => x,
                None => Float::neg_infinity(),
            },
            upper: match upper {
                Some(x) => x,
                None => Float::infinity(),
            },
            ..entry
        },
        SplitRule::Category { category, .. } => ExportedView {
            is_categorical: true,
            category: category as i64,
            ..entry
        },
    }
}

/// A tree as a list of nodes numbered from `base`: a node comes before its left subtree, which
/// comes before its right subtree.
pub open spec fn flattened<V>(
    node: NodeView<V>,
    describe: spec_fn(V) -> LeafView,
    base: nat,
) -> Seq<ExportedView>
    decreases node,
{
    match node {
        NodeView::Leaf { prediction, n_samples } => seq![
            leaf_entry(base, n_samples, describe(prediction)),
        ],
        NodeView::Internal { rule, left, right } => {
            let l = flattened(*left, describe, base + 1);
            let r = flattened(*right, describe, base + 1 + l.len());
            seq![split_entry(base, rule, base + 1, base + 1 + l.len(), node.samples())] + l + r
        },
    }
}

/// The descriptions that a task gives of predictions, as a function.
pub open spec fn describing<K: Task>(task: &K) -> spec_fn(
    <K::Prediction as View>::V,
) -> LeafView {
    |p: <K::Prediction as View>::V| task.description(p)
}

/// A list has one entry for each node of the tree, and its first entry is the root.
pub proof fn law_flattened<V>(node: NodeView<V>, describe: spec_fn(V) -> LeafView, base: nat)
    ensures
        flattened(node, describe, base).len() == node.nodes(),
        flattened(node, describe, base).len() > 0,
        flattened(node, describe, base)[0].id == base,
        flattened(node, describe, base)[0].n_samples == node.samples(),
        forall|i: int|
            0 <= i < node.nodes() ==> (#[trigger] flattened(node, describe, base)[i]).id == base
                + i,
    decreases node,
{
    match node {
        NodeView::Leaf { .. } => {},
        NodeView::Internal { rule, left, right } => {
            let l = flattened(*left, describe, base + 1);
            let r = flattened(*right, describe, base + 1 + l.len());
            law_flattened(*left, describe, base + 1);
            law_flattened(*right, describe, base + 1 + l.len());
            let all = flattened(node, describe, base);
            assert forall|i: int| 0 <= i < node.nodes() implies (#[trigger] all[i]).id == base
                + i by {
                if 1 <= i < 1 + l.len() {
                    assert(all[i] == l[i - 1]);
                } else if i >= 1 + l.len() {
                    assert(all[i] == r[i - 1 - l.len()]);
                }
            }
        },
    }
}

/// Whether entry `p` of a list numbered from `base` is a decision node with entry `c` as a child.
pub open spec fn is_parent(list: Seq<ExportedView>, base: nat, p: int, c: int) -> bool {
    !list[p].is_leaf && (list[p].left == base + c || list[p].right == base + c)
}

/// Whether entry `c` of a list numbered from `base` is a child of some entry.
pub open spec fn has_parent(list: Seq<ExportedView>, base: nat, c: int) -> bool {
    exists|p: int| 0 <= p < list.len() && #[trigger] is_parent(list, base, p, c)
}

/// Whether entry `i` of a list numbered from `base` is a leaf without children, or a decision node
/// whose left child follows it at once, whose right child comes later, and which has the samples of
/// both.
pub open spec fn links_hold(list: Seq<ExportedView>, base: nat, i: int) -> bool {
    let e = list[i];
    if e.is_leaf {
        e.left == NONE && e.right == NONE && e.feature == NONE && e.category == NONE
    } else {
        let right = e.right - base;
        &&& e.left == base + i + 1
        &&& i + 1 < right < list.len()
        &&& e.n_samples == list[i + 1].n_samples + list[right].n_samples
        &&& e.class == NONE
        &&& e.proba.len() == 0
    }
}

/// The entries of a list link up to a tree: each is a leaf, or a decision node with both children
/// behind it in the list and their samples together. Every entry but the first is the child of
/// exactly one entry, and the first is the child of none.
pub proof fn law_flattened_links<V>(node: NodeView<V>, describe: spec_fn(V) -> LeafView, base: nat)
    requires
        base + node.nodes() <= i64::MAX,
    ensures
        ({
            let list = flattened(node, describe, base);
            &&& list.len() == 2 * node.leaves() - 1
            &&& forall|i: int| 0 <= i < list.len() ==> #[trigger] links_hold(list, base, i)
            &&& forall|c: int| 0 < c < list.len() ==> #[trigger] has_parent(list, base, c)
            &&& forall|p: int, q: int, c: int|
                0 <= p < list.len() && 0 <= q < list.len() && #[trigger] is_parent(
                    list,
                    base,
                    p,
                    c,
                ) && #[trigger] is_parent(list, base, q, c) ==> p == q
            &&& forall|p: int, c: int|
                0 <= p < list.len() && #[trigger] is_parent(list, base, p, c) ==> p < c < list.len()
        }),
    decreases node,
{
    let all = flattened(node, describe, base);
    law_flattened(node, describe, base);
    node::law_node_count(node);
    match node {
        NodeView::Leaf { .. } => {
            assert(links_hold(all, base, 0));
        },
        NodeView::Internal { rule, left, right } => {
            let l = flattened(*left, describe, base + 1);
            let n = l.len() as int;
            let base_r = base + 1 + l.len();
            let r = flattened(*right, describe, base_r);
            law_flattened(*left, describe, base + 1);
            law_flattened(*right, describe, base_r);
            law_flattened_links(*left, describe, base + 1);
            law_flattened_links(*right, describe, base_r);
            assert forall|i: int| 0 <= i < n implies all[i + 1] == #[trigger] l[i] by {}
            assert forall|i: int| 0 <= i < r.len() implies all[i + 1 + n] == #[trigger] r[i] by {}
            assert(all[1] == l[0]);
            assert(all[1 + n] == r[0]);
            assert(links_hold(all, base, 0));
            assert forall|i: int| 0 <= i < all.len() implies #[trigger] links_hold(all, base, i) by {
                if 1 <= i < 1 + n {
                    assert(links_hold(l, base + 1, i - 1));
                    assert(all[i] == l[i - 1]);
                    if !l[i - 1].is_leaf {
                        let x = l[i - 1].right - (base + 1);
                        assert(all[i + 1] == l[i]);
                        assert(all[x + 1] == l[x]);
                    }
                } else if i >= 1 + n {
                    let j = i - 1 - n;
                    assert(links_hold(r, base_r, j));
                    assert(all[i] == r[j]);
                    if !r[j].is_leaf {
                        let x = r[j].right - base_r;
                        assert(all[i + 1] == r[j + 1]);
                        assert(all[x + 1 + n] == r[x]);
                    }
                }
            }
            assert forall|p: int, c: int|
                0 <= p < all.len() && #[trigger] is_parent(all, base, p, c) implies {
                &&& p < c < all.len()
                &&& p == 0 ==> c == 1 || c == 1 + n
                &&& 1 <= p < 1 + n ==> is_parent(l, base + 1, p - 1, c - 1) && 1 < c < 1 + n
                &&& p >= 1 + n ==> is_parent(r, base_r, p - 1 - n, c - 1 - n) && c > 1 + n
            } by {
                assert(links_hold(all, base, p));
                if 1 <= p < 1 + n {
                    assert(all[p] == l[p - 1]);
                    assert(is_parent(l, base + 1, p - 1, c - 1));
                } else if p >= 1 + n {
                    assert(all[p] == r[p - 1 - n]);
                    assert(is_parent(r, base_r, p - 1 - n, c - 1 - n));
                }
            }
            assert forall|c: int| 0 < c < all.len() implies #[trigger] has_parent(
                all,
                base,
                c,
            ) by {
                if c == 1 || c == 1 + n {
                    assert(is_parent(all, base, 0, c));
                } else if c < 1 + n {
                    assert(has_parent(l, base + 1, c - 1));
                    let p = choose|p: int|
                        0 <= p < l.len() && #[trigger] is_parent(l, base + 1, p, c - 1);
                    assert(all[p + 1] == l[p]);
                    assert(is_parent(all, base, p + 1, c));
                } else {
                    let d = c - 1 - n;
                    assert(has_parent(r, base_r, d));
                    let p = choose|p: int|
                        0 <= p < r.len() && #[trigger] is_parent(r, base_r, p, d);
                    assert(all[p + 1 + n] == r[p]);
                    assert(is_parent(all, base, p + 1 + n, c));
                }
            }
            assert forall|p: int, q: int, c: int|
                0 <= p < all.len() && 0 <= q < all.len() && #[trigger] is_parent(all, base, p, c)
                    && #[trigger] is_parent(all, base, q, c) implies p == q by {
                if 1 <= c - 1 < n {
                    assert(is_parent(l, base + 1, p - 1, c - 1));
                    assert(is_parent(l, base + 1, q - 1, c - 1));
                } else if c > 1 + n {
                    assert(is_parent(r, base_r, p - 1 - n, c - 1 - n));
                    assert(is_parent(r, base_r, q - 1 - n, c - 1 - n));
                }
            }
        },
    }
}

impl ExportedNode {
    fn placeholder(id: usize) -> (r: ExportedNode)
        ensures
            r@ == blank(id as nat),
    {
        ExportedNode {
            id,
            is_leaf: false,
            left: -1,
            right: -1,
            feature: -1,
            is_categorical: false,
            lower: Float::not_a_number(),
            upper: Float::not_a_number(),
            category: -1,
            n_samples: 0,
            class: -1,
            value: Float::not_a_number(),
            proba: Vec::new(),
        }
    }
}

/// Appends the nodes of a tree to a list and returns the position of its root.
pub fn walk_export<K: Task>(
    task: &K,
    node: &Node<K::Prediction>,
    out: &mut Vec<ExportedNode>,
) -> (r: usize)
    requires
        node@.samples() <= usize::MAX,
    ensures
        r == old(out)@.len(),
        exported_views(final(out)@) == exported_views(old(out)@) + flattened(
            node@,
            describing(task),
            old(out)@.len(),
        ),
    decreases node,
{
    let id: usize = out.len();
    let ghost start = out@;
    let ghost describe = describing(task);
    match node {
        Node::Leaf { prediction, n_samples } => {
            let info = task.describe_leaf(prediction);
            let class: i64 = match info.class {
                Some(c) => c as i64,
                None => -1,
            };
            let value = match info.value {
                Some(x) => x,
                None => Float::not_a_number(),
            };
            let e = ExportedNode {
                id,
                is_leaf: true,
                left: -1,
                right: -1,
                feature: -1,
                is_categorical: false,
                lower: Float::not_a_number(),
                upper: Float::not_a_number(),
                category: -1,
                n_samples: *n_samples,
                class,
                value,
                proba: info.proba,
            };
            assert(e@ =~= leaf_entry(id as nat, *n_samples as nat, task.description(prediction@)));
            out.push(e);
            assert(exported_views(out@) =~= exported_views(start) + flattened(
                node@,
                describe,
                id as nat,
            ));
        },
        Node::Internal { rule, left, right } => {
            out.push(ExportedNode::placeholder(id));
            let ghost l = flattened(left@, describe, (id + 1) as nat);
            let ghost r = flattened(right@, describe, (id + 1 + l.len()) as nat);
            proof {
                law_flattened(left@, describe, (id + 1) as nat);
                law_flattened(right@, describe, (id + 1 + l.len()) as nat);
            }
            let at_left: usize = walk_export(task, left, out);
            let ghost middle = out@;
            assert(exported_views(middle).len() == middle.len());
            let at_right: usize = walk_export(task, right, out);
            let ghost end = out@;
            assert(exported_views(end).len() == end.len());
            proof {
                assert(exported_views(end)[at_left as int] == l[0]);
                assert(exported_views(end)[at_right as int] == r[0]);
                assert(end[at_left as int]@ == l[0]);
                assert(end[at_right as int]@ == r[0]);
            }
            let n_samples: usize = out[at_left].n_samples + out[at_right].n_samples;
            let mut e = ExportedNode::placeholder(id);
            e.left = at_left as i64;
            e.right = at_right as i64;
            e.feature = rule.feature() as i64;
            e.n_samples = n_samples;
            match rule {
                SplitRule::ContinuousBin { lower, upper, .. } => {
                    e.lower = match lower {
                        Some(x) => *x,
                        None => Float::neg_infinity(),
                    };
                    e.upper = match upper {
                        Some(x) => *x,
                        None => Float::infinity(),
                    };
                },
                SplitRule::Category { category, .. } => {
                    e.is_categorical = true;
                    e.category = *category as i64;
                },
            }
            assert(e@ =~= split_entry(
                id as nat,
                *rule,
                at_left as nat,
                at_right as nat,
                n_samples as nat,
            ));
            out.set(id, e);
            proof {
                let views = exported_views(out@);
                let whole = flattened(node@, describe, id as nat);
                assert(whole == seq![e@] + l + r);
                assert forall|i: int| 0 <= i < views.len() implies #[trigger] views[i] == (
                exported_views(start) + whole)[i] by {
                    if i != id {
                        assert(views[i] == exported_views(end)[i]);
                    }
                }
                assert(views =~= exported_views(start) + whole);
            }
        },
    }
    id
}

} // verus!
