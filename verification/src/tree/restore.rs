//! Fitted trees as parallel arrays, and back.

use crate::float::Float;
use crate::tree::export;
use crate::tree::export::{ExportedNode, ExportedView};
use crate::tree::node::{Node, NodeView};
use crate::tree::rule::SplitRule;
use crate::tree::task;
use crate::tree::task::{ClassPrediction, ClassView, LeafView};
use vstd::prelude::*;
use vstd::set_lib::*;
use vstd::string::*;

verus! {

/// The arrays that describe the shape of a tree, with one entry for each node.
pub struct FlatTree {
    /// Whether the node is a leaf.
    pub is_leaf: Vec<bool>,
    /// Position of the left child.
    pub left: Vec<i64>,
    /// Position of the right child.
    pub right: Vec<i64>,
    /// Tested feature.
    pub feature: Vec<i64>,
    /// Whether the test is for a category.
    pub is_categorical: Vec<bool>,
    /// Lower end of a continuous test, included; negative infinity if open.
    pub lower: Vec<Float>,
    /// Upper end of a continuous test, excluded; infinity if open.
    pub upper: Vec<Float>,
    /// Category of a categorical test.
    pub category: Vec<i64>,
    /// Training samples that reached the node.
    pub n_samples: Vec<u64>,
}

/// The contents of the arrays of a tree.
#[verifier::ext_equal]
pub struct FlatView {
    pub is_leaf: Seq<bool>,
    pub left: Seq<i64>,
    pub right: Seq<i64>,
    pub feature: Seq<i64>,
    pub is_categorical: Seq<bool>,
    pub lower: Seq<Float>,
    pub upper: Seq<Float>,
    pub category: Seq<i64>,
    pub n_samples: Seq<u64>,
}

impl View for FlatTree {
    type V = FlatView;

    open spec fn view(&self) -> FlatView {
        FlatView {
            is_leaf: self.is_leaf@,
            left: self.left@,
            right: self.right@,
            feature: self.feature@,
            is_categorical: self.is_categorical@,
            lower: self.lower@,
            upper: self.upper@,
            category: self.category@,
            n_samples: self.n_samples@,
        }
    }
}

impl FlatView {
    /// Whether the arrays hold all that describes the decision node `id`.
    pub open spec fn splits_at(self, id: nat) -> bool {
        &&& id < self.left.len()
        &&& id < self.right.len()
        &&& id < self.feature.len()
        &&& id < self.is_categorical.len()
        &&& if self.is_categorical[id as int] {
            id < self.category.len()
        } else {
            id < self.lower.len() && id < self.upper.len()
        }
    }

    /// The rule of the decision node `id`. An infinite end is open.
    pub open spec fn rule(self, id: nat) -> SplitRule {
        let feature = self.feature[id as int] as usize;
        if self.is_categorical[id as int] {
            SplitRule::Category { feature, category: self.category[id as int] as u32 }
        } else {
            SplitRule::ContinuousBin {
                feature,
                lower: if self.lower[id as int] == Float::neg_infinity() {
                    None
                } else {
                    Some(self.lower[id as int])
                },
                upper: if self.upper[id as int] == Float::infinity() {
                    None
                } else {
                    Some(self.upper[id as int])
                },
            }
        }
    }

    /// Where the left child of `id` stands.
    pub open spec fn left_of(self, id: nat) -> nat {
        (self.left[id as int] as usize) as nat
    }

    /// Where the right child of `id` stands.
    pub open spec fn right_of(self, id: nat) -> nat {
        (self.right[id as int] as usize) as nat
    }

    /// Whether every path from node `id` reaches a leaf within `h` steps, and the predictions of
    /// all those leaves stand among the first `entries`.
    pub open spec fn ends_within(self, id: nat, entries: nat, h: nat) -> bool
        decreases h,
    {
        &&& id < self.is_leaf.len()
        &&& if self.is_leaf[id as int] {
            id < entries && id < self.n_samples.len()
        } else {
            &&& h > 0
            &&& self.splits_at(id)
            &&& self.ends_within(self.left_of(id), entries, (h - 1) as nat)
            &&& self.ends_within(self.right_of(id), entries, (h - 1) as nat)
        }
    }

    /// Whether the arrays describe a tree with root `id`: every path reaches a leaf.
    pub open spec fn ends(self, id: nat, entries: nat) -> bool {
        exists|h: nat| self.ends_within(id, entries, h)
    }

    /// The length of the longest path from node `id`.
    pub open spec fn height(self, id: nat, entries: nat) -> nat {
        choose|h: nat|
            self.ends_within(id, entries, h) && forall|g: nat|
                self.ends_within(id, entries, g) ==> h <= g
    }

    /// Whether the arrays describe the tree `t` with root `id`. `leaves` gives the prediction of
    /// the leaf at a position, as far as there is one.
    pub open spec fn describes<V>(
        self,
        leaves: spec_fn(nat) -> Option<V>,
        id: nat,
        t: NodeView<V>,
    ) -> bool
        decreases t,
    {
        &&& id < self.is_leaf.len()
        &&& match t {
            NodeView::Leaf { prediction, n_samples } => {
                &&& self.is_leaf[id as int]
                &&& leaves(id) == Some(prediction)
                &&& id < self.n_samples.len()
                &&& n_samples == (self.n_samples[id as int] as usize) as nat
            },
            NodeView::Internal { rule, left, right } => {
                &&& !self.is_leaf[id as int]
                &&& self.splits_at(id)
                &&& rule == self.rule(id)
                &&& self.describes(leaves, self.left_of(id), *left)
                &&& self.describes(leaves, self.right_of(id), *right)
            },
        }
    }
}

/// Arrays describe at most one tree.
pub proof fn law_described_is_unique<V>(
    flat: FlatView,
    leaves: spec_fn(nat) -> Option<V>,
    id: nat,
    a: NodeView<V>,
    b: NodeView<V>,
)
    requires
        flat.describes(leaves, id, a),
        flat.describes(leaves, id, b),
    ensures
        a == b,
    decreases a,
{
    match (a, b) {
        (
            NodeView::Internal { left: l, right: r, .. },
            NodeView::Internal { left: m, right: s, .. },
        ) => {
            law_described_is_unique(flat, leaves, flat.left_of(id), *l, *m);
            law_described_is_unique(flat, leaves, flat.right_of(id), *r, *s);
        },
        _ => {},
    }
}

/// Arrays that describe a tree have only paths that reach a leaf.
pub proof fn law_described_ends<V>(
    flat: FlatView,
    leaves: spec_fn(nat) -> Option<V>,
    entries: nat,
    id: nat,
    t: NodeView<V>,
)
    requires
        flat.describes(leaves, id, t),
        forall|i: nat| #[trigger] leaves(i) is Some ==> i < entries,
    ensures
        flat.ends_within(id, entries, t.depth()),
        flat.ends(id, entries),
    decreases t,
{
    match t {
        NodeView::Leaf { .. } => {
            assert(leaves(id) is Some);
        },
        NodeView::Internal { left, right, .. } => {
            let h = (t.depth() - 1) as nat;
            law_described_ends(flat, leaves, entries, flat.left_of(id), *left);
            law_described_ends(flat, leaves, entries, flat.right_of(id), *right);
            lemma_ends_longer(flat, flat.left_of(id), entries, left.depth(), h);
            lemma_ends_longer(flat, flat.right_of(id), entries, right.depth(), h);
        },
    }
    let h = t.depth();
    assert(flat.ends_within(id, entries, h));
}

/// A longer limit on paths is kept where a shorter one is.
proof fn lemma_ends_longer(flat: FlatView, id: nat, entries: nat, g: nat, h: nat)
    requires
        flat.ends_within(id, entries, g),
        g <= h,
    ensures
        flat.ends_within(id, entries, h),
    decreases g,
{
    if !flat.is_leaf[id as int] {
        lemma_ends_longer(flat, flat.left_of(id), entries, (g - 1) as nat, (h - 1) as nat);
        lemma_ends_longer(flat, flat.right_of(id), entries, (g - 1) as nat, (h - 1) as nat);
    }
}

/// There is a shortest limit on paths.
proof fn lemma_height_from(flat: FlatView, id: nat, entries: nat, h: nat)
    requires
        flat.ends_within(id, entries, h),
    ensures
        flat.ends_within(id, entries, flat.height(id, entries)),
        forall|g: nat| flat.ends_within(id, entries, g) ==> flat.height(id, entries) <= g,
    decreases h,
{
    if forall|g: nat| flat.ends_within(id, entries, g) ==> h <= g {
    } else {
        let g = choose|g: nat| flat.ends_within(id, entries, g) && g < h;
        lemma_height_from(flat, id, entries, g);
    }
}

proof fn lemma_height(flat: FlatView, id: nat, entries: nat)
    requires
        flat.ends(id, entries),
    ensures
        flat.ends_within(id, entries, flat.height(id, entries)),
        forall|g: nat| flat.ends_within(id, entries, g) ==> flat.height(id, entries) <= g,
{
    lemma_height_from(
        flat,
        id,
        entries,
        choose|h: nat| flat.ends_within(id, entries, h),
    );
}

/// The children of a decision node are roots of trees that are less high.
proof fn lemma_children(flat: FlatView, id: nat, entries: nat)
    requires
        flat.ends(id, entries),
        !flat.is_leaf[id as int],
    ensures
        id < flat.is_leaf.len(),
        flat.splits_at(id),
        flat.ends(flat.left_of(id), entries),
        flat.ends(flat.right_of(id), entries),
        flat.height(flat.left_of(id), entries) < flat.height(id, entries),
        flat.height(flat.right_of(id), entries) < flat.height(id, entries),
{
    lemma_height(flat, id, entries);
    let h = flat.height(id, entries);
    assert(flat.ends_within(flat.left_of(id), entries, (h - 1) as nat));
    assert(flat.ends_within(flat.right_of(id), entries, (h - 1) as nat));
    lemma_height(flat, flat.left_of(id), entries);
    lemma_height(flat, flat.right_of(id), entries);
}

/// No path is longer than there are nodes.
proof fn lemma_height_bounded(flat: FlatView, id: nat, entries: nat, above: Set<int>)
    requires
        flat.ends(id, entries),
        forall|x: int| #[trigger]
            above.contains(x) ==> 0 <= x < flat.is_leaf.len() && flat.height(id, entries)
                < flat.height(x as nat, entries),
    ensures
        flat.height(id, entries) + above.len() < flat.is_leaf.len(),
    decreases flat.height(id, entries),
{
    lemma_height(flat, id, entries);
    let h = flat.height(id, entries);
    let all = set_int_range(0, flat.is_leaf.len() as int);
    lemma_int_range(0, flat.is_leaf.len() as int);
    assert(above.subset_of(all));
    lemma_len_subset(above, all);
    let more = above.insert(id as int);
    assert(!above.contains(id as int));
    if flat.is_leaf[id as int] {
        assert(flat.ends_within(id, entries, 0));
        assert(more.subset_of(all));
        lemma_len_subset(more, all);
    } else {
        lemma_children(flat, id, entries);
        let l = flat.left_of(id);
        let r = flat.right_of(id);
        lemma_height(flat, l, entries);
        lemma_height(flat, r, entries);
        let c = if flat.height(l, entries) > flat.height(r, entries) {
            l
        } else {
            r
        };
        let k = flat.height(c, entries);
        lemma_ends_longer(flat, l, entries, flat.height(l, entries), k);
        lemma_ends_longer(flat, r, entries, flat.height(r, entries), k);
        assert(flat.ends_within(id, entries, k + 1));
        assert forall|x: int| #[trigger] more.contains(x) implies 0 <= x < flat.is_leaf.len()
            && flat.height(c, entries) < flat.height(x as nat, entries) by {
            if x != id {
                assert(above.contains(x));
            }
        }
        lemma_height_bounded(flat, c, entries, more);
    }
}

impl FlatTree {
    /// The arrays of a tree, which has at least one node.
    pub fn from_arrays(
        is_leaf: Vec<bool>,
        left: Vec<i64>,
        right: Vec<i64>,
        feature: Vec<i64>,
        is_categorical: Vec<bool>,
        lower: Vec<Float>,
        upper: Vec<Float>,
        category: Vec<i64>,
        n_samples: Vec<u64>,
    ) -> (r: Result<FlatTree, String>)
        ensures
            match r {
                Ok(flat) => is_leaf@.len() > 0 && flat@ == (FlatView {
                    is_leaf: is_leaf@,
                    left: left@,
                    right: right@,
                    feature: feature@,
                    is_categorical: is_categorical@,
                    lower: lower@,
                    upper: upper@,
                    category: category@,
                    n_samples: n_samples@,
                }),
                Err(e) => is_leaf@.len() == 0 && e@ == "tree state has no nodes"@,
            },
    {
        if is_leaf.len() == 0 {
            return Err("tree state has no nodes".to_owned());
        }
        Ok(
            FlatTree {
                is_leaf,
                left,
                right,
                feature,
                is_categorical,
                lower,
                upper,
                category,
                n_samples,
            },
        )
    }

    /// The routing rule of the decision node `id`. An infinite end is open.
    pub fn rule_at(&self, id: usize) -> (r: SplitRule)
        requires
            self@.splits_at(id as nat),
        ensures
            r == self@.rule(id as nat),
    {
        let feature: usize = self.feature[id] as usize;
        if self.is_categorical[id] {
            SplitRule::Category { feature, category: self.category[id] as u32 }
        } else {
            let lo = self.lower[id];
            let hi = self.upper[id];
            let lower: Option<Float> = if lo.to_bits() == Float::neg_infinity().to_bits() {
                None
            } else {
                Some(lo)
            };
            let upper: Option<Float> = if hi.to_bits() == Float::infinity().to_bits() {
                None
            } else {
                Some(hi)
            };
            SplitRule::ContinuousBin { feature, lower, upper }
        }
    }

    fn ends_in(&self, id: usize, entries: usize, h: usize) -> (r: bool)
        ensures
            r == self@.ends_within(id as nat, entries as nat, h as nat),
        decreases h,
    {
        if id >= self.is_leaf.len() {
            return false;
        }
        if self.is_leaf[id] {
            return id < entries && id < self.n_samples.len();
        }
        if h == 0 || id >= self.left.len() || id >= self.right.len() || id >= self.feature.len()
            || id >= self.is_categorical.len() {
            return false;
        }
        let complete: bool = if self.is_categorical[id] {
            id < self.category.len()
        } else {
            id < self.lower.len() && id < self.upper.len()
        };
        complete && self.ends_in(self.left[id] as usize, entries, h - 1) && self.ends_in(
            self.right[id] as usize,
            entries,
            h - 1,
        )
    }

    /// Whether the arrays describe a tree with root `id` and predictions among the first `entries`.
    pub fn is_tree(&self, id: usize, entries: usize) -> (r: bool)
        ensures
            r == self@.ends(id as nat, entries as nat),
    {
        let n: usize = self.is_leaf.len();
        let r: bool = self.ends_in(id, entries, n);
        proof {
            let flat = self@;
            if flat.ends(id as nat, entries as nat) {
                lemma_height(flat, id as nat, entries as nat);
                lemma_height_bounded(flat, id as nat, entries as nat, Set::empty());
                lemma_ends_longer(
                    flat,
                    id as nat,
                    entries as nat,
                    flat.height(id as nat, entries as nat),
                    n as nat,
                );
            }
        }
        r
    }
}

/// What the leaves of a classification tree predict. A class below zero counts as zero.
pub open spec fn class_leaves(class: Seq<i64>, proba: Seq<Seq<Float>>) -> spec_fn(nat) -> Option<
    ClassView,
> {
    |id: nat|
        if id < class.len() && id < proba.len() {
            Some(ClassView { class: clamped(class[id as int]), proba: proba[id as int] })
        } else {
            None
        }
}

/// A class id read from a signed number.
pub open spec fn clamped(class: i64) -> usize {
    if class > 0 {
        class as usize
    } else {
        0
    }
}

/// What the leaves of a regression tree predict.
pub open spec fn value_leaves(value: Seq<Float>) -> spec_fn(nat) -> Option<Float> {
    |id: nat|
        if id < value.len() {
            Some(value[id as int])
        } else {
            None
        }
}

/// The contents of each of several vectors.
pub open spec fn contents(vs: Seq<Vec<Float>>) -> Seq<Seq<Float>> {
    Seq::new(vs.len(), |i: int| vs[i]@)
}

/// The number of leaves that arrays of classes and of probabilities can describe.
pub open spec fn shorter(a: nat, b: nat) -> nat {
    if a < b {
        a
    } else {
        b
    }
}

/// The classification tree with root `id` that the arrays describe.
pub fn build_class_node(ft: &FlatTree, class: &[i64], proba: &[Vec<Float>], id: usize) -> (r: Node<
    ClassPrediction,
>)
    requires
        ft@.ends(id as nat, shorter(class@.len(), proba@.len())),
    ensures
        ft@.describes(class_leaves(class@, contents(proba@)), id as nat, r@),
    decreases ft@.height(id as nat, shorter(class@.len(), proba@.len())),
{
    let ghost flat = ft@;
    let ghost entries = shorter(class@.len(), proba@.len());
    proof {
        lemma_height(flat, id as nat, entries);
    }
    if ft.is_leaf[id] {
        let label: usize = if class[id] > 0 {
            class[id] as usize
        } else {
            0
        };
        let prediction = ClassPrediction { class: label, proba: task::copy_floats(&proba[id]) };
        assert(prediction@ =~= class_leaves(class@, contents(proba@))(id as nat)->Some_0);
        Node::Leaf { prediction, n_samples: ft.n_samples[id] as usize }
    } else {
        proof {
            lemma_children(flat, id as nat, entries);
        }
        let left = build_class_node(ft, class, proba, ft.left[id] as usize);
        let right = build_class_node(ft, class, proba, ft.right[id] as usize);
        Node::Internal { rule: ft.rule_at(id), left: Box::new(left), right: Box::new(right) }
    }
}

/// The regression tree with root `id` that the arrays describe.
pub fn build_regr_node(ft: &FlatTree, value: &[Float], id: usize) -> (r: Node<Float>)
    requires
        ft@.ends(id as nat, value@.len()),
    ensures
        ft@.describes(value_leaves(value@), id as nat, r@),
    decreases ft@.height(id as nat, value@.len()),
{
    let ghost flat = ft@;
    proof {
        lemma_height(flat, id as nat, value@.len());
    }
    if ft.is_leaf[id] {
        Node::Leaf { prediction: value[id], n_samples: ft.n_samples[id] as usize }
    } else {
        proof {
            lemma_children(flat, id as nat, value@.len());
        }
        let left = build_regr_node(ft, value, ft.left[id] as usize);
        let right = build_regr_node(ft, value, ft.right[id] as usize);
        Node::Internal { rule: ft.rule_at(id), left: Box::new(left), right: Box::new(right) }
    }
}

/// The predictions of the leaves of a tree, with one entry for each node.
pub enum LeafArrays {
    /// Of a classification tree.
    Classes {
        /// Predicted class.
        predicted_class: Vec<i64>,
        /// Probability of each class.
        proba: Vec<Vec<Float>>,
        /// Number of classes.
        n_classes: usize,
    },
    /// Of a regression tree.
    Values {
        /// Predicted value.
        value: Vec<Float>,
    },
}

/// A tree as parallel arrays.
pub struct TreeArrays {
    /// Number of nodes.
    pub node_count: usize,
    /// Shape of the tree.
    pub nodes: FlatTree,
    /// Predictions.
    pub leaves: LeafArrays,
}

/// The arrays of a list of nodes.
pub open spec fn flat_of(nodes: Seq<ExportedView>) -> FlatView {
    let n = nodes.len();
    FlatView {
        is_leaf: Seq::new(n, |i: int| nodes[i].is_leaf),
        left: Seq::new(n, |i: int| nodes[i].left),
        right: Seq::new(n, |i: int| nodes[i].right),
        feature: Seq::new(n, |i: int| nodes[i].feature),
        is_categorical: Seq::new(n, |i: int| nodes[i].is_categorical),
        lower: Seq::new(n, |i: int| nodes[i].lower),
        upper: Seq::new(n, |i: int| nodes[i].upper),
        category: Seq::new(n, |i: int| nodes[i].category),
        n_samples: Seq::new(n, |i: int| nodes[i].n_samples as u64),
    }
}

/// The predicted class of each node of a list.
pub open spec fn classes_of(nodes: Seq<ExportedView>) -> Seq<i64> {
    Seq::new(nodes.len(), |i: int| nodes[i].class)
}

/// The class probabilities of each node of a list.
pub open spec fn probas_of(nodes: Seq<ExportedView>) -> Seq<Seq<Float>> {
    Seq::new(nodes.len(), |i: int| nodes[i].proba)
}

/// The predicted value of each node of a list.
pub open spec fn values_of(nodes: Seq<ExportedView>) -> Seq<Float> {
    Seq::new(nodes.len(), |i: int| nodes[i].value)
}

/// The parallel arrays of a list of nodes. Classification trees have classes and probabilities,
/// other trees have values.
pub fn tree_to_dict(nodes: &[ExportedNode], with_classes: bool, n_classes: usize) -> (r: TreeArrays)
    ensures
        r.node_count == nodes@.len(),
        r.nodes@ == flat_of(export::exported_views(nodes@)),
        match r.leaves {
            LeafArrays::Classes { predicted_class, proba, n_classes: c } => {
                &&& with_classes
                &&& predicted_class@ == classes_of(export::exported_views(nodes@))
                &&& contents(proba@) == probas_of(export::exported_views(nodes@))
                &&& c == n_classes
            },
            LeafArrays::Values { value } => !with_classes && value@ == values_of(
                export::exported_views(nodes@),
            ),
        },
{
    let n: usize = nodes.len();
    let ghost views = export::exported_views(nodes@);
    let mut is_leaf: Vec<bool> = Vec::new();
    let mut left: Vec<i64> = Vec::new();
    let mut right: Vec<i64> = Vec::new();
    let mut feature: Vec<i64> = Vec::new();
    let mut is_categorical: Vec<bool> = Vec::new();
    let mut lower: Vec<Float> = Vec::new();
    let mut upper: Vec<Float> = Vec::new();
    let mut category: Vec<i64> = Vec::new();
    let mut n_samples: Vec<u64> = Vec::new();
    let mut i: usize = 0;
    while i < n
        invariant
            i <= n,
            n == nodes@.len(),
            views == export::exported_views(nodes@),
            (FlatView {
                is_leaf: is_leaf@,
                left: left@,
                right: right@,
                feature: feature@,
                is_categorical: is_categorical@,
                lower: lower@,
                upper: upper@,
                category: category@,
                n_samples: n_samples@,
            }) == flat_of(views.take(i as int)),
        decreases n - i,
    {
        let e = &nodes[i];
        is_leaf.push(e.is_leaf);
        left.push(e.left);
        right.push(e.right);
        feature.push(e.feature);
        is_categorical.push(e.is_categorical);
        lower.push(e.lower);
        upper.push(e.upper);
        category.push(e.category);
        n_samples.push(e.n_samples as u64);
        i += 1;
        proof {
            let now = FlatView {
                is_leaf: is_leaf@,
                left: left@,
                right: right@,
                feature: feature@,
                is_categorical: is_categorical@,
                lower: lower@,
                upper: upper@,
                category: category@,
                n_samples: n_samples@,
            };
            let before = flat_of(views.take(i - 1));
            assert(e@ == views[i - 1]);
            assert(now =~= flat_of(views.take(i as int)));
        }
    }
    assert(views.take(i as int) =~= views);
    let leaves = if with_classes {
        let mut predicted_class: Vec<i64> = Vec::new();
        let mut proba: Vec<Vec<Float>> = Vec::new();
        let mut j: usize = 0;
        while j < n
            invariant
                j <= n,
                n == nodes@.len(),
                views == export::exported_views(nodes@),
                predicted_class@ == classes_of(views.take(j as int)),
                contents(proba@) == probas_of(views.take(j as int)),
            decreases n - j,
        {
            let ghost before = contents(proba@);
            predicted_class.push(nodes[j].class);
            let copy = task::copy_floats(&nodes[j].proba);
            proba.push(copy);
            j += 1;
            proof {
                assert(nodes@[j - 1]@ == views[j - 1]);
                assert(predicted_class@ =~= classes_of(views.take(j as int)));
                assert(contents(proba@) =~= before.push(copy@));
                assert(probas_of(views.take(j as int)) =~= probas_of(views.take(j - 1)).push(copy@));
            }
        }
        assert(views.take(j as int) =~= views);
        LeafArrays::Classes { predicted_class, proba, n_classes }
    } else {
        let mut value: Vec<Float> = Vec::new();
        let mut j: usize = 0;
        while j < n
            invariant
                j <= n,
                n == nodes@.len(),
                views == export::exported_views(nodes@),
                value@ == values_of(views.take(j as int)),
            decreases n - j,
        {
            value.push(nodes[j].value);
            j += 1;
            proof {
                assert(nodes@[j - 1]@ == views[j - 1]);
                assert(value@ =~= values_of(views.take(j as int)));
            }
        }
        assert(views.take(j as int) =~= views);
        LeafArrays::Values { value }
    };
    let nodes = FlatTree {
        is_leaf,
        left,
        right,
        feature,
        is_categorical,
        lower,
        upper,
        category,
        n_samples,
    };
    TreeArrays { node_count: n, nodes, leaves }
}

/// Whether the numbers of a tree can be stored: tested features and counts fit, and no end of a
/// rule is the infinity that stands for an open end.
pub open spec fn storable<V>(tree: NodeView<V>) -> bool
    decreases tree,
{
    match tree {
        NodeView::Leaf { n_samples, .. } => n_samples <= usize::MAX,
        NodeView::Internal { rule, left, right } => {
            &&& rule.tested() <= i64::MAX
            &&& match rule {
                SplitRule::ContinuousBin { lower, upper, .. } => lower != Some(
                    Float::neg_infinity(),
                ) && upper != Some(Float::infinity()),
                SplitRule::Category { .. } => true,
            }
            &&& storable(*left)
            &&& storable(*right)
        },
    }
}

/// Whether a prediction can be read back from the entry of a leaf.
pub open spec fn readable<V>(
    describe: spec_fn(V) -> LeafView,
    read: spec_fn(ExportedView) -> V,
) -> spec_fn(V) -> bool {
    |v: V|
        forall|id: nat, n: nat| #[trigger] read(export::leaf_entry(id, n, describe(v))) == v
}

/// A tree is described by the arrays of a list that holds its nodes.
proof fn lemma_restored<V>(
    tree: NodeView<V>,
    describe: spec_fn(V) -> LeafView,
    read: spec_fn(ExportedView) -> V,
    leaves: spec_fn(nat) -> Option<V>,
    all: Seq<ExportedView>,
    base: nat,
)
    requires
        storable(tree),
        tree.predicts(readable(describe, read)),
        all.len() <= i64::MAX,
        all.len() <= usize::MAX,
        base + tree.nodes() <= all.len(),
        forall|j: int|
            base <= j < base + tree.nodes() ==> #[trigger] all[j] == export::flattened(
                tree,
                describe,
                base,
            )[j - base],
        forall|i: nat| i < all.len() ==> #[trigger] leaves(i) == Some(read(all[i as int])),
    ensures
        flat_of(all).describes(leaves, base, tree),
    decreases tree,
{
    let part = export::flattened(tree, describe, base);
    let flat = flat_of(all);
    export::law_flattened(tree, describe, base);
    assert(all[base as int] == part[0]);
    match tree {
        NodeView::Leaf { prediction, n_samples } => {
            assert(part[0] == export::leaf_entry(base, n_samples, describe(prediction)));
            assert(leaves(base) == Some(read(all[base as int])));
        },
        NodeView::Internal { rule, left, right } => {
            let l = export::flattened(*left, describe, base + 1);
            let r = export::flattened(*right, describe, base + 1 + l.len());
            export::law_flattened(*left, describe, base + 1);
            export::law_flattened(*right, describe, base + 1 + l.len());
            assert forall|j: int|
                base + 1 <= j < base + 1 + left.nodes() implies #[trigger] all[j] == l[j - (base
                + 1)] by {
                assert(part[j - base] == l[j - base - 1]);
            }
            assert forall|j: int|
                base + 1 + l.len() <= j < base + 1 + l.len() + right.nodes() implies #[trigger] all[j]
                == r[j - (base + 1 + l.len())] by {
                assert(part[j - base] == r[j - base - 1 - l.len()]);
            }
            lemma_restored(*left, describe, read, leaves, all, base + 1);
            lemma_restored(*right, describe, read, leaves, all, base + 1 + l.len());
        },
    }
}

/// The arrays of an exported classification tree describe that tree and no other, so a tree built
/// from them predicts the same.
pub proof fn law_class_tree_restored(
    tree: NodeView<ClassView>,
    describe: spec_fn(ClassView) -> LeafView,
    other: NodeView<ClassView>,
)
    requires
        forall|p: ClassView| #[trigger] describe(p) == task::class_description(p),
        storable(tree),
        tree.predicts(|p: ClassView| p.class <= i64::MAX),
        tree.nodes() <= i64::MAX,
        tree.nodes() <= usize::MAX,
    ensures
        ({
            let nodes = export::flattened(tree, describe, 0);
            let leaves = class_leaves(classes_of(nodes), probas_of(nodes));
            &&& flat_of(nodes).describes(leaves, 0, other) <==> other == tree
            &&& flat_of(nodes).ends(0, nodes.len())
        }),
{
    let read = |e: ExportedView| ClassView { class: clamped(e.class), proba: e.proba };
    let nodes = export::flattened(tree, describe, 0);
    let leaves = class_leaves(classes_of(nodes), probas_of(nodes));
    export::law_flattened(tree, describe, 0);
    lemma_predicts(tree, |p: ClassView| p.class <= i64::MAX, readable(describe, read));
    lemma_restored(tree, describe, read, leaves, nodes, 0);
    law_described_ends(flat_of(nodes), leaves, nodes.len(), 0, tree);
    if flat_of(nodes).describes(leaves, 0, other) {
        law_described_is_unique(flat_of(nodes), leaves, 0, tree, other);
    }
}

/// The arrays of an exported regression tree describe that tree and no other, so a tree built from
/// them predicts the same.
pub proof fn law_value_tree_restored(
    tree: NodeView<Float>,
    describe: spec_fn(Float) -> LeafView,
    other: NodeView<Float>,
)
    requires
        forall|p: Float| #[trigger] describe(p) == task::value_description(p),
        storable(tree),
        tree.nodes() <= i64::MAX,
        tree.nodes() <= usize::MAX,
    ensures
        ({
            let nodes = export::flattened(tree, describe, 0);
            &&& flat_of(nodes).describes(value_leaves(values_of(nodes)), 0, other) <==> other == tree
            &&& flat_of(nodes).ends(0, nodes.len())
        }),
{
    let read = |e: ExportedView| e.value;
    let nodes = export::flattened(tree, describe, 0);
    let leaves = value_leaves(values_of(nodes));
    export::law_flattened(tree, describe, 0);
    lemma_predicts_any(tree, |p: Float| true);
    lemma_predicts(tree, |p: Float| true, readable(describe, read));
    lemma_restored(tree, describe, read, leaves, nodes, 0);
    law_described_ends(flat_of(nodes), leaves, nodes.len(), 0, tree);
    if flat_of(nodes).describes(leaves, 0, other) {
        law_described_is_unique(flat_of(nodes), leaves, 0, tree, other);
    }
}

proof fn lemma_predicts<V>(tree: NodeView<V>, p: spec_fn(V) -> bool, q: spec_fn(V) -> bool)
    requires
        tree.predicts(p),
        forall|v: V| #[trigger] p(v) ==> q(v),
    ensures
        tree.predicts(q),
    decreases tree,
{
    match tree {
        NodeView::Leaf { .. } => {},
        NodeView::Internal { left, right, .. } => {
            lemma_predicts(*left, p, q);
            lemma_predicts(*right, p, q);
        },
    }
}

proof fn lemma_predicts_any<V>(tree: NodeView<V>, p: spec_fn(V) -> bool)
    requires
        forall|v: V| #[trigger] p(v),
    ensures
        tree.predicts(p),
    decreases tree,
{
    match tree {
        NodeView::Leaf { .. } => {},
        NodeView::Internal { left, right, .. } => {
            lemma_predicts_any(*left, p);
            lemma_predicts_any(*right, p);
        },
    }
}

} // verus!
