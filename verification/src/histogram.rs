//! Split scoring from per-fold histograms.
//!
//! One pass over the samples of a node scatters each into the histogram of the fold in which it
//! validates. A split is then scored from counts or moments: one child is a histogram cell (or a
//! running prefix of cells for an ordered cut), the other is the fold total minus that.

use crate::aggregation;
use crate::aggregation::Aggregator;
use crate::candidate::Candidate;
use crate::criterion;
use crate::criterion::{entropy_from_counts, gini_from_counts, variance_from_moments};
use crate::cross_validation;
use crate::cross_validation::FoldStats;
use crate::data::{Bin, SampleId, MISSING_BIN_CODE};
use crate::float::Float;
use crate::selector;
use crate::selector::{ScoredCandidate, ScoredView};
use crate::statistics;
use vstd::prelude::*;

verus! {

/// Which classification impurity is computed from class counts.
#[derive(Clone, Copy, Debug, PartialEq, Eq, Structural)]
pub enum ClassImpurityKind {
    /// Gini impurity.
    Gini,
    /// Shannon entropy.
    Entropy,
}

/// Reusable buffers. They grow to the largest size seen and are zeroed on reuse.
#[derive(Default)]
pub struct FastScratch {
    hist: Vec<u32>,
    tot: Vec<u32>,
    ncnt: Vec<u32>,
    rsum: Vec<Float>,
    rsq: Vec<Float>,
    rtot_sum: Vec<Float>,
    rtot_sq: Vec<Float>,
}

/// Lengths of the reusable buffers.
pub struct ScratchSizes {
    pub hist: nat,
    pub tot: nat,
    pub ncnt: nat,
    pub rsum: nat,
    pub rsq: nat,
    pub rtot_sum: nat,
    pub rtot_sq: nat,
}

/// The larger of two lengths.
pub open spec fn grown(a: nat, b: nat) -> nat {
    if a < b {
        b
    } else {
        a
    }
}

impl FastScratch {
    /// Lengths of the buffers.
    pub closed spec fn sizes(&self) -> ScratchSizes {
        ScratchSizes {
            hist: self.hist@.len(),
            tot: self.tot@.len(),
            ncnt: self.ncnt@.len(),
            rsum: self.rsum@.len(),
            rsq: self.rsq@.len(),
            rtot_sum: self.rtot_sum@.len(),
            rtot_sq: self.rtot_sq@.len(),
        }
    }

    /// Empty buffers.
    pub fn new() -> (r: FastScratch)
        ensures
            r.sizes() == (ScratchSizes {
                hist: 0,
                tot: 0,
                ncnt: 0,
                rsum: 0,
                rsq: 0,
                rtot_sum: 0,
                rtot_sq: 0,
            }),
    {
        FastScratch {
            hist: Vec::new(),
            tot: Vec::new(),
            ncnt: Vec::new(),
            rsum: Vec::new(),
            rsq: Vec::new(),
            rtot_sum: Vec::new(),
            rtot_sq: Vec::new(),
        }
    }
}

/// Zeroes the first `n` entries, growing the buffer to `n` if it is shorter.
pub fn reset_u32(v: &mut Vec<u32>, n: usize)
    ensures
        final(v)@.len() == grown(old(v)@.len(), n as nat),
        forall|i: int| 0 <= i < n ==> #[trigger] final(v)@[i] == 0,
        forall|i: int| n <= i < old(v)@.len() ==> #[trigger] final(v)@[i] == old(v)@[i],
{
    if v.len() < n {
        v.resize(n, 0);
    }
    let ghost before = v@;
    let mut i: usize = 0;
    while i < n
        invariant
            i <= n <= v@.len(),
            v@.len() == before.len(),
            forall|j: int| 0 <= j < i ==> #[trigger] v@[j] == 0,
            forall|j: int| i <= j < before.len() ==> #[trigger] v@[j] == before[j],
        decreases n - i,
    {
        v.set(i, 0);
        i += 1;
    }
}

/// Zeroes the first `n` entries, growing the buffer to `n` if it is shorter.
pub fn reset_floats(v: &mut Vec<Float>, n: usize)
    ensures
        final(v)@.len() == grown(old(v)@.len(), n as nat),
        forall|i: int| 0 <= i < n ==> #[trigger] final(v)@[i] == Float::zero(),
        forall|i: int| n <= i < old(v)@.len() ==> #[trigger] final(v)@[i] == old(v)@[i],
{
    if v.len() < n {
        v.resize(n, Float::zero());
    }
    let ghost before = v@;
    let mut i: usize = 0;
    while i < n
        invariant
            i <= n <= v@.len(),
            v@.len() == before.len(),
            forall|j: int| 0 <= j < i ==> #[trigger] v@[j] == Float::zero(),
            forall|j: int| i <= j < before.len() ==> #[trigger] v@[j] == before[j],
        decreases n - i,
    {
        v.set(i, Float::zero());
        i += 1;
    }
}

/// The impurity of class counts that sum to `n`.
pub open spec fn impurity_of_counts(kind: ClassImpurityKind, counts: Seq<u64>, n: nat) -> Float {
    match kind {
        ClassImpurityKind::Gini => criterion::gini_of(counts, n),
        ClassImpurityKind::Entropy => criterion::entropy_of(counts, n),
    }
}

/// The impurity of class labels, as a function. Labels that are no class are ignored.
pub open spec fn class_measure(kind: ClassImpurityKind, n_classes: nat) -> spec_fn(
    Seq<usize>,
) -> Float {
    |labels: Seq<usize>|
        {
            let counts = criterion::tallies(labels, n_classes);
            impurity_of_counts(kind, counts, sum_of_counts(counts))
        }
}

fn imp_counts(kind: ClassImpurityKind, counts: &[u64], n: u64) -> (r: Float)
    ensures
        r == impurity_of_counts(kind, counts@, n as nat),
{
    match kind {
        ClassImpurityKind::Gini => gini_from_counts(counts, n),
        ClassImpurityKind::Entropy => entropy_from_counts(counts, n),
    }
}

/// Position of entry `j` in row `i` of a table with rows of length `n`.
pub open spec fn slot(i: int, n: int, j: int) -> int {
    i * n + j
}

/// A table position lies within the table.
pub(crate) proof fn lemma_slot_bound(i: int, n: int, j: int, rows: int)
    requires
        0 <= i < rows,
        0 <= j < n,
    ensures
        0 <= slot(i, n, j) < rows * n,
{
    assert(0 <= i * n && i * n + n <= rows * n) by (nonlinear_arith)
        requires
            0 <= i < rows,
            0 < n,
    ;
}

/// Different entries of a table have different positions.
pub(crate) proof fn lemma_slot_injective(i: int, j: int, k: int, l: int, n: int)
    requires
        0 <= i,
        0 <= k,
        0 <= j < n,
        0 <= l < n,
        slot(i, n, j) == slot(k, n, l),
    ensures
        i == k,
        j == l,
{
    vstd::arithmetic::div_mod::lemma_fundamental_div_mod_converse(slot(i, n, j), n, i, j);
    vstd::arithmetic::div_mod::lemma_fundamental_div_mod_converse(slot(k, n, l), n, k, l);
}

/// Whether the sample at position `p` of the node is counted: its bin and its label are known.
pub open spec fn class_counted(
    codes: Seq<Bin>,
    labels: Seq<usize>,
    order: Seq<SampleId>,
    bins: nat,
    classes: nat,
    p: int,
) -> bool {
    let s = order[p] as int;
    codes[s] != MISSING_BIN_CODE && codes[s] < bins && labels[s] < classes
}

/// The labels of the counted samples that validate in fold `f`, among the first `n`.
pub open spec fn fold_labels(
    codes: Seq<Bin>,
    labels: Seq<usize>,
    order: Seq<SampleId>,
    val_fold: Seq<u8>,
    bins: nat,
    classes: nat,
    f: nat,
    n: nat,
) -> Seq<usize>
    decreases n,
{
    if n == 0 {
        Seq::empty()
    } else {
        let before = fold_labels(
            codes,
            labels,
            order,
            val_fold,
            bins,
            classes,
            f,
            (n - 1) as nat,
        );
        if class_counted(codes, labels, order, bins, classes, n - 1) && val_fold[n - 1] == f {
            before.push(labels[order[n - 1] as int])
        } else {
            before
        }
    }
}

/// The bins of the counted samples that validate in fold `f`, among the first `n`.
pub open spec fn fold_bins(
    codes: Seq<Bin>,
    labels: Seq<usize>,
    order: Seq<SampleId>,
    val_fold: Seq<u8>,
    bins: nat,
    classes: nat,
    f: nat,
    n: nat,
) -> Seq<u32>
    decreases n,
{
    if n == 0 {
        Seq::empty()
    } else {
        let before = fold_bins(codes, labels, order, val_fold, bins, classes, f, (n - 1) as nat);
        if class_counted(codes, labels, order, bins, classes, n - 1) && val_fold[n - 1] == f {
            before.push(codes[order[n - 1] as int] as u32)
        } else {
            before
        }
    }
}

/// A node of labelled samples, as the histogram scorers see it.
pub struct ClassNode {
    pub codes: Seq<Bin>,
    pub labels: Seq<usize>,
    pub order: Seq<SampleId>,
    pub val_fold: Seq<u8>,
    pub bins: nat,
    pub classes: nat,
}

impl ClassNode {
    /// The labels of the counted samples that validate in fold `f`.
    pub open spec fn labels_in(self, f: nat) -> Seq<usize> {
        fold_labels(
            self.codes,
            self.labels,
            self.order,
            self.val_fold,
            self.bins,
            self.classes,
            f,
            self.order.len(),
        )
    }

    /// The bins of the counted samples that validate in fold `f`.
    pub open spec fn bins_in(self, f: nat) -> Seq<u32> {
        fold_bins(
            self.codes,
            self.labels,
            self.order,
            self.val_fold,
            self.bins,
            self.classes,
            f,
            self.order.len(),
        )
    }

    /// Whether every entry that scoring reads exists, with fold ids below `k`.
    pub open spec fn readable(self, k: nat) -> bool {
        forall|p: int|
            0 <= p < self.order.len() ==> {
                let s = (#[trigger] self.order[p]) as int;
                &&& s < self.codes.len()
                &&& self.codes[s] != MISSING_BIN_CODE && self.codes[s] < self.bins ==> {
                    &&& s < self.labels.len()
                    &&& self.labels[s] < self.classes ==> p < self.val_fold.len()
                        && self.val_fold[p] < k
                }
            }
    }

    /// Whether some counted sample of the first `k` folds lies in bin `b`.
    pub open spec fn occupied(self, b: nat, k: nat) -> bool {
        exists|f: nat| f < k && (#[trigger] self.bins_in(f)).contains(b as u32)
    }
}

/// Whether a bin is a candidate: it occurs, and for an ordered cut it is not the last bin.
pub open spec fn cuttable(occupied: bool, b: nat, bins: nat, prefix: bool) -> bool {
    occupied && (prefix ==> b + 1 < bins)
}

/// The impurity decreases of a split at bin `b` on the first `k` folds, where it is valid.
pub open spec fn class_gains(
    node: ClassNode,
    kind: ClassImpurityKind,
    b: nat,
    prefix: bool,
    k: nat,
) -> Seq<Float>
    decreases k,
{
    if k == 0 {
        Seq::empty()
    } else {
        let f = (k - 1) as nat;
        let before = class_gains(node, kind, b, prefix, f);
        match cross_validation::fold_gain(
            class_measure(kind, node.classes),
            node.labels_in(f),
            node.bins_in(f),
            b as u32,
            1,
            prefix,
        ) {
            Some(gain) => before.push(gain),
            None => before,
        }
    }
}

/// A scored candidate made of the scores of its folds.
pub open spec fn scored_as(
    feature: usize,
    state: u32,
    scores: Seq<Float>,
    k: nat,
    rank: spec_fn(cross_validation::StatsView) -> Float,
) -> ScoredView {
    let stats = cross_validation::summary(scores, k);
    ScoredView { candidate: Candidate { feature, state }, score: rank(stats), stats }
}

/// The scored candidates among the first `b` bins.
pub open spec fn class_candidates(
    node: ClassNode,
    kind: ClassImpurityKind,
    rank: spec_fn(cross_validation::StatsView) -> Float,
    feature: usize,
    prefix: bool,
    k: nat,
    b: nat,
) -> Seq<ScoredView>
    decreases b,
{
    if b == 0 {
        Seq::empty()
    } else {
        let at = (b - 1) as nat;
        let before = class_candidates(node, kind, rank, feature, prefix, k, at);
        if cuttable(node.occupied(at, k), at, node.bins, prefix) {
            before.push(
                scored_as(
                    feature,
                    at as u32,
                    class_gains(node, kind, at, prefix, k),
                    k,
                    rank,
                ),
            )
        } else {
            before
        }
    }
}

/// All scored candidates of one feature at a classification node.
pub open spec fn class_scores(
    node: ClassNode,
    kind: ClassImpurityKind,
    rank: spec_fn(cross_validation::StatsView) -> Float,
    feature: usize,
    prefix: bool,
    k: nat,
) -> Seq<ScoredView> {
    if node.classes == 0 {
        Seq::empty()
    } else {
        class_candidates(node, kind, rank, feature, prefix, k, node.bins)
    }
}

/// The sum of counts.
pub open spec fn sum_of_counts(s: Seq<u64>) -> nat
    decreases s.len(),
{
    if s.len() == 0 {
        0
    } else {
        sum_of_counts(s.drop_last()) + s.last() as nat
    }
}

impl ClassNode {
    /// The labels of fold `f` among the first `n` samples.
    pub open spec fn labels_to(self, f: nat, n: nat) -> Seq<usize> {
        fold_labels(
            self.codes,
            self.labels,
            self.order,
            self.val_fold,
            self.bins,
            self.classes,
            f,
            n,
        )
    }

    /// The bins of fold `f` among the first `n` samples.
    pub open spec fn bins_to(self, f: nat, n: nat) -> Seq<u32> {
        fold_bins(
            self.codes,
            self.labels,
            self.order,
            self.val_fold,
            self.bins,
            self.classes,
            f,
            n,
        )
    }

    /// The labels of fold `f` on the left of a split at bin `b`, among the first `n` samples.
    pub open spec fn left_to(self, f: nat, b: nat, prefix: bool, n: nat) -> Seq<usize> {
        cross_validation::side(self.labels_to(f, n), self.bins_to(f, n), b as u32, prefix, true)
    }

    /// Whether the histogram of the first `n` samples holds their class counts.
    pub open spec fn tabulated(
        self,
        k: nat,
        n: nat,
        hist: Seq<u32>,
        tot: Seq<u32>,
        ncnt: Seq<u32>,
    ) -> bool {
        &&& hist.len() >= k * self.bins * self.classes
        &&& tot.len() >= k * self.classes
        &&& ncnt.len() >= k * self.bins
        &&& forall|f: int, b: int, c: int|
            0 <= f < k && 0 <= b < self.bins && 0 <= c < self.classes ==> #[trigger] hist[slot(
                slot(f, self.bins as int, b),
                self.classes as int,
                c,
            )] == criterion::tally(self.left_to(f as nat, b as nat, false, n), c as nat)
        &&& forall|f: int, c: int|
            0 <= f < k && 0 <= c < self.classes ==> #[trigger] tot[slot(
                f,
                self.classes as int,
                c,
            )] == criterion::tally(self.labels_to(f as nat, n), c as nat)
        &&& forall|f: int, b: int|
            0 <= f < k && 0 <= b < self.bins ==> #[trigger] ncnt[slot(f, self.bins as int, b)]
                == self.left_to(f as nat, b as nat, false, n).len()
    }

    pub(crate) proof fn lemma_lengths(self, f: nat, n: nat)
        ensures
            self.labels_to(f, n).len() == self.bins_to(f, n).len(),
            self.labels_to(f, n).len() <= n,
            forall|i: int|
                0 <= i < self.labels_to(f, n).len() ==> #[trigger] self.labels_to(f, n)[i]
                    < self.classes,
            forall|i: int|
                0 <= i < self.bins_to(f, n).len() ==> #[trigger] self.bins_to(f, n)[i] < self.bins
                    && self.bins_to(f, n)[i] < 0xffff,
        decreases n,
    {
        if n > 0 {
            self.lemma_lengths(f, (n - 1) as nat);
        }
    }

    pub(crate) proof fn lemma_left_bound(self, f: nat, b: nat, prefix: bool, n: nat)
        ensures
            self.left_to(f, b, prefix, n).len() <= n,
    {
        self.lemma_lengths(f, n);
        cross_validation::lemma_side_len(
            self.labels_to(f, n),
            self.bins_to(f, n),
            b as u32,
            prefix,
        );
    }

    /// What one more sample does to the left labels of every split.
    pub(crate) proof fn lemma_left_step(self, f: nat, b: nat, prefix: bool, n: nat)
        ensures
            self.left_to(f, b, prefix, n + 1) == {
                let before = self.left_to(f, b, prefix, n);
                if class_counted(
                    self.codes,
                    self.labels,
                    self.order,
                    self.bins,
                    self.classes,
                    n as int,
                ) && self.val_fold[n as int] == f && cross_validation::goes_left(
                    self.codes[self.order[n as int] as int] as u32,
                    b as u32,
                    prefix,
                ) {
                    before.push(self.labels[self.order[n as int] as int])
                } else {
                    before
                }
            },
    {
        self.lemma_lengths(f, n);
        let s = self.order[n as int] as int;
        cross_validation::lemma_side_push(
            self.labels_to(f, n),
            self.bins_to(f, n),
            self.labels[s],
            self.codes[s] as u32,
            b as u32,
            prefix,
            true,
        );
    }
}

/// The node that the arguments of a scorer describe.
pub open spec fn class_node(
    codes: Seq<Bin>,
    labels: Seq<usize>,
    order: Seq<SampleId>,
    val_fold: Seq<u8>,
    bins: nat,
    classes: nat,
) -> ClassNode {
    ClassNode { codes, labels, order, val_fold, bins, classes }
}

pub(crate) proof fn lemma_tally_push(s: Seq<usize>, x: usize, c: nat)
    ensures
        criterion::tally(s.push(x), c) == criterion::tally(s, c) + if x == c {
            1nat
        } else {
            0
        },
{
    assert(s.push(x).drop_last() =~= s);
}

/// Scatters the samples of a node into per-fold class histograms: by fold, bin and class, by fold
/// and class, and by fold and bin.
pub(crate) fn scatter_classes(
    codes: &[Bin],
    labels: &[usize],
    order: &[SampleId],
    val_fold: &[u8],
    k: usize,
    bins: usize,
    classes: usize,
    hist: &mut Vec<u32>,
    tot: &mut Vec<u32>,
    ncnt: &mut Vec<u32>,
)
    requires
        0 < bins <= u32::MAX,
        classes > 0,
        k * bins * classes <= usize::MAX,
        order@.len() <= u32::MAX,
        class_node(
            codes@,
            labels@,
            order@,
            val_fold@,
            bins as nat,
            classes as nat,
        ).readable(k as nat),
    ensures
        final(hist)@.len() == grown(old(hist)@.len(), (k * bins * classes) as nat),
        final(tot)@.len() == grown(old(tot)@.len(), (k * classes) as nat),
        final(ncnt)@.len() == grown(old(ncnt)@.len(), (k * bins) as nat),
        class_node(
            codes@,
            labels@,
            order@,
            val_fold@,
            bins as nat,
            classes as nat,
        ).tabulated(k as nat, order@.len(), final(hist)@, final(tot)@, final(ncnt)@),
{
    let ghost node = class_node(
        codes@,
        labels@,
        order@,
        val_fold@,
        bins as nat,
        classes as nat,
    );
    proof {
        assert(0 <= k * bins <= k * bins * classes) by (nonlinear_arith)
            requires
                k >= 0,
                bins > 0,
                classes > 0,
        ;
        assert(0 <= k * classes <= k * bins * classes) by (nonlinear_arith)
            requires
                k >= 0,
                bins > 0,
                classes > 0,
        ;
    }
    reset_u32(hist, k * bins * classes);
    reset_u32(tot, k * classes);
    reset_u32(ncnt, k * bins);
    proof {
        assert forall|f: int, b: int, c: int|
            0 <= f < k && 0 <= b < bins && 0 <= c < classes implies #[trigger] hist@[slot(
            slot(f, bins as int, b),
            classes as int,
            c,
        )] == criterion::tally(node.left_to(f as nat, b as nat, false, 0), c as nat) by {
            lemma_slot_bound(f, bins as int, b, k as int);
            lemma_slot_bound(slot(f, bins as int, b), classes as int, c, k * bins);
        }
        assert forall|f: int, c: int| 0 <= f < k && 0 <= c < classes implies #[trigger] tot@[slot(
            f,
            classes as int,
            c,
        )] == criterion::tally(node.labels_to(f as nat, 0), c as nat) by {
            lemma_slot_bound(f, classes as int, c, k as int);
        }
        assert forall|f: int, b: int| 0 <= f < k && 0 <= b < bins implies #[trigger] ncnt@[slot(
            f,
            bins as int,
            b,
        )] == node.left_to(f as nat, b as nat, false, 0).len() by {
            lemma_slot_bound(f, bins as int, b, k as int);
        }
    }
    let mut pos: usize = 0;
    while pos < order.len()
        invariant
            pos <= order@.len(),
            order@.len() <= u32::MAX,
            0 < bins <= u32::MAX,
            classes > 0,
            k * bins * classes <= usize::MAX,
            k * bins <= usize::MAX,
            k * classes <= usize::MAX,
            node == class_node(
                codes@,
                labels@,
                order@,
                val_fold@,
                bins as nat,
                classes as nat,
            ),
            node.readable(k as nat),
            hist@.len() == grown(old(hist)@.len(), (k * bins * classes) as nat),
            tot@.len() == grown(old(tot)@.len(), (k * classes) as nat),
            ncnt@.len() == grown(old(ncnt)@.len(), (k * bins) as nat),
            node.tabulated(k as nat, pos as nat, hist@, tot@, ncnt@),
        decreases order@.len() - pos,
    {
        let ghost n = pos as nat;
        assert(node.order[pos as int] == order@[pos as int]);
        let s: usize = order[pos] as usize;
        let code: Bin = codes[s];
        let mut taken: bool = false;
        let ghost h0 = hist@;
        let ghost t0 = tot@;
        let ghost c0 = ncnt@;
        if code != MISSING_BIN_CODE && (code as usize) < bins {
            let b: usize = code as usize;
            let lab: usize = labels[s];
            if lab < classes {
                taken = true;
                let f: usize = val_fold[pos] as usize;
                proof {
                    lemma_slot_bound(f as int, bins as int, b as int, k as int);
                    lemma_slot_bound(
                        slot(f as int, bins as int, b as int),
                        classes as int,
                        lab as int,
                        k * bins,
                    );
                    lemma_slot_bound(f as int, classes as int, lab as int, k as int);
                    assert(0 <= f * bins <= slot(f as int, bins as int, b as int));
                    assert(0 <= (f * bins + b) * classes);
                    assert(0 <= f * classes <= slot(f as int, classes as int, lab as int));
                    node.lemma_lengths(f as nat, n);
                    node.lemma_left_bound(f as nat, b as nat, false, n);
                    criterion::lemma_tally_bound(
                        node.left_to(f as nat, b as nat, false, n),
                        lab as nat,
                    );
                    criterion::lemma_tally_bound(node.labels_to(f as nat, n), lab as nat);
                }
                let row: usize = f * bins + b;
                let cell: usize = row * classes + lab;
                let all: usize = f * classes + lab;
                hist.set(cell, hist[cell] + 1);
                tot.set(all, tot[all] + 1);
                ncnt.set(row, ncnt[row] + 1);
                proof {
                    lemma_scattered(
                        node,
                        k as nat,
                        n,
                        f as int,
                        b as int,
                        lab as int,
                        h0,
                        t0,
                        c0,
                        hist@,
                        tot@,
                        ncnt@,
                    );
                }
            }
        }
        proof {
            if !taken {
                lemma_not_scattered(node, k as nat, n, hist@, tot@, ncnt@);
            }
        }
        pos += 1;
    }
}

/// A sample that is not counted leaves the histogram right.
proof fn lemma_not_scattered(
    node: ClassNode,
    k: nat,
    n: nat,
    hist: Seq<u32>,
    tot: Seq<u32>,
    ncnt: Seq<u32>,
)
    requires
        node.tabulated(k, n, hist, tot, ncnt),
        !class_counted(
            node.codes,
            node.labels,
            node.order,
            node.bins,
            node.classes,
            n as int,
        ),
    ensures
        node.tabulated(k, n + 1, hist, tot, ncnt),
{
    assert forall|f: nat| #[trigger] node.labels_to(f, n + 1) == node.labels_to(f, n) by {}
    assert forall|f: nat, b: nat| #[trigger]
        node.left_to(f, b, false, n + 1) == node.left_to(f, b, false, n) by {
        node.lemma_left_step(f, b, false, n);
    }
}

/// Counting a sample in its three cells keeps the histogram right.
proof fn lemma_scattered(
    node: ClassNode,
    k: nat,
    n: nat,
    f0: int,
    b0: int,
    l0: int,
    h0: Seq<u32>,
    t0: Seq<u32>,
    c0: Seq<u32>,
    hist: Seq<u32>,
    tot: Seq<u32>,
    ncnt: Seq<u32>,
)
    requires
        node.bins <= u32::MAX,
        node.tabulated(k, n, h0, t0, c0),
        class_counted(node.codes, node.labels, node.order, node.bins, node.classes, n as int),
        node.val_fold[n as int] == f0,
        node.codes[node.order[n as int] as int] == b0,
        node.labels[node.order[n as int] as int] == l0,
        0 <= f0 < k,
        0 <= b0 < node.bins,
        0 <= l0 < node.classes,
        ({
            let bins = node.bins as int;
            let classes = node.classes as int;
            let row = slot(f0, bins, b0);
            let cell = slot(row, classes, l0);
            let all = slot(f0, classes, l0);
            &&& 0 <= cell < h0.len()
            &&& 0 <= all < t0.len()
            &&& 0 <= row < c0.len()
            &&& h0[cell] < u32::MAX
            &&& t0[all] < u32::MAX
            &&& c0[row] < u32::MAX
            &&& hist == h0.update(cell, (h0[cell] + 1) as u32)
            &&& tot == t0.update(all, (t0[all] + 1) as u32)
            &&& ncnt == c0.update(row, (c0[row] + 1) as u32)
        }),
    ensures
        node.tabulated(k, n + 1, hist, tot, ncnt),
{
    let bins = node.bins as int;
    let classes = node.classes as int;
    let row = slot(f0, bins, b0);
    let cell = slot(row, classes, l0);
    let all = slot(f0, classes, l0);
    assert forall|f: int, b: int, c: int|
        0 <= f < k && 0 <= b < bins && 0 <= c < classes implies #[trigger] hist[slot(
        slot(f, bins, b),
        classes,
        c,
    )] == criterion::tally(node.left_to(f as nat, b as nat, false, n + 1), c as nat) by {
        let r = slot(f, bins, b);
        let at = slot(r, classes, c);
        lemma_slot_bound(f, bins, b, k as int);
        lemma_slot_bound(r, classes, c, k * bins);
        assert(h0[at] == criterion::tally(node.left_to(f as nat, b as nat, false, n), c as nat));
        node.lemma_left_step(f as nat, b as nat, false, n);
        lemma_tally_push(
            node.left_to(f as nat, b as nat, false, n),
            l0 as usize,
            c as nat,
        );
        node.lemma_lengths(f as nat, n + 1);
        if at == cell {
            lemma_slot_injective(r, c, row, l0, classes);
            lemma_slot_injective(f, b, f0, b0, bins);
        } else {
            assert(f != f0 || b != b0 || c != l0);
        }
    }
    assert forall|f: int, c: int| 0 <= f < k && 0 <= c < classes implies #[trigger] tot[slot(
        f,
        classes,
        c,
    )] == criterion::tally(node.labels_to(f as nat, n + 1), c as nat) by {
        let at = slot(f, classes, c);
        lemma_slot_bound(f, classes, c, k as int);
        assert(t0[at] == criterion::tally(node.labels_to(f as nat, n), c as nat));
        lemma_tally_push(node.labels_to(f as nat, n), l0 as usize, c as nat);
        if at == all {
            lemma_slot_injective(f, c, f0, l0, classes);
        }
    }
    assert forall|f: int, b: int| 0 <= f < k && 0 <= b < bins implies #[trigger] ncnt[slot(
        f,
        bins,
        b,
    )] == node.left_to(f as nat, b as nat, false, n + 1).len() by {
        let at = slot(f, bins, b);
        lemma_slot_bound(f, bins, b, k as int);
        assert(c0[at] == node.left_to(f as nat, b as nat, false, n).len());
        node.lemma_left_step(f as nat, b as nat, false, n);
        if at == row {
            lemma_slot_injective(f, b, f0, b0, bins);
        }
    }
}

/// `a - b`, entry by entry.
pub open spec fn minus_counts(a: Seq<u64>, b: Seq<u64>) -> Seq<u64> {
    Seq::new(a.len(), |i: int| (a[i] - b[i]) as u64)
}

/// The impurity decrease of a split with the given class counts on the left and in total.
pub open spec fn count_gain(kind: ClassImpurityKind, left: Seq<u64>, total: Seq<u64>) -> Option<
    Float,
> {
    let n = sum_of_counts(total);
    let nl = sum_of_counts(left);
    let nr = (n - nl) as nat;
    if nl == 0 || nr == 0 {
        None
    } else {
        Some(
            Float::difference_of(
                impurity_of_counts(kind, total, n),
                cross_validation::weighted(
                    nl,
                    impurity_of_counts(kind, left, nl),
                    nr,
                    impurity_of_counts(kind, minus_counts(total, left), nr),
                    n,
                ),
            ),
        )
    }
}

/// Counts that are entry by entry not above others sum to no more.
pub(crate) proof fn lemma_sum_order(a: Seq<u64>, b: Seq<u64>)
    requires
        a.len() == b.len(),
        forall|i: int| 0 <= i < a.len() ==> #[trigger] a[i] <= b[i],
    ensures
        sum_of_counts(a) <= sum_of_counts(b),
        sum_of_counts(minus_counts(b, a)) == sum_of_counts(b) - sum_of_counts(a),
    decreases a.len(),
{
    if a.len() > 0 {
        let c = a.drop_last();
        let d = b.drop_last();
        assert forall|i: int| 0 <= i < c.len() implies #[trigger] c[i] <= d[i] by {
            assert(c[i] == a[i]);
        }
        lemma_sum_order(c, d);
        assert(minus_counts(b, a).drop_last() =~= minus_counts(d, c));
        assert(a.last() <= b.last());
    }
}

/// Raising one count by one raises the sum by one.
pub(crate) proof fn lemma_sum_update(s: Seq<u64>, i: int, x: u64)
    requires
        0 <= i < s.len(),
    ensures
        sum_of_counts(s.update(i, x)) == sum_of_counts(s) - s[i] + x,
    decreases s.len(),
{
    let t = s.update(i, x);
    if i == s.len() - 1 {
        assert(t.drop_last() =~= s.drop_last());
    } else {
        assert(t.drop_last() =~= s.drop_last().update(i, x));
        lemma_sum_update(s.drop_last(), i, x);
    }
}

/// The class counts of labels below `classes` sum to the number of labels.
pub proof fn lemma_tallies_sum(labels: Seq<usize>, classes: nat)
    requires
        labels.len() <= u64::MAX,
        forall|i: int| 0 <= i < labels.len() ==> #[trigger] labels[i] < classes,
    ensures
        sum_of_counts(criterion::tallies(labels, classes)) == labels.len(),
    decreases labels.len(),
{
    let t = criterion::tallies(labels, classes);
    if labels.len() == 0 {
        lemma_sum_zeros(t);
    } else {
        let d = labels.drop_last();
        let x = labels.last() as int;
        assert forall|i: int| 0 <= i < d.len() implies #[trigger] d[i] < classes by {
            assert(d[i] == labels[i]);
        }
        lemma_tallies_sum(d, classes);
        let u = criterion::tallies(d, classes);
        criterion::lemma_tally_bound(d, x as nat);
        assert(labels[labels.len() - 1] < classes);
        assert(t =~= u.update(x, (u[x] + 1) as u64));
        lemma_sum_update(u, x, (u[x] + 1) as u64);
    }
}

/// The class counts of labels sum to no more than the number of labels.
pub proof fn lemma_tallies_sum_bound(labels: Seq<usize>, classes: nat)
    requires
        labels.len() <= u64::MAX,
    ensures
        sum_of_counts(criterion::tallies(labels, classes)) <= labels.len(),
    decreases labels.len(),
{
    let t = criterion::tallies(labels, classes);
    if labels.len() == 0 {
        lemma_sum_zeros(t);
    } else {
        let d = labels.drop_last();
        let x = labels.last() as int;
        lemma_tallies_sum_bound(d, classes);
        let u = criterion::tallies(d, classes);
        if x < classes {
            criterion::lemma_tally_bound(d, x as nat);
            assert(t =~= u.update(x, (u[x] + 1) as u64));
            lemma_sum_update(u, x, (u[x] + 1) as u64);
        } else {
            assert(t =~= u);
        }
    }
}

pub(crate) proof fn lemma_sum_zeros(s: Seq<u64>)
    requires
        forall|i: int| 0 <= i < s.len() ==> #[trigger] s[i] == 0,
    ensures
        sum_of_counts(s) == 0,
    decreases s.len(),
{
    if s.len() > 0 {
        assert forall|i: int| 0 <= i < s.drop_last().len() implies #[trigger] s.drop_last()[i]
            == 0 by {
            assert(s.drop_last()[i] == s[i]);
        }
        lemma_sum_zeros(s.drop_last());
    }
}

/// Each class occurs on the two sides as often as in all.
pub(crate) proof fn lemma_side_tallies(
    labels: Seq<usize>,
    codes: Seq<u32>,
    state: u32,
    prefix: bool,
    c: nat,
)
    requires
        labels.len() == codes.len(),
    ensures
        criterion::tally(cross_validation::side(labels, codes, state, prefix, true), c)
            + criterion::tally(cross_validation::side(labels, codes, state, prefix, false), c)
            == criterion::tally(labels, c),
    decreases codes.len(),
{
    if codes.len() > 0 {
        let d = labels.drop_last();
        let e = codes.drop_last();
        lemma_side_tallies(d, e, state, prefix, c);
        assert(labels =~= d.push(labels.last()));
        assert(codes =~= e.push(codes.last()));
        cross_validation::lemma_side_push(
            d,
            e,
            labels.last(),
            codes.last(),
            state,
            prefix,
            true,
        );
        cross_validation::lemma_side_push(
            d,
            e,
            labels.last(),
            codes.last(),
            state,
            prefix,
            false,
        );
        lemma_tally_push(
            cross_validation::side(d, e, state, prefix, true),
            labels.last(),
            c,
        );
        lemma_tally_push(
            cross_validation::side(d, e, state, prefix, false),
            labels.last(),
            c,
        );
    }
}

/// Taking the left counts from the totals gives the counts of the right side, so scoring from
/// counts is scoring the labels themselves.
pub proof fn law_counts_score_labels(
    kind: ClassImpurityKind,
    labels: Seq<usize>,
    codes: Seq<u32>,
    classes: nat,
    state: u32,
    prefix: bool,
)
    requires
        labels.len() == codes.len(),
        labels.len() <= u64::MAX,
        forall|i: int| 0 <= i < labels.len() ==> #[trigger] labels[i] < classes,
    ensures
        ({
            let left = cross_validation::side(labels, codes, state, prefix, true);
            let right = cross_validation::side(labels, codes, state, prefix, false);
            &&& minus_counts(
                criterion::tallies(labels, classes),
                criterion::tallies(left, classes),
            ) == criterion::tallies(right, classes)
            &&& forall|c: int|
                0 <= c < classes ==> #[trigger] criterion::tallies(left, classes)[c]
                    <= criterion::tallies(labels, classes)[c]
            &&& count_gain(
                kind,
                criterion::tallies(left, classes),
                criterion::tallies(labels, classes),
            ) == cross_validation::fold_gain(
                class_measure(kind, classes),
                labels,
                codes,
                state,
                1,
                prefix,
            )
        }),
{
    let left = cross_validation::side(labels, codes, state, prefix, true);
    let right = cross_validation::side(labels, codes, state, prefix, false);
    let tl = criterion::tallies(left, classes);
    let tr = criterion::tallies(right, classes);
    let tt = criterion::tallies(labels, classes);
    let ok = |x: usize| x < classes;
    cross_validation::lemma_side_len(labels, codes, state, prefix);
    cross_validation::lemma_side_members(labels, codes, state, prefix, true, ok);
    cross_validation::lemma_side_members(labels, codes, state, prefix, false, ok);
    assert forall|c: int| 0 <= c < classes implies #[trigger] tl[c] <= tt[c] && tr[c] == tt[c]
        - tl[c] by {
        lemma_side_tallies(labels, codes, state, prefix, c as nat);
        criterion::lemma_tally_bound(labels, c as nat);
    }
    assert(minus_counts(tt, tl) =~= tr);
    assert forall|i: int| 0 <= i < left.len() implies #[trigger] left[i] < classes by {
        assert(ok(left[i]));
    }
    assert forall|i: int| 0 <= i < right.len() implies #[trigger] right[i] < classes by {
        assert(ok(right[i]));
    }
    lemma_tallies_sum(left, classes);
    lemma_tallies_sum(right, classes);
    lemma_tallies_sum(labels, classes);
}

/// The sum of counts.
pub(crate) fn sum_counts(counts: &[u64]) -> (r: u64)
    requires
        sum_of_counts(counts@) <= u64::MAX,
    ensures
        r == sum_of_counts(counts@),
{
    let mut s: u64 = 0;
    let mut i: usize = 0;
    while i < counts.len()
        invariant
            i <= counts@.len(),
            sum_of_counts(counts@) <= u64::MAX,
            s == sum_of_counts(counts@.take(i as int)),
        decreases counts@.len() - i,
    {
        proof {
            assert(counts@.take(i + 1).drop_last() =~= counts@.take(i as int));
            lemma_sum_take(counts@, i + 1);
        }
        s = s + counts[i];
        i += 1;
    }
    assert(counts@.take(i as int) =~= counts@);
    s
}

pub(crate) proof fn lemma_sum_take(s: Seq<u64>, n: int)
    requires
        0 <= n <= s.len(),
    ensures
        sum_of_counts(s.take(n)) <= sum_of_counts(s),
    decreases s.len(),
{
    if n < s.len() {
        lemma_sum_take(s.drop_last(), n);
        assert(s.drop_last().take(n) =~= s.take(n));
    } else {
        assert(s.take(n) =~= s);
    }
}

/// `a - b`, entry by entry.
pub(crate) fn subtract_counts(a: &[u64], b: &[u64]) -> (r: Vec<u64>)
    requires
        a@.len() == b@.len(),
        forall|i: int| 0 <= i < a@.len() ==> #[trigger] b@[i] <= a@[i],
    ensures
        r@ == minus_counts(a@, b@),
{
    let mut r: Vec<u64> = Vec::new();
    let mut i: usize = 0;
    while i < a.len()
        invariant
            i <= a@.len(),
            a@.len() == b@.len(),
            forall|i: int| 0 <= i < a@.len() ==> #[trigger] b@[i] <= a@[i],
            r@ == minus_counts(a@, b@).take(i as int),
        decreases a@.len() - i,
    {
        assert(b@[i as int] <= a@[i as int]);
        r.push(a[i] - b[i]);
        i += 1;
        assert(r@ =~= minus_counts(a@, b@).take(i as int));
    }
    assert(r@ =~= minus_counts(a@, b@));
    r
}

/// The impurity decrease of a split from its class counts.
fn gain_from_counts(kind: ClassImpurityKind, left: &[u64], total: &[u64]) -> (r: Option<Float>)
    requires
        left@.len() == total@.len(),
        forall|i: int| 0 <= i < left@.len() ==> #[trigger] left@[i] <= total@[i],
        sum_of_counts(total@) <= u64::MAX,
    ensures
        r == count_gain(kind, left@, total@),
{
    proof {
        lemma_sum_order(left@, total@);
    }
    let n: u64 = sum_counts(total);
    let nl: u64 = sum_counts(left);
    let nr: u64 = n - nl;
    if nl == 0 || nr == 0 {
        return None;
    }
    let right = subtract_counts(total, left);
    let ip = imp_counts(kind, total, n);
    let il = imp_counts(kind, left, nl);
    let ir = imp_counts(kind, right.as_slice(), nr);
    Some(ip.minus(cross_validation::weigh(nl, il, nr, ir, n)))
}

/// Row `f` of a table with rows of length `n`.
pub(crate) fn table_row(table: &Vec<u32>, f: usize, n: usize) -> (r: Vec<u64>)
    requires
        (f + 1) * n <= table@.len(),
    ensures
        r@ == Seq::new(n as nat, |c: int| table@[slot(f as int, n as int, c)] as u64),
{
    let mut r: Vec<u64> = Vec::new();
    let ghost goal = Seq::new(n as nat, |c: int| table@[slot(f as int, n as int, c)] as u64);
    proof {
        assert((f + 1) * n == f * n + n) by (nonlinear_arith);
        assert(0 <= f * n) by (nonlinear_arith)
            requires
                f >= 0,
                n >= 0,
        ;
    }
    let size: usize = table.len();
    let base: usize = f * n;
    let mut c: usize = 0;
    while c < n
        invariant
            c <= n,
            base == f * n,
            base + n <= size,
            size == table@.len(),
            goal == Seq::new(n as nat, |c: int| table@[slot(f as int, n as int, c)] as u64),
            r@ == goal.take(c as int),
        decreases n - c,
    {
        r.push(table[base + c] as u64);
        c += 1;
        assert(r@ =~= goal.take(c as int));
    }
    assert(r@ =~= goal);
    r
}

impl ClassNode {
    /// Whether running counts hold the left class counts of a split at bin `b` on each fold.
    pub open spec fn running(self, k: nat, b: nat, prefix: bool, run: Seq<u32>) -> bool {
        &&& run.len() == k * self.classes
        &&& forall|f: int, c: int|
            0 <= f < k && 0 <= c < self.classes ==> #[trigger] run[slot(
                f,
                self.classes as int,
                c,
            )] == criterion::tally(
                self.left_to(f as nat, b as nat, prefix, self.order.len()),
                c as nat,
            )
    }

    /// An ordered cut at bin `b` has on its left what the cut before it has, and bin `b`.
    proof fn lemma_prefix_step(self, f: nat, b: nat, c: nat, n: nat)
        requires
            b < self.bins <= u32::MAX,
        ensures
            criterion::tally(self.left_to(f, b, true, n), c) == criterion::tally(
                self.left_to(f, b, false, n),
                c,
            ) + if b == 0 {
                0
            } else {
                criterion::tally(self.left_to(f, (b - 1) as nat, true, n), c)
            },
        decreases n,
    {
        if n > 0 {
            let m = (n - 1) as nat;
            self.lemma_prefix_step(f, b, c, m);
            self.lemma_left_step(f, b, true, m);
            self.lemma_left_step(f, b, false, m);
            let x = self.labels[self.order[m as int] as int];
            lemma_tally_push(self.left_to(f, b, true, m), x, c);
            lemma_tally_push(self.left_to(f, b, false, m), x, c);
            if b > 0 {
                self.lemma_left_step(f, (b - 1) as nat, true, m);
                lemma_tally_push(self.left_to(f, (b - 1) as nat, true, m), x, c);
            }
        }
    }
}

/// Moves the running left counts on to bin `b`: the cells of the bin are added for an ordered
/// cut, and replace the counts otherwise.
pub(crate) fn advance(
    run: &mut Vec<u32>,
    hist: &Vec<u32>,
    k: usize,
    bins: usize,
    classes: usize,
    b: usize,
    prefix: bool,
    node: Ghost<ClassNode>,
    tot: Ghost<Seq<u32>>,
    ncnt: Ghost<Seq<u32>>,
)
    requires
        b < bins <= u32::MAX,
        classes > 0,
        k * bins * classes <= usize::MAX,
        node@.bins == bins,
        node@.classes == classes,
        node@.order.len() <= u32::MAX,
        node@.tabulated(k as nat, node@.order.len(), hist@, tot@, ncnt@),
        old(run)@.len() == k * classes,
        prefix && b > 0 ==> node@.running(k as nat, (b - 1) as nat, prefix, old(run)@),
        b == 0 ==> forall|i: int| 0 <= i < old(run)@.len() ==> #[trigger] old(run)@[i] == 0,
    ensures
        node@.running(k as nat, b as nat, prefix, final(run)@),
{
    let ghost node = node@;
    let ghost n = node.order.len();
    let ghost before = run@;
    proof {
        assert(0 <= k * classes <= k * bins * classes) by (nonlinear_arith)
            requires
                k >= 0,
                bins > 0,
                classes > 0,
        ;
        assert(0 <= k * bins <= k * bins * classes) by (nonlinear_arith)
            requires
                k >= 0,
                bins > 0,
                classes > 0,
        ;
    }
    let mut f: usize = 0;
    while f < k
        invariant
            f <= k,
            b < bins <= u32::MAX,
            classes > 0,
            k * bins * classes <= usize::MAX,
            k * classes <= usize::MAX,
            k * bins <= usize::MAX,
            node.bins == bins,
            node.classes == classes,
            n == node.order.len(),
            n <= u32::MAX,
            node.tabulated(k as nat, n, hist@, tot@, ncnt@),
            before.len() == k * classes,
            run@.len() == k * classes,
            prefix && b > 0 ==> node.running(k as nat, (b - 1) as nat, prefix, before),
            b == 0 ==> forall|i: int| 0 <= i < before.len() ==> #[trigger] before[i] == 0,
            forall|g: int, c: int|
                0 <= g < f && 0 <= c < classes ==> #[trigger] run@[slot(g, classes as int, c)]
                    == criterion::tally(node.left_to(g as nat, b as nat, prefix, n), c as nat),
            forall|g: int, c: int|
                f <= g < k && 0 <= c < classes ==> #[trigger] run@[slot(g, classes as int, c)]
                    == before[slot(g, classes as int, c)],
        decreases k - f,
    {
        let mut c: usize = 0;
        while c < classes
            invariant
                f < k,
                c <= classes,
                b < bins <= u32::MAX,
                classes > 0,
                k * bins * classes <= usize::MAX,
                k * classes <= usize::MAX,
                k * bins <= usize::MAX,
                node.bins == bins,
                node.classes == classes,
                n == node.order.len(),
                n <= u32::MAX,
                node.tabulated(k as nat, n, hist@, tot@, ncnt@),
                before.len() == k * classes,
                run@.len() == k * classes,
                prefix && b > 0 ==> node.running(k as nat, (b - 1) as nat, prefix, before),
                b == 0 ==> forall|i: int| 0 <= i < before.len() ==> #[trigger] before[i] == 0,
                forall|g: int, d: int|
                    0 <= g < k && 0 <= d < classes && (g < f || (g == f && d < c))
                        ==> #[trigger] run@[slot(g, classes as int, d)] == criterion::tally(
                        node.left_to(g as nat, b as nat, prefix, n),
                        d as nat,
                    ),
                forall|g: int, d: int|
                    0 <= g < k && 0 <= d < classes && (g > f || (g == f && d >= c))
                        ==> #[trigger] run@[slot(g, classes as int, d)] == before[slot(
                        g,
                        classes as int,
                        d,
                    )],
            decreases classes - c,
        {
            proof {
                lemma_slot_bound(f as int, bins as int, b as int, k as int);
                lemma_slot_bound(
                    slot(f as int, bins as int, b as int),
                    classes as int,
                    c as int,
                    k * bins,
                );
                lemma_slot_bound(f as int, classes as int, c as int, k as int);
                assert(0 <= f * bins <= slot(f as int, bins as int, b as int));
                assert(0 <= (f * bins + b) * classes);
                assert(0 <= f * classes <= slot(f as int, classes as int, c as int));
                node.lemma_prefix_step(f as nat, b as nat, c as nat, n);
                node.lemma_left_bound(f as nat, b as nat, prefix, n);
                criterion::lemma_tally_bound(
                    node.left_to(f as nat, b as nat, prefix, n),
                    c as nat,
                );
                assert(run@[slot(f as int, classes as int, c as int)] == before[slot(
                    f as int,
                    classes as int,
                    c as int,
                )]);
                assert(hist@[slot(
                    slot(f as int, bins as int, b as int),
                    classes as int,
                    c as int,
                )] == criterion::tally(node.left_to(f as nat, b as nat, false, n), c as nat));
            }
            let cell: u32 = hist[(f * bins + b) * classes + c];
            let at: usize = f * classes + c;
            let ghost held = run@;
            if prefix {
                let old_count: u32 = run[at];
                run.set(at, old_count + cell);
            } else {
                run.set(at, cell);
            }
            proof {
                assert forall|g: int, d: int|
                    0 <= g < k && 0 <= d < classes && (g != f || d != c) implies #[trigger] run@[slot(
                    g,
                    classes as int,
                    d,
                )] == held[slot(g, classes as int, d)] by {
                    lemma_slot_bound(g, classes as int, d, k as int);
                    if slot(g, classes as int, d) == at {
                        lemma_slot_injective(g, d, f as int, c as int, classes as int);
                    }
                }
            }
            c += 1;
        }
        f += 1;
    }
}

/// Whether bin `b` holds a sample of any fold.
pub(crate) fn bin_occupied(ncnt: &Vec<u32>, k: usize, bins: usize, b: usize) -> (r: bool)
    requires
        b < bins,
        k * bins <= ncnt@.len(),
    ensures
        r == exists|f: int| 0 <= f < k && #[trigger] ncnt@[slot(f, bins as int, b as int)] > 0,
{
    let size: usize = ncnt.len();
    let mut f: usize = 0;
    while f < k
        invariant
            f <= k,
            b < bins,
            size == ncnt@.len(),
            k * bins <= size,
            forall|g: int| 0 <= g < f ==> #[trigger] ncnt@[slot(g, bins as int, b as int)] == 0,
        decreases k - f,
    {
        proof {
            lemma_slot_bound(f as int, bins as int, b as int, k as int);
            assert(0 <= f * bins <= slot(f as int, bins as int, b as int));
        }
        if ncnt[f * bins + b] > 0 {
            assert(ncnt@[slot(f as int, bins as int, b as int)] > 0);
            return true;
        }
        f += 1;
    }
    false
}

pub(crate) proof fn lemma_occupied(node: ClassNode, k: nat, b: nat, ncnt: Seq<u32>, hist: Seq<u32>, tot: Seq<u32>)
    requires
        b < node.bins <= u32::MAX,
        node.tabulated(k, node.order.len(), hist, tot, ncnt),
    ensures
        node.occupied(b, k) == exists|f: int|
            0 <= f < k && #[trigger] ncnt[slot(f, node.bins as int, b as int)] > 0,
{
    let bins = node.bins as int;
    assert forall|f: int| 0 <= f < k implies (node.bins_in(f as nat).contains(b as u32)
        <==> #[trigger] ncnt[slot(f, bins, b as int)] > 0) by {
        cross_validation::lemma_side_occurs(
            node.labels_in(f as nat),
            node.bins_in(f as nat),
            b as u32,
        );
        assert(ncnt[slot(f, bins, b as int)] == node.left_to(
            f as nat,
            b as nat,
            false,
            node.order.len(),
        ).len());
    }
    if node.occupied(b, k) {
        let f = choose|f: nat| f < k && (#[trigger] node.bins_in(f)).contains(b as u32);
        assert(ncnt[slot(f as int, bins, b as int)] > 0);
    }
    if exists|f: int| 0 <= f < k && #[trigger] ncnt[slot(f, bins, b as int)] > 0 {
        let f = choose|f: int| 0 <= f < k && #[trigger] ncnt[slot(f, bins, b as int)] > 0;
        assert(node.bins_in(f as nat).contains(b as u32));
    }
}

/// Scores every candidate split of one feature at a **classification** node.
///
/// `codes` are the bin codes of the feature and `labels` the class ids of all samples; `order` and
/// `val_fold` are the samples of the node and the fold in which each validates, of `k` folds. With
/// `prefix` a bin stands for the ordered cut above it, otherwise for itself against the rest.
pub fn score_classif<A: Aggregator + ?Sized>(
    codes: &[Bin],
    labels: &[usize],
    order: &[SampleId],
    val_fold: &[u8],
    k: usize,
    max_bin: usize,
    n_classes: usize,
    kind: ClassImpurityKind,
    aggregator: &A,
    feature: usize,
    scratch: &mut FastScratch,
    prefix: bool,
) -> (r: Vec<ScoredCandidate>)
    requires
        aggregator.applicable(),
        max_bin <= u32::MAX,
        k * max_bin * n_classes <= usize::MAX,
        order@.len() <= u32::MAX,
        class_node(
            codes@,
            labels@,
            order@,
            val_fold@,
            max_bin as nat,
            n_classes as nat,
        ).readable(k as nat),
    ensures
        selector::scored_views(r@) == class_scores(
            class_node(
                codes@,
                labels@,
                order@,
                val_fold@,
                max_bin as nat,
                n_classes as nat,
            ),
            kind,
            aggregation::ranking(aggregator),
            feature,
            prefix,
            k as nat,
        ),
        max_bin > 0 && n_classes > 0 && k > 0 ==> final(scratch).sizes() == (ScratchSizes {
            hist: grown(old(scratch).sizes().hist, (k * max_bin * n_classes) as nat),
            tot: grown(old(scratch).sizes().tot, (k * n_classes) as nat),
            ncnt: grown(old(scratch).sizes().ncnt, (k * max_bin) as nat),
            ..old(scratch).sizes()
        }),
        max_bin == 0 || n_classes == 0 || k == 0 ==> *final(scratch) == *old(scratch),
{
    let bins: usize = max_bin;
    let ghost node = class_node(
        codes@,
        labels@,
        order@,
        val_fold@,
        max_bin as nat,
        n_classes as nat,
    );
    let ghost rank = aggregation::ranking(aggregator);
    let mut out: Vec<ScoredCandidate> = Vec::new();
    if bins == 0 || n_classes == 0 || k == 0 {
        proof {
            lemma_no_folds(node, kind, rank, feature, prefix, node.bins);
            assert(selector::scored_views(out@) =~= Seq::empty());
        }
        return out;
    }
    scatter_classes(
        codes,
        labels,
        order,
        val_fold,
        k,
        bins,
        n_classes,
        &mut scratch.hist,
        &mut scratch.tot,
        &mut scratch.ncnt,
    );
    let ghost hist = scratch.hist@;
    let ghost tot = scratch.tot@;
    let ghost ncnt = scratch.ncnt@;
    proof {
        assert(0 <= k * n_classes <= k * bins * n_classes) by (nonlinear_arith)
            requires
                k >= 0,
                bins > 0,
                n_classes > 0,
        ;
        assert(0 <= k * bins <= k * bins * n_classes) by (nonlinear_arith)
            requires
                k >= 0,
                bins > 0,
                n_classes > 0,
        ;
    }
    let mut run: Vec<u32> = vec![0u32; k * n_classes];
    let mut b: usize = 0;
    while b < bins
        invariant
            b <= bins,
            0 < bins <= u32::MAX,
            n_classes > 0,
            k > 0,
            k * bins * n_classes <= usize::MAX,
            k * bins <= usize::MAX,
            k * n_classes <= usize::MAX,
            aggregator.applicable(),
            rank == aggregation::ranking(aggregator),
            node.bins == bins,
            node.classes == n_classes,
            node.order.len() <= u32::MAX,
            scratch.hist@ == hist,
            scratch.tot@ == tot,
            scratch.ncnt@ == ncnt,
            node.tabulated(k as nat, node.order.len(), hist, tot, ncnt),
            run@.len() == k * n_classes,
            prefix && b > 0 ==> node.running(k as nat, (b - 1) as nat, prefix, run@),
            b == 0 ==> forall|i: int| 0 <= i < run@.len() ==> #[trigger] run@[i] == 0,
            selector::scored_views(out@) == class_candidates(
                node,
                kind,
                rank,
                feature,
                prefix,
                k as nat,
                b as nat,
            ),
        decreases bins - b,
    {
        advance(
            &mut run,
            &scratch.hist,
            k,
            bins,
            n_classes,
            b,
            prefix,
            Ghost(node),
            Ghost(tot),
            Ghost(ncnt),
        );
        proof {
            lemma_occupied(node, k as nat, b as nat, ncnt, hist, tot);
        }
        let occupied: bool = bin_occupied(&scratch.ncnt, k, bins, b);
        if occupied && (!prefix || b + 1 < bins) {
            let mut scores: Vec<Float> = Vec::new();
            let mut f: usize = 0;
            while f < k
                invariant
                    f <= k,
                    b < bins <= u32::MAX,
                    n_classes > 0,
                    k * n_classes <= usize::MAX,
                    node.bins == bins,
                    node.classes == n_classes,
                    node.order.len() <= u32::MAX,
                    scratch.tot@ == tot,
                    node.tabulated(k as nat, node.order.len(), hist, tot, ncnt),
                    node.running(k as nat, b as nat, prefix, run@),
                    scores@ == class_gains(node, kind, b as nat, prefix, f as nat),
                decreases k - f,
            {
                proof {
                    assert((f + 1) * n_classes <= k * n_classes) by (nonlinear_arith)
                        requires
                            f < k,
                            n_classes > 0,
                    ;
                    lemma_fold_counts(
                        node,
                        kind,
                        k as nat,
                        f as nat,
                        b as nat,
                        prefix,
                        hist,
                        tot,
                        ncnt,
                        run@,
                    );
                }
                let left = table_row(&run, f, n_classes);
                let total = table_row(&scratch.tot, f, n_classes);
                match gain_from_counts(kind, left.as_slice(), total.as_slice()) {
                    Some(gain) => {
                        scores.push(gain);
                    },
                    None => {},
                }
                f += 1;
            }
            let stats = FoldStats::from_scores(scores, k);
            let score = aggregator.aggregate(&stats);
            let ghost before = out@;
            out.push(
                ScoredCandidate {
                    candidate: Candidate { feature, state: b as u32 },
                    score,
                    stats,
                },
            );
            assert(selector::scored_views(out@) =~= selector::scored_views(before).push(
                out@[before.len() as int]@,
            ));
        }
        b += 1;
    }
    out
}

/// Without folds there is nothing to score.
proof fn lemma_no_folds(
    node: ClassNode,
    kind: ClassImpurityKind,
    rank: spec_fn(cross_validation::StatsView) -> Float,
    feature: usize,
    prefix: bool,
    b: nat,
)
    ensures
        class_candidates(node, kind, rank, feature, prefix, 0, b) == Seq::<ScoredView>::empty(),
    decreases b,
{
    if b > 0 {
        lemma_no_folds(node, kind, rank, feature, prefix, (b - 1) as nat);
    }
}

/// The rows of the tables are the class counts of a fold.
proof fn lemma_fold_counts(
    node: ClassNode,
    kind: ClassImpurityKind,
    k: nat,
    f: nat,
    b: nat,
    prefix: bool,
    hist: Seq<u32>,
    tot: Seq<u32>,
    ncnt: Seq<u32>,
    run: Seq<u32>,
)
    requires
        f < k,
        b < node.bins <= u32::MAX,
        node.order.len() <= u32::MAX,
        node.tabulated(k, node.order.len(), hist, tot, ncnt),
        node.running(k, b, prefix, run),
    ensures
        ({
            let n = node.classes as int;
            let left = Seq::new(node.classes, |c: int| run[slot(f as int, n, c)] as u64);
            let total = Seq::new(node.classes, |c: int| tot[slot(f as int, n, c)] as u64);
            &&& forall|c: int| 0 <= c < node.classes ==> #[trigger] left[c] <= total[c]
            &&& sum_of_counts(total) <= u64::MAX
            &&& count_gain(kind, left, total) == cross_validation::fold_gain(
                class_measure(kind, node.classes),
                node.labels_in(f),
                node.bins_in(f),
                b as u32,
                1,
                prefix,
            )
        }),
{
    let n = node.classes as int;
    let left = Seq::new(node.classes, |c: int| run[slot(f as int, n, c)] as u64);
    let total = Seq::new(node.classes, |c: int| tot[slot(f as int, n, c)] as u64);
    let labels = node.labels_in(f);
    let codes = node.bins_in(f);
    node.lemma_lengths(f, node.order.len());
    assert forall|i: int| 0 <= i < labels.len() implies #[trigger] labels[i] < node.classes by {
        assert(node.labels_to(f, node.order.len())[i] < node.classes);
    }
    law_counts_score_labels(kind, labels, codes, node.classes, b as u32, prefix);
    assert(left =~= criterion::tallies(
        cross_validation::side(labels, codes, b as u32, prefix, true),
        node.classes,
    ));
    assert(total =~= criterion::tallies(labels, node.classes));
    lemma_tallies_sum(labels, node.classes);
}

/// A node of samples with numeric targets, as the histogram scorer sees it.
pub struct RegrNode {
    pub codes: Seq<Bin>,
    pub targets: Seq<Float>,
    pub order: Seq<SampleId>,
    pub val_fold: Seq<u8>,
    pub bins: nat,
}

impl RegrNode {
    /// Whether the sample at position `p` of the node is counted: its bin is known.
    pub open spec fn counted(self, p: int) -> bool {
        let s = self.order[p] as int;
        self.codes[s] != MISSING_BIN_CODE && self.codes[s] < self.bins
    }

    /// The targets of the counted samples that validate in fold `f`, among the first `n`.
    pub open spec fn values_to(self, f: nat, n: nat) -> Seq<Float>
        decreases n,
    {
        if n == 0 {
            Seq::empty()
        } else {
            let before = self.values_to(f, (n - 1) as nat);
            if self.counted(n - 1) && self.val_fold[n - 1] == f {
                before.push(self.targets[self.order[n - 1] as int])
            } else {
                before
            }
        }
    }

    /// The bins of the counted samples that validate in fold `f`, among the first `n`.
    pub open spec fn bins_to(self, f: nat, n: nat) -> Seq<u32>
        decreases n,
    {
        if n == 0 {
            Seq::empty()
        } else {
            let before = self.bins_to(f, (n - 1) as nat);
            if self.counted(n - 1) && self.val_fold[n - 1] == f {
                before.push(self.codes[self.order[n - 1] as int] as u32)
            } else {
                before
            }
        }
    }

    /// The targets of bin `b` in fold `f`, among the first `n` samples.
    pub open spec fn cell_to(self, f: nat, b: nat, n: nat) -> Seq<Float> {
        cross_validation::side(self.values_to(f, n), self.bins_to(f, n), b as u32, false, true)
    }

    /// The targets of fold `f`.
    pub open spec fn values_in(self, f: nat) -> Seq<Float> {
        self.values_to(f, self.order.len())
    }

    /// The targets of bin `b` in fold `f`.
    pub open spec fn cell_in(self, f: nat, b: nat) -> Seq<Float> {
        self.cell_to(f, b, self.order.len())
    }

    /// Number, sum and sum of squares of the targets of fold `f` in bins below `b`: the moments of
    /// the bins, added up bin by bin.
    pub open spec fn moments_below(self, f: nat, b: nat) -> (nat, Float, Float)
        decreases b,
    {
        if b == 0 {
            (0, Float::zero(), Float::zero())
        } else {
            let (n, s, q) = self.moments_below(f, (b - 1) as nat);
            let cell = self.cell_in(f, (b - 1) as nat);
            (
                n + cell.len(),
                Float::sum_of(s, statistics::total(cell)),
                Float::sum_of(q, statistics::total(statistics::squares(cell))),
            )
        }
    }

    /// Number, sum and sum of squares of the targets of fold `f` on the left of a split at bin `b`.
    pub open spec fn left_moments(self, f: nat, b: nat, prefix: bool) -> (nat, Float, Float) {
        if prefix {
            self.moments_below(f, b + 1)
        } else {
            let cell = self.cell_in(f, b);
            (
                cell.len(),
                statistics::total(cell),
                statistics::total(statistics::squares(cell)),
            )
        }
    }

    /// Whether every entry that scoring reads exists, with fold ids below `k`.
    pub open spec fn readable(self, k: nat) -> bool {
        forall|p: int|
            0 <= p < self.order.len() ==> {
                let s = (#[trigger] self.order[p]) as int;
                &&& s < self.codes.len()
                &&& self.counted(p) ==> s < self.targets.len() && p < self.val_fold.len()
                    && self.val_fold[p] < k
            }
    }

    /// Whether some counted sample of the first `k` folds lies in bin `b`.
    pub open spec fn occupied(self, b: nat, k: nat) -> bool {
        exists|f: nat| f < k && (#[trigger] self.bins_to(f, self.order.len())).contains(b as u32)
    }
}

/// The decrease in variance of a split, from the moments of all and of the left side; the moments
/// of the right side are the differences.
pub open spec fn moment_gain(
    all: (nat, Float, Float),
    left: (nat, Float, Float),
) -> Option<Float> {
    let (n, s, q) = all;
    let (nl, sl, ql) = left;
    let nr = (n - nl) as nat;
    if nl == 0 || nr == 0 {
        None
    } else {
        Some(
            Float::difference_of(
                criterion::variance_of(Float::of_nat(n), s, q),
                cross_validation::weighted(
                    nl,
                    criterion::variance_of(Float::of_nat(nl), sl, ql),
                    nr,
                    criterion::variance_of(
                        Float::of_nat(nr),
                        Float::difference_of(s, sl),
                        Float::difference_of(q, ql),
                    ),
                    n,
                ),
            ),
        )
    }
}

/// The variance decreases of a split at bin `b` on the first `k` folds, where it is valid.
pub open spec fn regr_gains(node: RegrNode, b: nat, prefix: bool, k: nat) -> Seq<Float>
    decreases k,
{
    if k == 0 {
        Seq::empty()
    } else {
        let f = (k - 1) as nat;
        let before = regr_gains(node, b, prefix, f);
        let values = node.values_in(f);
        match moment_gain(
            (
                values.len(),
                statistics::total(values),
                statistics::total(statistics::squares(values)),
            ),
            node.left_moments(f, b, prefix),
        ) {
            Some(gain) => before.push(gain),
            None => before,
        }
    }
}

/// The scored candidates among the first `b` bins.
pub open spec fn regr_candidates(
    node: RegrNode,
    rank: spec_fn(cross_validation::StatsView) -> Float,
    feature: usize,
    prefix: bool,
    k: nat,
    b: nat,
) -> Seq<ScoredView>
    decreases b,
{
    if b == 0 {
        Seq::empty()
    } else {
        let at = (b - 1) as nat;
        let before = regr_candidates(node, rank, feature, prefix, k, at);
        if cuttable(node.occupied(at, k), at, node.bins, prefix) {
            before.push(
                scored_as(feature, at as u32, regr_gains(node, at, prefix, k), k, rank),
            )
        } else {
            before
        }
    }
}

/// All scored candidates of one feature at a regression node.
pub open spec fn regr_scores(
    node: RegrNode,
    rank: spec_fn(cross_validation::StatsView) -> Float,
    feature: usize,
    prefix: bool,
    k: nat,
) -> Seq<ScoredView> {
    regr_candidates(node, rank, feature, prefix, k, node.bins)
}

/// The node that the arguments of the scorer describe.
pub open spec fn regr_node(
    codes: Seq<Bin>,
    targets: Seq<Float>,
    order: Seq<SampleId>,
    val_fold: Seq<u8>,
    bins: nat,
) -> RegrNode {
    RegrNode { codes, targets, order, val_fold, bins }
}

impl RegrNode {
    /// Whether the tables of the first `n` samples hold their moments.
    spec fn tabulated(
        self,
        k: nat,
        n: nat,
        ncnt: Seq<u32>,
        rsum: Seq<Float>,
        rsq: Seq<Float>,
    ) -> bool {
        &&& ncnt.len() >= k * self.bins
        &&& rsum.len() >= k * self.bins
        &&& rsq.len() >= k * self.bins
        &&& forall|f: int, b: int|
            #![trigger ncnt[slot(f, self.bins as int, b)]]
            #![trigger rsum[slot(f, self.bins as int, b)]]
            #![trigger rsq[slot(f, self.bins as int, b)]]
            0 <= f < k && 0 <= b < self.bins ==> {
                let at = slot(f, self.bins as int, b);
                let cell = self.cell_to(f as nat, b as nat, n);
                &&& ncnt[at] == cell.len()
                &&& rsum[at] == statistics::total(cell)
                &&& rsq[at] == statistics::total(statistics::squares(cell))
            }
    }

    /// Whether the per-fold totals of the first `n` samples are right.
    spec fn totalled(
        self,
        k: nat,
        n: nat,
        fold_n: Seq<u64>,
        tot_sum: Seq<Float>,
        tot_sq: Seq<Float>,
    ) -> bool {
        &&& fold_n.len() == k
        &&& tot_sum.len() >= k
        &&& tot_sq.len() >= k
        &&& forall|f: int|
            #![trigger fold_n[f]]
            #![trigger tot_sum[f]]
            #![trigger tot_sq[f]]
            0 <= f < k ==> {
                let values = self.values_to(f as nat, n);
                &&& fold_n[f] == values.len()
                &&& tot_sum[f] == statistics::total(values)
                &&& tot_sq[f] == statistics::total(statistics::squares(values))
            }
    }

    proof fn lemma_lengths(self, f: nat, n: nat)
        ensures
            self.values_to(f, n).len() == self.bins_to(f, n).len(),
            self.values_to(f, n).len() <= n,
        decreases n,
    {
        if n > 0 {
            self.lemma_lengths(f, (n - 1) as nat);
        }
    }

    proof fn lemma_cell_bound(self, f: nat, b: nat, n: nat)
        ensures
            self.cell_to(f, b, n).len() <= self.values_to(f, n).len(),
            self.values_to(f, n).len() <= n,
    {
        self.lemma_lengths(f, n);
        cross_validation::lemma_side_len(
            self.values_to(f, n),
            self.bins_to(f, n),
            b as u32,
            false,
        );
    }

    proof fn lemma_cell_step(self, f: nat, b: nat, n: nat)
        requires
            b < self.bins <= u32::MAX,
        ensures
            self.cell_to(f, b, n + 1) == {
                let before = self.cell_to(f, b, n);
                if self.counted(n as int) && self.val_fold[n as int] == f
                    && self.codes[self.order[n as int] as int] == b {
                    before.push(self.targets[self.order[n as int] as int])
                } else {
                    before
                }
            },
    {
        self.lemma_lengths(f, n);
        let s = self.order[n as int] as int;
        cross_validation::lemma_side_push(
            self.values_to(f, n),
            self.bins_to(f, n),
            self.targets[s],
            self.codes[s] as u32,
            b as u32,
            false,
            true,
        );
    }

    /// The bins below `b` hold no more samples than the fold.
    proof fn lemma_below_bound(self, f: nat, b: nat, n: nat)
        requires
            b <= self.bins <= u32::MAX,
        ensures
            self.count_below(f, b, n) <= self.values_to(f, n).len(),
        decreases n,
    {
        if n == 0 {
            self.lemma_count_below_zero(f, b);
        } else {
            self.lemma_below_bound(f, b, (n - 1) as nat);
            self.lemma_count_below_step(f, b, (n - 1) as nat);
        }
    }

    spec fn count_below(self, f: nat, b: nat, n: nat) -> nat
        decreases b,
    {
        if b == 0 {
            0
        } else {
            self.count_below(f, (b - 1) as nat, n) + self.cell_to(f, (b - 1) as nat, n).len()
        }
    }

    proof fn lemma_count_below_zero(self, f: nat, b: nat)
        ensures
            self.count_below(f, b, 0) == 0,
        decreases b,
    {
        if b > 0 {
            self.lemma_count_below_zero(f, (b - 1) as nat);
        }
    }

    proof fn lemma_count_below_step(self, f: nat, b: nat, n: nat)
        requires
            b <= self.bins <= u32::MAX,
        ensures
            self.count_below(f, b, n + 1) <= self.count_below(f, b, n) + if self.counted(n as int)
                && self.val_fold[n as int] == f && self.codes[self.order[n as int] as int] < b {
                1nat
            } else {
                0
            },
        decreases b,
    {
        if b > 0 {
            self.lemma_count_below_step(f, (b - 1) as nat, n);
            self.lemma_cell_step(f, (b - 1) as nat, n);
        }
    }

    proof fn lemma_moments_count(self, f: nat, b: nat)
        ensures
            self.moments_below(f, b).0 == self.count_below(f, b, self.order.len()),
        decreases b,
    {
        if b > 0 {
            self.lemma_moments_count(f, (b - 1) as nat);
        }
    }
}

/// Counting a sample keeps the tables and totals right.
proof fn lemma_moment_scattered(
    node: RegrNode,
    k: nat,
    n: nat,
    f0: int,
    b0: int,
    y: Float,
    n0: Seq<u32>,
    s0: Seq<Float>,
    q0: Seq<Float>,
    ncnt: Seq<u32>,
    rsum: Seq<Float>,
    rsq: Seq<Float>,
)
    requires
        node.bins <= u32::MAX,
        node.tabulated(k, n, n0, s0, q0),
        node.counted(n as int),
        node.val_fold[n as int] == f0,
        node.codes[node.order[n as int] as int] == b0,
        node.targets[node.order[n as int] as int] == y,
        0 <= f0 < k,
        0 <= b0 < node.bins,
        ({
            let row = slot(f0, node.bins as int, b0);
            &&& 0 <= row < n0.len()
            &&& row < s0.len()
            &&& row < q0.len()
            &&& n0[row] < u32::MAX
            &&& ncnt == n0.update(row, (n0[row] + 1) as u32)
            &&& rsum == s0.update(row, Float::sum_of(s0[row], y))
            &&& rsq == q0.update(row, Float::sum_of(q0[row], Float::product_of(y, y)))
        }),
    ensures
        node.tabulated(k, n + 1, ncnt, rsum, rsq),
{
    let bins = node.bins as int;
    let row = slot(f0, bins, b0);
    assert forall|f: int, b: int|
        #![trigger ncnt[slot(f, node.bins as int, b)]]
        #![trigger rsum[slot(f, node.bins as int, b)]]
        #![trigger rsq[slot(f, node.bins as int, b)]]
        0 <= f < k && 0 <= b < node.bins implies {
        let at = slot(f, node.bins as int, b);
        let cell = node.cell_to(f as nat, b as nat, n + 1);
        &&& ncnt[at] == cell.len()
        &&& rsum[at] == statistics::total(cell)
        &&& rsq[at] == statistics::total(statistics::squares(cell))
    } by {
        let at = slot(f, bins, b);
        lemma_slot_bound(f, bins, b, k as int);
        assert(n0[at] == node.cell_to(f as nat, b as nat, n).len());
        node.lemma_cell_step(f as nat, b as nat, n);
        statistics::lemma_total_push(node.cell_to(f as nat, b as nat, n), y);
        if at == row {
            lemma_slot_injective(f, b, f0, b0, bins);
        }
    }
}

/// A sample that is not counted leaves the tables right.
proof fn lemma_moment_not_scattered(
    node: RegrNode,
    k: nat,
    n: nat,
    ncnt: Seq<u32>,
    rsum: Seq<Float>,
    rsq: Seq<Float>,
)
    requires
        node.bins <= u32::MAX,
        node.tabulated(k, n, ncnt, rsum, rsq),
        !node.counted(n as int),
    ensures
        node.tabulated(k, n + 1, ncnt, rsum, rsq),
{
    assert forall|f: nat, b: nat| b < node.bins implies #[trigger] node.cell_to(f, b, n + 1)
        == node.cell_to(f, b, n) by {
        node.lemma_cell_step(f, b, n);
    }
}

proof fn lemma_regr_occupied(
    node: RegrNode,
    k: nat,
    b: nat,
    ncnt: Seq<u32>,
    rsum: Seq<Float>,
    rsq: Seq<Float>,
)
    requires
        b < node.bins <= u32::MAX,
        node.tabulated(k, node.order.len(), ncnt, rsum, rsq),
    ensures
        node.occupied(b, k) == exists|f: int|
            0 <= f < k && #[trigger] ncnt[slot(f, node.bins as int, b as int)] > 0,
{
    let bins = node.bins as int;
    let n = node.order.len();
    assert forall|f: int| 0 <= f < k implies (node.bins_to(f as nat, n).contains(b as u32)
        <==> #[trigger] ncnt[slot(f, bins, b as int)] > 0) by {
        cross_validation::lemma_side_occurs(
            node.values_to(f as nat, n),
            node.bins_to(f as nat, n),
            b as u32,
        );
        assert(ncnt[slot(f, bins, b as int)] == node.cell_to(f as nat, b as nat, n).len());
    }
    if node.occupied(b, k) {
        let f = choose|f: nat| f < k && (#[trigger] node.bins_to(f, n)).contains(b as u32);
        assert(ncnt[slot(f as int, bins, b as int)] > 0);
    }
    if exists|f: int| 0 <= f < k && #[trigger] ncnt[slot(f, bins, b as int)] > 0 {
        let f = choose|f: int| 0 <= f < k && #[trigger] ncnt[slot(f, bins, b as int)] > 0;
        assert(node.bins_to(f as nat, n).contains(b as u32));
    }
}

proof fn lemma_regr_no_folds(
    node: RegrNode,
    rank: spec_fn(cross_validation::StatsView) -> Float,
    feature: usize,
    prefix: bool,
    b: nat,
)
    ensures
        regr_candidates(node, rank, feature, prefix, 0, b) == Seq::<ScoredView>::empty(),
    decreases b,
{
    if b > 0 {
        lemma_regr_no_folds(node, rank, feature, prefix, (b - 1) as nat);
    }
}

/// The decrease in variance of a split from moments.
fn gain_from_moments(n: u64, s: Float, q: Float, nl: u64, sl: Float, ql: Float) -> (r: Option<
    Float,
>)
    requires
        nl <= n,
    ensures
        r == moment_gain((n as nat, s, q), (nl as nat, sl, ql)),
{
    let nr: u64 = n - nl;
    if nl == 0 || nr == 0 {
        return None;
    }
    let ip = variance_from_moments(Float::from_u64(n), s, q);
    let il = variance_from_moments(Float::from_u64(nl), sl, ql);
    let ir = variance_from_moments(Float::from_u64(nr), s.minus(sl), q.minus(ql));
    Some(ip.minus(cross_validation::weigh(nl, il, nr, ir, n)))
}

/// Scores every candidate split of one feature at a **regression** node by decrease in variance,
/// from the moments of each fold and bin.
pub fn score_regr<A: Aggregator + ?Sized>(
    codes: &[Bin],
    targets: &[Float],
    order: &[SampleId],
    val_fold: &[u8],
    k: usize,
    max_bin: usize,
    aggregator: &A,
    feature: usize,
    scratch: &mut FastScratch,
    prefix: bool,
) -> (r: Vec<ScoredCandidate>)
    requires
        aggregator.applicable(),
        max_bin <= u32::MAX,
        k * max_bin <= usize::MAX,
        order@.len() <= u32::MAX,
        regr_node(codes@, targets@, order@, val_fold@, max_bin as nat).readable(k as nat),
    ensures
        selector::scored_views(r@) == regr_scores(
            regr_node(codes@, targets@, order@, val_fold@, max_bin as nat),
            aggregation::ranking(aggregator),
            feature,
            prefix,
            k as nat,
        ),
        max_bin > 0 && k > 0 ==> final(scratch).sizes() == (ScratchSizes {
            ncnt: grown(old(scratch).sizes().ncnt, (k * max_bin) as nat),
            rsum: grown(old(scratch).sizes().rsum, (k * max_bin) as nat),
            rsq: grown(old(scratch).sizes().rsq, (k * max_bin) as nat),
            rtot_sum: grown(old(scratch).sizes().rtot_sum, k as nat),
            rtot_sq: grown(old(scratch).sizes().rtot_sq, k as nat),
            ..old(scratch).sizes()
        }),
        max_bin == 0 || k == 0 ==> *final(scratch) == *old(scratch),
{
    let bins: usize = max_bin;
    let ghost node = regr_node(codes@, targets@, order@, val_fold@, max_bin as nat);
    let ghost rank = aggregation::ranking(aggregator);
    let mut out: Vec<ScoredCandidate> = Vec::new();
    if bins == 0 || k == 0 {
        proof {
            lemma_regr_no_folds(node, rank, feature, prefix, node.bins);
            assert(selector::scored_views(out@) =~= Seq::empty());
        }
        return out;
    }
    reset_u32(&mut scratch.ncnt, k * bins);
    reset_floats(&mut scratch.rsum, k * bins);
    reset_floats(&mut scratch.rsq, k * bins);
    reset_floats(&mut scratch.rtot_sum, k);
    reset_floats(&mut scratch.rtot_sq, k);
    let mut fold_n: Vec<u64> = vec![0u64; k];
    let ghost sizes = scratch.sizes();
    proof {
        assert forall|f: int, b: int|
            #![trigger scratch.ncnt@[slot(f, node.bins as int, b)]]
            #![trigger scratch.rsum@[slot(f, node.bins as int, b)]]
            #![trigger scratch.rsq@[slot(f, node.bins as int, b)]]
            0 <= f < k && 0 <= b < node.bins implies {
            let at = slot(f, node.bins as int, b);
            let cell = node.cell_to(f as nat, b as nat, 0);
            &&& scratch.ncnt@[at] == cell.len()
            &&& scratch.rsum@[at] == statistics::total(cell)
            &&& scratch.rsq@[at] == statistics::total(statistics::squares(cell))
        } by {
            lemma_slot_bound(f, bins as int, b, k as int);
        }
    }
    let mut pos: usize = 0;
    while pos < order.len()
        invariant
            pos <= order@.len(),
            order@.len() <= u32::MAX,
            0 < bins <= u32::MAX,
            k * bins <= usize::MAX,
            node == regr_node(codes@, targets@, order@, val_fold@, bins as nat),
            node.readable(k as nat),
            scratch.sizes() == sizes,
            node.tabulated(k as nat, pos as nat, scratch.ncnt@, scratch.rsum@, scratch.rsq@),
            node.totalled(
                k as nat,
                pos as nat,
                fold_n@,
                scratch.rtot_sum@,
                scratch.rtot_sq@,
            ),
        decreases order@.len() - pos,
    {
        let ghost n = pos as nat;
        assert(node.order[pos as int] == order@[pos as int]);
        let s: usize = order[pos] as usize;
        let code: Bin = codes[s];
        if code != MISSING_BIN_CODE && (code as usize) < bins {
            assert(node.counted(pos as int));
            let b: usize = code as usize;
            let y = targets[s];
            let f: usize = val_fold[pos] as usize;
            proof {
                lemma_slot_bound(f as int, bins as int, b as int, k as int);
                assert(0 <= f * bins <= slot(f as int, bins as int, b as int));
                node.lemma_cell_bound(f as nat, b as nat, n);
                assert(scratch.ncnt@[slot(f as int, bins as int, b as int)] <= n);
                assert(fold_n@[f as int] <= n);
            }
            let row: usize = f * bins + b;
            let yy = y.times(y);
            let ghost n0 = scratch.ncnt@;
            let ghost s0 = scratch.rsum@;
            let ghost q0 = scratch.rsq@;
            let ghost fn0 = fold_n@;
            let ghost ts0 = scratch.rtot_sum@;
            let ghost tq0 = scratch.rtot_sq@;
            let cnt: u32 = scratch.ncnt[row];
            scratch.ncnt.set(row, cnt + 1);
            let acc = scratch.rsum[row].plus(y);
            scratch.rsum.set(row, acc);
            let acc = scratch.rsq[row].plus(yy);
            scratch.rsq.set(row, acc);
            let acc = scratch.rtot_sum[f].plus(y);
            scratch.rtot_sum.set(f, acc);
            let acc = scratch.rtot_sq[f].plus(yy);
            scratch.rtot_sq.set(f, acc);
            let held: u64 = fold_n[f];
            fold_n.set(f, held + 1);
            proof {
                lemma_moment_scattered(
                    node,
                    k as nat,
                    n,
                    f as int,
                    b as int,
                    y,
                    n0,
                    s0,
                    q0,
                    scratch.ncnt@,
                    scratch.rsum@,
                    scratch.rsq@,
                );
                assert forall|g: int|
                    #![trigger fold_n@[g]]
                    #![trigger scratch.rtot_sum@[g]]
                    #![trigger scratch.rtot_sq@[g]]
                    0 <= g < k implies {
                    let values = node.values_to(g as nat, n + 1);
                    &&& fold_n@[g] == values.len()
                    &&& scratch.rtot_sum@[g] == statistics::total(values)
                    &&& scratch.rtot_sq@[g] == statistics::total(statistics::squares(values))
                } by {
                    assert(fn0[g] == node.values_to(g as nat, n).len());
                    statistics::lemma_total_push(node.values_to(g as nat, n), y);
                }
            }
        } else {
            proof {
                lemma_moment_not_scattered(
                    node,
                    k as nat,
                    n,
                    scratch.ncnt@,
                    scratch.rsum@,
                    scratch.rsq@,
                );
                assert forall|g: nat| #[trigger] node.values_to(g, n + 1) == node.values_to(
                    g,
                    n,
                ) by {}
            }
        }
        pos += 1;
    }
    let mut run_n: Vec<u64> = vec![0u64; k];
    let mut run_sum: Vec<Float> = vec![Float::zero(); k];
    let mut run_sq: Vec<Float> = vec![Float::zero(); k];
    let mut b: usize = 0;
    while b < bins
        invariant
            b <= bins,
            0 < bins <= u32::MAX,
            k * bins <= usize::MAX,
            aggregator.applicable(),
            rank == aggregation::ranking(aggregator),
            node.bins == bins,
            node.order.len() <= u32::MAX,
            scratch.sizes() == sizes,
            node.tabulated(
                k as nat,
                node.order.len(),
                scratch.ncnt@,
                scratch.rsum@,
                scratch.rsq@,
            ),
            node.totalled(
                k as nat,
                node.order.len(),
                fold_n@,
                scratch.rtot_sum@,
                scratch.rtot_sq@,
            ),
            run_n@.len() == k,
            run_sum@.len() == k,
            run_sq@.len() == k,
            forall|f: int|
                #![trigger run_n@[f]]
                #![trigger run_sum@[f]]
                #![trigger run_sq@[f]]
                0 <= f < k ==> (run_n@[f] as nat, run_sum@[f], run_sq@[f]) == node.moments_below(
                    f as nat,
                    b as nat,
                ),
            selector::scored_views(out@) == regr_candidates(
                node,
                rank,
                feature,
                prefix,
                k as nat,
                b as nat,
            ),
        decreases bins - b,
    {
        proof {
            lemma_regr_occupied(
                node,
                k as nat,
                b as nat,
                scratch.ncnt@,
                scratch.rsum@,
                scratch.rsq@,
            );
        }
        let occupied: bool = bin_occupied(&scratch.ncnt, k, bins, b);
        let scored: bool = occupied && (!prefix || b + 1 < bins);
        let mut scores: Vec<Float> = Vec::new();
        let mut f: usize = 0;
        while f < k
            invariant
                f <= k,
                b < bins <= u32::MAX,
                k * bins <= usize::MAX,
                node.bins == bins,
                node.order.len() <= u32::MAX,
                node.tabulated(
                    k as nat,
                    node.order.len(),
                    scratch.ncnt@,
                    scratch.rsum@,
                    scratch.rsq@,
                ),
                node.totalled(
                    k as nat,
                    node.order.len(),
                    fold_n@,
                    scratch.rtot_sum@,
                    scratch.rtot_sq@,
                ),
                run_n@.len() == k,
                run_sum@.len() == k,
                run_sq@.len() == k,
                forall|g: int|
                    #![trigger run_n@[g]]
                    #![trigger run_sum@[g]]
                    #![trigger run_sq@[g]]
                    0 <= g < k ==> (run_n@[g] as nat, run_sum@[g], run_sq@[g])
                        == node.moments_below(
                        g as nat,
                        if g < f {
                            (b + 1) as nat
                        } else {
                            b as nat
                        },
                    ),
                scored ==> scores@ == regr_gains(node, b as nat, prefix, f as nat),
            decreases k - f,
        {
            proof {
                lemma_slot_bound(f as int, bins as int, b as int, k as int);
                assert(0 <= f * bins <= slot(f as int, bins as int, b as int));
                node.lemma_below_bound(f as nat, (b + 1) as nat, node.order.len());
                node.lemma_moments_count(f as nat, (b + 1) as nat);
                node.lemma_lengths(f as nat, node.order.len());
                node.lemma_cell_bound(f as nat, b as nat, node.order.len());
                assert(run_n@[f as int] == node.moments_below(f as nat, b as nat).0);
                assert(scratch.ncnt@[slot(f as int, bins as int, b as int)] == node.cell_in(
                    f as nat,
                    b as nat,
                ).len());
                assert(fold_n@[f as int] == node.values_in(f as nat).len());
            }
            let row: usize = f * bins + b;
            let nb: u64 = scratch.ncnt[row] as u64;
            let sb = scratch.rsum[row];
            let qb = scratch.rsq[row];
            let below_n: u64 = run_n[f] + nb;
            let below_sum = run_sum[f].plus(sb);
            let below_sq = run_sq[f].plus(qb);
            run_n.set(f, below_n);
            run_sum.set(f, below_sum);
            run_sq.set(f, below_sq);
            if scored {
                let (nl, sl, ql) = if prefix {
                    (below_n, below_sum, below_sq)
                } else {
                    (nb, sb, qb)
                };
                match gain_from_moments(
                    fold_n[f],
                    scratch.rtot_sum[f],
                    scratch.rtot_sq[f],
                    nl,
                    sl,
                    ql,
                ) {
                    Some(gain) => {
                        scores.push(gain);
                    },
                    None => {},
                }
            }
            f += 1;
        }
        if scored {
            let stats = FoldStats::from_scores(scores, k);
            let score = aggregator.aggregate(&stats);
            let ghost before = out@;
            out.push(
                ScoredCandidate {
                    candidate: Candidate { feature, state: b as u32 },
                    score,
                    stats,
                },
            );
            assert(selector::scored_views(out@) =~= selector::scored_views(before).push(
                out@[before.len() as int]@,
            ));
        }
        b += 1;
    }
    out
}

} // verus!
