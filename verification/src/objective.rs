//! Scoring splits by a classification metric on held-out folds.
//!
//! On the training samples of a fold each child of a split is given its majority class. On the
//! validation samples each child predicts that class, and the metric of the resulting confusion
//! counts is compared with that of the undivided node, which predicts its own majority class.

use crate::aggregation;
use crate::aggregation::Aggregator;
use crate::candidate;
use crate::candidate::{split_states, Candidate};
use crate::criterion;
use crate::criterion::class_counts;
use crate::cross_validation;
use crate::cross_validation::{Fold, FoldStats, FoldView};
use crate::data::{Bin, Column, SampleId};
use crate::float::rounding;
use crate::float::Float;
use crate::histogram;
use crate::histogram::{ClassNode, FastScratch};
use crate::selector;
use crate::selector::{ScoredCandidate, ScoredView};
use vstd::prelude::*;

verus! {

/// How a per-class metric becomes one number.
#[derive(Clone, Copy, Debug, PartialEq, Eq, Structural)]
pub enum Average {
    /// The metric of one class.
    Binary {
        /// The class that counts as positive.
        pos_label: usize,
    },
    /// The metric of the counts of all classes together.
    Micro,
    /// The plain mean over the classes.
    Macro,
    /// The mean over the classes, weighted by how often each occurs.
    Weighted,
}

/// Per-class confusion counts.
#[derive(Clone, Debug)]
pub struct Confusion {
    /// Number of classes.
    pub n_classes: usize,
    /// True positives of each class.
    pub tp: Vec<u64>,
    /// False positives of each class.
    pub fp: Vec<u64>,
    /// False negatives of each class.
    pub fn_: Vec<u64>,
    /// How often each class occurs.
    pub support: Vec<u64>,
    /// Number of samples counted.
    pub total: u64,
}

/// The contents of confusion counts.
#[verifier::ext_equal]
pub struct ConfusionView {
    pub n_classes: nat,
    pub tp: Seq<u64>,
    pub fp: Seq<u64>,
    pub fn_: Seq<u64>,
    pub support: Seq<u64>,
    pub total: nat,
}

impl View for Confusion {
    type V = ConfusionView;

    open spec fn view(&self) -> ConfusionView {
        ConfusionView {
            n_classes: self.n_classes as nat,
            tp: self.tp@,
            fp: self.fp@,
            fn_: self.fn_@,
            support: self.support@,
            total: self.total as nat,
        }
    }
}

/// `n` zeros.
pub open spec fn zeros(n: nat) -> Seq<u64> {
    Seq::new(n, |i: int| 0u64)
}

/// Confusion counts of no samples.
pub open spec fn no_samples(n_classes: nat) -> ConfusionView {
    ConfusionView {
        n_classes,
        tp: zeros(n_classes),
        fp: zeros(n_classes),
        fn_: zeros(n_classes),
        support: zeros(n_classes),
        total: 0,
    }
}

/// `a + b`, entry by entry, except that entry `skip` stays.
pub open spec fn plus_except(a: Seq<u64>, b: Seq<u64>, skip: int) -> Seq<u64> {
    Seq::new(
        a.len(),
        |i: int|
            if i == skip {
                a[i]
            } else {
                (a[i] + b[i]) as u64
            },
    )
}

/// `a` with `x` added to entry `at`, if there is such an entry.
pub open spec fn raised(a: Seq<u64>, at: int, x: int) -> Seq<u64> {
    if 0 <= at < a.len() {
        a.update(at, (a[at] + x) as u64)
    } else {
        a
    }
}

impl ConfusionView {
    /// Whether there is one count for each class.
    pub open spec fn shaped(self) -> bool {
        &&& self.tp.len() == self.n_classes
        &&& self.fp.len() == self.n_classes
        &&& self.fn_.len() == self.n_classes
        &&& self.support.len() == self.n_classes
    }

    /// Whether the counts can be added up.
    pub open spec fn countable(self) -> bool {
        &&& self.shaped()
        &&& 2 * histogram::sum_of_counts(self.tp) + histogram::sum_of_counts(self.fp)
            + histogram::sum_of_counts(self.fn_) <= u64::MAX
    }

    /// The counts with a group added whose members are all predicted to be of class `pred`.
    pub open spec fn grouped(self, pred: nat, counts: Seq<u64>) -> ConfusionView {
        let group = counts.take(self.n_classes as int);
        let size = histogram::sum_of_counts(group) as int;
        let hits: int = if pred < self.n_classes {
            group[pred as int] as int
        } else {
            0
        };
        ConfusionView {
            n_classes: self.n_classes,
            tp: raised(self.tp, pred as int, hits),
            fp: raised(self.fp, pred as int, size - hits),
            fn_: plus_except(self.fn_, group, pred as int),
            support: plus_except(self.support, group, -1),
            total: (self.total + size) as nat,
        }
    }

    /// Whether a group can be added without a count growing too large.
    pub open spec fn accepts(self, pred: nat, counts: Seq<u64>) -> bool {
        let group = counts.take(self.n_classes as int);
        let size = histogram::sum_of_counts(group);
        &&& self.shaped()
        &&& counts.len() >= self.n_classes
        &&& self.total + size <= u64::MAX
        &&& forall|c: int|
            0 <= c < self.n_classes ==> #[trigger] self.support[c] + group[c] <= u64::MAX
        &&& forall|c: int|
            0 <= c < self.n_classes && c != pred ==> #[trigger] self.fn_[c] + group[c] <= u64::MAX
        &&& pred < self.n_classes ==> {
            &&& self.tp[pred as int] + group[pred as int] <= u64::MAX
            &&& self.fp[pred as int] + size - group[pred as int] <= u64::MAX
        }
    }

    /// Whether the counts fit together: each sample is a true positive or a false negative of its
    /// class, and at most one class counts it as a prediction.
    pub open spec fn consistent(self) -> bool {
        &&& self.shaped()
        &&& forall|c: int|
            0 <= c < self.n_classes ==> self.tp[c] + self.fn_[c] == #[trigger] self.support[c]
        &&& histogram::sum_of_counts(self.support) == self.total
        &&& histogram::sum_of_counts(self.tp) + histogram::sum_of_counts(self.fn_) == self.total
        &&& histogram::sum_of_counts(self.tp) + histogram::sum_of_counts(self.fp) <= self.total
    }
}

/// One of the counts is at most their sum.
pub(crate) proof fn lemma_entry_bound(s: Seq<u64>, i: int)
    requires
        0 <= i < s.len(),
    ensures
        s[i] <= histogram::sum_of_counts(s),
    decreases s.len(),
{
    if i < s.len() - 1 {
        lemma_entry_bound(s.drop_last(), i);
    }
}

proof fn lemma_sum_plus_except(a: Seq<u64>, b: Seq<u64>, skip: int)
    requires
        a.len() == b.len(),
        forall|i: int| 0 <= i < a.len() && i != skip ==> #[trigger] a[i] + b[i] <= u64::MAX,
    ensures
        histogram::sum_of_counts(plus_except(a, b, skip)) == histogram::sum_of_counts(a)
            + histogram::sum_of_counts(b) - if 0 <= skip < b.len() {
            b[skip] as int
        } else {
            0
        },
    decreases a.len(),
{
    if a.len() > 0 {
        let c = a.drop_last();
        let d = b.drop_last();
        assert forall|i: int| 0 <= i < c.len() && i != skip implies #[trigger] c[i] + d[i]
            <= u64::MAX by {
            assert(c[i] == a[i]);
        }
        lemma_sum_plus_except(c, d, skip);
        assert(plus_except(a, b, skip).drop_last() =~= plus_except(c, d, skip));
        let last = a.len() - 1;
        if last != skip {
            assert(a[last] + b[last] <= u64::MAX);
        }
    }
}

/// Adding groups keeps the counts consistent: the samples of each class are its true positives and
/// false negatives, the class sizes sum to the total, and so do true and false positives as long
/// as every prediction is a class.
pub proof fn law_groups_stay_consistent(cm: ConfusionView, pred: nat, counts: Seq<u64>)
    requires
        cm.consistent(),
        cm.accepts(pred, counts),
    ensures
        cm.grouped(pred, counts).consistent(),
        pred < cm.n_classes && histogram::sum_of_counts(cm.tp) + histogram::sum_of_counts(cm.fp)
            == cm.total ==> histogram::sum_of_counts(cm.grouped(pred, counts).tp)
            + histogram::sum_of_counts(cm.grouped(pred, counts).fp) == cm.grouped(
            pred,
            counts,
        ).total,
{
    let group = counts.take(cm.n_classes as int);
    let size = histogram::sum_of_counts(group);
    let r = cm.grouped(pred, counts);
    assert forall|c: int| 0 <= c < cm.n_classes && c != -1 implies #[trigger] cm.support[c]
        + group[c] <= u64::MAX by {}
    lemma_sum_plus_except(cm.support, group, -1);
    lemma_sum_plus_except(cm.fn_, group, pred as int);
    if pred < cm.n_classes {
        lemma_entry_bound(group, pred as int);
        histogram::lemma_sum_update(
            cm.tp,
            pred as int,
            (cm.tp[pred as int] + group[pred as int]) as u64,
        );
        histogram::lemma_sum_update(
            cm.fp,
            pred as int,
            (cm.fp[pred as int] + size - group[pred as int]) as u64,
        );
    }
    assert forall|c: int| 0 <= c < r.n_classes implies r.tp[c] + r.fn_[c]
        == #[trigger] r.support[c] by {
        assert(cm.support[c] + group[c] <= u64::MAX);
        if c != pred {
            assert(cm.fn_[c] + group[c] <= u64::MAX);
        }
    }
}

/// The counts of no samples are consistent.
pub proof fn lemma_no_samples(n_classes: nat)
    ensures
        no_samples(n_classes).consistent(),
        histogram::sum_of_counts(zeros(n_classes)) == 0,
{
    histogram::lemma_sum_zeros(zeros(n_classes));
}

/// Consistent counts accept any group that keeps the total in range.
pub(crate) proof fn lemma_accepts(cm: ConfusionView, pred: nat, counts: Seq<u64>)
    requires
        cm.consistent(),
        counts.len() == cm.n_classes,
        cm.total + histogram::sum_of_counts(counts) <= u64::MAX,
    ensures
        cm.accepts(pred, counts),
{
    let group = counts.take(cm.n_classes as int);
    assert(group =~= counts);
    assert forall|c: int| 0 <= c < cm.n_classes implies cm.support[c] + group[c] <= cm.total
        + histogram::sum_of_counts(counts) && cm.fn_[c] <= cm.support[c] && cm.tp[c]
        <= cm.support[c] by {
        lemma_entry_bound(cm.support, c);
        lemma_entry_bound(counts, c);
    }
    if pred < cm.n_classes {
        lemma_entry_bound(cm.fp, pred as int);
        lemma_entry_bound(counts, pred as int);
        assert(cm.tp[pred as int] + cm.fn_[pred as int] == cm.support[pred as int]);
    }
}

impl Confusion {
    /// Zero counts for `n_classes` classes.
    pub fn zero(n_classes: usize) -> (r: Confusion)
        ensures
            r@ == no_samples(n_classes as nat),
    {
        let r = Confusion {
            n_classes,
            tp: vec![0u64; n_classes],
            fp: vec![0u64; n_classes],
            fn_: vec![0u64; n_classes],
            support: vec![0u64; n_classes],
            total: 0,
        };
        assert(r@ =~= no_samples(n_classes as nat));
        r
    }

    /// Adds a group whose members are all predicted to be of class `pred`, given how often each
    /// class occurs in it.
    pub fn add_group(&mut self, pred: usize, val_counts: &[u64])
        requires
            old(self)@.accepts(pred as nat, val_counts@),
        ensures
            final(self)@ == old(self)@.grouped(pred as nat, val_counts@),
    {
        let n: usize = self.n_classes;
        let ghost cm = self@;
        let ghost group = val_counts@.take(n as int);
        let ghost size = histogram::sum_of_counts(group);
        let mut sum: u64 = 0;
        let mut c: usize = 0;
        while c < n
            invariant
                c <= n,
                n == cm.n_classes,
                n <= val_counts@.len(),
                group == val_counts@.take(n as int),
                size == histogram::sum_of_counts(group),
                cm.accepts(pred as nat, val_counts@),
                self.n_classes == n,
                self.total == cm.total,
                self.tp@ == cm.tp,
                self.fp@ == cm.fp,
                self.fn_@.len() == n,
                self.support@.len() == n,
                sum == histogram::sum_of_counts(group.take(c as int)),
                sum <= size <= u64::MAX,
                forall|i: int|
                    0 <= i < n ==> #[trigger] self.support@[i] == if i < c {
                        (cm.support[i] + group[i]) as u64
                    } else {
                        cm.support[i]
                    },
                forall|i: int|
                    0 <= i < n ==> #[trigger] self.fn_@[i] == if i < c && i != pred {
                        (cm.fn_[i] + group[i]) as u64
                    } else {
                        cm.fn_[i]
                    },
            decreases n - c,
        {
            let cnt: u64 = val_counts[c];
            proof {
                assert(group.take(c + 1).drop_last() =~= group.take(c as int));
                histogram::lemma_sum_take(group, c + 1);
                assert(cm.support[c as int] + group[c as int] <= u64::MAX);
                if c != pred {
                    assert(cm.fn_[c as int] + group[c as int] <= u64::MAX);
                }
            }
            sum = sum + cnt;
            let s: u64 = self.support[c];
            self.support.set(c, s + cnt);
            if c != pred {
                let m: u64 = self.fn_[c];
                self.fn_.set(c, m + cnt);
            }
            c += 1;
        }
        assert(group.take(n as int) =~= group);
        if pred < n {
            let hits: u64 = val_counts[pred];
            proof {
                lemma_entry_bound(group, pred as int);
            }
            let t: u64 = self.tp[pred];
            self.tp.set(pred, t + hits);
            let p: u64 = self.fp[pred];
            self.fp.set(pred, p + (sum - hits));
        }
        self.total = self.total + sum;
        assert(self.support@ =~= plus_except(cm.support, group, -1));
        assert(self.fn_@ =~= plus_except(cm.fn_, group, pred as int));
        assert(self@ =~= cm.grouped(pred as nat, val_counts@));
    }
}

/// `n / d`, or zero when `d` is not positive.
pub open spec fn ratio(n: Float, d: Float) -> Float {
    if Float::below(Float::zero(), d) {
        Float::quotient_of(n, d)
    } else {
        Float::zero()
    }
}

fn safe_div(n: Float, d: Float) -> (r: Float)
    ensures
        r == ratio(n, d),
{
    if Float::zero().lt(d) {
        n.over(d)
    } else {
        Float::zero()
    }
}

/// Whether position `i` is the first of the largest counts; zero when there are none.
pub open spec fn leads(counts: Seq<u64>, i: nat) -> bool {
    if counts.len() == 0 {
        i == 0
    } else {
        &&& i < counts.len()
        &&& forall|j: int| 0 <= j < counts.len() ==> #[trigger] counts[j] <= counts[i as int]
        &&& forall|j: int| 0 <= j < i ==> #[trigger] counts[j] < counts[i as int]
    }
}

/// The first position of the largest count.
pub open spec fn leader(counts: Seq<u64>) -> nat {
    choose|i: nat| leads(counts, i)
}

/// Only one position leads.
pub proof fn law_leader_is_unique(counts: Seq<u64>, i: nat)
    requires
        leads(counts, i),
    ensures
        leader(counts) == i,
{
    let j = leader(counts);
    assert(leads(counts, j));
    if counts.len() > 0 {
        assert(counts[j as int] <= counts[i as int]);
        assert(counts[i as int] <= counts[j as int]);
    }
}

/// Some position leads.
pub proof fn law_leader_leads(counts: Seq<u64>)
    ensures
        leads(counts, leader(counts)),
    decreases counts.len(),
{
    if counts.len() <= 1 {
        assert(leads(counts, 0));
    } else {
        let d = counts.drop_last();
        law_leader_leads(d);
        let i = leader(d);
        let last = (counts.len() - 1) as nat;
        if counts[last as int] > counts[i as int] {
            assert forall|j: int| 0 <= j < last implies #[trigger] counts[j]
                < counts[last as int] by {
                assert(d[j] <= d[i as int]);
            }
            assert(leads(counts, last));
        } else {
            assert forall|j: int| 0 <= j < counts.len() implies #[trigger] counts[j]
                <= counts[i as int] by {
                if j < last {
                    assert(d[j] <= d[i as int]);
                }
            }
            assert forall|j: int| 0 <= j < i implies #[trigger] counts[j] < counts[i as int] by {
                assert(d[j] < d[i as int]);
            }
            assert(leads(counts, i));
        }
    }
}

/// The first position of the largest count.
pub fn argmax(counts: &[u64]) -> (r: usize)
    ensures
        r == leader(counts@),
        leads(counts@, r as nat),
{
    let mut idx: usize = 0;
    let mut best: u64 = 0;
    let mut i: usize = 0;
    while i < counts.len()
        invariant
            i <= counts@.len(),
            i == 0 ==> idx == 0 && best == 0,
            i > 0 ==> idx < i && counts@[idx as int] == best,
            forall|j: int| 0 <= j < i ==> #[trigger] counts@[j] <= best,
            forall|j: int| 0 <= j < idx ==> #[trigger] counts@[j] < best,
        decreases counts@.len() - i,
    {
        let c: u64 = counts[i];
        if c > best {
            best = c;
            idx = i;
        }
        i += 1;
    }
    proof {
        law_leader_is_unique(counts@, idx as nat);
    }
    idx
}

/// A metric of the true positives, false positives and false negatives of a class.
#[derive(Clone, Copy, Debug)]
pub enum Rate {
    /// `TP / (TP + FP)`.
    Precision,
    /// `TP / (TP + FN)`.
    Recall,
    /// `2 TP / (2 TP + FP + FN)`.
    F1,
    /// `(1 + b) TP / ((1 + b) TP + b FN + FP)`.
    FBeta {
        /// The square of the recall weight.
        b: Float,
    },
}

impl Rate {
    /// The metric for the given counts.
    pub open spec fn of_counts(self, tp: nat, fp: nat, fnn: nat) -> Float {
        match self {
            Rate::Precision => ratio(Float::of_nat(tp), Float::of_nat(tp + fp)),
            Rate::Recall => ratio(Float::of_nat(tp), Float::of_nat(tp + fnn)),
            Rate::F1 => ratio(
                Float::product_of(Float::two(), Float::of_nat(tp)),
                Float::of_nat(2 * tp + fp + fnn),
            ),
            Rate::FBeta { b } => {
                let num = Float::product_of(Float::sum_of(Float::one(), b), Float::of_nat(tp));
                ratio(
                    num,
                    Float::sum_of(
                        Float::sum_of(num, Float::product_of(b, Float::of_nat(fnn))),
                        Float::of_nat(fp),
                    ),
                )
            },
        }
    }

    fn compute(self, tp: u64, fp: u64, fnn: u64) -> (r: Float)
        requires
            2 * tp + fp + fnn <= u64::MAX,
        ensures
            r == self.of_counts(tp as nat, fp as nat, fnn as nat),
    {
        match self {
            Rate::Precision => safe_div(Float::from_u64(tp), Float::from_u64(tp + fp)),
            Rate::Recall => safe_div(Float::from_u64(tp), Float::from_u64(tp + fnn)),
            Rate::F1 => safe_div(
                Float::two().times(Float::from_u64(tp)),
                Float::from_u64(2 * tp + fp + fnn),
            ),
            Rate::FBeta { b } => {
                let num = Float::one().plus(b).times(Float::from_u64(tp));
                let den = num.plus(b.times(Float::from_u64(fnn))).plus(Float::from_u64(fp));
                safe_div(num, den)
            },
        }
    }
}

/// The sum of the metric over the first `k` classes, each weighted by its size if asked.
pub open spec fn rates_to(cm: ConfusionView, rate: Rate, by_support: bool, k: nat) -> Float
    decreases k,
{
    if k == 0 {
        Float::zero()
    } else {
        let c = k - 1;
        let x = rate.of_counts(cm.tp[c] as nat, cm.fp[c] as nat, cm.fn_[c] as nat);
        Float::sum_of(
            rates_to(cm, rate, by_support, c as nat),
            if by_support {
                Float::product_of(Float::of_nat(cm.support[c] as nat), x)
            } else {
                x
            },
        )
    }
}

/// The metric reduced to one number.
pub open spec fn averaged_rate(cm: ConfusionView, average: Average, rate: Rate) -> Float {
    match average {
        Average::Binary { pos_label } => if pos_label >= cm.n_classes {
            Float::zero()
        } else {
            rate.of_counts(
                cm.tp[pos_label as int] as nat,
                cm.fp[pos_label as int] as nat,
                cm.fn_[pos_label as int] as nat,
            )
        },
        Average::Macro => if cm.n_classes == 0 {
            Float::zero()
        } else {
            Float::quotient_of(
                rates_to(cm, rate, false, cm.n_classes),
                Float::of_nat(cm.n_classes),
            )
        },
        Average::Weighted => if cm.total == 0 {
            Float::zero()
        } else {
            Float::quotient_of(
                rates_to(cm, rate, true, cm.n_classes),
                Float::of_nat(cm.total),
            )
        },
        Average::Micro => rate.of_counts(
            histogram::sum_of_counts(cm.tp),
            histogram::sum_of_counts(cm.fp),
            histogram::sum_of_counts(cm.fn_),
        ),
    }
}

/// The metric of one class.
fn class_rate(cm: &Confusion, rate: Rate, c: usize) -> (r: Float)
    requires
        cm@.countable(),
        c < cm.n_classes,
    ensures
        r == rate.of_counts(cm.tp@[c as int] as nat, cm.fp@[c as int] as nat, cm.fn_@[c as int] as nat),
{
    proof {
        lemma_entry_bound(cm.tp@, c as int);
        lemma_entry_bound(cm.fp@, c as int);
        lemma_entry_bound(cm.fn_@, c as int);
    }
    rate.compute(cm.tp[c], cm.fp[c], cm.fn_[c])
}

fn sum_rates(cm: &Confusion, rate: Rate, by_support: bool) -> (r: Float)
    requires
        cm@.countable(),
    ensures
        r == rates_to(cm@, rate, by_support, cm.n_classes as nat),
{
    let mut s = Float::zero();
    let mut k: usize = 0;
    while k < cm.n_classes
        invariant
            k <= cm.n_classes,
            cm@.countable(),
            s == rates_to(cm@, rate, by_support, k as nat),
        decreases cm.n_classes - k,
    {
        let x = class_rate(cm, rate, k);
        let term = if by_support {
            Float::from_u64(cm.support[k]).times(x)
        } else {
            x
        };
        s = s.plus(term);
        k += 1;
    }
    s
}

/// Reduces a per-class metric to one number.
fn averaged(cm: &Confusion, average: Average, rate: Rate) -> (r: Float)
    requires
        cm@.countable(),
    ensures
        r == averaged_rate(cm@, average, rate),
{
    match average {
        Average::Binary { pos_label } => {
            if pos_label >= cm.n_classes {
                Float::zero()
            } else {
                class_rate(cm, rate, pos_label)
            }
        },
        Average::Macro => {
            if cm.n_classes == 0 {
                return Float::zero();
            }
            sum_rates(cm, rate, false).over(Float::from_u64(cm.n_classes as u64))
        },
        Average::Weighted => {
            if cm.total == 0 {
                return Float::zero();
            }
            sum_rates(cm, rate, true).over(Float::from_u64(cm.total))
        },
        Average::Micro => {
            let tp: u64 = histogram::sum_counts(cm.tp.as_slice());
            let fp: u64 = histogram::sum_counts(cm.fp.as_slice());
            let fnn: u64 = histogram::sum_counts(cm.fn_.as_slice());
            rate.compute(tp, fp, fnn)
        },
    }
}

/// A classification metric of validation confusion counts; higher is better.
pub trait ClassObjective: Send + Sync {
    /// The score of the given counts; every metric says here what it computes.
    open spec fn score_of(&self, cm: ConfusionView) -> Float {
        Float::zero()
    }

    /// The name of the metric.
    open spec fn label(&self) -> Seq<char> {
        Seq::empty()
    }

    /// The score of the given counts.
    fn score(&self, cm: &Confusion) -> (r: Float)
        requires
            cm@.countable(),
        ensures
            r == self.score_of(cm@),
    ;

    /// The name of the metric.
    fn name(&self) -> (r: &'static str)
        ensures
            r@ == self.label(),
    ;
}

impl<'a> ClassObjective for Box<dyn ClassObjective + 'a> {
    open spec fn score_of(&self, cm: ConfusionView) -> Float {
        (**self).score_of(cm)
    }

    open spec fn label(&self) -> Seq<char> {
        (**self).label()
    }

    fn score(&self, cm: &Confusion) -> (r: Float) {
        (**self).score(cm)
    }

    fn name(&self) -> (r: &'static str) {
        (**self).name()
    }
}

/// The scores that a metric assigns, as a function.
pub open spec fn scoring<O: ClassObjective + ?Sized>(objective: &O) -> spec_fn(
    ConfusionView,
) -> Float {
    |cm: ConfusionView| objective.score_of(cm)
}

/// Precision, `TP / (TP + FP)`.
pub struct Precision {
    /// Averaging over the classes.
    pub average: Average,
}

impl ClassObjective for Precision {
    open spec fn score_of(&self, cm: ConfusionView) -> Float {
        averaged_rate(cm, self.average, Rate::Precision)
    }

    open spec fn label(&self) -> Seq<char> {
        "precision"@
    }

    fn score(&self, cm: &Confusion) -> (r: Float) {
        averaged(cm, self.average, Rate::Precision)
    }

    fn name(&self) -> (r: &'static str) {
        "precision"
    }
}

/// Recall, `TP / (TP + FN)`.
pub struct Recall {
    /// Averaging over the classes.
    pub average: Average,
}

impl ClassObjective for Recall {
    open spec fn score_of(&self, cm: ConfusionView) -> Float {
        averaged_rate(cm, self.average, Rate::Recall)
    }

    open spec fn label(&self) -> Seq<char> {
        "recall"@
    }

    fn score(&self, cm: &Confusion) -> (r: Float) {
        averaged(cm, self.average, Rate::Recall)
    }

    fn name(&self) -> (r: &'static str) {
        "recall"
    }
}

/// F1, the harmonic mean of precision and recall.
pub struct F1 {
    /// Averaging over the classes.
    pub average: Average,
}

impl ClassObjective for F1 {
    open spec fn score_of(&self, cm: ConfusionView) -> Float {
        averaged_rate(cm, self.average, Rate::F1)
    }

    open spec fn label(&self) -> Seq<char> {
        "f1"@
    }

    fn score(&self, cm: &Confusion) -> (r: Float) {
        averaged(cm, self.average, Rate::F1)
    }

    fn name(&self) -> (r: &'static str) {
        "f1"
    }
}

/// F-beta, which weights recall by the square of beta.
pub struct FBeta {
    /// The weight beta.
    pub beta: Float,
    /// Averaging over the classes.
    pub average: Average,
}

impl ClassObjective for FBeta {
    open spec fn score_of(&self, cm: ConfusionView) -> Float {
        averaged_rate(
            cm,
            self.average,
            Rate::FBeta { b: Float::product_of(self.beta, self.beta) },
        )
    }

    open spec fn label(&self) -> Seq<char> {
        "fbeta"@
    }

    fn score(&self, cm: &Confusion) -> (r: Float) {
        let b = self.beta.times(self.beta);
        averaged(cm, self.average, Rate::FBeta { b })
    }

    fn name(&self) -> (r: &'static str) {
        "fbeta"
    }
}

proof fn lemma_fbeta_rate(tp: nat, fp: nat, fnn: nat)
    requires
        2 * tp + fp + fnn <= rounding::EXACT_TOP,
    ensures
        (Rate::FBeta { b: Float::one() }).of_counts(tp, fp, fnn) == Rate::F1.of_counts(tp, fp, fnn),
{
    rounding::law_one_and_two();
    rounding::law_natural_sum(1, 1);
    rounding::law_natural_product(2, tp);
    rounding::law_natural_sum(2 * tp, fnn);
    rounding::law_natural_sum(2 * tp + fnn, fp);
    rounding::law_small_natural_is_exact(fnn);
    rounding::law_times_one(Float::of_nat(fnn));
}

proof fn lemma_fbeta_rates(cm: ConfusionView, by_support: bool, k: nat)
    requires
        cm.shaped(),
        k <= cm.n_classes,
        2 * histogram::sum_of_counts(cm.tp) + histogram::sum_of_counts(cm.fp)
            + histogram::sum_of_counts(cm.fn_) <= rounding::EXACT_TOP,
    ensures
        rates_to(cm, Rate::FBeta { b: Float::one() }, by_support, k) == rates_to(
            cm,
            Rate::F1,
            by_support,
            k,
        ),
    decreases k,
{
    if k > 0 {
        let c = k - 1;
        lemma_fbeta_rates(cm, by_support, c as nat);
        lemma_entry_bound(cm.tp, c);
        lemma_entry_bound(cm.fp, c);
        lemma_entry_bound(cm.fn_, c);
        lemma_fbeta_rate(cm.tp[c] as nat, cm.fp[c] as nat, cm.fn_[c] as nat);
    }
}

/// With a weight of one, F-beta is F1, as long as the counts are exact numbers.
pub proof fn law_fbeta_at_one_is_f1(cm: ConfusionView, average: Average)
    requires
        cm.shaped(),
        2 * histogram::sum_of_counts(cm.tp) + histogram::sum_of_counts(cm.fp)
            + histogram::sum_of_counts(cm.fn_) <= rounding::EXACT_TOP,
    ensures
        (FBeta { beta: Float::one(), average }).score_of(cm) == (F1 { average }).score_of(cm),
{
    rounding::lemma_one();
    rounding::law_times_one(Float::one());
    match average {
        Average::Binary { pos_label } => {
            if pos_label < cm.n_classes {
                let c = pos_label as int;
                lemma_entry_bound(cm.tp, c);
                lemma_entry_bound(cm.fp, c);
                lemma_entry_bound(cm.fn_, c);
                lemma_fbeta_rate(cm.tp[c] as nat, cm.fp[c] as nat, cm.fn_[c] as nat);
            }
        },
        Average::Macro => {
            lemma_fbeta_rates(cm, false, cm.n_classes);
        },
        Average::Weighted => {
            lemma_fbeta_rates(cm, true, cm.n_classes);
        },
        Average::Micro => {
            lemma_fbeta_rate(
                histogram::sum_of_counts(cm.tp),
                histogram::sum_of_counts(cm.fp),
                histogram::sum_of_counts(cm.fn_),
            );
        },
    }
}

/// Accuracy, the share of samples that are predicted right.
pub struct Accuracy;

impl ClassObjective for Accuracy {
    open spec fn score_of(&self, cm: ConfusionView) -> Float {
        ratio(
            Float::of_nat(histogram::sum_of_counts(cm.tp)),
            Float::of_nat(cm.total),
        )
    }

    open spec fn label(&self) -> Seq<char> {
        "accuracy"@
    }

    fn score(&self, cm: &Confusion) -> (r: Float) {
        let tp: u64 = histogram::sum_counts(cm.tp.as_slice());
        safe_div(Float::from_u64(tp), Float::from_u64(cm.total))
    }

    fn name(&self) -> (r: &'static str) {
        "accuracy"
    }
}

/// The confusion counts of a node that predicts one class for all of its samples.
pub open spec fn undivided(pred: nat, counts: Seq<u64>) -> ConfusionView {
    no_samples(counts.len()).grouped(pred, counts)
}

/// The improvement of a split over its node on one fold, from class counts on the validation and
/// training samples: on the left, and in all. None when a child is empty on either.
pub open spec fn objective_gain(
    score: spec_fn(ConfusionView) -> Float,
    val_left: Seq<u64>,
    val_all: Seq<u64>,
    train_left: Seq<u64>,
    train_all: Seq<u64>,
) -> Option<Float> {
    let val_right = histogram::minus_counts(val_all, val_left);
    let train_right = histogram::minus_counts(train_all, train_left);
    if histogram::sum_of_counts(val_left) == 0 || histogram::sum_of_counts(val_right) == 0
        || histogram::sum_of_counts(train_left) == 0 || histogram::sum_of_counts(train_right)
        == 0 {
        None
    } else {
        Some(
            Float::difference_of(
                score(
                    undivided(leader(train_left), val_left).grouped(
                        leader(train_right),
                        val_right,
                    ),
                ),
                score(undivided(leader(train_all), val_all)),
            ),
        )
    }
}

/// Counts that fit together and whose double total is in range can be added up.
proof fn lemma_countable(cm: ConfusionView)
    requires
        cm.consistent(),
        2 * cm.total <= u64::MAX,
    ensures
        cm.countable(),
{
}

/// The improvement of a split on one fold, from class counts.
fn gain_on_counts<O: ClassObjective + ?Sized>(
    objective: &O,
    val_left: &[u64],
    val_all: &[u64],
    train_left: &[u64],
    train_all: &[u64],
) -> (r: Option<Float>)
    requires
        val_left@.len() == val_all@.len(),
        train_left@.len() == val_all@.len(),
        train_all@.len() == val_all@.len(),
        val_all@.len() <= usize::MAX,
        forall|i: int| 0 <= i < val_all@.len() ==> #[trigger] val_left@[i] <= val_all@[i],
        forall|i: int| 0 <= i < val_all@.len() ==> #[trigger] train_left@[i] <= train_all@[i],
        2 * histogram::sum_of_counts(val_all@) <= u64::MAX,
        histogram::sum_of_counts(train_all@) <= u64::MAX,
    ensures
        r == objective_gain(
            scoring(objective),
            val_left@,
            val_all@,
            train_left@,
            train_all@,
        ),
{
    let n: usize = val_all.len();
    proof {
        histogram::lemma_sum_order(val_left@, val_all@);
        histogram::lemma_sum_order(train_left@, train_all@);
    }
    let val_right = histogram::subtract_counts(val_all, val_left);
    let train_right = histogram::subtract_counts(train_all, train_left);
    if histogram::sum_counts(val_left) == 0 || histogram::sum_counts(val_right.as_slice()) == 0
        || histogram::sum_counts(train_left) == 0 || histogram::sum_counts(
        train_right.as_slice(),
    ) == 0 {
        return None;
    }
    let p_left: usize = argmax(train_left);
    let p_right: usize = argmax(train_right.as_slice());
    let p_all: usize = argmax(train_all);
    let mut split = Confusion::zero(n);
    let mut whole = Confusion::zero(n);
    proof {
        lemma_no_samples(n as nat);
        lemma_accepts(split@, p_left as nat, val_left@);
        law_groups_stay_consistent(split@, p_left as nat, val_left@);
        assert(val_left@.take(n as int) =~= val_left@);
        lemma_accepts(
            split@.grouped(p_left as nat, val_left@),
            p_right as nat,
            val_right@,
        );
        law_groups_stay_consistent(
            split@.grouped(p_left as nat, val_left@),
            p_right as nat,
            val_right@,
        );
        assert(val_right@.take(n as int) =~= val_right@);
        lemma_accepts(whole@, p_all as nat, val_all@);
        law_groups_stay_consistent(whole@, p_all as nat, val_all@);
        assert(val_all@.take(n as int) =~= val_all@);
    }
    split.add_group(p_left, val_left);
    split.add_group(p_right, val_right.as_slice());
    whole.add_group(p_all, val_all);
    proof {
        lemma_countable(split@);
        lemma_countable(whole@);
    }
    Some(objective.score(&split).minus(objective.score(&whole)))
}

/// The improvement of a split over its node on one fold. The classes that the children predict
/// come from the training samples, the scores from the validation samples.
pub open spec fn objective_gain_on(
    score: spec_fn(ConfusionView) -> Float,
    column: Column,
    labels: Seq<usize>,
    state: u32,
    fold: FoldView,
    n_bins: nat,
    n_classes: nat,
    prefix: bool,
) -> Option<Float> {
    let val_codes = cross_validation::coded(column, fold.train, fold.val, n_bins);
    let train_codes = cross_validation::coded(column, fold.train, fold.train, n_bins);
    let val = cross_validation::pick(labels, fold.val);
    let train = cross_validation::pick(labels, fold.train);
    objective_gain(
        score,
        criterion::tallies(
            cross_validation::side(val, val_codes, state, prefix, true),
            n_classes,
        ),
        criterion::tallies(val, n_classes),
        criterion::tallies(
            cross_validation::side(train, train_codes, state, prefix, true),
            n_classes,
        ),
        criterion::tallies(train, n_classes),
    )
}

/// Leakage guard: the classes that a node and the children of a split predict follow from the
/// training samples. Validation samples do not matter.
pub proof fn law_predictions_see_training_samples_only(
    a: Column,
    b: Column,
    s: Seq<usize>,
    t: Seq<usize>,
    state: u32,
    train: Seq<usize>,
    n_bins: nat,
    n_classes: nat,
    prefix: bool,
    left: bool,
)
    requires
        cross_validation::agree_on(a, b, train),
        cross_validation::pick(s, train) == cross_validation::pick(t, train),
    ensures
        leader(criterion::tallies(cross_validation::pick(s, train), n_classes)) == leader(
            criterion::tallies(cross_validation::pick(t, train), n_classes),
        ),
        leader(
            criterion::tallies(
                cross_validation::side(
                    cross_validation::pick(s, train),
                    cross_validation::coded(a, train, train, n_bins),
                    state,
                    prefix,
                    left,
                ),
                n_classes,
            ),
        ) == leader(
            criterion::tallies(
                cross_validation::side(
                    cross_validation::pick(t, train),
                    cross_validation::coded(b, train, train, n_bins),
                    state,
                    prefix,
                    left,
                ),
                n_classes,
            ),
        ),
{
    cross_validation::lemma_codes_agree(a, b, train, train, n_bins);
}

/// The improvements of a split on the folds in which it is valid.
pub open spec fn objective_gains(
    score: spec_fn(ConfusionView) -> Float,
    column: Column,
    labels: Seq<usize>,
    state: u32,
    folds: Seq<FoldView>,
    n_bins: nat,
    n_classes: nat,
    prefix: bool,
) -> Seq<Float>
    decreases folds.len(),
{
    if folds.len() == 0 {
        Seq::empty()
    } else {
        let before = objective_gains(
            score,
            column,
            labels,
            state,
            folds.drop_last(),
            n_bins,
            n_classes,
            prefix,
        );
        let fold = folds.last();
        if fold.val.len() == 0 || fold.train.len() == 0 {
            before
        } else {
            match objective_gain_on(
                score,
                column,
                labels,
                state,
                fold,
                n_bins,
                n_classes,
                prefix,
            ) {
                Some(gain) => before.push(gain),
                None => before,
            }
        }
    }
}

/// All scored candidates of one feature, with cut points fit on each training fold.
pub open spec fn objective_scores(
    score: spec_fn(ConfusionView) -> Float,
    rank: spec_fn(cross_validation::StatsView) -> Float,
    column: Column,
    labels: Seq<usize>,
    feature: usize,
    indices: Seq<usize>,
    folds: Seq<FoldView>,
    n_bins: nat,
    n_classes: nat,
    prefix: bool,
) -> Seq<ScoredView> {
    let states = candidate::split_states_of(column, indices, n_bins, prefix);
    Seq::new(
        states.len(),
        |i: int|
            histogram::scored_as(
                feature,
                states[i],
                objective_gains(
                    score,
                    column,
                    labels,
                    states[i],
                    folds,
                    n_bins,
                    n_classes,
                    prefix,
                ),
                folds.len(),
                rank,
            ),
    )
}

/// Whether the samples of every fold exist, as far as they are read, and can be counted.
pub open spec fn folds_countable(column: Column, n_labels: nat, folds: Seq<FoldView>) -> bool {
    forall|f: int|
        0 <= f < folds.len() && (#[trigger] folds[f]).val.len() > 0 && folds[f].train.len() > 0
            ==> {
            &&& cross_validation::all_below(folds[f].train, column.size())
            &&& cross_validation::all_below(folds[f].val, column.size())
            &&& cross_validation::all_below(folds[f].train, n_labels)
            &&& cross_validation::all_below(folds[f].val, n_labels)
            &&& 2 * folds[f].val.len() <= u64::MAX
        }
}

/// What scoring needs of a fold.
struct Prepared {
    val: Vec<usize>,
    train: Vec<usize>,
    val_codes: Vec<u32>,
    train_codes: Vec<u32>,
    val_all: Vec<u64>,
    train_all: Vec<u64>,
}

impl Prepared {
    spec fn of_fold(
        &self,
        column: Column,
        labels: Seq<usize>,
        fold: FoldView,
        n_bins: nat,
        n_classes: nat,
    ) -> bool {
        &&& self.val@ == cross_validation::pick(labels, fold.val)
        &&& self.train@ == cross_validation::pick(labels, fold.train)
        &&& self.val_codes@ == cross_validation::coded(column, fold.train, fold.val, n_bins)
        &&& self.train_codes@ == cross_validation::coded(column, fold.train, fold.train, n_bins)
        &&& self.val_all@ == criterion::tallies(self.val@, n_classes)
        &&& self.train_all@ == criterion::tallies(self.train@, n_classes)
        &&& 2 * self.val@.len() <= u64::MAX
    }
}

/// Class counts of the labels that go left.
fn left_counts(labels: &[usize], codes: &[u32], state: u32, prefix: bool, n_classes: usize) -> (r:
    Vec<u64>)
    requires
        labels@.len() == codes@.len(),
    ensures
        r@ == criterion::tallies(
            cross_validation::side(labels@, codes@, state, prefix, true),
            n_classes as nat,
        ),
{
    let left = cross_validation::left_side(labels, codes, state, prefix);
    class_counts(left.as_slice(), n_classes)
}

proof fn lemma_left_counts(
    labels: Seq<usize>,
    codes: Seq<u32>,
    state: u32,
    prefix: bool,
    n_classes: nat,
)
    requires
        labels.len() == codes.len(),
        labels.len() <= u64::MAX,
    ensures
        ({
            let left = criterion::tallies(
                cross_validation::side(labels, codes, state, prefix, true),
                n_classes,
            );
            let all = criterion::tallies(labels, n_classes);
            forall|c: int| 0 <= c < n_classes ==> #[trigger] left[c] <= all[c]
        }),
{
    let left = criterion::tallies(
        cross_validation::side(labels, codes, state, prefix, true),
        n_classes,
    );
    let all = criterion::tallies(labels, n_classes);
    assert forall|c: int| 0 <= c < n_classes implies #[trigger] left[c] <= all[c] by {
        histogram::lemma_side_tallies(labels, codes, state, prefix, c as nat);
        criterion::lemma_tally_bound(labels, c as nat);
    }
}

/// Scores every state of one feature by the improvement of a metric, with cut points fit on each
/// training fold.
pub fn eval_feature_objective<O: ClassObjective + ?Sized, A: Aggregator + ?Sized>(
    columns: &[Column],
    labels: &[usize],
    feature: usize,
    indices: &[usize],
    folds: &[Fold],
    n_bins: usize,
    n_classes: usize,
    objective: &O,
    aggregator: &A,
    prefix: bool,
) -> (r: Vec<ScoredCandidate>)
    requires
        aggregator.applicable(),
        feature < columns@.len(),
        cross_validation::all_below(indices@, columns@[feature as int].size()),
        folds_countable(
            columns@[feature as int],
            labels@.len(),
            cross_validation::fold_views(folds@),
        ),
    ensures
        selector::scored_views(r@) == objective_scores(
            scoring(objective),
            aggregation::ranking(aggregator),
            columns@[feature as int],
            labels@,
            feature,
            indices@,
            cross_validation::fold_views(folds@),
            n_bins as nat,
            n_classes as nat,
            prefix,
        ),
{
    let ghost views = cross_validation::fold_views(folds@);
    let ghost column = columns@[feature as int];
    let states = split_states(&columns[feature], indices, n_bins, prefix);
    let mut prepared: Vec<Option<Prepared>> = Vec::new();
    let mut f: usize = 0;
    while f < folds.len()
        invariant
            f <= folds@.len(),
            feature < columns@.len(),
            column == columns@[feature as int],
            views == cross_validation::fold_views(folds@),
            folds_countable(column, labels@.len(), views),
            prepared@.len() == f,
            forall|g: int|
                0 <= g < f ==> match #[trigger] prepared@[g] {
                    None => views[g].val.len() == 0 || views[g].train.len() == 0,
                    Some(p) => views[g].val.len() > 0 && views[g].train.len() > 0 && p.of_fold(
                        column,
                        labels@,
                        views[g],
                        n_bins as nat,
                        n_classes as nat,
                    ),
                },
        decreases folds@.len() - f,
    {
        let fold = &folds[f];
        assert(views[f as int] == fold@);
        if fold.val.len() == 0 || fold.train.len() == 0 {
            prepared.push(None);
        } else {
            let train_codes = cross_validation::codes_of(
                &columns[feature],
                fold.train.as_slice(),
                fold.train.as_slice(),
                n_bins,
            );
            let val_codes = cross_validation::codes_of(
                &columns[feature],
                fold.train.as_slice(),
                fold.val.as_slice(),
                n_bins,
            );
            let train = cross_validation::picked(labels, fold.train.as_slice());
            let val = cross_validation::picked(labels, fold.val.as_slice());
            let train_all = class_counts(train.as_slice(), n_classes);
            let val_all = class_counts(val.as_slice(), n_classes);
            prepared.push(
                Some(Prepared { val, train, val_codes, train_codes, val_all, train_all }),
            );
        }
        f += 1;
    }
    let ghost goal = objective_scores(
        scoring(objective),
        aggregation::ranking(aggregator),
        column,
        labels@,
        feature,
        indices@,
        views,
        n_bins as nat,
        n_classes as nat,
        prefix,
    );
    let mut out: Vec<ScoredCandidate> = Vec::new();
    let mut s: usize = 0;
    while s < states.len()
        invariant
            s <= states@.len(),
            aggregator.applicable(),
            views == cross_validation::fold_views(folds@),
            states@ == candidate::split_states_of(column, indices@, n_bins as nat, prefix),
            prepared@.len() == folds@.len(),
            goal == objective_scores(
                scoring(objective),
                aggregation::ranking(aggregator),
                column,
                labels@,
                feature,
                indices@,
                views,
                n_bins as nat,
                n_classes as nat,
                prefix,
            ),
            forall|g: int|
                0 <= g < prepared@.len() ==> match #[trigger] prepared@[g] {
                    None => views[g].val.len() == 0 || views[g].train.len() == 0,
                    Some(p) => views[g].val.len() > 0 && views[g].train.len() > 0 && p.of_fold(
                        column,
                        labels@,
                        views[g],
                        n_bins as nat,
                        n_classes as nat,
                    ),
                },
            out@.len() == s,
            forall|i: int| 0 <= i < s ==> #[trigger] out@[i]@ == goal[i],
        decreases states@.len() - s,
    {
        let state: u32 = states[s];
        let mut scores: Vec<Float> = Vec::new();
        let mut g: usize = 0;
        while g < prepared.len()
            invariant
                g <= prepared@.len(),
                views == cross_validation::fold_views(folds@),
                prepared@.len() == folds@.len(),
                forall|g: int|
                    0 <= g < prepared@.len() ==> match #[trigger] prepared@[g] {
                        None => views[g].val.len() == 0 || views[g].train.len() == 0,
                        Some(p) => views[g].val.len() > 0 && views[g].train.len() > 0 && p.of_fold(
                            column,
                            labels@,
                            views[g],
                            n_bins as nat,
                            n_classes as nat,
                        ),
                    },
                scores@ == objective_gains(
                    scoring(objective),
                    column,
                    labels@,
                    state,
                    views.take(g as int),
                    n_bins as nat,
                    n_classes as nat,
                    prefix,
                ),
            decreases prepared@.len() - g,
        {
            assert(views.take(g + 1).drop_last() =~= views.take(g as int));
            assert(prepared@[g as int] is None || prepared@[g as int] is Some);
            match &prepared[g] {
                None => {},
                Some(p) => {
                    let val_left = left_counts(
                        p.val.as_slice(),
                        p.val_codes.as_slice(),
                        state,
                        prefix,
                        n_classes,
                    );
                    let train_left = left_counts(
                        p.train.as_slice(),
                        p.train_codes.as_slice(),
                        state,
                        prefix,
                        n_classes,
                    );
                    proof {
                        let nv = p.val.len();
                        let nt = p.train.len();
                        lemma_left_counts(
                            p.val@,
                            p.val_codes@,
                            state,
                            prefix,
                            n_classes as nat,
                        );
                        lemma_left_counts(
                            p.train@,
                            p.train_codes@,
                            state,
                            prefix,
                            n_classes as nat,
                        );
                        histogram::lemma_tallies_sum_bound(p.val@, n_classes as nat);
                        histogram::lemma_tallies_sum_bound(p.train@, n_classes as nat);
                    }
                    match gain_on_counts(
                        objective,
                        val_left.as_slice(),
                        p.val_all.as_slice(),
                        train_left.as_slice(),
                        p.train_all.as_slice(),
                    ) {
                        Some(gain) => {
                            scores.push(gain);
                        },
                        None => {},
                    }
                },
            }
            g += 1;
        }
        assert(views.take(g as int) =~= views);
        let stats = FoldStats::from_scores(scores, folds.len());
        let score = aggregator.aggregate(&stats);
        out.push(ScoredCandidate { candidate: Candidate { feature, state }, score, stats });
        s += 1;
    }
    assert(selector::scored_views(out@) =~= goal);
    out
}

impl ClassNode {
    /// The labels of the counted samples that train in fold `f`, among the first `n`.
    pub open spec fn train_labels_to(self, f: nat, n: nat) -> Seq<usize>
        decreases n,
    {
        if n == 0 {
            Seq::empty()
        } else {
            let before = self.train_labels_to(f, (n - 1) as nat);
            if histogram::class_counted(
                self.codes,
                self.labels,
                self.order,
                self.bins,
                self.classes,
                n - 1,
            ) && self.val_fold[n - 1] != f {
                before.push(self.labels[self.order[n - 1] as int])
            } else {
                before
            }
        }
    }

    /// The bins of the counted samples that train in fold `f`, among the first `n`.
    pub open spec fn train_bins_to(self, f: nat, n: nat) -> Seq<u32>
        decreases n,
    {
        if n == 0 {
            Seq::empty()
        } else {
            let before = self.train_bins_to(f, (n - 1) as nat);
            if histogram::class_counted(
                self.codes,
                self.labels,
                self.order,
                self.bins,
                self.classes,
                n - 1,
            ) && self.val_fold[n - 1] != f {
                before.push(self.codes[self.order[n - 1] as int] as u32)
            } else {
                before
            }
        }
    }

    /// The training labels of fold `f` on the left of a split at bin `b`, among the first `n`.
    pub open spec fn train_left_to(self, f: nat, b: nat, prefix: bool, n: nat) -> Seq<usize> {
        cross_validation::side(
            self.train_labels_to(f, n),
            self.train_bins_to(f, n),
            b as u32,
            prefix,
            true,
        )
    }

    /// The improvement of a split at bin `b` over the node on fold `f`.
    pub open spec fn objective_gain_in(
        self,
        score: spec_fn(ConfusionView) -> Float,
        b: nat,
        prefix: bool,
        f: nat,
    ) -> Option<Float> {
        let n = self.order.len();
        objective_gain(
            score,
            criterion::tallies(self.left_to(f, b, prefix, n), self.classes),
            criterion::tallies(self.labels_to(f, n), self.classes),
            criterion::tallies(self.train_left_to(f, b, prefix, n), self.classes),
            criterion::tallies(self.train_labels_to(f, n), self.classes),
        )
    }

    pub(crate) proof fn lemma_train_lengths(self, f: nat, n: nat)
        ensures
            self.train_labels_to(f, n).len() == self.train_bins_to(f, n).len(),
            self.train_labels_to(f, n).len() <= n,
            forall|i: int|
                0 <= i < self.train_bins_to(f, n).len() ==> #[trigger] self.train_bins_to(f, n)[i]
                    < self.bins && self.train_bins_to(f, n)[i] < 0xffff,
        decreases n,
    {
        if n > 0 {
            self.lemma_train_lengths(f, (n - 1) as nat);
        }
    }

    proof fn lemma_train_left_step(self, f: nat, b: nat, prefix: bool, n: nat)
        ensures
            self.train_left_to(f, b, prefix, n + 1) == {
                let before = self.train_left_to(f, b, prefix, n);
                if histogram::class_counted(
                    self.codes,
                    self.labels,
                    self.order,
                    self.bins,
                    self.classes,
                    n as int,
                ) && self.val_fold[n as int] != f && cross_validation::goes_left(
                    self.codes[self.order[n as int] as int] as u32,
                    b as u32,
                    prefix,
                ) {
                    before.push(self.labels[self.order[n as int] as int])
                } else {
                    before
                }
            },
    {
        self.lemma_train_lengths(f, n);
        let s = self.order[n as int] as int;
        cross_validation::lemma_side_push(
            self.train_labels_to(f, n),
            self.train_bins_to(f, n),
            self.labels[s],
            self.codes[s] as u32,
            b as u32,
            prefix,
            true,
        );
    }

    /// How often class `c` occurs on the left of a split in the first `k` folds together.
    spec fn left_in_folds(self, b: nat, prefix: bool, c: nat, k: nat, n: nat) -> nat
        decreases k,
    {
        if k == 0 {
            0
        } else {
            self.left_in_folds(b, prefix, c, (k - 1) as nat, n) + criterion::tally(
                self.left_to((k - 1) as nat, b, prefix, n),
                c,
            )
        }
    }

    proof fn lemma_left_in_folds_step(self, b: nat, prefix: bool, c: nat, k: nat, n: nat)
        ensures
            self.left_in_folds(b, prefix, c, k, n + 1) == self.left_in_folds(b, prefix, c, k, n)
                + if histogram::class_counted(
                self.codes,
                self.labels,
                self.order,
                self.bins,
                self.classes,
                n as int,
            ) && self.val_fold[n as int] < k && cross_validation::goes_left(
                self.codes[self.order[n as int] as int] as u32,
                b as u32,
                prefix,
            ) && self.labels[self.order[n as int] as int] == c {
                1nat
            } else {
                0
            },
        decreases k,
    {
        if k > 0 {
            let f = (k - 1) as nat;
            self.lemma_left_in_folds_step(b, prefix, c, f, n);
            self.lemma_left_step(f, b, prefix, n);
            histogram::lemma_tally_push(
                self.left_to(f, b, prefix, n),
                self.labels[self.order[n as int] as int],
                c,
            );
        }
    }

    proof fn lemma_left_in_folds_zero(self, b: nat, prefix: bool, c: nat, k: nat)
        ensures
            self.left_in_folds(b, prefix, c, k, 0) == 0,
        decreases k,
    {
        if k > 0 {
            self.lemma_left_in_folds_zero(b, prefix, c, (k - 1) as nat);
        }
    }

    /// The samples of all folds together are those that validate in a fold and those that train in
    /// it.
    proof fn lemma_training_is_rest(self, f: nat, b: nat, prefix: bool, c: nat, k: nat, n: nat)
        requires
            n <= self.order.len(),
            self.readable(k),
        ensures
            self.left_in_folds(b, prefix, c, k, n) == criterion::tally(
                self.left_to(f, b, prefix, n),
                c,
            ) + criterion::tally(self.train_left_to(f, b, prefix, n), c),
            self.left_in_folds(b, prefix, c, k, n) <= n,
        decreases n,
    {
        if n == 0 {
            self.lemma_left_in_folds_zero(b, prefix, c, k);
        } else {
            let m = (n - 1) as nat;
            self.lemma_training_is_rest(f, b, prefix, c, k, m);
            self.lemma_left_in_folds_step(b, prefix, c, k, m);
            self.lemma_left_step(f, b, prefix, m);
            self.lemma_train_left_step(f, b, prefix, m);
            let x = self.labels[self.order[m as int] as int];
            histogram::lemma_tally_push(self.left_to(f, b, prefix, m), x, c);
            histogram::lemma_tally_push(self.train_left_to(f, b, prefix, m), x, c);
            assert(self.order[m as int] < self.codes.len());
        }
    }

    /// An ordered cut above the last bin has everything on its left.
    proof fn lemma_all_left(self, f: nat, n: nat)
        requires
            0 < self.bins <= u32::MAX,
        ensures
            self.left_to(f, (self.bins - 1) as nat, true, n) == self.labels_to(f, n),
            self.train_left_to(f, (self.bins - 1) as nat, true, n) == self.train_labels_to(f, n),
        decreases n,
    {
        if n > 0 {
            let m = (n - 1) as nat;
            self.lemma_all_left(f, m);
            self.lemma_left_step(f, (self.bins - 1) as nat, true, m);
            self.lemma_train_left_step(f, (self.bins - 1) as nat, true, m);
        }
    }
}

/// The improvements of a split at bin `b` on the first `k` folds, where it is valid.
pub open spec fn histogram_gains(
    node: ClassNode,
    score: spec_fn(ConfusionView) -> Float,
    b: nat,
    prefix: bool,
    k: nat,
) -> Seq<Float>
    decreases k,
{
    if k == 0 {
        Seq::empty()
    } else {
        let f = (k - 1) as nat;
        let before = histogram_gains(node, score, b, prefix, f);
        match node.objective_gain_in(score, b, prefix, f) {
            Some(gain) => before.push(gain),
            None => before,
        }
    }
}

/// The scored candidates among the first `b` bins. `k` is the number of folds.
pub open spec fn histogram_candidates(
    node: ClassNode,
    score: spec_fn(ConfusionView) -> Float,
    rank: spec_fn(cross_validation::StatsView) -> Float,
    feature: usize,
    prefix: bool,
    k: nat,
    b: nat,
) -> Seq<ScoredView>
    decreases b,
{
    if b == 0 {
        Seq::empty()
    } else {
        let at = (b - 1) as nat;
        let before = histogram_candidates(node, score, rank, feature, prefix, k, at);
        if histogram::cuttable(node.occupied(at, k), at, node.bins, prefix) {
            before.push(
                histogram::scored_as(
                    feature,
                    at as u32,
                    histogram_gains(node, score, at, prefix, k),
                    k,
                    rank,
                ),
            )
        } else {
            before
        }
    }
}

/// All scored candidates of one feature at a node, from histograms.
pub open spec fn histogram_scores(
    node: ClassNode,
    score: spec_fn(ConfusionView) -> Float,
    rank: spec_fn(cross_validation::StatsView) -> Float,
    feature: usize,
    prefix: bool,
    k: nat,
) -> Seq<ScoredView> {
    if node.classes == 0 {
        Seq::empty()
    } else {
        histogram_candidates(node, score, rank, feature, prefix, k, node.bins)
    }
}

proof fn lemma_no_folds(
    node: ClassNode,
    score: spec_fn(ConfusionView) -> Float,
    rank: spec_fn(cross_validation::StatsView) -> Float,
    feature: usize,
    prefix: bool,
    b: nat,
)
    ensures
        histogram_candidates(node, score, rank, feature, prefix, 0, b)
            == Seq::<ScoredView>::empty(),
    decreases b,
{
    if b > 0 {
        lemma_no_folds(node, score, rank, feature, prefix, (b - 1) as nat);
    }
}

/// Column `c` of the first `k` rows of a table, added up.
spec fn column_sum(table: Seq<u32>, n: int, c: int, k: nat) -> nat
    decreases k,
{
    if k == 0 {
        0
    } else {
        column_sum(table, n, c, (k - 1) as nat) + table[histogram::slot(k - 1, n, c)] as nat
    }
}

proof fn lemma_column_sum(
    node: ClassNode,
    table: Seq<u32>,
    b: nat,
    prefix: bool,
    c: nat,
    k: nat,
    all: nat,
)
    requires
        k <= all,
        c < node.classes,
        node.running(all, b, prefix, table),
    ensures
        column_sum(table, node.classes as int, c as int, k) == node.left_in_folds(
            b,
            prefix,
            c,
            k,
            node.order.len(),
        ),
    decreases k,
{
    if k > 0 {
        lemma_column_sum(node, table, b, prefix, c, (k - 1) as nat, all);
        assert(table[histogram::slot(k - 1, node.classes as int, c as int)] == criterion::tally(
            node.left_to((k - 1) as nat, b, prefix, node.order.len()),
            c,
        ));
    }
}

proof fn lemma_folds_monotone(node: ClassNode, b: nat, prefix: bool, c: nat, j: nat, k: nat, n: nat)
    requires
        j <= k,
    ensures
        node.left_in_folds(b, prefix, c, j, n) <= node.left_in_folds(b, prefix, c, k, n),
    decreases k,
{
    if j < k {
        lemma_folds_monotone(node, b, prefix, c, j, (k - 1) as nat, n);
    }
}

/// The class counts of all folds together.
fn sum_rows(
    table: &Vec<u32>,
    k: usize,
    classes: usize,
    node: Ghost<ClassNode>,
    b: Ghost<nat>,
    prefix: Ghost<bool>,
) -> (r: Vec<u64>)
    requires
        node@.classes == classes,
        node@.order.len() <= u32::MAX,
        node@.readable(k as nat),
        node@.running(k as nat, b@, prefix@, table@),
        k * classes <= usize::MAX,
    ensures
        r@.len() == classes,
        forall|c: int|
            0 <= c < classes ==> #[trigger] r@[c] == node@.left_in_folds(
                b@,
                prefix@,
                c as nat,
                k as nat,
                node@.order.len(),
            ),
{
    let ghost node = node@;
    let ghost n = node.order.len();
    let mut r: Vec<u64> = Vec::new();
    let mut c: usize = 0;
    while c < classes
        invariant
            c <= classes,
            node.classes == classes,
            n == node.order.len(),
            n <= u32::MAX,
            node.readable(k as nat),
            node.running(k as nat, b@, prefix@, table@),
            k * classes <= usize::MAX,
            r@.len() == c,
            forall|d: int|
                0 <= d < c ==> #[trigger] r@[d] == node.left_in_folds(
                    b@,
                    prefix@,
                    d as nat,
                    k as nat,
                    n,
                ),
        decreases classes - c,
    {
        let mut s: u64 = 0;
        let mut f: usize = 0;
        proof {
            node.lemma_training_is_rest(0, b@, prefix@, c as nat, k as nat, n);
        }
        while f < k
            invariant
                f <= k,
                c < classes,
                node.classes == classes,
                n == node.order.len(),
                n <= u32::MAX,
                node.running(k as nat, b@, prefix@, table@),
                node.left_in_folds(b@, prefix@, c as nat, k as nat, n) <= n,
                k * classes <= usize::MAX,
                s == column_sum(table@, classes as int, c as int, f as nat),
            decreases k - f,
        {
            proof {
                histogram::lemma_slot_bound(f as int, classes as int, c as int, k as int);
                assert(0 <= f * classes <= histogram::slot(f as int, classes as int, c as int));
                lemma_column_sum(
                    node,
                    table@,
                    b@,
                    prefix@,
                    c as nat,
                    (f + 1) as nat,
                    k as nat,
                );
                lemma_folds_monotone(
                    node,
                    b@,
                    prefix@,
                    c as nat,
                    (f + 1) as nat,
                    k as nat,
                    n,
                );
            }
            s = s + table[f * classes + c] as u64;
            f += 1;
        }
        proof {
            lemma_column_sum(node, table@, b@, prefix@, c as nat, k as nat, k as nat);
        }
        r.push(s);
        c += 1;
    }
    r
}

/// The table rows and their complements are the class counts of a fold.
proof fn lemma_fold_tables(
    node: ClassNode,
    k: nat,
    f: nat,
    b: nat,
    prefix: bool,
    run: Seq<u32>,
    left_sum: Seq<u64>,
)
    requires
        f < k,
        node.order.len() <= u32::MAX,
        node.readable(k),
        node.running(k, b, prefix, run),
        left_sum.len() == node.classes,
        forall|c: int|
            0 <= c < node.classes ==> #[trigger] left_sum[c] == node.left_in_folds(
                b,
                prefix,
                c as nat,
                k,
                node.order.len(),
            ),
    ensures
        ({
            let n = node.order.len();
            let row = Seq::new(
                node.classes,
                |c: int| run[histogram::slot(f as int, node.classes as int, c)] as u64,
            );
            &&& row == criterion::tallies(node.left_to(f, b, prefix, n), node.classes)
            &&& forall|c: int| 0 <= c < node.classes ==> #[trigger] row[c] <= left_sum[c]
            &&& histogram::minus_counts(left_sum, row) == criterion::tallies(
                node.train_left_to(f, b, prefix, n),
                node.classes,
            )
        }),
{
    let n = node.order.len();
    let row = Seq::new(
        node.classes,
        |c: int| run[histogram::slot(f as int, node.classes as int, c)] as u64,
    );
    let inside = criterion::tallies(node.left_to(f, b, prefix, n), node.classes);
    let outside = criterion::tallies(node.train_left_to(f, b, prefix, n), node.classes);
    assert forall|c: int| 0 <= c < node.classes implies #[trigger] row[c] == inside[c] && row[c]
        <= left_sum[c] && left_sum[c] - row[c] == outside[c] by {
        assert(run[histogram::slot(f as int, node.classes as int, c)] == criterion::tally(
            node.left_to(f, b, prefix, n),
            c as nat,
        ));
        node.lemma_training_is_rest(f, b, prefix, c as nat, k, n);
    }
    assert(row =~= inside);
    assert(histogram::minus_counts(left_sum, row) =~= outside);
}

/// Scores every candidate split of one feature at a node by the improvement of a metric, from
/// per-fold class histograms. The training counts of a fold are those of all folds minus its own.
/// `scratch` is left as it is.
pub fn score_classif_objective<O: ClassObjective + ?Sized, A: Aggregator + ?Sized>(
    codes: &[Bin],
    labels: &[usize],
    order: &[SampleId],
    val_fold: &[u8],
    k: usize,
    max_bin: usize,
    n_classes: usize,
    objective: &O,
    aggregator: &A,
    feature: usize,
    scratch: &mut FastScratch,
    prefix: bool,
) -> (r: Vec<ScoredCandidate>)
    requires
        aggregator.applicable(),
        max_bin <= u32::MAX,
        k * max_bin * n_classes <= usize::MAX,
        order@.len() <= u32::MAX,
        histogram::class_node(
            codes@,
            labels@,
            order@,
            val_fold@,
            max_bin as nat,
            n_classes as nat,
        ).readable(k as nat),
    ensures
        selector::scored_views(r@) == histogram_scores(
            histogram::class_node(
                codes@,
                labels@,
                order@,
                val_fold@,
                max_bin as nat,
                n_classes as nat,
            ),
            scoring(objective),
            aggregation::ranking(aggregator),
            feature,
            prefix,
            k as nat,
        ),
        *final(scratch) == *old(scratch),
{
    let bins: usize = max_bin;
    let ghost node = histogram::class_node(
        codes@,
        labels@,
        order@,
        val_fold@,
        max_bin as nat,
        n_classes as nat,
    );
    let ghost score = scoring(objective);
    let ghost rank = aggregation::ranking(aggregator);
    let mut out: Vec<ScoredCandidate> = Vec::new();
    if bins == 0 || n_classes == 0 || k == 0 {
        proof {
            lemma_no_folds(node, score, rank, feature, prefix, node.bins);
            assert(selector::scored_views(out@) =~= Seq::empty());
        }
        return out;
    }
    let mut hist: Vec<u32> = Vec::new();
    let mut tot: Vec<u32> = Vec::new();
    let mut ncnt: Vec<u32> = Vec::new();
    proof {
        assert(0 <= k * n_classes <= k * bins * n_classes) by (nonlinear_arith)
            requires
                k >= 0,
                bins > 0,
                n_classes > 0,
        ;
        assert(0 <= k * bins <= k * bins * n_classes) by (nonlinear_arith)
            requires
                k >= 0,
                bins > 0,
                n_classes > 0,
        ;
    }
    histogram::scatter_classes(
        codes,
        labels,
        order,
        val_fold,
        k,
        bins,
        n_classes,
        &mut hist,
        &mut tot,
        &mut ncnt,
    );
    let ghost top = (bins - 1) as nat;
    let ghost n = node.order.len();
    proof {
        assert forall|f: int, c: int|
            0 <= f < k && 0 <= c < n_classes implies #[trigger] tot@[histogram::slot(
            f,
            n_classes as int,
            c,
        )] == criterion::tally(node.left_to(f as nat, top, true, n), c as nat) by {
            node.lemma_all_left(f as nat, n);
        }
        assert(node.running(k as nat, top, true, tot@));
    }
    let all_sum = sum_rows(&tot, k, n_classes, Ghost(node), Ghost(top), Ghost(true));
    let mut run: Vec<u32> = vec![0u32; k * n_classes];
    let mut b: usize = 0;
    while b < bins
        invariant
            b <= bins,
            0 < bins <= u32::MAX,
            n_classes > 0,
            k > 0,
            k * bins * n_classes <= usize::MAX,
            k * bins <= usize::MAX,
            k * n_classes <= usize::MAX,
            aggregator.applicable(),
            score == scoring(objective),
            rank == aggregation::ranking(aggregator),
            node.bins == bins,
            node.classes == n_classes,
            n == node.order.len(),
            n <= u32::MAX,
            top == bins - 1,
            node.readable(k as nat),
            node.tabulated(k as nat, n, hist@, tot@, ncnt@),
            node.running(k as nat, top, true, tot@),
            all_sum@.len() == n_classes,
            forall|c: int|
                0 <= c < n_classes ==> #[trigger] all_sum@[c] == node.left_in_folds(
                    top,
                    true,
                    c as nat,
                    k as nat,
                    n,
                ),
            run@.len() == k * n_classes,
            prefix && b > 0 ==> node.running(k as nat, (b - 1) as nat, prefix, run@),
            b == 0 ==> forall|i: int| 0 <= i < run@.len() ==> #[trigger] run@[i] == 0,
            selector::scored_views(out@) == histogram_candidates(
                node,
                score,
                rank,
                feature,
                prefix,
                k as nat,
                b as nat,
            ),
        decreases bins - b,
    {
        histogram::advance(
            &mut run,
            &hist,
            k,
            bins,
            n_classes,
            b,
            prefix,
            Ghost(node),
            Ghost(tot@),
            Ghost(ncnt@),
        );
        proof {
            histogram::lemma_occupied(node, k as nat, b as nat, ncnt@, hist@, tot@);
        }
        let occupied: bool = histogram::bin_occupied(&ncnt, k, bins, b);
        if occupied && (!prefix || b + 1 < bins) {
            let left_sum = sum_rows(
                &run,
                k,
                n_classes,
                Ghost(node),
                Ghost(b as nat),
                Ghost(prefix),
            );
            let mut scores: Vec<Float> = Vec::new();
            let mut f: usize = 0;
            while f < k
                invariant
                    f <= k,
                    b < bins <= u32::MAX,
                    n_classes > 0,
                    k * n_classes <= usize::MAX,
                    score == scoring(objective),
                    node.bins == bins,
                    node.classes == n_classes,
                    n == node.order.len(),
                    n <= u32::MAX,
                    top == bins - 1,
                    node.readable(k as nat),
                    node.tabulated(k as nat, n, hist@, tot@, ncnt@),
                    node.running(k as nat, top, true, tot@),
                    node.running(k as nat, b as nat, prefix, run@),
                    all_sum@.len() == n_classes,
                    forall|c: int|
                        0 <= c < n_classes ==> #[trigger] all_sum@[c] == node.left_in_folds(
                            top,
                            true,
                            c as nat,
                            k as nat,
                            n,
                        ),
                    left_sum@.len() == n_classes,
                    forall|c: int|
                        0 <= c < n_classes ==> #[trigger] left_sum@[c] == node.left_in_folds(
                            b as nat,
                            prefix,
                            c as nat,
                            k as nat,
                            n,
                        ),
                    scores@ == histogram_gains(node, score, b as nat, prefix, f as nat),
                decreases k - f,
            {
                proof {
                    assert((f + 1) * n_classes <= k * n_classes) by (nonlinear_arith)
                        requires
                            f < k,
                            n_classes > 0,
                    ;
                    lemma_fold_tables(
                        node,
                        k as nat,
                        f as nat,
                        b as nat,
                        prefix,
                        run@,
                        left_sum@,
                    );
                    lemma_fold_tables(node, k as nat, f as nat, top, true, tot@, all_sum@);
                    node.lemma_all_left(f as nat, n);
                    node.lemma_lengths(f as nat, n);
                    node.lemma_train_lengths(f as nat, n);
                    lemma_left_counts(
                        node.labels_to(f as nat, n),
                        node.bins_to(f as nat, n),
                        b as u32,
                        prefix,
                        n_classes as nat,
                    );
                    lemma_left_counts(
                        node.train_labels_to(f as nat, n),
                        node.train_bins_to(f as nat, n),
                        b as u32,
                        prefix,
                        n_classes as nat,
                    );
                    histogram::lemma_tallies_sum_bound(
                        node.labels_to(f as nat, n),
                        n_classes as nat,
                    );
                    histogram::lemma_tallies_sum_bound(
                        node.train_labels_to(f as nat, n),
                        n_classes as nat,
                    );
                }
                let val_left = histogram::table_row(&run, f, n_classes);
                let val_all = histogram::table_row(&tot, f, n_classes);
                let train_left = histogram::subtract_counts(
                    left_sum.as_slice(),
                    val_left.as_slice(),
                );
                let train_all = histogram::subtract_counts(all_sum.as_slice(), val_all.as_slice());
                match gain_on_counts(
                    objective,
                    val_left.as_slice(),
                    val_all.as_slice(),
                    train_left.as_slice(),
                    train_all.as_slice(),
                ) {
                    Some(gain) => {
                        scores.push(gain);
                    },
                    None => {},
                }
                f += 1;
            }
            let stats = FoldStats::from_scores(scores, k);
            let score = aggregator.aggregate(&stats);
            let ghost before = out@;
            out.push(
                ScoredCandidate {
                    candidate: Candidate { feature, state: b as u32 },
                    score,
                    stats,
                },
            );
            assert(selector::scored_views(out@) =~= selector::scored_views(before).push(
                out@[before.len() as int]@,
            ));
        }
        b += 1;
    }
    out
}

} // verus!
