//! What the metrics compute from confusion counts.

use crate::float::rounding;
use crate::float::Float;
use crate::histogram;
use crate::laws::summaries;
use crate::objective;
use crate::objective::{
    Accuracy, Average, ClassObjective, ConfusionView, FBeta, Precision, Rate, Recall, F1,
};
use crate::statistics;
use vstd::prelude::*;

verus! {

/// Whether a score is the average of a metric: its value for the positive class, its mean over the
/// classes, its mean over the samples, or its value for all counts together.
pub open spec fn is_averaged(
    cm: ConfusionView,
    average: Average,
    classes: Seq<Float>,
    together: Float,
    score: Float,
) -> bool {
    match average {
        Average::Binary { pos_label } => score == if pos_label < cm.n_classes {
            classes[pos_label as int]
        } else {
            Float::zero()
        },
        Average::Macro => if cm.n_classes == 0 {
            score == Float::zero()
        } else {
            summaries::is_mean(classes, score)
        },
        Average::Weighted => if cm.total == 0 {
            score == Float::zero()
        } else {
            exists|w: Seq<Float>, t: Seq<Float>| #[trigger]
                weighted_by(cm.support, classes, w) && #[trigger] summaries::running_sums(w, t)
                    && score == Float::quotient_of(t[w.len() as int], Float::of_nat(cm.total))
        },
        Average::Micro => score == together,
    }
}

/// Whether `w` holds each number times its weight.
pub open spec fn weighted_by(weights: Seq<u64>, x: Seq<Float>, w: Seq<Float>) -> bool {
    &&& w.len() == x.len()
    &&& forall|c: int|
        0 <= c < x.len() ==> #[trigger] w[c] == Float::product_of(
            Float::of_nat(weights[c] as nat),
            x[c],
        )
}

/// `a / b` for counts, or zero when `b` is zero.
pub open spec fn part(a: nat, b: nat) -> Float {
    if b == 0 {
        Float::zero()
    } else {
        Float::quotient_of(Float::of_nat(a), Float::of_nat(b))
    }
}

proof fn lemma_rates(cm: ConfusionView, rate: Rate, by_support: bool, x: Seq<Float>, k: nat)
    requires
        k <= x.len(),
        forall|c: int|
            0 <= c < x.len() ==> #[trigger] x[c] == if by_support {
                Float::product_of(
                    Float::of_nat(cm.support[c] as nat),
                    rate.of_counts(cm.tp[c] as nat, cm.fp[c] as nat, cm.fn_[c] as nat),
                )
            } else {
                rate.of_counts(cm.tp[c] as nat, cm.fp[c] as nat, cm.fn_[c] as nat)
            },
    ensures
        objective::rates_to(cm, rate, by_support, k) == statistics::total(x.take(k as int)),
    decreases k,
{
    if k > 0 {
        lemma_rates(cm, rate, by_support, x, (k - 1) as nat);
        assert(x.take(k as int).drop_last() =~= x.take(k - 1));
        assert(x.take(k as int).last() == x[k - 1]);
    }
}

proof fn lemma_averaged(cm: ConfusionView, average: Average, rate: Rate, classes: Seq<Float>)
    requires
        cm.shaped(),
        classes.len() == cm.n_classes,
        forall|c: int|
            0 <= c < classes.len() ==> #[trigger] classes[c] == rate.of_counts(
                cm.tp[c] as nat,
                cm.fp[c] as nat,
                cm.fn_[c] as nat,
            ),
    ensures
        is_averaged(
            cm,
            average,
            classes,
            rate.of_counts(
                histogram::sum_of_counts(cm.tp),
                histogram::sum_of_counts(cm.fp),
                histogram::sum_of_counts(cm.fn_),
            ),
            objective::averaged_rate(cm, average, rate),
        ),
{
    let n = cm.n_classes;
    let score = objective::averaged_rate(cm, average, rate);
    match average {
        Average::Macro => {
            lemma_rates(cm, rate, false, classes, n);
            assert(classes.take(n as int) =~= classes);
            summaries::law_mean(classes, score);
        },
        Average::Weighted => {
            let w = Seq::new(
                n,
                |c: int| Float::product_of(Float::of_nat(cm.support[c] as nat), classes[c]),
            );
            lemma_rates(cm, rate, true, w, n);
            assert(w.take(n as int) =~= w);
            let t = summaries::lemma_running_sums(w);
            assert(weighted_by(cm.support, classes, w));
        },
        _ => {},
    }
}

/// The metric of counts is a quotient, or zero when the divisor is.
proof fn lemma_part(a: nat, b: nat)
    requires
        b <= u64::MAX,
    ensures
        objective::ratio(Float::of_nat(a), Float::of_nat(b)) == part(a, b),
{
    rounding::law_natural_is_finite(b);
}

/// Precision is the share of true positives among the samples predicted to be of a class.
pub proof fn law_precision(m: Precision, cm: ConfusionView, classes: Seq<Float>)
    requires
        cm.countable(),
        classes.len() == cm.n_classes,
        forall|c: int|
            0 <= c < classes.len() ==> #[trigger] classes[c] == part(
                cm.tp[c] as nat,
                (cm.tp[c] + cm.fp[c]) as nat,
            ),
    ensures
        is_averaged(
            cm,
            m.average,
            classes,
            part(
                histogram::sum_of_counts(cm.tp),
                histogram::sum_of_counts(cm.tp) + histogram::sum_of_counts(cm.fp),
            ),
            m.score_of(cm),
        ),
{
    assert forall|c: int| 0 <= c < classes.len() implies #[trigger] classes[c]
        == Rate::Precision.of_counts(cm.tp[c] as nat, cm.fp[c] as nat, cm.fn_[c] as nat) by {
        objective::lemma_entry_bound(cm.tp, c);
        objective::lemma_entry_bound(cm.fp, c);
        lemma_part(cm.tp[c] as nat, (cm.tp[c] + cm.fp[c]) as nat);
    }
    lemma_part(
        histogram::sum_of_counts(cm.tp),
        histogram::sum_of_counts(cm.tp) + histogram::sum_of_counts(cm.fp),
    );
    lemma_averaged(cm, m.average, Rate::Precision, classes);
}

/// Recall is the share of true positives among the samples of a class.
pub proof fn law_recall(m: Recall, cm: ConfusionView, classes: Seq<Float>)
    requires
        cm.countable(),
        classes.len() == cm.n_classes,
        forall|c: int|
            0 <= c < classes.len() ==> #[trigger] classes[c] == part(
                cm.tp[c] as nat,
                (cm.tp[c] + cm.fn_[c]) as nat,
            ),
    ensures
        is_averaged(
            cm,
            m.average,
            classes,
            part(
                histogram::sum_of_counts(cm.tp),
                histogram::sum_of_counts(cm.tp) + histogram::sum_of_counts(cm.fn_),
            ),
            m.score_of(cm),
        ),
{
    assert forall|c: int| 0 <= c < classes.len() implies #[trigger] classes[c]
        == Rate::Recall.of_counts(cm.tp[c] as nat, cm.fp[c] as nat, cm.fn_[c] as nat) by {
        objective::lemma_entry_bound(cm.tp, c);
        objective::lemma_entry_bound(cm.fn_, c);
        lemma_part(cm.tp[c] as nat, (cm.tp[c] + cm.fn_[c]) as nat);
    }
    lemma_part(
        histogram::sum_of_counts(cm.tp),
        histogram::sum_of_counts(cm.tp) + histogram::sum_of_counts(cm.fn_),
    );
    lemma_averaged(cm, m.average, Rate::Recall, classes);
}

/// `2 tp / (2 tp + fp + fn)`, or zero when the divisor is.
pub open spec fn f1_value(tp: nat, fp: nat, fnn: nat) -> Float {
    if 2 * tp + fp + fnn == 0 {
        Float::zero()
    } else {
        Float::quotient_of(
            Float::product_of(Float::of_nat(2), Float::of_nat(tp)),
            Float::of_nat(2 * tp + fp + fnn),
        )
    }
}

/// F1 is twice the true positives over those and all errors.
pub proof fn law_f1(m: F1, cm: ConfusionView, classes: Seq<Float>)
    requires
        cm.countable(),
        classes.len() == cm.n_classes,
        forall|c: int|
            0 <= c < classes.len() ==> #[trigger] classes[c] == f1_value(
                cm.tp[c] as nat,
                cm.fp[c] as nat,
                cm.fn_[c] as nat,
            ),
    ensures
        is_averaged(
            cm,
            m.average,
            classes,
            f1_value(
                histogram::sum_of_counts(cm.tp),
                histogram::sum_of_counts(cm.fp),
                histogram::sum_of_counts(cm.fn_),
            ),
            m.score_of(cm),
        ),
{
    rounding::law_one_and_two();
    assert forall|c: int| 0 <= c < classes.len() implies #[trigger] classes[c]
        == Rate::F1.of_counts(cm.tp[c] as nat, cm.fp[c] as nat, cm.fn_[c] as nat) by {
        objective::lemma_entry_bound(cm.tp, c);
        objective::lemma_entry_bound(cm.fp, c);
        objective::lemma_entry_bound(cm.fn_, c);
        rounding::law_natural_is_finite((2 * cm.tp[c] + cm.fp[c] + cm.fn_[c]) as nat);
    }
    rounding::law_natural_is_finite(
        2 * histogram::sum_of_counts(cm.tp) + histogram::sum_of_counts(cm.fp)
            + histogram::sum_of_counts(cm.fn_),
    );
    lemma_averaged(cm, m.average, Rate::F1, classes);
}

/// `(1 + b^2) tp / ((1 + b^2) tp + b^2 fn + fp)`, or zero when the divisor is not positive.
pub open spec fn fbeta_value(beta: Float, tp: nat, fp: nat, fnn: nat) -> Float {
    let square = Float::product_of(beta, beta);
    let top = Float::product_of(Float::sum_of(Float::of_nat(1), square), Float::of_nat(tp));
    let bottom = Float::sum_of(
        Float::sum_of(top, Float::product_of(square, Float::of_nat(fnn))),
        Float::of_nat(fp),
    );
    if Float::below(Float::of_nat(0), bottom) {
        Float::quotient_of(top, bottom)
    } else {
        Float::of_nat(0)
    }
}

/// F-beta weighs missed samples by the square of beta.
pub proof fn law_fbeta(m: FBeta, cm: ConfusionView, classes: Seq<Float>)
    requires
        cm.shaped(),
        classes.len() == cm.n_classes,
        forall|c: int|
            0 <= c < classes.len() ==> #[trigger] classes[c] == fbeta_value(
                m.beta,
                cm.tp[c] as nat,
                cm.fp[c] as nat,
                cm.fn_[c] as nat,
            ),
    ensures
        is_averaged(
            cm,
            m.average,
            classes,
            fbeta_value(
                m.beta,
                histogram::sum_of_counts(cm.tp),
                histogram::sum_of_counts(cm.fp),
                histogram::sum_of_counts(cm.fn_),
            ),
            m.score_of(cm),
        ),
{
    rounding::law_one_and_two();
    rounding::law_natural_is_finite(0);
    let rate = Rate::FBeta { b: Float::product_of(m.beta, m.beta) };
    lemma_averaged(cm, m.average, rate, classes);
}

/// Accuracy is the share of all samples that are predicted right.
pub proof fn law_accuracy(cm: ConfusionView)
    requires
        cm.total <= u64::MAX,
    ensures
        Accuracy.score_of(cm) == part(histogram::sum_of_counts(cm.tp), cm.total),
{
    rounding::law_natural_is_finite(cm.total);
}

} // verus!
