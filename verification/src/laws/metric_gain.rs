//! What a split gains in a metric.

use crate::criterion;
use crate::cross_validation;
use crate::cross_validation::FoldView;
use crate::data::Column;
use crate::float::Float;
use crate::histogram;
use crate::histogram::ClassNode;
use crate::laws::counting;
use crate::objective;
use crate::objective::ConfusionView;
use vstd::prelude::*;

verus! {

/// How many of the first `n` samples are here and have label `c`.
pub open spec fn how_often(
    n: nat,
    here: spec_fn(int) -> bool,
    label: spec_fn(int) -> nat,
    c: nat,
) -> nat {
    counting::count_where(n, counting::labelled(here, label, c))
}

/// Whether `m` is the most frequent label among the first `n` samples that are here; of labels that
/// are equally frequent, the lowest.
pub open spec fn is_majority(
    n: nat,
    here: spec_fn(int) -> bool,
    label: spec_fn(int) -> nat,
    n_classes: nat,
    m: nat,
) -> bool {
    &&& m < n_classes
    &&& forall|c: nat|
        c < n_classes ==> #[trigger] how_often(n, here, label, c) <= how_often(n, here, label, m)
    &&& forall|c: nat|
        c < m ==> #[trigger] how_often(n, here, label, c) < how_often(n, here, label, m)
}

/// The samples for which it holds or not that they are of class `c`, and that they are predicted to
/// be.
pub open spec fn judged(
    truth: spec_fn(int) -> nat,
    predicted: spec_fn(int) -> nat,
    c: int,
    is_c: bool,
    called_c: bool,
) -> spec_fn(int) -> bool {
    |i: int| (truth(i) == c) == is_c && (predicted(i) == c) == called_c
}

/// Whether `cm` counts how the first `n` samples are predicted.
pub open spec fn is_confusion(
    cm: ConfusionView,
    n_classes: nat,
    n: nat,
    truth: spec_fn(int) -> nat,
    predicted: spec_fn(int) -> nat,
) -> bool {
    &&& cm.n_classes == n_classes
    &&& cm.tp.len() == n_classes
    &&& cm.fp.len() == n_classes
    &&& cm.fn_.len() == n_classes
    &&& cm.support.len() == n_classes
    &&& cm.total == n
    &&& forall|c: int|
        0 <= c < n_classes ==> #[trigger] cm.tp[c] == counting::count_where(
            n,
            judged(truth, predicted, c, true, true),
        )
    &&& forall|c: int|
        0 <= c < n_classes ==> #[trigger] cm.fp[c] == counting::count_where(
            n,
            judged(truth, predicted, c, false, true),
        )
    &&& forall|c: int|
        0 <= c < n_classes ==> #[trigger] cm.fn_[c] == counting::count_where(
            n,
            judged(truth, predicted, c, true, false),
        )
    &&& forall|c: int|
        0 <= c < n_classes ==> #[trigger] cm.support[c] == counting::count_where(
            n,
            judged(truth, predicted, c, true, true),
        ) + counting::count_where(n, judged(truth, predicted, c, true, false))
}

/// The predictions of the two children of a split.
pub open spec fn child_predictions(
    codes: Seq<u32>,
    state: u32,
    prefix: bool,
    pl: nat,
    pr: nat,
) -> spec_fn(int) -> nat {
    |i: int|
        if counting::on_left(codes[i], state, prefix) {
            pl
        } else {
            pr
        }
}

/// What both sides of a split count together.
proof fn lemma_predictions_of_sides(
    labels: Seq<usize>,
    codes: Seq<u32>,
    state: u32,
    prefix: bool,
    pl: nat,
    pr: nat,
    c: nat,
    n: nat,
)
    ensures
        ({
            let left = counting::on_side(codes, state, prefix, true);
            let right = counting::on_side(codes, state, prefix, false);
            let truth = counting::labels_at(labels);
            let predicted = child_predictions(codes, state, prefix, pl, pr);
            let l = counting::count_where(n, counting::labelled(left, truth, c));
            let r = counting::count_where(n, counting::labelled(right, truth, c));
            let nl = counting::count_where(n, left);
            let nr = counting::count_where(n, right);
            let at = c as int;
            &&& counting::count_where(n, judged(truth, predicted, at, true, true)) == (if pl == c {
                l as int
            } else {
                0
            }) + (if pr == c {
                r as int
            } else {
                0
            })
            &&& counting::count_where(n, judged(truth, predicted, at, false, true)) == (if pl == c {
                nl - l
            } else {
                0
            }) + (if pr == c {
                nr - r
            } else {
                0
            })
            &&& counting::count_where(n, judged(truth, predicted, at, true, false)) == (if pl != c {
                l as int
            } else {
                0
            }) + (if pr != c {
                r as int
            } else {
                0
            })
            &&& nl + nr == n
            &&& l <= nl
            &&& r <= nr
        }),
    decreases n,
{
    if n > 0 {
        lemma_predictions_of_sides(labels, codes, state, prefix, pl, pr, c, (n - 1) as nat);
    }
}

/// The confusion counts of two groups are those of their samples.
proof fn lemma_grouped_twice(
    labels: Seq<usize>,
    codes: Seq<u32>,
    state: u32,
    prefix: bool,
    n_classes: nat,
    pl: nat,
    pr: nat,
    cm: ConfusionView,
)
    requires
        labels.len() == codes.len(),
        labels.len() <= u64::MAX,
        forall|i: int| 0 <= i < labels.len() ==> #[trigger] labels[i] < n_classes,
        pl < n_classes,
        pr < n_classes,
        is_confusion(
            cm,
            n_classes,
            labels.len(),
            counting::labels_at(labels),
            child_predictions(codes, state, prefix, pl, pr),
        ),
    ensures
        ({
            let left = criterion::tallies(
                cross_validation::side(labels, codes, state, prefix, true),
                n_classes,
            );
            let right = criterion::tallies(
                cross_validation::side(labels, codes, state, prefix, false),
                n_classes,
            );
            objective::undivided(pl, left).grouped(pr, right) == cm
        }),
{
    let n = labels.len();
    let ls = cross_validation::side(labels, codes, state, prefix, true);
    let rs = cross_validation::side(labels, codes, state, prefix, false);
    let left = criterion::tallies(ls, n_classes);
    let right = criterion::tallies(rs, n_classes);
    let got = objective::undivided(pl, left).grouped(pr, right);
    lemma_sides_in_range(labels, codes, state, prefix, n_classes);
    assert(left.take(n_classes as int) =~= left);
    assert(right.take(n_classes as int) =~= right);
    assert forall|c: int|
        #![trigger got.tp[c]]
        #![trigger got.fp[c]]
        #![trigger got.fn_[c]]
        #![trigger got.support[c]]
        0 <= c < n_classes implies {
        &&& got.tp[c] == cm.tp[c]
        &&& got.fp[c] == cm.fp[c]
        &&& got.fn_[c] == cm.fn_[c]
        &&& got.support[c] == cm.support[c]
    } by {
        lemma_predictions_of_sides(labels, codes, state, prefix, pl, pr, c as nat, n);
        counting::law_side_counts(labels, codes, state, prefix, true, c as nat);
        counting::law_side_counts(labels, codes, state, prefix, false, c as nat);
        criterion::lemma_tally_bound(ls, c as nat);
        criterion::lemma_tally_bound(rs, c as nat);
        assert(cm.tp[c] + cm.fn_[c] == cm.support[c]);
        assert(cm.fp[c] <= n);
    }
    assert(got.tp =~= cm.tp);
    assert(got.fp =~= cm.fp);
    assert(got.fn_ =~= cm.fn_);
    assert(got.support =~= cm.support);
    assert(got =~= cm);
}

/// The sides of a split hold all labels, each of them a class.
proof fn lemma_sides_in_range(
    labels: Seq<usize>,
    codes: Seq<u32>,
    state: u32,
    prefix: bool,
    n_classes: nat,
)
    requires
        labels.len() == codes.len(),
        labels.len() <= u64::MAX,
        forall|i: int| 0 <= i < labels.len() ==> #[trigger] labels[i] < n_classes,
    ensures
        ({
            let ls = cross_validation::side(labels, codes, state, prefix, true);
            let rs = cross_validation::side(labels, codes, state, prefix, false);
            &&& ls.len() + rs.len() == labels.len()
            &&& histogram::sum_of_counts(criterion::tallies(ls, n_classes)) == ls.len()
            &&& histogram::sum_of_counts(criterion::tallies(rs, n_classes)) == rs.len()
            &&& histogram::sum_of_counts(criterion::tallies(labels, n_classes)) == labels.len()
        }),
{
    let ls = cross_validation::side(labels, codes, state, prefix, true);
    let rs = cross_validation::side(labels, codes, state, prefix, false);
    let ok = |x: usize| x < n_classes;
    cross_validation::lemma_side_len(labels, codes, state, prefix);
    cross_validation::lemma_side_members(labels, codes, state, prefix, true, ok);
    cross_validation::lemma_side_members(labels, codes, state, prefix, false, ok);
    assert forall|i: int| 0 <= i < ls.len() implies #[trigger] ls[i] < n_classes by {
        assert(ok(ls[i]));
    }
    assert forall|i: int| 0 <= i < rs.len() implies #[trigger] rs[i] < n_classes by {
        assert(ok(rs[i]));
    }
    histogram::lemma_tallies_sum(ls, n_classes);
    histogram::lemma_tallies_sum(rs, n_classes);
    histogram::lemma_tallies_sum(labels, n_classes);
}

/// The confusion counts of one group are those of its samples.
proof fn lemma_grouped_once(labels: Seq<usize>, n_classes: nat, p: nat, cm: ConfusionView)
    requires
        labels.len() <= u64::MAX,
        forall|i: int| 0 <= i < labels.len() ==> #[trigger] labels[i] < n_classes,
        p < n_classes,
        is_confusion(cm, n_classes, labels.len(), counting::labels_at(labels), always(p)),
    ensures
        objective::undivided(p, criterion::tallies(labels, n_classes)) == cm,
{
    let n = labels.len();
    let counts = criterion::tallies(labels, n_classes);
    let got = objective::undivided(p, counts);
    let truth = counting::labels_at(labels);
    histogram::lemma_tallies_sum(labels, n_classes);
    assert(counts.take(n_classes as int) =~= counts);
    assert forall|c: int|
        #![trigger got.tp[c]]
        #![trigger got.fp[c]]
        #![trigger got.fn_[c]]
        #![trigger got.support[c]]
        0 <= c < n_classes implies {
        &&& got.tp[c] == cm.tp[c]
        &&& got.fp[c] == cm.fp[c]
        &&& got.fn_[c] == cm.fn_[c]
        &&& got.support[c] == cm.support[c]
    } by {
        lemma_predictions_of_all(labels, p, c as nat, n);
        counting::law_label_counts(labels, c as nat);
        criterion::lemma_tally_bound(labels, c as nat);
        assert(cm.tp[c] + cm.fn_[c] == cm.support[c]);
        assert(cm.fp[c] <= n);
    }
    assert(got.tp =~= cm.tp);
    assert(got.fp =~= cm.fp);
    assert(got.fn_ =~= cm.fn_);
    assert(got.support =~= cm.support);
    assert(got =~= cm);
}

/// The same prediction for all samples.
pub open spec fn always(p: nat) -> spec_fn(int) -> nat {
    |i: int| p
}

proof fn lemma_predictions_of_all(labels: Seq<usize>, p: nat, c: nat, n: nat)
    ensures
        ({
            let truth = counting::labels_at(labels);
            let l = counting::count_where(
                n,
                counting::labelled(counting::everywhere(), truth, c),
            );
            let at = c as int;
            &&& counting::count_where(n, judged(truth, always(p), at, true, true)) == (if p == c {
                l as int
            } else {
                0
            })
            &&& counting::count_where(n, judged(truth, always(p), at, false, true)) == (if p == c {
                n - l
            } else {
                0
            })
            &&& counting::count_where(n, judged(truth, always(p), at, true, false)) == (if p != c {
                l as int
            } else {
                0
            })
            &&& l <= n
        }),
    decreases n,
{
    if n > 0 {
        lemma_predictions_of_all(labels, p, c, (n - 1) as nat);
    }
}

/// The most frequent label is the leader of the label counts.
proof fn lemma_majority_leads(
    labels: Seq<usize>,
    here: spec_fn(int) -> bool,
    chosen: Seq<usize>,
    n_classes: nat,
    m: nat,
)
    requires
        labels.len() <= u64::MAX,
        chosen.len() <= u64::MAX,
        is_majority(labels.len(), here, counting::labels_at(labels), n_classes, m),
        forall|c: nat|
            c < n_classes ==> #[trigger] criterion::tally(chosen, c) == how_often(
                labels.len(),
                here,
                counting::labels_at(labels),
                c,
            ),
    ensures
        objective::leader(criterion::tallies(chosen, n_classes)) == m,
{
    let n = labels.len();
    let truth = counting::labels_at(labels);
    let counts = criterion::tallies(chosen, n_classes);
    assert forall|j: int| 0 <= j < n_classes implies #[trigger] counts[j] == how_often(
        n,
        here,
        truth,
        j as nat,
    ) by {
        criterion::lemma_tally_bound(chosen, j as nat);
    }
    assert forall|j: int| 0 <= j < counts.len() implies #[trigger] counts[j] <= counts[m as int] by {
        assert(how_often(n, here, truth, j as nat) <= how_often(n, here, truth, m));
    }
    assert forall|j: int| 0 <= j < m implies #[trigger] counts[j] < counts[m as int] by {
        assert(how_often(n, here, truth, j as nat) < how_often(n, here, truth, m));
    }
    objective::law_leader_is_unique(counts, m);
}

/// A split gains in a metric what its children's predictions score on the validation samples more
/// than the node's: every sample is predicted the most frequent training label, of its side for the
/// split and of all for the node. Without training and validation samples on both sides the split
/// is not valid.
pub proof fn law_metric_gain(
    score: spec_fn(ConfusionView) -> Float,
    val: Seq<usize>,
    val_codes: Seq<u32>,
    train: Seq<usize>,
    train_codes: Seq<u32>,
    state: u32,
    prefix: bool,
    n_classes: nat,
    pl: nat,
    pr: nat,
    pn: nat,
    split: ConfusionView,
    node: ConfusionView,
)
    requires
        val.len() == val_codes.len() <= u64::MAX,
        train.len() == train_codes.len() <= u64::MAX,
        forall|i: int| 0 <= i < val.len() ==> #[trigger] val[i] < n_classes,
        forall|i: int| 0 <= i < train.len() ==> #[trigger] train[i] < n_classes,
        is_majority(
            train.len(),
            counting::on_side(train_codes, state, prefix, true),
            counting::labels_at(train),
            n_classes,
            pl,
        ),
        is_majority(
            train.len(),
            counting::on_side(train_codes, state, prefix, false),
            counting::labels_at(train),
            n_classes,
            pr,
        ),
        is_majority(
            train.len(),
            counting::everywhere(),
            counting::labels_at(train),
            n_classes,
            pn,
        ),
        is_confusion(
            split,
            n_classes,
            val.len(),
            counting::labels_at(val),
            child_predictions(val_codes, state, prefix, pl, pr),
        ),
        is_confusion(node, n_classes, val.len(), counting::labels_at(val), always(pn)),
    ensures
        ({
            let gain = objective::objective_gain(
                score,
                criterion::tallies(
                    cross_validation::side(val, val_codes, state, prefix, true),
                    n_classes,
                ),
                criterion::tallies(val, n_classes),
                criterion::tallies(
                    cross_validation::side(train, train_codes, state, prefix, true),
                    n_classes,
                ),
                criterion::tallies(train, n_classes),
            );
            let valid = forall|left: bool|
                0 < #[trigger] side_size(val_codes, state, prefix, left) && 0 < side_size(
                    train_codes,
                    state,
                    prefix,
                    left,
                );
            &&& valid ==> gain == Some(Float::difference_of(score(split), score(node)))
            &&& !valid ==> gain is None
        }),
{
    let vl = cross_validation::side(val, val_codes, state, prefix, true);
    let vr = cross_validation::side(val, val_codes, state, prefix, false);
    let tl = cross_validation::side(train, train_codes, state, prefix, true);
    let tr = cross_validation::side(train, train_codes, state, prefix, false);
    histogram::law_counts_score_labels(
        histogram::ClassImpurityKind::Gini,
        val,
        val_codes,
        n_classes,
        state,
        prefix,
    );
    histogram::law_counts_score_labels(
        histogram::ClassImpurityKind::Gini,
        train,
        train_codes,
        n_classes,
        state,
        prefix,
    );
    lemma_sides_in_range(val, val_codes, state, prefix, n_classes);
    lemma_sides_in_range(train, train_codes, state, prefix, n_classes);
    counting::law_side_counts(val, val_codes, state, prefix, true, 0);
    counting::law_side_counts(val, val_codes, state, prefix, false, 0);
    counting::law_side_counts(train, train_codes, state, prefix, true, 0);
    counting::law_side_counts(train, train_codes, state, prefix, false, 0);
    assert(side_size(val_codes, state, prefix, true) == vl.len());
    assert(side_size(val_codes, state, prefix, false) == vr.len());
    assert(side_size(train_codes, state, prefix, true) == tl.len());
    assert(side_size(train_codes, state, prefix, false) == tr.len());
    lemma_grouped_twice(val, val_codes, state, prefix, n_classes, pl, pr, split);
    lemma_grouped_once(val, n_classes, pn, node);
    assert forall|c: nat| c < n_classes implies #[trigger] criterion::tally(tl, c) == how_often(
        train.len(),
        counting::on_side(train_codes, state, prefix, true),
        counting::labels_at(train),
        c,
    ) by {
        counting::law_side_counts(train, train_codes, state, prefix, true, c);
    }
    assert forall|c: nat| c < n_classes implies #[trigger] criterion::tally(tr, c) == how_often(
        train.len(),
        counting::on_side(train_codes, state, prefix, false),
        counting::labels_at(train),
        c,
    ) by {
        counting::law_side_counts(train, train_codes, state, prefix, false, c);
    }
    assert forall|c: nat| c < n_classes implies #[trigger] criterion::tally(train, c) == how_often(
        train.len(),
        counting::everywhere(),
        counting::labels_at(train),
        c,
    ) by {
        counting::law_label_counts(train, c);
    }
    lemma_majority_leads(
        train,
        counting::on_side(train_codes, state, prefix, true),
        tl,
        n_classes,
        pl,
    );
    lemma_majority_leads(
        train,
        counting::on_side(train_codes, state, prefix, false),
        tr,
        n_classes,
        pr,
    );
    lemma_majority_leads(train, counting::everywhere(), train, n_classes, pn);
}

/// How many samples are on one side of a split.
pub open spec fn side_size(codes: Seq<u32>, state: u32, prefix: bool, left: bool) -> nat {
    counting::count_where(codes.len(), counting::on_side(codes, state, prefix, left))
}

/// The gain of a split in a metric on one fold of a column: the training samples choose the classes,
/// the validation samples are scored.
pub proof fn law_metric_gain_on_fold(
    score: spec_fn(ConfusionView) -> Float,
    column: Column,
    labels: Seq<usize>,
    state: u32,
    fold: FoldView,
    n_bins: nat,
    n_classes: nat,
    prefix: bool,
    pl: nat,
    pr: nat,
    pn: nat,
    split: ConfusionView,
    whole: ConfusionView,
)
    requires
        ({
            let val = cross_validation::pick(labels, fold.val);
            let val_codes = cross_validation::coded(column, fold.train, fold.val, n_bins);
            let train = cross_validation::pick(labels, fold.train);
            let train_codes = cross_validation::coded(column, fold.train, fold.train, n_bins);
            &&& val.len() <= u64::MAX
            &&& train.len() <= u64::MAX
            &&& forall|i: int| 0 <= i < val.len() ==> #[trigger] val[i] < n_classes
            &&& forall|i: int| 0 <= i < train.len() ==> #[trigger] train[i] < n_classes
            &&& is_majority(
                train.len(),
                counting::on_side(train_codes, state, prefix, true),
                counting::labels_at(train),
                n_classes,
                pl,
            )
            &&& is_majority(
                train.len(),
                counting::on_side(train_codes, state, prefix, false),
                counting::labels_at(train),
                n_classes,
                pr,
            )
            &&& is_majority(
                train.len(),
                counting::everywhere(),
                counting::labels_at(train),
                n_classes,
                pn,
            )
            &&& is_confusion(
                split,
                n_classes,
                val.len(),
                counting::labels_at(val),
                child_predictions(val_codes, state, prefix, pl, pr),
            )
            &&& is_confusion(whole, n_classes, val.len(), counting::labels_at(val), always(pn))
        }),
    ensures
        ({
            let val_codes = cross_validation::coded(column, fold.train, fold.val, n_bins);
            let train_codes = cross_validation::coded(column, fold.train, fold.train, n_bins);
            let gain = objective::objective_gain_on(
                score,
                column,
                labels,
                state,
                fold,
                n_bins,
                n_classes,
                prefix,
            );
            let valid = forall|left: bool|
                0 < #[trigger] side_size(val_codes, state, prefix, left) && 0 < side_size(
                    train_codes,
                    state,
                    prefix,
                    left,
                );
            &&& valid ==> gain == Some(Float::difference_of(score(split), score(whole)))
            &&& !valid ==> gain is None
        }),
{
    let val = cross_validation::pick(labels, fold.val);
    let val_codes = cross_validation::coded(column, fold.train, fold.val, n_bins);
    let train = cross_validation::pick(labels, fold.train);
    let train_codes = cross_validation::coded(column, fold.train, fold.train, n_bins);
    law_metric_gain(
        score,
        val,
        val_codes,
        train,
        train_codes,
        state,
        prefix,
        n_classes,
        pl,
        pr,
        pn,
        split,
        whole,
    );
}

/// The gain of a split in a metric on one fold of a node of binned samples.
pub proof fn law_metric_gain_in_histogram(
    score: spec_fn(ConfusionView) -> Float,
    node: ClassNode,
    state: u32,
    f: nat,
    n_classes: nat,
    prefix: bool,
    pl: nat,
    pr: nat,
    pn: nat,
    split: ConfusionView,
    whole: ConfusionView,
)
    requires
        node.classes == n_classes,
        ({
            let val = node.labels_to(f, node.order.len());
            let val_codes = node.bins_to(f, node.order.len());
            let train = node.train_labels_to(f, node.order.len());
            let train_codes = node.train_bins_to(f, node.order.len());
            &&& val.len() <= u64::MAX
            &&& train.len() <= u64::MAX
            &&& forall|i: int| 0 <= i < val.len() ==> #[trigger] val[i] < n_classes
            &&& forall|i: int| 0 <= i < train.len() ==> #[trigger] train[i] < n_classes
            &&& is_majority(
                train.len(),
                counting::on_side(train_codes, state, prefix, true),
                counting::labels_at(train),
                n_classes,
                pl,
            )
            &&& is_majority(
                train.len(),
                counting::on_side(train_codes, state, prefix, false),
                counting::labels_at(train),
                n_classes,
                pr,
            )
            &&& is_majority(
                train.len(),
                counting::everywhere(),
                counting::labels_at(train),
                n_classes,
                pn,
            )
            &&& is_confusion(
                split,
                n_classes,
                val.len(),
                counting::labels_at(val),
                child_predictions(val_codes, state, prefix, pl, pr),
            )
            &&& is_confusion(whole, n_classes, val.len(), counting::labels_at(val), always(pn))
        }),
    ensures
        ({
            let val_codes = node.bins_to(f, node.order.len());
            let train_codes = node.train_bins_to(f, node.order.len());
            let gain = node.objective_gain_in(score, state as nat, prefix, f);
            let valid = forall|left: bool|
                0 < #[trigger] side_size(val_codes, state, prefix, left) && 0 < side_size(
                    train_codes,
                    state,
                    prefix,
                    left,
                );
            &&& valid ==> gain == Some(Float::difference_of(score(split), score(whole)))
            &&& !valid ==> gain is None
        }),
{
    let val = node.labels_to(f, node.order.len());
    let val_codes = node.bins_to(f, node.order.len());
    let train = node.train_labels_to(f, node.order.len());
    let train_codes = node.train_bins_to(f, node.order.len());
    node.lemma_lengths(f, node.order.len());
    node.lemma_train_lengths(f, node.order.len());
    law_metric_gain(
        score,
        val,
        val_codes,
        train,
        train_codes,
        state,
        prefix,
        n_classes,
        pl,
        pr,
        pn,
        split,
        whole,
    );
}

} // verus!
