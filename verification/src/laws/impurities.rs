//! What impurities measure, and what a split decreases them by.

use crate::criterion;
use crate::criterion::{Criterion, Entropy, Gini, Mae, Mse, Variance};
use crate::cross_validation;
use crate::float::Float;
use crate::histogram;
use crate::laws::counting;
use crate::laws::leaves;
use crate::laws::summaries;
use crate::sorting;
use crate::statistics;
use vstd::prelude::*;

verus! {

/// The share of a class among the labels that are classes.
pub open spec fn class_share(labels: Seq<usize>, n_classes: nat, c: nat) -> Float {
    Float::quotient_of(
        Float::of_nat(
            counting::count_where(
                labels.len(),
                counting::labelled(counting::everywhere(), counting::labels_at(labels), c),
            ),
        ),
        Float::of_nat(counting::count_where(labels.len(), leaves::known_labels(labels, n_classes))),
    )
}

proof fn lemma_shares(labels: Seq<usize>, n_classes: nat, c: nat)
    requires
        labels.len() <= u64::MAX,
        c < n_classes,
    ensures
        ({
            let counts = criterion::tallies(labels, n_classes);
            criterion::share(counts[c as int] as nat, histogram::sum_of_counts(counts))
                == class_share(labels, n_classes, c)
        }),
{
    leaves::lemma_known_total(labels, n_classes);
    counting::law_label_counts(labels, c);
    criterion::lemma_tally_bound(labels, c);
}

/// Gini impurity is one less the sum of the squared class shares; zero when no label is a class.
pub proof fn law_gini(g: Gini, labels: Seq<usize>, squares: Seq<Float>, t: Seq<Float>)
    requires
        labels.len() <= u64::MAX,
        squares.len() == g.n_classes,
        forall|c: int|
            0 <= c < squares.len() ==> #[trigger] squares[c] == {
                let p = class_share(labels, g.n_classes as nat, c as nat);
                Float::product_of(p, p)
            },
        summaries::running_sums(squares, t),
    ensures
        (exists|i: int| 0 <= i < labels.len() && #[trigger] labels[i] < g.n_classes)
            ==> g.impurity_of(labels) == Float::difference_of(
            Float::of_nat(1),
            t[squares.len() as int],
        ),
        (forall|i: int| 0 <= i < labels.len() ==> #[trigger] labels[i] >= g.n_classes)
            ==> g.impurity_of(labels) == Float::zero(),
{
    let k = g.n_classes as nat;
    let counts = criterion::tallies(labels, k);
    let n = histogram::sum_of_counts(counts);
    lemma_some_known(labels, k);
    crate::float::rounding::law_one_and_two();
    summaries::law_total(squares, t);
    assert forall|c: int| 0 <= c < k implies #[trigger] squares[c] == {
        let p = criterion::share(counts[c] as nat, n);
        Float::product_of(p, p)
    } by {
        lemma_shares(labels, k, c as nat);
    }
    lemma_squared_shares(counts, n, squares, k);
    assert(counts.take(k as int) =~= counts);
    assert(squares.take(k as int) =~= squares);
}

proof fn lemma_some_known(labels: Seq<usize>, n_classes: nat)
    requires
        labels.len() <= u64::MAX,
    ensures
        histogram::sum_of_counts(criterion::tallies(labels, n_classes)) > 0 <==> exists|i: int|
            0 <= i < labels.len() && #[trigger] labels[i] < n_classes,
{
    let known = leaves::known_labels(labels, n_classes);
    leaves::lemma_known_total(labels, n_classes);
    counting::lemma_count_positive(labels.len(), known);
    if exists|i: int| 0 <= i < labels.len() && #[trigger] labels[i] < n_classes {
        let i = choose|i: int| 0 <= i < labels.len() && #[trigger] labels[i] < n_classes;
        assert(known(i));
    }
    if exists|i: int| 0 <= i < labels.len() && #[trigger] known(i) {
        let i = choose|i: int| 0 <= i < labels.len() && #[trigger] known(i);
        assert(labels[i] < n_classes);
    }
}

proof fn lemma_squared_shares(counts: Seq<u64>, n: nat, squares: Seq<Float>, k: nat)
    requires
        k <= counts.len(),
        squares.len() == counts.len(),
        forall|c: int|
            0 <= c < squares.len() ==> #[trigger] squares[c] == {
                let p = criterion::share(counts[c] as nat, n);
                Float::product_of(p, p)
            },
    ensures
        criterion::squared_shares(counts.take(k as int), n) == statistics::total(
            squares.take(k as int),
        ),
    decreases k,
{
    if k > 0 {
        lemma_squared_shares(counts, n, squares, (k - 1) as nat);
        assert(counts.take(k as int).drop_last() =~= counts.take(k - 1));
        assert(squares.take(k as int).drop_last() =~= squares.take(k - 1));
        assert(squares.take(k as int).last() == squares[k - 1]);
    }
}

/// Whether `t` holds what is left of zero after taking away, class by class, each share times its
/// binary logarithm. A class that does not occur takes nothing.
pub open spec fn remaining(labels: Seq<usize>, n_classes: nat, t: Seq<Float>) -> bool {
    &&& t.len() == n_classes + 1
    &&& t[0] == Float::zero()
    &&& forall|c: int|
        0 <= c < n_classes ==> #[trigger] t[c + 1] == {
            let p = class_share(labels, n_classes, c as nat);
            if labels.contains(c as usize) {
                Float::difference_of(t[c], Float::product_of(p, Float::log2_of(p)))
            } else {
                t[c]
            }
        }
}

/// Entropy is zero less the sum of class shares times their binary logarithms.
pub proof fn law_entropy(e: Entropy, labels: Seq<usize>, t: Seq<Float>)
    requires
        labels.len() <= u64::MAX,
        remaining(labels, e.n_classes as nat, t),
    ensures
        (exists|i: int| 0 <= i < labels.len() && #[trigger] labels[i] < e.n_classes)
            ==> e.impurity_of(labels) == t[e.n_classes as int],
        (forall|i: int| 0 <= i < labels.len() ==> #[trigger] labels[i] >= e.n_classes)
            ==> e.impurity_of(labels) == Float::zero(),
{
    let k = e.n_classes as nat;
    let counts = criterion::tallies(labels, k);
    lemma_some_known(labels, k);
    lemma_information(labels, k, t, k);
    assert(counts.take(k as int) =~= counts);
}

proof fn lemma_information(labels: Seq<usize>, n_classes: nat, t: Seq<Float>, k: nat)
    requires
        labels.len() <= u64::MAX,
        remaining(labels, n_classes, t),
        k <= n_classes <= usize::MAX,
    ensures
        ({
            let counts = criterion::tallies(labels, n_classes);
            criterion::information(counts.take(k as int), histogram::sum_of_counts(counts))
                == t[k as int]
        }),
    decreases k,
{
    let counts = criterion::tallies(labels, n_classes);
    if k > 0 {
        let c = k - 1;
        lemma_information(labels, n_classes, t, c as nat);
        assert(counts.take(k as int).drop_last() =~= counts.take(c));
        lemma_shares(labels, n_classes, c as nat);
        counting::law_label_counts(labels, c as nat);
        criterion::lemma_tally_bound(labels, c as nat);
        let has = counting::labelled(
            counting::everywhere(),
            counting::labels_at(labels),
            c as nat,
        );
        counting::lemma_count_positive(labels.len(), has);
        if labels.contains(c as usize) {
            let i = choose|i: int| 0 <= i < labels.len() && labels[i] == c as usize;
            assert(has(i));
        }
        if exists|i: int| 0 <= i < labels.len() && #[trigger] has(i) {
            let i = choose|i: int| 0 <= i < labels.len() && #[trigger] has(i);
            assert(labels[i] == c as usize);
        }
        assert(t[c + 1] == t[k as int]);
    }
}

/// Variance and mean squared error are the mean square less the square of the mean, at least zero;
/// zero without targets.
pub proof fn law_variance(targets: Seq<Float>, squares: Seq<Float>, mean: Float, mean_square: Float)
    requires
        targets.len() <= u64::MAX,
        squares.len() == targets.len(),
        forall|i: int|
            0 <= i < targets.len() ==> #[trigger] squares[i] == Float::product_of(
                targets[i],
                targets[i],
            ),
        summaries::is_mean(targets, mean),
        summaries::is_mean(squares, mean_square),
    ensures
        targets.len() == 0 ==> Variance.impurity_of(targets) == Float::zero(),
        targets.len() > 0 ==> {
            let v = Float::difference_of(mean_square, Float::product_of(mean, mean));
            Variance.impurity_of(targets) == if v.nan() || Float::below(v, Float::zero()) {
                Float::zero()
            } else {
                v
            }
        },
        Mse.impurity_of(targets) == Variance.impurity_of(targets),
{
    summaries::law_mean(targets, mean);
    summaries::law_mean(squares, mean_square);
    assert(statistics::squares(targets) =~= squares);
    if targets.len() > 0 {
        crate::float::rounding::law_natural_is_finite(targets.len());
        crate::float::rounding::lemma_one();
    }
}

/// Mean absolute error is the mean distance from the median; zero without targets.
pub proof fn law_mean_absolute_error(
    targets: Seq<Float>,
    a: Seq<Float>,
    median: Float,
    distances: Seq<Float>,
    mean: Float,
)
    requires
        summaries::arranges(targets, a),
        summaries::is_median(a, median),
        distances.len() == targets.len(),
        forall|i: int|
            0 <= i < targets.len() ==> {
                let d = Float::difference_of(targets[i], median);
                #[trigger] distances[i] == if d.negative() {
                    d.negated()
                } else {
                    d
                }
            },
        summaries::is_mean(distances, mean),
    ensures
        targets.len() == 0 ==> Mae.impurity_of(targets) == Float::zero(),
        targets.len() > 0 ==> Mae.impurity_of(targets) == mean,
{
    if targets.len() > 0 {
        summaries::lemma_arranged(targets, a);
        summaries::lemma_two();
        summaries::law_mean(distances, mean);
        let n = targets.len() as int;
        assert(n % 2 == 1 ==> (n - 1) / 2 == n / 2);
        assert(statistics::middle_of(sorting::in_order(targets)) == median);
        assert(statistics::distances(targets, median) =~= distances);
    }
}

/// Whether `positions` lists, in rising order, the numbers below `n` that have a property.
pub open spec fn selects(n: nat, has: spec_fn(int) -> bool, positions: Seq<int>) -> bool {
    &&& forall|i: int, j: int|
        0 <= i < j < positions.len() ==> #[trigger] positions[i] < #[trigger] positions[j]
    &&& forall|i: int|
        0 <= i < positions.len() ==> 0 <= #[trigger] positions[i] < n && has(positions[i])
    &&& forall|x: int| 0 <= x < n && #[trigger] has(x) ==> positions.contains(x)
}

/// The items of a side are those at the positions of the side.
pub proof fn law_side_items<T>(
    items: Seq<T>,
    codes: Seq<u32>,
    state: u32,
    prefix: bool,
    left: bool,
    positions: Seq<int>,
)
    requires
        items.len() == codes.len(),
        selects(codes.len(), counting::on_side(codes, state, prefix, left), positions),
    ensures
        cross_validation::side(items, codes, state, prefix, left) == Seq::new(
            positions.len(),
            |i: int| items[positions[i]],
        ),
    decreases codes.len(),
{
    let has = counting::on_side(codes, state, prefix, left);
    let goal = Seq::new(positions.len(), |i: int| items[positions[i]]);
    if codes.len() == 0 {
        if positions.len() > 0 {
            let p = positions[0];
            assert(has(p));
        }
        assert(cross_validation::side(items, codes, state, prefix, left) =~= goal);
    } else {
        let d = items.drop_last();
        let e = codes.drop_last();
        let m = e.len() as int;
        let less = counting::on_side(e, state, prefix, left);
        assert(items =~= d.push(items.last()));
        assert(codes =~= e.push(codes.last()));
        cross_validation::lemma_side_push(d, e, items.last(), codes.last(), state, prefix, left);
        assert forall|x: int| 0 <= x < m implies #[trigger] less(x) == has(x) by {}
        if has(m) {
            assert(positions.contains(m));
            let q = choose|q: int| 0 <= q < positions.len() && positions[q] == m;
            if q < positions.len() - 1 {
                assert(positions[q] < positions[positions.len() - 1]);
            }
            let rest = positions.drop_last();
            assert forall|i: int| 0 <= i < rest.len() implies 0 <= #[trigger] rest[i] < m && less(
                rest[i],
            ) by {
                assert(rest[i] == positions[i]);
                assert(positions[i] < positions[q]);
            }
            assert forall|x: int| 0 <= x < m && #[trigger] less(x) implies rest.contains(x) by {
                assert(has(x));
                assert(positions.contains(x));
                let i = choose|i: int| 0 <= i < positions.len() && positions[i] == x;
                assert(rest[i] == x);
            }
            law_side_items(d, e, state, prefix, left, rest);
            assert(cross_validation::side(items, codes, state, prefix, left) =~= goal);
        } else {
            assert forall|i: int| 0 <= i < positions.len() implies 0 <= #[trigger] positions[i] < m
                && less(positions[i]) by {
                assert(has(positions[i]));
            }
            assert forall|x: int| 0 <= x < m && #[trigger] less(x) implies positions.contains(x) by {
                assert(has(x));
            }
            law_side_items(d, e, state, prefix, left, positions);
            assert(cross_validation::side(items, codes, state, prefix, left) =~= goal);
        }
    }
}

/// A split decreases impurity by that of all targets less those of both sides, each weighted by the
/// part of the targets that it holds. With a side too small it is not valid.
pub proof fn law_impurity_decrease<T>(
    impurity: spec_fn(Seq<T>) -> Float,
    targets: Seq<T>,
    codes: Seq<u32>,
    state: u32,
    min_child: nat,
    prefix: bool,
    lp: Seq<int>,
    rp: Seq<int>,
)
    requires
        targets.len() == codes.len(),
        selects(codes.len(), counting::on_side(codes, state, prefix, true), lp),
        selects(codes.len(), counting::on_side(codes, state, prefix, false), rp),
    ensures
        ({
            let gain = cross_validation::fold_gain(
                impurity,
                targets,
                codes,
                state,
                min_child,
                prefix,
            );
            let l = Seq::new(lp.len(), |i: int| targets[lp[i]]);
            let r = Seq::new(rp.len(), |i: int| targets[rp[i]]);
            &&& lp.len() < min_child || rp.len() < min_child ==> gain is None
            &&& lp.len() >= min_child && rp.len() >= min_child ==> gain == Some(
                Float::difference_of(
                    impurity(targets),
                    Float::quotient_of(
                        Float::sum_of(
                            Float::product_of(Float::of_nat(lp.len()), impurity(l)),
                            Float::product_of(Float::of_nat(rp.len()), impurity(r)),
                        ),
                        Float::of_nat(targets.len()),
                    ),
                ),
            )
        }),
{
    law_side_items(targets, codes, state, prefix, true, lp);
    law_side_items(targets, codes, state, prefix, false, rp);
}

} // verus!
