//! Impurity criteria: how mixed a set of targets is.

use crate::float;
use crate::float::rounding;
use crate::float::Float;
use crate::histogram;
use crate::sorting;
use crate::statistics;
use vstd::arithmetic::power2::*;
use vstd::prelude::*;

verus! {

/// Something that scores the impurity of targets; lower is purer.
pub trait Criterion<T: Copy>: Send + Sync {
    /// The impurity of the given targets; every criterion says here what it computes.
    open spec fn impurity_of(&self, targets: Seq<T>) -> Float {
        Float::zero()
    }

    /// The name of the criterion.
    open spec fn label(&self) -> Seq<char> {
        Seq::empty()
    }

    /// The impurity of the given targets. No targets have impurity zero.
    fn impurity(&self, targets: &[T]) -> (r: Float)
        ensures
            r == self.impurity_of(targets@),
    ;

    /// The name of the criterion.
    fn name(&self) -> (r: &'static str)
        ensures
            r@ == self.label(),
    ;
}

impl<T: Copy> Criterion<T> for Box<dyn Criterion<T>> {
    open spec fn impurity_of(&self, targets: Seq<T>) -> Float {
        (**self).impurity_of(targets)
    }

    open spec fn label(&self) -> Seq<char> {
        (**self).label()
    }

    fn impurity(&self, targets: &[T]) -> (r: Float) {
        (**self).impurity(targets)
    }

    fn name(&self) -> (r: &'static str) {
        (**self).name()
    }
}

/// How often class `c` occurs among `targets`.
pub open spec fn tally(targets: Seq<usize>, c: nat) -> nat
    decreases targets.len(),
{
    if targets.len() == 0 {
        0
    } else {
        tally(targets.drop_last(), c) + if targets.last() == c {
            1nat
        } else {
            0
        }
    }
}

/// How often each class below `n_classes` occurs among `targets`.
pub open spec fn tallies(targets: Seq<usize>, n_classes: nat) -> Seq<u64> {
    Seq::new(n_classes, |c: int| tally(targets, c as nat) as u64)
}

/// The fraction `c / n`.
pub open spec fn share(c: nat, n: nat) -> Float {
    Float::quotient_of(Float::of_nat(c), Float::of_nat(n))
}

/// The sum of squared class shares.
pub open spec fn squared_shares(counts: Seq<u64>, n: nat) -> Float
    decreases counts.len(),
{
    if counts.len() == 0 {
        Float::zero()
    } else {
        let p = share(counts.last() as nat, n);
        Float::sum_of(squared_shares(counts.drop_last(), n), Float::product_of(p, p))
    }
}

/// One minus the sum of squared class shares.
pub open spec fn gini_of(counts: Seq<u64>, n: nat) -> Float {
    if n == 0 {
        Float::zero()
    } else {
        Float::difference_of(Float::one(), squared_shares(counts, n))
    }
}

/// The class shares times their binary logarithms, subtracted in turn from zero.
pub open spec fn information(counts: Seq<u64>, n: nat) -> Float
    decreases counts.len(),
{
    if counts.len() == 0 {
        Float::zero()
    } else {
        let before = information(counts.drop_last(), n);
        if counts.last() > 0 {
            let p = share(counts.last() as nat, n);
            Float::difference_of(before, Float::product_of(p, Float::log2_of(p)))
        } else {
            before
        }
    }
}

/// Shannon entropy in bits.
pub open spec fn entropy_of(counts: Seq<u64>, n: nat) -> Float {
    if n == 0 {
        Float::zero()
    } else {
        information(counts, n)
    }
}

/// Population variance of `n` numbers with the given sum and sum of squares, at least zero.
pub open spec fn variance_of(n: Float, sum: Float, sumsq: Float) -> Float {
    if Float::at_most(n, Float::zero()) {
        Float::zero()
    } else {
        let mean = Float::quotient_of(sum, n);
        Float::larger_of(
            Float::difference_of(Float::quotient_of(sumsq, n), Float::product_of(mean, mean)),
            Float::zero(),
        )
    }
}

/// Variance of targets around their mean.
pub open spec fn variance_about_mean(targets: Seq<Float>) -> Float {
    if targets.len() == 0 {
        Float::zero()
    } else {
        variance_of(
            Float::of_nat(targets.len()),
            statistics::total(targets),
            statistics::total(statistics::squares(targets)),
        )
    }
}

/// Mean distance of targets from their median.
pub open spec fn deviation_from_median(targets: Seq<Float>) -> Float {
    if targets.len() == 0 {
        Float::zero()
    } else {
        let median = statistics::middle_of(sorting::in_order(targets));
        Float::quotient_of(
            statistics::total(statistics::distances(targets, median)),
            Float::of_nat(targets.len()),
        )
    }
}

/// Gini impurity from class counts, with `n` as the denominator of the shares.
pub fn gini_from_counts(counts: &[u64], n: u64) -> (r: Float)
    ensures
        r == gini_of(counts@, n as nat),
{
    if n == 0 {
        return Float::zero();
    }
    let nf = Float::from_u64(n);
    let mut acc = Float::zero();
    let mut i: usize = 0;
    while i < counts.len()
        invariant
            i <= counts@.len(),
            nf == Float::of_nat(n as nat),
            acc == squared_shares(counts@.take(i as int), n as nat),
        decreases counts@.len() - i,
    {
        assert(counts@.take(i + 1).drop_last() =~= counts@.take(i as int));
        let p = Float::from_u64(counts[i]).over(nf);
        acc = acc.plus(p.times(p));
        i += 1;
    }
    assert(counts@.take(i as int) =~= counts@);
    Float::one().minus(acc)
}

/// Shannon entropy in bits from class counts, with `n` as the denominator of the shares.
pub fn entropy_from_counts(counts: &[u64], n: u64) -> (r: Float)
    ensures
        r == entropy_of(counts@, n as nat),
{
    if n == 0 {
        return Float::zero();
    }
    let nf = Float::from_u64(n);
    let mut acc = Float::zero();
    let mut i: usize = 0;
    while i < counts.len()
        invariant
            i <= counts@.len(),
            nf == Float::of_nat(n as nat),
            acc == information(counts@.take(i as int), n as nat),
        decreases counts@.len() - i,
    {
        assert(counts@.take(i + 1).drop_last() =~= counts@.take(i as int));
        if counts[i] > 0 {
            let p = Float::from_u64(counts[i]).over(nf);
            acc = acc.minus(p.times(p.log2()));
        }
        i += 1;
    }
    assert(counts@.take(i as int) =~= counts@);
    acc
}

/// Population variance from the moments `n`, sum and sum of squares, clamped at zero.
pub fn variance_from_moments(n: Float, sum: Float, sumsq: Float) -> (r: Float)
    ensures
        r == variance_of(n, sum, sumsq),
{
    if n.le(Float::zero()) {
        return Float::zero();
    }
    let mean = sum.over(n);
    sumsq.over(n).minus(mean.times(mean)).max(Float::zero())
}

/// A class occurs at most as often as there are targets.
pub proof fn lemma_tally_bound(targets: Seq<usize>, c: nat)
    ensures
        tally(targets, c) <= targets.len(),
    decreases targets.len(),
{
    if targets.len() > 0 {
        lemma_tally_bound(targets.drop_last(), c);
    }
}

/// Counts each class below `n_classes`; other labels are ignored.
pub fn class_counts(targets: &[usize], n_classes: usize) -> (r: Vec<u64>)
    ensures
        r@ == tallies(targets@, n_classes as nat),
{
    let mut counts: Vec<u64> = vec![0u64; n_classes];
    let mut i: usize = 0;
    while i < targets.len()
        invariant
            i <= targets@.len(),
            counts@.len() == n_classes,
            forall|c: int|
                0 <= c < n_classes ==> #[trigger] counts@[c] == tally(
                    targets@.take(i as int),
                    c as nat,
                ),
        decreases targets@.len() - i,
    {
        let t: usize = targets[i];
        assert(targets@.take(i + 1).drop_last() =~= targets@.take(i as int));
        if t < n_classes {
            proof {
                lemma_tally_bound(targets@.take(i as int), t as nat);
            }
            counts[t] = counts[t] + 1;
        }
        i += 1;
    }
    assert(targets@.take(i as int) =~= targets@);
    assert(counts@ =~= tallies(targets@, n_classes as nat));
    counts
}

/// Gini impurity. Labels that are no class are ignored.
#[derive(Clone, Debug)]
pub struct Gini {
    /// Number of classes.
    pub n_classes: usize,
}

impl Gini {
    /// A Gini criterion for `n_classes` classes.
    pub fn new(n_classes: usize) -> (r: Gini)
        ensures
            r.n_classes == n_classes,
    {
        Gini { n_classes }
    }
}

impl Criterion<usize> for Gini {
    open spec fn impurity_of(&self, targets: Seq<usize>) -> Float {
        let counts = tallies(targets, self.n_classes as nat);
        gini_of(counts, histogram::sum_of_counts(counts))
    }

    open spec fn label(&self) -> Seq<char> {
        "gini"@
    }

    fn impurity(&self, targets: &[usize]) -> (r: Float) {
        let counts = class_counts(targets, self.n_classes);
        proof {
            assert(targets@.len() == targets.len());
            histogram::lemma_tallies_sum_bound(targets@, self.n_classes as nat);
        }
        gini_from_counts(counts.as_slice(), histogram::sum_counts(counts.as_slice()))
    }

    fn name(&self) -> (r: &'static str) {
        "gini"
    }
}

/// Shannon entropy in bits. Labels that are no class are ignored.
#[derive(Clone, Debug)]
pub struct Entropy {
    /// Number of classes.
    pub n_classes: usize,
}

impl Entropy {
    /// An entropy criterion for `n_classes` classes.
    pub fn new(n_classes: usize) -> (r: Entropy)
        ensures
            r.n_classes == n_classes,
    {
        Entropy { n_classes }
    }
}

impl Criterion<usize> for Entropy {
    open spec fn impurity_of(&self, targets: Seq<usize>) -> Float {
        let counts = tallies(targets, self.n_classes as nat);
        entropy_of(counts, histogram::sum_of_counts(counts))
    }

    open spec fn label(&self) -> Seq<char> {
        "entropy"@
    }

    fn impurity(&self, targets: &[usize]) -> (r: Float) {
        let counts = class_counts(targets, self.n_classes);
        proof {
            assert(targets@.len() == targets.len());
            histogram::lemma_tallies_sum_bound(targets@, self.n_classes as nat);
        }
        entropy_from_counts(counts.as_slice(), histogram::sum_counts(counts.as_slice()))
    }

    fn name(&self) -> (r: &'static str) {
        "entropy"
    }
}

/// Population variance around the mean.
#[derive(Clone, Debug, Default)]
pub struct Variance;

impl Criterion<Float> for Variance {
    open spec fn impurity_of(&self, targets: Seq<Float>) -> Float {
        variance_about_mean(targets)
    }

    open spec fn label(&self) -> Seq<char> {
        "variance"@
    }

    fn impurity(&self, targets: &[Float]) -> (r: Float) {
        if targets.len() == 0 {
            return Float::zero();
        }
        variance_from_moments(
            statistics::count(targets.len()),
            statistics::sum(targets),
            statistics::sum_squares(targets),
        )
    }

    fn name(&self) -> (r: &'static str) {
        "variance"
    }
}

/// Mean squared error of predicting the mean, which is the variance.
#[derive(Clone, Debug, Default)]
pub struct Mse;

impl Criterion<Float> for Mse {
    open spec fn impurity_of(&self, targets: Seq<Float>) -> Float {
        variance_about_mean(targets)
    }

    open spec fn label(&self) -> Seq<char> {
        "mse"@
    }

    fn impurity(&self, targets: &[Float]) -> (r: Float) {
        Variance.impurity(targets)
    }

    fn name(&self) -> (r: &'static str) {
        "mse"
    }
}

/// Mean absolute error of predicting the median.
#[derive(Clone, Debug, Default)]
pub struct Mae;

impl Criterion<Float> for Mae {
    open spec fn impurity_of(&self, targets: Seq<Float>) -> Float {
        deviation_from_median(targets)
    }

    open spec fn label(&self) -> Seq<char> {
        "mae"@
    }

    fn impurity(&self, targets: &[Float]) -> (r: Float) {
        if targets.len() == 0 {
            return Float::zero();
        }
        let v = sorting::sorted(targets);
        proof {
            sorting::law_in_order(targets@);
        }
        let median = statistics::middle(v.as_slice());
        statistics::sum_distances(targets, median).over(statistics::count(targets.len()))
    }

    fn name(&self) -> (r: &'static str) {
        "mae"
    }
}

/// No targets have impurity zero under every criterion.
pub proof fn law_empty_is_pure(gini: Gini, entropy: Entropy)
    ensures
        gini.impurity_of(Seq::empty()) == Float::zero(),
        entropy.impurity_of(Seq::empty()) == Float::zero(),
        Variance.impurity_of(Seq::empty()) == Float::zero(),
        Mse.impurity_of(Seq::empty()) == Float::zero(),
        Mae.impurity_of(Seq::empty()) == Float::zero(),
{
    histogram::lemma_tallies_sum(Seq::empty(), gini.n_classes as nat);
    histogram::lemma_tallies_sum(Seq::empty(), entropy.n_classes as nat);
}

/// Mean squared error and variance agree on all targets.
pub proof fn law_mse_is_variance(targets: Seq<Float>)
    ensures
        Mse.impurity_of(targets) == Variance.impurity_of(targets),
{
}

proof fn lemma_pure_tally(labels: Seq<usize>, c: usize, d: nat)
    requires
        forall|i: int| 0 <= i < labels.len() ==> #[trigger] labels[i] == c,
    ensures
        tally(labels, d) == if c == d {
            labels.len()
        } else {
            0
        },
    decreases labels.len(),
{
    if labels.len() > 0 {
        let rest = labels.drop_last();
        assert forall|i: int| 0 <= i < rest.len() implies #[trigger] rest[i] == c by {
            assert(rest[i] == labels[i]);
        }
        lemma_pure_tally(rest, c, d);
        assert(labels[labels.len() - 1] == c);
    }
}

/// The sums over the classes of a node with one class.
proof fn lemma_pure_sums(counts: Seq<u64>, n: nat, c: nat)
    requires
        0 < n <= u64::MAX,
        forall|i: int|
            0 <= i < counts.len() ==> #[trigger] counts[i] == if i == c {
                n
            } else {
                0
            },
    ensures
        squared_shares(counts, n) == if c < counts.len() {
            Float::one()
        } else {
            Float::zero()
        },
        information(counts, n) == Float::zero(),
    decreases counts.len(),
{
    if counts.len() > 0 {
        let d = counts.drop_last();
        assert forall|i: int| 0 <= i < d.len() implies #[trigger] d[i] == if i == c {
            n
        } else {
            0
        } by {
            assert(d[i] == counts[i]);
        }
        lemma_pure_sums(d, n, c);
        let last = counts[counts.len() - 1];
        rounding::law_natural_is_finite(n);
        rounding::law_natural_is_finite(0);
        rounding::lemma_one();
        if d.len() == c {
            rounding::law_self_quotient(Float::of_nat(n));
            rounding::law_times_one(Float::one());
            rounding::law_plus_zero(Float::one());
            rounding::law_logarithm_of_one();
            rounding::law_times_one(Float::zero());
            rounding::law_self_difference(Float::zero());
        } else {
            rounding::law_zero_quotient(Float::of_nat(n));
            rounding::law_zero_product(Float::zero());
            rounding::law_plus_zero(Float::one());
            rounding::law_plus_zero(Float::zero());
        }
    }
}

/// A node with only one class has no impurity.
pub proof fn law_one_class_is_pure(labels: Seq<usize>, c: usize, n_classes: usize)
    requires
        0 < labels.len() <= u64::MAX,
        c < n_classes,
        forall|i: int| 0 <= i < labels.len() ==> #[trigger] labels[i] == c,
    ensures
        (Gini { n_classes }).impurity_of(labels) == Float::zero(),
        (Entropy { n_classes }).impurity_of(labels) == Float::zero(),
{
    let n = labels.len();
    let counts = tallies(labels, n_classes as nat);
    assert forall|i: int| 0 <= i < counts.len() implies #[trigger] counts[i] == if i == c {
        n
    } else {
        0
    } by {
        lemma_pure_tally(labels, c, i as nat);
    }
    histogram::lemma_tallies_sum(labels, n_classes as nat);
    lemma_pure_sums(counts, n, c as nat);
    rounding::lemma_one();
    rounding::law_self_difference(Float::one());
}

/// The labels that are classes, in their order.
pub open spec fn classes_only(labels: Seq<usize>, n_classes: nat) -> Seq<usize>
    decreases labels.len(),
{
    if labels.len() == 0 {
        Seq::empty()
    } else {
        let before = classes_only(labels.drop_last(), n_classes);
        if labels.last() < n_classes {
            before.push(labels.last())
        } else {
            before
        }
    }
}

proof fn lemma_classes_only(labels: Seq<usize>, n_classes: nat, c: nat)
    requires
        c < n_classes,
    ensures
        tally(classes_only(labels, n_classes), c) == tally(labels, c),
    decreases labels.len(),
{
    if labels.len() > 0 {
        lemma_classes_only(labels.drop_last(), n_classes, c);
        if labels.last() < n_classes {
            let before = classes_only(labels.drop_last(), n_classes);
            assert(before.push(labels.last()).drop_last() =~= before);
        }
    }
}

/// Labels that are no class do not change the impurity.
pub proof fn law_other_labels_are_ignored(labels: Seq<usize>, n_classes: usize)
    ensures
        (Gini { n_classes }).impurity_of(labels) == (Gini { n_classes }).impurity_of(
            classes_only(labels, n_classes as nat),
        ),
        (Entropy { n_classes }).impurity_of(labels) == (Entropy { n_classes }).impurity_of(
            classes_only(labels, n_classes as nat),
        ),
{
    let kept = classes_only(labels, n_classes as nat);
    let a = tallies(labels, n_classes as nat);
    let b = tallies(kept, n_classes as nat);
    assert forall|c: int| 0 <= c < n_classes implies #[trigger] a[c] == b[c] by {
        lemma_classes_only(labels, n_classes as nat, c as nat);
    }
    assert(a =~= b);
}

/// A variance is never below zero, whatever the moments.
pub proof fn law_variance_is_not_negative(n: Float, sum: Float, sumsq: Float)
    ensures
        Float::at_most(Float::zero(), variance_of(n, sum, sumsq)),
{
}

/// A share of a whole is a number from zero to one.
pub proof fn law_share_is_a_fraction(c: nat, n: nat)
    requires
        c <= n,
        0 < n <= u64::MAX,
    ensures
        Float::at_most(Float::zero(), share(c, n)),
        Float::at_most(share(c, n), Float::one()),
{
    let a = Float::of_nat(c);
    let b = Float::of_nat(n);
    let u = pow2(float::UNIT_EXP as nat);
    let v = float::magval(a.mag());
    let w = float::magval(b.mag());
    rounding::law_natural_is_finite(c);
    rounding::law_natural_is_finite(n);
    assert(c * u <= n * u) by (nonlinear_arith)
        requires
            c <= n,
    ;
    rounding::law_rounding_is_monotone(c * u, n * u, 1);
    rounding::law_rounding_exists(c * u, 1);
    rounding::law_rounding_exists(n * u, 1);
    assert(a.mag() <= b.mag());
    float::lemma_magval_increases(0, b.mag());
    if a.mag() < b.mag() {
        float::lemma_magval_increases(a.mag(), b.mag());
    }
    assert(v * u <= w * u) by (nonlinear_arith)
        requires
            v <= w,
    ;
    rounding::law_rounding_is_monotone(v * u, w * u, w);
    rounding::law_self_quotient(b);
    rounding::law_rounding_exists(v * u, w);
    rounding::law_rounding_exists(w * u, w);
}

} // verus!
