//! Sums, means and medians of numbers, in a fixed order of evaluation.

use crate::float::Float;
use vstd::prelude::*;

verus! {

/// The sum of `s`, added up from the front.
pub open spec fn total(s: Seq<Float>) -> Float
    decreases s.len(),
{
    if s.len() == 0 {
        Float::zero()
    } else {
        Float::sum_of(total(s.drop_last()), s.last())
    }
}

/// The squares of `s`.
pub open spec fn squares(s: Seq<Float>) -> Seq<Float> {
    Seq::new(s.len(), |i: int| Float::product_of(s[i], s[i]))
}

/// The squared distances of `s` from `center`.
pub open spec fn squared_distances(s: Seq<Float>, center: Float) -> Seq<Float> {
    squares(Seq::new(s.len(), |i: int| Float::difference_of(s[i], center)))
}

/// The distances of `s` from `center`.
pub open spec fn distances(s: Seq<Float>, center: Float) -> Seq<Float> {
    Seq::new(s.len(), |i: int| Float::make(false, Float::difference_of(s[i], center).mag()))
}

/// The sum of `s` divided by its length.
pub open spec fn mean_of(s: Seq<Float>) -> Float {
    Float::quotient_of(total(s), Float::of_nat(s.len()))
}

/// The middle of an ascending sequence: its middle element, or the mean of the two middle ones.
pub open spec fn middle_of(s: Seq<Float>) -> Float {
    let h = (s.len() / 2) as int;
    if s.len() % 2 == 1 {
        s[h]
    } else {
        Float::quotient_of(Float::sum_of(s[h - 1], s[h]), Float::two())
    }
}

/// The sum of the given numbers.
pub fn sum(values: &[Float]) -> (r: Float)
    ensures
        r == total(values@),
{
    let mut acc = Float::zero();
    let mut i: usize = 0;
    while i < values.len()
        invariant
            i <= values@.len(),
            acc == total(values@.take(i as int)),
        decreases values@.len() - i,
    {
        assert(values@.take(i + 1).drop_last() =~= values@.take(i as int));
        acc = acc.plus(values[i]);
        i += 1;
    }
    assert(values@.take(i as int) =~= values@);
    acc
}

/// The sum of the squares of the given numbers.
pub fn sum_squares(values: &[Float]) -> (r: Float)
    ensures
        r == total(squares(values@)),
{
    let mut acc = Float::zero();
    let mut i: usize = 0;
    let ghost s = squares(values@);
    while i < values.len()
        invariant
            i <= values@.len(),
            s == squares(values@),
            acc == total(s.take(i as int)),
        decreases values@.len() - i,
    {
        assert(s.take(i + 1).drop_last() =~= s.take(i as int));
        acc = acc.plus(values[i].times(values[i]));
        i += 1;
    }
    assert(s.take(i as int) =~= s);
    acc
}

/// The sum of the squared distances from `center`.
pub fn sum_squared_distances(values: &[Float], center: Float) -> (r: Float)
    ensures
        r == total(squared_distances(values@, center)),
{
    let mut acc = Float::zero();
    let mut i: usize = 0;
    let ghost s = squared_distances(values@, center);
    while i < values.len()
        invariant
            i <= values@.len(),
            s == squared_distances(values@, center),
            acc == total(s.take(i as int)),
        decreases values@.len() - i,
    {
        assert(s.take(i + 1).drop_last() =~= s.take(i as int));
        let d = values[i].minus(center);
        acc = acc.plus(d.times(d));
        i += 1;
    }
    assert(s.take(i as int) =~= s);
    acc
}

/// The sum of the distances from `center`.
pub fn sum_distances(values: &[Float], center: Float) -> (r: Float)
    ensures
        r == total(distances(values@, center)),
{
    let mut acc = Float::zero();
    let mut i: usize = 0;
    let ghost s = distances(values@, center);
    while i < values.len()
        invariant
            i <= values@.len(),
            s == distances(values@, center),
            acc == total(s.take(i as int)),
        decreases values@.len() - i,
    {
        assert(s.take(i + 1).drop_last() =~= s.take(i as int));
        acc = acc.plus(values[i].minus(center).abs());
        i += 1;
    }
    assert(s.take(i as int) =~= s);
    acc
}

/// A count as a number.
pub fn count(n: usize) -> (r: Float)
    ensures
        r == Float::of_nat(n as nat),
{
    Float::from_u64(n as u64)
}

/// The mean of at least one number.
pub fn mean(values: &[Float]) -> (r: Float)
    requires
        values@.len() > 0,
    ensures
        r == mean_of(values@),
{
    sum(values).over(count(values.len()))
}

/// The median of numbers in ascending order.
pub fn middle(sorted: &[Float]) -> (r: Float)
    requires
        sorted@.len() > 0,
    ensures
        r == middle_of(sorted@),
{
    let n: usize = sorted.len();
    if n % 2 == 1 {
        sorted[n / 2]
    } else {
        sorted[n / 2 - 1].plus(sorted[n / 2]).over(Float::two())
    }
}

/// The sum of one more number.
pub proof fn lemma_total_push(s: Seq<Float>, x: Float)
    ensures
        total(s.push(x)) == Float::sum_of(total(s), x),
        squares(s.push(x)) == squares(s).push(Float::product_of(x, x)),
        total(squares(s.push(x))) == Float::sum_of(total(squares(s)), Float::product_of(x, x)),
{
    assert(s.push(x).drop_last() =~= s);
    assert(squares(s.push(x)) =~= squares(s).push(Float::product_of(x, x)));
    assert(squares(s).push(Float::product_of(x, x)).drop_last() =~= squares(s));
}

} // verus!
