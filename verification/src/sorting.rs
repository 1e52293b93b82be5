//! Sorting numbers by the total order of their patterns.

use crate::float::Float;
use vstd::prelude::*;
use vstd::relations::*;
use vstd::seq_lib::*;

verus! {

/// The total order of patterns, as a relation.
pub open spec fn by_rank() -> spec_fn(Float, Float) -> bool {
    |a: Float, b: Float| a.rank() <= b.rank()
}

/// Whether every element ranks no later than those after it.
pub open spec fn ascending(s: Seq<Float>) -> bool {
    forall|i: int, j: int| 0 <= i <= j < s.len() ==> (#[trigger] s[i]).rank() <= (#[trigger] s[j]).rank()
}

/// The elements of `s` in ascending order.
pub open spec fn in_order(s: Seq<Float>) -> Seq<Float> {
    s.sort_by(by_rank())
}

/// Sorting keeps the elements and puts them in ascending order.
pub proof fn law_in_order(s: Seq<Float>)
    ensures
        ascending(in_order(s)),
        in_order(s).to_multiset() == s.to_multiset(),
        in_order(s).len() == s.len(),
        forall|x: Float| #[trigger] in_order(s).contains(x) <==> s.contains(x),
{
    let r = in_order(s);
    lemma_by_rank_is_total();
    s.lemma_sort_by_ensures(by_rank());
    assert forall|i: int, j: int| 0 <= i <= j < r.len() implies (#[trigger] r[i]).rank() <= (
    #[trigger] r[j]).rank() by {
        if i < j {
            assert(by_rank()(r[i], r[j]));
        }
    }
    broadcast use group_to_multiset_ensures;

    assert(s.to_multiset().len() == s.len());
    assert(r.to_multiset().len() == r.len());
    assert forall|x: Float| #[trigger] r.contains(x) <==> s.contains(x) by {
        assert(r.contains(x) <==> r.to_multiset().count(x) > 0);
        assert(s.contains(x) <==> s.to_multiset().count(x) > 0);
    }
}

proof fn lemma_by_rank_is_total()
    ensures
        total_ordering(by_rank()),
{
    let r = by_rank();
    assert forall|a: Float, b: Float| #[trigger] r(a, b) && #[trigger] r(b, a) implies a == b by {
        crate::float::law_rank_is_injective(a, b);
    }
}

/// An ascending arrangement of given elements is unique.
pub proof fn law_arrangement_is_unique(a: Seq<Float>, b: Seq<Float>)
    requires
        ascending(a),
        ascending(b),
        a.to_multiset() == b.to_multiset(),
    ensures
        a == b,
    decreases a.len(),
{
    broadcast use group_to_multiset_ensures;

    assert(a.to_multiset().len() == a.len());
    assert(b.to_multiset().len() == b.len());
    if a.len() > 0 {
        let x = a.last();
        let y = b.last();
        assert(a.contains(x));
        assert(b.contains(y));
        assert(b.contains(x)) by {
            assert(a.to_multiset().count(x) > 0);
        }
        assert(a.contains(y)) by {
            assert(b.to_multiset().count(y) > 0);
        }
        let i = choose|i: int| 0 <= i < b.len() && b[i] == x;
        let j = choose|j: int| 0 <= j < a.len() && a[j] == y;
        assert(b[i].rank() <= b[b.len() - 1].rank());
        assert(a[j].rank() <= a[a.len() - 1].rank());
        crate::float::law_rank_is_injective(x, y);
        let c = a.drop_last();
        let d = b.drop_last();
        assert(a =~= c.push(x));
        assert(b =~= d.push(x));
        assert(c.to_multiset() =~= a.to_multiset().remove(x));
        assert(d.to_multiset() =~= b.to_multiset().remove(x));
        law_arrangement_is_unique(c, d);
    } else {
        assert(a =~= b);
    }
}

/// Merges two ascending runs.
fn merge(a: &Vec<Float>, b: &Vec<Float>) -> (r: Vec<Float>)
    requires
        ascending(a@),
        ascending(b@),
    ensures
        ascending(r@),
        r@.to_multiset() == a@.to_multiset().add(b@.to_multiset()),
{
    let mut out: Vec<Float> = Vec::new();
    let mut i: usize = 0;
    let mut j: usize = 0;
    proof {
        broadcast use group_to_multiset_ensures;

        assert(out@.to_multiset() =~= a@.take(0).to_multiset().add(b@.take(0).to_multiset()));
    }
    while i < a.len() || j < b.len()
        invariant
            i <= a@.len(),
            j <= b@.len(),
            ascending(a@),
            ascending(b@),
            ascending(out@),
            forall|p: int, q: int|
                0 <= p < out@.len() && i <= q < a@.len() ==> (#[trigger] out@[p]).rank() <= (
                #[trigger] a@[q]).rank(),
            forall|p: int, q: int|
                0 <= p < out@.len() && j <= q < b@.len() ==> (#[trigger] out@[p]).rank() <= (
                #[trigger] b@[q]).rank(),
            out@.to_multiset() == a@.take(i as int).to_multiset().add(
                b@.take(j as int).to_multiset(),
            ),
        decreases a@.len() - i + b@.len() - j,
    {
        broadcast use group_to_multiset_ensures;

        let from_a: bool = if i >= a.len() {
            false
        } else if j >= b.len() {
            true
        } else {
            a[i].ranks_before(b[j])
        };
        if from_a {
            let x = a[i];
            assert(a@.take(i + 1) =~= a@.take(i as int).push(x));
            out.push(x);
            i += 1;
        } else {
            let x = b[j];
            assert(b@.take(j + 1) =~= b@.take(j as int).push(x));
            out.push(x);
            j += 1;
        }
        assert(out@.to_multiset() =~= a@.take(i as int).to_multiset().add(
            b@.take(j as int).to_multiset(),
        ));
    }
    assert(a@.take(i as int) =~= a@);
    assert(b@.take(j as int) =~= b@);
    out
}

fn merge_sort(values: &[Float], lo: usize, hi: usize) -> (r: Vec<Float>)
    requires
        lo <= hi <= values@.len(),
    ensures
        ascending(r@),
        r@.to_multiset() == values@.subrange(lo as int, hi as int).to_multiset(),
    decreases hi - lo,
{
    if hi - lo <= 1 {
        let mut r: Vec<Float> = Vec::new();
        if lo < hi {
            r.push(values[lo]);
        }
        assert(r@ =~= values@.subrange(lo as int, hi as int));
        return r;
    }
    let mid: usize = lo + (hi - lo) / 2;
    let a = merge_sort(values, lo, mid);
    let b = merge_sort(values, mid, hi);
    proof {
        let x = values@.subrange(lo as int, mid as int);
        let y = values@.subrange(mid as int, hi as int);
        assert(values@.subrange(lo as int, hi as int) =~= x + y);
        lemma_multiset_commutative(x, y);
    }
    merge(&a, &b)
}

/// The given numbers in ascending order.
pub fn sorted(values: &[Float]) -> (r: Vec<Float>)
    ensures
        r@ == in_order(values@),
{
    let r = merge_sort(values, 0, values.len());
    proof {
        assert(values@.subrange(0, values@.len() as int) =~= values@);
        law_in_order(values@);
        law_arrangement_is_unique(r@, in_order(values@));
    }
    r
}

} // verus!
