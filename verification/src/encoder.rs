//! Quantile binning of continuous values.
//!
//! For `E` cut points there are `E + 1` bins, numbered from zero. The bin of a value is the
//! number of cut points that are not above it, so a value lies in bin `b` exactly when it is at
//! least cut point `b - 1` and below cut point `b`.

use crate::float::Float;
use crate::sorting;
use vstd::prelude::*;
use vstd::seq_lib::*;

verus! {

/// Bin id of a missing (not finite) continuous value.
pub const MISSING_BIN: u32 = 0xffff_ffff;

/// The finite numbers among `values`, in the given order.
pub open spec fn finite_only(values: Seq<Float>) -> Seq<Float> {
    values.filter(|x: Float| x.finite())
}

/// The equal-frequency cut points of `values` for `n_bins` bins.
pub open spec fn edges_of(values: Seq<Float>, n_bins: nat) -> Seq<Float> {
    let v = sorting::in_order(finite_only(values));
    if n_bins <= 1 || v.len() == 0 {
        Seq::empty()
    } else {
        Seq::new((n_bins - 1) as nat, |i: int| v[quantile_index(i + 1, v.len(), n_bins)])
    }
}

/// Where the `i`-th of `n_bins` quantiles stands among `m` sorted values.
pub open spec fn quantile_index(i: int, m: nat, n_bins: nat) -> int {
    if i * m / n_bins as int >= m {
        m - 1
    } else {
        i * m / n_bins as int
    }
}

/// Whether the cut points not above `value` come before all others.
pub open spec fn partitioned(edges: Seq<Float>, value: Float) -> bool {
    forall|i: int, j: int|
        0 <= i <= j < edges.len() && Float::at_most(#[trigger] edges[j], value) ==> Float::at_most(
            #[trigger] edges[i],
            value,
        )
}

/// Number of cut points that are not above `value`.
pub open spec fn edges_reached(edges: Seq<Float>, value: Float) -> nat {
    edges.filter(|e: Float| Float::at_most(e, value)).len()
}

/// The bin of `value`: the number of cut points not above it, or the missing bin.
pub open spec fn bin_id(edges: Seq<Float>, value: Float) -> u32 {
    if value.finite() {
        edges_reached(edges, value) as u32
    } else {
        MISSING_BIN
    }
}

/// Lower and upper end of bin `b`; an absent end is open.
pub open spec fn bounds_of(edges: Seq<Float>, b: nat) -> Option<(Option<Float>, Option<Float>)> {
    if b > edges.len() {
        None
    } else {
        Some(
            (
                if b == 0 {
                    None
                } else {
                    Some(edges[b - 1])
                },
                if b == edges.len() {
                    None
                } else {
                    Some(edges[b as int])
                },
            ),
        )
    }
}

/// Whether `x` lies between the given ends: at least the lower one, below the upper one.
pub open spec fn within(x: Float, lower: Option<Float>, upper: Option<Float>) -> bool {
    &&& lower matches Some(l) ==> Float::at_most(l, x)
    &&& upper matches Some(u) ==> Float::below(x, u)
}

pub(crate) proof fn lemma_quantile_index(i: int, m: nat, n_bins: nat)
    requires
        0 <= i < n_bins,
        m > 0,
    ensures
        0 <= quantile_index(i, m, n_bins) < m,
        quantile_index(i, m, n_bins) == i * m / n_bins as int,
{
    assert(0 <= i * m / n_bins as int) by (nonlinear_arith)
        requires
            0 <= i,
            n_bins > 0,
    ;
    assert(i * m / n_bins as int <= m) by (nonlinear_arith)
        requires
            0 <= i < n_bins,
            m > 0,
    ;
    assert(i * m / n_bins as int != m) by (nonlinear_arith)
        requires
            0 <= i < n_bins,
            m > 0,
    ;
}

/// There are `n_bins - 1` cut points when some value is finite, each of them one of the finite
/// values, in ascending order.
pub proof fn law_edges(values: Seq<Float>, n_bins: nat)
    ensures
        edges_of(values, n_bins).len() == if n_bins <= 1 || finite_only(values).len() == 0 {
            0
        } else {
            n_bins - 1
        },
        sorting::ascending(edges_of(values, n_bins)),
        forall|i: int|
            0 <= i < edges_of(values, n_bins).len() ==> (#[trigger] edges_of(
                values,
                n_bins,
            )[i]).finite() && values.contains(edges_of(values, n_bins)[i]),
{
    broadcast use group_filter_ensures;

    let f = finite_only(values);
    let v = sorting::in_order(f);
    let edges = edges_of(values, n_bins);
    sorting::law_in_order(f);
    if n_bins > 1 && v.len() > 0 {
        assert forall|i: int| 0 <= i < edges.len() implies (#[trigger] edges[i]).finite()
            && values.contains(edges[i]) by {
            lemma_quantile_index(i + 1, v.len(), n_bins);
            assert(v.contains(edges[i]));
            assert(f.contains(edges[i]));
            let p = |x: Float| x.finite();
            let k = choose|k: int| 0 <= k < f.len() && f[k] == edges[i];
            values.lemma_filter_pred(p, k);
            values.lemma_filter_contains_rev(p, edges[i]);
        }
        assert forall|i: int, j: int| 0 <= i <= j < edges.len() implies (
        #[trigger] edges[i]).rank() <= (#[trigger] edges[j]).rank() by {
            lemma_quantile_index(i + 1, v.len(), n_bins);
            lemma_quantile_index(j + 1, v.len(), n_bins);
            let m = v.len() as int;
            assert((i + 1) * m <= (j + 1) * m) by (nonlinear_arith)
                requires
                    i <= j,
                    m >= 0,
            ;
            vstd::arithmetic::div_mod::lemma_div_is_ordered(
                (i + 1) * m,
                (j + 1) * m,
                n_bins as int,
            );
        }
    }
}

/// Ascending finite cut points are split by every value.
pub proof fn lemma_partitioned(edges: Seq<Float>, value: Float)
    requires
        sorting::ascending(edges),
        forall|i: int| 0 <= i < edges.len() ==> (#[trigger] edges[i]).finite(),
    ensures
        partitioned(edges, value),
{
}

proof fn lemma_reached_prefix(edges: Seq<Float>, value: Float, k: nat)
    requires
        k <= edges.len(),
        forall|i: int| 0 <= i < k ==> Float::at_most(#[trigger] edges[i], value),
        forall|i: int| k <= i < edges.len() ==> !Float::at_most(#[trigger] edges[i], value),
    ensures
        edges_reached(edges, value) == k,
    decreases edges.len(),
{
    reveal(Seq::filter);
    if edges.len() > 0 {
        let d = edges.drop_last();
        if k == edges.len() {
            lemma_reached_prefix(d, value, (k - 1) as nat);
        } else {
            lemma_reached_prefix(d, value, k);
        }
    }
}

/// A finite value lies in exactly one bin: the one whose ends enclose it.
pub proof fn law_bin_encloses(edges: Seq<Float>, value: Float, b: nat)
    requires
        sorting::ascending(edges),
        forall|i: int| 0 <= i < edges.len() ==> (#[trigger] edges[i]).finite(),
        value.finite(),
        b <= edges.len(),
    ensures
        edges_reached(edges, value) <= edges.len(),
        edges_reached(edges, value) == b <==> within(
            value,
            bounds_of(edges, b)->Some_0.0,
            bounds_of(edges, b)->Some_0.1,
        ),
{
    lemma_partitioned(edges, value);
    let k = lemma_split_point(edges, value);
    lemma_reached_prefix(edges, value, k);
    if within(value, bounds_of(edges, b)->Some_0.0, bounds_of(edges, b)->Some_0.1) {
        if k < b {
            assert(Float::at_most(edges[b - 1], value));
        }
        if b < k {
            assert(Float::at_most(edges[b as int], value));
        }
    }
}

/// A finite value is below a cut point exactly when its bin is not above that of the cut.
pub proof fn law_cut_divides(edges: Seq<Float>, value: Float, b: nat)
    requires
        sorting::ascending(edges),
        forall|i: int| 0 <= i < edges.len() ==> (#[trigger] edges[i]).finite(),
        value.finite(),
        b < edges.len(),
    ensures
        edges_reached(edges, value) <= b <==> Float::below(value, edges[b as int]),
{
    lemma_partitioned(edges, value);
    let k = lemma_split_point(edges, value);
    lemma_reached_prefix(edges, value, k);
    if k <= b {
        assert(!Float::at_most(edges[b as int], value));
    } else {
        assert(Float::at_most(edges[b as int], value));
    }
}

/// The number of leading cut points that are not above `value`.
proof fn lemma_split_point(edges: Seq<Float>, value: Float) -> (k: nat)
    requires
        partitioned(edges, value),
    ensures
        k <= edges.len(),
        forall|i: int| 0 <= i < k ==> Float::at_most(#[trigger] edges[i], value),
        forall|i: int| k <= i < edges.len() ==> !Float::at_most(#[trigger] edges[i], value),
    decreases edges.len(),
{
    if edges.len() == 0 {
        0
    } else if Float::at_most(edges.last(), value) {
        edges.len()
    } else {
        let d = edges.drop_last();
        assert forall|i: int, j: int|
            0 <= i <= j < d.len() && Float::at_most(#[trigger] d[j], value) implies Float::at_most(
            #[trigger] d[i],
            value,
        ) by {
            assert(d[i] == edges[i] && d[j] == edges[j]);
        }
        let k = lemma_split_point(d, value);
        assert forall|i: int| 0 <= i < k implies Float::at_most(#[trigger] edges[i], value) by {
            assert(d[i] == edges[i]);
        }
        assert forall|i: int| k <= i < edges.len() implies !Float::at_most(
            #[trigger] edges[i],
            value,
        ) by {
            if i < d.len() {
                assert(d[i] == edges[i]);
            }
        }
        k
    }
}

/// The number of cut points reached never exceeds their number.
pub proof fn lemma_reached_bound(edges: Seq<Float>, value: Float)
    ensures
        edges_reached(edges, value) <= edges.len(),
{
    broadcast use group_filter_ensures;

}

fn keep_finite(values: &[Float]) -> (r: Vec<Float>)
    ensures
        r@ == finite_only(values@),
{
    let mut v: Vec<Float> = Vec::new();
    let mut i: usize = 0;
    assert(values@.take(0).filter(|x: Float| x.finite()) =~= Seq::<Float>::empty()) by {
        reveal(Seq::filter);
    }
    while i < values.len()
        invariant
            i <= values@.len(),
            v@ == finite_only(values@.take(i as int)),
        decreases values@.len() - i,
    {
        proof {
            reveal(Seq::filter);
            assert(values@.take(i + 1).drop_last() =~= values@.take(i as int));
        }
        if values[i].is_finite() {
            v.push(values[i]);
        }
        i += 1;
    }
    assert(values@.take(i as int) =~= values@);
    v
}

/// Up to `n_bins - 1` equal-frequency cut points of `values`, ascending. Values that are not
/// finite are ignored.
pub fn quantile_edges(values: &[Float], n_bins: usize) -> (r: Vec<Float>)
    ensures
        r@ == edges_of(values@, n_bins as nat),
{
    let mut edges: Vec<Float> = Vec::new();
    if n_bins <= 1 {
        return edges;
    }
    let kept = keep_finite(values);
    let v = sorting::sorted(kept.as_slice());
    proof {
        sorting::law_in_order(kept@);
    }
    let m: usize = v.len();
    if m == 0 {
        return edges;
    }
    let mut i: usize = 1;
    while i < n_bins
        invariant
            1 <= i <= n_bins,
            m == v@.len(),
            m > 0,
            edges@.len() == i - 1,
            forall|j: int|
                0 <= j < i - 1 ==> #[trigger] edges@[j] == v@[quantile_index(
                    j + 1,
                    m as nat,
                    n_bins as nat,
                )],
        decreases n_bins - i,
    {
        proof {
            lemma_quantile_index(i as int, m as nat, n_bins as nat);
            assert(i * m <= 0xffff_ffff_ffff_ffff * 0xffff_ffff_ffff_ffff) by (nonlinear_arith)
                requires
                    0 <= i <= 0xffff_ffff_ffff_ffff,
                    0 <= m <= 0xffff_ffff_ffff_ffff,
            ;
        }
        let at: usize = ((i as u128) * (m as u128) / (n_bins as u128)) as usize;
        edges.push(v[at]);
        i += 1;
    }
    assert(edges@ =~= edges_of(values@, n_bins as nat));
    edges
}

/// The bin of `value` among cut points of which those not above it come first.
pub fn bin_of(edges: &[Float], value: Float) -> (r: u32)
    requires
        value.finite() ==> partitioned(edges@, value),
    ensures
        r == bin_id(edges@, value),
{
    if !value.is_finite() {
        return MISSING_BIN;
    }
    let mut lo: usize = 0;
    let mut hi: usize = edges.len();
    while lo < hi
        invariant
            lo <= hi <= edges@.len(),
            partitioned(edges@, value),
            forall|i: int| 0 <= i < lo ==> Float::at_most(#[trigger] edges@[i], value),
            forall|i: int| hi <= i < edges@.len() ==> !Float::at_most(#[trigger] edges@[i], value),
        decreases hi - lo,
    {
        let mid: usize = lo + (hi - lo) / 2;
        if edges[mid].le(value) {
            lo = mid + 1;
        } else {
            hi = mid;
        }
    }
    proof {
        lemma_reached_prefix(edges@, value, lo as nat);
    }
    lo as u32
}

/// Lower (included) and upper (excluded) end of bin `b`, open where absent; nothing when there is
/// no such bin.
pub fn bin_bounds(edges: &[Float], b: usize) -> (r: Option<(Option<Float>, Option<Float>)>)
    ensures
        r == bounds_of(edges@, b as nat),
{
    let e: usize = edges.len();
    if b > e {
        return None;
    }
    let lower: Option<Float> = if b == 0 {
        None
    } else {
        Some(edges[b - 1])
    };
    let upper: Option<Float> = if b == e {
        None
    } else {
        Some(edges[b])
    };
    Some((lower, upper))
}

} // verus!
