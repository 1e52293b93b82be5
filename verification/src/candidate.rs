//! Candidate splits: which `feature == state` tests occur among the samples of a node.

use crate::cross_validation;
use crate::data::Column;
use crate::encoder;
use vstd::prelude::*;
use vstd::seq_lib::*;

verus! {

/// A candidate split: a feature and the bin or category it is tested against.
#[derive(Clone, Copy, Debug, PartialEq, Eq, Structural)]
pub struct Candidate {
    /// Index of the tested feature.
    pub feature: usize,
    /// Bin id or category id.
    pub state: u32,
}

/// Whether every element is below those after it.
pub open spec fn rising(s: Seq<u32>) -> bool {
    forall|i: int, j: int| 0 <= i < j < s.len() ==> #[trigger] s[i] < #[trigger] s[j]
}

/// Whether `r` lists the elements of `s` once each, in rising order.
pub open spec fn lists(r: Seq<u32>, s: Seq<u32>) -> bool {
    rising(r) && forall|x: u32| #[trigger] r.contains(x) <==> s.contains(x)
}

/// The distinct elements of `s` in rising order.
pub open spec fn distinct(s: Seq<u32>) -> Seq<u32> {
    choose|r: Seq<u32>| lists(r, s)
}

/// A rising list of given elements is unique.
pub proof fn law_list_is_unique(a: Seq<u32>, b: Seq<u32>, s: Seq<u32>)
    requires
        lists(a, s),
        lists(b, s),
    ensures
        a == b,
        distinct(s) == a,
{
    lemma_same_members(a, b);
    lemma_same_members(a, distinct(s));
}

proof fn lemma_same_members(a: Seq<u32>, b: Seq<u32>)
    requires
        rising(a),
        rising(b),
        forall|x: u32| #[trigger] a.contains(x) <==> b.contains(x),
    ensures
        a == b,
    decreases a.len(),
{
    if a.len() == 0 {
        if b.len() > 0 {
            assert(b.contains(b[0]));
            assert(a.contains(b[0]));
        }
        assert(a =~= b);
    } else {
        assert(a.contains(a.last()));
        assert(b.contains(a.last()));
        let y = b.last();
        assert(b.contains(y));
        assert(a.contains(y));
        let i = choose|i: int| 0 <= i < b.len() && b[i] == a.last();
        let j = choose|j: int| 0 <= j < a.len() && a[j] == y;
        assert(a.last() == y);
        let c = a.drop_last();
        let d = b.drop_last();
        assert forall|x: u32| #[trigger] c.contains(x) <==> d.contains(x) by {
            if c.contains(x) {
                let p = choose|p: int| 0 <= p < c.len() && c[p] == x;
                assert(a[p] == x);
                assert(a.contains(x));
                let q = choose|q: int| 0 <= q < b.len() && b[q] == x;
                assert(x < y);
                assert(d[q] == x);
            }
            if d.contains(x) {
                let p = choose|p: int| 0 <= p < d.len() && d[p] == x;
                assert(b[p] == x);
                assert(b.contains(x));
                assert(a.contains(x));
                let q = choose|q: int| 0 <= q < a.len() && a[q] == x;
                assert(x < y);
                assert(c[q] == x);
            }
        }
        lemma_same_members(c, d);
        assert(a =~= c.push(y));
        assert(b =~= d.push(y));
    }
}

/// The distinct elements are listed, and there are no more of them than elements.
pub proof fn law_distinct(s: Seq<u32>)
    ensures
        lists(distinct(s), s),
        distinct(s).len() <= s.len(),
    decreases s.len(),
{
    if s.len() == 0 {
        let r = Seq::<u32>::empty();
        assert(lists(r, s));
        law_list_is_unique(r, r, s);
    } else {
        let d = s.drop_last();
        law_distinct(d);
        let before = distinct(d);
        let r = lemma_insert(before, d, s.last());
        assert(s =~= d.push(s.last()));
        law_list_is_unique(r, r, s);
    }
}

/// Inserting an element into a rising list.
proof fn lemma_insert(r: Seq<u32>, s: Seq<u32>, x: u32) -> (t: Seq<u32>)
    requires
        lists(r, s),
    ensures
        lists(t, s.push(x)),
        t.len() <= r.len() + 1,
    decreases r.len(),
{
    let p = lemma_place(r, x);
    lemma_inserted_at(r, s, x, p);
    if p < r.len() && r[p] == x {
        r
    } else {
        r.insert(p, x)
    }
}

proof fn lemma_place(r: Seq<u32>, x: u32) -> (p: int)
    requires
        rising(r),
    ensures
        0 <= p <= r.len(),
        forall|i: int| 0 <= i < p ==> #[trigger] r[i] < x,
        forall|i: int| p <= i < r.len() ==> x <= #[trigger] r[i],
    decreases r.len(),
{
    if r.len() == 0 {
        0
    } else if r.last() < x {
        r.len() as int
    } else {
        let p = lemma_place(r.drop_last(), x);
        assert forall|i: int| 0 <= i < p implies #[trigger] r[i] < x by {
            assert(r.drop_last()[i] == r[i]);
        }
        assert forall|i: int| p <= i < r.len() implies x <= #[trigger] r[i] by {
            if i < r.len() - 1 {
                assert(r.drop_last()[i] == r[i]);
            }
        }
        p
    }
}

proof fn lemma_inserted_at(r: Seq<u32>, s: Seq<u32>, x: u32, p: int)
    requires
        lists(r, s),
        0 <= p <= r.len(),
        forall|i: int| 0 <= i < p ==> #[trigger] r[i] < x,
        forall|i: int| p <= i < r.len() ==> x <= #[trigger] r[i],
    ensures
        p < r.len() && r[p] == x ==> lists(r, s.push(x)),
        !(p < r.len() && r[p] == x) ==> lists(r.insert(p, x), s.push(x)),
{
    assert forall|y: u32| #[trigger] s.push(x).contains(y) <==> (y == x || s.contains(y)) by {
        if s.contains(y) {
            let k = choose|k: int| 0 <= k < s.len() && s[k] == y;
            assert(s.push(x)[k] == y);
        }
        assert(s.push(x)[s.len() as int] == x);
        if s.push(x).contains(y) {
            let k = choose|k: int| 0 <= k < s.push(x).len() && s.push(x)[k] == y;
            if k < s.len() {
                assert(s[k] == y);
            }
        }
    }
    if p < r.len() && r[p] == x {
        assert(r.contains(x));
    } else {
        let t = r.insert(p, x);
        assert forall|i: int, j: int| 0 <= i < j < t.len() implies #[trigger] t[i] < #[trigger] t[j]
            by {
            assert(t[i] == if i < p {
                r[i]
            } else if i == p {
                x
            } else {
                r[i - 1]
            });
            assert(t[j] == if j < p {
                r[j]
            } else if j == p {
                x
            } else {
                r[j - 1]
            });
        }
        assert forall|y: u32| #[trigger] t.contains(y) <==> s.push(x).contains(y) by {
            if t.contains(y) {
                let k = choose|k: int| 0 <= k < t.len() && t[k] == y;
                if k < p {
                    assert(r.contains(r[k]));
                } else if k > p {
                    assert(r.contains(r[k - 1]));
                }
            }
            if y == x {
                assert(t[p] == x);
            } else if s.contains(y) {
                assert(r.contains(y));
                let k = choose|k: int| 0 <= k < r.len() && r[k] == y;
                if k < p {
                    assert(t[k] == y);
                } else {
                    assert(t[k + 1] == y);
                }
            }
        }
    }
}

/// The codes that are not missing.
pub open spec fn known(codes: Seq<u32>) -> Seq<u32> {
    codes.filter(|c: u32| c != encoder::MISSING_BIN)
}

/// The distinct states of a column among the given samples, in rising order.
pub open spec fn states_of(column: Column, indices: Seq<usize>, n_bins: nat) -> Seq<u32> {
    distinct(known(cross_validation::coded(column, indices, indices, n_bins)))
}

/// The distinct codes in rising order, without missing ones.
pub(crate) fn distinct_known(codes: &[u32]) -> (r: Vec<u32>)
    ensures
        r@ == distinct(known(codes@)),
{
    let mut out: Vec<u32> = Vec::new();
    let mut i: usize = 0;
    proof {
        reveal(Seq::filter);
        assert(known(codes@.take(0)) =~= Seq::<u32>::empty());
    }
    while i < codes.len()
        invariant
            i <= codes@.len(),
            lists(out@, known(codes@.take(i as int))),
        decreases codes@.len() - i,
    {
        let x: u32 = codes[i];
        proof {
            reveal(Seq::filter);
            assert(codes@.take(i + 1).drop_last() =~= codes@.take(i as int));
        }
        if x != encoder::MISSING_BIN {
            let mut lo: usize = 0;
            let mut hi: usize = out.len();
            while lo < hi
                invariant
                    lo <= hi <= out@.len(),
                    rising(out@),
                    forall|j: int| 0 <= j < lo ==> #[trigger] out@[j] < x,
                    forall|j: int| hi <= j < out@.len() ==> x <= #[trigger] out@[j],
                decreases hi - lo,
            {
                let mid: usize = lo + (hi - lo) / 2;
                if out[mid] < x {
                    lo = mid + 1;
                } else {
                    hi = mid;
                }
            }
            proof {
                lemma_inserted_at(out@, known(codes@.take(i as int)), x, lo as int);
            }
            if lo == out.len() || out[lo] != x {
                out.insert(lo, x);
            }
        }
        i += 1;
    }
    proof {
        assert(codes@.take(i as int) =~= codes@);
        law_list_is_unique(out@, out@, known(codes@));
    }
    out
}

/// The distinct states of one column over the given samples, in rising order, without missing
/// values and unknown categories.
pub fn present_states(col: &Column, indices: &[usize], n_bins: usize) -> (r: Vec<u32>)
    requires
        cross_validation::all_below(indices@, col.size()),
    ensures
        r@ == states_of(*col, indices@, n_bins as nat),
{
    let codes = cross_validation::codes_of(col, indices, indices, n_bins);
    distinct_known(codes.as_slice())
}

/// The states of a column that a split can be made at. An ordered cut needs a cut point above its
/// bin, so the last bin is left out.
pub open spec fn split_states_of(
    column: Column,
    indices: Seq<usize>,
    n_bins: nat,
    prefix: bool,
) -> Seq<u32> {
    let states = states_of(column, indices, n_bins);
    match column {
        Column::Continuous(v) => if prefix {
            let cuts = encoder::edges_of(cross_validation::pick(v@, indices), n_bins).len();
            states.filter(|s: u32| s < cuts)
        } else {
            states
        },
        Column::Categorical(_) => states,
    }
}

/// The states of a column that a split can be made at.
pub fn split_states(col: &Column, indices: &[usize], n_bins: usize, prefix: bool) -> (r: Vec<u32>)
    requires
        cross_validation::all_below(indices@, col.size()),
    ensures
        r@ == split_states_of(*col, indices@, n_bins as nat, prefix),
{
    let states = present_states(col, indices, n_bins);
    match col {
        Column::Continuous(v) => {
            if !prefix {
                return states;
            }
            let values = cross_validation::picked(v.as_slice(), indices);
            let edges = encoder::quantile_edges(values.as_slice(), n_bins);
            let cuts: usize = edges.len();
            let ghost p = |s: u32| s < cuts as nat;
            let mut out: Vec<u32> = Vec::new();
            let mut i: usize = 0;
            proof {
                reveal(Seq::filter);
                assert(states@.take(0).filter(p) =~= Seq::<u32>::empty());
            }
            while i < states.len()
                invariant
                    i <= states@.len(),
                    p == (|s: u32| s < cuts as nat),
                    out@ == states@.take(i as int).filter(p),
                decreases states@.len() - i,
            {
                proof {
                    reveal(Seq::filter);
                    assert(states@.take(i + 1).drop_last() =~= states@.take(i as int));
                }
                if (states[i] as u64) < (cuts as u64) {
                    out.push(states[i]);
                }
                i += 1;
            }
            proof {
                assert(states@.take(i as int) =~= states@);
                assert(p =~= (|s: u32| s < edges@.len()));
            }
            out
        },
        Column::Categorical(_) => states,
    }
}

/// The candidates of the first `f` features.
pub open spec fn candidates_of(
    columns: Seq<Column>,
    indices: Seq<usize>,
    n_bins: nat,
    f: nat,
) -> Seq<Candidate>
    decreases f,
{
    if f == 0 {
        Seq::empty()
    } else {
        let feature = (f - 1) as nat;
        let states = states_of(columns[feature as int], indices, n_bins);
        candidates_of(columns, indices, n_bins, feature) + Seq::new(
            states.len(),
            |i: int| Candidate { feature: feature as usize, state: states[i] },
        )
    }
}

/// All candidate splits of a node, by feature and then by state.
pub fn generate_candidates(columns: &[Column], indices: &[usize], n_bins: usize) -> (r: Vec<
    Candidate,
>)
    requires
        forall|f: int|
            0 <= f < columns@.len() ==> cross_validation::all_below(
                indices@,
                (#[trigger] columns@[f]).size(),
            ),
    ensures
        r@ == candidates_of(columns@, indices@, n_bins as nat, columns@.len()),
{
    let mut out: Vec<Candidate> = Vec::new();
    let mut f: usize = 0;
    while f < columns.len()
        invariant
            f <= columns@.len(),
            forall|f: int|
                0 <= f < columns@.len() ==> cross_validation::all_below(
                    indices@,
                    (#[trigger] columns@[f]).size(),
                ),
            out@ == candidates_of(columns@, indices@, n_bins as nat, f as nat),
        decreases columns@.len() - f,
    {
        let states = present_states(&columns[f], indices, n_bins);
        let ghost before = out@;
        let mut s: usize = 0;
        while s < states.len()
            invariant
                s <= states@.len(),
                out@ == before + Seq::new(
                    s as nat,
                    |i: int| Candidate { feature: f, state: states@[i] },
                ),
            decreases states@.len() - s,
        {
            out.push(Candidate { feature: f, state: states[s] });
            s += 1;
            assert(out@ =~= before + Seq::new(
                s as nat,
                |i: int| Candidate { feature: f, state: states@[i] },
            ));
        }
        f += 1;
        assert(out@ =~= candidates_of(columns@, indices@, n_bins as nat, f as nat));
    }
    out
}

/// The states found at a node are in rising order, exclude missing values, and are exactly the
/// codes of its samples.
pub proof fn law_states(column: Column, indices: Seq<usize>, n_bins: nat)
    ensures
        rising(states_of(column, indices, n_bins)),
        !states_of(column, indices, n_bins).contains(encoder::MISSING_BIN),
        forall|x: u32|
            x != encoder::MISSING_BIN ==> (#[trigger] states_of(column, indices, n_bins).contains(x)
                <==> cross_validation::coded(column, indices, indices, n_bins).contains(x)),
{
    let codes = cross_validation::coded(column, indices, indices, n_bins);
    let p = |c: u32| c != encoder::MISSING_BIN;
    law_distinct(known(codes));
    broadcast use group_filter_ensures;

    if known(codes).contains(encoder::MISSING_BIN) {
        let k = choose|k: int| 0 <= k < known(codes).len() && known(codes)[k] == encoder::MISSING_BIN;
        codes.lemma_filter_pred(p, k);
    }
    assert forall|x: u32| x != encoder::MISSING_BIN implies (known(codes).contains(x)
        <==> codes.contains(x)) by {
        if known(codes).contains(x) {
            codes.lemma_filter_contains_rev(p, x);
        }
        if codes.contains(x) {
            let k = choose|k: int| 0 <= k < codes.len() && codes[k] == x;
            codes.lemma_filter_contains(p, k);
        }
    }
}

} // verus!
