//! What bins, codes, states and folds are.

use crate::binning;
use crate::candidate;
use crate::candidate::Candidate;
use crate::cross_validation;
use crate::cross_validation::KFold;
use crate::data::{Column, FeatureValue};
use crate::encoder;
use crate::float::Float;
use crate::laws::counting;
use crate::sorting;
use crate::tree::rule::SplitRule;
use vstd::prelude::*;
use vstd::seq_lib::*;

verus! {

/// Whether `a` holds the finite numbers of `values` in ascending order.
pub open spec fn arranges_finite(values: Seq<Float>, a: Seq<Float>) -> bool {
    &&& forall|x: Float| #[trigger]
        a.to_multiset().count(x) == if x.finite() {
            values.to_multiset().count(x)
        } else {
            0
        }
    &&& forall|i: int, j: int|
        0 <= i <= j < a.len() ==> (#[trigger] a[i]).rank() <= (#[trigger] a[j]).rank()
}

proof fn lemma_finite_bag(values: Seq<Float>, x: Float)
    ensures
        encoder::finite_only(values).to_multiset().count(x) == if x.finite() {
            values.to_multiset().count(x)
        } else {
            0
        },
    decreases values.len(),
{
    broadcast use group_to_multiset_ensures;

    reveal(Seq::filter);
    if values.len() > 0 {
        let d = values.drop_last();
        lemma_finite_bag(d, x);
        assert(values =~= d.push(values.last()));
    }
}

/// The cut points for `n` bins are the quantiles of the finite values: cut point `i` is the value
/// at place `i * m / n` among `m` in ascending order. There are none for one bin or no finite value.
pub proof fn law_quantiles(values: Seq<Float>, n_bins: nat, a: Seq<Float>)
    requires
        arranges_finite(values, a),
    ensures
        ({
            let edges = encoder::edges_of(values, n_bins);
            let m = a.len() as int;
            &&& edges.len() == if n_bins >= 2 && m > 0 {
                n_bins - 1
            } else {
                0
            }
            &&& forall|i: int|
                #![trigger cut(edges, i)]
                #![trigger quantile(i, m, n_bins as int)]
                0 < i <= edges.len() ==> 0 <= quantile(i, m, n_bins as int) < m && cut(edges, i)
                    == a[quantile(i, m, n_bins as int)]
        }),
{
    let f = encoder::finite_only(values);
    let v = sorting::in_order(f);
    let edges = encoder::edges_of(values, n_bins);
    let m = a.len() as int;
    sorting::law_in_order(f);
    assert(a.to_multiset() =~= f.to_multiset()) by {
        assert forall|x: Float| a.to_multiset().count(x) == f.to_multiset().count(x) by {
            lemma_finite_bag(values, x);
        }
    }
    sorting::law_arrangement_is_unique(a, v);
    assert forall|i: int|
        #![trigger cut(edges, i)]
        #![trigger quantile(i, m, n_bins as int)]
        0 < i <= edges.len() implies 0 <= quantile(i, m, n_bins as int) < m && cut(edges, i)
        == a[quantile(i, m, n_bins as int)] by {
        encoder::lemma_quantile_index(i, m as nat, n_bins);
    }
}

/// Where quantile `i` of `n` stands among `m` numbers.
pub open spec fn quantile(i: int, m: int, n: int) -> int {
    i * m / n
}

/// Cut point `i`, counted from one.
pub open spec fn cut(edges: Seq<Float>, i: int) -> Float {
    edges[i - 1]
}

/// The cut points that a value has reached.
pub open spec fn reached(edges: Seq<Float>, value: Float) -> spec_fn(int) -> bool {
    |i: int| !edges[i].nan() && !value.nan() && edges[i].place() <= value.place()
}

proof fn lemma_reached(edges: Seq<Float>, value: Float)
    ensures
        encoder::edges_reached(edges, value) == counting::count_where(
            edges.len(),
            reached(edges, value),
        ),
    decreases edges.len(),
{
    reveal(Seq::filter);
    if edges.len() > 0 {
        let d = edges.drop_last();
        lemma_reached(d, value);
        counting::lemma_count_agrees(d.len(), reached(d, value), reached(edges, value));
    }
}

/// The bin of a finite value is the number of cut points that it has reached. A value that is not
/// finite is missing.
pub proof fn law_bin(edges: Seq<Float>, value: Float)
    requires
        edges.len() < u32::MAX,
    ensures
        value.finite() ==> encoder::bin_id(edges, value) == counting::count_where(
            edges.len(),
            reached(edges, value),
        ),
        !value.finite() ==> encoder::bin_id(edges, value) == 0xffff_ffff,
{
    lemma_reached(edges, value);
    counting::lemma_count_bound(edges.len(), reached(edges, value));
}

/// Bin `b` reaches from the cut point below it to the cut point above it.
pub proof fn law_bounds(edges: Seq<Float>, b: nat)
    ensures
        encoder::bounds_of(edges, b) is Some <==> b <= edges.len(),
        encoder::bounds_of(edges, b) matches Some((lower, upper)) ==> {
            &&& lower is None <==> b == 0
            &&& upper is None <==> b == edges.len()
            &&& lower matches Some(x) ==> x == cut(edges, b as int)
            &&& upper matches Some(x) ==> x == cut(edges, (b + 1) as int)
        },
{
}

/// A rule on a range takes the finite numbers from its lower end to below its upper end. A rule on
/// a category takes that category.
pub proof fn law_rule_takes(rule: SplitRule, value: FeatureValue)
    ensures
        rule matches SplitRule::Category { category, .. } ==> (rule.takes(value) <==> value
            == FeatureValue::Categorical(category)),
        (rule matches SplitRule::ContinuousBin { lower, upper, .. } && value
            matches FeatureValue::Continuous(x) && x.finite() && (lower matches Some(l)
            ==> l.finite()) && (upper matches Some(u) ==> u.finite())) ==> (rule.takes(value)
            <==> ({
            &&& rule->lower matches Some(l) ==> l.value() <= value->Continuous_0.value()
            &&& rule->upper matches Some(u) ==> value->Continuous_0.value() < u.value()
        })),
        (rule is ContinuousBin && (value is Categorical || !value->Continuous_0.finite()))
            ==> !rule.takes(value),
{
    if let SplitRule::ContinuousBin { lower, upper, .. } = rule {
        if let FeatureValue::Continuous(x) = value {
            if x.finite() {
                if lower is Some && lower->Some_0.finite() {
                    crate::float::law_order_is_by_value(lower->Some_0, x);
                }
                if upper is Some && upper->Some_0.finite() {
                    crate::float::law_order_is_by_value(x, upper->Some_0);
                }
            }
        }
    }
}

/// The binning of a whole column: a continuous one has one bin more than cut points, a categorical
/// one has a bin for each category that occurs, and both must fit the codes.
pub proof fn law_binning(column: Column, n_bins: nat)
    ensures
        ({
            let bins = binning::bins_of(column, n_bins);
            &&& column matches Column::Continuous(v) ==> {
                &&& bins.is_continuous
                &&& bins.edges == encoder::edges_of(v@, n_bins)
                &&& bins.max_bin == bins.edges.len() + 1
            }
            &&& column matches Column::Categorical(c) ==> {
                &&& !bins.is_continuous
                &&& bins.max_bin == bins.categories.len()
                &&& forall|i: int, j: int|
                    0 <= i < j < bins.categories.len() ==> #[trigger] bins.categories[i]
                        < #[trigger] bins.categories[j]
                &&& forall|x: u32| #[trigger]
                    bins.categories.contains(x) <==> x != 0xffff_ffff && c@.contains(x)
            }
            &&& binning::bins_fit(column, n_bins) <==> bins.max_bin <= 65535
        }),
{
    if let Column::Categorical(c) = column {
        lemma_known(c@);
        candidate::law_distinct(candidate::known(c@));
    }
}

proof fn lemma_known(codes: Seq<u32>)
    ensures
        forall|x: u32| #[trigger]
            candidate::known(codes).contains(x) <==> x != 0xffff_ffff && codes.contains(x),
{
    let p = |c: u32| c != encoder::MISSING_BIN;
    assert forall|x: u32| #[trigger]
        candidate::known(codes).contains(x) <==> x != 0xffff_ffff && codes.contains(x) by {
        if candidate::known(codes).contains(x) {
            let k = choose|k: int|
                0 <= k < candidate::known(codes).len() && candidate::known(codes)[k] == x;
            codes.lemma_filter_pred(p, k);
            codes.lemma_filter_contains_rev(p, x);
        }
        if x != 0xffff_ffff && codes.contains(x) {
            let k = choose|k: int| 0 <= k < codes.len() && codes[k] == x;
            codes.lemma_filter_contains(p, k);
        }
    }
}

/// The bin code of a sample: the number of cut points reached, or the place of its category; 65535
/// where the value is missing.
pub proof fn law_codes(column: Column, n_bins: nat, i: int)
    requires
        binning::bins_fit(column, n_bins),
        0 <= i < column.size(),
    ensures
        ({
            let bins = binning::bins_of(column, n_bins);
            let code = binning::column_codes(column, n_bins)[i];
            &&& column matches Column::Continuous(v) ==> code == if v@[i].finite() {
                counting::count_where(bins.edges.len(), reached(bins.edges, v@[i]))
            } else {
                65535
            }
            &&& column matches Column::Categorical(c) ==> if c@[i] == 0xffff_ffff {
                code == 65535
            } else {
                code < bins.categories.len() && bins.categories[code as int] == c@[i]
            }
        }),
{
    let bins = binning::bins_of(column, n_bins);
    match column {
        Column::Continuous(v) => {
            law_bin(bins.edges, v@[i]);
            counting::lemma_count_bound(bins.edges.len(), reached(bins.edges, v@[i]));
        },
        Column::Categorical(c) => {
            if c@[i] != 0xffff_ffff {
                binning::law_category_round_trip(column, n_bins, i);
            }
        },
    }
}

/// The code of a sample when cut points are fit on other samples: the number of their quantiles
/// that its value has reached, or its category.
pub proof fn law_fold_codes(
    column: Column,
    fit: Seq<usize>,
    at: Seq<usize>,
    n_bins: nat,
    values: Seq<Float>,
    i: int,
)
    requires
        0 <= i < at.len(),
        n_bins <= u32::MAX,
        column is Continuous ==> {
            &&& values.len() == fit.len()
            &&& forall|j: int|
                0 <= j < fit.len() ==> #[trigger] values[j]
                    == column->Continuous_0@[fit[j] as int]
        },
    ensures
        cross_validation::coded(column, fit, at, n_bins).len() == at.len(),
        column matches Column::Categorical(c) ==> cross_validation::coded(
            column,
            fit,
            at,
            n_bins,
        )[i] == c@[at[i] as int],
        column matches Column::Continuous(v) ==> {
            let x = v@[at[i] as int];
            let edges = encoder::edges_of(values, n_bins);
            cross_validation::coded(column, fit, at, n_bins)[i] == if x.finite() {
                counting::count_where(edges.len(), reached(edges, x))
            } else {
                0xffff_ffff
            }
        },
{
    if let Column::Continuous(v) = column {
        assert(cross_validation::pick(v@, fit) =~= values);
        encoder::law_edges(values, n_bins);
        law_bin(encoder::edges_of(values, n_bins), v@[at[i] as int]);
    }
}

/// The states that a column can be split at: the codes of the node's samples that are not missing,
/// in rising order; for ordered cuts only those with a cut point above them.
pub proof fn law_split_states(column: Column, indices: Seq<usize>, n_bins: nat, prefix: bool)
    ensures
        ({
            let states = candidate::split_states_of(column, indices, n_bins, prefix);
            let codes = cross_validation::coded(column, indices, indices, n_bins);
            &&& forall|i: int, j: int|
                0 <= i < j < states.len() ==> #[trigger] states[i] < #[trigger] states[j]
            &&& forall|s: u32| #[trigger]
                states.contains(s) <==> s != 0xffff_ffff && codes.contains(s) && (prefix
                    ==> match column {
                    Column::Continuous(v) => s < encoder::edges_of(
                        cross_validation::pick(v@, indices),
                        n_bins,
                    ).len(),
                    Column::Categorical(_) => true,
                })
        }),
{
    let all = candidate::states_of(column, indices, n_bins);
    let states = candidate::split_states_of(column, indices, n_bins, prefix);
    candidate::law_states(column, indices, n_bins);
    if prefix && column is Continuous {
        let cuts = encoder::edges_of(
            cross_validation::pick(column->Continuous_0@, indices),
            n_bins,
        ).len();
        let p = |s: u32| s < cuts;
        lemma_filter_rises(all, p);
        assert forall|s: u32| #[trigger] states.contains(s) <==> all.contains(s) && p(s) by {
            if states.contains(s) {
                let k = choose|k: int| 0 <= k < states.len() && states[k] == s;
                all.lemma_filter_pred(p, k);
                all.lemma_filter_contains_rev(p, s);
            }
            if all.contains(s) && p(s) {
                let k = choose|k: int| 0 <= k < all.len() && all[k] == s;
                all.lemma_filter_contains(p, k);
            }
        }
    }
}

proof fn lemma_filter_rises(s: Seq<u32>, p: spec_fn(u32) -> bool)
    requires
        candidate::rising(s),
    ensures
        candidate::rising(s.filter(p)),
    decreases s.len(),
{
    reveal(Seq::filter);
    if s.len() > 0 {
        let d = s.drop_last();
        assert(candidate::rising(d));
        lemma_filter_rises(d, p);
        let r = d.filter(p);
        assert forall|i: int| 0 <= i < r.len() implies #[trigger] r[i] < s.last() by {
            assert(r.contains(r[i]));
            d.lemma_filter_contains_rev(p, r[i]);
            let k = choose|k: int| 0 <= k < d.len() && d[k] == r[i];
            assert(s[k] < s[s.len() - 1]);
        }
    }
}

/// The candidates of a node are the states of all features, by feature and then by state.
pub proof fn law_candidates(columns: Seq<Column>, indices: Seq<usize>, n_bins: nat, f: nat)
    requires
        f <= columns.len() <= usize::MAX,
    ensures
        ({
            let all = candidate::candidates_of(columns, indices, n_bins, f);
            &&& forall|i: int, j: int|
                0 <= i < j < all.len() ==> (#[trigger] all[i]).feature < (
                #[trigger] all[j]).feature || (all[i].feature == all[j].feature && all[i].state
                    < all[j].state)
            &&& forall|c: Candidate| #[trigger]
                all.contains(c) <==> c.feature < f && candidate::states_of(
                    columns[c.feature as int],
                    indices,
                    n_bins,
                ).contains(c.state)
        }),
    decreases f,
{
    let all = candidate::candidates_of(columns, indices, n_bins, f);
    if f > 0 {
        let g = (f - 1) as nat;
        let before = candidate::candidates_of(columns, indices, n_bins, g);
        let states = candidate::states_of(columns[g as int], indices, n_bins);
        law_candidates(columns, indices, n_bins, g);
        candidate::law_states(columns[g as int], indices, n_bins);
        assert forall|i: int| 0 <= i < before.len() implies (#[trigger] before[i]).feature < g by {
            assert(before.contains(before[i]));
        }
        assert forall|i: int, j: int| 0 <= i < j < all.len() implies (#[trigger] all[i]).feature < (
        #[trigger] all[j]).feature || (all[i].feature == all[j].feature && all[i].state
            < all[j].state) by {
            if j < before.len() {
                assert(all[i] == before[i] && all[j] == before[j]);
            } else if i < before.len() {
                assert(all[i] == before[i]);
            } else {
                assert(states[i - before.len()] < states[j - before.len()]);
            }
        }
        assert forall|c: Candidate| #[trigger]
            all.contains(c) <==> c.feature < f && candidate::states_of(
                columns[c.feature as int],
                indices,
                n_bins,
            ).contains(c.state) by {
            if all.contains(c) {
                let i = choose|i: int| 0 <= i < all.len() && all[i] == c;
                if i < before.len() {
                    assert(before[i] == c);
                    assert(before.contains(c));
                } else {
                    assert(states[i - before.len()] == c.state);
                }
            }
            if c.feature < g && before.contains(c) {
                let i = choose|i: int| 0 <= i < before.len() && before[i] == c;
                assert(all[i] == c);
            }
            if c.feature == g && states.contains(c.state) {
                let i = choose|i: int| 0 <= i < states.len() && states[i] == c.state;
                assert(all[before.len() + i] == c);
            }
        }
    }
}

/// The number of folds is the setting, at least two and at most the number of samples. A byte
/// numbers at most 255.
pub proof fn law_fold_number(kf: KFold, n: nat)
    ensures
        n < 2 ==> kf.fold_count(n) == n,
        n >= 2 ==> 2 <= kf.fold_count(n) <= n,
        2 <= kf.k <= n ==> kf.fold_count(n) == kf.k,
        kf.k > n ==> kf.fold_count(n) == n,
        kf.k < 2 <= n ==> kf.fold_count(n) == 2,
        kf.fold_count(n) <= 255 ==> kf.compact_count(n) == kf.fold_count(n),
        kf.fold_count(n) > 255 ==> kf.compact_count(n) == 255,
{
}

/// The folds validate the arranged samples one run after another; the first runs are one longer
/// when the samples do not divide evenly. The rest, in order, is for training.
pub proof fn law_fold_layout(kf: KFold, indices: Seq<usize>, f: int)
    requires
        indices.len() <= u64::MAX,
        0 <= f < kf.fold_count(indices.len()),
    ensures
        ({
            let n = indices.len() as int;
            let k = kf.fold_count(indices.len()) as int;
            let order = kf.arranged(indices);
            let fold = kf.folds_of(indices)[f];
            let extra = n % k;
            let start = f * (n / k) + if f < extra {
                f
            } else {
                extra
            };
            let size = n / k + if f < extra {
                1int
            } else {
                0
            };
            &&& kf.folds_of(indices).len() == k
            &&& fold.val == order.subrange(start, start + size)
            &&& fold.train == order.subrange(0, start) + order.subrange(start + size, n)
        }),
{
    let n = indices.len();
    let k = kf.fold_count(n);
    cross_validation::law_arranged_permutes(kf, indices);
    cross_validation::lemma_fold_start(n, k, f as nat);
}

/// Without shuffling the samples keep their order.
pub proof fn law_unshuffled(kf: KFold, indices: Seq<usize>)
    requires
        !kf.shuffle,
    ensures
        kf.arranged(indices) == indices,
{
}

/// Whether `b` is `a` with the items at places `i` and `j` in each other's place.
pub open spec fn swapped(a: Seq<usize>, b: Seq<usize>, i: int, j: int) -> bool {
    &&& a.len() == b.len()
    &&& 0 <= i < a.len()
    &&& 0 <= j < a.len()
    &&& b[i] == a[j]
    &&& b[j] == a[i]
    &&& forall|k: int| 0 <= k < a.len() && k != i && k != j ==> #[trigger] b[k] == a[k]
}

/// Whether `b` comes from `a` by a draw for place `i`: with the next random number, the item there
/// changes places with one that is not behind it.
pub open spec fn drawn(a: Seq<usize>, b: Seq<usize>, i: int, state: u64, next: u64) -> bool {
    &&& next == cross_validation::stepped(state)
    &&& swapped(a, b, i, cross_validation::scrambled(next) as int % (i + 1))
}

/// Whether a run of orders is a shuffle: a draw for every place but the first, from the last place
/// down.
pub open spec fn is_shuffle(orders: Seq<Seq<usize>>, states: Seq<u64>, i: int) -> bool {
    &&& orders.len() == i + 1
    &&& states.len() == i + 1
    &&& forall|t: int|
        0 <= t < i ==> #[trigger] drawn(orders[t], orders[t + 1], i - t, states[t], states[t + 1])
}

proof fn lemma_shuffle_run(s: Seq<usize>, state: u64, i: nat) -> (r: (Seq<Seq<usize>>, Seq<u64>))
    requires
        i < s.len() <= u64::MAX,
    ensures
        is_shuffle(r.0, r.1, i as int),
        r.0[0] == s,
        r.1[0] == state,
        r.0.last() == cross_validation::shuffled(s, state, i),
    decreases i,
{
    if i == 0 {
        (seq![s], seq![state])
    } else {
        let next = cross_validation::stepped(state);
        let j = (cross_validation::scrambled(next) % (i + 1) as u64) as int;
        let t = cross_validation::exchanged(s, i as int, j);
        let (orders, states) = lemma_shuffle_run(t, next, (i - 1) as nat);
        let all = seq![s] + orders;
        let starts = seq![state] + states;
        assert(drawn(s, t, i as int, state, next));
        assert forall|k: int| 0 <= k < i implies #[trigger] drawn(
            all[k],
            all[k + 1],
            i - k,
            starts[k],
            starts[k + 1],
        ) by {
            if k > 0 {
                assert(drawn(
                    orders[k - 1],
                    orders[k - 1 + 1],
                    i - 1 - (k - 1),
                    states[k - 1],
                    states[k - 1 + 1],
                ));
            }
        }
        assert(all.last() == orders.last());
        (all, starts)
    }
}

/// Shuffled samples come from the given order by a draw for every place but the first. The random
/// numbers start from the seed and the number of samples.
pub proof fn law_shuffled(kf: KFold, indices: Seq<usize>)
    requires
        kf.shuffle,
        0 < indices.len() <= u64::MAX,
    ensures
        exists|orders: Seq<Seq<usize>>, states: Seq<u64>| #[trigger]
            is_shuffle(orders, states, indices.len() - 1) && orders[0] == indices
                && orders.last() == kf.arranged(indices) && states[0] == kf.seed ^ (
            indices.len() as u64).wrapping_mul(0x9E37_79B9_7F4A_7C15),
{
    let state = kf.seed ^ (indices.len() as u64).wrapping_mul(0x9E37_79B9_7F4A_7C15);
    let (orders, states) = lemma_shuffle_run(indices, state, (indices.len() - 1) as nat);
    assert(is_shuffle(orders, states, indices.len() - 1));
}

/// Where a sample goes in a shuffle depends on its place and on the number of samples, not on which
/// sample it is.
pub proof fn law_shuffle_is_by_place(
    kf: KFold,
    a: Seq<usize>,
    b: Seq<usize>,
    rename: spec_fn(usize) -> usize,
)
    requires
        a.len() <= u64::MAX,
        b == a.map_values(rename),
    ensures
        kf.arranged(b) == kf.arranged(a).map_values(rename),
{
    if kf.shuffle && a.len() > 0 {
        lemma_shuffle_renames(
            a,
            b,
            kf.seed ^ (a.len() as u64).wrapping_mul(0x9E37_79B9_7F4A_7C15),
            (a.len() - 1) as nat,
            rename,
        );
    }
}

proof fn lemma_shuffle_renames(
    a: Seq<usize>,
    b: Seq<usize>,
    state: u64,
    i: nat,
    rename: spec_fn(usize) -> usize,
)
    requires
        i < a.len() <= u64::MAX,
        b == a.map_values(rename),
    ensures
        cross_validation::shuffled(b, state, i) == cross_validation::shuffled(
            a,
            state,
            i,
        ).map_values(rename),
    decreases i,
{
    if i > 0 {
        let next = cross_validation::stepped(state);
        let j = (cross_validation::scrambled(next) % (i + 1) as u64) as int;
        let c = cross_validation::exchanged(a, i as int, j);
        let d = cross_validation::exchanged(b, i as int, j);
        assert(d =~= c.map_values(rename));
        lemma_shuffle_renames(c, d, next, (i - 1) as nat, rename);
    }
}

} // verus!
