//! Binning a whole dataset once, for the histogram build path.
//!
//! Continuous columns are quantile-binned and categorical columns numbered densely. Missing values
//! and unknown categories get [`MISSING_BIN_CODE`].

use crate::candidate;
use crate::data::{Bin, CatId, Column, FeatureValue, MISSING_BIN_CODE, UNKNOWN_CAT};
use crate::encoder;
use crate::encoder::{bin_bounds, bin_of, quantile_edges, MISSING_BIN};
use crate::float::Float;
use crate::text;
use vstd::prelude::*;
use vstd::string::*;

verus! {

/// How a column was binned.
pub struct FeatureBins {
    /// Whether the column is continuous.
    pub is_continuous: bool,
    /// Cut points of a continuous column, ascending.
    pub edges: Vec<Float>,
    /// Category ids of a categorical column by dense id, rising.
    pub categories: Vec<CatId>,
    /// Number of bins; codes are below it.
    pub max_bin: usize,
}

/// The contents of a column's binning.
#[verifier::ext_equal]
pub struct BinsView {
    pub is_continuous: bool,
    pub edges: Seq<Float>,
    pub categories: Seq<CatId>,
    pub max_bin: nat,
}

impl View for FeatureBins {
    type V = BinsView;

    open spec fn view(&self) -> BinsView {
        BinsView {
            is_continuous: self.is_continuous,
            edges: self.edges@,
            categories: self.categories@,
            max_bin: self.max_bin as nat,
        }
    }
}

impl BinsView {
    /// The bin code of a value; missing when its type is not that of the column.
    pub open spec fn code_of(self, value: FeatureValue) -> Bin {
        match value {
            FeatureValue::Continuous(x) => if self.is_continuous && encoder::bin_id(self.edges, x)
                != MISSING_BIN {
                encoder::bin_id(self.edges, x) as Bin
            } else {
                MISSING_BIN_CODE
            },
            FeatureValue::Categorical(c) => if !self.is_continuous && c != UNKNOWN_CAT
                && self.categories.contains(c) {
                self.categories.index_of(c) as Bin
            } else {
                MISSING_BIN_CODE
            },
        }
    }

    /// Whether values can be looked up: rising categories, and cut points that a value splits.
    pub open spec fn searchable(self, value: FeatureValue) -> bool {
        match value {
            FeatureValue::Continuous(x) => self.is_continuous && x.finite()
                ==> encoder::partitioned(self.edges, x),
            FeatureValue::Categorical(_) => !self.is_continuous ==> candidate::rising(
                self.categories,
            ),
        }
    }
}

/// Position of `c` among rising ids.
fn find(ids: &Vec<CatId>, c: CatId) -> (r: Option<usize>)
    requires
        candidate::rising(ids@),
    ensures
        match r {
            Some(i) => i < ids@.len() && ids@.contains(c) && i == ids@.index_of(c),
            None => !ids@.contains(c),
        },
{
    let mut lo: usize = 0;
    let mut hi: usize = ids.len();
    while lo < hi
        invariant
            lo <= hi <= ids@.len(),
            candidate::rising(ids@),
            forall|i: int| 0 <= i < lo ==> #[trigger] ids@[i] < c,
            forall|i: int| hi <= i < ids@.len() ==> c <= #[trigger] ids@[i],
        decreases hi - lo,
    {
        let mid: usize = lo + (hi - lo) / 2;
        if ids[mid] < c {
            lo = mid + 1;
        } else {
            hi = mid;
        }
    }
    if lo < ids.len() && ids[lo] == c {
        proof {
            assert(ids@[lo as int] == c);
            let k = ids@.index_of(c);
            assert(0 <= k < ids@.len() && ids@[k] == c);
        }
        Some(lo)
    } else {
        proof {
            if ids@.contains(c) {
                let k = choose|k: int| 0 <= k < ids@.len() && ids@[k] == c;
                assert(ids@[k] == c);
                if k > lo {
                    assert(ids@[lo as int] < ids@[k]);
                }
            }
        }
        None
    }
}

impl FeatureBins {
    /// The bin code of a raw value, or [`MISSING_BIN_CODE`].
    pub fn code(&self, value: FeatureValue) -> (r: Bin)
        requires
            self@.searchable(value),
        ensures
            r == self@.code_of(value),
    {
        match value {
            FeatureValue::Continuous(x) => {
                if !self.is_continuous {
                    return MISSING_BIN_CODE;
                }
                let b: u32 = bin_of(self.edges.as_slice(), x);
                if b == MISSING_BIN {
                    MISSING_BIN_CODE
                } else {
                    b as Bin
                }
            },
            FeatureValue::Categorical(c) => {
                if self.is_continuous || c == UNKNOWN_CAT {
                    return MISSING_BIN_CODE;
                }
                match find(&self.categories, c) {
                    Some(i) => i as Bin,
                    None => MISSING_BIN_CODE,
                }
            },
        }
    }

    /// Lower and upper end of continuous bin `b`.
    pub fn cont_bounds(&self, b: usize) -> (r: Option<(Option<Float>, Option<Float>)>)
        ensures
            r == encoder::bounds_of(self.edges@, b as nat),
    {
        bin_bounds(self.edges.as_slice(), b)
    }

    /// Category id of dense id `b`.
    pub fn category(&self, b: usize) -> (r: Option<CatId>)
        ensures
            r == if b < self.categories@.len() {
                Some(self.categories@[b as int])
            } else {
                None
            },
    {
        if b < self.categories.len() {
            Some(self.categories[b])
        } else {
            None
        }
    }
}

/// The binning of a column.
pub open spec fn bins_of(column: Column, n_bins: nat) -> BinsView {
    match column {
        Column::Continuous(v) => {
            let edges = encoder::edges_of(v@, n_bins);
            BinsView {
                is_continuous: true,
                edges,
                categories: Seq::empty(),
                max_bin: edges.len() + 1,
            }
        },
        Column::Categorical(c) => {
            let categories = candidate::distinct(candidate::known(c@));
            BinsView {
                is_continuous: false,
                edges: Seq::empty(),
                categories,
                max_bin: categories.len(),
            }
        },
    }
}

/// Entry `i` of a column as a value.
pub open spec fn value_at(column: Column, i: int) -> FeatureValue {
    match column {
        Column::Continuous(v) => FeatureValue::Continuous(v@[i]),
        Column::Categorical(c) => FeatureValue::Categorical(c@[i]),
    }
}

/// The bin codes of a column.
pub open spec fn column_codes(column: Column, n_bins: nat) -> Seq<Bin> {
    Seq::new(column.size(), |i: int| bins_of(column, n_bins).code_of(value_at(column, i)))
}

/// Whether a column has no more bins than there are codes.
pub open spec fn bins_fit(column: Column, n_bins: nat) -> bool {
    bins_of(column, n_bins).max_bin <= MISSING_BIN_CODE
}

/// Position of the first column with too many bins, or the number of columns.
pub open spec fn first_overfull(columns: Seq<Column>, n_bins: nat) -> nat
    decreases columns.len(),
{
    if columns.len() == 0 {
        0
    } else {
        let before = first_overfull(columns.drop_last(), n_bins);
        if before < columns.len() - 1 || !bins_fit(columns.last(), n_bins) {
            before
        } else {
            columns.len()
        }
    }
}

/// What `first_overfull` finds: all columns before it fit, and it does not.
pub proof fn law_first_overfull(columns: Seq<Column>, n_bins: nat)
    ensures
        first_overfull(columns, n_bins) <= columns.len(),
        forall|i: int|
            0 <= i < first_overfull(columns, n_bins) ==> bins_fit(#[trigger] columns[i], n_bins),
        first_overfull(columns, n_bins) < columns.len() ==> !bins_fit(
            columns[first_overfull(columns, n_bins) as int],
            n_bins,
        ),
    decreases columns.len(),
{
    if columns.len() > 0 {
        let d = columns.drop_last();
        law_first_overfull(d, n_bins);
        let k = first_overfull(d, n_bins);
        assert forall|i: int| 0 <= i < first_overfull(columns, n_bins) implies bins_fit(
            #[trigger] columns[i],
            n_bins,
        ) by {
            if i < columns.len() - 1 {
                assert(d[i] == columns[i]);
            }
        }
        if k < columns.len() - 1 {
            assert(d[k as int] == columns[k as int]);
        }
    }
}

/// The message for a column with too many bins.
pub open spec fn overfull_message(feature: nat, max_bin: nat, continuous: bool) -> Seq<char> {
    "feature "@ + text::decimal(feature) + ": "@ + text::decimal(max_bin) + if continuous {
        " continuous bins exceed fast-mode limit"@
    } else {
        " categories exceed fast-mode limit"@
    }
}

fn overfull_text(feature: usize, max_bin: usize, continuous: bool) -> (r: String)
    ensures
        r@ == overfull_message(feature as nat, max_bin as nat, continuous),
{
    let mut out = "feature ".to_owned();
    text::push_decimal(&mut out, feature);
    out.append(": ");
    text::push_decimal(&mut out, max_bin);
    if continuous {
        out.append(" continuous bins exceed fast-mode limit");
    } else {
        out.append(" categories exceed fast-mode limit");
    }
    out
}

/// Looking up any value in the binning of a column is possible.
pub proof fn lemma_searchable(column: Column, n_bins: nat, value: FeatureValue)
    ensures
        bins_of(column, n_bins).searchable(value),
{
    match column {
        Column::Continuous(v) => {
            encoder::law_edges(v@, n_bins);
            match value {
                FeatureValue::Continuous(x) => {
                    encoder::lemma_partitioned(encoder::edges_of(v@, n_bins), x);
                },
                FeatureValue::Categorical(_) => {},
            }
        },
        Column::Categorical(c) => {
            candidate::law_distinct(candidate::known(c@));
        },
    }
}

/// Bins one column.
fn bin_column(column: &Column, n_bins: usize) -> (r: FeatureBins)
    ensures
        r@ == bins_of(*column, n_bins as nat),
{
    match column {
        Column::Continuous(v) => {
            let edges = quantile_edges(v.as_slice(), n_bins);
            proof {
                encoder::law_edges(v@, n_bins as nat);
            }
            let max_bin: usize = edges.len() + 1;
            let r = FeatureBins { is_continuous: true, edges, categories: Vec::new(), max_bin };
            assert(r@ =~= bins_of(*column, n_bins as nat));
            r
        },
        Column::Categorical(c) => {
            let categories = candidate::distinct_known(c.as_slice());
            let max_bin: usize = categories.len();
            let r = FeatureBins { is_continuous: false, edges: Vec::new(), categories, max_bin };
            assert(r@ =~= bins_of(*column, n_bins as nat));
            r
        },
    }
}

/// Codes one column.
fn code_column(column: &Column, bins: &FeatureBins, n_bins: Ghost<nat>) -> (r: Vec<Bin>)
    requires
        bins@ == bins_of(*column, n_bins@),
    ensures
        r@ == column_codes(*column, n_bins@),
{
    let n: usize = column.len();
    let ghost goal = column_codes(*column, n_bins@);
    let mut r: Vec<Bin> = Vec::new();
    let mut i: usize = 0;
    while i < n
        invariant
            i <= n,
            n == column.size(),
            bins@ == bins_of(*column, n_bins@),
            goal == column_codes(*column, n_bins@),
            r@ == goal.take(i as int),
        decreases n - i,
    {
        let value = match column {
            Column::Continuous(v) => FeatureValue::Continuous(v[i]),
            Column::Categorical(c) => FeatureValue::Categorical(c[i]),
        };
        proof {
            lemma_searchable(*column, n_bins@, value);
        }
        r.push(bins.code(value));
        i += 1;
        assert(r@ =~= goal.take(i as int));
    }
    assert(r@ =~= goal);
    r
}

/// A dataset binned once: the codes of every column, and how each was binned.
pub struct BinnedData {
    /// Codes by feature and sample.
    pub codes: Vec<Vec<Bin>>,
    /// Binning of each feature.
    pub bins: Vec<FeatureBins>,
    /// Number of samples.
    pub n_samples: usize,
}

/// The contents of a binned dataset.
#[verifier::ext_equal]
pub struct BinnedView {
    pub codes: Seq<Seq<Bin>>,
    pub bins: Seq<BinsView>,
    pub n_samples: nat,
}

impl View for BinnedData {
    type V = BinnedView;

    open spec fn view(&self) -> BinnedView {
        BinnedView {
            codes: Seq::new(self.codes@.len(), |f: int| self.codes@[f]@),
            bins: Seq::new(self.bins@.len(), |f: int| self.bins@[f]@),
            n_samples: self.n_samples as nat,
        }
    }
}

/// The binning of the given columns.
pub open spec fn binned_of(columns: Seq<Column>, n_bins: nat) -> BinnedView {
    BinnedView {
        codes: Seq::new(columns.len(), |f: int| column_codes(columns[f], n_bins)),
        bins: Seq::new(columns.len(), |f: int| bins_of(columns[f], n_bins)),
        n_samples: if columns.len() == 0 {
            0
        } else {
            columns[0].size()
        },
    }
}

impl BinnedData {
    /// Bins every column; fails on the first column that has more bins than there are codes.
    pub fn fit(columns: &[Column], n_bins: usize) -> (r: Result<BinnedData, String>)
        ensures
            ({
                let k = first_overfull(columns@, n_bins as nat);
                if k < columns@.len() {
                    r matches Err(e) && e@ == overfull_message(
                        k,
                        bins_of(columns@[k as int], n_bins as nat).max_bin,
                        columns@[k as int] is Continuous,
                    )
                } else {
                    r matches Ok(d) && d@ == binned_of(columns@, n_bins as nat)
                }
            }),
    {
        let mut codes: Vec<Vec<Bin>> = Vec::new();
        let mut bins: Vec<FeatureBins> = Vec::new();
        let n_samples: usize = if columns.len() == 0 {
            0
        } else {
            columns[0].len()
        };
        let mut f: usize = 0;
        while f < columns.len()
            invariant
                f <= columns@.len(),
                codes@.len() == f,
                bins@.len() == f,
                forall|g: int|
                    #![trigger codes@[g]]
                    #![trigger bins@[g]]
                    0 <= g < f ==> codes@[g]@ == column_codes(columns@[g], n_bins as nat)
                        && bins@[g]@ == bins_of(columns@[g], n_bins as nat),
                forall|g: int| 0 <= g < f ==> bins_fit(#[trigger] columns@[g], n_bins as nat),
            decreases columns@.len() - f,
        {
            let col = &columns[f];
            let fb = bin_column(col, n_bins);
            if fb.max_bin > MISSING_BIN_CODE as usize {
                proof {
                    law_first_overfull(columns@, n_bins as nat);
                    let k = first_overfull(columns@, n_bins as nat);
                    if k < f {
                        assert(bins_fit(columns@[k as int], n_bins as nat));
                    }
                    if f < k {
                        assert(bins_fit(columns@[f as int], n_bins as nat));
                    }
                }
                return Err(overfull_text(f, fb.max_bin, col.is_continuous()));
            }
            let col_codes = code_column(col, &fb, Ghost(n_bins as nat));
            codes.push(col_codes);
            bins.push(fb);
            f += 1;
        }
        proof {
            law_first_overfull(columns@, n_bins as nat);
            let k = first_overfull(columns@, n_bins as nat);
            if k < f {
                assert(bins_fit(columns@[k as int], n_bins as nat));
            }
        }
        let r = BinnedData { codes, bins, n_samples };
        assert(r@ =~= binned_of(columns@, n_bins as nat));
        Ok(r)
    }

    /// Number of feature columns.
    pub fn n_features(&self) -> (r: usize)
        ensures
            r == self.codes@.len(),
    {
        self.codes.len()
    }
}

/// Every code of a binned column is missing or below the number of bins.
pub proof fn law_codes_are_bins(column: Column, n_bins: nat, i: int)
    requires
        bins_fit(column, n_bins),
        0 <= i < column.size(),
    ensures
        column_codes(column, n_bins)[i] == MISSING_BIN_CODE || column_codes(column, n_bins)[i]
            < bins_of(column, n_bins).max_bin,
{
    match column {
        Column::Continuous(v) => {
            encoder::lemma_reached_bound(encoder::edges_of(v@, n_bins), v@[i]);
        },
        Column::Categorical(c) => {
            let cats = bins_of(column, n_bins).categories;
            if cats.contains(c@[i]) {
                assert(0 <= cats.index_of(c@[i]) < cats.len());
            }
        },
    }
}

/// The code of a known category leads back to it.
pub proof fn law_category_round_trip(column: Column, n_bins: nat, i: int)
    requires
        column is Categorical,
        bins_fit(column, n_bins),
        0 <= i < column.size(),
        column->Categorical_0@[i] != UNKNOWN_CAT,
    ensures
        ({
            let bins = bins_of(column, n_bins);
            let code = column_codes(column, n_bins)[i];
            &&& code < bins.categories.len()
            &&& bins.categories[code as int] == column->Categorical_0@[i]
        }),
{
    let c = column->Categorical_0@;
    let bins = bins_of(column, n_bins);
    candidate::law_distinct(candidate::known(c));
    c.lemma_filter_contains(|x: u32| x != MISSING_BIN, i);
    assert(candidate::known(c).contains(c[i]));
    assert(bins.categories.contains(c[i]));
    let k = bins.categories.index_of(c[i]);
    assert(0 <= k < bins.categories.len() && bins.categories[k] == c[i]);
}

} // verus!
