//! Tables of numbers, and the columns and rows that a tree reads from them.

use crate::binning;
use crate::data::{CatId, Column, FeatureValue, UNKNOWN_CAT};
use crate::float::Float;
use crate::tree::node;
use crate::tree::restore;
use crate::tree::task::ClassPrediction;
use vstd::prelude::*;

verus! {

/// A table of numbers, row by row.
pub struct Table {
    /// Number of rows.
    pub n_rows: usize,
    /// Number of columns.
    pub n_cols: usize,
    /// The cells, row by row.
    pub cells: Vec<Float>,
}

impl Table {
    /// Whether there is a cell for each row and column.
    pub open spec fn full(&self) -> bool {
        self.cells@.len() == self.n_rows * self.n_cols
    }

    /// The number in row `i` and column `j`.
    pub open spec fn at(&self, i: int, j: int) -> Float {
        self.cells@[i * self.n_cols + j]
    }

    /// The number in row `i` and column `j`.
    pub fn cell(&self, i: usize, j: usize) -> (r: Float)
        requires
            self.full(),
            i < self.n_rows,
            j < self.n_cols,
        ensures
            r == self.at(i as int, j as int),
    {
        let n: usize = self.cells.len();
        let w: usize = self.n_cols;
        let h: usize = self.n_rows;
        assert(i * w + j < h * w) by (nonlinear_arith)
            requires
                i < h,
                j < w,
        ;
        assert(0 <= i * w) by (nonlinear_arith);
        self.cells[i * w + j]
    }
}

/// Whether the numbers rise from each to the next.
pub open spec fn rising(s: Seq<usize>) -> bool {
    forall|i: int, j: int| 0 <= i < j < s.len() ==> #[trigger] s[i] < #[trigger] s[j]
}

/// The column numbers in rising order, each once.
pub fn sorted_categorical(categorical: Vec<usize>) -> (r: Vec<usize>)
    ensures
        rising(r@),
        forall|x: usize| #[trigger] r@.contains(x) <==> categorical@.contains(x),
{
    let mut r: Vec<usize> = Vec::new();
    let mut k: usize = 0;
    while k < categorical.len()
        invariant
            k <= categorical@.len(),
            rising(r@),
            forall|x: usize| #[trigger]
                r@.contains(x) <==> categorical@.take(k as int).contains(x),
        decreases categorical@.len() - k,
    {
        let x: usize = categorical[k];
        let ghost before = r@;
        let ghost seen = categorical@.take(k as int);
        let p: usize = place(&r, x);
        if p == r.len() || r[p] != x {
            r.insert(p, x);
            proof {
                assert(r@ =~= before.insert(p as int, x));
                lemma_inserted(before, p as int, x);
            }
        }
        proof {
            assert(categorical@.take(k + 1) =~= seen.push(x));
            assert forall|y: usize| #[trigger] r@.contains(y) <==> categorical@.take(
                k + 1,
            ).contains(y) by {
                lemma_contains_push(seen, x, y);
            }
        }
        k += 1;
    }
    assert(categorical@.take(k as int) =~= categorical@);
    r
}

proof fn lemma_contains_push(s: Seq<usize>, x: usize, y: usize)
    ensures
        s.push(x).contains(y) <==> s.contains(y) || x == y,
{
    assert(s.push(x)[s.len() as int] == x);
    if s.contains(y) {
        let k = choose|k: int| 0 <= k < s.len() && s[k] == y;
        assert(s.push(x)[k] == y);
    }
}

proof fn lemma_inserted(s: Seq<usize>, p: int, x: usize)
    requires
        rising(s),
        0 <= p <= s.len(),
        forall|i: int| 0 <= i < p ==> #[trigger] s[i] < x,
        forall|i: int| p <= i < s.len() ==> x < #[trigger] s[i],
    ensures
        rising(s.insert(p, x)),
        forall|y: usize| #[trigger] s.insert(p, x).contains(y) <==> s.contains(y) || y == x,
{
    let t = s.insert(p, x);
    assert forall|y: usize| #[trigger] t.contains(y) <==> s.contains(y) || y == x by {
        assert(t[p] == x);
        if s.contains(y) {
            let k = choose|k: int| 0 <= k < s.len() && s[k] == y;
            if k < p {
                assert(t[k] == y);
            } else {
                assert(t[k + 1] == y);
            }
        }
        if t.contains(y) && y != x {
            let k = choose|k: int| 0 <= k < t.len() && t[k] == y;
            if k < p {
                assert(s[k] == y);
            } else {
                assert(s[k - 1] == y);
            }
        }
    }
    assert forall|i: int, j: int| 0 <= i < j < t.len() implies #[trigger] t[i] < #[trigger] t[j] by {
        if j < p {
            assert(s[i] < s[j]);
        } else if j == p {
            assert(s[i] < x);
        } else if i < p {
            assert(s[i] < s[j - 1]);
        } else if i > p {
            assert(s[i - 1] < s[j - 1]);
        }
    }
}

/// Where the first number stands that is not below `x`.
fn place(s: &[usize], x: usize) -> (r: usize)
    requires
        rising(s@),
    ensures
        r <= s@.len(),
        forall|i: int| 0 <= i < r ==> #[trigger] s@[i] < x,
        forall|i: int| r <= i < s@.len() ==> x <= #[trigger] s@[i],
{
    let mut lo: usize = 0;
    let mut hi: usize = s.len();
    while lo < hi
        invariant
            lo <= hi <= s@.len(),
            rising(s@),
            forall|i: int| 0 <= i < lo ==> #[trigger] s@[i] < x,
            forall|i: int| hi <= i < s@.len() ==> x <= #[trigger] s@[i],
        decreases hi - lo,
    {
        let mid: usize = lo + (hi - lo) / 2;
        if s[mid] < x {
            lo = mid + 1;
        } else {
            hi = mid;
        }
    }
    lo
}

/// Whether column `j` is one of the given columns, which are in rising order.
pub fn is_categorical(j: usize, categorical: &[usize]) -> (r: bool)
    requires
        rising(categorical@),
    ensures
        r == categorical@.contains(j),
{
    let p: usize = place(categorical, j);
    let found: bool = p < categorical.len() && categorical[p] == j;
    proof {
        if categorical@.contains(j) {
            let k = choose|k: int| 0 <= k < categorical@.len() && categorical@[k] == j;
            assert(categorical@[k] == j);
            if k > p {
                assert(categorical@[p as int] < categorical@[k]);
            }
        }
    }
    found
}

/// The category that a number stands for: the nearest whole number, halves upward. Numbers below
/// zero and numbers that are not finite stand for the unknown category.
pub open spec fn category_of(x: Float) -> CatId {
    if x.finite() && Float::at_most(Float::zero(), x) {
        x.round_within(u32::MAX as nat) as CatId
    } else {
        UNKNOWN_CAT
    }
}

/// The category that a number stands for.
pub fn to_cat(val: Float) -> (r: CatId)
    ensures
        r == category_of(val),
{
    if val.is_finite() && Float::zero().le(val) {
        val.round_to_u32()
    } else {
        UNKNOWN_CAT
    }
}

/// A number as a value of a feature.
pub open spec fn read_as(x: Float, categorical: bool) -> FeatureValue {
    if categorical {
        FeatureValue::Categorical(category_of(x))
    } else {
        FeatureValue::Continuous(x)
    }
}

/// Whether a column holds column `j` of a table.
pub open spec fn column_of(c: Column, x: &Table, categorical: Seq<usize>, j: int) -> bool {
    &&& c is Categorical <==> categorical.contains(j as usize)
    &&& c.size() == x.n_rows
    &&& forall|i: int|
        0 <= i < x.n_rows ==> #[trigger] binning::value_at(c, i) == read_as(
            x.at(i, j),
            categorical.contains(j as usize),
        )
}

/// The columns of a table, those with the given numbers as categories.
pub fn build_columns(x: &Table, categorical: &[usize]) -> (r: Vec<Column>)
    requires
        x.full(),
        rising(categorical@),
    ensures
        r@.len() == x.n_cols,
        forall|j: int| 0 <= j < r@.len() ==> column_of(#[trigger] r@[j], x, categorical@, j),
{
    let n: usize = x.n_rows;
    let d: usize = x.n_cols;
    let mut cols: Vec<Column> = Vec::new();
    let mut j: usize = 0;
    while j < d
        invariant
            j <= d,
            d == x.n_cols,
            n == x.n_rows,
            x.full(),
            rising(categorical@),
            cols@.len() == j,
            forall|k: int| 0 <= k < j ==> column_of(#[trigger] cols@[k], x, categorical@, k),
        decreases d - j,
    {
        let col = if is_categorical(j, categorical) {
            let mut v: Vec<CatId> = Vec::new();
            let mut i: usize = 0;
            while i < n
                invariant
                    i <= n,
                    j < d,
                    d == x.n_cols,
                    n == x.n_rows,
                    x.full(),
                    v@.len() == i,
                    forall|k: int| 0 <= k < i ==> #[trigger] v@[k] == category_of(x.at(k, j as int)),
                decreases n - i,
            {
                v.push(to_cat(x.cell(i, j)));
                i += 1;
            }
            Column::Categorical(v)
        } else {
            let mut v: Vec<Float> = Vec::new();
            let mut i: usize = 0;
            while i < n
                invariant
                    i <= n,
                    j < d,
                    d == x.n_cols,
                    n == x.n_rows,
                    x.full(),
                    v@.len() == i,
                    forall|k: int| 0 <= k < i ==> #[trigger] v@[k] == x.at(k, j as int),
                decreases n - i,
            {
                v.push(x.cell(i, j));
                i += 1;
            }
            Column::Continuous(v)
        };
        assert(column_of(col, x, categorical@, j as int));
        cols.push(col);
        j += 1;
    }
    cols
}

/// Row `i` of a table, columns with the given numbers as categories.
pub open spec fn row_of(x: &Table, categorical: Seq<usize>, i: int) -> Seq<FeatureValue> {
    Seq::new(
        x.n_cols as nat,
        |j: int| read_as(x.at(i, j), categorical.contains(j as usize)),
    )
}

/// The rows of a table, columns with the given numbers as categories.
pub fn build_rows(x: &Table, categorical: &[usize]) -> (r: Vec<Vec<FeatureValue>>)
    requires
        x.full(),
        rising(categorical@),
    ensures
        r@.len() == x.n_rows,
        forall|i: int| 0 <= i < r@.len() ==> (#[trigger] r@[i])@ == row_of(x, categorical@, i),
{
    let n: usize = x.n_rows;
    let d: usize = x.n_cols;
    let mut rows: Vec<Vec<FeatureValue>> = Vec::new();
    let mut i: usize = 0;
    while i < n
        invariant
            i <= n,
            d == x.n_cols,
            n == x.n_rows,
            x.full(),
            rising(categorical@),
            rows@.len() == i,
            forall|k: int| 0 <= k < i ==> (#[trigger] rows@[k])@ == row_of(x, categorical@, k),
        decreases n - i,
    {
        let mut row: Vec<FeatureValue> = Vec::new();
        let mut j: usize = 0;
        while j < d
            invariant
                j <= d,
                i < n,
                d == x.n_cols,
                n == x.n_rows,
                x.full(),
                rising(categorical@),
                row@ == row_of(x, categorical@, i as int).take(j as int),
            decreases d - j,
        {
            let val = x.cell(i, j);
            if is_categorical(j, categorical) {
                row.push(FeatureValue::cat(to_cat(val)));
            } else {
                row.push(FeatureValue::cont(val));
            }
            j += 1;
            assert(row@ =~= row_of(x, categorical@, i as int).take(j as int));
        }
        assert(row@ =~= row_of(x, categorical@, i as int));
        rows.push(row);
        i += 1;
    }
    rows
}

/// A training sample is read the same way as a sample to predict.
pub proof fn law_rows_agree_with_columns(
    x: &Table,
    categorical: Seq<usize>,
    columns: Seq<Column>,
    i: int,
)
    requires
        columns.len() == x.n_cols,
        forall|j: int| 0 <= j < columns.len() ==> column_of(#[trigger] columns[j], x, categorical, j),
        0 <= i < x.n_rows,
    ensures
        node::row_of(columns, i) == row_of(x, categorical, i),
{
    assert forall|j: int| 0 <= j < columns.len() implies node::row_of(columns, i)[j] == row_of(
        x,
        categorical,
        i,
    )[j] by {
        assert(column_of(columns[j], x, categorical, j));
        assert(binning::value_at(columns[j], i) == read_as(
            x.at(i, j),
            categorical.contains(j as usize),
        ));
    }
    assert(node::row_of(columns, i) =~= row_of(x, categorical, i));
}

/// Class ids read from signed numbers; those below zero count as zero.
pub open spec fn targets_of(y: Seq<i64>) -> Seq<usize> {
    Seq::new(y.len(), |i: int| restore::clamped(y[i]))
}

/// Class ids read from signed numbers; those below zero count as zero.
pub fn class_targets(y: &[i64]) -> (r: Vec<usize>)
    ensures
        r@ == targets_of(y@),
{
    let mut r: Vec<usize> = Vec::new();
    let mut i: usize = 0;
    while i < y.len()
        invariant
            i <= y@.len(),
            r@ == targets_of(y@.take(i as int)),
        decreases y@.len() - i,
    {
        r.push(
            if y[i] > 0 {
                y[i] as usize
            } else {
                0
            },
        );
        i += 1;
        assert(r@ =~= targets_of(y@.take(i as int)));
    }
    assert(y@.take(i as int) =~= y@);
    r
}

/// The predicted classes as signed numbers.
pub fn class_labels(preds: &[ClassPrediction]) -> (r: Vec<i64>)
    ensures
        r@ == Seq::new(preds@.len(), |i: int| preds@[i].class as i64),
{
    let mut r: Vec<i64> = Vec::new();
    let mut i: usize = 0;
    while i < preds.len()
        invariant
            i <= preds@.len(),
            r@ == Seq::new(i as nat, |k: int| preds@[k].class as i64),
        decreases preds@.len() - i,
    {
        r.push(preds[i].class as i64);
        i += 1;
        assert(r@ =~= Seq::new(i as nat, |k: int| preds@[k].class as i64));
    }
    r
}

} // verus!
