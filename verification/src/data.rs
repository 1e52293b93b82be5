//! Column-major data: continuous and categorical feature columns, and the values of a sample.

use crate::float::Float;
use crate::text;
use vstd::prelude::*;
use vstd::string::*;

verus! {

/// Integer id of a categorical level.
pub type CatId = u32;

/// Compact sample index used by the histogram build path.
pub type SampleId = u32;

/// Compact per-sample bin code used by the histogram build path.
pub type Bin = u16;

/// Reserved bin code for a missing or unknown value on the histogram path.
pub const MISSING_BIN_CODE: Bin = 0xffff;

/// Sentinel for a categorical value that was never observed while fitting.
pub const UNKNOWN_CAT: CatId = 0xffff_ffff;

/// A single feature column.
#[derive(Clone, Debug, PartialEq)]
pub enum Column {
    /// Continuous values; entries that are not finite count as missing.
    Continuous(Vec<Float>),
    /// Categorical values as integer ids.
    Categorical(Vec<CatId>),
}

impl Column {
    /// Number of samples in the column.
    pub open spec fn size(&self) -> nat {
        match self {
            Column::Continuous(v) => v@.len(),
            Column::Categorical(v) => v@.len(),
        }
    }

    /// Number of samples in the column.
    pub fn len(&self) -> (r: usize)
        ensures
            r == self.size(),
    {
        match self {
            Column::Continuous(v) => v.len(),
            Column::Categorical(v) => v.len(),
        }
    }

    /// Whether the column has no samples.
    pub fn is_empty(&self) -> (r: bool)
        ensures
            r == (self.size() == 0),
    {
        self.len() == 0
    }

    /// Whether this is a continuous column.
    pub fn is_continuous(&self) -> (r: bool)
        ensures
            r == (self is Continuous),
    {
        match self {
            Column::Continuous(_) => true,
            Column::Categorical(_) => false,
        }
    }

    /// Whether this is a categorical column.
    pub fn is_categorical(&self) -> (r: bool)
        ensures
            r == (self is Categorical),
    {
        match self {
            Column::Continuous(_) => false,
            Column::Categorical(_) => true,
        }
    }
}

/// Position of the first column whose length differs from `n`, or the number of columns.
pub open spec fn first_ragged(columns: Seq<Column>, n: nat) -> nat
    decreases columns.len(),
{
    if columns.len() == 0 {
        0
    } else {
        let before = first_ragged(columns.drop_last(), n);
        if before < columns.len() - 1 || columns.last().size() != n {
            before
        } else {
            columns.len()
        }
    }
}

/// The message for a column of the wrong length.
pub open spec fn ragged_message(column: nat, found: nat, expected: nat) -> Seq<char> {
    "column "@ + text::decimal(column) + " has length "@ + text::decimal(found)
        + " but expected "@ + text::decimal(expected)
}

/// What `first_ragged` finds: every column before it has length `n`, and it does not.
pub proof fn law_first_ragged(columns: Seq<Column>, n: nat)
    ensures
        first_ragged(columns, n) <= columns.len(),
        forall|i: int| 0 <= i < first_ragged(columns, n) ==> #[trigger] columns[i].size() == n,
        first_ragged(columns, n) < columns.len() ==> columns[first_ragged(
            columns,
            n,
        ) as int].size() != n,
    decreases columns.len(),
{
    if columns.len() > 0 {
        law_first_ragged(columns.drop_last(), n);
        let k = first_ragged(columns.drop_last(), n);
        assert forall|i: int| 0 <= i < first_ragged(columns, n) implies #[trigger] columns[i].size()
            == n by {
            if i < columns.len() - 1 {
                assert(columns.drop_last()[i] == columns[i]);
            }
        }
        if k < columns.len() - 1 {
            assert(columns.drop_last()[k as int] == columns[k as int]);
        }
    }
}

/// Finds the first column whose length is not `n`.
pub(crate) fn find_ragged(columns: &[Column], n: usize) -> (r: Option<usize>)
    ensures
        match r {
            Some(i) => i == first_ragged(columns@, n as nat) && i < columns@.len(),
            None => first_ragged(columns@, n as nat) == columns@.len(),
        },
{
    let mut i: usize = 0;
    while i < columns.len()
        invariant
            i <= columns@.len(),
            forall|j: int| 0 <= j < i ==> #[trigger] columns@[j].size() == n,
        decreases columns@.len() - i,
    {
        if columns[i].len() != n {
            proof {
                law_first_ragged(columns@, n as nat);
                let k = first_ragged(columns@, n as nat);
                if k < i {
                    assert(columns@[k as int].size() == n);
                }
                if i < k {
                    assert(columns@[i as int].size() == n);
                }
            }
            return Some(i);
        }
        i += 1;
    }
    proof {
        law_first_ragged(columns@, n as nat);
        let k = first_ragged(columns@, n as nat);
        if k < i {
            assert(columns@[k as int].size() == n);
        }
    }
    None
}

pub(crate) fn ragged_text(column: usize, found: usize, expected: usize) -> (r: String)
    ensures
        r@ == ragged_message(column as nat, found as nat, expected as nat),
{
    let mut out = "column ".to_owned();
    text::push_decimal(&mut out, column);
    out.append(" has length ");
    text::push_decimal(&mut out, found);
    out.append(" but expected ");
    text::push_decimal(&mut out, expected);
    out
}

/// A collection of feature columns of equal length.
#[derive(Clone, Debug)]
pub struct Dataset {
    /// Feature columns.
    pub columns: Vec<Column>,
    /// Number of samples (rows).
    pub n_samples: usize,
}

impl Dataset {
    /// Every column holds one entry per sample, and there is at least one column.
    pub open spec fn aligned(&self) -> bool {
        self.columns@.len() > 0 && forall|i: int|
            0 <= i < self.columns@.len() ==> #[trigger] self.columns@[i].size() == self.n_samples
    }

    /// Builds a dataset; fails when there is no column or the lengths differ.
    pub fn new(columns: Vec<Column>) -> (r: Result<Dataset, String>)
        ensures
            columns@.len() == 0 ==> (r matches Err(e) && e@
                == "dataset needs at least one column"@),
            columns@.len() > 0 ==> {
                let n = columns@[0].size();
                let k = first_ragged(columns@, n);
                if k < columns@.len() {
                    r matches Err(e) && e@ == ragged_message(k, columns@[k as int].size(), n)
                } else {
                    r matches Ok(d) && d.columns@ == columns@ && d.n_samples == n && d.aligned()
                }
            },
    {
        if columns.len() == 0 {
            return Err("dataset needs at least one column".to_owned());
        }
        let n: usize = columns[0].len();
        match find_ragged(columns.as_slice(), n) {
            Some(i) => Err(ragged_text(i, columns[i].len(), n)),
            None => {
                proof {
                    law_first_ragged(columns@, n as nat);
                }
                Ok(Dataset { columns, n_samples: n })
            },
        }
    }

    /// Number of feature columns.
    pub fn n_features(&self) -> (r: usize)
        ensures
            r == self.columns@.len(),
    {
        self.columns.len()
    }
}

/// A single feature value of a sample.
#[derive(Clone, Copy, Debug, PartialEq)]
pub enum FeatureValue {
    /// Continuous value.
    Continuous(Float),
    /// Categorical id.
    Categorical(CatId),
}

impl FeatureValue {
    /// A continuous value.
    pub fn cont(x: Float) -> (r: FeatureValue)
        ensures
            r == FeatureValue::Continuous(x),
    {
        FeatureValue::Continuous(x)
    }

    /// A categorical value.
    pub fn cat(c: CatId) -> (r: FeatureValue)
        ensures
            r == FeatureValue::Categorical(c),
    {
        FeatureValue::Categorical(c)
    }
}

} // verus!
