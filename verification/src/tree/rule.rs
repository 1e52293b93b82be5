//! Routing rules.

use crate::binning;
use crate::data::{Column, FeatureValue, UNKNOWN_CAT};
use crate::encoder;
use crate::float::Float;
use vstd::prelude::*;

verus! {

/// A routing rule of an internal node. A sample that matches goes left. Missing values never
/// match, so they go right.
#[derive(Clone, Copy, Debug, PartialEq)]
pub enum SplitRule {
    /// A continuous feature lies between two ends; an absent end is open.
    ContinuousBin {
        /// Feature index.
        feature: usize,
        /// Lower end, included.
        lower: Option<Float>,
        /// Upper end, excluded.
        upper: Option<Float>,
    },
    /// A categorical feature is a given category.
    Category {
        /// Feature index.
        feature: usize,
        /// Category id.
        category: u32,
    },
}

impl SplitRule {
    /// The tested feature.
    pub open spec fn tested(self) -> usize {
        match self {
            SplitRule::ContinuousBin { feature, .. } => feature,
            SplitRule::Category { feature, .. } => feature,
        }
    }

    /// Whether a value of the tested feature goes left.
    pub open spec fn takes(self, value: FeatureValue) -> bool {
        match self {
            SplitRule::ContinuousBin { lower, upper, .. } => match value {
                FeatureValue::Continuous(x) => x.finite() && encoder::within(x, lower, upper),
                FeatureValue::Categorical(_) => false,
            },
            SplitRule::Category { category, .. } => value == FeatureValue::Categorical(category),
        }
    }

    /// Whether the ends that are present are finite.
    pub open spec fn ends_finite(self) -> bool {
        match self {
            SplitRule::ContinuousBin { lower, upper, .. } => {
                &&& lower matches Some(x) ==> x.finite()
                &&& upper matches Some(x) ==> x.finite()
            },
            SplitRule::Category { .. } => true,
        }
    }

    /// Whether training sample `i` goes left.
    pub open spec fn takes_sample(self, columns: Seq<Column>, i: int) -> bool {
        self.takes(binning::value_at(columns[self.tested() as int], i))
    }

    /// The feature that this rule tests.
    pub fn feature(&self) -> (r: usize)
        ensures
            r == self.tested(),
    {
        match self {
            SplitRule::ContinuousBin { feature, .. } => *feature,
            SplitRule::Category { feature, .. } => *feature,
        }
    }

    /// Whether training sample `i` goes left, read from the columns.
    pub fn route_left_train(&self, columns: &[Column], i: usize) -> (r: bool)
        requires
            self.tested() < columns@.len(),
            (self is ContinuousBin) == (columns@[self.tested() as int] is Continuous) ==> i
                < columns@[self.tested() as int].size(),
        ensures
            r == self.takes_sample(columns@, i as int),
    {
        match self {
            SplitRule::ContinuousBin { feature, lower, upper } => {
                match &columns[*feature] {
                    Column::Continuous(v) => v[i].is_finite() && lies_within(v[i], *lower, *upper),
                    Column::Categorical(_) => false,
                }
            },
            SplitRule::Category { feature, category } => {
                match &columns[*feature] {
                    Column::Continuous(_) => false,
                    Column::Categorical(c) => c[i] == *category,
                }
            },
        }
    }

    /// Whether a sample goes left.
    pub fn route_left_sample(&self, sample: &[FeatureValue]) -> (r: bool)
        requires
            self.tested() < sample@.len(),
        ensures
            r == self.takes(sample@[self.tested() as int]),
    {
        match self {
            SplitRule::ContinuousBin { feature, lower, upper } => {
                match sample[*feature] {
                    FeatureValue::Continuous(x) => x.is_finite() && lies_within(x, *lower, *upper),
                    FeatureValue::Categorical(_) => false,
                }
            },
            SplitRule::Category { feature, category } => {
                match sample[*feature] {
                    FeatureValue::Continuous(_) => false,
                    FeatureValue::Categorical(c) => c == *category,
                }
            },
        }
    }
}

fn lies_within(x: Float, lower: Option<Float>, upper: Option<Float>) -> (r: bool)
    ensures
        r == encoder::within(x, lower, upper),
{
    let above: bool = match lower {
        Some(l) => l.le(x),
        None => true,
    };
    let below: bool = match upper {
        Some(u) => x.lt(u),
        None => true,
    };
    above && below
}

/// Whether a value is missing: a number that is not finite, or an unknown category.
pub open spec fn missing(value: FeatureValue) -> bool {
    match value {
        FeatureValue::Continuous(x) => !x.finite(),
        FeatureValue::Categorical(c) => c == UNKNOWN_CAT,
    }
}

/// Missing values and values of the other type never match, so they go right.
pub proof fn law_missing_goes_right(rule: SplitRule, value: FeatureValue)
    requires
        value matches FeatureValue::Continuous(x) ==> !x.finite() || rule is Category,
        value is Categorical ==> rule is ContinuousBin,
    ensures
        !rule.takes(value),
{
}

} // verus!
