//! What the operations are for: statements over their inputs and results.

pub mod counting;
pub mod encoding;
pub mod histograms;
pub mod impurities;
pub mod inputs;
pub mod leaves;
pub mod metric_gain;
pub mod metrics;
pub mod scoring;
pub mod sharing;
pub mod splitting;
pub mod summaries;
pub mod texts;
pub mod trees;
