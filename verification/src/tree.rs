//! Tree construction and prediction.

pub mod estimator;
pub mod export;
pub mod fast;
pub mod growth;
pub mod node;
pub mod params;
pub mod restore;
pub mod rule;
pub mod strict;
pub mod task;

pub use estimator::DecisionTree;
pub use export::ExportedNode;
pub use node::Node;
pub use params::{SplitMode, SplitStyle, TreeParams};
pub use rule::SplitRule;
pub use task::{
    ClassPrediction, Classification, LeafInfo, ObjectiveClassification, Regression, Task,
};
