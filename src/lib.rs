//! Isolation-forest anomaly detection over integer-valued feature rows.
//!
//! Trees are built by recursive random splitting of bootstrap samples; a row
//! is scored by the depth at which each tree isolates it. Feature values are
//! fixed-point integers, so every split and comparison is exact.

pub mod error;
pub mod matrix;
pub mod node;
mod random;
pub mod tree;
pub mod forest;
pub mod codec;

pub use error::ForestError;
pub use matrix::Matrix;
pub use node::IsolationNode;
pub use tree::IsolationTree;
pub use forest::IsolationTreeEnsembleThread;
