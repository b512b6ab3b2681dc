//! Comparison of the evaluator with a reference on the same expressions.

pub mod adapters;
pub mod allowlist;
pub mod equivalence;
pub mod evaluation;
pub mod generator;
pub mod oracle;
