//! Templates of jobs and environments.

pub mod error;
pub mod template;
pub mod types;
pub mod validate_v2023_09;
pub mod validation;
