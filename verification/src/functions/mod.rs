//! Functions of the expression language.

pub mod arithmetic;
pub mod math;
pub mod path;
