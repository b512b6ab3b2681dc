//! The verified core of an Open Job Description runtime.

pub mod assoc;
pub mod binary64;
pub mod budgeted_vec;
pub mod comparison;
pub mod context;
pub mod decimal;
pub mod differential;
pub mod display;
pub mod error;
pub mod format_string;
pub mod functions;
pub mod hash;
pub mod json;
pub mod json_text;
pub mod laws;
pub mod manifest;
pub mod model;
pub mod op_table;
pub mod range_expr;
pub mod repr;
pub mod sessions;
pub mod symbol_table;
pub mod text;
pub mod types;
pub mod value;
