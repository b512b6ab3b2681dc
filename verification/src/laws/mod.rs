//! What the functions of the library guarantee to those who use them.

pub mod floats;
pub mod operators;
pub mod rounding;
pub mod templates;
pub mod actions;
pub mod agreement;
pub mod values;
pub mod texts;
pub mod snapshots;
pub mod symbols;
pub mod paths;
pub mod helpers;
pub mod documents;
pub mod limits;
pub mod formats;
pub mod results;
pub mod shown;
pub mod sizes;
pub mod cases;
pub mod syntax;
pub mod messages;
pub mod findings;
