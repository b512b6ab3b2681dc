//! Running the actions of a session.

pub mod duration;
pub mod error;
pub mod helper;
pub mod runner;
