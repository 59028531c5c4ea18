//! Search-and-replace across files: the decisions that the command line
//! tool makes, verified.

pub mod replace;
pub mod pattern;
pub mod text;
pub mod lines;
pub mod interactive;
pub mod cli;
pub mod confirm;
pub mod walk;
