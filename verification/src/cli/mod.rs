//! What the command line decides and reports.

pub mod add;
pub mod chunk;
pub mod file;
