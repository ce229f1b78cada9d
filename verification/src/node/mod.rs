//! Node management: configuration, results and errors.

pub mod error;
pub mod types;
