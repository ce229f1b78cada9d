//! Storing and fetching data.

pub mod client;
pub mod data_map;
pub mod error;
pub mod network;
pub mod peer_cache;
