//! Client library for an autonomous storage network: quotes, payments, chunk
//! storage and retrieval, the peer cache and node management rules.
//!
//! Everything here is a function on plain values; sockets, files and wallets
//! stay with the caller.

pub mod chunked;
pub mod cli;
pub mod collections;
pub mod data;
pub mod node;
pub mod order;
pub mod paths;
pub mod protocol;
pub mod text;
pub mod uint256;
pub mod xor;
