//! The steps of the storage client.

use vstd::prelude::*;

use crate::protocol::CLOSE_GROUP_SIZE;

pub mod batch;
pub mod chunk;
pub mod collection;
pub mod cost;
pub mod data;
pub mod file;
pub mod file_download;
pub mod file_upload;
pub mod merkle;
pub mod merkle_candidates;
pub mod merkle_pool;
pub mod merkle_store;
pub mod payment;
pub mod quote;
pub mod selection;
pub mod spill;
pub mod upload_run;

verus! {

/// Seconds that a storer may take to check a merkle proof, with some padding:
/// it looks up the close group, which may take 240 seconds.
pub const DEFAULT_MERKLE_STORE_TIMEOUT_SECS: u64 = 270;

/// Settings of the storage client.
#[derive(Clone, Copy, Debug)]
pub struct ClientConfig {
    /// Number of peers that are responsible for one address.
    pub close_group_size: usize,
    /// Time limit in seconds for one quote.
    pub quote_timeout_secs: u64,
    /// Time limit in seconds for fetching a chunk from one peer.
    pub chunk_get_timeout_secs: u64,
    /// Time limit in seconds for storing a chunk with a merkle proof.
    pub merkle_store_timeout_secs: u64,
}

impl Default for ClientConfig {
    fn default() -> (r: ClientConfig)
        ensures
            r.close_group_size == CLOSE_GROUP_SIZE,
            r.quote_timeout_secs == 10,
            r.chunk_get_timeout_secs == 10,
            r.merkle_store_timeout_secs == DEFAULT_MERKLE_STORE_TIMEOUT_SECS,
    {
        ClientConfig {
            close_group_size: CLOSE_GROUP_SIZE,
            quote_timeout_secs: 10,
            chunk_get_timeout_secs: 10,
            merkle_store_timeout_secs: DEFAULT_MERKLE_STORE_TIMEOUT_SECS,
        }
    }
}

/// The storage client.
pub struct Client {
    pub config: ClientConfig,
}

} // verus!
