//! Files prepared for upload with an external signer, and the results of
//! uploads.

use vstd::prelude::*;
use vstd::string::*;

use crate::collections::{address_views, AddressMap};
use crate::data::client::batch::{
    all_infos, due_entries, due_total, finalize_batch_payment, is_paid_version, provable,
    unprovable, PaidChunk, PaymentIntent, PreparedChunk, WavePreparation, WaveResult,
};
use crate::data::client::file_upload::{short_message, short_text, UploadTotals};
use crate::data::client::merkle::{
    byte_views, chunk_contents_for_upload_addresses, contents_at, is_selection, merkle_applies,
    missing_content_text, selectable, should_use_merkle, times_asked, MerkleBatchPaymentResult,
    MerkleUploadPlan, PaymentMode,
};
use crate::data::client::merkle_pool::{
    byte_map, finalize_merkle_batch, proof_bytes, proof_failure, proof_map, winner,
    PreparedMerkleBatch,
};
use crate::data::client::merkle_store::{
    MerkleStoreOutcome, WaveAggregateStats, MERKLE_STORE_MAX_ATTEMPTS,
};
use crate::data::client::Client;
use crate::data::data_map::{data_map_chunk_bytes, decoded_data_map, encoded_data_map, DataMap};
use crate::data::error::{gives_reason, Error};
use crate::protocol::{announced_proof, compute_address, content_address, ProofType};
use crate::text::hex_text;
use crate::uint256::two128;

verus! {

/// Progress of an upload.
#[derive(Debug, Clone, Copy, PartialEq, Eq, Structural)]
pub enum UploadEvent {
    /// A chunk has been encrypted and spilled to disk.
    Encrypting { chunks_done: usize },
    /// File encryption complete.
    Encrypted { total_chunks: usize },
    /// Starting quote collection for a wave.
    QuotingChunks { wave: usize, total_waves: usize, chunks_in_wave: usize },
    /// A chunk has been quoted (peer discovery and price received).
    ChunkQuoted { quoted: usize, total: usize },
    /// A chunk has been stored on the network.
    ChunkStored { stored: usize, total: usize },
    /// A wave has completed.
    WaveComplete { wave: usize, total_waves: usize, stored_so_far: usize, total: usize },
}

/// Whether the data map is published to the network for address-based
/// retrieval.
#[derive(Debug, Clone, Copy, PartialEq, Eq, Structural)]
pub enum Visibility {
    /// Keep the data map local; only the holder can retrieve the file.
    Private,
    /// Publish the data map as a network chunk so anyone with the returned
    /// address can retrieve and decrypt the file.
    Public,
}

impl Default for Visibility {
    fn default() -> (r: Visibility)
        ensures
            r is Private,
    {
        Visibility::Private
    }
}

/// Result of a file upload: the data map needed to retrieve the file.
pub struct FileUploadResult {
    /// The data map containing chunk metadata for reconstruction.
    pub data_map: DataMap,
    /// Number of chunks stored on the network.
    pub chunks_stored: usize,
    /// Number of chunks that failed to store.
    pub chunks_failed: usize,
    /// Total number of chunks in the upload, with those already stored.
    pub total_chunks: usize,
    /// Which payment mode was actually used (not just requested).
    pub payment_mode_used: PaymentMode,
    /// Total storage cost paid in token units (atto). "0" if all chunks already
    /// existed.
    pub storage_cost_atto: String,
    /// Total gas cost in wei. 0 if no on-chain transactions were made.
    pub gas_cost_wei: u128,
    /// Chunk address of the published data map.
    pub data_map_address: Option<[u8; 32]>,
    /// Sum of chunk-store attempts across the upload.
    pub chunk_attempts_total: usize,
    /// Per-chunk store wall-clock in ms.
    pub store_durations_ms: Vec<u64>,
    /// Count of stored chunks that succeeded on each retry round.
    pub retries_histogram: [usize; 4],
}

/// Payment information for external signing: either wave-batch or merkle.
pub enum ExternalPaymentInfo {
    /// Wave-batch: individual (quote_hash, rewards_address, amount) tuples.
    WaveBatch {
        /// Chunks ready for payment (needed for finalize).
        prepared_chunks: Vec<PreparedChunk>,
        /// Payment intent for external signing.
        payment_intent: PaymentIntent,
    },
    /// Merkle: single on-chain call with depth, pool commitments, timestamp.
    Merkle {
        /// The prepared merkle batch.
        prepared_batch: PreparedMerkleBatch,
        /// Raw chunk contents that still need upload after the preflight check.
        chunk_contents: Vec<Vec<u8>>,
        /// Chunk addresses that still need upload after the preflight check.
        chunk_addresses: Vec<[u8; 32]>,
    },
}

/// Prepared upload ready for external payment.
pub struct PreparedUpload {
    /// The data map for later retrieval.
    pub data_map: DataMap,
    /// Payment information for chunks that still need payment.
    pub payment_info: ExternalPaymentInfo,
    /// Chunk address of the data map of a public upload.
    pub data_map_address: Option<[u8; 32]>,
    /// Chunk addresses already present on the network.
    pub already_stored_addresses: Vec<[u8; 32]>,
    /// Total chunk count for the upload, including already-stored chunks.
    pub total_chunks: usize,
}

/// For a public upload, puts the data map's chunk behind the chunks of the file,
/// so that both are paid for together; gives its address.
pub fn bundle_data_map(
    chunks: &mut Vec<Vec<u8>>,
    data_map: &DataMap,
    visibility: Visibility,
) -> (r: Result<Option<[u8; 32]>, Error>)
    ensures
        match visibility {
            Visibility::Private => r == Ok::<Option<[u8; 32]>, Error>(None) && final(chunks)@ == old(chunks)@,
            Visibility::Public => match encoded_data_map(data_map@) {
                Some(bytes) => {
                    &&& r matches Ok(Some(address)) && address@ == content_address(bytes)
                    &&& final(chunks)@.len() == old(chunks)@.len() + 1
                    &&& final(chunks)@.drop_last() == old(chunks)@
                    &&& final(chunks)@.last()@ == bytes
                    &&& decoded_data_map(bytes) == Some(data_map@)
                },
                None => (r matches Err(Error::Serialization(m)) && gives_reason(
                    m@,
                    "Failed to serialize DataMap: "@,
                )) && final(chunks)@ == old(chunks)@,
            },
        },
{
    match visibility {
        Visibility::Private => Ok(None),
        Visibility::Public => {
            let bytes = match data_map_chunk_bytes(data_map) {
                Ok(b) => b,
                Err(e) => {
                    return Err(e);
                },
            };
            let address = compute_address(bytes.as_slice());
            let ghost before = chunks@;
            chunks.push(bytes);
            assert(chunks@.drop_last() =~= before);
            Ok(Some(address))
        },
    }
}

/// The addresses and sizes of chunks.
pub fn entries_of(chunks: &Vec<Vec<u8>>) -> (r: Vec<([u8; 32], u64)>)
    ensures
        r@.len() == chunks@.len(),
        forall|i: int|
            0 <= i < r@.len() ==> (#[trigger] r@[i]).0@ == content_address(chunks@[i]@) && r@[i].1
                == chunks@[i]@.len(),
{
    let mut list: Vec<([u8; 32], u64)> = Vec::new();
    let mut i: usize = 0;
    while i < chunks.len()
        invariant
            i <= chunks.len(),
            list@.len() == i,
            forall|k: int|
                0 <= k < i ==> (#[trigger] list@[k]).0@ == content_address(chunks@[k]@)
                    && list@[k].1 == chunks@[k]@.len(),
        decreases chunks.len() - i,
    {
        let size: usize = chunks[i].len();
        list.push((compute_address(chunks[i].as_slice()), size as u64));
        i = i + 1;
    }
    list
}

/// How a preparation for an external signer goes on after the check which
/// chunks are stored.
pub enum PrepareStep {
    /// All chunks are stored: there is nothing to pay.
    NothingToPay { already_stored: Vec<[u8; 32]> },
    /// Quote these chunks one by one.
    QuoteChunks { chunks: Vec<Vec<u8>>, already_stored: Vec<[u8; 32]> },
    /// Collect merkle candidates for these chunks.
    BuildMerkle {
        chunks: Vec<Vec<u8>>,
        addresses: Vec<[u8; 32]>,
        already_stored: Vec<[u8; 32]>,
        average_size: u64,
    },
}

/// How a preparation goes on once it is known which of the chunks are stored.
pub fn after_prepare_preflight(plan: MerkleUploadPlan, chunks: Vec<Vec<u8>>) -> (r: Result<
    PrepareStep,
    Error,
>)
    ensures
        if plan.to_upload@.len() == 0 {
            r == Ok::<PrepareStep, Error>(
                PrepareStep::NothingToPay { already_stored: plan.already_stored },
            )
        } else {
            match r {
                Err(e) => exists|j: int|
                    {
                        &&& 0 <= j < plan.to_upload@.len()
                        &&& times_asked(
                            address_views(plan.to_upload@),
                            (#[trigger] plan.to_upload@[j])@,
                        ) > contents_at(byte_views(chunks@), plan.to_upload@[j]@).len()
                        &&& e matches Error::InvalidData(m) && m@ == missing_content_text(
                            byte_views(chunks@),
                            plan.to_upload@[j]@,
                        )
                    },
                Ok(PrepareStep::NothingToPay { .. }) => false,
                Ok(PrepareStep::QuoteChunks { chunks: selected, already_stored }) => {
                    &&& !merkle_applies(plan.to_upload@.len() as int, PaymentMode::Auto)
                    &&& selectable(byte_views(chunks@), plan.to_upload@)
                    &&& is_selection(selected@, byte_views(chunks@), plan.to_upload@)
                    &&& already_stored == plan.already_stored
                },
                Ok(
                    PrepareStep::BuildMerkle {
                        chunks: selected,
                        addresses,
                        already_stored,
                        average_size,
                    },
                ) => {
                    &&& merkle_applies(plan.to_upload@.len() as int, PaymentMode::Auto)
                    &&& selectable(byte_views(chunks@), plan.to_upload@)
                    &&& is_selection(selected@, byte_views(chunks@), plan.to_upload@)
                    &&& addresses == plan.to_upload
                    &&& already_stored == plan.already_stored
                    &&& average_size == plan.to_upload_total_bytes as int
                        / plan.to_upload@.len() as int
                },
            }
        },
{
    let average_size: u64 = plan.to_upload_avg_size();
    let MerkleUploadPlan { already_stored, to_upload, to_upload_total_bytes: _ } = plan;
    if to_upload.len() == 0 {
        return Ok(PrepareStep::NothingToPay { already_stored });
    }
    let selected = match chunk_contents_for_upload_addresses(chunks, &to_upload) {
        Ok(s) => s,
        Err(e) => {
            return Err(e);
        },
    };
    if should_use_merkle(to_upload.len(), PaymentMode::Auto) {
        Ok(
            PrepareStep::BuildMerkle {
                chunks: selected,
                addresses: to_upload,
                already_stored,
                average_size,
            },
        )
    } else {
        Ok(PrepareStep::QuoteChunks { chunks: selected, already_stored })
    }
}

/// How a preparation goes on after the search for merkle candidates.
pub enum MerklePrepared {
    /// The batch is ready to be paid.
    Ready(PreparedMerkleBatch),
    /// There are too few peers: quote the chunks one by one instead.
    QuoteChunks,
}

/// How a preparation goes on after the search for merkle candidates: with too
/// few peers the chunks are quoted one by one, any other failure is passed on.
pub fn after_merkle_preparation(result: Result<PreparedMerkleBatch, Error>) -> (r: Result<
    MerklePrepared,
    Error,
>)
    ensures
        r == match result {
            Ok(batch) => Ok::<MerklePrepared, Error>(MerklePrepared::Ready(batch)),
            Err(Error::InsufficientPeers(_)) => Ok::<MerklePrepared, Error>(
                MerklePrepared::QuoteChunks,
            ),
            Err(e) => Err::<MerklePrepared, Error>(e),
        },
{
    match result {
        Ok(batch) => Ok(MerklePrepared::Ready(batch)),
        Err(Error::InsufficientPeers(_)) => Ok(MerklePrepared::QuoteChunks),
        Err(e) => Err(e),
    }
}

/// The payment information of chunks that were quoted one by one, and the
/// addresses that are stored: those known before, then those found meanwhile.
pub fn wave_batch_payment(quoted: WavePreparation, already_stored: Vec<[u8; 32]>) -> (r: (
    ExternalPaymentInfo,
    Vec<[u8; 32]>,
))
    ensures
        r.0 matches ExternalPaymentInfo::WaveBatch { prepared_chunks, payment_intent } && {
            &&& prepared_chunks@ == quoted.prepared@
            &&& is_intent_of(payment_intent, quoted.prepared@)
        },
        r.1@ == already_stored@ + quoted.already_stored@,
{
    let payment_intent = PaymentIntent::from_prepared_chunks(&quoted.prepared);
    let mut stored = already_stored;
    let WavePreparation { prepared, already_stored: mut more, .. } = quoted;
    stored.append(&mut more);
    (ExternalPaymentInfo::WaveBatch { prepared_chunks: prepared, payment_intent }, stored)
}

/// Whether an intent asks for just what the chunks cost.
pub open spec fn is_intent_of(intent: PaymentIntent, chunks: Seq<PreparedChunk>) -> bool {
    &&& intent.payments@ == due_entries(all_infos(chunks))
    &&& intent.total_amount.value() == due_total(all_infos(chunks)) % (two128() * two128())
}

/// An upload whose payment is proved and whose chunks are to be stored.
pub struct FinalizingUpload {
    pub data_map: DataMap,
    pub data_map_address: Option<[u8; 32]>,
    pub already_stored: Vec<[u8; 32]>,
    pub total_chunks: usize,
}

impl Client {
    /// Builds the proofs of an upload that was paid chunk by chunk. An upload that
    /// was prepared for a merkle payment is refused.
    pub fn finalize_upload(&self, prepared: PreparedUpload, tx_hash_map: &AddressMap<[u8; 32]>) -> (r: Result<
        (FinalizingUpload, Vec<PaidChunk>),
        Error,
    >)
        requires
            prepared.payment_info matches ExternalPaymentInfo::WaveBatch { prepared_chunks, .. }
                ==> forall|i: int|
                0 <= i < prepared_chunks@.len() ==> (#[trigger] prepared_chunks@[i]).timely(),
        ensures
            match prepared.payment_info {
                ExternalPaymentInfo::Merkle { .. } => r matches Err(Error::Payment(m)) && m@
                    == "Cannot finalize merkle upload with wave-batch tx hashes. Use finalize_upload_merkle() instead."@,
                ExternalPaymentInfo::WaveBatch { prepared_chunks, .. } => match r {
                    Ok((upload, paid)) => {
                        &&& upload.data_map == prepared.data_map
                        &&& upload.data_map_address == prepared.data_map_address
                        &&& upload.already_stored == prepared.already_stored_addresses
                        &&& upload.total_chunks == prepared.total_chunks
                        &&& paid@.len() == prepared_chunks@.len()
                        &&& forall|i: int|
                            0 <= i < prepared_chunks@.len() ==> provable(
                                #[trigger] prepared_chunks@[i],
                                tx_hash_map@,
                            )
                        &&& forall|i: int|
                            0 <= i < paid@.len() ==> is_paid_version(
                                #[trigger] paid@[i],
                                prepared_chunks@[i],
                                tx_hash_map@,
                            )
                    },
                    Err(e) => unprovable(e, prepared_chunks@, tx_hash_map@),
                },
            },
    {
        let PreparedUpload {
            data_map,
            payment_info,
            data_map_address,
            already_stored_addresses,
            total_chunks,
        } = prepared;
        match payment_info {
            ExternalPaymentInfo::WaveBatch { prepared_chunks, payment_intent: _ } => {
                match finalize_batch_payment(prepared_chunks, tx_hash_map) {
                    Ok(paid) => Ok(
                        (
                            FinalizingUpload {
                                data_map,
                                data_map_address,
                                already_stored: already_stored_addresses,
                                total_chunks,
                            },
                            paid,
                        ),
                    ),
                    Err(e) => Err(e),
                }
            },
            ExternalPaymentInfo::Merkle { .. } => Err(
                Error::Payment(
                    "Cannot finalize merkle upload with wave-batch tx hashes. Use finalize_upload_merkle() instead.".to_owned(),
                ),
            ),
        }
    }
}

/// The result of an upload that was paid chunk by chunk, once its chunks were
/// sent: it fails where any chunk is left.
pub fn finish_upload(
    upload: FinalizingUpload,
    wave: WaveResult,
    stats: WaveAggregateStats,
) -> (r: Result<FileUploadResult, Error>)
    requires
        upload.already_stored@.len() + wave.stored@.len() <= usize::MAX,
    ensures
        match r {
            Ok(result) => {
                &&& wave.failed@.len() == 0
                &&& result.data_map == upload.data_map
                &&& result.chunks_stored == upload.already_stored@.len() + wave.stored@.len()
                &&& result.chunks_failed == 0
                &&& result.total_chunks == upload.total_chunks
                &&& result.payment_mode_used == PaymentMode::Single
                &&& result.storage_cost_atto@ == "0"@
                &&& result.gas_cost_wei == 0
                &&& result.data_map_address == upload.data_map_address
                &&& result.chunk_attempts_total == stats.chunk_attempts_total
                &&& result.store_durations_ms == stats.store_durations_ms
                &&& result.retries_histogram == stats.retries_histogram
            },
            Err(e) => {
                &&& wave.failed@.len() > 0
                &&& e matches Error::PartialUpload {
                    stored,
                    stored_count,
                    failed,
                    failed_count,
                    total_chunks,
                    reason,
                } && {
                    &&& stored@ == upload.already_stored@ + wave.stored@
                    &&& stored_count == stored@.len()
                    &&& failed == wave.failed
                    &&& failed_count == failed@.len()
                    &&& total_chunks == upload.total_chunks
                    &&& reason@ == "finalize_upload: chunk storage failed after retries"@
                }
            },
        },
{
    let chunks_stored: usize = upload.already_stored.len() + wave.stored.len();
    let failed_count: usize = wave.failed.len();
    if failed_count > 0 {
        let mut stored = upload.already_stored;
        let mut more = wave.stored;
        stored.append(&mut more);
        return Err(
            Error::PartialUpload {
                stored,
                stored_count: chunks_stored,
                failed: wave.failed,
                failed_count,
                total_chunks: upload.total_chunks,
                reason: "finalize_upload: chunk storage failed after retries".to_owned(),
            },
        );
    }
    Ok(
        FileUploadResult {
            data_map: upload.data_map,
            chunks_stored,
            chunks_failed: 0,
            total_chunks: upload.total_chunks,
            payment_mode_used: PaymentMode::Single,
            storage_cost_atto: "0".to_owned(),
            gas_cost_wei: 0,
            data_map_address: upload.data_map_address,
            chunk_attempts_total: stats.chunk_attempts_total,
            store_durations_ms: stats.store_durations_ms,
            retries_histogram: stats.retries_histogram,
        },
    )
}

/// What is to be stored of an upload that was paid with a merkle tree.
pub struct MerkleToStore {
    pub receipt: MerkleBatchPaymentResult,
    pub chunk_contents: Vec<Vec<u8>>,
    pub chunk_addresses: Vec<[u8; 32]>,
}

/// Whether a receipt is that of a batch with this winner.
pub open spec fn is_receipt_of(
    receipt: MerkleBatchPaymentResult,
    batch: PreparedMerkleBatch,
    winner_pool_hash: Seq<u8>,
) -> bool {
    &&& winner(batch.candidate_pools@, winner_pool_hash) matches Some(pool) && {
        &&& forall|i: int|
            0 <= i < batch.addresses@.len() ==> proof_bytes(
                batch.tree,
                i,
                (#[trigger] batch.addresses@[i])@,
                pool,
            ) is Some
        &&& byte_map(receipt.proofs@) == proof_map(batch.tree, batch.addresses@, pool)
    }
    &&& forall|a: Seq<u8>|
        #![trigger receipt.proofs@.dom().contains(a)]
        receipt.proofs@.dom().contains(a) ==> announced_proof(receipt.proofs@[a]@) == Some(
            ProofType::Merkle,
        )
    &&& receipt.chunk_count == batch.addresses@.len()
    &&& receipt.storage_cost_atto@ == "0"@
    &&& receipt.gas_cost_wei == 0
    &&& receipt.merkle_payment_timestamp == batch.merkle_payment_timestamp
}

impl Client {
    /// Builds the proofs of an upload that was paid with a merkle tree. An upload
    /// that was prepared for payment chunk by chunk is refused.
    pub fn finalize_upload_merkle(&self, prepared: PreparedUpload, winner_pool_hash: [u8; 32]) -> (r: Result<
        (FinalizingUpload, MerkleToStore),
        Error,
    >)
        ensures
            match prepared.payment_info {
                ExternalPaymentInfo::WaveBatch { .. } => r matches Err(Error::Payment(m)) && m@
                    == "Cannot finalize wave-batch upload with merkle winner hash. Use finalize_upload() instead."@,
                ExternalPaymentInfo::Merkle { prepared_batch, chunk_contents, chunk_addresses } => {
                    match r {
                        Ok((upload, work)) => {
                            &&& upload.data_map == prepared.data_map
                            &&& upload.data_map_address == prepared.data_map_address
                            &&& upload.already_stored == prepared.already_stored_addresses
                            &&& upload.total_chunks == prepared.total_chunks
                            &&& work.chunk_contents == chunk_contents
                            &&& work.chunk_addresses == chunk_addresses
                            &&& is_receipt_of(work.receipt, prepared_batch, winner_pool_hash@)
                        },
                        Err(e) => match winner(prepared_batch.candidate_pools@, winner_pool_hash@) {
                            None => e matches Error::Payment(m) && m@ == "Winner pool "@ + hex_text(
                                winner_pool_hash@,
                            ) + " not found in candidate pools"@,
                            Some(pool) => exists|i: int|
                                {
                                    &&& 0 <= i < prepared_batch.addresses@.len()
                                    &&& proof_bytes(
                                        prepared_batch.tree,
                                        i,
                                        (#[trigger] prepared_batch.addresses@[i])@,
                                        pool,
                                    ) is None
                                    &&& forall|k: int|
                                        0 <= k < i ==> proof_bytes(
                                            prepared_batch.tree,
                                            k,
                                            (#[trigger] prepared_batch.addresses@[k])@,
                                            pool,
                                        ) is Some
                                    &&& proof_failure(e, prepared_batch.tree, i)
                                },
                        },
                    }
                },
            },
    {
        let PreparedUpload {
            data_map,
            payment_info,
            data_map_address,
            already_stored_addresses,
            total_chunks,
        } = prepared;
        match payment_info {
            ExternalPaymentInfo::Merkle { prepared_batch, chunk_contents, chunk_addresses } => {
                match finalize_merkle_batch(prepared_batch, winner_pool_hash) {
                    Ok(receipt) => Ok(
                        (
                            FinalizingUpload {
                                data_map,
                                data_map_address,
                                already_stored: already_stored_addresses,
                                total_chunks,
                            },
                            MerkleToStore { receipt, chunk_contents, chunk_addresses },
                        ),
                    ),
                    Err(e) => Err(e),
                }
            },
            ExternalPaymentInfo::WaveBatch { .. } => Err(
                Error::Payment(
                    "Cannot finalize wave-batch upload with merkle winner hash. Use finalize_upload() instead.".to_owned(),
                ),
            ),
        }
    }
}

/// The result of an upload that was paid with a merkle tree, once its chunks
/// were sent: it fails where any chunk is left.
pub fn finish_upload_merkle(upload: FinalizingUpload, outcome: MerkleStoreOutcome) -> (r: Result<
    FileUploadResult,
    Error,
>)
    ensures
        match outcome.fatal {
            Some(e) => r == Err::<FileUploadResult, Error>(e),
            None => match r {
                Ok(result) => {
                    &&& outcome.failed_addresses@.len() == 0
                    &&& result.data_map == upload.data_map
                    &&& result.chunks_stored == outcome.stored
                    &&& result.chunks_failed == 0
                    &&& result.total_chunks == upload.total_chunks
                    &&& result.payment_mode_used == PaymentMode::Merkle
                    &&& result.storage_cost_atto@ == "0"@
                    &&& result.gas_cost_wei == 0
                    &&& result.data_map_address == upload.data_map_address
                    &&& result.chunk_attempts_total == outcome.stats.chunk_attempts_total
                    &&& result.store_durations_ms == outcome.stats.store_durations_ms
                    &&& result.retries_histogram == outcome.stats.retries_histogram
                },
                Err(e) => {
                    &&& outcome.failed_addresses@.len() > 0
                    &&& is_incomplete(
                        e,
                        upload.already_stored@ + outcome.stored_addresses@,
                        outcome,
                        upload.total_chunks,
                    )
                },
            },
        },
{
    if outcome.fatal.is_none() && outcome.failed_addresses.len() > 0 {
        let mut stored = upload.already_stored;
        let mut more = outcome.stored_addresses;
        stored.append(&mut more);
        let failed_count: usize = outcome.failed_addresses.len();
        return Err(
            Error::PartialUpload {
                stored,
                stored_count: outcome.stored,
                failed: outcome.failed_addresses,
                failed_count,
                total_chunks: upload.total_chunks,
                reason: short_message(failed_count, MERKLE_STORE_MAX_ATTEMPTS),
            },
        );
    }
    match outcome.fatal {
        Some(e) => Err(e),
        None => Ok(
            FileUploadResult {
                data_map: upload.data_map,
                chunks_stored: outcome.stored,
                chunks_failed: 0,
                total_chunks: upload.total_chunks,
                payment_mode_used: PaymentMode::Merkle,
                storage_cost_atto: "0".to_owned(),
                gas_cost_wei: 0,
                data_map_address: upload.data_map_address,
                chunk_attempts_total: outcome.stats.chunk_attempts_total,
                store_durations_ms: outcome.stats.store_durations_ms,
                retries_histogram: outcome.stats.retries_histogram,
            },
        ),
    }
}

/// An upload of which some chunks stay short of quorum.
pub open spec fn is_incomplete(
    e: Error,
    stored: Seq<[u8; 32]>,
    outcome: MerkleStoreOutcome,
    total_chunks: usize,
) -> bool {
    e matches Error::PartialUpload {
        stored: s,
        stored_count,
        failed,
        failed_count,
        total_chunks: total,
        reason,
    } && {
        &&& s@ == stored
        &&& stored_count == outcome.stored
        &&& failed == outcome.failed_addresses
        &&& failed_count == failed@.len()
        &&& total == total_chunks
        &&& reason@ == short_text(failed@.len(), MERKLE_STORE_MAX_ATTEMPTS as nat)
    }
}

/// The result of a file upload out of its totals.
pub fn file_upload_result(
    data_map: DataMap,
    total_chunks: usize,
    payment_mode_used: PaymentMode,
    totals: UploadTotals,
) -> (r: FileUploadResult)
    ensures
        r.data_map == data_map,
        r.chunks_stored == totals.0,
        r.chunks_failed == 0,
        r.total_chunks == total_chunks,
        r.payment_mode_used == payment_mode_used,
        r.storage_cost_atto == totals.1,
        r.gas_cost_wei == totals.2,
        r.data_map_address is None,
        r.chunk_attempts_total == totals.3.chunk_attempts_total,
        r.store_durations_ms == totals.3.store_durations_ms,
        r.retries_histogram == totals.3.retries_histogram,
{
    let (chunks_stored, storage_cost_atto, gas_cost_wei, stats) = totals;
    FileUploadResult {
        data_map,
        chunks_stored,
        chunks_failed: 0,
        total_chunks,
        payment_mode_used,
        storage_cost_atto,
        gas_cost_wei,
        data_map_address: None,
        chunk_attempts_total: stats.chunk_attempts_total,
        store_durations_ms: stats.store_durations_ms,
        retries_histogram: stats.retries_histogram,
    }
}

} // verus!
