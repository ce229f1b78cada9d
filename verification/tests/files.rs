use ant_core::collections::AddressMap;
use ant_core::data::client::batch::{WavePreparation, WaveResult};
use ant_core::data::client::chunk::DataChunk;
use ant_core::data::client::collection::{
    check_quote_peers, interpret_quote_reply, quote_request, quote_send_error,
    quote_timeout_error, split_witnessed_peers, witnessed_lookup_error, QuoteCollector, QuoteReply,
    QuoteSelectionPolicy,
};
use ant_core::data::client::cost::{check_file_size, estimate_cost, CostSampling, SampleStep};
use ant_core::data::client::data::{
    data_upload_merkle_result, data_upload_result, merkle_request, prepared_data_upload,
    required_chunk,
};
use ant_core::data::client::file::{
    after_merkle_preparation, after_prepare_preflight, bundle_data_map, entries_of,
    file_upload_result, finish_upload, finish_upload_merkle, wave_batch_payment,
    ExternalPaymentInfo, FinalizingUpload, MerklePrepared, PrepareStep, PreparedUpload,
    UploadEvent, Visibility,
};
use ant_core::data::client::file_download::{
    adaptive_stream_decrypt_batch_size, data_map_chunk, decrypt_error, resolved_event,
    stream_decrypt_batch_memory_cap, stream_decrypt_batch_size_for, temporary_name,
    usable_memory_bytes, DecryptPhase, DownloadEvent, FetchBatch, FetchStep, MapResolution,
    DOWNLOAD_STREAM_BATCH_BYTES_PER_CHUNK_MULTIPLIER, DOWNLOAD_STREAM_BATCH_FETCH_MULTIPLIER,
    DOWNLOAD_STREAM_BATCH_MEMORY_BUDGET_DIVISOR,
};
use ant_core::data::client::file_upload::{
    after_payment, after_preflight, cached_merkle_covers_addresses, partial_upload_after_fatal,
    partition_addresses_by_proof, MerkleWaves, PaymentOutcome, SingleWaves, UploadStep,
};
use ant_core::data::client::merkle::{MerkleBatchPaymentResult, MerkleUploadPlan, PaymentMode};
use ant_core::data::client::merkle_store::{MerkleRoundEnd, MerkleStoreRun, WaveAggregateStats};
use ant_core::data::client::quote::{StoreQuote, WitnessedQuotePeer};
use ant_core::data::client::spill::{
    accept_chunk, check_disk_space_for_spill, chunk_file_name, encryption_error, encryption_event,
    may_be_stale, may_remove, read_back_error, spill_dir_name, ChunkSpill, EncryptionEnd, LockState,
};
use ant_core::data::client::upload_run::{FileUpload, UploadAction};
use ant_core::data::client::{Client, ClientConfig};
use ant_core::data::data_map::{
    data_map_chunk_bytes, decrypt_content, encrypt_content, read_data_map, resolve_data_map,
    DataMap,
};
use ant_core::data::error::Error;
use ant_core::data::network::{
    find_closest_peers, join_error, lookup_error, lookup_size, JoinStep,
};
use ant_core::protocol::{DhtNode, PaymentQuote};
use ant_core::uint256::U256;
use ant_core::xor::PeerId;
use ant_protocol::compute_address;

#[test]
fn disk_space_check_passes_for_small_file() {
    assert!(check_disk_space_for_spill(1024, 1_000_000_000, "/spill").is_ok());
}

#[test]
fn disk_space_check_fails_for_absurd_size() {
    let result = check_disk_space_for_spill(u64::MAX / 2, 1_000_000_000, "/spill");
    assert!(result.is_err());
    match result {
        Err(Error::InsufficientDiskSpace(_)) => {}
        Err(err) => panic!("expected InsufficientDiskSpace, got: {}", err.message()),
        Ok(()) => panic!("no disk has this much room"),
    }
}

#[test]
fn disk_space_check_asks_for_headroom() {
    assert!(check_disk_space_for_spill(10_485_760, 11_534_336, "/s").is_ok());
    match check_disk_space_for_spill(10_485_760, 11_534_335, "/s") {
        Err(e) => assert_eq!(
            e.message(),
            "insufficient disk space: need ~11 MB in spill dir (/s) but only 10 MB available"
        ),
        Ok(()) => panic!("one byte is missing"),
    }
}

#[test]
fn adaptive_stream_decrypt_batch_size_tracks_fetch_headroom() {
    let batch_size = adaptive_stream_decrypt_batch_size(1_000, 64, 10, Some(u64::MAX));

    assert_eq!(batch_size, 64 * DOWNLOAD_STREAM_BATCH_FETCH_MULTIPLIER);
}

#[test]
fn adaptive_stream_decrypt_batch_size_caps_to_total_chunks() {
    let batch_size = adaptive_stream_decrypt_batch_size(12, 64, 10, Some(u64::MAX));

    assert_eq!(batch_size, 12);
}

#[test]
fn adaptive_stream_decrypt_batch_size_honours_configured_floor() {
    let batch_size = adaptive_stream_decrypt_batch_size(1_000, 1, 32, None);

    assert_eq!(batch_size, 32);
}

#[test]
fn adaptive_stream_decrypt_batch_size_does_not_expand_without_memory_reading() {
    let batch_size = adaptive_stream_decrypt_batch_size(1_000, 64, 10, None);

    assert_eq!(batch_size, 10);
}

#[test]
fn adaptive_stream_decrypt_batch_size_caps_to_memory_budget() {
    let estimated_bytes_per_chunk = (self_encryption::MAX_CHUNK_SIZE as u64)
        .saturating_mul(DOWNLOAD_STREAM_BATCH_BYTES_PER_CHUNK_MULTIPLIER)
        .max(1);
    let usable_memory = estimated_bytes_per_chunk
        .saturating_mul(16)
        .saturating_mul(DOWNLOAD_STREAM_BATCH_MEMORY_BUDGET_DIVISOR);
    let batch_size = adaptive_stream_decrypt_batch_size(1_000, 256, 10, Some(usable_memory));

    assert_eq!(batch_size, 16);
}

#[test]
fn adaptive_stream_decrypt_batch_size_keeps_one_chunk_when_memory_is_tight() {
    let batch_size = adaptive_stream_decrypt_batch_size(1_000, 64, 10, Some(1));

    assert_eq!(batch_size, 1);
}

#[test]
fn decrypt_batch_follows_the_largest_chunk() {
    assert_eq!(stream_decrypt_batch_memory_cap(1_200, 10), 10);
    assert_eq!(stream_decrypt_batch_memory_cap(0, 10), 1);
    assert_eq!(stream_decrypt_batch_size_for(1_000, 64, 10, Some(1_200), 10), 10);
    assert_eq!(stream_decrypt_batch_size_for(0, 64, 10, None, 10), 1);
}

#[test]
fn memory_readings_are_combined() {
    assert_eq!(usable_memory_bytes(500, 0, 0, 0, None), Some(500));
    assert_eq!(usable_memory_bytes(500, 0, 0, 0, Some((1_000, 300))), Some(300));
    assert_eq!(usable_memory_bytes(0, 0, 0, 0, None), None);
}

fn receipt(proofs: &[([u8; 32], Vec<u8>)]) -> MerkleBatchPaymentResult {
    MerkleBatchPaymentResult {
        proofs: proof_map(proofs),
        chunk_count: proofs.len(),
        storage_cost_atto: "0".to_string(),
        gas_cost_wei: 0,
        merkle_payment_timestamp: 0,
    }
}

fn proof_map(proofs: &[([u8; 32], Vec<u8>)]) -> AddressMap<Vec<u8>> {
    let mut map = AddressMap::new();
    for (address, bytes) in proofs {
        map.insert(*address, bytes.clone());
    }
    map
}

#[test]
fn cached_merkle_covers_only_when_all_addresses_have_proofs() {
    let covered = compute_address(b"covered");
    let extra = compute_address(b"extra");
    let missing = compute_address(b"missing");
    let cached = receipt(&[(covered, vec![1]), (extra, vec![2])]);

    assert!(cached_merkle_covers_addresses(&cached, &vec![covered]));
    assert!(cached_merkle_covers_addresses(&cached, &vec![covered, extra]));
    assert!(!cached_merkle_covers_addresses(&cached, &vec![covered, missing]));
}

#[test]
fn partition_addresses_by_proof_splits_paid_and_unpaid() {
    let paid_a = [1u8; 32];
    let unpaid_b = [2u8; 32];
    let paid_c = [3u8; 32];
    let unpaid_d = [4u8; 32];
    let proofs = proof_map(&[(paid_a, vec![0xaa]), (paid_c, vec![0xcc])]);

    let (to_store, missing) =
        partition_addresses_by_proof(&vec![paid_a, unpaid_b, paid_c, unpaid_d], &proofs);

    assert_eq!(to_store, vec![paid_a, paid_c]);
    assert_eq!(missing, vec![unpaid_b, unpaid_d]);
}

#[test]
fn partition_addresses_by_proof_handles_all_or_nothing() {
    let a = [5u8; 32];
    let b = [6u8; 32];

    let (to_store, missing) = partition_addresses_by_proof(&vec![a, b], &AddressMap::new());
    assert!(to_store.is_empty());
    assert_eq!(missing, vec![a, b]);

    let full = proof_map(&[(a, vec![1]), (b, vec![2])]);
    let (to_store, missing) = partition_addresses_by_proof(&vec![a, b], &full);
    assert_eq!(to_store, vec![a, b]);
    assert!(missing.is_empty());
}

#[test]
fn chunk_spill_round_trip() {
    let mut spill = ChunkSpill::new();
    let data1 = vec![0xAA; 1024];
    let data2 = vec![0xBB; 2048];
    let mut stored: Vec<(String, Vec<u8>)> = Vec::new();

    for data in [&data1, &data2] {
        match spill.push(data) {
            Some(name) => stored.push((name, data.clone())),
            None => panic!("new content is stored"),
        }
    }

    assert_eq!(spill.len(), 2);
    assert_eq!(spill.total_bytes(), 1024 + 2048);
    let chunk_entries = spill.chunk_entries().expect("all sizes are known");
    let entry_total: u64 = chunk_entries.iter().map(|(_, size)| *size).sum();
    assert_eq!(entry_total, 1024 + 2048);

    for (address, data) in spill.addresses().iter().zip([&data1, &data2]) {
        let name = hex::encode(address);
        let read = stored.iter().find(|(n, _)| *n == name).expect("a file of this name");
        assert_eq!(&read.1, data);
    }

    let waves: Vec<_> = spill.addresses().chunks(1).collect();
    assert_eq!(waves.len(), 2);
}

#[test]
fn chunk_spill_deduplicates_identical_content() {
    let mut spill = ChunkSpill::new();
    let data = vec![0xCC; 512];

    let name = spill.push(&data);
    assert_eq!(name, Some(chunk_file_name(&compute_address(&data))));
    assert!(spill.push(&data).is_none());
    assert!(spill.push(&data).is_none());

    assert_eq!(spill.len(), 1, "duplicate chunks should be deduplicated");
    assert_eq!(spill.total_bytes(), 512, "total_bytes should count unique only");

    let data2 = vec![0xDD; 256];
    assert!(spill.push(&data2).is_some());
    assert_eq!(spill.len(), 2);
    assert_eq!(spill.total_bytes(), 512 + 256);
}

#[test]
fn spill_lists_chunks_in_the_order_of_their_first_push() {
    let mut spill = ChunkSpill::new();
    for chunk in [vec![3u8; 5], vec![1; 7], vec![3; 5], vec![2; 9], vec![1; 7]] {
        spill.push(&chunk);
    }
    let entries = spill.chunk_entries().expect("all sizes are known");
    assert_eq!(
        entries,
        vec![
            (compute_address(&[3; 5]), 5),
            (compute_address(&[1; 7]), 7),
            (compute_address(&[2; 9]), 9),
        ]
    );
    assert_eq!(spill.total_bytes(), 21);
}

#[test]
fn orphaned_spill_directories_are_recognised() {
    let name = spill_dir_name(1_000, 77);
    assert_eq!(name, "spill_1000_77");
    assert!(may_be_stale(1_030, &name));
    assert!(!may_be_stale(1_029, &name));
    assert!(may_remove(1_030, &name, true, LockState::Free));
    assert!(may_remove(1_030, &name, true, LockState::Absent));
    assert!(!may_remove(1_030, &name, true, LockState::Held));
    assert!(!may_remove(1_030, &name, false, LockState::Free));
    assert!(!may_remove(0, &name, true, LockState::Free));
    assert!(!may_be_stale(5_000, "spill_x_1"));
    assert!(!may_be_stale(5_000, "other_1_1"));
}

#[test]
fn encryption_ends_are_reported() {
    assert_eq!(
        encryption_error(EncryptionEnd::Task(Error::Io("gone".to_string()))).message(),
        "encryption error: encryption failed: I/O error: gone"
    );
    assert_eq!(
        encryption_error(EncryptionEnd::Panicked("x".to_string())).message(),
        "encryption error: encryption task panicked: x"
    );
    assert_eq!(
        encryption_error(EncryptionEnd::TooLarge("x".to_string())).message(),
        "encryption error: file size exceeds platform usize: x"
    );
    assert_eq!(
        encryption_error(EncryptionEnd::ReceiverDropped).message(),
        "encryption error: upload receiver dropped"
    );
    assert!(matches!(accept_chunk(None, Ok(vec![1])), Ok(c) if c == vec![1]));
    assert!(matches!(accept_chunk(None, Err("x".to_string())), Err(Error::Encryption(_))));
    assert!(matches!(
        accept_chunk(Some("gone".to_string()), Ok(vec![1])),
        Err(Error::Io(_))
    ));
    assert!(matches!(encryption_error(EncryptionEnd::NoDataMap), Error::Encryption(_)));
    assert!(matches!(
        encryption_error(EncryptionEnd::Failed("x".to_string())),
        Error::Encryption(m) if m == "stream_encrypt failed: x"
    ));
    assert!(matches!(encryption_error(EncryptionEnd::Unread("x".to_string())), Error::Io(_)));
    assert_eq!(encryption_event(10), Some(UploadEvent::Encrypting { chunks_done: 10 }));
    assert_eq!(encryption_event(11), None);
    assert_eq!(
        read_back_error(&[1u8; 32], "gone").message(),
        format!("I/O error: reading spilled chunk {}: gone", "01".repeat(32))
    );
}

fn content(len: usize) -> Vec<u8> {
    (0..len).map(|i| (i * 31 % 251) as u8).collect()
}

#[test]
fn encrypted_content_decrypts_to_itself() {
    let plain = content(50_000);
    let (map, chunks) = match encrypt_content(plain.clone()) {
        Ok(pair) => pair,
        Err(e) => panic!("{}", e.message()),
    };
    assert_eq!(map.len(), 3);
    assert!(!map.is_child());
    assert_eq!(chunks.len(), 3);
    let addresses: Vec<[u8; 32]> = chunks.iter().map(|c| compute_address(c)).collect();
    for address in map.addresses() {
        assert!(addresses.contains(&address));
    }
    for chunk in &chunks {
        assert_ne!(&plain[..64], &chunk[..64]);
    }
    assert!(matches!(decrypt_content(&map, chunks), Ok(read) if read == plain));
    assert!(matches!(decrypt_content(&map, Vec::new()), Err(Error::Encryption(_))));
    assert!(matches!(encrypt_content(vec![1, 2]), Err(Error::Encryption(_))));
}

#[test]
fn data_map_reads_back_from_its_chunk() {
    let map = match encrypt_content(content(9_000)) {
        Ok((map, _)) => map,
        Err(e) => panic!("{}", e.message()),
    };
    let client = Client { config: ClientConfig::default() };
    let bytes = match client.data_map_store(&map) {
        Ok(bytes) => bytes,
        Err(e) => panic!("{}", e.message()),
    };
    assert_eq!(bytes, data_map_chunk_bytes(&map).expect("the same bytes"));
    let read = match read_data_map(&bytes) {
        Ok(read) => read,
        Err(e) => panic!("{}", e.message()),
    };
    assert_eq!(read.addresses(), map.addresses());
    let address = compute_address(&bytes);
    let chunk = DataChunk { address, content: bytes };
    match client.data_map_fetch(&address, Ok(Some(chunk))) {
        Ok(fetched) => assert_eq!(fetched.addresses(), map.addresses()),
        Err(e) => panic!("{}", e.message()),
    }
    assert!(matches!(client.data_map_fetch(&address, Ok(None)), Err(Error::InvalidData(_))));
    assert!(matches!(read_data_map(&[0xc1]), Err(Error::Serialization(_))));
}

fn answers(map: &DataMap, chunks: &[Vec<u8>]) -> Vec<Result<Option<DataChunk>, Error>> {
    map.addresses()
        .into_iter()
        .map(|address| {
            let found = chunks.iter().find(|c| compute_address(c) == address);
            Ok(found.map(|c| DataChunk { address, content: c.clone() }))
        })
        .collect()
}

#[test]
fn in_memory_download_needs_every_chunk() {
    let plain = content(9_000);
    let (map, chunks) = match encrypt_content(plain.clone()) {
        Ok(pair) => pair,
        Err(e) => panic!("{}", e.message()),
    };
    let client = Client { config: ClientConfig::default() };
    match client.data_download(&map, answers(&map, &chunks)) {
        Ok(read) => assert_eq!(read, plain),
        Err(e) => panic!("{}", e.message()),
    }
    let mut one_missing = answers(&map, &chunks);
    one_missing[1] = Ok(None);
    match client.data_download(&map, one_missing) {
        Err(Error::InvalidData(m)) => assert!(
            m.starts_with("Missing chunk ") && m.ends_with(" required for data reconstruction")
        ),
        _ => panic!("a chunk is missing"),
    }
    let mut one_failed = answers(&map, &chunks);
    one_failed[2] = Err(Error::Network("down".to_string()));
    assert!(matches!(
        client.data_download(&map, one_failed),
        Err(Error::Network(m)) if m == "down"
    ));
}

#[test]
fn map_of_maps_is_resolved_first() {
    let mut map = empty_map();
    assert!(MapResolution::begin(&map).is_none());
    map.child = Some(1);
    let (mut run, event) = match MapResolution::begin(&map) {
        Some(begun) => begun,
        None => panic!("the map names another map"),
    };
    assert!(matches!(event, DownloadEvent::ResolvingDataMap { total_map_chunks: 0 }));
    assert!(run.on_chunk(&[1u8; 32], Ok(None)).is_err());
    assert!(run.parts.is_empty());
    match run.on_chunk(&[1u8; 32], Ok(Some(vec![4]))) {
        Ok((part, DownloadEvent::MapChunkFetched { fetched: 1 })) => assert_eq!(part, vec![4]),
        _ => panic!("the part arrived"),
    }
    assert_eq!(run.parts, vec![vec![4]]);
    let (root, chunks) = match encrypt_content(content(9_000)) {
        Ok(pair) => pair,
        Err(e) => panic!("{}", e.message()),
    };
    assert_eq!(resolved_event(&root), DownloadEvent::DataMapResolved { total_chunks: chunks.len() });
}

#[test]
fn three_bytes_can_be_encrypted() {
    assert!(matches!(
        encrypt_content(vec![1, 2]),
        Err(Error::Encryption(m)) if m.starts_with("Failed to encrypt data: ")
    ));
    match encrypt_content(vec![1, 2, 3]) {
        Ok((map, chunks)) => {
            assert_eq!(chunks.len(), 3);
            assert!(matches!(decrypt_content(&map, chunks), Ok(c) if c == vec![1, 2, 3]));
        }
        Err(e) => panic!("{}", e.message()),
    }
}

#[test]
fn content_of_many_chunks_reads_back() {
    let plain = content(13_000_000);
    let (map, chunks) = match encrypt_content(plain.clone()) {
        Ok(pair) => pair,
        Err(e) => panic!("{}", e.message()),
    };
    assert!(map.is_child());
    let (mut run, _) = match MapResolution::begin(&map) {
        Some(begun) => begun,
        None => panic!("the map names another map"),
    };
    assert!(matches!(
        resolve_data_map(&map, &run.parts),
        Err(Error::Encryption(m)) if m.starts_with("DataMap resolution failed: ")
    ));
    for answer in answers(&map, &chunks) {
        let part = answer.map(|found| found.map(|chunk| chunk.content));
        assert!(run.on_chunk(&[0u8; 32], part).is_ok());
    }
    let (root, event) = match run.finish(&map) {
        Ok(end) => end,
        Err(e) => panic!("{}", e.message()),
    };
    assert!(!root.is_child());
    assert_eq!(event, DownloadEvent::DataMapResolved { total_chunks: 4 });
    assert_eq!(chunks.len(), map.len() + root.len());
    let client = Client { config: ClientConfig::default() };
    match client.data_download(&root, answers(&root, &chunks)) {
        Ok(read) => assert!(read == plain),
        Err(e) => panic!("{}", e.message()),
    }
    match decrypt_content(&map, chunks) {
        Ok(read) => assert!(read == plain),
        Err(e) => panic!("{}", e.message()),
    }
}

#[test]
fn bundled_data_map_becomes_a_chunk() {
    let (map, mut chunks) = match encrypt_content(content(9_000)) {
        Ok(pair) => pair,
        Err(e) => panic!("{}", e.message()),
    };
    let before = chunks.len();
    assert!(matches!(bundle_data_map(&mut chunks, &map, Visibility::Private), Ok(None)));
    assert_eq!(chunks.len(), before);
    match bundle_data_map(&mut chunks, &map, Visibility::Public) {
        Ok(Some(address)) => {
            assert_eq!(chunks.len(), before + 1);
            assert_eq!(address, compute_address(&chunks[before]));
        }
        _ => panic!("a public map has an address"),
    }
    let entries = entries_of(&chunks);
    assert_eq!(entries[0], (compute_address(&chunks[0]), chunks[0].len() as u64));
}

fn empty_map() -> DataMap {
    DataMap { chunks: Vec::new(), child: None }
}

fn plan(stored: Vec<[u8; 32]>, upload: Vec<[u8; 32]>, bytes: u64) -> MerkleUploadPlan {
    MerkleUploadPlan { already_stored: stored, to_upload: upload, to_upload_total_bytes: bytes }
}

#[test]
fn preparation_follows_the_preflight() {
    let chunks: Vec<Vec<u8>> = (0..70u8).map(|b| vec![b]).collect();
    let addresses: Vec<[u8; 32]> = chunks.iter().map(|c| compute_address(c)).collect();
    match after_prepare_preflight(plan(addresses.clone(), Vec::new(), 0), chunks.clone()) {
        Ok(PrepareStep::NothingToPay { already_stored }) => assert_eq!(already_stored.len(), 70),
        _ => panic!("all chunks are stored"),
    }
    match after_prepare_preflight(
        plan(addresses[2..].to_vec(), addresses[..2].to_vec(), 2),
        chunks.clone(),
    ) {
        Ok(PrepareStep::QuoteChunks { chunks, .. }) => {
            assert_eq!(chunks, vec![vec![0u8], vec![1u8]])
        }
        _ => panic!("two chunks are quoted one by one"),
    }
    match after_prepare_preflight(plan(Vec::new(), addresses.clone(), 140), chunks) {
        Ok(PrepareStep::BuildMerkle { addresses: wanted, average_size, .. }) => {
            assert_eq!(wanted, addresses);
            assert_eq!(average_size, 2);
        }
        _ => panic!("seventy chunks make a tree"),
    }
    assert!(matches!(
        after_merkle_preparation(Err(Error::InsufficientPeers("few".to_string()))),
        Ok(MerklePrepared::QuoteChunks)
    ));
    assert!(matches!(
        after_merkle_preparation(Err(Error::Payment("p".to_string()))),
        Err(Error::Payment(_))
    ));
}

fn finalizing(total: usize) -> FinalizingUpload {
    FinalizingUpload {
        data_map: empty_map(),
        data_map_address: Some([9u8; 32]),
        already_stored: vec![[1u8; 32]],
        total_chunks: total,
    }
}

#[test]
fn external_upload_succeeds_only_with_every_chunk() {
    let wave = WaveResult { stored: vec![[2u8; 32]], failed: Vec::new() };
    match finish_upload(finalizing(2), wave, WaveAggregateStats::new()) {
        Ok(result) => {
            assert_eq!(result.chunks_stored, 2);
            assert_eq!(result.chunks_failed, 0);
            assert_eq!(result.data_map_address, Some([9u8; 32]));
            assert_eq!(result.payment_mode_used, PaymentMode::Single);
        }
        Err(e) => panic!("{}", e.message()),
    }
    let wave = WaveResult { stored: Vec::new(), failed: vec![([2u8; 32], "x".to_string())] };
    match finish_upload(finalizing(2), wave, WaveAggregateStats::new()) {
        Err(Error::PartialUpload { stored, stored_count, reason, .. }) => {
            assert_eq!(stored, vec![[1u8; 32]]);
            assert_eq!(stored_count, 1);
            assert_eq!(reason, "finalize_upload: chunk storage failed after retries");
        }
        _ => panic!("a chunk failed"),
    }
}

#[test]
fn external_merkle_upload_succeeds_only_with_every_chunk() {
    let mut run = MerkleStoreRun::new(1, 1, 0, 1, 2);
    run.on_result([2u8; 32], Ok(4));
    assert!(matches!(run.end_round(), MerkleRoundEnd::Done));
    match finish_upload_merkle(finalizing(2), run.finish()) {
        Ok(result) => {
            assert_eq!(result.chunks_stored, 2);
            assert_eq!(result.payment_mode_used, PaymentMode::Merkle);
            assert_eq!(result.store_durations_ms, vec![4]);
        }
        Err(e) => panic!("{}", e.message()),
    }
    let mut run = MerkleStoreRun::new(1, 1, 0, 1, 2);
    run.on_result([2u8; 32], Err(Error::InsufficientPeers("short".to_string())));
    assert!(matches!(
        finish_upload_merkle(finalizing(2), run.finish()),
        Err(Error::PartialUpload { failed_count: 1, .. })
    ));
}

#[test]
fn upload_kinds_are_not_mixed_up() {
    let client = Client { config: ClientConfig::default() };
    let (info, already) = wave_batch_payment(WavePreparation::new(0, 0), vec![[1u8; 32]]);
    assert_eq!(already, vec![[1u8; 32]]);
    let prepared = PreparedUpload {
        data_map: empty_map(),
        payment_info: info,
        data_map_address: None,
        already_stored_addresses: already,
        total_chunks: 1,
    };
    match client.finalize_upload_merkle(prepared, [0u8; 32]) {
        Err(Error::Payment(m)) => assert_eq!(
            m,
            "Cannot finalize wave-batch upload with merkle winner hash. Use finalize_upload() instead."
        ),
        _ => panic!("no merkle upload"),
    }
    let prepared = prepared_data_upload(empty_map(), WavePreparation::new(0, 0), 1);
    assert!(matches!(prepared.payment_info, ExternalPaymentInfo::WaveBatch { .. }));
    match client.finalize_upload(prepared, &AddressMap::new()) {
        Ok((upload, paid)) => {
            assert_eq!(upload.total_chunks, 1);
            assert!(paid.is_empty());
        }
        Err(e) => panic!("{}", e.message()),
    }
}

#[test]
fn upload_route_follows_the_preflight() {
    let all = vec![[1u8; 32], [2u8; 32]];
    assert!(matches!(
        after_preflight(Ok(plan(all.clone(), Vec::new(), 0)), None, &all, PaymentMode::Merkle),
        Ok(UploadStep::AllStored)
    ));
    match after_preflight(
        Ok(plan(Vec::new(), all.clone(), 7)),
        None,
        &all,
        PaymentMode::Merkle,
    ) {
        Ok(UploadStep::PayMerkle { average_size, discard_receipt, .. }) => {
            assert_eq!(average_size, 3);
            assert!(!discard_receipt);
        }
        _ => panic!("two chunks are paid through a tree"),
    }
    let covering = receipt(&[([1u8; 32], vec![1]), ([2u8; 32], vec![2])]);
    assert!(matches!(
        after_preflight(
            Err(Error::Network("down".to_string())),
            Some(&covering),
            &all,
            PaymentMode::Merkle
        ),
        Ok(UploadStep::StoreCached { .. })
    ));
    assert!(matches!(
        after_preflight(
            Err(Error::InsufficientPeers("few".to_string())),
            None,
            &all,
            PaymentMode::Auto
        ),
        Ok(UploadStep::PaySingle { .. })
    ));
    assert!(matches!(
        after_preflight(
            Err(Error::InsufficientPeers("few".to_string())),
            None,
            &all,
            PaymentMode::Merkle
        ),
        Err(Error::InsufficientPeers(_))
    ));
    assert!(matches!(
        after_payment(Err(Error::InsufficientPeers("few".to_string())), PaymentMode::Auto),
        Ok(PaymentOutcome::PaySingle)
    ));
    assert!(matches!(
        after_payment(Ok(covering), PaymentMode::Auto),
        Ok(PaymentOutcome::Store(_))
    ));
}

fn many_chunks(count: u8) -> Vec<[u8; 32]> {
    (0..count).map(|b| [b; 32]).collect()
}

#[test]
fn small_upload_is_paid_chunk_by_chunk() {
    let (mut run, action) = FileUpload::start(many_chunks(3), PaymentMode::Auto);
    match action {
        UploadAction::StoreSingle { addresses, stored_before: 0, discard_receipt: false } => {
            assert_eq!(addresses.len(), 3)
        }
        _ => panic!("three chunks need no tree"),
    }
    let totals = (3, "30".to_string(), 4, WaveAggregateStats::new());
    match run.on_stored(Ok(totals)) {
        Ok(UploadAction::Finish { mode_used, totals, discard_receipt, discard_single }) => {
            assert_eq!(mode_used, PaymentMode::Single);
            assert_eq!(totals.1, "30");
            assert!(!discard_receipt);
            assert!(discard_single);
        }
        _ => panic!("the upload is done"),
    }
}

#[test]
fn receipt_is_kept_until_every_chunk_is_stored() {
    let (mut run, action) = FileUpload::start(many_chunks(70), PaymentMode::Auto);
    assert!(matches!(action, UploadAction::Probe));
    let to_upload = many_chunks(70).split_off(5);
    let probed = plan(many_chunks(5), to_upload.clone(), 6_500);
    match run.on_probed(Ok(probed), None) {
        Ok(UploadAction::PayMerkle { addresses, average_size, discard_receipt }) => {
            assert_eq!(addresses, to_upload);
            assert_eq!(average_size, 100);
            assert!(!discard_receipt);
        }
        _ => panic!("sixty-five chunks are left to pay"),
    }
    match run.on_paid(Ok(receipt(&[]))) {
        Ok(UploadAction::StoreMerkle { addresses, already_stored, keep_receipt, .. }) => {
            assert_eq!(addresses.len() + already_stored.len(), 70);
            assert!(keep_receipt);
        }
        _ => panic!("the chunks are paid"),
    }
    let totals = (70, "7".to_string(), 1, WaveAggregateStats::new());
    assert!(matches!(
        run.on_stored(Ok(totals)),
        Ok(UploadAction::Finish {
            mode_used: PaymentMode::Merkle,
            discard_receipt: true,
            discard_single: false,
            ..
        })
    ));
}

#[test]
fn failed_upload_drops_no_receipt() {
    let (mut run, _) = FileUpload::start(many_chunks(70), PaymentMode::Merkle);
    let proofs: Vec<([u8; 32], Vec<u8>)> =
        many_chunks(70).into_iter().map(|a| (a, vec![1])).collect();
    match run.on_probed(Err(Error::Network("down".to_string())), Some(receipt(&proofs))) {
        Ok(UploadAction::StoreMerkle { addresses, already_stored, keep_receipt, .. }) => {
            assert_eq!(addresses.len(), 70);
            assert!(already_stored.is_empty());
            assert!(!keep_receipt);
        }
        _ => panic!("the receipt covers all chunks"),
    }
    assert!(matches!(
        run.on_stored(Err(Error::Storage("disk".to_string()))),
        Err(Error::Storage(m)) if m == "disk"
    ));
}

#[test]
fn payment_falls_back_only_where_the_mode_is_open() {
    for mode in [PaymentMode::Auto, PaymentMode::Merkle] {
        let (mut run, _) = FileUpload::start(many_chunks(70), mode);
        assert!(run.on_probed(Ok(plan(Vec::new(), many_chunks(70), 70)), None).is_ok());
        let answer = run.on_paid(Err(Error::InsufficientPeers("few".to_string())));
        match (mode, answer) {
            (PaymentMode::Auto, Ok(UploadAction::StoreSingle { addresses, stored_before, .. })) => {
                assert_eq!(addresses.len(), 70);
                assert_eq!(stored_before, 0);
            }
            (PaymentMode::Merkle, Err(Error::InsufficientPeers(m))) => assert_eq!(m, "few"),
            _ => panic!("another course"),
        }
    }
}

#[test]
fn stored_file_needs_nothing() {
    let (mut run, _) = FileUpload::start(many_chunks(64), PaymentMode::Auto);
    match run.on_probed(Ok(plan(many_chunks(64), Vec::new(), 0)), Some(receipt(&[]))) {
        Ok(UploadAction::Finish {
            mode_used: PaymentMode::Merkle,
            totals,
            discard_receipt,
            discard_single,
        }) => {
            assert_eq!(totals.0, 64);
            assert_eq!(totals.1, "0");
            assert!(discard_receipt);
            assert!(discard_single);
        }
        _ => panic!("all chunks are stored"),
    }
}

#[test]
fn aborted_upload_names_every_unstored_chunk() {
    let error = partial_upload_after_fatal(
        &vec![[1u8; 32], [2u8; 32], [3u8; 32]],
        vec![[1u8; 32]],
        1,
        3,
        vec![([2u8; 32], "short".to_string())],
        "stop".to_string(),
    );
    match error {
        Error::PartialUpload { stored, failed, failed_count, total_chunks, reason, .. } => {
            assert_eq!(stored, vec![[1u8; 32]]);
            assert_eq!(failed_count, 2);
            assert!(failed.contains(&([2u8; 32], "short".to_string())));
            assert!(failed.contains(&([3u8; 32], "stop".to_string())));
            assert_eq!(total_chunks, 3);
            assert_eq!(reason, "stop");
        }
        _ => panic!("a partial upload"),
    }
}

#[test]
fn single_waves_add_up() {
    let addresses: Vec<[u8; 32]> = (0..65u8).map(|b| [b; 32]).collect();
    let mut waves = SingleWaves::new(addresses, 5, 70);
    let (first, event) = match waves.next_wave() {
        Some(pair) => pair,
        None => panic!("a first wave"),
    };
    assert_eq!(first.len(), 64);
    assert_eq!(
        event,
        UploadEvent::QuotingChunks { wave: 1, total_waves: 2, chunks_in_wave: 64 }
    );
    assert_eq!(
        waves.on_wave("100", 3, WaveAggregateStats::new()),
        UploadEvent::WaveComplete { wave: 1, total_waves: 2, stored_so_far: 69, total: 70 }
    );
    assert!(waves.next_wave().is_some());
    waves.on_wave("20", 4, WaveAggregateStats::new());
    assert!(waves.next_wave().is_none());
    let totals = waves.finish();
    assert_eq!(totals.0, 70);
    assert_eq!(totals.1, "120");
    assert_eq!(totals.2, 7);
    let result = file_upload_result(empty_map(), 70, PaymentMode::Single, totals);
    assert_eq!(result.chunks_stored, 70);
    assert_eq!(result.storage_cost_atto, "120");
}

#[test]
fn merkle_waves_try_short_chunks_once_more() {
    let proofs = proof_map(&[([1u8; 32], vec![1]), ([2u8; 32], vec![2])]);
    let mut waves = MerkleWaves::new(vec![[1u8; 32], [2u8; 32]], &proofs, Vec::new());
    let wave = match waves.next_wave() {
        Some(wave) => wave,
        None => panic!("a wave"),
    };
    assert_eq!(wave.len(), 2);
    let mut run = waves.wave_run();
    assert_eq!((run.chunks, run.rounds, run.stored_offset, run.total), (2, 1, 0, 2));
    run.on_result([1u8; 32], Ok(1));
    run.on_result([2u8; 32], Err(Error::InsufficientPeers("short".to_string())));
    assert!(matches!(
        waves.on_wave(run.finish()),
        Ok(UploadEvent::WaveComplete { stored_so_far: 1, total: 2, .. })
    ));
    assert!(waves.next_wave().is_none());
    let deferred = waves.take_deferred();
    assert_eq!(deferred, vec![[2u8; 32]]);
    let mut retry = waves.deferred_retry(deferred);
    assert_eq!(retry.delay_secs(), 0);
    assert_eq!(retry.next_group(), Some(vec![[2u8; 32]]));
    assert_eq!(retry.next_group(), None);
    retry.run.on_result([2u8; 32], Ok(1));
    assert!(!retry.end_round());
    assert!(waves.on_deferred(retry.run.finish()).is_ok());
    match waves.finish("9", 1) {
        Ok((stored, cost, gas, stats)) => {
            assert_eq!(stored, 2);
            assert_eq!(cost, "9");
            assert_eq!(gas, 1);
            assert_eq!(stats.retries_histogram, [1, 1, 0, 0]);
        }
        Err(e) => panic!("{}", e.message()),
    }
}

#[test]
fn deferred_chunks_are_tried_in_rounds_of_groups() {
    let addresses: Vec<[u8; 32]> = (0..70u8).map(|b| [b; 32]).collect();
    let pairs: Vec<([u8; 32], Vec<u8>)> = addresses.iter().map(|a| (*a, vec![1])).collect();
    let mut waves = MerkleWaves::new(addresses.clone(), &proof_map(&pairs), vec![[99u8; 32]]);
    while let Some(wave) = waves.next_wave() {
        let mut run = waves.wave_run();
        for address in &wave {
            run.on_result(*address, Err(Error::InsufficientPeers("short".to_string())));
        }
        assert!(matches!(run.end_round(), MerkleRoundEnd::Done));
        assert!(waves.on_wave(run.finish()).is_ok());
    }
    let deferred = waves.take_deferred();
    let mut retry = waves.deferred_retry(deferred);
    let mut delays = Vec::new();
    let mut groups = Vec::new();
    loop {
        delays.push(retry.delay_secs());
        while let Some(group) = retry.next_group() {
            for address in &group {
                let taken = address[0] % 3 == delays.len() as u8 - 1;
                let short = Error::InsufficientPeers("short".to_string());
                retry.run.on_result(*address, if taken { Ok(2) } else { Err(short) });
            }
            groups.push(group.len());
        }
        if !retry.end_round() {
            break;
        }
    }
    assert_eq!(delays, vec![0, 15, 45]);
    assert_eq!(groups, vec![64, 6, 46, 23]);
    let outcome = retry.run.finish();
    assert_eq!(outcome.stored, 71);
    assert_eq!(outcome.stats.retries_histogram, [0, 24, 23, 23]);
    assert_eq!(outcome.stats.store_durations_ms.len(), 70);
    assert_eq!(outcome.stats.chunk_attempts_total, 70 + 46 + 23);
    assert!(waves.on_deferred(outcome).is_ok());
    assert!(matches!(waves.finish("9", 1), Ok((71, _, _, _))));

    let proofs = proof_map(&[([1u8; 32], vec![1])]);
    let mut waves = MerkleWaves::new(vec![[1u8; 32]], &proofs, Vec::new());
    assert!(waves.next_wave().is_some());
    let mut run = waves.wave_run();
    run.on_result([1u8; 32], Err(Error::InsufficientPeers("short".to_string())));
    assert!(waves.on_wave(run.finish()).is_ok());
    let deferred = waves.take_deferred();
    let mut retry = waves.deferred_retry(deferred);
    assert!(retry.next_group().is_some());
    retry.run.on_result([1u8; 32], Err(Error::Storage("full".to_string())));
    assert_eq!(retry.next_group(), None);
    assert!(!retry.end_round());
    assert!(matches!(
        waves.on_deferred(retry.run.finish()),
        Err(Error::PartialUpload { stored_count: 0, failed_count: 1, .. })
    ));
}

#[test]
fn merkle_waves_fail_with_an_unpaid_chunk() {
    let proofs = proof_map(&[([1u8; 32], vec![1])]);
    let mut waves = MerkleWaves::new(vec![[1u8; 32], [2u8; 32]], &proofs, Vec::new());
    assert!(matches!(waves.next_wave(), Some(wave) if wave == vec![[1u8; 32]]));
    let mut run = MerkleStoreRun::new(1, 1, 0, 0, 2);
    run.on_result([1u8; 32], Ok(1));
    assert!(waves.on_wave(run.finish()).is_ok());
    assert!(waves.next_wave().is_none());
    assert!(waves.take_deferred().is_empty());
    match waves.finish("9", 1) {
        Err(Error::PartialUpload { stored_count, failed, .. }) => {
            assert_eq!(stored_count, 1);
            assert_eq!(failed[0].0, [2u8; 32]);
            assert!(failed[0].1.contains("Missing merkle proof"), "{}", failed[0].1);
        }
        _ => panic!("a chunk was not paid for"),
    }
}

#[test]
fn in_memory_uploads_report_their_chunks() {
    let (addresses, average) = merkle_request(&vec![vec![1], vec![2, 3, 4, 5]]);
    assert_eq!(addresses, vec![compute_address(&[1]), compute_address(&[2, 3, 4, 5])]);
    assert_eq!(average, 2);
    let result = data_upload_result(empty_map(), &vec![[1u8; 32], [2u8; 32]]);
    assert_eq!(result.chunks_stored, 2);
    assert_eq!(result.payment_mode_used, PaymentMode::Single);
    let mut run = MerkleStoreRun::new(1, 1, 0, 0, 1);
    run.on_result([2u8; 32], Err(Error::InsufficientPeers("short".to_string())));
    assert!(matches!(
        data_upload_merkle_result(empty_map(), run.finish(), 1),
        Err(Error::PartialUpload { .. })
    ));
    assert!(matches!(
        required_chunk(&[1u8; 32], Ok(None)),
        Err(Error::InvalidData(m)) if m == format!(
            "Missing chunk {} required for data reconstruction",
            "01".repeat(32)
        )
    ));
}

#[test]
fn fetched_chunks_come_out_in_order() {
    let asked = vec![(0, [0u8; 32]), (1, [1u8; 32]), (2, [2u8; 32])];
    let mut batch = FetchBatch::new(asked, 5, 20);
    assert!(batch.on_fetched((2, [2u8; 32]), Ok(None)).is_none());
    assert!(matches!(
        batch.on_fetched((1, [1u8; 32]), Ok(Some(vec![1]))),
        Some(DownloadEvent::ChunksFetched { fetched: 6, total: 20 })
    ));
    assert!(batch
        .on_fetched((0, [0u8; 32]), Err(Error::Network("down".to_string())))
        .is_none());
    match batch.end_round() {
        FetchStep::Retry { delay_secs, chunks } => {
            assert_eq!(delay_secs, 0);
            assert_eq!(chunks, vec![(2, [2u8; 32]), (0, [0u8; 32])]);
        }
        _ => panic!("two chunks are missing"),
    }
    batch.on_fetched((2, [2u8; 32]), Ok(Some(vec![2])));
    batch.on_fetched((0, [0u8; 32]), Ok(Some(vec![0])));
    match batch.end_round() {
        FetchStep::Done(chunks) => {
            assert_eq!(chunks, vec![(0, vec![0]), (1, vec![1]), (2, vec![2])])
        }
        _ => panic!("all chunks are there"),
    }
}

#[test]
fn chunk_that_stays_missing_ends_the_download() {
    let mut batch = FetchBatch::new(vec![(0, [7u8; 32])], 0, 1);
    batch.on_fetched((0, [7u8; 32]), Ok(None));
    for expected in [0u64, 15, 45] {
        match batch.end_round() {
            FetchStep::Retry { delay_secs, .. } => assert_eq!(delay_secs, expected),
            _ => panic!("another round is due"),
        }
        batch.on_fetched((0, [7u8; 32]), Ok(None));
    }
    match batch.end_round() {
        FetchStep::Missing(m) => assert_eq!(
            m,
            format!("Chunk not found after 3 deferred retry rounds: {}", "07".repeat(32))
        ),
        _ => panic!("the rounds are used up"),
    }
}

#[test]
fn download_errors_say_what_failed() {
    assert!(matches!(data_map_chunk(&[1u8; 32], Ok(Some(vec![1]))), Ok(c) if c == vec![1]));
    assert!(matches!(
        data_map_chunk(&[1u8; 32], Ok(None)),
        Err(m) if m == format!("DataMap chunk not found: {}", "01".repeat(32))
    ));
    assert!(matches!(
        data_map_chunk(&[1u8; 32], Err(Error::Network("down".to_string()))),
        Err(m) if m == "DataMap resolution failed: network error: down"
    ));
    assert_eq!(temporary_name(4, 5), ".ant_download_4_5.tmp");
    assert_eq!(
        decrypt_error(DecryptPhase::Decrypting, "x").message(),
        "encryption error: decryption failed: x"
    );
}

fn store_quote(seed: u8, price: u128) -> StoreQuote {
    let quote = PaymentQuote {
        content: [0u8; 32],
        timestamp_secs: 0,
        timestamp_nanos: 0,
        price: U256::from_u128(price),
        rewards_address: [seed; 20],
        pub_key: Vec::new(),
        signature: Vec::new(),
        committed_key_count: 0,
        commitment_pin: None,
    };
    (PeerId::from_bytes([seed; 32]), Vec::new(), quote, U256::from_u128(price))
}

#[test]
fn cost_is_three_times_the_median_for_each_chunk() {
    let quotes = vec![store_quote(1, 30), store_quote(2, 10), store_quote(3, 20)];
    match estimate_cost(1_000, 65, PaymentMode::Single, 1, Some(quotes)) {
        Ok(cost) => {
            assert_eq!(cost.storage_cost_atto, "3900");
            assert_eq!(cost.estimated_gas_cost_wei, "300000000000000");
            assert_eq!(cost.payment_mode, PaymentMode::Single);
        }
        Err(e) => panic!("{}", e.message()),
    }
    let quotes = vec![store_quote(1, 5)];
    match estimate_cost(1_000, 257, PaymentMode::Auto, 1, Some(quotes)) {
        Ok(cost) => {
            assert_eq!(cost.storage_cost_atto, "3855");
            assert_eq!(cost.estimated_gas_cost_wei, "100000000000000");
            assert_eq!(cost.payment_mode, PaymentMode::Merkle);
        }
        Err(e) => panic!("{}", e.message()),
    }
    assert!(matches!(
        estimate_cost(9, 3, PaymentMode::Auto, 3, None),
        Ok(cost) if cost.storage_cost_atto == "0"
    ));
    assert!(matches!(
        estimate_cost(9, 6, PaymentMode::Auto, 5, None),
        Err(Error::CostEstimationInconclusive(_))
    ));
    assert!(check_file_size(3).is_ok());
    assert!(check_file_size(2).is_err());
}

#[test]
fn cost_sampling_stops_at_the_first_price() {
    let mut sampling = CostSampling::new(9);
    assert!(matches!(sampling.next(), SampleStep::Ask(0)));
    for expected in 1..5 {
        assert!(matches!(
            sampling.on_answer(Err(Error::AlreadyStored)),
            Ok(SampleStep::Ask(at)) if at == expected
        ));
    }
    assert!(matches!(
        sampling.on_answer(Err(Error::AlreadyStored)),
        Ok(SampleStep::AllStored)
    ));
    assert!(matches!(
        sampling.on_answer(Ok(vec![store_quote(1, 1)])),
        Ok(SampleStep::Quoted(_))
    ));
    assert!(sampling.on_answer(Err(Error::Network("down".to_string()))).is_err());
}

#[test]
fn quotes_of_a_close_group_are_collected() {
    let address = [0u8; 32];
    let mut collector = QuoteCollector::new();
    for seed in 1..=8u8 {
        let (peer, addrs, quote, price) = store_quote(seed, seed as u128);
        collector.record(&address, peer, addrs, Ok((quote, price)));
    }
    collector.record(
        &address,
        PeerId::from_bytes([9u8; 32]),
        Vec::new(),
        Err(Error::Timeout("slow".to_string())),
    );
    match collector.finish(&address, QuoteSelectionPolicy::ClosestByDistance) {
        Err(Error::InsufficientPeers(m)) => {
            assert!(m.starts_with("Got 0 quotes, need 7"), "{m}");
        }
        _ => panic!("quotes without a key are dropped"),
    }
}

#[test]
fn majority_of_holders_means_stored() {
    let address = [0u8; 32];
    let mut collector = QuoteCollector::new();
    for seed in 1..=4u8 {
        collector.record(
            &address,
            PeerId::from_bytes([seed; 32]),
            Vec::new(),
            Err(Error::AlreadyStored),
        );
    }
    assert!(matches!(
        collector.finish(&address, QuoteSelectionPolicy::ClosestByDistance),
        Err(Error::AlreadyStored)
    ));
}

#[test]
fn quote_requests_and_replies() {
    let peer = PeerId::from_bytes([1u8; 32]);
    let bytes = quote_request(8, &[2u8; 32], 30, 0).expect("an encodable request");
    let message = ant_protocol::ChunkMessage::decode(&bytes).expect("a readable request");
    assert_eq!(message.request_id, 8);
    match message.body {
        ant_protocol::ChunkMessageBody::QuoteRequest(request) => {
            assert_eq!(request.address, [2u8; 32]);
            assert_eq!(request.data_size, 30);
            assert_eq!(request.data_type, 0);
        }
        _ => panic!("a request for a quote"),
    }
    assert!(matches!(
        interpret_quote_reply(&peer, QuoteReply::Success { quote: vec![1], already_stored: true }),
        Some(Err(Error::Serialization(_)))
    ));
    assert!(matches!(
        interpret_quote_reply(&peer, QuoteReply::Error("no".to_string())),
        Some(Err(Error::Protocol(_)))
    ));
    assert!(interpret_quote_reply(&peer, QuoteReply::Other).is_none());
    assert!(matches!(quote_send_error(&peer, "x"), Error::Network(_)));
    assert!(matches!(quote_timeout_error(&peer), Error::Timeout(_)));
    assert!(matches!(witnessed_lookup_error(&[0u8; 32], "x"), Error::InsufficientPeers(_)));
    assert!(check_quote_peers(7).is_ok());
    assert!(matches!(
        check_quote_peers(6),
        Err(Error::InsufficientPeers(m)) if m == "Found 6 peers, need 7"
    ));
}

#[test]
fn witnessed_peers_are_split_from_their_voters() {
    let mut voters = ant_core::collections::AddressSet::new();
    voters.insert([5u8; 32]);
    let (peers, by_peer) = split_witnessed_peers(vec![WitnessedQuotePeer {
        peer_id: PeerId::from_bytes([1u8; 32]),
        addrs: Vec::new(),
        voters,
    }]);
    assert_eq!(peers.len(), 1);
    assert!(by_peer.get(&[1u8; 32]).is_some_and(|v| v.contains(&[5u8; 32])));
}

#[test]
fn lookup_leaves_this_client_out() {
    let node = |seed: u8| DhtNode {
        record: ant_protocol::transport::DHTNode {
            peer_id: ant_protocol::transport::PeerId::from_bytes([seed; 32]),
            addresses: Vec::new(),
            address_types: Vec::new(),
            distance: None,
            reliability: 1.0,
            address_authority: None,
        },
    };
    let local = PeerId::from_bytes([2u8; 32]);
    let found = find_closest_peers(vec![node(1), node(2), node(3), node(4)], &local, 2);
    assert_eq!(
        found.iter().map(|p| p.0.as_bytes()[0]).collect::<Vec<_>>(),
        vec![1, 3]
    );
    assert_eq!(lookup_size(7), 8);
    assert_eq!(
        lookup_error("x").message(),
        "network error: DHT closest-nodes lookup failed: x"
    );
    assert_eq!(
        join_error(JoinStep::Start, "x").message(),
        "network error: Failed to start P2P node: x"
    );
}
