use ant_core::collections::AddressMap;
use ant_core::data::client::file::UploadEvent;
use ant_core::data::client::merkle::{
    chunk_already_stored_for_merkle, chunk_contents_for_upload_addresses, clock_error,
    merkle_batches, merkle_payment_error, receipt_is_fresh, should_use_merkle, with_costs, MerkleBatchPaymentResult,
    MerklePreflight, MerkleReceipts, PaymentMode, DEFAULT_MERKLE_THRESHOLD,
};
use ant_core::data::client::merkle_candidates::{
    candidate_request, candidate_send_error, candidate_timeout_error, check_candidate_peers,
    interpret_candidate_reply, supplement_with_connected, CandidateCollector, CandidateReply,
};
use ant_core::data::client::merkle_pool::{
    candidate_pool, finalize_merkle_batch, pool_address, MerkleCandidate, MerkleTreePlan,
    PreparedMerkleBatch, CANDIDATES_PER_POOL, MAX_LEAVES,
};
use ant_core::data::client::merkle_store::{
    check_contents_count, proof_for, MerkleRoundEnd, MerkleStoreOutcome, MerkleStoreRun,
    WaveAggregateStats, MERKLE_STORE_MAX_ATTEMPTS,
};
use ant_core::data::error::Error;
use ant_core::uint256::U256;
use ant_core::xor::PeerId;
use ant_protocol::compute_address;
use ant_protocol::evm::{
    Amount, MerklePaymentCandidateNode, MerklePaymentCandidatePool, MerklePaymentProof, MerkleTree,
    RewardsAddress,
};
use ant_protocol::pqc::ops::MlDsaOperations;
use ant_protocol::transport::MlDsa65;
use ant_protocol::{deserialize_merkle_proof, serialize_merkle_proof};
use std::collections::{HashMap, HashSet};
use xor_name::XorName;

#[test]
fn test_auto_below_threshold() {
    assert!(!should_use_merkle(1, PaymentMode::Auto));
    assert!(!should_use_merkle(10, PaymentMode::Auto));
    assert!(!should_use_merkle(63, PaymentMode::Auto));
}

#[test]
fn test_auto_at_and_above_threshold() {
    assert!(should_use_merkle(64, PaymentMode::Auto));
    assert!(should_use_merkle(65, PaymentMode::Auto));
    assert!(should_use_merkle(1000, PaymentMode::Auto));
}

#[test]
fn test_merkle_mode_forces_at_2() {
    assert!(!should_use_merkle(1, PaymentMode::Merkle));
    assert!(should_use_merkle(2, PaymentMode::Merkle));
    assert!(should_use_merkle(3, PaymentMode::Merkle));
}

#[test]
fn test_single_mode_always_false() {
    assert!(!should_use_merkle(0, PaymentMode::Single));
    assert!(!should_use_merkle(64, PaymentMode::Single));
    assert!(!should_use_merkle(1000, PaymentMode::Single));
}

#[test]
fn test_default_mode_is_auto() {
    assert_eq!(PaymentMode::default(), PaymentMode::Auto);
}

#[test]
fn test_threshold_value() {
    assert_eq!(DEFAULT_MERKLE_THRESHOLD, 64);
}

fn selection(contents: Vec<Vec<u8>>, addresses: &[[u8; 32]]) -> Vec<Vec<u8>> {
    match chunk_contents_for_upload_addresses(contents, &addresses.to_vec()) {
        Ok(selected) => selected,
        Err(e) => panic!("{}", e.message()),
    }
}

#[test]
fn chunk_contents_for_upload_addresses_preserves_requested_order() {
    let first = b"first".to_vec();
    let second = b"second".to_vec();
    let first_addr = compute_address(&first);
    let second_addr = compute_address(&second);

    let selected = selection(vec![first.clone(), second.clone()], &[second_addr, first_addr]);

    assert_eq!(selected, vec![second, first]);
}

#[test]
fn chunk_contents_for_upload_addresses_preserves_duplicate_requests() {
    let repeated = b"same-content".to_vec();
    let other = b"other-content".to_vec();
    let repeated_addr = compute_address(&repeated);

    let selected = selection(
        vec![repeated.clone(), other, repeated.clone()],
        &[repeated_addr, repeated_addr],
    );

    assert_eq!(selected, vec![repeated.clone(), repeated]);
}

#[test]
fn chunk_contents_for_upload_addresses_ignores_unrequested_duplicates() {
    let requested = b"requested-content".to_vec();
    let unrequested = b"unrequested-content".to_vec();
    let requested_addr = compute_address(&requested);

    let selected = selection(
        vec![unrequested.clone(), requested.clone(), unrequested.clone(), unrequested],
        &[requested_addr],
    );

    assert_eq!(selected, vec![requested]);
}

#[test]
fn chunk_contents_for_upload_addresses_errors_for_missing_content() {
    let present = b"present-content".to_vec();
    let missing = b"missing-content".to_vec();
    let missing_addr = compute_address(&missing);

    let result = chunk_contents_for_upload_addresses(vec![present], &vec![missing_addr]);

    assert!(matches!(result, Err(Error::InvalidData(_))));
}

fn make_test_addresses(count: usize) -> Vec<[u8; 32]> {
    (0..count).map(|i| XorName::from_content(&i.to_le_bytes()).0).collect()
}

fn xornames_of(addrs: &[[u8; 32]]) -> Vec<XorName> {
    addrs.iter().map(|a| XorName(*a)).collect()
}

fn plan_of(addrs: Vec<[u8; 32]>) -> MerkleTreePlan {
    match MerkleTreePlan::build(addrs) {
        Ok(plan) => plan,
        Err(e) => panic!("{}", e.message()),
    }
}

fn now_secs() -> u64 {
    std::time::SystemTime::now()
        .duration_since(std::time::UNIX_EPOCH)
        .expect("a time after the epoch")
        .as_secs()
}

#[test]
fn test_tree_depth_for_known_sizes() {
    let cases = [(2, 1), (4, 2), (16, 4), (100, 7), (256, 8)];
    for (count, expected_depth) in cases {
        let plan = plan_of(make_test_addresses(count));
        assert_eq!(plan.depth, expected_depth, "depth mismatch for {count} leaves");
        assert_eq!(plan.tree.depth(), expected_depth, "depth mismatch for {count} leaves");
    }
}

#[test]
fn test_proof_generation_and_verification_for_all_leaves() {
    let addrs = make_test_addresses(16);
    let xornames = xornames_of(&addrs);
    let tree = plan_of(addrs).tree;

    for (i, xn) in xornames.iter().enumerate() {
        let proof = tree.generate_address_proof(i, *xn).expect("a proof");
        assert!(proof.verify(), "proof for leaf {i} should verify");
        assert_eq!(proof.depth(), tree.depth() as usize);
    }
}

#[test]
fn test_proof_fails_for_wrong_address() {
    let tree = plan_of(make_test_addresses(8)).tree;

    let wrong = XorName::from_content(b"wrong");
    let proof = tree.generate_address_proof(0, wrong).expect("a proof");
    assert!(!proof.verify(), "proof with wrong address should fail");
}

#[test]
fn test_tree_too_few_leaves() {
    let result = MerkleTreePlan::build(vec![XorName::from_content(b"only_one").0]);
    match result {
        Err(Error::Payment(m)) => assert!(m.starts_with("Failed to build merkle tree: "), "{m}"),
        _ => panic!("one leaf makes no tree"),
    }
}

#[test]
fn test_tree_at_max_leaves() {
    let tree = plan_of(make_test_addresses(MAX_LEAVES)).tree;
    assert_eq!(tree.leaf_count(), MAX_LEAVES);
    assert!(MerkleTreePlan::build(make_test_addresses(MAX_LEAVES + 1)).is_err());
}

fn make_dummy_candidate_nodes(
    timestamp: u64,
) -> [MerklePaymentCandidateNode; CANDIDATES_PER_POOL] {
    std::array::from_fn(|i| MerklePaymentCandidateNode {
        pub_key: vec![i as u8; 32],
        price: Amount::from(1024u64),
        reward_address: RewardsAddress::new([i as u8; 20]),
        merkle_payment_timestamp: timestamp,
        signature: vec![i as u8; 64],
        committed_key_count: 0,
        commitment_pin: None,
    })
}

#[test]
fn test_merkle_proof_serialize_deserialize_roundtrip() {
    let addrs = make_test_addresses(4);
    let xornames = xornames_of(&addrs);
    let tree = MerkleTree::from_xornames(xornames.clone()).expect("a tree");
    let timestamp = now_secs();
    let candidates = tree.reward_candidates(timestamp).expect("candidates");
    let midpoint = candidates.first().expect("a midpoint").clone();

    let pool = MerklePaymentCandidatePool {
        midpoint_proof: midpoint,
        candidate_nodes: make_dummy_candidate_nodes(timestamp),
    };

    let address_proof = tree.generate_address_proof(0, xornames[0]).expect("a proof");
    let merkle_proof = MerklePaymentProof::new(xornames[0], address_proof, pool);

    let tagged = serialize_merkle_proof(&merkle_proof).expect("proof bytes");
    assert_eq!(tagged.first().copied(), Some(0x02), "tag should be PROOF_TAG_MERKLE");

    let deserialized = deserialize_merkle_proof(&tagged).expect("a readable proof");
    assert_eq!(deserialized.address, merkle_proof.address);
    assert_eq!(deserialized.winner_pool.candidate_nodes.len(), CANDIDATES_PER_POOL);
}

#[test]
fn test_candidate_wrong_timestamp_rejected() {
    let (peer, candidate) = signed_candidate(1000);
    assert_ne!(candidate.merkle_payment_timestamp, 2000);
    let mut collector = CandidateCollector::new(2000);
    collector.record(peer, Ok(candidate));
    assert!(collector.valid.is_empty());
    assert_eq!(collector.failures, vec![format!("{}: timestamp mismatch", peer.to_hex())]);
}

fn make_prepared_merkle_batch(count: usize) -> PreparedMerkleBatch {
    let timestamp = now_secs();
    let plan = plan_of(make_test_addresses(count));
    let midpoints = match plan.midpoints(timestamp) {
        Ok(midpoints) => midpoints,
        Err(e) => panic!("{}", e.message()),
    };

    let candidate_pools: Vec<MerklePaymentCandidatePool> = midpoints
        .into_iter()
        .map(|mp| MerklePaymentCandidatePool {
            midpoint_proof: mp,
            candidate_nodes: make_dummy_candidate_nodes(timestamp),
        })
        .collect();

    plan.with_pools(timestamp, candidate_pools)
}

fn proof_bytes(batch: &MerkleBatchPaymentResult) -> Vec<([u8; 32], Vec<u8>)> {
    (0..batch.proofs.len())
        .map(|i| {
            let key = *batch.proofs.key_at(i);
            let bytes = batch.proofs.get(&key).expect("the proof of a key").clone();
            (key, bytes)
        })
        .collect()
}

#[test]
fn test_finalize_merkle_batch_with_valid_winner() {
    let prepared = make_prepared_merkle_batch(4);
    let winner_hash = prepared.candidate_pools[0].hash();

    let batch = match finalize_merkle_batch(prepared, winner_hash) {
        Ok(batch) => batch,
        Err(e) => panic!("should succeed with valid winner: {e:?}"),
    };
    assert_eq!(batch.chunk_count, 4);
    assert_eq!(batch.proofs.len(), 4);

    for (_, bytes) in proof_bytes(&batch) {
        assert!(!bytes.is_empty());
    }
}

#[test]
fn test_finalize_merkle_batch_with_invalid_winner() {
    let prepared = make_prepared_merkle_batch(4);
    let bad_hash = [0xFF; 32];

    let result = finalize_merkle_batch(prepared, bad_hash);
    assert!(result.is_err());
    let err = match result {
        Ok(_) => panic!("no pool has this hash"),
        Err(e) => e.message(),
    };
    assert!(err.contains("not found in candidate pools"), "got: {err}");
}

#[test]
fn test_finalize_merkle_batch_proofs_are_deserializable() {
    let prepared = make_prepared_merkle_batch(8);
    let winner_hash = prepared.candidate_pools[0].hash();

    let batch = match finalize_merkle_batch(prepared, winner_hash) {
        Ok(batch) => batch,
        Err(e) => panic!("{}", e.message()),
    };

    for (addr, bytes) in proof_bytes(&batch) {
        let proof = deserialize_merkle_proof(&bytes);
        assert!(
            proof.is_ok(),
            "proof for {} should deserialize: {:?}",
            hex::encode(addr),
            proof.err()
        );
        assert_eq!(proof.map(|p| p.address.0).ok(), Some(addr));
    }
}

fn batch_count(addresses: Vec<[u8; 32]>) -> usize {
    match merkle_batches(addresses) {
        Ok(batches) => batches.len(),
        Err(e) => panic!("{}", e.message()),
    }
}

#[test]
fn test_batch_split_calculation() {
    assert_eq!(batch_count(make_test_addresses(MAX_LEAVES)), 1);
    assert_eq!(batch_count(make_test_addresses(MAX_LEAVES + 1)), 2);
    assert_eq!(batch_count(make_test_addresses(3 * MAX_LEAVES)), 3);
}

#[test]
fn merkle_batches_need_two_chunks() {
    match merkle_batches(make_test_addresses(1)) {
        Err(Error::Payment(m)) => assert_eq!(m, "Merkle batch payment requires at least 2 chunks"),
        _ => panic!("one chunk makes no batch"),
    }
    let addresses = make_test_addresses(MAX_LEAVES + 1);
    let batches = match merkle_batches(addresses.clone()) {
        Ok(batches) => batches,
        Err(e) => panic!("{}", e.message()),
    };
    assert_eq!(batches.concat(), addresses);
}

/// Stores chunks round by round with `store_one` until the run is over.
fn store_with_retry<F: FnMut([u8; 32]) -> Result<u64, Error>>(
    addresses: &[[u8; 32]],
    max_attempts: usize,
    mut store_one: F,
) -> MerkleStoreOutcome {
    let total = addresses.len();
    let mut run = MerkleStoreRun::new(total, max_attempts, 0, 0, total);
    let mut round = addresses.to_vec();
    loop {
        for address in &round {
            if run.fatal.is_none() {
                run.on_result(*address, store_one(*address));
            }
        }
        if run.fatal.is_some() {
            return run.finish();
        }
        match run.end_round() {
            MerkleRoundEnd::Done => return run.finish(),
            MerkleRoundEnd::Retry(again) => round = again,
        }
    }
}

#[test]
fn store_with_retry_collects_failures_instead_of_aborting() {
    let chunks = make_test_addresses(6);
    let failing: HashSet<[u8; 32]> = chunks.iter().take(2).copied().collect();

    let outcome = store_with_retry(&chunks, 1, |addr| {
        if failing.contains(&addr) {
            Err(Error::InsufficientPeers("test shortfall".into()))
        } else {
            Ok(0)
        }
    });

    assert!(outcome.fatal.is_none(), "quorum shortfalls must not abort the batch");
    assert_eq!(outcome.stored, 4);
    assert_eq!(outcome.failed_addresses.len(), 2);
    assert_eq!(outcome.stats.retries_histogram[0], 4);
    assert_eq!(outcome.stats.chunk_attempts_total, 6);
}

#[test]
fn store_with_retry_propagates_non_quorum_errors() {
    let chunks = make_test_addresses(3);
    let outcome =
        store_with_retry(&chunks, 3, |_| Err(Error::Payment("missing proof".into())));
    assert!(matches!(outcome.fatal, Some(Error::Payment(_))));
}

#[test]
fn store_with_retry_retries_only_the_failed_set() {
    let chunks = make_test_addresses(5);
    let total = chunks.len();
    let failing: HashSet<[u8; 32]> = chunks.iter().take(2).copied().collect();

    let mut calls: Vec<[u8; 32]> = Vec::new();
    let outcome = store_with_retry(&chunks, 3, |addr| {
        let already_seen = calls.iter().filter(|&&a| a == addr).count();
        let fail = failing.contains(&addr) && already_seen == 0;
        calls.push(addr);
        if fail {
            Err(Error::InsufficientPeers("round-1 shortfall".into()))
        } else {
            Ok(0)
        }
    });

    assert!(outcome.fatal.is_none(), "should converge after retry");
    assert_eq!(outcome.stored, total);
    assert_eq!(outcome.failed_addresses.len(), 0);

    assert_eq!(calls.len(), total + failing.len());
    let round_two: HashSet<[u8; 32]> = calls[total..].iter().copied().collect();
    assert_eq!(round_two, failing);
}

#[test]
fn store_with_retry_counts_retry_success_once_in_histogram() {
    let chunks = make_test_addresses(4);
    let total = chunks.len();
    let flaky_addr = chunks[0];

    let mut attempts: HashMap<[u8; 32], usize> = HashMap::new();
    let outcome = store_with_retry(&chunks, 3, |addr| {
        let entry = attempts.entry(addr).or_insert(0);
        *entry += 1;
        if addr == flaky_addr && *entry == 1 {
            Err(Error::InsufficientPeers("transient".into()))
        } else {
            Ok(0)
        }
    });

    assert!(outcome.fatal.is_none(), "flaky chunk should recover on retry");
    assert_eq!(outcome.stored, total);
    assert_eq!(outcome.failed_addresses.len(), 0);
    assert_eq!(outcome.stats.retries_histogram[0], total - 1);
    assert_eq!(outcome.stats.retries_histogram[1], 1);
    assert_eq!(outcome.stats.chunk_attempts_total, total + 1);
}

#[test]
fn store_with_retry_reports_all_failed_when_retries_exhausted() {
    let chunks = make_test_addresses(3);
    let total = chunks.len();

    let outcome = store_with_retry(&chunks, MERKLE_STORE_MAX_ATTEMPTS, |_| {
        Err(Error::InsufficientPeers("never converges".into()))
    });

    assert!(
        outcome.fatal.is_none(),
        "an exhausted retry budget is reported, not propagated as Err"
    );
    assert_eq!(outcome.stored, 0);
    assert_eq!(outcome.failed_addresses.len(), total);
    assert_eq!(outcome.stats.chunk_attempts_total, total * MERKLE_STORE_MAX_ATTEMPTS);
    assert_eq!(outcome.stats.retries_histogram, [0; 4]);
}

#[test]
fn every_stored_chunk_is_counted_once() {
    for max_attempts in [0usize, 1, 3] {
        let chunks = make_test_addresses(9);
        let mut calls: usize = 0;
        let outcome = store_with_retry(&chunks, max_attempts, |addr| {
            calls += 1;
            if (usize::from(addr[0]) + calls) % 3 == 0 {
                Ok(1)
            } else {
                Err(Error::InsufficientPeers("test shortfall".into()))
            }
        });
        let stored = outcome.stored_addresses.len();
        assert_eq!(outcome.stored, stored);
        assert_eq!(stored + outcome.failed_addresses.len(), 9);
        assert_eq!(outcome.stats.retries_histogram.iter().sum::<usize>(), stored);
        assert_eq!(outcome.stats.store_durations_ms.len(), stored);
        assert_eq!(outcome.stats.chunk_attempts_total, calls);
        assert!((9..=9 * max_attempts.max(1)).contains(&calls));
    }
}

#[test]
fn stored_chunks_are_reported_with_those_before() {
    let mut run = MerkleStoreRun::new(2, 1, 1, 10, 20);
    assert_eq!(
        run.on_result([1u8; 32], Ok(5)),
        Some(UploadEvent::ChunkStored { stored: 11, total: 20 })
    );
    run.on_result([2u8; 32], Err(Error::InsufficientPeers("short".into())));
    assert!(matches!(run.end_round(), MerkleRoundEnd::Done));
    let outcome = run.finish();
    assert_eq!(outcome.stored, 11);
    assert_eq!(outcome.stats.retries_histogram, [0, 1, 0, 0]);
    assert_eq!(outcome.stats.store_durations_ms, vec![5]);
    assert_eq!(
        outcome.failed_addresses,
        vec![([2u8; 32], "insufficient peers: short".to_string())]
    );
}

#[test]
fn statistics_add_up() {
    let mut all = WaveAggregateStats::new();
    all.count_attempt();
    all.count_stored(0, 7);
    let mut more = WaveAggregateStats::new();
    more.count_attempt();
    more.count_attempt();
    more.count_stored(9, 8);
    all.merge(more);
    assert_eq!(all.chunk_attempts_total, 3);
    assert_eq!(all.store_durations_ms, vec![7, 8]);
    assert_eq!(all.retries_histogram, [1, 0, 0, 1]);
}

/// A candidate whose signature covers its offer, and its peer.
fn signed_candidate(timestamp: u64) -> (PeerId, MerkleCandidate) {
    let ml_dsa = MlDsa65::new();
    let (public, secret) = ml_dsa.generate_keypair().expect("ML-DSA-65 keygen");
    let price = Amount::from(5u64);
    let message = MerklePaymentCandidateNode::bytes_to_sign(
        &price,
        &RewardsAddress::new([6u8; 20]),
        timestamp,
        0,
        &None,
    );
    let signature = ml_dsa.sign(&secret, &message).expect("a signature");
    let pub_key = public.as_bytes().to_vec();
    let peer = PeerId::from_bytes(compute_address(&pub_key));
    let candidate = MerkleCandidate {
        pub_key,
        price: U256::from_u128(5),
        reward_address: [6u8; 20],
        merkle_payment_timestamp: timestamp,
        signature: signature.as_bytes().to_vec(),
        committed_key_count: 0,
        commitment_pin: None,
    };
    (peer, candidate)
}

#[test]
fn pool_is_made_of_the_closest_valid_offers() {
    let target = [0u8; 32];
    let mut collector = CandidateCollector::new(77);
    let (_, offer) = signed_candidate(77);
    for seed in (1..=17u8).rev() {
        let mut offer = offer.clone();
        offer.commitment_pin = None;
        collector.record(PeerId::from_bytes([seed; 32]), Ok(offer));
    }
    let mut forged = offer.clone();
    forged.price = U256::from_u128(6);
    collector.record(PeerId::from_bytes([18u8; 32]), Ok(forged));
    collector.record(PeerId::from_bytes([19u8; 32]), Err(Error::Timeout("slow".into())));
    assert_eq!(collector.valid.len(), 17);
    assert_eq!(
        collector.failures,
        vec![
            format!("{}: invalid signature", "12".repeat(32)),
            format!("{}: operation timed out: slow", "13".repeat(32)),
        ]
    );
    let chosen = match collector.finish(&target) {
        Ok(chosen) => chosen,
        Err(e) => panic!("{}", e.message()),
    };
    assert_eq!(chosen.len(), CANDIDATES_PER_POOL);

    let plan = plan_of(make_test_addresses(4));
    let midpoint = match plan.midpoints(77) {
        Ok(mut midpoints) => midpoints.remove(0),
        Err(e) => panic!("{}", e.message()),
    };
    assert_eq!(pool_address(&midpoint), midpoint.address().0);
    let pool = match candidate_pool(midpoint, chosen) {
        Ok(pool) => pool,
        Err(e) => panic!("{}", e.message()),
    };
    assert_eq!(pool.candidate_nodes[0].price, Amount::from(5u64));
    let prepared = plan.with_pools(77, vec![pool.clone()]);
    assert_eq!(prepared.pool_commitments.len(), 1);
    assert_eq!(prepared.pool_commitments[0].pool_hash, pool.hash());
}

#[test]
fn pool_needs_sixteen_candidates() {
    let (peer, offer) = signed_candidate(1);
    let mut collector = CandidateCollector::new(1);
    collector.record(peer, Ok(offer.clone()));
    match collector.finish(&[0u8; 32]) {
        Err(Error::InsufficientPeers(m)) => {
            assert_eq!(m, "Got 1 merkle candidates, need 16. Failures: []")
        }
        _ => panic!("one offer makes no pool"),
    }
    let plan = plan_of(make_test_addresses(2));
    let midpoint = match plan.midpoints(1) {
        Ok(mut midpoints) => midpoints.remove(0),
        Err(e) => panic!("{}", e.message()),
    };
    assert!(matches!(candidate_pool(midpoint, vec![offer]), Err(Error::Payment(_))));
}

#[test]
fn offers_are_decoded_from_their_wire_form() {
    let node = &make_dummy_candidate_nodes(9)[3];
    let bytes = rmp_serde::to_vec(node).expect("wire form");
    let peer = PeerId::from_bytes([1u8; 32]);
    match interpret_candidate_reply(&peer, CandidateReply::Success(bytes)) {
        Some(Ok(offer)) => {
            assert_eq!(offer.pub_key, node.pub_key);
            assert_eq!(offer.price, U256::from_u128(1024));
            assert_eq!(offer.reward_address, [3u8; 20]);
            assert_eq!(offer.merkle_payment_timestamp, 9);
        }
        _ => panic!("a readable offer"),
    }
    assert!(matches!(
        interpret_candidate_reply(&peer, CandidateReply::Success(vec![1])),
        Some(Err(Error::Serialization(_)))
    ));
    match interpret_candidate_reply(&peer, CandidateReply::Error("no".into())) {
        Some(Err(Error::Protocol(m))) => {
            assert_eq!(m, format!("Merkle quote error from {}: no", "01".repeat(32)))
        }
        _ => panic!("a refusal"),
    }
    assert!(interpret_candidate_reply(&peer, CandidateReply::Other).is_none());
}

#[test]
fn offer_request_carries_its_fields() {
    let bytes = candidate_request(3, &[4u8; 32], 0, 100, 55).expect("an encodable request");
    let message = ant_protocol::ChunkMessage::decode(&bytes).expect("a readable request");
    assert_eq!(message.request_id, 3);
    match message.body {
        ant_protocol::ChunkMessageBody::MerkleCandidateQuoteRequest(request) => {
            assert_eq!(request.address, [4u8; 32]);
            assert_eq!(request.data_type, 0);
            assert_eq!(request.data_size, 100);
            assert_eq!(request.merkle_payment_timestamp, 55);
        }
        _ => panic!("a request for an offer"),
    }
}

#[test]
fn connected_peers_fill_a_short_list() {
    let peer = |seed: u8| PeerId::from_bytes([seed; 32]);
    let found = vec![(peer(1), Vec::new()), (peer(2), Vec::new())];
    let filled = supplement_with_connected(found, &vec![peer(2), peer(3), peer(3)]);
    assert_eq!(
        filled.iter().map(|p| p.0).collect::<Vec<_>>(),
        vec![peer(1), peer(2), peer(3)]
    );
    let enough: Vec<_> = (1..=16).map(|s| (peer(s), Vec::new())).collect();
    assert_eq!(supplement_with_connected(enough, &vec![peer(99)]).len(), 16);
    assert!(check_candidate_peers(16).is_ok());
    match check_candidate_peers(15) {
        Err(Error::InsufficientPeers(m)) => assert_eq!(
            m,
            "Found 15 peers, need 16 for merkle candidate pool. Use --no-merkle or a larger network."
        ),
        _ => panic!("fifteen peers are too few"),
    }
}

#[test]
fn preflight_parts_the_chunks() {
    let mut preflight =
        MerklePreflight::new(vec![([1u8; 32], 10), ([2u8; 32], 20), ([3u8; 32], 31)]);
    assert_eq!(
        preflight.on_probed(2, false),
        vec![UploadEvent::ChunkQuoted { quoted: 1, total: 3 }]
    );
    assert_eq!(
        preflight.on_probed(1, true),
        vec![
            UploadEvent::ChunkQuoted { quoted: 2, total: 3 },
            UploadEvent::ChunkStored { stored: 1, total: 3 },
        ]
    );
    preflight.on_probed(0, false);
    let plan = preflight.finish();
    assert_eq!(plan.already_stored, vec![[2u8; 32]]);
    assert_eq!(plan.to_upload, vec![[1u8; 32], [3u8; 32]]);
    assert_eq!(plan.to_upload_total_bytes, 41);
    assert_eq!(plan.to_upload_avg_size(), 20);
    assert!(matches!(chunk_already_stored_for_merkle(Err(Error::AlreadyStored)), Ok(true)));
    assert!(matches!(chunk_already_stored_for_merkle(Ok(Vec::new())), Ok(false)));
    assert!(chunk_already_stored_for_merkle(Err(Error::Network("x".into()))).is_err());
}

fn receipt(seed: u8, cost: &str, gas: u128, timestamp: u64) -> MerkleBatchPaymentResult {
    let mut proofs = AddressMap::new();
    proofs.insert([seed; 32], vec![seed]);
    MerkleBatchPaymentResult {
        proofs,
        chunk_count: 1,
        storage_cost_atto: cost.to_string(),
        gas_cost_wei: gas,
        merkle_payment_timestamp: timestamp,
    }
}

#[test]
fn receipts_add_up_and_keep_the_oldest_time() {
    let mut receipts = MerkleReceipts::new();
    receipts.on_paid(receipt(1, "100", 5, 200));
    receipts.on_paid(receipt(2, "23", 6, 150));
    receipts.on_paid(receipt(3, "oops", 7, 300));
    let all = receipts.complete(3);
    assert_eq!(all.storage_cost_atto, "123");
    assert_eq!(all.gas_cost_wei, 18);
    assert_eq!(all.merkle_payment_timestamp, 150);
    assert_eq!(all.proofs.len(), 3);
}

#[test]
fn paid_batches_survive_a_later_failure() {
    let mut receipts = MerkleReceipts::new();
    receipts.on_paid(receipt(1, "100", 5, 200));
    match receipts.on_failed(Error::Payment("later".into())) {
        Ok(part) => assert_eq!(part.chunk_count, 1),
        Err(_) => panic!("one batch was paid"),
    }
    assert!(matches!(
        MerkleReceipts::new().on_failed(Error::Payment("first".into())),
        Err(Error::Payment(_))
    ));
    let costed = with_costs(receipt(1, "0", 0, 9), &U256::from_u128(44), 3);
    assert_eq!(costed.storage_cost_atto, "44");
    assert_eq!(costed.gas_cost_wei, 3);
}

#[test]
fn merkle_errors_say_what_failed() {
    let peer = PeerId::from_bytes([1u8; 32]);
    assert_eq!(
        merkle_payment_error("x").message(),
        "payment error: Merkle batch payment failed: x"
    );
    assert_eq!(clock_error("x").message(), "payment error: System time error: x");
    assert_eq!(
        candidate_send_error(&peer, "x").message(),
        format!(
            "network error: Failed to send merkle candidate request to {}: x",
            "01".repeat(32)
        )
    );
    assert_eq!(
        candidate_timeout_error(&peer).message(),
        format!(
            "operation timed out: Timeout waiting for merkle candidate from {}",
            "01".repeat(32)
        )
    );
    assert!(check_contents_count(2, 2).is_ok());
    match check_contents_count(2, 3) {
        Err(Error::InvalidData(m)) => {
            assert_eq!(m, "merkle upload has 2 chunk contents but 3 addresses")
        }
        _ => panic!("a chunk without an address"),
    }
    let proofs = receipt(1, "0", 0, 0).proofs;
    assert!(matches!(proof_for(&proofs, &[1u8; 32]), Ok(bytes) if bytes == vec![1u8]));
    match proof_for(&proofs, &[2u8; 32]) {
        Err(Error::Payment(m)) => {
            assert_eq!(m, format!("Missing merkle proof for chunk {}", "02".repeat(32)))
        }
        _ => panic!("no proof for this chunk"),
    }
}

#[test]
fn receipts_expire() {
    assert!(receipt_is_fresh(1_099, 1_000, 100));
    assert!(!receipt_is_fresh(1_100, 1_000, 100));
    assert!(receipt_is_fresh(900, 1_000, 100));
    assert!(!receipt_is_fresh(900, 1_000, 0));
}
