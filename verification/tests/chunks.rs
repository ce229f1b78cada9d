use ant_core::data::client::chunk::{
    after_first_sweep, after_retry_sweep, check_cached, chunk_exists, chunk_put_request,
    chunk_put_step, get_request, get_send_error, get_timeout_error, interpret_get_reply,
    interpret_put_reply,
    is_authoritative_not_found, put_request, put_send_error, put_timeout_error,
    store_response_timeout_for_proof, CacheVerdict, CloseGroupPut, DataChunk, GetReply, GetStep,
    PutAction, PutReply, PutStep, Sweep, SweepStep, STORE_RESPONSE_TIMEOUT_SECS,
};
use ant_core::data::client::ClientConfig;
use ant_core::data::error::Error;
use ant_core::protocol::{PROOF_TAG_MERKLE, PROOF_TAG_SINGLE_NODE};
use ant_core::xor::PeerId;
use ant_protocol::{compute_address, ChunkMessage, ChunkMessageBody};

/// A configured time limit for Merkle proofs.
const TEST_MERKLE_TIMEOUT_SECS: u64 = 60;
/// A byte that tags no kind of proof.
const UNKNOWN_PROOF_TAG: u8 = 0xff;

fn peer(seed: u8) -> PeerId {
    PeerId::from_bytes([seed; 32])
}

#[test]
fn authoritative_not_found_requires_quorum() {
    let quorum = 7 / 2 + 1;
    assert_eq!(quorum, 4);

    assert!(is_authoritative_not_found(4, quorum));
    assert!(is_authoritative_not_found(7, quorum));

    assert!(!is_authoritative_not_found(3, quorum));
    assert!(!is_authoritative_not_found(0, quorum));
}

#[test]
fn single_node_proof_uses_store_response_timeout() {
    let timeout =
        store_response_timeout_for_proof(&[PROOF_TAG_SINGLE_NODE], TEST_MERKLE_TIMEOUT_SECS);

    assert_eq!(timeout, STORE_RESPONSE_TIMEOUT_SECS);
}

#[test]
fn unknown_proof_uses_store_response_timeout() {
    let timeout = store_response_timeout_for_proof(&[UNKNOWN_PROOF_TAG], TEST_MERKLE_TIMEOUT_SECS);

    assert_eq!(timeout, STORE_RESPONSE_TIMEOUT_SECS);
}

#[test]
fn merkle_proof_uses_configured_store_timeout() {
    let timeout = store_response_timeout_for_proof(&[PROOF_TAG_MERKLE], TEST_MERKLE_TIMEOUT_SECS);

    assert_eq!(timeout, TEST_MERKLE_TIMEOUT_SECS);
}

#[test]
fn default_merkle_store_timeout_satisfies_storer_invariant() {
    const STORER_CLOSENESS_LOOKUP_TIMEOUT_SECS: u64 = 240;
    const MIN_PADDING_SECS: u64 = 30;
    let config = ClientConfig::default();
    assert!(
        config.merkle_store_timeout_secs >= STORER_CLOSENESS_LOOKUP_TIMEOUT_SECS + MIN_PADDING_SECS,
        "merkle_store_timeout_secs ({}) must be >= storer CLOSENESS_LOOKUP_TIMEOUT ({}) + padding ({})",
        config.merkle_store_timeout_secs,
        STORER_CLOSENESS_LOOKUP_TIMEOUT_SECS,
        MIN_PADDING_SECS,
    );
}

#[test]
fn non_merkle_put_ignores_merkle_timeout_value() {
    let absurd_merkle_timeout = 9_999;
    for tag in [PROOF_TAG_SINGLE_NODE, UNKNOWN_PROOF_TAG] {
        let timeout = store_response_timeout_for_proof(&[tag], absurd_merkle_timeout);
        assert_eq!(
            timeout, STORE_RESPONSE_TIMEOUT_SECS,
            "non-merkle proof tag {tag:#x} should ignore merkle timeout {absurd_merkle_timeout}",
        );
    }
}

#[test]
fn proof_tags_are_those_of_the_protocol() {
    assert_eq!(PROOF_TAG_SINGLE_NODE, ant_protocol::PROOF_TAG_SINGLE_NODE);
    assert_eq!(PROOF_TAG_MERKLE, ant_protocol::PROOF_TAG_MERKLE);
    assert_eq!(store_response_timeout_for_proof(&[], 99), STORE_RESPONSE_TIMEOUT_SECS);
}

#[test]
fn put_request_carries_the_chunk_and_its_address() {
    let bytes = put_request(42, vec![1, 2, 3], vec![9]).expect("an encodable request");
    let message = ChunkMessage::decode(&bytes).expect("a readable request");
    assert_eq!(message.request_id, 42);
    match message.body {
        ChunkMessageBody::PutRequest(request) => {
            assert_eq!(request.address, compute_address(&[1, 2, 3]));
            assert_eq!(request.content.to_vec(), vec![1, 2, 3]);
            assert_eq!(request.payment_proof, Some(vec![9]));
        }
        _ => panic!("a PUT request"),
    }
}

#[test]
fn get_request_carries_the_address() {
    let bytes = get_request(7, &[5u8; 32]).expect("an encodable request");
    let message = ChunkMessage::decode(&bytes).expect("a readable request");
    assert_eq!(message.request_id, 7);
    match message.body {
        ChunkMessageBody::GetRequest(request) => assert_eq!(request.address, [5u8; 32]),
        _ => panic!("a GET request"),
    }
}

#[test]
fn fetched_chunk_has_to_match_its_address() {
    let content = vec![1, 2, 3];
    let address = compute_address(&content);
    match interpret_get_reply(&address, GetReply::Success { address, content: content.clone() }) {
        Some(Ok(Some(chunk))) => {
            assert_eq!(chunk.address, address);
            assert_eq!(chunk.content, content);
        }
        _ => panic!("the chunk is intact"),
    }
    match interpret_get_reply(&address, GetReply::Success { address, content: vec![4] }) {
        Some(Err(Error::InvalidData(m))) => {
            assert!(m.starts_with("Invalid chunk content: expected hash "), "{m}")
        }
        _ => panic!("another content must be refused"),
    }
    match interpret_get_reply(&[0u8; 32], GetReply::Success { address, content }) {
        Some(Err(Error::InvalidData(m))) => {
            assert!(m.starts_with("Mismatched chunk address: expected 0000"), "{m}")
        }
        _ => panic!("another address must be refused"),
    }
    assert!(matches!(interpret_get_reply(&address, GetReply::NotFound), Some(Ok(None))));
    assert!(matches!(
        interpret_get_reply(&address, GetReply::Error("x".to_string())),
        Some(Err(Error::Protocol(_)))
    ));
    assert!(interpret_get_reply(&address, GetReply::Other).is_none());
}

#[test]
fn put_replies_are_interpreted() {
    let address = [3u8; 32];
    assert!(matches!(
        interpret_put_reply(&address, PutReply::Success { address }),
        Some(Ok(a)) if a == address
    ));
    assert!(matches!(
        interpret_put_reply(&address, PutReply::AlreadyExists { address }),
        Some(Ok(a)) if a == address
    ));
    match interpret_put_reply(&address, PutReply::PaymentRequired { message: "pay".to_string() }) {
        Some(Err(Error::Payment(m))) => assert_eq!(m, "Payment required: pay"),
        _ => panic!("a payment error"),
    }
    match interpret_put_reply(&address, PutReply::Error("full".to_string())) {
        Some(Err(Error::Protocol(m))) => {
            assert_eq!(m, format!("Remote PUT error for {}: full", "03".repeat(32)))
        }
        _ => panic!("a protocol error"),
    }
    assert!(interpret_put_reply(&address, PutReply::Other).is_none());
}

#[test]
fn cache_entries_are_tested_against_their_address() {
    let content = vec![8, 8];
    let address = compute_address(&content);
    assert!(matches!(check_cached(&address, Some(content)), CacheVerdict::Hit(_)));
    assert!(matches!(check_cached(&address, Some(vec![9])), CacheVerdict::Evict));
    assert!(matches!(check_cached(&address, None), CacheVerdict::Miss));
}

#[test]
fn sweep_counts_what_peers_answer() {
    let mut sweep = Sweep::new(7);
    for _ in 0..4 {
        assert!(matches!(sweep.on_answer(Ok(None)), SweepStep::Next));
    }
    assert!(matches!(
        sweep.on_answer(Err(Error::Timeout("t".to_string()))),
        SweepStep::Next
    ));
    assert!(matches!(
        sweep.on_answer(Err(Error::Network("n".to_string()))),
        SweepStep::Next
    ));
    let outcome = sweep.exhausted();
    assert_eq!((outcome.not_found, outcome.timeout, outcome.network_err), (4, 1, 1));
    assert!(matches!(after_first_sweep(outcome, 7), GetStep::NotFound));
    let mut second = Sweep::new(7);
    assert!(matches!(
        second.on_answer(Err(Error::InvalidData("x".to_string()))),
        SweepStep::Failed(Error::InvalidData(_))
    ));
    assert!(matches!(after_first_sweep(second.exhausted(), 7), GetStep::Retry));
    let chunk = DataChunk { address: [1u8; 32], content: vec![1] };
    match second.on_answer(Ok(Some(chunk))) {
        SweepStep::Done(outcome) => {
            assert!(after_retry_sweep(Ok(outcome)).is_some());
        }
        _ => panic!("the chunk was delivered"),
    }
    assert!(after_retry_sweep(Err(Error::Network("n".to_string()))).is_none());
}

#[test]
fn put_falls_back_to_further_peers() {
    let (mut put, first) = CloseGroupPut::new(6);
    assert_eq!(first, 4);
    assert_eq!(
        put.on_answer(&peer(1), Some(Error::Network("a".to_string()))),
        PutAction::SendTo(4)
    );
    assert_eq!(
        put.on_answer(&peer(2), Some(Error::Network("b".to_string()))),
        PutAction::SendTo(5)
    );
    for _ in 0..3 {
        assert_eq!(put.on_answer(&peer(3), None), PutAction::Wait);
    }
    assert_eq!(put.on_answer(&peer(4), None), PutAction::Stored);
}

#[test]
fn put_without_majority_lists_the_failures() {
    let (mut put, first) = CloseGroupPut::new(2);
    assert_eq!(first, 2);
    assert_eq!(put.on_answer(&peer(1), None), PutAction::Wait);
    assert_eq!(
        put.on_answer(&peer(2), Some(Error::Network("b".to_string()))),
        PutAction::Wait
    );
    match put.finish() {
        Error::InsufficientPeers(m) => assert_eq!(
            m,
            format!(
                "Stored on 1 peers, need 4. Failures: [{}: network error: b]",
                "02".repeat(32)
            )
        ),
        _ => panic!("too few peers"),
    }
}

#[test]
fn quotes_are_asked_for_the_content() {
    let content = vec![1u8, 2, 3];
    assert_eq!(chunk_put_request(&content), (compute_address(&content), 3));
    assert_eq!(chunk_put_request(&Vec::new()), (compute_address(&[]), 0));
    assert_ne!(chunk_put_request(&content).0, chunk_put_request(&vec![1u8, 2]).0);
}

#[test]
fn put_step_follows_the_payment() {
    let content = vec![4u8, 2];
    assert!(matches!(
        chunk_put_step(&content, Err(Error::AlreadyStored)),
        Ok(PutStep::AlreadyStored(address)) if address == compute_address(&content)
    ));
    assert!(matches!(
        chunk_put_step(&content, Err(Error::Payment("p".to_string()))),
        Err(Error::Payment(_))
    ));
    match chunk_put_step(&content, Ok((vec![1], Vec::new()))) {
        Ok(PutStep::Send { proof, peers }) => {
            assert_eq!(proof, vec![1]);
            assert!(peers.is_empty());
        }
        _ => panic!("a paid chunk is sent"),
    }
}

#[test]
fn transfer_errors_say_what_failed() {
    assert_eq!(put_send_error("x").message(), "network error: Failed to send PUT to peer: x");
    assert_eq!(
        put_timeout_error(10).message(),
        "operation timed out: Timeout waiting for store response after 10s"
    );
    assert_eq!(
        get_send_error(&peer(1), "x").message(),
        format!("network error: Failed to send GET to peer {}: x", "01".repeat(32))
    );
    assert_eq!(
        get_timeout_error(&[2u8; 32], &peer(1), 10).message(),
        format!(
            "operation timed out: Timeout waiting for chunk {} from {} after 10s",
            "02".repeat(32),
            "01".repeat(32)
        )
    );
    assert!(matches!(chunk_exists(Ok(None)), Ok(false)));
    assert!(matches!(
        chunk_exists(Ok(Some(DataChunk { address: [0u8; 32], content: Vec::new() }))),
        Ok(true)
    ));
}
