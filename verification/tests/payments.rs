use ant_core::collections::AddressMap;
use ant_core::data::client::batch::{
    batch_payment_entries, batch_payment_error, deduplicate, fan_out, finalize_batch_payment,
    prepare_chunk_payment, settle_batch, BatchUpload, PaidChunk, PaymentIntent, PreparedChunk,
    RoundEnd, StoreRounds, WavePreparation, WaveResult,
};
use ant_core::data::client::file::UploadEvent;
use ant_core::data::client::payment::{
    approval_error, payment_proof, plan_storage_payment, prepare_payment, require_wallet,
    storage_receipt, QuotePaymentInfo, SingleNodePayment,
};
use ant_core::data::client::quote::StoreQuote;
use ant_core::data::client::{Client, ClientConfig};
use ant_core::data::error::Error;
use ant_core::protocol::{PaymentQuote, CLOSE_GROUP_SIZE, PROOF_TAG_SINGLE_NODE};
use ant_core::uint256::U256;
use ant_core::xor::PeerId;
use ant_protocol::compute_address;

/// Position of the paid quote.
const MEDIAN_INDEX: usize = CLOSE_GROUP_SIZE / 2;

/// A prepared chunk that pays `median_amount` at the middle quote and nothing
/// at the others.
fn make_prepared_chunk(median_amount: u64) -> PreparedChunk {
    let quotes: Vec<QuotePaymentInfo> = (0..CLOSE_GROUP_SIZE)
        .map(|i| {
            let amount = if i == MEDIAN_INDEX { median_amount } else { 0 };
            QuotePaymentInfo {
                quote_hash: [i as u8 + 1; 32],
                rewards_address: [i as u8 + 10; 20],
                amount: U256::from_u128(amount as u128),
                price: U256::from_u128(amount as u128),
            }
        })
        .collect();

    PreparedChunk {
        content: vec![0xAA; 32],
        address: [0u8; 32],
        quoted_peers: Vec::new(),
        payment: SingleNodePayment { quotes },
        peer_quotes: Vec::new(),
    }
}

fn plain_quote(seed: u8, price: u128) -> PaymentQuote {
    PaymentQuote {
        content: [0u8; 32],
        timestamp_secs: 1_000,
        timestamp_nanos: 0,
        price: U256::from_u128(price),
        rewards_address: [seed; 20],
        pub_key: vec![seed],
        signature: Vec::new(),
        committed_key_count: 0,
        commitment_pin: None,
    }
}

fn store_quote(seed: u8, price: u128) -> StoreQuote {
    (
        PeerId::from_bytes([seed; 32]),
        Vec::new(),
        plain_quote(seed, price),
        U256::from_u128(price),
    )
}

fn paid_chunk(seed: u8) -> PaidChunk {
    PaidChunk {
        content: vec![seed],
        address: [seed; 32],
        quoted_peers: Vec::new(),
        proof_bytes: vec![PROOF_TAG_SINGLE_NODE],
    }
}

#[test]
fn payment_intent_from_single_chunk() {
    let chunk = make_prepared_chunk(300);
    let intent = PaymentIntent::from_prepared_chunks(&vec![chunk]);

    assert_eq!(intent.payments.len(), 1, "only non-zero amounts");
    assert_eq!(intent.total_amount, U256::from_u128(300));

    let (hash, addr, amt) = &intent.payments[0];
    assert_eq!(*hash, [MEDIAN_INDEX as u8 + 1; 32]);
    assert_eq!(*addr, [MEDIAN_INDEX as u8 + 10; 20]);
    assert_eq!(*amt, U256::from_u128(300));
}

#[test]
fn payment_intent_from_multiple_chunks() {
    let c1 = make_prepared_chunk(100);
    let c2 = make_prepared_chunk(250);
    let intent = PaymentIntent::from_prepared_chunks(&vec![c1, c2]);

    assert_eq!(intent.payments.len(), 2);
    assert_eq!(intent.total_amount, U256::from_u128(350));
}

#[test]
fn payment_intent_skips_all_zero_chunks() {
    let chunk = make_prepared_chunk(0);
    let intent = PaymentIntent::from_prepared_chunks(&vec![chunk]);

    assert!(intent.payments.is_empty());
    assert_eq!(intent.total_amount, U256::zero());
}

#[test]
fn payment_intent_empty_input() {
    let intent = PaymentIntent::from_prepared_chunks(&vec![]);
    assert!(intent.payments.is_empty());
    assert_eq!(intent.total_amount, U256::zero());
}

#[test]
fn finalize_batch_payment_builds_proofs() {
    let chunk = make_prepared_chunk(500);
    let quote_hash = chunk.payment.quotes[MEDIAN_INDEX].quote_hash;

    let mut tx_map = AddressMap::new();
    tx_map.insert(quote_hash, [0xBB; 32]);

    let paid = match finalize_batch_payment(vec![chunk], &tx_map) {
        Ok(paid) => paid,
        Err(e) => panic!("{}", e.message()),
    };

    assert_eq!(paid.len(), 1);
    assert!(!paid[0].proof_bytes.is_empty());
    assert_eq!(paid[0].address, [0u8; 32]);
}

#[test]
fn finalize_batch_payment_empty_input() {
    let paid = match finalize_batch_payment(vec![], &AddressMap::new()) {
        Ok(paid) => paid,
        Err(e) => panic!("{}", e.message()),
    };
    assert!(paid.is_empty());
}

#[test]
fn finalize_batch_payment_missing_tx_hash_errors() {
    let chunk = make_prepared_chunk(500);

    let result = finalize_batch_payment(vec![chunk], &AddressMap::new());
    assert!(result.is_err());
    let err = match result {
        Ok(_) => panic!("a payment without a transaction"),
        Err(e) => e.message(),
    };
    assert!(err.contains("Missing tx hash"), "got: {err}");
}

#[test]
fn finalize_batch_payment_multiple_chunks() {
    let c1 = make_prepared_chunk(100);
    let c2 = make_prepared_chunk(200);
    let q1 = c1.payment.quotes[MEDIAN_INDEX].quote_hash;
    let mut tx_map = AddressMap::new();
    // Both chunks carry the same quote hash, so one transaction covers both.
    tx_map.insert(q1, [0xCC; 32]);

    let paid = match finalize_batch_payment(vec![c1, c2], &tx_map) {
        Ok(paid) => paid,
        Err(e) => panic!("{}", e.message()),
    };
    assert_eq!(paid.len(), 2);
}

#[test]
fn paid_intent_is_finalized() {
    let mut c1 = make_prepared_chunk(100);
    c1.payment.quotes[MEDIAN_INDEX].quote_hash = [0x51; 32];
    let mut c2 = make_prepared_chunk(0);
    c2.payment.quotes[0].amount = U256::from_u128(7);
    let chunks = vec![c1, c2];

    let intent = PaymentIntent::from_prepared_chunks(&chunks);
    assert_eq!(intent.payments.len(), 2);
    assert_eq!(intent.payments[0].0, [0x51; 32]);
    assert_eq!(intent.payments[1].0, [1; 32]);
    assert_eq!(intent.total_amount, U256::from_u128(107));

    let mut tx_map = AddressMap::new();
    for entry in &intent.payments {
        tx_map.insert(entry.0, [0xDD; 32]);
    }
    match finalize_batch_payment(chunks, &tx_map) {
        Ok(paid) => assert_eq!(paid.len(), 2),
        Err(e) => panic!("{}", e.message()),
    }
}

#[test]
fn proof_of_payment_reads_back() {
    let mut chunk = make_prepared_chunk(7);
    chunk.peer_quotes = vec![([9u8; 32], plain_quote(9, 7))];
    let mut tx_map = AddressMap::new();
    tx_map.insert(chunk.payment.quotes[MEDIAN_INDEX].quote_hash, [0xDD; 32]);
    let client = Client { config: ClientConfig::default() };
    let paid = match client.finalize_chunk(chunk, &tx_map) {
        Ok(paid) => paid,
        Err(e) => panic!("{}", e.message()),
    };
    assert_eq!(paid.proof_bytes[0], PROOF_TAG_SINGLE_NODE);
    let (proof, hashes) =
        ant_protocol::deserialize_proof(&paid.proof_bytes).expect("a readable proof");
    assert_eq!(proof.peer_quotes.len(), 1);
    assert_eq!(proof.peer_quotes[0].1.rewards_address.into_array(), [9u8; 20]);
    assert_eq!(hashes.len(), 1);
    assert_eq!(hashes[0].0, [0xDD; 32]);
}

#[test]
fn payment_is_three_times_the_middle_price() {
    let quotes: Vec<StoreQuote> =
        [(1, 50), (2, 10), (3, 40), (4, 20), (5, 70), (6, 60), (7, 30)]
            .iter()
            .map(|(seed, price)| store_quote(*seed, *price))
            .collect();
    let prepared = match prepare_payment(quotes) {
        Ok(p) => p,
        Err(e) => panic!("{}", e.message()),
    };
    for (i, info) in prepared.payment.quotes.iter().enumerate() {
        assert_eq!(info.price, U256::from_u128(10 * (i as u128 + 1)));
        assert_eq!(info.amount.is_zero(), i != MEDIAN_INDEX);
    }
    let paid = &prepared.payment.quotes[MEDIAN_INDEX];
    assert_eq!(paid.rewards_address, [3u8; 20]);
    assert_eq!(paid.price, U256::from_u128(40));
    assert_eq!(paid.amount, U256::from_u128(120));
    let wire_hash = {
        let q = plain_quote(3, 40);
        let wire = ant_protocol::evm::PaymentQuote {
            content: xor_name::XorName(q.content),
            timestamp: std::time::SystemTime::UNIX_EPOCH + std::time::Duration::from_secs(1_000),
            price: ant_protocol::evm::Amount::from(40u64),
            rewards_address: ant_protocol::evm::RewardsAddress::new(q.rewards_address),
            pub_key: q.pub_key,
            signature: q.signature,
            committed_key_count: 0,
            commitment_pin: None,
        };
        wire.hash().0
    };
    assert_eq!(paid.quote_hash, wire_hash);
    assert_eq!(prepared.quoted_peers[0].0, PeerId::from_bytes([1u8; 32]));
    assert_eq!(prepared.peer_quotes[6].0, [7u8; 32]);
}

#[test]
fn payment_needs_one_close_group_of_quotes() {
    let six: Vec<StoreQuote> = (1..7).map(|s| store_quote(s, 1)).collect();
    match prepare_payment(six) {
        Err(Error::Payment(m)) => assert_eq!(
            m,
            "Failed to create payment: payment error: SingleNode payment requires exactly 7 quotes, got 6"
        ),
        _ => panic!("six quotes must not be payable"),
    }
    let three: Vec<StoreQuote> = (1..4).map(|s| store_quote(s, 1)).collect();
    match plan_storage_payment(three) {
        Err(Error::Payment(m)) => {
            assert_eq!(m, "Failed to select median quote issuer from witnessed quotes")
        }
        _ => panic!("three quotes have no median"),
    }
}

#[test]
fn storage_receipt_follows_the_wallet() {
    let quotes = || -> Vec<StoreQuote> { (1..8).map(|s| store_quote(s, 5)).collect() };
    let planned = match plan_storage_payment(quotes()) {
        Ok(p) => p,
        Err(e) => panic!("{}", e.message()),
    };
    match storage_receipt(planned, Ok(vec![[9u8; 32]])) {
        Ok((proof, peers)) => {
            assert_eq!(proof[0], PROOF_TAG_SINGLE_NODE);
            assert_eq!(peers.len(), CLOSE_GROUP_SIZE);
            let read = ant_protocol::deserialize_proof(&proof).expect("a proof");
            assert_eq!(read.1.len(), 1);
        }
        Err(e) => panic!("{}", e.message()),
    }
    let planned = match plan_storage_payment(quotes()) {
        Ok(p) => p,
        Err(e) => panic!("{}", e.message()),
    };
    assert!(matches!(
        storage_receipt(planned, Err("no funds".to_string())),
        Err(Error::Payment(m)) if m == "On-chain payment failed: no funds"
    ));
}

#[test]
fn triple_of_a_huge_price_is_refused() {
    let huge = U256::from_be_bytes(&[0xffu8; 32]);
    let quotes: Vec<(PaymentQuote, U256)> =
        (1..8).map(|s| (plain_quote(s, 0), huge)).collect();
    assert!(matches!(
        SingleNodePayment::from_quotes(quotes),
        Err(m) if m == "payment error: Price overflow when calculating 3x median"
    ));
}

#[test]
fn chunk_that_is_stored_needs_no_payment() {
    assert!(matches!(
        prepare_chunk_payment(vec![1, 2, 3], Err(Error::AlreadyStored)),
        Ok(None)
    ));
    assert!(matches!(
        prepare_chunk_payment(vec![1, 2, 3], Err(Error::Timeout("t".to_string()))),
        Err(Error::Timeout(_))
    ));
    let quotes: Vec<StoreQuote> = (1..8).map(|s| store_quote(s, 5)).collect();
    match prepare_chunk_payment(vec![1, 2, 3], Ok(quotes)) {
        Ok(Some(chunk)) => {
            assert_eq!(chunk.address, compute_address(&[1, 2, 3]));
            assert_eq!(chunk.content, vec![1, 2, 3]);
        }
        _ => panic!("seven quotes prepare a chunk"),
    }
}

#[test]
fn batch_transaction_lists_every_quote() {
    let (entries, cost) =
        batch_payment_entries(&vec![make_prepared_chunk(100), make_prepared_chunk(250)]);
    assert_eq!(entries.len(), 2 * CLOSE_GROUP_SIZE);
    assert_eq!(entries[MEDIAN_INDEX].2, U256::from_u128(100));
    assert_eq!(entries[0].2, U256::zero());
    assert_eq!(cost, "350");
}

#[test]
fn payment_errors_say_what_failed() {
    assert_eq!(batch_payment_error("x").message(), "payment error: Batch payment failed: x");
    assert_eq!(approval_error("x").message(), "payment error: Token approval failed: x");
    assert!(require_wallet(true).is_ok());
    assert!(matches!(require_wallet(false), Err(Error::Payment(_))));
    assert!(payment_proof(Vec::new(), Vec::new()).is_ok());
}

#[test]
fn repeated_chunks_are_uploaded_once() {
    let (unique, repeated) =
        deduplicate(vec![vec![1], vec![2], vec![1], vec![3], vec![2], vec![1]]);
    assert_eq!(unique, vec![vec![1], vec![2], vec![3]]);
    assert_eq!(
        repeated,
        vec![compute_address(&[1]), compute_address(&[2]), compute_address(&[1])]
    );
    assert_eq!(unique.len() + repeated.len(), 6);
}

#[test]
fn fan_out_is_bounded_by_limit_and_work() {
    assert_eq!(fan_out(8, 3), 3);
    assert_eq!(fan_out(2, 3), 2);
    assert_eq!(fan_out(8, 0), 1);
}

/// A quoted wave of which `due` chunks are to be paid for.
fn quoted_wave(due: usize, already_stored: Vec<[u8; 32]>) -> WavePreparation {
    WavePreparation {
        prepared: (0..due).map(|_| make_prepared_chunk(1)).collect(),
        quoted: due + already_stored.len(),
        already_stored,
        quoted_offset: 0,
        file_total: 100,
    }
}

#[test]
fn batch_upload_pairs_quoting_with_storing() {
    let chunks: Vec<Vec<u8>> = (0..65u8).map(|b| vec![b]).chain([vec![0u8]]).collect();
    let (mut batch, events) = BatchUpload::new(chunks, 10, 100);
    assert_eq!(events, vec![UploadEvent::ChunkStored { stored: 11, total: 100 }]);

    let first = match batch.next_wave() {
        Some(job) => job,
        None => panic!("a first wave"),
    };
    assert_eq!(first.chunks.len(), 64);
    assert_eq!(first.quoted_offset, 10);
    assert!(first.store.is_none());
    let (events, due) = batch.on_quoted(quoted_wave(62, vec![[1u8; 32], [2u8; 32]]));
    assert_eq!(events, vec![UploadEvent::ChunkStored { stored: 13, total: 100 }; 2]);
    assert_eq!(due.map(|d| d.len()), Some(62));
    batch.on_paid((0..62).map(paid_chunk).collect(), "1000", 7);

    let second = match batch.next_wave() {
        Some(job) => job,
        None => panic!("a second wave"),
    };
    assert_eq!(second.chunks, vec![vec![64u8]]);
    assert_eq!(second.quoted_offset, 74);
    assert_eq!(second.store.map(|s| s.len()), Some(62));
    assert_eq!(second.store_offset, 13);
    assert!(batch
        .on_stored(WaveResult { stored: vec![[6u8; 32]; 62], failed: Vec::new() }, false)
        .is_ok());
    let (_, due) = batch.on_quoted(quoted_wave(1, Vec::new()));
    assert!(due.is_some());
    batch.on_paid(vec![paid_chunk(6)], "not a number", 8);
    assert!(batch.next_wave().is_none());
    assert_eq!(batch.take_last().map(|(paid, offset)| (paid.len(), offset)), Some((1, 75)));
    assert!(batch
        .on_stored(WaveResult { stored: vec![[7u8; 32]], failed: Vec::new() }, true)
        .is_ok());
    let (addresses, cost, gas) = batch.finish();
    assert_eq!(addresses.len(), 66);
    assert_eq!(cost, "1000");
    assert_eq!(gas, 15);
}

#[test]
fn finished_batch_names_every_chunk_as_often_as_given() {
    let chunks = vec![vec![1], vec![2], vec![1]];
    let mut expected: Vec<[u8; 32]> = chunks.iter().map(|c| compute_address(c)).collect();
    let (mut upload, events) = BatchUpload::new(chunks, 0, 3);
    assert_eq!(events.len(), 1);
    let job = match upload.next_wave() {
        Some(job) => job,
        None => panic!("two chunks are left"),
    };
    let mut wave = WavePreparation::new(job.quoted_offset, 3);
    for chunk in &job.chunks {
        assert!(wave.on_quoted(compute_address(chunk), Ok(None)).is_ok());
    }
    let (found, due) = upload.on_quoted(wave);
    assert_eq!(found.len(), 2);
    assert!(due.is_none());
    assert!(upload.next_wave().is_none());
    assert!(upload.take_last().is_none());
    let (mut addresses, _, _) = upload.finish();
    addresses.sort();
    expected.sort();
    assert_eq!(addresses, expected);
}

#[test]
fn stored_wave_needs_no_payment() {
    let (mut batch, _) = BatchUpload::new(vec![vec![1], vec![2]], 0, 2);
    assert!(batch.next_wave().is_some());
    let (events, due) = batch.on_quoted(quoted_wave(0, vec![[1u8; 32], [2u8; 32]]));
    assert_eq!(events.len(), 2);
    assert!(due.is_none());
    assert!(batch.next_wave().is_none());
    assert!(batch.take_last().is_none());
    let (addresses, cost, gas) = batch.finish();
    assert_eq!(addresses, vec![[1u8; 32], [2u8; 32]]);
    assert_eq!(cost, "0");
    assert_eq!(gas, 0);
}

#[test]
fn failed_wave_reports_a_partial_upload() {
    let (mut batch, _) = BatchUpload::new(vec![vec![1], vec![2]], 3, 9);
    assert!(batch.next_wave().is_some());
    batch.on_quoted(quoted_wave(2, Vec::new()));
    batch.on_paid(vec![paid_chunk(1), paid_chunk(2)], "0", 0);
    assert!(batch.next_wave().is_none());
    assert!(batch.take_last().is_some());
    let result = batch.on_stored(
        WaveResult {
            stored: vec![[1u8; 32]],
            failed: vec![([2u8; 32], "no peers".to_string())],
        },
        true,
    );
    match result {
        Err(Error::PartialUpload { stored, stored_count, failed, failed_count, total_chunks, reason }) => {
            assert_eq!(stored, vec![[1u8; 32]]);
            assert_eq!(stored_count, 4);
            assert_eq!(failed, vec![([2u8; 32], "no peers".to_string())]);
            assert_eq!(failed_count, 1);
            assert_eq!(total_chunks, 9);
            assert_eq!(reason, "final wave store failed after retries");
        }
        _ => panic!("a failed chunk must end the upload"),
    }
}

#[test]
fn batch_settles_with_the_receipts() {
    let prepared = vec![make_prepared_chunk(100)];
    let (entries, cost) = batch_payment_entries(&prepared);
    let mut receipts = AddressMap::new();
    for entry in &entries {
        receipts.insert(entry.0, [8u8; 32]);
    }
    match settle_batch(prepared, cost, Ok((receipts, 21))) {
        Ok((paid, cost, gas)) => {
            assert_eq!(paid.len(), 1);
            assert_eq!(paid[0].proof_bytes[0], PROOF_TAG_SINGLE_NODE);
            assert_eq!(cost, "100");
            assert_eq!(gas, 21);
        }
        Err(e) => panic!("{}", e.message()),
    }
    assert!(matches!(
        settle_batch(Vec::new(), "0".to_string(), Err("no funds".to_string())),
        Err(Error::Payment(m)) if m == "Batch payment failed: no funds"
    ));
}

#[test]
fn wave_preparation_counts_quotes() {
    let mut wave = WavePreparation::new(5, 20);
    assert!(matches!(
        wave.on_quoted([1u8; 32], Ok(None)),
        Ok(UploadEvent::ChunkQuoted { quoted: 6, total: 20 })
    ));
    assert!(matches!(
        wave.on_quoted([2u8; 32], Ok(Some(make_prepared_chunk(1)))),
        Ok(UploadEvent::ChunkQuoted { quoted: 7, total: 20 })
    ));
    assert!(wave.on_quoted([3u8; 32], Err(Error::Network("down".to_string()))).is_err());
    assert_eq!(wave.already_stored, vec![[1u8; 32]]);
    assert_eq!(wave.prepared.len(), 1);
    assert_eq!(wave.quoted, 2);
}

#[test]
fn failed_chunks_are_sent_again_with_growing_delays() {
    let mut rounds = StoreRounds::new(&vec![paid_chunk(1), paid_chunk(2)], 4, 10);
    assert_eq!(
        rounds.on_result(paid_chunk(1), Ok([1u8; 32])),
        Some(UploadEvent::ChunkStored { stored: 5, total: 10 })
    );
    assert_eq!(rounds.on_result(paid_chunk(2), Err(Error::Network("down".to_string()))), None);
    for expected in [500u64, 1_000, 2_000] {
        match rounds.end_round() {
            RoundEnd::Retry { chunks, delay_ms } => {
                assert_eq!(delay_ms, expected);
                assert_eq!(chunks.len(), 1);
                for chunk in chunks {
                    rounds.on_result(chunk, Err(Error::Network("down".to_string())));
                }
            }
            RoundEnd::Done(_) => panic!("a retry was due"),
        }
    }
    match rounds.end_round() {
        RoundEnd::Done(result) => {
            assert_eq!(result.stored, vec![[1u8; 32]]);
            assert_eq!(result.failed, vec![([2u8; 32], "network error: down".to_string())]);
        }
        RoundEnd::Retry { .. } => panic!("retries are used up"),
    }
}
