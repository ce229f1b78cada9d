use ant_core::collections::{AddressMap, AddressSet};
use ant_core::data::client::quote::{
    classify_decoded_quote, classify_quote_response, drop_quotes_with_bad_bindings,
    fault_tolerant_quote_query_count, quote_binding_is_valid, single_node_quote_query_count,
    witnessed_close_group_diagnostics, witnessed_close_group_quorum,
    witnessed_quote_peers_or_error, ResponderView, StoreQuote, WitnessedCloseGroup,
    FAULT_TOLERANT_QUOTE_QUERY_MULTIPLIER, ML_DSA_PUB_KEY_LEN,
};
use ant_core::data::client::selection::{
    median_issuer_voter_support, median_paid_quote_issuer, select_closest_quotes,
    select_witnessed_median_voter_quotes, sort_quotes_by_distance,
};
use ant_core::data::error::Error;
use ant_core::protocol::{DhtNode, PaymentQuote, CLOSE_GROUP_MAJORITY, CLOSE_GROUP_SIZE};
use ant_core::uint256::{Amount, U256};
use ant_core::xor::{peer_xor_distance, PeerId};
use ant_protocol::compute_address;
use ant_protocol::pqc::ops::{MlDsaOperations, MlDsaPublicKey};
use ant_protocol::transport::{AddressType, DHTNode, MlDsa65, MultiAddr};

/// A real ML-DSA-65 public key and the peer that it belongs to.
struct Keypair {
    peer_id: PeerId,
    pub_key_bytes: Vec<u8>,
}

fn gen_keypair() -> Keypair {
    let ml_dsa = MlDsa65::new();
    let (pub_key, _secret) = ml_dsa.generate_keypair().expect("ML-DSA-65 keygen");
    let pub_key_bytes = pub_key.as_bytes().to_vec();
    let peer_id = PeerId::from_bytes(compute_address(&pub_key_bytes));
    Keypair { peer_id, pub_key_bytes }
}

fn quote_with(pub_key: Vec<u8>, price: Amount) -> PaymentQuote {
    PaymentQuote {
        content: [0u8; 32],
        timestamp_secs: 0,
        timestamp_nanos: 0,
        price,
        rewards_address: [0u8; 20],
        pub_key,
        signature: Vec::new(),
        committed_key_count: 0,
        commitment_pin: None,
    }
}

/// A quote whose key hashes to the identity of its peer.
fn good_quote_real() -> StoreQuote {
    let kp = gen_keypair();
    (kp.peer_id, Vec::new(), quote_with(kp.pub_key_bytes, U256::zero()), U256::zero())
}

/// A quote of one peer that carries the key of another.
fn bad_quote_real() -> StoreQuote {
    let claimed = gen_keypair();
    let signing = gen_keypair();
    assert_ne!(claimed.pub_key_bytes, signing.pub_key_bytes);
    assert_ne!(claimed.peer_id.as_bytes(), signing.peer_id.as_bytes());
    (
        claimed.peer_id,
        Vec::new(),
        quote_with(signing.pub_key_bytes, U256::zero()),
        U256::zero(),
    )
}

fn record_of(seed: u8, addresses: Vec<(MultiAddr, AddressType)>) -> DhtNode {
    let (addresses, address_types) = addresses.into_iter().unzip();
    DhtNode {
        record: DHTNode {
            peer_id: ant_protocol::transport::PeerId::from_bytes([seed; 32]),
            addresses,
            address_types,
            distance: None,
            reliability: 1.0,
            address_authority: None,
        },
    }
}

fn witnessed_test_node(seed: u8) -> DhtNode {
    record_of(seed, Vec::new())
}

fn witnessed_test_nodes(seeds: &[u8]) -> Vec<DhtNode> {
    seeds.iter().copied().map(witnessed_test_node).collect()
}

fn witnessed_test_view(responder: u8, closest: &[u8]) -> ResponderView {
    ResponderView {
        responder: PeerId::from_bytes([responder; 32]),
        closest: witnessed_test_nodes(closest),
    }
}

fn synthetic_peer(seed: u8) -> PeerId {
    PeerId::from_bytes([seed; 32])
}

fn synthetic_quote(seed: u8, price: u64) -> StoreQuote {
    let amount = U256::from_u128(price as u128);
    (synthetic_peer(seed), Vec::new(), quote_with(Vec::new(), amount), amount)
}

fn synthetic_voters(seeds: &[u8]) -> AddressSet {
    let mut voters = AddressSet::new();
    for seed in seeds {
        voters.insert([*seed; 32]);
    }
    voters
}

fn quote_peer_seeds(quotes: &[StoreQuote]) -> Vec<u8> {
    quotes.iter().map(|(peer_id, _, _, _)| peer_id.as_bytes()[0]).collect()
}

/// What a storer asks of a quote: the key parses as ML-DSA-65 and hashes to
/// the peer's identity.
fn storer_binding_would_accept(peer_id: &PeerId, quote: &PaymentQuote) -> bool {
    if MlDsaPublicKey::from_bytes(&quote.pub_key).is_err() {
        return false;
    }
    compute_address(&quote.pub_key) == *peer_id.as_bytes()
}

/// The wire form of a quote.
fn serialize_quote(quote: &PaymentQuote) -> Vec<u8> {
    let wire = ant_protocol::evm::PaymentQuote {
        content: xor_name::XorName(quote.content),
        timestamp: std::time::SystemTime::UNIX_EPOCH
            + std::time::Duration::new(quote.timestamp_secs, quote.timestamp_nanos),
        price: ant_protocol::evm::Amount::from_be_bytes(quote.price.to_be_bytes()),
        rewards_address: ant_protocol::evm::RewardsAddress::new(quote.rewards_address),
        pub_key: quote.pub_key.clone(),
        signature: quote.signature.clone(),
        committed_key_count: quote.committed_key_count,
        commitment_pin: quote.commitment_pin,
    };
    rmp_serde::to_vec(&wire).expect("serialize quote")
}

#[test]
fn binding_accepts_real_self_consistent_keypair() {
    let (peer_id, _, quote, _) = good_quote_real();
    assert!(quote_binding_is_valid(&peer_id, &quote));
    assert!(storer_binding_would_accept(&peer_id, &quote));
}

#[test]
fn binding_rejects_real_crossed_keypair() {
    let (peer_id, _, quote, _) = bad_quote_real();
    assert!(!quote_binding_is_valid(&peer_id, &quote));
    assert!(!storer_binding_would_accept(&peer_id, &quote));
}

#[test]
fn binding_rejects_oversize_pubkey() {
    let oversized = vec![0u8; ML_DSA_PUB_KEY_LEN + 1];
    let peer_id = PeerId::from_bytes(compute_address(&oversized));
    let quote = quote_with(oversized, U256::zero());
    assert_eq!(compute_address(&quote.pub_key), *peer_id.as_bytes());
    assert!(
        !quote_binding_is_valid(&peer_id, &quote),
        "predicate must reject oversize pub_key even when BLAKE3 happens to match"
    );
    assert!(!storer_binding_would_accept(&peer_id, &quote));
}

#[test]
fn binding_rejects_undersize_pubkey() {
    let undersized = vec![0u8; ML_DSA_PUB_KEY_LEN - 1];
    let peer_id = PeerId::from_bytes(compute_address(&undersized));
    let quote = quote_with(undersized, U256::zero());
    assert!(!quote_binding_is_valid(&peer_id, &quote));
    assert!(!storer_binding_would_accept(&peer_id, &quote));
}

#[test]
fn quote_query_counts_keep_single_node_close_group_only() {
    assert_eq!(single_node_quote_query_count(), CLOSE_GROUP_SIZE);
    assert_eq!(witnessed_close_group_quorum(), 5);
    assert_eq!(
        fault_tolerant_quote_query_count(),
        CLOSE_GROUP_SIZE * FAULT_TOLERANT_QUOTE_QUERY_MULTIPLIER
    );
    assert!(fault_tolerant_quote_query_count() > single_node_quote_query_count());
}

#[test]
fn records_of_one_peer_are_merged() {
    let address = [0u8; 32];
    let far: MultiAddr = "/ip4/203.0.113.1/udp/9000/quic".parse().expect("an address");
    let near: MultiAddr = "/ip4/203.0.113.2/udp/9000/quic".parse().expect("an address");
    let witnessed = WitnessedCloseGroup {
        target: address,
        k: CLOSE_GROUP_SIZE,
        initial_closest: vec![record_of(1, vec![(far.clone(), AddressType::Unverified)])],
        responder_views: vec![ResponderView {
            responder: PeerId::from_bytes([1u8; 32]),
            closest: vec![record_of(1, vec![(near.clone(), AddressType::Relay)])],
        }],
    };
    match witnessed_quote_peers_or_error(&address, &witnessed, 1, 1) {
        Ok(peers) => {
            assert_eq!(peers.len(), 1);
            assert_eq!(peers[0].addrs, vec![near, far]);
        }
        Err(e) => panic!("{}", e.message()),
    }
}

#[test]
fn witnessed_quote_peers_error_is_typed_and_pre_payment_when_consensus_is_short() {
    let address = [0u8; 32];
    let responder_views = (1..=7)
        .map(|responder| witnessed_test_view(responder, &[1, 2, 3, 4]))
        .collect();
    let witnessed = WitnessedCloseGroup {
        target: address,
        k: CLOSE_GROUP_SIZE,
        initial_closest: witnessed_test_nodes(&[1, 2, 3, 4, 5, 6, 7]),
        responder_views,
    };

    let result = witnessed_quote_peers_or_error(
        &address,
        &witnessed,
        CLOSE_GROUP_SIZE,
        witnessed_close_group_quorum(),
    );

    match result {
        Err(Error::InsufficientPeers(message)) => {
            assert!(message.contains("before payment"));
            assert!(message.contains("vote_counts"));
            assert!(message.contains("quorum"));
        }
        Err(other) => panic!("expected typed InsufficientPeers error, got {other:?}"),
        Ok(_) => panic!("short witnessed consensus must fail before payment"),
    }
}

#[test]
fn witnessed_quote_peers_include_quorum_fallback_candidates() {
    const EXTRA_QUORUM_CANDIDATES: usize = 1;

    let address = [0u8; 32];
    let witnessed = WitnessedCloseGroup {
        target: address,
        k: CLOSE_GROUP_SIZE,
        initial_closest: witnessed_test_nodes(&[1, 2, 3, 4, 5, 6, 7]),
        responder_views: vec![
            witnessed_test_view(1, &[1, 2, 3, 4, 5, 6, 7]),
            witnessed_test_view(2, &[1, 2, 3, 4, 5, 6, 8]),
            witnessed_test_view(3, &[1, 2, 3, 4, 5, 7, 8]),
            witnessed_test_view(4, &[1, 2, 3, 4, 6, 7, 8]),
            witnessed_test_view(5, &[1, 2, 3, 5, 6, 7, 8]),
            witnessed_test_view(6, &[1, 2, 4, 5, 6, 7, 8]),
            witnessed_test_view(7, &[1, 3, 4, 5, 6, 7, 8]),
        ],
    };

    let peers = match witnessed_quote_peers_or_error(
        &address,
        &witnessed,
        CLOSE_GROUP_SIZE,
        witnessed_close_group_quorum(),
    ) {
        Ok(peers) => peers,
        Err(e) => panic!("fallback candidates should be retained for quote collection: {e:?}"),
    };

    assert_eq!(peers.len(), CLOSE_GROUP_SIZE + EXTRA_QUORUM_CANDIDATES);
    assert_eq!(
        peers.iter().map(|peer| peer.peer_id.as_bytes()[0]).collect::<Vec<_>>(),
        vec![1, 2, 3, 4, 5, 6, 7, 8]
    );
}

#[test]
fn witnessed_quote_selection_keeps_closest_set_with_median_voter_majority() {
    const MEDIAN_ISSUER_SEED: u8 = 7;
    const FAR_SUPPORTING_VOTER_SEED: u8 = 20;
    const UNSUCCESSFUL_SUPPORTING_VOTER_SEED: u8 = 21;

    let address = [0u8; 32];
    let quotes = vec![
        synthetic_quote(1, 10),
        synthetic_quote(2, 20),
        synthetic_quote(3, 30),
        synthetic_quote(6, 50),
        synthetic_quote(MEDIAN_ISSUER_SEED, 40),
        synthetic_quote(8, 60),
        synthetic_quote(9, 70),
        synthetic_quote(FAR_SUPPORTING_VOTER_SEED, 80),
    ];
    let mut voters_by_peer = AddressMap::new();
    voters_by_peer.insert(
        [MEDIAN_ISSUER_SEED; 32],
        synthetic_voters(&[
            1,
            2,
            3,
            FAR_SUPPORTING_VOTER_SEED,
            UNSUCCESSFUL_SUPPORTING_VOTER_SEED,
        ]),
    );

    let selected = match select_witnessed_median_voter_quotes(quotes, &address, &voters_by_peer) {
        Some(selected) => selected,
        None => panic!("a supported close-group quote set should be selected"),
    };

    assert_eq!(quote_peer_seeds(&selected), vec![1, 2, 3, 6, 7, 8, 20]);
    let (median_peer_id, _) =
        median_paid_quote_issuer(&selected).expect("selected quotes have a median");
    assert_eq!(median_peer_id, synthetic_peer(MEDIAN_ISSUER_SEED));
    let voters = voters_by_peer.get(median_peer_id.as_bytes()).expect("voters of the median");
    let support = selected
        .iter()
        .filter(|(peer_id, _, _, _)| voters.contains(peer_id.as_bytes()))
        .count();
    assert_eq!(support, CLOSE_GROUP_MAJORITY);
}

#[test]
fn witnessed_quote_selection_rejects_median_without_selected_voter_majority() {
    const MEDIAN_ISSUER_SEED: u8 = 7;

    let address = [0u8; 32];
    let quotes = vec![
        synthetic_quote(1, 10),
        synthetic_quote(2, 20),
        synthetic_quote(3, 30),
        synthetic_quote(6, 50),
        synthetic_quote(MEDIAN_ISSUER_SEED, 40),
        synthetic_quote(8, 60),
        synthetic_quote(9, 70),
        synthetic_quote(10, 80),
    ];
    let mut voters_by_peer = AddressMap::new();
    voters_by_peer.insert([MEDIAN_ISSUER_SEED; 32], synthetic_voters(&[1, 2, 3, 20, 21]));

    let selected = select_witnessed_median_voter_quotes(quotes, &address, &voters_by_peer);

    assert!(
        selected.is_none(),
        "the selector must not return a paid quote set when fewer than \
         CLOSE_GROUP_MAJORITY supporting witness peers produced usable quotes"
    );
}

#[test]
fn filter_drops_only_bad_bindings_and_leaves_storer_acceptable_quotes() {
    let mut quotes = vec![
        good_quote_real(),
        bad_quote_real(),
        good_quote_real(),
        bad_quote_real(),
        good_quote_real(),
    ];

    let dropped = drop_quotes_with_bad_bindings(&mut quotes);

    assert_eq!(dropped, 2, "two crossed-key quotes must be dropped");
    assert_eq!(quotes.len(), 3, "three real-key quotes must remain");
    for (peer_id, _, quote, _) in &quotes {
        assert!(
            storer_binding_would_accept(peer_id, quote),
            "every retained quote must satisfy the full storer-side rule"
        );
    }
}

#[test]
fn filter_is_noop_when_all_quotes_are_storer_acceptable() {
    let mut quotes: Vec<_> = (0..5).map(|_| good_quote_real()).collect();
    let before = quotes.len();
    let dropped = drop_quotes_with_bad_bindings(&mut quotes);
    assert_eq!(dropped, 0);
    assert_eq!(quotes.len(), before);
    for (peer_id, _, quote, _) in &quotes {
        assert!(storer_binding_would_accept(peer_id, quote));
    }
}

#[test]
fn filter_drops_all_when_every_responder_is_bad() {
    let mut quotes: Vec<_> = (0..fault_tolerant_quote_query_count())
        .map(|_| bad_quote_real())
        .collect();
    let dropped = drop_quotes_with_bad_bindings(&mut quotes);
    assert_eq!(dropped, fault_tolerant_quote_query_count());
    assert!(quotes.is_empty());
}

#[test]
fn filter_preserves_quote_payload_byte_for_byte() {
    let (peer_id, addrs, original_quote, amount) = good_quote_real();
    let mut quotes = vec![(peer_id, addrs.clone(), original_quote.clone(), amount)];
    let _ = drop_quotes_with_bad_bindings(&mut quotes);

    let (kept_peer, kept_addrs, kept_quote, kept_amount) =
        quotes.pop().expect("the good quote must survive filtering");
    assert_eq!(kept_peer.as_bytes(), peer_id.as_bytes());
    assert_eq!(kept_addrs.len(), addrs.len());
    assert_eq!(kept_amount, amount);
    assert_eq!(kept_quote.pub_key, original_quote.pub_key);
    assert_eq!(kept_quote.signature, original_quote.signature);
    assert_eq!(kept_quote.content, original_quote.content);
    assert_eq!(kept_quote.timestamp_secs, original_quote.timestamp_secs);
    assert_eq!(kept_quote.timestamp_nanos, original_quote.timestamp_nanos);
    assert_eq!(kept_quote.price, original_quote.price);
    assert_eq!(kept_quote.rewards_address, original_quote.rewards_address);
}

#[test]
fn repro_apr_30_storer_would_have_rejected_pre_filter_and_accepts_post_filter() {
    let over_query_count = fault_tolerant_quote_query_count();
    let mut quotes: Vec<_> = (0..over_query_count - 1).map(|_| good_quote_real()).collect();
    quotes.insert(over_query_count / 2, bad_quote_real());
    assert_eq!(quotes.len(), over_query_count);

    let storer_would_reject_count = quotes
        .iter()
        .filter(|(p, _, q, _)| !storer_binding_would_accept(p, q))
        .count();
    assert_eq!(
        storer_would_reject_count, 1,
        "exactly one quote (the crossed-key one) must be rejected by the storer rule"
    );

    let dropped = drop_quotes_with_bad_bindings(&mut quotes);
    assert_eq!(dropped, 1, "exactly the crossed-key quote must be filtered");

    for (peer_id, _, quote, _) in &quotes {
        assert!(
            storer_binding_would_accept(peer_id, quote),
            "every post-filter quote must be accepted by the storer rule"
        );
    }

    assert!(
        quotes.len() >= CLOSE_GROUP_SIZE,
        "after filtering, at least CLOSE_GROUP_SIZE good quotes must remain \
         so a fault-tolerant probe can still return a full close group"
    );
}

#[test]
fn filter_leaves_short_set_when_too_many_bad_peers() {
    let good_count = CLOSE_GROUP_SIZE - 1;
    let bad_count = fault_tolerant_quote_query_count() - good_count;
    let mut quotes: Vec<_> = std::iter::repeat_with(bad_quote_real)
        .take(bad_count)
        .chain(std::iter::repeat_with(good_quote_real).take(good_count))
        .collect();

    let dropped = drop_quotes_with_bad_bindings(&mut quotes);
    assert_eq!(dropped, bad_count);
    assert!(
        quotes.len() < CLOSE_GROUP_SIZE,
        "this is the precondition for InsufficientPeers downstream"
    );
    for (peer_id, _, quote, _) in &quotes {
        assert!(storer_binding_would_accept(peer_id, quote));
    }
}

#[test]
fn classifier_accepts_real_self_consistent_quote() {
    let (peer_id, _, quote, _) = good_quote_real();
    let bytes = serialize_quote(&quote);
    let result = classify_quote_response(&peer_id, &bytes, false);
    match result {
        Ok((q, price)) => {
            assert_eq!(q.pub_key, quote.pub_key);
            assert_eq!(price, quote.price);
        }
        Err(e) => panic!("expected Ok, got {}", e.message()),
    }
}

#[test]
fn classifier_rejects_crossed_keypair_with_typed_error() {
    let (peer_id, _, quote, _) = bad_quote_real();
    let bytes = serialize_quote(&quote);
    let result = classify_quote_response(&peer_id, &bytes, false);
    match result {
        Err(Error::BadQuoteBinding { peer_id: pid, detail }) => {
            assert_eq!(pid, peer_id.to_hex());
            assert!(
                detail.contains("BLAKE3(pub_key)="),
                "diagnostic detail must include the derived peer id: {detail}"
            );
        }
        other => panic!("expected BadQuoteBinding for crossed-key quote, got {other:?}"),
    }
}

#[test]
fn classifier_rejects_already_stored_vote_from_bad_binding_peer() {
    let (peer_id, _, quote, _) = bad_quote_real();
    let bytes = serialize_quote(&quote);
    let result = classify_quote_response(&peer_id, &bytes, true);
    assert!(
        matches!(result, Err(Error::BadQuoteBinding { .. })),
        "crossed-key peer must be classified BadQuoteBinding even when \
         voting already_stored=true; got {result:?}"
    );
}

#[test]
fn classifier_honours_already_stored_vote_from_good_binding_peer() {
    let (peer_id, _, quote, _) = good_quote_real();
    let bytes = serialize_quote(&quote);
    let result = classify_quote_response(&peer_id, &bytes, true);
    assert!(
        matches!(result, Err(Error::AlreadyStored)),
        "honest peer's already_stored vote must be honoured; got {result:?}"
    );
}

#[test]
fn classifier_returns_serialization_error_on_bad_bytes() {
    let (peer_id, _, _, _) = good_quote_real();
    let garbage = b"this is not a valid msgpack PaymentQuote".to_vec();
    let result = classify_quote_response(&peer_id, &garbage, false);
    assert!(
        matches!(result, Err(Error::Serialization(_))),
        "garbage bytes must produce a Serialization error; got {result:?}"
    );
}

#[test]
fn classifier_verdict_matches_storer_binding_spec_for_mixed_responders() {
    let mut responders: Vec<(PeerId, PaymentQuote)> = (0..12)
        .map(|_| {
            let (p, _, q, _) = good_quote_real();
            (p, q)
        })
        .collect();
    for _ in 0..4 {
        let (p, _, q, _) = bad_quote_real();
        responders.push((p, q));
    }

    for (peer_id, quote) in &responders {
        let bytes = serialize_quote(quote);
        let storer_verdict = storer_binding_would_accept(peer_id, quote);
        let classifier_verdict = classify_quote_response(peer_id, &bytes, false).is_ok();
        assert_eq!(
            classifier_verdict,
            storer_verdict,
            "classifier and storer rule must agree on every responder \
             (peer_id={}, storer={storer_verdict}, classifier={classifier_verdict})",
            peer_id.to_hex()
        );
    }
}

#[test]
fn decoded_quote_keeps_every_field() {
    let kp = gen_keypair();
    let quote = PaymentQuote {
        content: [9u8; 32],
        timestamp_secs: 1_700_000_000,
        timestamp_nanos: 25,
        price: U256::from_u128(77),
        rewards_address: [3u8; 20],
        pub_key: kp.pub_key_bytes,
        signature: vec![1, 2, 3],
        committed_key_count: 4,
        commitment_pin: Some([5u8; 32]),
    };
    let (read, price) = classify_quote_response(&kp.peer_id, &serialize_quote(&quote), false)
        .expect("a bound quote");
    assert_eq!(read.content, quote.content);
    assert_eq!(read.timestamp_secs, quote.timestamp_secs);
    assert_eq!(read.timestamp_nanos, quote.timestamp_nanos);
    assert_eq!(read.rewards_address, quote.rewards_address);
    assert_eq!(read.signature, quote.signature);
    assert_eq!(read.committed_key_count, 4);
    assert_eq!(read.commitment_pin, Some([5u8; 32]));
    assert_eq!(price, U256::from_u128(77));
}

#[test]
fn classifying_a_decoded_quote_needs_no_bytes() {
    let (peer_id, _, quote, _) = good_quote_real();
    assert!(classify_decoded_quote(&peer_id, quote.clone(), false).is_ok());
    assert!(matches!(
        classify_decoded_quote(&peer_id, quote, true),
        Err(Error::AlreadyStored)
    ));
}

#[test]
fn quotes_are_ordered_by_distance_and_cut_to_the_close_group() {
    let address = [0u8; 32];
    let mut quotes: Vec<StoreQuote> = [9u8, 3, 7, 1, 8, 2, 6, 5, 4]
        .iter()
        .map(|seed| synthetic_quote(*seed, 10 * (*seed as u64)))
        .collect();
    sort_quotes_by_distance(&mut quotes, &address);
    assert_eq!(quote_peer_seeds(&quotes), vec![1, 2, 3, 4, 5, 6, 7, 8, 9]);
    let chosen = select_closest_quotes(quotes, &address);
    assert_eq!(quote_peer_seeds(&chosen), vec![1, 2, 3, 4, 5, 6, 7]);
    let (issuer, price) = median_paid_quote_issuer(&chosen).expect("a full group has a median");
    assert_eq!(issuer, synthetic_peer(4));
    assert_eq!(price, U256::from_u128(40));
}

#[test]
fn xor_distance_is_zero_only_to_oneself() {
    let peer = synthetic_peer(0b1010_0101);
    assert_eq!(peer_xor_distance(&peer, &[0b1010_0101; 32]), [0u8; 32]);
    assert_eq!(peer_xor_distance(&peer, &[0b1111_0000; 32]), [0b0101_0101; 32]);
}

#[test]
fn diagnostics_name_the_chunk_and_the_counts() {
    let address = [0xabu8; 32];
    let witnessed = WitnessedCloseGroup {
        target: address,
        k: CLOSE_GROUP_SIZE,
        initial_closest: witnessed_test_nodes(&[1]),
        responder_views: vec![witnessed_test_view(2, &[1])],
    };
    let text = witnessed_close_group_diagnostics(&address, &witnessed, 1);
    assert!(text.contains(&"ab".repeat(32)));
    assert!(text.contains(&format!("{}:1", "01".repeat(32))), "{text}");
}

#[test]
fn fewer_quotes_than_a_close_group_select_nothing() {
    let three: Vec<StoreQuote> = (1..4).map(|seed| synthetic_quote(seed, 1)).collect();
    assert!(median_paid_quote_issuer(&three).is_none());
    let quotes: Vec<StoreQuote> = (1..7).map(|seed| synthetic_quote(seed, 1)).collect();
    assert!(
        select_witnessed_median_voter_quotes(quotes, &[0u8; 32], &AddressMap::new()).is_none()
    );
}

#[test]
fn support_counts_chosen_issuers_that_recognise_the_paid_one() {
    let quotes: Vec<StoreQuote> = (1..8).map(|seed| synthetic_quote(seed, seed as u64)).collect();
    let indices: Vec<usize> = (0..7).collect();
    let mut voters = AddressMap::new();
    voters.insert([4u8; 32], synthetic_voters(&[1, 2, 9]));
    assert_eq!(median_issuer_voter_support(&quotes, &indices, &voters), Some((synthetic_peer(4), 2)));
}
