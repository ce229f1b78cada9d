//! Calls into the network protocol crate.

use ant_protocol::evm;
use std::time::{Duration, UNIX_EPOCH};
use vstd::prelude::*;

use crate::text::decimal_text;
use crate::uint256::{two128, Amount, U256};
use crate::xor::PeerId;

verus! {

/// Number of peers that are responsible for one address.
pub const CLOSE_GROUP_SIZE: usize = 7;

/// More than half of a close group.
pub const CLOSE_GROUP_MAJORITY: usize = 4;

/// Largest number of bytes in a chunk.
pub const MAX_CHUNK_SIZE: usize = 4_194_304;

/// `ant_protocol::transport::MultiAddr`, a dialable address of a peer.
#[verifier::external_type_specification]
#[verifier::external_body]
pub struct ExMultiAddr(ant_protocol::transport::MultiAddr);

/// `ant_protocol::transport::DHTNode`, what the network knows about one peer.
#[verifier::external_type_specification]
#[verifier::external_body]
pub struct ExDhtRecord(ant_protocol::transport::DHTNode);

/// `MultiAddr::clone`: the same address.
pub assume_specification[ <ant_protocol::transport::MultiAddr as Clone>::clone ](
    a: &ant_protocol::transport::MultiAddr,
) -> (r: ant_protocol::transport::MultiAddr)
    ensures
        r == *a,
;

/// `DHTNode::clone`: the same record.
pub assume_specification[ <ant_protocol::transport::DHTNode as Clone>::clone ](
    a: &ant_protocol::transport::DHTNode,
) -> (r: ant_protocol::transport::DHTNode)
    ensures
        r == *a,
;

/// The content address of a byte string: what `ant_protocol::compute_address`
/// returns for it.
pub uninterp spec fn content_address(content: Seq<u8>) -> Seq<u8>;

/// `ant_protocol::compute_address`: the BLAKE3 hash of the content.
#[verifier::external_body]
pub(crate) fn compute_address(content: &[u8]) -> (r: [u8; 32])
    ensures
        r@ == content_address(content@),
{
    ant_protocol::compute_address(content)
}

/// What the network knows about one peer: the record as the network hands it out,
/// with the proof of its owner where there is one.
pub struct DhtNode {
    pub record: ant_protocol::transport::DHTNode,
}

/// The contents of a peer record.
pub struct NodeView {
    pub peer: Seq<u8>,
    pub record: ant_protocol::transport::DHTNode,
}

impl View for DhtNode {
    type V = NodeView;

    open spec fn view(&self) -> NodeView {
        NodeView { peer: record_peer(self.record), record: self.record }
    }
}

/// The peer that a record is about: its field `peer_id`.
pub uninterp spec fn record_peer(record: ant_protocol::transport::DHTNode) -> Seq<u8>;

/// `PeerId::as_bytes` of the peer that a record is about.
#[verifier::external_body]
fn peer_of(record: &ant_protocol::transport::DHTNode) -> (r: [u8; 32])
    ensures
        r@ == record_peer(*record),
{
    *record.peer_id.as_bytes()
}

impl DhtNode {
    /// The peer that the record is about.
    pub fn peer_id(&self) -> (r: PeerId)
        ensures
            r@ == self@.peer,
    {
        PeerId(peer_of(&self.record))
    }

    /// A record with the same contents.
    pub(crate) fn duplicate(&self) -> (r: DhtNode)
        ensures
            r@ == self@,
    {
        DhtNode { record: self.record.clone() }
    }
}

/// A record into which a second one was merged: what `DHTNode::merge_from` leaves.
pub uninterp spec fn joint_record(
    record: ant_protocol::transport::DHTNode,
    other: ant_protocol::transport::DHTNode,
) -> ant_protocol::transport::DHTNode;

/// The record of a peer after another record of the same peer was merged in.
pub open spec fn merged_view(a: NodeView, b: NodeView) -> NodeView {
    NodeView { peer: a.peer, record: joint_record(a.record, b.record) }
}

/// `DHTNode::merge_from`: the first record after the second was merged in. Its
/// peer stays.
#[verifier::external_body]
fn merge_records(
    record: ant_protocol::transport::DHTNode,
    other: ant_protocol::transport::DHTNode,
) -> (r: ant_protocol::transport::DHTNode)
    ensures
        r == joint_record(record, other),
        record_peer(r) == record_peer(record),
{
    let mut merged = record;
    merged.merge_from(other);
    merged
}

/// The record of a peer after another record of the same peer was merged in.
pub(crate) fn merge_nodes(node: DhtNode, other: DhtNode) -> (r: DhtNode)
    ensures
        r@ == merged_view(node@, other@),
{
    DhtNode { record: merge_records(node.record, other.record) }
}

/// The addresses of a record in the order in which they are dialled: what
/// `DHTNode::addresses_by_priority` returns.
pub uninterp spec fn prioritised_addresses(record: ant_protocol::transport::DHTNode) -> Seq<
    ant_protocol::transport::MultiAddr,
>;

/// `DHTNode::addresses_by_priority`: an order of the record's addresses.
#[verifier::external_body]
pub(crate) fn addresses_by_priority(record: &ant_protocol::transport::DHTNode) -> (r: Vec<
    ant_protocol::transport::MultiAddr,
>)
    ensures
        r@ == prioritised_addresses(*record),
{
    record.addresses_by_priority()
}

/// A price offer of one peer for one chunk.
#[derive(Clone, Debug)]
pub struct PaymentQuote {
    /// Address of the chunk that the quote is for.
    pub content: [u8; 32],
    /// When the quote was made: seconds since the Unix epoch.
    pub timestamp_secs: u64,
    /// The part of a second behind `timestamp_secs`.
    pub timestamp_nanos: u32,
    /// Price in atto units.
    pub price: Amount,
    /// Account that the payment goes to.
    pub rewards_address: [u8; 20],
    pub pub_key: Vec<u8>,
    pub signature: Vec<u8>,
    pub committed_key_count: u32,
    pub commitment_pin: Option<[u8; 32]>,
}

/// The contents of a quote.
pub struct QuoteView {
    pub content: Seq<u8>,
    pub timestamp: (u64, u32),
    pub price: nat,
    pub rewards_address: Seq<u8>,
    pub pub_key: Seq<u8>,
    pub signature: Seq<u8>,
    pub committed_key_count: u32,
    pub commitment_pin: Option<Seq<u8>>,
}

impl View for PaymentQuote {
    type V = QuoteView;

    open spec fn view(&self) -> QuoteView {
        QuoteView {
            content: self.content@,
            timestamp: (self.timestamp_secs, self.timestamp_nanos),
            price: self.price.value(),
            rewards_address: self.rewards_address@,
            pub_key: self.pub_key@,
            signature: self.signature@,
            committed_key_count: self.committed_key_count,
            commitment_pin: match self.commitment_pin {
                Some(pin) => Some(pin@),
                None => None,
            },
        }
    }
}

impl PaymentQuote {
    /// The time is one that a machine's clock can show.
    pub open spec fn timely(&self) -> bool {
        self.timestamp_secs <= i64::MAX && self.timestamp_nanos < 1_000_000_000
    }
}

/// The quote that a byte string encodes, where it encodes one: what
/// `rmp_serde::from_slice` returns for the wire form of a quote.
pub uninterp spec fn decoded_quote(bytes: Seq<u8>) -> Option<QuoteView>;

/// `rmp_serde::from_slice` on the wire form of a quote: the quote, or the text
/// of the decoder's complaint, of which nothing is stated.
#[verifier::external_body]
pub(crate) fn decode_quote(bytes: &[u8]) -> (r: Result<PaymentQuote, String>)
    ensures
        match r {
            Ok(q) => decoded_quote(bytes@) == Some(q@) && q.timely(),
            Err(_) => decoded_quote(bytes@) is None,
        },
{
    let q = rmp_serde::from_slice::<evm::PaymentQuote>(bytes).map_err(|e| e.to_string())?;
    let made = q.timestamp.duration_since(UNIX_EPOCH).unwrap_or_default();
    Ok(PaymentQuote {
        content: q.content.0,
        timestamp_secs: made.as_secs(),
        timestamp_nanos: made.subsec_nanos(),
        price: U256::from_be_bytes(&q.price.to_be_bytes()),
        rewards_address: q.rewards_address.into_array(),
        pub_key: q.pub_key,
        signature: q.signature,
        committed_key_count: q.committed_key_count,
        commitment_pin: q.commitment_pin,
    })
}

impl PaymentQuote {
    /// A quote with the same contents.
    pub(crate) fn duplicate(&self) -> (r: PaymentQuote)
        ensures
            r@ == self@,
            r.timely() == self.timely(),
    {
        let pub_key = self.pub_key.clone();
        let signature = self.signature.clone();
        assert(pub_key@ =~= self.pub_key@);
        assert(signature@ =~= self.signature@);
        PaymentQuote {
            content: self.content,
            timestamp_secs: self.timestamp_secs,
            timestamp_nanos: self.timestamp_nanos,
            price: self.price,
            rewards_address: self.rewards_address,
            pub_key,
            signature,
            committed_key_count: self.committed_key_count,
            commitment_pin: self.commitment_pin,
        }
    }
}

/// The hash that identifies a quote in a payment: a hash of the whole quote, which
/// `PaymentQuote::hash` returns.
pub uninterp spec fn quote_hash(quote: QuoteView) -> Seq<u8>;

/// First byte of a proof of a single-node payment.
pub const PROOF_TAG_SINGLE_NODE: u8 = 1;

/// First byte of a proof of a merkle payment.
pub const PROOF_TAG_MERKLE: u8 = 2;

/// The kinds of payment proofs.
#[derive(Clone, Copy, Debug, PartialEq, Eq, Structural)]
pub enum ProofType {
    /// One close group of quotes, of which one is paid.
    SingleNode,
    /// One transaction for many chunks.
    Merkle,
}

/// The kind of proof that the first byte announces.
pub open spec fn announced_proof(bytes: Seq<u8>) -> Option<ProofType> {
    if bytes.len() > 0 && bytes[0] == PROOF_TAG_SINGLE_NODE {
        Some(ProofType::SingleNode)
    } else if bytes.len() > 0 && bytes[0] == PROOF_TAG_MERKLE {
        Some(ProofType::Merkle)
    } else {
        None
    }
}

/// `detect_proof_type`: the kind that the first byte announces, nothing for an
/// unknown first byte or no byte at all.
#[verifier::external_body]
pub(crate) fn detect_proof_type(bytes: &[u8]) -> (r: Option<ProofType>)
    ensures
        r == announced_proof(bytes@),
{
    match ant_protocol::detect_proof_type(bytes) {
        Some(ant_protocol::ProofType::SingleNode) => Some(ProofType::SingleNode),
        Some(ant_protocol::ProofType::Merkle) => Some(ProofType::Merkle),
        _ => None,
    }
}

/// The contents of a list of quotes and their issuers.
pub open spec fn peer_quote_views(quotes: Seq<([u8; 32], PaymentQuote)>) -> Seq<
    (Seq<u8>, QuoteView),
> {
    quotes.map_values(|q: ([u8; 32], PaymentQuote)| (q.0@, q.1@))
}

/// The wire form of a single-node payment proof, where it has one: what
/// `serialize_single_node_proof` returns for these quotes and transactions.
pub uninterp spec fn single_node_proof(
    quotes: Seq<(Seq<u8>, QuoteView)>,
    tx_hashes: Seq<Seq<u8>>,
) -> Option<Seq<u8>>;

/// `serialize_single_node_proof`: the tagged wire form of the proof, or the
/// text of the encoder's complaint, of which nothing is stated. The times of
/// the quotes have to be ones that a clock can show.
#[verifier::external_body]
pub(crate) fn serialize_single_node_proof(
    quotes: Vec<([u8; 32], PaymentQuote)>,
    tx_hashes: Vec<[u8; 32]>,
) -> (r: Result<Vec<u8>, String>)
    requires
        forall|i: int| 0 <= i < quotes@.len() ==> (#[trigger] quotes@[i]).1.timely(),
    ensures
        match r {
            Ok(bytes) => single_node_proof(
                peer_quote_views(quotes@),
                crate::collections::address_views(tx_hashes@),
            ) == Some(bytes@) && bytes@.len() > 0 && bytes@[0] == PROOF_TAG_SINGLE_NODE,
            Err(_) => single_node_proof(
                peer_quote_views(quotes@),
                crate::collections::address_views(tx_hashes@),
            ) is None,
        },
{
    let peer_quotes = quotes.into_iter().map(|(id, q)| (evm::EncodedPeerId::new(id), evm::PaymentQuote {
        content: xor_name::XorName(q.content),
        timestamp: UNIX_EPOCH + Duration::new(q.timestamp_secs, q.timestamp_nanos),
        price: evm::Amount::from_be_bytes(q.price.to_be_bytes()),
        rewards_address: evm::RewardsAddress::new(q.rewards_address),
        pub_key: q.pub_key, signature: q.signature,
        committed_key_count: q.committed_key_count, commitment_pin: q.commitment_pin,
    })).collect();
    let proof_of_payment = evm::ProofOfPayment { peer_quotes };
    let tx_hashes = tx_hashes.into_iter().map(|h| h.into()).collect();
    let proof = ant_protocol::PaymentProof { proof_of_payment, tx_hashes, commitment_sidecars: Vec::new() };
    ant_protocol::serialize_single_node_proof(&proof).map_err(|e| e.to_string())
}

/// `Amount::to_string`: the amount in decimal.
#[verifier::external_body]
pub(crate) fn format_amount(amount: &Amount) -> (r: String)
    ensures
        r@ == decimal_text(amount.value()),
{
    evm::Amount::from_be_bytes(amount.to_be_bytes()).to_string()
}

/// The amount that a text stands for, where it stands for one: what
/// `Amount::from_str` returns.
pub uninterp spec fn parsed_amount(text: Seq<char>) -> Option<nat>;

/// `Amount::from_str`: the amount that a text stands for. A decimal number
/// without leading zeros stands for itself, where it fits.
#[verifier::external_body]
pub(crate) fn parse_amount(text: &str) -> (r: Option<Amount>)
    ensures
        match r {
            Some(a) => parsed_amount(text@) == Some(a.value()),
            None => parsed_amount(text@) is None,
        },
        r is Some || (forall|n: nat|
            n < two128() * two128() ==> text@ != #[trigger] decimal_text(n)),
        r is None || (forall|n: nat|
            n < two128() * two128() && text@ == #[trigger] decimal_text(n) ==> (r->0).value() == n),
{
    text.parse::<ant_protocol::evm::Amount>().ok().map(|a| U256::from_be_bytes(&a.to_be_bytes()))
}

/// Type tag of a chunk in requests.
pub const DATA_TYPE_CHUNK: u32 = 0;

/// A request to a peer.
pub enum RequestBody {
    /// Store a chunk, with the proof that it was paid for.
    Put { address: [u8; 32], content: Vec<u8>, payment_proof: Vec<u8> },
    /// Fetch a chunk.
    Get { address: [u8; 32] },
    /// Quote the storage of a chunk.
    Quote { address: [u8; 32], data_size: u64, data_type: u32 },
    /// Offer to be a candidate of a merkle payment.
    MerkleCandidate {
        address: [u8; 32],
        data_type: u32,
        data_size: u64,
        merkle_payment_timestamp: u64,
    },
}

/// The contents of a request.
pub enum RequestView {
    Put { address: Seq<u8>, content: Seq<u8>, payment_proof: Seq<u8> },
    Get { address: Seq<u8> },
    Quote { address: Seq<u8>, data_size: u64, data_type: u32 },
    MerkleCandidate {
        address: Seq<u8>,
        data_type: u32,
        data_size: u64,
        merkle_payment_timestamp: u64,
    },
}

impl View for RequestBody {
    type V = RequestView;

    open spec fn view(&self) -> RequestView {
        match *self {
            RequestBody::Put { address, content, payment_proof } => RequestView::Put {
                address: address@,
                content: content@,
                payment_proof: payment_proof@,
            },
            RequestBody::Get { address } => RequestView::Get { address: address@ },
            RequestBody::Quote { address, data_size, data_type } => RequestView::Quote {
                address: address@,
                data_size,
                data_type,
            },
            RequestBody::MerkleCandidate {
                address,
                data_type,
                data_size,
                merkle_payment_timestamp,
            } => RequestView::MerkleCandidate {
                address: address@,
                data_type,
                data_size,
                merkle_payment_timestamp,
            },
        }
    }
}

/// The wire form of a request, where it has one: what `ChunkMessage::encode`
/// returns.
pub uninterp spec fn encoded_request(request_id: u64, body: RequestView) -> Option<Seq<u8>>;

/// `ChunkMessage::encode`: the wire form of a request, or the text of the
/// encoder's complaint, of which nothing is stated.
#[verifier::external_body]
pub(crate) fn encode_request(request_id: u64, body: RequestBody) -> (r: Result<Vec<u8>, String>)
    ensures
        match r {
            Ok(bytes) => encoded_request(request_id, body@) == Some(bytes@),
            Err(_) => encoded_request(request_id, body@) is None,
        },
{
    let body = match body {
        RequestBody::Put { address, content, payment_proof } => ant_protocol::ChunkMessageBody::PutRequest(
            ant_protocol::ChunkPutRequest::with_payment(address, content.into(), payment_proof)),
        RequestBody::Get { address } => ant_protocol::ChunkMessageBody::GetRequest(
            ant_protocol::ChunkGetRequest { address }),
        RequestBody::Quote { address, data_size, data_type } => ant_protocol::ChunkMessageBody::QuoteRequest(
            ant_protocol::ChunkQuoteRequest { address, data_size, data_type }),
        RequestBody::MerkleCandidate { address, data_type, data_size, merkle_payment_timestamp } =>
            ant_protocol::ChunkMessageBody::MerkleCandidateQuoteRequest(
                ant_protocol::MerkleCandidateQuoteRequest { address, data_type, data_size, merkle_payment_timestamp }),
    };
    ant_protocol::ChunkMessage { request_id, body }.encode().map_err(|e| e.to_string())
}

} // verus!
