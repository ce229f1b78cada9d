//! Storing and fetching single chunks.

use vstd::prelude::*;
use vstd::string::*;

use crate::data::client::collection::{about_peer, peer_message};
use crate::data::client::payment::QuotedPeers;
use crate::data::error::{gives_reason, joined, message_text, Error};
use crate::protocol::{
    announced_proof, compute_address, content_address, detect_proof_type, encode_request,
    encoded_request, ProofType, RequestBody, RequestView, CLOSE_GROUP_MAJORITY,
};
use crate::text::{
    decimal_text, hex_encode, hex_text, join_items, joined_items, push_decimal, texts,
};
use crate::xor::{same_bytes, PeerId};

verus! {

/// Type tag of a chunk in quote requests.
pub const CHUNK_DATA_TYPE: u32 = 0;

/// Seconds that a peer may take to store a chunk that was paid on its own.
pub const STORE_RESPONSE_TIMEOUT_SECS: u64 = 10;

/// Seconds to wait before the close group is asked a second time.
pub const RETRY_SETTLE_SECS: u64 = 1;

/// A chunk and its address.
#[derive(Clone, Debug)]
pub struct DataChunk {
    pub address: [u8; 32],
    pub content: Vec<u8>,
}

impl DataChunk {
    /// The address is that of the content.
    pub open spec fn intact(&self) -> bool {
        self.address@ == content_address(self.content@)
    }
}

/// What one peer of the close group answered to a request for a chunk.
pub struct ChunkPeerGetResult {
    pub peer_id: PeerId,
    pub peer_addrs: Vec<ant_protocol::transport::MultiAddr>,
    pub xor_distance: [u8; 32],
    pub chunk_result: Result<Option<DataChunk>, Error>,
}

/// Result of one sweep over a chunk's close group: the chunk, or how often
/// each kind of failure occurred.
pub struct CloseGroupOutcome {
    pub chunk: Option<DataChunk>,
    pub queried: usize,
    pub not_found: usize,
    pub timeout: usize,
    pub network_err: usize,
}

/// Whether a majority of peers actively said that they do not have the chunk.
///
/// Such peers are reachable and know what they store; anything else may be a
/// failure to reach them.
pub fn is_authoritative_not_found(not_found: usize, quorum: usize) -> (r: bool)
    ensures
        r == (not_found >= quorum),
{
    not_found >= quorum
}

/// Seconds that a peer may take to store a chunk with this proof.
pub fn store_response_timeout_for_proof(proof: &[u8], merkle_timeout_secs: u64) -> (r: u64)
    ensures
        r == if announced_proof(proof@) == Some(ProofType::Merkle) {
            merkle_timeout_secs
        } else {
            STORE_RESPONSE_TIMEOUT_SECS
        },
{
    match detect_proof_type(proof) {
        Some(ProofType::Merkle) => merkle_timeout_secs,
        _ => STORE_RESPONSE_TIMEOUT_SECS,
    }
}

/// What quotes for a chunk are asked with: its content address and its size.
pub fn chunk_put_request(content: &Vec<u8>) -> (r: ([u8; 32], u64))
    ensures
        r.0@ == content_address(content@),
        r.1 == content@.len(),
{
    (compute_address(content.as_slice()), content.len() as u64)
}

/// What follows the attempt to pay for a chunk.
pub enum PutStep {
    /// Send the chunk with this proof to these peers.
    Send { proof: Vec<u8>, peers: QuotedPeers },
    /// The network holds the chunk at this address; nothing was paid.
    AlreadyStored([u8; 32]),
}

/// What follows the attempt to pay for a chunk.
pub fn chunk_put_step(content: &Vec<u8>, payment: Result<(Vec<u8>, QuotedPeers), Error>) -> (r:
    Result<PutStep, Error>)
    ensures
        match payment {
            Ok((proof, peers)) => r == Ok::<PutStep, Error>(PutStep::Send { proof, peers }),
            Err(Error::AlreadyStored) => r matches Ok(PutStep::AlreadyStored(address)) && address@
                == content_address(content@),
            Err(e) => r == Err::<PutStep, Error>(e),
        },
{
    match payment {
        Ok((proof, peers)) => Ok(PutStep::Send { proof, peers }),
        Err(Error::AlreadyStored) => {
            let (address, _) = chunk_put_request(content);
            Ok(PutStep::AlreadyStored(address))
        },
        Err(e) => Err(e),
    }
}

/// What to do after a peer answered.
#[derive(Clone, Copy, Debug, PartialEq, Eq, Structural)]
pub enum PutAction {
    /// Wait for the other peers.
    Wait,
    /// Send the chunk to the peer at this position.
    SendTo(usize),
    /// A majority holds the chunk.
    Stored,
}

/// Storing one chunk on a majority of its quoted peers.
///
/// The first peers, one majority of them, are asked at once; each failure
/// brings in the next peer that was not asked yet.
pub struct CloseGroupPut {
    peers: usize,
    asked: usize,
    stored: usize,
    failures: Vec<String>,
}

impl CloseGroupPut {
    /// Number of peers there are.
    pub closed spec fn peers(&self) -> int {
        self.peers as int
    }

    /// Number of peers asked so far; they are the first ones.
    pub closed spec fn asked(&self) -> int {
        self.asked as int
    }

    /// Number of peers that stored the chunk.
    pub closed spec fn stored(&self) -> int {
        self.stored as int
    }

    /// The failures, as text.
    pub closed spec fn failures(&self) -> Seq<Seq<char>> {
        texts(self.failures@)
    }

    /// Number of peers whose answer is awaited.
    pub open spec fn waiting(&self) -> int {
        self.asked() - self.stored() - self.failures().len()
    }

    /// Peers are asked in order, each at most once, and a peer is left unasked
    /// only while enough others are stored on or awaited.
    pub open spec fn wf(&self) -> bool {
        &&& 0 <= self.asked() <= self.peers() <= usize::MAX
        &&& 0 <= self.stored() <= CLOSE_GROUP_MAJORITY
        &&& self.waiting() >= 0
        &&& self.asked() < self.peers() ==> self.stored() + self.waiting() == CLOSE_GROUP_MAJORITY
        &&& self.stored() + self.waiting() <= CLOSE_GROUP_MAJORITY
    }

    /// Starts with the first peers; `r.1` of them are asked at once.
    pub fn new(peers: usize) -> (r: (CloseGroupPut, usize))
        ensures
            r.0.wf(),
            r.0.peers() == peers,
            r.0.asked() == r.1,
            r.0.stored() == 0,
            r.0.failures().len() == 0,
            r.1 == if peers < CLOSE_GROUP_MAJORITY {
                peers as int
            } else {
                CLOSE_GROUP_MAJORITY as int
            },
    {
        let first: usize = if peers < CLOSE_GROUP_MAJORITY {
            peers
        } else {
            CLOSE_GROUP_MAJORITY
        };
        (CloseGroupPut { peers, asked: first, stored: 0, failures: Vec::new() }, first)
    }

    /// Takes the answer of one peer into account.
    pub fn on_answer(&mut self, peer_id: &PeerId, failure: Option<Error>) -> (r: PutAction)
        requires
            old(self).wf(),
            old(self).waiting() > 0,
            old(self).stored() < CLOSE_GROUP_MAJORITY,
        ensures
            final(self).wf(),
            final(self).peers() == old(self).peers(),
            match failure {
                None => {
                    &&& final(self).stored() == old(self).stored() + 1
                    &&& final(self).failures() == old(self).failures()
                    &&& final(self).asked() == old(self).asked()
                    &&& r == if final(self).stored() >= CLOSE_GROUP_MAJORITY {
                        PutAction::Stored
                    } else {
                        PutAction::Wait
                    }
                },
                Some(e) => {
                    &&& final(self).stored() == old(self).stored()
                    &&& final(self).failures() == old(self).failures().push(
                        hex_text(peer_id@) + ": "@ + message_text(e),
                    )
                    &&& if old(self).asked() < old(self).peers() {
                        r == PutAction::SendTo(old(self).asked() as usize) && final(self).asked()
                            == old(self).asked() + 1
                    } else {
                        r == PutAction::Wait && final(self).asked() == old(self).asked()
                    }
                },
            },
    {
        match failure {
            None => {
                self.stored = self.stored + 1;
                if self.stored >= CLOSE_GROUP_MAJORITY {
                    PutAction::Stored
                } else {
                    PutAction::Wait
                }
            },
            Some(e) => {
                let mut line = peer_id.to_hex();
                line.append(": ");
                line.append(e.message().as_str());
                let ghost before = self.failures@;
                let ghost text = line@;
                self.failures.push(line);
                assert(texts(self.failures@) =~= texts(before).push(text));
                if self.asked < self.peers {
                    let next: usize = self.asked;
                    self.asked = next + 1;
                    PutAction::SendTo(next)
                } else {
                    PutAction::Wait
                }
            },
        }
    }

    /// The error once every peer answered and no majority was reached.
    pub fn finish(self) -> (r: Error)
        requires
            self.wf(),
            self.waiting() == 0,
            self.stored() < CLOSE_GROUP_MAJORITY,
        ensures
            self.asked() == self.peers(),
            r matches Error::InsufficientPeers(m) && m@ == "Stored on "@ + decimal_text(
                self.stored() as nat,
            ) + " peers, need "@ + decimal_text(CLOSE_GROUP_MAJORITY as nat) + ". Failures: ["@
                + joined_items(self.failures(), "; "@) + "]"@,
    {
        let mut m = "Stored on ".to_owned();
        push_decimal(&mut m, self.stored as u128);
        m.append(" peers, need ");
        push_decimal(&mut m, CLOSE_GROUP_MAJORITY as u128);
        m.append(". Failures: [");
        m.append(join_items(&self.failures, "; ").as_str());
        m.append("]");
        Error::InsufficientPeers(m)
    }
}

/// The wire form of the request to store a chunk.
pub fn put_request(request_id: u64, content: Vec<u8>, payment_proof: Vec<u8>) -> (r: Result<
    Vec<u8>,
    Error,
>)
    ensures
        ({
            let body = RequestView::Put {
                address: content_address(content@),
                content: content@,
                payment_proof: payment_proof@,
            };
            match r {
                Ok(bytes) => encoded_request(request_id, body) == Some(bytes@),
                Err(e) => (e matches Error::Protocol(m) && gives_reason(
                    m@,
                    "Failed to encode PUT request: "@,
                )) && encoded_request(request_id, body) is None,
            }
        }),
{
    let address = compute_address(content.as_slice());
    match encode_request(request_id, RequestBody::Put { address, content, payment_proof }) {
        Ok(bytes) => Ok(bytes),
        Err(e) => Err(Error::Protocol(joined("Failed to encode PUT request: ", e.as_str()))),
    }
}

/// What a peer answered to a request to store a chunk.
pub enum PutReply {
    Success { address: [u8; 32] },
    AlreadyExists { address: [u8; 32] },
    PaymentRequired { message: String },
    Error(String),
    /// A message of another kind.
    Other,
}

/// What a peer's answer to a request to store a chunk counts as; nothing for a
/// message of another kind.
pub fn interpret_put_reply(address: &[u8; 32], reply: PutReply) -> (r: Option<
    Result<[u8; 32], Error>,
>)
    ensures
        match reply {
            PutReply::Success { address: a } => r == Some(Ok::<[u8; 32], Error>(a)),
            PutReply::AlreadyExists { address: a } => r == Some(Ok::<[u8; 32], Error>(a)),
            PutReply::PaymentRequired { message } => r matches Some(Err(Error::Payment(m))) && m@
                == "Payment required: "@ + message@,
            PutReply::Error(e) => r matches Some(Err(Error::Protocol(m))) && m@
                == "Remote PUT error for "@ + hex_text(address@) + ": "@ + e@,
            PutReply::Other => r is None,
        },
{
    match reply {
        PutReply::Success { address: a } => Some(Ok(a)),
        PutReply::AlreadyExists { address: a } => Some(Ok(a)),
        PutReply::PaymentRequired { message } => Some(
            Err(Error::Payment(joined("Payment required: ", message.as_str()))),
        ),
        PutReply::Error(e) => {
            let mut m = joined("Remote PUT error for ", hex_encode(address).as_str());
            m.append(": ");
            m.append(e.as_str());
            Some(Err(Error::Protocol(m)))
        },
        PutReply::Other => None,
    }
}

/// The error when a chunk cannot be sent.
pub fn put_send_error(reason: &str) -> (r: Error)
    ensures
        r matches Error::Network(m) && m@ == "Failed to send PUT to peer: "@ + reason@,
{
    Error::Network(joined("Failed to send PUT to peer: ", reason))
}

/// The error when a peer does not say in time that it stored the chunk.
pub fn put_timeout_error(timeout_secs: u64) -> (r: Error)
    ensures
        r matches Error::Timeout(m) && m@ == "Timeout waiting for store response after "@
            + decimal_text(timeout_secs as nat) + "s"@,
{
    let mut m = "Timeout waiting for store response after ".to_owned();
    push_decimal(&mut m, timeout_secs as u128);
    m.append("s");
    Error::Timeout(m)
}

/// What the local cache says about a chunk.
pub enum CacheVerdict {
    /// The chunk is there, with the right content.
    Hit(DataChunk),
    /// The entry does not match its address and has to go.
    Evict,
    /// There is no entry.
    Miss,
}

/// Tests a cache entry against its address.
pub fn check_cached(address: &[u8; 32], cached: Option<Vec<u8>>) -> (r: CacheVerdict)
    ensures
        match cached {
            None => r is Miss,
            Some(content) => if content_address(content@) == address@ {
                r matches CacheVerdict::Hit(chunk) && chunk.address == *address && chunk.content
                    == content
            } else {
                r is Evict
            },
        },
{
    match cached {
        None => CacheVerdict::Miss,
        Some(content) => {
            let computed = compute_address(content.as_slice());
            if same_bytes(&computed, address) {
                CacheVerdict::Hit(DataChunk { address: *address, content })
            } else {
                CacheVerdict::Evict
            }
        },
    }
}

/// What to do after the first sweep over the close group.
pub enum GetStep {
    /// A peer delivered the chunk.
    Found(DataChunk),
    /// The close group does not have the chunk.
    NotFound,
    /// Ask a freshly looked up close group once more.
    Retry,
}

/// What to do after the first sweep over the close group: a majority that says
/// it does not have the chunk settles the matter, anything else is worth one
/// more sweep.
pub fn after_first_sweep(outcome: CloseGroupOutcome, close_group_size: usize) -> (r: GetStep)
    ensures
        match outcome.chunk {
            Some(chunk) => r == GetStep::Found(chunk),
            None => if outcome.not_found >= close_group_size as int / 2 + 1 {
                r is NotFound
            } else {
                r is Retry
            },
        },
        r is NotFound <==> outcome.chunk is None && 2 * outcome.not_found > close_group_size,
{
    match outcome.chunk {
        Some(chunk) => GetStep::Found(chunk),
        None => if is_authoritative_not_found(outcome.not_found, close_group_size / 2 + 1) {
            GetStep::NotFound
        } else {
            GetStep::Retry
        },
    }
}

/// What the second sweep comes to. A close group that cannot be looked up
/// counts as one that does not have the chunk.
pub fn after_retry_sweep(outcome: Result<CloseGroupOutcome, Error>) -> (r: Option<DataChunk>)
    ensures
        r == match outcome {
            Ok(o) => o.chunk,
            Err(_) => None,
        },
{
    match outcome {
        Ok(o) => o.chunk,
        Err(_) => None,
    }
}

/// A sweep over the close group, peer by peer.
pub struct Sweep {
    pub queried: usize,
    pub not_found: usize,
    pub timeout: usize,
    pub network_err: usize,
}

/// What to do after a peer of a sweep answered.
pub enum SweepStep {
    /// Ask the next peer.
    Next,
    /// The sweep is over.
    Done(CloseGroupOutcome),
    /// The sweep failed.
    Failed(Error),
}

impl Sweep {
    /// The number of peers that answered without delivering the chunk.
    pub open spec fn answered(&self) -> int {
        self.not_found + self.timeout + self.network_err
    }

    /// Starts a sweep over `peers` peers.
    pub fn new(peers: usize) -> (r: Sweep)
        ensures
            r.queried == peers,
            r.not_found == 0,
            r.timeout == 0,
            r.network_err == 0,
    {
        Sweep { queried: peers, not_found: 0, timeout: 0, network_err: 0 }
    }

    /// Takes the answer of the next peer into account.
    pub fn on_answer(&mut self, answer: Result<Option<DataChunk>, Error>) -> (r: SweepStep)
        requires
            old(self).answered() < old(self).queried,
        ensures
            final(self).queried == old(self).queried,
            match answer {
                Ok(Some(chunk)) => {
                    &&& *final(self) == *old(self)
                    &&& r matches SweepStep::Done(o) && o == (CloseGroupOutcome {
                        chunk: Some(chunk),
                        queried: old(self).queried,
                        not_found: old(self).not_found,
                        timeout: old(self).timeout,
                        network_err: old(self).network_err,
                    })
                },
                Ok(None) => r is Next && *final(self) == (Sweep {
                    not_found: (old(self).not_found + 1) as usize,
                    ..*old(self)
                }),
                Err(Error::Timeout(_)) => r is Next && *final(self) == (Sweep {
                    timeout: (old(self).timeout + 1) as usize,
                    ..*old(self)
                }),
                Err(Error::Network(_)) => r is Next && *final(self) == (Sweep {
                    network_err: (old(self).network_err + 1) as usize,
                    ..*old(self)
                }),
                Err(e) => r == SweepStep::Failed(e) && *final(self) == *old(self),
            },
    {
        match answer {
            Ok(Some(chunk)) => SweepStep::Done(
                CloseGroupOutcome {
                    chunk: Some(chunk),
                    queried: self.queried,
                    not_found: self.not_found,
                    timeout: self.timeout,
                    network_err: self.network_err,
                },
            ),
            Ok(None) => {
                self.not_found = self.not_found + 1;
                SweepStep::Next
            },
            Err(Error::Timeout(_)) => {
                self.timeout = self.timeout + 1;
                SweepStep::Next
            },
            Err(Error::Network(_)) => {
                self.network_err = self.network_err + 1;
                SweepStep::Next
            },
            Err(e) => SweepStep::Failed(e),
        }
    }

    /// The outcome once no peer delivered the chunk.
    pub fn exhausted(&self) -> (r: CloseGroupOutcome)
        ensures
            r == (CloseGroupOutcome {
                chunk: None,
                queried: self.queried,
                not_found: self.not_found,
                timeout: self.timeout,
                network_err: self.network_err,
            }),
    {
        CloseGroupOutcome {
            chunk: None,
            queried: self.queried,
            not_found: self.not_found,
            timeout: self.timeout,
            network_err: self.network_err,
        }
    }
}

/// The wire form of the request to fetch a chunk.
pub fn get_request(request_id: u64, address: &[u8; 32]) -> (r: Result<Vec<u8>, Error>)
    ensures
        ({
            let body = RequestView::Get { address: address@ };
            match r {
                Ok(bytes) => encoded_request(request_id, body) == Some(bytes@),
                Err(e) => (e matches Error::Protocol(m) && gives_reason(
                    m@,
                    "Failed to encode GET request: "@,
                )) && encoded_request(request_id, body) is None,
            }
        }),
{
    match encode_request(request_id, RequestBody::Get { address: *address }) {
        Ok(bytes) => Ok(bytes),
        Err(e) => Err(Error::Protocol(joined("Failed to encode GET request: ", e.as_str()))),
    }
}

/// What a peer answered to a request for a chunk.
pub enum GetReply {
    Success { address: [u8; 32], content: Vec<u8> },
    NotFound,
    Error(String),
    /// A message of another kind.
    Other,
}

/// What a peer's answer to a request for a chunk counts as; nothing for a
/// message of another kind. A chunk is accepted only under the address that
/// was asked for, and only with the content that this address stands for.
pub fn interpret_get_reply(address: &[u8; 32], reply: GetReply) -> (r: Option<
    Result<Option<DataChunk>, Error>,
>)
    ensures
        match reply {
            GetReply::Other => r is None,
            GetReply::NotFound => r == Some(Ok::<Option<DataChunk>, Error>(None)),
            GetReply::Error(e) => r matches Some(Err(Error::Protocol(m))) && m@
                == "Remote GET error for "@ + hex_text(address@) + ": "@ + e@,
            GetReply::Success { address: a, content } => if a@ != address@ {
                r matches Some(Err(Error::InvalidData(m))) && m@
                    == "Mismatched chunk address: expected "@ + hex_text(address@) + ", got "@
                    + hex_text(a@)
            } else if content_address(content@) != address@ {
                r matches Some(Err(Error::InvalidData(m))) && m@
                    == "Invalid chunk content: expected hash "@ + hex_text(address@) + ", got "@
                    + hex_text(content_address(content@))
            } else {
                r matches Some(Ok(Some(chunk))) && chunk.address == a && chunk.content == content
                    && chunk.intact()
            },
        },
{
    match reply {
        GetReply::Other => None,
        GetReply::NotFound => Some(Ok(None)),
        GetReply::Error(e) => {
            let mut m = joined("Remote GET error for ", hex_encode(address).as_str());
            m.append(": ");
            m.append(e.as_str());
            Some(Err(Error::Protocol(m)))
        },
        GetReply::Success { address: a, content } => {
            if !same_bytes(&a, address) {
                let mut m = joined(
                    "Mismatched chunk address: expected ",
                    hex_encode(address).as_str(),
                );
                m.append(", got ");
                m.append(hex_encode(&a).as_str());
                return Some(Err(Error::InvalidData(m)));
            }
            let computed = compute_address(content.as_slice());
            if !same_bytes(&computed, &a) {
                let mut m = joined(
                    "Invalid chunk content: expected hash ",
                    hex_encode(address).as_str(),
                );
                m.append(", got ");
                m.append(hex_encode(&computed).as_str());
                return Some(Err(Error::InvalidData(m)));
            }
            Some(Ok(Some(DataChunk { address: a, content })))
        },
    }
}

/// The error when a request for a chunk cannot be sent.
pub fn get_send_error(peer_id: &PeerId, reason: &str) -> (r: Error)
    ensures
        r matches Error::Network(m) && m@ == about_peer(
            "Failed to send GET to peer "@,
            peer_id@,
            ": "@,
            reason@,
        ),
{
    Error::Network(peer_message("Failed to send GET to peer ", peer_id, ": ", reason))
}

/// The error when a peer does not deliver a chunk in time.
pub fn get_timeout_error(address: &[u8; 32], peer_id: &PeerId, timeout_secs: u64) -> (r: Error)
    ensures
        r matches Error::Timeout(m) && m@ == "Timeout waiting for chunk "@ + hex_text(address@)
            + " from "@ + hex_text(peer_id@) + " after "@ + decimal_text(timeout_secs as nat)
            + "s"@,
{
    let mut m = joined("Timeout waiting for chunk ", hex_encode(address).as_str());
    m.append(" from ");
    m.append(peer_id.to_hex().as_str());
    m.append(" after ");
    push_decimal(&mut m, timeout_secs as u128);
    m.append("s");
    Error::Timeout(m)
}

/// Whether a fetched chunk exists.
pub fn chunk_exists(fetched: Result<Option<DataChunk>, Error>) -> (r: Result<bool, Error>)
    ensures
        r == match fetched {
            Ok(chunk) => Ok::<bool, Error>(chunk is Some),
            Err(e) => Err(e),
        },
{
    match fetched {
        Ok(chunk) => Ok(chunk.is_some()),
        Err(e) => Err(e),
    }
}

impl CloseGroupPut {
    /// A chunk is given up only once every peer was asked and so many failed that the
    /// others make no majority.
    pub proof fn given_up_without_a_majority(self)
        requires
            self.wf(),
            self.waiting() == 0,
            self.stored() < CLOSE_GROUP_MAJORITY,
        ensures
            self.asked() == self.peers(),
            self.stored() + self.failures().len() == self.peers(),
            self.peers() - self.failures().len() < CLOSE_GROUP_MAJORITY,
    {
    }
}

} // verus!
