//! The search for the candidates of a merkle pool.

use vstd::prelude::*;
use vstd::string::*;

use crate::data::client::collection::{about_peer, peer_message};
use crate::data::client::merkle_pool::{
    check_signature, decode_candidate, decoded_candidate, signature_holds, MerkleCandidate,
    CANDIDATES_PER_POOL,
};
use crate::data::error::{message_text, Error};
use crate::order::{
    sort_by_keys, sorted_place_is_the_rank, stable_sort, stable_sort_orders_and_keeps,
};
use crate::protocol::{encode_request, encoded_request, RequestBody, RequestView};
use crate::text::{decimal_text, hex_text, join_items, joined_items, push_decimal, texts};
use crate::uint256::U256;
use crate::xor::{distance, peer_distance, PeerId};

verus! {

/// A peer and the addresses at which it can be reached.
pub type ReachablePeer = (PeerId, Vec<ant_protocol::transport::MultiAddr>);

/// How many peers near a pool's address are asked for: more than a pool needs,
/// since some offers turn out invalid.
pub const CANDIDATE_QUERY_COUNT: usize = 32;

/// The peers of a list, by their bytes.
pub open spec fn peer_ids(peers: Seq<ReachablePeer>) -> Seq<Seq<u8>> {
    peers.map_values(|p: ReachablePeer| p.0@)
}

/// `found` and behind it each connected peer that is not there yet.
pub open spec fn supplemented(found: Seq<Seq<u8>>, connected: Seq<PeerId>) -> Seq<Seq<u8>>
    decreases connected.len(),
{
    if connected.len() == 0 {
        found
    } else {
        let s = supplemented(found, connected.drop_last());
        if s.contains(connected.last()@) {
            s
        } else {
            s.push(connected.last()@)
        }
    }
}

/// Where too few peers were found near a pool's address, the connected peers
/// join them, with no known addresses.
pub fn supplement_with_connected(found: Vec<ReachablePeer>, connected: &Vec<PeerId>) -> (r: Vec<
    ReachablePeer,
>)
    ensures
        found@.len() >= CANDIDATES_PER_POOL ==> r@ == found@,
        found@.len() < CANDIDATES_PER_POOL ==> {
            &&& peer_ids(r@) == supplemented(peer_ids(found@), connected@)
            &&& found@.len() <= r@.len()
            &&& r@.take(found@.len() as int) == found@
            &&& forall|i: int| found@.len() <= i < r@.len() ==> (#[trigger] r@[i]).1@.len() == 0
        },
{
    let ghost before = found@;
    let mut peers = found;
    if peers.len() >= CANDIDATES_PER_POOL {
        return peers;
    }
    let mut i: usize = 0;
    assert(connected@.take(0) =~= Seq::empty());
    assert(peers@.take(before.len() as int) =~= before);
    while i < connected.len()
        invariant
            i <= connected.len(),
            before.len() <= peers@.len(),
            peers@.take(before.len() as int) == before,
            peer_ids(peers@) == supplemented(peer_ids(before), connected@.take(i as int)),
            forall|k: int| before.len() <= k < peers@.len() ==> (#[trigger] peers@[k]).1@.len() == 0,
        decreases connected.len() - i,
    {
        let peer: PeerId = connected[i];
        let mut known = false;
        let mut j: usize = 0;
        let ghost ids = peer_ids(peers@);
        while j < peers.len() && !known
            invariant
                j <= peers.len(),
                ids == peer_ids(peers@),
                known ==> ids.contains(peer@),
                !known ==> forall|k: int| 0 <= k < j ==> #[trigger] ids[k] != peer@,
            decreases peers.len() - j,
        {
            if peers[j].0.same(&peer) {
                assert(ids[j as int] == peer@);
                known = true;
            }
            j = j + 1;
        }
        proof {
            assert(connected@.take(i + 1).drop_last() =~= connected@.take(i as int));
            assert(connected@.take(i + 1).last() == peer);
        }
        if !known {
            let ghost held = peers@;
            peers.push((peer, Vec::new()));
            proof {
                assert(peer_ids(peers@) =~= ids.push(peer@));
                assert(peers@.take(before.len() as int) =~= held.take(before.len() as int));
            }
        }
        i = i + 1;
    }
    assert(connected@.take(i as int) =~= connected@);
    peers
}

/// Tests that enough peers can be asked for a pool.
pub fn check_candidate_peers(found: usize) -> (r: Result<(), Error>)
    ensures
        r is Ok <==> found >= CANDIDATES_PER_POOL,
        r matches Err(e) ==> e matches Error::InsufficientPeers(m) && m@ == "Found "@
            + decimal_text(found as nat) + " peers, need "@ + decimal_text(
            CANDIDATES_PER_POOL as nat,
        ) + " for merkle candidate pool. Use --no-merkle or a larger network."@,
{
    if found < CANDIDATES_PER_POOL {
        let mut m = "Found ".to_owned();
        push_decimal(&mut m, found as u128);
        m.append(" peers, need ");
        push_decimal(&mut m, CANDIDATES_PER_POOL as u128);
        m.append(" for merkle candidate pool. Use --no-merkle or a larger network.");
        return Err(Error::InsufficientPeers(m));
    }
    Ok(())
}

/// The wire form of a request for an offer. A peer whose request cannot be
/// encoded is left out.
pub fn candidate_request(
    request_id: u64,
    address: &[u8; 32],
    data_type: u32,
    data_size: u64,
    merkle_payment_timestamp: u64,
) -> (r: Option<Vec<u8>>)
    ensures
        ({
            let body = RequestView::MerkleCandidate {
                address: address@,
                data_type,
                data_size,
                merkle_payment_timestamp,
            };
            match r {
                Some(bytes) => encoded_request(request_id, body) == Some(bytes@),
                None => encoded_request(request_id, body) is None,
            }
        }),
{
    let body = RequestBody::MerkleCandidate {
        address: *address,
        data_type,
        data_size,
        merkle_payment_timestamp,
    };
    match encode_request(request_id, body) {
        Ok(bytes) => Some(bytes),
        Err(_) => None,
    }
}

/// What a peer sent back to a request for an offer.
pub enum CandidateReply {
    /// An offer in its wire form.
    Success(Vec<u8>),
    /// The peer refused.
    Error(String),
    /// A message of another kind.
    Other,
}

/// What a peer's reply counts as; nothing for a message of another kind.
pub fn interpret_candidate_reply(peer_id: &PeerId, reply: CandidateReply) -> (r: Option<
    Result<MerkleCandidate, Error>,
>)
    ensures
        match reply {
            CandidateReply::Other => r is None,
            CandidateReply::Error(e) => r matches Some(Err(Error::Protocol(m))) && m@ == about_peer(
                "Merkle quote error from "@,
                peer_id@,
                ": "@,
                e@,
            ),
            CandidateReply::Success(bytes) => match decoded_candidate(bytes@) {
                Some(c) => r matches Some(Ok(got)) && got@ == c,
                None => r matches Some(Err(Error::Serialization(m))) && exists|reason: Seq<char>|
                    m@ == #[trigger] about_peer(
                        "Failed to deserialize candidate node from "@,
                        peer_id@,
                        ": "@,
                        reason,
                    ),
            },
        },
{
    match reply {
        CandidateReply::Other => None,
        CandidateReply::Error(e) => Some(
            Err(
                Error::Protocol(
                    peer_message("Merkle quote error from ", peer_id, ": ", e.as_str()),
                ),
            ),
        ),
        CandidateReply::Success(bytes) => match decode_candidate(bytes.as_slice()) {
            Ok(c) => Some(Ok(c)),
            Err(e) => Some(
                Err(
                    Error::Serialization(
                        peer_message(
                            "Failed to deserialize candidate node from ",
                            peer_id,
                            ": ",
                            e.as_str(),
                        ),
                    ),
                ),
            ),
        },
    }
}

/// The error when a request for an offer cannot be sent.
pub fn candidate_send_error(peer_id: &PeerId, reason: &str) -> (r: Error)
    ensures
        r matches Error::Network(m) && m@ == about_peer(
            "Failed to send merkle candidate request to "@,
            peer_id@,
            ": "@,
            reason@,
        ),
{
    Error::Network(
        peer_message("Failed to send merkle candidate request to ", peer_id, ": ", reason),
    )
}

/// The error when a peer makes no offer in time.
pub fn candidate_timeout_error(peer_id: &PeerId) -> (r: Error)
    ensures
        r matches Error::Timeout(m) && m@ == about_peer(
            "Timeout waiting for merkle candidate from "@,
            peer_id@,
            ""@,
            ""@,
        ),
{
    Error::Timeout(peer_message("Timeout waiting for merkle candidate from ", peer_id, "", ""))
}

/// Why a response is no valid offer for a payment at this time; nothing where
/// it is one.
pub open spec fn objection(
    result: Result<MerkleCandidate, Error>,
    timestamp: u64,
) -> Option<Seq<char>> {
    match result {
        Ok(c) => if !signature_holds(c@) {
            Some("invalid signature"@)
        } else if c.merkle_payment_timestamp != timestamp {
            Some("timestamp mismatch"@)
        } else {
            None
        },
        Err(e) => Some(message_text(e)),
    }
}

/// Distance of a candidate from an address.
pub open spec fn candidate_distance(address: Seq<u8>) -> spec_fn((PeerId, MerkleCandidate)) -> nat {
    |c: (PeerId, MerkleCandidate)| distance(c.0@, address)
}

/// The offers that a pool takes: those made closest to its address.
pub open spec fn chosen_offers(
    valid: Seq<(PeerId, MerkleCandidate)>,
    address: Seq<u8>,
) -> Seq<(PeerId, MerkleCandidate)> {
    stable_sort(valid, candidate_distance(address)).take(CANDIDATES_PER_POOL as int)
}

/// The offers for one pool, as they come in.
pub struct CandidateCollector {
    /// The payment time that offers have to be for.
    pub merkle_payment_timestamp: u64,
    /// The valid offers and who made them.
    pub valid: Vec<(PeerId, MerkleCandidate)>,
    pub failures: Vec<String>,
}

impl CandidateCollector {
    pub fn new(merkle_payment_timestamp: u64) -> (r: CandidateCollector)
        ensures
            r.merkle_payment_timestamp == merkle_payment_timestamp,
            r.valid@.len() == 0,
            r.failures@.len() == 0,
    {
        CandidateCollector { merkle_payment_timestamp, valid: Vec::new(), failures: Vec::new() }
    }

    /// Takes the response of one peer into account: an offer counts where its
    /// signature holds and it is for the payment time.
    pub fn record(&mut self, peer_id: PeerId, result: Result<MerkleCandidate, Error>)
        ensures
            final(self).merkle_payment_timestamp == old(self).merkle_payment_timestamp,
            match objection(result, old(self).merkle_payment_timestamp) {
                None => {
                    &&& final(self).valid@ == old(self).valid@.push((peer_id, result->Ok_0))
                    &&& final(self).failures@ == old(self).failures@
                },
                Some(text) => {
                    &&& final(self).valid@ == old(self).valid@
                    &&& texts(final(self).failures@) == texts(old(self).failures@).push(
                        hex_text(peer_id@) + ": "@ + text,
                    )
                },
            },
    {
        let mut line = peer_id.to_hex();
        line.append(": ");
        let ghost before = self.failures@;
        match result {
            Ok(candidate) => {
                if !check_signature(&candidate) {
                    line.append("invalid signature");
                } else if candidate.merkle_payment_timestamp != self.merkle_payment_timestamp {
                    line.append("timestamp mismatch");
                } else {
                    self.valid.push((peer_id, candidate));
                    return;
                }
            },
            Err(e) => {
                line.append(e.message().as_str());
            },
        }
        let ghost text = line@;
        self.failures.push(line);
        assert(texts(self.failures@) =~= texts(before).push(text));
    }

    /// The candidates of the pool: of the valid offers the
    /// `CANDIDATES_PER_POOL` made closest to the pool's address. A storing node
    /// accepts a pool by the peers that it finds near that address itself, so
    /// speed of response plays no part.
    pub fn finish(self, target_address: &[u8; 32]) -> (r: Result<Vec<MerkleCandidate>, Error>)
        ensures
            r is Ok <==> self.valid@.len() >= CANDIDATES_PER_POOL,
            r matches Ok(list) ==> list@ == chosen_offers(
                self.valid@,
                target_address@,
            ).map_values(|c: (PeerId, MerkleCandidate)| c.1),
            match r {
                Ok(list) => list@ == stable_sort(
                    self.valid@,
                    candidate_distance(target_address@),
                ).take(CANDIDATES_PER_POOL as int).map_values(
                    |c: (PeerId, MerkleCandidate)| c.1,
                ),
                Err(e) => e matches Error::InsufficientPeers(m) && m@ == "Got "@ + decimal_text(
                    self.valid@.len(),
                ) + " merkle candidates, need "@ + decimal_text(CANDIDATES_PER_POOL as nat)
                    + ". Failures: ["@ + joined_items(texts(self.failures@), "; "@) + "]"@,
            },
    {
        if self.valid.len() < CANDIDATES_PER_POOL {
            let mut m = "Got ".to_owned();
            push_decimal(&mut m, self.valid.len() as u128);
            m.append(" merkle candidates, need ");
            push_decimal(&mut m, CANDIDATES_PER_POOL as u128);
            m.append(". Failures: [");
            m.append(join_items(&self.failures, "; ").as_str());
            m.append("]");
            return Err(Error::InsufficientPeers(m));
        }
        let ghost key = candidate_distance(target_address@);
        let mut keys: Vec<U256> = Vec::new();
        let mut i: usize = 0;
        while i < self.valid.len()
            invariant
                i <= self.valid.len(),
                keys.len() == i,
                key == candidate_distance(target_address@),
                forall|k: int| 0 <= k < i ==> (#[trigger] keys[k]).value() == key(self.valid[k]),
            decreases self.valid.len() - i,
        {
            keys.push(peer_distance(&self.valid[i].0, target_address));
            i = i + 1;
        }
        let ghost offers = self.valid@;
        let mut sorted = sort_by_keys(self.valid, &keys, Ghost(key));
        proof {
            stable_sort_orders_and_keeps(offers, key);
        }
        sorted.truncate(CANDIDATES_PER_POOL);
        let ghost chosen = sorted@;
        let mut list: Vec<MerkleCandidate> = Vec::new();
        let n: usize = sorted.len();
        let mut j: usize = 0;
        assert(chosen.skip(0) =~= chosen);
        while j < n
            invariant
                j <= n,
                n == chosen.len(),
                sorted@ == chosen.skip(j as int),
                list@.len() == j,
                forall|k: int| 0 <= k < j ==> #[trigger] list@[k] == chosen[k].1,
            decreases n - j,
        {
            let (_, candidate) = sorted.remove(0);
            list.push(candidate);
            assert(sorted@ =~= chosen.skip(j + 1));
            j = j + 1;
        }
        assert(list@ =~= chosen.map_values(|c: (PeerId, MerkleCandidate)| c.1));
        Ok(list)
    }
}

/// No valid offer that is left out of a pool was made closer to the pool's
/// address than one that is taken.
pub proof fn pool_takes_the_closest(
    valid: Seq<(PeerId, MerkleCandidate)>,
    address: Seq<u8>,
    taken: int,
    left_out: int,
)
    requires
        0 <= taken < CANDIDATES_PER_POOL <= left_out < valid.len(),
    ensures
        ({
            let sorted = stable_sort(valid, candidate_distance(address));
            distance(sorted[taken].0@, address) <= distance(sorted[left_out].0@, address)
        }),
        stable_sort(valid, candidate_distance(address)).to_multiset() == valid.to_multiset(),
{
    let key = candidate_distance(address);
    stable_sort_orders_and_keeps(valid, key);
    let sorted = stable_sort(valid, key);
    assert(key(sorted[taken]) <= key(sorted[left_out]));
}

/// A pool takes as many offers as it has room for, each as often as it was made, the
/// closest first; each has fewer offers closer than itself than there is room for, and
/// no offer that is left out is closer than one that is taken.
pub proof fn taken_offers_are_the_closest(
    valid: Seq<(PeerId, MerkleCandidate)>,
    address: Seq<u8>,
)
    requires
        valid.len() >= CANDIDATES_PER_POOL,
    ensures
        ({
            let c = chosen_offers(valid, address);
            &&& c.len() == CANDIDATES_PER_POOL
            &&& forall|o: (PeerId, MerkleCandidate)| #[trigger]
                c.to_multiset().count(o) <= valid.to_multiset().count(o)
            &&& forall|i: int, j: int|
                0 <= i < j < c.len() ==> distance((#[trigger] c[i]).0@, address) <= distance(
                    (#[trigger] c[j]).0@,
                    address,
                )
            &&& forall|i: int|
                #![trigger c[i]]
                0 <= i < c.len() ==> valid.filter(
                    |o: (PeerId, MerkleCandidate)| distance(o.0@, address) < distance(
                        c[i].0@,
                        address,
                    ),
                ).len() <= i
            &&& forall|o: (PeerId, MerkleCandidate), i: int|
                #![trigger valid.to_multiset().count(o), c[i]]
                c.to_multiset().count(o) < valid.to_multiset().count(o) && 0 <= i < c.len()
                    ==> distance(c[i].0@, address) <= distance(o.0@, address)
        }),
{
    broadcast use vstd::seq_lib::group_to_multiset_ensures;

    let key = candidate_distance(address);
    let sorted = stable_sort(valid, key);
    stable_sort_orders_and_keeps(valid, key);
    let c = chosen_offers(valid, address);
    let rest = sorted.skip(c.len() as int);
    assert(sorted =~= c + rest);
    vstd::seq_lib::lemma_multiset_commutative(c, rest);
    assert forall|o: (PeerId, MerkleCandidate)| #[trigger]
        c.to_multiset().count(o) <= valid.to_multiset().count(o) by {
        assert(valid.to_multiset().count(o) == c.to_multiset().count(o)
            + rest.to_multiset().count(o));
    }
    assert forall|i: int, j: int| 0 <= i < j < c.len() implies distance(
        (#[trigger] c[i]).0@,
        address,
    ) <= distance((#[trigger] c[j]).0@, address) by {
        assert(key(sorted[i]) <= key(sorted[j]));
    }
    assert forall|i: int| #![trigger c[i]] 0 <= i < c.len() implies valid.filter(
        |o: (PeerId, MerkleCandidate)| distance(o.0@, address) < distance(c[i].0@, address),
    ).len() <= i by {
        sorted_place_is_the_rank(valid, key, i);
        assert(sorted[i] == c[i]);
        assert((|o: (PeerId, MerkleCandidate)| key(o) < key(sorted[i]))
            =~= (|o: (PeerId, MerkleCandidate)| distance(o.0@, address) < distance(
            c[i].0@,
            address,
        )));
    }
    assert forall|o: (PeerId, MerkleCandidate), i: int|
        #![trigger valid.to_multiset().count(o), c[i]]
        c.to_multiset().count(o) < valid.to_multiset().count(o) && 0 <= i < c.len() implies distance(
        c[i].0@,
        address,
    ) <= distance(o.0@, address) by {
        assert(valid.to_multiset().count(o) == c.to_multiset().count(o)
            + rest.to_multiset().count(o));
        assert(rest.contains(o));
        let k = choose|k: int| 0 <= k < rest.len() && rest[k] == o;
        assert(sorted[c.len() + k] == o);
        assert(key(sorted[i]) <= key(sorted[c.len() + k]));
    }
}

/// An offer counts exactly where its signature holds and it is for the time of the
/// payment; everything else is a failure.
pub proof fn only_sound_offers_count(result: Result<MerkleCandidate, Error>, timestamp: u64)
    ensures
        objection(result, timestamp) is None <==> (result matches Ok(c) && signature_holds(c@)
            && c@.merkle_payment_timestamp == timestamp),
{
}

/// The peers that are asked for a pool are those that were found, in their order, and
/// behind them the connected ones: everybody is there, nobody else, and no connected
/// peer is added that is there already.
pub proof fn connected_peers_fill_up(found: Seq<Seq<u8>>, connected: Seq<PeerId>)
    ensures
        ({
            let s = supplemented(found, connected);
            &&& s.len() >= found.len()
            &&& s.take(found.len() as int) == found
            &&& forall|i: int| 0 <= i < connected.len() ==> s.contains((#[trigger] connected[i])@)
            &&& forall|k: int|
                found.len() <= k < s.len() ==> exists|i: int|
                    0 <= i < connected.len() && (#[trigger] connected[i])@ == #[trigger] s[k]
            &&& forall|j: int, k: int|
                0 <= j < k < s.len() && found.len() <= k ==> #[trigger] s[j] != #[trigger] s[k]
        }),
    decreases connected.len(),
{
    let s = supplemented(found, connected);
    if connected.len() == 0 {
        assert(s.take(found.len() as int) =~= found);
    } else {
        let t = connected.drop_last();
        let n = connected.len() - 1;
        let u = supplemented(found, t);
        connected_peers_fill_up(found, t);
        assert(forall|i: int| 0 <= i < t.len() ==> t[i] == connected[i]);
        assert(s.take(found.len() as int) =~= u.take(found.len() as int));
        assert forall|i: int| 0 <= i < connected.len() implies s.contains(
            (#[trigger] connected[i])@,
        ) by {
            if i < n {
                assert(u.contains(t[i]@));
                let k = choose|k: int| 0 <= k < u.len() && u[k] == t[i]@;
                assert(s[k] == u[k]);
            } else if !u.contains(connected[n]@) {
                assert(s[u.len() as int] == connected[n]@);
            }
        }
        assert forall|k: int| found.len() <= k < s.len() implies exists|i: int|
            0 <= i < connected.len() && (#[trigger] connected[i])@ == #[trigger] s[k] by {
            if k < u.len() {
                assert(s[k] == u[k]);
                let i = choose|i: int| 0 <= i < t.len() && (#[trigger] t[i])@ == u[k];
                assert(connected[i]@ == s[k]);
            } else {
                assert(connected[n]@ == s[k]);
            }
        }
        assert forall|j: int, k: int| 0 <= j < k < s.len() && found.len() <= k implies #[trigger] s[j]
            != #[trigger] s[k] by {
            assert(s[j] == u[j]);
            if k < u.len() {
                assert(s[k] == u[k]);
            } else {
                assert(u.contains(u[j]));
            }
        }
    }
}

} // verus!
