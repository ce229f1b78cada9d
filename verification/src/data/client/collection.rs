//! Collecting the quotes of a chunk.

use vstd::prelude::*;
use vstd::string::*;

use crate::collections::{AddressMap, AddressSet};
use crate::data::client::quote::{
    binding_detail, binds, classify_quote_response, drop_quotes_with_bad_bindings, well_bound,
    StoreQuote, WitnessedQuotePeer,
};
use crate::data::client::selection::{
    best_supported, closest_quotes, is_choice, issuer_distance, pick, select_closest_quotes,
    select_witnessed_median_voter_quotes, some_supported,
};
use crate::data::error::{gives_reason, message_text, Error};
use crate::order::{
    lemma_few_in_front, lemma_many_in_front, lemma_sort_map, lemma_stable_sort_contains,
    sort_by_keys, sorted_place_is_the_rank, sorting_keeps_counts, sorting_without_one, stable_sort,
    stable_sort_orders_and_keeps,
};
use crate::protocol::{
    decoded_quote, encode_request, encoded_request, PaymentQuote, RequestBody, RequestView,
    CLOSE_GROUP_MAJORITY, CLOSE_GROUP_SIZE,
};
use crate::text::{
    decimal_text, hex_encode, hex_text, join_items, joined_items, push_decimal, texts,
};
use crate::uint256::{be_value, Amount, U256};
use crate::xor::{distance, peer_distance, peer_xor_distance, xor_bytes, PeerId};

verus! {

/// How quotes are chosen once enough have come in.
pub enum QuoteSelectionPolicy {
    /// The closest issuers.
    ClosestByDistance,
    /// The closest group whose paid issuer the group itself recognises.
    WitnessedMedianVoters { voters_by_peer: AddressMap<AddressSet> },
}

/// The last of the peers with this identity vouches with these voters.
pub open spec fn last_voters(
    peers: Seq<WitnessedQuotePeer>,
    peer: Seq<u8>,
) -> Option<Set<Seq<u8>>>
    decreases peers.len(),
{
    if peers.len() == 0 {
        None
    } else if peers.last().peer_id@ == peer {
        Some(peers.last().voters@)
    } else {
        last_voters(peers.drop_last(), peer)
    }
}

/// Parts the recognised peers into whom to ask and who vouches for whom.
pub fn split_witnessed_peers(peers: Vec<WitnessedQuotePeer>) -> (r: (
    Vec<(PeerId, Vec<ant_protocol::transport::MultiAddr>)>,
    AddressMap<AddressSet>,
))
    ensures
        r.0@ == peers@.map_values(|p: WitnessedQuotePeer| (p.peer_id, p.addrs)),
        forall|p: Seq<u8>|
            match last_voters(peers@, p) {
                Some(v) => #[trigger] r.1@.dom().contains(p) && r.1@[p]@ == v,
                None => !r.1@.dom().contains(p),
            },
{
    let ghost all = peers@;
    let mut rest = peers;
    let total: usize = rest.len();
    let mut remote: Vec<(PeerId, Vec<ant_protocol::transport::MultiAddr>)> = Vec::new();
    let mut voters: AddressMap<AddressSet> = AddressMap::new();
    let mut i: usize = 0;
    let ghost pair = |p: WitnessedQuotePeer| (p.peer_id, p.addrs);
    assert(all.skip(0) =~= all);
    assert(all.take(0) =~= Seq::empty());
    assert(remote@ =~= all.take(0).map_values(pair));
    while i < total
        invariant
            i <= total,
            total == all.len(),
            rest@ == all.skip(i as int),
            remote@ == all.take(i as int).map_values(pair),
            pair == (|p: WitnessedQuotePeer| (p.peer_id, p.addrs)),
            forall|p: Seq<u8>|
                match last_voters(all.take(i as int), p) {
                    Some(v) => #[trigger] voters@.dom().contains(p) && voters@[p]@ == v,
                    None => !voters@.dom().contains(p),
                },
        decreases total - i,
    {
        let ghost before = voters@;
        let ghost q = rest@[0];
        let WitnessedQuotePeer { peer_id, addrs, voters: own } = rest.remove(0);
        proof {
            assert(q == all[i as int]);
            assert(rest@ =~= all.skip(i + 1));
            assert(all.take(i + 1).drop_last() =~= all.take(i as int));
            assert(all.take(i + 1).last() == q);
            assert(all.take(i + 1).map_values(pair) =~= all.take(i as int).map_values(pair).push(
                (peer_id, addrs),
            ));
        }
        voters.insert(peer_id.0, own);
        remote.push((peer_id, addrs));
        proof {
            assert forall|p: Seq<u8>|
                match last_voters(all.take(i + 1), p) {
                    Some(v) => #[trigger] voters@.dom().contains(p) && voters@[p]@ == v,
                    None => !voters@.dom().contains(p),
                } by {
                assert(before.dom().contains(p) || !before.dom().contains(p));
            }
        }
        i = i + 1;
    }
    assert(all.take(i as int) =~= all);
    (remote, voters)
}

/// The error when the close group cannot be looked up.
pub fn witnessed_lookup_error(address: &[u8; 32], reason: &str) -> (r: Error)
    ensures
        r matches Error::InsufficientPeers(m) && m@
            == "Witnessed close group lookup failed before payment for target "@ + hex_text(
            address@,
        ) + ": "@ + reason@,
{
    let mut m = "Witnessed close group lookup failed before payment for target ".to_owned();
    m.append(hex_encode(address).as_str());
    m.append(": ");
    m.append(reason);
    Error::InsufficientPeers(m)
}

/// Tests that enough peers can be asked.
pub fn check_quote_peers(found: usize) -> (r: Result<(), Error>)
    ensures
        r is Ok <==> found >= CLOSE_GROUP_SIZE,
        r matches Err(e) ==> e matches Error::InsufficientPeers(m) && m@ == "Found "@
            + decimal_text(found as nat) + " peers, need "@ + decimal_text(CLOSE_GROUP_SIZE as nat),
{
    if found < CLOSE_GROUP_SIZE {
        let mut m = "Found ".to_owned();
        push_decimal(&mut m, found as u128);
        m.append(" peers, need ");
        push_decimal(&mut m, CLOSE_GROUP_SIZE as u128);
        return Err(Error::InsufficientPeers(m));
    }
    Ok(())
}

/// The wire form of a quote request. A peer whose request cannot be encoded is
/// left out.
pub fn quote_request(
    request_id: u64,
    address: &[u8; 32],
    data_size: u64,
    data_type: u32,
) -> (r: Option<Vec<u8>>)
    ensures
        ({
            let body = RequestView::Quote { address: address@, data_size, data_type };
            match r {
                Some(bytes) => encoded_request(request_id, body) == Some(bytes@),
                None => encoded_request(request_id, body) is None,
            }
        }),
{
    match encode_request(request_id, RequestBody::Quote { address: *address, data_size, data_type }) {
        Ok(bytes) => Some(bytes),
        Err(_) => None,
    }
}

/// What a peer sent back.
pub enum QuoteReply {
    /// A quote in its wire form, and whether the peer holds the chunk.
    Success { quote: Vec<u8>, already_stored: bool },
    /// The peer refused.
    Error(String),
    /// A message of another kind.
    Other,
}

/// `head`, the peer, `middle` and `tail`.
pub open spec fn about_peer(
    head: Seq<char>,
    peer: Seq<u8>,
    middle: Seq<char>,
    tail: Seq<char>,
) -> Seq<char> {
    head + hex_text(peer) + middle + tail
}

/// Builds a message about a peer.
pub(crate) fn peer_message(head: &str, peer: &PeerId, middle: &str, tail: &str) -> (r: String)
    ensures
        r@ == about_peer(head@, peer@, middle@, tail@),
{
    let mut m = head.to_owned();
    m.append(peer.to_hex().as_str());
    m.append(middle);
    m.append(tail);
    m
}

/// What a peer's reply to a quote request counts as; nothing for a message of
/// another kind.
pub fn interpret_quote_reply(peer_id: &PeerId, reply: QuoteReply) -> (r: Option<
    Result<(PaymentQuote, Amount), Error>,
>)
    ensures
        match reply {
            QuoteReply::Other => r is None,
            QuoteReply::Error(e) => r matches Some(Err(Error::Protocol(m))) && m@ == about_peer(
                "Quote error from "@,
                peer_id@,
                ": "@,
                e@,
            ),
            QuoteReply::Success { quote, already_stored } => r matches Some(v)
                && match decoded_quote(quote@) {
                None => v matches Err(Error::Serialization(m)) && gives_reason(
                    m@,
                    "Failed to deserialize quote from "@ + hex_text(peer_id@) + ": "@,
                ),
                Some(q) => if !binds(peer_id@, q.pub_key) {
                    v matches Err(Error::BadQuoteBinding { peer_id: p, detail }) && p@ == hex_text(
                        peer_id@,
                    ) && detail@ == binding_detail(q.pub_key)
                } else if already_stored {
                    v matches Err(Error::AlreadyStored)
                } else {
                    v matches Ok((got, price)) && got@ == q && price.value() == q.price && got.timely()
                },
            },
        },
{
    match reply {
        QuoteReply::Other => None,
        QuoteReply::Error(e) => Some(
            Err(Error::Protocol(peer_message("Quote error from ", peer_id, ": ", e.as_str()))),
        ),
        QuoteReply::Success { quote, already_stored } => Some(
            classify_quote_response(peer_id, quote.as_slice(), already_stored),
        ),
    }
}

/// The error when a quote request cannot be sent.
pub fn quote_send_error(peer_id: &PeerId, reason: &str) -> (r: Error)
    ensures
        r matches Error::Network(m) && m@ == about_peer(
            "Failed to send quote request to "@,
            peer_id@,
            ": "@,
            reason@,
        ),
{
    Error::Network(peer_message("Failed to send quote request to ", peer_id, ": ", reason))
}

/// The error when a peer does not reply in time.
pub fn quote_timeout_error(peer_id: &PeerId) -> (r: Error)
    ensures
        r matches Error::Timeout(m) && m@ == about_peer(
            "Timeout waiting for quote from "@,
            peer_id@,
            ""@,
            ""@,
        ),
{
    Error::Timeout(peer_message("Timeout waiting for quote from ", peer_id, "", ""))
}

/// The responses of the asked peers, as they come in.
pub struct QuoteCollector {
    pub quotes: Vec<StoreQuote>,
    /// Peers that hold the chunk, with their distance from its address.
    pub already_stored_peers: Vec<(PeerId, [u8; 32])>,
    pub failures: Vec<String>,
    /// How many failures were foreign keys.
    pub bad_quote_count: usize,
}

impl QuoteCollector {
    /// Foreign keys are failures.
    pub open spec fn wf(&self) -> bool {
        self.bad_quote_count <= self.failures@.len()
    }

    pub fn new() -> (r: QuoteCollector)
        ensures
            r.wf(),
            r.quotes@.len() == 0,
            r.already_stored_peers@.len() == 0,
            r.failures@.len() == 0,
            r.bad_quote_count == 0,
    {
        QuoteCollector {
            quotes: Vec::new(),
            already_stored_peers: Vec::new(),
            failures: Vec::new(),
            bad_quote_count: 0,
        }
    }

    /// Takes the response of one peer into account.
    pub fn record(
        &mut self,
        address: &[u8; 32],
        peer_id: PeerId,
        addrs: Vec<ant_protocol::transport::MultiAddr>,
        result: Result<(PaymentQuote, Amount), Error>,
    )
        requires
            old(self).wf(),
        ensures
            final(self).wf(),
            match result {
                Ok((quote, price)) => {
                    &&& final(self).quotes@ == old(self).quotes@.push(
                        (peer_id, addrs, quote, price),
                    )
                    &&& final(self).already_stored_peers@ == old(self).already_stored_peers@
                    &&& final(self).failures@ == old(self).failures@
                    &&& final(self).bad_quote_count == old(self).bad_quote_count
                },
                Err(Error::AlreadyStored) => {
                    &&& final(self).quotes@ == old(self).quotes@
                    &&& final(self).already_stored_peers@.len() == old(
                        self,
                    ).already_stored_peers@.len() + 1
                    &&& final(self).already_stored_peers@.drop_last() == old(
                        self,
                    ).already_stored_peers@
                    &&& final(self).already_stored_peers@.last().0 == peer_id
                    &&& final(self).already_stored_peers@.last().1@ == xor_bytes(
                        peer_id@,
                        address@,
                    )
                    &&& final(self).failures@ == old(self).failures@
                    &&& final(self).bad_quote_count == old(self).bad_quote_count
                },
                Err(e) => {
                    &&& final(self).quotes@ == old(self).quotes@
                    &&& final(self).already_stored_peers@ == old(self).already_stored_peers@
                    &&& texts(final(self).failures@) == texts(old(self).failures@).push(
                        hex_text(peer_id@) + ": "@ + message_text(e),
                    )
                    &&& final(self).bad_quote_count == old(self).bad_quote_count + if e is BadQuoteBinding {
                        1int
                    } else {
                        0int
                    }
                },
            },
    {
        match result {
            Ok((quote, price)) => {
                self.quotes.push((peer_id, addrs, quote, price));
            },
            Err(Error::AlreadyStored) => {
                let dist = peer_xor_distance(&peer_id, address);
                let ghost before = self.already_stored_peers@;
                self.already_stored_peers.push((peer_id, dist));
                assert(self.already_stored_peers@.drop_last() =~= before);
            },
            Err(e) => {
                let mut line = peer_id.to_hex();
                line.append(": ");
                line.append(e.message().as_str());
                let bad = match &e {
                    Error::BadQuoteBinding { .. } => true,
                    _ => false,
                };
                let ghost before = self.failures@;
                let ghost text = line@;
                self.failures.push(line);
                assert(texts(self.failures@) =~= texts(before).push(text));
                let count: usize = self.failures.len();
                assert(self.bad_quote_count < count);
                if bad {
                    self.bad_quote_count = self.bad_quote_count + 1;
                }
            },
        }
    }
}

/// Whether each responder holds the chunk, and its distance: first those that
/// quoted, then those that hold it.
pub open spec fn stored_votes(
    quotes: Seq<StoreQuote>,
    stored: Seq<(PeerId, [u8; 32])>,
    address: Seq<u8>,
) -> Seq<(bool, nat)> {
    quotes.map_values(|q: StoreQuote| (false, distance(q.0@, address))) + stored.map_values(
        |s: (PeerId, [u8; 32])| (true, be_value(s.1@)),
    )
}

/// Number of true flags.
pub open spec fn count_true(votes: Seq<(bool, nat)>) -> nat
    decreases votes.len(),
{
    if votes.len() == 0 {
        0
    } else {
        count_true(votes.drop_last()) + if votes.last().0 {
            1nat
        } else {
            0nat
        }
    }
}

/// Distance of a vote.
pub open spec fn vote_key() -> spec_fn((bool, nat)) -> nat {
    |v: (bool, nat)| v.1
}

/// How many of the closest responders, one close group of them, hold the chunk.
pub open spec fn close_group_stored(
    quotes: Seq<StoreQuote>,
    stored: Seq<(PeerId, [u8; 32])>,
    address: Seq<u8>,
) -> nat {
    let sorted = stable_sort(stored_votes(quotes, stored, address), vote_key());
    count_true(
        if sorted.len() <= CLOSE_GROUP_SIZE {
            sorted
        } else {
            sorted.take(CLOSE_GROUP_SIZE as int)
        },
    )
}

/// Counts the closest responders that hold the chunk.
pub fn count_close_group_stored(
    quotes: &Vec<StoreQuote>,
    stored: &Vec<(PeerId, [u8; 32])>,
    address: &[u8; 32],
) -> (r: usize)
    ensures
        r == close_group_stored(quotes@, stored@, address@),
{
    let ghost votes = stored_votes(quotes@, stored@, address@);
    let ghost plain = |e: (bool, U256)| (e.0, e.1.value());
    let ghost key = |e: (bool, U256)| e.1.value();
    let mut entries: Vec<(bool, U256)> = Vec::new();
    let mut keys: Vec<U256> = Vec::new();
    let mut i: usize = 0;
    while i < quotes.len()
        invariant
            i <= quotes.len(),
            plain == (|e: (bool, U256)| (e.0, e.1.value())),
            key == (|e: (bool, U256)| e.1.value()),
            votes == stored_votes(quotes@, stored@, address@),
            entries.len() == i,
            keys.len() == i,
            forall|k: int| 0 <= k < i ==> plain(#[trigger] entries[k]) == votes[k],
            forall|k: int| 0 <= k < i ==> (#[trigger] keys[k]).value() == key(entries[k]),
        decreases quotes.len() - i,
    {
        let d = peer_distance(&quotes[i].0, address);
        entries.push((false, d));
        keys.push(d);
        i = i + 1;
    }
    let first: usize = quotes.len();
    let mut j: usize = 0;
    while j < stored.len()
        invariant
            j <= stored.len(),
            first == quotes.len(),
            plain == (|e: (bool, U256)| (e.0, e.1.value())),
            key == (|e: (bool, U256)| e.1.value()),
            votes == stored_votes(quotes@, stored@, address@),
            entries.len() == first + j,
            keys.len() == first + j,
            forall|k: int| 0 <= k < entries.len() ==> plain(#[trigger] entries[k]) == votes[k],
            forall|k: int| 0 <= k < entries.len() ==> (#[trigger] keys[k]).value() == key(
                entries[k],
            ),
        decreases stored.len() - j,
    {
        let d = U256::from_be_bytes(&stored[j].1);
        entries.push((true, d));
        keys.push(d);
        assert(votes[first + j] == (true, be_value(stored@[j as int].1@)));
        j = j + 1;
    }
    let ghost raw = entries@;
    let sorted = sort_by_keys(entries, &keys, Ghost(key));
    proof {
        assert(raw.map_values(plain) =~= votes);
        lemma_sort_map(raw, plain, key, vote_key());
        stable_sort_orders_and_keeps(raw, key);
    }
    let ghost ranked = stable_sort(votes, vote_key());
    let limit: usize = if sorted.len() < CLOSE_GROUP_SIZE {
        sorted.len()
    } else {
        CLOSE_GROUP_SIZE
    };
    let mut n: usize = 0;
    let mut m: usize = 0;
    assert(ranked.take(0) =~= Seq::empty());
    while m < limit
        invariant
            m <= limit,
            n <= m,
            limit <= sorted.len(),
            plain == (|e: (bool, U256)| (e.0, e.1.value())),
            sorted@.map_values(plain) == ranked,
            n == count_true(ranked.take(m as int)),
        decreases limit - m,
    {
        proof {
            assert(ranked.take(m + 1).drop_last() =~= ranked.take(m as int));
            assert(ranked[m as int] == plain(sorted@[m as int]));
        }
        if sorted[m].0 {
            n = n + 1;
        }
        m = m + 1;
    }
    proof {
        assert(ranked.len() == sorted@.len());
        if sorted.len() <= CLOSE_GROUP_SIZE {
            assert(ranked.take(limit as int) =~= ranked);
        }
    }
    n
}

/// The tail of the message when quotes are short: what came in instead.
pub open spec fn response_text(
    total: nat,
    already_stored: nat,
    failed: nat,
    bad: nat,
    failures: Seq<Seq<char>>,
) -> Seq<char> {
    decimal_text(total) + " responses: "@ + decimal_text(already_stored) + " already_stored, "@
        + decimal_text(failed) + " failed including "@ + decimal_text(bad)
        + " with mismatched peer bindings). Failures: ["@ + joined_items(failures, "; "@) + "]"@
}

/// The message when too few quotes came in.
pub open spec fn too_few_text(quotes: nat, tail: Seq<char>) -> Seq<char> {
    "Got "@ + decimal_text(quotes) + " quotes, need "@ + decimal_text(CLOSE_GROUP_SIZE as nat)
        + " ("@ + tail
}

/// The message when no close group of the quotes is supported.
pub open spec fn unsupported_text(quotes: nat, tail: Seq<char>) -> Seq<char> {
    "Got "@ + decimal_text(quotes) + " quotes, need "@ + decimal_text(CLOSE_GROUP_SIZE as nat)
        + " whose paid median issuer is recognised by at least "@ + decimal_text(
        CLOSE_GROUP_MAJORITY as nat,
    ) + " selected witness peers ("@ + tail
}

/// What the collected responses amount to.
pub open spec fn collected(
    responses: QuoteCollector,
    address: Seq<u8>,
    policy: QuoteSelectionPolicy,
    r: Result<Vec<StoreQuote>, Error>,
) -> bool {
    let kept = responses.quotes@.filter(well_bound());
    let stored = responses.already_stored_peers@;
    let failed = responses.failures@.len();
    let tail = response_text(
        kept.len() + failed + stored.len(),
        stored.len(),
        failed,
        (responses.bad_quote_count + (responses.quotes@.len() - kept.len())) as nat,
        texts(responses.failures@),
    );
    let sorted = stable_sort(kept, issuer_distance(address));
    if stored.len() > 0 && close_group_stored(kept, stored, address) >= CLOSE_GROUP_MAJORITY {
        r matches Err(Error::AlreadyStored)
    } else if kept.len() < CLOSE_GROUP_SIZE {
        r matches Err(Error::InsufficientPeers(m)) && m@ == too_few_text(kept.len(), tail)
    } else {
        match policy {
            QuoteSelectionPolicy::ClosestByDistance => r matches Ok(selected) && selected@
                == closest_quotes(kept, address),
            QuoteSelectionPolicy::WitnessedMedianVoters { voters_by_peer } => match r {
                Ok(selected) => best_supported(selected@, sorted, voters_by_peer@),
                Err(Error::InsufficientPeers(m)) => !some_supported(sorted, voters_by_peer@) && m@
                    == unsupported_text(kept.len(), tail),
                Err(_) => false,
            },
        }
    }
}

impl QuoteCollector {
    /// What the collected responses amount to, once all have come in or the
    /// time is up: the chosen quotes, or that the chunk is stored, or that the
    /// quotes do not suffice.
    pub fn finish(self, address: &[u8; 32], policy: QuoteSelectionPolicy) -> (r: Result<
        Vec<StoreQuote>,
        Error,
    >)
        requires
            self.wf(),
            self.quotes@.len() + self.failures@.len() + self.already_stored_peers@.len()
                <= usize::MAX,
        ensures
            collected(self, address@, policy, r),
    {
        let ghost responses = self;
        let QuoteCollector {
            quotes: mut quotes,
            already_stored_peers,
            failures,
            bad_quote_count: seen_bad,
        } = self;
        let dropped: usize = drop_quotes_with_bad_bindings(&mut quotes);
        let bad: usize = seen_bad + dropped;
        let ghost kept = responses.quotes@.filter(well_bound());
        let ghost stored = responses.already_stored_peers@;
        if already_stored_peers.len() > 0 {
            let n: usize = count_close_group_stored(&quotes, &already_stored_peers, address);
            if n >= CLOSE_GROUP_MAJORITY {
                return Err(Error::AlreadyStored);
            }
        }
        let quote_count: usize = quotes.len();
        let failure_count: usize = failures.len();
        let stored_count: usize = already_stored_peers.len();
        let total: usize = quote_count + failure_count + stored_count;
        let mut tail = String::new();
        push_decimal(&mut tail, total as u128);
        tail.append(" responses: ");
        push_decimal(&mut tail, stored_count as u128);
        tail.append(" already_stored, ");
        push_decimal(&mut tail, failure_count as u128);
        tail.append(" failed including ");
        push_decimal(&mut tail, bad as u128);
        tail.append(" with mismatched peer bindings). Failures: [");
        tail.append(join_items(&failures, "; ").as_str());
        tail.append("]");
        proof {
            assert(tail@ =~= response_text(
                kept.len() + responses.failures@.len() + stored.len(),
                stored.len(),
                responses.failures@.len(),
                (responses.bad_quote_count + (responses.quotes@.len() - kept.len())) as nat,
                texts(responses.failures@),
            ));
        }
        let mut m = "Got ".to_owned();
        push_decimal(&mut m, quote_count as u128);
        m.append(" quotes, need ");
        push_decimal(&mut m, CLOSE_GROUP_SIZE as u128);
        if quote_count < CLOSE_GROUP_SIZE {
            m.append(" (");
            m.append(tail.as_str());
            return Err(Error::InsufficientPeers(m));
        }
        match policy {
            QuoteSelectionPolicy::ClosestByDistance => Ok(select_closest_quotes(quotes, address)),
            QuoteSelectionPolicy::WitnessedMedianVoters { voters_by_peer } => {
                match select_witnessed_median_voter_quotes(quotes, address, &voters_by_peer) {
                    Some(selected) => Ok(selected),
                    None => {
                        m.append(" whose paid median issuer is recognised by at least ");
                        push_decimal(&mut m, CLOSE_GROUP_MAJORITY as u128);
                        m.append(" selected witness peers (");
                        m.append(tail.as_str());
                        Err(Error::InsufficientPeers(m))
                    },
                }
            },
        }
    }
}

/// A successful collection hands out exactly one close group of quotes, and
/// every one of them carries the key of the peer that issued it.
pub proof fn collected_quotes_are_bound(
    responses: QuoteCollector,
    address: Seq<u8>,
    policy: QuoteSelectionPolicy,
    selected: Vec<StoreQuote>,
)
    requires
        collected(responses, address, policy, Ok(selected)),
    ensures
        selected@.len() == CLOSE_GROUP_SIZE,
        forall|i: int|
            0 <= i < selected@.len() ==> binds(
                (#[trigger] selected@[i]).0@,
                selected@[i].2.pub_key@,
            ),
{
    let kept = responses.quotes@.filter(well_bound());
    let key = issuer_distance(address);
    let sorted = stable_sort(kept, key);
    stable_sort_orders_and_keeps(kept, key);
    assert forall|i: int| 0 <= i < sorted.len() implies well_bound()(#[trigger] sorted[i]) by {
        assert(sorted.contains(sorted[i]));
        lemma_stable_sort_contains(kept, key, sorted[i]);
        let k = choose|k: int| 0 <= k < kept.len() && kept[k] == sorted[i];
        responses.quotes@.lemma_filter_pred(well_bound(), k);
    }
    match policy {
        QuoteSelectionPolicy::ClosestByDistance => {
            assert forall|i: int| 0 <= i < selected@.len() implies binds(
                (#[trigger] selected@[i]).0@,
                selected@[i].2.pub_key@,
            ) by {
                assert(selected@[i] == sorted[i]);
                assert(well_bound()(sorted[i]));
            }
        },
        QuoteSelectionPolicy::WitnessedMedianVoters { voters_by_peer } => {
            let s = choose|s: Seq<usize>|
                #[trigger] is_choice(sorted.len() as int, CLOSE_GROUP_SIZE as int, s) && selected@
                    == pick(sorted, s);
            assert forall|i: int| 0 <= i < selected@.len() implies binds(
                (#[trigger] selected@[i]).0@,
                selected@[i].2.pub_key@,
            ) by {
                assert(s[i] < sorted.len());
                assert(selected@[i] == sorted[s[i] as int]);
                assert(well_bound()(sorted[s[i] as int]));
            }
        },
    }
}

proof fn lemma_count_true(votes: Seq<(bool, nat)>)
    ensures
        count_true(votes) == votes.filter(|v: (bool, nat)| v.0).len(),
    decreases votes.len(),
{
    broadcast use Seq::lemma_filter_len_push;

    if votes.len() > 0 {
        lemma_count_true(votes.drop_last());
        assert(votes =~= votes.drop_last().push(votes.last()));
    }
}

proof fn lemma_mapped_count<A, B>(
    s: Seq<A>,
    f: spec_fn(A) -> B,
    p: spec_fn(A) -> bool,
    q: spec_fn(B) -> bool,
)
    requires
        forall|a: A| p(a) == q(#[trigger] f(a)),
    ensures
        s.map_values(f).filter(q).len() == s.filter(p).len(),
    decreases s.len(),
{
    broadcast use Seq::lemma_filter_len_push;

    if s.len() > 0 {
        let t = s.drop_last();
        lemma_mapped_count(t, f, p, q);
        assert(s =~= t.push(s.last()));
        assert(s.map_values(f) =~= t.map_values(f).push(f(s.last())));
        assert(p(s.last()) == q(f(s.last())));
    }
}

/// How many responders have a property: of those that quoted, and of those that
/// hold the chunk.
proof fn lemma_votes_count(
    quotes: Seq<StoreQuote>,
    stored: Seq<(PeerId, [u8; 32])>,
    address: Seq<u8>,
    q: spec_fn((bool, nat)) -> bool,
)
    ensures
        stored_votes(quotes, stored, address).filter(q).len() == quotes.filter(
            |x: StoreQuote| q((false, distance(x.0@, address))),
        ).len() + stored.filter(|x: (PeerId, [u8; 32])| q((true, be_value(x.1@)))).len(),
{
    let f = |x: StoreQuote| (false, distance(x.0@, address));
    let g = |s: (PeerId, [u8; 32])| (true, be_value(s.1@));
    lemma_mapped_count(quotes, f, |x: StoreQuote| q((false, distance(x.0@, address))), q);
    lemma_mapped_count(stored, g, |x: (PeerId, [u8; 32])| q((true, be_value(x.1@))), q);
    Seq::filter_distributes_over_add(quotes.map_values(f), stored.map_values(g), q);
}

/// No more responders have a vote than make up a close group, and no more are
/// counted than hold the chunk. Where all responders fit into a close group, all
/// holders are counted.
pub proof fn only_a_close_group_votes(
    quotes: Seq<StoreQuote>,
    stored: Seq<(PeerId, [u8; 32])>,
    address: Seq<u8>,
)
    ensures
        close_group_stored(quotes, stored, address) <= CLOSE_GROUP_SIZE,
        close_group_stored(quotes, stored, address) <= stored.len(),
        quotes.len() + stored.len() <= CLOSE_GROUP_SIZE ==> close_group_stored(
            quotes,
            stored,
            address,
        ) == stored.len(),
{
    broadcast use Seq::lemma_filter_len;

    let votes = stored_votes(quotes, stored, address);
    let sorted = stable_sort(votes, vote_key());
    stable_sort_orders_and_keeps(votes, vote_key());
    let holds = |v: (bool, nat)| v.0;
    let top = if sorted.len() <= CLOSE_GROUP_SIZE {
        sorted
    } else {
        sorted.take(CLOSE_GROUP_SIZE as int)
    };
    let rest = sorted.skip(top.len() as int);
    lemma_count_true(top);
    assert(sorted =~= top + rest);
    Seq::filter_distributes_over_add(top, rest, holds);
    sorting_keeps_counts(votes, vote_key(), holds);
    lemma_votes_count(quotes, stored, address, holds);
    let none = |x: StoreQuote| holds((false, distance(x.0@, address)));
    let all = |x: (PeerId, [u8; 32])| holds((true, be_value(x.1@)));
    lemma_few_in_front(quotes, none, 0);
    lemma_many_in_front(stored, all, stored.len() as int);
    if sorted.len() <= CLOSE_GROUP_SIZE {
        lemma_few_in_front(rest, holds, 0);
    }
}

/// A holder that has a close group of responders closer to the address than itself
/// has no vote: without it the count is the same.
pub proof fn far_holder_has_no_vote(
    quotes: Seq<StoreQuote>,
    stored: Seq<(PeerId, [u8; 32])>,
    address: Seq<u8>,
    i: int,
)
    requires
        0 <= i < stored.len(),
        forall|k: int|
            0 <= k < stored.len() ==> (#[trigger] stored[k]).1@ == xor_bytes(
                stored[k].0@,
                address,
            ),
        quotes.filter(
            |q: StoreQuote| distance(q.0@, address) < distance(stored[i].0@, address),
        ).len() + stored.filter(
            |h: (PeerId, [u8; 32])| distance(h.0@, address) < distance(stored[i].0@, address),
        ).len() >= CLOSE_GROUP_SIZE,
    ensures
        close_group_stored(quotes, stored, address) == close_group_stored(
            quotes,
            stored.remove(i),
            address,
        ),
{
    let votes = stored_votes(quotes, stored, address);
    let less = stored_votes(quotes, stored.remove(i), address);
    let at = quotes.len() + i;
    let d = distance(stored[i].0@, address);
    let key = vote_key();
    assert(less =~= votes.remove(at as int));
    let sorted = stable_sort(votes, key);
    stable_sort_orders_and_keeps(votes, key);
    let p = sorting_without_one(votes, key, at as int);
    assert(votes[at as int] == (true, d));
    let below = |v: (bool, nat)| key(v) < key(sorted[p]);
    sorted_place_is_the_rank(votes, key, p);
    lemma_votes_count(quotes, stored, address, below);
    let near = |q: StoreQuote| distance(q.0@, address) < d;
    let near_too = |h: (PeerId, [u8; 32])| distance(h.0@, address) < d;
    assert(near =~= |x: StoreQuote| below((false, distance(x.0@, address))));
    let by_bytes = |x: (PeerId, [u8; 32])| below((true, be_value(x.1@)));
    lemma_same_filter(stored, near_too, by_bytes);
    assert(p >= CLOSE_GROUP_SIZE);
    assert(sorted.remove(p).take(CLOSE_GROUP_SIZE as int) =~= sorted.take(CLOSE_GROUP_SIZE as int));
    if sorted.len() - 1 == CLOSE_GROUP_SIZE {
        assert(sorted.remove(p) =~= sorted.take(CLOSE_GROUP_SIZE as int));
    }
}

proof fn lemma_same_filter<T>(s: Seq<T>, f: spec_fn(T) -> bool, g: spec_fn(T) -> bool)
    requires
        forall|i: int| 0 <= i < s.len() ==> f(#[trigger] s[i]) == g(s[i]),
    ensures
        s.filter(f) == s.filter(g),
    decreases s.len(),
{
    if s.len() > 0 {
        let t = s.drop_last();
        assert(forall|i: int| 0 <= i < t.len() ==> t[i] == s[i]);
        assert(s[s.len() - 1] == s.last());
        lemma_same_filter(t, f, g);
        reveal(Seq::filter);
    }
}

/// Where a close group of those that quoted is at least as close as any holder, no
/// holder is counted: the chunk does not count as stored, and with enough quotes
/// the closest ones are handed out.
pub proof fn quoting_close_group_has_to_be_paid(
    quotes: Seq<StoreQuote>,
    stored: Seq<(PeerId, [u8; 32])>,
    address: Seq<u8>,
)
    requires
        forall|k: int|
            0 <= k < stored.len() ==> (#[trigger] stored[k]).1@ == xor_bytes(
                stored[k].0@,
                address,
            ),
        forall|k: int|
            #![trigger stored[k]]
            0 <= k < stored.len() ==> quotes.filter(
                |q: StoreQuote| distance(q.0@, address) < distance(stored[k].0@, address),
            ).len() >= CLOSE_GROUP_SIZE,
    ensures
        close_group_stored(quotes, stored, address) == 0,
    decreases stored.len(),
{
    if stored.len() == 0 {
        only_a_close_group_votes(quotes, stored, address);
    } else {
        let less = stored.remove(0);
        assert forall|k: int| 0 <= k < less.len() implies #[trigger] less[k] == stored[k + 1] by {}
        assert(stored[0] == stored[0]);
        far_holder_has_no_vote(quotes, stored, address, 0);
        quoting_close_group_has_to_be_paid(quotes, less, address);
    }
}

/// Among responders at different distances exactly those holders are counted that
/// have fewer than a close group of responders closer than themselves.
pub proof fn close_holders_are_counted(
    quotes: Seq<StoreQuote>,
    stored: Seq<(PeerId, [u8; 32])>,
    address: Seq<u8>,
)
    requires
        forall|k: int|
            0 <= k < stored.len() ==> (#[trigger] stored[k]).1@ == xor_bytes(
                stored[k].0@,
                address,
            ),
        forall|i: int, j: int|
            0 <= i < j < quotes.len() ==> distance((#[trigger] quotes[i]).0@, address) != distance(
                (#[trigger] quotes[j]).0@,
                address,
            ),
        forall|i: int, j: int|
            0 <= i < j < stored.len() ==> distance((#[trigger] stored[i]).0@, address) != distance(
                (#[trigger] stored[j]).0@,
                address,
            ),
        forall|i: int, j: int|
            0 <= i < quotes.len() && 0 <= j < stored.len() ==> distance(
                (#[trigger] quotes[i]).0@,
                address,
            ) != distance((#[trigger] stored[j]).0@, address),
    ensures
        close_group_stored(quotes, stored, address) == stored.filter(
            |h: (PeerId, [u8; 32])|
                quotes.filter(
                    |q: StoreQuote| distance(q.0@, address) < distance(h.0@, address),
                ).len() + stored.filter(
                    |o: (PeerId, [u8; 32])| distance(o.0@, address) < distance(h.0@, address),
                ).len() < CLOSE_GROUP_SIZE,
        ).len(),
{
    let votes = stored_votes(quotes, stored, address);
    let key = vote_key();
    let sorted = stable_sort(votes, key);
    let n = sorted.len() as int;
    stable_sort_orders_and_keeps(votes, key);
    let k = if n <= CLOSE_GROUP_SIZE {
        n
    } else {
        CLOSE_GROUP_SIZE as int
    };
    let top = sorted.take(k);
    let rest = sorted.skip(k);
    if n <= CLOSE_GROUP_SIZE {
        assert(top =~= sorted);
    }
    lemma_count_true(top);
    let holds = |v: (bool, nat)| v.0;
    let rank = |v: (bool, nat)| votes.filter(|w: (bool, nat)| key(w) < key(v)).len();
    let counted = |v: (bool, nat)| v.0 && rank(v) < CLOSE_GROUP_SIZE;
    assert forall|i: int, j: int| 0 <= i < j < votes.len() implies (#[trigger] votes[i]).1 != (
    #[trigger] votes[j]).1 by {
        let m = quotes.len() as int;
        if i < m {
            assert(votes[i].1 == distance(quotes[i].0@, address));
        } else {
            assert(votes[i].1 == distance(stored[i - m].0@, address));
        }
        if j < m {
            assert(votes[j].1 == distance(quotes[j].0@, address));
        } else {
            assert(votes[j].1 == distance(stored[j - m].0@, address));
        }
    }
    lemma_sorted_strictly(votes);
    assert forall|p: int| 0 <= p < n implies #[trigger] rank(sorted[p]) == p by {
        let below = |w: (bool, nat)| key(w) < key(sorted[p]);
        sorting_keeps_counts(votes, key, below);
        lemma_few_in_front(sorted, below, p);
        lemma_many_in_front(sorted, below, p);
    }
    lemma_same_filter(top, holds, counted);
    assert forall|p: int| 0 <= p < rest.len() implies !counted(#[trigger] rest[p]) by {
        assert(rest[p] == sorted[k + p]);
        assert(rank(sorted[k + p]) == k + p);
    }
    lemma_few_in_front(rest, counted, 0);
    assert(sorted =~= top + rest);
    Seq::filter_distributes_over_add(top, rest, counted);
    sorting_keeps_counts(votes, key, counted);
    lemma_votes_count(quotes, stored, address, counted);
    lemma_few_in_front(quotes, |x: StoreQuote| counted((false, distance(x.0@, address))), 0);
    let stated = |h: (PeerId, [u8; 32])|
        quotes.filter(|q: StoreQuote| distance(q.0@, address) < distance(h.0@, address)).len()
            + stored.filter(
            |o: (PeerId, [u8; 32])| distance(o.0@, address) < distance(h.0@, address),
        ).len() < CLOSE_GROUP_SIZE;
    let by_rank = |x: (PeerId, [u8; 32])| counted((true, be_value(x.1@)));
    assert forall|i: int| 0 <= i < stored.len() implies stated(#[trigger] stored[i]) == by_rank(
        stored[i],
    ) by {
        let h = stored[i];
        let d = distance(h.0@, address);
        let v = (true, be_value(h.1@));
        let below = |w: (bool, nat)| key(w) < key(v);
        lemma_votes_count(quotes, stored, address, below);
        assert((|q: StoreQuote| distance(q.0@, address) < d)
            =~= (|x: StoreQuote| below((false, distance(x.0@, address)))));
        lemma_same_filter(
            stored,
            |o: (PeerId, [u8; 32])| distance(o.0@, address) < d,
            |x: (PeerId, [u8; 32])| below((true, be_value(x.1@))),
        );
    }
    lemma_same_filter(stored, stated, by_rank);
}

proof fn lemma_sorted_strictly(votes: Seq<(bool, nat)>)
    requires
        forall|i: int, j: int|
            0 <= i < j < votes.len() ==> (#[trigger] votes[i]).1 != (#[trigger] votes[j]).1,
    ensures
        forall|i: int, j: int|
            0 <= i < j < stable_sort(votes, vote_key()).len() ==> (#[trigger] stable_sort(
                votes,
                vote_key(),
            )[i]).1 < (#[trigger] stable_sort(votes, vote_key())[j]).1,
{
    let key = vote_key();
    let sorted = stable_sort(votes, key);
    stable_sort_orders_and_keeps(votes, key);
    assert forall|i: int, j: int| 0 <= i < j < sorted.len() implies (#[trigger] sorted[i]).1 < (
    #[trigger] sorted[j]).1 by {
        assert(key(sorted[i]) <= key(sorted[j]));
        let d = sorted[i].1;
        let same = |v: (bool, nat)| v.1 == d;
        sorting_keeps_counts(votes, key, same);
        if d == sorted[j].1 {
            lemma_two_of_them(sorted, same, i, j);
            lemma_at_most_one(votes, d);
            assert(same =~= |v: (bool, nat)| v.1 == d);
        }
    }
}

proof fn lemma_two_of_them<T>(s: Seq<T>, f: spec_fn(T) -> bool, i: int, j: int)
    requires
        0 <= i < j < s.len(),
        f(s[i]),
        f(s[j]),
    ensures
        s.filter(f).len() >= 2,
    decreases s.len(),
{
    broadcast use Seq::lemma_filter_len_push;

    let t = s.drop_last();
    assert(s =~= t.push(s.last()));
    if j < t.len() {
        lemma_two_of_them(t, f, i, j);
    } else {
        assert(t[i] == s[i]);
        t.lemma_filter_contains(f, i);
        assert(t.filter(f).len() >= 1);
    }
}

proof fn lemma_at_most_one(votes: Seq<(bool, nat)>, d: nat)
    requires
        forall|i: int, j: int|
            0 <= i < j < votes.len() ==> (#[trigger] votes[i]).1 != (#[trigger] votes[j]).1,
    ensures
        votes.filter(|v: (bool, nat)| v.1 == d).len() <= 1,
    decreases votes.len(),
{
    broadcast use Seq::lemma_filter_len_push;

    if votes.len() > 0 {
        let t = votes.drop_last();
        let f = |v: (bool, nat)| v.1 == d;
        assert(votes =~= t.push(votes.last()));
        assert(forall|i: int| 0 <= i < t.len() ==> t[i] == votes[i]);
        lemma_at_most_one(t, d);
        if votes.last().1 == d {
            assert forall|i: int| 0 <= i < t.len() implies !f(#[trigger] t[i]) by {
                assert(votes[i].1 != votes[votes.len() - 1].1);
            }
            lemma_few_in_front(t, f, 0);
        }
    }
}

/// What the responses amount to where a close group of well-bound quotes is closer
/// than every holder: never that the chunk is stored.
pub proof fn far_holders_do_not_settle_it(
    responses: QuoteCollector,
    address: Seq<u8>,
    policy: QuoteSelectionPolicy,
    r: Result<Vec<StoreQuote>, Error>,
)
    requires
        collected(responses, address, policy, r),
        forall|k: int|
            0 <= k < responses.already_stored_peers@.len() ==> (
            #[trigger] responses.already_stored_peers@[k]).1@ == xor_bytes(
                responses.already_stored_peers@[k].0@,
                address,
            ),
        forall|k: int|
            #![trigger responses.already_stored_peers@[k]]
            0 <= k < responses.already_stored_peers@.len() ==> responses.quotes@.filter(
                |q: StoreQuote| binds(q.0@, q.2.pub_key@),
            ).filter(
                |q: StoreQuote|
                    distance(q.0@, address) < distance(
                        responses.already_stored_peers@[k].0@,
                        address,
                    ),
            ).len() >= CLOSE_GROUP_SIZE,
    ensures
        !(r matches Err(Error::AlreadyStored)),
{
    let kept = responses.quotes@.filter(well_bound());
    assert(well_bound() =~= |q: StoreQuote| binds(q.0@, q.2.pub_key@));
    quoting_close_group_has_to_be_paid(kept, responses.already_stored_peers@, address);
}

/// Where a chunk counts as stored, more than half a close group of responders said
/// that they hold it.
pub proof fn stored_chunk_has_a_majority(
    responses: QuoteCollector,
    address: Seq<u8>,
    policy: QuoteSelectionPolicy,
    r: Result<Vec<StoreQuote>, Error>,
)
    requires
        collected(responses, address, policy, r),
        r matches Err(Error::AlreadyStored),
    ensures
        2 * responses.already_stored_peers@.len() > CLOSE_GROUP_SIZE,
{
    let kept = responses.quotes@.filter(well_bound());
    only_a_close_group_votes(kept, responses.already_stored_peers@, address);
}

/// Where the close group itself answered, and more than half of it holds the chunk,
/// the chunk counts as stored.
pub proof fn holding_close_group_settles_it(
    responses: QuoteCollector,
    address: Seq<u8>,
    policy: QuoteSelectionPolicy,
    r: Result<Vec<StoreQuote>, Error>,
)
    requires
        collected(responses, address, policy, r),
        responses.quotes@.len() + responses.already_stored_peers@.len() <= CLOSE_GROUP_SIZE,
        2 * responses.already_stored_peers@.len() > CLOSE_GROUP_SIZE,
    ensures
        r matches Err(Error::AlreadyStored),
{
    broadcast use Seq::lemma_filter_len;

    let kept = responses.quotes@.filter(well_bound());
    only_a_close_group_votes(kept, responses.already_stored_peers@, address);
}

/// Without a majority of holders enough well-bound quotes are always answered with
/// the closest ones, where the closest ones are asked for.
pub proof fn enough_quotes_are_handed_out(
    responses: QuoteCollector,
    address: Seq<u8>,
    r: Result<Vec<StoreQuote>, Error>,
)
    requires
        collected(responses, address, QuoteSelectionPolicy::ClosestByDistance, r),
        2 * responses.already_stored_peers@.len() < CLOSE_GROUP_SIZE,
        responses.quotes@.filter(|q: StoreQuote| binds(q.0@, q.2.pub_key@)).len()
            >= CLOSE_GROUP_SIZE,
    ensures
        r matches Ok(selected) && selected@ == closest_quotes(
            responses.quotes@.filter(|q: StoreQuote| binds(q.0@, q.2.pub_key@)),
            address,
        ),
{
    let kept = responses.quotes@.filter(well_bound());
    assert(well_bound() =~= |q: StoreQuote| binds(q.0@, q.2.pub_key@));
    only_a_close_group_votes(kept, responses.already_stored_peers@, address);
}

/// A peer's voters are those of its last entry, and only a peer with an entry has any.
pub proof fn voters_are_those_of_the_entry(peers: Seq<WitnessedQuotePeer>, i: int)
    requires
        0 <= i < peers.len(),
        forall|k: int| i < k < peers.len() ==> (#[trigger] peers[k]).peer_id@ != peers[i].peer_id@,
    ensures
        last_voters(peers, peers[i].peer_id@) == Some(peers[i].voters@),
        forall|p: Seq<u8>|
            (forall|k: int| 0 <= k < peers.len() ==> (#[trigger] peers[k]).peer_id@ != p)
                ==> #[trigger] last_voters(peers, p) is None,
    decreases peers.len(),
{
    let t = peers.drop_last();
    let n = peers.len() - 1;
    assert(forall|k: int| 0 <= k < t.len() ==> t[k] == peers[k]);
    assert(peers[n] == peers.last());
    if i < n {
        assert(peers[n].peer_id@ != peers[i].peer_id@);
        voters_are_those_of_the_entry(t, i);
    }
    assert forall|p: Seq<u8>|
        (forall|k: int| 0 <= k < peers.len() ==> (#[trigger] peers[k]).peer_id@
            != p) implies #[trigger] last_voters(peers, p) is None by {
        lemma_no_voters(peers, p);
    }
}

proof fn lemma_no_voters(peers: Seq<WitnessedQuotePeer>, p: Seq<u8>)
    requires
        forall|k: int| 0 <= k < peers.len() ==> (#[trigger] peers[k]).peer_id@ != p,
    ensures
        last_voters(peers, p) is None,
    decreases peers.len(),
{
    if peers.len() > 0 {
        let t = peers.drop_last();
        assert(forall|k: int| 0 <= k < t.len() ==> t[k] == peers[k]);
        assert(peers[peers.len() - 1].peer_id@ != p);
        lemma_no_voters(t, p);
    }
}

} // verus!
