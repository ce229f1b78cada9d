//! Storage quotes: who may issue them, which are kept and which are paid.

use vstd::prelude::*;
use vstd::string::*;

use crate::collections::{AddressMap, AddressSet};
use crate::data::error::{gives_reason, Error};
use crate::order::{
    lemma_sort_map, lemma_stable_sort_contains, lemma_stable_sort_distinct, sort_by_keys,
    stable_sort, stable_sort_orders_and_keeps,
};
use crate::protocol::{
    addresses_by_priority, compute_address, content_address, decode_quote, decoded_quote,
    merge_nodes, merged_view, prioritised_addresses, DhtNode, NodeView, PaymentQuote,
    CLOSE_GROUP_SIZE,
};
use crate::text::{
    decimal_text, hex_encode, hex_text, lemma_texts_push, list_text, push_decimal, render_list,
    texts,
};
use crate::uint256::{Amount, U256};
use crate::xor::{distance, equal_distance_means_same_peer, peer_distance, PeerId};

verus! {

/// Fault-tolerant collection asks this many close groups of peers.
pub const FAULT_TOLERANT_QUOTE_QUERY_MULTIPLIER: usize = 2;

/// Share of the close group that has to witness a peer.
pub const WITNESSED_QUORUM_NUMERATOR: usize = 2;

pub const WITNESSED_QUORUM_DENOMINATOR: usize = 3;

/// Position of the paid quote after sorting by price.
pub const MEDIAN_QUOTE_INDEX: usize = 3;

/// Time limit in seconds for collecting all quotes of one chunk.
pub const QUOTE_COLLECTION_TIMEOUT_SECS: u64 = 120;

/// Length of an ML-DSA-65 public key in bytes.
pub const ML_DSA_PUB_KEY_LEN: usize = 1952;

/// A quote, the peer that issued it, where that peer is reached, and the price.
pub type StoreQuote = (
    PeerId,
    Vec<ant_protocol::transport::MultiAddr>,
    PaymentQuote,
    Amount,
);

/// The key has the length of a public key and hashes to the peer's identity.
pub open spec fn binds(peer: Seq<u8>, pub_key: Seq<u8>) -> bool {
    pub_key.len() == ML_DSA_PUB_KEY_LEN && content_address(pub_key) == peer
}

/// Whether the quote carries the public key of the peer that it came from.
///
/// A storer rejects the whole proof of payment of a chunk when one of its
/// quotes fails this check.
pub fn quote_binding_is_valid(peer_id: &PeerId, quote: &PaymentQuote) -> (r: bool)
    ensures
        r == binds(peer_id@, quote.pub_key@),
{
    if quote.pub_key.len() != ML_DSA_PUB_KEY_LEN {
        return false;
    }
    let derived = PeerId(compute_address(quote.pub_key.as_slice()));
    derived.same(peer_id)
}

/// Diagnostic text on a key that does not belong to its peer.
pub open spec fn binding_detail(pub_key: Seq<u8>) -> Seq<char> {
    "BLAKE3(pub_key)="@ + hex_text(content_address(pub_key)) + " pub_key_len="@ + decimal_text(
        pub_key.len(),
    )
}

/// What a decoded quote response of `peer_id` counts as.
///
/// The binding is tested before the stored flag: a peer that signs with a
/// foreign key has no vote on whether the chunk is stored.
pub fn classify_decoded_quote(
    peer_id: &PeerId,
    quote: PaymentQuote,
    already_stored: bool,
) -> (r: Result<(PaymentQuote, Amount), Error>)
    ensures
        if !binds(peer_id@, quote.pub_key@) {
            r matches Err(Error::BadQuoteBinding { peer_id: p, detail }) && p@ == hex_text(
                peer_id@,
            ) && detail@ == binding_detail(quote.pub_key@)
        } else if already_stored {
            r matches Err(Error::AlreadyStored)
        } else {
            r matches Ok((q, price)) && q == quote && price == quote.price
        },
{
    if !quote_binding_is_valid(peer_id, &quote) {
        let derived = compute_address(quote.pub_key.as_slice());
        let mut detail = "BLAKE3(pub_key)=".to_owned();
        detail.append(hex_encode(&derived).as_str());
        detail.append(" pub_key_len=");
        push_decimal(&mut detail, quote.pub_key.len() as u128);
        return Err(Error::BadQuoteBinding { peer_id: peer_id.to_hex(), detail });
    }
    if already_stored {
        return Err(Error::AlreadyStored);
    }
    let price = quote.price;
    Ok((quote, price))
}

/// What a quote response of `peer_id` counts as, from its wire form.
pub fn classify_quote_response(
    peer_id: &PeerId,
    quote_bytes: &[u8],
    already_stored: bool,
) -> (r: Result<(PaymentQuote, Amount), Error>)
    ensures
        match decoded_quote(quote_bytes@) {
            None => r matches Err(Error::Serialization(m)) && gives_reason(
                m@,
                "Failed to deserialize quote from "@ + hex_text(peer_id@) + ": "@,
            ),
            Some(quote) => if !binds(peer_id@, quote.pub_key) {
                r matches Err(Error::BadQuoteBinding { peer_id: p, detail }) && p@ == hex_text(
                    peer_id@,
                ) && detail@ == binding_detail(quote.pub_key)
            } else if already_stored {
                r matches Err(Error::AlreadyStored)
            } else {
                r matches Ok((q, price)) && q@ == quote && price.value() == quote.price && q.timely()
            },
        },
{
    match decode_quote(quote_bytes) {
        Ok(quote) => classify_decoded_quote(peer_id, quote, already_stored),
        Err(e) => {
            let mut m = "Failed to deserialize quote from ".to_owned();
            m.append(peer_id.to_hex().as_str());
            m.append(": ");
            let ghost head = m@;
            m.append(e.as_str());
            assert(m@ == head + e@);
            Err(Error::Serialization(m))
        },
    }
}

/// Whether a collected quote carries its issuer's key.
pub open spec fn well_bound() -> spec_fn(StoreQuote) -> bool {
    |q: StoreQuote| binds(q.0@, q.2.pub_key@)
}

/// Drops the quotes that do not carry their issuer's key and says how many
/// those were.
pub fn drop_quotes_with_bad_bindings(quotes: &mut Vec<StoreQuote>) -> (r: usize)
    ensures
        final(quotes)@ == old(quotes)@.filter(well_bound()),
        r == old(quotes)@.len() - final(quotes)@.len(),
{
    let ghost all = quotes@;
    let before: usize = quotes.len();
    let mut kept: Vec<StoreQuote> = Vec::new();
    let mut i: usize = 0;
    assert(all.take(0).filter(well_bound()) =~= Seq::empty()) by {
        reveal(Seq::filter);
    }
    assert(all.skip(0) =~= all);
    while i < before
        invariant
            i <= before,
            before == all.len(),
            quotes@ == all.skip(i as int),
            kept@ == all.take(i as int).filter(well_bound()),
            kept.len() <= i,
        decreases before - i,
    {
        let q = quotes.remove(0);
        proof {
            reveal(Seq::filter);
            assert(all.take(i + 1).drop_last() =~= all.take(i as int));
            assert(all.take(i + 1).last() == q);
            assert(quotes@ =~= all.skip(i + 1));
        }
        if quote_binding_is_valid(&q.0, &q.2) {
            kept.push(q);
        }
        i = i + 1;
    }
    assert(all.take(before as int) =~= all);
    let left: usize = kept.len();
    *quotes = kept;
    before - left
}

/// How many peers are asked for a quote that is paid.
pub fn single_node_quote_query_count() -> (r: usize)
    ensures
        r == CLOSE_GROUP_SIZE,
{
    CLOSE_GROUP_SIZE
}

/// How many peers are asked when some may fail to answer.
pub fn fault_tolerant_quote_query_count() -> (r: usize)
    ensures
        r == CLOSE_GROUP_SIZE * FAULT_TOLERANT_QUOTE_QUERY_MULTIPLIER,
{
    CLOSE_GROUP_SIZE * FAULT_TOLERANT_QUOTE_QUERY_MULTIPLIER
}

/// Votes that a peer needs: two thirds of the close group, rounded up.
pub fn witnessed_close_group_quorum() -> (r: usize)
    ensures
        r * WITNESSED_QUORUM_DENOMINATOR >= CLOSE_GROUP_SIZE * WITNESSED_QUORUM_NUMERATOR,
        (r - 1) * WITNESSED_QUORUM_DENOMINATOR < CLOSE_GROUP_SIZE * WITNESSED_QUORUM_NUMERATOR,
{
    (CLOSE_GROUP_SIZE * WITNESSED_QUORUM_NUMERATOR + WITNESSED_QUORUM_DENOMINATOR - 1)
        / WITNESSED_QUORUM_DENOMINATOR
}

/// One responder's view of who is closest.
pub struct ResponderView {
    /// The peer that supplied this view.
    pub responder: PeerId,
    /// The nodes that it holds to be closest, itself included.
    pub closest: Vec<DhtNode>,
}

/// What the close group of an address looks like to its members.
pub struct WitnessedCloseGroup {
    pub target: [u8; 32],
    /// Requested group size.
    pub k: usize,
    /// The closest peers that the lookup found.
    pub initial_closest: Vec<DhtNode>,
    /// One view for each responder that replied.
    pub responder_views: Vec<ResponderView>,
}

/// A peer that enough responders recognise.
pub struct WitnessedQuoteCandidate {
    pub node: DhtNode,
    pub votes: usize,
    pub voters: AddressSet,
}

/// A peer that is asked for a quote, and who vouches for it.
pub struct WitnessedQuotePeer {
    pub peer_id: PeerId,
    pub addrs: Vec<ant_protocol::transport::MultiAddr>,
    pub voters: AddressSet,
}

/// The records that one view holds.
pub open spec fn node_views(nodes: Seq<DhtNode>) -> Seq<NodeView> {
    nodes.map_values(|n: DhtNode| n@)
}

/// All records of a witnessed group: those of the lookup, then those of each
/// responder.
pub open spec fn records(initial: Seq<DhtNode>, views: Seq<ResponderView>) -> Seq<NodeView>
    decreases views.len(),
{
    if views.len() == 0 {
        node_views(initial)
    } else {
        records(initial, views.drop_last()) + node_views(views.last().closest@)
    }
}

/// What all records together say about a peer, merged in their order.
pub open spec fn merged_record(all: Seq<NodeView>, peer: Seq<u8>) -> Option<NodeView>
    decreases all.len(),
{
    if all.len() == 0 {
        None
    } else {
        let before = merged_record(all.drop_last(), peer);
        if all.last().peer != peer {
            before
        } else {
            match before {
                None => Some(all.last()),
                Some(m) => Some(merged_view(m, all.last())),
            }
        }
    }
}

/// Whether the nodes name the peer.
pub open spec fn lists(nodes: Seq<DhtNode>, peer: Seq<u8>) -> bool {
    exists|i: int| 0 <= i < nodes.len() && (#[trigger] nodes[i])@.peer == peer
}

/// The responders whose view names the peer.
pub open spec fn voters_of(views: Seq<ResponderView>, peer: Seq<u8>) -> Set<Seq<u8>>
    decreases views.len(),
{
    if views.len() == 0 {
        Set::empty()
    } else {
        let before = voters_of(views.drop_last(), peer);
        if lists(views.last().closest@, peer) {
            before.insert(views.last().responder@)
        } else {
            before
        }
    }
}

/// The known records, by peer.
pub open spec fn knows(nodes: Map<Seq<u8>, DhtNode>, all: Seq<NodeView>) -> bool {
    forall|p: Seq<u8>|
        match merged_record(all, p) {
            None => !(#[trigger] nodes.dom().contains(p)),
            Some(m) => nodes.dom().contains(p) && nodes[p]@ == m,
        }
}

/// Merges a record into what is known of its peer.
fn merge_witnessed_node(
    nodes: &mut AddressMap<DhtNode>,
    node: DhtNode,
    Ghost(all): Ghost<Seq<NodeView>>,
)
    requires
        knows(old(nodes)@, all),
    ensures
        knows(final(nodes)@, all.push(node@)),
{
    let key = node.peer_id().0;
    let ghost before = nodes@;
    let ghost incoming = node@;
    assert(all.push(node@).drop_last() =~= all);
    match nodes.remove(&key) {
        Some(known) => {
            assert(before.dom().contains(key@));
            assert(known@.peer == key@) by {
                lemma_merged_record_peer(all, key@);
            }
            let merged = merge_nodes(known, node);
            nodes.insert(key, merged);
            assert forall|p: Seq<u8>|
                match merged_record(all.push(incoming), p) {
                    None => !(#[trigger] nodes@.dom().contains(p)),
                    Some(m) => nodes@.dom().contains(p) && nodes@[p]@ == m,
                } by {
                assert(before.dom().contains(p) == nodes@.dom().contains(p));
            }
        },
        None => {
            nodes.insert(key, node);
            assert forall|p: Seq<u8>|
                match merged_record(all.push(incoming), p) {
                    None => !(#[trigger] nodes@.dom().contains(p)),
                    Some(m) => nodes@.dom().contains(p) && nodes@[p]@ == m,
                } by {
                assert(before.dom().contains(p) || !before.dom().contains(p));
            }
        },
    }
}

proof fn lemma_merged_record_peer(all: Seq<NodeView>, peer: Seq<u8>)
    ensures
        merged_record(all, peer) matches Some(m) ==> m.peer == peer,
    decreases all.len(),
{
    if all.len() > 0 {
        lemma_merged_record_peer(all.drop_last(), peer);
    }
}

/// The votes, by peer.
pub open spec fn tallies(
    votes: Map<Seq<u8>, AddressSet>,
    views: Seq<ResponderView>,
    open: Seq<DhtNode>,
    responder: Seq<u8>,
) -> bool {
    forall|p: Seq<u8>|
        {
            let now = if lists(open, p) {
                voters_of(views, p).insert(responder)
            } else {
                voters_of(views, p)
            };
            &&& (#[trigger] votes.dom().contains(p)) == (now != Set::<Seq<u8>>::empty())
            &&& votes.dom().contains(p) ==> votes[p]@ == now
        }
}

/// Counts the vote of `responder` for `peer`.
fn add_vote(votes: &mut AddressMap<AddressSet>, peer: [u8; 32], responder: [u8; 32])
    ensures
        final(votes)@.dom() == old(votes)@.dom().insert(peer@),
        final(votes)@[peer@]@ == if old(votes)@.dom().contains(peer@) {
            old(votes)@[peer@]@.insert(responder@)
        } else {
            Set::empty().insert(responder@)
        },
        forall|p: Seq<u8>|
            p != peer@ && #[trigger] old(votes)@.dom().contains(p) ==> final(votes)@[p] == old(
                votes,
            )@[p],
{
    let mut voters = match votes.remove(&peer) {
        Some(v) => v,
        None => AddressSet::new(),
    };
    let _ = voters.insert(responder);
    votes.insert(peer, voters);
    assert(votes@.dom() =~= old(votes)@.dom().insert(peer@));
}

proof fn lemma_lists_push(nodes: Seq<DhtNode>, n: DhtNode, peer: Seq<u8>)
    ensures
        lists(nodes.push(n), peer) == (lists(nodes, peer) || n@.peer == peer),
{
    let all = nodes.push(n);
    if lists(nodes, peer) {
        let i = choose|i: int| 0 <= i < nodes.len() && (#[trigger] nodes[i])@.peer == peer;
        assert(all[i]@.peer == peer);
    }
    if n@.peer == peer {
        assert(all[nodes.len() as int]@.peer == peer);
    }
    if lists(all, peer) {
        let i = choose|i: int| 0 <= i < all.len() && (#[trigger] all[i])@.peer == peer;
        if i < nodes.len() {
            assert(nodes[i]@.peer == peer);
        }
    }
}

/// Known records and votes of a witnessed group.
fn witnessed_votes_and_nodes(witnessed: &WitnessedCloseGroup) -> (r: (
    AddressMap<DhtNode>,
    AddressMap<AddressSet>,
))
    ensures
        knows(r.0@, records(witnessed.initial_closest@, witnessed.responder_views@)),
        tallies(r.1@, witnessed.responder_views@, Seq::empty(), Seq::empty()),
{
    let ghost initial = witnessed.initial_closest@;
    let ghost views = witnessed.responder_views@;
    let mut known: AddressMap<DhtNode> = AddressMap::new();
    let mut i: usize = 0;
    assert(node_views(initial.take(0)) =~= Seq::<NodeView>::empty());
    while i < witnessed.initial_closest.len()
        invariant
            i <= witnessed.initial_closest.len(),
            initial == witnessed.initial_closest@,
            knows(known@, node_views(initial.take(i as int))),
        decreases witnessed.initial_closest.len() - i,
    {
        let node = witnessed.initial_closest[i].duplicate();
        assert(node_views(initial.take(i + 1)) =~= node_views(initial.take(i as int)).push(node@));
        merge_witnessed_node(&mut known, node, Ghost(node_views(initial.take(i as int))));
        i = i + 1;
    }
    assert(initial.take(i as int) =~= initial);
    let mut votes: AddressMap<AddressSet> = AddressMap::new();
    let mut v: usize = 0;
    assert(views.take(0) =~= Seq::<ResponderView>::empty());
    while v < witnessed.responder_views.len()
        invariant
            v <= witnessed.responder_views.len(),
            initial == witnessed.initial_closest@,
            views == witnessed.responder_views@,
            knows(known@, records(initial, views.take(v as int))),
            tallies(votes@, views.take(v as int), Seq::empty(), Seq::empty()),
        decreases witnessed.responder_views.len() - v,
    {
        let view = &witnessed.responder_views[v];
        let ghost so_far = views.take(v as int);
        let ghost responder = view.responder@;
        let ghost nodes = view.closest@;
        let ghost base = records(initial, so_far);
        let mut voted = AddressSet::new();
        let mut j: usize = 0;
        proof {
            assert(nodes.take(0) =~= Seq::<DhtNode>::empty());
            assert(base + node_views(nodes.take(0)) =~= base);
            assert(tallies(votes@, so_far, nodes.take(0), responder)) by {
                assert forall|p: Seq<u8>|
                    {
                        let now = if lists(nodes.take(0), p) {
                            voters_of(so_far, p).insert(responder)
                        } else {
                            voters_of(so_far, p)
                        };
                        &&& (#[trigger] votes@.dom().contains(p)) == (now != Set::<
                            Seq<u8>,
                        >::empty())
                        &&& votes@.dom().contains(p) ==> votes@[p]@ == now
                    } by {
                    assert(!lists(nodes.take(0), p));
                    assert(!lists(Seq::<DhtNode>::empty(), p));
                }
            }
        }
        while j < view.closest.len()
            invariant
                j <= view.closest.len(),
                nodes == view.closest@,
                responder == view.responder@,
                knows(known@, base + node_views(nodes.take(j as int))),
                tallies(votes@, so_far, nodes.take(j as int), responder),
                forall|p: Seq<u8>|
                    #[trigger] voted@.contains(p) == lists(nodes.take(j as int), p),
            decreases view.closest.len() - j,
        {
            let node = view.closest[j].duplicate();
            let peer = node.peer_id();
            let ghost part = base + node_views(nodes.take(j as int));
            let ghost before = votes@;
            let ghost listed = nodes.take(j as int);
            proof {
                assert(nodes.take(j + 1) =~= listed.push(nodes[j as int]));
                assert(base + node_views(nodes.take(j + 1)) =~= part.push(node@));
                assert forall|p: Seq<u8>|
                    #![trigger lists(nodes.take(j + 1), p)]
                    lists(nodes.take(j + 1), p) == (lists(listed, p) || peer@ == p) by {
                    lemma_lists_push(listed, nodes[j as int], p);
                }
            }
            merge_witnessed_node(&mut known, node, Ghost(part));
            let ghost seen = voted@;
            if voted.insert(peer.0) {
                add_vote(&mut votes, peer.0, view.responder.0);
            }
            proof {
                assert forall|p: Seq<u8>|
                    {
                        let now = if lists(nodes.take(j + 1), p) {
                            voters_of(so_far, p).insert(responder)
                        } else {
                            voters_of(so_far, p)
                        };
                        &&& (#[trigger] votes@.dom().contains(p)) == (now != Set::<
                            Seq<u8>,
                        >::empty())
                        &&& votes@.dom().contains(p) ==> votes@[p]@ == now
                    } by {
                    assert(seen.contains(p) == lists(listed, p));
                    assert(before.dom().contains(p) || !before.dom().contains(p));
                    let now = if lists(nodes.take(j + 1), p) {
                        voters_of(so_far, p).insert(responder)
                    } else {
                        voters_of(so_far, p)
                    };
                    if lists(nodes.take(j + 1), p) {
                        assert(now.contains(responder));
                    }
                    if p == peer@ && !lists(listed, p) && !before.dom().contains(p) {
                        assert(voters_of(so_far, p) == Set::<Seq<u8>>::empty());
                    }
                }
            }
            j = j + 1;
        }
        proof {
            assert(nodes.take(j as int) =~= nodes);
            assert(views.take(v + 1).drop_last() =~= so_far);
            assert(views.take(v + 1).last() == *view);
            assert forall|p: Seq<u8>|
                {
                    let now = if lists(Seq::<DhtNode>::empty(), p) {
                        voters_of(views.take(v + 1), p).insert(Seq::empty())
                    } else {
                        voters_of(views.take(v + 1), p)
                    };
                    &&& (#[trigger] votes@.dom().contains(p)) == (now != Set::<Seq<u8>>::empty())
                    &&& votes@.dom().contains(p) ==> votes@[p]@ == now
                } by {
                assert(!lists(Seq::<DhtNode>::empty(), p));
            }
        }
        v = v + 1;
    }
    assert(views.take(v as int) =~= views);
    (known, votes)
}

/// Distance of a counted peer from an address.
pub open spec fn vote_distance(address: Seq<u8>) -> spec_fn((PeerId, usize)) -> nat {
    |e: (PeerId, usize)| distance(e.0@, address)
}

/// The peers that at least one responder names, closest first, each with the
/// number of responders that name it.
pub open spec fn vote_list(
    list: Seq<(PeerId, usize)>,
    views: Seq<ResponderView>,
    address: Seq<u8>,
) -> bool {
    &&& forall|i: int, j: int|
        0 <= i < j < list.len() ==> distance((#[trigger] list[i]).0@, address) < distance(
            (#[trigger] list[j]).0@,
            address,
        )
    &&& forall|i: int|
        0 <= i < list.len() ==> (#[trigger] list[i]).1 == voters_of(views, list[i].0@).len()
            && voters_of(views, list[i].0@).finite() && voters_of(views, list[i].0@) != Set::<
            Seq<u8>,
        >::empty()
    &&& forall|p: Seq<u8>| #[trigger]
        voters_of(views, p) != Set::<Seq<u8>>::empty() ==> exists|i: int|
            0 <= i < list.len() && (#[trigger] list[i]).0@ == p
}

/// The votes, closest peer first.
fn counted_votes(
    votes: &AddressMap<AddressSet>,
    address: &[u8; 32],
    Ghost(views): Ghost<Seq<ResponderView>>,
) -> (r: Vec<(PeerId, usize)>)
    requires
        tallies(votes@, views, Seq::empty(), Seq::empty()),
    ensures
        vote_list(r@, views, address@),
{
    let mut counts: Vec<(PeerId, usize)> = Vec::new();
    let mut keys: Vec<U256> = Vec::new();
    let total: usize = votes.len();
    let ghost order = votes.order();
    let ghost key = vote_distance(address@);
    assert(!lists(Seq::<DhtNode>::empty(), Seq::<u8>::empty()));
    proof {
        assert forall|p: Seq<u8>| !lists(Seq::<DhtNode>::empty(), p) by {}
    }
    let mut i: usize = 0;
    while i < total
        invariant
            i <= total,
            total == order.len(),
            order == votes.order(),
            votes@.dom() == order.to_set(),
            tallies(votes@, views, Seq::empty(), Seq::empty()),
            forall|p: Seq<u8>| !lists(Seq::<DhtNode>::empty(), p),
            counts.len() == i,
            keys.len() == i,
            key == vote_distance(address@),
            forall|k: int| 0 <= k < i ==> (#[trigger] counts[k]).0@ == order[k],
            forall|k: int|
                0 <= k < i ==> voters_of(views, (#[trigger] counts[k]).0@).finite() && counts[k].1
                    == voters_of(views, counts[k].0@).len(),
            forall|k: int| 0 <= k < i ==> (#[trigger] keys[k]).value() == key(counts[k]),
        decreases total - i,
    {
        let peer = *votes.key_at(i);
        match votes.get(&peer) {
            Some(voters) => {
                let n: usize = voters.len();
                assert(voters@ == voters_of(views, peer@));
                let id = PeerId(peer);
                let d = peer_distance(&id, address);
                counts.push((id, n));
                keys.push(d);
                assert(keys[i as int].value() == key(counts[i as int]));
            },
            None => {},
        }
        i = i + 1;
    }
    let ghost raw = counts@;
    let sorted = sort_by_keys(counts, &keys, Ghost(key));
    proof {
        let view = |e: (PeerId, usize)| e.0@;
        let kb = |p: Seq<u8>| distance(p, address@);
        assert(raw.map_values(view) =~= order);
        lemma_sort_map(raw, view, key, kb);
        lemma_stable_sort_distinct(order, kb);
        let s = sorted@.map_values(view);
        assert(s == stable_sort(order, kb));
        stable_sort_orders_and_keeps(raw, key);
        assert forall|a: int, b: int| 0 <= a < b < sorted@.len() implies distance(
            (#[trigger] sorted@[a]).0@,
            address@,
        ) < distance((#[trigger] sorted@[b]).0@, address@) by {
            assert(key(sorted@[a]) <= key(sorted@[b]));
            assert(s[a] != s[b]);
            if distance(sorted@[a].0@, address@) == distance(sorted@[b].0@, address@) {
                equal_distance_means_same_peer(sorted@[a].0@, sorted@[b].0@, address@);
            }
        }
        assert forall|a: int| 0 <= a < sorted@.len() implies (#[trigger] sorted@[a]).1 == voters_of(
            views,
            sorted@[a].0@,
        ).len() && voters_of(views, sorted@[a].0@).finite() && voters_of(views, sorted@[a].0@)
            != Set::<Seq<u8>>::empty() by {
            lemma_stable_sort_contains(raw, key, sorted@[a]);
            let k = choose|k: int| 0 <= k < raw.len() && raw[k] == sorted@[a];
            assert(order[k] == sorted@[a].0@);
            assert(order.contains(order[k]));
            assert(votes@.dom().contains(order[k]));
        }
        assert forall|p: Seq<u8>| #[trigger]
            voters_of(views, p) != Set::<Seq<u8>>::empty() implies exists|a: int|
            0 <= a < sorted@.len() && (#[trigger] sorted@[a]).0@ == p by {
            assert(votes@.dom().contains(p));
            assert(order.contains(p));
            let k = choose|k: int| 0 <= k < order.len() && order[k] == p;
            lemma_stable_sort_contains(raw, key, raw[k]);
            assert(raw.contains(raw[k]));
            let a = choose|a: int| 0 <= a < sorted@.len() && sorted@[a] == raw[k];
            assert(sorted@[a].0@ == p);
        }
    }
    sorted
}

/// The recognised peers: those that at least `quorum` responders name, closest
/// first, each with its merged record and with who vouches for it.
pub open spec fn consensus(
    list: Seq<WitnessedQuoteCandidate>,
    witnessed: WitnessedCloseGroup,
    address: Seq<u8>,
    quorum: int,
) -> bool {
    let views = witnessed.responder_views@;
    let all = records(witnessed.initial_closest@, views);
    &&& forall|i: int, j: int|
        0 <= i < j < list.len() ==> distance((#[trigger] list[i]).node@.peer, address) < distance(
            (#[trigger] list[j]).node@.peer,
            address,
        )
    &&& forall|i: int|
        0 <= i < list.len() ==> {
            let p = (#[trigger] list[i]).node@.peer;
            &&& voters_of(views, p) != Set::<Seq<u8>>::empty()
            &&& voters_of(views, p).finite()
            &&& voters_of(views, p).len() >= quorum
            &&& list[i].voters@ == voters_of(views, p)
            &&& list[i].votes == voters_of(views, p).len()
            &&& merged_record(all, p) == Some(list[i].node@)
        }
    &&& forall|p: Seq<u8>|
        (#[trigger] voters_of(views, p)) != Set::<Seq<u8>>::empty() && voters_of(views, p).len()
            >= quorum ==> exists|i: int| 0 <= i < list.len() && (#[trigger] list[i]).node@.peer == p
}

proof fn lemma_listed_is_known(
    initial: Seq<DhtNode>,
    views: Seq<ResponderView>,
    peer: Seq<u8>,
)
    requires
        voters_of(views, peer) != Set::<Seq<u8>>::empty(),
    ensures
        merged_record(records(initial, views), peer) is Some,
    decreases views.len(),
{
    if views.len() > 0 {
        let before = records(initial, views.drop_last());
        let nodes = node_views(views.last().closest@);
        if lists(views.last().closest@, peer) {
            let i = choose|i: int|
                0 <= i < views.last().closest@.len() && (#[trigger] views.last().closest@[i])@.peer
                    == peer;
            assert(nodes[i].peer == peer);
            lemma_record_present(before + nodes, before.len() + i, peer);
        } else {
            lemma_listed_is_known(initial, views.drop_last(), peer);
            lemma_record_kept(before, nodes, peer);
        }
    }
}

proof fn lemma_record_present(all: Seq<NodeView>, i: int, peer: Seq<u8>)
    requires
        0 <= i < all.len(),
        all[i].peer == peer,
    ensures
        merged_record(all, peer) is Some,
    decreases all.len(),
{
    if i < all.len() - 1 {
        lemma_record_present(all.drop_last(), i, peer);
    }
}

proof fn lemma_record_kept(a: Seq<NodeView>, b: Seq<NodeView>, peer: Seq<u8>)
    requires
        merged_record(a, peer) is Some,
    ensures
        merged_record(a + b, peer) is Some,
    decreases b.len(),
{
    if b.len() == 0 {
        assert(a + b =~= a);
    } else {
        assert((a + b).drop_last() =~= a + b.drop_last());
        lemma_record_kept(a, b.drop_last(), peer);
    }
}

/// The peers that at least `quorum` responders recognise.
pub fn witnessed_consensus_candidates(
    witnessed: &WitnessedCloseGroup,
    address: &[u8; 32],
    quorum: usize,
) -> (r: Vec<WitnessedQuoteCandidate>)
    ensures
        consensus(r@, *witnessed, address@, quorum as int),
{
    let (known, votes) = witnessed_votes_and_nodes(witnessed);
    let ghost views = witnessed.responder_views@;
    let ghost all = records(witnessed.initial_closest@, views);
    let counts = counted_votes(&votes, address, Ghost(views));
    let mut list: Vec<WitnessedQuoteCandidate> = Vec::new();
    let mut i: usize = 0;
    while i < counts.len()
        invariant
            i <= counts.len(),
            views == witnessed.responder_views@,
            all == records(witnessed.initial_closest@, views),
            vote_list(counts@, views, address@),
            knows(known@, all),
            tallies(votes@, views, Seq::empty(), Seq::empty()),
            forall|a: int, b: int|
                0 <= a < b < list.len() ==> distance((#[trigger] list[a]).node@.peer, address@)
                    < distance((#[trigger] list[b]).node@.peer, address@),
            forall|a: int, m: int|
                0 <= a < list.len() && i <= m < counts.len() ==> distance(
                    (#[trigger] list[a]).node@.peer,
                    address@,
                ) < distance((#[trigger] counts[m]).0@, address@),
            forall|a: int|
                0 <= a < list.len() ==> {
                    let p = (#[trigger] list[a]).node@.peer;
                    &&& voters_of(views, p) != Set::<Seq<u8>>::empty()
                    &&& voters_of(views, p).finite()
                    &&& voters_of(views, p).len() >= quorum
                    &&& list[a].voters@ == voters_of(views, p)
                    &&& list[a].votes == voters_of(views, p).len()
                    &&& merged_record(all, p) == Some(list[a].node@)
                },
            forall|m: int|
                0 <= m < i && (#[trigger] counts[m]).1 >= quorum ==> exists|a: int|
                    0 <= a < list.len() && (#[trigger] list[a]).node@.peer == counts[m].0@,
        decreases counts.len() - i,
    {
        let (peer, n): (PeerId, usize) = counts[i];
        let ghost p = peer@;
        let ghost list0 = list@;
        if n >= quorum {
            proof {
                lemma_listed_is_known(witnessed.initial_closest@, views, p);
                lemma_merged_record_peer(all, p);
                assert(known@.dom().contains(p));
                assert(!lists(Seq::<DhtNode>::empty(), p));
                assert(votes@.dom().contains(p));
            }
            match known.get(&peer.0) {
                Some(node) => match votes.get(&peer.0) {
                    Some(voters) => {
                        let c = WitnessedQuoteCandidate {
                            node: node.duplicate(),
                            votes: n,
                            voters: voters.duplicate(),
                        };
                        list.push(c);
                        assert(list[list0.len() as int].node@.peer == p);
                    },
                    None => {},
                },
                None => {},
            }
        }
        proof {
            assert forall|m: int|
                0 <= m < i + 1 && (#[trigger] counts[m]).1 >= quorum implies exists|a: int|
                0 <= a < list.len() && (#[trigger] list[a]).node@.peer == counts[m].0@ by {
                if m < i {
                    let a = choose|a: int|
                        0 <= a < list0.len() && (#[trigger] list0[a]).node@.peer == counts[m].0@;
                    assert(list[a].node@.peer == counts[m].0@);
                }
            }
        }
        i = i + 1;
    }
    proof {
        assert forall|p: Seq<u8>|
            (#[trigger] voters_of(views, p)) != Set::<Seq<u8>>::empty() && voters_of(views, p).len()
                >= quorum implies exists|a: int|
            0 <= a < list.len() && (#[trigger] list[a]).node@.peer == p by {
            let m = choose|m: int| 0 <= m < counts.len() && (#[trigger] counts[m]).0@ == p;
            assert(counts[m].1 >= quorum);
        }
    }
    list
}

/// The identities of nodes as text.
pub open spec fn peer_texts(nodes: Seq<DhtNode>) -> Seq<Seq<char>> {
    nodes.map_values(|n: DhtNode| hex_text(n@.peer))
}

/// The views as text: who saw whom.
pub open spec fn view_texts(views: Seq<ResponderView>) -> Seq<Seq<char>> {
    views.map_values(
        |v: ResponderView| hex_text(v.responder@) + "=>"@ + list_text(peer_texts(v.closest@)),
    )
}

/// A peer and its number of votes as text.
pub open spec fn vote_text(peer: Seq<u8>, votes: nat) -> Seq<char> {
    hex_text(peer) + ":"@ + decimal_text(votes)
}

/// The vote list as text.
pub open spec fn vote_texts(list: Seq<(PeerId, usize)>) -> Seq<Seq<char>> {
    list.map_values(|e: (PeerId, usize)| vote_text(e.0@, e.1 as nat))
}

/// The recognised peers as text.
pub open spec fn candidate_texts(list: Seq<WitnessedQuoteCandidate>) -> Seq<Seq<char>> {
    list.map_values(|c: WitnessedQuoteCandidate| vote_text(c.node@.peer, c.votes as nat))
}

/// The identities of nodes as text.
pub fn peer_list(nodes: &Vec<DhtNode>) -> (r: Vec<String>)
    ensures
        texts(r@) == peer_texts(nodes@),
{
    let mut out: Vec<String> = Vec::new();
    let mut i: usize = 0;
    while i < nodes.len()
        invariant
            i <= nodes.len(),
            texts(out@) =~= peer_texts(nodes@).take(i as int),
        decreases nodes.len() - i,
    {
        let line = nodes[i].peer_id().to_hex();
        proof {
            lemma_texts_push(out@, line);
        }
        out.push(line);
        i = i + 1;
    }
    assert(texts(out@) =~= peer_texts(nodes@));
    out
}

/// The peers that the lookup found, as text.
pub fn witnessed_initial_peers(witnessed: &WitnessedCloseGroup) -> (r: Vec<String>)
    ensures
        texts(r@) == peer_texts(witnessed.initial_closest@),
{
    peer_list(&witnessed.initial_closest)
}

/// The views of the responders, as text.
pub fn witnessed_responder_views(witnessed: &WitnessedCloseGroup) -> (r: Vec<String>)
    ensures
        texts(r@) == view_texts(witnessed.responder_views@),
{
    let mut out: Vec<String> = Vec::new();
    let mut i: usize = 0;
    while i < witnessed.responder_views.len()
        invariant
            i <= witnessed.responder_views.len(),
            texts(out@) =~= view_texts(witnessed.responder_views@).take(i as int),
        decreases witnessed.responder_views.len() - i,
    {
        let view = &witnessed.responder_views[i];
        let mut line = view.responder.to_hex();
        line.append("=>");
        line.append(render_list(&peer_list(&view.closest)).as_str());
        proof {
            lemma_texts_push(out@, line);
        }
        out.push(line);
        i = i + 1;
    }
    assert(texts(out@) =~= view_texts(witnessed.responder_views@));
    out
}

/// The votes, as text, closest peer first.
pub fn witnessed_vote_counts(witnessed: &WitnessedCloseGroup, address: &[u8; 32]) -> (r: Vec<
    String,
>)
    ensures
        exists|list: Seq<(PeerId, usize)>| #[trigger]
            vote_list(list, witnessed.responder_views@, address@) && texts(r@) == vote_texts(list),
{
    let (_, votes) = witnessed_votes_and_nodes(witnessed);
    let counts = counted_votes(&votes, address, Ghost(witnessed.responder_views@));
    let mut out: Vec<String> = Vec::new();
    let mut i: usize = 0;
    while i < counts.len()
        invariant
            i <= counts.len(),
            texts(out@) =~= vote_texts(counts@).take(i as int),
        decreases counts.len() - i,
    {
        let (peer, n): (PeerId, usize) = counts[i];
        let mut line = peer.to_hex();
        line.append(":");
        push_decimal(&mut line, n as u128);
        proof {
            lemma_texts_push(out@, line);
        }
        out.push(line);
        i = i + 1;
    }
    assert(texts(out@) =~= vote_texts(counts@));
    out
}

/// The recognised peers, as text.
fn candidate_list(list: &Vec<WitnessedQuoteCandidate>) -> (r: Vec<String>)
    ensures
        texts(r@) == candidate_texts(list@),
{
    let mut out: Vec<String> = Vec::new();
    let mut i: usize = 0;
    while i < list.len()
        invariant
            i <= list.len(),
            texts(out@) =~= candidate_texts(list@).take(i as int),
        decreases list.len() - i,
    {
        let mut line = list[i].node.peer_id().to_hex();
        line.append(":");
        push_decimal(&mut line, list[i].votes as u128);
        proof {
            lemma_texts_push(out@, line);
        }
        out.push(line);
        i = i + 1;
    }
    assert(texts(out@) =~= candidate_texts(list@));
    out
}

/// The recognised peers, as text, closest first.
pub fn witnessed_consensus(
    witnessed: &WitnessedCloseGroup,
    address: &[u8; 32],
    quorum: usize,
) -> (r: Vec<String>)
    ensures
        exists|list: Seq<WitnessedQuoteCandidate>| #[trigger]
            consensus(list, *witnessed, address@, quorum as int) && texts(r@) == candidate_texts(
                list,
            ),
{
    let list = witnessed_consensus_candidates(witnessed, address, quorum);
    candidate_list(&list)
}

/// The diagnostic line on a witnessed group.
pub open spec fn diagnostics_text(
    address: Seq<u8>,
    witnessed: WitnessedCloseGroup,
    votes: Seq<Seq<char>>,
    quorum: nat,
    recognised: Seq<Seq<char>>,
) -> Seq<char> {
    "target="@ + hex_text(address) + ", initial="@ + list_text(
        peer_texts(witnessed.initial_closest@),
    ) + ", responder_views="@ + list_text(view_texts(witnessed.responder_views@))
        + ", vote_counts="@ + list_text(votes) + ", quorum="@ + decimal_text(quorum) + ", final="@
        + list_text(recognised)
}

/// Whether `text` is the diagnostic line on a witnessed group.
pub open spec fn diagnoses(
    text: Seq<char>,
    address: Seq<u8>,
    witnessed: WitnessedCloseGroup,
    quorum: int,
) -> bool {
    exists|votes: Seq<(PeerId, usize)>, list: Seq<WitnessedQuoteCandidate>|
        #![trigger vote_texts(votes), candidate_texts(list)]
        vote_list(votes, witnessed.responder_views@, address) && consensus(
            list,
            witnessed,
            address,
            quorum,
        ) && text == diagnostics_text(
            address,
            witnessed,
            vote_texts(votes),
            quorum as nat,
            candidate_texts(list),
        )
}

/// The diagnostic line on a witnessed group.
pub fn witnessed_close_group_diagnostics(
    address: &[u8; 32],
    witnessed: &WitnessedCloseGroup,
    quorum: usize,
) -> (r: String)
    ensures
        diagnoses(r@, address@, *witnessed, quorum as int),
{
    let votes = witnessed_vote_counts(witnessed, address);
    let recognised = witnessed_consensus(witnessed, address, quorum);
    let mut m = "target=".to_owned();
    m.append(hex_encode(address).as_str());
    m.append(", initial=");
    m.append(render_list(&witnessed_initial_peers(witnessed)).as_str());
    m.append(", responder_views=");
    m.append(render_list(&witnessed_responder_views(witnessed)).as_str());
    m.append(", vote_counts=");
    m.append(render_list(&votes).as_str());
    m.append(", quorum=");
    push_decimal(&mut m, quorum as u128);
    m.append(", final=");
    m.append(render_list(&recognised).as_str());
    proof {
        let list = choose|list: Seq<(PeerId, usize)>| #[trigger]
            vote_list(list, witnessed.responder_views@, address@) && texts(votes@) == vote_texts(
                list,
            );
        let cs = choose|list: Seq<WitnessedQuoteCandidate>| #[trigger]
            consensus(list, *witnessed, address@, quorum as int) && texts(recognised@)
                == candidate_texts(list);
        assert(m@ == diagnostics_text(
            address@,
            *witnessed,
            vote_texts(list),
            quorum as nat,
            candidate_texts(cs),
        ));
    }
    m
}

/// The error when too few peers are recognised.
pub open spec fn inconclusive_text(got: nat, required: nat, diagnostics: Seq<char>) -> Seq<char> {
    "Witnessed close group inconclusive before payment: got "@ + decimal_text(got) + "/"@
        + decimal_text(required) + " quorum-recognised peers. "@ + diagnostics
}

/// The peers to ask for quotes: all that are recognised, where these are at
/// least `required`. Otherwise nothing is paid and the error says what was seen.
pub fn witnessed_quote_peers_or_error(
    address: &[u8; 32],
    witnessed: &WitnessedCloseGroup,
    required: usize,
    quorum: usize,
) -> (r: Result<Vec<WitnessedQuotePeer>, Error>)
    ensures
        exists|list: Seq<WitnessedQuoteCandidate>| #[trigger]
            consensus(list, *witnessed, address@, quorum as int) && match r {
                Ok(peers) => {
                    &&& list.len() >= required
                    &&& peers@.len() == list.len()
                    &&& forall|i: int|
                        0 <= i < list.len() ==> {
                            &&& (#[trigger] peers@[i]).peer_id@ == list[i].node@.peer
                            &&& peers@[i].addrs@ == prioritised_addresses(list[i].node@.record)
                            &&& peers@[i].voters@ == list[i].voters@
                        }
                },
                Err(Error::InsufficientPeers(m)) => list.len() < required && exists|d: Seq<char>|
                    #[trigger] diagnoses(d, address@, *witnessed, quorum as int) && m@
                        == inconclusive_text(list.len(), required as nat, d),
                Err(_) => false,
            },
{
    let mut candidates = witnessed_consensus_candidates(witnessed, address, quorum);
    let ghost list = candidates@;
    if candidates.len() < required {
        let d = witnessed_close_group_diagnostics(address, witnessed, quorum);
        let mut m = "Witnessed close group inconclusive before payment: got ".to_owned();
        push_decimal(&mut m, candidates.len() as u128);
        m.append("/");
        push_decimal(&mut m, required as u128);
        m.append(" quorum-recognised peers. ");
        m.append(d.as_str());
        assert(diagnoses(d@, address@, *witnessed, quorum as int));
        assert(m@ == inconclusive_text(list.len(), required as nat, d@));
        return Err(Error::InsufficientPeers(m));
    }
    let mut peers: Vec<WitnessedQuotePeer> = Vec::new();
    let n: usize = candidates.len();
    let mut i: usize = 0;
    assert(list.skip(0) =~= list);
    while i < n
        invariant
            i <= n,
            n == list.len(),
            candidates@ == list.skip(i as int),
            peers.len() == i,
            forall|k: int|
                0 <= k < i ==> {
                    &&& (#[trigger] peers@[k]).peer_id@ == list[k].node@.peer
                    &&& peers@[k].addrs@ == prioritised_addresses(list[k].node@.record)
                    &&& peers@[k].voters@ == list[k].voters@
                },
        decreases n - i,
    {
        let WitnessedQuoteCandidate { node, votes: _, voters } = candidates.remove(0);
        assert(candidates@ =~= list.skip(i + 1));
        let peer_id = node.peer_id();
        let addrs = addresses_by_priority(&node.record);
        peers.push(WitnessedQuotePeer { peer_id, addrs, voters });
        i = i + 1;
    }
    Ok(peers)
}

/// A key binds one peer at most: a quote with another peer's key counts for nobody
/// but that peer.
pub proof fn key_belongs_to_one_peer(a: Seq<u8>, b: Seq<u8>, pub_key: Seq<u8>)
    requires
        binds(a, pub_key),
        binds(b, pub_key),
    ensures
        a == b,
        a == content_address(pub_key),
        pub_key.len() == ML_DSA_PUB_KEY_LEN,
{
}

/// A responder vouches for exactly those peers that one of its views names.
pub proof fn voters_name_the_peer(views: Seq<ResponderView>, peer: Seq<u8>, responder: Seq<u8>)
    ensures
        voters_of(views, peer).contains(responder) <==> exists|i: int, j: int|
            {
                &&& 0 <= i < views.len()
                &&& views[i].responder@ == responder
                &&& 0 <= j < views[i].closest@.len()
                &&& (#[trigger] views[i].closest@[j])@.peer == peer
            },
        voters_of(views, peer).finite(),
        voters_of(views, peer).len() <= views.len(),
    decreases views.len(),
{
    if views.len() > 0 {
        let t = views.drop_last();
        let n = views.len() - 1;
        voters_name_the_peer(t, peer, responder);
        assert(forall|i: int| 0 <= i < t.len() ==> t[i] == views[i]);
        if lists(views.last().closest@, peer) {
            let j = choose|j: int|
                0 <= j < views.last().closest@.len() && (#[trigger] views.last().closest@[j])@.peer
                    == peer;
            assert(views[n].closest@[j]@.peer == peer);
        }
        if voters_of(t, peer).contains(responder) {
            let (i, j) = choose|i: int, j: int|
                {
                    &&& 0 <= i < t.len()
                    &&& t[i].responder@ == responder
                    &&& 0 <= j < t[i].closest@.len()
                    &&& (#[trigger] t[i].closest@[j])@.peer == peer
                };
            assert(views[i].closest@[j]@.peer == peer);
        }
        if exists|i: int, j: int|
            {
                &&& 0 <= i < views.len()
                &&& views[i].responder@ == responder
                &&& 0 <= j < views[i].closest@.len()
                &&& (#[trigger] views[i].closest@[j])@.peer == peer
            } {
            let (i, j) = choose|i: int, j: int|
                {
                    &&& 0 <= i < views.len()
                    &&& views[i].responder@ == responder
                    &&& 0 <= j < views[i].closest@.len()
                    &&& (#[trigger] views[i].closest@[j])@.peer == peer
                };
            if i < n {
                assert(t[i].closest@[j]@.peer == peer);
            } else {
                assert(views.last().closest@[j]@.peer == peer);
            }
        }
    }
}

/// A peer is known exactly where some record is about it, from the lookup or from a
/// responder; what is known of it is about it, and a single record stands as it is.
pub proof fn known_peers_have_a_record(all: Seq<NodeView>, peer: Seq<u8>)
    ensures
        merged_record(all, peer) is Some <==> exists|i: int|
            0 <= i < all.len() && (#[trigger] all[i]).peer == peer,
        merged_record(all, peer) matches Some(m) ==> m.peer == peer,
        forall|i: int|
            #![trigger all[i]]
            0 <= i < all.len() && all[i].peer == peer && (forall|k: int|
                0 <= k < all.len() && k != i ==> (#[trigger] all[k]).peer != peer)
                ==> merged_record(all, peer) == Some(all[i]),
    decreases all.len(),
{
    lemma_merged_record_peer(all, peer);
    if all.len() > 0 {
        let t = all.drop_last();
        let n = all.len() - 1;
        known_peers_have_a_record(t, peer);
        assert(forall|i: int| 0 <= i < t.len() ==> t[i] == all[i]);
        assert(all[n] == all.last());
        if merged_record(t, peer) is Some {
            let i = choose|i: int| 0 <= i < t.len() && (#[trigger] t[i]).peer == peer;
            assert(all[i].peer == peer);
        }
        if exists|i: int| 0 <= i < all.len() && (#[trigger] all[i]).peer == peer {
            let i = choose|i: int| 0 <= i < all.len() && (#[trigger] all[i]).peer == peer;
            if i < n {
                assert(t[i].peer == peer);
            }
        }
        assert forall|i: int|
            #![trigger all[i]]
            0 <= i < all.len() && all[i].peer == peer && (forall|k: int|
                0 <= k < all.len() && k != i ==> (#[trigger] all[k]).peer
                    != peer) implies merged_record(all, peer) == Some(all[i]) by {
            if i < n {
                assert(all[n].peer != peer);
                assert forall|k: int| 0 <= k < t.len() && k != i implies (#[trigger] t[k]).peer
                    != peer by {
                    assert(all[k].peer != peer);
                }
                assert(t[i] == all[i]);
            } else if merged_record(t, peer) is Some {
                let k = choose|k: int| 0 <= k < t.len() && (#[trigger] t[k]).peer == peer;
                assert(all[k].peer == peer);
            }
        }
    }
}

/// Every record of the lookup and of every responder's view is taken into account, and
/// no other.
pub proof fn all_records_count(
    initial: Seq<DhtNode>,
    views: Seq<ResponderView>,
    record: NodeView,
)
    ensures
        records(initial, views).contains(record) <==> {
            ||| exists|i: int| 0 <= i < initial.len() && (#[trigger] initial[i])@ == record
            ||| exists|i: int, j: int|
                {
                    &&& 0 <= i < views.len()
                    &&& 0 <= j < views[i].closest@.len()
                    &&& (#[trigger] views[i].closest@[j])@ == record
                }
        },
    decreases views.len(),
{
    let all = records(initial, views);
    if views.len() == 0 {
        if exists|i: int| 0 <= i < initial.len() && (#[trigger] initial[i])@ == record {
            let i = choose|i: int| 0 <= i < initial.len() && (#[trigger] initial[i])@ == record;
            assert(all[i] == record);
        }
        if all.contains(record) {
            let i = choose|i: int| 0 <= i < all.len() && all[i] == record;
            assert(initial[i]@ == record);
        }
    } else {
        let t = views.drop_last();
        let n = views.len() - 1;
        let before = records(initial, t);
        let last = node_views(views.last().closest@);
        all_records_count(initial, t, record);
        assert(forall|i: int| 0 <= i < t.len() ==> t[i] == views[i]);
        if all.contains(record) {
            let k = choose|k: int| 0 <= k < all.len() && all[k] == record;
            if k < before.len() {
                assert(before[k] == record);
                if !(exists|i: int| 0 <= i < initial.len() && (#[trigger] initial[i])@ == record) {
                    let (i, j) = choose|i: int, j: int|
                        {
                            &&& 0 <= i < t.len()
                            &&& 0 <= j < t[i].closest@.len()
                            &&& (#[trigger] t[i].closest@[j])@ == record
                        };
                    assert(views[i].closest@[j]@ == record);
                }
            } else {
                assert(last[k - before.len()] == record);
                assert(views[n].closest@[k - before.len()]@ == record);
            }
        }
        if before.contains(record) {
            let k = choose|k: int| 0 <= k < before.len() && before[k] == record;
            assert(all[k] == record);
        }
        if exists|i: int, j: int|
            {
                &&& 0 <= i < views.len()
                &&& 0 <= j < views[i].closest@.len()
                &&& (#[trigger] views[i].closest@[j])@ == record
            } {
            let (i, j) = choose|i: int, j: int|
                {
                    &&& 0 <= i < views.len()
                    &&& 0 <= j < views[i].closest@.len()
                    &&& (#[trigger] views[i].closest@[j])@ == record
                };
            if i < n {
                assert(t[i].closest@[j]@ == record);
            } else {
                assert(last[j] == record);
                assert(all[before.len() + j] == record);
            }
        }
    }
}

/// The recognised peers are exactly those that at least as many different responders
/// name as the quorum asks for, the closest first and none twice, and each comes with
/// those that name it.
pub proof fn recognised_peers_have_a_quorum(
    list: Seq<WitnessedQuoteCandidate>,
    witnessed: WitnessedCloseGroup,
    address: Seq<u8>,
    quorum: int,
    peer: Seq<u8>,
    responders: Set<Seq<u8>>,
)
    requires
        consensus(list, witnessed, address, quorum),
        quorum > 0,
        forall|r: Seq<u8>| #[trigger]
            responders.contains(r) <==> exists|i: int, j: int|
                {
                    &&& 0 <= i < witnessed.responder_views@.len()
                    &&& witnessed.responder_views@[i].responder@ == r
                    &&& 0 <= j < witnessed.responder_views@[i].closest@.len()
                    &&& (#[trigger] witnessed.responder_views@[i].closest@[j])@.peer == peer
                },
    ensures
        responders.len() >= quorum <==> exists|i: int|
            0 <= i < list.len() && (#[trigger] list[i]).node@.peer == peer,
        forall|i: int|
            0 <= i < list.len() && (#[trigger] list[i]).node@.peer == peer ==> list[i].voters@
                == responders && list[i].votes == responders.len(),
        forall|i: int, j: int|
            0 <= i < j < list.len() ==> distance((#[trigger] list[i]).node@.peer, address)
                < distance((#[trigger] list[j]).node@.peer, address),
{
    let views = witnessed.responder_views@;
    let v = voters_of(views, peer);
    assert forall|r: Seq<u8>| #[trigger] responders.contains(r) <==> v.contains(r) by {
        voters_name_the_peer(views, peer, r);
    }
    assert(responders =~= v);
    voters_name_the_peer(views, peer, Seq::empty());
    if v.len() >= quorum {
        if v =~= Set::<Seq<u8>>::empty() {
            assert(v.len() == 0);
        }
    }
}

} // verus!
