//! The peers closest to an address, as the routing layer finds them.

use vstd::prelude::*;
use vstd::string::*;

use crate::chunked::lower;
use crate::data::client::merkle_candidates::ReachablePeer;
use crate::data::error::{joined, Error};
use crate::protocol::{addresses_by_priority, prioritised_addresses, DhtNode, NodeView};
use crate::xor::PeerId;

verus! {

/// How many nodes to ask the routing layer for: one more, since it may name
/// this client.
pub fn lookup_size(count: usize) -> (r: usize)
    requires
        count < usize::MAX,
    ensures
        r == count + 1,
{
    count + 1
}

/// The nodes of a list that are not this client, in order.
pub open spec fn others(nodes: Seq<DhtNode>, local: Seq<u8>) -> Seq<DhtNode>
    decreases nodes.len(),
{
    if nodes.len() == 0 {
        Seq::empty()
    } else if nodes.last()@.peer == local {
        others(nodes.drop_last(), local)
    } else {
        others(nodes.drop_last(), local).push(nodes.last())
    }
}

/// Whether a peer is that of a node, with the node's addresses by priority.
pub open spec fn reaches(peer: ReachablePeer, node: NodeView) -> bool {
    &&& peer.0@ == node.peer
    &&& peer.1@ == prioritised_addresses(node.record)
}

/// The closest peers that a lookup found: without this client, and no more than
/// were asked for, each with its addresses by priority.
pub fn find_closest_peers(nodes: Vec<DhtNode>, local: &PeerId, count: usize) -> (r: Vec<
    ReachablePeer,
>)
    ensures
        r@.len() == lower(others(nodes@, local@).len() as int, count as int),
        forall|i: int|
            0 <= i < r@.len() ==> reaches(#[trigger] r@[i], others(nodes@, local@)[i]@),
{
    let ghost all = nodes@;
    let mut rest = nodes;
    let n: usize = rest.len();
    let mut out: Vec<ReachablePeer> = Vec::new();
    let mut i: usize = 0;
    assert(all.skip(0) =~= all);
    assert(all.take(0) =~= Seq::empty());
    while i < n
        invariant
            i <= n,
            n == all.len(),
            rest@ == all.skip(i as int),
            out@.len() == lower(others(all.take(i as int), local@).len() as int, count as int),
            forall|k: int|
                0 <= k < out@.len() ==> reaches(
                    #[trigger] out@[k],
                    others(all.take(i as int), local@)[k]@,
                ),
        decreases n - i,
    {
        let node = rest.remove(0);
        proof {
            assert(node == all[i as int]);
            assert(rest@ =~= all.skip(i + 1));
            assert(all.take(i + 1).drop_last() =~= all.take(i as int));
            assert(all.take(i + 1).last() == node);
        }
        let peer_id = node.peer_id();
        if !peer_id.same(local) && out.len() < count {
            out.push((peer_id, addresses_by_priority(&node.record)));
        }
        i = i + 1;
    }
    assert(all.take(i as int) =~= all);
    out
}

/// This client is never among the peers that a lookup gives.
pub proof fn lookup_leaves_out_this_client(nodes: Seq<DhtNode>, local: Seq<u8>, i: int)
    requires
        0 <= i < others(nodes, local).len(),
    ensures
        others(nodes, local)[i]@.peer != local,
    decreases nodes.len(),
{
    if nodes.len() > 0 {
        let rest = others(nodes.drop_last(), local);
        if i < rest.len() {
            lookup_leaves_out_this_client(nodes.drop_last(), local, i);
        }
    }
}

/// The error when a lookup fails.
pub fn lookup_error(reason: &str) -> (r: Error)
    ensures
        r matches Error::Network(m) && m@ == "DHT closest-nodes lookup failed: "@ + reason@,
{
    Error::Network(joined("DHT closest-nodes lookup failed: ", reason))
}

/// The steps in which a client joins the network.
#[derive(Clone, Copy, Debug, PartialEq, Eq, Structural)]
pub enum JoinStep {
    /// Building the configuration.
    Configure,
    /// Creating the node.
    Create,
    /// Starting the node.
    Start,
}

/// The message that a failed step starts with.
pub open spec fn join_text(step: JoinStep) -> Seq<char> {
    match step {
        JoinStep::Configure => "Failed to create core config: "@,
        JoinStep::Create => "Failed to create P2P node: "@,
        JoinStep::Start => "Failed to start P2P node: "@,
    }
}

/// The error of a step that failed.
pub fn join_error(step: JoinStep, reason: &str) -> (r: Error)
    ensures
        r matches Error::Network(m) && m@ == join_text(step) + reason@,
{
    let head = match step {
        JoinStep::Configure => "Failed to create core config: ",
        JoinStep::Create => "Failed to create P2P node: ",
        JoinStep::Start => "Failed to start P2P node: ",
    };
    Error::Network(joined(head, reason))
}

/// A lookup gives every node but this client, in the order in which they were found.
pub proof fn lookup_keeps_everybody_else(nodes: Seq<DhtNode>, local: Seq<u8>)
    ensures
        others(nodes, local) == nodes.filter(|n: DhtNode| n@.peer != local),
    decreases nodes.len(),
{
    reveal(Seq::filter);
    if nodes.len() > 0 {
        lookup_keeps_everybody_else(nodes.drop_last(), local);
    }
    assert(others(nodes, local) =~= nodes.filter(|n: DhtNode| n@.peer != local));
}

} // verus!
