//! The cache of peers that a client has been connected to. It is read back when
//! the client starts, before the configured peers.
//!
//! A client's own peer id does not last, so the cache is not ordered by
//! distance. It keeps the most recent peers, spread over addresses and subnets.

use vstd::prelude::*;
use vstd::string::*;

use crate::collections::AddressSet;
use crate::data::client::file_download::upper;
use crate::paths::{extends_path, path_join};
use crate::order::{
    ascending_by, lemma_sort_map, lemma_stable_sort_contains, sort_by_keys, sorting_the_sorted_changes_nothing, stable_sort, stable_sort_keeps_earlier_order, stable_sort_orders_and_keeps,
};
use crate::text::{decimal_text, hex_text, push_decimal, same_text};
use crate::uint256::{be_value, U256};
use crate::xor::PeerId;

verus! {

/// Most peers that the cache keeps.
pub const CLIENT_PEER_CACHE_MAX_PEERS: usize = 50;

/// Version of the cache file's layout.
pub const CLIENT_PEER_CACHE_SCHEMA_VERSION: u32 = 1;

/// Most peers at one IP address, where nothing else is configured.
pub const DEFAULT_MAX_PER_EXACT_IP: usize = 2;

/// Share of a bucket that one subnet may take up: one part in this many.
pub const SUBNET_LIMIT_K_DIVISOR: usize = 4;

/// Number of groups into which peers fall by the first bits of their ids.
pub const PEER_ID_SECTOR_COUNT: usize = 16;

/// Priority of addresses that were reached without help.
pub const DIRECT_ADDRESS_TYPE_PRIORITY: u8 = 1;

/// An IP address, as a number in network order.
#[derive(Clone, Copy, Debug, PartialEq, Eq, Structural)]
pub enum IpAddress {
    V4(u32),
    V6(u128),
}

/// An IP address and a port.
#[derive(Clone, Copy, Debug, PartialEq, Eq, Structural)]
pub struct Socket {
    pub ip: IpAddress,
    pub port: u16,
}

/// The network that an IP address belongs to: the first 24 bits, or the first
/// 48 bits.
#[derive(Clone, Copy, Debug, PartialEq, Eq, Structural)]
pub enum SubnetKey {
    V4(u32),
    V6(u64),
}

/// An address in the form in which comparisons are made: one that maps a
/// shorter address is that shorter address.
pub open spec fn canonical(ip: IpAddress) -> IpAddress {
    match ip {
        IpAddress::V4(n) => IpAddress::V4(n),
        IpAddress::V6(n) => if n / 0x1_0000_0000 == 0xffff {
            IpAddress::V4((n % 0x1_0000_0000) as u32)
        } else {
            IpAddress::V6(n)
        },
    }
}

/// The network of an address.
pub open spec fn subnet_of(ip: IpAddress) -> SubnetKey {
    match ip {
        IpAddress::V4(n) => SubnetKey::V4((n / 0x100) as u32),
        IpAddress::V6(n) => SubnetKey::V6((n / 0x1_0000_0000_0000_0000_0000) as u64),
    }
}

/// An address in the form in which comparisons are made.
pub fn canonical_ip(ip: IpAddress) -> (r: IpAddress)
    ensures
        r == canonical(ip),
{
    match ip {
        IpAddress::V4(n) => IpAddress::V4(n),
        IpAddress::V6(n) => if n / 0x1_0000_0000 == 0xffff {
            IpAddress::V4((n % 0x1_0000_0000) as u32)
        } else {
            IpAddress::V6(n)
        },
    }
}

/// The network of an address.
pub fn subnet_key(ip: IpAddress) -> (r: SubnetKey)
    ensures
        r == subnet_of(ip),
{
    match ip {
        IpAddress::V4(n) => SubnetKey::V4(n / 0x100),
        IpAddress::V6(n) => SubnetKey::V6((n / 0x1_0000_0000_0000_0000_0000) as u64),
    }
}

/// An address at which a peer can be reached.
#[derive(Clone, Debug)]
pub struct PeerAddress {
    /// Text of the address without a peer id.
    pub transport: String,
    /// Where a connection can be opened.
    pub socket: Option<Socket>,
    /// The peer that is expected there.
    pub peer_id: Option<PeerId>,
}

/// The contents of an address.
pub struct PeerAddressView {
    pub transport: Seq<char>,
    pub socket: Option<Socket>,
    pub peer_id: Option<Seq<u8>>,
}

impl View for PeerAddress {
    type V = PeerAddressView;

    open spec fn view(&self) -> PeerAddressView {
        PeerAddressView {
            transport: self.transport@,
            socket: self.socket,
            peer_id: match self.peer_id {
                Some(p) => Some(p@),
                None => None,
            },
        }
    }
}

/// The contents of a list of addresses.
pub open spec fn address_list(list: Seq<PeerAddress>) -> Seq<PeerAddressView> {
    list.map_values(|a: PeerAddress| a@)
}

/// The text of an address.
pub open spec fn address_text(a: PeerAddressView) -> Seq<char> {
    match a.peer_id {
        Some(p) => a.transport + "/p2p/"@ + hex_text(p),
        None => a.transport,
    }
}

fn same_peer(a: &Option<PeerId>, b: &Option<PeerId>) -> (r: bool)
    ensures
        r == (match *a {
            Some(p) => Some(p@),
            None => None,
        } == match *b {
            Some(p) => Some(p@),
            None => None,
        }),
{
    match (a, b) {
        (Some(x), Some(y)) => x.same(y),
        (None, None) => true,
        _ => false,
    }
}

impl PeerAddress {
    /// The text of the address.
    pub fn text(&self) -> (r: String)
        ensures
            r@ == address_text(self@),
    {
        let mut t = self.transport.as_str().to_owned();
        match &self.peer_id {
            Some(p) => {
                t.append("/p2p/");
                t.append(p.to_hex().as_str());
            },
            None => {},
        }
        t
    }

    fn same(&self, other: &PeerAddress) -> (r: bool)
        ensures
            r == (self@ == other@),
    {
        same_text(self.transport.as_str(), other.transport.as_str()) && self.socket == other.socket
            && same_peer(&self.peer_id, &other.peer_id)
    }

    fn duplicate(&self) -> (r: PeerAddress)
        ensures
            r@ == self@,
    {
        PeerAddress {
            transport: self.transport.as_str().to_owned(),
            socket: self.socket,
            peer_id: self.peer_id,
        }
    }
}

fn same_addresses(a: &Vec<PeerAddress>, b: &Vec<PeerAddress>) -> (r: bool)
    ensures
        r == (address_list(a@) == address_list(b@)),
{
    if a.len() != b.len() {
        assert(address_list(a@).len() != address_list(b@).len());
        return false;
    }
    let mut i: usize = 0;
    while i < a.len()
        invariant
            i <= a.len(),
            a.len() == b.len(),
            forall|k: int| 0 <= k < i ==> (#[trigger] a@[k])@ == b@[k]@,
        decreases a.len() - i,
    {
        if !a[i].same(&b[i]) {
            assert(address_list(a@)[i as int] != address_list(b@)[i as int]);
            return false;
        }
        i = i + 1;
    }
    assert(address_list(a@) =~= address_list(b@));
    true
}

fn copy_list(list: &Vec<PeerAddress>) -> (r: Vec<PeerAddress>)
    ensures
        address_list(r@) == address_list(list@),
{
    let mut out: Vec<PeerAddress> = Vec::new();
    let mut i: usize = 0;
    while i < list.len()
        invariant
            i <= list.len(),
            out@.len() == i,
            forall|k: int| 0 <= k < i ==> (#[trigger] out@[k])@ == list@[k]@,
        decreases list.len() - i,
    {
        out.push(list[i].duplicate());
        i = i + 1;
    }
    assert(address_list(out@) =~= address_list(list@));
    out
}

/// A peer in the cache.
#[derive(Clone, Debug)]
pub struct CachedPeer {
    pub peer_id: PeerId,
    pub direct_addresses: Vec<PeerAddress>,
    pub first_connected_epoch_secs: u64,
    pub last_connected_epoch_secs: u64,
}

/// The contents of a cache entry.
pub struct CachedPeerView {
    pub peer_id: Seq<u8>,
    pub direct_addresses: Seq<PeerAddressView>,
    pub first_connected: u64,
    pub last_connected: u64,
}

impl View for CachedPeer {
    type V = CachedPeerView;

    open spec fn view(&self) -> CachedPeerView {
        CachedPeerView {
            peer_id: self.peer_id@,
            direct_addresses: address_list(self.direct_addresses@),
            first_connected: self.first_connected_epoch_secs,
            last_connected: self.last_connected_epoch_secs,
        }
    }
}

/// The contents of a list of cache entries.
pub open spec fn peer_list(list: Seq<CachedPeer>) -> Seq<CachedPeerView> {
    list.map_values(|p: CachedPeer| p@)
}

impl CachedPeer {
    fn same(&self, other: &CachedPeer) -> (r: bool)
        ensures
            r == (self@ == other@),
    {
        self.peer_id.same(&other.peer_id) && same_addresses(
            &self.direct_addresses,
            &other.direct_addresses,
        ) && self.first_connected_epoch_secs == other.first_connected_epoch_secs
            && self.last_connected_epoch_secs == other.last_connected_epoch_secs
    }

    fn duplicate(&self) -> (r: CachedPeer)
        ensures
            r@ == self@,
    {
        CachedPeer {
            peer_id: self.peer_id,
            direct_addresses: copy_list(&self.direct_addresses),
            first_connected_epoch_secs: self.first_connected_epoch_secs,
            last_connected_epoch_secs: self.last_connected_epoch_secs,
        }
    }
}

fn same_peers(a: &Vec<CachedPeer>, b: &Vec<CachedPeer>) -> (r: bool)
    ensures
        r == (peer_list(a@) == peer_list(b@)),
{
    if a.len() != b.len() {
        assert(peer_list(a@).len() != peer_list(b@).len());
        return false;
    }
    let mut i: usize = 0;
    while i < a.len()
        invariant
            i <= a.len(),
            a.len() == b.len(),
            forall|k: int| 0 <= k < i ==> (#[trigger] a@[k])@ == b@[k]@,
        decreases a.len() - i,
    {
        if !a[i].same(&b[i]) {
            assert(peer_list(a@)[i as int] != peer_list(b@)[i as int]);
            return false;
        }
        i = i + 1;
    }
    assert(peer_list(a@) =~= peer_list(b@));
    true
}

fn copy_peers(list: &Vec<CachedPeer>) -> (r: Vec<CachedPeer>)
    ensures
        peer_list(r@) == peer_list(list@),
{
    let mut out: Vec<CachedPeer> = Vec::new();
    let mut i: usize = 0;
    while i < list.len()
        invariant
            i <= list.len(),
            out@.len() == i,
            forall|k: int| 0 <= k < i ==> (#[trigger] out@[k])@ == list@[k]@,
        decreases list.len() - i,
    {
        out.push(list[i].duplicate());
        i = i + 1;
    }
    assert(peer_list(out@) =~= peer_list(list@));
    out
}

/// An address with the peer that is expected there.
pub open spec fn with_peer(a: PeerAddressView, peer_id: Seq<u8>) -> PeerAddressView {
    PeerAddressView { transport: a.transport, socket: a.socket, peer_id: Some(peer_id) }
}

/// The addresses at which a connection can be opened, with the peer that is
/// expected there, each one once.
pub open spec fn sanitized(peer_id: Seq<u8>, list: Seq<PeerAddressView>) -> Seq<PeerAddressView>
    decreases list.len(),
{
    if list.len() == 0 {
        Seq::empty()
    } else {
        let rest = sanitized(peer_id, list.drop_last());
        let a = with_peer(list.last(), peer_id);
        if a.socket is None || has_text(rest, address_text(a)) {
            rest
        } else {
            rest.push(a)
        }
    }
}

/// Whether an address of the list has this text.
pub open spec fn has_text(list: Seq<PeerAddressView>, text: Seq<char>) -> bool {
    exists|i: int| 0 <= i < list.len() && address_text(#[trigger] list[i]) == text
}

fn known_text(list: &Vec<PeerAddress>, text: &str) -> (r: bool)
    ensures
        r == has_text(address_list(list@), text@),
{
    let ghost views = address_list(list@);
    let mut i: usize = 0;
    while i < list.len()
        invariant
            i <= list.len(),
            views == address_list(list@),
            forall|k: int| 0 <= k < i ==> address_text(#[trigger] views[k]) != text@,
        decreases list.len() - i,
    {
        if same_text(list[i].text().as_str(), text) {
            assert(address_text(views[i as int]) == text@);
            return true;
        }
        i = i + 1;
    }
    false
}

/// The usable addresses of a peer.
pub fn sanitize_direct_addresses(peer_id: PeerId, direct_addresses: Vec<PeerAddress>) -> (r: Vec<
    PeerAddress,
>)
    ensures
        address_list(r@) == sanitized(peer_id@, address_list(direct_addresses@)),
{
    let ghost all = address_list(direct_addresses@);
    let mut kept: Vec<PeerAddress> = Vec::new();
    let mut i: usize = 0;
    assert(all.take(0) =~= Seq::empty());
    assert(address_list(kept@) =~= Seq::empty());
    while i < direct_addresses.len()
        invariant
            i <= direct_addresses.len(),
            all == address_list(direct_addresses@),
            address_list(kept@) == sanitized(peer_id@, all.take(i as int)),
        decreases direct_addresses.len() - i,
    {
        let mut a = direct_addresses[i].duplicate();
        a.peer_id = Some(peer_id);
        proof {
            assert(all.take(i + 1).drop_last() =~= all.take(i as int));
            assert(a@ == with_peer(all[i as int], peer_id@));
        }
        if a.socket.is_some() && !known_text(&kept, a.text().as_str()) {
            let ghost before = kept@;
            let ghost v = a@;
            kept.push(a);
            assert(address_list(kept@) =~= address_list(before).push(v));
        }
        i = i + 1;
    }
    assert(all.take(i as int) =~= all);
    kept
}

/// Limits on how many peers may share an address or a network.
#[derive(Clone, Copy, Debug)]
pub struct IpLimits {
    pub max_per_ip: Option<usize>,
    pub max_per_subnet: Option<usize>,
}

impl Default for IpLimits {
    fn default() -> (r: IpLimits)
        ensures
            r.max_per_ip is None,
            r.max_per_subnet is None,
    {
        IpLimits { max_per_ip: None, max_per_subnet: None }
    }
}

impl IpLimits {
    /// Limits that nothing reaches.
    pub fn permissive() -> (r: IpLimits)
        ensures
            r.max_per_ip == Some(usize::MAX),
            r.max_per_subnet == Some(usize::MAX),
    {
        IpLimits { max_per_ip: Some(usize::MAX), max_per_subnet: Some(usize::MAX) }
    }

    /// The limit per address that holds.
    pub open spec fn per_ip(&self) -> nat {
        match self.max_per_ip {
            Some(n) => n as nat,
            None => DEFAULT_MAX_PER_EXACT_IP as nat,
        }
    }

    /// The limit per network that holds for a bucket size.
    pub open spec fn per_subnet(&self, k_value: usize) -> nat {
        match self.max_per_subnet {
            Some(n) => n as nat,
            None => subnet_limit(k_value),
        }
    }
}

/// A quarter of the bucket size, at least one.
pub open spec fn subnet_limit(k_value: usize) -> nat {
    if k_value / SUBNET_LIMIT_K_DIVISOR >= 1 {
        (k_value / SUBNET_LIMIT_K_DIVISOR) as nat
    } else {
        1
    }
}

/// Most peers of one network, where nothing else is configured.
pub fn default_subnet_limit(k_value: usize) -> (r: usize)
    ensures
        r == subnet_limit(k_value),
{
    let part: usize = k_value / SUBNET_LIMIT_K_DIVISOR;
    if part >= 1 {
        part
    } else {
        1
    }
}

/// Whether an address is at this IP address.
pub open spec fn at_ip(a: PeerAddressView, ip: IpAddress) -> bool {
    a.socket matches Some(s) && canonical(s.ip) == ip
}

/// Whether an address is in this network.
pub open spec fn in_subnet(a: PeerAddressView, net: SubnetKey) -> bool {
    a.socket matches Some(s) && subnet_of(canonical(s.ip)) == net
}

/// Whether one of a peer's addresses is at this IP address.
pub open spec fn uses_ip(peer: CachedPeerView, ip: IpAddress) -> bool {
    exists|i: int|
        0 <= i < peer.direct_addresses.len() && at_ip(#[trigger] peer.direct_addresses[i], ip)
}

/// Whether one of a peer's addresses is in this network.
pub open spec fn uses_subnet(peer: CachedPeerView, net: SubnetKey) -> bool {
    exists|i: int|
        0 <= i < peer.direct_addresses.len() && in_subnet(#[trigger] peer.direct_addresses[i], net)
}

/// Number of peers at an IP address.
pub open spec fn ip_count(peers: Seq<CachedPeerView>, ip: IpAddress) -> nat
    decreases peers.len(),
{
    if peers.len() == 0 {
        0
    } else {
        ip_count(peers.drop_last(), ip) + if uses_ip(peers.last(), ip) {
            1nat
        } else {
            0nat
        }
    }
}

/// Number of peers in a network.
pub open spec fn subnet_count(peers: Seq<CachedPeerView>, net: SubnetKey) -> nat
    decreases peers.len(),
{
    if peers.len() == 0 {
        0
    } else {
        subnet_count(peers.drop_last(), net) + if uses_subnet(peers.last(), net) {
            1nat
        } else {
            0nat
        }
    }
}

/// Whether a peer may join others: it can be dialled, and none of its addresses
/// or networks is taken up.
pub open spec fn admissible(
    admitted: Seq<CachedPeerView>,
    peer: CachedPeerView,
    per_ip: nat,
    per_subnet: nat,
) -> bool {
    &&& exists|i: int|
        0 <= i < peer.direct_addresses.len() && (#[trigger] peer.direct_addresses[i]).socket
            is Some
    &&& forall|ip: IpAddress| #[trigger] uses_ip(peer, ip) ==> ip_count(admitted, ip) < per_ip
    &&& forall|net: SubnetKey| #[trigger]
        uses_subnet(peer, net) ==> subnet_count(admitted, net) < per_subnet
}

fn peer_uses_ip(peer: &CachedPeer, ip: IpAddress) -> (r: bool)
    ensures
        r == uses_ip(peer@, ip),
{
    let ghost list = peer@.direct_addresses;
    let mut i: usize = 0;
    while i < peer.direct_addresses.len()
        invariant
            i <= peer.direct_addresses.len(),
            list == address_list(peer.direct_addresses@),
            list == peer@.direct_addresses,
            forall|k: int| 0 <= k < i ==> !at_ip(#[trigger] list[k], ip),
        decreases peer.direct_addresses.len() - i,
    {
        match peer.direct_addresses[i].socket {
            Some(s) => {
                if canonical_ip(s.ip) == ip {
                    assert(at_ip(list[i as int], ip));
                    return true;
                }
            },
            None => {},
        }
        assert(list[i as int].socket == peer.direct_addresses@[i as int].socket);
        i = i + 1;
    }
    false
}

fn peer_uses_subnet(peer: &CachedPeer, net: SubnetKey) -> (r: bool)
    ensures
        r == uses_subnet(peer@, net),
{
    let ghost list = peer@.direct_addresses;
    let mut i: usize = 0;
    while i < peer.direct_addresses.len()
        invariant
            i <= peer.direct_addresses.len(),
            list == address_list(peer.direct_addresses@),
            list == peer@.direct_addresses,
            forall|k: int| 0 <= k < i ==> !in_subnet(#[trigger] list[k], net),
        decreases peer.direct_addresses.len() - i,
    {
        match peer.direct_addresses[i].socket {
            Some(s) => {
                if subnet_key(canonical_ip(s.ip)) == net {
                    assert(in_subnet(list[i as int], net));
                    return true;
                }
            },
            None => {},
        }
        assert(list[i as int].socket == peer.direct_addresses@[i as int].socket);
        i = i + 1;
    }
    false
}

fn count_ip(peers: &Vec<CachedPeer>, ip: IpAddress) -> (r: usize)
    ensures
        r == ip_count(peer_list(peers@), ip),
{
    let ghost list = peer_list(peers@);
    let mut n: usize = 0;
    let mut i: usize = 0;
    assert(list.take(0) =~= Seq::empty());
    while i < peers.len()
        invariant
            i <= peers.len(),
            list == peer_list(peers@),
            n == ip_count(list.take(i as int), ip),
            n <= i,
        decreases peers.len() - i,
    {
        assert(list.take(i + 1).drop_last() =~= list.take(i as int));
        if peer_uses_ip(&peers[i], ip) {
            n = n + 1;
        }
        i = i + 1;
    }
    assert(list.take(i as int) =~= list);
    n
}

fn count_subnet(peers: &Vec<CachedPeer>, net: SubnetKey) -> (r: usize)
    ensures
        r == subnet_count(peer_list(peers@), net),
{
    let ghost list = peer_list(peers@);
    let mut n: usize = 0;
    let mut i: usize = 0;
    assert(list.take(0) =~= Seq::empty());
    while i < peers.len()
        invariant
            i <= peers.len(),
            list == peer_list(peers@),
            n == subnet_count(list.take(i as int), net),
            n <= i,
        decreases peers.len() - i,
    {
        assert(list.take(i + 1).drop_last() =~= list.take(i as int));
        if peer_uses_subnet(&peers[i], net) {
            n = n + 1;
        }
        i = i + 1;
    }
    assert(list.take(i as int) =~= list);
    n
}

/// Whether a peer may join others.
pub fn admit_peer(
    admitted: &Vec<CachedPeer>,
    peer: &CachedPeer,
    max_per_ip: usize,
    max_per_subnet: usize,
) -> (r: bool)
    ensures
        r == admissible(
            peer_list(admitted@),
            peer@,
            max_per_ip as nat,
            max_per_subnet as nat,
        ),
{
    let ghost list = peer@.direct_addresses;
    let ghost others = peer_list(admitted@);
    let mut dialable = false;
    let mut i: usize = 0;
    while i < peer.direct_addresses.len()
        invariant
            i <= peer.direct_addresses.len(),
            list == address_list(peer.direct_addresses@),
            list == peer@.direct_addresses,
            others == peer_list(admitted@),
            dialable <==> exists|k: int| 0 <= k < i && (#[trigger] list[k]).socket is Some,
            forall|k: int|
                #![trigger list[k]]
                0 <= k < i ==> (list[k].socket matches Some(s) ==> ip_count(
                    others,
                    canonical(s.ip),
                ) < max_per_ip && subnet_count(others, subnet_of(canonical(s.ip)))
                    < max_per_subnet),
        decreases peer.direct_addresses.len() - i,
    {
        assert(list[i as int].socket == peer.direct_addresses@[i as int].socket);
        match peer.direct_addresses[i].socket {
            Some(s) => {
                dialable = true;
                let ip = canonical_ip(s.ip);
                let net = subnet_key(ip);
                if count_ip(admitted, ip) >= max_per_ip {
                    assert(at_ip(list[i as int], ip));
                    assert(uses_ip(peer@, ip));
                    return false;
                }
                if count_subnet(admitted, net) >= max_per_subnet {
                    assert(in_subnet(list[i as int], net));
                    assert(uses_subnet(peer@, net));
                    return false;
                }
            },
            None => {},
        }
        i = i + 1;
    }
    dialable
}

/// The number that a peer's id spells.
pub open spec fn id_key() -> spec_fn(CachedPeerView) -> nat {
    |p: CachedPeerView| be_value(p.peer_id)
}

/// How long ago a peer was connected: zero for the latest time of all.
pub open spec fn age_key() -> spec_fn(CachedPeerView) -> nat {
    |p: CachedPeerView| (u64::MAX - p.last_connected) as nat
}

/// The peers by the time of their last connection, the latest first, those of
/// the same time by their ids.
pub open spec fn ranked(peers: Seq<CachedPeerView>) -> Seq<CachedPeerView> {
    stable_sort(stable_sort(peers, id_key()), age_key())
}

/// The ranking puts the latest connections first and orders equal times by id,
/// and it loses and invents nobody.
pub proof fn ranking_is_by_recency(peers: Seq<CachedPeerView>)
    ensures
        ranked(peers).to_multiset() == peers.to_multiset(),
        forall|i: int, j: int|
            0 <= i < j < ranked(peers).len() ==> (#[trigger] ranked(peers)[i]).last_connected > (
            #[trigger] ranked(peers)[j]).last_connected || (ranked(peers)[i].last_connected
                == ranked(peers)[j].last_connected && be_value(ranked(peers)[i].peer_id)
                <= be_value(ranked(peers)[j].peer_id)),
{
    let by_id = stable_sort(peers, id_key());
    stable_sort_orders_and_keeps(peers, id_key());
    stable_sort_orders_and_keeps(by_id, age_key());
    stable_sort_keeps_earlier_order(by_id, age_key(), id_key());
    let r = ranked(peers);
    assert forall|i: int, j: int| 0 <= i < j < r.len() implies (#[trigger] r[i]).last_connected > (
    #[trigger] r[j]).last_connected || (r[i].last_connected == r[j].last_connected && be_value(
        r[i].peer_id,
    ) <= be_value(r[j].peer_id)) by {
        assert(age_key()(r[i]) <= age_key()(r[j]));
        if r[i].last_connected == r[j].last_connected {
            assert(age_key()(r[i]) == age_key()(r[j]));
            assert(id_key()(r[i]) <= id_key()(r[j]));
        }
    }
}

/// The peers that have addresses.
pub open spec fn with_addresses(peers: Seq<CachedPeerView>) -> Seq<CachedPeerView>
    decreases peers.len(),
{
    if peers.len() == 0 {
        Seq::empty()
    } else if peers.last().direct_addresses.len() > 0 {
        with_addresses(peers.drop_last()).push(peers.last())
    } else {
        with_addresses(peers.drop_last())
    }
}

/// Whether a peer occurs in a list.
pub open spec fn lists_peer(peers: Seq<CachedPeerView>, peer_id: Seq<u8>) -> bool {
    exists|i: int| 0 <= i < peers.len() && (#[trigger] peers[i]).peer_id == peer_id
}

/// The peers that the cache keeps out of a ranked list: the first entry of each
/// peer, as far as it may join those before it, until the cache is full.
pub open spec fn kept(
    peers: Seq<CachedPeerView>,
    per_ip: nat,
    per_subnet: nat,
) -> Seq<CachedPeerView>
    decreases peers.len(),
{
    if peers.len() == 0 {
        Seq::empty()
    } else {
        let rest = kept(peers.drop_last(), per_ip, per_subnet);
        let p = peers.last();
        if rest.len() < CLIENT_PEER_CACHE_MAX_PEERS && !lists_peer(peers.drop_last(), p.peer_id)
            && admissible(rest, p, per_ip, per_subnet) {
            rest.push(p)
        } else {
            rest
        }
    }
}

/// What normalization makes of the cache's peers.
pub open spec fn normal_form(
    peers: Seq<CachedPeerView>,
    per_ip: nat,
    per_subnet: nat,
) -> Seq<CachedPeerView> {
    kept(ranked(with_addresses(peers)), per_ip, per_subnet)
}

/// The cache.
pub struct ClientPeerCacheFile {
    pub schema_version: u32,
    pub peers: Vec<CachedPeer>,
}

fn rank(peers: Vec<CachedPeer>) -> (r: Vec<CachedPeer>)
    ensures
        peer_list(r@) == ranked(peer_list(peers@)),
{
    let ghost all = peers@;
    let ghost view = |p: CachedPeer| p@;
    let ghost by_id = |p: CachedPeer| be_value(p@.peer_id);
    let ghost by_age = |p: CachedPeer| (u64::MAX - p@.last_connected) as nat;
    let mut keys: Vec<U256> = Vec::new();
    let mut i: usize = 0;
    while i < peers.len()
        invariant
            i <= peers.len(),
            keys.len() == i,
            by_id == (|p: CachedPeer| be_value(p@.peer_id)),
            forall|k: int| 0 <= k < i ==> (#[trigger] keys[k]).value() == by_id(peers[k]),
        decreases peers.len() - i,
    {
        keys.push(U256::from_be_bytes(peers[i].peer_id.as_bytes()));
        i = i + 1;
    }
    let sorted = sort_by_keys(peers, &keys, Ghost(by_id));
    let mut ages: Vec<U256> = Vec::new();
    let mut j: usize = 0;
    while j < sorted.len()
        invariant
            j <= sorted.len(),
            ages.len() == j,
            by_age == (|p: CachedPeer| (u64::MAX - p@.last_connected) as nat),
            forall|k: int| 0 <= k < j ==> (#[trigger] ages[k]).value() == by_age(sorted[k]),
        decreases sorted.len() - j,
    {
        let age: u64 = u64::MAX - sorted[j].last_connected_epoch_secs;
        ages.push(U256::from_u128(age as u128));
        j = j + 1;
    }
    let r = sort_by_keys(sorted, &ages, Ghost(by_age));
    proof {
        lemma_sort_map(all, view, by_id, id_key());
        lemma_sort_map(sorted@, view, by_age, age_key());
        assert(peer_list(all) =~= all.map_values(view));
        assert(peer_list(sorted@) =~= sorted@.map_values(view));
        assert(peer_list(r@) =~= r@.map_values(view));
    }
    r
}

/// Keeps what a cache keeps of a ranked list.
fn keep(peers: Vec<CachedPeer>, max_per_ip: usize, max_per_subnet: usize) -> (r: Vec<CachedPeer>)
    ensures
        peer_list(r@) == kept(peer_list(peers@), max_per_ip as nat, max_per_subnet as nat),
{
    let ghost all = peers@;
    let ghost list = peer_list(all);
    let ghost a = max_per_ip as nat;
    let ghost b = max_per_subnet as nat;
    let mut rest = peers;
    let n: usize = rest.len();
    let mut seen = AddressSet::new();
    let mut out: Vec<CachedPeer> = Vec::new();
    let mut i: usize = 0;
    assert(all.skip(0) =~= all);
    assert(list.take(0) =~= Seq::empty());
    assert(peer_list(out@) =~= Seq::empty());
    while i < n
        invariant
            i <= n,
            n == all.len(),
            list == peer_list(all),
            a == max_per_ip,
            b == max_per_subnet,
            rest@ == all.skip(i as int),
            forall|id: Seq<u8>|
                #[trigger] seen@.contains(id) <==> lists_peer(list.take(i as int), id),
            peer_list(out@) == kept(list.take(i as int), a, b),
        decreases n - i,
    {
        let peer = rest.remove(0);
        let ghost now = list.take(i as int);
        let ghost next = list.take(i + 1);
        let ghost before_seen = seen@;
        proof {
            assert(peer == all[i as int]);
            assert(rest@ =~= all.skip(i + 1));
            assert(next.drop_last() =~= now);
            assert(next.last() == peer@);
        }
        let fresh = seen.insert(*peer.peer_id.as_bytes());
        proof {
            assert(fresh == !lists_peer(now, peer@.peer_id));
            assert forall|id: Seq<u8>| #[trigger] seen@.contains(id) <==> lists_peer(next, id) by {
                assert(next[i as int].peer_id == peer@.peer_id);
                if lists_peer(now, id) {
                    assert(before_seen.contains(id));
                    let k = choose|k: int| 0 <= k < now.len() && (#[trigger] now[k]).peer_id == id;
                    assert(next[k].peer_id == id);
                }
                if lists_peer(next, id) {
                    let k = choose|k: int|
                        0 <= k < next.len() && (#[trigger] next[k]).peer_id == id;
                    if k < i {
                        assert(now[k].peer_id == id);
                        assert(before_seen.contains(id));
                    }
                }
            }
        }
        if out.len() < CLIENT_PEER_CACHE_MAX_PEERS && fresh && admit_peer(
            &out,
            &peer,
            max_per_ip,
            max_per_subnet,
        ) {
            let ghost before = out@;
            let ghost v = peer@;
            out.push(peer);
            assert(peer_list(out@) =~= peer_list(before).push(v));
        }
        i = i + 1;
    }
    assert(list.take(i as int) =~= list);
    out
}

/// Leaves out the peers without addresses.
fn drop_unreachable(peers: Vec<CachedPeer>) -> (r: Vec<CachedPeer>)
    ensures
        peer_list(r@) == with_addresses(peer_list(peers@)),
{
    let ghost all = peers@;
    let ghost list = peer_list(all);
    let mut rest = peers;
    let n: usize = rest.len();
    let mut out: Vec<CachedPeer> = Vec::new();
    let mut i: usize = 0;
    assert(all.skip(0) =~= all);
    assert(list.take(0) =~= Seq::empty());
    assert(peer_list(out@) =~= Seq::empty());
    while i < n
        invariant
            i <= n,
            n == all.len(),
            list == peer_list(all),
            rest@ == all.skip(i as int),
            peer_list(out@) == with_addresses(list.take(i as int)),
        decreases n - i,
    {
        let peer = rest.remove(0);
        proof {
            assert(peer == all[i as int]);
            assert(rest@ =~= all.skip(i + 1));
            assert(list.take(i + 1).drop_last() =~= list.take(i as int));
            assert(list.take(i + 1).last() == peer@);
        }
        if peer.direct_addresses.len() > 0 {
            let ghost before = out@;
            let ghost v = peer@;
            out.push(peer);
            assert(peer_list(out@) =~= peer_list(before).push(v));
        }
        i = i + 1;
    }
    assert(list.take(i as int) =~= list);
    out
}

/// The list with a peer's new connection: its first entry is renewed, or it
/// joins at the end.
pub open spec fn upserted(
    peers: Seq<CachedPeerView>,
    peer_id: Seq<u8>,
    addresses: Seq<PeerAddressView>,
    now: u64,
) -> Seq<CachedPeerView> {
    if lists_peer(peers, peer_id) {
        let i = first_entry(peers, peer_id);
        peers.update(
            i,
            CachedPeerView {
                peer_id,
                direct_addresses: addresses,
                first_connected: peers[i].first_connected,
                last_connected: now,
            },
        )
    } else {
        peers.push(
            CachedPeerView {
                peer_id,
                direct_addresses: addresses,
                first_connected: now,
                last_connected: now,
            },
        )
    }
}

/// The position of a peer's first entry.
pub open spec fn first_entry(peers: Seq<CachedPeerView>, peer_id: Seq<u8>) -> int
    decreases peers.len(),
{
    if peers.len() == 0 {
        0
    } else if lists_peer(peers.drop_last(), peer_id) {
        first_entry(peers.drop_last(), peer_id)
    } else {
        peers.len() - 1
    }
}

proof fn lemma_first_entry(peers: Seq<CachedPeerView>, peer_id: Seq<u8>, i: int)
    requires
        0 <= i < peers.len(),
        peers[i].peer_id == peer_id,
        forall|k: int| 0 <= k < i ==> (#[trigger] peers[k]).peer_id != peer_id,
    ensures
        lists_peer(peers, peer_id),
        first_entry(peers, peer_id) == i,
    decreases peers.len(),
{
    let t = peers.drop_last();
    if i < t.len() {
        assert(t[i] == peers[i]);
        assert(lists_peer(t, peer_id));
        assert(forall|k: int| 0 <= k < i ==> t[k] == peers[k]);
        lemma_first_entry(t, peer_id, i);
    } else {
        if lists_peer(t, peer_id) {
            let k = choose|k: int| 0 <= k < t.len() && (#[trigger] t[k]).peer_id == peer_id;
            assert(peers[k].peer_id == peer_id);
        }
    }
}

impl ClientPeerCacheFile {
    /// A cache without peers.
    pub fn empty() -> (r: ClientPeerCacheFile)
        ensures
            r.schema_version == CLIENT_PEER_CACHE_SCHEMA_VERSION,
            r.peers@.len() == 0,
    {
        ClientPeerCacheFile {
            schema_version: CLIENT_PEER_CACHE_SCHEMA_VERSION,
            peers: Vec::new(),
        }
    }

    /// A cache that was read from disk; nothing where its layout is another.
    pub fn accept(cache: ClientPeerCacheFile) -> (r: Option<ClientPeerCacheFile>)
        ensures
            r == if cache.schema_version == CLIENT_PEER_CACHE_SCHEMA_VERSION {
                Some(cache)
            } else {
                None
            },
    {
        if cache.schema_version == CLIENT_PEER_CACHE_SCHEMA_VERSION {
            Some(cache)
        } else {
            None
        }
    }

    /// Brings the peers into the form that the cache keeps; whether that
    /// changed anything.
    pub fn normalize(&mut self, limits: &IpLimits, k_value: usize) -> (r: bool)
        ensures
            final(self).schema_version == old(self).schema_version,
            peer_list(final(self).peers@) == normal_form(
                peer_list(old(self).peers@),
                limits.per_ip(),
                limits.per_subnet(k_value),
            ),
            r == (peer_list(final(self).peers@) != peer_list(old(self).peers@)),
    {
        let before = copy_peers(&self.peers);
        let max_per_ip: usize = match limits.max_per_ip {
            Some(n) => n,
            None => DEFAULT_MAX_PER_EXACT_IP,
        };
        let max_per_subnet: usize = match limits.max_per_subnet {
            Some(n) => n,
            None => default_subnet_limit(k_value),
        };
        let mut peers: Vec<CachedPeer> = Vec::new();
        std::mem::swap(&mut peers, &mut self.peers);
        self.peers = keep(rank(drop_unreachable(peers)), max_per_ip, max_per_subnet);
        !same_peers(&self.peers, &before)
    }

    /// Records that a peer is connected. A peer without usable addresses is not
    /// recorded. Whether the cache changed.
    pub fn upsert_connected_peer(
        &mut self,
        peer_id: PeerId,
        direct_addresses: Vec<PeerAddress>,
        now: u64,
        limits: &IpLimits,
        k_value: usize,
    ) -> (r: bool)
        ensures
            final(self).schema_version == old(self).schema_version,
            ({
                let addresses = sanitized(peer_id@, address_list(direct_addresses@));
                peer_list(final(self).peers@) == if addresses.len() == 0 {
                    peer_list(old(self).peers@)
                } else {
                    normal_form(
                        upserted(peer_list(old(self).peers@), peer_id@, addresses, now),
                        limits.per_ip(),
                        limits.per_subnet(k_value),
                    )
                }
            }),
            r == (peer_list(final(self).peers@) != peer_list(old(self).peers@)),
    {
        let addresses = sanitize_direct_addresses(peer_id, direct_addresses);
        let ghost usable = address_list(addresses@);
        if addresses.len() == 0 {
            return false;
        }
        let before = copy_peers(&self.peers);
        let ghost list = peer_list(self.peers@);
        let mut i: usize = 0;
        while i < self.peers.len() && !self.peers[i].peer_id.same(&peer_id)
            invariant
                i <= self.peers.len(),
                list == peer_list(self.peers@),
                *self == *old(self),
                forall|k: int| 0 <= k < i ==> (#[trigger] list[k]).peer_id != peer_id@,
            decreases self.peers.len() - i,
        {
            i = i + 1;
        }
        if i < self.peers.len() {
            proof {
                lemma_first_entry(list, peer_id@, i as int);
            }
            let entry = CachedPeer {
                peer_id,
                direct_addresses: addresses,
                first_connected_epoch_secs: self.peers[i].first_connected_epoch_secs,
                last_connected_epoch_secs: now,
            };
            let ghost v = entry@;
            self.peers.set(i, entry);
            assert(peer_list(self.peers@) =~= list.update(i as int, v));
        } else {
            proof {
                if lists_peer(list, peer_id@) {
                    let k = choose|k: int|
                        0 <= k < list.len() && (#[trigger] list[k]).peer_id == peer_id@;
                    assert(false);
                }
            }
            let entry = CachedPeer {
                peer_id,
                direct_addresses: addresses,
                first_connected_epoch_secs: now,
                last_connected_epoch_secs: now,
            };
            let ghost v = entry@;
            self.peers.push(entry);
            assert(peer_list(self.peers@) =~= list.push(v));
        }
        assert(peer_list(self.peers@) == upserted(list, peer_id@, usable, now));
        let _ = self.normalize(limits, k_value);
        !same_peers(&self.peers, &before)
    }
}

proof fn lemma_kept_from(peers: Seq<CachedPeerView>, per_ip: nat, per_subnet: nat)
    ensures
        forall|i: int|
            0 <= i < kept(peers, per_ip, per_subnet).len() ==> lists_peer(
                peers,
                (#[trigger] kept(peers, per_ip, per_subnet)[i]).peer_id,
            ),
        forall|i: int|
            0 <= i < kept(peers, per_ip, per_subnet).len() ==> (#[trigger] kept(
                peers,
                per_ip,
                per_subnet,
            )[i]).direct_addresses.len() > 0,
    decreases peers.len(),
{
    if peers.len() > 0 {
        let t = peers.drop_last();
        let rest = kept(t, per_ip, per_subnet);
        let k = kept(peers, per_ip, per_subnet);
        lemma_kept_from(t, per_ip, per_subnet);
        assert forall|i: int| 0 <= i < k.len() implies lists_peer(
            peers,
            (#[trigger] k[i]).peer_id,
        ) by {
            if i < rest.len() {
                assert(k[i] == rest[i]);
                let j = choose|j: int| 0 <= j < t.len() && (#[trigger] t[j]).peer_id == k[i].peer_id;
                assert(peers[j].peer_id == k[i].peer_id);
            } else {
                assert(peers[peers.len() - 1] == k[i]);
            }
        }
        assert forall|i: int| 0 <= i < k.len() implies (
        #[trigger] k[i]).direct_addresses.len() > 0 by {
            if i < rest.len() {
                assert(k[i] == rest[i]);
            }
        }
    }
}

/// What the cache keeps is no more than its size, names no peer twice, has an
/// address for each peer, and lets no IP address and no network take up more
/// than its limit.
pub proof fn cache_stays_small_and_diverse(
    peers: Seq<CachedPeerView>,
    per_ip: nat,
    per_subnet: nat,
)
    ensures
        ({
            let k = kept(peers, per_ip, per_subnet);
            &&& k.len() <= CLIENT_PEER_CACHE_MAX_PEERS
            &&& forall|i: int, j: int|
                0 <= i < j < k.len() ==> (#[trigger] k[i]).peer_id != (#[trigger] k[j]).peer_id
            &&& forall|i: int| 0 <= i < k.len() ==> (#[trigger] k[i]).direct_addresses.len() > 0
            &&& forall|ip: IpAddress| #[trigger] ip_count(k, ip) <= per_ip
            &&& forall|net: SubnetKey| #[trigger] subnet_count(k, net) <= per_subnet
        }),
    decreases peers.len(),
{
    let k = kept(peers, per_ip, per_subnet);
    lemma_kept_from(peers, per_ip, per_subnet);
    if peers.len() > 0 {
        let t = peers.drop_last();
        let p = peers.last();
        let rest = kept(t, per_ip, per_subnet);
        cache_stays_small_and_diverse(t, per_ip, per_subnet);
        lemma_kept_from(t, per_ip, per_subnet);
        if k != rest {
            assert(k == rest.push(p));
            assert(k.drop_last() =~= rest);
            assert forall|ip: IpAddress| #[trigger] ip_count(k, ip) <= per_ip by {
                assert(ip_count(rest, ip) <= per_ip);
            }
            assert forall|net: SubnetKey| #[trigger] subnet_count(k, net) <= per_subnet by {
                assert(subnet_count(rest, net) <= per_subnet);
            }
        }
    }
}

proof fn lemma_addresses_all(peers: Seq<CachedPeerView>)
    requires
        forall|i: int| 0 <= i < peers.len() ==> (#[trigger] peers[i]).direct_addresses.len() > 0,
    ensures
        with_addresses(peers) == peers,
    decreases peers.len(),
{
    if peers.len() > 0 {
        assert(forall|i: int| 0 <= i < peers.drop_last().len() ==> peers.drop_last()[i] == peers[i]);
        assert(peers[peers.len() - 1] == peers.last());
        lemma_addresses_all(peers.drop_last());
        assert(peers.drop_last().push(peers.last()) =~= peers);
    } else {
        assert(with_addresses(peers) =~= peers);
    }
}

proof fn lemma_kept_in_order(peers: Seq<CachedPeerView>, per_ip: nat, per_subnet: nat)
    requires
        ascending_by(peers, age_key(), id_key()),
    ensures
        ascending_by(kept(peers, per_ip, per_subnet), age_key(), id_key()),
        forall|i: int|
            0 <= i < kept(peers, per_ip, per_subnet).len() ==> peers.contains(
                #[trigger] kept(peers, per_ip, per_subnet)[i],
            ),
    decreases peers.len(),
{
    if peers.len() > 0 {
        let t = peers.drop_last();
        let p = peers.last();
        let n = peers.len() - 1;
        let rest = kept(t, per_ip, per_subnet);
        let k = kept(peers, per_ip, per_subnet);
        assert(forall|i: int| 0 <= i < t.len() ==> t[i] == peers[i]);
        lemma_kept_in_order(t, per_ip, per_subnet);
        assert(peers[n] == p);
        assert forall|i: int| 0 <= i < k.len() implies peers.contains(#[trigger] k[i]) by {
            if i < rest.len() {
                assert(k[i] == rest[i]);
                let j = choose|j: int| 0 <= j < t.len() && t[j] == rest[i];
                assert(peers[j] == k[i]);
            }
        }
        assert forall|i: int, j: int| 0 <= i < j < k.len() implies age_key()(#[trigger] k[i])
            < age_key()(#[trigger] k[j]) || (age_key()(k[i]) == age_key()(k[j]) && id_key()(k[i])
            <= id_key()(k[j])) by {
            assert(k[i] == rest[i]);
            if j < rest.len() {
                assert(k[j] == rest[j]);
            } else {
                let m = choose|m: int| 0 <= m < t.len() && t[m] == rest[i];
                assert(peers[m] == k[i] && peers[n] == k[j]);
            }
        }
    }
}

proof fn lemma_kept_again(peers: Seq<CachedPeerView>, per_ip: nat, per_subnet: nat)
    ensures
        kept(kept(peers, per_ip, per_subnet), per_ip, per_subnet) == kept(
            peers,
            per_ip,
            per_subnet,
        ),
    decreases peers.len(),
{
    if peers.len() > 0 {
        let t = peers.drop_last();
        let p = peers.last();
        let rest = kept(t, per_ip, per_subnet);
        lemma_kept_again(t, per_ip, per_subnet);
        lemma_kept_from(t, per_ip, per_subnet);
        if rest.len() < CLIENT_PEER_CACHE_MAX_PEERS && !lists_peer(t, p.peer_id) && admissible(
            rest,
            p,
            per_ip,
            per_subnet,
        ) {
            assert(rest.push(p).drop_last() =~= rest);
            if lists_peer(rest, p.peer_id) {
                let i = choose|i: int|
                    0 <= i < rest.len() && (#[trigger] rest[i]).peer_id == p.peer_id;
                assert(lists_peer(t, rest[i].peer_id));
            }
        }
    }
}

/// Normalization leaves a normalized cache as it is, so that a second one never
/// reports a change.
pub proof fn normal_form_stays(peers: Seq<CachedPeerView>, per_ip: nat, per_subnet: nat)
    ensures
        normal_form(normal_form(peers, per_ip, per_subnet), per_ip, per_subnet) == normal_form(
            peers,
            per_ip,
            per_subnet,
        ),
{
    let list = ranked(with_addresses(peers));
    let k = kept(list, per_ip, per_subnet);
    ranking_is_by_recency(with_addresses(peers));
    assert(ascending_by(list, age_key(), id_key()));
    lemma_kept_in_order(list, per_ip, per_subnet);
    lemma_kept_from(list, per_ip, per_subnet);
    lemma_addresses_all(k);
    sorting_the_sorted_changes_nothing(k, id_key(), age_key());
    lemma_kept_again(list, per_ip, per_subnet);
}

proof fn lemma_first_is_kept(peers: Seq<CachedPeerView>, per_ip: nat, per_subnet: nat)
    requires
        peers.len() > 0,
        per_ip > 0,
        per_subnet > 0,
        exists|i: int|
            0 <= i < peers[0].direct_addresses.len() && (
            #[trigger] peers[0].direct_addresses[i]).socket is Some,
    ensures
        kept(peers, per_ip, per_subnet).len() > 0,
        kept(peers, per_ip, per_subnet)[0] == peers[0],
    decreases peers.len(),
{
    let t = peers.drop_last();
    if t.len() > 0 {
        assert(t[0] == peers[0]);
        lemma_first_is_kept(t, per_ip, per_subnet);
    } else {
        let none = Seq::<CachedPeerView>::empty();
        assert(t =~= none);
        assert(kept(t, per_ip, per_subnet) =~= none);
        assert(!lists_peer(none, peers[0].peer_id));
        assert(admissible(none, peers[0], per_ip, per_subnet));
    }
}

proof fn lemma_sanitized_dialable(peer_id: Seq<u8>, list: Seq<PeerAddressView>)
    ensures
        forall|i: int|
            0 <= i < sanitized(peer_id, list).len() ==> (#[trigger] sanitized(
                peer_id,
                list,
            )[i]).socket is Some,
    decreases list.len(),
{
    if list.len() > 0 {
        lemma_sanitized_dialable(peer_id, list.drop_last());
    }
}

proof fn lemma_with_addresses_contains(peers: Seq<CachedPeerView>, p: CachedPeerView)
    ensures
        with_addresses(peers).contains(p) == (peers.contains(p) && p.direct_addresses.len() > 0),
    decreases peers.len(),
{
    let w = with_addresses(peers);
    if peers.len() > 0 {
        let t = peers.drop_last();
        let u = with_addresses(t);
        let n = peers.len() - 1;
        lemma_with_addresses_contains(t, p);
        assert(peers =~= t.push(peers[n]));
        if peers.contains(p) && p.direct_addresses.len() > 0 {
            let k = choose|k: int| 0 <= k < peers.len() && peers[k] == p;
            if k < n {
                assert(t[k] == p);
                let m = choose|m: int| 0 <= m < u.len() && u[m] == p;
                assert(w[m] == p);
            } else {
                assert(w[w.len() - 1] == p);
            }
        }
        if w.contains(p) {
            let m = choose|m: int| 0 <= m < w.len() && w[m] == p;
            if m < u.len() {
                assert(u[m] == p);
                let k = choose|k: int| 0 <= k < t.len() && t[k] == p;
                assert(peers[k] == p);
            } else {
                assert(peers[n] == p);
            }
        }
    }
}

/// A peer that connects with a usable address, later than all others did, comes
/// first in the cache, where the limits allow any peer at all.
pub proof fn latest_peer_leads(
    peers: Seq<CachedPeerView>,
    peer_id: Seq<u8>,
    addresses: Seq<PeerAddressView>,
    now: u64,
    per_ip: nat,
    per_subnet: nat,
)
    requires
        forall|i: int| 0 <= i < peers.len() ==> (#[trigger] peers[i]).last_connected < now,
        sanitized(peer_id, addresses).len() > 0,
        per_ip > 0,
        per_subnet > 0,
    ensures
        ({
            let after = normal_form(
                upserted(peers, peer_id, sanitized(peer_id, addresses), now),
                per_ip,
                per_subnet,
            );
            &&& after.len() > 0
            &&& after[0].peer_id == peer_id
            &&& after[0].last_connected == now
        }),
{
    let usable = sanitized(peer_id, addresses);
    let list = upserted(peers, peer_id, usable, now);
    let named = with_addresses(list);
    let order = ranked(named);
    if lists_peer(peers, peer_id) {
        lemma_first_entry_bound(peers, peer_id);
    }
    let at = if lists_peer(peers, peer_id) {
        first_entry(peers, peer_id)
    } else {
        peers.len() as int
    };
    let entry = list[at];
    assert(list.contains(entry));
    lemma_with_addresses_contains(list, entry);
    ranking_is_by_recency(named);
    let by_id = stable_sort(named, id_key());
    lemma_stable_sort_contains(named, id_key(), entry);
    lemma_stable_sort_contains(by_id, age_key(), entry);
    let m = choose|m: int| 0 <= m < order.len() && order[m] == entry;
    lemma_stable_sort_contains(by_id, age_key(), order[0]);
    lemma_stable_sort_contains(named, id_key(), order[0]);
    assert(order.contains(order[0]));
    lemma_with_addresses_contains(list, order[0]);
    let k = choose|k: int| 0 <= k < list.len() && list[k] == order[0];
    if k != at {
        assert(list[k] == peers[k]);
        assert(m > 0);
        assert(order[0].last_connected >= order[m].last_connected);
    }
    assert(order[0] == entry);
    lemma_sanitized_dialable(peer_id, addresses);
    assert(entry.direct_addresses[0].socket is Some);
    lemma_first_is_kept(order, per_ip, per_subnet);
}

proof fn lemma_first_entry_bound(peers: Seq<CachedPeerView>, peer_id: Seq<u8>)
    requires
        lists_peer(peers, peer_id),
    ensures
        0 <= first_entry(peers, peer_id) < peers.len(),
    decreases peers.len(),
{
    if lists_peer(peers.drop_last(), peer_id) {
        lemma_first_entry_bound(peers.drop_last(), peer_id);
    }
}

/// The group of a peer: the first four bits of its id.
pub open spec fn sector(peer_id: Seq<u8>) -> int {
    peer_id[0] as int / 16
}

/// The group of a peer.
pub fn peer_id_sector(peer_id: &PeerId) -> (r: usize)
    ensures
        r == sector(peer_id@),
        r < PEER_ID_SECTOR_COUNT,
{
    (peer_id.as_bytes()[0] / 16) as usize
}

/// The peers of a group, in order.
pub open spec fn lane(peers: Seq<CachedPeerView>, group: int) -> Seq<CachedPeerView>
    decreases peers.len(),
{
    if peers.len() == 0 {
        Seq::empty()
    } else if sector(peers.last().peer_id) == group {
        lane(peers.drop_last(), group).push(peers.last())
    } else {
        lane(peers.drop_last(), group)
    }
}

/// The first addresses of the peers at position `round` of the first `groups`
/// groups.
pub open spec fn row(peers: Seq<CachedPeerView>, round: int, groups: int) -> Seq<PeerAddressView>
    decreases groups,
{
    if groups <= 0 {
        Seq::empty()
    } else {
        let l = lane(peers, groups - 1);
        let before = row(peers, round, groups - 1);
        if round < l.len() {
            before.push(l[round].direct_addresses[0])
        } else {
            before
        }
    }
}

/// The first addresses of the peers, one peer of each group after the other,
/// for so many rounds.
pub open spec fn in_turns(peers: Seq<CachedPeerView>, rounds: int) -> Seq<PeerAddressView>
    decreases rounds,
{
    if rounds <= 0 {
        Seq::empty()
    } else {
        in_turns(peers, rounds - 1) + row(peers, rounds - 1, PEER_ID_SECTOR_COUNT as int)
    }
}

proof fn lemma_lane_bound(peers: Seq<CachedPeerView>, group: int)
    ensures
        lane(peers, group).len() <= peers.len(),
        forall|i: int|
            0 <= i < lane(peers, group).len() ==> peers.contains(#[trigger] lane(peers, group)[i]),
    decreases peers.len(),
{
    if peers.len() > 0 {
        let t = peers.drop_last();
        lemma_lane_bound(t, group);
        let l = lane(peers, group);
        assert forall|i: int| 0 <= i < l.len() implies peers.contains(#[trigger] l[i]) by {
            let m = lane(t, group);
            if i < m.len() {
                assert(l[i] == m[i]);
                let k = choose|k: int| 0 <= k < t.len() && t[k] == m[i];
                assert(peers[k] == l[i]);
            } else {
                assert(peers[peers.len() - 1] == l[i]);
            }
        }
    }
}

proof fn lemma_row_empty(peers: Seq<CachedPeerView>, round: int, groups: int)
    requires
        round >= peers.len(),
    ensures
        row(peers, round, groups).len() == 0,
    decreases groups,
{
    if groups > 0 {
        lemma_lane_bound(peers, groups - 1);
        lemma_row_empty(peers, round, groups - 1);
    }
}

proof fn lemma_row_grows(peers: Seq<CachedPeerView>, p: CachedPeerView, round: int, groups: int)
    requires
        round >= 0,
    ensures
        row(peers.push(p), round, groups).len() == row(peers, round, groups).len() + if 0 <= sector(
            p.peer_id,
        ) < groups && round == lane(peers, sector(p.peer_id)).len() {
            1nat
        } else {
            0nat
        },
    decreases groups,
{
    if groups > 0 {
        assert(peers.push(p).drop_last() =~= peers);
        lemma_row_grows(peers, p, round, groups - 1);
    }
}

proof fn lemma_turns_grow(peers: Seq<CachedPeerView>, p: CachedPeerView, rounds: int)
    requires
        0 <= sector(p.peer_id) < PEER_ID_SECTOR_COUNT,
        rounds >= 0,
    ensures
        in_turns(peers.push(p), rounds).len() == in_turns(peers, rounds).len() + if lane(
            peers,
            sector(p.peer_id),
        ).len() < rounds {
            1nat
        } else {
            0nat
        },
    decreases rounds,
{
    if rounds > 0 {
        lemma_turns_grow(peers, p, rounds - 1);
        lemma_row_grows(peers, p, rounds - 1, PEER_ID_SECTOR_COUNT as int);
    }
}

/// Taking turns reaches every peer once.
pub proof fn turns_reach_every_peer(peers: Seq<CachedPeerView>)
    requires
        forall|i: int|
            0 <= i < peers.len() ==> 0 <= sector((#[trigger] peers[i]).peer_id)
                < PEER_ID_SECTOR_COUNT,
    ensures
        in_turns(peers, peers.len() as int).len() == peers.len(),
    decreases peers.len(),
{
    if peers.len() > 0 {
        let t = peers.drop_last();
        let p = peers.last();
        assert(forall|i: int| 0 <= i < t.len() ==> t[i] == peers[i]);
        turns_reach_every_peer(t);
        assert(t.push(p) =~= peers);
        lemma_turns_grow(t, p, peers.len() as int);
        lemma_row_empty(t, t.len() as int, PEER_ID_SECTOR_COUNT as int);
        lemma_lane_bound(t, sector(p.peer_id));
    }
}

/// Whether a group has a peer without an address. Its turn never passes on.
pub open spec fn blocked(peers: Seq<CachedPeerView>, group: int) -> bool
    decreases peers.len(),
{
    peers.len() > 0 && (blocked(peers.drop_last(), group) || (sector(peers.last().peer_id) == group
        && peers.last().direct_addresses.len() == 0))
}

/// The peers whose turn can come: those with an address, up to the first one of
/// their group that has none.
pub open spec fn dialable(peers: Seq<CachedPeerView>) -> Seq<CachedPeerView>
    decreases peers.len(),
{
    if peers.len() == 0 {
        peers
    } else {
        let rest = dialable(peers.drop_last());
        let p = peers.last();
        if p.direct_addresses.len() > 0 && !blocked(peers.drop_last(), sector(p.peer_id)) {
            rest.push(p)
        } else {
            rest
        }
    }
}

/// Where every peer has an address, the turn of every peer can come.
pub proof fn peers_with_addresses_are_dialable(peers: Seq<CachedPeerView>)
    requires
        forall|i: int| 0 <= i < peers.len() ==> (#[trigger] peers[i]).direct_addresses.len() > 0,
    ensures
        dialable(peers) == peers,
        forall|group: int| !blocked(peers, group),
    decreases peers.len(),
{
    if peers.len() > 0 {
        let t = peers.drop_last();
        assert(forall|i: int| 0 <= i < t.len() ==> t[i] == peers[i]);
        peers_with_addresses_are_dialable(t);
        assert(t.push(peers.last()) =~= peers);
        assert(peers[peers.len() - 1].direct_addresses.len() > 0);
        assert forall|group: int| !blocked(peers, group) by {
            assert(!blocked(t, group));
        }
    }
}

/// The peer whose turn is first: the first one of the first group that has any.
pub open spec fn leader(peers: Seq<CachedPeerView>, groups: int) -> Option<CachedPeerView>
    decreases groups,
{
    if groups <= 0 {
        None
    } else {
        match leader(peers, groups - 1) {
            Some(p) => Some(p),
            None => if lane(peers, groups - 1).len() > 0 {
                Some(lane(peers, groups - 1)[0])
            } else {
                None
            },
        }
    }
}

/// The first so many of a list.
pub open spec fn at_most<T>(s: Seq<T>, limit: int) -> Seq<T> {
    if s.len() <= limit {
        s
    } else {
        s.take(limit)
    }
}

/// The position of the peers of a group.
fn lane_positions(peers: &Vec<CachedPeer>, group: usize) -> (r: Vec<usize>)
    ensures
        r@.len() == lane(peer_list(peers@), group as int).len(),
        forall|i: int|
            0 <= i < r@.len() ==> (#[trigger] r@[i]) < peers@.len() && peers@[r@[i] as int]@
                == lane(peer_list(peers@), group as int)[i],
{
    let ghost list = peer_list(peers@);
    let mut out: Vec<usize> = Vec::new();
    let mut i: usize = 0;
    assert(list.take(0) =~= Seq::empty());
    while i < peers.len()
        invariant
            i <= peers.len(),
            list == peer_list(peers@),
            out@.len() == lane(list.take(i as int), group as int).len(),
            forall|k: int|
                0 <= k < out@.len() ==> (#[trigger] out@[k]) < peers@.len()
                    && peers@[out@[k] as int]@ == lane(list.take(i as int), group as int)[k],
        decreases peers.len() - i,
    {
        assert(list.take(i + 1).drop_last() =~= list.take(i as int));
        assert(list.take(i + 1).last() == peers@[i as int]@);
        if peer_id_sector(&peers[i].peer_id) == group {
            out.push(i);
        }
        i = i + 1;
    }
    assert(list.take(i as int) =~= list);
    out
}

/// The positions of the peers of a group whose turn can come.
fn dialable_positions(peers: &Vec<CachedPeer>, group: usize) -> (r: Vec<usize>)
    ensures
        r@.len() == lane(dialable(peer_list(peers@)), group as int).len(),
        forall|i: int|
            0 <= i < r@.len() ==> (#[trigger] r@[i]) < peers@.len() && peers@[r@[i] as int]@
                == lane(dialable(peer_list(peers@)), group as int)[i]
                && peers@[r@[i] as int].direct_addresses@.len() > 0,
{
    let ghost list = peer_list(peers@);
    let mut out: Vec<usize> = Vec::new();
    let mut stuck = false;
    let mut i: usize = 0;
    assert(list.take(0) =~= Seq::empty());
    while i < peers.len()
        invariant
            i <= peers.len(),
            list == peer_list(peers@),
            stuck == blocked(list.take(i as int), group as int),
            out@.len() == lane(dialable(list.take(i as int)), group as int).len(),
            forall|k: int|
                0 <= k < out@.len() ==> (#[trigger] out@[k]) < peers@.len()
                    && peers@[out@[k] as int]@ == lane(
                    dialable(list.take(i as int)),
                    group as int,
                )[k] && peers@[out@[k] as int].direct_addresses@.len() > 0,
        decreases peers.len() - i,
    {
        proof {
            let before = dialable(list.take(i as int));
            let p = peers@[i as int]@;
            assert(list.take(i + 1).drop_last() =~= list.take(i as int));
            assert(list.take(i + 1).last() == p);
            assert(before.push(p).drop_last() =~= before);
            assert(p.direct_addresses.len() == peers@[i as int].direct_addresses@.len());
        }
        if peer_id_sector(&peers[i].peer_id) == group {
            if peers[i].direct_addresses.len() == 0 {
                stuck = true;
            } else if !stuck {
                out.push(i);
            }
        }
        i = i + 1;
    }
    assert(list.take(i as int) =~= list);
    out
}

/// Whether the peer whose turn is first has no address.
fn leader_unreachable(peers: &Vec<CachedPeer>) -> (r: bool)
    ensures
        r == (leader(peer_list(peers@), PEER_ID_SECTOR_COUNT as int) matches Some(p)
            && p.direct_addresses.len() == 0),
{
    let ghost list = peer_list(peers@);
    let mut g: usize = 0;
    while g < PEER_ID_SECTOR_COUNT
        invariant
            g <= PEER_ID_SECTOR_COUNT,
            list == peer_list(peers@),
            leader(list, g as int) is None,
        decreases PEER_ID_SECTOR_COUNT - g,
    {
        let positions = lane_positions(peers, g);
        if positions.len() > 0 {
            let p: usize = positions[0];
            proof {
                assert(peers@[p as int]@ == lane(list, g as int)[0]);
                lemma_leader_stays(list, g + 1, PEER_ID_SECTOR_COUNT as int);
            }
            return peers[p].direct_addresses.len() == 0;
        }
        g = g + 1;
    }
    false
}

proof fn lemma_leader_stays(peers: Seq<CachedPeerView>, groups: int, more: int)
    requires
        groups <= more,
        leader(peers, groups) is Some,
    ensures
        leader(peers, more) == leader(peers, groups),
    decreases more - groups,
{
    if groups < more {
        lemma_leader_stays(peers, groups, more - 1);
    }
}

impl ClientPeerCacheFile {
    /// The addresses to dial, one for each peer, taking turns between the
    /// groups of peers, up to a limit. A peer without an address holds up its
    /// group. A limit of zero still gives the first address, unless the first
    /// turn is that of a peer without one.
    pub fn bootstrap_addresses(&self, limit: usize) -> (r: Vec<PeerAddress>)
        ensures
            ({
                let list = peer_list(self.peers@);
                address_list(r@) == if limit == 0 && (leader(list, PEER_ID_SECTOR_COUNT as int) matches Some(
                    p,
                ) && p.direct_addresses.len() == 0) {
                    Seq::empty()
                } else {
                    at_most(
                        in_turns(dialable(list), list.len() as int),
                        upper(limit as int, 1),
                    )
                }
            }),
    {
        let ghost list = dialable(peer_list(self.peers@));
        let ghost whole = in_turns(list, self.peers@.len() as int);
        if limit == 0 && leader_unreachable(&self.peers) {
            let none: Vec<PeerAddress> = Vec::new();
            assert(address_list(none@) =~= Seq::empty());
            return none;
        }
        let n: usize = self.peers.len();
        let mut lanes: Vec<Vec<usize>> = Vec::new();
        let mut g: usize = 0;
        while g < PEER_ID_SECTOR_COUNT
            invariant
                g <= PEER_ID_SECTOR_COUNT,
                list == dialable(peer_list(self.peers@)),
                lanes@.len() == g,
                forall|k: int|
                    0 <= k < g ==> (#[trigger] lanes@[k])@.len() == lane(list, k).len(),
                forall|k: int, i: int|
                    0 <= k < g && 0 <= i < lanes@[k]@.len() ==> (#[trigger] lanes@[k]@[i])
                        < self.peers@.len() && self.peers@[lanes@[k]@[i] as int]@ == lane(
                        list,
                        k,
                    )[i] && self.peers@[lanes@[k]@[i] as int].direct_addresses@.len() > 0,
            decreases PEER_ID_SECTOR_COUNT - g,
        {
            lanes.push(dialable_positions(&self.peers, g));
            g = g + 1;
        }
        let mut out: Vec<PeerAddress> = Vec::new();
        let mut round: usize = 0;
        assert(address_list(out@) =~= Seq::empty());
        while round < n
            invariant
                round <= n,
                n == self.peers@.len(),
                list == dialable(peer_list(self.peers@)),
                lanes@.len() == PEER_ID_SECTOR_COUNT,
                forall|k: int|
                    0 <= k < PEER_ID_SECTOR_COUNT ==> (#[trigger] lanes@[k])@.len() == lane(
                        list,
                        k,
                    ).len(),
                forall|k: int, i: int|
                    0 <= k < PEER_ID_SECTOR_COUNT && 0 <= i < lanes@[k]@.len() ==> (
                    #[trigger] lanes@[k]@[i]) < self.peers@.len() && self.peers@[lanes@[k]@[i] as int]@
                        == lane(list, k)[i]
                        && self.peers@[lanes@[k]@[i] as int].direct_addresses@.len() > 0,
                address_list(out@) == in_turns(list, round as int),
            decreases n - round,
        {
            let mut s: usize = 0;
            let ghost before = in_turns(list, round as int);
            assert(before + row(list, round as int, 0) =~= before);
            while s < PEER_ID_SECTOR_COUNT
                invariant
                    s <= PEER_ID_SECTOR_COUNT,
                    list == dialable(peer_list(self.peers@)),
                    lanes@.len() == PEER_ID_SECTOR_COUNT,
                    forall|k: int|
                        0 <= k < PEER_ID_SECTOR_COUNT ==> (#[trigger] lanes@[k])@.len() == lane(
                            list,
                            k,
                        ).len(),
                    forall|k: int, i: int|
                        0 <= k < PEER_ID_SECTOR_COUNT && 0 <= i < lanes@[k]@.len() ==> (
                        #[trigger] lanes@[k]@[i]) < self.peers@.len()
                            && self.peers@[lanes@[k]@[i] as int]@ == lane(list, k)[i]
                            && self.peers@[lanes@[k]@[i] as int].direct_addresses@.len() > 0,
                    address_list(out@) == before + row(list, round as int, s as int),
                decreases PEER_ID_SECTOR_COUNT - s,
            {
                assert(lanes@[s as int]@.len() == lane(list, s as int).len());
                if round < lanes[s].len() {
                    let p: usize = lanes[s][round];
                    assert(lanes@[s as int]@[round as int] == p);
                    let address = self.peers[p].direct_addresses[0].duplicate();
                    let ghost held = out@;
                    let ghost v = address@;
                    out.push(address);
                    proof {
                        let l = lane(list, s as int);
                        assert(self.peers@[p as int]@ == l[round as int]);
                        assert(l[round as int].direct_addresses[0] == v);
                        assert(address_list(out@) =~= address_list(held).push(v));
                        assert((before + row(list, round as int, s as int)).push(v) =~= before
                            + row(list, round as int, s + 1));
                    }
                }
                s = s + 1;
            }
            round = round + 1;
        }
        let ghost full = out@;
        let most: usize = if limit >= 1 {
            limit
        } else {
            1
        };
        out.truncate(most);
        assert(address_list(out@) =~= at_most(whole, most as int));
        out
    }
}

/// Whether two addresses lead to the same place: to the same socket, or, where
/// neither has one, by the same text.
pub open spec fn same_place(a: PeerAddressView, b: PeerAddressView) -> bool {
    match (a.socket, b.socket) {
        (Some(x), Some(y)) => x == y,
        (None, None) => address_text(a) == address_text(b),
        _ => false,
    }
}

/// Whether a list has an address of the same place.
pub open spec fn has_place(list: Seq<PeerAddressView>, a: PeerAddressView) -> bool {
    exists|i: int| 0 <= i < list.len() && same_place(#[trigger] list[i], a)
}

/// The addresses in order, each place once.
pub open spec fn deduped(list: Seq<PeerAddressView>) -> Seq<PeerAddressView>
    decreases list.len(),
{
    if list.len() == 0 {
        Seq::empty()
    } else {
        let rest = deduped(list.drop_last());
        if has_place(rest, list.last()) {
            rest
        } else {
            rest.push(list.last())
        }
    }
}

fn known_place(list: &Vec<PeerAddress>, a: &PeerAddress) -> (r: bool)
    ensures
        r == has_place(address_list(list@), a@),
{
    let ghost views = address_list(list@);
    let mut i: usize = 0;
    while i < list.len()
        invariant
            i <= list.len(),
            views == address_list(list@),
            forall|k: int| 0 <= k < i ==> !same_place(#[trigger] views[k], a@),
        decreases list.len() - i,
    {
        let same = match (list[i].socket, a.socket) {
            (Some(x), Some(y)) => x == y,
            (None, None) => same_text(list[i].text().as_str(), a.text().as_str()),
            _ => false,
        };
        assert(views[i as int] == list@[i as int]@);
        if same {
            assert(same_place(views[i as int], a@));
            return true;
        }
        i = i + 1;
    }
    false
}

/// Select startup bootstrap peers: cached peers first, the configured ones
/// behind them, each place once.
#[must_use]
pub fn select_bootstrap_peers(cached: Vec<PeerAddress>, configured: Vec<PeerAddress>) -> (r: Vec<
    PeerAddress,
>)
    ensures
        address_list(r@) == deduped(address_list(cached@) + address_list(configured@)),
{
    let ghost all = address_list(cached@) + address_list(configured@);
    let mut out: Vec<PeerAddress> = Vec::new();
    let mut i: usize = 0;
    assert(all.take(0) =~= Seq::empty());
    assert(address_list(out@) =~= Seq::empty());
    while i < cached.len()
        invariant
            i <= cached.len(),
            all == address_list(cached@) + address_list(configured@),
            address_list(out@) == deduped(all.take(i as int)),
        decreases cached.len() - i,
    {
        proof {
            assert(all.take(i + 1).drop_last() =~= all.take(i as int));
            assert(all.take(i + 1).last() == cached@[i as int]@);
        }
        if !known_place(&out, &cached[i]) {
            let a = cached[i].duplicate();
            let ghost before = out@;
            let ghost v = a@;
            out.push(a);
            assert(address_list(out@) =~= address_list(before).push(v));
        }
        i = i + 1;
    }
    let n: usize = cached.len();
    let mut j: usize = 0;
    while j < configured.len()
        invariant
            j <= configured.len(),
            n == cached.len(),
            all == address_list(cached@) + address_list(configured@),
            address_list(out@) == deduped(all.take(n + j)),
        decreases configured.len() - j,
    {
        proof {
            assert(all.take(n + j + 1).drop_last() =~= all.take(n + j));
            assert(all.take(n + j + 1).last() == configured@[j as int]@);
        }
        if !known_place(&out, &configured[j]) {
            let a = configured[j].duplicate();
            let ghost before = out@;
            let ghost v = a@;
            out.push(a);
            assert(address_list(out@) =~= address_list(before).push(v));
        }
        j = j + 1;
    }
    assert(all.take(n + j) =~= all);
    out
}

/// No place is dialled twice, and every address that was given leads to a place
/// that is dialled.
pub proof fn bootstrap_places_are_distinct(list: Seq<PeerAddressView>)
    ensures
        forall|i: int, j: int|
            0 <= i < j < deduped(list).len() ==> !same_place(
                #[trigger] deduped(list)[i],
                #[trigger] deduped(list)[j],
            ),
        forall|i: int| 0 <= i < list.len() ==> has_place(deduped(list), #[trigger] list[i]),
    decreases list.len(),
{
    if list.len() > 0 {
        let t = list.drop_last();
        let rest = deduped(t);
        let d = deduped(list);
        bootstrap_places_are_distinct(t);
        assert forall|i: int| 0 <= i < list.len() implies has_place(d, #[trigger] list[i]) by {
            if i < t.len() {
                assert(t[i] == list[i]);
                assert(has_place(rest, t[i]));
                let k = choose|k: int| 0 <= k < rest.len() && same_place(#[trigger] rest[k], t[i]);
                assert(d[k] == rest[k]);
            } else if has_place(rest, list.last()) {
                let k = choose|k: int|
                    0 <= k < rest.len() && same_place(#[trigger] rest[k], list.last());
                assert(d[k] == rest[k]);
            } else {
                assert(d[rest.len() as int] == list.last());
                assert(same_place(d[rest.len() as int], list[i]));
            }
        }
        assert forall|i: int, j: int| 0 <= i < j < d.len() implies !same_place(
            #[trigger] d[i],
            #[trigger] d[j],
        ) by {
            if j < rest.len() {
                assert(d[i] == rest[i] && d[j] == rest[j]);
            } else {
                assert(d[j] == list.last());
                assert(d[i] == rest[i]);
            }
        }
    }
}

/// Cached addresses to try before the configured ones, at most one for each
/// peer, and whether the cache has to be saved: it is brought into its normal
/// form first.
pub fn cached_bootstrap_peers(cache: &mut ClientPeerCacheFile, k_value: usize) -> (r: (
    Vec<PeerAddress>,
    bool,
))
    ensures
        final(cache).schema_version == old(cache).schema_version,
        peer_list(final(cache).peers@) == normal_form(
            peer_list(old(cache).peers@),
            DEFAULT_MAX_PER_EXACT_IP as nat,
            subnet_limit(k_value),
        ),
        r.1 == (peer_list(final(cache).peers@) != peer_list(old(cache).peers@)),
        address_list(r.0@) == in_turns(
            peer_list(final(cache).peers@),
            final(cache).peers@.len() as int,
        ),
        r.0@.len() == final(cache).peers@.len(),
{
    let limits = IpLimits { max_per_ip: None, max_per_subnet: None };
    let changed = cache.normalize(&limits, k_value);
    let ghost list = peer_list(cache.peers@);
    proof {
        let sorted = ranked(with_addresses(peer_list(old(cache).peers@)));
        cache_stays_small_and_diverse(sorted, limits.per_ip(), limits.per_subnet(k_value));
        peers_with_addresses_are_dialable(list);
    }
    let addresses = cache.bootstrap_addresses(CLIENT_PEER_CACHE_MAX_PEERS);
    proof {
        assert forall|i: int| 0 <= i < list.len() implies 0 <= sector(
            (#[trigger] list[i]).peer_id,
        ) < PEER_ID_SECTOR_COUNT by {
            assert(list[i].peer_id == cache.peers@[i].peer_id@);
        }
        turns_reach_every_peer(list);
        assert(address_list(addresses@).len() == addresses@.len());
    }
    (addresses, changed)
}

/// A peer of the routing table, with its addresses and their priorities.
pub struct RoutingPeer {
    pub peer_id: PeerId,
    pub addresses: Vec<(PeerAddress, u8)>,
}

/// The addresses of a peer that were reached without help.
pub open spec fn direct_of(list: Seq<(PeerAddress, u8)>) -> Seq<PeerAddressView>
    decreases list.len(),
{
    if list.len() == 0 {
        Seq::empty()
    } else {
        let (a, priority) = list.last();
        if priority == DIRECT_ADDRESS_TYPE_PRIORITY && a.socket is Some {
            direct_of(list.drop_last()).push(a@)
        } else {
            direct_of(list.drop_last())
        }
    }
}

fn direct_addresses_of(list: &Vec<(PeerAddress, u8)>) -> (r: Vec<PeerAddress>)
    ensures
        address_list(r@) == direct_of(list@),
{
    let mut out: Vec<PeerAddress> = Vec::new();
    let mut i: usize = 0;
    assert(list@.take(0) =~= Seq::empty());
    assert(address_list(out@) =~= Seq::empty());
    while i < list.len()
        invariant
            i <= list.len(),
            address_list(out@) == direct_of(list@.take(i as int)),
        decreases list.len() - i,
    {
        assert(list@.take(i + 1).drop_last() =~= list@.take(i as int));
        assert(list@.take(i + 1).last() == list@[i as int]);
        if list[i].1 == DIRECT_ADDRESS_TYPE_PRIORITY && list[i].0.socket.is_some() {
            let a = list[i].0.duplicate();
            let ghost before = out@;
            let ghost v = a@;
            out.push(a);
            assert(address_list(out@) =~= address_list(before).push(v));
        }
        i = i + 1;
    }
    assert(list@.take(i as int) =~= list@);
    out
}

/// The cache's peers after the connected ones of a routing table were recorded.
pub open spec fn promoted(
    peers: Seq<CachedPeerView>,
    connected: Set<Seq<u8>>,
    table: Seq<RoutingPeer>,
    now: u64,
    per_ip: nat,
    per_subnet: nat,
) -> Seq<CachedPeerView>
    decreases table.len(),
{
    if table.len() == 0 {
        peers
    } else {
        let before = promoted(peers, connected, table.drop_last(), now, per_ip, per_subnet);
        let id = table.last().peer_id@;
        let addresses = sanitized(id, direct_of(table.last().addresses@));
        if !connected.contains(id) || addresses.len() == 0 {
            before
        } else {
            normal_form(upserted(before, id, addresses, now), per_ip, per_subnet)
        }
    }
}

/// Whether recording any of the peers changed the cache.
pub open spec fn promotion_changes(
    peers: Seq<CachedPeerView>,
    connected: Set<Seq<u8>>,
    table: Seq<RoutingPeer>,
    now: u64,
    per_ip: nat,
    per_subnet: nat,
) -> bool
    decreases table.len(),
{
    if table.len() == 0 {
        false
    } else {
        promotion_changes(peers, connected, table.drop_last(), now, per_ip, per_subnet) || promoted(
            peers,
            connected,
            table.drop_last(),
            now,
            per_ip,
            per_subnet,
        ) != promoted(peers, connected, table, now, per_ip, per_subnet)
    }
}

/// Records the peers of the routing table that are connected and have an
/// address that was reached without help. Whether the cache has to be saved.
pub fn promote_connected_direct_peers(
    cache: &mut ClientPeerCacheFile,
    connected: &AddressSet,
    table: &Vec<RoutingPeer>,
    now: u64,
    k_value: usize,
) -> (r: bool)
    ensures
        final(cache).schema_version == old(cache).schema_version,
        peer_list(final(cache).peers@) == promoted(
            peer_list(old(cache).peers@),
            connected@,
            table@,
            now,
            DEFAULT_MAX_PER_EXACT_IP as nat,
            subnet_limit(k_value),
        ),
        r == promotion_changes(
            peer_list(old(cache).peers@),
            connected@,
            table@,
            now,
            DEFAULT_MAX_PER_EXACT_IP as nat,
            subnet_limit(k_value),
        ),
{
    let limits = IpLimits { max_per_ip: None, max_per_subnet: None };
    let ghost start = peer_list(cache.peers@);
    let ghost a = DEFAULT_MAX_PER_EXACT_IP as nat;
    let ghost b = subnet_limit(k_value);
    let mut changed = false;
    let mut i: usize = 0;
    assert(table@.take(0) =~= Seq::empty());
    while i < table.len()
        invariant
            i <= table.len(),
            a == DEFAULT_MAX_PER_EXACT_IP,
            b == subnet_limit(k_value),
            limits.per_ip() == a,
            limits.per_subnet(k_value) == b,
            start == peer_list(old(cache).peers@),
            cache.schema_version == old(cache).schema_version,
            peer_list(cache.peers@) == promoted(
                start,
                connected@,
                table@.take(i as int),
                now,
                a,
                b,
            ),
            changed == promotion_changes(
                start,
                connected@,
                table@.take(i as int),
                now,
                a,
                b,
            ),
        decreases table.len() - i,
    {
        proof {
            assert(table@.take(i + 1).drop_last() =~= table@.take(i as int));
            assert(table@.take(i + 1).last() == table@[i as int]);
        }
        let peer_id: PeerId = table[i].peer_id;
        if connected.contains(peer_id.as_bytes()) {
            let direct = direct_addresses_of(&table[i].addresses);
            if cache.upsert_connected_peer(peer_id, direct, now, &limits, k_value) {
                changed = true;
            }
        }
        i = i + 1;
    }
    assert(table@.take(i as int) =~= table@);
    changed
}

/// The path of the cache file, where the data directory is known.
#[must_use]
pub fn cache_path(data_dir: Option<&str>) -> (r: Option<String>)
    ensures
        match data_dir {
            Some(dir) => r matches Some(path) && extends_path(
                path@,
                dir@,
                "client_peer_cache.json"@,
            ),
            None => r is None,
        },
{
    match data_dir {
        Some(dir) => {
            proof {
                reveal_strlit("client_peer_cache.json");
                reveal_strlit(".");
                reveal_strlit("..");
            }
            Some(path_join(dir, "client_peer_cache.json"))
        },
        None => None,
    }
}

/// The name of the file that the cache is written to before it replaces the
/// old one.
pub fn temporary_cache_name(file_name: Option<&str>, process_id: u32, counter: u64) -> (r: String)
    ensures
        r@ == "."@ + (match file_name {
            Some(name) => name@,
            None => "client_peer_cache.json"@,
        }) + "."@ + decimal_text(process_id as nat) + "."@ + decimal_text(counter as nat)
            + ".tmp"@,
{
    let mut name = ".".to_owned();
    match file_name {
        Some(n) => name.append(n),
        None => name.append("client_peer_cache.json"),
    }
    name.append(".");
    push_decimal(&mut name, process_id as u128);
    name.append(".");
    push_decimal(&mut name, counter as u128);
    name.append(".tmp");
    name
}

/// Every socket that was given is dialled, at exactly its IP address and port, and
/// none is dialled twice; an address without a socket is dialled by its text. What is
/// dialled was given.
pub proof fn every_given_socket_is_dialled(list: Seq<PeerAddressView>)
    ensures
        forall|i: int|
            #![trigger list[i]]
            0 <= i < list.len() ==> exists|k: int|
                {
                    &&& 0 <= k < deduped(list).len()
                    &&& (#[trigger] deduped(list)[k]).socket == list[i].socket
                    &&& list[i].socket is None ==> address_text(deduped(list)[k]) == address_text(
                        list[i],
                    )
                },
        forall|k: int| 0 <= k < deduped(list).len() ==> list.contains(#[trigger] deduped(list)[k]),
        forall|i: int, j: int|
            0 <= i < j < deduped(list).len() ==> (#[trigger] deduped(list)[i]).socket != (
            #[trigger] deduped(list)[j]).socket || (deduped(list)[i].socket is None
                && address_text(deduped(list)[i]) != address_text(deduped(list)[j])),
{
    let d = deduped(list);
    bootstrap_places_are_distinct(list);
    lemma_deduped_from(list);
    assert forall|i: int|
        #![trigger list[i]]
        0 <= i < list.len() implies exists|k: int|
        {
            &&& 0 <= k < d.len()
            &&& (#[trigger] d[k]).socket == list[i].socket
            &&& list[i].socket is None ==> address_text(d[k]) == address_text(list[i])
        } by {
        assert(has_place(d, list[i]));
        let k = choose|k: int| 0 <= k < d.len() && same_place(#[trigger] d[k], list[i]);
        assert(d[k].socket == list[i].socket);
    }
    assert forall|i: int, j: int| 0 <= i < j < d.len() implies (#[trigger] d[i]).socket != (
    #[trigger] d[j]).socket || (d[i].socket is None && address_text(d[i]) != address_text(
        d[j],
    )) by {
        assert(!same_place(d[i], d[j]));
    }
}

proof fn lemma_deduped_from(list: Seq<PeerAddressView>)
    ensures
        forall|k: int| 0 <= k < deduped(list).len() ==> list.contains(#[trigger] deduped(list)[k]),
    decreases list.len(),
{
    if list.len() > 0 {
        let t = list.drop_last();
        let d = deduped(list);
        let rest = deduped(t);
        lemma_deduped_from(t);
        assert forall|k: int| 0 <= k < d.len() implies list.contains(#[trigger] d[k]) by {
            if k < rest.len() {
                assert(d[k] == rest[k]);
                let m = choose|m: int| 0 <= m < t.len() && t[m] == rest[k];
                assert(list[m] == d[k]);
            } else {
                assert(list[list.len() - 1] == d[k]);
            }
        }
    }
}

/// The first address of a socket is the one that is dialled, and addresses keep their
/// order: a list that goes on adds only behind what was chosen before.
pub proof fn earlier_addresses_go_first(list: Seq<PeerAddressView>, more: Seq<PeerAddressView>)
    ensures
        deduped(list).len() <= deduped(list + more).len(),
        deduped(list + more).take(deduped(list).len() as int) == deduped(list),
        list.len() > 0 ==> deduped(list).len() > 0 && deduped(list)[0] == list[0],
    decreases more.len(),
{
    let d = deduped(list);
    if more.len() == 0 {
        assert(list + more =~= list);
        assert(d.take(d.len() as int) =~= d);
        if list.len() > 0 {
            lemma_first_dialled(list);
        }
    } else {
        let t = more.drop_last();
        earlier_addresses_go_first(list, t);
        assert((list + more).drop_last() =~= list + t);
        let u = deduped(list + t);
        let w = deduped(list + more);
        assert(w.take(d.len() as int) =~= u.take(d.len() as int));
    }
}

proof fn lemma_first_dialled(list: Seq<PeerAddressView>)
    requires
        list.len() > 0,
    ensures
        deduped(list).len() > 0,
        deduped(list)[0] == list[0],
    decreases list.len(),
{
    let t = list.drop_last();
    if t.len() > 0 {
        lemma_first_dialled(t);
        assert(t[0] == list[0]);
    } else {
        let none = Seq::<PeerAddressView>::empty();
        assert(t =~= none);
        assert(deduped(t) =~= none);
        assert(!has_place(none, list.last()));
    }
}

/// An address that maps a shorter one counts as that one, and every other address
/// counts as itself.
pub proof fn mapped_addresses_count_as_one(n: u32, long: u128)
    ensures
        canonical(IpAddress::V4(n)) == IpAddress::V4(n),
        canonical(IpAddress::V6((0xffff_0000_0000 + n) as u128)) == IpAddress::V4(n),
        long >> 32 != 0xffff ==> canonical(IpAddress::V6(long)) == IpAddress::V6(long),
        canonical(canonical(IpAddress::V6(long))) == canonical(IpAddress::V6(long)),
{
    assert(long >> 32 == long / 0x1_0000_0000) by (bit_vector);
}

/// Two shorter addresses are in the same network exactly where their first 24 bits
/// agree, two longer ones where their first 48 bits do, and two of different kinds
/// never are.
pub proof fn networks_are_leading_bits(a: u32, b: u32, x: u128, y: u128)
    ensures
        subnet_of(IpAddress::V4(a)) == subnet_of(IpAddress::V4(b)) <==> a >> 8 == b >> 8,
        subnet_of(IpAddress::V6(x)) == subnet_of(IpAddress::V6(y)) <==> x >> 80 == y >> 80,
        subnet_of(IpAddress::V4(a)) != subnet_of(IpAddress::V6(x)),
{
    assert(a >> 8 == a / 0x100) by (bit_vector);
    assert(b >> 8 == b / 0x100) by (bit_vector);
    assert(x >> 80 == x / 0x1_0000_0000_0000_0000_0000) by (bit_vector);
    assert(y >> 80 == y / 0x1_0000_0000_0000_0000_0000) by (bit_vector);
    assert(x / 0x1_0000_0000_0000_0000_0000 <= 0xffff_ffff_ffff) by (bit_vector);
    assert(y / 0x1_0000_0000_0000_0000_0000 <= 0xffff_ffff_ffff) by (bit_vector);
}

/// The group of a peer is given by the first four bits of its id.
pub proof fn groups_are_leading_bits(peer_id: Seq<u8>)
    requires
        peer_id.len() > 0,
    ensures
        sector(peer_id) == peer_id[0] >> 4,
        0 <= sector(peer_id) < 16,
{
    let b: u8 = peer_id[0];
    assert(b >> 4 == b / 16) by (bit_vector);
}

/// One network may take up a quarter of a bucket, but never less than one peer.
pub proof fn network_share_is_a_quarter(k_value: usize)
    ensures
        subnet_limit(k_value) >= 1,
        k_value >= 4 ==> 4 * subnet_limit(k_value) <= k_value < 4 * (subnet_limit(k_value) + 1),
        k_value < 4 ==> subnet_limit(k_value) == 1,
{
}

proof fn lemma_usable_are_dialable(peer_id: Seq<u8>, list: Seq<PeerAddressView>, k: int)
    requires
        0 <= k < sanitized(peer_id, list).len(),
    ensures
        sanitized(peer_id, list)[k].socket is Some,
        sanitized(peer_id, list)[k].peer_id == Some(peer_id),
        exists|i: int|
            {
                &&& 0 <= i < list.len()
                &&& (#[trigger] list[i]).transport == sanitized(peer_id, list)[k].transport
                &&& list[i].socket == sanitized(peer_id, list)[k].socket
            },
    decreases list.len(),
{
    let t = list.drop_last();
    let n = list.len() - 1;
    let u = sanitized(peer_id, t);
    let r = sanitized(peer_id, list);
    if k < u.len() {
        lemma_usable_are_dialable(peer_id, t, k);
        assert(u[k] == r[k]);
        let i = choose|i: int|
            {
                &&& 0 <= i < t.len()
                &&& (#[trigger] t[i]).transport == u[k].transport
                &&& t[i].socket == u[k].socket
            };
        assert(list[i] == t[i]);
    } else {
        assert(r[k] == with_peer(list.last(), peer_id));
        assert(list[n].transport == r[k].transport);
    }
}

proof fn lemma_dialable_are_usable(peer_id: Seq<u8>, list: Seq<PeerAddressView>, i: int)
    requires
        0 <= i < list.len(),
        list[i].socket is Some,
    ensures
        exists|k: int|
            0 <= k < sanitized(peer_id, list).len() && address_text(
                #[trigger] sanitized(peer_id, list)[k],
            ) == list[i].transport + "/p2p/"@ + hex_text(peer_id),
    decreases list.len(),
{
    let t = list.drop_last();
    let n = list.len() - 1;
    let u = sanitized(peer_id, t);
    let r = sanitized(peer_id, list);
    let a = with_peer(list.last(), peer_id);
    if i < n {
        assert(t[i] == list[i]);
        lemma_dialable_are_usable(peer_id, t, i);
        let k = choose|k: int|
            0 <= k < u.len() && address_text(#[trigger] u[k]) == t[i].transport + "/p2p/"@
                + hex_text(peer_id);
        assert(r[k] == u[k]);
    } else if has_text(u, address_text(a)) {
        let k = choose|k: int|
            0 <= k < u.len() && address_text(#[trigger] u[k]) == address_text(a);
        assert(r[k] == u[k]);
    } else {
        assert(r[u.len() as int] == a);
    }
}

proof fn lemma_usable_have_own_texts(
    peer_id: Seq<u8>,
    list: Seq<PeerAddressView>,
    j: int,
    k: int,
)
    requires
        0 <= j < k < sanitized(peer_id, list).len(),
    ensures
        address_text(sanitized(peer_id, list)[j]) != address_text(sanitized(peer_id, list)[k]),
    decreases list.len(),
{
    let t = list.drop_last();
    let u = sanitized(peer_id, t);
    let r = sanitized(peer_id, list);
    assert(r[j] == u[j]);
    if k < u.len() {
        lemma_usable_have_own_texts(peer_id, t, j, k);
        assert(r[k] == u[k]);
    } else {
        assert(r[k] == with_peer(list.last(), peer_id));
    }
}

/// The usable addresses of a peer are those at which a connection can be opened, each
/// with the peer that is expected there, none with the same text twice, and none is
/// left out.
pub proof fn usable_addresses_are_the_dialable_ones(peer_id: Seq<u8>, list: Seq<PeerAddressView>)
    ensures
        forall|k: int|
            #![trigger sanitized(peer_id, list)[k]]
            0 <= k < sanitized(peer_id, list).len() ==> {
                &&& sanitized(peer_id, list)[k].socket is Some
                &&& sanitized(peer_id, list)[k].peer_id == Some(peer_id)
                &&& exists|i: int|
                    {
                        &&& 0 <= i < list.len()
                        &&& (#[trigger] list[i]).transport == sanitized(peer_id, list)[k].transport
                        &&& list[i].socket == sanitized(peer_id, list)[k].socket
                    }
            },
        forall|i: int|
            #![trigger list[i]]
            0 <= i < list.len() && list[i].socket is Some ==> exists|k: int|
                0 <= k < sanitized(peer_id, list).len() && address_text(
                    #[trigger] sanitized(peer_id, list)[k],
                ) == list[i].transport + "/p2p/"@ + hex_text(peer_id),
        forall|j: int, k: int|
            0 <= j < k < sanitized(peer_id, list).len() ==> address_text(
                #[trigger] sanitized(peer_id, list)[j],
            ) != address_text(#[trigger] sanitized(peer_id, list)[k]),
{
    let r = sanitized(peer_id, list);
    assert forall|k: int| #![trigger r[k]] 0 <= k < r.len() implies {
        &&& r[k].socket is Some
        &&& r[k].peer_id == Some(peer_id)
        &&& exists|i: int|
            {
                &&& 0 <= i < list.len()
                &&& (#[trigger] list[i]).transport == r[k].transport
                &&& list[i].socket == r[k].socket
            }
    } by {
        lemma_usable_are_dialable(peer_id, list, k);
    }
    assert forall|i: int|
        #![trigger list[i]]
        0 <= i < list.len() && list[i].socket is Some implies exists|k: int|
        0 <= k < r.len() && address_text(#[trigger] r[k]) == list[i].transport + "/p2p/"@
            + hex_text(peer_id) by {
        lemma_dialable_are_usable(peer_id, list, i);
    }
    assert forall|j: int, k: int| 0 <= j < k < r.len() implies address_text(#[trigger] r[j])
        != address_text(#[trigger] r[k]) by {
        lemma_usable_have_own_texts(peer_id, list, j, k);
    }
}

/// The counts of an IP address and of a network are those of the peers that have an
/// address there.
pub proof fn shares_are_counted_by_peer(
    peers: Seq<CachedPeerView>,
    ip: IpAddress,
    net: SubnetKey,
)
    ensures
        ip_count(peers, ip) == peers.filter(
            |p: CachedPeerView|
                exists|i: int|
                    0 <= i < p.direct_addresses.len() && ((
                    #[trigger] p.direct_addresses[i]).socket matches Some(s) && canonical(s.ip)
                        == ip),
        ).len(),
        subnet_count(peers, net) == peers.filter(
            |p: CachedPeerView|
                exists|i: int|
                    0 <= i < p.direct_addresses.len() && ((
                    #[trigger] p.direct_addresses[i]).socket matches Some(s) && subnet_of(
                        canonical(s.ip),
                    ) == net),
        ).len(),
    decreases peers.len(),
{
    broadcast use Seq::lemma_filter_len_push;

    if peers.len() > 0 {
        let t = peers.drop_last();
        let p = peers.last();
        shares_are_counted_by_peer(t, ip, net);
        assert(peers =~= t.push(p));
        let here = |p: CachedPeerView|
            exists|i: int|
                0 <= i < p.direct_addresses.len() && ((
                #[trigger] p.direct_addresses[i]).socket matches Some(s) && canonical(s.ip) == ip);
        let near = |p: CachedPeerView|
            exists|i: int|
                0 <= i < p.direct_addresses.len() && ((
                #[trigger] p.direct_addresses[i]).socket matches Some(s) && subnet_of(
                    canonical(s.ip),
                ) == net);
        if uses_ip(p, ip) {
            let i = choose|i: int|
                0 <= i < p.direct_addresses.len() && at_ip(#[trigger] p.direct_addresses[i], ip);
            assert(p.direct_addresses[i].socket is Some);
            assert(here(p));
        }
        if here(p) {
            let i = choose|i: int|
                0 <= i < p.direct_addresses.len() && ((
                #[trigger] p.direct_addresses[i]).socket matches Some(s) && canonical(s.ip) == ip);
            assert(at_ip(p.direct_addresses[i], ip));
        }
        if uses_subnet(p, net) {
            let i = choose|i: int|
                0 <= i < p.direct_addresses.len() && in_subnet(
                    #[trigger] p.direct_addresses[i],
                    net,
                );
            assert(p.direct_addresses[i].socket is Some);
            assert(near(p));
        }
        if near(p) {
            let i = choose|i: int|
                0 <= i < p.direct_addresses.len() && ((
                #[trigger] p.direct_addresses[i]).socket matches Some(s) && subnet_of(
                    canonical(s.ip),
                ) == net);
            assert(in_subnet(p.direct_addresses[i], net));
        }
    }
}

/// The peers that have addresses, in their order.
pub proof fn peers_without_addresses_are_dropped(peers: Seq<CachedPeerView>)
    ensures
        with_addresses(peers) == peers.filter(
            |p: CachedPeerView| p.direct_addresses.len() > 0,
        ),
    decreases peers.len(),
{
    if peers.len() > 0 {
        peers_without_addresses_are_dropped(peers.drop_last());
    }
    reveal(Seq::filter);
    assert(with_addresses(peers) =~= peers.filter(
        |p: CachedPeerView| p.direct_addresses.len() > 0,
    ));
}

proof fn lemma_counts_grow(peers: Seq<CachedPeerView>, p: CachedPeerView)
    ensures
        forall|ip: IpAddress| #[trigger]
            ip_count(peers.push(p), ip) >= ip_count(peers, ip),
        forall|net: SubnetKey| #[trigger]
            subnet_count(peers.push(p), net) >= subnet_count(peers, net),
{
    assert(peers.push(p).drop_last() =~= peers);
}

/// Whether a peer cannot join a cache: the cache is full, the peer cannot be dialled,
/// or an IP address or a network of it is taken up.
pub open spec fn has_no_room(
    cache: Seq<CachedPeerView>,
    peer: CachedPeerView,
    per_ip: nat,
    per_subnet: nat,
) -> bool {
    ||| cache.len() >= CLIENT_PEER_CACHE_MAX_PEERS
    ||| forall|i: int|
        0 <= i < peer.direct_addresses.len() ==> (#[trigger] peer.direct_addresses[i]).socket
            is None
    ||| exists|i: int|
        0 <= i < peer.direct_addresses.len() && ((
        #[trigger] peer.direct_addresses[i]).socket matches Some(s) && (ip_count(
            cache,
            canonical(s.ip),
        ) >= per_ip || subnet_count(cache, subnet_of(canonical(s.ip))) >= per_subnet))
}

proof fn lemma_no_room_stays(
    cache: Seq<CachedPeerView>,
    p: CachedPeerView,
    peer: CachedPeerView,
    per_ip: nat,
    per_subnet: nat,
)
    requires
        has_no_room(cache, peer, per_ip, per_subnet),
    ensures
        has_no_room(cache.push(p), peer, per_ip, per_subnet),
{
    lemma_counts_grow(cache, p);
    let more = cache.push(p);
    if exists|i: int|
        0 <= i < peer.direct_addresses.len() && ((
        #[trigger] peer.direct_addresses[i]).socket matches Some(s) && (ip_count(
            cache,
            canonical(s.ip),
        ) >= per_ip || subnet_count(cache, subnet_of(canonical(s.ip))) >= per_subnet)) {
        let i = choose|i: int|
            0 <= i < peer.direct_addresses.len() && ((
            #[trigger] peer.direct_addresses[i]).socket matches Some(s) && (ip_count(
                cache,
                canonical(s.ip),
            ) >= per_ip || subnet_count(cache, subnet_of(canonical(s.ip))) >= per_subnet));
        let s = peer.direct_addresses[i].socket->0;
        assert(ip_count(more, canonical(s.ip)) >= ip_count(cache, canonical(s.ip)));
        assert(subnet_count(more, subnet_of(canonical(s.ip))) >= subnet_count(
            cache,
            subnet_of(canonical(s.ip)),
        ));
    }
}

proof fn lemma_not_admissible(
    cache: Seq<CachedPeerView>,
    peer: CachedPeerView,
    per_ip: nat,
    per_subnet: nat,
)
    requires
        !admissible(cache, peer, per_ip, per_subnet),
    ensures
        has_no_room(cache, peer, per_ip, per_subnet),
{
    if exists|i: int|
        0 <= i < peer.direct_addresses.len() && (#[trigger] peer.direct_addresses[i]).socket
            is Some {
        if exists|ip: IpAddress| #[trigger] uses_ip(peer, ip) && ip_count(cache, ip) >= per_ip {
            let ip = choose|ip: IpAddress| #[trigger]
                uses_ip(peer, ip) && ip_count(cache, ip) >= per_ip;
            let i = choose|i: int|
                0 <= i < peer.direct_addresses.len() && at_ip(
                    #[trigger] peer.direct_addresses[i],
                    ip,
                );
            assert(peer.direct_addresses[i].socket is Some);
        } else {
            let net = choose|net: SubnetKey| #[trigger]
                uses_subnet(peer, net) && subnet_count(cache, net) >= per_subnet;
            let i = choose|i: int|
                0 <= i < peer.direct_addresses.len() && in_subnet(
                    #[trigger] peer.direct_addresses[i],
                    net,
                );
            assert(peer.direct_addresses[i].socket is Some);
        }
    }
}

/// Nobody is left out of the cache without a reason: an entry is kept, or an earlier
/// entry names the same peer, or there is no room for it in the cache. What is kept was
/// there.
#[verifier::spinoff_prover]
#[verifier::rlimit(50)]
pub proof fn nobody_is_left_out_without_reason(
    peers: Seq<CachedPeerView>,
    per_ip: nat,
    per_subnet: nat,
)
    ensures
        forall|i: int|
            #![trigger peers[i]]
            0 <= i < peers.len() ==> {
                ||| kept(peers, per_ip, per_subnet).contains(peers[i])
                ||| exists|j: int| 0 <= j < i && (#[trigger] peers[j]).peer_id == peers[i].peer_id
                ||| has_no_room(kept(peers, per_ip, per_subnet), peers[i], per_ip, per_subnet)
            },
        forall|k: int|
            0 <= k < kept(peers, per_ip, per_subnet).len() ==> peers.contains(
                #[trigger] kept(peers, per_ip, per_subnet)[k],
            ),
    decreases peers.len(),
{
    if peers.len() > 0 {
        let t = peers.drop_last();
        let n = peers.len() - 1;
        let p = peers.last();
        let rest = kept(t, per_ip, per_subnet);
        let k = kept(peers, per_ip, per_subnet);
        nobody_is_left_out_without_reason(t, per_ip, per_subnet);
        assert(forall|j: int| 0 <= j < t.len() ==> t[j] == peers[j]);
        assert forall|m: int| 0 <= m < k.len() implies peers.contains(#[trigger] k[m]) by {
            if m < rest.len() {
                assert(k[m] == rest[m]);
                let j = choose|j: int| 0 <= j < t.len() && t[j] == rest[m];
                assert(peers[j] == k[m]);
            } else {
                assert(peers[n] == k[m]);
            }
        }
        assert forall|i: int| #![trigger peers[i]] 0 <= i < peers.len() implies {
            ||| k.contains(peers[i])
            ||| exists|j: int| 0 <= j < i && (#[trigger] peers[j]).peer_id == peers[i].peer_id
            ||| has_no_room(k, peers[i], per_ip, per_subnet)
        } by {
            if i < n {
                assert(t[i] == peers[i]);
                if rest.contains(t[i]) {
                    let m = choose|m: int| 0 <= m < rest.len() && rest[m] == t[i];
                    assert(k[m] == peers[i]);
                } else if exists|j: int| 0 <= j < i && (#[trigger] t[j]).peer_id == t[i].peer_id {
                    let j = choose|j: int| 0 <= j < i && (#[trigger] t[j]).peer_id == t[i].peer_id;
                    assert(peers[j].peer_id == peers[i].peer_id);
                } else if k != rest {
                    lemma_no_room_stays(rest, p, peers[i], per_ip, per_subnet);
                }
            } else if lists_peer(t, p.peer_id) {
                let j = choose|j: int| 0 <= j < t.len() && (#[trigger] t[j]).peer_id == p.peer_id;
                assert(peers[j].peer_id == p.peer_id);
            } else if !admissible(rest, p, per_ip, per_subnet) {
                lemma_not_admissible(rest, p, per_ip, per_subnet);
            } else if rest.len() < CLIENT_PEER_CACHE_MAX_PEERS {
                assert(k[rest.len() as int] == p);
            }
        }
    }
}

/// A connection renews one entry of its peer, or adds one: that entry has the new
/// addresses and the present time, and keeps the time of the first connection. All
/// other entries stay as they are.
pub proof fn connection_renews_its_peer(
    peers: Seq<CachedPeerView>,
    peer_id: Seq<u8>,
    addresses: Seq<PeerAddressView>,
    now: u64,
) -> (at: int)
    ensures
        ({
            let after = upserted(peers, peer_id, addresses, now);
            let known = exists|i: int| 0 <= i < peers.len() && (#[trigger] peers[i]).peer_id == peer_id;
            &&& 0 <= at < after.len()
            &&& after.len() == if known {
                peers.len()
            } else {
                peers.len() + 1
            }
            &&& after[at].peer_id == peer_id
            &&& after[at].direct_addresses == addresses
            &&& after[at].last_connected == now
            &&& known ==> at < peers.len() && peers[at].peer_id == peer_id
                && after[at].first_connected == peers[at].first_connected && forall|k: int|
                0 <= k < at ==> (#[trigger] peers[k]).peer_id != peer_id
            &&& !known ==> at == peers.len() && after[at].first_connected == now
            &&& forall|k: int|
                0 <= k < peers.len() && k != at ==> #[trigger] after[k] == peers[k]
        }),
{
    let after = upserted(peers, peer_id, addresses, now);
    if lists_peer(peers, peer_id) {
        lemma_first_entry_bound(peers, peer_id);
        lemma_first_entry_is_first(peers, peer_id);
        first_entry(peers, peer_id)
    } else {
        peers.len() as int
    }
}

proof fn lemma_first_entry_is_first(peers: Seq<CachedPeerView>, peer_id: Seq<u8>)
    requires
        lists_peer(peers, peer_id),
    ensures
        peers[first_entry(peers, peer_id)].peer_id == peer_id,
        forall|k: int|
            0 <= k < first_entry(peers, peer_id) ==> (#[trigger] peers[k]).peer_id != peer_id,
    decreases peers.len(),
{
    let t = peers.drop_last();
    assert(forall|k: int| 0 <= k < t.len() ==> t[k] == peers[k]);
    if lists_peer(t, peer_id) {
        lemma_first_entry_bound(t, peer_id);
        lemma_first_entry_is_first(t, peer_id);
    } else {
        let i = choose|i: int| 0 <= i < peers.len() && (#[trigger] peers[i]).peer_id == peer_id;
        if i < t.len() {
            assert(t[i].peer_id == peer_id);
        }
        assert forall|k: int| 0 <= k < peers.len() - 1 implies (#[trigger] peers[k]).peer_id
            != peer_id by {
            assert(t[k] == peers[k]);
        }
    }
}

/// Nobody gets into the cache who was not there and is not connected, and a connected
/// peer gets in only with an address that was reached without help.
pub proof fn only_connected_peers_are_recorded(
    peers: Seq<CachedPeerView>,
    connected: Set<Seq<u8>>,
    table: Seq<RoutingPeer>,
    now: u64,
    per_ip: nat,
    per_subnet: nat,
)
    ensures
        forall|k: int|
            #![trigger promoted(peers, connected, table, now, per_ip, per_subnet)[k]]
            0 <= k < promoted(peers, connected, table, now, per_ip, per_subnet).len() ==> ({
                let p = promoted(peers, connected, table, now, per_ip, per_subnet)[k];
                ||| peers.contains(p)
                ||| {
                    &&& connected.contains(p.peer_id)
                    &&& p.last_connected == now
                    &&& exists|i: int|
                        0 <= i < table.len() && (#[trigger] table[i]).peer_id@ == p.peer_id
                            && p.direct_addresses == sanitized(
                            p.peer_id,
                            direct_of(table[i].addresses@),
                        )
                    &&& p.direct_addresses.len() > 0
                }
            }),
    decreases table.len(),
{
    if table.len() > 0 {
        let t = table.drop_last();
        let n = table.len() - 1;
        let before = promoted(peers, connected, t, now, per_ip, per_subnet);
        let after = promoted(peers, connected, table, now, per_ip, per_subnet);
        only_connected_peers_are_recorded(peers, connected, t, now, per_ip, per_subnet);
        assert(forall|i: int| 0 <= i < t.len() ==> t[i] == table[i]);
        assert(table[n] == table.last());
        let id = table.last().peer_id@;
        let addresses = sanitized(id, direct_of(table.last().addresses@));
        let list = upserted(before, id, addresses, now);
        assert forall|k: int| #![trigger after[k]] 0 <= k < after.len() implies ({
            let p = after[k];
            ||| peers.contains(p)
            ||| {
                &&& connected.contains(p.peer_id)
                &&& p.last_connected == now
                &&& exists|i: int|
                    0 <= i < table.len() && (#[trigger] table[i]).peer_id@ == p.peer_id
                        && p.direct_addresses == sanitized(
                        p.peer_id,
                        direct_of(table[i].addresses@),
                    )
                &&& p.direct_addresses.len() > 0
            }
        }) by {
            let p = after[k];
            let m = if connected.contains(id) && addresses.len() > 0 {
                let sorted = ranked(with_addresses(list));
                nobody_is_left_out_without_reason(sorted, per_ip, per_subnet);
                assert(sorted.contains(p));
                let by_id = stable_sort(with_addresses(list), id_key());
                lemma_stable_sort_contains(by_id, age_key(), p);
                lemma_stable_sort_contains(with_addresses(list), id_key(), p);
                lemma_with_addresses_contains(list, p);
                let at = connection_renews_its_peer(before, id, addresses, now);
                let m = choose|m: int| 0 <= m < list.len() && list[m] == p;
                if m == at {
                    assert(table[n].peer_id@ == p.peer_id);
                    -1
                } else {
                    assert(before[m] == p);
                    m
                }
            } else {
                k
            };
            if m >= 0 {
                assert(before[m] == p);
                if !peers.contains(p) {
                    let i = choose|i: int|
                        0 <= i < t.len() && (#[trigger] t[i]).peer_id@ == p.peer_id
                            && p.direct_addresses == sanitized(
                            p.peer_id,
                            direct_of(t[i].addresses@),
                        );
                    assert(table[i].peer_id@ == p.peer_id);
                }
            }
        }
    }
}

/// The addresses of a peer that were reached without help are those of the direct
/// kind at which a connection can be opened, in their order.
pub proof fn direct_addresses_are_picked(list: Seq<(PeerAddress, u8)>)
    ensures
        direct_of(list) == list.filter(
            |e: (PeerAddress, u8)| e.1 == DIRECT_ADDRESS_TYPE_PRIORITY && e.0@.socket is Some,
        ).map_values(|e: (PeerAddress, u8)| e.0@),
    decreases list.len(),
{
    let direct = |e: (PeerAddress, u8)|
        e.1 == DIRECT_ADDRESS_TYPE_PRIORITY && e.0@.socket is Some;
    let view = |e: (PeerAddress, u8)| e.0@;
    reveal(Seq::filter);
    if list.len() > 0 {
        direct_addresses_are_picked(list.drop_last());
        let f = list.drop_last().filter(direct);
        assert(f.push(list.last()).map_values(view) =~= f.map_values(view).push(view(list.last())));
    }
    assert(direct_of(list) =~= list.filter(direct).map_values(view));
}

/// The peers of a group are those with its leading bits, in their order.
pub proof fn groups_keep_their_order(peers: Seq<CachedPeerView>, group: int)
    ensures
        lane(peers, group) == peers.filter(|p: CachedPeerView| p.peer_id[0] as int / 16 == group),
    decreases peers.len(),
{
    let f = |p: CachedPeerView| p.peer_id[0] as int / 16 == group;
    reveal(Seq::filter);
    if peers.len() > 0 {
        groups_keep_their_order(peers.drop_last(), group);
    }
    assert(lane(peers, group) =~= peers.filter(f));
}

/// In a round each group that still has a peer gives one address, the groups in
/// ascending order: the first address of its next peer. Nothing else is in a round.
pub proof fn every_group_has_its_turn(
    peers: Seq<CachedPeerView>,
    round: int,
    groups: int,
    group: int,
)
    requires
        0 <= group < groups,
        0 <= round,
    ensures
        ({
            let l = peers.filter(|p: CachedPeerView| p.peer_id[0] as int / 16 == group);
            let before = row(peers, round, group);
            let whole = row(peers, round, groups);
            &&& before.len() <= whole.len()
            &&& whole.take(before.len() as int) == before
            &&& row(peers, round, group + 1).len() == before.len() + if round < l.len() {
                1nat
            } else {
                0nat
            }
            &&& round < l.len() ==> before.len() < whole.len() && whole[before.len() as int]
                == l[round].direct_addresses[0]
        }),
    decreases groups - group,
{
    let l = lane(peers, group);
    groups_keep_their_order(peers, group);
    let before = row(peers, round, group);
    let next = row(peers, round, group + 1);
    let whole = row(peers, round, groups);
    assert(next.take(before.len() as int) =~= before);
    if group + 1 < groups {
        every_group_has_its_turn(peers, round, groups, group + 1);
        assert(whole.take(before.len() as int) =~= whole.take(next.len() as int).take(
            before.len() as int,
        ));
        if round < l.len() {
            assert(whole.take(next.len() as int)[before.len() as int] == next[before.len() as int]);
        }
    }
}

proof fn lemma_row_bag(peers: Seq<CachedPeerView>, p: CachedPeerView, round: int, groups: int)
    requires
        round >= 0,
    ensures
        row(peers.push(p), round, groups).to_multiset() == if 0 <= sector(p.peer_id) < groups
            && round == lane(peers, sector(p.peer_id)).len() {
            row(peers, round, groups).to_multiset().insert(p.direct_addresses[0])
        } else {
            row(peers, round, groups).to_multiset()
        },
    decreases groups,
{
    broadcast use vstd::seq_lib::group_to_multiset_ensures;

    if groups > 0 {
        assert(peers.push(p).drop_last() =~= peers);
        lemma_row_bag(peers, p, round, groups - 1);
        let a = row(peers.push(p), round, groups - 1);
        let b = row(peers, round, groups - 1);
        let l = lane(peers, groups - 1);
        let m = lane(peers.push(p), groups - 1);
        if sector(p.peer_id) == groups - 1 {
            assert(m == l.push(p));
            assert(a.to_multiset() == b.to_multiset());
        } else {
            assert(m == l);
        }
        if round < m.len() {
            assert(row(peers.push(p), round, groups) == a.push(m[round].direct_addresses[0]));
        }
        if round < l.len() {
            assert(m[round] == l[round]);
            assert(row(peers, round, groups) == b.push(l[round].direct_addresses[0]));
        }
        assert(row(peers.push(p), round, groups).to_multiset() =~= if 0 <= sector(p.peer_id)
            < groups && round == lane(peers, sector(p.peer_id)).len() {
            row(peers, round, groups).to_multiset().insert(p.direct_addresses[0])
        } else {
            row(peers, round, groups).to_multiset()
        });
    }
}

proof fn lemma_turns_bag(peers: Seq<CachedPeerView>, p: CachedPeerView, rounds: int)
    requires
        0 <= sector(p.peer_id) < PEER_ID_SECTOR_COUNT,
        rounds >= 0,
    ensures
        in_turns(peers.push(p), rounds).to_multiset() == if lane(peers, sector(p.peer_id)).len()
            < rounds {
            in_turns(peers, rounds).to_multiset().insert(p.direct_addresses[0])
        } else {
            in_turns(peers, rounds).to_multiset()
        },
    decreases rounds,
{
    if rounds > 0 {
        let g = PEER_ID_SECTOR_COUNT as int;
        let more = peers.push(p);
        lemma_turns_bag(peers, p, rounds - 1);
        lemma_row_bag(peers, p, rounds - 1, g);
        vstd::seq_lib::lemma_multiset_commutative(
            in_turns(more, rounds - 1),
            row(more, rounds - 1, g),
        );
        vstd::seq_lib::lemma_multiset_commutative(
            in_turns(peers, rounds - 1),
            row(peers, rounds - 1, g),
        );
        assert(in_turns(more, rounds).to_multiset() =~= if lane(peers, sector(p.peer_id)).len()
            < rounds {
            in_turns(peers, rounds).to_multiset().insert(p.direct_addresses[0])
        } else {
            in_turns(peers, rounds).to_multiset()
        });
    }
}

/// Taking turns gives the first address of every peer, each once, and nothing else.
pub proof fn turns_give_the_first_address_of_every_peer(peers: Seq<CachedPeerView>)
    requires
        forall|i: int| 0 <= i < peers.len() ==> (#[trigger] peers[i]).peer_id.len() > 0,
    ensures
        in_turns(peers, peers.len() as int).to_multiset() == peers.map_values(
            |p: CachedPeerView| p.direct_addresses[0],
        ).to_multiset(),
    decreases peers.len(),
{
    broadcast use vstd::seq_lib::group_to_multiset_ensures;

    let first = |p: CachedPeerView| p.direct_addresses[0];
    if peers.len() > 0 {
        let t = peers.drop_last();
        let p = peers.last();
        let n = t.len() as int;
        assert(forall|i: int| 0 <= i < t.len() ==> t[i] == peers[i]);
        turns_give_the_first_address_of_every_peer(t);
        assert(t.push(p) =~= peers);
        assert(peers[peers.len() - 1].peer_id.len() > 0);
        lemma_turns_bag(t, p, n + 1);
        lemma_row_empty(t, n, PEER_ID_SECTOR_COUNT as int);
        lemma_lane_bound(t, sector(p.peer_id));
        assert(in_turns(t, n + 1) =~= in_turns(t, n));
        assert(peers.map_values(first) =~= t.map_values(first).push(first(p)));
    } else {
        assert(peers.map_values(first) =~= in_turns(peers, 0));
    }
}

/// Where recording the peers is said to change nothing, the cache is as before.
pub proof fn unchanged_cache_is_the_same(
    peers: Seq<CachedPeerView>,
    connected: Set<Seq<u8>>,
    table: Seq<RoutingPeer>,
    now: u64,
    per_ip: nat,
    per_subnet: nat,
)
    requires
        !promotion_changes(peers, connected, table, now, per_ip, per_subnet),
    ensures
        promoted(peers, connected, table, now, per_ip, per_subnet) == promoted(
            peers,
            connected,
            Seq::empty(),
            now,
            per_ip,
            per_subnet,
        ),
    decreases table.len(),
{
    if table.len() > 0 {
        unchanged_cache_is_the_same(
            peers,
            connected,
            table.drop_last(),
            now,
            per_ip,
            per_subnet,
        );
    } else {
        assert(table =~= Seq::empty());
    }
}

/// The first entry of a listed peer is its own, and none in front of it is.
pub proof fn first_entry_is_the_first(peers: Seq<CachedPeerView>, peer_id: Seq<u8>, i: int)
    requires
        0 <= i < peers.len(),
        peers[i].peer_id == peer_id,
    ensures
        0 <= first_entry(peers, peer_id) <= i,
        peers[first_entry(peers, peer_id)].peer_id == peer_id,
    decreases peers.len(),
{
    let t = peers.drop_last();
    if lists_peer(t, peer_id) {
        let k = choose|k: int| 0 <= k < t.len() && (#[trigger] t[k]).peer_id == peer_id;
        if i < t.len() {
            first_entry_is_the_first(t, peer_id, i);
        } else {
            first_entry_is_the_first(t, peer_id, k);
        }
    } else if i < t.len() {
        assert(t[i].peer_id == peer_id);
    }
}

} // verus!
