use ant_core::collections::AddressSet;
use ant_core::data::peer_cache::{
    admit_peer, cache_path, cached_bootstrap_peers, canonical_ip, default_subnet_limit,
    peer_id_sector, promote_connected_direct_peers, sanitize_direct_addresses,
    select_bootstrap_peers, subnet_key, temporary_cache_name, CachedPeer, ClientPeerCacheFile,
    IpAddress, IpLimits, PeerAddress, RoutingPeer, Socket, SubnetKey, CLIENT_PEER_CACHE_MAX_PEERS,
    CLIENT_PEER_CACHE_SCHEMA_VERSION, DEFAULT_MAX_PER_EXACT_IP, DIRECT_ADDRESS_TYPE_PRIORITY,
};
use ant_core::xor::PeerId;

const TEST_PEER_ID_LEN: usize = 32;
const TEST_K_VALUE: usize = 20;
const FIRST_PORT: u16 = 10_000;
const TEST_NOW: u64 = 1_000_000;
const EXACT_IP_ATTEMPTS: u8 = 3;
const SUBNET_ATTEMPTS: u8 = 6;
const PEER_COUNT_OVER_CACHE_LIMIT: usize = CLIENT_PEER_CACHE_MAX_PEERS + 10;
const BOOTSTRAP_ROUND_ROBIN_TEST_LIMIT: usize = 6;

fn peer_id(byte: u8) -> PeerId {
    let mut bytes = [0u8; TEST_PEER_ID_LEN];
    bytes[0] = byte;
    PeerId::from_bytes(bytes)
}

fn direct_addr(ip: IpAddress, port: u16) -> PeerAddress {
    let transport = match ip {
        IpAddress::V4(n) => {
            let [a, b, c, d] = n.to_be_bytes();
            format!("/ip4/{a}.{b}.{c}.{d}/udp/{port}/quic")
        }
        IpAddress::V6(n) => format!("/ip6/{:x}::{:x}/udp/{port}/quic", n >> 112, n & 0xffff),
    };
    PeerAddress { transport, socket: Some(Socket { ip, port }), peer_id: None }
}

fn with_peer_id(address: PeerAddress, peer: PeerId) -> PeerAddress {
    PeerAddress { peer_id: Some(peer), ..address }
}

fn v4(a: u8, b: u8, c: u8, d: u8) -> IpAddress {
    IpAddress::V4(u32::from_be_bytes([a, b, c, d]))
}

fn v6(first_segment: u16, host: u16) -> IpAddress {
    IpAddress::V6(((first_segment as u128) << 112) | host as u128)
}

fn texts(addresses: &[PeerAddress]) -> Vec<String> {
    addresses.iter().map(|a| a.text()).collect()
}

fn ip_of(address: &PeerAddress) -> IpAddress {
    address.socket.expect("a dialable address").ip
}

#[test]
fn cache_keeps_most_recent_peers_when_full() {
    let mut cache = ClientPeerCacheFile::empty();
    let diversity = IpLimits::permissive();

    for idx in 0..PEER_COUNT_OVER_CACHE_LIMIT {
        let peer = peer_id(idx as u8);
        let addr = direct_addr(v4(1, 0, idx as u8, 1), FIRST_PORT + idx as u16);
        cache.upsert_connected_peer(
            peer,
            vec![addr],
            TEST_NOW + idx as u64,
            &diversity,
            TEST_K_VALUE,
        );
    }

    assert_eq!(cache.peers.len(), CLIENT_PEER_CACHE_MAX_PEERS);
    assert!(cache.peers.iter().any(|peer| peer.peer_id == peer_id(59)));
    assert!(!cache.peers.iter().any(|peer| peer.peer_id == peer_id(0)));
}

#[test]
fn cache_applies_exact_ip_limit() {
    let mut cache = ClientPeerCacheFile::empty();
    let diversity = IpLimits::default();

    for idx in 0..EXACT_IP_ATTEMPTS {
        cache.upsert_connected_peer(
            peer_id(idx),
            vec![direct_addr(v4(203, 0, 113, 1), FIRST_PORT + u16::from(idx))],
            TEST_NOW + u64::from(idx),
            &diversity,
            TEST_K_VALUE,
        );
    }

    assert_eq!(cache.peers.len(), DEFAULT_MAX_PER_EXACT_IP);
    assert!(cache.peers.iter().any(|peer| peer.peer_id == peer_id(2)));
    assert!(cache.peers.iter().any(|peer| peer.peer_id == peer_id(1)));
    assert!(!cache.peers.iter().any(|peer| peer.peer_id == peer_id(0)));
}

#[test]
fn cache_applies_subnet_limit() {
    let mut cache = ClientPeerCacheFile::empty();
    let diversity = IpLimits::default();

    for idx in 0..SUBNET_ATTEMPTS {
        cache.upsert_connected_peer(
            peer_id(idx),
            vec![direct_addr(v4(198, 51, 100, idx), FIRST_PORT + u16::from(idx))],
            TEST_NOW + u64::from(idx),
            &diversity,
            TEST_K_VALUE,
        );
    }

    assert_eq!(cache.peers.len(), default_subnet_limit(TEST_K_VALUE));
    assert!(cache.peers.iter().any(|peer| peer.peer_id == peer_id(5)));
    assert!(!cache.peers.iter().any(|peer| peer.peer_id == peer_id(0)));
}

#[test]
fn cache_rejects_peers_without_dialable_direct_addresses() {
    let mut cache = ClientPeerCacheFile::empty();
    let diversity = IpLimits::permissive();

    let changed =
        cache.upsert_connected_peer(peer_id(1), Vec::new(), TEST_NOW, &diversity, TEST_K_VALUE);

    assert!(!changed);
    assert!(cache.peers.is_empty());
}

#[test]
fn peer_without_an_address_holds_up_its_group() {
    let peer = |seed: u8, addresses: Vec<PeerAddress>| CachedPeer {
        peer_id: peer_id(seed),
        direct_addresses: addresses,
        first_connected_epoch_secs: TEST_NOW,
        last_connected_epoch_secs: TEST_NOW,
    };
    let mut cache = ClientPeerCacheFile::empty();
    cache.peers = vec![
        peer(0x01, Vec::new()),
        peer(0x02, vec![direct_addr(v4(1, 0, 0, 2), FIRST_PORT)]),
        peer(0xf0, vec![direct_addr(v4(1, 0, 0, 3), FIRST_PORT)]),
    ];
    let addresses = cache.bootstrap_addresses(5);
    assert_eq!(addresses.len(), 1);
    assert_eq!(ip_of(&addresses[0]), v4(1, 0, 0, 3));
    assert!(cache.bootstrap_addresses(0).is_empty());
    cache.peers.remove(0);
    assert_eq!(cache.bootstrap_addresses(5).len(), 2);
    assert_eq!(cache.bootstrap_addresses(0).len(), 1);
}

#[test]
fn cached_bootstrap_addresses_round_robin_peer_id_sectors() {
    let mut cache = ClientPeerCacheFile::empty();
    let diversity = IpLimits::permissive();

    cache.upsert_connected_peer(
        peer_id(0x01),
        vec![direct_addr(v4(1, 0, 0, 1), FIRST_PORT)],
        TEST_NOW,
        &diversity,
        TEST_K_VALUE,
    );
    cache.upsert_connected_peer(
        peer_id(0x02),
        vec![direct_addr(v4(1, 0, 0, 2), FIRST_PORT + 1)],
        TEST_NOW + 1,
        &diversity,
        TEST_K_VALUE,
    );
    cache.upsert_connected_peer(
        peer_id(0xf0),
        vec![direct_addr(v6(0x2001, 1), FIRST_PORT + 2)],
        TEST_NOW + 2,
        &diversity,
        TEST_K_VALUE,
    );

    let addresses = cache.bootstrap_addresses(BOOTSTRAP_ROUND_ROBIN_TEST_LIMIT);

    assert_eq!(addresses.len(), 3);
    assert_eq!(ip_of(&addresses[0]), v4(1, 0, 0, 2));
    assert_eq!(ip_of(&addresses[1]), v6(0x2001, 1));
    assert_eq!(ip_of(&addresses[2]), v4(1, 0, 0, 1));
}

#[test]
fn cached_addresses_are_stored_with_peer_id_suffix() {
    let mut cache = ClientPeerCacheFile::empty();
    let diversity = IpLimits::permissive();

    cache.upsert_connected_peer(
        peer_id(1),
        vec![direct_addr(v4(203, 0, 113, 10), FIRST_PORT)],
        TEST_NOW,
        &diversity,
        TEST_K_VALUE,
    );

    let addr = cache.peers[0].direct_addresses[0].clone();
    assert_eq!(addr.peer_id, Some(peer_id(1)));
    assert_eq!(
        addr.text(),
        format!("/ip4/203.0.113.10/udp/10000/quic/p2p/{}", peer_id(1).to_hex())
    );
}

#[test]
fn select_bootstrap_peers_orders_configured_after_cached_fallback() {
    let first_cached = with_peer_id(direct_addr(v4(203, 0, 113, 20), FIRST_PORT), peer_id(1));
    let second_cached = with_peer_id(direct_addr(v4(203, 0, 113, 21), FIRST_PORT), peer_id(2));
    let configured = direct_addr(v4(203, 0, 113, 22), FIRST_PORT);

    let selected = select_bootstrap_peers(
        vec![first_cached.clone(), second_cached.clone()],
        vec![configured.clone()],
    );

    assert_eq!(texts(&selected), texts(&[first_cached, second_cached, configured]));
}

#[test]
fn select_bootstrap_peers_uses_configured_when_cache_empty() {
    let configured = direct_addr(v4(203, 0, 113, 21), FIRST_PORT);

    let selected = select_bootstrap_peers(Vec::new(), vec![configured.clone()]);

    assert_eq!(texts(&selected), texts(&[configured]));
}

#[test]
fn cached_bootstrap_peers_include_all_usable_cached_peers() {
    let mut cache = ClientPeerCacheFile::empty();
    let diversity = IpLimits::permissive();

    for idx in 0..BOOTSTRAP_ROUND_ROBIN_TEST_LIMIT + 1 {
        cache.upsert_connected_peer(
            peer_id(idx as u8),
            vec![direct_addr(v4(1, 0, idx as u8, 1), FIRST_PORT + idx as u16)],
            TEST_NOW + idx as u64,
            &diversity,
            TEST_K_VALUE,
        );
    }

    let addresses = cache.bootstrap_addresses(CLIENT_PEER_CACHE_MAX_PEERS);

    assert_eq!(addresses.len(), BOOTSTRAP_ROUND_ROBIN_TEST_LIMIT + 1);
}

#[test]
fn place_is_tried_once() {
    let place = direct_addr(v4(203, 0, 113, 21), FIRST_PORT);
    let named = with_peer_id(place.clone(), peer_id(3));
    let selected = select_bootstrap_peers(vec![named.clone()], vec![place]);
    assert_eq!(texts(&selected), texts(&[named]));
}

#[test]
fn mapped_addresses_are_compared_in_short_form() {
    let mapped = IpAddress::V6(0xffff_0000_0000 | 0x0102_0304);
    assert_eq!(canonical_ip(mapped), v4(1, 2, 3, 4));
    assert_eq!(canonical_ip(v6(0x2001, 5)), v6(0x2001, 5));
    assert_eq!(subnet_key(v4(1, 2, 3, 4)), SubnetKey::V4(0x01_02_03));
    assert_eq!(subnet_key(v6(0x2001, 5)), SubnetKey::V6(0x2001_0000_0000));
}

#[test]
fn sanitizing_drops_what_cannot_be_dialled() {
    let good = direct_addr(v4(1, 2, 3, 4), 5);
    let nowhere = PeerAddress { transport: "/x".to_string(), socket: None, peer_id: None };
    let kept = sanitize_direct_addresses(peer_id(9), vec![good.clone(), nowhere, good.clone()]);
    assert_eq!(texts(&kept), texts(&[with_peer_id(good, peer_id(9))]));
}

#[test]
fn sectors_follow_the_first_four_bits() {
    assert_eq!(peer_id_sector(&peer_id(0x0f)), 0);
    assert_eq!(peer_id_sector(&peer_id(0xf0)), 15);
    assert_eq!(default_subnet_limit(20), 5);
    assert_eq!(default_subnet_limit(2), 1);
}

#[test]
fn peers_of_a_crowded_network_are_refused() {
    let at = |byte: u8, d: u8| CachedPeer {
        peer_id: peer_id(byte),
        direct_addresses: vec![direct_addr(v4(9, 9, 9, d), 1)],
        first_connected_epoch_secs: 0,
        last_connected_epoch_secs: 0,
    };
    let admitted = vec![at(1, 1), at(2, 2)];
    assert!(admit_peer(&admitted, &at(3, 3), 1, 3));
    assert!(!admit_peer(&admitted, &at(3, 3), 1, 2));
    assert!(!admit_peer(&admitted, &at(3, 1), 1, 3));
}

#[test]
fn other_schema_versions_are_not_read() {
    let cache = ClientPeerCacheFile {
        schema_version: CLIENT_PEER_CACHE_SCHEMA_VERSION + 1,
        peers: Vec::new(),
    };
    assert!(ClientPeerCacheFile::accept(cache).is_none());
    assert!(ClientPeerCacheFile::accept(ClientPeerCacheFile::empty()).is_some());
}

#[test]
fn second_meeting_keeps_the_first_time() {
    let mut cache = ClientPeerCacheFile::empty();
    let limits = IpLimits::default();
    assert!(cache.upsert_connected_peer(
        peer_id(1),
        vec![direct_addr(v4(1, 1, 1, 1), 1)],
        5,
        &limits,
        TEST_K_VALUE
    ));
    assert!(cache.upsert_connected_peer(
        peer_id(1),
        vec![direct_addr(v4(1, 1, 1, 2), 1)],
        9,
        &limits,
        TEST_K_VALUE
    ));
    assert_eq!(cache.peers.len(), 1);
    assert_eq!(cache.peers[0].first_connected_epoch_secs, 5);
    assert_eq!(cache.peers[0].last_connected_epoch_secs, 9);
    assert_eq!(ip_of(&cache.peers[0].direct_addresses[0]), v4(1, 1, 1, 2));
    assert!(!cache.normalize(&limits, TEST_K_VALUE));
    let (addresses, changed) = cached_bootstrap_peers(&mut cache, TEST_K_VALUE);
    assert_eq!(addresses.len(), 1);
    assert!(!changed);
}

#[test]
fn latest_peer_comes_first() {
    let mut cache = ClientPeerCacheFile::empty();
    let limits = IpLimits::default();
    for (seed, now) in [(3u8, 5u64), (1, 9), (2, 7)] {
        cache.upsert_connected_peer(
            peer_id(seed),
            vec![direct_addr(v4(seed, 1, 1, 1), 1)],
            now,
            &limits,
            TEST_K_VALUE,
        );
    }
    let order: Vec<PeerId> = cache.peers.iter().map(|p| p.peer_id).collect();
    assert_eq!(order, vec![peer_id(1), peer_id(2), peer_id(3)]);
    cache.upsert_connected_peer(
        peer_id(3),
        vec![direct_addr(v4(3, 1, 1, 1), 1)],
        10,
        &limits,
        TEST_K_VALUE,
    );
    assert_eq!(cache.peers[0].peer_id, peer_id(3));
    assert_eq!(cache.peers[0].last_connected_epoch_secs, 10);
    assert!(!cache.normalize(&limits, TEST_K_VALUE));
}

#[test]
fn connected_peers_with_direct_addresses_are_promoted() {
    let mut cache = ClientPeerCacheFile::empty();
    let mut connected = AddressSet::new();
    connected.insert(*peer_id(1).as_bytes());
    connected.insert(*peer_id(2).as_bytes());
    let table = vec![
        RoutingPeer {
            peer_id: peer_id(1),
            addresses: vec![(direct_addr(v4(1, 1, 1, 1), 1), DIRECT_ADDRESS_TYPE_PRIORITY)],
        },
        RoutingPeer {
            peer_id: peer_id(2),
            addresses: vec![(direct_addr(v4(2, 1, 1, 1), 1), DIRECT_ADDRESS_TYPE_PRIORITY + 1)],
        },
        RoutingPeer {
            peer_id: peer_id(3),
            addresses: vec![(direct_addr(v4(3, 1, 1, 1), 1), DIRECT_ADDRESS_TYPE_PRIORITY)],
        },
    ];
    assert!(promote_connected_direct_peers(&mut cache, &connected, &table, 7, TEST_K_VALUE));
    assert_eq!(cache.peers.len(), 1);
    assert_eq!(cache.peers[0].peer_id, peer_id(1));
}

#[test]
fn cache_file_names() {
    assert_eq!(cache_path(Some("/data")), Some("/data/client_peer_cache.json".to_string()));
    assert_eq!(cache_path(None), None);
    assert_eq!(
        temporary_cache_name(Some("a.json"), 12, 3),
        ".a.json.12.3.tmp"
    );
}
