//! Peer identities and the XOR metric.

use vstd::prelude::*;

use crate::text::{hex_encode, hex_text};
use crate::uint256::{be_value, U256};

verus! {

/// Length of an address or a peer identity in bytes.
pub const XORNAME_BYTE_LEN: usize = 32;

/// Identity of a peer.
#[derive(Clone, Copy, Debug, PartialEq, Eq, Hash)]
pub struct PeerId(pub [u8; 32]);

impl View for PeerId {
    type V = Seq<u8>;

    open spec fn view(&self) -> Seq<u8> {
        self.0@
    }
}

impl PeerId {
    pub fn from_bytes(bytes: [u8; 32]) -> (r: PeerId)
        ensures
            r.0 == bytes,
    {
        PeerId(bytes)
    }

    pub fn as_bytes(&self) -> (r: &[u8; 32])
        ensures
            *r == self.0,
    {
        &self.0
    }

    /// The identity in lower-case hexadecimal.
    pub fn to_hex(&self) -> (r: String)
        ensures
            r@ == hex_text(self@),
    {
        hex_encode(&self.0)
    }

    /// Whether both are the same identity.
    pub fn same(&self, other: &PeerId) -> (r: bool)
        ensures
            r == (self@ == other@),
    {
        same_bytes(&self.0, &other.0)
    }
}

/// Whether two addresses hold the same bytes.
pub fn same_bytes(a: &[u8; 32], b: &[u8; 32]) -> (r: bool)
    ensures
        r == (a@ == b@),
{
    let mut i: usize = 0;
    while i < 32
        invariant
            i <= 32,
            forall|k: int| 0 <= k < i ==> a@[k] == b@[k],
        decreases 32 - i,
    {
        if a[i] != b[i] {
            return false;
        }
        i = i + 1;
    }
    assert(a@ =~= b@);
    true
}

/// Bytewise exclusive or.
pub open spec fn xor_bytes(a: Seq<u8>, b: Seq<u8>) -> Seq<u8> {
    Seq::new(a.len(), |i: int| a[i] ^ b[i])
}

/// XOR distance between two addresses, as a number.
pub open spec fn distance(a: Seq<u8>, b: Seq<u8>) -> nat {
    be_value(xor_bytes(a, b))
}

/// XOR distance between a peer and an address.
pub fn peer_xor_distance(peer_id: &PeerId, address: &[u8; 32]) -> (r: [u8; 32])
    ensures
        r@ == xor_bytes(peer_id@, address@),
{
    let mut out: [u8; 32] = [0u8; 32];
    let mut i: usize = 0;
    while i < 32
        invariant
            i <= 32,
            forall|k: int| 0 <= k < i ==> out@[k] == peer_id@[k] ^ address@[k],
        decreases 32 - i,
    {
        out[i] = peer_id.0[i] ^ address[i];
        i = i + 1;
    }
    assert(out@ =~= xor_bytes(peer_id@, address@));
    out
}

/// XOR distance between a peer and an address, as a number.
pub fn peer_distance(peer_id: &PeerId, address: &[u8; 32]) -> (r: U256)
    ensures
        r.value() == distance(peer_id@, address@),
{
    let bytes = peer_xor_distance(peer_id, address);
    U256::from_be_bytes(&bytes)
}

proof fn lemma_be_value_injective(a: Seq<u8>, b: Seq<u8>)
    requires
        a.len() == b.len(),
        be_value(a) == be_value(b),
    ensures
        a == b,
    decreases a.len(),
{
    if a.len() > 0 {
        lemma_be_value_injective(a.drop_last(), b.drop_last());
        assert(a =~= a.drop_last().push(a.last()));
        assert(b =~= b.drop_last().push(b.last()));
    } else {
        assert(a =~= b);
    }
}

/// Two identities at the same distance from an address are the same.
pub proof fn equal_distance_means_same_peer(a: Seq<u8>, b: Seq<u8>, address: Seq<u8>)
    requires
        a.len() == b.len(),
        a.len() <= address.len(),
        distance(a, address) == distance(b, address),
    ensures
        a == b,
{
    let x = xor_bytes(a, address);
    let y = xor_bytes(b, address);
    lemma_be_value_injective(x, y);
    assert forall|i: int| 0 <= i < a.len() implies a[i] == b[i] by {
        let p: u8 = a[i];
        let q: u8 = b[i];
        let r: u8 = address[i];
        assert(x[i] == y[i]);
        assert(p ^ r == q ^ r ==> p == q) by (bit_vector);
    }
    assert(a =~= b);
}

/// The first byte in which two numbers differ decides which one is lower.
proof fn lemma_first_byte_decides(x: Seq<u8>, y: Seq<u8>, i: int)
    requires
        x.len() == y.len(),
        0 <= i < x.len(),
        forall|j: int| 0 <= j < i ==> x[j] == y[j],
        x[i] < y[i],
    ensures
        be_value(x) < be_value(y),
    decreases x.len(),
{
    let a = x.drop_last();
    let b = y.drop_last();
    if i == x.len() - 1 {
        assert(a =~= b);
    } else {
        assert(a[i] == x[i] && b[i] == y[i]);
        lemma_first_byte_decides(a, b, i);
    }
}

/// Distances are ordered as the differing bits are, the first byte first: of two
/// peers that agree before some byte, the one whose byte differs less from that of
/// the address is strictly closer, whatever follows.
pub proof fn first_differing_byte_decides(a: Seq<u8>, b: Seq<u8>, address: Seq<u8>, i: int)
    requires
        a.len() == b.len(),
        a.len() <= address.len(),
        0 <= i < a.len(),
        forall|j: int| 0 <= j < i ==> a[j] == b[j],
        (a[i] ^ address[i]) < (b[i] ^ address[i]),
    ensures
        distance(a, address) < distance(b, address),
{
    let x = xor_bytes(a, address);
    let y = xor_bytes(b, address);
    assert(forall|j: int| 0 <= j < i ==> x[j] == y[j]);
    lemma_first_byte_decides(x, y, i);
}

/// A peer that shares more leading bits with the address is strictly closer: it
/// agrees with the address up to bit `bit` of byte `i`, where the other one first
/// differs from it.
pub proof fn longer_shared_prefix_is_closer(
    a: Seq<u8>,
    b: Seq<u8>,
    address: Seq<u8>,
    i: int,
    bit: u8,
)
    requires
        a.len() == b.len(),
        a.len() <= address.len(),
        0 <= i < a.len(),
        bit < 8,
        forall|j: int| 0 <= j < i ==> a[j] == address[j] && b[j] == address[j],
        (a[i] ^ address[i]) >> ((7 - bit) as u8) == 0,
        (b[i] ^ address[i]) >> ((7 - bit) as u8) == 1,
    ensures
        distance(a, address) < distance(b, address),
{
    let p: u8 = a[i] ^ address[i];
    let q: u8 = b[i] ^ address[i];
    let shift: u8 = (7 - bit) as u8;
    assert(p >> shift == 0 && q >> shift == 1 && shift < 8 ==> p < q) by (bit_vector);
    first_differing_byte_decides(a, b, address, i);
}

/// A distance is nothing exactly between an address and itself, and it is the same
/// in both directions.
pub proof fn distance_is_a_metric(a: Seq<u8>, b: Seq<u8>)
    requires
        a.len() == b.len(),
    ensures
        distance(a, b) == 0 <==> a == b,
        distance(a, b) == distance(b, a),
{
    let n = Seq::new(a.len(), |i: int| 0u8);
    assert forall|i: int| 0 <= i < a.len() implies a[i] ^ b[i] == b[i] ^ a[i] by {
        let p: u8 = a[i];
        let q: u8 = b[i];
        assert(p ^ q == q ^ p) by (bit_vector);
    }
    assert(xor_bytes(a, b) =~= xor_bytes(b, a));
    lemma_zero_bytes(n);
    assert forall|i: int| 0 <= i < a.len() implies #[trigger] xor_bytes(b, b)[i] == n[i] by {
        let q: u8 = b[i];
        assert(q ^ q == 0) by (bit_vector);
    }
    assert(xor_bytes(b, b) =~= n);
    if distance(a, b) == 0 {
        equal_distance_means_same_peer(a, b, b);
    }
}

proof fn lemma_zero_bytes(n: Seq<u8>)
    requires
        forall|i: int| 0 <= i < n.len() ==> n[i] == 0,
    ensures
        be_value(n) == 0,
    decreases n.len(),
{
    if n.len() > 0 {
        lemma_zero_bytes(n.drop_last());
    }
}

} // verus!
