//! Merkle trees, the candidate pools of their midpoints, and the proofs of
//! payment that follow from the winning pool.

use vstd::prelude::*;
use vstd::string::*;

use crate::collections::{address_views, AddressMap};
use crate::data::client::merkle::MerkleBatchPaymentResult;
use crate::data::error::{joined, Error};
use crate::protocol::{announced_proof, ProofType, PROOF_TAG_MERKLE};
use crate::text::{decimal_text, hex_encode, hex_text, push_decimal};
use crate::uint256::{Amount, U256};
use crate::xor::same_bytes;

verus! {

/// Most chunks that one merkle tree pays for.
pub const MAX_LEAVES: usize = 256;

/// Fewest chunks that one merkle tree pays for.
pub const MIN_LEAVES: usize = 2;

/// Number of candidates in a pool.
pub const CANDIDATES_PER_POOL: usize = 16;

/// `MerkleTree` of the payment library, held as it is.
#[verifier::external_type_specification]
#[verifier::external_body]
pub struct ExMerkleTree(ant_protocol::evm::MerkleTree);

/// `MidpointProof` of the payment library, held as it is.
#[verifier::external_type_specification]
#[verifier::external_body]
pub struct ExMidpointProof(ant_protocol::evm::MidpointProof);

/// `MerklePaymentCandidatePool` of the payment library, held as it is.
#[verifier::external_type_specification]
#[verifier::external_body]
pub struct ExCandidatePool(ant_protocol::evm::MerklePaymentCandidatePool);

/// `PoolCommitment` of the payment library, held as it is.
#[verifier::external_type_specification]
#[verifier::external_body]
pub struct ExPoolCommitment(ant_protocol::evm::PoolCommitment);

/// `MerklePaymentProof` of the payment library, held as it is.
#[verifier::external_type_specification]
#[verifier::external_body]
pub struct ExMerklePaymentProof(ant_protocol::evm::MerklePaymentProof);

/// The addresses that a tree was built over, in order. The tree holds the salt of
/// each, and the hash of each with its salt.
pub uninterp spec fn tree_leaves(tree: ant_protocol::evm::MerkleTree) -> Seq<Seq<u8>>;

/// The number of addresses that a tree was built over.
pub open spec fn tree_size(tree: ant_protocol::evm::MerkleTree) -> nat {
    tree_leaves(tree).len()
}

/// `MerkleTree::from_xornames`: a tree over the addresses in their order, salted
/// at random, for at least `MIN_LEAVES` and at most `MAX_LEAVES` of them. The
/// root rests on the salts, so nothing is stated of it, nor of the text of an
/// error.
#[verifier::external_body]
fn build_tree(addresses: &Vec<[u8; 32]>) -> (r: Result<ant_protocol::evm::MerkleTree, String>)
    ensures
        r is Ok <==> MIN_LEAVES <= addresses@.len() <= MAX_LEAVES,
        r matches Ok(tree) ==> tree_leaves(tree) == address_views(addresses@),
{
    let names = addresses.iter().map(|a| xor_name::XorName(*a)).collect();
    ant_protocol::evm::MerkleTree::from_xornames(names).map_err(|e| e.to_string())
}

/// Whether a complete binary tree of this depth is the smallest that has room
/// for `size` leaves.
pub open spec fn is_depth_for(depth: nat, size: nat) -> bool {
    &&& depth >= 1
    &&& vstd::arithmetic::power2::pow2((depth - 1) as nat) < size
    &&& size <= vstd::arithmetic::power2::pow2(depth)
}

/// `MerkleTree::depth`: the depth of the smallest complete tree that has room
/// for all addresses.
#[verifier::external_body]
fn depth_of(tree: &ant_protocol::evm::MerkleTree) -> (r: u8)
    ensures
        is_depth_for(r as nat, tree_size(*tree)),
{
    tree.depth()
}

/// The midpoints of a tree at a payment time, where the tree yields them: what
/// `MerkleTree::reward_candidates` returns.
pub uninterp spec fn midpoints_of(
    tree: ant_protocol::evm::MerkleTree,
    timestamp: u64,
) -> Option<Seq<ant_protocol::evm::MidpointProof>>;

/// `MerkleTree::reward_candidates`: the midpoints with their proofs. Nothing is
/// stated of the text of an error.
#[verifier::external_body]
fn reward_candidates(tree: &ant_protocol::evm::MerkleTree, timestamp: u64) -> (r: Result<
    Vec<ant_protocol::evm::MidpointProof>,
    String,
>)
    ensures
        match r {
            Ok(list) => midpoints_of(*tree, timestamp) == Some(list@),
            Err(_) => midpoints_of(*tree, timestamp) is None,
        },
{
    tree.reward_candidates(timestamp).map_err(|e| e.to_string())
}

/// The address near which the candidates of a midpoint are sought: what
/// `MidpointProof::address` returns.
pub uninterp spec fn midpoint_address(midpoint: ant_protocol::evm::MidpointProof) -> Seq<u8>;

/// `MidpointProof::address`: a hash of the midpoint, the root and the time.
#[verifier::external_body]
pub(crate) fn address_of_midpoint(midpoint: &ant_protocol::evm::MidpointProof) -> (r: [u8; 32])
    ensures
        r@ == midpoint_address(*midpoint),
{
    midpoint.address().0
}

/// A node that offers to be paid through a merkle pool.
#[derive(Clone, Debug)]
pub struct MerkleCandidate {
    pub pub_key: Vec<u8>,
    /// Price in atto units.
    pub price: Amount,
    /// Account that the payment goes to.
    pub reward_address: [u8; 20],
    /// Payment time that the offer is for.
    pub merkle_payment_timestamp: u64,
    pub signature: Vec<u8>,
    pub committed_key_count: u32,
    pub commitment_pin: Option<[u8; 32]>,
}

/// The contents of a candidate's offer.
pub struct CandidateView {
    pub pub_key: Seq<u8>,
    pub price: nat,
    pub reward_address: Seq<u8>,
    pub merkle_payment_timestamp: u64,
    pub signature: Seq<u8>,
    pub committed_key_count: u32,
    pub commitment_pin: Option<Seq<u8>>,
}

impl View for MerkleCandidate {
    type V = CandidateView;

    open spec fn view(&self) -> CandidateView {
        CandidateView {
            pub_key: self.pub_key@,
            price: self.price.value(),
            reward_address: self.reward_address@,
            merkle_payment_timestamp: self.merkle_payment_timestamp,
            signature: self.signature@,
            committed_key_count: self.committed_key_count,
            commitment_pin: match self.commitment_pin {
                Some(pin) => Some(pin@),
                None => None,
            },
        }
    }
}

/// The contents of a list of offers.
pub open spec fn candidate_views(nodes: Seq<MerkleCandidate>) -> Seq<CandidateView> {
    nodes.map_values(|n: MerkleCandidate| n@)
}

/// The offer that a byte string encodes, where it encodes one: what
/// `rmp_serde::from_slice` returns for the wire form of a candidate node.
pub uninterp spec fn decoded_candidate(bytes: Seq<u8>) -> Option<CandidateView>;

/// `rmp_serde::from_slice` on the wire form of a candidate node: the offer, or
/// the text of the decoder's complaint, of which nothing is stated.
#[verifier::external_body]
pub(crate) fn decode_candidate(bytes: &[u8]) -> (r: Result<MerkleCandidate, String>)
    ensures
        match r {
            Ok(c) => decoded_candidate(bytes@) == Some(c@),
            Err(_) => decoded_candidate(bytes@) is None,
        },
{
    let c = rmp_serde::from_slice::<ant_protocol::evm::MerklePaymentCandidateNode>(bytes)
        .map_err(|e| e.to_string())?;
    Ok(MerkleCandidate {
        pub_key: c.pub_key,
        price: U256::from_be_bytes(&c.price.to_be_bytes()),
        reward_address: c.reward_address.into_array(),
        merkle_payment_timestamp: c.merkle_payment_timestamp,
        signature: c.signature,
        committed_key_count: c.committed_key_count,
        commitment_pin: c.commitment_pin,
    })
}

/// Whether the signature of an offer is that of its key: what
/// `verify_merkle_candidate_signature` returns.
pub uninterp spec fn signature_holds(candidate: CandidateView) -> bool;

/// `verify_merkle_candidate_signature`: whether key and signature can be read
/// and the signature covers the offer.
#[verifier::external_body]
pub(crate) fn check_signature(candidate: &MerkleCandidate) -> (r: bool)
    ensures
        r == signature_holds(candidate@),
{
    ant_protocol::verify_merkle_candidate_signature(&ant_protocol::evm::MerklePaymentCandidateNode {
        pub_key: candidate.pub_key.clone(),
        price: ant_protocol::evm::Amount::from_be_bytes(candidate.price.to_be_bytes()),
        reward_address: ant_protocol::evm::RewardsAddress::new(candidate.reward_address),
        merkle_payment_timestamp: candidate.merkle_payment_timestamp,
        signature: candidate.signature.clone(),
        committed_key_count: candidate.committed_key_count,
        commitment_pin: candidate.commitment_pin,
    })
}

/// The pool that a midpoint and its candidates make up: the value of the
/// struct `MerklePaymentCandidatePool` with these fields.
pub uninterp spec fn pool_of(
    midpoint: ant_protocol::evm::MidpointProof,
    candidates: Seq<CandidateView>,
) -> ant_protocol::evm::MerklePaymentCandidatePool;

/// `MerklePaymentCandidatePool` with this midpoint and these candidates, of
/// which there have to be `CANDIDATES_PER_POOL`.
#[verifier::external_body]
fn make_pool(midpoint: ant_protocol::evm::MidpointProof, candidates: Vec<MerkleCandidate>) -> (r:
    ant_protocol::evm::MerklePaymentCandidatePool)
    requires
        candidates@.len() == CANDIDATES_PER_POOL,
    ensures
        r == pool_of(midpoint, candidate_views(candidates@)),
{
    let nodes: Vec<_> = candidates.into_iter().map(|c| ant_protocol::evm::MerklePaymentCandidateNode {
        pub_key: c.pub_key,
        price: ant_protocol::evm::Amount::from_be_bytes(c.price.to_be_bytes()),
        reward_address: ant_protocol::evm::RewardsAddress::new(c.reward_address),
        merkle_payment_timestamp: c.merkle_payment_timestamp,
        signature: c.signature,
        committed_key_count: c.committed_key_count,
        commitment_pin: c.commitment_pin,
    }).collect();
    let candidate_nodes = nodes.try_into().unwrap();
    ant_protocol::evm::MerklePaymentCandidatePool { midpoint_proof: midpoint, candidate_nodes }
}

/// The hash under which a pool is known on chain: what
/// `MerklePaymentCandidatePool::hash` returns.
pub uninterp spec fn pool_hash(pool: ant_protocol::evm::MerklePaymentCandidatePool) -> Seq<u8>;

/// `MerklePaymentCandidatePool::hash`: a hash of the midpoint proof and of all
/// candidates.
#[verifier::external_body]
fn hash_pool(pool: &ant_protocol::evm::MerklePaymentCandidatePool) -> (r: [u8; 32])
    ensures
        r@ == pool_hash(*pool),
{
    pool.hash()
}

/// What of a pool goes on chain: what
/// `MerklePaymentCandidatePool::to_commitment` returns.
pub uninterp spec fn commitment_of(
    pool: ant_protocol::evm::MerklePaymentCandidatePool,
) -> ant_protocol::evm::PoolCommitment;

/// `MerklePaymentCandidatePool::to_commitment`: the pool's hash with the
/// accounts and prices of its candidates.
#[verifier::external_body]
fn commit_pool(pool: &ant_protocol::evm::MerklePaymentCandidatePool) -> (r:
    ant_protocol::evm::PoolCommitment)
    ensures
        r == commitment_of(*pool),
{
    pool.to_commitment()
}

/// The proof that an address was paid for with a tree and a winning pool: what
/// `MerklePaymentProof::new` makes of the branch that
/// `MerkleTree::generate_address_proof` returns.
pub uninterp spec fn leaf_proof(
    tree: ant_protocol::evm::MerkleTree,
    index: int,
    address: Seq<u8>,
    pool: ant_protocol::evm::MerklePaymentCandidatePool,
) -> ant_protocol::evm::MerklePaymentProof;

/// `MerkleTree::generate_address_proof`, with its branch put into a
/// `MerklePaymentProof`: it succeeds for the positions in the tree. Nothing is
/// stated of the text of an error.
#[verifier::external_body]
fn prove_leaf(
    tree: &ant_protocol::evm::MerkleTree,
    index: usize,
    address: [u8; 32],
    pool: &ant_protocol::evm::MerklePaymentCandidatePool,
) -> (r: Result<ant_protocol::evm::MerklePaymentProof, String>)
    ensures
        r is Ok <==> index < tree_size(*tree),
        r matches Ok(p) ==> p == leaf_proof(*tree, index as int, address@, *pool),
{
    let name = xor_name::XorName(address);
    let branch = tree.generate_address_proof(index, name).map_err(|e| e.to_string())?;
    Ok(ant_protocol::evm::MerklePaymentProof::new(name, branch, pool.clone()))
}

/// The wire form of a proof, where it has one: what `serialize_merkle_proof`
/// returns.
pub uninterp spec fn serialized_proof(
    proof: ant_protocol::evm::MerklePaymentProof,
) -> Option<Seq<u8>>;

/// `serialize_merkle_proof`: the tag of merkle proofs and the encoded proof.
/// Nothing is stated of the text of an error.
#[verifier::external_body]
fn serialize_merkle_proof(payment: &ant_protocol::evm::MerklePaymentProof) -> (r: Result<
    Vec<u8>,
    String,
>)
    ensures
        match r {
            Ok(bytes) => serialized_proof(*payment) == Some(bytes@) && bytes@.len() > 0 && bytes@[0]
                == PROOF_TAG_MERKLE,
            Err(_) => serialized_proof(*payment) is None,
        },
{
    ant_protocol::serialize_merkle_proof(payment).map_err(|e| e.to_string())
}

/// A merkle tree over the chunks of a batch, before its candidates are known.
pub struct MerkleTreePlan {
    /// Depth of the tree.
    pub depth: u8,
    /// The merkle tree, for the proofs after payment.
    pub tree: ant_protocol::evm::MerkleTree,
    /// The chunks of the batch, in order.
    pub addresses: Vec<[u8; 32]>,
}

impl MerkleTreePlan {
    /// Builds the tree over the addresses of a batch.
    pub fn build(addresses: Vec<[u8; 32]>) -> (r: Result<MerkleTreePlan, Error>)
        ensures
            r is Ok <==> MIN_LEAVES <= addresses@.len() <= MAX_LEAVES,
            match r {
                Ok(plan) => {
                    &&& plan.addresses@ == addresses@
                    &&& tree_leaves(plan.tree) == address_views(addresses@)
                    &&& is_depth_for(plan.depth as nat, addresses@.len())
                },
                Err(e) => e matches Error::Payment(m) && exists|reason: Seq<char>|
                    m@ == #[trigger] ("Failed to build merkle tree: "@ + reason),
            },
    {
        match build_tree(&addresses) {
            Ok(tree) => {
                let depth: u8 = depth_of(&tree);
                Ok(MerkleTreePlan { depth, tree, addresses })
            },
            Err(e) => Err(Error::Payment(joined("Failed to build merkle tree: ", e.as_str()))),
        }
    }

    /// The midpoints of the tree, each of which needs a pool of candidates.
    pub fn midpoints(&self, timestamp: u64) -> (r: Result<
        Vec<ant_protocol::evm::MidpointProof>,
        Error,
    >)
        ensures
            match r {
                Ok(list) => midpoints_of(self.tree, timestamp) == Some(list@),
                Err(e) => {
                    &&& midpoints_of(self.tree, timestamp) is None
                    &&& e matches Error::Payment(m) && exists|reason: Seq<char>|
                        m@ == #[trigger] ("Failed to generate reward candidates: "@ + reason)
                },
            },
    {
        match reward_candidates(&self.tree, timestamp) {
            Ok(list) => Ok(list),
            Err(e) => Err(
                Error::Payment(joined("Failed to generate reward candidates: ", e.as_str())),
            ),
        }
    }

    /// The batch with the pools that were found for its midpoints, ready to be
    /// paid.
    pub fn with_pools(
        self,
        timestamp: u64,
        pools: Vec<ant_protocol::evm::MerklePaymentCandidatePool>,
    ) -> (r: PreparedMerkleBatch)
        ensures
            r.depth == self.depth,
            r.merkle_payment_timestamp == timestamp,
            r.pool_commitments@ == pools@.map_values(
                |p: ant_protocol::evm::MerklePaymentCandidatePool| commitment_of(p),
            ),
            r.candidate_pools@ == pools@,
            r.tree == self.tree,
            r.addresses@ == self.addresses@,
    {
        let mut pool_commitments: Vec<ant_protocol::evm::PoolCommitment> = Vec::new();
        let mut i: usize = 0;
        while i < pools.len()
            invariant
                i <= pools.len(),
                pool_commitments@.len() == i,
                forall|k: int|
                    0 <= k < i ==> #[trigger] pool_commitments@[k] == commitment_of(pools@[k]),
            decreases pools.len() - i,
        {
            pool_commitments.push(commit_pool(&pools[i]));
            i = i + 1;
        }
        let r = PreparedMerkleBatch {
            depth: self.depth,
            pool_commitments,
            merkle_payment_timestamp: timestamp,
            candidate_pools: pools,
            tree: self.tree,
            addresses: self.addresses,
        };
        assert(r.pool_commitments@ =~= pools@.map_values(
            |p: ant_protocol::evm::MerklePaymentCandidatePool| commitment_of(p),
        ));
        r
    }
}

/// Prepared merkle batch ready for external payment.
///
/// Contains everything needed to submit the on-chain merkle payment and then
/// finalize proof generation without a wallet.
pub struct PreparedMerkleBatch {
    /// Merkle tree depth (needed for the on-chain call).
    pub depth: u8,
    /// Pool commitments for the on-chain call.
    pub pool_commitments: Vec<ant_protocol::evm::PoolCommitment>,
    /// Timestamp used for the merkle payment.
    pub merkle_payment_timestamp: u64,
    /// Candidate pools, for the proofs after payment.
    pub candidate_pools: Vec<ant_protocol::evm::MerklePaymentCandidatePool>,
    /// The merkle tree, for the proofs after payment.
    pub tree: ant_protocol::evm::MerkleTree,
    /// The chunks of the batch, in order.
    pub addresses: Vec<[u8; 32]>,
}

/// A pool out of a midpoint and the candidates found for it.
pub fn candidate_pool(
    midpoint: ant_protocol::evm::MidpointProof,
    candidates: Vec<MerkleCandidate>,
) -> (r: Result<ant_protocol::evm::MerklePaymentCandidatePool, Error>)
    ensures
        match r {
            Ok(pool) => candidates@.len() == CANDIDATES_PER_POOL && pool == pool_of(
                midpoint,
                candidate_views(candidates@),
            ),
            Err(e) => {
                &&& candidates@.len() != CANDIDATES_PER_POOL
                &&& e matches Error::Payment(m) && m@
                    == "Failed to convert candidates to fixed array"@
            },
        },
{
    if candidates.len() != CANDIDATES_PER_POOL {
        return Err(Error::Payment("Failed to convert candidates to fixed array".to_owned()));
    }
    Ok(make_pool(midpoint, candidates))
}

/// The address near which the candidates of a midpoint are sought.
pub fn pool_address(midpoint: &ant_protocol::evm::MidpointProof) -> (r: [u8; 32])
    ensures
        r@ == midpoint_address(*midpoint),
{
    address_of_midpoint(midpoint)
}

/// The first pool with this hash.
pub open spec fn winner(
    pools: Seq<ant_protocol::evm::MerklePaymentCandidatePool>,
    hash: Seq<u8>,
) -> Option<ant_protocol::evm::MerklePaymentCandidatePool>
    decreases pools.len(),
{
    if pools.len() == 0 {
        None
    } else {
        match winner(pools.drop_last(), hash) {
            Some(p) => Some(p),
            None => if pool_hash(pools.last()) == hash {
                Some(pools.last())
            } else {
                None
            },
        }
    }
}

/// The proof bytes of the chunk at `index`, where there are any.
pub open spec fn proof_bytes(
    tree: ant_protocol::evm::MerkleTree,
    index: int,
    address: Seq<u8>,
    pool: ant_protocol::evm::MerklePaymentCandidatePool,
) -> Option<Seq<u8>> {
    if index < tree_size(tree) {
        serialized_proof(leaf_proof(tree, index, address, pool))
    } else {
        None
    }
}

/// In a batch whose tree was built over its addresses every address has a leaf of
/// its own: its proof can be had wherever it has a wire form.
pub proof fn every_address_has_its_leaf(
    tree: ant_protocol::evm::MerkleTree,
    addresses: Seq<[u8; 32]>,
    pool: ant_protocol::evm::MerklePaymentCandidatePool,
)
    requires
        tree_leaves(tree) == address_views(addresses),
    ensures
        forall|i: int|
            0 <= i < addresses.len() ==> {
                &&& tree_leaves(tree)[i] == (#[trigger] addresses[i])@
                &&& proof_bytes(tree, i, addresses[i]@, pool) == serialized_proof(
                    leaf_proof(tree, i, addresses[i]@, pool),
                )
            },
{
}

/// The proof bytes of all chunks; of a chunk that occurs twice, those of its
/// last position.
pub open spec fn proof_map(
    tree: ant_protocol::evm::MerkleTree,
    addresses: Seq<[u8; 32]>,
    pool: ant_protocol::evm::MerklePaymentCandidatePool,
) -> Map<Seq<u8>, Seq<u8>>
    decreases addresses.len(),
{
    if addresses.len() == 0 {
        Map::empty()
    } else {
        let i = addresses.len() - 1;
        proof_map(tree, addresses.drop_last(), pool).insert(
            addresses[i]@,
            proof_bytes(tree, i, addresses[i]@, pool)->Some_0,
        )
    }
}

/// The contents of a map of byte strings.
pub open spec fn byte_map(m: Map<Seq<u8>, Vec<u8>>) -> Map<Seq<u8>, Seq<u8>> {
    m.map_values(|v: Vec<u8>| v@)
}

/// How the generation of a batch's proofs fails at the chunk at `i`.
pub open spec fn proof_failure(
    e: Error,
    tree: ant_protocol::evm::MerkleTree,
    i: int,
) -> bool {
    if i < tree_size(tree) {
        e matches Error::Serialization(m) && exists|reason: Seq<char>|
            m@ == #[trigger] ("Failed to serialize merkle proof: "@ + reason)
    } else {
        e matches Error::Payment(m) && exists|reason: Seq<char>|
            m@ == #[trigger] ("Failed to generate address proof for chunk "@ + decimal_text(
                i as nat,
            ) + ": "@ + reason)
    }
}

/// Phase 2 of external-signer merkle payment: generate proofs from the winner.
///
/// Takes the prepared batch and the winner pool hash returned by the on-chain
/// payment transaction. Generates one proof per chunk.
pub fn finalize_merkle_batch(prepared: PreparedMerkleBatch, winner_pool_hash: [u8; 32]) -> (r:
    Result<MerkleBatchPaymentResult, Error>)
    ensures
        match winner(prepared.candidate_pools@, winner_pool_hash@) {
            None => r matches Err(Error::Payment(m)) && m@ == "Winner pool "@ + hex_text(
                winner_pool_hash@,
            ) + " not found in candidate pools"@,
            Some(pool) => match r {
                Ok(result) => {
                    &&& forall|i: int|
                        0 <= i < prepared.addresses@.len() ==> proof_bytes(
                            prepared.tree,
                            i,
                            (#[trigger] prepared.addresses@[i])@,
                            pool,
                        ) is Some
                    &&& byte_map(result.proofs@) == proof_map(
                        prepared.tree,
                        prepared.addresses@,
                        pool,
                    )
                    &&& forall|a: Seq<u8>|
                        #![trigger result.proofs@.dom().contains(a)]
                        result.proofs@.dom().contains(a) ==> announced_proof(result.proofs@[a]@)
                            == Some(ProofType::Merkle)
                    &&& pool_hash(pool) == winner_pool_hash@
                    &&& prepared.candidate_pools@.contains(pool)
                    &&& forall|i: int|
                        0 <= i < prepared.addresses@.len() ==> result.proofs@.dom().contains(
                            (#[trigger] prepared.addresses@[i])@,
                        )
                    &&& result.chunk_count == prepared.addresses@.len()
                    &&& result.storage_cost_atto@ == "0"@
                    &&& result.gas_cost_wei == 0
                    &&& result.merkle_payment_timestamp == prepared.merkle_payment_timestamp
                },
                Err(e) => exists|i: int|
                    {
                        &&& 0 <= i < prepared.addresses@.len()
                        &&& proof_bytes(
                            prepared.tree,
                            i,
                            (#[trigger] prepared.addresses@[i])@,
                            pool,
                        ) is None
                        &&& forall|k: int|
                            0 <= k < i ==> proof_bytes(
                                prepared.tree,
                                k,
                                (#[trigger] prepared.addresses@[k])@,
                                pool,
                            ) is Some
                        &&& proof_failure(e, prepared.tree, i)
                    },
            },
        },
{
    let ghost pools = prepared.candidate_pools@;
    let mut w: usize = 0;
    assert(pools.take(0) =~= Seq::empty());
    while w < prepared.candidate_pools.len() && !same_bytes(
        &hash_pool(&prepared.candidate_pools[w]),
        &winner_pool_hash,
    )
        invariant
            w <= prepared.candidate_pools.len(),
            pools == prepared.candidate_pools@,
            winner(pools.take(w as int), winner_pool_hash@) is None,
        decreases prepared.candidate_pools.len() - w,
    {
        assert(pools.take(w + 1).drop_last() =~= pools.take(w as int));
        w = w + 1;
    }
    if w == prepared.candidate_pools.len() {
        assert(pools.take(w as int) =~= pools);
        let mut m = joined("Winner pool ", hex_encode(&winner_pool_hash).as_str());
        m.append(" not found in candidate pools");
        return Err(Error::Payment(m));
    }
    let winner_pool = &prepared.candidate_pools[w];
    proof {
        assert(pools.take(w + 1).drop_last() =~= pools.take(w as int));
        assert(winner(pools.take(w + 1), winner_pool_hash@) == Some(*winner_pool));
        lemma_winner_stays(pools, winner_pool_hash@, w + 1);
    }
    let ghost addresses = prepared.addresses@;
    let mut proofs: AddressMap<Vec<u8>> = AddressMap::new();
    let mut i: usize = 0;
    assert(addresses.take(0) =~= Seq::empty());
    assert(byte_map(proofs@) =~= Map::empty());
    while i < prepared.addresses.len()
        invariant
            i <= prepared.addresses.len(),
            addresses == prepared.addresses@,
            winner(prepared.candidate_pools@, winner_pool_hash@) == Some(*winner_pool),
            forall|k: int|
                0 <= k < i ==> proof_bytes(
                    prepared.tree,
                    k,
                    (#[trigger] addresses[k])@,
                    *winner_pool,
                ) is Some,
            byte_map(proofs@) == proof_map(prepared.tree, addresses.take(i as int), *winner_pool),
            forall|a: Seq<u8>|
                #![trigger proofs@.dom().contains(a)]
                proofs@.dom().contains(a) ==> announced_proof(proofs@[a]@) == Some(
                    ProofType::Merkle,
                ),
        decreases prepared.addresses.len() - i,
    {
        let address: [u8; 32] = prepared.addresses[i];
        let payment = match prove_leaf(&prepared.tree, i, address, winner_pool) {
            Ok(p) => p,
            Err(e) => {
                let mut m = "Failed to generate address proof for chunk ".to_owned();
                push_decimal(&mut m, i as u128);
                m.append(": ");
                m.append(e.as_str());
                assert(addresses[i as int]@ == address@);
                let ghost at: int = i as int;
                assert(m@ == "Failed to generate address proof for chunk "@ + decimal_text(at as nat)
                    + ": "@ + e@);
                assert(proof_failure(Error::Payment(m), prepared.tree, i as int));
                return Err(Error::Payment(m));
            },
        };
        let tagged = match serialize_merkle_proof(&payment) {
            Ok(bytes) => bytes,
            Err(e) => {
                assert(addresses[i as int]@ == address@);
                return Err(
                    Error::Serialization(joined("Failed to serialize merkle proof: ", e.as_str())),
                );
            },
        };
        let ghost before = proofs@;
        proofs.insert(address, tagged);
        proof {
            let next = addresses.take(i + 1);
            assert(next.drop_last() =~= addresses.take(i as int));
            assert(byte_map(proofs@) =~= byte_map(before).insert(address@, tagged@));
        }
        i = i + 1;
    }
    assert(addresses.take(i as int) =~= addresses);
    proof {
        winner_has_the_named_hash(prepared.candidate_pools@, winner_pool_hash@);
        every_chunk_has_the_proof_of_its_leaf(prepared.tree, addresses, *winner_pool);
        assert(byte_map(proofs@).dom() =~= proofs@.dom());
    }
    let chunk_count: usize = prepared.addresses.len();
    Ok(
        MerkleBatchPaymentResult {
            proofs,
            chunk_count,
            storage_cost_atto: "0".to_owned(),
            gas_cost_wei: 0,
            merkle_payment_timestamp: prepared.merkle_payment_timestamp,
        },
    )
}

proof fn lemma_winner_stays(
    pools: Seq<ant_protocol::evm::MerklePaymentCandidatePool>,
    hash: Seq<u8>,
    k: int,
)
    requires
        0 <= k <= pools.len(),
        winner(pools.take(k), hash) is Some,
    ensures
        winner(pools, hash) == winner(pools.take(k), hash),
    decreases pools.len(),
{
    if k == pools.len() {
        assert(pools.take(k) =~= pools);
    } else {
        assert(pools.drop_last().take(k) =~= pools.take(k));
        lemma_winner_stays(pools.drop_last(), hash, k);
    }
}

/// The pool that a batch is finished with is one of the candidate pools and has
/// exactly the hash that the payment named; it is the first one that has it. There is
/// none only where no candidate pool has that hash.
pub proof fn winner_has_the_named_hash(
    pools: Seq<ant_protocol::evm::MerklePaymentCandidatePool>,
    hash: Seq<u8>,
)
    ensures
        match winner(pools, hash) {
            Some(pool) => {
                &&& pool_hash(pool) == hash
                &&& exists|w: int|
                    {
                        &&& 0 <= w < pools.len()
                        &&& #[trigger] pools[w] == pool
                        &&& forall|k: int| 0 <= k < w ==> pool_hash(#[trigger] pools[k]) != hash
                    }
            },
            None => forall|k: int| 0 <= k < pools.len() ==> pool_hash(#[trigger] pools[k]) != hash,
        },
    decreases pools.len(),
{
    if pools.len() > 0 {
        let t = pools.drop_last();
        winner_has_the_named_hash(t, hash);
        assert(forall|k: int| 0 <= k < t.len() ==> t[k] == pools[k]);
        if winner(t, hash) is Some {
            let w = choose|w: int|
                {
                    &&& 0 <= w < t.len()
                    &&& #[trigger] t[w] == winner(t, hash)->0
                    &&& forall|k: int| 0 <= k < w ==> pool_hash(#[trigger] t[k]) != hash
                };
            assert(pools[w] == winner(pools, hash)->0);
        } else if pool_hash(pools.last()) == hash {
            let w = pools.len() - 1;
            assert(pools[w] == pools.last());
            assert forall|k: int| 0 <= k < w implies pool_hash(#[trigger] pools[k]) != hash by {
                assert(t[k] == pools[k]);
            }
        } else {
            assert forall|k: int| 0 <= k < pools.len() implies pool_hash(#[trigger] pools[k])
                != hash by {
                if k < t.len() {
                    assert(t[k] == pools[k]);
                } else {
                    assert(pools[k] == pools.last());
                }
            }
        }
    }
}

/// Every chunk of a batch has a proof and nothing else has one. The proof of a chunk
/// is that of its own leaf and the given pool, at its last position.
pub proof fn every_chunk_has_the_proof_of_its_leaf(
    tree: ant_protocol::evm::MerkleTree,
    addresses: Seq<[u8; 32]>,
    pool: ant_protocol::evm::MerklePaymentCandidatePool,
)
    ensures
        forall|a: Seq<u8>| #[trigger]
            proof_map(tree, addresses, pool).dom().contains(a) <==> exists|i: int|
                0 <= i < addresses.len() && (#[trigger] addresses[i])@ == a,
        forall|i: int|
            #![trigger addresses[i]]
            0 <= i < addresses.len() && i < tree_size(tree) && serialized_proof(
                leaf_proof(tree, i, addresses[i]@, pool),
            ) is Some && (forall|j: int|
                i < j < addresses.len() ==> (#[trigger] addresses[j])@ != addresses[i]@) ==> Some(
                proof_map(tree, addresses, pool)[addresses[i]@],
            ) == serialized_proof(leaf_proof(tree, i, addresses[i]@, pool)),
    decreases addresses.len(),
{
    let m = proof_map(tree, addresses, pool);
    if addresses.len() > 0 {
        let t = addresses.drop_last();
        let n = addresses.len() - 1;
        let before = proof_map(tree, t, pool);
        every_chunk_has_the_proof_of_its_leaf(tree, t, pool);
        assert(forall|k: int| 0 <= k < t.len() ==> t[k] == addresses[k]);
        assert forall|a: Seq<u8>| #[trigger] m.dom().contains(a) <==> exists|i: int|
            0 <= i < addresses.len() && (#[trigger] addresses[i])@ == a by {
            if before.dom().contains(a) {
                let i = choose|i: int| 0 <= i < t.len() && (#[trigger] t[i])@ == a;
                assert(addresses[i]@ == a);
            }
            if exists|i: int| 0 <= i < addresses.len() && (#[trigger] addresses[i])@ == a {
                let i = choose|i: int| 0 <= i < addresses.len() && (#[trigger] addresses[i])@ == a;
                if i < n {
                    assert(t[i]@ == a);
                    assert(before.dom().contains(a));
                }
            }
            assert(addresses[n]@ == addresses[n]@);
        }
        assert forall|i: int|
            #![trigger addresses[i]]
            0 <= i < addresses.len() && i < tree_size(tree) && serialized_proof(
                leaf_proof(tree, i, addresses[i]@, pool),
            ) is Some && (forall|j: int|
                i < j < addresses.len() ==> (#[trigger] addresses[j])@
                    != addresses[i]@) implies Some(m[addresses[i]@]) == serialized_proof(
            leaf_proof(tree, i, addresses[i]@, pool),
        ) by {
            if i < n {
                assert(t[i] == addresses[i]);
                assert(addresses[n]@ != addresses[i]@);
                assert forall|j: int| i < j < t.len() implies (#[trigger] t[j])@ != t[i]@ by {
                    assert(addresses[j]@ != addresses[i]@);
                }
            }
        }
    }
}

} // verus!
