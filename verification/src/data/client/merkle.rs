//! Merkle batch payments: one transaction for many chunks.

use vstd::prelude::*;
use vstd::string::*;

use crate::chunked::{lower, part, part_count, split_parts};
use crate::collections::{address_views, AddressMap};
use crate::data::client::file::UploadEvent;
use crate::data::client::merkle_pool::{MAX_LEAVES, MIN_LEAVES};
use crate::data::client::quote::StoreQuote;
use crate::data::client::Client;
use crate::data::error::{joined, Error};
use crate::protocol::{compute_address, content_address, format_amount, parse_amount, parsed_amount};
use crate::text::{decimal_text, hex_encode, hex_text};
use crate::uint256::{two128, Amount, U256};
use crate::xor::same_bytes;

verus! {

/// Merkle payments are used from this number of chunks on.
pub const DEFAULT_MERKLE_THRESHOLD: usize = 64;

/// Payment mode for uploads.
#[derive(Debug, Clone, Copy, PartialEq, Eq, Structural)]
pub enum PaymentMode {
    /// Merkle for batches that reach the threshold, single otherwise.
    Auto,
    /// Merkle batch payment regardless of batch size (min 2 chunks).
    Merkle,
    /// Single-node payment (one transaction per chunk).
    Single,
}

impl Default for PaymentMode {
    fn default() -> (r: PaymentMode)
        ensures
            r is Auto,
    {
        PaymentMode::Auto
    }
}

/// Whether a batch of `chunk_count` chunks is paid through a merkle tree.
pub open spec fn merkle_applies(chunk_count: int, mode: PaymentMode) -> bool {
    match mode {
        PaymentMode::Auto => chunk_count >= DEFAULT_MERKLE_THRESHOLD,
        PaymentMode::Merkle => chunk_count >= 2,
        PaymentMode::Single => false,
    }
}

/// Determine whether to use merkle payments for a given batch size.
#[must_use]
pub fn should_use_merkle(chunk_count: usize, mode: PaymentMode) -> (r: bool)
    ensures
        r == merkle_applies(chunk_count as int, mode),
{
    match mode {
        PaymentMode::Auto => chunk_count >= DEFAULT_MERKLE_THRESHOLD,
        PaymentMode::Merkle => chunk_count >= 2,
        PaymentMode::Single => false,
    }
}

impl Client {
    /// Determine whether to use merkle payments for a given batch size.
    #[must_use]
    pub fn should_use_merkle(&self, chunk_count: usize, mode: PaymentMode) -> (r: bool)
        ensures
            r == merkle_applies(chunk_count as int, mode),
    {
        should_use_merkle(chunk_count, mode)
    }
}

/// Result of a merkle batch payment.
pub struct MerkleBatchPaymentResult {
    /// Tagged proof bytes for each chunk, ready to be sent with it.
    pub proofs: AddressMap<Vec<u8>>,
    /// Number of chunks in the batch.
    pub chunk_count: usize,
    /// Total storage cost in atto.
    pub storage_cost_atto: String,
    /// Total gas cost in wei.
    pub gas_cost_wei: u128,
    /// Unix time in seconds that the on-chain payment was made for.
    pub merkle_payment_timestamp: u64,
}

/// Result of checking a merkle upload batch before payment.
pub struct MerkleUploadPlan {
    /// Chunks already confirmed by their close group.
    pub already_stored: Vec<[u8; 32]>,
    /// Chunks that still need payment and storage.
    pub to_upload: Vec<[u8; 32]>,
    /// Total byte size of chunks in `to_upload`.
    pub to_upload_total_bytes: u64,
}

impl MerkleUploadPlan {
    /// Average byte size of chunks that still need upload, rounded down; zero
    /// where there are none.
    #[must_use]
    pub fn to_upload_avg_size(&self) -> (r: u64)
        ensures
            r == if self.to_upload@.len() == 0 {
                0
            } else {
                self.to_upload_total_bytes as int / self.to_upload@.len() as int
            },
            self.to_upload@.len() > 0 ==> r * self.to_upload@.len() <= self.to_upload_total_bytes
                < (r + 1) * self.to_upload@.len(),
    {
        if self.to_upload.is_empty() {
            return 0;
        }
        proof {
            let t = self.to_upload_total_bytes as int;
            let n = self.to_upload@.len() as int;
            vstd::arithmetic::div_mod::lemma_fundamental_div_mod(t, n);
            vstd::arithmetic::div_mod::lemma_mod_bound(t, n);
            let q = t / n;
            assert(n * q == q * n) by (nonlinear_arith);
            assert((q + 1) * n == q * n + n) by (nonlinear_arith);
        }
        self.to_upload_total_bytes / self.to_upload.len() as u64
    }
}

/// The contents of an address, in order.
pub open spec fn contents_at(contents: Seq<Seq<u8>>, address: Seq<u8>) -> Seq<Seq<u8>>
    decreases contents.len(),
{
    if contents.len() == 0 {
        Seq::empty()
    } else if content_address(contents.last()) == address {
        contents_at(contents.drop_last(), address).push(contents.last())
    } else {
        contents_at(contents.drop_last(), address)
    }
}

/// How often an address is asked for.
pub open spec fn times_asked(addresses: Seq<Seq<u8>>, address: Seq<u8>) -> nat
    decreases addresses.len(),
{
    if addresses.len() == 0 {
        0
    } else {
        times_asked(addresses.drop_last(), address) + if addresses.last() == address {
            1nat
        } else {
            0nat
        }
    }
}

/// Byte strings by their bytes.
pub open spec fn byte_views(list: Seq<Vec<u8>>) -> Seq<Seq<u8>> {
    list.map_values(|v: Vec<u8>| v@)
}

/// Whether no address is asked for more often than there are contents of it.
pub open spec fn selectable(contents: Seq<Seq<u8>>, addresses: Seq<[u8; 32]>) -> bool {
    forall|j: int|
        0 <= j < addresses.len() ==> times_asked(
            address_views(addresses),
            (#[trigger] addresses[j])@,
        ) <= contents_at(contents, addresses[j]@).len()
}

/// Whether `selected` holds, for each address, a content of it: the first one
/// where it is asked for first, the second one where it is asked for again, and
/// so on.
pub open spec fn is_selection(
    selected: Seq<Vec<u8>>,
    contents: Seq<Seq<u8>>,
    addresses: Seq<[u8; 32]>,
) -> bool {
    &&& selected.len() == addresses.len()
    &&& forall|j: int|
        0 <= j < selected.len() ==> (#[trigger] selected[j])@ == contents_at(
            contents,
            addresses[j]@,
        )[times_asked(address_views(addresses).take(j), addresses[j]@) as int]
}

/// The message on an address that is asked for more often than there are
/// contents of it.
pub open spec fn missing_content_text(contents: Seq<Seq<u8>>, address: Seq<u8>) -> Seq<char> {
    if contents_at(contents, address).len() == 0 {
        "missing chunk content for merkle address "@ + hex_text(address)
    } else {
        "missing duplicate chunk content for merkle address "@ + hex_text(address)
    }
}

proof fn lemma_contents_at_position(contents: Seq<Seq<u8>>, i: int)
    requires
        0 <= i < contents.len(),
    ensures
        ({
            let a = content_address(contents[i]);
            let rank = contents_at(contents.take(i), a).len();
            &&& rank < contents_at(contents, a).len()
            &&& contents_at(contents, a)[rank as int] == contents[i]
        }),
    decreases contents.len(),
{
    let a = content_address(contents[i]);
    if i == contents.len() - 1 {
        assert(contents.take(i) =~= contents.drop_last());
    } else {
        assert(contents.drop_last().take(i) =~= contents.take(i));
        lemma_contents_at_position(contents.drop_last(), i);
    }
}

/// Ranks grow from left to right, so that the contents of an address left of
/// position `n` have just the ranks below the number of them.
proof fn lemma_ranks(contents: Seq<Seq<u8>>, address: Seq<u8>, n: int)
    requires
        0 <= n <= contents.len(),
    ensures
        forall|i: int|
            0 <= i < n && content_address(#[trigger] contents[i]) == address ==> contents_at(
                contents.take(i),
                address,
            ).len() < contents_at(contents.take(n), address).len(),
        contents_at(contents.take(n), address).len() > 0 ==> exists|i: int|
            0 <= i < n && content_address(#[trigger] contents[i]) == address && contents_at(
                contents.take(i),
                address,
            ).len() + 1 == contents_at(contents.take(n), address).len(),
    decreases n,
{
    if n > 0 {
        lemma_ranks(contents, address, n - 1);
        assert(contents.take(n).drop_last() =~= contents.take(n - 1));
        assert(contents.take(n).last() == contents[n - 1]);
    }
}

proof fn lemma_asked_grows(addresses: Seq<Seq<u8>>, address: Seq<u8>, j: int)
    requires
        0 <= j <= addresses.len(),
    ensures
        times_asked(addresses.take(j), address) <= times_asked(addresses, address),
    decreases addresses.len(),
{
    if j == addresses.len() {
        assert(addresses.take(j) =~= addresses);
    } else {
        assert(addresses.drop_last().take(j) =~= addresses.take(j));
        lemma_asked_grows(addresses.drop_last(), address, j);
    }
}

/// Select chunk contents that correspond to `addresses`, preserving address
/// order.
///
/// Extra chunk contents are ignored; missing contents for any requested
/// address are treated as corrupted upload state.
pub fn chunk_contents_for_upload_addresses(
    chunk_contents: Vec<Vec<u8>>,
    addresses: &Vec<[u8; 32]>,
) -> (r: Result<Vec<Vec<u8>>, Error>)
    ensures
        match r {
            Ok(selected) => {
                &&& selectable(byte_views(chunk_contents@), addresses@)
                &&& is_selection(selected@, byte_views(chunk_contents@), addresses@)
            },
            Err(e) => exists|j: int|
                {
                    &&& 0 <= j < addresses@.len()
                    &&& times_asked(address_views(addresses@), (#[trigger] addresses@[j])@)
                        > contents_at(byte_views(chunk_contents@), addresses@[j]@).len()
                    &&& e matches Error::InvalidData(m) && m@ == missing_content_text(
                        byte_views(chunk_contents@),
                        addresses@[j]@,
                    )
                },
        },
{
    let ghost contents = byte_views(chunk_contents@);
    let ghost asked = address_views(addresses@);
    let mut held: Vec<[u8; 32]> = Vec::new();
    let mut used: Vec<bool> = Vec::new();
    let mut i: usize = 0;
    while i < chunk_contents.len()
        invariant
            i <= chunk_contents.len(),
            contents == byte_views(chunk_contents@),
            held.len() == i,
            used.len() == i,
            forall|k: int| 0 <= k < i ==> (#[trigger] held[k])@ == content_address(contents[k]),
            forall|k: int| 0 <= k < i ==> !(#[trigger] used[k]),
        decreases chunk_contents.len() - i,
    {
        held.push(compute_address(chunk_contents[i].as_slice()));
        used.push(false);
        i = i + 1;
    }
    let mut selected: Vec<Vec<u8>> = Vec::new();
    let mut j: usize = 0;
    assert(asked.take(0) =~= Seq::empty());
    while j < addresses.len()
        invariant
            j <= addresses.len(),
            contents == byte_views(chunk_contents@),
            asked == address_views(addresses@),
            held.len() == contents.len(),
            used.len() == contents.len(),
            forall|k: int|
                0 <= k < contents.len() ==> (#[trigger] held[k])@ == content_address(contents[k]),
            forall|k: int|
                0 <= k < contents.len() ==> (#[trigger] used[k] <==> contents_at(
                    contents.take(k),
                    held[k]@,
                ).len() < times_asked(asked.take(j as int), held[k]@)),
            selected.len() == j,
            forall|k: int|
                0 <= k < j ==> (#[trigger] selected@[k])@ == contents_at(contents, addresses@[k]@)[
                    times_asked(asked.take(k), addresses@[k]@) as int
                ],
            forall|a: Seq<u8>|
                #![trigger contents_at(contents, a)]
                times_asked(asked.take(j as int), a) <= contents_at(contents, a).len(),
        decreases addresses.len() - j,
    {
        let address: [u8; 32] = addresses[j];
        let ghost a = address@;
        let ghost n = times_asked(asked.take(j as int), a);
        let mut p: usize = 0;
        while p < held.len() && (used[p] || !same_bytes(&held[p], &address))
            invariant
                p <= held.len(),
                held.len() == contents.len(),
                used.len() == contents.len(),
                a == address@,
                forall|k: int|
                    0 <= k < contents.len() ==> (#[trigger] held[k])@ == content_address(
                        contents[k],
                    ),
                forall|k: int|
                    0 <= k < p ==> (#[trigger] used[k] || held[k]@ != a),
            decreases held.len() - p,
        {
            p = p + 1;
        }
        proof {
            lemma_ranks(contents, a, p as int);
            if contents_at(contents.take(p as int), a).len() > 0 {
                let last = choose|k: int|
                    0 <= k < p && content_address(#[trigger] contents[k]) == a && contents_at(
                        contents.take(k),
                        a,
                    ).len() + 1 == contents_at(contents.take(p as int), a).len();
                assert(held[last]@ == a);
                assert(used[last]);
            }
            assert(contents_at(contents.take(p as int), a).len() <= n);
            assert(asked.take(j + 1).drop_last() =~= asked.take(j as int));
            assert(asked.take(j + 1).last() == a);
            lemma_asked_grows(asked, a, j + 1);
        }
        if p == held.len() {
            proof {
                assert(contents.take(p as int) =~= contents);
                assert(addresses@[j as int]@ == a);
            }
            let m = if any_at(&held, &address, Ghost(contents)) {
                joined(
                    "missing duplicate chunk content for merkle address ",
                    hex_encode(&address).as_str(),
                )
            } else {
                joined("missing chunk content for merkle address ", hex_encode(&address).as_str())
            };
            return Err(Error::InvalidData(m));
        }
        let content = chunk_contents[p].clone();
        proof {
            assert(content@ =~= contents[p as int]);
            assert(held[p as int]@ == a);
            assert(!used[p as int]);
            lemma_contents_at_position(contents, p as int);
            assert(contents_at(contents.take(p as int), a).len() == n);
        }
        selected.push(content);
        let ghost used_before = used@;
        used.set(p, true);
        proof {
            assert forall|k: int| 0 <= k < contents.len() implies (#[trigger] used[k] <==> contents_at(
                contents.take(k),
                held[k]@,
            ).len() < times_asked(asked.take(j + 1), held[k]@)) by {
                assert(used_before[k] <==> contents_at(contents.take(k), held[k]@).len()
                    < times_asked(asked.take(j as int), held[k]@));
                if held[k]@ == a && k != p {
                    if k < p {
                        lemma_ranks(contents, a, p as int);
                        assert(content_address(contents[k]) == a);
                    } else {
                        lemma_ranks(contents, a, k);
                        assert(content_address(contents[p as int]) == a);
                    }
                }
            }
            assert forall|b: Seq<u8>|
                #![trigger contents_at(contents, b)]
                times_asked(asked.take(j + 1), b) <= contents_at(contents, b).len() by {
                assert(times_asked(asked.take(j as int), b) <= contents_at(contents, b).len());
            }
        }
        j = j + 1;
    }
    assert(asked.take(j as int) =~= asked);
    Ok(selected)
}

/// Whether there is any content of an address.
fn any_at(held: &Vec<[u8; 32]>, address: &[u8; 32], Ghost(contents): Ghost<Seq<Seq<u8>>>) -> (r: bool)
    requires
        held.len() == contents.len(),
        forall|k: int|
            0 <= k < contents.len() ==> (#[trigger] held[k])@ == content_address(contents[k]),
    ensures
        r == (contents_at(contents, address@).len() > 0),
{
    let mut i: usize = 0;
    assert(contents.take(0) =~= Seq::empty());
    while i < held.len()
        invariant
            i <= held.len(),
            held.len() == contents.len(),
            forall|k: int|
                0 <= k < contents.len() ==> (#[trigger] held[k])@ == content_address(contents[k]),
            contents_at(contents.take(i as int), address@).len() == 0,
        decreases held.len() - i,
    {
        if same_bytes(&held[i], address) {
            proof {
                assert(held[i as int]@ == content_address(contents[i as int]));
                lemma_contents_at_position(contents, i as int);
            }
            return true;
        }
        proof {
            assert(held[i as int]@ == content_address(contents[i as int]));
            assert(contents.take(i + 1).drop_last() =~= contents.take(i as int));
        }
        i = i + 1;
    }
    assert(contents.take(i as int) =~= contents);
    false
}

/// Whether the answer to a quote request for a chunk says that its close group
/// holds it; any other failure is passed on.
pub fn chunk_already_stored_for_merkle(result: Result<Vec<StoreQuote>, Error>) -> (r: Result<
    bool,
    Error,
>)
    ensures
        r == match result {
            Ok(_) => Ok::<bool, Error>(false),
            Err(Error::AlreadyStored) => Ok::<bool, Error>(true),
            Err(e) => Err::<bool, Error>(e),
        },
{
    match result {
        Ok(_) => Ok(false),
        Err(Error::AlreadyStored) => Ok(true),
        Err(e) => Err(e),
    }
}

/// The addresses whose chunks were found stored (`wanted` true) or not stored
/// (`wanted` false), in order.
pub open spec fn found_as(
    chunks: Seq<([u8; 32], u64)>,
    verdicts: Seq<Option<bool>>,
    wanted: bool,
) -> Seq<[u8; 32]>
    decreases chunks.len(),
{
    if chunks.len() == 0 {
        Seq::empty()
    } else if verdicts[chunks.len() - 1] == Some(wanted) {
        found_as(chunks.drop_last(), verdicts, wanted).push(chunks.last().0)
    } else {
        found_as(chunks.drop_last(), verdicts, wanted)
    }
}

/// The bytes of the chunks that were found not stored.
pub open spec fn bytes_to_upload(
    chunks: Seq<([u8; 32], u64)>,
    verdicts: Seq<Option<bool>>,
) -> nat
    decreases chunks.len(),
{
    if chunks.len() == 0 {
        0
    } else {
        bytes_to_upload(chunks.drop_last(), verdicts) + if verdicts[chunks.len() - 1] == Some(
            false,
        ) {
            chunks.last().1 as nat
        } else {
            0nat
        }
    }
}

/// How many verdicts are in, and how many of them say that the chunk is stored.
pub open spec fn verdict_counts(verdicts: Seq<Option<bool>>) -> (nat, nat)
    decreases verdicts.len(),
{
    if verdicts.len() == 0 {
        (0, 0)
    } else {
        let (checked, stored) = verdict_counts(verdicts.drop_last());
        (
            checked + if verdicts.last() is Some {
                1nat
            } else {
                0nat
            },
            stored + if verdicts.last() == Some(true) {
                1nat
            } else {
                0nat
            },
        )
    }
}

proof fn lemma_verdict_counts(verdicts: Seq<Option<bool>>, i: int, stored: bool)
    requires
        0 <= i < verdicts.len(),
        verdicts[i] is None,
    ensures
        ({
            let before = verdict_counts(verdicts);
            let after = verdict_counts(verdicts.update(i, Some(stored)));
            &&& after.0 == before.0 + 1
            &&& after.1 == before.1 + if stored {
                1nat
            } else {
                0nat
            }
            &&& after.0 <= verdicts.len()
            &&& after.1 <= after.0
        }),
    decreases verdicts.len(),
{
    let updated = verdicts.update(i, Some(stored));
    if i == verdicts.len() - 1 {
        assert(updated.drop_last() =~= verdicts.drop_last());
        lemma_counts_bounded(verdicts.drop_last());
    } else {
        assert(updated.drop_last() =~= verdicts.drop_last().update(i, Some(stored)));
        lemma_verdict_counts(verdicts.drop_last(), i, stored);
    }
}

proof fn lemma_counts_bounded(verdicts: Seq<Option<bool>>)
    ensures
        verdict_counts(verdicts).0 <= verdicts.len(),
        verdict_counts(verdicts).1 <= verdict_counts(verdicts).0,
    decreases verdicts.len(),
{
    if verdicts.len() > 0 {
        lemma_counts_bounded(verdicts.drop_last());
    }
}

/// The check which chunks of a merkle upload still need payment and storage.
/// Each chunk is probed once; the answers come in any order.
pub struct MerklePreflight {
    /// The chunks with their sizes.
    pub chunks: Vec<([u8; 32], u64)>,
    /// For each chunk that was probed, whether it is stored.
    pub verdicts: Vec<Option<bool>>,
    /// Number of chunks that were probed.
    pub checked: usize,
    /// Number of chunks that were found stored.
    pub stored: usize,
}

impl MerklePreflight {
    /// The counters agree with the verdicts.
    pub open spec fn wf(&self) -> bool {
        &&& self.verdicts@.len() == self.chunks@.len()
        &&& verdict_counts(self.verdicts@) == (self.checked as nat, self.stored as nat)
    }

    pub fn new(chunks: Vec<([u8; 32], u64)>) -> (r: MerklePreflight)
        ensures
            r.wf(),
            r.chunks@ == chunks@,
            forall|i: int| 0 <= i < chunks@.len() ==> (#[trigger] r.verdicts@[i]) is None,
    {
        let mut verdicts: Vec<Option<bool>> = Vec::new();
        let mut i: usize = 0;
        while i < chunks.len()
            invariant
                i <= chunks.len(),
                verdicts@.len() == i,
                forall|k: int| 0 <= k < i ==> (#[trigger] verdicts@[k]) is None,
                verdict_counts(verdicts@) == (0nat, 0nat),
            decreases chunks.len() - i,
        {
            let ghost before = verdicts@;
            verdicts.push(None);
            assert(verdicts@.drop_last() =~= before);
            i = i + 1;
        }
        MerklePreflight { chunks, verdicts, checked: 0, stored: 0 }
    }

    /// Takes the answer for one chunk into account. What to report: the chunk
    /// as quoted, and as stored where it is.
    pub fn on_probed(&mut self, index: usize, already_stored: bool) -> (r: Vec<UploadEvent>)
        requires
            old(self).wf(),
            index < old(self).verdicts@.len(),
            old(self).verdicts@[index as int] is None,
        ensures
            final(self).wf(),
            final(self).chunks@ == old(self).chunks@,
            final(self).verdicts@ == old(self).verdicts@.update(index as int, Some(already_stored)),
            final(self).checked == old(self).checked + 1,
            final(self).stored == old(self).stored + if already_stored {
                1int
            } else {
                0int
            },
            r@ == seq![
                UploadEvent::ChunkQuoted {
                    quoted: final(self).checked,
                    total: old(self).chunks.len(),
                },
            ] + if already_stored {
                seq![
                    UploadEvent::ChunkStored {
                        stored: final(self).stored,
                        total: old(self).chunks.len(),
                    },
                ]
            } else {
                Seq::<UploadEvent>::empty()
            },
    {
        proof {
            lemma_verdict_counts(self.verdicts@, index as int, already_stored);
        }
        let total: usize = self.chunks.len();
        self.verdicts.set(index, Some(already_stored));
        self.checked = self.checked + 1;
        let mut events: Vec<UploadEvent> = Vec::new();
        events.push(UploadEvent::ChunkQuoted { quoted: self.checked, total });
        if already_stored {
            self.stored = self.stored + 1;
            events.push(UploadEvent::ChunkStored { stored: self.stored, total });
        }
        events
    }

    /// What is to be uploaded, once all chunks were probed. Both lists keep the
    /// order of the chunks.
    pub fn finish(self) -> (r: MerkleUploadPlan)
        requires
            self.wf(),
        ensures
            r.already_stored@ == found_as(self.chunks@, self.verdicts@, true),
            r.to_upload@ == found_as(self.chunks@, self.verdicts@, false),
            r.to_upload_total_bytes == lower(
                bytes_to_upload(self.chunks@, self.verdicts@) as int,
                u64::MAX as int,
            ),
    {
        let mut already_stored: Vec<[u8; 32]> = Vec::new();
        let mut to_upload: Vec<[u8; 32]> = Vec::new();
        let mut total: u64 = 0;
        let ghost chunks = self.chunks@;
        let ghost verdicts = self.verdicts@;
        let mut i: usize = 0;
        assert(chunks.take(0) =~= Seq::empty());
        while i < self.chunks.len()
            invariant
                i <= self.chunks.len(),
                chunks == self.chunks@,
                verdicts == self.verdicts@,
                verdicts.len() == chunks.len(),
                already_stored@ == found_as(chunks.take(i as int), verdicts, true),
                to_upload@ == found_as(chunks.take(i as int), verdicts, false),
                total == lower(
                    bytes_to_upload(chunks.take(i as int), verdicts) as int,
                    u64::MAX as int,
                ),
            decreases self.chunks.len() - i,
        {
            let (address, size) = self.chunks[i];
            proof {
                assert(chunks.take(i + 1).drop_last() =~= chunks.take(i as int));
            }
            match self.verdicts[i] {
                Some(true) => {
                    already_stored.push(address);
                },
                Some(false) => {
                    to_upload.push(address);
                    total = total.saturating_add(size);
                },
                None => {},
            }
            i = i + 1;
        }
        assert(chunks.take(i as int) =~= chunks);
        MerkleUploadPlan { already_stored, to_upload, to_upload_total_bytes: total }
    }
}

/// Every chunk that was probed is in just one of the two lists of a plan.
pub proof fn preflight_accounts_for_all(
    chunks: Seq<([u8; 32], u64)>,
    verdicts: Seq<Option<bool>>,
)
    requires
        verdicts.len() == chunks.len(),
        forall|i: int| 0 <= i < verdicts.len() ==> (#[trigger] verdicts[i]) is Some,
    ensures
        found_as(chunks, verdicts, true).len() + found_as(chunks, verdicts, false).len()
            == chunks.len(),
        forall|i: int|
            0 <= i < chunks.len() ==> found_as(chunks, verdicts, verdicts[i]->Some_0).contains(
                (#[trigger] chunks[i]).0,
            ),
{
    lemma_found_partition(chunks, verdicts);
}

proof fn lemma_found_partition(chunks: Seq<([u8; 32], u64)>, verdicts: Seq<Option<bool>>)
    requires
        verdicts.len() >= chunks.len(),
        forall|i: int| 0 <= i < verdicts.len() ==> (#[trigger] verdicts[i]) is Some,
    ensures
        found_as(chunks, verdicts, true).len() + found_as(chunks, verdicts, false).len()
            == chunks.len(),
        forall|i: int|
            0 <= i < chunks.len() ==> found_as(chunks, verdicts, verdicts[i]->Some_0).contains(
                (#[trigger] chunks[i]).0,
            ),
    decreases chunks.len(),
{
    if chunks.len() > 0 {
        let rest = chunks.drop_last();
        let n = chunks.len() - 1;
        assert(verdicts[n] is Some);
        if verdicts[n]->Some_0 {
            assert(verdicts[n] == Some(true));
        } else {
            assert(verdicts[n] == Some(false));
        }
        lemma_found_partition(rest, verdicts);
        assert forall|i: int| 0 <= i < chunks.len() implies found_as(
            chunks,
            verdicts,
            verdicts[i]->Some_0,
        ).contains((#[trigger] chunks[i]).0) by {
            let w = verdicts[i]->Some_0;
            let whole = found_as(chunks, verdicts, w);
            let part = found_as(rest, verdicts, w);
            if i < n {
                assert(rest[i] == chunks[i]);
                let k = choose|k: int| 0 <= k < part.len() && part[k] == chunks[i].0;
                assert(whole[k] == chunks[i].0);
            } else {
                assert(whole[whole.len() - 1] == chunks[i].0);
            }
        }
    }
}

/// The batches in which the chunks are paid: trees of at most `MAX_LEAVES`.
pub fn merkle_batches(addresses: Vec<[u8; 32]>) -> (r: Result<Vec<Vec<[u8; 32]>>, Error>)
    ensures
        match r {
            Ok(batches) => {
                &&& addresses@.len() >= MIN_LEAVES
                &&& batches@.len() == part_count(addresses@.len() as int, MAX_LEAVES as int)
                &&& forall|i: int|
                    0 <= i < batches@.len() ==> (#[trigger] batches@[i])@ == part(
                        addresses@,
                        MAX_LEAVES as int,
                        i,
                    )
            },
            Err(e) => {
                &&& addresses@.len() < MIN_LEAVES
                &&& e matches Error::Payment(m) && m@
                    == "Merkle batch payment requires at least 2 chunks"@
            },
        },
{
    if addresses.len() < MIN_LEAVES {
        return Err(Error::Payment("Merkle batch payment requires at least 2 chunks".to_owned()));
    }
    Ok(split_parts(addresses, MAX_LEAVES))
}

/// The payment time of the receipt for two batches: the older one, where zero
/// stands for none.
pub open spec fn older(oldest: u64, timestamp: u64) -> u64 {
    if oldest == 0 || (timestamp > 0 && timestamp < oldest) {
        timestamp
    } else {
        oldest
    }
}

/// The payment time of the receipt for many batches.
pub open spec fn oldest_of(timestamps: Seq<u64>) -> u64
    decreases timestamps.len(),
{
    if timestamps.len() == 0 {
        0
    } else {
        older(oldest_of(timestamps.drop_last()), timestamps.last())
    }
}

/// A receipt for many batches is as old as the oldest of their payments, so
/// that it expires with the first of them.
pub proof fn receipt_ages_with_the_first_payment(timestamps: Seq<u64>)
    requires
        timestamps.len() > 0,
        forall|i: int| 0 <= i < timestamps.len() ==> #[trigger] timestamps[i] > 0,
    ensures
        timestamps.contains(oldest_of(timestamps)),
        forall|i: int| 0 <= i < timestamps.len() ==> oldest_of(timestamps) <= #[trigger] timestamps[i],
    decreases timestamps.len(),
{
    let rest = timestamps.drop_last();
    let n = timestamps.len() - 1;
    assert(timestamps[n] > 0);
    if rest.len() > 0 {
        receipt_ages_with_the_first_payment(rest);
        let k = choose|k: int| 0 <= k < rest.len() && rest[k] == oldest_of(rest);
        assert(timestamps[k] == rest[k]);
        assert forall|i: int| 0 <= i < timestamps.len() implies oldest_of(timestamps)
            <= #[trigger] timestamps[i] by {
            if i < n {
                assert(rest[i] == timestamps[i]);
            }
        }
    }
}

/// The cost that a text states; zero where it states none.
pub open spec fn stated_cost(text: Seq<char>) -> nat {
    match parsed_amount(text) {
        Some(n) => n,
        None => 0,
    }
}

/// The receipts of the batches that were paid so far.
pub struct MerkleReceipts {
    pub proofs: AddressMap<Vec<u8>>,
    pub total_storage: Amount,
    pub total_gas: u128,
    /// Time of the oldest payment; zero before the first.
    pub oldest_timestamp: u64,
}

impl MerkleReceipts {
    pub fn new() -> (r: MerkleReceipts)
        ensures
            r.proofs@ == Map::<Seq<u8>, Vec<u8>>::empty(),
            r.total_storage.value() == 0,
            r.total_gas == 0,
            r.oldest_timestamp == 0,
    {
        MerkleReceipts {
            proofs: AddressMap::new(),
            total_storage: U256::zero(),
            total_gas: 0,
            oldest_timestamp: 0,
        }
    }

    /// Adds the receipt of one more batch.
    pub fn on_paid(&mut self, batch: MerkleBatchPaymentResult)
        ensures
            final(self).proofs@ == old(self).proofs@.union_prefer_right(batch.proofs@),
            final(self).total_storage.value() == (old(self).total_storage.value() + stated_cost(
                batch.storage_cost_atto@,
            )) % (two128() * two128()),
            final(self).total_gas == lower(
                old(self).total_gas + batch.gas_cost_wei,
                u128::MAX as int,
            ),
            final(self).oldest_timestamp == older(
                old(self).oldest_timestamp,
                batch.merkle_payment_timestamp,
            ),
    {
        match parse_amount(batch.storage_cost_atto.as_str()) {
            Some(cost) => {
                self.total_storage = self.total_storage.wrapping_sum(&cost);
            },
            None => {
                proof {
                    vstd::arithmetic::div_mod::lemma_small_mod(
                        self.total_storage.value(),
                        two128() * two128(),
                    );
                }
            },
        }
        self.total_gas = self.total_gas.saturating_add(batch.gas_cost_wei);
        if self.oldest_timestamp == 0 || (batch.merkle_payment_timestamp > 0
            && batch.merkle_payment_timestamp < self.oldest_timestamp) {
            self.oldest_timestamp = batch.merkle_payment_timestamp;
        }
        self.proofs.extend(batch.proofs);
    }

    /// The receipt for all batches.
    pub fn complete(self, chunk_count: usize) -> (r: MerkleBatchPaymentResult)
        ensures
            r.proofs@ == self.proofs@,
            r.chunk_count == chunk_count,
            r.storage_cost_atto@ == decimal_text(self.total_storage.value()),
            r.gas_cost_wei == self.total_gas,
            r.merkle_payment_timestamp == self.oldest_timestamp,
    {
        let storage_cost_atto = format_amount(&self.total_storage);
        MerkleBatchPaymentResult {
            proofs: self.proofs,
            chunk_count,
            storage_cost_atto,
            gas_cost_wei: self.total_gas,
            merkle_payment_timestamp: self.oldest_timestamp,
        }
    }

    /// The end of a payment of which one batch failed: what was paid before
    /// stays usable; where nothing was, the failure is passed on.
    pub fn on_failed(self, e: Error) -> (r: Result<MerkleBatchPaymentResult, Error>)
        ensures
            match r {
                Ok(part) => {
                    &&& self.proofs@.dom().len() > 0
                    &&& part.proofs@ == self.proofs@
                    &&& part.chunk_count == self.proofs@.dom().len()
                    &&& part.storage_cost_atto@ == decimal_text(self.total_storage.value())
                    &&& part.gas_cost_wei == self.total_gas
                    &&& part.merkle_payment_timestamp == self.oldest_timestamp
                },
                Err(f) => self.proofs@.dom().len() == 0 && f == e,
            },
    {
        let paid: usize = self.proofs.len();
        if paid == 0 {
            return Err(e);
        }
        Ok(self.complete(paid))
    }
}

/// The receipt of one batch, with what the payment of it cost.
pub fn with_costs(batch: MerkleBatchPaymentResult, amount: &Amount, gas_cost_wei: u128) -> (r:
    MerkleBatchPaymentResult)
    ensures
        r.proofs == batch.proofs,
        r.chunk_count == batch.chunk_count,
        r.storage_cost_atto@ == decimal_text(amount.value()),
        r.gas_cost_wei == gas_cost_wei,
        r.merkle_payment_timestamp == batch.merkle_payment_timestamp,
{
    MerkleBatchPaymentResult {
        proofs: batch.proofs,
        chunk_count: batch.chunk_count,
        storage_cost_atto: format_amount(amount),
        gas_cost_wei,
        merkle_payment_timestamp: batch.merkle_payment_timestamp,
    }
}

/// The error when the on-chain payment of a batch fails.
pub fn merkle_payment_error(reason: &str) -> (r: Error)
    ensures
        r matches Error::Payment(m) && m@ == "Merkle batch payment failed: "@ + reason@,
{
    Error::Payment(joined("Merkle batch payment failed: ", reason))
}

/// Whether a receipt of a payment made at `paid_at` is still good: a receipt is
/// good for less than `lifetime` seconds, and one of the future counts as new.
pub fn receipt_is_fresh(now: u64, paid_at: u64, lifetime: u64) -> (r: bool)
    ensures
        r == ((if now >= paid_at {
            now - paid_at
        } else {
            0
        }) < lifetime),
{
    now.saturating_sub(paid_at) < lifetime
}

/// The error where the clock shows no time for a payment.
pub fn clock_error(reason: &str) -> (r: Error)
    ensures
        r matches Error::Payment(m) && m@ == "System time error: "@ + reason@,
{
    Error::Payment(joined("System time error: ", reason))
}

/// More chunks never speak against a merkle payment; where the choice is automatic it
/// is never made where a merkle payment could not be asked for, and one chunk alone, or
/// a single payment that was asked for, never makes one.
pub proof fn larger_batches_stay_merkle(fewer: int, more: int, mode: PaymentMode)
    requires
        0 <= fewer <= more,
    ensures
        merkle_applies(fewer, mode) ==> merkle_applies(more, mode),
        merkle_applies(fewer, PaymentMode::Auto) ==> merkle_applies(fewer, PaymentMode::Merkle),
        merkle_applies(fewer, PaymentMode::Merkle) <==> fewer >= MIN_LEAVES,
        merkle_applies(fewer, PaymentMode::Auto) <==> fewer >= DEFAULT_MERKLE_THRESHOLD,
        !merkle_applies(fewer, PaymentMode::Single),
{
}

proof fn lemma_contents_are_a_filter(contents: Seq<Seq<u8>>, address: Seq<u8>)
    ensures
        contents_at(contents, address) == contents.filter(
            |c: Seq<u8>| content_address(c) == address,
        ),
    decreases contents.len(),
{
    reveal(Seq::filter);
    if contents.len() > 0 {
        lemma_contents_are_a_filter(contents.drop_last(), address);
    }
    assert(contents_at(contents, address) =~= contents.filter(
        |c: Seq<u8>| content_address(c) == address,
    ));
}

proof fn lemma_asked_is_a_count(addresses: Seq<Seq<u8>>, address: Seq<u8>)
    ensures
        times_asked(addresses, address) == addresses.filter(|a: Seq<u8>| a == address).len(),
    decreases addresses.len(),
{
    broadcast use Seq::lemma_filter_len_push;

    if addresses.len() > 0 {
        lemma_asked_is_a_count(addresses.drop_last(), address);
        assert(addresses =~= addresses.drop_last().push(addresses.last()));
    }
}

/// What is selected for an address is a content of that address, out of those that
/// were given; where an address is asked for once, it is the first of them.
pub proof fn selected_contents_belong_to_their_addresses(
    selected: Seq<Vec<u8>>,
    contents: Seq<Seq<u8>>,
    addresses: Seq<[u8; 32]>,
    j: int,
)
    requires
        selectable(contents, addresses),
        is_selection(selected, contents, addresses),
        0 <= j < addresses.len(),
    ensures
        selected.len() == addresses.len(),
        content_address(selected[j]@) == addresses[j]@,
        contents.contains(selected[j]@),
        (forall|k: int| 0 <= k < j ==> (#[trigger] addresses[k])@ != addresses[j]@) ==> selected[j]@
            == contents.filter(|c: Seq<u8>| content_address(c) == addresses[j]@)[0],
{
    let views = address_views(addresses);
    let a = addresses[j]@;
    let list = contents_at(contents, a);
    let rank = times_asked(views.take(j), a);
    lemma_contents_are_a_filter(contents, a);
    assert(views.take(j + 1).drop_last() =~= views.take(j));
    assert(views.take(j + 1).last() == a);
    lemma_asked_grows(views, a, j + 1);
    assert(rank < list.len());
    assert(selected[j]@ == list[rank as int]);
    contents.lemma_filter_pred(|c: Seq<u8>| content_address(c) == a, rank as int);
    contents.lemma_filter_contains_rev(|c: Seq<u8>| content_address(c) == a, list[rank as int]);
    if forall|k: int| 0 <= k < j ==> (#[trigger] addresses[k])@ != a {
        lemma_asked_is_a_count(views.take(j), a);
        let f = |x: Seq<u8>| x == a;
        assert forall|k: int| 0 <= k < views.take(j).len() implies !f(
            #[trigger] views.take(j)[k],
        ) by {
            assert(views.take(j)[k] == addresses[k]@);
        }
        crate::order::lemma_few_in_front(views.take(j), f, 0);
    }
}

/// Contents can be selected only where each address is asked for no more often than a
/// content of it was given; the contents of an address are those that hash to it.
pub proof fn selection_needs_enough_contents(
    contents: Seq<Seq<u8>>,
    addresses: Seq<[u8; 32]>,
    address: Seq<u8>,
)
    ensures
        contents_at(contents, address) == contents.filter(
            |c: Seq<u8>| content_address(c) == address,
        ),
        times_asked(address_views(addresses), address) == address_views(addresses).filter(
            |a: Seq<u8>| a == address,
        ).len(),
        selectable(contents, addresses) ==> address_views(addresses).filter(
            |a: Seq<u8>| a == address,
        ).len() <= contents.filter(|c: Seq<u8>| content_address(c) == address).len(),
{
    let views = address_views(addresses);
    let f = |a: Seq<u8>| a == address;
    lemma_asked_is_a_count(views, address);
    lemma_contents_are_a_filter(contents, address);
    if exists|j: int| 0 <= j < addresses.len() && (#[trigger] addresses[j])@ == address {
        let j = choose|j: int| 0 <= j < addresses.len() && (#[trigger] addresses[j])@ == address;
        assert(addresses[j]@ == address);
    } else {
        assert forall|k: int| 0 <= k < views.len() implies !f(#[trigger] views[k]) by {
            assert(views[k] == addresses[k]@);
        }
        crate::order::lemma_few_in_front(views, f, 0);
    }
}

/// A list of the plan names exactly the chunks with that verdict, as many as there are,
/// in the order of the chunks.
pub proof fn plan_follows_the_verdicts(
    chunks: Seq<([u8; 32], u64)>,
    verdicts: Seq<Option<bool>>,
    wanted: bool,
    address: [u8; 32],
)
    requires
        verdicts.len() == chunks.len(),
    ensures
        found_as(chunks, verdicts, wanted).contains(address) <==> exists|i: int|
            0 <= i < chunks.len() && (#[trigger] chunks[i]).0 == address && verdicts[i] == Some(
                wanted,
            ),
        found_as(chunks, verdicts, wanted).len() == verdicts.filter(
            |v: Option<bool>| v == Some(wanted),
        ).len(),
        found_as(chunks, verdicts, wanted) == Seq::new(
            chunks.len(),
            |i: int| (chunks[i].0, verdicts[i]),
        ).filter(|e: ([u8; 32], Option<bool>)| e.1 == Some(wanted)).map_values(
            |e: ([u8; 32], Option<bool>)| e.0,
        ),
{
    lemma_plan_is_a_filter(chunks, verdicts, wanted);
    let pairs = Seq::new(chunks.len(), |i: int| (chunks[i].0, verdicts[i]));
    let f = |e: ([u8; 32], Option<bool>)| e.1 == Some(wanted);
    let kept = pairs.filter(f);
    let found = found_as(chunks, verdicts, wanted);
    if found.contains(address) {
        let k = choose|k: int| 0 <= k < found.len() && found[k] == address;
        pairs.lemma_filter_pred(f, k);
        pairs.lemma_filter_contains_rev(f, kept[k]);
        let i = choose|i: int| 0 <= i < pairs.len() && pairs[i] == kept[k];
        assert(chunks[i].0 == address);
    }
    if exists|i: int|
        0 <= i < chunks.len() && (#[trigger] chunks[i]).0 == address && verdicts[i] == Some(
            wanted,
        ) {
        let i = choose|i: int|
            0 <= i < chunks.len() && (#[trigger] chunks[i]).0 == address && verdicts[i] == Some(
                wanted,
            );
        pairs.lemma_filter_contains(f, i);
        let k = choose|k: int| 0 <= k < kept.len() && kept[k] == pairs[i];
        assert(found[k] == address);
    }
    lemma_verdict_filter(pairs, verdicts, wanted);
}

proof fn lemma_plan_is_a_filter(
    chunks: Seq<([u8; 32], u64)>,
    verdicts: Seq<Option<bool>>,
    wanted: bool,
)
    requires
        verdicts.len() >= chunks.len(),
    ensures
        found_as(chunks, verdicts, wanted) == Seq::new(
            chunks.len(),
            |i: int| (chunks[i].0, verdicts[i]),
        ).filter(|e: ([u8; 32], Option<bool>)| e.1 == Some(wanted)).map_values(
            |e: ([u8; 32], Option<bool>)| e.0,
        ),
    decreases chunks.len(),
{
    let pairs = Seq::new(chunks.len(), |i: int| (chunks[i].0, verdicts[i]));
    let f = |e: ([u8; 32], Option<bool>)| e.1 == Some(wanted);
    let g = |e: ([u8; 32], Option<bool>)| e.0;
    reveal(Seq::filter);
    if chunks.len() > 0 {
        let t = chunks.drop_last();
        lemma_plan_is_a_filter(t, verdicts, wanted);
        assert(pairs.drop_last() =~= Seq::new(t.len(), |i: int| (t[i].0, verdicts[i])));
        let before = pairs.drop_last().filter(f);
        assert(before.push(pairs.last()).map_values(g) =~= before.map_values(g).push(
            g(pairs.last()),
        ));
    }
    assert(found_as(chunks, verdicts, wanted) =~= pairs.filter(f).map_values(g));
}

proof fn lemma_verdict_filter(
    pairs: Seq<([u8; 32], Option<bool>)>,
    verdicts: Seq<Option<bool>>,
    wanted: bool,
)
    requires
        pairs.len() == verdicts.len(),
        forall|i: int| 0 <= i < pairs.len() ==> (#[trigger] pairs[i]).1 == verdicts[i],
    ensures
        pairs.filter(|e: ([u8; 32], Option<bool>)| e.1 == Some(wanted)).len() == verdicts.filter(
            |v: Option<bool>| v == Some(wanted),
        ).len(),
    decreases pairs.len(),
{
    broadcast use Seq::lemma_filter_len_push;

    if pairs.len() > 0 {
        let p = pairs.drop_last();
        let v = verdicts.drop_last();
        assert(pairs =~= p.push(pairs.last()));
        assert(verdicts =~= v.push(verdicts.last()));
        assert(forall|i: int| 0 <= i < p.len() ==> p[i] == pairs[i] && v[i] == verdicts[i]);
        assert(pairs[pairs.len() - 1].1 == verdicts[pairs.len() - 1]);
        lemma_verdict_filter(p, v, wanted);
    }
}

/// The bytes that are left to upload are those of the chunks that are not stored: each
/// such chunk adds its size, and without any there are none.
pub proof fn each_missing_chunk_adds_its_bytes(
    chunks: Seq<([u8; 32], u64)>,
    verdicts: Seq<Option<bool>>,
    i: int,
)
    requires
        verdicts.len() == chunks.len(),
    ensures
        (forall|k: int| 0 <= k < verdicts.len() ==> (#[trigger] verdicts[k]) != Some(false))
            ==> bytes_to_upload(chunks, verdicts) == 0,
        0 <= i < chunks.len() && verdicts[i] == Some(false) ==> bytes_to_upload(chunks, verdicts)
            == bytes_to_upload(chunks, verdicts.update(i, Some(true))) + chunks[i].1,
{
    lemma_bytes_add(chunks, verdicts, i);
}

proof fn lemma_bytes_add(chunks: Seq<([u8; 32], u64)>, verdicts: Seq<Option<bool>>, i: int)
    requires
        verdicts.len() >= chunks.len(),
    ensures
        (forall|k: int| 0 <= k < verdicts.len() ==> (#[trigger] verdicts[k]) != Some(false))
            ==> bytes_to_upload(chunks, verdicts) == 0,
        0 <= i < chunks.len() && verdicts[i] == Some(false) ==> bytes_to_upload(chunks, verdicts)
            == bytes_to_upload(chunks, verdicts.update(i, Some(true))) + chunks[i].1,
        chunks.len() <= i < verdicts.len() ==> bytes_to_upload(chunks, verdicts)
            == bytes_to_upload(chunks, verdicts.update(i, Some(true))),
    decreases chunks.len(),
{
    if chunks.len() > 0 {
        lemma_bytes_add(chunks.drop_last(), verdicts, i);
        let n = chunks.len() - 1;
        assert(verdicts[n] == Some(false) || verdicts[n] != Some(false));
    }
}

/// The counters of a check are those of the verdicts that are in, and of those that
/// say that a chunk is stored.
pub proof fn check_counts_its_verdicts(verdicts: Seq<Option<bool>>)
    ensures
        verdict_counts(verdicts).0 == verdicts.filter(|v: Option<bool>| v is Some).len(),
        verdict_counts(verdicts).1 == verdicts.filter(|v: Option<bool>| v == Some(true)).len(),
    decreases verdicts.len(),
{
    broadcast use Seq::lemma_filter_len_push;

    if verdicts.len() > 0 {
        check_counts_its_verdicts(verdicts.drop_last());
        assert(verdicts =~= verdicts.drop_last().push(verdicts.last()));
    }
}

/// The batches of an upload hold every chunk once, in order, and none holds more than
/// a tree has room for.
pub proof fn batches_hold_every_chunk(addresses: Seq<[u8; 32]>, i: int)
    requires
        0 <= i < addresses.len(),
    ensures
        ({
            let room = MAX_LEAVES as int;
            &&& 0 <= i / room < part_count(addresses.len() as int, room)
            &&& part(addresses, room, i / room)[i % room] == addresses[i]
            &&& part(addresses, room, i / room).len() <= MAX_LEAVES
        }),
{
    crate::chunked::parts_make_the_whole(addresses, MAX_LEAVES as int, i);
    crate::chunked::parts_are_full(addresses, MAX_LEAVES as int, i / MAX_LEAVES as int);
}

/// A time without a payment does not age a receipt, and the order of two payments does
/// not matter.
pub proof fn receipt_age_is_that_of_the_older(a: u64, b: u64)
    ensures
        older(0, a) == a,
        older(a, 0) == a,
        older(a, b) == older(b, a),
        a > 0 && b > 0 ==> older(a, b) <= a && older(a, b) <= b && (older(a, b) == a || older(a, b)
            == b),
{
}

} // verus!
