//! Batch uploads: chunks are quoted, paid and stored in waves, and one wave is
//! stored while the next one is quoted.

use vstd::multiset::Multiset;
use vstd::prelude::*;
use vstd::string::*;

use crate::chunked::{lower, part, part_count, split_parts};
use crate::collections::{address_views, AddressMap, AddressSet};
use crate::data::client::file::UploadEvent;
use crate::data::client::payment::{
    all_timely, lemma_sum_mod, payment_proof, prepare_payment, prepared_from, proof_unwritten,
    unpayable, PreparedPayment, QuotePaymentInfo, QuotedPeers, SingleNodePayment,
};
use crate::data::client::quote::StoreQuote;
use crate::data::client::Client;
use crate::data::error::{joined, message_text, Error};
use crate::protocol::{
    compute_address, content_address, format_amount, parse_amount, parsed_amount,
    peer_quote_views, single_node_proof, PaymentQuote, PROOF_TAG_SINGLE_NODE,
};
use crate::text::{decimal_text, hex_encode, hex_text};
use crate::uint256::{two128, Amount, U256};

verus! {

/// Number of chunks per payment wave.
pub const PAYMENT_WAVE_SIZE: usize = 64;

/// How often a chunk is sent again after it failed to be stored.
pub const MAX_RETRIES: u32 = 3;

/// Milliseconds to wait before the first retry; each further wait is twice as
/// long as the one before.
pub const BASE_DELAY_MS: u64 = 500;

/// Chunk quoted but not yet paid.
pub struct PreparedChunk {
    pub content: Vec<u8>,
    /// Content address.
    pub address: [u8; 32],
    /// Closest peers from quote collection, to which the chunk is sent.
    pub quoted_peers: QuotedPeers,
    /// Payment that is due.
    pub payment: SingleNodePayment,
    /// The quotes with their issuers, for the proof.
    pub peer_quotes: Vec<([u8; 32], PaymentQuote)>,
}

impl PreparedChunk {
    /// The times of the quotes are ones that a clock can show.
    pub open spec fn timely(&self) -> bool {
        forall|i: int|
            0 <= i < self.peer_quotes@.len() ==> (#[trigger] self.peer_quotes@[i]).1.timely()
    }
}

/// Chunk paid but not yet stored.
pub struct PaidChunk {
    pub content: Vec<u8>,
    /// Content address.
    pub address: [u8; 32],
    /// Closest peers from quote collection, to which the chunk is sent.
    pub quoted_peers: QuotedPeers,
    /// Proof of the payment.
    pub proof_bytes: Vec<u8>,
}

/// Result of storing a wave of paid chunks.
pub struct WaveResult {
    /// Successfully stored chunk addresses.
    pub stored: Vec<[u8; 32]>,
    /// Chunks that failed to store after all retries.
    pub failed: Vec<([u8; 32], String)>,
}

/// One entry of a payment: quote hash, account and amount.
pub type PaymentEntry = ([u8; 32], [u8; 20], Amount);

/// Payment data for external signing.
pub struct PaymentIntent {
    /// The entries that are to be paid.
    pub payments: Vec<PaymentEntry>,
    /// Total amount across all payments.
    pub total_amount: Amount,
}

/// What is due for all quotes of all chunks, in order.
pub open spec fn all_infos(chunks: Seq<PreparedChunk>) -> Seq<QuotePaymentInfo>
    decreases chunks.len(),
{
    if chunks.len() == 0 {
        Seq::empty()
    } else {
        all_infos(chunks.drop_last()) + chunks.last().payment.quotes@
    }
}

/// The payment entry of a quote.
pub open spec fn entry_of(info: QuotePaymentInfo) -> PaymentEntry {
    (info.quote_hash, info.rewards_address, info.amount)
}

/// The entries that are to be paid: those of amounts other than zero.
pub open spec fn due_entries(infos: Seq<QuotePaymentInfo>) -> Seq<PaymentEntry>
    decreases infos.len(),
{
    if infos.len() == 0 {
        Seq::empty()
    } else if infos.last().amount.value() != 0 {
        due_entries(infos.drop_last()).push(entry_of(infos.last()))
    } else {
        due_entries(infos.drop_last())
    }
}

/// The sum of all amounts.
pub open spec fn due_total(infos: Seq<QuotePaymentInfo>) -> nat {
    crate::data::client::payment::amounts_sum(infos)
}

impl PaymentIntent {
    /// Build from a set of prepared chunks: all entries of amounts other than
    /// zero, and their total.
    pub fn from_prepared_chunks(prepared: &Vec<PreparedChunk>) -> (r: PaymentIntent)
        ensures
            r.payments@ == due_entries(all_infos(prepared@)),
            r.total_amount.value() == due_total(all_infos(prepared@)) % (two128() * two128()),
    {
        let mut payments: Vec<PaymentEntry> = Vec::new();
        let mut total = U256::zero();
        let mut i: usize = 0;
        proof {
            assert(prepared@.take(0) =~= Seq::empty());
            vstd::arithmetic::div_mod::lemma_small_mod(0, two128() * two128());
        }
        while i < prepared.len()
            invariant
                i <= prepared.len(),
                payments@ == due_entries(all_infos(prepared@.take(i as int))),
                total.value() == due_total(all_infos(prepared@.take(i as int))) % (two128()
                    * two128()),
            decreases prepared.len() - i,
        {
            let infos = &prepared[i].payment.quotes;
            let ghost base = all_infos(prepared@.take(i as int));
            let mut j: usize = 0;
            assert(base + infos@.take(0) =~= base);
            while j < infos.len()
                invariant
                    j <= infos.len(),
                    payments@ == due_entries(base + infos@.take(j as int)),
                    total.value() == due_total(base + infos@.take(j as int)) % (two128()
                        * two128()),
                decreases infos.len() - j,
            {
                let info: QuotePaymentInfo = infos[j];
                let ghost part = base + infos@.take(j as int);
                proof {
                    let next = base + infos@.take(j + 1);
                    assert(next.drop_last() =~= part);
                    assert(next.last() == info);
                    lemma_sum_mod(due_total(part), info.amount.value());
                }
                if !info.amount.is_zero() {
                    payments.push((info.quote_hash, info.rewards_address, info.amount));
                    total = total.wrapping_sum(&info.amount);
                }
                j = j + 1;
            }
            proof {
                assert(infos@.take(j as int) =~= infos@);
                assert(prepared@.take(i + 1).drop_last() =~= prepared@.take(i as int));
            }
            i = i + 1;
        }
        assert(prepared@.take(i as int) =~= prepared@);
        PaymentIntent { payments, total_amount: total }
    }
}

/// The first quote that is to be paid and has no receipt.
pub open spec fn first_missing(
    infos: Seq<QuotePaymentInfo>,
    receipts: Map<Seq<u8>, [u8; 32]>,
) -> Option<Seq<u8>>
    decreases infos.len(),
{
    if infos.len() == 0 {
        None
    } else {
        match first_missing(infos.drop_last(), receipts) {
            Some(h) => Some(h),
            None => if infos.last().amount.value() != 0 && !receipts.dom().contains(
                infos.last().quote_hash@,
            ) {
                Some(infos.last().quote_hash@)
            } else {
                None
            },
        }
    }
}

/// The receipts of the quotes that are to be paid, in order.
pub open spec fn receipt_list(
    infos: Seq<QuotePaymentInfo>,
    receipts: Map<Seq<u8>, [u8; 32]>,
) -> Seq<Seq<u8>>
    decreases infos.len(),
{
    if infos.len() == 0 {
        Seq::empty()
    } else if infos.last().amount.value() != 0 {
        receipt_list(infos.drop_last(), receipts).push(receipts[infos.last().quote_hash@]@)
    } else {
        receipt_list(infos.drop_last(), receipts)
    }
}

/// The message on a quote without a receipt.
pub open spec fn missing_text(quote_hash: Seq<u8>) -> Seq<char> {
    "Missing tx hash for quote "@ + hex_text(quote_hash)
        + " — external signer did not return a receipt for this payment"@
}

/// The proof of a chunk's payment, where it can be built.
pub open spec fn chunk_proof(
    chunk: PreparedChunk,
    receipts: Map<Seq<u8>, [u8; 32]>,
) -> Option<Seq<u8>> {
    single_node_proof(
        peer_quote_views(chunk.peer_quotes@),
        receipt_list(chunk.payment.quotes@, receipts),
    )
}

/// Whether all that a chunk needs to be proved paid is there.
pub open spec fn provable(chunk: PreparedChunk, receipts: Map<Seq<u8>, [u8; 32]>) -> bool {
    first_missing(chunk.payment.quotes@, receipts) is None && chunk_proof(chunk, receipts) is Some
}

/// The paid chunk that a prepared chunk becomes.
pub open spec fn is_paid_version(
    paid: PaidChunk,
    chunk: PreparedChunk,
    receipts: Map<Seq<u8>, [u8; 32]>,
) -> bool {
    &&& paid.content == chunk.content
    &&& paid.address == chunk.address
    &&& paid.quoted_peers == chunk.quoted_peers
    &&& chunk_proof(chunk, receipts) == Some(paid.proof_bytes@)
    &&& paid.proof_bytes@.len() > 0 && paid.proof_bytes@[0] == PROOF_TAG_SINGLE_NODE
}

/// Looks up the receipts of a chunk's payments.
fn receipts_of(payment: &SingleNodePayment, tx_hash_map: &AddressMap<[u8; 32]>) -> (r: Result<
    Vec<[u8; 32]>,
    Error,
>)
    ensures
        match r {
            Ok(hashes) => first_missing(payment.quotes@, tx_hash_map@) is None && address_views(
                hashes@,
            ) == receipt_list(payment.quotes@, tx_hash_map@),
            Err(e) => first_missing(payment.quotes@, tx_hash_map@) matches Some(h)
                && e matches Error::Payment(m) && m@ == missing_text(h),
        },
{
    let mut hashes: Vec<[u8; 32]> = Vec::new();
    let mut i: usize = 0;
    let ghost infos = payment.quotes@;
    let ghost map = tx_hash_map@;
    assert(infos.take(0) =~= Seq::empty());
    assert(address_views(hashes@) =~= Seq::<Seq<u8>>::empty());
    while i < payment.quotes.len()
        invariant
            i <= payment.quotes.len(),
            infos == payment.quotes@,
            map == tx_hash_map@,
            first_missing(infos.take(i as int), map) is None,
            address_views(hashes@) == receipt_list(infos.take(i as int), map),
        decreases payment.quotes.len() - i,
    {
        let info: QuotePaymentInfo = payment.quotes[i];
        let ghost next = infos.take(i + 1);
        proof {
            assert(next.drop_last() =~= infos.take(i as int));
            assert(next.last() == info);
        }
        if !info.amount.is_zero() {
            match tx_hash_map.get(&info.quote_hash) {
                Some(hash) => {
                    let ghost before = hashes@;
                    hashes.push(*hash);
                    assert(address_views(hashes@) =~= address_views(before).push(hash@));
                },
                None => {
                    let mut m = joined(
                        "Missing tx hash for quote ",
                        hex_encode(&info.quote_hash).as_str(),
                    );
                    m.append(" — external signer did not return a receipt for this payment");
                    proof {
                        assert(first_missing(next, map) == Some(info.quote_hash@));
                        lemma_missing_stays(infos, map, i + 1);
                    }
                    return Err(Error::Payment(m));
                },
            }
        }
        i = i + 1;
    }
    assert(infos.take(i as int) =~= infos);
    Ok(hashes)
}

proof fn lemma_missing_stays(
    infos: Seq<QuotePaymentInfo>,
    receipts: Map<Seq<u8>, [u8; 32]>,
    k: int,
)
    requires
        0 <= k <= infos.len(),
        first_missing(infos.take(k), receipts) is Some,
    ensures
        first_missing(infos, receipts) == first_missing(infos.take(k), receipts),
    decreases infos.len(),
{
    if k == infos.len() {
        assert(infos.take(k) =~= infos);
    } else {
        assert(infos.drop_last().take(k) =~= infos.take(k));
        lemma_missing_stays(infos.drop_last(), receipts, k);
    }
}

proof fn lemma_due_of_chunk(chunks: Seq<PreparedChunk>, i: int, j: int)
    requires
        0 <= i < chunks.len(),
        0 <= j < chunks[i].payment.quotes@.len(),
    ensures
        all_infos(chunks).contains(chunks[i].payment.quotes@[j]),
    decreases chunks.len(),
{
    let before = all_infos(chunks.drop_last());
    let last = chunks.last().payment.quotes@;
    if i == chunks.len() - 1 {
        assert((before + last)[before.len() + j] == last[j]);
    } else {
        lemma_due_of_chunk(chunks.drop_last(), i, j);
        let k = before.index_of(chunks[i].payment.quotes@[j]);
        assert((before + last)[k] == before[k]);
    }
}

proof fn lemma_due_is_listed(infos: Seq<QuotePaymentInfo>, i: int)
    requires
        0 <= i < infos.len(),
        infos[i].amount.value() != 0,
    ensures
        due_entries(infos).contains(entry_of(infos[i])),
    decreases infos.len(),
{
    let before = due_entries(infos.drop_last());
    if i == infos.len() - 1 {
        assert(due_entries(infos)[before.len() as int] == entry_of(infos[i]));
    } else {
        lemma_due_is_listed(infos.drop_last(), i);
        let k = before.index_of(entry_of(infos[i]));
        assert(due_entries(infos)[k] == before[k]);
    }
}

proof fn lemma_none_missing(infos: Seq<QuotePaymentInfo>, receipts: Map<Seq<u8>, [u8; 32]>)
    requires
        forall|i: int|
            0 <= i < infos.len() && (#[trigger] infos[i]).amount.value() != 0
                ==> receipts.dom().contains(infos[i].quote_hash@),
    ensures
        first_missing(infos, receipts) is None,
    decreases infos.len(),
{
    if infos.len() > 0 {
        lemma_none_missing(infos.drop_last(), receipts);
    }
}

/// Who pays all entries of a payment intent, and hands in the receipts, has left
/// out no payment of any chunk.
pub proof fn paid_intent_leaves_nothing_due(
    chunks: Seq<PreparedChunk>,
    receipts: Map<Seq<u8>, [u8; 32]>,
)
    requires
        forall|k: int|
            0 <= k < due_entries(all_infos(chunks)).len() ==> receipts.dom().contains(
                (#[trigger] due_entries(all_infos(chunks))[k]).0@,
            ),
    ensures
        forall|i: int|
            0 <= i < chunks.len() ==> first_missing(
                (#[trigger] chunks[i]).payment.quotes@,
                receipts,
            ) is None,
{
    let due = due_entries(all_infos(chunks));
    assert forall|i: int| 0 <= i < chunks.len() implies first_missing(
        (#[trigger] chunks[i]).payment.quotes@,
        receipts,
    ) is None by {
        let infos = chunks[i].payment.quotes@;
        assert forall|j: int|
            0 <= j < infos.len() && (#[trigger] infos[j]).amount.value()
                != 0 implies receipts.dom().contains(infos[j].quote_hash@) by {
            lemma_due_of_chunk(chunks, i, j);
            let at = all_infos(chunks).index_of(infos[j]);
            lemma_due_is_listed(all_infos(chunks), at);
            let k = due.index_of(entry_of(infos[j]));
            assert(due[k] == entry_of(infos[j]));
        }
        lemma_none_missing(infos, receipts);
    }
}

/// The sum of the amounts of payment entries.
pub open spec fn entries_sum(entries: Seq<PaymentEntry>) -> nat
    decreases entries.len(),
{
    if entries.len() == 0 {
        0
    } else {
        entries_sum(entries.drop_last()) + entries.last().2.value()
    }
}

/// The total of a payment intent is the sum of what its entries pay.
pub proof fn intent_total_is_what_is_listed(infos: Seq<QuotePaymentInfo>)
    ensures
        due_total(infos) == entries_sum(due_entries(infos)),
    decreases infos.len(),
{
    if infos.len() > 0 {
        intent_total_is_what_is_listed(infos.drop_last());
        if infos.last().amount.value() != 0 {
            assert(due_entries(infos).drop_last() =~= due_entries(infos.drop_last()));
        }
    }
}

/// Whether an error names the first chunk that cannot be proved to be paid.
pub open spec fn unprovable(
    e: Error,
    prepared: Seq<PreparedChunk>,
    receipts: Map<Seq<u8>, [u8; 32]>,
) -> bool {
    exists|i: int|
        {
            &&& 0 <= i < prepared.len()
            &&& !provable(#[trigger] prepared[i], receipts)
            &&& forall|k: int| 0 <= k < i ==> provable(#[trigger] prepared[k], receipts)
            &&& match first_missing(prepared[i].payment.quotes@, receipts) {
                Some(h) => e matches Error::Payment(m) && m@ == missing_text(h),
                None => proof_unwritten(e),
            }
        }
}

/// Finalize a batch payment using externally provided transaction hashes: each
/// chunk gets the proof of its payment.
pub fn finalize_batch_payment(
    prepared: Vec<PreparedChunk>,
    tx_hash_map: &AddressMap<[u8; 32]>,
) -> (r: Result<Vec<PaidChunk>, Error>)
    requires
        forall|i: int| 0 <= i < prepared@.len() ==> (#[trigger] prepared@[i]).timely(),
    ensures
        match r {
            Ok(paid) => {
                &&& paid@.len() == prepared@.len()
                &&& forall|i: int|
                    0 <= i < prepared@.len() ==> provable(#[trigger] prepared@[i], tx_hash_map@)
                &&& forall|i: int|
                    0 <= i < paid@.len() ==> is_paid_version(
                        #[trigger] paid@[i],
                        prepared@[i],
                        tx_hash_map@,
                    )
            },
            Err(e) => unprovable(e, prepared@, tx_hash_map@),
        },
{
    let ghost all = prepared@;
    let ghost map = tx_hash_map@;
    let mut rest = prepared;
    let n: usize = rest.len();
    let mut paid: Vec<PaidChunk> = Vec::new();
    let mut i: usize = 0;
    assert(all.skip(0) =~= all);
    while i < n
        invariant
            i <= n,
            n == all.len(),
            all == prepared@,
            rest@ == all.skip(i as int),
            map == tx_hash_map@,
            paid.len() == i,
            forall|k: int| 0 <= k < all.len() ==> (#[trigger] all[k]).timely(),
            forall|k: int| 0 <= k < i ==> provable(#[trigger] all[k], map),
            forall|k: int| 0 <= k < i ==> is_paid_version(#[trigger] paid@[k], all[k], map),
        decreases n - i,
    {
        let chunk = rest.remove(0);
        proof {
            assert(chunk == all[i as int]);
            assert(all[i as int].timely());
            assert(rest@ =~= all.skip(i + 1));
        }
        let tx_hashes = match receipts_of(&chunk.payment, tx_hash_map) {
            Ok(hashes) => hashes,
            Err(e) => {
                assert(!provable(all[i as int], map));
                return Err(e);
            },
        };
        let PreparedChunk { content, address, quoted_peers, payment: _, peer_quotes } = chunk;
        match payment_proof(peer_quotes, tx_hashes) {
            Ok(proof_bytes) => {
                paid.push(PaidChunk { content, address, quoted_peers, proof_bytes });
                assert(is_paid_version(paid@[i as int], all[i as int], map));
            },
            Err(e) => {
                assert(!provable(all[i as int], map));
                return Err(e);
            },
        }
        i = i + 1;
    }
    Ok(paid)
}

impl Client {
    /// The paid form of a single chunk that was paid externally, ready to be
    /// stored.
    pub fn finalize_chunk(&self, prepared: PreparedChunk, tx_hash_map: &AddressMap<[u8; 32]>) -> (r:
        Result<PaidChunk, Error>)
        requires
            prepared.timely(),
        ensures
            match r {
                Ok(paid) => provable(prepared, tx_hash_map@) && is_paid_version(
                    paid,
                    prepared,
                    tx_hash_map@,
                ),
                Err(e) => {
                    &&& !provable(prepared, tx_hash_map@)
                    &&& match first_missing(prepared.payment.quotes@, tx_hash_map@) {
                        Some(h) => e matches Error::Payment(m) && m@ == missing_text(h),
                        None => proof_unwritten(e),
                    }
                },
            },
    {
        let mut one: Vec<PreparedChunk> = Vec::new();
        one.push(prepared);
        let ghost list = one@;
        assert(list[0] == prepared);
        match finalize_batch_payment(one, tx_hash_map) {
            Ok(paid) => {
                let mut paid = paid;
                assert(provable(list[0], tx_hash_map@));
                assert(is_paid_version(paid@[0], list[0], tx_hash_map@));
                Ok(paid.remove(0))
            },
            Err(e) => Err(e),
        }
    }
}

/// The payment prepared for a chunk.
pub open spec fn prepared_parts(chunk: PreparedChunk) -> PreparedPayment {
    PreparedPayment {
        quoted_peers: chunk.quoted_peers,
        payment: chunk.payment,
        peer_quotes: chunk.peer_quotes,
    }
}

/// Prepares a chunk for payment from what the collection of its quotes came to;
/// nothing where the network already holds it.
pub fn prepare_chunk_payment(content: Vec<u8>, quotes: Result<Vec<StoreQuote>, Error>) -> (r: Result<
    Option<PreparedChunk>,
    Error,
>)
    requires
        quotes matches Ok(q) ==> all_timely(q@),
    ensures
        match quotes {
            Ok(q) => match r {
                Ok(Some(chunk)) => {
                    &&& chunk.content == content
                    &&& chunk.address@ == content_address(content@)
                    &&& prepared_from(prepared_parts(chunk), q@)
                    &&& chunk.timely()
                },
                Ok(None) => false,
                Err(e) => unpayable(e, q@),
            },
            Err(Error::AlreadyStored) => r == Ok::<Option<PreparedChunk>, Error>(None),
            Err(e) => r == Err::<Option<PreparedChunk>, Error>(e),
        },
{
    let address = compute_address(content.as_slice());
    match quotes {
        Ok(q) => match prepare_payment(q) {
            Ok(p) => {
                let PreparedPayment { quoted_peers, payment, peer_quotes } = p;
                Ok(Some(PreparedChunk { content, address, quoted_peers, payment, peer_quotes }))
            },
            Err(e) => Err(e),
        },
        Err(Error::AlreadyStored) => Ok(None),
        Err(e) => Err(e),
    }
}

/// The single transaction that pays for a set of chunks: every entry, also
/// those of amount zero, and the cost of the storage as text.
pub fn batch_payment_entries(prepared: &Vec<PreparedChunk>) -> (r: (Vec<PaymentEntry>, String))
    ensures
        r.0@ == all_infos(prepared@).map_values(|i: QuotePaymentInfo| entry_of(i)),
        r.1@ == decimal_text(due_total(all_infos(prepared@)) % (two128() * two128())),
{
    let intent = PaymentIntent::from_prepared_chunks(prepared);
    let cost = format_amount(&intent.total_amount);
    let mut entries: Vec<PaymentEntry> = Vec::new();
    let ghost f = |i: QuotePaymentInfo| entry_of(i);
    let mut i: usize = 0;
    assert(prepared@.take(0) =~= Seq::empty());
    assert(entries@ =~= all_infos(prepared@.take(0)).map_values(f));
    while i < prepared.len()
        invariant
            i <= prepared.len(),
            f == (|i: QuotePaymentInfo| entry_of(i)),
            entries@ == all_infos(prepared@.take(i as int)).map_values(f),
        decreases prepared.len() - i,
    {
        let infos = &prepared[i].payment.quotes;
        let ghost base = all_infos(prepared@.take(i as int));
        let mut j: usize = 0;
        assert(base + infos@.take(0) =~= base);
        while j < infos.len()
            invariant
                j <= infos.len(),
                f == (|i: QuotePaymentInfo| entry_of(i)),
                entries@ == (base + infos@.take(j as int)).map_values(f),
            decreases infos.len() - j,
        {
            let info: QuotePaymentInfo = infos[j];
            proof {
                let part = base + infos@.take(j as int);
                assert((base + infos@.take(j + 1)).map_values(f) =~= part.map_values(f).push(
                    f(info),
                ));
            }
            entries.push((info.quote_hash, info.rewards_address, info.amount));
            j = j + 1;
        }
        proof {
            assert(infos@.take(j as int) =~= infos@);
            assert(prepared@.take(i + 1).drop_last() =~= prepared@.take(i as int));
        }
        i = i + 1;
    }
    assert(prepared@.take(i as int) =~= prepared@);
    (entries, cost)
}

/// The error when the transaction that pays for a batch fails.
pub fn batch_payment_error(reason: &str) -> (r: Error)
    ensures
        r matches Error::Payment(m) && m@ == "Batch payment failed: "@ + reason@,
{
    Error::Payment(joined("Batch payment failed: ", reason))
}

/// Ends the payment of a batch with what the wallet answered: each chunk gets
/// the proof of its payment; the cost and the gas are reported with them.
pub fn settle_batch(
    prepared: Vec<PreparedChunk>,
    storage_cost_atto: String,
    paid: Result<(AddressMap<[u8; 32]>, u128), String>,
) -> (r: Result<(Vec<PaidChunk>, String, u128), Error>)
    requires
        forall|i: int| 0 <= i < prepared@.len() ==> (#[trigger] prepared@[i]).timely(),
    ensures
        match paid {
            Err(reason) => r matches Err(Error::Payment(m)) && m@ == "Batch payment failed: "@
                + reason@,
            Ok((receipts, gas)) => match r {
                Ok((chunks, cost, gas_cost_wei)) => {
                    &&& chunks@.len() == prepared@.len()
                    &&& forall|i: int|
                        0 <= i < prepared@.len() ==> provable(#[trigger] prepared@[i], receipts@)
                    &&& forall|i: int|
                        0 <= i < chunks@.len() ==> is_paid_version(
                            #[trigger] chunks@[i],
                            prepared@[i],
                            receipts@,
                        )
                    &&& cost == storage_cost_atto
                    &&& gas_cost_wei == gas
                },
                Err(e) => unprovable(e, prepared@, receipts@),
            },
        },
{
    match paid {
        Err(reason) => Err(batch_payment_error(reason.as_str())),
        Ok((receipts, gas)) => match finalize_batch_payment(prepared, &receipts) {
            Ok(chunks) => Ok((chunks, storage_cost_atto, gas)),
            Err(e) => Err(e),
        },
    }
}

/// The address of each chunk.
pub open spec fn chunk_addresses(chunks: Seq<Vec<u8>>) -> Seq<Seq<u8>> {
    chunks.map_values(|c: Vec<u8>| content_address(c@))
}

/// Whether the chunk at `i` repeats an earlier one.
pub open spec fn repeats(chunks: Seq<Vec<u8>>, i: int) -> bool {
    chunk_addresses(chunks.take(i)).contains(content_address(chunks[i]@))
}

/// The chunks without repetitions, in order.
pub open spec fn unique_chunks(chunks: Seq<Vec<u8>>) -> Seq<Vec<u8>>
    decreases chunks.len(),
{
    if chunks.len() == 0 {
        chunks
    } else if repeats(chunks, chunks.len() - 1) {
        unique_chunks(chunks.drop_last())
    } else {
        unique_chunks(chunks.drop_last()).push(chunks.last())
    }
}

/// The addresses of the chunks that repeat an earlier one, in order.
pub open spec fn repeated_addresses(chunks: Seq<Vec<u8>>) -> Seq<Seq<u8>>
    decreases chunks.len(),
{
    if chunks.len() == 0 {
        Seq::empty()
    } else if repeats(chunks, chunks.len() - 1) {
        repeated_addresses(chunks.drop_last()).push(content_address(chunks.last()@))
    } else {
        repeated_addresses(chunks.drop_last())
    }
}

/// Every chunk is either kept or counted as a repetition.
pub proof fn deduplication_accounts_for_all(chunks: Seq<Vec<u8>>)
    ensures
        unique_chunks(chunks).len() + repeated_addresses(chunks).len() == chunks.len(),
    decreases chunks.len(),
{
    if chunks.len() > 0 {
        deduplication_accounts_for_all(chunks.drop_last());
    }
}

/// No two kept chunks have the same address, every address is still that of a
/// kept chunk, and nothing is kept that was not given.
pub proof fn deduplication_keeps_one_of_each(chunks: Seq<Vec<u8>>)
    ensures
        chunk_addresses(unique_chunks(chunks)).no_duplicates(),
        forall|a: Seq<u8>|
            chunk_addresses(chunks).contains(a) == #[trigger] chunk_addresses(
                unique_chunks(chunks),
            ).contains(a),
        forall|i: int|
            0 <= i < unique_chunks(chunks).len() ==> chunks.contains(
                #[trigger] unique_chunks(chunks)[i],
            ),
    decreases chunks.len(),
{
    let kept = unique_chunks(chunks);
    if chunks.len() == 0 {
        assert(chunk_addresses(kept) =~= chunk_addresses(chunks));
    } else {
        let before = chunks.drop_last();
        let address = content_address(chunks.last()@);
        deduplication_keeps_one_of_each(before);
        assert(chunks.take(chunks.len() - 1) =~= before);
        assert(chunk_addresses(chunks) =~= chunk_addresses(before).push(address));
        if !repeats(chunks, chunks.len() - 1) {
            let earlier = chunk_addresses(unique_chunks(before));
            assert(chunk_addresses(kept) =~= earlier.push(address));
            assert(!earlier.contains(address));
            assert forall|i: int, j: int|
                0 <= i < earlier.push(address).len() && 0 <= j < earlier.push(address).len() && i
                    != j implies earlier.push(address)[i] != earlier.push(address)[j] by {
                assert(i < earlier.len() ==> earlier.contains(earlier[i]));
                assert(j < earlier.len() ==> earlier.contains(earlier[j]));
            }
        }
        assert forall|a: Seq<u8>|
            chunk_addresses(chunks).contains(a) == #[trigger] chunk_addresses(kept).contains(a) by {
            broadcast use vstd::seq_lib::group_seq_properties;

        }
        assert forall|i: int| 0 <= i < kept.len() implies chunks.contains(#[trigger] kept[i]) by {
            if i < unique_chunks(before).len() {
                assert(before.contains(unique_chunks(before)[i]));
                let k = before.index_of(unique_chunks(before)[i]);
                assert(chunks[k] == before[k]);
            } else {
                assert(chunks[chunks.len() - 1] == kept[i]);
            }
        }
    }
}

/// Parts the chunks into those to upload and the addresses of repetitions.
pub fn deduplicate(chunks: Vec<Vec<u8>>) -> (r: (Vec<Vec<u8>>, Vec<[u8; 32]>))
    ensures
        r.0@ == unique_chunks(chunks@),
        address_views(r.1@) == repeated_addresses(chunks@),
{
    let ghost all = chunks@;
    let mut rest = chunks;
    let n: usize = rest.len();
    let mut seen = AddressSet::new();
    let mut unique: Vec<Vec<u8>> = Vec::new();
    let mut repeated: Vec<[u8; 32]> = Vec::new();
    let mut i: usize = 0;
    proof {
        assert(all.skip(0) =~= all);
        assert(all.take(0) =~= Seq::empty());
        assert(address_views(repeated@) =~= Seq::<Seq<u8>>::empty());
        assert forall|a: Seq<u8>| !chunk_addresses(all.take(0)).contains(a) by {}
    }
    while i < n
        invariant
            i <= n,
            n == all.len(),
            rest@ == all.skip(i as int),
            unique@ == unique_chunks(all.take(i as int)),
            address_views(repeated@) == repeated_addresses(all.take(i as int)),
            forall|a: Seq<u8>|
                #[trigger] seen@.contains(a) == chunk_addresses(all.take(i as int)).contains(a),
        decreases n - i,
    {
        let chunk = rest.remove(0);
        let ghost now = all.take(i as int);
        let ghost next = all.take(i + 1);
        let address = compute_address(chunk.as_slice());
        let ghost before_seen = seen@;
        proof {
            assert(chunk == all[i as int]);
            assert(rest@ =~= all.skip(i + 1));
            assert(next.drop_last() =~= now);
            assert(next.take(i as int) =~= now);
            assert(next[i as int] == chunk);
            assert(repeats(next, next.len() - 1) == before_seen.contains(address@));
            assert(chunk_addresses(next) =~= chunk_addresses(now).push(address@));
            assert forall|a: Seq<u8>|
                before_seen.insert(address@).contains(a) == #[trigger] chunk_addresses(
                    next,
                ).contains(a) by {
                let old_list = chunk_addresses(now);
                let list = chunk_addresses(next);
                assert(list[i as int] == address@);
                if before_seen.contains(a) {
                    assert(old_list.contains(a));
                    let k = choose|k: int| 0 <= k < old_list.len() && old_list[k] == a;
                    assert(list[k] == a);
                }
                if list.contains(a) {
                    let k = choose|k: int| 0 <= k < list.len() && list[k] == a;
                    if k < i {
                        assert(old_list[k] == a);
                        assert(old_list.contains(a));
                        assert(before_seen.contains(a));
                    }
                }
            }
        }
        if seen.insert(address) {
            unique.push(chunk);
        } else {
            let ghost before = repeated@;
            repeated.push(address);
            assert(address_views(repeated@) =~= address_views(before).push(address@));
        }
        i = i + 1;
    }
    assert(all.take(i as int) =~= all);
    (unique, repeated)
}

/// Chunks in all waves.
pub open spec fn wave_total(waves: Seq<Vec<Vec<u8>>>) -> nat
    decreases waves.len(),
{
    if waves.len() == 0 {
        0
    } else {
        wave_total(waves.drop_last()) + waves.last()@.len()
    }
}

proof fn lemma_first_wave(waves: Seq<Vec<Vec<u8>>>)
    requires
        waves.len() > 0,
    ensures
        wave_total(waves) == waves[0]@.len() + wave_total(waves.drop_first()),
    decreases waves.len(),
{
    let front = waves.drop_last();
    let tail = waves.drop_first();
    if waves.len() == 1 {
        assert(front =~= tail);
        assert(wave_total(tail) == 0);
    } else {
        lemma_first_wave(front);
        assert(tail.drop_last() =~= front.drop_first());
        assert(tail.last() == waves.last());
    }
}

proof fn lemma_waves_hold(waves: Seq<Vec<Vec<u8>>>, chunks: Seq<Vec<u8>>, size: int, n: int)
    requires
        size > 0,
        0 <= n <= waves.len(),
        forall|i: int| 0 <= i < waves.len() ==> (#[trigger] waves[i])@ == part(chunks, size, i),
    ensures
        wave_total(waves.take(n)) == lower(n * size, chunks.len() as int),
    decreases n,
{
    if n == 0 {
        assert(0 * size == 0) by (nonlinear_arith);
    } else {
        lemma_waves_hold(waves, chunks, size, n - 1);
        assert(waves.take(n).drop_last() =~= waves.take(n - 1));
        assert(waves.take(n).last() == waves[n - 1]);
        assert((n - 1) * size + size == n * size) by (nonlinear_arith);
        assert(0 <= (n - 1) * size) by (nonlinear_arith)
            requires
                n >= 1,
                size > 0,
        ;
    }
}

proof fn lemma_waves_hold_all(waves: Seq<Vec<Vec<u8>>>, chunks: Seq<Vec<u8>>, size: int)
    requires
        size > 0,
        waves.len() == part_count(chunks.len() as int, size),
        forall|i: int| 0 <= i < waves.len() ==> (#[trigger] waves[i])@ == part(chunks, size, i),
    ensures
        wave_total(waves) == chunks.len(),
{
    let n = waves.len() as int;
    let len = chunks.len() as int;
    lemma_waves_hold(waves, chunks, size, n);
    assert(waves.take(n) =~= waves);
    vstd::arithmetic::div_mod::lemma_fundamental_div_mod(len + size - 1, size);
    vstd::arithmetic::div_mod::lemma_mod_bound(len + size - 1, size);
    assert(size * n == n * size) by (nonlinear_arith);
}

/// How often each address occurs in a list.
pub open spec fn address_bag(list: Seq<[u8; 32]>) -> Multiset<Seq<u8>> {
    address_views(list).to_multiset()
}

/// How often each address occurs among chunks that are to be paid for.
pub open spec fn prepared_bag(chunks: Seq<PreparedChunk>) -> Multiset<Seq<u8>> {
    chunks.map_values(|c: PreparedChunk| c.address@).to_multiset()
}

/// How often each address occurs among paid chunks.
pub open spec fn paid_bag(chunks: Seq<PaidChunk>) -> Multiset<Seq<u8>> {
    chunks.map_values(|c: PaidChunk| c.address@).to_multiset()
}

/// How often each address occurs among failures.
pub open spec fn failed_bag(failed: Seq<([u8; 32], String)>) -> Multiset<Seq<u8>> {
    failed.map_values(|f: ([u8; 32], String)| f.0@).to_multiset()
}

/// How often each address occurs among the chunks of a list.
pub open spec fn chunk_bag(chunks: Seq<Vec<u8>>) -> Multiset<Seq<u8>> {
    chunk_addresses(chunks).to_multiset()
}

/// How often each address occurs in all waves.
pub open spec fn wave_bag(waves: Seq<Vec<Vec<u8>>>) -> Multiset<Seq<u8>>
    decreases waves.len(),
{
    if waves.len() == 0 {
        Multiset::empty()
    } else {
        wave_bag(waves.drop_last()).add(chunk_bag(waves.last()@))
    }
}

/// How often each address occurs in the wave that waits to be stored.
pub open spec fn pending_bag(pending: Option<Vec<PaidChunk>>) -> Multiset<Seq<u8>> {
    match pending {
        Some(paid) => paid_bag(paid@),
        None => Multiset::empty(),
    }
}

/// Paying for chunks keeps their addresses.
pub proof fn payment_keeps_addresses(
    paid: Seq<PaidChunk>,
    prepared: Seq<PreparedChunk>,
    receipts: Map<Seq<u8>, [u8; 32]>,
)
    requires
        paid.len() == prepared.len(),
        forall|i: int|
            0 <= i < paid.len() ==> is_paid_version(#[trigger] paid[i], prepared[i], receipts),
    ensures
        paid_bag(paid) == prepared_bag(prepared),
{
    let a = paid.map_values(|c: PaidChunk| c.address@);
    let b = prepared.map_values(|c: PreparedChunk| c.address@);
    assert forall|i: int| 0 <= i < a.len() implies a[i] == b[i] by {
        assert(is_paid_version(paid[i], prepared[i], receipts));
    }
    assert(a =~= b);
}

proof fn lemma_empty_bag<T>(s: Seq<T>)
    requires
        s.len() == 0,
    ensures
        s.to_multiset() == Multiset::<T>::empty(),
{
    broadcast use vstd::seq_lib::group_to_multiset_ensures;

    assert(s.to_multiset() =~= Multiset::<T>::empty());
}

proof fn lemma_first_wave_bag(waves: Seq<Vec<Vec<u8>>>)
    requires
        waves.len() > 0,
    ensures
        wave_bag(waves) == chunk_bag(waves[0]@).add(wave_bag(waves.drop_first())),
    decreases waves.len(),
{
    let front = waves.drop_last();
    let tail = waves.drop_first();
    if waves.len() == 1 {
        assert(front =~= tail);
        assert(wave_bag(waves) =~= chunk_bag(waves[0]@).add(wave_bag(tail)));
    } else {
        lemma_first_wave_bag(front);
        assert(tail.drop_last() =~= front.drop_first());
        assert(tail.last() == waves.last());
        assert(wave_bag(waves) =~= chunk_bag(waves[0]@).add(wave_bag(tail)));
    }
}

proof fn lemma_chunk_bag_add(a: Seq<Vec<u8>>, b: Seq<Vec<u8>>)
    ensures
        chunk_bag(a + b) == chunk_bag(a).add(chunk_bag(b)),
{
    assert(chunk_addresses(a + b) =~= chunk_addresses(a) + chunk_addresses(b));
    vstd::seq_lib::lemma_multiset_commutative(chunk_addresses(a), chunk_addresses(b));
}

proof fn lemma_waves_bag(waves: Seq<Vec<Vec<u8>>>, chunks: Seq<Vec<u8>>, size: int, n: int)
    requires
        size > 0,
        0 <= n <= waves.len(),
        forall|i: int| 0 <= i < waves.len() ==> (#[trigger] waves[i])@ == part(chunks, size, i),
    ensures
        wave_bag(waves.take(n)) == chunk_bag(chunks.take(lower(n * size, chunks.len() as int))),
    decreases n,
{
    let len = chunks.len() as int;
    if n == 0 {
        assert(0 * size == 0) by (nonlinear_arith);
        lemma_empty_bag(chunk_addresses(chunks.take(0)));
    } else {
        lemma_waves_bag(waves, chunks, size, n - 1);
        assert(waves.take(n).drop_last() =~= waves.take(n - 1));
        assert(waves.take(n).last() == waves[n - 1]);
        assert((n - 1) * size + size == n * size) by (nonlinear_arith);
        assert(0 <= (n - 1) * size) by (nonlinear_arith)
            requires
                n >= 1,
                size > 0,
        ;
        let before = chunks.take(lower((n - 1) * size, len));
        let now = chunks.take(lower(n * size, len));
        assert(before + part(chunks, size, n - 1) =~= now);
        lemma_chunk_bag_add(before, part(chunks, size, n - 1));
    }
}

proof fn lemma_waves_bag_all(waves: Seq<Vec<Vec<u8>>>, chunks: Seq<Vec<u8>>, size: int)
    requires
        size > 0,
        waves.len() == part_count(chunks.len() as int, size),
        forall|i: int| 0 <= i < waves.len() ==> (#[trigger] waves[i])@ == part(chunks, size, i),
    ensures
        wave_bag(waves) == chunk_bag(chunks),
{
    let n = waves.len() as int;
    let len = chunks.len() as int;
    lemma_waves_bag(waves, chunks, size, n);
    assert(waves.take(n) =~= waves);
    vstd::arithmetic::div_mod::lemma_fundamental_div_mod(len + size - 1, size);
    vstd::arithmetic::div_mod::lemma_mod_bound(len + size - 1, size);
    assert(size * n == n * size) by (nonlinear_arith);
    assert(chunks.take(len) =~= chunks);
}

/// The kept chunks and the repetitions together have the addresses that were
/// given, each as often.
pub proof fn deduplication_keeps_all_addresses(chunks: Seq<Vec<u8>>)
    ensures
        chunk_bag(unique_chunks(chunks)).add(repeated_addresses(chunks).to_multiset())
            == chunk_bag(chunks),
    decreases chunks.len(),
{
    broadcast use vstd::seq_lib::group_to_multiset_ensures;

    let kept = unique_chunks(chunks);
    let repeated = repeated_addresses(chunks);
    if chunks.len() == 0 {
        lemma_empty_bag(repeated);
        assert(chunk_bag(kept).add(repeated.to_multiset()) =~= chunk_bag(chunks));
    } else {
        let before = chunks.drop_last();
        let address = content_address(chunks.last()@);
        deduplication_keeps_all_addresses(before);
        assert(chunk_addresses(chunks) =~= chunk_addresses(before).push(address));
        if !repeats(chunks, chunks.len() - 1) {
            assert(chunk_addresses(kept) =~= chunk_addresses(unique_chunks(before)).push(address));
        }
        assert(chunk_bag(kept).add(repeated.to_multiset()) =~= chunk_bag(chunks));
    }
}

/// A batch upload in progress.
pub struct BatchUpload {
    /// Waves that were not quoted yet.
    pub waves: Vec<Vec<Vec<u8>>>,
    /// Addresses that are known to be stored.
    pub all_addresses: Vec<[u8; 32]>,
    /// The wave that was paid and waits to be stored.
    pub pending_store: Option<Vec<PaidChunk>>,
    /// Chunks of the wave that is being quoted or paid for.
    pub quoting: usize,
    /// Chunks of the wave that is being stored.
    pub storing: usize,
    /// Chunks of the batch.
    pub chunks: usize,
    /// The addresses of the wave that is being quoted or paid for.
    pub quoting_bag: Ghost<Multiset<Seq<u8>>>,
    /// The addresses of the wave that is being stored.
    pub storing_bag: Ghost<Multiset<Seq<u8>>>,
    /// The addresses of the batch.
    pub given: Ghost<Multiset<Seq<u8>>>,
    /// Chunks quoted so far.
    pub total_quoted: usize,
    pub total_storage: Amount,
    pub total_gas: u128,
    /// Chunks that were stored before this batch.
    pub stored_offset: usize,
    /// Chunks of the whole file.
    pub file_total: usize,
}

/// One round of a batch upload: quote a wave while the one before is stored.
pub struct WaveJob {
    /// The wave to quote.
    pub chunks: Vec<Vec<u8>>,
    /// Number of chunks quoted before it.
    pub quoted_offset: usize,
    /// The wave to store meanwhile.
    pub store: Option<Vec<PaidChunk>>,
    /// Number of chunks stored before that one.
    pub store_offset: usize,
}

/// `n` times the event that `stored` chunks are stored.
pub open spec fn stored_events(n: nat, stored: int, total: usize) -> Seq<UploadEvent> {
    Seq::new(n, |i: int| UploadEvent::ChunkStored { stored: stored as usize, total })
}

/// The addresses of a list, by their bytes, with those of another behind them.
fn extend_addresses(list: &mut Vec<[u8; 32]>, more: &Vec<[u8; 32]>)
    ensures
        final(list)@ == old(list)@ + more@,
{
    let ghost before = list@;
    let mut i: usize = 0;
    assert(before + more@.take(0) =~= before);
    while i < more.len()
        invariant
            i <= more.len(),
            list@ == before + more@.take(i as int),
        decreases more.len() - i,
    {
        list.push(more[i]);
        assert(list@ =~= before + more@.take(i + 1));
        i = i + 1;
    }
    assert(more@.take(i as int) =~= more@);
}

proof fn lemma_address_bag_add(a: Seq<[u8; 32]>, b: Seq<[u8; 32]>)
    ensures
        address_bag(a + b) == address_bag(a).add(address_bag(b)),
{
    assert(address_views(a + b) =~= address_views(a) + address_views(b));
    vstd::seq_lib::lemma_multiset_commutative(address_views(a), address_views(b));
}

/// A copy of a list of addresses.
pub(crate) fn copy_addresses(list: &Vec<[u8; 32]>) -> (r: Vec<[u8; 32]>)
    ensures
        r@ == list@,
{
    let mut out: Vec<[u8; 32]> = Vec::new();
    extend_addresses(&mut out, list);
    assert(out@ =~= list@);
    out
}

/// What the upload reports when chunks of a wave could not be stored.
pub open spec fn is_partial(
    e: Error,
    stored: Seq<[u8; 32]>,
    stored_offset: int,
    failed: Seq<([u8; 32], String)>,
    total: usize,
    why: Seq<char>,
) -> bool {
    e matches Error::PartialUpload {
        stored: s,
        stored_count,
        failed: f,
        failed_count,
        total_chunks,
        reason,
    } && s@ == stored && stored_count == stored_offset + stored.len() && f@ == failed
        && failed_count == failed.len() && total_chunks == total && reason@ == why
}

/// Chunks of the wave that waits to be stored.
pub open spec fn pending_chunks(pending: Option<Vec<PaidChunk>>) -> nat {
    match pending {
        Some(paid) => paid@.len(),
        None => 0,
    }
}

impl BatchUpload {
    /// The addresses of all chunks, wherever they stand.
    pub open spec fn everywhere(&self) -> Multiset<Seq<u8>> {
        address_bag(self.all_addresses@).add(wave_bag(self.waves@)).add(self.quoting_bag@).add(
            pending_bag(self.pending_store),
        ).add(self.storing_bag@)
    }

    /// Every chunk of the batch waits for its wave, is being quoted, waits to
    /// be stored, is being stored, or is stored.
    pub open spec fn wf(&self) -> bool {
        &&& self.everywhere() == self.given@
        &&& self.quoting_bag@.len() == self.quoting
        &&& self.storing_bag@.len() == self.storing
        &&& wave_total(self.waves@) + self.quoting + pending_chunks(self.pending_store)
            + self.storing + self.all_addresses@.len() == self.chunks
        &&& self.total_quoted + wave_total(self.waves@) <= self.chunks
        &&& self.stored_offset + self.chunks <= usize::MAX
    }

    /// What does not change in the course of the upload.
    pub open spec fn same_batch(&self, other: &BatchUpload) -> bool {
        &&& self.chunks == other.chunks
        &&& self.given == other.given
        &&& self.stored_offset == other.stored_offset
        &&& self.file_total == other.file_total
    }

    /// Starts the upload: repetitions count as stored at once, the other chunks
    /// are cut into waves. The events report the repetitions.
    pub fn new(chunks: Vec<Vec<u8>>, stored_offset: usize, file_total: usize) -> (r: (
        BatchUpload,
        Vec<UploadEvent>,
    ))
        requires
            stored_offset + chunks@.len() <= usize::MAX,
        ensures
            r.0.wf(),
            address_views(r.0.all_addresses@) == repeated_addresses(chunks@),
            r.0.waves@.len() == part_count(
                unique_chunks(chunks@).len() as int,
                PAYMENT_WAVE_SIZE as int,
            ),
            forall|i: int|
                0 <= i < r.0.waves@.len() ==> (#[trigger] r.0.waves@[i])@ == part(
                    unique_chunks(chunks@),
                    PAYMENT_WAVE_SIZE as int,
                    i,
                ),
            r.0.pending_store is None,
            r.0.quoting == 0,
            r.0.storing == 0,
            r.0.chunks == chunks@.len(),
            r.0.given@ == chunk_bag(chunks@),
            r.0.total_quoted == 0,
            r.0.total_storage.value() == 0,
            r.0.total_gas == 0,
            r.0.stored_offset == stored_offset,
            r.0.file_total == file_total,
            r.1@ == Seq::new(
                repeated_addresses(chunks@).len(),
                |i: int| UploadEvent::ChunkStored {
                    stored: (stored_offset + i + 1) as usize,
                    total: file_total,
                },
            ),
    {
        let ghost bag = chunk_bag(chunks@);
        proof {
            deduplication_accounts_for_all(chunks@);
            deduplication_keeps_all_addresses(chunks@);
        }
        let count: usize = chunks.len();
        let (unique, repeated) = deduplicate(chunks);
        let mut events: Vec<UploadEvent> = Vec::new();
        let n: usize = repeated.len();
        assert(n == address_views(repeated@).len());
        let mut i: usize = 0;
        while i < n
            invariant
                i <= n,
                stored_offset + n <= usize::MAX,
                events@ =~= Seq::new(
                    i as nat,
                    |i: int| UploadEvent::ChunkStored {
                        stored: (stored_offset + i + 1) as usize,
                        total: file_total,
                    },
                ),
            decreases n - i,
        {
            events.push(
                UploadEvent::ChunkStored { stored: stored_offset + i + 1, total: file_total },
            );
            i = i + 1;
        }
        let waves = split_parts(unique, PAYMENT_WAVE_SIZE);
        proof {
            lemma_waves_hold_all(waves@, unique@, PAYMENT_WAVE_SIZE as int);
            lemma_waves_bag_all(waves@, unique@, PAYMENT_WAVE_SIZE as int);
        }
        let upload = BatchUpload {
            waves,
            all_addresses: repeated,
            pending_store: None,
            quoting: 0,
            storing: 0,
            chunks: count,
            quoting_bag: Ghost(Multiset::empty()),
            storing_bag: Ghost(Multiset::empty()),
            given: Ghost(bag),
            total_quoted: 0,
            total_storage: U256::zero(),
            total_gas: 0,
            stored_offset,
            file_total,
        };
        assert(upload.everywhere() =~= bag);
        (upload, events)
    }

    /// The next wave to quote, with the wave to store meanwhile; nothing once
    /// all waves were quoted.
    pub fn next_wave(&mut self) -> (r: Option<WaveJob>)
        requires
            old(self).wf(),
            old(self).quoting == 0,
            old(self).storing == 0,
        ensures
            final(self).wf(),
            match r {
                None => old(self).waves@.len() == 0 && *final(self) == *old(self),
                Some(job) => {
                    &&& old(self).waves@.len() > 0
                    &&& job.chunks == old(self).waves@[0]
                    &&& job.quoted_offset == old(self).stored_offset + old(self).total_quoted
                    &&& job.store == old(self).pending_store
                    &&& job.store_offset == old(self).stored_offset + old(self).all_addresses@.len()
                    &&& final(self).same_batch(old(self))
                    &&& final(self).waves@ == old(self).waves@.drop_first()
                    &&& final(self).quoting == job.chunks@.len()
                    &&& final(self).quoting_bag@ == chunk_bag(job.chunks@)
                    &&& final(self).storing == pending_chunks(old(self).pending_store)
                    &&& final(self).storing_bag@ == pending_bag(old(self).pending_store)
                    &&& final(self).pending_store is None
                    &&& final(self).total_quoted == old(self).total_quoted + job.chunks@.len()
                    &&& final(self).all_addresses == old(self).all_addresses
                    &&& final(self).total_storage == old(self).total_storage
                    &&& final(self).total_gas == old(self).total_gas
                },
            },
    {
        if self.waves.len() == 0 {
            return None;
        }
        broadcast use vstd::seq_lib::group_to_multiset_ensures;

        proof {
            lemma_first_wave(self.waves@);
            lemma_first_wave_bag(self.waves@);
            assert(self.quoting_bag@ =~= Multiset::empty());
            assert(self.storing_bag@ =~= Multiset::empty());
        }
        let chunks = self.waves.remove(0);
        assert(self.waves@ =~= old(self).waves@.drop_first());
        let quoted_offset: usize = self.stored_offset + self.total_quoted;
        let store_offset: usize = self.stored_offset + self.all_addresses.len();
        let store = self.pending_store.take();
        self.storing = match &store {
            Some(paid) => paid.len(),
            None => 0,
        };
        self.quoting = chunks.len();
        self.total_quoted = self.total_quoted + chunks.len();
        self.quoting_bag = Ghost(chunk_bag(chunks@));
        self.storing_bag = Ghost(pending_bag(store));
        assert(self.everywhere() =~= old(self).everywhere());
        Some(WaveJob { chunks, quoted_offset, store, store_offset })
    }

    /// Takes the result of storing a wave into account. Chunks that failed end
    /// the upload.
    pub fn on_stored(&mut self, result: WaveResult, last: bool) -> (r: Result<(), Error>)
        requires
            old(self).wf(),
            address_bag(result.stored@).add(failed_bag(result.failed@)) == old(self).storing_bag@,
        ensures
            final(self).wf(),
            final(self).same_batch(old(self)),
            final(self).all_addresses@ == old(self).all_addresses@ + result.stored@,
            final(self).storing == result.failed@.len(),
            final(self).storing_bag@ == failed_bag(result.failed@),
            final(self).waves == old(self).waves,
            final(self).quoting == old(self).quoting,
            final(self).quoting_bag == old(self).quoting_bag,
            final(self).pending_store == old(self).pending_store,
            final(self).total_quoted == old(self).total_quoted,
            final(self).total_storage == old(self).total_storage,
            final(self).total_gas == old(self).total_gas,
            r is Ok <==> result.failed@.len() == 0,
            r matches Err(e) ==> is_partial(
                e,
                final(self).all_addresses@,
                old(self).stored_offset as int,
                result.failed@,
                old(self).file_total,
                if last {
                    "final wave store failed after retries"@
                } else {
                    "wave store failed after retries"@
                },
            ),
    {
        broadcast use vstd::seq_lib::group_to_multiset_ensures;

        let ghost failed_now = failed_bag(result.failed@);
        extend_addresses(&mut self.all_addresses, &result.stored);
        self.storing = result.failed.len();
        self.storing_bag = Ghost(failed_now);
        proof {
            lemma_address_bag_add(old(self).all_addresses@, result.stored@);
            assert(address_bag(result.stored@).len() == result.stored@.len());
            assert(failed_now.len() == result.failed@.len());
            assert(self.everywhere() =~= old(self).everywhere());
        }
        if result.failed.len() > 0 {
            let failed_count: usize = result.failed.len();
            return Err(
                Error::PartialUpload {
                    stored: copy_addresses(&self.all_addresses),
                    stored_count: self.stored_offset + self.all_addresses.len(),
                    failed: result.failed,
                    failed_count,
                    total_chunks: self.file_total,
                    reason: if last {
                        "final wave store failed after retries".to_owned()
                    } else {
                        "wave store failed after retries".to_owned()
                    },
                },
            );
        }
        Ok(())
    }

    /// Takes the quotes of a wave into account: the chunks that the network
    /// holds already count as stored, which the events report; the others are
    /// to be paid for, where there are any.
    pub fn on_quoted(&mut self, quoted: WavePreparation) -> (r: (
        Vec<UploadEvent>,
        Option<Vec<PreparedChunk>>,
    ))
        requires
            old(self).wf(),
            quoted.addresses() == old(self).quoting_bag@,
        ensures
            final(self).wf(),
            final(self).same_batch(old(self)),
            final(self).all_addresses@ == old(self).all_addresses@ + quoted.already_stored@,
            final(self).quoting == quoted.prepared@.len(),
            final(self).quoting_bag@ == prepared_bag(quoted.prepared@),
            final(self).waves == old(self).waves,
            final(self).storing == old(self).storing,
            final(self).storing_bag == old(self).storing_bag,
            final(self).pending_store == old(self).pending_store,
            final(self).total_quoted == old(self).total_quoted,
            final(self).total_storage == old(self).total_storage,
            final(self).total_gas == old(self).total_gas,
            r.0@ == stored_events(
                quoted.already_stored@.len(),
                old(self).stored_offset + final(self).all_addresses@.len(),
                old(self).file_total,
            ),
            match r.1 {
                Some(prepared) => prepared == quoted.prepared && prepared@.len() > 0,
                None => quoted.prepared@.len() == 0,
            },
    {
        broadcast use vstd::seq_lib::group_to_multiset_ensures;

        let ghost due_bag = prepared_bag(quoted.prepared@);
        let already_stored = quoted.already_stored;
        extend_addresses(&mut self.all_addresses, &already_stored);
        self.quoting = quoted.prepared.len();
        self.quoting_bag = Ghost(due_bag);
        proof {
            lemma_address_bag_add(old(self).all_addresses@, already_stored@);
            assert(address_bag(already_stored@).len() == already_stored@.len());
            assert(due_bag.len() == quoted.prepared@.len());
            assert(self.everywhere() =~= old(self).everywhere());
        }
        let stored: usize = self.stored_offset + self.all_addresses.len();
        let mut events: Vec<UploadEvent> = Vec::new();
        let mut i: usize = 0;
        while i < already_stored.len()
            invariant
                i <= already_stored.len(),
                events@ =~= stored_events(i as nat, stored as int, self.file_total),
            decreases already_stored.len() - i,
        {
            events.push(UploadEvent::ChunkStored { stored, total: self.file_total });
            i = i + 1;
        }
        let due = if quoted.prepared.len() > 0 {
            Some(quoted.prepared)
        } else {
            None
        };
        (events, due)
    }

    /// Takes the payment of a wave into account; the wave then waits to be
    /// stored. A cost that cannot be read is left out of the total.
    pub fn on_paid(&mut self, paid: Vec<PaidChunk>, storage_cost_atto: &str, gas_cost_wei: u128)
        requires
            old(self).wf(),
            old(self).pending_store is None,
            paid_bag(paid@) == old(self).quoting_bag@,
        ensures
            final(self).wf(),
            final(self).same_batch(old(self)),
            final(self).pending_store == Some(paid),
            final(self).quoting == 0,
            final(self).quoting_bag@ == Multiset::<Seq<u8>>::empty(),
            final(self).total_storage.value() == match parsed_amount(storage_cost_atto@) {
                Some(cost) => (old(self).total_storage.value() + cost) % (two128() * two128()),
                None => old(self).total_storage.value(),
            },
            final(self).total_gas == if old(self).total_gas + gas_cost_wei <= u128::MAX {
                old(self).total_gas + gas_cost_wei
            } else {
                u128::MAX as int
            },
            final(self).waves == old(self).waves,
            final(self).storing == old(self).storing,
            final(self).storing_bag == old(self).storing_bag,
            final(self).all_addresses == old(self).all_addresses,
            final(self).total_quoted == old(self).total_quoted,
    {
        broadcast use vstd::seq_lib::group_to_multiset_ensures;

        match parse_amount(storage_cost_atto) {
            Some(cost) => {
                self.total_storage = self.total_storage.wrapping_sum(&cost);
            },
            None => {},
        }
        self.total_gas = self.total_gas.saturating_add(gas_cost_wei);
        self.quoting = 0;
        self.quoting_bag = Ghost(Multiset::empty());
        proof {
            assert(paid_bag(paid@).len() == paid@.len());
        }
        self.pending_store = Some(paid);
        assert(self.everywhere() =~= old(self).everywhere());
    }

    /// The last wave, which waits to be stored once all waves were quoted, and
    /// the number of chunks stored before it.
    pub fn take_last(&mut self) -> (r: Option<(Vec<PaidChunk>, usize)>)
        requires
            old(self).wf(),
            old(self).storing == 0,
        ensures
            final(self).wf(),
            final(self).same_batch(old(self)),
            r == match old(self).pending_store {
                Some(paid) => Some(
                    (
                        paid,
                        (old(self).stored_offset + old(self).all_addresses@.len()) as usize,
                    ),
                ),
                None => None,
            },
            final(self).pending_store is None,
            final(self).storing == pending_chunks(old(self).pending_store),
            final(self).storing_bag@ == pending_bag(old(self).pending_store),
            final(self).waves == old(self).waves,
            final(self).quoting == old(self).quoting,
            final(self).quoting_bag == old(self).quoting_bag,
            final(self).all_addresses == old(self).all_addresses,
            final(self).total_quoted == old(self).total_quoted,
            final(self).total_storage == old(self).total_storage,
            final(self).total_gas == old(self).total_gas,
    {
        broadcast use vstd::seq_lib::group_to_multiset_ensures;

        let offset: usize = self.stored_offset + self.all_addresses.len();
        assert(self.storing_bag@ =~= Multiset::empty());
        match self.pending_store.take() {
            Some(paid) => {
                self.storing = paid.len();
                self.storing_bag = Ghost(paid_bag(paid@));
                assert(self.everywhere() =~= old(self).everywhere());
                Some((paid, offset))
            },
            None => None,
        }
    }

    /// The addresses that are stored, the cost of their storage as text, and
    /// the gas cost. An upload that comes this far has stored the address of
    /// each of its chunks, each as often as it was given.
    pub fn finish(self) -> (r: (Vec<[u8; 32]>, String, u128))
        requires
            self.wf(),
            self.waves@.len() == 0,
            self.quoting == 0,
            self.pending_store is None,
            self.storing == 0,
        ensures
            r.0 == self.all_addresses,
            r.0@.len() == self.chunks,
            address_bag(r.0@) == self.given@,
            r.1@ == decimal_text(self.total_storage.value()),
            r.2 == self.total_gas,
    {
        proof {
            assert(self.quoting_bag@ =~= Multiset::empty());
            assert(self.storing_bag@ =~= Multiset::empty());
            assert(self.everywhere() =~= address_bag(self.all_addresses@));
        }
        let cost = format_amount(&self.total_storage);
        (self.all_addresses, cost, self.total_gas)
    }
}

/// Quoting the chunks of one wave.
pub struct WavePreparation {
    pub prepared: Vec<PreparedChunk>,
    pub already_stored: Vec<[u8; 32]>,
    /// Chunks of this wave that were quoted.
    pub quoted: usize,
    /// Chunks that were quoted before this wave.
    pub quoted_offset: usize,
    /// Chunks of the whole file.
    pub file_total: usize,
}

impl WavePreparation {
    /// The addresses of all quoted chunks.
    pub open spec fn addresses(&self) -> Multiset<Seq<u8>> {
        prepared_bag(self.prepared@).add(address_bag(self.already_stored@))
    }

    /// Every quoted chunk is prepared or stored.
    pub open spec fn whole(&self) -> bool {
        self.prepared@.len() + self.already_stored@.len() == self.quoted
    }

    pub fn new(quoted_offset: usize, file_total: usize) -> (r: WavePreparation)
        ensures
            r.whole(),
            r.addresses() == Multiset::<Seq<u8>>::empty(),
            r.prepared@.len() == 0,
            r.already_stored@.len() == 0,
            r.quoted == 0,
            r.quoted_offset == quoted_offset,
            r.file_total == file_total,
    {
        let r = WavePreparation {
            prepared: Vec::new(),
            already_stored: Vec::new(),
            quoted: 0,
            quoted_offset,
            file_total,
        };
        proof {
            lemma_empty_bag(r.prepared@.map_values(|c: PreparedChunk| c.address@));
            lemma_empty_bag(address_views(r.already_stored@));
            assert(r.addresses() =~= Multiset::empty());
        }
        r
    }

    /// Takes the quote of one chunk into account; the first error ends the
    /// wave.
    pub fn on_quoted(
        &mut self,
        address: [u8; 32],
        result: Result<Option<PreparedChunk>, Error>,
    ) -> (r: Result<UploadEvent, Error>)
        requires
            old(self).quoted_offset + old(self).quoted < usize::MAX,
        ensures
            old(self).whole() ==> final(self).whole(),
            final(self).quoted_offset == old(self).quoted_offset,
            final(self).file_total == old(self).file_total,
            match result {
                Err(e) => r == Err::<UploadEvent, Error>(e) && *final(self) == *old(self),
                Ok(chunk) => {
                    &&& r == Ok::<UploadEvent, Error>(
                        UploadEvent::ChunkQuoted {
                            quoted: (old(self).quoted_offset + old(self).quoted + 1) as usize,
                            total: old(self).file_total,
                        },
                    )
                    &&& final(self).quoted == old(self).quoted + 1
                    &&& match chunk {
                        Some(c) => {
                            &&& final(self).prepared@ == old(self).prepared@.push(c)
                            &&& final(self).already_stored@ == old(self).already_stored@
                            &&& final(self).addresses() == old(self).addresses().insert(c.address@)
                        },
                        None => {
                            &&& final(self).prepared@ == old(self).prepared@
                            &&& final(self).already_stored@ == old(self).already_stored@.push(
                                address,
                            )
                            &&& final(self).addresses() == old(self).addresses().insert(address@)
                        },
                    }
                },
            },
    {
        broadcast use vstd::seq_lib::group_to_multiset_ensures;

        match result {
            Err(e) => {
                return Err(e);
            },
            Ok(Some(chunk)) => {
                let ghost was = self.prepared@.map_values(|c: PreparedChunk| c.address@);
                let ghost at = chunk.address@;
                self.prepared.push(chunk);
                proof {
                    assert(self.prepared@.map_values(|c: PreparedChunk| c.address@) =~= was.push(at));
                    assert(self.addresses() =~= old(self).addresses().insert(at));
                }
            },
            Ok(None) => {
                let ghost was = address_views(self.already_stored@);
                self.already_stored.push(address);
                proof {
                    assert(address_views(self.already_stored@) =~= was.push(address@));
                    assert(self.addresses() =~= old(self).addresses().insert(address@));
                }
            },
        }
        self.quoted = self.quoted + 1;
        Ok(
            UploadEvent::ChunkQuoted {
                quoted: self.quoted_offset + self.quoted,
                total: self.file_total,
            },
        )
    }
}

/// How many operations run at once: no more than allowed, and no more than
/// there are to run.
pub fn fan_out(limit: usize, work: usize) -> (r: usize)
    ensures
        r == lower(
            limit as int,
            if work == 0 {
                1
            } else {
                work as int
            },
        ),
{
    let most: usize = if work == 0 {
        1
    } else {
        work
    };
    if limit < most {
        limit
    } else {
        most
    }
}

/// Storing the chunks of one wave, with retries.
pub struct StoreRounds {
    stored: Vec<[u8; 32]>,
    failed: Vec<(PaidChunk, String)>,
    awaited: usize,
    awaited_bag: Ghost<Multiset<Seq<u8>>>,
    attempt: u32,
    stored_before: usize,
    total_chunks: usize,
}

/// What follows a round of storing.
pub enum RoundEnd {
    /// Everything is settled.
    Done(WaveResult),
    /// Wait, then send these chunks again.
    Retry { chunks: Vec<PaidChunk>, delay_ms: u64 },
}

/// Milliseconds to wait before retry number `attempt`.
pub open spec fn retry_delay_ms(attempt: int) -> int
    decreases attempt,
{
    if attempt <= 1 {
        BASE_DELAY_MS as int
    } else {
        2 * retry_delay_ms(attempt - 1)
    }
}

/// The chunks of a list of failures.
pub open spec fn failed_chunks(failed: Seq<(PaidChunk, String)>) -> Seq<PaidChunk> {
    failed.map_values(|f: (PaidChunk, String)| f.0)
}

/// The addresses and reasons of a list of failures.
pub open spec fn failed_entries(failed: Seq<(PaidChunk, String)>) -> Seq<([u8; 32], String)> {
    failed.map_values(|f: (PaidChunk, String)| (f.0.address, f.1))
}

impl StoreRounds {
    /// Addresses stored so far.
    pub closed spec fn stored(&self) -> Seq<[u8; 32]> {
        self.stored@
    }

    /// Failures of the current round.
    pub closed spec fn failed(&self) -> Seq<(PaidChunk, String)> {
        self.failed@
    }

    /// Chunks of the current round whose result is awaited.
    pub closed spec fn awaited(&self) -> int {
        self.awaited as int
    }

    /// The addresses of the chunks whose result is awaited.
    pub closed spec fn awaited_bag(&self) -> Multiset<Seq<u8>> {
        self.awaited_bag@
    }

    /// The addresses of all chunks that were submitted.
    pub open spec fn addresses(&self) -> Multiset<Seq<u8>> {
        address_bag(self.stored()).add(paid_bag(failed_chunks(self.failed()))).add(
            self.awaited_bag(),
        )
    }

    /// Number of the current round; the first one is zero.
    pub closed spec fn attempt(&self) -> int {
        self.attempt as int
    }

    /// Chunks stored in earlier waves.
    pub closed spec fn stored_before(&self) -> int {
        self.stored_before as int
    }

    /// Chunks of the whole file.
    pub closed spec fn total_chunks(&self) -> usize {
        self.total_chunks
    }

    /// All chunks that were submitted: each one is stored, failed in this round
    /// or awaited.
    pub open spec fn submitted(&self) -> int {
        self.stored().len() + self.failed().len() + self.awaited()
    }

    pub open spec fn wf(&self) -> bool {
        &&& 0 <= self.attempt() <= MAX_RETRIES
        &&& self.awaited() >= 0
        &&& self.awaited_bag().len() == self.awaited()
        &&& self.stored_before() + self.submitted() <= usize::MAX
    }

    /// Starts with a wave of chunks.
    pub fn new(chunks: &Vec<PaidChunk>, stored_before: usize, total_chunks: usize) -> (r: StoreRounds)
        requires
            stored_before + chunks@.len() <= usize::MAX,
        ensures
            r.wf(),
            r.submitted() == chunks@.len(),
            r.addresses() == paid_bag(chunks@),
            r.awaited() == chunks@.len(),
            r.awaited_bag() == paid_bag(chunks@),
            r.stored().len() == 0,
            r.failed().len() == 0,
            r.attempt() == 0,
            r.stored_before() == stored_before,
            r.total_chunks() == total_chunks,
    {
        broadcast use vstd::seq_lib::group_to_multiset_ensures;

        let r = StoreRounds {
            stored: Vec::new(),
            failed: Vec::new(),
            awaited: chunks.len(),
            awaited_bag: Ghost(paid_bag(chunks@)),
            attempt: 0,
            stored_before,
            total_chunks,
        };
        proof {
            assert(paid_bag(chunks@).len() == chunks@.len());
            lemma_empty_bag(address_views(r.stored()));
            lemma_empty_bag(failed_chunks(r.failed()).map_values(|c: PaidChunk| c.address@));
            assert(r.addresses() =~= paid_bag(chunks@));
        }
        r
    }

    /// Takes the result of one chunk into account. The event reports a stored
    /// chunk.
    pub fn on_result(&mut self, chunk: PaidChunk, result: Result<[u8; 32], Error>) -> (r: Option<
        UploadEvent,
    >)
        requires
            old(self).wf(),
            old(self).awaited_bag().contains(chunk.address@),
        ensures
            final(self).wf(),
            final(self).submitted() == old(self).submitted(),
            final(self).awaited_bag() == old(self).awaited_bag().remove(chunk.address@),
            (result matches Ok(name) ==> name@ == chunk.address@) ==> final(self).addresses()
                == old(self).addresses(),
            final(self).awaited() == old(self).awaited() - 1,
            final(self).attempt() == old(self).attempt(),
            final(self).stored_before() == old(self).stored_before(),
            final(self).total_chunks() == old(self).total_chunks(),
            match result {
                Ok(name) => {
                    &&& final(self).stored() == old(self).stored().push(name)
                    &&& final(self).failed() == old(self).failed()
                    &&& r == Some(
                        UploadEvent::ChunkStored {
                            stored: (old(self).stored_before() + old(self).stored().len()
                                + 1) as usize,
                            total: old(self).total_chunks(),
                        },
                    )
                },
                Err(e) => {
                    &&& final(self).stored() == old(self).stored()
                    &&& final(self).failed().len() == old(self).failed().len() + 1
                    &&& final(self).failed().drop_last() == old(self).failed()
                    &&& final(self).failed().last().0 == chunk
                    &&& final(self).failed().last().1@ == message_text(e)
                    &&& r is None
                },
            },
    {
        broadcast use vstd::seq_lib::group_to_multiset_ensures;

        let ghost at = chunk.address@;
        assert(self.awaited_bag().len() > 0);
        self.awaited = self.awaited - 1;
        self.awaited_bag = Ghost(self.awaited_bag@.remove(at));
        match result {
            Ok(name) => {
                self.stored.push(name);
                proof {
                    assert(address_views(self.stored@) =~= address_views(old(self).stored@).push(
                        name@,
                    ));
                    if name@ == at {
                        assert(self.addresses() =~= old(self).addresses());
                    }
                }
                Some(
                    UploadEvent::ChunkStored {
                        stored: self.stored_before + self.stored.len(),
                        total: self.total_chunks,
                    },
                )
            },
            Err(e) => {
                let ghost before = self.failed@;
                self.failed.push((chunk, e.message()));
                proof {
                    let was = failed_chunks(before).map_values(|c: PaidChunk| c.address@);
                    assert(self.failed@.drop_last() =~= before);
                    assert(failed_chunks(self.failed@).map_values(|c: PaidChunk| c.address@)
                        =~= was.push(at));
                    assert(self.addresses() =~= old(self).addresses());
                }
                None
            },
        }
    }

    /// Ends a round: without failures, or after the last retry, everything is
    /// settled; otherwise the chunks that failed are sent again.
    pub fn end_round(&mut self) -> (r: RoundEnd)
        requires
            old(self).wf(),
            old(self).awaited() == 0,
        ensures
            final(self).wf(),
            match r {
                RoundEnd::Done(result) => {
                    &&& old(self).failed().len() == 0 || old(self).attempt() == MAX_RETRIES
                    &&& result.stored@ == old(self).stored()
                    &&& result.failed@ == failed_entries(old(self).failed())
                    &&& result.stored@.len() + result.failed@.len() == old(self).submitted()
                    &&& address_bag(result.stored@).add(failed_bag(result.failed@)) == old(
                        self,
                    ).addresses()
                },
                RoundEnd::Retry { chunks, delay_ms } => {
                    &&& old(self).failed().len() > 0 && old(self).attempt() < MAX_RETRIES
                    &&& chunks@ == failed_chunks(old(self).failed())
                    &&& delay_ms == retry_delay_ms(old(self).attempt() + 1)
                    &&& final(self).submitted() == old(self).submitted()
                    &&& final(self).addresses() == old(self).addresses()
                    &&& final(self).awaited_bag() == paid_bag(chunks@)
                    &&& final(self).stored() == old(self).stored()
                    &&& final(self).failed().len() == 0
                    &&& final(self).awaited() == chunks@.len()
                    &&& final(self).attempt() == old(self).attempt() + 1
                    &&& final(self).stored_before() == old(self).stored_before()
                    &&& final(self).total_chunks() == old(self).total_chunks()
                },
            },
    {
        broadcast use vstd::seq_lib::group_to_multiset_ensures;

        assert(self.awaited_bag() =~= Multiset::empty());
        let mut failures: Vec<(PaidChunk, String)> = Vec::new();
        std::mem::swap(&mut failures, &mut self.failed);
        let ghost all = failures@;
        let n: usize = failures.len();
        if n == 0 || self.attempt == MAX_RETRIES {
            let mut failed: Vec<([u8; 32], String)> = Vec::new();
            let mut i: usize = 0;
            assert(all.skip(0) =~= all);
            assert(failed@ =~= failed_entries(all).take(0));
            while i < n
                invariant
                    i <= n,
                    n == all.len(),
                    failures@ == all.skip(i as int),
                    failed@ == failed_entries(all).take(i as int),
                decreases n - i,
            {
                let (chunk, reason) = failures.remove(0);
                proof {
                    assert((chunk, reason) == all[i as int]);
                    assert(failures@ =~= all.skip(i + 1));
                    assert(failed_entries(all).take(i + 1) =~= failed_entries(all).take(
                        i as int,
                    ).push((chunk.address, reason)));
                }
                failed.push((chunk.address, reason));
                i = i + 1;
            }
            assert(failed_entries(all).take(n as int) =~= failed_entries(all));
            let mut stored: Vec<[u8; 32]> = Vec::new();
            std::mem::swap(&mut stored, &mut self.stored);
            proof {
                assert(failed_entries(all).map_values(|f: ([u8; 32], String)| f.0@)
                    =~= failed_chunks(all).map_values(|c: PaidChunk| c.address@));
                assert(address_bag(stored@).add(failed_bag(failed@)) =~= old(self).addresses());
            }
            return RoundEnd::Done(WaveResult { stored, failed });
        }
        let mut chunks: Vec<PaidChunk> = Vec::new();
        let mut i: usize = 0;
        assert(all.skip(0) =~= all);
        assert(chunks@ =~= failed_chunks(all).take(0));
        while i < n
            invariant
                i <= n,
                n == all.len(),
                failures@ == all.skip(i as int),
                chunks@ == failed_chunks(all).take(i as int),
            decreases n - i,
        {
            let (chunk, _reason) = failures.remove(0);
            proof {
                assert(chunk == all[i as int].0);
                assert(failures@ =~= all.skip(i + 1));
                assert(failed_chunks(all).take(i + 1) =~= failed_chunks(all).take(i as int).push(
                    chunk,
                ));
            }
            chunks.push(chunk);
            i = i + 1;
        }
        assert(failed_chunks(all).take(n as int) =~= failed_chunks(all));
        let mut delay_ms: u64 = BASE_DELAY_MS;
        let mut k: u32 = 0;
        while k < self.attempt
            invariant
                k <= self.attempt,
                self.attempt < MAX_RETRIES,
                delay_ms == retry_delay_ms(k + 1),
                delay_ms <= 500 * (if k == 0 { 1int } else if k == 1 { 2int } else { 4int }),
            decreases self.attempt - k,
        {
            delay_ms = delay_ms * 2;
            k = k + 1;
        }
        self.attempt = self.attempt + 1;
        self.awaited = n;
        self.awaited_bag = Ghost(paid_bag(chunks@));
        proof {
            assert(paid_bag(chunks@).len() == chunks@.len());
            lemma_empty_bag(failed_chunks(self.failed@).map_values(|c: PaidChunk| c.address@));
            assert(self.addresses() =~= old(self).addresses());
        }
        RoundEnd::Retry { chunks, delay_ms }
    }
}

/// What is due are the entries that pay something, with the hash, the account and the
/// amount of each, in their order.
pub proof fn due_are_the_entries_that_pay(infos: Seq<QuotePaymentInfo>)
    ensures
        due_entries(infos) == infos.filter(
            |i: QuotePaymentInfo| i.amount.value() != 0,
        ).map_values(|i: QuotePaymentInfo| (i.quote_hash, i.rewards_address, i.amount)),
    decreases infos.len(),
{
    let pays = |i: QuotePaymentInfo| i.amount.value() != 0;
    let entry = |i: QuotePaymentInfo| (i.quote_hash, i.rewards_address, i.amount);
    reveal(Seq::filter);
    if infos.len() > 0 {
        due_are_the_entries_that_pay(infos.drop_last());
        let before = infos.drop_last().filter(pays);
        assert(before.push(infos.last()).map_values(entry) =~= before.map_values(entry).push(
            entry(infos.last()),
        ));
    }
    assert(due_entries(infos) =~= infos.filter(pays).map_values(entry));
}

/// What is due for two sets of chunks is what is due for the one, and behind it what is
/// due for the other; for one chunk it is what its payment holds.
pub proof fn chunks_are_due_one_by_one(a: Seq<PreparedChunk>, b: Seq<PreparedChunk>)
    ensures
        all_infos(a + b) == all_infos(a) + all_infos(b),
        forall|c: PreparedChunk| all_infos(#[trigger] seq![c]) == c.payment.quotes@,
        all_infos(Seq::empty()) == Seq::<QuotePaymentInfo>::empty(),
    decreases b.len(),
{
    if b.len() == 0 {
        assert(a + b =~= a);
        assert(all_infos(a) + all_infos(b) =~= all_infos(a));
    } else {
        assert((a + b).drop_last() =~= a + b.drop_last());
        chunks_are_due_one_by_one(a, b.drop_last());
        assert(all_infos(a + b) =~= all_infos(a) + all_infos(b));
    }
    assert forall|c: PreparedChunk| all_infos(#[trigger] seq![c]) == c.payment.quotes@ by {
        let none = Seq::<PreparedChunk>::empty();
        assert(seq![c].drop_last() =~= none);
        assert(seq![c].last() == c);
        assert(all_infos(none) =~= Seq::<QuotePaymentInfo>::empty());
        assert(all_infos(seq![c]) == all_infos(none) + c.payment.quotes@);
        assert(all_infos(seq![c]) =~= c.payment.quotes@);
    }
}

/// A chunk with a price adds exactly one entry to a payment intent, and to its total
/// three times the price of the quote that is paid.
pub proof fn chunk_adds_one_entry(
    chunks: Seq<PreparedChunk>,
    chunk: PreparedChunk,
    quotes: Seq<StoreQuote>,
)
    requires
        prepared_from(prepared_parts(chunk), quotes),
    ensures
        ({
            let paid = crate::data::client::selection::paid_median(quotes);
            let before = due_entries(all_infos(chunks));
            let after = due_entries(all_infos(chunks.push(chunk)));
            &&& due_total(all_infos(chunks.push(chunk))) == due_total(all_infos(chunks)) + 3
                * paid.3.value()
            &&& after.len() == before.len() + if paid.3.value() != 0 {
                1nat
            } else {
                0nat
            }
            &&& after.take(before.len() as int) == before
            &&& paid.3.value() != 0 ==> {
                &&& after.last().0@ == crate::protocol::quote_hash(paid.2@)
                &&& after.last().1 == paid.2.rewards_address
                &&& after.last().2.value() == 3 * paid.3.value()
            }
        }),
{
    let p = prepared_parts(chunk);
    let infos = chunk.payment.quotes@;
    let base = all_infos(chunks);
    let at = crate::protocol::CLOSE_GROUP_SIZE as int / 2;
    crate::data::client::payment::one_issuer_is_paid(p, quotes);
    assert(chunks.push(chunk).drop_last() =~= chunks);
    crate::data::client::payment::amounts_add_up(base, infos);
    lemma_due_of_one(base, infos, at, infos.len() as int);
    assert(infos.take(infos.len() as int) =~= infos);
    lemma_sum_of_one(infos, at, infos.len() as int);
}

proof fn lemma_due_of_one(
    base: Seq<QuotePaymentInfo>,
    infos: Seq<QuotePaymentInfo>,
    at: int,
    n: int,
)
    requires
        0 <= at < infos.len(),
        0 <= n <= infos.len(),
        forall|i: int|
            0 <= i < infos.len() && i != at ==> (#[trigger] infos[i]).amount.value() == 0,
    ensures
        due_entries(base + infos.take(n)) == if at < n && infos[at].amount.value() != 0 {
            due_entries(base).push(entry_of(infos[at]))
        } else {
            due_entries(base)
        },
    decreases n,
{
    if n == 0 {
        assert(base + infos.take(0) =~= base);
    } else {
        lemma_due_of_one(base, infos, at, n - 1);
        assert((base + infos.take(n)).drop_last() =~= base + infos.take(n - 1));
        assert((base + infos.take(n)).last() == infos[n - 1]);
    }
}

proof fn lemma_sum_of_one(infos: Seq<QuotePaymentInfo>, at: int, n: int)
    requires
        0 <= at < infos.len(),
        0 <= n <= infos.len(),
        forall|i: int|
            0 <= i < infos.len() && i != at ==> (#[trigger] infos[i]).amount.value() == 0,
    ensures
        due_total(infos.take(n)) == if at < n {
            infos[at].amount.value()
        } else {
            0
        },
    decreases n,
{
    if n > 0 {
        lemma_sum_of_one(infos, at, n - 1);
        assert(infos.take(n).drop_last() =~= infos.take(n - 1));
        assert(infos.take(n).last() == infos[n - 1]);
    }
}

/// A receipt is missing exactly where something is to be paid and no receipt of it was
/// handed in, and the one that is named is the first. The receipts of a chunk are those
/// of the entries that pay something, in their order.
pub proof fn every_payment_needs_its_receipt(
    infos: Seq<QuotePaymentInfo>,
    receipts: Map<Seq<u8>, [u8; 32]>,
)
    ensures
        match first_missing(infos, receipts) {
            None => forall|i: int|
                0 <= i < infos.len() && (#[trigger] infos[i]).amount.value() != 0
                    ==> receipts.dom().contains(infos[i].quote_hash@),
            Some(h) => exists|i: int|
                {
                    &&& 0 <= i < infos.len()
                    &&& (#[trigger] infos[i]).quote_hash@ == h
                    &&& infos[i].amount.value() != 0
                    &&& !receipts.dom().contains(h)
                    &&& forall|k: int|
                        0 <= k < i && (#[trigger] infos[k]).amount.value() != 0
                            ==> receipts.dom().contains(infos[k].quote_hash@)
                },
        },
        receipt_list(infos, receipts) == infos.filter(
            |i: QuotePaymentInfo| i.amount.value() != 0,
        ).map_values(|i: QuotePaymentInfo| receipts[i.quote_hash@]@),
    decreases infos.len(),
{
    let pays = |i: QuotePaymentInfo| i.amount.value() != 0;
    let receipt = |i: QuotePaymentInfo| receipts[i.quote_hash@]@;
    reveal(Seq::filter);
    if infos.len() > 0 {
        let t = infos.drop_last();
        let n = infos.len() - 1;
        every_payment_needs_its_receipt(t, receipts);
        let before = t.filter(pays);
        assert(before.push(infos.last()).map_values(receipt) =~= before.map_values(receipt).push(
            receipt(infos.last()),
        ));
        assert(forall|k: int| 0 <= k < t.len() ==> t[k] == infos[k]);
        assert(infos[n] == infos.last());
        match first_missing(t, receipts) {
            Some(h) => {
                let i = choose|i: int|
                    {
                        &&& 0 <= i < t.len()
                        &&& (#[trigger] t[i]).quote_hash@ == h
                        &&& t[i].amount.value() != 0
                        &&& !receipts.dom().contains(h)
                        &&& forall|k: int|
                            0 <= k < i && (#[trigger] t[k]).amount.value() != 0
                                ==> receipts.dom().contains(t[k].quote_hash@)
                    };
                assert(infos[i].quote_hash@ == h);
                assert forall|k: int|
                    0 <= k < i && (#[trigger] infos[k]).amount.value()
                        != 0 implies receipts.dom().contains(infos[k].quote_hash@) by {
                    assert(t[k] == infos[k]);
                }
            },
            None => {
                assert forall|k: int|
                    0 <= k < n && (#[trigger] infos[k]).amount.value()
                        != 0 implies receipts.dom().contains(infos[k].quote_hash@) by {
                    assert(t[k] == infos[k]);
                }
                if first_missing(infos, receipts) is Some {
                    assert(infos[n].amount.value() != 0);
                }
            },
        }
    }
    assert(receipt_list(infos, receipts) =~= infos.filter(pays).map_values(receipt));
}

/// The first chunk of each address is the one that is kept.
pub proof fn first_chunk_of_each_is_kept(chunks: Seq<Vec<u8>>, more: Seq<Vec<u8>>)
    ensures
        unique_chunks(chunks).len() <= unique_chunks(chunks + more).len(),
        unique_chunks(chunks + more).take(unique_chunks(chunks).len() as int) == unique_chunks(
            chunks,
        ),
    decreases more.len(),
{
    let u = unique_chunks(chunks);
    if more.len() == 0 {
        assert(chunks + more =~= chunks);
        assert(u.take(u.len() as int) =~= u);
    } else {
        first_chunk_of_each_is_kept(chunks, more.drop_last());
        assert((chunks + more).drop_last() =~= chunks + more.drop_last());
        let v = unique_chunks(chunks + more.drop_last());
        let w = unique_chunks(chunks + more);
        assert(w.take(u.len() as int) =~= v.take(u.len() as int));
    }
}

/// Each wait before a retry is twice as long as the one before.
pub proof fn waits_double(attempt: int)
    requires
        attempt >= 1,
    ensures
        retry_delay_ms(1) == BASE_DELAY_MS,
        retry_delay_ms(attempt + 1) == 2 * retry_delay_ms(attempt),
{
}

/// A paid chunk is the chunk that was prepared, for the same peers, with a proof of the
/// kind that single payments have.
pub proof fn paid_chunk_is_the_prepared_one(
    paid: PaidChunk,
    chunk: PreparedChunk,
    receipts: Map<Seq<u8>, [u8; 32]>,
)
    requires
        is_paid_version(paid, chunk, receipts),
    ensures
        paid.content@ == chunk.content@,
        paid.address@ == chunk.address@,
        paid.quoted_peers@ == chunk.quoted_peers@,
        paid.proof_bytes@.len() > 0,
        paid.proof_bytes@[0] == PROOF_TAG_SINGLE_NODE,
{
}

/// Waves hold as many chunks as all of them do together.
pub proof fn waves_are_counted_by_their_chunks(
    a: Seq<Vec<Vec<u8>>>,
    b: Seq<Vec<Vec<u8>>>,
    wave: Vec<Vec<u8>>,
)
    ensures
        wave_total(Seq::empty()) == 0,
        wave_total(seq![wave]) == wave@.len(),
        wave_total(a + b) == wave_total(a) + wave_total(b),
    decreases b.len(),
{
    let none = Seq::<Vec<Vec<u8>>>::empty();
    assert(seq![wave].drop_last() =~= none);
    assert(seq![wave].last() == wave);
    assert(wave_total(none) == 0);
    if b.len() == 0 {
        assert(a + b =~= a);
    } else {
        waves_are_counted_by_their_chunks(a, b.drop_last(), wave);
        assert((a + b).drop_last() =~= a + b.drop_last());
        assert((a + b).last() == b.last());
    }
}

} // verus!
