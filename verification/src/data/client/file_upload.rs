//! Uploading a file that was encrypted to disk: how it is paid for, and the
//! waves in which it is stored.

use vstd::prelude::*;
use vstd::string::*;

use crate::chunked::{lower, part, part_count, parts_make_the_whole};
use crate::collections::{address_views, AddressMap, AddressSet};
use crate::data::client::batch::copy_addresses;
use crate::data::client::cost::UPLOAD_WAVE_SIZE;
use crate::data::client::file::UploadEvent;
use crate::data::client::file_download::{DEFERRED_ROUNDS, DEFERRED_ROUND_DELAYS_SECS};
use crate::data::client::merkle::{
    merkle_applies, should_use_merkle, stated_cost, MerkleBatchPaymentResult, MerkleUploadPlan,
    PaymentMode,
};
use crate::data::client::merkle_pool::{byte_map, proof_map};
use crate::data::client::merkle_store::{
    capped_sum, counts_each_once, failure_addresses, merged_stats_count_each_once, missing_proof_message, missing_proof_text, no_attempts,
    outcome_of, summed_slots, MerkleRoundEnd, MerkleStoreOutcome, MerkleStoreRun,
    WaveAggregateStats,
};
use crate::data::error::{joined, message_text, Error};
use crate::protocol::{format_amount, parse_amount};
use crate::text::{decimal_text, push_decimal};
use crate::uint256::{two128, Amount, U256};

verus! {

/// Whether a receipt has a proof for each of the addresses.
pub open spec fn covers(proofs: Map<Seq<u8>, Vec<u8>>, addresses: Seq<[u8; 32]>) -> bool {
    forall|i: int|
        0 <= i < addresses.len() ==> proofs.dom().contains((#[trigger] addresses[i])@)
}

/// Whether a receipt from an earlier run has a proof for each of the addresses.
/// Proofs beyond those do no harm.
pub fn cached_merkle_covers_addresses(
    cached: &MerkleBatchPaymentResult,
    addresses: &Vec<[u8; 32]>,
) -> (r: bool)
    ensures
        r == covers(cached.proofs@, addresses@),
{
    let mut i: usize = 0;
    while i < addresses.len()
        invariant
            i <= addresses.len(),
            forall|k: int|
                0 <= k < i ==> cached.proofs@.dom().contains((#[trigger] addresses@[k])@),
        decreases addresses.len() - i,
    {
        if !cached.proofs.contains_key(&addresses[i]) {
            assert(!cached.proofs@.dom().contains(addresses@[i as int]@));
            return false;
        }
        i = i + 1;
    }
    true
}

/// The addresses with a proof (`wanted` true) or without one (`wanted` false),
/// in order.
pub open spec fn with_proof(
    addresses: Seq<[u8; 32]>,
    proofs: Map<Seq<u8>, Vec<u8>>,
    wanted: bool,
) -> Seq<[u8; 32]>
    decreases addresses.len(),
{
    if addresses.len() == 0 {
        Seq::empty()
    } else if proofs.dom().contains(addresses.last()@) == wanted {
        with_proof(addresses.drop_last(), proofs, wanted).push(addresses.last())
    } else {
        with_proof(addresses.drop_last(), proofs, wanted)
    }
}

proof fn lemma_proof_map_names_all(
    tree: ant_protocol::evm::MerkleTree,
    addresses: Seq<[u8; 32]>,
    pool: ant_protocol::evm::MerklePaymentCandidatePool,
)
    ensures
        forall|i: int|
            0 <= i < addresses.len() ==> proof_map(tree, addresses, pool).dom().contains(
                (#[trigger] addresses[i])@,
            ),
    decreases addresses.len(),
{
    if addresses.len() > 0 {
        let rest = addresses.drop_last();
        lemma_proof_map_names_all(tree, rest, pool);
        assert forall|i: int| 0 <= i < addresses.len() implies proof_map(
            tree,
            addresses,
            pool,
        ).dom().contains((#[trigger] addresses[i])@) by {
            if i < rest.len() {
                assert(rest[i] == addresses[i]);
            }
        }
    }
}

/// The receipt of a batch has a proof for each of the batch's chunks, so that
/// none is left without.
pub proof fn receipt_covers_its_batch(
    proofs: Map<Seq<u8>, Vec<u8>>,
    tree: ant_protocol::evm::MerkleTree,
    addresses: Seq<[u8; 32]>,
    pool: ant_protocol::evm::MerklePaymentCandidatePool,
)
    requires
        byte_map(proofs) == proof_map(tree, addresses, pool),
    ensures
        covers(proofs, addresses),
        with_proof(addresses, proofs, false).len() == 0,
{
    lemma_proof_map_names_all(tree, addresses, pool);
    assert forall|i: int| 0 <= i < addresses.len() implies proofs.dom().contains(
        (#[trigger] addresses[i])@,
    ) by {
        assert(byte_map(proofs).dom().contains(addresses[i]@));
    }
    lemma_covered_lack_nothing(addresses, proofs);
}

proof fn lemma_covered_lack_nothing(addresses: Seq<[u8; 32]>, proofs: Map<Seq<u8>, Vec<u8>>)
    requires
        covers(proofs, addresses),
    ensures
        with_proof(addresses, proofs, false).len() == 0,
    decreases addresses.len(),
{
    if addresses.len() > 0 {
        let rest = addresses.drop_last();
        assert(addresses[addresses.len() - 1] == addresses.last());
        assert(forall|i: int| 0 <= i < rest.len() ==> rest[i] == addresses[i]);
        lemma_covered_lack_nothing(rest, proofs);
    }
}

/// A receipt that takes in the receipts of two batches covers the chunks of
/// both.
pub proof fn joint_receipt_covers_both(
    earlier: Map<Seq<u8>, Vec<u8>>,
    later: Map<Seq<u8>, Vec<u8>>,
    first: Seq<[u8; 32]>,
    second: Seq<[u8; 32]>,
)
    requires
        covers(earlier, first),
        covers(later, second),
    ensures
        covers(earlier.union_prefer_right(later), first),
        covers(earlier.union_prefer_right(later), second),
{
}

/// Chunks are covered once each of the batches that they are cut into is.
pub proof fn covered_batches_cover_all(
    proofs: Map<Seq<u8>, Vec<u8>>,
    addresses: Seq<[u8; 32]>,
    size: int,
)
    requires
        size > 0,
        forall|b: int|
            0 <= b < part_count(addresses.len() as int, size) ==> covers(
                proofs,
                #[trigger] part(addresses, size, b),
            ),
    ensures
        covers(proofs, addresses),
{
    assert forall|i: int| 0 <= i < addresses.len() implies proofs.dom().contains(
        (#[trigger] addresses[i])@,
    ) by {
        parts_make_the_whole(addresses, size, i);
        let batch = part(addresses, size, i / size);
        assert(covers(proofs, batch));
        assert(proofs.dom().contains(batch[i % size]@));
    }
}

/// Split `addresses` into those that have a merkle proof in `proofs`, and those
/// that don't.
///
/// The receipt of a payment that failed half-way has proofs only for what was
/// paid; the other chunks are reported as failed. The order within each group
/// follows `addresses`.
pub fn partition_addresses_by_proof(
    addresses: &Vec<[u8; 32]>,
    proofs: &AddressMap<Vec<u8>>,
) -> (r: (Vec<[u8; 32]>, Vec<[u8; 32]>))
    ensures
        r.0@ == with_proof(addresses@, proofs@, true),
        r.1@ == with_proof(addresses@, proofs@, false),
        r.0@.len() + r.1@.len() == addresses@.len(),
{
    let mut to_store: Vec<[u8; 32]> = Vec::new();
    let mut missing: Vec<[u8; 32]> = Vec::new();
    let ghost all = addresses@;
    let mut i: usize = 0;
    assert(all.take(0) =~= Seq::empty());
    while i < addresses.len()
        invariant
            i <= addresses.len(),
            all == addresses@,
            to_store@ == with_proof(all.take(i as int), proofs@, true),
            missing@ == with_proof(all.take(i as int), proofs@, false),
            to_store@.len() + missing@.len() == i,
        decreases addresses.len() - i,
    {
        let address: [u8; 32] = addresses[i];
        proof {
            assert(all.take(i + 1).drop_last() =~= all.take(i as int));
            assert(all.take(i + 1).last() == address);
        }
        if proofs.contains_key(&address) {
            to_store.push(address);
        } else {
            missing.push(address);
        }
        i = i + 1;
    }
    assert(all.take(i as int) =~= all);
    (to_store, missing)
}

/// A list of failures that names each address once: the first reason counts,
/// and addresses that are stored are left out.
pub open spec fn failures_once(
    list: Seq<(Seq<u8>, Seq<char>)>,
    stored: Seq<Seq<u8>>,
) -> Seq<(Seq<u8>, Seq<char>)>
    decreases list.len(),
{
    if list.len() == 0 {
        Seq::empty()
    } else {
        let rest = failures_once(list.drop_last(), stored);
        let a = list.last().0;
        if stored.contains(a) || named(rest, a) {
            rest
        } else {
            rest.push(list.last())
        }
    }
}

/// Whether a list of failures names an address.
pub open spec fn named(list: Seq<(Seq<u8>, Seq<char>)>, address: Seq<u8>) -> bool {
    exists|i: int| 0 <= i < list.len() && (#[trigger] list[i]).0 == address
}

/// A list of failures by its contents.
pub open spec fn failure_views(list: Seq<([u8; 32], String)>) -> Seq<(Seq<u8>, Seq<char>)> {
    list.map_values(|f: ([u8; 32], String)| (f.0@, f.1@))
}

/// Each address with the same reason.
pub open spec fn blamed(addresses: Seq<[u8; 32]>, reason: Seq<char>) -> Seq<
    (Seq<u8>, Seq<char>),
> {
    addresses.map_values(|a: [u8; 32]| (a@, reason))
}

/// The failures to report after an upload was aborted: known ones with their
/// own reasons, then every other chunk that is not stored with the reason of
/// the abort.
pub open spec fn failures_after_fatal(
    addresses: Seq<[u8; 32]>,
    stored: Seq<[u8; 32]>,
    known_failed: Seq<([u8; 32], String)>,
    reason: Seq<char>,
) -> Seq<(Seq<u8>, Seq<char>)> {
    failures_once(failure_views(known_failed) + blamed(addresses, reason), address_views(stored))
}

/// Adds a failure where its address is neither stored nor named yet.
fn add_failure(
    failed: &mut Vec<([u8; 32], String)>,
    named_set: &mut AddressSet,
    stored: &AddressSet,
    address: [u8; 32],
    reason: String,
)
    requires
        forall|a: Seq<u8>|
            #[trigger] old(named_set)@.contains(a) <==> named(failure_views(old(failed)@), a),
    ensures
        forall|a: Seq<u8>|
            #[trigger] final(named_set)@.contains(a) <==> named(failure_views(final(failed)@), a),
        failure_views(final(failed)@) == if stored@.contains(address@) || named(
            failure_views(old(failed)@),
            address@,
        ) {
            failure_views(old(failed)@)
        } else {
            failure_views(old(failed)@).push((address@, reason@))
        },
{
    if stored.contains(&address) {
        return;
    }
    if named_set.contains(&address) {
        return;
    }
    let ghost before = failed@;
    let ghost text = reason@;
    failed.push((address, reason));
    let _ = named_set.insert(address);
    proof {
        let old_list = failure_views(before);
        let list = failure_views(failed@);
        assert(list =~= old_list.push((address@, text)));
        assert forall|a: Seq<u8>| #[trigger] named_set@.contains(a) <==> named(list, a) by {
            assert(list[before.len() as int].0 == address@);
            if named(old_list, a) {
                let k = choose|k: int| 0 <= k < old_list.len() && (#[trigger] old_list[k]).0 == a;
                assert(list[k].0 == a);
            }
            if named(list, a) {
                let k = choose|k: int| 0 <= k < list.len() && (#[trigger] list[k]).0 == a;
                if k < before.len() {
                    assert(old_list[k].0 == a);
                }
            }
        }
    }
}

/// Build a `PartialUpload` after a fatal merkle store error, with accurate
/// counts: every chunk that is not stored is reported as failed, with the reason
/// known for it, or else that of the abort.
pub fn partial_upload_after_fatal(
    addresses: &Vec<[u8; 32]>,
    stored_addresses: Vec<[u8; 32]>,
    stored_count: usize,
    total_chunks: usize,
    known_failed: Vec<([u8; 32], String)>,
    reason: String,
) -> (r: Error)
    ensures
        r matches Error::PartialUpload {
            stored,
            stored_count: count,
            failed,
            failed_count,
            total_chunks: total,
            reason: why,
        } && {
            &&& stored@ == stored_addresses@
            &&& count == stored_count
            &&& failure_views(failed@) == failures_after_fatal(
                addresses@,
                stored_addresses@,
                known_failed@,
                reason@,
            )
            &&& failed_count == failed@.len()
            &&& total == total_chunks
            &&& why@ == reason@
        },
{
    let ghost stored_views = address_views(stored_addresses@);
    let mut stored_set = AddressSet::new();
    let mut i: usize = 0;
    while i < stored_addresses.len()
        invariant
            i <= stored_addresses.len(),
            stored_views == address_views(stored_addresses@),
            forall|a: Seq<u8>|
                #[trigger] stored_set@.contains(a) <==> stored_views.take(i as int).contains(a),
        decreases stored_addresses.len() - i,
    {
        let ghost before = stored_set@;
        let _ = stored_set.insert(stored_addresses[i]);
        proof {
            let now = stored_views.take(i as int);
            let next = stored_views.take(i + 1);
            let added = stored_addresses@[i as int]@;
            assert(next =~= now.push(added));
            assert forall|a: Seq<u8>| #[trigger] stored_set@.contains(a) <==> next.contains(a) by {
                assert(next[i as int] == added);
                if now.contains(a) {
                    assert(before.contains(a));
                    let k = choose|k: int| 0 <= k < now.len() && now[k] == a;
                    assert(next[k] == a);
                }
                if next.contains(a) {
                    let k = choose|k: int| 0 <= k < next.len() && next[k] == a;
                    if k < i {
                        assert(now[k] == a);
                        assert(now.contains(a));
                        assert(before.contains(a));
                    }
                }
            }
        }
        i = i + 1;
    }
    assert(stored_views.take(i as int) =~= stored_views);
    let ghost known = failure_views(known_failed@);
    let ghost whole = known + blamed(addresses@, reason@);
    let ghost all_known = known_failed@;
    let mut rest = known_failed;
    let n: usize = rest.len();
    let mut failed: Vec<([u8; 32], String)> = Vec::new();
    let mut named_set = AddressSet::new();
    let mut j: usize = 0;
    assert(all_known.skip(0) =~= all_known);
    assert(failure_views(failed@) =~= Seq::empty());
    assert(whole.take(0) =~= Seq::empty());
    while j < n
        invariant
            j <= n,
            n == all_known.len(),
            rest@ == all_known.skip(j as int),
            known == failure_views(all_known),
            whole == known + blamed(addresses@, reason@),
            forall|a: Seq<u8>|
                #[trigger] stored_set@.contains(a) <==> stored_views.contains(a),
            forall|a: Seq<u8>|
                #[trigger] named_set@.contains(a) <==> named(failure_views(failed@), a),
            failure_views(failed@) == failures_once(whole.take(j as int), stored_views),
        decreases n - j,
    {
        let (address, why) = rest.remove(0);
        proof {
            assert((address, why) == all_known[j as int]);
            assert(rest@ =~= all_known.skip(j + 1));
            assert(whole.take(j + 1).drop_last() =~= whole.take(j as int));
            assert(whole.take(j + 1).last() == (address@, why@));
        }
        add_failure(&mut failed, &mut named_set, &stored_set, address, why);
        j = j + 1;
    }
    let mut k: usize = 0;
    assert(n == known.len());
    while k < addresses.len()
        invariant
            k <= addresses.len(),
            n == known.len(),
            whole == known + blamed(addresses@, reason@),
            forall|a: Seq<u8>|
                #[trigger] stored_set@.contains(a) <==> stored_views.contains(a),
            forall|a: Seq<u8>|
                #[trigger] named_set@.contains(a) <==> named(failure_views(failed@), a),
            failure_views(failed@) == failures_once(whole.take(n + k), stored_views),
        decreases addresses.len() - k,
    {
        let address: [u8; 32] = addresses[k];
        proof {
            assert(whole.take(n + k + 1).drop_last() =~= whole.take(n + k));
            assert(whole.take(n + k + 1).last() == (address@, reason@));
        }
        add_failure(&mut failed, &mut named_set, &stored_set, address, reason.as_str().to_owned());
        k = k + 1;
    }
    assert(whole.take(n + k) =~= whole);
    let failed_count: usize = failed.len();
    Error::PartialUpload {
        stored: stored_addresses,
        stored_count,
        failed,
        failed_count,
        total_chunks,
        reason,
    }
}

proof fn lemma_failures_once(list: Seq<(Seq<u8>, Seq<char>)>, stored: Seq<Seq<u8>>)
    ensures
        forall|i: int|
            0 <= i < list.len() ==> stored.contains((#[trigger] list[i]).0) || named(
                failures_once(list, stored),
                list[i].0,
            ),
        forall|i: int|
            0 <= i < failures_once(list, stored).len() ==> !stored.contains(
                (#[trigger] failures_once(list, stored)[i]).0,
            ),
        forall|i: int, j: int|
            0 <= i < j < failures_once(list, stored).len() ==> (#[trigger] failures_once(
                list,
                stored,
            )[i]).0 != (#[trigger] failures_once(list, stored)[j]).0,
        forall|i: int|
            0 <= i < failures_once(list, stored).len() ==> list.contains(
                #[trigger] failures_once(list, stored)[i],
            ),
    decreases list.len(),
{
    if list.len() > 0 {
        let shorter = list.drop_last();
        let rest = failures_once(shorter, stored);
        let whole = failures_once(list, stored);
        let a = list.last().0;
        lemma_failures_once(shorter, stored);
        assert forall|i: int| 0 <= i < list.len() implies stored.contains((#[trigger] list[i]).0)
            || named(whole, list[i].0) by {
            if i < shorter.len() {
                assert(shorter[i] == list[i]);
                if named(rest, list[i].0) {
                    let k = choose|k: int|
                        0 <= k < rest.len() && (#[trigger] rest[k]).0 == list[i].0;
                    assert(whole[k].0 == list[i].0);
                }
            } else if !stored.contains(a) {
                if named(rest, a) {
                    assert(whole == rest);
                } else {
                    assert(whole[rest.len() as int].0 == a);
                }
            }
        }
        assert forall|i: int| 0 <= i < whole.len() implies list.contains(#[trigger] whole[i]) by {
            if i < rest.len() {
                assert(whole[i] == rest[i]);
                let k = choose|k: int| 0 <= k < shorter.len() && shorter[k] == rest[i];
                assert(list[k] == rest[i]);
            } else {
                assert(list[list.len() - 1] == whole[i]);
            }
        }
    }
}

/// After an abort every chunk of the file is accounted for once: each one is
/// stored or reported as failed, none is both, and no chunk is reported twice.
pub proof fn aborted_upload_accounts_for_all(
    addresses: Seq<[u8; 32]>,
    stored: Seq<[u8; 32]>,
    known_failed: Seq<([u8; 32], String)>,
    reason: Seq<char>,
)
    ensures
        ({
            let failed = failures_after_fatal(addresses, stored, known_failed, reason);
            &&& forall|i: int|
                0 <= i < addresses.len() ==> address_views(stored).contains(
                    (#[trigger] addresses[i])@,
                ) || named(failed, addresses[i]@)
            &&& forall|i: int|
                0 <= i < failed.len() ==> !address_views(stored).contains((#[trigger] failed[i]).0)
            &&& forall|i: int, j: int|
                0 <= i < j < failed.len() ==> (#[trigger] failed[i]).0 != (#[trigger] failed[j]).0
        }),
{
    let list = failure_views(known_failed) + blamed(addresses, reason);
    lemma_failures_once(list, address_views(stored));
    let failed = failures_after_fatal(addresses, stored, known_failed, reason);
    assert forall|i: int| 0 <= i < addresses.len() implies address_views(stored).contains(
        (#[trigger] addresses[i])@,
    ) || named(failed, addresses[i]@) by {
        assert(list[known_failed.len() + i].0 == addresses[i]@);
    }
}

/// What to do after the check which chunks of a merkle upload are stored.
pub enum UploadStep {
    /// Nothing: all chunks are stored.
    AllStored,
    /// Store these chunks with the proofs of an earlier receipt.
    StoreCached { addresses: Vec<[u8; 32]>, already_stored: Vec<[u8; 32]> },
    /// Pay for these chunks one by one, in waves; `discard_receipt` where an
    /// earlier receipt is of no more use.
    PaySingle { addresses: Vec<[u8; 32]>, stored_before: usize, discard_receipt: bool },
    /// Pay for these chunks with a merkle tree.
    PayMerkle {
        addresses: Vec<[u8; 32]>,
        already_stored: Vec<[u8; 32]>,
        average_size: u64,
        discard_receipt: bool,
    },
}

/// Whether there is an earlier receipt with proofs for all the addresses.
pub open spec fn receipt_covers(
    cached: Option<&MerkleBatchPaymentResult>,
    addresses: Seq<[u8; 32]>,
) -> bool {
    cached matches Some(receipt) && covers(receipt.proofs@, addresses)
}

fn has_cover(cached: Option<&MerkleBatchPaymentResult>, addresses: &Vec<[u8; 32]>) -> (r: bool)
    ensures
        r == receipt_covers(cached, addresses@),
{
    match cached {
        Some(receipt) => cached_merkle_covers_addresses(receipt, addresses),
        None => false,
    }
}

/// How an upload goes on after the check which chunks are stored. An earlier
/// receipt is used wherever it covers what is left, so that nothing is paid
/// twice. Where the check finds too few peers, payment falls back to single
/// chunks, if the mode was left open.
pub fn after_preflight(
    plan: Result<MerkleUploadPlan, Error>,
    cached: Option<&MerkleBatchPaymentResult>,
    all: &Vec<[u8; 32]>,
    mode: PaymentMode,
) -> (r: Result<UploadStep, Error>)
    ensures
        match plan {
            Err(e) => if receipt_covers(cached, all@) {
                r matches Ok(UploadStep::StoreCached { addresses, already_stored })
                    && addresses@ == all@ && already_stored@.len() == 0
            } else if e is InsufficientPeers && mode == PaymentMode::Auto {
                r matches Ok(UploadStep::PaySingle { addresses, stored_before, discard_receipt })
                    && addresses@ == all@ && stored_before == 0 && !discard_receipt
            } else {
                r == Err::<UploadStep, Error>(e)
            },
            Ok(p) => if p.to_upload@.len() == 0 {
                r == Ok::<UploadStep, Error>(UploadStep::AllStored)
            } else if receipt_covers(cached, p.to_upload@) {
                r matches Ok(UploadStep::StoreCached { addresses, already_stored })
                    && addresses@ == p.to_upload@ && already_stored@ == p.already_stored@
            } else if !merkle_applies(p.to_upload@.len() as int, mode) {
                r matches Ok(UploadStep::PaySingle { addresses, stored_before, discard_receipt })
                    && addresses@ == p.to_upload@ && stored_before == p.already_stored@.len()
                    && discard_receipt == (cached is Some)
            } else {
                r matches Ok(UploadStep::PayMerkle {
                    addresses,
                    already_stored,
                    average_size,
                    discard_receipt,
                }) && addresses@ == p.to_upload@ && already_stored@ == p.already_stored@
                    && average_size == p.to_upload_total_bytes as int / p.to_upload@.len() as int
                    && discard_receipt == (cached is Some)
            },
        },
{
    let plan = match plan {
        Ok(p) => p,
        Err(e) => {
            if has_cover(cached, all) {
                return Ok(
                    UploadStep::StoreCached {
                        addresses: copy_addresses(all),
                        already_stored: Vec::new(),
                    },
                );
            }
            let too_few_peers = match &e {
                Error::InsufficientPeers(_) => true,
                _ => false,
            };
            if too_few_peers && mode == PaymentMode::Auto {
                return Ok(
                    UploadStep::PaySingle {
                        addresses: copy_addresses(all),
                        stored_before: 0,
                        discard_receipt: false,
                    },
                );
            }
            return Err(e);
        },
    };
    let average_size: u64 = plan.to_upload_avg_size();
    let MerkleUploadPlan { already_stored, to_upload, to_upload_total_bytes: _ } = plan;
    if to_upload.len() == 0 {
        return Ok(UploadStep::AllStored);
    }
    if has_cover(cached, &to_upload) {
        return Ok(UploadStep::StoreCached { addresses: to_upload, already_stored });
    }
    let discard_receipt = cached.is_some();
    if !should_use_merkle(to_upload.len(), mode) {
        let stored_before: usize = already_stored.len();
        return Ok(UploadStep::PaySingle { addresses: to_upload, stored_before, discard_receipt });
    }
    Ok(
        UploadStep::PayMerkle {
            addresses: to_upload,
            already_stored,
            average_size,
            discard_receipt,
        },
    )
}

/// How an upload goes on after its merkle payment.
pub enum PaymentOutcome {
    /// Store the chunks with the proofs of this receipt, which is kept until
    /// they are stored.
    Store(MerkleBatchPaymentResult),
    /// Pay for the chunks one by one instead.
    PaySingle,
}

/// How an upload goes on after its merkle payment: with too few peers, and the
/// mode left open, it falls back to single payments.
pub fn after_payment(result: Result<MerkleBatchPaymentResult, Error>, mode: PaymentMode) -> (r:
    Result<PaymentOutcome, Error>)
    ensures
        match result {
            Ok(receipt) => r == Ok::<PaymentOutcome, Error>(PaymentOutcome::Store(receipt)),
            Err(e) => if e is InsufficientPeers && mode == PaymentMode::Auto {
                r == Ok::<PaymentOutcome, Error>(PaymentOutcome::PaySingle)
            } else {
                r == Err::<PaymentOutcome, Error>(e)
            },
        },
{
    match result {
        Ok(receipt) => Ok(PaymentOutcome::Store(receipt)),
        Err(e) => {
            let too_few_peers = match &e {
                Error::InsufficientPeers(_) => true,
                _ => false,
            };
            if too_few_peers && mode == PaymentMode::Auto {
                Ok(PaymentOutcome::PaySingle)
            } else {
                Err(e)
            }
        },
    }
}

/// What storing a file came to: chunks stored, storage cost, gas cost, and how
/// it went.
pub type UploadTotals = (usize, String, u128, WaveAggregateStats);

/// Cuts the next wave off a list.
fn cut_wave(rest: &mut Vec<[u8; 32]>) -> (r: Vec<[u8; 32]>)
    ensures
        r@ == part(old(rest)@, UPLOAD_WAVE_SIZE as int, 0),
        old(rest)@ == r@ + final(rest)@,
        r@.len() == lower(old(rest)@.len() as int, UPLOAD_WAVE_SIZE as int),
{
    let n: usize = if rest.len() <= UPLOAD_WAVE_SIZE {
        rest.len()
    } else {
        UPLOAD_WAVE_SIZE
    };
    let ghost before = rest@;
    let tail = rest.split_off(n);
    let mut wave: Vec<[u8; 32]> = tail;
    std::mem::swap(&mut wave, rest);
    assert(before =~= wave@ + rest@);
    assert(wave@ =~= part(before, UPLOAD_WAVE_SIZE as int, 0));
    wave
}

/// Uploading chunks with single payments, wave by wave.
pub struct SingleWaves {
    /// Chunks that no wave has taken up yet.
    pub rest: Vec<[u8; 32]>,
    /// Waves that were started.
    pub wave: usize,
    pub wave_count: usize,
    /// Chunks of the wave that is being uploaded.
    pub in_hand: usize,
    /// Chunks stored so far, with those stored before.
    pub total_stored: usize,
    /// Chunks of the whole file.
    pub total_chunks: usize,
    pub total_storage: Amount,
    pub total_gas: u128,
    pub stats: WaveAggregateStats,
}

impl SingleWaves {
    /// The waves that are left are those that the chunks that are left fill,
    /// and the chunks can be counted.
    pub open spec fn wf(&self) -> bool {
        &&& self.wave + part_count(self.rest@.len() as int, UPLOAD_WAVE_SIZE as int)
            == self.wave_count
        &&& self.destined() <= usize::MAX
    }

    /// Chunks that are stored in the end, where no wave fails.
    pub open spec fn destined(&self) -> int {
        self.total_stored + self.in_hand + self.rest@.len()
    }

    pub fn new(addresses: Vec<[u8; 32]>, stored_offset: usize, total_chunks: usize) -> (r:
        SingleWaves)
        requires
            addresses@.len() + UPLOAD_WAVE_SIZE <= usize::MAX,
            stored_offset + addresses@.len() <= usize::MAX,
        ensures
            r.wf(),
            r.rest@ == addresses@,
            r.wave == 0,
            r.wave_count == part_count(addresses@.len() as int, UPLOAD_WAVE_SIZE as int),
            r.in_hand == 0,
            r.total_stored == stored_offset,
            r.destined() == stored_offset + addresses@.len(),
            r.total_chunks == total_chunks,
            r.total_storage.value() == 0,
            r.total_gas == 0,
            no_attempts(r.stats),
    {
        let wave_count: usize = (addresses.len() + (UPLOAD_WAVE_SIZE - 1)) / UPLOAD_WAVE_SIZE;
        SingleWaves {
            rest: addresses,
            wave: 0,
            wave_count,
            in_hand: 0,
            total_stored: stored_offset,
            total_chunks,
            total_storage: U256::zero(),
            total_gas: 0,
            stats: WaveAggregateStats::new(),
        }
    }

    /// The next wave and the event that reports it; nothing after the last.
    pub fn next_wave(&mut self) -> (r: Option<(Vec<[u8; 32]>, UploadEvent)>)
        requires
            old(self).wf(),
            old(self).in_hand == 0,
        ensures
            final(self).wf(),
            final(self).destined() == old(self).destined(),
            final(self).wave_count == old(self).wave_count,
            final(self).total_stored == old(self).total_stored,
            final(self).total_chunks == old(self).total_chunks,
            final(self).total_storage == old(self).total_storage,
            final(self).total_gas == old(self).total_gas,
            final(self).stats == old(self).stats,
            match r {
                None => old(self).rest@.len() == 0 && old(self).wave == old(self).wave_count
                    && final(self).rest@ == old(self).rest@ && final(self).wave == old(self).wave
                    && final(self).in_hand == 0,
                Some((wave, event)) => {
                    &&& old(self).rest@.len() > 0
                    &&& wave@ == part(old(self).rest@, UPLOAD_WAVE_SIZE as int, 0)
                    &&& old(self).rest@ == wave@ + final(self).rest@
                    &&& final(self).in_hand == wave@.len()
                    &&& final(self).wave == old(self).wave + 1
                    &&& event == UploadEvent::QuotingChunks {
                        wave: final(self).wave,
                        total_waves: old(self).wave_count,
                        chunks_in_wave: wave.len(),
                    }
                },
            },
    {
        if self.rest.len() == 0 {
            return None;
        }
        let wave = cut_wave(&mut self.rest);
        self.in_hand = wave.len();
        self.wave = self.wave + 1;
        let event = UploadEvent::QuotingChunks {
            wave: self.wave,
            total_waves: self.wave_count,
            chunks_in_wave: wave.len(),
        };
        Some((wave, event))
    }

    /// Takes a wave into account that ended without an error: all of its chunks
    /// are stored.
    pub fn on_wave(
        &mut self,
        storage_cost_atto: &str,
        gas_cost_wei: u128,
        stats: WaveAggregateStats,
    ) -> (r: UploadEvent)
        requires
            old(self).wf(),
        ensures
            final(self).wf(),
            final(self).destined() == old(self).destined(),
            final(self).in_hand == 0,
            final(self).rest@ == old(self).rest@,
            final(self).wave == old(self).wave,
            final(self).wave_count == old(self).wave_count,
            final(self).total_chunks == old(self).total_chunks,
            final(self).total_stored == old(self).total_stored + old(self).in_hand,
            final(self).total_storage.value() == (old(self).total_storage.value() + stated_cost(
                storage_cost_atto@,
            )) % (two128() * two128()),
            final(self).total_gas == lower(
                old(self).total_gas + gas_cost_wei,
                u128::MAX as int,
            ),
            final(self).stats.chunk_attempts_total == capped_sum(
                old(self).stats.chunk_attempts_total,
                stats.chunk_attempts_total,
            ),
            final(self).stats.store_durations_ms@ == old(self).stats.store_durations_ms@
                + stats.store_durations_ms@,
            final(self).stats.retries_histogram@ == summed_slots(
                old(self).stats.retries_histogram@,
                stats.retries_histogram@,
            ),
            r == (UploadEvent::WaveComplete {
                wave: old(self).wave,
                total_waves: old(self).wave_count,
                stored_so_far: final(self).total_stored,
                total: old(self).total_chunks,
            }),
    {
        self.total_stored = self.total_stored + self.in_hand;
        self.in_hand = 0;
        match parse_amount(storage_cost_atto) {
            Some(cost) => {
                self.total_storage = self.total_storage.wrapping_sum(&cost);
            },
            None => {
                proof {
                    vstd::arithmetic::div_mod::lemma_small_mod(
                        self.total_storage.value(),
                        two128() * two128(),
                    );
                }
            },
        }
        self.total_gas = self.total_gas.saturating_add(gas_cost_wei);
        self.stats.merge(stats);
        UploadEvent::WaveComplete {
            wave: self.wave,
            total_waves: self.wave_count,
            stored_so_far: self.total_stored,
            total: self.total_chunks,
        }
    }

    /// The totals, after the last wave: all chunks are stored.
    pub fn finish(self) -> (r: UploadTotals)
        requires
            self.wf(),
            self.rest@.len() == 0,
            self.in_hand == 0,
        ensures
            r.0 == self.total_stored,
            r.0 == self.destined(),
            r.1@ == decimal_text(self.total_storage.value()),
            r.2 == self.total_gas,
            r.3 == self.stats,
    {
        let cost = format_amount(&self.total_storage);
        (self.total_stored, cost, self.total_gas, self.stats)
    }
}

/// Storing chunks with the proofs of a merkle receipt, wave by wave. A chunk
/// short of quorum holds up no wave: it is deferred until all waves are done.
pub struct MerkleWaves {
    /// The chunks to store, of the whole run.
    pub addresses: Vec<[u8; 32]>,
    /// Chunks that no wave has taken up yet.
    pub rest: Vec<[u8; 32]>,
    /// Waves that were started.
    pub wave: usize,
    pub wave_count: usize,
    /// Chunks of the wave, or of the deferred run, that is being stored.
    pub in_hand: usize,
    /// Chunks known to be stored.
    pub stored_addresses: Vec<[u8; 32]>,
    /// Number of chunks stored, with those stored before.
    pub total_stored: usize,
    /// Number of chunks stored before the run.
    pub stored_before: usize,
    /// Chunks of the whole file.
    pub total_chunks: usize,
    /// Chunks that cannot be stored, and why.
    pub failed: Vec<([u8; 32], String)>,
    /// Chunks short of quorum, to be tried again after the last wave.
    pub deferred: Vec<([u8; 32], String)>,
    pub stats: WaveAggregateStats,
}

/// The failures of chunks that were not paid for.
pub open spec fn unpaid_failures(addresses: Seq<[u8; 32]>) -> Seq<(Seq<u8>, Seq<char>)> {
    addresses.map_values(|a: [u8; 32]| (a@, missing_proof_text(a@)))
}

/// The message of an upload that a fatal error aborted.
pub open spec fn abort_text(e: Error) -> Seq<char> {
    "merkle chunk store aborted: "@ + message_text(e)
}

/// The message of an upload of which some chunks stay short of quorum.
pub open spec fn short_text(failed: nat, attempts: nat) -> Seq<char> {
    decimal_text(failed) + " chunk(s) short of quorum after "@ + decimal_text(attempts)
        + " attempts"@
}

pub(crate) fn short_message(failed: usize, attempts: usize) -> (r: String)
    ensures
        r@ == short_text(failed as nat, attempts as nat),
{
    let mut reason = String::new();
    push_decimal(&mut reason, failed as u128);
    reason.append(" chunk(s) short of quorum after ");
    push_decimal(&mut reason, attempts as u128);
    reason.append(" attempts");
    assert(reason@ =~= short_text(failed as nat, attempts as nat));
    reason
}

/// An aborted upload.
pub open spec fn is_aborted(
    e: Error,
    addresses: Seq<[u8; 32]>,
    stored: Seq<[u8; 32]>,
    stored_count: int,
    total_chunks: usize,
    known_failed: Seq<([u8; 32], String)>,
    reason: Seq<char>,
) -> bool {
    e matches Error::PartialUpload {
        stored: s,
        stored_count: count,
        failed,
        failed_count,
        total_chunks: total,
        reason: why,
    } && {
        &&& s@ == stored
        &&& count == stored_count
        &&& failure_views(failed@) == failures_after_fatal(addresses, stored, known_failed, reason)
        &&& failed_count == failed@.len()
        &&& total == total_chunks
        &&& why@ == reason
    }
}

/// Trying chunks again that were short of quorum in their wave, in rounds. Each
/// round starts after a delay and sends its chunks in groups, none larger than a
/// wave.
pub struct DeferredRetry {
    pub run: MerkleStoreRun,
    /// Chunks of this round that no group has taken up yet.
    pub rest: Vec<[u8; 32]>,
}

impl DeferredRetry {
    /// The run has the rounds of deferred retries, which follow the attempt of
    /// the wave.
    pub open spec fn wf(&self) -> bool {
        &&& self.run.wf()
        &&& self.run.rounds == DEFERRED_ROUNDS
        &&& self.run.first_attempt == 1
        &&& self.rest@.len() <= self.run.awaited
    }

    /// Seconds to wait before the current round.
    pub fn delay_secs(&self) -> (r: u64)
        requires
            self.wf(),
        ensures
            r == DEFERRED_ROUND_DELAYS_SECS[self.run.attempt as int],
    {
        DEFERRED_ROUND_DELAYS_SECS[self.run.attempt]
    }

    /// The next group of the round; nothing after the last, or once a fatal error
    /// has ended the run.
    pub fn next_group(&mut self) -> (r: Option<Vec<[u8; 32]>>)
        requires
            old(self).wf(),
        ensures
            final(self).wf(),
            final(self).run == old(self).run,
            match r {
                None => {
                    &&& old(self).rest@.len() == 0 || old(self).run.fatal is Some
                    &&& final(self).rest@ == old(self).rest@
                },
                Some(group) => {
                    &&& old(self).rest@.len() > 0
                    &&& old(self).run.fatal is None
                    &&& group@ == part(old(self).rest@, UPLOAD_WAVE_SIZE as int, 0)
                    &&& old(self).rest@ == group@ + final(self).rest@
                },
            },
    {
        if self.rest.len() == 0 || self.run.fatal.is_some() {
            return None;
        }
        Some(cut_wave(&mut self.rest))
    }

    /// Ends a round: whether another one follows, which sends the chunks that are
    /// still short of quorum.
    pub fn end_round(&mut self) -> (r: bool)
        requires
            old(self).wf(),
            old(self).run.fatal is None ==> old(self).run.awaited == 0,
        ensures
            final(self).wf(),
            r <==> old(self).run.fatal is None && old(self).run.short@.len() > 0
                && old(self).run.attempt + 1 < DEFERRED_ROUNDS,
            final(self).run.stored == old(self).run.stored,
            final(self).run.stored_addresses@ == old(self).run.stored_addresses@,
            final(self).run.fatal == old(self).run.fatal,
            final(self).run.stats == old(self).run.stats,
            final(self).run.total == old(self).run.total,
            final(self).run.chunks == old(self).run.chunks,
            final(self).run.stored_offset == old(self).run.stored_offset,
            if r {
                &&& final(self).rest@ == failure_addresses(old(self).run.short@)
                &&& final(self).run.short@.len() == 0
                &&& final(self).run.awaited == final(self).rest@.len()
                &&& final(self).run.attempt == old(self).run.attempt + 1
            } else {
                &&& final(self).rest@ == old(self).rest@
                &&& final(self).run.short@ == old(self).run.short@
                &&& final(self).run.awaited == old(self).run.awaited
                &&& final(self).run.attempt == old(self).run.attempt
            },
    {
        if self.run.fatal.is_some() {
            return false;
        }
        match self.run.end_round() {
            MerkleRoundEnd::Done => false,
            MerkleRoundEnd::Retry(addresses) => {
                self.rest = addresses;
                true
            },
        }
    }
}

impl MerkleWaves {
    /// Every chunk of the file is stored, failed, deferred, being stored, or
    /// waits for its wave. The statistics count each chunk that the run stored
    /// once.
    pub open spec fn wf(&self) -> bool {
        &&& self.total_stored + self.failed@.len() + self.deferred@.len() + self.in_hand
            + self.rest@.len() == self.total_chunks
        &&& self.stored_addresses@.len() == self.total_stored
        &&& self.stored_before <= self.total_stored
        &&& counts_each_once(self.stats, self.total_stored - self.stored_before)
        &&& self.wave + part_count(self.rest@.len() as int, UPLOAD_WAVE_SIZE as int)
            == self.wave_count
    }

    /// Starts with the chunks that have a proof; those without one have failed.
    pub fn new(
        addresses: Vec<[u8; 32]>,
        proofs: &AddressMap<Vec<u8>>,
        already_stored: Vec<[u8; 32]>,
    ) -> (r: MerkleWaves)
        requires
            addresses@.len() + already_stored@.len() + UPLOAD_WAVE_SIZE <= usize::MAX,
        ensures
            r.wf(),
            r.addresses@ == addresses@,
            r.rest@ == with_proof(addresses@, proofs@, true),
            r.wave == 0,
            r.in_hand == 0,
            r.stored_addresses@ == already_stored@,
            r.total_stored == already_stored@.len(),
            r.stored_before == already_stored@.len(),
            r.total_chunks == already_stored@.len() + addresses@.len(),
            failure_views(r.failed@) == unpaid_failures(
                with_proof(addresses@, proofs@, false),
            ),
            r.deferred@.len() == 0,
            no_attempts(r.stats),
    {
        let (rest, missing) = partition_addresses_by_proof(&addresses, proofs);
        let mut failed: Vec<([u8; 32], String)> = Vec::new();
        let ghost unpaid = unpaid_failures(missing@);
        let mut i: usize = 0;
        assert(failure_views(failed@) =~= unpaid.take(0));
        while i < missing.len()
            invariant
                i <= missing.len(),
                unpaid == unpaid_failures(missing@),
                failed@.len() == i,
                failure_views(failed@) == unpaid.take(i as int),
            decreases missing.len() - i,
        {
            let ghost before = failed@;
            let text = missing_proof_message(&missing[i]);
            let ghost t = text@;
            failed.push((missing[i], text));
            proof {
                assert(failure_views(failed@) =~= failure_views(before).push(
                    (missing@[i as int]@, t),
                ));
                assert(unpaid.take(i + 1) =~= unpaid.take(i as int).push(unpaid[i as int]));
            }
            i = i + 1;
        }
        assert(unpaid.take(i as int) =~= unpaid);
        let wave_count: usize = (rest.len() + (UPLOAD_WAVE_SIZE - 1)) / UPLOAD_WAVE_SIZE;
        let total_stored: usize = already_stored.len();
        let total_chunks: usize = total_stored + addresses.len();
        MerkleWaves {
            addresses,
            rest,
            wave: 0,
            wave_count,
            in_hand: 0,
            stored_addresses: already_stored,
            total_stored,
            stored_before: total_stored,
            total_chunks,
            failed,
            deferred: Vec::new(),
            stats: WaveAggregateStats::new(),
        }
    }

    /// The next wave; nothing after the last.
    pub fn next_wave(&mut self) -> (r: Option<Vec<[u8; 32]>>)
        requires
            old(self).wf(),
            old(self).in_hand == 0,
        ensures
            final(self).wf(),
            final(self).addresses == old(self).addresses,
            final(self).wave_count == old(self).wave_count,
            final(self).stored_addresses == old(self).stored_addresses,
            final(self).total_stored == old(self).total_stored,
            final(self).stored_before == old(self).stored_before,
            final(self).total_chunks == old(self).total_chunks,
            final(self).failed == old(self).failed,
            final(self).deferred == old(self).deferred,
            final(self).stats == old(self).stats,
            match r {
                None => old(self).rest@.len() == 0 && final(self).rest@.len() == 0 && final(
                    self).in_hand == 0 && final(self).wave == old(self).wave,
                Some(wave) => {
                    &&& old(self).rest@.len() > 0
                    &&& wave@ == part(old(self).rest@, UPLOAD_WAVE_SIZE as int, 0)
                    &&& old(self).rest@ == wave@ + final(self).rest@
                    &&& final(self).in_hand == wave@.len()
                    &&& final(self).wave == old(self).wave + 1
                },
            },
    {
        if self.rest.len() == 0 {
            return None;
        }
        let wave = cut_wave(&mut self.rest);
        self.in_hand = wave.len();
        self.wave = self.wave + 1;
        Some(wave)
    }

    /// The run that stores the wave in hand: each chunk is tried once.
    pub fn wave_run(&self) -> (r: MerkleStoreRun)
        requires
            self.wf(),
        ensures
            r.wf(),
            r.chunks == self.in_hand,
            r.awaited == self.in_hand,
            r.rounds == 1,
            r.first_attempt == 0,
            r.stored_offset == self.total_stored,
            r.total == self.total_chunks,
            r.attempt == 0,
            r.fatal is None,
            no_attempts(r.stats),
    {
        MerkleStoreRun::new(self.in_hand, 1, 0, self.total_stored, self.total_chunks)
    }

    /// The rounds that try the deferred chunks again.
    pub fn deferred_retry(&self, deferred: Vec<[u8; 32]>) -> (r: DeferredRetry)
        requires
            self.wf(),
            deferred@.len() == self.in_hand,
        ensures
            r.wf(),
            r.rest@ == deferred@,
            r.run.chunks == self.in_hand,
            r.run.awaited == self.in_hand,
            r.run.stored_offset == self.total_stored,
            r.run.total == self.total_chunks,
            r.run.attempt == 0,
            r.run.fatal is None,
            no_attempts(r.run.stats),
    {
        let run = MerkleStoreRun::new(
            deferred.len(),
            DEFERRED_ROUNDS,
            1,
            self.total_stored,
            self.total_chunks,
        );
        DeferredRetry { run, rest: deferred }
    }

    /// Takes the outcome of a run into account: stored chunks and counts are
    /// added in any case.
    fn absorb(
        &mut self,
        stored: usize,
        stored_addresses: Vec<[u8; 32]>,
        stats: WaveAggregateStats,
    )
        requires
            stored == old(self).total_stored + stored_addresses@.len(),
            stored_addresses@.len() <= old(self).in_hand,
            old(self).stored_before <= old(self).total_stored,
            counts_each_once(old(self).stats, old(self).total_stored - old(self).stored_before),
            counts_each_once(stats, stored_addresses@.len() as int),
        ensures
            counts_each_once(final(self).stats, stored - old(self).stored_before),
            final(self).stored_before == old(self).stored_before,
            final(self).addresses == old(self).addresses,
            final(self).rest == old(self).rest,
            final(self).wave == old(self).wave,
            final(self).wave_count == old(self).wave_count,
            final(self).in_hand == old(self).in_hand - stored_addresses@.len(),
            final(self).stored_addresses@ == old(self).stored_addresses@ + stored_addresses@,
            final(self).total_stored == stored,
            final(self).total_chunks == old(self).total_chunks,
            final(self).failed == old(self).failed,
            final(self).deferred == old(self).deferred,
            final(self).stats.chunk_attempts_total == capped_sum(
                old(self).stats.chunk_attempts_total,
                stats.chunk_attempts_total,
            ),
            final(self).stats.store_durations_ms@ == old(self).stats.store_durations_ms@
                + stats.store_durations_ms@,
            final(self).stats.retries_histogram@ == summed_slots(
                old(self).stats.retries_histogram@,
                stats.retries_histogram@,
            ),
    {
        let mut more = stored_addresses;
        self.in_hand = self.in_hand - more.len();
        self.stored_addresses.append(&mut more);
        self.total_stored = stored;
        let ghost before = self.stats;
        self.stats.merge(stats);
        proof {
            merged_stats_count_each_once(
                before,
                stats,
                self.stats,
                old(self).total_stored - self.stored_before,
                stored_addresses@.len() as int,
            );
        }
    }

    /// Takes the outcome of a wave into account: chunks short of quorum are
    /// deferred, a fatal error ends the upload. The event reports the wave.
    pub fn on_wave(&mut self, outcome: MerkleStoreOutcome) -> (r: Result<UploadEvent, Error>)
        requires
            old(self).wf(),
            outcome_of(outcome, old(self).total_stored as int, old(self).in_hand as int),
        ensures
            final(self).addresses == old(self).addresses,
            final(self).stored_before == old(self).stored_before,
            final(self).total_chunks == old(self).total_chunks,
            match outcome.fatal {
                None => {
                    &&& final(self).wf()
                    &&& final(self).rest == old(self).rest
                    &&& final(self).wave == old(self).wave
                    &&& final(self).wave_count == old(self).wave_count
                    &&& final(self).in_hand == 0
                    &&& final(self).stored_addresses@ == old(self).stored_addresses@
                        + outcome.stored_addresses@
                    &&& final(self).total_stored == outcome.stored
                    &&& final(self).failed == old(self).failed
                    &&& final(self).deferred@ == old(self).deferred@ + outcome.failed_addresses@
                    &&& final(self).stats.chunk_attempts_total == capped_sum(
                        old(self).stats.chunk_attempts_total,
                        outcome.stats.chunk_attempts_total,
                    )
                    &&& final(self).stats.store_durations_ms@ == old(self).stats.store_durations_ms@
                        + outcome.stats.store_durations_ms@
                    &&& final(self).stats.retries_histogram@ == summed_slots(
                        old(self).stats.retries_histogram@,
                        outcome.stats.retries_histogram@,
                    )
                    &&& r == Ok::<UploadEvent, Error>(
                        UploadEvent::WaveComplete {
                            wave: old(self).wave,
                            total_waves: old(self).wave_count,
                            stored_so_far: outcome.stored,
                            total: old(self).total_chunks,
                        },
                    )
                },
                Some(fatal) => r matches Err(e) && is_aborted(
                    e,
                    old(self).addresses@,
                    old(self).stored_addresses@ + outcome.stored_addresses@,
                    outcome.stored as int,
                    old(self).total_chunks,
                    old(self).failed@ + outcome.failed_addresses@ + old(self).deferred@,
                    abort_text(fatal),
                ),
            },
    {
        let MerkleStoreOutcome { stored, stored_addresses, failed_addresses, fatal, stats } =
            outcome;
        self.absorb(stored, stored_addresses, stats);
        let mut short = failed_addresses;
        match fatal {
            Some(e) => {
                let mut known: Vec<([u8; 32], String)> = Vec::new();
                std::mem::swap(&mut known, &mut self.failed);
                known.append(&mut short);
                known.append(&mut self.deferred);
                let reason = joined("merkle chunk store aborted: ", e.message().as_str());
                Err(
                    partial_upload_after_fatal(
                        &self.addresses,
                        copy_addresses(&self.stored_addresses),
                        self.total_stored,
                        self.total_chunks,
                        known,
                        reason,
                    ),
                )
            },
            None => {
                self.in_hand = 0;
                self.deferred.append(&mut short);
                Ok(
                    UploadEvent::WaveComplete {
                        wave: self.wave,
                        total_waves: self.wave_count,
                        stored_so_far: self.total_stored,
                        total: self.total_chunks,
                    },
                )
            },
        }
    }

    /// The chunks to try again after the last wave.
    pub fn take_deferred(&mut self) -> (r: Vec<[u8; 32]>)
        requires
            old(self).wf(),
            old(self).in_hand == 0,
        ensures
            final(self).wf(),
            r@ == failure_addresses(old(self).deferred@),
            final(self).addresses == old(self).addresses,
            final(self).rest == old(self).rest,
            final(self).wave == old(self).wave,
            final(self).wave_count == old(self).wave_count,
            final(self).in_hand == r@.len(),
            final(self).stored_addresses == old(self).stored_addresses,
            final(self).total_stored == old(self).total_stored,
            final(self).stored_before == old(self).stored_before,
            final(self).total_chunks == old(self).total_chunks,
            final(self).failed == old(self).failed,
            final(self).deferred@.len() == 0,
            final(self).stats == old(self).stats,
    {
        let mut list: Vec<[u8; 32]> = Vec::new();
        let mut i: usize = 0;
        let ghost all = self.deferred@;
        while i < self.deferred.len()
            invariant
                i <= self.deferred.len(),
                self.deferred@ == all,
                list@.len() == i,
                forall|k: int| 0 <= k < i ==> #[trigger] list@[k] == all[k].0,
            decreases self.deferred.len() - i,
        {
            list.push(self.deferred[i].0);
            i = i + 1;
        }
        assert(list@ =~= failure_addresses(all));
        self.in_hand = self.deferred.len();
        self.deferred = Vec::new();
        list
    }

    /// Takes the outcome of the deferred run into account: chunks still short
    /// of quorum have failed, a fatal error ends the upload.
    pub fn on_deferred(&mut self, outcome: MerkleStoreOutcome) -> (r: Result<(), Error>)
        requires
            old(self).wf(),
            old(self).deferred@.len() == 0,
            outcome_of(outcome, old(self).total_stored as int, old(self).in_hand as int),
        ensures
            final(self).addresses == old(self).addresses,
            final(self).stored_before == old(self).stored_before,
            final(self).total_chunks == old(self).total_chunks,
            match outcome.fatal {
                None => {
                    &&& r is Ok
                    &&& final(self).wf()
                    &&& final(self).rest == old(self).rest
                    &&& final(self).in_hand == 0
                    &&& final(self).deferred@.len() == 0
                    &&& final(self).stored_addresses@ == old(self).stored_addresses@
                        + outcome.stored_addresses@
                    &&& final(self).total_stored == outcome.stored
                    &&& final(self).failed@ == old(self).failed@ + outcome.failed_addresses@
                    &&& final(self).stats.chunk_attempts_total == capped_sum(
                        old(self).stats.chunk_attempts_total,
                        outcome.stats.chunk_attempts_total,
                    )
                    &&& final(self).stats.store_durations_ms@ == old(self).stats.store_durations_ms@
                        + outcome.stats.store_durations_ms@
                    &&& final(self).stats.retries_histogram@ == summed_slots(
                        old(self).stats.retries_histogram@,
                        outcome.stats.retries_histogram@,
                    )
                },
                Some(fatal) => r matches Err(e) && is_aborted(
                    e,
                    old(self).addresses@,
                    old(self).stored_addresses@ + outcome.stored_addresses@,
                    outcome.stored as int,
                    old(self).total_chunks,
                    old(self).failed@ + outcome.failed_addresses@,
                    abort_text(fatal),
                ),
            },
    {
        let MerkleStoreOutcome { stored, stored_addresses, failed_addresses, fatal, stats } =
            outcome;
        self.absorb(stored, stored_addresses, stats);
        let mut short = failed_addresses;
        match fatal {
            Some(e) => {
                let mut known: Vec<([u8; 32], String)> = Vec::new();
                std::mem::swap(&mut known, &mut self.failed);
                known.append(&mut short);
                let reason = joined("merkle chunk store aborted: ", e.message().as_str());
                Err(
                    partial_upload_after_fatal(
                        &self.addresses,
                        copy_addresses(&self.stored_addresses),
                        self.total_stored,
                        self.total_chunks,
                        known,
                        reason,
                    ),
                )
            },
            None => {
                self.in_hand = 0;
                self.failed.append(&mut short);
                Ok(())
            },
        }
    }

    /// The totals, once all waves and the deferred run are done. An upload
    /// succeeds only where every chunk of the file is stored.
    pub fn finish(self, storage_cost_atto: &str, gas_cost_wei: u128) -> (r: Result<
        UploadTotals,
        Error,
    >)
        requires
            self.wf(),
            self.rest@.len() == 0,
            self.in_hand == 0,
            self.deferred@.len() == 0,
        ensures
            match r {
                Ok((stored, cost, gas, stats)) => {
                    &&& self.failed@.len() == 0
                    &&& stored == self.total_stored
                    &&& stored == self.total_chunks
                    &&& cost@ == storage_cost_atto@
                    &&& gas == gas_cost_wei
                    &&& stats == self.stats
                    &&& counts_each_once(stats, stored - self.stored_before)
                },
                Err(e) => {
                    &&& self.failed@.len() > 0
                    &&& e matches Error::PartialUpload {
                        stored,
                        stored_count,
                        failed,
                        failed_count,
                        total_chunks,
                        reason,
                    } && {
                        &&& stored@ == self.stored_addresses@
                        &&& stored_count == self.total_stored
                        &&& failed@ == self.failed@
                        &&& failed_count == self.failed@.len()
                        &&& total_chunks == self.total_chunks
                        &&& stored_count + failed_count == total_chunks
                        &&& reason@ == short_text(self.failed@.len(), 1 + DEFERRED_ROUNDS as nat)
                    }
                },
            },
    {
        let failed_count: usize = self.failed.len();
        if failed_count > 0 {
            let reason = short_message(failed_count, 1 + DEFERRED_ROUNDS);
            return Err(
                Error::PartialUpload {
                    stored: self.stored_addresses,
                    stored_count: self.total_stored,
                    failed: self.failed,
                    failed_count,
                    total_chunks: self.total_chunks,
                    reason,
                },
            );
        }
        Ok((self.total_stored, storage_cost_atto.to_owned(), gas_cost_wei, self.stats))
    }
}

/// Chunks are parted by whether the receipt has a proof of them, in their order; the
/// receipt covers all of them exactly where none is left without.
pub proof fn chunks_are_parted_by_their_proofs(
    addresses: Seq<[u8; 32]>,
    proofs: Map<Seq<u8>, Vec<u8>>,
    wanted: bool,
)
    ensures
        with_proof(addresses, proofs, wanted) == addresses.filter(
            |a: [u8; 32]| proofs.dom().contains(a@) == wanted,
        ),
        covers(proofs, addresses) <==> addresses.filter(
            |a: [u8; 32]| !proofs.dom().contains(a@),
        ).len() == 0,
    decreases addresses.len(),
{
    let f = |a: [u8; 32]| proofs.dom().contains(a@) == wanted;
    let without = |a: [u8; 32]| !proofs.dom().contains(a@);
    lemma_with_proof_is_a_filter(addresses, proofs, wanted);
    if covers(proofs, addresses) {
        crate::order::lemma_few_in_front(addresses, without, 0);
    } else {
        let i = choose|i: int|
            0 <= i < addresses.len() && !proofs.dom().contains((#[trigger] addresses[i])@);
        addresses.lemma_filter_contains(without, i);
    }
}

proof fn lemma_with_proof_is_a_filter(
    addresses: Seq<[u8; 32]>,
    proofs: Map<Seq<u8>, Vec<u8>>,
    wanted: bool,
)
    ensures
        with_proof(addresses, proofs, wanted) == addresses.filter(
            |a: [u8; 32]| proofs.dom().contains(a@) == wanted,
        ),
    decreases addresses.len(),
{
    reveal(Seq::filter);
    if addresses.len() > 0 {
        lemma_with_proof_is_a_filter(addresses.drop_last(), proofs, wanted);
    }
    assert(with_proof(addresses, proofs, wanted) =~= addresses.filter(
        |a: [u8; 32]| proofs.dom().contains(a@) == wanted,
    ));
}

/// The first reason that is known of a chunk is the one that is reported, unless the
/// chunk is stored.
pub proof fn first_reason_is_reported(
    list: Seq<(Seq<u8>, Seq<char>)>,
    stored: Seq<Seq<u8>>,
    i: int,
)
    requires
        0 <= i < list.len(),
        !stored.contains(list[i].0),
        forall|k: int| 0 <= k < i ==> (#[trigger] list[k]).0 != list[i].0,
    ensures
        failures_once(list, stored).contains(list[i]),
    decreases list.len(),
{
    let t = list.drop_last();
    let n = list.len() - 1;
    let rest = failures_once(t, stored);
    let whole = failures_once(list, stored);
    assert(forall|k: int| 0 <= k < t.len() ==> t[k] == list[k]);
    if i < n {
        first_reason_is_reported(t, stored, i);
        let m = choose|m: int| 0 <= m < rest.len() && rest[m] == t[i];
        assert(whole[m] == list[i]);
    } else {
        lemma_failures_once(t, stored);
        if named(rest, list[i].0) {
            let m = choose|m: int| 0 <= m < rest.len() && (#[trigger] rest[m]).0 == list[i].0;
            lemma_reported_was_listed(t, stored, m);
            let k = choose|k: int| 0 <= k < t.len() && t[k] == rest[m];
            assert(list[k].0 == list[i].0);
        }
        assert(whole[rest.len() as int] == list[i]);
    }
}

proof fn lemma_reported_was_listed(
    list: Seq<(Seq<u8>, Seq<char>)>,
    stored: Seq<Seq<u8>>,
    m: int,
)
    requires
        0 <= m < failures_once(list, stored).len(),
    ensures
        list.contains(failures_once(list, stored)[m]),
    decreases list.len(),
{
    let t = list.drop_last();
    let rest = failures_once(t, stored);
    if m < rest.len() {
        lemma_reported_was_listed(t, stored, m);
        let k = choose|k: int| 0 <= k < t.len() && t[k] == rest[m];
        assert(list[k] == rest[m]);
    } else {
        assert(list[list.len() - 1] == failures_once(list, stored)[m]);
    }
}

/// After an abort a chunk whose own failure is known is reported with that reason, and
/// every other chunk that is not stored with the reason of the abort.
pub proof fn abort_keeps_known_reasons(
    addresses: Seq<[u8; 32]>,
    stored: Seq<[u8; 32]>,
    known_failed: Seq<([u8; 32], String)>,
    reason: Seq<char>,
    i: int,
)
    ensures
        ({
            let failed = failures_after_fatal(addresses, stored, known_failed, reason);
            &&& 0 <= i < known_failed.len() && !address_views(stored).contains(
                known_failed[i].0@,
            ) && (forall|k: int|
                0 <= k < i ==> (#[trigger] known_failed[k]).0@ != known_failed[i].0@)
                ==> failed.contains((known_failed[i].0@, known_failed[i].1@))
            &&& 0 <= i < addresses.len() && !address_views(stored).contains(addresses[i]@) && (
            forall|k: int|
                0 <= k < known_failed.len() ==> (#[trigger] known_failed[k]).0@ != addresses[i]@)
                && (forall|k: int| 0 <= k < i ==> (#[trigger] addresses[k])@ != addresses[i]@)
                ==> failed.contains((addresses[i]@, reason))
        }),
{
    let known = failure_views(known_failed);
    let rest = blamed(addresses, reason);
    let list = known + rest;
    let views = address_views(stored);
    let n = known.len() as int;
    if 0 <= i < known_failed.len() && !views.contains(known_failed[i].0@) && (forall|k: int|
        0 <= k < i ==> (#[trigger] known_failed[k]).0@ != known_failed[i].0@) {
        assert(list[i] == (known_failed[i].0@, known_failed[i].1@));
        assert forall|k: int| 0 <= k < i implies (#[trigger] list[k]).0 != list[i].0 by {
            assert(list[k].0 == known_failed[k].0@);
        }
        first_reason_is_reported(list, views, i);
    }
    if 0 <= i < addresses.len() && !views.contains(addresses[i]@) && (forall|k: int|
        0 <= k < known_failed.len() ==> (#[trigger] known_failed[k]).0@ != addresses[i]@) && (
    forall|k: int| 0 <= k < i ==> (#[trigger] addresses[k])@ != addresses[i]@) {
        assert(list[n + i] == (addresses[i]@, reason));
        assert forall|k: int| 0 <= k < n + i implies (#[trigger] list[k]).0 != list[n + i].0 by {
            if k < n {
                assert(list[k].0 == known_failed[k].0@);
            } else {
                assert(list[k].0 == addresses[k - n]@);
            }
        }
        first_reason_is_reported(list, views, n + i);
    }
}

} // verus!
