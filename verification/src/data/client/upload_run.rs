//! The course of a file upload: what is done next, and what becomes of the
//! receipt that lets an upload that broke off go on without a second payment.

use vstd::prelude::*;
use vstd::string::*;

use crate::data::client::batch::copy_addresses;
use crate::data::client::file_upload::{
    after_payment, after_preflight, covers, PaymentOutcome, UploadStep, UploadTotals,
};
use crate::data::client::merkle::{
    merkle_applies, should_use_merkle, MerkleBatchPaymentResult, MerkleUploadPlan, PaymentMode,
};
use crate::data::client::merkle_store::{no_attempts, WaveAggregateStats};
use crate::data::error::Error;

verus! {

/// What a file upload asks for next.
pub enum UploadAction {
    /// Find out which chunks are stored, and look for a receipt of an earlier
    /// run.
    Probe,
    /// Drop the earlier receipt, where told so; then pay for these chunks with
    /// a merkle tree.
    PayMerkle { addresses: Vec<[u8; 32]>, average_size: u64, discard_receipt: bool },
    /// Keep the receipt, where told so; then store these chunks with its proofs.
    StoreMerkle {
        addresses: Vec<[u8; 32]>,
        already_stored: Vec<[u8; 32]>,
        receipt: MerkleBatchPaymentResult,
        keep_receipt: bool,
    },
    /// Drop the earlier receipt, where told so; then pay for these chunks one
    /// by one and store them. Receipts of these payments that an earlier run left
    /// behind may be used.
    StoreSingle { addresses: Vec<[u8; 32]>, stored_before: usize, discard_receipt: bool },
    /// Drop the receipt of the merkle payment, and those of payments chunk by
    /// chunk, where told so: the upload is done.
    Finish {
        mode_used: PaymentMode,
        totals: UploadTotals,
        discard_receipt: bool,
        discard_single: bool,
    },
}

/// What a file upload waits for.
pub enum UploadStage {
    Probing,
    /// The payment of these chunks.
    Paying { addresses: Vec<[u8; 32]>, already_stored: Vec<[u8; 32]> },
    /// The chunks, paid in this way, to be stored.
    Storing(PaymentMode),
    Done,
}

/// A file upload in progress.
pub struct FileUpload {
    pub mode: PaymentMode,
    /// The chunks of the file.
    pub all: Vec<[u8; 32]>,
    pub stage: UploadStage,
}

/// Whether an action leaves out none of the chunks: each one is stored already
/// or among those that the action is about.
pub open spec fn leaves_none_out(action: UploadAction, total: int) -> bool {
    match action {
        UploadAction::Probe => true,
        UploadAction::PayMerkle { addresses, .. } => addresses@.len() <= total,
        UploadAction::StoreMerkle { addresses, already_stored, .. } => addresses@.len()
            + already_stored@.len() == total,
        UploadAction::StoreSingle { addresses, stored_before, .. } => addresses@.len()
            + stored_before == total,
        UploadAction::Finish { totals, .. } => totals.0 == total,
    }
}

/// Whether there is a receipt with proofs for all the addresses.
pub open spec fn covered(cached: Option<MerkleBatchPaymentResult>, addresses: Seq<[u8; 32]>) -> bool {
    cached matches Some(receipt) && covers(receipt.proofs@, addresses)
}

/// Whether an action is to store these chunks with the proofs of the receipt
/// that there is.
pub open spec fn stores_again(
    action: UploadAction,
    cached: Option<MerkleBatchPaymentResult>,
    chunks: Seq<[u8; 32]>,
    stored: Seq<[u8; 32]>,
) -> bool {
    action matches UploadAction::StoreMerkle { addresses, already_stored, receipt, keep_receipt }
        && addresses@ == chunks && already_stored@ == stored && cached == Some(receipt)
        && !keep_receipt
}

/// Whether an action is to pay for these chunks one by one.
pub open spec fn pays_single(
    action: UploadAction,
    chunks: Seq<[u8; 32]>,
    stored: int,
    discard: bool,
) -> bool {
    action matches UploadAction::StoreSingle { addresses, stored_before, discard_receipt }
        && addresses@ == chunks && stored_before == stored && discard_receipt == discard
}

/// What the check which chunks are stored leads to: a receipt that covers what
/// is left is used again, so that nothing is paid twice; one that does not is
/// dropped before the next payment.
pub open spec fn follows_probe(
    r: Result<UploadAction, Error>,
    plan: Result<MerkleUploadPlan, Error>,
    cached: Option<MerkleBatchPaymentResult>,
    all: Seq<[u8; 32]>,
    mode: PaymentMode,
) -> bool {
    match plan {
        Err(e) => if covered(cached, all) {
            r matches Ok(action) && stores_again(action, cached, all, Seq::empty())
        } else if e is InsufficientPeers && mode == PaymentMode::Auto {
            r matches Ok(action) && pays_single(action, all, 0, false)
        } else {
            r == Err::<UploadAction, Error>(e)
        },
        Ok(p) => if p.to_upload@.len() == 0 {
            r matches Ok(UploadAction::Finish { mode_used, totals, discard_receipt, discard_single })
                && mode_used == PaymentMode::Merkle && totals.0 == all.len() && totals.1@ == "0"@
                && totals.2 == 0 && no_attempts(totals.3) && discard_receipt && discard_single
        } else if covered(cached, p.to_upload@) {
            r matches Ok(action) && stores_again(
                action,
                cached,
                p.to_upload@,
                p.already_stored@,
            )
        } else if !merkle_applies(p.to_upload@.len() as int, mode) {
            r matches Ok(action) && pays_single(
                action,
                p.to_upload@,
                p.already_stored@.len() as int,
                cached is Some,
            )
        } else {
            r matches Ok(UploadAction::PayMerkle { addresses, average_size, discard_receipt })
                && addresses@ == p.to_upload@ && average_size == p.to_upload_total_bytes as int
                / p.to_upload@.len() as int && discard_receipt == (cached is Some)
        },
    }
}

impl FileUpload {
    /// Where a payment is awaited, its chunks and the stored ones are all there
    /// are.
    pub open spec fn wf(&self) -> bool {
        match self.stage {
            UploadStage::Paying { addresses, already_stored } => addresses@.len()
                + already_stored@.len() == self.all@.len(),
            _ => true,
        }
    }

    /// What does not change in the course of the upload.
    pub open spec fn same_upload(&self, other: &FileUpload) -> bool {
        self.mode == other.mode && self.all == other.all
    }

    /// Starts the upload of a file that was encrypted into these chunks.
    pub fn start(all: Vec<[u8; 32]>, mode: PaymentMode) -> (r: (FileUpload, UploadAction))
        ensures
            r.0.wf(),
            r.0.mode == mode,
            r.0.all@ == all@,
            leaves_none_out(r.1, all@.len() as int),
            if merkle_applies(all@.len() as int, mode) {
                r.0.stage is Probing && r.1 is Probe
            } else {
                r.0.stage == UploadStage::Storing(PaymentMode::Single) && pays_single(
                    r.1,
                    all@,
                    0,
                    false,
                )
            },
    {
        if should_use_merkle(all.len(), mode) {
            return (FileUpload { mode, all, stage: UploadStage::Probing }, UploadAction::Probe);
        }
        let addresses = copy_addresses(&all);
        (
            FileUpload { mode, all, stage: UploadStage::Storing(PaymentMode::Single) },
            UploadAction::StoreSingle { addresses, stored_before: 0, discard_receipt: false },
        )
    }

    /// Goes on after the check which chunks are stored, with the receipt of an
    /// earlier run where there is one.
    pub fn on_probed(
        &mut self,
        plan: Result<MerkleUploadPlan, Error>,
        cached: Option<MerkleBatchPaymentResult>,
    ) -> (r: Result<UploadAction, Error>)
        requires
            old(self).wf(),
            old(self).stage is Probing,
            plan matches Ok(p) ==> p.already_stored@.len() + p.to_upload@.len()
                == old(self).all@.len(),
        ensures
            final(self).wf(),
            final(self).same_upload(old(self)),
            follows_probe(r, plan, cached, old(self).all@, old(self).mode),
            match r {
                Err(_) => final(self).stage is Done,
                Ok(action) => leaves_none_out(action, old(self).all@.len() as int)
                    && match action {
                    UploadAction::Probe => false,
                    UploadAction::Finish { .. } => final(self).stage is Done,
                    UploadAction::StoreMerkle { .. } => final(self).stage == UploadStage::Storing(
                        PaymentMode::Merkle,
                    ),
                    UploadAction::StoreSingle { .. } => final(self).stage == UploadStage::Storing(
                        PaymentMode::Single,
                    ),
                    UploadAction::PayMerkle { addresses, .. } => final(self).stage matches
                        UploadStage::Paying { addresses: a, already_stored: s } && a@
                        == addresses@ && (plan matches Ok(p) && s@ == p.already_stored@),
                },
            },
    {
        self.stage = UploadStage::Done;
        let step = match after_preflight(plan, cached.as_ref(), &self.all, self.mode) {
            Ok(step) => step,
            Err(e) => {
                return Err(e);
            },
        };
        match step {
            UploadStep::AllStored => {
                let totals = (self.all.len(), "0".to_owned(), 0, WaveAggregateStats::new());
                Ok(
                    UploadAction::Finish {
                        mode_used: PaymentMode::Merkle,
                        totals,
                        discard_receipt: true,
                        discard_single: true,
                    },
                )
            },
            UploadStep::StoreCached { addresses, already_stored } => {
                self.stage = UploadStage::Storing(PaymentMode::Merkle);
                assert(plan is Err ==> already_stored@ =~= Seq::empty());
                match cached {
                    Some(receipt) => Ok(
                        UploadAction::StoreMerkle {
                            addresses,
                            already_stored,
                            receipt,
                            keep_receipt: false,
                        },
                    ),
                    None => vstd::pervasive::unreached(),
                }
            },
            UploadStep::PaySingle { addresses, stored_before, discard_receipt } => {
                self.stage = UploadStage::Storing(PaymentMode::Single);
                Ok(UploadAction::StoreSingle { addresses, stored_before, discard_receipt })
            },
            UploadStep::PayMerkle { addresses, already_stored, average_size, discard_receipt } => {
                let asked = copy_addresses(&addresses);
                self.stage = UploadStage::Paying { addresses, already_stored };
                Ok(UploadAction::PayMerkle { addresses: asked, average_size, discard_receipt })
            },
        }
    }

    /// Goes on after the merkle payment. Its receipt is kept before the first
    /// chunk is stored, so that an upload that breaks off can go on with it.
    pub fn on_paid(&mut self, result: Result<MerkleBatchPaymentResult, Error>) -> (r: Result<
        UploadAction,
        Error,
    >)
        requires
            old(self).wf(),
            old(self).stage is Paying,
        ensures
            final(self).wf(),
            final(self).same_upload(old(self)),
            old(self).stage matches UploadStage::Paying { addresses: asked, already_stored: stored }
                && match result {
                Ok(paid) => {
                    &&& final(self).stage == UploadStage::Storing(PaymentMode::Merkle)
                    &&& r matches Ok(
                        UploadAction::StoreMerkle { addresses, already_stored, receipt, keep_receipt },
                    ) && addresses == asked && already_stored == stored && receipt == paid
                        && keep_receipt
                },
                Err(e) => if e is InsufficientPeers && old(self).mode == PaymentMode::Auto {
                    &&& final(self).stage == UploadStage::Storing(PaymentMode::Single)
                    &&& r matches Ok(action) && pays_single(
                        action,
                        asked@,
                        stored@.len() as int,
                        false,
                    )
                } else {
                    final(self).stage is Done && r == Err::<UploadAction, Error>(e)
                },
            },
            r matches Ok(action) ==> leaves_none_out(action, old(self).all@.len() as int),
    {
        let mut stage = UploadStage::Done;
        std::mem::swap(&mut stage, &mut self.stage);
        match stage {
            UploadStage::Paying { addresses, already_stored } => match after_payment(
                result,
                self.mode,
            ) {
                Ok(PaymentOutcome::Store(receipt)) => {
                    self.stage = UploadStage::Storing(PaymentMode::Merkle);
                    Ok(
                        UploadAction::StoreMerkle {
                            addresses,
                            already_stored,
                            receipt,
                            keep_receipt: true,
                        },
                    )
                },
                Ok(PaymentOutcome::PaySingle) => {
                    self.stage = UploadStage::Storing(PaymentMode::Single);
                    Ok(
                        UploadAction::StoreSingle {
                            addresses,
                            stored_before: already_stored.len(),
                            discard_receipt: false,
                        },
                    )
                },
                Err(e) => Err(e),
            },
            _ => vstd::pervasive::unreached(),
        }
    }

    /// Ends the upload once its chunks were stored. The receipts of the payment
    /// that was made are dropped only now that all of them are; an upload that
    /// failed keeps them.
    pub fn on_stored(&mut self, result: Result<UploadTotals, Error>) -> (r: Result<
        UploadAction,
        Error,
    >)
        requires
            old(self).stage is Storing,
            result matches Ok(totals) ==> totals.0 == old(self).all@.len(),
        ensures
            final(self).wf(),
            final(self).same_upload(old(self)),
            final(self).stage is Done,
            match result {
                Ok(done) => r matches Ok(
                    UploadAction::Finish { mode_used, totals, discard_receipt, discard_single },
                ) && totals == done && old(self).stage == UploadStage::Storing(mode_used)
                    && discard_receipt == (mode_used == PaymentMode::Merkle) && discard_single == (
                mode_used != PaymentMode::Merkle) && totals.0 == old(self).all@.len(),
                Err(e) => r == Err::<UploadAction, Error>(e),
            },
    {
        let mut stage = UploadStage::Done;
        std::mem::swap(&mut stage, &mut self.stage);
        match stage {
            UploadStage::Storing(mode_used) => match result {
                Ok(totals) => Ok(
                    UploadAction::Finish {
                        mode_used,
                        totals,
                        discard_receipt: mode_used == PaymentMode::Merkle,
                        discard_single: mode_used != PaymentMode::Merkle,
                    },
                ),
                Err(e) => Err(e),
            },
            _ => vstd::pervasive::unreached(),
        }
    }
}

/// Nothing is paid twice and nothing is paid that is stored: a payment is only made for
/// what the check found missing, or for everything where the check failed, and only
/// where the earlier receipt lacks the proof of one of these chunks. An upload is done at
/// once only where nothing is missing.
pub proof fn nothing_is_paid_twice(
    r: Result<UploadAction, Error>,
    plan: Result<MerkleUploadPlan, Error>,
    cached: Option<MerkleBatchPaymentResult>,
    all: Seq<[u8; 32]>,
    mode: PaymentMode,
)
    requires
        follows_probe(r, plan, cached, all, mode),
    ensures
        r matches Ok(UploadAction::PayMerkle { addresses, .. }) ==> {
            &&& plan matches Ok(p) && addresses@ == p.to_upload@ && addresses@.len() > 0
            &&& cached matches Some(receipt) ==> exists|i: int|
                0 <= i < addresses@.len() && !receipt.proofs@.dom().contains(
                    (#[trigger] addresses@[i])@,
                )
            &&& mode != PaymentMode::Single
        },
        r matches Ok(UploadAction::StoreSingle { addresses, stored_before, .. }) ==> {
            &&& match plan {
                Ok(p) => addresses@ == p.to_upload@ && stored_before == p.already_stored@.len()
                    && (mode != PaymentMode::Merkle || addresses@.len() < 2),
                Err(_) => addresses@ == all && stored_before == 0 && mode == PaymentMode::Auto,
            }
            &&& cached matches Some(receipt) ==> exists|i: int|
                0 <= i < addresses@.len() && !receipt.proofs@.dom().contains(
                    (#[trigger] addresses@[i])@,
                )
        },
        r matches Ok(UploadAction::StoreMerkle { addresses, receipt, .. }) ==> {
            &&& cached == Some(receipt)
            &&& forall|i: int|
                0 <= i < addresses@.len() ==> receipt.proofs@.dom().contains(
                    (#[trigger] addresses@[i])@,
                )
            &&& match plan {
                Ok(p) => addresses@ == p.to_upload@,
                Err(_) => addresses@ == all,
            }
        },
        r matches Ok(UploadAction::Finish { .. }) ==> plan matches Ok(p) && p.to_upload@.len() == 0,
        r is Err ==> plan is Err,
{
}

} // verus!
