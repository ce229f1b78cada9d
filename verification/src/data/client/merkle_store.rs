//! Storing chunks that a merkle batch paid for.

use vstd::prelude::*;
use vstd::string::*;

use crate::chunked::lower;
use crate::collections::AddressMap;
use crate::data::client::file::UploadEvent;
use crate::data::error::{joined, message_text, Error};
use crate::text::{decimal_text, hex_encode, hex_text, push_decimal};

verus! {

/// How often a chunk is sent in all: once, and three times more.
pub const MERKLE_STORE_MAX_ATTEMPTS: usize = 4;

/// Seconds to wait between two attempts, before jitter.
pub const MERKLE_RETRY_BACKOFF_SECS: u64 = 30;

/// Number of slots in which stored chunks are counted by attempt.
pub const HISTOGRAM_SLOTS: usize = 4;

/// How the chunks of an upload were stored.
pub struct WaveAggregateStats {
    /// Attempts to store a chunk, over all chunks.
    pub chunk_attempts_total: usize,
    /// Milliseconds that it took to store each chunk.
    pub store_durations_ms: Vec<u64>,
    /// Chunks stored at the first attempt, the second, and so on; the last slot
    /// counts all later ones.
    pub retries_histogram: [usize; 4],
}

/// The sum, or the largest value where it does not fit.
pub open spec fn capped_sum(a: usize, b: usize) -> usize {
    lower(a + b, usize::MAX as int) as usize
}

/// Two histograms added slot by slot.
pub open spec fn summed_slots(a: Seq<usize>, b: Seq<usize>) -> Seq<usize> {
    Seq::new(a.len(), |i: int| capped_sum(a[i], b[i]))
}

/// Whether nothing was tried yet.
pub open spec fn no_attempts(stats: WaveAggregateStats) -> bool {
    &&& stats.chunk_attempts_total == 0
    &&& stats.store_durations_ms@.len() == 0
    &&& forall|i: int| 0 <= i < 4 ==> #[trigger] stats.retries_histogram@[i] == 0
}

impl WaveAggregateStats {
    pub fn new() -> (r: WaveAggregateStats)
        ensures
            no_attempts(r),
    {
        WaveAggregateStats {
            chunk_attempts_total: 0,
            store_durations_ms: Vec::new(),
            retries_histogram: [0, 0, 0, 0],
        }
    }

    /// Adds the counts of another part of the upload.
    pub fn merge(&mut self, other: WaveAggregateStats)
        ensures
            final(self).chunk_attempts_total == capped_sum(
                old(self).chunk_attempts_total,
                other.chunk_attempts_total,
            ),
            final(self).store_durations_ms@ == old(self).store_durations_ms@
                + other.store_durations_ms@,
            final(self).retries_histogram@ == summed_slots(
                old(self).retries_histogram@,
                other.retries_histogram@,
            ),
    {
        self.chunk_attempts_total = self.chunk_attempts_total.saturating_add(
            other.chunk_attempts_total,
        );
        let mut more = other.store_durations_ms;
        self.store_durations_ms.append(&mut more);
        let a: usize = self.retries_histogram[0].saturating_add(other.retries_histogram[0]);
        let b: usize = self.retries_histogram[1].saturating_add(other.retries_histogram[1]);
        let c: usize = self.retries_histogram[2].saturating_add(other.retries_histogram[2]);
        let d: usize = self.retries_histogram[3].saturating_add(other.retries_histogram[3]);
        let ghost before = self.retries_histogram@;
        self.retries_histogram = [a, b, c, d];
        assert(self.retries_histogram@ =~= summed_slots(before, other.retries_histogram@));
    }

    /// Counts one attempt.
    pub fn count_attempt(&mut self)
        ensures
            final(self).chunk_attempts_total == capped_sum(old(self).chunk_attempts_total, 1),
            final(self).store_durations_ms@ == old(self).store_durations_ms@,
            final(self).retries_histogram@ == old(self).retries_histogram@,
    {
        self.chunk_attempts_total = self.chunk_attempts_total.saturating_add(1);
    }

    /// Counts a chunk that was stored at an attempt; the first is number zero.
    pub fn count_stored(&mut self, attempt: usize, duration_ms: u64)
        ensures
            final(self).chunk_attempts_total == old(self).chunk_attempts_total,
            final(self).store_durations_ms@ == old(self).store_durations_ms@.push(duration_ms),
            final(self).retries_histogram@ == old(self).retries_histogram@.update(
                slot_of(attempt as int),
                capped_sum(old(self).retries_histogram@[slot_of(attempt as int)], 1),
            ),
    {
        self.store_durations_ms.push(duration_ms);
        let slot: usize = if attempt < HISTOGRAM_SLOTS - 1 {
            attempt
        } else {
            HISTOGRAM_SLOTS - 1
        };
        let count: usize = self.retries_histogram[slot].saturating_add(1);
        self.retries_histogram[slot] = count;
    }
}

/// The slot in which a chunk is counted that was stored at an attempt.
pub open spec fn slot_of(attempt: int) -> int {
    lower(attempt, HISTOGRAM_SLOTS - 1)
}

/// Outcome of storing chunks that a merkle batch paid for.
pub struct MerkleStoreOutcome {
    /// Chunks stored, with those stored before.
    pub stored: usize,
    /// The chunks stored in this run.
    pub stored_addresses: Vec<[u8; 32]>,
    /// Chunks still short of quorum after the last attempt, and why.
    pub failed_addresses: Vec<([u8; 32], String)>,
    /// The error that ended the run early.
    pub fatal: Option<Error>,
    pub stats: WaveAggregateStats,
}

/// Storing chunks with a bounded number of rounds. A chunk short of quorum does
/// not end the run: it is sent again in the next round.
pub struct MerkleStoreRun {
    pub stored: usize,
    pub stored_addresses: Vec<[u8; 32]>,
    /// Chunks that were short of quorum in this round.
    pub short: Vec<([u8; 32], String)>,
    pub fatal: Option<Error>,
    pub stats: WaveAggregateStats,
    /// Chunks of this round whose result is awaited.
    pub awaited: usize,
    /// Number of the current round; the first one is zero.
    pub attempt: usize,
    /// Number of rounds.
    pub rounds: usize,
    /// The attempt that the first round counts as.
    pub first_attempt: usize,
    /// Chunks of the whole file.
    pub total: usize,
    /// Chunks of this run.
    pub chunks: usize,
    /// Chunks stored before this run.
    pub stored_offset: usize,
}

/// What follows a round.
pub enum MerkleRoundEnd {
    /// All chunks are settled.
    Done,
    /// Wait, then send these chunks again.
    Retry(Vec<[u8; 32]>),
}

/// All chunks that a histogram counts.
pub open spec fn slots_total(slots: Seq<usize>) -> int {
    slots[0] + slots[1] + slots[2] + slots[3]
}

/// Whether the statistics of a run count each stored chunk once: in one slot and
/// with one duration.
pub open spec fn counts_each_once(stats: WaveAggregateStats, stored: int) -> bool {
    &&& slots_total(stats.retries_histogram@) == stored
    &&& stats.store_durations_ms@.len() == stored
}

/// Two parts of an upload that each count their stored chunks once do so together,
/// where the chunks can be counted.
pub proof fn merged_stats_count_each_once(
    a: WaveAggregateStats,
    b: WaveAggregateStats,
    both: WaveAggregateStats,
    stored_a: int,
    stored_b: int,
)
    requires
        counts_each_once(a, stored_a),
        counts_each_once(b, stored_b),
        stored_a + stored_b <= usize::MAX,
        both.store_durations_ms@ == a.store_durations_ms@ + b.store_durations_ms@,
        both.retries_histogram@ == summed_slots(a.retries_histogram@, b.retries_histogram@),
    ensures
        counts_each_once(both, stored_a + stored_b),
{
}

/// Whether an outcome accounts for a run over so many chunks: without a fatal
/// error each of them is stored or failed, and each stored one is counted once.
pub open spec fn outcome_of(outcome: MerkleStoreOutcome, before: int, chunks: int) -> bool {
    &&& outcome.stored == before + outcome.stored_addresses@.len()
    &&& outcome.stored_addresses@.len() + outcome.failed_addresses@.len() <= chunks
    &&& outcome.fatal is None ==> outcome.stored_addresses@.len()
        + outcome.failed_addresses@.len() == chunks
    &&& counts_each_once(outcome.stats, outcome.stored_addresses@.len() as int)
}

/// The addresses of a list of failures.
pub open spec fn failure_addresses(list: Seq<([u8; 32], String)>) -> Seq<[u8; 32]> {
    list.map_values(|f: ([u8; 32], String)| f.0)
}

impl MerkleStoreRun {
    /// All chunks of the run: each one is stored, short of quorum in this round
    /// or awaited.
    pub open spec fn submitted(&self) -> int {
        self.stored_addresses@.len() + self.short@.len() + self.awaited
    }

    /// Each chunk is stored, short of quorum or awaited, but for the one whose
    /// error ended the run. Every stored chunk is counted once, every chunk is
    /// tried at least once before the run ends by itself, and none more than once
    /// in a round.
    pub open spec fn wf(&self) -> bool {
        &&& self.attempt < self.rounds
        &&& self.first_attempt + self.rounds <= usize::MAX
        &&& self.stored_offset + self.chunks <= usize::MAX
        &&& self.stored == self.stored_offset + self.stored_addresses@.len()
        &&& self.submitted() == if self.fatal is None {
            self.chunks as int
        } else {
            self.chunks - 1
        }
        &&& counts_each_once(self.stats, self.stored_addresses@.len() as int)
        &&& self.chunks <= self.stats.chunk_attempts_total + self.awaited
        &&& self.stats.chunk_attempts_total + self.awaited <= self.chunks * (self.attempt + 1)
    }

    /// Starts to store `chunks` chunks in at most `max_attempts` rounds, at
    /// least one.
    pub fn new(
        chunks: usize,
        max_attempts: usize,
        first_attempt: usize,
        stored_offset: usize,
        total: usize,
    ) -> (r: MerkleStoreRun)
        requires
            stored_offset + chunks <= usize::MAX,
            first_attempt + max_attempts < usize::MAX,
        ensures
            r.wf(),
            r.stored == stored_offset,
            r.stored_addresses@.len() == 0,
            r.short@.len() == 0,
            r.fatal is None,
            no_attempts(r.stats),
            r.awaited == chunks,
            r.attempt == 0,
            r.rounds == if max_attempts == 0 {
                1
            } else {
                max_attempts
            },
            r.first_attempt == first_attempt,
            r.total == total,
            r.chunks == chunks,
            r.stored_offset == stored_offset,
    {
        MerkleStoreRun {
            stored: stored_offset,
            stored_addresses: Vec::new(),
            short: Vec::new(),
            fatal: None,
            stats: WaveAggregateStats::new(),
            awaited: chunks,
            attempt: 0,
            rounds: if max_attempts == 0 {
                1
            } else {
                max_attempts
            },
            first_attempt,
            total,
            chunks,
            stored_offset,
        }
    }

    /// Takes the result for one chunk into account: the milliseconds that it
    /// took, or the error. An error other than a shortfall of quorum ends the
    /// run. The event reports a stored chunk.
    pub fn on_result(&mut self, address: [u8; 32], result: Result<u64, Error>) -> (r: Option<
        UploadEvent,
    >)
        requires
            old(self).wf(),
            old(self).awaited > 0,
            old(self).fatal is None,
        ensures
            final(self).wf(),
            final(self).awaited == old(self).awaited - 1,
            final(self).attempt == old(self).attempt,
            final(self).rounds == old(self).rounds,
            final(self).first_attempt == old(self).first_attempt,
            final(self).total == old(self).total,
            final(self).chunks == old(self).chunks,
            final(self).stored_offset == old(self).stored_offset,
            final(self).stats.chunk_attempts_total == capped_sum(
                old(self).stats.chunk_attempts_total,
                1,
            ),
            match result {
                Ok(ms) => {
                    &&& final(self).stored == old(self).stored + 1
                    &&& final(self).stored_addresses@ == old(self).stored_addresses@.push(address)
                    &&& final(self).short@ == old(self).short@
                    &&& final(self).fatal is None
                    &&& final(self).stats.store_durations_ms@ == old(
                        self).stats.store_durations_ms@.push(ms)
                    &&& final(self).stats.retries_histogram@ == old(
                        self).stats.retries_histogram@.update(
                        slot_of(old(self).first_attempt + old(self).attempt),
                        capped_sum(
                            old(self).stats.retries_histogram@[slot_of(
                                old(self).first_attempt + old(self).attempt,
                            )],
                            1,
                        ),
                    )
                    &&& r == Some(
                        UploadEvent::ChunkStored {
                            stored: final(self).stored,
                            total: old(self).total,
                        },
                    )
                },
                Err(e) => {
                    &&& final(self).stored == old(self).stored
                    &&& final(self).stored_addresses@ == old(self).stored_addresses@
                    &&& final(self).stats.store_durations_ms@ == old(self).stats.store_durations_ms@
                    &&& final(self).stats.retries_histogram@ == old(self).stats.retries_histogram@
                    &&& r is None
                    &&& if e is InsufficientPeers {
                        &&& final(self).fatal is None
                        &&& final(self).short@.len() == old(self).short@.len() + 1
                        &&& final(self).short@.drop_last() == old(self).short@
                        &&& final(self).short@.last().0 == address
                        &&& final(self).short@.last().1@ == message_text(e)
                    } else {
                        &&& final(self).fatal == Some(e)
                        &&& final(self).short@ == old(self).short@
                    }
                },
            },
    {
        self.awaited = self.awaited - 1;
        self.stats.count_attempt();
        match result {
            Ok(ms) => {
                let at: usize = self.first_attempt + self.attempt;
                self.stats.count_stored(at, ms);
                self.stored = self.stored + 1;
                self.stored_addresses.push(address);
                Some(UploadEvent::ChunkStored { stored: self.stored, total: self.total })
            },
            Err(e) => {
                let recoverable = match &e {
                    Error::InsufficientPeers(_) => true,
                    _ => false,
                };
                if recoverable {
                    let ghost before = self.short@;
                    self.short.push((address, e.message()));
                    assert(self.short@.drop_last() =~= before);
                } else {
                    self.fatal = Some(e);
                }
                None
            },
        }
    }

    /// Ends a round: without shortfalls, or after the last round, all chunks
    /// are settled; otherwise those short of quorum are sent again.
    pub fn end_round(&mut self) -> (r: MerkleRoundEnd)
        requires
            old(self).wf(),
            old(self).awaited == 0,
            old(self).fatal is None,
        ensures
            final(self).wf(),
            final(self).stored == old(self).stored,
            final(self).stored_addresses@ == old(self).stored_addresses@,
            final(self).fatal is None,
            final(self).stats == old(self).stats,
            final(self).rounds == old(self).rounds,
            final(self).first_attempt == old(self).first_attempt,
            final(self).total == old(self).total,
            final(self).chunks == old(self).chunks,
            final(self).stored_offset == old(self).stored_offset,
            final(self).submitted() == old(self).submitted(),
            match r {
                MerkleRoundEnd::Done => {
                    &&& old(self).short@.len() == 0 || old(self).attempt + 1 == old(self).rounds
                    &&& final(self).short@ == old(self).short@
                    &&& final(self).awaited == 0
                    &&& final(self).attempt == old(self).attempt
                },
                MerkleRoundEnd::Retry(addresses) => {
                    &&& old(self).short@.len() > 0
                    &&& old(self).attempt + 1 < old(self).rounds
                    &&& addresses@ == failure_addresses(old(self).short@)
                    &&& final(self).short@.len() == 0
                    &&& final(self).awaited == addresses@.len()
                    &&& final(self).attempt == old(self).attempt + 1
                },
            },
    {
        let n: usize = self.short.len();
        if n == 0 || self.attempt + 1 == self.rounds {
            return MerkleRoundEnd::Done;
        }
        let mut addresses: Vec<[u8; 32]> = Vec::new();
        let ghost all = self.short@;
        let mut i: usize = 0;
        while i < n
            invariant
                i <= n,
                n == self.short.len(),
                self.short@ == all,
                addresses@.len() == i,
                forall|k: int| 0 <= k < i ==> #[trigger] addresses@[k] == all[k].0,
            decreases n - i,
        {
            addresses.push(self.short[i].0);
            i = i + 1;
        }
        assert(addresses@ =~= failure_addresses(all));
        proof {
            let chunks = self.chunks as int;
            let done = self.attempt + 1;
            assert(chunks * (done + 1) == chunks * done + chunks) by (nonlinear_arith);
        }
        self.short = Vec::new();
        self.awaited = n;
        self.attempt = self.attempt + 1;
        MerkleRoundEnd::Retry(addresses)
    }

    /// The outcome, once all chunks are settled or the run ended early. Without
    /// a fatal error each chunk of the run is either stored or failed, and was
    /// tried at least once; none was tried more often than there are rounds.
    pub fn finish(self) -> (r: MerkleStoreOutcome)
        requires
            self.wf(),
            self.fatal is None ==> self.awaited == 0,
        ensures
            r.stored == self.stored,
            r.stored_addresses@ == self.stored_addresses@,
            r.failed_addresses@ == self.short@,
            r.fatal == self.fatal,
            r.stats == self.stats,
            outcome_of(r, self.stored_offset as int, self.chunks as int),
            r.fatal is None ==> self.chunks <= r.stats.chunk_attempts_total,
            r.stats.chunk_attempts_total <= self.chunks * self.rounds,
    {
        proof {
            let most = self.rounds as int;
            let done = self.attempt + 1;
            let n = self.chunks as int;
            assert(n * done <= n * most) by (nonlinear_arith)
                requires
                    0 <= n,
                    done <= most,
            ;
        }
        MerkleStoreOutcome {
            stored: self.stored,
            stored_addresses: self.stored_addresses,
            failed_addresses: self.short,
            fatal: self.fatal,
            stats: self.stats,
        }
    }
}

/// Tests that each chunk has an address.
pub fn check_contents_count(contents: usize, addresses: usize) -> (r: Result<(), Error>)
    ensures
        r is Ok <==> contents == addresses,
        r matches Err(e) ==> e matches Error::InvalidData(m) && m@ == "merkle upload has "@
            + decimal_text(contents as nat) + " chunk contents but "@ + decimal_text(
            addresses as nat,
        ) + " addresses"@,
{
    if contents != addresses {
        let mut m = "merkle upload has ".to_owned();
        push_decimal(&mut m, contents as u128);
        m.append(" chunk contents but ");
        push_decimal(&mut m, addresses as u128);
        m.append(" addresses");
        return Err(Error::InvalidData(m));
    }
    Ok(())
}

/// The message on a chunk that was not paid for.
pub open spec fn missing_proof_text(address: Seq<u8>) -> Seq<char> {
    "Missing merkle proof for chunk "@ + hex_text(address)
}

pub(crate) fn missing_proof_message(address: &[u8; 32]) -> (r: String)
    ensures
        r@ == missing_proof_text(address@),
{
    joined("Missing merkle proof for chunk ", hex_encode(address).as_str())
}

/// The proof that goes out with a chunk.
pub fn proof_for(proofs: &AddressMap<Vec<u8>>, address: &[u8; 32]) -> (r: Result<Vec<u8>, Error>)
    ensures
        match r {
            Ok(bytes) => proofs@.dom().contains(address@) && bytes@ == proofs@[address@]@,
            Err(e) => {
                &&& !proofs@.dom().contains(address@)
                &&& e matches Error::Payment(m) && m@ == missing_proof_text(address@)
            },
        },
{
    match proofs.get(address) {
        Some(bytes) => {
            let copy = bytes.clone();
            assert(copy@ =~= bytes@);
            Ok(copy)
        },
        None => Err(Error::Payment(missing_proof_message(address))),
    }
}

/// A stored chunk is counted in the slot of its attempt; the last slot takes all later
/// ones.
pub proof fn slots_are_those_of_the_attempts(attempt: int)
    requires
        attempt >= 0,
    ensures
        0 <= slot_of(attempt) < HISTOGRAM_SLOTS,
        attempt < HISTOGRAM_SLOTS ==> slot_of(attempt) == attempt,
        attempt >= HISTOGRAM_SLOTS - 1 ==> slot_of(attempt) == HISTOGRAM_SLOTS - 1,
{
}

} // verus!
