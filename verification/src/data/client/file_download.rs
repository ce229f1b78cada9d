//! Downloading a file: batches of chunks, each fetched with deferred retries.

use vstd::multiset::Multiset;
use vstd::prelude::*;
use vstd::string::*;

use crate::chunked::lower;
use crate::data::data_map::{chunk_views, resolve_data_map, root_of, DataMap};
use crate::data::error::{gives_reason, joined, message_text, Error};
use crate::order::{lemma_sort_map, sort_by_keys, stable_sort, stable_sort_orders_and_keeps};
use crate::text::{decimal_text, hex_encode, hex_text, push_decimal};
use crate::uint256::U256;

verus! {

/// Progress of a download.
#[derive(Debug, Clone, Copy, PartialEq, Eq, Structural)]
pub enum DownloadEvent {
    /// Resolving hierarchical data map to discover real chunk count.
    ResolvingDataMap { total_map_chunks: usize },
    /// A data map chunk has been fetched during resolution.
    MapChunkFetched { fetched: usize },
    /// Data map resolved: total data chunk count now known.
    DataMapResolved { total_chunks: usize },
    /// Data chunks are being fetched from the network.
    ChunksFetched { fetched: usize, total: usize },
}

/// How many times the fetch fan-out a decrypt batch holds, so that fetching
/// does not stop at each batch's end.
pub const DOWNLOAD_STREAM_BATCH_FETCH_MULTIPLIER: usize = 4;

/// One decrypt batch uses at most one part in this many of the usable memory.
pub const DOWNLOAD_STREAM_BATCH_MEMORY_BUDGET_DIVISOR: u64 = 4;

/// How many times its size a chunk takes up in memory while it is decrypted.
pub const DOWNLOAD_STREAM_BATCH_BYTES_PER_CHUNK_MULTIPLIER: u64 = 3;

/// Seconds to wait before each round of deferred retries.
pub const DEFERRED_ROUND_DELAYS_SECS: [u64; 3] = [0, 15, 45];

/// Number of rounds of deferred retries.
pub const DEFERRED_ROUNDS: usize = 3;

/// The larger one.
pub open spec fn upper(a: int, b: int) -> int {
    if a >= b {
        a
    } else {
        b
    }
}

fn larger(a: u64, b: u64) -> (r: u64)
    ensures
        r == upper(a as int, b as int),
{
    if a >= b {
        a
    } else {
        b
    }
}

/// The memory that a machine has to spare: the largest of three readings that
/// are not zero, and no more than a control group with a limit leaves free.
pub open spec fn usable_memory(
    available: u64,
    free: u64,
    used: u64,
    total: u64,
    cgroup: Option<(u64, u64)>,
) -> Option<u64> {
    let unused = upper(total - used, 0);
    let most = upper(upper(available as int, free as int), unused);
    let reading = if most > 0 {
        Some(most as u64)
    } else {
        None
    };
    match cgroup {
        Some((limit, spare)) if limit > 0 => Some(
            lower(
                match reading {
                    Some(m) => m as int,
                    None => u64::MAX as int,
                },
                spare as int,
            ) as u64,
        ),
        _ => reading,
    }
}

/// Usable memory out of the readings of a machine: available, free, used and
/// total memory, and the limit and free memory of a control group.
pub fn usable_memory_bytes(
    available: u64,
    free: u64,
    used: u64,
    total: u64,
    cgroup: Option<(u64, u64)>,
) -> (r: Option<u64>)
    ensures
        r == usable_memory(available, free, used, total, cgroup),
{
    let unused: u64 = total.saturating_sub(used);
    let most: u64 = larger(larger(available, free), unused);
    let reading: Option<u64> = if most > 0 {
        Some(most)
    } else {
        None
    };
    match cgroup {
        Some((limit, spare)) => {
            if limit > 0 {
                let known: u64 = match reading {
                    Some(m) => m,
                    None => u64::MAX,
                };
                Some(
                    if known <= spare {
                        known
                    } else {
                        spare
                    },
                )
            } else {
                reading
            }
        },
        None => reading,
    }
}

/// How many chunks of at most `largest_chunk` bytes fit into the memory that
/// one decrypt batch may use; at least one.
pub open spec fn memory_cap(usable_memory: u64, largest_chunk: u64) -> int {
    let budget = usable_memory as int / DOWNLOAD_STREAM_BATCH_MEMORY_BUDGET_DIVISOR as int;
    let per_chunk = upper(
        lower(
            largest_chunk * DOWNLOAD_STREAM_BATCH_BYTES_PER_CHUNK_MULTIPLIER,
            u64::MAX as int,
        ),
        1,
    );
    lower(upper(budget / per_chunk, 1), usize::MAX as int)
}

/// The number of chunks that fit into a decrypt batch.
pub fn stream_decrypt_batch_memory_cap(usable_memory_bytes: u64, largest_chunk: u64) -> (r: usize)
    ensures
        r == memory_cap(usable_memory_bytes, largest_chunk),
{
    let budget: u64 = usable_memory_bytes / DOWNLOAD_STREAM_BATCH_MEMORY_BUDGET_DIVISOR;
    let held: u64 = match largest_chunk.checked_mul(
        DOWNLOAD_STREAM_BATCH_BYTES_PER_CHUNK_MULTIPLIER,
    ) {
        Some(n) => n,
        None => u64::MAX,
    };
    let per_chunk: u64 = larger(held, 1);
    let cap: u64 = larger(budget / per_chunk, 1);
    if cap <= usize::MAX as u64 {
        cap as usize
    } else {
        usize::MAX
    }
}

/// How many chunks a decrypt batch holds: room for the fetch fan-out where the
/// memory allows it, the configured number where no memory reading is there,
/// and never more than the file has, nor less than one.
pub open spec fn decrypt_batch_size(
    total_chunks: usize,
    fetch_cap: usize,
    configured_batch_floor: usize,
    usable_memory_bytes: Option<u64>,
    largest_chunk: u64,
) -> int {
    let fetch_target = lower(
        upper(fetch_cap as int, 1) * DOWNLOAD_STREAM_BATCH_FETCH_MULTIPLIER,
        usize::MAX as int,
    );
    let requested = match usable_memory_bytes {
        Some(bytes) => lower(
            upper(configured_batch_floor as int, fetch_target),
            memory_cap(bytes, largest_chunk),
        ),
        None => upper(configured_batch_floor as int, 1),
    };
    upper(lower(requested, upper(total_chunks as int, 1)), 1)
}

/// The size of a decrypt batch for chunks of at most `largest_chunk` bytes.
pub fn stream_decrypt_batch_size_for(
    total_chunks: usize,
    fetch_cap: usize,
    configured_batch_floor: usize,
    usable_memory_bytes: Option<u64>,
    largest_chunk: u64,
) -> (r: usize)
    ensures
        r == decrypt_batch_size(
            total_chunks,
            fetch_cap,
            configured_batch_floor,
            usable_memory_bytes,
            largest_chunk,
        ),
{
    let fan_out: usize = if fetch_cap >= 1 {
        fetch_cap
    } else {
        1
    };
    let fetch_target: usize = match fan_out.checked_mul(DOWNLOAD_STREAM_BATCH_FETCH_MULTIPLIER) {
        Some(n) => n,
        None => usize::MAX,
    };
    let requested: usize = match usable_memory_bytes {
        Some(bytes) => {
            let cap: usize = stream_decrypt_batch_memory_cap(bytes, largest_chunk);
            let wanted: usize = if configured_batch_floor >= fetch_target {
                configured_batch_floor
            } else {
                fetch_target
            };
            if wanted <= cap {
                wanted
            } else {
                cap
            }
        },
        None => if configured_batch_floor >= 1 {
            configured_batch_floor
        } else {
            1
        },
    };
    let most: usize = if total_chunks >= 1 {
        total_chunks
    } else {
        1
    };
    if requested <= most {
        requested
    } else {
        most
    }
}

/// `self_encryption::MAX_CHUNK_SIZE`: the largest chunk that encryption makes.
/// It is fixed when the program is built, and nothing is stated of it.
#[verifier::external_body]
fn largest_encrypted_chunk() -> (r: usize)
{
    self_encryption::MAX_CHUNK_SIZE
}

/// The size of a decrypt batch, by the largest chunk that encryption makes.
pub fn adaptive_stream_decrypt_batch_size(
    total_chunks: usize,
    fetch_cap: usize,
    configured_batch_floor: usize,
    usable_memory_bytes: Option<u64>,
) -> (r: usize)
    ensures
        exists|largest_chunk: u64|
            r == #[trigger] decrypt_batch_size(
                total_chunks,
                fetch_cap,
                configured_batch_floor,
                usable_memory_bytes,
                largest_chunk,
            ),
{
    let largest: usize = largest_encrypted_chunk();
    stream_decrypt_batch_size_for(
        total_chunks,
        fetch_cap,
        configured_batch_floor,
        usable_memory_bytes,
        largest as u64,
    )
}

/// A decrypt batch is never empty, never larger than the file where that has
/// chunks, and never larger than the memory allows.
pub proof fn decrypt_batch_is_bounded(
    total_chunks: usize,
    fetch_cap: usize,
    configured_batch_floor: usize,
    usable_memory_bytes: Option<u64>,
    largest_chunk: u64,
)
    ensures
        ({
            let size = decrypt_batch_size(
                total_chunks,
                fetch_cap,
                configured_batch_floor,
                usable_memory_bytes,
                largest_chunk,
            );
            &&& size >= 1
            &&& total_chunks >= 1 ==> size <= total_chunks
            &&& usable_memory_bytes matches Some(bytes) ==> size <= memory_cap(bytes, largest_chunk)
        }),
{
}

/// The content of a fetched part of a data map, or why it cannot be resolved.
pub fn data_map_chunk(address: &[u8; 32], result: Result<Option<Vec<u8>>, Error>) -> (r: Result<
    Vec<u8>,
    String,
>)
    ensures
        match result {
            Ok(Some(content)) => r == Ok::<Vec<u8>, String>(content),
            Ok(None) => r matches Err(m) && m@ == "DataMap chunk not found: "@ + hex_text(address@),
            Err(e) => r matches Err(m) && m@ == "DataMap resolution failed: "@ + message_text(e),
        },
{
    match result {
        Ok(Some(content)) => Ok(content),
        Ok(None) => Err(joined("DataMap chunk not found: ", hex_encode(address).as_str())),
        Err(e) => Err(joined("DataMap resolution failed: ", e.message().as_str())),
    }
}

/// Fetching the parts of a data map that only names further data maps.
pub struct MapResolution {
    /// Parts that were fetched so far, in the order in which they came.
    pub parts: Vec<Vec<u8>>,
}

impl MapResolution {
    /// Begins with the data map that a file is downloaded by. A map that names
    /// the file's own chunks needs no resolution.
    pub fn begin(map: &DataMap) -> (r: Option<(MapResolution, DownloadEvent)>)
        ensures
            match r {
                Some((run, event)) => map@.child is Some && run.parts@.len() == 0 && event
                    == (DownloadEvent::ResolvingDataMap { total_map_chunks: map.chunks@.len() as usize }),
                None => map@.child is None,
            },
    {
        if map.is_child() {
            Some(
                (
                    MapResolution { parts: Vec::new() },
                    DownloadEvent::ResolvingDataMap { total_map_chunks: map.len() },
                ),
            )
        } else {
            None
        }
    }

    /// Takes in one part. Only a part that arrived counts.
    pub fn on_chunk(&mut self, address: &[u8; 32], result: Result<Option<Vec<u8>>, Error>) -> (r:
        Result<(Vec<u8>, DownloadEvent), String>)
        ensures
            match result {
                Ok(Some(content)) => {
                    &&& chunk_views(final(self).parts@) == chunk_views(old(self).parts@).push(
                        content@,
                    )
                    &&& r matches Ok((c, event)) && c == content && event == (
                    DownloadEvent::MapChunkFetched { fetched: final(self).parts@.len() as usize })
                },
                Ok(None) => {
                    &&& final(self).parts@ == old(self).parts@
                    &&& r matches Err(m) && m@ == "DataMap chunk not found: "@ + hex_text(address@)
                },
                Err(e) => {
                    &&& final(self).parts@ == old(self).parts@
                    &&& r matches Err(m) && m@ == "DataMap resolution failed: "@ + message_text(e)
                },
            },
    {
        match data_map_chunk(address, result) {
            Ok(content) => {
                let part = content.clone();
                assert(part@ =~= content@);
                self.parts.push(part);
                assert(chunk_views(self.parts@) =~= chunk_views(old(self).parts@).push(content@));
                Ok((content, DownloadEvent::MapChunkFetched { fetched: self.parts.len() }))
            },
            Err(m) => Err(m),
        }
    }

    /// The map of the file's own chunks that the fetched parts lead to, and the
    /// event that tells how many chunks there are.
    pub fn finish(self, map: &DataMap) -> (r: Result<(DataMap, DownloadEvent), Error>)
        ensures
            match root_of(map@, chunk_views(self.parts@)) {
                Some(root) => r matches Ok((got, event)) && got@ == root && root.child is None
                    && event == (DownloadEvent::DataMapResolved {
                    total_chunks: root.chunks.len() as usize,
                }),
                None => r matches Err(Error::Encryption(m)) && gives_reason(
                    m@,
                    "DataMap resolution failed: "@,
                ),
            },
    {
        match resolve_data_map(map, &self.parts) {
            Ok(root) => {
                let event = resolved_event(&root);
                Ok((root, event))
            },
            Err(e) => Err(e),
        }
    }
}

/// Tells how many chunks the file has, once its data map is resolved.
pub fn resolved_event(root: &DataMap) -> (r: DownloadEvent)
    ensures
        r == (DownloadEvent::DataMapResolved { total_chunks: root.chunks@.len() as usize }),
{
    DownloadEvent::DataMapResolved { total_chunks: root.len() }
}

/// A fetched chunk with its position.
pub type FetchedChunk = (usize, Vec<u8>);

/// The position of a fetched chunk.
pub open spec fn by_position() -> spec_fn(FetchedChunk) -> nat {
    |c: FetchedChunk| c.0 as nat
}

/// Fetched chunks in the order of their positions, as decryption pairs them
/// with the addresses that it asked for.
pub fn in_order(results: Vec<FetchedChunk>) -> (r: Vec<FetchedChunk>)
    ensures
        r@ == stable_sort(results@, by_position()),
{
    let ghost key = by_position();
    let mut keys: Vec<U256> = Vec::new();
    let mut i: usize = 0;
    while i < results.len()
        invariant
            i <= results.len(),
            keys.len() == i,
            key == by_position(),
            forall|k: int| 0 <= k < i ==> (#[trigger] keys[k]).value() == key(results[k]),
        decreases results.len() - i,
    {
        keys.push(U256::from_u128(results[i].0 as u128));
        i = i + 1;
    }
    sort_by_keys(results, &keys, Ghost(key))
}

/// A chunk to fetch: its position and address.
pub type WantedChunk = (usize, [u8; 32]);

/// The positions of fetched chunks.
pub open spec fn places_of(chunks: Seq<FetchedChunk>) -> Seq<usize> {
    chunks.map_values(|c: FetchedChunk| c.0)
}

/// The positions of wanted chunks.
pub open spec fn wanted_places(chunks: Seq<WantedChunk>) -> Seq<usize> {
    chunks.map_values(|c: WantedChunk| c.0)
}

proof fn lemma_places_sorted(came: Seq<FetchedChunk>)
    ensures
        places_of(stable_sort(came, by_position())).to_multiset() == places_of(came).to_multiset(),
        forall|i: int, j: int|
            0 <= i <= j < came.len() ==> #[trigger] places_of(
                stable_sort(came, by_position()),
            )[i] <= #[trigger] places_of(stable_sort(came, by_position()))[j],
{
    let place = |c: FetchedChunk| c.0;
    let key = |p: usize| p as nat;
    lemma_sort_map(came, place, by_position(), key);
    stable_sort_orders_and_keeps(came, by_position());
    stable_sort_orders_and_keeps(places_of(came), key);
}

/// Whatever order the chunks of a batch come in, they are handed on in the order
/// in which they were asked for.
pub proof fn chunks_answer_in_the_order_asked(asked: Seq<WantedChunk>, came: Seq<FetchedChunk>)
    requires
        forall|i: int, j: int|
            0 <= i <= j < asked.len() ==> (#[trigger] asked[i]).0 <= (#[trigger] asked[j]).0,
        places_of(came).to_multiset() == wanted_places(asked).to_multiset(),
    ensures
        places_of(stable_sort(came, by_position())) == wanted_places(asked),
{
    let leq = |a: usize, b: usize| a <= b;
    lemma_places_sorted(came);
    stable_sort_orders_and_keeps(came, by_position());
    vstd::seq_lib::lemma_sorted_unique(
        places_of(stable_sort(came, by_position())),
        wanted_places(asked),
        leq,
    );
}

/// Fetching one batch of chunks. A chunk that cannot be had at once is deferred
/// and tried again in later rounds; only one that outlasts them all is fatal.
pub struct FetchBatch {
    /// Chunks that were fetched, in the order in which they came.
    pub results: Vec<FetchedChunk>,
    /// Chunks that could not be had in this round.
    pub deferred: Vec<WantedChunk>,
    /// Chunks of this round whose result is awaited.
    pub awaited: Vec<WantedChunk>,
    /// Rounds of deferred retries that were started.
    pub rounds: usize,
    /// Chunks of the whole file that were fetched.
    pub fetched: usize,
    /// Chunks of the whole file.
    pub total: usize,
}

/// What follows a round.
pub enum FetchStep {
    /// All chunks are there, in the order of their positions.
    Done(Vec<FetchedChunk>),
    /// Wait, then try these chunks again.
    Retry { delay_secs: u64, chunks: Vec<WantedChunk> },
    /// A chunk could not be had.
    Missing(String),
}

impl FetchBatch {
    /// The positions of all chunks of the batch: each one is fetched, deferred or
    /// awaited.
    pub open spec fn wanted(&self) -> Multiset<usize> {
        places_of(self.results@).to_multiset().add(
            wanted_places(self.deferred@).to_multiset(),
        ).add(wanted_places(self.awaited@).to_multiset())
    }

    pub open spec fn wf(&self) -> bool {
        &&& self.rounds <= DEFERRED_ROUNDS
        &&& self.fetched + self.deferred@.len() + self.awaited@.len() <= usize::MAX
    }

    /// Starts a batch of chunks.
    pub fn new(chunks: Vec<WantedChunk>, fetched: usize, total: usize) -> (r: FetchBatch)
        requires
            fetched + chunks@.len() <= usize::MAX,
        ensures
            r.wf(),
            r.results@.len() == 0,
            r.deferred@.len() == 0,
            r.awaited@ == chunks@,
            r.wanted() == wanted_places(chunks@).to_multiset(),
            r.rounds == 0,
            r.fetched == fetched,
            r.total == total,
    {
        let r = FetchBatch {
            results: Vec::new(),
            deferred: Vec::new(),
            awaited: chunks,
            rounds: 0,
            fetched,
            total,
        };
        proof {
            broadcast use vstd::seq_lib::group_to_multiset_ensures;

            assert(places_of(r.results@) =~= Seq::empty());
            assert(wanted_places(r.deferred@) =~= Seq::empty());
            assert(r.wanted() =~= wanted_places(chunks@).to_multiset());
        }
        r
    }

    /// Takes the result for one chunk into account. A chunk that was not found
    /// and one whose fetch failed are deferred alike. The event reports a
    /// fetched chunk.
    pub fn on_fetched(&mut self, chunk: WantedChunk, result: Result<Option<Vec<u8>>, Error>) -> (r:
        Option<DownloadEvent>)
        requires
            old(self).wf(),
            old(self).awaited@.contains(chunk),
        ensures
            final(self).wf(),
            final(self).wanted() == old(self).wanted(),
            wanted_places(final(self).awaited@).to_multiset() == wanted_places(
                old(self).awaited@,
            ).to_multiset().remove(chunk.0),
            final(self).awaited@.len() == old(self).awaited@.len() - 1,
            final(self).rounds == old(self).rounds,
            final(self).total == old(self).total,
            match result {
                Ok(Some(content)) => {
                    &&& final(self).results@ == old(self).results@.push((chunk.0, content))
                    &&& final(self).deferred@ == old(self).deferred@
                    &&& final(self).fetched == old(self).fetched + 1
                    &&& r == Some(
                        DownloadEvent::ChunksFetched {
                            fetched: final(self).fetched,
                            total: old(self).total,
                        },
                    )
                },
                _ => {
                    &&& final(self).results@ == old(self).results@
                    &&& final(self).deferred@ == old(self).deferred@.push(chunk)
                    &&& final(self).fetched == old(self).fetched
                    &&& r is None
                },
            },
    {
        broadcast use vstd::seq_lib::group_to_multiset_ensures;

        let ghost before = self.awaited@;
        let ghost at = before.index_of(chunk);
        let mut k: usize = 0;
        while self.awaited[k].0 != chunk.0
            invariant
                self.awaited@ == before,
                before.len() <= usize::MAX,
                k <= at < before.len(),
                before[at] == chunk,
            decreases before.len() - k,
        {
            k = k + 1;
        }
        let _ = self.awaited.remove(k);
        proof {
            assert(self.awaited@ == before.remove(k as int));
            assert(wanted_places(self.awaited@) =~= wanted_places(before).remove(k as int));
            assert(wanted_places(before)[k as int] == chunk.0);
        }
        match result {
            Ok(Some(content)) => {
                self.results.push((chunk.0, content));
                self.fetched = self.fetched + 1;
                proof {
                    assert(places_of(self.results@) =~= places_of(old(self).results@).push(
                        chunk.0,
                    ));
                    assert(self.wanted() =~= old(self).wanted());
                }
                Some(DownloadEvent::ChunksFetched { fetched: self.fetched, total: self.total })
            },
            _ => {
                self.deferred.push(chunk);
                proof {
                    assert(wanted_places(self.deferred@) =~= wanted_places(
                        old(self).deferred@,
                    ).push(chunk.0));
                    assert(self.wanted() =~= old(self).wanted());
                }
                None
            },
        }
    }

    /// Ends a round.
    pub fn end_round(&mut self) -> (r: FetchStep)
        requires
            old(self).wf(),
            old(self).awaited@.len() == 0,
        ensures
            final(self).wf(),
            final(self).fetched == old(self).fetched,
            final(self).total == old(self).total,
            match r {
                FetchStep::Done(results) => {
                    &&& old(self).deferred@.len() == 0
                    &&& results@ == stable_sort(old(self).results@, by_position())
                    &&& places_of(results@).to_multiset() == old(self).wanted()
                },
                FetchStep::Retry { delay_secs, chunks } => {
                    &&& old(self).deferred@.len() > 0
                    &&& old(self).rounds < DEFERRED_ROUNDS
                    &&& delay_secs == DEFERRED_ROUND_DELAYS_SECS[old(self).rounds as int]
                    &&& chunks@ == old(self).deferred@
                    &&& final(self).results@ == old(self).results@
                    &&& final(self).deferred@.len() == 0
                    &&& final(self).awaited@ == chunks@
                    &&& final(self).rounds == old(self).rounds + 1
                    &&& final(self).wanted() == old(self).wanted()
                },
                FetchStep::Missing(m) => {
                    &&& old(self).deferred@.len() > 0
                    &&& old(self).rounds == DEFERRED_ROUNDS
                    &&& m@ == "Chunk not found after "@ + decimal_text(DEFERRED_ROUNDS as nat)
                        + " deferred retry rounds: "@ + hex_text(old(self).deferred@[0].1@)
                },
            },
    {
        broadcast use vstd::seq_lib::group_to_multiset_ensures;

        proof {
            assert(wanted_places(self.awaited@) =~= Seq::empty());
        }
        if self.deferred.len() == 0 {
            let mut results: Vec<FetchedChunk> = Vec::new();
            std::mem::swap(&mut results, &mut self.results);
            proof {
                assert(wanted_places(self.deferred@) =~= Seq::empty());
                lemma_places_sorted(results@);
                assert(places_of(results@).to_multiset() =~= old(self).wanted());
            }
            return FetchStep::Done(in_order(results));
        }
        if self.rounds == DEFERRED_ROUNDS {
            let mut m = "Chunk not found after ".to_owned();
            push_decimal(&mut m, DEFERRED_ROUNDS as u128);
            m.append(" deferred retry rounds: ");
            m.append(hex_encode(&self.deferred[0].1).as_str());
            return FetchStep::Missing(m);
        }
        let delay_secs: u64 = DEFERRED_ROUND_DELAYS_SECS[self.rounds];
        let mut chunks: Vec<WantedChunk> = Vec::new();
        std::mem::swap(&mut chunks, &mut self.deferred);
        let mut again: Vec<WantedChunk> = Vec::new();
        let mut i: usize = 0;
        while i < chunks.len()
            invariant
                i <= chunks.len(),
                again@ == chunks@.take(i as int),
            decreases chunks.len() - i,
        {
            again.push(chunks[i]);
            i = i + 1;
        }
        self.awaited = again;
        self.rounds = self.rounds + 1;
        proof {
            assert(self.awaited@ =~= chunks@);
            assert(wanted_places(self.deferred@) =~= Seq::empty());
            assert(self.wanted() =~= old(self).wanted());
        }
        FetchStep::Retry { delay_secs, chunks }
    }
}

/// The name of the file that a download is written to before it is renamed.
pub fn temporary_name(process_id: u32, unique: u64) -> (r: String)
    ensures
        r@ == ".ant_download_"@ + decimal_text(process_id as nat) + "_"@ + decimal_text(
            unique as nat,
        ) + ".tmp"@,
{
    let mut name = ".ant_download_".to_owned();
    push_decimal(&mut name, process_id as u128);
    name.append("_");
    push_decimal(&mut name, unique as u128);
    name.append(".tmp");
    name
}

/// The steps of a download that self-encryption performs.
#[derive(Clone, Copy, Debug, PartialEq, Eq, Structural)]
pub enum DecryptPhase {
    /// Resolving the data map.
    Resolving,
    /// Preparing the stream.
    Preparing,
    /// Decrypting one segment.
    Decrypting,
}

/// The message that a failed step starts with.
pub open spec fn phase_text(phase: DecryptPhase) -> Seq<char> {
    match phase {
        DecryptPhase::Resolving => "DataMap resolution failed: "@,
        DecryptPhase::Preparing => "streaming decrypt failed: "@,
        DecryptPhase::Decrypting => "decryption failed: "@,
    }
}

/// The error of a step that failed.
pub fn decrypt_error(phase: DecryptPhase, reason: &str) -> (r: Error)
    ensures
        r matches Error::Encryption(m) && m@ == phase_text(phase) + reason@,
{
    let head = match phase {
        DecryptPhase::Resolving => "DataMap resolution failed: ",
        DecryptPhase::Preparing => "streaming decrypt failed: ",
        DecryptPhase::Decrypting => "decryption failed: ",
    };
    Error::Encryption(joined(head, reason))
}

/// The memory that counts is one of the readings and not below any of them, unless a
/// control group leaves less free; there is a figure wherever a reading is not zero or a
/// control group has a limit.
pub proof fn memory_is_the_best_reading(
    available: u64,
    free: u64,
    used: u64,
    total: u64,
    cgroup: Option<(u64, u64)>,
)
    ensures
        ({
            let r = usable_memory(available, free, used, total, cgroup);
            let limited = cgroup matches Some((limit, _)) && limit > 0;
            let spare = cgroup->Some_0.1;
            &&& r is None <==> !limited && available == 0 && free == 0 && total <= used
            &&& limited ==> r->0 <= spare
            &&& r is Some && (!limited || r->0 < spare) ==> {
                let m = r->0;
                &&& m >= available && m >= free && m >= total - used
                &&& m == available || m == free || m == total - used
            }
        }),
{
}

/// As many chunks are held as the share of memory for one batch has room for, each at
/// several times its size, and not one more; one is held in any case.
pub proof fn batch_fills_its_share_of_memory(usable_memory: u64, largest_chunk: u64)
    requires
        largest_chunk > 0,
        largest_chunk * DOWNLOAD_STREAM_BATCH_BYTES_PER_CHUNK_MULTIPLIER <= u64::MAX,
    ensures
        ({
            let cap = memory_cap(usable_memory, largest_chunk);
            let each = largest_chunk * DOWNLOAD_STREAM_BATCH_BYTES_PER_CHUNK_MULTIPLIER;
            let share = DOWNLOAD_STREAM_BATCH_MEMORY_BUDGET_DIVISOR as int;
            &&& cap >= 1
            &&& cap > 1 ==> cap * each * share <= usable_memory
            &&& cap < usize::MAX ==> usable_memory < (cap + 1) * each * share
        }),
{
    let share = DOWNLOAD_STREAM_BATCH_MEMORY_BUDGET_DIVISOR as int;
    let each = largest_chunk * DOWNLOAD_STREAM_BATCH_BYTES_PER_CHUNK_MULTIPLIER;
    let budget = usable_memory as int / share;
    let cap = memory_cap(usable_memory, largest_chunk);
    let q = budget / each;
    vstd::arithmetic::div_mod::lemma_fundamental_div_mod(usable_memory as int, share);
    vstd::arithmetic::div_mod::lemma_mod_bound(usable_memory as int, share);
    vstd::arithmetic::div_mod::lemma_fundamental_div_mod(budget, each);
    vstd::arithmetic::div_mod::lemma_mod_bound(budget, each);
    assert(each * q == q * each) by (nonlinear_arith);
    assert((q + 1) * each == q * each + each) by (nonlinear_arith);
    assert(budget < (q + 1) * each);
    assert(usable_memory < (budget + 1) * share) by (nonlinear_arith)
        requires
            usable_memory as int == share * budget + usable_memory as int % share,
            usable_memory as int % share < share,
    ;
    assert((budget + 1) * share <= (q + 1) * each * share) by (nonlinear_arith)
        requires
            budget + 1 <= (q + 1) * each,
            share > 0,
    ;
    if cap > 1 {
        assert(cap <= q);
        assert(cap * each <= q * each) by (nonlinear_arith)
            requires
                cap <= q,
                each > 0,
        ;
        assert(cap * each * share <= budget * share) by (nonlinear_arith)
            requires
                cap * each <= budget,
                share > 0,
        ;
        assert(budget * share <= usable_memory) by (nonlinear_arith)
            requires
                usable_memory as int == share * budget + usable_memory as int % share,
                usable_memory as int % share >= 0,
        ;
    }
    if cap < usize::MAX {
        assert(q <= cap);
        assert((q + 1) * each * share <= (cap + 1) * each * share) by (nonlinear_arith)
            requires
                q <= cap,
                each > 0,
                share > 0,
        ;
    }
}

/// Where the memory has room for it, a batch feeds the fetches several times over and is
/// not below the configured size; without a reading it has the configured size. The file
/// itself is the only other bound.
pub proof fn batch_feeds_the_fetches(
    total_chunks: usize,
    fetch_cap: usize,
    configured_batch_floor: usize,
    bytes: u64,
    largest_chunk: u64,
)
    requires
        fetch_cap >= 1,
        configured_batch_floor >= 1,
        total_chunks >= 1,
        fetch_cap * DOWNLOAD_STREAM_BATCH_FETCH_MULTIPLIER <= usize::MAX,
    ensures
        ({
            let feed = fetch_cap * DOWNLOAD_STREAM_BATCH_FETCH_MULTIPLIER;
            let cap = memory_cap(bytes, largest_chunk);
            let size = decrypt_batch_size(
                total_chunks,
                fetch_cap,
                configured_batch_floor,
                Some(bytes),
                largest_chunk,
            );
            let blind = decrypt_batch_size(
                total_chunks,
                fetch_cap,
                configured_batch_floor,
                None,
                largest_chunk,
            );
            &&& size == total_chunks || size == cap || (size >= feed && size
                >= configured_batch_floor && (size == feed || size == configured_batch_floor))
            &&& size <= total_chunks && size <= cap
            &&& blind == total_chunks || blind == configured_batch_floor
            &&& blind <= total_chunks && blind <= configured_batch_floor
        }),
{
}

} // verus!
