//! Uploading and downloading content that is held in memory.

use vstd::prelude::*;
use vstd::string::*;

use crate::data::client::batch::WavePreparation;
use crate::data::client::chunk::DataChunk;
use crate::data::client::file::{
    is_incomplete, is_intent_of, wave_batch_payment, ExternalPaymentInfo, PreparedUpload,
};
use crate::data::client::file_upload::short_message;
use crate::data::client::merkle::PaymentMode;
use crate::data::client::merkle_store::{MerkleStoreOutcome, MERKLE_STORE_MAX_ATTEMPTS};
use crate::data::client::Client;
use crate::data::data_map::{
    DataMap, chunk_views, data_map_chunk_bytes, decoded_data_map, decrypt_content, decrypted, encoded_data_map, read_data_map,
};
use crate::data::error::{joined, Error};
use crate::protocol::{compute_address, content_address};
use crate::text::{hex_encode, hex_text};

verus! {

/// Result of an in-memory data upload: the data map needed to retrieve the
/// data.
pub struct DataUploadResult {
    /// The data map containing chunk metadata for reconstruction.
    pub data_map: DataMap,
    /// Number of chunks stored on the network.
    pub chunks_stored: usize,
    /// Which payment mode was actually used (not just requested).
    pub payment_mode_used: PaymentMode,
}

/// The sum of the sizes of chunks.
pub open spec fn total_size(chunks: Seq<Vec<u8>>) -> nat
    decreases chunks.len(),
{
    if chunks.len() == 0 {
        0
    } else {
        total_size(chunks.drop_last()) + chunks.last()@.len()
    }
}

/// The average size of chunks, rounded down; zero where there are none.
pub open spec fn average_size(chunks: Seq<Vec<u8>>) -> int {
    if chunks.len() == 0 {
        0
    } else {
        total_size(chunks) as int / chunks.len() as int
    }
}

/// The addresses of chunks and their average size, for a merkle payment.
pub fn merkle_request(chunks: &Vec<Vec<u8>>) -> (r: (Vec<[u8; 32]>, u64))
    ensures
        r.0@.len() == chunks@.len(),
        forall|i: int|
            0 <= i < r.0@.len() ==> (#[trigger] r.0@[i])@ == content_address(chunks@[i]@),
        r.1 == average_size(chunks@),
{
    let mut addresses: Vec<[u8; 32]> = Vec::new();
    let mut total: u128 = 0;
    let n: usize = chunks.len();
    let mut i: usize = 0;
    assert(chunks@.take(0) =~= Seq::empty());
    while i < n
        invariant
            i <= n,
            n == chunks.len(),
            addresses@.len() == i,
            forall|k: int|
                0 <= k < i ==> (#[trigger] addresses@[k])@ == content_address(chunks@[k]@),
            total == total_size(chunks@.take(i as int)),
            total <= i * (usize::MAX as int),
        decreases n - i,
    {
        addresses.push(compute_address(chunks[i].as_slice()));
        let size: usize = chunks[i].len();
        proof {
            assert(chunks@.take(i + 1).drop_last() =~= chunks@.take(i as int));
            assert((i + 1) * (usize::MAX as int) == i * (usize::MAX as int) + usize::MAX)
                by (nonlinear_arith);
            assert((i + 1) * (usize::MAX as int) <= u128::MAX) by (nonlinear_arith)
                requires
                    i + 1 <= usize::MAX,
                    usize::MAX <= u64::MAX,
            ;
        }
        total = total + size as u128;
        i = i + 1;
    }
    assert(chunks@.take(i as int) =~= chunks@);
    if n == 0 {
        return (addresses, 0);
    }
    let average: u128 = total / n as u128;
    proof {
        assert(average <= usize::MAX) by (nonlinear_arith)
            requires
                average == total / n as u128,
                total <= n * (usize::MAX as int),
                n > 0,
        ;
    }
    (addresses, average as u64)
}

/// The result of an upload whose chunks were paid for one by one.
pub fn data_upload_result(data_map: DataMap, stored: &Vec<[u8; 32]>) -> (r: DataUploadResult)
    ensures
        r.data_map == data_map,
        r.chunks_stored == stored@.len(),
        r.payment_mode_used == PaymentMode::Single,
{
    DataUploadResult {
        data_map,
        chunks_stored: stored.len(),
        payment_mode_used: PaymentMode::Single,
    }
}

/// The result of an upload that was paid with a merkle tree: it fails where any
/// chunk is left.
pub fn data_upload_merkle_result(
    data_map: DataMap,
    outcome: MerkleStoreOutcome,
    total_chunks: usize,
) -> (r: Result<DataUploadResult, Error>)
    ensures
        match outcome.fatal {
            Some(e) => r == Err::<DataUploadResult, Error>(e),
            None => match r {
                Ok(result) => {
                    &&& outcome.failed_addresses@.len() == 0
                    &&& result.data_map == data_map
                    &&& result.chunks_stored == outcome.stored
                    &&& result.payment_mode_used == PaymentMode::Merkle
                },
                Err(e) => {
                    &&& outcome.failed_addresses@.len() > 0
                    &&& is_incomplete(e, outcome.stored_addresses@, outcome, total_chunks)
                },
            },
        },
{
    if outcome.fatal.is_none() && outcome.failed_addresses.len() > 0 {
        let failed_count: usize = outcome.failed_addresses.len();
        return Err(
            Error::PartialUpload {
                stored: outcome.stored_addresses,
                stored_count: outcome.stored,
                failed: outcome.failed_addresses,
                failed_count,
                total_chunks,
                reason: short_message(failed_count, MERKLE_STORE_MAX_ATTEMPTS),
            },
        );
    }
    match outcome.fatal {
        Some(e) => Err(e),
        None => Ok(
            DataUploadResult {
                data_map,
                chunks_stored: outcome.stored,
                payment_mode_used: PaymentMode::Merkle,
            },
        ),
    }
}

/// An upload prepared for an external signer, once its chunks were quoted.
pub fn prepared_data_upload(data_map: DataMap, quoted: WavePreparation, total_chunks: usize) -> (r:
    PreparedUpload)
    ensures
        r.data_map == data_map,
        r.payment_info matches ExternalPaymentInfo::WaveBatch { prepared_chunks, payment_intent }
            && {
            &&& prepared_chunks@ == quoted.prepared@
            &&& is_intent_of(payment_intent, quoted.prepared@)
        },
        r.data_map_address is None,
        r.already_stored_addresses@ == quoted.already_stored@,
        r.total_chunks == total_chunks,
{
    let ghost found = quoted.already_stored@;
    let (payment_info, already_stored_addresses) = wave_batch_payment(quoted, Vec::new());
    assert(already_stored_addresses@ =~= found);
    PreparedUpload {
        data_map,
        payment_info,
        data_map_address: None,
        already_stored_addresses,
        total_chunks,
    }
}

impl Client {
    /// The chunk that has to be stored to make a data map public.
    pub fn data_map_store(&self, data_map: &DataMap) -> (r: Result<Vec<u8>, Error>)
        ensures
            match encoded_data_map(data_map@) {
                Some(bytes) => r matches Ok(got) && got@ == bytes && decoded_data_map(got@)
                    == Some(data_map@),
                None => r matches Err(Error::Serialization(m)) && exists|reason: Seq<char>|
                    m@ == #[trigger] ("Failed to serialize DataMap: "@ + reason),
            },
    {
        data_map_chunk_bytes(data_map)
    }

    /// The data map in a chunk that was fetched from an address.
    pub fn data_map_fetch(
        &self,
        address: &[u8; 32],
        fetched: Result<Option<DataChunk>, Error>,
    ) -> (r: Result<DataMap, Error>)
        ensures
            match fetched {
                Err(e) => r == Err::<DataMap, Error>(e),
                Ok(None) => r matches Err(Error::InvalidData(m)) && m@
                    == "DataMap chunk not found at "@ + hex_text(address@),
                Ok(Some(chunk)) => match decoded_data_map(chunk.content@) {
                    Some(map) => r matches Ok(got) && got@ == map,
                    None => r matches Err(Error::Serialization(m)) && exists|reason: Seq<char>|
                        m@ == #[trigger] ("Failed to deserialize DataMap: "@ + reason),
                },
            },
    {
        match fetched {
            Err(e) => Err(e),
            Ok(None) => Err(
                Error::InvalidData(
                    joined("DataMap chunk not found at ", hex_encode(address).as_str()),
                ),
            ),
            Ok(Some(chunk)) => read_data_map(chunk.content.as_slice()),
        }
    }
}

/// The message on a chunk that is not there.
pub open spec fn missing_chunk(address: Seq<u8>) -> Seq<char> {
    "Missing chunk "@ + hex_text(address) + " required for data reconstruction"@
}

/// The content of a chunk that a download cannot do without.
pub fn required_chunk(address: &[u8; 32], fetched: Result<Option<DataChunk>, Error>) -> (r: Result<
    Vec<u8>,
    Error,
>)
    ensures
        match fetched {
            Err(e) => r == Err::<Vec<u8>, Error>(e),
            Ok(None) => r matches Err(Error::InvalidData(m)) && m@ == missing_chunk(address@),
            Ok(Some(chunk)) => r == Ok::<Vec<u8>, Error>(chunk.content),
        },
{
    match fetched {
        Err(e) => Err(e),
        Ok(None) => {
            let mut m = joined("Missing chunk ", hex_encode(address).as_str());
            m.append(" required for data reconstruction");
            Err(Error::InvalidData(m))
        },
        Ok(Some(chunk)) => Ok(chunk.content),
    }
}

/// What is fetched for the chunks of a map, as far as nothing is missing.
pub open spec fn fetched_contents(fetched: Seq<Result<Option<DataChunk>, Error>>) -> Seq<Seq<u8>> {
    fetched.map_values(|f: Result<Option<DataChunk>, Error>| f->Ok_0->Some_0.content@)
}

/// Whether a chunk was delivered.
pub open spec fn delivered(fetched: Result<Option<DataChunk>, Error>) -> bool {
    fetched is Ok && fetched->Ok_0 is Some
}

impl Client {
    /// The content of a map out of what was fetched for each of its chunks, in
    /// the order of the map. All chunks have to be there; the first that is not
    /// decides the error.
    pub fn data_download(
        &self,
        data_map: &DataMap,
        fetched: Vec<Result<Option<DataChunk>, Error>>,
    ) -> (r: Result<Vec<u8>, Error>)
        requires
            fetched@.len() == data_map@.chunks.len(),
        ensures
            if forall|i: int| 0 <= i < fetched@.len() ==> delivered(#[trigger] fetched@[i]) {
                match decrypted(data_map@, fetched_contents(fetched@)) {
                    Some(content) => r matches Ok(got) && got@ == content,
                    None => r matches Err(Error::Encryption(m)) && exists|reason: Seq<char>|
                        m@ == #[trigger] ("Failed to decrypt data: "@ + reason),
                }
            } else {
                exists|i: int|
                    {
                        &&& 0 <= i < fetched@.len()
                        &&& !delivered(#[trigger] fetched@[i])
                        &&& forall|k: int| 0 <= k < i ==> delivered(#[trigger] fetched@[k])
                        &&& match fetched@[i] {
                            Err(e) => r == Err::<Vec<u8>, Error>(e),
                            Ok(_) => r matches Err(Error::InvalidData(m)) && m@ == missing_chunk(
                                data_map@.chunks[i].dst_hash,
                            ),
                        }
                    }
            },
    {
        let ghost all = fetched@;
        let mut rest = fetched;
        let n: usize = rest.len();
        let mut chunks: Vec<Vec<u8>> = Vec::new();
        let mut i: usize = 0;
        assert(all.skip(0) =~= all);
        while i < n
            invariant
                i <= n,
                n == all.len(),
                all == fetched@,
                n == data_map@.chunks.len(),
                rest@ == all.skip(i as int),
                chunks@.len() == i,
                forall|k: int| 0 <= k < i ==> delivered(#[trigger] all[k]),
                forall|k: int|
                    0 <= k < i ==> (#[trigger] chunks@[k])@ == all[k]->Ok_0->Some_0.content@,
            decreases n - i,
        {
            let answer = rest.remove(0);
            assert(answer == all[i as int]);
            assert(rest@ =~= all.skip(i + 1));
            match required_chunk(&data_map.chunks[i].dst_hash, answer) {
                Ok(content) => {
                    chunks.push(content);
                },
                Err(e) => {
                    return Err(e);
                },
            }
            i = i + 1;
        }
        assert(chunk_views(chunks@) =~= fetched_contents(all));
        decrypt_content(data_map, chunks)
    }
}

/// Sizes add up, and the average is the whole number next below the size of each where
/// all were of one size.
pub proof fn average_is_the_mean(a: Seq<Vec<u8>>, b: Seq<Vec<u8>>)
    ensures
        total_size(a + b) == total_size(a) + total_size(b),
        forall|c: Vec<u8>| total_size(#[trigger] seq![c]) == c@.len(),
        a.len() > 0 ==> average_size(a) * a.len() <= total_size(a) < (average_size(a) + 1)
            * a.len(),
    decreases b.len(),
{
    if b.len() == 0 {
        assert(a + b =~= a);
    } else {
        average_is_the_mean(a, b.drop_last());
        assert((a + b).drop_last() =~= a + b.drop_last());
    }
    assert forall|c: Vec<u8>| total_size(#[trigger] seq![c]) == c@.len() by {
        let none = Seq::<Vec<u8>>::empty();
        assert(seq![c].drop_last() =~= none);
        assert(seq![c].last() == c);
        assert(total_size(none) == 0);
    }
    if a.len() > 0 {
        let n = a.len() as int;
        let t = total_size(a) as int;
        let q = t / n;
        vstd::arithmetic::div_mod::lemma_fundamental_div_mod(t, n);
        vstd::arithmetic::div_mod::lemma_mod_bound(t, n);
        assert(n * q == q * n) by (nonlinear_arith);
        assert((q + 1) * n == q * n + n) by (nonlinear_arith);
    }
}

} // verus!
