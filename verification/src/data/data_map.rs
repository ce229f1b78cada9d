//! Data maps: what is needed to find the chunks of a content and to decrypt
//! them.

use bytes::Bytes;
use self_encryption::{
    get_root_data_map, ChunkInfo as EncryptedInfo, DataMap as EncryptedMap,
    Error as EncryptionError,
};
use vstd::prelude::*;
use vstd::string::*;
use xor_name::XorName;

use crate::data::error::{gives_reason, joined, Error};
use crate::protocol::{compute_address, content_address};
use crate::text::{hex_encode, hex_text};
use crate::xor::same_bytes;

verus! {

/// One chunk of a content.
#[derive(Clone, Copy, Debug, PartialEq, Eq)]
pub struct ChunkInfo {
    /// Position of the chunk.
    pub index: usize,
    /// Address of the encrypted chunk.
    pub dst_hash: [u8; 32],
    /// Hash of the chunk before encryption.
    pub src_hash: [u8; 32],
    /// Size of the chunk before encryption.
    pub src_size: usize,
}

/// The contents of a chunk's entry.
pub struct ChunkInfoView {
    pub index: usize,
    pub dst_hash: Seq<u8>,
    pub src_hash: Seq<u8>,
    pub src_size: usize,
}

impl View for ChunkInfo {
    type V = ChunkInfoView;

    open spec fn view(&self) -> ChunkInfoView {
        ChunkInfoView {
            index: self.index,
            dst_hash: self.dst_hash@,
            src_hash: self.src_hash@,
            src_size: self.src_size,
        }
    }
}

/// The chunks of a content. A map of many chunks is itself encrypted and kept
/// as chunks; `child` then tells how many times over.
#[derive(Clone, Debug, PartialEq, Eq)]
pub struct DataMap {
    pub chunks: Vec<ChunkInfo>,
    pub child: Option<usize>,
}

/// The contents of a data map.
pub struct DataMapView {
    pub chunks: Seq<ChunkInfoView>,
    pub child: Option<usize>,
}

impl View for DataMap {
    type V = DataMapView;

    open spec fn view(&self) -> DataMapView {
        DataMapView {
            chunks: self.chunks@.map_values(|c: ChunkInfo| c@),
            child: self.child,
        }
    }
}

impl DataMap {
    /// Number of chunks in the map.
    pub fn len(&self) -> (r: usize)
        ensures
            r == self@.chunks.len(),
    {
        self.chunks.len()
    }

    /// Whether the map's chunks hold another map.
    pub fn is_child(&self) -> (r: bool)
        ensures
            r == (self@.child is Some),
    {
        self.child.is_some()
    }

    /// The addresses of the chunks, in the order of the map.
    pub fn addresses(&self) -> (r: Vec<[u8; 32]>)
        ensures
            r@.len() == self@.chunks.len(),
            forall|i: int| 0 <= i < r@.len() ==> (#[trigger] r@[i])@ == self@.chunks[i].dst_hash,
    {
        let mut list: Vec<[u8; 32]> = Vec::new();
        let mut i: usize = 0;
        while i < self.chunks.len()
            invariant
                i <= self.chunks.len(),
                list@.len() == i,
                forall|k: int|
                    0 <= k < i ==> (#[trigger] list@[k])@ == self@.chunks[k].dst_hash,
            decreases self.chunks.len() - i,
        {
            list.push(self.chunks[i].dst_hash);
            i = i + 1;
        }
        list
    }
}

/// Byte strings by their bytes.
pub open spec fn chunk_views(chunks: Seq<Vec<u8>>) -> Seq<Seq<u8>> {
    chunks.map_values(|c: Vec<u8>| c@)
}

/// The content that a map and chunks decrypt to, where they do: what
/// `self_encryption::decrypt` returns.
pub uninterp spec fn decrypted(map: DataMapView, chunks: Seq<Seq<u8>>) -> Option<Seq<u8>>;

/// No two different chunks of a list share an address.
pub open spec fn addressed_apart(chunks: Seq<Seq<u8>>) -> bool {
    forall|i: int, j: int|
        0 <= i < chunks.len() && 0 <= j < chunks.len() && content_address(#[trigger] chunks[i])
            == content_address(#[trigger] chunks[j]) ==> chunks[i] == chunks[j]
}

/// Whether one of the chunks has this address.
pub open spec fn holds_address(chunks: Seq<Seq<u8>>, address: Seq<u8>) -> bool {
    exists|k: int| 0 <= k < chunks.len() && content_address(#[trigger] chunks[k]) == address
}

/// Whether each chunk that a map names is among these, under its address.
pub open spec fn holds_all(chunks: Seq<Seq<u8>>, map: DataMapView) -> bool {
    forall|i: int|
        0 <= i < map.chunks.len() ==> holds_address(chunks, (#[trigger] map.chunks[i]).dst_hash)
}

/// Whether `fetched` are chunks out of `chunks`, and all that a map names are
/// among them.
pub open spec fn draws(map: DataMapView, chunks: Seq<Seq<u8>>, fetched: Seq<Seq<u8>>) -> bool {
    &&& addressed_apart(chunks)
    &&& forall|k: int| 0 <= k < fetched.len() ==> chunks.contains(#[trigger] fetched[k])
    &&& holds_all(fetched, map)
}

/// The map that names the chunks of a content, where the parts lead to it: what
/// `self_encryption::get_root_data_map` returns where each chunk that it asks for
/// is the first of `parts` with its address.
pub uninterp spec fn root_of(map: DataMapView, parts: Seq<Seq<u8>>) -> Option<DataMapView>;

/// Whether the chunks are those of two maps and of no map in between.
pub open spec fn one_level_apart(
    map: DataMapView,
    root: DataMapView,
    chunks: Seq<Seq<u8>>,
) -> bool {
    chunks.len() == map.chunks.len() + root.chunks.len()
}

/// Whether a map whose chunks hold another map, and all chunks, are an encryption
/// of a content: the map's own chunks lead to a root map and, unless that map was
/// itself so large that further maps stand in between, the chunks that the root
/// map names decrypt to the content.
pub open spec fn encrypts_in_two(content: Seq<u8>, map: DataMapView, chunks: Seq<Seq<u8>>) -> bool {
    root_of(map, chunks) matches Some(root) && {
        &&& root.child is None
        &&& holds_all(chunks, root)
        &&& forall|parts: Seq<Seq<u8>>|
            draws(map, chunks, parts) ==> #[trigger] root_of(map, parts) == Some(root)
        &&& one_level_apart(map, root, chunks) ==> {
            &&& forall|fetched: Seq<Seq<u8>>|
                draws(root, chunks, fetched) ==> #[trigger] decrypted(root, fetched) == Some(content)
            &&& forall|fetched: Seq<Seq<u8>>|
                draws(map, chunks, fetched) && draws(root, chunks, fetched)
                    ==> #[trigger] decrypted(map, fetched) == Some(content)
        }
    }
}

/// Whether a map and chunks are an encryption of a content: each chunk that the
/// map names is there under its address, and the chunks lead back to the content.
pub open spec fn encrypts(content: Seq<u8>, map: DataMapView, chunks: Seq<Seq<u8>>) -> bool {
    &&& holds_all(chunks, map)
    &&& match map.child {
        None => forall|fetched: Seq<Seq<u8>>|
            draws(map, chunks, fetched) ==> #[trigger] decrypted(map, fetched) == Some(content),
        Some(_) => addressed_apart(chunks) ==> encrypts_in_two(content, map, chunks),
    }
}

/// Whether a map names an address.
pub open spec fn names_address(map: DataMapView, address: Seq<u8>) -> bool {
    exists|i: int| 0 <= i < map.chunks.len() && (#[trigger] map.chunks[i]).dst_hash == address
}

/// Whether these are chunks under the addresses that a map names, in whatever
/// order they came, and none is missing.
pub open spec fn fetched_for(map: DataMapView, fetched: Seq<Seq<u8>>) -> bool {
    &&& forall|k: int|
        0 <= k < fetched.len() ==> names_address(map, content_address(#[trigger] fetched[k]))
    &&& holds_all(fetched, map)
}

/// Chunks that are fetched under the addresses that a map names are those that
/// were stored there.
proof fn lemma_fetched_are_drawn(
    map: DataMapView,
    chunks: Seq<Seq<u8>>,
    fetched: Seq<Seq<u8>>,
    all: Seq<Seq<u8>>,
)
    requires
        holds_all(chunks, map),
        fetched_for(map, fetched),
        addressed_apart(all),
        forall|i: int| 0 <= i < chunks.len() ==> all.contains(#[trigger] chunks[i]),
        forall|i: int| 0 <= i < fetched.len() ==> all.contains(#[trigger] fetched[i]),
    ensures
        draws(map, chunks, fetched),
{
    assert forall|i: int, j: int|
        0 <= i < chunks.len() && 0 <= j < chunks.len() && content_address(#[trigger] chunks[i])
            == content_address(#[trigger] chunks[j]) implies chunks[i] == chunks[j] by {
        assert(all.contains(chunks[i]) && all.contains(chunks[j]));
        let (a, b) = (all.index_of(chunks[i]), all.index_of(chunks[j]));
        assert(all[a] == chunks[i] && all[b] == chunks[j]);
    }
    assert forall|k: int| 0 <= k < fetched.len() implies chunks.contains(#[trigger] fetched[k]) by {
        let address = content_address(fetched[k]);
        assert(names_address(map, address));
        let i = choose|i: int|
            0 <= i < map.chunks.len() && (#[trigger] map.chunks[i]).dst_hash == address;
        assert(holds_address(chunks, map.chunks[i].dst_hash));
        let j = choose|j: int|
            0 <= j < chunks.len() && content_address(#[trigger] chunks[j]) == address;
        assert(all.contains(chunks[j]) && all.contains(fetched[k]));
        let (a, b) = (all.index_of(chunks[j]), all.index_of(fetched[k]));
        assert(all[a] == chunks[j] && all[b] == fetched[k]);
    }
}

/// A content comes back from the network as it was encrypted: the chunks that
/// are fetched under the addresses that its map names decrypt to it.
///
/// A chunk is accepted by its address alone, so no two different chunks may
/// share one.
pub proof fn stored_content_reads_back(
    content: Seq<u8>,
    map: DataMapView,
    chunks: Seq<Seq<u8>>,
    fetched: Seq<Seq<u8>>,
)
    requires
        encrypts(content, map, chunks),
        map.child is None,
        fetched_for(map, fetched),
        addressed_apart(chunks + fetched),
    ensures
        decrypted(map, fetched) == Some(content),
{
    let all = chunks + fetched;
    assert forall|i: int| 0 <= i < chunks.len() implies all.contains(#[trigger] chunks[i]) by {
        assert(all[i] == chunks[i]);
    }
    assert forall|i: int| 0 <= i < fetched.len() implies all.contains(#[trigger] fetched[i]) by {
        assert(all[chunks.len() + i] == fetched[i]);
    }
    lemma_fetched_are_drawn(map, chunks, fetched, all);
}

/// A content whose map was itself encrypted comes back in two steps: the parts
/// that are fetched under the addresses that its map names lead to a root map,
/// and the chunks that are fetched under the addresses that the root map names
/// decrypt to the content.
///
/// That holds as long as no further map stands between the two: a root map of
/// more than three chunks' size is not found again.
pub proof fn nested_content_reads_back(
    content: Seq<u8>,
    map: DataMapView,
    chunks: Seq<Seq<u8>>,
    parts: Seq<Seq<u8>>,
    root: DataMapView,
    fetched: Seq<Seq<u8>>,
)
    requires
        encrypts(content, map, chunks),
        map.child is Some,
        fetched_for(map, parts),
        root_of(map, parts) == Some(root),
        one_level_apart(map, root, chunks),
        fetched_for(root, fetched),
        addressed_apart(chunks + parts + fetched),
    ensures
        root.child is None,
        decrypted(root, fetched) == Some(content),
{
    let all = chunks + parts + fetched;
    assert forall|i: int| 0 <= i < chunks.len() implies all.contains(#[trigger] chunks[i]) by {
        assert(all[i] == chunks[i]);
    }
    assert forall|i: int| 0 <= i < parts.len() implies all.contains(#[trigger] parts[i]) by {
        assert(all[chunks.len() + i] == parts[i]);
    }
    assert forall|i: int| 0 <= i < fetched.len() implies all.contains(#[trigger] fetched[i]) by {
        assert(all[chunks.len() + parts.len() + i] == fetched[i]);
    }
    lemma_fetched_are_drawn(map, chunks, parts, all);
    assert(encrypts_in_two(content, map, chunks));
    lemma_fetched_are_drawn(root, chunks, fetched, all);
}

/// The parts that are fetched under the addresses that a map names always lead to
/// a root map, whose chunks were stored with the content.
pub proof fn nested_map_is_resolved(
    content: Seq<u8>,
    map: DataMapView,
    chunks: Seq<Seq<u8>>,
    parts: Seq<Seq<u8>>,
)
    requires
        encrypts(content, map, chunks),
        map.child is Some,
        fetched_for(map, parts),
        addressed_apart(chunks + parts),
    ensures
        root_of(map, parts) matches Some(root) && root.child is None && holds_all(chunks, root),
{
    let all = chunks + parts;
    assert forall|i: int| 0 <= i < chunks.len() implies all.contains(#[trigger] chunks[i]) by {
        assert(all[i] == chunks[i]);
    }
    assert forall|i: int| 0 <= i < parts.len() implies all.contains(#[trigger] parts[i]) by {
        assert(all[chunks.len() + i] == parts[i]);
    }
    lemma_fetched_are_drawn(map, chunks, parts, all);
    assert(encrypts_in_two(content, map, chunks));
}

/// The chunks that an encryption yields decrypt to the content, also where the
/// map's chunks hold another map and no further one stands in between.
pub proof fn encrypted_content_reads_back(
    content: Seq<u8>,
    map: DataMapView,
    chunks: Seq<Seq<u8>>,
)
    requires
        encrypts(content, map, chunks),
        addressed_apart(chunks),
        map.child is Some ==> (root_of(map, chunks) matches Some(root) && one_level_apart(
            map,
            root,
            chunks,
        )),
    ensures
        decrypted(map, chunks) == Some(content),
{
    assert(draws(map, chunks, chunks));
    if map.child is Some {
        assert(encrypts_in_two(content, map, chunks));
        let root = root_of(map, chunks)->Some_0;
        assert(draws(root, chunks, chunks));
    }
}

/// `self_encryption::encrypt`: a data map and the encrypted chunks, for a content
/// of three bytes or more. Where the content has more than three chunks, the map
/// is encrypted too, and its chunks follow those of the content. `decrypt` and
/// `get_root_data_map` look chunks up by their address, so their order is of no
/// account, nor are those that a map does not name. A root map of more than three
/// chunks' size is encrypted through further maps, past which neither finds its
/// way, and nothing is then stated of the way back to the content.
///
/// How a content is cut into chunks is fixed when the program is built, and
/// nothing is stated of it, nor of the text of an error. A program built for
/// chunks so small that no map ever fits into three of them does not return from
/// this call; the default is about four million bytes.
#[verifier::external_body]
fn encrypt(content: Vec<u8>) -> (r: Result<(DataMap, Vec<Vec<u8>>), String>)
    ensures
        r is Ok <==> content@.len() >= 3,
        r matches Ok((map, chunks)) ==> encrypts(content@, map@, chunk_views(chunks@)),
{
    let (m, list) = self_encryption::encrypt(content.into()).map_err(|e| e.to_string())?;
    let chunks = m.chunk_identifiers.into_iter().map(|c| ChunkInfo {
        index: c.index,
        dst_hash: c.dst_hash.0,
        src_hash: c.src_hash.0,
        src_size: c.src_size,
    }).collect();
    Ok((DataMap { chunks, child: m.child }, list.into_iter().map(|c| c.content.to_vec()).collect()))
}

/// The first of the chunks that has an address.
pub open spec fn first_at(chunks: Seq<Seq<u8>>, address: Seq<u8>) -> Option<Seq<u8>>
    decreases chunks.len(),
{
    if chunks.len() == 0 {
        None
    } else if content_address(chunks[0]) == address {
        Some(chunks[0])
    } else {
        first_at(chunks.skip(1), address)
    }
}

/// The first of the parts that has an address, or which one is missing.
fn part_at(parts: &Vec<Vec<u8>>, address: &[u8; 32]) -> (r: Result<Vec<u8>, String>)
    ensures
        match first_at(chunk_views(parts@), address@) {
            Some(content) => r matches Ok(part) && part@ == content,
            None => r matches Err(m) && m@ == "Chunk not found for hash: "@ + hex_text(address@),
        },
{
    let ghost all = chunk_views(parts@);
    let mut i: usize = 0;
    assert(all.skip(0) =~= all);
    while i < parts.len()
        invariant
            i <= parts.len(),
            all == chunk_views(parts@),
            first_at(all, address@) == first_at(all.skip(i as int), address@),
        decreases parts.len() - i,
    {
        assert(all.skip(i as int)[0] == parts@[i as int]@);
        assert(all.skip(i as int).skip(1) =~= all.skip(i + 1));
        if same_bytes(&compute_address(parts[i].as_slice()), address) {
            let part = parts[i].clone();
            assert(part@ =~= parts@[i as int]@);
            return Ok(part);
        }
        i = i + 1;
    }
    Err(joined("Chunk not found for hash: ", hex_encode(address).as_str()))
}

/// `self_encryption::get_root_data_map`, with each chunk that it asks for taken
/// out of `parts` by its address: the map that names the chunks of a content,
/// which is no map of a map. Nothing is stated of the text of an error.
#[verifier::external_body]
fn root_data_map(map: &DataMap, parts: &Vec<Vec<u8>>) -> (r: Result<DataMap, String>)
    ensures
        match r {
            Ok(root) => root_of(map@, chunk_views(parts@)) == Some(root@) && root@.child is None,
            Err(_) => root_of(map@, chunk_views(parts@)) is None,
        },
{
    let infos = map.chunks.iter().map(|c| EncryptedInfo {
        index: c.index,
        dst_hash: XorName(c.dst_hash),
        src_hash: XorName(c.src_hash),
        src_size: c.src_size,
    }).collect();
    let m = EncryptedMap { chunk_identifiers: infos, child: map.child };
    let root = get_root_data_map(m, &mut |a: XorName| {
        part_at(parts, &a.0).map(Bytes::from).map_err(EncryptionError::Generic)
    }).map_err(|e| e.to_string())?;
    let infos = root.infos().iter().map(|c| ChunkInfo { index: c.index, dst_hash: c.dst_hash.0,
        src_hash: c.src_hash.0, src_size: c.src_size }).collect();
    Ok(DataMap { chunks: infos, child: root.child })
}

/// The map that the fetched parts of a map of maps lead to.
pub fn resolve_data_map(map: &DataMap, parts: &Vec<Vec<u8>>) -> (r: Result<DataMap, Error>)
    ensures
        match root_of(map@, chunk_views(parts@)) {
            Some(root) => r matches Ok(got) && got@ == root && root.child is None,
            None => r matches Err(Error::Encryption(m)) && gives_reason(
                m@,
                "DataMap resolution failed: "@,
            ),
        },
{
    match root_data_map(map, parts) {
        Ok(root) => Ok(root),
        Err(e) => Err(Error::Encryption(joined("DataMap resolution failed: ", e.as_str()))),
    }
}

/// `self_encryption::decrypt`: the content. Nothing is stated of the text of an
/// error.
#[verifier::external_body]
fn decrypt(map: &DataMap, chunks: Vec<Vec<u8>>) -> (r: Result<Vec<u8>, String>)
    ensures
        match r {
            Ok(content) => decrypted(map@, chunk_views(chunks@)) == Some(content@),
            Err(_) => decrypted(map@, chunk_views(chunks@)) is None,
        },
{
    let chunk_identifiers = map.chunks.iter().map(|c| EncryptedInfo {
        index: c.index,
        dst_hash: XorName(c.dst_hash),
        src_hash: XorName(c.src_hash),
        src_size: c.src_size,
    }).collect();
    let m = EncryptedMap { chunk_identifiers, child: map.child };
    let list: Vec<_> = chunks.into_iter().map(|c| self_encryption::EncryptedChunk { content: c.into() }).collect();
    self_encryption::decrypt(&m, &list).map(|c| c.to_vec()).map_err(|e| e.to_string())
}

/// The wire form of a data map, where it has one: what `rmp_serde::to_vec`
/// returns.
pub uninterp spec fn encoded_data_map(map: DataMapView) -> Option<Seq<u8>>;

/// The data map that a byte string encodes, where it encodes one: what
/// `rmp_serde::from_slice` returns.
pub uninterp spec fn decoded_data_map(bytes: Seq<u8>) -> Option<DataMapView>;

/// `rmp_serde::to_vec` on a data map: its wire form, from which
/// `rmp_serde::from_slice` reads it back. Nothing is stated of the text of an
/// error.
#[verifier::external_body]
fn encode_data_map(map: &DataMap) -> (r: Result<Vec<u8>, String>)
    ensures
        match r {
            Ok(bytes) => encoded_data_map(map@) == Some(bytes@) && decoded_data_map(bytes@) == Some(
                map@,
            ),
            Err(_) => encoded_data_map(map@) is None,
        },
{
    let chunk_identifiers = map.chunks.iter().map(|c| EncryptedInfo {
        index: c.index,
        dst_hash: XorName(c.dst_hash),
        src_hash: XorName(c.src_hash),
        src_size: c.src_size,
    }).collect();
    let m = EncryptedMap { chunk_identifiers, child: map.child };
    rmp_serde::to_vec(&m).map_err(|e| e.to_string())
}

/// `rmp_serde::from_slice` on the wire form of a data map. Nothing is stated of
/// the text of an error.
#[verifier::external_body]
fn decode_data_map(bytes: &[u8]) -> (r: Result<DataMap, String>)
    ensures
        match r {
            Ok(map) => decoded_data_map(bytes@) == Some(map@),
            Err(_) => decoded_data_map(bytes@) is None,
        },
{
    let m = rmp_serde::from_slice::<EncryptedMap>(bytes).map_err(|e| e.to_string())?;
    let chunks = m.chunk_identifiers.into_iter().map(|c| ChunkInfo {
        index: c.index,
        dst_hash: c.dst_hash.0,
        src_hash: c.src_hash.0,
        src_size: c.src_size,
    }).collect();
    Ok(DataMap { chunks, child: m.child })
}

/// Encrypts a content into chunks.
pub fn encrypt_content(content: Vec<u8>) -> (r: Result<(DataMap, Vec<Vec<u8>>), Error>)
    ensures
        r is Ok <==> content@.len() >= 3,
        match r {
            Ok((map, chunks)) => encrypts(content@, map@, chunk_views(chunks@)),
            Err(e) => e matches Error::Encryption(m) && gives_reason(m@, "Failed to encrypt data: "@),
        },
{
    match encrypt(content) {
        Ok(parts) => Ok(parts),
        Err(e) => Err(Error::Encryption(joined("Failed to encrypt data: ", e.as_str()))),
    }
}

/// Decrypts the chunks of a content.
pub fn decrypt_content(map: &DataMap, chunks: Vec<Vec<u8>>) -> (r: Result<Vec<u8>, Error>)
    ensures
        match decrypted(map@, chunk_views(chunks@)) {
            Some(content) => r matches Ok(got) && got@ == content,
            None => r matches Err(Error::Encryption(m)) && gives_reason(m@, "Failed to decrypt data: "@),
        },
{
    match decrypt(map, chunks) {
        Ok(content) => Ok(content),
        Err(e) => Err(Error::Encryption(joined("Failed to decrypt data: ", e.as_str()))),
    }
}

/// The chunk that makes a data map public: its wire form.
pub fn data_map_chunk_bytes(map: &DataMap) -> (r: Result<Vec<u8>, Error>)
    ensures
        match encoded_data_map(map@) {
            Some(bytes) => r matches Ok(got) && got@ == bytes && decoded_data_map(got@) == Some(
                map@,
            ),
            None => r matches Err(Error::Serialization(m)) && gives_reason(m@, "Failed to serialize DataMap: "@),
        },
{
    match encode_data_map(map) {
        Ok(bytes) => Ok(bytes),
        Err(e) => Err(Error::Serialization(joined("Failed to serialize DataMap: ", e.as_str()))),
    }
}

/// Reads a data map back from a chunk.
pub fn read_data_map(bytes: &[u8]) -> (r: Result<DataMap, Error>)
    ensures
        match decoded_data_map(bytes@) {
            Some(map) => r matches Ok(got) && got@ == map,
            None => r matches Err(Error::Serialization(m)) && gives_reason(m@, "Failed to deserialize DataMap: "@),
        },
{
    match decode_data_map(bytes) {
        Ok(map) => Ok(map),
        Err(e) => Err(Error::Serialization(joined("Failed to deserialize DataMap: ", e.as_str()))),
    }
}

/// The chunk that is found under an address has that address, and none in front of it
/// does; none is found only where no chunk has it.
pub proof fn first_chunk_of_the_address_is_found(chunks: Seq<Seq<u8>>, address: Seq<u8>)
    ensures
        match first_at(chunks, address) {
            Some(found) => exists|i: int|
                {
                    &&& 0 <= i < chunks.len()
                    &&& #[trigger] chunks[i] == found
                    &&& content_address(chunks[i]) == address
                    &&& forall|k: int|
                        0 <= k < i ==> content_address(#[trigger] chunks[k]) != address
                },
            None => forall|k: int|
                0 <= k < chunks.len() ==> content_address(#[trigger] chunks[k]) != address,
        },
    decreases chunks.len(),
{
    if chunks.len() > 0 && content_address(chunks[0]) != address {
        let rest = chunks.skip(1);
        first_chunk_of_the_address_is_found(rest, address);
        assert(forall|k: int| 1 <= k < chunks.len() ==> chunks[k] == #[trigger] rest[k - 1]);
        match first_at(rest, address) {
            Some(found) => {
                let i = choose|i: int|
                    {
                        &&& 0 <= i < rest.len()
                        &&& #[trigger] rest[i] == found
                        &&& content_address(rest[i]) == address
                        &&& forall|k: int|
                            0 <= k < i ==> content_address(#[trigger] rest[k]) != address
                    };
                assert forall|k: int| 0 <= k < i + 1 implies content_address(#[trigger] chunks[k])
                    != address by {
                    if k > 0 {
                        assert(rest[k - 1] == chunks[k]);
                    }
                }
                assert(chunks[i + 1] == found);
            },
            None => {
                assert forall|k: int| 0 <= k < chunks.len() implies content_address(
                    #[trigger] chunks[k],
                ) != address by {
                    if k > 0 {
                        assert(rest[k - 1] == chunks[k]);
                    }
                }
            },
        }
    }
}

} // verus!
