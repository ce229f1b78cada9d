//! The `file` commands.

use vstd::prelude::*;
use vstd::string::*;

use crate::cli::add::UsageError;
use crate::cli::chunk::{parse_address, AddressError};
use crate::data::client::cost::MIN_FILE_SIZE;
use crate::data::client::file::{FileUploadResult, UploadEvent};
use crate::data::client::file_download::{upper, DownloadEvent};
use crate::data::client::merkle::PaymentMode;
use crate::data::error::{joined, message_text, Error};
use crate::paths::{directory, file_name, is_plain_path, path_file_name, path_parent};
use crate::text::{
    complains_about, decimal, decimal_text, hex_bytes, hex_complaint, is_ascii_text, is_hex,
    lemma_texts_push, parse_u128, parsed_up_to, push_decimal, same_text, texts,
};
use crate::xor::XORNAME_BYTE_LEN;

verus! {

/// File subcommands.
#[derive(Debug)]
pub enum FileAction {
    /// Upload a file to the network with payment.
    Upload {
        /// Path to the file to upload.
        path: String,
        /// Store the data map on the network, too.
        public: bool,
        /// Force merkle batch payment regardless of chunk count (min 2 chunks).
        merkle: bool,
        /// Disable merkle batch payment, always use per-chunk payments.
        no_merkle: bool,
        /// Per-upload override for the store timeout (seconds).
        store_timeout: Option<u64>,
        /// Per-upload override for store concurrency.
        store_concurrency: Option<usize>,
        /// Replace an existing data map file instead of writing a suffixed one.
        overwrite: bool,
    },
    /// Download a file from the network.
    Download {
        /// Hex-encoded address of a public data map.
        address: Option<String>,
        /// Path to a local data map file (for private downloads).
        datamap: Option<String>,
        /// Output file path.
        output: Option<String>,
    },
    /// Estimate the cost of uploading a file without uploading.
    Cost {
        /// Path to the file to estimate.
        path: String,
        /// Force merkle batch payment mode for the estimate.
        merkle: bool,
        /// Force single payment mode for the estimate.
        no_merkle: bool,
    },
}

impl FileAction {
    /// Return per-upload client config overrides, if any.
    pub fn upload_overrides(&self) -> (r: (Option<u64>, Option<usize>))
        ensures
            r == match *self {
                FileAction::Upload { store_timeout, store_concurrency, .. } => (
                    store_timeout,
                    store_concurrency,
                ),
                _ => (None, None),
            },
    {
        match self {
            FileAction::Upload { store_timeout, store_concurrency, .. } => (
                *store_timeout,
                *store_concurrency,
            ),
            _ => (None, None),
        }
    }
}

/// The payment mode that the flags ask for; `--merkle` wins.
pub fn requested_mode(merkle: bool, no_merkle: bool) -> (r: PaymentMode)
    ensures
        r == if merkle {
            PaymentMode::Merkle
        } else if no_merkle {
            PaymentMode::Single
        } else {
            PaymentMode::Auto
        },
{
    if merkle {
        PaymentMode::Merkle
    } else if no_merkle {
        PaymentMode::Single
    } else {
        PaymentMode::Auto
    }
}

/// What to do where a data map file is there already.
#[derive(Debug, Clone, Copy, PartialEq, Eq, Structural)]
pub enum CollisionPolicy {
    /// Replace it.
    Overwrite,
    /// Write one with a number in its name.
    NumericSuffix,
}

/// The policy that the flag asks for.
pub fn requested_policy(overwrite: bool) -> (r: CollisionPolicy)
    ensures
        r == if overwrite {
            CollisionPolicy::Overwrite
        } else {
            CollisionPolicy::NumericSuffix
        },
{
    if overwrite {
        CollisionPolicy::Overwrite
    } else {
        CollisionPolicy::NumericSuffix
    }
}

/// The name of the file that a data map's name is made from: what stands before
/// `.datamap`. Nothing where the name does not end like that, or where nothing is
/// left.
pub open spec fn datamap_stem(name: Seq<char>) -> Option<Seq<char>> {
    if name.len() > 8 && name.skip(name.len() - 8) == ".datamap"@ {
        Some(name.take(name.len() - 8))
    } else {
        None
    }
}

/// The name of the file that a data map's name is made from.
pub fn stem_of_datamap(name: &str) -> (r: Option<String>)
    ensures
        match r {
            Some(stem) => datamap_stem(name@) == Some(stem@),
            None => datamap_stem(name@) is None,
        },
{
    let end: usize = name.unicode_len();
    if end <= 8 {
        return None;
    }
    let suffix = name.substring_char(end - 8, end);
    assert(suffix@ =~= name@.skip(name@.len() - 8));
    if !same_text(suffix, ".datamap") {
        return None;
    }
    let stem = name.substring_char(0, end - 8);
    assert(stem@ =~= name@.take(name@.len() - 8));
    Some(stem.to_owned())
}

/// Whether a name is that of the file whose data map has the given file name.
pub open spec fn is_original_name(name: Option<String>, held: Option<Seq<char>>) -> bool {
    match held {
        Some(file) => match name {
            Some(n) => datamap_stem(file) == Some(n@),
            None => datamap_stem(file) is None,
        },
        None => name is None,
    }
}

/// The name of the file whose data map a path names.
pub fn original_name_from_datamap(path: &str) -> (r: Option<String>)
    ensures
        exists|held: Option<Seq<char>>| #[trigger] is_original_name(r, held),
        is_plain_path(path@) ==> is_original_name(r, file_name(path@)),
{
    match path_file_name(path) {
        Some(name) => {
            let stem = stem_of_datamap(name.as_str());
            assert(is_original_name(stem, Some(name@)));
            stem
        },
        None => {
            assert(is_original_name(None, None));
            None
        },
    }
}

/// Whether a download by data map is written to the right place: to the original
/// file's name, where the data map's file name tells it.
pub open spec fn is_output(
    r: Result<String, UsageError>,
    datamap: Seq<char>,
    held: Option<Seq<char>>,
) -> bool {
    match held {
        Some(file) if datamap_stem(file) is Some => r matches Ok(path) && Some(path@)
            == datamap_stem(file),
        _ => r matches Err(e) && e.message@ == "Cannot derive output filename from "@ + datamap
            + "; pass -o/--output explicitly"@,
    }
}

/// Where a download by data map is written to, from the data map's path and its
/// file name.
pub fn output_for_datamap(datamap: &str, file_name: Option<String>) -> (r: Result<
    String,
    UsageError,
>)
    ensures
        is_output(
            r,
            datamap@,
            match file_name {
                Some(name) => Some(name@),
                None => None,
            },
        ),
{
    let stem = match file_name {
        Some(name) => stem_of_datamap(name.as_str()),
        None => None,
    };
    match stem {
        Some(name) => Ok(name),
        None => {
            let mut message = joined("Cannot derive output filename from ", datamap);
            message.append("; pass -o/--output explicitly");
            Err(UsageError { message })
        },
    }
}

/// Resolve the on-disk output path for `file download`.
///
/// Downloads by address have nothing to derive from, so `-o/--output` is
/// mandatory. Downloads by data map default to the original filename in the
/// data map's name, written to the current working directory.
pub fn resolve_download_output(output: Option<String>, datamap: Option<&str>) -> (r: Result<
    String,
    UsageError,
>)
    ensures
        match (output, datamap) {
            (Some(path), _) => r == Ok::<String, UsageError>(path),
            (None, None) => r matches Err(e) && e.message@
                == "-o/--output is required when downloading by --address"@,
            (None, Some(dm)) => {
                &&& exists|held: Option<Seq<char>>| #[trigger] is_output(r, dm@, held)
                &&& is_plain_path(dm@) ==> is_output(r, dm@, file_name(dm@))
            },
        },
{
    match output {
        Some(path) => Ok(path),
        None => match datamap {
            None => Err(
                UsageError {
                    message: "-o/--output is required when downloading by --address".to_owned(),
                },
            ),
            Some(dm) => output_for_datamap(dm, path_file_name(dm)),
        },
    }
}

/// Tests that a file is large enough to be uploaded.
pub fn check_upload_size(file_size: u64) -> (r: Result<(), UsageError>)
    ensures
        r is Ok <==> file_size >= MIN_FILE_SIZE,
        r matches Err(e) ==> e.message@
            == "File too small: self-encryption requires at least 3 bytes"@,
{
    if file_size < MIN_FILE_SIZE {
        return Err(
            UsageError {
                message: "File too small: self-encryption requires at least 3 bytes".to_owned(),
            },
        );
    }
    Ok(())
}

/// The record of a failed upload for callers that parse the output.
pub struct UploadFailure {
    pub error: String,
    pub total_chunks: usize,
    pub chunks_stored: usize,
    pub chunks_failed: usize,
    pub reason: String,
}

/// The message of an upload of which a part is stored.
pub open spec fn partial_text(stored: nat, total: nat, failed: nat, reason: Seq<char>) -> Seq<
    char,
> {
    "Upload failed: "@ + decimal_text(stored) + "/"@ + decimal_text(total) + " stored, "@
        + decimal_text(failed) + " failed: "@ + reason
}

/// What to report of a failed upload: a record where a part of it is stored,
/// and the message.
pub fn describe_upload_failure(e: Error) -> (r: (Option<UploadFailure>, UsageError))
    ensures
        match e {
            Error::PartialUpload {
                stored_count,
                failed_count,
                total_chunks,
                reason,
                ..
            } => {
                &&& r.0 matches Some(record) && record.error@ == "partial_upload"@
                    && record.total_chunks == total_chunks && record.chunks_stored == stored_count
                    && record.chunks_failed == failed_count && record.reason@ == reason@
                &&& r.1.message@ == partial_text(
                    stored_count as nat,
                    total_chunks as nat,
                    failed_count as nat,
                    reason@,
                )
            },
            _ => r.0 is None && r.1.message@ == "File upload failed: "@ + message_text(e),
        },
{
    match e {
        Error::PartialUpload {
            stored: _,
            stored_count,
            failed: _,
            failed_count,
            total_chunks,
            reason,
        } => {
            let mut message = "Upload failed: ".to_owned();
            push_decimal(&mut message, stored_count as u128);
            message.append("/");
            push_decimal(&mut message, total_chunks as u128);
            message.append(" stored, ");
            push_decimal(&mut message, failed_count as u128);
            message.append(" failed: ");
            message.append(reason.as_str());
            (
                Some(
                    UploadFailure {
                        error: "partial_upload".to_owned(),
                        total_chunks,
                        chunks_stored: stored_count,
                        chunks_failed: failed_count,
                        reason,
                    },
                ),
                UsageError { message },
            )
        },
        other => (
            None,
            UsageError { message: joined("File upload failed: ", other.message().as_str()) },
        ),
    }
}

/// What to report where a file is stored but the chunk of its public data map
/// is not: one chunk is left.
pub fn describe_datamap_failure(chunks_stored: usize, e: &Error) -> (r: (
    UploadFailure,
    UsageError,
))
    requires
        chunks_stored < usize::MAX,
    ensures
        r.0.error@ == "datamap_store_failed"@,
        r.0.total_chunks == chunks_stored + 1,
        r.0.chunks_stored == chunks_stored,
        r.0.chunks_failed == 1,
        r.0.reason@ == "failed to store public DataMap: "@ + message_text(*e),
        r.1.message@ == "Failed to store public DataMap: "@ + message_text(*e),
{
    let text = e.message();
    (
        UploadFailure {
            error: "datamap_store_failed".to_owned(),
            total_chunks: chunks_stored + 1,
            chunks_stored,
            chunks_failed: 1,
            reason: joined("failed to store public DataMap: ", text.as_str()),
        },
        UsageError { message: joined("Failed to store public DataMap: ", text.as_str()) },
    )
}

/// The record of an upload for callers that parse the output, but for the time
/// that it took.
pub struct UploadReport {
    pub address: Option<String>,
    pub datamap: Option<String>,
    pub mode: String,
    pub chunks: usize,
    pub total_chunks: usize,
    pub chunks_stored: usize,
    pub chunks_failed: usize,
    pub size: u64,
    pub storage_cost_atto: String,
    pub gas_cost_wei: String,
    pub chunk_attempts_total: usize,
    pub store_durations_ms: Vec<u64>,
    pub retries_histogram: [usize; 4],
}

/// The record of a public upload: the data map counts as one more chunk.
pub fn public_report(result: FileUploadResult, address_hex: String, file_size: u64) -> (r:
    UploadReport)
    requires
        result.chunks_stored < usize::MAX,
    ensures
        r.address == Some(address_hex),
        r.datamap is None,
        r.mode@ == "public"@,
        r.chunks == result.chunks_stored + 1,
        r.total_chunks == result.chunks_stored + 1,
        r.chunks_stored == result.chunks_stored + 1,
        r.chunks_failed == 0,
        r.size == file_size,
        r.storage_cost_atto == result.storage_cost_atto,
        r.gas_cost_wei@ == decimal_text(result.gas_cost_wei as nat),
        r.chunk_attempts_total == result.chunk_attempts_total,
        r.store_durations_ms == result.store_durations_ms,
        r.retries_histogram == result.retries_histogram,
{
    let total: usize = result.chunks_stored + 1;
    UploadReport {
        address: Some(address_hex),
        datamap: None,
        mode: "public".to_owned(),
        chunks: total,
        total_chunks: total,
        chunks_stored: total,
        chunks_failed: 0,
        size: file_size,
        storage_cost_atto: result.storage_cost_atto,
        gas_cost_wei: decimal(result.gas_cost_wei),
        chunk_attempts_total: result.chunk_attempts_total,
        store_durations_ms: result.store_durations_ms,
        retries_histogram: result.retries_histogram,
    }
}

/// The record of a private upload.
pub fn private_report(result: FileUploadResult, datamap_path: String, file_size: u64) -> (r:
    UploadReport)
    ensures
        r.address is None,
        r.datamap == Some(datamap_path),
        r.mode@ == "private"@,
        r.chunks == result.chunks_stored,
        r.total_chunks == result.total_chunks,
        r.chunks_stored == result.chunks_stored,
        r.chunks_failed == result.chunks_failed,
        r.size == file_size,
        r.storage_cost_atto == result.storage_cost_atto,
        r.gas_cost_wei@ == decimal_text(result.gas_cost_wei as nat),
        r.chunk_attempts_total == result.chunk_attempts_total,
        r.store_durations_ms == result.store_durations_ms,
        r.retries_histogram == result.retries_histogram,
{
    UploadReport {
        address: None,
        datamap: Some(datamap_path),
        mode: "private".to_owned(),
        chunks: result.chunks_stored,
        total_chunks: result.total_chunks,
        chunks_stored: result.chunks_stored,
        chunks_failed: result.chunks_failed,
        size: file_size,
        storage_cost_atto: result.storage_cost_atto,
        gas_cost_wei: decimal(result.gas_cost_wei),
        chunk_attempts_total: result.chunk_attempts_total,
        store_durations_ms: result.store_durations_ms,
        retries_histogram: result.retries_histogram,
    }
}

/// The lines that report a public upload.
pub open spec fn public_lines_text(
    address: Seq<char>,
    stored: nat,
    size: Seq<char>,
    cost: Seq<char>,
    time: Seq<char>,
) -> Seq<Seq<char>> {
    seq![
        ""@,
        "Upload complete!"@,
        "  Address: "@ + address,
        "  Chunks:  "@ + decimal_text(stored + 1) + " ("@ + decimal_text(stored)
            + " + 1 data map)"@,
        "  Size:    "@ + size,
        "  Cost:    "@ + cost,
        "  Time:    "@ + time,
        ""@,
        "Anyone can download this file with:"@,
        "  ant file download "@ + address + " -o <FILE>"@,
    ]
}

/// The lines that report a private upload.
pub open spec fn private_lines_text(
    datamap: Seq<char>,
    stored: nat,
    size: Seq<char>,
    cost: Seq<char>,
    time: Seq<char>,
) -> Seq<Seq<char>> {
    seq![
        ""@,
        "Upload complete!"@,
        "  Datamap: "@ + datamap,
        "  Chunks:  "@ + decimal_text(stored),
        "  Size:    "@ + size,
        "  Cost:    "@ + cost,
        "  Time:    "@ + time,
        ""@,
        "Download this file with:"@,
        "  ant file download --datamap "@ + datamap,
    ]
}

/// Puts a line behind others.
fn push_line(lines: &mut Vec<String>, line: String)
    ensures
        texts(final(lines)@) == texts(old(lines)@).push(line@),
{
    proof {
        lemma_texts_push(lines@, line);
    }
    lines.push(line);
}

/// The lines that report a public upload.
pub fn public_lines(
    address: &str,
    chunks_stored: usize,
    size: &str,
    cost: &str,
    time: &str,
) -> (r: Vec<String>)
    ensures
        texts(r@) == public_lines_text(address@, chunks_stored as nat, size@, cost@, time@),
{
    let mut chunks = "  Chunks:  ".to_owned();
    push_decimal(&mut chunks, chunks_stored as u128 + 1);
    chunks.append(" (");
    push_decimal(&mut chunks, chunks_stored as u128);
    chunks.append(" + 1 data map)");
    let mut command = joined("  ant file download ", address);
    command.append(" -o <FILE>");
    let mut lines: Vec<String> = Vec::new();
    assert(texts(lines@) =~= Seq::empty());
    push_line(&mut lines, "".to_owned());
    push_line(&mut lines, "Upload complete!".to_owned());
    push_line(&mut lines, joined("  Address: ", address));
    push_line(&mut lines, chunks);
    push_line(&mut lines, joined("  Size:    ", size));
    push_line(&mut lines, joined("  Cost:    ", cost));
    push_line(&mut lines, joined("  Time:    ", time));
    push_line(&mut lines, "".to_owned());
    push_line(&mut lines, "Anyone can download this file with:".to_owned());
    push_line(&mut lines, command);
    assert(texts(lines@) =~= public_lines_text(
        address@,
        chunks_stored as nat,
        size@,
        cost@,
        time@,
    ));
    lines
}

/// The lines that report a private upload.
pub fn private_lines(
    datamap: &str,
    chunks_stored: usize,
    size: &str,
    cost: &str,
    time: &str,
) -> (r: Vec<String>)
    ensures
        texts(r@) == private_lines_text(datamap@, chunks_stored as nat, size@, cost@, time@),
{
    let mut chunks = "  Chunks:  ".to_owned();
    push_decimal(&mut chunks, chunks_stored as u128);
    let mut lines: Vec<String> = Vec::new();
    assert(texts(lines@) =~= Seq::empty());
    push_line(&mut lines, "".to_owned());
    push_line(&mut lines, "Upload complete!".to_owned());
    push_line(&mut lines, joined("  Datamap: ", datamap));
    push_line(&mut lines, chunks);
    push_line(&mut lines, joined("  Size:    ", size));
    push_line(&mut lines, joined("  Cost:    ", cost));
    push_line(&mut lines, joined("  Time:    ", time));
    push_line(&mut lines, "".to_owned());
    push_line(&mut lines, "Download this file with:".to_owned());
    push_line(&mut lines, joined("  ant file download --datamap ", datamap));
    assert(texts(lines@) =~= private_lines_text(
        datamap@,
        chunks_stored as nat,
        size@,
        cost@,
        time@,
    ));
    lines
}

/// Whether the data map of a private upload goes to the right place: into the
/// directory of the file, this one where the path names none, and under a name that
/// is made from the file's.
pub open spec fn is_located(
    r: Result<(String, String), UsageError>,
    path: Seq<char>,
    dir: Option<Seq<char>>,
    name: Option<Seq<char>>,
) -> bool {
    match name {
        Some(file) => r matches Ok((d, n)) && n@ == file && d@ == match dir {
            Some(text) if text.len() > 0 => text,
            _ => "."@,
        },
        None => r matches Err(e) && e.message@ == "Cannot determine source filename from "@ + path,
    }
}

/// Where the data map of a private upload goes, from the path of the file, its
/// directory and its name.
pub fn place_of_datamap(path: &str, dir: Option<String>, name: Option<String>) -> (r: Result<
    (String, String),
    UsageError,
>)
    ensures
        is_located(
            r,
            path@,
            match dir {
                Some(d) => Some(d@),
                None => None,
            },
            match name {
                Some(n) => Some(n@),
                None => None,
            },
        ),
{
    let place = match dir {
        Some(d) => if d.as_str().unicode_len() == 0 {
            ".".to_owned()
        } else {
            d
        },
        None => ".".to_owned(),
    };
    match name {
        Some(n) => Ok((place, n)),
        None => Err(
            UsageError { message: joined("Cannot determine source filename from ", path) },
        ),
    }
}

/// Where the data map of a private upload goes, and the name it is made from.
pub fn datamap_location(path: &str) -> (r: Result<(String, String), UsageError>)
    ensures
        exists|dir: Option<Seq<char>>, name: Option<Seq<char>>| #[trigger]
            is_located(r, path@, dir, name),
        is_plain_path(path@) ==> match (directory(path@), file_name(path@)) {
            (Some(dir), name) => is_located(r, path@, Some(dir), name),
            (None, Some(name)) => r matches Ok((_, n)) && n@ == name,
            (None, None) => is_located(r, path@, None, None),
        },
{
    place_of_datamap(path, path_parent(path), path_file_name(path))
}

/// The message of a failed step.
pub fn step_error(head: &str, reason: &str) -> (r: UsageError)
    ensures
        r.message@ == head@ + reason@,
{
    UsageError { message: joined(head, reason) }
}

/// What to show next of an upload's progress.
pub enum UploadProgress {
    /// Nothing new.
    Nothing,
    /// A new message.
    Message(String),
    /// Encryption is over: the note on it, and a bar of this length with this
    /// message.
    StartBar { note: String, length: u64, message: String },
    /// The position of the bar.
    Position(u64),
}

/// The display of an upload's progress. Quotes and stored chunks only ever move
/// the bar forward; the end of a wave sets it.
pub fn show_upload_event(event: UploadEvent, filename: &str, position: u64) -> (r: UploadProgress)
    ensures
        match event {
            UploadEvent::Encrypting { chunks_done } => r matches UploadProgress::Message(m) && m@
                == "Encrypting "@ + filename@ + " ("@ + decimal_text(chunks_done as nat)
                + " chunks)..."@,
            UploadEvent::Encrypted { total_chunks } => r matches UploadProgress::StartBar {
                note,
                length,
                message,
            } && note@ == "Encrypted into "@ + decimal_text(total_chunks as nat) + " chunks"@
                && length == total_chunks && message@ == "Uploading "@ + filename@,
            UploadEvent::QuotingChunks { .. } => r is Nothing,
            UploadEvent::ChunkQuoted { quoted, .. } => r == UploadProgress::Position(
                upper(position as int, quoted as int) as u64,
            ),
            UploadEvent::ChunkStored { stored, .. } => r == UploadProgress::Position(
                upper(position as int, stored as int) as u64,
            ),
            UploadEvent::WaveComplete { stored_so_far, .. } => r == UploadProgress::Position(
                stored_so_far as u64,
            ),
        },
{
    match event {
        UploadEvent::Encrypting { chunks_done } => {
            let mut m = joined("Encrypting ", filename);
            m.append(" (");
            push_decimal(&mut m, chunks_done as u128);
            m.append(" chunks)...");
            UploadProgress::Message(m)
        },
        UploadEvent::Encrypted { total_chunks } => {
            let mut note = "Encrypted into ".to_owned();
            push_decimal(&mut note, total_chunks as u128);
            note.append(" chunks");
            UploadProgress::StartBar {
                note,
                length: total_chunks as u64,
                message: joined("Uploading ", filename),
            }
        },
        UploadEvent::QuotingChunks { .. } => UploadProgress::Nothing,
        UploadEvent::ChunkQuoted { quoted, .. } => UploadProgress::Position(
            if position >= quoted as u64 {
                position
            } else {
                quoted as u64
            },
        ),
        UploadEvent::ChunkStored { stored, .. } => UploadProgress::Position(
            if position >= stored as u64 {
                position
            } else {
                stored as u64
            },
        ),
        UploadEvent::WaveComplete { stored_so_far, .. } => UploadProgress::Position(
            stored_so_far as u64,
        ),
    }
}

/// What to show next of a download's progress.
pub enum DownloadProgress {
    /// A new message.
    Message(String),
    /// The data map is resolved: a bar of this length.
    StartBar(u64),
    /// The position of the bar.
    Position(u64),
}

/// The display of a download's progress.
pub fn show_download_event(event: DownloadEvent) -> (r: DownloadProgress)
    ensures
        match event {
            DownloadEvent::ResolvingDataMap { .. } => r matches DownloadProgress::Message(m) && m@
                == "Resolving data map..."@,
            DownloadEvent::MapChunkFetched { fetched } => r matches DownloadProgress::Message(m)
                && m@ == "Resolving data map... ("@ + decimal_text(fetched as nat) + " chunks)"@,
            DownloadEvent::DataMapResolved { total_chunks } => r == DownloadProgress::StartBar(
                total_chunks as u64,
            ),
            DownloadEvent::ChunksFetched { fetched, .. } => r == DownloadProgress::Position(
                fetched as u64,
            ),
        },
{
    match event {
        DownloadEvent::ResolvingDataMap { .. } => DownloadProgress::Message(
            "Resolving data map...".to_owned(),
        ),
        DownloadEvent::MapChunkFetched { fetched } => {
            let mut m = "Resolving data map... (".to_owned();
            push_decimal(&mut m, fetched as u128);
            m.append(" chunks)");
            DownloadProgress::Message(m)
        },
        DownloadEvent::DataMapResolved { total_chunks } => DownloadProgress::StartBar(
            total_chunks as u64,
        ),
        DownloadEvent::ChunksFetched { fetched, .. } => DownloadProgress::Position(fetched as u64),
    }
}

/// Where the data map of a download comes from.
pub enum DataMapSource {
    /// From the network, under this address.
    Network([u8; 32]),
    /// From the local data map file.
    LocalFile,
}

/// Why no source of a data map was found.
pub enum SourceError {
    /// The address cannot be read.
    Address(AddressError),
    /// Neither an address nor a file was given.
    Missing(UsageError),
}

/// Where the data map of a download comes from: an address goes before a file.
pub fn data_map_source(address: Option<&str>, has_datamap: bool) -> (r: Result<
    DataMapSource,
    SourceError,
>)
    ensures
        match address {
            Some(hex) => match r {
                Ok(DataMapSource::Network(bytes)) => is_hex(hex@) && bytes@ == hex_bytes(hex@),
                Err(SourceError::Address(AddressError::InvalidHex(reason))) => {
                    &&& !is_hex(hex@)
                    &&& reason@ == hex_complaint(hex@)
                    &&& is_ascii_text(hex@) ==> complains_about(hex@, reason@)
                },
                Err(SourceError::Address(AddressError::InvalidLength { actual })) => is_hex(hex@)
                    && actual == hex_bytes(hex@).len() && actual != XORNAME_BYTE_LEN,
                _ => false,
            },
            None => if has_datamap {
                r matches Ok(DataMapSource::LocalFile)
            } else {
                r matches Err(SourceError::Missing(e)) && e.message@
                    == "--datamap required for private download"@
            },
        },
{
    match address {
        Some(hex) => match parse_address(hex) {
            Ok(bytes) => Ok(DataMapSource::Network(bytes)),
            Err(e) => Err(SourceError::Address(e)),
        },
        None => if has_datamap {
            Ok(DataMapSource::LocalFile)
        } else {
            Err(
                SourceError::Missing(
                    UsageError { message: "--datamap required for private download".to_owned() },
                ),
            )
        },
    }
}

/// The lines that report a download.
pub fn download_lines(file: &str, size: &str, time: &str) -> (r: Vec<String>)
    ensures
        texts(r@) == seq![
            "Download complete!"@,
            "  File: "@ + file@,
            "  Size: "@ + size@,
            "  Time: "@ + time@,
        ],
{
    let mut lines: Vec<String> = Vec::new();
    assert(texts(lines@) =~= Seq::empty());
    push_line(&mut lines, "Download complete!".to_owned());
    push_line(&mut lines, joined("  File: ", file));
    push_line(&mut lines, joined("  Size: ", size));
    push_line(&mut lines, joined("  Time: ", time));
    assert(texts(lines@) =~= seq![
        "Download complete!"@,
        "  File: "@ + file@,
        "  Size: "@ + size@,
        "  Time: "@ + time@,
    ]);
    lines
}

/// How sure a cost estimate is.
#[derive(Debug, Clone, Copy, PartialEq, Eq, Structural)]
pub enum CostEstimateConfidence {
    /// A chunk that is not stored was priced.
    PricedSample,
    /// Every chunk of the file is known to be stored.
    VerifiedAllAlreadyStored,
    /// Every chunk that was asked about is stored, but not all were.
    AllSamplesAlreadyStoredIncomplete,
}

/// What to show as the estimated cost: the price only where one was found.
pub fn estimate_display(confidence: CostEstimateConfidence, priced: &str) -> (r: String)
    ensures
        r@ == match confidence {
            CostEstimateConfidence::VerifiedAllAlreadyStored => {
                "already stored on the network — free"@
            },
            CostEstimateConfidence::AllSamplesAlreadyStoredIncomplete => {
                "likely already stored — free (confirmed at payment)"@
            },
            CostEstimateConfidence::PricedSample => priced@,
        },
{
    match confidence {
        CostEstimateConfidence::VerifiedAllAlreadyStored => {
            "already stored on the network — free".to_owned()
        },
        CostEstimateConfidence::AllSamplesAlreadyStoredIncomplete => {
            "likely already stored — free (confirmed at payment)".to_owned()
        },
        CostEstimateConfidence::PricedSample => priced.to_owned(),
    }
}

/// The lines that report a cost estimate.
pub fn estimate_lines(path: &str, size: &str, chunk_count: usize, cost: &str) -> (r: Vec<String>)
    ensures
        texts(r@) == seq![
            ""@,
            "Estimated upload cost for "@ + path@,
            "  Size:    "@ + size@,
            "  Chunks:  "@ + decimal_text(chunk_count as nat),
            "  Cost:    "@ + cost@,
        ],
{
    let mut chunks = "  Chunks:  ".to_owned();
    push_decimal(&mut chunks, chunk_count as u128);
    let mut lines: Vec<String> = Vec::new();
    assert(texts(lines@) =~= Seq::empty());
    push_line(&mut lines, "".to_owned());
    push_line(&mut lines, joined("Estimated upload cost for ", path));
    push_line(&mut lines, joined("  Size:    ", size));
    push_line(&mut lines, chunks);
    push_line(&mut lines, joined("  Cost:    ", cost));
    assert(texts(lines@) =~= seq![
        ""@,
        "Estimated upload cost for "@ + path@,
        "  Size:    "@ + size@,
        "  Chunks:  "@ + decimal_text(chunk_count as nat),
        "  Cost:    "@ + cost@,
    ]);
    lines
}

/// How a size is shown: as it is, or in a larger unit with decimals.
pub enum SizeText {
    /// The text.
    Whole(String),
    /// In units of so many bytes, with so many decimals, and this unit behind.
    Scaled { divisor: u64, decimals: usize, unit: String },
}

/// How a size is shown.
pub fn size_text(bytes: u64) -> (r: SizeText)
    ensures
        if bytes < 1024 {
            r matches SizeText::Whole(t) && t@ == decimal_text(bytes as nat) + " B"@
        } else if bytes < 1_048_576 {
            r matches SizeText::Scaled { divisor, decimals, unit } && divisor == 1024 && decimals
                == 1 && unit@ == "KB"@
        } else if bytes < 1_073_741_824 {
            r matches SizeText::Scaled { divisor, decimals, unit } && divisor == 1_048_576
                && decimals == 1 && unit@ == "MB"@
        } else {
            r matches SizeText::Scaled { divisor, decimals, unit } && divisor == 1_073_741_824
                && decimals == 2 && unit@ == "GB"@
        },
{
    if bytes < 1024 {
        let mut t = decimal(bytes as u128);
        t.append(" B");
        SizeText::Whole(t)
    } else if bytes < 1_048_576 {
        SizeText::Scaled { divisor: 1024, decimals: 1, unit: "KB".to_owned() }
    } else if bytes < 1_073_741_824 {
        SizeText::Scaled { divisor: 1_048_576, decimals: 1, unit: "MB".to_owned() }
    } else {
        SizeText::Scaled { divisor: 1_073_741_824, decimals: 2, unit: "GB".to_owned() }
    }
}

/// How a cost is shown: as nothing, or in a larger unit with decimals.
pub enum CostText {
    Free,
    /// In units of so many of the smallest, with so many decimals, and this unit
    /// behind.
    Scaled { divisor: u128, decimals: usize, unit: String },
}

/// How a storage cost is shown: in ANT from a thousandth of one up, with two
/// decimals from one up, else in nanoANT.
pub fn storage_cost_text(atto: u128) -> (r: CostText)
    ensures
        if atto == 0 {
            r is Free
        } else if atto >= 1_000_000_000_000_000_000 {
            r matches CostText::Scaled { divisor, decimals, unit } && divisor
                == 1_000_000_000_000_000_000 && decimals == 2 && unit@ == "ANT"@
        } else if atto >= 1_000_000_000_000_000 {
            r matches CostText::Scaled { divisor, decimals, unit } && divisor
                == 1_000_000_000_000_000_000 && decimals == 3 && unit@ == "ANT"@
        } else {
            r matches CostText::Scaled { divisor, decimals, unit } && divisor == 1_000_000_000
                && decimals == 2 && unit@ == "nanoANT"@
        },
{
    if atto == 0 {
        CostText::Free
    } else if atto >= 1_000_000_000_000_000_000 {
        CostText::Scaled {
            divisor: 1_000_000_000_000_000_000,
            decimals: 2,
            unit: "ANT".to_owned(),
        }
    } else if atto >= 1_000_000_000_000_000 {
        CostText::Scaled {
            divisor: 1_000_000_000_000_000_000,
            decimals: 3,
            unit: "ANT".to_owned(),
        }
    } else {
        CostText::Scaled { divisor: 1_000_000_000, decimals: 2, unit: "nanoANT".to_owned() }
    }
}

/// How a gas cost is shown: in ETH, with four decimals from a hundredth of one up
/// and with six below. In double precision one wei less than a hundredth is a
/// hundredth too.
pub fn gas_cost_text(wei: u128) -> (r: CostText)
    ensures
        if wei == 0 {
            r is Free
        } else {
            r matches CostText::Scaled { divisor, decimals, unit } && divisor
                == 1_000_000_000_000_000_000 && unit@ == "ETH"@ && decimals == if wei
                >= 9_999_999_999_999_999 {
                4int
            } else {
                6
            }
        },
{
    if wei == 0 {
        return CostText::Free;
    }
    let decimals: usize = if wei >= 9_999_999_999_999_999 {
        4
    } else {
        6
    };
    CostText::Scaled { divisor: 1_000_000_000_000_000_000, decimals, unit: "ETH".to_owned() }
}

/// The cost that a text states in atto; zero where it states none.
pub open spec fn atto_of(text: Seq<char>) -> nat {
    match parsed_up_to(text, u128::MAX as nat) {
        Some(n) => n,
        None => 0,
    }
}

/// The cost that a text states in atto; zero where it states none.
pub fn cost_in_atto(text: &str) -> (r: u128)
    ensures
        r == atto_of(text@),
{
    match parse_u128(text) {
        Some(n) => n,
        None => 0,
    }
}

/// Combined cost display: storage and gas, unless both are nothing.
pub fn combined_cost(
    storage_cost_atto: &str,
    gas_cost_wei: u128,
    storage: &str,
    gas: &str,
) -> (r: String)
    ensures
        r@ == if atto_of(storage_cost_atto@) == 0 && gas_cost_wei == 0 {
            "free (already stored)"@
        } else {
            storage@ + " (gas: "@ + gas@ + ")"@
        },
{
    if cost_in_atto(storage_cost_atto) == 0 && gas_cost_wei == 0 {
        return "free (already stored)".to_owned();
    }
    let mut text = storage.to_owned();
    text.append(" (gas: ");
    text.append(gas);
    text.append(")");
    text
}

/// The name that is left of a data map's name is the one that the ending was added to.
pub proof fn ending_is_taken_off(name: Seq<char>, stem: Seq<char>)
    ensures
        datamap_stem(name) == Some(stem) <==> name == stem + ".datamap"@ && stem.len() > 0,
{
    reveal_strlit(".datamap");
    let whole = stem + ".datamap"@;
    assert(".datamap"@.len() == 8);
    assert(whole.skip(whole.len() - 8) =~= ".datamap"@);
    assert(whole.take(whole.len() - 8) =~= stem);
    if datamap_stem(name) == Some(stem) {
        assert(name =~= name.take(name.len() - 8) + name.skip(name.len() - 8));
    }
}

/// A cost in atto is the number that its text spells.
pub proof fn atto_are_read_back(n: u128)
    ensures
        atto_of(decimal_text(n as nat)) == n,
{
    crate::text::decimal_text_parses_back(n as nat);
}

} // verus!
