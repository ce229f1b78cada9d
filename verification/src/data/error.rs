//! Errors of data operations.

use vstd::prelude::*;
use vstd::string::*;

use crate::text::{decimal_text, push_decimal};

verus! {

/// Why a data operation failed.
#[derive(Debug)]
pub enum Error {
    Timeout(String),
    Network(String),
    Payment(String),
    Protocol(String),
    InvalidData(String),
    Serialization(String),
    Encryption(String),
    Storage(String),
    Io(String),
    Config(String),
    InsufficientPeers(String),
    InsufficientDiskSpace(String),
    /// The network already holds the chunk.
    AlreadyStored,
    /// A quote's key does not belong to the peer that sent it.
    BadQuoteBinding { peer_id: String, detail: String },
    /// No price could be inferred from the sampled chunks.
    CostEstimationInconclusive(String),
    /// Some chunks were stored before the upload stopped.
    PartialUpload {
        stored: Vec<[u8; 32]>,
        stored_count: usize,
        failed: Vec<([u8; 32], String)>,
        failed_count: usize,
        total_chunks: usize,
        reason: String,
    },
}

/// The text that describes an error to the user.
pub open spec fn message_text(e: Error) -> Seq<char> {
    match e {
        Error::Timeout(m) => "operation timed out: "@ + m@,
        Error::Network(m) => "network error: "@ + m@,
        Error::Payment(m) => "payment error: "@ + m@,
        Error::Protocol(m) => "protocol error: "@ + m@,
        Error::InvalidData(m) => "invalid data: "@ + m@,
        Error::Serialization(m) => "serialization error: "@ + m@,
        Error::Encryption(m) => "encryption error: "@ + m@,
        Error::Storage(m) => "storage error: "@ + m@,
        Error::Io(m) => "I/O error: "@ + m@,
        Error::Config(m) => "configuration error: "@ + m@,
        Error::InsufficientPeers(m) => "insufficient peers: "@ + m@,
        Error::InsufficientDiskSpace(m) => "insufficient disk space: "@ + m@,
        Error::AlreadyStored => "already stored on network"@,
        Error::BadQuoteBinding { peer_id, detail } => "bad quote binding from "@ + peer_id@ + ": "@
            + detail@,
        Error::CostEstimationInconclusive(m) => "cost estimation inconclusive: "@ + m@,
        Error::PartialUpload { stored_count, failed_count, total_chunks, reason, .. } =>
            "partial upload: "@ + decimal_text(stored_count as nat) + "/"@ + decimal_text(
            total_chunks as nat,
        ) + " stored, "@ + decimal_text(failed_count as nat) + " failed: "@ + reason@,
    }
}

/// Whether a text is `head` followed by some reason.
pub open spec fn gives_reason(m: Seq<char>, head: Seq<char>) -> bool {
    exists|reason: Seq<char>| m == #[trigger] (head + reason)
}

/// `head` followed by `tail`.
pub(crate) fn joined(head: &str, tail: &str) -> (r: String)
    ensures
        r@ == head@ + tail@,
{
    let mut m = head.to_owned();
    m.append(tail);
    m
}

impl Error {
    /// The text that describes the error to the user.
    pub fn message(&self) -> (r: String)
        ensures
            r@ == message_text(*self),
    {
        match self {
            Error::Timeout(m) => joined("operation timed out: ", m.as_str()),
            Error::Network(m) => joined("network error: ", m.as_str()),
            Error::Payment(m) => joined("payment error: ", m.as_str()),
            Error::Protocol(m) => joined("protocol error: ", m.as_str()),
            Error::InvalidData(m) => joined("invalid data: ", m.as_str()),
            Error::Serialization(m) => joined("serialization error: ", m.as_str()),
            Error::Encryption(m) => joined("encryption error: ", m.as_str()),
            Error::Storage(m) => joined("storage error: ", m.as_str()),
            Error::Io(m) => joined("I/O error: ", m.as_str()),
            Error::Config(m) => joined("configuration error: ", m.as_str()),
            Error::InsufficientPeers(m) => joined("insufficient peers: ", m.as_str()),
            Error::InsufficientDiskSpace(m) => joined("insufficient disk space: ", m.as_str()),
            Error::AlreadyStored => "already stored on network".to_owned(),
            Error::BadQuoteBinding { peer_id, detail } => {
                let mut m = joined("bad quote binding from ", peer_id.as_str());
                m.append(": ");
                m.append(detail.as_str());
                m
            },
            Error::CostEstimationInconclusive(m) => joined(
                "cost estimation inconclusive: ",
                m.as_str(),
            ),
            Error::PartialUpload { stored_count, failed_count, total_chunks, reason, .. } => {
                let mut m = "partial upload: ".to_owned();
                push_decimal(&mut m, *stored_count as u128);
                m.append("/");
                push_decimal(&mut m, *total_chunks as u128);
                m.append(" stored, ");
                push_decimal(&mut m, *failed_count as u128);
                m.append(" failed: ");
                m.append(reason.as_str());
                m
            },
        }
    }
}

} // verus!
