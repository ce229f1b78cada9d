//! Errors of node management.

use vstd::prelude::*;
use vstd::string::*;

use crate::data::error::joined;
use crate::text::{decimal, decimal_text, push_decimal};

verus! {

/// Why a node operation failed.
#[derive(Debug)]
pub enum Error {
    Io(String),
    Json(String),
    NodeNotFound(u32),
    NodeAlreadyRunning(u32),
    NodeNotRunning(u32),
    NodeEvicted(u32),
    DaemonAlreadyRunning(u32),
    DaemonNotRunning,
    BindError(String),
    PortFileNotFound(String),
    PidFileNotFound(String),
    HttpRequest(String),
    ProcessSpawn(String),
    PortRangeMismatch { range_len: u16, count: u16 },
    BinaryNotFound(String),
    BinaryResolution(String),
    InvalidRewardsAddress(String),
    DaemonStopFailed(String),
    HomeDirNotFound,
    UpdateFailed(String),
    BootstrapConfigParse(String),
    InvalidNodeCount { count: u16, max: u16 },
    NodesStillRunning(u32),
}

/// The text that describes an error to the user.
pub open spec fn message_text(e: Error) -> Seq<char> {
    match e {
        Error::Io(m) => "I/O error: "@ + m@,
        Error::Json(m) => "JSON serialization error: "@ + m@,
        Error::NodeNotFound(id) => "Node not found: "@ + decimal_text(id as nat),
        Error::NodeAlreadyRunning(id) => "Node already running: "@ + decimal_text(id as nat),
        Error::NodeNotRunning(id) => "Node not running: "@ + decimal_text(id as nat),
        Error::NodeEvicted(id) => "Node "@ + decimal_text(id as nat)
            + " has been evicted; its data directory was deleted to reclaim disk space. Dismiss it and add a new node instead of restarting."@,
        Error::DaemonAlreadyRunning(pid) => "Daemon already running (pid: "@ + decimal_text(
            pid as nat,
        ) + ")"@,
        Error::DaemonNotRunning => "Daemon not running"@,
        Error::BindError(m) => "Failed to bind to address: "@ + m@,
        Error::PortFileNotFound(p) => "Port file not found: "@ + p@,
        Error::PidFileNotFound(p) => "PID file not found: "@ + p@,
        Error::HttpRequest(m) => "HTTP request error: "@ + m@,
        Error::ProcessSpawn(m) => "Process spawn failed: "@ + m@,
        Error::PortRangeMismatch { range_len, count } => "Port range length ("@ + decimal_text(
            range_len as nat,
        ) + ") does not match node count ("@ + decimal_text(count as nat) + ")"@,
        Error::BinaryNotFound(p) => "Binary not found at path: "@ + p@,
        Error::BinaryResolution(m) => "Binary resolution failed: "@ + m@,
        Error::InvalidRewardsAddress(m) => "Invalid rewards address: "@ + m@,
        Error::DaemonStopFailed(m) => "Failed to stop daemon: "@ + m@,
        Error::HomeDirNotFound =>
            "Could not determine home directory (HOME/USERPROFILE not set)"@,
        Error::UpdateFailed(m) => "Update failed: "@ + m@,
        Error::BootstrapConfigParse(m) => "Failed to parse bootstrap_peers.toml: "@ + m@,
        Error::InvalidNodeCount { count, max } => "Node count "@ + decimal_text(count as nat)
            + " exceeds maximum of "@ + decimal_text(max as nat) + " per call"@,
        Error::NodesStillRunning(n) => "Cannot reset while nodes are running ("@ + decimal_text(
            n as nat,
        ) + " node(s) still running). Stop all nodes first."@,
    }
}

/// `head`, a number in decimal and `tail`.
fn numbered(head: &str, n: u32, tail: &str) -> (r: String)
    ensures
        r@ == head@ + decimal_text(n as nat) + tail@,
{
    let mut m = joined(head, decimal(n as u128).as_str());
    m.append(tail);
    m
}

impl Error {
    /// The text that describes the error to the user.
    pub fn message(&self) -> (r: String)
        ensures
            r@ == message_text(*self),
    {
        match self {
            Error::Io(m) => joined("I/O error: ", m.as_str()),
            Error::Json(m) => joined("JSON serialization error: ", m.as_str()),
            Error::NodeNotFound(id) => joined("Node not found: ", decimal(*id as u128).as_str()),
            Error::NodeAlreadyRunning(id) => joined(
                "Node already running: ",
                decimal(*id as u128).as_str(),
            ),
            Error::NodeNotRunning(id) => joined(
                "Node not running: ",
                decimal(*id as u128).as_str(),
            ),
            Error::NodeEvicted(id) => numbered(
                "Node ",
                *id,
                " has been evicted; its data directory was deleted to reclaim disk space. Dismiss it and add a new node instead of restarting.",
            ),
            Error::DaemonAlreadyRunning(pid) => numbered(
                "Daemon already running (pid: ",
                *pid,
                ")",
            ),
            Error::DaemonNotRunning => "Daemon not running".to_owned(),
            Error::BindError(m) => joined("Failed to bind to address: ", m.as_str()),
            Error::PortFileNotFound(p) => joined("Port file not found: ", p.as_str()),
            Error::PidFileNotFound(p) => joined("PID file not found: ", p.as_str()),
            Error::HttpRequest(m) => joined("HTTP request error: ", m.as_str()),
            Error::ProcessSpawn(m) => joined("Process spawn failed: ", m.as_str()),
            Error::PortRangeMismatch { range_len, count } => {
                let mut m = numbered(
                    "Port range length (",
                    *range_len as u32,
                    ") does not match node count (",
                );
                push_decimal(&mut m, *count as u128);
                m.append(")");
                m
            },
            Error::BinaryNotFound(p) => joined("Binary not found at path: ", p.as_str()),
            Error::BinaryResolution(m) => joined("Binary resolution failed: ", m.as_str()),
            Error::InvalidRewardsAddress(m) => joined("Invalid rewards address: ", m.as_str()),
            Error::DaemonStopFailed(m) => joined("Failed to stop daemon: ", m.as_str()),
            Error::HomeDirNotFound =>
                "Could not determine home directory (HOME/USERPROFILE not set)".to_owned(),
            Error::UpdateFailed(m) => joined("Update failed: ", m.as_str()),
            Error::BootstrapConfigParse(m) => joined(
                "Failed to parse bootstrap_peers.toml: ",
                m.as_str(),
            ),
            Error::InvalidNodeCount { count, max } => {
                let mut m = numbered("Node count ", *count as u32, " exceeds maximum of ");
                push_decimal(&mut m, *max as u128);
                m.append(" per call");
                m
            },
            Error::NodesStillRunning(n) => numbered(
                "Cannot reset while nodes are running (",
                *n,
                " node(s) still running). Stop all nodes first.",
            ),
        }
    }
}

} // verus!
