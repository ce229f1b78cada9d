//! Types of the node manager. Paths are held as text.

use vstd::prelude::*;
use vstd::string::*;

use crate::paths::{extends_path, path_join};

verus! {

/// Configuration for the daemon process.
#[derive(Debug, Clone)]
pub struct DaemonConfig {
    /// IPv4 address to listen on.
    pub listen_addr: [u8; 4],
    /// Port to listen on. `None` picks a random available port.
    pub port: Option<u16>,
    /// Path to the node registry JSON file.
    pub registry_path: String,
    /// Path to the daemon log file.
    pub log_path: String,
    /// Where the chosen port is written.
    pub port_file_path: String,
    /// Daemon's own PID file.
    pub pid_file_path: String,
}

impl DaemonConfig {
    /// The defaults for a data and a log directory.
    pub fn in_dirs(data: &str, logs: &str) -> (r: DaemonConfig)
        ensures
            r.listen_addr@ == seq![127u8, 0, 0, 1],
            r.port is None,
            extends_path(r.registry_path@, data@, "node_registry.json"@),
            extends_path(r.log_path@, logs@, "daemon.log"@),
            extends_path(r.port_file_path@, data@, "daemon.port"@),
            extends_path(r.pid_file_path@, data@, "daemon.pid"@),
    {
        let listen_addr: [u8; 4] = [127, 0, 0, 1];
        assert(listen_addr@ =~= seq![127u8, 0, 0, 1]);
        proof {
            reveal_strlit("node_registry.json");
            reveal_strlit("daemon.log");
            reveal_strlit("daemon.port");
            reveal_strlit("daemon.pid");
            reveal_strlit(".");
            reveal_strlit("..");
        }
        DaemonConfig {
            listen_addr,
            port: None,
            registry_path: path_join(data, "node_registry.json"),
            log_path: path_join(logs, "daemon.log"),
            port_file_path: path_join(data, "daemon.port"),
            pid_file_path: path_join(data, "daemon.pid"),
        }
    }
}

/// Status information returned by the daemon.
#[derive(Debug, Clone)]
pub struct DaemonStatus {
    pub running: bool,
    pub pid: Option<u32>,
    pub port: Option<u16>,
    pub uptime_secs: Option<u64>,
    pub nodes_total: u32,
    pub nodes_running: u32,
    pub nodes_stopped: u32,
    pub nodes_errored: u32,
}

/// Connection info returned by `daemon info`.
#[derive(Debug, Clone)]
pub struct DaemonInfo {
    pub running: bool,
    pub pid: Option<u32>,
    pub port: Option<u16>,
    pub api_base: Option<String>,
}

/// Status of a single node.
#[derive(Debug, Clone, Copy, PartialEq, Eq, Structural)]
pub enum NodeStatus {
    Stopped,
    Starting,
    Running,
    Stopping,
    Errored,
    /// The on-disk binary was replaced by an upgrade and the process has not
    /// restarted yet.
    UpgradeScheduled,
}

/// Persisted configuration for a single node.
#[derive(Debug, Clone)]
pub struct NodeConfig {
    pub id: u32,
    pub service_name: String,
    pub rewards_address: String,
    pub data_dir: String,
    pub log_dir: Option<String>,
    pub node_port: Option<u16>,
    pub metrics_port: Option<u16>,
    pub network_id: Option<u32>,
    pub binary_path: String,
    pub version: String,
    /// Names and values, each name once.
    pub env_variables: Vec<(String, String)>,
    pub bootstrap_peers: Vec<String>,
    /// Release channel to track for automatic upgrades.
    pub upgrade_channel: Option<UpgradeChannel>,
}

/// Runtime information for a running node.
#[derive(Debug, Clone)]
pub struct NodeInfo {
    pub config: NodeConfig,
    pub status: NodeStatus,
    pub pid: Option<u32>,
    pub uptime_secs: Option<u64>,
    /// The version that waits for a restart, while an upgrade is scheduled.
    pub pending_version: Option<String>,
}

/// Result of a daemon start operation.
#[derive(Debug, Clone)]
pub struct DaemonStartResult {
    /// Whether the daemon was already running.
    pub already_running: bool,
    /// PID of the daemon process.
    pub pid: u32,
    /// Port the daemon is listening on, if discovered.
    pub port: Option<u16>,
}

/// Result of a daemon stop operation.
#[derive(Debug, Clone)]
pub struct DaemonStopResult {
    /// PID of the daemon that was stopped.
    pub pid: u32,
}

/// Source for the node binary.
#[derive(Debug, Clone)]
pub enum BinarySource {
    /// Download the latest release.
    Latest,
    /// Download a specific version.
    Version(String),
    /// Download from a URL (zip/tar.gz archive).
    Url(String),
    /// Use an existing local binary.
    LocalPath(String),
}

impl Default for BinarySource {
    fn default() -> (r: BinarySource)
        ensures
            r is Latest,
    {
        BinarySource::Latest
    }
}

impl BinarySource {
    /// The source as text.
    pub fn to_text(&self) -> (r: String)
        ensures
            r@ == match *self {
                BinarySource::Latest => "latest"@,
                BinarySource::Version(v) => "v"@ + v@,
                BinarySource::Url(u) => u@,
                BinarySource::LocalPath(p) => p@,
            },
    {
        match self {
            BinarySource::Latest => "latest".to_owned(),
            BinarySource::Version(v) => {
                let mut s = "v".to_owned();
                s.append(v.as_str());
                s
            },
            BinarySource::Url(u) => u.clone(),
            BinarySource::LocalPath(p) => p.clone(),
        }
    }
}

/// Release channel the node tracks for automatic upgrades.
#[derive(Debug, Clone, Copy, PartialEq, Eq, Structural)]
pub enum UpgradeChannel {
    /// Stable releases only.
    Stable,
    /// Beta releases.
    Beta,
}

impl UpgradeChannel {
    /// The channel as the node's argument spells it.
    pub fn to_text(&self) -> (r: String)
        ensures
            r@ == match *self {
                UpgradeChannel::Stable => "stable"@,
                UpgradeChannel::Beta => "beta"@,
            },
    {
        match self {
            UpgradeChannel::Stable => "stable".to_owned(),
            UpgradeChannel::Beta => "beta".to_owned(),
        }
    }
}

/// Blockchain network that a node uses for storage payments.
#[derive(Debug, Clone, Copy, PartialEq, Eq, Structural)]
pub enum EvmNetwork {
    ArbitrumOne,
    ArbitrumSepolia,
}

/// A single port or a range of ports.
#[derive(Debug, Clone)]
pub enum PortRange {
    Single(u16),
    Range(u16, u16),
}

impl PortRange {
    /// The number of ports.
    pub open spec fn count(self) -> int {
        match self {
            PortRange::Single(_) => 1,
            PortRange::Range(start, end) => if start <= end {
                end - start + 1
            } else {
                1
            },
        }
    }

    /// Returns the number of ports in this range; a range that ends before it
    /// starts counts as one port.
    pub fn len(&self) -> (r: u16)
        requires
            self.count() <= u16::MAX,
        ensures
            r == self.count(),
    {
        match self {
            PortRange::Single(_) => 1,
            PortRange::Range(start, end) => end.saturating_sub(*start) + 1,
        }
    }

    /// Whether this range is empty, which it never is.
    pub fn is_empty(&self) -> (r: bool)
        requires
            self.count() <= u16::MAX,
        ensures
            r == (self.count() == 0),
            !r,
    {
        self.len() == 0
    }

    /// Get the port at the given index within the range.
    pub fn port_at(&self, index: u16) -> (r: Option<u16>)
        ensures
            r == port_named(*self, index),
    {
        match self {
            PortRange::Single(p) => if index == 0 {
                Some(*p)
            } else {
                None
            },
            PortRange::Range(start, end) => match start.checked_add(index) {
                Some(port) => if port <= *end {
                    Some(port)
                } else {
                    None
                },
                None => None,
            },
        }
    }
}

/// In a range that does not end before it starts, exactly the indices below
/// the number of ports name a port, and distinct indices name distinct ports.
pub proof fn port_indices_match_count(range: PortRange, index: u16, other: u16)
    requires
        range matches PortRange::Range(start, end) ==> start <= end,
    ensures
        port_named(range, index) is Some <==> index < range.count(),
        port_named(range, index) is Some && port_named(range, index) == port_named(range, other)
            ==> index == other,
{
}

/// The port that an index names.
pub open spec fn port_named(range: PortRange, index: u16) -> Option<u16> {
    match range {
        PortRange::Single(p) => if index == 0 {
            Some(p)
        } else {
            None
        },
        PortRange::Range(start, end) => if start + index <= end {
            Some((start + index) as u16)
        } else {
            None
        },
    }
}

/// Options for adding one or more nodes to the registry.
#[derive(Debug, Clone)]
pub struct AddNodeOpts {
    /// Number of nodes to add.
    pub count: u16,
    /// Wallet address for node earnings.
    pub rewards_address: String,
    /// Port or port range for node(s).
    pub node_port: Option<PortRange>,
    /// Metrics port or range.
    pub metrics_port: Option<PortRange>,
    /// Custom data directory prefix.
    pub data_dir_path: Option<String>,
    /// Custom log directory prefix.
    pub log_dir_path: Option<String>,
    /// Network ID; 1 is the main network.
    pub network_id: u32,
    /// Source for the node binary.
    pub binary_source: BinarySource,
    /// Bootstrap peer(s).
    pub bootstrap_peers: Vec<String>,
    /// Environment variables for the node.
    pub env_variables: Vec<(String, String)>,
    /// Release channel to track for automatic upgrades.
    pub upgrade_channel: Option<UpgradeChannel>,
    /// Blockchain network for storage payments.
    pub evm_network: EvmNetwork,
}

impl Default for AddNodeOpts {
    fn default() -> (r: AddNodeOpts)
        ensures
            r.count == 1,
            r.rewards_address@ == Seq::<char>::empty(),
            r.node_port is None,
            r.metrics_port is None,
            r.data_dir_path is None,
            r.log_dir_path is None,
            r.network_id == 1,
            r.binary_source is Latest,
            r.bootstrap_peers@.len() == 0,
            r.env_variables@.len() == 0,
            r.upgrade_channel is None,
            r.evm_network is ArbitrumOne,
    {
        AddNodeOpts {
            count: 1,
            rewards_address: String::new(),
            node_port: None,
            metrics_port: None,
            data_dir_path: None,
            log_dir_path: None,
            network_id: 1,
            binary_source: BinarySource::default(),
            bootstrap_peers: Vec::new(),
            env_variables: Vec::new(),
            upgrade_channel: None,
            evm_network: EvmNetwork::ArbitrumOne,
        }
    }
}

/// Result of adding nodes to the registry.
#[derive(Debug, Clone)]
pub struct AddNodeResult {
    /// The nodes that were added.
    pub nodes_added: Vec<NodeConfig>,
}

/// Result of removing a node from the registry.
#[derive(Debug, Clone)]
pub struct RemoveNodeResult {
    /// The node that was removed.
    pub removed: NodeConfig,
}

/// Options for resetting all node state.
#[derive(Debug, Clone)]
pub struct ResetOpts {
    /// Skip confirmation.
    pub force: bool,
}

impl Default for ResetOpts {
    fn default() -> (r: ResetOpts)
        ensures
            !r.force,
    {
        ResetOpts { force: false }
    }
}

/// Result of resetting all node state.
#[derive(Debug, Clone)]
pub struct ResetResult {
    /// Number of nodes that were cleared from the registry.
    pub nodes_cleared: u32,
    /// Data directories that were removed.
    pub data_dirs_removed: Vec<String>,
    /// Log directories that were removed.
    pub log_dirs_removed: Vec<String>,
}

/// Options for starting one or more nodes.
#[derive(Debug, Clone)]
pub struct StartNodeOpts {
    /// Which node(s) to start.
    pub target: NodeTarget,
}

/// Which node(s) to target.
#[derive(Debug, Clone)]
pub enum NodeTarget {
    /// A specific node by service name.
    ServiceName(String),
    /// All registered nodes.
    All,
}

/// Result of starting node(s).
#[derive(Debug, Clone)]
pub struct StartNodeResult {
    /// Nodes that were successfully started.
    pub started: Vec<NodeStarted>,
    /// Nodes that failed to start.
    pub failed: Vec<NodeStartFailed>,
    /// Node IDs that were already running.
    pub already_running: Vec<u32>,
}

/// A node that was successfully started.
#[derive(Debug, Clone)]
pub struct NodeStarted {
    pub node_id: u32,
    pub service_name: String,
    pub pid: u32,
}

/// A node that failed to start.
#[derive(Debug, Clone)]
pub struct NodeStartFailed {
    pub node_id: u32,
    pub service_name: String,
    pub error: String,
}

/// Result of stopping node(s).
#[derive(Debug, Clone)]
pub struct StopNodeResult {
    /// Nodes that were successfully stopped.
    pub stopped: Vec<NodeStopped>,
    /// Nodes that failed to stop.
    pub failed: Vec<NodeStopFailed>,
    /// Node IDs that were already stopped.
    pub already_stopped: Vec<u32>,
}

/// A node that was successfully stopped.
#[derive(Debug, Clone)]
pub struct NodeStopped {
    pub node_id: u32,
    pub service_name: String,
}

/// A node that failed to stop.
#[derive(Debug, Clone)]
pub struct NodeStopFailed {
    pub node_id: u32,
    pub service_name: String,
    pub error: String,
}

/// Summary of a single node's status.
#[derive(Debug, Clone)]
pub struct NodeStatusSummary {
    pub node_id: u32,
    pub name: String,
    pub version: String,
    pub status: NodeStatus,
    /// Process ID, while the node is running.
    pub pid: Option<u32>,
    /// Seconds since the node process started, while it is running.
    pub uptime_secs: Option<u64>,
    /// The version that waits for a restart, while an upgrade is scheduled.
    pub pending_version: Option<String>,
}

/// Result of querying node status across all registered nodes.
#[derive(Debug, Clone)]
pub struct NodeStatusResult {
    pub nodes: Vec<NodeStatusSummary>,
    pub total_running: u32,
    pub total_stopped: u32,
}

/// The ports of a range go up one by one, from its start to its end.
pub proof fn ports_go_up_one_by_one(range: PortRange, index: u16)
    ensures
        match range {
            PortRange::Single(p) => port_named(range, 0) == Some(p),
            PortRange::Range(start, end) => if start <= end {
                &&& port_named(range, 0) == Some(start)
                &&& port_named(range, (end - start) as u16) == Some(end)
                &&& 0 < index <= end - start ==> {
                    &&& port_named(range, index) is Some
                    &&& port_named(range, (index - 1) as u16) is Some
                    &&& port_named(range, index)->0 == port_named(range, (index - 1) as u16)->0 + 1
                }
            } else {
                port_named(range, index) is None
            },
        },
{
}

} // verus!
