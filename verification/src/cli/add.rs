//! The `node add` command.

use vstd::prelude::*;
use vstd::string::*;

use crate::data::error::joined;
use crate::node::types::{
    AddNodeOpts, BinarySource, EvmNetwork, NodeConfig, PortRange, UpgradeChannel,
};
use crate::text::{
    decimal, decimal_text, decimal_text_parses_back, parse_u16, parsed_up_to, push_decimal,
    split_once,
};

verus! {

/// Arguments of `node add`.
pub struct AddArgs {
    /// Wallet address for node earnings.
    pub rewards_address: String,
    /// Number of nodes to add.
    pub count: u16,
    /// Port or port range for node(s), such as 12000 or 12000-12004.
    pub node_port: Option<String>,
    /// Custom data directory prefix.
    pub data_dir_path: Option<String>,
    /// Custom log directory prefix.
    pub log_dir_path: Option<String>,
    /// Path to a local node binary.
    pub path: Option<String>,
    /// Download a specific version.
    pub version: Option<String>,
    /// Download binary from a URL.
    pub url: Option<String>,
    /// Bootstrap peer(s).
    pub bootstrap: Vec<String>,
    /// Blockchain network the node uses for storage payments.
    pub evm_network: EvmNetworkArg,
    /// Release channel the node tracks for automatic upgrades.
    pub upgrade_channel: Option<UpgradeChannelArg>,
    /// Environment variables for the node, as KEY=VALUE.
    pub env: Vec<String>,
}

/// Argument for the node's upgrade channel.
#[derive(Clone, Copy, Debug, PartialEq, Eq, Structural)]
pub enum UpgradeChannelArg {
    Stable,
    Beta,
}

/// The channel that an argument names.
pub open spec fn channel_named(arg: UpgradeChannelArg) -> UpgradeChannel {
    match arg {
        UpgradeChannelArg::Stable => UpgradeChannel::Stable,
        UpgradeChannelArg::Beta => UpgradeChannel::Beta,
    }
}

impl From<UpgradeChannelArg> for UpgradeChannel {
    fn from(arg: UpgradeChannelArg) -> (r: UpgradeChannel) {
        match arg {
            UpgradeChannelArg::Stable => UpgradeChannel::Stable,
            UpgradeChannelArg::Beta => UpgradeChannel::Beta,
        }
    }
}

impl vstd::std_specs::convert::FromSpecImpl<UpgradeChannelArg> for UpgradeChannel {
    open spec fn obeys_from_spec() -> bool {
        true
    }

    open spec fn from_spec(arg: UpgradeChannelArg) -> UpgradeChannel {
        channel_named(arg)
    }
}

/// Argument for the node's blockchain network.
#[derive(Clone, Copy, Debug, PartialEq, Eq, Structural)]
pub enum EvmNetworkArg {
    /// Arbitrum One (mainnet).
    ArbitrumOne,
    /// Arbitrum Sepolia testnet.
    ArbitrumSepolia,
}

impl Default for EvmNetworkArg {
    fn default() -> (r: EvmNetworkArg)
        ensures
            r is ArbitrumOne,
    {
        EvmNetworkArg::ArbitrumOne
    }
}

/// The network that an argument names.
pub open spec fn network_named(arg: EvmNetworkArg) -> EvmNetwork {
    match arg {
        EvmNetworkArg::ArbitrumOne => EvmNetwork::ArbitrumOne,
        EvmNetworkArg::ArbitrumSepolia => EvmNetwork::ArbitrumSepolia,
    }
}

impl From<EvmNetworkArg> for EvmNetwork {
    fn from(arg: EvmNetworkArg) -> (r: EvmNetwork) {
        match arg {
            EvmNetworkArg::ArbitrumOne => EvmNetwork::ArbitrumOne,
            EvmNetworkArg::ArbitrumSepolia => EvmNetwork::ArbitrumSepolia,
        }
    }
}

impl vstd::std_specs::convert::FromSpecImpl<EvmNetworkArg> for EvmNetwork {
    open spec fn obeys_from_spec() -> bool {
        true
    }

    open spec fn from_spec(arg: EvmNetworkArg) -> EvmNetwork {
        network_named(arg)
    }
}

/// A message on arguments that cannot be used.
#[derive(Debug)]
pub struct UsageError {
    pub message: String,
}

/// What a port argument means: a range, or the message on what is wrong.
pub enum PortText {
    Ports(PortRange),
    Wrong(Seq<char>),
}

/// The part of `s` in front of the first `c`.
pub open spec fn before_first(s: Seq<char>, c: char) -> Seq<char> {
    s.take(s.index_of_first(c).unwrap_or(s.len() as int))
}

/// The part of `s` behind the first `c`.
pub open spec fn behind_first(s: Seq<char>, c: char) -> Seq<char> {
    s.skip(s.index_of_first(c).unwrap_or(s.len() as int) + 1)
}

/// `what: 'quoted'`.
pub open spec fn complaint(what: Seq<char>, quoted: Seq<char>) -> Seq<char> {
    what + ": '"@ + quoted + "'"@
}

/// What a port argument means. A dash separates the ends of a range.
pub open spec fn port_text(s: Seq<char>) -> PortText {
    if s.contains('-') {
        let a = before_first(s, '-');
        let b = behind_first(s, '-');
        match (parsed_up_to(a, u16::MAX as nat), parsed_up_to(b, u16::MAX as nat)) {
            (None, _) => PortText::Wrong(complaint("Invalid port range start"@, a)),
            (_, None) => PortText::Wrong(complaint("Invalid port range end"@, b)),
            (Some(start), Some(end)) => if end < start {
                PortText::Wrong(
                    "Port range end ("@ + decimal_text(end) + ") must be >= start ("@
                        + decimal_text(start) + ")"@,
                )
            } else {
                PortText::Ports(PortRange::Range(start as u16, end as u16))
            },
        }
    } else {
        match parsed_up_to(s, u16::MAX as nat) {
            None => PortText::Wrong(complaint("Invalid port"@, s)),
            Some(port) => PortText::Ports(PortRange::Single(port as u16)),
        }
    }
}

/// The parts around the first `c` are what they are called.
proof fn lemma_around_first(s: Seq<char>, a: Seq<char>, c: char, b: Seq<char>)
    requires
        s == a.push(c) + b,
        !a.contains(c),
    ensures
        s.contains(c),
        before_first(s, c) == a,
        behind_first(s, c) == b,
{
    let n = a.len() as int;
    assert(s[n] == c);
    s.index_of_first_ensures(c);
    let i = s.index_of_first(c)->0;
    if i < n {
        assert(a[i] == s[i]);
        assert(a.contains(c));
    }
    assert(i == n);
    assert(s.take(n) =~= a);
    assert(s.skip(n + 1) =~= b);
}

fn wrong(what: &str, quoted: &str) -> (r: UsageError)
    ensures
        r.message@ == complaint(what@, quoted@),
{
    let mut message = what.to_owned();
    message.append(": '");
    message.append(quoted);
    message.append("'");
    UsageError { message }
}

/// What an environment argument means: name and value around the first equals
/// sign, or the message on what is wrong.
pub open spec fn env_text(s: Seq<char>) -> Result<(Seq<char>, Seq<char>), Seq<char>> {
    if s.contains('=') {
        Ok((before_first(s, '='), behind_first(s, '=')))
    } else {
        Err("Invalid env variable format: '"@ + s + "'. Expected KEY=VALUE"@)
    }
}

/// Reads one environment argument.
pub fn parse_env_variable(s: &String) -> (r: Result<(String, String), UsageError>)
    ensures
        match r {
            Ok((k, v)) => env_text(s@) == Ok::<(Seq<char>, Seq<char>), Seq<char>>((k@, v@)),
            Err(e) => env_text(s@) == Err::<(Seq<char>, Seq<char>), Seq<char>>(e.message@),
        },
{
    match split_once(s.as_str(), '=') {
        Some((key, value)) => {
            proof {
                lemma_around_first(s@, key@, '=', value@);
            }
            Ok((key.to_owned(), value.to_owned()))
        },
        None => {
            let mut message = "Invalid env variable format: '".to_owned();
            message.append(s.as_str());
            message.append("'. Expected KEY=VALUE");
            Err(UsageError { message })
        },
    }
}

/// The binary that the arguments ask for: a local path before a version before
/// a URL, the latest release where none is given.
pub open spec fn chosen_binary(args: AddArgs) -> BinarySource {
    match args.path {
        Some(p) => BinarySource::LocalPath(p),
        None => match args.version {
            Some(v) => BinarySource::Version(v),
            None => match args.url {
                Some(u) => BinarySource::Url(u),
                None => BinarySource::Latest,
            },
        },
    }
}

/// Whether the arguments can be used.
pub open spec fn usable(args: AddArgs) -> bool {
    &&& args.node_port matches Some(s) ==> port_text(s@) is Ports
    &&& forall|i: int|
        0 <= i < args.env@.len() ==> env_text((#[trigger] args.env@[i])@) is Ok
}

/// The message on arguments that cannot be used: that on the port first, then
/// that on the first environment argument that is wrong.
pub open spec fn usage_message(args: AddArgs, m: Seq<char>) -> bool {
    match args.node_port {
        Some(s) if port_text(s@) is Wrong => port_text(s@) == PortText::Wrong(m),
        _ => exists|i: int|
            0 <= i < args.env@.len() && env_text((#[trigger] args.env@[i])@) == Err::<
                (Seq<char>, Seq<char>),
                Seq<char>,
            >(m) && forall|k: int| 0 <= k < i ==> env_text((#[trigger] args.env@[k])@) is Ok,
    }
}

impl AddArgs {
    /// Reads a port or a range of ports.
    pub fn parse_port_range(&self, input: &Option<String>) -> (r: Result<
        Option<PortRange>,
        UsageError,
    >)
        ensures
            match *input {
                None => r == Ok::<Option<PortRange>, UsageError>(None),
                Some(s) => match r {
                    Ok(Some(range)) => port_text(s@) == PortText::Ports(range),
                    Ok(None) => false,
                    Err(e) => port_text(s@) == PortText::Wrong(e.message@),
                },
            },
    {
        match input {
            None => Ok(None),
            Some(s) => match split_once(s.as_str(), '-') {
                Some((start_text, end_text)) => {
                    proof {
                        lemma_around_first(s@, start_text@, '-', end_text@);
                    }
                    let start: u16 = match parse_u16(start_text) {
                        Some(p) => p,
                        None => {
                            return Err(wrong("Invalid port range start", start_text));
                        },
                    };
                    let end: u16 = match parse_u16(end_text) {
                        Some(p) => p,
                        None => {
                            return Err(wrong("Invalid port range end", end_text));
                        },
                    };
                    if end < start {
                        let mut message = "Port range end (".to_owned();
                        push_decimal(&mut message, end as u128);
                        message.append(") must be >= start (");
                        push_decimal(&mut message, start as u128);
                        message.append(")");
                        return Err(UsageError { message });
                    }
                    Ok(Some(PortRange::Range(start, end)))
                },
                None => match parse_u16(s.as_str()) {
                    Some(port) => Ok(Some(PortRange::Single(port))),
                    None => Err(wrong("Invalid port", s.as_str())),
                },
            },
        }
    }

    /// The options that the arguments stand for.
    pub fn to_add_node_opts(&self) -> (r: Result<AddNodeOpts, UsageError>)
        ensures
            r is Ok <==> usable(*self),
            match r {
                Ok(opts) => {
                    &&& opts.count == self.count
                    &&& opts.rewards_address == self.rewards_address
                    &&& match self.node_port {
                        None => opts.node_port is None,
                        Some(s) => opts.node_port matches Some(range) && port_text(s@)
                            == PortText::Ports(range),
                    }
                    &&& opts.metrics_port is None
                    &&& opts.data_dir_path == self.data_dir_path
                    &&& opts.log_dir_path == self.log_dir_path
                    &&& opts.network_id == 1
                    &&& opts.binary_source == chosen_binary(*self)
                    &&& opts.bootstrap_peers@ == self.bootstrap@
                    &&& opts.env_variables@.len() == self.env@.len()
                    &&& forall|i: int|
                        0 <= i < self.env@.len() ==> env_text(self.env@[i]@) == Ok::<
                            (Seq<char>, Seq<char>),
                            Seq<char>,
                        >(((#[trigger] opts.env_variables@[i]).0@, opts.env_variables@[i].1@))
                    &&& opts.upgrade_channel == match self.upgrade_channel {
                        Some(c) => Some(channel_named(c)),
                        None => None,
                    }
                    &&& opts.evm_network == network_named(self.evm_network)
                },
                Err(e) => usage_message(*self, e.message@),
            },
    {
        let node_port = match self.parse_port_range(&self.node_port) {
            Ok(p) => p,
            Err(e) => {
                return Err(e);
            },
        };
        let binary_source = match &self.path {
            Some(path) => BinarySource::LocalPath(path.clone()),
            None => match &self.version {
                Some(version) => BinarySource::Version(version.clone()),
                None => match &self.url {
                    Some(url) => BinarySource::Url(url.clone()),
                    None => BinarySource::Latest,
                },
            },
        };
        let mut env_variables: Vec<(String, String)> = Vec::new();
        let mut i: usize = 0;
        while i < self.env.len()
            invariant
                i <= self.env.len(),
                env_variables.len() == i,
                forall|k: int|
                    0 <= k < i ==> env_text(self.env@[k]@) == Ok::<
                        (Seq<char>, Seq<char>),
                        Seq<char>,
                    >(((#[trigger] env_variables@[k]).0@, env_variables@[k].1@)),
                forall|k: int| 0 <= k < i ==> env_text((#[trigger] self.env@[k])@) is Ok,
                self.node_port matches Some(s) ==> port_text(s@) is Ports,
            decreases self.env.len() - i,
        {
            match parse_env_variable(&self.env[i]) {
                Ok(pair) => {
                    env_variables.push(pair);
                },
                Err(e) => {
                    assert(env_text(self.env@[i as int]@) is Err);
                    return Err(e);
                },
            }
            i = i + 1;
        }
        let bootstrap_peers = self.bootstrap.clone();
        assert(bootstrap_peers@ =~= self.bootstrap@);
        Ok(
            AddNodeOpts {
                count: self.count,
                rewards_address: self.rewards_address.clone(),
                node_port,
                metrics_port: None,
                data_dir_path: self.data_dir_path.clone(),
                log_dir_path: self.log_dir_path.clone(),
                network_id: 1,
                binary_source,
                bootstrap_peers,
                env_variables,
                upgrade_channel: match self.upgrade_channel {
                    Some(c) => Some(UpgradeChannel::from(c)),
                    None => None,
                },
                evm_network: EvmNetwork::from(self.evm_network),
            },
        )
    }
}

/// How nodes are added.
#[derive(Debug, Clone, Copy, PartialEq, Eq, Structural)]
pub enum AddRoute {
    /// By the daemon, which runs.
    Daemon,
    /// By this process.
    Direct,
}

/// How nodes are added: by the daemon where it is known to run.
pub fn add_route(daemon_running: Option<bool>) -> (r: AddRoute)
    ensures
        r == if daemon_running == Some(true) {
            AddRoute::Daemon
        } else {
            AddRoute::Direct
        },
{
    match daemon_running {
        Some(true) => AddRoute::Daemon,
        _ => AddRoute::Direct,
    }
}

/// The address to which the daemon takes requests for new nodes.
pub fn nodes_url(api_base: Option<&str>) -> (r: Result<String, UsageError>)
    ensures
        match api_base {
            Some(base) => r matches Ok(url) && url@ == base@ + "/nodes"@,
            None => r matches Err(e) && e.message@
                == "Daemon is running but API base URL not available"@,
        },
{
    match api_base {
        Some(base) => Ok(joined(base, "/nodes")),
        None => Err(
            UsageError {
                message: "Daemon is running but API base URL not available".to_owned(),
            },
        ),
    }
}

/// The error where the daemon refuses a request.
pub fn daemon_error(body: &str) -> (r: UsageError)
    ensures
        r.message@ == "Daemon returned error: "@ + body@,
{
    UsageError { message: joined("Daemon returned error: ", body) }
}

/// The title of the report on a node.
pub fn node_title(node: &NodeConfig) -> (r: String)
    ensures
        r@ == "Node "@ + decimal_text(node.id as nat) + " ("@ + node.service_name@ + ")"@,
{
    let mut t = "Node ".to_owned();
    push_decimal(&mut t, node.id as u128);
    t.append(" (");
    t.append(node.service_name.as_str());
    t.append(")");
    t
}

/// The labels and values that report a node.
pub open spec fn node_entries(node: NodeConfig) -> Seq<(Seq<char>, Seq<char>)> {
    let logs = match node.log_dir {
        Some(dir) => seq![("Logs"@, dir@)],
        None => Seq::empty(),
    };
    let port = match node.node_port {
        Some(p) => seq![("Port"@, decimal_text(p as nat))],
        None => Seq::empty(),
    };
    seq![("Data"@, node.data_dir@)] + logs + port + seq![
        ("Binary"@, node.binary_path@),
        ("Version"@, node.version@),
    ]
}

/// The contents of a list of labels and values.
pub open spec fn entry_views(list: Seq<(String, String)>) -> Seq<(Seq<char>, Seq<char>)> {
    list.map_values(|e: (String, String)| (e.0@, e.1@))
}

fn push_entry(list: &mut Vec<(String, String)>, label: &str, value: String)
    ensures
        entry_views(final(list)@) == entry_views(old(list)@).push((label@, value@)),
{
    let ghost before = list@;
    let ghost v = value@;
    list.push((label.to_owned(), value));
    assert(entry_views(list@) =~= entry_views(before).push((label@, v)));
}

/// The labels and values that report a node.
pub fn node_details(node: &NodeConfig) -> (r: Vec<(String, String)>)
    ensures
        entry_views(r@) == node_entries(*node),
{
    let mut list: Vec<(String, String)> = Vec::new();
    assert(entry_views(list@) =~= Seq::empty());
    push_entry(&mut list, "Data", node.data_dir.as_str().to_owned());
    match &node.log_dir {
        Some(dir) => push_entry(&mut list, "Logs", dir.as_str().to_owned()),
        None => {},
    }
    match node.node_port {
        Some(p) => push_entry(&mut list, "Port", decimal(p as u128)),
        None => {},
    }
    push_entry(&mut list, "Binary", node.binary_path.as_str().to_owned());
    push_entry(&mut list, "Version", node.version.as_str().to_owned());
    assert(entry_views(list@) =~= node_entries(*node));
    list
}

/// Width of the progress bar of a download.
pub const BAR_WIDTH: usize = 30;

/// How many cells of the bar are full and how many are empty.
pub fn bar_cells(percent: u32) -> (r: (usize, usize))
    requires
        percent <= 100,
    ensures
        r.0 == percent as int * BAR_WIDTH as int / 100,
        r.0 * 100 <= percent * BAR_WIDTH < (r.0 + 1) * 100,
        r.0 + r.1 == BAR_WIDTH,
{
    let filled: usize = (percent as usize * BAR_WIDTH) / 100;
    (filled, BAR_WIDTH - filled)
}

/// A port stands for itself, and two ports around a dash for all of the range between
/// them, unless the second is below the first.
pub proof fn ports_stand_for_themselves(start: u16, end: u16)
    ensures
        port_text(decimal_text(start as nat)) == PortText::Ports(PortRange::Single(start)),
        start <= end ==> port_text(
            decimal_text(start as nat).push('-') + decimal_text(end as nat),
        ) == PortText::Ports(PortRange::Range(start, end)),
        end < start ==> port_text(
            decimal_text(start as nat).push('-') + decimal_text(end as nat),
        ) is Wrong,
{
    let a = decimal_text(start as nat);
    let b = decimal_text(end as nat);
    decimal_text_parses_back(start as nat);
    decimal_text_parses_back(end as nat);
    assert(!a.contains('-'));
    lemma_around_first(a.push('-') + b, a, '-', b);
}

/// An environment argument gives the name in front of the first equals sign and the
/// value behind it, whatever the value holds.
pub proof fn variables_are_split_at_the_first_sign(name: Seq<char>, value: Seq<char>)
    requires
        !name.contains('='),
    ensures
        env_text(name.push('=') + value) == Ok::<(Seq<char>, Seq<char>), Seq<char>>((name, value)),
        env_text(name) is Err,
{
    lemma_around_first(name.push('=') + value, name, '=', value);
}

/// A local path goes before a version, and a version before a URL.
pub proof fn local_binaries_go_first(args: AddArgs)
    ensures
        args.path matches Some(p) ==> chosen_binary(args) == BinarySource::LocalPath(p),
        chosen_binary(args) is Version ==> args.path is None && Some(chosen_binary(args)->Version_0)
            == args.version,
        chosen_binary(args) is Url ==> args.path is None && args.version is None && Some(
            chosen_binary(args)->Url_0,
        ) == args.url,
        chosen_binary(args) is Latest <==> args.path is None && args.version is None && args.url
            is None,
{
}

} // verus!
