use ant_core::node::error::Error;
use ant_core::node::types::{
    AddNodeOpts, BinarySource, DaemonConfig, PortRange, UpgradeChannel,
};

#[test]
fn daemon_config_default_paths() {
    let cfg = DaemonConfig::in_dirs("/home/u/.local/share/ant", "/home/u/.local/share/ant/logs");
    assert_eq!(cfg.listen_addr, [127, 0, 0, 1]);
    assert!(cfg.port.is_none());
    assert!(cfg.registry_path.ends_with("node_registry.json"));
    assert!(cfg.port_file_path.ends_with("daemon.port"));
    assert!(cfg.pid_file_path.ends_with("daemon.pid"));
}

#[test]
fn port_range_single_len() {
    let pr = PortRange::Single(8080);
    assert_eq!(pr.len(), 1);
    assert!(!pr.is_empty());
}

#[test]
fn port_range_single_port_at() {
    let pr = PortRange::Single(8080);
    assert_eq!(pr.port_at(0), Some(8080));
    assert_eq!(pr.port_at(1), None);
}

#[test]
fn port_range_range_len() {
    let pr = PortRange::Range(12000, 12004);
    assert_eq!(pr.len(), 5);
}

#[test]
fn port_range_range_port_at() {
    let pr = PortRange::Range(12000, 12002);
    assert_eq!(pr.port_at(0), Some(12000));
    assert_eq!(pr.port_at(1), Some(12001));
    assert_eq!(pr.port_at(2), Some(12002));
    assert_eq!(pr.port_at(3), None);
}

#[test]
fn add_node_opts_default() {
    let opts = AddNodeOpts::default();
    assert_eq!(opts.count, 1);
    assert_eq!(opts.network_id, 1);
    assert!(matches!(opts.binary_source, BinarySource::Latest));
}

#[test]
fn port_indices_cover_exactly_the_range() {
    let pr = PortRange::Range(65_530, 65_535);
    let ports: Vec<u16> = (0..pr.len()).filter_map(|i| pr.port_at(i)).collect();
    assert_eq!(ports, vec![65_530, 65_531, 65_532, 65_533, 65_534, 65_535]);
    assert_eq!(pr.port_at(6), None);
    assert_eq!(pr.port_at(u16::MAX), None);
}

#[test]
fn paths_are_joined_with_one_separator() {
    for (data, logs) in [("/a", "/b/c"), ("/a/", "b"), ("", "/"), ("a.b", "./c")] {
        let cfg = DaemonConfig::in_dirs(data, logs);
        let at = |dir: &str, name: &str| {
            std::path::Path::new(dir).join(name).to_string_lossy().into_owned()
        };
        assert_eq!(cfg.registry_path, at(data, "node_registry.json"));
        assert_eq!(cfg.log_path, at(logs, "daemon.log"));
        assert_eq!(cfg.port_file_path, at(data, "daemon.port"));
        assert_eq!(cfg.pid_file_path, at(data, "daemon.pid"));
    }
    let sep = std::path::MAIN_SEPARATOR;
    let cfg = DaemonConfig::in_dirs("/a/", "b");
    assert_eq!(cfg.registry_path, "/a/node_registry.json");
    assert_eq!(cfg.log_path, format!("b{sep}daemon.log"));
}

#[test]
fn sources_and_channels_as_text() {
    assert_eq!(BinarySource::Latest.to_text(), "latest");
    assert_eq!(BinarySource::Version("1.0.0".to_string()).to_text(), "v1.0.0");
    assert_eq!(UpgradeChannel::Stable.to_text(), "stable");
    assert_eq!(UpgradeChannel::Beta.to_text(), "beta");
}

#[test]
fn node_errors_as_text() {
    assert_eq!(Error::NodeNotFound(3).message(), "Node not found: 3");
    assert_eq!(Error::DaemonNotRunning.message(), "Daemon not running");
    assert_eq!(
        Error::DaemonAlreadyRunning(77).message(),
        "Daemon already running (pid: 77)"
    );
    assert_eq!(
        Error::PortRangeMismatch { range_len: 3, count: 2 }.message(),
        "Port range length (3) does not match node count (2)"
    );
    assert_eq!(Error::Io("gone".to_string()).message(), "I/O error: gone");
}
