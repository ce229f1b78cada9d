use ant_core::cli::add::{
    add_route, bar_cells, daemon_error, node_details, node_title, nodes_url, parse_env_variable,
    AddArgs, AddRoute, EvmNetworkArg, UpgradeChannelArg,
};
use ant_core::cli::chunk::{
    check_file_length, check_stdin_length, closest_delivered, parse_address, peer_get_report,
    stdin_limit, xor_distance_decimal, AddressError,
};
use ant_core::cli::file::{
    check_upload_size, combined_cost, cost_in_atto, data_map_source, datamap_location,
    describe_datamap_failure, describe_upload_failure, download_lines, estimate_display,
    estimate_lines, gas_cost_text, original_name_from_datamap, output_for_datamap,
    place_of_datamap, private_lines, private_report, public_lines, public_report, requested_mode,
    requested_policy, resolve_download_output, show_download_event, show_upload_event, size_text,
    stem_of_datamap, step_error, storage_cost_text, CollisionPolicy, CostEstimateConfidence,
    CostText, DataMapSource, DownloadProgress, FileAction, SizeText, SourceError, UploadProgress,
};
use ant_core::data::client::chunk::{ChunkPeerGetResult, DataChunk};
use ant_core::data::client::file::{FileUploadResult, UploadEvent};
use ant_core::data::client::file_download::DownloadEvent;
use ant_core::data::client::merkle::PaymentMode;
use ant_core::data::data_map::DataMap;
use ant_core::data::error::Error;
use ant_core::node::types::{BinarySource, EvmNetwork, NodeConfig, PortRange, UpgradeChannel};
use ant_core::protocol::MAX_CHUNK_SIZE;
use ant_core::xor::{PeerId, XORNAME_BYTE_LEN};

#[test]
fn xor_distance_decimal_formats_zero() {
    assert_eq!(xor_distance_decimal(&[0; XORNAME_BYTE_LEN]), "0");
}

#[test]
fn xor_distance_decimal_formats_single_byte() {
    let mut distance = [0; XORNAME_BYTE_LEN];
    distance[XORNAME_BYTE_LEN - 1] = 42;

    assert_eq!(xor_distance_decimal(&distance), "42");
}

#[test]
fn xor_distance_decimal_formats_multi_byte() {
    let mut distance = [0; XORNAME_BYTE_LEN];
    distance[XORNAME_BYTE_LEN - 2] = 1;

    assert_eq!(xor_distance_decimal(&distance), "256");
}

#[test]
fn largest_distance_in_decimal() {
    assert_eq!(
        xor_distance_decimal(&[0xff; XORNAME_BYTE_LEN]),
        "115792089237316195423570985008687907853269984665640564039457584007913129639935"
    );
}

#[test]
fn resolve_download_output_returns_explicit_output_unchanged() {
    let explicit = "custom/path.bin".to_string();
    let resolved =
        resolve_download_output(Some(explicit.clone()), Some("photo.jpg.datamap")).ok();
    assert_eq!(resolved, Some(explicit));
}

#[test]
fn resolve_download_output_explicit_wins_even_without_datamap() {
    let explicit = "out.bin".to_string();
    let resolved = resolve_download_output(Some(explicit.clone()), None).ok();
    assert_eq!(resolved, Some(explicit));
}

#[test]
fn resolve_download_output_derives_from_datamap_basename() {
    let resolved = resolve_download_output(None, Some("photo.jpg.datamap")).ok();
    assert_eq!(resolved, Some("photo.jpg".to_string()));
}

#[test]
fn resolve_download_output_derives_from_full_datamap_path() {
    let resolved = resolve_download_output(None, Some("/tmp/sub/archive.tar.gz.datamap")).ok();
    assert_eq!(resolved, Some("archive.tar.gz".to_string()));
}

fn refusal(output: Option<String>, datamap: Option<&str>) -> String {
    match resolve_download_output(output, datamap) {
        Ok(name) => panic!("unexpected name {name}"),
        Err(e) => e.message,
    }
}

#[test]
fn resolve_download_output_errors_on_address_download_without_output() {
    let err = refusal(None, None);
    assert!(err.contains("--output"), "expected --output guidance, got: {err}");
}

#[test]
fn resolve_download_output_errors_on_bare_dot_datamap() {
    let msg = refusal(None, Some(".datamap"));
    assert!(msg.contains("Cannot derive"), "got: {msg}");
    assert!(msg.contains("-o/--output"), "got: {msg}");
}

#[test]
fn resolve_download_output_errors_on_non_datamap_extension() {
    assert!(refusal(None, Some("photo.jpg")).contains("Cannot derive"));
}

#[test]
fn names_come_from_paths() {
    for path in [
        "a", "a/b", "a//b", "/a", "/a/b/", "a/b/.", "a/./b", "./a", "a/..", "..", ".", "/", "",
        "./.", "/a//b//", ".a", "a/.b", "../a", "a/b/./", "./", "\u{e9}/\u{fc}", "C:\\a", "a\\b",
        "b.txt.datamap", "a\\b.txt.datamap", "a/b.datamap/", "a/..datamap",
    ] {
        let std_path = std::path::Path::new(path);
        let name = std_path.file_name().map(|n| n.to_string_lossy().into_owned());
        let dir = std_path
            .parent()
            .map(|p| p.to_string_lossy().into_owned())
            .filter(|p| !p.is_empty())
            .unwrap_or_else(|| ".".to_string());
        match (datamap_location(path), name.clone()) {
            (Ok(place), Some(name)) => assert_eq!(place, (dir, name), "path {path:?}"),
            (Err(e), None) => assert_eq!(
                e.message,
                format!("Cannot determine source filename from {path}")
            ),
            _ => panic!("path {path:?}"),
        }
        let stem = name
            .and_then(|n| n.strip_suffix(".datamap").map(str::to_string))
            .filter(|n| !n.is_empty());
        assert_eq!(original_name_from_datamap(path), stem, "path {path:?}");
    }
    assert_eq!(original_name_from_datamap("a/b.txt.datamap"), Some("b.txt".to_string()));
    assert_eq!(original_name_from_datamap("a/.datamap"), None);
    assert_eq!(
        datamap_location("dir/b.txt").ok(),
        Some(("dir".to_string(), "b.txt".to_string()))
    );
    assert_eq!(datamap_location("b.txt").ok(), Some((".".to_string(), "b.txt".to_string())));
    assert_eq!(datamap_location("/b.txt").ok(), Some(("/".to_string(), "b.txt".to_string())));
    assert!(datamap_location("..").is_err());
}

#[test]
fn outputs_follow_the_name_of_the_data_map() {
    assert_eq!(stem_of_datamap("a.datamap"), Some("a".to_string()));
    assert_eq!(stem_of_datamap(".datamap"), None);
    assert_eq!(stem_of_datamap("a.datamaps"), None);
    let windows = "C:\\maps\\a.bin.datamap";
    assert_eq!(
        output_for_datamap(windows, Some("a.bin.datamap".to_string())).ok(),
        Some("a.bin".to_string())
    );
    for name in [None, Some("a.bin".to_string())] {
        match output_for_datamap(windows, name) {
            Err(e) => assert_eq!(
                e.message,
                format!("Cannot derive output filename from {windows}; pass -o/--output explicitly")
            ),
            Ok(path) => panic!("{path}"),
        }
    }
    let file = Some("a.bin".to_string());
    let dir = Some("C:\\maps".to_string());
    assert_eq!(
        place_of_datamap("C:\\maps\\a.bin", dir, file.clone()).ok(),
        Some(("C:\\maps".to_string(), "a.bin".to_string()))
    );
    for nowhere in [None, Some(String::new())] {
        assert_eq!(
            place_of_datamap("a.bin", nowhere, file.clone()).ok(),
            Some((".".to_string(), "a.bin".to_string()))
        );
    }
    match place_of_datamap("C:", None, None) {
        Err(e) => assert_eq!(e.message, "Cannot determine source filename from C:"),
        Ok(_) => panic!("no name"),
    }
}

fn scaled(text: CostText) -> Option<(u128, usize, String)> {
    match text {
        CostText::Free => None,
        CostText::Scaled { divisor, decimals, unit } => Some((divisor, decimals, unit)),
    }
}

#[test]
fn costs_are_shown_in_fitting_units() {
    let one: u128 = 1_000_000_000_000_000_000;
    let ant = |decimals: usize| Some((one, decimals, "ANT".to_string()));
    assert_eq!(scaled(storage_cost_text(0)), None);
    assert_eq!(scaled(storage_cost_text(one)), ant(2));
    assert_eq!(scaled(storage_cost_text(one - 1)), ant(3));
    assert_eq!(scaled(storage_cost_text(one / 1000)), ant(3));
    let nano = Some((1_000_000_000, 2, "nanoANT".to_string()));
    assert_eq!(scaled(storage_cost_text(one / 1000 - 1)), nano);
    assert_eq!(scaled(storage_cost_text(1)), nano);

    assert_eq!(scaled(gas_cost_text(0)), None);
    let hundredth = one / 100;
    for wei in [1, hundredth - 3, hundredth - 2, hundredth - 1, hundredth, hundredth + 1, one] {
        let decimals = if wei as f64 / 1e18 >= 0.01 { 4 } else { 6 };
        assert_eq!(scaled(gas_cost_text(wei)), Some((one, decimals, "ETH".to_string())));
    }
}

#[test]
fn addresses_are_parsed_from_hex() {
    let text = "0a".repeat(32);
    assert!(matches!(parse_address(&text), Ok(bytes) if bytes == [0x0a; 32]));
    assert!(matches!(parse_address(&"0A".repeat(32)), Ok(bytes) if bytes == [0x0a; 32]));
    let refused = [
        ("zz", "Invalid character 'z' at position 0"),
        ("0a 1", "Invalid character ' ' at position 2"),
        ("0a1g", "Invalid character 'g' at position 3"),
        ("abc", "Odd number of digits"),
        ("x", "Odd number of digits"),
        ("\n\n", "Invalid character '\\n' at position 0"),
        ("\u{e9}", "Invalid character '\u{c3}' at position 0"),
    ];
    for (text, complaint) in refused {
        match parse_address(text) {
            Err(AddressError::InvalidHex(reason)) => assert_eq!(reason, complaint),
            other => panic!("{other:?}"),
        }
        match parse_address(text) {
            Err(e) => assert_eq!(e.message(), complaint),
            Ok(_) => panic!("{text}"),
        }
    }
    match parse_address("0a0b") {
        Err(e) => assert_eq!(e.message(), "Invalid address length: expected 32 bytes, got 2"),
        Ok(_) => panic!("two bytes are no address"),
    }
}

#[test]
fn chunk_input_is_bounded() {
    assert!(check_file_length(MAX_CHUNK_SIZE as u64).is_ok());
    match check_file_length(MAX_CHUNK_SIZE as u64 + 1) {
        Err(e) => assert_eq!(
            e.message,
            "Input file exceeds MAX_CHUNK_SIZE (4194304 bytes): 4194305 bytes"
        ),
        Ok(()) => panic!("too long"),
    }
    assert_eq!(stdin_limit(), MAX_CHUNK_SIZE as u64 + 1);
    assert!(check_stdin_length(MAX_CHUNK_SIZE).is_ok());
    match check_stdin_length(MAX_CHUNK_SIZE + 1) {
        Err(e) => assert_eq!(e.message, "Stdin input exceeds MAX_CHUNK_SIZE (4194304 bytes)"),
        Ok(()) => panic!("too long"),
    }
}

fn peer_result(seed: u8, result: Result<Option<DataChunk>, Error>) -> ChunkPeerGetResult {
    let mut xor_distance = [0u8; 32];
    xor_distance[31] = seed;
    ChunkPeerGetResult {
        peer_id: PeerId::from_bytes([seed; 32]),
        peer_addrs: Vec::new(),
        xor_distance,
        chunk_result: result,
    }
}

#[test]
fn close_group_report_has_a_line_per_peer() {
    let chunk = DataChunk { address: [1u8; 32], content: vec![1, 2, 3] };
    let results = vec![
        peer_result(1, Ok(None)),
        peer_result(2, Ok(Some(chunk))),
        peer_result(3, Err(Error::Timeout("slow".to_string()))),
        peer_result(4, Err(Error::Network("down".to_string()))),
        peer_result(5, Err(Error::InvalidData("odd".to_string()))),
    ];
    let (lines, summary) = peer_get_report("addr", &results);
    assert_eq!(lines.len(), 7);
    assert_eq!(lines[0], "Close group GET results for addr:");
    assert_eq!(
        lines[2],
        format!("2. peer={} distance=2 addrs=0 result=found bytes=3", "02".repeat(32))
    );
    assert_eq!(
        lines[3],
        format!("3. peer={} distance=3 addrs=0 result=timeout message=slow", "03".repeat(32))
    );
    assert!(lines[5].ends_with("result=error message=invalid data: odd"));
    assert_eq!(lines[6], "Summary: found=1 not_found=1 timeout=1 network_error=1 error=1");
    assert_eq!(summary.found, 1);
    match closest_delivered("addr", &results) {
        Ok(chunk) => assert_eq!(chunk.content, vec![1, 2, 3]),
        Err(e) => panic!("{}", e.message),
    }
    match closest_delivered("addr", &vec![peer_result(1, Ok(None))]) {
        Err(e) => assert_eq!(e.message, "Chunk not found for address addr"),
        Ok(_) => panic!("nothing was delivered"),
    }
}

#[test]
fn payment_flags_pick_the_mode() {
    assert_eq!(requested_mode(true, false), PaymentMode::Merkle);
    assert_eq!(requested_mode(false, true), PaymentMode::Single);
    assert_eq!(requested_mode(false, false), PaymentMode::Auto);
    assert!(matches!(requested_policy(true), CollisionPolicy::Overwrite));
    assert!(matches!(requested_policy(false), CollisionPolicy::NumericSuffix));
    let upload = FileAction::Upload {
        path: "p".to_string(),
        public: false,
        merkle: false,
        no_merkle: false,
        store_timeout: Some(5),
        store_concurrency: None,
        overwrite: false,
    };
    assert_eq!(upload.upload_overrides(), (Some(5), None));
    let cost = FileAction::Cost { path: "p".to_string(), merkle: false, no_merkle: false };
    assert_eq!(cost.upload_overrides(), (None, None));
}

#[test]
fn upload_failures_are_described() {
    let partial = Error::PartialUpload {
        stored: vec![[1u8; 32]],
        stored_count: 1,
        failed: Vec::new(),
        failed_count: 2,
        total_chunks: 3,
        reason: "why".to_string(),
    };
    let (record, error) = describe_upload_failure(partial);
    let record = match record {
        Some(record) => record,
        None => panic!("a partial upload has a record"),
    };
    assert_eq!(record.error, "partial_upload");
    assert_eq!((record.total_chunks, record.chunks_stored, record.chunks_failed), (3, 1, 2));
    assert_eq!(error.message, "Upload failed: 1/3 stored, 2 failed: why");
    let (record, error) = describe_upload_failure(Error::Network("down".to_string()));
    assert!(record.is_none());
    assert_eq!(error.message, "File upload failed: network error: down");
    let (record, error) = describe_datamap_failure(4, &Error::Network("down".to_string()));
    assert_eq!(record.error, "datamap_store_failed");
    assert_eq!(record.chunks_stored, 4);
    assert_eq!(error.message, "Failed to store public DataMap: network error: down");
    assert_eq!(step_error("Failed: ", "x").message, "Failed: x");
    assert!(check_upload_size(3).is_ok());
    assert!(check_upload_size(2).is_err());
}

fn upload_result() -> FileUploadResult {
    FileUploadResult {
        data_map: DataMap { chunks: Vec::new(), child: None },
        chunks_stored: 3,
        chunks_failed: 0,
        total_chunks: 3,
        payment_mode_used: PaymentMode::Single,
        storage_cost_atto: "120".to_string(),
        gas_cost_wei: 9,
        data_map_address: None,
        chunk_attempts_total: 4,
        store_durations_ms: vec![1, 2, 3],
        retries_histogram: [2, 1, 0, 0],
    }
}

#[test]
fn upload_reports_carry_the_result() {
    let public = public_report(upload_result(), "ab".to_string(), 99);
    assert_eq!(public.mode, "public");
    assert_eq!(public.address, Some("ab".to_string()));
    assert_eq!(public.datamap, None);
    assert_eq!(public.chunks, 4);
    assert_eq!(public.size, 99);
    assert_eq!(public.gas_cost_wei, "9");
    assert_eq!(public.retries_histogram, [2, 1, 0, 0]);
    let private = private_report(upload_result(), "f.datamap".to_string(), 99);
    assert_eq!(private.mode, "private");
    assert_eq!(private.datamap, Some("f.datamap".to_string()));
    assert_eq!(private.chunks, 3);
    assert_eq!(private.storage_cost_atto, "120");
}

#[test]
fn upload_lines_say_how_to_download() {
    let public = public_lines("ab", 3, "9 B", "free", "1s");
    assert_eq!(public[3], "  Chunks:  4 (3 + 1 data map)");
    assert_eq!(public[public.len() - 1], "  ant file download ab -o <FILE>");
    let private = private_lines("f.datamap", 3, "9 B", "free", "1s");
    assert_eq!(private[3], "  Chunks:  3");
    assert_eq!(private[private.len() - 1], "  ant file download --datamap f.datamap");
    assert_eq!(
        download_lines("f", "9 B", "1s"),
        vec!["Download complete!", "  File: f", "  Size: 9 B", "  Time: 1s"]
    );
    let estimate = estimate_lines("f", "9 B", 3, "c");
    assert_eq!(estimate[1], "Estimated upload cost for f");
    assert_eq!(estimate[3], "  Chunks:  3");
}

#[test]
fn progress_follows_the_events() {
    match show_upload_event(UploadEvent::Encrypting { chunks_done: 10 }, "f", 0) {
        UploadProgress::Message(m) => assert_eq!(m, "Encrypting f (10 chunks)..."),
        _ => panic!("a message"),
    }
    match show_upload_event(UploadEvent::Encrypted { total_chunks: 4 }, "f", 0) {
        UploadProgress::StartBar { note, length, message } => {
            assert_eq!(note, "Encrypted into 4 chunks");
            assert_eq!(length, 4);
            assert_eq!(message, "Uploading f");
        }
        _ => panic!("a bar"),
    }
    match show_download_event(DownloadEvent::MapChunkFetched { fetched: 2 }) {
        DownloadProgress::Message(m) => assert_eq!(m, "Resolving data map... (2 chunks)"),
        _ => panic!("a message"),
    }
    assert!(matches!(
        show_download_event(DownloadEvent::DataMapResolved { total_chunks: 5 }),
        DownloadProgress::StartBar(5)
    ));
    assert!(matches!(
        show_download_event(DownloadEvent::ChunksFetched { fetched: 2, total: 5 }),
        DownloadProgress::Position(2)
    ));
}

#[test]
fn data_map_comes_from_the_network_or_a_file() {
    assert!(matches!(
        data_map_source(Some(&"01".repeat(32)), false),
        Ok(DataMapSource::Network(a)) if a == [1u8; 32]
    ));
    assert!(matches!(data_map_source(None, true), Ok(DataMapSource::LocalFile)));
    assert!(matches!(
        data_map_source(Some("xx"), true),
        Err(SourceError::Address(AddressError::InvalidHex(reason)))
            if reason == "Invalid character 'x' at position 0"
    ));
    match data_map_source(None, false) {
        Err(SourceError::Missing(e)) => {
            assert_eq!(e.message, "--datamap required for private download")
        }
        _ => panic!("no source"),
    }
}

#[test]
fn costs_as_text() {
    assert_eq!(cost_in_atto("123"), 123);
    assert_eq!(cost_in_atto("x"), 0);
    assert_eq!(combined_cost("0", 0, "s", "g"), "free (already stored)");
    assert_eq!(combined_cost("0", 1, "s", "g"), "s (gas: g)");
    assert_eq!(estimate_display(CostEstimateConfidence::PricedSample, "p"), "p");
    assert_eq!(
        estimate_display(CostEstimateConfidence::VerifiedAllAlreadyStored, "p"),
        "already stored on the network — free"
    );
    assert_eq!(
        estimate_display(CostEstimateConfidence::AllSamplesAlreadyStoredIncomplete, "p"),
        "likely already stored — free (confirmed at payment)"
    );
    assert!(matches!(size_text(1023), SizeText::Whole(t) if t == "1023 B"));
    assert!(matches!(
        size_text(1024),
        SizeText::Scaled { divisor: 1024, decimals: 1, unit } if unit == "KB"
    ));
    assert!(matches!(
        size_text(1_073_741_824),
        SizeText::Scaled { divisor: 1_073_741_824, decimals: 2, unit } if unit == "GB"
    ));
}

fn add_args() -> AddArgs {
    AddArgs {
        rewards_address: "0xabc".to_string(),
        count: 2,
        node_port: Some("12000-12001".to_string()),
        data_dir_path: None,
        log_dir_path: None,
        path: None,
        version: Some("1.2.3".to_string()),
        url: None,
        bootstrap: vec!["b".to_string()],
        evm_network: EvmNetworkArg::ArbitrumSepolia,
        upgrade_channel: Some(UpgradeChannelArg::Beta),
        env: vec!["A=1".to_string(), "B=x=y".to_string()],
    }
}

#[test]
fn arguments_become_options() {
    let opts = match add_args().to_add_node_opts() {
        Ok(opts) => opts,
        Err(e) => panic!("{}", e.message),
    };
    assert_eq!(opts.count, 2);
    assert!(matches!(opts.node_port, Some(PortRange::Range(12000, 12001))));
    assert!(matches!(opts.binary_source, BinarySource::Version(v) if v == "1.2.3"));
    assert_eq!(opts.evm_network, EvmNetwork::ArbitrumSepolia);
    assert_eq!(opts.upgrade_channel, Some(UpgradeChannel::Beta));
    assert_eq!(
        opts.env_variables,
        vec![
            ("A".to_string(), "1".to_string()),
            ("B".to_string(), "x=y".to_string()),
        ]
    );
    let mut wrong = add_args();
    wrong.env = vec!["novalue".to_string()];
    match wrong.to_add_node_opts() {
        Err(e) => assert_eq!(
            e.message,
            "Invalid env variable format: 'novalue'. Expected KEY=VALUE"
        ),
        Ok(_) => panic!("a variable without a value"),
    }
    assert_eq!(
        parse_env_variable(&"K=".to_string()).ok(),
        Some(("K".to_string(), String::new()))
    );
}

#[test]
fn ports_are_parsed() {
    let args = add_args();
    let parse = |s: &str| match args.parse_port_range(&Some(s.to_string())) {
        Ok(range) => Ok(range),
        Err(e) => Err(e.message),
    };
    assert!(matches!(parse("8080"), Ok(Some(PortRange::Single(8080)))));
    assert!(matches!(parse("1-2"), Ok(Some(PortRange::Range(1, 2)))));
    assert!(matches!(args.parse_port_range(&None), Ok(None)));
    assert!(matches!(parse("x"), Err(m) if m.starts_with("Invalid port: 'x'")));
    assert!(matches!(parse("x-2"), Err(m) if m.starts_with("Invalid port range start: 'x'")));
    assert!(matches!(parse("1-y"), Err(m) if m.starts_with("Invalid port range end: 'y'")));
    assert!(matches!(parse("5-4"), Err(m) if m == "Port range end (4) must be >= start (5)"));
    assert!(parse("70000").is_err());
}

#[test]
fn nodes_are_added_through_a_running_daemon() {
    assert!(matches!(add_route(Some(true)), AddRoute::Daemon));
    assert!(matches!(add_route(Some(false)), AddRoute::Direct));
    assert!(matches!(add_route(None), AddRoute::Direct));
    assert_eq!(nodes_url(Some("http://h/api/v1")).ok(), Some("http://h/api/v1/nodes".to_string()));
    match nodes_url(None) {
        Err(e) => assert_eq!(e.message, "Daemon is running but API base URL not available"),
        Ok(_) => panic!("no base"),
    }
    assert_eq!(daemon_error("boom").message, "Daemon returned error: boom");
}

#[test]
fn added_nodes_are_listed() {
    let node = NodeConfig {
        id: 3,
        service_name: "node3".to_string(),
        rewards_address: "0x".to_string(),
        data_dir: "/d".to_string(),
        log_dir: None,
        node_port: Some(9),
        metrics_port: None,
        network_id: None,
        binary_path: "/b".to_string(),
        version: "1".to_string(),
        env_variables: Vec::new(),
        bootstrap_peers: Vec::new(),
        upgrade_channel: None,
    };
    assert_eq!(node_title(&node), "Node 3 (node3)");
    let details: Vec<(String, String)> = node_details(&node);
    assert_eq!(
        details.iter().map(|(k, v)| format!("{k}={v}")).collect::<Vec<_>>(),
        vec!["Data=/d", "Port=9", "Binary=/b", "Version=1"]
    );
    assert_eq!(bar_cells(0), (0, 30));
    assert_eq!(bar_cells(50), (15, 15));
    assert_eq!(bar_cells(100), (30, 0));
}
