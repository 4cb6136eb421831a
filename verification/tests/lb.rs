use rinha_rust_tree::lb::after_accept;
use rinha_rust_tree::lb::after_transfer;
use rinha_rust_tree::lb::AcceptNext;
use rinha_rust_tree::lb::next_attempt;
use rinha_rust_tree::lb::parse_upstreams;
use rinha_rust_tree::lb::parse_worker_map;
use rinha_rust_tree::lb::Attempt;
use rinha_rust_tree::lb::ProxySettings;
use rinha_rust_tree::lb::Rotation;
use rinha_rust_tree::lb::Route;
use rinha_rust_tree::lb::Transfer;
use rinha_rust_tree::lb::WorkerSpec;
use rinha_rust_tree::lb::DEFAULT_BATCH_LIMIT;
use rinha_rust_tree::lb::DEFAULT_QUEUE_DEPTH;
use rinha_rust_tree::lb::MAX_UPSTREAM_NODES;
use rinha_rust_tree::lb::STANDARD_PORT;

#[test]
fn test_proxy_settings_defaults() {
    let settings = ProxySettings::from_values(None, None, None, None, None).unwrap();
    assert_eq!(settings.listen_port, STANDARD_PORT);
    assert_eq!(settings.queue_depth, DEFAULT_QUEUE_DEPTH);
    assert_eq!(settings.batch_limit, DEFAULT_BATCH_LIMIT);
    assert_eq!(
        settings.upstream_paths,
        vec!["/sockets/api1.sock".to_string(), "/sockets/api2.sock".to_string()]
    );
    assert!(settings.worker_map.is_empty());
}

#[test]
fn test_parse_worker_map() {
    assert_eq!(
        parse_worker_map("2:/sockets/api1.sock,3:/sockets/api2.sock").unwrap(),
        vec![
            WorkerSpec { cpu: 2, socket_path: "/sockets/api1.sock".to_string() },
            WorkerSpec { cpu: 3, socket_path: "/sockets/api2.sock".to_string() }
        ]
    );
    assert!(parse_worker_map("").unwrap().is_empty());
    assert!(parse_worker_map("2:sockets/api1.sock").is_err());
    assert!(parse_worker_map("x:/sockets/api1.sock").is_err());
}

#[test]
fn wrong_worker_entries_are_named() {
    assert_eq!(
        parse_worker_map("1:/a, /b").unwrap_err(),
        "entry '/b' must be cpu:/socket"
    );
    assert_eq!(
        parse_worker_map("x:/a").unwrap_err(),
        "entry 'x:/a' has invalid CPU"
    );
    assert_eq!(
        parse_worker_map("1:a").unwrap_err(),
        "entry '1:a' must use an absolute socket path"
    );
}

#[test]
fn settings_override_the_defaults() {
    let settings = ProxySettings::from_values(
        Some(" /a.sock ,, /b.sock"),
        Some("8080"),
        Some("-5"),
        Some("no number"),
        Some("1:/w.sock"),
    )
    .unwrap();
    assert_eq!(settings.listen_port, 8080);
    assert_eq!(settings.queue_depth, -5);
    assert_eq!(settings.batch_limit, DEFAULT_BATCH_LIMIT);
    assert_eq!(settings.upstream_paths, vec!["/a.sock", "/b.sock"]);
    assert_eq!(settings.worker_map.len(), 1);
    assert_eq!(
        ProxySettings::from_values(None, Some("70000"), None, None, None).unwrap().listen_port,
        STANDARD_PORT
    );
    assert!(ProxySettings::from_values(None, None, None, None, Some("x")).is_err());
}

#[test]
fn no_more_upstreams_than_fit() {
    let many: Vec<String> = (0..40).map(|i| format!("/s{}", i)).collect();
    let upstreams = parse_upstreams(&many.join(","));
    assert_eq!(upstreams.len(), MAX_UPSTREAM_NODES);
    assert_eq!(upstreams[31], "/s31");
}

#[test]
fn workers_take_turns() {
    let mut rotation = Rotation::new(3);
    let turns: Vec<usize> = (0..7).map(|_| rotation.advance()).collect();
    assert_eq!(turns, vec![0, 1, 2, 0, 1, 2, 0]);
}

#[test]
fn every_worker_is_tried_before_the_first_is_insisted_on() {
    let attempts: Vec<Attempt> = (0..4).map(|tried| next_attempt(2, tried, 3)).collect();
    assert_eq!(
        attempts,
        vec![
            Attempt::Try { position: 2 },
            Attempt::Try { position: 0 },
            Attempt::Try { position: 1 },
            Attempt::Insist { position: 2 },
        ]
    );
}

#[test]
fn one_connects_again_only_once() {
    assert_eq!(after_transfer(Transfer::Sent, true, false), Route::Done);
    assert_eq!(after_transfer(Transfer::WouldBlock, true, false), Route::GiveUp);
    assert_eq!(after_transfer(Transfer::WouldBlock, false, false), Route::Reconnect);
    assert_eq!(after_transfer(Transfer::Failed, true, false), Route::Reconnect);
    assert_eq!(after_transfer(Transfer::Failed, false, true), Route::GiveUp);
}

#[test]
fn batches_end_at_the_limit_or_when_nothing_comes_in() {
    assert_eq!(after_accept(0, 2, true), AcceptNext::Accept);
    assert_eq!(after_accept(1, 2, true), AcceptNext::Accept);
    assert_eq!(after_accept(2, 2, true), AcceptNext::NextBatch);
    assert_eq!(after_accept(1, 2, false), AcceptNext::NextBatch);
    assert_eq!(after_accept(0, 2, false), AcceptNext::Wait);
    assert_eq!(after_accept(0, 0, true), AcceptNext::Wait);
}
