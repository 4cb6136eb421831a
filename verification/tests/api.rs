use rinha_rust_tree::api::handle_request;
use rinha_rust_tree::api::server::api_socket_prefix;
use rinha_rust_tree::api::server::worker_count;
use rinha_rust_tree::api::server::worker_socket_path;
use rinha_rust_tree::api::Readiness;
use rinha_rust_tree::http::responses;
use rinha_rust_tree::http::Method;
use rinha_rust_tree::http::Request;
use rinha_rust_tree::index::build::build_index;
use rinha_rust_tree::index::build::Reference;
use rinha_rust_tree::index::partition_scheme::PartitionScheme;
use rinha_rust_tree::index::SearchSettings;
use rinha_rust_tree::index::SpecialistIndex;
use rinha_rust_tree::runtime;
use rinha_rust_tree::vector::parse_query;
use rinha_rust_tree::PACKED_DIMS;

const PAYLOAD: &[u8] = br#"{"id":"tx-1","transaction":{"amount":384.88,"installments":3,"requested_at":"2026-03-11T20:23:35Z"},"customer":{"avg_amount":769.76,"tx_count_24h":3,"known_merchants":["MERC-009","MERC-001"]},"merchant":{"id":"MERC-001","mcc":"5912","avg_amount":298.95},"terminal":{"is_online":false,"card_present":true,"km_from_home":13.70},"last_transaction":null}"#;

fn index_around(payload: &[u8], frauds: usize) -> SpecialistIndex {
    let mut query = [0i16; PACKED_DIMS];
    parse_query(payload, &mut query).unwrap();
    let mut references = Vec::new();
    for i in 0..5 {
        let mut vector = query;
        vector[0] += i as i16;
        references.push(Reference { vector, label: (i < frauds) as u8 });
    }
    for i in 0..20 {
        let mut vector = [9000i16; PACKED_DIMS];
        vector[14] = 0;
        vector[15] = 0;
        vector[1] = i;
        references.push(Reference { vector, label: (frauds < 3) as u8 });
    }
    let bytes = build_index(references, 8, PartitionScheme::recommended()).unwrap();
    SpecialistIndex::open(&bytes, SearchSettings::from_values(None, None, None)).unwrap()
}

fn request<'a>(method: Method, path: &'a [u8], body: &'a [u8]) -> Request<'a> {
    Request { method, path, body, keep_alive: true }
}

#[test]
fn test_api_socket_prefix_behavior() {
    assert_eq!(api_socket_prefix(None, false, None), None);
    assert_eq!(
        api_socket_prefix(Some("/custom/path"), false, None),
        Some("/custom/path".to_string())
    );
    assert_eq!(
        api_socket_prefix(Some("/custom/path"), true, Some("host")),
        Some("/custom/path".to_string())
    );
    assert_eq!(api_socket_prefix(None, true, Some("host")), Some("/sockets/host".to_string()));
    assert_eq!(api_socket_prefix(None, true, Some("")), Some("/sockets/api1".to_string()));
    assert_eq!(api_socket_prefix(None, true, None), Some("/sockets/api1".to_string()));
}

#[test]
fn workers_have_sockets_of_their_own() {
    assert_eq!(worker_count(None), 1);
    assert_eq!(worker_count(Some("0")), 1);
    assert_eq!(worker_count(Some("12")), 12);
    assert_eq!(worker_count(Some("many")), 1);
    assert_eq!(worker_socket_path("/sockets/api1", 1, 0), "/sockets/api1.sock");
    assert_eq!(worker_socket_path("/sockets/api1", 4, 2), "/sockets/api1-w2.sock");
}

#[test]
fn scores_count_the_nearest_references() {
    let mut readiness = Readiness::new();
    readiness.start(false);
    for frauds in 0..6 {
        let index = index_around(PAYLOAD, frauds);
        let response = handle_request(
            &request(Method::Post, b"/fraud-score", PAYLOAD),
            &index,
            &readiness,
        );
        assert_eq!(response, responses::fraud_response(frauds));
    }
}

#[test]
fn a_wrong_body_is_a_bad_request() {
    let index = index_around(PAYLOAD, 0);
    let mut readiness = Readiness::new();
    readiness.start(false);
    let response =
        handle_request(&request(Method::Post, b"/fraud-score", b"{}"), &index, &readiness);
    assert_eq!(response, responses::RESPONSE_BAD_REQUEST.as_bytes());
}

#[test]
fn other_paths_are_not_found() {
    let index = index_around(PAYLOAD, 0);
    let readiness = Readiness::new();
    for req in [
        request(Method::Get, b"/fraud-score", b""),
        request(Method::Get, b"/ready/", b""),
        request(Method::Post, b"/ready", b""),
    ] {
        assert_eq!(
            handle_request(&req, &index, &readiness),
            responses::RESPONSE_NOT_FOUND.as_bytes()
        );
    }
}

#[test]
fn warmup_requests_are_scored_before_the_service_is_ready() {
    let index = index_around(PAYLOAD, 2);
    let ready = request(Method::Get, b"/ready", b"");
    let score = request(Method::Post, b"/fraud-score", PAYLOAD);
    let mut readiness = Readiness::new();
    assert_eq!(
        handle_request(&ready, &index, &readiness),
        responses::RESPONSE_NOT_READY.as_bytes()
    );
    assert_eq!(
        handle_request(&score, &index, &readiness),
        responses::RESPONSE_NOT_READY.as_bytes()
    );
    readiness.start(true);
    assert_eq!(
        handle_request(&ready, &index, &readiness),
        responses::RESPONSE_NOT_READY.as_bytes()
    );
    assert_eq!(handle_request(&score, &index, &readiness), responses::fraud_response(2));
    readiness.finish_warmup();
    assert!(readiness.is_ready() && !readiness.accept_warmup());
    assert_eq!(handle_request(&ready, &index, &readiness), responses::RESPONSE_READY.as_bytes());
    assert_eq!(handle_request(&score, &index, &readiness), responses::fraud_response(2));
}

#[test]
fn runtime_settings_have_defaults() {
    assert_eq!(runtime::warmup_queries(None), 1000);
    assert_eq!(runtime::warmup_queries(Some("7")), 7);
    assert_eq!(runtime::payload_warmup_requests(None), 256);
    assert_eq!(runtime::payload_warmup_requests(Some("-1")), 256);
    assert!(runtime::self_warmup_enabled(Some("1")));
    assert!(!runtime::self_warmup_enabled(Some("true")));
    assert!(!runtime::self_warmup_enabled(None));
    assert_eq!(runtime::self_warmup_url(None), None);
    assert_eq!(runtime::self_warmup_url(Some("http://x")), Some("http://x".to_string()));
    assert_eq!(runtime::self_warmup_duration_ms(None), 5000);
    assert_eq!(runtime::self_warmup_duration_ms(Some("20")), 20);
    assert_eq!(runtime::self_warmup_concurrency(Some("0")), 4);
    assert_eq!(runtime::self_warmup_concurrency(Some("9")), 9);
    assert_eq!(runtime::self_warmup_payloads_path(None), None);
    assert_eq!(runtime::self_warmup_payloads_path(Some("p")), Some("p".to_string()));
}
