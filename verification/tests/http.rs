use rinha_rust_tree::http::parser::find_content_length;
use rinha_rust_tree::http::parser::parse_request_result;
use rinha_rust_tree::http::parser::ParseResult;
use rinha_rust_tree::http::parser::BUF_SIZE;
use rinha_rust_tree::http::parse_request;
use rinha_rust_tree::http::process_one_request;
use rinha_rust_tree::http::responses;
use rinha_rust_tree::http::BufferStep;
use rinha_rust_tree::http::Method;

#[test]
fn parses_first_line_without_allocating_parts() {
    let request = b"POST /fraud-score HTTP/1.1\r\nHost: localhost\r\nContent-Length: 2\r\n\r\n{}";
    let (parsed, consumed) = parse_request(request, false).expect("request should parse");

    assert_eq!(parsed.method, Method::Post);
    assert_eq!(parsed.path, b"/fraud-score");
    assert_eq!(parsed.body, b"{}");
    assert_eq!(consumed, request.len());
}

#[test]
fn parses_content_length_digits_directly() {
    assert_eq!(find_content_length(b"Host: x\r\nContent-Length: 123\r\n"), 123);
    assert_eq!(find_content_length(b"content-length:\t42\r\n"), 42);
    assert_eq!(find_content_length(b"Content-Length: nope\r\n"), 0);
}

#[test]
fn rejects_unknown_path_after_headers_without_waiting_for_body() {
    let request = b"POST /missing HTTP/1.1\r\nHost: localhost\r\nContent-Length: 64000\r\n\r\n";

    match parse_request_result(request, false) {
        ParseResult::Reject(response) => {
            assert_eq!(response, responses::RESPONSE_NOT_FOUND.as_bytes());
        }
        _ => panic!("unknown path should be rejected after headers"),
    }
}

#[test]
fn rejects_oversized_fraud_body_after_headers_without_waiting_for_body() {
    let request = b"POST /fraud-score HTTP/1.1\r\nHost: localhost\r\nContent-Length: 64000\r\n\r\n";

    match parse_request_result(request, false) {
        ParseResult::Reject(response) => {
            assert_eq!(response, responses::RESPONSE_BAD_REQUEST.as_bytes());
        }
        _ => panic!("oversized fraud body should be rejected after headers"),
    }
}

#[test]
fn keep_alive_processes_two_requests_in_one_buffer() {
    let req1 = b"GET /ready HTTP/1.1\r\nHost: localhost\r\n\r\n";
    let req2 = b"GET /ready HTTP/1.1\r\nHost: localhost\r\n\r\n";
    let mut buf = Vec::new();
    buf.extend_from_slice(req1);
    buf.extend_from_slice(req2);

    let mut offset = 0usize;
    for _ in 0..2 {
        match process_one_request(&buf[offset..], false, |_| responses::RESPONSE_READY.as_bytes()) {
            BufferStep::Respond { consumed, response, keep_alive } => {
                assert_eq!(response, responses::RESPONSE_READY.as_bytes());
                assert!(keep_alive);
                offset += consumed;
            }
            other => panic!("unexpected step: {:?}", other),
        }
    }
    assert_eq!(offset, buf.len());
}

#[test]
fn pipeline_returns_two_responses_from_one_buffer() {
    let body = b"{}";
    let req1 = format!(
        "POST /fraud-score HTTP/1.1\r\nHost: localhost\r\nContent-Length: {}\r\n\r\n",
        body.len()
    );
    let mut buf = Vec::new();
    buf.extend_from_slice(req1.as_bytes());
    buf.extend_from_slice(body);
    buf.extend_from_slice(b"GET /ready HTTP/1.1\r\nHost: localhost\r\n\r\n");

    let mut responses_vec = Vec::new();
    let mut offset = 0usize;
    while offset < buf.len() {
        match process_one_request(&buf[offset..], false, |req| {
            if req.path == b"/ready" {
                responses::RESPONSE_READY.as_bytes()
            } else {
                responses::RESPONSE_FRAUD_0.as_bytes()
            }
        }) {
            BufferStep::Respond { consumed, response, .. } => {
                responses_vec.push(response);
                offset += consumed;
            }
            other => panic!("unexpected step: {:?}", other),
        }
    }
    assert_eq!(responses_vec.len(), 2);
    assert_eq!(responses_vec[0], responses::RESPONSE_FRAUD_0.as_bytes());
    assert_eq!(responses_vec[1], responses::RESPONSE_READY.as_bytes());
}

#[test]
fn connection_close_ends_keep_alive_unless_it_is_assumed() {
    let request = b"GET /ready HTTP/1.1\r\nConnection: close\r\n\r\n";
    let (parsed, _) = parse_request(request, false).unwrap();
    assert!(!parsed.keep_alive);
    let (parsed, _) = parse_request(request, true).unwrap();
    assert!(parsed.keep_alive);
}

#[test]
fn unfinished_requests_wait_for_more() {
    assert!(parse_request(b"GET /ready HTTP/1.1\r\nHost", false).is_none());
    assert!(matches!(
        parse_request_result(
            b"POST /fraud-score HTTP/1.1\r\nContent-Length: 5\r\n\r\n{}",
            false
        ),
        ParseResult::NeedMore
    ));
    let step = process_one_request(b"", false, |_| responses::RESPONSE_READY.as_bytes());
    assert_eq!(step, BufferStep::NeedMore);
}

#[test]
fn wrong_methods_are_rejected_and_close() {
    let step = process_one_request(b"PUT /ready HTTP/1.1\r\n\r\n", false, |_| {
        responses::RESPONSE_READY.as_bytes()
    });
    assert!(matches!(step, BufferStep::RejectAndClose { .. }));
}

#[test]
fn bodies_up_to_the_buffer_are_taken() {
    let body_len = BUF_SIZE - 58;
    let mut request = format!(
        "POST /fraud-score HTTP/1.1\r\nContent-Length: {}\r\n\r\n",
        body_len
    )
    .into_bytes();
    let head = request.len();
    request.resize(head + body_len, b'x');
    let (parsed, consumed) = parse_request(&request, false).unwrap();
    assert_eq!(parsed.body.len(), body_len);
    assert_eq!(consumed, request.len());
}

#[test]
fn each_count_has_its_response() {
    for count in 0..6 {
        let response = responses::fraud_response(count);
        assert_eq!(response, responses::FRAUD_RESPONSES[count].as_bytes());
        let text = std::str::from_utf8(response).unwrap();
        let (head, body) = text.split_once("\r\n\r\n").unwrap();
        assert!(head.ends_with(&format!("Content-Length: {}", body.len())));
        assert_eq!(body.contains("\"approved\":true"), count < 3);
        assert!(body.contains(&format!("\"fraud_score\":{:.1}", count as f64 / 5.0)));
    }
    assert_eq!(
        responses::fraud_response(200),
        responses::RESPONSE_FRAUD_5.as_bytes()
    );
}
