use fraud_index::http::{get_content_length, parse_http_request, write_fraud_response,
    HTTP_BAD_REQUEST, HTTP_NOT_FOUND, HTTP_READY, RESPONSE_BODIES};

#[test]
fn test_parse_http() {
    let req = b"POST /fraud-score HTTP/1.1\r\nContent-Length: 10\r\n\r\n1234567890";
    let (method, path, body_start) = parse_http_request(req).unwrap();
    assert_eq!(method, "POST");
    assert_eq!(path, "/fraud-score");
    assert_eq!(body_start, 50);
    assert_eq!(get_content_length(req), 10);
}

#[test]
fn test_pre_rendered_bodies() {
    assert_eq!(RESPONSE_BODIES[0].as_bytes(), b"{\"approved\":true,\"fraud_score\":0.0}");
    assert_eq!(RESPONSE_BODIES[5].as_bytes(), b"{\"approved\":false,\"fraud_score\":1.0}");
}

#[test]
fn incomplete_requests_have_no_head() {
    assert!(parse_http_request(b"").is_none());
    assert!(parse_http_request(b"GET /ready HTTP/1.1").is_none());
    assert!(parse_http_request(b"GET /ready HTTP/1.1\r\nHost: a\r\n").is_none());
    assert!(parse_http_request(b"GET /ready HTTP/1.1\r\n\r\n").is_none());
}

#[test]
fn request_line_needs_a_blank_and_utf8() {
    assert!(parse_http_request(b"GET\r\nHost: a\r\n\r\n").is_none());
    assert!(parse_http_request(b"G\xffT / HTTP/1.1\r\nHost: a\r\n\r\n").is_none());
    assert!(parse_http_request(b"GET /\xc3 HTTP/1.1\r\nHost: a\r\n\r\n").is_none());
    assert_eq!(
        parse_http_request("GET /\u{e9}t\u{e9} HTTP/1.1\r\nHost: a\r\n\r\n".as_bytes()),
        Some(("GET", "/\u{e9}t\u{e9}", 32)),
    );
}

#[test]
fn path_may_end_the_line() {
    assert_eq!(parse_http_request(b"GET /x\r\nA: b\r\n\r\nrest"), Some(("GET", "/x", 16)));
    assert_eq!(parse_http_request(b"GET \r\nA: b\r\n\r\n"), Some(("GET", "", 14)));
}

#[test]
fn first_content_length_counts() {
    assert_eq!(get_content_length(b"A: b\r\nContent-Length: 7\r\nContent-Length: 9\r\n"), 7);
    assert_eq!(get_content_length(b"content-length: 7\r\n"), 0);
    assert_eq!(get_content_length(b"Content-Length: x"), 0);
    assert_eq!(get_content_length(b"Content-Length: "), 0);
    assert_eq!(get_content_length(b"Content-Length: 12"), 12);
    assert_eq!(get_content_length(b""), 0);
}

#[test]
fn content_length_wraps_in_machine_arithmetic() {
    let text = format!("Content-Length: {}\r\n", usize::MAX as u128 + 6);
    assert_eq!(get_content_length(text.as_bytes()), 5);
}

#[test]
fn fraud_responses_announce_their_bodies() {
    for n in 0..6 {
        let mut out = Vec::new();
        write_fraud_response(&mut out, n);
        let body = RESPONSE_BODIES[n].as_bytes();
        assert_eq!(get_content_length(&out), body.len());
        assert!(out.ends_with(body));
    }
}

#[test]
fn fraud_response_is_rendered_behind_what_is_there() {
    let mut out = b"before".to_vec();
    write_fraud_response(&mut out, 3);
    assert_eq!(
        out,
        b"beforeHTTP/1.1 200 OK\r\nContent-Type: application/json\r\nContent-Length: 36\r\nConnection: keep-alive\r\n\r\n{\"approved\":false,\"fraud_score\":0.6}".to_vec(),
    );
}

#[test]
fn approval_ends_at_three_frauds() {
    for n in 0..6 {
        let approved = RESPONSE_BODIES[n].starts_with("{\"approved\":true,");
        assert_eq!(approved, n < 3);
        let score = format!("\"fraud_score\":{}.{}}}", 2 * n / 10, 2 * n % 10);
        assert!(RESPONSE_BODIES[n].ends_with(&score));
    }
}

#[test]
fn plain_responses_have_no_body() {
    for response in [HTTP_READY, HTTP_NOT_FOUND, HTTP_BAD_REQUEST] {
        assert_eq!(get_content_length(response.as_bytes()), 0);
        assert!(response.ends_with("\r\n\r\n"));
    }
}
