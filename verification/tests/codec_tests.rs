//! Tests of the wire codec: decoding request bytes and encoding responses.

use minihttp::bytes::{parse_dec, usize_to_dec};
use minihttp::codec::parse_request;
use minihttp::http::{Method, ParseErrorKind, Response, StatusCode};

fn b(s: &str) -> Vec<u8> {
    s.as_bytes().to_vec()
}

#[test]
fn parse_simple_get() {
    let req = parse_request(&b("GET / HTTP/1.1\r\nHost: example\r\n\r\n")).unwrap();
    assert_eq!(req.method, Method::Get);
    assert_eq!(req.path, b("/"));
    assert_eq!(req.headers.len(), 1);
    assert_eq!(req.headers[0].0, b("Host"));
    assert_eq!(req.headers[0].1, b("example"));
    assert_eq!(req.body, Vec::<u8>::new());
}

#[test]
fn parse_post_with_body() {
    let req = parse_request(&b(
        "POST /files/a HTTP/1.1\r\nContent-Length: 5\r\n\r\nhello",
    ))
    .unwrap();
    assert_eq!(req.method, Method::Post);
    assert_eq!(req.path, b("/files/a"));
    assert_eq!(req.body, b("hello"));
}

#[test]
fn parse_body_beyond_content_length_is_ignored() {
    let req = parse_request(&b(
        "POST /files/a HTTP/1.1\r\nContent-Length: 2\r\n\r\nhello",
    ))
    .unwrap();
    assert_eq!(req.body, b("he"));
}

#[test]
fn parse_truncated_body_names_expected_length() {
    let r = parse_request(&b("POST /x HTTP/1.1\r\nContent-Length: 10\r\n\r\nabc"));
    assert_eq!(r.unwrap_err().kind, ParseErrorKind::TruncatedBody(10));
}

#[test]
fn parse_invalid_content_length() {
    let r = parse_request(&b("GET / HTTP/1.1\r\nContent-Length: abc\r\n\r\n"));
    assert_eq!(r.unwrap_err().kind, ParseErrorKind::InvalidContentLength);
    let r = parse_request(&b("GET / HTTP/1.1\r\nContent-Length: \r\n\r\n"));
    assert_eq!(r.unwrap_err().kind, ParseErrorKind::InvalidContentLength);
    let r = parse_request(&b(
        "GET / HTTP/1.1\r\nContent-Length: 99999999999999999999999999\r\n\r\n",
    ));
    assert_eq!(r.unwrap_err().kind, ParseErrorKind::InvalidContentLength);
}

#[test]
fn parse_malformed_start_line() {
    let r = parse_request(&b("GET /\r\n\r\n"));
    assert_eq!(r.unwrap_err().kind, ParseErrorKind::MalformedStartLine);
    let r = parse_request(&b("GET / HTTP/1.1 extra\r\n\r\n"));
    assert_eq!(r.unwrap_err().kind, ParseErrorKind::MalformedStartLine);
}

#[test]
fn parse_unsupported_method() {
    let r = parse_request(&b("PUT / HTTP/1.1\r\n\r\n"));
    assert_eq!(r.unwrap_err().kind, ParseErrorKind::UnsupportedMethod);
    // case-sensitive: lower case is not a method
    let r = parse_request(&b("get / HTTP/1.1\r\n\r\n"));
    assert_eq!(r.unwrap_err().kind, ParseErrorKind::UnsupportedMethod);
}

#[test]
fn parse_empty_input() {
    let r = parse_request(&Vec::new());
    assert_eq!(r.unwrap_err().kind, ParseErrorKind::EmptyRequest);
    let r = parse_request(&b("\r\nGET / HTTP/1.1\r\n\r\n"));
    assert_eq!(r.unwrap_err().kind, ParseErrorKind::EmptyRequest);
}

#[test]
fn parse_duplicate_header_keeps_last() {
    let req = parse_request(&b("GET / HTTP/1.1\r\nX-A: one\r\nX-A: two\r\n\r\n")).unwrap();
    let v = req.get_header(&b("X-A")).unwrap();
    assert_eq!(*v, b("two"));
}

#[test]
fn parse_skips_lines_without_delimiter() {
    let req = parse_request(&b("GET / HTTP/1.1\r\nnodelimiter\r\nA: 1\r\n\r\n")).unwrap();
    assert_eq!(req.headers.len(), 1);
    assert_eq!(req.headers[0].0, b("A"));
}

#[test]
fn parse_no_content_length_ignores_trailing_bytes() {
    let req = parse_request(&b("GET / HTTP/1.1\r\nHost: h\r\n\r\ntrailing junk")).unwrap();
    assert_eq!(req.body, Vec::<u8>::new());
}

#[test]
fn parse_accepts_bare_lf_lines() {
    let req = parse_request(&b("GET /x HTTP/1.1\nHost: h\n\n")).unwrap();
    assert_eq!(req.path, b("/x"));
    assert_eq!(req.headers[0].1, b("h"));
}

#[test]
fn parse_header_value_keeps_later_colons() {
    let req = parse_request(&b("GET / HTTP/1.1\r\nHost: a: b\r\n\r\n")).unwrap();
    assert_eq!(*req.get_header(&b("Host")).unwrap(), b("a: b"));
}

#[test]
fn parse_content_length_at_usize_max_wants_that_many_bytes() {
    let input = format!(
        "POST /x HTTP/1.1\r\nContent-Length: {}\r\n\r\n",
        usize::MAX
    );
    let r = parse_request(&b(&input));
    assert_eq!(r.unwrap_err().kind, ParseErrorKind::TruncatedBody(usize::MAX));
}

#[test]
fn encode_response_exact_bytes() {
    let resp = Response::ok()
        .set_header(b("A"), b("b"))
        .set_body(b"hi");
    assert_eq!(resp.encode(), b("HTTP/1.1 200 OK\r\nA: b\r\n\r\nhi"));
}

#[test]
fn encode_empty_not_found() {
    let resp = Response::not_found();
    assert_eq!(resp.encode(), b("HTTP/1.1 404 Not Found\r\n\r\n"));
}

#[test]
fn encode_created() {
    let resp = Response::created();
    assert_eq!(resp.encode(), b("HTTP/1.1 201 Created\r\n\r\n"));
}

#[test]
fn status_texts() {
    assert_eq!(StatusCode::Ok200.text(), b("200 OK"));
    assert_eq!(StatusCode::Created201.text(), b("201 Created"));
    assert_eq!(StatusCode::NotFound404.text(), b("404 Not Found"));
}

#[test]
fn set_header_replaces_existing_name() {
    let resp = Response::ok()
        .set_header(b("A"), b("1"))
        .set_header(b("B"), b("2"))
        .set_header(b("A"), b("3"));
    assert_eq!(resp.encode(), b("HTTP/1.1 200 OK\r\nA: 3\r\nB: 2\r\n\r\n"));
}

#[test]
fn decimal_rendering_round_trip() {
    assert_eq!(usize_to_dec(0), b("0"));
    assert_eq!(usize_to_dec(1234), b("1234"));
    assert_eq!(parse_dec(&b("1234")), Some(1234));
    assert_eq!(parse_dec(&b("0")), Some(0));
    assert_eq!(parse_dec(&b("")), None);
    assert_eq!(parse_dec(&b("12x")), None);
}
