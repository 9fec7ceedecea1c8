//! Tests of the router and the per-connection pipeline over the in-memory
//! file store.

use minihttp::handler::handle_bytes;
use minihttp::router::FileStore;

fn b(s: &str) -> Vec<u8> {
    s.as_bytes().to_vec()
}

#[test]
fn root_is_empty_ok() {
    let mut store = FileStore::new();
    let out = handle_bytes(&b("GET / HTTP/1.1\r\n\r\n"), &mut store).unwrap();
    assert_eq!(out, b("HTTP/1.1 200 OK\r\n\r\n"));
}

#[test]
fn echo_returns_payload_verbatim() {
    let mut store = FileStore::new();
    let out = handle_bytes(&b("GET /echo/abc HTTP/1.1\r\n\r\n"), &mut store).unwrap();
    assert_eq!(
        out,
        b("HTTP/1.1 200 OK\r\nContent-Type: text/plain\r\nContent-Length: 3\r\n\r\nabc")
    );
}

#[test]
fn echo_keeps_percent_encoding_verbatim() {
    let mut store = FileStore::new();
    let out = handle_bytes(&b("GET /echo/a%20b HTTP/1.1\r\n\r\n"), &mut store).unwrap();
    assert!(out.ends_with(b"Content-Length: 5\r\n\r\na%20b"));
}

#[test]
fn echo_empty_segment() {
    let mut store = FileStore::new();
    let out = handle_bytes(&b("GET /echo/ HTTP/1.1\r\n\r\n"), &mut store).unwrap();
    assert_eq!(
        out,
        b("HTTP/1.1 200 OK\r\nContent-Type: text/plain\r\nContent-Length: 0\r\n\r\n")
    );
}

#[test]
fn user_agent_is_reflected() {
    let mut store = FileStore::new();
    let out = handle_bytes(
        &b("GET /user-agent HTTP/1.1\r\nUser-Agent: foobar/1.2.3\r\n\r\n"),
        &mut store,
    )
    .unwrap();
    assert_eq!(
        out,
        b("HTTP/1.1 200 OK\r\nContent-Type: text/plain\r\nContent-Length: 12\r\n\r\nfoobar/1.2.3")
    );
}

#[test]
fn user_agent_missing_is_answered_not_crashed() {
    let mut store = FileStore::new();
    let out = handle_bytes(&b("GET /user-agent HTTP/1.1\r\nHost: h\r\n\r\n"), &mut store);
    assert_eq!(out.unwrap(), b("HTTP/1.1 404 Not Found\r\n\r\n"));
}

#[test]
fn files_get_absent_is_404() {
    let mut store = FileStore::new();
    let out = handle_bytes(&b("GET /files/missing HTTP/1.1\r\n\r\n"), &mut store).unwrap();
    assert_eq!(out, b("HTTP/1.1 404 Not Found\r\n\r\n"));
}

#[test]
fn files_get_present_serves_stored_bytes() {
    let mut store = FileStore::new();
    store.write(b("f.txt"), b("stored bytes"));
    let out = handle_bytes(&b("GET /files/f.txt HTTP/1.1\r\n\r\n"), &mut store).unwrap();
    assert_eq!(
        out,
        b("HTTP/1.1 200 OK\r\nContent-Type: application/octet-stream\r\nContent-Length: 12\r\n\r\nstored bytes")
    );
}

#[test]
fn files_post_then_get_round_trips() {
    let mut store = FileStore::new();
    let out = handle_bytes(
        &b("POST /files/data HTTP/1.1\r\nContent-Length: 7\r\n\r\npayload"),
        &mut store,
    )
    .unwrap();
    assert_eq!(out, b("HTTP/1.1 201 Created\r\n\r\n"));
    let out = handle_bytes(&b("GET /files/data HTTP/1.1\r\n\r\n"), &mut store).unwrap();
    assert_eq!(
        out,
        b("HTTP/1.1 200 OK\r\nContent-Type: application/octet-stream\r\nContent-Length: 7\r\n\r\npayload")
    );
}

#[test]
fn files_post_overwrites() {
    let mut store = FileStore::new();
    store.write(b("x"), b("old"));
    handle_bytes(
        &b("POST /files/x HTTP/1.1\r\nContent-Length: 3\r\n\r\nnew"),
        &mut store,
    )
    .unwrap();
    assert_eq!(store.read(&b("x")).unwrap(), b("new"));
    assert_eq!(store.entries.len(), 1);
}

#[test]
fn unknown_path_is_404() {
    let mut store = FileStore::new();
    let out = handle_bytes(&b("GET /nothing HTTP/1.1\r\n\r\n"), &mut store).unwrap();
    assert_eq!(out, b("HTTP/1.1 404 Not Found\r\n\r\n"));
}

#[test]
fn parse_failure_drops_connection_without_reply() {
    let mut store = FileStore::new();
    store.write(b("keep"), b("me"));
    let out = handle_bytes(&b("NOPE\r\n\r\n"), &mut store);
    assert!(out.is_none());
    assert_eq!(store.read(&b("keep")).unwrap(), b("me"));
}

#[test]
fn store_contains_and_read() {
    let mut store = FileStore::new();
    assert!(!store.contains(&b("a")));
    assert_eq!(store.read(&b("a")), None);
    store.write(b("a"), b("1"));
    assert!(store.contains(&b("a")));
    assert_eq!(store.read(&b("a")).unwrap(), b("1"));
}

#[test]
fn independent_exchanges_do_not_cross_talk() {
    // two interleaved stores and payloads: each exchange answers its own input
    let mut s1 = FileStore::new();
    let mut s2 = FileStore::new();
    let o1 = handle_bytes(&b("GET /echo/first HTTP/1.1\r\n\r\n"), &mut s1).unwrap();
    let o2 = handle_bytes(&b("GET /echo/second HTTP/1.1\r\n\r\n"), &mut s2).unwrap();
    assert!(o1.ends_with(b"first"));
    assert!(o2.ends_with(b"second"));
}
