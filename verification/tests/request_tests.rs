use goose_http::request::{read_line, reqtype_from_str, HTTPHeader, RequestType};

fn padded(s: &str) -> Vec<u8> {
    let mut b = s.as_bytes().to_vec();
    b.resize(2048, 0);
    b
}

#[test]
fn methods() {
    assert_eq!(reqtype_from_str("GET"), RequestType::GET);
    assert_eq!(reqtype_from_str("HEAD"), RequestType::HEAD);
    assert_eq!(reqtype_from_str("DELETE"), RequestType::DELETE);
    assert_eq!(reqtype_from_str("get"), RequestType::UNKNOWN);
}

#[test]
fn lines_end_at_crlf() {
    assert_eq!(read_line(b"ab\r\ncd"), Ok("ab\r\n"));
    assert_eq!(read_line(b"abc"), Err(Some("abc")));
    assert_eq!(read_line(&[0xff, b'\r', b'\n']), Err(None));
}

#[test]
fn init_line() {
    let mut h = HTTPHeader::new();
    assert_eq!(h.insert_init_line("GET /a.html HTTP/1.0"), Ok("OK"));
    assert_eq!(h.req_type, Some(RequestType::GET));
    assert_eq!(h.file_path.as_deref(), Some("/a.html"));
    assert_eq!(h.protocol.as_deref(), Some("HTTP"));
    assert_eq!(h.protocol_ver.as_deref(), Some("1.0"));
    let mut g = HTTPHeader::new();
    assert_eq!(g.insert_init_line("GET /a.html"), Err("Invalid init line"));
    assert_eq!(g.req_type, None);
    assert_eq!(g.insert_init_line("PUT /x HTTP"), Err("Invalid header format"));
    assert_eq!(g.req_type, Some(RequestType::PUT));
    assert_eq!(g.protocol, None);
}

#[test]
fn header_tags() {
    let mut h = HTTPHeader::new();
    assert_eq!(h.insert_tag("Host: localhost:8000"), Ok("OK"));
    assert_eq!(h.host.as_deref(), Some("localhost:8000"));
    assert_eq!(h.insert_tag("Accept: */*"), Ok("Unknown header"));
    assert_eq!(h.insert_tag("no colon here"), Err("Invalid header format"));
    assert_eq!(h.insert_tag("If-Modified-Since: garbage"), Err("Unable to parse date"));
    assert_eq!(h.insert_tag("If-Modified-Since: Sun, 06 Nov 1994 08:49:37 GMT"), Ok("OK"));
    assert!(h.if_modified_since.is_some());
    assert_eq!(h.insert_tag("If-Unmodified-Since: Sun, 06 Nov 1994 08:49:37 GMT"), Ok("Unknown header"));
    assert!(h.if_unmodified_since.is_none());
}

#[test]
fn whole_request() {
    let mut h = HTTPHeader::new();
    let req = padded("GET /index.html HTTP/1.1\r\nHost: localhost\r\nConnection: keep-alive\r\n\r\n");
    assert_eq!(h.parse_req(&req), Ok(()));
    assert_eq!(h.file_path.as_deref(), Some("/index.html"));
    assert_eq!(h.host.as_deref(), Some("localhost"));
    assert_eq!(h.connection.as_deref(), Some("keep-alive"));
}

#[test]
fn request_errors() {
    let mut h = HTTPHeader::new();
    assert_eq!(h.parse_req(&padded("GET / HTTP/1.1\r\nHost: x\r\n")), Err("Missing line ending"));
    let mut g = HTTPHeader::new();
    assert_eq!(g.parse_req(&padded("GET / HTTP/1.1\r\nbad\r\n\r\n")), Err("Invalid header format"));
    let mut k = HTTPHeader::new();
    assert_eq!(k.parse_req(&[0xc3]), Err("Missing line ending"));
    let mut j = HTTPHeader::new();
    assert_eq!(j.parse_req(&padded("nonsense\r\n\r\n")), Ok(()));
    assert_eq!(j.req_type, None);
}

fn fields(h: &HTTPHeader) -> String {
    format!(
        "{:?} {:?} {:?} {:?} {:?} {:?} {:?} {:?}",
        h.protocol, h.protocol_ver, h.file_path, h.req_type, h.connection, h.host,
        h.if_modified_since, h.if_unmodified_since
    )
}

#[test]
fn reading_a_request_is_reading_its_lines() {
    let req = "GET /x HTTP/1.1\r\nHost: h\r\nIf-Modified-Since: Sun, 06 Nov 1994 08:49:37 GMT\r\nX: y\r\n\r\nbody: ignored\r\n";
    let mut whole = HTTPHeader::new();
    assert_eq!(whole.parse_req(&padded(req)), Ok(()));
    let mut by_lines = HTTPHeader::new();
    let _ = by_lines.insert_init_line("GET /x HTTP/1.1");
    assert_eq!(by_lines.insert_tag("Host: h"), Ok("OK"));
    assert_eq!(by_lines.insert_tag("If-Modified-Since: Sun, 06 Nov 1994 08:49:37 GMT"), Ok("OK"));
    assert_eq!(by_lines.insert_tag("X: y"), Ok("Unknown header"));
    assert_eq!(fields(&whole), fields(&by_lines));

    let bad = "GET /x HTTP/1.1\r\nHost: h\r\nIf-Modified-Since: never\r\nConnection: close\r\n\r\n";
    let mut whole = HTTPHeader::new();
    assert_eq!(whole.parse_req(&padded(bad)), Err("Unable to parse date"));
    let mut by_lines = HTTPHeader::new();
    let _ = by_lines.insert_init_line("GET /x HTTP/1.1");
    assert_eq!(by_lines.insert_tag("Host: h"), Ok("OK"));
    assert_eq!(by_lines.insert_tag("If-Modified-Since: never"), Err("Unable to parse date"));
    assert_eq!(fields(&whole), fields(&by_lines));
}

#[test]
fn protocol_splits_at_its_first_slash() {
    let mut h = HTTPHeader::new();
    assert_eq!(h.insert_init_line("  GET\t/a   HTTP/1.1/x more words"), Ok("OK"));
    assert_eq!(h.req_type, Some(RequestType::GET));
    assert_eq!(h.file_path.as_deref(), Some("/a"));
    assert_eq!(h.protocol.as_deref(), Some("HTTP"));
    assert_eq!(h.protocol_ver.as_deref(), Some("1.1/x"));
    let mut g = HTTPHeader::new();
    assert_eq!(g.insert_init_line("HEAD / /9"), Ok("OK"));
    assert_eq!(g.protocol.as_deref(), Some(""));
    assert_eq!(g.protocol_ver.as_deref(), Some("9"));
}
