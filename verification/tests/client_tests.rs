use goose_http::client::{
    body_plan, body_problem, chunk_data, chunk_size, chunk_size_problem, next_step, request_message, server_address, status_code,
    split_header_line, BodyError, BodyPlan, HeadError, HeadPhase, HeadStep, NextStep,
    ResponseHead, StatusError,
};
use goose_http::headers::HeaderMap;
use goose_http::text::decimal_u64;

#[test]
fn request_text_is_exact() {
    assert_eq!(
        request_message("example.com", "/index.html"),
        "GET /index.html HTTP/1.1\r\nHost: example.com\r\nConnection: close\r\nUser-Agent: SillyGoose/0.1\r\n\r\n"
    );
    assert_eq!(server_address("example.com"), "example.com:80");
}

fn feed(head: &mut ResponseHead, line: &str) -> Result<HeadStep, HeadError> {
    match head.line_problem(line) {
        Some(e) => Err(e),
        None => Ok(head.feed(line)),
    }
}

fn feed_all(head: &mut ResponseHead, lines: &[&str]) -> Vec<Result<HeadStep, HeadError>> {
    lines.iter().map(|l| feed(head, l)).collect()
}

fn plan(headers: &HeaderMap, strict: bool) -> Result<BodyPlan, BodyError> {
    match body_problem(headers, strict) {
        Some(e) => Err(e),
        None => Ok(body_plan(headers, strict)),
    }
}

fn size(line: &str) -> Result<Option<u64>, BodyError> {
    match chunk_size_problem(line) {
        Some(e) => Err(e),
        None => Ok(chunk_size(line)),
    }
}

#[test]
fn head_reads_status_and_fields() {
    let mut head = ResponseHead::new(false);
    let r = feed_all(&mut head, &["HTTP/1.1 200 OK\r\n", "Content-Length: 5\r\n", "X-A :  b:c \r\n", "\r\n"]);
    assert_eq!(r, vec![Ok(HeadStep::NeedLine), Ok(HeadStep::NeedLine), Ok(HeadStep::NeedLine), Ok(HeadStep::Complete)]);
    assert_eq!(head.init_line, "HTTP/1.1 200 OK\r\n");
    assert_eq!(head.phase, HeadPhase::Done);
    assert_eq!(head.headers.get("Content-Length").map(|s| s.as_str()), Some("5"));
    assert_eq!(head.headers.get("X-A").map(|s| s.as_str()), Some("b:c"));
}

#[test]
fn head_line_without_colon_is_refused() {
    let mut head = ResponseHead::new(false);
    assert_eq!(feed(&mut head, "HTTP/1.1 200 OK\r\n"), Ok(HeadStep::NeedLine));
    assert_eq!(feed(&mut head, "garbage\r\n"), Err(HeadError::MalformedHeader));
    assert_eq!(feed(&mut head, ""), Err(HeadError::MalformedHeader));
}

#[test]
fn continue_status_is_skipped() {
    let mut head = ResponseHead::new(true);
    assert_eq!(feed(&mut head, "HTTP/1.1 100 Continue\r\n"), Ok(HeadStep::NeedLine));
    assert_eq!(head.phase, HeadPhase::ContinueStatus);
    assert_eq!(feed(&mut head, "\r\n"), Ok(HeadStep::NeedLine));
    assert_eq!(head.init_line, "\r\n");
    assert_eq!(feed(&mut head, "HTTP/1.1 200 OK\r\n"), Ok(HeadStep::NeedLine));
    assert_eq!(head.phase, HeadPhase::Fields);
    assert_eq!(feed(&mut head, "A: 1\r\n"), Ok(HeadStep::NeedLine));
    assert_eq!(feed(&mut head, "\r\n"), Ok(HeadStep::Complete));
    assert_eq!(head.headers.get("A").map(|s| s.as_str()), Some("1"));
}

#[test]
fn status_line_needs_a_code_when_continue_is_checked() {
    let mut head = ResponseHead::new(true);
    assert_eq!(feed(&mut head, "HTTP/1.1\r\n"), Err(HeadError::NoStatusCode));
    assert_eq!(head.phase, HeadPhase::Status);
    let mut plain = ResponseHead::new(false);
    assert_eq!(feed(&mut plain, "HTTP/1.1\r\n"), Ok(HeadStep::NeedLine));
}

#[test]
fn header_line_split() {
    assert_eq!(split_header_line("Host: a:80\r\n"), Some(("Host".to_string(), "a:80".to_string())));
    assert_eq!(split_header_line("no colon"), None);
    assert_eq!(status_code("HTTP/1.1 404 Not Found"), Some("404".to_string()));
    assert_eq!(status_code("HTTP/1.1"), None);
}

fn map(pairs: &[(&str, &str)]) -> HeaderMap {
    let mut m = HeaderMap::new();
    for (k, v) in pairs {
        m.insert(k.to_string(), v.to_string());
    }
    m
}

#[test]
fn body_plans() {
    assert_eq!(plan(&map(&[("Transfer-Encoding", "chunked")]), true), Ok(BodyPlan::Chunked));
    assert_eq!(plan(&map(&[("Transfer-Encoding", "gzip")]), true), Err(BodyError::UnsupportedEncoding));
    assert_eq!(plan(&map(&[("Transfer-Encoding", "gzip")]), false), Ok(BodyPlan::Skip));
    assert_eq!(plan(&map(&[("Content-Length", "42")]), true), Ok(BodyPlan::Length(42)));
    assert_eq!(plan(&map(&[("Content-Length", "4x")]), true), Err(BodyError::BadLength));
    assert_eq!(plan(&map(&[]), false), Err(BodyError::MissingLength));
}

#[test]
fn length_written_is_length_read() {
    for n in [0u64, 7, 2048, 1 << 40] {
        let line = format!("Content-Length: {}\r\n", decimal_u64(n));
        let (k, v) = split_header_line(&line).unwrap();
        let m = map(&[(&k, &v)]);
        assert_eq!(plan(&m, true), Ok(BodyPlan::Length(n)));
    }
}

#[test]
fn chunk_sizes() {
    assert_eq!(size("0\r\n"), Ok(None));
    assert_eq!(size("1a\r\n"), Ok(Some(26)));
    assert_eq!(size("00\r\n"), Ok(Some(0)));
    assert_eq!(size("zz\r\n"), Err(BodyError::BadChunkSize));
    assert_eq!(size("ffffffffffffffff\r\n"), Err(BodyError::ChunkTooLarge));
    assert_eq!(size("fffffffffffffffd"), Ok(Some(u64::MAX - 2)));
    assert_eq!(chunk_data(b"hello\r\n"), b"hello".to_vec());
    assert_eq!(chunk_data(b"\r\n"), Vec::<u8>::new());
}

#[test]
fn redirects_and_statuses() {
    let loc = map(&[("Location", "http://other/")]);
    assert_eq!(next_step("HTTP/1.1 200 OK", &loc), Ok(NextStep::WriteBody));
    assert_eq!(next_step("HTTP/1.1 301 Moved", &loc), Ok(NextStep::Redirect("http://other/".to_string())));
    assert_eq!(next_step("HTTP/1.1 303 See Other", &map(&[])), Ok(NextStep::Retry));
    assert_eq!(next_step("HTTP/1.1 404 Not Found", &loc), Err(StatusError::Unexpected("404".to_string())));
    assert_eq!(next_step("HTTP/1.1", &loc), Err(StatusError::NoStatusCode));
}

fn decode(body: &[u8]) -> Option<Vec<u8>> {
    let mut out = Vec::new();
    let mut pos = 0;
    loop {
        let end = body[pos..].iter().position(|&b| b == b'\n').map(|i| pos + i + 1).unwrap_or(body.len());
        let line = std::str::from_utf8(&body[pos..end]).ok()?;
        if chunk_size_problem(line).is_some() {
            return None;
        }
        pos = end;
        match chunk_size(line) {
            None => return Some(out),
            Some(n) => {
                let n = n as usize;
                if body.len() - pos < n + 2 {
                    return None;
                }
                out.extend(chunk_data(&body[pos..pos + n + 2]));
                pos += n + 2;
            }
        }
    }
}

#[test]
fn chunked_decoding_undoes_encoding() {
    assert_eq!(decode(b"4\r\nWiki\r\n5\r\npedia\r\n0\r\n\r\n"), Some(b"Wikipedia".to_vec()));
    assert_eq!(decode(b"A\r\n0123456789\r\n1\r\n!\r\n0\r\ntrailer"), Some(b"0123456789!".to_vec()));
    assert_eq!(decode(b"0\r\n"), Some(Vec::new()));
    assert_eq!(decode(b"00B\r\nhello world\r\n0\r\n"), Some(b"hello world".to_vec()));
    assert_eq!(decode(b"zz\r\nab\r\n0\r\n"), None);
    assert_eq!(decode(b"5\r\nab"), None);
}

#[test]
fn head_with_continue_check_keeps_real_status() {
    let mut head = ResponseHead::new(true);
    let r = feed_all(&mut head, &["HTTP/1.1 404 Not Found\r\n", "A: 1\r\n", "A: 2\r\n", "\r\n"]);
    assert_eq!(r, vec![Ok(HeadStep::NeedLine), Ok(HeadStep::NeedLine), Ok(HeadStep::NeedLine), Ok(HeadStep::Complete)]);
    assert_eq!(head.init_line, "HTTP/1.1 404 Not Found\r\n");
    assert_eq!(head.headers.get("A").map(|s| s.as_str()), Some("2"));
}
