use goose_http::client::request_message;
use goose_http::request::RequestType;
use goose_http::date::date_from_str;
use goose_http::uri::UriError;
use goose_http::request::HTTPHeader;
use goose_http::client::{body_plan, body_problem, BodyPlan, HeadPhase, HeadStep, ResponseHead};
use goose_http::server::{
    check_preconditions, decide_preconditions, error_message, file_head, index_message, index_page, ok_head,
    route_path, route_request, DirEntry, EntryKind, Precondition, Route,
};

fn padded(s: &str) -> Vec<u8> {
    let mut b = s.as_bytes().to_vec();
    b.resize(2048, 0);
    b
}

fn reply(r: Route) -> (&'static str, &'static str) {
    match r {
        Route::Reply(c, m) => (c, m),
        other => panic!("expected a reply, got {:?}", other),
    }
}

fn served(r: Route) -> String {
    match r {
        Route::Serve(_, p) => p,
        other => panic!("expected a file, got {:?}", other),
    }
}

#[test]
fn routes_of_good_requests() {
    assert_eq!(served(route_request(&padded("GET /index.html HTTP/1.1\r\nHost: h\r\n\r\n"))), "index.html");
    assert_eq!(served(route_request(&padded("HEAD /a%20b.txt HTTP/1.0\r\n\r\n"))), "a b.txt");
    assert_eq!(served(route_request(&padded("GET http://h/x/y HTTP/2.0\r\n\r\n"))), "x/y");
    assert_eq!(served(route_request(&padded("GET / HTTP/0.9\r\n\r\n"))), "");
}

#[test]
fn routes_of_refused_requests() {
    assert_eq!(reply(route_request(&padded("POST / HTTP/1.1\r\nHost: h\r\n\r\n"))),
        ("501 Not Implemented", "The server does not support the method"));
    assert_eq!(reply(route_request(&padded("BREW / HTTP/1.1\r\nHost: h\r\n\r\n"))),
        ("501 Not Implemented", "The server does not support the method"));
    assert_eq!(reply(route_request(&padded("GET / HTTP/1.1\r\n\r\n"))), ("400 Bad Request", "Missing host header"));
    assert_eq!(reply(route_request(&padded("GET /\r\n\r\n"))), ("400 Bad Request", "Could not find method"));
    assert_eq!(reply(route_request(&padded("GET / HTTP/1.1\r\nHost h\r\n\r\n"))), ("400 Bad Request", "Invalid header format"));
    assert_eq!(reply(route_request(&[0xff; 10])), ("400 Bad Request", "Missing line ending"));
    assert_eq!(reply(route_request(&padded("GET / HTTP/1.1\r\nHost: h\r\nIf-Modified-Since: never\r\n\r\n"))),
        ("400 Bad Request", "Unable to parse date"));
}

#[test]
fn routes_that_give_up() {
    assert!(matches!(route_request(&padded("GET \u{e9}x HTTP/1.1\r\nHost: h\r\n\r\n")), Route::Abort));
    assert!(matches!(route_request(&padded("GET http://h HTTP/2.0\r\n\r\n")), Route::Abort));
}

#[test]
fn date_conditions() {
    let mut h = HTTPHeader::new();
    assert_eq!(check_preconditions(&h, 1000, 0, 5), Precondition::Proceed);
    h.if_modified_since = Some(date_from_str("Sun, 06 Nov 1994 08:49:37 GMT").unwrap());
    // The file changed 10 s before now; the client saw it 5 s before now.
    assert_eq!(check_preconditions(&h, 784_111_782, 0, 10_000_000_000), Precondition::NotModified);
    assert_eq!(check_preconditions(&h, 784_111_782, 0, 1_000_000_000), Precondition::Proceed);
    assert_eq!(check_preconditions(&h, 784_111_700, 0, 1), Precondition::Abort);
    let mut u = HTTPHeader::new();
    u.if_unmodified_since = Some(date_from_str("Sun, 06 Nov 1994 08:49:37 GMT").unwrap());
    assert_eq!(check_preconditions(&u, 784_111_782, 0, 1_000_000_000), Precondition::Failed);
}

#[test]
fn error_page_text() {
    let m = error_message("404 Not Found", "No such file on the server", "Thu, 1 Jan 1970 00:00:00 GMT");
    let body = "<html>\r\n<body>\r\n<h2>Error 404 Not Found</h2>\r\nNo such file on the server\r\n<html>\r\n<body>\r\n";
    let expected = format!("HTTP/1.1 404 Not Found\r\nContent-type: text-html\r\nConnection: close\r\nDate: Thu, 1 Jan 1970 00:00:00 GMT\r\nContent-Length: {}\r\n\r\n{}", body.len(), body);
    assert_eq!(m, expected);
    let n = error_message("400 Bad Request", "d\u{e9}j\u{e0}", "D");
    assert!(n.contains("Content-Length: 72\r\n"));
}

#[test]
fn success_heads() {
    assert_eq!(ok_head("text/plain", "D", 12),
        "HTTP/1.1 200 OK\r\nContent-type: text/plain\r\nConnection: close\r\nDate: D\r\nContent-Length: 12\r\n\r\n");
    assert!(file_head("/srv/www/index.html", "D", 3).starts_with("HTTP/1.1 200 OK\r\nContent-type: text/html\r\n"));
    assert!(file_head("/srv/www/blob", "D", 3).contains("Content-type: application/octet-stream\r\n"));
}

#[test]
fn directory_index() {
    let entries = vec![
        DirEntry { name: "docs".to_string(), kind: EntryKind::Dir },
        DirEntry { name: "a.txt".to_string(), kind: EntryKind::File },
        DirEntry { name: "link".to_string(), kind: EntryKind::Other },
    ];
    let page = index_page("www", &entries);
    assert_eq!(page, "<html><body><h2>Index of www/</h2><ul><li><a href=\"docs/\">docs/</a></li><li><a href=\"a.txt\">a.txt</a></li></ul></body></html>");
    let msg = index_message("www", &entries, "D");
    assert_eq!(msg, format!("HTTP/1.1 200 OK\r\nContent-type: text-html\r\nConnection: close\r\nDate: D\r\nContent-Length: {}\r\n\r\n{}", page.len(), page));
}

#[test]
fn client_request_is_read_by_server() {
    let msg = request_message("example.com", "/docs/a%20b.html");
    let mut h = HTTPHeader::new();
    assert_eq!(h.parse_req(msg.as_bytes()), Ok(()));
    assert_eq!(h.req_type, Some(RequestType::GET));
    assert_eq!(h.file_path.as_deref(), Some("/docs/a%20b.html"));
    assert_eq!(h.protocol.as_deref(), Some("HTTP"));
    assert_eq!(h.protocol_ver.as_deref(), Some("1.1"));
    assert_eq!(h.host.as_deref(), Some("example.com"));
    assert_eq!(h.connection.as_deref(), Some("close"));
    assert!(h.if_modified_since.is_none() && h.if_unmodified_since.is_none());
    assert_eq!(served(route_request(msg.as_bytes())), "docs/a b.html");
}

#[test]
fn unmodified_since_is_never_stored() {
    let req = padded("GET / HTTP/1.1\r\nHost: h\r\nIf-Unmodified-Since: Sun, 06 Nov 1994 08:49:37 GMT\r\n\r\n");
    match route_request(&req) {
        Route::Serve(h, _) => assert!(h.if_unmodified_since.is_none()),
        other => panic!("expected a file, got {:?}", other),
    }
}

#[test]
fn client_reads_the_length_the_server_sends() {
    let head = ok_head("text/html", "Sun, 06 Nov 1994 08:49:37 GMT", 1234);
    for skip_continue in [false, true] {
        let mut reader = ResponseHead::new(skip_continue);
        let mut steps = Vec::new();
        for line in head.split_inclusive('\n') {
            assert_eq!(reader.line_problem(line), None);
            steps.push(reader.feed(line));
        }
        assert_eq!(steps.len(), 6);
        assert_eq!(steps.last(), Some(&HeadStep::Complete));
        assert_eq!(reader.phase, HeadPhase::Done);
        for strict in [false, true] {
            assert_eq!(body_problem(&reader.headers, strict), None);
            assert_eq!(body_plan(&reader.headers, strict), BodyPlan::Length(1234));
        }
    }
}

#[test]
fn absolute_path_parts_route() {
    assert_eq!(served(route_path(HTTPHeader::new(), Ok(Some("/a/b c")))), "a/b c");
    assert_eq!(
        reply(route_path(HTTPHeader::new(), Ok(None))),
        ("400 Bad Request", "Malformed absolute path")
    );
    assert!(matches!(route_path(HTTPHeader::new(), Ok(Some(""))), Route::Abort));
    assert!(matches!(route_path(HTTPHeader::new(), Ok(Some("\u{e9}a"))), Route::Abort));
    assert!(matches!(route_path(HTTPHeader::new(), Err(UriError::NoMatch)), Route::Abort));
}

#[test]
fn date_conditions_from_elapsed_times() {
    assert_eq!(decide_preconditions(None, None, 7), Precondition::Proceed);
    assert_eq!(decide_preconditions(Some(Some(5)), None, 7), Precondition::NotModified);
    assert_eq!(decide_preconditions(Some(Some(7)), None, 7), Precondition::Proceed);
    assert_eq!(decide_preconditions(Some(None), Some(Some(100)), 7), Precondition::Abort);
    assert_eq!(decide_preconditions(None, Some(Some(8)), 7), Precondition::Failed);
    assert_eq!(decide_preconditions(None, Some(Some(7)), 7), Precondition::Proceed);
    assert_eq!(decide_preconditions(None, Some(None), 7), Precondition::Abort);
    assert_eq!(decide_preconditions(Some(Some(9)), Some(Some(9)), 7), Precondition::Failed);
}
