//! The server's decisions: what a request asks for, whether its date
//! conditions let the file go out, and the text of every response.
use vstd::prelude::*;
use vstd::utf8::encode_utf8;
use crate::date::{difference_fits, nanos_since, time_since, HttpDate};
use crate::request::{
    dates_are_utc,
    empty_header,
    opt_view,
    parse_request,
    HTTPHeader,
    HeaderView,
    RequestType,
};
use crate::text::{
    chars_of,
    decimal,
    decimal_u64,
    replace_all,
    replace_str,
    same_text,
    string_of,
};
use crate::uri::{from_absolute, regex_capture, UriError, URI_PATTERN};

verus! {

/// What the server does with a request.
#[derive(Debug)]
pub enum Route {
    /// Answer with an error page: the status, then the reason.
    Reply(&'static str, &'static str),
    /// Serve what lies at this path below the server's root; the header holds
    /// the request's date conditions.
    Serve(HTTPHeader, String),
    /// Give up on the request: the connection closes without an answer.
    Abort,
}

/// The mathematical value of a `Route`.
pub enum RouteView {
    Reply(Seq<char>, Seq<char>),
    Serve(HeaderView, Seq<char>),
    Abort,
}

/// The mathematical value of `r`.
pub open spec fn route_view(r: Route) -> RouteView {
    match r {
        Route::Reply(c, m) => RouteView::Reply(c@, m@),
        Route::Serve(h, p) => RouteView::Serve(h@, p@),
        Route::Abort => RouteView::Abort,
    }
}

/// `s` without its first character, where that character is a single byte in
/// UTF-8 (`&s[1..]` of the text).
pub open spec fn strip_first(s: Seq<char>) -> Option<Seq<char>> {
    if s.len() > 0 && (s[0] as u32) < 0x80 {
        Some(s.drop_first())
    } else {
        None
    }
}

/// The versions of HTTP whose request paths are relative to the server.
pub open spec fn is_known_version(v: Option<Seq<char>>) -> bool {
    v == Some("0.9"@) || v == Some("1.0"@) || v == Some("1.1"@)
}

/// Where the request path `given` leads, below the server's root: the path
/// without its leading `/` for the known versions, else the path part of the
/// absolute URI, without its leading `/`.
pub open spec fn target_for(h: HeaderView, given: Seq<char>) -> RouteView {
    if is_known_version(h.protocol_ver) {
        match strip_first(given) {
            Some(rel) => RouteView::Serve(h, rel),
            None => RouteView::Abort,
        }
    } else {
        path_route(h, regex_capture(URI_PATTERN@, given, 5))
    }
}

/// Where the path part `p` of an absolute URI leads: `None` when the URI did
/// not match, `Some(None)` when it has no path part.
pub open spec fn path_route(h: HeaderView, p: Option<Option<Seq<char>>>) -> RouteView {
    match p {
        None => RouteView::Abort,
        Some(None) => RouteView::Reply("400 Bad Request"@, "Malformed absolute path"@),
        Some(Some(q)) => match strip_first(q) {
            Some(rel) => RouteView::Serve(h, rel),
            None => RouteView::Abort,
        },
    }
}

/// The path part as `from_absolute` hands it over.
pub open spec fn found_path(p: Result<Option<&str>, UriError>) -> Option<Option<Seq<char>>> {
    match p {
        Err(_) => None,
        Ok(None) => Some(None),
        Ok(Some(q)) => Some(Some(q@)),
    }
}

/// What the server does with the request bytes `req`.
pub open spec fn route_for(req: Seq<u8>) -> RouteView {
    let (h, res) = parse_request(empty_header(), req);
    match res {
        Err(e) => RouteView::Reply("400 Bad Request"@, e),
        Ok(()) => match h.req_type {
            None => RouteView::Reply("400 Bad Request"@, "Could not find method"@),
            Some(t) => if t != RequestType::GET && t != RequestType::HEAD {
                RouteView::Reply(
                    "501 Not Implemented"@,
                    "The server does not support the method"@,
                )
            } else if h.host is None && h.protocol_ver == Some("1.1"@) {
                RouteView::Reply("400 Bad Request"@, "Missing host header"@)
            } else {
                match h.file_path {
                    None => RouteView::Reply("400 Bad Request"@, "Missing path"@),
                    Some(p) => target_for(h, replace_all(p, "%20"@, " "@)),
                }
            },
        },
    }
}

/// `s` without its first character, where that character is one byte long.
fn strip_first_char(s: &str) -> (r: Option<String>)
    ensures
        match strip_first(s@) {
            Some(t) => r matches Some(u) && u@ == t,
            None => r is None,
        },
{
    let v = chars_of(s);
    if v.len() > 0 && (v[0] as u32) < 0x80 {
        assert(v@.subrange(1, v@.len() as int) =~= v@.drop_first());
        Some(string_of(v.as_slice(), 1, v.len()))
    } else {
        None
    }
}

/// Whether `v` names one of the known versions of HTTP.
fn known_version(v: &Option<String>) -> (b: bool)
    ensures
        b == is_known_version(opt_view(*v)),
{
    match v {
        Some(s) => same_text(s.as_str(), "0.9") || same_text(s.as_str(), "1.0") || same_text(
            s.as_str(),
            "1.1",
        ),
        None => false,
    }
}

/// Decides what to do with the request bytes `req`.
pub fn route_request(req: &[u8]) -> (r: Route)
    ensures
        route_view(r) == route_for(req@),
        r matches Route::Serve(h, _) ==> dates_are_utc(h@),
{
    let mut headers = HTTPHeader::new();
    match headers.parse_req(req) {
        Ok(_) => {
            match headers.req_type {
                Some(RequestType::HEAD) => {},
                Some(RequestType::GET) => {},
                Some(_) => {
                    return Route::Reply(
                        "501 Not Implemented",
                        "The server does not support the method",
                    );
                },
                None => {
                    return Route::Reply("400 Bad Request", "Could not find method");
                },
            }
        },
        Err(e) => {
            return Route::Reply("400 Bad Request", e);
        },
    }
    if headers.host.is_none() {
        let v11 = match &headers.protocol_ver {
            Some(v) => same_text(v.as_str(), "1.1"),
            None => false,
        };
        if v11 {
            return Route::Reply("400 Bad Request", "Missing host header");
        }
    }
    let parsedpath = match &headers.file_path {
        Some(p) => p.clone(),
        None => {
            return Route::Reply("400 Bad Request", "Missing path");
        },
    };
    proof {
        reveal_strlit("%20");
    }
    let givenpath = replace_str(parsedpath.as_str(), "%20", " ");
    if known_version(&headers.protocol_ver) {
        match strip_first_char(givenpath.as_str()) {
            Some(rel) => Route::Serve(headers, rel),
            None => Route::Abort,
        }
    } else {
        route_path(headers, from_absolute(givenpath.as_str()))
    }
}

/// Decides what to do with a request whose path is absolute, from the path
/// part `path` that `from_absolute` found in it.
pub fn route_path(headers: HTTPHeader, path: Result<Option<&str>, UriError>) -> (r: Route)
    ensures
        route_view(r) == path_route(headers@, found_path(path)),
        r matches Route::Serve(h, _) ==> h@ == headers@,
{
    match path {
        Err(_) => Route::Abort,
        Ok(None) => Route::Reply("400 Bad Request", "Malformed absolute path"),
        Ok(Some(relpath)) => match strip_first_char(relpath) {
            Some(rel) => Route::Serve(headers, rel),
            None => Route::Abort,
        },
    }
}

/// Only `GET` and `HEAD` are served: a request read without error whose
/// method is any other gets `501 Not Implemented`, and whatever the server
/// serves was asked for with `GET` or `HEAD`.
pub proof fn law_only_get_and_head_served(req: Seq<u8>)
    ensures
        ({
            let (h, res) = parse_request(empty_header(), req);
            (res is Ok && h.req_type is Some && h.req_type != Some(RequestType::GET)
                && h.req_type != Some(RequestType::HEAD)) ==> route_for(req) == RouteView::Reply(
                "501 Not Implemented"@,
                "The server does not support the method"@,
            )
        }),
        route_for(req) is Serve ==> ({
            let (h, res) = parse_request(empty_header(), req);
            res is Ok && (h.req_type == Some(RequestType::GET) || h.req_type == Some(
                RequestType::HEAD,
            ))
        }),
{
}

/// An HTTP/1.1 request for `GET` or `HEAD` without a `Host` field gets
/// `400 Bad Request`, with the reason that the host is missing.
pub proof fn law_http11_needs_host(req: Seq<u8>)
    ensures
        ({
            let (h, res) = parse_request(empty_header(), req);
            res is Ok && (h.req_type == Some(RequestType::GET) || h.req_type == Some(
                RequestType::HEAD,
            )) && h.host is None && h.protocol_ver == Some("1.1"@) ==> route_for(req)
                == RouteView::Reply("400 Bad Request"@, "Missing host header"@)
        }),
{
}

/// What the date conditions of a request say.
#[derive(Debug, Clone, Copy, PartialEq, Eq, Structural)]
pub enum Precondition {
    /// Send the file.
    Proceed,
    /// The file has not changed since `If-Modified-Since`.
    NotModified,
    /// The file has changed since `If-Unmodified-Since`.
    Failed,
    /// A date lies in the future, or too far away: give up on the request.
    Abort,
}

/// The outcome of one date condition: `None` to go on.
pub open spec fn condition_on(d: Option<HttpDate>, now_sec: i64, now_nsec: i32, since_modified: nat, modified_if_before: bool) -> Option<Precondition> {
    match d {
        None => None,
        Some(t) => if !difference_fits(now_sec, t) || nanos_since(now_sec, now_nsec, t) < 0 {
            Some(Precondition::Abort)
        } else if modified_if_before && nanos_since(now_sec, now_nsec, t) < since_modified {
            Some(Precondition::NotModified)
        } else if !modified_if_before && nanos_since(now_sec, now_nsec, t) > since_modified {
            Some(Precondition::Failed)
        } else {
            None
        },
    }
}

/// What the date conditions of `h` say at the time stamp `(now_sec, now_nsec)`
/// of a file last modified `since_modified` nanoseconds ago.
pub open spec fn precondition_for(h: HeaderView, now_sec: i64, now_nsec: i32, since_modified: nat) -> Precondition {
    match condition_on(h.if_modified_since, now_sec, now_nsec, since_modified, true) {
        Some(p) => p,
        None => match condition_on(h.if_unmodified_since, now_sec, now_nsec, since_modified, false) {
            Some(p) => p,
            None => Precondition::Proceed,
        },
    }
}

/// The outcome of one date condition from the time that has passed since its
/// date: `None` where the request has no such date, `Some(None)` where the
/// date lies in the future or too far away; the result `None` means go on.
pub open spec fn elapsed_condition(e: Option<Option<u128>>, since_modified: nat, modified_if_before: bool) -> Option<Precondition> {
    match e {
        None => None,
        Some(None) => Some(Precondition::Abort),
        Some(Some(a)) => if modified_if_before && a < since_modified {
            Some(Precondition::NotModified)
        } else if !modified_if_before && a > since_modified {
            Some(Precondition::Failed)
        } else {
            None
        },
    }
}

/// What the date conditions say, from the times that have passed since the
/// `If-Modified-Since` and the `If-Unmodified-Since` dates.
pub open spec fn precondition_from(if_modified: Option<Option<u128>>, if_unmodified: Option<Option<u128>>, since_modified: nat) -> Precondition {
    match elapsed_condition(if_modified, since_modified, true) {
        Some(p) => p,
        None => match elapsed_condition(if_unmodified, since_modified, false) {
            Some(p) => p,
            None => Precondition::Proceed,
        },
    }
}

/// Decides the date conditions of a request from the nanoseconds that have
/// passed since its `If-Modified-Since` date (`if_modified`) and its
/// `If-Unmodified-Since` date (`if_unmodified`), for a file last modified
/// `since_modified` nanoseconds ago.
pub fn decide_preconditions(if_modified: Option<Option<u128>>, if_unmodified: Option<Option<u128>>, since_modified: u128) -> (r: Precondition)
    ensures
        r == precondition_from(if_modified, if_unmodified, since_modified as nat),
{
    match if_modified {
        None => {},
        Some(None) => return Precondition::Abort,
        Some(Some(a)) => {
            if a < since_modified {
                return Precondition::NotModified;
            }
        },
    }
    match if_unmodified {
        None => {},
        Some(None) => return Precondition::Abort,
        Some(Some(a)) => {
            if a > since_modified {
                return Precondition::Failed;
            }
        },
    }
    Precondition::Proceed
}

/// Checks the `If-Modified-Since` and `If-Unmodified-Since` conditions of `h`
/// at the time stamp `(now_sec, now_nsec)`, for a file last modified
/// `since_modified` nanoseconds ago.
pub fn check_preconditions(h: &HTTPHeader, now_sec: i64, now_nsec: i32, since_modified: u128) -> (r: Precondition)
    requires
        dates_are_utc(h@),
        0 <= now_nsec < 1_000_000_000,
    ensures
        r == precondition_for(h@, now_sec, now_nsec, since_modified as nat),
{
    let if_modified = match &h.if_modified_since {
        Some(t) => Some(time_since(now_sec, now_nsec, t)),
        None => None,
    };
    let if_unmodified = match &h.if_unmodified_since {
        Some(t) => Some(time_since(now_sec, now_nsec, t)),
        None => None,
    };
    decide_preconditions(if_modified, if_unmodified, since_modified)
}

/// The number of bytes of `s` in UTF-8.
pub open spec fn utf8_len(s: Seq<char>) -> nat {
    encode_utf8(s).len()
}

/// The body of an error page.
pub open spec fn error_body(code: Seq<char>, reason: Seq<char>) -> Seq<char> {
    "<html>\r\n<body>\r\n<h2>Error "@ + code + "</h2>\r\n"@ + reason + "\r\n<html>\r\n<body>\r\n"@
}

/// A whole error response: status line, header fields and the body.
pub open spec fn error_text(code: Seq<char>, reason: Seq<char>, date: Seq<char>) -> Seq<char> {
    "HTTP/1.1 "@ + code + "\r\nContent-type: text-html\r\nConnection: close\r\nDate: "@ + date
        + "\r\nContent-Length: "@ + decimal(utf8_len(error_body(code, reason)))
        + "\r\n\r\n"@ + error_body(code, reason)
}

/// The error response with status `error_code` and the reason `reason`,
/// dated `date`.
pub fn error_message(error_code: &str, reason: &str, date: &str) -> (m: String)
    ensures
        m@ == error_text(error_code@, reason@, date@),
{
    let mut body = String::from_str("<html>\r\n<body>\r\n<h2>Error ");
    body.append(error_code);
    body.append("</h2>\r\n");
    body.append(reason);
    body.append("\r\n<html>\r\n<body>\r\n");
    let len = body.as_str().as_bytes().len();
    let mut msg = String::from_str("HTTP/1.1 ");
    msg.append(error_code);
    msg.append("\r\nContent-type: text-html\r\nConnection: close\r\nDate: ");
    msg.append(date);
    msg.append("\r\nContent-Length: ");
    let digits = decimal_u64(len as u64);
    msg.append(digits.as_str());
    msg.append("\r\n\r\n");
    msg.append(body.as_str());
    msg
}

/// The status line and header fields of a successful response.
pub open spec fn ok_head_text(content_type: Seq<char>, date: Seq<char>, len: nat) -> Seq<char> {
    "HTTP/1.1 200 OK\r\nContent-type: "@ + content_type + "\r\nConnection: close\r\nDate: "@ + date
        + "\r\nContent-Length: "@ + decimal(len) + "\r\n\r\n"@
}

/// The head of a successful response whose body is `len` bytes of
/// `content_type`, dated `date`.
pub fn ok_head(content_type: &str, date: &str, len: usize) -> (m: String)
    ensures
        m@ == ok_head_text(content_type@, date@, len as nat),
{
    let mut msg = String::from_str("HTTP/1.1 200 OK\r\nContent-type: ");
    msg.append(content_type);
    msg.append("\r\nConnection: close\r\nDate: ");
    msg.append(date);
    msg.append("\r\nContent-Length: ");
    let digits = decimal_u64(len as u64);
    msg.append(digits.as_str());
    msg.append("\r\n\r\n");
    msg
}

/// The media type that `mime_guess` gives a path by its extension.
pub uninterp spec fn guessed_mime(path: Seq<char>) -> Seq<char>;

/// The media type that `mime_guess::from_path(path).first_or_octet_stream()`
/// gives `path`, written as text; the contract names it `guessed_mime`.
#[verifier::external_body]
fn guess_mime_type(path: &str) -> (r: String)
    ensures
        r@ == guessed_mime(path@),
{
    mime_guess::from_path(path).first_or_octet_stream().to_string()
}

/// The head of the response that sends the file at `path`, `len` bytes long,
/// dated `date`.
pub fn file_head(path: &str, date: &str, len: usize) -> (m: String)
    ensures
        m@ == ok_head_text(guessed_mime(path@), date@, len as nat),
{
    let mimetype = guess_mime_type(path);
    ok_head(mimetype.as_str(), date, len)
}

/// What a directory entry is.
#[derive(Debug, Clone, Copy, PartialEq, Eq, Structural)]
pub enum EntryKind {
    Dir,
    File,
    Other,
}

/// An entry of a directory listing.
#[derive(Debug)]
pub struct DirEntry {
    pub name: String,
    pub kind: EntryKind,
}

/// The list item of an entry: a link to it, with a `/` after a directory's
/// name; nothing for what is neither file nor directory.
pub open spec fn entry_item(name: Seq<char>, kind: EntryKind) -> Seq<char> {
    match kind {
        EntryKind::Dir => "<li><a href=\""@ + name + "/\">"@ + name + "/</a></li>"@,
        EntryKind::File => "<li><a href=\""@ + name + "\">"@ + name + "</a></li>"@,
        EntryKind::Other => Seq::empty(),
    }
}

/// The list items of the entries, in order.
pub open spec fn entries_html(es: Seq<DirEntry>) -> Seq<char>
    decreases es.len(),
{
    if es.len() == 0 {
        Seq::empty()
    } else {
        entries_html(es.drop_last()) + entry_item(es.last().name@, es.last().kind)
    }
}

/// The index page of the directory `dir` with the entries `es`.
pub open spec fn index_page_text(dir: Seq<char>, es: Seq<DirEntry>) -> Seq<char> {
    "<html><body><h2>Index of "@ + dir + "/</h2><ul>"@ + entries_html(es)
        + "</ul></body></html>"@
}

/// The whole response that lists the directory `dir_name`.
pub open spec fn index_text(dir: Seq<char>, es: Seq<DirEntry>, date: Seq<char>) -> Seq<char> {
    ok_head_text("text-html"@, date, utf8_len(index_page_text(dir, es))) + index_page_text(dir, es)
}

/// The index page of the directory `dir_name` with the entries `entries`.
pub fn index_page(dir_name: &str, entries: &Vec<DirEntry>) -> (p: String)
    ensures
        p@ == index_page_text(dir_name@, entries@),
{
    let mut page = String::from_str("<html><body><h2>Index of ");
    page.append(dir_name);
    page.append("/</h2><ul>");
    let ghost start = page@;
    let mut i: usize = 0;
    while i < entries.len()
        invariant
            i <= entries@.len(),
            page@ == start + entries_html(entries@.take(i as int)),
        decreases entries@.len() - i,
    {
        let e = &entries[i];
        match e.kind {
            EntryKind::Dir => {
                page.append("<li><a href=\"");
                page.append(e.name.as_str());
                page.append("/\">");
                page.append(e.name.as_str());
                page.append("/</a></li>");
            },
            EntryKind::File => {
                page.append("<li><a href=\"");
                page.append(e.name.as_str());
                page.append("\">");
                page.append(e.name.as_str());
                page.append("</a></li>");
            },
            EntryKind::Other => {},
        }
        assert(entries@.take(i + 1).drop_last() =~= entries@.take(i as int));
        assert(entries@.take(i + 1).last() == entries@[i as int]);
        i = i + 1;
    }
    assert(entries@.take(entries@.len() as int) =~= entries@);
    page.append("</ul></body></html>");
    page
}

/// The response that lists the directory `dir_name`, dated `date`.
pub fn index_message(dir_name: &str, entries: &Vec<DirEntry>, date: &str) -> (m: String)
    ensures
        m@ == index_text(dir_name@, entries@, date@),
{
    let page = index_page(dir_name, entries);
    let len = page.as_str().as_bytes().len();
    let mut m = ok_head("text-html", date, len);
    m.append(page.as_str());
    m
}

} // verus!
