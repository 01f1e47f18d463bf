//! The server side of a request: reading the request line and the header
//! fields that the server acts on.
use vstd::prelude::*;
use vstd::utf8::{decode_utf8, valid_utf8};
use crate::date::{date_from_str, parsed_date, HttpDate};
use crate::text::{
    chars_of,
    is_ws,
    joined,
    lemma_line_found,
    lemma_trim_no_ws,
    lemma_words_solid,
    no_ws,
    find_from,
    find_seq,
    lemma_find_seq_props,
    lemma_trim_inside,
    occurs_at,
    span,
    same_text,
    split_words,
    string_of,
    trim,
    trim_bounds,
    trim_str,
    views,
    words,
};

verus! {

/// The request methods that the server tells apart.
#[derive(Debug, Clone, Copy, PartialEq, Eq, Structural)]
pub enum RequestType {
    GET,
    HEAD,
    POST,
    PUT,
    DELETE,
    OPTIONS,
    TRACE,
    UNKNOWN,
}

/// The method that the word `s` names.
pub open spec fn request_type_of(s: Seq<char>) -> RequestType {
    if s == "GET"@ {
        RequestType::GET
    } else if s == "HEAD"@ {
        RequestType::HEAD
    } else if s == "POST"@ {
        RequestType::POST
    } else if s == "PUT"@ {
        RequestType::PUT
    } else if s == "DELETE"@ {
        RequestType::DELETE
    } else if s == "OPTIONS"@ {
        RequestType::OPTIONS
    } else if s == "TRACE"@ {
        RequestType::TRACE
    } else {
        RequestType::UNKNOWN
    }
}

/// The method that `req` names.
pub fn reqtype_from_str(req: &str) -> (r: RequestType)
    ensures
        r == request_type_of(req@),
{
    if same_text(req, "GET") {
        RequestType::GET
    } else if same_text(req, "HEAD") {
        RequestType::HEAD
    } else if same_text(req, "POST") {
        RequestType::POST
    } else if same_text(req, "PUT") {
        RequestType::PUT
    } else if same_text(req, "DELETE") {
        RequestType::DELETE
    } else if same_text(req, "OPTIONS") {
        RequestType::OPTIONS
    } else if same_text(req, "TRACE") {
        RequestType::TRACE
    } else {
        RequestType::UNKNOWN
    }
}

/// What the server knows of a request: the parts of its request line and
/// the header fields that it acts on.
#[derive(Debug)]
pub struct HTTPHeader {
    pub protocol: Option<String>,
    pub protocol_ver: Option<String>,
    pub file_path: Option<String>,
    pub req_type: Option<RequestType>,
    pub connection: Option<String>,
    pub host: Option<String>,
    pub if_modified_since: Option<HttpDate>,
    pub if_unmodified_since: Option<HttpDate>,
}

/// The mathematical value of an `HTTPHeader`.
pub struct HeaderView {
    pub protocol: Option<Seq<char>>,
    pub protocol_ver: Option<Seq<char>>,
    pub file_path: Option<Seq<char>>,
    pub req_type: Option<RequestType>,
    pub connection: Option<Seq<char>>,
    pub host: Option<Seq<char>>,
    pub if_modified_since: Option<HttpDate>,
    pub if_unmodified_since: Option<HttpDate>,
}

/// The characters of an optional string.
pub open spec fn opt_view(o: Option<String>) -> Option<Seq<char>> {
    match o {
        Some(s) => Some(s@),
        None => None,
    }
}

/// The characters of a result's message.
pub open spec fn msg_view(r: Result<&'static str, &'static str>) -> Result<Seq<char>, Seq<char>> {
    match r {
        Ok(m) => Ok(m@),
        Err(m) => Err(m@),
    }
}

impl View for HTTPHeader {
    type V = HeaderView;

    open spec fn view(&self) -> HeaderView {
        HeaderView {
            protocol: opt_view(self.protocol),
            protocol_ver: opt_view(self.protocol_ver),
            file_path: opt_view(self.file_path),
            req_type: self.req_type,
            connection: opt_view(self.connection),
            host: opt_view(self.host),
            if_modified_since: self.if_modified_since,
            if_unmodified_since: self.if_unmodified_since,
        }
    }
}

/// The dates of a header were read by `date_from_str`: their offset from UTC
/// and their nanoseconds are zero.
pub open spec fn dates_are_utc(h: HeaderView) -> bool {
    &&& h.if_modified_since matches Some(d) ==> d.utcoff == 0 && d.nsec == 0
    &&& h.if_unmodified_since matches Some(d) ==> d.utcoff == 0 && d.nsec == 0
}

/// A header that knows nothing yet.
pub open spec fn empty_header() -> HeaderView {
    HeaderView {
        protocol: None,
        protocol_ver: None,
        file_path: None,
        req_type: None,
        connection: None,
        host: None,
        if_modified_since: None,
        if_unmodified_since: None,
    }
}

/// What the request line `s` does to the header `h`, and the message that
/// comes back: it needs three words (method, path, protocol), and the
/// protocol word a `/` between the protocol's name and its version.
pub open spec fn init_line_update(h: HeaderView, s: Seq<char>) -> (HeaderView, Result<Seq<char>, Seq<char>>) {
    let w = words(s);
    if w.len() < 3 {
        (h, Err("Invalid init line"@))
    } else {
        let h1 = HeaderView {
            file_path: Some(trim(w[1])),
            req_type: Some(request_type_of(trim(w[0]))),
            ..h
        };
        let z = trim(w[2]);
        match find_seq(z, seq!['/']) {
            None => (h1, Err("Invalid header format"@)),
            Some(i) => (
                HeaderView {
                    protocol: Some(trim(z.take(i as int))),
                    protocol_ver: Some(trim(z.skip(i + 1 as int))),
                    ..h1
                },
                Ok("OK"@),
            ),
        }
    }
}

/// The header name under which the server stores an `If-Unmodified-Since`
/// date. A name ends at the first colon of its line, so no line gives it.
pub open spec fn unmodified_since_name() -> Seq<char> {
    "If-Content-Length: 14\rUnmodified-Since"@
}

/// What the header line `s` does to the header `h`, and the message that
/// comes back.
pub open spec fn tag_update(h: HeaderView, s: Seq<char>) -> (HeaderView, Result<Seq<char>, Seq<char>>) {
    match find_seq(s, seq![':']) {
        None => (h, Err("Invalid header format"@)),
        Some(i) => {
            let name = trim(s.take(i as int));
            let value = trim(s.skip(i + 1 as int));
            if name == "Connection"@ {
                (HeaderView { connection: Some(value), ..h }, Ok("OK"@))
            } else if name == "Host"@ {
                (HeaderView { host: Some(value), ..h }, Ok("OK"@))
            } else if name == "If-Modified-Since"@ {
                match parsed_date(value) {
                    Some(d) => (HeaderView { if_modified_since: Some(d), ..h }, Ok("OK"@)),
                    None => (h, Err("Unable to parse date"@)),
                }
            } else if name == unmodified_since_name() {
                match parsed_date(value) {
                    Some(d) => (HeaderView { if_unmodified_since: Some(d), ..h }, Ok("OK"@)),
                    None => (h, Err("Unable to parse date"@)),
                }
            } else {
                (h, Ok("Unknown header"@))
            }
        },
    }
}

/// A line ending.
pub open spec fn crlf() -> Seq<char> {
    seq!['\r', '\n']
}

/// What the header lines in `rest` do to `h`: each line up to its line
/// ending, trimmed, goes to `tag_update`, until a line that holds only its
/// ending; an error stops the reading.
pub open spec fn parse_fields(h: HeaderView, rest: Seq<char>) -> (HeaderView, Result<(), Seq<char>>)
    decreases rest.len(),
{
    match find_seq(rest, crlf()) {
        None => (h, Err("Missing line ending"@)),
        Some(i) => if i == 0 {
            (h, Ok(()))
        } else {
            if i + 2 <= rest.len() {
                let (h2, r) = tag_update(h, trim(rest.take(i + 2 as int)));
                match r {
                    Err(e) => (h2, Err(e)),
                    Ok(_) => parse_fields(h2, rest.skip(i + 2 as int)),
                }
            } else {
                (h, Err("Missing line ending"@))
            }
        },
    }
}

/// What the request bytes `req` do to `h`: they must be UTF-8; the first line
/// goes to `init_line_update` (whose message is dropped), the rest to
/// `parse_fields`.
pub open spec fn parse_request(h: HeaderView, req: Seq<u8>) -> (HeaderView, Result<(), Seq<char>>) {
    if !valid_utf8(req) {
        (h, Err("Missing line ending"@))
    } else {
        let text = decode_utf8(req);
        match find_seq(text, crlf()) {
            None => (h, Err("Missing line ending"@)),
            Some(i) => if i + 2 <= text.len() {
                let h1 = init_line_update(h, trim(text.take(i + 2 as int))).0;
                parse_fields(h1, text.skip(i + 2 as int))
            } else {
                (h, Err("Missing line ending"@))
            },
        }
    }
}

/// Decodes `bytes` with `std::str::from_utf8`: the text they encode where they
/// are valid UTF-8.
#[verifier::external_body]
fn utf8_text(bytes: &[u8]) -> (r: Option<&str>)
    ensures
        r is Some <==> valid_utf8(bytes@),
        r matches Some(s) ==> s@ == decode_utf8(bytes@),
{
    match std::str::from_utf8(bytes) {
        Ok(s) => Some(s),
        Err(_) => None,
    }
}

/// The first line of `buf`, with its line ending: `Err(None)` where `buf` is
/// not UTF-8, `Err(Some(text))` where the text has no line ending.
pub fn read_line(buf: &[u8]) -> (r: Result<&str, Option<&str>>)
    ensures
        !valid_utf8(buf@) ==> r == Err::<&str, Option<&str>>(None),
        valid_utf8(buf@) ==> match find_seq(decode_utf8(buf@), crlf()) {
            Some(i) => r matches Ok(l) && l@ == decode_utf8(buf@).take(i + 2 as int),
            None => r matches Err(Some(t)) && t@ == decode_utf8(buf@),
        },
{
    let slice = match utf8_text(buf) {
        None => return Err(None),
        Some(s) => s,
    };
    let v = chars_of(slice);
    let ending = ['\r', '\n'];
    assert(ending@ =~= crlf());
    assert(v@.skip(0) =~= v@);
    match find_from(v.as_slice(), ending.as_slice(), 0) {
        None => Err(Some(slice)),
        Some(i) => {
            proof {
                lemma_find_seq_props(v@, crlf());
            }
            let line = slice.substring_char(0, i + 2);
            assert(v@.subrange(0, i + 2) =~= v@.take(i + 2 as int));
            Ok(line)
        },
    }
}

impl HTTPHeader {
    /// A header that knows nothing yet.
    pub fn new() -> (h: HTTPHeader)
        ensures
            h@ == empty_header(),
    {
        HTTPHeader {
            protocol: None,
            protocol_ver: None,
            file_path: None,
            req_type: None,
            connection: None,
            host: None,
            if_modified_since: None,
            if_unmodified_since: None,
        }
    }

    /// Takes the request line `s`: method, path and protocol.
    pub fn insert_init_line(&mut self, s: &str) -> (r: Result<&'static str, &'static str>)
        ensures
            (final(self)@, msg_view(r)) == init_line_update(old(self)@, s@),
    {
        let w = split_words(s);
        if w.len() < 3 {
            return Err("Invalid init line");
        }
        assert(views(w@)[0] == w@[0]@ && views(w@)[1] == w@[1]@ && views(w@)[2] == w@[2]@);
        let reqtype = trim_str(w[0].as_str());
        let path = trim_str(w[1].as_str());
        let fullprot = trim_str(w[2].as_str());
        self.file_path = Some(path);
        self.req_type = Some(reqtype_from_str(reqtype.as_str()));
        let z = chars_of(fullprot.as_str());
        let slash = ['/'];
        assert(slash@ =~= seq!['/']);
        assert(z@.skip(0) =~= z@);
        match find_from(z.as_slice(), slash.as_slice(), 0) {
            None => Err("Invalid header format"),
            Some(i) => {
                proof {
                    lemma_find_seq_props(z@, seq!['/']);
                }
                let (a, b) = trim_bounds(z.as_slice(), 0, i);
                let (c, d) = trim_bounds(z.as_slice(), i + 1, z.len());
                assert(z@.subrange(0, i as int) =~= z@.take(i as int));
                assert(z@.subrange(i + 1, z@.len() as int) =~= z@.skip(i + 1));
                self.protocol = Some(string_of(z.as_slice(), a, b));
                self.protocol_ver = Some(string_of(z.as_slice(), c, d));
                Ok("OK")
            },
        }
    }

    /// Takes the header line `s`: its name, before the first colon, and its
    /// value, after it.
    pub fn insert_tag(&mut self, s: &str) -> (r: Result<&'static str, &'static str>)
        ensures
            (final(self)@, msg_view(r)) == tag_update(old(self)@, s@),
            dates_are_utc(old(self)@) ==> dates_are_utc(final(self)@),
    {
        let v = chars_of(s);
        let colon = [':'];
        assert(colon@ =~= seq![':']);
        assert(v@.skip(0) =~= v@);
        let found = find_from(v.as_slice(), colon.as_slice(), 0);
        let i = match found {
            None => return Err("Invalid header format"),
            Some(i) => i,
        };
        proof {
            lemma_find_seq_props(v@, seq![':']);
            assert(find_seq(v@, seq![':']) == Some(i as nat));
        }
        let (a, b) = trim_bounds(v.as_slice(), 0, i);
        let (c, d) = trim_bounds(v.as_slice(), i + 1, v.len());
        assert(v@.subrange(0, i as int) =~= v@.take(i as int));
        assert(v@.subrange(i + 1, v@.len() as int) =~= v@.skip(i + 1));
        let header = string_of(v.as_slice(), a, b);
        let tag = string_of(v.as_slice(), c, d);
        if same_text(header.as_str(), "Connection") {
            self.connection = Some(tag);
        } else if same_text(header.as_str(), "Host") {
            self.host = Some(tag);
        } else if same_text(header.as_str(), "If-Modified-Since") {
            match date_from_str(tag.as_str()) {
                Ok(t) => self.if_modified_since = Some(t),
                Err(e) => return Err(e),
            }
        } else if same_text(header.as_str(), "If-Content-Length: 14\rUnmodified-Since") {
            match date_from_str(tag.as_str()) {
                Ok(t) => self.if_unmodified_since = Some(t),
                Err(e) => return Err(e),
            }
        } else {
            return Ok("Unknown header");
        }
        Ok("OK")
    }

    /// Reads the request line and the header fields of the request `req`.
    pub fn parse_req(&mut self, req: &[u8]) -> (r: Result<(), &'static str>)
        ensures
            (final(self)@, match r {
                Ok(()) => Ok::<(), Seq<char>>(()),
                Err(e) => Err(e@),
            }) == parse_request(old(self)@, req@),
            dates_are_utc(old(self)@) ==> dates_are_utc(final(self)@),
    {
        let text = match utf8_text(req) {
            None => return Err("Missing line ending"),
            Some(t) => t,
        };
        let v = chars_of(text);
        let n = v.len();
        let ending = ['\r', '\n'];
        assert(ending@ =~= crlf());
        assert(v@.skip(0) =~= v@);
        let i = match find_from(v.as_slice(), ending.as_slice(), 0) {
            None => return Err("Missing line ending"),
            Some(i) => i,
        };
        proof {
            lemma_find_seq_props(v@, crlf());
        }
        let (a, b) = trim_bounds(v.as_slice(), 0, i + 2);
        assert(v@.subrange(0, i + 2) =~= v@.take(i + 2 as int));
        let line = string_of(v.as_slice(), a, b);
        let _ = self.insert_init_line(line.as_str());
        let ghost goal = parse_request(old(self)@, req@);
        let mut pos = i + 2;
        assert(goal == parse_fields(self@, v@.skip(pos as int)));
        loop
            invariant
                n == v@.len(),
                ending@ == crlf(),
                pos <= n,
                goal == parse_fields(self@, v@.skip(pos as int)),
                goal == parse_request(old(self)@, req@),
                dates_are_utc(old(self)@) ==> dates_are_utc(self@),
            decreases n - pos,
        {
            let ghost rest = v@.skip(pos as int);
            let j = match find_from(v.as_slice(), ending.as_slice(), pos) {
                None => return Err("Missing line ending"),
                Some(j) => j,
            };
            proof {
                lemma_find_seq_props(rest, crlf());
            }
            if j == 0 {
                return Ok(());
            }
            let (a, b) = trim_bounds(v.as_slice(), pos, pos + j + 2);
            assert(v@.subrange(pos as int, pos + j + 2) =~= rest.take(j + 2));
            assert(rest.skip(j + 2) =~= v@.skip(pos + j + 2));
            let line = string_of(v.as_slice(), a, b);
            match self.insert_tag(line.as_str()) {
                Ok(_) => {
                    pos = pos + j + 2;
                },
                Err(e) => return Err(e),
            }
        }
    }
}

proof fn lemma_tag_keeps_unmodified(h: HeaderView, s: Seq<char>)
    ensures
        tag_update(h, s).0.if_unmodified_since == h.if_unmodified_since,
{
    match find_seq(s, seq![':']) {
        None => {},
        Some(i) => {
            lemma_find_seq_props(s, seq![':']);
            let x = s.take(i as int);
            let name = trim(x);
            if name == unmodified_since_name() {
                reveal_strlit("If-Content-Length: 14\rUnmodified-Since");
                assert(name[17] == ':');
                lemma_trim_inside(x);
                let j: int = span(x, true) as int + 17;
                assert(x[j] == ':');
                assert(s.subrange(j, j + 1) =~= seq![s[j]]);
                assert(occurs_at(s, seq![':'], j));
            }
        },
    }
}

proof fn lemma_fields_keep_unmodified(h: HeaderView, rest: Seq<char>)
    ensures
        parse_fields(h, rest).0.if_unmodified_since == h.if_unmodified_since,
    decreases rest.len(),
{
    match find_seq(rest, crlf()) {
        None => {},
        Some(i) => {
            if i != 0 && i + 2 <= rest.len() {
                let line = trim(rest.take(i + 2 as int));
                lemma_tag_keeps_unmodified(h, line);
                let (h2, r) = tag_update(h, line);
                if r is Ok {
                    lemma_fields_keep_unmodified(h2, rest.skip(i + 2 as int));
                }
            }
        },
    }
}

/// Reading a request never sets the `If-Unmodified-Since` date: the server
/// stores it under a name that holds a colon, and a header name ends at the
/// first colon of its line.
pub proof fn law_unmodified_since_never_set(req: Seq<u8>)
    ensures
        parse_request(empty_header(), req).0.if_unmodified_since is None,
{
    if valid_utf8(req) {
        let text = decode_utf8(req);
        match find_seq(text, crlf()) {
            None => {},
            Some(i) => {
                if i + 2 <= text.len() {
                    let h1 = init_line_update(empty_header(), trim(text.take(i + 2 as int))).0;
                    lemma_fields_keep_unmodified(h1, text.skip(i + 2 as int));
                }
            },
        }
    }
}

/// Each of the seven method words names its own method, and only that word
/// names it; every other word is an unknown method.
pub proof fn law_method_words(s: Seq<char>)
    ensures
        (request_type_of(s) == RequestType::GET) == (s == "GET"@),
        (request_type_of(s) == RequestType::HEAD) == (s == "HEAD"@),
        (request_type_of(s) == RequestType::POST) == (s == "POST"@),
        (request_type_of(s) == RequestType::PUT) == (s == "PUT"@),
        (request_type_of(s) == RequestType::DELETE) == (s == "DELETE"@),
        (request_type_of(s) == RequestType::OPTIONS) == (s == "OPTIONS"@),
        (request_type_of(s) == RequestType::TRACE) == (s == "TRACE"@),
        (request_type_of(s) == RequestType::UNKNOWN) == !(s == "GET"@ || s == "HEAD"@ || s
            == "POST"@ || s == "PUT"@ || s == "DELETE"@ || s == "OPTIONS"@ || s == "TRACE"@),
{
    reveal_strlit("GET");
    reveal_strlit("HEAD");
    reveal_strlit("POST");
    reveal_strlit("PUT");
    reveal_strlit("DELETE");
    reveal_strlit("OPTIONS");
    reveal_strlit("TRACE");
    let w = seq!["GET"@, "HEAD"@, "POST"@, "PUT"@, "DELETE"@, "OPTIONS"@, "TRACE"@];
    assert forall|i: int, j: int| 0 <= i < j < 7 implies #[trigger] w[i] != #[trigger] w[j] by {
        if w[i].len() == w[j].len() {
            assert(w[i][0] != w[j][0]);
        }
    }
    assert(w[0] != w[1] && w[0] != w[2] && w[0] != w[3] && w[0] != w[4] && w[0] != w[5] && w[0]
        != w[6]);
    assert(w[1] != w[2] && w[1] != w[3] && w[1] != w[4] && w[1] != w[5] && w[1] != w[6]);
    assert(w[2] != w[3] && w[2] != w[4] && w[2] != w[5] && w[2] != w[6]);
    assert(w[3] != w[4] && w[3] != w[5] && w[3] != w[6]);
    assert(w[4] != w[5] && w[4] != w[6]);
    assert(w[5] != w[6]);
}

/// What the header lines `lines` do to `h`: each, trimmed, goes to
/// `tag_update` in order, and the first error stops the reading.
pub open spec fn apply_tags(h: HeaderView, lines: Seq<Seq<char>>) -> (HeaderView, Result<(), Seq<char>>)
    decreases lines.len(),
{
    if lines.len() == 0 {
        (h, Ok(()))
    } else {
        let (h2, r) = tag_update(h, trim(lines[0]));
        match r {
            Err(e) => (h2, Err(e)),
            Ok(_) => apply_tags(h2, lines.drop_first()),
        }
    }
}

/// `l` is a line: it ends in its first line ending.
pub open spec fn ends_line(l: Seq<char>) -> bool {
    l.len() >= 2 && find_seq(l, crlf()) == Some((l.len() - 2) as nat)
}

proof fn lemma_fields_of_lines(h: HeaderView, lines: Seq<Seq<char>>, rest: Seq<char>)
    requires
        forall|i: int| 0 <= i < lines.len() ==> ends_line(#[trigger] lines[i]) && lines[i] != crlf(),
    ensures
        parse_fields(h, joined(lines) + crlf() + rest) == apply_tags(h, lines),
    decreases lines.len(),
{
    let text = joined(lines) + crlf() + rest;
    if lines.len() == 0 {
        assert(text =~= crlf() + rest);
        assert(text.take(2) =~= crlf());
    } else {
        let l = lines[0];
        let tail = lines.drop_first();
        let more = joined(tail) + crlf() + rest;
        assert(ends_line(l) && l != crlf());
        assert(text =~= l + more);
        lemma_line_found(l, more);
        if l.len() == 2 {
            lemma_find_seq_props(l, crlf());
            assert(l =~= l.subrange(0, 2));
        }
        assert(text.take(l.len() as int) =~= l);
        assert(text.skip(l.len() as int) =~= more);
        assert forall|i: int| 0 <= i < tail.len() implies ends_line(#[trigger] tail[i]) && tail[i]
            != crlf() by {
            assert(tail[i] == lines[i + 1]);
        }
        let (h2, r) = tag_update(h, trim(l));
        if r is Ok {
            lemma_fields_of_lines(h2, tail, rest);
        }
    }
}

/// Reading a request is reading its request line with `insert_init_line`
/// (whose message is dropped) and then each header line with `insert_tag`,
/// in order, up to the blank line or the first error; what follows the blank
/// line plays no part.
pub proof fn law_request_lines(h: HeaderView, req: Seq<u8>, first: Seq<char>, lines: Seq<Seq<char>>, rest: Seq<char>)
    requires
        valid_utf8(req),
        decode_utf8(req) == first + joined(lines) + crlf() + rest,
        ends_line(first),
        forall|i: int| 0 <= i < lines.len() ==> ends_line(#[trigger] lines[i]) && lines[i] != crlf(),
    ensures
        parse_request(h, req) == apply_tags(init_line_update(h, trim(first)).0, lines),
{
    let text = decode_utf8(req);
    let more = joined(lines) + crlf() + rest;
    assert(text =~= first + more);
    lemma_line_found(first, more);
    assert(text.take(first.len() as int) =~= first);
    assert(text.skip(first.len() as int) =~= more);
    lemma_fields_of_lines(init_line_update(h, trim(first)).0, lines, rest);
}

/// A request line of three or more words sets the method from the first
/// word, the path to the second, and splits the third at its first `/` into
/// the protocol and its version; the message is `OK`, later words are
/// ignored and the header fields stay as they were.
pub proof fn law_init_line_split(h: HeaderView, s: Seq<char>)
    requires
        words(s).len() >= 3,
        words(s)[2].contains('/'),
    ensures
        ({
            let (h2, r) = init_line_update(h, s);
            let w = words(s);
            &&& r == Ok::<Seq<char>, Seq<char>>("OK"@)
            &&& h2.req_type == Some(request_type_of(w[0]))
            &&& h2.file_path == Some(w[1])
            &&& h2.protocol matches Some(p) && (h2.protocol_ver matches Some(v) && w[2] == p
                + seq!['/'] + v && !p.contains('/'))
            &&& h2.connection == h.connection
            &&& h2.host == h.host
            &&& h2.if_modified_since == h.if_modified_since
            &&& h2.if_unmodified_since == h.if_unmodified_since
        }),
{
    let w = words(s);
    lemma_words_solid(s);
    assert(no_ws(w[0]) && no_ws(w[1]) && no_ws(w[2]));
    lemma_trim_no_ws(w[0]);
    lemma_trim_no_ws(w[1]);
    lemma_trim_no_ws(w[2]);
    let z = w[2];
    let slash = seq!['/'];
    lemma_find_seq_props(z, slash);
    let j = choose|j: int| 0 <= j < z.len() && z[j] == '/';
    assert(z.subrange(j, j + 1) =~= slash);
    assert(occurs_at(z, slash, j));
    let i = find_seq(z, slash)->Some_0 as int;
    let p = z.take(i);
    let v = z.skip(i + 1);
    assert(z.subrange(i, i + 1) == slash);
    assert(z[i] == z.subrange(i, i + 1)[0]);
    assert(z =~= p + slash + v);
    assert forall|k: int| 0 <= k < p.len() implies #[trigger] p[k] != '/' by {
        assert(!occurs_at(z, slash, k));
        assert(z.subrange(k, k + 1)[0] == z[k]);
        if z[k] == '/' {
            assert(z.subrange(k, k + 1) =~= slash);
        }
    }
    assert(no_ws(p)) by {
        assert forall|k: int| 0 <= k < p.len() implies !is_ws(#[trigger] p[k]) by {
            assert(p[k] == z[k]);
        }
    }
    assert(no_ws(v)) by {
        assert forall|k: int| 0 <= k < v.len() implies !is_ws(#[trigger] v[k]) by {
            assert(v[k] == z[k + i + 1]);
        }
    }
    lemma_trim_no_ws(p);
    lemma_trim_no_ws(v);
}

} // verus!
