//! The client side: the request it sends, reading the response head line by
//! line, deciding how to read the body, and following redirects.
use vstd::prelude::*;
use crate::headers::HeaderMap;
use crate::text::{
    chars_of,
    digit_value,
    digits_value,
    is_ws,
    find_from,
    all_ws,
    decimal,
    find_seq,
    law_decimal_round_trip,
    lemma_decimal_digits,
    lemma_find_seq_first,
    lemma_find_seq_props,
    lemma_trim_frame,
    occurs_at,
    parse_radix,
    parse_u64_radix,
    same_text,
    split_words,
    string_of,
    trim,
    trim_bounds,
    trim_str,
    views,
    words,
};

verus! {

/// The request that the client sends for `file` on `host`.
pub open spec fn request_text(host: Seq<char>, file: Seq<char>) -> Seq<char> {
    "GET "@ + file + " HTTP/1.1\r\nHost: "@ + host
        + "\r\nConnection: close\r\nUser-Agent: SillyGoose/0.1\r\n\r\n"@
}

/// The GET request for `file` on `host`.
pub fn request_message(host: &str, file: &str) -> (m: String)
    ensures
        m@ == request_text(host@, file@),
{
    let mut m = String::from_str("GET ");
    m.append(file);
    m.append(" HTTP/1.1\r\nHost: ");
    m.append(host);
    m.append("\r\nConnection: close\r\nUser-Agent: SillyGoose/0.1\r\n\r\n");
    m
}

/// The address that the client connects to: port 80 of `host`.
pub fn server_address(host: &str) -> (a: String)
    ensures
        a@ == host@ + ":80"@,
{
    let mut a = String::from_str(host);
    a.append(":80");
    a
}

/// Where the reading of a response head stands.
#[derive(Debug, Clone, Copy, PartialEq, Eq, Structural)]
pub enum HeadPhase {
    /// The next line is the status line.
    Status,
    /// A `100` status was seen: the next line takes the status line's place.
    ContinueStatus,
    /// The next line is read and dropped.
    SkipLine,
    /// The next line is a header field or the blank line that ends the head.
    Fields,
    /// The blank line was read.
    Done,
}

/// What a line did to the head.
#[derive(Debug, Clone, Copy, PartialEq, Eq, Structural)]
pub enum HeadStep {
    /// Another line is wanted.
    NeedLine,
    /// The head is complete.
    Complete,
}

/// A line that the head cannot take.
#[derive(Debug, Clone, Copy, PartialEq, Eq, Structural)]
pub enum HeadError {
    /// The status line has fewer than two words.
    NoStatusCode,
    /// A header line has no colon.
    MalformedHeader,
}

/// A response head read so far: the status line, the header fields and the
/// phase. With `skip_continue`, a `100` status makes the reader take the next
/// line as the status line and drop the one after it.
pub struct ResponseHead {
    pub init_line: String,
    pub headers: HeaderMap,
    pub phase: HeadPhase,
    pub skip_continue: bool,
}

/// The mathematical state of a response head.
pub struct HeadModel {
    pub init_line: Seq<char>,
    pub headers: Map<Seq<char>, Seq<char>>,
    pub phase: HeadPhase,
}

/// The name and the value of a header line: the trimmed text before and after
/// its first colon.
pub open spec fn header_field(line: Seq<char>) -> Option<(Seq<char>, Seq<char>)> {
    match find_seq(line, seq![':']) {
        Some(i) => Some((trim(line.take(i as int)), trim(line.skip(i + 1 as int)))),
        None => None,
    }
}

/// The status code of a status line: its second word.
pub open spec fn status_word(line: Seq<char>) -> Option<Seq<char>> {
    if words(line).len() >= 2 {
        Some(words(line)[1])
    } else {
        None
    }
}

/// What reading `line` does to the head `m`.
pub open spec fn head_step(m: HeadModel, skip_continue: bool, line: Seq<char>) -> Result<
    HeadModel,
    HeadError,
> {
    match m.phase {
        HeadPhase::Status => if skip_continue {
            match status_word(line) {
                None => Err(HeadError::NoStatusCode),
                Some(code) => Ok(
                    HeadModel {
                        init_line: line,
                        phase: if code == "100"@ {
                            HeadPhase::ContinueStatus
                        } else {
                            HeadPhase::Fields
                        },
                        ..m
                    },
                ),
            }
        } else {
            Ok(HeadModel { init_line: line, phase: HeadPhase::Fields, ..m })
        },
        HeadPhase::ContinueStatus => Ok(
            HeadModel { init_line: line, phase: HeadPhase::SkipLine, ..m },
        ),
        HeadPhase::SkipLine => Ok(HeadModel { phase: HeadPhase::Fields, ..m }),
        HeadPhase::Fields => if line == "\r\n"@ {
            Ok(HeadModel { phase: HeadPhase::Done, ..m })
        } else {
            match header_field(line) {
                None => Err(HeadError::MalformedHeader),
                Some((name, value)) => Ok(HeadModel { headers: m.headers.insert(name, value), ..m }),
            }
        },
        HeadPhase::Done => Ok(m),
    }
}

/// The name and value of a header line, as the reader stores them.
pub fn split_header_line(line: &str) -> (r: Option<(String, String)>)
    ensures
        match header_field(line@) {
            None => r is None,
            Some((n, v)) => r matches Some((a, b)) && a@ == n && b@ == v,
        },
{
    let v = chars_of(line);
    let colon = [':'];
    let found = find_from(v.as_slice(), colon.as_slice(), 0);
    assert(colon@ =~= seq![':']);
    assert(v@.skip(0) =~= v@);
    match found {
        None => None,
        Some(i) => {
            proof {
                lemma_find_seq_props(v@, seq![':']);
            }
            let (a, b) = trim_bounds(v.as_slice(), 0, i);
            let (c, d) = trim_bounds(v.as_slice(), i + 1, v.len());
            assert(v@.subrange(0, i as int) =~= v@.take(i as int));
            assert(v@.subrange(i + 1, v@.len() as int) =~= v@.skip(i + 1));
            Some((string_of(v.as_slice(), a, b), string_of(v.as_slice(), c, d)))
        },
    }
}

/// The second word of `line`, where it has one.
pub fn status_code(line: &str) -> (r: Option<String>)
    ensures
        match status_word(line@) {
            None => r is None,
            Some(w) => r matches Some(c) && c@ == w,
        },
{
    let w = split_words(line);
    if w.len() >= 2 {
        let c = w[1].clone();
        assert(views(w@)[1] == w@[1]@);
        Some(c)
    } else {
        None
    }
}

impl ResponseHead {
    /// The mathematical state of the head.
    pub open spec fn model(&self) -> HeadModel {
        HeadModel { init_line: self.init_line@, headers: self.headers@, phase: self.phase }
    }

    /// A head that expects its status line.
    pub fn new(skip_continue: bool) -> (h: ResponseHead)
        ensures
            h.model() == (HeadModel {
                init_line: Seq::empty(),
                headers: Map::empty(),
                phase: HeadPhase::Status,
            }),
            h.skip_continue == skip_continue,
    {
        ResponseHead {
            init_line: String::new(),
            headers: HeaderMap::new(),
            phase: HeadPhase::Status,
            skip_continue,
        }
    }

    /// Why the head cannot take `line` as its next line, or `None` where it
    /// can.
    pub fn line_problem(&self, line: &str) -> (r: Option<HeadError>)
        ensures
            match head_step(self.model(), self.skip_continue, line@) {
                Ok(_) => r is None,
                Err(e) => r == Some(e),
            },
    {
        match self.phase {
            HeadPhase::Status => {
                if self.skip_continue && status_code(line).is_none() {
                    Some(HeadError::NoStatusCode)
                } else {
                    None
                }
            },
            HeadPhase::Fields => {
                if same_text(line, "\r\n") {
                    None
                } else if split_header_line(line).is_none() {
                    Some(HeadError::MalformedHeader)
                } else {
                    None
                }
            },
            _ => None,
        }
    }

    /// Takes the next line of the response head.
    pub fn feed(&mut self, line: &str) -> (r: HeadStep)
        requires
            head_step(old(self).model(), old(self).skip_continue, line@) is Ok,
        ensures
            final(self).skip_continue == old(self).skip_continue,
            head_step(old(self).model(), old(self).skip_continue, line@) matches Ok(m)
                && final(self).model() == m
                && r == (if m.phase == HeadPhase::Done {
                    HeadStep::Complete
                } else {
                    HeadStep::NeedLine
                }),
    {
        match self.phase {
            HeadPhase::Status => {
                if self.skip_continue {
                    match status_code(line) {
                        None => {
                            return HeadStep::NeedLine;
                        },
                        Some(code) => {
                            self.init_line = String::from_str(line);
                            if same_text(code.as_str(), "100") {
                                self.phase = HeadPhase::ContinueStatus;
                            } else {
                                self.phase = HeadPhase::Fields;
                            }
                        },
                    }
                } else {
                    self.init_line = String::from_str(line);
                    self.phase = HeadPhase::Fields;
                }
                HeadStep::NeedLine
            },
            HeadPhase::ContinueStatus => {
                self.init_line = String::from_str(line);
                self.phase = HeadPhase::SkipLine;
                HeadStep::NeedLine
            },
            HeadPhase::SkipLine => {
                self.phase = HeadPhase::Fields;
                HeadStep::NeedLine
            },
            HeadPhase::Fields => {
                if same_text(line, "\r\n") {
                    self.phase = HeadPhase::Done;
                    HeadStep::Complete
                } else {
                    match split_header_line(line) {
                        None => HeadStep::NeedLine,
                        Some((name, value)) => {
                            self.headers.insert(name, value);
                            HeadStep::NeedLine
                        },
                    }
                }
            },
            HeadPhase::Done => HeadStep::Complete,
        }
    }
}

/// How the body of a response is to be read.
#[derive(Debug, Clone, Copy, PartialEq, Eq, Structural)]
pub enum BodyPlan {
    /// In chunks, each after a line that gives its size in hexadecimal.
    Chunked,
    /// As this many bytes.
    Length(u64),
    /// Not at all: the transfer encoding is one the client does not decode.
    Skip,
}

/// Why a body cannot be read.
#[derive(Debug, Clone, Copy, PartialEq, Eq, Structural)]
pub enum BodyError {
    /// A transfer encoding other than `chunked`, where that is refused.
    UnsupportedEncoding,
    /// Neither `Transfer-Encoding` nor `Content-Length` is present.
    MissingLength,
    /// `Content-Length` is not a decimal number that fits in a `u64`.
    BadLength,
    /// A chunk-size line is not a hexadecimal number that fits in a `u64`.
    BadChunkSize,
    /// A chunk size too large to add the two bytes of its line ending to.
    ChunkTooLarge,
}

/// How the body is read after the header fields `h`. With `strict`, an
/// encoding other than `chunked` is an error; without it, the body is skipped.
pub open spec fn plan_for(h: Map<Seq<char>, Seq<char>>, strict: bool) -> Result<BodyPlan, BodyError> {
    if h.contains_key("Transfer-Encoding"@) {
        if h["Transfer-Encoding"@] == "chunked"@ {
            Ok(BodyPlan::Chunked)
        } else if strict {
            Err(BodyError::UnsupportedEncoding)
        } else {
            Ok(BodyPlan::Skip)
        }
    } else if !h.contains_key("Content-Length"@) {
        Err(BodyError::MissingLength)
    } else {
        match parse_radix(h["Content-Length"@], 10) {
            Some(n) => Ok(BodyPlan::Length(n)),
            None => Err(BodyError::BadLength),
        }
    }
}

/// How the body is read after the header fields `headers`, or why it cannot be.
fn plan(headers: &HeaderMap, strict: bool) -> (r: Result<BodyPlan, BodyError>)
    ensures
        r == plan_for(headers@, strict),
{
    match headers.get("Transfer-Encoding") {
        Some(enc) => {
            if same_text(enc.as_str(), "chunked") {
                Ok(BodyPlan::Chunked)
            } else if strict {
                Err(BodyError::UnsupportedEncoding)
            } else {
                Ok(BodyPlan::Skip)
            }
        },
        None => match headers.get("Content-Length") {
            None => Err(BodyError::MissingLength),
            Some(len) => match parse_u64_radix(len.as_str(), 10) {
                Some(n) => Ok(BodyPlan::Length(n)),
                None => Err(BodyError::BadLength),
            },
        },
    }
}

/// Why the body of a response with the header fields `headers` cannot be
/// read, or `None` where it can.
pub fn body_problem(headers: &HeaderMap, strict: bool) -> (r: Option<BodyError>)
    ensures
        match plan_for(headers@, strict) {
            Ok(_) => r is None,
            Err(e) => r == Some(e),
        },
{
    match plan(headers, strict) {
        Ok(_) => None,
        Err(e) => Some(e),
    }
}

/// How to read the body of a response with the header fields `headers`.
pub fn body_plan(headers: &HeaderMap, strict: bool) -> (r: BodyPlan)
    requires
        plan_for(headers@, strict) is Ok,
    ensures
        plan_for(headers@, strict) == Ok::<BodyPlan, BodyError>(r),
{
    match plan(headers, strict) {
        Ok(p) => p,
        Err(_) => BodyPlan::Skip,
    }
}

/// What a chunk-size line announces: `None` for the last chunk (`0`),
/// otherwise the size of the chunk that follows.
pub open spec fn chunk_size_of(line: Seq<char>) -> Result<Option<u64>, BodyError> {
    let t = trim(line);
    if t == "0"@ {
        Ok(None)
    } else {
        match parse_radix(t, 16) {
            None => Err(BodyError::BadChunkSize),
            Some(n) => if n > u64::MAX - 2 {
                Err(BodyError::ChunkTooLarge)
            } else {
                Ok(Some(n))
            },
        }
    }
}

/// What the chunk-size line `line` announces, or why it cannot be read.
fn read_chunk_size(line: &str) -> (r: Result<Option<u64>, BodyError>)
    ensures
        r == chunk_size_of(line@),
{
    let t = trim_str(line);
    if same_text(t.as_str(), "0") {
        return Ok(None);
    }
    match parse_u64_radix(t.as_str(), 16) {
        None => Err(BodyError::BadChunkSize),
        Some(n) => if n > u64::MAX - 2 {
            Err(BodyError::ChunkTooLarge)
        } else {
            Ok(Some(n))
        },
    }
}

/// Why the chunk-size line `line` cannot be read, or `None` where it can.
pub fn chunk_size_problem(line: &str) -> (r: Option<BodyError>)
    ensures
        match chunk_size_of(line@) {
            Ok(_) => r is None,
            Err(e) => r == Some(e),
        },
{
    match read_chunk_size(line) {
        Ok(_) => None,
        Err(e) => Some(e),
    }
}

/// Reads a chunk-size line: `None` for the last chunk, else the size of the
/// chunk that follows.
pub fn chunk_size(line: &str) -> (r: Option<u64>)
    requires
        chunk_size_of(line@) is Ok,
    ensures
        chunk_size_of(line@) == Ok::<Option<u64>, BodyError>(r),
{
    match read_chunk_size(line) {
        Ok(r) => r,
        Err(_) => None,
    }
}

/// The data of a chunk read together with its line ending: all but the last
/// two bytes.
pub fn chunk_data(bytes: &[u8]) -> (r: Vec<u8>)
    requires
        bytes@.len() >= 2,
    ensures
        r@ == bytes@.take(bytes@.len() - 2),
{
    let n = bytes.len() - 2;
    let mut r: Vec<u8> = Vec::new();
    let mut i: usize = 0;
    while i < n
        invariant
            n == bytes@.len() - 2,
            i <= n,
            r@ == bytes@.take(i as int),
        decreases n - i,
    {
        r.push(bytes[i]);
        assert(bytes@.take(i + 1) =~= bytes@.take(i as int).push(bytes@[i as int]));
        i = i + 1;
    }
    r
}

/// What the client does after a response head.
#[derive(Debug, PartialEq, Eq)]
pub enum NextStep {
    /// Status 200: read and write the body.
    WriteBody,
    /// A redirect with a `Location`: ask again there.
    Redirect(String),
    /// A redirect without a `Location`: ask the same URL again.
    Retry,
}

/// A status that the client does not go on from.
#[derive(Debug, PartialEq, Eq)]
pub enum StatusError {
    /// The status line has fewer than two words.
    NoStatusCode,
    /// A status other than 200 and the redirects 300 to 303.
    Unexpected(String),
}

/// The status codes after which the client asks again.
pub open spec fn is_redirect(code: Seq<char>) -> bool {
    code == "300"@ || code == "301"@ || code == "302"@ || code == "303"@
}

/// Decides, from the status line and the header fields of a response, what the
/// client does next.
pub fn next_step(init_line: &str, headers: &HeaderMap) -> (r: Result<NextStep, StatusError>)
    ensures
        match status_word(init_line@) {
            None => r == Err::<NextStep, StatusError>(StatusError::NoStatusCode),
            Some(code) => if code == "200"@ {
                r == Ok::<NextStep, StatusError>(NextStep::WriteBody)
            } else if is_redirect(code) {
                if headers@.contains_key("Location"@) {
                    r matches Ok(NextStep::Redirect(loc)) && loc@ == headers@["Location"@]
                } else {
                    r == Ok::<NextStep, StatusError>(NextStep::Retry)
                }
            } else {
                r matches Err(StatusError::Unexpected(c)) && c@ == code
            },
        },
{
    let code = match status_code(init_line) {
        None => return Err(StatusError::NoStatusCode),
        Some(c) => c,
    };
    if same_text(code.as_str(), "200") {
        Ok(NextStep::WriteBody)
    } else if same_text(code.as_str(), "300") || same_text(code.as_str(), "301") || same_text(
        code.as_str(),
        "302",
    ) || same_text(code.as_str(), "303") {
        match headers.get("Location") {
            Some(loc) => Ok(NextStep::Redirect(loc.clone())),
            None => Ok(NextStep::Retry),
        }
    } else {
        Err(StatusError::Unexpected(code))
    }
}

/// The client follows exactly the codes `300`, `301`, `302` and `303`: three
/// characters, a `3`, a `0` and a last digit from `0` to `3`. So `200` and
/// every other code are no redirect.
pub proof fn law_redirect_codes(code: Seq<char>)
    ensures
        is_redirect(code) == (code.len() == 3 && code[0] == '3' && code[1] == '0' && '0' <= code[2]
            <= '3'),
        is_redirect("300"@) && is_redirect("301"@) && is_redirect("302"@) && is_redirect("303"@),
        !is_redirect("200"@),
{
    reveal_strlit("300");
    reveal_strlit("301");
    reveal_strlit("302");
    reveal_strlit("303");
    reveal_strlit("200");
    assert("200"@[0] != "300"@[0]);
    if code.len() == 3 && code[0] == '3' && code[1] == '0' && '0' <= code[2] <= '3' {
        if code[2] == '0' {
            assert(code =~= "300"@);
        } else if code[2] == '1' {
            assert(code =~= "301"@);
        } else if code[2] == '2' {
            assert(code =~= "302"@);
        } else {
            assert(code =~= "303"@);
        }
    }
}

/// How the body is read, case by case: a `chunked` transfer encoding is read
/// in chunks whether or not other encodings are refused; another encoding is
/// refused when `strict` and skipped otherwise; without a transfer encoding, a
/// `Content-Length` that reads as a decimal number gives that many bytes, one
/// that does not is a bad length, and none at all is a missing length.
pub proof fn law_plan_cases(h: Map<Seq<char>, Seq<char>>, strict: bool)
    ensures
        h.contains_key("Transfer-Encoding"@) && h["Transfer-Encoding"@] == "chunked"@ ==> plan_for(
            h,
            strict,
        ) == Ok::<BodyPlan, BodyError>(BodyPlan::Chunked),
        h.contains_key("Transfer-Encoding"@) && h["Transfer-Encoding"@] != "chunked"@ && strict
            ==> plan_for(h, strict) == Err::<BodyPlan, BodyError>(BodyError::UnsupportedEncoding),
        h.contains_key("Transfer-Encoding"@) && h["Transfer-Encoding"@] != "chunked"@ && !strict
            ==> plan_for(h, strict) == Ok::<BodyPlan, BodyError>(BodyPlan::Skip),
        !h.contains_key("Transfer-Encoding"@) && !h.contains_key("Content-Length"@) ==> plan_for(
            h,
            strict,
        ) == Err::<BodyPlan, BodyError>(BodyError::MissingLength),
        !h.contains_key("Transfer-Encoding"@) && h.contains_key("Content-Length"@) ==> plan_for(
            h,
            strict,
        ) == match parse_radix(h["Content-Length"@], 10) {
            Some(n) => Ok::<BodyPlan, BodyError>(BodyPlan::Length(n)),
            None => Err::<BodyPlan, BodyError>(BodyError::BadLength),
        },
{
}

/// The strict reader refuses more than the lenient one and reads alike
/// otherwise: where it accepts a head, the lenient reader plans the same, and
/// the lenient reader never refuses an encoding.
pub proof fn law_strict_is_narrower(h: Map<Seq<char>, Seq<char>>)
    ensures
        plan_for(h, true) is Ok ==> plan_for(h, false) == plan_for(h, true),
        plan_for(h, false) != Err::<BodyPlan, BodyError>(BodyError::UnsupportedEncoding),
        plan_for(h, true) != Ok::<BodyPlan, BodyError>(BodyPlan::Skip),
{
}

/// What reading the lines in order does to the head, up to the first error.
pub open spec fn feed_all(m: HeadModel, skip_continue: bool, lines: Seq<Seq<char>>) -> Result<
    HeadModel,
    HeadError,
>
    decreases lines.len(),
{
    if lines.len() == 0 {
        Ok(m)
    } else {
        match head_step(m, skip_continue, lines[0]) {
            Ok(m2) => feed_all(m2, skip_continue, lines.drop_first()),
            Err(e) => Err(e),
        }
    }
}

/// The header fields after inserting, in order, the name and value of each
/// line.
pub open spec fn insert_fields(h: Map<Seq<char>, Seq<char>>, lines: Seq<Seq<char>>) -> Map<
    Seq<char>,
    Seq<char>,
>
    decreases lines.len(),
{
    if lines.len() == 0 {
        h
    } else {
        match header_field(lines[0]) {
            Some((n, v)) => insert_fields(h.insert(n, v), lines.drop_first()),
            None => h,
        }
    }
}

/// Every line is a header line: it has a colon, so it is not the blank line.
pub open spec fn all_fields(lines: Seq<Seq<char>>) -> bool {
    forall|i: int| 0 <= i < lines.len() ==> (#[trigger] header_field(lines[i])) is Some
}

pub proof fn lemma_fields_fold(m: HeadModel, skip_continue: bool, fields: Seq<Seq<char>>)
    requires
        m.phase == HeadPhase::Fields,
        all_fields(fields),
    ensures
        feed_all(m, skip_continue, fields.push("\r\n"@)) == Ok::<HeadModel, HeadError>(
            HeadModel {
                init_line: m.init_line,
                headers: insert_fields(m.headers, fields),
                phase: HeadPhase::Done,
            },
        ),
    decreases fields.len(),
{
    let lines = fields.push("\r\n"@);
    if fields.len() == 0 {
        assert(lines =~= seq!["\r\n"@]);
        assert(lines.drop_first().len() == 0);
        let m2 = HeadModel { phase: HeadPhase::Done, ..m };
        assert(head_step(m, skip_continue, lines[0]) == Ok::<HeadModel, HeadError>(m2));
        assert(feed_all(m2, skip_continue, lines.drop_first()) == Ok::<HeadModel, HeadError>(m2));
    } else {
        let f = fields[0];
        assert(header_field(f) is Some);
        assert(f != "\r\n"@) by {
            reveal_strlit("\r\n");
            if f == "\r\n"@ {
                lemma_find_seq_props(f, seq![':']);
                let i = header_field(f)->Some_0;
                let k = find_seq(f, seq![':'])->Some_0;
                assert(f.subrange(k as int, k + 1 as int) =~= seq![f[k as int]]);
                assert(occurs_at(f, seq![':'], k as int));
                assert(f.subrange(k as int, k + 1 as int)[0] == ':');
            }
        }
        let (n, v) = header_field(f)->Some_0;
        let m2 = HeadModel { headers: m.headers.insert(n, v), ..m };
        assert(lines[0] == f);
        assert(lines.drop_first() =~= fields.drop_first().push("\r\n"@));
        assert(all_fields(fields.drop_first())) by {
            assert forall|i: int| 0 <= i < fields.drop_first().len() implies (#[trigger] header_field(
                fields.drop_first()[i],
            )) is Some by {
                assert(fields.drop_first()[i] == fields[i + 1]);
            }
        }
        lemma_fields_fold(m2, skip_continue, fields.drop_first());
        assert(head_step(m, skip_continue, lines[0]) == Ok::<HeadModel, HeadError>(m2));
        assert(insert_fields(m.headers, fields) == insert_fields(m2.headers, fields.drop_first()));
    }
}

/// A response head made of a status line, header lines and the blank line
/// ends with the status line kept and the fields of the header lines
/// inserted in order, the last value of a name winning.
pub proof fn law_head_fold(status: Seq<char>, fields: Seq<Seq<char>>)
    requires
        all_fields(fields),
    ensures
        feed_all(
            HeadModel { init_line: Seq::empty(), headers: Map::empty(), phase: HeadPhase::Status },
            false,
            seq![status] + fields.push("\r\n"@),
        ) == Ok::<HeadModel, HeadError>(
            HeadModel {
                init_line: status,
                headers: insert_fields(Map::empty(), fields),
                phase: HeadPhase::Done,
            },
        ),
{
    let m0 = HeadModel { init_line: Seq::empty(), headers: Map::empty(), phase: HeadPhase::Status };
    let lines = seq![status] + fields.push("\r\n"@);
    assert(lines[0] == status);
    assert(lines.drop_first() =~= fields.push("\r\n"@));
    let m1 = HeadModel { init_line: status, phase: HeadPhase::Fields, ..m0 };
    lemma_fields_fold(m1, false, fields);
}

/// With the `100` check on, a head whose status line has a second word other
/// than `100`, then header lines and the blank line, ends with that status
/// line kept and the fields inserted in order, the last value of a name
/// winning.
pub proof fn law_head_fold_checked(status: Seq<char>, fields: Seq<Seq<char>>)
    requires
        all_fields(fields),
        status_word(status) matches Some(c) && c != "100"@,
    ensures
        feed_all(
            HeadModel { init_line: Seq::empty(), headers: Map::empty(), phase: HeadPhase::Status },
            true,
            seq![status] + fields.push("\r\n"@),
        ) == Ok::<HeadModel, HeadError>(
            HeadModel {
                init_line: status,
                headers: insert_fields(Map::empty(), fields),
                phase: HeadPhase::Done,
            },
        ),
{
    let m0 = HeadModel { init_line: Seq::empty(), headers: Map::empty(), phase: HeadPhase::Status };
    let lines = seq![status] + fields.push("\r\n"@);
    assert(lines[0] == status);
    assert(lines.drop_first() =~= fields.push("\r\n"@));
    let m1 = HeadModel { init_line: status, phase: HeadPhase::Fields, ..m0 };
    assert(head_step(m0, true, status) == Ok::<HeadModel, HeadError>(m1));
    lemma_fields_fold(m1, true, fields);
}

/// With the `100` check on, a head whose status line has `100` as its second
/// word takes the next line as its status line and drops the one after it;
/// then header lines and the blank line are read as in any head.
pub proof fn law_head_fold_continue(
    status: Seq<char>,
    next: Seq<char>,
    skipped: Seq<char>,
    fields: Seq<Seq<char>>,
)
    requires
        all_fields(fields),
        status_word(status) == Some("100"@),
    ensures
        feed_all(
            HeadModel { init_line: Seq::empty(), headers: Map::empty(), phase: HeadPhase::Status },
            true,
            seq![status, next, skipped] + fields.push("\r\n"@),
        ) == Ok::<HeadModel, HeadError>(
            HeadModel {
                init_line: next,
                headers: insert_fields(Map::empty(), fields),
                phase: HeadPhase::Done,
            },
        ),
{
    let m0 = HeadModel { init_line: Seq::empty(), headers: Map::empty(), phase: HeadPhase::Status };
    let l0 = seq![status, next, skipped] + fields.push("\r\n"@);
    let l1 = l0.drop_first();
    let l2 = l1.drop_first();
    let l3 = l2.drop_first();
    assert(l0[0] == status);
    assert(l1[0] == next);
    assert(l2[0] == skipped);
    assert(l3 =~= fields.push("\r\n"@));
    let m1 = HeadModel { init_line: status, phase: HeadPhase::ContinueStatus, ..m0 };
    let m2 = HeadModel { init_line: next, phase: HeadPhase::SkipLine, ..m0 };
    let m3 = HeadModel { init_line: next, phase: HeadPhase::Fields, ..m0 };
    assert(head_step(m0, true, status) == Ok::<HeadModel, HeadError>(m1));
    assert(head_step(m1, true, next) == Ok::<HeadModel, HeadError>(m2));
    assert(head_step(m2, true, skipped) == Ok::<HeadModel, HeadError>(m3));
    lemma_fields_fold(m3, true, fields);
    assert(feed_all(m2, true, l2) == feed_all(m3, true, l3));
    assert(feed_all(m1, true, l1) == feed_all(m2, true, l2));
}

/// The header line in which a response gives the length `n` of its body.
pub open spec fn length_line(n: nat) -> Seq<char> {
    "Content-Length: "@ + decimal(n) + "\r\n"@
}

/// The client reads the length that a `Content-Length` line gives: the
/// line's field is `Content-Length` with the numeral as its value, and a head
/// whose fields hold that alone is read as a body of exactly that many bytes.
pub proof fn law_length_read_back(n: u64, strict: bool)
    ensures
        header_field(length_line(n as nat)) == Some(("Content-Length"@, decimal(n as nat))),
        plan_for(Map::empty().insert("Content-Length"@, decimal(n as nat)), strict) == Ok::<
            BodyPlan,
            BodyError,
        >(BodyPlan::Length(n)),
{
    reveal_strlit("Content-Length: ");
    reveal_strlit("Content-Length");
    reveal_strlit("Transfer-Encoding");
    reveal_strlit("\r\n");
    let d = decimal(n as nat);
    lemma_decimal_digits(n as nat);
    law_decimal_round_trip(n);
    let line = length_line(n as nat);
    let colon = seq![':'];
    assert(line.subrange(14, 15) =~= colon);
    assert forall|k: int| 0 <= k < 14 implies !occurs_at(line, colon, k) by {
        assert(line.subrange(k, k + 1)[0] == line[k]);
    }
    lemma_find_seq_first(line, colon, 14);
    let name = line.take(14);
    assert(name =~= "Content-Length"@);
    lemma_trim_frame(Seq::empty(), name, Seq::empty());
    assert(Seq::<char>::empty() + name + Seq::<char>::empty() =~= name);
    let after = line.skip(15);
    assert(after =~= seq![' '] + d + seq!['\r', '\n']);
    assert(all_ws(seq![' ']));
    assert(all_ws(seq!['\r', '\n']));
    lemma_trim_frame(seq![' '], d, seq!['\r', '\n']);
    assert("Transfer-Encoding"@.len() != "Content-Length"@.len());
}

/// The characters of ASCII bytes, one for each.
pub open spec fn ascii_text(b: Seq<u8>) -> Seq<char> {
    Seq::new(b.len(), |i: int| b[i] as char)
}

/// The bytes of ASCII characters, one for each.
pub open spec fn ascii_bytes(x: Seq<char>) -> Seq<u8> {
    Seq::new(x.len(), |i: int| x[i] as u8)
}

/// The length of the first line of `s`, with its line feed; all of `s` where
/// it has none.
pub open spec fn line_len(s: Seq<u8>) -> nat
    decreases s.len(),
{
    if s.len() == 0 {
        0
    } else if s[0] == 10u8 {
        1
    } else {
        1 + line_len(s.drop_first())
    }
}

/// The first line of a text is part of it, and not empty where the text is
/// not.
pub proof fn lemma_line_len_bounds(s: Seq<u8>)
    ensures
        line_len(s) <= s.len(),
        s.len() > 0 ==> line_len(s) >= 1,
    decreases s.len(),
{
    if s.len() > 0 && s[0] != 10u8 {
        lemma_line_len_bounds(s.drop_first());
    }
}

/// The data of a chunk read with its line ending, as `chunk_data` gives it.
pub open spec fn chunk_payload(b: Seq<u8>) -> Seq<u8> {
    b.take(b.len() - 2)
}

/// What the client writes of a chunked body `s`: it reads a line, takes its
/// size with `chunk_size` (stopping at `0`), reads that many bytes and the
/// line ending after them, and writes them without the line ending, by
/// `chunk_data`; `None` where a size line cannot be read or the body is cut
/// short.
pub open spec fn decode_chunked(s: Seq<u8>) -> Option<Seq<u8>>
    decreases s.len(),
{
    if s.len() == 0 {
        None
    } else {
        let k = line_len(s);
        proof {
            lemma_line_len_bounds(s);
        }
        match chunk_size_of(ascii_text(s.take(k as int))) {
            Err(_) => None,
            Ok(None) => Some(Seq::empty()),
            Ok(Some(n)) => {
                let after = s.skip(k as int);
                if after.len() < n + 2 {
                    None
                } else {
                    match decode_chunked(after.skip(n + 2)) {
                        Some(r) => Some(chunk_payload(after.take((n + 2) as int)) + r),
                        None => None,
                    }
                }
            },
        }
    }
}

/// `size` writes `n` in hexadecimal: it is a non-empty string of base-16
/// digits, in either case and perhaps with leading zeros, whose value is `n`.
pub open spec fn hex_size(size: Seq<char>, n: nat) -> bool {
    &&& size.len() > 0
    &&& forall|k: int| 0 <= k < size.len() ==> (#[trigger] digit_value(size[k], 16)) is Some
    &&& digits_value(size, 16) == Some(n)
}

/// The chunked encoding of `chunks` with the size lines `sizes`: each chunk
/// after the line with its size and followed by a line ending, then the line
/// `0`.
pub open spec fn encode_chunked(sizes: Seq<Seq<char>>, chunks: Seq<Seq<u8>>) -> Seq<u8>
    decreases chunks.len(),
{
    if chunks.len() == 0 {
        seq![48u8, 13u8, 10u8]
    } else {
        ascii_bytes(sizes[0]) + seq![13u8, 10u8] + chunks[0] + seq![13u8, 10u8]
            + encode_chunked(sizes.drop_first(), chunks.drop_first())
    }
}

/// The chunks, one after another.
pub open spec fn concat_chunks(chunks: Seq<Seq<u8>>) -> Seq<u8>
    decreases chunks.len(),
{
    if chunks.len() == 0 {
        Seq::empty()
    } else {
        chunks[0] + concat_chunks(chunks.drop_first())
    }
}

proof fn lemma_ascii_char(c: char)
    requires
        (c as u32) < 0x80,
    ensures
        ((c as u8) as char) == c,
{
}

proof fn lemma_line_len(x: Seq<u8>, more: Seq<u8>)
    requires
        forall|k: int| 0 <= k < x.len() ==> #[trigger] x[k] != 10u8,
    ensures
        line_len(x + seq![10u8] + more) == x.len() + 1,
    decreases x.len(),
{
    let s = x + seq![10u8] + more;
    if x.len() == 0 {
        assert(s[0] == 10u8);
    } else {
        assert(s[0] == x[0]);
        let t = x.drop_first();
        assert forall|k: int| 0 <= k < t.len() implies #[trigger] t[k] != 10u8 by {
            assert(t[k] == x[k + 1]);
        }
        lemma_line_len(t, more);
        assert(s.drop_first() =~= t + seq![10u8] + more);
    }
}

proof fn lemma_hex_char(c: char)
    requires
        digit_value(c, 16) is Some,
    ensures
        !is_ws(c),
        (c as u32) < 0x80,
        c != '\n',
        c != '+',
{
}

proof fn lemma_size_line(size: Seq<char>, n: nat, more: Seq<u8>)
    requires
        hex_size(size, n),
        0 < n <= u64::MAX - 2,
    ensures
        ({
            let s = ascii_bytes(size) + seq![13u8, 10u8] + more;
            let k = line_len(s);
            &&& k == size.len() + 2
            &&& chunk_size_of(ascii_text(s.take(k as int))) == Ok::<Option<u64>, BodyError>(
                Some(n as u64),
            )
        }),
{
    let h = size;
    assert forall|k: int| 0 <= k < h.len() implies !is_ws(#[trigger] h[k]) && (h[k] as u32)
        < 0x80 && h[k] != '\n' && h[k] != '+' by {
        assert(digit_value(h[k], 16) is Some);
        lemma_hex_char(h[k]);
    }
    let a = ascii_bytes(h);
    let x = a.push(13u8);
    assert forall|k: int| 0 <= k < x.len() implies #[trigger] x[k] != 10u8 by {
        if k < a.len() {
            assert(x[k] == a[k]);
            assert(a[k] == h[k] as u8);
            assert(!is_ws(h[k]) && (h[k] as u32) < 0x80 && h[k] != '\n');
            lemma_ascii_char(h[k]);
        }
    }
    let s = a + seq![13u8, 10u8] + more;
    assert(s =~= x + seq![10u8] + more);
    lemma_line_len(x, more);
    let line = ascii_text(s.take((h.len() + 2) as int));
    let crlf = seq!['\r', '\n'];
    assert(line =~= h + crlf) by {
        assert forall|k: int| 0 <= k < h.len() implies line[k] == h[k] by {
            assert(s[k] == a[k]);
            assert(a[k] == h[k] as u8);
            assert(!is_ws(h[k]) && (h[k] as u32) < 0x80);
            lemma_ascii_char(h[k]);
        }
    }
    assert(!is_ws(h[0]) && !is_ws(h.last()) && h[0] != '+');
    assert(all_ws(crlf));
    lemma_trim_frame(Seq::empty(), h, crlf);
    assert(Seq::<char>::empty() + h + crlf =~= h + crlf);
    reveal_strlit("0");
    assert("0"@ =~= seq!['0']);
    if h =~= seq!['0'] {
        assert(h.drop_last() =~= Seq::<char>::empty());
        assert(digits_value(Seq::<char>::empty(), 16) == Some(0nat));
        assert(digits_value(h, 16) == Some(0nat));
    }
}

proof fn lemma_last_line(more: Seq<u8>)
    ensures
        ({
            let s = seq![48u8, 13u8, 10u8] + more;
            chunk_size_of(ascii_text(s.take(line_len(s) as int))) == Ok::<Option<u64>, BodyError>(
                None,
            )
        }),
{
    let s = seq![48u8, 13u8, 10u8] + more;
    let x = seq![48u8, 13u8];
    assert(s =~= x + seq![10u8] + more);
    lemma_line_len(x, more);
    let line = ascii_text(s.take(3));
    let crlf = seq!['\r', '\n'];
    assert(line =~= seq!['0'] + crlf);
    assert(all_ws(crlf));
    lemma_trim_frame(Seq::empty(), seq!['0'], crlf);
    assert(Seq::<char>::empty() + seq!['0'] + crlf =~= seq!['0'] + crlf);
    reveal_strlit("0");
    assert("0"@ =~= seq!['0']);
}

/// Chunked decoding undoes chunked encoding: where each size line writes
/// its chunk's length in hexadecimal, in either case, the client writes
/// exactly the chunks, one after another, whatever follows the last line.
pub proof fn law_chunked_round_trip(sizes: Seq<Seq<char>>, chunks: Seq<Seq<u8>>, trailer: Seq<u8>)
    requires
        sizes.len() == chunks.len(),
        forall|i: int|
            0 <= i < chunks.len() ==> 0 < (#[trigger] chunks[i]).len() <= u64::MAX - 2 && hex_size(
                sizes[i],
                chunks[i].len(),
            ),
    ensures
        decode_chunked(encode_chunked(sizes, chunks) + trailer) == Some(concat_chunks(chunks)),
    decreases chunks.len(),
{
    let s = encode_chunked(sizes, chunks) + trailer;
    if chunks.len() == 0 {
        lemma_last_line(trailer);
    } else {
        let c = chunks[0];
        let n = c.len();
        let tail = chunks.drop_first();
        let stail = sizes.drop_first();
        assert(0 < chunks[0].len() <= u64::MAX - 2 && hex_size(sizes[0], chunks[0].len()));
        let rest = encode_chunked(stail, tail) + trailer;
        let more = c + seq![13u8, 10u8] + rest;
        assert(s =~= ascii_bytes(sizes[0]) + seq![13u8, 10u8] + more);
        lemma_size_line(sizes[0], n, more);
        let k = line_len(s);
        let after = s.skip(k as int);
        assert(after =~= more);
        assert(after.take((n + 2) as int) =~= c + seq![13u8, 10u8]);
        assert(chunk_payload(after.take((n + 2) as int)) =~= c);
        assert(after.skip((n + 2) as int) =~= rest);
        assert forall|i: int| 0 <= i < tail.len() implies 0 < (#[trigger] tail[i]).len() <= u64::MAX
            - 2 && hex_size(stail[i], tail[i].len()) by {
            assert(tail[i] == chunks[i + 1]);
            assert(stail[i] == sizes[i + 1]);
        }
        law_chunked_round_trip(stail, tail, trailer);
    }
}

} // verus!
