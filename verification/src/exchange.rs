//! What the client sends and what the server makes of it.
use vstd::prelude::*;
use vstd::utf8::{decode_utf8, encode_utf8, encode_utf8_decode_utf8, encode_utf8_valid_utf8, valid_utf8};
use crate::client::{
    all_fields,
    feed_all,
    head_step,
    header_field,
    insert_fields,
    lemma_fields_fold,
    plan_for,
    request_text,
    BodyError,
    BodyPlan,
    HeadError,
    HeadModel,
    HeadPhase,
};
use crate::server::{ok_head_text, route_for, strip_first, RouteView};
use crate::request::{
    crlf,
    empty_header,
    parse_fields,
    parse_request,
    request_type_of,
    tag_update,
    unmodified_since_name,
    HeaderView,
    RequestType,
};
use crate::text::{
    all_ws,
    decimal,
    law_decimal_round_trip,
    lemma_decimal_digits,
    find_seq,
    is_ws,
    joined,
    lemma_find_seq_first,
    lemma_trim_frame,
    lemma_words_end,
    lemma_words_step,
    no_ws,
    occurs_at,
    replace_all,
    trim,
    words,
};

verus! {

/// No character of `s` is `c`.
pub open spec fn lacks(s: Seq<char>, c: char) -> bool {
    forall|k: int| 0 <= k < s.len() ==> #[trigger] s[k] != c
}

proof fn lemma_line_end(pre: Seq<char>, rest: Seq<char>)
    requires
        lacks(pre, '\r'),
    ensures
        find_seq(pre + crlf() + rest, crlf()) == Some(pre.len()),
{
    let s = pre + crlf() + rest;
    assert(s.subrange(pre.len() as int, pre.len() + 2 as int) =~= crlf());
    assert forall|k: int| 0 <= k < pre.len() implies !occurs_at(s, crlf(), k) by {
        if occurs_at(s, crlf(), k) {
            assert(s.subrange(k, k + 2)[0] == s[k]);
            assert(s[k] == pre[k]);
        }
    }
    lemma_find_seq_first(s, crlf(), pre.len() as int);
}

proof fn lemma_trim_id(x: Seq<char>)
    requires
        x.len() > 0,
        !is_ws(x[0]),
        !is_ws(x.last()),
    ensures
        trim(x) == x,
{
    lemma_trim_frame(Seq::empty(), x, Seq::empty());
    assert(Seq::<char>::empty() + x + Seq::<char>::empty() =~= x);
}

proof fn lemma_field_line(h: HeaderView, pre: Seq<char>, rest: Seq<char>)
    requires
        lacks(pre, '\r'),
        pre.len() > 0,
        !is_ws(pre[0]),
        !is_ws(pre.last()),
    ensures
        parse_fields(h, pre + crlf() + rest) == (match tag_update(h, pre).1 {
            Err(e) => (tag_update(h, pre).0, Err(e)),
            Ok(_) => parse_fields(tag_update(h, pre).0, rest),
        }),
{
    lemma_line_end(pre, rest);
    let s = pre + crlf() + rest;
    assert(s.take(pre.len() + 2 as int) =~= pre + crlf());
    assert(all_ws(crlf()));
    lemma_trim_frame(Seq::empty(), pre, crlf());
    assert(Seq::<char>::empty() + pre + crlf() =~= pre + crlf());
    assert(s.skip(pre.len() + 2 as int) =~= rest);
}

proof fn lemma_colon_split(name: Seq<char>, value: Seq<char>)
    requires
        lacks(name, ':'),
        name.len() > 0,
        !is_ws(name[0]),
        !is_ws(name.last()),
        value.len() > 0,
        !is_ws(value[0]),
        !is_ws(value.last()),
    ensures
        find_seq(name + seq![':', ' '] + value, seq![':']) == Some(name.len()),
        trim((name + seq![':', ' '] + value).take(name.len() as int)) == name,
        trim((name + seq![':', ' '] + value).skip(name.len() + 1 as int)) == value,
{
    let s = name + seq![':', ' '] + value;
    let colon = seq![':'];
    assert(s.subrange(name.len() as int, name.len() + 1 as int) =~= colon);
    assert forall|k: int| 0 <= k < name.len() implies !occurs_at(s, colon, k) by {
        if occurs_at(s, colon, k) {
            assert(s.subrange(k, k + 1)[0] == s[k]);
            assert(s[k] == name[k]);
        }
    }
    lemma_find_seq_first(s, colon, name.len() as int);
    assert(s.take(name.len() as int) =~= name);
    lemma_trim_id(name);
    assert(s.skip(name.len() + 1 as int) =~= seq![' '] + value + Seq::<char>::empty());
    assert(all_ws(seq![' ']));
    lemma_trim_frame(seq![' '], value, Seq::empty());
}

/// The characters of `HTTP/1.1`.
spec fn http11() -> Seq<char> {
    seq!['H', 'T', 'T', 'P', '/', '1', '.', '1']
}

proof fn lemma_request_line(file: Seq<char>)
    requires
        file.len() > 0,
        no_ws(file),
    ensures
        ({
            let pre = seq!['G', 'E', 'T', ' '] + file + seq![' '] + http11();
            init_line_update_ok(pre, file)
        }),
{
    reveal_strlit("GET");
    reveal_strlit("HTTP");
    reveal_strlit("1.1");
    let g3 = seq!['G', 'E', 'T'];
    let v = http11();
    let f = file.len() as int;
    let pre = seq!['G', 'E', 'T', ' '] + file + seq![' '] + v;
    assert(pre.skip(0) =~= pre);
    assert forall|k: int| 0 <= k < 3 implies !is_ws(#[trigger] pre[k]) by {
        assert(pre[k] == g3[k]);
    }
    assert(pre[3] == ' ');
    assert forall|k: int| 4 <= k < 4 + f implies !is_ws(#[trigger] pre[k]) by {
        assert(pre[k] == file[k - 4]);
    }
    assert(pre[4 + f] == ' ');
    assert forall|k: int| 5 + f <= k < 13 + f implies !is_ws(#[trigger] pre[k]) by {
        assert(pre[k] == v[k - 5 - f]);
    }
    lemma_words_step(pre, 0, 0, 3);
    lemma_words_step(pre, 3, 4, 4 + f);
    lemma_words_step(pre, 4 + f, 5 + f, 13 + f);
    lemma_words_end(pre, 13 + f);
    assert(pre.subrange(0, 3) =~= g3);
    assert(pre.subrange(4, 4 + f) =~= file);
    assert(pre.subrange(5 + f, 13 + f) =~= v);
    assert(words(pre) =~= seq![g3, file, v]);
    lemma_trim_id(g3);
    lemma_trim_id(file);
    lemma_trim_id(v);
    assert(g3 =~= "GET"@);
    let slash = seq!['/'];
    assert(v.subrange(4, 5) =~= slash);
    assert forall|k: int| 0 <= k < 4 implies !occurs_at(v, slash, k) by {
        assert(v.subrange(k, k + 1)[0] == v[k]);
    }
    lemma_find_seq_first(v, slash, 4);
    assert(v.take(4) =~= "HTTP"@);
    assert(v.skip(5) =~= "1.1"@);
    lemma_trim_id("HTTP"@);
    lemma_trim_id("1.1"@);
}

/// The request line `pre` names the method GET, the path `file` and HTTP 1.1.
spec fn init_line_update_ok(pre: Seq<char>, file: Seq<char>) -> bool {
    let (h, r) = crate::request::init_line_update(empty_header(), pre);
    &&& r == Ok::<Seq<char>, Seq<char>>("OK"@)
    &&& h == HeaderView {
        file_path: Some(file),
        req_type: Some(RequestType::GET),
        protocol: Some("HTTP"@),
        protocol_ver: Some("1.1"@),
        ..empty_header()
    }
}

/// The server reads the request that the client sends for `file` on `host`
/// as a GET of that path over HTTP 1.1 with that host, asking to close the
/// connection, where neither the host nor the path is empty or holds white
/// space.
#[verifier::rlimit(40)]
pub proof fn law_server_reads_client_request(host: Seq<char>, file: Seq<char>)
    requires
        host.len() > 0,
        file.len() > 0,
        no_ws(host),
        no_ws(file),
    ensures
        ({
            let (h, r) = parse_request(empty_header(), encode_utf8(request_text(host, file)));
            &&& r == Ok::<(), Seq<char>>(())
            &&& h == HeaderView {
                file_path: Some(file),
                req_type: Some(RequestType::GET),
                protocol: Some("HTTP"@),
                protocol_ver: Some("1.1"@),
                host: Some(host),
                connection: Some("close"@),
                ..empty_header()
            }
        }),
{
    let text = request_text(host, file);
    encode_utf8_valid_utf8(text);
    encode_utf8_decode_utf8(text);
    reveal_strlit("GET ");
    reveal_strlit(" HTTP/1.1\r\nHost: ");
    reveal_strlit("\r\nConnection: close\r\nUser-Agent: SillyGoose/0.1\r\n\r\n");
    reveal_strlit("Host");
    reveal_strlit("Connection");
    reveal_strlit("close");
    reveal_strlit("If-Modified-Since");
    reveal_strlit("If-Content-Length: 14\rUnmodified-Since");
    let pre = seq!['G', 'E', 'T', ' '] + file + seq![' '] + http11();
    let hname = seq!['H', 'o', 's', 't'];
    let cname = seq!['C', 'o', 'n', 'n', 'e', 'c', 't', 'i', 'o', 'n'];
    let close = seq!['c', 'l', 'o', 's', 'e'];
    let uname = seq!['U', 's', 'e', 'r', '-', 'A', 'g', 'e', 'n', 't'];
    let agent = seq!['S', 'i', 'l', 'l', 'y', 'G', 'o', 'o', 's', 'e', '/', '0', '.', '1'];
    let sep = seq![':', ' '];
    let host_line = hname + sep + host;
    let conn_line = cname + sep + close;
    let ua_line = uname + sep + agent;
    let rest3 = ua_line + crlf() + crlf();
    let rest2 = conn_line + crlf() + rest3;
    let rest1 = host_line + crlf() + rest2;
    assert(text =~= pre + crlf() + rest1);
    // The request line.
    assert forall|k: int| 0 <= k < pre.len() implies #[trigger] pre[k] != '\r' by {
        if 4 <= k < 4 + file.len() {
            assert(pre[k] == file[k - 4]);
        }
    }
    lemma_line_end(pre, rest1);
    assert(text.take(pre.len() + 2 as int) =~= pre + crlf());
    assert(text.skip(pre.len() + 2 as int) =~= rest1);
    assert(all_ws(crlf()));
    assert(pre.last() == '1');
    lemma_trim_frame(Seq::empty(), pre, crlf());
    assert(Seq::<char>::empty() + pre + crlf() =~= pre + crlf());
    lemma_request_line(file);
    let h1 = crate::request::init_line_update(empty_header(), pre).0;
    // The Host line.
    assert forall|k: int| 0 <= k < host_line.len() implies #[trigger] host_line[k] != '\r' by {
        if 6 <= k {
            assert(host_line[k] == host[k - 6]);
        }
    }
    assert forall|k: int| 0 <= k < hname.len() implies #[trigger] hname[k] != ':' by {}
    assert(host_line.last() == host.last());
    lemma_field_line(h1, host_line, rest2);
    lemma_colon_split(hname, host);
    assert(hname =~= "Host"@);
    assert(hname != "Connection"@);
    let h2 = HeaderView { host: Some(host), ..h1 };
    assert(tag_update(h1, host_line) == (h2, Ok::<Seq<char>, Seq<char>>("OK"@)));
    // The Connection line.
    assert forall|k: int| 0 <= k < conn_line.len() implies #[trigger] conn_line[k] != '\r' by {}
    assert forall|k: int| 0 <= k < cname.len() implies #[trigger] cname[k] != ':' by {}
    lemma_field_line(h2, conn_line, rest3);
    lemma_colon_split(cname, close);
    assert(cname =~= "Connection"@);
    assert(close =~= "close"@);
    let h3 = HeaderView { connection: Some(close), ..h2 };
    assert(tag_update(h2, conn_line) == (h3, Ok::<Seq<char>, Seq<char>>("OK"@)));
    // The User-Agent line.
    assert forall|k: int| 0 <= k < ua_line.len() implies #[trigger] ua_line[k] != '\r' by {}
    assert forall|k: int| 0 <= k < uname.len() implies #[trigger] uname[k] != ':' by {}
    lemma_field_line(h3, ua_line, crlf());
    lemma_colon_split(uname, agent);
    assert(uname[0] != "Connection"@[0]);
    assert(uname.len() != "Host"@.len());
    assert(uname.len() != "If-Modified-Since"@.len());
    assert(uname.len() != unmodified_since_name().len());
    assert(tag_update(h3, ua_line).0 == h3);
    assert(tag_update(h3, ua_line).1 is Ok);
    // The blank line.
    assert(crlf().subrange(0, 2) =~= crlf());
    lemma_find_seq_first(crlf(), crlf(), 0);
    assert(parse_fields(h3, crlf()) == (h3, Ok::<(), Seq<char>>(())));
}

/// The server answers the client's request for `file` on `host` with the
/// file at that path, without its leading `/` and with each `%20` read as a
/// space; where the path's first character is not one byte long it gives up.
pub proof fn law_server_serves_client_request(host: Seq<char>, file: Seq<char>)
    requires
        host.len() > 0,
        file.len() > 0,
        no_ws(host),
        no_ws(file),
    ensures
        ({
            let h = parse_request(empty_header(), encode_utf8(request_text(host, file))).0;
            route_for(encode_utf8(request_text(host, file))) == match strip_first(
                replace_all(file, "%20"@, " "@),
            ) {
                Some(rel) => RouteView::Serve(h, rel),
                None => RouteView::Abort,
            }
        }),
{
    law_server_reads_client_request(host, file);
}

/// The lines of the head that the server sends before a file of `len`
/// bytes of `content_type`, dated `date`, each with its line ending.
pub open spec fn ok_head_lines(content_type: Seq<char>, date: Seq<char>, len: nat) -> Seq<Seq<char>> {
    seq![
        "HTTP/1.1 200 OK"@ + crlf(),
        "Content-type"@ + seq![':', ' '] + content_type + crlf(),
        "Connection"@ + seq![':', ' '] + "close"@ + crlf(),
        "Date"@ + seq![':', ' '] + date + crlf(),
        "Content-Length"@ + seq![':', ' '] + decimal(len) + crlf(),
        crlf(),
    ]
}

proof fn lemma_header_name(name: Seq<char>, rest: Seq<char>)
    requires
        lacks(name, ':'),
        name.len() > 0,
        !is_ws(name[0]),
        !is_ws(name.last()),
    ensures
        header_field(name + seq![':'] + rest) == Some((name, trim(rest))),
{
    let s = name + seq![':'] + rest;
    let colon = seq![':'];
    assert(s.subrange(name.len() as int, name.len() + 1 as int) =~= colon);
    assert forall|k: int| 0 <= k < name.len() implies !occurs_at(s, colon, k) by {
        if occurs_at(s, colon, k) {
            assert(s.subrange(k, k + 1)[0] == s[k]);
            assert(s[k] == name[k]);
        }
    }
    lemma_find_seq_first(s, colon, name.len() as int);
    assert(s.take(name.len() as int) =~= name);
    lemma_trim_id(name);
    assert(s.skip(name.len() + 1 as int) =~= rest);
}

proof fn lemma_joined_cons(a: Seq<char>, rest: Seq<Seq<char>>)
    ensures
        joined(seq![a] + rest) == a + joined(rest),
{
    assert((seq![a] + rest).drop_first() =~= rest);
    assert((seq![a] + rest)[0] == a);
}

proof fn lemma_ok_head_text(content_type: Seq<char>, date: Seq<char>, n: nat)
    ensures
        joined(ok_head_lines(content_type, date, n)) == ok_head_text(content_type, date, n),
{
    reveal_strlit("HTTP/1.1 200 OK");
    reveal_strlit("Content-type");
    reveal_strlit("Connection");
    reveal_strlit("close");
    reveal_strlit("Date");
    reveal_strlit("Content-Length");
    reveal_strlit("HTTP/1.1 200 OK\r\nContent-type: ");
    reveal_strlit("\r\nConnection: close\r\nDate: ");
    reveal_strlit("\r\nContent-Length: ");
    reveal_strlit("\r\n\r\n");
    let l = ok_head_lines(content_type, date, n);
    let e = Seq::<Seq<char>>::empty();
    lemma_joined_cons(l[5], e);
    lemma_joined_cons(l[4], seq![l[5]]);
    lemma_joined_cons(l[3], seq![l[4], l[5]]);
    lemma_joined_cons(l[2], seq![l[3], l[4], l[5]]);
    lemma_joined_cons(l[1], seq![l[2], l[3], l[4], l[5]]);
    lemma_joined_cons(l[0], seq![l[1], l[2], l[3], l[4], l[5]]);
    assert(seq![l[5]] + e =~= seq![l[5]]);
    assert(seq![l[4]] + seq![l[5]] =~= seq![l[4], l[5]]);
    assert(seq![l[3]] + seq![l[4], l[5]] =~= seq![l[3], l[4], l[5]]);
    assert(seq![l[2]] + seq![l[3], l[4], l[5]] =~= seq![l[2], l[3], l[4], l[5]]);
    assert(seq![l[1]] + seq![l[2], l[3], l[4], l[5]] =~= seq![l[1], l[2], l[3], l[4], l[5]]);
    assert(seq![l[0]] + seq![l[1], l[2], l[3], l[4], l[5]] =~= l);
    assert(joined(l) =~= ok_head_text(content_type, date, n));
}

proof fn lemma_ok_head_line_ends(content_type: Seq<char>, date: Seq<char>, n: nat)
    requires
        lacks(content_type, '\n'),
        lacks(date, '\n'),
    ensures
        forall|i: int|
            0 <= i < 6 ==> {
                let l = #[trigger] ok_head_lines(content_type, date, n)[i];
                l.len() > 0 && l.last() == '\n' && lacks(l.drop_last(), '\n')
            },
{
    reveal_strlit("HTTP/1.1 200 OK");
    reveal_strlit("Content-type");
    reveal_strlit("Connection");
    reveal_strlit("close");
    reveal_strlit("Date");
    reveal_strlit("Content-Length");
    let d = decimal(n);
    lemma_decimal_digits(n);
    let lines = ok_head_lines(content_type, date, n);
    assert forall|i: int| 0 <= i < 6 implies {
        let l = #[trigger] lines[i];
        l.len() > 0 && l.last() == '\n' && lacks(l.drop_last(), '\n')
    } by {
        let l = lines[i];
        assert forall|k: int| 0 <= k < l.drop_last().len() implies #[trigger] l.drop_last()[k]
            != '\n' by {
            if i == 1 && 14 <= k < 14 + content_type.len() {
                assert(l.drop_last()[k] == content_type[k - 14]);
            }
            if i == 3 && 6 <= k < 6 + date.len() {
                assert(l.drop_last()[k] == date[k - 6]);
            }
            if i == 4 && 16 <= k < 16 + d.len() {
                assert(l.drop_last()[k] == d[k - 16]);
                assert(!is_ws(d[k - 16]));
            }
        }
    }
}

proof fn lemma_ok_status(skip_continue: bool)
    ensures
        head_step(
            HeadModel { init_line: Seq::empty(), headers: Map::empty(), phase: HeadPhase::Status },
            skip_continue,
            "HTTP/1.1 200 OK"@ + crlf(),
        ) == Ok::<HeadModel, HeadError>(
            HeadModel {
                init_line: "HTTP/1.1 200 OK"@ + crlf(),
                headers: Map::empty(),
                phase: HeadPhase::Fields,
            },
        ),
{
    reveal_strlit("HTTP/1.1 200 OK");
    reveal_strlit("100");
    let text = "HTTP/1.1 200 OK"@ + crlf();
    assert forall|k: int| 0 <= k < 8 implies !is_ws(#[trigger] text[k]) by {}
    assert forall|k: int| 9 <= k < 12 implies !is_ws(#[trigger] text[k]) by {}
    assert forall|k: int| 13 <= k < 15 implies !is_ws(#[trigger] text[k]) by {}
    assert forall|k: int| 15 <= k < 17 implies is_ws(#[trigger] text[k]) by {}
    assert(text.skip(0) =~= text);
    lemma_words_step(text, 0, 0, 8);
    lemma_words_step(text, 8, 9, 12);
    lemma_words_step(text, 12, 13, 15);
    lemma_words_end(text, 15);
    assert(words(text)[1] =~= text.subrange(9, 12));
    assert(text.subrange(9, 12)[0] != "100"@[0]);
}

proof fn lemma_ok_fields(content_type: Seq<char>, date: Seq<char>, len: u64, strict: bool)
    ensures
        ({
            let l = ok_head_lines(content_type, date, len as nat);
            let fields = seq![l[1], l[2], l[3], l[4]];
            &&& all_fields(fields)
            &&& plan_for(insert_fields(Map::empty(), fields), strict) == Ok::<BodyPlan, BodyError>(
                BodyPlan::Length(len),
            )
        }),
{
    reveal_strlit("Content-type");
    reveal_strlit("Connection");
    reveal_strlit("close");
    reveal_strlit("Date");
    reveal_strlit("Content-Length");
    reveal_strlit("Transfer-Encoding");
    let n = len as nat;
    let d = decimal(n);
    lemma_decimal_digits(n);
    law_decimal_round_trip(len);
    let lines = ok_head_lines(content_type, date, n);
    let fields = seq![lines[1], lines[2], lines[3], lines[4]];
    let sp = seq![' '];
    assert(lines[1] =~= "Content-type"@ + seq![':'] + (sp + content_type + crlf()));
    assert(lines[2] =~= "Connection"@ + seq![':'] + (sp + "close"@ + crlf()));
    assert(lines[3] =~= "Date"@ + seq![':'] + (sp + date + crlf()));
    assert(lines[4] =~= "Content-Length"@ + seq![':'] + (sp + d + crlf()));
    lemma_header_name("Content-type"@, sp + content_type + crlf());
    lemma_header_name("Connection"@, sp + "close"@ + crlf());
    lemma_header_name("Date"@, sp + date + crlf());
    lemma_header_name("Content-Length"@, sp + d + crlf());
    assert(all_ws(sp));
    assert(all_ws(crlf()));
    lemma_trim_frame(sp, d, crlf());
    assert forall|i: int| 0 <= i < fields.len() implies (#[trigger] header_field(fields[i])) is Some by {
        assert(fields[i] == lines[i + 1]);
    }
    let f1 = fields.drop_first();
    let f2 = f1.drop_first();
    let f3 = f2.drop_first();
    let f4 = f3.drop_first();
    assert(f1 =~= seq![lines[2], lines[3], lines[4]]);
    assert(f2 =~= seq![lines[3], lines[4]]);
    assert(f3 =~= seq![lines[4]]);
    assert(f4.len() == 0);
    let h1 = Map::<Seq<char>, Seq<char>>::empty().insert("Content-type"@, trim(sp + content_type + crlf()));
    let h2 = h1.insert("Connection"@, trim(sp + "close"@ + crlf()));
    let h3 = h2.insert("Date"@, trim(sp + date + crlf()));
    let h4 = h3.insert("Content-Length"@, d);
    assert(insert_fields(h4, f4) == h4);
    assert(insert_fields(h3, f3) == insert_fields(h4, f4));
    assert(insert_fields(h2, f2) == insert_fields(h3, f3));
    assert(insert_fields(h1, f1) == insert_fields(h2, f2));
    assert(insert_fields(Map::empty(), fields) == insert_fields(h1, f1));
    let h = h4;
    assert(h.contains_key("Content-Length"@) && h["Content-Length"@] == d);
    assert("Transfer-Encoding"@.len() != "Content-type"@.len());
    assert("Transfer-Encoding"@.len() != "Connection"@.len());
    assert("Transfer-Encoding"@.len() != "Date"@.len());
    assert("Transfer-Encoding"@.len() != "Content-Length"@.len());
    assert(!h.contains_key("Transfer-Encoding"@));
}

/// A client reads the head that the server sends before a file of `len`
/// bytes as the head of a body of exactly `len` bytes: the head's text is
/// these lines one after another, each ends at its first line feed, and
/// reading them, whether or not a `100` status is looked for, ends the head
/// with a plan to read `len` bytes. The media type and the date hold no line
/// feed.
pub proof fn law_client_reads_server_length(
    content_type: Seq<char>,
    date: Seq<char>,
    len: u64,
    skip_continue: bool,
    strict: bool,
)
    requires
        lacks(content_type, '\n'),
        lacks(date, '\n'),
    ensures
        joined(ok_head_lines(content_type, date, len as nat)) == ok_head_text(
            content_type,
            date,
            len as nat,
        ),
        forall|i: int|
            0 <= i < 6 ==> {
                let l = #[trigger] ok_head_lines(content_type, date, len as nat)[i];
                l.len() > 0 && l.last() == '\n' && lacks(l.drop_last(), '\n')
            },
        feed_all(
            HeadModel { init_line: Seq::empty(), headers: Map::empty(), phase: HeadPhase::Status },
            skip_continue,
            ok_head_lines(content_type, date, len as nat),
        ) matches Ok(m) && m.phase == HeadPhase::Done && plan_for(m.headers, strict) == Ok::<
            BodyPlan,
            BodyError,
        >(BodyPlan::Length(len)),
{
    let n = len as nat;
    lemma_ok_head_text(content_type, date, n);
    lemma_ok_head_line_ends(content_type, date, n);
    lemma_ok_status(skip_continue);
    lemma_ok_fields(content_type, date, len, strict);
    let lines = ok_head_lines(content_type, date, n);
    let status = lines[0];
    let fields = seq![lines[1], lines[2], lines[3], lines[4]];
    let m1 = HeadModel { init_line: status, headers: Map::empty(), phase: HeadPhase::Fields };
    assert(lines.drop_first() =~= fields.push(crlf()));
    reveal_strlit("\r\n");
    assert(crlf() =~= "\r\n"@);
    lemma_fields_fold(m1, skip_continue, fields);
}

} // verus!
