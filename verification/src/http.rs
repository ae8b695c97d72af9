//! Parse an HTTP request or response sitting in a frame payload.
//!
//! Bodies are de-chunked when needed and decompressed for the common
//! encodings (gzip / deflate / br). Binary bodies come back as base64 so
//! callers don't get garbled strings.

use vstd::prelude::*;
use vstd::slice::slice_subrange;
use vstd::slice::slice_to_vec;

use crate::body;
use crate::bytes;
use crate::classify;
use crate::num;
use crate::strs;

verus! {

#[derive(Debug, Clone)]
pub struct HttpMessage {
    /// "request" or "response".
    pub kind: &'static str,
    /// Byte offset in the file where the message payload starts.
    pub offset: usize,
    pub raw_len: usize,
    pub http_version: Option<String>,
    pub method: Option<String>,
    pub path: Option<String>,
    pub query: Vec<(String, String)>,
    pub status: Option<u16>,
    pub reason: Option<String>,
    pub host: Option<String>,
    pub content_type: Option<String>,
    pub content_encoding: Option<String>,
    pub transfer_encoding: Option<String>,
    pub content_length: Option<u64>,
    pub headers: Vec<(String, String)>,
    pub cookies: Vec<String>,
    /// UTF-8 preview of the (decoded) body, present for text content.
    pub body_preview: Option<String>,
    /// Base64 preview of the (decoded) body, present for binary content.
    pub body_preview_base64: Option<String>,
    pub body_decoded: bool,
    pub body_decoded_len: Option<usize>,
    pub body_offset: Option<usize>,
    pub body_len: usize,
}

/// What a message says, with its texts as sequences of characters.
#[verifier::ext_equal]
pub struct HttpModel {
    pub kind: Seq<char>,
    pub offset: int,
    pub raw_len: int,
    pub http_version: Option<Seq<char>>,
    pub method: Option<Seq<char>>,
    pub path: Option<Seq<char>>,
    pub query: Seq<(Seq<char>, Seq<char>)>,
    pub status: Option<nat>,
    pub reason: Option<Seq<char>>,
    pub host: Option<Seq<char>>,
    pub content_type: Option<Seq<char>>,
    pub content_encoding: Option<Seq<char>>,
    pub transfer_encoding: Option<Seq<char>>,
    pub content_length: Option<nat>,
    pub headers: Seq<(Seq<char>, Seq<char>)>,
    pub cookies: Seq<Seq<char>>,
    pub body_preview: Option<Seq<char>>,
    pub body_preview_base64: Option<Seq<char>>,
    pub body_decoded: bool,
    pub body_decoded_len: Option<int>,
    pub body_offset: Option<int>,
    pub body_len: int,
}

/// The characters of each pair of strings.
pub open spec fn pairs(v: Seq<(String, String)>) -> Seq<(Seq<char>, Seq<char>)> {
    v.map_values(|p: (String, String)| (p.0@, p.1@))
}

pub open spec fn opt_int(o: Option<usize>) -> Option<int> {
    match o {
        Some(n) => Some(n as int),
        None => None,
    }
}

impl View for HttpMessage {
    type V = HttpModel;

    open spec fn view(&self) -> HttpModel {
        HttpModel {
            kind: self.kind@,
            offset: self.offset as int,
            raw_len: self.raw_len as int,
            http_version: strs::opt_text(self.http_version),
            method: strs::opt_text(self.method),
            path: strs::opt_text(self.path),
            query: pairs(self.query@),
            status: match self.status {
                Some(n) => Some(n as nat),
                None => None,
            },
            reason: strs::opt_text(self.reason),
            host: strs::opt_text(self.host),
            content_type: strs::opt_text(self.content_type),
            content_encoding: strs::opt_text(self.content_encoding),
            transfer_encoding: strs::opt_text(self.transfer_encoding),
            content_length: match self.content_length {
                Some(n) => Some(n as nat),
                None => None,
            },
            headers: pairs(self.headers@),
            cookies: strs::texts(self.cookies@),
            body_preview: strs::opt_text(self.body_preview),
            body_preview_base64: strs::opt_text(self.body_preview_base64),
            body_decoded: self.body_decoded,
            body_decoded_len: opt_int(self.body_decoded_len),
            body_offset: opt_int(self.body_offset),
            body_len: self.body_len as int,
        }
    }
}

/// The message that says nothing.
pub open spec fn blank_message() -> HttpModel {
    HttpModel {
        kind: Seq::empty(),
        offset: 0,
        raw_len: 0,
        http_version: None,
        method: None,
        path: None,
        query: Seq::empty(),
        status: None,
        reason: None,
        host: None,
        content_type: None,
        content_encoding: None,
        transfer_encoding: None,
        content_length: None,
        headers: Seq::empty(),
        cookies: Seq::empty(),
        body_preview: None,
        body_preview_base64: None,
        body_decoded: false,
        body_decoded_len: None,
        body_offset: None,
        body_len: 0,
    }
}

impl Default for HttpMessage {
    fn default() -> (r: Self)
        ensures
            r@ == blank_message(),
    {
        let r: HttpMessage = HttpMessage {
            kind: "",
            offset: 0,
            raw_len: 0,
            http_version: None,
            method: None,
            path: None,
            query: Vec::new(),
            status: None,
            reason: None,
            host: None,
            content_type: None,
            content_encoding: None,
            transfer_encoding: None,
            content_length: None,
            headers: Vec::new(),
            cookies: Vec::new(),
            body_preview: None,
            body_preview_base64: None,
            body_decoded: false,
            body_decoded_len: None,
            body_offset: None,
            body_len: 0,
        };
        proof {
            reveal_strlit("");
            assert(r@ =~= blank_message());
        }
        r
    }
}

/// The blank line that ends a head, with carriage returns.
pub open spec fn crlf_crlf() -> Seq<u8> {
    seq![13, 10, 13, 10]
}

/// The blank line that ends a head, without carriage returns.
pub open spec fn lf_lf() -> Seq<u8> {
    seq![10, 10]
}

/// Where the head ends: at the first blank line with carriage returns, or,
/// where there is none, at the first without.
pub open spec fn head_end(p: Seq<u8>) -> Option<int> {
    match strs::first_of(p, crlf_crlf()) {
        Some(i) => Some(i),
        None => strs::first_of(p, lf_lf()),
    }
}

/// Where the body starts, after the blank line.
pub open spec fn body_start(p: Seq<u8>) -> int {
    match strs::first_of(p, crlf_crlf()) {
        Some(i) => i + 4,
        None => match strs::first_of(p, lf_lf()) {
            Some(i) => i + 2,
            None => p.len() as int,
        },
    }
}

/// The bytes of a head as text: UTF-8 where they are valid, else one
/// character per byte.
pub open spec fn head_text(b: Seq<u8>) -> Seq<char> {
    match bytes::decoded(b) {
        Some(s) => s,
        None => bytes::latin1(b),
    }
}

/// The line break of a head.
pub open spec fn line_break(head: Seq<char>) -> Seq<char> {
    if strs::has(head, "\r\n"@) {
        "\r\n"@
    } else {
        "\n"@
    }
}

pub open spec fn head_lines(head: Seq<char>) -> Seq<Seq<char>> {
    strs::pieces(head, line_break(head))
}

/// The line starts with an HTTP method and a space.
pub open spec fn method_line(line: Seq<char>) -> bool {
    ||| strs::prefixed(line, "GET "@)
    ||| strs::prefixed(line, "POST "@)
    ||| strs::prefixed(line, "PUT "@)
    ||| strs::prefixed(line, "DELETE "@)
    ||| strs::prefixed(line, "HEAD "@)
    ||| strs::prefixed(line, "OPTIONS "@)
    ||| strs::prefixed(line, "PATCH "@)
    ||| strs::prefixed(line, "CONNECT "@)
    ||| strs::prefixed(line, "TRACE "@)
}

/// The name and value of a query parameter.
pub open spec fn parameter(kv: Seq<char>) -> (Seq<char>, Seq<char>) {
    match strs::cut(kv, '=') {
        Some(p) => p,
        None => (kv, Seq::empty()),
    }
}

/// The parameters of a query.
pub open spec fn parameters(q: Seq<char>) -> Seq<(Seq<char>, Seq<char>)> {
    strs::fields(q, '&').map_values(|kv: Seq<char>| parameter(kv))
}

/// An HTTP version without what marks it as one.
pub open spec fn version(s: Seq<char>) -> Seq<char> {
    strs::ltrim_pat(s, "HTTP/"@)
}

/// A message with what a status line says, cut at its first two spaces.
pub open spec fn with_status_line(m: HttpModel, line: Seq<char>) -> Option<HttpModel> {
    match strs::cut(line, ' ') {
        Some((ver, rest)) => {
            let (code, reason) = match strs::cut(rest, ' ') {
                Some(p) => p,
                None => (rest, Seq::empty()),
            };
            Some(
                HttpModel {
                    kind: "response"@,
                    http_version: Some(version(ver)),
                    status: num::read(code, 10, 0xffff),
                    reason: if reason.len() > 0 {
                        Some(reason)
                    } else {
                        None
                    },
                    ..m
                },
            )
        },
        None => None,
    }
}

/// A message with what a request line says, cut at its first two spaces.
pub open spec fn with_request_line(m: HttpModel, line: Seq<char>) -> Option<HttpModel> {
    match strs::cut(line, ' ') {
        Some((method, rest)) => {
            let (target, ver) = match strs::cut(rest, ' ') {
                Some(p) => p,
                None => (rest, "HTTP/1.1"@),
            };
            let (path, query) = match strs::cut(target, '?') {
                Some((path, q)) => (path, parameters(q)),
                None => (target, Seq::empty()),
            };
            Some(
                HttpModel {
                    kind: "request"@,
                    method: Some(method),
                    http_version: Some(version(ver)),
                    path: Some(path),
                    query,
                    ..m
                },
            )
        },
        None => None,
    }
}

/// A message with what its first line says, where that is a status line or a
/// request line.
pub open spec fn with_first_line(m: HttpModel, line: Seq<char>) -> Option<HttpModel> {
    if strs::prefixed(line, "HTTP/"@) {
        with_status_line(m, line)
    } else if method_line(line) {
        with_request_line(m, line)
    } else {
        None
    }
}

/// A message with one more header. Each of the headers that have a field of
/// their own sets it anew; every cookie is kept.
pub open spec fn with_header(m: HttpModel, k: Seq<char>, v: Seq<char>) -> HttpModel {
    let name = strs::lower_text(k);
    let m = HttpModel { headers: m.headers.push((k, v)), ..m };
    if name == "host"@ {
        HttpModel { host: Some(v), ..m }
    } else if name == "content-type"@ {
        HttpModel { content_type: Some(v), ..m }
    } else if name == "content-length"@ {
        HttpModel { content_length: num::read(v, 10, u64::MAX as nat), ..m }
    } else if name == "content-encoding"@ {
        HttpModel { content_encoding: Some(v), ..m }
    } else if name == "transfer-encoding"@ {
        HttpModel { transfer_encoding: Some(v), ..m }
    } else if name == "cookie"@ || name == "set-cookie"@ {
        HttpModel { cookies: m.cookies.push(v), ..m }
    } else {
        m
    }
}

/// A message with the header of a line, where the line holds a colon.
pub open spec fn with_header_line(m: HttpModel, line: Seq<char>) -> HttpModel {
    match strs::cut(line, ':') {
        Some((k, v)) => with_header(m, strs::trimmed(k), strs::trimmed(v)),
        None => m,
    }
}

/// A message with the headers of some lines.
pub open spec fn with_headers(m: HttpModel, lines: Seq<Seq<char>>) -> HttpModel
    decreases lines.len(),
{
    if lines.len() == 0 {
        m
    } else {
        with_header_line(with_headers(m, lines.drop_last()), lines.last())
    }
}

/// How many of the bytes after the head are the body.
pub open spec fn body_extent(m: HttpModel, avail: int) -> int {
    match m.content_length {
        Some(n) => classify::least(n as int, avail),
        None => avail,
    }
}

/// A message with where its body lies.
pub open spec fn with_extent(m: HttpModel, p: Seq<u8>, offset: int) -> HttpModel {
    let start = body_start(p);
    let len = body_extent(m, p.len() - start);
    HttpModel {
        raw_len: start + len,
        body_offset: if len > 0 {
            Some(offset + start)
        } else {
            None
        },
        body_len: len,
        ..m
    }
}

/// What the head of a payload says, body extent included.
pub open spec fn headed(p: Seq<u8>, offset: int) -> Option<HttpModel> {
    match head_end(p) {
        Some(end) => {
            let lines = head_lines(head_text(p.take(end)));
            match with_first_line(HttpModel { offset, ..blank_message() }, lines[0]) {
                Some(m) => Some(with_extent(with_headers(m, lines.skip(1)), p, offset)),
                None => None,
            }
        },
        None => None,
    }
}

/// The body of a message as its transfer encoding carries it.
pub open spec fn transferred(m: HttpModel, raw: Seq<u8>) -> Seq<u8> {
    match m.transfer_encoding {
        Some(v) => if strs::has(strs::lower_text(v), "chunked"@) {
            body::dechunked(raw)
        } else {
            raw
        },
        None => raw,
    }
}

/// The body with its content codings undone, and whether all could be.
pub open spec fn content(m: HttpModel, b: Seq<u8>) -> (Seq<u8>, bool) {
    match m.content_encoding {
        Some(enc) => body::all_undone(b, body::codings_of(strs::lower_text(enc))),
        None => (b, true),
    }
}

/// A message with a preview of the given bytes: as text where the content
/// type says so, or where it says nothing and they are legible UTF-8; else
/// in base64.
pub open spec fn previewed(m: HttpModel, b: Seq<u8>) -> HttpModel {
    let binary = HttpModel { body_preview_base64: Some(body::base64_text(b)), ..m };
    match m.content_type {
        None => match bytes::decoded(b) {
            Some(s) => if body::mostly_legible(s) {
                HttpModel { body_preview: Some(s), ..m }
            } else {
                binary
            },
            None => binary,
        },
        Some(_) => if body::text_content(m.content_type) {
            HttpModel { body_preview: Some(body::lossy_text(b)), ..m }
        } else {
            binary
        },
    }
}

/// A message with its decoded body, of which at most `cap` bytes are shown.
pub open spec fn with_body(m: HttpModel, decoded: Seq<u8>, ok: bool, cap: int) -> HttpModel {
    let m = HttpModel {
        body_decoded: ok,
        body_decoded_len: Some(decoded.len() as int),
        ..m
    };
    let shown = classify::least(decoded.len() as int, cap);
    if shown > 0 {
        previewed(m, decoded.take(shown))
    } else {
        m
    }
}

/// The message that a payload at `offset` holds, with at most `cap` bytes of
/// its body shown.
#[verifier::opaque]
pub open spec fn message(p: Seq<u8>, offset: int, cap: int) -> Option<HttpModel> {
    match headed(p, offset) {
        Some(m) => if m.body_len > 0 {
            let raw = p.subrange(m.raw_len - m.body_len, m.raw_len);
            let (decoded, ok) = content(m, transferred(m, raw));
            Some(with_body(m, decoded, ok, cap))
        } else {
            Some(m)
        },
        None => None,
    }
}

pub open spec fn opt_message(o: Option<HttpMessage>) -> Option<HttpModel> {
    match o {
        Some(m) => Some(m@),
        None => None,
    }
}

fn find_header_terminator(p: &[u8]) -> (r: Option<usize>)
    ensures
        r matches Some(k) ==> head_end(p@) == Some(k as int),
        r is None ==> head_end(p@) is None,
{
    let crlf: Vec<u8> = vec![13, 10, 13, 10];
    let lf: Vec<u8> = vec![10, 10];
    assert(crlf@ =~= crlf_crlf());
    assert(lf@ =~= lf_lf());
    match bytes::find(p, &crlf) {
        Some(i) => Some(i),
        None => bytes::find(p, &lf),
    }
}

/// How long the blank line is that bytes end with.
fn header_terminator_len(p: &[u8]) -> (r: usize)
    ensures
        r == if strs::suffixed(p@, crlf_crlf()) {
            4int
        } else {
            2
        },
{
    let crlf: Vec<u8> = vec![13, 10, 13, 10];
    assert(crlf@ =~= crlf_crlf());
    if p.len() >= 4 && bytes::matches_at(p, &crlf, p.len() - 4) {
        4
    } else {
        2
    }
}

/// The blank line at the end of the head is the only one in the bytes up to
/// its own end, so it tells where the body starts.
proof fn lemma_body_start(p: Seq<u8>, end: int)
    requires
        head_end(p) == Some(end),
    ensures
        0 <= end <= p.len(),
        end <= body_start(p) <= p.len(),
        body_start(p) == end + if strs::suffixed(
            p.take(classify::least(end + 4, p.len() as int)),
            crlf_crlf(),
        ) {
            4int
        } else {
            2
        },
{
    strs::lemma_first_of(p, crlf_crlf());
    strs::lemma_first_of(p, lf_lf());
    let upto = classify::least(end + 4, p.len() as int);
    let t = p.take(upto);
    if strs::first_of(p, crlf_crlf()) is Some {
        assert(t.subrange(end, end + 4) =~= p.subrange(end, end + 4));
        assert(strs::suffixed(t, crlf_crlf()));
    } else {
        if strs::suffixed(t, crlf_crlf()) {
            assert(t.subrange(upto - 4, upto) =~= p.subrange(upto - 4, upto));
            assert(strs::occurs_at(p, crlf_crlf(), upto - 4));
        }
    }
}

fn decode_head(b: &[u8]) -> (r: String)
    ensures
        r@ == head_text(b@),
{
    match bytes::decode(b) {
        Some(s) => s,
        None => bytes::decode_latin1(b),
    }
}

fn is_method_line(line: &[char]) -> (r: bool)
    ensures
        r == method_line(line@),
{
    strs::starts_with(line, "GET ") || strs::starts_with(line, "POST ") || strs::starts_with(
        line,
        "PUT ",
    ) || strs::starts_with(line, "DELETE ") || strs::starts_with(line, "HEAD ")
        || strs::starts_with(line, "OPTIONS ") || strs::starts_with(line, "PATCH ")
        || strs::starts_with(line, "CONNECT ") || strs::starts_with(line, "TRACE ")
}

fn strip_version(s: &[char]) -> (r: String)
    ensures
        r@ == version(s@),
{
    proof {
        reveal_strlit("HTTP/");
    }
    strs::string_of(strs::trim_start_matches(s, "HTTP/"))
}

/// The parameters of a query.
fn parse_query(q: &[char]) -> (r: Vec<(String, String)>)
    ensures
        pairs(r@) == parameters(q@),
{
    let fields: Vec<&[char]> = strs::split_char(q, '&');
    let mut out: Vec<(String, String)> = Vec::new();
    for i in 0..fields.len()
        invariant
            strs::parts(fields@) == strs::fields(q@, '&'),
            pairs(out@) == parameters(q@).take(i as int),
    {
        let kv: &[char] = fields[i];
        assert(kv@ == strs::parts(fields@)[i as int]);
        let ghost seen = out@;
        let pair: (String, String) = match strs::cut_at(kv, '=') {
            Some(p) => (strs::string_of(p.0), strs::string_of(p.1)),
            None => (strs::string_of(kv), String::new()),
        };
        assert((pair.0@, pair.1@) == parameter(kv@));
        out.push(pair);
        assert(pairs(out@) =~= pairs(seen).push((pair.0@, pair.1@)));
        assert(pairs(out@) =~= parameters(q@).take(i + 1));
    }
    assert(pairs(out@) =~= parameters(q@));
    out
}

fn parse_status_line(line: &[char], msg: &mut HttpMessage) -> (ok: bool)
    ensures
        ok ==> with_status_line(old(msg)@, line@) == Some(final(msg)@),
        !ok ==> with_status_line(old(msg)@, line@) is None,
{
    let (ver, rest): (&[char], &[char]) = match strs::cut_at(line, ' ') {
        Some(p) => p,
        None => {
            return false;
        },
    };
    let (code, reason): (&[char], String) = match strs::cut_at(rest, ' ') {
        Some(p) => (p.0, strs::string_of(p.1)),
        None => (rest, String::new()),
    };
    msg.kind = "response";
    msg.http_version = Some(strip_version(ver));
    msg.status = match num::parse(code, 10, 0xffff) {
        Some(n) => Some(n as u16),
        None => None,
    };
    msg.reason = if is_blank_text(&reason) {
        None
    } else {
        Some(reason)
    };
    true
}

fn is_blank_text(s: &String) -> (r: bool)
    ensures
        r == (s@.len() == 0),
{
    strs::chars_of(s.as_str()).len() == 0
}

fn parse_request_line(line: &[char], msg: &mut HttpMessage) -> (ok: bool)
    ensures
        ok ==> with_request_line(old(msg)@, line@) == Some(final(msg)@),
        !ok ==> with_request_line(old(msg)@, line@) is None,
{
    let (method, rest): (&[char], &[char]) = match strs::cut_at(line, ' ') {
        Some(p) => p,
        None => {
            return false;
        },
    };
    let fallback: Vec<char> = strs::chars_of("HTTP/1.1");
    let (target, ver): (&[char], &[char]) = match strs::cut_at(rest, ' ') {
        Some(p) => p,
        None => (rest, &fallback),
    };
    msg.kind = "request";
    msg.method = Some(strs::string_of(method));
    msg.http_version = Some(strip_version(ver));
    match strs::cut_at(target, '?') {
        Some(p) => {
            msg.path = Some(strs::string_of(p.0));
            msg.query = parse_query(p.1);
        },
        None => {
            msg.path = Some(strs::string_of(target));
            msg.query = Vec::new();
            assert(pairs(msg.query@) =~= Seq::empty());
        },
    }
    true
}

fn parse_first_line(line: &[char], msg: &mut HttpMessage) -> (ok: bool)
    ensures
        ok ==> with_first_line(old(msg)@, line@) == Some(final(msg)@),
        !ok ==> with_first_line(old(msg)@, line@) is None,
{
    if strs::starts_with(line, "HTTP/") {
        parse_status_line(line, msg)
    } else if is_method_line(line) {
        parse_request_line(line, msg)
    } else {
        false
    }
}

fn add_header(msg: &mut HttpMessage, k: &[char], v: &[char])
    ensures
        final(msg)@ == with_header(old(msg)@, k@, v@),
{
    let name: Vec<char> = strs::lower(k);
    let key: String = strs::string_of(k);
    let value: String = strs::string_of(v);
    let ghost headers = msg.headers@;
    msg.headers.push((key, strs::string_of(v)));
    assert(pairs(msg.headers@) =~= pairs(headers).push((k@, v@)));
    if strs::is_text(&name, "host") {
        msg.host = Some(value);
    } else if strs::is_text(&name, "content-type") {
        msg.content_type = Some(value);
    } else if strs::is_text(&name, "content-length") {
        msg.content_length = num::parse(v, 10, u64::MAX);
    } else if strs::is_text(&name, "content-encoding") {
        msg.content_encoding = Some(value);
    } else if strs::is_text(&name, "transfer-encoding") {
        msg.transfer_encoding = Some(value);
    } else if strs::is_text(&name, "cookie") || strs::is_text(&name, "set-cookie") {
        proof {
            strs::lemma_texts_push(msg.cookies@, value);
        }
        msg.cookies.push(value);
    }
}

/// Read the headers: every line but the first.
fn parse_headers(lines: &Vec<&[char]>, msg: &mut HttpMessage)
    requires
        lines@.len() > 0,
    ensures
        final(msg)@ == with_headers(old(msg)@, strs::parts(lines@).skip(1)),
{
    let ghost start = msg@;
    let ghost rest = strs::parts(lines@).skip(1);
    assert(rest.take(0) =~= Seq::<Seq<char>>::empty());
    for i in 1..lines.len()
        invariant
            rest == strs::parts(lines@).skip(1),
            start == old(msg)@,
            msg@ == with_headers(start, rest.take(i - 1)),
    {
        assert(rest.take(i as int).drop_last() =~= rest.take(i - 1));
        let line: &[char] = lines[i];
        assert(rest.take(i as int).last() == line@);
        match strs::cut_at(line, ':') {
            Some(kv) => {
                add_header(msg, strs::trim(kv.0), strs::trim(kv.1));
            },
            None => {},
        }
    }
    assert(rest.take(rest.len() as int) =~= rest);
}

/// Read the head of `payload` and where its body lies. Returns `None` if the
/// payload doesn't look like an HTTP message.
pub fn parse_head(payload: &[u8], frame_offset: usize) -> (r: Option<HttpMessage>)
    requires
        frame_offset + payload@.len() <= usize::MAX,
    ensures
        opt_message(r) == headed(payload@, frame_offset as int),
        r matches Some(m) ==> m.body_len <= m.raw_len <= payload@.len(),
{
    let n: usize = payload.len();
    let head_end: usize = match find_header_terminator(payload) {
        Some(i) => i,
        None => {
            return None;
        },
    };
    proof {
        lemma_body_start(payload@, head_end as int);
        reveal_strlit("\r\n");
        reveal_strlit("\n");
    }
    let head: String = decode_head(slice_subrange(payload, 0, head_end));
    let text: Vec<char> = strs::chars_of(head.as_str());
    let sep: &'static str = if strs::contains(&text, "\r\n") {
        "\r\n"
    } else {
        "\n"
    };
    let lines: Vec<&[char]> = strs::split(&text, sep);
    let upto: usize = if n - head_end <= 4 {
        n
    } else {
        head_end + 4
    };
    let body_start: usize = head_end + header_terminator_len(slice_subrange(payload, 0, upto));
    let body_avail: usize = n - body_start;
    let mut msg: HttpMessage = HttpMessage::default();
    msg.offset = frame_offset;
    assert(strs::parts(lines@).len() > 0);
    assert(strs::parts(lines@)[0] == lines@[0]@);
    if !parse_first_line(lines[0], &mut msg) {
        return None;
    }
    parse_headers(&lines, &mut msg);
    let body_len: usize = match msg.content_length {
        Some(len) => if len <= body_avail as u64 {
            len as usize
        } else {
            body_avail
        },
        None => body_avail,
    };
    msg.body_offset = if body_len > 0 {
        Some(frame_offset + body_start)
    } else {
        None
    };
    msg.body_len = body_len;
    msg.raw_len = body_start + body_len;
    Some(msg)
}

fn write_body_preview(msg: &mut HttpMessage, slice: &[u8])
    ensures
        final(msg)@ == previewed(old(msg)@, slice@),
{
    let as_text: bool = match &msg.content_type {
        Some(ct) => body::is_text_content(Some(ct.as_str())),
        None => {
            match bytes::decode(slice) {
                Some(s) => {
                    if body::mostly_printable(s.as_str()) {
                        msg.body_preview = Some(s);
                        return;
                    }
                },
                None => {},
            }
            false
        },
    };
    if as_text {
        msg.body_preview = Some(body::decode_text_lossy(slice));
    } else {
        msg.body_preview_base64 = Some(body::b64(slice));
    }
}

/// The body of a message as its transfer encoding carries it.
pub fn transfer_decode(msg: &HttpMessage, raw: &[u8]) -> (r: Vec<u8>)
    ensures
        r@ == transferred(msg@, raw@),
{
    match &msg.transfer_encoding {
        Some(v) => {
            let text: Vec<char> = strs::chars_of(v.as_str());
            let low: Vec<char> = strs::lower(&text);
            if strs::contains(&low, "chunked") {
                body::dechunk(raw)
            } else {
                slice_to_vec(raw)
            }
        },
        None => slice_to_vec(raw),
    }
}

/// Undo the content codings of a body.
pub fn content_decode(msg: &HttpMessage, buf: Vec<u8>) -> (r: (Vec<u8>, bool))
    ensures
        (r.0@, r.1) == content(msg@, buf@),
{
    match &msg.content_encoding {
        Some(enc) => {
            let text: Vec<char> = strs::chars_of(enc.as_str());
            let low: String = strs::string_of(&strs::lower(&text));
            body::decode_encoded(&buf, low.as_str())
        },
        None => (buf, true),
    }
}

/// Note a decoded body in its message, and show at most `body_cap` bytes.
pub fn write_body(msg: &mut HttpMessage, decoded: &[u8], ok: bool, body_cap: usize)
    ensures
        final(msg)@ == with_body(old(msg)@, decoded@, ok, body_cap as int),
{
    msg.body_decoded = ok;
    msg.body_decoded_len = Some(decoded.len());
    let take: usize = if decoded.len() <= body_cap {
        decoded.len()
    } else {
        body_cap
    };
    if take > 0 {
        let slice: &[u8] = slice_subrange(decoded, 0, take);
        assert(slice@ =~= decoded@.take(take as int));
        write_body_preview(msg, slice);
    }
}

/// Parse `payload` as an HTTP message. Returns `None` if it doesn't look
/// like one. `frame_offset` is the absolute byte offset for diagnostics.
pub fn parse(payload: &[u8], frame_offset: usize, body_cap: usize) -> (r: Option<HttpMessage>)
    requires
        frame_offset + payload@.len() <= usize::MAX,
    ensures
        opt_message(r) == message(payload@, frame_offset as int, body_cap as int),
{
    proof {
        reveal(message);
    }
    let mut msg: HttpMessage = match parse_head(payload, frame_offset) {
        Some(m) => m,
        None => {
            return None;
        },
    };
    if msg.body_len > 0 {
        let raw: &[u8] = slice_subrange(payload, msg.raw_len - msg.body_len, msg.raw_len);
        let dechunked: Vec<u8> = transfer_decode(&msg, raw);
        let (decoded, ok): (Vec<u8>, bool) = content_decode(&msg, dechunked);
        write_body(&mut msg, &decoded, ok, body_cap);
    }
    Some(msg)
}

/// What stands in a message before its headers and its body are read stays.
pub proof fn lemma_headers_keep(m: HttpModel, lines: Seq<Seq<char>>)
    ensures
        with_headers(m, lines).kind == m.kind,
        with_headers(m, lines).offset == m.offset,
        with_headers(m, lines).http_version == m.http_version,
        with_headers(m, lines).method == m.method,
        with_headers(m, lines).path == m.path,
        with_headers(m, lines).query == m.query,
        with_headers(m, lines).status == m.status,
        with_headers(m, lines).reason == m.reason,
        with_headers(m, lines).body_preview == m.body_preview,
        with_headers(m, lines).body_preview_base64 == m.body_preview_base64,
        with_headers(m, lines).body_decoded == m.body_decoded,
        with_headers(m, lines).body_decoded_len == m.body_decoded_len,
    decreases lines.len(),
{
    if lines.len() > 0 {
        lemma_headers_keep(m, lines.drop_last());
    }
}

/// A message is a request, with a method and a path and no status, or a
/// response, with none of these but perhaps a status. It keeps the offset it
/// was given.
pub proof fn law_message_kinds(p: Seq<u8>, offset: int, cap: int)
    ensures
        message(p, offset, cap) matches Some(m) ==> {
            &&& m.offset == offset
            &&& m.http_version is Some
            &&& m.kind == "request"@ || m.kind == "response"@
            &&& m.kind == "request"@ ==> m.method is Some && m.path is Some && m.status is None
                && m.reason is None
            &&& m.kind == "response"@ ==> m.method is None && m.path is None && m.query.len() == 0
            &&& m.status matches Some(s) ==> s <= 0xffff
        },
{
    reveal(message);
    reveal_strlit("request");
    reveal_strlit("response");
    assert("request"@.len() != "response"@.len());
    match head_end(p) {
        Some(end) => {
            let lines = head_lines(head_text(p.take(end)));
            match with_first_line(HttpModel { offset, ..blank_message() }, lines[0]) {
                Some(m) => {
                    lemma_headers_keep(m, lines.skip(1));
                },
                None => {},
            }
        },
        None => {},
    }
}

/// A body that is there is shown as text or in base64, never both; and it is
/// shown exactly where something was decoded and something may be shown.
pub proof fn law_one_preview(p: Seq<u8>, offset: int, cap: int)
    requires
        cap >= 0,
    ensures
        message(p, offset, cap) matches Some(m) ==> {
            &&& m.body_decoded_len is Some <==> m.body_len > 0
            &&& m.body_preview is None || m.body_preview_base64 is None
            &&& m.body_preview is Some || m.body_preview_base64 is Some <==> cap > 0
                && m.body_decoded_len is Some && m.body_decoded_len->0 > 0
            &&& m.body_len == 0 ==> !m.body_decoded
        },
{
    reveal(message);
    match head_end(p) {
        Some(end) => {
            let lines = head_lines(head_text(p.take(end)));
            match with_first_line(HttpModel { offset, ..blank_message() }, lines[0]) {
                Some(m) => {
                    lemma_headers_keep(m, lines.skip(1));
                    lemma_body_start(p, end);
                },
                None => {},
            }
        },
        None => {},
    }
}

/// The body of a message lies in the payload, right where the message ends.
pub proof fn law_body_lies_within(p: Seq<u8>, offset: int, cap: int)
    ensures
        message(p, offset, cap) matches Some(m) ==> {
            &&& 0 <= m.body_len <= m.raw_len <= p.len()
            &&& m.raw_len - m.body_len == body_start(p)
            &&& m.body_offset == if m.body_len > 0 {
                Some(offset + body_start(p))
            } else {
                None
            }
        },
{
    reveal(message);
    match head_end(p) {
        Some(end) => {
            let lines = head_lines(head_text(p.take(end)));
            lemma_body_start(p, end);
            match with_first_line(HttpModel { offset, ..blank_message() }, lines[0]) {
                Some(m) => {
                    lemma_headers_keep(m, lines.skip(1));
                },
                None => {},
            }
        },
        None => {},
    }
}

/// A header by which a field is set: the last one of its name, in any case.
pub open spec fn last_named(
    headers: Seq<(Seq<char>, Seq<char>)>,
    name: Seq<char>,
) -> Option<Seq<char>>
    decreases headers.len(),
{
    if headers.len() == 0 {
        None
    } else if strs::lower_text(headers.last().0) == name {
        Some(headers.last().1)
    } else {
        last_named(headers.drop_last(), name)
    }
}

/// The values of the cookie headers, in order.
pub open spec fn cookie_values(headers: Seq<(Seq<char>, Seq<char>)>) -> Seq<Seq<char>>
    decreases headers.len(),
{
    if headers.len() == 0 {
        Seq::empty()
    } else {
        let name = strs::lower_text(headers.last().0);
        if name == "cookie"@ || name == "set-cookie"@ {
            cookie_values(headers.drop_last()).push(headers.last().1)
        } else {
            cookie_values(headers.drop_last())
        }
    }
}

proof fn lemma_last_named(
    headers: Seq<(Seq<char>, Seq<char>)>,
    h: (Seq<char>, Seq<char>),
    name: Seq<char>,
)
    ensures
        last_named(headers.push(h), name) == if strs::lower_text(h.0) == name {
            Some(h.1)
        } else {
            last_named(headers, name)
        },
{
    assert(headers.push(h).drop_last() =~= headers);
}

proof fn lemma_fields(m: HttpModel, lines: Seq<Seq<char>>)
    requires
        fields_match(m),
    ensures
        fields_match(with_headers(m, lines)),
    decreases lines.len(),
{
    if lines.len() > 0 {
        let before = with_headers(m, lines.drop_last());
        lemma_fields(m, lines.drop_last());
        match strs::cut(lines.last(), ':') {
            Some((k, v)) => {
                let (k, v) = (strs::trimmed(k), strs::trimmed(v));
                let after = with_header(before, k, v);
                reveal_strlit("host");
                reveal_strlit("content-type");
                reveal_strlit("content-length");
                reveal_strlit("content-encoding");
                reveal_strlit("transfer-encoding");
                reveal_strlit("cookie");
                reveal_strlit("set-cookie");
                lemma_last_named(before.headers, (k, v), "host"@);
                lemma_last_named(before.headers, (k, v), "content-type"@);
                lemma_last_named(before.headers, (k, v), "content-length"@);
                lemma_last_named(before.headers, (k, v), "content-encoding"@);
                lemma_last_named(before.headers, (k, v), "transfer-encoding"@);
                assert("host"@.len() == 4);
                assert("content-type"@.len() == 12);
                assert("content-length"@.len() == 14);
                assert("content-encoding"@.len() == 16);
                assert("transfer-encoding"@.len() == 17);
                assert("cookie"@.len() == 6);
                assert("set-cookie"@.len() == 10);
                assert(after.headers.drop_last() =~= before.headers);
                assert(with_headers(m, lines) == after);
            },
            None => {},
        }
    }
}

/// The fields taken from headers are those of the last header of the name, and
/// the cookies those of all.
pub open spec fn fields_match(m: HttpModel) -> bool {
    &&& m.host == last_named(m.headers, "host"@)
    &&& m.content_type == last_named(m.headers, "content-type"@)
    &&& m.content_encoding == last_named(m.headers, "content-encoding"@)
    &&& m.transfer_encoding == last_named(m.headers, "transfer-encoding"@)
    &&& m.content_length == match last_named(m.headers, "content-length"@) {
        Some(v) => num::read(v, 10, u64::MAX as nat),
        None => None,
    }
    &&& m.cookies == cookie_values(m.headers)
}

/// Host, content type, codings and length of a message are those that its
/// last header of each name gives; its cookies are those of every cookie
/// header.
pub proof fn law_fields_come_from_headers(p: Seq<u8>, offset: int, cap: int)
    ensures
        message(p, offset, cap) matches Some(m) ==> fields_match(m),
{
    reveal(message);
    match head_end(p) {
        Some(end) => {
            let lines = head_lines(head_text(p.take(end)));
            match with_first_line(HttpModel { offset, ..blank_message() }, lines[0]) {
                Some(m) => {
                    lemma_fields(m, lines.skip(1));
                },
                None => {},
            }
        },
        None => {},
    }
}

/// A head that starts with ASCII bytes other than line breaks starts its
/// first line with them.
proof fn lemma_first_line(b: Seq<u8>, pat: Seq<char>)
    requires
        strs::prefixed(b, bytes::utf8(pat)),
        pat.len() > 0,
        forall|i: int| 0 <= i < pat.len() ==> ' ' <= #[trigger] pat[i] <= '~',
    ensures
        strs::prefixed(head_lines(head_text(b))[0], pat),
{
    let n = pat.len() as int;
    let s = head_text(b);
    let u = bytes::utf8(pat);
    assert(vstd::utf8::is_ascii_chars(pat));
    vstd::utf8::is_ascii_chars_encode_utf8(pat);
    assert forall|i: int| 0 <= i < n implies #[trigger] b[i] == pat[i] as u8 by {
        assert(b.subrange(0, u.len() as int)[i] == u[i]);
        assert(pat[i] as u8 == u[i]);
    }
    assert forall|i: int| 0 <= i < n implies #[trigger] s[i] == pat[i] by {
        assert(b[i] == pat[i] as u8);
        if vstd::utf8::valid_utf8(b) {
            assert forall|j: int| 0 <= j < n implies #[trigger] b[j] <= 0x7f by {
                assert(b[j] == pat[j] as u8);
            }
            bytes::lemma_ascii_start(b, n);
        }
        assert(s[i] == b[i] as char);
    }
    assert(s.len() >= n) by {
        if vstd::utf8::valid_utf8(b) {
            assert forall|j: int| 0 <= j < n implies #[trigger] b[j] <= 0x7f by {
                assert(b[j] == pat[j] as u8);
            }
            bytes::lemma_ascii_start(b, n);
        }
    }
    let sep = line_break(s);
    reveal_strlit("\r\n");
    reveal_strlit("\n");
    strs::lemma_first_of(s, sep);
    let first = head_lines(s)[0];
    match strs::first_of(s, sep) {
        Some(k) => {
            assert(s.subrange(k, k + sep.len())[0] == s[k]);
            if k < n {
                assert(s[k] == pat[k]);
            }
            assert(first == s.take(k));
            assert(first.subrange(0, n) =~= pat);
        },
        None => {
            assert(first == s);
            assert(first.subrange(0, n) =~= pat);
        },
    }
}

/// The head of a payload that starts with ASCII bytes other than line breaks
/// starts with them too.
proof fn lemma_head_start(p: Seq<u8>, pat: Seq<char>, end: int)
    requires
        head_end(p) == Some(end),
        strs::prefixed(p, bytes::utf8(pat)),
        pat.len() > 0,
        forall|i: int| 0 <= i < pat.len() ==> ' ' <= #[trigger] pat[i] <= '~',
    ensures
        strs::prefixed(p.take(end), bytes::utf8(pat)),
{
    let u = bytes::utf8(pat);
    assert(vstd::utf8::is_ascii_chars(pat));
    vstd::utf8::is_ascii_chars_encode_utf8(pat);
    strs::lemma_first_of(p, crlf_crlf());
    strs::lemma_first_of(p, lf_lf());
    let brk = if strs::first_of(p, crlf_crlf()) is Some {
        crlf_crlf()
    } else {
        lf_lf()
    };
    assert(strs::occurs_at(p, brk, end));
    assert(p.subrange(end, end + brk.len())[0] == p[end]);
    assert(p[end] == brk[0]);
    if end < u.len() {
        assert(p.subrange(0, u.len() as int)[end] == u[end]);
        assert(pat[end] as u8 == u[end]);
    }
    assert(p.take(end).subrange(0, u.len() as int) =~= p.subrange(0, u.len() as int));
}

/// A payload that starts with a method and a space, and whose head ends,
/// holds a request.
proof fn lemma_method_payload(p: Seq<u8>, pat: Seq<char>, offset: int, cap: int)
    requires
        head_end(p) is Some,
        strs::prefixed(p, bytes::utf8(pat)),
        pat.len() > 0,
        pat[0] != 'H' || pat[1] != 'T',
        pat.len() > 1,
        pat.last() == ' ',
        forall|i: int| 0 <= i < pat.len() ==> ' ' <= #[trigger] pat[i] <= '~',
        forall|line: Seq<char>| #[trigger] strs::prefixed(line, pat) ==> method_line(line),
    ensures
        message(p, offset, cap) matches Some(m) && m.kind == "request"@,
{
    reveal(message);
    let end = head_end(p)->0;
    lemma_head_start(p, pat, end);
    lemma_first_line(p.take(end), pat);
    let lines = head_lines(head_text(p.take(end)));
    let line = lines[0];
    assert(strs::prefixed(line, pat));
    assert(line.subrange(0, pat.len() as int)[0] == pat[0]);
    assert(line.subrange(0, pat.len() as int)[1] == pat[1]);
    assert(line.subrange(0, pat.len() as int)[pat.len() - 1] == ' ');
    reveal_strlit("HTTP/");
    assert(!strs::prefixed(line, "HTTP/"@)) by {
        if strs::prefixed(line, "HTTP/"@) {
            assert(line.subrange(0, 5)[0] == 'H');
            assert(line.subrange(0, 5)[1] == 'T');
        }
    }
    strs::lemma_index_of(line, ' ');
    assert(line[pat.len() - 1] == ' ');
    assert(line.contains(' '));
    let m0 = HttpModel { offset, ..blank_message() };
    let m = with_first_line(m0, line)->0;
    assert(with_first_line(m0, line) is Some);
    lemma_headers_keep(m, lines.skip(1));
}

/// A payload that is classified as a request holds one, exactly where its
/// head ends with a blank line.
pub proof fn law_classified_request_parses(p: Seq<u8>, offset: int, cap: int)
    requires
        classify::kind_of(p) == classify::Kind::HttpRequest,
    ensures
        message(p, offset, cap) is Some <==> head_end(p) is Some,
        message(p, offset, cap) matches Some(m) ==> m.kind == "request"@,
{
    reveal(classify::kind_of);
    reveal(message);
    if head_end(p) is Some {
        reveal_strlit("GET ");
        reveal_strlit("POST ");
        reveal_strlit("PUT ");
        reveal_strlit("DELETE ");
        reveal_strlit("HEAD ");
        reveal_strlit("OPTIONS ");
        reveal_strlit("PATCH ");
        reveal_strlit("CONNECT ");
        reveal_strlit("TRACE ");
        if strs::prefixed(p, bytes::utf8("GET "@)) {
            lemma_method_payload(p, "GET "@, offset, cap);
        } else if strs::prefixed(p, bytes::utf8("POST "@)) {
            lemma_method_payload(p, "POST "@, offset, cap);
        } else if strs::prefixed(p, bytes::utf8("PUT "@)) {
            lemma_method_payload(p, "PUT "@, offset, cap);
        } else if strs::prefixed(p, bytes::utf8("DELETE "@)) {
            lemma_method_payload(p, "DELETE "@, offset, cap);
        } else if strs::prefixed(p, bytes::utf8("HEAD "@)) {
            lemma_method_payload(p, "HEAD "@, offset, cap);
        } else if strs::prefixed(p, bytes::utf8("OPTIONS "@)) {
            lemma_method_payload(p, "OPTIONS "@, offset, cap);
        } else if strs::prefixed(p, bytes::utf8("PATCH "@)) {
            lemma_method_payload(p, "PATCH "@, offset, cap);
        } else if strs::prefixed(p, bytes::utf8("CONNECT "@)) {
            lemma_method_payload(p, "CONNECT "@, offset, cap);
        } else {
            lemma_method_payload(p, "TRACE "@, offset, cap);
        }
    }
}

/// A payload that is classified as a response holds one, exactly where its
/// head ends with a blank line and its first line holds a space.
pub proof fn law_classified_response_parses(p: Seq<u8>, offset: int, cap: int)
    requires
        classify::kind_of(p) == classify::Kind::HttpResponse,
    ensures
        message(p, offset, cap) is Some <==> (head_end(p) matches Some(end) && head_lines(
            head_text(p.take(end)),
        )[0].contains(' ')),
        message(p, offset, cap) matches Some(m) ==> m.kind == "response"@,
{
    reveal(classify::kind_of);
    reveal(message);
    match head_end(p) {
        Some(end) => {
            reveal_strlit("HTTP/");
            lemma_head_start(p, "HTTP/"@, end);
            lemma_first_line(p.take(end), "HTTP/"@);
            let lines = head_lines(head_text(p.take(end)));
            strs::lemma_index_of(lines[0], ' ');
            let m0 = HttpModel { offset, ..blank_message() };
            match with_first_line(m0, lines[0]) {
                Some(m) => {
                    lemma_headers_keep(m, lines.skip(1));
                },
                None => {},
            }
        },
        None => {},
    }
}

} // verus!
