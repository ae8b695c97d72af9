use std::io::Write;

use burpex::body::{
    codings, decode_encoded, dechunk, is_text_content, keep_nonempty, mostly_printable, Coding,
};
use burpex::http::{parse, parse_head, write_body, HttpMessage};

fn response(headers: &str, body: &[u8]) -> Vec<u8> {
    let mut buf = format!("HTTP/1.1 200 OK\r\n{}\r\n", headers).into_bytes();
    buf.extend_from_slice(body);
    buf
}

fn gzip(data: &[u8]) -> Vec<u8> {
    let mut enc = flate2::write::GzEncoder::new(Vec::new(), flate2::Compression::default());
    enc.write_all(data).unwrap();
    enc.finish().unwrap()
}

fn zlib(data: &[u8]) -> Vec<u8> {
    let mut enc = flate2::write::ZlibEncoder::new(Vec::new(), flate2::Compression::default());
    enc.write_all(data).unwrap();
    enc.finish().unwrap()
}

fn deflate(data: &[u8]) -> Vec<u8> {
    let mut enc = flate2::write::DeflateEncoder::new(Vec::new(), flate2::Compression::default());
    enc.write_all(data).unwrap();
    enc.finish().unwrap()
}

fn brotli(data: &[u8]) -> Vec<u8> {
    let mut out: Vec<u8> = Vec::new();
    {
        let mut enc = brotli::CompressorWriter::new(&mut out, 4096, 5, 22);
        enc.write_all(data).unwrap();
    }
    out
}

#[test]
fn parses_a_simple_get() {
    let buf = b"GET /foo?a=1&b=2 HTTP/1.1\r\nHost: example.com\r\n\r\n";
    let m = parse(buf, 0, 0).unwrap();
    assert_eq!(m.kind, "request");
    assert_eq!(m.method.as_deref(), Some("GET"));
    assert_eq!(m.path.as_deref(), Some("/foo"));
    assert_eq!(m.host.as_deref(), Some("example.com"));
    assert_eq!(
        m.query,
        vec![("a".into(), "1".into()), ("b".into(), "2".into())]
    );
}

#[test]
fn parses_a_response_with_body() {
    let buf = b"HTTP/1.1 200 OK\r\nContent-Type: text/plain\r\nContent-Length: 5\r\n\r\nhello";
    let m = parse(buf, 0, 1024).unwrap();
    assert_eq!(m.kind, "response");
    assert_eq!(m.status, Some(200));
    assert_eq!(m.body_len, 5);
    assert_eq!(m.body_preview.as_deref(), Some("hello"));
}

#[test]
fn binary_body_gets_base64() {
    let body = [0u8, 1, 2, 3, 0xff, 0xfe];
    let mut buf: Vec<u8> = b"HTTP/1.1 200 OK\r\nContent-Type: application/octet-stream\r\nContent-Length: 6\r\n\r\n".to_vec();
    buf.extend_from_slice(&body);
    let m = parse(&buf, 0, 1024).unwrap();
    assert!(m.body_preview.is_none());
    assert!(m.body_preview_base64.is_some());
}

#[test]
fn gzip_body_gets_decoded() {
    let plaintext = b"the quick brown fox";
    let mut enc = flate2::write::GzEncoder::new(Vec::new(), flate2::Compression::default());
    enc.write_all(plaintext).unwrap();
    let gz = enc.finish().unwrap();
    let mut buf: Vec<u8> = format!(
        "HTTP/1.1 200 OK\r\nContent-Encoding: gzip\r\nContent-Length: {}\r\n\r\n",
        gz.len()
    )
    .into_bytes();
    buf.extend_from_slice(&gz);
    let m = parse(&buf, 0, 4096).unwrap();
    assert!(m.body_decoded);
    assert_eq!(m.body_decoded_len, Some(plaintext.len()));
    assert_eq!(m.body_preview.as_deref(), Some("the quick brown fox"));
}

#[test]
fn dechunks_chunked_body() {
    let chunked = b"5\r\nhello\r\n6\r\n world\r\n0\r\n\r\n";
    let mut buf: Vec<u8> =
        b"HTTP/1.1 200 OK\r\nContent-Type: text/plain\r\nTransfer-Encoding: chunked\r\n\r\n"
            .to_vec();
    buf.extend_from_slice(chunked);
    let m = parse(&buf, 0, 1024).unwrap();
    // dechunk → "hello world"
    assert_eq!(m.body_decoded_len, Some(11));
    assert_eq!(m.body_preview.as_deref(), Some("hello world"));
}

#[test]
fn a_payload_without_a_blank_line_is_no_message() {
    assert!(parse(b"GET / HTTP/1.1\r\nHost: x\r\n", 0, 10).is_none());
    assert!(parse(b"", 0, 10).is_none());
    assert!(parse(b"\n", 0, 10).is_none());
    assert!(parse(b"hello there\r\n\r\n", 0, 10).is_none());
    assert!(parse(b"GETTING / HTTP/1.1\r\n\r\n", 0, 10).is_none());
    // A status line needs a code.
    assert!(parse(b"HTTP/1.1\r\n\r\n", 0, 10).is_none());
}

#[test]
fn bare_line_feeds_end_a_head_too() {
    let m = parse(b"GET /x HTTP/1.0\nHost: a.b\n\nrest", 100, 10).unwrap();
    assert_eq!(m.host.as_deref(), Some("a.b"));
    assert_eq!(m.http_version.as_deref(), Some("1.0"));
    assert_eq!(m.body_len, 4);
    assert_eq!(m.body_offset, Some(127));
    assert_eq!(m.raw_len, 31);
    assert_eq!(m.offset, 100);
    assert_eq!(m.body_preview.as_deref(), Some("rest"));
}

#[test]
fn the_blank_line_with_carriage_returns_comes_first() {
    let m = parse(b"GET /x HTTP/1.1\nA: b\n\nC: d\r\n\r\ntail", 0, 10).unwrap();
    assert_eq!(m.body_len, 4);
    assert_eq!(m.body_preview.as_deref(), Some("tail"));
}

#[test]
fn a_head_that_is_not_utf8_reads_byte_by_byte() {
    let m = parse(b"GET /\xe9 HTTP/1.1\r\nHost: h\xff\r\n\r\n", 0, 0).unwrap();
    assert_eq!(m.path.as_deref(), Some("/\u{e9}"));
    assert_eq!(m.host.as_deref(), Some("h\u{ff}"));
}

#[test]
fn request_lines_in_their_forms() {
    let m = parse(b"POST /p HTTP/2\r\n\r\n", 0, 0).unwrap();
    assert_eq!(m.method.as_deref(), Some("POST"));
    assert_eq!(m.http_version.as_deref(), Some("2"));
    assert!(m.query.is_empty());
    let m = parse(b"GET /only\r\n\r\n", 0, 0).unwrap();
    assert_eq!(m.http_version.as_deref(), Some("1.1"));
    assert_eq!(m.path.as_deref(), Some("/only"));
    let m = parse(b"GET /q?flag&k=v=w&&=e HTTP/1.1\r\n\r\n", 0, 0).unwrap();
    let want: Vec<(String, String)> = vec![
        ("flag".into(), "".into()),
        ("k".into(), "v=w".into()),
        ("".into(), "".into()),
        ("".into(), "e".into()),
    ];
    assert_eq!(m.query, want);
    let m = parse(b"GET /? HTTP/1.1\r\n\r\n", 0, 0).unwrap();
    assert_eq!(m.query, vec![("".to_string(), "".to_string())]);
    assert_eq!(m.status, None);
}

#[test]
fn status_lines_in_their_forms() {
    let m = parse(b"HTTP/1.1 404 Not Found\r\n\r\n", 0, 0).unwrap();
    assert_eq!(m.status, Some(404));
    assert_eq!(m.reason.as_deref(), Some("Not Found"));
    assert_eq!(m.method, None);
    let m = parse(b"HTTP/1.1 204\r\n\r\n", 0, 0).unwrap();
    assert_eq!(m.status, Some(204));
    assert_eq!(m.reason, None);
    let m = parse(b"HTTP/1.1 204 \r\n\r\n", 0, 0).unwrap();
    assert_eq!(m.reason, None);
    let m = parse(b"HTTP/1.1 65536 x\r\n\r\n", 0, 0).unwrap();
    assert_eq!(m.status, None);
    let m = parse(b"HTTP/1.1 +200 x\r\n\r\n", 0, 0).unwrap();
    assert_eq!(m.status, Some(200));
    let m = parse(b"HTTP/1.1 abc x\r\n\r\n", 0, 0).unwrap();
    assert_eq!(m.status, None);
}

#[test]
fn the_last_header_of_a_name_counts() {
    let buf = b"GET / HTTP/1.1\r\nHost: one\r\n hOsT :  two \r\nnocolon\r\nCookie: a=1\r\nSet-Cookie: b=2\r\nX: y:z\r\n\r\n";
    let m = parse(buf, 0, 0).unwrap();
    assert_eq!(m.host.as_deref(), Some("two"));
    assert_eq!(m.cookies, vec!["a=1", "b=2"]);
    assert_eq!(m.headers.len(), 5);
    assert_eq!(m.headers[1], ("hOsT".to_string(), "two".to_string()));
    assert_eq!(m.headers[4], ("X".to_string(), "y:z".to_string()));
}

#[test]
fn content_length_bounds_the_body() {
    let m = parse(&response("Content-Length: 3\r\n", b"abcdef"), 0, 100).unwrap();
    assert_eq!(m.body_len, 3);
    assert_eq!(m.body_preview.as_deref(), Some("abc"));
    let m = parse(&response("Content-Length: 300\r\n", b"abcdef"), 0, 100).unwrap();
    assert_eq!(m.body_len, 6);
    assert_eq!(m.content_length, Some(300));
    let m = parse(&response("Content-Length: x\r\n", b"abcdef"), 0, 100).unwrap();
    assert_eq!(m.content_length, None);
    assert_eq!(m.body_len, 6);
    let m = parse(&response("Content-Length: 0\r\n", b"abcdef"), 0, 100).unwrap();
    assert_eq!(m.body_len, 0);
    assert_eq!(m.body_offset, None);
    assert_eq!(m.body_decoded_len, None);
    assert!(!m.body_decoded);
}

#[test]
fn a_preview_is_text_or_base64() {
    let binary = [0u8, 1, 2, 3, 0xff, 0xfe];
    let m = parse(&response("Content-Type: image/png\r\n", &binary), 0, 100).unwrap();
    assert_eq!(m.body_preview_base64.as_deref(), Some("AAECA//+"));
    assert_eq!(m.body_preview, None);
    let m = parse(&response("Content-Type: image/png\r\n", &binary), 0, 4).unwrap();
    assert_eq!(m.body_preview_base64.as_deref(), Some("AAECAw=="));
    assert_eq!(m.body_decoded_len, Some(6));
    let m = parse(&response("Content-Type: image/png\r\n", &binary), 0, 5).unwrap();
    assert_eq!(m.body_preview_base64.as_deref(), Some("AAECA/8="));
    // Nothing is shown where nothing may be.
    let m = parse(&response("Content-Type: image/png\r\n", &binary), 0, 0).unwrap();
    assert_eq!((m.body_preview, m.body_preview_base64), (None, None));
    assert!(m.body_decoded);
    // Without a content type the bytes decide.
    let m = parse(&response("", &binary), 0, 100).unwrap();
    assert_eq!(m.body_preview_base64.as_deref(), Some("AAECA//+"));
    let m = parse(&response("", b"\x01\x02\x03\x04\x05"), 0, 100).unwrap();
    assert_eq!(m.body_preview_base64.as_deref(), Some("AQIDBAU="));
    let m = parse(&response("", "caf\u{e9}".as_bytes()), 0, 100).unwrap();
    assert_eq!(m.body_preview.as_deref(), Some("caf\u{e9}"));
    // A text type shows what it can.
    let m = parse(&response("Content-Type: text/html; charset=x\r\n", &binary), 0, 100).unwrap();
    assert_eq!(m.body_preview.as_deref(), Some("......"));
}

#[test]
fn text_content_types() {
    for ct in [
        "text/plain",
        "TEXT/HTML",
        "application/json",
        " application/json ; charset=utf-8",
        "application/x-www-form-urlencoded",
        "application/xml",
        "application/xhtml+xml",
        "application/javascript",
        "application/x-javascript",
        "application/ld+json",
        "application/graphql",
        "application/csp-report",
        "application/manifest+json",
        "application/vnd.api+json",
        "image/svg+xml",
        "application/problem+json",
        "application/atom+xml",
    ] {
        assert!(is_text_content(Some(ct)), "{}", ct);
    }
    for ct in ["image/png", "application/octet-stream", "", "application/jsonp"] {
        assert!(!is_text_content(Some(ct)), "{}", ct);
    }
    assert!(is_text_content(None));
}

#[test]
fn nine_tenths_must_be_legible() {
    assert!(!mostly_printable(""));
    assert!(mostly_printable("123456789\u{1}"));
    assert!(!mostly_printable("12345678\u{1}"));
    assert!(mostly_printable("\u{e9}\u{e9}"));
    let mut long = "a".repeat(512);
    long.push_str(&"\u{1}".repeat(5000));
    assert!(mostly_printable(&long));
}

#[test]
fn chunks_in_their_forms() {
    assert_eq!(dechunk(b"5;ext=1\r\nhello\r\n0\r\n\r\n"), b"hello");
    assert_eq!(dechunk(b"A\n0123456789\n1\nx\n0\n"), b"0123456789x");
    assert_eq!(dechunk(b" 3 \r\nabc\r\n"), b"abc");
    // Whatever stands after the last chunk is not read.
    assert_eq!(dechunk(b"1\r\na\r\n0\r\ntrailer: x\r\n\r\n5\r\nhello\r\n"), b"a");
    // A size that cannot be read, or a chunk cut short, ends the body.
    assert_eq!(dechunk(b"1\r\na\r\nzz\r\nb\r\n"), b"a");
    assert_eq!(dechunk(b"1\r\na\r\n9\r\nshort\r\n"), b"a");
    assert_eq!(dechunk(b"1\r\na\r\nffffffffffffffff\r\nb\r\n"), b"a");
    assert_eq!(dechunk(b"no line break"), b"");
    assert_eq!(dechunk(b""), b"");
}

#[test]
fn chunks_read_back() {
    let parts: Vec<Vec<u8>> = vec![vec![1; 300], b"\r\n\n;".to_vec(), vec![10; 17]];
    let mut body: Vec<u8> = Vec::new();
    for p in &parts {
        body.extend_from_slice(format!("{:x}\r\n", p.len()).as_bytes());
        body.extend_from_slice(p);
        body.extend_from_slice(b"\r\n");
    }
    body.extend_from_slice(b"0\r\n\r\n");
    assert_eq!(dechunk(&body), parts.concat());
}

#[test]
fn codings_are_named_in_order() {
    assert_eq!(
        codings(" GZip,, x-gzip ,deflate,br,identity,none,zstd "),
        vec![
            Coding::Gzip,
            Coding::Gzip,
            Coding::Deflate,
            Coding::Brotli,
            Coding::Identity,
            Coding::Identity,
            Coding::Unknown,
        ]
    );
    assert!(codings("").is_empty());
}

#[test]
fn every_coding_is_undone() {
    let text = b"one two three one two three one two three";
    assert_eq!(decode_encoded(&gzip(text), "gzip"), (text.to_vec(), true));
    assert_eq!(decode_encoded(&gzip(text), "x-gzip"), (text.to_vec(), true));
    assert_eq!(decode_encoded(&zlib(text), "deflate"), (text.to_vec(), true));
    assert_eq!(decode_encoded(&deflate(text), "deflate"), (text.to_vec(), true));
    assert_eq!(decode_encoded(&brotli(text), "br"), (text.to_vec(), true));
    assert_eq!(decode_encoded(text, "identity"), (text.to_vec(), true));
    assert_eq!(decode_encoded(text, ""), (text.to_vec(), true));
    // Two gzip members are one body.
    let mut two = gzip(b"ab");
    two.extend(gzip(b"cd"));
    assert_eq!(decode_encoded(&two, "gzip"), (b"abcd".to_vec(), true));
}

#[test]
fn layers_come_off_from_the_last() {
    let text = b"layered layered layered layered";
    let both = brotli(&gzip(text));
    assert_eq!(decode_encoded(&both, "gzip, br"), (text.to_vec(), true));
    // What could be undone stays undone.
    assert_eq!(decode_encoded(&brotli(b"xyz"), "zstd, br"), (b"xyz".to_vec(), false));
    assert_eq!(decode_encoded(b"raw", "br, zstd"), (b"raw".to_vec(), false));
}

#[test]
fn a_body_that_cannot_be_decoded_stays_as_it_is() {
    let m = parse(&response("Content-Encoding: gzip\r\n", b"not gzip"), 0, 100).unwrap();
    assert!(!m.body_decoded);
    assert_eq!(m.body_preview.as_deref(), Some("not gzip"));
    assert_eq!(decode_encoded(b"\xff\xff\xff", "br").1, false);
    assert_eq!(decode_encoded(b"\xff\xff\xff", "deflate").1, false);
}

#[test]
fn chunked_and_compressed() {
    let gz = gzip(b"both at once");
    let mut body = format!("{:x}\r\n", gz.len()).into_bytes();
    body.extend_from_slice(&gz);
    body.extend_from_slice(b"\r\n0\r\n\r\n");
    let m = parse(
        &response("Transfer-Encoding: Chunked\r\nContent-Encoding: GZIP\r\n", &body),
        0,
        100,
    )
    .unwrap();
    assert!(m.body_decoded);
    assert_eq!(m.body_preview.as_deref(), Some("both at once"));
}

#[test]
fn an_empty_zlib_result_does_not_count() {
    assert_eq!(keep_nonempty(None), None);
    assert_eq!(keep_nonempty(Some(vec![])), None);
    assert_eq!(keep_nonempty(Some(vec![7])), Some(vec![7]));
}

#[test]
fn a_head_can_be_read_without_its_body() {
    let buf = response("Content-Encoding: gzip\r\nContent-Length: 4\r\n", b"abcdef");
    let mut m = parse_head(&buf, 10).unwrap();
    assert_eq!(m.body_len, 4);
    assert_eq!(m.body_decoded_len, None);
    assert_eq!(m.body_offset, Some(10 + buf.len() - 6));
    write_body(&mut m, b"decoded text", true, 7);
    assert!(m.body_decoded);
    assert_eq!(m.body_decoded_len, Some(12));
    assert_eq!(m.body_preview.as_deref(), Some("decoded"));
    let mut other = HttpMessage::default();
    write_body(&mut other, b"", false, 7);
    assert_eq!(other.body_decoded_len, Some(0));
    assert_eq!((other.body_preview, other.body_preview_base64), (None, None));
}
