use burpex::classify::{classify, extract_ascii_strings, extract_utf16be_strings, Kind};

fn utf16be(s: &str) -> Vec<u8> {
    let mut v: Vec<u8> = Vec::new();
    for b in s.bytes() {
        v.push(0);
        v.push(b);
    }
    v
}

#[test]
fn classifies_http_request() {
    let req = b"GET /foo HTTP/1.1\r\nHost: x\r\n\r\n";
    assert_eq!(classify(req), Kind::HttpRequest);
}

#[test]
fn classifies_http_response() {
    let resp = b"HTTP/1.1 200 OK\r\nContent-Type: text/plain\r\n\r\nhi";
    assert_eq!(classify(resp), Kind::HttpResponse);
}

#[test]
fn classifies_short_payload_as_smallid() {
    assert_eq!(classify(&[1, 2, 3, 4]), Kind::SmallId);
}

#[test]
fn empty_payload() {
    assert_eq!(classify(&[]), Kind::Empty);
}

#[test]
fn classifies_json() {
    let j = br#"{"a":1,"b":[2,3],"c":"hi"}xxxxxxxxxxxx"#;
    assert_eq!(classify(j), Kind::Json);
}

#[test]
fn extracts_utf16be_strings() {
    // "hello" in UTF-16BE + junk + "world"
    let mut buf = vec![];
    for c in b"hello" {
        buf.extend_from_slice(&[0, *c]);
    }
    buf.extend_from_slice(&[0xff, 0xff, 0xff, 0xff]);
    for c in b"world" {
        buf.extend_from_slice(&[0, *c]);
    }
    let strings = extract_utf16be_strings(&buf, 3);
    assert!(strings.contains(&"hello".to_string()));
    assert!(strings.contains(&"world".to_string()));
}

#[test]
fn extracts_ascii_strings() {
    let buf = b"\x00\x00\x00hello\x00world\x00\x00mini";
    let strings = extract_ascii_strings(buf, 4);
    assert_eq!(strings, vec!["hello", "world", "mini"]);
}

#[test]
fn request_needs_a_version_in_its_first_line() {
    assert_eq!(classify(b"GET /foo\r\nHost: x HTTP/1.1\r\n\r\n"), Kind::Utf8Text);
    assert_eq!(classify(b"GET /foo HTTP/"), Kind::Utf8Text);
    assert_eq!(classify(b"GET /foo HTTP/\n"), Kind::Utf8Text);
    assert_eq!(classify(b"GET /foo HTTP/1\n"), Kind::HttpRequest);
    assert_eq!(classify(b"FETCH /foo HTTP/1.1\r\n\r\n"), Kind::Utf8Text);
}

#[test]
fn every_method_is_known() {
    for m in ["GET", "POST", "PUT", "DELETE", "HEAD", "OPTIONS", "PATCH", "CONNECT", "TRACE"] {
        let line = format!("{} / HTTP/1.1\r\n\r\n", m);
        assert_eq!(classify(line.as_bytes()), Kind::HttpRequest);
    }
}

#[test]
fn utf16_text_in_either_byte_order() {
    assert_eq!(classify(&utf16be("a longer text")), Kind::Utf16Text);
    let mut le: Vec<u8> = Vec::new();
    for b in "a longer text".bytes() {
        le.push(b);
        le.push(0);
    }
    assert_eq!(classify(&le), Kind::Utf16Text);
    // Less than sixteen bytes is too short to tell.
    assert_eq!(classify(&utf16be("abcdefg")), Kind::Unknown);
}

#[test]
fn state_blob_needs_size_and_runs() {
    let mut blob: Vec<u8> = Vec::new();
    for _ in 0..4 {
        blob.extend_from_slice(&[0xff; 80]);
        blob.extend_from_slice(&utf16be("text"));
    }
    assert!(blob.len() >= 256);
    assert_eq!(classify(&blob), Kind::StateBlob);
    assert_eq!(classify(&blob[..250]), Kind::Unknown);
    let three = &blob[..blob.len() - 8];
    assert_eq!(classify(three), Kind::Unknown);
}

#[test]
fn json_brackets_in_strings_do_not_count() {
    assert_eq!(classify(br#"  [ "]\"]", 1 ]  "#), Kind::Json);
    assert_eq!(classify(br#"{ "open": "}" "#), Kind::Utf8Text);
}

#[test]
fn runs_shorter_than_wanted_are_dropped() {
    let mut buf = utf16be("abc");
    buf.push(0xff);
    buf.extend_from_slice(&utf16be("defg"));
    assert_eq!(extract_utf16be_strings(&buf, 4), vec!["defg"]);
    assert_eq!(extract_utf16be_strings(&buf, 3), vec!["abc", "defg"]);
    assert!(extract_ascii_strings(b"ab\x00cd", 3).is_empty());
}

#[test]
fn runs_are_pulled_out_whole() {
    let buf = b"\x01short\x02long enough\x03\x00h\x00o\x00s\x00t\x00\x00a\x00b";
    assert_eq!(extract_ascii_strings(buf, 5), vec!["short", "long enough"]);
    assert_eq!(extract_ascii_strings(buf, 6), vec!["long enough"]);
    assert_eq!(extract_utf16be_strings(buf, 4), vec!["host"]);
    assert_eq!(extract_utf16be_strings(buf, 2), vec!["host", "ab"]);
    assert_eq!(extract_utf16be_strings(buf, 5), Vec::<String>::new());
}

#[test]
fn a_state_blob_has_four_disjoint_runs() {
    // One run of fifteen characters holds three windows of four, one of
    // sixteen holds four.
    for (chars, kind) in [(15usize, Kind::Unknown), (16usize, Kind::StateBlob)] {
        let mut p: Vec<u8> = vec![0xff; 600];
        p.extend(utf16be(&"x".repeat(chars)));
        p.extend(vec![0xff; 600]);
        assert_eq!(classify(&p), kind);
    }
    // Past the first 8192 bytes nothing counts.
    let mut p: Vec<u8> = vec![0xff; 8192 - 31];
    p.extend(utf16be(&"x".repeat(16)));
    assert_eq!(classify(&p), Kind::Unknown);
    let mut p: Vec<u8> = vec![0xff; 8192 - 32];
    p.extend(utf16be(&"x".repeat(16)));
    assert_eq!(classify(&p), Kind::StateBlob);
}
