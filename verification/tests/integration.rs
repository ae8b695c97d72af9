//! A whole project: a small file with a header, frame runs, trailers, a state
//! blob and a zero tail.

use burpex::{BurpProject, Options};

fn frame(payload: &[u8]) -> Vec<u8> {
    let inner = payload.len() as u32;
    let mut v: Vec<u8> = Vec::new();
    v.extend_from_slice(&(inner + 8).to_be_bytes());
    v.extend_from_slice(&inner.to_be_bytes());
    v.extend_from_slice(payload);
    v
}

fn utf16be(s: &str) -> Vec<u8> {
    let mut v: Vec<u8> = Vec::new();
    for b in s.bytes() {
        v.push(0);
        v.push(b);
    }
    v
}

/// A state blob that holds some strings, and then some frames.
fn state_blob(strings: &[&str], frames: &[Vec<u8>]) -> Vec<u8> {
    let mut v: Vec<u8> = vec![0xff; 256];
    for s in strings {
        v.extend(utf16be(s));
        v.extend_from_slice(&[0xfe, 0xfe, 0xfe]);
    }
    for f in frames {
        v.extend_from_slice(f);
        v.push(0xfe);
    }
    v
}

const REQUEST: &[u8] = b"GET /one?x=1 HTTP/1.1\r\nHost: one.example\r\n\r\n";
const RESPONSE: &[u8] =
    b"HTTP/1.1 200 OK\r\nContent-Type: text/html; charset=utf-8\r\nContent-Length: 2\r\n\r\nhi";
const NESTED: &[u8] = b"POST /two HTTP/1.1\r\nHost: two.example\r\n\r\n";

fn sample() -> Vec<u8> {
    let mut buf = vec![0u8; 0x100];
    buf[..4].copy_from_slice(&[0x66, 0x85, 0x82, 0x80]);
    buf[7] = 1;
    buf.extend(frame(&[0, 0, 0, 9]));
    buf.extend(frame(&[0, 0, 0, 7]));
    buf.extend(frame(REQUEST));
    buf.extend(frame(RESPONSE));
    buf.extend(frame(b"/one/in/the/map"));
    buf.extend_from_slice(&[0xff; 12]);
    buf.extend(frame(&state_blob(
        &[
            "https://three.example/x",
            "return true; rule",
            "mail@example.org",
            "four.example",
        ],
        &[frame(NESTED)],
    )));
    let used = buf.len() as u64;
    buf[0x38..0x40].copy_from_slice(&used.to_be_bytes());
    buf.extend(vec![0u8; 64]);
    buf
}

#[test]
fn opens_a_real_project() {
    let buf = sample();
    let proj = BurpProject::open("sample.burp".to_string(), &buf);
    assert!(proj.is_valid(), "magic bytes should match");
    assert!(proj.size() > 0);
    assert_eq!(proj.path(), "sample.burp");
    assert_eq!(proj.project_file().bytes(), &buf[..]);
    assert!(!BurpProject::open("x".to_string(), &buf[1..]).is_valid());
    assert!(!BurpProject::open("x".to_string(), &buf[..3]).is_valid());
}

#[test]
fn header_has_used_size_within_file() {
    let buf = sample();
    let proj = BurpProject::open("sample.burp".to_string(), &buf);
    let h = proj.header().expect("header");
    assert!(h.magic_ok);
    assert!(h.used_size as usize <= proj.size());
    assert!(BurpProject::open("x".to_string(), &buf[..0x4f]).header().is_none());
}

#[test]
fn layout_marks_tail_as_zero() {
    let buf = sample();
    let proj = BurpProject::open("sample.burp".to_string(), &buf);
    let layout = proj.layout();
    assert!(
        layout.tail_zero_verified,
        "tail past used_size should be zero-padded"
    );
    assert!(!layout.frame_runs.is_empty());
    assert_eq!(layout.tail_zero_bytes, 64);
    assert_eq!(layout.frame_runs.len(), 2);
    assert_eq!(layout.frame_runs[0].note, "5 contiguous frames");
    assert_eq!(layout.header_run.end, 0x100);
    assert_eq!(layout.gap_bytes, 12);
}

#[test]
fn finds_http_messages() {
    let buf = sample();
    let proj = BurpProject::open("sample.burp".to_string(), &buf);
    let n = proj.http_messages().with_body_cap(0).collect().len();
    assert!(n > 0, "expected to find some HTTP messages, got {}", n);
    assert_eq!(n, 3);
}

#[test]
fn transactions_match_request_count() {
    let buf = sample();
    let proj = BurpProject::open("sample.burp".to_string(), &buf);
    let txns = proj.transactions().with_body_cap(0).collect();
    let requests = txns.iter().filter(|t| t.request.is_some()).count();
    assert_eq!(
        txns.len(),
        requests,
        "every transaction should at least have a request"
    );
    assert!(txns.len() > 0);
    assert_eq!(txns.len(), 2);
}

#[test]
fn extract_summary_has_stats() {
    let buf = sample();
    let proj = BurpProject::open("sample.burp".to_string(), &buf);
    let f = proj.extract();
    assert!(f.stats.total_frames > 0);
    // Frames in state blobs are counted at every depth they appear.
    assert!(f.stats.bytes_in_frames > 0);
    assert!(!f.hosts.is_empty());
    assert!(f.stats.requests > 0);
}

#[test]
fn request_url_is_buildable_when_host_present() {
    let buf = sample();
    let proj = BurpProject::open("sample.burp".to_string(), &buf);
    for t in proj
        .transactions()
        .with_body_cap(0)
        .collect()
        .into_iter()
        .take(50)
    {
        if let Some(url) = t.request_url() {
            assert!(url.starts_with("https://"));
            assert!(url.contains('/'));
        }
    }
    let urls: Vec<Option<String>> = proj.transactions().iter().map(|t| t.request_url()).collect();
    assert_eq!(
        urls,
        vec![
            Some("https://one.example/one?x=1".to_string()),
            Some("https://two.example/two".to_string()),
        ]
    );
}

#[test]
fn a_cluster_becomes_one_transaction() {
    let buf = sample();
    let proj = BurpProject::open("sample.burp".to_string(), &buf);
    let txns = proj.transactions().collect();
    let t = &txns[0];
    assert!(t.is_paired());
    assert_eq!(t.transaction_id, Some(9));
    assert_eq!(t.secondary_id, Some(7));
    assert_eq!(t.sitemap_path.as_deref(), Some("/one/in/the/map"));
    assert_eq!(&buf[t.offset..t.offset + REQUEST.len()], REQUEST);
    let resp = t.response.as_ref().unwrap();
    assert_eq!(resp.status, Some(200));
    assert_eq!(&buf[resp.offset..resp.offset + RESPONSE.len()], RESPONSE);
    // The one in the state blob stands alone.
    let n = &txns[1];
    assert!(!n.is_paired());
    assert_eq!((n.transaction_id, n.secondary_id), (None, None));
    assert_eq!(&buf[n.offset..n.offset + NESTED.len()], NESTED);
}

#[test]
fn extraction_agrees_with_itself() {
    let buf = sample();
    let proj = BurpProject::open("sample.burp".to_string(), &buf);
    let f = proj.extract();
    assert_eq!(f.file, "sample.burp");
    assert_eq!(f.size, buf.len());
    assert_eq!(f.stats.total_frames, 7);
    assert_eq!(f.stats.requests, 2);
    assert_eq!(f.stats.responses, 1);
    assert_eq!(f.http_messages.len(), 3);
    assert_eq!(f.stats.small_ids, 2);
    assert_eq!(f.stats.state_blobs, 1);
    assert_eq!(f.state_blobs.len(), 1);
    assert_eq!(f.state_blob_index.len(), 1);
    assert_eq!(f.other_text.len(), 1);
    assert_eq!(f.other_text[0].text, "/one/in/the/map");
    assert_eq!(f.hosts.get("one.example"), Some(1));
    assert_eq!(f.hosts.get("two.example"), Some(1));
    assert_eq!(f.hosts.get("three.example"), Some(1));
    assert_eq!(f.hosts.get("four.example"), Some(1));
    assert_eq!(f.hosts.get("five.example"), None);
    assert_eq!(f.methods.get("GET"), Some(1));
    assert_eq!(f.methods.get("POST"), Some(1));
    assert_eq!(f.status_codes.get(&200), Some(&1));
    assert_eq!(f.content_types.get("text/html"), Some(1));
    assert_eq!(f.project.scope_includes, vec!["return true; rule"]);
    assert_eq!(f.project.leaked_emails, vec!["mail@example.org"]);
    assert!(f.stats.bytes_in_frames <= 5 * buf.len() as u64);
    let blob = &f.state_blobs[0];
    assert_eq!(
        burpex::classify(&buf[blob.offset..blob.offset + blob.size as usize]),
        burpex::Kind::StateBlob
    );
}

#[test]
fn options_bound_the_extraction() {
    let buf = sample();
    let proj = BurpProject::open("sample.burp".to_string(), &buf);
    let f = proj.extract_with(&Options {
        max_frames: Some(3),
        ..Options::default()
    });
    assert_eq!(f.stats.total_frames, 3);
    assert_eq!(f.stats.requests, 1);
    assert_eq!(f.stats.responses, 0);
    let f = proj.extract_with(&Options {
        max_frames: Some(0),
        ..Options::default()
    });
    assert_eq!(f.stats.total_frames, 0);
    assert_eq!(f.stats.bytes_in_gaps, buf.len() as u64);
    let f = proj.extract_with(&Options {
        include_other_text: false,
        body_cap: 1,
        ..Options::default()
    });
    assert!(f.other_text.is_empty());
    assert_eq!(f.http_messages[1].body_preview.as_deref(), Some("h"));
}

#[test]
fn requests_and_responses_part_the_messages() {
    let buf = sample();
    let proj = BurpProject::open("sample.burp".to_string(), &buf);
    let requests: Vec<_> = proj.http_messages().requests().collect();
    let responses: Vec<_> = proj.http_messages().responses().collect();
    assert_eq!(requests.len(), 2);
    assert_eq!(responses.len(), 1);
    assert!(requests.iter().all(|m| m.kind == "request"));
    assert!(responses.iter().all(|m| m.kind == "response"));
    let all: Vec<usize> = proj.http_messages().iter().map(|m| m.offset).collect();
    assert_eq!(all.len(), 3);
    assert!(all.windows(2).all(|w| w[0] < w[1]));
}

#[test]
fn a_callback_can_stop_a_walk() {
    let buf = sample();
    let proj = BurpProject::open("sample.burp".to_string(), &buf);
    let mut seen: Vec<usize> = Vec::new();
    proj.http_messages().for_each(|m| {
        seen.push(m.offset);
        seen.len() < 2
    });
    let all: Vec<usize> = proj.http_messages().iter().map(|m| m.offset).collect();
    assert_eq!(seen, all[..2].to_vec());
    let mut n = 0;
    proj.transactions().for_each(|_| {
        n += 1;
        false
    });
    assert_eq!(n, 1);
    let mut every = 0;
    proj.transactions().for_each(|_| {
        every += 1;
        true
    });
    assert_eq!(every, 2);
}

#[test]
fn frames_are_walked_from_the_top() {
    let buf = sample();
    let proj = BurpProject::open("sample.burp".to_string(), &buf);
    assert_eq!(proj.frames().collect().len(), 6);
}

#[test]
fn a_lone_id_is_the_transactions() {
    let mut buf = frame(&[0, 0, 1, 0]);
    buf.extend(frame(REQUEST));
    let proj = BurpProject::open("x".to_string(), &buf);
    let t = &proj.transactions().collect()[0];
    assert_eq!((t.transaction_id, t.secondary_id), (Some(256), None));
    assert!(t.response.is_none());
    // Only the two nearest ids count.
    let mut buf: Vec<u8> = Vec::new();
    for id in 1u8..7 {
        buf.extend(frame(&[0, 0, 0, id]));
    }
    buf.extend(frame(REQUEST));
    let proj = BurpProject::open("x".to_string(), &buf);
    let t = &proj.transactions().collect()[0];
    assert_eq!((t.transaction_id, t.secondary_id), (Some(5), Some(6)));
}

#[test]
fn a_cluster_ends_after_its_text_or_before_the_next_request() {
    // The response stands behind the text: it is not looked for there.
    let mut buf = frame(REQUEST);
    buf.extend(frame(b"some plain text"));
    buf.extend(frame(RESPONSE));
    let proj = BurpProject::open("x".to_string(), &buf);
    let txns = proj.transactions().collect();
    assert_eq!(txns.len(), 1);
    assert!(txns[0].response.is_none());
    assert_eq!(txns[0].sitemap_path, None);
    // Two requests in a row share nothing.
    let mut buf = frame(REQUEST);
    buf.extend(frame(REQUEST));
    buf.extend(frame(RESPONSE));
    let proj = BurpProject::open("x".to_string(), &buf);
    let txns = proj.transactions().collect();
    assert_eq!(txns.len(), 2);
    assert!(txns[0].response.is_none());
    assert!(txns[1].is_paired());
    // Four frames are looked at, not five.
    for (gap, paired) in [(3usize, true), (4usize, false)] {
        let mut buf = frame(REQUEST);
        for _ in 0..gap {
            buf.extend(frame(&[1, 2, 3, 4, 5]));
        }
        buf.extend(frame(RESPONSE));
        let proj = BurpProject::open("x".to_string(), &buf);
        assert_eq!(proj.transactions().collect()[0].is_paired(), paired);
    }
    // The first response counts.
    let mut buf = frame(REQUEST);
    buf.extend(frame(RESPONSE));
    buf.extend(frame(b"HTTP/1.1 500 Oops\r\n\r\n"));
    let proj = BurpProject::open("x".to_string(), &buf);
    let txns = proj.transactions().collect();
    assert_eq!(txns[0].response.as_ref().unwrap().status, Some(200));
}

#[test]
fn a_request_without_an_end_is_no_transaction() {
    let mut buf = frame(b"GET / HTTP/1.1\r\nHost: x\r\n");
    let proj = BurpProject::open("x".to_string(), &buf);
    assert!(proj.transactions().collect().is_empty());
    assert!(proj.http_messages().collect().is_empty());
    // It still ends the cluster before it, and hides nothing after it.
    let mut all = frame(REQUEST);
    all.append(&mut buf);
    all.extend(frame(RESPONSE));
    all.extend(frame(NESTED));
    let proj = BurpProject::open("x".to_string(), &all);
    let txns = proj.transactions().collect();
    assert_eq!(txns.len(), 2);
    assert!(txns.iter().all(|t| t.request.is_some() && t.response.is_none()));
}

#[test]
fn the_walk_goes_four_state_blobs_deep() {
    let mut payload = NESTED.to_vec();
    let strings = ["alpha", "bravo", "charlie", "delta"];
    for depth in 1..=5usize {
        payload = state_blob(&strings, &[frame(&payload)]);
        let buf = frame(&payload);
        let proj = BurpProject::open("x".to_string(), &buf);
        let found = if depth <= 4 { 1 } else { 0 };
        assert_eq!(proj.http_messages().collect().len(), found);
        assert_eq!(proj.transactions().collect().len(), found);
        assert_eq!(proj.extract().http_messages.len(), found);
    }
}

#[test]
fn unknown_frames_are_kept_on_request() {
    let buf = frame(&[0xff, 0, 1, 2, 3, 4, 5, 6, 7, 8]);
    let proj = BurpProject::open("x".to_string(), &buf);
    let f = proj.extract();
    assert_eq!(f.stats.unknown, 1);
    assert!(f.unknown_frames.is_empty());
    let f = proj.extract_with(&Options {
        include_unknown: true,
        ..Options::default()
    });
    assert_eq!(f.unknown_frames.len(), 1);
    assert_eq!(f.unknown_frames[0].offset, 0);
    assert_eq!(f.unknown_frames[0].size, 18);
    assert_eq!(f.unknown_frames[0].preview, "ff 00 01 02 03 04 05 06 07 08");
}

#[test]
fn texts_and_json_are_kept() {
    let mut buf = frame(&utf16be("settings text"));
    buf.extend(frame(br#"{"a": [1, 2]}"#));
    let proj = BurpProject::open("x".to_string(), &buf);
    let f = proj.extract();
    assert_eq!(f.config_blobs.len(), 1);
    assert_eq!(f.config_blobs[0].text, "settings text");
    assert_eq!(f.config_blobs[0].encoding, "utf-16");
    assert_eq!(f.json_blobs[0].text, r#"{"a": [1, 2]}"#);
    assert_eq!(f.json_blobs[0].encoding, "utf-8");
    assert_eq!((f.stats.utf16_blobs, f.stats.json_blobs), (1, 1));
}

#[test]
fn requests_in_state_blobs_within_a_cluster_are_found() {
    let strings = ["alpha", "bravo", "charlie", "delta"];
    let blob = frame(&state_blob(&strings, &[frame(NESTED)]));
    let mut buf = frame(REQUEST);
    buf.extend_from_slice(&blob);
    buf.extend(frame(RESPONSE));
    let proj = BurpProject::open("x".to_string(), &buf);
    let txns = proj.transactions().collect();
    assert_eq!(txns.len(), 2);
    assert!(txns[0].is_paired());
    assert_eq!(txns[1].request_url().as_deref(), Some("https://two.example/two"));
    assert!(!txns[1].is_paired());
    assert_eq!(proj.extract().stats.requests, 2);
    let mut buf = frame(REQUEST);
    buf.extend(frame(b"/one/in/the/map"));
    buf.extend_from_slice(&blob);
    let proj = BurpProject::open("x".to_string(), &buf);
    assert_eq!(proj.transactions().collect().len(), 2);
}

#[test]
fn transactions_and_messages_come_in_order() {
    let buf = sample();
    let proj = BurpProject::open("sample.burp".to_string(), &buf);
    let txns: Vec<usize> = proj.transactions().iter().map(|t| t.offset).collect();
    assert!(txns.windows(2).all(|w| w[0] < w[1]));
    let requests: Vec<usize> = proj.http_messages().requests().map(|m| m.offset).collect();
    assert_eq!(txns, requests);
    for t in proj.transactions().iter() {
        let m = t.request.as_ref().unwrap();
        assert_eq!((m.kind, m.offset), ("request", t.offset));
        if let Some(r) = &t.response {
            assert_eq!(r.kind, "response");
            assert!(r.offset > t.offset);
        }
    }
    assert_eq!(proj.extract().stats.requests, txns.len() as u64);
}

#[test]
fn what_is_kept_changes_two_lists_only() {
    let mut buf = sample();
    buf.extend(frame(&[0xff, 0, 1, 2, 3, 4, 5, 6, 7, 8]));
    let proj = BurpProject::open("sample.burp".to_string(), &buf);
    let a = proj.extract();
    let b = proj.extract_with(&Options {
        include_unknown: true,
        include_other_text: false,
        ..Options::default()
    });
    assert_eq!((a.unknown_frames.len(), b.unknown_frames.len()), (0, 1));
    assert_eq!((a.other_text.len(), b.other_text.len()), (1, 0));
    assert_eq!(a.stats.total_frames, b.stats.total_frames);
    assert_eq!(a.stats.unknown, b.stats.unknown);
    assert_eq!(a.hosts.entries(), b.hosts.entries());
    assert_eq!(a.http_messages.len(), b.http_messages.len());
    assert_eq!(a.project.leaked_emails, b.project.leaked_emails);
}

#[test]
fn a_web_address_is_the_one_that_was_asked_for() {
    for target in ["/", "/a?b=1&c=", "*", "/x?=&=", "/p?a==b"] {
        let text = format!("GET {} HTTP/1.1\r\nHost: h.example:81\r\n\r\n", target);
        let buf = frame(text.as_bytes());
        let proj = BurpProject::open("x".to_string(), &buf);
        let txns = proj.transactions().collect();
        assert_eq!(
            txns[0].request_url(),
            Some(format!("https://h.example:81{}", target))
        );
    }
}
