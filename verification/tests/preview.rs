use burpex::classify::Kind;
use burpex::counts::{take_top, Counts};
use burpex::frame::FrameIter;
use burpex::order::{dedup_inplace, place, Place};
use burpex::preview::{ascii_preview, dump, frame_line, goes_on, kind_to_str, Dumping, Listing};
use burpex::ProjectFile;

fn frame(payload: &[u8]) -> Vec<u8> {
    let inner = payload.len() as u32;
    let mut v: Vec<u8> = Vec::new();
    v.extend_from_slice(&(inner + 8).to_be_bytes());
    v.extend_from_slice(&inner.to_be_bytes());
    v.extend_from_slice(payload);
    v
}

#[test]
fn kinds_have_names() {
    let names: Vec<&str> = [
        Kind::HttpRequest,
        Kind::HttpResponse,
        Kind::Utf16Text,
        Kind::Utf8Text,
        Kind::Json,
        Kind::SmallId,
        Kind::StateBlob,
        Kind::Empty,
        Kind::Unknown,
    ]
    .iter()
    .map(kind_to_str)
    .collect();
    assert_eq!(
        names,
        vec![
            "http_request",
            "http_response",
            "utf16_text",
            "utf8_text",
            "json",
            "small_id",
            "state_blob",
            "empty",
            "unknown"
        ]
    );
}

#[test]
fn previews_escape_what_cannot_be_shown() {
    assert_eq!(ascii_preview(b"a\tb\r\n\x00\xff~", 80), "a\\tb\\r\\n..~");
    assert_eq!(ascii_preview(b"abcdef", 3), "abc");
    assert_eq!(ascii_preview(b"", 3), "");
}

#[test]
fn a_frame_is_one_json_line() {
    let buf = frame(b"say \"hi\\there\"\n now");
    let fr = FrameIter::new(&buf).next().unwrap();
    let want = r#"{"offset":0,"size":19,"kind":"utf8_text","head":"say \"hi\\there\"\\n now"}"#;
    assert_eq!(frame_line(&fr, &buf, None, 0).as_deref(), Some(want));
    assert_eq!(frame_line(&fr, &buf, Some("utf8_text"), 19).as_deref(), Some(want));
    assert_eq!(frame_line(&fr, &buf, Some("json"), 0), None);
    assert_eq!(frame_line(&fr, &buf, None, 20), None);
    // The line is JSON, and its head reads back as the preview.
    let v: serde_json::Value = serde_json::from_str(want).unwrap();
    assert_eq!(v["head"].as_str(), Some("say \"hi\\there\"\\n now"));
}

#[test]
fn listings_stop_at_their_limit() {
    assert!(goes_on(1, None));
    assert!(goes_on(1, Some(2)));
    assert!(!goes_on(2, Some(2)));
    assert!(!goes_on(1, Some(0)));
}

#[test]
fn payloads_are_dumped_under_their_names() {
    let mut utf16: Vec<u8> = Vec::new();
    for b in b"wide text here" {
        utf16.push(0);
        utf16.push(*b);
    }
    let mut buf = vec![1u8; 16];
    buf.extend(frame(&utf16));
    let fr = FrameIter::new(&buf).next().unwrap();
    let (name, bytes) = dump(&fr, &buf, 3).unwrap();
    assert_eq!(name, "00000003_0x00000018_utf16_text.txt");
    assert_eq!(bytes, b"wide text here");
    let (other, _) = dump(&fr, &buf, 4).unwrap();
    assert_ne!(name, other);
    let (long, _) = dump(&fr, &buf, 123456789).unwrap();
    assert_eq!(long, "123456789_0x00000018_utf16_text.txt");

    let json = frame(br#"{"k": "v"}"#);
    let fr = FrameIter::new(&json).next().unwrap();
    let (name, bytes) = dump(&fr, &json, 0).unwrap();
    assert_eq!(name, "00000000_0x00000008_json.json");
    assert_eq!(bytes, br#"{"k": "v"}"#);

    let text = frame(b"just some text");
    let fr = FrameIter::new(&text).next().unwrap();
    assert_eq!(dump(&fr, &text, 0).unwrap().0, "00000000_0x00000008_utf8_text.txt");

    let small = frame(&[1, 2, 3]);
    let fr = FrameIter::new(&small).next().unwrap();
    assert!(dump(&fr, &small, 0).is_none());
}

#[test]
fn counts_are_kept_in_order() {
    let mut c = Counts::new();
    assert!(c.is_empty());
    for k in ["b", "a", "c", "b", "\u{e9}", "", "b", "c"] {
        c.bump(k);
    }
    assert_eq!(c.get("b"), Some(3));
    assert_eq!(c.get("x"), None);
    let want: Vec<(String, u64)> = vec![
        ("".to_string(), 1),
        ("a".to_string(), 1),
        ("b".to_string(), 3),
        ("c".to_string(), 2),
        ("\u{e9}".to_string(), 1),
    ];
    assert_eq!(c.entries(), want);
}

#[test]
fn the_largest_counts_come_first() {
    let mut c = Counts::new();
    for k in ["d", "b", "a", "c", "b", "d", "b"] {
        c.bump(k);
    }
    let want: Vec<(String, u64)> = vec![
        ("b".to_string(), 3),
        ("d".to_string(), 2),
        ("a".to_string(), 1),
        ("c".to_string(), 1),
    ];
    assert_eq!(take_top(&c, 10), want);
    assert_eq!(take_top(&c, 2), want[..2].to_vec());
    assert!(take_top(&c, 0).is_empty());
}

#[test]
fn texts_are_ordered_as_strings_are() {
    let list = ["", "a", "ab", "b", "Z", "\u{7f}", "\u{80}", "\u{ffff}", "\u{10000}"];
    for a in list {
        for b in list {
            let want = if a < b {
                Place::Before
            } else if a == b {
                Place::Same
            } else {
                Place::After
            };
            assert_eq!(place(a, b), want);
        }
    }
}

#[test]
fn sorting_drops_what_occurs_twice() {
    let mut v: Vec<String> = Vec::new();
    let mut seed: u32 = 7;
    for _ in 0..500 {
        seed = seed.wrapping_mul(1664525).wrapping_add(1013904223);
        v.push(format!("{}", seed >> 25));
    }
    let mut want = v.clone();
    want.sort();
    want.dedup();
    dedup_inplace(&mut v);
    assert_eq!(v, want);
    let mut none: Vec<String> = Vec::new();
    dedup_inplace(&mut none);
    assert!(none.is_empty());
}

fn listed(buf: &[u8], want: Option<&str>, min_size: u32, limit: Option<u64>) -> Vec<String> {
    let pf = ProjectFile::open("x".to_string(), buf);
    let mut out: Vec<String> = Vec::new();
    let mut lines = Listing::new(&pf, want, min_size, limit);
    while let Some(line) = lines.next() {
        out.push(line);
    }
    out
}

#[test]
fn a_listing_ends_at_its_limit() {
    let mut buf: Vec<u8> = Vec::new();
    for text in ["just some text", "abc", "and some more text", "the last of the texts"] {
        buf.extend(frame(text.as_bytes()));
    }
    let all = listed(&buf, None, 0, None);
    assert_eq!(all.len(), 4);
    assert_eq!(
        all[1],
        r#"{"offset":22,"size":3,"kind":"small_id","head":"abc"}"#
    );
    for n in 0..6usize {
        let some = listed(&buf, None, 0, Some(n as u64));
        assert_eq!(some, all[..n.min(4)].to_vec());
    }
    assert_eq!(listed(&buf, Some("utf8_text"), 0, Some(2)), vec![all[0].clone(), all[2].clone()]);
    assert_eq!(listed(&buf, None, 18, None), vec![all[2].clone(), all[3].clone()]);
    assert!(listed(&buf, Some("json"), 0, None).is_empty());
}

#[test]
fn a_dump_numbers_its_files() {
    let mut buf: Vec<u8> = Vec::new();
    buf.extend(frame(b"just some text"));
    buf.extend(frame(&[1, 2, 3, 4, 5, 6, 7, 8]));
    buf.extend(frame(br#"{"k": "v"}"#));
    let pf = ProjectFile::open("x".to_string(), &buf);
    let mut files = Dumping::new(&pf);
    let first = files.next().unwrap();
    assert_eq!(first.0, "00000000_0x00000008_utf8_text.txt");
    assert_eq!(first.1, b"just some text");
    let second = files.next().unwrap();
    assert_eq!(second.0, "00000001_0x0000002e_json.json");
    assert!(files.next().is_none());
    assert_eq!(files.count(), 2);
}
