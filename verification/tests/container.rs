use burpex::container::{analyze, Layout};
use burpex::ProjectFile;

fn frame(payload: &[u8]) -> Vec<u8> {
    let inner = payload.len() as u32;
    let mut v: Vec<u8> = Vec::new();
    v.extend_from_slice(&(inner + 8).to_be_bytes());
    v.extend_from_slice(&inner.to_be_bytes());
    v.extend_from_slice(payload);
    v
}

fn layout(buf: &[u8]) -> Layout {
    analyze(&ProjectFile::open("x".to_string(), buf))
}

/// The note on some bytes between two frames.
fn note(gap: &[u8]) -> String {
    let mut buf = frame(b"one");
    buf.extend_from_slice(gap);
    buf.extend(frame(b"two"));
    let l = layout(&buf);
    assert_eq!(l.trailers.len(), 1);
    assert_eq!(l.trailers[0].size, gap.len() as u64);
    l.trailers[0].note.clone()
}

#[test]
fn an_empty_file_has_an_empty_layout() {
    let l = layout(&[]);
    assert_eq!((l.file_size, l.used_size, l.gap_count), (0, 0, 0));
    assert!(l.tail_zero_verified);
    assert!(l.frame_runs.is_empty());
    assert_eq!(l.header_run.size, 0);
}

#[test]
fn a_short_file_is_used_whole() {
    let mut buf = vec![9u8; 5];
    buf.extend(frame(b"abc"));
    buf.extend(frame(b"de"));
    let l = layout(&buf);
    assert_eq!(l.used_size, buf.len() as u64);
    assert_eq!(l.header_run.end, 5);
    assert_eq!(l.frame_runs.len(), 1);
    assert_eq!((l.frame_runs[0].offset, l.frame_runs[0].end), (5, 26));
    assert_eq!(l.frame_runs[0].note, "2 contiguous frames");
    assert_eq!(l.gap_count, 0);
}

#[test]
fn without_frames_all_is_header() {
    let l = layout(&[7u8; 40]);
    assert_eq!(l.header_run.end, 40);
    assert!(l.trailers.is_empty());
}

#[test]
fn gaps_are_classified() {
    assert_eq!(note(&[5]), "1-byte alignment pad");
    assert_eq!(note(&[0, 0, 0]), "zero padding");
    let mut sentinel = vec![1u8, 2];
    sentinel.extend_from_slice(&[0xff; 8]);
    assert_eq!(note(&sentinel), "trailer (back-pointer + 0xff sentinel + txn id)");
    assert_eq!(note(&[1, 2, 3]), "unclassified (3 bytes, 0 utf-16be runs)");
    let mut strings: Vec<u8> = Vec::new();
    for _ in 0..8 {
        for b in b"text" {
            strings.push(0);
            strings.push(*b);
        }
        strings.push(0xfe);
    }
    assert_eq!(note(&strings), "schema or strings block (8 utf-16be runs)");
    assert_eq!(
        note(&strings[..26]),
        "unclassified (26 bytes, 3 utf-16be runs)"
    );
}

#[test]
fn sections_tile_the_live_data() {
    let mut buf = vec![0u8; 0x60];
    buf.extend(frame(b"abc"));
    buf.extend_from_slice(&[1, 2, 3]);
    buf.extend(frame(b"de"));
    buf.extend(frame(b"fgh"));
    buf.push(4);
    let used = buf.len() as u64;
    buf[0x38..0x40].copy_from_slice(&used.to_be_bytes());
    buf.extend(vec![0u8; 10]);
    let l = layout(&buf);
    let mut spans = vec![(l.header_run.offset, l.header_run.end)];
    for s in l.frame_runs.iter().chain(l.trailers.iter()) {
        assert_eq!(s.size, s.end - s.offset);
        spans.push((s.offset, s.end));
    }
    spans.sort();
    assert_eq!(spans[0].0, 0);
    assert!(spans.windows(2).all(|w| w[0].1 == w[1].0));
    assert_eq!(spans[spans.len() - 1].1, used);
    assert_eq!((l.gap_count, l.gap_bytes), (2, 4));
    assert_eq!(l.tail_zero_bytes, 10);
    // A byte in the tail is noticed.
    let last = buf.len() - 1;
    buf[last] = 1;
    assert!(!layout(&buf).tail_zero_verified);
    // A header that claims more than the file holds.
    buf[0x38..0x40].copy_from_slice(&u64::MAX.to_be_bytes());
    let l = layout(&buf);
    assert_eq!(l.used_size, u64::MAX);
    assert_eq!(l.tail_zero_bytes, 0);
    assert!(l.tail_zero_verified);
}
