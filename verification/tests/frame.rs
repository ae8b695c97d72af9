use burpex::frame::{iter_frames, Frame, FrameIter};
use burpex::ProjectFile;

fn make_frame(payload: &[u8]) -> Vec<u8> {
    let inner = payload.len() as u32;
    let outer = inner + 8;
    let mut v = Vec::with_capacity(outer as usize);
    v.extend_from_slice(&outer.to_be_bytes());
    v.extend_from_slice(&inner.to_be_bytes());
    v.extend_from_slice(payload);
    v
}

#[test]
fn finds_a_single_frame() {
    let buf = make_frame(b"hello");
    let frames: Vec<_> = FrameIter::new(&buf).collect();
    assert_eq!(frames.len(), 1);
    assert_eq!(frames[0].inner, 5);
    assert_eq!(frames[0].payload(&buf), b"hello");
}

#[test]
fn finds_three_back_to_back() {
    let mut buf = Vec::new();
    for s in [b"aaaa".as_ref(), b"bbbbbb", b"cc"] {
        buf.extend(make_frame(s));
    }
    let frames: Vec<_> = FrameIter::new(&buf).collect();
    assert_eq!(frames.len(), 3);
    assert_eq!(frames[0].payload(&buf), b"aaaa");
    assert_eq!(frames[1].payload(&buf), b"bbbbbb");
    assert_eq!(frames[2].payload(&buf), b"cc");
}

#[test]
fn min_inner_filter_works() {
    let mut buf = Vec::new();
    for s in [b"ab".as_ref(), b"abcdef"] {
        buf.extend(make_frame(s));
    }
    let frames: Vec<_> = FrameIter::new(&buf).min_inner(4).collect();
    assert_eq!(frames.len(), 1);
    assert_eq!(frames[0].inner, 6);
}

#[test]
fn ignores_invalid_pair_when_outer_mismatches() {
    // outer != inner + 8 should not match
    let mut buf = vec![];
    buf.extend(&0xeeu32.to_be_bytes());
    buf.extend(&0x10u32.to_be_bytes());
    buf.extend(vec![0u8; 0x10]);
    let frames: Vec<_> = FrameIter::new(&buf).collect();
    assert!(frames.is_empty());
}

#[test]
fn max_inner_filter_works() {
    let mut buf = make_frame(b"abcdef");
    buf.extend(make_frame(b"ab"));
    let frames: Vec<Frame> = FrameIter::new(&buf).max_inner(4).collect();
    assert_eq!(frames.len(), 1);
    assert_eq!(frames[0].offset, 14);
}

#[test]
fn skips_junk_between_frames() {
    let mut buf = vec![7u8, 7, 7];
    buf.extend(make_frame(b"one"));
    buf.push(9);
    buf.extend(make_frame(b"two"));
    let frames = FrameIter::new(&buf).collect();
    assert_eq!(frames.len(), 2);
    assert_eq!((frames[0].offset, frames[0].outer), (3, 11));
    assert_eq!((frames[1].offset, frames[1].outer), (15, 11));
    assert_eq!(frames[0].payload_start(), 11);
    assert_eq!(frames[0].payload_end(), 14);
}

#[test]
fn overlap_finds_frames_within_frames() {
    let buf = make_frame(&make_frame(b"in"));
    assert_eq!(FrameIter::new(&buf).collect().len(), 1);
    let both = FrameIter::new(&buf).overlap(true).collect();
    assert_eq!(both.len(), 2);
    assert_eq!(both[1].payload(&buf), b"in");
}

#[test]
fn a_frame_cut_short_is_not_one() {
    let mut buf = make_frame(b"hello");
    buf.pop();
    assert!(FrameIter::new(&buf).next().is_none());
}

#[test]
fn next_hands_out_frames_one_by_one() {
    let mut buf = make_frame(b"first");
    buf.extend(make_frame(b"second"));
    let pf = ProjectFile::open("x.burp".to_string(), &buf);
    let mut it = iter_frames(&pf);
    assert_eq!(it.next().unwrap().payload(&buf), b"first");
    assert_eq!(it.next().unwrap().payload(&buf), b"second");
    assert!(it.next().is_none());
    assert!(it.next().is_none());
}

#[test]
fn a_length_that_wraps_around_is_no_frame() {
    let buf = [0, 0, 0, 0, 0xff, 0xff, 0xff, 0xf8];
    let mut it = FrameIter::new(&buf).max_inner(u32::MAX);
    assert!(it.next().is_none());
    let buf = [0, 0, 0, 7, 0xff, 0xff, 0xff, 0xff, 1];
    assert!(FrameIter::new(&buf).min_inner(0).max_inner(u32::MAX).collect().is_empty());
    let buf = [0, 0, 0, 8, 0, 0, 0, 0];
    assert_eq!(FrameIter::new(&buf).min_inner(0).max_inner(u32::MAX).collect().len(), 1);
}
