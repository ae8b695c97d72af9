use burpex::text::{decode_utf16_best_effort, decode_utf16be, decode_utf16le};

#[test]
fn decodes_utf16le_ascii() {
    let bytes = b"h\x00i\x00";
    assert_eq!(decode_utf16le(bytes), "hi");
}

#[test]
fn decodes_utf16be_ascii() {
    let bytes = b"\x00h\x00i";
    assert_eq!(decode_utf16be(bytes), "hi");
}

#[test]
fn best_effort_picks_correct_endianness() {
    assert_eq!(
        decode_utf16_best_effort(b"\x00h\x00e\x00l\x00l\x00o"),
        "hello"
    );
    assert_eq!(
        decode_utf16_best_effort(b"h\x00e\x00l\x00l\x00o\x00"),
        "hello"
    );
}

#[test]
fn decoding_undoes_encoding() {
    let s = "plain, \u{e9}\u{4e2d}, \u{1f600}!";
    let mut le: Vec<u8> = Vec::new();
    let mut be: Vec<u8> = Vec::new();
    for u in s.encode_utf16() {
        le.extend_from_slice(&u.to_le_bytes());
        be.extend_from_slice(&u.to_be_bytes());
    }
    assert_eq!(decode_utf16le(&le), s);
    assert_eq!(decode_utf16be(&be), s);
}

#[test]
fn lone_surrogates_are_replaced() {
    let units: Vec<u16> = vec![0xd800, 0x41, 0xdc00, 0xd83d, 0xd83d, 0xde00, 0xdbff];
    let mut be: Vec<u8> = Vec::new();
    for u in &units {
        be.extend_from_slice(&u.to_be_bytes());
    }
    assert_eq!(decode_utf16be(&be), String::from_utf16_lossy(&units));
}

#[test]
fn an_odd_byte_is_dropped() {
    assert_eq!(decode_utf16be(b"\x00h\x00"), "h");
    assert_eq!(decode_utf16_best_effort(b"h"), "");
}

#[test]
fn a_tie_goes_to_little_endian() {
    // Two ideographs in either order: the same share is printable.
    assert_eq!(decode_utf16_best_effort(b"\x4e\x4f\x4e\x4f"), "\u{4f4e}\u{4f4e}");
}

#[test]
fn shares_are_weighed_as_single_precision_numbers() {
    // The printable share, as the sum of weights over the length.
    fn share(s: &str) -> f32 {
        if s.is_empty() {
            return 0.0;
        }
        let total = s.chars().count() as f32;
        let score: f32 = s
            .chars()
            .map(|c| {
                if c.is_ascii_graphic() || matches!(c, ' ' | '\n' | '\r' | '\t') {
                    1.0
                } else if c.is_control() {
                    0.0
                } else {
                    0.25
                }
            })
            .sum();
        score / total
    }
    let mut seed: u32 = 1;
    for n in 0..400usize {
        let mut bytes: Vec<u8> = Vec::new();
        for _ in 0..n {
            seed = seed.wrapping_mul(1664525).wrapping_add(1013904223);
            let b = (seed >> 24) as u8;
            bytes.push(if b < 96 { 0 } else { b });
        }
        let le = decode_utf16le(&bytes);
        let be = decode_utf16be(&bytes);
        let want = if bytes.len() < 2 {
            String::new()
        } else if share(&le) >= share(&be) {
            le
        } else {
            be
        };
        assert_eq!(decode_utf16_best_effort(&bytes), want);
    }
}
