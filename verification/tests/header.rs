use burpex::header::{Header, MAGIC};

#[test]
fn rejects_short_buffers() {
    assert!(Header::parse(&[]).is_none());
    assert!(Header::parse(&[0u8; 32]).is_none());
}

#[test]
fn parses_full_header() {
    let mut buf = vec![0u8; 0x80];
    buf[..4].copy_from_slice(&MAGIC);
    buf[4..8].copy_from_slice(&1u32.to_be_bytes());
    buf[0x38..0x40].copy_from_slice(&12345u64.to_be_bytes());
    let h = Header::parse(&buf).unwrap();
    assert!(h.magic_ok);
    assert_eq!(h.version, 1);
    assert_eq!(h.used_size, 12345);
}

#[test]
fn eighty_bytes_are_enough() {
    assert!(Header::parse(&[0u8; 0x4f]).is_none());
    assert!(Header::parse(&[0u8; 0x50]).is_some());
}

#[test]
fn every_field_has_its_place() {
    let buf: Vec<u8> = (0u8..0x50).collect();
    let h = Header::parse(&buf).unwrap();
    assert!(!h.magic_ok);
    assert_eq!(h.magic_hex, "00010203");
    assert_eq!(h.version, 0x04050607);
    assert_eq!(h.field_08, [8, 9, 10, 11]);
    assert_eq!(h.field_0c_a, 0x0c0d);
    assert_eq!(h.field_0c_b, 0x0e0f);
    assert_eq!(h.timestamp_raw, 0x1011121314151617);
    assert_eq!(h.max_int64, 0x3031323334353637);
    assert_eq!(h.used_size, 0x38393a3b3c3d3e3f);
    assert_eq!(h.field_40, 0x4041424344454647);
    assert_eq!(h.field_48, 0x48494a4b4c4d4e4f);
}

#[test]
fn max_int64_is_signed() {
    let mut buf = vec![0u8; 0x50];
    for i in 0x30..0x38 {
        buf[i] = 0xff;
    }
    assert_eq!(Header::parse(&buf).unwrap().max_int64, -1);
}
