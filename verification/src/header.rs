//! The fixed prelude of a project file.

use vstd::prelude::*;

use crate::bytes;
use crate::num;

verus! {

/// Magic bytes at offset 0 of every Burp project file.
pub const MAGIC: [u8; 4] = [0x66, 0x85, 0x82, 0x80];

/// Fixed prelude at the start of a project file. The first 256 bytes hold
/// magic, version, timestamps, the `used_size` boundary, and a schema
/// directory describing the extended header that follows.
#[derive(Debug, Clone)]
pub struct Header {
    pub magic_ok: bool,
    pub magic_hex: String,
    pub version: u32,
    pub field_08: [u8; 4],
    pub field_0c_a: u16,
    pub field_0c_b: u16,
    pub timestamp_raw: u64,
    pub max_int64: i64,
    /// Byte offset of the end of live data: bytes past this are zero-padded
    /// pre-allocated capacity.
    pub used_size: u64,
    pub field_40: u64,
    pub field_48: u64,
}

/// What a header holds.
pub struct HeaderModel {
    pub magic_ok: bool,
    pub magic_hex: Seq<char>,
    pub version: nat,
    pub field_08: Seq<u8>,
    pub field_0c_a: nat,
    pub field_0c_b: nat,
    pub timestamp_raw: nat,
    pub max_int64: int,
    pub used_size: nat,
    pub field_40: nat,
    pub field_48: nat,
}

impl View for Header {
    type V = HeaderModel;

    open spec fn view(&self) -> HeaderModel {
        HeaderModel {
            magic_ok: self.magic_ok,
            magic_hex: self.magic_hex@,
            version: self.version as nat,
            field_08: self.field_08@,
            field_0c_a: self.field_0c_a as nat,
            field_0c_b: self.field_0c_b as nat,
            timestamp_raw: self.timestamp_raw as nat,
            max_int64: self.max_int64 as int,
            used_size: self.used_size as nat,
            field_40: self.field_40 as nat,
            field_48: self.field_48 as nat,
        }
    }
}

/// The bytes written in hexadecimal, two digits each.
pub open spec fn hex_text(b: Seq<u8>) -> Seq<char>
    decreases b.len(),
{
    if b.len() == 0 {
        Seq::empty()
    } else {
        hex_text(b.drop_last()) + num::hex2(b.last())
    }
}

/// A 64-bit number read as two's complement.
pub open spec fn signed64(n: nat) -> int {
    if n < 0x8000_0000_0000_0000 {
        n as int
    } else {
        n - 0x1_0000_0000_0000_0000
    }
}

/// The bytes start with the magic.
pub open spec fn has_magic(buf: Seq<u8>) -> bool {
    buf.len() >= 4 && buf.take(4) == MAGIC@
}

/// The header at the start of `buf`: eighty bytes are needed to hold one.
pub open spec fn header_of(buf: Seq<u8>) -> Option<HeaderModel> {
    if buf.len() < 0x50 {
        None
    } else {
        Some(
            HeaderModel {
                magic_ok: has_magic(buf),
                magic_hex: hex_text(buf.take(4)),
                version: num::big_endian(buf.subrange(0x04, 0x08)),
                field_08: buf.subrange(0x08, 0x0c),
                field_0c_a: num::big_endian(buf.subrange(0x0c, 0x0e)),
                field_0c_b: num::big_endian(buf.subrange(0x0e, 0x10)),
                timestamp_raw: num::big_endian(buf.subrange(0x10, 0x18)),
                max_int64: signed64(num::big_endian(buf.subrange(0x30, 0x38))),
                used_size: num::big_endian(buf.subrange(0x38, 0x40)),
                field_40: num::big_endian(buf.subrange(0x40, 0x48)),
                field_48: num::big_endian(buf.subrange(0x48, 0x50)),
            },
        )
    }
}

pub open spec fn opt_header(h: Option<Header>) -> Option<HeaderModel> {
    match h {
        Some(h) => Some(h@),
        None => None,
    }
}

impl Header {
    pub fn parse(buf: &[u8]) -> (r: Option<Self>)
        ensures
            opt_header(r) == header_of(buf@),
    {
        if buf.len() < 0x50 {
            return None;
        }
        let magic: [u8; 4] = [buf[0], buf[1], buf[2], buf[3]];
        assert(magic@ =~= buf@.take(4));
        let f08: [u8; 4] = [buf[8], buf[9], buf[10], buf[11]];
        assert(f08@ =~= buf@.subrange(8, 12));
        Some(
            Header {
                magic_ok: is_magic(buf),
                magic_hex: hex(&magic),
                version: bytes::be32(buf, 4),
                field_08: f08,
                field_0c_a: bytes::be16(buf, 0x0c),
                field_0c_b: bytes::be16(buf, 0x0e),
                timestamp_raw: bytes::be64(buf, 0x10),
                max_int64: to_signed(bytes::be64(buf, 0x30)),
                used_size: bytes::be64(buf, 0x38),
                field_40: bytes::be64(buf, 0x40),
                field_48: bytes::be64(buf, 0x48),
            },
        )
    }
}

/// Whether the bytes start with the magic.
pub fn is_magic(buf: &[u8]) -> (r: bool)
    ensures
        r == has_magic(buf@),
{
    if buf.len() < 4 {
        return false;
    }
    proof {
        if buf@.take(4) == MAGIC@ {
            assert(buf@.take(4)[0] == buf@[0]);
            assert(buf@.take(4)[1] == buf@[1]);
            assert(buf@.take(4)[2] == buf@[2]);
            assert(buf@.take(4)[3] == buf@[3]);
        }
    }
    let r: bool = buf[0] == MAGIC[0] && buf[1] == MAGIC[1] && buf[2] == MAGIC[2] && buf[3]
        == MAGIC[3];
    assert(r ==> buf@.take(4) =~= MAGIC@);
    r
}

fn to_signed(n: u64) -> (r: i64)
    ensures
        r == signed64(n as nat),
{
    if n < 0x8000_0000_0000_0000 {
        n as i64
    } else {
        -((u64::MAX - n) as i64) - 1
    }
}

/// The bytes in hexadecimal.
pub fn hex(b: &[u8]) -> (r: String)
    ensures
        r@ == hex_text(b@),
{
    let mut s: String = String::new();
    for i in 0..b.len()
        invariant
            s@ == hex_text(b@.take(i as int)),
    {
        assert(b@.take(i + 1).drop_last() =~= b@.take(i as int));
        num::push_hex2(&mut s, b[i]);
    }
    assert(b@.take(b@.len() as int) =~= b@);
    s
}

} // verus!
