//! Operations on bytes.

use vstd::prelude::*;
use vstd::slice::slice_subrange;

use crate::num;
use crate::strs;

verus! {

broadcast use vstd::utf8::group_utf8_lib;

/// The error of `std::str::from_utf8`, of which nothing is used.
#[verifier::external_type_specification]
#[verifier::external_body]
pub struct ExUtf8Error(core::str::Utf8Error);

/// `std::str::from_utf8` accepts exactly the valid UTF-8 and gives the text
/// that the bytes encode.
pub assume_specification[ core::str::from_utf8 ](v: &[u8]) -> (r: Result<
    &str,
    core::str::Utf8Error,
>)
    ensures
        r is Ok <==> vstd::utf8::valid_utf8(v@),
        r matches Ok(s) ==> vstd::utf8::encode_utf8(s@) == v@,
;

/// The bytes of a text in UTF-8.
pub open spec fn utf8(s: Seq<char>) -> Seq<u8> {
    vstd::utf8::encode_utf8(s)
}

/// The text that some bytes encode, where they are valid UTF-8.
pub open spec fn decoded(b: Seq<u8>) -> Option<Seq<char>> {
    if vstd::utf8::valid_utf8(b) {
        Some(vstd::utf8::decode_utf8(b))
    } else {
        None
    }
}

/// Each byte as the character of the same number.
pub open spec fn latin1(b: Seq<u8>) -> Seq<char> {
    Seq::new(b.len(), |i: int| b[i] as char)
}

pub open spec fn zeros(b: Seq<u8>) -> bool {
    forall|i: int| 0 <= i < b.len() ==> b[i] == 0
}

/// Decode UTF-8.
pub fn decode(b: &[u8]) -> (r: Option<String>)
    ensures
        strs::opt_text(r) == decoded(b@),
{
    match core::str::from_utf8(b) {
        Ok(s) => {
            assert(vstd::utf8::decode_utf8(vstd::utf8::encode_utf8(s@)) == s@);
            Some(s.to_owned())
        },
        Err(_) => None,
    }
}

/// Decode each byte as one character.
pub fn decode_latin1(b: &[u8]) -> (r: String)
    ensures
        r@ == latin1(b@),
{
    let mut out: String = String::new();
    for i in 0..b.len()
        invariant
            out@ == latin1(b@).take(i as int),
    {
        out.push(b[i] as char);
        assert(out@ =~= latin1(b@).take(i + 1));
    }
    assert(out@ =~= latin1(b@));
    out
}

/// Whether `pat` stands in `s` at `i`.
pub fn matches_at(s: &[u8], pat: &[u8], i: usize) -> (r: bool)
    ensures
        r == strs::occurs_at(s@, pat@, i as int),
{
    let n: usize = s.len();
    if i > n || n - i < pat.len() {
        return false;
    }
    for k in 0..pat.len()
        invariant
            n == s@.len(),
            i + pat@.len() <= n,
            forall|j: int| 0 <= j < k ==> s@[i + j] == pat@[j],
    {
        if s[i + k] != pat[k] {
            assert(s@.subrange(i as int, i + pat@.len())[k as int] != pat@[k as int]);
            return false;
        }
    }
    assert(s@.subrange(i as int, i + pat@.len()) =~= pat@);
    true
}

/// The first position at which `pat` stands in `s`.
pub fn find(s: &[u8], pat: &[u8]) -> (r: Option<usize>)
    ensures
        r matches Some(k) ==> strs::first_of(s@, pat@) == Some(k as int),
        r is None ==> strs::first_of(s@, pat@) is None,
{
    if s.len() < pat.len() {
        return None;
    }
    let last: usize = s.len() - pat.len();
    let mut i: usize = 0;
    while i <= last
        invariant
            last == s@.len() - pat@.len(),
            i <= last + 1,
            strs::find_from(s@, pat@, i as int) == strs::first_of(s@, pat@),
        decreases last + 1 - i,
    {
        if matches_at(s, pat, i) {
            return Some(i);
        }
        if i == last {
            assert(strs::find_from(s@, pat@, i + 1) is None);
            return None;
        }
        i = i + 1;
    }
    None
}

pub fn starts_with(s: &[u8], pat: &str) -> (r: bool)
    ensures
        r == strs::prefixed(s@, utf8(pat@)),
{
    matches_at(s, pat.as_bytes(), 0)
}

/// The first position that holds `b`.
pub fn index(s: &[u8], b: u8) -> (r: Option<usize>)
    ensures
        r matches Some(k) ==> strs::index_of(s@, b) == Some(k as int) && k < s@.len(),
        r is None ==> strs::index_of(s@, b) is None,
{
    for i in 0..s.len()
        invariant
            strs::index_from(s@, b, i as int) == strs::index_of(s@, b),
    {
        if s[i] == b {
            return Some(i);
        }
    }
    None
}

/// Whether every byte is zero.
pub fn all_zero(s: &[u8]) -> (r: bool)
    ensures
        r == zeros(s@),
{
    for i in 0..s.len()
        invariant
            forall|j: int| 0 <= j < i ==> s@[j] == 0,
    {
        if s[i] != 0 {
            return false;
        }
    }
    true
}

/// The two bytes from `i` on as a number.
pub fn be16(s: &[u8], i: usize) -> (r: u16)
    requires
        i + 2 <= s@.len(),
    ensures
        r == num::big_endian(s@.subrange(i as int, i + 2)),
{
    let n: usize = s.len();
    proof {
        reveal_with_fuel(num::big_endian, 3);
        let t = s@.subrange(i as int, i + 2);
        assert(t.drop_last() =~= s@.subrange(i as int, i + 1));
        assert(t.drop_last().drop_last() =~= Seq::<u8>::empty());
    }
    s[i] as u16 * 256 + s[i + 1] as u16
}

/// The four bytes from `i` on as a number.
pub fn be32(s: &[u8], i: usize) -> (r: u32)
    requires
        i + 4 <= s@.len(),
    ensures
        r == num::big_endian(s@.subrange(i as int, i + 4)),
{
    let n: usize = s.len();
    proof {
        let t = s@.subrange(i as int, i + 4);
        assert(t.drop_last() =~= s@.subrange(i as int, i + 3));
        assert(t.drop_last().drop_last() =~= s@.subrange(i as int, i + 2));
        assert(num::big_endian(s@.subrange(i as int, i + 3)) == num::big_endian(
            s@.subrange(i as int, i + 2),
        ) * 256 + s@[i + 2]);
    }
    (be16(s, i) as u32 * 256 + s[i + 2] as u32) * 256 + s[i + 3] as u32
}

/// The eight bytes from `i` on as a number.
pub fn be64(s: &[u8], i: usize) -> (r: u64)
    requires
        i + 8 <= s@.len(),
    ensures
        r == num::big_endian(s@.subrange(i as int, i + 8)),
{
    let n: usize = s.len();
    proof {
        let t = s@.subrange(i as int, i + 8);
        assert(t.drop_last() =~= s@.subrange(i as int, i + 7));
        assert(t.drop_last().drop_last() =~= s@.subrange(i as int, i + 6));
        assert(t.drop_last().drop_last().drop_last() =~= s@.subrange(i as int, i + 5));
        assert(t.drop_last().drop_last().drop_last().drop_last() =~= s@.subrange(i as int, i + 4));
        assert(num::big_endian(s@.subrange(i as int, i + 5)) == num::big_endian(
            s@.subrange(i as int, i + 4),
        ) * 256 + s@[i + 4]);
        assert(num::big_endian(s@.subrange(i as int, i + 6)) == num::big_endian(
            s@.subrange(i as int, i + 5),
        ) * 256 + s@[i + 5]);
        assert(num::big_endian(s@.subrange(i as int, i + 7)) == num::big_endian(
            s@.subrange(i as int, i + 6),
        ) * 256 + s@[i + 6]);
    }
    let a: u64 = be32(s, i) as u64;
    let b: u64 = (a * 256 + s[i + 4] as u64) * 256 + s[i + 5] as u64;
    (b * 256 + s[i + 6] as u64) * 256 + s[i + 7] as u64
}

/// The ASCII bytes that valid UTF-8 starts with stand for themselves.
pub proof fn lemma_ascii_start(b: Seq<u8>, n: int)
    requires
        vstd::utf8::valid_utf8(b),
        0 <= n <= b.len(),
        forall|i: int| 0 <= i < n ==> #[trigger] b[i] <= 0x7f,
    ensures
        vstd::utf8::decode_utf8(b).len() >= n,
        forall|i: int| 0 <= i < n ==> #[trigger] vstd::utf8::decode_utf8(b)[i] == b[i] as char,
    decreases n,
{
    if n > 0 {
        let rest = vstd::utf8::pop_first_scalar(b);
        let first = b[0];
        assert(first <= 0x7f);
        assert(first <= 0x7f ==> first & 0x7f == first) by (bit_vector);
        assert(vstd::utf8::decode_first_scalar(b) == b[0] as u32);
        assert(rest =~= b.skip(1));
        assert forall|i: int| 0 <= i < n - 1 implies #[trigger] rest[i] <= 0x7f by {
            assert(rest[i] == b[i + 1]);
        }
        lemma_ascii_start(rest, n - 1);
        let s = vstd::utf8::decode_utf8(b);
        assert(s == seq![b[0] as char] + vstd::utf8::decode_utf8(rest));
        assert forall|i: int| 0 <= i < n implies #[trigger] s[i] == b[i] as char by {
            if i > 0 {
                assert(s[i] == vstd::utf8::decode_utf8(rest)[i - 1]);
            }
        }
    }
}

} // verus!
