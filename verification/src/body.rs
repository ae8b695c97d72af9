//! Message bodies: transfer and content codings, and previews.

use std::io::Read;

use base64::Engine;
use vstd::prelude::*;
use vstd::slice::slice_subrange;
use vstd::slice::slice_to_vec;

use crate::bytes;
use crate::chars;
use crate::classify;
use crate::num;
use crate::strs;

verus! {

pub open spec fn opt_bytes(o: Option<Vec<u8>>) -> Option<Seq<u8>> {
    match o {
        Some(v) => Some(v@),
        None => None,
    }
}

/// The digit of six bits in the standard base64 alphabet.
pub open spec fn base64_digit(n: int) -> char {
    if n < 26 {
        ('A' as u32 + n) as char
    } else if n < 52 {
        ('a' as u32 + n - 26) as char
    } else if n < 62 {
        ('0' as u32 + n - 52) as char
    } else if n == 62 {
        '+'
    } else {
        '/'
    }
}

/// The standard base64 of some bytes, padded.
pub open spec fn base64_text(b: Seq<u8>) -> Seq<char>
    decreases b.len(),
{
    if b.len() == 0 {
        Seq::empty()
    } else if b.len() == 1 {
        seq![base64_digit(b[0] as int / 4), base64_digit(b[0] % 4 * 16), '=', '=']
    } else if b.len() == 2 {
        seq![
            base64_digit(b[0] as int / 4),
            base64_digit(b[0] % 4 * 16 + b[1] / 16),
            base64_digit(b[1] % 16 * 4),
            '=',
        ]
    } else {
        seq![
            base64_digit(b[0] as int / 4),
            base64_digit(b[0] % 4 * 16 + b[1] / 16),
            base64_digit(b[1] % 16 * 4 + b[2] / 64),
            base64_digit(b[2] as int % 64),
        ] + base64_text(b.skip(3))
    }
}

/// `encode` of the `base64` crate's `STANDARD` engine writes the standard
/// alphabet with padding. It panics where the length of its result does not
/// fit in a `usize`; no slice is that long.
#[verifier::external_body]
pub(crate) fn b64(slice: &[u8]) -> (r: String)
    ensures
        r@ == base64_text(slice@),
{
    base64::engine::general_purpose::STANDARD.encode(slice)
}

/// What `flate2` reads from bytes as one or more gzip members, or `None`
/// where it fails.
pub uninterp spec fn gunzipped(b: Seq<u8>) -> Option<Seq<u8>>;

/// What `flate2` reads from bytes as a zlib stream, or `None` where it fails.
pub uninterp spec fn unzlibbed(b: Seq<u8>) -> Option<Seq<u8>>;

/// What `flate2` reads from bytes as a raw deflate stream, or `None` where it
/// fails.
pub uninterp spec fn inflated(b: Seq<u8>) -> Option<Seq<u8>>;

/// What `brotli` reads from bytes as a brotli stream, or `None` where it
/// fails.
pub uninterp spec fn unbrotlied(b: Seq<u8>) -> Option<Seq<u8>>;

/// `flate2::read::MultiGzDecoder`, read to its end: the bytes it gives, or
/// `None` where a read fails. Which bytes these are is left unsaid; they
/// depend on the input alone.
#[verifier::external_body]
fn decode_gzip(buf: &[u8]) -> (r: Option<Vec<u8>>)
    ensures
        opt_bytes(r) == gunzipped(buf@),
{
    let mut out: Vec<u8> = Vec::new();
    flate2::read::MultiGzDecoder::new(buf).read_to_end(&mut out).ok()?;
    Some(out)
}

/// `flate2::read::ZlibDecoder`, read to its end: the bytes it gives, or
/// `None` where a read fails. Which bytes these are is left unsaid; they
/// depend on the input alone.
#[verifier::external_body]
fn decode_zlib(buf: &[u8]) -> (r: Option<Vec<u8>>)
    ensures
        opt_bytes(r) == unzlibbed(buf@),
{
    let mut out: Vec<u8> = Vec::new();
    flate2::read::ZlibDecoder::new(buf).read_to_end(&mut out).ok()?;
    Some(out)
}

/// `flate2::read::DeflateDecoder`, read to its end: the bytes it gives, or
/// `None` where a read fails. Which bytes these are is left unsaid; they
/// depend on the input alone.
#[verifier::external_body]
fn decode_raw_deflate(buf: &[u8]) -> (r: Option<Vec<u8>>)
    ensures
        opt_bytes(r) == inflated(buf@),
{
    let mut out: Vec<u8> = Vec::new();
    flate2::read::DeflateDecoder::new(buf).read_to_end(&mut out).ok()?;
    Some(out)
}

/// `brotli::Decompressor`, read to its end: the bytes it gives, or `None`
/// where a read fails. Which bytes these are is left unsaid; they depend on
/// the input alone.
#[verifier::external_body]
fn decode_brotli(buf: &[u8]) -> (r: Option<Vec<u8>>)
    ensures
        opt_bytes(r) == unbrotlied(buf@),
{
    let mut out: Vec<u8> = Vec::new();
    brotli::Decompressor::new(buf, 4096).read_to_end(&mut out).ok()?;
    Some(out)
}

/// A zlib result that counts: it succeeded and is not empty.
pub open spec fn nonempty(z: Option<Seq<u8>>) -> Option<Seq<u8>> {
    match z {
        Some(v) => if v.len() > 0 {
            z
        } else {
            None
        },
        None => None,
    }
}

/// The bytes of a `deflate` body: those of the zlib stream where there are
/// any, else those of the raw deflate stream.
pub open spec fn undeflated(zlib: Option<Seq<u8>>, raw: Option<Seq<u8>>) -> Option<Seq<u8>> {
    match nonempty(zlib) {
        Some(v) => Some(v),
        None => raw,
    }
}

/// Keep a zlib result only where it succeeded and is not empty.
pub fn keep_nonempty(z: Option<Vec<u8>>) -> (r: Option<Vec<u8>>)
    ensures
        opt_bytes(r) == nonempty(opt_bytes(z)),
{
    match z {
        Some(v) => if v.len() > 0 {
            Some(v)
        } else {
            None
        },
        None => None,
    }
}

fn decode_deflate(buf: &[u8]) -> (r: Option<Vec<u8>>)
    ensures
        opt_bytes(r) == undeflated(unzlibbed(buf@), inflated(buf@)),
{
    match keep_nonempty(decode_zlib(buf)) {
        Some(v) => Some(v),
        None => decode_raw_deflate(buf),
    }
}

/// A content coding, as `Content-Encoding` names it.
#[derive(Debug, Clone, Copy, PartialEq, Eq, Structural)]
pub enum Coding {
    Gzip,
    Deflate,
    Brotli,
    Identity,
    Unknown,
}

/// The coding of a name, in any case.
pub open spec fn coding_named(name: Seq<char>) -> Coding {
    let n = strs::lower_text(name);
    if n == "gzip"@ || n == "x-gzip"@ {
        Coding::Gzip
    } else if n == "deflate"@ {
        Coding::Deflate
    } else if n == "br"@ {
        Coding::Brotli
    } else if n == "identity"@ || n == "none"@ || n.len() == 0 {
        Coding::Identity
    } else {
        Coding::Unknown
    }
}

/// The codings that the parts of a list name; blank parts name none.
pub open spec fn codings_named(list: Seq<Seq<char>>) -> Seq<Coding>
    decreases list.len(),
{
    if list.len() == 0 {
        Seq::empty()
    } else {
        let name = strs::trimmed(list.last());
        if name.len() == 0 {
            codings_named(list.drop_last())
        } else {
            codings_named(list.drop_last()).push(coding_named(name))
        }
    }
}

/// The codings of a `Content-Encoding` value, in the order they were applied.
pub open spec fn codings_of(enc: Seq<char>) -> Seq<Coding> {
    codings_named(strs::fields(enc, ','))
}

/// Bytes with one coding undone, or `None` where that fails.
pub open spec fn undone(b: Seq<u8>, c: Coding) -> Option<Seq<u8>> {
    match c {
        Coding::Gzip => gunzipped(b),
        Coding::Deflate => undeflated(unzlibbed(b), inflated(b)),
        Coding::Brotli => unbrotlied(b),
        Coding::Identity => Some(b),
        Coding::Unknown => None,
    }
}

/// Bytes with the codings undone from the last to the first, up to the first
/// that fails; and whether none did.
pub open spec fn all_undone(b: Seq<u8>, codings: Seq<Coding>) -> (Seq<u8>, bool)
    decreases codings.len(),
{
    if codings.len() == 0 {
        (b, true)
    } else {
        match undone(b, codings.last()) {
            Some(v) => all_undone(v, codings.drop_last()),
            None => (b, false),
        }
    }
}

fn coding(name: &[char]) -> (r: Coding)
    ensures
        r == coding_named(name@),
{
    let n: Vec<char> = strs::lower(name);
    if strs::is_text(&n, "gzip") || strs::is_text(&n, "x-gzip") {
        Coding::Gzip
    } else if strs::is_text(&n, "deflate") {
        Coding::Deflate
    } else if strs::is_text(&n, "br") {
        Coding::Brotli
    } else if strs::is_text(&n, "identity") || strs::is_text(&n, "none") || n.len() == 0 {
        Coding::Identity
    } else {
        Coding::Unknown
    }
}

/// The codings of a `Content-Encoding` value, in the order they were applied.
pub fn codings(enc: &str) -> (r: Vec<Coding>)
    ensures
        r@ == codings_of(enc@),
{
    let text: Vec<char> = strs::chars_of(enc);
    let parts: Vec<&[char]> = strs::split_char(&text, ',');
    let ghost list = strs::fields(enc@, ',');
    let mut out: Vec<Coding> = Vec::new();
    assert(list.take(0) =~= Seq::<Seq<char>>::empty());
    for i in 0..parts.len()
        invariant
            list == strs::parts(parts@),
            out@ == codings_named(list.take(i as int)),
    {
        assert(list.take(i + 1).drop_last() =~= list.take(i as int));
        let name: &[char] = strs::trim(parts[i]);
        if name.len() > 0 {
            out.push(coding(name));
        }
    }
    assert(list.take(list.len() as int) =~= list);
    out
}

fn decode_layer(buf: &[u8], c: Coding) -> (r: Option<Vec<u8>>)
    ensures
        opt_bytes(r) == undone(buf@, c),
{
    match c {
        Coding::Gzip => decode_gzip(buf),
        Coding::Deflate => decode_deflate(buf),
        Coding::Brotli => decode_brotli(buf),
        Coding::Identity => Some(slice_to_vec(buf)),
        Coding::Unknown => None,
    }
}

/// Undo the codings of a `Content-Encoding` value.
pub fn decode_encoded(buf: &[u8], enc: &str) -> (r: (Vec<u8>, bool))
    ensures
        (r.0@, r.1) == all_undone(buf@, codings_of(enc@)),
{
    let list: Vec<Coding> = codings(enc);
    let mut cur: Vec<u8> = slice_to_vec(buf);
    let mut i: usize = list.len();
    assert(list@.take(i as int) =~= list@);
    while i > 0
        invariant
            i <= list@.len(),
            list@ == codings_of(enc@),
            all_undone(cur@, list@.take(i as int)) == all_undone(buf@, codings_of(enc@)),
        decreases i,
    {
        assert(list@.take(i as int).drop_last() =~= list@.take(i - 1));
        match decode_layer(&cur, list[i - 1]) {
            Some(v) => {
                cur = v;
            },
            None => {
                return (cur, false);
            },
        }
        i = i - 1;
    }
    (cur, true)
}

/// A line without the carriage return it ends with.
pub open spec fn without_cr(line: Seq<u8>) -> Seq<u8> {
    if line.len() > 0 && line.last() == 13 {
        line.drop_last()
    } else {
        line
    }
}

/// What stands before the first semicolon.
pub open spec fn before_semicolon(line: Seq<u8>) -> Seq<u8> {
    match strs::index_of(line, 0x3b) {
        Some(i) => line.take(i),
        None => line,
    }
}

/// The size that a chunk's first line gives.
pub open spec fn chunk_size(line: Seq<u8>) -> Option<nat> {
    match bytes::decoded(before_semicolon(without_cr(line))) {
        Some(s) => num::read(strs::trimmed(s), 16, usize::MAX as nat),
        None => None,
    }
}

/// Bytes without the line break they start with.
pub open spec fn after_break(b: Seq<u8>) -> Seq<u8> {
    let c = if b.len() > 0 && b[0] == 13 {
        b.skip(1)
    } else {
        b
    };
    if c.len() > 0 && c[0] == 10 {
        c.skip(1)
    } else {
        c
    }
}

/// The data of a chunked body: each chunk's, up to the first chunk that is
/// empty, whose size cannot be read, or that is cut short.
pub open spec fn dechunked(b: Seq<u8>) -> Seq<u8>
    decreases b.len(),
{
    match strs::index_of(b, 10) {
        Some(nl) => match chunk_size(b.take(nl)) {
            Some(size) => if 0 <= nl && 0 < size <= b.len() - nl - 1 {
                b.subrange(nl + 1, nl + 1 + size) + dechunked(
                    after_break(b.skip(nl + 1 + size)),
                )
            } else {
                Seq::empty()
            },
            None => Seq::empty(),
        },
        None => Seq::empty(),
    }
}

fn read_chunk_size(line: &[u8]) -> (r: Option<usize>)
    ensures
        r matches Some(n) ==> chunk_size(line@) == Some(n as nat),
        r is None ==> chunk_size(line@) is None,
{
    let n: usize = line.len();
    let line: &[u8] = if n > 0 && line[n - 1] == 13 {
        slice_subrange(line, 0, n - 1)
    } else {
        line
    };
    let hex: &[u8] = match bytes::index(line, 0x3b) {
        Some(i) => slice_subrange(line, 0, i),
        None => line,
    };
    match bytes::decode(hex) {
        Some(s) => {
            let text: Vec<char> = strs::chars_of(s.as_str());
            match num::parse(strs::trim(&text), 16, usize::MAX as u64) {
                Some(size) => Some(size as usize),
                None => None,
            }
        },
        None => None,
    }
}

/// The data of a chunked body.
pub fn dechunk(buf: &[u8]) -> (r: Vec<u8>)
    ensures
        r@ == dechunked(buf@),
{
    let n: usize = buf.len();
    let mut out: Vec<u8> = Vec::new();
    let mut i: usize = 0;
    assert(buf@.skip(0) =~= buf@);
    assert(out@ + dechunked(buf@) =~= dechunked(buf@));
    while i < n
        invariant_except_break
            i <= n,
            out@ + dechunked(buf@.skip(i as int)) == dechunked(buf@),
        invariant
            n == buf@.len(),
        ensures
            out@ == dechunked(buf@),
        decreases n - i,
    {
        let rest: &[u8] = slice_subrange(buf, i, n);
        assert(rest@ =~= buf@.skip(i as int));
        let ghost seen = out@;
        let nl: usize = match bytes::index(rest, 10) {
            Some(p) => p,
            None => {
                assert(out@ + Seq::<u8>::empty() =~= out@);
                break;
            },
        };
        let line: &[u8] = slice_subrange(rest, 0, nl);
        assert(line@ =~= rest@.take(nl as int));
        let size: usize = match read_chunk_size(line) {
            Some(size) => size,
            None => {
                assert(out@ + Seq::<u8>::empty() =~= out@);
                break;
            },
        };
        let start: usize = i + nl + 1;
        if size == 0 || size > n - start {
            assert(out@ + Seq::<u8>::empty() =~= out@);
            break;
        }
        let end: usize = start + size;
        let mut data: Vec<u8> = slice_to_vec(slice_subrange(buf, start, end));
        assert(data@ =~= rest@.subrange(nl + 1, nl + 1 + size));
        out.append(&mut data);
        let ghost tail = rest@.skip(nl + 1 + size);
        assert(tail =~= buf@.skip(end as int));
        i = end;
        if i < n && buf[i] == 13 {
            i = i + 1;
        }
        if i < n && buf[i] == 10 {
            i = i + 1;
        }
        assert(buf@.skip(i as int) =~= after_break(tail));
        assert(out@ + dechunked(after_break(tail)) =~= seen + dechunked(rest@));
    }
    out
}

/// A content type up to its parameters, in lower case.
pub open spec fn media_type(ct: Seq<char>) -> Seq<char> {
    strs::trimmed(strs::fields(strs::lower_text(ct), ';')[0])
}

/// The media types whose bodies are text.
pub open spec fn text_type(base: Seq<char>) -> bool {
    ||| strs::prefixed(base, "text/"@)
    ||| base == "application/json"@
    ||| base == "application/x-www-form-urlencoded"@
    ||| base == "application/xml"@
    ||| base == "application/xhtml+xml"@
    ||| base == "application/javascript"@
    ||| base == "application/x-javascript"@
    ||| base == "application/ld+json"@
    ||| base == "application/graphql"@
    ||| base == "application/csp-report"@
    ||| base == "application/manifest+json"@
    ||| base == "application/vnd.api+json"@
    ||| base == "image/svg+xml"@
    ||| strs::suffixed(base, "+json"@)
    ||| strs::suffixed(base, "+xml"@)
}

/// A content type of text, or none at all.
pub open spec fn text_content(ct: Option<Seq<char>>) -> bool {
    match ct {
        Some(s) => text_type(media_type(s)),
        None => true,
    }
}

/// A visible character, a blank one, or one outside ASCII.
pub open spec fn legible(c: char) -> bool {
    chars::graphic(c) || chars::blank(c) || c as u32 > 0x7f
}

/// How many of the first `n` characters are legible.
pub open spec fn legible_count(s: Seq<char>, n: nat) -> nat
    decreases n,
{
    if n == 0 {
        0
    } else {
        legible_count(s, (n - 1) as nat) + if legible(s[n - 1]) {
            1nat
        } else {
            0
        }
    }
}

/// At least nine tenths of the first 512 characters are legible, and there is
/// one.
pub open spec fn mostly_legible(s: Seq<char>) -> bool {
    let n = classify::least(s.len() as int, 512) as nat;
    n > 0 && legible_count(s, n) * 10 >= n * 9
}

/// A byte as text: visible ASCII and line breaks and tabs stand for themselves,
/// the rest reads as a dot.
pub open spec fn byte_char(b: u8) -> char {
    if 0x20 <= b <= 0x7e || b == 10 || b == 13 || b == 9 {
        b as char
    } else {
        '.'
    }
}

/// Bytes as text: UTF-8 where they are valid, else byte by byte.
pub open spec fn lossy_text(b: Seq<u8>) -> Seq<char> {
    match bytes::decoded(b) {
        Some(s) => s,
        None => Seq::new(b.len(), |i: int| byte_char(b[i])),
    }
}

proof fn lemma_media_type(s: Seq<char>)
    ensures
        strs::fields(s, ';').len() > 0,
        strs::fields(s, ';')[0] == match strs::cut(s, ';') {
            Some(p) => p.0,
            None => s,
        },
{
    let pat = seq![';'];
    strs::lemma_first_of(s, pat);
    strs::lemma_index_of(s, ';');
    match strs::first_of(s, pat) {
        Some(i) => {
            assert(s.subrange(i, i + 1)[0] == s[i]);
            match strs::index_of(s, ';') {
                Some(k) => {
                    assert(s.subrange(k, k + 1) =~= pat);
                    assert(strs::occurs_at(s, pat, k));
                },
                None => {},
            }
        },
        None => {
            match strs::index_of(s, ';') {
                Some(k) => {
                    assert(s.subrange(k, k + 1) =~= pat);
                    assert(strs::occurs_at(s, pat, k));
                },
                None => {},
            }
        },
    }
}

/// The media type of a content type.
pub fn base_type(ct: &str) -> (r: Vec<char>)
    ensures
        r@ == media_type(ct@),
{
    let text: Vec<char> = strs::chars_of(ct);
    let low: Vec<char> = strs::lower(&text);
    proof {
        lemma_media_type(low@);
    }
    let base: &[char] = match strs::cut_at(&low, ';') {
        Some(p) => p.0,
        None => &low,
    };
    slice_to_vec(strs::trim(base))
}

/// Whether bodies of the given content type are text.
pub fn is_text_content(ct: Option<&str>) -> (r: bool)
    ensures
        r == text_content(match ct {
            Some(s) => Some(s@),
            None => None,
        }),
{
    let base: Vec<char> = match ct {
        Some(s) => base_type(s),
        None => {
            return true;
        },
    };
    strs::starts_with(&base, "text/") || strs::is_text(&base, "application/json") || strs::is_text(
        &base,
        "application/x-www-form-urlencoded",
    ) || strs::is_text(&base, "application/xml") || strs::is_text(&base, "application/xhtml+xml")
        || strs::is_text(&base, "application/javascript") || strs::is_text(
        &base,
        "application/x-javascript",
    ) || strs::is_text(&base, "application/ld+json") || strs::is_text(&base, "application/graphql")
        || strs::is_text(&base, "application/csp-report") || strs::is_text(
        &base,
        "application/manifest+json",
    ) || strs::is_text(&base, "application/vnd.api+json") || strs::is_text(&base, "image/svg+xml")
        || strs::ends_with(&base, "+json") || strs::ends_with(&base, "+xml")
}

/// Whether a text is mostly legible.
pub fn mostly_printable(s: &str) -> (r: bool)
    ensures
        r == mostly_legible(s@),
{
    let text: Vec<char> = strs::chars_of(s);
    let n: usize = if text.len() <= 512 {
        text.len()
    } else {
        512
    };
    let mut ok: usize = 0;
    for i in 0..n
        invariant
            n <= 512,
            n <= text@.len(),
            ok <= i,
            ok == legible_count(text@, i as nat),
    {
        let c: char = text[i];
        if chars::is_graphic(c) || chars::is_blank(c) || c as u32 > 0x7f {
            ok = ok + 1;
        }
    }
    n > 0 && ok * 10 >= n * 9
}

/// Bytes as text: UTF-8 where they are valid, else byte by byte.
pub fn decode_text_lossy(b: &[u8]) -> (r: String)
    ensures
        r@ == lossy_text(b@),
{
    match bytes::decode(b) {
        Some(s) => s,
        None => {
            let ghost want = Seq::new(b@.len(), |i: int| byte_char(b@[i]));
            let mut out: String = String::new();
            for i in 0..b.len()
                invariant
                    want == Seq::new(b@.len(), |i: int| byte_char(b@[i])),
                    out@ == want.take(i as int),
            {
                let x: u8 = b[i];
                if (0x20 <= x && x <= 0x7e) || x == 10 || x == 13 || x == 9 {
                    out.push(x as char);
                } else {
                    out.push('.');
                }
                assert(out@ =~= want.take(i + 1));
            }
            assert(out@ =~= want);
            out
        },
    }
}

/// A number in hexadecimal, as bytes.
pub open spec fn hex_bytes(n: nat) -> Seq<u8> {
    bytes::utf8(num::numeral(n, 16))
}

/// Data as a chunk: the size on a line, the data, and a line break.
pub open spec fn chunk_of(data: Seq<u8>) -> Seq<u8> {
    hex_bytes(data.len()) + seq![13u8, 10] + data + seq![13u8, 10]
}

/// Data as a chunked body, which an empty chunk ends.
pub open spec fn chunked_body(parts: Seq<Seq<u8>>) -> Seq<u8>
    decreases parts.len(),
{
    if parts.len() == 0 {
        chunk_of(Seq::empty())
    } else {
        chunk_of(parts[0]) + chunked_body(parts.skip(1))
    }
}

proof fn lemma_hex_bytes(n: nat)
    requires
        n <= usize::MAX,
    ensures
        hex_bytes(n).len() > 0,
        forall|i: int|
            0 <= i < hex_bytes(n).len() ==> 0x30 <= #[trigger] hex_bytes(n)[i] <= 0x39 || 0x61
                <= hex_bytes(n)[i] <= 0x66,
        bytes::decoded(hex_bytes(n)) == Some(num::numeral(n, 16)),
        strs::trimmed(num::numeral(n, 16)) == num::numeral(n, 16),
        num::read(num::numeral(n, 16), 16, usize::MAX as nat) == Some(n),
{
    let s = num::numeral(n, 16);
    let b = hex_bytes(n);
    num::law_numeral_reads_back(n, 16, usize::MAX as nat);
    assert(vstd::utf8::is_ascii_chars(s));
    vstd::utf8::is_ascii_chars_encode_utf8(s);
    vstd::utf8::encode_utf8_valid_utf8(s);
    vstd::utf8::encode_utf8_decode_utf8(s);
    assert forall|i: int| 0 <= i < b.len() implies 0x30 <= #[trigger] b[i] <= 0x39 || 0x61
        <= b[i] <= 0x66 by {
        assert(s[i] as u8 == b[i]);
    }
    assert(!chars::white(s[0]));
    assert(!chars::white(s[s.len() - 1]));
}

/// The line with a chunk's size is the first, and gives the size.
proof fn lemma_size_line(n: nat, rest: Seq<u8>)
    requires
        n <= usize::MAX,
    ensures
        strs::index_of(hex_bytes(n) + seq![13u8, 10] + rest, 10) == Some(
            hex_bytes(n).len() as int + 1,
        ),
        chunk_size((hex_bytes(n) + seq![13u8, 10] + rest).take(hex_bytes(n).len() as int + 1))
            == Some(n),
{
    let h = hex_bytes(n);
    let b = h + seq![13u8, 10] + rest;
    let k = h.len() as int + 1;
    lemma_hex_bytes(n);
    strs::lemma_index_of(b, 10);
    assert(b[k] == 10);
    assert(b.contains(10));
    assert(b[k - 1] == 13);
    assert forall|j: int| 0 <= j < k implies #[trigger] b[j] != 10 by {
        if j < h.len() {
            assert(b[j] == h[j]);
        }
    }
    let line = b.take(k);
    assert(line.last() == 13);
    assert(without_cr(line) =~= h);
    strs::lemma_index_of(h, 0x3b);
    assert(!h.contains(0x3b)) by {
        if h.contains(0x3b) {
            let i = choose|i: int| 0 <= i < h.len() && h[i] == 0x3b;
            assert(0x30 <= h[i] <= 0x39 || 0x61 <= h[i] <= 0x66);
        }
    }
    assert(before_semicolon(h) == h);
}

/// Reading a chunked body gives back the data that was written as chunks.
pub proof fn law_chunks_read_back(parts: Seq<Seq<u8>>)
    requires
        forall|i: int| 0 <= i < parts.len() ==> 0 < (#[trigger] parts[i]).len() <= usize::MAX,
    ensures
        dechunked(chunked_body(parts)) == parts.flatten(),
    decreases parts.len(),
{
    let b = chunked_body(parts);
    if parts.len() == 0 {
        let rest = seq![13u8, 10];
        lemma_size_line(0, rest);
        assert(b =~= hex_bytes(0) + seq![13u8, 10] + rest);
        assert(parts =~= Seq::empty());
        assert(dechunked(b) =~= parts.flatten());
    } else {
        let data = parts[0];
        let tail = parts.skip(1);
        let h = hex_bytes(data.len());
        let after = seq![13u8, 10] + chunked_body(tail);
        lemma_size_line(data.len(), data + after);
        assert(b =~= h + seq![13u8, 10] + (data + after));
        let nl = h.len() as int + 1;
        let size = data.len() as int;
        assert(b.subrange(nl + 1, nl + 1 + size) =~= data);
        assert(b.skip(nl + 1 + size) =~= after);
        assert(after_break(after) =~= chunked_body(tail)) by {
            assert(after.skip(1).skip(1) =~= chunked_body(tail));
            assert(after.skip(1)[0] == 10);
        }
        assert forall|i: int| 0 <= i < tail.len() implies 0 < (#[trigger] tail[i]).len()
            <= usize::MAX by {
            assert(tail[i] == parts[i + 1]);
        }
        law_chunks_read_back(tail);
        assert(tail =~= parts.drop_first());
        assert(dechunked(b) == data + dechunked(chunked_body(tail)));
        assert(parts.flatten() == data + tail.flatten());
    }
}

spec fn base64_value(c: char) -> int {
    if 'A' <= c <= 'Z' {
        c as u32 - 'A' as u32
    } else if 'a' <= c <= 'z' {
        c as u32 - 'a' as u32 + 26
    } else if '0' <= c <= '9' {
        c as u32 - '0' as u32 + 52
    } else if c == '+' {
        62
    } else {
        63
    }
}

proof fn lemma_base64_digit(n: int)
    requires
        0 <= n < 64,
    ensures
        base64_value(base64_digit(n)) == n,
        base64_digit(n) != '=',
{
}

/// The bytes that four digits write, two of them where the padding says so.
proof fn lemma_base64_group(b: Seq<u8>)
    requires
        b.len() > 0,
    ensures
        base64_text(b).len() >= 4,
        base64_text(b)[0] == base64_digit(b[0] as int / 4),
        b.len() >= 2 ==> base64_text(b)[1] == base64_digit(b[0] % 4 * 16 + b[1] / 16),
        b.len() >= 3 ==> base64_text(b)[2] == base64_digit(b[1] % 16 * 4 + b[2] / 64)
            && base64_text(b)[3] == base64_digit(b[2] as int % 64) && base64_text(b).skip(4)
            == base64_text(b.skip(3)),
        b.len() == 1 ==> base64_text(b)[1] == base64_digit(b[0] % 4 * 16) && base64_text(b)[2]
            == '=' && base64_text(b)[3] == '=' && base64_text(b).len() == 4,
        b.len() == 2 ==> base64_text(b)[2] == base64_digit(b[1] % 16 * 4) && base64_text(b)[3]
            == '=' && base64_text(b).len() == 4,
{
    if b.len() >= 3 {
        assert(base64_text(b).skip(4) =~= base64_text(b.skip(3)));
    }
}

/// A base64 preview loses nothing: different bytes have different previews.
pub proof fn law_base64_is_lossless(a: Seq<u8>, b: Seq<u8>)
    requires
        base64_text(a) == base64_text(b),
    ensures
        a == b,
    decreases a.len(),
{
    if a.len() == 0 || b.len() == 0 {
        if a.len() > 0 {
            lemma_base64_group(a);
        }
        if b.len() > 0 {
            lemma_base64_group(b);
        }
        assert(a =~= b);
    } else {
        lemma_base64_group(a);
        lemma_base64_group(b);
        lemma_base64_quads(a);
        lemma_base64_quads(b);
        if a.len() >= 3 && b.len() >= 3 {
            law_base64_is_lossless(a.skip(3), b.skip(3));
            assert(a =~= seq![a[0], a[1], a[2]] + a.skip(3));
            assert(b =~= seq![b[0], b[1], b[2]] + b.skip(3));
        } else {
            assert(a.len() == b.len());
            assert(a =~= b);
        }
    }
}

proof fn lemma_base64_quads(b: Seq<u8>)
    requires
        b.len() > 0,
    ensures
        b.len() >= 2 <==> base64_text(b)[2] != '=',
        b.len() >= 3 <==> base64_text(b)[3] != '=',
        b[0] == base64_value(base64_text(b)[0]) * 4 + base64_value(base64_text(b)[1]) / 16,
        b.len() >= 2 ==> b[1] == base64_value(base64_text(b)[1]) % 16 * 16 + base64_value(
            base64_text(b)[2],
        ) / 4,
        b.len() >= 3 ==> b[2] == base64_value(base64_text(b)[2]) % 4 * 64 + base64_value(
            base64_text(b)[3],
        ),
{
    lemma_base64_group(b);
    lemma_base64_digit(b[0] as int / 4);
    lemma_base64_digit(b[0] % 4 * 16);
    if b.len() >= 2 {
        lemma_base64_digit(b[0] % 4 * 16 + b[1] / 16);
        lemma_base64_digit(b[1] % 16 * 4);
    }
    if b.len() >= 3 {
        lemma_base64_digit(b[1] % 16 * 4 + b[2] / 64);
        lemma_base64_digit(b[2] as int % 64);
    }
}

} // verus!
