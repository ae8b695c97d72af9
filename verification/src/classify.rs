//! Classify a frame payload by sniffing its first bytes.
//!
//! The frame has already been located by the container walker: this is type
//! dispatch on already-trusted bytes, not a content search.

use vstd::prelude::*;
use vstd::slice::slice_subrange;

use crate::bytes;
use crate::strs;

verus! {

#[derive(Debug, Clone, Copy, PartialEq, Eq, Structural)]
pub enum Kind {
    HttpRequest,
    HttpResponse,
    Utf16Text,
    Utf8Text,
    Json,
    SmallId,
    StateBlob,
    Empty,
    Unknown,
}

/// A byte of ASCII text: visible, a space, a tab or a line break.
pub open spec fn text_byte(b: u8) -> bool {
    b == 9 || b == 10 || b == 13 || 0x20 <= b <= 0x7e
}

/// The payload starts with an HTTP method and a space.
pub open spec fn starts_with_method(p: Seq<u8>) -> bool {
    ||| strs::prefixed(p, bytes::utf8("GET "@))
    ||| strs::prefixed(p, bytes::utf8("POST "@))
    ||| strs::prefixed(p, bytes::utf8("PUT "@))
    ||| strs::prefixed(p, bytes::utf8("DELETE "@))
    ||| strs::prefixed(p, bytes::utf8("HEAD "@))
    ||| strs::prefixed(p, bytes::utf8("OPTIONS "@))
    ||| strs::prefixed(p, bytes::utf8("PATCH "@))
    ||| strs::prefixed(p, bytes::utf8("CONNECT "@))
    ||| strs::prefixed(p, bytes::utf8("TRACE "@))
}

/// The first position from `i` on, before `end`, that holds a line break.
pub open spec fn line_end_from(p: Seq<u8>, i: int, end: int) -> Option<int>
    decreases end - i,
{
    if i >= end {
        None
    } else if p[i] == 10 || p[i] == 13 {
        Some(i)
    } else {
        line_end_from(p, i + 1, end)
    }
}

pub open spec fn least(a: int, b: int) -> int {
    if a <= b {
        a
    } else {
        b
    }
}

/// The first line ends within 8192 bytes and names an HTTP version.
pub open spec fn request_line(p: Seq<u8>) -> bool {
    match line_end_from(p, 0, least(p.len() as int, 8192)) {
        Some(end) => match strs::first_of(p.take(end), bytes::utf8(" HTTP/"@)) {
            Some(at) => at + bytes::utf8(" HTTP/"@).len() < end,
            None => false,
        },
        None => false,
    }
}

/// How many of the first `n` pairs of bytes are a text byte and a zero.
pub open spec fn le_pairs(p: Seq<u8>, n: nat) -> nat
    decreases n,
{
    if n == 0 {
        0
    } else {
        le_pairs(p, (n - 1) as nat) + if p[2 * n - 1] == 0 && text_byte(p[2 * n - 2]) {
            1nat
        } else {
            0
        }
    }
}

/// How many of the first `n` pairs of bytes are a zero and a text byte.
pub open spec fn be_pairs(p: Seq<u8>, n: nat) -> nat
    decreases n,
{
    if n == 0 {
        0
    } else {
        be_pairs(p, (n - 1) as nat) + if p[2 * n - 2] == 0 && text_byte(p[2 * n - 1]) {
            1nat
        } else {
            0
        }
    }
}

/// At least four fifths of the first 512 pairs are ASCII in one byte order.
pub open spec fn utf16_text(p: Seq<u8>) -> bool {
    let n = least(p.len() as int / 2, 512) as nat;
    p.len() >= 16 && (le_pairs(p, n) * 5 >= n * 4 || be_pairs(p, n) * 5 >= n * 4)
}

/// How many of the first `n` bytes are text.
pub open spec fn text_bytes(p: Seq<u8>, n: nat) -> nat
    decreases n,
{
    if n == 0 {
        0
    } else {
        text_bytes(p, (n - 1) as nat) + if text_byte(p[n - 1]) {
            1nat
        } else {
            0
        }
    }
}

/// At least nine tenths of the first 512 bytes are text.
pub open spec fn mostly_text(p: Seq<u8>) -> bool {
    let n = least(p.len() as int, 512) as nat;
    text_bytes(p, n) * 10 >= n * 9
}

/// The payload from its first byte on that is not blank.
pub open spec fn unblanked(p: Seq<u8>) -> Seq<u8>
    decreases p.len(),
{
    if p.len() > 0 && (p[0] == 0x20 || p[0] == 9 || p[0] == 10 || p[0] == 13) {
        unblanked(p.skip(1))
    } else {
        p
    }
}

/// Where a reading of bracketed text stands: how many brackets are open, and
/// whether it is inside a string, just after a backslash there.
pub struct Nesting {
    pub depth: int,
    pub in_str: bool,
    pub esc: bool,
}

/// The reading after one more byte.
pub open spec fn nest(st: Nesting, b: u8, open: u8, close: u8) -> Nesting {
    if st.in_str {
        if st.esc {
            Nesting { esc: false, ..st }
        } else if b == 0x5c {
            Nesting { esc: true, ..st }
        } else if b == 0x22 {
            Nesting { in_str: false, ..st }
        } else {
            st
        }
    } else if b == 0x22 {
        Nesting { in_str: true, ..st }
    } else if b == open {
        Nesting { depth: st.depth + 1, ..st }
    } else if b == close {
        Nesting { depth: st.depth - 1, ..st }
    } else {
        st
    }
}

/// From `i` on, before `end`, a closing bracket outside a string leaves no
/// bracket open.
pub open spec fn closes_from(
    p: Seq<u8>,
    i: int,
    end: int,
    st: Nesting,
    open: u8,
    close: u8,
) -> bool
    decreases end - i,
{
    if i >= end {
        false
    } else {
        let next = nest(st, p[i], open, close);
        if next.depth < st.depth && next.depth == 0 {
            true
        } else {
            closes_from(p, i + 1, end, next, open, close)
        }
    }
}

pub open spec fn closing(open: u8) -> u8 {
    if open == 0x7b {
        0x7d
    } else {
        0x5d
    }
}

/// The bracket that `p` starts with is closed within its first megabyte.
pub open spec fn json_like(p: Seq<u8>) -> bool {
    closes_from(
        p,
        0,
        least(p.len() as int, 0x10_0000),
        Nesting { depth: 0, in_str: false, esc: false },
        p[0],
        closing(p[0]),
    )
}

/// Four UTF-16BE text characters in a row at `i`.
pub open spec fn quad_at(p: Seq<u8>, i: int) -> bool {
    &&& p[i] == 0 && text_byte(p[i + 1])
    &&& p[i + 2] == 0 && text_byte(p[i + 3])
    &&& p[i + 4] == 0 && text_byte(p[i + 5])
    &&& p[i + 6] == 0 && text_byte(p[i + 7])
}

/// How many such quads, none overlapping another, a reading from `i` to `end`
/// meets.
pub open spec fn quads_from(p: Seq<u8>, i: int, end: int) -> nat
    decreases end - i,
{
    if i + 8 > end {
        0
    } else if quad_at(p, i) {
        1 + quads_from(p, i + 8, end)
    } else {
        quads_from(p, i + 1, end)
    }
}

/// Large, binary, and holding UTF-16BE ASCII runs.
pub open spec fn state_blob_like(p: Seq<u8>) -> bool {
    p.len() >= 256 && quads_from(p, 0, least(p.len() as int, 8192)) >= 4
}

/// The kind of a payload. The tests apply in this order.
#[verifier::opaque]
pub open spec fn kind_of(p: Seq<u8>) -> Kind {
    if p.len() == 0 {
        Kind::Empty
    } else if p.len() <= 8 {
        Kind::SmallId
    } else if strs::prefixed(p, bytes::utf8("HTTP/"@)) {
        Kind::HttpResponse
    } else if starts_with_method(p) && request_line(p) {
        Kind::HttpRequest
    } else if utf16_text(p) {
        Kind::Utf16Text
    } else if state_blob_like(p) {
        Kind::StateBlob
    } else if unblanked(p).len() > 0 && (unblanked(p)[0] == 0x7b || unblanked(p)[0] == 0x5b)
        && json_like(unblanked(p)) {
        Kind::Json
    } else if mostly_text(p) {
        Kind::Utf8Text
    } else {
        Kind::Unknown
    }
}

pub fn classify(payload: &[u8]) -> (r: Kind)
    ensures
        r == kind_of(payload@),
{
    proof {
        reveal(kind_of);
    }
    if payload.is_empty() {
        return Kind::Empty;
    }
    if payload.len() <= 8 {
        return Kind::SmallId;
    }
    if bytes::starts_with(payload, "HTTP/") {
        return Kind::HttpResponse;
    }
    if has_method(payload) && has_request_line(payload) {
        return Kind::HttpRequest;
    }
    if is_utf16_text(payload) {
        return Kind::Utf16Text;
    }
    if looks_like_state_blob(payload) {
        return Kind::StateBlob;
    }
    let trimmed: &[u8] = trim_ws(payload);
    if trimmed.len() > 0 && (trimmed[0] == 0x7b || trimmed[0] == 0x5b) && looks_like_json(trimmed) {
        return Kind::Json;
    }
    if is_mostly_printable(payload) {
        return Kind::Utf8Text;
    }
    Kind::Unknown
}

fn has_method(p: &[u8]) -> (r: bool)
    ensures
        r == starts_with_method(p@),
{
    bytes::starts_with(p, "GET ") || bytes::starts_with(p, "POST ") || bytes::starts_with(p, "PUT ")
        || bytes::starts_with(p, "DELETE ") || bytes::starts_with(p, "HEAD ") || bytes::starts_with(
        p,
        "OPTIONS ",
    ) || bytes::starts_with(p, "PATCH ") || bytes::starts_with(p, "CONNECT ") || bytes::starts_with(
        p,
        "TRACE ",
    )
}

fn has_request_line(p: &[u8]) -> (r: bool)
    ensures
        r == request_line(p@),
{
    let end: usize = if p.len() <= 8192 {
        p.len()
    } else {
        8192
    };
    let mut i: usize = 0;
    while i < end
        invariant
            i <= end <= p@.len(),
            end == least(p@.len() as int, 8192),
            line_end_from(p@, i as int, end as int) == line_end_from(p@, 0, end as int),
        decreases end - i,
    {
        if p[i] == 10 || p[i] == 13 {
            let needle: &[u8] = " HTTP/".as_bytes();
            let line: &[u8] = slice_subrange(p, 0, i);
            assert(line@ =~= p@.take(i as int));
            proof {
                strs::lemma_first_of(line@, needle@);
            }
            return match bytes::find(line, needle) {
                Some(at) => needle.len() < i - at,
                None => false,
            };
        }
        i = i + 1;
    }
    false
}

fn is_utf16_text(p: &[u8]) -> (r: bool)
    ensures
        r == utf16_text(p@),
{
    if p.len() < 16 {
        return false;
    }
    let n: usize = if p.len() / 2 <= 512 {
        p.len() / 2
    } else {
        512
    };
    let mut le_ok: usize = 0;
    let mut be_ok: usize = 0;
    for i in 0..n
        invariant
            n <= 512,
            2 * n <= p@.len(),
            le_ok <= i,
            be_ok <= i,
            le_ok == le_pairs(p@, i as nat),
            be_ok == be_pairs(p@, i as nat),
    {
        let a: u8 = p[i * 2];
        let b: u8 = p[i * 2 + 1];
        if b == 0 && is_text_ascii(a) {
            le_ok = le_ok + 1;
        }
        if a == 0 && is_text_ascii(b) {
            be_ok = be_ok + 1;
        }
    }
    le_ok * 5 >= n * 4 || be_ok * 5 >= n * 4
}

pub fn is_text_ascii(b: u8) -> (r: bool)
    ensures
        r == text_byte(b),
{
    b == 9 || b == 10 || b == 13 || (0x20 <= b && b <= 0x7e)
}

fn is_mostly_printable(p: &[u8]) -> (r: bool)
    ensures
        r == mostly_text(p@),
{
    let n: usize = if p.len() <= 512 {
        p.len()
    } else {
        512
    };
    let mut ok: usize = 0;
    for i in 0..n
        invariant
            n <= 512,
            n <= p@.len(),
            ok <= i,
            ok == text_bytes(p@, i as nat),
    {
        if is_text_ascii(p[i]) {
            ok = ok + 1;
        }
    }
    ok * 10 >= n * 9
}

fn trim_ws(p: &[u8]) -> (r: &[u8])
    ensures
        r@ == unblanked(p@),
{
    let mut i: usize = 0;
    assert(p@.skip(0) =~= p@);
    while i < p.len() && (p[i] == 0x20 || p[i] == 9 || p[i] == 10 || p[i] == 13)
        invariant
            i <= p@.len(),
            unblanked(p@.skip(i as int)) == unblanked(p@),
        decreases p@.len() - i,
    {
        assert(p@.skip(i as int).skip(1) =~= p@.skip(i + 1));
        i = i + 1;
    }
    slice_subrange(p, i, p.len())
}

fn looks_like_json(p: &[u8]) -> (r: bool)
    requires
        p@.len() > 0,
    ensures
        r == json_like(p@),
{
    let cap: usize = if p.len() <= 0x10_0000 {
        p.len()
    } else {
        0x10_0000
    };
    let open: u8 = p[0];
    let close: u8 = if open == 0x7b {
        0x7d
    } else {
        0x5d
    };
    let mut depth: i32 = 0;
    let mut in_str: bool = false;
    let mut esc: bool = false;
    for i in 0..cap
        invariant
            cap <= 0x10_0000,
            cap == least(p@.len() as int, 0x10_0000),
            p@.len() > 0,
            open == p@[0],
            close == closing(open),
            -(i as int) <= depth <= i,
            closes_from(
                p@,
                i as int,
                cap as int,
                Nesting { depth: depth as int, in_str, esc },
                open,
                close,
            ) == json_like(p@),
    {
        let b: u8 = p[i];
        if in_str {
            if esc {
                esc = false;
            } else if b == 0x5c {
                esc = true;
            } else if b == 0x22 {
                in_str = false;
            }
        } else if b == 0x22 {
            in_str = true;
        } else if b == open {
            depth = depth + 1;
        } else if b == close {
            depth = depth - 1;
            if depth == 0 {
                return true;
            }
        }
    }
    false
}

/// State blob: large, binary, but holding a lot of UTF-16BE ASCII runs.
/// Burp's target/scope/sitemap/issues all serialize into this shape.
fn looks_like_state_blob(p: &[u8]) -> (r: bool)
    ensures
        r == state_blob_like(p@),
{
    if p.len() < 256 {
        return false;
    }
    let cap: usize = if p.len() <= 8192 {
        p.len()
    } else {
        8192
    };
    let mut runs: usize = 0;
    let mut i: usize = 0;
    while i + 8 <= cap
        invariant
            cap <= 8192,
            cap == least(p@.len() as int, 8192),
            runs <= i <= cap,
            runs + quads_from(p@, i as int, cap as int) == quads_from(p@, 0, cap as int),
        decreases cap - i,
    {
        if p[i] == 0 && is_text_ascii(p[i + 1]) && p[i + 2] == 0 && is_text_ascii(p[i + 3]) && p[i
            + 4] == 0 && is_text_ascii(p[i + 5]) && p[i + 6] == 0 && is_text_ascii(p[i + 7]) {
            runs = runs + 1;
            i = i + 8;
        } else {
            i = i + 1;
        }
    }
    runs >= 4
}

/// How many UTF-16BE text characters stand in a row from `i` on.
pub open spec fn run16(p: Seq<u8>, i: int) -> nat
    decreases p.len() - i,
{
    if i < 0 || i + 2 > p.len() || p[i] != 0 || !text_byte(p[i + 1]) {
        0
    } else {
        1 + run16(p, i + 2)
    }
}

/// The `n` UTF-16BE text characters from `i` on.
pub open spec fn chars16(p: Seq<u8>, i: int, n: nat) -> Seq<char> {
    Seq::new(n, |k: int| p[i + 2 * k + 1] as char)
}

/// Every UTF-16BE text run of at least `min` characters, from `i` on.
pub open spec fn runs16(p: Seq<u8>, i: int, min: nat) -> Seq<Seq<char>>
    decreases p.len() - i,
{
    if i < 0 || i + 2 > p.len() {
        Seq::empty()
    } else if run16(p, i) > 0 {
        proof {
            lemma_run16(p, i);
        }
        let n = run16(p, i);
        let rest = runs16(p, i + 2 * n, min);
        if n >= min {
            seq![chars16(p, i, n)] + rest
        } else {
            rest
        }
    } else {
        runs16(p, i + 1, min)
    }
}

/// How many text bytes stand in a row from `i` on.
pub open spec fn run8(p: Seq<u8>, i: int) -> nat
    decreases p.len() - i,
{
    if i < 0 || i >= p.len() || !text_byte(p[i]) {
        0
    } else {
        1 + run8(p, i + 1)
    }
}

/// Every run of at least `min` text bytes, from `i` on. With `min` zero, each
/// break between runs also stands for an empty run.
pub open spec fn runs8(p: Seq<u8>, i: int, min: nat) -> Seq<Seq<char>>
    decreases p.len() + 1 - i,
{
    if i < 0 || i > p.len() {
        Seq::empty()
    } else {
        proof {
            lemma_run8(p, i);
        }
        let n = run8(p, i);
        let rest = runs8(p, i + n + 1, min);
        if n >= min {
            seq![bytes::latin1(p.subrange(i, i + n))] + rest
        } else {
            rest
        }
    }
}

pub proof fn lemma_run16(p: Seq<u8>, i: int)
    ensures
        run16(p, i) > 0 ==> 0 <= i,
        0 <= i <= p.len() ==> i + 2 * run16(p, i) <= p.len(),
    decreases p.len() - i,
{
    if i < 0 || i + 2 > p.len() || p[i] != 0 || !text_byte(p[i + 1]) {
    } else {
        lemma_run16(p, i + 2);
    }
}

pub proof fn lemma_run8(p: Seq<u8>, i: int)
    ensures
        0 <= i <= p.len() ==> i + run8(p, i) <= p.len(),
        0 <= i ==> forall|k: int| i <= k < i + run8(p, i) ==> text_byte(#[trigger] p[k]),
        0 <= i && i + run8(p, i) < p.len() ==> !text_byte(p[i + run8(p, i)]),
    decreases p.len() - i,
{
    if i < 0 || i >= p.len() || !text_byte(p[i]) {
    } else {
        lemma_run8(p, i + 1);
    }
}

/// Pull every UTF-16BE ASCII run out of a buffer.
pub fn extract_utf16be_strings(p: &[u8], min_chars: usize) -> (r: Vec<String>)
    ensures
        strs::texts(r@) == runs16(p@, 0, min_chars as nat),
{
    let n: usize = p.len();
    let mut out: Vec<String> = Vec::new();
    let mut i: usize = 0;
    assert(strs::texts(out@) + runs16(p@, 0, min_chars as nat) =~= runs16(
        p@,
        0,
        min_chars as nat,
    ));
    while n - i >= 2
        invariant
            n == p@.len(),
            i <= n,
            strs::texts(out@) + runs16(p@, i as int, min_chars as nat) == runs16(
                p@,
                0,
                min_chars as nat,
            ),
        decreases n - i,
    {
        if p[i] == 0 && is_text_ascii(p[i + 1]) {
            let start: usize = i;
            let mut chars: String = String::new();
            let mut count: usize = 0;
            assert(chars@ =~= chars16(p@, start as int, 0));
            while n - i >= 2 && p[i] == 0 && is_text_ascii(p[i + 1])
                invariant
                    n == p@.len(),
                    start <= i <= n,
                    i == start + 2 * count,
                    chars@ == chars16(p@, start as int, count as nat),
                    run16(p@, start as int) == count + run16(p@, i as int),
                decreases n - i,
            {
                chars.push(p[i + 1] as char);
                assert(chars@ =~= chars16(p@, start as int, (count + 1) as nat));
                count = count + 1;
                i = i + 2;
            }
            assert(run16(p@, i as int) == 0);
            let ghost seen = strs::texts(out@);
            let ghost rest = runs16(p@, i as int, min_chars as nat);
            if count >= min_chars {
                proof {
                    strs::lemma_texts_push(out@, chars);
                }
                out.push(chars);
                assert(seen + (seq![chars16(p@, start as int, count as nat)] + rest) =~= seen.push(
                    chars16(p@, start as int, count as nat),
                ) + rest);
            }
        } else {
            i = i + 1;
        }
    }
    assert(runs16(p@, i as int, min_chars as nat) =~= Seq::<Seq<char>>::empty());
    assert(strs::texts(out@) + Seq::<Seq<char>>::empty() =~= strs::texts(out@));
    out
}

/// Pull every printable ASCII run out of a buffer.
pub fn extract_ascii_strings(p: &[u8], min_chars: usize) -> (r: Vec<String>)
    ensures
        strs::texts(r@) == runs8(p@, 0, min_chars as nat),
{
    let n: usize = p.len();
    let mut out: Vec<String> = Vec::new();
    let mut i: usize = 0;
    assert(strs::texts(out@) + runs8(p@, 0, min_chars as nat) =~= runs8(p@, 0, min_chars as nat));
    loop
        invariant
            n == p@.len(),
            i <= n,
            strs::texts(out@) + runs8(p@, i as int, min_chars as nat) == runs8(
                p@,
                0,
                min_chars as nat,
            ),
        decreases n - i,
    {
        let start: usize = i;
        while i < n && is_text_ascii(p[i])
            invariant
                n == p@.len(),
                start <= i <= n,
                run8(p@, start as int) == (i - start) + run8(p@, i as int),
            decreases n - i,
        {
            i = i + 1;
        }
        let ghost seen = strs::texts(out@);
        let ghost rest = runs8(p@, i + 1, min_chars as nat);
        let run: &[u8] = slice_subrange(p, start, i);
        if run.len() >= min_chars {
            let s: String = bytes::decode_latin1(run);
            proof {
                strs::lemma_texts_push(out@, s);
            }
            out.push(s);
            assert(seen + (seq![bytes::latin1(run@)] + rest) =~= seen.push(bytes::latin1(run@))
                + rest);
        }
        if i == n {
            assert(rest =~= Seq::<Seq<char>>::empty());
            assert(strs::texts(out@) + rest =~= strs::texts(out@));
            return out;
        }
        i = i + 1;
    }
}

/// The bytes from `a` to `b` are a run of text that none next to it extends.
pub open spec fn whole_run8(p: Seq<u8>, a: int, b: int) -> bool {
    &&& 0 <= a <= b <= p.len()
    &&& forall|k: int| a <= k < b ==> text_byte(#[trigger] p[k])
    &&& a == 0 || !text_byte(p[a - 1])
    &&& b == p.len() || !text_byte(p[b])
}

/// A run of text bytes that is long enough reads as `s`.
pub open spec fn reads_as_run8(p: Seq<u8>, a: int, b: int, min: nat, s: Seq<char>) -> bool {
    whole_run8(p, a, b) && b - a >= min && s == bytes::latin1(p.subrange(a, b))
}

/// Some whole run of text bytes, long enough, reads as `s`.
pub open spec fn is_run8(p: Seq<u8>, min: nat, s: Seq<char>) -> bool {
    exists|a: int, b: int| reads_as_run8(p, a, b, min, s)
}

proof fn lemma_runs8_sound(p: Seq<u8>, i: int, min: nat, k: int)
    requires
        0 <= i <= p.len() ==> i == 0 || !text_byte(p[i - 1]),
        0 <= k < runs8(p, i, min).len(),
    ensures
        is_run8(p, min, runs8(p, i, min)[k]),
    decreases p.len() + 1 - i,
{
    lemma_run8(p, i);
    let n = run8(p, i);
    let rest = runs8(p, i + n + 1, min);
    let here = runs8(p, i, min).len() - rest.len();
    if k < here {
        assert(reads_as_run8(p, i, i + n, min, runs8(p, i, min)[k]));
    } else {
        lemma_runs8_sound(p, i + n + 1, min, k - here);
        assert(runs8(p, i, min)[k] == rest[k - here]);
    }
}

proof fn lemma_runs8_complete(p: Seq<u8>, i: int, min: nat, a: int, b: int)
    requires
        0 <= i <= a,
        whole_run8(p, a, b),
        b - a >= min,
    ensures
        runs8(p, i, min).contains(bytes::latin1(p.subrange(a, b))),
    decreases a - i,
{
    lemma_run8(p, i);
    let n = run8(p, i);
    let s = bytes::latin1(p.subrange(a, b));
    let rest = runs8(p, i + n + 1, min);
    if i == a {
        if n < b - a {
            assert(!text_byte(p[i + n]));
        }
        if n > b - a {
            assert(text_byte(p[b]));
        }
        assert(runs8(p, i, min)[0] == s);
    } else {
        if i + n + 1 > a {
            assert(text_byte(p[a - 1]));
        }
        lemma_runs8_complete(p, i + n + 1, min, a, b);
        let k = choose|k: int| 0 <= k < rest.len() && rest[k] == s;
        let here = runs8(p, i, min).len() - rest.len();
        assert(runs8(p, i, min)[k + here] == s);
    }
}

/// Every text that is pulled out as ASCII is a whole run of at least the
/// wanted length, and every such run is pulled out.
pub proof fn law_ascii_runs(p: Seq<u8>, min: nat)
    ensures
        forall|k: int|
            0 <= k < runs8(p, 0, min).len() ==> is_run8(p, min, #[trigger] runs8(p, 0, min)[k]),
        forall|a: int, b: int|
            #![trigger whole_run8(p, a, b)]
            whole_run8(p, a, b) && b - a >= min ==> runs8(p, 0, min).contains(
                bytes::latin1(p.subrange(a, b)),
            ),
{
    assert forall|k: int| 0 <= k < runs8(p, 0, min).len() implies is_run8(
        p,
        min,
        #[trigger] runs8(p, 0, min)[k],
    ) by {
        lemma_runs8_sound(p, 0, min, k);
    }
    assert forall|a: int, b: int|
        #![trigger whole_run8(p, a, b)]
        whole_run8(p, a, b) && b - a >= min implies runs8(p, 0, min).contains(
        bytes::latin1(p.subrange(a, b)),
    ) by {
        lemma_runs8_complete(p, 0, min, a, b);
    }
}

/// The two bytes at `i` are a UTF-16BE text character.
pub open spec fn pair16(p: Seq<u8>, i: int) -> bool {
    0 <= i && i + 2 <= p.len() && p[i] == 0 && text_byte(p[i + 1])
}

/// The `n` pairs of bytes from `a` on are a run of UTF-16BE text that none
/// next to it extends.
pub open spec fn whole_run16(p: Seq<u8>, a: int, n: nat) -> bool {
    &&& n > 0
    &&& run16(p, a) == n
    &&& !pair16(p, a - 2)
}

/// A run of UTF-16BE text that is long enough reads as `s`.
pub open spec fn reads_as_run16(p: Seq<u8>, a: int, n: nat, min: nat, s: Seq<char>) -> bool {
    whole_run16(p, a, n) && n >= min && s == chars16(p, a, n)
}

/// Some whole run of UTF-16BE text, long enough, reads as `s`.
pub open spec fn is_run16(p: Seq<u8>, min: nat, s: Seq<char>) -> bool {
    exists|a: int, n: nat| reads_as_run16(p, a, n, min, s)
}

/// Each pair of a run is a text character, and the pair after it is not.
proof fn lemma_run16_pairs(p: Seq<u8>, i: int, k: int)
    requires
        0 <= k < run16(p, i),
    ensures
        pair16(p, i + 2 * k),
        !pair16(p, i + 2 * run16(p, i)),
    decreases run16(p, i),
{
    if k > 0 {
        lemma_run16_pairs(p, i + 2, k - 1);
    } else if run16(p, i + 2) > 0 {
        lemma_run16_pairs(p, i + 2, 0);
    }
}

proof fn lemma_runs16_sound(p: Seq<u8>, i: int, min: nat, k: int)
    requires
        !pair16(p, i - 1),
        !pair16(p, i - 2) || !pair16(p, i),
        0 <= k < runs16(p, i, min).len(),
    ensures
        is_run16(p, min, runs16(p, i, min)[k]),
    decreases p.len() - i,
{
    let n = run16(p, i);
    if n > 0 {
        lemma_run16(p, i);
        lemma_run16_pairs(p, i, 0);
        lemma_run16_pairs(p, i, n - 1);
        let rest = runs16(p, i + 2 * n, min);
        let here = runs16(p, i, min).len() - rest.len();
        if k < here {
            assert(reads_as_run16(p, i, n, min, runs16(p, i, min)[k]));
        } else {
            lemma_runs16_sound(p, i + 2 * n, min, k - here);
            assert(runs16(p, i, min)[k] == rest[k - here]);
        }
    } else {
        lemma_runs16_sound(p, i + 1, min, k);
    }
}

proof fn lemma_runs16_complete(p: Seq<u8>, i: int, min: nat, a: int, n: nat)
    requires
        0 <= i <= a,
        whole_run16(p, a, n),
        n >= min,
    ensures
        runs16(p, i, min).contains(chars16(p, a, n)),
    decreases a - i,
{
    let s = chars16(p, a, n);
    lemma_run16_pairs(p, a, 0);
    if i == a {
        assert(runs16(p, i, min)[0] == s);
    } else if run16(p, i) > 0 {
        let m = run16(p, i);
        let next = i + 2 * m;
        // The pairs of an earlier run stop short of `a`.
        if next > a {
            let k = (a - 1 - i) / 2;
            lemma_run16_pairs(p, i, k);
            assert(i + 2 * k == a - 1 || i + 2 * k == a - 2);
        }
        lemma_runs16_complete(p, next, min, a, n);
        let rest = runs16(p, next, min);
        let k = choose|k: int| 0 <= k < rest.len() && rest[k] == s;
        let here = runs16(p, i, min).len() - rest.len();
        assert(runs16(p, i, min)[k + here] == s);
    } else {
        lemma_runs16_complete(p, i + 1, min, a, n);
    }
}

/// Every text that is pulled out as UTF-16BE is a whole run of at least the
/// wanted length, and every such run is pulled out.
pub proof fn law_utf16be_runs(p: Seq<u8>, min: nat)
    ensures
        forall|k: int|
            0 <= k < runs16(p, 0, min).len() ==> is_run16(p, min, #[trigger] runs16(p, 0, min)[k]),
        forall|a: int, n: nat|
            #![trigger whole_run16(p, a, n)]
            whole_run16(p, a, n) && n >= min ==> runs16(p, 0, min).contains(chars16(p, a, n)),
{
    assert forall|k: int| 0 <= k < runs16(p, 0, min).len() implies is_run16(
        p,
        min,
        #[trigger] runs16(p, 0, min)[k],
    ) by {
        lemma_runs16_sound(p, 0, min, k);
    }
    assert forall|a: int, n: nat|
        #![trigger whole_run16(p, a, n)]
        whole_run16(p, a, n) && n >= min implies runs16(p, 0, min).contains(chars16(p, a, n)) by {
        lemma_run16_pairs(p, a, 0);
        lemma_runs16_complete(p, 0, min, a, n);
    }
}

/// Quads at the given positions, from `i` to `end`, in order and each behind
/// the end of the one before.
pub open spec fn disjoint_quads(p: Seq<u8>, at: Seq<int>, i: int, end: int) -> bool {
    &&& forall|k: int|
        0 <= k < at.len() ==> i <= #[trigger] at[k] && at[k] + 8 <= end && quad_at(p, at[k])
    &&& forall|j: int, k: int| 0 <= j < k < at.len() ==> #[trigger] at[j] + 8 <= #[trigger] at[k]
}

/// The quads that a reading meets are disjoint.
proof fn lemma_quads_met(p: Seq<u8>, i: int, end: int) -> (at: Seq<int>)
    ensures
        at.len() == quads_from(p, i, end),
        disjoint_quads(p, at, i, end),
    decreases end - i,
{
    if i + 8 > end {
        Seq::empty()
    } else if quad_at(p, i) {
        let rest = lemma_quads_met(p, i + 8, end);
        let at = seq![i] + rest;
        assert forall|k: int| 0 <= k < at.len() implies i <= #[trigger] at[k] && at[k] + 8 <= end
            && quad_at(p, at[k]) by {
            if k > 0 {
                assert(at[k] == rest[k - 1]);
            }
        }
        assert forall|j: int, k: int| 0 <= j < k < at.len() implies #[trigger] at[j] + 8
            <= #[trigger] at[k] by {
            assert(at[k] == rest[k - 1]);
            if j > 0 {
                assert(at[j] == rest[j - 1]);
            }
        }
        at
    } else {
        lemma_quads_met(p, i + 1, end)
    }
}

/// There are no more disjoint quads than a reading meets.
proof fn lemma_quads_most(p: Seq<u8>, at: Seq<int>, i: int, end: int)
    requires
        disjoint_quads(p, at, i, end),
    ensures
        at.len() <= quads_from(p, i, end),
    decreases end - i,
{
    if at.len() > 0 {
        assert(i <= at[0] && at[0] + 8 <= end && quad_at(p, at[0]));
        if quad_at(p, i) {
            let rest = at.skip(1);
            assert forall|k: int| 0 <= k < rest.len() implies i + 8 <= #[trigger] rest[k] && rest[k]
                + 8 <= end && quad_at(p, rest[k]) by {
                assert(rest[k] == at[k + 1]);
                assert(at[0] + 8 <= at[k + 1]);
            }
            assert forall|j: int, k: int| 0 <= j < k < rest.len() implies #[trigger] rest[j] + 8
                <= #[trigger] rest[k] by {
                assert(rest[j] == at[j + 1] && rest[k] == at[k + 1]);
            }
            lemma_quads_most(p, rest, i + 8, end);
        } else {
            assert forall|k: int| 0 <= k < at.len() implies i + 1 <= #[trigger] at[k] && at[k] + 8
                <= end && quad_at(p, at[k]) by {
                if at[k] == i {
                    assert(quad_at(p, at[k]));
                }
            }
            lemma_quads_most(p, at, i + 1, end);
        }
    }
}

/// The quads that are counted are as many as can lie side by side: a count of
/// `n` is reached exactly where `n` disjoint quads lie in the bytes.
pub proof fn law_quads_counted(p: Seq<u8>, end: int, n: nat)
    ensures
        quads_from(p, 0, end) >= n <==> exists|at: Seq<int>|
            at.len() == n && disjoint_quads(p, at, 0, end),
{
    if quads_from(p, 0, end) >= n {
        let all = lemma_quads_met(p, 0, end);
        let at = all.take(n as int);
        assert forall|k: int| 0 <= k < at.len() implies 0 <= #[trigger] at[k] && at[k] + 8 <= end
            && quad_at(p, at[k]) by {
            assert(at[k] == all[k]);
        }
        assert forall|j: int, k: int| 0 <= j < k < at.len() implies #[trigger] at[j] + 8
            <= #[trigger] at[k] by {
            assert(at[j] == all[j] && at[k] == all[k]);
        }
        assert(at.len() == n && disjoint_quads(p, at, 0, end));
    }
    if exists|at: Seq<int>| at.len() == n && disjoint_quads(p, at, 0, end) {
        let at = choose|at: Seq<int>| at.len() == n && disjoint_quads(p, at, 0, end);
        lemma_quads_most(p, at, 0, end);
    }
}

/// A payload looks like a state blob exactly where it has 256 bytes or more
/// and four disjoint runs of four UTF-16BE text characters lie in its first
/// 8192.
pub proof fn law_state_blob_like(p: Seq<u8>)
    ensures
        state_blob_like(p) <==> p.len() >= 256 && exists|at: Seq<int>|
            at.len() == 4 && disjoint_quads(p, at, 0, least(p.len() as int, 8192)),
{
    law_quads_counted(p, least(p.len() as int, 8192), 4);
}

} // verus!
