//! What reading chunked bodies, UTF-16 and host names means.

use vstd::prelude::*;

use crate::body;
use crate::bytes;
use crate::extract;
use crate::laws::findings;
use crate::laws::texts;
use crate::num;
use crate::strs;
use crate::text;

verus! {

proof fn lemma_line_of(line: Seq<u8>, rest: Seq<u8>)
    requires
        !line.contains(10),
    ensures
        strs::index_of(line + seq![10] + rest, 10) == Some(line.len() as int),
        (line + seq![10] + rest).take(line.len() as int) == line,
        (line + seq![10] + rest).skip(line.len() as int + 1) == rest,
{
    let b = line + seq![10] + rest;
    let n = line.len() as int;
    texts::lemma_cut_is(b, 10, line, rest);
    strs::lemma_index_of(b, 10);
    let i = strs::index_of(b, 10)->0;
    assert(b.take(n) =~= line);
    assert(b.skip(n + 1) =~= rest);
    assert(b.take(i).len() == line.len());
}

/// A chunk is its first line, its data and a line break, which may be missing;
/// reading goes on behind it.
pub proof fn law_chunk(line: Seq<u8>, data: Seq<u8>, rest: Seq<u8>)
    requires
        !line.contains(10),
        data.len() > 0,
        body::chunk_size(line) == Some(data.len()),
    ensures
        ({
            let chunk = line + seq![10] + data;
            &&& body::dechunked(chunk + (seq![13, 10] + rest)) == data + body::dechunked(rest)
            &&& body::dechunked(chunk + (seq![10] + rest)) == data + body::dechunked(rest)
            &&& rest.len() > 0 && rest[0] != 10 && rest[0] != 13 ==> body::dechunked(chunk + rest)
                == data + body::dechunked(rest)
            &&& body::dechunked(chunk) == data
        }),
{
    lemma_chunk_then(line, data, seq![13, 10] + rest);
    lemma_chunk_then(line, data, seq![10] + rest);
    lemma_chunk_then(line, data, rest);
    let chunk = line + seq![10] + data;
    let none = Seq::<u8>::empty();
    lemma_chunk_then(line, data, none);
    assert(chunk + none =~= chunk);
    strs::lemma_index_of(none, 10);
    assert(data + none =~= data);
    assert((seq![13u8, 10] + rest).skip(1) =~= seq![10u8] + rest);
    assert((seq![10u8] + rest).skip(1) =~= rest);
}

proof fn lemma_chunk_then(line: Seq<u8>, data: Seq<u8>, after: Seq<u8>)
    requires
        !line.contains(10),
        data.len() > 0,
        body::chunk_size(line) == Some(data.len()),
    ensures
        body::dechunked(line + seq![10] + data + after) == data + body::dechunked(
            body::after_break(after),
        ),
{
    let b = line + seq![10] + data + after;
    assert(b =~= line + seq![10] + (data + after));
    lemma_line_of(line, data + after);
    let n = line.len() as int;
    let m = data.len() as int;
    assert(b.subrange(n + 1, n + 1 + m) =~= data);
    assert(b.skip(n + 1 + m) =~= after);
}

/// Reading stops where there is no line, and at a chunk whose size is zero,
/// cannot be read or is more than there is.
pub proof fn law_chunks_stop(line: Seq<u8>, rest: Seq<u8>)
    requires
        !line.contains(10),
    ensures
        body::dechunked(line) == Seq::<u8>::empty(),
        (body::chunk_size(line) matches Some(n) ==> n == 0 || n > rest.len()) ==> body::dechunked(
            line + seq![10] + rest,
        ) == Seq::<u8>::empty(),
{
    strs::lemma_index_of(line, 10);
    lemma_line_of(line, rest);
}

/// The bytes of ASCII text.
pub open spec fn ascii(b: Seq<u8>) -> bool {
    forall|i: int| 0 <= i < b.len() ==> #[trigger] b[i] <= 0x7f
}

/// The size of a chunk is what its line writes in hexadecimal, up to white
/// space; a semicolon and what follows it do not count, nor does a carriage
/// return at the end.
pub proof fn law_chunk_size(line: Seq<u8>, more: Seq<u8>, core: Seq<char>)
    requires
        ascii(line),
        !line.contains(0x3b),
        findings::core_of(bytes::latin1(line), core),
    ensures
        body::chunk_size(line) == num::read(core, 16, usize::MAX as nat),
        body::chunk_size(line.push(13)) == num::read(core, 16, usize::MAX as nat),
        body::chunk_size(line + seq![0x3b] + more) == num::read(core, 16, usize::MAX as nat),
{
    lemma_size_of(line, core);
    strs::lemma_index_of(line, 0x3b);
    let back = line.push(13);
    assert(back.drop_last() =~= line);
    if line.len() > 0 && line.last() == 13 {
        let short = line.drop_last();
        assert(!short.contains(0x3b)) by {
            if short.contains(0x3b) {
                let i = choose|i: int| 0 <= i < short.len() && short[i] == 0x3b;
                assert(line[i] == 0x3b);
            }
        }
        assert forall|i: int| 0 <= i < short.len() implies #[trigger] short[i] <= 0x7f by {
            assert(line[i] <= 0x7f);
        }
        strs::lemma_index_of(short, 0x3b);
        lemma_core_without_cr(line, core);
        lemma_size_of(short, core);
    }
    let ext = line + seq![0x3b] + more;
    if more.len() > 0 && more.last() == 13 {
        let cut = more.drop_last();
        assert(ext.drop_last() =~= line + seq![0x3b] + cut);
        lemma_semicolon(line, cut);
    } else {
        lemma_semicolon(line, more);
        assert(body::without_cr(ext) == ext);
    }
}

proof fn lemma_semicolon(line: Seq<u8>, more: Seq<u8>)
    requires
        !line.contains(0x3b),
    ensures
        body::before_semicolon(line + seq![0x3b] + more) == line,
{
    let b = line + seq![0x3b] + more;
    texts::lemma_cut_is(b, 0x3b, line, more);
    strs::lemma_index_of(b, 0x3b);
    let i = strs::index_of(b, 0x3b)->0;
    assert(b.take(i) == line);
}

proof fn lemma_core_without_cr(line: Seq<u8>, core: Seq<char>)
    requires
        line.len() > 0,
        line.last() == 13,
        findings::core_of(bytes::latin1(line), core),
    ensures
        findings::core_of(bytes::latin1(line.drop_last()), core),
{
    let s = bytes::latin1(line);
    let t = bytes::latin1(line.drop_last());
    assert(t =~= s.drop_last());
    let (a, b) = choose|a: int, b: int| #[trigger] texts::is_core(s, core, a, b);
    let n = t.len() as int;
    if b > n {
        if core.len() > 0 {
            assert(core.last() == s[n]);
            texts::law_character_classes(s[n]);
        }
        assert(a == b);
        assert(core =~= t.subrange(n, n));
        assert forall|i: int| 0 <= i < n implies crate::chars::white(#[trigger] t[i]) by {
            assert(s[i] == t[i]);
        }
        assert(texts::is_core(t, core, n, n));
    } else {
        assert(core =~= t.subrange(a, b));
        assert forall|i: int| 0 <= i < a implies crate::chars::white(#[trigger] t[i]) by {
            assert(s[i] == t[i]);
        }
        assert forall|i: int| b <= i < n implies crate::chars::white(#[trigger] t[i]) by {
            assert(s[i] == t[i]);
        }
        assert(texts::is_core(t, core, a, b));
    }
}

proof fn lemma_size_of(b: Seq<u8>, core: Seq<char>)
    requires
        ascii(b),
        findings::core_of(bytes::latin1(b), core),
    ensures
        bytes::decoded(b) == Some(bytes::latin1(b)),
        strs::trimmed(bytes::latin1(b)) == core,
{
    let s = bytes::latin1(b);
    assert(vstd::utf8::is_ascii_chars(s)) by {
        assert forall|i: int| 0 <= i < s.len() implies '\0' <= #[trigger] s[i] <= '\u{7f}' by {
            assert(b[i] <= 0x7f);
        }
    }
    vstd::utf8::is_ascii_chars_encode_utf8(s);
    let e = vstd::utf8::encode_utf8(s);
    assert(e =~= b) by {
        assert forall|i: int| 0 <= i < b.len() implies e[i] == b[i] by {
            assert(s[i] as u8 == e[i]);
        }
    }
    vstd::utf8::encode_utf8_valid_utf8(s);
    vstd::utf8::encode_utf8_decode_utf8(s);
    findings::lemma_core(s, core);
}

/// What each unit of UTF-16 reads as: a unit outside the surrogates as its
/// own code point, a high and a low surrogate as the code point that they
/// make, and any other surrogate as the replacement character.
pub proof fn law_units_read(a: u16, b: u16, rest: Seq<u16>)
    ensures
        ({
            let low = 0xdc00 <= b <= 0xdfff;
            let high = 0xd800 <= a <= 0xdbff;
            let alone = text::decode16(seq![a] + rest);
            let both = text::decode16(seq![a, b] + rest);
            &&& a < 0xd800 || a >= 0xe000 ==> alone.len() > 0 && alone[0] as u32 == a && alone.skip(1)
                == text::decode16(rest)
            &&& high && low ==> both.len() > 0 && both[0] as u32 == (a - 0xd800) * 0x400 + (b
                - 0xdc00) + 0x10000 && both.skip(1) == text::decode16(rest)
            &&& high && !low ==> both.len() > 0 && both[0] == '\u{fffd}' && both.skip(1)
                == text::decode16(seq![b] + rest)
            &&& 0xdc00 <= a < 0xe000 ==> alone.len() > 0 && alone[0] == '\u{fffd}' && alone.skip(1)
                == text::decode16(rest)
            &&& high ==> text::decode16(seq![a]) == seq!['\u{fffd}']
        }),
{
    let one = seq![a] + rest;
    let two = seq![a, b] + rest;
    assert(one.skip(1) =~= rest);
    assert(two.skip(1) =~= seq![b] + rest);
    assert(two.skip(2) =~= rest);
    let alone = text::decode16(one);
    let both = text::decode16(two);
    let last = seq![a];
    assert(last.skip(1) =~= Seq::<u16>::empty());
    if 0xd800 <= a <= 0xdbff {
        assert(text::decode16(Seq::<u16>::empty()) =~= Seq::empty());
        assert(text::decode16(last) =~= seq!['\u{fffd}']);
    }
    assert(alone.skip(1) =~= text::decode16(rest) || (0xd800 <= a <= 0xdbff));
    if 0xd800 <= a <= 0xdbff {
        if 0xdc00 <= b <= 0xdfff {
            assert(both.skip(1) =~= text::decode16(rest));
        } else {
            assert(both.skip(1) =~= text::decode16(seq![b] + rest));
        }
    }
}

/// Two bytes make a unit, in one order or the other, and a last byte without
/// its partner is dropped.
pub proof fn law_units(b: Seq<u8>, x: u8, i: int)
    requires
        b.len() % 2 == 0,
        0 <= i < b.len() / 2,
    ensures
        text::units_le(b).len() == b.len() / 2,
        text::units_be(b).len() == b.len() / 2,
        text::units_le(b)[i] == b[2 * i] + b[2 * i + 1] * 0x100,
        text::units_be(b)[i] == b[2 * i] * 0x100 + b[2 * i + 1],
        text::units_le(b.push(x)) == text::units_le(b),
        text::units_be(b.push(x)) == text::units_be(b),
{
    assert(text::units_le(b.push(x)) =~= text::units_le(b));
    assert(text::units_be(b.push(x)) =~= text::units_be(b));
}

/// How much a character counts: visible ASCII and the four blanks four
/// quarters, control characters nothing, the rest one quarter.
pub proof fn law_weight(c: char)
    ensures
        ({
            let n = c as u32;
            let plain = 0x20 <= n <= 0x7e || n == 9 || n == 10 || n == 13;
            let control = n < 0x20 || 0x7f <= n <= 0x9f;
            &&& plain ==> text::weight(c) == 4
            &&& control && !plain ==> text::weight(c) == 0
            &&& !control && !plain ==> text::weight(c) == 1
        }),
{
}

/// The weights of a text, added up.
pub open spec fn weights(s: Seq<char>) -> nat
    decreases s.len(),
{
    if s.len() == 0 {
        0
    } else {
        weights(s.drop_last()) + text::weight(s.last())
    }
}

proof fn lemma_single_exact(n: nat)
    requires
        n <= 0x100_0000,
    ensures
        text::single(n) == n,
{
    reveal_with_fuel(text::spacing, 3);
    if n == 0x100_0000 {
        assert(text::spacing(n) == 2);
        assert(n % 2 == 0);
    } else {
        assert(text::spacing(n) == 1);
        assert(n % 1 == 0);
        assert(n / 1 == n);
    }
}

proof fn lemma_score_exact(s: Seq<char>)
    requires
        s.len() <= 0x40_0000,
    ensures
        text::score(s) == weights(s),
        weights(s) <= 4 * s.len(),
    decreases s.len(),
{
    if s.len() > 0 {
        lemma_score_exact(s.drop_last());
        lemma_single_exact(weights(s));
    }
}

proof fn lemma_scaled(n: nat, d: nat, k: nat)
    requires
        0 < d,
        n < d * 0x100_0000,
    ensures
        n > 0 ==> text::scaled(n, d, k).sig >= 0x80_0000,
        n > 0 ==> text::scaled(n, d, k).exp <= 1 - k,
        n == 0 ==> text::scaled(n, d, k).sig == 0,
    decreases (if n < d * 0x80_0000 {
        d * 0x80_0000 - n
    } else {
        0
    }),
{
    if n > 0 {
        if n >= d * 0x80_0000 {
            lemma_quotient(n, d);
        } else {
            lemma_scaled(2 * n, d, k + 1);
        }
    }
}

proof fn lemma_quotient(n: nat, d: nat)
    requires
        0 < d,
        d * 0x80_0000 <= n < d * 0x100_0000,
    ensures
        0x80_0000 <= n / d < 0x100_0000,
        0x80_0000 <= text::nearest(n, d) <= 0x100_0000,
{
    assert(n / d < 0x100_0000) by (nonlinear_arith)
        requires
            0 < d,
            n < d * 0x100_0000,
    ;
    assert(n / d >= 0x80_0000) by (nonlinear_arith)
        requires
            0 < d,
            n >= d * 0x80_0000,
    ;
}

proof fn lemma_far_apart(n: nat, m: nat, d: nat)
    requires
        0 < d,
        n >= m + 2 * d,
    ensures
        n / d >= m / d + 2,
        text::nearest(n, d) > text::nearest(m, d),
{
    assert(n / d >= m / d + 2) by (nonlinear_arith)
        requires
            0 < d,
            n >= m + 2 * d,
    ;
}

/// The larger share stays the larger in single precision.
proof fn lemma_scaled_order(n: nat, m: nat, d: nat, g: nat, k: nat)
    requires
        0 < d <= 0x10_0000,
        n < d * 0x100_0000,
        n >= m + g,
        g > 0,
        n <= 4 * d * g,
    ensures
        text::at_least(text::scaled(n, d, k), text::scaled(m, d, k)),
        !text::at_least(text::scaled(m, d, k), text::scaled(n, d, k)),
    decreases (if n < d * 0x80_0000 {
        d * 0x80_0000 - n
    } else {
        0
    }),
{
    lemma_scaled(n, d, k);
    lemma_scaled(m, d, k);
    if m > 0 {
        if n >= d * 0x80_0000 {
            assert(g >= 2 * d) by (nonlinear_arith)
                requires
                    0 < d <= 0x10_0000,
                    n >= d * 0x80_0000,
                    n <= 4 * d * g,
            ;
            lemma_far_apart(n, m, d);
            lemma_quotient(n, d);
            if m < d * 0x80_0000 {
                assert(text::scaled(m, d, k) == text::scaled(2 * m, d, k + 1));
                lemma_scaled(2 * m, d, k + 1);
                if 2 * m >= d * 0x80_0000 {
                    if text::nearest(2 * m, d) == 0x100_0000 {
                        assert(n / d >= 0x80_0001) by {
                            lemma_near_the_top(n, m, d);
                        }
                    }
                } else {
                    lemma_scaled(4 * m, d, k + 2);
                    assert(text::scaled(2 * m, d, k + 1) == text::scaled(2 * (2 * m), d, k + 2));
                }
            } else {
                lemma_quotient(m, d);
            }
        } else {
            assert(2 * n <= 4 * d * (2 * g)) by (nonlinear_arith)
                requires
                    n <= 4 * d * g,
            ;
            lemma_scaled_order(2 * n, 2 * m, d, 2 * g, k + 1);
        }
    }
}

proof fn lemma_near_the_top(n: nat, m: nat, d: nat)
    requires
        0 < d,
        n >= m + 2 * d,
        text::nearest(2 * m, d) == 0x100_0000,
    ensures
        n / d >= 0x80_0001,
{
    let q = (2 * m) / d;
    assert(q >= 0xff_ffff);
    assert(2 * m >= d * 0xff_ffff) by (nonlinear_arith)
        requires
            q == (2 * m) / d,
            q >= 0xff_ffff,
            0 < d,
    ;
    assert(n >= d * 0x80_0001);
    assert(n / d >= 0x80_0001) by (nonlinear_arith)
        requires
            0 < d,
            n >= d * 0x80_0001,
    ;
}

/// A share is the same whatever its terms are.
proof fn lemma_nearest_same(n: nat, a: nat, m: nat, b: nat)
    requires
        0 < a,
        0 < b,
        n * b == m * a,
    ensures
        n / a == m / b,
        text::nearest(n, a) == text::nearest(m, b),
{
    let (x, r) = (n / a, n % a);
    let (y, t) = (m / b, m % b);
    assert(n == x * a + r && m == y * b + t) by (nonlinear_arith)
        requires
            0 < a,
            0 < b,
            x == n / a,
            r == n % a,
            y == m / b,
            t == m % b,
    ;
    assert(x == y) by (nonlinear_arith)
        requires
            0 <= r < a,
            0 <= t < b,
            n == x * a + r,
            m == y * b + t,
            n * b == m * a,
    ;
    assert(r * b == t * a) by (nonlinear_arith)
        requires
            n == x * a + r,
            m == x * b + t,
            n * b == m * a,
    ;
    assert(2 * r < a <==> 2 * t < b) by (nonlinear_arith)
        requires
            0 < a,
            0 < b,
            r * b == t * a,
    ;
    assert(2 * r == a <==> 2 * t == b) by (nonlinear_arith)
        requires
            0 < a,
            0 < b,
            r * b == t * a,
    ;
}

proof fn lemma_scaled_same(n: nat, a: nat, m: nat, b: nat, k: nat)
    requires
        0 < a,
        0 < b,
        n * b == m * a,
    ensures
        text::scaled(n, a, k) == text::scaled(m, b, k),
    decreases (if n < a * 0x80_0000 {
        a * 0x80_0000 - n
    } else {
        0
    }),
{
    assert(n == 0 <==> m == 0) by (nonlinear_arith)
        requires
            0 < a,
            0 < b,
            n * b == m * a,
    ;
    assert(n >= a * 0x80_0000 <==> m >= b * 0x80_0000) by (nonlinear_arith)
        requires
            0 < a,
            0 < b,
            n * b == m * a,
    ;
    if n > 0 {
        if n >= a * 0x80_0000 {
            lemma_nearest_same(n, a, m, b);
        } else {
            assert((2 * n) * b == (2 * m) * a) by (nonlinear_arith)
                requires
                    n * b == m * a,
            ;
            lemma_scaled_same(2 * n, a, 2 * m, b, k + 1);
        }
    }
}

proof fn lemma_two_apart(n: nat, a: nat, m: nat, b: nat)
    requires
        0 < a,
        0 < b,
        n * b >= m * a + 2 * (a * b),
    ensures
        n / a >= m / b + 2,
        text::nearest(n, a) > text::nearest(m, b),
{
    let x = m / b;
    assert(m >= x * b) by (nonlinear_arith)
        requires
            0 < b,
            x == m / b,
    ;
    assert(n >= (x + 2) * a) by (nonlinear_arith)
        requires
            0 < a,
            0 < b,
            m >= x * b,
            n * b >= m * a + 2 * (a * b),
    ;
    assert(n / a >= x + 2) by (nonlinear_arith)
        requires
            0 < a,
            n >= (x + 2) * a,
    ;
}

proof fn lemma_top_apart(n: nat, a: nat, m: nat, b: nat)
    requires
        0 < a,
        0 < b,
        n * b >= m * a + 2 * (a * b),
        text::nearest(2 * m, b) == 0x100_0000,
    ensures
        n / a >= 0x80_0001,
{
    let q = (2 * m) / b;
    assert(q >= 0xff_ffff);
    assert(2 * m >= b * 0xff_ffff) by (nonlinear_arith)
        requires
            q == (2 * m) / b,
            q >= 0xff_ffff,
            0 < b,
    ;
    assert(n >= a * 0x80_0001) by (nonlinear_arith)
        requires
            0 < a,
            0 < b,
            2 * m >= b * 0xff_ffff,
            n * b >= m * a + 2 * (a * b),
    ;
    assert(n / a >= 0x80_0001) by (nonlinear_arith)
        requires
            0 < a,
            n >= a * 0x80_0001,
    ;
}

/// The larger of two shares stays the larger in single precision, whatever
/// their terms are.
proof fn lemma_shares_order(n: nat, a: nat, m: nat, b: nat, g: nat, k: nat)
    requires
        0 < a,
        0 < b,
        a * b <= 0x10_0000,
        n < a * 0x100_0000,
        n * b >= m * a + g,
        g > 0,
        n <= 4 * a * g,
    ensures
        text::at_least(text::scaled(n, a, k), text::scaled(m, b, k)),
        !text::at_least(text::scaled(m, b, k), text::scaled(n, a, k)),
    decreases (if n < a * 0x80_0000 {
        a * 0x80_0000 - n
    } else {
        0
    }),
{
    assert(n > 0 && m < b * 0x100_0000) by (nonlinear_arith)
        requires
            0 < a,
            0 < b,
            g > 0,
            n < a * 0x100_0000,
            n * b >= m * a + g,
    ;
    lemma_scaled(n, a, k);
    lemma_scaled(m, b, k);
    if m > 0 {
        if n >= a * 0x80_0000 {
            assert(g >= 0x20_0000) by (nonlinear_arith)
                requires
                    0 < a,
                    n >= a * 0x80_0000,
                    n <= 4 * a * g,
            ;
            lemma_two_apart(n, a, m, b);
            lemma_quotient(n, a);
            if m < b * 0x80_0000 {
                assert(text::scaled(m, b, k) == text::scaled(2 * m, b, k + 1));
                lemma_scaled(2 * m, b, k + 1);
                if 2 * m >= b * 0x80_0000 {
                    if text::nearest(2 * m, b) == 0x100_0000 {
                        lemma_top_apart(n, a, m, b);
                    }
                } else {
                    lemma_scaled(4 * m, b, k + 2);
                    assert(text::scaled(2 * m, b, k + 1) == text::scaled(2 * (2 * m), b, k + 2));
                }
            } else {
                lemma_quotient(m, b);
            }
        } else {
            assert(m < b * 0x80_0000) by (nonlinear_arith)
                requires
                    0 < a,
                    0 < b,
                    n < a * 0x80_0000,
                    n * b >= m * a,
            ;
            assert((2 * n) * b >= (2 * m) * a + 2 * g && 2 * n <= 4 * a * (2 * g))
                by (nonlinear_arith)
                requires
                    n * b >= m * a + g,
                    n <= 4 * a * g,
            ;
            lemma_shares_order(2 * n, a, 2 * m, b, 2 * g, k + 1);
        }
    }
}

/// What counts of a reading is its share of text: its weights over its
/// length. The larger share is taken, and the little-endian reading where
/// they are the same.
pub proof fn law_best_reading_by_share(b: Seq<u8>)
    requires
        b.len() >= 2,
        text::decode16(text::units_le(b)).len() * text::decode16(text::units_be(b)).len()
            <= 0x10_0000,
    ensures
        ({
            let le = text::decode16(text::units_le(b));
            let be = text::decode16(text::units_be(b));
            text::best_reading(b) == if weights(le) * be.len() >= weights(be) * le.len() {
                le
            } else {
                be
            }
        }),
{
    let le = text::decode16(text::units_le(b));
    let be = text::decode16(text::units_be(b));
    lemma_some_text(text::units_le(b));
    lemma_some_text(text::units_be(b));
    let (x, y) = (le.len(), be.len());
    assert(x <= 0x10_0000 && y <= 0x10_0000 && y * x == x * y) by (nonlinear_arith)
        requires
            x > 0,
            y > 0,
            x * y <= 0x10_0000,
    ;
    lemma_score_exact(le);
    lemma_score_exact(be);
    lemma_single_exact(x);
    lemma_single_exact(y);
    let (n, m) = (weights(le), weights(be));
    if n * y > m * x {
        lemma_shares_order(n, x, m, y, 1, 0);
    } else if m * x > n * y {
        lemma_shares_order(m, y, n, x, 1, 0);
    } else {
        lemma_scaled_same(n, x, m, y, 0);
    }
}

/// Of the two readings of some bytes the one that counts more as text is
/// taken, and the little-endian one where they count the same. Less than two
/// bytes read as nothing.
pub proof fn law_best_reading(b: Seq<u8>)
    ensures
        ({
            let le = text::decode16(text::units_le(b));
            let be = text::decode16(text::units_be(b));
            let r = text::best_reading(b);
            &&& b.len() < 2 ==> r == Seq::<char>::empty()
            &&& b.len() >= 2 ==> r == le || r == be
            &&& b.len() >= 2 && le.len() == be.len() <= 0x10_0000 ==> r == if weights(le)
                >= weights(be) {
                le
            } else {
                be
            }
        }),
{
    let le = text::decode16(text::units_le(b));
    let be = text::decode16(text::units_be(b));
    if b.len() >= 2 && le.len() == be.len() <= 0x10_0000 {
        let d = le.len();
        assert(text::units_le(b).len() > 0);
        lemma_some_text(text::units_le(b));
        lemma_score_exact(le);
        lemma_score_exact(be);
        lemma_single_exact(d);
        let (n, m) = (weights(le), weights(be));
        if n > m {
            lemma_scaled_order(n, m, d, 1, 0);
        } else if m > n {
            lemma_scaled_order(m, n, d, 1, 0);
        }
    }
}

proof fn lemma_some_text(u: Seq<u16>)
    requires
        u.len() > 0,
    ensures
        text::decode16(u).len() > 0,
{
}

/// `h` is a name, or a name, a colon and a port.
pub open spec fn name_in(h: Seq<char>, name: Seq<char>) -> bool {
    &&& !name.contains(':')
    &&& h == name || (name.len() < h.len() && h.take(name.len() as int) == name
        && h[name.len() as int] == ':')
}

/// The labels of a host: a name whose last label is two letters or more, or
/// four numbers below 256.
pub open spec fn host_of(name: Seq<char>, parts: Seq<Seq<char>>) -> bool {
    let last = parts[parts.len() - 1];
    &&& findings::dotted_labels(name, parts)
    &&& {
        ||| last.len() >= 2 && forall|i: int|
            0 <= i < last.len() ==> findings::letter(#[trigger] last[i])
        ||| parts.len() == 4 && forall|i: int|
            0 <= i < 4 ==> num::read(#[trigger] parts[i], 10, 255) is Some
    }
}

/// A host is a name of labels, or an IPv4 address, that a port may follow, of
/// at most 253 bytes in all.
pub proof fn law_hostlike(h: Seq<char>, name: Seq<char>)
    requires
        name_in(h, name),
    ensures
        extract::hostlike(h) <==> strs::utf8_len(h) <= 253 && exists|parts: Seq<Seq<char>>|
            #[trigger] host_of(name, parts),
{
    if h != name {
        let n = name.len() as int;
        assert(h =~= name + seq![':'] + h.skip(n + 1));
        texts::lemma_cut_is(h, ':', name, h.skip(n + 1));
    } else {
        texts::law_cut(h, ':');
    }
    let labels = strs::fields(name, '.');
    findings::lemma_dotted(name);
    texts::law_fields(name, '.');
    if extract::hostlike(h) {
        let parts = choose|parts: Seq<Seq<char>>| #[trigger] findings::dotted_labels(name, parts);
        texts::lemma_fields_are(name, '.', parts);
        let last = parts[parts.len() - 1];
        if last.len() >= 2 && strs::all_alphabetic(last) {
            assert forall|i: int| 0 <= i < last.len() implies findings::letter(
                #[trigger] last[i],
            ) by {
                assert(crate::chars::alphabetic(last[i]));
            }
        }
        assert(host_of(name, parts));
    }
    if exists|parts: Seq<Seq<char>>| #[trigger] host_of(name, parts) {
        let parts = choose|parts: Seq<Seq<char>>| #[trigger] host_of(name, parts);
        assert(findings::dotted_labels(name, parts));
        texts::lemma_fields_are(name, '.', parts);
        let last = parts[parts.len() - 1];
        if last.len() >= 2 && forall|i: int|
            0 <= i < last.len() ==> findings::letter(#[trigger] last[i]) {
            assert forall|i: int| 0 <= i < last.len() implies crate::chars::alphabetic(
                #[trigger] last[i],
            ) by {
                assert(findings::letter(last[i]));
            }
        }
        assert(h.len() > 0) by {
            assert(findings::is_label(parts[0]));
        }
        findings::lemma_bytes(h);
    }
}

/// `t` is `http` or `https`, a colon, two slashes, `h`, and nothing more or a
/// slash and more.
pub open spec fn address_of(t: Seq<char>, h: Seq<char>) -> bool {
    let a = seq!['h', 't', 't', 'p', ':', '/', '/'];
    let b = seq!['h', 't', 't', 'p', 's', ':', '/', '/'];
    &&& !h.contains('/')
    &&& {
        ||| t == a + h
        ||| t == b + h
        ||| exists|rest: Seq<char>| t == #[trigger] (a + h + seq!['/'] + rest)
        ||| exists|rest: Seq<char>| t == #[trigger] (b + h + seq!['/'] + rest)
    }
}

proof fn lemma_before_slash(h: Seq<char>, rest: Seq<char>)
    requires
        !h.contains('/'),
    ensures
        extract::before_slash(h) == h,
        extract::before_slash(h + seq!['/'] + rest) == h,
{
    texts::law_cut(h, '/');
    texts::lemma_cut_is(h + seq!['/'] + rest, '/', h, rest);
}

proof fn lemma_after_scheme(rest: Seq<char>)
    ensures
        ({
            let a = seq!['h', 't', 't', 'p', ':', '/', '/'];
            let b = seq!['h', 't', 't', 'p', 's', ':', '/', '/'];
            &&& extract::after_scheme(a + rest) == Some(rest)
            &&& extract::after_scheme(b + rest) == Some(rest)
        }),
{
    let a = seq!['h', 't', 't', 'p', ':', '/', '/'];
    let b = seq!['h', 't', 't', 'p', 's', ':', '/', '/'];
    reveal_strlit("http://");
    reveal_strlit("https://");
    assert("http://"@ =~= a);
    assert("https://"@ =~= b);
    assert((a + rest).skip(7) =~= rest);
    assert((b + rest).skip(8) =~= rest);
    assert((a + rest).subrange(0, 7) =~= a);
    assert((b + rest).subrange(0, 8) =~= b);
    if strs::prefixed(a + rest, b) {
        assert((a + rest).subrange(0, 8)[4] == ':');
    }
}

proof fn lemma_address(t: Seq<char>, h: Seq<char>)
    requires
        address_of(t, h),
    ensures
        extract::after_scheme(t) matches Some(rest) && extract::before_slash(rest) == h,
{
    let a = seq!['h', 't', 't', 'p', ':', '/', '/'];
    let b = seq!['h', 't', 't', 'p', 's', ':', '/', '/'];
    if t == a + h || t == b + h {
        lemma_after_scheme(h);
        lemma_before_slash(h, h);
    } else if exists|rest: Seq<char>| t == #[trigger] (a + h + seq!['/'] + rest) {
        let rest = choose|rest: Seq<char>| t == #[trigger] (a + h + seq!['/'] + rest);
        assert(t =~= a + (h + seq!['/'] + rest));
        lemma_after_scheme(h + seq!['/'] + rest);
        lemma_before_slash(h, rest);
    } else {
        let rest = choose|rest: Seq<char>| t == #[trigger] (b + h + seq!['/'] + rest);
        assert(t =~= b + (h + seq!['/'] + rest));
        lemma_after_scheme(h + seq!['/'] + rest);
        lemma_before_slash(h, rest);
    }
}

proof fn lemma_scheme_is(t: Seq<char>)
    ensures
        extract::after_scheme(t) matches Some(rest) ==> t.contains('/') && (t == seq![
            'h',
            't',
            't',
            'p',
            ':',
            '/',
            '/',
        ] + rest || t == seq!['h', 't', 't', 'p', 's', ':', '/', '/'] + rest),
{
    let a = seq!['h', 't', 't', 'p', ':', '/', '/'];
    let b = seq!['h', 't', 't', 'p', 's', ':', '/', '/'];
    reveal_strlit("http://");
    reveal_strlit("https://");
    assert("http://"@ =~= a);
    assert("https://"@ =~= b);
    texts::law_prefix_and_suffix(t, a);
    texts::law_prefix_and_suffix(t, b);
    if strs::prefixed(t, b) {
        assert(t[7] == b[7]);
    } else if strs::prefixed(t, a) {
        assert(t[6] == a[6]);
    }
}

proof fn lemma_address_is(t: Seq<char>)
    ensures
        extract::after_scheme(t) matches Some(rest) ==> address_of(t, extract::before_slash(rest)),
{
    lemma_scheme_is(t);
    match extract::after_scheme(t) {
        Some(rest) => {
            let a = seq!['h', 't', 't', 'p', ':', '/', '/'];
            let b = seq!['h', 't', 't', 'p', 's', ':', '/', '/'];
            texts::law_cut(rest, '/');
            let x = extract::before_slash(rest);
            if rest.contains('/') {
                let more = strs::cut(rest, '/')->0;
                assert(rest == x + seq!['/'] + more.1);
                assert(a + rest =~= a + x + seq!['/'] + more.1);
                assert(b + rest =~= b + x + seq!['/'] + more.1);
            }
        },
        None => {},
    }
}

/// A host is found in a web address on it, and in a text that is one; and
/// what is found is a host that the text is or that its address is on.
pub proof fn law_host_in(s: Seq<char>, t: Seq<char>, h: Seq<char>)
    requires
        findings::core_of(s, t),
    ensures
        address_of(t, h) && extract::hostlike(h) ==> extract::host_in(s) == Some(h),
        extract::hostlike(t) && !t.contains(' ') && !t.contains('/') ==> extract::host_in(s)
            == Some(t),
        extract::host_in(s) matches Some(x) ==> extract::hostlike(x) && ((x == t && !t.contains(
            ' ',
        )) || address_of(t, x)),
{
    findings::lemma_core(s, t);
    if address_of(t, h) {
        lemma_address(t, h);
    }
    lemma_scheme_is(t);
    lemma_address_is(t);
}

} // verus!
