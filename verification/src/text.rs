//! UTF-16 decoding helpers.

use vstd::prelude::*;

use crate::chars;
use crate::strs;

verus! {

/// `char::from_u32` gives the character of a scalar value, and `None` for
/// any other number.
pub assume_specification[ char::from_u32 ](i: u32) -> (r: Option<char>)
    ensures
        r == if vstd::utf8::is_scalar(i) {
            Some(i as char)
        } else {
            None
        },
;

pub open spec fn high_surrogate(u: u16) -> bool {
    0xd800 <= u <= 0xdbff
}

pub open spec fn low_surrogate(u: u16) -> bool {
    0xdc00 <= u <= 0xdfff
}

/// The character that a surrogate pair encodes.
pub open spec fn pair_char(a: u16, b: u16) -> char {
    (0x10000 + (a - 0xd800) * 0x400 + (b - 0xdc00)) as char
}

/// The text that UTF-16 units encode. A surrogate without its partner reads as
/// the replacement character.
pub open spec fn decode16(u: Seq<u16>) -> Seq<char>
    decreases u.len(),
{
    if u.len() == 0 {
        Seq::empty()
    } else if !high_surrogate(u[0]) && !low_surrogate(u[0]) {
        seq![u[0] as char] + decode16(u.skip(1))
    } else if high_surrogate(u[0]) && u.len() > 1 && low_surrogate(u[1]) {
        seq![pair_char(u[0], u[1])] + decode16(u.skip(2))
    } else {
        seq!['\u{fffd}'] + decode16(u.skip(1))
    }
}

/// The units of little-endian bytes; a last odd byte is dropped.
pub open spec fn units_le(b: Seq<u8>) -> Seq<u16> {
    Seq::new(b.len() / 2, |i: int| (b[2 * i] + 256 * b[2 * i + 1]) as u16)
}

/// The units of big-endian bytes; a last odd byte is dropped.
pub open spec fn units_be(b: Seq<u8>) -> Seq<u16> {
    Seq::new(b.len() / 2, |i: int| (256 * b[2 * i] + b[2 * i + 1]) as u16)
}

fn decode_units(u: &[u16]) -> (r: String)
    ensures
        r@ == decode16(u@),
{
    let n: usize = u.len();
    let mut out: String = String::new();
    let mut i: usize = 0;
    assert(u@.skip(0) =~= u@);
    assert(out@ + decode16(u@) =~= decode16(u@));
    while i < n
        invariant
            n == u@.len(),
            i <= n,
            out@ + decode16(u@.skip(i as int)) == decode16(u@),
        decreases n - i,
    {
        let ghost seen = out@;
        let ghost rest = u@.skip(i as int);
        let a: u16 = u[i];
        assert(rest.skip(1) =~= u@.skip(i + 1));
        if !(0xd800 <= a && a <= 0xdfff) {
            let c: char = match char::from_u32(a as u32) {
                Some(c) => c,
                None => '\u{fffd}',
            };
            out.push(c);
            i = i + 1;
        } else if a <= 0xdbff && i + 1 < n && 0xdc00 <= u[i + 1] && u[i + 1] <= 0xdfff {
            let b: u16 = u[i + 1];
            assert(rest.skip(2) =~= u@.skip(i + 2));
            let code: u32 = 0x10000 + (a as u32 - 0xd800) * 0x400 + (b as u32 - 0xdc00);
            let c: char = match char::from_u32(code) {
                Some(c) => c,
                None => '\u{fffd}',
            };
            out.push(c);
            assert(out@ == seen.push(pair_char(a, b)));
            i = i + 2;
        } else {
            out.push('\u{fffd}');
            i = i + 1;
        }
        assert(seen + decode16(rest) =~= out@ + decode16(u@.skip(i as int)));
    }
    assert(decode16(u@.skip(n as int)) =~= Seq::<char>::empty());
    assert(out@ =~= decode16(u@));
    out
}

pub fn decode_utf16le(b: &[u8]) -> (r: String)
    ensures
        r@ == decode16(units_le(b@)),
{
    let mut units: Vec<u16> = Vec::new();
    for i in 0..b.len() / 2
        invariant
            units@ == units_le(b@).take(i as int),
    {
        units.push(b[2 * i] as u16 + 256 * b[2 * i + 1] as u16);
        assert(units@ =~= units_le(b@).take(i + 1));
    }
    assert(units@ =~= units_le(b@));
    decode_units(&units)
}

pub fn decode_utf16be(b: &[u8]) -> (r: String)
    ensures
        r@ == decode16(units_be(b@)),
{
    let mut units: Vec<u16> = Vec::new();
    for i in 0..b.len() / 2
        invariant
            units@ == units_be(b@).take(i as int),
    {
        units.push(256 * b[2 * i] as u16 + b[2 * i + 1] as u16);
        assert(units@ =~= units_be(b@).take(i + 1));
    }
    assert(units@ =~= units_be(b@));
    decode_units(&units)
}

/// `n / d` rounded to the nearest integer, a tie to the even one.
pub open spec fn nearest(n: nat, d: nat) -> nat {
    if 2 * (n % d) < d || (2 * (n % d) == d && (n / d) % 2 == 0) {
        n / d
    } else {
        n / d + 1
    }
}

/// The distance between the single-precision numbers around the integer `n`:
/// they have 24 significant bits.
pub open spec fn spacing(n: nat) -> nat
    decreases n,
{
    if n < 0x100_0000 {
        1
    } else {
        2 * spacing(n / 2)
    }
}

/// The integer `n` rounded to single precision.
pub open spec fn single(n: nat) -> nat {
    nearest(n, spacing(n)) * spacing(n)
}

/// How much a character counts as text, in quarters. ASCII is rewarded
/// heavily, other printable scripts mildly, control characters not at all:
/// the intent is to pick the byte order that yields recognisable text, not a
/// coincidentally valid CJK reading of ASCII bytes.
pub open spec fn weight(c: char) -> nat {
    if chars::graphic(c) || chars::blank(c) {
        4
    } else if chars::control(c) {
        0
    } else {
        1
    }
}

/// The weights of a text, in quarters, added up in single precision from the
/// left.
pub open spec fn score(s: Seq<char>) -> nat
    decreases s.len(),
{
    if s.len() == 0 {
        0
    } else {
        single(score(s.drop_last()) + weight(s.last()))
    }
}

/// A number in single precision: zero, or `sig * 2^exp` with `sig` of exactly
/// 24 bits.
pub struct Single {
    pub exp: int,
    pub sig: nat,
}

pub open spec fn at_least(a: Single, b: Single) -> bool {
    ||| b.sig == 0
    ||| a.sig != 0 && (a.exp > b.exp || (a.exp == b.exp && a.sig >= b.sig))
}

/// `(n / d) * 2^-shift` in single precision, for `n < d * 2^24`.
pub open spec fn scaled(n: nat, d: nat, shift: nat) -> Single
    decreases
            if n < d * 0x80_0000 {
                d * 0x80_0000 - n
            } else {
                0
            },
{
    if n == 0 || d == 0 {
        Single { exp: 0, sig: 0 }
    } else if n >= d * 0x80_0000 {
        if nearest(n, d) == 0x100_0000 {
            Single { exp: 1 - shift, sig: 0x80_0000 }
        } else {
            Single { exp: -shift, sig: nearest(n, d) }
        }
    } else {
        scaled(2 * n, d, shift + 1)
    }
}

/// The share of a text that is printable, in single precision: its score (in
/// quarters) over its length.
pub open spec fn printable_share(s: Seq<char>) -> Single {
    scaled(score(s), single(s.len()), 0)
}

/// Both byte orders are tried; the reading with the larger printable share
/// wins, and the little-endian one where neither is larger.
pub open spec fn best_reading(b: Seq<u8>) -> Seq<char> {
    let le = decode16(units_le(b));
    let be = decode16(units_be(b));
    if b.len() < 2 {
        Seq::empty()
    } else if at_least(printable_share(le), printable_share(be)) {
        le
    } else {
        be
    }
}

fn char_weight(c: char) -> (r: u64)
    ensures
        r == weight(c),
        r == 0 || r == 1 || r == 4,
{
    if chars::is_graphic(c) || chars::is_blank(c) {
        4
    } else if chars::is_control(c) {
        0
    } else {
        1
    }
}

fn to_nearest(n: u128, d: u128) -> (r: u128)
    requires
        0 < d,
        n < 0x1_0000_0000_0000_0000_0000_0000_0000,
        d < 0x1_0000_0000_0000_0000_0000_0000_0000,
    ensures
        r == nearest(n as nat, d as nat),
{
    let q: u128 = n / d;
    let m: u128 = n % d;
    assert(m < d);
    if 2 * m < d || (2 * m == d && q % 2 == 0) {
        q
    } else {
        assert(q <= n) by (nonlinear_arith)
            requires
                q == n / d,
                d >= 1,
        ;
        q + 1
    }
}

/// A running score is a multiple of the spacing at its size, and stops
/// growing at the point where a whole character no longer counts.
spec fn settled(q: nat) -> bool {
    &&& q <= 0x400_0000
    &&& q >= 0x100_0000 ==> q % 2 == 0
    &&& q >= 0x200_0000 ==> q % 4 == 0
}

proof fn lemma_step(q: nat, w: nat)
    requires
        settled(q),
        w == 0 || w == 1 || w == 4,
    ensures
        settled(single(q + w)),
        spacing(q + w) == if q + w < 0x100_0000 {
            1nat
        } else if q + w < 0x200_0000 {
            2
        } else if q + w < 0x400_0000 {
            4
        } else {
            8
        },
{
    reveal_with_fuel(spacing, 5);
    let x = q + w;
    if x < 0x100_0000 {
        assert(spacing(x) == 1);
        assert(nearest(x, 1) == x);
        assert(single(x) == x);
    } else if x < 0x200_0000 {
        assert(spacing(x) == 2);
        assert(nearest(x, 2) == x / 2 || nearest(x, 2) == x / 2 + 1);
        assert(single(x) == nearest(x, 2) * 2);
    } else if x < 0x400_0000 {
        assert(spacing(x) == 4);
        assert(nearest(x, 4) == x / 4 || nearest(x, 4) == x / 4 + 1);
        assert(single(x) == nearest(x, 4) * 4);
    } else {
        assert(spacing(x) == 8);
        assert(nearest(x, 8) == 0x80_0000);
        assert(single(x) == nearest(x, 8) * 8);
    }
}

fn score_of(s: &[char]) -> (r: u64)
    ensures
        r == score(s@),
        r <= 0x400_0000,
{
    let mut q: u64 = 0;
    assert(s@.take(0) =~= Seq::<char>::empty());
    for i in 0..s.len()
        invariant
            q == score(s@.take(i as int)),
            settled(q as nat),
    {
        assert(s@.take(i + 1).drop_last() =~= s@.take(i as int));
        let w: u64 = char_weight(s[i]);
        proof {
            lemma_step(q as nat, w as nat);
        }
        let x: u64 = q + w;
        let u: u64 = if x < 0x100_0000 {
            1
        } else if x < 0x200_0000 {
            2
        } else if x < 0x400_0000 {
            4
        } else {
            8
        };
        q = to_nearest(x as u128, u as u128) as u64 * u;
    }
    assert(s@.take(s@.len() as int) =~= s@);
    q
}

proof fn lemma_spacing_bound(n: nat)
    ensures
        1 <= spacing(n),
        n >= 1 ==> spacing(n) <= n,
        n / spacing(n) < 0x100_0000,
    decreases n,
{
    if n >= 0x100_0000 {
        lemma_spacing_bound(n / 2);
        let s = spacing(n / 2);
        assert(n / (2 * s) == (n / 2) / s) by {
            vstd::arithmetic::div_mod::lemma_div_denominator(n as int, 2, s as int);
        }
    }
}

/// The integer `n` rounded to single precision.
fn to_single(n: u64) -> (r: u128)
    ensures
        r == single(n as nat),
        r <= 0x1_0000_0000_0000_0000_0,
        n > 0 ==> r > 0,
{
    let mut u: u128 = 1;
    let mut rest: u64 = n;
    while rest >= 0x100_0000
        invariant
            u >= 1,
            spacing(n as nat) == u * spacing(rest as nat),
            rest == (n as nat) / (u as nat),
            u * rest <= n,
        decreases rest,
    {
        proof {
            vstd::arithmetic::div_mod::lemma_div_denominator(n as int, u as int, 2);
            assert(u * spacing(rest as nat) == (u * 2) * spacing(rest as nat / 2))
                by (nonlinear_arith)
                requires
                    spacing(rest as nat) == 2 * spacing(rest as nat / 2),
            ;
            assert(u * 2 * (rest / 2) <= u * rest) by (nonlinear_arith)
                requires
                    u >= 1,
            ;
            assert(u <= n) by (nonlinear_arith)
                requires
                    u * rest <= n,
                    rest >= 1,
                    u >= 0,
            ;
        }
        u = u * 2;
        rest = rest / 2;
    }
    proof {
        assert(spacing(n as nat) == u) by (nonlinear_arith)
            requires
                spacing(n as nat) == u * spacing(rest as nat),
                spacing(rest as nat) == 1,
        ;
        lemma_spacing_bound(n as nat);
    }
    let m: u128 = to_nearest(n as u128, u);
    proof {
        assert((n as nat) / (u as nat) < 0x100_0000);
        assert(m <= 0x100_0000);
        let (x, y, z) = (n as int, u as int, m as int);
        assert(z * y <= 2 * x + 1) by (nonlinear_arith)
            requires
                z <= x / y + 1,
                1 <= y <= x + 1,
                0 <= x,
        ;
        if n > 0 {
            assert(z * y > 0) by (nonlinear_arith)
                requires
                    z >= x / y,
                    1 <= y <= x,
            ;
        }
    }
    m * u
}

/// A positive number in single precision, or zero.
struct Float {
    exp: i128,
    sig: u128,
}

spec fn float_of(f: Float) -> Single {
    Single { exp: f.exp as int, sig: f.sig as nat }
}

/// `n / d` in single precision.
fn divide(n: u128, d: u128) -> (r: Float)
    requires
        0 < d <= 0x1_0000_0000_0000_0000_0,
        n <= 0x400_0000,
    ensures
        float_of(r) == scaled(n as nat, d as nat, 0),
{
    if n == 0 {
        return Float { exp: 0, sig: 0 };
    }
    let mut x: u128 = n;
    let mut shift: i128 = 0;
    while x < d * 0x80_0000
        invariant
            0 < d <= 0x1_0000_0000_0000_0000_0,
            0 < x,
            x < d * 0x100_0000 || x <= 0x400_0000,
            0 <= shift < x,
            scaled(x as nat, d as nat, shift as nat) == scaled(n as nat, d as nat, 0),
        decreases d * 0x100_0000 - x,
    {
        x = x * 2;
        shift = shift + 1;
    }
    let m: u128 = to_nearest(x, d);
    if m == 0x100_0000 {
        Float { exp: 1 - shift, sig: 0x80_0000 }
    } else {
        Float { exp: -shift, sig: m }
    }
}

fn not_less(a: &Float, b: &Float) -> (r: bool)
    ensures
        r == at_least(float_of(*a), float_of(*b)),
{
    b.sig == 0 || (a.sig != 0 && (a.exp > b.exp || (a.exp == b.exp && a.sig >= b.sig)))
}

/// The share of a text that is printable.
fn printable_ratio(s: &[char]) -> (r: Float)
    ensures
        float_of(r) == printable_share(s@),
{
    if s.len() == 0 {
        return Float { exp: 0, sig: 0 };
    }
    let total: u128 = to_single(s.len() as u64);
    divide(score_of(s) as u128, total)
}

/// Try both byte orders and return the one that looks more like real text.
pub fn decode_utf16_best_effort(b: &[u8]) -> (r: String)
    ensures
        r@ == best_reading(b@),
{
    if b.len() < 2 {
        return String::new();
    }
    let le: String = decode_utf16le(b);
    let be: String = decode_utf16be(b);
    let le_chars: Vec<char> = strs::chars_of(le.as_str());
    let be_chars: Vec<char> = strs::chars_of(be.as_str());
    if not_less(&printable_ratio(&le_chars), &printable_ratio(&be_chars)) {
        le
    } else {
        be
    }
}

/// The UTF-16 units of a text.
pub open spec fn encode16(s: Seq<char>) -> Seq<u16>
    decreases s.len(),
{
    if s.len() == 0 {
        Seq::empty()
    } else {
        let c = s[0] as u32 as int;
        let head = if c < 0x10000 {
            seq![c as u16]
        } else {
            seq![
                (0xd800 + (c - 0x10000) / 0x400) as u16,
                (0xdc00 + (c - 0x10000) % 0x400) as u16,
            ]
        };
        head + encode16(s.skip(1))
    }
}

/// The bytes of units, the low one first.
pub open spec fn bytes_le(u: Seq<u16>) -> Seq<u8> {
    Seq::new(
        2 * u.len(),
        |i: int|
            if i % 2 == 0 {
                (u[i / 2] % 256) as u8
            } else {
                (u[i / 2] / 256) as u8
            },
    )
}

/// The bytes of units, the high one first.
pub open spec fn bytes_be(u: Seq<u16>) -> Seq<u8> {
    Seq::new(
        2 * u.len(),
        |i: int|
            if i % 2 == 0 {
                (u[i / 2] / 256) as u8
            } else {
                (u[i / 2] % 256) as u8
            },
    )
}

proof fn lemma_decode16(s: Seq<char>)
    ensures
        decode16(encode16(s)) == s,
    decreases s.len(),
{
    if s.len() > 0 {
        let c = s[0] as u32 as int;
        let tail = encode16(s.skip(1));
        let u = encode16(s);
        lemma_decode16(s.skip(1));
        vstd::utf8::char_is_scalar(s[0]);
        if c < 0x10000 {
            assert(u =~= seq![c as u16] + tail);
            assert(u[0] == c as u16);
            vstd::utf8::char_u32_cast(s[0], u[0] as u32);
            assert(u[0] as char == s[0]);
            assert(u.skip(1) =~= tail);
            assert(!high_surrogate(u[0]) && !low_surrogate(u[0]));
        } else {
            let (h, l) = ((c - 0x10000) / 0x400, (c - 0x10000) % 0x400);
            assert(0 <= h < 0x400 && 0 <= l < 0x400 && h * 0x400 + l == c - 0x10000);
            assert(u =~= seq![(0xd800 + h) as u16, (0xdc00 + l) as u16] + tail);
            assert(u[0] == 0xd800 + h && u[1] == 0xdc00 + l);
            assert(u.skip(2) =~= tail);
            vstd::utf8::char_u32_cast(s[0], c as u32);
            assert(pair_char(u[0], u[1]) == s[0]);
        }
        assert(decode16(u) == seq![s[0]] + decode16(tail));
        assert(s =~= seq![s[0]] + s.skip(1));
    }
}

/// Decoding the UTF-16 of any text, in the byte order it was written in, gives
/// the text back.
pub proof fn law_utf16_reads_back(s: Seq<char>)
    ensures
        decode16(units_le(bytes_le(encode16(s)))) == s,
        decode16(units_be(bytes_be(encode16(s)))) == s,
{
    let u = encode16(s);
    lemma_decode16(s);
    let (le, be) = (bytes_le(u), bytes_be(u));
    assert forall|i: int| 0 <= i < u.len() implies units_le(le)[i] == #[trigger] u[i]
        && units_be(be)[i] == u[i] by {
        assert((2 * i) % 2 == 0 && (2 * i) / 2 == i);
        assert((2 * i + 1) % 2 == 1 && (2 * i + 1) / 2 == i);
        assert(le[2 * i] == u[i] % 256 && le[2 * i + 1] == u[i] / 256);
        assert(be[2 * i] == u[i] / 256 && be[2 * i + 1] == u[i] % 256);
        assert(256 * (u[i] / 256) + u[i] % 256 == u[i]);
    }
    assert(units_le(le) =~= u);
    assert(units_be(be) =~= u);
}

/// A text of visible ASCII characters and blanks.
pub open spec fn plain(s: Seq<char>) -> bool {
    forall|i: int| 0 <= i < s.len() ==> chars::graphic(#[trigger] s[i]) || chars::blank(s[i])
}

/// Every character has the same weight.
spec fn uniform(s: Seq<char>, w: nat) -> bool {
    forall|i: int| 0 <= i < s.len() ==> weight(#[trigger] s[i]) == w
}

/// How many characters of a text are counted before the sum stops growing.
spec fn counted(n: nat) -> nat {
    if n <= 0x100_0000 {
        n
    } else {
        0x100_0000
    }
}

proof fn lemma_uniform_score(s: Seq<char>, w: nat)
    requires
        w == 1 || w == 4,
        uniform(s, w),
    ensures
        score(s) == w * counted(s.len()),
    decreases s.len(),
{
    if s.len() > 0 {
        let init = s.drop_last();
        assert(weight(s[s.len() - 1]) == w);
        assert forall|i: int| 0 <= i < init.len() implies weight(#[trigger] init[i]) == w by {
            assert(init[i] == s[i]);
        }
        lemma_uniform_score(init, w);
        let q = w * counted(init.len());
        reveal_with_fuel(spacing, 5);
        let c = counted(init.len());
        let x = q + w;
        if w == 1 {
            assert(q == c);
            if x < 0x100_0000 {
                assert(spacing(x) == 1);
                assert(nearest(x, 1) == x);
                assert(single(x) == x * 1);
            } else {
                assert(x == 0x100_0000 || x == 0x100_0001);
                assert(spacing(x) == 2);
                assert(nearest(x, 2) == 0x80_0000);
                assert(single(x) == 0x80_0000 * 2);
            }
        } else {
            assert(q == 4 * c);
            if x < 0x100_0000 {
                assert(spacing(x) == 1);
                assert(nearest(x, 1) == x);
                assert(single(x) == x * 1);
            } else if x < 0x200_0000 {
                assert(spacing(x) == 2);
                assert(x % 2 == 0 && nearest(x, 2) == x / 2);
                assert(single(x) == (x / 2) * 2);
                assert(single(x) == x);
            } else if x < 0x400_0000 {
                assert(spacing(x) == 4);
                assert(x % 4 == 0 && nearest(x, 4) == x / 4);
                assert(single(x) == (x / 4) * 4);
                assert(single(x) == x);
            } else {
                assert(x == 0x400_0000 || x == 0x400_0004);
                assert(spacing(x) == 8);
                assert(x / 8 == 0x80_0000 && (x % 8 == 0 || x % 8 == 4));
                assert((x / 8) % 2 == 0);
                assert(nearest(x, 8) == 0x80_0000);
                assert(single(x) == 0x80_0000 * 8);
            }
        }
        assert(s.len() == init.len() + 1);
        assert(counted(s.len()) == c + 1 || counted(s.len()) == c);
        if w == 1 {
            assert(single(x) == counted(s.len()));
        } else {
            if x < 0x400_0000 {
                assert(single(x) == x);
                assert(counted(s.len()) == c + 1);
            } else {
                assert(counted(s.len()) == 0x100_0000);
            }
            assert(single(x) == 4 * counted(s.len()));
        }
    }
}

/// The exponent takes in the shift, the significand does not.
proof fn lemma_scaled_shift(n: nat, d: nat, shift: nat)
    requires
        n > 0,
        d > 0,
    ensures
        scaled(n, d, shift).sig == scaled(n, d, 0).sig,
        scaled(n, d, shift).exp == scaled(n, d, 0).exp - shift,
        scaled(n, d, shift).sig > 0,
    decreases
            if n < d * 0x80_0000 {
                d * 0x80_0000 - n
            } else {
                0
            },
{
    if n >= d * 0x80_0000 {
        assert(nearest(n, d) > 0) by {
            assert(n / d >= 1) by (nonlinear_arith)
                requires
                    n >= d,
                    d > 0,
            ;
        }
    } else {
        lemma_scaled_shift(2 * n, d, shift + 1);
        lemma_scaled_shift(2 * n, d, 1);
    }
}

proof fn lemma_single_bounds(n: nat)
    requires
        n >= 1,
    ensures
        single(n) >= 1,
        4 * single(n) >= n,
{
    lemma_spacing_bound(n);
    let u = spacing(n);
    assert(n / u >= 1) by (nonlinear_arith)
        requires
            1 <= u <= n,
    ;
    let m = nearest(n, u);
    assert(m >= n / u);
    assert(m * u >= 1 && 4 * (m * u) >= n) by (nonlinear_arith)
        requires
            m >= n / u,
            n / u >= 1,
            u >= 1,
    ;
}

/// Four times the score makes a larger share, by a factor of four.
proof fn lemma_shares(a: Seq<char>, b: Seq<char>)
    requires
        a.len() == b.len(),
        a.len() > 0,
        uniform(a, 4),
        uniform(b, 1),
    ensures
        at_least(printable_share(a), printable_share(b)),
        !at_least(printable_share(b), printable_share(a)),
{
    lemma_uniform_score(a, 4);
    lemma_uniform_score(b, 1);
    lemma_single_bounds(a.len());
    let d = single(a.len());
    let x = counted(a.len());
    assert(2 * x < d * 0x80_0000);
    assert(scaled(x, d, 0) == scaled(2 * x, d, 1));
    assert(scaled(2 * x, d, 1) == scaled(4 * x, d, 2));
    lemma_scaled_shift(4 * x, d, 2);
}

/// Plain text is read in the byte order it was written in.
pub proof fn law_plain_text_is_recognised(s: Seq<char>)
    requires
        plain(s),
    ensures
        best_reading(bytes_le(encode16(s))) == s,
        best_reading(bytes_be(encode16(s))) == s,
{
    law_utf16_reads_back(s);
    if s.len() > 0 {
        lemma_plain_units(s);
        let u = encode16(s);
        let swapped = Seq::new(s.len(), |i: int| (256 * (s[i] as u32)) as char);
        let (le, be) = (bytes_le(u), bytes_be(u));
        lemma_swapped(s);
        assert forall|i: int| 0 <= i < s.len() implies weight(#[trigger] s[i]) == 4 by {
            assert(chars::graphic(s[i]) || chars::blank(s[i]));
        }
        assert forall|i: int| 0 <= i < swapped.len() implies weight(#[trigger] swapped[i]) == 1 by {
            assert(chars::graphic(s[i]) || chars::blank(s[i]));
        }
        lemma_shares(s, swapped);
    } else {
        assert(encode16(s) =~= Seq::<u16>::empty());
        assert(s =~= Seq::<char>::empty());
    }
}

proof fn lemma_plain_units(s: Seq<char>)
    requires
        plain(s),
    ensures
        encode16(s).len() == s.len(),
        forall|i: int| 0 <= i < s.len() ==> #[trigger] encode16(s)[i] == s[i] as u32,
    decreases s.len(),
{
    if s.len() > 0 {
        let rest = s.skip(1);
        assert(chars::graphic(s[0]) || chars::blank(s[0]));
        assert forall|i: int| 0 <= i < rest.len() implies chars::graphic(#[trigger] rest[i])
            || chars::blank(rest[i]) by {
            assert(rest[i] == s[i + 1]);
        }
        lemma_plain_units(rest);
        let u = encode16(s);
        assert(u =~= seq![(s[0] as u32) as u16] + encode16(rest));
        assert forall|i: int| 0 <= i < s.len() implies #[trigger] u[i] == s[i] as u32 by {
            if i > 0 {
                assert(u[i] == encode16(rest)[i - 1]);
                assert(rest[i - 1] == s[i]);
            }
        }
    }
}

/// Plain text in the other byte order reads as as many characters, none of
/// them ASCII.
proof fn lemma_swapped(s: Seq<char>)
    requires
        plain(s),
    ensures
        decode16(units_be(bytes_le(encode16(s)))) == Seq::new(
            s.len(),
            |i: int| (256 * (s[i] as u32)) as char,
        ),
        decode16(units_le(bytes_be(encode16(s)))) == Seq::new(
            s.len(),
            |i: int| (256 * (s[i] as u32)) as char,
        ),
{
    lemma_plain_units(s);
    let u = encode16(s);
    let v = Seq::new(s.len(), |i: int| (256 * (s[i] as u32)) as u16);
    let (le, be) = (bytes_le(u), bytes_be(u));
    assert forall|i: int| 0 <= i < s.len() implies #[trigger] v[i] == units_be(le)[i] && v[i]
        == units_le(be)[i] by {
        assert(chars::graphic(s[i]) || chars::blank(s[i]));
        assert(u[i] == s[i] as u32);
        assert((2 * i) % 2 == 0 && (2 * i) / 2 == i);
        assert((2 * i + 1) % 2 == 1 && (2 * i + 1) / 2 == i);
        assert(le[2 * i] == u[i] && le[2 * i + 1] == 0);
        assert(be[2 * i] == 0 && be[2 * i + 1] == u[i]);
    }
    assert(units_be(le) =~= v);
    assert(units_le(be) =~= v);
    assert forall|i: int| 0 <= i < v.len() implies !high_surrogate(#[trigger] v[i])
        && !low_surrogate(v[i]) by {
        assert(chars::graphic(s[i]) || chars::blank(s[i]));
    }
    lemma_decode_simple(v);
    assert(decode16(v) =~= Seq::new(s.len(), |i: int| (256 * (s[i] as u32)) as char)) by {
        assert forall|i: int| 0 <= i < s.len() implies #[trigger] decode16(v)[i] == (256 * (
        s[i] as u32)) as char by {
            assert(chars::graphic(s[i]) || chars::blank(s[i]));
            assert(decode16(v)[i] == v[i] as char);
        }
    }
}

proof fn lemma_decode_simple(v: Seq<u16>)
    requires
        forall|i: int|
            0 <= i < v.len() ==> !high_surrogate(#[trigger] v[i]) && !low_surrogate(v[i]),
    ensures
        decode16(v) == Seq::new(v.len(), |i: int| v[i] as char),
    decreases v.len(),
{
    if v.len() > 0 {
        let rest = v.skip(1);
        assert forall|i: int| 0 <= i < rest.len() implies !high_surrogate(#[trigger] rest[i])
            && !low_surrogate(rest[i]) by {
            assert(rest[i] == v[i + 1]);
        }
        lemma_decode_simple(rest);
        assert(!high_surrogate(v[0]) && !low_surrogate(v[0]));
    }
    assert(decode16(v) =~= Seq::new(v.len(), |i: int| v[i] as char));
}

} // verus!
