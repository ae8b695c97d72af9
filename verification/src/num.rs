//! Numerals: reading and writing unsigned numbers, and numbers held in bytes.

use vstd::prelude::*;
use vstd::slice::slice_subrange;

verus! {

/// The value of `c` as a digit in the given radix (up to sixteen).
pub open spec fn digit_of(c: char, radix: nat) -> Option<nat> {
    let d: nat = if '0' <= c <= '9' {
        (c as u32 - '0' as u32) as nat
    } else if 'a' <= c <= 'f' {
        (c as u32 - 'a' as u32 + 10) as nat
    } else if 'A' <= c <= 'F' {
        (c as u32 - 'A' as u32 + 10) as nat
    } else {
        16
    };
    if d < radix && d < 16 {
        Some(d)
    } else {
        None
    }
}

pub open spec fn all_digits(s: Seq<char>, radix: nat) -> bool {
    forall|i: int| 0 <= i < s.len() ==> #[trigger] digit_of(s[i], radix) is Some
}

/// The number that the digits `s` write.
pub open spec fn value(s: Seq<char>, radix: nat) -> nat
    decreases s.len(),
{
    if s.len() == 0 {
        0
    } else {
        value(s.drop_last(), radix) * radix + digit_of(s.last(), radix)->0
    }
}

/// The digits of an unsigned numeral, which one plus sign may precede.
pub open spec fn unsigned(s: Seq<char>) -> Seq<char> {
    if s.len() > 0 && s[0] == '+' {
        s.skip(1)
    } else {
        s
    }
}

/// The number that `s` writes: at least one digit, nothing but digits after
/// an optional plus sign, and no more than `max`.
pub open spec fn read(s: Seq<char>, radix: nat, max: nat) -> Option<nat> {
    let d = unsigned(s);
    if d.len() > 0 && all_digits(d, radix) && value(d, radix) <= max {
        Some(value(d, radix))
    } else {
        None
    }
}

/// The digit that writes `d`, which is less than sixteen.
pub open spec fn digit_char(d: nat) -> char {
    if d < 10 {
        ('0' as u32 + d) as char
    } else {
        ('a' as u32 + d - 10) as char
    }
}

/// The numeral of `n`, without leading zeros.
pub open spec fn numeral(n: nat, radix: nat) -> Seq<char>
    decreases n,
{
    if radix < 2 || n < radix {
        seq![digit_char(n)]
    } else {
        proof {
            assert(n / radix < n) by (nonlinear_arith)
                requires
                    n >= radix >= 2,
            ;
        }
        numeral(n / radix, radix).push(digit_char(n % radix))
    }
}

/// `s` with zeros in front, up to the given width.
pub open spec fn padded(s: Seq<char>, width: nat) -> Seq<char> {
    if s.len() < width {
        Seq::new((width - s.len()) as nat, |i: int| '0') + s
    } else {
        s
    }
}

/// The two hexadecimal digits of a byte.
pub open spec fn hex2(b: u8) -> Seq<char> {
    seq![digit_char((b / 16) as nat), digit_char((b % 16) as nat)]
}

/// The number that the bytes `s` hold, the most significant first.
pub open spec fn big_endian(s: Seq<u8>) -> nat
    decreases s.len(),
{
    if s.len() == 0 {
        0
    } else {
        big_endian(s.drop_last()) * 256 + s.last() as nat
    }
}

proof fn lemma_value_grows(s: Seq<char>, i: int, radix: nat)
    requires
        0 <= i <= s.len(),
        radix >= 1,
    ensures
        value(s.take(i), radix) <= value(s, radix),
    decreases s.len() - i,
{
    if i == s.len() {
        assert(s.take(i) =~= s);
    } else {
        lemma_value_grows(s, i + 1, radix);
        let t = s.take(i + 1);
        assert(t.drop_last() =~= s.take(i));
        assert(value(t, radix) >= value(s.take(i), radix)) by (nonlinear_arith)
            requires
                value(t, radix) == value(s.take(i), radix) * radix + digit_of(t.last(), radix)->0,
                radix >= 1,
        ;
    }
}

fn digit_value(c: char, radix: u32) -> (r: Option<u32>)
    ensures
        r matches Some(d) ==> digit_of(c, radix as nat) == Some(d as nat) && d < 16,
        r is None ==> digit_of(c, radix as nat) is None,
{
    let d: u32 = if '0' <= c && c <= '9' {
        c as u32 - '0' as u32
    } else if 'a' <= c && c <= 'f' {
        c as u32 - 'a' as u32 + 10
    } else if 'A' <= c && c <= 'F' {
        c as u32 - 'A' as u32 + 10
    } else {
        16
    };
    if d < radix && d < 16 {
        Some(d)
    } else {
        None
    }
}

/// Read an unsigned numeral of at most `max`.
pub fn parse(s: &[char], radix: u32, max: u64) -> (r: Option<u64>)
    requires
        2 <= radix <= 16,
    ensures
        r matches Some(n) ==> read(s@, radix as nat, max as nat) == Some(n as nat),
        r is None ==> read(s@, radix as nat, max as nat) is None,
{
    let n: usize = s.len();
    let d: &[char] = if n > 0 && s[0] == '+' {
        slice_subrange(s, 1, n)
    } else {
        s
    };
    assert(d@ == unsigned(s@));
    if d.len() == 0 {
        return None;
    }
    let mut acc: u64 = 0;
    assert(d@.take(0) =~= Seq::<char>::empty());
    for i in 0..d.len()
        invariant
            2 <= radix <= 16,
            d@ == unsigned(s@),
            acc <= max,
            acc == value(d@.take(i as int), radix as nat),
            forall|j: int| 0 <= j < i ==> #[trigger] digit_of(d@[j], radix as nat) is Some,
    {
        let ghost t = d@.take(i + 1);
        assert(t.drop_last() =~= d@.take(i as int));
        match digit_value(d[i], radix) {
            Some(v) => {
                assert(0 <= acc * radix + v <= 0xffff_ffff_ffff_ffff * 16 + 16) by (nonlinear_arith)
                    requires
                        0 <= acc <= 0xffff_ffff_ffff_ffff,
                        2 <= radix <= 16,
                        v < 16,
                ;
                let next: u128 = acc as u128 * radix as u128 + v as u128;
                assert(next == value(t, radix as nat));
                if next > max as u128 {
                    proof {
                        lemma_value_grows(d@, i + 1, radix as nat);
                    }
                    return None;
                }
                acc = next as u64;
            },
            None => {
                return None;
            },
        }
    }
    assert(d@.take(d@.len() as int) =~= d@);
    Some(acc)
}

fn digit(d: u64) -> (c: char)
    requires
        d < 16,
    ensures
        c == digit_char(d as nat),
{
    if d < 10 {
        ('0' as u8 + d as u8) as char
    } else {
        ('a' as u8 + (d as u8 - 10)) as char
    }
}

/// Append the numeral of `n`.
pub fn push_numeral(out: &mut String, n: u64, radix: u64)
    requires
        2 <= radix <= 16,
    ensures
        final(out)@ == old(out)@ + numeral(n as nat, radix as nat),
    decreases n,
{
    if n >= radix {
        proof {
            assert(n / radix < n) by (nonlinear_arith)
                requires
                    n >= radix >= 2,
            ;
        }
        push_numeral(out, n / radix, radix);
    }
    let d: u64 = n % radix;
    proof {
        assert(d < radix) by (nonlinear_arith)
            requires
                d == n % radix,
                radix >= 2,
        ;
        if n < radix {
            vstd::arithmetic::div_mod::lemma_small_mod(n as nat, radix as nat);
        }
    }
    out.push(digit(d));
    assert(out@ =~= old(out)@ + numeral(n as nat, radix as nat));
}

/// The decimal numeral of `n`.
pub fn decimal(n: u64) -> (r: String)
    ensures
        r@ == numeral(n as nat, 10),
{
    let mut out: String = String::new();
    push_numeral(&mut out, n, 10);
    assert(out@ =~= numeral(n as nat, 10));
    out
}

/// Append the two hexadecimal digits of `b`.
pub fn push_hex2(out: &mut String, b: u8)
    ensures
        final(out)@ == old(out)@ + hex2(b),
{
    out.push(digit((b / 16) as u64));
    out.push(digit((b % 16) as u64));
    assert(out@ =~= old(out)@ + hex2(b));
}

proof fn lemma_digit_char(d: nat, radix: nat)
    requires
        d < radix <= 16,
    ensures
        digit_of(digit_char(d), radix) == Some(d),
        digit_char(d) != '+',
        '0' <= digit_char(d) <= '9' || 'a' <= digit_char(d) <= 'f',
{
}

/// A numeral holds digits and nothing else, and reads back as the number.
pub proof fn law_numeral_reads_back(n: nat, radix: nat, max: nat)
    requires
        2 <= radix <= 16,
        n <= max,
    ensures
        read(numeral(n, radix), radix, max) == Some(n),
        numeral(n, radix).len() > 0,
        all_digits(numeral(n, radix), radix),
        value(numeral(n, radix), radix) == n,
        forall|i: int|
            0 <= i < numeral(n, radix).len() ==> '0' <= #[trigger] numeral(n, radix)[i] <= '9'
                || 'a' <= numeral(n, radix)[i] <= 'f',
{
    lemma_numeral(n, radix);
    let s = numeral(n, radix);
    assert(digit_of(s[0], radix) is Some);
}

proof fn lemma_numeral(n: nat, radix: nat)
    requires
        2 <= radix <= 16,
    ensures
        numeral(n, radix).len() > 0,
        all_digits(numeral(n, radix), radix),
        value(numeral(n, radix), radix) == n,
        forall|i: int|
            0 <= i < numeral(n, radix).len() ==> '0' <= #[trigger] numeral(n, radix)[i] <= '9'
                || 'a' <= numeral(n, radix)[i] <= 'f',
    decreases n,
{
    let s = numeral(n, radix);
    if n < radix {
        lemma_digit_char(n, radix);
        assert(s.drop_last() =~= Seq::<char>::empty());
        assert(value(s.drop_last(), radix) == 0);
        assert(0 * radix == 0) by (nonlinear_arith);
    } else {
        let (q, m) = (n / radix, n % radix);
        assert(q < n && m < radix && n == q * radix + m) by (nonlinear_arith)
            requires
                n >= radix >= 2,
                q == n / radix,
                m == n % radix,
        ;
        lemma_numeral(q, radix);
        lemma_digit_char(m, radix);
        let t = numeral(q, radix);
        assert(s.drop_last() =~= t);
        assert forall|i: int| 0 <= i < s.len() implies #[trigger] digit_of(s[i], radix) is Some
            && ('0' <= s[i] <= '9' || 'a' <= s[i] <= 'f') by {
            if i < t.len() {
                assert(s[i] == t[i]);
                assert(digit_of(t[i], radix) is Some);
            }
        }
    }
}

} // verus!
