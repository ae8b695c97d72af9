//! What the operations on texts and numbers mean.

use vstd::prelude::*;

use crate::bytes;
use crate::chars;
use crate::num;
use crate::order;
use crate::strs;

verus! {

/// The classes of characters, by code point.
pub proof fn law_character_classes(c: char)
    ensures
        ({
            let n = c as u32;
            let upper = 0x41 <= n <= 0x5a;
            let lower = 0x61 <= n <= 0x7a;
            let digit = 0x30 <= n <= 0x39;
            &&& chars::digit(c) <==> digit
            &&& chars::lowercase(c) <==> lower
            &&& chars::uppercase(c) <==> upper
            &&& chars::alphabetic(c) <==> lower || upper
            &&& chars::alphanumeric(c) <==> lower || upper || digit
            &&& chars::graphic(c) <==> 0x21 <= n <= 0x7e
            &&& chars::blank(c) <==> n == 9 || n == 10 || n == 13 || n == 0x20
            &&& chars::control(c) <==> n <= 0x1f || 0x7f <= n <= 0x9f
            &&& chars::lowered(c) as u32 == if upper {
                n + 32
            } else {
                n as int
            }
            &&& chars::white(c) <==> (9 <= n <= 13 || n == 0x20 || n == 0x85 || n == 0xa0 || n
                == 0x1680 || 0x2000 <= n <= 0x200a || n == 0x2028 || n == 0x2029 || n == 0x202f
                || n == 0x205f || n == 0x3000)
        }),
{
}

/// A pattern stands at a position where each of its members does.
pub proof fn law_occurs_at<A>(s: Seq<A>, pat: Seq<A>, i: int)
    ensures
        strs::occurs_at(s, pat, i) <==> 0 <= i && i + pat.len() <= s.len() && forall|k: int|
            0 <= k < pat.len() ==> s[i + k] == #[trigger] pat[k],
{
    if 0 <= i && i + pat.len() <= s.len() {
        let t = s.subrange(i, i + pat.len());
        if t == pat {
            assert forall|k: int| 0 <= k < pat.len() implies s[i + k] == #[trigger] pat[k] by {
                assert(t[k] == s[i + k]);
            }
        }
        if forall|k: int| 0 <= k < pat.len() ==> s[i + k] == #[trigger] pat[k] {
            assert(t =~= pat);
        }
    }
}

/// A text starts with a pattern where it is the pattern and something more,
/// and ends with it likewise.
pub proof fn law_prefix_and_suffix<A>(s: Seq<A>, pat: Seq<A>)
    ensures
        strs::prefixed(s, pat) <==> pat.len() <= s.len() && s == pat + s.skip(pat.len() as int),
        strs::suffixed(s, pat) <==> pat.len() <= s.len() && s == s.take(s.len() - pat.len()) + pat,
{
    let n = pat.len() as int;
    if n <= s.len() {
        assert(s =~= s.subrange(0, n) + s.skip(n));
        assert(s =~= s.take(s.len() - n) + s.subrange(s.len() - n, s.len() as int));
        if s == pat + s.skip(n) {
            assert((pat + s.skip(n)).subrange(0, n) =~= pat);
        }
        if s == s.take(s.len() - n) + pat {
            assert((s.take(s.len() - n) + pat).subrange(s.len() - n, s.len() as int) =~= pat);
        }
    }
}

/// A text cut at a character is what stands before its first occurrence and
/// what stands after it.
pub proof fn law_cut<A>(s: Seq<A>, c: A)
    ensures
        strs::cut(s, c) is Some <==> s.contains(c),
        strs::cut(s, c) matches Some((a, b)) ==> s == a + seq![c] + b && !a.contains(c),
{
    strs::lemma_index_of(s, c);
    match strs::index_of(s, c) {
        Some(i) => {
            assert(s =~= s.take(i) + seq![c] + s.skip(i + 1));
            assert(!s.take(i).contains(c)) by {
                if s.take(i).contains(c) {
                    let j = choose|j: int| 0 <= j < i && s.take(i)[j] == c;
                    assert(s[j] == c);
                }
            }
        },
        None => {},
    }
}

/// There is one way to cut a text at the first of a character.
pub proof fn lemma_cut_is<A>(s: Seq<A>, c: A, a: Seq<A>, b: Seq<A>)
    requires
        s == a + seq![c] + b,
        !a.contains(c),
    ensures
        strs::cut(s, c) == Some((a, b)),
{
    let i = a.len() as int;
    assert forall|j: int| 0 <= j < i implies s[j] != c by {
        assert(a[j] == s[j]);
    }
    assert(s[i] == c);
    strs::lemma_cut_at(s, c, i);
    assert(s.take(i) =~= a);
    assert(s.skip(i + 1) =~= b);
}

/// The fields of a text, with the character between them, are the text; and
/// none holds the character.
pub proof fn law_fields<A>(s: Seq<A>, c: A)
    ensures
        strs::fields(s, c).len() > 0,
        strs::joined(strs::fields(s, c), seq![c]) == s,
        forall|i: int| 0 <= i < strs::fields(s, c).len() ==> !(#[trigger] strs::fields(s, c)[i]).contains(c),
    decreases s.len(),
{
    let pat = seq![c];
    strs::law_pieces_join(s, pat);
    strs::lemma_first_of(s, pat);
    match strs::first_of(s, pat) {
        Some(i) => {
            let rest = s.skip(i + 1);
            law_fields(rest, c);
            assert forall|k: int| 0 <= k < strs::fields(s, c).len() implies !(
            #[trigger] strs::fields(s, c)[k]).contains(c) by {
                if k == 0 {
                    let t = s.take(i);
                    if t.contains(c) {
                        let j = choose|j: int| 0 <= j < t.len() && t[j] == c;
                        assert(s.subrange(j, j + 1) =~= pat);
                        assert(strs::occurs_at(s, pat, j));
                    }
                } else {
                    assert(strs::fields(s, c)[k] == strs::fields(rest, c)[k - 1]);
                }
            }
        },
        None => {
            if s.contains(c) {
                let j = choose|j: int| 0 <= j < s.len() && s[j] == c;
                assert(s.subrange(j, j + 1) =~= pat);
                assert(strs::occurs_at(s, pat, j));
            }
        },
    }
}

/// There is one way to split a text into fields.
pub proof fn lemma_fields_are<A>(s: Seq<A>, c: A, parts: Seq<Seq<A>>)
    requires
        parts.len() > 0,
        strs::joined(parts, seq![c]) == s,
        forall|i: int| 0 <= i < parts.len() ==> !(#[trigger] parts[i]).contains(c),
    ensures
        strs::fields(s, c) == parts,
    decreases parts.len(),
{
    let pat = seq![c];
    strs::lemma_first_of(s, pat);
    let a = parts[0];
    if parts.len() == 1 {
        if strs::has(s, pat) {
            let j = choose|j: int| strs::occurs_at(s, pat, j);
            assert(s.subrange(j, j + 1)[0] == s[j]);
            assert(a.contains(c));
        }
        assert(strs::fields(s, c) =~= parts);
    } else {
        let tail = parts.skip(1);
        let rest = strs::joined(tail, pat);
        let i = a.len() as int;
        assert forall|j: int| 0 <= j < tail.len() implies !(#[trigger] tail[j]).contains(c) by {
            assert(tail[j] == parts[j + 1]);
        }
        lemma_fields_are(rest, c, tail);
        assert(s.subrange(i, i + 1) =~= pat);
        assert forall|j: int| 0 <= j < i implies !strs::occurs_at(s, pat, j) by {
            if strs::occurs_at(s, pat, j) {
                assert(s.subrange(j, j + 1)[0] == s[j]);
                assert(a[j] == c);
            }
        }
        strs::lemma_first_at(s, pat, i);
        assert(s.take(i) =~= a);
        assert(s.skip(i + 1) =~= rest);
        assert(strs::fields(s, c) =~= parts);
    }
}

proof fn lemma_ltrim(s: Seq<char>) -> (a: int)
    ensures
        0 <= a <= s.len(),
        strs::ltrim(s) == s.skip(a),
        forall|i: int| 0 <= i < a ==> chars::white(#[trigger] s[i]),
        a < s.len() ==> !chars::white(s[a]),
    decreases s.len(),
{
    if s.len() > 0 && chars::white(s[0]) {
        let b = lemma_ltrim(s.skip(1));
        assert(s.skip(1).skip(b) =~= s.skip(b + 1));
        assert forall|i: int| 0 <= i < b + 1 implies chars::white(#[trigger] s[i]) by {
            if i > 0 {
                assert(s.skip(1)[i - 1] == s[i]);
            }
        }
        b + 1
    } else {
        assert(s.skip(0) =~= s);
        0
    }
}

proof fn lemma_rtrim(s: Seq<char>) -> (b: int)
    ensures
        0 <= b <= s.len(),
        strs::rtrim(s) == s.take(b),
        forall|i: int| b <= i < s.len() ==> chars::white(#[trigger] s[i]),
        b > 0 ==> !chars::white(s[b - 1]),
    decreases s.len(),
{
    if s.len() > 0 && chars::white(s.last()) {
        let t = s.drop_last();
        let b = lemma_rtrim(t);
        assert(t.take(b) =~= s.take(b));
        assert forall|i: int| b <= i < s.len() implies chars::white(#[trigger] s[i]) by {
            if i < t.len() {
                assert(t[i] == s[i]);
            }
        }
        b
    } else {
        assert(s.take(s.len() as int) =~= s);
        s.len() as int
    }
}

/// `t` is what stands in `s` between the white space at its ends.
pub open spec fn is_core(s: Seq<char>, t: Seq<char>, a: int, b: int) -> bool {
    &&& 0 <= a <= b <= s.len()
    &&& t == s.subrange(a, b)
    &&& forall|i: int| 0 <= i < a ==> chars::white(#[trigger] s[i])
    &&& forall|i: int| b <= i < s.len() ==> chars::white(#[trigger] s[i])
    &&& t.len() > 0 ==> !chars::white(t[0]) && !chars::white(t.last())
}

/// Trimming takes the white space at both ends, all of it and nothing else.
pub proof fn law_trimmed(s: Seq<char>) -> (r: (int, int))
    ensures
        is_core(s, strs::trimmed(s), r.0, r.1),
{
    let a = lemma_ltrim(s);
    let t = s.skip(a);
    let n = lemma_rtrim(t);
    let b = a + n;
    assert(t.take(n) =~= s.subrange(a, b));
    assert forall|i: int| b <= i < s.len() implies chars::white(#[trigger] s[i]) by {
        assert(t[i - a] == s[i]);
    }
    if n > 0 {
        assert(t[n - 1] == s[b - 1]);
    }
    (a, b)
}

/// There is one way to trim a text.
pub proof fn lemma_trimmed_is(s: Seq<char>, t: Seq<char>, a: int, b: int)
    requires
        is_core(s, t, a, b),
    ensures
        strs::trimmed(s) == t,
{
    let (c, d) = law_trimmed(s);
    let u = strs::trimmed(s);
    if t.len() > 0 {
        assert(t[0] == s[a] && t.last() == s[b - 1]);
    }
    if u.len() > 0 {
        assert(u[0] == s[c] && u.last() == s[d - 1]);
    }
    if t.len() > 0 || u.len() > 0 {
        assert(a == c && b == d);
    }
    assert(t =~= u);
}

/// What is left of a text without the characters it starts with.
pub proof fn law_ltrim_set(s: Seq<char>, set: Seq<char>) -> (a: int)
    ensures
        0 <= a <= s.len(),
        strs::ltrim_set(s, set) == s.skip(a),
        forall|i: int| 0 <= i < a ==> set.contains(#[trigger] s[i]),
        a < s.len() ==> !set.contains(s[a]),
    decreases s.len(),
{
    if s.len() > 0 && set.contains(s[0]) {
        let b = law_ltrim_set(s.skip(1), set);
        assert(s.skip(1).skip(b) =~= s.skip(b + 1));
        assert forall|i: int| 0 <= i < b + 1 implies set.contains(#[trigger] s[i]) by {
            if i > 0 {
                assert(s.skip(1)[i - 1] == s[i]);
            }
        }
        b + 1
    } else {
        assert(s.skip(0) =~= s);
        0
    }
}

/// One tag goes, and no more.
pub proof fn law_untagged(tag: char, s: Seq<char>, set: Seq<char>)
    ensures
        set.contains(tag) ==> strs::untagged(seq![tag] + s, set) == s,
        !set.contains(tag) ==> strs::untagged(seq![tag] + s, set) == seq![tag] + s,
        strs::untagged(Seq::<char>::empty(), set) == Seq::<char>::empty(),
{
    assert((seq![tag] + s).skip(1) =~= s);
}

/// The value of a digit, by what is written.
pub proof fn law_digits(c: char, radix: nat)
    requires
        radix <= 16,
    ensures
        ({
            let n = c as u32 as int;
            let d = if 0x30 <= n <= 0x39 {
                n - 0x30
            } else if 0x61 <= n <= 0x66 {
                n - 0x57
            } else if 0x41 <= n <= 0x46 {
                n - 0x37
            } else {
                16
            };
            num::digit_of(c, radix) == if d < radix {
                Some(d as nat)
            } else {
                None
            }
        }),
{
}

proof fn lemma_zero_front(s: Seq<char>, radix: nat)
    requires
        2 <= radix <= 16,
        num::all_digits(s, radix),
    ensures
        num::value(seq!['0'] + s, radix) == num::value(s, radix),
    decreases s.len(),
{
    let t = seq!['0'] + s;
    if s.len() == 0 {
        assert(t.drop_last() =~= Seq::<char>::empty());
        reveal_with_fuel(num::value, 2);
        assert(0 * radix == 0);
    } else {
        let init = s.drop_last();
        assert forall|i: int| 0 <= i < init.len() implies #[trigger] num::digit_of(
            init[i],
            radix,
        ) is Some by {
            assert(init[i] == s[i]);
        }
        lemma_zero_front(init, radix);
        assert(t.drop_last() =~= seq!['0'] + init);
        assert(t.last() == s.last());
    }
}

/// A numeral reads as its number: one more digit counts as it should, a zero
/// in front changes nothing, one plus sign may stand in front, and nothing
/// but digits is read.
pub proof fn law_numbers_read(s: Seq<char>, c: char, radix: nat, max: nat)
    requires
        2 <= radix <= 16,
    ensures
        num::digit_of(c, radix) matches Some(d) ==> num::read(seq![c], radix, max) == if d <= max {
            Some(d)
        } else {
            None
        },
        s.len() > 0 && num::all_digits(s, radix) && num::digit_of(c, radix) is Some ==> num::read(
            s.push(c),
            radix,
            max,
        ) == ({
            let n = num::value(s, radix) * radix + num::digit_of(c, radix)->0;
            if n <= max {
                Some(n)
            } else {
                None
            }
        }),
        s.len() > 0 && num::all_digits(s, radix) ==> num::read(s, radix, num::value(s, radix))
            == Some(num::value(s, radix)),
        s.len() > 0 && num::all_digits(s, radix) ==> num::read(seq!['0'] + s, radix, max)
            == num::read(s, radix, max),
        s.len() > 0 && s[0] != '+' ==> num::read(seq!['+'] + s, radix, max) == num::read(
            s,
            radix,
            max,
        ),
        num::read(Seq::<char>::empty(), radix, max) is None,
        num::read(seq!['+'], radix, max) is None,
        num::read(s, radix, max) is Some ==> s.len() > 0 && num::all_digits(
            if s[0] == '+' {
                s.skip(1)
            } else {
                s
            },
            radix,
        ),
{
    let one = seq![c];
    assert(one.drop_last() =~= Seq::<char>::empty());
    reveal_with_fuel(num::value, 2);
    assert(0 * radix == 0);
    let more = s.push(c);
    assert(more.drop_last() =~= s);
    if num::digit_of(c, radix) is Some {
        assert(num::all_digits(one, radix));
        assert(c != '+');
        if num::all_digits(s, radix) {
            assert forall|i: int| 0 <= i < more.len() implies #[trigger] num::digit_of(
                more[i],
                radix,
            ) is Some by {
                if i < s.len() {
                    assert(more[i] == s[i]);
                }
            }
            if s.len() > 0 {
                assert(num::digit_of(s[0], radix) is Some);
                assert(more[0] == s[0]);
            }
        }
    }
    if s.len() > 0 && num::all_digits(s, radix) {
        assert(num::digit_of(s[0], radix) is Some);
        let t = seq!['0'] + s;
        lemma_zero_front(s, radix);
        assert forall|i: int| 0 <= i < t.len() implies #[trigger] num::digit_of(
            t[i],
            radix,
        ) is Some by {
            if i > 0 {
                assert(t[i] == s[i - 1]);
            }
        }
        assert(num::unsigned(t) == t);
    }
    assert((seq!['+'] + s).skip(1) =~= s);
    assert(seq!['+'].skip(1) =~= Seq::<char>::empty());
}

/// Bytes hold a number with the most significant byte first.
pub proof fn law_big_endian(b: Seq<u8>)
    ensures
        b.len() == 2 ==> num::big_endian(b) == b[0] * 0x100 + b[1],
        b.len() == 4 ==> num::big_endian(b) == b[0] * 0x100_0000 + b[1] * 0x1_0000 + b[2] * 0x100
            + b[3],
        b.len() == 8 ==> num::big_endian(b) == b[0] * 0x100_0000_0000_0000 + b[1]
            * 0x1_0000_0000_0000 + b[2] * 0x100_0000_0000 + b[3] * 0x1_0000_0000 + b[4]
            * 0x100_0000 + b[5] * 0x1_0000 + b[6] * 0x100 + b[7],
{
    reveal_with_fuel(num::big_endian, 9);
}

/// A byte in hexadecimal reads back as the byte.
pub proof fn law_hex_reads_back(b: u8)
    ensures
        num::hex2(b).len() == 2,
        num::digit_of(num::hex2(b)[0], 16) == Some((b / 16) as nat),
        num::digit_of(num::hex2(b)[1], 16) == Some((b % 16) as nat),
        forall|i: int|
            0 <= i < 2 ==> '0' <= #[trigger] num::hex2(b)[i] <= '9' || 'a' <= num::hex2(b)[i]
                <= 'f',
{
}

/// One text stands before another where their bytes first differ in its
/// favour, or where it is a start of the other.
pub open spec fn bytes_before(a: Seq<u8>, b: Seq<u8>, k: int) -> bool {
    &&& 0 <= k <= a.len()
    &&& k < b.len()
    &&& a.take(k) == b.take(k)
    &&& k == a.len() || a[k] < b[k]
}

proof fn lemma_lex(a: Seq<u8>, b: Seq<u8>)
    ensures
        order::lex(a, b) <==> exists|k: int| bytes_before(a, b, k),
    decreases a.len(),
{
    if a.len() == 0 {
        if b.len() > 0 {
            assert(a.take(0) =~= b.take(0));
            assert(bytes_before(a, b, 0));
        }
    } else if b.len() > 0 {
        let (c, d) = (a.skip(1), b.skip(1));
        lemma_lex(c, d);
        if a[0] < b[0] {
            assert(a.take(0) =~= b.take(0));
            assert(bytes_before(a, b, 0));
        }
        if a[0] == b[0] && order::lex(c, d) {
            let k = choose|k: int| bytes_before(c, d, k);
            assert forall|i: int| 0 <= i < k + 1 implies a[i] == b[i] by {
                if i > 0 {
                    assert(c.take(k)[i - 1] == a[i] && d.take(k)[i - 1] == b[i]);
                }
            }
            assert(a.take(k + 1) =~= b.take(k + 1));
            assert(bytes_before(a, b, k + 1));
        }
        if exists|k: int| bytes_before(a, b, k) {
            let k = choose|k: int| bytes_before(a, b, k);
            if k > 0 {
                assert(a.take(k)[0] == a[0] && b.take(k)[0] == b[0]);
                assert forall|i: int| 0 <= i < k - 1 implies c[i] == d[i] by {
                    assert(a.take(k)[i + 1] == c[i] && b.take(k)[i + 1] == d[i]);
                }
                assert(c.take(k - 1) =~= d.take(k - 1));
                assert(bytes_before(c, d, k - 1));
            }
        }
    }
}

/// Texts are ordered by their bytes in UTF-8.
pub proof fn law_precedes(a: Seq<char>, b: Seq<char>)
    ensures
        order::precedes(a, b) <==> exists|k: int|
            bytes_before(vstd::utf8::encode_utf8(a), vstd::utf8::encode_utf8(b), k),
{
    lemma_lex(bytes::utf8(a), bytes::utf8(b));
}

} // verus!
