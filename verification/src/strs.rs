//! Operations on text, held as a slice of characters.

use vstd::prelude::*;
use vstd::slice::slice_subrange;

use crate::chars;

verus! {

broadcast use vstd::utf8::group_utf8_lib;

/// `String::push` appends one character.
pub assume_specification[ String::push ](s: &mut String, c: char)
    ensures
        final(s)@ == old(s)@.push(c),
;

/// `pat` stands in `s` at position `i`.
pub open spec fn occurs_at<A>(s: Seq<A>, pat: Seq<A>, i: int) -> bool {
    0 <= i && i + pat.len() <= s.len() && s.subrange(i, i + pat.len()) == pat
}

/// The first position from `i` on at which `pat` stands in `s`.
pub open spec fn find_from<A>(s: Seq<A>, pat: Seq<A>, i: int) -> Option<int>
    decreases s.len() + 1 - i,
{
    if i < 0 || i + pat.len() > s.len() {
        None
    } else if occurs_at(s, pat, i) {
        Some(i)
    } else {
        find_from(s, pat, i + 1)
    }
}

/// The first position at which `pat` stands in `s`.
pub open spec fn first_of<A>(s: Seq<A>, pat: Seq<A>) -> Option<int> {
    find_from(s, pat, 0)
}

pub open spec fn has<A>(s: Seq<A>, pat: Seq<A>) -> bool {
    exists|i: int| occurs_at(s, pat, i)
}

pub open spec fn prefixed<A>(s: Seq<A>, pat: Seq<A>) -> bool {
    occurs_at(s, pat, 0)
}

pub open spec fn suffixed<A>(s: Seq<A>, pat: Seq<A>) -> bool {
    occurs_at(s, pat, s.len() - pat.len())
}

/// The first position from `i` on that holds `c`.
pub open spec fn index_from<A>(s: Seq<A>, c: A, i: int) -> Option<int>
    decreases s.len() - i,
{
    if i < 0 || i >= s.len() {
        None
    } else if s[i] == c {
        Some(i)
    } else {
        index_from(s, c, i + 1)
    }
}

/// The first position that holds `c`.
pub open spec fn index_of<A>(s: Seq<A>, c: A) -> Option<int> {
    index_from(s, c, 0)
}

/// `s` cut at its first `c`, which is dropped.
pub open spec fn cut<A>(s: Seq<A>, c: A) -> Option<(Seq<A>, Seq<A>)> {
    match index_of(s, c) {
        Some(i) => Some((s.take(i), s.skip(i + 1))),
        None => None,
    }
}

/// The pieces of `s` between the occurrences of `pat`, taken from the left.
pub open spec fn pieces<A>(s: Seq<A>, pat: Seq<A>) -> Seq<Seq<A>>
    decreases s.len(),
{
    match first_of(s, pat) {
        Some(i) => if pat.len() > 0 && 0 <= i && i + pat.len() <= s.len() {
            seq![s.take(i)] + pieces(s.skip(i + pat.len()), pat)
        } else {
            seq![s]
        },
        None => seq![s],
    }
}

/// The pieces of `s` between the occurrences of the character `c`.
pub open spec fn fields<A>(s: Seq<A>, c: A) -> Seq<Seq<A>> {
    pieces(s, seq![c])
}

/// `s` without the white space it starts with.
pub open spec fn ltrim(s: Seq<char>) -> Seq<char>
    decreases s.len(),
{
    if s.len() > 0 && chars::white(s[0]) {
        ltrim(s.skip(1))
    } else {
        s
    }
}

/// `s` without the white space it ends with.
pub open spec fn rtrim(s: Seq<char>) -> Seq<char>
    decreases s.len(),
{
    if s.len() > 0 && chars::white(s.last()) {
        rtrim(s.drop_last())
    } else {
        s
    }
}

/// `s` without white space at either end.
pub open spec fn trimmed(s: Seq<char>) -> Seq<char> {
    rtrim(ltrim(s))
}

/// `s` without the characters of `set` it starts with.
pub open spec fn ltrim_set(s: Seq<char>, set: Seq<char>) -> Seq<char>
    decreases s.len(),
{
    if s.len() > 0 && set.contains(s[0]) {
        ltrim_set(s.skip(1), set)
    } else {
        s
    }
}

/// `s` without its first character, where that is one of `set`.
pub open spec fn untagged(s: Seq<char>, set: Seq<char>) -> Seq<char> {
    if s.len() > 0 && set.contains(s[0]) {
        s.skip(1)
    } else {
        s
    }
}

/// `s` without the copies of `pat` it starts with.
pub open spec fn ltrim_pat(s: Seq<char>, pat: Seq<char>) -> Seq<char>
    decreases s.len(),
{
    if pat.len() > 0 && prefixed(s, pat) {
        ltrim_pat(s.skip(pat.len() as int), pat)
    } else {
        s
    }
}

/// `s` with its ASCII capitals lowered.
pub open spec fn lower_text(s: Seq<char>) -> Seq<char> {
    Seq::new(s.len(), |i: int| chars::lowered(s[i]))
}

/// The number of bytes of `s` in UTF-8.
pub open spec fn utf8_len(s: Seq<char>) -> nat {
    vstd::utf8::encode_utf8(s).len()
}

/// The characters of each string.
pub open spec fn texts(v: Seq<String>) -> Seq<Seq<char>> {
    v.map_values(|s: String| s@)
}

pub open spec fn opt_text(o: Option<String>) -> Option<Seq<char>> {
    match o {
        Some(s) => Some(s@),
        None => None,
    }
}

pub proof fn lemma_find_from<A>(s: Seq<A>, pat: Seq<A>, i: int)
    requires
        0 <= i,
    ensures
        find_from(s, pat, i) matches Some(k) ==> i <= k && occurs_at(s, pat, k) && (forall|j: int|
            i <= j < k ==> !occurs_at(s, pat, j)),
        find_from(s, pat, i) is None ==> (forall|j: int| i <= j ==> !occurs_at(s, pat, j)),
    decreases s.len() + 1 - i,
{
    if i + pat.len() > s.len() {
    } else if occurs_at(s, pat, i) {
    } else {
        lemma_find_from(s, pat, i + 1);
    }
}

/// `first_of` is the least position at which the pattern stands.
pub proof fn lemma_first_of<A>(s: Seq<A>, pat: Seq<A>)
    ensures
        first_of(s, pat) matches Some(k) ==> occurs_at(s, pat, k) && (forall|j: int|
            j < k ==> !occurs_at(s, pat, j)),
        first_of(s, pat) is Some <==> has(s, pat),
{
    lemma_find_from(s, pat, 0);
}

pub proof fn lemma_index_from<A>(s: Seq<A>, c: A, i: int)
    requires
        0 <= i,
    ensures
        index_from(s, c, i) matches Some(k) ==> i <= k < s.len() && s[k] == c && (forall|j: int|
            i <= j < k ==> s[j] != c),
        index_from(s, c, i) is None ==> (forall|j: int| i <= j < s.len() ==> s[j] != c),
    decreases s.len() - i,
{
    if i < s.len() && s[i] != c {
        lemma_index_from(s, c, i + 1);
    }
}

pub proof fn lemma_index_of<A>(s: Seq<A>, c: A)
    ensures
        index_of(s, c) matches Some(k) ==> 0 <= k < s.len() && s[k] == c && (forall|j: int|
            0 <= j < k ==> s[j] != c),
        index_of(s, c) is Some <==> s.contains(c),
{
    lemma_index_from(s, c, 0);
}

/// A text is cut at the first position that holds the character.
pub proof fn lemma_cut_at<A>(s: Seq<A>, c: A, i: int)
    requires
        0 <= i < s.len(),
        s[i] == c,
        forall|j: int| 0 <= j < i ==> s[j] != c,
    ensures
        cut(s, c) == Some((s.take(i), s.skip(i + 1))),
{
    lemma_index_of(s, c);
    assert(s.contains(c));
}

/// The first position at which a pattern stands is the one before which it
/// does not.
pub proof fn lemma_first_at<A>(s: Seq<A>, pat: Seq<A>, i: int)
    requires
        occurs_at(s, pat, i),
        forall|j: int| 0 <= j < i ==> !occurs_at(s, pat, j),
    ensures
        first_of(s, pat) == Some(i),
{
    lemma_first_of(s, pat);
}

/// Pieces with `pat` between them.
pub open spec fn joined<A>(parts: Seq<Seq<A>>, pat: Seq<A>) -> Seq<A>
    decreases parts.len(),
{
    if parts.len() == 0 {
        Seq::empty()
    } else if parts.len() == 1 {
        parts[0]
    } else {
        parts[0] + pat + joined(parts.skip(1), pat)
    }
}

/// Splitting a text and joining the pieces gives the text back.
pub proof fn law_pieces_join<A>(s: Seq<A>, pat: Seq<A>)
    ensures
        joined(pieces(s, pat), pat) == s,
    decreases s.len(),
{
    lemma_first_of(s, pat);
    match first_of(s, pat) {
        Some(i) => {
            if pat.len() > 0 {
                let rest = s.skip(i + pat.len());
                law_pieces_join(rest, pat);
                lemma_pieces_nonempty(rest, pat);
                assert(pieces(s, pat).skip(1) =~= pieces(rest, pat));
                assert(s.take(i) + s.subrange(i, i + pat.len()) + rest =~= s);
            }
        },
        None => {},
    }
}

pub proof fn lemma_texts_push(v: Seq<String>, s: String)
    ensures
        texts(v.push(s)) == texts(v).push(s@),
{
    assert(texts(v.push(s)) =~= texts(v).push(s@));
}

/// Splitting leaves at least one piece.
pub proof fn lemma_pieces_nonempty<A>(s: Seq<A>, pat: Seq<A>)
    ensures
        pieces(s, pat).len() > 0,
{
}

/// The characters of a string.
pub fn chars_of(s: &str) -> (r: Vec<char>)
    ensures
        r@ == s@,
{
    let mut out: Vec<char> = Vec::new();
    for c in it: s.chars()
        invariant
            out@ == it.seq().take(it.index() as int),
            it.seq() == s@,
    {
        out.push(c);
    }
    out
}

/// The string of some characters.
pub fn string_of(s: &[char]) -> (r: String)
    ensures
        r@ == s@,
{
    let mut out: String = String::new();
    for i in 0..s.len()
        invariant
            out@ == s@.take(i as int),
    {
        out.push(s[i]);
        assert(s@.take(i as int).push(s@[i as int]) =~= s@.take(i + 1));
    }
    assert(s@.take(s@.len() as int) =~= s@);
    out
}

/// Whether `pat` stands in `s` at `i`.
fn matches_at(s: &[char], pat: &[char], i: usize) -> (r: bool)
    ensures
        r == occurs_at(s@, pat@, i as int),
{
    let n: usize = s.len();
    if i > n || n - i < pat.len() {
        return false;
    }
    for k in 0..pat.len()
        invariant
            n == s@.len(),
            i + pat@.len() <= n,
            forall|j: int| 0 <= j < k ==> s@[i + j] == pat@[j],
    {
        if s[i + k] != pat[k] {
            assert(s@.subrange(i as int, i + pat@.len())[k as int] != pat@[k as int]);
            return false;
        }
    }
    assert(s@.subrange(i as int, i + pat@.len()) =~= pat@);
    true
}

/// The first position at which `pat` stands in `s`.
fn find_slice(s: &[char], pat: &[char]) -> (r: Option<usize>)
    ensures
        r matches Some(k) ==> first_of(s@, pat@) == Some(k as int),
        r is None ==> first_of(s@, pat@) is None,
{
    if s.len() < pat.len() {
        return None;
    }
    let last: usize = s.len() - pat.len();
    let mut i: usize = 0;
    while i <= last
        invariant
            last == s@.len() - pat@.len(),
            i <= last + 1,
            find_from(s@, pat@, i as int) == first_of(s@, pat@),
        decreases last + 1 - i,
    {
        if matches_at(s, pat, i) {
            return Some(i);
        }
        if i == last {
            assert(find_from(s@, pat@, i + 1) is None);
            return None;
        }
        i = i + 1;
    }
    None
}

pub fn find(s: &[char], pat: &str) -> (r: Option<usize>)
    ensures
        r matches Some(k) ==> first_of(s@, pat@) == Some(k as int),
        r is None ==> first_of(s@, pat@) is None,
{
    let p: Vec<char> = chars_of(pat);
    find_slice(s, &p)
}

pub fn contains(s: &[char], pat: &str) -> (r: bool)
    ensures
        r == has(s@, pat@),
{
    proof {
        lemma_first_of(s@, pat@);
    }
    find(s, pat).is_some()
}

pub fn starts_with(s: &[char], pat: &str) -> (r: bool)
    ensures
        r == prefixed(s@, pat@),
{
    let p: Vec<char> = chars_of(pat);
    matches_at(s, &p, 0)
}

pub fn ends_with(s: &[char], pat: &str) -> (r: bool)
    ensures
        r == suffixed(s@, pat@),
{
    let p: Vec<char> = chars_of(pat);
    if s.len() < p.len() {
        return false;
    }
    matches_at(s, &p, s.len() - p.len())
}

/// Whether `s` is the text `t`.
pub fn is_text(s: &[char], t: &str) -> (r: bool)
    ensures
        r == (s@ == t@),
{
    let p: Vec<char> = chars_of(t);
    if s.len() != p.len() {
        return false;
    }
    for k in 0..p.len()
        invariant
            p@ == t@,
            s@.len() == p@.len(),
            forall|j: int| 0 <= j < k ==> s@[j] == p@[j],
    {
        if s[k] != p[k] {
            return false;
        }
    }
    assert(s@ =~= t@);
    true
}

/// The first position that holds `c`.
pub fn index(s: &[char], c: char) -> (r: Option<usize>)
    ensures
        r matches Some(k) ==> index_of(s@, c) == Some(k as int) && k < s@.len(),
        r is None ==> index_of(s@, c) is None,
{
    for i in 0..s.len()
        invariant
            index_from(s@, c, i as int) == index_of(s@, c),
    {
        if s[i] == c {
            return Some(i);
        }
    }
    None
}

/// Whether `s` holds `c`.
pub fn holds(s: &[char], c: char) -> (r: bool)
    ensures
        r == s@.contains(c),
{
    proof {
        lemma_index_of(s@, c);
    }
    index(s, c).is_some()
}

/// `s` cut at its first `c`, which is dropped.
pub fn cut_at<'a>(s: &'a [char], c: char) -> (r: Option<(&'a [char], &'a [char])>)
    ensures
        r matches Some(p) ==> cut(s@, c) == Some((p.0@, p.1@)),
        r is None ==> cut(s@, c) is None,
{
    let n: usize = s.len();
    match index(s, c) {
        Some(i) => Some((slice_subrange(s, 0, i), slice_subrange(s, i + 1, n))),
        None => None,
    }
}

/// The views of some slices.
pub open spec fn parts(v: Seq<&[char]>) -> Seq<Seq<char>> {
    v.map_values(|s: &[char]| s@)
}

/// The pieces of `s` between the occurrences of `pat`.
pub fn split<'a>(s: &'a [char], pat: &str) -> (r: Vec<&'a [char]>)
    requires
        pat@.len() > 0,
    ensures
        parts(r@) == pieces(s@, pat@),
{
    let p: Vec<char> = chars_of(pat);
    let mut out: Vec<&'a [char]> = Vec::new();
    let mut rest: &'a [char] = s;
    assert(parts(out@) + pieces(s@, pat@) =~= pieces(s@, pat@));
    loop
        invariant
            p@ == pat@,
            pat@.len() > 0,
            parts(out@) + pieces(rest@, pat@) == pieces(s@, pat@),
        decreases rest@.len(),
    {
        let ghost before = parts(out@);
        match find_slice(rest, &p) {
            Some(i) => {
                proof {
                    lemma_first_of(rest@, pat@);
                }
                let n: usize = rest.len();
                let head: &'a [char] = slice_subrange(rest, 0, i);
                let tail: &'a [char] = slice_subrange(rest, i + p.len(), n);
                out.push(head);
                assert(parts(out@) =~= before.push(head@));
                assert(before + pieces(rest@, pat@) =~= before.push(head@) + pieces(tail@, pat@));
                rest = tail;
            },
            None => {
                out.push(rest);
                assert(parts(out@) =~= before + pieces(rest@, pat@));
                return out;
            },
        }
    }
}

/// The pieces of `s` between the occurrences of `c`.
pub fn split_char<'a>(s: &'a [char], c: char) -> (r: Vec<&'a [char]>)
    ensures
        parts(r@) == fields(s@, c),
{
    let mut sep: String = String::new();
    sep.push(c);
    assert(sep@ =~= seq![c]);
    split(s, sep.as_str())
}

/// `s` without white space at either end.
pub fn trim<'a>(s: &'a [char]) -> (r: &'a [char])
    ensures
        r@ == trimmed(s@),
{
    let mut a: usize = 0;
    assert(s@.skip(0) =~= s@);
    while a < s.len() && chars::is_white(s[a])
        invariant
            a <= s@.len(),
            ltrim(s@.skip(a as int)) == ltrim(s@),
        decreases s@.len() - a,
    {
        assert(s@.skip(a as int).skip(1) =~= s@.skip(a + 1));
        a = a + 1;
    }
    let ghost left = ltrim(s@);
    assert(left == s@.skip(a as int));
    let mut b: usize = s.len();
    assert(s@.subrange(a as int, b as int) =~= left);
    while b > a && chars::is_white(s[b - 1])
        invariant
            a <= b <= s@.len(),
            rtrim(s@.subrange(a as int, b as int)) == rtrim(left),
        decreases b,
    {
        assert(s@.subrange(a as int, b as int).drop_last() =~= s@.subrange(a as int, b - 1));
        b = b - 1;
    }
    slice_subrange(s, a, b)
}

/// `s` without the characters of `set` it starts with.
pub fn trim_start_of<'a>(s: &'a [char], set: &str) -> (r: &'a [char])
    ensures
        r@ == ltrim_set(s@, set@),
{
    let p: Vec<char> = chars_of(set);
    let mut a: usize = 0;
    assert(s@.skip(0) =~= s@);
    while a < s.len() && holds(&p, s[a])
        invariant
            a <= s@.len(),
            p@ == set@,
            ltrim_set(s@.skip(a as int), set@) == ltrim_set(s@, set@),
        decreases s@.len() - a,
    {
        assert(s@.skip(a as int).skip(1) =~= s@.skip(a + 1));
        a = a + 1;
    }
    slice_subrange(s, a, s.len())
}

/// `s` without its first character, where that is one of `set`.
pub fn untag<'a>(s: &'a [char], set: &str) -> (r: &'a [char])
    ensures
        r@ == untagged(s@, set@),
{
    let p: Vec<char> = chars_of(set);
    if s.len() > 0 && holds(&p, s[0]) {
        slice_subrange(s, 1, s.len())
    } else {
        s
    }
}

/// `s` without the copies of `pat` it starts with.
pub fn trim_start_matches<'a>(s: &'a [char], pat: &str) -> (r: &'a [char])
    requires
        pat@.len() > 0,
    ensures
        r@ == ltrim_pat(s@, pat@),
{
    let p: Vec<char> = chars_of(pat);
    let mut rest: &'a [char] = s;
    while matches_at(rest, &p, 0)
        invariant
            p@ == pat@,
            pat@.len() > 0,
            ltrim_pat(rest@, pat@) == ltrim_pat(s@, pat@),
        decreases rest@.len(),
    {
        rest = slice_subrange(rest, p.len(), rest.len());
    }
    rest
}

/// `s` with its ASCII capitals lowered.
pub fn lower(s: &[char]) -> (r: Vec<char>)
    ensures
        r@ == lower_text(s@),
{
    let mut out: Vec<char> = Vec::new();
    for i in 0..s.len()
        invariant
            out@ == lower_text(s@).take(i as int),
    {
        out.push(chars::lower(s[i]));
        assert(out@ =~= lower_text(s@).take(i + 1));
    }
    assert(out@ =~= lower_text(s@));
    out
}

/// The number of bytes of a character in UTF-8.
pub open spec fn width(c: char) -> nat {
    vstd::utf8::encode_scalar(c as u32).len()
}

/// The number of bytes of a character in UTF-8.
fn width_of(c: char) -> (r: usize)
    ensures
        r == width(c),
        1 <= r <= 4,
{
    let n: u32 = c as u32;
    proof {
        vstd::utf8::char_is_scalar(c);
    }
    if n <= 0x7f {
        1
    } else if n <= 0x7ff {
        2
    } else if n <= 0xffff {
        3
    } else {
        4
    }
}

/// Bytes in UTF-8 add up character by character.
pub proof fn lemma_utf8_len_push(s: Seq<char>, c: char)
    ensures
        utf8_len(s.push(c)) == utf8_len(s) + width(c),
    decreases s.len(),
{
    if s.len() == 0 {
        assert(s.push(c).drop_first() =~= s);
    } else {
        assert(s.push(c).drop_first() =~= s.drop_first().push(c));
        lemma_utf8_len_push(s.drop_first(), c);
    }
}

/// The longest start of `s` that takes at most `limit` bytes in UTF-8.
pub open spec fn clipped(s: Seq<char>, limit: int) -> Seq<char>
    decreases s.len(),
{
    if s.len() == 0 || utf8_len(s) <= limit {
        s
    } else {
        clipped(s.drop_last(), limit)
    }
}

/// A clipped text is a start of the text, it fits, and one more character
/// would not.
pub proof fn law_clipped(s: Seq<char>, limit: int)
    requires
        limit >= 0,
    ensures
        clipped(s, limit).len() <= s.len(),
        clipped(s, limit) == s.take(clipped(s, limit).len() as int),
        utf8_len(clipped(s, limit)) <= limit,
        forall|k: int|
            clipped(s, limit).len() < k <= s.len() ==> utf8_len(#[trigger] s.take(k)) > limit,
    decreases s.len(),
{
    if s.len() == 0 || utf8_len(s) <= limit {
        assert(s.take(s.len() as int) =~= s);
    } else {
        let init = s.drop_last();
        law_clipped(init, limit);
        let n = clipped(init, limit).len() as int;
        assert(init.take(n) =~= s.take(n));
        assert forall|k: int| n < k <= s.len() implies utf8_len(#[trigger] s.take(k)) > limit by {
            if k < s.len() {
                assert(init.take(k) =~= s.take(k));
            } else {
                assert(s.take(k) =~= s);
            }
        }
    }
}

proof fn lemma_clipped_at(s: Seq<char>, limit: int, k: int)
    requires
        0 <= k <= s.len(),
        utf8_len(s.take(k)) <= limit,
        k < s.len() ==> utf8_len(s.take(k + 1)) > limit,
    ensures
        clipped(s, limit) == s.take(k),
    decreases s.len(),
{
    if k == s.len() {
        assert(s.take(k) =~= s);
    } else {
        let init = s.drop_last();
        assert(init.take(k) =~= s.take(k));
        if k < init.len() {
            assert(init.take(k + 1) =~= s.take(k + 1));
        }
        lemma_utf8_len_grows(s, k + 1);
        lemma_clipped_at(init, limit, k);
    }
}

proof fn lemma_utf8_len_grows(s: Seq<char>, k: int)
    requires
        0 <= k <= s.len(),
    ensures
        utf8_len(s.take(k)) <= utf8_len(s),
    decreases s.len() - k,
{
    if k == s.len() {
        assert(s.take(k) =~= s);
    } else {
        lemma_utf8_len_grows(s, k + 1);
        assert(s.take(k + 1) =~= s.take(k).push(s[k]));
        lemma_utf8_len_push(s.take(k), s[k]);
    }
}

/// The longest start of `s` that takes at most `limit` bytes in UTF-8.
pub fn clip<'a>(s: &'a [char], limit: usize) -> (r: &'a [char])
    ensures
        r@ == clipped(s@, limit as int),
{
    let mut used: usize = 0;
    let mut i: usize = 0;
    assert(s@.take(0) =~= Seq::<char>::empty());
    while i < s.len()
        invariant
            i <= s@.len(),
            used <= limit,
            used == utf8_len(s@.take(i as int)),
        decreases s@.len() - i,
    {
        let w: usize = width_of(s[i]);
        assert(s@.take(i + 1) =~= s@.take(i as int).push(s@[i as int]));
        proof {
            lemma_utf8_len_push(s@.take(i as int), s@[i as int]);
        }
        if w > limit - used {
            proof {
                lemma_clipped_at(s@, limit as int, i as int);
            }
            return slice_subrange(s, 0, i);
        }
        used = used + w;
        i = i + 1;
    }
    proof {
        lemma_clipped_at(s@, limit as int, i as int);
    }
    slice_subrange(s, 0, i)
}

/// Whether `s` takes more than `limit` bytes in UTF-8.
pub fn longer_than(s: &[char], limit: usize) -> (r: bool)
    ensures
        r == (utf8_len(s@) > limit),
{
    let mut left: usize = limit;
    assert(s@.skip(0) =~= s@);
    for i in 0..s.len()
        invariant
            left <= limit,
            utf8_len(s@) == (limit - left) + utf8_len(s@.skip(i as int)),
    {
        let w: usize = width_of(s[i]);
        assert(s@.skip(i as int).drop_first() =~= s@.skip(i + 1));
        assert(s@.skip(i as int)[0] == s@[i as int]);
        assert(utf8_len(s@.skip(i as int)) == w + utf8_len(s@.skip(i + 1)));
        if w > left {
            return true;
        }
        left = left - w;
    }
    assert(s@.skip(s@.len() as int) =~= Seq::<char>::empty());
    false
}

/// Every character is an ASCII letter or digit, or one of `extra`.
pub open spec fn word_of(s: Seq<char>, extra: Seq<char>) -> bool {
    forall|i: int|
        0 <= i < s.len() ==> chars::alphanumeric(#[trigger] s[i]) || extra.contains(s[i])
}

pub open spec fn all_digits(s: Seq<char>) -> bool {
    forall|i: int| 0 <= i < s.len() ==> chars::digit(#[trigger] s[i])
}

pub open spec fn all_alphabetic(s: Seq<char>) -> bool {
    forall|i: int| 0 <= i < s.len() ==> chars::alphabetic(#[trigger] s[i])
}

/// Whether every character is an ASCII letter or digit, or one of `extra`.
pub fn is_word_of(s: &[char], extra: &str) -> (r: bool)
    ensures
        r == word_of(s@, extra@),
{
    let set: Vec<char> = chars_of(extra);
    for i in 0..s.len()
        invariant
            set@ == extra@,
            forall|j: int|
                0 <= j < i ==> chars::alphanumeric(#[trigger] s@[j]) || extra@.contains(s@[j]),
    {
        if !chars::is_alphanumeric(s[i]) && !holds(&set, s[i]) {
            return false;
        }
    }
    true
}

pub fn is_all_digits(s: &[char]) -> (r: bool)
    ensures
        r == all_digits(s@),
{
    for i in 0..s.len()
        invariant
            forall|j: int| 0 <= j < i ==> chars::digit(#[trigger] s@[j]),
    {
        if !chars::is_digit(s[i]) {
            return false;
        }
    }
    true
}

pub fn is_all_alphabetic(s: &[char]) -> (r: bool)
    ensures
        r == all_alphabetic(s@),
{
    for i in 0..s.len()
        invariant
            forall|j: int| 0 <= j < i ==> chars::alphabetic(#[trigger] s@[j]),
    {
        if !chars::is_alphabetic(s[i]) {
            return false;
        }
    }
    true
}

/// A label of a host name: up to 63 letters, digits and inner dashes.
pub open spec fn host_label(s: Seq<char>) -> bool {
    &&& 0 < s.len() <= 63
    &&& word_of(s, "-"@)
    &&& s[0] != '-'
    &&& s.last() != '-'
}

pub open spec fn host_labels(v: Seq<Seq<char>>) -> bool {
    forall|i: int| 0 <= i < v.len() ==> host_label(#[trigger] v[i])
}

/// Whether every part is a label of a host name.
pub fn are_host_labels(v: &Vec<&[char]>) -> (r: bool)
    ensures
        r == host_labels(parts(v@)),
{
    for i in 0..v.len()
        invariant
            forall|j: int| 0 <= j < i ==> host_label(#[trigger] parts(v@)[j]),
    {
        let s: &[char] = v[i];
        let n: usize = s.len();
        assert(parts(v@)[i as int] == s@);
        if !(0 < n && n <= 63 && is_word_of(s, "-") && s[0] != '-' && s[n - 1] != '-') {
            return false;
        }
    }
    true
}

/// Append a text to a string.
pub fn push_text(out: &mut String, s: &str)
    ensures
        final(out)@ == old(out)@ + s@,
{
    let text: Vec<char> = chars_of(s);
    let ghost start = out@;
    for i in 0..text.len()
        invariant
            text@ == s@,
            start == old(out)@,
            out@ == start + s@.take(i as int),
    {
        out.push(text[i]);
        assert(out@ =~= start + s@.take(i + 1));
    }
    assert(s@.take(s@.len() as int) =~= s@);
}

/// Append a text to a list.
pub fn keep(list: &mut Vec<String>, s: &[char])
    ensures
        texts(final(list)@) == texts(old(list)@).push(s@),
{
    let t: String = string_of(s);
    proof {
        lemma_texts_push(list@, t);
    }
    list.push(t);
}

} // verus!
