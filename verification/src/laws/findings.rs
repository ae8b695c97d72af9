//! What the texts of a blob are read as.

use vstd::prelude::*;

use crate::chars;
use crate::laws::kinds;
use crate::laws::runs;
use crate::laws::texts;
use crate::project;
use crate::project::BlobRole;
use crate::strs;

verus! {

/// `pat` stands somewhere in `s`, character by character.
pub open spec fn holds(s: Seq<char>, pat: Seq<char>) -> bool {
    exists|i: int| #[trigger] stands_at(s, pat, i)
}

pub open spec fn stands_at(s: Seq<char>, pat: Seq<char>, i: int) -> bool {
    &&& 0 <= i
    &&& i + pat.len() <= s.len()
    &&& forall|k: int| 0 <= k < pat.len() ==> s[i + k] == #[trigger] pat[k]
}

pub proof fn lemma_holds(s: Seq<char>, pat: Seq<char>)
    ensures
        strs::has(s, pat) == holds(s, pat),
{
    if strs::has(s, pat) {
        let i = choose|i: int| strs::occurs_at(s, pat, i);
        texts::law_occurs_at(s, pat, i);
        assert(stands_at(s, pat, i));
    }
    if holds(s, pat) {
        let i = choose|i: int| #[trigger] stands_at(s, pat, i);
        texts::law_occurs_at(s, pat, i);
        assert(strs::occurs_at(s, pat, i));
    }
}

/// `words[i]` is the first of the words that `s` holds.
pub open spec fn first_held(s: Seq<char>, words: Seq<Seq<char>>, i: int) -> bool {
    &&& 0 <= i < words.len()
    &&& holds(s, words[i])
    &&& forall|j: int| 0 <= j < i ==> !holds(s, #[trigger] words[j])
}

pub open spec fn holds_one(s: Seq<char>, words: Seq<Seq<char>>) -> bool {
    exists|j: int| 0 <= j < words.len() && holds(s, #[trigger] words[j])
}

/// The words for a severity, the ones that stand for more first.
pub open spec fn severities() -> Seq<Seq<char>> {
    seq![
        "Severity: High"@,
        "Severity: Medium"@,
        "Severity: Low"@,
        "Severity: Information"@,
        "High"@,
        "Medium"@,
        "Low"@,
        "Information"@,
    ]
}

pub open spec fn confidences() -> Seq<Seq<char>> {
    seq!["Confidence: Certain"@, "Confidence: Firm"@, "Confidence: Tentative"@]
}

/// A text names the first of the severities that it holds, with its label
/// where it has one, and a text that holds none names none.
pub proof fn law_severity(s: Seq<char>, i: int)
    ensures
        first_held(s, severities(), i) ==> project::severity_in(s) == Some(severities()[i]),
        project::severity_in(s) is Some <==> holds_one(s, severities()),
{
    let w = severities();
    assert forall|j: int| 0 <= j < w.len() implies holds(s, #[trigger] w[j]) == strs::has(
        s,
        w[j],
    ) by {
        lemma_holds(s, w[j]);
    }
    assert(holds(s, w[0]) == strs::has(s, "Severity: High"@));
    assert(holds(s, w[1]) == strs::has(s, "Severity: Medium"@));
    assert(holds(s, w[2]) == strs::has(s, "Severity: Low"@));
    assert(holds(s, w[3]) == strs::has(s, "Severity: Information"@));
    assert(holds(s, w[4]) == strs::has(s, "High"@));
    assert(holds(s, w[5]) == strs::has(s, "Medium"@));
    assert(holds(s, w[6]) == strs::has(s, "Low"@));
    assert(holds(s, w[7]) == strs::has(s, "Information"@));
}

/// A text names the first of the confidences that it holds, and a text that
/// holds none names none.
pub proof fn law_confidence(s: Seq<char>, i: int)
    ensures
        first_held(s, confidences(), i) ==> project::confidence_in(s) == Some(confidences()[i]),
        project::confidence_in(s) is Some <==> holds_one(s, confidences()),
{
    let w = confidences();
    assert forall|j: int| 0 <= j < w.len() implies holds(s, #[trigger] w[j]) == strs::has(
        s,
        w[j],
    ) by {
        lemma_holds(s, w[j]);
    }
    assert(holds(s, w[0]) == strs::has(s, "Confidence: Certain"@));
    assert(holds(s, w[1]) == strs::has(s, "Confidence: Firm"@));
    assert(holds(s, w[2]) == strs::has(s, "Confidence: Tentative"@));
}

/// A web address: `http` or `https`, a colon and two slashes, and what follows.
pub open spec fn is_address(u: Seq<char>) -> bool {
    stands_at(u, "http://"@, 0) || stands_at(u, "https://"@, 0)
}

/// A blank, or the type tag of a text.
pub open spec fn is_mark(c: char) -> bool {
    c == ' ' || c == 't' || c == 'd' || c == 's' || c == 'b' || c == 'e'
}

pub open spec fn all_marks(s: Seq<char>) -> bool {
    forall|i: int| 0 <= i < s.len() ==> is_mark(#[trigger] s[i])
}

proof fn lemma_marks(c: char)
    ensures
        " tdsbe"@.contains(c) <==> is_mark(c),
{
    reveal_strlit(" tdsbe");
    let w = " tdsbe"@;
    assert(w =~= seq![' ', 't', 'd', 's', 'b', 'e']);
    assert(w[0] == ' ' && w[1] == 't' && w[2] == 'd' && w[3] == 's' && w[4] == 'b' && w[5] == 'e');
}

/// A web address is found behind any number of blanks and type tags; and what
/// is found is a web address with nothing else before it.
pub proof fn law_url(marks: Seq<char>, u: Seq<char>, s: Seq<char>)
    ensures
        all_marks(marks) && is_address(u) ==> project::url_in(marks + u) == Some(u),
        project::url_in(s) matches Some(t) ==> is_address(t) && t.len() <= s.len() && t == s.skip(
            s.len() - t.len(),
        ) && all_marks(s.take(s.len() - t.len())),
{
    reveal_strlit("http://");
    reveal_strlit("https://");
    let set = " tdsbe"@;
    if all_marks(marks) && is_address(u) {
        let all = marks + u;
        let a = texts::law_ltrim_set(all, set);
        assert(u[0] == 'h') by {
            if stands_at(u, "http://"@, 0) {
                assert(u[0] == "http://"@[0]);
            } else {
                assert(u[0] == "https://"@[0]);
            }
        }
        let n = marks.len() as int;
        assert(a == n) by {
            if a < n {
                assert(all[a] == marks[a]);
                lemma_marks(marks[a]);
            }
            if a > n {
                assert(all[n] == 'h');
                assert(set.contains(all[n]));
                lemma_marks('h');
            }
        }
        assert(all.skip(n) =~= u);
        texts::law_occurs_at(u, "http://"@, 0);
        texts::law_occurs_at(u, "https://"@, 0);
    }
    if project::url_in(s) is Some {
        let a = texts::law_ltrim_set(s, set);
        let t = s.skip(a);
        texts::law_occurs_at(t, "http://"@, 0);
        texts::law_occurs_at(t, "https://"@, 0);
        assert forall|i: int| 0 <= i < a implies is_mark(#[trigger] s.take(a)[i]) by {
            assert(set.contains(s[i]));
            lemma_marks(s[i]);
        }
    }
}

/// `t` is `s` without the white space at its ends.
pub open spec fn core_of(s: Seq<char>, t: Seq<char>) -> bool {
    exists|a: int, b: int| #[trigger] texts::is_core(s, t, a, b)
}

pub proof fn lemma_core(s: Seq<char>, t: Seq<char>)
    ensures
        core_of(s, t) <==> t == strs::trimmed(s),
{
    let (a, b) = texts::law_trimmed(s);
    assert(texts::is_core(s, strs::trimmed(s), a, b));
    if core_of(s, t) {
        let (c, d) = choose|c: int, d: int| #[trigger] texts::is_core(s, t, c, d);
        texts::lemma_trimmed_is(s, t, c, d);
    }
}

/// A text is like a path where, up to white space, it is a slash and more, of
/// at most 4096 bytes, and holds neither a space nor an opening angle bracket.
pub proof fn law_path_like(s: Seq<char>, t: Seq<char>)
    requires
        core_of(s, t),
    ensures
        project::path_like(s) <==> t.len() >= 2 && t[0] == '/' && strs::utf8_len(t) <= 4096 && (
        forall|i: int| 0 <= i < t.len() ==> #[trigger] t[i] != ' ' && t[i] != '<'),
{
    lemma_core(s, t);
    reveal_strlit("/");
    texts::law_occurs_at(t, "/"@, 0);
    assert("/"@[0] == '/');
    if t.len() >= 1 && t[0] == '/' {
        assert(strs::occurs_at(t, "/"@, 0));
        lemma_bytes(t);
    }
    if project::path_like(s) {
        assert(t[0] == "/"@[0]);
    }
    if forall|i: int| 0 <= i < t.len() ==> #[trigger] t[i] != ' ' && t[i] != '<' {
        assert(!t.contains(' '));
        assert(!t.contains('<'));
    }
}

/// A text has at least as many bytes as characters, and one byte only where
/// it is one character of ASCII.
pub proof fn lemma_bytes(t: Seq<char>)
    ensures
        strs::utf8_len(t) >= t.len(),
        t.len() == 0 ==> strs::utf8_len(t) == 0,
        t.len() == 1 && t[0] == '/' ==> strs::utf8_len(t) == 1,
    decreases t.len(),
{
    if t.len() > 0 {
        let init = t.drop_last();
        lemma_bytes(init);
        vstd::utf8::char_is_scalar(t.last());
        strs::lemma_utf8_len_push(init, t.last());
        assert(init.push(t.last()) =~= t);
    }
}

/// Issue prose is marked up, or it takes more than 80 bytes and speaks of a
/// policy, a vulnerability or an attacker.
pub proof fn law_issue_prose(s: Seq<char>)
    ensures
        project::issue_prose(s) <==> holds_one(s, seq!["<p>"@, "</p>"@, "<b>"@, "<code>"@]) || (
        strs::utf8_len(s) > 80 && holds_one(s, seq!["attacker"@, "policy"@, "vulnerab"@])),
{
    let a = seq!["<p>"@, "</p>"@, "<b>"@, "<code>"@];
    let b = seq!["attacker"@, "policy"@, "vulnerab"@];
    assert forall|j: int| 0 <= j < a.len() implies holds(s, #[trigger] a[j]) == strs::has(
        s,
        a[j],
    ) by {
        lemma_holds(s, a[j]);
    }
    assert forall|j: int| 0 <= j < b.len() implies holds(s, #[trigger] b[j]) == strs::has(
        s,
        b[j],
    ) by {
        lemma_holds(s, b[j]);
    }
    assert(holds(s, a[0]) == strs::has(s, "<p>"@));
    assert(holds(s, a[1]) == strs::has(s, "</p>"@));
    assert(holds(s, a[2]) == strs::has(s, "<b>"@));
    assert(holds(s, a[3]) == strs::has(s, "<code>"@));
    assert(holds(s, b[0]) == strs::has(s, "attacker"@));
    assert(holds(s, b[1]) == strs::has(s, "policy"@));
    assert(holds(s, b[2]) == strs::has(s, "vulnerab"@));
}

/// A text flags a cookie where it is `Other`, a colon, a space and a name: up
/// to white space, at least one character, less than 128 bytes, no space.
pub proof fn law_cookie(rest: Seq<char>, t: Seq<char>, s: Seq<char>)
    requires
        core_of(rest, t),
    ensures
        ({
            let flag = seq!['O', 't', 'h', 'e', 'r', ':', ' '];
            let named = t.len() > 0 && strs::utf8_len(t) < 128 && forall|i: int|
                0 <= i < t.len() ==> #[trigger] t[i] != ' ';
            &&& named ==> project::cookie_in(flag + rest) == Some(t)
            &&& !named ==> project::cookie_in(flag + rest) is None
            &&& project::cookie_in(s) is Some ==> s.len() > 7 && s.take(7) == flag
        }),
{
    let flag = seq!['O', 't', 'h', 'e', 'r', ':', ' '];
    reveal_strlit("Other: ");
    assert("Other: "@ =~= flag);
    lemma_core(rest, t);
    let all = flag + rest;
    assert(all.skip(7) =~= rest);
    assert(all.subrange(0, 7) =~= flag);
    lemma_bytes(t);
    if project::cookie_in(s) is Some {
        assert(s.take(7) =~= s.subrange(0, 7));
        if s.len() == 7 {
            let (a, b) = texts::law_trimmed(s.skip(7));
            lemma_bytes(strs::trimmed(s.skip(7)));
        }
    }
    if forall|i: int| 0 <= i < t.len() ==> #[trigger] t[i] != ' ' {
        assert(!t.contains(' '));
    }
}

pub open spec fn letter(c: char) -> bool {
    'a' <= c <= 'z' || 'A' <= c <= 'Z'
}

pub open spec fn letter_or_digit(c: char) -> bool {
    letter(c) || '0' <= c <= '9'
}

/// A character of the part of an email address before the at sign.
pub open spec fn local_char(c: char) -> bool {
    letter_or_digit(c) || c == '.' || c == '_' || c == '+' || c == '-'
}

/// A character of the domain of an email address.
pub open spec fn domain_char(c: char) -> bool {
    letter_or_digit(c) || c == '.' || c == '-'
}

/// An email address, with its at sign at `at`.
pub open spec fn address_at(t: Seq<char>, at: int) -> bool {
    &&& 0 < at < t.len() <= 254
    &&& t[at] == '@'
    &&& t.len() - at - 1 <= 253
    &&& forall|i: int| 0 <= i < at ==> local_char(#[trigger] t[i])
    &&& forall|i: int| at < i < t.len() ==> domain_char(#[trigger] t[i])
    &&& exists|i: int| at < i < t.len() && #[trigger] t[i] == '.'
}

proof fn lemma_extras(c: char)
    ensures
        "._+-"@.contains(c) <==> c == '.' || c == '_' || c == '+' || c == '-',
        ".-"@.contains(c) <==> c == '.' || c == '-',
        "_-.*:"@.contains(c) <==> c == '_' || c == '-' || c == '.' || c == '*' || c == ':',
        "-"@.contains(c) <==> c == '-',
        " tds"@.contains(c) <==> c == ' ' || c == 't' || c == 'd' || c == 's',
        "dst "@.contains(c) <==> c == ' ' || c == 't' || c == 'd' || c == 's',
        "dstb"@.contains(c) <==> c == 'd' || c == 's' || c == 't' || c == 'b',
{
    reveal_strlit("._+-");
    reveal_strlit(".-");
    reveal_strlit("_-.*:");
    reveal_strlit("-");
    reveal_strlit(" tds");
    reveal_strlit("dst ");
    reveal_strlit("dstb");
    let a = "._+-"@;
    assert(a[0] == '.' && a[1] == '_' && a[2] == '+' && a[3] == '-' && a.len() == 4);
    let b = ".-"@;
    assert(b[0] == '.' && b[1] == '-' && b.len() == 2);
    let d = "_-.*:"@;
    assert(d[0] == '_' && d[1] == '-' && d[2] == '.' && d[3] == '*' && d[4] == ':' && d.len() == 5);
    let e = "-"@;
    assert(e[0] == '-' && e.len() == 1);
    let f = " tds"@;
    assert(f[0] == ' ' && f[1] == 't' && f[2] == 'd' && f[3] == 's' && f.len() == 4);
    let g = "dst "@;
    assert(g[0] == 'd' && g[1] == 's' && g[2] == 't' && g[3] == ' ' && g.len() == 4);
    let h = "dstb"@;
    assert(h[0] == 'd' && h[1] == 's' && h[2] == 't' && h[3] == 'b' && h.len() == 4);
}

/// An email address is found exactly where, up to white space, the text is
/// one: letters, digits and the four marks before the at sign, a domain with
/// a dot after it, and not too long. What is found is the whole address.
pub proof fn law_email(s: Seq<char>, t: Seq<char>)
    requires
        core_of(s, t),
    ensures
        project::email_in(s) == Some(t) <==> exists|at: int| #[trigger] address_at(t, at),
        project::email_in(s) is Some ==> project::email_in(s) == Some(t),
{
    lemma_core(s, t);
    texts::law_cut(t, '@');
    if exists|at: int| #[trigger] address_at(t, at) {
        let at = choose|at: int| #[trigger] address_at(t, at);
        let local = t.take(at);
        let dom = t.skip(at + 1);
        assert(t =~= local + seq!['@'] + dom);
        assert forall|i: int| 0 <= i < local.len() implies chars::alphanumeric(#[trigger] local[i])
            || "._+-"@.contains(local[i]) by {
            assert(local_char(t[i]));
            lemma_extras(t[i]);
        }
        assert(!local.contains('@')) by {
            if local.contains('@') {
                let i = choose|i: int| 0 <= i < local.len() && local[i] == '@';
                assert(local_char(t[i]));
            }
        }
        texts::lemma_cut_is(t, '@', local, dom);
        assert forall|i: int| 0 <= i < dom.len() implies chars::alphanumeric(#[trigger] dom[i])
            || ".-"@.contains(dom[i]) by {
            assert(domain_char(t[at + 1 + i]));
            lemma_extras(dom[i]);
        }
        let j = choose|j: int| at < j < t.len() && #[trigger] t[j] == '.';
        assert(dom[j - at - 1] == '.');
    }
    if project::email_in(s) == Some(t) {
        let (local, dom) = strs::cut(t, '@')->0;
        let at = local.len() as int;
        assert(t[at] == '@');
        assert forall|i: int| 0 <= i < at implies local_char(#[trigger] t[i]) by {
            assert(t[i] == local[i]);
            lemma_extras(local[i]);
        }
        assert forall|i: int| at < i < t.len() implies domain_char(#[trigger] t[i]) by {
            assert(t[i] == dom[i - at - 1]);
            lemma_extras(t[i]);
        }
        let j = choose|j: int| 0 <= j < dom.len() && dom[j] == '.';
        assert(t[at + 1 + j] == '.');
        assert(address_at(t, at));
    }
}

/// The digits of a number below a hundred, added up.
pub open spec fn digits_added(n: int) -> int {
    n / 10 + n % 10
}

/// What the digit at `i` of a card number adds: counted from the right, every
/// second one is doubled and its digits added up.
pub open spec fn check_weight(s: Seq<char>, i: int) -> int {
    let d = s[i] as int - '0' as int;
    if (s.len() - i) % 2 == 0 {
        digits_added(2 * d)
    } else {
        d
    }
}

/// What the first `n` digits add.
pub open spec fn check_sum(s: Seq<char>, n: int) -> int
    decreases n,
{
    if n <= 0 {
        0
    } else {
        check_sum(s, n - 1) + check_weight(s, n - 1)
    }
}

proof fn lemma_check_sum(s: Seq<char>, n: int)
    requires
        0 <= n <= s.len(),
        forall|i: int| 0 <= i < s.len() ==> '0' <= #[trigger] s[i] <= '9',
    ensures
        project::luhn_sum(s.take(n), (s.len() - n) % 2 == 1) == check_sum(s, n),
    decreases n,
{
    if n > 0 {
        lemma_check_sum(s, n - 1);
        assert(s.take(n).drop_last() =~= s.take(n - 1));
        assert('0' <= s[n - 1] <= '9');
        assert(s.take(n).last() == s[n - 1]);
    }
}

/// A card number is found exactly where, up to white space, the text is 13 to
/// 19 digits whose check sum is a multiple of ten.
pub proof fn law_card_number(s: Seq<char>, t: Seq<char>)
    requires
        core_of(s, t),
    ensures
        project::card_in(s) == Some(t) <==> 13 <= t.len() <= 19 && (forall|i: int|
            0 <= i < t.len() ==> '0' <= #[trigger] t[i] <= '9') && check_sum(t, t.len() as int) % 10
            == 0,
        project::card_in(s) is Some ==> project::card_in(s) == Some(t),
{
    lemma_core(s, t);
    if forall|i: int| 0 <= i < t.len() ==> '0' <= #[trigger] t[i] <= '9' {
        lemma_check_sum(t, t.len() as int);
        assert(t.take(t.len() as int) =~= t);
        assert(strs::all_digits(t));
    }
    if project::card_in(s) is Some {
        assert forall|i: int| 0 <= i < t.len() implies '0' <= #[trigger] t[i] <= '9' by {
            assert(chars::digit(t[i]));
        }
    }
}

/// A project id: eight small letters and digits, of both at least one.
pub proof fn law_project_id(s: Seq<char>)
    ensures
        project::project_id(s) <==> s.len() == 8 && (forall|i: int|
            0 <= i < 8 ==> ('a' <= #[trigger] s[i] <= 'z' || '0' <= s[i] <= '9')) && (exists|i: int|
            0 <= i < 8 && '0' <= #[trigger] s[i] <= '9') && (exists|i: int|
            0 <= i < 8 && 'a' <= #[trigger] s[i] <= 'z'),
{
    if s.len() == 8 {
        if exists|i: int| 0 <= i < 8 && '0' <= #[trigger] s[i] <= '9' {
            let i = choose|i: int| 0 <= i < 8 && '0' <= #[trigger] s[i] <= '9';
            assert(chars::digit(s[i]));
        }
        if exists|i: int| 0 <= i < 8 && 'a' <= #[trigger] s[i] <= 'z' {
            let i = choose|i: int| 0 <= i < 8 && 'a' <= #[trigger] s[i] <= 'z';
            assert(chars::alphabetic(s[i]));
        }
        if project::project_id(s) {
            assert forall|i: int| 0 <= i < 8 implies ('a' <= #[trigger] s[i] <= 'z' || '0' <= s[i]
                <= '9') by {
                assert(chars::lowercase(s[i]) || chars::digit(s[i]));
            }
            let i = choose|i: int| 0 <= i < s.len() && chars::digit(#[trigger] s[i]);
            assert('0' <= s[i] <= '9');
            let j = choose|j: int| 0 <= j < s.len() && chars::alphabetic(#[trigger] s[j]);
            assert('a' <= s[j] <= 'z');
        }
    }
}

/// A parameter name takes at most 64 bytes; up to white space it is letters,
/// digits and five marks, at least one of them.
pub proof fn law_param_name(s: Seq<char>, t: Seq<char>)
    requires
        core_of(s, t),
    ensures
        project::param_name(s) <==> strs::utf8_len(s) <= 64 && t.len() > 0 && (forall|i: int|
            0 <= i < t.len() ==> (letter_or_digit(#[trigger] t[i]) || t[i] == '_' || t[i] == '-'
                || t[i] == '.' || t[i] == '*' || t[i] == ':')),
{
    lemma_core(s, t);
    assert forall|i: int| 0 <= i < t.len() implies (chars::alphanumeric(#[trigger] t[i])
        || "_-.*:"@.contains(t[i])) == (letter_or_digit(t[i]) || t[i] == '_' || t[i] == '-' || t[i]
        == '.' || t[i] == '*' || t[i] == ':') by {
        lemma_extras(t[i]);
    }
    if strs::word_of(t, "_-.*:"@) {
        assert forall|i: int| 0 <= i < t.len() implies (letter_or_digit(#[trigger] t[i]) || t[i]
            == '_' || t[i] == '-' || t[i] == '.' || t[i] == '*' || t[i] == ':') by {
            assert(chars::alphanumeric(t[i]) || "_-.*:"@.contains(t[i]));
        }
    }
}

/// The text behind one type tag, where there is one.
pub open spec fn behind_tag(t: Seq<char>, tags: Seq<char>) -> Seq<char> {
    if t.len() > 0 && (exists|k: int| 0 <= k < tags.len() && #[trigger] tags[k] == t[0]) {
        t.skip(1)
    } else {
        t
    }
}

proof fn lemma_behind_tag(t: Seq<char>, tags: Seq<char>)
    ensures
        strs::untagged(t, tags) == behind_tag(t, tags),
{
}

/// Parts with a character between them, which none of them holds, are `t`.
pub open spec fn made_of(t: Seq<char>, parts: Seq<Seq<char>>, c: char) -> bool {
    &&& parts.len() > 0
    &&& strs::joined(parts, seq![c]) == t
    &&& forall|i: int| 0 <= i < parts.len() ==> !(#[trigger] parts[i]).contains(c)
}

/// Up to white space, one to eight letters.
pub open spec fn short_word(x: Seq<char>) -> bool {
    exists|w: Seq<char>| #[trigger]
        core_of(x, w) && 0 < w.len() <= 8 && (forall|i: int| 0 <= i < w.len() ==> letter(#[trigger] w[i]))
}

proof fn lemma_short_word(x: Seq<char>)
    ensures
        project::extension(x) <==> short_word(x),
{
    let t = strs::trimmed(x);
    lemma_core(x, t);
    if project::extension(x) {
        assert forall|i: int| 0 <= i < t.len() implies letter(#[trigger] t[i]) by {
            assert(chars::alphabetic(t[i]));
        }
    }
    if short_word(x) {
        let w = choose|w: Seq<char>| #[trigger]
            core_of(x, w) && 0 < w.len() <= 8 && (forall|i: int|
                0 <= i < w.len() ==> letter(#[trigger] w[i]));
        lemma_core(x, w);
        assert forall|i: int| 0 <= i < t.len() implies chars::alphabetic(#[trigger] t[i]) by {
            assert(letter(w[i]));
        }
    }
}

/// At least three short words with commas between them.
pub open spec fn word_list(t: Seq<char>, parts: Seq<Seq<char>>) -> bool {
    &&& made_of(t, parts, ',')
    &&& parts.len() >= 3
    &&& forall|i: int| 0 <= i < parts.len() ==> short_word(#[trigger] parts[i])
}

/// A list of file extensions is found exactly where, up to white space and
/// behind a type tag, the text is three or more short words with commas
/// between them. What is found is the whole list.
pub proof fn law_extensions(s: Seq<char>, core: Seq<char>)
    requires
        core_of(s, core),
    ensures
        ({
            let t = behind_tag(core, seq!['d', 's', 't', 'b']);
            &&& project::extensions_in(s) == Some(t) <==> exists|parts: Seq<Seq<char>>| #[trigger]
                word_list(t, parts)
            &&& project::extensions_in(s) is Some ==> project::extensions_in(s) == Some(t)
        }),
{
    let t = behind_tag(core, seq!['d', 's', 't', 'b']);
    reveal_strlit("dstb");
    assert("dstb"@ =~= seq!['d', 's', 't', 'b']);
    lemma_core(s, core);
    lemma_behind_tag(core, "dstb"@);
    let parts = strs::fields(t, ',');
    texts::law_fields(t, ',');
    if exists|parts: Seq<Seq<char>>| #[trigger] word_list(t, parts) {
        let list = choose|parts: Seq<Seq<char>>| #[trigger] word_list(t, parts);
        texts::lemma_fields_are(t, ',', list);
        assert forall|i: int| 0 <= i < parts.len() implies project::extension(
            #[trigger] parts[i],
        ) by {
            assert(short_word(list[i]));
            lemma_short_word(parts[i]);
        }
    }
    if project::extensions_in(s) is Some {
        assert forall|i: int| 0 <= i < parts.len() implies short_word(#[trigger] parts[i]) by {
            assert(project::extension(parts[i]));
            lemma_short_word(parts[i]);
        }
        assert(word_list(t, parts));
    }
}

/// A label of a host name: letters, digits and hyphens, 1 to 63 of them, with
/// no hyphen at either end.
pub open spec fn is_label(x: Seq<char>) -> bool {
    &&& 1 <= x.len() <= 63
    &&& forall|i: int| 0 <= i < x.len() ==> letter_or_digit(#[trigger] x[i]) || x[i] == '-'
    &&& x[0] != '-'
    &&& x[x.len() - 1] != '-'
}

pub proof fn lemma_label(x: Seq<char>)
    ensures
        strs::host_label(x) <==> is_label(x),
{
    if strs::host_label(x) {
        assert forall|i: int| 0 <= i < x.len() implies letter_or_digit(#[trigger] x[i]) || x[i]
            == '-' by {
            assert(chars::alphanumeric(x[i]) || "-"@.contains(x[i]));
            lemma_extras(x[i]);
        }
    }
    if is_label(x) {
        assert forall|i: int| 0 <= i < x.len() implies chars::alphanumeric(#[trigger] x[i])
            || "-"@.contains(x[i]) by {
            assert(letter_or_digit(x[i]) || x[i] == '-');
            lemma_extras(x[i]);
        }
    }
}

/// At least two labels with dots between them.
pub open spec fn dotted_labels(t: Seq<char>, parts: Seq<Seq<char>>) -> bool {
    &&& made_of(t, parts, '.')
    &&& parts.len() >= 2
    &&& forall|i: int| 0 <= i < parts.len() ==> is_label(#[trigger] parts[i])
}

pub proof fn lemma_dotted(t: Seq<char>)
    ensures
        t.contains('.') && strs::host_labels(strs::fields(t, '.')) <==> exists|
            parts: Seq<Seq<char>>,
        | #[trigger] dotted_labels(t, parts),
{
    let parts = strs::fields(t, '.');
    texts::law_fields(t, '.');
    if exists|parts: Seq<Seq<char>>| #[trigger] dotted_labels(t, parts) {
        let list = choose|parts: Seq<Seq<char>>| #[trigger] dotted_labels(t, parts);
        texts::lemma_fields_are(t, '.', list);
        assert forall|i: int| 0 <= i < parts.len() implies strs::host_label(#[trigger] parts[i]) by {
            assert(is_label(list[i]));
            lemma_label(parts[i]);
        }
        assert(t[list[0].len() as int] == '.');
    }
    if t.contains('.') && strs::host_labels(parts) {
        assert forall|i: int| 0 <= i < parts.len() implies is_label(#[trigger] parts[i]) by {
            assert(strs::host_label(parts[i]));
            lemma_label(parts[i]);
        }
        if parts.len() == 1 {
            assert(parts[0] == t);
        }
        assert(dotted_labels(t, parts));
    }
}

/// A host name is, up to white space and behind a type tag, two or more
/// labels with dots between them, of at most 253 characters in all.
pub proof fn law_hostname(s: Seq<char>, core: Seq<char>)
    requires
        core_of(s, core),
    ensures
        ({
            let t = behind_tag(core, seq![' ', 't', 'd', 's']);
            project::hostname(s) <==> t.len() <= 253 && exists|parts: Seq<Seq<char>>| #[trigger]
                dotted_labels(t, parts)
        }),
{
    let t = behind_tag(core, seq![' ', 't', 'd', 's']);
    reveal_strlit(" tds");
    assert(" tds"@ =~= seq![' ', 't', 'd', 's']);
    lemma_core(s, core);
    lemma_behind_tag(core, " tds"@);
    lemma_dotted(t);
}

/// What only the blobs of issues say.
pub open spec fn issue_words() -> Seq<Seq<char>> {
    seq![
        "Severity"@,
        "Confidence"@,
        "Cross-site scripting"@,
        "Cross-origin"@,
        "SQL injection"@,
        "Open redirection"@,
        "Content Security Policy"@,
        "form hijacking"@,
        "unsafe-inline"@,
        "unsafe-eval"@,
    ]
}

/// Parameters that scanner configurations name.
pub open spec fn scanner_words() -> Seq<Seq<char>> {
    seq![
        "jsessionid"@,
        "phpsessid"@,
        "cfid"@,
        "cftoken"@,
        "__viewstate"@,
        "__eventargument"@,
        "__eventvalidation"@,
    ]
}

/// `s` is `w`, but for the case of its letters; `w` has no capitals.
pub open spec fn same_but_case(s: Seq<char>, w: Seq<char>) -> bool {
    &&& s.len() == w.len()
    &&& forall|i: int|
        0 <= i < s.len() ==> w[i] as u32 == if 'A' <= #[trigger] s[i] <= 'Z' {
            s[i] as u32 + 32
        } else {
            s[i] as int
        }
}

pub open spec fn scanner_word(s: Seq<char>) -> bool {
    exists|j: int| 0 <= j < scanner_words().len() && same_but_case(s, #[trigger] scanner_words()[j])
}

proof fn lemma_same_char(a: char, b: char)
    ensures
        a as u32 == b as u32 ==> a == b,
{
}

proof fn lemma_same_but_case(s: Seq<char>, w: Seq<char>)
    ensures
        strs::lower_text(s) == w <==> same_but_case(s, w),
{
    let l = strs::lower_text(s);
    if same_but_case(s, w) {
        assert forall|i: int| 0 <= i < s.len() implies l[i] == w[i] by {
            texts::law_character_classes(s[i]);
            assert('A' <= s[i] <= 'Z' <==> 0x41 <= s[i] as u32 <= 0x5a);
            lemma_same_char(chars::lowered(s[i]), w[i]);
        }
        assert(l =~= w);
    }
    if l == w {
        assert forall|i: int| 0 <= i < s.len() implies w[i] as u32 == if 'A' <= #[trigger] s[i]
            <= 'Z' {
            s[i] as u32 + 32
        } else {
            s[i] as int
        } by {
            texts::law_character_classes(s[i]);
            assert(l[i] == chars::lowered(s[i]));
        }
    }
}

/// What marks a text as issue prose, as a parameter of a scanner, as a live
/// task or as a scope rule.
pub proof fn law_sentinels(s: Seq<char>)
    ensures
        project::issue_sentinel(s) <==> holds_one(s, issue_words()),
        project::scanner_sentinel(s) <==> scanner_word(s),
        project::live_task(s) <==> holds(s, "Proxy (all traffic)"@) || holds(s, "Audit checks"@),
        project::scope_rule(s) <==> holds(s, "return true;"@) || holds(s, "return false;"@),
{
    let w = issue_words();
    assert forall|j: int| 0 <= j < w.len() implies holds(s, #[trigger] w[j]) == strs::has(
        s,
        w[j],
    ) by {
        lemma_holds(s, w[j]);
    }
    assert(holds(s, w[0]) == strs::has(s, "Severity"@));
    assert(holds(s, w[1]) == strs::has(s, "Confidence"@));
    assert(holds(s, w[2]) == strs::has(s, "Cross-site scripting"@));
    assert(holds(s, w[3]) == strs::has(s, "Cross-origin"@));
    assert(holds(s, w[4]) == strs::has(s, "SQL injection"@));
    assert(holds(s, w[5]) == strs::has(s, "Open redirection"@));
    assert(holds(s, w[6]) == strs::has(s, "Content Security Policy"@));
    assert(holds(s, w[7]) == strs::has(s, "form hijacking"@));
    assert(holds(s, w[8]) == strs::has(s, "unsafe-inline"@));
    assert(holds(s, w[9]) == strs::has(s, "unsafe-eval"@));
    let n = scanner_words();
    let l = strs::lower_text(s);
    assert forall|j: int| 0 <= j < n.len() implies same_but_case(s, #[trigger] n[j]) == (l
        == n[j]) by {
        lemma_same_but_case(s, n[j]);
    }
    assert(same_but_case(s, n[0]) == (l == "jsessionid"@));
    assert(same_but_case(s, n[1]) == (l == "phpsessid"@));
    assert(same_but_case(s, n[2]) == (l == "cfid"@));
    assert(same_but_case(s, n[3]) == (l == "cftoken"@));
    assert(same_but_case(s, n[4]) == (l == "__viewstate"@));
    assert(same_but_case(s, n[5]) == (l == "__eventargument"@));
    assert(same_but_case(s, n[6]) == (l == "__eventvalidation"@));
    lemma_holds(s, "Proxy (all traffic)"@);
    lemma_holds(s, "Audit checks"@);
    lemma_holds(s, "return true;"@);
    lemma_holds(s, "return false;"@);
}

proof fn lemma_counts(v: Seq<Seq<char>>, n: nat)
    requires
        n <= v.len(),
    ensures
        project::scanner_hits(v.take(n as int)) == kinds::count_where(
            n,
            |i: int| project::scanner_sentinel(v[i]),
        ),
        project::hostnames(v.take(n as int)) == kinds::count_where(
            n,
            |i: int| project::hostname(v[i]),
        ),
    decreases n,
{
    if n > 0 {
        lemma_counts(v, (n - 1) as nat);
        assert(v.take(n as int).drop_last() =~= v.take(n - 1));
        assert(v.take(n as int).last() == v[n - 1]);
    }
}

/// The role of a blob: one text with an issue word makes it issues; else
/// three parameters of scanners make it a scanner configuration; else one live
/// task, or one scope rule, or ten host names decide, in this order.
pub proof fn law_roles(v: Seq<Seq<char>>)
    ensures
        ({
            let issues = exists|i: int| 0 <= i < v.len() && project::issue_sentinel(#[trigger] v[i]);
            let scanner = kinds::count_where(
                v.len(),
                |i: int| project::scanner_sentinel(v[i]),
            ) >= 3;
            let tasks = exists|i: int| 0 <= i < v.len() && project::live_task(#[trigger] v[i]);
            let scope = exists|i: int| 0 <= i < v.len() && project::scope_rule(#[trigger] v[i]);
            let sites = kinds::count_where(v.len(), |i: int| project::hostname(v[i])) >= 10;
            let r = project::role_of(v);
            &&& r == BlobRole::Issues <==> issues
            &&& r == BlobRole::ScannerConfig <==> scanner && !issues
            &&& r == BlobRole::LiveTasks <==> tasks && !scanner && !issues
            &&& r == BlobRole::Scope <==> scope && !tasks && !scanner && !issues
            &&& r == BlobRole::Sitemap <==> sites && !scope && !tasks && !scanner && !issues
        }),
{
    lemma_counts(v, v.len());
    assert(v.take(v.len() as int) =~= v);
}

/// What the texts of a scope blob add to its lists: a rule goes with the side
/// it is for, behind its tag, and as it stands to the raw rules.
pub proof fn law_scope_rules(role: BlobRole, s: Seq<char>)
    ensures
        ({
            let rule = behind_tag(s, seq!['d', 's', 't', ' ']);
            let inside = role == BlobRole::Scope && holds(s, "return true;"@);
            let outside = role == BlobRole::Scope && holds(s, "return false;"@) && !inside;
            let includes = project::given_to(role, s, project::TextList::ScopeIncludes);
            let excludes = project::given_to(role, s, project::TextList::ScopeExcludes);
            let raw = project::given_to(role, s, project::TextList::ScopeRules);
            &&& inside ==> includes == Some(rule)
            &&& !inside ==> includes is None
            &&& outside ==> excludes == Some(rule)
            &&& !outside ==> excludes is None
            &&& inside || outside ==> raw == Some(s)
            &&& !inside && !outside ==> raw is None
        }),
{
    reveal_strlit("dst ");
    assert("dst "@ =~= seq!['d', 's', 't', ' ']);
    lemma_behind_tag(s, "dst "@);
    lemma_holds(s, "return true;"@);
    lemma_holds(s, "return false;"@);
}

/// A live task is listed without the white space at its ends, and only for a
/// blob of live tasks.
pub proof fn law_task_listed(role: BlobRole, s: Seq<char>, core: Seq<char>)
    requires
        core_of(s, core),
    ensures
        ({
            let task = role == BlobRole::LiveTasks && (holds(s, "Proxy (all traffic)"@) || holds(
                s,
                "Audit checks"@,
            ));
            let tasks = project::given_to(role, s, project::TextList::Tasks);
            &&& task ==> tasks == Some(core)
            &&& !task ==> tasks is None
        }),
{
    lemma_core(s, core);
    lemma_holds(s, "Proxy (all traffic)"@);
    lemma_holds(s, "Audit checks"@);
}

/// A parameter name is listed as it stands, and only for the configuration of
/// a scanner.
pub proof fn law_parameter_listed(role: BlobRole, s: Seq<char>)
    ensures
        ({
            let named = role == BlobRole::ScannerConfig && project::param_name(s);
            let params = project::given_to(role, s, project::TextList::Parameters);
            &&& named ==> params == Some(s)
            &&& !named ==> params is None
        }),
{
}

proof fn lemma_id_is_trimmed(s: Seq<char>)
    requires
        project::project_id(s),
    ensures
        strs::trimmed(s) == s,
{
    assert(chars::lowercase(s[0]) || chars::digit(s[0]));
    assert(chars::lowercase(s[7]) || chars::digit(s[7]));
    assert(s.subrange(0, 8) =~= s);
    assert(texts::is_core(s, s, 0, 8));
    texts::lemma_trimmed_is(s, s, 0, 8);
}

/// A project id is listed as it stands, whatever the blob is for.
pub proof fn law_project_id_listed(role: BlobRole, s: Seq<char>)
    ensures
        ({
            let ids = project::given_to(role, s, project::TextList::ProjectIds);
            &&& project::project_id(s) ==> ids == Some(s)
            &&& !project::project_id(s) ==> ids is None
        }),
{
    if project::project_id(s) {
        lemma_id_is_trimmed(s);
    }
}

/// The texts of a blob are its UTF-16BE runs of three characters or more. Its
/// entry in the index has its place and size, counts the texts, and shows the
/// first, as far as that goes into 80 bytes.
pub proof fn law_blob_entry(b: project::Blob) -> (at: Seq<int>)
    ensures
        ({
            let v = project::blob_texts(b);
            let m = project::meta_of(b);
            let t = m.first_token;
            &&& runs::in_order(at, 0)
            &&& runs::are_wide_runs(b.payload, at, v, 3)
            &&& forall|a: int, n: int| #[trigger]
                runs::wide_run_at(b.payload, a, n) && n >= 3 ==> at.contains(a)
            &&& m.offset == b.offset
            &&& m.size == b.size
            &&& m.role == project::role_of(v)
            &&& m.string_count == v.len()
            &&& v.len() == 0 ==> t.len() == 0
            &&& v.len() > 0 ==> t.len() <= v[0].len() && t == v[0].take(t.len() as int)
                && strs::utf8_len(t) <= 80
            &&& v.len() > 0 && t.len() < v[0].len() ==> strs::utf8_len(
                v[0].take(t.len() as int + 1),
            ) > 80
        }),
{
    let v = project::blob_texts(b);
    if v.len() > 0 {
        strs::law_clipped(v[0], 80);
    }
    runs::law_wide_runs(b.payload, 3)
}

} // verus!
