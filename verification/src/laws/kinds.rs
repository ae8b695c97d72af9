//! What the kinds of payloads mean, by the bytes that they hold.

use vstd::prelude::*;

use crate::bytes;
use crate::classify;
use crate::classify::Kind;
use crate::strs;

verus! {

/// A byte of ASCII text: printable, a tab or a line break.
pub open spec fn plain(b: u8) -> bool {
    b == 0x09 || b == 0x0a || b == 0x0d || 0x20 <= b <= 0x7e
}

/// How many numbers below `n` pass a test.
pub open spec fn count_where(n: nat, f: spec_fn(int) -> bool) -> nat
    decreases n,
{
    if n == 0 {
        0
    } else {
        count_where((n - 1) as nat, f) + if f(n - 1) {
            1nat
        } else {
            0
        }
    }
}

pub open spec fn starts<A>(p: Seq<A>, m: Seq<A>) -> bool {
    m.len() <= p.len() && p.take(m.len() as int) == m
}

/// The payload starts with GET, POST, PUT, DELETE, HEAD, OPTIONS, PATCH,
/// CONNECT or TRACE, and a space.
pub open spec fn starts_with_a_method(p: Seq<u8>) -> bool {
    ||| starts(p, seq![0x47, 0x45, 0x54, 0x20])
    ||| starts(p, seq![0x50, 0x4f, 0x53, 0x54, 0x20])
    ||| starts(p, seq![0x50, 0x55, 0x54, 0x20])
    ||| starts(p, seq![0x44, 0x45, 0x4c, 0x45, 0x54, 0x45, 0x20])
    ||| starts(p, seq![0x48, 0x45, 0x41, 0x44, 0x20])
    ||| starts(p, seq![0x4f, 0x50, 0x54, 0x49, 0x4f, 0x4e, 0x53, 0x20])
    ||| starts(p, seq![0x50, 0x41, 0x54, 0x43, 0x48, 0x20])
    ||| starts(p, seq![0x43, 0x4f, 0x4e, 0x4e, 0x45, 0x43, 0x54, 0x20])
    ||| starts(p, seq![0x54, 0x52, 0x41, 0x43, 0x45, 0x20])
}

/// The first line break of a payload stands at `e`.
pub open spec fn first_break_at(p: Seq<u8>, e: int) -> bool {
    &&& 0 <= e < p.len()
    &&& p[e] == 0x0a || p[e] == 0x0d
    &&& forall|j: int| 0 <= j < e ==> #[trigger] p[j] != 0x0a && p[j] != 0x0d
}

/// " HTTP/" in bytes.
pub open spec fn http_mark() -> Seq<u8> {
    seq![0x20, 0x48, 0x54, 0x54, 0x50, 0x2f]
}

/// " HTTP/" stands at `k`, with one more byte before `e`.
pub open spec fn versioned(p: Seq<u8>, k: int, e: int) -> bool {
    0 <= k && k + 6 < e && p.subrange(k, k + 6) == http_mark()
}

/// The first line ends at `e` and names a version.
pub open spec fn request_line_to(p: Seq<u8>, e: int) -> bool {
    first_break_at(p, e) && e < 8192 && exists|k: int| versioned(p, k, e)
}

proof fn lemma_line_end(p: Seq<u8>, i: int, end: int)
    requires
        0 <= i <= end <= p.len(),
    ensures
        classify::line_end_from(p, i, end) matches Some(e) ==> i <= e < end && (p[e] == 10 || p[e]
            == 13) && (forall|j: int| i <= j < e ==> #[trigger] p[j] != 10 && p[j] != 13),
        classify::line_end_from(p, i, end) is None ==> (forall|j: int|
            i <= j < end ==> #[trigger] p[j] != 10 && p[j] != 13),
    decreases end - i,
{
    if i < end && p[i] != 10 && p[i] != 13 {
        lemma_line_end(p, i + 1, end);
    }
}

proof fn lemma_request_line(p: Seq<u8>)
    ensures
        classify::request_line(p) <==> exists|e: int| request_line_to(p, e),
{
    let mark = bytes::utf8(" HTTP/"@);
    reveal_strlit(" HTTP/");
    assert(vstd::utf8::is_ascii_chars(" HTTP/"@));
    vstd::utf8::is_ascii_chars_encode_utf8(" HTTP/"@);
    assert(mark =~= http_mark());
    let end = classify::least(p.len() as int, 8192);
    lemma_line_end(p, 0, end);
    match classify::line_end_from(p, 0, end) {
        Some(e) => {
            let line = p.take(e);
            strs::lemma_first_of(line, mark);
            if classify::request_line(p) {
                let k = strs::first_of(line, mark)->0;
                assert(p.subrange(k, k + 6) =~= line.subrange(k, k + 6));
                assert(versioned(p, k, e));
                assert(request_line_to(p, e));
            }
            if exists|e: int| request_line_to(p, e) {
                let d = choose|e: int| request_line_to(p, e);
                if d < e {
                    assert(p[d] != 10 && p[d] != 13);
                }
                if e < d {
                    assert(p[e] != 10 && p[e] != 13);
                }
                let k = choose|k: int| versioned(p, k, d);
                assert(line.subrange(k, k + 6) =~= p.subrange(k, k + 6));
                assert(strs::occurs_at(line, mark, k));
            }
        },
        None => {
            if exists|e: int| request_line_to(p, e) {
                let d = choose|e: int| request_line_to(p, e);
                assert(p[d] != 10 && p[d] != 13);
            }
        },
    }
}

proof fn lemma_starts(p: Seq<u8>, text: Seq<char>, m: Seq<u8>)
    requires
        vstd::utf8::is_ascii_chars(text),
        text.len() == m.len(),
        forall|i: int| 0 <= i < m.len() ==> text[i] as u8 == #[trigger] m[i],
    ensures
        strs::prefixed(p, bytes::utf8(text)) <==> starts(p, m),
{
    vstd::utf8::is_ascii_chars_encode_utf8(text);
    let u = bytes::utf8(text);
    assert forall|i: int| 0 <= i < m.len() implies u[i] == #[trigger] m[i] by {
        assert(text[i] as u8 == m[i]);
        assert(text[i] as u8 == u[i]);
    }
    assert(u =~= m);
    if m.len() <= p.len() {
        assert(p.subrange(0, m.len() as int) =~= p.take(m.len() as int));
    }
}

proof fn lemma_methods(p: Seq<u8>)
    ensures
        classify::starts_with_method(p) <==> starts_with_a_method(p),
        starts_with_a_method(p) ==> !strs::prefixed(p, bytes::utf8("HTTP/"@)),
        strs::prefixed(p, bytes::utf8("HTTP/"@)) <==> starts(p, seq![0x48, 0x54, 0x54, 0x50, 0x2f]),
{
    reveal_strlit("GET ");
    reveal_strlit("POST ");
    reveal_strlit("PUT ");
    reveal_strlit("DELETE ");
    reveal_strlit("HEAD ");
    reveal_strlit("OPTIONS ");
    reveal_strlit("PATCH ");
    reveal_strlit("CONNECT ");
    reveal_strlit("TRACE ");
    reveal_strlit("HTTP/");
    lemma_starts(p, "GET "@, seq![0x47, 0x45, 0x54, 0x20]);
    lemma_starts(p, "POST "@, seq![0x50, 0x4f, 0x53, 0x54, 0x20]);
    lemma_starts(p, "PUT "@, seq![0x50, 0x55, 0x54, 0x20]);
    lemma_starts(p, "DELETE "@, seq![0x44, 0x45, 0x4c, 0x45, 0x54, 0x45, 0x20]);
    lemma_starts(p, "HEAD "@, seq![0x48, 0x45, 0x41, 0x44, 0x20]);
    lemma_starts(p, "OPTIONS "@, seq![0x4f, 0x50, 0x54, 0x49, 0x4f, 0x4e, 0x53, 0x20]);
    lemma_starts(p, "PATCH "@, seq![0x50, 0x41, 0x54, 0x43, 0x48, 0x20]);
    lemma_starts(p, "CONNECT "@, seq![0x43, 0x4f, 0x4e, 0x4e, 0x45, 0x43, 0x54, 0x20]);
    lemma_starts(p, "TRACE "@, seq![0x54, 0x52, 0x41, 0x43, 0x45, 0x20]);
    let http = seq![0x48u8, 0x54, 0x54, 0x50, 0x2f];
    lemma_starts(p, "HTTP/"@, http);
    if starts(p, http) {
        assert(p.take(5)[0] == p[0] && p.take(5)[1] == p[1]);
        assert(p[0] == 0x48 && p[1] == 0x54);
        if starts_with_a_method(p) {
            assert(p.take(5)[1] == p[1]);
            assert(p.take(4)[0] == p[0]);
            assert(p.len() >= 6 ==> p.take(6)[0] == p[0]);
            assert(p.len() >= 7 ==> p.take(7)[0] == p[0]);
            assert(p.len() >= 8 ==> p.take(8)[0] == p[0]);
            assert(false);
        }
    }
}

/// Every payload that is a request is taken for one, however long its first
/// line, up to the 8192 bytes that are looked at; and nothing else is: more
/// than eight bytes, a method and a space in front, a first line that ends
/// among the first 8192 bytes, and in it " HTTP/" and something after it.
pub proof fn law_request_kind(p: Seq<u8>)
    ensures
        classify::kind_of(p) == Kind::HttpRequest <==> {
            &&& p.len() > 8
            &&& starts_with_a_method(p)
            &&& exists|e: int| request_line_to(p, e)
        },
{
    reveal(classify::kind_of);
    lemma_methods(p);
    lemma_request_line(p);
}

/// Every payload of more than eight bytes that starts with "HTTP/" is taken
/// for a response, and nothing else is.
pub proof fn law_response_kind(p: Seq<u8>)
    ensures
        classify::kind_of(p) == Kind::HttpResponse <==> p.len() > 8 && starts(
            p,
            seq![0x48, 0x54, 0x54, 0x50, 0x2f],
        ),
{
    reveal(classify::kind_of);
    lemma_methods(p);
}

/// A payload of at most eight bytes is an id; none at all is empty.
pub proof fn law_small_kinds(p: Seq<u8>)
    ensures
        classify::kind_of(p) == Kind::Empty <==> p.len() == 0,
        classify::kind_of(p) == Kind::SmallId <==> 1 <= p.len() <= 8,
{
    reveal(classify::kind_of);
}

/// At least four fifths of the first 512 pairs of bytes are ASCII text in one
/// byte order.
pub open spec fn wide_text(p: Seq<u8>) -> bool {
    let n = if p.len() / 2 <= 512 {
        p.len() / 2
    } else {
        512
    };
    let le = count_where(n, |i: int| plain(p[2 * i]) && p[2 * i + 1] == 0);
    let be = count_where(n, |i: int| p[2 * i] == 0 && plain(p[2 * i + 1]));
    p.len() >= 16 && (5 * le >= 4 * n || 5 * be >= 4 * n)
}

pub open spec fn lesser(a: int, b: int) -> int {
    if a <= b {
        a
    } else {
        b
    }
}

/// Four UTF-16BE text characters stand at `a`.
pub open spec fn window_at(p: Seq<u8>, a: int) -> bool {
    forall|k: int|
        #![trigger p[a + 2 * k]]
        0 <= k < 4 ==> p[a + 2 * k] == 0 && plain(p[a + 2 * k + 1])
}

/// Four windows, one behind the other, end by `end`.
pub open spec fn four_windows(p: Seq<u8>, a: int, b: int, c: int, d: int, end: int) -> bool {
    &&& 0 <= a && a + 8 <= b && b + 8 <= c && c + 8 <= d && d + 8 <= end
    &&& window_at(p, a) && window_at(p, b) && window_at(p, c) && window_at(p, d)
}

/// At least 256 bytes, with four windows of UTF-16BE text among the first
/// 8192.
pub open spec fn binary_with_texts(p: Seq<u8>) -> bool {
    p.len() >= 256 && exists|a: int, b: int, c: int, d: int|
        four_windows(p, a, b, c, d, lesser(p.len() as int, 8192))
}

/// At least nine tenths of the first 512 bytes are ASCII text.
pub open spec fn narrow_text(p: Seq<u8>) -> bool {
    let n = if p.len() <= 512 {
        p.len()
    } else {
        512
    };
    10 * count_where(n, |i: int| plain(p[i])) >= 9 * n
}

proof fn lemma_pairs(p: Seq<u8>, n: nat)
    ensures
        classify::le_pairs(p, n) == count_where(
            n,
            |i: int| plain(p[2 * i]) && p[2 * i + 1] == 0,
        ),
        classify::be_pairs(p, n) == count_where(
            n,
            |i: int| p[2 * i] == 0 && plain(p[2 * i + 1]),
        ),
    decreases n,
{
    if n > 0 {
        lemma_pairs(p, (n - 1) as nat);
        assert(2 * (n - 1) == 2 * n - 2);
    }
}

proof fn lemma_text_bytes(p: Seq<u8>, n: nat)
    ensures
        classify::text_bytes(p, n) == count_where(n, |i: int| plain(p[i])),
    decreases n,
{
    if n > 0 {
        lemma_text_bytes(p, (n - 1) as nat);
    }
}

proof fn lemma_window(p: Seq<u8>, a: int)
    ensures
        window_at(p, a) <==> classify::quad_at(p, a),
{
    if window_at(p, a) {
        assert(p[a + 2 * 0] == 0 && plain(p[a + 2 * 0 + 1]));
        assert(p[a + 2 * 1] == 0 && plain(p[a + 2 * 1 + 1]));
        assert(p[a + 2 * 2] == 0 && plain(p[a + 2 * 2 + 1]));
        assert(p[a + 2 * 3] == 0 && plain(p[a + 2 * 3 + 1]));
    }
    if classify::quad_at(p, a) {
        assert forall|k: int|
            #![trigger p[a + 2 * k]]
            0 <= k < 4 implies p[a + 2 * k] == 0 && plain(p[a + 2 * k + 1]) by {
            assert(k == 0 || k == 1 || k == 2 || k == 3);
        }
    }
}

proof fn lemma_blob_like(p: Seq<u8>)
    ensures
        classify::state_blob_like(p) <==> binary_with_texts(p),
{
    let end = lesser(p.len() as int, 8192);
    assert(end == classify::least(p.len() as int, 8192));
    classify::law_state_blob_like(p);
    if classify::state_blob_like(p) {
        let at = choose|at: Seq<int>| at.len() == 4 && classify::disjoint_quads(p, at, 0, end);
        lemma_window(p, at[0]);
        lemma_window(p, at[1]);
        lemma_window(p, at[2]);
        lemma_window(p, at[3]);
        assert(four_windows(p, at[0], at[1], at[2], at[3], end));
    }
    if binary_with_texts(p) {
        let (a, b, c, d) = choose|a: int, b: int, c: int, d: int| four_windows(p, a, b, c, d, end);
        let at = seq![a, b, c, d];
        lemma_window(p, a);
        lemma_window(p, b);
        lemma_window(p, c);
        lemma_window(p, d);
        assert forall|k: int| 0 <= k < at.len() implies 0 <= #[trigger] at[k] && at[k] + 8 <= end
            && classify::quad_at(p, at[k]) by {
            assert(k == 0 || k == 1 || k == 2 || k == 3);
        }
        assert(at.len() == 4 && classify::disjoint_quads(p, at, 0, end));
    }
}

/// The payload, behind blanks, starts at `a` with a bracket that is closed
/// again.
pub open spec fn bracketed(p: Seq<u8>, a: int) -> bool {
    &&& 0 <= a < p.len()
    &&& p[a] == 0x7b || p[a] == 0x5b
    &&& forall|i: int|
        0 <= i < a ==> #[trigger] p[i] == 0x20 || p[i] == 0x09 || p[i] == 0x0a || p[i] == 0x0d
    &&& classify::json_like(p.skip(a))
}

proof fn lemma_unblanked(p: Seq<u8>) -> (a: int)
    ensures
        0 <= a <= p.len(),
        classify::unblanked(p) == p.skip(a),
        forall|i: int|
            0 <= i < a ==> #[trigger] p[i] == 0x20 || p[i] == 0x09 || p[i] == 0x0a || p[i] == 0x0d,
        a < p.len() ==> p[a] != 0x20 && p[a] != 0x09 && p[a] != 0x0a && p[a] != 0x0d,
    decreases p.len(),
{
    if p.len() > 0 && (p[0] == 0x20 || p[0] == 9 || p[0] == 10 || p[0] == 13) {
        let b = lemma_unblanked(p.skip(1));
        assert(p.skip(1).skip(b) =~= p.skip(b + 1));
        assert forall|i: int| 0 <= i < b + 1 implies #[trigger] p[i] == 0x20 || p[i] == 0x09 || p[i]
            == 0x0a || p[i] == 0x0d by {
            if i > 0 {
                assert(p.skip(1)[i - 1] == p[i]);
            }
        }
        b + 1
    } else {
        assert(p.skip(0) =~= p);
        0
    }
}

/// Of what is neither small nor a message, UTF-16 text comes first, then
/// binary data with texts, then brackets that close, then plain text.
pub proof fn law_other_kinds(p: Seq<u8>)
    requires
        p.len() > 8,
        classify::kind_of(p) != Kind::HttpRequest,
        classify::kind_of(p) != Kind::HttpResponse,
    ensures
        ({
            let k = classify::kind_of(p);
            let json = exists|a: int| bracketed(p, a);
            &&& k == Kind::Utf16Text <==> wide_text(p)
            &&& k == Kind::StateBlob <==> !wide_text(p) && binary_with_texts(p)
            &&& k == Kind::Json <==> !wide_text(p) && !binary_with_texts(p) && json
            &&& k == Kind::Utf8Text <==> !wide_text(p) && !binary_with_texts(p) && !json
                && narrow_text(p)
            &&& k == Kind::Unknown <==> !wide_text(p) && !binary_with_texts(p) && !json
                && !narrow_text(p)
        }),
{
    reveal(classify::kind_of);
    lemma_pairs(p, classify::least(p.len() as int / 2, 512) as nat);
    lemma_text_bytes(p, classify::least(p.len() as int, 512) as nat);
    lemma_blob_like(p);
    let a = lemma_unblanked(p);
    if a < p.len() {
        assert(p.skip(a)[0] == p[a]);
    }
    if exists|a: int| bracketed(p, a) {
        let b = choose|a: int| bracketed(p, a);
        if b < a {
            assert(p[b] == 0x20 || p[b] == 0x09 || p[b] == 0x0a || p[b] == 0x0d);
        }
        if a < b {
            assert(p[a] == 0x20 || p[a] == 0x09 || p[a] == 0x0a || p[a] == 0x0d);
        }
    }
    if classify::unblanked(p).len() > 0 && (classify::unblanked(p)[0] == 0x7b
        || classify::unblanked(p)[0] == 0x5b) && classify::json_like(classify::unblanked(p)) {
        assert(bracketed(p, a));
    }
}

/// The byte at `i` stands outside strings, where no backslash does: an even
/// number of quotes stands before it.
pub open spec fn outside(q: Seq<u8>, i: int) -> bool {
    count_where(i as nat, |j: int| q[j] == 0x22) % 2 == 0
}

/// How many of the first `n` bytes are the given one, outside strings.
pub open spec fn outside_count(q: Seq<u8>, b: u8, n: nat) -> nat {
    count_where(n, |i: int| q[i] == b && outside(q, i))
}

/// The bracket that closes one.
pub open spec fn partner(open: u8) -> u8 {
    if open == 0x7b {
        0x7d
    } else {
        0x5d
    }
}

/// At `k` a closing bracket leaves as many open as there are closed.
pub open spec fn closed_at(q: Seq<u8>, k: int, open: u8, close: u8) -> bool {
    &&& 0 <= k < q.len()
    &&& k < 0x10_0000
    &&& q[k] == close
    &&& outside(q, k)
    &&& outside_count(q, open, (k + 1) as nat) == outside_count(q, close, (k + 1) as nat)
}

proof fn lemma_closes(q: Seq<u8>, i: int, end: int, st: classify::Nesting, open: u8, close: u8)
    requires
        0 <= i <= end,
        end == classify::least(q.len() as int, 0x10_0000),
        open != close,
        open != 0x22,
        close != 0x22,
        forall|k: int| 0 <= k < q.len() ==> #[trigger] q[k] != 0x5c,
        !st.esc,
        st.in_str <==> !outside(q, i),
        st.depth == outside_count(q, open, i as nat) - outside_count(q, close, i as nat),
    ensures
        classify::closes_from(q, i, end, st, open, close) <==> exists|k: int|
            i <= k && closed_at(q, k, open, close),
    decreases end - i,
{
    if i < end {
        assert(q[i] != 0x5c);
        let next = classify::nest(st, q[i], open, close);
        let n = (i + 1) as nat;
        assert(outside_count(q, open, n) == outside_count(q, open, i as nat) + if q[i] == open
            && outside(q, i) {
            1nat
        } else {
            0
        });
        assert(outside_count(q, close, n) == outside_count(q, close, i as nat) + if q[i] == close
            && outside(q, i) {
            1nat
        } else {
            0
        });
        assert(outside(q, i + 1) <==> (outside(q, i) <==> q[i] != 0x22));
        lemma_closes(q, i + 1, end, next, open, close);
        if next.depth < st.depth && next.depth == 0 {
            assert(closed_at(q, i, open, close));
        } else if exists|k: int| i <= k && closed_at(q, k, open, close) {
            let k = choose|k: int| i <= k && closed_at(q, k, open, close);
            assert(k != i);
            assert(i + 1 <= k && closed_at(q, k, open, close));
        }
    }
}

/// A bracket is closed, in a text without backslashes, exactly where one that
/// closes it stands outside strings with as many opened as closed up to it,
/// within the first megabyte. Brackets in strings do not count.
pub proof fn law_brackets_close(q: Seq<u8>)
    requires
        q.len() > 0,
        q[0] == 0x7b || q[0] == 0x5b,
        forall|k: int| 0 <= k < q.len() ==> #[trigger] q[k] != 0x5c,
    ensures
        classify::json_like(q) <==> exists|k: int| closed_at(q, k, q[0], partner(q[0])),
{
    assert(partner(q[0]) == classify::closing(q[0]));
    let close = classify::closing(q[0]);
    let st = classify::Nesting { depth: 0, in_str: false, esc: false };
    lemma_closes(q, 0, classify::least(q.len() as int, 0x10_0000), st, q[0], close);
    if exists|k: int| closed_at(q, k, q[0], close) {
        let k = choose|k: int| closed_at(q, k, q[0], close);
        assert(0 <= k && closed_at(q, k, q[0], close));
    }
}

/// A backslash in a string guards the byte behind it: in a string, after any
/// reading, the two change nothing.
pub proof fn law_backslash_guards(st: classify::Nesting, b: u8, open: u8, close: u8)
    requires
        st.in_str,
        !st.esc,
    ensures
        classify::nest(classify::nest(st, 0x5c, open, close), b, open, close) == st,
{
}

} // verus!
