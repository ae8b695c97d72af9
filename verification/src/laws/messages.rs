//! What reading an HTTP message means.

use vstd::prelude::*;

use crate::body;
use crate::bytes;
use crate::chars;
use crate::http;
use crate::http::HttpModel;
use crate::laws::kinds;
use crate::laws::texts;
use crate::num;
use crate::strs;

verus! {

/// The first occurrence of some bytes stands at `e`.
pub open spec fn first_at(p: Seq<u8>, blank: Seq<u8>, e: int) -> bool {
    &&& 0 <= e
    &&& e + blank.len() <= p.len()
    &&& p.subrange(e, e + blank.len()) == blank
    &&& forall|j: int|
        #![trigger p.subrange(j, j + blank.len())]
        0 <= j < e ==> p.subrange(j, j + blank.len()) != blank
}

pub open spec fn nowhere(p: Seq<u8>, blank: Seq<u8>) -> bool {
    forall|j: int|
        #![trigger p.subrange(j, j + blank.len())]
        0 <= j && j + blank.len() <= p.len() ==> p.subrange(j, j + blank.len()) != blank
}

proof fn lemma_first_at(p: Seq<u8>, blank: Seq<u8>)
    ensures
        forall|e: int| #[trigger] first_at(p, blank, e) ==> strs::first_of(p, blank) == Some(e),
        nowhere(p, blank) ==> strs::first_of(p, blank) is None,
        strs::first_of(p, blank) is Some ==> first_at(p, blank, strs::first_of(p, blank)->0),
        strs::first_of(p, blank) is None ==> nowhere(p, blank),
{
    strs::lemma_first_of(p, blank);
    assert forall|e: int| #[trigger] first_at(p, blank, e) implies strs::first_of(p, blank) == Some(
        e,
    ) by {
        assert forall|j: int| 0 <= j < e implies !strs::occurs_at(p, blank, j) by {
            assert(p.subrange(j, j + blank.len()) != blank);
        }
        strs::lemma_first_at(p, blank, e);
    }
    if nowhere(p, blank) && strs::has(p, blank) {
        let j = choose|j: int| strs::occurs_at(p, blank, j);
        assert(p.subrange(j, j + blank.len()) != blank);
    }
    match strs::first_of(p, blank) {
        Some(e) => {
            assert forall|j: int|
                #![trigger p.subrange(j, j + blank.len())]
                0 <= j < e implies p.subrange(j, j + blank.len()) != blank by {
                assert(!strs::occurs_at(p, blank, j));
            }
        },
        None => {
            assert forall|j: int|
                #![trigger p.subrange(j, j + blank.len())]
                0 <= j && j + blank.len() <= p.len() implies p.subrange(j, j + blank.len())
                != blank by {
                if p.subrange(j, j + blank.len()) == blank {
                    assert(strs::occurs_at(p, blank, j));
                }
            }
        },
    }
}

/// The head of a message ends at the first blank line with carriage returns,
/// or, where there is none, at the first without; the body starts right
/// behind that line.
pub proof fn law_head_and_body(p: Seq<u8>, e: int)
    ensures
        first_at(p, seq![13, 10, 13, 10], e) ==> http::head_end(p) == Some(e) && http::body_start(p)
            == e + 4,
        nowhere(p, seq![13, 10, 13, 10]) && first_at(p, seq![10, 10], e) ==> http::head_end(p)
            == Some(e) && http::body_start(p) == e + 2,
        nowhere(p, seq![13, 10, 13, 10]) && nowhere(p, seq![10, 10]) ==> http::head_end(p) is None,
        http::head_end(p) matches Some(h) ==> first_at(p, seq![13, 10, 13, 10], h) || (nowhere(
            p,
            seq![13, 10, 13, 10],
        ) && first_at(p, seq![10, 10], h)),
{
    lemma_first_at(p, seq![13, 10, 13, 10]);
    lemma_first_at(p, seq![10, 10]);
    assert(http::crlf_crlf() =~= seq![13, 10, 13, 10]);
    assert(http::lf_lf() =~= seq![10, 10]);
}

/// The body of a message, request or response, is as long as the message says
/// and the payload has bytes for; where the message does not say, it is all
/// that follows the head.
pub proof fn law_body_extent(p: Seq<u8>, offset: int, cap: int)
    ensures
        http::message(p, offset, cap) matches Some(m) ==> {
            let avail = p.len() - http::body_start(p);
            &&& m.content_length matches Some(n) ==> m.body_len == kinds::lesser(n as int, avail)
            &&& m.content_length is None ==> m.body_len == avail
            &&& m.raw_len == http::body_start(p) + m.body_len
            &&& m.body_len > 0 ==> m.body_offset == Some(offset + http::body_start(p))
            &&& m.body_len == 0 ==> m.body_offset is None
        },
{
    reveal(http::message);
    http::law_body_lies_within(p, offset, cap);
}

/// The head as text: UTF-8 where it is that, else one character per byte.
pub proof fn law_head_text(b: Seq<u8>)
    ensures
        vstd::utf8::valid_utf8(b) ==> vstd::utf8::encode_utf8(http::head_text(b)) == b,
        !vstd::utf8::valid_utf8(b) ==> http::head_text(b).len() == b.len() && forall|i: int|
            0 <= i < b.len() ==> (#[trigger] http::head_text(b)[i]) as u32 == b[i],
{
    if vstd::utf8::valid_utf8(b) {
        vstd::utf8::decode_utf8_encode_utf8(b);
    }
}

/// The lines of a head are its pieces between line breaks, with a carriage
/// return where the head has one.
pub proof fn law_head_lines(head: Seq<char>)
    ensures
        ({
            let crlf = seq!['\r', '\n'];
            let lines = http::head_lines(head);
            let sep = if exists|i: int| strs::occurs_at(head, crlf, i) {
                crlf
            } else {
                seq!['\n']
            };
            &&& lines.len() > 0
            &&& strs::joined(lines, sep) == head
            &&& forall|k: int|
                0 <= k < lines.len() ==> !strs::has(#[trigger] lines[k], sep)
        }),
{
    reveal_strlit("\r\n");
    reveal_strlit("\n");
    let crlf = seq!['\r', '\n'];
    assert("\r\n"@ =~= crlf);
    assert("\n"@ =~= seq!['\n']);
    strs::law_pieces_join(head, http::line_break(head));
    lemma_pieces_lack(head, http::line_break(head));
}

proof fn lemma_pieces_lack(s: Seq<char>, pat: Seq<char>)
    requires
        pat.len() > 0,
    ensures
        strs::pieces(s, pat).len() > 0,
        forall|k: int|
            0 <= k < strs::pieces(s, pat).len() ==> !strs::has(
                #[trigger] strs::pieces(s, pat)[k],
                pat,
            ),
    decreases s.len(),
{
    strs::lemma_first_of(s, pat);
    match strs::first_of(s, pat) {
        Some(i) => {
            let rest = s.skip(i + pat.len());
            lemma_pieces_lack(rest, pat);
            let all = strs::pieces(s, pat);
            assert forall|k: int| 0 <= k < all.len() implies !strs::has(
                #[trigger] all[k],
                pat,
            ) by {
                if k == 0 {
                    let t = s.take(i);
                    if strs::has(t, pat) {
                        let j = choose|j: int| strs::occurs_at(t, pat, j);
                        assert(s.subrange(j, j + pat.len()) =~= t.subrange(j, j + pat.len()));
                        assert(strs::occurs_at(s, pat, j));
                    }
                } else {
                    assert(all[k] == strs::pieces(rest, pat)[k - 1]);
                }
            }
        },
        None => {},
    }
}

/// One of the nine methods.
pub open spec fn is_method(m: Seq<char>) -> bool {
    ||| m == seq!['G', 'E', 'T']
    ||| m == seq!['P', 'O', 'S', 'T']
    ||| m == seq!['P', 'U', 'T']
    ||| m == seq!['D', 'E', 'L', 'E', 'T', 'E']
    ||| m == seq!['H', 'E', 'A', 'D']
    ||| m == seq!['O', 'P', 'T', 'I', 'O', 'N', 'S']
    ||| m == seq!['P', 'A', 'T', 'C', 'H']
    ||| m == seq!['C', 'O', 'N', 'N', 'E', 'C', 'T']
    ||| m == seq!['T', 'R', 'A', 'C', 'E']
}

/// What stands before the first space.
pub open spec fn first_word(line: Seq<char>) -> Seq<char> {
    match strs::cut(line, ' ') {
        Some((a, _)) => a,
        None => line,
    }
}

pub open spec fn http_slash() -> Seq<char> {
    seq!['H', 'T', 'T', 'P', '/']
}

/// A literal that ends in a space starts a line where the rest of it is the
/// line's first word.
proof fn lemma_word(line: Seq<char>, w: Seq<char>, lit: Seq<char>)
    requires
        lit == w.push(' '),
        !w.contains(' '),
    ensures
        strs::prefixed(line, lit) <==> (strs::cut(line, ' ') matches Some((a, _)) && a == w),
{
    texts::law_cut(line, ' ');
    texts::law_prefix_and_suffix(line, lit);
    if strs::prefixed(line, lit) {
        let rest = line.skip(lit.len() as int);
        assert(line =~= w + seq![' '] + rest);
        texts::lemma_cut_is(line, ' ', w, rest);
    }
    match strs::cut(line, ' ') {
        Some((a, b)) => {
            if a == w {
                assert(line =~= lit + b);
                assert(line.skip(lit.len() as int) =~= b);
            }
        },
        None => {},
    }
}

proof fn lemma_method_line(line: Seq<char>)
    ensures
        http::method_line(line) <==> (strs::cut(line, ' ') matches Some((a, _)) && is_method(a)),
{
    reveal_strlit("GET ");
    reveal_strlit("POST ");
    reveal_strlit("PUT ");
    reveal_strlit("DELETE ");
    reveal_strlit("HEAD ");
    reveal_strlit("OPTIONS ");
    reveal_strlit("PATCH ");
    reveal_strlit("CONNECT ");
    reveal_strlit("TRACE ");
    let get = seq!['G', 'E', 'T'];
    let post = seq!['P', 'O', 'S', 'T'];
    let put = seq!['P', 'U', 'T'];
    let delete = seq!['D', 'E', 'L', 'E', 'T', 'E'];
    let head = seq!['H', 'E', 'A', 'D'];
    let options = seq!['O', 'P', 'T', 'I', 'O', 'N', 'S'];
    let patch = seq!['P', 'A', 'T', 'C', 'H'];
    let connect = seq!['C', 'O', 'N', 'N', 'E', 'C', 'T'];
    let trace = seq!['T', 'R', 'A', 'C', 'E'];
    assert("GET "@ =~= get.push(' '));
    assert("POST "@ =~= post.push(' '));
    assert("PUT "@ =~= put.push(' '));
    assert("DELETE "@ =~= delete.push(' '));
    assert("HEAD "@ =~= head.push(' '));
    assert("OPTIONS "@ =~= options.push(' '));
    assert("PATCH "@ =~= patch.push(' '));
    assert("CONNECT "@ =~= connect.push(' '));
    assert("TRACE "@ =~= trace.push(' '));
    lemma_word(line, get, "GET "@);
    lemma_word(line, post, "POST "@);
    lemma_word(line, put, "PUT "@);
    lemma_word(line, delete, "DELETE "@);
    lemma_word(line, head, "HEAD "@);
    lemma_word(line, options, "OPTIONS "@);
    lemma_word(line, patch, "PATCH "@);
    lemma_word(line, connect, "CONNECT "@);
    lemma_word(line, trace, "TRACE "@);
}

/// A first line starts a message exactly where it is a status line with a
/// space, or its first word is a method.
pub proof fn law_first_lines(m: HttpModel, line: Seq<char>)
    ensures
        ({
            let status = kinds::starts(line, http_slash());
            &&& http::with_first_line(m, line) is Some <==> line.contains(' ') && (status
                || is_method(first_word(line)))
            &&& http::with_first_line(m, line) matches Some(r) ==> r.kind == if status {
                "response"@
            } else {
                "request"@
            }
        }),
{
    lemma_method_line(line);
    texts::law_cut(line, ' ');
    lemma_http_slash(line);
}

proof fn lemma_http_slash(line: Seq<char>)
    ensures
        "HTTP/"@ == http_slash(),
        strs::prefixed(line, "HTTP/"@) <==> kinds::starts(line, http_slash()),
{
    reveal_strlit("HTTP/");
    assert("HTTP/"@ =~= http_slash());
    if 5 <= line.len() {
        assert(line.subrange(0, 5) =~= line.take(5));
    }
}

/// The version of a message is what stands behind "HTTP/", written once or
/// more.
pub proof fn law_version(s: Seq<char>)
    ensures
        http::version(http_slash() + s) == http::version(s),
        !kinds::starts(s, http_slash()) ==> http::version(s) == s,
{
    lemma_http_slash(s);
    let t = http_slash() + s;
    lemma_http_slash(t);
    assert(t.take(5) =~= http_slash());
    assert(t.skip(5) =~= s);
}

/// A status line gives the version, the status and the reason, which it may
/// lack.
pub proof fn law_status_line(m: HttpModel, ver: Seq<char>, code: Seq<char>, reason: Seq<char>)
    requires
        !ver.contains(' '),
        !code.contains(' '),
    ensures
        ({
            let r = HttpModel {
                kind: "response"@,
                http_version: Some(http::version(ver)),
                status: num::read(code, 10, 65535),
                reason: None,
                ..m
            };
            let start = http_slash() + ver + seq![' '] + code;
            &&& http::with_first_line(m, start) == Some(r)
            &&& reason.len() > 0 ==> http::with_first_line(m, start + seq![' '] + reason) == Some(
                HttpModel { reason: Some(reason), ..r },
            )
            &&& http::with_first_line(m, start + seq![' ']) == Some(r)
            &&& http::with_first_line(m, http_slash() + ver) is None
        }),
{
    let word = http_slash() + ver;
    assert(!word.contains(' ')) by {
        if word.contains(' ') {
            let i = choose|i: int| 0 <= i < word.len() && word[i] == ' ';
            if i >= 5 {
                assert(ver[i - 5] == ' ');
            }
        }
    }
    law_version(ver);
    let start = word + seq![' '] + code;
    let full = start + seq![' '] + reason;
    let ended = start + seq![' '];
    lemma_http_slash(word);
    lemma_http_slash(start);
    lemma_http_slash(full);
    lemma_http_slash(ended);
    assert(word.take(5) =~= http_slash());
    assert(start.take(5) =~= http_slash());
    assert(full.take(5) =~= http_slash());
    assert(ended.take(5) =~= http_slash());
    texts::law_cut(word, ' ');
    texts::lemma_cut_is(start, ' ', word, code);
    texts::law_cut(code, ' ');
    assert(full =~= word + seq![' '] + (code + seq![' '] + reason));
    texts::lemma_cut_is(full, ' ', word, code + seq![' '] + reason);
    texts::lemma_cut_is(code + seq![' '] + reason, ' ', code, reason);
    let nothing = Seq::<char>::empty();
    assert(ended =~= word + seq![' '] + (code + seq![' '] + nothing));
    texts::lemma_cut_is(ended, ' ', word, code + seq![' '] + nothing);
    texts::lemma_cut_is(code + seq![' '] + nothing, ' ', code, nothing);
}

/// A request line gives the method, the target and the version, which it may
/// lack; the target is cut at its first question mark.
pub proof fn law_request_line(m: HttpModel, method: Seq<char>, target: Seq<char>, ver: Seq<char>)
    requires
        is_method(method),
        !target.contains(' '),
    ensures
        ({
            let (path, query) = match strs::cut(target, '?') {
                Some((path, q)) => (path, http::parameters(q)),
                None => (target, Seq::empty()),
            };
            let r = HttpModel {
                kind: "request"@,
                method: Some(method),
                http_version: Some(seq!['1', '.', '1']),
                path: Some(path),
                query,
                ..m
            };
            let start = method + seq![' '] + target;
            &&& http::with_first_line(m, start) == Some(r)
            &&& http::with_first_line(m, start + seq![' '] + ver) == Some(
                HttpModel { http_version: Some(http::version(ver)), ..r },
            )
        }),
{
    let start = method + seq![' '] + target;
    let full = start + seq![' '] + ver;
    assert(!method.contains(' '));
    texts::lemma_cut_is(start, ' ', method, target);
    assert(full =~= method + seq![' '] + (target + seq![' '] + ver));
    texts::lemma_cut_is(full, ' ', method, target + seq![' '] + ver);
    texts::lemma_cut_is(target + seq![' '] + ver, ' ', target, ver);
    texts::law_cut(target, ' ');
    lemma_method_line(start);
    lemma_method_line(full);
    lemma_http_slash(start);
    lemma_http_slash(full);
    assert(!kinds::starts(start, http_slash()) && !kinds::starts(full, http_slash())) by {
        assert(start[0] == method[0] && start[1] == method[1]);
        assert(full[0] == method[0] && full[1] == method[1]);
        if start.len() >= 5 {
            assert(start.take(5)[0] == start[0] && start.take(5)[1] == start[1]);
        }
        if full.len() >= 5 {
            assert(full.take(5)[0] == full[0] && full.take(5)[1] == full[1]);
        }
    }
    reveal_strlit("HTTP/1.1");
    let rest = seq!['1', '.', '1'];
    assert("HTTP/1.1"@ =~= http_slash() + rest);
    law_version(rest);
    assert(!kinds::starts(rest, http_slash()));
}

/// The parameters of a query are its parts between ampersands, each cut at
/// its first equals sign; one without has an empty value.
pub proof fn law_query(parts: Seq<Seq<char>>, i: int)
    requires
        0 <= i < parts.len(),
        forall|k: int| 0 <= k < parts.len() ==> !(#[trigger] parts[k]).contains('&'),
    ensures
        ({
            let q = http::parameters(strs::joined(parts, seq!['&']));
            &&& q.len() == parts.len()
            &&& parts[i].contains('=') ==> parts[i] == q[i].0 + seq!['='] + q[i].1 && !q[i].0.contains(
                '=',
            )
            &&& !parts[i].contains('=') ==> q[i] == (parts[i], Seq::<char>::empty())
        }),
{
    texts::lemma_fields_are(strs::joined(parts, seq!['&']), '&', parts);
    texts::law_cut(parts[i], '=');
}

/// The headers that lines hold: those with a colon, cut at the first, both
/// sides trimmed.
pub open spec fn headers_of(lines: Seq<Seq<char>>) -> Seq<(Seq<char>, Seq<char>)>
    decreases lines.len(),
{
    if lines.len() == 0 {
        Seq::empty()
    } else {
        let before = headers_of(lines.drop_last());
        match strs::cut(lines.last(), ':') {
            Some((k, v)) => before.push((strs::trimmed(k), strs::trimmed(v))),
            None => before,
        }
    }
}

proof fn lemma_headers_of(m: HttpModel, lines: Seq<Seq<char>>)
    ensures
        http::with_headers(m, lines).headers == m.headers + headers_of(lines),
    decreases lines.len(),
{
    if lines.len() > 0 {
        lemma_headers_of(m, lines.drop_last());
        let b = http::with_headers(m, lines.drop_last()).headers;
        match strs::cut(lines.last(), ':') {
            Some((k, v)) => {
                assert(http::with_headers(m, lines).headers =~= m.headers + headers_of(lines));
            },
            None => {},
        }
    } else {
        assert(m.headers + headers_of(lines) =~= m.headers);
    }
}

/// A message says what its head says: the first line gives the kind, version,
/// method, path, query, status and reason, and the lines after it the
/// headers, none lost and none added.
pub proof fn law_message_says_its_head(p: Seq<u8>, offset: int, cap: int)
    ensures
        ({
            let lines = http::head_lines(http::head_text(p.take(http::head_end(p)->0)));
            let first = http::with_first_line(
                HttpModel { offset, ..http::blank_message() },
                lines[0],
            );
            &&& http::message(p, offset, cap) is Some <==> http::head_end(p) is Some
                && first is Some
            &&& http::message(p, offset, cap) matches Some(m) ==> {
                let f = first->0;
                &&& m.offset == offset
                &&& m.kind == f.kind
                &&& m.http_version == f.http_version
                &&& m.method == f.method
                &&& m.path == f.path
                &&& m.query == f.query
                &&& m.status == f.status
                &&& m.reason == f.reason
                &&& m.headers == headers_of(lines.skip(1))
            }
        }),
{
    reveal(http::message);
    http::law_message_kinds(p, offset, cap);
    match http::head_end(p) {
        Some(end) => {
            let lines = http::head_lines(http::head_text(p.take(end)));
            match http::with_first_line(
                HttpModel { offset, ..http::blank_message() },
                lines[0],
            ) {
                Some(f) => {
                    lemma_headers_of(f, lines.skip(1));
                    http::lemma_headers_keep(f, lines.skip(1));
                    assert(f.headers + headers_of(lines.skip(1)) =~= headers_of(lines.skip(1)));
                },
                None => {},
            }
        },
        None => {},
    }
}

/// The value names chunks, in any case.
pub open spec fn says_chunked(v: Seq<char>) -> bool {
    exists|i: int|
        #![trigger v[i]]
        0 <= i && i + 7 <= v.len() && chars::lowered(v[i]) == 'c' && chars::lowered(v[i + 1]) == 'h'
            && chars::lowered(v[i + 2]) == 'u' && chars::lowered(v[i + 3]) == 'n' && chars::lowered(
            v[i + 4],
        ) == 'k' && chars::lowered(v[i + 5]) == 'e' && chars::lowered(v[i + 6]) == 'd'
}

proof fn lemma_chunked(v: Seq<char>)
    ensures
        strs::has(strs::lower_text(v), "chunked"@) <==> says_chunked(v),
{
    reveal_strlit("chunked");
    let w = "chunked"@;
    assert(w =~= seq!['c', 'h', 'u', 'n', 'k', 'e', 'd']);
    let t = strs::lower_text(v);
    if strs::has(t, w) {
        let i = choose|i: int| strs::occurs_at(t, w, i);
        let u = t.subrange(i, i + 7);
        assert(u[0] == t[i] && u[1] == t[i + 1] && u[2] == t[i + 2] && u[3] == t[i + 3] && u[4]
            == t[i + 4] && u[5] == t[i + 5] && u[6] == t[i + 6]);
        assert(chars::lowered(v[i]) == 'c');
    }
    if says_chunked(v) {
        let i = choose|i: int|
            #![trigger v[i]]
            0 <= i && i + 7 <= v.len() && chars::lowered(v[i]) == 'c' && chars::lowered(v[i + 1])
                == 'h' && chars::lowered(v[i + 2]) == 'u' && chars::lowered(v[i + 3]) == 'n'
                && chars::lowered(v[i + 4]) == 'k' && chars::lowered(v[i + 5]) == 'e'
                && chars::lowered(v[i + 6]) == 'd';
        assert(t.subrange(i, i + 7) =~= w);
        assert(strs::occurs_at(t, w, i));
    }
}

/// The bytes of a message's body, with its chunks joined where it has them.
pub open spec fn carried(m: HttpModel, raw: Seq<u8>) -> Seq<u8> {
    if m.transfer_encoding matches Some(v) && says_chunked(v) {
        body::dechunked(raw)
    } else {
        raw
    }
}

/// A body is joined from its chunks exactly where its transfer encoding says
/// so, and then the content codings are undone, those of the header in any
/// case. What comes out is counted, and its first bytes, as many as may be
/// shown, are the preview.
pub proof fn law_body_is_decoded(p: Seq<u8>, offset: int, cap: int)
    requires
        cap >= 0,
    ensures
        http::message(p, offset, cap) matches Some(m) ==> (m.body_len > 0 ==> {
            let start = http::body_start(p);
            let raw = p.subrange(start, start + m.body_len);
            let (decoded, ok) = match m.content_encoding {
                Some(enc) => body::all_undone(
                    carried(m, raw),
                    body::codings_of(strs::lower_text(enc)),
                ),
                None => (carried(m, raw), true),
            };
            let shown = decoded.take(kinds::lesser(decoded.len() as int, cap));
            &&& m.body_decoded == ok
            &&& m.body_decoded_len == Some(decoded.len() as int)
            &&& m.body_preview == if shown.len() > 0 {
                text_preview(m.content_type, shown)
            } else {
                None
            }
            &&& m.body_preview_base64 == if shown.len() > 0 && text_preview(
                m.content_type,
                shown,
            ) is None {
                Some(body::base64_text(shown))
            } else {
                None
            }
        }),
{
    reveal(http::message);
    match http::head_end(p) {
        Some(end) => {
            let lines = http::head_lines(http::head_text(p.take(end)));
            match http::with_first_line(
                HttpModel { offset, ..http::blank_message() },
                lines[0],
            ) {
                Some(f) => {
                    http::lemma_headers_keep(f, lines.skip(1));
                    http::law_body_lies_within(p, offset, cap);
                    let m = http::headed(p, offset)->0;
                    if m.transfer_encoding is Some {
                        lemma_chunked(m.transfer_encoding->0);
                    }
                    if m.content_type is Some {
                        law_text_content(m.content_type->0);
                    }
                    let raw = p.subrange(m.raw_len - m.body_len, m.raw_len);
                    let decoded = http::content(m, http::transferred(m, raw)).0;
                    let shown = decoded.take(kinds::lesser(decoded.len() as int, cap));
                    if bytes::decoded(shown) is Some {
                        law_legible(bytes::decoded(shown)->0);
                    }
                },
                None => {},
            }
        },
        None => {},
    }
}

/// A message without a body shows none, and nothing was decoded.
pub proof fn law_no_body(p: Seq<u8>, offset: int, cap: int)
    ensures
        http::message(p, offset, cap) matches Some(m) ==> (m.body_len == 0 ==> {
            &&& m.body_preview is None
            &&& m.body_preview_base64 is None
            &&& m.body_decoded_len is None
            &&& !m.body_decoded
        }),
{
    reveal(http::message);
    match http::head_end(p) {
        Some(end) => {
            let lines = http::head_lines(http::head_text(p.take(end)));
            match http::with_first_line(
                HttpModel { offset, ..http::blank_message() },
                lines[0],
            ) {
                Some(f) => {
                    http::lemma_headers_keep(f, lines.skip(1));
                },
                None => {},
            }
        },
        None => {},
    }
}

/// The text that a preview shows, where it is one: bytes whose content type
/// is text, as text; bytes of no content type, where they are UTF-8 and
/// mostly legible.
pub open spec fn text_preview(ct: Option<Seq<char>>, shown: Seq<u8>) -> Option<Seq<char>> {
    match ct {
        Some(ct) => if names_text(media(ct)) {
            Some(body::lossy_text(shown))
        } else {
            None
        },
        None => if vstd::utf8::valid_utf8(shown) && readable(vstd::utf8::decode_utf8(shown)) {
            Some(vstd::utf8::decode_utf8(shown))
        } else {
            None
        },
    }
}

/// What stands before the first semicolon, lowered and trimmed.
pub open spec fn media(ct: Seq<char>) -> Seq<char> {
    strs::trimmed(
        strs::lower_text(
            match strs::cut(ct, ';') {
                Some((a, _)) => a,
                None => ct,
            },
        ),
    )
}

/// The media types whose bodies are text.
pub open spec fn text_types() -> Seq<Seq<char>> {
    seq![
        "application/json"@,
        "application/x-www-form-urlencoded"@,
        "application/xml"@,
        "application/xhtml+xml"@,
        "application/javascript"@,
        "application/x-javascript"@,
        "application/ld+json"@,
        "application/graphql"@,
        "application/csp-report"@,
        "application/manifest+json"@,
        "application/vnd.api+json"@,
        "image/svg+xml"@,
    ]
}

pub open spec fn names_text(t: Seq<char>) -> bool {
    ||| kinds::starts(t, "text/"@)
    ||| t.len() >= 5 && t.skip(t.len() - 5) == "+json"@
    ||| t.len() >= 4 && t.skip(t.len() - 4) == "+xml"@
    ||| text_types().contains(t)
}

/// Printable ASCII, one of four blanks, or outside ASCII.
pub open spec fn readable_char(c: char) -> bool {
    let n = c as u32;
    (n >= 0x20 && n != 0x7f) || n == 9 || n == 10 || n == 13
}

/// At least nine tenths of the first 512 characters are readable.
pub open spec fn readable(s: Seq<char>) -> bool {
    let n = kinds::lesser(s.len() as int, 512) as nat;
    n > 0 && 10 * kinds::count_where(n, |i: int| readable_char(s[i])) >= 9 * n
}

proof fn lemma_readable_char(c: char)
    ensures
        body::legible(c) <==> readable_char(c),
{
    texts::law_character_classes(c);
}

proof fn lemma_legible_count(s: Seq<char>, n: nat)
    ensures
        body::legible_count(s, n) == kinds::count_where(n, |i: int| readable_char(s[i])),
    decreases n,
{
    if n > 0 {
        lemma_legible_count(s, (n - 1) as nat);
        lemma_readable_char(s[n - 1]);
    }
}

/// A text without a content type is shown as text where it is mostly legible.
pub proof fn law_legible(s: Seq<char>)
    ensures
        body::mostly_legible(s) <==> readable(s),
{
    lemma_legible_count(s, kinds::lesser(s.len() as int, 512) as nat);
}

/// The media type of a content type is what stands before its parameters, in
/// lower case.
pub proof fn law_media_type(ct: Seq<char>)
    ensures
        body::media_type(ct) == media(ct),
{
    let low = strs::lower_text(ct);
    texts::law_fields(low, ';');
    texts::law_cut(ct, ';');
    let parts = strs::fields(low, ';');
    let first = parts[0];
    match strs::cut(ct, ';') {
        Some((a, b)) => {
            let x = strs::lower_text(a);
            let y = strs::lower_text(b);
            assert(low =~= x + seq![';'] + y);
            assert(!x.contains(';')) by {
                if x.contains(';') {
                    let i = choose|i: int| 0 <= i < x.len() && x[i] == ';';
                    assert(a[i] == ';');
                }
            }
            texts::law_fields(y, ';');
            let rest = strs::fields(y, ';');
            let all = seq![x] + rest;
            assert(all.skip(1) =~= rest);
            assert(strs::joined(all, seq![';']) =~= low);
            assert forall|k: int| 0 <= k < all.len() implies !(#[trigger] all[k]).contains(';') by {
                if k > 0 {
                    assert(all[k] == rest[k - 1]);
                }
            }
            texts::lemma_fields_are(low, ';', all);
        },
        None => {
            assert(!low.contains(';')) by {
                if low.contains(';') {
                    let i = choose|i: int| 0 <= i < low.len() && low[i] == ';';
                    assert(ct[i] == ';');
                }
            }
            let all = seq![low];
            texts::lemma_fields_are(low, ';', all);
        },
    }
}

/// Bodies are text where their media type is: a text type, JSON, XML, or one
/// of a dozen others.
pub proof fn law_text_content(ct: Seq<char>)
    ensures
        body::text_content(Some(ct)) <==> names_text(media(ct)),
        body::text_content(None),
{
    law_media_type(ct);
    let t = media(ct);
    reveal_strlit("text/");
    reveal_strlit("+json");
    reveal_strlit("+xml");
    if t.len() >= 5 {
        assert(t.subrange(0, 5) =~= t.take(5));
        assert(t.subrange(t.len() - 5, t.len() as int) =~= t.skip(t.len() - 5));
    }
    if t.len() >= 4 {
        assert(t.subrange(t.len() - 4, t.len() as int) =~= t.skip(t.len() - 4));
    }
    let v = text_types();
    assert(v[0] == "application/json"@);
    assert(v[1] == "application/x-www-form-urlencoded"@);
    assert(v[2] == "application/xml"@);
    assert(v[3] == "application/xhtml+xml"@);
    assert(v[4] == "application/javascript"@);
    assert(v[5] == "application/x-javascript"@);
    assert(v[6] == "application/ld+json"@);
    assert(v[7] == "application/graphql"@);
    assert(v[8] == "application/csp-report"@);
    assert(v[9] == "application/manifest+json"@);
    assert(v[10] == "application/vnd.api+json"@);
    assert(v[11] == "image/svg+xml"@);
    if v.contains(t) {
        let i = choose|i: int| 0 <= i < v.len() && v[i] == t;
        assert(i < 12);
    }
}

/// Text that is UTF-8 is shown as it is; other bytes one by one, those that
/// are not printable as dots.
pub proof fn law_lossy_text(b: Seq<u8>, s: Seq<char>)
    ensures
        body::lossy_text(vstd::utf8::encode_utf8(s)) == s,
        !vstd::utf8::valid_utf8(b) ==> body::lossy_text(b).len() == b.len() && forall|i: int|
            0 <= i < b.len() ==> #[trigger] body::lossy_text(b)[i] == if kinds::plain(b[i]) {
                b[i] as char
            } else {
                '.'
            },
{
    vstd::utf8::encode_utf8_valid_utf8(s);
    vstd::utf8::encode_utf8_decode_utf8(s);
}

/// The names of content codings, which may be written in any case.
pub proof fn law_codings(name: Seq<char>)
    ensures
        ({
            let n = strs::lower_text(name);
            let c = body::coding_named(name);
            &&& c == body::Coding::Gzip <==> n == "gzip"@ || n == "x-gzip"@
            &&& c == body::Coding::Deflate <==> n == "deflate"@
            &&& c == body::Coding::Brotli <==> n == "br"@
            &&& c == body::Coding::Identity <==> n == "identity"@ || n == "none"@ || n.len() == 0
        }),
{
    reveal_strlit("gzip");
    reveal_strlit("x-gzip");
    reveal_strlit("deflate");
    reveal_strlit("br");
    reveal_strlit("identity");
    reveal_strlit("none");
    assert("gzip"@.len() == 4 && "x-gzip"@.len() == 6 && "deflate"@.len() == 7 && "br"@.len() == 2
        && "identity"@.len() == 8 && "none"@.len() == 4);
    assert("gzip"@[0] == 'g' && "none"@[0] == 'n');
}

/// Codings are listed between commas in the order they were applied; blank
/// parts do not count.
pub proof fn law_coding_list(parts: Seq<Seq<char>>)
    requires
        parts.len() > 0,
        forall|k: int| 0 <= k < parts.len() ==> !(#[trigger] parts[k]).contains(','),
    ensures
        body::codings_of(strs::joined(parts, seq![','])) == named(parts),
{
    texts::lemma_fields_are(strs::joined(parts, seq![',']), ',', parts);
    lemma_named(parts);
}

/// The codings that parts name, blank parts aside, from the first on.
pub open spec fn named(parts: Seq<Seq<char>>) -> Seq<body::Coding>
    decreases parts.len(),
{
    if parts.len() == 0 {
        Seq::empty()
    } else {
        let t = strs::trimmed(parts[0]);
        if t.len() == 0 {
            named(parts.skip(1))
        } else {
            seq![body::coding_named(t)] + named(parts.skip(1))
        }
    }
}

proof fn lemma_named_last(parts: Seq<Seq<char>>)
    requires
        parts.len() > 0,
    ensures
        named(parts) == ({
            let t = strs::trimmed(parts.last());
            if t.len() == 0 {
                named(parts.drop_last())
            } else {
                named(parts.drop_last()).push(body::coding_named(t))
            }
        }),
    decreases parts.len(),
{
    reveal_with_fuel(named, 2);
    if parts.len() == 1 {
        assert(parts.drop_last() =~= Seq::empty());
        assert(parts.skip(1) =~= Seq::empty());
        assert(named(parts.drop_last()) =~= Seq::empty());
        let t = strs::trimmed(parts[0]);
        if t.len() > 0 {
            assert(named(parts) =~= seq![body::coding_named(t)]);
        }
    } else {
        let tail = parts.skip(1);
        lemma_named_last(tail);
        assert(tail.last() == parts.last());
        assert(tail.drop_last() =~= parts.drop_last().skip(1));
        assert(parts.drop_last()[0] == parts[0]);
        let t = strs::trimmed(parts.last());
        if t.len() > 0 && strs::trimmed(parts[0]).len() > 0 {
            let c = body::coding_named(strs::trimmed(parts[0]));
            assert(seq![c] + named(tail.drop_last()).push(body::coding_named(t)) =~= (seq![c]
                + named(tail.drop_last())).push(body::coding_named(t)));
        }
    }
}

proof fn lemma_named(parts: Seq<Seq<char>>)
    ensures
        body::codings_named(parts) == named(parts),
    decreases parts.len(),
{
    if parts.len() > 0 {
        lemma_named(parts.drop_last());
        lemma_named_last(parts);
    } else {
        assert(body::codings_named(parts) =~= named(parts));
    }
}

/// Codings are undone from the last applied to the first: each by its own
/// decoder, `identity` by none. Where one fails or is not known, the bytes
/// stay as they were before it, and the decoding has failed.
pub proof fn law_codings_undone(b: Seq<u8>, list: Seq<body::Coding>, c: body::Coding)
    ensures
        body::all_undone(b, Seq::empty()) == (b, true),
        body::all_undone(b, list.push(c)) == ({
            let one = match c {
                body::Coding::Gzip => body::gunzipped(b),
                body::Coding::Deflate => if body::unzlibbed(b) matches Some(v) && v.len() > 0 {
                    body::unzlibbed(b)
                } else {
                    body::inflated(b)
                },
                body::Coding::Brotli => body::unbrotlied(b),
                body::Coding::Identity => Some(b),
                body::Coding::Unknown => None,
            };
            match one {
                Some(v) => body::all_undone(v, list),
                None => (b, false),
            }
        }),
{
    assert(list.push(c).drop_last() =~= list);
}

/// A result is kept where there is one and it is not empty.
pub proof fn law_kept_result(z: Option<Seq<u8>>, v: Seq<u8>)
    ensures
        body::nonempty(z) == Some(v) <==> z == Some(v) && v.len() > 0,
{
}

} // verus!
