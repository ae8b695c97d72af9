//! What grouping frames into transactions means.

use vstd::prelude::*;

use crate::classify;
use crate::classify::Kind;
use crate::extract;
use crate::frame::Frame;
use crate::http;
use crate::http::HttpModel;
use crate::laws::texts;
use crate::num;
use crate::transaction;
use crate::transaction::TransactionModel;

verus! {

pub open spec fn kind_at(slice: Seq<u8>, frames: Seq<Frame>, k: int) -> Kind {
    classify::kind_of(frames[k].body(slice))
}

pub open spec fn text_at(slice: Seq<u8>, frames: Seq<Frame>, k: int) -> bool {
    kind_at(slice, frames, k) == Kind::Utf8Text || kind_at(slice, frames, k) == Kind::Utf16Text
}

/// The look-ahead ends at frame `k`: it is a request or a text.
pub open spec fn ends_at(slice: Seq<u8>, frames: Seq<Frame>, k: int) -> bool {
    kind_at(slice, frames, k) == Kind::HttpRequest || text_at(slice, frames, k)
}

/// The look-ahead of a request at `i` reaches frame `k`: it is among the next
/// four, and none in between ends it.
pub open spec fn reaches(slice: Seq<u8>, frames: Seq<Frame>, i: int, k: int) -> bool {
    &&& i < k <= i + 4
    &&& k < frames.len()
    &&& forall|r: int| i < r < k ==> !#[trigger] ends_at(slice, frames, r)
}

/// The response that frame `k` holds, where it is one.
pub open spec fn response_at(
    slice: Seq<u8>,
    frames: Seq<Frame>,
    k: int,
    base: int,
    cap: int,
) -> Option<HttpModel> {
    if kind_at(slice, frames, k) == Kind::HttpResponse {
        http::message(frames[k].body(slice), base + frames[k].offset + 8, cap)
    } else {
        None
    }
}

proof fn lemma_path(
    slice: Seq<u8>,
    frames: Seq<Frame>,
    i: int,
    j: int,
    base: int,
    cap: int,
    t: TransactionModel,
    k: int,
)
    requires
        i < j <= k,
        reaches(slice, frames, i, k),
        text_at(slice, frames, k),
    ensures
        transaction::cluster_from(slice, frames, i, j, base, cap, t).sitemap_path
            == transaction::path_in(frames[k].body(slice)),
    decreases k - j,
{
    if j < k {
        assert(!ends_at(slice, frames, j));
        let u = TransactionModel {
            response: http::message(frames[j].body(slice), base + frames[j].offset + 8, cap),
            ..t
        };
        lemma_path(slice, frames, i, j + 1, base, cap, t, k);
        lemma_path(slice, frames, i, j + 1, base, cap, u, k);
    }
}

proof fn lemma_no_path(
    slice: Seq<u8>,
    frames: Seq<Frame>,
    i: int,
    j: int,
    base: int,
    cap: int,
    t: TransactionModel,
)
    requires
        i < j,
        forall|r: int| i < r < j ==> !#[trigger] ends_at(slice, frames, r),
        forall|k: int| #[trigger] reaches(slice, frames, i, k) ==> !text_at(slice, frames, k),
    ensures
        transaction::cluster_from(slice, frames, i, j, base, cap, t).sitemap_path
            == t.sitemap_path,
    decreases i + 5 - j,
{
    if j < frames.len() && j <= i + 4 {
        assert(reaches(slice, frames, i, j));
        if kind_at(slice, frames, j) != Kind::HttpRequest {
            let u = TransactionModel {
                response: http::message(frames[j].body(slice), base + frames[j].offset + 8, cap),
                ..t
            };
            assert(!ends_at(slice, frames, j));
            lemma_no_path(slice, frames, i, j + 1, base, cap, t);
            lemma_no_path(slice, frames, i, j + 1, base, cap, u);
        }
    }
}

/// The path of an exchange is that of the text among the four frames behind
/// its request, wherever it stands there and whether or not a response stands
/// before it, unless another request or text comes first. Where there is no
/// such text there is no path.
pub proof fn law_exchange_path(
    slice: Seq<u8>,
    frames: Seq<Frame>,
    i: int,
    base: int,
    cap: int,
    k: int,
)
    ensures
        ({
            let t = transaction::cluster(slice, frames, i, base, cap);
            &&& reaches(slice, frames, i, k) && text_at(slice, frames, k) ==> t.sitemap_path
                == transaction::path_in(frames[k].body(slice))
            &&& (forall|k: int| #[trigger]
                reaches(slice, frames, i, k) ==> !text_at(slice, frames, k)) ==> t.sitemap_path
                is None
        }),
{
    let at = base + frames[i].offset + 8;
    let t = TransactionModel {
        offset: at,
        request: http::message(frames[i].body(slice), at, cap),
        ..transaction::blank_transaction()
    };
    let u = transaction::with_ids(t, transaction::ids_back(slice, frames, i, 1));
    if reaches(slice, frames, i, k) && text_at(slice, frames, k) {
        lemma_path(slice, frames, i, i + 1, base, cap, u, k);
    }
    if forall|k: int| #[trigger] reaches(slice, frames, i, k) ==> !text_at(slice, frames, k) {
        lemma_no_path(slice, frames, i, i + 1, base, cap, u);
    }
}

proof fn lemma_kept_response(
    slice: Seq<u8>,
    frames: Seq<Frame>,
    i: int,
    j: int,
    base: int,
    cap: int,
    t: TransactionModel,
)
    requires
        t.response is Some,
    ensures
        transaction::cluster_from(slice, frames, i, j, base, cap, t).response == t.response,
    decreases i + 5 - j,
{
    if j < frames.len() && j <= i + 4 {
        lemma_kept_response(slice, frames, i, j + 1, base, cap, t);
    }
}

/// Frame `k` is the first that the look-ahead reaches with a response that
/// parses.
pub open spec fn first_response(
    slice: Seq<u8>,
    frames: Seq<Frame>,
    i: int,
    k: int,
    base: int,
    cap: int,
) -> bool {
    &&& reaches(slice, frames, i, k)
    &&& response_at(slice, frames, k, base, cap) is Some
    &&& forall|r: int| i < r < k ==> #[trigger] response_at(slice, frames, r, base, cap) is None
}

proof fn lemma_response(
    slice: Seq<u8>,
    frames: Seq<Frame>,
    i: int,
    j: int,
    base: int,
    cap: int,
    t: TransactionModel,
    k: int,
)
    requires
        i < j <= k,
        first_response(slice, frames, i, k, base, cap),
        t.response is None,
    ensures
        transaction::cluster_from(slice, frames, i, j, base, cap, t).response == response_at(
            slice,
            frames,
            k,
            base,
            cap,
        ),
    decreases k - j,
{
    let u = TransactionModel {
        response: http::message(frames[j].body(slice), base + frames[j].offset + 8, cap),
        ..t
    };
    if j < k {
        assert(!ends_at(slice, frames, j));
        assert(response_at(slice, frames, j, base, cap) is None);
        lemma_response(slice, frames, i, j + 1, base, cap, t, k);
        if kind_at(slice, frames, j) == Kind::HttpResponse {
            assert(u == t);
        }
    } else {
        lemma_kept_response(slice, frames, i, j + 1, base, cap, u);
    }
}

proof fn lemma_no_response(
    slice: Seq<u8>,
    frames: Seq<Frame>,
    i: int,
    j: int,
    base: int,
    cap: int,
    t: TransactionModel,
)
    requires
        i < j,
        t.response is None,
        forall|r: int| i < r < j ==> !#[trigger] ends_at(slice, frames, r),
        forall|k: int| #[trigger]
            reaches(slice, frames, i, k) ==> response_at(slice, frames, k, base, cap) is None,
    ensures
        transaction::cluster_from(slice, frames, i, j, base, cap, t).response is None,
    decreases i + 5 - j,
{
    if j < frames.len() && j <= i + 4 {
        assert(reaches(slice, frames, i, j));
        if !ends_at(slice, frames, j) {
            let u = TransactionModel {
                response: http::message(frames[j].body(slice), base + frames[j].offset + 8, cap),
                ..t
            };
            lemma_no_response(slice, frames, i, j + 1, base, cap, t);
            if kind_at(slice, frames, j) == Kind::HttpResponse {
                assert(u == t);
            }
        }
    }
}

/// The response of an exchange is the first that parses among the four frames
/// behind its request, unless another request or a text comes first. Where
/// there is no such frame there is no response.
pub proof fn law_exchange_response(
    slice: Seq<u8>,
    frames: Seq<Frame>,
    i: int,
    base: int,
    cap: int,
    k: int,
)
    ensures
        ({
            let t = transaction::cluster(slice, frames, i, base, cap);
            &&& first_response(slice, frames, i, k, base, cap) ==> t.response == response_at(
                slice,
                frames,
                k,
                base,
                cap,
            )
            &&& (forall|k: int| #[trigger]
                reaches(slice, frames, i, k) ==> response_at(slice, frames, k, base, cap) is None)
                ==> t.response is None
        }),
{
    let at = base + frames[i].offset + 8;
    let t = TransactionModel {
        offset: at,
        request: http::message(frames[i].body(slice), at, cap),
        ..transaction::blank_transaction()
    };
    let u = transaction::with_ids(t, transaction::ids_back(slice, frames, i, 1));
    if first_response(slice, frames, i, k, base, cap) {
        lemma_response(slice, frames, i, i + 1, base, cap, u, k);
    }
    if forall|k: int| #[trigger]
        reaches(slice, frames, i, k) ==> response_at(slice, frames, k, base, cap) is None {
        lemma_no_response(slice, frames, i, i + 1, base, cap, u);
    }
}

proof fn lemma_rest_kept(
    slice: Seq<u8>,
    frames: Seq<Frame>,
    i: int,
    j: int,
    base: int,
    cap: int,
    t: TransactionModel,
)
    ensures
        ({
            let u = transaction::cluster_from(slice, frames, i, j, base, cap, t);
            &&& u.offset == t.offset
            &&& u.request == t.request
            &&& u.transaction_id == t.transaction_id
            &&& u.secondary_id == t.secondary_id
        }),
    decreases i + 5 - j,
{
    if j < frames.len() && j <= i + 4 {
        let u = TransactionModel {
            response: http::message(frames[j].body(slice), base + frames[j].offset + 8, cap),
            ..t
        };
        lemma_rest_kept(slice, frames, i, j + 1, base, cap, t);
        lemma_rest_kept(slice, frames, i, j + 1, base, cap, u);
    }
}

/// The four bytes of frame `k` as a number, where it has four.
pub open spec fn id_at(slice: Seq<u8>, frames: Seq<Frame>, k: int) -> Option<nat> {
    let p = frames[k].body(slice);
    if 0 <= k && p.len() == 4 {
        Some((p[0] * 0x100_0000 + p[1] * 0x1_0000 + p[2] * 0x100 + p[3]) as nat)
    } else {
        None
    }
}

/// An exchange has the request it was made for. Right before it stands its
/// secondary id, and the transaction id before that; a lone id is the
/// transaction's.
pub proof fn law_exchange_request_and_ids(
    slice: Seq<u8>,
    frames: Seq<Frame>,
    i: int,
    base: int,
    cap: int,
)
    requires
        0 <= i < frames.len(),
    ensures
        ({
            let t = transaction::cluster(slice, frames, i, base, cap);
            let near = id_at(slice, frames, i - 1);
            let far = id_at(slice, frames, i - 2);
            &&& t.offset == base + frames[i].offset + 8
            &&& t.request == http::message(frames[i].body(slice), t.offset, cap)
            &&& near is None ==> t.transaction_id is None && t.secondary_id is None
            &&& near is Some && far is None ==> t.transaction_id == near && t.secondary_id is None
            &&& near is Some && far is Some ==> t.transaction_id == far && t.secondary_id == near
        }),
{
    let at = base + frames[i].offset + 8;
    let t = TransactionModel {
        offset: at,
        request: http::message(frames[i].body(slice), at, cap),
        ..transaction::blank_transaction()
    };
    let ids = transaction::ids_back(slice, frames, i, 1);
    let u = transaction::with_ids(t, ids);
    lemma_rest_kept(slice, frames, i, i + 1, base, cap, u);
    reveal_with_fuel(transaction::ids_back, 3);
    texts::law_big_endian(frames[i - 1].body(slice));
    texts::law_big_endian(frames[i - 2].body(slice));
    if id_at(slice, frames, i - 1) is Some {
        assert(ids[0] == num::big_endian(frames[i - 1].body(slice)));
        if id_at(slice, frames, i - 2) is Some {
            assert(ids[1] == num::big_endian(frames[i - 2].body(slice)));
        }
    }
}

/// No exchange is missed and none is made up: the walk gives, for each frame
/// that holds a request, that request's exchange, and whatever the walk over
/// a state blob gives.
pub proof fn law_every_exchange_is_found(
    slice: Seq<u8>,
    frames: Seq<Frame>,
    i: int,
    base: int,
    cap: int,
    depth: nat,
    k: int,
)
    requires
        0 <= i <= k < frames.len(),
        depth <= 4,
    ensures
        ({
            let found = transaction::transactions(slice, frames, i, base, cap, depth);
            let p = frames[k].body(slice);
            let at = base + frames[k].offset + 8;
            &&& classify::kind_of(p) == Kind::HttpRequest && http::message(p, at, cap) is Some
                ==> found.contains(transaction::cluster(slice, frames, k, base, cap))
            &&& classify::kind_of(p) == Kind::StateBlob && depth < 4 ==> forall|t: TransactionModel|
                #[trigger]
                transaction::transactions(
                    p,
                    extract::nested(p, depth),
                    0,
                    at,
                    cap,
                    depth + 1,
                ).contains(t) ==> found.contains(t)
        }),
    decreases k - i,
{
    let found = transaction::transactions(slice, frames, i, base, cap, depth);
    let later = transaction::transactions(slice, frames, i + 1, base, cap, depth);
    let here = found.len() - later.len();
    assert forall|t: TransactionModel| #[trigger] later.contains(t) implies found.contains(t) by {
        let j = choose|j: int| 0 <= j < later.len() && later[j] == t;
        assert(found[here + j] == t);
    }
    if i < k {
        law_every_exchange_is_found(slice, frames, i + 1, base, cap, depth, k);
    } else {
        let p = frames[i].body(slice);
        let at = base + frames[i].offset + 8;
        if classify::kind_of(p) == Kind::HttpRequest && http::message(p, at, cap) is Some {
            assert(found[0] == transaction::cluster(slice, frames, i, base, cap));
        }
        if classify::kind_of(p) == Kind::StateBlob && depth < 4 {
            let inner = transaction::transactions(
                p,
                extract::nested(p, depth),
                0,
                at,
                cap,
                depth + 1,
            );
            assert forall|t: TransactionModel| #[trigger] inner.contains(t) implies found.contains(
                t,
            ) by {
                let j = choose|j: int| 0 <= j < inner.len() && inner[j] == t;
                assert(found[j] == t);
            }
        }
    }
}

/// A path: printable ASCII that starts with a slash.
pub open spec fn is_path(s: Seq<char>) -> bool {
    &&& s.len() > 0
    &&& s[0] == '/'
    &&& forall|i: int| 0 <= i < s.len() ==> '\u{20}' <= #[trigger] s[i] <= '\u{7e}'
}

/// One byte per character.
pub open spec fn narrow(s: Seq<char>) -> Seq<u8> {
    Seq::new(s.len(), |i: int| s[i] as u8)
}

/// The pair of bytes at `i` is the character at `i`, in UTF-16BE.
pub open spec fn wide_at(p: Seq<u8>, s: Seq<char>, i: int) -> bool {
    p[2 * i] == 0 && p[2 * i + 1] == s[i] as u8
}

/// `p` is `s` in UTF-16BE.
pub open spec fn is_wide(p: Seq<u8>, s: Seq<char>) -> bool {
    &&& p.len() == 2 * s.len()
    &&& forall|i: int| 0 <= i < s.len() ==> #[trigger] wide_at(p, s, i)
}

/// A path reads back, in ASCII of less than 4096 bytes or in UTF-16BE; and
/// whatever is read as a path is one that the payload holds.
pub proof fn law_paths(p: Seq<u8>, s: Seq<char>)
    ensures
        is_path(s) && s.len() < 4096 ==> transaction::path_in(narrow(s)) == Some(s),
        is_path(s) && is_wide(p, s) ==> transaction::path_in(p) == Some(s),
        transaction::path_in(p) matches Some(t) ==> is_path(t) && ((p == narrow(t) && t.len()
            < 4096) || is_wide(p, t)),
{
    if is_path(s) && s.len() < 4096 {
        let b = narrow(s);
        assert forall|k: int| 0 <= k < b.len() implies transaction::printable(#[trigger] b[k]) by {
            assert('\u{20}' <= s[k] <= '\u{7e}');
        }
        assert(crate::bytes::latin1(b) =~= s) by {
            assert forall|k: int| 0 <= k < s.len() implies crate::bytes::latin1(b)[k] == s[k] by {
                assert('\u{20}' <= s[k] <= '\u{7e}');
            }
        }
    }
    if is_path(s) && is_wide(p, s) {
        assert(s[0] == '/');
        assert(wide_at(p, s, 0));
        assert(p.len() / 2 == s.len());
        assert forall|k: int| 0 <= k < p.len() / 2 implies #[trigger] transaction::printable_pair(
            p,
            k,
        ) by {
            assert('\u{20}' <= s[k] <= '\u{7e}');
            assert(wide_at(p, s, k));
        }
        assert(transaction::second_bytes(p) =~= s) by {
            assert forall|k: int| 0 <= k < s.len() implies transaction::second_bytes(p)[k]
                == s[k] by {
                assert('\u{20}' <= s[k] <= '\u{7e}');
                assert(wide_at(p, s, k));
            }
        }
    }
    match transaction::path_in(p) {
        Some(t) => {
            if 0 < p.len() < 4096 && p[0] == 0x2f && (forall|k: int|
                0 <= k < p.len() ==> transaction::printable(#[trigger] p[k])) {
                assert forall|k: int| 0 <= k < t.len() implies '\u{20}' <= #[trigger] t[k]
                    <= '\u{7e}' by {
                    assert(transaction::printable(p[k]));
                }
                assert(narrow(t) =~= p) by {
                    assert forall|k: int| 0 <= k < p.len() implies narrow(t)[k] == p[k] by {
                        assert(transaction::printable(p[k]));
                    }
                }
                assert(t[0] == '/');
            } else {
                assert(transaction::printable_pair(p, 0));
                assert(p.len() % 2 == 0);
                assert(t.len() == p.len() / 2);
                assert(p.len() == 2 * t.len());
                assert(t[0] == '/');
                assert forall|k: int| 0 <= k < t.len() implies '\u{20}' <= #[trigger] t[k]
                    <= '\u{7e}' by {
                    assert(transaction::printable_pair(p, k));
                }
                assert forall|k: int| 0 <= k < t.len() implies #[trigger] wide_at(p, t, k) by {
                    assert(transaction::printable_pair(p, k));
                    assert(t[k] == p[2 * k + 1] as char);
                }
                assert(is_wide(p, t));
            }
        },
        None => {},
    }
}

/// The web address of a request is its host and path behind `https://`, a
/// slash where there is no path, and its parameters: a question mark before
/// the first, an ampersand before each other, an equals sign in each.
pub proof fn law_web_address(m: HttpModel, host: Seq<char>, k: Seq<char>, v: Seq<char>)
    requires
        m.host == Some(host),
    ensures
        ({
            let scheme = seq!['h', 't', 't', 'p', 's', ':', '/', '/'];
            let path = match m.path {
                Some(path) => path,
                None => seq!['/'],
            };
            let plain = HttpModel { query: Seq::empty(), ..m };
            let more = HttpModel { query: m.query.push((k, v)), ..m };
            let pair = k + seq!['='] + v;
            &&& transaction::url_of(plain) == Some(scheme + host + path)
            &&& transaction::url_of(more) == Some(
                transaction::url_of(m)->0 + if m.query.len() == 0 {
                    seq!['?']
                } else {
                    seq!['&']
                } + pair,
            )
            &&& transaction::url_of(HttpModel { host: None, ..m }) is None
        }),
{
    reveal_strlit("https://");
    reveal_strlit("/");
    reveal_strlit("?");
    reveal_strlit("&");
    reveal_strlit("=");
    assert("https://"@ =~= seq!['h', 't', 't', 'p', 's', ':', '/', '/']);
    assert("/"@ =~= seq!['/']);
    assert("?"@ =~= seq!['?']);
    assert("&"@ =~= seq!['&']);
    assert("="@ =~= seq!['=']);
    let q = m.query.push((k, v));
    assert(q.drop_last() =~= m.query);
    assert(q.last() == (k, v));
    let more = HttpModel { query: q, ..m };
    if m.query.len() == 0 {
        assert(transaction::url_of(more)->0 =~= transaction::url_of(m)->0 + seq!['?'] + (k + seq!['=']
            + v));
    } else {
        assert(transaction::url_of(more)->0 =~= transaction::url_of(m)->0 + seq!['&'] + (k + seq!['=']
            + v));
    }
}

} // verus!
