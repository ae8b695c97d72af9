//! What reading the issues out of a blob means.

use vstd::prelude::*;

use crate::project;
use crate::project::Blob;
use crate::project::BlobRole;
use crate::project::IssueModel;
use crate::project::SummaryModel;
use crate::strs;

verus! {

/// Issue prose stands among the first `k` texts.
pub open spec fn prose_before(v: Seq<Seq<char>>, k: int) -> bool {
    exists|j: int| 0 <= j < k && project::issue_prose(#[trigger] v[j])
}

/// A web address stands among the first `k` texts.
pub open spec fn address_before(v: Seq<Seq<char>>, k: int) -> bool {
    exists|j: int| 0 <= j < k && project::url_in(#[trigger] v[j]) is Some
}

/// The text at `k` closes an issue: it is issue prose, and before it stands
/// other prose, or a web address up to it.
pub open spec fn closes(v: Seq<Seq<char>>, k: int) -> bool {
    &&& 0 <= k < v.len()
    &&& project::issue_prose(v[k])
    &&& prose_before(v, k) || address_before(v, k + 1)
}

/// The text at `k` belongs to the stretch behind `b`, up to and with `c`.
pub open spec fn within(v: Seq<Seq<char>>, b: int, c: int, k: int) -> bool {
    b < k <= c && 0 <= k < v.len()
}

pub open spec fn severity_from(
    v: Seq<Seq<char>>,
    b: int,
    c: int,
    found: Option<Seq<char>>,
    k: int,
) -> bool {
    &&& within(v, b, c, k)
    &&& project::severity_in(v[k]) == found
    &&& forall|j: int| within(v, b, c, j) && j > k ==> project::severity_in(#[trigger] v[j]) is None
}

pub open spec fn confidence_from(
    v: Seq<Seq<char>>,
    b: int,
    c: int,
    found: Option<Seq<char>>,
    k: int,
) -> bool {
    &&& within(v, b, c, k)
    &&& project::confidence_in(v[k]) == found
    &&& forall|j: int|
        within(v, b, c, j) && j > k ==> project::confidence_in(#[trigger] v[j]) is None
}

pub open spec fn url_from(
    v: Seq<Seq<char>>,
    b: int,
    c: int,
    found: Option<Seq<char>>,
    k: int,
) -> bool {
    &&& within(v, b, c, k)
    &&& project::url_in(v[k]) == found
    &&& forall|j: int| within(v, b, c, j) && j < k ==> project::url_in(#[trigger] v[j]) is None
}

pub open spec fn path_from(
    v: Seq<Seq<char>>,
    b: int,
    c: int,
    found: Option<Seq<char>>,
    k: int,
) -> bool {
    &&& within(v, b, c, k)
    &&& project::path_like(v[k])
    &&& found == Some(v[k])
    &&& forall|j: int| within(v, b, c, j) && j < k ==> !project::path_like(#[trigger] v[j])
}

/// The last severity that a text of the stretch names, where one does.
pub open spec fn last_severity(
    v: Seq<Seq<char>>,
    b: int,
    c: int,
    found: Option<Seq<char>>,
) -> bool {
    match found {
        Some(_) => exists|k: int| #[trigger] severity_from(v, b, c, found, k),
        None => forall|j: int|
            within(v, b, c, j) ==> project::severity_in(#[trigger] v[j]) is None,
    }
}

/// The last confidence that a text of the stretch names, where one does.
pub open spec fn last_confidence(
    v: Seq<Seq<char>>,
    b: int,
    c: int,
    found: Option<Seq<char>>,
) -> bool {
    match found {
        Some(_) => exists|k: int| #[trigger] confidence_from(v, b, c, found, k),
        None => forall|j: int|
            within(v, b, c, j) ==> project::confidence_in(#[trigger] v[j]) is None,
    }
}

/// The first web address of the stretch, where there is one.
pub open spec fn first_url(v: Seq<Seq<char>>, b: int, c: int, found: Option<Seq<char>>) -> bool {
    match found {
        Some(_) => exists|k: int| #[trigger] url_from(v, b, c, found, k),
        None => forall|j: int| within(v, b, c, j) ==> project::url_in(#[trigger] v[j]) is None,
    }
}

/// The first text of the stretch that is like a path, where one is.
pub open spec fn first_path(v: Seq<Seq<char>>, b: int, c: int, found: Option<Seq<char>>) -> bool {
    match found {
        Some(_) => exists|k: int| #[trigger] path_from(v, b, c, found, k),
        None => forall|j: int| within(v, b, c, j) ==> !project::path_like(#[trigger] v[j]),
    }
}

/// The prose at `k` gives the excerpt: its first 240 bytes, in whole
/// characters.
pub open spec fn excerpt_at(v: Seq<Seq<char>>, k: int, found: Seq<char>) -> bool {
    &&& 0 <= k < v.len()
    &&& project::issue_prose(v[k])
    &&& found.len() <= v[k].len()
    &&& found == v[k].take(found.len() as int)
    &&& strs::utf8_len(found) <= 240
    &&& found.len() < v[k].len() ==> strs::utf8_len(v[k].take(found.len() as int + 1)) > 240
}

/// The excerpt of an issue is the prose that the stretch follows. Before the
/// first issue of a blob is closed, it is the first prose ahead of `c`.
pub open spec fn excerpt(v: Seq<Seq<char>>, b: int, c: int, found: Seq<char>) -> bool {
    if b >= 0 {
        excerpt_at(v, b, found)
    } else if prose_before(v, c) {
        exists|k: int| k < c && !prose_before(v, k) && #[trigger] excerpt_at(v, k, found)
    } else {
        found == Seq::<char>::empty()
    }
}

/// An issue with what the stretch behind `b`, up to and with `c`, says of it,
/// and nothing else.
pub open spec fn issue_from(v: Seq<Seq<char>>, b: int, c: int, i: IssueModel) -> bool {
    &&& excerpt(v, b, c, i.title_or_excerpt)
    &&& last_severity(v, b, c, i.severity)
    &&& last_confidence(v, b, c, i.confidence)
    &&& first_url(v, b, c, i.url)
    &&& first_path(v, b, c, i.path)
}

/// Where the stretch of issue `j` begins: behind the prose that closed the
/// issue before it.
pub open spec fn start_of(ends: Seq<int>, j: int) -> int {
    if j == 0 {
        -1
    } else {
        ends[j - 1]
    }
}

/// The places, in order, at which issues are closed.
pub open spec fn are_ends(v: Seq<Seq<char>>, ends: Seq<int>) -> bool {
    &&& forall|k: int| ends.contains(k) <==> #[trigger] closes(v, k)
    &&& forall|a: int, b: int| 0 <= a < b < ends.len() ==> ends[a] < ends[b]
}

/// All of an issue but its excerpt comes from the stretch.
spec fn details_from(v: Seq<Seq<char>>, b: int, c: int, i: IssueModel) -> bool {
    &&& last_severity(v, b, c, i.severity)
    &&& last_confidence(v, b, c, i.confidence)
    &&& first_url(v, b, c, i.url)
    &&& first_path(v, b, c, i.path)
}

proof fn lemma_has_excerpt(v: Seq<Seq<char>>, k: int)
    requires
        0 <= k < v.len(),
        project::issue_prose(v[k]),
    ensures
        strs::clipped(v[k], 240).len() > 0,
        excerpt_at(v, k, strs::clipped(v[k], 240)),
{
    let s = v[k];
    strs::law_clipped(s, 240);
    let t = strs::clipped(s, 240);
    if s.len() == 0 {
        reveal_strlit("</p>");
        reveal_strlit("<p>");
        reveal_strlit("<code>");
        reveal_strlit("<b>");
        assert(strs::utf8_len(s) == 0);
        assert(false);
    }
    if t.len() == 0 {
        let none = Seq::<char>::empty();
        vstd::utf8::char_is_scalar(s[0]);
        strs::lemma_utf8_len_push(none, s[0]);
        assert(none.push(s[0]) =~= s.take(1));
        assert(strs::width(s[0]) <= 4);
    }
}

/// One more text, and what it says, is all that a stretch changes by.
proof fn lemma_severity_step(
    v: Seq<Seq<char>>,
    s: Seq<char>,
    b: int,
    old_one: Option<Seq<char>>,
)
    requires
        b < v.len(),
        last_severity(v, b, v.len() as int, old_one),
    ensures
        project::severity_in(s) is Some ==> last_severity(
            v.push(s),
            b,
            v.len() as int,
            project::severity_in(s),
        ),
        project::severity_in(s) is None ==> last_severity(v.push(s), b, v.len() as int, old_one),
{
    let n = v.len() as int;
    let w = v.push(s);
    if project::severity_in(s) is Some {
        assert(severity_from(w, b, n, project::severity_in(s), n));
    } else if old_one is Some {
        let k = choose|k: int| #[trigger] severity_from(v, b, n, old_one, k);
        assert(severity_from(w, b, n, old_one, k)) by {
            assert forall|j: int| within(w, b, n, j) && j > k implies project::severity_in(
                #[trigger] w[j],
            ) is None by {
                if j < n {
                    assert(within(v, b, n, j));
                    assert(project::severity_in(v[j]) is None);
                }
            }
        }
    } else {
        assert forall|j: int| within(w, b, n, j) implies project::severity_in(
            #[trigger] w[j],
        ) is None by {
            if j < n {
                assert(within(v, b, n, j));
                assert(project::severity_in(v[j]) is None);
            }
        }
    }
}

proof fn lemma_confidence_step(
    v: Seq<Seq<char>>,
    s: Seq<char>,
    b: int,
    old_one: Option<Seq<char>>,
)
    requires
        b < v.len(),
        last_confidence(v, b, v.len() as int, old_one),
    ensures
        project::confidence_in(s) is Some ==> last_confidence(
            v.push(s),
            b,
            v.len() as int,
            project::confidence_in(s),
        ),
        project::confidence_in(s) is None ==> last_confidence(
            v.push(s),
            b,
            v.len() as int,
            old_one,
        ),
{
    let n = v.len() as int;
    let w = v.push(s);
    if project::confidence_in(s) is Some {
        assert(confidence_from(w, b, n, project::confidence_in(s), n));
    } else if old_one is Some {
        let k = choose|k: int| #[trigger] confidence_from(v, b, n, old_one, k);
        assert(confidence_from(w, b, n, old_one, k)) by {
            assert forall|j: int| within(w, b, n, j) && j > k implies project::confidence_in(
                #[trigger] w[j],
            ) is None by {
                if j < n {
                    assert(within(v, b, n, j));
                    assert(project::confidence_in(v[j]) is None);
                }
            }
        }
    } else {
        assert forall|j: int| within(w, b, n, j) implies project::confidence_in(
            #[trigger] w[j],
        ) is None by {
            if j < n {
                assert(within(v, b, n, j));
                assert(project::confidence_in(v[j]) is None);
            }
        }
    }
}

proof fn lemma_url_step(v: Seq<Seq<char>>, s: Seq<char>, b: int, old_one: Option<Seq<char>>)
    requires
        b < v.len(),
        first_url(v, b, v.len() as int, old_one),
    ensures
        old_one is Some ==> first_url(v.push(s), b, v.len() as int, old_one),
        old_one is None ==> first_url(v.push(s), b, v.len() as int, project::url_in(s)),
{
    let n = v.len() as int;
    let w = v.push(s);
    if old_one is Some {
        let k = choose|k: int| #[trigger] url_from(v, b, n, old_one, k);
        assert(url_from(w, b, n, old_one, k)) by {
            assert forall|j: int| within(w, b, n, j) && j < k implies project::url_in(
                #[trigger] w[j],
            ) is None by {
                assert(within(v, b, n, j));
                assert(project::url_in(v[j]) is None);
            }
        }
    } else {
        assert forall|j: int| within(w, b, n, j) && j < n implies project::url_in(
            #[trigger] w[j],
        ) is None by {
            assert(within(v, b, n, j));
            assert(project::url_in(v[j]) is None);
        }
        if project::url_in(s) is Some {
            assert(url_from(w, b, n, project::url_in(s), n));
        }
    }
}

proof fn lemma_path_step(v: Seq<Seq<char>>, s: Seq<char>, b: int, old_one: Option<Seq<char>>)
    requires
        b < v.len(),
        first_path(v, b, v.len() as int, old_one),
    ensures
        old_one is Some || !project::path_like(s) ==> first_path(
            v.push(s),
            b,
            v.len() as int,
            old_one,
        ),
        old_one is None && project::path_like(s) ==> first_path(
            v.push(s),
            b,
            v.len() as int,
            Some(s),
        ),
{
    let n = v.len() as int;
    let w = v.push(s);
    if old_one is Some {
        let k = choose|k: int| #[trigger] path_from(v, b, n, old_one, k);
        assert(path_from(w, b, n, old_one, k)) by {
            assert forall|j: int| within(w, b, n, j) && j < k implies !project::path_like(
                #[trigger] w[j],
            ) by {
                assert(within(v, b, n, j));
                assert(!project::path_like(v[j]));
            }
        }
    } else {
        assert forall|j: int| within(w, b, n, j) && j < n implies !project::path_like(
            #[trigger] w[j],
        ) by {
            assert(within(v, b, n, j));
            assert(!project::path_like(v[j]));
        }
        if project::path_like(s) {
            assert(path_from(w, b, n, Some(s), n));
        }
    }
}

/// A text says of the open issue what it says.
proof fn lemma_noted(v: Seq<Seq<char>>, s: Seq<char>, b: int, cur: IssueModel)
    requires
        b < v.len(),
        details_from(v, b, v.len() as int, cur),
    ensures
        details_from(v.push(s), b, v.len() as int, project::noted(cur, s)),
{
    lemma_severity_step(v, s, b, cur.severity);
    lemma_confidence_step(v, s, b, cur.confidence);
    lemma_url_step(v, s, b, cur.url);
    lemma_path_step(v, s, b, cur.path);
}

/// Whatever stands within `v` stands there when it has grown; at its end a
/// stretch may be told by its last text or by what follows.
proof fn lemma_details_keep(
    v: Seq<Seq<char>>,
    w: Seq<Seq<char>>,
    b: int,
    c: int,
    d: int,
    i: IssueModel,
)
    requires
        details_from(v, b, c, i),
        v.len() <= w.len(),
        forall|j: int| 0 <= j < v.len() ==> #[trigger] w[j] == v[j],
        forall|j: int| within(v, b, c, j) <==> #[trigger] within(w, b, d, j),
    ensures
        details_from(w, b, d, i),
{
    if i.severity is Some {
        let k = choose|k: int| #[trigger] severity_from(v, b, c, i.severity, k);
        assert(within(w, b, d, k));
        assert(severity_from(w, b, d, i.severity, k));
    }
    if i.confidence is Some {
        let k = choose|k: int| #[trigger] confidence_from(v, b, c, i.confidence, k);
        assert(within(w, b, d, k));
        assert(confidence_from(w, b, d, i.confidence, k));
    }
    if i.url is Some {
        let k = choose|k: int| #[trigger] url_from(v, b, c, i.url, k);
        assert(within(w, b, d, k));
        assert(url_from(w, b, d, i.url, k));
    }
    if i.path is Some {
        let k = choose|k: int| #[trigger] path_from(v, b, c, i.path, k);
        assert(within(w, b, d, k));
        assert(path_from(w, b, d, i.path, k));
    }
}

proof fn lemma_before_keeps(v: Seq<Seq<char>>, w: Seq<Seq<char>>, k: int)
    requires
        k <= v.len() <= w.len(),
        forall|j: int| 0 <= j < v.len() ==> #[trigger] w[j] == v[j],
    ensures
        prose_before(v, k) == prose_before(w, k),
        address_before(v, k) == address_before(w, k),
{
    if prose_before(v, k) {
        let j = choose|j: int| 0 <= j < k && project::issue_prose(#[trigger] v[j]);
        assert(project::issue_prose(w[j]));
    }
    if prose_before(w, k) {
        let j = choose|j: int| 0 <= j < k && project::issue_prose(#[trigger] w[j]);
        assert(project::issue_prose(v[j]));
    }
    if address_before(v, k) {
        let j = choose|j: int| 0 <= j < k && project::url_in(#[trigger] v[j]) is Some;
        assert(project::url_in(w[j]) is Some);
    }
    if address_before(w, k) {
        let j = choose|j: int| 0 <= j < k && project::url_in(#[trigger] w[j]) is Some;
        assert(project::url_in(v[j]) is Some);
    }
}

proof fn lemma_excerpt_keeps(
    v: Seq<Seq<char>>,
    w: Seq<Seq<char>>,
    b: int,
    c: int,
    found: Seq<char>,
)
    requires
        excerpt(v, b, c, found),
        c <= v.len() <= w.len(),
        forall|j: int| 0 <= j < v.len() ==> #[trigger] w[j] == v[j],
    ensures
        excerpt(w, b, c, found),
{
    lemma_before_keeps(v, w, c);
    if b < 0 && prose_before(v, c) {
        let k = choose|k: int|
            k < c && !prose_before(v, k) && #[trigger] excerpt_at(v, k, found);
        lemma_before_keeps(v, w, k);
        assert(excerpt_at(w, k, found));
    }
}

/// What the reading of issues has done: every issue that was closed is told by
/// its own stretch, and so is the one that is open.
spec fn read_so_far(
    m: SummaryModel,
    v: Seq<Seq<char>>,
    st: (IssueModel, SummaryModel),
    ends: Seq<int>,
) -> bool {
    &&& are_ends(v, ends)
    &&& st.1.issues.len() == m.issues.len() + ends.len()
    &&& st.1.issues.take(m.issues.len() as int) == m.issues
    &&& forall|j: int|
        0 <= j < ends.len() ==> issue_from(
            v,
            start_of(ends, j),
            ends[j],
            #[trigger] st.1.issues[m.issues.len() + j],
        )
    &&& issue_from(v, start_of(ends, ends.len() as int), v.len() as int, st.0)
}

proof fn lemma_closes_keeps(v: Seq<Seq<char>>, s: Seq<char>, k: int)
    requires
        k < v.len(),
    ensures
        closes(v.push(s), k) == closes(v, k),
{
    lemma_before_keeps(v, v.push(s), k);
    lemma_before_keeps(v, v.push(s), k + 1);
}

/// Whether prose closes the open issue is whether that is worth keeping.
proof fn lemma_when_closed(v: Seq<Seq<char>>, s: Seq<char>, b: int, cur: IssueModel)
    requires
        project::issue_prose(s),
        b >= 0 ==> closes(v, b),
        b < v.len(),
        b < 0 ==> b == -1,
        issue_from(v, b, v.len() as int, cur),
    ensures
        project::worthwhile(project::noted(cur, s)) == closes(v.push(s), v.len() as int),
{
    let n = v.len() as int;
    let w = v.push(s);
    lemma_before_keeps(v, w, n);
    lemma_noted(v, s, b, cur);
    let now = project::noted(cur, s);
    if b >= 0 {
        assert(project::issue_prose(w[b]));
        assert(prose_before(w, n));
        let t = cur.title_or_excerpt;
        assert(excerpt_at(v, b, t));
        lemma_excerpt_not_empty(v, b, t);
    } else if prose_before(v, n) {
        let t = cur.title_or_excerpt;
        let k = choose|k: int| k < n && !prose_before(v, k) && #[trigger] excerpt_at(v, k, t);
        lemma_excerpt_not_empty(v, k, t);
    } else {
        assert(cur.title_or_excerpt.len() == 0);
        if now.url is Some {
            let k = choose|k: int| #[trigger] url_from(w, b, n, now.url, k);
            assert(project::url_in(w[k]) is Some);
            assert(address_before(w, n + 1));
        } else if address_before(w, n + 1) {
            let j = choose|j: int| 0 <= j < n + 1 && project::url_in(#[trigger] w[j]) is Some;
            assert(within(w, b, n, j));
        }
    }
}

proof fn lemma_excerpt_not_empty(v: Seq<Seq<char>>, k: int, t: Seq<char>)
    requires
        excerpt_at(v, k, t),
    ensures
        t.len() > 0,
{
    lemma_has_excerpt(v, k);
    let s = v[k];
    if t.len() == 0 {
        let none = Seq::<char>::empty();
        vstd::utf8::char_is_scalar(s[0]);
        strs::lemma_utf8_len_push(none, s[0]);
        assert(none.push(s[0]) =~= s.take(1));
        assert(strs::width(s[0]) <= 4);
    }
}

proof fn lemma_read_step(
    m: SummaryModel,
    v: Seq<Seq<char>>,
    s: Seq<char>,
    st: (IssueModel, SummaryModel),
    ends: Seq<int>,
) -> (more: Seq<int>)
    requires
        read_so_far(m, v, st, ends),
    ensures
        read_so_far(m, v.push(s), project::with_issue_text(st, s), more),
{
    let n = v.len() as int;
    let w = v.push(s);
    let b = start_of(ends, ends.len() as int);
    let (cur, sum) = st;
    let now = project::noted(cur, s);
    let next = project::with_issue_text(st, s);
    let base = m.issues.len() as int;
    if ends.len() > 0 {
        assert(ends.contains(b));
        assert(closes(v, b));
    }
    assert forall|j: int| 0 <= j < ends.len() implies ends[j] < n && closes(
        v,
        #[trigger] ends[j],
    ) by {
        assert(ends.contains(ends[j]));
    }
    lemma_noted(v, s, b, cur);
    lemma_excerpt_keeps(v, w, b, n, cur.title_or_excerpt);
    assert(issue_from(w, b, n, now));
    assert forall|j: int| 0 <= j < ends.len() implies issue_from(
        w,
        start_of(ends, j),
        ends[j],
        #[trigger] sum.issues[base + j],
    ) by {
        let i = sum.issues[base + j];
        assert(issue_from(v, start_of(ends, j), ends[j], i));
        lemma_details_keep(v, w, start_of(ends, j), ends[j], ends[j], i);
        lemma_excerpt_keeps(v, w, start_of(ends, j), ends[j], i.title_or_excerpt);
    }
    let closing = closes(w, n);
    let more = if closing {
        ends.push(n)
    } else {
        ends
    };
    if project::issue_prose(s) {
        lemma_when_closed(v, s, b, cur);
    }
    assert(are_ends(w, more)) by {
        assert forall|k: int| more.contains(k) <==> #[trigger] closes(w, k) by {
            if k < n {
                lemma_closes_keeps(v, s, k);
                assert(closes(v, k) == closes(w, k));
            }
            if closing {
                assert(more[ends.len() as int] == n);
                if ends.contains(k) {
                    let j = choose|j: int| 0 <= j < ends.len() && ends[j] == k;
                    assert(more[j] == k);
                }
                if more.contains(k) && k != n {
                    let j = choose|j: int| 0 <= j < more.len() && more[j] == k;
                    assert(ends[j] == k);
                }
            }
        }
    }
    if closing {
        assert(next.1.issues =~= sum.issues.push(now));
        assert(next.1.issues.take(base) =~= sum.issues.take(base));
        assert forall|j: int| 0 <= j < more.len() implies issue_from(
            w,
            start_of(more, j),
            more[j],
            #[trigger] next.1.issues[base + j],
        ) by {
            if j < ends.len() {
                assert(next.1.issues[base + j] == sum.issues[base + j]);
                assert(start_of(more, j) == start_of(ends, j));
            } else {
                assert(start_of(more, j) == b);
            }
        }
        lemma_has_excerpt(w, n);
        assert(issue_from(w, n, n + 1, next.0));
    } else {
        assert(next.1.issues == sum.issues);
        lemma_details_keep(w, w, b, n, n + 1, now);
        if project::issue_prose(s) {
            lemma_before_keeps(v, w, n);
            lemma_has_excerpt(w, n);
            assert(b == -1) by {
                if b >= 0 {
                    assert(project::issue_prose(w[b]));
                    assert(prose_before(w, n));
                }
            }
            assert(!prose_before(w, n));
            assert(project::issue_prose(w[n]));
            assert(prose_before(w, n + 1));
            assert(excerpt(w, b, n + 1, next.0.title_or_excerpt));
            assert(issue_from(w, b, n + 1, next.0));
        } else {
            lemma_before_keeps(v, w, n);
            assert(prose_before(w, n + 1) == prose_before(w, n)) by {
                if prose_before(w, n + 1) {
                    let j = choose|j: int|
                        0 <= j < n + 1 && project::issue_prose(#[trigger] w[j]);
                    assert(j != n);
                }
                if prose_before(w, n) {
                    let j = choose|j: int| 0 <= j < n && project::issue_prose(#[trigger] w[j]);
                    assert(0 <= j < n + 1 && project::issue_prose(w[j]));
                }
            }
            assert(excerpt(w, b, n + 1, next.0.title_or_excerpt));
            assert(issue_from(w, b, n + 1, next.0));
        }
    }
    more
}

proof fn lemma_reading(m: SummaryModel, v: Seq<Seq<char>>) -> (ends: Seq<int>)
    ensures
        read_so_far(m, v, project::reading_issues(m, v), ends),
    decreases v.len(),
{
    if v.len() == 0 {
        let ends = Seq::<int>::empty();
        let st = project::reading_issues(m, v);
        assert(st.1.issues.take(m.issues.len() as int) =~= m.issues);
        assert(!prose_before(v, 0));
        ends
    } else {
        let init = v.drop_last();
        let ends = lemma_reading(m, init);
        assert(init.push(v.last()) =~= v);
        lemma_read_step(m, init, v.last(), project::reading_issues(m, init), ends)
    }
}

/// Each place that closes an issue gives one, in order: it is told by its own
/// stretch of the blob, the texts behind the prose that closed the issue
/// before it, up to and with the prose that closes it, and by none outside it.
/// What is left open at the end of the blob is an issue too, where it has an
/// excerpt or a web address.
pub proof fn law_issues_keep_to_their_stretch(m: SummaryModel, v: Seq<Seq<char>>) -> (ends: Seq<
    int,
>)
    requires
        project::role_of(v) == BlobRole::Issues,
    ensures
        are_ends(v, ends),
        ({
            let before = m.issues.len() as int;
            let all = project::with_blob(m, v).issues;
            let rest = all.skip(before + ends.len());
            let last = start_of(ends, ends.len() as int);
            &&& all.len() >= before + ends.len()
            &&& all.take(before) == m.issues
            &&& forall|j: int|
                0 <= j < ends.len() ==> issue_from(
                    v,
                    start_of(ends, j),
                    ends[j],
                    #[trigger] all[before + j],
                )
            &&& rest.len() <= 1
            &&& rest.len() == 1 ==> issue_from(v, last, v.len() as int, rest[0])
            &&& rest.len() == 1 <==> prose_before(v, v.len() as int) || address_before(
                v,
                v.len() as int,
            )
        }),
{
    let ends = lemma_reading(m, v);
    let n = v.len() as int;
    let (cur, sum) = project::reading_issues(m, v);
    let all = project::with_blob(m, v).issues;
    let before = m.issues.len() as int;
    let b = start_of(ends, ends.len() as int);
    assert(all.take(before) =~= sum.issues.take(before));
    assert forall|j: int| 0 <= j < ends.len() implies issue_from(
        v,
        start_of(ends, j),
        ends[j],
        #[trigger] all[before + j],
    ) by {
        assert(all[before + j] == sum.issues[before + j]);
    }
    let t = cur.title_or_excerpt;
    if b >= 0 {
        assert(ends.contains(b));
        assert(closes(v, b));
        assert(prose_before(v, n));
        lemma_excerpt_not_empty(v, b, t);
    } else if prose_before(v, n) {
        let k = choose|k: int| k < n && !prose_before(v, k) && #[trigger] excerpt_at(v, k, t);
        lemma_excerpt_not_empty(v, k, t);
    } else if cur.url is Some {
        let k = choose|k: int| #[trigger] url_from(v, b, n, cur.url, k);
        assert(project::url_in(v[k]) is Some);
    } else if address_before(v, n) {
        let j = choose|j: int| 0 <= j < n && project::url_in(#[trigger] v[j]) is Some;
        assert(within(v, b, n, j)) by {
            if ends.len() > 0 {
                assert(ends.contains(b));
                assert(closes(v, b));
            }
        }
    }
    ends
}

/// An issue of a stretch in which no text is like a path has none; else its
/// path is the first such text there. Its web address is the first there, and
/// its severity and confidence are the last named there.
pub proof fn law_issue_details(v: Seq<Seq<char>>, b: int, c: int, i: IssueModel, k: int)
    requires
        issue_from(v, b, c, i),
        within(v, b, c, k),
    ensures
        i.path is None ==> !project::path_like(v[k]),
        project::path_like(v[k]) && (forall|j: int|
            b < j < k && 0 <= j ==> !project::path_like(#[trigger] v[j])) ==> i.path == Some(v[k]),
        i.url is None ==> project::url_in(v[k]) is None,
        project::url_in(v[k]) is Some && (forall|j: int|
            b < j < k && 0 <= j ==> project::url_in(#[trigger] v[j]) is None) ==> i.url
            == project::url_in(v[k]),
        i.severity is None ==> project::severity_in(v[k]) is None,
        project::severity_in(v[k]) is Some && (forall|j: int|
            k < j <= c && j < v.len() ==> project::severity_in(#[trigger] v[j]) is None)
            ==> i.severity == project::severity_in(v[k]),
        i.confidence is None ==> project::confidence_in(v[k]) is None,
        project::confidence_in(v[k]) is Some && (forall|j: int|
            k < j <= c && j < v.len() ==> project::confidence_in(#[trigger] v[j]) is None)
            ==> i.confidence == project::confidence_in(v[k]),
{
    if i.path is Some {
        let p = choose|p: int| #[trigger] path_from(v, b, c, i.path, p);
        assert(project::path_like(v[p]));
        assert(p < k || p == k || p > k);
    }
    if i.url is Some {
        let p = choose|p: int| #[trigger] url_from(v, b, c, i.url, p);
        assert(project::url_in(v[p]) is Some);
    }
    if i.severity is Some {
        let p = choose|p: int| #[trigger] severity_from(v, b, c, i.severity, p);
        assert(project::severity_in(v[p]) is Some);
    }
    if i.confidence is Some {
        let p = choose|p: int| #[trigger] confidence_from(v, b, c, i.confidence, p);
        assert(project::confidence_in(v[p]) is Some);
    }
}

proof fn lemma_other_texts(m: SummaryModel, role: BlobRole, v: Seq<Seq<char>>)
    ensures
        project::with_blob_texts(m, role, v).issues == m.issues,
    decreases v.len(),
{
    if v.len() > 0 {
        lemma_other_texts(m, role, v.drop_last());
    }
}

proof fn lemma_reading_apart(m: SummaryModel, n: SummaryModel, v: Seq<Seq<char>>) -> (more: Seq<
    IssueModel,
>)
    ensures
        project::reading_issues(m, v).0 == project::reading_issues(n, v).0,
        project::reading_issues(m, v).1.issues == m.issues + more,
        project::reading_issues(n, v).1.issues == n.issues + more,
    decreases v.len(),
{
    if v.len() == 0 {
        let more = Seq::<IssueModel>::empty();
        assert(m.issues + more =~= m.issues);
        assert(n.issues + more =~= n.issues);
        more
    } else {
        let some = lemma_reading_apart(m, n, v.drop_last());
        let cur = project::noted(project::reading_issues(m, v.drop_last()).0, v.last());
        if project::issue_prose(v.last()) && project::worthwhile(cur) {
            let more = some.push(cur);
            assert((m.issues + some).push(cur) =~= m.issues + more);
            assert((n.issues + some).push(cur) =~= n.issues + more);
            more
        } else {
            some
        }
    }
}

/// The issues of a summary are those of its blobs, one blob after the other;
/// only blobs of issues have any, and no blob changes another's.
pub proof fn law_issues_blob_by_blob(blobs: Seq<Blob>, b: Blob)
    ensures
        ({
            let own = project::with_blob(project::blank_summary(), project::blob_texts(b)).issues;
            &&& project::summary_of(blobs.push(b)).issues == project::summary_of(blobs).issues + own
            &&& project::role_of(project::blob_texts(b)) != BlobRole::Issues ==> own.len() == 0
        }),
{
    let all = blobs.push(b);
    assert(all.drop_last() =~= blobs);
    let v = project::blob_texts(b);
    let m = project::with_blobs(project::blank_summary(), blobs);
    let none = project::blank_summary();
    let role = project::role_of(v);
    let own = project::with_blob(none, v).issues;
    if role == BlobRole::Issues {
        let more = lemma_reading_apart(m, none, v);
        let cur = project::reading_issues(m, v).0;
        assert(none.issues + more =~= more);
        if project::worthwhile(cur) {
            assert((m.issues + more).push(cur) =~= m.issues + more.push(cur));
        }
    } else {
        lemma_other_texts(m, role, v);
        lemma_other_texts(none, role, v);
        assert(m.issues + none.issues =~= m.issues);
    }
}

} // verus!
