//! Group framed records into HTTP transactions.
//!
//! Each exchange in Burp's history is a cluster of frames at one offset:
//!
//! ```text
//!   [4-byte id]    transaction id
//!   [4-byte id]    secondary id (connection / parent)
//!   [request]
//!   [response]
//!   [path]         sitemap key (ASCII or UTF-16BE)
//! ```
//!
//! Some entries are missing the response (in-flight or aborted) or have
//! extra metadata wedged in. The walker stitches what it can and leaves
//! the rest as `None`.

use vstd::prelude::*;

use crate::bytes;
use crate::classify;
use crate::classify::Kind;
use crate::extract;
use crate::file::ProjectFile;
use crate::frame;
use crate::frame::Frame;
use crate::frame::FrameIter;
use crate::http;
use crate::http::HttpMessage;
use crate::http::HttpModel;
use crate::num;
use crate::strs;

verus! {

#[derive(Debug, Clone)]
pub struct Transaction {
    /// Absolute byte offset of the request frame's payload in the file.
    pub offset: usize,
    pub transaction_id: Option<u32>,
    pub secondary_id: Option<u32>,
    pub sitemap_path: Option<String>,
    pub request: Option<HttpMessage>,
    pub response: Option<HttpMessage>,
}

/// What a transaction says, with its texts as sequences of characters.
#[verifier::ext_equal]
pub struct TransactionModel {
    pub offset: int,
    pub transaction_id: Option<nat>,
    pub secondary_id: Option<nat>,
    pub sitemap_path: Option<Seq<char>>,
    pub request: Option<HttpModel>,
    pub response: Option<HttpModel>,
}

pub open spec fn opt_id(o: Option<u32>) -> Option<nat> {
    match o {
        Some(n) => Some(n as nat),
        None => None,
    }
}

impl View for Transaction {
    type V = TransactionModel;

    open spec fn view(&self) -> TransactionModel {
        TransactionModel {
            offset: self.offset as int,
            transaction_id: opt_id(self.transaction_id),
            secondary_id: opt_id(self.secondary_id),
            sitemap_path: strs::opt_text(self.sitemap_path),
            request: http::opt_message(self.request),
            response: http::opt_message(self.response),
        }
    }
}

pub open spec fn transaction_models(v: Seq<Transaction>) -> Seq<TransactionModel> {
    v.map_values(|t: Transaction| t@)
}

pub open spec fn blank_transaction() -> TransactionModel {
    TransactionModel {
        offset: 0,
        transaction_id: None,
        secondary_id: None,
        sitemap_path: None,
        request: None,
        response: None,
    }
}

impl Default for Transaction {
    fn default() -> (r: Self)
        ensures
            r@ == blank_transaction(),
    {
        Transaction {
            offset: 0,
            transaction_id: None,
            secondary_id: None,
            sitemap_path: None,
            request: None,
            response: None,
        }
    }
}

/// The parameters of a query, written out.
pub open spec fn query_text(q: Seq<(Seq<char>, Seq<char>)>) -> Seq<char>
    decreases q.len(),
{
    if q.len() == 0 {
        Seq::empty()
    } else {
        let one = q.last().0 + "="@ + q.last().1;
        if q.len() == 1 {
            one
        } else {
            query_text(q.drop_last()) + "&"@ + one
        }
    }
}

/// The web address of a request. The scheme is not stored; it is taken to be
/// https.
pub open spec fn url_of(m: HttpModel) -> Option<Seq<char>> {
    match m.host {
        Some(host) => {
            let path = match m.path {
                Some(path) => path,
                None => "/"@,
            };
            let url = "https://"@ + host + path;
            Some(
                if m.query.len() > 0 {
                    url + "?"@ + query_text(m.query)
                } else {
                    url
                },
            )
        },
        None => None,
    }
}

/// The web address of a transaction's request, where there is one.
pub open spec fn request_url_of(t: TransactionModel) -> Option<Seq<char>> {
    match t.request {
        Some(m) => url_of(m),
        None => None,
    }
}

impl Transaction {
    /// `true` if both a request and a response landed in the cluster.
    pub fn is_paired(&self) -> (r: bool)
        ensures
            r == (self@.request is Some && self@.response is Some),
    {
        self.request.is_some() && self.response.is_some()
    }

    /// Convenience: the request URL as `scheme://host/path?query`. Returns
    /// `None` if the request isn't present or names no host.
    pub fn request_url(&self) -> (r: Option<String>)
        ensures
            strs::opt_text(r) == request_url_of(self@),
    {
        let req: &HttpMessage = match &self.request {
            Some(m) => m,
            None => {
                return None;
            },
        };
        let host: &str = match &req.host {
            Some(s) => s.as_str(),
            None => {
                return None;
            },
        };
        let path: &str = match &req.path {
            Some(s) => s.as_str(),
            None => "/",
        };
        let mut url: String = "https://".to_owned();
        strs::push_text(&mut url, host);
        strs::push_text(&mut url, path);
        if req.query.len() > 0 {
            strs::push_text(&mut url, "?");
            let ghost start = url@;
            let ghost q = http::pairs(req.query@);
            assert(q.len() == req.query@.len());
            assert(q.take(0) =~= Seq::<(Seq<char>, Seq<char>)>::empty());
            for i in 0..req.query.len()
                invariant
                    q == http::pairs(req.query@),
                    url@ == start + query_text(q.take(i as int)),
            {
                assert(q.take(i + 1).drop_last() =~= q.take(i as int));
                assert(q.take(i + 1).last() == (req.query@[i as int].0@, req.query@[i as int].1@));
                if i > 0 {
                    strs::push_text(&mut url, "&");
                }
                strs::push_text(&mut url, req.query[i].0.as_str());
                strs::push_text(&mut url, "=");
                strs::push_text(&mut url, req.query[i].1.as_str());
                assert(url@ =~= start + query_text(q.take(i + 1)));
            }
            assert(q.take(q.len() as int) =~= q);
        }
        Some(url)
    }
}

/// The numbers of the 4-byte frames right before frame `i`, the nearest
/// first, from the one `back` before it on. At most four are read.
pub open spec fn ids_back(slice: Seq<u8>, frames: Seq<Frame>, i: int, back: int) -> Seq<nat>
    decreases 5 - back,
{
    if back > 4 || back > i {
        Seq::empty()
    } else {
        let p = frames[i - back].body(slice);
        if p.len() != 4 {
            Seq::empty()
        } else {
            seq![num::big_endian(p)] + ids_back(slice, frames, i, back + 1)
        }
    }
}

/// A transaction with its ids: the secondary id stands right before the
/// request, and the transaction id before that. A lone id is the
/// transaction's.
pub open spec fn with_ids(t: TransactionModel, ids: Seq<nat>) -> TransactionModel {
    TransactionModel {
        transaction_id: if ids.len() == 0 {
            None
        } else if ids.len() == 1 {
            Some(ids[0])
        } else {
            Some(ids[1])
        },
        secondary_id: if ids.len() >= 2 {
            Some(ids[0])
        } else {
            None
        },
        ..t
    }
}

/// A printable ASCII byte.
pub open spec fn printable(b: u8) -> bool {
    0x20 <= b <= 0x7e
}

/// The `k`-th pair of bytes is a printable ASCII character in UTF-16BE.
pub open spec fn printable_pair(p: Seq<u8>, k: int) -> bool {
    p[2 * k] == 0 && printable(p[2 * k + 1])
}

/// The second byte of each pair.
pub open spec fn second_bytes(p: Seq<u8>) -> Seq<char> {
    Seq::new(p.len() / 2, |k: int| p[2 * k + 1] as char)
}

/// The path that a payload holds: printable ASCII, or the same in UTF-16BE,
/// that starts with a slash.
pub open spec fn path_in(p: Seq<u8>) -> Option<Seq<char>> {
    if 0 < p.len() < 4096 && p[0] == 0x2f && (forall|k: int|
        0 <= k < p.len() ==> printable(#[trigger] p[k])) {
        Some(bytes::latin1(p))
    } else if p.len() >= 2 && p.len() % 2 == 0 && p[1] == 0x2f && (forall|k: int|
        0 <= k < p.len() / 2 ==> #[trigger] printable_pair(p, k)) {
        Some(second_bytes(p))
    } else {
        None
    }
}

/// The cluster of the request at `i`, read on from frame `j`. The reading
/// ends after the first text frame, before the next request, or after four
/// frames.
pub open spec fn cluster_from(
    slice: Seq<u8>,
    frames: Seq<Frame>,
    i: int,
    j: int,
    base: int,
    cap: int,
    t: TransactionModel,
) -> TransactionModel
    decreases i + 5 - j,
{
    if j >= frames.len() || j > i + 4 {
        t
    } else {
        let p = frames[j].body(slice);
        match classify::kind_of(p) {
            Kind::HttpRequest => t,
            Kind::HttpResponse => {
                let t = if t.response is None {
                    TransactionModel {
                        response: http::message(p, base + frames[j].offset + 8, cap),
                        ..t
                    }
                } else {
                    t
                };
                cluster_from(slice, frames, i, j + 1, base, cap, t)
            },
            Kind::Utf8Text | Kind::Utf16Text => TransactionModel { sitemap_path: path_in(p), ..t },
            _ => cluster_from(slice, frames, i, j + 1, base, cap, t),
        }
    }
}

/// The transaction of the request at frame `i`.
pub open spec fn cluster(
    slice: Seq<u8>,
    frames: Seq<Frame>,
    i: int,
    base: int,
    cap: int,
) -> TransactionModel {
    let offset = base + frames[i].offset + 8;
    let t = TransactionModel {
        offset,
        request: http::message(frames[i].body(slice), offset, cap),
        ..blank_transaction()
    };
    cluster_from(
        slice,
        frames,
        i,
        i + 1,
        base,
        cap,
        with_ids(t, ids_back(slice, frames, i, 1)),
    )
}

/// The transactions that frames from `i` on form, one for each that holds a
/// request, those within state blobs included down to the fourth depth. The
/// frames lie in `slice`, which lies at `base` in the file.
pub open spec fn transactions(
    slice: Seq<u8>,
    frames: Seq<Frame>,
    i: int,
    base: int,
    cap: int,
    depth: nat,
) -> Seq<TransactionModel>
    decreases 5 - depth, frames.len() - i,
{
    if i < 0 || i >= frames.len() || depth > 4 {
        Seq::empty()
    } else {
        let p = frames[i].body(slice);
        let at = base + frames[i].offset + 8;
        let here = match classify::kind_of(p) {
            Kind::HttpRequest => if http::message(p, at, cap) is Some {
                seq![cluster(slice, frames, i, base, cap)]
            } else {
                Seq::empty()
            },
            Kind::StateBlob => if depth < 4 {
                transactions(p, extract::nested(p, depth), 0, at, cap, depth + 1)
            } else {
                Seq::empty()
            },
            _ => Seq::empty(),
        };
        here + transactions(slice, frames, i + 1, base, cap, depth)
    }
}

/// Every transaction in a file.
pub open spec fn all_transactions(buf: Seq<u8>, cap: int) -> Seq<TransactionModel> {
    transactions(buf, frame::scan_of(buf, 1, 0x400_0000).frames(), 0, 0, cap, 0)
}

/// The callback was given the first of the transactions, in order; it was
/// given all of them unless it stopped the walk, by returning `false` from
/// its last call.
pub open spec fn handed<F: FnMut(Transaction) -> bool>(
    cb: F,
    called: Seq<Transaction>,
    outs: Seq<bool>,
    all: Seq<TransactionModel>,
) -> bool {
    &&& called.len() == outs.len() <= all.len()
    &&& forall|i: int|
        0 <= i < called.len() ==> (#[trigger] called[i])@ == all[i] && call_ensures(
            cb,
            (called[i],),
            outs[i],
        )
    &&& forall|i: int| 0 <= i < outs.len() - 1 ==> outs[i]
    &&& called.len() == all.len() || (outs.len() > 0 && !outs.last())
}

spec fn all_fit(frames: Seq<Frame>, slice: Seq<u8>) -> bool {
    forall|k: int| 0 <= k < frames.len() ==> (#[trigger] frames[k]).fits(slice)
}

spec fn ids_of(v: Seq<u32>) -> Seq<nat> {
    v.map_values(|n: u32| n as nat)
}

fn collect_ids_backward(frames: &Vec<Frame>, slice: &[u8], req_idx: usize) -> (r: Vec<u32>)
    requires
        req_idx < frames@.len(),
        all_fit(frames@, slice@),
    ensures
        ids_of(r@) == ids_back(slice@, frames@, req_idx as int, 1),
{
    let mut ids: Vec<u32> = Vec::new();
    let mut back: usize = 1;
    let ghost whole = ids_back(slice@, frames@, req_idx as int, 1);
    assert(ids_of(ids@) + whole =~= whole);
    while back <= 4 && back <= req_idx
        invariant
            1 <= back <= 5,
            req_idx < frames@.len(),
            all_fit(frames@, slice@),
            whole == ids_back(slice@, frames@, req_idx as int, 1),
            ids_of(ids@) + ids_back(slice@, frames@, req_idx as int, back as int) == whole,
        decreases 5 - back,
    {
        let ghost rest = ids_back(slice@, frames@, req_idx as int, back as int);
        let pay: &[u8] = frames[req_idx - back].payload(slice);
        if pay.len() != 4 {
            assert(ids_of(ids@) =~= whole);
            return ids;
        }
        let ghost before = ids@;
        let id: u32 = bytes::be32(pay, 0);
        assert(pay@.subrange(0, 4) =~= pay@);
        ids.push(id);
        assert(ids_of(ids@) =~= ids_of(before).push(id as nat));
        back = back + 1;
        assert(ids_of(before) + rest =~= ids_of(ids@) + ids_back(
            slice@,
            frames@,
            req_idx as int,
            back as int,
        ));
    }
    assert(ids_of(ids@) =~= whole);
    ids
}

fn is_printable(b: u8) -> (r: bool)
    ensures
        r == printable(b),
{
    0x20 <= b && b <= 0x7e
}

/// The path that a payload holds.
pub fn extract_path(payload: &[u8]) -> (r: Option<String>)
    ensures
        strs::opt_text(r) == path_in(payload@),
{
    let n: usize = payload.len();
    let mut ascii: bool = true;
    for k in 0..n
        invariant
            n == payload@.len(),
            ascii == forall|j: int| 0 <= j < k ==> printable(#[trigger] payload@[j]),
    {
        if !is_printable(payload[k]) {
            ascii = false;
        }
    }
    if ascii && 0 < n && n < 4096 && payload[0] == 0x2f {
        return Some(bytes::decode_latin1(payload));
    }
    if n < 2 || n % 2 != 0 || payload[1] != 0x2f {
        return None;
    }
    let mut s: String = String::new();
    for k in 0..n / 2
        invariant
            n == payload@.len(),
            n % 2 == 0,
            s@ == second_bytes(payload@).take(k as int),
            forall|j: int| 0 <= j < k ==> #[trigger] printable_pair(payload@, j),
            payload@[1] == 0x2f,
            n >= 2,
            !(0 < n < 4096 && payload@[0] == 0x2f && (forall|j: int|
                0 <= j < n ==> printable(#[trigger] payload@[j]))),
    {
        if payload[2 * k] != 0 || !is_printable(payload[2 * k + 1]) {
            assert(!printable_pair(payload@, k as int));
            return None;
        }
        s.push(payload[2 * k + 1] as char);
        assert(s@ =~= second_bytes(payload@).take(k + 1));
    }
    assert(s@ =~= second_bytes(payload@));
    Some(s)
}

/// Read the cluster of the request at frame `i`.
fn read_cluster(
    slice: &[u8],
    frames: &Vec<Frame>,
    i: usize,
    base: usize,
    body_cap: usize,
    request: HttpMessage,
) -> (r: Transaction)
    requires
        i < frames@.len(),
        all_fit(frames@, slice@),
        base + slice@.len() <= usize::MAX,
        http::message(
            frames@[i as int].body(slice@),
            base + frames@[i as int].offset + 8,
            body_cap as int,
        ) == Some(request@),
    ensures
        r@ == cluster(slice@, frames@, i as int, base as int, body_cap as int),
{
    let n: usize = frames.len();
    let ghost cap = body_cap as int;
    let f: Frame = frames[i];
    assert(frames@[i as int].fits(slice@));
    let mut txn: Transaction = Transaction::default();
    txn.offset = base + f.payload_start();
    txn.request = Some(request);
    let ids: Vec<u32> = collect_ids_backward(frames, slice, i);
    assert(ids_of(ids@).len() == ids@.len());
    if ids.len() == 1 {
        assert(ids_of(ids@)[0] == ids@[0]);
        txn.transaction_id = Some(ids[0]);
    } else if ids.len() >= 2 {
        assert(ids_of(ids@)[0] == ids@[0] && ids_of(ids@)[1] == ids@[1]);
        txn.transaction_id = Some(ids[1]);
        txn.secondary_id = Some(ids[0]);
    }
    let ghost whole = cluster(slice@, frames@, i as int, base as int, cap);
    // Look ahead a few frames for the response and the path.
    let mut j: usize = i + 1;
    while j < n && j - i <= 4
        invariant
            n == frames@.len(),
            i < j <= n,
            j <= i + 5,
            cap == body_cap as int,
            all_fit(frames@, slice@),
            base + slice@.len() <= usize::MAX,
            whole == cluster(slice@, frames@, i as int, base as int, cap),
            cluster_from(slice@, frames@, i as int, j as int, base as int, cap, txn@) == whole,
        decreases n - j,
    {
        let nf: Frame = frames[j];
        assert(frames@[j as int].fits(slice@));
        let np: &[u8] = nf.payload(slice);
        match classify::classify(np) {
            Kind::HttpRequest => {
                return txn;
            },
            Kind::HttpResponse => {
                if txn.response.is_none() {
                    txn.response = http::parse(np, base + nf.payload_start(), body_cap);
                }
            },
            Kind::Utf8Text | Kind::Utf16Text => {
                txn.sitemap_path = extract_path(np);
                return txn;
            },
            _ => {},
        }
        j = j + 1;
    }
    txn
}

/// A level of a walk: the frames of a slice, and the next one to read.
struct Level<'a> {
    slice: &'a [u8],
    frames: Vec<Frame>,
    next: usize,
    base: usize,
    depth: u32,
}

impl<'a> Level<'a> {
    spec fn sound(self) -> bool {
        &&& all_fit(self.frames@, self.slice@)
        &&& self.next <= self.frames@.len()
        &&& self.base + self.slice@.len() <= usize::MAX
        &&& self.depth <= 4
    }

    /// The transactions that are left.
    spec fn left(self, cap: int) -> Seq<TransactionModel> {
        transactions(
            self.slice@,
            self.frames@,
            self.next as int,
            self.base as int,
            cap,
            self.depth as nat,
        )
    }

    /// How many bytes the frames that are left take, and one more.
    spec fn size(self) -> nat {
        frame::total_outer(self.frames@.skip(self.next as int)) + 1
    }
}

spec fn all_sound(levels: Seq<Level>) -> bool {
    forall|i: int| 0 <= i < levels.len() ==> (#[trigger] levels[i]).sound()
}

/// The transactions that are left, the innermost level first.
spec fn all_left(levels: Seq<Level>, cap: int) -> Seq<TransactionModel>
    decreases levels.len(),
{
    if levels.len() == 0 {
        Seq::empty()
    } else {
        levels.last().left(cap) + all_left(levels.drop_last(), cap)
    }
}

spec fn all_size(levels: Seq<Level>) -> nat
    decreases levels.len(),
{
    if levels.len() == 0 {
        0
    } else {
        levels.last().size() + all_size(levels.drop_last())
    }
}

proof fn lemma_total_outer_skip(frames: Seq<Frame>, i: int)
    requires
        0 <= i < frames.len(),
    ensures
        frame::total_outer(frames.skip(i)) == frames[i].outer + frame::total_outer(
            frames.skip(i + 1),
        ),
{
    assert(frames.skip(i).skip(1) =~= frames.skip(i + 1));
    assert(frames.skip(i)[0] == frames[i]);
}

/// Go on with a walk up to the next transaction.
fn walk<'a>(levels: &mut Vec<Level<'a>>, body_cap: usize) -> (r: Option<Transaction>)
    requires
        all_sound(old(levels)@),
    ensures
        all_sound(final(levels)@),
        match r {
            Some(t) => {
                &&& all_left(old(levels)@, body_cap as int) == seq![t@] + all_left(
                    final(levels)@,
                    body_cap as int,
                )
                &&& all_size(final(levels)@) < all_size(old(levels)@)
            },
            None => all_left(old(levels)@, body_cap as int) == Seq::<TransactionModel>::empty(),
        },
{
    let ghost cap = body_cap as int;
    let ghost whole = all_left(levels@, cap);
    while levels.len() > 0
        invariant
            cap == body_cap as int,
            all_sound(levels@),
            whole == all_left(old(levels)@, cap),
            all_left(levels@, cap) == whole,
            all_size(levels@) <= all_size(old(levels)@),
        decreases all_size(levels@),
    {
        let ghost before = levels@;
        let ghost rest = levels@.drop_last();
        let mut top: Level<'a> = match levels.pop() {
            Some(l) => l,
            None => {
                return None;
            },
        };
        let ghost level = top;
        assert(top == before.last());
        assert(before[before.len() - 1].sound());
        assert forall|i: int| 0 <= i < rest.len() implies (#[trigger] rest[i]).sound() by {
            assert(rest[i] == before[i]);
        }
        let i: usize = top.next;
        if i >= top.frames.len() {
            assert(levels@ =~= rest);
            assert(all_left(before, cap) =~= all_left(rest, cap));
            continue;
        }
        let slice: &'a [u8] = top.slice;
        let base: usize = top.base;
        let depth: u32 = top.depth;
        let f: Frame = top.frames[i];
        assert(top.frames@[i as int].fits(slice@));
        let payload: &'a [u8] = f.payload(slice);
        proof {
            lemma_total_outer_skip(top.frames@, i as int);
        }
        top.next = i + 1;
        match classify::classify(payload) {
            Kind::HttpRequest => {
                let found: Option<Transaction> = match http::parse(
                    payload,
                    base + f.payload_start(),
                    body_cap,
                ) {
                    Some(m) => Some(read_cluster(slice, &top.frames, i, base, body_cap, m)),
                    None => None,
                };
                levels.push(top);
                assert(levels@.drop_last() =~= rest);
                match found {
                    Some(t) => {
                        assert(whole =~= seq![t@] + all_left(levels@, cap));
                        return Some(t);
                    },
                    None => {
                        assert(whole =~= all_left(levels@, cap));
                    },
                }
            },
            Kind::StateBlob => {
                levels.push(top);
                assert(levels@.drop_last() =~= rest);
                if depth < 4 {
                    let at: usize = base + f.payload_start();
                    let iter: FrameIter<'a> = FrameIter::new(payload).min_inner(8).max_inner(
                        extract::max_inner_for_depth(depth),
                    );
                    assert(iter@ == frame::scan_of(
                        payload@,
                        8,
                        extract::max_inner_at(depth as nat),
                    ));
                    let ghost scan = iter@;
                    let frames: Vec<Frame> = iter.collect();
                    let n: usize = payload.len();
                    proof {
                        frame::law_frames_take_at_most_the_bytes(scan);
                        assert(frames@.skip(0) =~= frames@);
                    }
                    let ghost outer = levels@;
                    assert(all_left(outer, cap) == outer.last().left(cap) + all_left(rest, cap));
                    assert(all_size(outer) == outer.last().size() + all_size(rest));
                    levels.push(
                        Level { slice: payload, frames, next: 0, base: at, depth: depth + 1 },
                    );
                    assert(levels@.drop_last() =~= outer);
                    assert(levels@.last().left(cap) == transactions(
                        payload@,
                        extract::nested(payload@, depth as nat),
                        0,
                        at as int,
                        cap,
                        (depth + 1) as nat,
                    ));
                    assert(all_left(levels@, cap) =~= whole);
                } else {
                    assert(whole =~= all_left(levels@, cap));
                }
            },
            _ => {
                levels.push(top);
                assert(levels@.drop_last() =~= rest);
                assert(whole =~= all_left(levels@, cap));
            },
        }
    }
    None
}

/// A walk over a whole file.
fn transaction_levels<'a>(pf: &ProjectFile<'a>) -> (r: Vec<Level<'a>>)
    ensures
        all_sound(r@),
        forall|cap: int| #[trigger] all_left(r@, cap) == all_transactions(pf.data@, cap),
{
    let buf: &'a [u8] = pf.bytes();
    let n: usize = buf.len();
    let iter: FrameIter<'a> = FrameIter::new(buf).min_inner(1).max_inner(64 * 1024 * 1024);
    let frames: Vec<Frame> = iter.collect();
    let mut levels: Vec<Level<'a>> = Vec::new();
    let ghost none = levels@;
    levels.push(Level { slice: buf, frames, next: 0, base: 0, depth: 0 });
    assert(levels@.drop_last() =~= none);
    assert forall|cap: int| #[trigger] all_left(levels@, cap) == all_transactions(
        pf.data@,
        cap,
    ) by {
        assert(all_left(none, cap) =~= Seq::<TransactionModel>::empty());
        assert(all_left(levels@, cap) =~= levels@.last().left(cap));
    }
    levels
}

proof fn lemma_prefix(
    called: Seq<Transaction>,
    all: Seq<TransactionModel>,
    rest: Seq<TransactionModel>,
)
    requires
        transaction_models(called) + rest == all,
    ensures
        called.len() <= all.len(),
        forall|i: int| 0 <= i < called.len() ==> (#[trigger] called[i])@ == all[i],
{
    assert(transaction_models(called).len() == called.len());
    assert forall|i: int| 0 <= i < called.len() implies (#[trigger] called[i])@ == all[i] by {
        assert(transaction_models(called)[i] == called[i]@);
        assert((transaction_models(called) + rest)[i] == transaction_models(called)[i]);
    }
}

/// Walk the file, emitting one [`Transaction`] per request found. Recurses
/// into state blobs. Return `false` from `cb` to stop early.
pub fn for_each_transaction<F: FnMut(Transaction) -> bool>(
    pf: &ProjectFile,
    body_cap: usize,
    cb: F,
)
    requires
        forall|t: Transaction| call_requires(cb, (t,)),
    ensures
        exists|called: Seq<Transaction>, outs: Seq<bool>|
            handed(cb, called, outs, all_transactions(pf.data@, body_cap as int)),
{
    let mut cb: F = cb;
    let mut levels: Vec<Level> = transaction_levels(pf);
    let ghost first = cb;
    let ghost all = all_transactions(pf.data@, body_cap as int);
    let ghost mut called: Seq<Transaction> = Seq::empty();
    let ghost mut outs: Seq<bool> = Seq::empty();
    assert(transaction_models(called) + all_left(levels@, body_cap as int) =~= all);
    loop
        invariant_except_break
            cb == first,
            forall|t: Transaction| call_requires(first, (t,)),
            all_sound(levels@),
            transaction_models(called) + all_left(levels@, body_cap as int) == all,
            called.len() == outs.len(),
            forall|i: int|
                0 <= i < called.len() ==> call_ensures(first, ((#[trigger] called[i]),), outs[i]),
            forall|i: int| 0 <= i < outs.len() ==> outs[i],
        ensures
            handed(first, called, outs, all),
        decreases all_size(levels@),
    {
        let ghost left = all_left(levels@, body_cap as int);
        match walk(&mut levels, body_cap) {
            Some(t) => {
                let ghost seen = called;
                let go_on: bool = cb(t);
                proof {
                    called = called.push(t);
                    outs = outs.push(go_on);
                    assert(transaction_models(called) =~= transaction_models(seen).push(t@));
                    assert(transaction_models(seen) + left =~= transaction_models(called)
                        + all_left(levels@, body_cap as int));
                    lemma_prefix(called, all, all_left(levels@, body_cap as int));
                }
                if !go_on {
                    break;
                }
            },
            None => {
                proof {
                    assert(transaction_models(called) =~= all);
                    lemma_prefix(called, all, left);
                }
                break;
            },
        }
    }
    assert(handed(first, called, outs, all));
}

/// Every transaction in a file.
pub fn collect_transactions(pf: &ProjectFile, body_cap: usize) -> (r: Vec<Transaction>)
    ensures
        transaction_models(r@) == all_transactions(pf.data@, body_cap as int),
{
    let mut levels: Vec<Level> = transaction_levels(pf);
    let mut out: Vec<Transaction> = Vec::new();
    let ghost all = all_transactions(pf.data@, body_cap as int);
    assert(transaction_models(out@) + all_left(levels@, body_cap as int) =~= all);
    loop
        invariant
            all_sound(levels@),
            all == all_transactions(pf.data@, body_cap as int),
            transaction_models(out@) + all_left(levels@, body_cap as int) == all,
        decreases all_size(levels@),
    {
        let ghost left = all_left(levels@, body_cap as int);
        let ghost seen = out@;
        match walk(&mut levels, body_cap) {
            Some(t) => {
                out.push(t);
                assert(transaction_models(out@) =~= transaction_models(seen).push(t@));
                assert(transaction_models(seen) + left =~= transaction_models(out@) + all_left(
                    levels@,
                    body_cap as int,
                ));
            },
            None => {
                assert(transaction_models(out@) =~= all);
                return out;
            },
        }
    }
}

} // verus!
