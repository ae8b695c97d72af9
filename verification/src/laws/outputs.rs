//! What listings, dumps and counts say.

use vstd::prelude::*;

use crate::classify;
use crate::classify::Kind;
use crate::codes;
use crate::counts;
use crate::extract;
use crate::file::ProjectFile;
use crate::frame;
use crate::frame::Frame;
use crate::frame::FrameIter;
use crate::http::HttpModel;
use crate::laws::files;
use crate::laws::kinds;
use crate::num;
use crate::order;
use crate::preview;
use crate::preview::Dumping;
use crate::preview::Listing;
use crate::text;
use crate::BurpProject;
use crate::HttpStream;
use crate::TransactionStream;

verus! {

/// A byte is shown as the character it is, a line break or a tab as a
/// backslash and its letter, and anything else as a dot.
pub proof fn law_shown_byte(b: u8)
    ensures
        ({
            let t = preview::shown_byte(b);
            &&& b == 0x0a ==> t == seq!['\\', 'n']
            &&& b == 0x0d ==> t == seq!['\\', 'r']
            &&& b == 0x09 ==> t == seq!['\\', 't']
            &&& 0x20 <= b <= 0x7e ==> t.len() == 1 && t[0] as u32 == b
            &&& !kinds::plain(b) ==> t == seq!['.']
        }),
{
    reveal_strlit("\\n");
    reveal_strlit("\\r");
    reveal_strlit("\\t");
    reveal_strlit(".");
    assert("\\n"@ =~= seq!['\\', 'n']);
    assert("\\r"@ =~= seq!['\\', 'r']);
    assert("\\t"@ =~= seq!['\\', 't']);
    assert("."@ =~= seq!['.']);
}

/// A preview shows the bytes one after the other, and none past its limit.
pub proof fn law_preview(p: Seq<u8>, b: u8, n: int)
    requires
        n >= 0,
    ensures
        preview::preview_of(Seq::empty(), n) == Seq::<char>::empty(),
        p.len() < n ==> preview::preview_of(p.push(b), n) == preview::preview_of(p, n)
            + preview::shown_byte(b),
        p.len() >= n ==> preview::preview_of(p.push(b), n) == preview::preview_of(p, n),
{
    assert(Seq::<u8>::empty().take(0) =~= Seq::empty());
    let q = p.push(b);
    if p.len() < n {
        assert(q.take(q.len() as int) =~= q);
        assert(p.take(p.len() as int) =~= p);
        assert(q.drop_last() =~= p);
    } else {
        assert(q.take(n) =~= p.take(n));
    }
}

/// The names of the kinds.
pub open spec fn name_of(k: Kind) -> Seq<char> {
    if k == Kind::HttpRequest {
        "http_request"@
    } else if k == Kind::HttpResponse {
        "http_response"@
    } else if k == Kind::Utf16Text {
        "utf16_text"@
    } else if k == Kind::Utf8Text {
        "utf8_text"@
    } else if k == Kind::Json {
        "json"@
    } else if k == Kind::SmallId {
        "small_id"@
    } else if k == Kind::StateBlob {
        "state_blob"@
    } else if k == Kind::Empty {
        "empty"@
    } else {
        "unknown"@
    }
}

/// A frame is listed exactly where its payload is large enough and of the kind
/// that is wanted, if one is. Its line gives its place, the size of its
/// payload, its kind, and what its first 80 bytes show.
pub proof fn law_line(fr: Frame, buf: Seq<u8>, want: Option<Seq<char>>, min_size: int)
    ensures
        ({
            let p = fr.body(buf);
            let line = preview::line_of(fr, buf, want, min_size);
            let name = name_of(classify::kind_of(p));
            &&& line is Some <==> fr.inner >= min_size && (want is None || want == Some(name))
            &&& line is Some ==> line == Some(
                "{\"offset\":"@ + num::numeral(fr.offset as nat, 10) + ",\"size\":"@ + num::numeral(
                    fr.inner as nat,
                    10,
                ) + ",\"kind\":\""@ + name + "\",\"head\":"@ + preview::json_string(
                    preview::preview_of(p, 80),
                ) + "}"@,
            )
        }),
{
}

/// Frames are listed in order, each by itself: the listing of two lists of
/// frames is that of the one and then that of the other.
pub proof fn law_listing(
    a: Seq<Frame>,
    b: Seq<Frame>,
    buf: Seq<u8>,
    want: Option<Seq<char>>,
    min_size: int,
)
    ensures
        preview::listing_of(a + b, buf, want, min_size, None) == preview::listing_of(
            a,
            buf,
            want,
            min_size,
            None,
        ) + preview::listing_of(b, buf, want, min_size, None),
        a.len() == 1 ==> preview::listing_of(a, buf, want, min_size, None) == match preview::line_of(
            a[0],
            buf,
            want,
            min_size,
        ) {
            Some(line) => seq![line],
            None => Seq::empty(),
        },
        a.len() == 0 ==> preview::listing_of(a, buf, want, min_size, None).len() == 0,
    decreases a.len(),
{
    let f = |v: Seq<Frame>| preview::listing_of(v, buf, want, min_size, None);
    if a.len() == 0 {
        assert(a + b =~= b);
        assert(f(a) + f(b) =~= f(b));
    } else {
        law_listing(a.skip(1), b, buf, want, min_size);
        assert((a + b).skip(1) =~= a.skip(1) + b);
        assert(f(a + b) =~= f(a) + f(b));
        if a.len() == 1 {
            assert(a.skip(1) =~= Seq::empty());
            match preview::line_of(a[0], buf, want, min_size) {
                Some(line) => {
                    assert(f(a) =~= seq![line]);
                },
                None => {},
            }
        }
    }
}

/// What is dumped of a payload: texts as text, UTF-16 in UTF-8, JSON and state
/// blobs as they are, and nothing of the other kinds.
pub proof fn law_dump(p: Seq<u8>)
    ensures
        ({
            let k = classify::kind_of(p);
            let d = preview::dump_of(p);
            &&& d is Some <==> k == Kind::Utf16Text || k == Kind::Utf8Text || k == Kind::Json || k
                == Kind::StateBlob
            &&& d matches Some((ext, data)) ==> {
                &&& k == Kind::Utf16Text ==> ext == "txt"@ && data == vstd::utf8::encode_utf8(
                    text::best_reading(p),
                )
                &&& k != Kind::Utf16Text ==> data == p
                &&& k == Kind::Utf8Text ==> ext == "txt"@
                &&& k == Kind::Json ==> ext == "json"@
                &&& k == Kind::StateBlob ==> ext == "bin"@
            }
        }),
{
}

/// Frames are dumped in order, each by itself, and numbered without a gap.
pub proof fn law_dumps(a: Seq<Frame>, b: Seq<Frame>, buf: Seq<u8>, idx: nat)
    ensures
        preview::dumps_of(a + b, buf, idx) == preview::dumps_of(a, buf, idx) + preview::dumps_of(
            b,
            buf,
            idx + preview::dumps_of(a, buf, idx).len(),
        ),
        a.len() == 0 ==> preview::dumps_of(a, buf, idx).len() == 0,
        a.len() == 1 && preview::dump_of(a[0].body(buf)) is None ==> preview::dumps_of(
            a,
            buf,
            idx,
        ).len() == 0,
        a.len() == 1 ==> (preview::dump_of(a[0].body(buf)) matches Some((ext, data))
            ==> preview::dumps_of(a, buf, idx) == seq![
            (
                preview::dump_name(
                    idx,
                    (a[0].offset + 8) as nat,
                    name_of(classify::kind_of(a[0].body(buf))),
                    ext,
                ),
                data,
            ),
        ]),
    decreases a.len(),
{
    let d = preview::dumps_of(a, buf, idx);
    let all = preview::dumps_of(a + b, buf, idx);
    if a.len() == 0 {
        assert(a + b =~= b);
        assert(d + preview::dumps_of(b, buf, idx) =~= preview::dumps_of(b, buf, idx));
    } else {
        assert((a + b).skip(1) =~= a.skip(1) + b);
        if a.len() == 1 {
            assert(a.skip(1) =~= Seq::empty());
        }
        match preview::dump_at(a[0], buf, idx) {
            Some(x) => {
                law_dumps(a.skip(1), b, buf, idx + 1);
                let rest = preview::dumps_of(a.skip(1), buf, idx + 1);
                assert(all =~= d + preview::dumps_of(b, buf, idx + d.len()));
                if a.len() == 1 {
                    assert(d =~= seq![x]);
                }
            },
            None => {
                law_dumps(a.skip(1), b, buf, idx);
            },
        }
    }
}

proof fn lemma_padded(n: nat, radix: nat, width: nat)
    requires
        2 <= radix <= 16,
    ensures
        num::padded(num::numeral(n, radix), width).len() >= width,
        num::value(num::padded(num::numeral(n, radix), width), radix) == n,
        num::numeral(n, radix).len() <= width ==> num::padded(num::numeral(n, radix), width).len()
            == width,
{
    num::law_numeral_reads_back(n, radix, n);
    let s = num::numeral(n, radix);
    if s.len() < width {
        lemma_zeros_front(s, (width - s.len()) as nat, radix);
    }
}

proof fn lemma_zeros_front(s: Seq<char>, k: nat, radix: nat)
    requires
        2 <= radix <= 16,
    ensures
        num::value(Seq::new(k, |i: int| '0') + s, radix) == num::value(s, radix),
    decreases s.len(), k,
{
    let z = Seq::new(k, |i: int| '0');
    if s.len() > 0 {
        lemma_zeros_front(s.drop_last(), k, radix);
        assert((z + s).drop_last() =~= z + s.drop_last());
    } else if k > 0 {
        let y = Seq::new((k - 1) as nat, |i: int| '0');
        lemma_zeros_front(s, (k - 1) as nat, radix);
        assert((z + s).drop_last() =~= y + s);
        assert((z + s).last() == '0');
        assert(0 * radix == 0);
    }
}

/// The name of a dump is its number in decimal and its place in hexadecimal,
/// each with zeros in front up to eight digits, its kind and its extension.
pub proof fn law_dump_name(idx: nat, start: nat, kind: Seq<char>, ext: Seq<char>)
    ensures
        ({
            let name = preview::dump_name(idx, start, kind, ext);
            let a = num::padded(num::numeral(idx, 10), 8);
            let b = num::padded(num::numeral(start, 16), 8);
            &&& name == a + seq!['_', '0', 'x'] + b + seq!['_'] + kind + seq!['.'] + ext
            &&& a.len() >= 8
            &&& b.len() >= 8
            &&& num::value(a, 10) == idx
            &&& num::value(b, 16) == start
            &&& num::numeral(idx, 10).len() <= 8 ==> a.len() == 8
            &&& num::numeral(start, 16).len() <= 8 ==> b.len() == 8
        }),
{
    reveal_strlit("_0x");
    reveal_strlit("_");
    reveal_strlit(".");
    assert("_0x"@ =~= seq!['_', '0', 'x']);
    assert("_"@ =~= seq!['_']);
    assert("."@ =~= seq!['.']);
    lemma_padded(idx, 10, 8);
    lemma_padded(start, 16, 8);
}

/// A numeral has no zero in front, but for zero itself.
pub proof fn law_numeral_is_short(n: nat, radix: nat)
    requires
        2 <= radix <= 16,
    ensures
        num::numeral(n, radix).len() > 0,
        n > 0 ==> num::numeral(n, radix)[0] != '0',
        n == 0 ==> num::numeral(n, radix) == seq!['0'],
    decreases n,
{
    if n >= radix {
        assert(0 < n / radix < n) by (nonlinear_arith)
            requires
                n >= radix >= 2,
        ;
        law_numeral_is_short(n / radix, radix);
    }
}

/// Counting a name adds one to its count and leaves every other as it was.
pub proof fn law_counted(m: Map<Seq<char>, nat>, k: Seq<char>, j: Seq<char>)
    ensures
        counts::count_of(counts::counted(m, k), k) == counts::count_of(m, k) + 1,
        j != k ==> counts::count_of(counts::counted(m, k), j) == counts::count_of(m, j),
        counts::counted(m, k).dom().contains(j) <==> j == k || m.dom().contains(j),
{
}

/// Counting a number adds one to its count and leaves every other as it was.
pub proof fn law_code_counted(m: Map<u16, u64>, k: u16, j: u16)
    requires
        codes::code_count(m, k) < u64::MAX,
    ensures
        codes::code_count(codes::code_counted(m, k), k) == codes::code_count(m, k) + 1,
        j != k ==> codes::code_count(codes::code_counted(m, k), j) == codes::code_count(m, j),
        codes::code_counted(m, k).dom().contains(j) <==> j == k || m.dom().contains(j),
{
}

/// The first entries of a ranking are none but the largest counts: an entry
/// that is left out counts no more than any that is kept.
pub proof fn law_top(list: Seq<(Seq<char>, nat)>, n: int, i: int, j: int)
    requires
        order::increasing(counts::names(list)),
        0 <= n,
        0 <= i < counts::top(list, n).len(),
        n <= j < counts::ranked(list).len(),
    ensures
        counts::top(list, n).len() == n,
        counts::top(list, n)[i] == counts::ranked(list)[i],
        counts::top(list, n)[i].1 >= counts::ranked(list)[j].1,
        list.len() == counts::ranked(list).len(),
        list.contains(counts::top(list, n)[i]),
{
    counts::law_ranked(list);
    assert(counts::ranked(list).contains(counts::ranked(list)[i]));
}

proof fn lemma_dumped(frames: Seq<Frame>, buf: Seq<u8>, idx: nat, k: int)
    requires
        0 <= k < frames.len(),
    ensures
        preview::dump_of(frames[k].body(buf)) matches Some((_, data)) ==> exists|j: int|
            0 <= j < preview::dumps_of(frames, buf, idx).len() && #[trigger] preview::dumps_of(
                frames,
                buf,
                idx,
            )[j].1 == data,
{
    let a = frames.take(k);
    let one = seq![frames[k]];
    let b = frames.skip(k + 1);
    assert(frames =~= a + (one + b));
    law_dumps(a, one + b, buf, idx);
    let first = preview::dumps_of(a, buf, idx);
    law_dumps(one, b, buf, idx + first.len());
    match preview::dump_of(frames[k].body(buf)) {
        Some((_, data)) => {
            let here = preview::dumps_of(one, buf, idx + first.len());
            assert(here.len() == 1 && here[0].1 == data);
            assert(preview::dumps_of(frames, buf, idx)[first.len() as int].1 == data);
        },
        None => {},
    }
}

/// A dump of a file holds what is dumped of each of its frames with 8 bytes
/// of payload or more that none before it reaches into.
pub proof fn law_dump_of_a_file(pf: &ProjectFile, r: Dumping, i: int, n: int)
    requires
        call_ensures(Dumping::new, (pf,), r),
        pf.data@.len() <= usize::MAX,
        files::framed_at(pf.data@, i, n),
        8 <= n <= 0x7fff_ffff,
        files::uncovered(pf.data@, i, 8, 0x7fff_ffff),
    ensures
        r.written() == 0,
        preview::dump_of(files::payload_at(pf.data@, i, n)) matches Some((_, data)) ==> exists|
            j: int,
        | 0 <= j < r.left().len() && #[trigger] r.left()[j].1 == data,
{
    let k = files::law_frames_are_found(pf.data@, 8, 0x7fff_ffff, i, n);
    let frames = frame::scan_of(pf.data@, 8, 0x7fff_ffff).frames();
    lemma_dumped(frames, pf.data@, 0, k);
}

proof fn lemma_listed(
    frames: Seq<Frame>,
    buf: Seq<u8>,
    want: Option<Seq<char>>,
    min_size: int,
    k: int,
)
    requires
        0 <= k < frames.len(),
    ensures
        preview::line_of(frames[k], buf, want, min_size) matches Some(line) ==> preview::listing_of(
            frames,
            buf,
            want,
            min_size,
            None,
        ).contains(line),
{
    let a = frames.take(k);
    let one = seq![frames[k]];
    let b = frames.skip(k + 1);
    assert(frames =~= a + (one + b));
    law_listing(a, one + b, buf, want, min_size);
    law_listing(one, b, buf, want, min_size);
    match preview::line_of(frames[k], buf, want, min_size) {
        Some(line) => {
            let first = preview::listing_of(a, buf, want, min_size, None);
            let all = preview::listing_of(frames, buf, want, min_size, None);
            assert(all[first.len() as int] == line);
        },
        None => {},
    }
}

/// A listing of a file without a limit has the line of each of its frames
/// that none before it reaches into, from one byte of payload on.
pub proof fn law_listing_of_a_file(
    pf: &ProjectFile,
    want: Option<&str>,
    min_size: u32,
    r: Listing,
    i: int,
    n: int,
) -> (k: int)
    requires
        call_ensures(Listing::new, (pf, want, min_size, None::<u64>), r),
        pf.data@.len() <= usize::MAX,
        files::framed_at(pf.data@, i, n),
        1 <= n <= 0x7fff_ffff,
        files::uncovered(pf.data@, i, 1, 0x7fff_ffff),
    ensures
        ({
            let fr = Frame { offset: i as usize, outer: (n + 8) as u32, inner: n as u32 };
            preview::line_of(fr, pf.data@, preview::opt_str(want), min_size as int) matches Some(
                line,
            ) ==> 0 <= k < r.left().len() && r.left()[k] == line
        }),
{
    let k = files::law_frames_are_found(pf.data@, 1, 0x7fff_ffff, i, n);
    let frames = frame::scan_of(pf.data@, 1, 0x7fff_ffff).frames();
    let w = preview::opt_str(want);
    lemma_listed(frames, pf.data@, w, min_size as int, k);
    match preview::line_of(frames[k], pf.data@, w, min_size as int) {
        Some(line) => choose|j: int| 0 <= j < r.left().len() && r.left()[j] == line,
        None => 0,
    }
}

/// The messages of one kind are all of that kind, in order and with nothing
/// in between lost.
pub proof fn law_of_kind(v: Seq<HttpModel>, m: HttpModel, kind: Seq<char>)
    ensures
        extract::of_kind(Seq::empty(), kind).len() == 0,
        m.kind == kind ==> extract::of_kind(v.push(m), kind) == extract::of_kind(v, kind).push(m),
        m.kind != kind ==> extract::of_kind(v.push(m), kind) == extract::of_kind(v, kind),
{
    assert(v.push(m).drop_last() =~= v);
}

/// A project's frames are those of its file: each with a payload of one byte
/// or more that none before it reaches into.
pub proof fn law_frames_of_a_project(p: &BurpProject, r: FrameIter, i: int, n: int) -> (k: int)
    requires
        call_ensures(BurpProject::frames, (p,), r),
        p.data().len() <= usize::MAX,
        files::framed_at(p.data(), i, n),
        1 <= n <= 0x7fff_ffff,
        files::uncovered(p.data(), i, 1, 0x7fff_ffff),
    ensures
        0 <= k < r@.frames().len(),
        r@.frames()[k].offset == i,
        r@.frames()[k].inner == n,
{
    files::law_frames_are_found(p.data(), 1, 0x7fff_ffff, i, n)
}

/// The streams of a project keep 64 KiB of a body unless they are told
/// otherwise.
pub proof fn law_streams_of_a_project(p: &BurpProject, t: TransactionStream, h: HttpStream)
    requires
        call_ensures(BurpProject::transactions, (p,), t),
        call_ensures(BurpProject::http_messages, (p,), h),
    ensures
        t.source() == p.data(),
        h.source() == p.data(),
        t.cap() == 64 * 1024,
        h.cap() == 64 * 1024,
{
}

} // verus!
