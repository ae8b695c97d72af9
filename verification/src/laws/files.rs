//! What the parts of a file mean, by the bytes that it holds.

use vstd::prelude::*;

use crate::bytes;
use crate::classify;
use crate::classify::Kind;
use crate::container;
use crate::container::Run;
use crate::extract;
use crate::extract::FindingsModel;
use crate::extract::Options;
use crate::extract::StateModel;
use crate::frame;
use crate::frame::Frame;
use crate::frame::Scan;
use crate::header;
use crate::http;
use crate::http::HttpModel;
use crate::laws;
use crate::laws::exchanges;
use crate::laws::runs;
use crate::laws::texts;
use crate::num;
use crate::project;
use crate::project::Blob;
use crate::strs;
use crate::transaction;

verus! {

/// The two bytes at `i` as a number.
pub open spec fn two_at(b: Seq<u8>, i: int) -> int {
    b[i] * 0x100 + b[i + 1]
}

/// The four bytes at `i` as a number.
pub open spec fn four_at(b: Seq<u8>, i: int) -> int {
    two_at(b, i) * 0x1_0000 + two_at(b, i + 2)
}

/// The eight bytes at `i` as a number.
pub open spec fn eight_at(b: Seq<u8>, i: int) -> int {
    four_at(b, i) * 0x1_0000_0000 + four_at(b, i + 4)
}

proof fn lemma_numbers_at(b: Seq<u8>, i: int)
    requires
        0 <= i,
    ensures
        i + 2 <= b.len() ==> num::big_endian(b.subrange(i, i + 2)) == two_at(b, i),
        i + 4 <= b.len() ==> num::big_endian(b.subrange(i, i + 4)) == four_at(b, i),
        i + 8 <= b.len() ==> num::big_endian(b.subrange(i, i + 8)) == eight_at(b, i),
{
    if i + 2 <= b.len() {
        texts::law_big_endian(b.subrange(i, i + 2));
    }
    if i + 4 <= b.len() {
        texts::law_big_endian(b.subrange(i, i + 4));
    }
    if i + 8 <= b.len() {
        texts::law_big_endian(b.subrange(i, i + 8));
    }
}

/// Where each field of the header stands, and how wide it is. Eighty bytes
/// are enough for a header, and fewer are not.
pub proof fn law_header(b: Seq<u8>)
    ensures
        header::header_of(b) is Some <==> b.len() >= 80,
        header::header_of(b) matches Some(h) ==> {
            &&& h.magic_ok <==> b[0] == 0x66 && b[1] == 0x85 && b[2] == 0x82 && b[3] == 0x80
            &&& h.version == four_at(b, 4)
            &&& h.field_08 == seq![b[8], b[9], b[10], b[11]]
            &&& h.field_0c_a == two_at(b, 12)
            &&& h.field_0c_b == two_at(b, 14)
            &&& h.timestamp_raw == eight_at(b, 16)
            &&& h.used_size == eight_at(b, 56)
            &&& h.field_40 == eight_at(b, 64)
            &&& h.field_48 == eight_at(b, 72)
        },
{
    if b.len() >= 80 {
        lemma_numbers_at(b, 4);
        lemma_numbers_at(b, 12);
        lemma_numbers_at(b, 14);
        lemma_numbers_at(b, 16);
        lemma_numbers_at(b, 56);
        lemma_numbers_at(b, 64);
        lemma_numbers_at(b, 72);
        assert(b.subrange(8, 12) =~= seq![b[8], b[9], b[10], b[11]]);
        law_magic(b);
    }
}

/// A file is a project's exactly where its first four bytes are the magic.
pub proof fn law_magic(b: Seq<u8>)
    ensures
        header::has_magic(b) <==> b.len() >= 4 && b[0] == 0x66 && b[1] == 0x85 && b[2] == 0x82
            && b[3] == 0x80,
{
    let m = header::MAGIC@;
    assert(m.len() == 4 && m[0] == 0x66 && m[1] == 0x85 && m[2] == 0x82 && m[3] == 0x80);
    if b.len() >= 4 {
        let t = b.take(4);
        if t == m {
            assert(t[0] == b[0] && t[1] == b[1] && t[2] == b[2] && t[3] == b[3]);
        }
        if b[0] == 0x66 && b[1] == 0x85 && b[2] == 0x82 && b[3] == 0x80 {
            assert(t =~= m);
        }
    }
}

/// The signed field of the header is the number whose 64 bits in two's
/// complement are its eight bytes.
pub proof fn law_signed_field(b: Seq<u8>)
    requires
        b.len() >= 80,
    ensures
        header::header_of(b) matches Some(h) ==> {
            &&& -0x8000_0000_0000_0000 <= h.max_int64 < 0x8000_0000_0000_0000
            &&& h.max_int64 == eight_at(b, 48) || h.max_int64 + 0x1_0000_0000_0000_0000 == eight_at(
                b,
                48,
            )
        },
{
    lemma_numbers_at(b, 48);
}

/// Bytes in hexadecimal are two digits each, in order, and each pair reads as
/// its byte.
pub proof fn law_hex_text(b: Seq<u8>, i: int)
    requires
        0 <= i < b.len(),
    ensures
        header::hex_text(b).len() == 2 * b.len(),
        header::hex_text(b).subrange(2 * i, 2 * i + 2) == num::hex2(b[i]),
    decreases b.len(),
{
    let init = b.drop_last();
    let t = header::hex_text(b);
    lemma_hex_len(init);
    if i < init.len() {
        law_hex_text(init, i);
        assert(t.subrange(2 * i, 2 * i + 2) =~= header::hex_text(init).subrange(2 * i, 2 * i + 2));
    } else {
        assert(t.subrange(2 * i, 2 * i + 2) =~= num::hex2(b[i]));
    }
}

proof fn lemma_hex_len(b: Seq<u8>)
    ensures
        header::hex_text(b).len() == 2 * b.len(),
    decreases b.len(),
{
    if b.len() > 0 {
        lemma_hex_len(b.drop_last());
    }
}

/// The header shows its first four bytes in hexadecimal.
pub proof fn law_magic_text(b: Seq<u8>, i: int)
    requires
        b.len() >= 80,
        0 <= i < 4,
    ensures
        header::header_of(b) matches Some(h) ==> h.magic_hex.len() == 8 && h.magic_hex.subrange(
            2 * i,
            2 * i + 2,
        ) == num::hex2(b[i]),
{
    law_hex_text(b.take(4), i);
}

/// A frame with a payload of `n` bytes stands at `i`: the number `n + 8` and
/// the number `n`, in four bytes each, and the payload.
pub open spec fn framed_at(b: Seq<u8>, i: int, n: int) -> bool {
    &&& 0 <= i
    &&& 0 <= n
    &&& i + 8 + n <= b.len()
    &&& four_at(b, i) == n + 8
    &&& four_at(b, i + 4) == n
}

pub open spec fn payload_at(b: Seq<u8>, i: int, n: int) -> Seq<u8> {
    b.subrange(i + 8, i + 8 + n)
}

proof fn lemma_four_small(b: Seq<u8>, i: int)
    ensures
        0 <= four_at(b, i) < 0x1_0000_0000,
{
}

/// A walk stops at a place exactly where a frame stands whose payload has a
/// length that it accepts.
pub proof fn law_frame_signature(s: Scan, i: int)
    requires
        0 <= i <= s.buf.len() <= usize::MAX,
    ensures
        s.signed_at(i) <==> exists|n: int| #[trigger] framed_at(s.buf, i, n) && s.min <= n <= s.max,
{
    if i + 8 <= s.buf.len() {
        lemma_numbers_at(s.buf, i);
        lemma_numbers_at(s.buf, i + 4);
        lemma_four_small(s.buf, i);
        lemma_four_small(s.buf, i + 4);
        let n = four_at(s.buf, i + 4);
        if s.signed_at(i) {
            assert(framed_at(s.buf, i, n));
        }
    }
}

/// No accepted frame that starts before `i` reaches past it.
pub open spec fn uncovered(b: Seq<u8>, i: int, min: int, max: int) -> bool {
    forall|j: int, m: int| #[trigger]
        framed_at(b, j, m) && min <= m <= max && j < i ==> j + 8 + m <= i
}

/// A walk finds each frame of an accepted length that none before it reaches
/// into, and with it its payload.
pub proof fn law_frames_are_found(b: Seq<u8>, min: u32, max: u32, i: int, n: int) -> (k: int)
    requires
        b.len() <= usize::MAX,
        framed_at(b, i, n),
        min <= n <= max,
        uncovered(b, i, min as int, max as int),
    ensures
        ({
            let found = frame::scan_of(b, min, max).frames();
            &&& 0 <= k < found.len()
            &&& found[k] == (Frame { offset: i as usize, outer: (n + 8) as u32, inner: n as u32 })
            &&& found[k].body(b) == payload_at(b, i, n)
        }),
{
    let s = frame::scan_of(b, min, max);
    law_frame_signature(s, i);
    let k = frame::law_frames_complete(s, i);
    frame::law_frames_fit(s, k);
    let f = s.frames()[k];
    let j = f.offset as int;
    law_frame_signature(s, j);
    let m = choose|m: int| #[trigger] framed_at(b, j, m) && min <= m <= max;
    lemma_numbers_at(b, j);
    lemma_numbers_at(b, j + 4);
    lemma_numbers_at(b, i);
    lemma_numbers_at(b, i + 4);
    lemma_four_small(b, i);
    lemma_four_small(b, j);
    lemma_four_small(b, j + 4);
    assert(f.outer == m + 8);
    assert(j == i);
    assert(m == n);
    k
}

/// A message in a frame of the file, of 8 bytes up to 64 MiB, is found, with
/// its place.
pub proof fn law_framed_message_is_found(b: Seq<u8>, i: int, n: int, cap: int)
    requires
        b.len() <= usize::MAX,
        framed_at(b, i, n),
        8 <= n <= 0x400_0000,
        uncovered(b, i, 8, 0x400_0000),
    ensures
        ({
            let p = payload_at(b, i, n);
            let kind = classify::kind_of(p);
            kind == Kind::HttpRequest || kind == Kind::HttpResponse ==> (http::message(
                p,
                i + 8,
                cap,
            ) matches Some(m) ==> extract::all_messages(b, cap).contains(m))
        }),
{
    let k = law_frames_are_found(b, 8, 0x400_0000, i, n);
    let frames = frame::scan_of(b, 8, 0x400_0000).frames();
    laws::law_every_message_is_found(b, frames, 0, cap, 0, k);
}

/// A message in a frame within a state blob of the file is found too.
pub proof fn law_nested_message_is_found(b: Seq<u8>, i: int, n: int, j: int, m: int, cap: int)
    requires
        b.len() <= usize::MAX,
        framed_at(b, i, n),
        8 <= n <= 0x400_0000,
        uncovered(b, i, 8, 0x400_0000),
        classify::kind_of(payload_at(b, i, n)) == Kind::StateBlob,
        framed_at(payload_at(b, i, n), j, m),
        8 <= m <= 0x400_0000,
        uncovered(payload_at(b, i, n), j, 8, 0x400_0000),
    ensures
        ({
            let p = payload_at(payload_at(b, i, n), j, m);
            let kind = classify::kind_of(p);
            kind == Kind::HttpRequest || kind == Kind::HttpResponse ==> (http::message(
                p,
                i + j + 16,
                cap,
            ) matches Some(m) ==> extract::all_messages(b, cap).contains(m))
        }),
{
    let blob = payload_at(b, i, n);
    let k = law_frames_are_found(b, 8, 0x400_0000, i, n);
    let frames = frame::scan_of(b, 8, 0x400_0000).frames();
    laws::law_every_message_is_found(b, frames, 0, cap, 0, k);
    let l = law_frames_are_found(blob, 8, 0x400_0000, j, m);
    laws::law_every_message_is_found(blob, extract::nested(blob, 0), i + 8, cap, 1, l);
    let p = payload_at(blob, j, m);
    let at = i + j + 16;
    let kind = classify::kind_of(p);
    if (kind == Kind::HttpRequest || kind == Kind::HttpResponse) && http::message(
        p,
        at,
        cap,
    ) is Some {
        let one = http::message(p, at, cap)->0;
        let outer = frames[k];
        let inner = extract::nested(blob, 0)[l];
        assert(0 + outer.offset + 8 == i + 8);
        assert((i + 8) + inner.offset + 8 == at);
        assert(extract::messages(blob, extract::nested(blob, 0), i + 8, cap, 1).contains(one));
        assert(0nat + 1 == 1nat);
    }
}

/// In a state blob within another, payloads of 8 bytes up to 32 MiB are
/// looked at.
pub proof fn law_deeper_frames_are_found(p: Seq<u8>, depth: nat, i: int, n: int) -> (k: int)
    requires
        depth > 0,
        p.len() <= usize::MAX,
        framed_at(p, i, n),
        8 <= n <= 0x200_0000,
        uncovered(p, i, 8, 0x200_0000),
    ensures
        0 <= k < extract::nested(p, depth).len(),
        extract::nested(p, depth)[k].offset == i,
        extract::nested(p, depth)[k].body(p) == payload_at(p, i, n),
{
    law_frames_are_found(p, 8, 0x200_0000, i, n)
}

/// The request of a frame of the file gives an exchange.
pub proof fn law_framed_request_gives_an_exchange(b: Seq<u8>, i: int, n: int, cap: int) -> (k: int)
    requires
        b.len() <= usize::MAX,
        framed_at(b, i, n),
        1 <= n <= 0x400_0000,
        uncovered(b, i, 1, 0x400_0000),
        classify::kind_of(payload_at(b, i, n)) == Kind::HttpRequest,
        http::message(payload_at(b, i, n), i + 8, cap) is Some,
    ensures
        ({
            let frames = frame::scan_of(b, 1, 0x400_0000).frames();
            &&& 0 <= k < frames.len()
            &&& frames[k].offset == i
            &&& transaction::all_transactions(b, cap).contains(
                transaction::cluster(b, frames, k, 0, cap),
            )
        }),
{
    let k = law_frames_are_found(b, 1, 0x400_0000, i, n);
    let frames = frame::scan_of(b, 1, 0x400_0000).frames();
    exchanges::law_every_exchange_is_found(b, frames, 0, 0, cap, 0, k);
    k
}

proof fn lemma_messages_of_walk(
    f: FindingsModel,
    slice: Seq<u8>,
    frames: Seq<Frame>,
    base: int,
    opts: Options,
    depth: nat,
)
    requires
        opts.max_frames is None,
    ensures
        extract::with_frames(f, slice, frames, base, opts, depth).http_messages == f.http_messages
            + extract::messages(slice, frames, base, opts.body_cap as int, depth),
    decreases 5 - depth, frames.len(),
{
    let cap = opts.body_cap as int;
    let none = Seq::<HttpModel>::empty();
    assert(f.http_messages + none =~= f.http_messages);
    if frames.len() == 0 || depth > 4 {
    } else {
        let fr = frames[0];
        let p = fr.body(slice);
        let at = base + fr.offset + 8;
        let rest = frames.skip(1);
        let g = extract::with_payload(extract::with_frame(f, fr), p, fr, at, opts);
        let later = extract::messages(slice, rest, base, cap, depth);
        reveal(extract::with_payload);
        if classify::kind_of(p) == Kind::StateBlob && depth < 4 {
            let nested = extract::nested(p, depth);
            let h = extract::with_frames(g, p, nested, at, opts, depth + 1);
            let here = extract::messages(p, nested, at, cap, depth + 1);
            lemma_messages_of_walk(g, p, nested, at, opts, depth + 1);
            lemma_messages_of_walk(h, slice, rest, base, opts, depth);
            assert((f.http_messages + here) + later =~= f.http_messages + (here + later));
        } else {
            lemma_messages_of_walk(g, slice, rest, base, opts, depth);
            match http::message(p, at, cap) {
                Some(m) => {
                    assert(f.http_messages.push(m) + later =~= f.http_messages + (seq![m]
                        + later));
                },
                None => {},
            }
            assert(f.http_messages + later =~= f.http_messages + (none + later));
        }
    }
}

/// The findings list the messages of the file's frames, in order, down to
/// frames of one byte.
pub proof fn law_findings_list_the_messages(
    file: Seq<char>,
    buf: Seq<u8>,
    opts: Options,
)
    requires
        opts.max_frames is None,
    ensures
        extract::findings_of(file, buf, opts).http_messages == extract::messages(
            buf,
            frame::scan_of(buf, 1, 0x400_0000).frames(),
            0,
            opts.body_cap as int,
            0,
        ),
{
    let start = FindingsModel {
        file,
        size: buf.len() as int,
        header: header::header_of(buf),
        ..extract::blank_findings()
    };
    let frames = frame::scan_of(buf, 1, 0x400_0000).frames();
    lemma_messages_of_walk(start, buf, frames, 0, opts, 0);
    let all = extract::messages(buf, frames, 0, opts.body_cap as int, 0);
    assert(start.http_messages + all =~= all);
}

/// How many frames start within a stretch.
pub open spec fn frames_within(frames: Seq<Frame>, a: int, b: int) -> nat
    decreases frames.len(),
{
    if frames.len() == 0 {
        0
    } else {
        frames_within(frames.drop_last(), a, b) + if a <= frames.last().offset < b {
            1nat
        } else {
            0
        }
    }
}

/// Each frame ends before the next starts, and none is empty.
spec fn in_turn(frames: Seq<Frame>) -> bool {
    &&& forall|i: int| 0 <= i < frames.len() ==> (#[trigger] frames[i]).outer > 0
    &&& forall|i: int, j: int|
        0 <= i < j < frames.len() ==> (#[trigger] frames[i]).offset + frames[i].outer <= (
        #[trigger] frames[j]).offset
}

spec fn run_holds(frames: Seq<Frame>, r: Run) -> bool {
    &&& r.span.start < r.span.end
    &&& r.count == frames_within(frames, r.span.start, r.span.end)
}

/// Each run tells how many frames start in it, and no two runs touch.
spec fn told(frames: Seq<Frame>, runs: Seq<Run>) -> bool {
    &&& forall|k: int| 0 <= k < runs.len() ==> run_holds(frames, #[trigger] runs[k])
    &&& forall|j: int, k: int|
        0 <= j < k < runs.len() ==> (#[trigger] runs[j]).span.end < (
        #[trigger] runs[k]).span.start
    &&& frames.len() == 0 <==> runs.len() == 0
    &&& runs.len() > 0 ==> runs.last().span.end == frames.last().offset + frames.last().outer
}

proof fn lemma_within_from(frames: Seq<Frame>, a: int, b: int, c: int)
    requires
        b <= c,
        forall|i: int| 0 <= i < frames.len() ==> (#[trigger] frames[i]).offset < b,
    ensures
        frames_within(frames, a, b) == frames_within(frames, a, c),
    decreases frames.len(),
{
    if frames.len() > 0 {
        lemma_within_from(frames.drop_last(), a, b, c);
    }
}

proof fn lemma_none_within(frames: Seq<Frame>, a: int, b: int)
    requires
        forall|i: int| 0 <= i < frames.len() ==> (#[trigger] frames[i]).offset < a,
    ensures
        frames_within(frames, a, b) == 0,
    decreases frames.len(),
{
    if frames.len() > 0 {
        lemma_none_within(frames.drop_last(), a, b);
    }
}

proof fn lemma_runs_told(frames: Seq<Frame>)
    requires
        in_turn(frames),
    ensures
        told(frames, container::runs_of(frames)),
    decreases frames.len(),
{
    if frames.len() > 0 {
        let init = frames.drop_last();
        let f = frames.last();
        let before = container::runs_of(init);
        let runs = container::runs_of(frames);
        let start = f.offset as int;
        let end = start + f.outer;
        assert forall|i: int, j: int| 0 <= i < j < init.len() implies (
        #[trigger] init[i]).offset + init[i].outer <= (#[trigger] init[j]).offset by {
            assert(init[i] == frames[i] && init[j] == frames[j]);
        }
        assert forall|i: int| 0 <= i < init.len() implies (#[trigger] init[i]).outer > 0 by {
            assert(init[i] == frames[i]);
        }
        lemma_runs_told(init);
        assert(f == frames[frames.len() - 1]);
        assert(f.outer > 0);
        assert forall|i: int| 0 <= i < init.len() implies (#[trigger] init[i]).offset < start by {
            assert(init[i] == frames[i]);
            assert(frames[i].offset + frames[i].outer <= f.offset);
        }
        if before.len() > 0 {
            let l = init.len() - 1;
            assert(init[l] == frames[l]);
            assert(before.last().span.end <= start);
        }
        let joins = before.len() > 0 && before.last().span.end == start;
        assert forall|k: int| 0 <= k < runs.len() implies run_holds(frames, #[trigger] runs[k]) by {
            if k < before.len() - 1 || (k < before.len() && !joins) {
                assert(runs[k] == before[k]);
                assert(run_holds(init, before[k]));
                if k < before.len() - 1 {
                    assert(before[k].span.end < before[before.len() - 1].span.start);
                    assert(run_holds(init, before[before.len() - 1]));
                }
            } else if joins {
                assert(run_holds(init, before[k]));
                lemma_within_from(init, before[k].span.start, start, end);
            } else {
                lemma_none_within(init, start, end);
            }
        }
        assert forall|j: int, k: int| 0 <= j < k < runs.len() implies (
        #[trigger] runs[j]).span.end < (#[trigger] runs[k]).span.start by {
            if k < before.len() {
                assert(before[j].span.end < before[k].span.start);
            } else {
                let l = before.len() - 1;
                assert(run_holds(init, before[l]));
                if j < l {
                    assert(before[j].span.end < before[l].span.start);
                }
            }
        }
    }
}

/// A frame run of the layout says where it lies and how many frames start in
/// it, and no frame run touches another.
pub proof fn law_frame_runs(buf: Seq<u8>, k: int)
    requires
        buf.len() <= usize::MAX,
        0 <= k < container::layout_of(buf).frame_runs.len(),
    ensures
        ({
            let runs = container::layout_of(buf).frame_runs;
            let r = runs[k];
            let n = frames_within(container::live_frames(buf), r.offset, r.end);
            &&& r.size == r.end - r.offset
            &&& r.offset < r.end
            &&& r.note == num::numeral(n, 10) + " contiguous frames"@
            &&& k + 1 < runs.len() ==> r.end < runs[k + 1].offset
        }),
{
    let live = buf.take(container::live_end(buf));
    let s = frame::scan_of(live, 1, 0x400_0000);
    let frames = s.frames();
    assert forall|i: int| 0 <= i < frames.len() implies (#[trigger] frames[i]).outer > 0 by {
        frame::law_frames_fit(s, i);
    }
    assert forall|i: int, j: int| 0 <= i < j < frames.len() implies (#[trigger] frames[i]).offset
        + frames[i].outer <= (#[trigger] frames[j]).offset by {
        frame::law_frames_disjoint(s, i, j);
    }
    lemma_runs_told(frames);
    let runs = container::runs_of(frames);
    assert(run_holds(frames, runs[k]));
    if k + 1 < runs.len() {
        assert(runs[k].span.end < runs[k + 1].span.start);
    }
}

/// The frames of a layout are those of the live data, with a payload of one
/// byte up to 64 MiB, that none before them reaches into.
pub proof fn law_live_frames(buf: Seq<u8>, i: int, n: int) -> (k: int)
    requires
        buf.len() <= usize::MAX,
        framed_at(buf, i, n),
        1 <= n <= 0x400_0000,
        i + 8 + n <= container::used_of(buf),
        uncovered(buf, i, 1, 0x400_0000),
    ensures
        0 <= k < container::live_frames(buf).len(),
        container::live_frames(buf)[k].offset == i,
        container::live_frames(buf)[k].inner == n,
{
    let live = buf.take(container::live_end(buf));
    assert forall|j: int, m: int| #[trigger]
        framed_at(live, j, m) && 1 <= m <= 0x400_0000 && j < i implies j + 8 + m <= i by {
        assert(framed_at(buf, j, m));
    }
    law_frames_are_found(live, 1, 0x400_0000, i, n)
}

/// The blob that the file holds where a record says.
pub open spec fn blob_in(buf: Seq<u8>, b: StateModel) -> Blob {
    Blob {
        offset: b.offset,
        size: b.size,
        payload: buf.subrange(b.offset, b.offset + b.size),
    }
}

/// The summary of a project is made from every state blob that was found, and
/// so is the index.
pub proof fn law_project_of_the_blobs(file: Seq<char>, buf: Seq<u8>, opts: Options)
    requires
        buf.len() <= usize::MAX,
    ensures
        ({
            let f = extract::findings_of(file, buf, opts);
            let blobs = f.state_blobs.map_values(|b: StateModel| blob_in(buf, b));
            &&& f.project == project::summary_of(blobs)
            &&& f.state_blob_index == project::metas_of(blobs)
        }),
{
    let f = extract::findings_of(file, buf, opts);
    let blobs = f.state_blobs.map_values(|b: StateModel| blob_in(buf, b));
    let made = extract::reread_all(buf, f.state_blobs);
    laws::law_findings_lie_in_the_file(file, buf, opts);
    assert(made =~= blobs) by {
        assert forall|i: int| 0 <= i < made.len() implies made[i] == blobs[i] by {
            assert(laws::holds_blob(buf, f.state_blobs[i]));
        }
    }
}

/// A layout says how large the file is and how much of it the header calls
/// live; without a header all of it is. What follows is the tail, and it is
/// checked to be zero.
pub proof fn law_layout_sizes_and_tail(buf: Seq<u8>)
    ensures
        ({
            let l = container::layout_of(buf);
            let n = buf.len() as int;
            &&& l.file_size == n
            &&& n >= 80 ==> l.used_size == eight_at(buf, 56)
            &&& n < 80 ==> l.used_size == n
            &&& l.used_size <= n ==> l.tail_zero_bytes == n - l.used_size
            &&& l.used_size >= n ==> l.tail_zero_bytes == 0
            &&& l.tail_zero_verified <==> forall|i: int|
                l.used_size <= i < n ==> #[trigger] buf[i] == 0
            &&& l.header_run.offset == 0
            &&& l.header_run.size == l.header_run.end
            &&& l.header_run.note
                == "fixed header (256B) + extended header & schema tables up to first frame run"@
        }),
{
    law_header(buf);
    let l = container::layout_of(buf);
    let e = container::live_end(buf);
    let tail = buf.skip(e);
    if l.tail_zero_verified {
        assert forall|i: int| l.used_size <= i < buf.len() implies #[trigger] buf[i] == 0 by {
            assert(tail[i - e] == buf[i]);
        }
    }
    if forall|i: int| l.used_size <= i < buf.len() ==> #[trigger] buf[i] == 0 {
        assert forall|i: int| 0 <= i < tail.len() implies tail[i] == 0 by {
            assert(buf[e + i] == 0);
        }
    }
}

/// A printable ASCII character in UTF-16BE at `i`.
pub open spec fn printable_at(b: Seq<u8>, i: int) -> bool {
    0 <= i && i + 1 < b.len() && b[i] == 0 && 0x20 <= b[i + 1] <= 0x7e
}

pub open spec fn printable_nth(b: Seq<u8>, a: int, k: int) -> bool {
    printable_at(b, a + 2 * k)
}

/// `n` of them in a row from `a` on, and no more on either side.
pub open spec fn printable_run_at(b: Seq<u8>, a: int, n: int) -> bool {
    &&& n > 0
    &&& forall|k: int| 0 <= k < n ==> #[trigger] printable_nth(b, a, k)
    &&& !printable_at(b, a - 2)
    &&& !printable_at(b, a + 2 * n)
}

proof fn lemma_printable_run_is(b: Seq<u8>, i: int)
    ensures
        forall|k: int|
            0 <= k < container::printable_run(b, i) ==> #[trigger] printable_nth(b, i, k),
        !printable_at(b, i + 2 * container::printable_run(b, i)),
    decreases b.len() - i,
{
    let n = container::printable_run(b, i);
    if n > 0 {
        lemma_printable_run_is(b, i + 2);
        assert forall|k: int| 0 <= k < n implies #[trigger] printable_nth(b, i, k) by {
            if k > 0 {
                assert(printable_nth(b, i + 2, k - 1));
            }
        }
    }
}

/// The runs of four printable characters or more that a gap is said to hold
/// are all that there are, each counted once.
pub proof fn law_printable_runs(b: Seq<u8>) -> (at: Seq<int>)
    ensures
        at.len() == container::printable_runs(b, 0),
        runs::in_order(at, 0),
        forall|a: int| #[trigger] at.contains(a) <==> long_run_at(b, a),
{
    let at = lemma_printable_runs(b, 0);
    assert forall|a: int| #[trigger] at.contains(a) <==> long_run_at(b, a) by {
        if long_run_at(b, a) {
            let n = choose|n: int| n >= 4 && #[trigger] printable_run_at(b, a, n);
            assert(printable_nth(b, a, 0));
        }
    }
    at
}

/// At `i` a reading is not within a run of which four characters are left.
spec fn clear_at(b: Seq<u8>, i: int) -> bool {
    printable_at(b, i - 2) && printable_at(b, i) ==> container::printable_run(b, i) < 4
}

/// A run of four printable characters or more starts at `a`.
pub open spec fn long_run_at(b: Seq<u8>, a: int) -> bool {
    exists|n: int| n >= 4 && #[trigger] printable_run_at(b, a, n)
}

proof fn lemma_printable_runs(b: Seq<u8>, i: int) -> (at: Seq<int>)
    requires
        0 <= i,
        clear_at(b, i),
        clear_at(b, i + 1),
    ensures
        at.len() == container::printable_runs(b, i),
        runs::in_order(at, i),
        forall|a: int| #[trigger] at.contains(a) <==> a >= i && long_run_at(b, a),
    decreases b.len() - i,
{
    if i + 8 > b.len() {
        let at = Seq::<int>::empty();
        assert forall|a: int| a >= i implies !long_run_at(b, a) by {
            if long_run_at(b, a) {
                let n = choose|n: int| n >= 4 && #[trigger] printable_run_at(b, a, n);
                assert(printable_nth(b, a, 3));
            }
        }
        at
    } else {
        let n = container::printable_run(b, i) as int;
        lemma_printable_run_is(b, i);
        container::lemma_printable_run(b, i);
        if n >= 4 {
            let next = i + 2 * n;
            assert(printable_nth(b, i, n - 1));
            assert(printable_nth(b, i, 0));
            let rest = lemma_printable_runs(b, next);
            let at = seq![i] + rest;
            assert(printable_run_at(b, i, n));
            assert(long_run_at(b, i));
            assert forall|k: int| 0 <= k < at.len() implies #[trigger] at[k] >= i by {
                if k > 0 {
                    assert(at[k] == rest[k - 1]);
                }
            }
            assert forall|j: int, k: int| 0 <= j < k < at.len() implies at[j] < at[k] by {
                assert(at[k] == rest[k - 1]);
                if j > 0 {
                    assert(at[j] == rest[j - 1]);
                }
            }
            assert forall|a: int| #[trigger] at.contains(a) <==> a >= i && long_run_at(b, a) by {
                if at.contains(a) && a != i {
                    let k = choose|k: int| 0 <= k < at.len() && at[k] == a;
                    assert(rest[k - 1] == a);
                    assert(rest.contains(a));
                }
                if a >= i && long_run_at(b, a) {
                    let m = choose|m: int| m >= 4 && #[trigger] printable_run_at(b, a, m);
                    assert(printable_nth(b, a, 0));
                    if a == i {
                        assert(at[0] == i);
                    } else if a < next {
                        let k = (a - i) / 2;
                        assert(printable_nth(b, i, k));
                        if i + 2 * k == a {
                            assert(printable_nth(b, i, k - 1));
                            assert(i + 2 * (k - 1) == a - 2);
                        }
                        assert(false);
                    } else {
                        assert(rest.contains(a));
                        let k = choose|k: int| 0 <= k < rest.len() && rest[k] == a;
                        assert(at[k + 1] == a);
                    }
                }
            }
            at
        } else {
            assert(printable_at(b, i) ==> n == 1 + container::printable_run(b, i + 2));
            let at = lemma_printable_runs(b, i + 1);
            assert forall|a: int| #[trigger] at.contains(a) <==> a >= i && long_run_at(b, a) by {
                if long_run_at(b, i) {
                    let m = choose|m: int| m >= 4 && #[trigger] printable_run_at(b, i, m);
                    assert(printable_nth(b, i, n));
                }
            }
            at
        }
    }
}

/// Eight 0xff bytes in a row stand at `i`.
pub open spec fn mark_at(b: Seq<u8>, i: int) -> bool {
    0 <= i && i + 8 <= b.len() && forall|k: int| i <= k < i + 8 ==> #[trigger] b[k] == 0xff
}

/// What is said of a gap: one byte is a pad; less than 8192 with eight 0xff
/// bytes in a row are a trailer; eight runs of text or more are strings;
/// zeros are padding; anything else is told by its size and its runs.
pub proof fn law_gap_note(b: Seq<u8>)
    ensures
        ({
            let note = container::gap_note(b);
            let n = container::printable_runs(b, 0);
            let runs = num::numeral(n, 10);
            let trailer = b.len() > 1 && b.len() < 8192 && exists|i: int| #[trigger] mark_at(b, i);
            let strings = b.len() > 1 && !trailer && n >= 8;
            let zeros = forall|i: int| 0 <= i < b.len() ==> #[trigger] b[i] == 0;
            let padding = b.len() > 1 && zeros;
            &&& b.len() == 0 ==> note == "empty"@
            &&& b.len() == 1 ==> note == "1-byte alignment pad"@
            &&& trailer ==> note == "trailer (back-pointer + 0xff sentinel + txn id)"@
            &&& strings ==> note == "schema or strings block ("@ + runs + " utf-16be runs)"@
            &&& padding ==> note == "zero padding"@
            &&& b.len() > 1 && !trailer && !strings && !padding ==> note == "unclassified ("@
                + num::numeral(b.len(), 10) + " bytes, "@ + runs + " utf-16be runs)"@
        }),
{
    let m = container::sentinel();
    if exists|i: int| #[trigger] mark_at(b, i) {
        let i = choose|i: int| #[trigger] mark_at(b, i);
        assert(b.subrange(i, i + 8) =~= m);
        assert(strs::occurs_at(b, m, i));
    }
    if strs::has(b, m) {
        let i = choose|i: int| strs::occurs_at(b, m, i);
        assert forall|k: int| i <= k < i + 8 implies #[trigger] b[k] == 0xff by {
            assert(b.subrange(i, i + 8)[k - i] == m[k - i]);
        }
        assert(mark_at(b, i));
    }
    if b.len() > 1 && bytes::zeros(b) {
        assert forall|i: int| !(#[trigger] mark_at(b, i)) by {
            if mark_at(b, i) {
                assert(b[i] == 0xff);
            }
        }
        let at = law_printable_runs(b);
        if at.len() > 0 {
            assert(at.contains(at[0]));
            let n = choose|n: int| n >= 4 && #[trigger] printable_run_at(b, at[0], n);
            assert(printable_nth(b, at[0], 0));
        }
    }
}

/// The trailers of a layout are gaps of the file, and each is told by its
/// bytes.
pub proof fn law_trailers(buf: Seq<u8>, k: int)
    requires
        0 <= k < container::layout_of(buf).trailers.len(),
    ensures
        ({
            let t = container::layout_of(buf).trailers[k];
            &&& t.size == t.end - t.offset
            &&& t.note == container::gap_note(buf.subrange(t.offset, t.end))
        }),
{
}

} // verus!
