//! What holds of a whole extraction, and of the transactions in a file.

pub mod answers;
pub mod exchanges;
pub mod files;
pub mod findings;
pub mod issues;
pub mod kinds;
pub mod messages;
pub mod outputs;
pub mod readings;
pub mod runs;
pub mod texts;
pub mod walks;

use vstd::prelude::*;

use crate::bytes;
use crate::chars;
use crate::classify;
use crate::classify::Kind;
use crate::codes;
use crate::counts;
use crate::extract;
use crate::extract::FindingsModel;
use crate::extract::Options;
use crate::extract::StateModel;
use crate::frame;
use crate::frame::Frame;
use crate::http;
use crate::http::HttpModel;
use crate::num;
use crate::project;
use crate::strs;
use crate::transaction;
use crate::transaction::TransactionModel;

verus! {

/// How many of the messages are requests.
pub open spec fn request_count(v: Seq<HttpModel>) -> nat {
    extract::of_kind(v, "request"@).len()
}

/// How many requests use a method.
pub open spec fn method_count(v: Seq<HttpModel>, k: Seq<char>) -> nat
    decreases v.len(),
{
    if v.len() == 0 {
        0
    } else {
        method_count(v.drop_last(), k) + if v.last().kind == "request"@ && v.last().method == Some(
            k,
        ) {
            1nat
        } else {
            0
        }
    }
}

/// How many requests name a host.
pub open spec fn host_count(v: Seq<HttpModel>, k: Seq<char>) -> nat
    decreases v.len(),
{
    if v.len() == 0 {
        0
    } else {
        host_count(v.drop_last(), k) + if v.last().kind == "request"@ && v.last().host == Some(k) {
            1nat
        } else {
            0
        }
    }
}

/// How many responses have a status.
pub open spec fn status_count(v: Seq<HttpModel>, k: nat) -> nat
    decreases v.len(),
{
    if v.len() == 0 {
        0
    } else {
        status_count(v.drop_last(), k) + if v.last().kind != "request"@ && v.last().status == Some(
            k,
        ) {
            1nat
        } else {
            0
        }
    }
}

/// How many messages have a media type.
pub open spec fn media_count(v: Seq<HttpModel>, k: Seq<char>) -> nat
    decreases v.len(),
{
    if v.len() == 0 {
        0
    } else {
        media_count(v.drop_last(), k) + if extract::media_type_of(v.last()) == Some(k) {
            1nat
        } else {
            0
        }
    }
}

/// How many texts name a host.
pub open spec fn mentions(v: Seq<Seq<char>>, k: Seq<char>) -> nat
    decreases v.len(),
{
    if v.len() == 0 {
        0
    } else {
        mentions(v.drop_last(), k) + if extract::host_in(v.last()) == Some(k) {
            1nat
        } else {
            0
        }
    }
}

/// How many texts of state blobs name a host.
pub open spec fn blob_mentions(v: Seq<StateModel>, k: Seq<char>) -> nat
    decreases v.len(),
{
    if v.len() == 0 {
        0
    } else {
        blob_mentions(v.drop_last(), k) + mentions(
            v.last().strings_utf16be + v.last().strings_ascii,
            k,
        )
    }
}

/// The options hold: unknown frames are all kept or none is, other texts are
/// kept only where they are wanted, and no more frames are counted than were
/// wanted.
pub open spec fn kept(f: FindingsModel, opts: Options) -> bool {
    &&& opts.include_unknown ==> f.unknown_frames.len() == f.stats.unknown
    &&& !opts.include_unknown ==> f.unknown_frames.len() == 0
    &&& !opts.include_other_text ==> f.other_text.len() == 0
    &&& opts.max_frames matches Some(cap) ==> f.stats.total_frames <= cap
}

/// The statistics agree with the lists, and the lists with the options.
pub open spec fn consistent(f: FindingsModel, opts: Options) -> bool {
    &&& f.stats.requests == request_count(f.http_messages)
    &&& f.stats.requests + f.stats.responses == f.http_messages.len()
    &&& f.stats.utf16_blobs == f.config_blobs.len()
    &&& f.stats.json_blobs == f.json_blobs.len()
    &&& f.stats.state_blobs == f.state_blobs.len()
    &&& kept(f, opts)
    &&& f.http_messages.len() + f.config_blobs.len() + f.json_blobs.len() + f.other_text.len()
        + f.state_blobs.len() + f.stats.small_ids + f.stats.unknown <= f.stats.total_frames
    &&& f.stats.total_frames <= f.stats.bytes_in_frames
}

/// The counts agree with the messages and the state blobs.
pub open spec fn tallied(f: FindingsModel) -> bool {
    &&& forall|k: Seq<char>| #[trigger]
        counts::count_of(f.methods, k) == method_count(f.http_messages, k)
    &&& forall|k: Seq<char>| #[trigger]
        counts::count_of(f.content_types, k) == media_count(f.http_messages, k)
    &&& forall|k: Seq<char>| #[trigger]
        counts::count_of(f.hosts, k) == host_count(f.http_messages, k) + blob_mentions(
            f.state_blobs,
            k,
        )
    &&& forall|k: u16| #[trigger]
        codes::code_count(f.status_codes, k) == status_count(f.http_messages, k as nat)
}

/// The bytes of the file from `at` on, for `len` bytes, are the payload of a
/// message.
pub open spec fn holds_message(buf: Seq<u8>, m: HttpModel, len: int, cap: int) -> bool {
    &&& 0 <= m.offset
    &&& 0 <= len
    &&& m.offset + len <= buf.len()
    &&& http::message(buf.subrange(m.offset, m.offset + len), m.offset, cap) == Some(m)
}

/// The file holds the payload of a message at the offset it gives.
pub open spec fn message_lies(buf: Seq<u8>, m: HttpModel, cap: int) -> bool {
    exists|len: int| holds_message(buf, m, len, cap)
}

/// The bytes of the file at a state blob's place are one, and hold its texts.
pub open spec fn holds_blob(buf: Seq<u8>, b: StateModel) -> bool {
    let p = buf.subrange(b.offset, b.offset + b.size);
    &&& 0 <= b.offset
    &&& 0 <= b.size
    &&& b.offset + b.size <= buf.len()
    &&& classify::kind_of(p) == Kind::StateBlob
    &&& b.strings_utf16be == classify::runs16(p, 0, 4)
    &&& b.strings_ascii == classify::runs8(p, 0, 6)
}

/// Everything that was found lies where it says.
pub open spec fn located(f: FindingsModel, buf: Seq<u8>, cap: int) -> bool {
    &&& forall|i: int|
        0 <= i < f.http_messages.len() ==> message_lies(buf, #[trigger] f.http_messages[i], cap)
    &&& forall|i: int| 0 <= i < f.state_blobs.len() ==> holds_blob(buf, #[trigger] f.state_blobs[i])
}

/// The slice is what the file holds at `base`.
spec fn placed(slice: Seq<u8>, buf: Seq<u8>, base: int) -> bool {
    &&& 0 <= base
    &&& base + slice.len() <= buf.len()
    &&& slice == buf.subrange(base, base + slice.len())
}

spec fn all_fit(frames: Seq<Frame>, slice: Seq<u8>) -> bool {
    forall|i: int|
        0 <= i < frames.len() ==> (#[trigger] frames[i]).fits(slice) && frames[i].inner
            == frames[i].outer - 8
}

proof fn lemma_scan_fits(buf: Seq<u8>, min: u32, max: u32)
    requires
        buf.len() <= usize::MAX,
    ensures
        all_fit(frame::scan_of(buf, min, max).frames(), buf),
        frame::total_outer(frame::scan_of(buf, min, max).frames()) <= buf.len(),
{
    let s = frame::scan_of(buf, min, max);
    assert forall|i: int| 0 <= i < s.frames().len() implies (#[trigger] s.frames()[i]).fits(buf)
        && s.frames()[i].inner == s.frames()[i].outer - 8 by {
        frame::law_frames_fit(s, i);
    }
    frame::law_frames_take_at_most_the_bytes(s);
}

/// Each frame ends before the next one starts.
spec fn apart(frames: Seq<Frame>) -> bool {
    forall|i: int, j: int|
        0 <= i < j < frames.len() ==> (#[trigger] frames[i]).offset + frames[i].outer <= (
        #[trigger] frames[j]).offset
}

proof fn lemma_scan_apart(buf: Seq<u8>, min: u32, max: u32)
    requires
        buf.len() <= usize::MAX,
    ensures
        apart(frame::scan_of(buf, min, max).frames()),
{
    let s = frame::scan_of(buf, min, max);
    assert forall|i: int, j: int| 0 <= i < j < s.frames().len() implies (
    #[trigger] s.frames()[i]).offset + s.frames()[i].outer <= (
    #[trigger] s.frames()[j]).offset by {
        frame::law_frames_disjoint(s, i, j);
    }
}

/// The payload of a frame in a placed slice is placed too.
proof fn lemma_body_placed(fr: Frame, slice: Seq<u8>, buf: Seq<u8>, base: int)
    requires
        placed(slice, buf, base),
        fr.fits(slice),
    ensures
        placed(fr.body(slice), buf, base + fr.offset + 8),
        fr.body(slice).len() == fr.outer - 8,
{
    let at = base + fr.offset + 8;
    assert(fr.body(slice) =~= buf.subrange(at, at + fr.body(slice).len()));
}

proof fn lemma_with_frames_bytes(
    f: FindingsModel,
    slice: Seq<u8>,
    frames: Seq<Frame>,
    base: int,
    opts: Options,
    depth: nat,
)
    requires
        all_fit(frames, slice),
        slice.len() <= usize::MAX,
    ensures
        f.stats.bytes_in_frames <= extract::with_frames(
            f,
            slice,
            frames,
            base,
            opts,
            depth,
        ).stats.bytes_in_frames,
        depth <= 4 ==> extract::with_frames(
            f,
            slice,
            frames,
            base,
            opts,
            depth,
        ).stats.bytes_in_frames <= f.stats.bytes_in_frames + (5 - depth) * frame::total_outer(
            frames,
        ),
    decreases 5 - depth, frames.len(),
{
    let d = 5 - depth;
    if frames.len() == 0 || extract::sated(f, opts) || depth > 4 {
        if depth <= 4 {
            let t = frame::total_outer(frames) as int;
            assert(0 <= d * t) by (nonlinear_arith)
                requires
                    d >= 1,
                    t >= 0,
            ;
        }
    } else {
        let fr = frames[0];
        let p = fr.body(slice);
        let at = base + fr.offset + 8;
        let rest = frames.skip(1);
        let f1 = extract::with_frame(f, fr);
        let g = extract::with_payload(f1, p, fr, at, opts);
        assert(fr.fits(slice));
        extract::lemma_payload_bytes(f1, p, fr, at, opts);
        let nested = extract::nested(p, depth);
        let h = if classify::kind_of(p) == Kind::StateBlob && depth < 4 {
            extract::with_frames(g, p, nested, at, opts, depth + 1)
        } else {
            g
        };
        lemma_scan_fits(p, 8, extract::max_inner_at(depth));
        let n = frame::total_outer(nested) as int;
        if depth < 4 {
            lemma_with_frames_bytes(g, p, nested, at, opts, depth + 1);
        }
        assert forall|i: int| 0 <= i < rest.len() implies (#[trigger] rest[i]).fits(slice)
            && rest[i].inner == rest[i].outer - 8 by {
            assert(rest[i] == frames[i + 1]);
        }
        lemma_with_frames_bytes(h, slice, rest, base, opts, depth);
        let o = fr.outer as int;
        let r = frame::total_outer(rest) as int;
        assert(0 <= (d - 1) * n <= (d - 1) * o) by (nonlinear_arith)
            requires
                d >= 1,
                0 <= n <= o,
        ;
        assert(d * (o + r) == o + (d - 1) * o + d * r) by (nonlinear_arith);
        assert(frame::total_outer(frames) == o + r);
    }
}

proof fn lemma_counted(m: Map<Seq<char>, nat>, o: Option<Seq<char>>, k: Seq<char>)
    ensures
        counts::count_of(extract::with_name(m, o), k) == counts::count_of(m, k) + if o == Some(k) {
            1nat
        } else {
            0
        },
{
}

proof fn lemma_with_hosts(m: Map<Seq<char>, nat>, v: Seq<Seq<char>>, k: Seq<char>)
    ensures
        counts::count_of(extract::with_hosts(m, v), k) == counts::count_of(m, k) + mentions(v, k),
    decreases v.len(),
{
    if v.len() > 0 {
        lemma_with_hosts(m, v.drop_last(), k);
        lemma_counted(extract::with_hosts(m, v.drop_last()), extract::host_in(v.last()), k);
    }
}

proof fn lemma_status_count(v: Seq<HttpModel>, k: nat)
    ensures
        status_count(v, k) <= v.len(),
    decreases v.len(),
{
    if v.len() > 0 {
        lemma_status_count(v.drop_last(), k);
    }
}

/// One more message counts for its own method, host, status and media type.
proof fn lemma_message_tallied(f: FindingsModel, m: HttpModel)
    requires
        tallied(f),
        f.http_messages.len() < u64::MAX,
        m.status matches Some(s) ==> s <= 0xffff,
    ensures
        tallied(extract::with_message(f, m)),
{
    let g = extract::with_message(f, m);
    assert(g.http_messages.drop_last() =~= f.http_messages);
    assert(g.http_messages.last() == m);
    assert forall|k: Seq<char>| #[trigger]
        counts::count_of(g.methods, k) == method_count(g.http_messages, k) by {
        lemma_counted(f.methods, m.method, k);
        assert(counts::count_of(f.methods, k) == method_count(f.http_messages, k));
    }
    assert forall|k: Seq<char>| #[trigger]
        counts::count_of(g.content_types, k) == media_count(g.http_messages, k) by {
        lemma_counted(f.content_types, extract::media_type_of(m), k);
        assert(counts::count_of(f.content_types, k) == media_count(f.http_messages, k));
    }
    assert forall|k: Seq<char>| #[trigger]
        counts::count_of(g.hosts, k) == host_count(g.http_messages, k) + blob_mentions(
            g.state_blobs,
            k,
        ) by {
        lemma_counted(f.hosts, m.host, k);
        assert(counts::count_of(f.hosts, k) == host_count(f.http_messages, k) + blob_mentions(
            f.state_blobs,
            k,
        ));
    }
    assert forall|k: u16| #[trigger]
        codes::code_count(g.status_codes, k) == status_count(g.http_messages, k as nat) by {
        assert(codes::code_count(f.status_codes, k) == status_count(f.http_messages, k as nat));
        lemma_status_count(f.http_messages, k as nat);
    }
}

proof fn lemma_blob_tallied(f: FindingsModel, g: FindingsModel, b: StateModel)
    requires
        tallied(f),
        g.state_blobs == f.state_blobs.push(b),
        g.hosts == extract::with_hosts(f.hosts, b.strings_utf16be + b.strings_ascii),
        g.methods == f.methods,
        g.content_types == f.content_types,
        g.status_codes == f.status_codes,
        g.http_messages == f.http_messages,
    ensures
        tallied(g),
{
    let texts = b.strings_utf16be + b.strings_ascii;
    assert(g.state_blobs.drop_last() =~= f.state_blobs);
    assert forall|k: Seq<char>| #[trigger]
        counts::count_of(g.methods, k) == method_count(g.http_messages, k) by {
        assert(counts::count_of(f.methods, k) == method_count(f.http_messages, k));
    }
    assert forall|k: Seq<char>| #[trigger]
        counts::count_of(g.content_types, k) == media_count(g.http_messages, k) by {
        assert(counts::count_of(f.content_types, k) == media_count(f.http_messages, k));
    }
    assert forall|k: Seq<char>| #[trigger]
        counts::count_of(g.hosts, k) == host_count(g.http_messages, k) + blob_mentions(
            g.state_blobs,
            k,
        ) by {
        lemma_with_hosts(f.hosts, texts, k);
        assert(counts::count_of(f.hosts, k) == host_count(f.http_messages, k) + blob_mentions(
            f.state_blobs,
            k,
        ));
    }
    assert forall|k: u16| #[trigger]
        codes::code_count(g.status_codes, k) == status_count(g.http_messages, k as nat) by {
        assert(codes::code_count(f.status_codes, k) == status_count(f.http_messages, k as nat));
    }
}

/// A frame and its payload keep the findings in order.
#[verifier::rlimit(50)]
proof fn lemma_step(
    f: FindingsModel,
    fr: Frame,
    slice: Seq<u8>,
    buf: Seq<u8>,
    base: int,
    opts: Options,
)
    requires
        placed(slice, buf, base),
        fr.fits(slice),
        fr.inner == fr.outer - 8,
        !extract::sated(f, opts),
        consistent(f, opts),
        located(f, buf, opts.body_cap as int),
    ensures
        ({
            let g = extract::with_payload(
                extract::with_frame(f, fr),
                fr.body(slice),
                fr,
                base + fr.offset + 8,
                opts,
            );
            &&& consistent(g, opts)
            &&& located(g, buf, opts.body_cap as int)
            &&& tallied(f) && f.stats.bytes_in_frames + fr.outer <= u64::MAX ==> tallied(g)
        }),
{
    reveal(extract::with_payload);
    let p = fr.body(slice);
    let at = base + fr.offset + 8;
    let cap = opts.body_cap as int;
    let f1 = extract::with_frame(f, fr);
    let g = extract::with_payload(f1, p, fr, at, opts);
    lemma_body_placed(fr, slice, buf, base);
    let counted = tallied(f) && f.stats.bytes_in_frames + fr.outer <= u64::MAX;
    assert(tallied(f) ==> tallied(f1));
    assert(located(f1, buf, cap));
    match classify::kind_of(p) {
        Kind::HttpRequest | Kind::HttpResponse => match http::message(p, at, cap) {
            Some(m) => {
                http::law_message_kinds(p, at, cap);
                if counted {
                    lemma_message_tallied(f1, m);
                }
                assert(g.http_messages.drop_last() =~= f.http_messages);
                assert(holds_message(buf, m, p.len() as int, cap));
                assert(message_lies(buf, m, cap));
                assert forall|i: int| 0 <= i < g.http_messages.len() implies message_lies(
                    buf,
                    #[trigger] g.http_messages[i],
                    cap,
                ) by {
                    if i < f.http_messages.len() {
                        assert(g.http_messages[i] == f.http_messages[i]);
                    }
                }
                assert forall|i: int| 0 <= i < g.state_blobs.len() implies holds_blob(
                    buf,
                    #[trigger] g.state_blobs[i],
                ) by {
                    assert(g.state_blobs[i] == f.state_blobs[i]);
                }
            },
            None => {},
        },
        Kind::StateBlob => {
            let b = g.state_blobs.last();
            if counted {
                lemma_blob_tallied(f1, g, b);
            }
            assert(holds_blob(buf, b));
            assert forall|i: int| 0 <= i < g.state_blobs.len() implies holds_blob(
                buf,
                #[trigger] g.state_blobs[i],
            ) by {
                if i < f.state_blobs.len() {
                    assert(g.state_blobs[i] == f.state_blobs[i]);
                }
            }
            assert(located(g, buf, cap));
        },
        _ => {
            if counted {
                lemma_same_tallied(f1, g);
            }
        },
    }
}

proof fn lemma_same_tallied(f: FindingsModel, g: FindingsModel)
    requires
        tallied(f),
        g.state_blobs == f.state_blobs,
        g.hosts == f.hosts,
        g.methods == f.methods,
        g.content_types == f.content_types,
        g.status_codes == f.status_codes,
        g.http_messages == f.http_messages,
    ensures
        tallied(g),
{
}

proof fn lemma_with_frames_sound(
    f: FindingsModel,
    slice: Seq<u8>,
    frames: Seq<Frame>,
    buf: Seq<u8>,
    base: int,
    opts: Options,
    depth: nat,
)
    requires
        placed(slice, buf, base),
        buf.len() <= usize::MAX,
        all_fit(frames, slice),
        depth <= 4,
        consistent(f, opts),
        located(f, buf, opts.body_cap as int),
    ensures
        ({
            let g = extract::with_frames(f, slice, frames, base, opts, depth);
            &&& consistent(g, opts)
            &&& located(g, buf, opts.body_cap as int)
            &&& tallied(f) && f.stats.bytes_in_frames + (5 - depth) * frame::total_outer(frames)
                <= u64::MAX ==> tallied(g)
        }),
    decreases 5 - depth, frames.len(),
{
    let d = 5 - depth;
    if frames.len() > 0 && !extract::sated(f, opts) {
        let fr = frames[0];
        let p = fr.body(slice);
        let at = base + fr.offset + 8;
        let rest = frames.skip(1);
        let f1 = extract::with_frame(f, fr);
        let g = extract::with_payload(f1, p, fr, at, opts);
        let nested = extract::nested(p, depth);
        assert(fr.fits(slice));
        let o = fr.outer as int;
        let r = frame::total_outer(rest) as int;
        let n = frame::total_outer(nested) as int;
        lemma_scan_fits(p, 8, extract::max_inner_at(depth));
        assert(0 <= (d - 1) * n <= (d - 1) * o) by (nonlinear_arith)
            requires
                d >= 1,
                0 <= n <= o,
        ;
        assert(d * (o + r) == o + (d - 1) * o + d * r) by (nonlinear_arith);
        assert(0 <= d * r) by (nonlinear_arith)
            requires
                d >= 1,
                0 <= r,
        ;
        assert(frame::total_outer(frames) == o + r);
        lemma_step(f, fr, slice, buf, base, opts);
        lemma_body_placed(fr, slice, buf, base);
        extract::lemma_payload_bytes(f1, p, fr, at, opts);
        let h = if classify::kind_of(p) == Kind::StateBlob && depth < 4 {
            extract::with_frames(g, p, nested, at, opts, depth + 1)
        } else {
            g
        };
        if classify::kind_of(p) == Kind::StateBlob && depth < 4 {
            lemma_with_frames_bytes(g, p, nested, at, opts, depth + 1);
            lemma_with_frames_sound(g, p, nested, buf, at, opts, depth + 1);
        }
        assert forall|i: int| 0 <= i < rest.len() implies (#[trigger] rest[i]).fits(slice)
            && rest[i].inner == rest[i].outer - 8 by {
            assert(rest[i] == frames[i + 1]);
        }
        lemma_with_frames_sound(h, slice, rest, buf, base, opts, depth);
    }
}

proof fn lemma_walked(file: Seq<char>, buf: Seq<u8>, opts: Options)
    requires
        buf.len() <= usize::MAX,
    ensures
        consistent(extract::walked(file, buf, opts), opts),
        5 * buf.len() <= u64::MAX ==> tallied(extract::walked(file, buf, opts)),
        located(extract::walked(file, buf, opts), buf, opts.body_cap as int),
        extract::walked(file, buf, opts).stats.bytes_in_frames <= 5 * buf.len(),
{
    let f = FindingsModel {
        file,
        size: buf.len() as int,
        header: crate::header::header_of(buf),
        ..extract::blank_findings()
    };
    let frames = frame::scan_of(buf, 1, 0x400_0000).frames();
    lemma_scan_fits(buf, 1, 0x400_0000);
    assert(buf =~= buf.subrange(0, buf.len() as int));
    lemma_with_frames_sound(f, buf, frames, buf, 0, opts, 0);
    lemma_with_frames_bytes(f, buf, frames, 0, opts, 0);
}

/// The statistics agree with the lists: as many requests and responses as
/// messages, as many blobs of each kind as entries; no frame is counted
/// twice over; and no more frames are counted than were wanted.
pub proof fn law_statistics(file: Seq<char>, buf: Seq<u8>, opts: Options)
    requires
        buf.len() <= usize::MAX,
    ensures
        consistent(extract::findings_of(file, buf, opts), opts),
{
    lemma_walked(file, buf, opts);
}

/// Each method, host, status and media type is counted as often as the
/// messages and the texts of state blobs name it.
pub proof fn law_counts(file: Seq<char>, buf: Seq<u8>, opts: Options)
    requires
        buf.len() <= usize::MAX,
        5 * buf.len() <= u64::MAX,
    ensures
        tallied(extract::findings_of(file, buf, opts)),
{
    lemma_walked(file, buf, opts);
    lemma_same_tallied(extract::walked(file, buf, opts), extract::findings_of(file, buf, opts));
}

/// Every message and every state blob lies in the file at the offset it
/// gives.
pub proof fn law_findings_lie_in_the_file(file: Seq<char>, buf: Seq<u8>, opts: Options)
    requires
        buf.len() <= usize::MAX,
    ensures
        located(extract::findings_of(file, buf, opts), buf, opts.body_cap as int),
{
    lemma_walked(file, buf, opts);
}

/// The index of state blobs has an entry for each, with its offset and size,
/// and its role is that of the bytes there.
pub proof fn law_state_blob_index(file: Seq<char>, buf: Seq<u8>, opts: Options, i: int)
    requires
        buf.len() <= usize::MAX,
        0 <= i < extract::findings_of(file, buf, opts).state_blobs.len(),
    ensures
        ({
            let f = extract::findings_of(file, buf, opts);
            let b = f.state_blobs[i];
            let p = buf.subrange(b.offset, b.offset + b.size);
            &&& f.state_blob_index.len() == f.state_blobs.len()
            &&& f.state_blob_index[i] == project::meta_of(
                project::Blob { offset: b.offset, size: b.size, payload: p },
            )
        }),
{
    lemma_walked(file, buf, opts);
    let f = extract::findings_of(file, buf, opts);
    assert(holds_blob(buf, f.state_blobs[i]));
}

/// Frames are counted at every depth they appear: the bytes in frames are at
/// most five times the file, and what they leave of it is the gaps.
pub proof fn law_bytes_in_frames(file: Seq<char>, buf: Seq<u8>, opts: Options)
    requires
        buf.len() <= usize::MAX,
    ensures
        ({
            let s = extract::findings_of(file, buf, opts).stats;
            &&& s.bytes_in_frames <= 5 * buf.len()
            &&& s.bytes_in_gaps <= buf.len()
            &&& s.bytes_in_frames + s.bytes_in_gaps >= buf.len()
            &&& s.bytes_in_gaps > 0 ==> s.bytes_in_frames + s.bytes_in_gaps == buf.len()
        }),
{
    lemma_walked(file, buf, opts);
}

proof fn lemma_messages(
    slice: Seq<u8>,
    frames: Seq<Frame>,
    buf: Seq<u8>,
    base: int,
    cap: int,
    depth: nat,
    k: int,
)
    requires
        placed(slice, buf, base),
        buf.len() <= usize::MAX,
        all_fit(frames, slice),
        0 <= k < extract::messages(slice, frames, base, cap, depth).len(),
    ensures
        message_lies(buf, extract::messages(slice, frames, base, cap, depth)[k], cap),
    decreases 5 - depth, frames.len(),
{
    let all = extract::messages(slice, frames, base, cap, depth);
    let fr = frames[0];
    let p = fr.body(slice);
    let at = base + fr.offset + 8;
    let rest = frames.skip(1);
    let later = extract::messages(slice, rest, base, cap, depth);
    assert(fr.fits(slice));
    lemma_body_placed(fr, slice, buf, base);
    let here = all.len() - later.len();
    if k >= here {
        assert forall|i: int| 0 <= i < rest.len() implies (#[trigger] rest[i]).fits(slice)
            && rest[i].inner == rest[i].outer - 8 by {
            assert(rest[i] == frames[i + 1]);
        }
        lemma_messages(slice, rest, buf, base, cap, depth, k - here);
        assert(all[k] == later[k - here]);
    } else {
        match classify::kind_of(p) {
            Kind::HttpRequest | Kind::HttpResponse => {
                http::law_message_kinds(p, at, cap);
                let m = http::message(p, at, cap)->0;
                assert(all[k] == m);
                assert(holds_message(buf, m, p.len() as int, cap));
            },
            _ => {
                lemma_scan_fits(p, 8, extract::max_inner_at(depth));
                lemma_messages(p, extract::nested(p, depth), buf, at, cap, depth + 1, k);
            },
        }
    }
}

/// Every message of a stream lies in the file at the offset it gives, and is a
/// request or a response.
pub proof fn law_messages_lie_in_the_file(buf: Seq<u8>, cap: int, k: int)
    requires
        buf.len() <= usize::MAX,
        0 <= k < extract::all_messages(buf, cap).len(),
    ensures
        message_lies(buf, extract::all_messages(buf, cap)[k], cap),
        extract::all_messages(buf, cap)[k].kind == "request"@ || extract::all_messages(
            buf,
            cap,
        )[k].kind == "response"@,
{
    let frames = frame::scan_of(buf, 8, 0x400_0000).frames();
    lemma_scan_fits(buf, 8, 0x400_0000);
    assert(buf =~= buf.subrange(0, buf.len() as int));
    lemma_messages(buf, frames, buf, 0, cap, 0, k);
    let m = extract::all_messages(buf, cap)[k];
    let len = choose|len: int| holds_message(buf, m, len, cap);
    http::law_message_kinds(buf.subrange(m.offset, m.offset + len), m.offset, cap);
}

/// No message is missed: the walk over frames gives the message of each frame
/// that is classified as one and parses, and whatever the walk over the frames
/// of a state blob gives, down to the fourth depth.
pub proof fn law_every_message_is_found(
    slice: Seq<u8>,
    frames: Seq<Frame>,
    base: int,
    cap: int,
    depth: nat,
    k: int,
)
    requires
        0 <= k < frames.len(),
        depth <= 4,
    ensures
        ({
            let found = extract::messages(slice, frames, base, cap, depth);
            let p = frames[k].body(slice);
            let at = base + frames[k].offset + 8;
            match classify::kind_of(p) {
                Kind::HttpRequest | Kind::HttpResponse => http::message(p, at, cap) matches Some(m)
                    ==> found.contains(m),
                Kind::StateBlob => depth < 4 ==> forall|m: HttpModel| #[trigger]
                    extract::messages(p, extract::nested(p, depth), at, cap, depth + 1).contains(m)
                        ==> found.contains(m),
                _ => true,
            }
        }),
    decreases frames.len(),
{
    let found = extract::messages(slice, frames, base, cap, depth);
    let rest = frames.skip(1);
    let later = extract::messages(slice, rest, base, cap, depth);
    let here = found.len() - later.len();
    assert forall|m: HttpModel| #[trigger] later.contains(m) implies found.contains(m) by {
        let i = choose|i: int| 0 <= i < later.len() && later[i] == m;
        assert(found[here + i] == m);
    }
    if k > 0 {
        law_every_message_is_found(slice, rest, base, cap, depth, k - 1);
        assert(rest[k - 1] == frames[k]);
    } else {
        let p = frames[0].body(slice);
        let at = base + frames[0].offset + 8;
        match classify::kind_of(p) {
            Kind::HttpRequest | Kind::HttpResponse => {
                if http::message(p, at, cap) is Some {
                    assert(found[0] == http::message(p, at, cap)->0);
                }
            },
            Kind::StateBlob => {
                if depth < 4 {
                    let inner = extract::messages(
                        p,
                        extract::nested(p, depth),
                        at,
                        cap,
                        depth + 1,
                    );
                    assert forall|m: HttpModel| #[trigger] inner.contains(m) implies found.contains(
                        m,
                    ) by {
                        let i = choose|i: int| 0 <= i < inner.len() && inner[i] == m;
                        assert(found[i] == m);
                    }
                }
            },
            _ => {},
        }
    }
}

proof fn lemma_kinds_part(v: Seq<HttpModel>)
    requires
        forall|i: int|
            0 <= i < v.len() ==> (#[trigger] v[i]).kind == "request"@ || v[i].kind == "response"@,
    ensures
        extract::of_kind(v, "request"@).len() + extract::of_kind(v, "response"@).len() == v.len(),
    decreases v.len(),
{
    reveal_strlit("request");
    reveal_strlit("response");
    assert("request"@.len() != "response"@.len());
    if v.len() > 0 {
        let init = v.drop_last();
        assert forall|i: int| 0 <= i < init.len() implies (#[trigger] init[i]).kind == "request"@
            || init[i].kind == "response"@ by {
            assert(init[i] == v[i]);
        }
        lemma_kinds_part(init);
        assert(v[v.len() - 1] == v.last());
    }
}

/// The messages of a kind are those in the list that have it.
proof fn lemma_of_kind(v: Seq<HttpModel>, kind: Seq<char>, m: HttpModel)
    ensures
        extract::of_kind(v, kind).contains(m) <==> v.contains(m) && m.kind == kind,
    decreases v.len(),
{
    if v.len() > 0 {
        let init = v.drop_last();
        let some = extract::of_kind(init, kind);
        lemma_of_kind(init, kind, m);
        if v.contains(m) {
            let k = choose|k: int| 0 <= k < v.len() && v[k] == m;
            if k < init.len() {
                assert(init[k] == m);
            }
        }
        if init.contains(m) {
            let k = choose|k: int| 0 <= k < init.len() && init[k] == m;
            assert(v[k] == m);
        }
        assert(v[v.len() - 1] == v.last());
        let more = some.push(v.last());
        assert(more[some.len() as int] == v.last());
        if some.contains(m) {
            let k = choose|k: int| 0 <= k < some.len() && some[k] == m;
            assert(more[k] == m);
        }
        if more.contains(m) {
            let k = choose|k: int| 0 <= k < more.len() && more[k] == m;
            if k < some.len() {
                assert(some[k] == m);
            }
        }
    }
}

/// Every message of a stream is among its requests or its responses, and none
/// among both; no message is lost and none is added.
pub proof fn law_requests_and_responses(buf: Seq<u8>, cap: int)
    requires
        buf.len() <= usize::MAX,
    ensures
        ({
            let all = extract::all_messages(buf, cap);
            let requests = extract::of_kind(all, "request"@);
            let responses = extract::of_kind(all, "response"@);
            &&& requests.len() + responses.len() == all.len()
            &&& forall|m: HttpModel| #[trigger]
                all.contains(m) <==> requests.contains(m) || responses.contains(m)
            &&& forall|m: HttpModel| !(#[trigger] requests.contains(m) && responses.contains(m))
        }),
{
    let all = extract::all_messages(buf, cap);
    let requests = extract::of_kind(all, "request"@);
    let responses = extract::of_kind(all, "response"@);
    reveal_strlit("request");
    reveal_strlit("response");
    assert("request"@.len() != "response"@.len());
    assert forall|i: int| 0 <= i < all.len() implies (#[trigger] all[i]).kind == "request"@
        || all[i].kind == "response"@ by {
        law_messages_lie_in_the_file(buf, cap, i);
    }
    lemma_kinds_part(all);
    assert forall|m: HttpModel| #[trigger]
        all.contains(m) <==> requests.contains(m) || responses.contains(m) by {
        lemma_of_kind(all, "request"@, m);
        lemma_of_kind(all, "response"@, m);
    }
    assert forall|m: HttpModel| !(#[trigger] requests.contains(m) && responses.contains(m)) by {
        lemma_of_kind(all, "request"@, m);
        lemma_of_kind(all, "response"@, m);
    }
}

/// What is true of a transaction of the request whose payload takes `len`
/// bytes: its request is there, and its response, where there is one, lies
/// in the file after the request.
pub open spec fn holds_transaction(
    buf: Seq<u8>,
    t: TransactionModel,
    len: int,
    cap: int,
) -> bool {
    let p = buf.subrange(t.offset, t.offset + len);
    &&& 0 <= t.offset
    &&& 0 <= len
    &&& t.offset + len <= buf.len()
    &&& classify::kind_of(p) == Kind::HttpRequest
    &&& t.request == http::message(p, t.offset, cap)
    &&& t.request matches Some(m) && m.kind == "request"@ && m.offset == t.offset
    &&& t.response matches Some(m) ==> m.kind == "response"@ && m.offset > t.offset && message_lies(
        buf,
        m,
        cap,
    )
}

pub open spec fn transaction_lies(buf: Seq<u8>, t: TransactionModel, cap: int) -> bool {
    exists|len: int| holds_transaction(buf, t, len, cap)
}

/// A reading of a cluster leaves the offset and the request as they were, and
/// a response from a later frame.
proof fn lemma_cluster_from(
    slice: Seq<u8>,
    frames: Seq<Frame>,
    buf: Seq<u8>,
    i: int,
    j: int,
    base: int,
    cap: int,
    t: TransactionModel,
)
    requires
        placed(slice, buf, base),
        all_fit(frames, slice),
        apart(frames),
        0 <= i < j,
        i < frames.len(),
        t.response matches Some(m) ==> m.kind == "response"@ && m.offset > base + frames[i].offset
            + 8 && message_lies(buf, m, cap),
    ensures
        ({
            let u = transaction::cluster_from(slice, frames, i, j, base, cap, t);
            &&& u.offset == t.offset
            &&& u.request == t.request
            &&& u.response matches Some(m) ==> m.kind == "response"@ && m.offset > base
                + frames[i].offset + 8 && message_lies(buf, m, cap)
        }),
    decreases i + 5 - j,
{
    if j < frames.len() && j <= i + 4 {
        let p = frames[j].body(slice);
        let at = base + frames[j].offset + 8;
        assert(frames[j].fits(slice));
        lemma_body_placed(frames[j], slice, buf, base);
        match classify::kind_of(p) {
            Kind::HttpRequest => {},
            Kind::HttpResponse => {
                let u = if t.response is None {
                    TransactionModel { response: http::message(p, at, cap), ..t }
                } else {
                    t
                };
                http::law_classified_response_parses(p, at, cap);
                http::law_message_kinds(p, at, cap);
                if http::message(p, at, cap) is Some {
                    let m = http::message(p, at, cap)->0;
                    assert(holds_message(buf, m, p.len() as int, cap));
                    assert(frames[i].fits(slice));
                    assert(frames[i].offset < frames[j].offset);
                }
                lemma_cluster_from(slice, frames, buf, i, j + 1, base, cap, u);
            },
            Kind::Utf8Text | Kind::Utf16Text => {},
            _ => {
                lemma_cluster_from(slice, frames, buf, i, j + 1, base, cap, t);
            },
        }
    }
}

proof fn lemma_cluster(
    slice: Seq<u8>,
    frames: Seq<Frame>,
    buf: Seq<u8>,
    i: int,
    base: int,
    cap: int,
)
    requires
        placed(slice, buf, base),
        all_fit(frames, slice),
        apart(frames),
        0 <= i < frames.len(),
        classify::kind_of(frames[i].body(slice)) == Kind::HttpRequest,
        http::message(frames[i].body(slice), base + frames[i].offset + 8, cap) is Some,
    ensures
        transaction_lies(buf, transaction::cluster(slice, frames, i, base, cap), cap),
        transaction::cluster(slice, frames, i, base, cap).offset == base + frames[i].offset + 8,
{
    let p = frames[i].body(slice);
    let at = base + frames[i].offset + 8;
    let t = TransactionModel {
        offset: at,
        request: http::message(p, at, cap),
        ..transaction::blank_transaction()
    };
    let t = transaction::with_ids(t, transaction::ids_back(slice, frames, i, 1));
    assert(frames[i].fits(slice));
    lemma_body_placed(frames[i], slice, buf, base);
    lemma_cluster_from(slice, frames, buf, i, i + 1, base, cap, t);
    http::law_classified_request_parses(p, at, cap);
    http::law_message_kinds(p, at, cap);
    let u = transaction::cluster(slice, frames, i, base, cap);
    assert(holds_transaction(buf, u, p.len() as int, cap));
}

proof fn lemma_transactions(
    slice: Seq<u8>,
    frames: Seq<Frame>,
    buf: Seq<u8>,
    i: int,
    base: int,
    cap: int,
    depth: nat,
    k: int,
)
    requires
        placed(slice, buf, base),
        buf.len() <= usize::MAX,
        all_fit(frames, slice),
        apart(frames),
        0 <= k < transaction::transactions(slice, frames, i, base, cap, depth).len(),
    ensures
        transaction_lies(
            buf,
            transaction::transactions(slice, frames, i, base, cap, depth)[k],
            cap,
        ),
    decreases 5 - depth, frames.len() - i,
{
    let all = transaction::transactions(slice, frames, i, base, cap, depth);
    let later = transaction::transactions(slice, frames, i + 1, base, cap, depth);
    let here = all.len() - later.len();
    let p = frames[i].body(slice);
    let at = base + frames[i].offset + 8;
    assert(frames[i].fits(slice));
    lemma_body_placed(frames[i], slice, buf, base);
    if k >= here {
        lemma_transactions(slice, frames, buf, i + 1, base, cap, depth, k - here);
        assert(all[k] == later[k - here]);
    } else if classify::kind_of(p) == Kind::HttpRequest {
        lemma_cluster(slice, frames, buf, i, base, cap);
        assert(all[k] == transaction::cluster(slice, frames, i, base, cap));
    } else {
        let nested = extract::nested(p, depth);
        lemma_scan_fits(p, 8, extract::max_inner_at(depth));
        lemma_scan_apart(p, 8, extract::max_inner_at(depth));
        lemma_transactions(p, nested, buf, 0, at, cap, depth + 1, k);
        assert(all[k] == transaction::transactions(p, nested, 0, at, cap, depth + 1)[k]);
    }
}

/// Every transaction has a request: that of a payload classified as one, at
/// the transaction's offset. Its response, where there is one, is a response
/// that comes later in the file.
pub proof fn law_transactions_have_requests(buf: Seq<u8>, cap: int, k: int)
    requires
        buf.len() <= usize::MAX,
        0 <= k < transaction::all_transactions(buf, cap).len(),
    ensures
        transaction_lies(buf, transaction::all_transactions(buf, cap)[k], cap),
{
    let frames = frame::scan_of(buf, 1, 0x400_0000).frames();
    lemma_scan_fits(buf, 1, 0x400_0000);
    lemma_scan_apart(buf, 1, 0x400_0000);
    assert(buf =~= buf.subrange(0, buf.len() as int));
    lemma_transactions(buf, frames, buf, 0, 0, cap, 0, k);
}

/// Where the requests lie that the frames from `i` on carry, those within
/// state blobs included down to the fourth depth: the payloads that are
/// classified as requests and parse.
pub open spec fn requests_in(
    slice: Seq<u8>,
    frames: Seq<Frame>,
    i: int,
    base: int,
    cap: int,
    depth: nat,
) -> Seq<int>
    decreases 5 - depth, frames.len() - i,
{
    if i < 0 || i >= frames.len() || depth > 4 {
        Seq::empty()
    } else {
        let p = frames[i].body(slice);
        let at = base + frames[i].offset + 8;
        let here = match classify::kind_of(p) {
            Kind::HttpRequest => if http::message(p, at, cap) is Some {
                seq![at]
            } else {
                Seq::empty()
            },
            Kind::StateBlob => requests_in(p, extract::nested(p, depth), 0, at, cap, depth + 1),
            _ => Seq::empty(),
        };
        here + requests_in(slice, frames, i + 1, base, cap, depth)
    }
}

/// Where the requests of a file lie.
pub open spec fn all_requests(buf: Seq<u8>, cap: int) -> Seq<int> {
    requests_in(buf, frame::scan_of(buf, 1, 0x400_0000).frames(), 0, 0, cap, 0)
}

/// The offsets of transactions.
pub open spec fn transaction_offsets(v: Seq<TransactionModel>) -> Seq<int> {
    v.map_values(|t: TransactionModel| t.offset)
}

/// The offsets of messages.
pub open spec fn message_offsets(v: Seq<HttpModel>) -> Seq<int> {
    v.map_values(|m: HttpModel| m.offset)
}

proof fn lemma_cluster_offset(
    slice: Seq<u8>,
    frames: Seq<Frame>,
    i: int,
    j: int,
    base: int,
    cap: int,
    t: TransactionModel,
)
    ensures
        transaction::cluster_from(slice, frames, i, j, base, cap, t).offset == t.offset,
    decreases i + 5 - j,
{
    if j < frames.len() && j <= i + 4 {
        let u = TransactionModel {
            response: http::message(frames[j].body(slice), base + frames[j].offset + 8, cap),
            ..t
        };
        lemma_cluster_offset(slice, frames, i, j + 1, base, cap, t);
        lemma_cluster_offset(slice, frames, i, j + 1, base, cap, u);
    }
}

proof fn lemma_transaction_offsets(
    slice: Seq<u8>,
    frames: Seq<Frame>,
    i: int,
    base: int,
    cap: int,
    depth: nat,
)
    ensures
        transaction_offsets(transaction::transactions(slice, frames, i, base, cap, depth))
            == requests_in(slice, frames, i, base, cap, depth),
    decreases 5 - depth, frames.len() - i,
{
    let all = transaction::transactions(slice, frames, i, base, cap, depth);
    if 0 <= i < frames.len() && depth <= 4 {
        let p = frames[i].body(slice);
        let at = base + frames[i].offset + 8;
        let nested = extract::nested(p, depth);
        let later = transaction::transactions(slice, frames, i + 1, base, cap, depth);
        let here = all.take(all.len() - later.len());
        lemma_transaction_offsets(slice, frames, i + 1, base, cap, depth);
        assert(all =~= here + later);
        assert(transaction_offsets(all) =~= transaction_offsets(here) + transaction_offsets(later));
        match classify::kind_of(p) {
            Kind::HttpRequest => {
                let t = TransactionModel {
                    offset: at,
                    request: http::message(p, at, cap),
                    ..transaction::blank_transaction()
                };
                let t = transaction::with_ids(t, transaction::ids_back(slice, frames, i, 1));
                lemma_cluster_offset(slice, frames, i, i + 1, base, cap, t);
                if http::message(p, at, cap) is Some {
                    assert(transaction_offsets(here) =~= seq![at]);
                } else {
                    assert(transaction_offsets(here) =~= Seq::<int>::empty());
                }
            },
            Kind::StateBlob => {
                let inner = transaction::transactions(p, nested, 0, at, cap, depth + 1);
                lemma_transaction_offsets(p, nested, 0, at, cap, depth + 1);
                assert(here =~= inner);
            },
            _ => {
                assert(transaction_offsets(here) =~= Seq::<int>::empty());
            },
        }
    } else {
        assert(transaction_offsets(all) =~= Seq::<int>::empty());
    }
}

/// The walk gives exactly one transaction per request in the file, at every
/// depth and in the order in which the requests stand.
pub proof fn law_one_transaction_per_request(buf: Seq<u8>, cap: int)
    ensures
        transaction_offsets(transaction::all_transactions(buf, cap)) == all_requests(buf, cap),
        transaction::all_transactions(buf, cap).len() == all_requests(buf, cap).len(),
{
    let frames = frame::scan_of(buf, 1, 0x400_0000).frames();
    lemma_transaction_offsets(buf, frames, 0, 0, cap, 0);
    assert(transaction_offsets(transaction::all_transactions(buf, cap)).len()
        == transaction::all_transactions(buf, cap).len());
}

/// Numbers that strictly increase, from `lo` up to but not including `hi`.
pub open spec fn rising(v: Seq<int>, lo: int, hi: int) -> bool {
    &&& forall|i: int| 0 <= i < v.len() ==> lo <= #[trigger] v[i] < hi
    &&& forall|i: int, j: int| 0 <= i < j < v.len() ==> #[trigger] v[i] < #[trigger] v[j]
}

proof fn lemma_rising_parts(a: Seq<int>, b: Seq<int>, lo: int, mid: int, hi: int)
    requires
        rising(a, lo, mid),
        rising(b, mid, hi),
        lo <= mid <= hi,
    ensures
        rising(a + b, lo, hi),
{
    let v = a + b;
    assert forall|i: int| 0 <= i < v.len() implies lo <= #[trigger] v[i] < hi by {
        if i >= a.len() {
            assert(v[i] == b[i - a.len()]);
        }
    }
    assert forall|i: int, j: int| 0 <= i < j < v.len() implies #[trigger] v[i]
        < #[trigger] v[j] by {
        if i >= a.len() {
            assert(v[i] == b[i - a.len()]);
        }
        if j >= a.len() {
            assert(v[j] == b[j - a.len()]);
        }
    }
}

proof fn lemma_requests_rise(
    slice: Seq<u8>,
    frames: Seq<Frame>,
    i: int,
    base: int,
    cap: int,
    depth: nat,
    from: int,
)
    requires
        slice.len() <= usize::MAX,
        all_fit(frames, slice),
        apart(frames),
        0 <= i <= frames.len(),
        from <= slice.len(),
        i < frames.len() ==> from <= frames[i].offset,
    ensures
        rising(requests_in(slice, frames, i, base, cap, depth), base + from, base + slice.len()),
    decreases 5 - depth, frames.len() - i,
{
    if i < frames.len() && depth <= 4 {
        let fr = frames[i];
        let p = fr.body(slice);
        let at = base + fr.offset + 8;
        let nested = extract::nested(p, depth);
        let end = fr.offset + fr.outer;
        assert(fr.fits(slice));
        if i + 1 < frames.len() {
            assert(frames[i + 1].offset >= end);
        }
        lemma_requests_rise(slice, frames, i + 1, base, cap, depth, end);
        let later = requests_in(slice, frames, i + 1, base, cap, depth);
        match classify::kind_of(p) {
            Kind::HttpRequest => {
                reveal(classify::kind_of);
                if http::message(p, at, cap) is Some {
                    lemma_rising_parts(seq![at], later, base + from, base + end, base
                        + slice.len());
                } else {
                    lemma_rising_parts(Seq::empty(), later, base + from, base + end, base
                        + slice.len());
                }
            },
            Kind::StateBlob => {
                lemma_scan_fits(p, 8, extract::max_inner_at(depth));
                lemma_scan_apart(p, 8, extract::max_inner_at(depth));
                lemma_requests_rise(p, nested, 0, at, cap, depth + 1, 0);
                let inner = requests_in(p, nested, 0, at, cap, depth + 1);
                assert(at + p.len() == base + end);
                lemma_rising_parts(inner, later, base + from, base + end, base + slice.len());
            },
            _ => {
                lemma_rising_parts(Seq::empty(), later, base + from, base + end, base
                    + slice.len());
            },
        }
    }
}

/// Transactions come in the order of the file: their offsets strictly
/// increase.
pub proof fn law_transactions_in_order(buf: Seq<u8>, cap: int)
    requires
        buf.len() <= usize::MAX,
    ensures
        rising(
            transaction_offsets(transaction::all_transactions(buf, cap)),
            0,
            buf.len() as int,
        ),
{
    let frames = frame::scan_of(buf, 1, 0x400_0000).frames();
    lemma_scan_fits(buf, 1, 0x400_0000);
    lemma_scan_apart(buf, 1, 0x400_0000);
    law_one_transaction_per_request(buf, cap);
    lemma_requests_rise(buf, frames, 0, 0, cap, 0, 0);
}

proof fn lemma_messages_rise(
    slice: Seq<u8>,
    frames: Seq<Frame>,
    base: int,
    cap: int,
    depth: nat,
    from: int,
)
    requires
        slice.len() <= usize::MAX,
        all_fit(frames, slice),
        apart(frames),
        from <= slice.len(),
        frames.len() > 0 ==> from <= frames[0].offset,
    ensures
        rising(
            message_offsets(extract::messages(slice, frames, base, cap, depth)),
            base + from,
            base + slice.len(),
        ),
    decreases 5 - depth, frames.len(),
{
    let all = extract::messages(slice, frames, base, cap, depth);
    if frames.len() > 0 && depth <= 4 {
        let fr = frames[0];
        let p = fr.body(slice);
        let at = base + fr.offset + 8;
        let nested = extract::nested(p, depth);
        let end = fr.offset + fr.outer;
        let rest = frames.skip(1);
        assert(fr.fits(slice));
        assert forall|i: int| 0 <= i < rest.len() implies (#[trigger] rest[i]).fits(slice)
            && rest[i].inner == rest[i].outer - 8 by {
            assert(rest[i] == frames[i + 1]);
        }
        assert forall|i: int, j: int| 0 <= i < j < rest.len() implies (#[trigger] rest[i]).offset
            + rest[i].outer <= (#[trigger] rest[j]).offset by {
            assert(rest[i] == frames[i + 1] && rest[j] == frames[j + 1]);
        }
        if rest.len() > 0 {
            assert(rest[0] == frames[1]);
        }
        lemma_messages_rise(slice, rest, base, cap, depth, end);
        let later = extract::messages(slice, rest, base, cap, depth);
        let here = all.take(all.len() - later.len());
        assert(all =~= here + later);
        assert(message_offsets(all) =~= message_offsets(here) + message_offsets(later));
        assert(rising(message_offsets(here), base + from, base + end)) by {
            match classify::kind_of(p) {
                Kind::HttpRequest | Kind::HttpResponse => {
                    reveal(classify::kind_of);
                    http::law_message_kinds(p, at, cap);
                    if http::message(p, at, cap) is Some {
                        assert(message_offsets(here) =~= seq![at]);
                    } else {
                        assert(message_offsets(here) =~= Seq::<int>::empty());
                    }
                },
                Kind::StateBlob => {
                    if depth < 4 {
                        lemma_scan_fits(p, 8, extract::max_inner_at(depth));
                        lemma_scan_apart(p, 8, extract::max_inner_at(depth));
                        lemma_messages_rise(p, nested, at, cap, depth + 1, 0);
                        assert(here =~= extract::messages(p, nested, at, cap, depth + 1));
                        assert(at + p.len() == base + end);
                    } else {
                        assert(message_offsets(here) =~= Seq::<int>::empty());
                    }
                },
                _ => {
                    assert(message_offsets(here) =~= Seq::<int>::empty());
                },
            }
        }
        lemma_rising_parts(
            message_offsets(here),
            message_offsets(later),
            base + from,
            base + end,
            base + slice.len(),
        );
    } else {
        assert(message_offsets(all) =~= Seq::<int>::empty());
    }
}

/// Messages come in the order of the file: their offsets strictly increase.
pub proof fn law_messages_in_order(buf: Seq<u8>, cap: int)
    requires
        buf.len() <= usize::MAX,
    ensures
        rising(message_offsets(extract::all_messages(buf, cap)), 0, buf.len() as int),
{
    lemma_scan_fits(buf, 8, 0x400_0000);
    lemma_scan_apart(buf, 8, 0x400_0000);
    lemma_messages_rise(buf, frame::scan_of(buf, 8, 0x400_0000).frames(), 0, cap, 0, 0);
}

proof fn lemma_requests_counted(
    f: FindingsModel,
    slice: Seq<u8>,
    frames: Seq<Frame>,
    i: int,
    base: int,
    opts: Options,
    depth: nat,
)
    requires
        opts.max_frames is None,
        0 <= i <= frames.len(),
    ensures
        extract::with_frames(f, slice, frames.skip(i), base, opts, depth).stats.requests
            == f.stats.requests + requests_in(
            slice,
            frames,
            i,
            base,
            opts.body_cap as int,
            depth,
        ).len(),
    decreases 5 - depth, frames.len() - i,
{
    if i < frames.len() && depth <= 4 {
        let cap = opts.body_cap as int;
        let rest = frames.skip(i);
        let fr = frames[i];
        let p = fr.body(slice);
        let at = base + fr.offset + 8;
        let f1 = extract::with_frame(f, fr);
        let g = extract::with_payload(f1, p, fr, at, opts);
        let nested = extract::nested(p, depth);
        let h = if classify::kind_of(p) == Kind::StateBlob && depth < 4 {
            extract::with_frames(g, p, nested, at, opts, depth + 1)
        } else {
            g
        };
        assert(rest[0] == fr);
        assert(rest.skip(1) =~= frames.skip(i + 1));
        assert(nested.skip(0) =~= nested);
        reveal(extract::with_payload);
        reveal_strlit("request");
        reveal_strlit("response");
        assert("request"@.len() != "response"@.len());
        match classify::kind_of(p) {
            Kind::HttpRequest => {
                http::law_classified_request_parses(p, at, cap);
            },
            Kind::HttpResponse => {
                http::law_classified_response_parses(p, at, cap);
            },
            Kind::StateBlob => {
                lemma_requests_counted(g, p, nested, 0, at, opts, depth + 1);
            },
            _ => {},
        }
        lemma_requests_counted(h, slice, frames, i + 1, base, opts, depth);
        assert(extract::with_frames(f, slice, rest, base, opts, depth) == extract::with_frames(
            h,
            slice,
            rest.skip(1),
            base,
            opts,
            depth,
        ));
        let all = requests_in(slice, frames, i, base, cap, depth);
        let later = requests_in(slice, frames, i + 1, base, cap, depth);
        assert(all.len() - later.len() == h.stats.requests - f.stats.requests);
    }
}

/// There are as many transactions as the statistics of an extraction over all
/// frames count requests.
pub proof fn law_transactions_match_request_count(file: Seq<char>, buf: Seq<u8>, opts: Options)
    requires
        opts.max_frames is None,
    ensures
        transaction::all_transactions(buf, opts.body_cap as int).len() == extract::findings_of(
            file,
            buf,
            opts,
        ).stats.requests,
{
    let f = FindingsModel {
        file,
        size: buf.len() as int,
        header: crate::header::header_of(buf),
        ..extract::blank_findings()
    };
    let frames = frame::scan_of(buf, 1, 0x400_0000).frames();
    assert(frames.skip(0) =~= frames);
    lemma_requests_counted(f, buf, frames, 0, 0, opts, 0);
    law_one_transaction_per_request(buf, opts.body_cap as int);
}

/// Findings that agree on everything but the two lists that options may leave
/// empty.
pub open spec fn alike(f: FindingsModel, g: FindingsModel) -> bool {
    g == FindingsModel { unknown_frames: g.unknown_frames, other_text: g.other_text, ..f }
}

proof fn lemma_alike(
    f: FindingsModel,
    g: FindingsModel,
    slice: Seq<u8>,
    frames: Seq<Frame>,
    base: int,
    a: Options,
    b: Options,
    depth: nat,
)
    requires
        alike(f, g),
        a.body_cap == b.body_cap,
        a.max_frames == b.max_frames,
    ensures
        alike(
            extract::with_frames(f, slice, frames, base, a, depth),
            extract::with_frames(g, slice, frames, base, b, depth),
        ),
    decreases 5 - depth, frames.len(),
{
    if frames.len() > 0 && !extract::sated(f, a) && depth <= 4 {
        let fr = frames[0];
        let p = fr.body(slice);
        let at = base + fr.offset + 8;
        let nested = extract::nested(p, depth);
        let f1 = extract::with_payload(extract::with_frame(f, fr), p, fr, at, a);
        let g1 = extract::with_payload(extract::with_frame(g, fr), p, fr, at, b);
        assert(alike(f1, g1)) by {
            reveal(extract::with_payload);
        }
        if classify::kind_of(p) == Kind::StateBlob && depth < 4 {
            lemma_alike(f1, g1, p, nested, at, a, b, depth + 1);
            lemma_alike(
                extract::with_frames(f1, p, nested, at, a, depth + 1),
                extract::with_frames(g1, p, nested, at, b, depth + 1),
                slice,
                frames.skip(1),
                base,
                a,
                b,
                depth,
            );
        } else {
            lemma_alike(f1, g1, slice, frames.skip(1), base, a, b, depth);
        }
    }
}

proof fn lemma_kept(
    f: FindingsModel,
    slice: Seq<u8>,
    frames: Seq<Frame>,
    base: int,
    opts: Options,
    depth: nat,
)
    requires
        kept(f, opts),
    ensures
        kept(extract::with_frames(f, slice, frames, base, opts, depth), opts),
    decreases 5 - depth, frames.len(),
{
    if frames.len() > 0 && !extract::sated(f, opts) && depth <= 4 {
        let fr = frames[0];
        let p = fr.body(slice);
        let at = base + fr.offset + 8;
        let nested = extract::nested(p, depth);
        let g = extract::with_payload(extract::with_frame(f, fr), p, fr, at, opts);
        assert(kept(g, opts)) by {
            reveal(extract::with_payload);
        }
        if classify::kind_of(p) == Kind::StateBlob && depth < 4 {
            let h = extract::with_frames(g, p, nested, at, opts, depth + 1);
            lemma_kept(g, p, nested, at, opts, depth + 1);
            lemma_kept(h, slice, frames.skip(1), base, opts, depth);
        } else {
            lemma_kept(g, slice, frames.skip(1), base, opts, depth);
        }
    }
}

/// What the options ask for is kept and no more; and whether unknown frames
/// and other texts are kept changes nothing but their two lists.
pub proof fn law_options(file: Seq<char>, buf: Seq<u8>, a: Options, b: Options)
    requires
        a.body_cap == b.body_cap,
        a.max_frames == b.max_frames,
    ensures
        kept(extract::findings_of(file, buf, a), a),
        kept(extract::findings_of(file, buf, b), b),
        alike(extract::findings_of(file, buf, a), extract::findings_of(file, buf, b)),
{
    let f = FindingsModel {
        file,
        size: buf.len() as int,
        header: crate::header::header_of(buf),
        ..extract::blank_findings()
    };
    let frames = frame::scan_of(buf, 1, 0x400_0000).frames();
    lemma_kept(f, buf, frames, 0, a, 0);
    lemma_kept(f, buf, frames, 0, b, 0);
    lemma_alike(f, f, buf, frames, 0, a, b, 0);
}

/// An exchange that lies in the file in full, as two 4-byte frames, a request,
/// a response and a text, becomes one transaction: the ids in the order they
/// stand, the request, the response and the path of the text.
pub proof fn law_full_cluster(slice: Seq<u8>, frames: Seq<Frame>, i: int, base: int, cap: int)
    requires
        2 <= i,
        i + 2 < frames.len(),
        frames[i - 2].body(slice).len() == 4,
        frames[i - 1].body(slice).len() == 4,
        classify::kind_of(frames[i + 1].body(slice)) == Kind::HttpResponse,
        classify::kind_of(frames[i + 2].body(slice)) == Kind::Utf8Text || classify::kind_of(
            frames[i + 2].body(slice),
        ) == Kind::Utf16Text,
    ensures
        transaction::cluster(slice, frames, i, base, cap) == (TransactionModel {
            offset: base + frames[i].offset + 8,
            transaction_id: Some(num::big_endian(frames[i - 2].body(slice))),
            secondary_id: Some(num::big_endian(frames[i - 1].body(slice))),
            sitemap_path: transaction::path_in(frames[i + 2].body(slice)),
            request: http::message(frames[i].body(slice), base + frames[i].offset + 8, cap),
            response: http::message(
                frames[i + 1].body(slice),
                base + frames[i + 1].offset + 8,
                cap,
            ),
        }),
{
    reveal_with_fuel(transaction::ids_back, 3);
    reveal_with_fuel(transaction::cluster_from, 3);
    let ids = transaction::ids_back(slice, frames, i, 1);
    assert(ids[0] == num::big_endian(frames[i - 1].body(slice)));
    assert(ids[1] == num::big_endian(frames[i - 2].body(slice)));
}

/// The web address of a transaction starts with its scheme and its host, and
/// is there exactly where the request is and names a host.
pub proof fn law_request_url(t: TransactionModel)
    ensures
        transaction::request_url_of(t) is Some <==> (t.request matches Some(m) && m.host is Some),
        transaction::request_url_of(t) matches Some(url) ==> strs::prefixed(
            url,
            "https://"@ + t.request->0.host->0,
        ),
{
    match transaction::request_url_of(t) {
        Some(url) => {
            let start = "https://"@ + t.request->0.host->0;
            assert(url.subrange(0, start.len() as int) =~= start);
        },
        None => {},
    }
}

/// The parameters of a query, written out, start with the first.
proof fn lemma_query_front(q: Seq<(Seq<char>, Seq<char>)>)
    requires
        q.len() >= 2,
    ensures
        transaction::query_text(q) == q[0].0 + "="@ + q[0].1 + "&"@ + transaction::query_text(
            q.skip(1),
        ),
    decreases q.len(),
{
    let init = q.drop_last();
    let tail = q.skip(1);
    let first = q[0].0 + "="@ + q[0].1;
    let last = q.last().0 + "="@ + q.last().1;
    assert(tail.last() == q.last());
    assert(tail.drop_last() =~= init.skip(1));
    if q.len() == 2 {
        assert(init.last() == q[0]);
        assert(transaction::query_text(init) == first);
        assert(transaction::query_text(tail) == last);
        assert(first + "&"@ + last =~= first + "&"@ + transaction::query_text(tail));
    } else {
        lemma_query_front(init);
        let mid = transaction::query_text(init.skip(1));
        assert(transaction::query_text(tail) == mid + "&"@ + last);
        assert(first + "&"@ + mid + "&"@ + last =~= first + "&"@ + (mid + "&"@ + last));
    }
}

/// Parameters that are written with an equals sign are written back as they
/// stood.
proof fn lemma_query_joins(parts: Seq<Seq<char>>)
    requires
        parts.len() > 0,
        forall|i: int| 0 <= i < parts.len() ==> (#[trigger] parts[i]).contains('='),
    ensures
        transaction::query_text(parts.map_values(|kv: Seq<char>| http::parameter(kv)))
            == strs::joined(parts, seq!['&']),
    decreases parts.len(),
{
    let q = parts.map_values(|kv: Seq<char>| http::parameter(kv));
    let kv = parts[0];
    reveal_strlit("=");
    reveal_strlit("&");
    strs::lemma_index_of(kv, '=');
    let i = strs::index_of(kv, '=')->0;
    assert(kv.take(i) + "="@ + kv.skip(i + 1) =~= kv);
    assert(q[0].0 + "="@ + q[0].1 == kv);
    if parts.len() == 1 {
        assert(q.last() == q[0]);
    } else {
        let tail = parts.skip(1);
        assert forall|j: int| 0 <= j < tail.len() implies (#[trigger] tail[j]).contains('=') by {
            assert(tail[j] == parts[j + 1]);
        }
        lemma_query_joins(tail);
        lemma_query_front(q);
        assert(q.skip(1) =~= tail.map_values(|kv: Seq<char>| http::parameter(kv)));
        assert("&"@ =~= seq!['&']);
    }
}

/// A target in a request: ASCII, without a space or a line break.
pub open spec fn plain_target(s: Seq<char>) -> bool {
    forall|i: int|
        0 <= i < s.len() ==> #[trigger] s[i] <= '\u{7f}' && s[i] != ' ' && s[i] != '\r' && s[i]
            != '\n'
}

/// A host in a request: ASCII, without white space.
pub open spec fn plain_host(s: Seq<char>) -> bool {
    forall|i: int| 0 <= i < s.len() ==> #[trigger] s[i] <= '\u{7f}' && !chars::white(s[i])
}

/// Every parameter of the query, where a target has one, is written with an
/// equals sign.
pub open spec fn full_query(target: Seq<char>) -> bool {
    strs::cut(target, '?') matches Some((_, q)) ==> forall|i: int|
        0 <= i < strs::fields(q, '&').len() ==> (#[trigger] strs::fields(q, '&')[i]).contains('=')
}

/// The first line of a request for a target.
pub open spec fn get_line(target: Seq<char>) -> Seq<char> {
    "GET "@ + target + " HTTP/1.1"@
}

/// The head of a request for a target on a host.
pub open spec fn get_head(target: Seq<char>, host: Seq<char>) -> Seq<char> {
    get_line(target) + "\r\n"@ + ("Host: "@ + host)
}

/// A request for a target on a host.
pub open spec fn get_request(target: Seq<char>, host: Seq<char>) -> Seq<u8> {
    bytes::utf8(get_head(target, host) + "\r\n\r\n"@)
}

proof fn lemma_get_literals()
    ensures
        "GET "@ == seq!['G', 'E', 'T', ' '],
        " HTTP/1.1"@ == seq![' ', 'H', 'T', 'T', 'P', '/', '1', '.', '1'],
        "HTTP/1.1"@ == seq!['H', 'T', 'T', 'P', '/', '1', '.', '1'],
        "HTTP/"@ == seq!['H', 'T', 'T', 'P', '/'],
        "Host: "@ == seq!['H', 'o', 's', 't', ':', ' '],
        "host"@ == seq!['h', 'o', 's', 't'],
        "\r\n"@ == seq!['\r', '\n'],
        "\r\n\r\n"@ == seq!['\r', '\n', '\r', '\n'],
{
    reveal_strlit("GET ");
    reveal_strlit(" HTTP/1.1");
    reveal_strlit("HTTP/1.1");
    reveal_strlit("HTTP/");
    reveal_strlit("Host: ");
    reveal_strlit("host");
    reveal_strlit("\r\n");
    reveal_strlit("\r\n\r\n");
    assert("GET "@ =~= seq!['G', 'E', 'T', ' ']);
    assert(" HTTP/1.1"@ =~= seq![' ', 'H', 'T', 'T', 'P', '/', '1', '.', '1']);
    assert("HTTP/1.1"@ =~= seq!['H', 'T', 'T', 'P', '/', '1', '.', '1']);
    assert("HTTP/"@ =~= seq!['H', 'T', 'T', 'P', '/']);
    assert("Host: "@ =~= seq!['H', 'o', 's', 't', ':', ' ']);
    assert("host"@ =~= seq!['h', 'o', 's', 't']);
    assert("\r\n"@ =~= seq!['\r', '\n']);
    assert("\r\n\r\n"@ =~= seq!['\r', '\n', '\r', '\n']);
}

proof fn lemma_least_char(c: char)
    ensures
        '\0' <= c,
{
}

/// The head of a request ends where it was made to, and reads as it was
/// written.
proof fn lemma_get_head(target: Seq<char>, host: Seq<char>)
    requires
        plain_target(target),
        plain_host(host),
    ensures
        ({
            let head = get_head(target, host);
            let b = get_request(target, host);
            &&& b.len() == head.len() + 4
            &&& http::head_end(b) == Some(head.len() as int)
            &&& http::body_start(b) == b.len()
            &&& http::head_text(b.take(head.len() as int)) == head
        }),
{
    lemma_get_literals();
    let head = get_head(target, host);
    let all = head + "\r\n\r\n"@;
    let b = get_request(target, host);
    let k = get_line(target).len() as int;
    let n = head.len() as int;
    assert forall|i: int| 0 <= i < all.len() implies '\0' <= #[trigger] all[i]
        <= '\u{7f}' by {
        if 4 <= i < 4 + target.len() {
            assert(all[i] == target[i - 4]);
        } else if k + 8 <= i < n {
            assert(all[i] == host[i - k - 8]);
        }
        lemma_least_char(all[i]);
    }
    assert forall|i: int| 0 <= i < n && i != k implies #[trigger] all[i] != '\r' by {
        if 4 <= i < 4 + target.len() {
            assert(all[i] == target[i - 4]);
        } else if k + 8 <= i < n {
            assert(all[i] == host[i - k - 8]);
        }
    }
    assert(vstd::utf8::is_ascii_chars(all));
    vstd::utf8::is_ascii_chars_encode_utf8(all);
    assert(vstd::utf8::is_ascii_chars(head)) by {
        assert forall|i: int| 0 <= i < head.len() implies '\0' <= #[trigger] head[i] <= '\u{7f}' by {
            assert(all[i] == head[i]);
        }
    }
    vstd::utf8::is_ascii_chars_encode_utf8(head);
    vstd::utf8::encode_utf8_valid_utf8(head);
    vstd::utf8::encode_utf8_decode_utf8(head);
    let brk = http::crlf_crlf();
    assert(b.subrange(n, n + 4) =~= brk) by {
        assert(all[n] as u8 == b[n] && all[n + 1] as u8 == b[n + 1] && all[n + 2] as u8 == b[n + 2]
            && all[n + 3] as u8 == b[n + 3]);
    }
    assert forall|j: int| 0 <= j < n implies !strs::occurs_at(b, brk, j) by {
        if strs::occurs_at(b, brk, j) {
            assert(b.subrange(j, j + 4)[0] == 13 && b.subrange(j, j + 4)[2] == 13);
            assert(all[j] as u8 == b[j] && all[j + 2] as u8 == b[j + 2]);
            assert(j == k);
            assert(all[k + 2] == 'H');
        }
    }
    strs::lemma_first_at(b, brk, n);
    assert(b.take(n) =~= bytes::utf8(head)) by {
        assert forall|i: int| 0 <= i < n implies b[i] == bytes::utf8(head)[i] by {
            assert(all[i] == head[i]);
            assert(all[i] as u8 == b[i] && head[i] as u8 == bytes::utf8(head)[i]);
        }
    }
}

/// The head of a request has two lines.
proof fn lemma_get_lines(target: Seq<char>, host: Seq<char>)
    requires
        plain_target(target),
        plain_host(host),
    ensures
        http::head_lines(get_head(target, host)) == seq![get_line(target), "Host: "@ + host],
{
    lemma_get_literals();
    let head = get_head(target, host);
    let line = get_line(target);
    let field = "Host: "@ + host;
    let k = line.len() as int;
    let brk = "\r\n"@;
    assert(head.subrange(k, k + 2) =~= brk);
    assert(strs::occurs_at(head, brk, k));
    assert forall|j: int| 0 <= j < k implies !strs::occurs_at(head, brk, j) by {
        if strs::occurs_at(head, brk, j) {
            assert(head.subrange(j, j + 2)[0] == '\r');
            assert(head[j] == '\r');
            if 4 <= j < 4 + target.len() {
                assert(head[j] == target[j - 4]);
            }
        }
    }
    strs::lemma_first_at(head, brk, k);
    assert(head.take(k) =~= line);
    assert(head.skip(k + 2) =~= field);
    strs::lemma_first_of(field, brk);
    assert(!strs::has(field, brk)) by {
        if strs::has(field, brk) {
            let j = choose|j: int| strs::occurs_at(field, brk, j);
            assert(field.subrange(j, j + 2)[0] == '\r');
            assert(field[j] == '\r');
            if j >= 6 {
                assert(field[j] == host[j - 6]);
            }
        }
    }
    assert(strs::pieces(field, brk) == seq![field]);
    assert(strs::pieces(head, brk) =~= seq![line, field]);
}

/// The first line of a request gives its target.
proof fn lemma_get_first_line(m: HttpModel, target: Seq<char>)
    requires
        plain_target(target),
    ensures
        http::with_first_line(m, get_line(target)) matches Some(r) && r == (HttpModel {
            kind: "request"@,
            method: r.method,
            http_version: r.http_version,
            path: Some(
                match strs::cut(target, '?') {
                    Some((path, _)) => path,
                    None => target,
                },
            ),
            query: match strs::cut(target, '?') {
                Some((_, q)) => http::parameters(q),
                None => Seq::empty(),
            },
            ..m
        }),
{
    lemma_get_literals();
    let line = get_line(target);
    assert(line.subrange(0, 4) =~= "GET "@);
    assert(http::method_line(line));
    assert(!strs::prefixed(line, "HTTP/"@)) by {
        if strs::prefixed(line, "HTTP/"@) {
            assert(line.subrange(0, 5)[0] == 'H');
        }
    }
    strs::lemma_cut_at(line, ' ', 3);
    let rest = line.skip(4);
    assert(rest =~= target + " HTTP/1.1"@);
    let n = target.len() as int;
    assert forall|j: int| 0 <= j < n implies rest[j] != ' ' by {
        assert(rest[j] == target[j]);
    }
    strs::lemma_cut_at(rest, ' ', n);
    assert(rest.take(n) =~= target);
}

/// A text without white space keeps all of itself when it is trimmed, behind
/// blanks too.
proof fn lemma_trim_plain(s: Seq<char>)
    requires
        forall|i: int| 0 <= i < s.len() ==> !chars::white(#[trigger] s[i]),
    ensures
        strs::trimmed(s) == s,
        strs::trimmed(seq![' '] + s) == s,
{
    let t = seq![' '] + s;
    assert(t.skip(1) =~= s);
    assert(strs::ltrim(s) == s);
    assert(strs::ltrim(t) == strs::ltrim(t.skip(1)));
    if s.len() > 0 {
        assert(!chars::white(s[s.len() - 1]));
    }
}

/// The second line of a request gives its host.
proof fn lemma_get_host(m: HttpModel, host: Seq<char>)
    requires
        plain_host(host),
    ensures
        http::with_header_line(m, "Host: "@ + host) == (HttpModel {
            headers: m.headers.push(("Host"@, host)),
            host: Some(host),
            ..m
        }),
{
    lemma_get_literals();
    reveal_strlit("Host");
    let line = "Host: "@ + host;
    strs::lemma_cut_at(line, ':', 4);
    assert(line.take(4) =~= "Host"@);
    assert(line.skip(5) =~= seq![' '] + host);
    lemma_trim_plain(host);
    lemma_trim_plain("Host"@);
    assert(strs::lower_text("Host"@) =~= "host"@);
}

/// The web address of a request is what was asked for: parsing a request for
/// a target on a host, and asking for the web address, gives the host and
/// the target back, query included.
pub proof fn law_request_url_reads_back(
    target: Seq<char>,
    host: Seq<char>,
    offset: int,
    cap: int,
    t: TransactionModel,
)
    requires
        plain_target(target),
        plain_host(host),
        full_query(target),
        t.request == http::message(get_request(target, host), offset, cap),
    ensures
        transaction::request_url_of(t) == Some("https://"@ + host + target),
{
    let b = get_request(target, host);
    let head = get_head(target, host);
    let lines = http::head_lines(head);
    reveal(http::message);
    lemma_get_head(target, host);
    lemma_get_lines(target, host);
    let m0 = HttpModel { offset, ..http::blank_message() };
    lemma_get_first_line(m0, target);
    let m1 = http::with_first_line(m0, get_line(target))->0;
    lemma_get_host(m1, host);
    let rest = lines.skip(1);
    assert(rest =~= seq!["Host: "@ + host]);
    assert(rest.drop_last() =~= Seq::<Seq<char>>::empty());
    assert(rest.last() == "Host: "@ + host);
    reveal_with_fuel(http::with_headers, 2);
    let m2 = http::with_headers(m1, rest);
    assert(m2 == http::with_header_line(m1, "Host: "@ + host));
    assert(m2.content_length is None);
    let m = http::message(b, offset, cap)->0;
    assert(m.host == Some(host) && m.path == m1.path && m.query == m1.query);
    match strs::cut(target, '?') {
        Some((path, q)) => {
            strs::lemma_index_of(target, '?');
            strs::law_pieces_join(q, seq!['&']);
            strs::lemma_pieces_nonempty(q, seq!['&']);
            lemma_query_joins(strs::fields(q, '&'));
            assert(transaction::query_text(http::parameters(q)) == q);
            assert(http::parameters(q).len() > 0);
            reveal_strlit("?");
            assert(path + "?"@ + q =~= target);
            assert("https://"@ + host + path + "?"@ + q =~= "https://"@ + host + target);
        },
        None => {},
    }
}

/// A request with a target of up to 8000 characters is told to be one.
pub proof fn law_requests_are_told(target: Seq<char>, host: Seq<char>)
    requires
        plain_target(target),
        plain_host(host),
        target.len() <= 8000,
    ensures
        classify::kind_of(get_request(target, host)) == Kind::HttpRequest,
{
    lemma_get_literals();
    let head = get_head(target, host);
    let all = head + "\r\n\r\n"@;
    let b = get_request(target, host);
    let k = get_line(target).len() as int;
    let n = head.len() as int;
    assert forall|i: int| 0 <= i < all.len() implies '\0' <= #[trigger] all[i] <= '\u{7f}' by {
        if 4 <= i < 4 + target.len() {
            assert(all[i] == target[i - 4]);
        } else if k + 8 <= i < n {
            assert(all[i] == host[i - k - 8]);
        }
        lemma_least_char(all[i]);
    }
    assert(vstd::utf8::is_ascii_chars(all));
    vstd::utf8::is_ascii_chars_encode_utf8(all);
    assert(b.len() == all.len());
    assert forall|i: int| 0 <= i < all.len() implies b[i] == #[trigger] all[i] as u8 by {}
    assert forall|i: int| 0 <= i < k implies #[trigger] b[i] != 0x0a && b[i] != 0x0d by {
        assert(b[i] == all[i] as u8);
        assert('\0' <= all[i] <= '\u{7f}');
        if 4 <= i < 4 + target.len() {
            assert(all[i] == target[i - 4]);
        }
    }
    assert(b[k] == 0x0d) by {
        assert(all[k] == '\r');
    }
    assert(kinds::first_break_at(b, k));
    let m = 4 + target.len() as int;
    assert(b.subrange(m, m + 6) =~= kinds::http_mark()) by {
        assert(all[m] == ' ' && all[m + 1] == 'H' && all[m + 2] == 'T' && all[m + 3] == 'T' && all[m
            + 4] == 'P' && all[m + 5] == '/');
    }
    assert(kinds::versioned(b, m, k));
    assert(kinds::request_line_to(b, k));
    assert(b.take(4) =~= seq![0x47, 0x45, 0x54, 0x20]) by {
        assert(all[0] == 'G' && all[1] == 'E' && all[2] == 'T' && all[3] == ' ');
    }
    kinds::law_request_kind(b);
}

} // verus!
