//! What a walk over a file records of the frames that it visits.

use vstd::prelude::*;

use crate::classify;
use crate::classify::Kind;
use crate::extract;
use crate::extract::ConfigModel;
use crate::extract::FindingsModel;
use crate::extract::Options;
use crate::extract::RecordModel;
use crate::extract::StateModel;
use crate::frame;
use crate::frame::Frame;
use crate::header;
use crate::laws::kinds;
use crate::num;
use crate::text;

verus! {

/// A frame that a walk visits: where its payload lies, how many bytes it and
/// the frame have, and the payload.
pub struct Visit {
    pub at: int,
    pub size: int,
    pub outer: int,
    pub payload: Seq<u8>,
}

/// The frames that a walk visits, those within a state blob right after it,
/// down to the fourth depth.
pub open spec fn visits(
    slice: Seq<u8>,
    frames: Seq<Frame>,
    base: int,
    depth: nat,
) -> Seq<Visit>
    decreases 5 - depth, frames.len(),
{
    if frames.len() == 0 || depth > 4 {
        Seq::empty()
    } else {
        let fr = frames[0];
        let p = fr.body(slice);
        let at = base + fr.offset + 8;
        let here = Visit { at, size: fr.inner as int, outer: fr.outer as int, payload: p };
        let within = if classify::kind_of(p) == Kind::StateBlob && depth < 4 {
            visits(p, extract::nested(p, depth), at, depth + 1)
        } else {
            Seq::empty()
        };
        seq![here] + within + visits(slice, frames.skip(1), base, depth)
    }
}

/// The visits to payloads of one kind, in order.
pub open spec fn of_kind(v: Seq<Visit>, k: Kind) -> Seq<Visit>
    decreases v.len(),
{
    if v.len() == 0 {
        Seq::empty()
    } else if classify::kind_of(v.last().payload) == k {
        of_kind(v.drop_last(), k).push(v.last())
    } else {
        of_kind(v.drop_last(), k)
    }
}

/// The bytes that the visited frames take.
pub open spec fn bytes_of(v: Seq<Visit>) -> int
    decreases v.len(),
{
    if v.len() == 0 {
        0
    } else {
        bytes_of(v.drop_last()) + v.last().outer
    }
}

/// The record of a text in UTF-8; bytes that are not valid read as nothing.
pub open spec fn narrow_record(x: Visit) -> ConfigModel {
    ConfigModel {
        offset: x.at,
        size: x.size,
        encoding: "utf-8"@,
        text: if vstd::utf8::valid_utf8(x.payload) {
            vstd::utf8::decode_utf8(x.payload)
        } else {
            Seq::empty()
        },
    }
}

/// The record of a text in UTF-16.
pub open spec fn wide_record(x: Visit) -> ConfigModel {
    ConfigModel {
        offset: x.at,
        size: x.size,
        encoding: "utf-16"@,
        text: text::best_reading(x.payload),
    }
}

/// The record of a state blob: its UTF-16BE runs of four characters or more
/// and its ASCII runs of six or more.
pub open spec fn blob_record(x: Visit) -> StateModel {
    StateModel {
        offset: x.at,
        size: x.size,
        strings_utf16be: classify::runs16(x.payload, 0, 4),
        strings_ascii: classify::runs8(x.payload, 0, 6),
    }
}

/// The first 64 bytes of a payload, or all where there are fewer.
pub open spec fn shown(p: Seq<u8>) -> Seq<u8> {
    p.take(kinds::lesser(p.len() as int, 64))
}

/// The record of an unknown frame, which tells of its header too.
pub open spec fn unknown_record(x: Visit) -> RecordModel {
    RecordModel {
        offset: x.at - 8,
        size: x.outer,
        kind: Kind::Unknown,
        preview: extract::spaced_hex(shown(x.payload)),
    }
}

pub open spec fn narrow_records(v: Seq<Visit>) -> Seq<ConfigModel> {
    v.map_values(|x: Visit| narrow_record(x))
}

pub open spec fn wide_records(v: Seq<Visit>) -> Seq<ConfigModel> {
    v.map_values(|x: Visit| wide_record(x))
}

pub open spec fn blob_records(v: Seq<Visit>) -> Seq<StateModel> {
    v.map_values(|x: Visit| blob_record(x))
}

pub open spec fn unknown_records(v: Seq<Visit>) -> Seq<RecordModel> {
    v.map_values(|x: Visit| unknown_record(x))
}

/// `g` is `f` with the records of the visits behind its own.
pub open spec fn recorded(
    f: FindingsModel,
    g: FindingsModel,
    v: Seq<Visit>,
    opts: Options,
) -> bool {
    &&& g.stats.total_frames == f.stats.total_frames + v.len()
    &&& g.stats.bytes_in_frames == f.stats.bytes_in_frames + bytes_of(v)
    &&& g.stats.small_ids == f.stats.small_ids + of_kind(v, Kind::SmallId).len()
    &&& g.stats.unknown == f.stats.unknown + of_kind(v, Kind::Unknown).len()
    &&& g.stats.utf16_blobs == f.stats.utf16_blobs + of_kind(v, Kind::Utf16Text).len()
    &&& g.stats.json_blobs == f.stats.json_blobs + of_kind(v, Kind::Json).len()
    &&& g.stats.state_blobs == f.stats.state_blobs + of_kind(v, Kind::StateBlob).len()
    &&& g.config_blobs == f.config_blobs + wide_records(of_kind(v, Kind::Utf16Text))
    &&& g.json_blobs == f.json_blobs + narrow_records(of_kind(v, Kind::Json))
    &&& g.state_blobs == f.state_blobs + blob_records(of_kind(v, Kind::StateBlob))
    &&& opts.include_other_text ==> g.other_text == f.other_text + narrow_records(
        of_kind(v, Kind::Utf8Text),
    )
    &&& !opts.include_other_text ==> g.other_text == f.other_text
    &&& opts.include_unknown ==> g.unknown_frames == f.unknown_frames + unknown_records(
        of_kind(v, Kind::Unknown),
    )
    &&& !opts.include_unknown ==> g.unknown_frames == f.unknown_frames
}

proof fn lemma_of_kind_add(a: Seq<Visit>, b: Seq<Visit>, k: Kind)
    ensures
        of_kind(a + b, k) == of_kind(a, k) + of_kind(b, k),
        bytes_of(a + b) == bytes_of(a) + bytes_of(b),
    decreases b.len(),
{
    if b.len() == 0 {
        assert(a + b =~= a);
        assert(of_kind(a, k) + of_kind(b, k) =~= of_kind(a, k));
    } else {
        lemma_of_kind_add(a, b.drop_last(), k);
        assert((a + b).drop_last() =~= a + b.drop_last());
        assert((a + b).last() == b.last());
        assert(of_kind(a + b, k) =~= of_kind(a, k) + of_kind(b, k));
    }
}

proof fn lemma_recorded_add(
    f: FindingsModel,
    g: FindingsModel,
    h: FindingsModel,
    a: Seq<Visit>,
    b: Seq<Visit>,
    opts: Options,
)
    requires
        recorded(f, g, a, opts),
        recorded(g, h, b, opts),
    ensures
        recorded(f, h, a + b, opts),
{
    let v = a + b;
    lemma_of_kind_add(a, b, Kind::SmallId);
    lemma_of_kind_add(a, b, Kind::Unknown);
    lemma_of_kind_add(a, b, Kind::Utf16Text);
    lemma_of_kind_add(a, b, Kind::Json);
    lemma_of_kind_add(a, b, Kind::StateBlob);
    lemma_of_kind_add(a, b, Kind::Utf8Text);
    assert(h.config_blobs =~= f.config_blobs + wide_records(of_kind(v, Kind::Utf16Text)));
    assert(h.json_blobs =~= f.json_blobs + narrow_records(of_kind(v, Kind::Json)));
    assert(h.state_blobs =~= f.state_blobs + blob_records(of_kind(v, Kind::StateBlob)));
    if opts.include_other_text {
        assert(h.other_text =~= f.other_text + narrow_records(of_kind(v, Kind::Utf8Text)));
    }
    if opts.include_unknown {
        assert(h.unknown_frames =~= f.unknown_frames + unknown_records(of_kind(v, Kind::Unknown)));
    }
}

proof fn lemma_recorded_none(f: FindingsModel, opts: Options)
    ensures
        recorded(f, f, Seq::empty(), opts),
{
    let v = Seq::<Visit>::empty();
    assert(f.config_blobs =~= f.config_blobs + wide_records(v));
    assert(f.json_blobs =~= f.json_blobs + narrow_records(v));
    assert(f.state_blobs =~= f.state_blobs + blob_records(v));
    assert(f.other_text =~= f.other_text + narrow_records(v));
    assert(f.unknown_frames =~= f.unknown_frames + unknown_records(v));
}

proof fn lemma_of_one(x: Visit, k: Kind)
    ensures
        of_kind(seq![x], k) == if classify::kind_of(x.payload) == k {
            seq![x]
        } else {
            Seq::empty()
        },
        bytes_of(seq![x]) == x.outer,
{
    let v = seq![x];
    assert(v.drop_last() =~= Seq::empty());
    reveal_with_fuel(of_kind, 2);
    reveal_with_fuel(bytes_of, 2);
    assert(Seq::<Visit>::empty().push(x) =~= v);
}

proof fn lemma_recorded_one(f: FindingsModel, x: Visit, fr: Frame, opts: Options)
    requires
        x.size == fr.inner,
        x.outer == fr.outer,
    ensures
        recorded(
            f,
            extract::with_payload(extract::with_frame(f, fr), x.payload, fr, x.at, opts),
            seq![x],
            opts,
        ),
{
    reveal(extract::with_payload);
    let g = extract::with_payload(extract::with_frame(f, fr), x.payload, fr, x.at, opts);
    let v = seq![x];
    lemma_of_one(x, Kind::SmallId);
    lemma_of_one(x, Kind::Unknown);
    lemma_of_one(x, Kind::Utf16Text);
    lemma_of_one(x, Kind::Json);
    lemma_of_one(x, Kind::StateBlob);
    lemma_of_one(x, Kind::Utf8Text);
    assert(g.config_blobs =~= f.config_blobs + wide_records(of_kind(v, Kind::Utf16Text)));
    assert(g.json_blobs =~= f.json_blobs + narrow_records(of_kind(v, Kind::Json)));
    assert(g.state_blobs =~= f.state_blobs + blob_records(of_kind(v, Kind::StateBlob)));
    if opts.include_other_text {
        assert(g.other_text =~= f.other_text + narrow_records(of_kind(v, Kind::Utf8Text)));
    }
    if opts.include_unknown {
        assert(g.unknown_frames =~= f.unknown_frames + unknown_records(of_kind(v, Kind::Unknown)));
    }
}

/// How many more frames are wanted, of `n` that there are.
pub open spec fn wanted(f: FindingsModel, opts: Options, n: int) -> int {
    match opts.max_frames {
        Some(cap) => kinds::lesser(n, cap - f.stats.total_frames),
        None => n,
    }
}

proof fn lemma_walk_records(
    f: FindingsModel,
    slice: Seq<u8>,
    frames: Seq<Frame>,
    base: int,
    opts: Options,
    depth: nat,
)
    requires
        opts.max_frames matches Some(cap) ==> f.stats.total_frames <= cap,
    ensures
        ({
            let v = visits(slice, frames, base, depth);
            recorded(
                f,
                extract::with_frames(f, slice, frames, base, opts, depth),
                v.take(wanted(f, opts, v.len() as int)),
                opts,
            )
        }),
    decreases 5 - depth, frames.len(),
{
    let v = visits(slice, frames, base, depth);
    if frames.len() == 0 || extract::sated(f, opts) || depth > 4 {
        lemma_recorded_none(f, opts);
        assert(v.take(0) =~= Seq::empty());
    } else {
        let fr = frames[0];
        let p = fr.body(slice);
        let at = base + fr.offset + 8;
        let x = Visit { at, size: fr.inner as int, outer: fr.outer as int, payload: p };
        let g = extract::with_payload(extract::with_frame(f, fr), p, fr, at, opts);
        let rest = frames.skip(1);
        let later = visits(slice, rest, base, depth);
        lemma_recorded_one(f, x, fr, opts);
        if classify::kind_of(p) == Kind::StateBlob && depth < 4 {
            let nested = extract::nested(p, depth);
            let h = extract::with_frames(g, p, nested, at, opts, depth + 1);
            let within = visits(p, nested, at, depth + 1);
            let some = within.take(wanted(g, opts, within.len() as int));
            lemma_walk_records(g, p, nested, at, opts, depth + 1);
            lemma_recorded_add(f, g, h, seq![x], some, opts);
            lemma_walk_records(h, slice, rest, base, opts, depth);
            let all = extract::with_frames(h, slice, rest, base, opts, depth);
            let more = later.take(wanted(h, opts, later.len() as int));
            lemma_recorded_add(f, h, all, seq![x] + some, more, opts);
            assert(seq![x] + some + more =~= v.take(wanted(f, opts, v.len() as int)));
        } else {
            lemma_walk_records(g, slice, rest, base, opts, depth);
            let all = extract::with_frames(g, slice, rest, base, opts, depth);
            let more = later.take(wanted(g, opts, later.len() as int));
            lemma_recorded_add(f, g, all, seq![x], more, opts);
            assert(seq![x] + more =~= v.take(wanted(f, opts, v.len() as int)));
        }
    }
}

/// The findings record every frame that is visited, up to the number that is
/// wanted, by its kind, once, in order and with its place, and nothing else;
/// the statistics count them.
pub proof fn law_every_frame_is_recorded(file: Seq<char>, buf: Seq<u8>, opts: Options)
    ensures
        ({
            let v = visits(buf, frame::scan_of(buf, 1, 0x400_0000).frames(), 0, 0);
            let n = match opts.max_frames {
                Some(cap) => kinds::lesser(v.len() as int, cap as int),
                None => v.len() as int,
            };
            let f = extract::findings_of(file, buf, opts);
            &&& recorded(extract::blank_findings(), f, v.take(n), opts)
            &&& f.size == buf.len()
            &&& f.file == file
            &&& f.header == header::header_of(buf)
            &&& f.stats.bytes_in_frames <= buf.len() ==> f.stats.bytes_in_frames
                + f.stats.bytes_in_gaps == buf.len()
            &&& f.stats.bytes_in_frames > buf.len() ==> f.stats.bytes_in_gaps == 0
        }),
{
    let start = FindingsModel {
        file,
        size: buf.len() as int,
        header: header::header_of(buf),
        ..extract::blank_findings()
    };
    let frames = frame::scan_of(buf, 1, 0x400_0000).frames();
    lemma_walk_records(start, buf, frames, 0, opts, 0);
    lemma_walk_keeps(start, buf, frames, 0, opts, 0);
}

proof fn lemma_walk_keeps(
    f: FindingsModel,
    slice: Seq<u8>,
    frames: Seq<Frame>,
    base: int,
    opts: Options,
    depth: nat,
)
    ensures
        ({
            let g = extract::with_frames(f, slice, frames, base, opts, depth);
            g.file == f.file && g.size == f.size && g.header == f.header
        }),
    decreases 5 - depth, frames.len(),
{
    if frames.len() == 0 || extract::sated(f, opts) || depth > 4 {
    } else {
        let fr = frames[0];
        let p = fr.body(slice);
        let at = base + fr.offset + 8;
        let g = extract::with_payload(extract::with_frame(f, fr), p, fr, at, opts);
        let rest = frames.skip(1);
        reveal(extract::with_payload);
        if classify::kind_of(p) == Kind::StateBlob && depth < 4 {
            let nested = extract::nested(p, depth);
            let h = extract::with_frames(g, p, nested, at, opts, depth + 1);
            lemma_walk_keeps(g, p, nested, at, opts, depth + 1);
            lemma_walk_keeps(h, slice, rest, base, opts, depth);
        } else {
            lemma_walk_keeps(g, slice, rest, base, opts, depth);
        }
    }
}

/// A preview in hexadecimal is two digits for each byte, with a blank between
/// two of them.
pub proof fn law_spaced_hex(b: Seq<u8>, i: int)
    requires
        0 <= i < b.len(),
    ensures
        extract::spaced_hex(b).len() == 3 * b.len() - 1,
        extract::spaced_hex(b).subrange(3 * i, 3 * i + 2) == num::hex2(b[i]),
        i + 1 < b.len() ==> extract::spaced_hex(b)[3 * i + 2] == ' ',
    decreases b.len(),
{
    let t = extract::spaced_hex(b);
    if b.len() == 1 {
        assert(t.subrange(0, 2) =~= num::hex2(b[0]));
    } else {
        let init = b.drop_last();
        law_spaced_hex(init, 0);
        if i < init.len() {
            law_spaced_hex(init, i);
            assert(t.subrange(3 * i, 3 * i + 2) =~= extract::spaced_hex(init).subrange(
                3 * i,
                3 * i + 2,
            ));
        } else {
            assert(t.subrange(3 * i, 3 * i + 2) =~= num::hex2(b[i]));
        }
    }
}

} // verus!
