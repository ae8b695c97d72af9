//! File-level layout.
//!
//! ```text
//!   [ fixed header, 256 bytes ]      magic + version + used_size + schema directory
//!   [ extended header, ~24-50 KB ]   schema tables + project-wide strings
//!   [ frame run ] [ trailer ] ...
//!   [ zero-padded tail up to EOF ]
//! ```
//!
//! `used_size` (header offset 0x38) divides live data from the pre-allocated
//! zero tail.

use vstd::prelude::*;
use vstd::slice::slice_subrange;

use crate::bytes;
use crate::classify;
use crate::file::ProjectFile;
use crate::frame;
use crate::frame::Frame;
use crate::frame::FrameIter;
use crate::header;
use crate::header::Header;
use crate::num;
use crate::strs;

verus! {

#[derive(Debug)]
pub struct Layout {
    pub file_size: u64,
    pub used_size: u64,
    pub tail_zero_bytes: u64,
    pub tail_zero_verified: bool,
    pub header_run: Section,
    pub frame_runs: Vec<Section>,
    pub trailers: Vec<Section>,
    pub gap_count: u64,
    pub gap_bytes: u64,
}

#[derive(Debug, Clone)]
pub struct Section {
    pub offset: u64,
    pub end: u64,
    pub size: u64,
    pub note: String,
}

#[verifier::ext_equal]
pub struct SectionModel {
    pub offset: int,
    pub end: int,
    pub size: int,
    pub note: Seq<char>,
}

/// What a layout says, with its texts as sequences of characters.
#[verifier::ext_equal]
pub struct LayoutModel {
    pub file_size: int,
    pub used_size: int,
    pub tail_zero_bytes: int,
    pub tail_zero_verified: bool,
    pub header_run: SectionModel,
    pub frame_runs: Seq<SectionModel>,
    pub trailers: Seq<SectionModel>,
    pub gap_count: int,
    pub gap_bytes: int,
}

pub open spec fn sections(v: Seq<Section>) -> Seq<SectionModel> {
    v.map_values(|s: Section| s@)
}

impl View for Section {
    type V = SectionModel;

    open spec fn view(&self) -> SectionModel {
        SectionModel {
            offset: self.offset as int,
            end: self.end as int,
            size: self.size as int,
            note: self.note@,
        }
    }
}

impl View for Layout {
    type V = LayoutModel;

    open spec fn view(&self) -> LayoutModel {
        LayoutModel {
            file_size: self.file_size as int,
            used_size: self.used_size as int,
            tail_zero_bytes: self.tail_zero_bytes as int,
            tail_zero_verified: self.tail_zero_verified,
            header_run: self.header_run@,
            frame_runs: sections(self.frame_runs@),
            trailers: sections(self.trailers@),
            gap_count: self.gap_count as int,
            gap_bytes: self.gap_bytes as int,
        }
    }
}

/// A stretch of bytes, from `start` up to `end`.
pub struct Span {
    pub start: int,
    pub end: int,
}

/// A run of frames, each of which starts where the one before it ends.
pub struct Run {
    pub span: Span,
    pub count: nat,
}

/// The runs that frames form.
pub open spec fn runs_of(frames: Seq<Frame>) -> Seq<Run>
    decreases frames.len(),
{
    if frames.len() == 0 {
        Seq::empty()
    } else {
        let runs = runs_of(frames.drop_last());
        let start = frames.last().offset as int;
        let end = start + frames.last().outer;
        if runs.len() > 0 && runs.last().span.end == start {
            runs.drop_last().push(
                Run {
                    span: Span { start: runs.last().span.start, end },
                    count: runs.last().count + 1,
                },
            )
        } else {
            runs.push(Run { span: Span { start, end }, count: 1 })
        }
    }
}

pub open spec fn spans(runs: Seq<Run>) -> Seq<Span> {
    runs.map_values(|r: Run| r.span)
}

/// The stretches from `cursor` up to `end` that no run takes.
pub open spec fn gaps(runs: Seq<Span>, cursor: int, end: int) -> Seq<Span>
    decreases runs.len(),
{
    if runs.len() == 0 {
        if cursor < end {
            seq![Span { start: cursor, end }]
        } else {
            Seq::empty()
        }
    } else {
        let rest = gaps(runs.skip(1), runs[0].end, end);
        if cursor < runs[0].start {
            seq![Span { start: cursor, end: runs[0].start }] + rest
        } else {
            rest
        }
    }
}

/// The bytes that stretches take.
pub open spec fn total(spans: Seq<Span>) -> int
    decreases spans.len(),
{
    if spans.len() == 0 {
        0
    } else {
        spans[0].end - spans[0].start + total(spans.skip(1))
    }
}

/// Eight 0xff bytes in a row.
pub open spec fn sentinel() -> Seq<u8> {
    Seq::new(8, |i: int| 0xffu8)
}

/// How many UTF-16BE printable ASCII characters stand in a row from `i` on.
pub open spec fn printable_run(b: Seq<u8>, i: int) -> nat
    decreases b.len() - i,
{
    if i < 0 || i + 2 > b.len() || b[i] != 0 || !(0x20 <= b[i + 1] <= 0x7e) {
        0
    } else {
        1 + printable_run(b, i + 2)
    }
}

pub proof fn lemma_printable_run(b: Seq<u8>, i: int)
    ensures
        0 <= i <= b.len() ==> i + 2 * printable_run(b, i) <= b.len(),
    decreases b.len() - i,
{
    if 0 <= i && i + 2 <= b.len() {
        lemma_printable_run(b, i + 2);
    }
}

/// How many runs of at least four such characters a reading from `i` on meets.
pub open spec fn printable_runs(b: Seq<u8>, i: int) -> nat
    decreases b.len() - i,
{
    if i < 0 || i + 8 > b.len() {
        0
    } else if printable_run(b, i) >= 4 {
        proof {
            lemma_printable_run(b, i);
        }
        1 + printable_runs(b, i + 2 * printable_run(b, i))
    } else {
        printable_runs(b, i + 1)
    }
}

/// What the bytes between frame runs look like. Section trailers carry eight
/// 0xff bytes and a transaction id.
pub open spec fn gap_note(b: Seq<u8>) -> Seq<char> {
    let runs = num::numeral(printable_runs(b, 0), 10);
    if b.len() == 0 {
        "empty"@
    } else if b.len() == 1 {
        "1-byte alignment pad"@
    } else if strs::has(b, sentinel()) && b.len() < 8192 {
        "trailer (back-pointer + 0xff sentinel + txn id)"@
    } else if printable_runs(b, 0) >= 8 {
        "schema or strings block ("@ + runs + " utf-16be runs)"@
    } else if bytes::zeros(b) {
        "zero padding"@
    } else {
        "unclassified ("@ + num::numeral(b.len(), 10) + " bytes, "@ + runs + " utf-16be runs)"@
    }
}

pub open spec fn section(s: Span, note: Seq<char>) -> SectionModel {
    SectionModel { offset: s.start, end: s.end, size: s.end - s.start, note }
}

pub open spec fn run_section(r: Run) -> SectionModel {
    section(r.span, num::numeral(r.count, 10) + " contiguous frames"@)
}

pub open spec fn gap_section(buf: Seq<u8>, s: Span) -> SectionModel {
    section(s, gap_note(buf.subrange(s.start, s.end)))
}

/// The size of live data that the header gives, or the whole size.
pub open spec fn used_of(buf: Seq<u8>) -> nat {
    match header::header_of(buf) {
        Some(h) => h.used_size,
        None => buf.len(),
    }
}

/// Where the live data end.
pub open spec fn live_end(buf: Seq<u8>) -> int {
    classify::least(used_of(buf) as int, buf.len() as int)
}

/// The frames of the live data.
pub open spec fn live_frames(buf: Seq<u8>) -> Seq<Frame> {
    frame::scan_of(buf.take(live_end(buf)), 1, 0x400_0000).frames()
}

/// Where the first frame starts, or the live data end.
pub open spec fn frames_start(buf: Seq<u8>) -> int {
    let runs = runs_of(live_frames(buf));
    if runs.len() > 0 {
        runs[0].span.start
    } else {
        live_end(buf)
    }
}

/// The stretches of live data after the first frame that no frame takes.
pub open spec fn gaps_of(buf: Seq<u8>) -> Seq<Span> {
    gaps(spans(runs_of(live_frames(buf))), frames_start(buf), live_end(buf))
}

/// The layout of a file.
pub open spec fn layout_of(buf: Seq<u8>) -> LayoutModel {
    let used = used_of(buf);
    LayoutModel {
        file_size: buf.len() as int,
        used_size: used as int,
        tail_zero_bytes: if buf.len() > used {
            buf.len() - used
        } else {
            0
        },
        tail_zero_verified: bytes::zeros(buf.skip(live_end(buf))),
        header_run: section(
            Span { start: 0, end: frames_start(buf) },
            "fixed header (256B) + extended header & schema tables up to first frame run"@,
        ),
        frame_runs: runs_of(live_frames(buf)).map_values(|r: Run| run_section(r)),
        trailers: gaps_of(buf).map_values(|s: Span| gap_section(buf, s)),
        gap_count: gaps_of(buf).len() as int,
        gap_bytes: total(gaps_of(buf)),
    }
}

/// How many of the stretches hold the byte at `x`.
pub open spec fn holding(spans: Seq<Span>, x: int) -> nat
    decreases spans.len(),
{
    if spans.len() == 0 {
        0
    } else {
        holding(spans.skip(1), x) + if spans[0].start <= x < spans[0].end {
            1nat
        } else {
            0
        }
    }
}

/// Stretches in order from `from` to `to`, none empty, none overlapping
/// another.
pub open spec fn ordered(spans: Seq<Span>, from: int, to: int) -> bool
    decreases spans.len(),
{
    if spans.len() == 0 {
        from <= to
    } else {
        from <= spans[0].start < spans[0].end && ordered(spans.skip(1), spans[0].end, to)
    }
}

proof fn lemma_ordered_push(v: Seq<Span>, s: Span, from: int, mid: int, to: int)
    requires
        ordered(v, from, mid),
        mid <= s.start < s.end <= to,
    ensures
        ordered(v.push(s), from, to),
    decreases v.len(),
{
    reveal_with_fuel(ordered, 2);
    if v.len() == 0 {
        assert(v.push(s).skip(1) =~= Seq::empty());
    } else {
        assert(v.push(s).skip(1) =~= v.skip(1).push(s));
        lemma_ordered_push(v.skip(1), s, v[0].end, mid, to);
    }
}

proof fn lemma_ordered_last(v: Seq<Span>, from: int, to: int)
    requires
        ordered(v, from, to),
        v.len() > 0,
    ensures
        v.last().start < v.last().end <= to,
        ordered(v.drop_last(), from, v.last().start),
        from <= v[0].start,
        ordered(v, from, v.last().end),
        ordered(v, v[0].start, to),
    decreases v.len(),
{
    reveal_with_fuel(ordered, 2);
    if v.len() == 1 {
        assert(v.drop_last() =~= Seq::empty());
        assert(v.skip(1) =~= Seq::empty());
    } else {
        lemma_ordered_last(v.skip(1), v[0].end, to);
        assert(v.skip(1).drop_last() =~= v.drop_last().skip(1));
    }
}

/// The runs of frames that lie in order stand in order, and the last ends
/// with the last frame.
proof fn lemma_runs(frames: Seq<Frame>, to: int)
    requires
        to >= 0,
        forall|i: int|
            0 <= i < frames.len() ==> (#[trigger] frames[i]).outer >= 8 && frames[i].offset
                + frames[i].outer <= to,
        forall|i: int, j: int|
            0 <= i < j < frames.len() ==> (#[trigger] frames[i]).offset + frames[i].outer <= (
            #[trigger] frames[j]).offset,
    ensures
        ordered(spans(runs_of(frames)), 0, to),
        runs_of(frames).len() == 0 <==> frames.len() == 0,
        frames.len() > 0 ==> runs_of(frames).last().span.end == frames.last().offset
            + frames.last().outer,
        frames.len() > 0 ==> ordered(
            spans(runs_of(frames)),
            0,
            frames.last().offset + frames.last().outer,
        ),
    decreases frames.len(),
{
    if frames.len() > 0 {
        let init = frames.drop_last();
        let f = frames.last();
        let (start, end) = (f.offset as int, f.offset + f.outer);
        lemma_runs(init, start);
        let runs = runs_of(init);
        let all = runs_of(frames);
        if runs.len() > 0 && runs.last().span.end == start {
            lemma_ordered_last(spans(runs), 0, start);
            assert(spans(runs).last() == runs.last().span);
            assert(spans(all) =~= spans(runs).drop_last().push(all.last().span));
            lemma_ordered_push(
                spans(runs).drop_last(),
                all.last().span,
                0,
                runs.last().span.start,
                end,
            );
            lemma_ordered_push(
                spans(runs).drop_last(),
                all.last().span,
                0,
                runs.last().span.start,
                to,
            );
        } else {
            assert(spans(all) =~= spans(runs).push(all.last().span));
            lemma_ordered_push(spans(runs), all.last().span, 0, start, end);
            lemma_ordered_push(spans(runs), all.last().span, 0, start, to);
        }
    }
}

proof fn lemma_live_runs(buf: Seq<u8>)
    requires
        buf.len() <= usize::MAX,
    ensures
        ordered(spans(runs_of(live_frames(buf))), frames_start(buf), live_end(buf)),
        0 <= frames_start(buf) <= live_end(buf) <= buf.len(),
{
    let active = buf.take(live_end(buf));
    let scan = frame::scan_of(active, 1, 0x400_0000);
    let frames = scan.frames();
    assert forall|i: int| 0 <= i < frames.len() implies (#[trigger] frames[i]).outer >= 8
        && frames[i].offset + frames[i].outer <= live_end(buf) by {
        frame::law_frames_fit(scan, i);
    }
    assert forall|i: int, j: int| 0 <= i < j < frames.len() implies (#[trigger] frames[i]).offset
        + frames[i].outer <= (#[trigger] frames[j]).offset by {
        frame::law_frames_disjoint(scan, i, j);
    }
    lemma_runs(frames, live_end(buf));
    let list = spans(runs_of(frames));
    if list.len() > 0 {
        assert(list[0] == runs_of(frames)[0].span);
        lemma_ordered_last(list, 0, live_end(buf));
        lemma_ordered_start(list, 0, live_end(buf));
    }
}

proof fn lemma_ordered_start(v: Seq<Span>, from: int, to: int)
    requires
        ordered(v, from, to),
    ensures
        from <= to,
        v.len() > 0 ==> v[0].start < to,
    decreases v.len(),
{
    if v.len() > 0 {
        lemma_ordered_start(v.skip(1), v[0].end, to);
    }
}

proof fn lemma_tiles(runs: Seq<Span>, cursor: int, end: int, x: int)
    requires
        ordered(runs, cursor, end),
    ensures
        holding(runs, x) + holding(gaps(runs, cursor, end), x) == if cursor <= x < end {
            1int
        } else {
            0
        },
        total(runs) + total(gaps(runs, cursor, end)) == end - cursor,
        ordered(gaps(runs, cursor, end), cursor, end),
    decreases runs.len(),
{
    reveal_with_fuel(holding, 2);
    reveal_with_fuel(total, 2);
    reveal_with_fuel(ordered, 2);
    let g = gaps(runs, cursor, end);
    if runs.len() == 0 {
        if cursor < end {
            assert(g.skip(1) =~= Seq::empty());
        }
    } else {
        let rest = gaps(runs.skip(1), runs[0].end, end);
        lemma_tiles(runs.skip(1), runs[0].end, end, x);
        lemma_ordered_start(runs.skip(1), runs[0].end, end);
        if cursor < runs[0].start {
            assert(g.skip(1) =~= rest);
            lemma_ordered_wider(rest, runs[0].start, runs[0].end, end);
        } else {
            lemma_ordered_wider(rest, cursor, runs[0].end, end);
        }
    }
}

proof fn lemma_ordered_wider(v: Seq<Span>, from: int, mid: int, to: int)
    requires
        ordered(v, mid, to),
        from <= mid,
    ensures
        ordered(v, from, to),
{
}

/// The stretches that sections take.
pub open spec fn section_spans(v: Seq<SectionModel>) -> Seq<Span> {
    v.map_values(|s: SectionModel| Span { start: s.offset, end: s.end })
}

proof fn lemma_section_spans(buf: Seq<u8>)
    ensures
        section_spans(layout_of(buf).frame_runs) == spans(runs_of(live_frames(buf))),
        section_spans(layout_of(buf).trailers) == gaps_of(buf),
{
    assert(section_spans(layout_of(buf).frame_runs) =~= spans(runs_of(live_frames(buf))));
    assert(section_spans(layout_of(buf).trailers) =~= gaps_of(buf));
}

/// Every byte of live data lies in exactly one section of the layout: the
/// header, a frame run or a trailer. No byte past them lies in any.
pub proof fn law_layout_tiles(buf: Seq<u8>, x: int)
    requires
        buf.len() <= usize::MAX,
        0 <= x,
    ensures
        holding(section_spans(seq![layout_of(buf).header_run]), x) + holding(
            section_spans(layout_of(buf).frame_runs),
            x,
        ) + holding(section_spans(layout_of(buf).trailers), x) == if x < live_end(buf) {
            1int
        } else {
            0
        },
{
    lemma_live_runs(buf);
    lemma_section_spans(buf);
    lemma_tiles(spans(runs_of(live_frames(buf))), frames_start(buf), live_end(buf), x);
    reveal_with_fuel(holding, 2);
    let head = section_spans(seq![layout_of(buf).header_run]);
    assert(head.skip(1) =~= Seq::empty());
}

/// The sizes of the header, the frame runs and the trailers add up to the
/// live data, and there are as many gaps as trailers.
pub proof fn law_layout_sizes(buf: Seq<u8>)
    requires
        buf.len() <= usize::MAX,
    ensures
        layout_of(buf).header_run.size + total(section_spans(layout_of(buf).frame_runs))
            + layout_of(buf).gap_bytes == live_end(buf),
        layout_of(buf).gap_bytes == total(section_spans(layout_of(buf).trailers)),
        layout_of(buf).gap_count == layout_of(buf).trailers.len(),
{
    lemma_live_runs(buf);
    lemma_section_spans(buf);
    lemma_tiles(spans(runs_of(live_frames(buf))), frames_start(buf), live_end(buf), 0);
}

fn count_utf16be_ascii(buf: &[u8]) -> (r: usize)
    ensures
        r == printable_runs(buf@, 0),
{
    let n: usize = buf.len();
    let mut count: usize = 0;
    let mut i: usize = 0;
    while n - i >= 8
        invariant
            n == buf@.len(),
            count <= i <= n,
            count + printable_runs(buf@, i as int) == printable_runs(buf@, 0),
        decreases n - i,
    {
        let mut j: usize = i;
        let mut chars: usize = 0;
        while n - j >= 2 && buf[j] == 0 && 0x20 <= buf[j + 1] && buf[j + 1] <= 0x7e
            invariant
                n == buf@.len(),
                i <= j <= n,
                j == i + 2 * chars,
                printable_run(buf@, i as int) == chars + printable_run(buf@, j as int),
            decreases n - j,
        {
            chars = chars + 1;
            j = j + 2;
        }
        assert(printable_run(buf@, j as int) == 0);
        if chars >= 4 {
            count = count + 1;
            i = j;
        } else {
            i = i + 1;
        }
    }
    count
}

fn has_sentinel(buf: &[u8]) -> (r: bool)
    ensures
        r == strs::has(buf@, sentinel()),
{
    let pat: Vec<u8> = vec![0xff, 0xff, 0xff, 0xff, 0xff, 0xff, 0xff, 0xff];
    assert(pat@ =~= sentinel());
    proof {
        strs::lemma_first_of(buf@, pat@);
    }
    bytes::find(buf, &pat).is_some()
}

fn classify_gap(buf: &[u8]) -> (r: String)
    ensures
        r@ == gap_note(buf@),
{
    if buf.len() == 0 {
        return "empty".to_owned();
    }
    if buf.len() == 1 {
        return "1-byte alignment pad".to_owned();
    }
    let sentinel: bool = has_sentinel(buf);
    let utf16_runs: usize = count_utf16be_ascii(buf);
    let runs: String = num::decimal(utf16_runs as u64);
    if sentinel && buf.len() < 8192 {
        "trailer (back-pointer + 0xff sentinel + txn id)".to_owned()
    } else if utf16_runs >= 8 {
        let mut note: String = "schema or strings block (".to_owned();
        strs::push_text(&mut note, runs.as_str());
        strs::push_text(&mut note, " utf-16be runs)");
        note
    } else if bytes::all_zero(buf) {
        "zero padding".to_owned()
    } else {
        let mut note: String = "unclassified (".to_owned();
        strs::push_text(&mut note, num::decimal(buf.len() as u64).as_str());
        strs::push_text(&mut note, " bytes, ");
        strs::push_text(&mut note, runs.as_str());
        strs::push_text(&mut note, " utf-16be runs)");
        note
    }
}

/// A run as three numbers: start, end, and how many frames.
spec fn run_of(r: (u64, u64, u64)) -> Run {
    Run { span: Span { start: r.0 as int, end: r.1 as int }, count: r.2 as nat }
}

spec fn all_runs(v: Seq<(u64, u64, u64)>) -> Seq<Run> {
    v.map_values(|r: (u64, u64, u64)| run_of(r))
}

/// Find the runs of contiguous frames.
fn find_runs(active: &[u8]) -> (r: Vec<(u64, u64, u64)>)
    ensures
        all_runs(r@) == runs_of(frame::scan_of(active@, 1, 0x400_0000).frames()),
{
    let n: usize = active.len();
    let mut runs: Vec<(u64, u64, u64)> = Vec::new();
    let mut it: FrameIter = FrameIter::new(active).min_inner(1).max_inner(0x400_0000);
    let ghost all = it@.frames();
    let ghost mut done: Seq<Frame> = Seq::empty();
    assert(done + it@.frames() =~= all);
    assert(all_runs(runs@) =~= Seq::empty());
    loop
        invariant
            n == active@.len(),
            !it@.overlap,
            it@.buf == active@,
            0 <= it@.pos <= n,
            all == frame::scan_of(active@, 1, 0x400_0000).frames(),
            done + it@.frames() == all,
            done.len() <= it@.pos,
            all_runs(runs@) == runs_of(done),
            runs@.len() > 0 ==> runs@.last().2 <= done.len(),
        decreases it@.buf.len() - it@.pos,
    {
        let ghost rest = it@.frames();
        match it.next() {
            Some(f) => {
                let start: u64 = f.offset as u64;
                let end: u64 = (f.offset + f.outer as usize) as u64;
                let ghost before = done;
                proof {
                    done = done.push(f);
                    assert(done.drop_last() =~= before);
                    assert(before + rest =~= done + it@.frames());
                }
                let ghost old_runs = runs@;
                let k: usize = runs.len();
                if k > 0 && runs[k - 1].1 == start {
                    let last: (u64, u64, u64) = runs[k - 1];
                    runs.pop();
                    runs.push((last.0, end, last.2 + 1));
                    assert(all_runs(old_runs).last() == run_of(last));
                    assert(all_runs(runs@) =~= all_runs(old_runs).drop_last().push(
                        run_of((last.0, end, (last.2 + 1) as u64)),
                    ));
                } else {
                    runs.push((start, end, 1));
                    if k > 0 {
                        assert(all_runs(old_runs).last() == run_of(old_runs.last()));
                    }
                    assert(all_runs(runs@) =~= all_runs(old_runs).push(run_of((start, end, 1))));
                }
            },
            None => {
                assert(done =~= all);
                return runs;
            },
        }
    }
}

/// The run as a section of the layout.
fn run_to_section(r: &(u64, u64, u64)) -> (s: Section)
    requires
        r.0 <= r.1,
    ensures
        s@ == run_section(run_of(*r)),
{
    let mut note: String = num::decimal(r.2);
    strs::push_text(&mut note, " contiguous frames");
    Section { offset: r.0, end: r.1, size: r.1 - r.0, note }
}

/// The stretch from `start` to `end` as a section of the layout.
fn gap_to_section(buf: &[u8], start: u64, end: u64) -> (s: Section)
    requires
        start <= end <= buf@.len(),
    ensures
        s@ == gap_section(buf@, Span { start: start as int, end: end as int }),
{
    let n: usize = buf.len();
    let note: String = classify_gap(slice_subrange(buf, start as usize, end as usize));
    Section { offset: start, end, size: end - start, note }
}

proof fn lemma_total_push(v: Seq<Span>, s: Span)
    ensures
        total(v.push(s)) == total(v) + s.end - s.start,
    decreases v.len(),
{
    reveal_with_fuel(total, 2);
    if v.len() == 0 {
        assert(v.push(s).skip(1) =~= Seq::empty());
    } else {
        assert(v.push(s).skip(1) =~= v.skip(1).push(s));
        lemma_total_push(v.skip(1), s);
    }
}

/// The stretches that no run takes, as sections of the layout, and how many
/// bytes they hold.
fn find_trailers(buf: &[u8], runs: &Vec<(u64, u64, u64)>, first: u64, end: u64) -> (r: (
    Vec<Section>,
    u64,
))
    requires
        ordered(spans(all_runs(runs@)), first as int, end as int),
        end <= buf@.len(),
    ensures
        sections(r.0@) == gaps(spans(all_runs(runs@)), first as int, end as int).map_values(
            |s: Span| gap_section(buf@, s),
        ),
        r.1 == total(gaps(spans(all_runs(runs@)), first as int, end as int)),
{
    let ghost list = spans(all_runs(runs@));
    let ghost all = gaps(list, first as int, end as int);
    let ghost mut found: Seq<Span> = Seq::empty();
    let ghost show = |s: Span| gap_section(buf@, s);
    let mut trailers: Vec<Section> = Vec::new();
    let mut gap_bytes: u64 = 0;
    let mut cursor: u64 = first;
    proof {
        lemma_ordered_start(list, first as int, end as int);
    }
    assert(list.skip(0) =~= list);
    assert(found + all =~= all);
    assert(sections(trailers@) =~= found.map_values(show));
    for i in 0..runs.len()
        invariant
            list == spans(all_runs(runs@)),
            show == |s: Span| gap_section(buf@, s),
            ordered(list.skip(i as int), cursor as int, end as int),
            first <= cursor <= end <= buf@.len(),
            gap_bytes <= cursor,
            found + gaps(list.skip(i as int), cursor as int, end as int) == all,
            gap_bytes == total(found),
            sections(trailers@) == found.map_values(show),
    {
        let s: u64 = runs[i].0;
        let e: u64 = runs[i].1;
        let ghost rest = list.skip(i as int);
        assert(rest[0] == list[i as int]);
        assert(list[i as int] == Span { start: s as int, end: e as int });
        assert(rest.skip(1) =~= list.skip(i + 1));
        proof {
            lemma_ordered_start(rest.skip(1), e as int, end as int);
        }
        let ghost before = found;
        if s > cursor {
            let ghost span = Span { start: cursor as int, end: s as int };
            let section: Section = gap_to_section(buf, cursor, s);
            let ghost seen = trailers@;
            trailers.push(section);
            gap_bytes = gap_bytes + (s - cursor);
            proof {
                lemma_total_push(found, span);
                found = found.push(span);
                assert(sections(trailers@) =~= sections(seen).push(section@));
                assert(sections(trailers@) =~= found.map_values(show));
            }
        }
        assert(before + gaps(rest, cursor as int, end as int) =~= found + gaps(
            rest.skip(1),
            e as int,
            end as int,
        ));
        cursor = e;
    }
    let ghost rest = list.skip(runs@.len() as int);
    assert(rest =~= Seq::empty());
    if cursor < end {
        let ghost span = Span { start: cursor as int, end: end as int };
        let section: Section = gap_to_section(buf, cursor, end);
        let ghost seen = trailers@;
        trailers.push(section);
        gap_bytes = gap_bytes + (end - cursor);
        proof {
            lemma_total_push(found, span);
            assert(found + gaps(rest, cursor as int, end as int) =~= found.push(span));
            found = found.push(span);
            assert(sections(trailers@) =~= sections(seen).push(section@));
            assert(sections(trailers@) =~= found.map_values(show));
        }
    }
    assert(found =~= all);
    (trailers, gap_bytes)
}

/// The layout of a file.
pub fn analyze(pf: &ProjectFile) -> (r: Layout)
    ensures
        r@ == layout_of(pf.data@),
{
    let buf: &[u8] = pf.bytes();
    let n: u64 = buf.len() as u64;
    let used: u64 = match Header::parse(buf) {
        Some(h) => h.used_size,
        None => n,
    };
    let used_clamp: u64 = if used <= n {
        used
    } else {
        n
    };
    // Confirm the tail past used_size is all zero.
    let tail: &[u8] = slice_subrange(buf, used_clamp as usize, buf.len());
    assert(tail@ =~= buf@.skip(live_end(buf@)));
    let tail_zero: bool = bytes::all_zero(tail);
    // Walk top-level frames to identify contiguous runs.
    proof {
        lemma_live_runs(buf@);
    }
    let active: &[u8] = slice_subrange(buf, 0, used_clamp as usize);
    assert(active@ =~= buf@.take(live_end(buf@)));
    let runs: Vec<(u64, u64, u64)> = find_runs(active);
    let ghost list = runs_of(live_frames(buf@));
    // The header run is everything before the first frame.
    let first: u64 = if runs.len() > 0 {
        assert(all_runs(runs@)[0] == run_of(runs@[0]));
        runs[0].0
    } else {
        used_clamp
    };
    let header_run: Section = Section {
        offset: 0,
        end: first,
        size: first,
        note: "fixed header (256B) + extended header & schema tables up to first frame run".to_owned(),
    };
    let mut frame_runs: Vec<Section> = Vec::new();
    for i in 0..runs.len()
        invariant
            list == all_runs(runs@),
            ordered(spans(list), first as int, used_clamp as int),
            sections(frame_runs@) == list.map_values(|r: Run| run_section(r)).take(i as int),
    {
        assert(list[i as int] == run_of(runs@[i as int]));
        proof {
            lemma_ordered_at(spans(list), first as int, used_clamp as int, i as int);
        }
        let section: Section = run_to_section(&runs[i]);
        let ghost seen = frame_runs@;
        frame_runs.push(section);
        assert(sections(frame_runs@) =~= sections(seen).push(section@));
        assert(sections(frame_runs@) =~= list.map_values(|r: Run| run_section(r)).take(i + 1));
    }
    assert(sections(frame_runs@) =~= list.map_values(|r: Run| run_section(r)));
    // Trailers: the bytes between consecutive runs, and after the last one.
    let (trailers, gap_bytes): (Vec<Section>, u64) = find_trailers(buf, &runs, first, used_clamp);
    assert(sections(trailers@).len() == trailers@.len());
    let gap_count: u64 = trailers.len() as u64;
    Layout {
        file_size: n,
        used_size: used,
        tail_zero_bytes: if n > used {
            n - used
        } else {
            0
        },
        tail_zero_verified: tail_zero,
        header_run,
        frame_runs,
        trailers,
        gap_count,
        gap_bytes,
    }
}

proof fn lemma_ordered_at(v: Seq<Span>, from: int, to: int, i: int)
    requires
        ordered(v, from, to),
        0 <= i < v.len(),
    ensures
        v[i].start < v[i].end,
    decreases v.len(),
{
    if i > 0 {
        lemma_ordered_at(v.skip(1), v[0].end, to, i - 1);
    }
}

} // verus!
