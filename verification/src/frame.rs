//! Frame detection.
//!
//! A frame is `[outer: u32 BE][inner: u32 BE][payload: inner]` where
//! `outer == inner + 8`. Those eight bytes are all that the walker matches
//! on: structure, never content.

use vstd::prelude::*;
use vstd::slice::slice_subrange;

use crate::bytes;
use crate::file::ProjectFile;
use crate::num;

verus! {

#[derive(Debug, Clone, Copy, PartialEq, Eq, Structural)]
pub struct Frame {
    /// Byte offset of the 8-byte header.
    pub offset: usize,
    /// Outer length, always `inner + 8`.
    pub outer: u32,
    /// Payload length.
    pub inner: u32,
}

impl Frame {
    /// The frame lies in a buffer of the given bytes, header included.
    pub open spec fn fits(self, buf: Seq<u8>) -> bool {
        self.outer >= 8 && self.offset + self.outer <= buf.len()
    }

    /// The payload, where the frame lies in `buf`.
    pub open spec fn body(self, buf: Seq<u8>) -> Seq<u8> {
        buf.subrange(self.offset + 8, self.offset + self.outer)
    }

    pub fn payload_start(&self) -> (r: usize)
        requires
            self.offset + 8 <= usize::MAX,
        ensures
            r == self.offset + 8,
    {
        self.offset + 8
    }

    pub fn payload_end(&self) -> (r: usize)
        requires
            self.offset + self.outer <= usize::MAX,
        ensures
            r == self.offset + self.outer,
    {
        self.offset + self.outer as usize
    }

    pub fn payload<'a>(&self, buf: &'a [u8]) -> (r: &'a [u8])
        requires
            self.fits(buf@),
        ensures
            r@ == self.body(buf@),
            r@.len() == self.outer - 8,
    {
        let n: usize = buf.len();
        slice_subrange(buf, self.payload_start(), self.payload_end())
    }
}

/// What a walk over a buffer looks at: the bytes, where it stands, which
/// payload lengths it accepts, and whether frames may overlap.
pub struct Scan {
    pub buf: Seq<u8>,
    pub pos: int,
    pub min: u32,
    pub max: u32,
    pub overlap: bool,
}

/// The frame that the eight bytes at `i` describe.
pub open spec fn frame_at(buf: Seq<u8>, i: int) -> Frame {
    Frame {
        offset: i as usize,
        outer: num::big_endian(buf.subrange(i, i + 4)) as u32,
        inner: num::big_endian(buf.subrange(i + 4, i + 8)) as u32,
    }
}

impl Scan {
    /// A frame of an accepted length starts at `i` and ends within the bytes.
    pub open spec fn signed_at(self, i: int) -> bool {
        let f = frame_at(self.buf, i);
        &&& 0 <= i
        &&& i + 8 <= self.buf.len()
        &&& f.outer == f.inner + 8
        &&& self.min <= f.inner <= self.max
        &&& i + f.outer <= self.buf.len()
    }

    pub open spec fn at(self, pos: int) -> Scan {
        Scan { pos, ..self }
    }

    /// Where the walk goes on after a frame at `i`.
    pub open spec fn after(self, i: int) -> int {
        if self.overlap {
            i + 1
        } else {
            i + frame_at(self.buf, i).outer
        }
    }

    /// Every frame that the walk will find, in order.
    pub open spec fn frames(self) -> Seq<Frame>
        decreases self.buf.len() - self.pos,
    {
        if self.pos < 0 || self.pos + 8 > self.buf.len() {
            Seq::empty()
        } else if self.signed_at(self.pos) {
            seq![frame_at(self.buf, self.pos)] + self.at(self.after(self.pos)).frames()
        } else {
            self.at(self.pos + 1).frames()
        }
    }
}

/// The scan of a whole buffer for payloads of `min` to `max` bytes.
pub open spec fn scan_of(buf: Seq<u8>, min: u32, max: u32) -> Scan {
    Scan { buf, pos: 0, min, max, overlap: false }
}

/// The bytes that frames take, headers included.
pub open spec fn total_outer(frames: Seq<Frame>) -> nat
    decreases frames.len(),
{
    if frames.len() == 0 {
        0
    } else {
        frames[0].outer as nat + total_outer(frames.skip(1))
    }
}

/// Walker over every valid frame in a slice.
///
/// Frames are not aligned to a fixed boundary, so the walker advances one
/// byte at a time looking for the signature. On a match it jumps past the
/// frame's outer length unless `overlap(true)` is set.
pub struct FrameIter<'a> {
    buf: &'a [u8],
    pos: usize,
    min_inner: u32,
    max_inner: u32,
    allow_overlap: bool,
}

impl<'a> View for FrameIter<'a> {
    type V = Scan;

    closed spec fn view(&self) -> Scan {
        Scan {
            buf: self.buf@,
            pos: self.pos as int,
            min: self.min_inner,
            max: self.max_inner,
            overlap: self.allow_overlap,
        }
    }
}

impl<'a> FrameIter<'a> {
    #[verifier::type_invariant]
    closed spec fn within(self) -> bool {
        self.pos <= self.buf@.len()
    }

    pub fn new(buf: &'a [u8]) -> (r: Self)
        ensures
            r@ == (Scan { buf: buf@, pos: 0, min: 1, max: 0x7fff_ffff, overlap: false }),
    {
        FrameIter { buf, pos: 0, min_inner: 1, max_inner: u32::MAX / 2, allow_overlap: false }
    }

    /// The bytes that the walk looks at.
    pub fn bytes(&self) -> (r: &'a [u8])
        ensures
            r@ == self@.buf,
    {
        self.buf
    }

    pub fn min_inner(self, v: u32) -> (r: Self)
        ensures
            r@ == (Scan { min: v, ..self@ }),
    {
        proof {
            use_type_invariant(&self);
        }
        FrameIter { min_inner: v, ..self }
    }

    pub fn max_inner(self, v: u32) -> (r: Self)
        ensures
            r@ == (Scan { max: v, ..self@ }),
    {
        proof {
            use_type_invariant(&self);
        }
        FrameIter { max_inner: v, ..self }
    }

    pub fn overlap(self, yes: bool) -> (r: Self)
        ensures
            r@ == (Scan { overlap: yes, ..self@ }),
    {
        proof {
            use_type_invariant(&self);
        }
        FrameIter { allow_overlap: yes, ..self }
    }

    /// The next frame, or `None` where no more is to be found.
    pub fn next(&mut self) -> (r: Option<Frame>)
        ensures
            final(self)@ == old(self)@.at(final(self)@.pos),
            old(self)@.pos <= final(self)@.pos <= old(self)@.buf.len(),
            r matches Some(f) ==> {
                &&& old(self)@.pos <= f.offset
                &&& old(self)@.signed_at(f.offset as int)
                &&& forall|j: int| old(self)@.pos <= j < f.offset ==> !old(self)@.signed_at(j)
                &&& f == frame_at(old(self)@.buf, f.offset as int)
                &&& final(self)@.pos == old(self)@.after(f.offset as int)
                &&& old(self)@.frames() == seq![f] + final(self)@.frames()
                &&& f.fits(old(self)@.buf)
                &&& f.inner == f.outer - 8
            },
            r is None ==> {
                &&& forall|j: int| old(self)@.pos <= j ==> !old(self)@.signed_at(j)
                &&& old(self)@.frames() == Seq::<Frame>::empty()
                &&& final(self)@.frames() == Seq::<Frame>::empty()
            },
    {
        proof {
            use_type_invariant(&*self);
        }
        let n: usize = self.buf.len();
        let ghost start = self@;
        while self.pos <= n && n - self.pos >= 8
            invariant
                n == self.buf@.len(),
                self.pos <= n,
                start == old(self)@,
                start.pos <= self.pos,
                self@ == start.at(self.pos as int),
                forall|j: int| start.pos <= j < self.pos ==> !start.signed_at(j),
                start.frames() == self@.frames(),
            decreases n - self.pos,
        {
            let i: usize = self.pos;
            let outer: u32 = bytes::be32(self.buf, i);
            let inner: u32 = bytes::be32(self.buf, i + 4);
            if outer >= 8 && outer - 8 == inner && inner >= self.min_inner && inner <= self.max_inner
                && outer as usize <= n - i {
                let f: Frame = Frame { offset: i, outer, inner };
                assert(f == frame_at(start.buf, i as int));
                assert(start.signed_at(i as int));
                self.pos = if self.allow_overlap {
                    i + 1
                } else {
                    i + outer as usize
                };
                return Some(f);
            }
            assert(!start.signed_at(i as int));
            self.pos = i + 1;
        }
        None
    }

    /// Every frame from here on.
    pub fn collect(self) -> (r: Vec<Frame>)
        ensures
            r@ == self@.frames(),
            forall|i: int| 0 <= i < r@.len() ==> (#[trigger] r@[i]).fits(self@.buf),
    {
        proof {
            use_type_invariant(&self);
        }
        let mut it: FrameIter<'a> = self;
        let mut out: Vec<Frame> = Vec::new();
        let ghost whole = it@.frames();
        assert(out@ + it@.frames() =~= whole);
        loop
            invariant
                it@.buf == self@.buf,
                it@.pos <= it@.buf.len(),
                whole == self@.frames(),
                out@ + it@.frames() == whole,
                forall|i: int| 0 <= i < out@.len() ==> (#[trigger] out@[i]).fits(self@.buf),
            decreases it@.buf.len() - it@.pos,
        {
            let ghost seen = out@;
            let ghost rest = it@.frames();
            match it.next() {
                Some(f) => {
                    out.push(f);
                    assert(seen + rest =~= out@ + it@.frames());
                },
                None => {
                    assert(out@ =~= whole);
                    return out;
                },
            }
        }
    }
}

/// Shortcut: walk the frames of a whole `ProjectFile`.
pub fn iter_frames<'a>(pf: &ProjectFile<'a>) -> (r: FrameIter<'a>)
    ensures
        r@ == scan_of(pf.data@, 1, 0x7fff_ffff),
{
    FrameIter::new(pf.bytes())
}

impl Scan {
    /// A walk over bytes that a machine can hold, standing within them.
    pub open spec fn valid(self) -> bool {
        0 <= self.pos && self.buf.len() <= usize::MAX
    }
}

/// Every frame that a walk finds carries its signature, lies within the
/// bytes, and starts no earlier than the walk did.
pub proof fn law_frames_fit(s: Scan, k: int)
    requires
        s.valid(),
        0 <= k < s.frames().len(),
    ensures
        s.frames()[k].fits(s.buf),
        s.frames()[k].inner == s.frames()[k].outer - 8,
        s.signed_at(s.frames()[k].offset as int),
        s.frames()[k] == frame_at(s.buf, s.frames()[k].offset as int),
        s.pos <= s.frames()[k].offset,
    decreases s.buf.len() - s.pos,
{
    if s.signed_at(s.pos) {
        if k > 0 {
            law_frames_fit(s.at(s.after(s.pos)), k - 1);
        }
    } else {
        law_frames_fit(s.at(s.pos + 1), k);
    }
}

/// Without overlap, a frame ends before the next one starts.
pub proof fn law_frames_disjoint(s: Scan, i: int, j: int)
    requires
        s.valid(),
        !s.overlap,
        0 <= i < j < s.frames().len(),
    ensures
        s.frames()[i].offset + s.frames()[i].outer <= s.frames()[j].offset,
    decreases s.buf.len() - s.pos,
{
    if s.signed_at(s.pos) {
        let t = s.at(s.after(s.pos));
        if i > 0 {
            law_frames_disjoint(t, i - 1, j - 1);
        } else {
            law_frames_fit(t, j - 1);
        }
    } else {
        law_frames_disjoint(s.at(s.pos + 1), i, j);
    }
}

/// No signature is passed over: each lies at a frame that is found, or within
/// one.
pub proof fn law_frames_complete(s: Scan, p: int) -> (k: int)
    requires
        s.valid(),
        s.pos <= p,
        s.signed_at(p),
    ensures
        0 <= k < s.frames().len(),
        s.frames()[k].offset <= p < s.frames()[k].offset + s.frames()[k].outer,
        s.overlap ==> s.frames()[k].offset == p,
    decreases s.buf.len() - s.pos,
{
    if s.signed_at(s.pos) {
        if p < s.after(s.pos) {
            0
        } else {
            1 + law_frames_complete(s.at(s.after(s.pos)), p)
        }
    } else {
        law_frames_complete(s.at(s.pos + 1), p)
    }
}

/// Without overlap, the frames of a walk take no more bytes than it passes.
pub proof fn law_frames_take_at_most_the_bytes(s: Scan)
    requires
        s.valid(),
        !s.overlap,
        s.pos <= s.buf.len(),
    ensures
        total_outer(s.frames()) <= s.buf.len() - s.pos,
    decreases s.buf.len() - s.pos,
{
    if s.pos + 8 > s.buf.len() {
    } else if s.signed_at(s.pos) {
        law_frames_take_at_most_the_bytes(s.at(s.after(s.pos)));
        assert(s.frames().skip(1) =~= s.at(s.after(s.pos)).frames());
    } else {
        law_frames_take_at_most_the_bytes(s.at(s.pos + 1));
    }
}

/// `b` is the frame that carries `payload`.
pub open spec fn frames_payload(b: Seq<u8>, payload: Seq<u8>) -> bool {
    &&& b.len() == payload.len() + 8
    &&& num::big_endian(b.subrange(0, 4)) == payload.len() + 8
    &&& num::big_endian(b.subrange(4, 8)) == payload.len()
    &&& b.subrange(8, b.len() as int) == payload
}

/// The frames lie in `buf` and carry the given payloads.
pub open spec fn carry(frames: Seq<Frame>, buf: Seq<u8>, payloads: Seq<Seq<u8>>) -> bool {
    &&& frames.len() == payloads.len()
    &&& forall|i: int|
        0 <= i < payloads.len() ==> (#[trigger] frames[i]).fits(buf) && frames[i].body(buf)
            == payloads[i]
}

/// Four bytes write a number of 32 bits.
proof fn lemma_four_bytes(b: Seq<u8>)
    requires
        b.len() == 4,
    ensures
        num::big_endian(b) <= u32::MAX,
{
    reveal_with_fuel(num::big_endian, 5);
}

/// Frames that stand back to back are all found, one by one, with the
/// payloads that they carry.
pub proof fn law_frames_back_to_back(
    before: Seq<u8>,
    encoded: Seq<Seq<u8>>,
    payloads: Seq<Seq<u8>>,
    min: u32,
    max: u32,
)
    requires
        (before + encoded.flatten()).len() <= usize::MAX,
        encoded.len() == payloads.len(),
        forall|i: int|
            0 <= i < payloads.len() ==> #[trigger] frames_payload(encoded[i], payloads[i]) && min
                <= payloads[i].len() <= max,
    ensures
        carry(
            scan_of(before + encoded.flatten(), min, max).at(before.len() as int).frames(),
            before + encoded.flatten(),
            payloads,
        ),
    decreases payloads.len(),
{
    let buf = before + encoded.flatten();
    let s = scan_of(buf, min, max).at(before.len() as int);
    if payloads.len() == 0 {
        assert(encoded =~= Seq::empty());
        assert(buf =~= before);
    } else {
        assert(frames_payload(encoded[0], payloads[0]));
        let e = encoded[0];
        lemma_four_bytes(e.subrange(0, 4));
        let rest = encoded.drop_first();
        assert(buf =~= (before + e) + rest.flatten());
        let p = before.len() as int;
        assert(buf.subrange(p, p + 4) =~= e.subrange(0, 4));
        assert(buf.subrange(p + 4, p + 8) =~= e.subrange(4, 8));
        assert(s.signed_at(p));
        assert(frame_at(buf, p).body(buf) =~= payloads[0]);
        let tail = payloads.drop_first();
        assert forall|i: int| 0 <= i < tail.len() implies #[trigger] frames_payload(
            rest[i],
            tail[i],
        ) && min <= tail[i].len() <= max by {
            assert(frames_payload(encoded[i + 1], payloads[i + 1]));
            assert(rest[i] == encoded[i + 1]);
            assert(tail[i] == payloads[i + 1]);
        }
        law_frames_back_to_back(before + e, rest, tail, min, max);
        let t = s.at(s.after(p));
        assert(t == scan_of(buf, min, max).at((before + e).len() as int));
        assert(s.frames() == seq![frame_at(buf, p)] + t.frames());
        assert(s.frames().len() == payloads.len());
        assert forall|i: int| 0 <= i < payloads.len() implies (#[trigger] s.frames()[i]).fits(buf)
            && s.frames()[i].body(buf) == payloads[i] by {
            if i > 0 {
                assert(s.frames()[i] == t.frames()[i - 1]);
                assert(tail[i - 1] == payloads[i]);
            }
        }
    }
}

} // verus!
