//! What the command line shows of frames and blobs.

use vstd::prelude::*;
use vstd::slice::slice_to_vec;

use crate::bytes;
use crate::classify;
use crate::classify::Kind;
use crate::file::ProjectFile;
use crate::frame;
use crate::frame::Frame;
use crate::frame::FrameIter;
use crate::num;
use crate::strs;
use crate::text;

verus! {

/// The name of a kind.
pub open spec fn kind_name(k: Kind) -> Seq<char> {
    match k {
        Kind::HttpRequest => "http_request"@,
        Kind::HttpResponse => "http_response"@,
        Kind::Utf16Text => "utf16_text"@,
        Kind::Utf8Text => "utf8_text"@,
        Kind::Json => "json"@,
        Kind::SmallId => "small_id"@,
        Kind::StateBlob => "state_blob"@,
        Kind::Empty => "empty"@,
        Kind::Unknown => "unknown"@,
    }
}

/// The name of a kind.
pub fn kind_to_str(k: &Kind) -> (r: &'static str)
    ensures
        r@ == kind_name(*k),
{
    match k {
        Kind::HttpRequest => "http_request",
        Kind::HttpResponse => "http_response",
        Kind::Utf16Text => "utf16_text",
        Kind::Utf8Text => "utf8_text",
        Kind::Json => "json",
        Kind::SmallId => "small_id",
        Kind::StateBlob => "state_blob",
        Kind::Empty => "empty",
        Kind::Unknown => "unknown",
    }
}

/// A byte as it is shown: printable ASCII as it is, line breaks and tabs
/// escaped, the rest as a dot.
pub open spec fn shown_byte(b: u8) -> Seq<char> {
    if 0x20 <= b <= 0x7e {
        seq![b as char]
    } else if b == 10 {
        "\\n"@
    } else if b == 13 {
        "\\r"@
    } else if b == 9 {
        "\\t"@
    } else {
        "."@
    }
}

pub open spec fn shown_bytes(b: Seq<u8>) -> Seq<char>
    decreases b.len(),
{
    if b.len() == 0 {
        Seq::empty()
    } else {
        shown_bytes(b.drop_last()) + shown_byte(b.last())
    }
}

/// The first bytes of a payload, at most `n`, as they are shown.
pub open spec fn preview_of(p: Seq<u8>, n: int) -> Seq<char> {
    shown_bytes(p.take(classify::least(p.len() as int, n)))
}

/// Show the first bytes of a payload, at most `n`.
pub fn ascii_preview(p: &[u8], n: usize) -> (r: String)
    ensures
        r@ == preview_of(p@, n as int),
{
    let n: usize = if p.len() <= n {
        p.len()
    } else {
        n
    };
    let mut s: String = String::new();
    assert(p@.take(0) =~= Seq::<u8>::empty());
    for i in 0..n
        invariant
            n <= p@.len(),
            s@ == shown_bytes(p@.take(i as int)),
    {
        assert(p@.take(i + 1).drop_last() =~= p@.take(i as int));
        let ghost before = s@;
        let b: u8 = p[i];
        if 0x20 <= b && b <= 0x7e {
            s.push(b as char);
            assert(s@ =~= before + shown_byte(b));
        } else if b == 10 {
            strs::push_text(&mut s, "\\n");
        } else if b == 13 {
            strs::push_text(&mut s, "\\r");
        } else if b == 9 {
            strs::push_text(&mut s, "\\t");
        } else {
            strs::push_text(&mut s, ".");
        }
        assert(s@ == before + shown_byte(b));
    }
    s
}

/// A character in a JSON string.
pub open spec fn json_char(c: char) -> Seq<char> {
    if c == '"' {
        seq!['\\', '"']
    } else if c == '\\' {
        seq!['\\', '\\']
    } else if c as u32 == 8 {
        seq!['\\', 'b']
    } else if c as u32 == 9 {
        seq!['\\', 't']
    } else if c as u32 == 10 {
        seq!['\\', 'n']
    } else if c as u32 == 12 {
        seq!['\\', 'f']
    } else if c as u32 == 13 {
        seq!['\\', 'r']
    } else if (c as u32) < 0x20 {
        seq!['\\', 'u', '0', '0'] + num::hex2(c as u8)
    } else {
        seq![c]
    }
}

pub open spec fn json_chars(s: Seq<char>) -> Seq<char>
    decreases s.len(),
{
    if s.len() == 0 {
        Seq::empty()
    } else {
        json_chars(s.drop_last()) + json_char(s.last())
    }
}

/// A text as a JSON string.
pub open spec fn json_string(s: Seq<char>) -> Seq<char> {
    seq!['"'] + json_chars(s) + seq!['"']
}

/// `serde_json::to_string` of a string writes it between quotes and escapes
/// quotes, backslashes and control characters below the space; it does not
/// fail on a string, so the empty fallback is never taken.
#[verifier::external_body]
fn to_json(s: &str) -> (r: String)
    ensures
        r@ == json_string(s@),
{
    serde_json::to_string(s).unwrap_or_default()
}

/// What a walk lists of a frame: nothing where its payload is too small or of
/// another kind than the one wanted, else one line.
pub open spec fn line_of(
    fr: Frame,
    buf: Seq<u8>,
    want: Option<Seq<char>>,
    min_size: int,
) -> Option<Seq<char>> {
    let p = fr.body(buf);
    let kind = kind_name(classify::kind_of(p));
    if fr.inner < min_size || (want is Some && want != Some(kind)) {
        None
    } else {
        Some(
            "{\"offset\":"@ + num::numeral(fr.offset as nat, 10) + ",\"size\":"@ + num::numeral(
                fr.inner as nat,
                10,
            ) + ",\"kind\":\""@ + kind + "\",\"head\":"@ + json_string(preview_of(p, 80)) + "}"@,
        )
    }
}

/// What a walk lists of a frame.
pub fn frame_line(fr: &Frame, buf: &[u8], want: Option<&str>, min_size: u32) -> (r: Option<String>)
    requires
        fr.fits(buf@),
    ensures
        strs::opt_text(r) == line_of(
            *fr,
            buf@,
            match want {
                Some(s) => Some(s@),
                None => None,
            },
            min_size as int,
        ),
{
    if fr.inner < min_size {
        return None;
    }
    let payload: &[u8] = fr.payload(buf);
    let k: Kind = classify::classify(payload);
    let name: &'static str = kind_to_str(&k);
    match want {
        Some(s) => {
            let wanted: Vec<char> = strs::chars_of(s);
            if !strs::is_text(&wanted, name) {
                return None;
            }
        },
        None => {},
    }
    let head: String = ascii_preview(payload, 80);
    let mut line: String = "{\"offset\":".to_owned();
    strs::push_text(&mut line, num::decimal(fr.offset as u64).as_str());
    strs::push_text(&mut line, ",\"size\":");
    strs::push_text(&mut line, num::decimal(fr.inner as u64).as_str());
    strs::push_text(&mut line, ",\"kind\":\"");
    strs::push_text(&mut line, name);
    strs::push_text(&mut line, "\",\"head\":");
    strs::push_text(&mut line, to_json(head.as_str()).as_str());
    strs::push_text(&mut line, "}");
    Some(line)
}

/// The lines that a walk lists of frames, at most `room` of them where that is
/// limited.
pub open spec fn listing_of(
    frames: Seq<Frame>,
    buf: Seq<u8>,
    want: Option<Seq<char>>,
    min_size: int,
    room: Option<nat>,
) -> Seq<Seq<char>>
    decreases frames.len(),
{
    if frames.len() == 0 || room == Some(0nat) {
        Seq::empty()
    } else {
        match line_of(frames[0], buf, want, min_size) {
            Some(line) => seq![line] + listing_of(
                frames.skip(1),
                buf,
                want,
                min_size,
                match room {
                    Some(n) => Some((n - 1) as nat),
                    None => None,
                },
            ),
            None => listing_of(frames.skip(1), buf, want, min_size, room),
        }
    }
}

/// A listing of frames, one line each.
pub struct Listing<'a> {
    frames: FrameIter<'a>,
    want: Option<&'a str>,
    min_size: u32,
    room: Option<u64>,
}

pub open spec fn opt_str(o: Option<&str>) -> Option<Seq<char>> {
    match o {
        Some(s) => Some(s@),
        None => None,
    }
}

pub open spec fn opt_nat(o: Option<u64>) -> Option<nat> {
    match o {
        Some(n) => Some(n as nat),
        None => None,
    }
}

impl<'a> Listing<'a> {
    /// The lines that are left.
    pub closed spec fn left(self) -> Seq<Seq<char>> {
        listing_of(
            self.frames@.frames(),
            self.frames@.buf,
            opt_str(self.want),
            self.min_size as int,
            opt_nat(self.room),
        )
    }

    /// List the frames of a file, those of one kind where one is wanted, with
    /// at least `min_size` bytes of payload, up to a limit.
    pub fn new(
        pf: &ProjectFile<'a>,
        want: Option<&'a str>,
        min_size: u32,
        limit: Option<u64>,
    ) -> (r: Self)
        ensures
            r.left() == listing_of(
                frame::scan_of(pf.data@, 1, 0x7fff_ffff).frames(),
                pf.data@,
                opt_str(want),
                min_size as int,
                opt_nat(limit),
            ),
    {
        Listing { frames: frame::iter_frames(pf).min_inner(1), want, min_size, room: limit }
    }

    /// The next line, or `None` where the listing ends.
    pub fn next(&mut self) -> (r: Option<String>)
        ensures
            match r {
                Some(line) => old(self).left() == seq![line@] + final(self).left(),
                None => old(self).left() == Seq::<Seq<char>>::empty(),
            },
    {
        let buf: &'a [u8] = self.frames.bytes();
        let ghost whole = self.left();
        loop
            invariant
                whole == old(self).left(),
                self.left() == whole,
                buf@ == self.frames@.buf,
            decreases self.frames@.buf.len() + 1 - self.frames@.pos,
        {
            if let Some(n) = self.room {
                if n == 0 {
                    return None;
                }
            }
            let ghost rest = self.frames@.frames();
            match self.frames.next() {
                Some(f) => {
                    assert(rest.skip(1) =~= self.frames@.frames());
                    match frame_line(&f, buf, self.want, self.min_size) {
                        Some(line) => {
                            self.room = match self.room {
                                Some(n) => Some(n - 1),
                                None => None,
                            };
                            return Some(line);
                        },
                        None => {},
                    }
                },
                None => {
                    return None;
                },
            }
        }
    }
}

/// A limit cuts a listing short and changes nothing else: the lines are the
/// first of those without it, and no more than the limit.
pub proof fn law_listing_within_its_limit(
    frames: Seq<Frame>,
    buf: Seq<u8>,
    want: Option<Seq<char>>,
    min_size: int,
    n: nat,
)
    ensures
        ({
            let all = listing_of(frames, buf, want, min_size, None);
            listing_of(frames, buf, want, min_size, Some(n)) == all.take(
                classify::least(all.len() as int, n as int),
            )
        }),
    decreases frames.len(),
{
    let all = listing_of(frames, buf, want, min_size, None);
    let some = listing_of(frames, buf, want, min_size, Some(n));
    let rest = listing_of(frames.skip(1), buf, want, min_size, None);
    if frames.len() > 0 && n > 0 {
        match line_of(frames[0], buf, want, min_size) {
            Some(line) => {
                law_listing_within_its_limit(frames.skip(1), buf, want, min_size, (n - 1) as nat);
                let k = classify::least(rest.len() as int, n - 1);
                assert(all.take(k + 1) =~= seq![line] + rest.take(k));
            },
            None => {
                law_listing_within_its_limit(frames.skip(1), buf, want, min_size, n);
            },
        }
    } else {
        assert(some =~= all.take(classify::least(all.len() as int, n as int)));
    }
}

/// Whether a listing of `n` lines goes on.
pub fn goes_on(n: u64, limit: Option<u64>) -> (r: bool)
    ensures
        r == match limit {
            Some(cap) => n < cap,
            None => true,
        },
{
    match limit {
        Some(cap) => n < cap,
        None => true,
    }
}

/// The extension and the bytes of the file that a payload is dumped to, where
/// it is of a kind that is dumped.
pub open spec fn dump_of(p: Seq<u8>) -> Option<(Seq<char>, Seq<u8>)> {
    match classify::kind_of(p) {
        Kind::Utf16Text => Some(("txt"@, bytes::utf8(text::best_reading(p)))),
        Kind::Json => Some(("json"@, p)),
        Kind::Utf8Text => Some(("txt"@, p)),
        Kind::StateBlob => Some(("bin"@, p)),
        _ => None,
    }
}

/// The name of the file that the `idx`-th dumped payload goes to.
pub open spec fn dump_name(idx: nat, start: nat, kind: Seq<char>, ext: Seq<char>) -> Seq<char> {
    num::padded(num::numeral(idx, 10), 8) + "_0x"@ + num::padded(num::numeral(start, 16), 8)
        + "_"@ + kind + "."@ + ext
}

/// Append a numeral with zeros in front, up to the given width.
fn push_padded(out: &mut String, n: u64, radix: u64, width: usize)
    requires
        2 <= radix <= 16,
    ensures
        final(out)@ == old(out)@ + num::padded(num::numeral(n as nat, radix as nat), width as nat),
{
    let ghost start = out@;
    let mut digits: String = String::new();
    num::push_numeral(&mut digits, n, radix);
    let ghost numeral = num::numeral(n as nat, radix as nat);
    assert(digits@ =~= numeral);
    let mut len: usize = strs::chars_of(digits.as_str()).len();
    let ghost zeros = if numeral.len() < width {
        width - numeral.len()
    } else {
        0
    };
    let ghost mut put: int = 0;
    while len < width
        invariant
            start == old(out)@,
            0 <= put <= zeros,
            len == numeral.len() + put,
            zeros == if numeral.len() < width {
                width - numeral.len()
            } else {
                0
            },
            out@ == start + Seq::new(put as nat, |i: int| '0'),
        decreases width - len,
    {
        out.push('0');
        len = len + 1;
        proof {
            put = put + 1;
        }
        assert(out@ =~= start + Seq::new(put as nat, |i: int| '0'));
    }
    strs::push_text(out, digits.as_str());
    assert(out@ =~= start + num::padded(numeral, width as nat));
}

/// What a payload is dumped as: the name of its file, and the bytes.
pub fn dump(fr: &Frame, buf: &[u8], idx: u64) -> (r: Option<(String, Vec<u8>)>)
    requires
        fr.fits(buf@),
        fr.offset + 8 <= usize::MAX,
    ensures
        match dump_of(fr.body(buf@)) {
            Some((ext, data)) => {
                &&& r matches Some(d)
                &&& d.0@ == dump_name(
                    idx as nat,
                    (fr.offset + 8) as nat,
                    kind_name(classify::kind_of(fr.body(buf@))),
                    ext,
                )
                &&& d.1@ == data
            },
            None => r is None,
        },
{
    let payload: &[u8] = fr.payload(buf);
    let k: Kind = classify::classify(payload);
    let (ext, data): (&'static str, Vec<u8>) = match k {
        Kind::Utf16Text => {
            let reading: String = text::decode_utf16_best_effort(payload);
            ("txt", slice_to_vec(reading.as_str().as_bytes()))
        },
        Kind::Json => ("json", slice_to_vec(payload)),
        Kind::Utf8Text => ("txt", slice_to_vec(payload)),
        Kind::StateBlob => ("bin", slice_to_vec(payload)),
        _ => {
            return None;
        },
    };
    let mut name: String = String::new();
    push_padded(&mut name, idx, 10, 8);
    strs::push_text(&mut name, "_0x");
    push_padded(&mut name, fr.payload_start() as u64, 16, 8);
    strs::push_text(&mut name, "_");
    strs::push_text(&mut name, kind_to_str(&k));
    strs::push_text(&mut name, ".");
    strs::push_text(&mut name, ext);
    assert(name@ =~= dump_name(
        idx as nat,
        (fr.offset + 8) as nat,
        kind_name(classify::kind_of(fr.body(buf@))),
        ext@,
    ));
    Some((name, data))
}

proof fn lemma_padded(s: Seq<char>, width: nat)
    requires
        num::all_digits(s, 10),
    ensures
        num::all_digits(num::padded(s, width), 10),
        num::value(num::padded(s, width), 10) == num::value(s, 10),
    decreases s.len(), width,
{
    let t = num::padded(s, width);
    assert forall|i: int| 0 <= i < t.len() implies #[trigger] num::digit_of(t[i], 10) is Some by {
        let zeros = t.len() - s.len();
        if i >= zeros {
            assert(t[i] == s[i - zeros]);
        }
    }
    if s.len() < width {
        if s.len() == 0 {
            let less = num::padded(s, (width - 1) as nat);
            lemma_padded(s, (width - 1) as nat);
            assert(t.drop_last() =~= less);
        } else {
            let init = s.drop_last();
            assert forall|i: int| 0 <= i < init.len() implies #[trigger] num::digit_of(
                init[i],
                10,
            ) is Some by {
                assert(init[i] == s[i]);
            }
            lemma_padded(init, (width - 1) as nat);
            assert(t.drop_last() =~= num::padded(init, (width - 1) as nat));
        }
    }
}

/// No dumped payload takes the file of another: two have different names.
pub proof fn law_dump_names_differ(
    i: nat,
    j: nat,
    a: nat,
    b: nat,
    k: Seq<char>,
    l: Seq<char>,
    e: Seq<char>,
    f: Seq<char>,
)
    requires
        i != j,
    ensures
        dump_name(i, a, k, e) != dump_name(j, b, l, f),
{
    let (x, y) = (dump_name(i, a, k, e), dump_name(j, b, l, f));
    let (m, n) = (num::padded(num::numeral(i, 10), 8), num::padded(num::numeral(j, 10), 8));
    num::law_numeral_reads_back(i, 10, i);
    num::law_numeral_reads_back(j, 10, j);
    lemma_padded(num::numeral(i, 10), 8);
    lemma_padded(num::numeral(j, 10), 8);
    reveal_strlit("_0x");
    assert(x[m.len() as int] == '_');
    assert(y[n.len() as int] == '_');
    assert(x.take(m.len() as int) =~= m);
    assert(y.take(n.len() as int) =~= n);
    if x == y {
        if m.len() < n.len() {
            assert(n[m.len() as int] == '_');
            assert(num::digit_of(n[m.len() as int], 10) is Some);
        } else if n.len() < m.len() {
            assert(m[n.len() as int] == '_');
            assert(num::digit_of(m[n.len() as int], 10) is Some);
        }
        assert(m == n);
    }
}

/// The file that a frame is dumped to, as the `idx`-th, where it is dumped.
pub open spec fn dump_at(fr: Frame, buf: Seq<u8>, idx: nat) -> Option<(Seq<char>, Seq<u8>)> {
    let p = fr.body(buf);
    match dump_of(p) {
        Some((ext, data)) => Some(
            (dump_name(idx, (fr.offset + 8) as nat, kind_name(classify::kind_of(p)), ext), data),
        ),
        None => None,
    }
}

/// The files that frames are dumped to, numbered from `idx` on.
pub open spec fn dumps_of(frames: Seq<Frame>, buf: Seq<u8>, idx: nat) -> Seq<(Seq<char>, Seq<u8>)>
    decreases frames.len(),
{
    if frames.len() == 0 {
        Seq::empty()
    } else {
        match dump_at(frames[0], buf, idx) {
            Some(d) => seq![d] + dumps_of(frames.skip(1), buf, idx + 1),
            None => dumps_of(frames.skip(1), buf, idx),
        }
    }
}

/// A dump of the payloads of frames, one file each.
pub struct Dumping<'a> {
    frames: FrameIter<'a>,
    idx: u64,
}

impl<'a> Dumping<'a> {
    /// No more files than bytes passed.
    pub closed spec fn sound(self) -> bool {
        self.idx <= self.frames@.pos <= self.frames@.buf.len() <= usize::MAX
    }

    /// The files that are left.
    pub closed spec fn left(self) -> Seq<(Seq<char>, Seq<u8>)> {
        dumps_of(self.frames@.frames(), self.frames@.buf, self.idx as nat)
    }

    /// How many files there were.
    pub closed spec fn written(self) -> nat {
        self.idx as nat
    }

    /// Dump the payloads of a file's frames.
    pub fn new(pf: &ProjectFile<'a>) -> (r: Self)
        ensures
            r.sound(),
            r.written() == 0,
            r.left() == dumps_of(
                frame::scan_of(pf.data@, 8, 0x7fff_ffff).frames(),
                pf.data@,
                0,
            ),
    {
        let frames: FrameIter<'a> = frame::iter_frames(pf).min_inner(8);
        let n: usize = frames.bytes().len();
        Dumping { frames, idx: 0 }
    }

    /// How many files there were.
    pub fn count(&self) -> (r: u64)
        ensures
            r == self.written(),
    {
        self.idx
    }

    /// The name and the bytes of the next file, or `None` where there is none
    /// left.
    pub fn next(&mut self) -> (r: Option<(String, Vec<u8>)>)
        requires
            old(self).sound(),
        ensures
            final(self).sound(),
            match r {
                Some(d) => {
                    &&& old(self).left() == seq![(d.0@, d.1@)] + final(self).left()
                    &&& final(self).written() == old(self).written() + 1
                },
                None => {
                    &&& old(self).left() == Seq::<(Seq<char>, Seq<u8>)>::empty()
                    &&& final(self).written() == old(self).written()
                },
            },
    {
        let buf: &'a [u8] = self.frames.bytes();
        let ghost whole = self.left();
        loop
            invariant
                whole == old(self).left(),
                self.left() == whole,
                self.sound(),
                self.idx == old(self).idx,
                buf@ == self.frames@.buf,
            decreases self.frames@.buf.len() - self.frames@.pos,
        {
            let ghost rest = self.frames@.frames();
            match self.frames.next() {
                Some(f) => {
                    assert(rest.skip(1) =~= self.frames@.frames());
                    match dump(&f, buf, self.idx) {
                        Some(d) => {
                            self.idx = self.idx + 1;
                            return Some(d);
                        },
                        None => {},
                    }
                },
                None => {
                    return None;
                },
            }
        }
    }
}

proof fn lemma_dumps_numbered(frames: Seq<Frame>, buf: Seq<u8>, idx: nat, k: int) -> (r: (
    nat,
    Seq<char>,
    Seq<char>,
))
    requires
        0 <= k < dumps_of(frames, buf, idx).len(),
    ensures
        dumps_of(frames, buf, idx)[k].0 == dump_name((idx + k) as nat, r.0, r.1, r.2),
    decreases frames.len(),
{
    let p = frames[0].body(buf);
    match dump_at(frames[0], buf, idx) {
        Some(d) => {
            if k == 0 {
                let (ext, data) = dump_of(p)->0;
                ((frames[0].offset + 8) as nat, kind_name(classify::kind_of(p)), ext)
            } else {
                lemma_dumps_numbered(frames.skip(1), buf, idx + 1, k - 1)
            }
        },
        None => lemma_dumps_numbered(frames.skip(1), buf, idx, k),
    }
}

/// No two files of a dump have the same name.
pub proof fn law_dumps_do_not_collide(frames: Seq<Frame>, buf: Seq<u8>, i: int, j: int)
    requires
        0 <= i < j < dumps_of(frames, buf, 0).len(),
    ensures
        dumps_of(frames, buf, 0)[i].0 != dumps_of(frames, buf, 0)[j].0,
{
    let a = lemma_dumps_numbered(frames, buf, 0, i);
    let b = lemma_dumps_numbered(frames, buf, 0, j);
    law_dump_names_differ(i as nat, j as nat, a.0, b.0, a.1, b.1, a.2, b.2);
}

} // verus!
