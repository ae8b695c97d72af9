//! Whole-file extraction. Walks the frame tree, classifies each payload,
//! and rolls everything up into a single `Findings` struct.

use std::collections::BTreeMap;

use vstd::prelude::*;
use vstd::slice::slice_subrange;
use vstd::slice::slice_to_vec;

use crate::body;
use crate::bytes;
use crate::classify;
use crate::classify::Kind;
use crate::codes;
use crate::counts;
use crate::counts::Counts;
use crate::file::ProjectFile;
use crate::frame;
use crate::frame::Frame;
use crate::frame::FrameIter;
use crate::header;
use crate::header::Header;
use crate::http;
use crate::http::HttpMessage;
use crate::http::HttpModel;
use crate::num;
use crate::project;
use crate::project::Blob;
use crate::project::MetaModel;
use crate::project::ProjectSummary;
use crate::project::StateBlobMeta;
use crate::project::SummaryModel;
use crate::strs;
use crate::text;

verus! {

#[derive(Debug)]
pub struct FrameRecord {
    pub offset: usize,
    pub size: u32,
    pub kind: Kind,
    pub preview: String,
}

#[derive(Debug)]
pub struct ConfigBlob {
    pub offset: usize,
    pub size: u32,
    pub encoding: &'static str,
    pub text: String,
}

#[derive(Debug, Default)]
pub struct StateBlobOut {
    pub offset: usize,
    pub size: u32,
    pub strings_utf16be: Vec<String>,
    pub strings_ascii: Vec<String>,
}

#[derive(Debug)]
pub struct Findings {
    pub file: String,
    pub size: usize,
    pub header: Option<Header>,
    pub stats: Stats,
    pub hosts: Counts,
    pub status_codes: BTreeMap<u16, u64>,
    pub methods: Counts,
    pub content_types: Counts,
    pub project: ProjectSummary,
    pub state_blob_index: Vec<StateBlobMeta>,
    pub http_messages: Vec<HttpMessage>,
    pub config_blobs: Vec<ConfigBlob>,
    pub state_blobs: Vec<StateBlobOut>,
    pub other_text: Vec<ConfigBlob>,
    pub json_blobs: Vec<ConfigBlob>,
    pub unknown_frames: Vec<FrameRecord>,
}

#[derive(Debug, Clone, Copy)]
pub struct Stats {
    pub total_frames: u64,
    pub bytes_in_frames: u64,
    pub bytes_in_gaps: u64,
    pub requests: u64,
    pub responses: u64,
    pub utf16_blobs: u64,
    pub state_blobs: u64,
    pub json_blobs: u64,
    pub small_ids: u64,
    pub unknown: u64,
}

#[derive(Debug, Clone, Copy)]
pub struct Options {
    pub body_cap: usize,
    pub include_unknown: bool,
    pub include_other_text: bool,
    pub max_frames: Option<u64>,
}

impl Default for Options {
    fn default() -> (r: Self)
        ensures
            r == (Options {
                body_cap: 0x1_0000,
                include_unknown: false,
                include_other_text: true,
                max_frames: None,
            }),
    {
        Options {
            body_cap: 64 * 1024,
            include_unknown: false,
            include_other_text: true,
            max_frames: None,
        }
    }
}

#[verifier::ext_equal]
pub struct RecordModel {
    pub offset: int,
    pub size: int,
    pub kind: Kind,
    pub preview: Seq<char>,
}

#[verifier::ext_equal]
pub struct ConfigModel {
    pub offset: int,
    pub size: int,
    pub encoding: Seq<char>,
    pub text: Seq<char>,
}

#[verifier::ext_equal]
pub struct StateModel {
    pub offset: int,
    pub size: int,
    pub strings_utf16be: Seq<Seq<char>>,
    pub strings_ascii: Seq<Seq<char>>,
}

#[verifier::ext_equal]
pub struct StatsModel {
    pub total_frames: nat,
    pub bytes_in_frames: nat,
    pub bytes_in_gaps: nat,
    pub requests: nat,
    pub responses: nat,
    pub utf16_blobs: nat,
    pub state_blobs: nat,
    pub json_blobs: nat,
    pub small_ids: nat,
    pub unknown: nat,
}

/// What the findings hold, with their texts as sequences of characters.
#[verifier::ext_equal]
pub struct FindingsModel {
    pub file: Seq<char>,
    pub size: int,
    pub header: Option<header::HeaderModel>,
    pub stats: StatsModel,
    pub hosts: Map<Seq<char>, nat>,
    pub status_codes: Map<u16, u64>,
    pub methods: Map<Seq<char>, nat>,
    pub content_types: Map<Seq<char>, nat>,
    pub project: SummaryModel,
    pub state_blob_index: Seq<MetaModel>,
    pub http_messages: Seq<HttpModel>,
    pub config_blobs: Seq<ConfigModel>,
    pub state_blobs: Seq<StateModel>,
    pub other_text: Seq<ConfigModel>,
    pub json_blobs: Seq<ConfigModel>,
    pub unknown_frames: Seq<RecordModel>,
}

pub open spec fn http_models(v: Seq<HttpMessage>) -> Seq<HttpModel> {
    v.map_values(|m: HttpMessage| m@)
}

pub open spec fn config_models(v: Seq<ConfigBlob>) -> Seq<ConfigModel> {
    v.map_values(|b: ConfigBlob| b@)
}

pub open spec fn state_models(v: Seq<StateBlobOut>) -> Seq<StateModel> {
    v.map_values(|b: StateBlobOut| b@)
}

pub open spec fn record_models(v: Seq<FrameRecord>) -> Seq<RecordModel> {
    v.map_values(|r: FrameRecord| r@)
}

impl View for FrameRecord {
    type V = RecordModel;

    open spec fn view(&self) -> RecordModel {
        RecordModel {
            offset: self.offset as int,
            size: self.size as int,
            kind: self.kind,
            preview: self.preview@,
        }
    }
}

impl View for ConfigBlob {
    type V = ConfigModel;

    open spec fn view(&self) -> ConfigModel {
        ConfigModel {
            offset: self.offset as int,
            size: self.size as int,
            encoding: self.encoding@,
            text: self.text@,
        }
    }
}

impl View for StateBlobOut {
    type V = StateModel;

    open spec fn view(&self) -> StateModel {
        StateModel {
            offset: self.offset as int,
            size: self.size as int,
            strings_utf16be: strs::texts(self.strings_utf16be@),
            strings_ascii: strs::texts(self.strings_ascii@),
        }
    }
}

impl View for Stats {
    type V = StatsModel;

    open spec fn view(&self) -> StatsModel {
        StatsModel {
            total_frames: self.total_frames as nat,
            bytes_in_frames: self.bytes_in_frames as nat,
            bytes_in_gaps: self.bytes_in_gaps as nat,
            requests: self.requests as nat,
            responses: self.responses as nat,
            utf16_blobs: self.utf16_blobs as nat,
            state_blobs: self.state_blobs as nat,
            json_blobs: self.json_blobs as nat,
            small_ids: self.small_ids as nat,
            unknown: self.unknown as nat,
        }
    }
}

impl View for Findings {
    type V = FindingsModel;

    open spec fn view(&self) -> FindingsModel {
        FindingsModel {
            file: self.file@,
            size: self.size as int,
            header: header::opt_header(self.header),
            stats: self.stats@,
            hosts: self.hosts@,
            status_codes: self.status_codes@,
            methods: self.methods@,
            content_types: self.content_types@,
            project: self.project@,
            state_blob_index: project::meta_models(self.state_blob_index@),
            http_messages: http_models(self.http_messages@),
            config_blobs: config_models(self.config_blobs@),
            state_blobs: state_models(self.state_blobs@),
            other_text: config_models(self.other_text@),
            json_blobs: config_models(self.json_blobs@),
            unknown_frames: record_models(self.unknown_frames@),
        }
    }
}

pub open spec fn blank_stats() -> StatsModel {
    StatsModel {
        total_frames: 0,
        bytes_in_frames: 0,
        bytes_in_gaps: 0,
        requests: 0,
        responses: 0,
        utf16_blobs: 0,
        state_blobs: 0,
        json_blobs: 0,
        small_ids: 0,
        unknown: 0,
    }
}

/// Findings with nothing in them.
pub open spec fn blank_findings() -> FindingsModel {
    FindingsModel {
        file: Seq::empty(),
        size: 0,
        header: None,
        stats: blank_stats(),
        hosts: Map::empty(),
        status_codes: Map::empty(),
        methods: Map::empty(),
        content_types: Map::empty(),
        project: project::blank_summary(),
        state_blob_index: Seq::empty(),
        http_messages: Seq::empty(),
        config_blobs: Seq::empty(),
        state_blobs: Seq::empty(),
        other_text: Seq::empty(),
        json_blobs: Seq::empty(),
        unknown_frames: Seq::empty(),
    }
}

impl Default for Stats {
    fn default() -> (r: Self)
        ensures
            r@ == blank_stats(),
    {
        Stats {
            total_frames: 0,
            bytes_in_frames: 0,
            bytes_in_gaps: 0,
            requests: 0,
            responses: 0,
            utf16_blobs: 0,
            state_blobs: 0,
            json_blobs: 0,
            small_ids: 0,
            unknown: 0,
        }
    }
}

impl Default for Findings {
    fn default() -> (r: Self)
        ensures
            r@ == blank_findings(),
    {
        let r: Findings = Findings {
            file: String::new(),
            size: 0,
            header: None,
            stats: Stats::default(),
            hosts: Counts::new(),
            status_codes: BTreeMap::new(),
            methods: Counts::new(),
            content_types: Counts::new(),
            project: ProjectSummary::default(),
            state_blob_index: Vec::new(),
            http_messages: Vec::new(),
            config_blobs: Vec::new(),
            state_blobs: Vec::new(),
            other_text: Vec::new(),
            json_blobs: Vec::new(),
            unknown_frames: Vec::new(),
        };
        assert(r@ =~= blank_findings());
        r
    }
}

/// Four numbers from 0 to 255.
pub open spec fn four_octets(labels: Seq<Seq<char>>) -> bool {
    labels.len() == 4 && forall|i: int|
        0 <= i < labels.len() ==> num::read(#[trigger] labels[i], 10, 255) is Some
}

/// A host name or an IPv4 address, which a port may follow.
pub open spec fn hostlike(h: Seq<char>) -> bool {
    let name = match strs::cut(h, ':') {
        Some((name, _)) => name,
        None => h,
    };
    let labels = strs::fields(name, '.');
    &&& 0 < strs::utf8_len(h) <= 253
    &&& name.contains('.')
    &&& strs::host_labels(labels)
    &&& four_octets(labels) || (labels.last().len() >= 2 && strs::all_alphabetic(labels.last()))
}

/// What follows the scheme of a web address.
pub open spec fn after_scheme(s: Seq<char>) -> Option<Seq<char>> {
    if strs::prefixed(s, "https://"@) {
        Some(s.skip(8))
    } else if strs::prefixed(s, "http://"@) {
        Some(s.skip(7))
    } else {
        None
    }
}

/// What stands before the first slash.
pub open spec fn before_slash(s: Seq<char>) -> Seq<char> {
    match strs::cut(s, '/') {
        Some((a, _)) => a,
        None => s,
    }
}

/// The host that a text names: that of a web address, or the text itself.
pub open spec fn host_in(s: Seq<char>) -> Option<Seq<char>> {
    let t = strs::trimmed(s);
    match after_scheme(t) {
        Some(rest) => if hostlike(before_slash(rest)) {
            Some(before_slash(rest))
        } else if hostlike(t) && !t.contains(' ') {
            Some(t)
        } else {
            None
        },
        None => if hostlike(t) && !t.contains(' ') {
            Some(t)
        } else {
            None
        },
    }
}

fn is_four_octets(labels: &Vec<&[char]>) -> (r: bool)
    ensures
        r == four_octets(strs::parts(labels@)),
{
    if labels.len() != 4 {
        return false;
    }
    for i in 0..labels.len()
        invariant
            labels@.len() == 4,
            forall|j: int|
                0 <= j < i ==> num::read(#[trigger] strs::parts(labels@)[j], 10, 255) is Some,
    {
        assert(strs::parts(labels@)[i as int] == labels@[i as int]@);
        if num::parse(labels[i], 10, 255).is_none() {
            return false;
        }
    }
    true
}

fn is_hostlike(h: &[char]) -> (r: bool)
    ensures
        r == hostlike(h@),
{
    if !strs::longer_than(h, 0) || strs::longer_than(h, 253) {
        return false;
    }
    let name: &[char] = match strs::cut_at(h, ':') {
        Some(p) => p.0,
        None => h,
    };
    if !strs::holds(name, '.') {
        return false;
    }
    let labels: Vec<&[char]> = strs::split_char(name, '.');
    proof {
        strs::lemma_pieces_nonempty(name@, seq!['.']);
        assert(strs::parts(labels@).len() == labels@.len());
    }
    if !strs::are_host_labels(&labels) {
        return false;
    }
    if is_four_octets(&labels) {
        return true;
    }
    let tld: &[char] = labels[labels.len() - 1];
    assert(strs::parts(labels@).last() == tld@);
    tld.len() >= 2 && strs::is_all_alphabetic(tld)
}

fn strip_scheme(s: &[char]) -> (r: Option<&[char]>)
    ensures
        match r {
            Some(rest) => after_scheme(s@) == Some(rest@),
            None => after_scheme(s@) is None,
        },
{
    let n: usize = s.len();
    proof {
        reveal_strlit("https://");
        reveal_strlit("http://");
    }
    if strs::starts_with(s, "https://") {
        let rest: &[char] = slice_subrange(s, 8, n);
        assert(rest@ =~= s@.skip(8));
        Some(rest)
    } else if strs::starts_with(s, "http://") {
        let rest: &[char] = slice_subrange(s, 7, n);
        assert(rest@ =~= s@.skip(7));
        Some(rest)
    } else {
        None
    }
}

/// The host that a string names.
pub fn host_from_string(s: &str) -> (r: Option<String>)
    ensures
        strs::opt_text(r) == host_in(s@),
{
    let c: Vec<char> = strs::chars_of(s);
    let t: &[char] = strs::trim(&c);
    match strip_scheme(t) {
        Some(rest) => {
            let host: &[char] = match strs::cut_at(rest, '/') {
                Some(p) => p.0,
                None => rest,
            };
            if is_hostlike(host) {
                return Some(strs::string_of(host));
            }
        },
        None => {},
    }
    if is_hostlike(t) && !strs::holds(t, ' ') {
        Some(strs::string_of(t))
    } else {
        None
    }
}

/// The bytes in hexadecimal, two digits each, with a space between.
pub open spec fn spaced_hex(b: Seq<u8>) -> Seq<char>
    decreases b.len(),
{
    if b.len() == 0 {
        Seq::empty()
    } else if b.len() == 1 {
        num::hex2(b[0])
    } else {
        spaced_hex(b.drop_last()) + seq![' '] + num::hex2(b.last())
    }
}

fn hex_preview(p: &[u8], n: usize) -> (r: String)
    ensures
        r@ == spaced_hex(p@.take(classify::least(p@.len() as int, n as int))),
{
    let n: usize = if p.len() <= n {
        p.len()
    } else {
        n
    };
    let mut s: String = String::new();
    assert(p@.take(0) =~= Seq::<u8>::empty());
    for i in 0..n
        invariant
            n <= p@.len(),
            s@ == spaced_hex(p@.take(i as int)),
    {
        assert(p@.take(i + 1).drop_last() =~= p@.take(i as int));
        if i > 0 {
            s.push(' ');
        }
        num::push_hex2(&mut s, p[i]);
        assert(s@ =~= spaced_hex(p@.take(i + 1)));
    }
    s
}

/// The counts with a name counted once more, where there is one.
pub open spec fn with_name(m: Map<Seq<char>, nat>, o: Option<Seq<char>>) -> Map<Seq<char>, nat> {
    match o {
        Some(k) => counts::counted(m, k),
        None => m,
    }
}

pub open spec fn media_type_of(m: HttpModel) -> Option<Seq<char>> {
    match m.content_type {
        Some(ct) => Some(body::media_type(ct)),
        None => None,
    }
}

/// Findings with one more message.
pub open spec fn with_message(f: FindingsModel, m: HttpModel) -> FindingsModel {
    let f = FindingsModel {
        content_types: with_name(f.content_types, media_type_of(m)),
        http_messages: f.http_messages.push(m),
        ..f
    };
    if m.kind == "request"@ {
        FindingsModel {
            stats: StatsModel { requests: f.stats.requests + 1, ..f.stats },
            hosts: with_name(f.hosts, m.host),
            methods: with_name(f.methods, m.method),
            ..f
        }
    } else {
        FindingsModel {
            stats: StatsModel { responses: f.stats.responses + 1, ..f.stats },
            status_codes: match m.status {
                Some(s) => codes::code_counted(f.status_codes, s as u16),
                None => f.status_codes,
            },
            ..f
        }
    }
}

/// The counts of hosts with those that some texts name.
pub open spec fn with_hosts(m: Map<Seq<char>, nat>, v: Seq<Seq<char>>) -> Map<Seq<char>, nat>
    decreases v.len(),
{
    if v.len() == 0 {
        m
    } else {
        with_name(with_hosts(m, v.drop_last()), host_in(v.last()))
    }
}

/// The bytes as UTF-8, or nothing where they are not valid.
pub open spec fn utf8_text(p: Seq<u8>) -> Seq<char> {
    match bytes::decoded(p) {
        Some(s) => s,
        None => Seq::empty(),
    }
}

/// Findings with the payload of a frame, which lies at `at` in the file.
#[verifier::opaque]
pub open spec fn with_payload(
    f: FindingsModel,
    p: Seq<u8>,
    fr: Frame,
    at: int,
    opts: Options,
) -> FindingsModel {
    let size = fr.inner as int;
    match classify::kind_of(p) {
        Kind::HttpRequest | Kind::HttpResponse => match http::message(
            p,
            at,
            opts.body_cap as int,
        ) {
            Some(m) => with_message(f, m),
            None => f,
        },
        Kind::Utf16Text => FindingsModel {
            stats: StatsModel { utf16_blobs: f.stats.utf16_blobs + 1, ..f.stats },
            config_blobs: f.config_blobs.push(
                ConfigModel {
                    offset: at,
                    size,
                    encoding: "utf-16"@,
                    text: text::best_reading(p),
                },
            ),
            ..f
        },
        Kind::Json => FindingsModel {
            stats: StatsModel { json_blobs: f.stats.json_blobs + 1, ..f.stats },
            json_blobs: f.json_blobs.push(
                ConfigModel { offset: at, size, encoding: "utf-8"@, text: utf8_text(p) },
            ),
            ..f
        },
        Kind::Utf8Text => if opts.include_other_text {
            FindingsModel {
                other_text: f.other_text.push(
                    ConfigModel { offset: at, size, encoding: "utf-8"@, text: utf8_text(p) },
                ),
                ..f
            }
        } else {
            f
        },
        Kind::StateBlob => {
            let utf16 = classify::runs16(p, 0, 4);
            let ascii = classify::runs8(p, 0, 6);
            FindingsModel {
                stats: StatsModel { state_blobs: f.stats.state_blobs + 1, ..f.stats },
                hosts: with_hosts(f.hosts, utf16 + ascii),
                state_blobs: f.state_blobs.push(
                    StateModel {
                        offset: at,
                        size,
                        strings_utf16be: utf16,
                        strings_ascii: ascii,
                    },
                ),
                ..f
            }
        },
        Kind::SmallId => FindingsModel {
            stats: StatsModel { small_ids: f.stats.small_ids + 1, ..f.stats },
            ..f
        },
        Kind::Empty => f,
        Kind::Unknown => FindingsModel {
            stats: StatsModel { unknown: f.stats.unknown + 1, ..f.stats },
            unknown_frames: if opts.include_unknown {
                f.unknown_frames.push(
                    RecordModel {
                        offset: at - 8,
                        size: fr.outer as int,
                        kind: Kind::Unknown,
                        preview: spaced_hex(p.take(classify::least(p.len() as int, 64))),
                    },
                )
            } else {
                f.unknown_frames
            },
            ..f
        },
    }
}

/// As many frames as wanted have been counted.
pub open spec fn sated(f: FindingsModel, opts: Options) -> bool {
    match opts.max_frames {
        Some(cap) => f.stats.total_frames >= cap,
        None => false,
    }
}

/// Findings with a frame counted, its payload aside.
pub open spec fn with_frame(f: FindingsModel, fr: Frame) -> FindingsModel {
    FindingsModel {
        stats: StatsModel {
            total_frames: f.stats.total_frames + 1,
            bytes_in_frames: f.stats.bytes_in_frames + fr.outer as nat,
            ..f.stats
        },
        ..f
    }
}

/// The largest payload that is accepted in a state blob at the given depth.
pub open spec fn max_inner_at(depth: nat) -> u32 {
    if depth == 0 {
        0x400_0000
    } else {
        0x200_0000
    }
}

/// The frames in a state blob at the given depth.
pub open spec fn nested(p: Seq<u8>, depth: nat) -> Seq<Frame> {
    frame::scan_of(p, 8, max_inner_at(depth)).frames()
}

/// Findings with what frames hold, those within state blobs included down to
/// the fourth depth, up to the number of frames wanted. The frames lie in
/// `slice`, which lies at `base` in the file.
pub open spec fn with_frames(
    f: FindingsModel,
    slice: Seq<u8>,
    frames: Seq<Frame>,
    base: int,
    opts: Options,
    depth: nat,
) -> FindingsModel
    decreases 5 - depth, frames.len(),
{
    if frames.len() == 0 || sated(f, opts) || depth > 4 {
        f
    } else {
        let fr = frames[0];
        let p = fr.body(slice);
        let at = base + fr.offset + 8;
        let g = with_payload(with_frame(f, fr), p, fr, at, opts);
        let h = if classify::kind_of(p) == Kind::StateBlob && depth < 4 {
            with_frames(g, p, nested(p, depth), at, opts, depth + 1)
        } else {
            g
        };
        with_frames(h, slice, frames.skip(1), base, opts, depth)
    }
}

/// The blob that a state blob's place in the file holds.
pub open spec fn reread(buf: Seq<u8>, b: StateModel) -> Blob {
    Blob {
        offset: b.offset,
        size: b.size,
        payload: if b.offset + b.size <= buf.len() {
            buf.subrange(b.offset, b.offset + b.size)
        } else {
            Seq::empty()
        },
    }
}

pub open spec fn reread_all(buf: Seq<u8>, v: Seq<StateModel>) -> Seq<Blob> {
    v.map_values(|b: StateModel| reread(buf, b))
}

/// What a walk over the whole file finds.
pub open spec fn walked(file: Seq<char>, buf: Seq<u8>, opts: Options) -> FindingsModel {
    with_frames(
        FindingsModel {
            file,
            size: buf.len() as int,
            header: header::header_of(buf),
            ..blank_findings()
        },
        buf,
        frame::scan_of(buf, 1, 0x400_0000).frames(),
        0,
        opts,
        0,
    )
}

/// Everything that a file holds.
pub open spec fn findings_of(file: Seq<char>, buf: Seq<u8>, opts: Options) -> FindingsModel {
    let f = walked(file, buf, opts);
    let blobs = reread_all(buf, f.state_blobs);
    FindingsModel {
        stats: StatsModel {
            bytes_in_gaps: if buf.len() > f.stats.bytes_in_frames {
                (buf.len() - f.stats.bytes_in_frames) as nat
            } else {
                0
            },
            ..f.stats
        },
        state_blob_index: project::metas_of(blobs),
        project: project::summary_of(blobs),
        ..f
    }
}

/// No count is above `limit`.
pub open spec fn counts_within(f: FindingsModel, limit: nat) -> bool {
    &&& f.stats.total_frames <= limit
    &&& f.stats.requests <= limit
    &&& f.stats.responses <= limit
    &&& f.stats.utf16_blobs <= limit
    &&& f.stats.state_blobs <= limit
    &&& f.stats.json_blobs <= limit
    &&& f.stats.small_ids <= limit
    &&& f.stats.unknown <= limit
    &&& forall|k: Seq<char>| #[trigger] f.hosts.dom().contains(k) ==> f.hosts[k] <= limit
    &&& forall|k: Seq<char>| #[trigger] f.methods.dom().contains(k) ==> f.methods[k] <= limit
    &&& forall|k: Seq<char>| #[trigger]
        f.content_types.dom().contains(k) ==> f.content_types[k] <= limit
    &&& forall|k: u16| #[trigger]
        f.status_codes.dom().contains(k) ==> f.status_codes[k] <= limit
}

proof fn lemma_runs16_few(p: Seq<u8>, i: int, min: nat)
    requires
        0 <= i <= p.len(),
    ensures
        2 * classify::runs16(p, i, min).len() <= p.len() - i,
    decreases p.len() - i,
{
    if i + 2 <= p.len() {
        let n = classify::run16(p, i);
        if n > 0 {
            classify::lemma_run16(p, i);
            lemma_runs16_few(p, i + 2 * n, min);
        } else {
            lemma_runs16_few(p, i + 1, min);
        }
    }
}

proof fn lemma_runs8_few(p: Seq<u8>, i: int, min: nat)
    requires
        0 <= i <= p.len() + 1,
        min >= 1,
    ensures
        2 * classify::runs8(p, i, min).len() <= p.len() + 1 - i,
    decreases p.len() + 1 - i,
{
    if i <= p.len() {
        let n = classify::run8(p, i);
        classify::lemma_run8(p, i);
        lemma_runs8_few(p, i + n + 1, min);
    }
}

fn count_some(m: &mut Counts, o: &Option<String>, Ghost(limit): Ghost<nat>)
    requires
        limit < u64::MAX,
        forall|k: Seq<char>| #[trigger] old(m)@.dom().contains(k) ==> old(m)@[k] <= limit,
    ensures
        final(m)@ == with_name(old(m)@, strs::opt_text(*o)),
        forall|k: Seq<char>| #[trigger] final(m)@.dom().contains(k) ==> final(m)@[k] <= limit + 1,
{
    match o {
        Some(s) => m.bump(s.as_str()),
        None => {},
    }
}

fn note_message(m: HttpMessage, f: &mut Findings, Ghost(limit): Ghost<nat>)
    requires
        limit < u64::MAX,
        counts_within(old(f)@, limit),
    ensures
        final(f)@ == with_message(old(f)@, m@),
        counts_within(final(f)@, limit + 1),
{
    let kind: Vec<char> = strs::chars_of(m.kind);
    if strs::is_text(&kind, "request") {
        f.stats.requests = f.stats.requests + 1;
        count_some(&mut f.hosts, &m.host, Ghost(limit));
        count_some(&mut f.methods, &m.method, Ghost(limit));
    } else {
        f.stats.responses = f.stats.responses + 1;
        match m.status {
            Some(s) => codes::bump(&mut f.status_codes, s),
            None => {},
        }
    }
    match &m.content_type {
        Some(ct) => {
            let base: String = strs::string_of(&body::base_type(ct.as_str()));
            f.content_types.bump(base.as_str());
        },
        None => {},
    }
    let ghost before = f.http_messages@;
    f.http_messages.push(m);
    assert(http_models(f.http_messages@) =~= http_models(before).push(m@));
}

/// Count the hosts that strings name.
fn count_hosts(strings: &Vec<String>, hosts: &mut Counts, Ghost(limit): Ghost<nat>)
    requires
        limit + strings@.len() <= u64::MAX,
        forall|k: Seq<char>| #[trigger] old(hosts)@.dom().contains(k) ==> old(hosts)@[k] <= limit,
    ensures
        final(hosts)@ == with_hosts(old(hosts)@, strs::texts(strings@)),
        forall|k: Seq<char>| #[trigger]
            final(hosts)@.dom().contains(k) ==> final(hosts)@[k] <= limit + strings@.len(),
{
    let ghost v = strs::texts(strings@);
    let ghost start = hosts@;
    assert(v.take(0) =~= Seq::<Seq<char>>::empty());
    for i in 0..strings.len()
        invariant
            v == strs::texts(strings@),
            start == old(hosts)@,
            limit + strings@.len() <= u64::MAX,
            hosts@ == with_hosts(start, v.take(i as int)),
            forall|k: Seq<char>| #[trigger]
                hosts@.dom().contains(k) ==> hosts@[k] <= limit + i,
    {
        assert(v.take(i + 1).drop_last() =~= v.take(i as int));
        assert(v.take(i + 1).last() == strings@[i as int]@);
        let host: Option<String> = host_from_string(strings[i].as_str());
        count_some(hosts, &host, Ghost((limit + i) as nat));
    }
    assert(v.take(v.len() as int) =~= v);
}

proof fn lemma_with_hosts_more(m: Map<Seq<char>, nat>, a: Seq<Seq<char>>, b: Seq<Seq<char>>)
    ensures
        with_hosts(with_hosts(m, a), b) == with_hosts(m, a + b),
    decreases b.len(),
{
    if b.len() == 0 {
        assert(a + b =~= a);
    } else {
        assert((a + b).drop_last() =~= a + b.drop_last());
        lemma_with_hosts_more(m, a, b.drop_last());
    }
}

/// The bytes as UTF-8, or nothing where they are not valid.
fn decode_or_empty(p: &[u8]) -> (r: String)
    ensures
        r@ == utf8_text(p@),
{
    match bytes::decode(p) {
        Some(s) => s,
        None => String::new(),
    }
}

fn push_config(list: &mut Vec<ConfigBlob>, b: ConfigBlob)
    ensures
        config_models(final(list)@) == config_models(old(list)@).push(b@),
{
    let ghost before = list@;
    list.push(b);
    assert(config_models(list@) =~= config_models(before).push(b@));
}

fn note_state_blob(p: &[u8], fr: &Frame, at: usize, f: &mut Findings, Ghost(limit): Ghost<nat>)
    requires
        classify::kind_of(p@) == Kind::StateBlob,
        limit + p@.len() + 1 <= u64::MAX,
        counts_within(old(f)@, limit),
    ensures
        forall|opts: Options|
            final(f)@ == #[trigger] with_payload(old(f)@, p@, *fr, at as int, opts),
        counts_within(final(f)@, limit + p@.len() + 1),
{
    proof {
        reveal(with_payload);
    }
    f.stats.state_blobs = f.stats.state_blobs + 1;
    let u16s: Vec<String> = classify::extract_utf16be_strings(p, 4);
    let asciis: Vec<String> = classify::extract_ascii_strings(p, 6);
    let ghost (a, b) = (strs::texts(u16s@), strs::texts(asciis@));
    proof {
        lemma_runs16_few(p@, 0, 4);
        lemma_runs8_few(p@, 0, 6);
        assert(a.len() == u16s@.len());
        assert(b.len() == asciis@.len());
        lemma_with_hosts_more(f.hosts@, a, b);
    }
    count_hosts(&u16s, &mut f.hosts, Ghost(limit));
    count_hosts(&asciis, &mut f.hosts, Ghost(limit + u16s@.len()));
    let blob: StateBlobOut = StateBlobOut {
        offset: at,
        size: fr.inner,
        strings_utf16be: u16s,
        strings_ascii: asciis,
    };
    let ghost before = f.state_blobs@;
    f.state_blobs.push(blob);
    assert(state_models(f.state_blobs@) =~= state_models(before).push(blob@));
}

/// Note the payload of a frame.
fn note_payload(
    p: &[u8],
    fr: &Frame,
    at: usize,
    opts: &Options,
    f: &mut Findings,
    Ghost(limit): Ghost<nat>,
) -> (kind: Kind)
    requires
        at >= 8,
        at + p@.len() <= usize::MAX,
        limit + p@.len() + 1 <= u64::MAX,
        counts_within(old(f)@, limit),
    ensures
        kind == classify::kind_of(p@),
        final(f)@ == with_payload(old(f)@, p@, *fr, at as int, *opts),
        counts_within(final(f)@, limit + p@.len() + 1),
{
    proof {
        reveal(with_payload);
    }
    let kind: Kind = classify::classify(p);
    match kind {
        Kind::HttpRequest | Kind::HttpResponse => {
            match http::parse(p, at, opts.body_cap) {
                Some(m) => note_message(m, f, Ghost(limit)),
                None => {},
            }
        },
        Kind::Utf16Text => {
            f.stats.utf16_blobs = f.stats.utf16_blobs + 1;
            let text: String = text::decode_utf16_best_effort(p);
            push_config(
                &mut f.config_blobs,
                ConfigBlob { offset: at, size: fr.inner, encoding: "utf-16", text },
            );
        },
        Kind::Json => {
            f.stats.json_blobs = f.stats.json_blobs + 1;
            let text: String = decode_or_empty(p);
            push_config(
                &mut f.json_blobs,
                ConfigBlob { offset: at, size: fr.inner, encoding: "utf-8", text },
            );
        },
        Kind::Utf8Text => {
            if opts.include_other_text {
                let text: String = decode_or_empty(p);
                push_config(
                    &mut f.other_text,
                    ConfigBlob { offset: at, size: fr.inner, encoding: "utf-8", text },
                );
            }
        },
        Kind::StateBlob => note_state_blob(p, fr, at, f, Ghost(limit)),
        Kind::SmallId => {
            f.stats.small_ids = f.stats.small_ids + 1;
        },
        Kind::Empty => {},
        Kind::Unknown => {
            f.stats.unknown = f.stats.unknown + 1;
            if opts.include_unknown {
                let record: FrameRecord = FrameRecord {
                    offset: at - 8,
                    size: fr.outer,
                    kind: Kind::Unknown,
                    preview: hex_preview(p, 64),
                };
                let ghost before = f.unknown_frames@;
                f.unknown_frames.push(record);
                assert(record_models(f.unknown_frames@) =~= record_models(before).push(record@));
            }
        },
    }
    kind
}

pub(crate) fn max_inner_for_depth(depth: u32) -> (r: u32)
    ensures
        r == max_inner_at(depth as nat),
{
    if depth == 0 {
        64 * 1024 * 1024
    } else {
        32 * 1024 * 1024
    }
}

fn is_sated(f: &Findings, opts: &Options) -> (r: bool)
    ensures
        r == sated(f@, *opts),
{
    match opts.max_frames {
        Some(cap) => f.stats.total_frames >= cap,
        None => false,
    }
}

pub proof fn lemma_payload_bytes(f: FindingsModel, p: Seq<u8>, fr: Frame, at: int, opts: Options)
    ensures
        with_payload(f, p, fr, at, opts).stats.bytes_in_frames == f.stats.bytes_in_frames,
{
    reveal(with_payload);
}

/// A frame at depth `5 - d` and what is nested in it take at most `d` times
/// its bytes.
proof fn lemma_budget(d: int, outer: int, inner: int, before: int, after: int)
    requires
        d >= 1,
        0 <= inner <= outer,
        0 <= after,
        after + outer <= before,
    ensures
        outer + (d - 1) * inner + d * after <= d * before,
        outer + (d - 1) * inner <= d * before,
        0 <= d * after,
{
    assert((d - 1) * inner <= (d - 1) * outer) by (nonlinear_arith)
        requires
            d >= 1,
            0 <= inner <= outer,
    ;
    assert(d * (after + outer) <= d * before) by (nonlinear_arith)
        requires
            d >= 1,
            after + outer <= before,
    ;
    assert(d * (after + outer) == d * after + outer + (d - 1) * outer) by (nonlinear_arith);
    assert(0 <= d * after) by (nonlinear_arith)
        requires
            d >= 1,
            0 <= after,
    ;
}

/// Note what the frames of a walk hold, and what is nested in them.
fn walk_frames(
    slice: &[u8],
    iter: FrameIter,
    base_offset: usize,
    opts: &Options,
    f: &mut Findings,
    depth: u32,
)
    requires
        iter@.buf == slice@,
        !iter@.overlap,
        0 <= iter@.pos <= slice@.len(),
        base_offset + slice@.len() <= usize::MAX,
        depth <= 4,
        counts_within(old(f)@, old(f)@.stats.bytes_in_frames),
        old(f)@.stats.bytes_in_frames + (5 - depth) * (slice@.len() - iter@.pos) <= u64::MAX,
    ensures
        final(f)@ == with_frames(
            old(f)@,
            slice@,
            iter@.frames(),
            base_offset as int,
            *opts,
            depth as nat,
        ),
        counts_within(final(f)@, final(f)@.stats.bytes_in_frames),
        final(f)@.stats.bytes_in_frames <= old(f)@.stats.bytes_in_frames + (5 - depth) * (
        slice@.len() - iter@.pos),
    decreases 5 - depth,
{
    let n: usize = slice.len();
    let mut it: FrameIter = iter;
    let ghost goal = with_frames(
        f@,
        slice@,
        it@.frames(),
        base_offset as int,
        *opts,
        depth as nat,
    );
    let ghost d = 5 - depth;
    let ghost limit = f@.stats.bytes_in_frames + d * (n - it@.pos);
    proof {
        lemma_budget(d, 0, 0, n - it@.pos, n - it@.pos);
    }
    loop
        invariant
            n == slice@.len(),
            it@.buf == slice@,
            !it@.overlap,
            0 <= it@.pos <= n,
            base_offset + n <= usize::MAX,
            depth <= 4,
            d == 5 - depth,
            limit <= u64::MAX,
            limit == old(f)@.stats.bytes_in_frames + d * (n - iter@.pos),
            counts_within(f@, f@.stats.bytes_in_frames),
            f@.stats.bytes_in_frames <= limit,
            f@.stats.bytes_in_frames + d * (n - it@.pos) <= limit,
            goal == with_frames(
                old(f)@,
                slice@,
                iter@.frames(),
                base_offset as int,
                *opts,
                depth as nat,
            ),
            goal == with_frames(
                f@,
                slice@,
                it@.frames(),
                base_offset as int,
                *opts,
                depth as nat,
            ),
        decreases n - it@.pos,
    {
        let ghost pos = it@.pos;
        let ghost frames = it@.frames();
        match it.next() {
            Some(fr) => {
                if is_sated(f, opts) {
                    return;
                }
                let ghost g = f@;
                let ghost bytes = f@.stats.bytes_in_frames;
                let ghost p = fr.body(slice@);
                assert(frames[0] == fr);
                assert(frames.skip(1) =~= it@.frames());
                proof {
                    lemma_budget(
                        d,
                        fr.outer as int,
                        p.len() as int,
                        n - pos,
                        n - it@.pos,
                    );
                }
                f.stats.total_frames = f.stats.total_frames + 1;
                f.stats.bytes_in_frames = f.stats.bytes_in_frames + fr.outer as u64;
                assert(f@ =~= with_frame(g, fr));
                let at: usize = base_offset + fr.payload_start();
                let payload: &[u8] = fr.payload(slice);
                let kind: Kind = note_payload(payload, &fr, at, opts, f, Ghost(bytes + 1));
                proof {
                    lemma_payload_bytes(with_frame(g, fr), p, fr, at as int, *opts);
                }
                if kind == Kind::StateBlob && depth < 4 {
                    let inner: FrameIter = FrameIter::new(payload).min_inner(8).max_inner(
                        max_inner_for_depth(depth),
                    );
                    assert(inner@ == frame::scan_of(p, 8, max_inner_at(depth as nat)));
                    walk_frames(payload, inner, at, opts, f, depth + 1);
                }
            },
            None => {
                return;
            },
        }
    }
}

/// Read each state blob's payload from the file once more.
fn reread_blobs(buf: &[u8], blobs: &Vec<StateBlobOut>) -> (r: Vec<(usize, u32, Vec<u8>)>)
    ensures
        project::blobs_of(r@) == reread_all(buf@, state_models(blobs@)),
{
    let n: usize = buf.len();
    let mut out: Vec<(usize, u32, Vec<u8>)> = Vec::new();
    let ghost all = reread_all(buf@, state_models(blobs@));
    for i in 0..blobs.len()
        invariant
            n == buf@.len(),
            all == reread_all(buf@, state_models(blobs@)),
            project::blobs_of(out@) == all.take(i as int),
    {
        let offset: usize = blobs[i].offset;
        let size: usize = blobs[i].size as usize;
        let payload: Vec<u8> = if size <= n && offset <= n - size {
            slice_to_vec(slice_subrange(buf, offset, offset + size))
        } else {
            Vec::new()
        };
        let ghost before = out@;
        let ghost want = reread(buf@, blobs@[i as int]@);
        assert(all[i as int] == want);
        assert(payload@ =~= want.payload);
        out.push((offset, blobs[i].size, payload));
        assert(project::blobs_of(out@) =~= project::blobs_of(before).push(want));
        assert(project::blobs_of(out@) =~= all.take(i + 1));
    }
    assert(project::blobs_of(out@) =~= all);
    out
}

/// Extract everything that a file holds.
pub fn extract(pf: &ProjectFile, opts: &Options) -> (r: Findings)
    requires
        5 * pf.data@.len() <= u64::MAX,
    ensures
        r@ == findings_of(pf.path@, pf.data@, *opts),
{
    let buf: &[u8] = pf.bytes();
    let mut f: Findings = Findings::default();
    f.file = pf.path.as_str().to_owned();
    f.size = pf.size();
    f.header = Header::parse(buf);
    let iter: FrameIter = FrameIter::new(buf).min_inner(1).max_inner(64 * 1024 * 1024);
    walk_frames(buf, iter, 0, opts, &mut f, 0);
    let total: u64 = pf.size() as u64;
    f.stats.bytes_in_gaps = if total > f.stats.bytes_in_frames {
        total - f.stats.bytes_in_frames
    } else {
        0
    };
    // Each state blob's payload is read again to summarize its role, without
    // holding copies during the walk.
    let blobs: Vec<(usize, u32, Vec<u8>)> = reread_blobs(buf, &f.state_blobs);
    let (metas, summary): (Vec<StateBlobMeta>, ProjectSummary) = project::summarize(&blobs);
    f.state_blob_index = metas;
    f.project = summary;
    f
}

/// The messages that frames hold, those within state blobs included down to
/// the fourth depth. The frames lie in `slice`, which lies at `base` in the
/// file.
pub open spec fn messages(
    slice: Seq<u8>,
    frames: Seq<Frame>,
    base: int,
    cap: int,
    depth: nat,
) -> Seq<HttpModel>
    decreases 5 - depth, frames.len(),
{
    if frames.len() == 0 || depth > 4 {
        Seq::empty()
    } else {
        let p = frames[0].body(slice);
        let at = base + frames[0].offset + 8;
        let here = match classify::kind_of(p) {
            Kind::HttpRequest | Kind::HttpResponse => match http::message(p, at, cap) {
                Some(m) => seq![m],
                None => Seq::empty(),
            },
            Kind::StateBlob => if depth < 4 {
                messages(p, nested(p, depth), at, cap, depth + 1)
            } else {
                Seq::empty()
            },
            _ => Seq::empty(),
        };
        here + messages(slice, frames.skip(1), base, cap, depth)
    }
}

/// Every message in a file.
pub open spec fn all_messages(buf: Seq<u8>, cap: int) -> Seq<HttpModel> {
    messages(buf, frame::scan_of(buf, 8, 0x400_0000).frames(), 0, cap, 0)
}

/// The callback was given the first of the messages, in order; it was given
/// all of them unless it stopped the walk, by returning `false` from its last
/// call.
pub open spec fn handed<F: FnMut(HttpMessage) -> bool>(
    cb: F,
    called: Seq<HttpMessage>,
    outs: Seq<bool>,
    all: Seq<HttpModel>,
) -> bool {
    &&& called.len() == outs.len() <= all.len()
    &&& forall|i: int|
        0 <= i < called.len() ==> (#[trigger] called[i])@ == all[i] && call_ensures(
            cb,
            (called[i],),
            outs[i],
        )
    &&& forall|i: int| 0 <= i < outs.len() - 1 ==> outs[i]
    &&& called.len() == all.len() || (outs.len() > 0 && !outs.last())
}

/// A level of a walk: the frames that are left in a slice.
struct Level<'a> {
    slice: &'a [u8],
    iter: FrameIter<'a>,
    base: usize,
    depth: u32,
}

impl<'a> Level<'a> {
    spec fn sound(self) -> bool {
        &&& self.iter@.buf == self.slice@
        &&& !self.iter@.overlap
        &&& 0 <= self.iter@.pos <= self.slice@.len()
        &&& self.base + self.slice@.len() <= usize::MAX
        &&& self.depth <= 4
    }

    /// The messages that are left.
    spec fn left(self, cap: int) -> Seq<HttpModel> {
        messages(self.slice@, self.iter@.frames(), self.base as int, cap, self.depth as nat)
    }

    /// How many bytes are left, and one more.
    spec fn size(self) -> nat {
        (self.slice@.len() - self.iter@.pos + 1) as nat
    }
}

spec fn all_sound(levels: Seq<Level>) -> bool {
    forall|i: int| 0 <= i < levels.len() ==> (#[trigger] levels[i]).sound()
}

/// The messages that are left, the innermost level first.
spec fn all_left(levels: Seq<Level>, cap: int) -> Seq<HttpModel>
    decreases levels.len(),
{
    if levels.len() == 0 {
        Seq::empty()
    } else {
        levels.last().left(cap) + all_left(levels.drop_last(), cap)
    }
}

spec fn all_size(levels: Seq<Level>) -> nat
    decreases levels.len(),
{
    if levels.len() == 0 {
        0
    } else {
        levels.last().size() + all_size(levels.drop_last())
    }
}

/// Go on with a walk up to the next message.
fn walk_for_http<'a>(levels: &mut Vec<Level<'a>>, body_cap: usize) -> (r: Option<HttpMessage>)
    requires
        all_sound(old(levels)@),
    ensures
        all_sound(final(levels)@),
        match r {
            Some(m) => {
                &&& all_left(old(levels)@, body_cap as int) == seq![m@] + all_left(
                    final(levels)@,
                    body_cap as int,
                )
                &&& all_size(final(levels)@) < all_size(old(levels)@)
            },
            None => all_left(old(levels)@, body_cap as int) == Seq::<HttpModel>::empty(),
        },
{
    let ghost cap = body_cap as int;
    let ghost whole = all_left(levels@, cap);
    while levels.len() > 0
        invariant
            cap == body_cap as int,
            all_sound(levels@),
            whole == all_left(old(levels)@, cap),
            all_left(levels@, cap) == whole,
            all_size(levels@) <= all_size(old(levels)@),
        decreases all_size(levels@),
    {
        let ghost before = levels@;
        let ghost rest = levels@.drop_last();
        let mut top: Level<'a> = match levels.pop() {
            Some(l) => l,
            None => {
                return None;
            },
        };
        assert(top == before.last());
        assert(before[before.len() - 1].sound());
        assert forall|i: int| 0 <= i < rest.len() implies (#[trigger] rest[i]).sound() by {
            assert(rest[i] == before[i]);
        }
        let ghost frames = top.iter@.frames();
        let slice: &'a [u8] = top.slice;
        let base: usize = top.base;
        let depth: u32 = top.depth;
        match top.iter.next() {
            Some(fr) => {
                let n: usize = slice.len();
                assert(frames[0] == fr);
                assert(frames.skip(1) =~= top.iter@.frames());
                let at: usize = base + fr.payload_start();
                let payload: &'a [u8] = fr.payload(slice);
                levels.push(top);
                assert(levels@.drop_last() =~= rest);
                match classify::classify(payload) {
                    Kind::HttpRequest | Kind::HttpResponse => {
                        match http::parse(payload, at, body_cap) {
                            Some(m) => {
                                assert(whole =~= seq![m@] + all_left(levels@, cap));
                                return Some(m);
                            },
                            None => {
                                assert(whole =~= all_left(levels@, cap));
                            },
                        }
                    },
                    Kind::StateBlob => {
                        if depth < 4 {
                            let inner: FrameIter<'a> = FrameIter::new(payload).min_inner(
                                8,
                            ).max_inner(max_inner_for_depth(depth));
                            assert(inner@ == frame::scan_of(
                                payload@,
                                8,
                                max_inner_at(depth as nat),
                            ));
                            let ghost outer = levels@;
                            assert(all_left(outer, cap) == outer.last().left(cap) + all_left(
                                rest,
                                cap,
                            ));
                            assert(all_size(outer) == outer.last().size() + all_size(rest));
                            levels.push(
                                Level { slice: payload, iter: inner, base: at, depth: depth + 1 },
                            );
                            assert(levels@.drop_last() =~= outer);
                            assert(levels@.last().left(cap) == messages(
                                payload@,
                                nested(payload@, depth as nat),
                                at as int,
                                cap,
                                (depth + 1) as nat,
                            ));
                            assert(all_left(levels@, cap) =~= whole);
                        } else {
                            assert(whole =~= all_left(levels@, cap));
                        }
                    },
                    _ => {
                        assert(whole =~= all_left(levels@, cap));
                    },
                }
            },
            None => {
                assert(levels@ =~= rest);
                assert(all_left(before, cap) =~= all_left(rest, cap));
            },
        }
    }
    None
}

/// A walk over a whole file.
fn http_levels<'a>(pf: &ProjectFile<'a>) -> (r: Vec<Level<'a>>)
    ensures
        all_sound(r@),
        forall|cap: int| #[trigger] all_left(r@, cap) == all_messages(pf.data@, cap),
{
    let buf: &'a [u8] = pf.bytes();
    let n: usize = buf.len();
    let iter: FrameIter<'a> = FrameIter::new(buf).min_inner(8).max_inner(64 * 1024 * 1024);
    let mut levels: Vec<Level<'a>> = Vec::new();
    let ghost none = levels@;
    levels.push(Level { slice: buf, iter, base: 0, depth: 0 });
    assert(levels@.drop_last() =~= none);
    assert forall|cap: int| #[trigger] all_left(levels@, cap) == all_messages(pf.data@, cap) by {
        assert(all_left(none, cap) =~= Seq::<HttpModel>::empty());
        assert(all_left(levels@, cap) =~= levels@.last().left(cap));
    }
    levels
}

/// Streaming HTTP walker. Calls `cb` for every decoded request/response found
/// anywhere in the file, those in state blobs included. Return `false` from
/// `cb` to stop early.
pub fn for_each_http<F: FnMut(HttpMessage) -> bool>(pf: &ProjectFile, body_cap: usize, cb: F)
    requires
        forall|m: HttpMessage| call_requires(cb, (m,)),
    ensures
        exists|called: Seq<HttpMessage>, outs: Seq<bool>|
            handed(cb, called, outs, all_messages(pf.data@, body_cap as int)),
{
    let mut cb: F = cb;
    let mut levels: Vec<Level> = http_levels(pf);
    let ghost first = cb;
    let ghost all = all_messages(pf.data@, body_cap as int);
    let ghost mut called: Seq<HttpMessage> = Seq::empty();
    let ghost mut outs: Seq<bool> = Seq::empty();
    assert(http_models(called) + all_left(levels@, body_cap as int) =~= all);
    loop
        invariant_except_break
            cb == first,
            forall|m: HttpMessage| call_requires(first, (m,)),
            all_sound(levels@),
            http_models(called) + all_left(levels@, body_cap as int) == all,
            called.len() == outs.len(),
            forall|i: int|
                0 <= i < called.len() ==> call_ensures(first, ((#[trigger] called[i]),), outs[i]),
            forall|i: int| 0 <= i < outs.len() ==> outs[i],
        ensures
            handed(first, called, outs, all),
        decreases all_size(levels@),
    {
        let ghost left = all_left(levels@, body_cap as int);
        match walk_for_http(&mut levels, body_cap) {
            Some(m) => {
                let ghost seen = called;
                let go_on: bool = cb(m);
                proof {
                    called = called.push(m);
                    outs = outs.push(go_on);
                    assert(http_models(called) =~= http_models(seen).push(m@));
                    assert(http_models(seen) + left =~= http_models(called) + all_left(
                        levels@,
                        body_cap as int,
                    ));
                    lemma_prefix(called, all, all_left(levels@, body_cap as int));
                }
                if !go_on {
                    break;
                }
            },
            None => {
                proof {
                    assert(http_models(called) =~= all);
                    lemma_prefix(called, all, left);
                }
                break;
            },
        }
    }
    assert(handed(first, called, outs, all));
}

proof fn lemma_prefix(called: Seq<HttpMessage>, all: Seq<HttpModel>, rest: Seq<HttpModel>)
    requires
        http_models(called) + rest == all,
    ensures
        called.len() <= all.len(),
        forall|i: int| 0 <= i < called.len() ==> (#[trigger] called[i])@ == all[i],
{
    assert(http_models(called).len() == called.len());
    assert forall|i: int| 0 <= i < called.len() implies (#[trigger] called[i])@ == all[i] by {
        assert(http_models(called)[i] == called[i]@);
        assert((http_models(called) + rest)[i] == http_models(called)[i]);
    }
}

/// Every message in a file.
pub fn collect_http(pf: &ProjectFile, body_cap: usize) -> (r: Vec<HttpMessage>)
    ensures
        http_models(r@) == all_messages(pf.data@, body_cap as int),
{
    let mut levels: Vec<Level> = http_levels(pf);
    let mut out: Vec<HttpMessage> = Vec::new();
    let ghost all = all_messages(pf.data@, body_cap as int);
    assert(http_models(out@) + all_left(levels@, body_cap as int) =~= all);
    loop
        invariant
            all_sound(levels@),
            all == all_messages(pf.data@, body_cap as int),
            http_models(out@) + all_left(levels@, body_cap as int) == all,
        decreases all_size(levels@),
    {
        let ghost left = all_left(levels@, body_cap as int);
        let ghost seen = out@;
        match walk_for_http(&mut levels, body_cap) {
            Some(m) => {
                out.push(m);
                assert(http_models(out@) =~= http_models(seen).push(m@));
                assert(http_models(seen) + left =~= http_models(out@) + all_left(
                    levels@,
                    body_cap as int,
                ));
            },
            None => {
                assert(http_models(out@) =~= all);
                return out;
            },
        }
    }
}

/// The messages of one kind.
pub open spec fn of_kind(v: Seq<HttpModel>, kind: Seq<char>) -> Seq<HttpModel>
    decreases v.len(),
{
    if v.len() == 0 {
        Seq::empty()
    } else if v.last().kind == kind {
        of_kind(v.drop_last(), kind).push(v.last())
    } else {
        of_kind(v.drop_last(), kind)
    }
}

/// Every message of one kind in a file.
pub fn collect_kind(pf: &ProjectFile, body_cap: usize, kind: &str) -> (r: Vec<HttpMessage>)
    ensures
        http_models(r@) == of_kind(all_messages(pf.data@, body_cap as int), kind@),
{
    let mut levels: Vec<Level> = http_levels(pf);
    let mut out: Vec<HttpMessage> = Vec::new();
    let ghost all = all_messages(pf.data@, body_cap as int);
    let ghost mut seen: Seq<HttpModel> = Seq::empty();
    assert(seen + all_left(levels@, body_cap as int) =~= all);
    assert(http_models(out@) =~= of_kind(seen, kind@));
    loop
        invariant
            all_sound(levels@),
            all == all_messages(pf.data@, body_cap as int),
            seen + all_left(levels@, body_cap as int) == all,
            http_models(out@) == of_kind(seen, kind@),
        decreases all_size(levels@),
    {
        let ghost left = all_left(levels@, body_cap as int);
        let ghost before = seen;
        let ghost kept = out@;
        match walk_for_http(&mut levels, body_cap) {
            Some(m) => {
                proof {
                    seen = seen.push(m@);
                    assert(seen.drop_last() =~= before);
                    assert(before + left =~= seen + all_left(levels@, body_cap as int));
                }
                let k: Vec<char> = strs::chars_of(m.kind);
                if strs::is_text(&k, kind) {
                    out.push(m);
                    assert(http_models(out@) =~= http_models(kept).push(m@));
                }
            },
            None => {
                assert(seen =~= all);
                return out;
            },
        }
    }
}

} // verus!
