//! What callers get from the library's operations.

use vstd::prelude::*;

use crate::body;
use crate::classify;
use crate::classify::Kind;
use crate::extract;
use crate::file::ProjectFile;
use crate::frame;
use crate::http;
use crate::http::HttpMessage;
use crate::laws;
use crate::laws::exchanges;
use crate::laws::findings;
use crate::laws::issues;
use crate::laws::kinds;
use crate::laws::messages;
use crate::laws::readings;
use crate::project;
use crate::project::Blob;
use crate::project::BlobRole;
use crate::project::ProjectSummary;
use crate::project::StateBlobMeta;
use crate::strs;
use crate::text;
use crate::transaction;
use crate::transaction::Transaction;

verus! {

/// Asking for an email address gives the text without the white space at its
/// ends exactly where that is an address, and otherwise nothing.
pub proof fn law_parse_email(s: &str, r: Option<String>, t: Seq<char>)
    requires
        call_ensures(project::parse_email, (s,), r),
        findings::core_of(s@, t),
    ensures
        r is Some <==> exists|at: int| #[trigger] findings::address_at(t, at),
        r matches Some(x) ==> x@ == t,
{
    findings::law_email(s@, t);
}

/// Asking for a card number gives the text without the white space at its
/// ends exactly where that is one, and otherwise nothing.
pub proof fn law_parse_card_number(s: &str, r: Option<String>, t: Seq<char>)
    requires
        call_ensures(project::parse_card_number, (s,), r),
        findings::core_of(s@, t),
    ensures
        r is Some <==> 13 <= t.len() <= 19 && (forall|i: int|
            0 <= i < t.len() ==> '0' <= #[trigger] t[i] <= '9') && findings::check_sum(
            t,
            t.len() as int,
        ) % 10 == 0,
        r matches Some(x) ==> x@ == t,
{
    findings::law_card_number(s@, t);
}

/// Asking for a list of file extensions gives it exactly where the text is
/// one.
pub proof fn law_parse_extension_list(s: &str, r: Option<String>, core: Seq<char>)
    requires
        call_ensures(project::parse_extension_list, (s,), r),
        findings::core_of(s@, core),
    ensures
        ({
            let t = findings::behind_tag(core, seq!['d', 's', 't', 'b']);
            &&& r is Some <==> exists|parts: Seq<Seq<char>>| #[trigger]
                findings::word_list(t, parts)
            &&& r matches Some(x) ==> x@ == t
        }),
{
    findings::law_extensions(s@, core);
}

/// Asking for a severity or a confidence gives the first of its words that the
/// text holds.
pub proof fn law_parse_severity_and_confidence(
    s: &str,
    a: Option<String>,
    b: Option<String>,
    i: int,
)
    requires
        call_ensures(project::parse_severity, (s,), a),
        call_ensures(project::parse_confidence, (s,), b),
    ensures
        findings::first_held(s@, findings::severities(), i) ==> strs::opt_text(a) == Some(
            findings::severities()[i],
        ),
        a is Some <==> findings::holds_one(s@, findings::severities()),
        findings::first_held(s@, findings::confidences(), i) ==> strs::opt_text(b) == Some(
            findings::confidences()[i],
        ),
        b is Some <==> findings::holds_one(s@, findings::confidences()),
{
    findings::law_severity(s@, i);
    findings::law_confidence(s@, i);
}

/// A payload is called a request exactly where it is longer than eight bytes,
/// starts with a method, and its first line ends within 8192 bytes and names a
/// version.
pub proof fn law_classify_request(b: &[u8], k: Kind)
    requires
        call_ensures(classify::classify, (b,), k),
    ensures
        k == Kind::HttpRequest <==> b@.len() > 8 && kinds::starts_with_a_method(b@) && exists|
            e: int,
        | kinds::request_line_to(b@, e),
{
    kinds::law_request_kind(b@);
}

/// A request with a target of up to 8000 characters is called one.
pub proof fn law_classify_get(b: &[u8], k: Kind, target: Seq<char>, host: Seq<char>)
    requires
        call_ensures(classify::classify, (b,), k),
        laws::plain_target(target),
        laws::plain_host(host),
        target.len() <= 8000,
        b@ == laws::get_request(target, host),
    ensures
        k == Kind::HttpRequest,
{
    laws::law_requests_are_told(target, host);
}

/// A head that parses gives a body as long as it says and the payload has
/// bytes for, or all that follows where it does not say, in requests and
/// responses alike.
pub proof fn law_parse_head(b: &[u8], offset: usize, r: Option<HttpMessage>)
    requires
        offset + b@.len() <= usize::MAX,
        call_ensures(http::parse_head, (b, offset), r),
    ensures
        r matches Some(m) ==> {
            let avail = b@.len() - http::body_start(b@);
            &&& m@.content_length matches Some(n) ==> m@.body_len == kinds::lesser(n as int, avail)
            &&& m@.content_length is None ==> m@.body_len == avail
            &&& m@.raw_len == http::body_start(b@) + m@.body_len
            &&& m@.body_len > 0 ==> m@.body_offset == Some(offset + http::body_start(b@))
            &&& m@.body_len == 0 ==> m@.body_offset is None
        },
{
    messages::law_body_extent(b@, offset as int, 0);
    reveal(http::message);
}

/// The exchanges of a file hold that of each request among its frames, with
/// the path of the text that the look-ahead from it reaches, whether or not a
/// response stands between them.
pub proof fn law_collected_path(
    pf: &ProjectFile,
    cap: usize,
    r: Vec<Transaction>,
    i: int,
    j: int,
) -> (k: int)
    requires
        call_ensures(transaction::collect_transactions, (pf, cap), r),
        ({
            let frames = frame::scan_of(pf.data@, 1, 0x400_0000).frames();
            let at = frames[i].offset + 8;
            &&& 0 <= i < frames.len()
            &&& exchanges::kind_at(pf.data@, frames, i) == Kind::HttpRequest
            &&& http::message(frames[i].body(pf.data@), at, cap as int) is Some
            &&& exchanges::reaches(pf.data@, frames, i, j)
            &&& exchanges::text_at(pf.data@, frames, j)
        }),
    ensures
        ({
            let frames = frame::scan_of(pf.data@, 1, 0x400_0000).frames();
            &&& 0 <= k < r@.len()
            &&& r@[k]@.offset == frames[i].offset + 8
            &&& r@[k]@.sitemap_path == transaction::path_in(frames[j].body(pf.data@))
        }),
{
    let buf = pf.data@;
    let frames = frame::scan_of(buf, 1, 0x400_0000).frames();
    let c = cap as int;
    exchanges::law_every_exchange_is_found(buf, frames, 0, 0, c, 0, i);
    exchanges::law_exchange_path(buf, frames, i, 0, c, j);
    exchanges::law_exchange_request_and_ids(buf, frames, i, 0, c);
    let one = transaction::cluster(buf, frames, i, 0, c);
    let all = transaction::transaction_models(r@);
    assert(all.contains(one));
    let k = choose|k: int| 0 <= k < all.len() && all[k] == one;
    assert(r@[k]@ == one);
    k
}

proof fn lemma_issues_stay(blobs: Seq<Blob>, q: int)
    requires
        0 <= q <= blobs.len(),
    ensures
        ({
            let some = project::summary_of(blobs.take(q)).issues;
            let all = project::summary_of(blobs).issues;
            some.len() <= all.len() && all.take(some.len() as int) == some
        }),
    decreases blobs.len(),
{
    let all = project::summary_of(blobs).issues;
    if q == blobs.len() {
        assert(blobs.take(q) =~= blobs);
        assert(all.take(all.len() as int) =~= all);
    } else {
        let init = blobs.drop_last();
        lemma_issues_stay(init, q);
        assert(init.take(q) =~= blobs.take(q));
        assert(init.push(blobs.last()) =~= blobs);
        issues::law_issues_blob_by_blob(init, blobs.last());
        let some = project::summary_of(blobs.take(q)).issues;
        let most = project::summary_of(init).issues;
        assert(all.take(some.len() as int) =~= most.take(some.len() as int));
    }
}

/// Of a summary of blobs, the issues of each blob of issues follow those of
/// the blobs before it, and each keeps to its own stretch of that blob.
pub proof fn law_summarized_issues(
    blobs: &[(usize, u32, Vec<u8>)],
    r: (Vec<StateBlobMeta>, ProjectSummary),
    q: int,
) -> (ends: Seq<int>)
    requires
        call_ensures(project::summarize, (blobs,), r),
        0 <= q < blobs@.len(),
        project::role_of(project::blob_texts(project::blobs_of(blobs@)[q])) == BlobRole::Issues,
    ensures
        ({
            let list = project::blobs_of(blobs@);
            let v = project::blob_texts(list[q]);
            let before = project::summary_of(list.take(q)).issues.len() as int;
            let found = r.1@.issues;
            &&& issues::are_ends(v, ends)
            &&& found.len() >= before + ends.len()
            &&& forall|j: int|
                0 <= j < ends.len() ==> issues::issue_from(
                    v,
                    issues::start_of(ends, j),
                    ends[j],
                    #[trigger] found[before + j],
                )
        }),
{
    let list = project::blobs_of(blobs@);
    let v = project::blob_texts(list[q]);
    let m = project::with_blobs(project::blank_summary(), list.take(q));
    let ends = issues::law_issues_keep_to_their_stretch(m, v);
    let upto = list.take(q + 1);
    assert(upto.drop_last() =~= list.take(q));
    assert(upto.last() == list[q]);
    lemma_issues_stay(list, q + 1);
    let some = project::summary_of(upto).issues;
    let found = project::summary_of(list).issues;
    assert(some == project::with_blob(m, v).issues);
    let before = m.issues.len() as int;
    assert forall|j: int| 0 <= j < ends.len() implies issues::issue_from(
        v,
        issues::start_of(ends, j),
        ends[j],
        #[trigger] found[before + j],
    ) by {
        assert(found.take(some.len() as int)[before + j] == found[before + j]);
        assert(some[before + j] == found[before + j]);
    }
    ends
}

/// A host is found in a web address on it, and in a text that is one.
pub proof fn law_host_from_string(s: &str, r: Option<String>, t: Seq<char>, h: Seq<char>)
    requires
        call_ensures(extract::host_from_string, (s,), r),
        findings::core_of(s@, t),
    ensures
        readings::address_of(t, h) && extract::hostlike(h) ==> strs::opt_text(r) == Some(h),
        extract::hostlike(t) && !t.contains(' ') && !t.contains('/') ==> strs::opt_text(r) == Some(
            t,
        ),
        r matches Some(x) ==> extract::hostlike(x@) && ((x@ == t && !t.contains(' '))
            || readings::address_of(t, x@)),
{
    readings::law_host_in(s@, t, h);
}

/// A path reads back, and what is read as a path is one that the payload
/// holds.
pub proof fn law_extract_path(b: &[u8], r: Option<String>, s: Seq<char>)
    requires
        call_ensures(transaction::extract_path, (b,), r),
    ensures
        exchanges::is_path(s) && s.len() < 4096 && b@ == exchanges::narrow(s) ==> strs::opt_text(r)
            == Some(s),
        exchanges::is_path(s) && exchanges::is_wide(b@, s) ==> strs::opt_text(r) == Some(s),
        r matches Some(x) ==> exchanges::is_path(x@) && (b@ == exchanges::narrow(x@)
            || exchanges::is_wide(b@, x@)),
{
    exchanges::law_paths(b@, s);
}

/// A chunked body gives the data of its first chunk and then what the rest of
/// it gives.
pub proof fn law_dechunk(b: &[u8], r: Vec<u8>, line: Seq<u8>, data: Seq<u8>, rest: Seq<u8>)
    requires
        call_ensures(body::dechunk, (b,), r),
        !line.contains(10),
        data.len() > 0,
        body::chunk_size(line) == Some(data.len()),
    ensures
        b@ == line + seq![10] + data + (seq![13, 10] + rest) ==> r@ == data + body::dechunked(rest),
        b@ == line + seq![10] + data ==> r@ == data,
{
    readings::law_chunk(line, data, rest);
}

/// The text of UTF-16 bytes is the reading that counts more, and the
/// little-endian one where they count the same.
pub proof fn law_decode_utf16_best_effort(b: &[u8], r: String)
    requires
        call_ensures(text::decode_utf16_best_effort, (b,), r),
        b@.len() >= 2,
    ensures
        ({
            let le = text::decode16(text::units_le(b@));
            let be = text::decode16(text::units_be(b@));
            le.len() == be.len() <= 0x10_0000 ==> r@ == if readings::weights(le)
                >= readings::weights(be) {
                le
            } else {
                be
            }
        }),
{
    readings::law_best_reading(b@);
}

} // verus!
