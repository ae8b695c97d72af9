//! Read a Burp Suite project file and turn it into something a pipeline
//! can use: HTTP transactions, scan issues, scope, hosts, anything that
//! was in the project.
//!
//! ```ignore
//! use burpex::BurpProject;
//!
//! let proj = BurpProject::open("project.burp".to_string(), &bytes);
//! for txn in proj.transactions().with_body_cap(8 * 1024).iter() {
//!     if let (Some(req), Some(resp)) = (&txn.request, &txn.response) {
//!         println!("{} {} -> {}", req.method.as_deref().unwrap_or("?"),
//!                                 req.path.as_deref().unwrap_or("?"),
//!                                 resp.status.unwrap_or(0));
//!     }
//! }
//! ```

use vstd::prelude::*;

pub mod body;
pub mod bytes;
pub mod chars;
pub mod classify;
pub mod codes;
pub mod container;
pub mod counts;
pub mod extract;
pub mod file;
pub mod frame;
pub mod header;
pub mod http;
pub mod laws;
pub mod num;
pub mod order;
pub mod preview;
pub mod project;
pub mod strs;
pub mod text;
pub mod transaction;

pub use classify::{classify, Kind};
pub use container::Layout;
pub use extract::{extract, Findings, Options};
pub use file::ProjectFile;
pub use frame::{Frame, FrameIter};
pub use header::Header;
pub use http::HttpMessage;
pub use project::{BlobRole, ProjectSummary, ScanIssue, StateBlobMeta};
pub use transaction::Transaction;

verus! {

/// A Burp Suite project file opened for read.
///
/// Borrows the bytes of the file, so creating one is cheap and querying it
/// repeatedly is cheap too.
pub struct BurpProject<'a> {
    file: ProjectFile<'a>,
}

impl<'a> BurpProject<'a> {
    #[verifier::type_invariant]
    closed spec fn genuine(self) -> bool {
        self.file.genuine()
    }

    /// The bytes of the file.
    pub closed spec fn data(self) -> Seq<u8> {
        self.file.data@
    }

    /// Where the file came from.
    pub closed spec fn origin(self) -> Seq<char> {
        self.file.path@
    }

    /// The project of the given path that the given bytes hold.
    pub fn open(path: String, data: &'a [u8]) -> (r: Self)
        ensures
            r.data() == data@,
            r.origin() == path@,
    {
        BurpProject { file: ProjectFile::open(path, data) }
    }

    /// Path the project was opened from.
    pub fn path(&self) -> (r: &str)
        ensures
            r@ == self.origin(),
    {
        self.file.path.as_str()
    }

    /// File size in bytes, including the zero-padded tail.
    pub fn size(&self) -> (r: usize)
        ensures
            r == self.data().len(),
    {
        self.file.size()
    }

    /// Decoded fixed header. `None` if the file is too short to hold one.
    pub fn header(&self) -> (r: Option<Header>)
        ensures
            header::opt_header(r) == header::header_of(self.data()),
    {
        Header::parse(self.file.bytes())
    }

    /// Whether the magic bytes at the start of the file match Burp's.
    pub fn is_valid(&self) -> (r: bool)
        ensures
            r == header::has_magic(self.data()),
    {
        proof {
            use_type_invariant(self);
        }
        self.file.is_burp
    }

    /// File-level layout: header span, frame runs, trailers, zero tail.
    pub fn layout(&self) -> (r: Layout)
        ensures
            r@ == container::layout_of(self.data()),
    {
        container::analyze(&self.file)
    }

    /// Run the full extraction pass and return a single `Findings` value
    /// with everything decoded: HTTP messages, project summary, issues.
    ///
    /// This loads the whole result into memory. For huge files use
    /// [`Self::transactions`] or [`Self::http_messages`] instead.
    pub fn extract(&self) -> (r: Findings)
        requires
            5 * self.data().len() <= u64::MAX,
        ensures
            r@ == extract::findings_of(
                self.origin(),
                self.data(),
                Options {
                    body_cap: 0x1_0000,
                    include_unknown: false,
                    include_other_text: true,
                    max_frames: None,
                },
            ),
    {
        self.extract_with(&Options::default())
    }

    /// Same as [`Self::extract`] but with custom options.
    pub fn extract_with(&self, opts: &Options) -> (r: Findings)
        requires
            5 * self.data().len() <= u64::MAX,
        ensures
            r@ == extract::findings_of(self.origin(), self.data(), *opts),
    {
        extract(&self.file, opts)
    }

    /// Stream HTTP transactions (request + response + sitemap path).
    pub fn transactions(&self) -> (r: TransactionStream<'_, 'a>)
        ensures
            r.source() == self.data(),
            r.cap() == 0x1_0000,
    {
        TransactionStream { proj: self, body_cap: 64 * 1024 }
    }

    /// Stream individual HTTP messages without grouping into transactions.
    pub fn http_messages(&self) -> (r: HttpStream<'_, 'a>)
        ensures
            r.source() == self.data(),
            r.cap() == 0x1_0000,
    {
        HttpStream { proj: self, body_cap: 64 * 1024 }
    }

    /// Walker over every framed record in the file. Low-level; useful for
    /// reverse-engineering or for tools that want the raw container.
    pub fn frames(&self) -> (r: FrameIter<'a>)
        ensures
            r@ == frame::scan_of(self.data(), 1, 0x7fff_ffff),
    {
        FrameIter::new(self.file.bytes()).min_inner(1)
    }

    /// Borrow the underlying [`ProjectFile`] for raw access.
    pub fn project_file(&self) -> (r: &ProjectFile<'a>)
        ensures
            r.data@ == self.data(),
            r.path@ == self.origin(),
            r.genuine(),
    {
        proof {
            use_type_invariant(self);
        }
        &self.file
    }
}

/// Builder + iterator for HTTP transactions.
pub struct TransactionStream<'p, 'a> {
    proj: &'p BurpProject<'a>,
    body_cap: usize,
}

impl<'p, 'a> TransactionStream<'p, 'a> {
    /// The bytes that the transactions come from.
    pub closed spec fn source(self) -> Seq<u8> {
        self.proj.data()
    }

    /// How many bytes of a body are kept.
    pub closed spec fn cap(self) -> int {
        self.body_cap as int
    }

    /// Cap on bytes kept per HTTP body preview. Default 64 KiB.
    pub fn with_body_cap(self, n: usize) -> (r: Self)
        ensures
            r.source() == self.source(),
            r.cap() == n,
    {
        TransactionStream { body_cap: n, ..self }
    }

    /// Walk the file with a callback. Return `false` from `f` to stop early.
    pub fn for_each<F: FnMut(Transaction) -> bool>(self, f: F)
        requires
            forall|t: Transaction| call_requires(f, (t,)),
        ensures
            exists|called: Seq<Transaction>, outs: Seq<bool>|
                transaction::handed(
                    f,
                    called,
                    outs,
                    transaction::all_transactions(self.source(), self.cap()),
                ),
    {
        let ghost all = transaction::all_transactions(self.source(), self.cap());
        assert(all == transaction::all_transactions(self.proj.file.data@, self.body_cap as int));
        transaction::for_each_transaction(&self.proj.file, self.body_cap, f);
    }

    /// Collect every transaction into a `Vec`.
    pub fn collect(self) -> (r: Vec<Transaction>)
        ensures
            transaction::transaction_models(r@) == transaction::all_transactions(
                self.source(),
                self.cap(),
            ),
    {
        transaction::collect_transactions(&self.proj.file, self.body_cap)
    }

    /// Adapt to a `std::iter::Iterator` by collecting first.
    pub fn iter(self) -> (r: std::vec::IntoIter<Transaction>)
        ensures
            transaction::transaction_models(
                vstd::std_specs::iter::IteratorSpec::remaining(&r),
            ) == transaction::all_transactions(self.source(), self.cap()),
    {
        self.collect().into_iter()
    }
}

/// Builder + iterator for HTTP messages (request OR response, ungrouped).
pub struct HttpStream<'p, 'a> {
    proj: &'p BurpProject<'a>,
    body_cap: usize,
}

impl<'p, 'a> HttpStream<'p, 'a> {
    /// The bytes that the messages come from.
    pub closed spec fn source(self) -> Seq<u8> {
        self.proj.data()
    }

    /// How many bytes of a body are kept.
    pub closed spec fn cap(self) -> int {
        self.body_cap as int
    }

    /// Cap on bytes kept per HTTP body preview. Default 64 KiB.
    pub fn with_body_cap(self, n: usize) -> (r: Self)
        ensures
            r.source() == self.source(),
            r.cap() == n,
    {
        HttpStream { body_cap: n, ..self }
    }

    /// Walk the file with a callback. Return `false` from `f` to stop early.
    pub fn for_each<F: FnMut(HttpMessage) -> bool>(self, f: F)
        requires
            forall|m: HttpMessage| call_requires(f, (m,)),
        ensures
            exists|called: Seq<HttpMessage>, outs: Seq<bool>|
                extract::handed(
                    f,
                    called,
                    outs,
                    extract::all_messages(self.source(), self.cap()),
                ),
    {
        let ghost all = extract::all_messages(self.source(), self.cap());
        assert(all == extract::all_messages(self.proj.file.data@, self.body_cap as int));
        extract::for_each_http(&self.proj.file, self.body_cap, f);
    }

    /// Collect every message into a `Vec`.
    pub fn collect(self) -> (r: Vec<HttpMessage>)
        ensures
            extract::http_models(r@) == extract::all_messages(self.source(), self.cap()),
    {
        extract::collect_http(&self.proj.file, self.body_cap)
    }

    /// Adapt to a `std::iter::Iterator` by collecting first.
    pub fn iter(self) -> (r: std::vec::IntoIter<HttpMessage>)
        ensures
            extract::http_models(vstd::std_specs::iter::IteratorSpec::remaining(&r))
                == extract::all_messages(self.source(), self.cap()),
    {
        self.collect().into_iter()
    }

    /// Yield only requests.
    pub fn requests(self) -> (r: std::vec::IntoIter<HttpMessage>)
        ensures
            extract::http_models(vstd::std_specs::iter::IteratorSpec::remaining(&r))
                == extract::of_kind(
                extract::all_messages(self.source(), self.cap()),
                "request"@,
            ),
    {
        extract::collect_kind(&self.proj.file, self.body_cap, "request").into_iter()
    }

    /// Yield only responses.
    pub fn responses(self) -> (r: std::vec::IntoIter<HttpMessage>)
        ensures
            extract::http_models(vstd::std_specs::iter::IteratorSpec::remaining(&r))
                == extract::of_kind(
                extract::all_messages(self.source(), self.cap()),
                "response"@,
            ),
    {
        extract::collect_kind(&self.proj.file, self.body_cap, "response").into_iter()
    }
}

} // verus!
