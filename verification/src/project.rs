//! Decode the project's state blobs into typed sections.
//!
//! Burp packs proxy history, scope, settings, scan tasks and scan issues
//! into a few large state blobs. The container around them isn't fully
//! known yet, so this module:
//!
//!  - classifies each blob by sentinel strings it contains;
//!  - pulls record-shaped strings out (scope rules, issues, cookies, ...).
//!
//! Strings inside a blob carry a 1-byte type tag (`t` = text, `d` = rule,
//! `s` = short, ...). We strip those when slicing.

use vstd::prelude::*;
use vstd::slice::slice_subrange;

use crate::chars;
use crate::classify;
use crate::order;
use crate::strs;

verus! {

#[derive(Debug, Clone, Copy, PartialEq, Eq, Structural)]
pub enum BlobRole {
    ScannerConfig,
    Issues,
    Scope,
    LiveTasks,
    Sitemap,
    Unknown,
}

#[derive(Debug)]
pub struct ProjectSummary {
    pub project_id_candidates: Vec<String>,
    pub scope_includes: Vec<String>,
    pub scope_excludes: Vec<String>,
    pub scope_rules_raw: Vec<String>,
    pub file_extension_filters: Vec<String>,
    pub live_tasks: Vec<String>,
    pub scanner_parameter_names: Vec<String>,
    pub issues: Vec<ScanIssue>,
    pub affected_urls: Vec<String>,
    pub flagged_cookies: Vec<String>,
    pub leaked_emails: Vec<String>,
    pub leaked_card_numbers: Vec<String>,
}

#[derive(Debug)]
pub struct StateBlobMeta {
    pub offset: usize,
    pub size: u32,
    pub role: BlobRole,
    pub first_token: String,
    pub string_count: usize,
}

#[derive(Debug, Clone)]
pub struct ScanIssue {
    pub title_or_excerpt: String,
    pub severity: Option<String>,
    pub confidence: Option<String>,
    pub url: Option<String>,
    pub path: Option<String>,
}

/// What a summary holds, with its texts as sequences of characters.
#[verifier::ext_equal]
pub struct SummaryModel {
    pub project_id_candidates: Seq<Seq<char>>,
    pub scope_includes: Seq<Seq<char>>,
    pub scope_excludes: Seq<Seq<char>>,
    pub scope_rules_raw: Seq<Seq<char>>,
    pub file_extension_filters: Seq<Seq<char>>,
    pub live_tasks: Seq<Seq<char>>,
    pub scanner_parameter_names: Seq<Seq<char>>,
    pub issues: Seq<IssueModel>,
    pub affected_urls: Seq<Seq<char>>,
    pub flagged_cookies: Seq<Seq<char>>,
    pub leaked_emails: Seq<Seq<char>>,
    pub leaked_card_numbers: Seq<Seq<char>>,
}

#[verifier::ext_equal]
pub struct MetaModel {
    pub offset: int,
    pub size: int,
    pub role: BlobRole,
    pub first_token: Seq<char>,
    pub string_count: int,
}

#[verifier::ext_equal]
pub struct IssueModel {
    pub title_or_excerpt: Seq<char>,
    pub severity: Option<Seq<char>>,
    pub confidence: Option<Seq<char>>,
    pub url: Option<Seq<char>>,
    pub path: Option<Seq<char>>,
}

pub open spec fn issue_models(v: Seq<ScanIssue>) -> Seq<IssueModel> {
    v.map_values(|i: ScanIssue| i@)
}

pub open spec fn meta_models(v: Seq<StateBlobMeta>) -> Seq<MetaModel> {
    v.map_values(|m: StateBlobMeta| m@)
}

impl View for ScanIssue {
    type V = IssueModel;

    open spec fn view(&self) -> IssueModel {
        IssueModel {
            title_or_excerpt: self.title_or_excerpt@,
            severity: strs::opt_text(self.severity),
            confidence: strs::opt_text(self.confidence),
            url: strs::opt_text(self.url),
            path: strs::opt_text(self.path),
        }
    }
}

impl View for StateBlobMeta {
    type V = MetaModel;

    open spec fn view(&self) -> MetaModel {
        MetaModel {
            offset: self.offset as int,
            size: self.size as int,
            role: self.role,
            first_token: self.first_token@,
            string_count: self.string_count as int,
        }
    }
}

impl View for ProjectSummary {
    type V = SummaryModel;

    open spec fn view(&self) -> SummaryModel {
        SummaryModel {
            project_id_candidates: strs::texts(self.project_id_candidates@),
            scope_includes: strs::texts(self.scope_includes@),
            scope_excludes: strs::texts(self.scope_excludes@),
            scope_rules_raw: strs::texts(self.scope_rules_raw@),
            file_extension_filters: strs::texts(self.file_extension_filters@),
            live_tasks: strs::texts(self.live_tasks@),
            scanner_parameter_names: strs::texts(self.scanner_parameter_names@),
            issues: issue_models(self.issues@),
            affected_urls: strs::texts(self.affected_urls@),
            flagged_cookies: strs::texts(self.flagged_cookies@),
            leaked_emails: strs::texts(self.leaked_emails@),
            leaked_card_numbers: strs::texts(self.leaked_card_numbers@),
        }
    }
}

pub open spec fn blank_issue() -> IssueModel {
    IssueModel {
        title_or_excerpt: Seq::empty(),
        severity: None,
        confidence: None,
        url: None,
        path: None,
    }
}

pub open spec fn blank_summary() -> SummaryModel {
    SummaryModel {
        project_id_candidates: Seq::empty(),
        scope_includes: Seq::empty(),
        scope_excludes: Seq::empty(),
        scope_rules_raw: Seq::empty(),
        file_extension_filters: Seq::empty(),
        live_tasks: Seq::empty(),
        scanner_parameter_names: Seq::empty(),
        issues: Seq::empty(),
        affected_urls: Seq::empty(),
        flagged_cookies: Seq::empty(),
        leaked_emails: Seq::empty(),
        leaked_card_numbers: Seq::empty(),
    }
}

impl Default for ScanIssue {
    fn default() -> (r: Self)
        ensures
            r@ == blank_issue(),
    {
        ScanIssue {
            title_or_excerpt: String::new(),
            severity: None,
            confidence: None,
            url: None,
            path: None,
        }
    }
}

impl Default for ProjectSummary {
    fn default() -> (r: Self)
        ensures
            r@ == blank_summary(),
    {
        let r: ProjectSummary = ProjectSummary {
            project_id_candidates: Vec::new(),
            scope_includes: Vec::new(),
            scope_excludes: Vec::new(),
            scope_rules_raw: Vec::new(),
            file_extension_filters: Vec::new(),
            live_tasks: Vec::new(),
            scanner_parameter_names: Vec::new(),
            issues: Vec::new(),
            affected_urls: Vec::new(),
            flagged_cookies: Vec::new(),
            leaked_emails: Vec::new(),
            leaked_card_numbers: Vec::new(),
        };
        assert(r@ =~= blank_summary());
        r
    }
}

/// CSP/XSS finding prose, which only issue blobs carry.
pub open spec fn issue_sentinel(s: Seq<char>) -> bool {
    ||| strs::has(s, "form hijacking"@)
    ||| strs::has(s, "Cross-site scripting"@)
    ||| strs::has(s, "unsafe-inline"@)
    ||| strs::has(s, "unsafe-eval"@)
    ||| strs::has(s, "Content Security Policy"@)
    ||| strs::has(s, "Severity"@)
    ||| strs::has(s, "Confidence"@)
    ||| strs::has(s, "SQL injection"@)
    ||| strs::has(s, "Cross-origin"@)
    ||| strs::has(s, "Open redirection"@)
}

/// A parameter name that scanner configurations list, in any case.
pub open spec fn scanner_sentinel(s: Seq<char>) -> bool {
    let n = strs::lower_text(s);
    ||| n == "__viewstate"@
    ||| n == "__eventargument"@
    ||| n == "__eventvalidation"@
    ||| n == "jsessionid"@
    ||| n == "phpsessid"@
    ||| n == "cftoken"@
    ||| n == "cfid"@
}

pub open spec fn live_task(s: Seq<char>) -> bool {
    strs::has(s, "Proxy (all traffic)"@) || strs::has(s, "Audit checks"@)
}

pub open spec fn scope_rule(s: Seq<char>) -> bool {
    strs::has(s, "return true;"@) || strs::has(s, "return false;"@)
}

/// Labels between dots, at least two, of at most 253 characters, behind a type
/// tag.
pub open spec fn hostname(s: Seq<char>) -> bool {
    let t = strs::untagged(strs::trimmed(s), " tds"@);
    t.contains('.') && t.len() <= 253 && strs::host_labels(strs::fields(t, '.'))
}

pub open spec fn any_issue_sentinel(v: Seq<Seq<char>>) -> bool {
    exists|i: int| 0 <= i < v.len() && issue_sentinel(#[trigger] v[i])
}

pub open spec fn any_live_task(v: Seq<Seq<char>>) -> bool {
    exists|i: int| 0 <= i < v.len() && live_task(#[trigger] v[i])
}

pub open spec fn any_scope_rule(v: Seq<Seq<char>>) -> bool {
    exists|i: int| 0 <= i < v.len() && scope_rule(#[trigger] v[i])
}

/// How many texts are such a parameter name.
pub open spec fn scanner_hits(v: Seq<Seq<char>>) -> nat
    decreases v.len(),
{
    if v.len() == 0 {
        0
    } else {
        scanner_hits(v.drop_last()) + if scanner_sentinel(v.last()) {
            1nat
        } else {
            0
        }
    }
}

/// How many texts are host names.
pub open spec fn hostnames(v: Seq<Seq<char>>) -> nat
    decreases v.len(),
{
    if v.len() == 0 {
        0
    } else {
        hostnames(v.drop_last()) + if hostname(v.last()) {
            1nat
        } else {
            0
        }
    }
}

/// The role of a blob that holds the given texts. The tests apply in this
/// order.
pub open spec fn role_of(v: Seq<Seq<char>>) -> BlobRole {
    if any_issue_sentinel(v) {
        BlobRole::Issues
    } else if scanner_hits(v) >= 3 {
        BlobRole::ScannerConfig
    } else if any_live_task(v) {
        BlobRole::LiveTasks
    } else if any_scope_rule(v) {
        BlobRole::Scope
    } else if hostnames(v) >= 10 {
        BlobRole::Sitemap
    } else {
        BlobRole::Unknown
    }
}

fn has_issue_sentinel(s: &[char]) -> (r: bool)
    ensures
        r == issue_sentinel(s@),
{
    strs::contains(s, "form hijacking") || strs::contains(s, "Cross-site scripting")
        || strs::contains(s, "unsafe-inline") || strs::contains(s, "unsafe-eval")
        || strs::contains(s, "Content Security Policy") || strs::contains(s, "Severity")
        || strs::contains(s, "Confidence") || strs::contains(s, "SQL injection") || strs::contains(
        s,
        "Cross-origin",
    ) || strs::contains(s, "Open redirection")
}

fn is_scanner_sentinel(s: &[char]) -> (r: bool)
    ensures
        r == scanner_sentinel(s@),
{
    let n: Vec<char> = strs::lower(s);
    strs::is_text(&n, "__viewstate") || strs::is_text(&n, "__eventargument") || strs::is_text(
        &n,
        "__eventvalidation",
    ) || strs::is_text(&n, "jsessionid") || strs::is_text(&n, "phpsessid") || strs::is_text(
        &n,
        "cftoken",
    ) || strs::is_text(&n, "cfid")
}

fn is_live_task(s: &[char]) -> (r: bool)
    ensures
        r == live_task(s@),
{
    strs::contains(s, "Proxy (all traffic)") || strs::contains(s, "Audit checks")
}

fn is_hostname(s: &[char]) -> (r: bool)
    ensures
        r == hostname(s@),
{
    let t: &[char] = strs::untag(strs::trim(s), " tds");
    if !strs::holds(t, '.') || t.len() > 253 {
        return false;
    }
    let labels: Vec<&[char]> = strs::split_char(t, '.');
    strs::are_host_labels(&labels)
}

/// The role of a blob that holds the given strings.
pub fn classify_blob(strings: &[String]) -> (r: BlobRole)
    ensures
        r == role_of(strs::texts(strings@)),
{
    let ghost v = strs::texts(strings@);
    let mut task: bool = false;
    let mut rule: bool = false;
    let mut hits: usize = 0;
    let mut hosts: usize = 0;
    assert(v.take(0) =~= Seq::<Seq<char>>::empty());
    for i in 0..strings.len()
        invariant
            v == strs::texts(strings@),
            !any_issue_sentinel(v.take(i as int)),
            task == any_live_task(v.take(i as int)),
            rule == any_scope_rule(v.take(i as int)),
            hits <= i,
            hosts <= i,
            hits == scanner_hits(v.take(i as int)),
            hosts == hostnames(v.take(i as int)),
    {
        let text: Vec<char> = strs::chars_of(strings[i].as_str());
        let s: &[char] = text.as_slice();
        proof {
            lemma_one_more(v, i as int);
        }
        assert(v[i as int] == s@);
        if has_issue_sentinel(s) {
            return BlobRole::Issues;
        }
        if is_scanner_sentinel(s) {
            hits = hits + 1;
        }
        if is_live_task(s) {
            task = true;
        }
        if strs::contains(s, "return true;") || strs::contains(s, "return false;") {
            rule = true;
        }
        if is_hostname(s) {
            hosts = hosts + 1;
        }
    }
    assert(v.take(v.len() as int) =~= v);
    if hits >= 3 {
        BlobRole::ScannerConfig
    } else if task {
        BlobRole::LiveTasks
    } else if rule {
        BlobRole::Scope
    } else if hosts >= 10 {
        BlobRole::Sitemap
    } else {
        BlobRole::Unknown
    }
}

proof fn lemma_one_more(v: Seq<Seq<char>>, i: int)
    requires
        0 <= i < v.len(),
    ensures
        v.take(i + 1).drop_last() == v.take(i),
        v.take(i + 1).last() == v[i],
        any_issue_sentinel(v.take(i + 1)) == (any_issue_sentinel(v.take(i)) || issue_sentinel(v[i])),
        any_live_task(v.take(i + 1)) == (any_live_task(v.take(i)) || live_task(v[i])),
        any_scope_rule(v.take(i + 1)) == (any_scope_rule(v.take(i)) || scope_rule(v[i])),
{
    let (a, b) = (v.take(i), v.take(i + 1));
    assert(b.drop_last() =~= a);
    assert(b[i] == v[i]);
    assert forall|k: int| 0 <= k < i implies #[trigger] b[k] == a[k] by {}
    if any_issue_sentinel(a) {
        let k = choose|k: int| 0 <= k < a.len() && issue_sentinel(#[trigger] a[k]);
        assert(issue_sentinel(b[k]));
    }
    if any_issue_sentinel(b) {
        let k = choose|k: int| 0 <= k < b.len() && issue_sentinel(#[trigger] b[k]);
        if k < i {
            assert(issue_sentinel(a[k]));
        }
    }
    if any_live_task(a) {
        let k = choose|k: int| 0 <= k < a.len() && live_task(#[trigger] a[k]);
        assert(live_task(b[k]));
    }
    if any_live_task(b) {
        let k = choose|k: int| 0 <= k < b.len() && live_task(#[trigger] b[k]);
        if k < i {
            assert(live_task(a[k]));
        }
    }
    if any_scope_rule(a) {
        let k = choose|k: int| 0 <= k < a.len() && scope_rule(#[trigger] a[k]);
        assert(scope_rule(b[k]));
    }
    if any_scope_rule(b) {
        let k = choose|k: int| 0 <= k < b.len() && scope_rule(#[trigger] b[k]);
        if k < i {
            assert(scope_rule(a[k]));
        }
    }
}

/// The first severity, in this order, that a text names.
pub open spec fn severity_in(s: Seq<char>) -> Option<Seq<char>> {
    if strs::has(s, "Severity: High"@) {
        Some("Severity: High"@)
    } else if strs::has(s, "Severity: Medium"@) {
        Some("Severity: Medium"@)
    } else if strs::has(s, "Severity: Low"@) {
        Some("Severity: Low"@)
    } else if strs::has(s, "Severity: Information"@) {
        Some("Severity: Information"@)
    } else if strs::has(s, "High"@) {
        Some("High"@)
    } else if strs::has(s, "Medium"@) {
        Some("Medium"@)
    } else if strs::has(s, "Low"@) {
        Some("Low"@)
    } else if strs::has(s, "Information"@) {
        Some("Information"@)
    } else {
        None
    }
}

/// The first confidence, in this order, that a text names.
pub open spec fn confidence_in(s: Seq<char>) -> Option<Seq<char>> {
    if strs::has(s, "Confidence: Certain"@) {
        Some("Confidence: Certain"@)
    } else if strs::has(s, "Confidence: Firm"@) {
        Some("Confidence: Firm"@)
    } else if strs::has(s, "Confidence: Tentative"@) {
        Some("Confidence: Tentative"@)
    } else {
        None
    }
}

pub open spec fn web_address(s: Seq<char>) -> bool {
    strs::prefixed(s, "http://"@) || strs::prefixed(s, "https://"@)
}

/// The web address that a text holds behind blanks and type tags.
pub open spec fn url_in(s: Seq<char>) -> Option<Seq<char>> {
    let t = strs::ltrim_set(s, " tdsbe"@);
    if web_address(t) {
        Some(t)
    } else {
        None
    }
}

/// A path: a slash and more, in 2 to 4096 bytes, without a space or an angle
/// bracket.
pub open spec fn path_like(s: Seq<char>) -> bool {
    let t = strs::trimmed(s);
    &&& strs::prefixed(t, "/"@)
    &&& 2 <= strs::utf8_len(t) <= 4096
    &&& !t.contains(' ')
    &&& !t.contains('<')
}

/// Issue prose has HTML markup, or is long and speaks of policies,
/// vulnerabilities or attackers.
pub open spec fn issue_prose(s: Seq<char>) -> bool {
    ||| strs::has(s, "</p>"@)
    ||| strs::has(s, "<p>"@)
    ||| strs::has(s, "<code>"@)
    ||| strs::has(s, "<b>"@)
    ||| strs::utf8_len(s) > 80 && (strs::has(s, "policy"@) || strs::has(s, "vulnerab"@)
        || strs::has(s, "attacker"@))
}

/// The cookie that a text flags: "Other: " and a name of less than 128 bytes
/// without a space.
pub open spec fn cookie_in(s: Seq<char>) -> Option<Seq<char>> {
    let name = strs::trimmed(s.skip(7));
    if strs::prefixed(s, "Other: "@) && 0 < strs::utf8_len(name) < 128 && !name.contains(' ') {
        Some(name)
    } else {
        None
    }
}

/// The email address that a text is, up to white space: a local part, the
/// first at sign, and a domain with a dot.
pub open spec fn email_in(s: Seq<char>) -> Option<Seq<char>> {
    let t = strs::trimmed(s);
    match strs::cut(t, '@') {
        Some((local, dom)) => if local.len() > 0 && strs::word_of(local, "._+-"@) && dom.contains(
            '.',
        ) && dom.len() <= 253 && strs::word_of(dom, ".-"@) && t.len() <= 254 {
            Some(t)
        } else {
            None
        },
        None => None,
    }
}

/// The value of a decimal digit; of any other character, zero.
pub open spec fn digit_value(c: char) -> nat {
    if chars::digit(c) {
        (c as u32 - '0' as u32) as nat
    } else {
        0
    }
}

/// What a digit adds to a Luhn sum; where it counts twice, its digits are
/// added up.
pub open spec fn luhn_weight(c: char, twice: bool) -> nat {
    let d = digit_value(c);
    if !twice {
        d
    } else if d > 4 {
        (2 * d - 9) as nat
    } else {
        2 * d
    }
}

/// The Luhn sum from the right; `twice` says whether the last digit counts
/// twice, and every other one to its left does too.
pub open spec fn luhn_sum(s: Seq<char>, twice: bool) -> nat
    decreases s.len(),
{
    if s.len() == 0 {
        0
    } else {
        luhn_weight(s.last(), twice) + luhn_sum(s.drop_last(), !twice)
    }
}

pub open spec fn luhn_valid(s: Seq<char>) -> bool {
    luhn_sum(s, false) % 10 == 0
}

/// The card number that a text is, up to white space: 13 to 19 digits that
/// pass the Luhn test.
pub open spec fn card_in(s: Seq<char>) -> Option<Seq<char>> {
    let t = strs::trimmed(s);
    if 13 <= t.len() <= 19 && strs::all_digits(t) && luhn_valid(t) {
        Some(t)
    } else {
        None
    }
}

/// An eight-character base-36 id with a letter and a digit, such as
/// "xp6q26jc".
pub open spec fn project_id(s: Seq<char>) -> bool {
    &&& s.len() == 8
    &&& forall|i: int| 0 <= i < s.len() ==> chars::lowercase(#[trigger] s[i]) || chars::digit(s[i])
    &&& exists|i: int| 0 <= i < s.len() && chars::digit(#[trigger] s[i])
    &&& exists|i: int| 0 <= i < s.len() && chars::alphabetic(#[trigger] s[i])
}

/// A parameter name: at most 64 bytes, and, up to white space, letters,
/// digits and a few marks.
pub open spec fn param_name(s: Seq<char>) -> bool {
    let t = strs::trimmed(s);
    strs::utf8_len(s) <= 64 && t.len() > 0 && strs::word_of(t, "_-.*:"@)
}

/// A file extension: one to eight letters.
pub open spec fn extension(s: Seq<char>) -> bool {
    let p = strs::trimmed(s);
    0 < p.len() <= 8 && strs::all_alphabetic(p)
}

/// The list of at least three file extensions that a text is, behind a type
/// tag.
pub open spec fn extensions_in(s: Seq<char>) -> Option<Seq<char>> {
    let t = strs::untagged(strs::trimmed(s), "dstb"@);
    let parts = strs::fields(t, ',');
    if parts.len() >= 3 && (forall|i: int|
        0 <= i < parts.len() ==> extension(#[trigger] parts[i])) {
        Some(t)
    } else {
        None
    }
}

/// The severity that a string names.
pub fn parse_severity(s: &str) -> (r: Option<String>)
    ensures
        strs::opt_text(r) == severity_in(s@),
{
    let c: Vec<char> = strs::chars_of(s);
    if strs::contains(&c, "Severity: High") {
        Some("Severity: High".to_owned())
    } else if strs::contains(&c, "Severity: Medium") {
        Some("Severity: Medium".to_owned())
    } else if strs::contains(&c, "Severity: Low") {
        Some("Severity: Low".to_owned())
    } else if strs::contains(&c, "Severity: Information") {
        Some("Severity: Information".to_owned())
    } else if strs::contains(&c, "High") {
        Some("High".to_owned())
    } else if strs::contains(&c, "Medium") {
        Some("Medium".to_owned())
    } else if strs::contains(&c, "Low") {
        Some("Low".to_owned())
    } else if strs::contains(&c, "Information") {
        Some("Information".to_owned())
    } else {
        None
    }
}

/// The confidence that a string names.
pub fn parse_confidence(s: &str) -> (r: Option<String>)
    ensures
        strs::opt_text(r) == confidence_in(s@),
{
    let c: Vec<char> = strs::chars_of(s);
    if strs::contains(&c, "Confidence: Certain") {
        Some("Confidence: Certain".to_owned())
    } else if strs::contains(&c, "Confidence: Firm") {
        Some("Confidence: Firm".to_owned())
    } else if strs::contains(&c, "Confidence: Tentative") {
        Some("Confidence: Tentative".to_owned())
    } else {
        None
    }
}

fn parse_url(s: &[char]) -> (r: Option<String>)
    ensures
        strs::opt_text(r) == url_in(s@),
{
    let t: &[char] = strs::trim_start_of(s, " tdsbe");
    if strs::starts_with(t, "http://") || strs::starts_with(t, "https://") {
        Some(strs::string_of(t))
    } else {
        None
    }
}

fn is_path(s: &[char]) -> (r: bool)
    ensures
        r == path_like(s@),
{
    let t: &[char] = strs::trim(s);
    strs::starts_with(t, "/") && strs::longer_than(t, 1) && !strs::longer_than(t, 4096)
        && !strs::holds(t, ' ') && !strs::holds(t, '<')
}

fn is_issue_text(s: &[char]) -> (r: bool)
    ensures
        r == issue_prose(s@),
{
    strs::contains(s, "</p>") || strs::contains(s, "<p>") || strs::contains(s, "<code>")
        || strs::contains(s, "<b>") || (strs::longer_than(s, 80) && (strs::contains(s, "policy")
        || strs::contains(s, "vulnerab") || strs::contains(s, "attacker")))
}

/// The cookie that a string flags.
pub fn parse_cookie_finding(s: &str) -> (r: Option<String>)
    ensures
        strs::opt_text(r) == cookie_in(s@),
{
    let c: Vec<char> = strs::chars_of(s);
    proof {
        reveal_strlit("Other: ");
    }
    if strs::starts_with(&c, "Other: ") {
        let rest: &[char] = slice_subrange(c.as_slice(), 7, c.len());
        assert(rest@ =~= s@.skip(7));
        let name: &[char] = strs::trim(rest);
        if strs::longer_than(name, 0) && !strs::longer_than(name, 127) && !strs::holds(name, ' ') {
            return Some(strs::string_of(name));
        }
    }
    None
}

/// The email address that a string is.
pub fn parse_email(s: &str) -> (r: Option<String>)
    ensures
        strs::opt_text(r) == email_in(s@),
{
    let c: Vec<char> = strs::chars_of(s);
    let t: &[char] = strs::trim(&c);
    match strs::cut_at(t, '@') {
        Some(p) => {
            let local: &[char] = p.0;
            let dom: &[char] = p.1;
            if local.len() > 0 && strs::is_word_of(local, "._+-") && strs::holds(dom, '.')
                && dom.len() <= 253 && strs::is_word_of(dom, ".-") && t.len() <= 254 {
                Some(strs::string_of(t))
            } else {
                None
            }
        },
        None => None,
    }
}

proof fn lemma_digit_sum(a: nat, b: nat)
    ensures
        (a % 10 + b) % 10 == (a + b) % 10,
{
}

/// Whether a string of digits passes the Luhn test.
pub fn luhn(s: &str) -> (r: bool)
    ensures
        r == luhn_valid(s@),
{
    let c: Vec<char> = strs::chars_of(s);
    let mut i: usize = c.len();
    let mut twice: bool = false;
    let mut sum: u32 = 0;
    assert(c@.take(i as int) =~= c@);
    while i > 0
        invariant
            i <= c@.len(),
            c@ == s@,
            sum < 10,
            (sum + luhn_sum(c@.take(i as int), twice)) % 10 == luhn_sum(c@, false) % 10,
        decreases i,
    {
        let x: char = c[i - 1];
        let mut d: u32 = if chars::is_digit(x) {
            x as u32 - '0' as u32
        } else {
            0
        };
        if twice {
            d = d * 2;
            if d > 9 {
                d = d - 9;
            }
        }
        assert(c@.take(i as int).last() == x);
        assert(c@.take(i as int).drop_last() =~= c@.take(i - 1));
        let ghost rest = luhn_sum(c@.take(i - 1), !twice);
        proof {
            assert(d == luhn_weight(x, twice));
            lemma_digit_sum((sum + d) as nat, rest);
        }
        sum = (sum + d) % 10;
        twice = !twice;
        i = i - 1;
    }
    assert(c@.take(0) =~= Seq::<char>::empty());
    sum == 0
}

/// The card number that a string is.
pub fn parse_card_number(s: &str) -> (r: Option<String>)
    ensures
        strs::opt_text(r) == card_in(s@),
{
    let c: Vec<char> = strs::chars_of(s);
    let t: &[char] = strs::trim(&c);
    if t.len() < 13 || t.len() > 19 || !strs::is_all_digits(t) {
        return None;
    }
    let number: String = strs::string_of(t);
    if luhn(number.as_str()) {
        Some(number)
    } else {
        None
    }
}

fn is_project_id_like(s: &[char]) -> (r: bool)
    ensures
        r == project_id(s@),
{
    if s.len() != 8 {
        return false;
    }
    let mut any_digit: bool = false;
    let mut any_letter: bool = false;
    for i in 0..s.len()
        invariant
            s@.len() == 8,
            forall|j: int| 0 <= j < i ==> chars::lowercase(#[trigger] s@[j]) || chars::digit(s@[j]),
            any_digit <==> exists|j: int| 0 <= j < i && chars::digit(#[trigger] s@[j]),
            any_letter <==> exists|j: int| 0 <= j < i && chars::alphabetic(#[trigger] s@[j]),
    {
        let c: char = s[i];
        if chars::is_digit(c) {
            any_digit = true;
        }
        if chars::is_alphabetic(c) {
            any_letter = true;
        }
        if !chars::is_lowercase(c) && !chars::is_digit(c) {
            return false;
        }
    }
    any_digit && any_letter
}

fn looks_like_param_name(s: &[char]) -> (r: bool)
    ensures
        r == param_name(s@),
{
    let t: &[char] = strs::trim(s);
    !strs::longer_than(s, 64) && t.len() > 0 && strs::is_word_of(t, "_-.*:")
}

/// The list of file extensions that a string is.
pub fn parse_extension_list(s: &str) -> (r: Option<String>)
    ensures
        strs::opt_text(r) == extensions_in(s@),
{
    let c: Vec<char> = strs::chars_of(s);
    let t: &[char] = strs::untag(strs::trim(&c), "dstb");
    let parts: Vec<&[char]> = strs::split_char(t, ',');
    let ghost list = strs::fields(t@, ',');
    if parts.len() < 3 {
        return None;
    }
    for i in 0..parts.len()
        invariant
            list == strs::parts(parts@),
            list == strs::fields(t@, ','),
            t@ == strs::untagged(strs::trimmed(s@), "dstb"@),
            forall|j: int| 0 <= j < i ==> extension(#[trigger] list[j]),
    {
        let p: &[char] = strs::trim(parts[i]);
        assert(list[i as int] == parts@[i as int]@);
        if p.len() == 0 || p.len() > 8 || !strs::is_all_alphabetic(p) {
            assert(!extension(list[i as int]));
            return None;
        }
    }
    Some(strs::string_of(t))
}

/// A list with one more text, where there is one.
pub open spec fn with_text(list: Seq<Seq<char>>, o: Option<Seq<char>>) -> Seq<Seq<char>> {
    match o {
        Some(t) => list.push(t),
        None => list,
    }
}

/// A text, where it passes a test.
pub open spec fn given(pass: bool, s: Seq<char>) -> Option<Seq<char>> {
    if pass {
        Some(s)
    } else {
        None
    }
}

/// A summary with what any text of any blob may show.
pub open spec fn with_signals(m: SummaryModel, s: Seq<char>) -> SummaryModel {
    SummaryModel {
        affected_urls: with_text(m.affected_urls, url_in(s)),
        flagged_cookies: with_text(m.flagged_cookies, cookie_in(s)),
        leaked_emails: with_text(m.leaked_emails, email_in(s)),
        leaked_card_numbers: with_text(m.leaked_card_numbers, card_in(s)),
        project_id_candidates: with_text(
            m.project_id_candidates,
            given(project_id(s), strs::trimmed(s)),
        ),
        ..m
    }
}

/// A summary with a text of a scanner configuration.
pub open spec fn with_scanner_text(m: SummaryModel, s: Seq<char>) -> SummaryModel {
    with_signals(
        SummaryModel {
            scanner_parameter_names: with_text(
                m.scanner_parameter_names,
                given(param_name(s), s),
            ),
            ..m
        },
        s,
    )
}

/// A summary with a text of a scope blob.
pub open spec fn with_scope_text(m: SummaryModel, s: Seq<char>) -> SummaryModel {
    let rule = strs::untagged(s, "dst "@);
    let inside = strs::has(s, "return true;"@);
    let outside = !inside && strs::has(s, "return false;"@);
    with_signals(
        SummaryModel {
            scope_includes: with_text(m.scope_includes, given(inside, rule)),
            scope_excludes: with_text(m.scope_excludes, given(outside, rule)),
            scope_rules_raw: with_text(m.scope_rules_raw, given(inside || outside, s)),
            file_extension_filters: with_text(m.file_extension_filters, extensions_in(s)),
            ..m
        },
        s,
    )
}

/// A summary with a text of a live-task blob.
pub open spec fn with_task_text(m: SummaryModel, s: Seq<char>) -> SummaryModel {
    with_signals(
        SummaryModel {
            live_tasks: with_text(m.live_tasks, given(live_task(s), strs::trimmed(s))),
            ..m
        },
        s,
    )
}

/// The issue that is being read, with what a text says of it.
pub open spec fn noted(cur: IssueModel, s: Seq<char>) -> IssueModel {
    IssueModel {
        severity: if severity_in(s) is Some {
            severity_in(s)
        } else {
            cur.severity
        },
        confidence: if confidence_in(s) is Some {
            confidence_in(s)
        } else {
            cur.confidence
        },
        url: if cur.url is None {
            url_in(s)
        } else {
            cur.url
        },
        path: if path_like(s) && cur.path is None {
            Some(s)
        } else {
            cur.path
        },
        ..cur
    }
}

/// An issue worth keeping: it has an excerpt or a web address.
pub open spec fn worthwhile(i: IssueModel) -> bool {
    i.title_or_excerpt.len() > 0 || i.url is Some
}

/// The issues with the one being read, where it is worth keeping.
pub open spec fn with_issue(m: SummaryModel, i: IssueModel) -> SummaryModel {
    if worthwhile(i) {
        SummaryModel { issues: m.issues.push(i), ..m }
    } else {
        m
    }
}

/// The issue being read and the summary, after a text of an issue blob. Issue
/// prose closes the issue before it and opens the next.
pub open spec fn with_issue_text(st: (IssueModel, SummaryModel), s: Seq<char>) -> (
    IssueModel,
    SummaryModel,
) {
    let cur = noted(st.0, s);
    let (next, m) = if issue_prose(s) {
        let open = if worthwhile(cur) {
            blank_issue()
        } else {
            cur
        };
        (
            IssueModel { title_or_excerpt: strs::clipped(s, 240), ..open },
            with_issue(st.1, cur),
        )
    } else {
        (cur, st.1)
    };
    (next, with_signals(m, s))
}

/// The issue being read and the summary, after the texts of an issue blob.
pub open spec fn reading_issues(m: SummaryModel, v: Seq<Seq<char>>) -> (IssueModel, SummaryModel)
    decreases v.len(),
{
    if v.len() == 0 {
        (blank_issue(), m)
    } else {
        with_issue_text(reading_issues(m, v.drop_last()), v.last())
    }
}

/// A summary with one more text of a blob with the given role, other than
/// issues.
pub open spec fn with_blob_text(m: SummaryModel, role: BlobRole, s: Seq<char>) -> SummaryModel {
    match role {
        BlobRole::ScannerConfig => with_scanner_text(m, s),
        BlobRole::Scope => with_scope_text(m, s),
        BlobRole::LiveTasks => with_task_text(m, s),
        _ => with_signals(m, s),
    }
}

/// A summary with the texts of a blob with the given role, other than issues.
pub open spec fn with_blob_texts(m: SummaryModel, role: BlobRole, v: Seq<Seq<char>>) -> SummaryModel
    decreases v.len(),
{
    if v.len() == 0 {
        m
    } else {
        with_blob_text(with_blob_texts(m, role, v.drop_last()), role, v.last())
    }
}

/// A summary with the texts of a blob, which its role tells how to read.
pub open spec fn with_blob(m: SummaryModel, v: Seq<Seq<char>>) -> SummaryModel {
    match role_of(v) {
        BlobRole::Issues => {
            let (cur, m) = reading_issues(m, v);
            with_issue(m, cur)
        },
        role => with_blob_texts(m, role, v),
    }
}

/// A state blob: where it lies, its size, and its bytes.
pub struct Blob {
    pub offset: int,
    pub size: int,
    pub payload: Seq<u8>,
}

pub open spec fn blobs_of(v: Seq<(usize, u32, Vec<u8>)>) -> Seq<Blob> {
    v.map_values(
        |b: (usize, u32, Vec<u8>)|
            Blob { offset: b.0 as int, size: b.1 as int, payload: b.2@ },
    )
}

/// The texts of a blob that its summary is made from.
pub open spec fn blob_texts(b: Blob) -> Seq<Seq<char>> {
    classify::runs16(b.payload, 0, 3)
}

/// The index entry of a blob.
pub open spec fn meta_of(b: Blob) -> MetaModel {
    let v = blob_texts(b);
    MetaModel {
        offset: b.offset,
        size: b.size,
        role: role_of(v),
        first_token: if v.len() > 0 {
            strs::clipped(v[0], 80)
        } else {
            Seq::empty()
        },
        string_count: v.len() as int,
    }
}

/// A summary with all the blobs.
pub open spec fn with_blobs(m: SummaryModel, blobs: Seq<Blob>) -> SummaryModel
    decreases blobs.len(),
{
    if blobs.len() == 0 {
        m
    } else {
        with_blob(with_blobs(m, blobs.drop_last()), blob_texts(blobs.last()))
    }
}

/// A summary with every list but the issues in order and without repetition.
pub open spec fn settled(m: SummaryModel) -> SummaryModel {
    SummaryModel {
        project_id_candidates: order::sorted_set(m.project_id_candidates),
        scope_includes: order::sorted_set(m.scope_includes),
        scope_excludes: order::sorted_set(m.scope_excludes),
        scope_rules_raw: order::sorted_set(m.scope_rules_raw),
        file_extension_filters: order::sorted_set(m.file_extension_filters),
        live_tasks: order::sorted_set(m.live_tasks),
        scanner_parameter_names: order::sorted_set(m.scanner_parameter_names),
        issues: m.issues,
        affected_urls: order::sorted_set(m.affected_urls),
        flagged_cookies: order::sorted_set(m.flagged_cookies),
        leaked_emails: order::sorted_set(m.leaked_emails),
        leaked_card_numbers: order::sorted_set(m.leaked_card_numbers),
    }
}

/// The summary of some blobs.
pub open spec fn summary_of(blobs: Seq<Blob>) -> SummaryModel {
    settled(with_blobs(blank_summary(), blobs))
}

pub open spec fn metas_of(blobs: Seq<Blob>) -> Seq<MetaModel> {
    blobs.map_values(|b: Blob| meta_of(b))
}

fn keep_some(list: &mut Vec<String>, o: Option<String>)
    ensures
        strs::texts(final(list)@) == with_text(strs::texts(old(list)@), strs::opt_text(o)),
{
    match o {
        Some(t) => {
            proof {
                strs::lemma_texts_push(list@, t);
            }
            list.push(t);
        },
        None => {},
    }
}

fn harvest_loose_signals_one(s: &str, text: &[char], out: &mut ProjectSummary)
    requires
        text@ == s@,
    ensures
        final(out)@ == with_signals(old(out)@, s@),
{
    keep_some(&mut out.affected_urls, parse_url(text));
    keep_some(&mut out.flagged_cookies, parse_cookie_finding(s));
    keep_some(&mut out.leaked_emails, parse_email(s));
    keep_some(&mut out.leaked_card_numbers, parse_card_number(s));
    if is_project_id_like(text) {
        strs::keep(&mut out.project_id_candidates, strs::trim(text));
    }
}

fn harvest_scanner_config_one(s: &str, text: &[char], out: &mut ProjectSummary)
    requires
        text@ == s@,
    ensures
        final(out)@ == with_scanner_text(old(out)@, s@),
{
    if looks_like_param_name(text) {
        strs::keep(&mut out.scanner_parameter_names, text);
    }
    harvest_loose_signals_one(s, text, out);
}

fn harvest_scope_one(s: &str, text: &[char], out: &mut ProjectSummary)
    requires
        text@ == s@,
    ensures
        final(out)@ == with_scope_text(old(out)@, s@),
{
    if strs::contains(text, "return true;") {
        strs::keep(&mut out.scope_includes, strs::untag(text, "dst "));
        strs::keep(&mut out.scope_rules_raw, text);
    } else if strs::contains(text, "return false;") {
        strs::keep(&mut out.scope_excludes, strs::untag(text, "dst "));
        strs::keep(&mut out.scope_rules_raw, text);
    }
    keep_some(&mut out.file_extension_filters, parse_extension_list(s));
    harvest_loose_signals_one(s, text, out);
}

fn harvest_live_tasks_one(s: &str, text: &[char], out: &mut ProjectSummary)
    requires
        text@ == s@,
    ensures
        final(out)@ == with_task_text(old(out)@, s@),
{
    if is_live_task(text) {
        strs::keep(&mut out.live_tasks, strs::trim(text));
    }
    harvest_loose_signals_one(s, text, out);
}

/// Read the strings of a blob that holds no issues.
fn harvest_blob(strings: &[String], role: BlobRole, out: &mut ProjectSummary)
    ensures
        final(out)@ == with_blob_texts(old(out)@, role, strs::texts(strings@)),
{
    let ghost v = strs::texts(strings@);
    let ghost start = out@;
    assert(v.take(0) =~= Seq::<Seq<char>>::empty());
    for i in 0..strings.len()
        invariant
            v == strs::texts(strings@),
            start == old(out)@,
            out@ == with_blob_texts(start, role, v.take(i as int)),
    {
        assert(v.take(i + 1).drop_last() =~= v.take(i as int));
        assert(v.take(i + 1).last() == strings@[i as int]@);
        let s: &str = strings[i].as_str();
        let text: Vec<char> = strs::chars_of(s);
        match role {
            BlobRole::ScannerConfig => harvest_scanner_config_one(s, text.as_slice(), out),
            BlobRole::Scope => harvest_scope_one(s, text.as_slice(), out),
            BlobRole::LiveTasks => harvest_live_tasks_one(s, text.as_slice(), out),
            _ => harvest_loose_signals_one(s, text.as_slice(), out),
        }
    }
    assert(v.take(v.len() as int) =~= v);
}

/// Note what a string says of the issue being read.
fn note(cur: &mut ScanIssue, s: &str, text: &[char])
    requires
        text@ == s@,
    ensures
        final(cur)@ == noted(old(cur)@, s@),
{
    let severity: Option<String> = parse_severity(s);
    if severity.is_some() {
        cur.severity = severity;
    }
    let confidence: Option<String> = parse_confidence(s);
    if confidence.is_some() {
        cur.confidence = confidence;
    }
    if cur.url.is_none() {
        cur.url = parse_url(text);
    }
    if is_path(text) && cur.path.is_none() {
        cur.path = Some(s.to_owned());
    }
}

fn is_worthwhile(i: &ScanIssue) -> (r: bool)
    ensures
        r == worthwhile(i@),
{
    strs::chars_of(i.title_or_excerpt.as_str()).len() > 0 || i.url.is_some()
}

fn push_issue(out: &mut ProjectSummary, i: ScanIssue)
    ensures
        final(out)@ == (SummaryModel { issues: old(out)@.issues.push(i@), ..old(out)@ }),
{
    let ghost before = out.issues@;
    out.issues.push(i);
    assert(issue_models(out.issues@) =~= issue_models(before).push(i@));
}

/// Read the strings of an issue blob.
fn harvest_issues(strings: &[String], out: &mut ProjectSummary)
    ensures
        final(out)@ == ({
            let (cur, m) = reading_issues(old(out)@, strs::texts(strings@));
            with_issue(m, cur)
        }),
{
    let ghost v = strs::texts(strings@);
    let ghost start = out@;
    let mut current: ScanIssue = ScanIssue::default();
    assert(v.take(0) =~= Seq::<Seq<char>>::empty());
    for i in 0..strings.len()
        invariant
            v == strs::texts(strings@),
            start == old(out)@,
            (current@, out@) == reading_issues(start, v.take(i as int)),
    {
        assert(v.take(i + 1).drop_last() =~= v.take(i as int));
        assert(v.take(i + 1).last() == strings@[i as int]@);
        let s: &str = strings[i].as_str();
        let text: Vec<char> = strs::chars_of(s);
        note(&mut current, s, text.as_slice());
        if is_issue_text(text.as_slice()) {
            // Each chunk of issue prose closes the previous issue.
            if is_worthwhile(&current) {
                let mut closed: ScanIssue = ScanIssue::default();
                core::mem::swap(&mut closed, &mut current);
                push_issue(out, closed);
            }
            current.title_or_excerpt = trim_to(text.as_slice(), 240);
        }
        harvest_loose_signals_one(s, text.as_slice(), out);
    }
    assert(v.take(v.len() as int) =~= v);
    if is_worthwhile(&current) {
        push_issue(out, current);
    }
}

fn trim_to(s: &[char], n: usize) -> (r: String)
    ensures
        r@ == strs::clipped(s@, n as int),
{
    strs::string_of(strs::clip(s, n))
}

fn settle(sum: &mut ProjectSummary)
    ensures
        final(sum)@ == settled(old(sum)@),
{
    order::dedup_inplace(&mut sum.scope_includes);
    order::dedup_inplace(&mut sum.scope_excludes);
    order::dedup_inplace(&mut sum.scope_rules_raw);
    order::dedup_inplace(&mut sum.file_extension_filters);
    order::dedup_inplace(&mut sum.live_tasks);
    order::dedup_inplace(&mut sum.scanner_parameter_names);
    order::dedup_inplace(&mut sum.affected_urls);
    order::dedup_inplace(&mut sum.flagged_cookies);
    order::dedup_inplace(&mut sum.leaked_emails);
    order::dedup_inplace(&mut sum.leaked_card_numbers);
    order::dedup_inplace(&mut sum.project_id_candidates);
}

/// Walk a set of state-blob payloads and produce a typed summary.
pub fn summarize(blobs: &[(usize, u32, Vec<u8>)]) -> (r: (Vec<StateBlobMeta>, ProjectSummary))
    ensures
        meta_models(r.0@) == metas_of(blobs_of(blobs@)),
        r.1@ == summary_of(blobs_of(blobs@)),
{
    let ghost list = blobs_of(blobs@);
    let mut metas: Vec<StateBlobMeta> = Vec::new();
    let mut sum: ProjectSummary = ProjectSummary::default();
    assert(list.take(0) =~= Seq::<Blob>::empty());
    for i in 0..blobs.len()
        invariant
            list == blobs_of(blobs@),
            meta_models(metas@) == metas_of(list).take(i as int),
            sum@ == with_blobs(blank_summary(), list.take(i as int)),
    {
        assert(list.take(i + 1).drop_last() =~= list.take(i as int));
        let ghost blob = list[i as int];
        assert(list.take(i + 1).last() == blob);
        let strings: Vec<String> = classify::extract_utf16be_strings(&blobs[i].2, 3);
        assert(strs::texts(strings@) == blob_texts(blob));
        let role: BlobRole = classify_blob(&strings);
        let first_token: String = if strings.len() > 0 {
            let first: Vec<char> = strs::chars_of(strings[0].as_str());
            assert(first@ == strs::texts(strings@)[0]);
            trim_to(first.as_slice(), 80)
        } else {
            String::new()
        };
        let meta: StateBlobMeta = StateBlobMeta {
            offset: blobs[i].0,
            size: blobs[i].1,
            role,
            first_token,
            string_count: strings.len(),
        };
        assert(meta@ =~= meta_of(blob));
        let ghost before = metas@;
        metas.push(meta);
        assert(meta_models(metas@) =~= meta_models(before).push(meta@));
        assert(meta_models(metas@) =~= metas_of(list).take(i + 1));
        match role {
            BlobRole::Issues => harvest_issues(&strings, &mut sum),
            _ => harvest_blob(&strings, role, &mut sum),
        }
    }
    assert(list.take(list.len() as int) =~= list);
    assert(meta_models(metas@) =~= metas_of(list));
    settle(&mut sum);
    (metas, sum)
}

/// Whether the digit at `i` counts twice in a Luhn sum.
spec fn twice_at(s: Seq<char>, i: int, twice: bool) -> bool {
    if (s.len() - 1 - i) % 2 == 0 {
        twice
    } else {
        !twice
    }
}

proof fn lemma_luhn_update(s: Seq<char>, i: int, c: char, twice: bool)
    requires
        0 <= i < s.len(),
    ensures
        luhn_sum(s.update(i, c), twice) + luhn_weight(s[i], twice_at(s, i, twice)) == luhn_sum(
            s,
            twice,
        ) + luhn_weight(c, twice_at(s, i, twice)),
    decreases s.len(),
{
    let t = s.update(i, c);
    if i == s.len() - 1 {
        assert(t.drop_last() =~= s.drop_last());
    } else {
        assert(t.drop_last() =~= s.drop_last().update(i, c));
        lemma_luhn_update(s.drop_last(), i, c, !twice);
    }
}

proof fn lemma_luhn_weight(a: char, b: char, twice: bool)
    requires
        chars::digit(a),
        chars::digit(b),
    ensures
        luhn_weight(a, twice) <= 9,
        luhn_weight(a, twice) == luhn_weight(b, twice) ==> a == b,
{
}

/// A card number with one digit mistaken does not pass the Luhn test.
pub proof fn law_luhn_detects_a_wrong_digit(s: Seq<char>, i: int, c: char)
    requires
        0 <= i < s.len(),
        chars::digit(s[i]),
        chars::digit(c),
        c != s[i],
        luhn_valid(s),
    ensures
        !luhn_valid(s.update(i, c)),
{
    lemma_luhn_update(s, i, c, false);
    lemma_luhn_weight(s[i], c, twice_at(s, i, false));
    lemma_luhn_weight(c, s[i], twice_at(s, i, false));
}

/// One number below ten makes a sum a multiple of ten.
proof fn lemma_complement(rest: nat, d: nat)
    requires
        d < 10,
    ensures
        0 <= (10 - rest % 10) % 10 < 10,
        ((10 - rest % 10) % 10 + rest) % 10 == 0,
        (d + rest) % 10 == 0 ==> d == (10 - rest % 10) % 10,
{
}

/// Exactly one digit at the end makes a number pass the Luhn test.
pub proof fn law_luhn_check_digit(s: Seq<char>) -> (c: char)
    ensures
        chars::digit(c),
        luhn_valid(s.push(c)),
        forall|d: char| chars::digit(d) && #[trigger] luhn_valid(s.push(d)) ==> d == c,
{
    let rest = luhn_sum(s, true);
    let need = (10 - rest % 10) % 10;
    lemma_complement(rest, 0);
    let c = ('0' as u32 + need) as char;
    assert(s.push(c).drop_last() =~= s);
    assert(digit_value(c) == need);
    assert(luhn_sum(s.push(c), false) == need + rest);
    assert forall|d: char| chars::digit(d) && #[trigger] luhn_valid(s.push(d)) implies d == c by {
        assert(s.push(d).drop_last() =~= s);
        assert(luhn_sum(s.push(d), false) == digit_value(d) + rest);
        lemma_complement(rest, digit_value(d));
    }
    c
}

/// Every list but the issues is in order, and nothing occurs twice.
pub open spec fn orderly(m: SummaryModel) -> bool {
    &&& order::increasing(m.project_id_candidates)
    &&& order::increasing(m.scope_includes)
    &&& order::increasing(m.scope_excludes)
    &&& order::increasing(m.scope_rules_raw)
    &&& order::increasing(m.file_extension_filters)
    &&& order::increasing(m.live_tasks)
    &&& order::increasing(m.scanner_parameter_names)
    &&& order::increasing(m.affected_urls)
    &&& order::increasing(m.flagged_cookies)
    &&& order::increasing(m.leaked_emails)
    &&& order::increasing(m.leaked_card_numbers)
}

/// The lists of a summary are in order, and nothing occurs twice in them.
pub proof fn law_summary_is_orderly(blobs: Seq<Blob>)
    ensures
        orderly(summary_of(blobs)),
{
    let m = with_blobs(blank_summary(), blobs);
    order::law_sorted_set(m.project_id_candidates);
    order::law_sorted_set(m.scope_includes);
    order::law_sorted_set(m.scope_excludes);
    order::law_sorted_set(m.scope_rules_raw);
    order::law_sorted_set(m.file_extension_filters);
    order::law_sorted_set(m.live_tasks);
    order::law_sorted_set(m.scanner_parameter_names);
    order::law_sorted_set(m.affected_urls);
    order::law_sorted_set(m.flagged_cookies);
    order::law_sorted_set(m.leaked_emails);
    order::law_sorted_set(m.leaked_card_numbers);
}

/// A card number: 13 to 19 digits that pass the Luhn test.
pub open spec fn card_number(s: Seq<char>) -> bool {
    13 <= s.len() <= 19 && strs::all_digits(s) && luhn_valid(s)
}

/// An address: a local part, an at sign, and a domain with a dot.
pub open spec fn email_address(s: Seq<char>) -> bool {
    &&& s.len() <= 254
    &&& strs::cut(s, '@') matches Some((local, dom))
    &&& local.len() > 0
    &&& dom.contains('.')
    &&& strs::word_of(local, "._+-"@)
    &&& strs::word_of(dom, ".-"@)
}

pub open spec fn cookie_name(s: Seq<char>) -> bool {
    0 < strs::utf8_len(s) < 128 && !s.contains(' ')
}

pub open spec fn all_cards(v: Seq<Seq<char>>) -> bool {
    forall|s: Seq<char>| #[trigger] v.contains(s) ==> card_number(s)
}

pub open spec fn all_emails(v: Seq<Seq<char>>) -> bool {
    forall|s: Seq<char>| #[trigger] v.contains(s) ==> email_address(s)
}

pub open spec fn all_cookies(v: Seq<Seq<char>>) -> bool {
    forall|s: Seq<char>| #[trigger] v.contains(s) ==> cookie_name(s)
}

pub open spec fn all_urls(v: Seq<Seq<char>>) -> bool {
    forall|s: Seq<char>| #[trigger] v.contains(s) ==> web_address(s)
}

pub open spec fn all_params(v: Seq<Seq<char>>) -> bool {
    forall|s: Seq<char>| #[trigger] v.contains(s) ==> param_name(s)
}

pub open spec fn all_worthwhile(v: Seq<IssueModel>) -> bool {
    forall|i: int|
        0 <= i < v.len() ==> worthwhile(#[trigger] v[i]) && concise(v[i])
}

/// The excerpt of an issue takes at most 240 bytes, and its web address is one.
pub open spec fn concise(i: IssueModel) -> bool {
    strs::utf8_len(i.title_or_excerpt) <= 240 && (i.url matches Some(u) ==> web_address(u))
}

/// What a summary lists is what the lists are for.
pub open spec fn proper(m: SummaryModel) -> bool {
    &&& all_cards(m.leaked_card_numbers)
    &&& all_emails(m.leaked_emails)
    &&& all_cookies(m.flagged_cookies)
    &&& all_urls(m.affected_urls)
    &&& all_params(m.scanner_parameter_names)
    &&& all_worthwhile(m.issues)
}

proof fn lemma_push_contains(v: Seq<Seq<char>>, x: Seq<char>, y: Seq<char>)
    ensures
        v.push(x).contains(y) <==> v.contains(y) || y == x,
{
    if v.contains(y) {
        let i = choose|i: int| 0 <= i < v.len() && v[i] == y;
        assert(v.push(x)[i] == y);
    }
    assert(v.push(x)[v.len() as int] == x);
}

proof fn lemma_with_text(v: Seq<Seq<char>>, o: Option<Seq<char>>, y: Seq<char>)
    ensures
        with_text(v, o).contains(y) <==> v.contains(y) || o == Some(y),
{
    match o {
        Some(x) => {
            lemma_push_contains(v, x, y);
        },
        None => {},
    }
}

proof fn lemma_signals_proper(m: SummaryModel, s: Seq<char>)
    requires
        proper(m),
    ensures
        proper(with_signals(m, s)),
{
    let r = with_signals(m, s);
    assert forall|y: Seq<char>| #[trigger] r.leaked_card_numbers.contains(y) implies card_number(
        y,
    ) by {
        lemma_with_text(m.leaked_card_numbers, card_in(s), y);
    }
    assert forall|y: Seq<char>| #[trigger] r.leaked_emails.contains(y) implies email_address(y) by {
        lemma_with_text(m.leaked_emails, email_in(s), y);
    }
    assert forall|y: Seq<char>| #[trigger] r.flagged_cookies.contains(y) implies cookie_name(y) by {
        lemma_with_text(m.flagged_cookies, cookie_in(s), y);
    }
    assert forall|y: Seq<char>| #[trigger] r.affected_urls.contains(y) implies web_address(y) by {
        lemma_with_text(m.affected_urls, url_in(s), y);
    }
}

proof fn lemma_blob_texts_proper(m: SummaryModel, role: BlobRole, v: Seq<Seq<char>>)
    requires
        proper(m),
    ensures
        proper(with_blob_texts(m, role, v)),
    decreases v.len(),
{
    if v.len() > 0 {
        lemma_blob_texts_proper(m, role, v.drop_last());
        let b = with_blob_texts(m, role, v.drop_last());
        let s = v.last();
        let c = SummaryModel {
            scanner_parameter_names: with_text(
                b.scanner_parameter_names,
                given(param_name(s), s),
            ),
            ..b
        };
        assert(proper(c)) by {
            assert forall|y: Seq<char>| #[trigger]
                c.scanner_parameter_names.contains(y) implies param_name(y) by {
                lemma_with_text(b.scanner_parameter_names, given(param_name(s), s), y);
            }
        }
        lemma_signals_proper(b, s);
        lemma_signals_proper(c, s);
        let rule = strs::untagged(s, "dst "@);
        let inside = strs::has(s, "return true;"@);
        let outside = !inside && strs::has(s, "return false;"@);
        let d = SummaryModel {
            scope_includes: with_text(b.scope_includes, given(inside, rule)),
            scope_excludes: with_text(b.scope_excludes, given(outside, rule)),
            scope_rules_raw: with_text(b.scope_rules_raw, given(inside || outside, s)),
            file_extension_filters: with_text(b.file_extension_filters, extensions_in(s)),
            ..b
        };
        lemma_signals_proper(d, s);
        let e = SummaryModel {
            live_tasks: with_text(b.live_tasks, given(live_task(s), strs::trimmed(s))),
            ..b
        };
        lemma_signals_proper(e, s);
    }
}

proof fn lemma_with_issue_proper(m: SummaryModel, i: IssueModel)
    requires
        proper(m),
        concise(i),
    ensures
        proper(with_issue(m, i)),
{
}

proof fn lemma_reading_issues_proper(m: SummaryModel, v: Seq<Seq<char>>)
    requires
        proper(m),
    ensures
        proper(reading_issues(m, v).1),
        concise(reading_issues(m, v).0),
    decreases v.len(),
{
    if v.len() > 0 {
        lemma_reading_issues_proper(m, v.drop_last());
        let st = reading_issues(m, v.drop_last());
        let s = v.last();
        let cur = noted(st.0, s);
        lemma_with_issue_proper(st.1, cur);
        lemma_signals_proper(st.1, s);
        lemma_signals_proper(with_issue(st.1, cur), s);
        strs::law_clipped(s, 240);
    } else {
        assert(strs::utf8_len(Seq::<char>::empty()) == 0);
    }
}

proof fn lemma_with_blobs_proper(blobs: Seq<Blob>)
    ensures
        proper(with_blobs(blank_summary(), blobs)),
    decreases blobs.len(),
{
    if blobs.len() > 0 {
        lemma_with_blobs_proper(blobs.drop_last());
        let m = with_blobs(blank_summary(), blobs.drop_last());
        let v = blob_texts(blobs.last());
        lemma_blob_texts_proper(m, role_of(v), v);
        lemma_reading_issues_proper(m, v);
        lemma_with_issue_proper(reading_issues(m, v).1, reading_issues(m, v).0);
    }
}

/// A summary lists as card numbers only digits that pass the Luhn test, as
/// emails only addresses, as cookies only names, and web addresses without
/// the tags before them; and every issue has an excerpt, of at most 240
/// bytes, or a web address.
pub proof fn law_summary_is_proper(blobs: Seq<Blob>)
    ensures
        proper(summary_of(blobs)),
{
    lemma_with_blobs_proper(blobs);
    let m = with_blobs(blank_summary(), blobs);
    order::law_sorted_set(m.scanner_parameter_names);
    order::law_sorted_set(m.affected_urls);
    order::law_sorted_set(m.flagged_cookies);
    order::law_sorted_set(m.leaked_emails);
    order::law_sorted_set(m.leaked_card_numbers);
}

/// A list holds a text, where there is one.
pub open spec fn lists(v: Seq<Seq<char>>, o: Option<Seq<char>>) -> bool {
    o matches Some(t) ==> v.contains(t)
}

/// A summary lists what a text shows: a web address, a flagged cookie, an
/// email address, a card number, a project id.
pub open spec fn shows(m: SummaryModel, s: Seq<char>) -> bool {
    &&& lists(m.affected_urls, url_in(s))
    &&& lists(m.flagged_cookies, cookie_in(s))
    &&& lists(m.leaked_emails, email_in(s))
    &&& lists(m.leaked_card_numbers, card_in(s))
    &&& lists(m.project_id_candidates, given(project_id(s), strs::trimmed(s)))
}

spec fn within(a: Seq<Seq<char>>, b: Seq<Seq<char>>) -> bool {
    forall|y: Seq<char>| #[trigger] a.contains(y) ==> b.contains(y)
}

/// What one summary lists, the other does too.
spec fn grows(m: SummaryModel, n: SummaryModel) -> bool {
    &&& within(m.affected_urls, n.affected_urls)
    &&& within(m.flagged_cookies, n.flagged_cookies)
    &&& within(m.leaked_emails, n.leaked_emails)
    &&& within(m.leaked_card_numbers, n.leaked_card_numbers)
    &&& within(m.project_id_candidates, n.project_id_candidates)
}

proof fn lemma_with_text_sub(v: Seq<Seq<char>>, o: Option<Seq<char>>)
    ensures
        within(v, with_text(v, o)),
        lists(with_text(v, o), o),
{
    assert forall|y: Seq<char>| #[trigger] v.contains(y) implies with_text(v, o).contains(y) by {
        lemma_with_text(v, o, y);
    }
    if o is Some {
        lemma_with_text(v, o, o->0);
    }
}

proof fn lemma_signals_grow(m: SummaryModel, s: Seq<char>)
    ensures
        grows(m, with_signals(m, s)),
        shows(with_signals(m, s), s),
{
    lemma_with_text_sub(m.affected_urls, url_in(s));
    lemma_with_text_sub(m.flagged_cookies, cookie_in(s));
    lemma_with_text_sub(m.leaked_emails, email_in(s));
    lemma_with_text_sub(m.leaked_card_numbers, card_in(s));
    lemma_with_text_sub(m.project_id_candidates, given(project_id(s), strs::trimmed(s)));
}

proof fn lemma_blob_text_grows(m: SummaryModel, role: BlobRole, s: Seq<char>)
    ensures
        grows(m, with_blob_text(m, role, s)),
        shows(with_blob_text(m, role, s), s),
{
    lemma_signals_grow(m, s);
    lemma_signals_grow(
        SummaryModel {
            scanner_parameter_names: with_text(
                m.scanner_parameter_names,
                given(param_name(s), s),
            ),
            ..m
        },
        s,
    );
    let rule = strs::untagged(s, "dst "@);
    let inside = strs::has(s, "return true;"@);
    let outside = !inside && strs::has(s, "return false;"@);
    lemma_signals_grow(
        SummaryModel {
            scope_includes: with_text(m.scope_includes, given(inside, rule)),
            scope_excludes: with_text(m.scope_excludes, given(outside, rule)),
            scope_rules_raw: with_text(m.scope_rules_raw, given(inside || outside, s)),
            file_extension_filters: with_text(m.file_extension_filters, extensions_in(s)),
            ..m
        },
        s,
    );
    lemma_signals_grow(
        SummaryModel {
            live_tasks: with_text(m.live_tasks, given(live_task(s), strs::trimmed(s))),
            ..m
        },
        s,
    );
}

proof fn lemma_blob_texts_show(m: SummaryModel, role: BlobRole, v: Seq<Seq<char>>, s: Seq<char>)
    ensures
        grows(m, with_blob_texts(m, role, v)),
        v.contains(s) ==> shows(with_blob_texts(m, role, v), s),
    decreases v.len(),
{
    if v.len() > 0 {
        let init = v.drop_last();
        lemma_blob_texts_show(m, role, init, s);
        lemma_blob_text_grows(with_blob_texts(m, role, init), role, v.last());
        if v.contains(s) && s != v.last() {
            let i = choose|i: int| 0 <= i < v.len() && v[i] == s;
            assert(init[i] == s);
        }
    }
}

proof fn lemma_issue_texts_show(m: SummaryModel, v: Seq<Seq<char>>, s: Seq<char>)
    ensures
        grows(m, reading_issues(m, v).1),
        v.contains(s) ==> shows(reading_issues(m, v).1, s),
    decreases v.len(),
{
    if v.len() > 0 {
        let init = v.drop_last();
        lemma_issue_texts_show(m, init, s);
        let st = reading_issues(m, init);
        lemma_signals_grow(st.1, v.last());
        lemma_signals_grow(with_issue(st.1, noted(st.0, v.last())), v.last());
        if v.contains(s) && s != v.last() {
            let i = choose|i: int| 0 <= i < v.len() && v[i] == s;
            assert(init[i] == s);
        }
    }
}

proof fn lemma_blob_shows(m: SummaryModel, v: Seq<Seq<char>>, s: Seq<char>)
    ensures
        grows(m, with_blob(m, v)),
        v.contains(s) ==> shows(with_blob(m, v), s),
{
    lemma_blob_texts_show(m, role_of(v), v, s);
    lemma_issue_texts_show(m, v, s);
}

proof fn lemma_blobs_show(blobs: Seq<Blob>, i: int, s: Seq<char>)
    requires
        0 <= i < blobs.len(),
        blob_texts(blobs[i]).contains(s),
    ensures
        shows(with_blobs(blank_summary(), blobs), s),
    decreases blobs.len(),
{
    let init = blobs.drop_last();
    lemma_blob_shows(with_blobs(blank_summary(), init), blob_texts(blobs.last()), s);
    if i < init.len() {
        assert(init[i] == blobs[i]);
        lemma_blobs_show(init, i, s);
    }
}

/// Whatever its role, a blob shows everything its texts show: each web
/// address, flagged cookie, email address, card number and project id in any
/// text of any blob is listed in the summary.
pub proof fn law_summary_shows_every_text(blobs: Seq<Blob>, i: int, s: Seq<char>)
    requires
        0 <= i < blobs.len(),
        blob_texts(blobs[i]).contains(s),
    ensures
        shows(summary_of(blobs), s),
{
    lemma_blobs_show(blobs, i, s);
    let m = with_blobs(blank_summary(), blobs);
    order::law_sorted_set(m.project_id_candidates);
    order::law_sorted_set(m.affected_urls);
    order::law_sorted_set(m.flagged_cookies);
    order::law_sorted_set(m.leaked_emails);
    order::law_sorted_set(m.leaked_card_numbers);
}

/// The lists of texts in a summary.
pub enum TextList {
    ProjectIds,
    ScopeIncludes,
    ScopeExcludes,
    ScopeRules,
    Extensions,
    Tasks,
    Parameters,
    Urls,
    Cookies,
    Emails,
    Cards,
}

/// One of the lists of a summary.
pub open spec fn list_in(m: SummaryModel, k: TextList) -> Seq<Seq<char>> {
    match k {
        TextList::ProjectIds => m.project_id_candidates,
        TextList::ScopeIncludes => m.scope_includes,
        TextList::ScopeExcludes => m.scope_excludes,
        TextList::ScopeRules => m.scope_rules_raw,
        TextList::Extensions => m.file_extension_filters,
        TextList::Tasks => m.live_tasks,
        TextList::Parameters => m.scanner_parameter_names,
        TextList::Urls => m.affected_urls,
        TextList::Cookies => m.flagged_cookies,
        TextList::Emails => m.leaked_emails,
        TextList::Cards => m.leaked_card_numbers,
    }
}

/// What a text of a blob with the given role adds to a list.
pub open spec fn given_to(role: BlobRole, s: Seq<char>, k: TextList) -> Option<Seq<char>> {
    let scope = role == BlobRole::Scope;
    let rule = strs::untagged(s, "dst "@);
    let inside = strs::has(s, "return true;"@);
    let outside = !inside && strs::has(s, "return false;"@);
    match k {
        TextList::ProjectIds => given(project_id(s), strs::trimmed(s)),
        TextList::ScopeIncludes => given(scope && inside, rule),
        TextList::ScopeExcludes => given(scope && outside, rule),
        TextList::ScopeRules => given(scope && (inside || outside), s),
        TextList::Extensions => if scope {
            extensions_in(s)
        } else {
            None
        },
        TextList::Tasks => given(role == BlobRole::LiveTasks && live_task(s), strs::trimmed(s)),
        TextList::Parameters => given(role == BlobRole::ScannerConfig && param_name(s), s),
        TextList::Urls => url_in(s),
        TextList::Cookies => cookie_in(s),
        TextList::Emails => email_in(s),
        TextList::Cards => card_in(s),
    }
}

/// Some text of a blob with the given role adds `y` to a list.
pub open spec fn texts_give(
    v: Seq<Seq<char>>,
    role: BlobRole,
    k: TextList,
    y: Seq<char>,
) -> bool {
    exists|i: int| 0 <= i < v.len() && given_to(role, #[trigger] v[i], k) == Some(y)
}

/// The texts of a blob, read as its role tells, add `y` to a list.
pub open spec fn blob_gives(v: Seq<Seq<char>>, k: TextList, y: Seq<char>) -> bool {
    texts_give(v, role_of(v), k, y)
}

proof fn lemma_texts_give(v: Seq<Seq<char>>, role: BlobRole, k: TextList, y: Seq<char>)
    requires
        v.len() > 0,
    ensures
        texts_give(v, role, k, y) <==> texts_give(v.drop_last(), role, k, y) || given_to(
            role,
            v.last(),
            k,
        ) == Some(y),
{
    let init = v.drop_last();
    if texts_give(init, role, k, y) {
        let i = choose|i: int|
            0 <= i < init.len() && given_to(role, #[trigger] init[i], k) == Some(y);
        assert(given_to(role, v[i], k) == Some(y));
    }
    if texts_give(v, role, k, y) {
        let i = choose|i: int| 0 <= i < v.len() && given_to(role, #[trigger] v[i], k) == Some(y);
        if i < init.len() {
            assert(given_to(role, init[i], k) == Some(y));
        }
    }
    assert(v[v.len() - 1] == v.last());
}

proof fn lemma_blob_texts_list(
    m: SummaryModel,
    role: BlobRole,
    v: Seq<Seq<char>>,
    k: TextList,
    y: Seq<char>,
)
    requires
        role != BlobRole::Issues,
    ensures
        list_in(with_blob_texts(m, role, v), k).contains(y) <==> list_in(m, k).contains(y)
            || texts_give(v, role, k, y),
    decreases v.len(),
{
    if v.len() > 0 {
        let before = with_blob_texts(m, role, v.drop_last());
        lemma_blob_texts_list(m, role, v.drop_last(), k, y);
        lemma_texts_give(v, role, k, y);
        assert(list_in(with_blob_text(before, role, v.last()), k) == with_text(
            list_in(before, k),
            given_to(role, v.last(), k),
        ));
        lemma_with_text(list_in(before, k), given_to(role, v.last(), k), y);
    }
}

proof fn lemma_issue_texts_list(m: SummaryModel, v: Seq<Seq<char>>, k: TextList, y: Seq<char>)
    ensures
        list_in(reading_issues(m, v).1, k).contains(y) <==> list_in(m, k).contains(y)
            || texts_give(v, BlobRole::Issues, k, y),
    decreases v.len(),
{
    if v.len() > 0 {
        let before = reading_issues(m, v.drop_last()).1;
        lemma_issue_texts_list(m, v.drop_last(), k, y);
        lemma_texts_give(v, BlobRole::Issues, k, y);
        assert(list_in(reading_issues(m, v).1, k) == with_text(
            list_in(before, k),
            given_to(BlobRole::Issues, v.last(), k),
        ));
        lemma_with_text(list_in(before, k), given_to(BlobRole::Issues, v.last(), k), y);
    }
}

/// Some blob of a list adds `y` to a list of the summary.
pub open spec fn blobs_give(blobs: Seq<Blob>, k: TextList, y: Seq<char>) -> bool {
    exists|j: int| 0 <= j < blobs.len() && blob_gives(blob_texts(#[trigger] blobs[j]), k, y)
}

proof fn lemma_blobs_list(blobs: Seq<Blob>, k: TextList, y: Seq<char>)
    ensures
        list_in(with_blobs(blank_summary(), blobs), k).contains(y) <==> blobs_give(blobs, k, y),
    decreases blobs.len(),
{
    if blobs.len() > 0 {
        let init = blobs.drop_last();
        let m = with_blobs(blank_summary(), init);
        let v = blob_texts(blobs.last());
        lemma_blobs_list(init, k, y);
        if role_of(v) == BlobRole::Issues {
            lemma_issue_texts_list(m, v, k, y);
        } else {
            lemma_blob_texts_list(m, role_of(v), v, k, y);
        }
        if blobs_give(init, k, y) {
            let j = choose|j: int|
                0 <= j < init.len() && blob_gives(blob_texts(#[trigger] init[j]), k, y);
            assert(blobs[j] == init[j]);
        }
        if blobs_give(blobs, k, y) {
            let j = choose|j: int|
                0 <= j < blobs.len() && blob_gives(blob_texts(#[trigger] blobs[j]), k, y);
            if j < init.len() {
                assert(blobs[j] == init[j]);
            }
        }
        assert(blobs[blobs.len() - 1] == blobs.last());
    }
}

proof fn lemma_settled_list(m: SummaryModel, k: TextList)
    ensures
        list_in(settled(m), k) == order::sorted_set(list_in(m, k)),
{
}

/// A list of a summary holds exactly what the texts of the blobs add to it.
pub proof fn law_summary_lists_what_blobs_give(blobs: Seq<Blob>, k: TextList, y: Seq<char>)
    ensures
        list_in(summary_of(blobs), k).contains(y) <==> blobs_give(blobs, k, y),
{
    let m = with_blobs(blank_summary(), blobs);
    lemma_blobs_list(blobs, k, y);
    lemma_settled_list(m, k);
    order::law_sorted_set(list_in(m, k));
}

/// The payloads of blobs.
pub open spec fn payloads(blobs: Seq<Blob>) -> Seq<Seq<u8>> {
    blobs.map_values(|b: Blob| b.payload)
}

proof fn lemma_give_same(a: Seq<Blob>, b: Seq<Blob>, k: TextList, y: Seq<char>)
    requires
        forall|p: Seq<u8>| #[trigger] payloads(a).contains(p) ==> payloads(b).contains(p),
        blobs_give(a, k, y),
    ensures
        blobs_give(b, k, y),
{
    let i = choose|i: int| 0 <= i < a.len() && blob_gives(blob_texts(#[trigger] a[i]), k, y);
    let p = a[i].payload;
    assert(payloads(a)[i] == p);
    assert(payloads(a).contains(p));
    assert(payloads(b).contains(p));
    let j = choose|j: int| 0 <= j < payloads(b).len() && payloads(b)[j] == p;
    assert(b[j].payload == p);
    assert(blob_texts(b[j]) == blob_texts(a[i]));
}

proof fn lemma_list_same(a: Seq<Blob>, b: Seq<Blob>, k: TextList)
    requires
        forall|p: Seq<u8>| #[trigger] payloads(a).contains(p) <==> payloads(b).contains(p),
    ensures
        list_in(summary_of(a), k) == list_in(summary_of(b), k),
{
    let m = with_blobs(blank_summary(), a);
    let n = with_blobs(blank_summary(), b);
    assert forall|y: Seq<char>| #[trigger] list_in(m, k).contains(y) <==> list_in(n, k).contains(
        y,
    ) by {
        lemma_blobs_list(a, k, y);
        lemma_blobs_list(b, k, y);
        if blobs_give(a, k, y) {
            lemma_give_same(a, b, k, y);
        }
        if blobs_give(b, k, y) {
            lemma_give_same(b, a, k, y);
        }
    }
    lemma_settled_list(m, k);
    lemma_settled_list(n, k);
    order::law_sorted_set_of_contents(list_in(m, k), list_in(n, k));
}

/// Neither the order of the blobs nor their repetition changes a summary, but
/// for its issues: blobs with the same payloads have the same lists of texts.
pub proof fn law_summary_ignores_order(a: Seq<Blob>, b: Seq<Blob>)
    requires
        forall|p: Seq<u8>| #[trigger] payloads(a).contains(p) <==> payloads(b).contains(p),
    ensures
        summary_of(b) == (SummaryModel { issues: summary_of(b).issues, ..summary_of(a) }),
{
    lemma_list_same(a, b, TextList::ProjectIds);
    lemma_list_same(a, b, TextList::ScopeIncludes);
    lemma_list_same(a, b, TextList::ScopeExcludes);
    lemma_list_same(a, b, TextList::ScopeRules);
    lemma_list_same(a, b, TextList::Extensions);
    lemma_list_same(a, b, TextList::Tasks);
    lemma_list_same(a, b, TextList::Parameters);
    lemma_list_same(a, b, TextList::Urls);
    lemma_list_same(a, b, TextList::Cookies);
    lemma_list_same(a, b, TextList::Emails);
    lemma_list_same(a, b, TextList::Cards);
}

} // verus!
