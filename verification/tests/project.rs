use burpex::project::{
    classify_blob, luhn, parse_card_number, parse_confidence, parse_cookie_finding, parse_email,
    parse_extension_list, parse_severity, summarize, BlobRole,
};

#[test]
fn luhn_validates_card_numbers() {
    assert!(luhn("4242424242424242")); // a test Visa
    assert!(luhn("5555555555554444")); // a test Mastercard
    assert!(!luhn("1234567890123456"));
}

#[test]
fn extracts_email() {
    assert_eq!(
        parse_email("user@example.com"),
        Some("user@example.com".into())
    );
    assert_eq!(
        parse_email(" tag-with+plus@a.b "),
        Some("tag-with+plus@a.b".into())
    );
    assert_eq!(parse_email("not an email"), None);
    assert_eq!(parse_email("missing-at-symbol.com"), None);
}

#[test]
fn parses_cookie_finding() {
    assert_eq!(parse_cookie_finding("Other: SIDCC"), Some("SIDCC".into()));
    assert_eq!(
        parse_cookie_finding("Other: __Secure-1PSIDCC"),
        Some("__Secure-1PSIDCC".into())
    );
    assert_eq!(parse_cookie_finding("Severity: High"), None);
}

#[test]
fn parses_severity_and_confidence() {
    assert_eq!(
        parse_severity("Severity: High"),
        Some("Severity: High".into())
    );
    assert_eq!(
        parse_confidence("Confidence: Firm"),
        Some("Confidence: Firm".into())
    );
}

#[test]
fn classifies_issues_blob() {
    let strings = vec![
        "unsafe-inline allowed".into(),
        "Content Security Policy".into(),
    ];
    assert_eq!(classify_blob(&strings), BlobRole::Issues);
}

#[test]
fn classifies_scanner_config_blob() {
    let strings: Vec<String> = ["__viewstate", "__eventargument", "PHPSESSID", "jsessionid"]
        .iter()
        .map(|s| s.to_string())
        .collect();
    assert_eq!(classify_blob(&strings), BlobRole::ScannerConfig);
}

fn utf16be(s: &str) -> Vec<u8> {
    let mut v: Vec<u8> = Vec::new();
    for b in s.bytes() {
        v.push(0);
        v.push(b);
    }
    v
}

/// A payload that holds the given strings.
fn blob(strings: &[&str]) -> Vec<u8> {
    let mut v: Vec<u8> = Vec::new();
    for s in strings {
        v.extend(utf16be(s));
        v.extend_from_slice(&[0xff, 0xff]);
    }
    v
}

fn owned(v: &[&str]) -> Vec<String> {
    v.iter().map(|s| s.to_string()).collect()
}

#[test]
fn one_wrong_digit_fails_the_test() {
    let good = "4242424242424242";
    for i in 0..good.len() {
        for d in "0123456789".chars() {
            let mut s: Vec<char> = good.chars().collect();
            let same = s[i] == d;
            s[i] = d;
            let text: String = s.into_iter().collect();
            assert_eq!(luhn(&text), same);
        }
    }
}

#[test]
fn exactly_one_check_digit_fits() {
    let mut fitting: Vec<char> = Vec::new();
    for d in "0123456789".chars() {
        if luhn(&format!("7992739871{}", d)) {
            fitting.push(d);
        }
    }
    assert_eq!(fitting, vec!['3']);
    assert!(luhn(""));
}

#[test]
fn card_numbers_are_long_enough_and_only_digits() {
    assert_eq!(
        parse_card_number(" 4242424242424242 "),
        Some("4242424242424242".into())
    );
    assert_eq!(parse_card_number("000000000000"), None);
    assert_eq!(parse_card_number("0000000000000"), Some("0000000000000".into()));
    assert_eq!(parse_card_number("00000000000000000000"), None);
    assert_eq!(parse_card_number("424242424242424x"), None);
}

#[test]
fn emails_in_their_forms() {
    assert_eq!(parse_email("@a.b"), None);
    assert_eq!(parse_email("a@nodot"), None);
    assert_eq!(parse_email("a b@c.d"), None);
    assert_eq!(parse_email("a@b@c.d"), None);
    assert_eq!(parse_email("a@b.c/"), None);
    let long = format!("a@{}.b", "c".repeat(252));
    assert_eq!(parse_email(&long), None);
    let fits = format!("a@{}.b", "c".repeat(250));
    assert_eq!(parse_email(&fits), Some(fits.clone()));
}

#[test]
fn cookies_are_names_without_spaces() {
    assert_eq!(parse_cookie_finding("Other: "), None);
    assert_eq!(parse_cookie_finding("Other: two words"), None);
    assert_eq!(parse_cookie_finding("other: x"), None);
    let long = format!("Other: {}", "x".repeat(128));
    assert_eq!(parse_cookie_finding(&long), None);
}

#[test]
fn the_first_severity_counts() {
    assert_eq!(parse_severity("High and Severity: Low"), Some("Severity: Low".into()));
    assert_eq!(parse_severity("Medium, not Low"), Some("Medium".into()));
    assert_eq!(parse_severity("Information"), Some("Information".into()));
    assert_eq!(parse_severity("none"), None);
    assert_eq!(
        parse_confidence("Confidence: Tentative, Confidence: Certain"),
        Some("Confidence: Certain".into())
    );
    assert_eq!(parse_confidence("Certain"), None);
}

#[test]
fn extension_lists_have_three_parts() {
    assert_eq!(parse_extension_list("gif, png,JPG"), Some("gif, png,JPG".into()));
    assert_eq!(parse_extension_list("dgif,png,jpg"), Some("gif,png,jpg".into()));
    assert_eq!(parse_extension_list(" ttiff,png,jpg"), Some("tiff,png,jpg".into()));
    assert_eq!(parse_extension_list("gif,png"), None);
    assert_eq!(parse_extension_list("gif,,png"), None);
    assert_eq!(parse_extension_list("gif,png,mp3"), None);
    assert_eq!(parse_extension_list("gif,png,toolongext"), None);
}

#[test]
fn every_role_is_recognised() {
    assert_eq!(classify_blob(&owned(&["nothing here"])), BlobRole::Unknown);
    assert_eq!(classify_blob(&owned(&[" Audit checks - passive"])), BlobRole::LiveTasks);
    assert_eq!(classify_blob(&owned(&["d return false; "])), BlobRole::Scope);
    let hosts: Vec<String> = (0..10).map(|i| format!("h{}.example.com", i)).collect();
    assert_eq!(classify_blob(&hosts), BlobRole::Sitemap);
    assert_eq!(classify_blob(&hosts[..9]), BlobRole::Unknown);
    assert_eq!(
        classify_blob(&owned(&["CFID", "CFTOKEN", "return true;"])),
        BlobRole::Scope
    );
    assert_eq!(
        classify_blob(&owned(&["CFID", "CFTOKEN", "__ViewState", "return true;"])),
        BlobRole::ScannerConfig
    );
    assert_eq!(classify_blob(&[]), BlobRole::Unknown);
}

#[test]
fn scope_blobs_are_summarized() {
    let b = blob(&[
        "dreturn true; // a",
        "sreturn false; // b",
        "dreturn true; // a",
        "gif,png,css",
    ]);
    let (metas, sum) = summarize(&[(7, b.len() as u32, b)]);
    assert_eq!(metas.len(), 1);
    assert_eq!(metas[0].role, BlobRole::Scope);
    assert_eq!(metas[0].offset, 7);
    assert_eq!(metas[0].first_token, "dreturn true; // a");
    assert_eq!(metas[0].string_count, 4);
    assert_eq!(sum.scope_includes, vec!["return true; // a"]);
    assert_eq!(sum.scope_excludes, vec!["return false; // b"]);
    assert_eq!(sum.scope_rules_raw, vec!["dreturn true; // a", "sreturn false; // b"]);
    assert_eq!(sum.file_extension_filters, vec!["gif,png,css"]);
}

#[test]
fn issue_prose_opens_and_closes_issues() {
    let long = format!("<p>{}", "x".repeat(300));
    let b = blob(&[
        "Severity: High",
        "https://a.example/one",
        "/path",
        "<p>First finding</p>",
        "Confidence: Firm",
        &long,
        "https://b.example/",
    ]);
    let (metas, sum) = summarize(&[(0, 0, b)]);
    assert_eq!(metas[0].role, BlobRole::Issues);
    assert_eq!(sum.issues.len(), 3);
    assert_eq!(sum.issues[0].title_or_excerpt, "");
    assert_eq!(sum.issues[0].severity.as_deref(), Some("Severity: High"));
    assert_eq!(sum.issues[0].url.as_deref(), Some("https://a.example/one"));
    assert_eq!(sum.issues[0].path.as_deref(), Some("/path"));
    assert_eq!(sum.issues[1].title_or_excerpt, "<p>First finding</p>");
    assert_eq!(sum.issues[1].confidence.as_deref(), Some("Confidence: Firm"));
    assert_eq!(sum.issues[1].severity, None);
    assert_eq!(sum.issues[2].title_or_excerpt.len(), 240);
    assert_eq!(sum.issues[2].url.as_deref(), Some("https://b.example/"));
    assert_eq!(sum.affected_urls, vec!["https://a.example/one", "https://b.example/"]);
}

#[test]
fn live_tasks_and_parameters() {
    let tasks = blob(&[" Proxy (all traffic)", "other"]);
    let params = blob(&["jsessionid", "cfid", "cftoken", "not a name"]);
    let (metas, sum) = summarize(&[(1, 2, tasks), (3, 4, params)]);
    assert_eq!(metas[0].role, BlobRole::LiveTasks);
    assert_eq!(metas[1].role, BlobRole::ScannerConfig);
    assert_eq!(sum.live_tasks, vec!["Proxy (all traffic)"]);
    assert_eq!(sum.scanner_parameter_names, vec!["cfid", "cftoken", "jsessionid"]);
}

#[test]
fn every_text_of_every_blob_is_looked_at() {
    let texts = [
        "https://leak.example/x",
        "Other: SID",
        "who@example.org",
        "4242424242424242",
        "xp6q26jc",
    ];
    let roles = ["nothing", "return true;", "Audit checks", "unsafe-eval"];
    for first in roles {
        let mut strings = vec![first];
        strings.extend_from_slice(&texts);
        let (_, sum) = summarize(&[(0, 0, blob(&strings))]);
        assert_eq!(sum.affected_urls, vec!["https://leak.example/x"]);
        assert_eq!(sum.flagged_cookies, vec!["SID"]);
        assert_eq!(sum.leaked_emails, vec!["who@example.org"]);
        assert_eq!(sum.leaked_card_numbers, vec!["4242424242424242"]);
        assert_eq!(sum.project_id_candidates, vec!["xp6q26jc"]);
    }
}

#[test]
fn lists_are_sorted_and_hold_nothing_twice() {
    let b = blob(&["z@a.b", "a@a.b", "Z@a.b", "a@a.b", "m@a.b", "a@a.a", "zz@a.b"]);
    let (_, sum) = summarize(&[(0, 0, b.clone()), (0, 0, b)]);
    assert_eq!(
        sum.leaked_emails,
        vec!["Z@a.b", "a@a.a", "a@a.b", "m@a.b", "z@a.b", "zz@a.b"]
    );
}

#[test]
fn a_first_token_is_cut_at_eighty_bytes() {
    let long = "y".repeat(100);
    let (metas, _) = summarize(&[(0, 0, blob(&[&long])), (0, 0, vec![])]);
    assert_eq!(metas[0].first_token, "y".repeat(80));
    assert_eq!(metas[1].first_token, "");
    assert_eq!(metas[1].string_count, 0);
    assert_eq!(metas[1].role, BlobRole::Unknown);
}

#[test]
fn one_tag_is_stripped_from_a_rule() {
    let b = blob(&[
        "dtest(host); return true;",
        "sstatic(host); return false;",
        "url(host); return true;",
    ]);
    let (_, sum) = summarize(&[(0, 0, b)]);
    assert_eq!(
        sum.scope_includes,
        vec!["test(host); return true;", "url(host); return true;"]
    );
    assert_eq!(sum.scope_excludes, vec!["static(host); return false;"]);
    assert_eq!(sum.scope_rules_raw.len(), 3);
    assert!(sum.scope_rules_raw.contains(&"dtest(host); return true;".to_string()));
}

#[test]
fn web_addresses_come_out_without_their_tags() {
    let (_, sum) = summarize(&[(0, 0, blob(&["thttps://a.com/x", " http://b.com", "xhttp://c.com"]))]);
    assert_eq!(sum.affected_urls, vec!["http://b.com", "https://a.com/x"]);
    assert!(sum.leaked_emails.is_empty() && sum.flagged_cookies.is_empty());
    let (_, sum) = summarize(&[(0, 0, blob(&["unsafe-eval", "dhttps://d.com/y", "<p>text</p>"]))]);
    assert_eq!(sum.issues[0].url.as_deref(), Some("https://d.com/y"));
    assert_eq!(sum.affected_urls, vec!["https://d.com/y"]);
}

#[test]
fn the_order_of_blobs_changes_only_the_issues() {
    let scope = blob(&["dtest(host); return true;", "gif,png,css", "a@b.cc"]);
    let tasks = blob(&[" Audit checks", "https://x.example/", "Other: SID"]);
    let params = blob(&["jsessionid", "cfid", "cftoken", "4242424242424242", "xp6q26jc"]);
    let one = [(0, 0, scope.clone()), (1, 1, tasks.clone()), (2, 2, params.clone())];
    let two = [(9, 9, params.clone()), (8, 8, scope), (7, 7, params), (6, 6, tasks)];
    let (_, a) = summarize(&one);
    let (_, b) = summarize(&two);
    assert_eq!(a.project_id_candidates, vec!["xp6q26jc"]);
    assert_eq!(a.project_id_candidates, b.project_id_candidates);
    assert_eq!(a.scope_includes, b.scope_includes);
    assert_eq!(a.scope_excludes, b.scope_excludes);
    assert_eq!(a.scope_rules_raw, b.scope_rules_raw);
    assert_eq!(a.file_extension_filters, vec!["gif,png,css"]);
    assert_eq!(a.file_extension_filters, b.file_extension_filters);
    assert_eq!(a.live_tasks, b.live_tasks);
    assert_eq!(a.scanner_parameter_names, b.scanner_parameter_names);
    assert_eq!(a.affected_urls, b.affected_urls);
    assert_eq!(a.flagged_cookies, b.flagged_cookies);
    assert_eq!(a.leaked_emails, b.leaked_emails);
    assert_eq!(a.leaked_card_numbers, b.leaked_card_numbers);
}

#[test]
fn no_blobs_have_an_empty_summary() {
    let (metas, sum) = summarize(&[]);
    assert!(metas.is_empty());
    assert!(sum.project_id_candidates.is_empty() && sum.scope_includes.is_empty());
    assert!(sum.scope_excludes.is_empty() && sum.scope_rules_raw.is_empty());
    assert!(sum.file_extension_filters.is_empty() && sum.live_tasks.is_empty());
    assert!(sum.scanner_parameter_names.is_empty() && sum.issues.is_empty());
    assert!(sum.affected_urls.is_empty() && sum.flagged_cookies.is_empty());
    assert!(sum.leaked_emails.is_empty() && sum.leaked_card_numbers.is_empty());
}
