use burpex::extract::host_from_string;

#[test]
fn host_from_url() {
    assert_eq!(
        host_from_string("https://example.com/foo"),
        Some("example.com".into())
    );
    assert_eq!(
        host_from_string("http://a.b.example.com:8080"),
        Some("a.b.example.com:8080".into())
    );
}

#[test]
fn host_from_bare_hostname() {
    assert_eq!(host_from_string("api.fun.xyz"), Some("api.fun.xyz".into()));
    assert_eq!(host_from_string("1.2.3.4"), Some("1.2.3.4".into()));
}

#[test]
fn host_rejects_garbage() {
    assert_eq!(host_from_string("just-words"), None); // no dot
    assert_eq!(host_from_string("ends.with.123"), None); // numeric TLD
    assert_eq!(host_from_string(""), None);
    assert_eq!(host_from_string("with spaces.com"), None);
    assert_eq!(host_from_string("-leading.dash"), None); // dash leading
}

#[test]
fn hosts_in_their_forms() {
    assert_eq!(host_from_string(" a.bc "), Some("a.bc".into()));
    assert_eq!(host_from_string("a.bc:80"), Some("a.bc:80".into()));
    assert_eq!(host_from_string("https://1.2.3.4:8/x"), Some("1.2.3.4:8".into()));
    assert_eq!(host_from_string("http://"), None);
    assert_eq!(host_from_string("http://x/y.zz"), None);
    assert_eq!(host_from_string("1.2.3.256"), None);
    assert_eq!(host_from_string("1.2.3"), None);
    assert_eq!(host_from_string("a.b"), None); // one-letter TLD
    assert_eq!(host_from_string("a..com"), None);
    assert_eq!(host_from_string("a-.com"), None);
    assert_eq!(host_from_string("a_b.com"), None);
    let label = "x".repeat(63);
    assert!(host_from_string(&format!("{}.com", label)).is_some());
    assert!(host_from_string(&format!("{}x.com", label)).is_none());
    let long = format!("{}.com", "a.".repeat(125) + "b");
    assert_eq!(long.len(), 255);
    assert_eq!(host_from_string(&long), None);
}
