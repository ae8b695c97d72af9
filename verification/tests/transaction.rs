use burpex::transaction::{extract_path, Transaction};
use burpex::HttpMessage;

#[test]
fn extract_path_ascii() {
    assert_eq!(extract_path(b"/api/v1/foo"), Some("/api/v1/foo".into()));
    assert_eq!(extract_path(b"not-a-path"), None);
}

#[test]
fn extract_path_utf16be() {
    let path: Vec<u8> = "/foo/bar".bytes().flat_map(|c| [0u8, c]).collect();
    assert_eq!(extract_path(&path), Some("/foo/bar".into()));
}

#[test]
fn request_url_assembly() {
    let mut req = HttpMessage::default();
    req.kind = "request";
    req.host = Some("example.com".into());
    req.path = Some("/foo".into());
    req.query = vec![("a".into(), "1".into()), ("b".into(), "2".into())];
    let txn = Transaction {
        request: Some(req),
        ..Transaction::default()
    };
    assert_eq!(
        txn.request_url().as_deref(),
        Some("https://example.com/foo?a=1&b=2")
    );
}

#[test]
fn request_url_needs_a_request_and_a_host() {
    assert_eq!(Transaction::default().request_url(), None);
    let mut req = HttpMessage::default();
    let bare = Transaction {
        request: Some(req.clone()),
        ..Transaction::default()
    };
    assert_eq!(bare.request_url(), None);
    req.host = Some("h.example".into());
    let hosted = Transaction {
        request: Some(req),
        ..Transaction::default()
    };
    assert_eq!(hosted.request_url().as_deref(), Some("https://h.example/"));
}

#[test]
fn paired_means_both() {
    let mut txn = Transaction::default();
    assert!(!txn.is_paired());
    txn.request = Some(HttpMessage::default());
    assert!(!txn.is_paired());
    txn.response = Some(HttpMessage::default());
    assert!(txn.is_paired());
}

#[test]
fn paths_are_printable_and_rooted() {
    assert_eq!(extract_path(b""), None);
    assert_eq!(extract_path(b"/a\nb"), None);
    assert_eq!(extract_path(b"\x00x\x00/"), None);
    assert_eq!(extract_path(b"\x00/\x00x\x00"), None);
    assert_eq!(extract_path(b"\x00/\x01x"), None);
    let mut long = vec![0x2fu8];
    long.extend(vec![0x61u8; 4094]);
    assert_eq!(extract_path(&long).map(|s| s.len()), Some(4095));
    long.push(0x61);
    assert_eq!(extract_path(&long), None);
}
