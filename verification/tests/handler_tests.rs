use nomad_core::handler::{file_name_of, is_allowed, plan_request, respond, RequestOutcome, RequestPlan, INLINE_REPLY_LIMIT};
use nomad_core::pages::{Content, Entry};

const A: [u8; 16] = [1; 16];
const B: [u8; 16] = [2; 16];

fn page(path: &str) -> Entry {
    Entry { request_path: path.to_string(), content: Content::Generated(vec![]), is_file: false }
}

fn file(path: &str) -> Entry {
    Entry { request_path: path.to_string(), content: Content::File("/f/x".to_string()), is_file: true }
}

#[test]
fn empty_allow_list_serves_everyone() {
    assert!(is_allowed(&vec![], None));
    assert!(is_allowed(&vec![], Some(A)));
}

#[test]
fn allow_list_serves_listed_only() {
    let allowed = vec![A];
    assert!(is_allowed(&allowed, Some(A)));
    assert!(!is_allowed(&allowed, Some(B)));
    assert!(!is_allowed(&allowed, None));
}

#[test]
fn plans() {
    let e = page("/page/a.mu");
    assert!(matches!(plan_request(&vec![B], Some(A), Some(&e)), RequestPlan::Denied));
    assert!(matches!(plan_request(&vec![B], None, None), RequestPlan::Denied));
    assert!(matches!(plan_request(&vec![], Some(A), None), RequestPlan::UnknownPath));
    assert!(matches!(plan_request(&vec![], None, Some(&e)), RequestPlan::ReadContent));
    let s = Entry { request_path: "/page/c.mu".to_string(), content: Content::Script("/p/c.mu.rhai".to_string()), is_file: false };
    match plan_request(&vec![A], Some(A), Some(&s)) {
        RequestPlan::RunScript { script, remote_identity_hex } => {
            assert_eq!(script, "/p/c.mu.rhai");
            assert_eq!(remote_identity_hex.as_deref(), Some("01010101010101010101010101010101"));
        }
        _ => panic!("script should run"),
    }
    match plan_request(&vec![], None, Some(&s)) {
        RequestPlan::RunScript { remote_identity_hex, .. } => assert!(remote_identity_hex.is_none()),
        _ => panic!("script should run"),
    }
}

#[test]
fn small_body_is_inline() {
    let body = vec![7u8; INLINE_REPLY_LIMIT - 1];
    match respond(&file("/file/a.bin"), body.clone()) {
        RequestOutcome::Reply(b) => assert_eq!(b, body),
        _ => panic!("should reply inline"),
    }
}

#[test]
fn large_file_is_resource_with_name() {
    let body = vec![7u8; INLINE_REPLY_LIMIT];
    match respond(&file("/file/manual.pdf"), body.clone()) {
        RequestOutcome::ReplyWithResource { ack, data, metadata, auto_compress } => {
            assert!(ack.is_empty());
            assert_eq!(data, body);
            assert!(auto_compress);
            let mut expected = vec![0x81, 0xa4];
            expected.extend_from_slice(b"name");
            expected.push(0xa0 | 10);
            expected.extend_from_slice(b"manual.pdf");
            assert_eq!(metadata, Some(expected));
        }
        _ => panic!("should be a resource"),
    }
}

#[test]
fn large_page_is_resource_without_name() {
    let body = vec![1u8; 1000];
    match respond(&page("/page/big.mu"), body) {
        RequestOutcome::ReplyWithResource { metadata, .. } => assert!(metadata.is_none()),
        _ => panic!("should be a resource"),
    }
}

#[test]
fn long_file_name_uses_str8_header() {
    let name = "n".repeat(40);
    let body = vec![0u8; 500];
    match respond(&file(&format!("/file/{name}")), body) {
        RequestOutcome::ReplyWithResource { metadata: Some(m), .. } => {
            assert_eq!(&m[..6], &[0x81, 0xa4, b'n', b'a', b'm', b'e']);
            assert_eq!(&m[6..8], &[0xd9, 40]);
            assert_eq!(m.len(), 8 + 40);
        }
        _ => panic!("should carry metadata"),
    }
}

#[test]
fn file_names() {
    assert_eq!(file_name_of("/file/manual.pdf"), "manual.pdf");
    assert_eq!(file_name_of("plain"), "plain");
    assert_eq!(file_name_of("/file/"), "");
    assert_eq!(file_name_of(""), "");
}
