use nomad_core::hash::{key_of, truncated_hash};
use nomad_core::pages::{content_source, generate_index, Content, ContentSource, DirItem, PageIndex};

fn item(name: &str, path: &str) -> DirItem {
    DirItem { name: name.to_string(), path: path.to_string() }
}

fn hash_of(path: &str) -> [u8; 16] {
    truncated_hash(path.as_bytes())
}

#[test]
fn truncated_hash_is_sha256_prefix() {
    let h = truncated_hash(b"");
    assert_eq!(
        h,
        [0xe3, 0xb0, 0xc4, 0x42, 0x98, 0xfc, 0x1c, 0x14, 0x9a, 0xfb, 0xf4, 0xc8, 0x99, 0x6f, 0xb9, 0x24]
    );
}

#[test]
fn key_is_big_endian_value() {
    let mut h = [0u8; 16];
    h[15] = 1;
    h[14] = 2;
    assert_eq!(key_of(&h), 0x0201);
    h[0] = 0xff;
    assert_eq!(key_of(&h), (0xffu128 << 120) | 0x0201);
}

#[test]
fn scan_serves_pages_files_and_scripts() {
    let pages = vec![item("about.mu", "/p/about.mu"), item("clock.mu.rhai", "/p/clock.mu.rhai")];
    let files = vec![item("manual.pdf", "/f/manual.pdf")];
    let index = PageIndex::build(&pages, &files);
    assert_eq!(index.len(), 4);
    assert!(!index.is_empty());

    let about = index.get(&hash_of("/page/about.mu")).expect("page served");
    assert_eq!(about.request_path, "/page/about.mu");
    assert!(!about.is_file);
    assert!(matches!(&about.content, Content::File(p) if p == "/p/about.mu"));

    let clock = index.get(&hash_of("/page/clock.mu")).expect("script served");
    assert!(matches!(&clock.content, Content::Script(p) if p == "/p/clock.mu.rhai"));

    let manual = index.get(&hash_of("/file/manual.pdf")).expect("file served");
    assert!(manual.is_file);
    assert!(matches!(&manual.content, Content::File(p) if p == "/f/manual.pdf"));

    assert!(index.get(&hash_of("/page/missing.mu")).is_none());
}

#[test]
fn scan_generates_sorted_index_page() {
    let pages = vec![item("zeta.mu", "/p/zeta.mu"), item("alpha.mu", "/p/alpha.mu")];
    let index = PageIndex::build(&pages, &Vec::new());
    let entry = index.get(&hash_of("/page/index.mu")).expect("index served");
    assert_eq!(entry.request_path, "/page/index.mu");
    match &entry.content {
        Content::Generated(bytes) => assert_eq!(
            String::from_utf8(bytes.clone()).unwrap(),
            ">Pages\n\n`[alpha.mu`/page/alpha.mu]\n`[zeta.mu`/page/zeta.mu]\n"
        ),
        _ => panic!("index page should be generated"),
    }
}

#[test]
fn scan_keeps_operator_index_page() {
    let pages = vec![item("index.mu", "/p/index.mu")];
    let index = PageIndex::build(&pages, &Vec::new());
    assert_eq!(index.len(), 1);
    let entry = index.get(&hash_of("/page/index.mu")).unwrap();
    assert!(matches!(&entry.content, Content::File(p) if p == "/p/index.mu"));
}

#[test]
fn scan_of_empty_directories_serves_empty_index() {
    let index = PageIndex::build(&Vec::new(), &Vec::new());
    assert_eq!(index.len(), 1);
    let entry = index.get(&hash_of("/page/index.mu")).unwrap();
    match &entry.content {
        Content::Generated(bytes) => {
            assert_eq!(bytes.as_slice(), b">Pages\n\nNo pages have been published yet.\n")
        }
        _ => panic!("index page should be generated"),
    }
}

#[test]
fn later_listing_replaces_earlier_same_path() {
    let pages = vec![item("a.mu", "/p/a.mu"), item("a.mu.rhai", "/p/a.mu.rhai")];
    let index = PageIndex::build(&pages, &Vec::new());
    let entry = index.get(&hash_of("/page/a.mu")).unwrap();
    assert!(matches!(&entry.content, Content::Script(p) if p == "/p/a.mu.rhai"));
    let listing = index.get(&hash_of("/page/index.mu")).unwrap();
    match &listing.content {
        Content::Generated(bytes) => assert_eq!(
            String::from_utf8(bytes.clone()).unwrap(),
            ">Pages\n\n`[a.mu`/page/a.mu]\n`[a.mu`/page/a.mu]\n"
        ),
        _ => panic!(),
    }
}

#[test]
fn generate_index_lists_in_given_order() {
    let names = vec!["b".to_string(), "a".to_string()];
    assert_eq!(generate_index(&names), b">Pages\n\n`[b`/page/b]\n`[a`/page/a]\n".to_vec());
    assert_eq!(generate_index(&[]), b">Pages\n\nNo pages have been published yet.\n".to_vec());
}

#[test]
fn new_and_default_indexes_are_empty() {
    assert!(PageIndex::new().is_empty());
    assert_eq!(PageIndex::default().len(), 0);
}

#[test]
fn content_sources() {
    assert!(matches!(content_source(&Content::File("/x".to_string())), ContentSource::ReadFile(p) if p == "/x"));
    assert!(matches!(content_source(&Content::Generated(vec![1, 2])), ContentSource::Bytes(b) if b == vec![1, 2]));
    assert!(matches!(content_source(&Content::Script("/s".to_string())), ContentSource::NotReadable));
}
