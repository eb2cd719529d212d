use nomad_core::text::{join_path, sort_names, str_less, strip_prefix, strip_suffix};

#[test]
fn code_point_order() {
    assert!(str_less("a", "b"));
    assert!(str_less("ab", "abc"));
    assert!(!str_less("abc", "ab"));
    assert!(!str_less("same", "same"));
    assert!(str_less("Z", "a"));
    assert!(str_less("z", "é"));
}

#[test]
fn sorting_names() {
    let names: Vec<String> = vec!["pear", "apple", "Zoo", "apple", "ápple"].into_iter().map(String::from).collect();
    let sorted = sort_names(&names);
    assert_eq!(sorted, vec!["Zoo", "apple", "apple", "pear", "ápple"]);
    let mut expected = names.clone();
    expected.sort();
    assert_eq!(sorted, expected);
}

#[test]
fn prefixes_and_suffixes() {
    assert_eq!(strip_suffix("clock.mu.rhai", ".rhai").as_deref(), Some("clock.mu"));
    assert_eq!(strip_suffix("clock.mu", ".rhai"), None);
    assert_eq!(strip_suffix("rhai", ".rhai"), None);
    assert_eq!(strip_prefix("field_name", "field_").as_deref(), Some("name"));
    assert_eq!(strip_prefix("name", "field_"), None);
}

#[test]
fn joining_paths() {
    assert_eq!(join_path("/etc/node", "pages"), "/etc/node/pages");
    assert_eq!(join_path("/etc/node/", "pages"), "/etc/node/pages");
    assert_eq!(join_path("", "pages"), "pages");
    assert_eq!(join_path("/etc/node", "/srv/pages"), "/srv/pages");
    let std_join = std::path::Path::new("conf").join("files");
    assert_eq!(join_path("conf", "files"), std_join.to_str().unwrap());
}

#[test]
fn white_space_is_unicode_white_space() {
    for v in 0u32..=0x10ffff {
        if let Some(c) = char::from_u32(v) {
            assert_eq!(nomad_core::text::white_space(c), c.is_whitespace(), "U+{v:04X}");
        }
    }
}

#[test]
fn trimming_matches_std() {
    for s in ["", "  ", " a ", "\t\na1b2\r\n", "\u{3000}x\u{2028}", "\u{200b}y", "no", " mid dle "] {
        assert_eq!(nomad_core::text::trim(s), s.trim(), "{s:?}");
    }
}
