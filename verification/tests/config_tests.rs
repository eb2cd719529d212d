use nomad_core::config::{default_config_dir, parse_identities, xdg_config_dir, ConfigSection, NomadConfig};
use nomad_core::hexcodec::{identity_hex, parse_identity_hash};

fn empty_section() -> ConfigSection {
    ConfigSection {
        display_name: None,
        pages_dir: None,
        files_dir: None,
        identity_path: None,
        announce_at_start: None,
        announce_interval_minutes: None,
        rescan_interval_seconds: None,
        allowed_identities: None,
    }
}

const ID: [u8; 16] = [0xa1, 0xb2, 0xc3, 0xd4, 0xe5, 0xf6, 0xa1, 0xb2, 0xc3, 0xd4, 0xe5, 0xf6, 0xa1, 0xb2, 0xc3, 0xd4];

#[test]
fn defaults_without_section() {
    let c = NomadConfig::from_section(None, "/etc/nomad");
    assert_eq!(c.display_name, "Anonymous Node");
    assert_eq!(c.pages_dir, "/etc/nomad/pages");
    assert_eq!(c.files_dir, "/etc/nomad/files");
    assert_eq!(c.identity_path, "/etc/nomad/identity");
    assert!(c.announce_at_start);
    assert_eq!(c.announce_interval_minutes, 360);
    assert_eq!(c.rescan_interval_seconds, 30);
    assert!(c.allowed_identities.is_empty());
}

#[test]
fn defaults_with_empty_section() {
    let c = NomadConfig::from_section(Some(&empty_section()), "");
    assert_eq!(c.display_name, "Anonymous Node");
    assert_eq!(c.pages_dir, "pages");
    assert!(c.announce_at_start);
    assert_eq!(c.announce_interval_minutes, 360);
}

#[test]
fn values_from_section() {
    let mut s = empty_section();
    s.display_name = Some("My Pages".to_string());
    s.pages_dir = Some("/srv/pages".to_string());
    s.announce_at_start = Some(false);
    s.announce_interval_minutes = Some(60);
    s.rescan_interval_seconds = Some(-5);
    s.allowed_identities = Some(vec![
        " a1b2c3d4e5f6a1b2c3d4e5f6a1b2c3d4 ".to_string(),
        "not hex".to_string(),
        "A1B2C3D4E5F6A1B2C3D4E5F6A1B2C3D4".to_string(),
        "a1b2".to_string(),
    ]);
    let c = NomadConfig::from_section(Some(&s), "/cfg");
    assert_eq!(c.display_name, "My Pages");
    assert_eq!(c.pages_dir, "/srv/pages");
    assert_eq!(c.files_dir, "/cfg/files");
    assert!(!c.announce_at_start);
    assert_eq!(c.announce_interval_minutes, 60);
    assert_eq!(c.rescan_interval_seconds, 30);
    assert_eq!(c.allowed_identities, vec![ID, ID]);
}

#[test]
fn zero_interval_falls_back() {
    let mut s = empty_section();
    s.announce_interval_minutes = Some(0);
    s.rescan_interval_seconds = Some(7);
    let c = NomadConfig::from_section(Some(&s), "/cfg");
    assert_eq!(c.announce_interval_minutes, 360);
    assert_eq!(c.rescan_interval_seconds, 7);
}

#[test]
fn identity_hashes() {
    assert_eq!(parse_identity_hash("a1b2c3d4e5f6a1b2c3d4e5f6a1b2c3d4"), Some(ID));
    assert_eq!(parse_identity_hash("\ta1b2c3d4e5f6a1b2c3d4e5f6a1b2c3d4\n"), Some(ID));
    assert_eq!(parse_identity_hash("a1b2c3d4e5f6a1b2c3d4e5f6a1b2c3"), None);
    assert_eq!(parse_identity_hash("a1b2c3d4e5f6a1b2c3d4e5f6a1b2c3d4ff"), None);
    assert_eq!(parse_identity_hash("g1b2c3d4e5f6a1b2c3d4e5f6a1b2c3d4"), None);
    assert_eq!(parse_identity_hash("a1b2c3d4e5f6a1b2c3d4e5f6a1b2c3d"), None);
    assert_eq!(parse_identity_hash(""), None);
}

#[test]
fn identity_hex_round_trip() {
    let text = identity_hex(&ID);
    assert_eq!(text, "a1b2c3d4e5f6a1b2c3d4e5f6a1b2c3d4");
    assert_eq!(parse_identity_hash(&text), Some(ID));
    assert_eq!(parse_identities(&vec![text]), vec![ID]);
}

#[test]
fn example_config_text() {
    let text = NomadConfig::example();
    assert!(text.starts_with("[nomadnetwork]\n"));
    assert!(text.contains("display_name = My Pages\n"));
    assert!(text.contains("announce_interval_minutes = 360\n"));
    assert!(text.contains("rescan_interval_seconds = 30\n"));
}

#[test]
fn resolving_directories() {
    let mut c = NomadConfig::from_section(None, "cfg");
    c.apply_dir_overrides(None, Some("/abs/files".to_string()));
    assert_eq!(c.files_dir, "/abs/files");
    c.anchor_dirs("/home/u/.nomad", false, true);
    assert_eq!(c.pages_dir, "/home/u/.nomad/cfg/pages");
    assert_eq!(c.files_dir, "/abs/files");
    let mut d = NomadConfig::from_section(None, "/etc/x");
    d.apply_dir_overrides(Some("mypages".to_string()), None);
    d.anchor_dirs("/etc/x", false, true);
    assert_eq!(d.pages_dir, "/etc/x/mypages");
    assert_eq!(d.files_dir, "/etc/x/files");
    let mut w = NomadConfig::from_section(None, "C:\\cfg");
    w.apply_dir_overrides(Some("C:\\pages".to_string()), None);
    w.anchor_dirs("C:\\cfg", true, true);
    assert_eq!(w.pages_dir, "C:\\pages");
}

#[test]
fn default_config_directories() {
    let home = Some("/home/u".to_string());
    assert_eq!(default_config_dir(false, false, None, true, home.clone(), true), "/etc/rsNodePage");
    assert_eq!(default_config_dir(false, false, None, false, home.clone(), true), "/home/u/.config/rsNodePage");
    assert_eq!(default_config_dir(false, false, None, false, home.clone(), false), "/home/u/.rsNodePage");
    assert_eq!(default_config_dir(false, false, None, false, None, false), ".rsNodePage");
    assert_eq!(default_config_dir(false, true, None, true, home.clone(), true), "/data/local/tmp/.rsNodePage");
    assert_eq!(default_config_dir(true, false, Some("C:/AppData".to_string()), false, None, false), "C:/AppData/rsNodePage");
    assert_eq!(default_config_dir(true, false, None, false, None, false), ".rsNodePage");
    assert_eq!(xdg_config_dir("/home/u"), "/home/u/.config/rsNodePage");
}

#[test]
fn bare_and_padded_hex_parse() {
    assert_eq!(parse_identity_hash("a1b2c3d4e5f6a1b2c3d4e5f6a1b2c3d4"), Some(ID));
    assert_eq!(parse_identity_hash(" \u{3000}A1B2C3D4E5F6A1B2C3D4E5F6A1B2C3D4\u{2028}"), Some(ID));
}
