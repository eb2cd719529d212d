//! Configuration of the page-hosting node: the values of the
//! `[nomadnetwork]` section of its INI file, with their defaults.
//!
//! ```ini
//! [nomadnetwork]
//! display_name = My Pages
//! pages_dir = /home/user/nomad/pages
//! files_dir = /home/user/nomad/files
//! announce_at_start = yes
//! announce_interval_minutes = 360
//! rescan_interval_seconds = 30
//! # optional allow-list: only these identity hashes (hex) may fetch pages
//! # allowed_identities = a1b2c3..., d4e5f6...
//! ```

use vstd::prelude::*;

use crate::hexcodec::{identity_hash_of, parse_identity_hash};
use crate::text::{join_path, owned, path_join};

verus! {

/// The example configuration text, printed for `--exampleconfig`.
pub const EXAMPLE_CONFIG: &'static str = "[nomadnetwork]
# Name shown to peers when they see this node's announce.
display_name = My Pages

# Directories are relative to this config file unless given as absolute paths.
pages_dir = pages
files_dir = files

# Send an announce as soon as the node starts.
announce_at_start = yes
# How often to re-announce, in minutes.
announce_interval_minutes = 360

# How often to rescan pages_dir/files_dir for changes, in seconds.
rescan_interval_seconds = 30

# Optional: restrict serving to specific identity hashes (hex, comma-separated).
# If left empty, the node serves pages to anyone.
# allowed_identities = a1b2c3d4e5f6a1b2c3d4e5f6a1b2c3d4
";

/// The display name used when the configuration gives none.
pub const DEFAULT_DISPLAY_NAME: &'static str = "Anonymous Node";

/// The announce interval, in minutes, used when the configuration gives no
/// positive one.
pub const DEFAULT_ANNOUNCE_INTERVAL_MINUTES: u64 = 360;

/// The rescan interval, in seconds, used when the configuration gives no
/// positive one.
pub const DEFAULT_RESCAN_INTERVAL_SECONDS: u64 = 30;

/// What the `[nomadnetwork]` section of a configuration file gives for each
/// key: `None` where the key is missing (or, for the numbers and the flag,
/// does not read as one).
pub struct ConfigSection {
    pub display_name: Option<String>,
    pub pages_dir: Option<String>,
    pub files_dir: Option<String>,
    pub identity_path: Option<String>,
    pub announce_at_start: Option<bool>,
    pub announce_interval_minutes: Option<i64>,
    pub rescan_interval_seconds: Option<i64>,
    pub allowed_identities: Option<Vec<String>>,
}

/// The node's configuration.
#[derive(Debug, Clone)]
pub struct NomadConfig {
    pub display_name: String,
    pub pages_dir: String,
    pub files_dir: String,
    pub identity_path: String,
    pub announce_at_start: bool,
    pub announce_interval_minutes: u64,
    pub rescan_interval_seconds: u64,
    /// If non-empty, only requests from these identity hashes are served.
    pub allowed_identities: Vec<[u8; 16]>,
}

/// The system-wide configuration directory.
pub const ETC_CONFIG_DIR: &'static str = "/etc/rsNodePage";

/// The per-user configuration directory under the XDG layout in `home`.
pub open spec fn xdg_config_dir_of(home: Seq<char>) -> Seq<char> {
    path_join(home, ".config/rsNodePage"@)
}

/// The configuration directory used when none is given:
/// - on Windows, `rsNodePage` in the application data directory, else
///   `.rsNodePage`;
/// - on Android, `/data/local/tmp/.rsNodePage`;
/// - elsewhere `/etc/rsNodePage` when it holds a `config` file, else the
///   XDG directory in the home directory when that holds one, else
///   `.rsNodePage` in the home directory, or in the working directory when
///   there is no home directory.
pub open spec fn default_config_dir_of(
    is_windows: bool,
    is_android: bool,
    appdata: Option<Seq<char>>,
    etc_has_config: bool,
    home: Option<Seq<char>>,
    xdg_has_config: bool,
) -> Seq<char> {
    if is_windows {
        match appdata {
            Some(a) => path_join(a, "rsNodePage"@),
            None => ".rsNodePage"@,
        }
    } else if is_android {
        "/data/local/tmp/.rsNodePage"@
    } else if etc_has_config {
        ETC_CONFIG_DIR@
    } else {
        match home {
            Some(h) => if xdg_has_config {
                xdg_config_dir_of(h)
            } else {
                path_join(h, ".rsNodePage"@)
            },
            None => ".rsNodePage"@,
        }
    }
}

/// The per-user configuration directory under the XDG layout in `home`.
pub fn xdg_config_dir(home: &str) -> (r: String)
    ensures
        r@ == xdg_config_dir_of(home@),
{
    join_path(home, ".config/rsNodePage")
}

/// The configuration directory used when none is given (see
/// [`default_config_dir_of`]): `appdata` and `home` are the environment's
/// application data and home directories, `etc_has_config` and
/// `xdg_has_config` whether `/etc/rsNodePage` and the XDG directory hold a
/// `config` file.
pub fn default_config_dir(
    is_windows: bool,
    is_android: bool,
    appdata: Option<String>,
    etc_has_config: bool,
    home: Option<String>,
    xdg_has_config: bool,
) -> (r: String)
    ensures
        r@ == default_config_dir_of(
            is_windows,
            is_android,
            match appdata {
                Some(a) => Some(a@),
                None => None,
            },
            etc_has_config,
            match home {
                Some(h) => Some(h@),
                None => None,
            },
            xdg_has_config,
        ),
{
    if is_windows {
        match appdata {
            Some(a) => join_path(a.as_str(), "rsNodePage"),
            None => owned(".rsNodePage"),
        }
    } else if is_android {
        owned("/data/local/tmp/.rsNodePage")
    } else if etc_has_config {
        owned(ETC_CONFIG_DIR)
    } else {
        match home {
            Some(h) => if xdg_has_config {
                xdg_config_dir(h.as_str())
            } else {
                join_path(h.as_str(), ".rsNodePage")
            },
            None => owned(".rsNodePage"),
        }
    }
}

/// `v` when it is a positive number, else `default`.
pub open spec fn positive_or(v: Option<i64>, default: u64) -> u64 {
    match v {
        Some(n) => if n > 0 {
            n as u64
        } else {
            default
        },
        None => default,
    }
}

/// A configured interval is kept whenever it is positive, however large;
/// only a missing, zero or negative one gives the default.
pub proof fn lemma_positive_or(n: i64, default: u64)
    ensures
        n > 0 ==> positive_or(Some(n), default) as int == n as int,
        n <= 0 ==> positive_or(Some(n), default) == default,
        positive_or(None, default) == default,
{
}

/// The text `v` gives, else `default`.
pub open spec fn text_or(v: Option<String>, default: Seq<char>) -> Seq<char> {
    match v {
        Some(s) => s@,
        None => default,
    }
}

/// The identity hashes that the entries of `list` hold, in order; entries
/// that hold none are skipped.
pub open spec fn identities_of(list: Seq<Seq<char>>) -> Seq<Seq<u8>>
    decreases list.len(),
{
    if list.len() == 0 {
        Seq::empty()
    } else {
        let rest = identities_of(list.drop_last());
        match identity_hash_of(list.last()) {
            Some(h) => rest.push(h),
            None => rest,
        }
    }
}

/// The views of a sequence of identity hashes.
pub open spec fn hash_views(v: Seq<[u8; 16]>) -> Seq<Seq<u8>> {
    v.map_values(|h: [u8; 16]| h@)
}

/// The views of a sequence of strings.
pub open spec fn text_views(v: Seq<String>) -> Seq<Seq<char>> {
    v.map_values(|s: String| s@)
}

/// `text` or, when missing, `default` joined onto `dir`.
fn text_or_joined(text: &Option<String>, dir: &str, default: &str) -> (r: String)
    ensures
        r@ == text_or(*text, path_join(dir@, default@)),
{
    match text {
        Some(s) => s.clone(),
        None => join_path(dir, default),
    }
}

/// `v` when it is a positive number, else `default`.
pub fn positive_or_default(v: Option<i64>, default: u64) -> (r: u64)
    ensures
        r == positive_or(v, default),
{
    match v {
        Some(n) => if n > 0 {
            n as u64
        } else {
            default
        },
        None => default,
    }
}

/// The identity hashes the entries of `list` hold, in order.
pub fn parse_identities(list: &Vec<String>) -> (r: Vec<[u8; 16]>)
    ensures
        hash_views(r@) == identities_of(text_views(list@)),
{
    let mut r: Vec<[u8; 16]> = Vec::new();
    let n = list.len();
    let mut i: usize = 0;
    while i < n
        invariant
            n == list@.len(),
            i <= n,
            hash_views(r@) == identities_of(text_views(list@).take(i as int)),
        decreases n - i,
    {
        let ghost before = hash_views(r@);
        proof {
            assert(text_views(list@).take(i + 1).drop_last() =~= text_views(list@).take(i as int));
            assert(text_views(list@).take(i + 1).last() == list@[i as int]@);
        }
        match parse_identity_hash(list[i].as_str()) {
            Some(h) => {
                r.push(h);
                assert(hash_views(r@) =~= before.push(h@));
            },
            None => {},
        }
        i = i + 1;
    }
    assert(text_views(list@).take(n as int) =~= text_views(list@));
    r
}

impl NomadConfig {
    /// The example configuration text.
    pub fn example() -> (r: &'static str)
        ensures
            r@ == EXAMPLE_CONFIG@,
    {
        EXAMPLE_CONFIG
    }

    /// The configuration that `section` gives (`None` when the file has no
    /// `[nomadnetwork]` section or could not be read), with the default
    /// directories and identity file placed in `config_dir`: the display
    /// name defaults to "Anonymous Node", the directories to `pages` and
    /// `files` and the identity to `identity`, the announce at start to on,
    /// and the intervals, unless positive, to 360 minutes and 30 seconds.
    /// Allow-list entries that are no 16-byte hexadecimal hash are skipped.
    pub fn from_section(section: Option<&ConfigSection>, config_dir: &str) -> (r: NomadConfig)
        ensures
            match section {
                Some(s) => {
                    &&& r.display_name@ == text_or(s.display_name, DEFAULT_DISPLAY_NAME@)
                    &&& r.pages_dir@ == text_or(s.pages_dir, path_join(config_dir@, "pages"@))
                    &&& r.files_dir@ == text_or(s.files_dir, path_join(config_dir@, "files"@))
                    &&& r.identity_path@ == text_or(s.identity_path, path_join(config_dir@, "identity"@))
                    &&& r.announce_at_start == match s.announce_at_start {
                        Some(b) => b,
                        None => true,
                    }
                    &&& r.announce_interval_minutes == positive_or(
                        s.announce_interval_minutes,
                        DEFAULT_ANNOUNCE_INTERVAL_MINUTES,
                    )
                    &&& r.rescan_interval_seconds == positive_or(
                        s.rescan_interval_seconds,
                        DEFAULT_RESCAN_INTERVAL_SECONDS,
                    )
                    &&& hash_views(r.allowed_identities@) == match s.allowed_identities {
                        Some(list) => identities_of(text_views(list@)),
                        None => Seq::empty(),
                    }
                },
                None => {
                    &&& r.display_name@ == DEFAULT_DISPLAY_NAME@
                    &&& r.pages_dir@ == path_join(config_dir@, "pages"@)
                    &&& r.files_dir@ == path_join(config_dir@, "files"@)
                    &&& r.identity_path@ == path_join(config_dir@, "identity"@)
                    &&& r.announce_at_start
                    &&& r.announce_interval_minutes == DEFAULT_ANNOUNCE_INTERVAL_MINUTES
                    &&& r.rescan_interval_seconds == DEFAULT_RESCAN_INTERVAL_SECONDS
                    &&& r.allowed_identities@.len() == 0
                },
            },
    {
        match section {
            Some(s) => {
                let display_name = match &s.display_name {
                    Some(n) => n.clone(),
                    None => owned(DEFAULT_DISPLAY_NAME),
                };
                let allowed_identities = match &s.allowed_identities {
                    Some(list) => parse_identities(list),
                    None => Vec::new(),
                };
                assert(hash_views(Seq::<[u8; 16]>::empty()) =~= Seq::<Seq<u8>>::empty());
                NomadConfig {
                    display_name,
                    pages_dir: text_or_joined(&s.pages_dir, config_dir, "pages"),
                    files_dir: text_or_joined(&s.files_dir, config_dir, "files"),
                    identity_path: text_or_joined(&s.identity_path, config_dir, "identity"),
                    announce_at_start: match s.announce_at_start {
                        Some(b) => b,
                        None => true,
                    },
                    announce_interval_minutes: positive_or_default(
                        s.announce_interval_minutes,
                        DEFAULT_ANNOUNCE_INTERVAL_MINUTES,
                    ),
                    rescan_interval_seconds: positive_or_default(
                        s.rescan_interval_seconds,
                        DEFAULT_RESCAN_INTERVAL_SECONDS,
                    ),
                    allowed_identities,
                }
            },
            None => NomadConfig {
                display_name: owned(DEFAULT_DISPLAY_NAME),
                pages_dir: join_path(config_dir, "pages"),
                files_dir: join_path(config_dir, "files"),
                identity_path: join_path(config_dir, "identity"),
                announce_at_start: true,
                announce_interval_minutes: DEFAULT_ANNOUNCE_INTERVAL_MINUTES,
                rescan_interval_seconds: DEFAULT_RESCAN_INTERVAL_SECONDS,
                allowed_identities: Vec::new(),
            },
        }
    }

    /// Applies the command line's directory overrides: a given pages or
    /// files directory replaces the configured one.
    pub fn apply_dir_overrides(&mut self, pages: Option<String>, files: Option<String>)
        ensures
            final(self).pages_dir@ == text_or(pages, old(self).pages_dir@),
            final(self).files_dir@ == text_or(files, old(self).files_dir@),
            final(self).display_name == old(self).display_name,
            final(self).identity_path == old(self).identity_path,
            final(self).announce_at_start == old(self).announce_at_start,
            final(self).announce_interval_minutes == old(self).announce_interval_minutes,
            final(self).rescan_interval_seconds == old(self).rescan_interval_seconds,
            final(self).allowed_identities == old(self).allowed_identities,
    {
        match pages {
            Some(p) => self.pages_dir = p,
            None => {},
        }
        match files {
            Some(f) => self.files_dir = f,
            None => {},
        }
    }

    /// Places the pages and files directories in `config_dir` unless they
    /// are absolute; `pages_is_absolute` and `files_is_absolute` say whether
    /// they are, as the platform's paths decide it.
    pub fn anchor_dirs(&mut self, config_dir: &str, pages_is_absolute: bool, files_is_absolute: bool)
        ensures
            final(self).pages_dir@ == (if pages_is_absolute {
                old(self).pages_dir@
            } else {
                path_join(config_dir@, old(self).pages_dir@)
            }),
            final(self).files_dir@ == (if files_is_absolute {
                old(self).files_dir@
            } else {
                path_join(config_dir@, old(self).files_dir@)
            }),
            final(self).display_name == old(self).display_name,
            final(self).identity_path == old(self).identity_path,
            final(self).announce_at_start == old(self).announce_at_start,
            final(self).announce_interval_minutes == old(self).announce_interval_minutes,
            final(self).rescan_interval_seconds == old(self).rescan_interval_seconds,
            final(self).allowed_identities == old(self).allowed_identities,
    {
        if !pages_is_absolute {
            self.pages_dir = join_path(config_dir, self.pages_dir.as_str());
        }
        if !files_is_absolute {
            self.files_dir = join_path(config_dir, self.files_dir.as_str());
        }
    }
}

} // verus!
