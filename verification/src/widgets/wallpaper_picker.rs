//! The wallpaper picker widget's configuration.
//!
//! Paths are handled as text with Unix conventions; the home directory is handed in by
//! the caller, who reads it from the environment.

use vstd::prelude::*;

use crate::path::{join_path, path_join};
use crate::text::{chars_of, push_char, seq_starts_with, starts_with, str_eq, string_of};
use crate::widgets::config::{opt_view, option_integer, option_str, WidgetEntry};
use crate::widgets::wallpaper_picker_popover::WallpaperPickerOptions;

verus! {

/// Icon of the widget when none is configured.
pub const DEFAULT_ICON: &'static str = "preferences-desktop-wallpaper-symbolic";

/// Wallpaper directory, relative to the home directory, when none is configured.
pub const DEFAULT_SUBDIR: &'static str = "Pictures/Wallpapers";

/// Thumbnail edge length, in logical pixels, when none is configured.
pub const DEFAULT_THUMBNAIL_SIZE: i32 = 96;

/// The default wallpaper directory: `Pictures/Wallpapers` in the home directory, or the
/// current directory when there is no home directory.
pub open spec fn spec_default_directory(home: Option<Seq<char>>) -> Seq<char> {
    match home {
        Some(h) => path_join(h, DEFAULT_SUBDIR@),
        None => "."@,
    }
}

/// The default wallpaper directory for the home directory `home` (see
/// `spec_default_directory`).
pub fn default_wallpaper_directory(home: Option<&str>) -> (r: String)
    ensures
        r@ == spec_default_directory(match home {
            Some(h) => Some(h@),
            None => None,
        }),
{
    match home {
        Some(h) => join_path(h, DEFAULT_SUBDIR),
        None => {
            proof { reveal_strlit("."); }
            string_of(".")
        },
    }
}

/// `path` with the home directory in place of a leading `~` or a bare `$HOME`, when there
/// is a home directory: `~` and `$HOME` alone become the home directory, and `~/rest`
/// becomes `rest` joined to it.
pub open spec fn spec_shellexpand_home(path: Seq<char>, home: Option<Seq<char>>) -> Seq<char> {
    match home {
        Some(h) => if path == "~"@ || path == "$HOME"@ {
            h
        } else if seq_starts_with(path, "~/"@) {
            path_join(h, path.skip(2))
        } else {
            path
        },
        None => path,
    }
}

/// The characters of `v` from position `k` on, as a string.
fn suffix_from(v: &Vec<char>, k: usize) -> (r: String)
    requires
        k <= v.len(),
    ensures
        r@ == v@.skip(k as int),
{
    let mut rest = String::new();
    let mut i: usize = k;
    while i < v.len()
        invariant
            k <= i <= v.len(),
            rest@ == v@.subrange(k as int, i as int),
        decreases v.len() - i,
    {
        push_char(&mut rest, v[i]);
        i = i + 1;
        assert(rest@ =~= v@.subrange(k as int, i as int));
    }
    assert(v@.subrange(k as int, v.len() as int) =~= v@.skip(k as int));
    rest
}

/// Expands a leading `~` or a bare `$HOME` of `path` to the home directory `home` (see
/// `spec_shellexpand_home`).
pub fn shellexpand_home(path: &str, home: Option<&str>) -> (r: String)
    ensures
        r@ == spec_shellexpand_home(path@, match home {
            Some(h) => Some(h@),
            None => None,
        }),
{
    let h = match home {
        Some(h) => h,
        None => return string_of(path),
    };
    if str_eq(path, "~") || str_eq(path, "$HOME") {
        return string_of(h);
    }
    proof { reveal_strlit("~/"); }
    let chars = chars_of(path);
    if starts_with(&chars, &chars_of("~/")) {
        let rest = suffix_from(&chars, 2);
        return join_path(h, rest.as_str());
    }
    string_of(path)
}

/// The wallpaper picker widget's configuration.
#[derive(Debug)]
pub struct WallpaperPickerConfig {
    pub icon: Option<String>,
    pub label: Option<String>,
    /// Directory scanned for wallpaper images.
    pub directory: String,
    /// Monitor connector the wallpaper goes to by default (e.g. "eDP-1"); `None` for
    /// all monitors.
    pub monitor: Option<String>,
    /// The configured fill mode as written, for the wallpaper service to interpret;
    /// `None` for its default.
    pub fill: Option<String>,
    /// Thumbnail edge length in logical pixels.
    pub thumbnail_size: i32,
}

/// The configured thumbnail size when it is a positive integer (cast to `i32` as
/// written), else the default.
pub open spec fn thumbnail_size_from(v: Option<i64>) -> i32 {
    match v {
        Some(n) => if n > 0 { n as i32 } else { DEFAULT_THUMBNAIL_SIZE },
        None => DEFAULT_THUMBNAIL_SIZE,
    }
}

/// A positive thumbnail size that fits an `i32` is taken as given; zero, a negative
/// value or none gives the default.
pub proof fn lemma_thumbnail_size_from(v: Option<i64>)
    ensures
        v matches Some(n) ==> (0 < n && n <= i32::MAX ==> thumbnail_size_from(v) as int == n),
        v matches Some(n) ==> (n <= 0 ==> thumbnail_size_from(v) == DEFAULT_THUMBNAIL_SIZE),
        v is None ==> thumbnail_size_from(v) == DEFAULT_THUMBNAIL_SIZE,
{
}

impl WallpaperPickerConfig {
    /// The default configuration for the home directory `home`: the default icon, no
    /// label, the default directory, all monitors, the default fill mode and thumbnail
    /// size.
    pub fn defaults(home: Option<&str>) -> (r: Self)
        ensures
            opt_view(r.icon) == Some(DEFAULT_ICON@),
            r.label is None,
            r.directory@ == spec_default_directory(match home {
                Some(h) => Some(h@),
                None => None,
            }),
            r.monitor is None,
            r.fill is None,
            r.thumbnail_size == DEFAULT_THUMBNAIL_SIZE,
    {
        WallpaperPickerConfig {
            icon: Some(string_of(DEFAULT_ICON)),
            label: None,
            directory: default_wallpaper_directory(home),
            monitor: None,
            fill: None,
            thumbnail_size: DEFAULT_THUMBNAIL_SIZE,
        }
    }

    /// The configuration from the widget's entry, for the home directory `home`: string
    /// options `icon`, `label`, `directory` (with `~` and `$HOME` expanded), `monitor` (empty counts
    /// as unset) and `fill`, integer option `thumbnail_size` (positive only); otherwise
    /// the defaults.
    pub fn from_entry(entry: &WidgetEntry, home: Option<&str>) -> (r: Self)
        ensures
            opt_view(r.icon) == (match option_str(entry.options@, "icon"@) {
                Some(i) => Some(i),
                None => Some(DEFAULT_ICON@),
            }),
            opt_view(r.label) == option_str(entry.options@, "label"@),
            r.directory@ == (match option_str(entry.options@, "directory"@) {
                Some(d) => spec_shellexpand_home(d, match home {
                    Some(h) => Some(h@),
                    None => None,
                }),
                None => spec_default_directory(match home {
                    Some(h) => Some(h@),
                    None => None,
                }),
            }),
            opt_view(r.monitor) == (match option_str(entry.options@, "monitor"@) {
                Some(m) => if m.len() > 0 { Some(m) } else { None },
                None => None,
            }),
            opt_view(r.fill) == option_str(entry.options@, "fill"@),
            r.thumbnail_size == thumbnail_size_from(option_integer(entry.options@, "thumbnail_size"@)),
            match option_integer(entry.options@, "thumbnail_size"@) {
                Some(n) => (0 < n && n <= i32::MAX ==> r.thumbnail_size as int == n) && (n <= 0
                    ==> r.thumbnail_size == DEFAULT_THUMBNAIL_SIZE),
                None => r.thumbnail_size == DEFAULT_THUMBNAIL_SIZE,
            },
    {
        let defaults = WallpaperPickerConfig::defaults(home);
        let icon = match entry.get_str("icon") {
            Some(i) => Some(i),
            None => defaults.icon,
        };
        let label = entry.get_str("label");
        let directory = match entry.get_str("directory") {
            Some(d) => shellexpand_home(d.as_str(), home),
            None => defaults.directory,
        };
        let monitor = match entry.get_str("monitor") {
            Some(m) => if m.as_str().is_empty() { None } else { Some(m) },
            None => None,
        };
        let fill = entry.get_str("fill");
        let thumbnail_size = match entry.get_integer("thumbnail_size") {
            Some(n) => if n > 0 { n as i32 } else { DEFAULT_THUMBNAIL_SIZE },
            None => DEFAULT_THUMBNAIL_SIZE,
        };
        WallpaperPickerConfig { icon, label, directory, monitor, fill, thumbnail_size }
    }

    /// The popover's options: the directory, default monitor, fill mode and thumbnail
    /// size of this configuration.
    pub fn popover_options(self) -> (r: WallpaperPickerOptions)
        ensures
            r.directory == self.directory,
            r.monitor == self.monitor,
            r.fill == self.fill,
            r.thumbnail_size == self.thumbnail_size,
    {
        WallpaperPickerOptions {
            directory: self.directory,
            monitor: self.monitor,
            fill: self.fill,
            thumbnail_size: self.thumbnail_size,
        }
    }
}

} // verus!
