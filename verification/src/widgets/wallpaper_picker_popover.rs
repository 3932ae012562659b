//! Decisions of the wallpaper picker popover: the monitor choices, the title of a
//! wallpaper row, the empty-state message, and the thumbnails.

use vstd::prelude::*;

use crate::path::{file_name, file_name_of};
use crate::text::{chars_of, copy_string, push_char, push_str, str_eq, string_of};

verus! {

/// The popover's options: the wallpaper directory, the monitor and fill mode it opens
/// with, and the thumbnail size.
#[derive(Debug)]
pub struct WallpaperPickerOptions {
    pub directory: String,
    /// Monitor connector picked at first; `None` for all monitors, which is always the
    /// first choice.
    pub monitor: Option<String>,
    /// Fill mode picked at first, as configured; `None` for the default.
    pub fill: Option<String>,
    /// Thumbnail edge length in logical pixels.
    pub thumbnail_size: i32,
}

/// The first choice of the monitor selector.
pub open spec fn all_monitors_label() -> Seq<char> {
    "All monitors"@
}

/// The monitor selector's choices: "All monitors", then each connector.
pub open spec fn spec_monitor_choices(monitors: Seq<String>) -> Seq<Seq<char>> {
    Seq::new(
        (monitors.len() + 1) as nat,
        |i: int| if i == 0 { all_monitors_label() } else { monitors[i - 1]@ },
    )
}

/// The monitor selector's choices (see `spec_monitor_choices`).
pub fn monitor_choices(monitors: &Vec<String>) -> (r: Vec<String>)
    ensures
        r@.len() == spec_monitor_choices(monitors@).len(),
        forall|i: int| 0 <= i < r@.len() ==> (#[trigger] r@[i])@ == spec_monitor_choices(monitors@)[i],
{
    proof { reveal_strlit("All monitors"); }
    let mut choices: Vec<String> = Vec::new();
    choices.push(string_of("All monitors"));
    let mut i: usize = 0;
    while i < monitors.len()
        invariant
            i <= monitors.len(),
            choices@.len() == i + 1,
            forall|k: int| 0 <= k < choices@.len() ==> (#[trigger] choices@[k])@ == spec_monitor_choices(monitors@)[k],
        decreases monitors.len() - i,
    {
        choices.push(copy_string(&monitors[i]));
        i = i + 1;
    }
    choices
}

/// The first position of a connector named `m`, if any.
pub open spec fn first_position(monitors: Seq<String>, m: Seq<char>) -> Option<int>
    decreases monitors.len(),
{
    if monitors.len() == 0 {
        None
    } else if monitors.last()@ == m && first_position(monitors.drop_last(), m) is None {
        Some(monitors.len() - 1)
    } else {
        first_position(monitors.drop_last(), m)
    }
}

/// The choice the monitor selector starts on: the first connector named as the
/// configured monitor, else "All monitors" (choice 0).
pub open spec fn spec_initial_monitor_index(monitors: Seq<String>, monitor: Option<Seq<char>>) -> int {
    match monitor {
        Some(m) => match first_position(monitors, m) {
            Some(i) => i + 1,
            None => 0,
        },
        None => 0,
    }
}

proof fn lemma_first_position(monitors: Seq<String>, m: Seq<char>, i: int)
    requires
        0 <= i <= monitors.len(),
        forall|k: int| 0 <= k < i ==> (#[trigger] monitors[k])@ != m,
        i == monitors.len() || monitors[i]@ == m,
    ensures
        first_position(monitors, m) == (if i < monitors.len() { Some(i) } else { None::<int> }),
    decreases monitors.len(),
{
    if monitors.len() > 0 {
        let t = monitors.drop_last();
        assert(monitors.last() == monitors[monitors.len() - 1]);
        if i < monitors.len() - 1 {
            assert(t[i] == monitors[i]);
            assert forall|k: int| 0 <= k < i implies (#[trigger] t[k])@ != m by {
                assert(t[k] == monitors[k]);
            }
            lemma_first_position(t, m, i);
        } else {
            assert forall|k: int| 0 <= k < t.len() implies (#[trigger] t[k])@ != m by {
                assert(t[k] == monitors[k]);
            }
            lemma_first_position(t, m, t.len() as int);
        }
    }
}

/// The choice the monitor selector starts on (see `spec_initial_monitor_index`).
pub fn initial_monitor_index(monitors: &Vec<String>, monitor: &Option<String>) -> (r: usize)
    ensures
        r as int == spec_initial_monitor_index(monitors@, match monitor {
            Some(m) => Some(m@),
            None => None,
        }),
{
    let m = match monitor {
        Some(m) => m,
        None => return 0,
    };
    let mut i: usize = 0;
    while i < monitors.len()
        invariant
            i <= monitors.len(),
            *monitor == Some(*m),
            forall|k: int| 0 <= k < i ==> (#[trigger] monitors@[k])@ != m@,
        decreases monitors.len() - i,
    {
        if str_eq(monitors[i].as_str(), m.as_str()) {
            proof {
                lemma_first_position(monitors@, m@, i as int);
            }
            return i + 1;
        }
        i = i + 1;
    }
    proof { lemma_first_position(monitors@, m@, monitors.len() as int); }
    0
}

/// The monitor that choice `idx` of the selector targets: `None` (all monitors) for
/// choice 0, else connector `idx - 1` when there is one.
pub open spec fn spec_monitor_for_choice(monitors: Seq<String>, idx: int) -> Option<Seq<char>> {
    if idx == 0 || idx > monitors.len() {
        None
    } else {
        Some(monitors[idx - 1]@)
    }
}

/// The monitor that choice `idx` of the selector targets (see
/// `spec_monitor_for_choice`).
pub fn monitor_for_choice(monitors: &Vec<String>, idx: usize) -> (r: Option<String>)
    ensures
        match r {
            Some(m) => spec_monitor_for_choice(monitors@, idx as int) == Some(m@),
            None => spec_monitor_for_choice(monitors@, idx as int) is None,
        },
{
    if idx == 0 || idx > monitors.len() {
        None
    } else {
        Some(copy_string(&monitors[idx - 1]))
    }
}

/// The selector starts on the configured monitor: picking its initial choice targets
/// that monitor when it is connected, and all monitors otherwise; and every choice
/// after the first is labelled with the connector it targets.
pub proof fn lemma_monitor_selector(monitors: Seq<String>, monitor: Option<Seq<char>>, idx: int)
    ensures
        spec_monitor_for_choice(monitors, spec_initial_monitor_index(monitors, monitor)) == (
        match monitor {
            Some(m) => if first_position(monitors, m) is Some { Some(m) } else { None },
            None => None,
        }),
        0 < idx < spec_monitor_choices(monitors).len() ==> spec_monitor_for_choice(monitors, idx)
            == Some(spec_monitor_choices(monitors)[idx]),
{
    match monitor {
        Some(m) => {
            lemma_first_position_found(monitors, m);
        },
        None => {},
    }
}

proof fn lemma_first_position_found(monitors: Seq<String>, m: Seq<char>)
    ensures
        match first_position(monitors, m) {
            Some(i) => 0 <= i < monitors.len() && monitors[i]@ == m,
            None => forall|k: int| 0 <= k < monitors.len() ==> (#[trigger] monitors[k])@ != m,
        },
    decreases monitors.len(),
{
    if monitors.len() > 0 {
        let t = monitors.drop_last();
        assert(monitors.last() == monitors[monitors.len() - 1]);
        lemma_first_position_found(t, m);
        match first_position(t, m) {
            Some(i) => {
                assert(t[i] == monitors[i]);
            },
            None => {},
        }
        if first_position(monitors, m) is None {
            assert forall|k: int| 0 <= k < monitors.len() implies (#[trigger] monitors[k])@ != m by {
                if k < t.len() {
                    assert(t[k] == monitors[k]);
                }
            }
        }
    }
}

/// The message shown when the directory holds no wallpapers.
pub fn empty_state_message(directory: &str) -> (r: String)
    ensures
        r@ == "No wallpapers found in "@ + directory@,
{
    let mut text = string_of("No wallpapers found in ");
    push_str(&mut text, directory);
    text
}

/// Position of the last `.` of `name`, or -1.
pub open spec fn last_dot(name: Seq<char>) -> int
    decreases name.len(),
{
    if name.len() == 0 {
        -1
    } else if name.last() == '.' {
        name.len() - 1
    } else {
        last_dot(name.drop_last())
    }
}

/// The stem of a file name as `Path::file_stem` takes it: the part before the final
/// `.`, or the whole name when it has no `.` other than a leading one.
pub open spec fn stem_of(name: Seq<char>) -> Seq<char> {
    let d = last_dot(name);
    if d <= 0 {
        name
    } else {
        name.take(d)
    }
}

/// The file stem of the path `p`, as `Path::file_stem` gives it on Unix.
pub open spec fn spec_file_stem(p: Seq<char>) -> Option<Seq<char>> {
    match file_name_of(p) {
        Some(name) => Some(stem_of(name)),
        None => None,
    }
}

proof fn lemma_last_dot(name: Seq<char>, d: int)
    requires
        -1 <= d < name.len(),
        forall|k: int| d < k < name.len() ==> #[trigger] name[k] != '.',
        d == -1 || name[d] == '.',
    ensures
        last_dot(name) == d,
    decreases name.len(),
{
    if name.len() > d + 1 {
        let t = name.drop_last();
        assert forall|k: int| d < k < t.len() implies #[trigger] t[k] != '.' by {
            assert(t[k] == name[k]);
        }
        assert(d == -1 || t[d] == '.');
        lemma_last_dot(t, d);
    }
}

/// The stem of the file name `name` (see `stem_of`).
fn stem(name: &str) -> (r: String)
    ensures
        r@ == stem_of(name@),
{
    let v = chars_of(name);
    let mut d: usize = v.len();
    while d > 0 && v[d - 1] != '.'
        invariant
            d <= v.len(),
            forall|k: int| d <= k < v.len() ==> #[trigger] v@[k] != '.',
        decreases d,
    {
        d = d - 1;
    }
    proof {
        if d > 0 {
            lemma_last_dot(v@, d - 1);
        } else if v.len() > 0 {
            lemma_last_dot(v@, -1);
        }
    }
    if d <= 1 {
        return string_of(name);
    }
    let mut r = String::new();
    let mut i: usize = 0;
    while i < d - 1
        invariant
            i <= d - 1,
            d <= v.len(),
            r@ == v@.take(i as int),
        decreases d - 1 - i,
    {
        push_char(&mut r, v[i]);
        i = i + 1;
        assert(r@ =~= v@.take(i as int));
    }
    r
}

/// The file stem of `path` (see `spec_file_stem`).
pub fn file_stem(path: &str) -> (r: Option<String>)
    ensures
        match r {
            Some(s) => spec_file_stem(path@) == Some(s@),
            None => spec_file_stem(path@) is None,
        },
{
    match file_name(path) {
        Some(name) => Some(stem(name.as_str())),
        None => None,
    }
}

/// The title of a wallpaper row: the file stem of its path, or the whole path when it
/// has none.
pub fn wallpaper_title(path: &str) -> (r: String)
    ensures
        r@ == (match spec_file_stem(path@) {
            Some(s) => s,
            None => path@,
        }),
{
    match file_stem(path) {
        Some(s) => s,
        None => string_of(path),
    }
}

/// The edge length a thumbnail is decoded to: the configured size, at least 1.
pub fn thumbnail_edge(size: i32) -> (r: u32)
    ensures
        r as int == (if size < 1 { 1 } else { size as int }),
{
    if size < 1 {
        1
    } else {
        size as u32
    }
}

/// The thumbnail that the `image` crate makes of the encoded image `bytes` read from the
/// file at `path`, for edge `size`: its width, height and tightly packed RGBA pixels;
/// `None` when the path's extension names no format it decodes or the bytes are not an
/// image of that format.
pub uninterp spec fn thumbnail_of(bytes: Seq<u8>, path: Seq<char>, size: u32) -> Option<(u32, u32, Seq<u8>)>;

/// Takes the image format from the extension of `path` with `image::ImageFormat::from_path`
/// (as `image::open` does), decodes `bytes` in that format with
/// `image::load_from_memory_with_format`, scales the image down with
/// `DynamicImage::thumbnail(size, size)` keeping its aspect ratio, and converts it with
/// `to_rgba8`. Claimed: the result is `thumbnail_of` the bytes, the path and the size,
/// which depend on nothing else. The size bound rules out the buffer-length overflow on
/// which the image crate panics.
#[verifier::external_body]
fn decode_thumbnail(bytes: &[u8], path: &str, size: u32) -> (r: Option<(u32, u32, Vec<u8>)>)
    requires
        1 <= size,
        4 * size * size <= usize::MAX,
    ensures
        r is None <==> thumbnail_of(bytes@, path@, size) is None,
        r matches Some((w, h, px)) ==> thumbnail_of(bytes@, path@, size) == Some((w, h, px@)),
{
    let format = image::ImageFormat::from_path(path).ok()?;
    let image = image::load_from_memory_with_format(bytes, format).ok()?;
    let thumbnail = image.thumbnail(size, size).to_rgba8();
    let (width, height) = thumbnail.dimensions();
    Some((width, height, thumbnail.into_raw()))
}

/// The thumbnail of the contents `bytes` of the wallpaper file at `path`, for the
/// configured thumbnail size: `thumbnail_of` the bytes and the path at edge
/// `thumbnail_edge(size)`.
pub fn load_thumbnail(bytes: &[u8], path: &str, size: i32) -> (r: Option<(u32, u32, Vec<u8>)>)
    requires
        4 * (if size < 1 { 1 } else { size as int }) * (if size < 1 { 1 } else { size as int })
            <= usize::MAX,
    ensures
        r is None <==> thumbnail_of(bytes@, path@, (if size < 1 { 1 } else { size }) as u32) is None,
        r matches Some((w, h, px)) ==> thumbnail_of(bytes@, path@, (if size < 1 { 1 } else { size }) as u32)
            == Some((w, h, px@)),
{
    let edge = thumbnail_edge(size);
    decode_thumbnail(bytes, path, edge)
}

/// Bytes per row of a tightly packed RGBA image `width` pixels wide.
pub fn rgba_stride(width: u32) -> (r: usize)
    requires
        4 * width <= usize::MAX,
    ensures
        r == 4 * width,
{
    (width as usize) * 4
}

} // verus!
