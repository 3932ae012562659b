use vibepanel::text::{str_lt, trim};
use vibepanel::widgets::config::{OptionValue, WidgetEntry};
use vibepanel::path::{file_name, join_path};
use vibepanel::widgets::wallpaper_picker::{
    default_wallpaper_directory, shellexpand_home, WallpaperPickerConfig, DEFAULT_ICON,
    DEFAULT_THUMBNAIL_SIZE,
};
use vibepanel::widgets::wallpaper_picker_popover::{
    empty_state_message, file_stem, initial_monitor_index, load_thumbnail, monitor_choices, monitor_for_choice,
    rgba_stride, thumbnail_edge, wallpaper_title,
};

fn entry(options: Vec<(&str, OptionValue)>) -> WidgetEntry {
    WidgetEntry {
        name: "wallpaper_picker".to_string(),
        options: options.into_iter().map(|(k, v)| (k.to_string(), v)).collect(),
    }
}

fn text(s: &str) -> OptionValue {
    OptionValue::Str(s.to_string())
}

fn names(v: &[&str]) -> Vec<String> {
    v.iter().map(|s| s.to_string()).collect()
}

#[test]
fn paths_join_like_pathbuf() {
    assert_eq!(join_path("/home/u", "Pictures/Wallpapers"), "/home/u/Pictures/Wallpapers");
    assert_eq!(join_path("/home/u/", "Pictures"), "/home/u/Pictures");
    assert_eq!(join_path("/home/u", "/srv/walls"), "/srv/walls");
    assert_eq!(join_path("", "walls"), "walls");
}

#[test]
fn home_is_expanded_for_tilde_and_bare_home_variable() {
    assert_eq!(shellexpand_home("~/walls", Some("/home/u")), "/home/u/walls");
    assert_eq!(shellexpand_home("~", Some("/home/u")), "/home/u");
    assert_eq!(shellexpand_home("$HOME", Some("/home/u")), "/home/u");
    assert_eq!(shellexpand_home("$HOME/walls", Some("/home/u")), "$HOME/walls");
    assert_eq!(shellexpand_home("~walls", Some("/home/u")), "~walls");
    assert_eq!(shellexpand_home("$HOMEwalls", Some("/home/u")), "$HOMEwalls");
    assert_eq!(shellexpand_home("/abs/walls", Some("/home/u")), "/abs/walls");
    assert_eq!(shellexpand_home("~/walls", None), "~/walls");
    assert_eq!(shellexpand_home("~", None), "~");
    assert_eq!(default_wallpaper_directory(Some("/home/u")), "/home/u/Pictures/Wallpapers");
    assert_eq!(default_wallpaper_directory(None), ".");
}

#[test]
fn default_config_uses_wallpaper_icon_and_home_pictures() {
    let cfg = WallpaperPickerConfig::defaults(Some("/home/u"));
    assert_eq!(cfg.icon.as_deref(), Some("preferences-desktop-wallpaper-symbolic"));
    assert_eq!(cfg.icon.as_deref(), Some(DEFAULT_ICON));
    assert_eq!(cfg.directory, "/home/u/Pictures/Wallpapers");
    assert!(cfg.label.is_none() && cfg.monitor.is_none() && cfg.fill.is_none());
    assert_eq!(cfg.thumbnail_size, 96);
}

#[test]
fn config_reads_options_with_fallbacks() {
    let cfg = WallpaperPickerConfig::from_entry(
        &entry(vec![
            ("directory", text("~/bg")),
            ("monitor", text("")),
            ("fill", text("fit")),
            ("thumbnail_size", OptionValue::Integer(-5)),
            ("label", text("Walls")),
        ]),
        Some("/home/u"),
    );
    assert_eq!(cfg.icon.as_deref(), Some(DEFAULT_ICON));
    assert_eq!(cfg.label.as_deref(), Some("Walls"));
    assert_eq!(cfg.directory, "/home/u/bg");
    assert!(cfg.monitor.is_none());
    assert_eq!(cfg.fill.as_deref(), Some("fit"));
    assert_eq!(cfg.thumbnail_size, DEFAULT_THUMBNAIL_SIZE);

    let cfg = WallpaperPickerConfig::from_entry(
        &entry(vec![("icon", text("image")), ("monitor", text("eDP-1")), ("thumbnail_size", OptionValue::Integer(128))]),
        None,
    );
    assert_eq!(cfg.icon.as_deref(), Some("image"));
    assert_eq!(cfg.directory, ".");
    assert_eq!(cfg.monitor.as_deref(), Some("eDP-1"));
    assert_eq!(cfg.thumbnail_size, 128);
    let options = cfg.popover_options();
    assert_eq!(options.directory, ".");
    assert_eq!(options.monitor.as_deref(), Some("eDP-1"));
    assert_eq!(options.thumbnail_size, 128);
}

#[test]
fn monitor_selector_starts_on_configured_monitor() {
    let monitors = names(&["eDP-1", "DP-2"]);
    assert_eq!(monitor_choices(&monitors), names(&["All monitors", "eDP-1", "DP-2"]));
    assert_eq!(initial_monitor_index(&monitors, &Some("DP-2".to_string())), 2);
    assert_eq!(initial_monitor_index(&monitors, &Some("HDMI-A-1".to_string())), 0);
    assert_eq!(initial_monitor_index(&monitors, &None), 0);
    assert_eq!(monitor_for_choice(&monitors, 0), None);
    assert_eq!(monitor_for_choice(&monitors, 2).as_deref(), Some("DP-2"));
    assert_eq!(monitor_for_choice(&monitors, 3), None);
    assert_eq!(monitor_choices(&Vec::new()), names(&["All monitors"]));
}

#[test]
fn titles_are_file_stems() {
    assert_eq!(wallpaper_title("/home/u/Pictures/mountain.jpg"), "mountain");
    assert_eq!(wallpaper_title("/w/archive.tar.gz"), "archive.tar");
    assert_eq!(wallpaper_title("/w/.hidden"), ".hidden");
    assert_eq!(wallpaper_title("/w/.hidden.png"), ".hidden");
    assert_eq!(wallpaper_title("/w/plain"), "plain");
    assert_eq!(wallpaper_title("/w/dir/"), "dir");
    assert_eq!(wallpaper_title("/w/dir/."), "dir");
    assert_eq!(wallpaper_title("/"), "/");
    assert_eq!(wallpaper_title("/w/.."), "/w/..");
    assert_eq!(file_stem("."), None);
    assert_eq!(file_stem("").as_deref(), None);
    assert_eq!(file_stem("photo.").as_deref(), Some("photo"));
}

#[test]
fn file_stems_agree_with_std_paths() {
    for p in ["/a/b.c", "a//b.c/", "./x", "x/./", "..", "a.b.c", "/a/b/../c.d", ".x.y", "a/.", "/."] {
        let expected = std::path::Path::new(p).file_stem().map(|s| s.to_string_lossy().into_owned());
        assert_eq!(file_stem(p), expected, "path {p}");
    }
    for p in ["/a/b.c", "a//b/", "./x", "x/./", "..", "/", "", ".", "/a/.."] {
        let expected = std::path::Path::new(p).file_name().map(|s| s.to_string_lossy().into_owned());
        assert_eq!(file_name(p), expected, "path {p}");
    }
    for (base, rest) in [("/a", "b"), ("/a/", "b"), ("", "b"), ("a", "/b"), ("a", "")] {
        let expected = std::path::Path::new(base).join(rest).to_string_lossy().into_owned();
        assert_eq!(join_path(base, rest), expected);
    }
}

#[test]
fn empty_state_names_the_directory() {
    assert_eq!(empty_state_message("/home/u/Pictures"), "No wallpapers found in /home/u/Pictures");
}

#[test]
fn thumbnails_are_at_least_one_pixel() {
    assert_eq!(thumbnail_edge(96), 96);
    assert_eq!(thumbnail_edge(0), 1);
    assert_eq!(thumbnail_edge(-3), 1);
    assert_eq!(rgba_stride(10), 40);
}

#[test]
fn trimming_and_string_order() {
    assert_eq!(trim("\u{a0} a b \u{3000}"), "a b");
    assert_eq!(trim("   "), "");
    assert!(str_lt("abc", "abd"));
    assert!(str_lt("ab", "abc"));
    assert!(!str_lt("abc", "abc"));
    assert!(str_lt("Z", "a"));
    assert!(!str_lt("é", "z"));
}

#[test]
fn thumbnails_keep_aspect_ratio_and_reject_non_images() {
    let img = image::RgbaImage::from_pixel(4, 2, image::Rgba([10, 20, 30, 255]));
    let mut bytes = std::io::Cursor::new(Vec::new());
    img.write_to(&mut bytes, image::ImageFormat::Png).expect("encode PNG");
    let (w, h, px) = load_thumbnail(bytes.get_ref(), "/w/tiny.png", 2).expect("PNG decodes");
    assert_eq!((w, h), (2, 1));
    assert_eq!(px, vec![10, 20, 30, 255, 10, 20, 30, 255]);
    let (w, h, px) = load_thumbnail(bytes.get_ref(), "/w/TINY.PNG", 0).expect("edge of at least one pixel");
    assert_eq!((w, h), (1, 1));
    assert_eq!(px.len(), 4);
    assert!(load_thumbnail(bytes.get_ref(), "/w/tiny.jpg", 2).is_none());
    assert!(load_thumbnail(bytes.get_ref(), "/w/tiny", 2).is_none());
    assert!(load_thumbnail(b"not an image", "/w/x.png", 2).is_none());
}
