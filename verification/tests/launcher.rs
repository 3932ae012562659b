use vibepanel::widgets::config::{OptionValue, WidgetEntry};
use vibepanel::widgets::launcher::{
    launcher_icon, launcher_layout, LauncherAction, LauncherConfig, LauncherIcon,
    DEFAULT_MAX_RESULTS, DEFAULT_PLACEHOLDER,
};
use vibepanel::widgets::launcher_popover::{
    listed_texts, rank_matches, score, search, sort_apps, top_match, LauncherApp,
};

fn entry(options: Vec<(&str, OptionValue)>) -> WidgetEntry {
    WidgetEntry {
        name: "launcher".to_string(),
        options: options.into_iter().map(|(k, v)| (k.to_string(), v)).collect(),
    }
}

fn text(s: &str) -> OptionValue {
    OptionValue::Str(s.to_string())
}

fn app(id: usize, name: &str, subtitle: Option<&str>) -> LauncherApp {
    LauncherApp::new(id, name, "", subtitle, None)
}

#[test]
fn default_config_opens_popover_with_default_placeholder() {
    let cfg = LauncherConfig::default();
    assert_eq!(cfg.placeholder, "Search apps…");
    assert_eq!(cfg.placeholder, DEFAULT_PLACEHOLDER);
    assert_eq!(cfg.max_results, 50);
    assert!(cfg.icon.is_none() && cfg.label.is_none() && cfg.launch_cmd.is_none());
}

#[test]
fn config_reads_known_options() {
    let cfg = LauncherConfig::from_entry(&entry(vec![
        ("icon", text("glyph:★")),
        ("label", text("Apps")),
        ("placeholder", text("Find…")),
        ("max_results", OptionValue::Integer(12)),
        ("launch_cmd", text("rofi -show drun")),
    ]));
    assert_eq!(cfg.icon.as_deref(), Some("glyph:★"));
    assert_eq!(cfg.label.as_deref(), Some("Apps"));
    assert_eq!(cfg.placeholder, "Find…");
    assert_eq!(cfg.max_results, 12);
    assert_eq!(cfg.launch_cmd.as_deref(), Some("rofi -show drun"));
}

#[test]
fn config_ignores_invalid_values() {
    let cfg = LauncherConfig::from_entry(&entry(vec![
        ("icon", OptionValue::Integer(3)),
        ("max_results", OptionValue::Integer(0)),
        ("launch_cmd", text("")),
        ("placeholder", OptionValue::Other),
    ]));
    assert!(cfg.icon.is_none());
    assert_eq!(cfg.max_results, DEFAULT_MAX_RESULTS);
    assert!(cfg.launch_cmd.is_none());
    assert_eq!(cfg.placeholder, DEFAULT_PLACEHOLDER);
    let negative = LauncherConfig::from_entry(&entry(vec![("max_results", OptionValue::Integer(-4))]));
    assert_eq!(negative.max_results, 50);
    let text_max = LauncherConfig::from_entry(&entry(vec![("max_results", text("7"))]));
    assert_eq!(text_max.max_results, 50);
    let first_wins = LauncherConfig::from_entry(&entry(vec![("label", text("a")), ("label", text("b"))]));
    assert_eq!(first_wins.label.as_deref(), Some("a"));
}

#[test]
fn glyph_icons_are_text_and_others_are_themed() {
    match launcher_icon("glyph:🚀") {
        LauncherIcon::Glyph(g) => assert_eq!(g, "🚀"),
        _ => panic!("glyph expected"),
    }
    match launcher_icon("glyph:") {
        LauncherIcon::Glyph(g) => assert_eq!(g, ""),
        _ => panic!("glyph expected"),
    }
    match launcher_icon("view-app-grid-symbolic") {
        LauncherIcon::Named(n) => assert_eq!(n, "view-app-grid-symbolic"),
        _ => panic!("themed icon expected"),
    }
}

#[test]
fn launch_command_replaces_popover() {
    let mut cfg = LauncherConfig::default();
    cfg.launch_cmd = Some("fuzzel".to_string());
    cfg.label = Some("Run".to_string());
    let layout = launcher_layout(cfg);
    assert!(matches!(layout.action, LauncherAction::RunCommand(ref c) if c == "fuzzel"));
    assert_eq!(layout.label.as_deref(), Some("Run"));
    assert!(layout.icon.is_none());

    let mut cfg = LauncherConfig::default();
    cfg.icon = Some("glyph:x".to_string());
    cfg.max_results = 9;
    let layout = launcher_layout(cfg);
    match layout.action {
        LauncherAction::OpenPopover(o) => {
            assert_eq!(o.placeholder, "Search apps…");
            assert_eq!(o.max_results, 9);
        },
        _ => panic!("popover expected"),
    }
    assert!(matches!(layout.icon, Some(LauncherIcon::Glyph(ref g)) if g == "x"));
}

#[test]
fn app_entries_trim_and_fall_back() {
    let a = LauncherApp::new(4, "  Web Browser ", "firefox", Some("  "), Some(" Browse the Web "));
    assert_eq!(a.id, 4);
    assert_eq!(a.name, "Web Browser");
    assert_eq!(a.name_lower, "web browser");
    assert_eq!(a.subtitle.as_deref(), Some("Browse the Web"));
    assert_eq!(a.subtitle_lower, "browse the web");

    let b = LauncherApp::new(5, " \t", " Files\n", None, None);
    assert_eq!(b.name, "Files");
    assert_eq!(b.name_lower, "files");
    assert!(b.subtitle.is_none());
    assert_eq!(b.subtitle_lower, "");

    let c = LauncherApp::new(6, "Éditeur", "", Some("Text Editor"), Some("ignored"));
    assert_eq!(c.name_lower, "éditeur");
    assert_eq!(c.subtitle.as_deref(), Some("Text Editor"));
}

#[test]
fn apps_sort_by_lowercase_name_keeping_ties_in_order() {
    let apps = vec![app(0, "zed", None), app(1, "Alpha", None), app(2, "beta", None), app(3, "alpha", None)];
    let sorted = sort_apps(apps);
    let ids: Vec<usize> = sorted.iter().map(|a| a.id).collect();
    assert_eq!(ids, vec![1, 3, 2, 0]);
}

#[test]
fn scores_rank_prefix_word_substring_subtitle() {
    let a = app(0, "Visual Studio Code", Some("Code Editor"));
    assert_eq!(score(&a, ""), Some(0));
    assert_eq!(score(&a, "vis"), Some(0));
    assert_eq!(score(&a, "stu"), Some(1));
    assert_eq!(score(&a, "dio"), Some(2));
    assert_eq!(score(&a, "editor"), Some(3));
    assert_eq!(score(&a, "gimp"), None);
    assert_eq!(score(&a, "studio code"), Some(2));
    assert_eq!(score(&a, "Vis"), None);
}

#[test]
fn results_rank_by_score_then_name_and_truncate() {
    let apps = vec![
        app(0, "Terminal", None),
        app(1, "GNOME Terminal", None),
        app(2, "Utterm", None),
        app(3, "Settings", Some("terminal settings")),
        app(4, "Files", None),
    ];
    let results = rank_matches(&apps, "term", 10);
    assert_eq!(results, vec![(0, 0), (1, 1), (2, 2), (3, 3)]);
    assert_eq!(top_match(&results), Some(0));
    let results = rank_matches(&apps, "term", 2);
    assert_eq!(results, vec![(0, 0), (1, 1)]);
    assert!(rank_matches(&apps, "zzz", 10).is_empty());
    assert_eq!(top_match(&rank_matches(&apps, "zzz", 10)), None);
}

#[test]
fn empty_query_lists_all_apps_alphabetically() {
    let apps = sort_apps(vec![app(7, "b", None), app(8, "a", None), app(9, "c", None)]);
    let results = rank_matches(&apps, "", 50);
    assert_eq!(results, vec![(0, 0), (0, 1), (0, 2)]);
    let ids: Vec<usize> = results.iter().map(|m| apps[m.1].id).collect();
    assert_eq!(ids, vec![8, 7, 9]);
}

#[test]
fn typed_text_is_lowercased_before_ranking() {
    let apps = vec![app(0, "Firefox", None), app(1, "Thunderbird", None)];
    assert_eq!(search(&apps, "FIRE", 50), vec![(0, 0)]);
    assert_eq!(search(&apps, "Bird", 50), vec![(2, 1)]);
}

#[test]
fn listed_texts_prefer_display_name_and_generic_name() {
    let (name, subtitle) = listed_texts(" Files ", "nautilus", Some(" File Manager "), Some("Browse"));
    assert_eq!(name, "Files");
    assert_eq!(subtitle.as_deref(), Some("File Manager"));
    let (name, subtitle) = listed_texts("", " nautilus ", None, Some(""));
    assert_eq!(name, "nautilus");
    assert!(subtitle.is_none());
}
