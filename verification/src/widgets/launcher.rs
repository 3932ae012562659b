//! The app launcher widget: its configuration, and what the widget shows and does when
//! clicked (open the app-search popover, or run a configured command).

use vstd::prelude::*;

use crate::text::{chars_of, push_char, seq_starts_with, starts_with, string_of};
use crate::widgets::config::{opt_view, option_integer, option_str, WidgetEntry};
use crate::widgets::launcher_popover::LauncherPopoverOptions;

verus! {

/// Placeholder of the search entry when none is configured.
pub const DEFAULT_PLACEHOLDER: &'static str = "Search apps…";

/// Most results listed when no valid maximum is configured.
pub const DEFAULT_MAX_RESULTS: usize = 50;

/// The launcher widget's configuration.
#[derive(Debug)]
pub struct LauncherConfig {
    pub icon: Option<String>,
    pub label: Option<String>,
    /// Placeholder text of the popover's search entry.
    pub placeholder: String,
    /// Most results listed in the popover.
    pub max_results: usize,
    /// When set, clicking the widget runs this shell command instead of opening the
    /// popover.
    pub launch_cmd: Option<String>,
}

impl Default for LauncherConfig {
    fn default() -> (r: Self)
        ensures
            r.icon is None,
            r.label is None,
            r.placeholder@ == DEFAULT_PLACEHOLDER@,
            r.max_results == DEFAULT_MAX_RESULTS,
            r.launch_cmd is None,
    {
        LauncherConfig {
            icon: None,
            label: None,
            placeholder: string_of(DEFAULT_PLACEHOLDER),
            max_results: DEFAULT_MAX_RESULTS,
            launch_cmd: None,
        }
    }
}

/// The configured maximum when it is a positive integer, else the default.
pub open spec fn max_results_from(v: Option<i64>) -> usize {
    match v {
        Some(n) => if n > 0 { n as usize } else { DEFAULT_MAX_RESULTS },
        None => DEFAULT_MAX_RESULTS,
    }
}

/// The configured command, when it is a non-empty string: an empty one counts as not
/// set, so that `launch_cmd = ""` keeps the popover.
pub open spec fn launch_cmd_from(v: Option<Seq<char>>) -> Option<Seq<char>> {
    match v {
        Some(c) => if c.len() > 0 { Some(c) } else { None },
        None => None,
    }
}

/// A positive maximum is taken as given; zero, a negative value or none gives the
/// default of 50. A non-empty command is taken as given; an empty one or none leaves
/// the command unset.
pub proof fn lemma_launcher_options(v: Option<i64>, c: Option<Seq<char>>)
    ensures
        v matches Some(n) ==> (0 < n && n <= usize::MAX ==> max_results_from(v) as int == n),
        v matches Some(n) ==> (n <= 0 ==> max_results_from(v) == 50),
        v is None ==> max_results_from(v) == 50,
        c matches Some(t) ==> (t.len() > 0 ==> launch_cmd_from(c) == Some(t)),
        c matches Some(t) ==> (t.len() == 0 ==> launch_cmd_from(c) is None),
        c is None ==> launch_cmd_from(c) is None,
{
}

impl LauncherConfig {
    /// The configuration from the widget's entry: string options `icon`, `label`,
    /// `placeholder` and `launch_cmd`, integer option `max_results`; other values are
    /// ignored and the defaults taken.
    pub fn from_entry(entry: &WidgetEntry) -> (r: Self)
        ensures
            opt_view(r.icon) == option_str(entry.options@, "icon"@),
            opt_view(r.label) == option_str(entry.options@, "label"@),
            r.placeholder@ == (match option_str(entry.options@, "placeholder"@) {
                Some(p) => p,
                None => DEFAULT_PLACEHOLDER@,
            }),
            r.max_results == max_results_from(option_integer(entry.options@, "max_results"@)),
            opt_view(r.launch_cmd) == launch_cmd_from(option_str(entry.options@, "launch_cmd"@)),
            match option_integer(entry.options@, "max_results"@) {
                Some(n) => (0 < n && n <= usize::MAX ==> r.max_results as int == n) && (n <= 0
                    ==> r.max_results == DEFAULT_MAX_RESULTS),
                None => r.max_results == DEFAULT_MAX_RESULTS,
            },
    {
        let icon = entry.get_str("icon");
        let label = entry.get_str("label");
        let placeholder = match entry.get_str("placeholder") {
            Some(p) => p,
            None => string_of(DEFAULT_PLACEHOLDER),
        };
        let max_results = match entry.get_integer("max_results") {
            Some(n) => if n > 0 { n as usize } else { DEFAULT_MAX_RESULTS },
            None => DEFAULT_MAX_RESULTS,
        };
        let launch_cmd = match entry.get_str("launch_cmd") {
            Some(c) => if c.as_str().is_empty() { None } else { Some(c) },
            None => None,
        };
        LauncherConfig { icon, label, placeholder, max_results, launch_cmd }
    }
}

/// The icon of the launcher widget.
#[derive(Debug)]
pub enum LauncherIcon {
    /// A literal glyph or emoji, shown as text (`glyph:` followed by the text).
    Glyph(String),
    /// A themed icon by name.
    Named(String),
}

/// The icon configured as `icon`: `glyph:<text>` shows the text, any other value names
/// a themed icon.
pub fn launcher_icon(icon: &str) -> (r: LauncherIcon)
    ensures
        match r {
            LauncherIcon::Glyph(g) => seq_starts_with(icon@, "glyph:"@) && g@ == icon@.skip(6),
            LauncherIcon::Named(n) => !seq_starts_with(icon@, "glyph:"@) && n@ == icon@,
        },
{
    proof { reveal_strlit("glyph:"); }
    let chars = chars_of(icon);
    let prefix = chars_of("glyph:");
    if !starts_with(&chars, &prefix) {
        return LauncherIcon::Named(string_of(icon));
    }
    let mut glyph = String::new();
    let mut i: usize = 6;
    while i < chars.len()
        invariant
            6 <= i <= chars.len(),
            glyph@ == chars@.subrange(6, i as int),
        decreases chars.len() - i,
    {
        push_char(&mut glyph, chars[i]);
        i = i + 1;
        assert(glyph@ =~= chars@.subrange(6, i as int));
    }
    assert(chars@.subrange(6, chars.len() as int) =~= icon@.skip(6));
    LauncherIcon::Glyph(glyph)
}

/// What clicking the launcher widget does.
#[derive(Debug)]
pub enum LauncherAction {
    /// Runs the configured shell command.
    RunCommand(String),
    /// Opens the app-search popover with these options.
    OpenPopover(LauncherPopoverOptions),
}

/// What the launcher widget shows and does.
#[derive(Debug)]
pub struct LauncherLayout {
    pub icon: Option<LauncherIcon>,
    pub label: Option<String>,
    pub action: LauncherAction,
}

/// The icon of the layout matches the configured one (see `launcher_icon`).
pub open spec fn icon_from(icon: Option<String>, r: Option<LauncherIcon>) -> bool {
    match (icon, r) {
        (None, None) => true,
        (Some(i), Some(LauncherIcon::Glyph(g))) => seq_starts_with(i@, "glyph:"@) && g@ == i@.skip(6),
        (Some(i), Some(LauncherIcon::Named(n))) => !seq_starts_with(i@, "glyph:"@) && n@ == i@,
        _ => false,
    }
}

/// The launcher widget for `cfg`: its icon and label as configured; a click runs
/// `launch_cmd` when one is set, and otherwise opens the popover with the configured
/// placeholder and maximum number of results.
pub fn launcher_layout(cfg: LauncherConfig) -> (r: LauncherLayout)
    ensures
        icon_from(cfg.icon, r.icon),
        opt_view(r.label) == opt_view(cfg.label),
        match cfg.launch_cmd {
            Some(c) => r.action matches LauncherAction::RunCommand(x) && x@ == c@,
            None => r.action matches LauncherAction::OpenPopover(o) && o.placeholder@
                == cfg.placeholder@ && o.max_results == cfg.max_results,
        },
{
    let icon = match &cfg.icon {
        Some(i) => Some(launcher_icon(i.as_str())),
        None => None,
    };
    let action = match cfg.launch_cmd {
        Some(c) => LauncherAction::RunCommand(c),
        None => LauncherAction::OpenPopover(
            LauncherPopoverOptions { placeholder: cfg.placeholder, max_results: cfg.max_results },
        ),
    };
    LauncherLayout { icon, label: cfg.label, action }
}

} // verus!
