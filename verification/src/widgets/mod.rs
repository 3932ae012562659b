//! Widget logic: what the calendar, launcher and wallpaper picker show and decide.

pub mod calendar_popover;
pub mod config;
pub mod css;
pub mod launcher;
pub mod launcher_popover;
pub mod wallpaper_picker;
pub mod wallpaper_picker_popover;
