//! Style sheets of the widgets.

pub mod calendar;
pub mod launcher;
