//! Services that keep state for the widgets.

pub mod calendar;
