//! Calendar, launcher and wallpaper-picker logic of the panel, verified with Verus.

use vstd::prelude::*;

pub mod date;
pub mod path;
pub mod time;
pub mod text;
pub mod services;
pub mod widgets;

verus! {

} // verus!
