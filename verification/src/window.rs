//! Window placement arithmetic.
//!
//! New windows cascade diagonally from a fixed origin; popup windows stack
//! down the upper right edge. The host maps the computed coordinates onto
//! real windows.

use vstd::prelude::*;

verus! {

/// Default window width.
pub const DEFAULT_WIDTH: u32 = 1280;

/// Default window height.
pub const DEFAULT_HEIGHT: u32 = 960;

/// Popup window width.
pub const POPUP_WIDTH: u32 = 600;

/// Popup window height.
pub const POPUP_HEIGHT: u32 = 400;

/// How far each successive window is shifted, in physical pixels.
pub const CASCADE_STEP: i32 = 40;

/// The (x, y) position of the next regular window: each open window shifts
/// the next one down and to the right by one cascade step.
pub fn get_position_for_regular_window(window_count: usize) -> (p: (i32, i32))
    requires
        100 + (window_count as int) * (CASCADE_STEP as int) <= i32::MAX as int,
    ensures
        p.0 as int == 100 + (window_count as int) * (CASCADE_STEP as int),
        p.1 as int == 100 + (window_count as int) * (CASCADE_STEP as int),
{
    let delta: i32 = (window_count as i32) * CASCADE_STEP;
    (100 + delta, 100 + delta)
}

/// The (x, y) position of the next popup window, stacked in the upper
/// right; the first popup counts as window one.
pub fn get_position_for_popup(window_count: usize) -> (p: (i32, i32))
    requires
        window_count >= 1,
        100 + (window_count as int - 1) * (CASCADE_STEP as int) <= i32::MAX as int,
    ensures
        p.0 == 800,
        p.1 as int == 100 + (window_count as int - 1) * (CASCADE_STEP as int),
{
    let delta: i32 = ((window_count - 1) as i32) * CASCADE_STEP;
    (800, 100 + delta)
}

/// Prepare the window subsystem; it keeps no state, so there is nothing to
/// set up.
pub fn init() {
}

} // verus!
