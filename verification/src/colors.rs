//! Pixel colours of the simulator's frame buffer (`0xRRGGBB`).

use vstd::prelude::*;

verus! {

/// Unexplored space.
pub const BLACK: u32 = 0x000000;
/// The robot's trail.
pub const RED: u32 = 0xFF0000;
/// Markers.
pub const GREEN: u32 = 0x00FF00;
/// Overlays.
pub const BLUE: u32 = 0x0000FF;
/// Space in the robot's current field of view.
pub const YELLOW: u32 = 0xFFFF00;
/// Space that has been seen before.
pub const LYELLOW: u32 = 0xFFFF99;
/// Obstacles.
pub const DPURPLE: u32 = 0x301934;
/// Secondary overlays.
pub const CYAN: u32 = 0x00FFFF;
/// Tree edges in exported images.
pub const EDGE: u32 = 0xDDDDDD;
/// Tree nodes in exported images.
pub const NODE: u32 = 0xEEEEEE;

} // verus!
