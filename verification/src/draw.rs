//! Conversion from board coordinates to pixel coordinates.

use vstd::prelude::*;

verus! {

/// Side length, in pixels, of one board cell on the screen.
pub const BLOCK_SIZE: u32 = 25;

/// The pixel coordinate of a board coordinate: the coordinate scaled by the
/// block size, saturated to the `u32` range.
pub open spec fn pixel_coord(game_coord: int) -> int {
    let scaled = game_coord * (BLOCK_SIZE as int);
    if scaled < 0 {
        0
    } else if scaled > u32::MAX as int {
        u32::MAX as int
    } else {
        scaled
    }
}

/// Converts the coordinate of a point on the game board to an unsigned 32-bit
/// pixel coordinate, saturating below at zero and above at `u32::MAX`.
pub fn to_coord_u32(game_coord: i32) -> (r: u32)
    ensures
        r as int == pixel_coord(game_coord as int),
{
    let scaled: i64 = (game_coord as i64) * (BLOCK_SIZE as i64);
    if scaled < 0 {
        0
    } else if scaled > u32::MAX as i64 {
        u32::MAX
    } else {
        scaled as u32
    }
}

} // verus!
