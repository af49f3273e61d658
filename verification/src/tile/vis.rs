//! Placement of the pixels of tiles within the image of a whole grid map.
use vstd::prelude::*;

use crate::tile::GridPosition;

verus! {

/// Position, within the image of a grid map drawn with tiles `width` × `height` pixels large, of pixel `(x, y)`
/// of the tile at `position`.
pub fn pixel_position(position: GridPosition, width: u32, height: u32, x: u32, y: u32) -> (r: (u32, u32))
    requires
        position.x * width + x <= u32::MAX,
        position.y * height + y <= u32::MAX,
    ensures
        r == ((position.x * width + x) as u32, (position.y * height + y) as u32),
{
    let x_pos = position.x * width;
    let y_pos = position.y * height;
    (x_pos + x, y_pos + y)
}

} // verus!
