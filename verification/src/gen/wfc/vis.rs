//! Checks of the pixel sizes of images read as tiles or as grid maps of tiles `WIDTH` × `HEIGHT` pixels large.
use vstd::prelude::*;

use crate::map::GridSize;

verus! {

/// What was wrong with the size of an image.
#[derive(Debug, Clone, Copy, PartialEq, Eq, Structural)]
pub enum VisAnalyzeErrorKind {
    /// An image of a single tile is not `WIDTH` × `HEIGHT` pixels large; it is `x` × `y`.
    WrongSizeTile { x: u32, y: u32 },
    /// An image of a grid map is not made of whole tiles; it is `x` × `y` pixels large.
    WrongSizeGrid { x: u32, y: u32 },
}

/// Error of reading an image whose size does not fit tiles `WIDTH` × `HEIGHT` pixels large.
#[derive(Debug, Clone, Copy)]
pub struct VisAnalyzeError<const WIDTH: usize, const HEIGHT: usize> {
    kind: VisAnalyzeErrorKind,
}

impl<const WIDTH: usize, const HEIGHT: usize> VisAnalyzeError<WIDTH, HEIGHT> {
    /// What was wrong.
    pub closed spec fn spec_kind(&self) -> VisAnalyzeErrorKind {
        self.kind
    }

    /// What was wrong.
    pub fn kind(&self) -> (k: VisAnalyzeErrorKind)
        ensures
            k == self.spec_kind(),
    {
        self.kind
    }

    fn new_tile(x: u32, y: u32) -> (e: Self)
        ensures
            e.spec_kind() == (VisAnalyzeErrorKind::WrongSizeTile { x, y }),
    {
        Self { kind: VisAnalyzeErrorKind::WrongSizeTile { x, y } }
    }

    fn new_grid(x: u32, y: u32) -> (e: Self)
        ensures
            e.spec_kind() == (VisAnalyzeErrorKind::WrongSizeGrid { x, y }),
    {
        Self { kind: VisAnalyzeErrorKind::WrongSizeGrid { x, y } }
    }
}

/// Checks that an image of `width` × `height` pixels holds exactly one tile.
pub fn check_tile_vis_size<const WIDTH: usize, const HEIGHT: usize>(width: u32, height: u32) -> (r: Result<
    (),
    VisAnalyzeError<WIDTH, HEIGHT>,
>)
    ensures
        r is Ok <==> width == WIDTH && height == HEIGHT,
        r matches Err(e) ==> e.spec_kind() == (VisAnalyzeErrorKind::WrongSizeTile { x: width, y: height }),
{
    if height as usize != HEIGHT || width as usize != WIDTH {
        Err(VisAnalyzeError::new_tile(width, height))
    } else {
        Ok(())
    }
}

/// Size of the grid map held by an image of `width` × `height` pixels: how many tiles fit across and down. The
/// image must be made of whole tiles.
pub fn check_grid_vis_size<const WIDTH: usize, const HEIGHT: usize>(width: u32, height: u32) -> (r: Result<
    GridSize,
    VisAnalyzeError<WIDTH, HEIGHT>,
>)
    requires
        0 < WIDTH <= u32::MAX,
        0 < HEIGHT <= u32::MAX,
    ensures
        r is Ok <==> (width as int) % (WIDTH as int) == 0 && (height as int) % (HEIGHT as int) == 0,
        r matches Err(e) ==> e.spec_kind() == (VisAnalyzeErrorKind::WrongSizeGrid { x: width, y: height }),
        r matches Ok(s) ==> s.x == (width as int) / (WIDTH as int) && s.y == (height as int) / (HEIGHT as int) && s.z is None,
{
    if height as usize % HEIGHT != 0 || width as usize % WIDTH != 0 {
        Err(VisAnalyzeError::new_grid(width, height))
    } else {
        Ok(GridSize::new_xy(width / WIDTH as u32, height / HEIGHT as u32))
    }
}

} // verus!
