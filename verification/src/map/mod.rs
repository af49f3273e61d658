//! Directions, sizes and the two-dimensional grid map holding tile data.
use vstd::prelude::*;

use crate::tile::GridPosition;

mod grid_map;

pub use grid_map::{GridMap2D, lemma_tile_at_valid, lemma_sorted_listing_unique, lemma_empty_and_occupied_partition, lemma_same_occupied_same_listing, lemma_drain_agrees_with_get_remapped, neighbour_position, neighbours_upto, is_border_in, last_write, cell_index, lemma_cell_index, lemma_cell_index_injective, xy_lt, sorted_xy, tile_at, occupied, listing_of, remap_add};

verus! {

/// Direction of a step from tile to tile within a [`GridMap2D`].
#[derive(PartialEq, Eq, Debug, Clone, Copy, Hash, Structural)]
pub enum GridDir {
    UP,
    DOWN,
    LEFT,
    RIGHT,
}

/// Opposite direction, as a spec function.
pub open spec fn spec_opposite(d: GridDir) -> GridDir {
    match d {
        GridDir::UP => GridDir::DOWN,
        GridDir::DOWN => GridDir::UP,
        GridDir::LEFT => GridDir::RIGHT,
        GridDir::RIGHT => GridDir::LEFT,
    }
}

/// Index of a direction within [`GridDir::ALL_2D`].
pub open spec fn dir_index(d: GridDir) -> int {
    match d {
        GridDir::UP => 0,
        GridDir::DOWN => 1,
        GridDir::LEFT => 2,
        GridDir::RIGHT => 3,
    }
}

/// Direction at given index of [`GridDir::ALL_2D`].
pub open spec fn dir_at(i: int) -> GridDir {
    if i == 0 {
        GridDir::UP
    } else if i == 1 {
        GridDir::DOWN
    } else if i == 2 {
        GridDir::LEFT
    } else {
        GridDir::RIGHT
    }
}

/// Result of taking one step in direction `d` from `from` within the bounds of `size`.
///
/// Stepping up or left from the first row or column, and stepping down or right onto the row or column
/// equal to the size, gives no position. The layer is kept.
pub open spec fn spec_march(d: GridDir, from: GridPosition, size: GridSize) -> Option<GridPosition> {
    match d {
        GridDir::UP => if from.y == 0 {
            None
        } else {
            Some(GridPosition { y: (from.y - 1) as u32, ..from })
        },
        GridDir::DOWN => if from.y + 1 == size.y {
            None
        } else {
            Some(GridPosition { y: (from.y + 1) as u32, ..from })
        },
        GridDir::LEFT => if from.x == 0 {
            None
        } else {
            Some(GridPosition { x: (from.x - 1) as u32, ..from })
        },
        GridDir::RIGHT => if from.x + 1 == size.x {
            None
        } else {
            Some(GridPosition { x: (from.x + 1) as u32, ..from })
        },
    }
}

/// A step in direction `d` from `from` does not overflow the coordinates.
pub open spec fn march_in_bounds(d: GridDir, from: GridPosition) -> bool {
    &&& d == GridDir::DOWN ==> from.y < u32::MAX
    &&& d == GridDir::RIGHT ==> from.x < u32::MAX
}

impl GridDir {
    /// All possible directions from tile to tile within a [`GridMap2D`].
    pub const ALL_2D: [GridDir; 4] = [GridDir::UP, GridDir::DOWN, GridDir::LEFT, GridDir::RIGHT];

    /// All possible directions from tile to tile within a [`GridMap2D`], as named by the tile-carrying analyzers.
    pub const ALL: [GridDir; 4] = [GridDir::UP, GridDir::DOWN, GridDir::LEFT, GridDir::RIGHT];

    /// Index of this direction within [`GridDir::ALL_2D`].
    pub fn index(&self) -> (i: usize)
        ensures
            i == dir_index(*self),
    {
        match self {
            GridDir::UP => 0,
            GridDir::DOWN => 1,
            GridDir::LEFT => 2,
            GridDir::RIGHT => 3,
        }
    }

    /// Direction at index `i` of [`GridDir::ALL_2D`].
    pub fn from_index(i: usize) -> (d: GridDir)
        requires
            i < 4,
        ensures
            d == dir_at(i as int),
            dir_index(d) == i,
    {
        if i == 0 {
            GridDir::UP
        } else if i == 1 {
            GridDir::DOWN
        } else if i == 2 {
            GridDir::LEFT
        } else {
            GridDir::RIGHT
        }
    }

    /// Take a step in specified direction from position within the bounds of specified [`GridSize`].
    ///
    /// Returns the resulting position, or `None` if the step would leave the grid.
    pub fn march_step(&self, from: &GridPosition, size: &GridSize) -> (r: Option<GridPosition>)
        requires
            march_in_bounds(*self, *from),
        ensures
            r == spec_march(*self, *from, *size),
    {
        match self {
            GridDir::UP => {
                if from.y == 0 {
                    return None;
                }
                Some(GridPosition { x: from.x, y: from.y - 1, z: from.z })
            },
            GridDir::DOWN => {
                if from.y + 1 == size.y {
                    return None;
                }
                Some(GridPosition { x: from.x, y: from.y + 1, z: from.z })
            },
            GridDir::LEFT => {
                if from.x == 0 {
                    return None;
                }
                Some(GridPosition { x: from.x - 1, y: from.y, z: from.z })
            },
            GridDir::RIGHT => {
                if from.x + 1 == size.x {
                    return None;
                }
                Some(GridPosition { x: from.x + 1, y: from.y, z: from.z })
            },
        }
    }

    /// Get opposite direction.
    #[inline]
    pub fn opposite(&self) -> (d: Self)
        ensures
            d == spec_opposite(*self),
    {
        match self {
            GridDir::UP => GridDir::DOWN,
            GridDir::DOWN => GridDir::UP,
            GridDir::LEFT => GridDir::RIGHT,
            GridDir::RIGHT => GridDir::LEFT,
        }
    }
}

/// Taking the opposite direction twice gives the same direction back.
pub proof fn lemma_opposite_involutive(d: GridDir)
    ensures
        spec_opposite(spec_opposite(d)) == d,
        spec_opposite(d) != d,
{
}

/// A step from a valid position followed by a step back in the opposite direction returns to the starting
/// position.
pub proof fn lemma_march_round_trip(d: GridDir, from: GridPosition, size: GridSize)
    requires
        spec_position_valid(size, from),
        spec_march(d, from, size) is Some,
    ensures
        march_in_bounds(spec_opposite(d), spec_march(d, from, size)->0),
        spec_march(spec_opposite(d), spec_march(d, from, size)->0, size) == Some(from),
{
}

/// A step from a valid position lands on a valid position.
pub proof fn lemma_march_stays_valid(d: GridDir, from: GridPosition, size: GridSize)
    requires
        spec_position_valid(size, from),
        spec_march(d, from, size) is Some,
    ensures
        spec_position_valid(size, spec_march(d, from, size)->0),
{
}

/// Size of a grid: its extent along `x` and `y`, an optional number of layers, and the approximate center.
#[derive(Debug, Clone, Copy)]
pub struct GridSize {
    pub x: u32,
    pub y: u32,
    pub z: Option<u32>,
    pub center: (u32, u32),
}

/// Position lies within the `x` and `y` extent of the size.
pub open spec fn spec_position_valid(size: GridSize, p: GridPosition) -> bool {
    p.x < size.x && p.y < size.y
}

/// Position is one of those that a grid of given size can hold (its layer agrees with the size's layers).
pub open spec fn spec_possible_position(size: GridSize, p: GridPosition) -> bool {
    &&& p.x < size.x
    &&& p.y < size.y
    &&& match size.z {
        Some(zs) => p.z is Some && p.z->0 < zs,
        None => p.z is None,
    }
}

/// Strict order of positions by `x`, then `y`, then layer.
pub open spec fn xyz_lt(a: GridPosition, b: GridPosition) -> bool {
    ||| a.x < b.x
    ||| a.x == b.x && a.y < b.y
    ||| a.x == b.x && a.y == b.y && crate::tile::z_key(a) < crate::tile::z_key(b)
}

/// The sequence is strictly increasing in the `xyz_lt` order.
pub open spec fn sorted_xyz(s: Seq<GridPosition>) -> bool {
    forall|i: int, j: int| 0 <= i < j < s.len() ==> xyz_lt(#[trigger] s[i], #[trigger] s[j])
}

/// Distance between two coordinates.
pub open spec fn coord_distance(a: u32, b: u32) -> int {
    if a < b {
        b - a
    } else {
        a - b
    }
}

pub open spec fn min2(a: int, b: int) -> int {
    if a <= b {
        a
    } else {
        b
    }
}

impl GridSize {
    pub fn new_xy(x: u32, y: u32) -> (s: Self)
        ensures
            s == (GridSize { x, y, z: None, center: ((x / 2) as u32, (y / 2) as u32) }),
    {
        let center = Self::calc_center_approx(x, y);
        Self { x, y, z: None, center }
    }

    pub fn new_xyz(x: u32, y: u32, z: u32) -> (s: Self)
        ensures
            s == (GridSize { x, y, z: Some(z), center: ((x / 2) as u32, (y / 2) as u32) }),
    {
        let center = Self::calc_center_approx(x, y);
        Self { x, y, z: Some(z), center }
    }

    pub fn x(&self) -> (r: u32)
        ensures
            r == self.x,
    {
        self.x
    }

    pub fn y(&self) -> (r: u32)
        ensures
            r == self.y,
    {
        self.y
    }

    pub fn center(&self) -> (r: (u32, u32))
        ensures
            r == self.center,
    {
        self.center
    }

    pub fn is_position_valid(&self, position: &GridPosition) -> (r: bool)
        ensures
            r == spec_position_valid(*self, *position),
    {
        position.x < self.x && position.y < self.y
    }

    /// A grid of this size fits within one of size `other`: neither dimension is greater.
    pub open spec fn spec_is_contained_within(&self, other: GridSize) -> bool {
        self.x <= other.x && self.y <= other.y
    }

    /// A grid of this size fits within one of size `other`: neither dimension is greater.
    pub fn is_contained_within(&self, other: &GridSize) -> (r: bool)
        ensures
            r == self.spec_is_contained_within(*other),
    {
        self.x <= other.x && self.y <= other.y
    }

    /// All positions that a grid of this size can hold, ordered by `x`, then `y`, then layer.
    pub fn get_all_possible_positions(&self) -> (out: Vec<GridPosition>)
        ensures
            sorted_xyz(out@),
            forall|p: GridPosition| out@.contains(p) <==> spec_possible_position(*self, p),
    {
        let mut out: Vec<GridPosition> = Vec::new();
        let mut x: u32 = 0;
        while x < self.x
            invariant
                x <= self.x,
                sorted_xyz(out@),
                forall|p: GridPosition| #[trigger]
                    out@.contains(p) ==> spec_possible_position(*self, p) && p.x < x,
                forall|p: GridPosition|
                    spec_possible_position(*self, p) && p.x < x ==> #[trigger] out@.contains(p),
            decreases self.x - x,
        {
            let mut y: u32 = 0;
            while y < self.y
                invariant
                    x < self.x,
                    y <= self.y,
                    sorted_xyz(out@),
                    forall|p: GridPosition| #[trigger]
                        out@.contains(p) ==> spec_possible_position(*self, p) && (p.x < x || (p.x == x
                            && p.y < y)),
                    forall|p: GridPosition|
                        spec_possible_position(*self, p) && (p.x < x || (p.x == x && p.y < y))
                            ==> #[trigger] out@.contains(p),
                decreases self.y - y,
            {
                match self.z {
                    Some(z_size) => {
                        let mut z: u32 = 0;
                        while z < z_size
                            invariant
                                x < self.x,
                                y < self.y,
                                z <= z_size,
                                self.z == Some(z_size),
                                sorted_xyz(out@),
                                forall|p: GridPosition| #[trigger]
                                    out@.contains(p) ==> spec_possible_position(*self, p) && (p.x < x
                                        || (p.x == x && p.y < y) || (p.x == x && p.y == y && p.z->0
                                        < z)),
                                forall|p: GridPosition|
                                    spec_possible_position(*self, p) && (p.x < x || (p.x == x && p.y
                                        < y) || (p.x == x && p.y == y && p.z->0 < z))
                                        ==> #[trigger] out@.contains(p),
                            decreases z_size - z,
                        {
                            let p = GridPosition::new_xyz(x, y, z);
                            push_keeps_listing(&mut out, p);
                            z = z + 1;
                        }
                    },
                    None => {
                        let p = GridPosition::new_xy(x, y);
                        push_keeps_listing(&mut out, p);
                    },
                }
                y = y + 1;
            }
            x = x + 1;
        }
        out
    }

    /// Distance of a valid position from the nearest border.
    pub fn distance_from_border(&self, position: &GridPosition) -> (r: u32)
        requires
            spec_position_valid(*self, *position),
        ensures
            r == min2(
                min2(position.x as int, self.x - position.x - 1),
                min2(position.y as int, self.y - position.y - 1),
            ),
    {
        let a = position.x;
        let b = self.x - position.x - 1;
        let c = position.y;
        let d = self.y - position.y - 1;
        let ab = if a <= b {
            a
        } else {
            b
        };
        let cd = if c <= d {
            c
        } else {
            d
        };
        if ab <= cd {
            ab
        } else {
            cd
        }
    }

    /// Distance of a position from the center, measured along the nearer of the two axes.
    pub fn distance_from_center(&self, position: &GridPosition) -> (r: u32)
        ensures
            r == min2(
                coord_distance(self.center.0, position.x),
                coord_distance(self.center.1, position.y),
            ),
    {
        let dx = if self.center.0 < position.x {
            position.x - self.center.0
        } else {
            self.center.0 - position.x
        };
        let dy = if self.center.1 < position.y {
            position.y - self.center.1
        } else {
            self.center.1 - position.y
        };
        if dx <= dy {
            dx
        } else {
            dy
        }
    }

    fn calc_center_approx(x: u32, y: u32) -> (r: (u32, u32))
        ensures
            r == ((x / 2) as u32, (y / 2) as u32),
    {
        (x / 2, y / 2)
    }
}

/// Appends a position that is greater than all listed positions; the listing stays sorted.
fn push_keeps_listing(out: &mut Vec<GridPosition>, p: GridPosition)
    requires
        sorted_xyz(old(out)@),
        forall|q: GridPosition| #[trigger] old(out)@.contains(q) ==> xyz_lt(q, p),
    ensures
        sorted_xyz(final(out)@),
        final(out)@ == old(out)@.push(p),
        forall|q: GridPosition| #[trigger] final(out)@.contains(q) <==> old(out)@.contains(q) || q == p,
{
    let ghost before = out@;
    out.push(p);
    assert forall|i: int, j: int| 0 <= i < j < out@.len() implies xyz_lt(
        #[trigger] out@[i],
        #[trigger] out@[j],
    ) by {
        if j == out@.len() - 1 {
            assert(before.contains(before[i]));
        }
    }
    assert forall|q: GridPosition| #[trigger] out@.contains(q) <==> before.contains(q) || q == p by {
        if before.contains(q) {
            let k = choose|k: int| 0 <= k < before.len() && before[k] == q;
            assert(out@[k] == q);
        }
        if q == p {
            assert(out@[out@.len() - 1] == p);
        }
    }
}

} // verus!
