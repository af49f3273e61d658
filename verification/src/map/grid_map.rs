//! The two-dimensional grid map.
use vstd::prelude::*;

use super::{spec_march, spec_position_valid, march_in_bounds, GridDir, GridSize};
use crate::tile::{GridPosition, GridTile, GridTileRef, GridTileRefMut, TileContainer, TileData};

verus! {

/// Strict order of positions by `x`, then `y`.
pub open spec fn xy_lt(a: GridPosition, b: GridPosition) -> bool {
    a.x < b.x || (a.x == b.x && a.y < b.y)
}

/// The sequence is strictly increasing in the `xy_lt` order.
pub open spec fn sorted_xy(s: Seq<GridPosition>) -> bool {
    forall|i: int, j: int| 0 <= i < j < s.len() ==> xy_lt(#[trigger] s[i], #[trigger] s[j])
}

/// Basic two-dimensional grid map.
///
/// Holds data of all tiles inside, addressed by their [`GridPosition`]. Only the `x` and `y` coordinates of a
/// position are taken into account; positions listed by the map carry no layer.
pub struct GridMap2D<Data: TileData> {
    size: GridSize,
    tiles: Vec<Option<Data>>,
    layer: Option<u32>,
}

/// Index of the cell at `(x, y)` within the storage of a map with `sy` rows per column.
pub open spec fn cell_index(x: int, y: int, sy: int) -> int {
    x * sy + y
}

/// Cells of a grid are stored at distinct, in-bounds indices.
pub proof fn lemma_cell_index(x: int, y: int, sx: int, sy: int)
    requires
        0 <= x < sx,
        0 <= y < sy,
    ensures
        0 <= cell_index(x, y, sy) < sx * sy,
        cell_index(x, y, sy) + 1 <= sx * sy,
{
    assert(x * sy + y < sx * sy) by (nonlinear_arith)
        requires
            0 <= x < sx,
            0 <= y < sy,
    ;
    assert(0 <= x * sy) by (nonlinear_arith)
        requires
            0 <= x,
            0 <= y < sy,
    ;
}

/// Two different cells of a grid are stored at different indices.
pub proof fn lemma_cell_index_injective(x: int, y: int, a: int, b: int, sy: int)
    requires
        0 <= y < sy,
        0 <= b < sy,
        0 <= x,
        0 <= a,
        (x, y) != (a, b),
    ensures
        cell_index(x, y, sy) != cell_index(a, b, sy),
{
    if x == a {
    } else if x < a {
        assert(x * sy + y < a * sy + b) by (nonlinear_arith)
            requires
                x < a,
                0 <= y < sy,
                0 <= b,
        ;
    } else {
        assert(a * sy + b < x * sy + y) by (nonlinear_arith)
            requires
                a < x,
                0 <= b < sy,
                0 <= y,
        ;
    }
}

/// Tile data held at given position of the map (`None` for empty or invalid positions).
pub open spec fn tile_at<Data: TileData>(map: GridMap2D<Data>, p: GridPosition) -> Option<Data> {
    map.cell(p.x as int, p.y as int)
}

/// A position holding a tile is valid within the map.
pub proof fn lemma_tile_at_valid<Data: TileData>(map: GridMap2D<Data>, p: GridPosition)
    requires
        tile_at(map, p) is Some,
    ensures
        spec_position_valid(map.spec_size(), p),
{
}

/// Position is valid within the map and holds a tile.
pub open spec fn occupied<Data: TileData>(map: GridMap2D<Data>, p: GridPosition) -> bool {
    spec_position_valid(map.spec_size(), p) && tile_at(map, p) is Some
}

/// Listing of positions as produced by the map: positions without layer, ordered by `x` then `y`, exactly those
/// satisfying the predicate.
pub open spec fn listing_of(s: Seq<GridPosition>, pred: spec_fn(GridPosition) -> bool) -> bool {
    &&& sorted_xy(s)
    &&& forall|p: GridPosition| #[trigger] s.contains(p) <==> p.z is None && pred(p)
}

/// Position `p` shifted by `anchor` as done when remapping drained tiles: layers are added when both have one,
/// otherwise the result has no layer.
pub open spec fn remap_add(anchor: GridPosition, p: GridPosition) -> GridPosition {
    match (anchor.z, p.z) {
        (Some(a), Some(b)) => GridPosition {
            x: (anchor.x + p.x) as u32,
            y: (anchor.y + p.y) as u32,
            z: Some((a + b) as u32),
        },
        _ => GridPosition { x: (anchor.x + p.x) as u32, y: (anchor.y + p.y) as u32, z: None },
    }
}

/// Overwriting one cell of the storage leaves all other cells unchanged.
proof fn lemma_update_keeps_other_cells<T>(s: Seq<T>, sx: int, sy: int, x: int, y: int)
    requires
        0 <= x < sx,
        0 <= y < sy,
        s.len() == sx * sy,
    ensures
        forall|v: T, a: int, b: int|
            0 <= a < sx && 0 <= b < sy && (a, b) != (x, y) ==> #[trigger] s.update(
                cell_index(x, y, sy),
                v,
            )[cell_index(a, b, sy)] == s[cell_index(a, b, sy)],
{
    assert forall|v: T, a: int, b: int|
        0 <= a < sx && 0 <= b < sy && (a, b) != (x, y) implies #[trigger] s.update(
            cell_index(x, y, sy),
            v,
        )[cell_index(a, b, sy)] == s[cell_index(a, b, sy)] by {
        lemma_cell_index_injective(a, b, x, y, sy);
        lemma_cell_index(a, b, sx, sy);
        lemma_cell_index(x, y, sx, sy);
    }
}

/// Appends a position greater than all listed ones in the `xy_lt` order; the listing stays sorted.
fn push_sorted_xy(out: &mut Vec<GridPosition>, p: GridPosition)
    requires
        sorted_xy(old(out)@),
        forall|q: GridPosition| #[trigger] old(out)@.contains(q) ==> xy_lt(q, p),
    ensures
        sorted_xy(final(out)@),
        final(out)@ == old(out)@.push(p),
        forall|q: GridPosition| #[trigger] final(out)@.contains(q) <==> old(out)@.contains(q) || q == p,
{
    let ghost before = out@;
    out.push(p);
    assert forall|i: int, j: int| 0 <= i < j < out@.len() implies xy_lt(
        #[trigger] out@[i],
        #[trigger] out@[j],
    ) by {
        if j == out@.len() - 1 {
            assert(before.contains(before[i]));
        }
    }
    assert forall|q: GridPosition| #[trigger] out@.contains(q) <==> before.contains(q) || q == p by {
        if before.contains(q) {
            let k = choose|k: int| 0 <= k < before.len() && before[k] == q;
            assert(out@[k] == q);
        }
        if q == p {
            assert(out@[out@.len() - 1] == p);
        }
    }
}

/// Which positions a scan of the map selects.
#[derive(Clone, Copy)]
enum Scan {
    Occupied,
    Empty,
    Border(GridDir),
}

/// Position of a tile neighbouring `p` in direction `d`, if such a tile exists.
pub open spec fn neighbour_position<Data: TileData>(map: GridMap2D<Data>, p: GridPosition, d: GridDir) -> Option<
    GridPosition,
> {
    match spec_march(d, p, map.spec_size()) {
        Some(q) => if tile_at(map, q) is Some {
            Some(q)
        } else {
            None
        },
        None => None,
    }
}

/// Positions of the tiles neighbouring `p` in the first `k` directions of [`GridDir::ALL_2D`].
pub open spec fn neighbours_upto<Data: TileData>(map: GridMap2D<Data>, p: GridPosition, k: int) -> Seq<
    GridPosition,
>
    decreases k,
{
    if k <= 0 {
        Seq::empty()
    } else {
        let rest = neighbours_upto(map, p, k - 1);
        match neighbour_position(map, p, super::dir_at(k - 1)) {
            Some(q) => rest.push(q),
            None => rest,
        }
    }
}

/// A position holds a tile lying on the border of the map facing direction `d`: a step in that direction leaves
/// the map.
pub open spec fn is_border_in<Data: TileData>(map: GridMap2D<Data>, p: GridPosition, d: GridDir) -> bool {
    occupied(map, p) && spec_march(d, p, map.spec_size()) is None
}

/// Position of the last tile in `tiles` written to coordinates `(x, y)` of a map of given size, with its data.
pub open spec fn last_write<Data: TileData>(tiles: Seq<GridTile<Data>>, size: GridSize, x: int, y: int) -> Option<
    Data,
>
    decreases tiles.len(),
{
    if tiles.len() == 0 {
        None
    } else {
        let t = tiles.last();
        if spec_position_valid(size, t.spec_grid_position()) && t.spec_grid_position().x == x
            && t.spec_grid_position().y == y {
            Some(t.spec_data())
        } else {
            last_write(tiles.drop_last(), size, x, y)
        }
    }
}

/// The scan selects the position.
spec fn scan_selects<Data: TileData>(map: GridMap2D<Data>, scan: Scan, p: GridPosition) -> bool {
    match scan {
        Scan::Occupied => occupied(map, p),
        Scan::Empty => spec_position_valid(map.spec_size(), p) && tile_at(map, p) is None,
        Scan::Border(d) => is_border_in(map, p, d),
    }
}

impl<Data: TileData> GridMap2D<Data> {
    #[verifier::type_invariant]
    closed spec fn inv(&self) -> bool {
        self.tiles@.len() == self.size.x * self.size.y
    }

    pub closed spec fn spec_size(&self) -> GridSize {
        self.size
    }

    /// Tile data held at coordinates `(x, y)`; `None` when empty or outside of the map.
    pub closed spec fn cell(&self, x: int, y: int) -> Option<Data> {
        if 0 <= x < self.size.x && 0 <= y < self.size.y {
            self.tiles@[cell_index(x, y, self.size.y as int)]
        } else {
            None
        }
    }

    /// All cells of `self` and `other` are equal, except possibly the one at `(x, y)`.
    pub open spec fn same_except(&self, other: &Self, x: int, y: int) -> bool {
        forall|a: int, b: int| (a, b) != (x, y) ==> #[trigger] self.cell(a, b) == other.cell(a, b)
    }

    /// Creates new, empty map of given size.
    pub fn new(size: GridSize) -> (map: Self)
        requires
            size.x * size.y <= usize::MAX,
        ensures
            map.spec_size() == size,
            forall|x: int, y: int| #[trigger] map.cell(x, y) is None,
    {
        let n: usize = size.x as usize * size.y as usize;
        let mut tiles: Vec<Option<Data>> = Vec::new();
        let mut i: usize = 0;
        while i < n
            invariant
                i <= n,
                n == size.x * size.y,
                tiles@.len() == i,
                forall|k: int| 0 <= k < i ==> #[trigger] tiles@[k] is None,
            decreases n - i,
        {
            tiles.push(None);
            i = i + 1;
        }
        let map = Self { size, tiles, layer: None };
        assert forall|x: int, y: int| #[trigger] map.cell(x, y) is None by {
            if 0 <= x < size.x && 0 <= y < size.y {
                lemma_cell_index(x, y, size.x as int, size.y as int);
            }
        }
        map
    }

    /// Storage index of a valid position.
    fn index_of(&self, x: u32, y: u32) -> (i: usize)
        requires
            x < self.spec_size().x,
            y < self.spec_size().y,
        ensures
            i == cell_index(x as int, y as int, self.spec_size().y as int),
            i < self.tiles@.len(),
    {
        proof {
            use_type_invariant(self);
            lemma_cell_index(x as int, y as int, self.size.x as int, self.size.y as int);
        }
        let _len = self.tiles.len();
        x as usize * self.size.y as usize + y as usize
    }

    /// Get tile at specified position.
    pub fn get_tile_at_position(&self, position: &GridPosition) -> (r: Option<GridTileRef<'_, Data>>)
        ensures
            r is Some <==> tile_at(*self, *position) is Some,
            r is Some ==> r->0.spec_grid_position() == *position && r->0.spec_data() == tile_at(
                *self,
                *position,
            )->0,
    {
        proof {
            use_type_invariant(self);
        }
        if !self.size.is_position_valid(position) {
            return None;
        }
        let i = self.index_of(position.x, position.y);
        GridTileRef::maybe_new(*position, self.tiles[i].as_ref())
    }

    /// Insert tile. Its position is taken from the tile. If a tile is present at that position already, it is
    /// overwritten. Returns `false` (and changes nothing) if the position is not valid within the map.
    pub fn insert_tile(&mut self, tile: GridTile<Data>) -> (r: bool)
        ensures
            r == spec_position_valid(old(self).spec_size(), tile.spec_grid_position()),
            final(self).spec_size() == old(self).spec_size(),
            final(self).same_except(
                old(self),
                tile.spec_grid_position().x as int,
                tile.spec_grid_position().y as int,
            ),
            r ==> final(self).cell(
                tile.spec_grid_position().x as int,
                tile.spec_grid_position().y as int,
            ) == Some(tile.spec_data()),
            !r ==> final(self).cell(
                tile.spec_grid_position().x as int,
                tile.spec_grid_position().y as int,
            ) == old(self).cell(
                tile.spec_grid_position().x as int,
                tile.spec_grid_position().y as int,
            ),
    {
        let position = tile.grid_position();
        self.insert_data(&position, tile.into_inner())
    }

    /// Insert data at given position, overwriting any data present there. Returns `false` (and changes
    /// nothing) if the position is not valid within the map.
    pub fn insert_data(&mut self, position: &GridPosition, data: Data) -> (r: bool)
        ensures
            r == spec_position_valid(old(self).spec_size(), *position),
            final(self).spec_size() == old(self).spec_size(),
            final(self).same_except(old(self), position.x as int, position.y as int),
            r ==> final(self).cell(position.x as int, position.y as int) == Some(data),
            !r ==> final(self).cell(position.x as int, position.y as int) == old(self).cell(
                position.x as int,
                position.y as int,
            ),
    {
        proof {
            use_type_invariant(&*self);
        }
        if !self.size.is_position_valid(position) {
            return false;
        }
        self.set_cell(position.x, position.y, Some(data));
        true
    }

    /// Removes tile at given position. Returns `false` (and changes nothing) if the position is not valid within
    /// the map.
    pub fn remove_tile_at_position(&mut self, position: &GridPosition) -> (r: bool)
        ensures
            r == spec_position_valid(old(self).spec_size(), *position),
            final(self).spec_size() == old(self).spec_size(),
            final(self).same_except(old(self), position.x as int, position.y as int),
            final(self).cell(position.x as int, position.y as int) is None,
    {
        proof {
            use_type_invariant(&*self);
        }
        if !self.size.is_position_valid(position) {
            return false;
        }
        self.set_cell(position.x, position.y, None);
        true
    }

    /// Overwrites the cell at a valid position, returning its previous content.
    fn set_cell(&mut self, x: u32, y: u32, value: Option<Data>) -> (previous: Option<Data>)
        requires
            x < old(self).spec_size().x,
            y < old(self).spec_size().y,
        ensures
            previous == old(self).cell(x as int, y as int),
            final(self).spec_size() == old(self).spec_size(),
            final(self).same_except(old(self), x as int, y as int),
            final(self).cell(x as int, y as int) == value,
    {
        proof {
            use_type_invariant(&*self);
        }
        let i = self.index_of(x, y);
        let ghost new_value = value;
        let mut value = value;
        std::mem::swap(&mut value, &mut self.tiles[i]);
        proof {
            assert(self.tiles@ == old(self).tiles@.update(i as int, new_value));
            assert(self.size == old(self).size);
            assert forall|a: int, b: int| (a, b) != (x as int, y as int) implies #[trigger] self.cell(a, b)
                == old(self).cell(a, b) by {
                if 0 <= a < self.size.x && 0 <= b < self.size.y {
                    lemma_cell_index_injective(a, b, x as int, y as int, self.size.y as int);
                    lemma_cell_index(a, b, self.size.x as int, self.size.y as int);
                }
            }
        }
        value
    }

    pub fn size(&self) -> (r: &GridSize)
        ensures
            *r == self.spec_size(),
            r.x * r.y <= usize::MAX,
    {
        proof {
            use_type_invariant(self);
        }
        let _len = self.tiles.len();
        &self.size
    }

    /// Get tile at specified position mutably.
    pub fn get_mut_tile_at_position(&mut self, position: &GridPosition) -> (r: Option<GridTileRefMut<'_, Data>>)
        ensures
            r is Some <==> tile_at(*old(self), *position) is Some,
            r is Some ==> r->0.spec_grid_position() == *position && r->0.spec_data() == tile_at(
                *old(self),
                *position,
            )->0,
            final(self).spec_size() == old(self).spec_size(),
            final(self).same_except(old(self), position.x as int, position.y as int),
            r is None ==> tile_at(*final(self), *position) is None,
            r is Some ==> tile_at(*final(self), *position) == Some(*final(r->0.data)),
    {
        proof {
            use_type_invariant(&*self);
        }
        if !self.size.is_position_valid(position) {
            return None;
        }
        let i = self.index_of(position.x, position.y);
        proof {
            lemma_update_keeps_other_cells(
                self.tiles@,
                self.size.x as int,
                self.size.y as int,
                position.x as int,
                position.y as int,
            );
        }
        GridTileRefMut::maybe_new(*position, self.tiles[i].as_mut())
    }

    /// Positions selected by the scan, ordered by `x` then `y`.
    fn scan_positions(&self, scan: Scan) -> (out: Vec<GridPosition>)
        ensures
            sorted_xy(out@),
            forall|p: GridPosition| #[trigger] out@.contains(p) <==> p.z is None && scan_selects(*self, scan, p),
    {
        proof {
            use_type_invariant(self);
        }
        let mut out: Vec<GridPosition> = Vec::new();
        let mut x: u32 = 0;
        while x < self.size.x
            invariant
                x <= self.size.x,
                sorted_xy(out@),
                forall|p: GridPosition| #[trigger]
                    out@.contains(p) <==> p.z is None && scan_selects(*self, scan, p) && p.x < x,
            decreases self.size.x - x,
        {
            let mut y: u32 = 0;
            while y < self.size.y
                invariant
                    x < self.size.x,
                    y <= self.size.y,
                    sorted_xy(out@),
                    forall|p: GridPosition| #[trigger]
                        out@.contains(p) <==> p.z is None && scan_selects(*self, scan, p) && (p.x < x || (
                        p.x == x && p.y < y)),
                decreases self.size.y - y,
            {
                let p = GridPosition::new_xy(x, y);
                let selected = match scan {
                    Scan::Occupied => self.get_tile_at_position(&p).is_some(),
                    Scan::Empty => self.get_tile_at_position(&p).is_none(),
                    Scan::Border(d) => self.get_tile_at_position(&p).is_some() && d.march_step(&p, &self.size).is_none(),
                };
                if selected {
                    push_sorted_xy(&mut out, p);
                }
                y = y + 1;
            }
            x = x + 1;
        }
        out
    }

    /// Get positions of all tiles that are occupied within the map, ordered by `x` then `y`.
    pub fn get_all_positions(&self) -> (out: Vec<GridPosition>)
        ensures
            listing_of(out@, |p: GridPosition| occupied(*self, p)),
    {
        self.scan_positions(Scan::Occupied)
    }

    /// Get positions of all tiles that lie on the border of the map facing given direction, ordered by `x` then
    /// `y`.
    pub fn get_all_border_positions(&self, direction: &GridDir) -> (out: Vec<GridPosition>)
        ensures
            listing_of(out@, |p: GridPosition| is_border_in(*self, p, *direction)),
    {
        self.scan_positions(Scan::Border(*direction))
    }

    /// Get all valid positions which hold no tile, ordered by `x` then `y`.
    pub fn get_all_empty_positions(&self) -> (out: Vec<GridPosition>)
        ensures
            listing_of(
                out@,
                |p: GridPosition| spec_position_valid(self.spec_size(), p) && tile_at(*self, p) is None,
            ),
    {
        self.scan_positions(Scan::Empty)
    }

    /// Get tile neighbouring the specified position at specified direction.
    pub fn get_neighbour_at(&self, position: &GridPosition, direction: &GridDir) -> (r: Option<
        GridTileRef<'_, Data>,
    >)
        requires
            march_in_bounds(*direction, *position),
        ensures
            r is Some <==> neighbour_position(*self, *position, *direction) is Some,
            r is Some ==> r->0.spec_grid_position() == neighbour_position(
                *self,
                *position,
                *direction,
            )->0 && Some(r->0.spec_data()) == tile_at(*self, r->0.spec_grid_position()),
    {
        if let Some(position) = direction.march_step(position, &self.size) {
            return self.get_tile_at_position(&position);
        }
        None
    }

    /// Get tile neighbouring the specified position at specified direction mutably.
    pub fn get_mut_neighbour_at(&mut self, position: &GridPosition, direction: &GridDir) -> (r: Option<
        GridTileRefMut<'_, Data>,
    >)
        requires
            march_in_bounds(*direction, *position),
        ensures
            r is Some <==> neighbour_position(*old(self), *position, *direction) is Some,
            r is Some ==> r->0.spec_grid_position() == neighbour_position(
                *old(self),
                *position,
                *direction,
            )->0 && Some(r->0.spec_data()) == tile_at(*old(self), r->0.spec_grid_position())
                && final(self).same_except(
                old(self),
                r->0.spec_grid_position().x as int,
                r->0.spec_grid_position().y as int,
            ) && tile_at(*final(self), r->0.spec_grid_position()) == Some(*final(r->0.data)),
            r is None ==> final(self).same_except(old(self), -1, -1),
            final(self).spec_size() == old(self).spec_size(),
    {
        if let Some(position) = direction.march_step(position, &self.size) {
            return self.get_mut_tile_at_position(&position);
        }
        None
    }

    /// Get tiles neighbouring the specified position, in the order of [`GridDir::ALL_2D`].
    pub fn get_neighbours(&self, position: &GridPosition) -> (out: Vec<GridTileRef<'_, Data>>)
        requires
            position.x < u32::MAX,
            position.y < u32::MAX,
        ensures
            out@.len() == neighbours_upto(*self, *position, 4).len(),
            forall|i: int|
                0 <= i < out@.len() ==> #[trigger] out@[i].spec_grid_position() == neighbours_upto(
                    *self,
                    *position,
                    4,
                )[i] && Some(out@[i].spec_data()) == tile_at(*self, out@[i].spec_grid_position()),
    {
        let mut out: Vec<GridTileRef<'_, Data>> = Vec::new();
        let mut k: usize = 0;
        while k < 4
            invariant
                k <= 4,
                position.x < u32::MAX,
                position.y < u32::MAX,
                out@.len() == neighbours_upto(*self, *position, k as int).len(),
                forall|i: int|
                    0 <= i < out@.len() ==> #[trigger] out@[i].spec_grid_position() == neighbours_upto(
                        *self,
                        *position,
                        k as int,
                    )[i] && Some(out@[i].spec_data()) == tile_at(*self, out@[i].spec_grid_position()),
            decreases 4 - k,
        {
            let direction = GridDir::from_index(k);
            if let Some(tile) = self.get_neighbour_at(position, &direction) {
                out.push(tile);
            }
            k = k + 1;
        }
        out
    }

    /// References to all tiles of the map, ordered by position (`x` then `y`).
    pub fn iter_tiles(&self) -> (out: Vec<GridTileRef<'_, Data>>)
        ensures
            listing_of(
                out@.map_values(|t: GridTileRef<'_, Data>| t.spec_grid_position()),
                |p: GridPosition| occupied(*self, p),
            ),
            forall|i: int|
                0 <= i < out@.len() ==> Some(#[trigger] out@[i].spec_data()) == tile_at(
                    *self,
                    out@[i].spec_grid_position(),
                ),
    {
        let positions = self.get_all_positions();
        let mut out: Vec<GridTileRef<'_, Data>> = Vec::new();
        let mut k: usize = 0;
        while k < positions.len()
            invariant
                k <= positions@.len(),
                listing_of(positions@, |p: GridPosition| occupied(*self, p)),
                out@.len() == k,
                forall|i: int| 0 <= i < k ==> #[trigger] out@[i].spec_grid_position() == positions@[i],
                forall|i: int|
                    0 <= i < out@.len() ==> Some(#[trigger] out@[i].spec_data()) == tile_at(
                        *self,
                        out@[i].spec_grid_position(),
                    ),
            decreases positions@.len() - k,
        {
            let p = positions[k];
            assert(positions@.contains(p));
            let tile = self.get_tile_at_position(&p).unwrap();
            out.push(tile);
            k = k + 1;
        }
        assert(out@.map_values(|t: GridTileRef<'_, Data>| t.spec_grid_position()) =~= positions@);
        out
    }

    /// Get tiles present at given positions, in the order of the positions; positions without tile are skipped.
    pub fn get_tiles_at_positions(&self, positions: &[GridPosition]) -> (out: Vec<GridTileRef<'_, Data>>)
        ensures
            out@.map_values(|t: GridTileRef<'_, Data>| t.spec_grid_position()) == positions@.filter(
                |p: GridPosition| tile_at(*self, p) is Some,
            ),
            forall|i: int|
                0 <= i < out@.len() ==> Some(#[trigger] out@[i].spec_data()) == tile_at(
                    *self,
                    out@[i].spec_grid_position(),
                ),
    {
        let ghost pred = |p: GridPosition| tile_at(*self, p) is Some;
        let mut out: Vec<GridTileRef<'_, Data>> = Vec::new();
        let mut k: usize = 0;
        while k < positions.len()
            invariant
                k <= positions@.len(),
                pred == (|p: GridPosition| tile_at(*self, p) is Some),
                out@.map_values(|t: GridTileRef<'_, Data>| t.spec_grid_position()) == positions@.take(
                    k as int,
                ).filter(pred),
                forall|i: int|
                    0 <= i < out@.len() ==> Some(#[trigger] out@[i].spec_data()) == tile_at(
                        *self,
                        out@[i].spec_grid_position(),
                    ),
            decreases positions@.len() - k,
        {
            proof {
                reveal_with_fuel(Seq::filter, 1);
                assert(positions@.take(k + 1).drop_last() =~= positions@.take(k as int));
            }
            let ghost before = out@;
            if let Some(tile) = self.get_tile_at_position(&positions[k]) {
                out.push(tile);
                assert(out@.map_values(|t: GridTileRef<'_, Data>| t.spec_grid_position()) =~= before.map_values(
                    |t: GridTileRef<'_, Data>| t.spec_grid_position(),
                ).push(positions@[k as int]));
            }
            k = k + 1;
        }
        assert(positions@.take(positions@.len() as int) =~= positions@);
        out
    }

    /// Destroys the map, returning all its tiles with their positions adjusted by `anchor` (when given), ordered
    /// by source position (`x` then `y`). Together with the returned tiles the source positions are given.
    fn drain_with(self, anchor: Option<GridPosition>) -> (r: (Vec<GridTile<Data>>, Ghost<Seq<GridPosition>>))
        requires
            anchor is Some ==> forall|p: GridPosition|
                occupied(self, p) ==> anchor->0.x + p.x <= u32::MAX && anchor->0.y + p.y <= u32::MAX,
        ensures
            listing_of(r.1@, |p: GridPosition| occupied(self, p)),
            r.0@.len() == r.1@.len(),
            forall|i: int|
                0 <= i < r.0@.len() ==> #[trigger] r.0@[i].spec_grid_position() == (match anchor {
                    Some(a) => remap_add(a, r.1@[i]),
                    None => r.1@[i],
                }) && Some(r.0@[i].spec_data()) == tile_at(self, r.1@[i]),
    {
        let positions = self.get_all_positions();
        let ghost source = self;
        let mut map = self;
        let mut out: Vec<GridTile<Data>> = Vec::new();
        let mut k: usize = 0;
        while k < positions.len()
            invariant
                k <= positions@.len(),
                listing_of(positions@, |p: GridPosition| occupied(source, p)),
                map.spec_size() == source.spec_size(),
                forall|j: int| k <= j < positions@.len() ==> #[trigger] tile_at(map, positions@[j]) == tile_at(
                    source,
                    positions@[j],
                ),
                anchor is Some ==> forall|p: GridPosition|
                    occupied(source, p) ==> anchor->0.x + p.x <= u32::MAX && anchor->0.y + p.y
                        <= u32::MAX,
                out@.len() == k,
                forall|i: int|
                    0 <= i < k ==> #[trigger] out@[i].spec_grid_position() == (match anchor {
                        Some(a) => remap_add(a, positions@[i]),
                        None => positions@[i],
                    }) && Some(out@[i].spec_data()) == tile_at(source, positions@[i]),
            decreases positions@.len() - k,
        {
            let p = positions[k];
            assert(positions@.contains(p));
            assert(tile_at(map, positions@[k as int]) == tile_at(source, positions@[k as int]));
            let ghost before = map;
            let taken = map.set_cell(p.x, p.y, None);
            assert forall|j: int| k + 1 <= j < positions@.len() implies #[trigger] tile_at(
                map,
                positions@[j],
            ) == tile_at(source, positions@[j]) by {
                assert(xy_lt(positions@[k as int], positions@[j]));
                assert(tile_at(before, positions@[j]) == tile_at(source, positions@[j]));
            }
            let data = taken.unwrap();
            let position = match anchor {
                Some(a) => match (a.z, p.z) {
                    (Some(az), Some(pz)) => {
                        assert(false);
                        GridPosition::new_xyz(a.x + p.x, a.y + p.y, 0)
                    },
                    _ => GridPosition::new_xy(a.x + p.x, a.y + p.y),
                },
                None => p,
            };
            out.push(GridTile::new(position, data));
            k = k + 1;
        }
        (out, Ghost(positions@))
    }

    /// Destroys the map, returning all its tiles, ordered by position (`x` then `y`).
    pub fn drain(self) -> (out: Vec<GridTile<Data>>)
        ensures
            listing_of(
                out@.map_values(|t: GridTile<Data>| t.spec_grid_position()),
                |p: GridPosition| occupied(self, p),
            ),
            forall|i: int|
                0 <= i < out@.len() ==> Some(#[trigger] out@[i].spec_data()) == tile_at(
                    self,
                    out@[i].spec_grid_position(),
                ),
    {
        let ghost source = self;
        let (out, positions) = self.drain_with(None);
        assert(out@.map_values(|t: GridTile<Data>| t.spec_grid_position()) =~= positions@);
        out
    }

    /// Destroys the map, returning all its tiles with their positions shifted by `anchor_pos`, ordered by their
    /// source position (`x` then `y`).
    pub fn drain_remapped(self, anchor_pos: GridPosition) -> (out: Vec<GridTile<Data>>)
        requires
            forall|p: GridPosition|
                occupied(self, p) ==> anchor_pos.x + p.x <= u32::MAX && anchor_pos.y + p.y <= u32::MAX,
        ensures
            exists|origins: Seq<GridPosition>|
                {
                    &&& listing_of(origins, |p: GridPosition| occupied(self, p))
                    &&& origins.len() == out@.len()
                    &&& forall|i: int|
                        0 <= i < out@.len() ==> #[trigger] out@[i].spec_grid_position() == remap_add(
                            anchor_pos,
                            origins[i],
                        ) && Some(out@[i].spec_data()) == tile_at(self, origins[i])
                },
    {
        let ghost source = self;
        let (out, positions) = self.drain_with(Some(anchor_pos));
        assert(listing_of(positions@, |p: GridPosition| occupied(source, p)));
        out
    }

    /// Fills empty positions using constructor function: for every empty position (ordered by `x` then `y`) the
    /// tile returned by `func` is inserted at the position that the tile itself carries.
    pub fn fill_empty_using<F: Fn(GridPosition) -> GridTile<Data>>(&mut self, func: F)
        requires
            forall|p: GridPosition| #[trigger] func.requires((p,)),
        ensures
            final(self).spec_size() == old(self).spec_size(),
            exists|empties: Seq<GridPosition>, made: Seq<GridTile<Data>>|
                {
                    &&& listing_of(
                        empties,
                        |p: GridPosition|
                            spec_position_valid(old(self).spec_size(), p) && tile_at(*old(self), p) is None,
                    )
                    &&& made.len() == empties.len()
                    &&& forall|i: int| 0 <= i < made.len() ==> func.ensures((empties[i],), #[trigger] made[i])
                    &&& forall|x: int, y: int| #[trigger]
                        final(self).cell(x, y) == match last_write(made, old(self).spec_size(), x, y) {
                            Some(d) => Some(d),
                            None => old(self).cell(x, y),
                        }
                },
    {
        let empties = self.get_all_empty_positions();
        let ghost source = *self;
        let ghost mut made: Seq<GridTile<Data>> = Seq::empty();
        let mut k: usize = 0;
        while k < empties.len()
            invariant
                k <= empties@.len(),
                forall|p: GridPosition| #[trigger] func.requires((p,)),
                self.spec_size() == source.spec_size(),
                made.len() == k,
                forall|i: int| 0 <= i < made.len() ==> func.ensures((empties@[i],), #[trigger] made[i]),
                forall|x: int, y: int| #[trigger]
                    self.cell(x, y) == match last_write(made, source.spec_size(), x, y) {
                        Some(d) => Some(d),
                        None => source.cell(x, y),
                    },
            decreases empties@.len() - k,
        {
            let tile = func(empties[k]);
            let ghost before_made = made;
            proof {
                made = made.push(tile);
                assert(made.drop_last() =~= before_made);
            }
            let ghost before = *self;
            self.insert_tile(tile);
            assert forall|x: int, y: int| #[trigger]
                self.cell(x, y) == match last_write(made, source.spec_size(), x, y) {
                    Some(d) => Some(d),
                    None => source.cell(x, y),
                } by {
                assert(made.drop_last() == before_made);
                assert(before.cell(x, y) == match last_write(before_made, source.spec_size(), x, y) {
                    Some(d) => Some(d),
                    None => source.cell(x, y),
                });
            }
            k = k + 1;
        }
    }
}

impl<Data: TileData + Clone> GridMap2D<Data> {
    /// Puts a clone of `tile` at every empty position of the map.
    pub fn fill_empty_with(&mut self, tile: Data)
        ensures
            final(self).spec_size() == old(self).spec_size(),
            forall|x: int, y: int|
                old(self).cell(x, y) is Some ==> #[trigger] final(self).cell(x, y) == old(self).cell(x, y),
            forall|x: int, y: int|
                0 <= x < old(self).spec_size().x && 0 <= y < old(self).spec_size().y && old(self).cell(x, y)
                    is None ==> #[trigger] final(self).cell(x, y) is Some && cloned(
                    tile,
                    final(self).cell(x, y)->0,
                ),
            forall|x: int, y: int|
                !(0 <= x < old(self).spec_size().x && 0 <= y < old(self).spec_size().y)
                    ==> #[trigger] final(self).cell(x, y) is None,
    {
        let empties = self.get_all_empty_positions();
        let ghost source = *self;
        assert forall|j: int| 0 <= j < empties@.len() implies #[trigger] tile_at(*self, empties@[j]) is None by {
            assert(empties@.contains(empties@[j]));
        }
        assert forall|x: int, y: int|
            0 <= x < source.spec_size().x && 0 <= y < source.spec_size().y && #[trigger] self.cell(x, y)
                is None implies exists|j: int| 0 <= j < empties@.len() && empties@[j].x == x && empties@[j].y == y by {
            let p = GridPosition { x: x as u32, y: y as u32, z: None };
            assert(empties@.contains(p));
        }
        let mut k: usize = 0;
        while k < empties.len()
            invariant
                k <= empties@.len(),
                listing_of(
                    empties@,
                    |p: GridPosition|
                        spec_position_valid(source.spec_size(), p) && tile_at(source, p) is None,
                ),
                self.spec_size() == source.spec_size(),
                forall|x: int, y: int|
                    source.cell(x, y) is Some ==> #[trigger] self.cell(x, y) == source.cell(x, y),
                forall|x: int, y: int|
                    0 <= x < source.spec_size().x && 0 <= y < source.spec_size().y && source.cell(x, y)
                        is None ==> (#[trigger] self.cell(x, y) is Some && cloned(tile, self.cell(x, y)->0))
                        || self.cell(x, y) is None,
                forall|x: int, y: int|
                    !(0 <= x < source.spec_size().x && 0 <= y < source.spec_size().y)
                        ==> #[trigger] self.cell(x, y) is None,
                forall|j: int| k <= j < empties@.len() ==> #[trigger] tile_at(*self, empties@[j]) is None,
                forall|x: int, y: int|
                    0 <= x < source.spec_size().x && 0 <= y < source.spec_size().y && #[trigger] self.cell(
                        x,
                        y,
                    ) is None ==> exists|j: int|
                        k <= j < empties@.len() && empties@[j].x == x && empties@[j].y == y,
            decreases empties@.len() - k,
        {
            let p = empties[k];
            assert(empties@.contains(p));
            let ghost before = *self;
            self.insert_data(&p, tile.clone());
            assert forall|j: int| k + 1 <= j < empties@.len() implies #[trigger] tile_at(*self, empties@[j]) is None by {
                assert(xy_lt(empties@[k as int], empties@[j]));
                assert(tile_at(before, empties@[j]) is None);
            }
            assert forall|x: int, y: int|
                0 <= x < source.spec_size().x && 0 <= y < source.spec_size().y && #[trigger] self.cell(x, y)
                    is None implies exists|j: int|
                    k + 1 <= j < empties@.len() && empties@[j].x == x && empties@[j].y == y by {
                assert(before.cell(x, y) is None);
                let j = choose|j: int| k <= j < empties@.len() && empties@[j].x == x && empties@[j].y == y;
                assert(j != k);
            }
            k = k + 1;
        }
        assert forall|x: int, y: int|
            0 <= x < source.spec_size().x && 0 <= y < source.spec_size().y && source.cell(x, y)
                is None implies #[trigger] self.cell(x, y) is Some && cloned(tile, self.cell(x, y)->0) by {
            if self.cell(x, y) is None {
                let j = choose|j: int| k <= j < empties@.len() && empties@[j].x == x && empties@[j].y == y;
            }
        }
    }

    /// Clones of all tiles with their positions shifted by `anchor_pos` (whose layer they take), ordered by
    /// source position (`x` then `y`).
    pub fn get_remapped(&self, anchor_pos: GridPosition) -> (out: Vec<GridTile<Data>>)
        requires
            forall|p: GridPosition|
                occupied(*self, p) ==> anchor_pos.x + p.x <= u32::MAX && anchor_pos.y + p.y <= u32::MAX,
        ensures
            exists|origins: Seq<GridPosition>|
                {
                    &&& listing_of(origins, |p: GridPosition| occupied(*self, p))
                    &&& origins.len() == out@.len()
                    &&& forall|i: int|
                        0 <= i < out@.len() ==> #[trigger] out@[i].spec_grid_position() == (GridPosition {
                            x: (anchor_pos.x + origins[i].x) as u32,
                            y: (anchor_pos.y + origins[i].y) as u32,
                            z: anchor_pos.z,
                        }) && cloned(tile_at(*self, origins[i])->0, out@[i].spec_data())
                        && tile_at(*self, origins[i]) is Some
                },
    {
        let positions = self.get_all_positions();
        let mut out: Vec<GridTile<Data>> = Vec::new();
        let mut k: usize = 0;
        while k < positions.len()
            invariant
                k <= positions@.len(),
                listing_of(positions@, |p: GridPosition| occupied(*self, p)),
                forall|p: GridPosition|
                    occupied(*self, p) ==> anchor_pos.x + p.x <= u32::MAX && anchor_pos.y + p.y <= u32::MAX,
                out@.len() == k,
                forall|i: int|
                    0 <= i < k ==> #[trigger] out@[i].spec_grid_position() == (GridPosition {
                        x: (anchor_pos.x + positions@[i].x) as u32,
                        y: (anchor_pos.y + positions@[i].y) as u32,
                        z: anchor_pos.z,
                    }) && cloned(tile_at(*self, positions@[i])->0, out@[i].spec_data()) && tile_at(
                        *self,
                        positions@[i],
                    ) is Some,
            decreases positions@.len() - k,
        {
            let p = positions[k];
            assert(positions@.contains(p));
            let tile = self.get_tile_at_position(&p).unwrap();
            let mut cloned_pos = anchor_pos;
            cloned_pos.add_xy((p.x, p.y));
            out.push(GridTile::new(cloned_pos, tile.inner().clone()));
            k = k + 1;
        }
        out
    }
}

impl<Data: TileData + Default> GridMap2D<Data> {
    /// Puts a default value at every empty position of the map.
    pub fn fill_empty_with_default(&mut self)
        ensures
            final(self).spec_size() == old(self).spec_size(),
            forall|x: int, y: int|
                old(self).cell(x, y) is Some ==> #[trigger] final(self).cell(x, y) == old(self).cell(x, y),
            forall|x: int, y: int|
                0 <= x < old(self).spec_size().x && 0 <= y < old(self).spec_size().y && old(self).cell(x, y)
                    is None ==> #[trigger] final(self).cell(x, y) is Some && call_ensures(
                    Data::default,
                    (),
                    final(self).cell(x, y)->0,
                ),
            forall|x: int, y: int|
                !(0 <= x < old(self).spec_size().x && 0 <= y < old(self).spec_size().y)
                    ==> #[trigger] final(self).cell(x, y) is None,
    {
        let empties = self.get_all_empty_positions();
        let ghost source = *self;
        assert forall|j: int| 0 <= j < empties@.len() implies #[trigger] tile_at(*self, empties@[j]) is None by {
            assert(empties@.contains(empties@[j]));
        }
        assert forall|x: int, y: int|
            0 <= x < source.spec_size().x && 0 <= y < source.spec_size().y && #[trigger] self.cell(x, y)
                is None implies exists|j: int| 0 <= j < empties@.len() && empties@[j].x == x && empties@[j].y == y by {
            let p = GridPosition { x: x as u32, y: y as u32, z: None };
            assert(empties@.contains(p));
        }
        let mut k: usize = 0;
        while k < empties.len()
            invariant
                k <= empties@.len(),
                listing_of(
                    empties@,
                    |p: GridPosition|
                        spec_position_valid(source.spec_size(), p) && tile_at(source, p) is None,
                ),
                self.spec_size() == source.spec_size(),
                forall|x: int, y: int|
                    source.cell(x, y) is Some ==> #[trigger] self.cell(x, y) == source.cell(x, y),
                forall|x: int, y: int|
                    0 <= x < source.spec_size().x && 0 <= y < source.spec_size().y && source.cell(x, y)
                        is None ==> (#[trigger] self.cell(x, y) is Some && call_ensures(
                        Data::default,
                        (),
                        self.cell(x, y)->0,
                    )) || self.cell(x, y) is None,
                forall|x: int, y: int|
                    !(0 <= x < source.spec_size().x && 0 <= y < source.spec_size().y)
                        ==> #[trigger] self.cell(x, y) is None,
                forall|j: int| k <= j < empties@.len() ==> #[trigger] tile_at(*self, empties@[j]) is None,
                forall|x: int, y: int|
                    0 <= x < source.spec_size().x && 0 <= y < source.spec_size().y && #[trigger] self.cell(
                        x,
                        y,
                    ) is None ==> exists|j: int|
                        k <= j < empties@.len() && empties@[j].x == x && empties@[j].y == y,
            decreases empties@.len() - k,
        {
            let p = empties[k];
            assert(empties@.contains(p));
            let ghost before = *self;
            self.insert_data(&p, Data::default());
            assert forall|j: int| k + 1 <= j < empties@.len() implies #[trigger] tile_at(*self, empties@[j]) is None by {
                assert(xy_lt(empties@[k as int], empties@[j]));
                assert(tile_at(before, empties@[j]) is None);
            }
            assert forall|x: int, y: int|
                0 <= x < source.spec_size().x && 0 <= y < source.spec_size().y && #[trigger] self.cell(x, y)
                    is None implies exists|j: int|
                    k + 1 <= j < empties@.len() && empties@[j].x == x && empties@[j].y == y by {
                assert(before.cell(x, y) is None);
                let j = choose|j: int| k <= j < empties@.len() && empties@[j].x == x && empties@[j].y == y;
                assert(j != k);
            }
            k = k + 1;
        }
        assert forall|x: int, y: int|
            0 <= x < source.spec_size().x && 0 <= y < source.spec_size().y && source.cell(x, y)
                is None implies #[trigger] self.cell(x, y) is Some && call_ensures(
                Data::default,
                (),
                self.cell(x, y)->0,
            ) by {
            if self.cell(x, y) is None {
                let j = choose|j: int| k <= j < empties@.len() && empties@[j].x == x && empties@[j].y == y;
            }
        }
    }
}

/// Two positions ordered by `x` then `y` cannot each come before the other.
proof fn lemma_xy_lt_asymmetric(a: GridPosition, b: GridPosition)
    ensures
        !(xy_lt(a, b) && xy_lt(b, a)),
{
}

/// Two sequences strictly increasing by `x` then `y`, holding the same positions, are the same sequence.
pub proof fn lemma_sorted_listing_unique(s1: Seq<GridPosition>, s2: Seq<GridPosition>)
    requires
        sorted_xy(s1),
        sorted_xy(s2),
        forall|p: GridPosition| #[trigger] s1.contains(p) <==> s2.contains(p),
    ensures
        s1 == s2,
    decreases s1.len(),
{
    if s1.len() == 0 {
        if s2.len() > 0 {
            assert(s2.contains(s2[0]));
            assert(s1.contains(s2[0]));
        }
        assert(s2.len() == 0);
        assert(s1 =~= s2);
    } else {
        assert(s1.contains(s1[0]));
        assert(s2.contains(s1[0]));
        assert(s2.len() > 0);
        assert(s2.contains(s2[0]));
        assert(s1.contains(s2[0]));
        let j = s2.index_of(s1[0]);
        let i = s1.index_of(s2[0]);
        assert(0 <= i < s1.len() && s1[i] == s2[0]);
        assert(0 <= j < s2.len() && s2[j] == s1[0]);
        if j > 0 && i > 0 {
            assert(xy_lt(s2[0], s2[j]));
            assert(xy_lt(s1[0], s1[i]));
            lemma_xy_lt_asymmetric(s1[0], s2[0]);
        }
        assert(s1[0] == s2[0]);
        let t1 = s1.drop_first();
        let t2 = s2.drop_first();
        assert forall|a: int, b: int| 0 <= a < b < t1.len() implies xy_lt(#[trigger] t1[a], #[trigger] t1[b]) by {
            assert(xy_lt(s1[a + 1], s1[b + 1]));
        }
        assert forall|a: int, b: int| 0 <= a < b < t2.len() implies xy_lt(#[trigger] t2[a], #[trigger] t2[b]) by {
            assert(xy_lt(s2[a + 1], s2[b + 1]));
        }
        assert forall|p: GridPosition| #[trigger] t1.contains(p) <==> t2.contains(p) by {
            if t1.contains(p) {
                let k = t1.index_of(p);
                assert(s1[k + 1] == p);
                assert(xy_lt(s1[0], s1[k + 1]));
                assert(s1.contains(p));
                assert(s2.contains(p));
                let m = s2.index_of(p);
                if m == 0 {
                    lemma_xy_lt_asymmetric(s1[0], p);
                }
                assert(t2[m - 1] == p);
            }
            if t2.contains(p) {
                let k = t2.index_of(p);
                assert(s2[k + 1] == p);
                assert(xy_lt(s2[0], s2[k + 1]));
                assert(s2.contains(p));
                assert(s1.contains(p));
                let m = s1.index_of(p);
                if m == 0 {
                    lemma_xy_lt_asymmetric(s2[0], p);
                }
                assert(t1[m - 1] == p);
            }
        }
        lemma_sorted_listing_unique(t1, t2);
        assert(s1 =~= seq![s1[0]] + t1);
        assert(s2 =~= seq![s2[0]] + t2);
    }
}

/// The positions of a map with a two-dimensional size split into those holding a tile (as listed by
/// [`GridMap2D::get_all_positions`]) and those holding none (as listed by [`GridMap2D::get_all_empty_positions`]):
/// the two listings have no position in common, neither repeats one, and together they hold exactly the positions
/// the size allows.
pub proof fn lemma_empty_and_occupied_partition<Data: TileData>(
    map: GridMap2D<Data>,
    empty: Seq<GridPosition>,
    taken: Seq<GridPosition>,
)
    requires
        map.spec_size().z is None,
        listing_of(empty, |p: GridPosition| spec_position_valid(map.spec_size(), p) && tile_at(map, p) is None),
        listing_of(taken, |p: GridPosition| occupied(map, p)),
    ensures
        empty.no_duplicates(),
        taken.no_duplicates(),
        forall|p: GridPosition| !(#[trigger] empty.contains(p) && taken.contains(p)),
        forall|p: GridPosition| #[trigger]
            super::spec_possible_position(map.spec_size(), p) <==> empty.contains(p) || taken.contains(p),
        forall|p: GridPosition| #[trigger] empty.contains(p) <==> p.z is None && spec_position_valid(map.spec_size(), p) && tile_at(map, p) is None,
{
    assert forall|a: int, b: int| 0 <= a < b < empty.len() implies empty[a] != empty[b] by {
        assert(xy_lt(empty[a], empty[b]));
    }
    assert forall|a: int, b: int| 0 <= a < b < taken.len() implies taken[a] != taken[b] by {
        assert(xy_lt(taken[a], taken[b]));
    }
}

/// The pattern grid of a map lists its tiles at the positions where the map lists its own.
pub proof fn lemma_same_occupied_same_listing<A: TileData, B: TileData>(
    a: GridMap2D<A>,
    b: GridMap2D<B>,
    sa: Seq<GridPosition>,
    sb: Seq<GridPosition>,
)
    requires
        forall|p: GridPosition| p.z is None ==> (#[trigger] occupied(a, p) <==> occupied(b, p)),
        listing_of(sa, |p: GridPosition| occupied(a, p)),
        listing_of(sb, |p: GridPosition| occupied(b, p)),
    ensures
        sa == sb,
{
    assert forall|p: GridPosition| #[trigger] sa.contains(p) <==> sb.contains(p) by {
        if p.z is None {
            assert(occupied(a, p) <==> occupied(b, p));
        }
    }
    lemma_sorted_listing_unique(sa, sb);
}

/// Draining a map remapped onto an anchor without a layer gives, in the same order, the tiles at the same positions
/// as [`GridMap2D::get_remapped`] gives copies of.
pub proof fn lemma_drain_agrees_with_get_remapped<Data: TileData + Clone>(
    map: GridMap2D<Data>,
    anchor: GridPosition,
    drained: Seq<GridTile<Data>>,
    remapped: Seq<GridTile<Data>>,
)
    requires
        anchor.z is None,
        exists|origins: Seq<GridPosition>|
            {
                &&& listing_of(origins, |p: GridPosition| occupied(map, p))
                &&& origins.len() == drained.len()
                &&& forall|i: int|
                    0 <= i < drained.len() ==> #[trigger] drained[i].spec_grid_position() == remap_add(anchor, origins[i])
                        && Some(drained[i].spec_data()) == tile_at(map, origins[i])
            },
        exists|origins: Seq<GridPosition>|
            {
                &&& listing_of(origins, |p: GridPosition| occupied(map, p))
                &&& origins.len() == remapped.len()
                &&& forall|i: int|
                    0 <= i < remapped.len() ==> #[trigger] remapped[i].spec_grid_position() == (GridPosition {
                        x: (anchor.x + origins[i].x) as u32,
                        y: (anchor.y + origins[i].y) as u32,
                        z: anchor.z,
                    }) && cloned(tile_at(map, origins[i])->0, remapped[i].spec_data()) && tile_at(map, origins[i]) is Some
            },
    ensures
        drained.len() == remapped.len(),
        forall|i: int|
            0 <= i < drained.len() ==> #[trigger] drained[i].spec_grid_position() == remapped[i].spec_grid_position()
                && cloned(drained[i].spec_data(), remapped[i].spec_data()),
{
    let o1 = choose|origins: Seq<GridPosition>|
        {
            &&& listing_of(origins, |p: GridPosition| occupied(map, p))
            &&& origins.len() == drained.len()
            &&& forall|i: int|
                0 <= i < drained.len() ==> #[trigger] drained[i].spec_grid_position() == remap_add(anchor, origins[i])
                    && Some(drained[i].spec_data()) == tile_at(map, origins[i])
        };
    let o2 = choose|origins: Seq<GridPosition>|
        {
            &&& listing_of(origins, |p: GridPosition| occupied(map, p))
            &&& origins.len() == remapped.len()
            &&& forall|i: int|
                0 <= i < remapped.len() ==> #[trigger] remapped[i].spec_grid_position() == (GridPosition {
                    x: (anchor.x + origins[i].x) as u32,
                    y: (anchor.y + origins[i].y) as u32,
                    z: anchor.z,
                }) && cloned(tile_at(map, origins[i])->0, remapped[i].spec_data()) && tile_at(map, origins[i]) is Some
        };
    lemma_same_occupied_same_listing(map, map, o1, o2);
    assert forall|i: int| 0 <= i < drained.len() implies #[trigger] drained[i].spec_grid_position()
        == remapped[i].spec_grid_position() && cloned(drained[i].spec_data(), remapped[i].spec_data()) by {
        assert(drained[i].spec_grid_position() == remap_add(anchor, o1[i]));
        assert(remapped[i].spec_grid_position() == (GridPosition {
            x: (anchor.x + o2[i].x) as u32,
            y: (anchor.y + o2[i].y) as u32,
            z: anchor.z,
        }));
    }
}

} // verus!
