//! Tiles, their positions and containers holding them outside of a grid map.
use vstd::prelude::*;

pub mod identifiable;
pub mod vis;

verus! {

/// Marker trait for data that can be held by a [`GridMap2D`](crate::map::GridMap2D) or a tile container.
pub trait TileData: Sized {}

/// Containers of [`TileData`] that know the position of their tile within the grid map.
pub trait TileContainer {
    spec fn spec_grid_position(&self) -> GridPosition;

    fn grid_position(&self) -> (pos: GridPosition)
        ensures
            pos == self.spec_grid_position(),
    ;
}

/// Position of a tile within a grid map: `x` and `y` coordinates and an optional layer `z`.
#[derive(Clone, Copy, Debug, Hash, PartialEq, Eq, Structural)]
pub struct GridPosition {
    pub x: u32,
    pub y: u32,
    pub z: Option<u32>,
}

/// Layer of a position as an integer: the layer itself, or `-1` for a position without one.
pub open spec fn z_key(p: GridPosition) -> int {
    match p.z {
        Some(z) => z as int,
        None => -1,
    }
}

/// Strict order of positions by layer first, then `x`, then `y`.
pub open spec fn zxy_lt(a: GridPosition, b: GridPosition) -> bool {
    ||| z_key(a) < z_key(b)
    ||| z_key(a) == z_key(b) && a.x < b.x
    ||| z_key(a) == z_key(b) && a.x == b.x && a.y < b.y
}

/// The sequence is strictly increasing in the `zxy_lt` order (so it holds no duplicates).
pub open spec fn sorted_zxy(s: Seq<GridPosition>) -> bool {
    forall|i: int, j: int| 0 <= i < j < s.len() ==> zxy_lt(#[trigger] s[i], #[trigger] s[j])
}

/// Distance between two coordinates.
pub open spec fn abs_diff(a: u32, b: u32) -> int {
    if a >= b {
        a - b
    } else {
        b - a
    }
}

/// Distance between the layers of two positions, counted only when both have a layer.
pub open spec fn z_distance(a: GridPosition, b: GridPosition) -> int {
    match (a.z, b.z) {
        (Some(za), Some(zb)) => abs_diff(za, zb),
        _ => 0,
    }
}

/// Manhattan distance between two positions.
pub open spec fn manhattan(a: GridPosition, b: GridPosition) -> int {
    z_distance(a, b) + abs_diff(a.x, b.x) + abs_diff(a.y, b.y)
}

/// Range of layers spanned by a rectangular area, if any corner has a layer.
pub open spec fn rect_layers(upper_left: GridPosition, lower_right: GridPosition) -> Option<(u32, u32)> {
    match (upper_left.z, lower_right.z) {
        (None, None) => None,
        (None, Some(z)) => Some((z, z)),
        (Some(z), None) => Some((z, z)),
        (Some(z1), Some(z2)) => Some((z1, z2)),
    }
}

/// Position lies within the rectangular area spanned by the two corners.
pub open spec fn in_rect(upper_left: GridPosition, lower_right: GridPosition, p: GridPosition) -> bool {
    &&& upper_left.x <= p.x <= lower_right.x
    &&& upper_left.y <= p.y <= lower_right.y
    &&& match rect_layers(upper_left, lower_right) {
        None => p.z is None,
        Some((lo, hi)) => p.z is Some && lo <= p.z->0 <= hi,
    }
}

impl GridPosition {
    #[inline]
    pub fn new_xy(x: u32, y: u32) -> (pos: Self)
        ensures
            pos == (GridPosition { x, y, z: None }),
    {
        Self { x, y, z: None }
    }

    #[inline]
    pub fn new_xyz(x: u32, y: u32, z: u32) -> (pos: Self)
        ensures
            pos == (GridPosition { x, y, z: Some(z) }),
    {
        Self { x, y, z: Some(z) }
    }

    #[inline]
    pub fn x(&self) -> (r: &u32)
        ensures
            *r == self.x,
    {
        &self.x
    }

    #[inline]
    pub fn y(&self) -> (r: &u32)
        ensures
            *r == self.y,
    {
        &self.y
    }

    #[inline]
    pub fn xy(&self) -> (r: (u32, u32))
        ensures
            r == (self.x, self.y),
    {
        (self.x, self.y)
    }

    #[inline]
    pub fn z(&self) -> (r: &Option<u32>)
        ensures
            *r == self.z,
    {
        &self.z
    }

    /// Moves the position by given `x` and `y` offsets.
    pub fn add_xy(&mut self, xy: (u32, u32))
        requires
            old(self).x + xy.0 <= u32::MAX,
            old(self).y + xy.1 <= u32::MAX,
        ensures
            *final(self) == (GridPosition {
                x: (old(self).x + xy.0) as u32,
                y: (old(self).y + xy.1) as u32,
                z: old(self).z,
            }),
    {
        self.x = self.x + xy.0;
        self.y = self.y + xy.1;
    }

    /// Moves the layer of the position by `z`; a position without a layer is left unchanged.
    pub fn add_z(&mut self, z: u32)
        requires
            old(self).z is Some ==> old(self).z->0 + z <= u32::MAX,
        ensures
            *final(self) == (match old(self).z {
                Some(zs) => GridPosition { z: Some((zs + z) as u32), ..*old(self) },
                None => *old(self),
            }),
    {
        if let Some(zs) = self.z {
            self.z = Some(zs + z);
        }
    }

    /// Checks whether the manhattan distance to `other` is at most `range`. Layers count only when both
    /// positions have one.
    pub fn in_range(&self, other: &Self, range: u32) -> (r: bool)
        requires
            z_distance(*self, *other) <= range ==> z_distance(*self, *other) + abs_diff(self.x, other.x)
                <= u32::MAX,
            z_distance(*self, *other) + abs_diff(self.x, other.x) <= range ==> manhattan(*self, *other)
                <= u32::MAX,
        ensures
            r == (manhattan(*self, *other) <= range),
    {
        let mut distance: u32 = 0;

        if let (Some(zl), Some(zr)) = (self.z, other.z) {
            distance = if zl >= zr {
                zl - zr
            } else {
                zr - zl
            };
        }
        if distance > range {
            return false;
        }
        let dx: u32 = if self.x >= other.x {
            self.x - other.x
        } else {
            other.x - self.x
        };
        distance = distance + dx;

        if distance > range {
            return false;
        }
        let dy: u32 = if self.y >= other.y {
            self.y - other.y
        } else {
            other.y - self.y
        };
        distance + dy <= range
    }

    /// All positions within the rectangle spanned by `upper_left` and `lower_right` (inclusive), ordered by
    /// layer first, then `x`, then `y`.
    pub fn generate_rect_area(upper_left: &Self, lower_right: &Self) -> (out: Vec<Self>)
        ensures
            sorted_zxy(out@),
            forall|p: GridPosition| out@.contains(p) <==> in_rect(*upper_left, *lower_right, p),
    {
        let mut out: Vec<GridPosition> = Vec::new();
        let layers: Option<(u32, u32)> = match (upper_left.z, lower_right.z) {
            (None, None) => None,
            (None, Some(z)) => Some((z, z)),
            (Some(z), None) => Some((z, z)),
            (Some(z1), Some(z2)) => Some((z1, z2)),
        };
        match layers {
            None => {
                push_rect_layer(&mut out, upper_left, lower_right, None);
                assert forall|p: GridPosition| out@.contains(p) <==> in_rect(
                    *upper_left,
                    *lower_right,
                    p,
                ) by {
                    if in_rect(*upper_left, *lower_right, p) {
                        assert(layer_cell(*upper_left, *lower_right, None, p));
                    }
                }
            },
            Some((lo, hi)) => {
                let mut z: u64 = lo as u64;
                while z <= hi as u64
                    invariant
                        lo <= z <= hi as u64 + 1 || (z == lo && lo > hi),
                        layers == Some((lo, hi)),
                        rect_layers(*upper_left, *lower_right) == Some((lo, hi)),
                        sorted_zxy(out@),
                        forall|p: GridPosition| #[trigger]
                            out@.contains(p) ==> in_rect(*upper_left, *lower_right, p) && p.z is Some
                                && p.z->0 < z,
                        forall|p: GridPosition|
                            in_rect(*upper_left, *lower_right, p) && p.z->0 < z ==> #[trigger] out@.contains(
                                p,
                            ),
                    decreases hi as u64 + 1 - z,
                {
                    let ghost before = out@;
                    push_rect_layer(&mut out, upper_left, lower_right, Some(z as u32));
                    assert forall|p: GridPosition| #[trigger]
                        out@.contains(p) implies in_rect(*upper_left, *lower_right, p) && p.z is Some
                            && p.z->0 < z + 1 by {
                        if !before.contains(p) {
                            assert(layer_cell(*upper_left, *lower_right, Some(z as u32), p));
                        }
                    }
                    assert forall|p: GridPosition|
                        in_rect(*upper_left, *lower_right, p) && p.z->0 < z + 1 implies #[trigger] out@.contains(
                            p,
                        ) by {
                        if p.z->0 == z {
                            assert(layer_cell(*upper_left, *lower_right, Some(z as u32), p));
                        } else {
                            assert(before.contains(p));
                        }
                    }
                    z = z + 1;
                }
                assert forall|p: GridPosition| out@.contains(p) <==> in_rect(
                    *upper_left,
                    *lower_right,
                    p,
                ) by {
                    if in_rect(*upper_left, *lower_right, p) {
                        assert(p.z->0 < z);
                    }
                }
            },
        }
        out
    }
}

/// Position belongs to the single layer `z` of the rectangle spanned by the corners.
pub open spec fn layer_cell(
    upper_left: GridPosition,
    lower_right: GridPosition,
    z: Option<u32>,
    p: GridPosition,
) -> bool {
    &&& upper_left.x <= p.x <= lower_right.x
    &&& upper_left.y <= p.y <= lower_right.y
    &&& p.z == z
}

/// Appends all positions of one layer of the rectangle, `x` first, then `y`.
fn push_rect_layer(
    out: &mut Vec<GridPosition>,
    upper_left: &GridPosition,
    lower_right: &GridPosition,
    z: Option<u32>,
)
    requires
        sorted_zxy(old(out)@),
        forall|p: GridPosition| #[trigger] old(out)@.contains(p) ==> z_key(p) < z_key(GridPosition { x: 0, y: 0, z }),
    ensures
        sorted_zxy(final(out)@),
        forall|p: GridPosition| #[trigger]
            final(out)@.contains(p) <==> old(out)@.contains(p) || layer_cell(*upper_left, *lower_right, z, p),
{
    let ghost zk = z_key(GridPosition { x: 0, y: 0, z });
    let ghost start = out@;
    assert forall|i: int| 0 <= i < out@.len() implies z_key(#[trigger] out@[i]) < zk by {
        assert(start.contains(start[i]));
    }
    let mut x: u64 = upper_left.x as u64;
    while x <= lower_right.x as u64
        invariant
            upper_left.x <= x,
            x <= lower_right.x as u64 + 1 || x == upper_left.x,
            sorted_zxy(out@),
            forall|p: GridPosition| #[trigger] start.contains(p) ==> z_key(p) < zk,
            zk == z_key(GridPosition { x: 0, y: 0, z }),
            forall|p: GridPosition| #[trigger]
                out@.contains(p) ==> start.contains(p) || (layer_cell(*upper_left, *lower_right, z, p)
                    && p.x < x),
            forall|p: GridPosition|
                start.contains(p) || (layer_cell(*upper_left, *lower_right, z, p) && p.x < x)
                    ==> #[trigger] out@.contains(p),
            forall|i: int|
                0 <= i < out@.len() ==> z_key(#[trigger] out@[i]) < zk || (z_key(out@[i]) == zk
                    && out@[i].x < x),
        decreases lower_right.x as u64 + 1 - x,
    {
        let mut y: u64 = upper_left.y as u64;
        while y <= lower_right.y as u64
            invariant
                upper_left.x <= x <= lower_right.x,
                upper_left.y <= y,
                y <= lower_right.y as u64 + 1 || y == upper_left.y,
                sorted_zxy(out@),
                forall|p: GridPosition| #[trigger] start.contains(p) ==> z_key(p) < zk,
                zk == z_key(GridPosition { x: 0, y: 0, z }),
                forall|p: GridPosition| #[trigger]
                    out@.contains(p) ==> start.contains(p) || (layer_cell(*upper_left, *lower_right, z, p)
                        && (p.x < x || (p.x == x && p.y < y))),
                forall|p: GridPosition|
                    start.contains(p) || (layer_cell(*upper_left, *lower_right, z, p) && (p.x < x || (p.x
                        == x && p.y < y))) ==> #[trigger] out@.contains(p),
                forall|i: int|
                    0 <= i < out@.len() ==> z_key(#[trigger] out@[i]) < zk || (z_key(out@[i]) == zk && (
                    out@[i].x < x || (out@[i].x == x && out@[i].y < y))),
            decreases lower_right.y as u64 + 1 - y,
        {
            let p = GridPosition { x: x as u32, y: y as u32, z };
            let ghost before = out@;
            out.push(p);
            assert forall|q: GridPosition| #[trigger] out@.contains(q) implies start.contains(q) || (
            layer_cell(*upper_left, *lower_right, z, q) && (q.x < x || (q.x == x && q.y < y + 1))) by {
                if q != p {
                    assert(before.contains(q));
                }
            }
            assert forall|q: GridPosition|
                start.contains(q) || (layer_cell(*upper_left, *lower_right, z, q) && (q.x < x || (q.x == x
                    && q.y < y + 1))) implies #[trigger] out@.contains(q) by {
                if q == p {
                    assert(out@[out@.len() - 1] == p);
                } else {
                    assert(before.contains(q));
                    let k = choose|k: int| 0 <= k < before.len() && before[k] == q;
                    assert(out@[k] == q);
                }
            }
            y = y + 1;
        }
        x = x + 1;
    }
}

/// Tile data owned together with its position, before being put into a grid map or after being taken out of it.
#[derive(Debug)]
pub struct GridTile<Data: TileData> {
    position: GridPosition,
    data: Data,
}

impl<Data: TileData> GridTile<Data> {
    pub closed spec fn spec_data(&self) -> Data {
        self.data
    }

    #[inline]
    pub fn new(position: GridPosition, data: Data) -> (tile: Self)
        ensures
            tile.spec_grid_position() == position,
            tile.spec_data() == data,
    {
        Self { position, data }
    }

    pub fn into_inner(self) -> (data: Data)
        ensures
            data == self.spec_data(),
    {
        self.data
    }

    /// Reference to the tile data.
    pub fn inner(&self) -> (data: &Data)
        ensures
            *data == self.spec_data(),
    {
        &self.data
    }
}

impl<Data: TileData> TileContainer for GridTile<Data> {
    closed spec fn spec_grid_position(&self) -> GridPosition {
        self.position
    }

    fn grid_position(&self) -> (pos: GridPosition) {
        self.position
    }
}

/// Reference to the [`TileData`] contained within a grid map, together with its position.
pub struct GridTileRef<'a, Data: TileData> {
    position: GridPosition,
    data: &'a Data,
}

impl<'a, Data: TileData> GridTileRef<'a, Data> {
    pub closed spec fn spec_data(&self) -> Data {
        *self.data
    }

    #[inline]
    pub fn new(position: GridPosition, data: &'a Data) -> (tile: Self)
        ensures
            tile.spec_grid_position() == position,
            tile.spec_data() == *data,
    {
        Self { position, data }
    }

    pub fn inner(&self) -> (data: &Data)
        ensures
            *data == self.spec_data(),
    {
        self.data
    }

    pub(crate) fn maybe_new(position: GridPosition, maybe_data: Option<&'a Data>) -> (r: Option<Self>)
        ensures
            r is Some <==> maybe_data is Some,
            r is Some ==> r->0.spec_grid_position() == position && r->0.spec_data() == *maybe_data->0,
    {
        match maybe_data {
            Some(data) => Some(Self { position, data }),
            None => None,
        }
    }
}

impl<'a, Data: TileData> TileContainer for GridTileRef<'a, Data> {
    closed spec fn spec_grid_position(&self) -> GridPosition {
        self.position
    }

    fn grid_position(&self) -> (pos: GridPosition) {
        self.position
    }
}

/// Mutable reference to the [`TileData`] contained within a grid map, together with its position.
pub struct GridTileRefMut<'a, Data: TileData> {
    pub position: GridPosition,
    pub data: &'a mut Data,
}

impl<'a, Data: TileData> GridTileRefMut<'a, Data> {
    pub open spec fn spec_data(&self) -> Data {
        *self.data
    }

    #[inline]
    pub fn new(position: GridPosition, data: &'a mut Data) -> (tile: Self)
        ensures
            tile.spec_grid_position() == position,
            tile.spec_data() == *old(data),
    {
        Self { position, data }
    }

    pub fn inner(&self) -> (data: &Data)
        ensures
            *data == self.spec_data(),
    {
        self.data
    }

    pub(crate) fn maybe_new(position: GridPosition, maybe_data: Option<&'a mut Data>) -> (r: Option<Self>)
        ensures
            r is Some <==> maybe_data is Some,
            r is Some ==> r->0.spec_grid_position() == position && r->0.spec_data() == *maybe_data->0
                && *final(r->0.data) == *final(maybe_data->0),
    {
        match maybe_data {
            Some(data) => Some(Self { position, data }),
            None => None,
        }
    }

    pub fn inner_mut(&mut self) -> (data: &mut Data)
        ensures
            *data == old(self).spec_data(),
            final(self).spec_grid_position() == old(self).spec_grid_position(),
            final(self).spec_data() == *final(data),
    {
        self.data
    }
}

impl<'a, Data: TileData> TileContainer for GridTileRefMut<'a, Data> {
    closed spec fn spec_grid_position(&self) -> GridPosition {
        self.position
    }

    fn grid_position(&self) -> (pos: GridPosition) {
        self.position
    }
}

} // verus!
