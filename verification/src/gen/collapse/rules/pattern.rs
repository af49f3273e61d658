//! Patterns of tiles for the overlapping collapse algorithm, and their analysis out of sample grid maps.
use vstd::prelude::*;

use std::hash::{DefaultHasher, Hasher};
use vstd::std_specs::hash::DefaultHasherAdditionalSpecFns;

use crate::gen::collapse::singular::analyzer::{as_int_weights, counted};
use crate::id_map::IdMap;
use crate::map::{spec_possible_position, sorted_xyz, tile_at, GridDir, GridMap2D, GridSize};
use crate::tile::identifiable::IdentifiableTileData;
use crate::tile::GridPosition;

verus! {

/// Cell next to `(y, x)` in direction `d` within a `height` × `width` layer, if there is one.
pub open spec fn shifted_cell(d: GridDir, y: int, x: int, height: int, width: int) -> Option<(int, int)> {
    match d {
        GridDir::UP => if y >= 1 {
            Some((y - 1, x))
        } else {
            None
        },
        GridDir::DOWN => if y + 1 < height {
            Some((y + 1, x))
        } else {
            None
        },
        GridDir::LEFT => if x >= 1 {
            Some((y, x - 1))
        } else {
            None
        },
        GridDir::RIGHT => if x + 1 < width {
            Some((y, x + 1))
        } else {
            None
        },
    }
}

/// Bytes of `x`, least significant first.
pub open spec fn le_bytes(x: u64) -> Seq<u8> {
    seq![
        (x & 0xff) as u8,
        ((x >> 8u64) & 0xff) as u8,
        ((x >> 16u64) & 0xff) as u8,
        ((x >> 24u64) & 0xff) as u8,
        ((x >> 32u64) & 0xff) as u8,
        ((x >> 40u64) & 0xff) as u8,
        ((x >> 48u64) & 0xff) as u8,
        ((x >> 56u64) & 0xff) as u8,
    ]
}

/// Writes fed to the hasher for one row of tile types: its length, then each tile type.
pub open spec fn row_writes(row: Seq<u64>) -> Seq<Seq<u8>> {
    seq![le_bytes(row.len() as u64)] + row.map_values(|t: u64| le_bytes(t))
}

/// Writes fed to the hasher for the rows, row after row.
pub open spec fn rows_writes(rows: Seq<Seq<u64>>) -> Seq<Seq<u8>>
    decreases rows.len(),
{
    if rows.len() == 0 {
        Seq::empty()
    } else {
        rows_writes(rows.drop_last()) + row_writes(rows.last())
    }
}

/// Writes fed to the hasher for the layers, layer after layer: each its number of rows, then its rows.
pub open spec fn layers_writes(layers: Seq<Seq<Seq<u64>>>) -> Seq<Seq<u8>>
    decreases layers.len(),
{
    if layers.len() == 0 {
        Seq::empty()
    } else {
        layers_writes(layers.drop_last()) + (seq![le_bytes(layers.last().len() as u64)] + rows_writes(layers.last()))
    }
}

/// Writes fed to the hasher for the tile types of a pattern: the number of layers, then the layers. Lengths and
/// tile types are written as eight bytes, least significant first, whatever the machine.
pub open spec fn pattern_writes(ids: Seq<Seq<Seq<u64>>>) -> Seq<Seq<u8>> {
    seq![le_bytes(ids.len() as u64)] + layers_writes(ids)
}

/// Feeds `x` to the hasher as eight bytes, least significant first.
fn write_u64_le(hasher: &mut DefaultHasher, x: u64)
    ensures
        final(hasher)@ == old(hasher)@.push(le_bytes(x)),
{
    let mut bytes: Vec<u8> = Vec::new();
    bytes.push((x & 0xff) as u8);
    bytes.push(((x >> 8u64) & 0xff) as u8);
    bytes.push(((x >> 16u64) & 0xff) as u8);
    bytes.push(((x >> 24u64) & 0xff) as u8);
    bytes.push(((x >> 32u64) & 0xff) as u8);
    bytes.push(((x >> 40u64) & 0xff) as u8);
    bytes.push(((x >> 48u64) & 0xff) as u8);
    bytes.push(((x >> 56u64) & 0xff) as u8);
    proof {
        assert(bytes@ =~= le_bytes(x));
    }
    hasher.write(bytes.as_slice());
}

/// Feeds the nested tile types to the hasher (see [`pattern_writes`]).
fn write_tile_type_ids(ids: &Vec<Vec<Vec<u64>>>, hasher: &mut DefaultHasher)
    ensures
        final(hasher)@ == old(hasher)@ + pattern_writes(ids@.map_values(|l: Vec<Vec<u64>>| l@.map_values(|r: Vec<u64>| r@))),
{
    let ghost view = ids@.map_values(|l: Vec<Vec<u64>>| l@.map_values(|r: Vec<u64>| r@));
    let ghost start = hasher@;
    write_u64_le(hasher, ids.len() as u64);
    proof {
        assert(view.take(0) =~= Seq::<Seq<Seq<u64>>>::empty());
        assert(hasher@ =~= start + seq![le_bytes(view.len() as u64)] + layers_writes(view.take(0)));
    }
    let mut z: usize = 0;
    while z < ids.len()
        invariant
            z <= ids@.len(),
            view == ids@.map_values(|l: Vec<Vec<u64>>| l@.map_values(|r: Vec<u64>| r@)),
            hasher@ == start + seq![le_bytes(view.len() as u64)] + layers_writes(view.take(z as int)),
        decreases ids@.len() - z,
    {
        let layer = &ids[z];
        let ghost lv = view[z as int];
        let ghost before = hasher@;
        write_u64_le(hasher, layer.len() as u64);
        proof {
            assert(lv.take(0) =~= Seq::<Seq<u64>>::empty());
            assert(hasher@ =~= before + seq![le_bytes(lv.len() as u64)] + rows_writes(lv.take(0)));
        }
        let mut y: usize = 0;
        while y < layer.len()
            invariant
                y <= layer@.len(),
                lv == layer@.map_values(|r: Vec<u64>| r@),
                hasher@ == before + seq![le_bytes(lv.len() as u64)] + rows_writes(lv.take(y as int)),
            decreases layer@.len() - y,
        {
            let row = &layer[y];
            let ghost rv = row@;
            let ghost before_row = hasher@;
            write_u64_le(hasher, row.len() as u64);
            let mut x: usize = 0;
            while x < row.len()
                invariant
                    x <= row@.len(),
                    rv == row@,
                    hasher@ == before_row + seq![le_bytes(rv.len() as u64)] + rv.take(x as int).map_values(|t: u64| le_bytes(t)),
                decreases row@.len() - x,
            {
                write_u64_le(hasher, row[x]);
                proof {
                    assert(rv.take(x + 1).map_values(|t: u64| le_bytes(t)) =~= rv.take(x as int).map_values(
                        |t: u64| le_bytes(t),
                    ).push(le_bytes(rv[x as int])));
                }
                x = x + 1;
            }
            proof {
                assert(rv.take(x as int) =~= rv);
                assert(lv.take(y + 1).drop_last() =~= lv.take(y as int));
                assert(lv.take(y + 1).last() == rv);
                assert(hasher@ =~= before + seq![le_bytes(lv.len() as u64)] + rows_writes(lv.take(y + 1)));
            }
            y = y + 1;
        }
        proof {
            assert(lv.take(y as int) =~= lv);
            assert(view.take(z + 1).drop_last() =~= view.take(z as int));
            assert(view.take(z + 1).last() == lv);
            assert(hasher@ =~= start + seq![le_bytes(view.len() as u64)] + layers_writes(view.take(z + 1)));
        }
        z = z + 1;
    }
    proof {
        assert(view.take(z as int) =~= view);
    }
}

/// Pattern of tiles for the overlapping collapse algorithm: the tile types of a `W` × `H` × `D` block of a grid
/// map, identified by `pattern_id` and standing for the type of its first tile.
#[derive(Debug)]
pub struct Pattern<const W: usize, const H: usize, const D: usize> {
    pattern_id: u64,
    tile_type_id: u64,
    tile_type_ids: Vec<Vec<Vec<u64>>>,
}

impl<const W: usize, const H: usize, const D: usize> Pattern<W, H, D> {
    #[verifier::type_invariant]
    closed spec fn inv(&self) -> bool {
        &&& self.tile_type_ids@.len() == D
        &&& forall|z: int| 0 <= z < D ==> (#[trigger] self.tile_type_ids@[z])@.len() == H
        &&& forall|z: int, y: int|
            0 <= z < D && 0 <= y < H ==> (#[trigger] self.tile_type_ids@[z]@[y])@.len() == W
    }

    /// Tile type at layer `z`, row `y` and column `x` of the pattern.
    pub closed spec fn id_at(&self, z: int, y: int, x: int) -> u64 {
        self.tile_type_ids@[z]@[y]@[x]
    }

    /// Tile types of the pattern, as layers of rows.
    pub closed spec fn ids_view(&self) -> Seq<Seq<Seq<u64>>> {
        self.tile_type_ids@.map_values(|l: Vec<Vec<u64>>| l@.map_values(|r: Vec<u64>| r@))
    }

    pub closed spec fn spec_pattern_id(&self) -> u64 {
        self.pattern_id
    }

    pub closed spec fn spec_tile_type_id(&self) -> u64 {
        self.tile_type_id
    }

    /// Pattern with the given identifiers and tile types.
    pub fn from_tile_type_ids(pattern_id: u64, tile_type_id: u64, tile_type_ids: [[[u64; W]; H]; D]) -> (p: Self)
        ensures
            p.spec_pattern_id() == pattern_id,
            p.spec_tile_type_id() == tile_type_id,
            forall|z: int, y: int, x: int|
                0 <= z < D && 0 <= y < H && 0 <= x < W ==> #[trigger] p.id_at(z, y, x) == tile_type_ids@[z]@[y]@[x],
    {
        let mut layers: Vec<Vec<Vec<u64>>> = Vec::new();
        let mut z: usize = 0;
        while z < D
            invariant
                z <= D,
                layers@.len() == z,
                forall|i: int| 0 <= i < z ==> (#[trigger] layers@[i])@.len() == H,
                forall|i: int, y: int| 0 <= i < z && 0 <= y < H ==> (#[trigger] layers@[i]@[y])@.len() == W,
                forall|i: int, y: int, x: int|
                    0 <= i < z && 0 <= y < H && 0 <= x < W ==> #[trigger] layers@[i]@[y]@[x] == tile_type_ids@[i]@[y]@[x],
            decreases D - z,
        {
            let mut rows: Vec<Vec<u64>> = Vec::new();
            let mut y: usize = 0;
            while y < H
                invariant
                    z < D,
                    y <= H,
                    rows@.len() == y,
                    forall|j: int| 0 <= j < y ==> (#[trigger] rows@[j])@.len() == W,
                    forall|j: int, x: int| 0 <= j < y && 0 <= x < W ==> #[trigger] rows@[j]@[x] == tile_type_ids@[z as int]@[j]@[x],
                decreases H - y,
            {
                let mut row: Vec<u64> = Vec::new();
                let mut x: usize = 0;
                while x < W
                    invariant
                        z < D,
                        y < H,
                        x <= W,
                        row@.len() == x,
                        forall|k: int| 0 <= k < x ==> #[trigger] row@[k] == tile_type_ids@[z as int]@[y as int]@[k],
                    decreases W - x,
                {
                    row.push(tile_type_ids[z][y][x]);
                    x = x + 1;
                }
                rows.push(row);
                y = y + 1;
            }
            layers.push(rows);
            z = z + 1;
        }
        Pattern { pattern_id, tile_type_id, tile_type_ids: layers }
    }

    /// Pattern of tile type `0` everywhere, with identifiers `0`.
    pub fn new() -> (p: Self)
        ensures
            p.spec_pattern_id() == 0,
            p.spec_tile_type_id() == 0,
            forall|z: int, y: int, x: int| 0 <= z < D && 0 <= y < H && 0 <= x < W ==> #[trigger] p.id_at(z, y, x) == 0,
    {
        let mut layers: Vec<Vec<Vec<u64>>> = Vec::new();
        let mut z: usize = 0;
        while z < D
            invariant
                z <= D,
                layers@.len() == z,
                forall|i: int| 0 <= i < z ==> (#[trigger] layers@[i])@.len() == H,
                forall|i: int, y: int| 0 <= i < z && 0 <= y < H ==> (#[trigger] layers@[i]@[y])@.len() == W,
                forall|i: int, y: int, x: int| 0 <= i < z && 0 <= y < H && 0 <= x < W ==> #[trigger] layers@[i]@[y]@[x] == 0,
            decreases D - z,
        {
            let mut rows: Vec<Vec<u64>> = Vec::new();
            let mut y: usize = 0;
            while y < H
                invariant
                    y <= H,
                    rows@.len() == y,
                    forall|j: int| 0 <= j < y ==> (#[trigger] rows@[j])@.len() == W,
                    forall|j: int, x: int| 0 <= j < y && 0 <= x < W ==> #[trigger] rows@[j]@[x] == 0,
                decreases H - y,
            {
                let mut row: Vec<u64> = Vec::new();
                let mut x: usize = 0;
                while x < W
                    invariant
                        x <= W,
                        row@.len() == x,
                        forall|k: int| 0 <= k < x ==> #[trigger] row@[k] == 0,
                    decreases W - x,
                {
                    row.push(0);
                    x = x + 1;
                }
                rows.push(row);
                y = y + 1;
            }
            layers.push(rows);
            z = z + 1;
        }
        Pattern { pattern_id: 0, tile_type_id: 0, tile_type_ids: layers }
    }

    /// Tile type at layer `z`, row `y` and column `x`.
    pub fn get_id(&self, z: usize, y: usize, x: usize) -> (id: u64)
        requires
            z < D,
            y < H,
            x < W,
        ensures
            id == self.id_at(z as int, y as int, x as int),
    {
        proof {
            use_type_invariant(self);
        }
        self.tile_type_ids[z][y][x]
    }

    /// Identifier of the pattern.
    pub(crate) fn pattern_id(&self) -> (id: u64)
        ensures
            id == self.spec_pattern_id(),
    {
        self.pattern_id
    }

    /// Type of the tile the pattern stands for.
    pub(crate) fn tile_type_id(&self) -> (id: u64)
        ensures
            id == self.spec_tile_type_id(),
    {
        self.tile_type_id
    }

    /// Hash of the tile types of the pattern.
    pub(crate) fn ids_hash(&self) -> (h: u64)
        ensures
            h == ids_pattern_id(self.ids_view()),
    {
        let mut hasher = DefaultHasher::new();
        write_tile_type_ids(&self.tile_type_ids, &mut hasher);
        hasher.finish()
    }

    /// Each tile of this pattern equals the tile of `other` next to it in direction `d` within the pattern: the
    /// pattern fits over `other` shifted one tile in the direction.
    pub open spec fn spec_compatible(&self, other: &Self, d: GridDir) -> bool {
        forall|z: int, y: int, x: int|
            #![trigger self.id_at(z, y, x)]
            0 <= z < D && 0 <= y < H && 0 <= x < W ==> match shifted_cell(d, y, x, H as int, W as int) {
                Some(cell) => self.id_at(z, y, x) == other.id_at(z, cell.0, cell.1),
                None => true,
            }
    }

    /// Checks whether the pattern fits over `other` shifted one tile in `direction`.
    pub fn is_compatible_with(&self, other: &Self, direction: GridDir) -> (r: bool)
        ensures
            r == self.spec_compatible(other, direction),
    {
        let mut z: usize = 0;
        while z < D
            invariant
                z <= D,
                forall|i: int, y: int, x: int|
                    #![trigger self.id_at(i, y, x)]
                    0 <= i < z && 0 <= y < H && 0 <= x < W ==> match shifted_cell(direction, y, x, H as int, W as int) {
                        Some(cell) => self.id_at(i, y, x) == other.id_at(i, cell.0, cell.1),
                        None => true,
                    },
            decreases D - z,
        {
            let mut y: usize = 0;
            while y < H
                invariant
                    z < D,
                    y <= H,
                    forall|i: int, j: int, x: int|
                        #![trigger self.id_at(i, j, x)]
                        0 <= i < z && 0 <= j < H && 0 <= x < W ==> match shifted_cell(direction, j, x, H as int, W as int) {
                            Some(cell) => self.id_at(i, j, x) == other.id_at(i, cell.0, cell.1),
                            None => true,
                        },
                    forall|j: int, x: int|
                        #![trigger self.id_at(z as int, j, x)]
                        0 <= j < y && 0 <= x < W ==> match shifted_cell(direction, j, x, H as int, W as int) {
                            Some(cell) => self.id_at(z as int, j, x) == other.id_at(z as int, cell.0, cell.1),
                            None => true,
                        },
                decreases H - y,
            {
                let mut x: usize = 0;
                while x < W
                    invariant
                        z < D,
                        y < H,
                        x <= W,
                        forall|i: int, j: int, k: int|
                            #![trigger self.id_at(i, j, k)]
                            0 <= i < z && 0 <= j < H && 0 <= k < W ==> match shifted_cell(direction, j, k, H as int, W as int) {
                                Some(cell) => self.id_at(i, j, k) == other.id_at(i, cell.0, cell.1),
                                None => true,
                            },
                        forall|j: int, k: int|
                            #![trigger self.id_at(z as int, j, k)]
                            0 <= j < y && 0 <= k < W ==> match shifted_cell(direction, j, k, H as int, W as int) {
                                Some(cell) => self.id_at(z as int, j, k) == other.id_at(z as int, cell.0, cell.1),
                                None => true,
                            },
                        forall|k: int|
                            #![trigger self.id_at(z as int, y as int, k)]
                            0 <= k < x ==> match shifted_cell(direction, y as int, k, H as int, W as int) {
                                Some(cell) => self.id_at(z as int, y as int, k) == other.id_at(z as int, cell.0, cell.1),
                                None => true,
                            },
                    decreases W - x,
                {
                    let here = self.get_id(z, y, x);
                    let there = match direction {
                        GridDir::UP => if y >= 1 {
                            Some(other.get_id(z, y - 1, x))
                        } else {
                            None
                        },
                        GridDir::DOWN => if y + 1 < H {
                            Some(other.get_id(z, y + 1, x))
                        } else {
                            None
                        },
                        GridDir::LEFT => if x >= 1 {
                            Some(other.get_id(z, y, x - 1))
                        } else {
                            None
                        },
                        GridDir::RIGHT => if x + 1 < W {
                            Some(other.get_id(z, y, x + 1))
                        } else {
                            None
                        },
                    };
                    match there {
                        Some(id) => {
                            if here != id {
                                return false;
                            }
                        },
                        None => {},
                    }
                    x = x + 1;
                }
                y = y + 1;
            }
            z = z + 1;
        }
        true
    }
}

/// Pattern of two-dimensional grids.
pub type Pattern2D<const W: usize, const H: usize> = Pattern<W, H, 1>;

/// Tile type at layer `z`, row `y` and column `x` of the block of `map` starting at `anchor`: the type of the tile
/// there on the first layer (`0` where there is none), `0` on the other layers.
pub open spec fn extracted_id<Data: IdentifiableTileData>(
    map: GridMap2D<Data>,
    anchor: GridPosition,
    z: int,
    y: int,
    x: int,
) -> u64 {
    if z == 0 {
        match tile_at(map, GridPosition { x: (anchor.x + x) as u32, y: (anchor.y + y) as u32, z: anchor.z }) {
            Some(t) => t.spec_tile_type_id(),
            None => 0,
        }
    } else {
        0
    }
}

/// Tile types of the block of `map` starting at `anchor`, as layers of rows.
pub open spec fn extracted_ids<Data: IdentifiableTileData>(
    map: GridMap2D<Data>,
    anchor: GridPosition,
    w: int,
    h: int,
    d: int,
) -> Seq<Seq<Seq<u64>>> {
    Seq::new(d as nat, |z: int| Seq::new(h as nat, |y: int| Seq::new(w as nat, |x: int| extracted_id(map, anchor, z, y, x))))
}

/// Identifier of the pattern with the given tile types: the hash of the tile types (see [`pattern_writes`]).
pub open spec fn ids_pattern_id(ids: Seq<Seq<Seq<u64>>>) -> u64 {
    DefaultHasher::spec_finish(Seq::<Seq<u8>>::empty() + pattern_writes(ids))
}

/// A `w` × `h` block starting at `anchor` lies within `size`.
pub open spec fn block_fits(size: GridSize, anchor: GridPosition, w: int, h: int) -> bool {
    anchor.x + w - 1 < size.x && anchor.y + h - 1 < size.y
}

impl<const W: usize, const H: usize, const D: usize> Pattern<W, H, D> {
    /// The pattern is that of a block lying within `map`: its tile types are those of the block and its
    /// identifier their hash.
    pub open spec fn is_block_of<Data: IdentifiableTileData>(&self, map: GridMap2D<Data>) -> bool {
        exists|a: GridPosition|
            #![trigger extracted_ids(map, a, W as int, H as int, D as int)]
            spec_possible_position(map.spec_size(), a) && block_fits(map.spec_size(), a, W as int, H as int)
                && self.ids_view() == extracted_ids(map, a, W as int, H as int, D as int)
                && self.spec_pattern_id() == anchor_pattern_id(map, a, W as int, H as int, D as int)
    }

    /// Copy of the pattern.
    pub fn duplicate(&self) -> (p: Self)
        ensures
            p.spec_pattern_id() == self.spec_pattern_id(),
            p.spec_tile_type_id() == self.spec_tile_type_id(),
            p.ids_view() == self.ids_view(),
            forall|z: int, y: int, x: int|
                0 <= z < D && 0 <= y < H && 0 <= x < W ==> #[trigger] p.id_at(z, y, x) == self.id_at(z, y, x),
    {
        proof {
            use_type_invariant(self);
        }
        let mut layers: Vec<Vec<Vec<u64>>> = Vec::new();
        let mut z: usize = 0;
        while z < D
            invariant
                z <= D,
                self.tile_type_ids@.len() == D,
                forall|i: int| 0 <= i < D ==> (#[trigger] self.tile_type_ids@[i])@.len() == H,
                forall|i: int, y: int| 0 <= i < D && 0 <= y < H ==> (#[trigger] self.tile_type_ids@[i]@[y])@.len() == W,
                layers@.len() == z,
                forall|i: int| 0 <= i < z ==> (#[trigger] layers@[i])@.len() == H,
                forall|i: int, y: int| 0 <= i < z && 0 <= y < H ==> (#[trigger] layers@[i]@[y])@ == self.tile_type_ids@[i]@[y]@,
            decreases D - z,
        {
            let mut rows: Vec<Vec<u64>> = Vec::new();
            let mut y: usize = 0;
            while y < H
                invariant
                    z < D,
                    y <= H,
                    self.tile_type_ids@.len() == D,
                    forall|i: int| 0 <= i < D ==> (#[trigger] self.tile_type_ids@[i])@.len() == H,
                    rows@.len() == y,
                    forall|j: int| 0 <= j < y ==> (#[trigger] rows@[j])@ == self.tile_type_ids@[z as int]@[j]@,
                decreases H - y,
            {
                rows.push(crate::gen::collapse::copy_ids(self.tile_type_ids[z][y].as_slice()));
                y = y + 1;
            }
            layers.push(rows);
            z = z + 1;
        }
        let p = Pattern { pattern_id: self.pattern_id, tile_type_id: self.tile_type_id, tile_type_ids: layers };
        proof {
            assert forall|i: int| 0 <= i < D implies (#[trigger] p.tile_type_ids@[i])@.map_values(|r: Vec<u64>| r@)
                =~= self.tile_type_ids@[i]@.map_values(|r: Vec<u64>| r@) by {}
            assert(p.ids_view() =~= self.ids_view());
            assert forall|z: int, y: int, x: int|
                0 <= z < D && 0 <= y < H && 0 <= x < W implies #[trigger] p.id_at(z, y, x) == self.id_at(z, y, x) by {
                assert(p.tile_type_ids@[z]@[y]@ == self.tile_type_ids@[z]@[y]@);
            }
        }
        p
    }
}

/// Analyzer collecting the patterns occurring in sample grid maps, with their counts.
#[derive(Debug)]
pub struct OverlappingAnalyzer<Data: IdentifiableTileData, P> {
    pattern_counts: IdMap<u32>,
    patterns: Vec<P>,
    tile_type: std::marker::PhantomData<Data>,
}

/// Rules of the overlapping collapse algorithm: the patterns standing for each tile type, and the weight of
/// each pattern.
#[derive(Debug)]
pub struct PatternRules<P> {
    pattern_by_option: IdMap<Vec<P>>,
    pattern_weights: IdMap<u32>,
}

/// `p` is a copy of `q`: the same identifier, main tile type and tile types.
pub open spec fn copy_of<const W: usize, const H: usize, const D: usize>(p: Pattern<W, H, D>, q: Pattern<W, H, D>) -> bool {
    &&& p.spec_pattern_id() == q.spec_pattern_id()
    &&& p.spec_tile_type_id() == q.spec_tile_type_id()
    &&& p.ids_view() == q.ids_view()
}

impl<const W: usize, const H: usize, const D: usize> PatternRules<Pattern<W, H, D>> {
    /// Patterns standing for each tile type.
    pub closed spec fn spec_patterns_by_option(&self) -> Map<u64, Seq<Pattern<W, H, D>>> {
        Map::new(|t: u64| self.pattern_by_option@.contains_key(t), |t: u64| self.pattern_by_option@[t]@)
    }

    /// Weight of each pattern.
    pub closed spec fn spec_weights(&self) -> Map<u64, u32> {
        self.pattern_weights@
    }
}

impl<Data: IdentifiableTileData, const W: usize, const H: usize, const D: usize> OverlappingAnalyzer<
    Data,
    Pattern<W, H, D>,
> {
    /// Count of each pattern, by its identifier.
    pub closed spec fn counts(&self) -> Map<u64, u32> {
        self.pattern_counts@
    }

    /// The patterns found, each once.
    pub closed spec fn found(&self) -> Seq<Pattern<W, H, D>> {
        self.patterns@
    }

    /// Each found pattern is counted, and each counted identifier belongs to exactly one found pattern.
    pub open spec fn consistent(&self) -> bool {
        &&& forall|i: int| 0 <= i < self.found().len() ==> self.counts().contains_key(#[trigger] self.found()[i].spec_pattern_id())
        &&& forall|t: u64| self.counts().contains_key(t) ==> exists|i: int| 0 <= i < self.found().len() && #[trigger] self.found()[i].spec_pattern_id() == t
        &&& forall|i: int, j: int| 0 <= i < j < self.found().len() ==> (#[trigger] self.found()[i]).spec_pattern_id() != (#[trigger] self.found()[j]).spec_pattern_id()
    }

    /// Analyzer that has found nothing.
    pub fn new() -> (a: Self)
        ensures
            a.counts() == Map::<u64, u32>::empty(),
            a.found() == Seq::<Pattern<W, H, D>>::empty(),
            a.consistent(),
    {
        Self { pattern_counts: IdMap::new(), patterns: Vec::new(), tile_type: std::marker::PhantomData }
    }

    /// Counts of the patterns, by identifier.
    pub fn pattern_counts(&self) -> (c: &IdMap<u32>)
        ensures
            c@ == self.counts(),
    {
        &self.pattern_counts
    }
}

/// Pattern of the block of `map` starting at `anchor`, if the block lies within the map.
pub(crate) fn create_pattern<Data: IdentifiableTileData, const W: usize, const H: usize, const D: usize>(
    map: &GridMap2D<Data>,
    anchor: &GridPosition,
) -> (r: Option<Pattern<W, H, D>>)
    requires
        W >= 1,
        H >= 1,
        D >= 1,
        anchor.x + W - 1 <= u32::MAX,
        anchor.y + H - 1 <= u32::MAX,
    ensures
        r is Some <==> block_fits(map.spec_size(), *anchor, W as int, H as int),
        r matches Some(p) ==> p.ids_view() == extracted_ids(*map, *anchor, W as int, H as int, D as int)
            && p.spec_pattern_id() == ids_pattern_id(p.ids_view()) && p.spec_tile_type_id() == extracted_id(
            *map,
            *anchor,
            0,
            0,
            0,
        ),
{
    let size = map.size();
    if !(anchor.x as u64 + (W as u64 - 1) < size.x as u64 && anchor.y as u64 + (H as u64 - 1) < size.y as u64) {
        return None;
    }
    let ghost target = extracted_ids(*map, *anchor, W as int, H as int, D as int);
    let mut layers: Vec<Vec<Vec<u64>>> = Vec::new();
    let mut z: usize = 0;
    while z < D
        invariant
            z <= D,
            block_fits(map.spec_size(), *anchor, W as int, H as int),
            anchor.x + W - 1 <= u32::MAX,
            anchor.y + H - 1 <= u32::MAX,
            target == extracted_ids(*map, *anchor, W as int, H as int, D as int),
            layers@.len() == z,
            forall|i: int| 0 <= i < z ==> (#[trigger] layers@[i])@.len() == H,
            forall|i: int, y: int| 0 <= i < z && 0 <= y < H ==> (#[trigger] layers@[i]@[y])@ == target[i][y],
        decreases D - z,
    {
        let mut rows: Vec<Vec<u64>> = Vec::new();
        let mut y: usize = 0;
        while y < H
            invariant
                z < D,
                y <= H,
                block_fits(map.spec_size(), *anchor, W as int, H as int),
                anchor.x + W - 1 <= u32::MAX,
                anchor.y + H - 1 <= u32::MAX,
                target == extracted_ids(*map, *anchor, W as int, H as int, D as int),
                rows@.len() == y,
                forall|j: int| 0 <= j < y ==> (#[trigger] rows@[j])@ == target[z as int][j],
            decreases H - y,
        {
            let mut row: Vec<u64> = Vec::new();
            let mut x: usize = 0;
            while x < W
                invariant
                    z < D,
                    y < H,
                    x <= W,
                    anchor.x + W - 1 <= u32::MAX,
                    anchor.y + H - 1 <= u32::MAX,
                    target == extracted_ids(*map, *anchor, W as int, H as int, D as int),
                    row@.len() == x,
                    forall|k: int| 0 <= k < x ==> #[trigger] row@[k] == target[z as int][y as int][k],
                decreases W - x,
            {
                let id = if z == 0 {
                    let pos = GridPosition { x: anchor.x + x as u32, y: anchor.y + y as u32, z: anchor.z };
                    match map.get_tile_at_position(&pos) {
                        Some(tile) => tile.inner().tile_type_id(),
                        None => 0,
                    }
                } else {
                    0
                };
                row.push(id);
                x = x + 1;
            }
            proof {
                assert(row@ =~= target[z as int][y as int]);
            }
            rows.push(row);
            y = y + 1;
        }
        proof {
            assert forall|j: int| 0 <= j < H implies (#[trigger] rows@[j])@ == target[z as int][j] by {}
        }
        layers.push(rows);
        z = z + 1;
    }
    let mut hasher = DefaultHasher::new();
    write_tile_type_ids(&layers, &mut hasher);
    let pattern_id = hasher.finish();
    let tile_type_id = layers[0][0][0];
    let p = Pattern { pattern_id, tile_type_id, tile_type_ids: layers };
    proof {
        assert forall|i: int| 0 <= i < D implies (#[trigger] p.tile_type_ids@[i])@.map_values(|r: Vec<u64>| r@)
            =~= target[i] by {
            assert forall|j: int| 0 <= j < H implies (#[trigger] p.tile_type_ids@[i]@[j])@ == target[i][j] by {}
        }
        assert(p.ids_view() =~= target);
    }
    Some(p)
}

/// Identifier of the pattern of the block of `map` starting at `anchor`.
pub open spec fn anchor_pattern_id<Data: IdentifiableTileData>(
    map: GridMap2D<Data>,
    anchor: GridPosition,
    w: int,
    h: int,
    d: int,
) -> u64 {
    ids_pattern_id(extracted_ids(map, anchor, w, h, d))
}

/// Identifiers of the patterns of the blocks of `map` starting at those of `anchors` where a block fits, in
/// their order.
pub open spec fn fitting_ids<Data: IdentifiableTileData>(
    map: GridMap2D<Data>,
    anchors: Seq<GridPosition>,
    w: int,
    h: int,
    d: int,
) -> Seq<u64>
    decreases anchors.len(),
{
    if anchors.len() == 0 {
        Seq::empty()
    } else {
        let earlier = fitting_ids(map, anchors.drop_last(), w, h, d);
        if block_fits(map.spec_size(), anchors.last(), w, h) {
            earlier.push(anchor_pattern_id(map, anchors.last(), w, h, d))
        } else {
            earlier
        }
    }
}

/// Listing of the positions a grid of given size can hold, as produced by
/// [`get_all_possible_positions`](GridSize::get_all_possible_positions).
pub open spec fn possible_listing(size: GridSize, s: Seq<GridPosition>) -> bool {
    &&& sorted_xyz(s)
    &&& forall|p: GridPosition| #[trigger] s.contains(p) <==> spec_possible_position(size, p)
}

impl<Data: IdentifiableTileData, const W: usize, const H: usize, const D: usize> OverlappingAnalyzer<
    Data,
    Pattern<W, H, D>,
> {
    /// Counting the patterns of the map cannot overflow.
    pub open spec fn can_analyze(&self, map: GridMap2D<Data>) -> bool {
        forall|s: Seq<GridPosition>, t: u64|
            possible_listing(map.spec_size(), s) && #[trigger] counted(
                as_int_weights(self.counts()),
                fitting_ids(map, s, W as int, H as int, D as int),
            ).contains_key(t) ==> counted(as_int_weights(self.counts()), fitting_ids(map, s, W as int, H as int, D as int))[t]
                <= u32::MAX
    }

    /// Counts the pattern of each block of the map (in the order of its possible positions), keeping each newly
    /// found pattern.
    pub fn analyze_map(&mut self, map: &GridMap2D<Data>)
        requires
            W >= 1,
            H >= 1,
            D >= 1,
            forall|p: GridPosition|
                #[trigger] spec_possible_position(map.spec_size(), p) ==> p.x + W - 1 <= u32::MAX && p.y + H - 1 <= u32::MAX,
            old(self).consistent(),
            old(self).can_analyze(*map),
        ensures
            final(self).consistent(),
            exists|s: Seq<GridPosition>|
                possible_listing(map.spec_size(), s) && as_int_weights(final(self).counts()) == counted(
                    as_int_weights(old(self).counts()),
                    #[trigger] fitting_ids(*map, s, W as int, H as int, D as int),
                ),
            final(self).found().len() >= old(self).found().len(),
            final(self).found().take(old(self).found().len() as int) == old(self).found(),
            forall|i: int|
                old(self).found().len() <= i < final(self).found().len() ==> (#[trigger] final(self).found()[i]).is_block_of(*map),
    {
        let size = *map.size();
        let positions = size.get_all_possible_positions();
        let ghost start = as_int_weights(self.pattern_counts@);
        let ghost start_found = self.patterns@;
        let ghost all = fitting_ids(*map, positions@, W as int, H as int, D as int);
        proof {
            assert forall|t: u64| #[trigger] counted(start, all).contains_key(t) implies counted(start, all)[t] <= u32::MAX by {
                assert(possible_listing(map.spec_size(), positions@));
                assert(counted(as_int_weights(old(self).counts()), fitting_ids(*map, positions@, W as int, H as int, D as int)).contains_key(t));
            }
            assert(positions@.take(0) =~= Seq::<GridPosition>::empty());
            assert(as_int_weights(self.pattern_counts@) =~= start);
        }
        let mut k: usize = 0;
        while k < positions.len()
            invariant
                k <= positions@.len(),
                W >= 1,
                H >= 1,
                D >= 1,
                size == map.spec_size(),
                forall|p: GridPosition|
                    #[trigger] spec_possible_position(map.spec_size(), p) ==> p.x + W - 1 <= u32::MAX && p.y + H - 1 <= u32::MAX,
                possible_listing(map.spec_size(), positions@),
                all == fitting_ids(*map, positions@, W as int, H as int, D as int),
                forall|t: u64| #[trigger] counted(start, all).contains_key(t) ==> counted(start, all)[t] <= u32::MAX,
                as_int_weights(self.pattern_counts@) == counted(start, fitting_ids(*map, positions@.take(k as int), W as int, H as int, D as int)),
                self.consistent(),
                self.patterns@.len() >= start_found.len(),
                self.patterns@.take(start_found.len() as int) == start_found,
                forall|i: int| start_found.len() <= i < self.patterns@.len() ==> (#[trigger] self.patterns@[i]).is_block_of(*map),
            decreases positions@.len() - k,
        {
            let anchor = positions[k];
            proof {
                assert(positions@.contains(anchor));
                assert(positions@.take(k + 1).drop_last() =~= positions@.take(k as int));
                lemma_fitting_prefix::<Data, W, H, D>(*map, positions@, k as int + 1);
            }
            let ghost before = as_int_weights(self.pattern_counts@);
            let ghost counts_before = self.pattern_counts@;
            let ghost found_before = self.patterns@;
            proof {
                assert forall|i: int| 0 <= i < found_before.len() implies counts_before.contains_key(
                    #[trigger] found_before[i].spec_pattern_id(),
                ) by {
                    assert(found_before[i] == self.found()[i]);
                }
                assert forall|t: u64| counts_before.contains_key(t) implies exists|i: int|
                    0 <= i < found_before.len() && #[trigger] found_before[i].spec_pattern_id() == t by {
                    assert(self.counts().contains_key(t));
                    let i = choose|i: int| 0 <= i < self.found().len() && #[trigger] self.found()[i].spec_pattern_id() == t;
                    assert(found_before[i] == self.found()[i]);
                }
            }
            match create_pattern::<Data, W, H, D>(map, &anchor) {
                Some(pattern) => {
                    let id = pattern.pattern_id;
                    let ghost prefix = fitting_ids(*map, positions@.take(k + 1), W as int, H as int, D as int);
                    proof {
                        assert(prefix == fitting_ids(*map, positions@.take(k as int), W as int, H as int, D as int).push(id));
                        lemma_fitting_is_prefix::<Data, W, H, D>(*map, positions@, k as int + 1);
                        assert(all =~= prefix + all.skip(prefix.len() as int));
                        crate::gen::collapse::singular::analyzer::lemma_counted_prefix(start, prefix, all.skip(prefix.len() as int), id);
                        assert(prefix.drop_last() =~= fitting_ids(*map, positions@.take(k as int), W as int, H as int, D as int));
                        assert(counted(start, prefix).contains_key(id));
                        assert(counted(start, prefix)[id] <= u32::MAX);
                        assert(before.contains_key(id) ==> counted(start, prefix)[id] == before[id] + 1);
                        assert(!before.contains_key(id) ==> counted(start, prefix)[id] == 1);
                    }
                    match self.pattern_counts.get(id) {
                        Some(count) => {
                            let n = *count + 1;
                            self.pattern_counts.insert(id, n);
                            proof {
                                assert(self.patterns@ == found_before);
                                assert forall|t: u64| #[trigger] self.counts().contains_key(t) <==> counts_before.contains_key(t) by {}
                            }
                        },
                        None => {
                            self.pattern_counts.insert(id, 1);
                            self.patterns.push(pattern);
                            proof {
                                let q = self.patterns@[found_before.len() as int];
                                assert(q.ids_view() == extracted_ids(*map, anchor, W as int, H as int, D as int));
                                assert(q.spec_pattern_id() == anchor_pattern_id(*map, anchor, W as int, H as int, D as int));
                                assert(q.spec_pattern_id() == id);
                                assert(spec_possible_position(map.spec_size(), anchor));
                                assert(q.is_block_of(*map));
                                assert forall|i: int| 0 <= i < self.found().len() implies self.counts().contains_key(
                                    #[trigger] self.found()[i].spec_pattern_id(),
                                ) by {
                                    if i < found_before.len() {
                                        assert(self.patterns@[i] == found_before[i]);
                                        assert(counts_before.contains_key(found_before[i].spec_pattern_id()));
                                    }
                                }
                                assert forall|t: u64| self.counts().contains_key(t) implies exists|i: int|
                                    0 <= i < self.found().len() && #[trigger] self.found()[i].spec_pattern_id() == t by {
                                    if t == id {
                                        assert(self.found()[found_before.len() as int].spec_pattern_id() == t);
                                    } else {
                                        assert(counts_before.contains_key(t));
                                        assert(exists|i: int| 0 <= i < found_before.len() && #[trigger] found_before[i].spec_pattern_id() == t);
                                        let i = choose|i: int| 0 <= i < found_before.len() && #[trigger] found_before[i].spec_pattern_id() == t;
                                        assert(self.patterns@[i] == found_before[i]);
                                        assert(self.found()[i].spec_pattern_id() == t);
                                    }
                                }
                                assert forall|i: int, j: int| 0 <= i < j < self.found().len() implies (#[trigger] self.found()[i]).spec_pattern_id()
                                    != (#[trigger] self.found()[j]).spec_pattern_id() by {
                                    assert(self.patterns@[i] == found_before[i]);
                                    if j < found_before.len() {
                                        assert(self.patterns@[j] == found_before[j]);
                                    } else {
                                        assert(counts_before.contains_key(found_before[i].spec_pattern_id()));
                                    }
                                }
                            }
                        },
                    }
                    proof {
                        assert(as_int_weights(self.pattern_counts@) =~= counted(start, prefix));
                    }
                },
                None => {
                    proof {
                        assert(fitting_ids(*map, positions@.take(k + 1), W as int, H as int, D as int)
                            == fitting_ids(*map, positions@.take(k as int), W as int, H as int, D as int));
                    }
                },
            }
            k = k + 1;
            proof {
                assert(self.patterns@.take(start_found.len() as int) =~= start_found) by {
                    assert(found_before.take(start_found.len() as int) == start_found);
                }
                assert forall|i: int| start_found.len() <= i < self.patterns@.len() implies (#[trigger] self.patterns@[i]).is_block_of(*map) by {
                    if i < found_before.len() {
                        assert(self.patterns@[i] == found_before[i]);
                    } else {
                        assert(spec_possible_position(map.spec_size(), anchor));
                    }
                }
            }
        }
        proof {
            assert(positions@.take(k as int) =~= positions@);
            assert(possible_listing(map.spec_size(), positions@));
            assert forall|i: int| old(self).found().len() <= i < self.found().len() implies (#[trigger] self.found()[i]).is_block_of(*map) by {
                assert(self.patterns@[i] == self.found()[i]);
            }
        }
    }

    /// Rules of the patterns found: for each tile type the patterns standing for it (in the order found), and
    /// the count of each pattern as its weight.
    pub fn generate_pattern_rules(&self) -> (rules: PatternRules<Pattern<W, H, D>>)
        requires
            self.consistent(),
        ensures
            rules.spec_weights() == self.counts(),
            forall|t: u64| #[trigger] rules.spec_patterns_by_option().contains_key(t) <==> exists|i: int|
                0 <= i < self.found().len() && self.found()[i].spec_tile_type_id() == t,
            forall|t: u64|
                #[trigger] rules.spec_patterns_by_option().contains_key(t) ==> rules.spec_patterns_by_option()[t].map_values(
                    |p: Pattern<W, H, D>| p.spec_pattern_id(),
                ) == self.found().filter(|p: Pattern<W, H, D>| p.spec_tile_type_id() == t).map_values(
                    |p: Pattern<W, H, D>| p.spec_pattern_id(),
                ),
            forall|t: u64, i: int|
                rules.spec_patterns_by_option().contains_key(t) && 0 <= i < rules.spec_patterns_by_option()[t].len()
                    ==> copy_of(
                    #[trigger] rules.spec_patterns_by_option()[t][i],
                    self.found().filter(|p: Pattern<W, H, D>| p.spec_tile_type_id() == t)[i],
                ),
    {
        let mut pattern_by_option: IdMap<Vec<Pattern<W, H, D>>> = IdMap::new();
        let mut pattern_weights: IdMap<u32> = IdMap::new();
        let mut k: usize = 0;
        while k < self.patterns.len()
            invariant
                k <= self.patterns@.len(),
                self.consistent(),
                forall|t: u64| #[trigger] pattern_weights@.contains_key(t) ==> self.counts().contains_key(t) && pattern_weights@[t] == self.counts()[t],
                forall|t: u64| #[trigger] pattern_weights@.contains_key(t) <==> exists|i: int| 0 <= i < k && #[trigger] self.found()[i].spec_pattern_id() == t,
                forall|t: u64| #[trigger] pattern_by_option@.contains_key(t) <==> exists|i: int|
                    0 <= i < k && self.found()[i].spec_tile_type_id() == t,
                forall|t: u64|
                    #[trigger] pattern_by_option@.contains_key(t) ==> pattern_by_option@[t]@.map_values(
                        |p: Pattern<W, H, D>| p.spec_pattern_id(),
                    ) == self.found().take(k as int).filter(|p: Pattern<W, H, D>| p.spec_tile_type_id() == t).map_values(
                        |p: Pattern<W, H, D>| p.spec_pattern_id(),
                    ),
                forall|t: u64, i: int|
                    pattern_by_option@.contains_key(t) && 0 <= i < pattern_by_option@[t]@.len() ==> exists|j: int|
                        0 <= j < k && self.found()[j].spec_tile_type_id() == t && copy_of(
                            #[trigger] pattern_by_option@[t]@[i],
                            self.found()[j],
                        ),
            decreases self.patterns@.len() - k,
        {
            let pattern = &self.patterns[k];
            let id = pattern.pattern_id;
            proof {
                assert(self.counts().contains_key(self.found()[k as int].spec_pattern_id()));
            }
            let weight = *self.pattern_counts.get(id).unwrap();
            pattern_weights.insert(id, weight);
            let option = pattern.tile_type_id;
            let copy = pattern.duplicate();
            let mut list: Vec<Pattern<W, H, D>> = match pattern_by_option.remove(option) {
                Some(v) => v,
                None => Vec::new(),
            };
            let ghost list_before = list@;
            list.push(copy);
            pattern_by_option.insert(option, list);
            k = k + 1;
            proof {
                assert forall|t: u64, i: int|
                    pattern_by_option@.contains_key(t) && 0 <= i < pattern_by_option@[t]@.len() implies exists|j: int|
                        0 <= j < k && self.found()[j].spec_tile_type_id() == t && copy_of(
                            #[trigger] pattern_by_option@[t]@[i],
                            self.found()[j],
                        ) by {
                    if t == option && i == list_before.len() {
                        assert(pattern_by_option@[t]@[i] == copy);
                        assert(self.found()[k - 1] == *pattern);
                        assert(copy_of(copy, self.found()[k - 1]));
                    } else if t == option {
                        assert(pattern_by_option@[t]@[i] == list_before[i]);
                    }
                }
                reveal_with_fuel(Seq::filter, 1);
                assert(self.found().take(k as int).drop_last() =~= self.found().take(k - 1));
                assert forall|t: u64| #[trigger] pattern_by_option@.contains_key(t) implies pattern_by_option@[t]@.map_values(
                    |p: Pattern<W, H, D>| p.spec_pattern_id(),
                ) == self.found().take(k as int).filter(|p: Pattern<W, H, D>| p.spec_tile_type_id() == t).map_values(
                    |p: Pattern<W, H, D>| p.spec_pattern_id(),
                ) by {
                    if t == option {
                        if list_before.len() == 0 {
                            assert(self.found().take(k - 1).filter(|p: Pattern<W, H, D>| p.spec_tile_type_id() == t).len() == 0) by {
                                if self.found().take(k - 1).filter(|p: Pattern<W, H, D>| p.spec_tile_type_id() == t).len() > 0 {
                                    crate::gen::collapse::resolver::lemma_filter_members(self.found().take(k - 1), |p: Pattern<W, H, D>| p.spec_tile_type_id() == t);
                                    let q = self.found().take(k - 1).filter(|p: Pattern<W, H, D>| p.spec_tile_type_id() == t)[0];
                                    assert(self.found().take(k - 1).filter(|p: Pattern<W, H, D>| p.spec_tile_type_id() == t).contains(q));
                                    let j = self.found().take(k - 1).index_of(q);
                                    assert(self.found()[j].spec_tile_type_id() == t);
                                }
                            }
                        }
                        assert(pattern_by_option@[t]@.map_values(|p: Pattern<W, H, D>| p.spec_pattern_id()) =~= list_before.map_values(
                            |p: Pattern<W, H, D>| p.spec_pattern_id(),
                        ).push(id));
                    }
                }
                assert forall|t: u64| #[trigger] pattern_by_option@.contains_key(t) <==> exists|i: int|
                    0 <= i < k && self.found()[i].spec_tile_type_id() == t by {
                    if exists|i: int| 0 <= i < k && self.found()[i].spec_tile_type_id() == t {
                        let i = choose|i: int| 0 <= i < k && self.found()[i].spec_tile_type_id() == t;
                        if i < k - 1 {
                            assert(exists|j: int| 0 <= j < k - 1 && self.found()[j].spec_tile_type_id() == t);
                        }
                    }
                }
                assert forall|t: u64| #[trigger] pattern_weights@.contains_key(t) <==> exists|i: int| 0 <= i < k && #[trigger] self.found()[i].spec_pattern_id() == t by {
                    if exists|i: int| 0 <= i < k && #[trigger] self.found()[i].spec_pattern_id() == t {
                        let i = choose|i: int| 0 <= i < k && #[trigger] self.found()[i].spec_pattern_id() == t;
                        if i < k - 1 {
                            assert(exists|j: int| 0 <= j < k - 1 && #[trigger] self.found()[j].spec_pattern_id() == t);
                        }
                    }
                }
            }
        }
        let rules = PatternRules { pattern_by_option, pattern_weights };
        proof {
            assert(self.found().take(k as int) =~= self.found());
            assert forall|t: u64| #[trigger] rules.pattern_weights@.contains_key(t) <==> self.counts().contains_key(t) by {}
            assert(rules.spec_weights() =~= self.counts());
            assert forall|t: u64, i: int|
                rules.spec_patterns_by_option().contains_key(t) && 0 <= i < rules.spec_patterns_by_option()[t].len()
                    implies copy_of(
                    #[trigger] rules.spec_patterns_by_option()[t][i],
                    self.found().filter(|p: Pattern<W, H, D>| p.spec_tile_type_id() == t)[i],
                ) by {
                let keep = |p: Pattern<W, H, D>| p.spec_tile_type_id() == t;
                let listed = rules.spec_patterns_by_option()[t];
                let f = self.found().filter(keep);
                assert(listed == pattern_by_option@[t]@);
                let j = choose|j: int|
                    0 <= j < k && self.found()[j].spec_tile_type_id() == t && copy_of(
                        #[trigger] pattern_by_option@[t]@[i],
                        self.found()[j],
                    );
                let ids_l = listed.map_values(|p: Pattern<W, H, D>| p.spec_pattern_id());
                let ids_f = f.map_values(|p: Pattern<W, H, D>| p.spec_pattern_id());
                assert(ids_l == ids_f);
                assert(ids_l.len() == listed.len());
                assert(ids_l[i] == ids_f[i]);
                assert(listed[i].spec_pattern_id() == f[i].spec_pattern_id());
                crate::gen::collapse::resolver::lemma_filter_members(self.found(), keep);
                assert(f.contains(f[i]));
                assert(self.found().contains(f[i]));
                let j2 = self.found().index_of(f[i]);
                assert(self.found()[j2].spec_pattern_id() == self.found()[j].spec_pattern_id());
                if j != j2 {
                    if j < j2 {
                        assert((self.found()[j]).spec_pattern_id() != (self.found()[j2]).spec_pattern_id());
                    } else {
                        assert((self.found()[j2]).spec_pattern_id() != (self.found()[j]).spec_pattern_id());
                    }
                }
            }
        }
        rules
    }
}

/// The identifiers of the patterns fitting at a prefix of the anchors extend as the prefix grows.
proof fn lemma_fitting_prefix<Data: IdentifiableTileData, const W: usize, const H: usize, const D: usize>(
    map: GridMap2D<Data>,
    anchors: Seq<GridPosition>,
    k: int,
)
    requires
        0 < k <= anchors.len(),
    ensures
        fitting_ids(map, anchors.take(k), W as int, H as int, D as int) == if block_fits(map.spec_size(), anchors[k - 1], W as int, H as int) {
            fitting_ids(map, anchors.take(k - 1), W as int, H as int, D as int).push(anchor_pattern_id(map, anchors[k - 1], W as int, H as int, D as int))
        } else {
            fitting_ids(map, anchors.take(k - 1), W as int, H as int, D as int)
        },
{
    assert(anchors.take(k).drop_last() =~= anchors.take(k - 1));
}

/// The identifiers of the patterns fitting at a prefix of the anchors begin those fitting at all of them.
proof fn lemma_fitting_is_prefix<Data: IdentifiableTileData, const W: usize, const H: usize, const D: usize>(
    map: GridMap2D<Data>,
    anchors: Seq<GridPosition>,
    k: int,
)
    requires
        0 <= k <= anchors.len(),
    ensures
        fitting_ids(map, anchors.take(k), W as int, H as int, D as int).len() <= fitting_ids(map, anchors, W as int, H as int, D as int).len(),
        fitting_ids(map, anchors, W as int, H as int, D as int).take(
            fitting_ids(map, anchors.take(k), W as int, H as int, D as int).len() as int,
        ) == fitting_ids(map, anchors.take(k), W as int, H as int, D as int),
    decreases anchors.len(),
{
    if k == anchors.len() {
        assert(anchors.take(k) =~= anchors);
        let all = fitting_ids(map, anchors, W as int, H as int, D as int);
        assert(all.take(all.len() as int) =~= all);
    } else {
        let shorter = anchors.drop_last();
        lemma_fitting_is_prefix::<Data, W, H, D>(map, shorter, k);
        assert(shorter.take(k) =~= anchors.take(k));
        let part = fitting_ids(map, anchors.take(k), W as int, H as int, D as int);
        let mid = fitting_ids(map, shorter, W as int, H as int, D as int);
        let all = fitting_ids(map, anchors, W as int, H as int, D as int);
        if block_fits(map.spec_size(), anchors.last(), W as int, H as int) {
            assert(all == mid.push(anchor_pattern_id(map, anchors.last(), W as int, H as int, D as int)));
            assert(all.take(part.len() as int) =~= mid.take(part.len() as int));
        }
    }
}

/// A pattern fits over another shifted one tile in a direction exactly when the other fits over the first
/// shifted in the opposite direction.
pub proof fn lemma_compatibility_mirrors<const W: usize, const H: usize, const D: usize>(
    a: Pattern<W, H, D>,
    b: Pattern<W, H, D>,
    d: GridDir,
)
    ensures
        a.spec_compatible(&b, d) <==> b.spec_compatible(&a, crate::map::spec_opposite(d)),
{
    let od = crate::map::spec_opposite(d);
    if a.spec_compatible(&b, d) {
        assert forall|z: int, y: int, x: int|
            #![trigger b.id_at(z, y, x)]
            0 <= z < D && 0 <= y < H && 0 <= x < W implies match shifted_cell(od, y, x, H as int, W as int) {
                Some(cell) => b.id_at(z, y, x) == a.id_at(z, cell.0, cell.1),
                None => true,
            } by {
            if let Some(cell) = shifted_cell(od, y, x, H as int, W as int) {
                assert(a.id_at(z, cell.0, cell.1) == a.id_at(z, cell.0, cell.1));
            }
        }
    }
    if b.spec_compatible(&a, od) {
        assert forall|z: int, y: int, x: int|
            #![trigger a.id_at(z, y, x)]
            0 <= z < D && 0 <= y < H && 0 <= x < W implies match shifted_cell(d, y, x, H as int, W as int) {
                Some(cell) => a.id_at(z, y, x) == b.id_at(z, cell.0, cell.1),
                None => true,
            } by {
            if let Some(cell) = shifted_cell(d, y, x, H as int, W as int) {
                assert(b.id_at(z, cell.0, cell.1) == b.id_at(z, cell.0, cell.1));
            }
        }
    }
}

} // verus!
