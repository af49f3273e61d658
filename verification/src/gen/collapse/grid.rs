//! Grid of collapsed tiles, used to hand pre-collapsed tiles to generation and to take its result out.
use vstd::prelude::*;

use super::tile::CollapsedTileData;
use crate::id_map::IdMap;
use crate::map::{spec_position_valid, tile_at, GridMap2D, GridSize};
use crate::tile::identifiable::IdentifiableTileData;
use crate::tile::{GridPosition, GridTile, TileContainer};

verus! {

/// [`GridMap2D`] containing data of [`CollapsedTileData`], keeping track of the tile types put into it.
pub struct CollapsedGrid {
    grid: GridMap2D<CollapsedTileData>,
    tile_type_ids: IdMap<()>,
}

impl CollapsedGrid {
    /// The grid of collapsed tiles.
    pub closed spec fn spec_grid(&self) -> GridMap2D<CollapsedTileData> {
        self.grid
    }

    /// Tile types of the tiles put into the grid (those overwritten since included).
    pub closed spec fn type_ids(&self) -> Set<u64> {
        self.tile_type_ids@.dom()
    }

    /// Every tile of the grid is of a recorded type, and finitely many types are recorded.
    pub open spec fn ids_recorded(&self) -> bool {
        &&& forall|p: GridPosition| #[trigger]
            tile_at(self.spec_grid(), p) is Some ==> self.type_ids().contains(tile_at(self.spec_grid(), p)->0.spec_tile_type_id())
        &&& self.type_ids().finite()
    }

    /// Empty grid of given size.
    pub fn new(size: GridSize) -> (g: Self)
        requires
            size.x * size.y <= usize::MAX,
        ensures
            g.spec_grid().spec_size() == size,
            forall|p: GridPosition| #[trigger] tile_at(g.spec_grid(), p) is None,
            g.type_ids() == Set::<u64>::empty(),
            g.ids_recorded(),
    {
        let g = Self { grid: GridMap2D::new(size), tile_type_ids: IdMap::new() };
        assert(g.tile_type_ids@.dom() =~= Set::<u64>::empty());
        g
    }

    /// Inserts `data` at `position`, recording its tile type. Returns `false` (and changes nothing) if the
    /// position is not valid within the grid.
    pub fn insert_data(&mut self, position: &GridPosition, data: CollapsedTileData) -> (r: bool)
        requires
            old(self).ids_recorded(),
        ensures
            r == spec_position_valid(old(self).spec_grid().spec_size(), *position),
            final(self).ids_recorded(),
            final(self).spec_grid().spec_size() == old(self).spec_grid().spec_size(),
            forall|p: GridPosition| #[trigger]
                tile_at(final(self).spec_grid(), p) == if r && p.x == position.x && p.y == position.y {
                    Some(data)
                } else {
                    tile_at(old(self).spec_grid(), p)
                },
            final(self).type_ids() == if r {
                old(self).type_ids().insert(data.spec_tile_type_id())
            } else {
                old(self).type_ids()
            },
    {
        let tile_id = data.tile_type_id();
        if self.grid.insert_data(position, data) {
            self.tile_type_ids.insert(tile_id, ());
            proof {
                assert(self.tile_type_ids@.dom() =~= old(self).tile_type_ids@.dom().insert(tile_id));
                assert forall|p: GridPosition| #[trigger]
                    tile_at(self.spec_grid(), p) == if p.x == position.x && p.y == position.y {
                        Some(data)
                    } else {
                        tile_at(old(self).spec_grid(), p)
                    } by {
                    assert(self.grid.cell(p.x as int, p.y as int) == if p.x == position.x && p.y == position.y {
                        Some(data)
                    } else {
                        old(self).grid.cell(p.x as int, p.y as int)
                    });
                }
                assert forall|p: GridPosition| #[trigger] tile_at(self.spec_grid(), p) is Some implies self.type_ids().contains(
                    tile_at(self.spec_grid(), p)->0.spec_tile_type_id(),
                ) by {
                    if !(p.x == position.x && p.y == position.y) {
                        assert(tile_at(old(self).spec_grid(), p) is Some);
                    }
                }
            }
            true
        } else {
            proof {
                assert forall|p: GridPosition| #[trigger]
                    tile_at(self.spec_grid(), p) == tile_at(old(self).spec_grid(), p) by {
                    assert(self.grid.cell(p.x as int, p.y as int) == old(self).grid.cell(p.x as int, p.y as int));
                }
            }
            false
        }
    }

    /// Inserts the data of `tile` at its position, as [`insert_data`](Self::insert_data).
    pub fn insert_tile(&mut self, tile: GridTile<CollapsedTileData>) -> (r: bool)
        requires
            old(self).ids_recorded(),
        ensures
            r == spec_position_valid(old(self).spec_grid().spec_size(), tile.spec_grid_position()),
            final(self).ids_recorded(),
            final(self).spec_grid().spec_size() == old(self).spec_grid().spec_size(),
            forall|p: GridPosition| #[trigger]
                tile_at(final(self).spec_grid(), p) == if r && p.x == tile.spec_grid_position().x && p.y
                    == tile.spec_grid_position().y {
                    Some(tile.spec_data())
                } else {
                    tile_at(old(self).spec_grid(), p)
                },
            final(self).type_ids() == if r {
                old(self).type_ids().insert(tile.spec_data().spec_tile_type_id())
            } else {
                old(self).type_ids()
            },
    {
        let position = tile.grid_position();
        self.insert_data(&position, tile.into_inner())
    }

    /// Recorded tile types, in increasing order.
    pub fn tile_type_ids(&self) -> (ids: Vec<u64>)
        ensures
            ids@.to_set() == self.type_ids(),
            ids@.no_duplicates(),
            forall|a: int, b: int| 0 <= a < b < ids@.len() ==> ids@[a] < ids@[b],
    {
        let r = self.tile_type_ids.keys();
        proof {
            assert forall|a: int, b: int| 0 <= a < b < r@.len() implies r@[a] != r@[b] by {
                assert(r@[a] < r@[b]);
            }
            assert forall|t: u64| r@.to_set().contains(t) <==> self.tile_type_ids@.dom().contains(t) by {
                assert(r@.contains(t) <==> self.tile_type_ids.spec_keys().contains(t));
            }
            assert(r@.to_set() =~= self.tile_type_ids@.dom());
        }
        r
    }

    /// The grid of collapsed tiles.
    pub fn as_ref(&self) -> (g: &GridMap2D<CollapsedTileData>)
        ensures
            *g == self.spec_grid(),
    {
        &self.grid
    }
}

} // verus!
