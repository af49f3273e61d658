//! Resolver collapsing a grid of [`CollapsibleTileData`] position by position.
use vstd::prelude::*;

use rand::rngs::StdRng;

use super::error::{CollapseError, CollapseErrorKind};
use super::queue::{PositionQueue, PropagateItem, Propagator};
use super::singular::{AdjacencyRules, FrequencyHints};
use super::singular::resolver::{CollapseHistorySubscriber, Subscriber};
use super::grid::CollapsedGrid;
use super::tile::{allows_any, weight_total, CollapsedTileData, CollapsibleTileData};
use crate::id_map::IdMap;
use crate::map::{
    lemma_march_round_trip, lemma_march_stays_valid, listing_of, march_in_bounds, neighbour_position, occupied,
    spec_march, spec_opposite, spec_position_valid, tile_at, GridDir, GridMap2D, GridSize,
};
use crate::tile::identifiable::builders::{missing_ids, IdentTileBuilder, TileBuilderError};
use crate::tile::identifiable::IdentifiableTileData;
use crate::tile::{GridPosition, TileContainer};

verus! {

/// Tile type the tile at `p` collapsed into, if the tile is there and collapsed.
pub open spec fn collapsed_at(grid: GridMap2D<CollapsibleTileData>, p: GridPosition) -> Option<u64> {
    match tile_at(grid, p) {
        Some(t) => t.collapsed_id(),
        None => None,
    }
}

/// Options left at `p` (none where there is no tile).
pub open spec fn options_at(grid: GridMap2D<CollapsibleTileData>, p: GridPosition) -> Map<u64, u32> {
    match tile_at(grid, p) {
        Some(t) => t.options(),
        None => Map::empty(),
    }
}

/// Option ids left at `p`, in increasing order.
pub open spec fn option_ids_at(grid: GridMap2D<CollapsibleTileData>, p: GridPosition) -> Seq<u64> {
    match tile_at(grid, p) {
        Some(t) => t.option_ids(),
        None => Seq::empty(),
    }
}

/// One of the first `k` positions is valid and has the coordinates of `p`.
pub open spec fn filled_at(size: GridSize, positions: Seq<GridPosition>, k: int, p: GridPosition) -> bool {
    exists|i: int|
        0 <= i < k && spec_position_valid(size, positions[i]) && #[trigger] positions[i].x == p.x && positions[i].y
            == p.y
}

/// Tile type `c` may lie in direction `d` of tile type `a`, by the rules read from either side.
pub open spec fn pair_ok<Data: IdentifiableTileData>(rules: AdjacencyRules<Data>, a: u64, d: GridDir, c: u64) -> bool {
    rules.allows(a, d, c) || rules.allows(c, spec_opposite(d), a)
}

/// If the tile at `p` and its neighbour in direction `d` are both collapsed, the rules allow them next to each
/// other.
pub open spec fn neighbour_compatible<Data: IdentifiableTileData>(
    grid: GridMap2D<CollapsibleTileData>,
    rules: AdjacencyRules<Data>,
    p: GridPosition,
    d: GridDir,
) -> bool {
    match neighbour_position(grid, p, d) {
        Some(q) => collapsed_at(grid, p) is Some && collapsed_at(grid, q) is Some ==> pair_ok(
            rules,
            collapsed_at(grid, p)->0,
            d,
            collapsed_at(grid, q)->0,
        ),
        None => true,
    }
}

/// The neighbour of `pos` in direction `d` constrains its options: it exists and is not skipped, as positions
/// of `omit` are unless they are in `changed`.
pub open spec fn considered(
    grid: GridMap2D<CollapsibleTileData>,
    pos: GridPosition,
    d: GridDir,
    omit: Seq<GridPosition>,
    changed: Seq<GridPosition>,
) -> bool {
    &&& neighbour_position(grid, pos, d) is Some
    &&& !(omit.contains(neighbour_position(grid, pos, d)->0) && !changed.contains(
        neighbour_position(grid, pos, d)->0,
    ))
}

/// Option `o` at `pos` conflicts with its neighbour in direction `d`: with the type of a collapsed neighbour,
/// or (unless only collapsed neighbours count) with all the options of an uncollapsed one.
pub open spec fn conflicts_at<Data: IdentifiableTileData>(
    grid: GridMap2D<CollapsibleTileData>,
    rules: AdjacencyRules<Data>,
    pos: GridPosition,
    o: u64,
    d: GridDir,
    omit: Seq<GridPosition>,
    changed: Seq<GridPosition>,
    collapsed_only: bool,
) -> bool {
    &&& considered(grid, pos, d, omit, changed)
    &&& match collapsed_at(grid, neighbour_position(grid, pos, d)->0) {
        Some(c) => !rules.allows(o, d, c),
        None => !collapsed_only && !allows_any(
            rules,
            o,
            d,
            option_ids_at(grid, neighbour_position(grid, pos, d)->0),
        ),
    }
}

/// Option `o` at `pos` conflicts with one of its neighbours.
pub open spec fn conflicts<Data: IdentifiableTileData>(
    grid: GridMap2D<CollapsibleTileData>,
    rules: AdjacencyRules<Data>,
    pos: GridPosition,
    o: u64,
    omit: Seq<GridPosition>,
    changed: Seq<GridPosition>,
    collapsed_only: bool,
) -> bool {
    exists|d: GridDir| #[trigger] conflicts_at(grid, rules, pos, o, d, omit, changed, collapsed_only)
}

/// Resolver collapsing a grid of [`CollapsibleTileData`], keeping track of the tile types it collapsed tiles into.
pub struct CollapsibleResolver<Data: IdentifiableTileData> {
    inner: GridMap2D<CollapsibleTileData>,
    tile_ids: Vec<u64>,
    tile_type: std::marker::PhantomData<Data>,
}

impl<Data: IdentifiableTileData> CollapsibleResolver<Data> {
    /// The grid being collapsed.
    pub closed spec fn grid(&self) -> GridMap2D<CollapsibleTileData> {
        self.inner
    }

    /// Tile types put into the grid as collapsed tiles.
    pub closed spec fn collapsed_ids(&self) -> Seq<u64> {
        self.tile_ids@
    }

    /// Every collapsed tile of the grid is of one of the recorded tile types.
    pub open spec fn ids_recorded(&self) -> bool {
        forall|p: GridPosition|
            #[trigger] collapsed_at(self.grid(), p) is Some ==> self.collapsed_ids().contains(
                collapsed_at(self.grid(), p)->0,
            )
    }

    /// Resolver of an empty grid of given size.
    pub fn new(size: GridSize) -> (r: Self)
        requires
            size.x * size.y <= usize::MAX,
        ensures
            r.grid().spec_size() == size,
            forall|p: GridPosition| #[trigger] tile_at(r.grid(), p) is None,
            r.collapsed_ids() == Seq::<u64>::empty(),
            r.ids_recorded(),
    {
        let inner = GridMap2D::new(size);
        Self { inner, tile_ids: Vec::new(), tile_type: std::marker::PhantomData }
    }

    /// Puts tiles collapsed into `tile_id` at each of the valid `positions`, recording the tile type.
    pub fn fill_with_collapsed(&mut self, tile_id: u64, positions: &[GridPosition])
        requires
            old(self).ids_recorded(),
        ensures
            final(self).ids_recorded(),
            final(self).grid().spec_size() == old(self).grid().spec_size(),
            forall|p: GridPosition|
                !#[trigger] filled_at(old(self).grid().spec_size(), positions@, positions@.len() as int, p)
                    ==> tile_at(final(self).grid(), p) == tile_at(old(self).grid(), p),
            forall|p: GridPosition|
                #[trigger] filled_at(old(self).grid().spec_size(), positions@, positions@.len() as int, p)
                    ==> (tile_at(final(self).grid(), p) matches Some(t) && t.collapsed_id() == Some(tile_id)
                    && t.options() == Map::<u64, u32>::empty()),
            forall|t: u64| #[trigger]
                final(self).collapsed_ids().contains(t) <==> old(self).collapsed_ids().contains(t) || t == tile_id,
    {
        push_id(&mut self.tile_ids, tile_id);
        let ghost start = self.inner;
        let ghost ids = self.tile_ids@;
        let mut k: usize = 0;
        while k < positions.len()
            invariant
                k <= positions@.len(),
                self.tile_ids@ == ids,
                self.inner.spec_size() == start.spec_size(),
                self.tile_ids@.contains(tile_id),
                forall|p: GridPosition|
                    !#[trigger] filled_at(start.spec_size(), positions@, k as int, p) ==> tile_at(self.inner, p)
                        == tile_at(start, p),
                forall|p: GridPosition|
                    #[trigger] filled_at(start.spec_size(), positions@, k as int, p) ==> (tile_at(self.inner, p) matches Some(t)
                        && t.collapsed_id() == Some(tile_id) && t.options() == Map::<u64, u32>::empty()),
            decreases positions@.len() - k,
        {
            let position = positions[k];
            let ghost before = self.inner;
            self.inner.insert_tile(CollapsibleTileData::new_collapsed_tile(position, tile_id));
            k = k + 1;
            proof {
                assert forall|p: GridPosition|
                    !#[trigger] filled_at(start.spec_size(), positions@, k as int, p) implies tile_at(self.inner, p)
                        == tile_at(start, p) by {
                    assert(!filled_at(start.spec_size(), positions@, k - 1, p));
                    assert(positions@[k - 1] == position);
                }
                assert forall|p: GridPosition|
                    #[trigger] filled_at(start.spec_size(), positions@, k as int, p) implies (tile_at(self.inner, p) matches Some(t)
                        && t.collapsed_id() == Some(tile_id) && t.options() == Map::<u64, u32>::empty()) by {
                    if !(p.x == position.x && p.y == position.y && spec_position_valid(start.spec_size(), position)) {
                        let i = choose|i: int|
                            0 <= i < k && spec_position_valid(start.spec_size(), positions@[i])
                                && #[trigger] positions@[i].x == p.x && positions@[i].y == p.y;
                        assert(positions@[k - 1] == position);
                        assert(i < k - 1);
                        assert(filled_at(start.spec_size(), positions@, k - 1, p));
                    }
                }
            }
        }
        proof {
            assert forall|p: GridPosition|
                #[trigger] collapsed_at(self.grid(), p) is Some implies self.collapsed_ids().contains(
                    collapsed_at(self.grid(), p)->0,
                ) by {
                if filled_at(start.spec_size(), positions@, k as int, p) {
                } else {
                    assert(collapsed_at(start, p) is Some);
                    assert(old(self).collapsed_ids().contains(collapsed_at(start, p)->0));
                }
            }
        }
    }

    /// Positions of all tiles of the grid, ordered by `x` then `y`.
    pub fn all_positions(&self) -> (out: Vec<GridPosition>)
        ensures
            listing_of(out@, |p: GridPosition| occupied(self.grid(), p)),
    {
        self.inner.get_all_positions()
    }

    /// Valid positions of the grid without a tile, ordered by `x` then `y`.
    pub fn all_empty_positions(&self) -> (out: Vec<GridPosition>)
        ensures
            listing_of(
                out@,
                |p: GridPosition| spec_position_valid(self.grid().spec_size(), p) && tile_at(self.grid(), p) is None,
            ),
    {
        self.inner.get_all_empty_positions()
    }

    /// Positions of the tiles not collapsed yet, ordered by `x` then `y`.
    pub fn uncollapsed(&self) -> (out: Vec<GridPosition>)
        ensures
            listing_of(
                out@,
                |p: GridPosition| occupied(self.grid(), p) && collapsed_at(self.grid(), p) is None,
            ),
    {
        let tiles = self.inner.iter_tiles();
        let ghost listed = tiles@.map_values(|t: crate::tile::GridTileRef<'_, CollapsibleTileData>| t.spec_grid_position());
        let mut out: Vec<GridPosition> = Vec::new();
        let mut k: usize = 0;
        while k < tiles.len()
            invariant
                k <= tiles@.len(),
                listed == tiles@.map_values(|t: crate::tile::GridTileRef<'_, CollapsibleTileData>| t.spec_grid_position()),
                listing_of(listed, |p: GridPosition| occupied(self.inner, p)),
                forall|i: int|
                    0 <= i < tiles@.len() ==> Some(#[trigger] tiles@[i].spec_data()) == tile_at(
                        self.inner,
                        tiles@[i].spec_grid_position(),
                    ),
                out@ == listed.take(k as int).filter(
                    |p: GridPosition| collapsed_at(self.inner, p) is None,
                ),
            decreases tiles@.len() - k,
        {
            proof {
                reveal_with_fuel(Seq::filter, 1);
                assert(listed.take(k + 1).drop_last() =~= listed.take(k as int));
            }
            let tile = &tiles[k];
            if !tile.inner().is_collapsed() {
                out.push(tile.grid_position());
            }
            k = k + 1;
        }
        proof {
            assert(listed.take(k as int) =~= listed);
            lemma_filter_listing(listed, |p: GridPosition| occupied(self.inner, p), |p: GridPosition| collapsed_at(self.inner, p) is None);
        }
        out
    }
}

impl<Data: IdentifiableTileData> CollapsibleResolver<Data> {
    /// Removes the options of the uncollapsed tile at `pos` which conflict with its neighbours (see [`conflicts`]).
    /// Returns whether some option was removed, or the error with `pos` if no option is left (or none was
    /// there).
    fn remove_tile_options(
        &mut self,
        pos: &GridPosition,
        adjacency: &AdjacencyRules<Data>,
        omit: &[GridPosition],
        changed: &[GridPosition],
        collapsed_only: bool,
    ) -> (r: Result<bool, GridPosition>)
        requires
            tile_at(old(self).grid(), *pos) is Some,
        ensures
            final(self).grid().spec_size() == old(self).grid().spec_size(),
            final(self).grid().same_except(&old(self).grid(), pos.x as int, pos.y as int),
            final(self).collapsed_ids() == old(self).collapsed_ids(),
            tile_at(final(self).grid(), *pos) is Some,
            collapsed_at(final(self).grid(), *pos) == collapsed_at(old(self).grid(), *pos),
            forall|o: u64| #[trigger]
                options_at(final(self).grid(), *pos).contains_key(o) ==> options_at(final(self).grid(), *pos)[o]
                    == options_at(old(self).grid(), *pos)[o],
            collapsed_at(old(self).grid(), *pos) is Some ==> r == Ok::<bool, GridPosition>(false) && final(self).grid()
                == old(self).grid(),
            collapsed_at(old(self).grid(), *pos) is None ==> {
                &&& forall|o: u64| #[trigger]
                    options_at(final(self).grid(), *pos).contains_key(o) <==> options_at(old(self).grid(), *pos).contains_key(o)
                        && !conflicts(old(self).grid(), *adjacency, *pos, o, omit@, changed@, collapsed_only)
                &&& r is Err <==> options_at(final(self).grid(), *pos).dom().len() == 0
                &&& r matches Err(p) ==> p == *pos
                &&& r matches Ok(removed) ==> removed == exists|o: u64|
                    options_at(old(self).grid(), *pos).contains_key(o) && #[trigger] conflicts(
                        old(self).grid(),
                        *adjacency,
                        *pos,
                        o,
                        omit@,
                        changed@,
                        collapsed_only,
                    )
            },
    {
        let ghost g = self.inner;
        let tile = self.inner.get_tile_at_position(pos).unwrap();
        if tile.inner().is_collapsed() {
            return Ok(false);
        }
        let option_ids = tile.inner().option_id_list();
        if !tile.inner().have_options() {
            proof {
                assert forall|o: u64| #[trigger] options_at(g, *pos).contains_key(o) implies false by {
                    options_at(g, *pos).dom().lemma_len0_is_empty();
                }
            }
            return Err(*pos);
        }
        proof {
            crate::map::lemma_tile_at_valid(g, *pos);
        }
        let mut to_remove: Vec<u64> = Vec::new();
        let mut k: usize = 0;
        while k < 4
            invariant
                k <= 4,
                self.inner == g,
                tile_at(g, *pos) is Some,
                collapsed_at(g, *pos) is None,
                spec_position_valid(g.spec_size(), *pos),
                forall|o: u64| #[trigger] option_ids@.contains(o) <==> options_at(g, *pos).contains_key(o),
                forall|o: u64| #[trigger]
                    to_remove@.contains(o) ==> options_at(g, *pos).contains_key(o),
                forall|o: u64|
                    #![trigger to_remove@.contains(o)]
                    options_at(g, *pos).contains_key(o) ==> (to_remove@.contains(o) <==> exists|d: GridDir|
                        crate::map::dir_index(d) < k && #[trigger] conflicts_at(
                            g,
                            *adjacency,
                            *pos,
                            o,
                            d,
                            omit@,
                            changed@,
                            collapsed_only,
                        )),
            decreases 4 - k,
        {
            let dir = GridDir::from_index(k);
            let ghost before = to_remove@;
            if let Some(neighbour) = self.inner.get_neighbour_at(pos, &dir) {
                let npos = neighbour.grid_position();
                let skipped = super::queue::position::contains_position(omit, &npos)
                    && !super::queue::position::contains_position(changed, &npos);
                if !skipped {
                    if neighbour.inner().is_collapsed() {
                        let nid = neighbour.inner().tile_type_id();
                        let mut j: usize = 0;
                        while j < option_ids.len()
                            invariant
                                j <= option_ids@.len(),
                                forall|o: u64| #[trigger]
                                    to_remove@.contains(o) <==> before.contains(o) || (option_ids@.take(
                                        j as int,
                                    ).contains(o) && !adjacency.allows(o, dir, nid)),
                            decreases option_ids@.len() - j,
                        {
                            let o = option_ids[j];
                            let ghost prev = to_remove@;
                            if !adjacency.is_valid_raw(o, nid, dir) {
                                to_remove.push(o);
                            }
                            j = j + 1;
                            proof {
                                lemma_seq_take_push(option_ids@, j as int);
                                lemma_push_contains(prev, o);
                            }
                        }
                        proof {
                            assert(option_ids@.take(j as int) =~= option_ids@);
                        }
                    } else if !collapsed_only {
                        let neighbour_options = neighbour.inner().option_id_list();
                        let mut j: usize = 0;
                        while j < option_ids.len()
                            invariant
                                j <= option_ids@.len(),
                                forall|o: u64| #[trigger]
                                    to_remove@.contains(o) <==> before.contains(o) || (option_ids@.take(
                                        j as int,
                                    ).contains(o) && !allows_any(*adjacency, o, dir, neighbour_options@)),
                            decreases option_ids@.len() - j,
                        {
                            let o = option_ids[j];
                            let ghost prev = to_remove@;
                            if !adjacency.is_valid_raw_any(o, neighbour_options.as_slice(), dir) {
                                to_remove.push(o);
                            }
                            j = j + 1;
                            proof {
                                lemma_seq_take_push(option_ids@, j as int);
                                lemma_push_contains(prev, o);
                            }
                        }
                        proof {
                            assert(option_ids@.take(j as int) =~= option_ids@);
                        }
                    }
                }
            }
            k = k + 1;
            proof {
                assert forall|o: u64|
                    #![trigger to_remove@.contains(o)]
                    options_at(g, *pos).contains_key(o) implies (to_remove@.contains(o) <==> exists|d: GridDir|
                        crate::map::dir_index(d) < k && #[trigger] conflicts_at(
                            g,
                            *adjacency,
                            *pos,
                            o,
                            d,
                            omit@,
                            changed@,
                            collapsed_only,
                        )) by {
                    if conflicts_at(g, *adjacency, *pos, o, dir, omit@, changed@, collapsed_only) {
                        assert(crate::map::dir_index(dir) < k);
                    }
                    if exists|d: GridDir|
                        crate::map::dir_index(d) < k && #[trigger] conflicts_at(
                            g,
                            *adjacency,
                            *pos,
                            o,
                            d,
                            omit@,
                            changed@,
                            collapsed_only,
                        ) {
                        let d = choose|d: GridDir|
                            crate::map::dir_index(d) < k && #[trigger] conflicts_at(
                                g,
                                *adjacency,
                                *pos,
                                o,
                                d,
                                omit@,
                                changed@,
                                collapsed_only,
                            );
                        if d != dir {
                            assert(crate::map::dir_index(d) < k - 1);
                        }
                    }
                }
            }
        }
        proof {
            assert forall|o: u64|
                options_at(g, *pos).contains_key(o) implies (#[trigger] to_remove@.contains(o) <==> conflicts(
                    g,
                    *adjacency,
                    *pos,
                    o,
                    omit@,
                    changed@,
                    collapsed_only,
                )) by {
                if conflicts(g, *adjacency, *pos, o, omit@, changed@, collapsed_only) {
                    let d = choose|d: GridDir| #[trigger] conflicts_at(g, *adjacency, *pos, o, d, omit@, changed@, collapsed_only);
                    assert(crate::map::dir_index(d) < 4);
                }
            }
        }
        if to_remove.len() == 0 {
            proof {
                assert forall|o: u64|
                    options_at(g, *pos).contains_key(o) implies !#[trigger] conflicts(
                        g,
                        *adjacency,
                        *pos,
                        o,
                        omit@,
                        changed@,
                        collapsed_only,
                    ) by {
                    assert(!to_remove@.contains(o));
                }
            }
            return Ok(false);
        }
        proof {
            let o = to_remove@[0];
            assert(to_remove@.contains(o));
            assert(options_at(g, *pos).contains_key(o));
        }
        let ghost before_data = tile_at(g, *pos)->0;
        let left = {
            let tile = self.inner.get_mut_tile_at_position(pos).unwrap();
            tile.data.remove_options(to_remove.as_slice())
        };
        let ghost after_data = tile_at(self.inner, *pos)->0;
        proof {
            assert(tile_at(self.inner, *pos) is Some);
            assert(after_data.collapsed_id() == before_data.collapsed_id());
            assert(left == (after_data.options().dom().len() > 0));
            assert(after_data.options().dom().finite());
        }
        if !left {
            proof {
                assert forall|o: u64| #[trigger]
                    options_at(self.inner, *pos).contains_key(o) <==> options_at(g, *pos).contains_key(o)
                        && !conflicts(g, *adjacency, *pos, o, omit@, changed@, collapsed_only) by {
                    if options_at(self.inner, *pos).contains_key(o) {
                        options_at(self.inner, *pos).dom().lemma_len0_is_empty();
                    }
                    if options_at(g, *pos).contains_key(o) {
                        assert(to_remove@.contains(o));
                    }
                }
            }
            return Err(*pos);
        }
        Ok(true)
    }
}

/// Option `o` of the neighbour of `pos` in direction `d` survives propagation from `pos`: it allows the type `pos`
/// collapsed into, or (if `pos` is not collapsed) some option of `pos`, in the opposite direction.
pub open spec fn propagation_keeps<Data: IdentifiableTileData>(
    grid: GridMap2D<CollapsibleTileData>,
    rules: AdjacencyRules<Data>,
    pos: GridPosition,
    d: GridDir,
    o: u64,
) -> bool {
    match collapsed_at(grid, pos) {
        Some(t) => rules.allows(o, spec_opposite(d), t),
        None => allows_any(rules, o, spec_opposite(d), option_ids_at(grid, pos)),
    }
}

/// Propagation from `pos` leaves the uncollapsed neighbour of `pos` in direction `d` without options: none of its
/// options survives.
pub open spec fn emptied<Data: IdentifiableTileData>(
    grid: GridMap2D<CollapsibleTileData>,
    rules: AdjacencyRules<Data>,
    pos: GridPosition,
    d: GridDir,
) -> bool {
    &&& neighbour_position(grid, pos, d) is Some
    &&& collapsed_at(grid, neighbour_position(grid, pos, d)->0) is None
    &&& forall|o: u64| #[trigger]
        options_at(grid, neighbour_position(grid, pos, d)->0).contains_key(o) ==> !propagation_keeps(grid, rules, pos, d, o)
}

/// The error of a generation over `positions` names a tile of `grid` left uncollapsed without options (or, when
/// collapsing it, without an option of positive weight), at a stage other than propagation, and one of `positions`
/// when the options were removed before the generation.
pub open spec fn failed_at(grid: GridMap2D<CollapsibleTileData>, positions: Seq<GridPosition>, e: CollapseError) -> bool {
    let p = e.spec_pos();
    &&& tile_at(grid, p) is Some
    &&& collapsed_at(grid, p) is None
    &&& e.spec_kind() != CollapseErrorKind::Propagation
    &&& e.spec_kind() != CollapseErrorKind::Collapse ==> options_at(grid, p).dom().len() == 0
    &&& e.spec_kind() == CollapseErrorKind::Collapse ==> options_at(grid, p).dom().len() == 0 || weight_total(
        tile_at(grid, p)->0.option_weights(),
    ) == 0
    &&& e.spec_kind() == CollapseErrorKind::Init ==> positions.contains(p)
}

/// The collapse and presence of every tile is the same in both grids.
pub open spec fn same_collapse(a: GridMap2D<CollapsibleTileData>, b: GridMap2D<CollapsibleTileData>) -> bool {
    &&& a.spec_size() == b.spec_size()
    &&& forall|p: GridPosition| #[trigger] tile_at(a, p) is Some <==> tile_at(b, p) is Some
    &&& forall|p: GridPosition| #[trigger] collapsed_at(a, p) == collapsed_at(b, p)
}

/// `q` has the coordinates of the neighbour of `pos` in one of the first `k` directions.
pub open spec fn is_processed_neighbour(pos: GridPosition, size: GridSize, q: GridPosition, k: int) -> bool {
    exists|d: GridDir| crate::map::dir_index(d) < k && #[trigger] march_hits(d, pos, size, q)
}

/// A step in direction `d` from `pos` lands on the coordinates of `q`.
pub open spec fn march_hits(d: GridDir, pos: GridPosition, size: GridSize, q: GridPosition) -> bool {
    spec_march(d, pos, size) matches Some(n) && n.x == q.x && n.y == q.y
}

impl<Data: IdentifiableTileData> CollapsibleResolver<Data> {
    /// Removes from the uncollapsed neighbours of `pos` the options not surviving propagation from `pos` (see
    /// [`propagation_keeps`]); the error holds the position of a neighbour left without options.
    fn propagate_from(&mut self, pos: GridPosition, adjacency: &AdjacencyRules<Data>) -> (r: Result<(), GridPosition>)
        requires
            tile_at(old(self).grid(), pos) is Some,
        ensures
            same_collapse(final(self).grid(), old(self).grid()),
            final(self).collapsed_ids() == old(self).collapsed_ids(),
            tile_at(final(self).grid(), pos) == tile_at(old(self).grid(), pos),
            forall|q: GridPosition|
                !#[trigger] is_processed_neighbour(pos, old(self).grid().spec_size(), q, 4) ==> tile_at(
                    final(self).grid(),
                    q,
                ) == tile_at(old(self).grid(), q),
            r is Ok ==> forall|d: GridDir, o: u64|
                #![trigger options_at(final(self).grid(), neighbour_position(old(self).grid(), pos, d)->0).contains_key(o)]
                neighbour_position(old(self).grid(), pos, d) is Some && collapsed_at(
                    old(self).grid(),
                    neighbour_position(old(self).grid(), pos, d)->0,
                ) is None ==> (options_at(final(self).grid(), neighbour_position(old(self).grid(), pos, d)->0).contains_key(o)
                    <==> options_at(old(self).grid(), neighbour_position(old(self).grid(), pos, d)->0).contains_key(o)
                    && propagation_keeps(old(self).grid(), *adjacency, pos, d, o)),
            r is Ok <==> forall|d: GridDir| !#[trigger] emptied(old(self).grid(), *adjacency, pos, d),
            r matches Err(q) ==> exists|e: GridDir|
                #[trigger] emptied(old(self).grid(), *adjacency, pos, e) && neighbour_position(old(self).grid(), pos, e)
                    == Some(q) && (forall|d: GridDir|
                    crate::map::dir_index(d) < crate::map::dir_index(e) ==> !#[trigger] emptied(
                        old(self).grid(),
                        *adjacency,
                        pos,
                        d,
                    )) && (forall|p: GridPosition|
                    !#[trigger] is_processed_neighbour(pos, old(self).grid().spec_size(), p, crate::map::dir_index(e) + 1)
                        ==> tile_at(final(self).grid(), p) == tile_at(old(self).grid(), p)) && (forall|d: GridDir, o: u64|
                    #![trigger options_at(final(self).grid(), neighbour_position(old(self).grid(), pos, d)->0).contains_key(o)]
                    crate::map::dir_index(d) <= crate::map::dir_index(e) && neighbour_position(old(self).grid(), pos, d)
                        is Some && collapsed_at(old(self).grid(), neighbour_position(old(self).grid(), pos, d)->0) is None
                        ==> (options_at(final(self).grid(), neighbour_position(old(self).grid(), pos, d)->0).contains_key(o)
                    <==> options_at(old(self).grid(), neighbour_position(old(self).grid(), pos, d)->0).contains_key(o)
                        && propagation_keeps(old(self).grid(), *adjacency, pos, d, o))),
            r matches Err(q) ==> tile_at(final(self).grid(), q) is Some && collapsed_at(final(self).grid(), q) is None
                && options_at(final(self).grid(), q).dom().len() == 0,
            forall|q: GridPosition, o: u64| #[trigger]
                options_at(final(self).grid(), q).contains_key(o) ==> options_at(final(self).grid(), q)[o] == options_at(
                    old(self).grid(),
                    q,
                )[o],
    {
        let ghost g = self.inner;
        let tile = self.inner.get_tile_at_position(&pos).unwrap();
        let collapsed = tile.inner().collapse_id();
        let tile_options = tile.inner().option_id_list();
        proof {
            crate::map::lemma_tile_at_valid(g, pos);
        }
        let mut k: usize = 0;
        while k < 4
            invariant
                k <= 4,
                g == old(self).inner,
                spec_position_valid(g.spec_size(), pos),
                collapsed == collapsed_at(g, pos),
                tile_options@ == option_ids_at(g, pos),
                same_collapse(self.inner, g),
                self.tile_ids == old(self).tile_ids,
                tile_at(self.inner, pos) == tile_at(g, pos),
                forall|q: GridPosition|
                    !#[trigger] is_processed_neighbour(pos, g.spec_size(), q, k as int) ==> tile_at(self.inner, q)
                        == tile_at(g, q),
                forall|d: GridDir, o: u64|
                    #![trigger options_at(self.inner, neighbour_position(g, pos, d)->0).contains_key(o)]
                    crate::map::dir_index(d) < k && neighbour_position(g, pos, d) is Some && collapsed_at(
                        g,
                        neighbour_position(g, pos, d)->0,
                    ) is None ==> (options_at(self.inner, neighbour_position(g, pos, d)->0).contains_key(o)
                        <==> options_at(g, neighbour_position(g, pos, d)->0).contains_key(o) && propagation_keeps(
                        g,
                        *adjacency,
                        pos,
                        d,
                        o,
                    )),
                forall|d: GridDir| crate::map::dir_index(d) < k ==> !#[trigger] emptied(g, *adjacency, pos, d),
                forall|q: GridPosition, o: u64| #[trigger]
                    options_at(self.inner, q).contains_key(o) ==> options_at(self.inner, q)[o] == options_at(g, q)[o],
            decreases 4 - k,
        {
            let dir = GridDir::from_index(k);
            let opposite = dir.opposite();
            let ghost cur = self.inner;
            let ghost nq = spec_march(dir, pos, g.spec_size());
            proof {
                assert(neighbour_position(cur, pos, dir) == neighbour_position(g, pos, dir));
                if nq is Some {
                    assert(!is_processed_neighbour(pos, g.spec_size(), nq->0, k as int)) by {
                        if is_processed_neighbour(pos, g.spec_size(), nq->0, k as int) {
                            let d = choose|d: GridDir|
                                crate::map::dir_index(d) < k && #[trigger] march_hits(d, pos, g.spec_size(), nq->0);
                            assert(d != dir);
                        }
                    }
                }
            }
            let result = match self.inner.get_mut_neighbour_at(&pos, &dir) {
                Some(neighbour) => {
                    let npos = neighbour.grid_position();
                    if neighbour.data.is_collapsed() {
                        Ok(())
                    } else {
                        let outcome = match collapsed {
                            Some(tile_id) => neighbour.data.resolve_options_neighbour_collapsed(
                                adjacency,
                                opposite,
                                tile_id,
                                npos,
                            ),
                            None => neighbour.data.resolve_options_neighbour_uncollapsed(
                                adjacency,
                                opposite,
                                tile_options.as_slice(),
                                npos,
                            ),
                        };
                        match outcome {
                            Ok(_) => Ok(()),
                            Err(p) => Err(p),
                        }
                    }
                },
                None => Ok(()),
            };
            proof {
                assert forall|q: GridPosition, o: u64| #[trigger]
                    options_at(self.inner, q).contains_key(o) implies options_at(self.inner, q)[o] == options_at(g, q)[o] by {
                    if nq is Some && nq->0.x == q.x && nq->0.y == q.y {
                        assert(tile_at(self.inner, q) == tile_at(self.inner, nq->0));
                        assert(tile_at(cur, q) == tile_at(cur, nq->0));
                        if tile_at(cur, nq->0) is Some {
                            assert(options_at(cur, q).contains_key(o));
                            assert(options_at(self.inner, q)[o] == options_at(cur, q)[o]);
                        }
                    } else {
                        assert(tile_at(self.inner, q) == tile_at(cur, q));
                        assert(options_at(cur, q).contains_key(o));
                    }
                    assert(options_at(cur, q)[o] == options_at(g, q)[o]);
                }
                assert(same_collapse(self.inner, g)) by {
                    assert forall|p: GridPosition| #[trigger] collapsed_at(self.inner, p) == collapsed_at(g, p) by {
                        assert(collapsed_at(self.inner, p) == collapsed_at(cur, p));
                    }
                    assert forall|p: GridPosition| #[trigger] tile_at(self.inner, p) is Some <==> tile_at(g, p) is Some by {
                        assert(tile_at(self.inner, p) is Some <==> tile_at(cur, p) is Some);
                    }
                }
            }
            proof {
                if neighbour_position(g, pos, dir) is Some && collapsed_at(g, neighbour_position(g, pos, dir)->0) is None {
                    let q = neighbour_position(g, pos, dir)->0;
                    tile_at(self.inner, q)->0.lemma_options_finite();
                    assert(nq == Some(q));
                    assert(tile_at(self.inner, q) is Some);
                    assert forall|o: u64| #[trigger] options_at(self.inner, q).contains_key(o) <==> options_at(g, q).contains_key(o)
                        && propagation_keeps(g, *adjacency, pos, dir, o) by {}
                    assert(result is Err <==> options_at(self.inner, q).dom().len() == 0);
                    assert(result is Err ==> result == Err::<(), GridPosition>(q));
                    if emptied(g, *adjacency, pos, dir) {
                        assert(options_at(self.inner, q).dom() =~= Set::<u64>::empty());
                    } else {
                        let o = choose|o: u64| #[trigger]
                            options_at(g, q).contains_key(o) && propagation_keeps(g, *adjacency, pos, dir, o);
                        assert(options_at(self.inner, q).contains_key(o));
                        if options_at(self.inner, q).dom().len() == 0 {
                            options_at(self.inner, q).dom().lemma_len0_is_empty();
                        }
                    }
                }
                assert(result is Err <==> emptied(g, *adjacency, pos, dir));
            }
            if result.is_err() {
                proof {
                    let q = neighbour_position(g, pos, dir)->0;
                    assert(result == Err::<(), GridPosition>(q));
                    assert forall|p: GridPosition|
                        !#[trigger] is_processed_neighbour(pos, g.spec_size(), p, k + 1) implies tile_at(self.inner, p)
                            == tile_at(g, p) by {
                        assert(!is_processed_neighbour(pos, g.spec_size(), p, k as int));
                        if nq is Some && nq->0.x == p.x && nq->0.y == p.y {
                            assert(march_hits(dir, pos, g.spec_size(), p));
                            assert(is_processed_neighbour(pos, g.spec_size(), p, k + 1));
                        }
                    }
                    assert forall|p: GridPosition|
                        !#[trigger] is_processed_neighbour(pos, g.spec_size(), p, 4) implies tile_at(self.inner, p)
                            == tile_at(g, p) by {
                        assert(!is_processed_neighbour(pos, g.spec_size(), p, k + 1)) by {
                            if is_processed_neighbour(pos, g.spec_size(), p, k + 1) {
                                let d = choose|d: GridDir| crate::map::dir_index(d) < k + 1 && #[trigger] march_hits(d, pos, g.spec_size(), p);
                                assert(crate::map::dir_index(d) < 4);
                            }
                        }
                    }
                    assert forall|d: GridDir, o: u64|
                        #![trigger options_at(self.inner, neighbour_position(g, pos, d)->0).contains_key(o)]
                        crate::map::dir_index(d) <= crate::map::dir_index(dir) && neighbour_position(g, pos, d) is Some
                            && collapsed_at(g, neighbour_position(g, pos, d)->0) is None implies (options_at(
                            self.inner,
                            neighbour_position(g, pos, d)->0,
                        ).contains_key(o) <==> options_at(g, neighbour_position(g, pos, d)->0).contains_key(o)
                            && propagation_keeps(g, *adjacency, pos, d, o)) by {
                        if d != dir {
                            let nd = neighbour_position(g, pos, d)->0;
                            assert(options_at(cur, nd).contains_key(o) <==> options_at(g, nd).contains_key(o)
                                && propagation_keeps(g, *adjacency, pos, d, o));
                            if nq is Some {
                                assert(nq->0.x != nd.x || nq->0.y != nd.y);
                            }
                            assert(tile_at(self.inner, nd) == tile_at(cur, nd));
                        }
                    }
                    assert(tile_at(self.inner, q) is Some);
                    assert(collapsed_at(self.inner, q) is None);
                    assert(emptied(g, *adjacency, pos, dir) && neighbour_position(g, pos, dir) == Some(q) && (forall|d: GridDir|
                        crate::map::dir_index(d) < crate::map::dir_index(dir) ==> !#[trigger] emptied(g, *adjacency, pos, d)));
                }
                return result;
            }
            k = k + 1;
            proof {
                assert forall|q: GridPosition|
                    !#[trigger] is_processed_neighbour(pos, g.spec_size(), q, k as int) implies tile_at(self.inner, q)
                        == tile_at(g, q) by {
                    assert(!is_processed_neighbour(pos, g.spec_size(), q, k - 1));
                    if nq is Some && nq->0.x == q.x && nq->0.y == q.y {
                        assert(march_hits(dir, pos, g.spec_size(), q));
                        assert(is_processed_neighbour(pos, g.spec_size(), q, k as int));
                    }
                }
                assert forall|d: GridDir, o: u64|
                    #![trigger options_at(self.inner, neighbour_position(g, pos, d)->0).contains_key(o)]
                    crate::map::dir_index(d) < k && neighbour_position(g, pos, d) is Some && collapsed_at(
                        g,
                        neighbour_position(g, pos, d)->0,
                    ) is None implies (options_at(self.inner, neighbour_position(g, pos, d)->0).contains_key(o)
                        <==> options_at(g, neighbour_position(g, pos, d)->0).contains_key(o) && propagation_keeps(
                        g,
                        *adjacency,
                        pos,
                        d,
                        o,
                    )) by {
                    if d != dir {
                        let q = neighbour_position(g, pos, d)->0;
                        assert(options_at(cur, q).contains_key(o) <==> options_at(g, q).contains_key(o)
                            && propagation_keeps(g, *adjacency, pos, d, o));
                        if nq is Some {
                            assert(nq->0.x != q.x || nq->0.y != q.y);
                        }
                        assert(tile_at(self.inner, q) == tile_at(cur, q));
                    }
                }
            }
        }
        Ok(())
    }
}

/// Every tile collapsed in `grid` but not in `base` is compatible with its collapsed neighbours.
pub open spec fn newly_collapsed_compatible<Data: IdentifiableTileData>(
    base: GridMap2D<CollapsibleTileData>,
    grid: GridMap2D<CollapsibleTileData>,
    rules: AdjacencyRules<Data>,
) -> bool {
    forall|p: GridPosition, d: GridDir|
        #![trigger neighbour_compatible(grid, rules, p, d)]
        collapsed_at(grid, p) is Some && collapsed_at(base, p) is None ==> neighbour_compatible(grid, rules, p, d)
}

/// Collapsing the uncollapsed tile at `next` into type `a`, allowing all its collapsed neighbours, keeps the
/// newly collapsed tiles compatible with their collapsed neighbours.
proof fn lemma_collapse_step<Data: IdentifiableTileData>(
    base: GridMap2D<CollapsibleTileData>,
    before: GridMap2D<CollapsibleTileData>,
    after: GridMap2D<CollapsibleTileData>,
    rules: AdjacencyRules<Data>,
    next: GridPosition,
    a: u64,
)
    requires
        newly_collapsed_compatible(base, before, rules),
        before.spec_size() == after.spec_size(),
        forall|p: GridPosition| #[trigger] tile_at(after, p) is Some <==> tile_at(before, p) is Some,
        tile_at(before, next) is Some,
        collapsed_at(before, next) is None,
        forall|p: GridPosition| #[trigger]
            collapsed_at(after, p) == if p.x == next.x && p.y == next.y {
                Some(a)
            } else {
                collapsed_at(before, p)
            },
        forall|d: GridDir|
            #![trigger neighbour_position(before, next, d)]
            neighbour_position(before, next, d) is Some && collapsed_at(before, neighbour_position(before, next, d)->0) is Some
                ==> rules.allows(a, d, collapsed_at(before, neighbour_position(before, next, d)->0)->0),
    ensures
        newly_collapsed_compatible(base, after, rules),
{
    crate::map::lemma_tile_at_valid(before, next);
    assert forall|p: GridPosition, d: GridDir|
        #![trigger neighbour_compatible(after, rules, p, d)]
        collapsed_at(after, p) is Some && collapsed_at(base, p) is None implies neighbour_compatible(after, rules, p, d) by {
        assert(neighbour_position(after, p, d) == neighbour_position(before, p, d));
        if let Some(q) = neighbour_position(after, p, d) {
            if collapsed_at(after, q) is Some {
                if p.x == next.x && p.y == next.y {
                    assert(neighbour_position(before, next, d) matches Some(n) && n.x == q.x && n.y == q.y);
                    let n = neighbour_position(before, next, d)->0;
                    assert(collapsed_at(before, n) == collapsed_at(before, q));
                    assert(rules.allows(a, d, collapsed_at(before, n)->0));
                } else if q.x == next.x && q.y == next.y {
                    crate::map::lemma_tile_at_valid(before, p);
                    lemma_march_round_trip(d, p, before.spec_size());
                    let back = spec_march(spec_opposite(d), next, before.spec_size());
                    assert(spec_march(spec_opposite(d), q, before.spec_size()) == Some(p));
                    assert(back matches Some(n) && n.x == p.x && n.y == p.y);
                    let n = back->0;
                    assert(tile_at(before, n) == tile_at(before, p));
                    assert(neighbour_position(before, next, spec_opposite(d)) == Some(n));
                    assert(collapsed_at(before, n) == collapsed_at(before, p));
                    assert(rules.allows(a, spec_opposite(d), collapsed_at(before, p)->0));
                    crate::map::lemma_opposite_involutive(d);
                } else {
                    assert(neighbour_compatible(before, rules, p, d));
                }
            }
        }
    }
}

impl<Data: IdentifiableTileData> CollapsibleResolver<Data> {
    /// Generates the tiles at `positions`: places tiles there which can be any of the tile types weighted by
    /// `frequencies`, removes options conflicting with the collapsed tiles around them, and then collapses them in
    /// the order of `queue`, each into one of its options compatible with its neighbours, at random (by `rng`).
    ///
    /// On success each of `positions` holds a collapsed tile, compatible with each of its collapsed neighbours by
    /// `adjacencies`. An error tells which tile was left without options, and at which stage. Whatever the
    /// outcome, every option taken from a tile left uncollapsed is unsupported by one of its neighbours (see
    /// [`generation_removals_justified`]).
    pub fn generate(
        &mut self,
        rng: &mut StdRng,
        positions: &[GridPosition],
        queue: PositionQueue,
        frequencies: &FrequencyHints<Data>,
        adjacencies: &AdjacencyRules<Data>,
    ) -> (r: Result<(), CollapseError>)
        requires
            old(self).ids_recorded(),
            forall|i: int| 0 <= i < positions@.len() ==> spec_position_valid(old(self).grid().spec_size(), #[trigger] positions@[i]),
            forall|q: GridPosition|
                #[trigger] queue.waiting().contains(q) ==> positions@.contains(q) || tile_at(old(self).grid(), q) is Some,
        ensures
            final(self).ids_recorded(),
            final(self).grid().spec_size() == old(self).grid().spec_size(),
            r is Ok ==> forall|i: int| 0 <= i < positions@.len() ==> collapsed_at(final(self).grid(), #[trigger] positions@[i]) is Some,
            r is Ok ==> forall|i: int, d: GridDir|
                0 <= i < positions@.len() ==> #[trigger] neighbour_compatible(final(self).grid(), *adjacencies, positions@[i], d),
            r matches Err(e) ==> failed_at(final(self).grid(), positions@, e),
            generation_removals_justified(old(self).grid(), positions@, frequencies.weights(), final(self).grid(), *adjacencies),
            positions@.len() == 0 && queue.waiting().len() == 0 ==> r is Ok,
            allows_known(*adjacencies, frequencies.weights(), old(self).grid()) && (exists|t: u64| frequencies.weights().contains_key(t) && frequencies.weights()[t]
                > 0) && (forall|q: GridPosition|
                tile_at(old(self).grid(), q) is Some && !filled_at(
                    old(self).grid().spec_size(),
                    positions@,
                    positions@.len() as int,
                    q,
                ) ==> #[trigger] collapsed_at(old(self).grid(), q) is Some) ==> r is Ok,
            (r matches Err(e) && e.spec_kind() == CollapseErrorKind::Init) <==> exists|i: int|
                0 <= i < positions@.len() && #[trigger] init_blocked(
                    old(self).grid(),
                    *adjacencies,
                    positions@,
                    frequencies.weights(),
                    positions@[i],
                ),
            r matches Err(e) ==> (e.spec_kind() == CollapseErrorKind::Init ==> exists|i: int|
                0 <= i < positions@.len() && e.spec_pos() == positions@[i] && #[trigger] init_blocked(
                    old(self).grid(),
                    *adjacencies,
                    positions@,
                    frequencies.weights(),
                    positions@[i],
                ) && forall|j: int|
                    0 <= j < i ==> !#[trigger] init_blocked(
                        old(self).grid(),
                        *adjacencies,
                        positions@,
                        frequencies.weights(),
                        positions@[j],
                    )),
            r is Ok ==> forall|i: int|
                0 <= i < positions@.len() ==> frequencies.weights().contains_key(
                    #[trigger] collapsed_at(final(self).grid(), positions@[i])->0,
                ),
            forall|p: GridPosition|
                !filled_at(old(self).grid().spec_size(), positions@, positions@.len() as int, p) && #[trigger] collapsed_at(
                    old(self).grid(),
                    p,
                ) is Some ==> collapsed_at(final(self).grid(), p) == collapsed_at(old(self).grid(), p),
    {
        self.generate_notifying::<CollapseHistorySubscriber>(rng, positions, queue, frequencies, adjacencies, &mut None)
    }

    /// [`generate`](Self::generate), telling `subscriber` (if any) of each tile collapsed, as it is.
    pub(crate) fn generate_notifying<S: Subscriber>(
        &mut self,
        rng: &mut StdRng,
        positions: &[GridPosition],
        queue: PositionQueue,
        frequencies: &FrequencyHints<Data>,
        adjacencies: &AdjacencyRules<Data>,
        subscriber: &mut Option<S>,
    ) -> (r: Result<(), CollapseError>)
        requires
            old(self).ids_recorded(),
            forall|i: int| 0 <= i < positions@.len() ==> spec_position_valid(old(self).grid().spec_size(), #[trigger] positions@[i]),
            forall|q: GridPosition|
                #[trigger] queue.waiting().contains(q) ==> positions@.contains(q) || tile_at(old(self).grid(), q) is Some,
        ensures
            final(self).ids_recorded(),
            final(self).grid().spec_size() == old(self).grid().spec_size(),
            r is Ok ==> forall|i: int| 0 <= i < positions@.len() ==> collapsed_at(final(self).grid(), #[trigger] positions@[i]) is Some,
            r is Ok ==> forall|i: int, d: GridDir|
                0 <= i < positions@.len() ==> #[trigger] neighbour_compatible(final(self).grid(), *adjacencies, positions@[i], d),
            r matches Err(e) ==> failed_at(final(self).grid(), positions@, e),
            generation_removals_justified(old(self).grid(), positions@, frequencies.weights(), final(self).grid(), *adjacencies),
            positions@.len() == 0 && queue.waiting().len() == 0 ==> r is Ok,
            allows_known(*adjacencies, frequencies.weights(), old(self).grid()) && (exists|t: u64| frequencies.weights().contains_key(t) && frequencies.weights()[t]
                > 0) && (forall|q: GridPosition|
                tile_at(old(self).grid(), q) is Some && !filled_at(
                    old(self).grid().spec_size(),
                    positions@,
                    positions@.len() as int,
                    q,
                ) ==> #[trigger] collapsed_at(old(self).grid(), q) is Some) ==> r is Ok,
            (r matches Err(e) && e.spec_kind() == CollapseErrorKind::Init) <==> exists|i: int|
                0 <= i < positions@.len() && #[trigger] init_blocked(
                    old(self).grid(),
                    *adjacencies,
                    positions@,
                    frequencies.weights(),
                    positions@[i],
                ),
            r matches Err(e) ==> (e.spec_kind() == CollapseErrorKind::Init ==> exists|i: int|
                0 <= i < positions@.len() && e.spec_pos() == positions@[i] && #[trigger] init_blocked(
                    old(self).grid(),
                    *adjacencies,
                    positions@,
                    frequencies.weights(),
                    positions@[i],
                ) && forall|j: int|
                    0 <= j < i ==> !#[trigger] init_blocked(
                        old(self).grid(),
                        *adjacencies,
                        positions@,
                        frequencies.weights(),
                        positions@[j],
                    )),
            r is Ok ==> forall|i: int|
                0 <= i < positions@.len() ==> frequencies.weights().contains_key(
                    #[trigger] collapsed_at(final(self).grid(), positions@[i])->0,
                ),
            forall|p: GridPosition|
                !filled_at(old(self).grid().spec_size(), positions@, positions@.len() as int, p) && #[trigger] collapsed_at(
                    old(self).grid(),
                    p,
                ) is Some ==> collapsed_at(final(self).grid(), p) == collapsed_at(old(self).grid(), p),
            (*final(subscriber)) is Some <==> (*old(subscriber)) is Some,
            S::keeps_record() && (*old(subscriber)) is Some ==> exists|log: Seq<(GridPosition, u64)>|
                #[trigger] reported_since(log, old(self).grid(), positions@, final(self).grid()) && (*final(subscriber))->0.told()
                    == (*old(subscriber))->0.told() + log,
    {
        let ghost nothing = positions@.len() == 0 && queue.waiting().len() == 0;
        let mut order = queue;
        let weights = frequencies.get_all_weights_cloned();
        order.initialize_queue(positions);
        proof {
            if nothing && order.waiting().len() > 0 {
                assert(order.waiting().contains(order.waiting()[0]));
            }
        }
        let ghost start = self.inner;
        let mut k: usize = 0;
        while k < positions.len()
            invariant
                k <= positions@.len(),
                self.inner.spec_size() == start.spec_size(),
                self.tile_ids == old(self).tile_ids,
                start == old(self).inner,
                *subscriber == *old(subscriber),
                forall|i: int| 0 <= i < positions@.len() ==> spec_position_valid(start.spec_size(), #[trigger] positions@[i]),
                forall|p: GridPosition|
                    !#[trigger] filled_at(start.spec_size(), positions@, k as int, p) ==> tile_at(self.inner, p) == tile_at(start, p),
                forall|p: GridPosition|
                    #[trigger] filled_at(start.spec_size(), positions@, k as int, p) ==> (tile_at(self.inner, p) matches Some(t)
                        && t.collapsed_id() is None && t.options() == frequencies.weights()),
                weights@ == frequencies.weights(),
            decreases positions@.len() - k,
        {
            let position = positions[k];
            let data = CollapsibleTileData::new_uncollapsed(super::tile::copy_weights(&weights));
            let ghost before = self.inner;
            self.inner.insert_data(&position, data);
            k = k + 1;
            proof {
                assert forall|p: GridPosition|
                    !#[trigger] filled_at(start.spec_size(), positions@, k as int, p) implies tile_at(self.inner, p)
                        == tile_at(start, p) by {
                    assert(!filled_at(start.spec_size(), positions@, k - 1, p));
                    assert(positions@[k - 1] == position);
                    if p.x == position.x && p.y == position.y {
                        assert(filled_at(start.spec_size(), positions@, k as int, p));
                    }
                }
                assert forall|p: GridPosition|
                    #[trigger] filled_at(start.spec_size(), positions@, k as int, p) implies (tile_at(self.inner, p) matches Some(t)
                        && t.collapsed_id() is None && t.options() == frequencies.weights()) by {
                    if !(p.x == position.x && p.y == position.y) {
                        let i = choose|i: int|
                            0 <= i < k && spec_position_valid(start.spec_size(), positions@[i])
                                && #[trigger] positions@[i].x == p.x && positions@[i].y == p.y;
                        assert(positions@[k - 1] == position);
                        assert(i < k - 1);
                        assert(filled_at(start.spec_size(), positions@, k - 1, p));
                    }
                }
            }
        }
        let ghost populated = self.inner;
        proof {
            assert forall|i: int| 0 <= i < positions@.len() implies collapsed_at(populated, #[trigger] positions@[i]) is None
                && tile_at(populated, positions@[i]) is Some by {
                assert(filled_at(start.spec_size(), positions@, positions@.len() as int, positions@[i]));
            }
            assert forall|p: GridPosition|
                #[trigger] collapsed_at(populated, p) is Some implies self.tile_ids@.contains(collapsed_at(populated, p)->0) by {
                assert(!filled_at(start.spec_size(), positions@, positions@.len() as int, p));
                assert(collapsed_at(start, p) == collapsed_at(populated, p));
            }
            assert(self.ids_recorded());
            assert forall|p: GridPosition|
                !filled_at(old(self).inner.spec_size(), positions@, positions@.len() as int, p) implies #[trigger] collapsed_at(
                    populated,
                    p,
                ) == collapsed_at(old(self).inner, p) by {
                assert(tile_at(populated, p) == tile_at(start, p));
            }
            assert(within_weights(populated, start.spec_size(), positions@, frequencies.weights()));
            assert(init_options(populated, old(self).inner, *adjacencies, positions@, frequencies.weights(), 0));
            assert forall|q: GridPosition| #[trigger]
                options_at(populated, q) == placed_options(old(self).inner, positions@, frequencies.weights(), q) by {
                if !filled_at(start.spec_size(), positions@, positions@.len() as int, q) {
                    assert(tile_at(populated, q) == tile_at(start, q));
                }
            }
        }
        let ghost free = allows_known(*adjacencies, frequencies.weights(), old(self).inner) && (exists|t: u64| frequencies.weights().contains_key(t) && frequencies.weights()[t] > 0)
            && (forall|q: GridPosition|
            tile_at(old(self).inner, q) is Some && !filled_at(old(self).inner.spec_size(), positions@, positions@.len() as int, q)
                ==> #[trigger] collapsed_at(old(self).inner, q) is Some);
        let ghost t0 = choose|t: u64| frequencies.weights().contains_key(t) && frequencies.weights()[t] > 0;
        proof {
            if free {
                assert forall|q: GridPosition| #[trigger] collapsed_at(populated, q) is Some implies type_known(
                    frequencies.weights(),
                    old(self).inner,
                    collapsed_at(populated, q)->0,
                ) by {
                    if filled_at(start.spec_size(), positions@, positions@.len() as int, q) {
                        assert(filled_at(start.spec_size(), positions@, k as int, q));
                    } else {
                        assert(tile_at(populated, q) == tile_at(start, q));
                        assert(collapsed_at(old(self).inner, q) == collapsed_at(populated, q));
                    }
                }
                assert forall|p: GridPosition|
                    #[trigger] tile_at(populated, p) is Some && collapsed_at(populated, p) is None implies options_at(
                        populated,
                        p,
                    ).contains_key(t0) && options_at(populated, p)[t0] > 0 by {
                    if !filled_at(start.spec_size(), positions@, positions@.len() as int, p) {
                        assert(tile_at(populated, p) == tile_at(start, p));
                    } else {
                        assert(filled_at(start.spec_size(), positions@, k as int, p));
                    }
                }
            }
        }
        proof {
            let e = Seq::<(GridPosition, u64)>::empty();
            assert forall|p: GridPosition|
                #[trigger] collapsed_at(populated, p) is Some && (collapsed_at(old(self).inner, p) is None || filled_at(
                    old(self).inner.spec_size(),
                    positions@,
                    positions@.len() as int,
                    p,
                )) implies exists|j: int| 0 <= j < e.len() && #[trigger] e[j].0.x == p.x && e[j].0.y == p.y by {
                if filled_at(old(self).inner.spec_size(), positions@, positions@.len() as int, p) {
                    let i = choose|i: int|
                        0 <= i < positions@.len() && spec_position_valid(old(self).inner.spec_size(), positions@[i])
                            && #[trigger] positions@[i].x == p.x && positions@[i].y == p.y;
                    assert(collapsed_at(populated, positions@[i]) is None);
                    assert(tile_at(populated, positions@[i]) == tile_at(populated, p));
                } else {
                    assert(tile_at(populated, p) == tile_at(start, p));
                }
            }
            assert(reported_since(e, old(self).inner, positions@, populated));
        }
        // Initial removal of options conflicting with collapsed neighbours.
        let mut changed: Vec<GridPosition> = Vec::new();
        let mut k: usize = 0;
        while k < positions.len()
            invariant
                k <= positions@.len(),
                same_collapse(self.inner, populated),
                populated.spec_size() == old(self).inner.spec_size(),
                forall|p: GridPosition|
                    !filled_at(old(self).inner.spec_size(), positions@, positions@.len() as int, p) ==> #[trigger] collapsed_at(
                        populated,
                        p,
                    ) == collapsed_at(old(self).inner, p),
                self.tile_ids@ == old(self).tile_ids@,
                self.ids_recorded(),
                forall|i: int| 0 <= i < positions@.len() ==> collapsed_at(populated, #[trigger] positions@[i]) is None
                    && tile_at(populated, positions@[i]) is Some,
                within_weights(self.inner, old(self).inner.spec_size(), positions@, frequencies.weights()),
                init_options(self.inner, old(self).inner, *adjacencies, positions@, frequencies.weights(), k as int),
                *subscriber == *old(subscriber),
                reported_since(Seq::<(GridPosition, u64)>::empty(), old(self).inner, positions@, self.inner),
                open_removals_justified(populated, self.inner, *adjacencies),
                forall|q: GridPosition| #[trigger]
                    options_at(populated, q) == placed_options(old(self).inner, positions@, frequencies.weights(), q),
                free ==> known_collapsed(self.inner, frequencies.weights(), old(self).inner),
                free == (allows_known(*adjacencies, frequencies.weights(), old(self).inner) && (exists|t: u64| frequencies.weights().contains_key(t) && frequencies.weights()[t] > 0)
                && (forall|q: GridPosition|
                tile_at(old(self).inner, q) is Some && !filled_at(old(self).inner.spec_size(), positions@, positions@.len() as int, q)
                    ==> #[trigger] collapsed_at(old(self).inner, q) is Some)),
                free ==> allows_known(*adjacencies, frequencies.weights(), old(self).inner) && frequencies.weights().contains_key(t0)
                    && keeps_option(self.inner, t0),
                forall|j: int|
                    0 <= j < k ==> !#[trigger] init_blocked(
                        old(self).inner,
                        *adjacencies,
                        positions@,
                        frequencies.weights(),
                        positions@[j],
                    ),
                forall|q: GridPosition|
                    !#[trigger] filled_at(old(self).inner.spec_size(), positions@, positions@.len() as int, q) ==> tile_at(
                        populated,
                        q,
                    ) == tile_at(old(self).inner, q),
                forall|i: int| 0 <= i < positions@.len() ==> spec_position_valid(old(self).inner.spec_size(), #[trigger] positions@[i]),
            decreases positions@.len() - k,
        {
            let position = positions[k];
            let ghost before = self.inner;
            let ghost before_ids = self.tile_ids@;
            proof {
                assert(tile_at(populated, positions@[k as int]) is Some);
            }
            let removal = self.remove_tile_options(&position, adjacencies, positions, changed.as_slice(), true);
            proof {
                lemma_init_step(
                    before,
                    self.inner,
                    old(self).inner,
                    populated,
                    *adjacencies,
                    positions@,
                    changed@,
                    frequencies.weights(),
                    k as int,
                    removal is Err,
                );
                if free {
                    assert forall|q: GridPosition| #[trigger] collapsed_at(before, q) is Some implies type_known(
                        frequencies.weights(),
                        old(self).inner,
                        collapsed_at(before, q)->0,
                    ) by {
                        assert(collapsed_at(before, q) == collapsed_at(populated, q));
                    }
                    lemma_free_no_conflict(
                        before,
                        old(self).inner,
                        frequencies.weights(),
                        *adjacencies,
                        position,
                        t0,
                        positions@,
                        changed@,
                        true,
                    );
                    assert forall|d: GridDir| !#[trigger] blocks_from(old(self).inner, *adjacencies, positions@, position, t0, d) by {
                        if spec_march(d, position, old(self).inner.spec_size()) is Some && collapsed_at(
                            old(self).inner,
                            spec_march(d, position, old(self).inner.spec_size())->0,
                        ) is Some {
                            assert(type_known(
                                frequencies.weights(),
                                old(self).inner,
                                collapsed_at(old(self).inner, spec_march(d, position, old(self).inner.spec_size())->0)->0,
                            ));
                            assert(adjacencies.allows(
                                t0,
                                d,
                                collapsed_at(old(self).inner, spec_march(d, position, old(self).inner.spec_size())->0)->0,
                            ));
                        }
                    }
                    assert(!init_blocked(old(self).inner, *adjacencies, positions@, frequencies.weights(), position));
                    assert(collapsed_at(before, position) == collapsed_at(populated, position));
                    assert(collapsed_at(populated, positions@[k as int]) is None);
                    assert(tile_at(before, position) is Some);
                    assert(options_at(before, position).contains_key(t0));
                    assert(options_at(self.inner, position).contains_key(t0));
                    assert(options_at(self.inner, position)[t0] == options_at(before, position)[t0]);
                    lemma_keeps_step(before, self.inner, position, t0);
                }
                assert(free ==> known_collapsed(self.inner, frequencies.weights(), old(self).inner)) by {
                    if free {
                        assert forall|q: GridPosition| #[trigger] collapsed_at(self.inner, q) is Some implies type_known(
                            frequencies.weights(),
                            old(self).inner,
                            collapsed_at(self.inner, q)->0,
                        ) by {
                            assert(collapsed_at(self.inner, q) == collapsed_at(before, q)) by {
                                if q.x == position.x && q.y == position.y {
                                    assert(tile_at(self.inner, q) == tile_at(self.inner, position));
                                    assert(tile_at(before, q) == tile_at(before, position));
                                }
                            }
                        }
                    }
                }
                assert(narrows_tile(tile_at(before, position), tile_at(self.inner, position)));
                lemma_narrows_at(before, self.inner, position);
                lemma_within_kept(before, self.inner, old(self).inner.spec_size(), positions@, frequencies.weights());
                lemma_collapse_unchanged(before, self.inner, position);
                lemma_removal_justified(before, self.inner, *adjacencies, position, positions@, changed@, true);
                lemma_open_justified_chain(populated, before, self.inner, *adjacencies);
                lemma_reported_same(Seq::<(GridPosition, u64)>::empty(), old(self).inner, positions@, before, self.inner);
                lemma_recorded_kept(before, before_ids, self.inner, self.tile_ids@);
                assert(same_collapse(self.inner, populated)) by {
                    assert forall|p: GridPosition| #[trigger] collapsed_at(self.inner, p) == collapsed_at(populated, p) by {
                        assert(collapsed_at(self.inner, p) == collapsed_at(before, p));
                    }
                    assert forall|p: GridPosition| #[trigger] tile_at(self.inner, p) is Some <==> tile_at(populated, p) is Some by {
                        assert(tile_at(self.inner, p) is Some <==> tile_at(before, p) is Some);
                    }
                }
            }
            match removal {
                Ok(true) => {
                    changed.push(position);
                },
                Ok(false) => {},
                Err(p) => {
                    proof {
                        if (*subscriber) is Some {
                            assert((*subscriber)->0.told() =~= (*old(subscriber))->0.told() + Seq::<(GridPosition, u64)>::empty());
                        }
                        lemma_generation_justified(
                            old(self).inner,
                            positions@,
                            frequencies.weights(),
                            populated,
                            self.inner,
                            *adjacencies,
                        );
                    }
                    return Err(CollapseError::new(p, CollapseErrorKind::Init));
                },
            }
            k = k + 1;
        }
        proof {
            assert forall|q: GridPosition| #[trigger] order.waiting().contains(q) implies tile_at(self.inner, q) is Some by {
                if positions@.contains(q) {
                    let i = positions@.index_of(q);
                    assert(tile_at(populated, positions@[i]) is Some);
                } else if !filled_at(start.spec_size(), positions@, positions@.len() as int, q) {
                    assert(tile_at(old(self).grid(), q) is Some);
                    assert(tile_at(populated, q) == tile_at(start, q));
                }
            }
            assert forall|p: GridPosition, d: GridDir|
                #![trigger neighbour_compatible(self.inner, *adjacencies, p, d)]
                collapsed_at(self.inner, p) is Some && collapsed_at(populated, p) is None implies neighbour_compatible(
                    self.inner,
                    *adjacencies,
                    p,
                    d,
                ) by {
                assert(collapsed_at(self.inner, p) == collapsed_at(populated, p));
            }
            assert forall|i: int| 0 <= i < positions@.len() implies collapsed_at(self.inner, #[trigger] positions@[i]) is Some
                || order.waiting().contains(positions@[i]) by {
                assert(positions@.contains(positions@[i]));
            }
        }
        let ghost mut log: Seq<(GridPosition, u64)> = Seq::empty();
        // Progress with collapse.
        while !order.is_empty()
            invariant
                self.inner.spec_size() == populated.spec_size(),
                populated.spec_size() == old(self).inner.spec_size(),
                forall|p: GridPosition| #[trigger] tile_at(self.inner, p) is Some <==> tile_at(populated, p) is Some,
                forall|p: GridPosition|
                    collapsed_at(populated, p) is Some ==> #[trigger] collapsed_at(self.inner, p) == collapsed_at(populated, p),
                forall|q: GridPosition| #[trigger] order.waiting().contains(q) ==> tile_at(self.inner, q) is Some,
                forall|i: int| 0 <= i < positions@.len() ==> collapsed_at(self.inner, #[trigger] positions@[i]) is Some
                    || order.waiting().contains(positions@[i]),
                forall|i: int| 0 <= i < positions@.len() ==> collapsed_at(populated, #[trigger] positions@[i]) is None,
                newly_collapsed_compatible(populated, self.inner, *adjacencies),
                self.ids_recorded(),
                within_weights(self.inner, old(self).inner.spec_size(), positions@, frequencies.weights()),
                forall|j: int|
                    0 <= j < positions@.len() ==> !#[trigger] init_blocked(
                        old(self).inner,
                        *adjacencies,
                        positions@,
                        frequencies.weights(),
                        positions@[j],
                    ),
                free == (allows_known(*adjacencies, frequencies.weights(), old(self).inner) && (exists|t: u64| frequencies.weights().contains_key(t) && frequencies.weights()[t] > 0)
                && (forall|q: GridPosition|
                tile_at(old(self).inner, q) is Some && !filled_at(old(self).inner.spec_size(), positions@, positions@.len() as int, q)
                    ==> #[trigger] collapsed_at(old(self).inner, q) is Some)),
                free ==> allows_known(*adjacencies, frequencies.weights(), old(self).inner) && frequencies.weights().contains_key(t0)
                    && keeps_option(self.inner, t0),
                forall|q: GridPosition|
                    !#[trigger] filled_at(old(self).inner.spec_size(), positions@, positions@.len() as int, q) ==> tile_at(
                        populated,
                        q,
                    ) == tile_at(old(self).inner, q),
                nothing ==> order.waiting().len() == 0,
                (*subscriber) is Some <==> (*old(subscriber)) is Some,
                S::keeps_record() && (*subscriber) is Some ==> (*subscriber)->0.told() == (*old(subscriber))->0.told() + log,
                reported_since(log, old(self).inner, positions@, self.inner),
                open_removals_justified(populated, self.inner, *adjacencies),
                forall|q: GridPosition| #[trigger]
                    options_at(populated, q) == placed_options(old(self).inner, positions@, frequencies.weights(), q),
                forall|p: GridPosition|
                    !filled_at(old(self).inner.spec_size(), positions@, positions@.len() as int, p) ==> #[trigger] collapsed_at(
                        populated,
                        p,
                    ) == collapsed_at(old(self).inner, p),
                (*subscriber) is Some <==> (*old(subscriber)) is Some,
                nothing == (positions@.len() == 0 && queue.waiting().len() == 0),
            decreases order.waiting().len(),
        {
            let ghost q_before = order;
            let next = order.get_next_position().unwrap();
            let ghost before = self.inner;
            let ghost before_ids = self.tile_ids@;
            let no_positions: Vec<GridPosition> = Vec::new();
            let removal = self.remove_tile_options(&next, adjacencies, no_positions.as_slice(), no_positions.as_slice(), false);
            let ghost filtered = self.inner;
            proof {
                if free && collapsed_at(before, next) is None {
                    lemma_known_collapsed(before, populated, old(self).inner, positions@, frequencies.weights());
                    lemma_free_no_conflict(
                        before,
                        old(self).inner,
                        frequencies.weights(),
                        *adjacencies,
                        next,
                        t0,
                        no_positions@,
                        no_positions@,
                        false,
                    );
                    assert(options_at(filtered, next).contains_key(t0));
                    tile_at(filtered, next)->0.lemma_options_finite();
                    if options_at(filtered, next).dom().len() == 0 {
                        options_at(filtered, next).dom().lemma_len0_is_empty();
                        assert(options_at(filtered, next).dom().contains(t0));
                    }
                }
                lemma_collapse_unchanged(before, filtered, next);
                lemma_reported_same(log, old(self).inner, positions@, before, filtered);
                lemma_recorded_kept(before, before_ids, filtered, self.tile_ids@);
                assert(narrows_tile(tile_at(before, next), tile_at(filtered, next)));
                lemma_narrows_at(before, filtered, next);
                lemma_removal_justified(before, filtered, *adjacencies, next, no_positions@, no_positions@, false);
                lemma_open_justified_chain(populated, before, filtered, *adjacencies);
            }
            match removal {
                Ok(_) => {},
                Err(p) => {
                    proof {
                        lemma_generation_justified(
                            old(self).inner,
                            positions@,
                            frequencies.weights(),
                            populated,
                            filtered,
                            *adjacencies,
                        );
                    }
                    return Err(CollapseError::new(p, CollapseErrorKind::Collapse));
                },
            }
            proof {
                assert(narrows_tile(tile_at(before, next), tile_at(filtered, next)));
                lemma_narrows_at(before, filtered, next);
                if free {
                    if collapsed_at(before, next) is None {
                        lemma_known_collapsed(before, populated, old(self).inner, positions@, frequencies.weights());
                        lemma_free_no_conflict(
                            before,
                            old(self).inner,
                            frequencies.weights(),
                            *adjacencies,
                            next,
                            t0,
                            no_positions@,
                            no_positions@,
                            false,
                        );
                        assert(options_at(before, next).contains_key(t0));
                        assert(options_at(filtered, next).contains_key(t0));
                        assert(options_at(filtered, next)[t0] == options_at(before, next)[t0]);
                        tile_at(filtered, next)->0.lemma_positive_option(t0);
                    }
                    lemma_keeps_step(before, filtered, next, t0);
                }
            }
            let outcome = {
                let tile = self.inner.get_mut_tile_at_position(&next).unwrap();
                tile.data.collapse(rng, next)
            };
            let ghost collapsed_grid = self.inner;
            proof {
                assert forall|p: GridPosition| #[trigger] tile_at(collapsed_grid, p) is Some <==> tile_at(filtered, p) is Some by {
                    if !(p.x == next.x && p.y == next.y) {
                        assert(tile_at(collapsed_grid, p) == tile_at(filtered, p));
                    }
                }
            }
            match outcome {
                Ok(true) => {
                    let id = self.inner.get_tile_at_position(&next).unwrap().inner().tile_type_id();
                    push_id(&mut self.tile_ids, id);
                    match subscriber {
                        Some(s) => s.on_collapse(&next, id),
                        None => {},
                    }
                    proof {
                        assert forall|p: GridPosition| !(p.x == next.x && p.y == next.y) implies #[trigger] collapsed_at(
                            self.inner,
                            p,
                        ) == collapsed_at(filtered, p) by {
                            assert(tile_at(collapsed_grid, p) == tile_at(filtered, p));
                        }
                        lemma_reported_collapse(log, old(self).inner, positions@, filtered, self.inner, next, id);
                        log = log.push((next, id));
                    }
                },
                Ok(false) => {},
                Err(p) => {
                    proof {
                        lemma_collapse_unchanged(filtered, self.inner, next);
                        lemma_reported_same(log, old(self).inner, positions@, filtered, self.inner);
                        lemma_recorded_kept(filtered, self.tile_ids@, self.inner, self.tile_ids@);
                        assert(tile_at(self.inner, next) == tile_at(filtered, next));
                        assert(narrows_tile(tile_at(filtered, next), tile_at(self.inner, next)));
                        lemma_narrows_at(filtered, self.inner, next);
                        lemma_collapse_step_justified(filtered, self.inner, *adjacencies, next);
                        lemma_open_justified_chain(populated, filtered, self.inner, *adjacencies);
                        lemma_generation_justified(
                            old(self).inner,
                            positions@,
                            frequencies.weights(),
                            populated,
                            self.inner,
                            *adjacencies,
                        );
                    }
                    return Err(CollapseError::new(p, CollapseErrorKind::Collapse));
                },
            }
            proof {
                if free {
                    lemma_keeps_step(filtered, collapsed_grid, next, t0);
                }
                assert(narrows_tile(tile_at(filtered, next), tile_at(collapsed_grid, next)));
                lemma_narrows_at(filtered, collapsed_grid, next);
                lemma_narrows_trans(before, filtered, collapsed_grid);
                lemma_collapse_step_justified(filtered, collapsed_grid, *adjacencies, next);
                lemma_open_justified_chain(populated, filtered, collapsed_grid, *adjacencies);
            }
            let ghost collapsed_ids = self.tile_ids@;
            let ghost a = collapsed_at(collapsed_grid, next);
            proof {
                if outcome == Ok::<bool, GridPosition>(false) {
                    lemma_collapse_unchanged(filtered, collapsed_grid, next);
                    lemma_reported_same(log, old(self).inner, positions@, filtered, collapsed_grid);
                }
                assert forall|p: GridPosition|
                    #[trigger] collapsed_at(collapsed_grid, p) is Some implies collapsed_ids.contains(collapsed_at(collapsed_grid, p)->0) by {
                    if !(p.x == next.x && p.y == next.y) {
                        assert(collapsed_at(collapsed_grid, p) == collapsed_at(filtered, p));
                        assert(self.tile_ids@.contains(collapsed_at(filtered, p)->0));
                    } else {
                        assert(collapsed_at(collapsed_grid, p) == collapsed_at(collapsed_grid, next));
                        if outcome == Ok::<bool, GridPosition>(false) {
                            assert(collapsed_at(filtered, p) == collapsed_at(filtered, next));
                        }
                    }
                }
            }
            proof {
                if free {
                    assert(collapsed_at(collapsed_grid, next) is Some);
                    lemma_known_collapsed(before, populated, old(self).inner, positions@, frequencies.weights());
                    assert(type_known(frequencies.weights(), old(self).inner, collapsed_at(collapsed_grid, next)->0)) by {
                        if collapsed_at(before, next) is Some {
                            assert(collapsed_at(filtered, next) == collapsed_at(before, next));
                        } else {
                            assert(collapsed_at(filtered, next) is None);
                            assert(options_at(filtered, next).contains_key(collapsed_at(collapsed_grid, next)->0));
                            if !filled_at(old(self).inner.spec_size(), positions@, positions@.len() as int, next) {
                                assert(tile_at(populated, next) == tile_at(old(self).inner, next));
                                assert(tile_at(populated, next) is Some);
                            }
                            assert(tile_at(before, next) is Some);
                        }
                    }
                    lemma_free_not_emptied(collapsed_grid, old(self).inner, frequencies.weights(), *adjacencies, next, t0);
                }
            }
            let propagation = self.propagate_from(next, adjacencies);
            proof {
                lemma_propagate_from_justified(collapsed_grid, self.inner, *adjacencies, next, propagation);
                lemma_narrowed_narrows(collapsed_grid, self.inner);
                lemma_open_justified_chain(populated, collapsed_grid, self.inner, *adjacencies);
                lemma_reported_same(log, old(self).inner, positions@, collapsed_grid, self.inner);
                lemma_recorded_kept(collapsed_grid, collapsed_ids, self.inner, self.tile_ids@);
                assert forall|p: GridPosition| #[trigger] tile_at(self.inner, p) is Some <==> tile_at(populated, p) is Some by {
                    assert(tile_at(self.inner, p) is Some <==> tile_at(collapsed_grid, p) is Some);
                    assert(tile_at(filtered, p) is Some <==> tile_at(before, p) is Some);
                }
                assert forall|p: GridPosition|
                    collapsed_at(populated, p) is Some implies #[trigger] collapsed_at(self.inner, p) == collapsed_at(populated, p) by {
                    assert(collapsed_at(self.inner, p) == collapsed_at(collapsed_grid, p));
                    assert(collapsed_at(before, p) == collapsed_at(populated, p));
                    assert(collapsed_at(filtered, p) == collapsed_at(before, p));
                    if p.x == next.x && p.y == next.y {
                        assert(collapsed_at(before, next) == collapsed_at(before, p));
                        assert(collapsed_at(collapsed_grid, p) == collapsed_at(collapsed_grid, next));
                    } else {
                        assert(collapsed_at(collapsed_grid, p) == collapsed_at(filtered, p));
                    }
                }
                if outcome == Ok::<bool, GridPosition>(true) {
                    let a = collapsed_at(collapsed_grid, next)->0;
                    assert(collapsed_at(filtered, next) is None);
                    assert forall|p: GridPosition| #[trigger]
                        collapsed_at(self.inner, p) == if p.x == next.x && p.y == next.y {
                            Some(a)
                        } else {
                            collapsed_at(filtered, p)
                        } by {
                        assert(collapsed_at(self.inner, p) == collapsed_at(collapsed_grid, p));
                        if p.x == next.x && p.y == next.y {
                            assert(collapsed_at(collapsed_grid, p) == collapsed_at(collapsed_grid, next));
                        }
                    }
                    assert(options_at(filtered, next).contains_key(a));
                    assert forall|d: GridDir|
                        #![trigger neighbour_position(filtered, next, d)]
                        neighbour_position(filtered, next, d) is Some && collapsed_at(filtered, neighbour_position(filtered, next, d)->0) is Some
                            implies adjacencies.allows(a, d, collapsed_at(filtered, neighbour_position(filtered, next, d)->0)->0) by {
                        let n = neighbour_position(filtered, next, d)->0;
                        assert(neighbour_position(before, next, d) == neighbour_position(filtered, next, d));
                        crate::map::lemma_tile_at_valid(before, next);
                        assert(n.x != next.x || n.y != next.y);
                        assert(collapsed_at(filtered, n) == collapsed_at(before, n));
                        assert(!conflicts_at(before, *adjacencies, next, a, d, Seq::<GridPosition>::empty(), Seq::<GridPosition>::empty(), false));
                    }
                    lemma_compatible_kept(populated, before, filtered, *adjacencies);
                    lemma_collapse_step(populated, filtered, self.inner, *adjacencies, next, a);
                } else {
                    lemma_same_collapse_trans(self.inner, collapsed_grid, filtered);
                    lemma_same_collapse_trans(self.inner, filtered, before);
                    lemma_compatible_kept(populated, before, self.inner, *adjacencies);
                }
                assert forall|q: GridPosition| #[trigger] order.waiting().contains(q) implies tile_at(self.inner, q) is Some by {
                    assert(q_before.waiting().contains(q));
                }
                assert forall|i: int| 0 <= i < positions@.len() implies collapsed_at(self.inner, #[trigger] positions@[i]) is Some
                    || order.waiting().contains(positions@[i]) by {
                    let p = positions@[i];
                    if p == next {
                        if outcome == Ok::<bool, GridPosition>(false) {
                            assert(collapsed_at(before, next) is Some);
                        }
                    } else if q_before.waiting().contains(p) {
                        assert(order.waiting().contains(p));
                    } else {
                        assert(collapsed_at(before, p) is Some);
                        assert(collapsed_at(filtered, p) == collapsed_at(before, p));
                        if p.x == next.x && p.y == next.y {
                            assert(collapsed_at(before, p) == collapsed_at(before, next));
                            assert(collapsed_at(collapsed_grid, p) == collapsed_at(collapsed_grid, next));
                        } else {
                            assert(collapsed_at(collapsed_grid, p) == collapsed_at(filtered, p));
                        }
                        assert(collapsed_at(self.inner, p) == collapsed_at(collapsed_grid, p));
                    }
                }
            }
            match propagation {
                Ok(()) => {},
                Err(p) => {
                    proof {
                        lemma_generation_justified(
                            old(self).inner,
                            positions@,
                            frequencies.weights(),
                            populated,
                            self.inner,
                            *adjacencies,
                        );
                    }
                    return Err(CollapseError::new(p, CollapseErrorKind::NeighbourUpdate));
                },
            }
            proof {
                lemma_propagation_narrows(collapsed_grid, self.inner, *adjacencies, next);
                if free {
                    lemma_keeps_propagation(
                        collapsed_grid,
                        self.inner,
                        *adjacencies,
                        next,
                        t0,
                        old(self).inner,
                        frequencies.weights(),
                    );
                }
                lemma_narrows_trans(before, collapsed_grid, self.inner);
                lemma_within_kept(before, self.inner, old(self).inner.spec_size(), positions@, frequencies.weights());
            }
        }
        proof {
            assert forall|i: int| 0 <= i < positions@.len() implies frequencies.weights().contains_key(
                #[trigger] collapsed_at(self.inner, positions@[i])->0,
            ) by {
                if !(collapsed_at(self.inner, positions@[i]) is Some) {
                    assert(order.waiting().contains(positions@[i]));
                }
                assert(filled_at(old(self).inner.spec_size(), positions@, positions@.len() as int, positions@[i]));
            }
            assert forall|i: int| 0 <= i < positions@.len() implies collapsed_at(self.inner, #[trigger] positions@[i]) is Some by {
                if !(collapsed_at(self.inner, positions@[i]) is Some) {
                    assert(order.waiting().contains(positions@[i]));
                }
            }
            assert forall|i: int, d: GridDir|
                0 <= i < positions@.len() implies #[trigger] neighbour_compatible(self.inner, *adjacencies, positions@[i], d) by {
                assert(collapsed_at(self.inner, positions@[i]) is Some);
                assert(collapsed_at(populated, positions@[i]) is None);
            }
            lemma_generation_justified(
                old(self).inner,
                positions@,
                frequencies.weights(),
                populated,
                self.inner,
                *adjacencies,
            );
        }
        Ok(())
    }
}

impl<Data: IdentifiableTileData> CollapsibleResolver<Data> {
    /// Size of the grid.
    pub fn grid_size(&self) -> (r: &GridSize)
        ensures
            *r == self.grid().spec_size(),
            r.x * r.y <= usize::MAX,
    {
        self.inner.size()
    }

    /// Puts a tile collapsed into `tile_id` at `position`, if it is valid within the grid, recording the type.
    pub fn insert_collapsed(&mut self, position: &GridPosition, tile_id: u64)
        requires
            old(self).ids_recorded(),
        ensures
            final(self).ids_recorded(),
            final(self).grid().spec_size() == old(self).grid().spec_size(),
            forall|p: GridPosition| #[trigger]
                tile_at(final(self).grid(), p) is Some <==> tile_at(old(self).grid(), p) is Some || (spec_position_valid(
                    old(self).grid().spec_size(),
                    *position,
                ) && p.x == position.x && p.y == position.y),
            forall|p: GridPosition| #[trigger]
                options_at(final(self).grid(), p) == if spec_position_valid(old(self).grid().spec_size(), *position)
                    && p.x == position.x && p.y == position.y {
                    Map::<u64, u32>::empty()
                } else {
                    options_at(old(self).grid(), p)
                },
            forall|p: GridPosition| #[trigger]
                collapsed_at(final(self).grid(), p) == if spec_position_valid(old(self).grid().spec_size(), *position)
                    && p.x == position.x && p.y == position.y {
                    Some(tile_id)
                } else {
                    collapsed_at(old(self).grid(), p)
                },
            forall|t: u64| #[trigger]
                final(self).collapsed_ids().contains(t) <==> old(self).collapsed_ids().contains(t) || t == tile_id,
    {
        push_id(&mut self.tile_ids, tile_id);
        let ghost before = self.inner;
        self.inner.insert_data(position, CollapsibleTileData::new_collapsed_data(tile_id));
        proof {
            assert forall|p: GridPosition| #[trigger]
                tile_at(self.inner, p) == if spec_position_valid(before.spec_size(), *position) && p.x == position.x
                    && p.y == position.y {
                    tile_at(self.inner, *position)
                } else {
                    tile_at(before, p)
                } by {
                if !(p.x == position.x && p.y == position.y) {
                    assert(self.inner.cell(p.x as int, p.y as int) == before.cell(p.x as int, p.y as int));
                }
            }
            assert forall|p: GridPosition| #[trigger] options_at(self.inner, p) == if spec_position_valid(
                before.spec_size(),
                *position,
            ) && p.x == position.x && p.y == position.y {
                Map::<u64, u32>::empty()
            } else {
                options_at(before, p)
            } by {
                assert(tile_at(self.inner, p) == if spec_position_valid(before.spec_size(), *position) && p.x
                    == position.x && p.y == position.y {
                    tile_at(self.inner, *position)
                } else {
                    tile_at(before, p)
                });
            }
            assert forall|p: GridPosition| #[trigger] collapsed_at(self.inner, p) == if spec_position_valid(
                before.spec_size(),
                *position,
            ) && p.x == position.x && p.y == position.y {
                Some(tile_id)
            } else {
                collapsed_at(before, p)
            } by {
                assert(tile_at(self.inner, p) == if spec_position_valid(before.spec_size(), *position) && p.x
                    == position.x && p.y == position.y {
                    tile_at(self.inner, *position)
                } else {
                    tile_at(before, p)
                });
            }
            assert forall|p: GridPosition|
                #[trigger] collapsed_at(self.grid(), p) is Some implies self.collapsed_ids().contains(
                    collapsed_at(self.grid(), p)->0,
                ) by {
                if !(spec_position_valid(before.spec_size(), *position) && p.x == position.x && p.y == position.y) {
                    assert(collapsed_at(before, p) is Some);
                }
            }
        }
    }

    /// Removes every tile not collapsed.
    pub fn remove_uncollapsed(&mut self)
        requires
            old(self).ids_recorded(),
        ensures
            final(self).ids_recorded(),
            final(self).grid().spec_size() == old(self).grid().spec_size(),
            final(self).collapsed_ids() == old(self).collapsed_ids(),
            forall|p: GridPosition| #[trigger]
                tile_at(final(self).grid(), p) == if collapsed_at(old(self).grid(), p) is Some {
                    tile_at(old(self).grid(), p)
                } else {
                    None
                },
    {
        let positions = self.inner.get_all_positions();
        let ghost start = self.inner;
        let mut k: usize = 0;
        while k < positions.len()
            invariant
                k <= positions@.len(),
                listing_of(positions@, |p: GridPosition| occupied(start, p)),
                self.inner.spec_size() == start.spec_size(),
                self.tile_ids == old(self).tile_ids,
                start == old(self).inner,
                forall|p: GridPosition| #[trigger]
                    tile_at(self.inner, p) == if collapsed_at(start, p) is None && exists|i: int|
                        0 <= i < k && #[trigger] positions@[i].x == p.x && positions@[i].y == p.y {
                        None
                    } else {
                        tile_at(start, p)
                    },
            decreases positions@.len() - k,
        {
            let position = positions[k];
            proof {
                assert(positions@.contains(position));
            }
            let ghost before = self.inner;
            proof {
                assert forall|i: int| 0 <= i < k implies !(#[trigger] positions@[i].x == position.x && positions@[i].y
                    == position.y) by {
                    assert(crate::map::xy_lt(positions@[i], positions@[k as int]));
                }
                assert(tile_at(before, position) == tile_at(start, position));
            }
            let collapsed = self.inner.get_tile_at_position(&position).unwrap().inner().is_collapsed();
            if !collapsed {
                self.inner.remove_tile_at_position(&position);
            }
            k = k + 1;
            proof {
                assert forall|p: GridPosition| #[trigger]
                    tile_at(self.inner, p) == if collapsed_at(start, p) is None && exists|i: int|
                        0 <= i < k && #[trigger] positions@[i].x == p.x && positions@[i].y == p.y {
                        None
                    } else {
                        tile_at(start, p)
                    } by {
                    if p.x == position.x && p.y == position.y {
                        assert(positions@[k - 1].x == p.x && positions@[k - 1].y == p.y);
                        assert(tile_at(start, p) == tile_at(start, position));
                        assert(tile_at(before, p) == tile_at(before, position));
                        assert(collapsed_at(start, p) == collapsed_at(start, position));
                        assert(collapsed == (collapsed_at(before, position) is Some));
                        if collapsed {
                            assert(tile_at(self.inner, p) == tile_at(before, p));
                        } else {
                            assert(self.inner.cell(position.x as int, position.y as int) is None);
                            assert(tile_at(self.inner, p) is None);
                        }
                    } else {
                        assert(self.inner.cell(p.x as int, p.y as int) == before.cell(p.x as int, p.y as int));
                        if exists|i: int| 0 <= i < k && #[trigger] positions@[i].x == p.x && positions@[i].y == p.y {
                            let i = choose|i: int| 0 <= i < k && #[trigger] positions@[i].x == p.x && positions@[i].y == p.y;
                            assert(i != k - 1);
                        }
                    }
                }
            }
        }
        proof {
            assert forall|p: GridPosition| #[trigger]
                tile_at(self.inner, p) == if collapsed_at(start, p) is Some {
                    tile_at(start, p)
                } else {
                    None
                } by {
                if collapsed_at(start, p) is None && tile_at(start, p) is Some {
                    let q0 = GridPosition { x: p.x, y: p.y, z: None };
                    crate::map::lemma_tile_at_valid(start, p);
                    assert(tile_at(start, q0) == tile_at(start, p));
                    assert(positions@.contains(q0));
                    let i = positions@.index_of(q0);
                    assert(positions@[i].x == p.x && positions@[i].y == p.y);
                }
            }
            assert forall|p: GridPosition|
                #[trigger] collapsed_at(self.grid(), p) is Some implies self.collapsed_ids().contains(
                    collapsed_at(self.grid(), p)->0,
                ) by {
                assert(collapsed_at(start, p) is Some);
            }
        }
    }

    /// The collapsed tiles of the grid, as a grid of their tile types.
    pub fn retrieve_collapsed(&self) -> (c: CollapsedGrid)
        ensures
            c.ids_recorded(),
            c.spec_grid().spec_size() == self.grid().spec_size(),
            forall|p: GridPosition| #[trigger] tile_at(c.spec_grid(), p) is Some <==> collapsed_at(self.grid(), p) is Some,
            forall|p: GridPosition| #[trigger]
                tile_at(c.spec_grid(), p) is Some ==> tile_at(c.spec_grid(), p)->0.spec_tile_type_id() == collapsed_at(
                    self.grid(),
                    p,
                )->0,
            forall|t: u64| #[trigger] c.type_ids().contains(t) ==> exists|p: GridPosition| #[trigger]
                collapsed_at(self.grid(), p) == Some(t),
    {
        let size = *self.inner.size();
        let mut out = CollapsedGrid::new(size);
        let positions = self.inner.get_all_positions();
        let mut k: usize = 0;
        while k < positions.len()
            invariant
                k <= positions@.len(),
                listing_of(positions@, |p: GridPosition| occupied(self.inner, p)),
                out.ids_recorded(),
                out.spec_grid().spec_size() == self.inner.spec_size(),
                forall|q: GridPosition| #[trigger]
                    tile_at(out.spec_grid(), q) is Some <==> (exists|i: int|
                        0 <= i < k && #[trigger] positions@[i].x == q.x && positions@[i].y == q.y) && collapsed_at(
                        self.inner,
                        q,
                    ) is Some,
                forall|q: GridPosition| #[trigger]
                    tile_at(out.spec_grid(), q) is Some ==> tile_at(out.spec_grid(), q)->0.spec_tile_type_id()
                        == collapsed_at(self.inner, q)->0,
                forall|t: u64| #[trigger] out.type_ids().contains(t) ==> exists|p: GridPosition| #[trigger]
                    collapsed_at(self.inner, p) == Some(t),
            decreases positions@.len() - k,
        {
            let position = positions[k];
            proof {
                assert(positions@.contains(position));
                crate::map::lemma_tile_at_valid(self.inner, position);
            }
            let tile = self.inner.get_tile_at_position(&position).unwrap();
            let ghost before = out;
            if let Some(id) = tile.inner().collapse_id() {
                out.insert_data(&position, CollapsedTileData::new(id));
                proof {
                    assert(collapsed_at(self.inner, position) == Some(id));
                }
            }
            k = k + 1;
            proof {
                assert forall|q: GridPosition| #[trigger]
                    tile_at(out.spec_grid(), q) is Some <==> (exists|i: int|
                        0 <= i < k && #[trigger] positions@[i].x == q.x && positions@[i].y == q.y) && collapsed_at(
                        self.inner,
                        q,
                    ) is Some by {
                    if q.x == position.x && q.y == position.y {
                        assert(positions@[k - 1].x == q.x && positions@[k - 1].y == q.y);
                        assert(collapsed_at(self.inner, q) == collapsed_at(self.inner, position));
                    } else {
                        assert(tile_at(out.spec_grid(), q) == tile_at(before.spec_grid(), q));
                        if exists|i: int| 0 <= i < k && #[trigger] positions@[i].x == q.x && positions@[i].y == q.y {
                            let i = choose|i: int| 0 <= i < k && #[trigger] positions@[i].x == q.x && positions@[i].y == q.y;
                            assert(i != k - 1);
                        }
                    }
                }
                assert forall|q: GridPosition| #[trigger]
                    tile_at(out.spec_grid(), q) is Some implies tile_at(out.spec_grid(), q)->0.spec_tile_type_id()
                        == collapsed_at(self.inner, q)->0 by {
                    if q.x == position.x && q.y == position.y {
                        assert(collapsed_at(self.inner, q) == collapsed_at(self.inner, position));
                        assert(tile_at(out.spec_grid(), q) == tile_at(out.spec_grid(), position));
                    } else {
                        assert(tile_at(out.spec_grid(), q) == tile_at(before.spec_grid(), q));
                    }
                }
            }
        }
        proof {
            assert forall|q: GridPosition| #[trigger] tile_at(out.spec_grid(), q) is Some <==> collapsed_at(self.inner, q) is Some by {
                if collapsed_at(self.inner, q) is Some {
                    let q0 = GridPosition { x: q.x, y: q.y, z: None };
                    crate::map::lemma_tile_at_valid(self.inner, q);
                    assert(tile_at(self.inner, q0) == tile_at(self.inner, q));
                    assert(positions@.contains(q0));
                    let i = positions@.index_of(q0);
                    assert(positions@[i].x == q.x && positions@[i].y == q.y);
                }
            }
        }
        out
    }

    /// Builds a grid map of the collapsed tiles with `builder`, which must be able to build each tile type present.
    pub fn build_collapsed<OutputData: IdentifiableTileData, Builder: IdentTileBuilder<OutputData>>(
        &self,
        builder: &Builder,
    ) -> (grid: GridMap2D<OutputData>)
        requires
            forall|p: GridPosition| #[trigger]
                collapsed_at(self.grid(), p) is Some ==> builder.can_build(collapsed_at(self.grid(), p)->0),
        ensures
            grid.spec_size() == self.grid().spec_size(),
            forall|p: GridPosition| #[trigger] tile_at(grid, p) is Some <==> collapsed_at(self.grid(), p) is Some,
            forall|p: GridPosition| #[trigger]
                tile_at(grid, p) is Some ==> builder.builds(collapsed_at(self.grid(), p)->0, tile_at(grid, p)->0),
    {
        let size = *self.inner.size();
        let mut grid: GridMap2D<OutputData> = GridMap2D::new(size);
        let positions = self.inner.get_all_positions();
        let mut k: usize = 0;
        while k < positions.len()
            invariant
                k <= positions@.len(),
                forall|p: GridPosition| #[trigger]
                    collapsed_at(self.inner, p) is Some ==> builder.can_build(collapsed_at(self.inner, p)->0),
                listing_of(positions@, |p: GridPosition| occupied(self.inner, p)),
                grid.spec_size() == self.inner.spec_size(),
                forall|q: GridPosition| #[trigger]
                    tile_at(grid, q) is Some <==> (exists|i: int|
                        0 <= i < k && #[trigger] positions@[i].x == q.x && positions@[i].y == q.y) && collapsed_at(
                        self.inner,
                        q,
                    ) is Some,
                forall|q: GridPosition| #[trigger]
                    tile_at(grid, q) is Some ==> builder.builds(collapsed_at(self.inner, q)->0, tile_at(grid, q)->0),
            decreases positions@.len() - k,
        {
            let position = positions[k];
            proof {
                assert(positions@.contains(position));
            }
            let tile = self.inner.get_tile_at_position(&position).unwrap();
            let ghost before = grid;
            if let Some(id) = tile.inner().collapse_id() {
                proof {
                    assert(collapsed_at(self.inner, position) == Some(id));
                }
                grid.insert_tile(builder.build_tile_unchecked(position, id));
            }
            k = k + 1;
            proof {
                assert forall|q: GridPosition| #[trigger]
                    tile_at(grid, q) is Some <==> (exists|i: int|
                        0 <= i < k && #[trigger] positions@[i].x == q.x && positions@[i].y == q.y) && collapsed_at(
                        self.inner,
                        q,
                    ) is Some by {
                    if q.x == position.x && q.y == position.y {
                        assert(positions@[k - 1].x == q.x && positions@[k - 1].y == q.y);
                        assert(collapsed_at(self.inner, q) == collapsed_at(self.inner, position));
                    } else {
                        assert(tile_at(grid, q) == tile_at(before, q));
                        if exists|i: int| 0 <= i < k && #[trigger] positions@[i].x == q.x && positions@[i].y == q.y {
                            let i = choose|i: int| 0 <= i < k && #[trigger] positions@[i].x == q.x && positions@[i].y == q.y;
                            assert(i != k - 1);
                        }
                    }
                }
                assert forall|q: GridPosition| #[trigger]
                    tile_at(grid, q) is Some implies builder.builds(collapsed_at(self.inner, q)->0, tile_at(grid, q)->0) by {
                    if q.x == position.x && q.y == position.y {
                        assert(collapsed_at(self.inner, q) == collapsed_at(self.inner, position));
                        assert(tile_at(grid, q) == tile_at(grid, position));
                    } else {
                        assert(tile_at(grid, q) == tile_at(before, q));
                    }
                }
            }
        }
        proof {
            assert forall|q: GridPosition| #[trigger] tile_at(grid, q) is Some <==> collapsed_at(self.inner, q) is Some by {
                if collapsed_at(self.inner, q) is Some {
                    let q0 = GridPosition { x: q.x, y: q.y, z: None };
                    crate::map::lemma_tile_at_valid(self.inner, q);
                    assert(tile_at(self.inner, q0) == tile_at(self.inner, q));
                    assert(positions@.contains(q0));
                    let i = positions@.index_of(q0);
                    assert(positions@[i].x == q.x && positions@[i].y == q.y);
                }
            }
        }
        grid
    }
}

impl<Data: IdentifiableTileData> CollapsibleResolver<Data> {
    /// Builds a grid map of the collapsed tiles with `builder`, after checking that it can build every tile type
    /// recorded by the resolver (the error lists those it cannot).
    pub fn build_grid<OutputData: IdentifiableTileData, Builder: IdentTileBuilder<OutputData>>(
        &self,
        builder: &Builder,
    ) -> (r: Result<GridMap2D<OutputData>, TileBuilderError>)
        requires
            self.ids_recorded(),
        ensures
            r is Ok <==> forall|i: int|
                0 <= i < self.collapsed_ids().len() ==> builder.can_build(#[trigger] self.collapsed_ids()[i]),
            r matches Err(e) ==> e@ == missing_ids(self.collapsed_ids(), |id: u64| builder.can_build(id)),
            r matches Ok(grid) ==> grid.spec_size() == self.grid().spec_size() && (forall|p: GridPosition|
                #[trigger] tile_at(grid, p) is Some <==> collapsed_at(self.grid(), p) is Some) && (forall|p: GridPosition|
                #[trigger] tile_at(grid, p) is Some ==> builder.builds(
                    collapsed_at(self.grid(), p)->0,
                    tile_at(grid, p)->0,
                )),
    {
        let ids = self.tile_ids.as_slice();
        assert(ids@ == self.collapsed_ids());
        match builder.check_missing_ids(ids) {
            Ok(()) => {},
            Err(e) => {
                proof {
                    let i = choose|i: int| 0 <= i < ids@.len() && !builder.can_build(#[trigger] ids@[i]);
                    assert(!builder.can_build(self.collapsed_ids()[i]));
                }
                return Err(e);
            },
        }
        let size = *self.inner.size();
        let mut grid: GridMap2D<OutputData> = GridMap2D::new(size);
        let positions = self.inner.get_all_positions();
        let mut k: usize = 0;
        while k < positions.len()
            invariant
                k <= positions@.len(),
                self.ids_recorded(),
                forall|i: int| 0 <= i < self.tile_ids@.len() ==> builder.can_build(#[trigger] self.tile_ids@[i]),
                listing_of(positions@, |p: GridPosition| occupied(self.inner, p)),
                grid.spec_size() == self.inner.spec_size(),
                forall|q: GridPosition| #[trigger]
                    tile_at(grid, q) is Some <==> (exists|i: int|
                        0 <= i < k && #[trigger] positions@[i].x == q.x && positions@[i].y == q.y) && collapsed_at(
                        self.inner,
                        q,
                    ) is Some,
                forall|q: GridPosition| #[trigger]
                    tile_at(grid, q) is Some ==> builder.builds(collapsed_at(self.inner, q)->0, tile_at(grid, q)->0),
            decreases positions@.len() - k,
        {
            let position = positions[k];
            proof {
                assert(positions@.contains(position));
            }
            let tile = self.inner.get_tile_at_position(&position).unwrap();
            let ghost before = grid;
            if let Some(id) = tile.inner().collapse_id() {
                proof {
                    assert(collapsed_at(self.inner, position) == Some(id));
                    let j = self.tile_ids@.index_of(id);
                    assert(builder.can_build(self.tile_ids@[j]));
                }
                grid.insert_tile(builder.build_tile_unchecked(position, id));
            }
            k = k + 1;
            proof {
                assert forall|q: GridPosition| #[trigger]
                    tile_at(grid, q) is Some <==> (exists|i: int|
                        0 <= i < k && #[trigger] positions@[i].x == q.x && positions@[i].y == q.y) && collapsed_at(
                        self.inner,
                        q,
                    ) is Some by {
                    if q.x == position.x && q.y == position.y {
                        assert(positions@[k - 1].x == q.x && positions@[k - 1].y == q.y);
                        assert(collapsed_at(self.inner, q) == collapsed_at(self.inner, position));
                    } else {
                        assert(tile_at(grid, q) == tile_at(before, q));
                        if exists|i: int| 0 <= i < k && #[trigger] positions@[i].x == q.x && positions@[i].y == q.y {
                            let i = choose|i: int| 0 <= i < k && #[trigger] positions@[i].x == q.x && positions@[i].y == q.y;
                            assert(i != k - 1);
                        }
                    }
                }
                assert forall|q: GridPosition| #[trigger]
                    tile_at(grid, q) is Some implies builder.builds(collapsed_at(self.inner, q)->0, tile_at(grid, q)->0) by {
                    if q.x == position.x && q.y == position.y {
                        assert(collapsed_at(self.inner, q) == collapsed_at(self.inner, position));
                        assert(tile_at(grid, q) == tile_at(grid, position));
                    } else {
                        assert(tile_at(grid, q) == tile_at(before, q));
                    }
                }
            }
        }
        proof {
            assert forall|q: GridPosition| #[trigger] tile_at(grid, q) is Some <==> collapsed_at(self.inner, q) is Some by {
                if collapsed_at(self.inner, q) is Some {
                    let q0 = GridPosition { x: q.x, y: q.y, z: None };
                    crate::map::lemma_tile_at_valid(self.inner, q);
                    assert(tile_at(self.inner, q0) == tile_at(self.inner, q));
                    assert(positions@.contains(q0));
                    let i = positions@.index_of(q0);
                    assert(positions@[i].x == q.x && positions@[i].y == q.y);
                }
            }
        }
        Ok(grid)
    }
}

/// With symmetric rules, as both analyzers derive them, each tile generated by
/// [`generate`](CollapsibleResolver::generate) allows each collapsed neighbour in the direction it lies in.
pub proof fn lemma_generated_neighbours_allowed<Data: IdentifiableTileData>(
    grid: GridMap2D<CollapsibleTileData>,
    rules: AdjacencyRules<Data>,
    p: GridPosition,
    d: GridDir,
)
    requires
        rules.symmetric(),
        neighbour_compatible(grid, rules, p, d),
        collapsed_at(grid, p) is Some,
        neighbour_position(grid, p, d) is Some,
        collapsed_at(grid, neighbour_position(grid, p, d)->0) is Some,
    ensures
        rules.allows(collapsed_at(grid, p)->0, d, collapsed_at(grid, neighbour_position(grid, p, d)->0)->0),
        rules.allows(collapsed_at(grid, neighbour_position(grid, p, d)->0)->0, spec_opposite(d), collapsed_at(grid, p)->0),
{
}

/// A change of tiles at `pos` which keeps the collapse there keeps the collapse of the whole grid.
/// Option `o` at `p` is ruled out from direction `d` by a tile collapsed before the generation: the neighbour
/// there is not among `positions` and is collapsed into a type that does not allow `o` next to it.
pub open spec fn blocks_from<Data: IdentifiableTileData>(
    grid: GridMap2D<CollapsibleTileData>,
    rules: AdjacencyRules<Data>,
    positions: Seq<GridPosition>,
    p: GridPosition,
    o: u64,
    d: GridDir,
) -> bool {
    &&& spec_march(d, p, grid.spec_size()) is Some
    &&& !filled_at(grid.spec_size(), positions, positions.len() as int, spec_march(d, p, grid.spec_size())->0)
    &&& collapsed_at(grid, spec_march(d, p, grid.spec_size())->0) is Some
    &&& !rules.allows(o, d, collapsed_at(grid, spec_march(d, p, grid.spec_size())->0)->0)
}

/// Option `o` at `p` is ruled out by a tile collapsed before the generation.
pub open spec fn precollapsed_blocks<Data: IdentifiableTileData>(
    grid: GridMap2D<CollapsibleTileData>,
    rules: AdjacencyRules<Data>,
    positions: Seq<GridPosition>,
    p: GridPosition,
    o: u64,
) -> bool {
    exists|d: GridDir| #[trigger] blocks_from(grid, rules, positions, p, o, d)
}

/// Every option weighted by `weights` is ruled out at `p` by the tiles collapsed before the generation.
pub open spec fn init_blocked<Data: IdentifiableTileData>(
    grid: GridMap2D<CollapsibleTileData>,
    rules: AdjacencyRules<Data>,
    positions: Seq<GridPosition>,
    weights: Map<u64, u32>,
    p: GridPosition,
) -> bool {
    forall|o: u64| #[trigger] weights.contains_key(o) ==> precollapsed_blocks(grid, rules, positions, p, o)
}

/// Being blocked by the tiles collapsed before the generation depends on which tiles are collapsed alone.
pub proof fn lemma_init_blocked_by_collapse<Data: IdentifiableTileData>(
    a: GridMap2D<CollapsibleTileData>,
    b: GridMap2D<CollapsibleTileData>,
    rules: AdjacencyRules<Data>,
    positions: Seq<GridPosition>,
    weights: Map<u64, u32>,
)
    requires
        a.spec_size() == b.spec_size(),
        forall|q: GridPosition| #[trigger] collapsed_at(a, q) == collapsed_at(b, q),
    ensures
        forall|p: GridPosition| #[trigger]
            init_blocked(a, rules, positions, weights, p) == init_blocked(b, rules, positions, weights, p),
        forall|p: GridPosition, o: u64| #[trigger]
            precollapsed_blocks(a, rules, positions, p, o) == precollapsed_blocks(b, rules, positions, p, o),
{
    assert forall|p: GridPosition, o: u64, d: GridDir| #[trigger] blocks_from(a, rules, positions, p, o, d) == blocks_from(
        b,
        rules,
        positions,
        p,
        o,
        d,
    ) by {}
    assert forall|p: GridPosition, o: u64| #[trigger] precollapsed_blocks(a, rules, positions, p, o) == precollapsed_blocks(
        b,
        rules,
        positions,
        p,
        o,
    ) by {
        if precollapsed_blocks(a, rules, positions, p, o) {
            let d = choose|d: GridDir| #[trigger] blocks_from(a, rules, positions, p, o, d);
            assert(blocks_from(b, rules, positions, p, o, d));
        }
        if precollapsed_blocks(b, rules, positions, p, o) {
            let d = choose|d: GridDir| #[trigger] blocks_from(b, rules, positions, p, o, d);
            assert(blocks_from(a, rules, positions, p, o, d));
        }
    }
}

/// While the tiles at `positions` are uncollapsed and the others are as in `old`, an option conflicts with the
/// collapsed neighbours of a position exactly when a tile collapsed before the generation rules it out.
proof fn lemma_init_conflicts<Data: IdentifiableTileData>(
    grid: GridMap2D<CollapsibleTileData>,
    old: GridMap2D<CollapsibleTileData>,
    rules: AdjacencyRules<Data>,
    positions: Seq<GridPosition>,
    changed: Seq<GridPosition>,
    pos: GridPosition,
    o: u64,
)
    requires
        grid.spec_size() == old.spec_size(),
        spec_position_valid(old.spec_size(), pos),
        forall|q: GridPosition|
            !#[trigger] filled_at(old.spec_size(), positions, positions.len() as int, q) ==> (tile_at(grid, q) is Some
                <==> tile_at(old, q) is Some) && collapsed_at(grid, q) == collapsed_at(old, q),
        forall|q: GridPosition|
            #[trigger] filled_at(old.spec_size(), positions, positions.len() as int, q) ==> collapsed_at(grid, q) is None,
    ensures
        conflicts(grid, rules, pos, o, positions, changed, true) <==> precollapsed_blocks(old, rules, positions, pos, o),
{
    let size = old.spec_size();
    if conflicts(grid, rules, pos, o, positions, changed, true) {
        let d = choose|d: GridDir| #[trigger] conflicts_at(grid, rules, pos, o, d, positions, changed, true);
        let q = neighbour_position(grid, pos, d)->0;
        assert(collapsed_at(grid, q) is Some);
        assert(!filled_at(size, positions, positions.len() as int, q));
        assert(blocks_from(old, rules, positions, pos, o, d));
    }
    if precollapsed_blocks(old, rules, positions, pos, o) {
        let d = choose|d: GridDir| #[trigger] blocks_from(old, rules, positions, pos, o, d);
        let q = spec_march(d, pos, size)->0;
        crate::map::lemma_march_stays_valid(d, pos, size);
        assert(tile_at(grid, q) is Some);
        assert(neighbour_position(grid, pos, d) == Some(q));
        if positions.contains(q) {
            let i = positions.index_of(q);
            assert(filled_at(size, positions, positions.len() as int, q));
        }
        assert(conflicts_at(grid, rules, pos, o, d, positions, changed, true));
    }
}

/// Whether an option is ruled out at a position depends on its coordinates alone.
proof fn lemma_blocks_coords<Data: IdentifiableTileData>(
    grid: GridMap2D<CollapsibleTileData>,
    rules: AdjacencyRules<Data>,
    positions: Seq<GridPosition>,
    p: GridPosition,
    q: GridPosition,
    o: u64,
)
    requires
        p.x == q.x && p.y == q.y,
    ensures
        precollapsed_blocks(grid, rules, positions, p, o) == precollapsed_blocks(grid, rules, positions, q, o),
{
    let size = grid.spec_size();
    assert forall|d: GridDir| #[trigger] blocks_from(grid, rules, positions, p, o, d) == blocks_from(grid, rules, positions, q, o, d) by {
        if spec_march(d, p, size) is Some {
            let a = spec_march(d, p, size)->0;
            let b = spec_march(d, q, size)->0;
            assert(a.x == b.x && a.y == b.y);
            assert(tile_at(grid, a) == tile_at(grid, b));
            assert(filled_at(size, positions, positions.len() as int, a) == filled_at(size, positions, positions.len() as int, b));
        }
    }
    if precollapsed_blocks(grid, rules, positions, p, o) {
        let d = choose|d: GridDir| #[trigger] blocks_from(grid, rules, positions, p, o, d);
        assert(blocks_from(grid, rules, positions, q, o, d));
    }
    if precollapsed_blocks(grid, rules, positions, q, o) {
        let d = choose|d: GridDir| #[trigger] blocks_from(grid, rules, positions, q, o, d);
        assert(blocks_from(grid, rules, positions, p, o, d));
    }
}

/// Options at the positions after the first `k` of them lost the options ruled out by the tiles collapsed
/// before the generation: each holds the weighted options, less those ruled out once it was reached.
pub open spec fn init_options<Data: IdentifiableTileData>(
    grid: GridMap2D<CollapsibleTileData>,
    old: GridMap2D<CollapsibleTileData>,
    rules: AdjacencyRules<Data>,
    positions: Seq<GridPosition>,
    weights: Map<u64, u32>,
    k: int,
) -> bool {
    forall|p: GridPosition, o: u64|
        #![trigger filled_at(old.spec_size(), positions, positions.len() as int, p), options_at(grid, p).contains_key(o)]
        filled_at(old.spec_size(), positions, positions.len() as int, p) ==> (options_at(grid, p).contains_key(o)
            <==> weights.contains_key(o) && (filled_at(old.spec_size(), positions, k, p) ==> !precollapsed_blocks(
            old,
            rules,
            positions,
            p,
            o,
        )))
}

/// One step of the initial removal: the options at `positions[k]` lose those ruled out by the tiles collapsed
/// before the generation, and the removal fails exactly when that position is blocked.
proof fn lemma_init_step<Data: IdentifiableTileData>(
    before: GridMap2D<CollapsibleTileData>,
    after: GridMap2D<CollapsibleTileData>,
    old: GridMap2D<CollapsibleTileData>,
    populated: GridMap2D<CollapsibleTileData>,
    rules: AdjacencyRules<Data>,
    positions: Seq<GridPosition>,
    changed: Seq<GridPosition>,
    w0: Map<u64, u32>,
    k: int,
    err: bool,
)
    requires
        0 <= k < positions.len(),
        before.spec_size() == old.spec_size(),
        populated.spec_size() == old.spec_size(),
        spec_position_valid(old.spec_size(), positions[k]),
        same_collapse(before, populated),
        forall|i: int| 0 <= i < positions.len() ==> collapsed_at(populated, #[trigger] positions[i]) is None,
        forall|q: GridPosition|
            !#[trigger] filled_at(old.spec_size(), positions, positions.len() as int, q) ==> tile_at(populated, q) == tile_at(old, q),
        init_options(before, old, rules, positions, w0, k),
        after.spec_size() == before.spec_size(),
        after.same_except(&before, positions[k].x as int, positions[k].y as int),
        tile_at(after, positions[k]) is Some,
        forall|o: u64| #[trigger]
            options_at(after, positions[k]).contains_key(o) <==> options_at(before, positions[k]).contains_key(o)
                && !conflicts(before, rules, positions[k], o, positions, changed, true),
        err <==> options_at(after, positions[k]).dom().len() == 0,
    ensures
        init_options(after, old, rules, positions, w0, k + 1),
        err <==> init_blocked(old, rules, positions, w0, positions[k]),
{
    let position = positions[k];
                let size = old.spec_size();
        let w = w0;
        let len = positions.len() as int;
        assert(positions[k] == position);
        assert(filled_at(size, positions, len, position));
        assert forall|q: GridPosition|
            !#[trigger] filled_at(size, positions, len, q) implies (tile_at(before, q) is Some <==> tile_at(
                old,
                q,
            ) is Some) && collapsed_at(before, q) == collapsed_at(old, q) by {
            assert(tile_at(before, q) is Some <==> tile_at(populated, q) is Some);
            assert(collapsed_at(before, q) == collapsed_at(populated, q));
        }
        assert forall|q: GridPosition| #[trigger] filled_at(size, positions, len, q) implies collapsed_at(before, q) is None by {
            let i = choose|i: int|
                0 <= i < len && spec_position_valid(size, positions[i]) && #[trigger] positions[i].x == q.x
                    && positions[i].y == q.y;
            assert(collapsed_at(populated, positions[i]) is None);
            assert(tile_at(populated, positions[i]) == tile_at(populated, q));
            assert(collapsed_at(before, q) == collapsed_at(populated, q));
        }
        assert forall|o: u64| #[trigger] options_at(after, position).contains_key(o) <==> w.contains_key(o)
            && !precollapsed_blocks(old, rules, positions, position, o) by {
            lemma_init_conflicts(before, old, rules, positions, changed, position, o);
            assert(options_at(before, position).contains_key(o) <==> w.contains_key(o) && (filled_at(
                size,
                positions,
                k,
                position,
            ) ==> !precollapsed_blocks(old, rules, positions, position, o)));
        }
        assert forall|p: GridPosition, o: u64|
            #![trigger filled_at(size, positions, len, p), options_at(after, p).contains_key(o)]
            filled_at(size, positions, len, p) implies (options_at(after, p).contains_key(o) <==> w.contains_key(o)
                && (filled_at(size, positions, k + 1, p) ==> !precollapsed_blocks(
                old,
                rules,
                positions,
                p,
                o,
            ))) by {
            if p.x == position.x && p.y == position.y {
                assert(tile_at(after, p) == tile_at(after, position));
                assert(options_at(after, p) == options_at(after, position));
                lemma_blocks_coords(old, rules, positions, p, position, o);
                assert(filled_at(size, positions, k + 1, p));
                assert(options_at(after, position).contains_key(o) <==> w.contains_key(o)
                    && !precollapsed_blocks(old, rules, positions, position, o));
            } else {
                assert(tile_at(after, p) == tile_at(before, p));
                assert(options_at(after, p) == options_at(before, p));
                assert(options_at(before, p).contains_key(o) <==> w.contains_key(o) && (filled_at(size, positions, k, p)
                    ==> !precollapsed_blocks(old, rules, positions, p, o)));
                if filled_at(size, positions, k + 1, p) {
                    let i = choose|i: int|
                        0 <= i < k + 1 && spec_position_valid(size, positions[i]) && #[trigger] positions[i].x == p.x
                            && positions[i].y == p.y;
                    assert(i != k);
                    assert(filled_at(size, positions, k, p));
                }
                if filled_at(size, positions, k, p) {
                    let i = choose|i: int|
                        0 <= i < k && spec_position_valid(size, positions[i]) && #[trigger] positions[i].x == p.x
                            && positions[i].y == p.y;
                    assert(filled_at(size, positions, k + 1, p));
                }
            }
        }
        assert(init_options(after, old, rules, positions, w, k + 1));
        tile_at(after, position)->0.lemma_options_finite();
        if err {
            assert forall|o: u64| #[trigger] w.contains_key(o) implies precollapsed_blocks(
                old,
                rules,
                positions,
                position,
                o,
            ) by {
                if !precollapsed_blocks(old, rules, positions, position, o) {
                    assert(options_at(after, position).contains_key(o));
                    options_at(after, position).dom().lemma_len0_is_empty();
                    assert(options_at(after, position).dom().contains(o));
                }
            }
            assert(init_blocked(old, rules, positions, w, position));
        } else {
            if options_at(after, position).dom().len() == 0 {
            }
            assert(options_at(after, position).dom().len() != 0);
            if options_at(after, position).dom() =~= Set::<u64>::empty() {
            }
            let o = options_at(after, position).dom().choose();
            assert(options_at(after, position).dom().contains(o));
            assert(!init_blocked(old, rules, positions, w, position));
        }
}

/// Every tile of `grid` not collapsed keeps option `t0`, with a positive weight.
pub open spec fn keeps_option(grid: GridMap2D<CollapsibleTileData>, t0: u64) -> bool {
    forall|p: GridPosition|
        #[trigger] tile_at(grid, p) is Some && collapsed_at(grid, p) is None ==> options_at(grid, p).contains_key(t0)
            && options_at(grid, p)[t0] > 0
}

/// Tile type `c` is weighted by `weights` or is the type of a tile collapsed in `grid`.
pub open spec fn type_known(weights: Map<u64, u32>, grid: GridMap2D<CollapsibleTileData>, c: u64) -> bool {
    weights.contains_key(c) || exists|q: GridPosition| #[trigger] collapsed_at(grid, q) == Some(c)
}

/// The rules allow every type weighted by `weights` next to every type weighted by `weights` or collapsed in
/// `grid`, in every direction.
pub open spec fn allows_known<Data: IdentifiableTileData>(
    rules: AdjacencyRules<Data>,
    weights: Map<u64, u32>,
    grid: GridMap2D<CollapsibleTileData>,
) -> bool {
    forall|a: u64, d: GridDir, c: u64|
        weights.contains_key(a) && type_known(weights, grid, c) ==> #[trigger] rules.allows(a, d, c)
}

/// Every tile collapsed in `grid` is of a type known from `weights` and `old`.
pub open spec fn known_collapsed(
    grid: GridMap2D<CollapsibleTileData>,
    weights: Map<u64, u32>,
    old: GridMap2D<CollapsibleTileData>,
) -> bool {
    forall|q: GridPosition| #[trigger] collapsed_at(grid, q) is Some ==> type_known(weights, old, collapsed_at(grid, q)->0)
}

/// During the collapse, with every tile outside `positions` collapsed beforehand, the collapsed tiles are of
/// weighted types or of the types collapsed beforehand.
proof fn lemma_known_collapsed(
    grid: GridMap2D<CollapsibleTileData>,
    populated: GridMap2D<CollapsibleTileData>,
    old: GridMap2D<CollapsibleTileData>,
    positions: Seq<GridPosition>,
    weights: Map<u64, u32>,
)
    requires
        within_weights(grid, old.spec_size(), positions, weights),
        forall|q: GridPosition|
            !#[trigger] filled_at(old.spec_size(), positions, positions.len() as int, q) ==> tile_at(populated, q) == tile_at(old, q),
        forall|q: GridPosition|
            tile_at(old, q) is Some && !filled_at(old.spec_size(), positions, positions.len() as int, q)
                ==> #[trigger] collapsed_at(old, q) is Some,
        forall|p: GridPosition|
            collapsed_at(populated, p) is Some ==> #[trigger] collapsed_at(grid, p) == collapsed_at(populated, p),
        forall|p: GridPosition| #[trigger] tile_at(grid, p) is Some <==> tile_at(populated, p) is Some,
    ensures
        known_collapsed(grid, weights, old),
{
    assert forall|q: GridPosition| #[trigger] collapsed_at(grid, q) is Some implies type_known(weights, old, collapsed_at(grid, q)->0) by {
        if !filled_at(old.spec_size(), positions, positions.len() as int, q) {
            assert(tile_at(populated, q) is Some);
            assert(collapsed_at(old, q) is Some);
            assert(collapsed_at(populated, q) == collapsed_at(old, q));
            assert(collapsed_at(grid, q) == collapsed_at(populated, q));
        }
    }
}

/// Where every pair is allowed, an option kept by every uncollapsed tile conflicts with no neighbour.
proof fn lemma_free_no_conflict<Data: IdentifiableTileData>(
    grid: GridMap2D<CollapsibleTileData>,
    old: GridMap2D<CollapsibleTileData>,
    weights: Map<u64, u32>,
    rules: AdjacencyRules<Data>,
    pos: GridPosition,
    t0: u64,
    omit: Seq<GridPosition>,
    changed: Seq<GridPosition>,
    collapsed_only: bool,
)
    requires
        allows_known(rules, weights, old),
        weights.contains_key(t0),
        known_collapsed(grid, weights, old),
        keeps_option(grid, t0),
    ensures
        !conflicts(grid, rules, pos, t0, omit, changed, collapsed_only),
{
    assert forall|d: GridDir| !#[trigger] conflicts_at(grid, rules, pos, t0, d, omit, changed, collapsed_only) by {
        if neighbour_position(grid, pos, d) is Some {
            let q = neighbour_position(grid, pos, d)->0;
            assert(type_known(weights, old, t0));
            assert(rules.allows(t0, d, t0));
            if collapsed_at(grid, q) is Some {
                assert(type_known(weights, old, collapsed_at(grid, q)->0));
                assert(rules.allows(t0, d, collapsed_at(grid, q)->0));
            } else {
                assert(tile_at(grid, q) is Some);
                tile_at(grid, q)->0.lemma_positive_option(t0);
                let ids = option_ids_at(grid, q);
                let i = ids.index_of(t0);
                assert(rules.allows(t0, d, ids[i]));
            }
        }
    }
}

/// Where every pair is allowed, propagation from a collapsed tile leaves no neighbour without options.
proof fn lemma_free_not_emptied<Data: IdentifiableTileData>(
    grid: GridMap2D<CollapsibleTileData>,
    old: GridMap2D<CollapsibleTileData>,
    weights: Map<u64, u32>,
    rules: AdjacencyRules<Data>,
    pos: GridPosition,
    t0: u64,
)
    requires
        allows_known(rules, weights, old),
        weights.contains_key(t0),
        keeps_option(grid, t0),
        collapsed_at(grid, pos) is Some,
        type_known(weights, old, collapsed_at(grid, pos)->0),
    ensures
        forall|d: GridDir| !#[trigger] emptied(grid, rules, pos, d),
{
    assert forall|d: GridDir| !#[trigger] emptied(grid, rules, pos, d) by {
        if neighbour_position(grid, pos, d) is Some && collapsed_at(grid, neighbour_position(grid, pos, d)->0) is None {
            let q = neighbour_position(grid, pos, d)->0;
            assert(tile_at(grid, q) is Some);
            assert(options_at(grid, q).contains_key(t0));
            assert(rules.allows(t0, spec_opposite(d), collapsed_at(grid, pos)->0));
            assert(propagation_keeps(grid, rules, pos, d, t0));
        }
    }
}

/// Changing one cell, which keeps the option if it is not collapsed, keeps the option everywhere.
proof fn lemma_keeps_step(
    before: GridMap2D<CollapsibleTileData>,
    after: GridMap2D<CollapsibleTileData>,
    pos: GridPosition,
    t0: u64,
)
    requires
        forall|p: GridPosition| !(p.x == pos.x && p.y == pos.y) ==> #[trigger] tile_at(after, p) == tile_at(before, p),
        keeps_option(before, t0),
        tile_at(after, pos) is Some && collapsed_at(after, pos) is None ==> options_at(after, pos).contains_key(t0)
            && options_at(after, pos)[t0] > 0,
    ensures
        keeps_option(after, t0),
{
    assert forall|p: GridPosition|
        #[trigger] tile_at(after, p) is Some && collapsed_at(after, p) is None implies options_at(after, p).contains_key(t0)
            && options_at(after, p)[t0] > 0 by {
        if p.x == pos.x && p.y == pos.y {
            assert(tile_at(after, p) == tile_at(after, pos));
        } else {
            assert(tile_at(after, p) == tile_at(before, p));
        }
    }
}

/// Where every pair is allowed, successful propagation from a collapsed tile keeps the option everywhere.
proof fn lemma_keeps_propagation<Data: IdentifiableTileData>(
    a: GridMap2D<CollapsibleTileData>,
    b: GridMap2D<CollapsibleTileData>,
    rules: AdjacencyRules<Data>,
    pos: GridPosition,
    t0: u64,
    old: GridMap2D<CollapsibleTileData>,
    weights: Map<u64, u32>,
)
    requires
        allows_known(rules, weights, old),
        weights.contains_key(t0),
        type_known(weights, old, collapsed_at(a, pos)->0),
        keeps_option(a, t0),
        collapsed_at(a, pos) is Some,
        same_collapse(b, a),
        forall|q: GridPosition|
            !#[trigger] is_processed_neighbour(pos, a.spec_size(), q, 4) ==> tile_at(b, q) == tile_at(a, q),
        forall|d: GridDir, o: u64|
            #![trigger options_at(b, neighbour_position(a, pos, d)->0).contains_key(o)]
            neighbour_position(a, pos, d) is Some && collapsed_at(a, neighbour_position(a, pos, d)->0) is None ==> (
            options_at(b, neighbour_position(a, pos, d)->0).contains_key(o) <==> options_at(
                a,
                neighbour_position(a, pos, d)->0,
            ).contains_key(o) && propagation_keeps(a, rules, pos, d, o)),
        forall|q: GridPosition, o: u64| #[trigger]
            options_at(b, q).contains_key(o) ==> options_at(b, q)[o] == options_at(a, q)[o],
    ensures
        keeps_option(b, t0),
{
    assert forall|p: GridPosition|
        #[trigger] tile_at(b, p) is Some && collapsed_at(b, p) is None implies options_at(b, p).contains_key(t0)
            && options_at(b, p)[t0] > 0 by {
        assert(tile_at(a, p) is Some);
        assert(collapsed_at(a, p) is None);
        if is_processed_neighbour(pos, a.spec_size(), p, 4) {
            let d = choose|d: GridDir| crate::map::dir_index(d) < 4 && #[trigger] march_hits(d, pos, a.spec_size(), p);
            let q = spec_march(d, pos, a.spec_size())->0;
            assert(tile_at(a, q) == tile_at(a, p));
            assert(tile_at(b, q) == tile_at(b, p));
            assert(neighbour_position(a, pos, d) == Some(q));
            assert(rules.allows(t0, spec_opposite(d), collapsed_at(a, pos)->0));
            assert(options_at(b, q).contains_key(t0));
        }
    }
}

/// Each collapse in `log` names a tile collapsed in `grid` into the type given, and every tile collapsed in `grid`
/// that was not collapsed in `old`, or is at one of `positions`, is named in `log`.
pub open spec fn reported_since(
    log: Seq<(GridPosition, u64)>,
    old: GridMap2D<CollapsibleTileData>,
    positions: Seq<GridPosition>,
    grid: GridMap2D<CollapsibleTileData>,
) -> bool {
    &&& forall|j: int| 0 <= j < log.len() ==> collapsed_at(grid, #[trigger] log[j].0) == Some(log[j].1)
    &&& forall|p: GridPosition|
        #[trigger] collapsed_at(grid, p) is Some && (collapsed_at(old, p) is None || filled_at(
            old.spec_size(),
            positions,
            positions.len() as int,
            p,
        )) ==> exists|j: int| 0 <= j < log.len() && #[trigger] log[j].0.x == p.x && log[j].0.y == p.y
}

/// The report stays right while which tiles are collapsed, and into what, stays the same.
pub(crate) proof fn lemma_reported_same(
    log: Seq<(GridPosition, u64)>,
    old: GridMap2D<CollapsibleTileData>,
    positions: Seq<GridPosition>,
    a: GridMap2D<CollapsibleTileData>,
    b: GridMap2D<CollapsibleTileData>,
)
    requires
        reported_since(log, old, positions, a),
        forall|p: GridPosition| #[trigger] collapsed_at(b, p) == collapsed_at(a, p),
    ensures
        reported_since(log, old, positions, b),
{
    assert forall|j: int| 0 <= j < log.len() implies collapsed_at(b, #[trigger] log[j].0) == Some(log[j].1) by {
        assert(collapsed_at(a, log[j].0) == Some(log[j].1));
    }
    assert forall|p: GridPosition|
        #[trigger] collapsed_at(b, p) is Some && (collapsed_at(old, p) is None || filled_at(
            old.spec_size(),
            positions,
            positions.len() as int,
            p,
        )) implies exists|j: int| 0 <= j < log.len() && #[trigger] log[j].0.x == p.x && log[j].0.y == p.y by {
        assert(collapsed_at(a, p) is Some);
    }
}

/// Reporting the tile collapsed at `next` keeps the report right.
proof fn lemma_reported_collapse(
    log: Seq<(GridPosition, u64)>,
    old: GridMap2D<CollapsibleTileData>,
    positions: Seq<GridPosition>,
    a: GridMap2D<CollapsibleTileData>,
    b: GridMap2D<CollapsibleTileData>,
    next: GridPosition,
    id: u64,
)
    requires
        reported_since(log, old, positions, a),
        collapsed_at(a, next) is None,
        collapsed_at(b, next) == Some(id),
        forall|p: GridPosition| !(p.x == next.x && p.y == next.y) ==> #[trigger] collapsed_at(b, p) == collapsed_at(a, p),
    ensures
        reported_since(log.push((next, id)), old, positions, b),
{
    let nl = log.push((next, id));
    assert forall|j: int| 0 <= j < nl.len() implies collapsed_at(b, #[trigger] nl[j].0) == Some(nl[j].1) by {
        if j < log.len() {
            assert(nl[j] == log[j]);
            assert(collapsed_at(a, log[j].0) == Some(log[j].1));
            if log[j].0.x == next.x && log[j].0.y == next.y {
                assert(collapsed_at(a, log[j].0) == collapsed_at(a, next));
            }
        }
    }
    assert forall|p: GridPosition|
        #[trigger] collapsed_at(b, p) is Some && (collapsed_at(old, p) is None || filled_at(
            old.spec_size(),
            positions,
            positions.len() as int,
            p,
        )) implies exists|j: int| 0 <= j < nl.len() && #[trigger] nl[j].0.x == p.x && nl[j].0.y == p.y by {
        if p.x == next.x && p.y == next.y {
            assert(nl[log.len() as int].0 == next);
        } else {
            assert(collapsed_at(a, p) is Some);
            let j = choose|j: int| 0 <= j < log.len() && #[trigger] log[j].0.x == p.x && log[j].0.y == p.y;
            assert(nl[j] == log[j]);
        }
    }
}

/// Every tile of `grid` at one of `positions` is collapsed into a type weighted by `weights`, or is not collapsed
/// and has only options weighted by `weights`.
pub open spec fn within_weights(
    grid: GridMap2D<CollapsibleTileData>,
    size: GridSize,
    positions: Seq<GridPosition>,
    weights: Map<u64, u32>,
) -> bool {
    forall|p: GridPosition|
        #[trigger] filled_at(size, positions, positions.len() as int, p) && tile_at(grid, p) is Some ==> match collapsed_at(
            grid,
            p,
        ) {
            Some(c) => weights.contains_key(c),
            None => forall|o: u64| #[trigger] options_at(grid, p).contains_key(o) ==> weights.contains_key(o),
        }
}

/// The tile `b` is the tile `a` left with some of its options, or collapsed into one of them, or kept collapsed.
pub open spec fn narrows_tile(a: Option<CollapsibleTileData>, b: Option<CollapsibleTileData>) -> bool {
    match b {
        None => true,
        Some(u) => match a {
            None => false,
            Some(t) => match u.collapsed_id() {
                Some(c) => t.collapsed_id() == Some(c) || (t.collapsed_id() is None && t.options().contains_key(c)),
                None => t.collapsed_id() is None && forall|o: u64| #[trigger]
                    u.options().contains_key(o) ==> t.options().contains_key(o),
            },
        },
    }
}

/// Tiles narrowed from tiles within the weights stay within them.
proof fn lemma_within_kept(
    a: GridMap2D<CollapsibleTileData>,
    b: GridMap2D<CollapsibleTileData>,
    size: GridSize,
    positions: Seq<GridPosition>,
    weights: Map<u64, u32>,
)
    requires
        within_weights(a, size, positions, weights),
        forall|p: GridPosition| #[trigger] narrows_tile(tile_at(a, p), tile_at(b, p)),
    ensures
        within_weights(b, size, positions, weights),
{
    assert forall|p: GridPosition|
        #[trigger] filled_at(size, positions, positions.len() as int, p) && tile_at(b, p) is Some implies match collapsed_at(
            b,
            p,
        ) {
            Some(c) => weights.contains_key(c),
            None => forall|o: u64| #[trigger] options_at(b, p).contains_key(o) ==> weights.contains_key(o),
        } by {
        assert(narrows_tile(tile_at(a, p), tile_at(b, p)));
        assert(tile_at(a, p) is Some);
        let t = tile_at(a, p)->0;
        let u = tile_at(b, p)->0;
        if u.collapsed_id() is None {
            assert forall|o: u64| #[trigger] options_at(b, p).contains_key(o) implies weights.contains_key(o) by {
                assert(u.options().contains_key(o));
                assert(t.options().contains_key(o));
                assert(options_at(a, p).contains_key(o));
            }
        } else {
            let c = u.collapsed_id()->0;
            if t.collapsed_id() is None {
                assert(options_at(a, p).contains_key(c));
            }
        }
    }
}

/// Narrowing twice is narrowing.
proof fn lemma_narrows_trans(
    a: GridMap2D<CollapsibleTileData>,
    b: GridMap2D<CollapsibleTileData>,
    c: GridMap2D<CollapsibleTileData>,
)
    requires
        forall|p: GridPosition| #[trigger] narrows_tile(tile_at(a, p), tile_at(b, p)),
        forall|p: GridPosition| #[trigger] narrows_tile(tile_at(b, p), tile_at(c, p)),
    ensures
        forall|p: GridPosition| #[trigger] narrows_tile(tile_at(a, p), tile_at(c, p)),
{
    assert forall|p: GridPosition| #[trigger] narrows_tile(tile_at(a, p), tile_at(c, p)) by {
        assert(narrows_tile(tile_at(a, p), tile_at(b, p)));
        assert(narrows_tile(tile_at(b, p), tile_at(c, p)));
    }
}

/// A grid changed at most at `pos`, where the tile was narrowed, is narrowed.
proof fn lemma_narrows_at(
    a: GridMap2D<CollapsibleTileData>,
    b: GridMap2D<CollapsibleTileData>,
    pos: GridPosition,
)
    requires
        b.same_except(&a, pos.x as int, pos.y as int),
        narrows_tile(tile_at(a, pos), tile_at(b, pos)),
    ensures
        forall|p: GridPosition| #[trigger] narrows_tile(tile_at(a, p), tile_at(b, p)),
{
    assert forall|p: GridPosition| #[trigger] narrows_tile(tile_at(a, p), tile_at(b, p)) by {
        if p.x == pos.x && p.y == pos.y {
            assert(tile_at(a, p) == tile_at(a, pos));
            assert(tile_at(b, p) == tile_at(b, pos));
        } else {
            assert(tile_at(b, p) == tile_at(a, p));
        }
    }
}

/// Successful propagation from `pos` only narrows the grid.
proof fn lemma_propagation_narrows<Data: IdentifiableTileData>(
    a: GridMap2D<CollapsibleTileData>,
    b: GridMap2D<CollapsibleTileData>,
    rules: AdjacencyRules<Data>,
    pos: GridPosition,
)
    requires
        same_collapse(b, a),
        forall|q: GridPosition|
            !#[trigger] is_processed_neighbour(pos, a.spec_size(), q, 4) ==> tile_at(b, q) == tile_at(a, q),
        forall|d: GridDir, o: u64|
            #![trigger options_at(b, neighbour_position(a, pos, d)->0).contains_key(o)]
            neighbour_position(a, pos, d) is Some && collapsed_at(a, neighbour_position(a, pos, d)->0) is None ==> (
            options_at(b, neighbour_position(a, pos, d)->0).contains_key(o) <==> options_at(
                a,
                neighbour_position(a, pos, d)->0,
            ).contains_key(o) && propagation_keeps(a, rules, pos, d, o)),
    ensures
        forall|p: GridPosition| #[trigger] narrows_tile(tile_at(a, p), tile_at(b, p)),
{
    assert forall|p: GridPosition| #[trigger] narrows_tile(tile_at(a, p), tile_at(b, p)) by {
        assert(tile_at(b, p) is Some <==> tile_at(a, p) is Some);
        assert(collapsed_at(b, p) == collapsed_at(a, p));
        if is_processed_neighbour(pos, a.spec_size(), p, 4) && tile_at(a, p) is Some && collapsed_at(a, p) is None {
            let d = choose|d: GridDir| crate::map::dir_index(d) < 4 && #[trigger] march_hits(d, pos, a.spec_size(), p);
            let q = spec_march(d, pos, a.spec_size())->0;
            assert(tile_at(a, q) == tile_at(a, p));
            assert(tile_at(b, q) == tile_at(b, p));
            assert(neighbour_position(a, pos, d) == Some(q));
            assert forall|o: u64| #[trigger] tile_at(b, p)->0.options().contains_key(o) implies tile_at(a, p)->0.options().contains_key(o) by {
                assert(options_at(b, q).contains_key(o));
            }
        }
    }
}

proof fn lemma_collapse_unchanged(
    before: GridMap2D<CollapsibleTileData>,
    after: GridMap2D<CollapsibleTileData>,
    pos: GridPosition,
)
    requires
        after.spec_size() == before.spec_size(),
        after.same_except(&before, pos.x as int, pos.y as int),
        tile_at(after, pos) is Some == tile_at(before, pos) is Some,
        collapsed_at(after, pos) == collapsed_at(before, pos),
    ensures
        same_collapse(after, before),
{
    assert forall|p: GridPosition| #[trigger] collapsed_at(after, p) == collapsed_at(before, p) by {
        if p.x == pos.x && p.y == pos.y {
            assert(tile_at(after, p) == tile_at(after, pos));
            assert(tile_at(before, p) == tile_at(before, pos));
        } else {
            assert(tile_at(after, p) == tile_at(before, p));
        }
    }
    assert forall|p: GridPosition| #[trigger] tile_at(after, p) is Some <==> tile_at(before, p) is Some by {
        if p.x == pos.x && p.y == pos.y {
            assert(tile_at(after, p) == tile_at(after, pos));
            assert(tile_at(before, p) == tile_at(before, pos));
        } else {
            assert(tile_at(after, p) == tile_at(before, p));
        }
    }
}

proof fn lemma_same_collapse_trans(
    a: GridMap2D<CollapsibleTileData>,
    b: GridMap2D<CollapsibleTileData>,
    c: GridMap2D<CollapsibleTileData>,
)
    requires
        same_collapse(a, b),
        same_collapse(b, c),
    ensures
        same_collapse(a, c),
{
    assert forall|p: GridPosition| #[trigger] collapsed_at(a, p) == collapsed_at(c, p) by {
        assert(collapsed_at(a, p) == collapsed_at(b, p));
    }
    assert forall|p: GridPosition| #[trigger] tile_at(a, p) is Some <==> tile_at(c, p) is Some by {
        assert(tile_at(a, p) is Some <==> tile_at(b, p) is Some);
    }
}

/// Recorded tile types stay recorded when no tile newly collapses and no type is forgotten.
proof fn lemma_recorded_kept(
    g1: GridMap2D<CollapsibleTileData>,
    ids1: Seq<u64>,
    g2: GridMap2D<CollapsibleTileData>,
    ids2: Seq<u64>,
)
    requires
        forall|p: GridPosition| #[trigger] collapsed_at(g1, p) is Some ==> ids1.contains(collapsed_at(g1, p)->0),
        forall|p: GridPosition| collapsed_at(g2, p) is Some ==> #[trigger] collapsed_at(g1, p) == collapsed_at(g2, p),
        forall|t: u64| ids1.contains(t) ==> #[trigger] ids2.contains(t),
    ensures
        forall|p: GridPosition| #[trigger] collapsed_at(g2, p) is Some ==> ids2.contains(collapsed_at(g2, p)->0),
{
    assert forall|p: GridPosition| #[trigger] collapsed_at(g2, p) is Some implies ids2.contains(collapsed_at(g2, p)->0) by {
        assert(collapsed_at(g1, p) == collapsed_at(g2, p));
    }
}

/// Compatibility of newly collapsed tiles depends only on which tiles are present and how they collapsed.
proof fn lemma_compatible_kept<Data: IdentifiableTileData>(
    base: GridMap2D<CollapsibleTileData>,
    g1: GridMap2D<CollapsibleTileData>,
    g2: GridMap2D<CollapsibleTileData>,
    rules: AdjacencyRules<Data>,
)
    requires
        newly_collapsed_compatible(base, g1, rules),
        same_collapse(g2, g1),
    ensures
        newly_collapsed_compatible(base, g2, rules),
{
    assert forall|p: GridPosition, d: GridDir|
        #![trigger neighbour_compatible(g2, rules, p, d)]
        collapsed_at(g2, p) is Some && collapsed_at(base, p) is None implies neighbour_compatible(g2, rules, p, d) by {
        assert(neighbour_position(g2, p, d) == neighbour_position(g1, p, d));
        assert(collapsed_at(g2, p) == collapsed_at(g1, p));
        assert(neighbour_compatible(g1, rules, p, d));
        if let Some(q) = neighbour_position(g1, p, d) {
            assert(collapsed_at(g2, q) == collapsed_at(g1, q));
        }
    }
}

/// Membership in a prefix grows by the next element.
proof fn lemma_seq_take_push<A>(s: Seq<A>, k: int)
    requires
        0 < k <= s.len(),
    ensures
        forall|x: A| #[trigger] s.take(k).contains(x) <==> s.take(k - 1).contains(x) || x == s[k - 1],
{
    assert forall|x: A| #[trigger] s.take(k).contains(x) <==> s.take(k - 1).contains(x) || x == s[k - 1] by {
        if s.take(k).contains(x) && x != s[k - 1] {
            let j = s.take(k).index_of(x);
            assert(s.take(k - 1)[j] == x);
        }
        if s.take(k - 1).contains(x) {
            let j = s.take(k - 1).index_of(x);
            assert(s.take(k)[j] == x);
        }
        if x == s[k - 1] {
            assert(s.take(k)[k - 1] == x);
        }
    }
}

/// Membership after a push.
proof fn lemma_push_contains<A>(s: Seq<A>, a: A)
    ensures
        forall|x: A| #[trigger] s.push(a).contains(x) <==> s.contains(x) || x == a,
{
    assert forall|x: A| #[trigger] s.push(a).contains(x) <==> s.contains(x) || x == a by {
        if s.push(a).contains(x) && x != a {
            let j = s.push(a).index_of(x);
            assert(s[j] == x);
        }
        if s.contains(x) {
            let j = s.index_of(x);
            assert(s.push(a)[j] == x);
        }
        if x == a {
            assert(s.push(a)[s.len() as int] == x);
        }
    }
}

/// Adds `id` to `ids` unless it is there already.
fn push_id(ids: &mut Vec<u64>, id: u64)
    ensures
        forall|x: u64| #[trigger] final(ids)@.contains(x) <==> old(ids)@.contains(x) || x == id,
{
    if !super::contains_id(ids.as_slice(), id) {
        let ghost before = ids@;
        ids.push(id);
        proof {
            assert forall|x: u64| #[trigger] ids@.contains(x) <==> before.contains(x) || x == id by {
                if ids@.contains(x) && x != id {
                    let j = ids@.index_of(x);
                    assert(before[j] == x);
                }
                if before.contains(x) {
                    let j = before.index_of(x);
                    assert(ids@[j] == x);
                }
                if x == id {
                    assert(ids@[before.len() as int] == x);
                }
            }
        }
    }
}

/// Filtering a listing by a further predicate gives a listing of the positions satisfying both.
proof fn lemma_filter_listing(
    s: Seq<GridPosition>,
    pred: spec_fn(GridPosition) -> bool,
    keep: spec_fn(GridPosition) -> bool,
)
    requires
        listing_of(s, pred),
    ensures
        listing_of(s.filter(keep), |p: GridPosition| pred(p) && keep(p)),
{
    let f = s.filter(keep);
    lemma_filter_members(s, keep);
    assert forall|p: GridPosition| #[trigger] f.contains(p) <==> p.z is None && (pred(p) && keep(p)) by {
        assert(f.contains(p) <==> s.contains(p) && keep(p));
    }
    lemma_filter_sorted(s, keep);
}

/// The filtered sequence holds exactly the kept elements.
pub proof fn lemma_filter_members<A>(s: Seq<A>, keep: spec_fn(A) -> bool)
    ensures
        forall|x: A| #[trigger] s.filter(keep).contains(x) <==> s.contains(x) && keep(x),
    decreases s.len(),
{
    reveal_with_fuel(Seq::filter, 1);
    if s.len() > 0 {
        let rest = s.drop_last();
        lemma_filter_members(rest, keep);
        assert forall|x: A| #[trigger] s.filter(keep).contains(x) <==> s.contains(x) && keep(x) by {
            let f = rest.filter(keep);
            if s.contains(x) && x != s.last() {
                let i = s.index_of(x);
                assert(rest[i] == x);
                assert(rest.contains(x));
            }
            if rest.contains(x) {
                let i = rest.index_of(x);
                assert(s[i] == x);
            }
            if keep(s.last()) {
                assert(s.filter(keep) == f.push(s.last()));
                if f.push(s.last()).contains(x) && x != s.last() {
                    let i = f.push(s.last()).index_of(x);
                    assert(f[i] == x);
                }
                if f.contains(x) {
                    let i = f.index_of(x);
                    assert(f.push(s.last())[i] == x);
                }
                if x == s.last() {
                    assert(f.push(s.last())[f.len() as int] == x);
                    assert(s[s.len() - 1] == x);
                }
            } else {
                if x == s.last() {
                    assert(s[s.len() - 1] == x);
                }
            }
        }
    } else {
        assert(s.filter(keep) =~= Seq::<A>::empty());
    }
}

proof fn lemma_filter_sorted(s: Seq<GridPosition>, keep: spec_fn(GridPosition) -> bool)
    requires
        crate::map::sorted_xy(s),
    ensures
        crate::map::sorted_xy(s.filter(keep)),
    decreases s.len(),
{
    reveal_with_fuel(Seq::filter, 1);
    if s.len() > 0 {
        let rest = s.drop_last();
        assert(crate::map::sorted_xy(rest));
        lemma_filter_sorted(rest, keep);
        if keep(s.last()) {
            let f = rest.filter(keep);
            lemma_filter_members(rest, keep);
            assert forall|i: int, j: int| 0 <= i < j < f.len() + 1 implies crate::map::xy_lt(
                #[trigger] f.push(s.last())[i],
                #[trigger] f.push(s.last())[j],
            ) by {
                if j == f.len() {
                    assert(f.contains(f[i]));
                    assert(rest.contains(f[i]));
                    let k = rest.index_of(f[i]);
                    assert(s[k] == f[i]);
                    assert(s[s.len() - 1] == s.last());
                }
            }
        }
    }
}

/// Every option left at the uncollapsed neighbour of `pos` in direction `d` forbids type `a` in the opposite
/// direction: collapsing `pos` into `a` leaves that neighbour without options.
pub open spec fn empties<Data: IdentifiableTileData>(
    grid: GridMap2D<CollapsibleTileData>,
    rules: AdjacencyRules<Data>,
    pos: GridPosition,
    d: GridDir,
    a: u64,
) -> bool {
    &&& neighbour_position(grid, pos, d) is Some
    &&& collapsed_at(grid, neighbour_position(grid, pos, d)->0) is None
    &&& forall|o: u64| #[trigger]
        options_at(grid, neighbour_position(grid, pos, d)->0).contains_key(o) ==> !rules.allows(o, spec_opposite(d), a)
}

/// Some option left at the uncollapsed neighbour of `pos` in direction `d` forbids type `a` in the opposite
/// direction: collapsing `pos` into `a` changes the options of that neighbour.
pub open spec fn narrows<Data: IdentifiableTileData>(
    grid: GridMap2D<CollapsibleTileData>,
    rules: AdjacencyRules<Data>,
    pos: GridPosition,
    d: GridDir,
    a: u64,
) -> bool {
    &&& neighbour_position(grid, pos, d) is Some
    &&& collapsed_at(grid, neighbour_position(grid, pos, d)->0) is None
    &&& exists|o: u64| #[trigger]
        options_at(grid, neighbour_position(grid, pos, d)->0).contains_key(o) && !rules.allows(o, spec_opposite(d), a)
}

/// The result of a step, with the listed positions as a sequence.
pub open spec fn step_result(r: Result<Vec<GridPosition>, CollapseError>) -> Result<Seq<GridPosition>, CollapseError> {
    match r {
        Ok(v) => Ok(v@),
        Err(e) => Err(e),
    }
}

/// Outcome of a step of a generation at `pos`, from grid `before` to grid `after` (see
/// [`Resolver::collapse_at`](crate::gen::collapse::singular::Resolver::collapse_at)):
/// - a tile collapsed already is left as it is, and nothing is listed;
/// - an error names a tile left uncollapsed without options (or, when collapsing, without an option of positive
///   weight): `pos` itself, exactly when it cannot be collapsed, which happens only if every option there that
///   conflicts with no neighbour has weight zero; else a neighbour that the type chosen for `pos` emptied;
/// - when `pos` is collapsed, it is collapsed into one of its options conflicting with no neighbour, compatible with
///   its collapsed neighbours, no other tile changes its collapse, the step succeeds exactly when the chosen type
///   empties no neighbour, and then each uncollapsed neighbour keeps exactly its options allowing the chosen type
///   next to it, the tiles beyond the neighbours are unchanged, and the listed positions are the neighbours that
///   lost options.
pub open spec fn collapse_step_done<Data: IdentifiableTileData>(
    before: GridMap2D<CollapsibleTileData>,
    after: GridMap2D<CollapsibleTileData>,
    rules: AdjacencyRules<Data>,
    pos: GridPosition,
    r: Result<Seq<GridPosition>, CollapseError>,
) -> bool {
    &&& after.spec_size() == before.spec_size()
    &&& collapsed_at(before, pos) is Some ==> (r matches Ok(v) && v.len() == 0) && after == before
    &&& r matches Err(e) ==> failed_at(after, Seq::empty(), e)
    &&& r matches Err(e) ==> (e.spec_kind() == CollapseErrorKind::Collapse <==> collapsed_at(after, pos) is None)
    &&& r matches Err(e) ==> e.spec_kind() == CollapseErrorKind::Collapse ==> e.spec_pos() == pos && forall|o: u64|
        #[trigger] options_at(before, pos).contains_key(o) && !conflicts(
            before,
            rules,
            pos,
            o,
            Seq::empty(),
            Seq::empty(),
            false,
        ) ==> options_at(before, pos)[o] == 0
    &&& collapsed_at(before, pos) is None && (forall|o: u64|
        #[trigger] options_at(before, pos).contains_key(o) && !conflicts(
            before,
            rules,
            pos,
            o,
            Seq::empty(),
            Seq::empty(),
            false,
        ) ==> options_at(before, pos)[o] == 0) ==> (r matches Err(e) && e.spec_kind() == CollapseErrorKind::Collapse)
    &&& collapsed_at(before, pos) is None && collapsed_at(after, pos) is Some ==> {
        let a = collapsed_at(after, pos)->0;
        &&& options_at(before, pos).contains_key(a)
        &&& !conflicts(before, rules, pos, a, Seq::empty(), Seq::empty(), false)
        &&& forall|d: GridDir| #[trigger] neighbour_compatible(after, rules, pos, d)
        &&& forall|q: GridPosition|
            !(q.x == pos.x && q.y == pos.y) ==> #[trigger] collapsed_at(after, q) == collapsed_at(before, q)
        &&& (r is Ok <==> forall|d: GridDir| !#[trigger] empties(before, rules, pos, d, a))
        &&& r matches Err(e) ==> e.spec_kind() == CollapseErrorKind::NeighbourUpdate && exists|d: GridDir|
            #[trigger] empties(before, rules, pos, d, a) && neighbour_position(before, pos, d) == Some(e.spec_pos())
        &&& r is Ok ==> forall|d: GridDir, o: u64|
            #![trigger options_at(after, neighbour_position(before, pos, d)->0).contains_key(o)]
            neighbour_position(before, pos, d) is Some && collapsed_at(before, neighbour_position(before, pos, d)->0)
                is None ==> (options_at(after, neighbour_position(before, pos, d)->0).contains_key(o) <==> options_at(
                before,
                neighbour_position(before, pos, d)->0,
            ).contains_key(o) && rules.allows(o, spec_opposite(d), a))
        &&& r is Ok ==> forall|q: GridPosition|
            !(q.x == pos.x && q.y == pos.y) && !#[trigger] is_processed_neighbour(pos, before.spec_size(), q, 4)
                ==> tile_at(after, q) == tile_at(before, q)
        &&& r matches Ok(v) ==> forall|q: GridPosition| #[trigger]
            v.contains(q) <==> exists|d: GridDir|
                #[trigger] narrows(before, rules, pos, d, a) && neighbour_position(before, pos, d) == Some(q)
    }
}

/// Each of `ids` allows type `c` in direction `d`.
fn allows_all<Data: IdentifiableTileData>(rules: &AdjacencyRules<Data>, ids: &[u64], d: GridDir, c: u64) -> (r: bool)
    ensures
        r == forall|i: int| 0 <= i < ids@.len() ==> rules.allows(#[trigger] ids@[i], d, c),
{
    let mut i: usize = 0;
    while i < ids.len()
        invariant
            i <= ids@.len(),
            forall|j: int| 0 <= j < i ==> rules.allows(#[trigger] ids@[j], d, c),
        decreases ids@.len() - i,
    {
        if !rules.is_valid_raw(ids[i], c, d) {
            return false;
        }
        i = i + 1;
    }
    true
}

/// Adding the neighbour in direction `dir` (the one of index `k`) when collapsing `pos` into `a` narrows its
/// options extends the listing of the neighbours narrowed in the first `k` directions to the first `k + 1`.
proof fn lemma_narrowed_listing<Data: IdentifiableTileData>(
    before: Seq<GridPosition>,
    after: Seq<GridPosition>,
    grid: GridMap2D<CollapsibleTileData>,
    rules: AdjacencyRules<Data>,
    pos: GridPosition,
    a: u64,
    dir: GridDir,
    k: int,
)
    requires
        crate::map::dir_index(dir) == k,
        forall|q: GridPosition| #[trigger]
            before.contains(q) <==> exists|d: GridDir|
                crate::map::dir_index(d) < k && #[trigger] narrows(grid, rules, pos, d, a) && neighbour_position(grid, pos, d)
                    == Some(q),
        narrows(grid, rules, pos, dir, a) ==> after == before.push(neighbour_position(grid, pos, dir)->0),
        !narrows(grid, rules, pos, dir, a) ==> after == before,
    ensures
        forall|q: GridPosition| #[trigger]
            after.contains(q) <==> exists|d: GridDir|
                crate::map::dir_index(d) < k + 1 && #[trigger] narrows(grid, rules, pos, d, a) && neighbour_position(
                    grid,
                    pos,
                    d,
                ) == Some(q),
{
    assert forall|q: GridPosition| #[trigger]
        after.contains(q) <==> exists|d: GridDir|
            crate::map::dir_index(d) < k + 1 && #[trigger] narrows(grid, rules, pos, d, a) && neighbour_position(grid, pos, d)
                == Some(q) by {
        if after.contains(q) {
            if before.contains(q) {
                let d = choose|d: GridDir|
                    crate::map::dir_index(d) < k && #[trigger] narrows(grid, rules, pos, d, a) && neighbour_position(grid, pos, d)
                        == Some(q);
                assert(crate::map::dir_index(d) < k + 1);
            } else {
                let j = after.index_of(q);
                assert(j == before.len());
                assert(narrows(grid, rules, pos, dir, a));
            }
        }
        if exists|d: GridDir|
            crate::map::dir_index(d) < k + 1 && #[trigger] narrows(grid, rules, pos, d, a) && neighbour_position(grid, pos, d)
                == Some(q) {
            let d = choose|d: GridDir|
                crate::map::dir_index(d) < k + 1 && #[trigger] narrows(grid, rules, pos, d, a) && neighbour_position(grid, pos, d)
                    == Some(q);
            if d != dir {
                assert(crate::map::dir_index(d) != k);
                assert(before.contains(q));
                let j = before.index_of(q);
                assert(after[j] == q);
            } else {
                assert(after[before.len() as int] == q);
            }
        }
    }
}

impl<Data: IdentifiableTileData> CollapsibleResolver<Data> {
    /// One step of a generation at `pos`: removes the options of the tile there conflicting with its neighbours,
    /// collapses it into one of the rest at random (weighted by the options' weights), tells `subscriber` (if any)
    /// of it, and removes from the uncollapsed neighbours the options not allowing the chosen type. Returns the
    /// neighbours whose options changed; nothing if the tile was collapsed already.
    pub(crate) fn collapse_step<S: Subscriber>(
        &mut self,
        rng: &mut StdRng,
        pos: GridPosition,
        adjacencies: &AdjacencyRules<Data>,
        subscriber: &mut Option<S>,
    ) -> (r: Result<Vec<GridPosition>, CollapseError>)
        requires
            old(self).ids_recorded(),
            tile_at(old(self).grid(), pos) is Some,
        ensures
            final(self).ids_recorded(),
            collapse_step_done(old(self).grid(), final(self).grid(), *adjacencies, pos, step_result(r)),
            collapsed_at(old(self).grid(), pos) is Some ==> *final(subscriber) == *old(subscriber),
            collapsed_at(old(self).grid(), pos) is None && collapsed_at(final(self).grid(), pos) is Some && S::keeps_record()
                && (*old(subscriber)) is Some ==> (*final(subscriber))->0.told() == (*old(subscriber))->0.told().push(
                (pos, collapsed_at(final(self).grid(), pos)->0),
            ),
            (*final(subscriber)) is Some <==> (*old(subscriber)) is Some,
    {
        let ghost g0 = self.inner;
        proof {
            crate::map::lemma_tile_at_valid(g0, pos);
        }
        if self.inner.get_tile_at_position(&pos).unwrap().inner().is_collapsed() {
            return Ok(Vec::new());
        }
        let no_positions: Vec<GridPosition> = Vec::new();
        let removal = self.remove_tile_options(&pos, adjacencies, no_positions.as_slice(), no_positions.as_slice(), false);
        let ghost filtered = self.inner;
        proof {
            lemma_collapse_unchanged(g0, filtered, pos);
            lemma_recorded_kept(g0, self.tile_ids@, filtered, self.tile_ids@);
        }
        match removal {
            Ok(_) => {},
            Err(p) => {
                proof {
                    assert forall|o: u64|
                        #[trigger] options_at(g0, pos).contains_key(o) && !conflicts(
                            g0,
                            *adjacencies,
                            pos,
                            o,
                            Seq::empty(),
                            Seq::empty(),
                            false,
                        ) implies options_at(g0, pos)[o] == 0 by {
                        assert(options_at(filtered, pos).contains_key(o));
                        tile_at(filtered, pos)->0.lemma_options_finite();
                        options_at(filtered, pos).dom().lemma_len0_is_empty();
                        assert(options_at(filtered, pos).dom().contains(o));
                    }
                }
                return Err(CollapseError::new(p, CollapseErrorKind::Collapse));
            },
        }
        proof {
            if forall|o: u64|
                #[trigger] options_at(g0, pos).contains_key(o) && !conflicts(
                    g0,
                    *adjacencies,
                    pos,
                    o,
                    Seq::empty(),
                    Seq::empty(),
                    false,
                ) ==> options_at(g0, pos)[o] == 0 {
                assert forall|t: u64| #[trigger] tile_at(filtered, pos)->0.options().contains_key(t) implies tile_at(
                    filtered,
                    pos,
                )->0.options()[t] == 0 by {
                    assert(options_at(filtered, pos).contains_key(t));
                    assert(options_at(g0, pos).contains_key(t));
                }
                tile_at(filtered, pos)->0.lemma_zero_weights();
            }
        }
        let outcome = {
            let tile = self.inner.get_mut_tile_at_position(&pos).unwrap();
            tile.data.collapse(rng, pos)
        };
        proof {
            assert(outcome != Ok::<bool, GridPosition>(false));
        }
        let ghost collapsed_grid = self.inner;
        proof {
            assert forall|p: GridPosition| !(p.x == pos.x && p.y == pos.y) implies #[trigger] tile_at(collapsed_grid, p)
                == tile_at(filtered, p) by {}
        }
        match outcome {
            Ok(c) => {
                proof {
                    assert(c);
                }
            },
            Err(p) => {
                proof {
                    lemma_collapse_unchanged(filtered, self.inner, pos);
                    assert forall|o: u64|
                        #[trigger] options_at(g0, pos).contains_key(o) && !conflicts(
                            g0,
                            *adjacencies,
                            pos,
                            o,
                            Seq::empty(),
                            Seq::empty(),
                            false,
                        ) implies options_at(g0, pos)[o] == 0 by {
                        assert(options_at(filtered, pos).contains_key(o));
                        if options_at(g0, pos)[o] > 0 {
                            tile_at(filtered, pos)->0.lemma_positive_option(o);
                        }
                    }
                }
                return Err(CollapseError::new(p, CollapseErrorKind::Collapse));
            },
        }
        proof {
            assert(collapsed_at(filtered, pos) is None);
            assert(tile_at(collapsed_grid, pos)->0.collapsed_id() is Some);
        }
        let id = self.inner.get_tile_at_position(&pos).unwrap().inner().tile_type_id();
        push_id(&mut self.tile_ids, id);
        match subscriber {
            Some(s) => s.on_collapse(&pos, id),
            None => {},
        }
        let ghost a = id;
        proof {
            assert(collapsed_at(collapsed_grid, pos) == Some(a));
            assert forall|p: GridPosition| #[trigger] collapsed_at(collapsed_grid, p) is Some implies self.tile_ids@.contains(
                collapsed_at(collapsed_grid, p)->0,
            ) by {
                if !(p.x == pos.x && p.y == pos.y) {
                    assert(collapsed_at(collapsed_grid, p) == collapsed_at(filtered, p));
                } else {
                    assert(tile_at(collapsed_grid, p) == tile_at(collapsed_grid, pos));
                }
            }
        }
        let mut changed: Vec<GridPosition> = Vec::new();
        let mut k: usize = 0;
        while k < 4
            invariant
                k <= 4,
                self.inner == collapsed_grid,
                a == id,
                spec_position_valid(collapsed_grid.spec_size(), pos),
                forall|q: GridPosition| #[trigger]
                    changed@.contains(q) <==> exists|d: GridDir|
                        crate::map::dir_index(d) < k && #[trigger] narrows(collapsed_grid, *adjacencies, pos, d, a)
                            && neighbour_position(collapsed_grid, pos, d) == Some(q),
            decreases 4 - k,
        {
            let dir = GridDir::from_index(k);
            let ghost before = changed@;
            let ghost nb = neighbour_position(collapsed_grid, pos, dir);
            match self.inner.get_neighbour_at(&pos, &dir) {
                Some(n) => {
                    if !n.inner().is_collapsed() {
                        let ids = n.inner().option_id_list();
                        let ghost q0 = neighbour_position(collapsed_grid, pos, dir)->0;
                        if !allows_all(adjacencies, ids.as_slice(), dir.opposite(), id) {
                            proof {
                                let i = choose|i: int|
                                    0 <= i < ids@.len() && !adjacencies.allows(#[trigger] ids@[i], spec_opposite(dir), id);
                                assert(ids@.contains(ids@[i]));
                                assert(options_at(collapsed_grid, q0).contains_key(ids@[i]));
                                assert(neighbour_position(collapsed_grid, pos, dir) is Some);
                                assert(collapsed_at(collapsed_grid, q0) is None);
                                assert(!adjacencies.allows(ids@[i], spec_opposite(dir), a));
                                assert(narrows(collapsed_grid, *adjacencies, pos, dir, a));
                            }
                            changed.push(n.grid_position());
                        } else {
                            proof {
                                assert forall|o: u64| #[trigger] options_at(collapsed_grid, q0).contains_key(o) implies adjacencies.allows(
                                    o,
                                    spec_opposite(dir),
                                    a,
                                ) by {
                                    assert(ids@.contains(o));
                                    let i = ids@.index_of(o);
                                    assert(adjacencies.allows(ids@[i], spec_opposite(dir), id));
                                }
                                assert(!narrows(collapsed_grid, *adjacencies, pos, dir, a));
                            }
                        }
                    }
                },
                None => {},
            }
            k = k + 1;
            proof {
                if changed@.len() > before.len() {
                    assert(changed@ == before.push(nb->0));
                    assert(narrows(collapsed_grid, *adjacencies, pos, dir, a));
                } else {
                    assert(changed@ == before);
                    assert(!narrows(collapsed_grid, *adjacencies, pos, dir, a));
                }
                lemma_narrowed_listing(before, changed@, collapsed_grid, *adjacencies, pos, a, dir, k - 1);
            }
        }
        let propagation = self.propagate_from(pos, adjacencies);
        proof {
            lemma_recorded_kept(collapsed_grid, self.tile_ids@, self.inner, self.tile_ids@);
            assert forall|d: GridDir| #[trigger] neighbour_position(collapsed_grid, pos, d) == neighbour_position(g0, pos, d) by {}
            assert forall|q: GridPosition| #[trigger] options_at(collapsed_grid, q) == options_at(g0, q) || (q.x == pos.x
                && q.y == pos.y) by {}
            assert forall|d: GridDir|
                #![trigger empties(g0, *adjacencies, pos, d, a)]
                #![trigger emptied(collapsed_grid, *adjacencies, pos, d)]
                #![trigger narrows(g0, *adjacencies, pos, d, a)]
                empties(g0, *adjacencies, pos, d, a) == emptied(collapsed_grid, *adjacencies, pos, d)
                && narrows(g0, *adjacencies, pos, d, a) == narrows(collapsed_grid, *adjacencies, pos, d, a) by {
                if let Some(q) = neighbour_position(g0, pos, d) {
                    assert(q.x != pos.x || q.y != pos.y);
                    assert(options_at(collapsed_grid, q) == options_at(g0, q));
                    assert(tile_at(collapsed_grid, q) == tile_at(filtered, q));
                    assert(collapsed_at(collapsed_grid, q) == collapsed_at(g0, q));
                }
            }
        }
        proof {
            assert forall|q: GridPosition|
                !(q.x == pos.x && q.y == pos.y) implies #[trigger] collapsed_at(self.inner, q) == collapsed_at(g0, q) by {
                assert(collapsed_at(self.inner, q) == collapsed_at(collapsed_grid, q));
                assert(tile_at(collapsed_grid, q) == tile_at(filtered, q));
            }
            assert(collapsed_at(self.inner, pos) == Some(a));
            assert(options_at(g0, pos).contains_key(a));
            assert forall|d: GridDir| #[trigger] neighbour_compatible(self.inner, *adjacencies, pos, d) by {
                if let Some(q) = neighbour_position(self.inner, pos, d) {
                    assert(neighbour_position(g0, pos, d) == Some(q));
                    assert(q.x != pos.x || q.y != pos.y);
                    if collapsed_at(self.inner, q) is Some {
                        assert(collapsed_at(g0, q) == collapsed_at(self.inner, q));
                        assert(!conflicts_at(g0, *adjacencies, pos, a, d, Seq::<GridPosition>::empty(), Seq::<GridPosition>::empty(), false));
                    }
                }
            }
        }
        proof {
            assert forall|q: GridPosition| #[trigger]
                changed@.contains(q) <==> exists|d: GridDir|
                    #[trigger] narrows(g0, *adjacencies, pos, d, a) && neighbour_position(g0, pos, d) == Some(q) by {
                if changed@.contains(q) {
                    let d = choose|d: GridDir|
                        crate::map::dir_index(d) < 4 && #[trigger] narrows(collapsed_grid, *adjacencies, pos, d, a)
                            && neighbour_position(collapsed_grid, pos, d) == Some(q);
                    assert(narrows(g0, *adjacencies, pos, d, a));
                }
                if exists|d: GridDir| #[trigger] narrows(g0, *adjacencies, pos, d, a) && neighbour_position(g0, pos, d) == Some(q) {
                    let d = choose|d: GridDir|
                        #[trigger] narrows(g0, *adjacencies, pos, d, a) && neighbour_position(g0, pos, d) == Some(q);
                    assert(narrows(collapsed_grid, *adjacencies, pos, d, a));
                    assert(crate::map::dir_index(d) < 4);
                }
            }
            if propagation is Ok {
                assert forall|d: GridDir, o: u64|
                    #![trigger options_at(self.inner, neighbour_position(g0, pos, d)->0).contains_key(o)]
                    neighbour_position(g0, pos, d) is Some && collapsed_at(g0, neighbour_position(g0, pos, d)->0) is None
                        implies (options_at(self.inner, neighbour_position(g0, pos, d)->0).contains_key(o)
                        <==> options_at(g0, neighbour_position(g0, pos, d)->0).contains_key(o) && adjacencies.allows(
                        o,
                        spec_opposite(d),
                        a,
                    )) by {
                    let q = neighbour_position(g0, pos, d)->0;
                    assert(neighbour_position(collapsed_grid, pos, d) == Some(q));
                    assert(q.x != pos.x || q.y != pos.y);
                    assert(options_at(collapsed_grid, q) == options_at(g0, q));
                    assert(tile_at(collapsed_grid, q) == tile_at(filtered, q));
                    assert(collapsed_at(collapsed_grid, q) == collapsed_at(g0, q));
                    assert(options_at(self.inner, q).contains_key(o) <==> options_at(collapsed_grid, q).contains_key(o)
                        && propagation_keeps(collapsed_grid, *adjacencies, pos, d, o));
                }
            }
        }
        match propagation {
            Ok(()) => Ok(changed),
            Err(p) => Err(CollapseError::new(p, CollapseErrorKind::NeighbourUpdate)),
        }
    }
}

impl<Data: IdentifiableTileData> CollapsibleResolver<Data> {
    /// First part of a generation at `positions`, before any tile is collapsed: places tiles there which can be
    /// any of the tile types weighted by `frequencies`, and removes their options conflicting with the collapsed
    /// tiles around them. The error names the first of `positions` left without options.
    pub(crate) fn prepare_generation(
        &mut self,
        positions: &[GridPosition],
        frequencies: &FrequencyHints<Data>,
        adjacencies: &AdjacencyRules<Data>,
    ) -> (r: Result<(), CollapseError>)
        requires
            old(self).ids_recorded(),
            forall|i: int| 0 <= i < positions@.len() ==> spec_position_valid(old(self).grid().spec_size(), #[trigger] positions@[i]),
        ensures
            final(self).ids_recorded(),
            final(self).grid().spec_size() == old(self).grid().spec_size(),
            forall|q: GridPosition|
                !#[trigger] filled_at(old(self).grid().spec_size(), positions@, positions@.len() as int, q) ==> tile_at(
                    final(self).grid(),
                    q,
                ) == tile_at(old(self).grid(), q),
            forall|i: int| 0 <= i < positions@.len() ==> tile_at(final(self).grid(), #[trigger] positions@[i]) is Some
                && collapsed_at(final(self).grid(), positions@[i]) is None,
            r is Ok ==> init_options(
                final(self).grid(),
                old(self).grid(),
                *adjacencies,
                positions@,
                frequencies.weights(),
                positions@.len() as int,
            ),
            r is Ok ==> forall|q: GridPosition, o: u64|
                #[trigger] options_at(final(self).grid(), q).contains_key(o) && filled_at(
                    old(self).grid().spec_size(),
                    positions@,
                    positions@.len() as int,
                    q,
                ) ==> options_at(final(self).grid(), q)[o] == frequencies.weights()[o],
            r is Err <==> exists|i: int|
                0 <= i < positions@.len() && #[trigger] init_blocked(
                    old(self).grid(),
                    *adjacencies,
                    positions@,
                    frequencies.weights(),
                    positions@[i],
                ),
            r matches Err(e) ==> e.spec_kind() == CollapseErrorKind::Init && failed_at(final(self).grid(), positions@, e),
    {
        let weights = frequencies.get_all_weights_cloned();
        let ghost start = self.inner;
        let mut k: usize = 0;
        while k < positions.len()
            invariant
                k <= positions@.len(),
                self.inner.spec_size() == start.spec_size(),
                self.tile_ids == old(self).tile_ids,
                start == old(self).inner,
                forall|i: int| 0 <= i < positions@.len() ==> spec_position_valid(start.spec_size(), #[trigger] positions@[i]),
                forall|p: GridPosition|
                    !#[trigger] filled_at(start.spec_size(), positions@, k as int, p) ==> tile_at(self.inner, p) == tile_at(start, p),
                forall|p: GridPosition|
                    #[trigger] filled_at(start.spec_size(), positions@, k as int, p) ==> (tile_at(self.inner, p) matches Some(t)
                        && t.collapsed_id() is None && t.options() == frequencies.weights()),
                weights@ == frequencies.weights(),
            decreases positions@.len() - k,
        {
            let position = positions[k];
            let data = CollapsibleTileData::new_uncollapsed(super::tile::copy_weights(&weights));
            self.inner.insert_data(&position, data);
            k = k + 1;
            proof {
                assert forall|p: GridPosition|
                    !#[trigger] filled_at(start.spec_size(), positions@, k as int, p) implies tile_at(self.inner, p)
                        == tile_at(start, p) by {
                    assert(!filled_at(start.spec_size(), positions@, k - 1, p));
                    assert(positions@[k - 1] == position);
                    if p.x == position.x && p.y == position.y {
                        assert(filled_at(start.spec_size(), positions@, k as int, p));
                    }
                }
                assert forall|p: GridPosition|
                    #[trigger] filled_at(start.spec_size(), positions@, k as int, p) implies (tile_at(self.inner, p) matches Some(t)
                        && t.collapsed_id() is None && t.options() == frequencies.weights()) by {
                    if !(p.x == position.x && p.y == position.y) {
                        let i = choose|i: int|
                            0 <= i < k && spec_position_valid(start.spec_size(), positions@[i])
                                && #[trigger] positions@[i].x == p.x && positions@[i].y == p.y;
                        assert(positions@[k - 1] == position);
                        assert(i < k - 1);
                        assert(filled_at(start.spec_size(), positions@, k - 1, p));
                    }
                }
            }
        }
        let ghost populated = self.inner;
        proof {
            assert forall|i: int| 0 <= i < positions@.len() implies collapsed_at(populated, #[trigger] positions@[i]) is None
                && tile_at(populated, positions@[i]) is Some by {
                assert(filled_at(start.spec_size(), positions@, positions@.len() as int, positions@[i]));
            }
            assert forall|p: GridPosition|
                #[trigger] collapsed_at(populated, p) is Some implies self.tile_ids@.contains(collapsed_at(populated, p)->0) by {
                assert(!filled_at(start.spec_size(), positions@, positions@.len() as int, p));
                assert(collapsed_at(start, p) == collapsed_at(populated, p));
            }
            assert(init_options(populated, old(self).inner, *adjacencies, positions@, frequencies.weights(), 0));
        }
        let mut changed: Vec<GridPosition> = Vec::new();
        let mut k: usize = 0;
        while k < positions.len()
            invariant
                k <= positions@.len(),
                same_collapse(self.inner, populated),
                populated.spec_size() == old(self).inner.spec_size(),
                self.tile_ids@ == old(self).tile_ids@,
                self.ids_recorded(),
                forall|i: int| 0 <= i < positions@.len() ==> collapsed_at(populated, #[trigger] positions@[i]) is None
                    && tile_at(populated, positions@[i]) is Some,
                init_options(self.inner, old(self).inner, *adjacencies, positions@, frequencies.weights(), k as int),
                forall|j: int|
                    0 <= j < k ==> !#[trigger] init_blocked(
                        old(self).inner,
                        *adjacencies,
                        positions@,
                        frequencies.weights(),
                        positions@[j],
                    ),
                forall|q: GridPosition|
                    !#[trigger] filled_at(old(self).inner.spec_size(), positions@, positions@.len() as int, q) ==> tile_at(
                        populated,
                        q,
                    ) == tile_at(old(self).inner, q),
                forall|q: GridPosition|
                    !#[trigger] filled_at(old(self).inner.spec_size(), positions@, positions@.len() as int, q) ==> tile_at(
                        self.inner,
                        q,
                    ) == tile_at(old(self).inner, q),
                forall|q: GridPosition, o: u64|
                    #[trigger] options_at(self.inner, q).contains_key(o) && filled_at(
                        old(self).inner.spec_size(),
                        positions@,
                        positions@.len() as int,
                        q,
                    ) ==> options_at(self.inner, q)[o] == frequencies.weights()[o],
                forall|i: int| 0 <= i < positions@.len() ==> spec_position_valid(old(self).inner.spec_size(), #[trigger] positions@[i]),
            decreases positions@.len() - k,
        {
            let position = positions[k];
            let ghost before = self.inner;
            let ghost before_ids = self.tile_ids@;
            proof {
                assert(tile_at(populated, positions@[k as int]) is Some);
            }
            let removal = self.remove_tile_options(&position, adjacencies, positions, changed.as_slice(), true);
            proof {
                lemma_init_step(
                    before,
                    self.inner,
                    old(self).inner,
                    populated,
                    *adjacencies,
                    positions@,
                    changed@,
                    frequencies.weights(),
                    k as int,
                    removal is Err,
                );
                lemma_collapse_unchanged(before, self.inner, position);
                lemma_recorded_kept(before, before_ids, self.inner, self.tile_ids@);
                assert(positions@[k as int] == position);
                assert(filled_at(old(self).inner.spec_size(), positions@, positions@.len() as int, position));
                assert forall|q: GridPosition|
                    !#[trigger] filled_at(old(self).inner.spec_size(), positions@, positions@.len() as int, q) implies tile_at(
                        self.inner,
                        q,
                    ) == tile_at(old(self).inner, q) by {
                    assert(tile_at(self.inner, q) == tile_at(before, q));
                }
                assert forall|q: GridPosition, o: u64|
                    #[trigger] options_at(self.inner, q).contains_key(o) && filled_at(
                        old(self).inner.spec_size(),
                        positions@,
                        positions@.len() as int,
                        q,
                    ) implies options_at(self.inner, q)[o] == frequencies.weights()[o] by {
                    if q.x == position.x && q.y == position.y {
                        assert(tile_at(self.inner, q) == tile_at(self.inner, position));
                        assert(tile_at(before, q) == tile_at(before, position));
                        assert(collapsed_at(before, position) == collapsed_at(populated, positions@[k as int]));
                        assert(options_at(self.inner, position).contains_key(o));
                        assert(options_at(before, position).contains_key(o));
                        assert(options_at(before, q).contains_key(o));
                        assert(options_at(before, q)[o] == frequencies.weights()[o]);
                        assert(options_at(self.inner, position)[o] == options_at(before, position)[o]);
                    } else {
                        assert(tile_at(self.inner, q) == tile_at(before, q));
                        assert(options_at(before, q).contains_key(o));
                        assert(options_at(before, q)[o] == frequencies.weights()[o]);
                    }
                }
                assert(same_collapse(self.inner, populated)) by {
                    assert forall|p: GridPosition| #[trigger] collapsed_at(self.inner, p) == collapsed_at(populated, p) by {
                        assert(collapsed_at(self.inner, p) == collapsed_at(before, p));
                    }
                    assert forall|p: GridPosition| #[trigger] tile_at(self.inner, p) is Some <==> tile_at(populated, p) is Some by {
                        assert(tile_at(self.inner, p) is Some <==> tile_at(before, p) is Some);
                    }
                }
            }
            match removal {
                Ok(true) => {
                    changed.push(position);
                },
                Ok(false) => {},
                Err(p) => {
                    proof {
                        assert(init_blocked(old(self).inner, *adjacencies, positions@, frequencies.weights(), positions@[k as int]));
                        assert(collapsed_at(self.inner, p) == collapsed_at(populated, p));
                        assert(positions@.contains(p));
                    }
                    return Err(CollapseError::new(p, CollapseErrorKind::Init));
                },
            }
            k = k + 1;
        }
        proof {
            assert forall|i: int| 0 <= i < positions@.len() implies tile_at(self.inner, #[trigger] positions@[i]) is Some
                && collapsed_at(self.inner, positions@[i]) is None by {
                assert(collapsed_at(self.inner, positions@[i]) == collapsed_at(populated, positions@[i]));
                assert(tile_at(populated, positions@[i]) is Some);
            }
        }
        Ok(())
    }
}

impl<Data: IdentifiableTileData> CollapsibleResolver<Data> {
    /// Weights of the options of the uncollapsed tile at `position`, in increasing order of their ids; `None`
    /// where there is no tile or it is collapsed.
    pub fn option_weights_at(&self, position: &GridPosition) -> (r: Option<Vec<u32>>)
        ensures
            r is Some <==> tile_at(self.grid(), *position) is Some && collapsed_at(self.grid(), *position) is None,
            r matches Some(w) ==> w@ == tile_at(self.grid(), *position)->0.option_weights(),
    {
        match self.inner.get_tile_at_position(position) {
            Some(tile) => if tile.inner().is_collapsed() {
                None
            } else {
                Some(tile.inner().option_weight_list())
            },
            None => None,
        }
    }
}

impl<Data: IdentifiableTileData> CollapsibleResolver<Data> {
    /// Places at `position` a tile not collapsed, with the options `options` (nothing changes if the position is
    /// not valid within the grid).
    pub(crate) fn insert_uncollapsed(&mut self, position: &GridPosition, options: IdMap<u32>)
        requires
            old(self).ids_recorded(),
        ensures
            final(self).ids_recorded(),
            final(self).grid().spec_size() == old(self).grid().spec_size(),
            forall|p: GridPosition| #[trigger]
                tile_at(final(self).grid(), p) is Some <==> tile_at(old(self).grid(), p) is Some || (spec_position_valid(
                    old(self).grid().spec_size(),
                    *position,
                ) && p.x == position.x && p.y == position.y),
            forall|p: GridPosition| #[trigger]
                options_at(final(self).grid(), p) == if spec_position_valid(old(self).grid().spec_size(), *position)
                    && p.x == position.x && p.y == position.y {
                    options@
                } else {
                    options_at(old(self).grid(), p)
                },
            forall|p: GridPosition| #[trigger]
                collapsed_at(final(self).grid(), p) == if spec_position_valid(old(self).grid().spec_size(), *position)
                    && p.x == position.x && p.y == position.y {
                    None
                } else {
                    collapsed_at(old(self).grid(), p)
                },
    {
        let ghost before = self.inner;
        self.inner.insert_data(position, CollapsibleTileData::new_uncollapsed(options));
        proof {
            assert forall|p: GridPosition| #[trigger]
                tile_at(self.inner, p) == if spec_position_valid(before.spec_size(), *position) && p.x == position.x
                    && p.y == position.y {
                    tile_at(self.inner, *position)
                } else {
                    tile_at(before, p)
                } by {
                if !(p.x == position.x && p.y == position.y) {
                    assert(self.inner.cell(p.x as int, p.y as int) == before.cell(p.x as int, p.y as int));
                }
            }
            assert forall|p: GridPosition|
                #[trigger] collapsed_at(self.grid(), p) is Some implies self.collapsed_ids().contains(
                    collapsed_at(self.grid(), p)->0,
                ) by {
                if !(spec_position_valid(before.spec_size(), *position) && p.x == position.x && p.y == position.y) {
                    assert(collapsed_at(before, p) is Some);
                }
            }
        }
    }
}

/// Every option left at the uncollapsed neighbour of `p` in direction `d` survives propagation from `p` (see
/// [`propagation_keeps`]).
pub open spec fn arc_ok<Data: IdentifiableTileData>(
    g: GridMap2D<CollapsibleTileData>,
    rules: AdjacencyRules<Data>,
    p: GridPosition,
    d: GridDir,
) -> bool {
    match neighbour_position(g, p, d) {
        Some(q) => collapsed_at(g, q) is None ==> forall|o: u64| #[trigger]
            options_at(g, q).contains_key(o) ==> propagation_keeps(g, rules, p, d, o),
        None => true,
    }
}

/// Some item of `items` holds a position with the coordinates of `p`.
pub open spec fn pending_at(items: Seq<PropagateItem>, p: GridPosition) -> bool {
    exists|j: int|
        0 <= j < items.len() && (#[trigger] items[j]).spec_position().x == p.x && items[j].spec_position().y == p.y
}

/// Number of options of the uncollapsed tiles at `s`.
pub open spec fn open_options(g: GridMap2D<CollapsibleTileData>, s: Seq<GridPosition>) -> nat
    decreases s.len(),
{
    if s.len() == 0 {
        0
    } else {
        open_options(g, s.drop_last()) + if collapsed_at(g, s.last()) is None {
            options_at(g, s.last()).dom().len()
        } else {
            0
        }
    }
}

/// The tiles of `b` are those of `a`, collapsed alike, each uncollapsed one left with some of its options.
pub open spec fn narrowed(a: GridMap2D<CollapsibleTileData>, b: GridMap2D<CollapsibleTileData>) -> bool {
    &&& same_collapse(b, a)
    &&& forall|q: GridPosition|
        collapsed_at(a, q) is None ==> #[trigger] options_at(b, q).dom().subset_of(options_at(a, q).dom())
}

/// A tile has finitely many options.
proof fn lemma_options_at_finite(g: GridMap2D<CollapsibleTileData>, p: GridPosition)
    ensures
        options_at(g, p).dom().finite(),
{
    if let Some(t) = tile_at(g, p) {
        t.lemma_options_finite();
    }
}

/// Narrowing the tiles does not add options.
proof fn lemma_open_options_le(a: GridMap2D<CollapsibleTileData>, b: GridMap2D<CollapsibleTileData>, s: Seq<GridPosition>)
    requires
        narrowed(a, b),
    ensures
        open_options(b, s) <= open_options(a, s),
    decreases s.len(),
{
    if s.len() > 0 {
        lemma_open_options_le(a, b, s.drop_last());
        let p = s.last();
        if collapsed_at(a, p) is None {
            lemma_options_at_finite(a, p);
            vstd::set_lib::lemma_len_subset(options_at(b, p).dom(), options_at(a, p).dom());
        }
    }
}

/// Narrowing the tiles so that the one at `s[j]` loses options removes options.
proof fn lemma_open_options_lt(a: GridMap2D<CollapsibleTileData>, b: GridMap2D<CollapsibleTileData>, s: Seq<GridPosition>, j: int)
    requires
        narrowed(a, b),
        0 <= j < s.len(),
        collapsed_at(a, s[j]) is None,
        options_at(b, s[j]).dom().len() < options_at(a, s[j]).dom().len(),
    ensures
        open_options(b, s) < open_options(a, s),
    decreases s.len(),
{
    let p = s.last();
    if collapsed_at(a, p) is None {
        lemma_options_at_finite(a, p);
        vstd::set_lib::lemma_len_subset(options_at(b, p).dom(), options_at(a, p).dom());
    }
    if j == s.len() - 1 {
        lemma_open_options_le(a, b, s.drop_last());
    } else {
        assert(s.drop_last()[j] == s[j]);
        lemma_open_options_lt(a, b, s.drop_last(), j);
    }
}

/// A subset of a finite set of the same size is the set itself.
proof fn lemma_subset_same_len(a: Set<u64>, b: Set<u64>)
    requires
        a.subset_of(b),
        b.finite(),
        a.len() == b.len(),
    ensures
        a == b,
{
    if !(a =~= b) {
        let x = choose|x: u64| b.contains(x) && !a.contains(x);
        vstd::set_lib::lemma_len_subset(a, b.remove(x));
    }
}

/// Whether some id of a sequence allows `o` depends on the ids only as a set.
proof fn lemma_allows_any_same_set<Data: IdentifiableTileData>(
    rules: AdjacencyRules<Data>,
    o: u64,
    d: GridDir,
    a: Seq<u64>,
    b: Seq<u64>,
)
    requires
        forall|x: u64| a.contains(x) <==> b.contains(x),
    ensures
        allows_any(rules, o, d, a) == allows_any(rules, o, d, b),
{
    if allows_any(rules, o, d, a) {
        let i = choose|i: int| 0 <= i < a.len() && rules.allows(o, d, #[trigger] a[i]);
        assert(a.contains(a[i]));
        let j = b.index_of(a[i]);
        assert(rules.allows(o, d, b[j]));
    }
    if allows_any(rules, o, d, b) {
        let i = choose|i: int| 0 <= i < b.len() && rules.allows(o, d, #[trigger] b[i]);
        assert(b.contains(b[i]));
        let j = a.index_of(b[i]);
        assert(rules.allows(o, d, a[j]));
    }
}

/// The consistency of the arcs from a tile whose collapse and options stay the same is kept when its neighbours
/// only lose options.
proof fn lemma_arc_ok_kept<Data: IdentifiableTileData>(
    a: GridMap2D<CollapsibleTileData>,
    b: GridMap2D<CollapsibleTileData>,
    rules: AdjacencyRules<Data>,
    p: GridPosition,
    d: GridDir,
)
    requires
        narrowed(a, b),
        arc_ok(a, rules, p, d),
        collapsed_at(a, p) is None ==> options_at(b, p).dom() == options_at(a, p).dom(),
    ensures
        arc_ok(b, rules, p, d),
{
    assert(neighbour_position(b, p, d) == neighbour_position(a, p, d));
    if let Some(q) = neighbour_position(a, p, d) {
        if collapsed_at(b, q) is None {
            if let Some(tp) = tile_at(b, p) {
                tp.options_with_weights_keys_lemma();
            }
            if let Some(tp) = tile_at(a, p) {
                tp.options_with_weights_keys_lemma();
            }
            assert forall|o: u64| #[trigger] options_at(b, q).contains_key(o) implies propagation_keeps(b, rules, p, d, o) by {
                assert(options_at(b, q).dom().contains(o));
                assert(collapsed_at(a, q) == collapsed_at(b, q));
                assert(options_at(b, q).dom().subset_of(options_at(a, q).dom()));
                assert(options_at(a, q).contains_key(o));
                assert(propagation_keeps(a, rules, p, d, o));
                if collapsed_at(a, p) is None {
                    assert forall|x: u64| option_ids_at(a, p).contains(x) <==> option_ids_at(b, p).contains(x) by {
                        assert(options_at(a, p).dom().contains(x) <==> options_at(b, p).dom().contains(x));
                    }
                    lemma_allows_any_same_set(rules, o, spec_opposite(d), option_ids_at(a, p), option_ids_at(b, p));
                }
            }
        }
    }
}

/// Number of options of the uncollapsed neighbour of `pos` in direction `d`, if there is one.
pub open spec fn neighbour_count(g: GridMap2D<CollapsibleTileData>, pos: GridPosition, d: GridDir) -> Option<nat> {
    match neighbour_position(g, pos, d) {
        Some(n) => if collapsed_at(g, n) is None {
            Some(options_at(g, n).dom().len())
        } else {
            None
        },
        None => None,
    }
}

/// Propagation from `pos` to its neighbours in the first `k` directions (see
/// [`CollapsibleResolver::propagate_pending`]) only removes options of uncollapsed tiles.
proof fn lemma_propagation_narrowed<Data: IdentifiableTileData>(
    g: GridMap2D<CollapsibleTileData>,
    g2: GridMap2D<CollapsibleTileData>,
    rules: AdjacencyRules<Data>,
    pos: GridPosition,
    k: int,
)
    requires
        0 <= k <= 4,
        same_collapse(g2, g),
        forall|q: GridPosition|
            !#[trigger] is_processed_neighbour(pos, g.spec_size(), q, k) ==> tile_at(g2, q) == tile_at(g, q),
        forall|d: GridDir, o: u64|
            #![trigger options_at(g2, neighbour_position(g, pos, d)->0).contains_key(o)]
            crate::map::dir_index(d) < k && neighbour_position(g, pos, d) is Some && collapsed_at(
                g,
                neighbour_position(g, pos, d)->0,
            ) is None ==> (options_at(g2, neighbour_position(g, pos, d)->0).contains_key(o) <==> options_at(
                g,
                neighbour_position(g, pos, d)->0,
            ).contains_key(o) && propagation_keeps(g, rules, pos, d, o)),
    ensures
        narrowed(g, g2),
{
    assert forall|q: GridPosition| collapsed_at(g, q) is None implies #[trigger] options_at(g2, q).dom().subset_of(
        options_at(g, q).dom(),
    ) by {
        if is_processed_neighbour(pos, g.spec_size(), q, k) {
            let d = choose|d: GridDir| crate::map::dir_index(d) < k && #[trigger] march_hits(d, pos, g.spec_size(), q);
            let n = spec_march(d, pos, g.spec_size())->0;
            assert(tile_at(g, n) == tile_at(g, q));
            assert(tile_at(g2, n) == tile_at(g2, q));
            if tile_at(g, n) is Some {
                assert(neighbour_position(g, pos, d) == Some(n));
                assert forall|o: u64| options_at(g2, q).dom().contains(o) implies options_at(g, q).dom().contains(o) by {
                    assert(options_at(g2, neighbour_position(g, pos, d)->0).contains_key(o));
                }
            } else {
                assert(tile_at(g2, q) is None);
            }
        }
    }
}

/// Propagation from `pos` to its neighbours in the first `k` directions removes only options that are then
/// unsupported, so the removals since `g0` stay justified.
proof fn lemma_propagation_justified<Data: IdentifiableTileData>(
    g0: GridMap2D<CollapsibleTileData>,
    before: GridMap2D<CollapsibleTileData>,
    after: GridMap2D<CollapsibleTileData>,
    rules: AdjacencyRules<Data>,
    pos: GridPosition,
    k: int,
)
    requires
        0 <= k <= 4,
        narrowed(g0, before),
        removals_justified(g0, before, rules),
        spec_position_valid(before.spec_size(), pos),
        tile_at(before, pos) is Some,
        tile_at(after, pos) == tile_at(before, pos),
        same_collapse(after, before),
        forall|q: GridPosition|
            !#[trigger] is_processed_neighbour(pos, before.spec_size(), q, k) ==> tile_at(after, q) == tile_at(before, q),
        forall|d: GridDir, o: u64|
            #![trigger options_at(after, neighbour_position(before, pos, d)->0).contains_key(o)]
            crate::map::dir_index(d) < k && neighbour_position(before, pos, d) is Some && collapsed_at(
                before,
                neighbour_position(before, pos, d)->0,
            ) is None ==> (options_at(after, neighbour_position(before, pos, d)->0).contains_key(o) <==> options_at(
                before,
                neighbour_position(before, pos, d)->0,
            ).contains_key(o) && propagation_keeps(before, rules, pos, d, o)),
    ensures
        narrowed(before, after),
        narrowed(g0, after),
        removals_justified(g0, after, rules),
{
    lemma_propagation_narrowed(before, after, rules, pos, k);
    lemma_narrowed_trans(g0, before, after);
    assert forall|q: GridPosition, o: u64|
        #[trigger] options_at(g0, q).contains_key(o) && !options_at(after, q).contains_key(o) && collapsed_at(g0, q)
            is None implies exists|d: GridDir| #[trigger] unsupported(after, rules, q, d, o) by {
        assert(collapsed_at(before, q) is None);
        if !options_at(before, q).contains_key(o) {
            let d = choose|d: GridDir| #[trigger] unsupported(before, rules, q, d, o);
            lemma_unsupported_kept(before, after, rules, q, d, o);
        } else {
            if !is_processed_neighbour(pos, before.spec_size(), q, k) {
                assert(tile_at(after, q) == tile_at(before, q));
            }
            let e = choose|e: GridDir| crate::map::dir_index(e) < k && #[trigger] march_hits(e, pos, before.spec_size(), q);
            let n = spec_march(e, pos, before.spec_size())->0;
            assert(tile_at(before, n) == tile_at(before, q));
            assert(tile_at(after, n) == tile_at(after, q));
            assert(neighbour_position(before, pos, e) == Some(n));
            assert(options_at(after, neighbour_position(before, pos, e)->0).contains_key(o) == (options_at(
                before,
                neighbour_position(before, pos, e)->0,
            ).contains_key(o) && propagation_keeps(before, rules, pos, e, o)));
            assert(!propagation_keeps(before, rules, pos, e, o));
            crate::map::lemma_march_round_trip(e, pos, before.spec_size());
            crate::map::lemma_opposite_involutive(e);
            let back = spec_march(spec_opposite(e), q, before.spec_size());
            assert(spec_march(spec_opposite(e), n, before.spec_size()) == Some(pos));
            assert(back matches Some(b) && b.x == pos.x && b.y == pos.y);
            let b = back->0;
            assert(tile_at(after, b) == tile_at(after, pos));
            assert(after.spec_size() == before.spec_size());
            assert(tile_at(after, b) is Some);
            assert(neighbour_position(after, q, spec_opposite(e)) == Some(b));
            assert(propagation_keeps(after, rules, b, spec_opposite(spec_opposite(e)), o) == propagation_keeps(
                before,
                rules,
                pos,
                e,
                o,
            ));
            assert(unsupported(after, rules, q, spec_opposite(e), o));
        }
    }
}

/// Narrowing twice narrows.
proof fn lemma_narrowed_trans(a: GridMap2D<CollapsibleTileData>, b: GridMap2D<CollapsibleTileData>, c: GridMap2D<CollapsibleTileData>)
    requires
        narrowed(a, b),
        narrowed(b, c),
    ensures
        narrowed(a, c),
{
    lemma_same_collapse_trans(c, b, a);
    assert forall|q: GridPosition| collapsed_at(a, q) is None implies #[trigger] options_at(c, q).dom().subset_of(
        options_at(a, q).dom(),
    ) by {
        assert(collapsed_at(b, q) == collapsed_at(a, q));
        assert(options_at(b, q).dom().subset_of(options_at(a, q).dom()));
        assert(options_at(c, q).dom().subset_of(options_at(b, q).dom()));
    }
}

/// The consistency of the arcs from a tile depends on its coordinates only.
proof fn lemma_arc_ok_coords<Data: IdentifiableTileData>(
    g: GridMap2D<CollapsibleTileData>,
    rules: AdjacencyRules<Data>,
    p: GridPosition,
    p2: GridPosition,
    d: GridDir,
)
    requires
        p.x == p2.x && p.y == p2.y,
    ensures
        arc_ok(g, rules, p, d) == arc_ok(g, rules, p2, d),
{
    assert(tile_at(g, p) == tile_at(g, p2));
    assert(spec_march(d, p, g.spec_size()) is Some <==> spec_march(d, p2, g.spec_size()) is Some);
    if let Some(m) = spec_march(d, p, g.spec_size()) {
        let m2 = spec_march(d, p2, g.spec_size())->0;
        assert(m.x == m2.x && m.y == m2.y);
        assert(tile_at(g, m) == tile_at(g, m2));
        if tile_at(g, m) is Some {
            assert(neighbour_position(g, p, d) == Some(m));
            assert(neighbour_position(g, p2, d) == Some(m2));
            assert(collapsed_at(g, m) == collapsed_at(g, m2));
            assert(options_at(g, m) == options_at(g, m2));
            assert forall|o: u64| propagation_keeps(g, rules, p, d, o) == propagation_keeps(g, rules, p2, d, o) by {}
        }
    }
}

/// The neighbour of `q` in direction `d` does not let option `o` of `q` survive propagation from it: it is
/// collapsed into a type not allowing `o` next to it, or none of its options does.
pub open spec fn unsupported<Data: IdentifiableTileData>(
    g: GridMap2D<CollapsibleTileData>,
    rules: AdjacencyRules<Data>,
    q: GridPosition,
    d: GridDir,
    o: u64,
) -> bool {
    neighbour_position(g, q, d) matches Some(p) && !propagation_keeps(g, rules, p, spec_opposite(d), o)
}

/// Every option of an uncollapsed tile of `a` missing in `g` is unsupported in `g` by some neighbour.
pub open spec fn removals_justified<Data: IdentifiableTileData>(
    a: GridMap2D<CollapsibleTileData>,
    g: GridMap2D<CollapsibleTileData>,
    rules: AdjacencyRules<Data>,
) -> bool {
    forall|q: GridPosition, o: u64|
        #[trigger] options_at(a, q).contains_key(o) && !options_at(g, q).contains_key(o) && collapsed_at(a, q) is None
            ==> exists|d: GridDir| #[trigger] unsupported(g, rules, q, d, o)
}

/// An option unsupported by a neighbour stays so as the tiles lose options.
proof fn lemma_unsupported_kept<Data: IdentifiableTileData>(
    a: GridMap2D<CollapsibleTileData>,
    b: GridMap2D<CollapsibleTileData>,
    rules: AdjacencyRules<Data>,
    q: GridPosition,
    d: GridDir,
    o: u64,
)
    requires
        narrowed(a, b),
        unsupported(a, rules, q, d, o),
    ensures
        unsupported(b, rules, q, d, o),
{
    let p = neighbour_position(a, q, d)->0;
    assert(neighbour_position(b, q, d) == Some(p));
    assert(collapsed_at(b, p) == collapsed_at(a, p));
    if collapsed_at(a, p) is None {
        if let Some(t) = tile_at(a, p) {
            t.options_with_weights_keys_lemma();
        }
        if let Some(t) = tile_at(b, p) {
            t.options_with_weights_keys_lemma();
        }
        let e = spec_opposite(spec_opposite(d));
        if allows_any(rules, o, e, option_ids_at(b, p)) {
            let i = choose|i: int| 0 <= i < option_ids_at(b, p).len() && rules.allows(o, e, #[trigger] option_ids_at(b, p)[i]);
            let x = option_ids_at(b, p)[i];
            assert(option_ids_at(b, p).contains(x));
            assert(options_at(b, p).dom().contains(x));
            assert(options_at(b, p).dom().subset_of(options_at(a, p).dom()));
            assert(option_ids_at(a, p).contains(x));
            let j = option_ids_at(a, p).index_of(x);
            assert(rules.allows(o, e, option_ids_at(a, p)[j]));
        }
    }
}

/// The grid is consistent under `rules`: every arc from a tile is consistent (see [`arc_ok`]) and no uncollapsed
/// tile is without options.
pub open spec fn grid_consistent<Data: IdentifiableTileData>(g: GridMap2D<CollapsibleTileData>, rules: AdjacencyRules<Data>) -> bool {
    &&& forall|p: GridPosition, d: GridDir| tile_at(g, p) is Some ==> #[trigger] arc_ok(g, rules, p, d)
    &&& forall|q: GridPosition| #[trigger] tile_at(g, q) is Some && collapsed_at(g, q) is None ==> options_at(g, q).dom().len() > 0
}

/// The uncollapsed tiles of `b` keep the options they have in `a`.
pub open spec fn open_options_kept(a: GridMap2D<CollapsibleTileData>, b: GridMap2D<CollapsibleTileData>) -> bool {
    forall|q: GridPosition| collapsed_at(a, q) is None ==> #[trigger] options_at(b, q) == options_at(a, q)
}

/// In a grid still holding the options of a consistent grid, propagation from a tile keeps every option and
/// empties no neighbour.
proof fn lemma_consistent_step<Data: IdentifiableTileData>(
    g0: GridMap2D<CollapsibleTileData>,
    before: GridMap2D<CollapsibleTileData>,
    rules: AdjacencyRules<Data>,
    pos: GridPosition,
)
    requires
        grid_consistent(g0, rules),
        narrowed(g0, before),
        open_options_kept(g0, before),
        tile_at(before, pos) is Some,
    ensures
        forall|d: GridDir| #[trigger] arc_ok(before, rules, pos, d),
        forall|d: GridDir| !#[trigger] emptied(before, rules, pos, d),
{
    assert(tile_at(g0, pos) is Some);
    assert forall|d: GridDir| #[trigger] arc_ok(before, rules, pos, d) by {
        assert(arc_ok(g0, rules, pos, d));
        if collapsed_at(g0, pos) is None {
            assert(options_at(before, pos) == options_at(g0, pos));
        }
        lemma_arc_ok_kept(g0, before, rules, pos, d);
    }
    assert forall|d: GridDir| !#[trigger] emptied(before, rules, pos, d) by {
        if emptied(before, rules, pos, d) {
            let q = neighbour_position(before, pos, d)->0;
            assert(tile_at(before, q) is Some);
            assert(tile_at(g0, q) is Some);
            assert(collapsed_at(g0, q) is None);
            assert(options_at(before, q) == options_at(g0, q));
            let s = options_at(g0, q).dom();
            if s =~= Set::<u64>::empty() {
                assert(s.len() == 0);
            }
            let o = choose|o: u64| s.contains(o);
            assert(options_at(before, q).contains_key(o));
            assert(arc_ok(before, rules, pos, d));
            assert(propagation_keeps(before, rules, pos, d, o));
        }
    }
}

/// A successful propagation from a tile whose arcs are all consistent changes no options.
proof fn lemma_consistent_unchanged<Data: IdentifiableTileData>(
    before: GridMap2D<CollapsibleTileData>,
    after: GridMap2D<CollapsibleTileData>,
    rules: AdjacencyRules<Data>,
    pos: GridPosition,
)
    requires
        forall|d: GridDir| #[trigger] arc_ok(before, rules, pos, d),
        same_collapse(after, before),
        forall|q: GridPosition|
            !#[trigger] is_processed_neighbour(pos, before.spec_size(), q, 4) ==> tile_at(after, q) == tile_at(before, q),
        forall|d: GridDir, o: u64|
            #![trigger options_at(after, neighbour_position(before, pos, d)->0).contains_key(o)]
            neighbour_position(before, pos, d) is Some && collapsed_at(before, neighbour_position(before, pos, d)->0) is None
                ==> (options_at(after, neighbour_position(before, pos, d)->0).contains_key(o) <==> options_at(
                before,
                neighbour_position(before, pos, d)->0,
            ).contains_key(o) && propagation_keeps(before, rules, pos, d, o)),
        forall|q: GridPosition, o: u64| #[trigger]
            options_at(after, q).contains_key(o) ==> options_at(after, q)[o] == options_at(before, q)[o],
    ensures
        open_options_kept(before, after),
{
    assert forall|q: GridPosition| collapsed_at(before, q) is None implies #[trigger] options_at(after, q) == options_at(
        before,
        q,
    ) by {
        if is_processed_neighbour(pos, before.spec_size(), q, 4) && tile_at(before, q) is Some {
            let e = choose|e: GridDir| crate::map::dir_index(e) < 4 && #[trigger] march_hits(e, pos, before.spec_size(), q);
            let n = spec_march(e, pos, before.spec_size())->0;
            assert(tile_at(before, n) == tile_at(before, q));
            assert(tile_at(after, n) == tile_at(after, q));
            assert(neighbour_position(before, pos, e) == Some(n));
            assert(arc_ok(before, rules, pos, e));
            assert forall|o: u64| options_at(after, q).contains_key(o) <==> options_at(before, q).contains_key(o) by {
                assert(options_at(after, neighbour_position(before, pos, e)->0).contains_key(o) <==> options_at(
                    before,
                    neighbour_position(before, pos, e)->0,
                ).contains_key(o) && propagation_keeps(before, rules, pos, e, o));
            }
            assert(options_at(after, q) =~= options_at(before, q));
        } else if !is_processed_neighbour(pos, before.spec_size(), q, 4) {
            assert(tile_at(after, q) == tile_at(before, q));
        } else {
            assert(tile_at(after, q) is None);
        }
    }
}

/// Every option of a tile of `a` that is uncollapsed in both grids, missing in `g`, is unsupported in `g` by some
/// neighbour. Unlike [`removals_justified`], tiles collapsed since `a` are left out: collapsing drops all options
/// but the chosen one.
pub open spec fn open_removals_justified<Data: IdentifiableTileData>(
    a: GridMap2D<CollapsibleTileData>,
    g: GridMap2D<CollapsibleTileData>,
    rules: AdjacencyRules<Data>,
) -> bool {
    forall|q: GridPosition, o: u64|
        #[trigger] options_at(a, q).contains_key(o) && !options_at(g, q).contains_key(o) && collapsed_at(a, q) is None
            && collapsed_at(g, q) is None ==> exists|d: GridDir| #[trigger] unsupported(g, rules, q, d, o)
}

/// Options a generation over `positions` starts from at `q`: all of `weights` where it places a tile, the options
/// of `grid` elsewhere.
pub open spec fn placed_options(
    grid: GridMap2D<CollapsibleTileData>,
    positions: Seq<GridPosition>,
    weights: Map<u64, u32>,
    q: GridPosition,
) -> Map<u64, u32> {
    if filled_at(grid.spec_size(), positions, positions.len() as int, q) {
        weights
    } else {
        options_at(grid, q)
    }
}

/// Every option that a generation over `positions` started from (see [`placed_options`]) and that is missing in
/// `g` at a tile still uncollapsed there is unsupported in `g` by some neighbour.
pub open spec fn generation_removals_justified<Data: IdentifiableTileData>(
    grid: GridMap2D<CollapsibleTileData>,
    positions: Seq<GridPosition>,
    weights: Map<u64, u32>,
    g: GridMap2D<CollapsibleTileData>,
    rules: AdjacencyRules<Data>,
) -> bool {
    forall|q: GridPosition, o: u64|
        #[trigger] placed_options(grid, positions, weights, q).contains_key(o) && !options_at(g, q).contains_key(o)
            && collapsed_at(g, q) is None ==> exists|d: GridDir| #[trigger] unsupported(g, rules, q, d, o)
}

/// Every option of `weights` missing in `g` at a tile placed at one of `positions` and still uncollapsed there is
/// unsupported in `g` by some neighbour.
pub open spec fn placed_removals_justified<Data: IdentifiableTileData>(
    positions: Seq<GridPosition>,
    weights: Map<u64, u32>,
    g: GridMap2D<CollapsibleTileData>,
    rules: AdjacencyRules<Data>,
) -> bool {
    forall|q: GridPosition, o: u64|
        filled_at(g.spec_size(), positions, positions.len() as int, q) && weights.contains_key(o)
            && !#[trigger] options_at(g, q).contains_key(o) && collapsed_at(g, q) is None ==> exists|d: GridDir|
            #[trigger] unsupported(g, rules, q, d, o)
}

/// Removals justified since a generation started are justified at the tiles it placed.
pub(crate) proof fn lemma_placed_removals_justified<Data: IdentifiableTileData>(
    grid: GridMap2D<CollapsibleTileData>,
    positions: Seq<GridPosition>,
    weights: Map<u64, u32>,
    g: GridMap2D<CollapsibleTileData>,
    rules: AdjacencyRules<Data>,
)
    requires
        g.spec_size() == grid.spec_size(),
        generation_removals_justified(grid, positions, weights, g, rules),
    ensures
        placed_removals_justified(positions, weights, g, rules),
{
    assert forall|q: GridPosition, o: u64|
        filled_at(g.spec_size(), positions, positions.len() as int, q) && weights.contains_key(o)
            && !#[trigger] options_at(g, q).contains_key(o) && collapsed_at(g, q) is None implies exists|d: GridDir|
            #[trigger] unsupported(g, rules, q, d, o) by {
        assert(placed_options(grid, positions, weights, q).contains_key(o));
    }
}

/// An option unsupported by a neighbour stays so as the tiles are narrowed or collapsed into one of their options.
proof fn lemma_unsupported_narrows<Data: IdentifiableTileData>(
    b: GridMap2D<CollapsibleTileData>,
    c: GridMap2D<CollapsibleTileData>,
    rules: AdjacencyRules<Data>,
    q: GridPosition,
    d: GridDir,
    o: u64,
)
    requires
        b.spec_size() == c.spec_size(),
        forall|p: GridPosition| #[trigger] tile_at(b, p) is Some <==> tile_at(c, p) is Some,
        forall|p: GridPosition| #[trigger] narrows_tile(tile_at(b, p), tile_at(c, p)),
        unsupported(b, rules, q, d, o),
    ensures
        unsupported(c, rules, q, d, o),
{
    let p = neighbour_position(b, q, d)->0;
    let m = spec_march(d, q, b.spec_size())->0;
    assert(tile_at(c, m) is Some <==> tile_at(b, m) is Some);
    assert(neighbour_position(c, q, d) == Some(p));
    assert(narrows_tile(tile_at(b, p), tile_at(c, p)));
    let e = spec_opposite(spec_opposite(d));
    let tb = tile_at(b, p)->0;
    let tc = tile_at(c, p)->0;
    tb.options_with_weights_keys_lemma();
    tc.options_with_weights_keys_lemma();
    if collapsed_at(b, p) is None {
        if let Some(x) = collapsed_at(c, p) {
            assert(tb.options().contains_key(x));
            assert(option_ids_at(b, p).contains(x));
            let j = option_ids_at(b, p).index_of(x);
            assert(rules.allows(o, e, x) ==> rules.allows(o, e, option_ids_at(b, p)[j]));
        } else if allows_any(rules, o, e, option_ids_at(c, p)) {
            let i = choose|i: int| 0 <= i < option_ids_at(c, p).len() && rules.allows(o, e, #[trigger] option_ids_at(c, p)[i]);
            let x = option_ids_at(c, p)[i];
            assert(option_ids_at(c, p).contains(x));
            assert(tc.options().contains_key(x));
            assert(tb.options().contains_key(x));
            assert(option_ids_at(b, p).contains(x));
            let j = option_ids_at(b, p).index_of(x);
            assert(rules.allows(o, e, option_ids_at(b, p)[j]));
        }
    }
}

/// Removals justified in two stages, the second narrowing the grid, are justified.
proof fn lemma_open_justified_chain<Data: IdentifiableTileData>(
    a: GridMap2D<CollapsibleTileData>,
    b: GridMap2D<CollapsibleTileData>,
    c: GridMap2D<CollapsibleTileData>,
    rules: AdjacencyRules<Data>,
)
    requires
        b.spec_size() == c.spec_size(),
        forall|p: GridPosition| #[trigger] tile_at(b, p) is Some <==> tile_at(c, p) is Some,
        forall|p: GridPosition| #[trigger] narrows_tile(tile_at(b, p), tile_at(c, p)),
        open_removals_justified(a, b, rules),
        open_removals_justified(b, c, rules),
    ensures
        open_removals_justified(a, c, rules),
{
    assert forall|q: GridPosition, o: u64|
        #[trigger] options_at(a, q).contains_key(o) && !options_at(c, q).contains_key(o) && collapsed_at(a, q) is None
            && collapsed_at(c, q) is None implies exists|d: GridDir| #[trigger] unsupported(c, rules, q, d, o) by {
        assert(narrows_tile(tile_at(b, q), tile_at(c, q)));
        assert(collapsed_at(b, q) is None);
        if !options_at(b, q).contains_key(o) {
            let d = choose|d: GridDir| #[trigger] unsupported(b, rules, q, d, o);
            lemma_unsupported_narrows(b, c, rules, q, d, o);
        }
    }
}

/// Removing the options of the tile at `pos` conflicting with its neighbours leaves them unsupported.
proof fn lemma_removal_justified<Data: IdentifiableTileData>(
    before: GridMap2D<CollapsibleTileData>,
    after: GridMap2D<CollapsibleTileData>,
    rules: AdjacencyRules<Data>,
    pos: GridPosition,
    omit: Seq<GridPosition>,
    changed: Seq<GridPosition>,
    collapsed_only: bool,
)
    requires
        tile_at(before, pos) is Some,
        after.spec_size() == before.spec_size(),
        after.same_except(&before, pos.x as int, pos.y as int),
        tile_at(after, pos) is Some,
        collapsed_at(after, pos) == collapsed_at(before, pos),
        collapsed_at(before, pos) is Some ==> after == before,
        collapsed_at(before, pos) is None ==> forall|o: u64| #[trigger]
            options_at(after, pos).contains_key(o) <==> options_at(before, pos).contains_key(o) && !conflicts(
                before,
                rules,
                pos,
                o,
                omit,
                changed,
                collapsed_only,
            ),
    ensures
        open_removals_justified(before, after, rules),
{
    crate::map::lemma_tile_at_valid(before, pos);
    assert forall|q: GridPosition, o: u64|
        #[trigger] options_at(before, q).contains_key(o) && !options_at(after, q).contains_key(o) && collapsed_at(before, q)
            is None && collapsed_at(after, q) is None implies exists|d: GridDir| #[trigger] unsupported(after, rules, q, d, o) by {
        if !(q.x == pos.x && q.y == pos.y) {
            assert(tile_at(after, q) == tile_at(before, q));
        } else {
            assert(tile_at(after, q) == tile_at(after, pos));
            assert(tile_at(before, q) == tile_at(before, pos));
            assert(options_at(before, pos).contains_key(o));
            assert(!options_at(after, pos).contains_key(o));
            assert(conflicts(before, rules, pos, o, omit, changed, collapsed_only));
            let d = choose|d: GridDir| #[trigger] conflicts_at(before, rules, pos, o, d, omit, changed, collapsed_only);
            let n = neighbour_position(before, pos, d)->0;
            let mq = spec_march(d, q, before.spec_size())->0;
            assert(mq.x == n.x && mq.y == n.y);
            assert(n.x != pos.x || n.y != pos.y);
            assert(tile_at(after, mq) == tile_at(before, n));
            assert(neighbour_position(after, q, d) == Some(mq));
            crate::map::lemma_opposite_involutive(d);
            assert(collapsed_at(after, mq) == collapsed_at(before, n));
            assert(option_ids_at(after, mq) == option_ids_at(before, n));
            assert(unsupported(after, rules, q, d, o));
        }
    }
}

/// A step changing at most the tile at `pos`, which it collapses or leaves as it was, removes no option from a
/// tile left uncollapsed.
proof fn lemma_collapse_step_justified<Data: IdentifiableTileData>(
    b: GridMap2D<CollapsibleTileData>,
    c: GridMap2D<CollapsibleTileData>,
    rules: AdjacencyRules<Data>,
    pos: GridPosition,
)
    requires
        c.same_except(&b, pos.x as int, pos.y as int),
        collapsed_at(c, pos) is None ==> tile_at(c, pos) == tile_at(b, pos),
    ensures
        open_removals_justified(b, c, rules),
{
    assert forall|q: GridPosition, o: u64|
        #[trigger] options_at(b, q).contains_key(o) && !options_at(c, q).contains_key(o) && collapsed_at(b, q) is None
            && collapsed_at(c, q) is None implies exists|d: GridDir| #[trigger] unsupported(c, rules, q, d, o) by {
        if q.x == pos.x && q.y == pos.y {
            assert(tile_at(c, q) == tile_at(c, pos));
            assert(tile_at(b, q) == tile_at(b, pos));
        } else {
            assert(tile_at(c, q) == tile_at(b, q));
        }
    }
}

/// A narrowed grid narrows each tile and keeps the tiles in place.
proof fn lemma_narrowed_narrows(a: GridMap2D<CollapsibleTileData>, b: GridMap2D<CollapsibleTileData>)
    requires
        narrowed(a, b),
    ensures
        forall|p: GridPosition| #[trigger] tile_at(a, p) is Some <==> tile_at(b, p) is Some,
        forall|p: GridPosition| #[trigger] narrows_tile(tile_at(a, p), tile_at(b, p)),
{
    assert forall|p: GridPosition| #[trigger] tile_at(a, p) is Some <==> tile_at(b, p) is Some by {
        assert(tile_at(b, p) is Some <==> tile_at(a, p) is Some);
    }
    assert forall|p: GridPosition| #[trigger] narrows_tile(tile_at(a, p), tile_at(b, p)) by {
        assert(tile_at(b, p) is Some <==> tile_at(a, p) is Some);
        assert(collapsed_at(b, p) == collapsed_at(a, p));
        if tile_at(b, p) is Some && collapsed_at(a, p) is None {
            assert(options_at(b, p).dom().subset_of(options_at(a, p).dom()));
            assert forall|o: u64| #[trigger] tile_at(b, p)->0.options().contains_key(o) implies tile_at(a, p)->0.options().contains_key(o) by {
                assert(options_at(b, p).dom().contains(o));
            }
        }
    }
}

/// Removals justified since the tiles were placed are justified against the options a generation starts from.
proof fn lemma_generation_justified<Data: IdentifiableTileData>(
    grid: GridMap2D<CollapsibleTileData>,
    positions: Seq<GridPosition>,
    weights: Map<u64, u32>,
    placed: GridMap2D<CollapsibleTileData>,
    g: GridMap2D<CollapsibleTileData>,
    rules: AdjacencyRules<Data>,
)
    requires
        forall|q: GridPosition| #[trigger] options_at(placed, q) == placed_options(grid, positions, weights, q),
        forall|q: GridPosition| collapsed_at(placed, q) is Some ==> #[trigger] collapsed_at(g, q) == collapsed_at(placed, q),
        open_removals_justified(placed, g, rules),
    ensures
        generation_removals_justified(grid, positions, weights, g, rules),
{
    assert forall|q: GridPosition, o: u64|
        #[trigger] placed_options(grid, positions, weights, q).contains_key(o) && !options_at(g, q).contains_key(o)
            && collapsed_at(g, q) is None implies exists|d: GridDir| #[trigger] unsupported(g, rules, q, d, o) by {
        assert(options_at(placed, q) == placed_options(grid, positions, weights, q));
        assert(options_at(placed, q).contains_key(o));
        if collapsed_at(placed, q) is Some {
            assert(collapsed_at(g, q) == collapsed_at(placed, q));
        }
    }
}

/// Propagation from `pos`, successful or not, removes only options then unsupported.
proof fn lemma_propagate_from_justified<Data: IdentifiableTileData>(
    before: GridMap2D<CollapsibleTileData>,
    after: GridMap2D<CollapsibleTileData>,
    rules: AdjacencyRules<Data>,
    pos: GridPosition,
    r: Result<(), GridPosition>,
)
    requires
        tile_at(before, pos) is Some,
        same_collapse(after, before),
        tile_at(after, pos) == tile_at(before, pos),
        r is Ok ==> forall|q: GridPosition|
            !#[trigger] is_processed_neighbour(pos, before.spec_size(), q, 4) ==> tile_at(after, q) == tile_at(before, q),
        r is Ok ==> forall|d: GridDir, o: u64|
            #![trigger options_at(after, neighbour_position(before, pos, d)->0).contains_key(o)]
            neighbour_position(before, pos, d) is Some && collapsed_at(before, neighbour_position(before, pos, d)->0) is None
                ==> (options_at(after, neighbour_position(before, pos, d)->0).contains_key(o) <==> options_at(
                before,
                neighbour_position(before, pos, d)->0,
            ).contains_key(o) && propagation_keeps(before, rules, pos, d, o)),
        r matches Err(q) ==> exists|e: GridDir|
            #[trigger] emptied(before, rules, pos, e) && neighbour_position(before, pos, e) == Some(q) && (forall|d: GridDir|
                crate::map::dir_index(d) < crate::map::dir_index(e) ==> !#[trigger] emptied(before, rules, pos, d)) && (forall|
                p: GridPosition,
            |
                !#[trigger] is_processed_neighbour(pos, before.spec_size(), p, crate::map::dir_index(e) + 1) ==> tile_at(
                    after,
                    p,
                ) == tile_at(before, p)) && (forall|d: GridDir, o: u64|
                #![trigger options_at(after, neighbour_position(before, pos, d)->0).contains_key(o)]
                crate::map::dir_index(d) <= crate::map::dir_index(e) && neighbour_position(before, pos, d) is Some
                    && collapsed_at(before, neighbour_position(before, pos, d)->0) is None ==> (options_at(
                    after,
                    neighbour_position(before, pos, d)->0,
                ).contains_key(o) <==> options_at(before, neighbour_position(before, pos, d)->0).contains_key(o)
                    && propagation_keeps(before, rules, pos, d, o))),
    ensures
        narrowed(before, after),
        open_removals_justified(before, after, rules),
{
    crate::map::lemma_tile_at_valid(before, pos);
    assert(narrowed(before, before)) by {
        assert forall|q: GridPosition| collapsed_at(before, q) is None implies #[trigger] options_at(before, q).dom().subset_of(
            options_at(before, q).dom(),
        ) by {}
    }
    let k = match r {
        Ok(_) => 4int,
        Err(q) => {
            let e = choose|e: GridDir|
                #[trigger] emptied(before, rules, pos, e) && neighbour_position(before, pos, e) == Some(q) && (forall|d: GridDir|
                    crate::map::dir_index(d) < crate::map::dir_index(e) ==> !#[trigger] emptied(before, rules, pos, d)) && (forall|
                    p: GridPosition,
                |
                    !#[trigger] is_processed_neighbour(pos, before.spec_size(), p, crate::map::dir_index(e) + 1) ==> tile_at(
                        after,
                        p,
                    ) == tile_at(before, p)) && (forall|d: GridDir, o: u64|
                    #![trigger options_at(after, neighbour_position(before, pos, d)->0).contains_key(o)]
                    crate::map::dir_index(d) <= crate::map::dir_index(e) && neighbour_position(before, pos, d) is Some
                        && collapsed_at(before, neighbour_position(before, pos, d)->0) is None ==> (options_at(
                        after,
                        neighbour_position(before, pos, d)->0,
                    ).contains_key(o) <==> options_at(before, neighbour_position(before, pos, d)->0).contains_key(o)
                        && propagation_keeps(before, rules, pos, d, o)));
            crate::map::dir_index(e) + 1
        },
    };
    lemma_propagation_justified(before, before, after, rules, pos, k);
}

impl<Data: IdentifiableTileData> CollapsibleResolver<Data> {
    /// Propagates the removals waiting in `propagator`: takes the waiting items one by one (the last first), and
    /// removes from the uncollapsed neighbours of the position of each the options not surviving propagation from
    /// it (see [`propagation_keeps`]), putting an item on top for each neighbour that lost options, holding how
    /// many it lost. The error holds the position of a neighbour left without options.
    ///
    /// Whatever the outcome, options were only removed, each one unsupported by a neighbour of its tile (see
    /// [`removals_justified`]). On success nothing is left waiting, and every uncollapsed neighbour of a tile whose
    /// position was waiting keeps only options surviving propagation from it. A consistent grid (see
    /// [`grid_consistent`]) is left with its options, and the propagation succeeds.
    pub(crate) fn propagate_pending(&mut self, propagator: &mut Propagator, adjacencies: &AdjacencyRules<Data>) -> (r: Result<
        (),
        GridPosition,
    >)
        requires
            old(self).ids_recorded(),
            old(propagator).wf(),
        ensures
            final(self).ids_recorded(),
            final(propagator).wf(),
            final(self).grid().spec_size() == old(self).grid().spec_size(),
            same_collapse(final(self).grid(), old(self).grid()),
            narrowed(old(self).grid(), final(self).grid()),
            removals_justified(old(self).grid(), final(self).grid(), *adjacencies),
            r is Ok ==> final(propagator).pending().len() == 0,
            r is Ok ==> forall|p: GridPosition, d: GridDir|
                pending_at(old(propagator).pending(), p) && tile_at(old(self).grid(), p) is Some ==> #[trigger] arc_ok(
                    final(self).grid(),
                    *adjacencies,
                    p,
                    d,
                ),
            r matches Err(q) ==> tile_at(final(self).grid(), q) is Some && collapsed_at(final(self).grid(), q) is None
                && options_at(final(self).grid(), q).dom().len() == 0,
            grid_consistent(old(self).grid(), *adjacencies) ==> r is Ok && open_options_kept(old(self).grid(), final(self).grid()),
    {
        let ghost g0 = self.inner;
        let ghost init = propagator.pending();
        let all = self.inner.get_all_positions();
        proof {
            assert forall|q: GridPosition| collapsed_at(g0, q) is None implies #[trigger] options_at(self.inner, q).dom().subset_of(
                options_at(g0, q).dom(),
            ) by {}
        }
        while !propagator.is_empty()
            invariant
                g0 == old(self).inner,
                init == old(propagator).pending(),
                self.ids_recorded(),
                propagator.wf(),
                listing_of(all@, |p: GridPosition| occupied(g0, p)),
                narrowed(g0, self.inner),
                removals_justified(g0, self.inner, *adjacencies),
                grid_consistent(g0, *adjacencies) ==> open_options_kept(g0, self.inner),
                self.inner.spec_size() == g0.spec_size(),
                forall|p: GridPosition, d: GridDir|
                    pending_at(init, p) && tile_at(g0, p) is Some ==> pending_at(propagator.pending(), p) || #[trigger] arc_ok(
                        self.inner,
                        *adjacencies,
                        p,
                        d,
                    ),
            decreases open_options(self.inner, all@), propagator.pending().len(),
        {
            let ghost before = self.inner;
            let ghost pend = propagator.pending();
            let (pos, _) = propagator.pop_to_resolve(None).unwrap();
            proof {
                assert(propagator.pending() == pend.drop_last());
                assert(pos == pend.last().spec_position());
                assert forall|p: GridPosition| pending_at(pend, p) && !(p.x == pos.x && p.y == pos.y) implies pending_at(
                    propagator.pending(),
                    p,
                ) by {
                    let j = choose|j: int|
                        0 <= j < pend.len() && (#[trigger] pend[j]).spec_position().x == p.x && pend[j].spec_position().y == p.y;
                    assert(j != pend.len() - 1);
                    assert(propagator.pending()[j] == pend[j]);
                }
            }
            if self.inner.get_tile_at_position(&pos).is_some() {
                proof {
                    crate::map::lemma_tile_at_valid(before, pos);
                }
                let mut counts: Vec<Option<usize>> = Vec::new();
                let mut k: usize = 0;
                while k < 4
                    invariant
                        k <= 4,
                        self.inner == before,
                        spec_position_valid(before.spec_size(), pos),
                        counts@.len() == k,
                        forall|j: int|
                            0 <= j < k ==> match #[trigger] counts@[j] {
                                Some(c) => neighbour_count(before, pos, crate::map::dir_at(j)) == Some(c as nat),
                                None => neighbour_count(before, pos, crate::map::dir_at(j)) is None,
                            },
                    decreases 4 - k,
                {
                    let dir = GridDir::from_index(k);
                    let c = match self.inner.get_neighbour_at(&pos, &dir) {
                        Some(n) => if n.inner().is_collapsed() {
                            None
                        } else {
                            Some(n.inner().option_count())
                        },
                        None => None,
                    };
                    counts.push(c);
                    k = k + 1;
                }
                let propagation = self.propagate_from(pos, adjacencies);
                match propagation {
                    Ok(()) => {},
                    Err(q) => {
                        proof {
                            let e = choose|e: GridDir|
                                #[trigger] emptied(before, *adjacencies, pos, e) && neighbour_position(before, pos, e) == Some(q)
                                    && (forall|d: GridDir|
                                    crate::map::dir_index(d) < crate::map::dir_index(e) ==> !#[trigger] emptied(
                                        before,
                                        *adjacencies,
                                        pos,
                                        d,
                                    )) && (forall|p: GridPosition|
                                    !#[trigger] is_processed_neighbour(pos, before.spec_size(), p, crate::map::dir_index(e) + 1)
                                        ==> tile_at(self.inner, p) == tile_at(before, p)) && (forall|d: GridDir, o: u64|
                                    #![trigger options_at(self.inner, neighbour_position(before, pos, d)->0).contains_key(o)]
                                    crate::map::dir_index(d) <= crate::map::dir_index(e) && neighbour_position(before, pos, d)
                                        is Some && collapsed_at(before, neighbour_position(before, pos, d)->0) is None
                                        ==> (options_at(self.inner, neighbour_position(before, pos, d)->0).contains_key(o)
                                    <==> options_at(before, neighbour_position(before, pos, d)->0).contains_key(o)
                                        && propagation_keeps(before, *adjacencies, pos, d, o)));
                            lemma_propagation_justified(g0, before, self.inner, *adjacencies, pos, crate::map::dir_index(e) + 1);
                            if grid_consistent(g0, *adjacencies) {
                                lemma_consistent_step(g0, before, *adjacencies, pos);
                                assert(!emptied(before, *adjacencies, pos, e));
                            }
                        }
                        return Err(q);
                    },
                }
                let ghost after = self.inner;
                proof {
                    lemma_propagation_justified(g0, before, after, *adjacencies, pos, 4);
                    if grid_consistent(g0, *adjacencies) {
                        lemma_consistent_step(g0, before, *adjacencies, pos);
                        lemma_consistent_unchanged(before, after, *adjacencies, pos);
                        assert forall|q: GridPosition| collapsed_at(g0, q) is None implies #[trigger] options_at(after, q)
                            == options_at(g0, q) by {
                            assert(collapsed_at(before, q) == collapsed_at(g0, q));
                            assert(options_at(after, q) == options_at(before, q));
                        }
                    }
                }
                let ghost mut strict: Option<GridPosition> = None;
                let mut k: usize = 0;
                while k < 4
                    invariant
                        k <= 4,
                        self.inner == after,
                        narrowed(before, after),
                        spec_position_valid(before.spec_size(), pos),
                        after.spec_size() == before.spec_size(),
                        propagator.wf(),
                        counts@.len() == 4,
                        forall|j: int|
                            0 <= j < 4 ==> match #[trigger] counts@[j] {
                                Some(c) => neighbour_count(before, pos, crate::map::dir_at(j)) == Some(c as nat),
                                None => neighbour_count(before, pos, crate::map::dir_at(j)) is None,
                            },
                        pend.len() > 0,
                        propagator.pending().len() >= pend.len() - 1,
                        propagator.pending().subrange(0, pend.len() - 1) == pend.drop_last(),
                        forall|p: GridPosition|
                            #![trigger pending_at(propagator.pending(), p)]
                            pending_at(propagator.pending(), p) <==> pending_at(pend.drop_last(), p) || exists|j: int|
                                0 <= j < k && #[trigger] neighbour_count(before, pos, crate::map::dir_at(j)) is Some
                                    && options_at(after, neighbour_position(before, pos, crate::map::dir_at(j))->0).dom().len()
                                    < neighbour_count(before, pos, crate::map::dir_at(j))->0 && neighbour_position(
                                    before,
                                    pos,
                                    crate::map::dir_at(j),
                                )->0.x == p.x && neighbour_position(before, pos, crate::map::dir_at(j))->0.y == p.y,
                        propagator.pending().len() > pend.len() - 1 ==> (strict matches Some(q) && collapsed_at(before, q)
                            is None && tile_at(before, q) is Some && options_at(after, q).dom().len() < options_at(
                            before,
                            q,
                        ).dom().len()),
                    decreases 4 - k,
                {
                    let dir = GridDir::from_index(k);
                    let ghost prev = propagator.pending();
                    match counts[k] {
                        Some(c) => {
                            let n = self.inner.get_neighbour_at(&pos, &dir).unwrap();
                            let now = n.inner().option_count();
                            if now < c {
                                let item = PropagateItem::new(n.grid_position(), c - now);
                                propagator.push_propagate(item);
                                proof {
                                    strict = Some(n.spec_grid_position());
                                }
                            }
                        },
                        None => {},
                    }
                    k = k + 1;
                    proof {
                        if propagator.pending().len() > prev.len() {
                            assert(propagator.pending().subrange(0, pend.len() - 1) =~= prev.subrange(0, pend.len() - 1));
                        } else {
                            assert(propagator.pending() == prev);
                        }
                        assert(propagator.pending().subrange(0, pend.len() - 1) =~= pend.drop_last());
                        assert forall|p: GridPosition|
                            #![trigger pending_at(propagator.pending(), p)]
                            pending_at(propagator.pending(), p) <==> pending_at(pend.drop_last(), p) || exists|j: int|
                                0 <= j < k && #[trigger] neighbour_count(before, pos, crate::map::dir_at(j)) is Some
                                    && options_at(after, neighbour_position(before, pos, crate::map::dir_at(j))->0).dom().len()
                                    < neighbour_count(before, pos, crate::map::dir_at(j))->0 && neighbour_position(
                                    before,
                                    pos,
                                    crate::map::dir_at(j),
                                )->0.x == p.x && neighbour_position(before, pos, crate::map::dir_at(j))->0.y == p.y by {
                            if pending_at(propagator.pending(), p) {
                                let i = choose|i: int|
                                    0 <= i < propagator.pending().len() && (#[trigger] propagator.pending()[i]).spec_position().x
                                        == p.x && propagator.pending()[i].spec_position().y == p.y;
                                if i < prev.len() {
                                    assert(prev[i] == propagator.pending()[i]);
                                    assert(pending_at(prev, p));
                                }
                            }
                            if pending_at(prev, p) {
                                let i = choose|i: int|
                                    0 <= i < prev.len() && (#[trigger] prev[i]).spec_position().x == p.x && prev[i].spec_position().y
                                        == p.y;
                                assert(propagator.pending()[i] == prev[i]);
                            }
                            if exists|j: int|
                                0 <= j < k && #[trigger] neighbour_count(before, pos, crate::map::dir_at(j)) is Some
                                    && options_at(after, neighbour_position(before, pos, crate::map::dir_at(j))->0).dom().len()
                                    < neighbour_count(before, pos, crate::map::dir_at(j))->0 && neighbour_position(
                                    before,
                                    pos,
                                    crate::map::dir_at(j),
                                )->0.x == p.x && neighbour_position(before, pos, crate::map::dir_at(j))->0.y == p.y {
                                let j = choose|j: int|
                                    0 <= j < k && #[trigger] neighbour_count(before, pos, crate::map::dir_at(j)) is Some
                                        && options_at(after, neighbour_position(before, pos, crate::map::dir_at(j))->0).dom().len()
                                        < neighbour_count(before, pos, crate::map::dir_at(j))->0 && neighbour_position(
                                        before,
                                        pos,
                                        crate::map::dir_at(j),
                                    )->0.x == p.x && neighbour_position(before, pos, crate::map::dir_at(j))->0.y == p.y;
                                if j == k - 1 {
                                    assert(propagator.pending().len() == prev.len() + 1);
                                    assert(propagator.pending()[prev.len() as int].spec_position().x == p.x);
                                } else {
                                    assert(0 <= j < k - 1);
                                    assert(exists|jj: int|
                                        0 <= jj < k - 1 && #[trigger] neighbour_count(before, pos, crate::map::dir_at(jj)) is Some
                                            && options_at(after, neighbour_position(before, pos, crate::map::dir_at(jj))->0).dom().len()
                                            < neighbour_count(before, pos, crate::map::dir_at(jj))->0 && neighbour_position(
                                            before,
                                            pos,
                                            crate::map::dir_at(jj),
                                        )->0.x == p.x && neighbour_position(before, pos, crate::map::dir_at(jj))->0.y == p.y);
                                    assert(pending_at(prev, p));
                                }
                            }
                        }
                    }
                }
                proof {
                    if propagator.pending().len() > pend.len() - 1 {
                        let q = strict->0;
                        let q0 = GridPosition { x: q.x, y: q.y, z: None };
                        assert(tile_at(g0, q0) is Some);
                        crate::map::lemma_tile_at_valid(g0, q0);
                        assert(all@.contains(q0));
                        let jq = all@.index_of(q0);
                        assert(collapsed_at(before, all@[jq]) is None);
                        lemma_open_options_lt(before, after, all@, jq);
                    } else {
                        lemma_open_options_le(before, after, all@);
                    }
                    assert forall|p: GridPosition, d: GridDir|
                        pending_at(init, p) && tile_at(g0, p) is Some implies pending_at(propagator.pending(), p)
                            || #[trigger] arc_ok(self.inner, *adjacencies, p, d) by {
                        if !pending_at(propagator.pending(), p) {
                            if p.x == pos.x && p.y == pos.y {
                                assert(arc_ok(after, *adjacencies, pos, d)) by {
                                    assert(tile_at(after, pos) == tile_at(before, pos));
                                    if let Some(q) = neighbour_position(after, pos, d) {
                                        assert(neighbour_position(before, pos, d) == Some(q));
                                        if collapsed_at(after, q) is None {
                                            assert(collapsed_at(before, q) is None);
                                            assert forall|o: u64| #[trigger] options_at(after, q).contains_key(o) implies propagation_keeps(
                                                after,
                                                *adjacencies,
                                                pos,
                                                d,
                                                o,
                                            ) by {
                                                assert(options_at(after, neighbour_position(before, pos, d)->0).contains_key(o));
                                                assert(propagation_keeps(before, *adjacencies, pos, d, o));
                                            }
                                        }
                                    }
                                }
                                lemma_arc_ok_coords(after, *adjacencies, pos, p, d);
                            } else {
                                assert(!pending_at(pend.drop_last(), p));
                                assert(!pending_at(pend, p));
                                assert(arc_ok(before, *adjacencies, p, d));
                                if collapsed_at(before, p) is None {
                                    if is_processed_neighbour(pos, before.spec_size(), p, 4) {
                                        let e = choose|e: GridDir|
                                            crate::map::dir_index(e) < 4 && #[trigger] march_hits(e, pos, before.spec_size(), p);
                                        let n = spec_march(e, pos, before.spec_size())->0;
                                        assert(tile_at(before, n) == tile_at(before, p));
                                        assert(tile_at(after, n) == tile_at(after, p));
                                        let j = crate::map::dir_index(e);
                                        assert(crate::map::dir_at(j) == e);
                                        assert(neighbour_position(before, pos, e) == Some(n));
                                        assert(neighbour_count(before, pos, e) is Some);
                                        assert(!(options_at(after, n).dom().len() < options_at(before, n).dom().len()));
                                        lemma_options_at_finite(before, p);
                                        assert(options_at(after, p).dom().subset_of(options_at(before, p).dom()));
                                        vstd::set_lib::lemma_len_subset(options_at(after, p).dom(), options_at(before, p).dom());
                                        lemma_subset_same_len(options_at(after, p).dom(), options_at(before, p).dom());
                                    } else {
                                        assert(tile_at(after, p) == tile_at(before, p));
                                    }
                                }
                                lemma_arc_ok_kept(before, after, *adjacencies, p, d);
                            }
                        }
                    }
                }
            } else {
                proof {
                    assert forall|p: GridPosition, d: GridDir|
                        pending_at(init, p) && tile_at(g0, p) is Some implies pending_at(propagator.pending(), p)
                            || #[trigger] arc_ok(self.inner, *adjacencies, p, d) by {
                        if !pending_at(propagator.pending(), p) {
                            if p.x == pos.x && p.y == pos.y {
                                assert(tile_at(before, p) == tile_at(before, pos));
                                assert(tile_at(g0, p) is Some <==> tile_at(before, p) is Some);
                            }
                        }
                    }
                }
            }
        }
        Ok(())
    }
}

} // verus!
