//! Grid of collapsible tiles together with the rules and weights of their generation.
use vstd::prelude::*;

use rand::rngs::StdRng;

use super::analyzer::{AdjacencyRules, FrequencyHints};
use super::resolver::Subscriber;
use crate::gen::collapse::error::{CollapseError, CollapseErrorKind, CollapsedGridError};
use crate::gen::collapse::grid::CollapsedGrid;
use crate::gen::collapse::queue::{PositionQueue, Propagator};
use crate::gen::collapse::resolver::{
    allows_known, arc_ok, collapse_step_done, collapsed_at, failed_at, filled_at, generation_removals_justified, grid_consistent, open_options_kept, init_blocked, init_options,
    narrowed, neighbour_compatible, options_at, pending_at, removals_justified, reported_since, same_collapse,
    step_result, CollapsibleResolver,
};
use crate::gen::collapse::tile::CollapsibleTileData;
use crate::map::{listing_of, occupied, spec_position_valid, tile_at, GridDir, GridMap2D, GridSize};
use crate::tile::identifiable::builders::IdentTileBuilder;
use crate::tile::identifiable::IdentifiableTileData;
use crate::tile::{GridPosition, TileContainer};

verus! {

/// Tile types of `ids` without weight in `weights`.
pub open spec fn unweighted(ids: Set<u64>, weights: Map<u64, u32>) -> Set<u64> {
    ids.filter(|t: u64| !weights.contains_key(t))
}

/// Tile types of `ids` without weight in `weights`, in the order of `ids`.
fn unweighted_ids<D: IdentifiableTileData>(ids: &Vec<u64>, weights: &FrequencyHints<D>) -> (out: Vec<u64>)
    requires
        ids@.no_duplicates(),
    ensures
        out@.to_set() == unweighted(ids@.to_set(), weights.weights()),
        out@.no_duplicates(),
{
    let all = weights.get_all_weights_cloned();
    let mut out: Vec<u64> = Vec::new();
    let mut k: usize = 0;
    while k < ids.len()
        invariant
            k <= ids@.len(),
            ids@.no_duplicates(),
            all@ == weights.weights(),
            out@.no_duplicates(),
            forall|t: u64| #[trigger] out@.contains(t) <==> ids@.take(k as int).contains(t) && !all@.contains_key(t),
        decreases ids@.len() - k,
    {
        let t = ids[k];
        let ghost before = out@;
        if !all.contains_key(t) {
            out.push(t);
            proof {
                assert forall|a: int, b: int| 0 <= a < b < out@.len() implies out@[a] != out@[b] by {
                    if b == out@.len() - 1 {
                        assert(before.contains(out@[a]));
                        assert(ids@.take(k as int).contains(out@[a]));
                        let j = ids@.take(k as int).index_of(out@[a]);
                        assert(ids@[j] == out@[a]);
                    }
                }
                assert forall|x: u64| #[trigger] out@.contains(x) <==> before.contains(x) || x == t by {
                    if out@.contains(x) && x != t {
                        let j = out@.index_of(x);
                        assert(before[j] == x);
                    }
                    if before.contains(x) {
                        let j = before.index_of(x);
                        assert(out@[j] == x);
                    }
                    if x == t {
                        assert(out@[before.len() as int] == x);
                    }
                }
            }
        }
        k = k + 1;
        proof {
            crate::gen::collapse::tile::lemma_take_push_contains(ids@, k as int);
        }
    }
    proof {
        assert(ids@.take(k as int) =~= ids@);
        assert(out@.to_set() =~= unweighted(ids@.to_set(), weights.weights()));
    }
    out
}

/// Collapsible grid of the singular generation: the tiles being collapsed, with the rules for the generation and
/// the weights of the options. It can be populated with collapsed tiles before the generation, and its collapsed
/// tiles retrieved after it ends.
pub struct CollapsibleTileGrid<Data: IdentifiableTileData> {
    resolver: CollapsibleResolver<Data>,
    frequencies: FrequencyHints<Data>,
    adjacencies: AdjacencyRules<Data>,
}

impl<Data: IdentifiableTileData> CollapsibleTileGrid<Data> {
    /// The tiles of the grid.
    pub closed spec fn grid(&self) -> GridMap2D<CollapsibleTileData> {
        self.resolver.grid()
    }

    /// Weights of the options.
    pub closed spec fn weights(&self) -> Map<u64, u32> {
        self.frequencies.weights()
    }

    /// Adjacency rules of the generation.
    pub closed spec fn rules(&self) -> AdjacencyRules<Data> {
        self.adjacencies
    }

    /// Every collapsed tile type of the grid is recorded.
    pub closed spec fn wf(&self) -> bool {
        self.resolver.ids_recorded()
    }

    /// Empty grid of given size, with the given rules and weights.
    pub fn new_empty(size: GridSize, frequencies: &FrequencyHints<Data>, adjacencies: &AdjacencyRules<Data>) -> (g: Self)
        requires
            size.x * size.y <= usize::MAX,
        ensures
            g.wf(),
            g.grid().spec_size() == size,
            forall|p: GridPosition| #[trigger] tile_at(g.grid(), p) is None,
            g.weights() == frequencies.weights(),
            forall|a: u64, d: GridDir, c: u64| #[trigger] g.rules().allows(a, d, c) == adjacencies.allows(a, d, c),
    {
        Self { resolver: CollapsibleResolver::new(size), frequencies: frequencies.clone(), adjacencies: adjacencies.clone() }
    }

    /// Grid of the size of `collapsed`, holding its tiles, with the given rules and weights.
    ///
    /// Returns an error listing the tile types of `collapsed` that have no weight in `frequencies`, if there are
    /// any.
    pub fn new_from_collapsed(
        collapsed: &CollapsedGrid,
        frequencies: &FrequencyHints<Data>,
        adjacencies: &AdjacencyRules<Data>,
    ) -> (r: Result<Self, CollapsedGridError>)
        requires
            collapsed.ids_recorded(),
        ensures
            r is Err <==> unweighted(collapsed.type_ids(), frequencies.weights()).len() > 0,
            r matches Err(e) ==> e.spec_missing() matches Some(m) && m.to_set() == unweighted(
                collapsed.type_ids(),
                frequencies.weights(),
            ) && m.no_duplicates() && e.spec_sizes() is None && e.spec_position() is None,
            r matches Ok(g) ==> {
                &&& g.wf()
                &&& g.grid().spec_size() == collapsed.spec_grid().spec_size()
                &&& forall|p: GridPosition| #[trigger]
                    tile_at(g.grid(), p) is Some <==> tile_at(collapsed.spec_grid(), p) is Some
                &&& forall|p: GridPosition| #[trigger]
                    tile_at(collapsed.spec_grid(), p) is Some ==> collapsed_at(g.grid(), p) == Some(
                        tile_at(collapsed.spec_grid(), p)->0.spec_tile_type_id(),
                    )
                &&& g.weights() == frequencies.weights()
                &&& forall|a: u64, d: GridDir, c: u64| #[trigger] g.rules().allows(a, d, c) == adjacencies.allows(a, d, c)
            },
    {
        let size = *collapsed.as_ref().size();
        let mut grid = Self::new_empty(size, frequencies, adjacencies);
        match grid.populate_from_collapsed(collapsed) {
            Ok(()) => {
                proof {
                    assert forall|p: GridPosition| #[trigger]
                        tile_at(grid.grid(), p) is Some <==> tile_at(collapsed.spec_grid(), p) is Some by {}
                }
                Ok(grid)
            },
            Err(e) => Err(e),
        }
    }

    /// Grid holding the collapsed tiles of this one, with the given rules and weights instead.
    ///
    /// Returns an error listing the collapsed tile types that have no weight in `frequencies`, if there are any.
    pub fn change(self, frequencies: &FrequencyHints<Data>, adjacencies: &AdjacencyRules<Data>) -> (r: Result<
        Self,
        CollapsedGridError,
    >)
        requires
            self.wf(),
        ensures
            r is Err <==> exists|p: GridPosition| #[trigger]
                collapsed_at(self.grid(), p) is Some && !frequencies.weights().contains_key(collapsed_at(self.grid(), p)->0),
            r matches Ok(g) ==> {
                &&& g.wf()
                &&& g.grid().spec_size() == self.grid().spec_size()
                &&& forall|p: GridPosition| #[trigger] collapsed_at(g.grid(), p) == collapsed_at(self.grid(), p)
                &&& forall|p: GridPosition| #[trigger] tile_at(g.grid(), p) is Some <==> collapsed_at(self.grid(), p) is Some
                &&& g.weights() == frequencies.weights()
                &&& forall|a: u64, d: GridDir, c: u64| #[trigger] g.rules().allows(a, d, c) == adjacencies.allows(a, d, c)
            },
    {
        let collapsed = self.retrieve_collapsed();
        let r = Self::new_from_collapsed(&collapsed, frequencies, adjacencies);
        proof {
            let missing = unweighted(collapsed.type_ids(), frequencies.weights());
            lemma_finite_unweighted(collapsed.type_ids(), frequencies.weights());
            if exists|p: GridPosition| #[trigger]
                collapsed_at(self.grid(), p) is Some && !frequencies.weights().contains_key(collapsed_at(self.grid(), p)->0) {
                let p = choose|p: GridPosition| #[trigger]
                    collapsed_at(self.grid(), p) is Some && !frequencies.weights().contains_key(
                        collapsed_at(self.grid(), p)->0,
                    );
                assert(tile_at(collapsed.spec_grid(), p) is Some);
                assert(missing.contains(collapsed_at(self.grid(), p)->0));
                lemma_nonempty_len(missing, collapsed_at(self.grid(), p)->0);
            }
            if missing.len() > 0 {
                let t = missing.choose();
                assert(missing.contains(t)) by {
                    if !missing.contains(t) {
                        missing.lemma_len0_is_empty();
                        assert(false);
                    }
                }
                assert(collapsed.type_ids().contains(t));
                let p = choose|p: GridPosition| #[trigger] collapsed_at(self.grid(), p) == Some(t);
                assert(collapsed_at(self.grid(), p) is Some && !frequencies.weights().contains_key(
                    collapsed_at(self.grid(), p)->0,
                ));
            }
            if r is Ok {
                let g = r->Ok_0;
                assert forall|p: GridPosition| #[trigger] collapsed_at(g.grid(), p) == collapsed_at(self.grid(), p) by {
                    if tile_at(collapsed.spec_grid(), p) is Some {
                    } else {
                        assert(tile_at(g.grid(), p) is None);
                    }
                }
            }
        }
        r
    }

    /// Puts the tiles of `collapsed` into the grid, overwriting those at their positions.
    ///
    /// Returns an error with both sizes if `collapsed` does not fit within the grid, or one listing the tile types
    /// of `collapsed` that have no weight, if there are any; the grid is then unchanged.
    pub fn populate_from_collapsed(&mut self, collapsed: &CollapsedGrid) -> (r: Result<(), CollapsedGridError>)
        requires
            old(self).wf(),
            collapsed.ids_recorded(),
        ensures
            final(self).wf(),
            final(self).grid().spec_size() == old(self).grid().spec_size(),
            final(self).weights() == old(self).weights(),
            final(self).rules() == old(self).rules(),
            !collapsed.spec_grid().spec_size().spec_is_contained_within(old(self).grid().spec_size()) ==> (r matches Err(e)
                && e.spec_sizes() == Some((collapsed.spec_grid().spec_size(), old(self).grid().spec_size()))
                && e.spec_missing() is None && e.spec_position() is None),
            collapsed.spec_grid().spec_size().spec_is_contained_within(old(self).grid().spec_size()) ==> {
                &&& r is Err <==> unweighted(collapsed.type_ids(), old(self).weights()).len() > 0
                &&& r matches Err(e) ==> e.spec_missing() matches Some(m) && m.to_set() == unweighted(
                    collapsed.type_ids(),
                    old(self).weights(),
                ) && m.no_duplicates() && e.spec_sizes() is None && e.spec_position() is None
            },
            r is Err ==> final(self).grid() == old(self).grid(),
            r is Ok ==> forall|p: GridPosition| #[trigger]
                tile_at(final(self).grid(), p) is Some <==> tile_at(old(self).grid(), p) is Some || tile_at(
                    collapsed.spec_grid(),
                    p,
                ) is Some,
            r is Ok ==> forall|p: GridPosition| #[trigger]
                collapsed_at(final(self).grid(), p) == match tile_at(collapsed.spec_grid(), p) {
                    Some(t) => Some(t.spec_tile_type_id()),
                    None => collapsed_at(old(self).grid(), p),
                },
    {
        let size = *self.resolver.grid_size();
        let source_size = *collapsed.as_ref().size();
        if !source_size.is_contained_within(&size) {
            return Err(CollapsedGridError::new_wrong_size(source_size, size));
        }
        let ids = collapsed.tile_type_ids();
        let missing = unweighted_ids(&ids, &self.frequencies);
        if missing.len() > 0 {
            proof {
                assert(missing@.contains(missing@[0]));
                lemma_nonempty_len(unweighted(collapsed.type_ids(), old(self).weights()), missing@[0]);
            }
            return Err(CollapsedGridError::new_missing(missing));
        }
        proof {
            if unweighted(collapsed.type_ids(), old(self).weights()).len() > 0 {
                lemma_finite_unweighted(collapsed.type_ids(), old(self).weights());
                let t = unweighted(collapsed.type_ids(), old(self).weights()).choose();
                assert(missing@.to_set().contains(t)) by {
                    if !unweighted(collapsed.type_ids(), old(self).weights()).contains(t) {
                        assert(unweighted(collapsed.type_ids(), old(self).weights()) =~= Set::<u64>::empty());
                    }
                }
                assert(missing@.contains(t));
            }
        }
        let tiles = collapsed.as_ref().iter_tiles();
        let ghost start = self.resolver.grid();
        let mut k: usize = 0;
        while k < tiles.len()
            invariant
                k <= tiles@.len(),
                self.wf(),
                self.resolver.grid().spec_size() == start.spec_size(),
                self.frequencies == old(self).frequencies,
                self.adjacencies == old(self).adjacencies,
                collapsed.spec_grid().spec_size().spec_is_contained_within(start.spec_size()),
                listing_of(
                    tiles@.map_values(|t: crate::tile::GridTileRef<'_, crate::gen::collapse::tile::CollapsedTileData>| t.spec_grid_position()),
                    |p: GridPosition| occupied(collapsed.spec_grid(), p),
                ),
                forall|i: int|
                    0 <= i < tiles@.len() ==> Some(#[trigger] tiles@[i].spec_data()) == tile_at(
                        collapsed.spec_grid(),
                        tiles@[i].spec_grid_position(),
                    ),
                forall|p: GridPosition| #[trigger]
                    tile_at(self.resolver.grid(), p) is Some <==> tile_at(start, p) is Some || exists|i: int|
                        0 <= i < k && tiles@[i].spec_grid_position().x == p.x && #[trigger] tiles@[i].spec_grid_position().y
                            == p.y,
                forall|p: GridPosition| #[trigger]
                    collapsed_at(self.resolver.grid(), p) == if exists|i: int|
                        0 <= i < k && tiles@[i].spec_grid_position().x == p.x && #[trigger] tiles@[i].spec_grid_position().y
                            == p.y {
                        Some(tile_at(collapsed.spec_grid(), p)->0.spec_tile_type_id())
                    } else {
                        collapsed_at(start, p)
                    },
            decreases tiles@.len() - k,
        {
            let tile = &tiles[k];
            let position = tile.grid_position();
            let id = tile.inner().tile_type_id();
            proof {
                let listed = tiles@.map_values(|t: crate::tile::GridTileRef<'_, crate::gen::collapse::tile::CollapsedTileData>| t.spec_grid_position());
                assert(listed[k as int] == position);
                assert(listed.contains(position));
                assert(occupied(collapsed.spec_grid(), position));
            }
            let ghost before = self.resolver.grid();
            self.resolver.insert_collapsed(&position, id);
            k = k + 1;
            proof {
                assert(spec_position_valid(start.spec_size(), position));
                assert forall|p: GridPosition| #[trigger]
                    tile_at(self.resolver.grid(), p) is Some <==> tile_at(start, p) is Some || exists|i: int|
                        0 <= i < k && tiles@[i].spec_grid_position().x == p.x && #[trigger] tiles@[i].spec_grid_position().y
                            == p.y by {
                    if p.x == position.x && p.y == position.y {
                        assert(tiles@[k - 1].spec_grid_position().x == p.x && tiles@[k - 1].spec_grid_position().y == p.y);
                    } else if exists|i: int|
                        0 <= i < k && tiles@[i].spec_grid_position().x == p.x && #[trigger] tiles@[i].spec_grid_position().y
                            == p.y {
                        let i = choose|i: int|
                            0 <= i < k && tiles@[i].spec_grid_position().x == p.x && #[trigger] tiles@[i].spec_grid_position().y
                                == p.y;
                        assert(i != k - 1);
                    }
                }
                assert forall|p: GridPosition| #[trigger]
                    collapsed_at(self.resolver.grid(), p) == if exists|i: int|
                        0 <= i < k && tiles@[i].spec_grid_position().x == p.x && #[trigger] tiles@[i].spec_grid_position().y
                            == p.y {
                        Some(tile_at(collapsed.spec_grid(), p)->0.spec_tile_type_id())
                    } else {
                        collapsed_at(start, p)
                    } by {
                    if p.x == position.x && p.y == position.y {
                        assert(tiles@[k - 1].spec_grid_position().x == p.x && tiles@[k - 1].spec_grid_position().y == p.y);
                        assert(tile_at(collapsed.spec_grid(), p) == tile_at(collapsed.spec_grid(), position));
                    } else if exists|i: int|
                        0 <= i < k && tiles@[i].spec_grid_position().x == p.x && #[trigger] tiles@[i].spec_grid_position().y
                            == p.y {
                        let i = choose|i: int|
                            0 <= i < k && tiles@[i].spec_grid_position().x == p.x && #[trigger] tiles@[i].spec_grid_position().y
                                == p.y;
                        assert(i != k - 1);
                    }
                }
            }
        }
        proof {
            let listed = tiles@.map_values(|t: crate::tile::GridTileRef<'_, crate::gen::collapse::tile::CollapsedTileData>| t.spec_grid_position());
            assert forall|p: GridPosition|
                (exists|i: int|
                    0 <= i < k && tiles@[i].spec_grid_position().x == p.x && #[trigger] tiles@[i].spec_grid_position().y
                        == p.y) <==> #[trigger] tile_at(collapsed.spec_grid(), p) is Some by {
                if tile_at(collapsed.spec_grid(), p) is Some {
                    let q0 = GridPosition { x: p.x, y: p.y, z: None };
                    crate::map::lemma_tile_at_valid(collapsed.spec_grid(), p);
                    assert(tile_at(collapsed.spec_grid(), q0) == tile_at(collapsed.spec_grid(), p));
                    assert(listed.contains(q0));
                    let i = listed.index_of(q0);
                    assert(tiles@[i].spec_grid_position().x == p.x && tiles@[i].spec_grid_position().y == p.y);
                }
                if exists|i: int|
                    0 <= i < k && tiles@[i].spec_grid_position().x == p.x && #[trigger] tiles@[i].spec_grid_position().y
                        == p.y {
                    let i = choose|i: int|
                        0 <= i < k && tiles@[i].spec_grid_position().x == p.x && #[trigger] tiles@[i].spec_grid_position().y
                            == p.y;
                    assert(listed[i] == tiles@[i].spec_grid_position());
                    assert(listed.contains(listed[i]));
                    assert(tile_at(collapsed.spec_grid(), listed[i]) is Some);
                }
            }
        }
        Ok(())
    }

    /// The collapsed tiles of the grid, as a grid of their tile types.
    pub fn retrieve_collapsed(&self) -> (c: CollapsedGrid)
        ensures
            c.ids_recorded(),
            c.spec_grid().spec_size() == self.grid().spec_size(),
            forall|p: GridPosition| #[trigger] tile_at(c.spec_grid(), p) is Some <==> collapsed_at(self.grid(), p) is Some,
            forall|p: GridPosition| #[trigger]
                tile_at(c.spec_grid(), p) is Some ==> tile_at(c.spec_grid(), p)->0.spec_tile_type_id() == collapsed_at(
                    self.grid(),
                    p,
                )->0,
            forall|t: u64| #[trigger] c.type_ids().contains(t) ==> exists|p: GridPosition| #[trigger]
                collapsed_at(self.grid(), p) == Some(t),
    {
        self.resolver.retrieve_collapsed()
    }

    /// Builds a grid map of the collapsed tiles with `builder`, which must be able to build each tile type present.
    pub fn retrieve_ident<OutputData: IdentifiableTileData, Builder: IdentTileBuilder<OutputData>>(
        &self,
        builder: &Builder,
    ) -> (r: Result<GridMap2D<OutputData>, CollapsedGridError>)
        requires
            forall|p: GridPosition| #[trigger]
                collapsed_at(self.grid(), p) is Some ==> builder.can_build(collapsed_at(self.grid(), p)->0),
        ensures
            (r matches Ok(grid) && grid.spec_size() == self.grid().spec_size() && (forall|p: GridPosition| #[trigger]
                tile_at(grid, p) is Some <==> collapsed_at(self.grid(), p) is Some) && (forall|p: GridPosition| #[trigger]
                tile_at(grid, p) is Some ==> builder.builds(collapsed_at(self.grid(), p)->0, tile_at(grid, p)->0))),
    {
        Ok(self.resolver.build_collapsed(builder))
    }

    /// Valid positions of the grid without a tile, ordered by `x` then `y`.
    pub fn empty_positions(&self) -> (out: Vec<GridPosition>)
        ensures
            listing_of(
                out@,
                |p: GridPosition| spec_position_valid(self.grid().spec_size(), p) && tile_at(self.grid(), p) is None,
            ),
    {
        self.resolver.all_empty_positions()
    }

    /// Size of the grid.
    pub fn grid_size(&self) -> (r: GridSize)
        ensures
            r == self.grid().spec_size(),
    {
        *self.resolver.grid_size()
    }

    /// Weights of the options of the uncollapsed tile at `position`, in increasing order of their ids; `None`
    /// where there is no tile or it is collapsed.
    pub fn option_weights_at(&self, position: &GridPosition) -> (r: Option<Vec<u32>>)
        ensures
            r is Some <==> tile_at(self.grid(), *position) is Some && collapsed_at(self.grid(), *position) is None,
            r matches Some(w) ==> w@ == tile_at(self.grid(), *position)->0.option_weights(),
    {
        self.resolver.option_weights_at(position)
    }

    /// Places at `positions` tiles which can be any of the tile types with a weight, and removes their options
    /// conflicting with the collapsed tiles around them, as a generation starts (see
    /// [`CollapsibleResolver::prepare_generation`]).
    pub(crate) fn prepare_generation(&mut self, positions: &[GridPosition]) -> (r: Result<(), CollapseError>)
        requires
            old(self).wf(),
            forall|i: int| 0 <= i < positions@.len() ==> spec_position_valid(old(self).grid().spec_size(), #[trigger] positions@[i]),
        ensures
            final(self).wf(),
            final(self).grid().spec_size() == old(self).grid().spec_size(),
            final(self).weights() == old(self).weights(),
            final(self).rules() == old(self).rules(),
            forall|q: GridPosition|
                !#[trigger] filled_at(old(self).grid().spec_size(), positions@, positions@.len() as int, q) ==> tile_at(
                    final(self).grid(),
                    q,
                ) == tile_at(old(self).grid(), q),
            forall|i: int| 0 <= i < positions@.len() ==> tile_at(final(self).grid(), #[trigger] positions@[i]) is Some
                && collapsed_at(final(self).grid(), positions@[i]) is None,
            r is Ok ==> init_options(
                final(self).grid(),
                old(self).grid(),
                old(self).rules(),
                positions@,
                old(self).weights(),
                positions@.len() as int,
            ),
            r is Ok ==> forall|q: GridPosition, o: u64|
                #[trigger] options_at(final(self).grid(), q).contains_key(o) && filled_at(
                    old(self).grid().spec_size(),
                    positions@,
                    positions@.len() as int,
                    q,
                ) ==> options_at(final(self).grid(), q)[o] == old(self).weights()[o],
            r is Err <==> exists|i: int|
                0 <= i < positions@.len() && #[trigger] init_blocked(
                    old(self).grid(),
                    old(self).rules(),
                    positions@,
                    old(self).weights(),
                    positions@[i],
                ),
            r matches Err(e) ==> e.spec_kind() == CollapseErrorKind::Init && failed_at(final(self).grid(), positions@, e),
    {
        let ghost start = *self;
        let r = self.resolver.prepare_generation(positions, &self.frequencies, &self.adjacencies);
        proof {
            assert(start.grid() == old(self).grid());
            assert(start.rules() == self.adjacencies);
            assert(start.weights() == self.frequencies.weights());
        }
        r
    }

    /// Collapses the tile at `position` and updates its neighbours, as one step of a generation (see
    /// [`collapse_step_done`]), telling `subscriber` (if any) of the collapse.
    pub(crate) fn collapse_at<S: Subscriber>(
        &mut self,
        rng: &mut StdRng,
        position: GridPosition,
        subscriber: &mut Option<S>,
    ) -> (r: Result<Vec<GridPosition>, CollapseError>)
        requires
            old(self).wf(),
            tile_at(old(self).grid(), position) is Some,
        ensures
            final(self).wf(),
            final(self).weights() == old(self).weights(),
            final(self).rules() == old(self).rules(),
            collapse_step_done(old(self).grid(), final(self).grid(), old(self).rules(), position, step_result(r)),
            collapsed_at(old(self).grid(), position) is Some ==> *final(subscriber) == *old(subscriber),
            collapsed_at(old(self).grid(), position) is None && collapsed_at(final(self).grid(), position) is Some
                && S::keeps_record() && (*old(subscriber)) is Some ==> (*final(subscriber))->0.told() == (*old(
                subscriber,
            ))->0.told().push((position, collapsed_at(final(self).grid(), position)->0)),
            (*final(subscriber)) is Some <==> (*old(subscriber)) is Some,
    {
        self.resolver.collapse_step(rng, position, &self.adjacencies, subscriber)
    }

    /// Places at `position` a tile not collapsed, with the options `options` (nothing changes if the position is
    /// not valid within the grid).
    pub(crate) fn insert_uncollapsed(&mut self, position: &GridPosition, options: crate::id_map::IdMap<u32>)
        requires
            old(self).wf(),
        ensures
            final(self).wf(),
            final(self).grid().spec_size() == old(self).grid().spec_size(),
            final(self).weights() == old(self).weights(),
            final(self).rules() == old(self).rules(),
            forall|p: GridPosition| #[trigger]
                tile_at(final(self).grid(), p) is Some <==> tile_at(old(self).grid(), p) is Some || (spec_position_valid(
                    old(self).grid().spec_size(),
                    *position,
                ) && p.x == position.x && p.y == position.y),
            forall|p: GridPosition| #[trigger]
                options_at(final(self).grid(), p) == if spec_position_valid(old(self).grid().spec_size(), *position)
                    && p.x == position.x && p.y == position.y {
                    options@
                } else {
                    options_at(old(self).grid(), p)
                },
            forall|p: GridPosition| #[trigger]
                collapsed_at(final(self).grid(), p) == if spec_position_valid(old(self).grid().spec_size(), *position)
                    && p.x == position.x && p.y == position.y {
                    None
                } else {
                    collapsed_at(old(self).grid(), p)
                },
    {
        self.resolver.insert_uncollapsed(position, options);
    }

    /// Propagates the removals waiting in `propagator` through the grid with its rules (see
    /// [`CollapsibleResolver::propagate_pending`]).
    pub(crate) fn propagate_pending(&mut self, propagator: &mut Propagator) -> (r: Result<(), GridPosition>)
        requires
            old(self).wf(),
            old(propagator).wf(),
        ensures
            final(self).wf(),
            final(propagator).wf(),
            final(self).weights() == old(self).weights(),
            final(self).rules() == old(self).rules(),
            final(self).grid().spec_size() == old(self).grid().spec_size(),
            same_collapse(final(self).grid(), old(self).grid()),
            narrowed(old(self).grid(), final(self).grid()),
            removals_justified(old(self).grid(), final(self).grid(), old(self).rules()),
            r is Ok ==> final(propagator).pending().len() == 0,
            r is Ok ==> forall|p: GridPosition, d: GridDir|
                pending_at(old(propagator).pending(), p) && tile_at(old(self).grid(), p) is Some ==> #[trigger] arc_ok(
                    final(self).grid(),
                    old(self).rules(),
                    p,
                    d,
                ),
            r matches Err(q) ==> tile_at(final(self).grid(), q) is Some && collapsed_at(final(self).grid(), q) is None
                && options_at(final(self).grid(), q).dom().len() == 0,
            grid_consistent(old(self).grid(), old(self).rules()) ==> r is Ok && open_options_kept(old(self).grid(), final(self).grid()),
    {
        let ghost start = *self;
        let r = self.resolver.propagate_pending(propagator, &self.adjacencies);
        proof {
            assert(start.grid() == old(self).grid());
            assert(start.rules() == self.adjacencies);
        }
        r
    }

    /// Removes every tile not collapsed.
    pub fn remove_uncollapsed(&mut self)
        requires
            old(self).wf(),
        ensures
            final(self).wf(),
            final(self).grid().spec_size() == old(self).grid().spec_size(),
            final(self).weights() == old(self).weights(),
            final(self).rules() == old(self).rules(),
            forall|p: GridPosition| #[trigger]
                tile_at(final(self).grid(), p) == if collapsed_at(old(self).grid(), p) is Some {
                    tile_at(old(self).grid(), p)
                } else {
                    None
                },
    {
        self.resolver.remove_uncollapsed();
    }

    /// Generates the tiles at `positions` with the rules and weights of the grid, as
    /// [`CollapsibleResolver::generate`] does, telling `subscriber` (if any) of each tile collapsed.
    pub(crate) fn generate<S: Subscriber>(
        &mut self,
        rng: &mut StdRng,
        positions: &[GridPosition],
        queue: PositionQueue,
        subscriber: &mut Option<S>,
    ) -> (r: Result<(), CollapseError>)
        requires
            old(self).wf(),
            forall|i: int| 0 <= i < positions@.len() ==> spec_position_valid(old(self).grid().spec_size(), #[trigger] positions@[i]),
            forall|q: GridPosition|
                #[trigger] queue.waiting().contains(q) ==> positions@.contains(q) || tile_at(old(self).grid(), q) is Some,
        ensures
            final(self).wf(),
            final(self).grid().spec_size() == old(self).grid().spec_size(),
            final(self).weights() == old(self).weights(),
            final(self).rules() == old(self).rules(),
            r is Ok ==> forall|i: int| 0 <= i < positions@.len() ==> collapsed_at(final(self).grid(), #[trigger] positions@[i]) is Some,
            r is Ok ==> forall|i: int, d: GridDir|
                0 <= i < positions@.len() ==> #[trigger] neighbour_compatible(final(self).grid(), final(self).rules(), positions@[i], d),
            r matches Err(e) ==> failed_at(final(self).grid(), positions@, e),
            generation_removals_justified(old(self).grid(), positions@, old(self).weights(), final(self).grid(), old(self).rules()),
            positions@.len() == 0 && queue.waiting().len() == 0 ==> r is Ok,
            allows_known(old(self).rules(), old(self).weights(), old(self).grid()) && (exists|t: u64| old(self).weights().contains_key(t) && old(self).weights()[t]
                > 0) && (forall|q: GridPosition|
                tile_at(old(self).grid(), q) is Some && !filled_at(
                    old(self).grid().spec_size(),
                    positions@,
                    positions@.len() as int,
                    q,
                ) ==> #[trigger] collapsed_at(old(self).grid(), q) is Some) ==> r is Ok,
            (r matches Err(e) && e.spec_kind() == CollapseErrorKind::Init) <==> exists|i: int|
                0 <= i < positions@.len() && #[trigger] init_blocked(
                    old(self).grid(),
                    old(self).rules(),
                    positions@,
                    old(self).weights(),
                    positions@[i],
                ),
            r is Ok ==> forall|i: int|
                0 <= i < positions@.len() ==> final(self).weights().contains_key(
                    #[trigger] collapsed_at(final(self).grid(), positions@[i])->0,
                ),
            forall|p: GridPosition|
                !filled_at(old(self).grid().spec_size(), positions@, positions@.len() as int, p) && #[trigger] collapsed_at(
                    old(self).grid(),
                    p,
                ) is Some ==> collapsed_at(final(self).grid(), p) == collapsed_at(old(self).grid(), p),
            (*final(subscriber)) is Some <==> (*old(subscriber)) is Some,
            S::keeps_record() && (*old(subscriber)) is Some ==> exists|log: Seq<(GridPosition, u64)>|
                #[trigger] reported_since(log, old(self).grid(), positions@, final(self).grid()) && (*final(subscriber))->0.told()
                    == (*old(subscriber))->0.told() + log,
    {
        let ghost start = *self;
        let r = self.resolver.generate_notifying(rng, positions, queue, &self.frequencies, &self.adjacencies, subscriber);
        proof {
            assert(start.grid() == old(self).grid());
            assert(start.rules() == self.adjacencies);
            assert(start.weights() == self.frequencies.weights());
        }
        r
    }
}

/// A set with an element has a positive size.
proof fn lemma_nonempty_len(s: Set<u64>, t: u64)
    requires
        s.contains(t),
        s.finite(),
    ensures
        s.len() > 0,
{
    if s.len() == 0 {
        s.lemma_len0_is_empty();
    }
}

/// The tile types of a collapsed grid without weight form a finite set.
proof fn lemma_finite_unweighted(ids: Set<u64>, weights: Map<u64, u32>)
    requires
        ids.finite(),
    ensures
        unweighted(ids, weights).finite(),
{
    ids.lemma_len_filter(|t: u64| !weights.contains_key(t));
}

} // verus!
