//! Grid of the overlapping generation: each tile collapses into one of the patterns standing for its tile type.
use vstd::prelude::*;

use super::analyzer::{PatternAdjacencyRules, PatternFrequencyHints};
use super::pattern::{OverlappingPattern, OverlappingPattern3D, PatternCollection};
use rand::rngs::StdRng;

use crate::gen::collapse::error::{CollapseError, CollapseErrorKind, CollapsedGridError};
use crate::gen::collapse::grid::CollapsedGrid;
use crate::gen::collapse::queue::PositionQueue;
use crate::gen::collapse::resolver::{
    allows_known, collapsed_at, failed_at, filled_at, generation_removals_justified, init_blocked, neighbour_compatible, options_at,
};
use crate::gen::collapse::singular::resolver::Subscriber;
use crate::gen::collapse::singular::{AdjacencyRules, CollapsibleTileGrid, FrequencyHints};
use crate::gen::collapse::tile::{CollapsedTileData, CollapsibleTileData};
use crate::id_map::IdMap;
use crate::map::{listing_of, occupied, spec_position_valid, tile_at, GridDir, GridMap2D, GridSize};
use crate::tile::identifiable::collection::IdentTileCollection;
use crate::tile::identifiable::IdentifiableTileData;
use crate::tile::{GridPosition, GridTile, TileContainer};

verus! {

/// Tile type of the tile at `p` of a grid of collapsed tiles.
pub open spec fn type_at(grid: GridMap2D<CollapsedTileData>, p: GridPosition) -> u64 {
    tile_at(grid, p)->0.spec_tile_type_id()
}

/// Position `dx` columns and `dy` rows after `p`, on the same layer.
pub open spec fn shifted(p: GridPosition, dx: int, dy: int) -> GridPosition {
    GridPosition { x: (p.x + dx) as u32, y: (p.y + dy) as u32, z: p.z }
}

/// The tile at offset (`dx`, `dy`) from `p`, if there is one, has the tile type the pattern holds there.
pub open spec fn agrees_at<const X: usize, const Y: usize, const Z: usize>(
    grid: GridMap2D<CollapsedTileData>,
    pattern: OverlappingPattern3D<X, Y, Z>,
    p: GridPosition,
    dx: int,
    dy: int,
) -> bool {
    tile_at(grid, shifted(p, dx, dy)) is Some ==> pattern.id_at(0, dy, dx) == type_at(grid, shifted(p, dx, dy))
}

/// Placed with its main tile at `p`, the pattern agrees with each tile of `grid` lying under one of its secondary
/// tiles.
pub open spec fn pattern_fits<const X: usize, const Y: usize, const Z: usize>(
    grid: GridMap2D<CollapsedTileData>,
    pattern: OverlappingPattern3D<X, Y, Z>,
    p: GridPosition,
) -> bool {
    forall|dx: int, dy: int|
        0 <= dx < X && 0 <= dy < Y && !(dx == 0 && dy == 0) && p.x + dx <= u32::MAX && p.y + dy <= u32::MAX
            ==> #[trigger] agrees_at(grid, pattern, p, dx, dy)
}

/// The pattern bound to `k` in `patterns` is indexed under the tile type at `p` and fits the tiles around `p`.
pub open spec fn fitting_key<const X: usize, const Y: usize, const Z: usize>(
    patterns: PatternCollection<OverlappingPattern3D<X, Y, Z>>,
    grid: GridMap2D<CollapsedTileData>,
    p: GridPosition,
    k: u64,
) -> bool {
    patterns.indexed_ids(type_at(grid, p)).contains(k) && pattern_fits(grid, patterns.patterns()[k], p)
}

/// Pattern identifiers of the patterns of `patterns` indexed under the tile type at `p` which fit the tiles around
/// `p`.
pub open spec fn fitting_patterns<const X: usize, const Y: usize, const Z: usize>(
    patterns: PatternCollection<OverlappingPattern3D<X, Y, Z>>,
    grid: GridMap2D<CollapsedTileData>,
    p: GridPosition,
) -> Set<u64> {
    Set::new(|id: u64| exists|k: u64| #[trigger] fitting_key(patterns, grid, p, k) && patterns.patterns()[k].spec_pattern_id() == id)
}

/// Checks whether `pattern`, placed with its main tile at `position`, agrees with the tiles of `grid` under its
/// secondary tiles.
fn fits<const X: usize, const Y: usize, const Z: usize>(
    pattern: &OverlappingPattern3D<X, Y, Z>,
    grid: &GridMap2D<CollapsedTileData>,
    position: GridPosition,
) -> (r: bool)
    requires
        Z == 1,
    ensures
        r == pattern_fits(*grid, *pattern, position),
{
    let mut dx: usize = 0;
    while dx < X
        invariant
            Z == 1,
            dx <= X,
            forall|a: int, b: int|
                0 <= a < dx && 0 <= b < Y && !(a == 0 && b == 0) && position.x + a <= u32::MAX && position.y + b <= u32::MAX
                    ==> #[trigger] agrees_at(*grid, *pattern, position, a, b),
        decreases X - dx,
    {
        let mut dy: usize = 0;
        while dy < Y
            invariant
                Z == 1,
                dx < X,
                dy <= Y,
                forall|a: int, b: int|
                    0 <= a < dx && 0 <= b < Y && !(a == 0 && b == 0) && position.x + a <= u32::MAX && position.y + b
                        <= u32::MAX ==> #[trigger] agrees_at(*grid, *pattern, position, a, b),
                forall|b: int|
                    0 <= b < dy && !(dx == 0 && b == 0) && position.x + dx <= u32::MAX && position.y + b <= u32::MAX
                        ==> #[trigger] agrees_at(*grid, *pattern, position, dx as int, b),
            decreases Y - dy,
        {
            if !(dx == 0 && dy == 0) && dx <= (u32::MAX - position.x) as usize && dy <= (u32::MAX - position.y) as usize {
                let q = GridPosition { x: position.x + dx as u32, y: position.y + dy as u32, z: position.z };
                proof {
                    assert(q == shifted(position, dx as int, dy as int));
                }
                match grid.get_tile_at_position(&q) {
                    Some(t) => {
                        let id = pattern.get_id_for_pos(&q, &position);
                        if id != t.inner().tile_type_id() {
                            proof {
                                assert(!agrees_at(*grid, *pattern, position, dx as int, dy as int));
                            }
                            return false;
                        }
                    },
                    None => {},
                }
            }
            dy = dy + 1;
        }
        dx = dx + 1;
    }
    true
}

/// Tiles of a pattern grid standing for the tiles of `collapsed`: at each position of `collapsed` (as listed by
/// the grid) a tile not collapsed, whose options are the patterns indexed under its tile type that fit the tiles
/// around it, each with its weight in `weights`.
///
/// Returns an error with the tile type of the first position without such a pattern, if there is one.
pub fn collapsed_into_collapsible_pattern<const X: usize, const Y: usize, const Z: usize>(
    collapsed: &CollapsedGrid,
    patterns: &PatternCollection<OverlappingPattern3D<X, Y, Z>>,
    weights: &IdMap<u32>,
) -> (r: Result<Vec<GridTile<CollapsibleTileData>>, CollapsedGridError>)
    requires
        Z == 1,
        forall|k: u64| #[trigger] patterns.patterns().contains_key(k) ==> weights@.contains_key(patterns.patterns()[k].spec_pattern_id()),
    ensures
        r matches Ok(tiles) ==> listing_of(
            tiles@.map_values(|t: GridTile<CollapsibleTileData>| t.spec_grid_position()),
            |p: GridPosition| occupied(collapsed.spec_grid(), p),
        ),
        r matches Ok(tiles) ==> forall|i: int|
            0 <= i < tiles@.len() ==> {
                let t = #[trigger] tiles@[i];
                &&& t.spec_data().collapsed_id() is None
                &&& forall|k: u64| #[trigger]
                    t.spec_data().options().contains_key(k) <==> fitting_patterns(
                        *patterns,
                        collapsed.spec_grid(),
                        t.spec_grid_position(),
                    ).contains(k)
                &&& forall|k: u64| #[trigger]
                    t.spec_data().options().contains_key(k) ==> t.spec_data().options()[k] == weights@[k]
            },
        r is Err <==> exists|p: GridPosition|
            p.z is None && occupied(collapsed.spec_grid(), p) && #[trigger] fitting_patterns(
                *patterns,
                collapsed.spec_grid(),
                p,
            ).is_empty(),
        r matches Err(e) ==> exists|p: GridPosition|
            p.z is None && occupied(collapsed.spec_grid(), p) && #[trigger] fitting_patterns(
                *patterns,
                collapsed.spec_grid(),
                p,
            ).is_empty() && e.spec_missing() == Some(seq![type_at(collapsed.spec_grid(), p)]),
{
    let grid = collapsed.as_ref();
    let positions = grid.get_all_positions();
    let mut out: Vec<GridTile<CollapsibleTileData>> = Vec::new();
    let mut i: usize = 0;
    while i < positions.len()
        invariant
            Z == 1,
            *grid == collapsed.spec_grid(),
            forall|k: u64| #[trigger] patterns.patterns().contains_key(k) ==> weights@.contains_key(patterns.patterns()[k].spec_pattern_id()),
            listing_of(positions@, |p: GridPosition| occupied(collapsed.spec_grid(), p)),
            i <= positions@.len(),
            out@.len() == i,
            forall|j: int|
                0 <= j < i ==> {
                    let t = #[trigger] out@[j];
                    &&& t.spec_grid_position() == positions@[j]
                    &&& t.spec_data().collapsed_id() is None
                    &&& forall|k: u64| #[trigger]
                        t.spec_data().options().contains_key(k) <==> fitting_patterns(
                            *patterns,
                            collapsed.spec_grid(),
                            positions@[j],
                        ).contains(k)
                    &&& forall|k: u64| #[trigger]
                        t.spec_data().options().contains_key(k) ==> t.spec_data().options()[k] == weights@[k]
                },
            forall|j: int| 0 <= j < i ==> !#[trigger] fitting_patterns(*patterns, collapsed.spec_grid(), positions@[j]).is_empty(),
        decreases positions@.len() - i,
    {
        let position = positions[i];
        proof {
            assert(positions@.contains(position));
        }
        let tile_type_id = grid.get_tile_at_position(&position).unwrap().inner().tile_type_id();
        let candidates = patterns.get_patterns_for_tile(tile_type_id);
        let ghost ks = choose|ks: Seq<u64>|
            #[trigger] ks.no_duplicates() && ks.to_set() == patterns.indexed_ids(tile_type_id) && candidates@ == ks.map_values(
                |k: u64| &patterns.patterns()[k],
            );
        let mut options: IdMap<u32> = IdMap::new();
        let mut c: usize = 0;
        while c < candidates.len()
            invariant
                Z == 1,
                *grid == collapsed.spec_grid(),
                forall|k: u64| #[trigger] patterns.patterns().contains_key(k) ==> weights@.contains_key(patterns.patterns()[k].spec_pattern_id()),
                c <= candidates@.len(),
                ks.no_duplicates(),
                ks.to_set() == patterns.indexed_ids(tile_type_id),
                candidates@ == ks.map_values(|k: u64| &patterns.patterns()[k]),
                tile_type_id == type_at(collapsed.spec_grid(), position),
                forall|id: u64| #[trigger]
                    options@.contains_key(id) <==> exists|k: u64| #[trigger]
                        ks.take(c as int).contains(k) && pattern_fits(collapsed.spec_grid(), patterns.patterns()[k], position)
                            && patterns.patterns()[k].spec_pattern_id() == id,
                forall|k: u64| #[trigger] options@.contains_key(k) ==> options@[k] == weights@[k],
            decreases candidates@.len() - c,
        {
            let pattern = candidates[c];
            let ghost k0 = ks[c as int];
            proof {
                assert(ks.to_set().contains(k0));
                assert(patterns.patterns().contains_key(k0));
                assert(*pattern == patterns.patterns()[k0]);
            }
            if fits(pattern, grid, position) {
                let id = pattern.pattern_id();
                let w = *weights.get(id).unwrap();
                options.insert(id, w);
            }
            proof {
                assert(ks.take(c + 1) =~= ks.take(c as int).push(k0));
                assert forall|id: u64| #[trigger]
                    options@.contains_key(id) <==> exists|k: u64| #[trigger]
                        ks.take(c + 1).contains(k) && pattern_fits(collapsed.spec_grid(), patterns.patterns()[k], position)
                            && patterns.patterns()[k].spec_pattern_id() == id by {
                    if options@.contains_key(id) {
                        if pattern_fits(collapsed.spec_grid(), patterns.patterns()[k0], position)
                            && patterns.patterns()[k0].spec_pattern_id() == id {
                            assert(ks.take(c + 1)[c as int] == k0);
                            assert(ks.take(c + 1).contains(k0));
                        } else {
                            let k = choose|k: u64| #[trigger]
                                ks.take(c as int).contains(k) && pattern_fits(collapsed.spec_grid(), patterns.patterns()[k], position)
                                    && patterns.patterns()[k].spec_pattern_id() == id;
                            vstd::seq_lib::lemma_seq_contains_after_push(ks.take(c as int), k0, k);
                        }
                    }
                    if exists|k: u64| #[trigger]
                        ks.take(c + 1).contains(k) && pattern_fits(collapsed.spec_grid(), patterns.patterns()[k], position)
                            && patterns.patterns()[k].spec_pattern_id() == id {
                        let k = choose|k: u64| #[trigger]
                            ks.take(c + 1).contains(k) && pattern_fits(collapsed.spec_grid(), patterns.patterns()[k], position)
                                && patterns.patterns()[k].spec_pattern_id() == id;
                        vstd::seq_lib::lemma_seq_contains_after_push(ks.take(c as int), k0, k);
                        if k != k0 {
                            assert(ks.take(c as int).contains(k));
                        }
                    }
                }
            }
            c = c + 1;
        }
        proof {
            assert(ks.take(c as int) =~= ks);
            assert forall|id: u64| #[trigger]
                options@.contains_key(id) <==> fitting_patterns(*patterns, collapsed.spec_grid(), position).contains(id) by {
                if options@.contains_key(id) {
                    let k = choose|k: u64| #[trigger]
                        ks.contains(k) && pattern_fits(collapsed.spec_grid(), patterns.patterns()[k], position)
                            && patterns.patterns()[k].spec_pattern_id() == id;
                    assert(ks.to_set().contains(k));
                    assert(fitting_key(*patterns, collapsed.spec_grid(), position, k));
                }
                if fitting_patterns(*patterns, collapsed.spec_grid(), position).contains(id) {
                    let k = choose|k: u64| #[trigger]
                        fitting_key(*patterns, collapsed.spec_grid(), position, k) && patterns.patterns()[k].spec_pattern_id() == id;
                    assert(ks.to_set().contains(k));
                    assert(ks.contains(k));
                }
            }
        }
        if options.is_empty() {
            proof {
                assert(fitting_patterns(*patterns, collapsed.spec_grid(), position) =~= Set::<u64>::empty()) by {
                    assert forall|k: u64| !fitting_patterns(*patterns, collapsed.spec_grid(), position).contains(k) by {
                        if fitting_patterns(*patterns, collapsed.spec_grid(), position).contains(k) {
                            assert(options@.contains_key(k));
                            options.lemma_view_keys();
                        }
                    }
                }
            }
            let missing = vec![tile_type_id];
            proof {
                assert(missing@ == seq![type_at(collapsed.spec_grid(), position)]);
                assert(fitting_patterns(*patterns, collapsed.spec_grid(), position).is_empty());
                assert(position.z is None && occupied(collapsed.spec_grid(), position));
            }
            return Err(CollapsedGridError::new_missing(missing));
        }
        proof {
            let k = options.spec_keys()[0];
            options.lemma_view_keys();
            assert(options.spec_keys().contains(k));
            assert(fitting_patterns(*patterns, collapsed.spec_grid(), position).contains(k));
        }
        let ghost before = out@;
        out.push(GridTile::new(position, CollapsibleTileData::new_uncollapsed(options)));
        proof {
            assert forall|j: int| 0 <= j < i + 1 implies !#[trigger] fitting_patterns(
                *patterns,
                collapsed.spec_grid(),
                positions@[j],
            ).is_empty() by {
                if j < i {
                    assert(out@[j] == before[j]);
                } else {
                    assert(fitting_patterns(*patterns, collapsed.spec_grid(), positions@[j]).contains(options.spec_keys()[0]));
                }
            }
        }
        i = i + 1;
    }
    proof {
        assert(out@.map_values(|t: GridTile<CollapsibleTileData>| t.spec_grid_position()) =~= positions@);
        assert forall|p: GridPosition|
            p.z is None && occupied(collapsed.spec_grid(), p) implies !#[trigger] fitting_patterns(
                *patterns,
                collapsed.spec_grid(),
                p,
            ).is_empty() by {
            assert(positions@.contains(p));
            let j = positions@.index_of(p);
            assert(positions@[j] == p);
        }
    }
    Ok(out)
}

/// Pattern identifiers of the patterns of `patterns` without a weight in `weights`.
pub open spec fn unweighted_patterns<const X: usize, const Y: usize, const Z: usize>(
    patterns: PatternCollection<OverlappingPattern3D<X, Y, Z>>,
    weights: Map<u64, u32>,
) -> Set<u64> {
    Set::new(
        |id: u64|
            exists|k: u64|
                #[trigger] patterns.patterns().contains_key(k) && patterns.patterns()[k].spec_pattern_id() == id
                    && !weights.contains_key(id),
    )
}

/// Pattern identifiers of the patterns of `patterns` without a weight in `weights`, each once.
fn unweighted_pattern_ids<const X: usize, const Y: usize, const Z: usize>(
    patterns: &PatternCollection<OverlappingPattern3D<X, Y, Z>>,
    weights: &IdMap<u32>,
) -> (out: Vec<u64>)
    ensures
        out@.to_set() == unweighted_patterns(*patterns, weights@),
        out@.no_duplicates(),
{
    let inner = patterns.inner();
    let keys = inner.keys();
    let mut out: Vec<u64> = Vec::new();
    let mut i: usize = 0;
    while i < keys.len()
        invariant
            i <= keys@.len(),
            inner@ == patterns.patterns(),
            keys@ == inner.spec_keys(),
            inner.consistent(),
            out@.no_duplicates(),
            forall|id: u64| #[trigger]
                out@.contains(id) <==> exists|j: int|
                    0 <= j < i && patterns.patterns()[#[trigger] keys@[j]].spec_pattern_id() == id && !weights@.contains_key(id),
        decreases keys@.len() - i,
    {
        let k = keys[i];
        proof {
            assert(keys@.contains(k));
        }
        let id = inner.get(k).unwrap().pattern_id();
        let ghost before = out@;
        if !weights.contains_key(id) && !crate::gen::collapse::contains_id(out.as_slice(), id) {
            out.push(id);
        }
        proof {
            assert(out@.no_duplicates()) by {
                assert forall|a: int, b: int| 0 <= a < b < out@.len() implies out@[a] != out@[b] by {
                    if b == before.len() {
                        assert(before.contains(before[a]));
                    }
                }
            }
            assert forall|x: u64| #[trigger]
                out@.contains(x) <==> exists|j: int|
                    0 <= j < i + 1 && patterns.patterns()[#[trigger] keys@[j]].spec_pattern_id() == x && !weights@.contains_key(x) by {
                vstd::seq_lib::lemma_seq_contains_after_push(before, id, x);
                if out@.contains(x) && !before.contains(x) {
                    assert(keys@[i as int] == k);
                }
                if exists|j: int|
                    0 <= j < i + 1 && patterns.patterns()[#[trigger] keys@[j]].spec_pattern_id() == x && !weights@.contains_key(x) {
                    let j = choose|j: int|
                        0 <= j < i + 1 && patterns.patterns()[#[trigger] keys@[j]].spec_pattern_id() == x && !weights@.contains_key(x);
                    if j == i {
                        assert(x == id);
                    }
                }
            }
        }
        i = i + 1;
    }
    proof {
        assert forall|x: u64| #[trigger] out@.to_set().contains(x) <==> unweighted_patterns(*patterns, weights@).contains(x) by {
            if out@.contains(x) {
                let j = choose|j: int|
                    0 <= j < keys@.len() && patterns.patterns()[#[trigger] keys@[j]].spec_pattern_id() == x && !weights@.contains_key(x);
                assert(keys@.contains(keys@[j]));
                assert(patterns.patterns().contains_key(keys@[j]));
            }
            if unweighted_patterns(*patterns, weights@).contains(x) {
                let k = choose|k: u64|
                    #[trigger] patterns.patterns().contains_key(k) && patterns.patterns()[k].spec_pattern_id() == x
                        && !weights@.contains_key(x);
                assert(keys@.contains(k));
                let j = keys@.index_of(k);
                assert(patterns.patterns()[keys@[j]].spec_pattern_id() == x);
            }
        }
        assert(out@.to_set() =~= unweighted_patterns(*patterns, weights@));
    }
    out
}

/// Collapsible grid of the overlapping generation: tiles collapsing into patterns of a collection, with the
/// rules and weights of the patterns.
pub struct CollapsiblePatternGrid<P, Data: IdentifiableTileData> {
    tiles: CollapsibleTileGrid<CollapsedTileData>,
    patterns: PatternCollection<P>,
    tile_type: std::marker::PhantomData<Data>,
}

impl<const X: usize, const Y: usize, const Z: usize, Data: IdentifiableTileData> CollapsiblePatternGrid<
    OverlappingPattern3D<X, Y, Z>,
    Data,
> {
    /// The tiles of the grid, each collapsed into a pattern identifier or holding the patterns it can still be.
    pub closed spec fn grid(&self) -> GridMap2D<CollapsibleTileData> {
        self.tiles.grid()
    }

    /// Rules saying which pattern can neighbour which.
    pub closed spec fn rules(&self) -> AdjacencyRules<CollapsedTileData> {
        self.tiles.rules()
    }

    /// Weights of the patterns.
    pub closed spec fn weights(&self) -> Map<u64, u32> {
        self.tiles.weights()
    }

    /// The patterns the tiles collapse into.
    pub closed spec fn collection(&self) -> PatternCollection<OverlappingPattern3D<X, Y, Z>> {
        self.patterns
    }

    /// Every collapsed pattern of the grid is recorded.
    pub closed spec fn wf(&self) -> bool {
        self.tiles.wf()
    }

    /// The grid of tiles underneath, generated by the singular machinery over pattern identifiers.
    pub(crate) closed spec fn tile_grid(&self) -> CollapsibleTileGrid<CollapsedTileData> {
        self.tiles
    }

    /// Empty grid of given size, for the patterns of `patterns` with the given weights and rules.
    ///
    /// Returns an error listing the pattern identifiers of `patterns` without a weight, if there are any.
    pub fn new_empty(
        size: GridSize,
        patterns: PatternCollection<OverlappingPattern3D<X, Y, Z>>,
        frequencies: &PatternFrequencyHints<X, Y, Z, Data>,
        adjacencies: &PatternAdjacencyRules<X, Y, Z, Data>,
    ) -> (r: Result<Self, CollapsedGridError>)
        requires
            size.x * size.y <= usize::MAX,
        ensures
            r is Err <==> !unweighted_patterns(patterns, frequencies.spec_weights()).is_empty(),
            r matches Err(e) ==> e.spec_missing() matches Some(m) && m.to_set() == unweighted_patterns(
                patterns,
                frequencies.spec_weights(),
            ) && m.no_duplicates(),
            r matches Ok(g) ==> {
                &&& g.wf()
                &&& g.grid().spec_size() == size
                &&& forall|p: GridPosition| #[trigger] tile_at(g.grid(), p) is None
                &&& g.weights() == frequencies.spec_weights()
                &&& forall|a: u64, d: GridDir, c: u64| #[trigger] g.rules().allows(a, d, c) == adjacencies.table().allows(a, d, c)
                &&& g.collection() == patterns
            },
    {
        let weights = frequencies.get_all_weights_cloned();
        let missing = unweighted_pattern_ids(&patterns, &weights);
        if missing.len() > 0 {
            proof {
                assert(missing@.to_set().contains(missing@[0]));
            }
            return Err(CollapsedGridError::new_missing(missing));
        }
        proof {
            if !unweighted_patterns(patterns, frequencies.spec_weights()).is_empty() {
                let x = unweighted_patterns(patterns, frequencies.spec_weights()).choose();
                assert(missing@.to_set().contains(x));
            }
        }
        let table = adjacencies.as_ref().clone();
        let rules = AdjacencyRules::<CollapsedTileData>::from_table(table);
        let hints = FrequencyHints::<CollapsedTileData>::from_weights(weights);
        let tiles = CollapsibleTileGrid::new_empty(size, &hints, &rules);
        Ok(Self { tiles, patterns, tile_type: std::marker::PhantomData })
    }

    /// Grid of the size of `collapsed` for the patterns of `patterns` with the given weights and rules, holding at
    /// each position of `collapsed` a tile which can be any of the patterns standing for its tile type that fit
    /// the tiles around it (see [`collapsed_into_collapsible_pattern`]).
    ///
    /// Returns an error listing the pattern identifiers of `patterns` without a weight, if there are any; else an
    /// error with the tile type of a position of `collapsed` without a fitting pattern, if there is one.
    pub fn new_from_collapsed(
        collapsed: &CollapsedGrid,
        patterns: PatternCollection<OverlappingPattern3D<X, Y, Z>>,
        frequencies: &PatternFrequencyHints<X, Y, Z, Data>,
        adjacencies: &PatternAdjacencyRules<X, Y, Z, Data>,
    ) -> (r: Result<Self, CollapsedGridError>)
        requires
            Z == 1,
        ensures
            !unweighted_patterns(patterns, frequencies.spec_weights()).is_empty() ==> (r matches Err(e)
                && e.spec_missing() matches Some(m) && m.to_set() == unweighted_patterns(
                patterns,
                frequencies.spec_weights(),
            ) && m.no_duplicates()),
            unweighted_patterns(patterns, frequencies.spec_weights()).is_empty() ==> (r is Err <==> exists|p: GridPosition|
                p.z is None && occupied(collapsed.spec_grid(), p) && #[trigger] fitting_patterns(
                    patterns,
                    collapsed.spec_grid(),
                    p,
                ).is_empty()),
            unweighted_patterns(patterns, frequencies.spec_weights()).is_empty() ==> (r matches Err(e) ==> exists|p: GridPosition|
                p.z is None && occupied(collapsed.spec_grid(), p) && #[trigger] fitting_patterns(
                    patterns,
                    collapsed.spec_grid(),
                    p,
                ).is_empty() && e.spec_missing() == Some(seq![type_at(collapsed.spec_grid(), p)])),
            r matches Ok(g) ==> {
                &&& g.wf()
                &&& g.grid().spec_size() == collapsed.spec_grid().spec_size()
                &&& g.weights() == frequencies.spec_weights()
                &&& forall|a: u64, d: GridDir, c: u64| #[trigger] g.rules().allows(a, d, c) == adjacencies.table().allows(a, d, c)
                &&& g.collection() == patterns
                &&& forall|p: GridPosition| #[trigger]
                    tile_at(g.grid(), p) is Some <==> tile_at(collapsed.spec_grid(), p) is Some
                &&& forall|p: GridPosition| #[trigger]
                    tile_at(g.grid(), p) is Some ==> collapsed_at(g.grid(), p) is None
                &&& forall|p: GridPosition, k: u64| #[trigger]
                    options_at(g.grid(), p).contains_key(k) ==> frequencies.spec_weights().contains_key(k)
                        && options_at(g.grid(), p)[k] == frequencies.spec_weights()[k]
                &&& forall|p: GridPosition, k: u64|
                    p.z is None && tile_at(g.grid(), p) is Some ==> (#[trigger] options_at(g.grid(), p).contains_key(k)
                        <==> fitting_patterns(patterns, collapsed.spec_grid(), p).contains(k))
            },
    {
        let size = *collapsed.as_ref().size();
        let weights = frequencies.get_all_weights_cloned();
        let mut grid = match Self::new_empty(size, patterns, frequencies, adjacencies) {
            Ok(g) => g,
            Err(e) => {
                return Err(e);
            },
        };
        proof {
            assert forall|k: u64| #[trigger] grid.patterns.patterns().contains_key(k) implies weights@.contains_key(
                grid.patterns.patterns()[k].spec_pattern_id(),
            ) by {
                if !weights@.contains_key(grid.patterns.patterns()[k].spec_pattern_id()) {
                    assert(unweighted_patterns(patterns, frequencies.spec_weights()).contains(
                        grid.patterns.patterns()[k].spec_pattern_id(),
                    ));
                }
            }
        }
        let tiles = match collapsed_into_collapsible_pattern(collapsed, &grid.patterns, &weights) {
            Ok(t) => t,
            Err(e) => {
                return Err(e);
            },
        };
        proof {
            assert forall|a: u64, d: GridDir, c: u64| #[trigger] grid.tiles.rules().allows(a, d, c) == adjacencies.table().allows(a, d, c) by {
                assert(grid.rules().allows(a, d, c) == adjacencies.table().allows(a, d, c));
            }
        }
        let ghost start = grid.tiles.grid();
        let ghost listed = tiles@.map_values(|t: GridTile<CollapsibleTileData>| t.spec_grid_position());
        let mut i: usize = 0;
        while i < tiles.len()
            invariant
                i <= tiles@.len(),
                grid.tiles.wf(),
                grid.tiles.grid().spec_size() == size,
                size == collapsed.spec_grid().spec_size(),
                grid.tiles.weights() == frequencies.spec_weights(),
                grid.tiles.weights() == weights@,
                forall|a: u64, d: GridDir, c: u64| #[trigger] grid.tiles.rules().allows(a, d, c) == adjacencies.table().allows(a, d, c),
                grid.patterns == patterns,
                listed == tiles@.map_values(|t: GridTile<CollapsibleTileData>| t.spec_grid_position()),
                listing_of(listed, |p: GridPosition| occupied(collapsed.spec_grid(), p)),
                forall|j: int|
                    0 <= j < tiles@.len() ==> {
                        let t = #[trigger] tiles@[j];
                        &&& t.spec_data().collapsed_id() is None
                        &&& forall|k: u64| #[trigger]
                            t.spec_data().options().contains_key(k) <==> fitting_patterns(
                                patterns,
                                collapsed.spec_grid(),
                                t.spec_grid_position(),
                            ).contains(k)
                        &&& forall|k: u64| #[trigger]
                            t.spec_data().options().contains_key(k) ==> t.spec_data().options()[k] == weights@[k]
                    },
                forall|p: GridPosition| #[trigger]
                    tile_at(grid.tiles.grid(), p) is Some <==> exists|j: int|
                        0 <= j < i && #[trigger] listed[j].x == p.x && listed[j].y == p.y,
                forall|j: int|
                    0 <= j < i ==> collapsed_at(grid.tiles.grid(), #[trigger] listed[j]) is None && options_at(
                        grid.tiles.grid(),
                        listed[j],
                    ) == tiles@[j].spec_data().options(),
            decreases tiles@.len() - i,
        {
            let position = tiles[i].grid_position();
            let options = tiles[i].inner().copy_options();
            proof {
                assert(listed[i as int] == position);
                assert(listed.contains(position));
            }
            let ghost before = grid.tiles.grid();
            grid.tiles.insert_uncollapsed(&position, options);
            i = i + 1;
            proof {
                assert(occupied(collapsed.spec_grid(), position));
                assert(spec_position_valid(size, position));
                assert forall|j: int|
                    0 <= j < i implies collapsed_at(grid.tiles.grid(), #[trigger] listed[j]) is None && options_at(
                        grid.tiles.grid(),
                        listed[j],
                    ) == tiles@[j].spec_data().options() by {
                    if j < i - 1 {
                        assert(crate::map::xy_lt(listed[j], listed[i - 1]));
                    } else {
                        assert(listed[j] == position);
                    }
                }
                assert forall|p: GridPosition| #[trigger]
                    tile_at(grid.tiles.grid(), p) is Some <==> exists|j: int|
                        0 <= j < i && #[trigger] listed[j].x == p.x && listed[j].y == p.y by {
                    if p.x == position.x && p.y == position.y {
                        assert(listed[i - 1].x == p.x && listed[i - 1].y == p.y);
                    }
                    if exists|j: int| 0 <= j < i && #[trigger] listed[j].x == p.x && listed[j].y == p.y {
                        let j = choose|j: int| 0 <= j < i && #[trigger] listed[j].x == p.x && listed[j].y == p.y;
                        if j < i - 1 {
                            assert(tile_at(before, p) is Some);
                        }
                    }
                }
            }
        }
        proof {
            assert forall|p: GridPosition| #[trigger] tile_at(grid.grid(), p) is Some <==> tile_at(collapsed.spec_grid(), p) is Some by {
                if tile_at(grid.tiles.grid(), p) is Some {
                    let j = choose|j: int| 0 <= j < i && #[trigger] listed[j].x == p.x && listed[j].y == p.y;
                    assert(listed.contains(listed[j]));
                }
                if tile_at(collapsed.spec_grid(), p) is Some {
                    let q = GridPosition { x: p.x, y: p.y, z: None };
                    crate::map::lemma_tile_at_valid(collapsed.spec_grid(), p);
                    assert(tile_at(collapsed.spec_grid(), q) is Some);
                    assert(listed.contains(q));
                    let j = listed.index_of(q);
                    assert(listed[j].x == p.x && listed[j].y == p.y);
                }
            }
            assert forall|p: GridPosition| #[trigger] tile_at(grid.grid(), p) is Some implies collapsed_at(grid.grid(), p) is None && forall|k: u64|
                #[trigger] options_at(grid.grid(), p).contains_key(k) ==> frequencies.spec_weights().contains_key(k)
                    && options_at(grid.grid(), p)[k] == frequencies.spec_weights()[k] && (p.z is None ==> fitting_patterns(
                    patterns,
                    collapsed.spec_grid(),
                    p,
                ).contains(k)) by {
                let j = choose|j: int| 0 <= j < i && #[trigger] listed[j].x == p.x && listed[j].y == p.y;
                assert(collapsed_at(grid.tiles.grid(), listed[j]) is None);
                assert(options_at(grid.tiles.grid(), p) == options_at(grid.tiles.grid(), listed[j]));
                assert(tiles@[j].spec_grid_position() == listed[j]);
                assert(listed.contains(listed[j]));
                assert forall|k: u64| #[trigger] options_at(grid.grid(), p).contains_key(k) implies frequencies.spec_weights().contains_key(k)
                    && options_at(grid.grid(), p)[k] == frequencies.spec_weights()[k] && (p.z is None ==> fitting_patterns(
                    patterns,
                    collapsed.spec_grid(),
                    p,
                ).contains(k)) by {
                    assert(tiles@[j].spec_data().options().contains_key(k));
                    assert(fitting_patterns(patterns, collapsed.spec_grid(), listed[j]).contains(k));
                    let kk = choose|kk: u64| #[trigger]
                        fitting_key(patterns, collapsed.spec_grid(), listed[j], kk) && patterns.patterns()[kk].spec_pattern_id() == k;
                    assert(patterns.patterns().contains_key(kk));
                    assert(grid.patterns.patterns().contains_key(kk));
                    if p.z is None {
                        assert(listed[j] == p);
                    }
                }
            }
            assert forall|p: GridPosition, k: u64|
                p.z is None && tile_at(grid.grid(), p) is Some implies (#[trigger] options_at(grid.grid(), p).contains_key(k)
                <==> fitting_patterns(patterns, collapsed.spec_grid(), p).contains(k)) by {
                let j = choose|j: int| 0 <= j < i && #[trigger] listed[j].x == p.x && listed[j].y == p.y;
                assert(listed.contains(listed[j]));
                assert(listed[j].z is None);
                assert(listed[j] == p);
                assert(tiles@[j].spec_grid_position() == listed[j]);
            }
        }
        Ok(grid)
    }
}

impl<const X: usize, const Y: usize, const Z: usize, Data: IdentifiableTileData> CollapsiblePatternGrid<
    OverlappingPattern3D<X, Y, Z>,
    Data,
> {
    /// Grid of the tiles collapsed into a pattern of the collection, each holding the tile type of its pattern.
    pub fn retrieve_collapsed(&self) -> (c: CollapsedGrid)
        requires
            self.wf(),
        ensures
            c.ids_recorded(),
            c.spec_grid().spec_size() == self.grid().spec_size(),
            forall|p: GridPosition| #[trigger]
                tile_at(c.spec_grid(), p) is Some <==> (collapsed_at(self.grid(), p) matches Some(k)
                    && self.collection().patterns().contains_key(k)),
            forall|p: GridPosition| #[trigger]
                tile_at(c.spec_grid(), p) is Some ==> tile_at(c.spec_grid(), p)->0.spec_tile_type_id()
                    == self.collection().patterns()[collapsed_at(self.grid(), p)->0].spec_tile_type_id(),
    {
        let ids = self.tiles.retrieve_collapsed();
        let g = ids.as_ref();
        let positions = g.get_all_positions();
        let mut out = CollapsedGrid::new(*g.size());
        let mut i: usize = 0;
        while i < positions.len()
            invariant
                i <= positions@.len(),
                *g == ids.spec_grid(),
                ids.spec_grid().spec_size() == self.grid().spec_size(),
                forall|p: GridPosition| #[trigger] tile_at(ids.spec_grid(), p) is Some <==> collapsed_at(self.grid(), p) is Some,
                forall|p: GridPosition| #[trigger]
                    tile_at(ids.spec_grid(), p) is Some ==> tile_at(ids.spec_grid(), p)->0.spec_tile_type_id() == collapsed_at(
                        self.grid(),
                        p,
                    )->0,
                listing_of(positions@, |p: GridPosition| occupied(ids.spec_grid(), p)),
                out.ids_recorded(),
                out.spec_grid().spec_size() == self.grid().spec_size(),
                forall|p: GridPosition| #[trigger]
                    tile_at(out.spec_grid(), p) is Some <==> exists|j: int|
                        0 <= j < i && #[trigger] positions@[j].x == p.x && positions@[j].y == p.y
                            && self.collection().patterns().contains_key(collapsed_at(self.grid(), positions@[j])->0),
                forall|p: GridPosition| #[trigger]
                    tile_at(out.spec_grid(), p) is Some ==> tile_at(out.spec_grid(), p)->0.spec_tile_type_id()
                        == self.collection().patterns()[collapsed_at(self.grid(), p)->0].spec_tile_type_id(),
            decreases positions@.len() - i,
        {
            let pos = positions[i];
            proof {
                assert(positions@.contains(pos));
            }
            let pid = g.get_tile_at_position(&pos).unwrap().inner().tile_type_id();
            let ghost before = out.spec_grid();
            match self.patterns.get_tile_data(pid) {
                Some(pattern) => {
                    let t = pattern.tile_type_id();
                    out.insert_data(&pos, CollapsedTileData::new(t));
                },
                None => {},
            }
            i = i + 1;
            proof {
                assert(positions@[i - 1] == pos);
                assert forall|p: GridPosition| #[trigger]
                    tile_at(out.spec_grid(), p) is Some <==> exists|j: int|
                        0 <= j < i && #[trigger] positions@[j].x == p.x && positions@[j].y == p.y
                            && self.collection().patterns().contains_key(collapsed_at(self.grid(), positions@[j])->0) by {
                    if p.x == pos.x && p.y == pos.y {
                        assert(collapsed_at(self.grid(), positions@[i - 1]) == collapsed_at(self.grid(), p));
                        if exists|j: int|
                            0 <= j < i && #[trigger] positions@[j].x == p.x && positions@[j].y == p.y
                                && self.collection().patterns().contains_key(collapsed_at(self.grid(), positions@[j])->0) {
                            let j = choose|j: int|
                                0 <= j < i && #[trigger] positions@[j].x == p.x && positions@[j].y == p.y
                                    && self.collection().patterns().contains_key(collapsed_at(self.grid(), positions@[j])->0);
                            if j < i - 1 {
                                assert(crate::map::xy_lt(positions@[j], positions@[i - 1]));
                            }
                        }
                    } else {
                        assert(tile_at(out.spec_grid(), p) == tile_at(before, p));
                        if exists|j: int|
                            0 <= j < i && #[trigger] positions@[j].x == p.x && positions@[j].y == p.y
                                && self.collection().patterns().contains_key(collapsed_at(self.grid(), positions@[j])->0) {
                            let j = choose|j: int|
                                0 <= j < i && #[trigger] positions@[j].x == p.x && positions@[j].y == p.y
                                    && self.collection().patterns().contains_key(collapsed_at(self.grid(), positions@[j])->0);
                            assert(j != i - 1);
                        }
                    }
                }
                assert forall|p: GridPosition| #[trigger]
                    tile_at(out.spec_grid(), p) is Some implies tile_at(out.spec_grid(), p)->0.spec_tile_type_id()
                        == self.collection().patterns()[collapsed_at(self.grid(), p)->0].spec_tile_type_id() by {
                    if p.x == pos.x && p.y == pos.y {
                        assert(collapsed_at(self.grid(), pos) == collapsed_at(self.grid(), p));
                        assert(tile_at(ids.spec_grid(), pos) is Some);
                    } else {
                        assert(tile_at(out.spec_grid(), p) == tile_at(before, p));
                    }
                }
            }
        }
        proof {
            assert forall|p: GridPosition| #[trigger]
                tile_at(out.spec_grid(), p) is Some <==> (collapsed_at(self.grid(), p) matches Some(k)
                    && self.collection().patterns().contains_key(k)) by {
                if tile_at(out.spec_grid(), p) is Some {
                    let j = choose|j: int|
                        0 <= j < i && #[trigger] positions@[j].x == p.x && positions@[j].y == p.y
                            && self.collection().patterns().contains_key(collapsed_at(self.grid(), positions@[j])->0);
                    assert(positions@.contains(positions@[j]));
                    assert(collapsed_at(self.grid(), positions@[j]) == collapsed_at(self.grid(), p));
                }
                if collapsed_at(self.grid(), p) matches Some(k) && self.collection().patterns().contains_key(k) {
                    let q = GridPosition { x: p.x, y: p.y, z: None };
                    assert(tile_at(ids.spec_grid(), p) is Some);
                    crate::map::lemma_tile_at_valid(ids.spec_grid(), p);
                    assert(tile_at(ids.spec_grid(), q) is Some);
                    assert(positions@.contains(q));
                    let j = positions@.index_of(q);
                    assert(positions@[j].x == p.x && positions@[j].y == p.y);
                    assert(collapsed_at(self.grid(), q) == collapsed_at(self.grid(), p));
                }
            }
        }
        out
    }
}

impl<const X: usize, const Y: usize, const Z: usize, Data: IdentifiableTileData> CollapsiblePatternGrid<
    OverlappingPattern3D<X, Y, Z>,
    Data,
> {
    /// Generates the tiles at `positions` with the rules and weights of the patterns, as
    /// [`CollapsibleResolver::generate`](crate::gen::collapse::CollapsibleResolver::generate) does over pattern
    /// identifiers, telling `subscriber` (if any) of each pattern a tile collapsed into.
    pub(crate) fn generate<S: Subscriber>(
        &mut self,
        rng: &mut StdRng,
        positions: &[GridPosition],
        queue: PositionQueue,
        subscriber: &mut Option<S>,
    ) -> (r: Result<(), CollapseError>)
        requires
            old(self).wf(),
            forall|i: int| 0 <= i < positions@.len() ==> spec_position_valid(old(self).grid().spec_size(), #[trigger] positions@[i]),
            forall|q: GridPosition|
                #[trigger] queue.waiting().contains(q) ==> positions@.contains(q) || tile_at(old(self).grid(), q) is Some,
        ensures
            final(self).wf(),
            final(self).grid().spec_size() == old(self).grid().spec_size(),
            final(self).weights() == old(self).weights(),
            final(self).rules() == old(self).rules(),
            final(self).collection() == old(self).collection(),
            r is Ok ==> forall|i: int| 0 <= i < positions@.len() ==> collapsed_at(final(self).grid(), #[trigger] positions@[i]) is Some,
            r is Ok ==> forall|i: int, d: GridDir|
                0 <= i < positions@.len() ==> #[trigger] neighbour_compatible(final(self).grid(), final(self).rules(), positions@[i], d),
            r matches Err(e) ==> failed_at(final(self).grid(), positions@, e),
            generation_removals_justified(old(self).grid(), positions@, old(self).weights(), final(self).grid(), old(self).rules()),
            positions@.len() == 0 && queue.waiting().len() == 0 ==> r is Ok,
            allows_known(old(self).rules(), old(self).weights(), old(self).grid()) && (exists|t: u64| old(self).weights().contains_key(t) && old(self).weights()[t]
                > 0) && (forall|q: GridPosition|
                tile_at(old(self).grid(), q) is Some && !filled_at(
                    old(self).grid().spec_size(),
                    positions@,
                    positions@.len() as int,
                    q,
                ) ==> #[trigger] collapsed_at(old(self).grid(), q) is Some) ==> r is Ok,
            (r matches Err(e) && e.spec_kind() == CollapseErrorKind::Init) <==> exists|i: int|
                0 <= i < positions@.len() && #[trigger] init_blocked(
                    old(self).grid(),
                    old(self).rules(),
                    positions@,
                    old(self).weights(),
                    positions@[i],
                ),
            r is Ok ==> forall|i: int|
                0 <= i < positions@.len() ==> final(self).weights().contains_key(
                    #[trigger] collapsed_at(final(self).grid(), positions@[i])->0,
                ),
            forall|p: GridPosition|
                !filled_at(old(self).grid().spec_size(), positions@, positions@.len() as int, p) && #[trigger] collapsed_at(
                    old(self).grid(),
                    p,
                ) is Some ==> collapsed_at(final(self).grid(), p) == collapsed_at(old(self).grid(), p),
            (*final(subscriber)) is Some <==> (*old(subscriber)) is Some,
    {
        self.tiles.generate(rng, positions, queue, subscriber)
    }

    /// Tile types of the patterns of the collection, bound to the identifiers of the patterns.
    pub(crate) fn pattern_types(&self) -> (types: IdMap<u64>)
        ensures
            forall|k: u64| #[trigger] types@.contains_key(k) <==> self.collection().patterns().contains_key(k),
            forall|k: u64| #[trigger]
                types@.contains_key(k) ==> types@[k] == self.collection().patterns()[k].spec_tile_type_id(),
    {
        let inner = self.patterns.inner();
        let keys = inner.keys();
        let mut types: IdMap<u64> = IdMap::new();
        let mut i: usize = 0;
        while i < keys.len()
            invariant
                i <= keys@.len(),
                inner@ == self.patterns.patterns(),
                keys@ == inner.spec_keys(),
                inner.consistent(),
                forall|k: u64| #[trigger] types@.contains_key(k) <==> keys@.take(i as int).contains(k),
                forall|k: u64| #[trigger] types@.contains_key(k) ==> types@[k] == self.patterns.patterns()[k].spec_tile_type_id(),
            decreases keys@.len() - i,
        {
            let k = keys[i];
            proof {
                assert(keys@.contains(k));
            }
            let t = inner.get(k).unwrap().tile_type_id();
            types.insert(k, t);
            proof {
                assert(keys@.take(i + 1) =~= keys@.take(i as int).push(k));
                assert forall|x: u64| #[trigger] types@.contains_key(x) <==> keys@.take(i + 1).contains(x) by {
                    vstd::seq_lib::lemma_seq_contains_after_push(keys@.take(i as int), k, x);
                }
            }
            i = i + 1;
        }
        proof {
            assert(keys@.take(i as int) =~= keys@);
        }
        types
    }
}

} // verus!
