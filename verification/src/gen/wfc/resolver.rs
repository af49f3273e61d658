//! Wave-function-collapse generation: tiles narrowing down the options they can become, collapsed one at a time,
//! each change propagating constraints to the neighbours.
use vstd::prelude::*;

use rand::rngs::StdRng;

use crate::gen::adjacency::{AdjacencyAnalyzer, AdjacencyRules};
use crate::gen::collapse::resolver::{is_processed_neighbour, march_hits};
use crate::gen::collapse::tile::{choose_weighted, gen_range_u128, is_weighted_choice, ordered_weights, weight_total};
use crate::gen::frequency::FrequencyRules;
use crate::id_map::IdMap;
use crate::map::{
    dir_index, listing_of, neighbour_position, occupied, spec_march, spec_opposite, spec_position_valid, tile_at, GridDir,
    GridMap2D, GridSize,
};
use crate::tile::identifiable::builder::IdentTileBuilder;
use crate::tile::identifiable::IdentifiableTile;
use crate::tile::{GridPosition, TileContainer, TileData};

verus! {

/// Some option of `neighbour_options` is allowed in direction `d` of option `o`.
pub open spec fn allows_some<T: IdentifiableTile>(
    rules: AdjacencyRules<T>,
    o: u64,
    d: crate::map::GridDir,
    neighbour_options: Seq<u64>,
) -> bool {
    exists|i: int| 0 <= i < neighbour_options.len() && rules.allows(o, d, #[trigger] neighbour_options[i])
}

/// Tile of wave-function-collapse generation: at its position, the options it can still become, each with its
/// weight, until it collapses into one of them.
#[derive(Debug)]
pub struct WFCGenTile {
    pos: GridPosition,
    tile_id: u64,
    options_with_weights: IdMap<u32>,
    collapsed: bool,
}

impl TileData for WFCGenTile {}

impl TileContainer for WFCGenTile {
    closed spec fn spec_grid_position(&self) -> GridPosition {
        self.pos
    }

    fn grid_position(&self) -> (pos: GridPosition) {
        self.pos
    }
}

impl WFCGenTile {
    /// Options left, with their weights.
    pub closed spec fn options(&self) -> Map<u64, u32> {
        self.options_with_weights@
    }

    /// Ids of the options left, in increasing order.
    pub closed spec fn option_ids(&self) -> Seq<u64> {
        self.options_with_weights.spec_keys()
    }

    /// Weights of the options left, in increasing order of their ids.
    pub open spec fn option_weights(&self) -> Seq<u32> {
        self.option_ids().map_values(|id: u64| self.options()[id])
    }

    /// The tile has collapsed.
    pub closed spec fn is_collapsed(&self) -> bool {
        self.collapsed
    }

    /// Option the tile collapsed into (`0` before it collapses).
    pub closed spec fn spec_tile_id(&self) -> u64 {
        self.tile_id
    }

    /// Both tiles are the same but for the options left.
    pub open spec fn same_but_options(&self, other: &Self) -> bool {
        &&& self.spec_grid_position() == other.spec_grid_position()
        &&& self.is_collapsed() == other.is_collapsed()
        &&& self.spec_tile_id() == other.spec_tile_id()
    }

    /// Tile at `pos` not collapsed yet, which can become each of `options`.
    pub fn uncollapsed(pos: GridPosition, options: IdMap<u32>) -> (t: Self)
        ensures
            t.spec_grid_position() == pos,
            t.options() == options@,
            !t.is_collapsed(),
            t.spec_tile_id() == 0,
    {
        WFCGenTile { pos, tile_id: 0, options_with_weights: options, collapsed: false }
    }

    /// Checks whether the tile has collapsed.
    pub fn collapsed(&self) -> (r: bool)
        ensures
            r == self.is_collapsed(),
    {
        self.collapsed
    }

    /// Option the tile collapsed into (`0` before it collapses).
    pub fn tile_id(&self) -> (id: u64)
        ensures
            id == self.spec_tile_id(),
    {
        self.tile_id
    }

    /// Options left, with their weights.
    pub fn options_with_weights(&self) -> (o: &IdMap<u32>)
        ensures
            o@ == self.options(),
            o.spec_keys() == self.option_ids(),
    {
        &self.options_with_weights
    }

    /// Removes option `tile_id`.
    fn remove_option(&mut self, tile_id: u64)
        ensures
            final(self).options() == old(self).options().remove(tile_id),
            final(self).same_but_options(old(self)),
    {
        self.options_with_weights.remove(tile_id);
    }

    /// Removes each option of `to_remove`.
    fn remove_options(&mut self, to_remove: &Vec<u64>)
        ensures
            forall|o: u64| #[trigger]
                final(self).options().contains_key(o) <==> old(self).options().contains_key(o) && !to_remove@.contains(o),
            forall|o: u64| #[trigger] final(self).options().contains_key(o) ==> final(self).options()[o] == old(self).options()[o],
            final(self).same_but_options(old(self)),
    {
        let mut i: usize = 0;
        while i < to_remove.len()
            invariant
                i <= to_remove@.len(),
                forall|o: u64| #[trigger]
                    self.options().contains_key(o) <==> old(self).options().contains_key(o) && !to_remove@.take(i as int).contains(o),
                forall|o: u64| #[trigger] self.options().contains_key(o) ==> self.options()[o] == old(self).options()[o],
                self.same_but_options(old(self)),
            decreases to_remove@.len() - i,
        {
            self.remove_option(to_remove[i]);
            i = i + 1;
            proof {
                crate::gen::collapse::tile::lemma_take_push_contains(to_remove@, i as int);
            }
        }
        proof {
            assert(to_remove@.take(i as int) =~= to_remove@);
        }
    }

    /// Collapses the tile into one of its options at random, weighted by the options' weights: a number is drawn
    /// between `0` and the sum of the weights (both included), and the first option whose running sum of weights
    /// reaches it is chosen. The options are dropped. Returns `false`, changing nothing, for a tile collapsed
    /// already or without options.
    pub fn collapse(&mut self, rng: &mut StdRng) -> (r: bool)
        ensures
            r == (!old(self).is_collapsed() && old(self).options().dom().len() > 0),
            !r ==> *final(self) == *old(self),
            r ==> final(self).is_collapsed() && final(self).options() == Map::<u64, u32>::empty()
                && final(self).spec_grid_position() == old(self).spec_grid_position() && exists|rand: int, i: int|
                0 <= rand <= weight_total(old(self).option_weights()) && is_weighted_choice(old(self).option_weights(), rand, i)
                    && final(self).spec_tile_id() == old(self).option_ids()[i],
    {
        if self.collapsed || self.options_with_weights.is_empty() {
            return false;
        }
        let (ids, weights, total) = ordered_weights(&self.options_with_weights);
        let random = gen_range_u128(rng, 0, total + 1);
        let i = choose_weighted(weights.as_slice(), random);
        proof {
            assert(self.option_ids().contains(ids@[i as int]));
            assert(weights@ =~= self.option_weights());
            assert(is_weighted_choice(old(self).option_weights(), random as int, i as int));
        }
        self.tile_id = ids[i];
        self.collapsed = true;
        self.options_with_weights.clear();
        proof {
            assert(self.options() =~= Map::<u64, u32>::empty());
        }
        true
    }

    /// Removes the options which do not allow the collapsed neighbour `neighbour_tile_id` in `dir`; says whether
    /// any was removed.
    pub fn resolve_options_neighbour_collapsed<T: IdentifiableTile>(
        &mut self,
        adjacency: &AdjacencyRules<T>,
        dir: crate::map::GridDir,
        neighbour_tile_id: u64,
    ) -> (changed: bool)
        ensures
            forall|o: u64| #[trigger]
                final(self).options().contains_key(o) <==> old(self).options().contains_key(o) && adjacency.allows(
                    o,
                    dir,
                    neighbour_tile_id,
                ),
            forall|o: u64| #[trigger] final(self).options().contains_key(o) ==> final(self).options()[o] == old(self).options()[o],
            final(self).same_but_options(old(self)),
            changed == exists|o: u64| #[trigger] old(self).options().contains_key(o) && !adjacency.allows(o, dir, neighbour_tile_id),
    {
        let ids = self.options_with_weights.keys();
        let mut to_remove: Vec<u64> = Vec::new();
        let mut k: usize = 0;
        while k < ids.len()
            invariant
                k <= ids@.len(),
                ids@ == self.option_ids(),
                self.options_with_weights.consistent(),
                forall|o: u64| #[trigger]
                    to_remove@.contains(o) <==> ids@.take(k as int).contains(o) && !adjacency.allows(o, dir, neighbour_tile_id),
            decreases ids@.len() - k,
        {
            let option = ids[k];
            let ghost before = to_remove@;
            if !adjacency.is_valid_raw(option, neighbour_tile_id, dir) {
                to_remove.push(option);
            }
            k = k + 1;
            proof {
                crate::gen::collapse::tile::lemma_take_push_contains(ids@, k as int);
                assert forall|o: u64| #[trigger]
                    to_remove@.contains(o) <==> ids@.take(k as int).contains(o) && !adjacency.allows(o, dir, neighbour_tile_id) by {
                    vstd::seq_lib::lemma_seq_contains_after_push(before, option, o);
                }
            }
        }
        proof {
            assert(ids@.take(k as int) =~= ids@);
        }
        let changed = to_remove.len() > 0;
        proof {
            if changed {
                assert(to_remove@.contains(to_remove@[0]));
            }
            if exists|o: u64| #[trigger] self.options().contains_key(o) && !adjacency.allows(o, dir, neighbour_tile_id) {
                let o = choose|o: u64| #[trigger] self.options().contains_key(o) && !adjacency.allows(o, dir, neighbour_tile_id);
                assert(ids@.contains(o));
                assert(to_remove@.contains(o));
            }
        }
        self.remove_options(&to_remove);
        changed
    }

    /// Removes the options which allow none of the options `neighbour_options` of the uncollapsed neighbour in
    /// `dir`; says whether any was removed.
    pub fn resolve_options_neighbour_uncollapsed<T: IdentifiableTile>(
        &mut self,
        adjacency: &AdjacencyRules<T>,
        dir: crate::map::GridDir,
        neighbour_options: &[u64],
    ) -> (changed: bool)
        ensures
            forall|o: u64| #[trigger]
                final(self).options().contains_key(o) <==> old(self).options().contains_key(o) && allows_some(
                    *adjacency,
                    o,
                    dir,
                    neighbour_options@,
                ),
            forall|o: u64| #[trigger] final(self).options().contains_key(o) ==> final(self).options()[o] == old(self).options()[o],
            final(self).same_but_options(old(self)),
            changed == exists|o: u64| #[trigger] old(self).options().contains_key(o) && !allows_some(*adjacency, o, dir, neighbour_options@),
    {
        let ids = self.options_with_weights.keys();
        let mut to_remove: Vec<u64> = Vec::new();
        let mut k: usize = 0;
        while k < ids.len()
            invariant
                k <= ids@.len(),
                ids@ == self.option_ids(),
                self.options_with_weights.consistent(),
                forall|o: u64| #[trigger]
                    to_remove@.contains(o) <==> ids@.take(k as int).contains(o) && !allows_some(*adjacency, o, dir, neighbour_options@),
            decreases ids@.len() - k,
        {
            let option = ids[k];
            let ghost before = to_remove@;
            let mut any_valid = false;
            let mut j: usize = 0;
            while j < neighbour_options.len()
                invariant
                    j <= neighbour_options@.len(),
                    any_valid == exists|i: int| 0 <= i < j && adjacency.allows(option, dir, #[trigger] neighbour_options@[i]),
                decreases neighbour_options@.len() - j,
            {
                if adjacency.is_valid_raw(option, neighbour_options[j], dir) {
                    any_valid = true;
                }
                j = j + 1;
            }
            if !any_valid {
                to_remove.push(option);
            }
            k = k + 1;
            proof {
                crate::gen::collapse::tile::lemma_take_push_contains(ids@, k as int);
                assert forall|o: u64| #[trigger]
                    to_remove@.contains(o) <==> ids@.take(k as int).contains(o) && !allows_some(*adjacency, o, dir, neighbour_options@) by {
                    vstd::seq_lib::lemma_seq_contains_after_push(before, option, o);
                }
            }
        }
        proof {
            assert(ids@.take(k as int) =~= ids@);
        }
        let changed = to_remove.len() > 0;
        proof {
            if changed {
                let x = to_remove@[0];
                assert(to_remove@.contains(x));
                assert(ids@.contains(x));
                assert(self.options().contains_key(x) && !allows_some(*adjacency, x, dir, neighbour_options@));
            }
            if exists|o: u64| #[trigger] self.options().contains_key(o) && !allows_some(*adjacency, o, dir, neighbour_options@) {
                let o = choose|o: u64| #[trigger] self.options().contains_key(o) && !allows_some(*adjacency, o, dir, neighbour_options@);
                assert(ids@.contains(o));
                assert(to_remove@.contains(o));
            }
        }
        self.remove_options(&to_remove);
        changed
    }
}

/// `queue` with each of `items` appended in turn, unless it is there already.
pub open spec fn enqueue_new(queue: Seq<GridPosition>, items: Seq<GridPosition>) -> Seq<GridPosition>
    decreases items.len(),
{
    if items.len() == 0 {
        queue
    } else {
        let before = enqueue_new(queue, items.drop_last());
        if before.contains(items.last()) {
            before
        } else {
            before.push(items.last())
        }
    }
}

/// Option `o` of the neighbour of `pos` in direction `d` survives propagation from `pos`: it allows, in the
/// opposite direction, the option `pos` collapsed into, or (if `pos` is not collapsed) some option left at `pos`.
pub open spec fn propagation_keeps<T: IdentifiableTile>(
    grid: GridMap2D<WFCGenTile>,
    rules: AdjacencyRules<T>,
    pos: GridPosition,
    d: GridDir,
    o: u64,
) -> bool {
    let t = tile_at(grid, pos)->0;
    if t.is_collapsed() {
        rules.allows(o, spec_opposite(d), t.spec_tile_id())
    } else {
        allows_some(rules, o, spec_opposite(d), t.option_ids())
    }
}

/// Propagation from `pos` removes some option of its neighbour in direction `d`.
pub open spec fn propagation_narrows<T: IdentifiableTile>(
    grid: GridMap2D<WFCGenTile>,
    rules: AdjacencyRules<T>,
    pos: GridPosition,
    d: GridDir,
) -> bool {
    neighbour_position(grid, pos, d) matches Some(q) && exists|o: u64|
        #[trigger] tile_at(grid, q)->0.options().contains_key(o) && !propagation_keeps(grid, rules, pos, d, o)
}

/// Neighbours of `pos`, in the first `k` directions of [`GridDir::ALL_2D`], of which propagation from `pos` removes
/// some option.
pub open spec fn narrowed_neighbours<T: IdentifiableTile>(
    grid: GridMap2D<WFCGenTile>,
    rules: AdjacencyRules<T>,
    pos: GridPosition,
    k: int,
) -> Seq<GridPosition>
    decreases k,
{
    if k <= 0 {
        Seq::empty()
    } else {
        let rest = narrowed_neighbours(grid, rules, pos, k - 1);
        let d = crate::map::dir_at(k - 1);
        if propagation_narrows(grid, rules, pos, d) {
            rest.push(neighbour_position(grid, pos, d)->0)
        } else {
            rest
        }
    }
}

/// Some of `positions`, within `size`, has the coordinates of `p`.
pub open spec fn covers(positions: Seq<GridPosition>, size: GridSize, p: GridPosition) -> bool {
    exists|i: int|
        0 <= i < positions.len() && #[trigger] positions[i].x == p.x && positions[i].y == p.y && spec_position_valid(size, positions[i])
}

/// The grid holds at the coordinates of `p` a tile there, not collapsed, which can become each option of `weights`.
pub open spec fn fresh_tile_at(grid: GridMap2D<WFCGenTile>, p: GridPosition, weights: Map<u64, u32>) -> bool {
    tile_at(grid, p) matches Some(t) && t.spec_grid_position().x == p.x && t.spec_grid_position().y == p.y
        && !t.is_collapsed() && t.spec_tile_id() == 0 && t.options() == weights
}

/// `after` is `before` collapsed at random: collapsed, without options, at the same position, into the option
/// chosen by a number drawn between `0` and the sum of the weights of `before` (both included).
pub open spec fn random_collapse(before: WFCGenTile, after: WFCGenTile) -> bool {
    &&& after.is_collapsed()
    &&& after.options() == Map::<u64, u32>::empty()
    &&& after.spec_grid_position() == before.spec_grid_position()
    &&& exists|rand: int, i: int|
        0 <= rand <= weight_total(before.option_weights()) && is_weighted_choice(before.option_weights(), rand, i)
            && after.spec_tile_id() == before.option_ids()[i]
}

/// `after` is `before` left with the options that survive propagation from `pos` to its neighbour in direction `d`.
pub open spec fn narrowed_by<T: IdentifiableTile>(
    before: WFCGenTile,
    after: WFCGenTile,
    grid: GridMap2D<WFCGenTile>,
    rules: AdjacencyRules<T>,
    pos: GridPosition,
    d: GridDir,
) -> bool {
    &&& after.same_but_options(&before)
    &&& forall|o: u64| #[trigger] after.options().contains_key(o) <==> before.options().contains_key(o) && propagation_keeps(grid, rules, pos, d, o)
    &&& forall|o: u64| #[trigger] after.options().contains_key(o) ==> after.options()[o] == before.options()[o]
}

/// Checks whether `positions` holds `p`.
fn contains_position(positions: &Vec<GridPosition>, p: &GridPosition) -> (r: bool)
    ensures
        r == positions@.contains(*p),
{
    let mut i: usize = 0;
    while i < positions.len()
        invariant
            i <= positions@.len(),
            forall|j: int| 0 <= j < i ==> positions@[j] != *p,
        decreases positions@.len() - i,
    {
        if positions[i] == *p {
            assert(positions@[i as int] == *p);
            return true;
        }
        i = i + 1;
    }
    false
}

/// The tile is collapsed (`collapsed_ones`), or not collapsed while still having options (otherwise).
pub open spec fn counted_tile(t: WFCGenTile, collapsed_ones: bool) -> bool {
    if collapsed_ones {
        t.is_collapsed()
    } else {
        !t.is_collapsed() && t.options().dom().len() > 0
    }
}

/// Number of the tiles at `positions` of the grid that are collapsed (`collapsed_ones`), or that are not collapsed
/// while still having options (otherwise).
pub open spec fn count_tiles(grid: GridMap2D<WFCGenTile>, positions: Seq<GridPosition>, collapsed_ones: bool) -> nat
    decreases positions.len(),
{
    if positions.len() == 0 {
        0
    } else {
        count_tiles(grid, positions.drop_last(), collapsed_ones) + if tile_at(grid, positions.last()) is Some && counted_tile(
            tile_at(grid, positions.last())->0,
            collapsed_ones,
        ) {
            1nat
        } else {
            0nat
        }
    }
}

/// Number of options of the tile in a cell (`0` for an empty cell).
spec fn option_count(c: Option<WFCGenTile>) -> nat {
    match c {
        Some(t) => t.options().dom().len(),
        None => 0,
    }
}

/// Position of column `x` and row `y`, without layer.
spec fn coords(x: int, y: int) -> GridPosition {
    GridPosition { x: x as u32, y: y as u32, z: None }
}

/// Options left at the first `n` cells of column `x`.
spec fn column_options(g: GridMap2D<WFCGenTile>, x: int, n: int) -> nat
    decreases n,
{
    if n <= 0 {
        0
    } else {
        column_options(g, x, n - 1) + option_count(tile_at(g, coords(x, n - 1)))
    }
}

/// Options left in the first `m` columns of the grid.
spec fn columns_options(g: GridMap2D<WFCGenTile>, m: int) -> nat
    decreases m,
{
    if m <= 0 {
        0
    } else {
        columns_options(g, m - 1) + column_options(g, m - 1, g.spec_size().y as int)
    }
}

/// Options left in the whole grid.
spec fn options_left(g: GridMap2D<WFCGenTile>) -> nat {
    columns_options(g, g.spec_size().x as int)
}

proof fn lemma_column_shrinks(a: GridMap2D<WFCGenTile>, b: GridMap2D<WFCGenTile>, x: int, n: int)
    requires
        forall|p: GridPosition| #[trigger] option_count(tile_at(b, p)) <= option_count(tile_at(a, p)),
    ensures
        column_options(b, x, n) <= column_options(a, x, n),
        (exists|y: int| 0 <= y < n && #[trigger] option_count(tile_at(b, coords(x, y))) < option_count(tile_at(a, coords(x, y))))
            ==> column_options(b, x, n) < column_options(a, x, n),
    decreases n,
{
    if n > 0 {
        lemma_column_shrinks(a, b, x, n - 1);
        assert(option_count(tile_at(b, coords(x, n - 1))) <= option_count(tile_at(a, coords(x, n - 1))));
    }
}

proof fn lemma_columns_shrink(a: GridMap2D<WFCGenTile>, b: GridMap2D<WFCGenTile>, m: int)
    requires
        a.spec_size() == b.spec_size(),
        forall|p: GridPosition| #[trigger] option_count(tile_at(b, p)) <= option_count(tile_at(a, p)),
    ensures
        columns_options(b, m) <= columns_options(a, m),
        (exists|x: int, y: int|
            0 <= x < m && 0 <= y < a.spec_size().y && #[trigger] option_count(tile_at(b, coords(x, y))) < option_count(
                tile_at(a, coords(x, y)),
            )) ==> columns_options(b, m) < columns_options(a, m),
    decreases m,
{
    if m > 0 {
        lemma_columns_shrink(a, b, m - 1);
        lemma_column_shrinks(a, b, m - 1, a.spec_size().y as int);
        if exists|x: int, y: int|
            0 <= x < m && 0 <= y < a.spec_size().y && #[trigger] option_count(tile_at(b, coords(x, y))) < option_count(
                tile_at(a, coords(x, y)),
            ) {
            let (x, y) = choose|x: int, y: int|
                0 <= x < m && 0 <= y < a.spec_size().y && #[trigger] option_count(tile_at(b, coords(x, y))) < option_count(
                    tile_at(a, coords(x, y)),
                );
            if x == m - 1 {
                assert(option_count(tile_at(b, coords(m - 1, y))) < option_count(tile_at(a, coords(m - 1, y))));
            }
        }
    }
}

/// If no tile has more options in `b` than in `a`, `b` has no more options in all; if some tile has fewer, `b` has
/// fewer.
proof fn lemma_options_shrink(a: GridMap2D<WFCGenTile>, b: GridMap2D<WFCGenTile>)
    requires
        a.spec_size() == b.spec_size(),
        forall|p: GridPosition| #[trigger] option_count(tile_at(b, p)) <= option_count(tile_at(a, p)),
    ensures
        options_left(b) <= options_left(a),
        (exists|p: GridPosition| #[trigger] option_count(tile_at(b, p)) < option_count(tile_at(a, p))) ==> options_left(b)
            < options_left(a),
{
    lemma_columns_shrink(a, b, a.spec_size().x as int);
    if exists|p: GridPosition| #[trigger] option_count(tile_at(b, p)) < option_count(tile_at(a, p)) {
        let p = choose|p: GridPosition| #[trigger] option_count(tile_at(b, p)) < option_count(tile_at(a, p));
        crate::map::lemma_tile_at_valid(a, p);
        assert(tile_at(a, coords(p.x as int, p.y as int)) == tile_at(a, p));
        assert(tile_at(b, coords(p.x as int, p.y as int)) == tile_at(b, p));
        assert(option_count(tile_at(b, coords(p.x as int, p.y as int))) < option_count(tile_at(a, coords(p.x as int, p.y as int))));
    }
}

/// Every tile of `b` is the tile at the same place in `a`, in the same state, left with some of its options, weighted
/// as in `a`.
pub open spec fn narrower(a: GridMap2D<WFCGenTile>, b: GridMap2D<WFCGenTile>) -> bool {
    forall|p: GridPosition| #[trigger]
        tile_at(b, p) is Some ==> {
            let t = tile_at(a, p)->0;
            let u = tile_at(b, p)->0;
            &&& tile_at(a, p) is Some
            &&& u.same_but_options(&t)
            &&& forall|o: u64| #[trigger] u.options().contains_key(o) ==> t.options().contains_key(o) && u.options()[o]
                == t.options()[o]
        }
}

/// The positions of the lists, list after list.
pub open spec fn concat_all(lists: Seq<Seq<GridPosition>>) -> Seq<GridPosition>
    decreases lists.len(),
{
    if lists.len() == 0 {
        Seq::empty()
    } else {
        concat_all(lists.drop_last()) + lists.last()
    }
}

/// Some possible position of a grid of `size` has the coordinates of `p`.
pub open spec fn possible_coordinates(size: GridSize, p: GridPosition) -> bool {
    exists|q: GridPosition| crate::map::spec_possible_position(size, q) && #[trigger] q.x == p.x && q.y == p.y
}

/// Generation by wave-function collapse over a grid of [`WFCGenTile`]s, following the adjacency rules and
/// weighting the options by the frequencies of an analyzer.
///
/// Which position to collapse next is for the caller to choose (by the entropy of the tiles, a floating-point
/// measure): the resolver collapses the position given, keeps the positions whose options changed in a queue, and
/// propagates the change from them to their neighbours, one position at a time, until nothing is queued.
pub struct WFCResolver<T: IdentifiableTile> {
    wfc_grid: GridMap2D<WFCGenTile>,
    adjacency_rules: AdjacencyRules<T>,
    frequency_rules: FrequencyRules<T>,
    changed: Vec<GridPosition>,
}

impl<T: IdentifiableTile> WFCResolver<T> {
    /// The grid of tiles.
    pub closed spec fn grid(&self) -> GridMap2D<WFCGenTile> {
        self.wfc_grid
    }

    /// The adjacency rules followed.
    pub closed spec fn rules(&self) -> AdjacencyRules<T> {
        self.adjacency_rules
    }

    /// Weights of the options.
    pub closed spec fn weights(&self) -> Map<u64, u32> {
        self.frequency_rules.weights()
    }

    /// Positions whose options changed, waiting to propagate the change, in order.
    pub closed spec fn spec_changed(&self) -> Seq<GridPosition> {
        self.changed@
    }

    /// Resolver of a grid of `size` without tiles, with the rules and frequencies of `analyzer`.
    pub fn new<A: AdjacencyAnalyzer<T>>(size: GridSize, analyzer: &A) -> (r: Self)
        requires
            size.x * size.y <= usize::MAX,
        ensures
            r.grid().spec_size() == size,
            forall|p: GridPosition| #[trigger] tile_at(r.grid(), p) is None,
            forall|a: u64, d: GridDir, c: u64| #[trigger] r.rules().allows(a, d, c) == analyzer.rules().allows(a, d, c),
            r.weights() == analyzer.spec_frequency().weights(),
            r.spec_changed() == Seq::<GridPosition>::empty(),
    {
        let adjacency_rules = analyzer.adjacency().clone();
        let frequency_rules = analyzer.frequency().clone();
        Self { wfc_grid: GridMap2D::new(size), adjacency_rules, frequency_rules, changed: Vec::new() }
    }

    /// The grid of tiles.
    pub fn wfc_grid(&self) -> (g: &GridMap2D<WFCGenTile>)
        ensures
            *g == self.grid(),
    {
        &self.wfc_grid
    }

    /// Places at each of `positions` within the grid a tile not collapsed, which can become any option of the
    /// frequencies with its weight; a later position with the same coordinates replaces an earlier one.
    pub fn populate_map(&mut self, positions: &[GridPosition])
        ensures
            final(self).grid().spec_size() == old(self).grid().spec_size(),
            forall|p: GridPosition| #[trigger]
                covers(positions@, old(self).grid().spec_size(), p) ==> fresh_tile_at(final(self).grid(), p, old(self).weights()),
            forall|p: GridPosition|
                !#[trigger] covers(positions@, old(self).grid().spec_size(), p) ==> tile_at(final(self).grid(), p) == tile_at(old(self).grid(), p),
            final(self).rules() == old(self).rules(),
            final(self).weights() == old(self).weights(),
            final(self).spec_changed() == old(self).spec_changed(),
    {
        let weights = self.frequency_rules.get_all_weights_cloned();
        let ghost size = self.wfc_grid.spec_size();
        let mut i: usize = 0;
        while i < positions.len()
            invariant
                i <= positions@.len(),
                size == old(self).grid().spec_size(),
                self.wfc_grid.spec_size() == size,
                self.adjacency_rules == old(self).adjacency_rules,
                self.frequency_rules == old(self).frequency_rules,
                self.changed == old(self).changed,
                weights@ == old(self).weights(),
                forall|p: GridPosition| #[trigger]
                    covers(positions@.take(i as int), size, p) ==> fresh_tile_at(self.wfc_grid, p, old(self).weights()),
                forall|p: GridPosition|
                    !#[trigger] covers(positions@.take(i as int), size, p) ==> tile_at(self.wfc_grid, p) == tile_at(old(self).grid(), p),
            decreases positions@.len() - i,
        {
            let position = positions[i];
            let tile = WFCGenTile::uncollapsed(position, crate::gen::collapse::tile::copy_weights(&weights));
            let ghost before = self.wfc_grid;
            self.wfc_grid.insert_data(&position, tile);
            proof {
                assert(positions@.take(i + 1) =~= positions@.take(i as int).push(position));
                assert forall|p: GridPosition|
                    #[trigger] covers(positions@.take(i + 1), size, p) <==> covers(positions@.take(i as int), size, p) || (
                    position.x == p.x && position.y == p.y && spec_position_valid(size, position)) by {
                    if covers(positions@.take(i + 1), size, p) {
                        let j = choose|j: int|
                            0 <= j < positions@.take(i + 1).len() && #[trigger] positions@.take(i + 1)[j].x == p.x
                                && positions@.take(i + 1)[j].y == p.y && spec_position_valid(size, positions@.take(i + 1)[j]);
                        if j < i {
                            assert(positions@.take(i as int)[j] == positions@.take(i + 1)[j]);
                        }
                    }
                    if covers(positions@.take(i as int), size, p) {
                        let j = choose|j: int|
                            0 <= j < positions@.take(i as int).len() && #[trigger] positions@.take(i as int)[j].x == p.x
                                && positions@.take(i as int)[j].y == p.y && spec_position_valid(size, positions@.take(i as int)[j]);
                        assert(positions@.take(i + 1)[j] == positions@.take(i as int)[j]);
                    }
                    if position.x == p.x && position.y == p.y && spec_position_valid(size, position) {
                        assert(positions@.take(i + 1)[i as int] == position);
                    }
                }
                assert forall|p: GridPosition| #[trigger] covers(positions@.take(i + 1), size, p) implies fresh_tile_at(
                    self.wfc_grid,
                    p,
                    old(self).weights(),
                ) by {
                    if !(position.x == p.x && position.y == p.y && spec_position_valid(size, position)) {
                        assert(tile_at(self.wfc_grid, p) == tile_at(before, p));
                    }
                }
            }
            i = i + 1;
        }
        proof {
            assert(positions@.take(i as int) =~= positions@);
        }
    }

    /// Places at each position of the grid a tile not collapsed, which can become any option of the frequencies
    /// with its weight.
    pub fn populate_map_all(&mut self)
        ensures
            final(self).grid().spec_size() == old(self).grid().spec_size(),
            forall|p: GridPosition| #[trigger]
                possible_coordinates(old(self).grid().spec_size(), p) ==> fresh_tile_at(final(self).grid(), p, old(self).weights()),
            forall|p: GridPosition|
                !#[trigger] possible_coordinates(old(self).grid().spec_size(), p) ==> tile_at(final(self).grid(), p) == tile_at(old(self).grid(), p),
            final(self).rules() == old(self).rules(),
            final(self).weights() == old(self).weights(),
            final(self).spec_changed() == old(self).spec_changed(),
    {
        let size = *self.wfc_grid.size();
        let all_positions = size.get_all_possible_positions();
        self.populate_map(all_positions.as_slice());
        proof {
            assert forall|p: GridPosition| #[trigger] possible_coordinates(size, p) <==> covers(all_positions@, size, p) by {
                if possible_coordinates(size, p) {
                    let q = choose|q: GridPosition| crate::map::spec_possible_position(size, q) && #[trigger] q.x == p.x && q.y == p.y;
                    assert(all_positions@.contains(q));
                    let i = all_positions@.index_of(q);
                    assert(all_positions@[i].x == p.x);
                }
                if covers(all_positions@, size, p) {
                    let i = choose|i: int|
                        0 <= i < all_positions@.len() && #[trigger] all_positions@[i].x == p.x && all_positions@[i].y == p.y
                            && spec_position_valid(size, all_positions@[i]);
                    assert(all_positions@.contains(all_positions@[i]));
                    assert(all_positions@[i].x == p.x);
                }
            }
        }
    }

    /// Number of the tiles collapsed.
    pub fn n_resolved(&self) -> (n: usize)
        ensures
            exists|s: Seq<GridPosition>|
                listing_of(s, |p: GridPosition| occupied(self.grid(), p)) && n == #[trigger] count_tiles(self.grid(), s, true),
    {
        let tiles = self.wfc_grid.iter_tiles();
        let ghost s = tiles@.map_values(|t: crate::tile::GridTileRef<'_, WFCGenTile>| t.spec_grid_position());
        let mut n: usize = 0;
        let mut k: usize = 0;
        while k < tiles.len()
            invariant
                k <= tiles@.len(),
                s == tiles@.map_values(|t: crate::tile::GridTileRef<'_, WFCGenTile>| t.spec_grid_position()),
                listing_of(s, |p: GridPosition| occupied(self.wfc_grid, p)),
                forall|i: int| 0 <= i < tiles@.len() ==> Some(#[trigger] tiles@[i].spec_data()) == tile_at(self.wfc_grid, tiles@[i].spec_grid_position()),
                n == count_tiles(self.wfc_grid, s.take(k as int), true),
                n <= k,
            decreases tiles@.len() - k,
        {
            proof {
                assert(s.take(k + 1).drop_last() =~= s.take(k as int));
                assert(s.take(k + 1).last() == tiles@[k as int].spec_grid_position());
            }
            if tiles[k].inner().collapsed() {
                n = n + 1;
            }
            k = k + 1;
        }
        proof {
            assert(s.take(k as int) =~= s);
            assert(n == count_tiles(self.grid(), s, true));
        }
        n
    }

    /// Number of the tiles not collapsed which still have options.
    pub fn n_with_opts(&self) -> (n: usize)
        ensures
            exists|s: Seq<GridPosition>|
                listing_of(s, |p: GridPosition| occupied(self.grid(), p)) && n == #[trigger] count_tiles(self.grid(), s, false),
    {
        let tiles = self.wfc_grid.iter_tiles();
        let ghost s = tiles@.map_values(|t: crate::tile::GridTileRef<'_, WFCGenTile>| t.spec_grid_position());
        let mut n: usize = 0;
        let mut k: usize = 0;
        while k < tiles.len()
            invariant
                k <= tiles@.len(),
                s == tiles@.map_values(|t: crate::tile::GridTileRef<'_, WFCGenTile>| t.spec_grid_position()),
                listing_of(s, |p: GridPosition| occupied(self.wfc_grid, p)),
                forall|i: int| 0 <= i < tiles@.len() ==> Some(#[trigger] tiles@[i].spec_data()) == tile_at(self.wfc_grid, tiles@[i].spec_grid_position()),
                n == count_tiles(self.wfc_grid, s.take(k as int), false),
                n <= k,
            decreases tiles@.len() - k,
        {
            proof {
                assert(s.take(k + 1).drop_last() =~= s.take(k as int));
                assert(s.take(k + 1).last() == tiles@[k as int].spec_grid_position());
            }
            let t = tiles[k].inner();
            if !t.collapsed() && !t.options_with_weights().is_empty() {
                n = n + 1;
            }
            k = k + 1;
        }
        proof {
            assert(s.take(k as int) =~= s);
            assert(n == count_tiles(self.grid(), s, false));
        }
        n
    }

    /// Number of the positions of the grid.
    pub fn n_all(&self) -> (n: usize)
        requires
            self.grid().spec_size().x * self.grid().spec_size().y <= u32::MAX,
        ensures
            n == self.grid().spec_size().x * self.grid().spec_size().y,
    {
        let size = self.wfc_grid.size();
        (size.x() * size.y()) as usize
    }

    /// Grid map of the tiles collapsed, each created by `builder` at its position from the option it collapsed
    /// into.
    pub fn build_grid<B: IdentTileBuilder<T>>(&self, builder: &B) -> (map: GridMap2D<T>)
        requires
            forall|p: GridPosition| #[trigger] tile_at(self.grid(), p) is Some && tile_at(self.grid(), p)->0.is_collapsed() ==> builder.can_create(tile_at(self.grid(), p)->0.spec_tile_id()),
        ensures
            map.spec_size() == self.grid().spec_size(),
            forall|p: GridPosition|
                #[trigger] tile_at(map, p) is Some <==> (tile_at(self.grid(), p) is Some && tile_at(self.grid(), p)->0.is_collapsed()),
            forall|p: GridPosition|
                #[trigger] tile_at(map, p) is Some ==> builder.creates(
                    tile_at(self.grid(), p)->0.spec_grid_position(),
                    tile_at(self.grid(), p)->0.spec_tile_id(),
                    tile_at(map, p)->0,
                ),
    {
        let size = *self.wfc_grid.size();
        let mut map: GridMap2D<T> = GridMap2D::new(size);
        let tiles = self.wfc_grid.iter_tiles();
        let mut k: usize = 0;
        while k < tiles.len()
            invariant
                k <= tiles@.len(),
                size == self.wfc_grid.spec_size(),
                map.spec_size() == size,
                listing_of(
                    tiles@.map_values(|t: crate::tile::GridTileRef<'_, WFCGenTile>| t.spec_grid_position()),
                    |p: GridPosition| occupied(self.wfc_grid, p),
                ),
                forall|i: int| 0 <= i < tiles@.len() ==> Some(#[trigger] tiles@[i].spec_data()) == tile_at(self.wfc_grid, tiles@[i].spec_grid_position()),
                forall|p: GridPosition| #[trigger] tile_at(self.wfc_grid, p) is Some && tile_at(self.wfc_grid, p)->0.is_collapsed() ==> builder.can_create(tile_at(self.wfc_grid, p)->0.spec_tile_id()),
                forall|p: GridPosition|
                    #[trigger] tile_at(map, p) is Some <==> (tile_at(self.wfc_grid, p) is Some && tile_at(self.wfc_grid, p)->0.is_collapsed()
                        && exists|i: int| 0 <= i < k && tiles@[i].spec_grid_position().x == p.x && #[trigger] tiles@[i].spec_grid_position().y == p.y),
                forall|p: GridPosition|
                    #[trigger] tile_at(map, p) is Some ==> builder.creates(
                        tile_at(self.wfc_grid, p)->0.spec_grid_position(),
                        tile_at(self.wfc_grid, p)->0.spec_tile_id(),
                        tile_at(map, p)->0,
                    ),
            decreases tiles@.len() - k,
        {
            let cell = tiles[k].grid_position();
            let wfc_tile = tiles[k].inner();
            let ghost before = map;
            proof {
                let ss = tiles@.map_values(|t: crate::tile::GridTileRef<'_, WFCGenTile>| t.spec_grid_position());
                assert(ss[k as int] == cell);
                assert(ss.contains(cell));
                assert(occupied(self.wfc_grid, cell));
            }
            if wfc_tile.collapsed() {
                let created = builder.create_identifiable_tile(wfc_tile.grid_position(), wfc_tile.tile_id());
                map.insert_data(&cell, created);
            }
            proof {
                assert forall|p: GridPosition|
                    #[trigger] tile_at(map, p) is Some <==> (tile_at(self.wfc_grid, p) is Some && tile_at(self.wfc_grid, p)->0.is_collapsed()
                        && exists|i: int| 0 <= i < k + 1 && tiles@[i].spec_grid_position().x == p.x && #[trigger] tiles@[i].spec_grid_position().y == p.y) by {
                    if p.x == cell.x && p.y == cell.y {
                        assert(tile_at(self.wfc_grid, p) == tile_at(self.wfc_grid, cell));
                        assert(tiles@[k as int].spec_grid_position().y == p.y);
                    } else {
                        assert(tile_at(map, p) == tile_at(before, p));
                        if exists|i: int| 0 <= i < k + 1 && tiles@[i].spec_grid_position().x == p.x && #[trigger] tiles@[i].spec_grid_position().y == p.y {
                            let i = choose|i: int| 0 <= i < k + 1 && tiles@[i].spec_grid_position().x == p.x && #[trigger] tiles@[i].spec_grid_position().y == p.y;
                            assert(i < k);
                        }
                    }
                }
                assert forall|p: GridPosition|
                    #[trigger] tile_at(map, p) is Some implies builder.creates(
                        tile_at(self.wfc_grid, p)->0.spec_grid_position(),
                        tile_at(self.wfc_grid, p)->0.spec_tile_id(),
                        tile_at(map, p)->0,
                    ) by {
                    if p.x == cell.x && p.y == cell.y {
                        assert(tile_at(self.wfc_grid, p) == tile_at(self.wfc_grid, cell));
                    } else {
                        assert(tile_at(map, p) == tile_at(before, p));
                    }
                }
            }
            k = k + 1;
        }
        proof {
            let ss = tiles@.map_values(|t: crate::tile::GridTileRef<'_, WFCGenTile>| t.spec_grid_position());
            assert forall|p: GridPosition|
                #[trigger] tile_at(map, p) is Some <==> (tile_at(self.wfc_grid, p) is Some && tile_at(self.wfc_grid, p)->0.is_collapsed()) by {
                if tile_at(self.wfc_grid, p) is Some {
                    let q = GridPosition { x: p.x, y: p.y, z: None };
                    crate::map::lemma_tile_at_valid(self.wfc_grid, p);
                    assert(tile_at(self.wfc_grid, q) == tile_at(self.wfc_grid, p));
                    assert(occupied(self.wfc_grid, q));
                    assert(ss.contains(q));
                    let i = ss.index_of(q);
                    assert(tiles@[i].spec_grid_position().y == p.y);
                }
            }
        }
        map
    }

    /// `after` is `self` with the tile at `pos` collapsed at random, if it is there, not collapsed and has options
    /// (see [`random_collapse`]), and then `pos` queued unless it is queued already; otherwise `after` is `self`.
    pub open spec fn collapse_step(self, after: Self, pos: GridPosition) -> bool {
        let collapses = (tile_at(self.grid(), pos) matches Some(t) && !t.is_collapsed() && t.options().dom().len() > 0);
        &&& collapses ==> tile_at(after.grid(), pos) is Some && random_collapse(
            tile_at(self.grid(), pos)->0,
            tile_at(after.grid(), pos)->0,
        )
        &&& !collapses ==> forall|q: GridPosition| #[trigger] tile_at(after.grid(), q) == tile_at(self.grid(), q)
        &&& after.grid().spec_size() == self.grid().spec_size()
        &&& after.grid().same_except(&self.grid(), pos.x as int, pos.y as int)
        &&& after.spec_changed() == if collapses {
            enqueue_new(self.spec_changed(), seq![pos])
        } else {
            self.spec_changed()
        }
        &&& after.rules() == self.rules()
        &&& after.weights() == self.weights()
    }

    /// Collapses the tile at `pos` at random (see [`WFCGenTile::collapse`]); if it collapsed, queues `pos` for
    /// propagation unless it is queued already. Says whether it collapsed.
    pub fn collapse_position(&mut self, rng: &mut StdRng, pos: &GridPosition) -> (r: bool)
        ensures
            r == (tile_at(old(self).grid(), *pos) matches Some(t) && !t.is_collapsed() && t.options().dom().len() > 0),
            old(self).collapse_step(*final(self), *pos),
    {
        let ghost g = self.wfc_grid;
        let collapsed = match self.wfc_grid.get_mut_tile_at_position(pos) {
            Some(tile) => tile.data.collapse(rng),
            None => false,
        };
        proof {
            if !collapsed {
                assert forall|q: GridPosition| #[trigger] tile_at(self.wfc_grid, q) == tile_at(g, q) by {
                    if q.x == pos.x && q.y == pos.y {
                        assert(tile_at(self.wfc_grid, q) == tile_at(self.wfc_grid, *pos));
                        assert(tile_at(g, q) == tile_at(g, *pos));
                    }
                }
            }
            reveal_with_fuel(enqueue_new, 2);
            assert(seq![*pos].drop_last() =~= Seq::<GridPosition>::empty());
            assert(seq![*pos].last() == *pos);
        }
        if collapsed && !contains_position(&self.changed, pos) {
            self.changed.push(*pos);
        }
        collapsed
    }

    /// Removes from the neighbours of `pos` (if it holds a tile) the options not surviving propagation from `pos`
    /// (see [`propagation_keeps`]), queueing each neighbour that lost options unless it is queued already; returns
    /// those neighbours, in the order of [`GridDir::ALL_2D`].
    fn propagate(&mut self, pos: GridPosition) -> (updated: Vec<GridPosition>)
        ensures
            final(self).grid().spec_size() == old(self).grid().spec_size(),
            final(self).rules() == old(self).rules(),
            final(self).weights() == old(self).weights(),
            tile_at(old(self).grid(), pos) is None ==> updated@ == Seq::<GridPosition>::empty() && final(self).grid() == old(self).grid(),
            tile_at(old(self).grid(), pos) is Some ==> updated@ == narrowed_neighbours(old(self).grid(), old(self).rules(), pos, 4),
            final(self).spec_changed() == enqueue_new(old(self).spec_changed(), updated@),
            tile_at(final(self).grid(), pos) == tile_at(old(self).grid(), pos),
            forall|q: GridPosition|
                !#[trigger] is_processed_neighbour(pos, old(self).grid().spec_size(), q, 4) ==> tile_at(final(self).grid(), q)
                    == tile_at(old(self).grid(), q),
            forall|q: GridPosition| #[trigger] tile_at(old(self).grid(), q) is None ==> tile_at(final(self).grid(), q) is None,
            tile_at(old(self).grid(), pos) is Some ==> forall|d: GridDir|
                #![trigger neighbour_position(old(self).grid(), pos, d)]
                neighbour_position(old(self).grid(), pos, d) matches Some(q) ==> tile_at(final(self).grid(), q) is Some
                    && narrowed_by(
                    tile_at(old(self).grid(), q)->0,
                    tile_at(final(self).grid(), q)->0,
                    old(self).grid(),
                    old(self).rules(),
                    pos,
                    d,
                ),
    {
        let ghost g = self.wfc_grid;
        let mut updated: Vec<GridPosition> = Vec::new();
        let tile = match self.wfc_grid.get_tile_at_position(&pos) {
            Some(t) => t,
            None => {
                proof {
                    assert(updated@ =~= Seq::<GridPosition>::empty());
                }
                return updated;
            },
        };
        let collapsed = tile.inner().collapsed();
        let tile_id = tile.inner().tile_id();
        let tile_options = tile.inner().options_with_weights().keys();
        proof {
            crate::map::lemma_tile_at_valid(g, pos);
        }
        let ghost start_changed = self.changed@;
        let mut k: usize = 0;
        while k < 4
            invariant
                k <= 4,
                g == old(self).wfc_grid,
                tile_at(g, pos) is Some,
                spec_position_valid(g.spec_size(), pos),
                collapsed == tile_at(g, pos)->0.is_collapsed(),
                tile_id == tile_at(g, pos)->0.spec_tile_id(),
                tile_options@ == tile_at(g, pos)->0.option_ids(),
                self.wfc_grid.spec_size() == g.spec_size(),
                self.adjacency_rules == old(self).adjacency_rules,
                self.frequency_rules == old(self).frequency_rules,
                start_changed == old(self).changed@,
                updated@ == narrowed_neighbours(g, self.adjacency_rules, pos, k as int),
                self.changed@ == enqueue_new(start_changed, updated@),
                tile_at(self.wfc_grid, pos) == tile_at(g, pos),
                forall|q: GridPosition|
                    !#[trigger] is_processed_neighbour(pos, g.spec_size(), q, k as int) ==> tile_at(self.wfc_grid, q) == tile_at(g, q),
                forall|q: GridPosition| #[trigger] tile_at(g, q) is None ==> tile_at(self.wfc_grid, q) is None,
                forall|d: GridDir|
                    #![trigger neighbour_position(g, pos, d)]
                    dir_index(d) < k && neighbour_position(g, pos, d) is Some ==> tile_at(self.wfc_grid, neighbour_position(g, pos, d)->0) is Some
                        && narrowed_by(
                        tile_at(g, neighbour_position(g, pos, d)->0)->0,
                        tile_at(self.wfc_grid, neighbour_position(g, pos, d)->0)->0,
                        g,
                        self.adjacency_rules,
                        pos,
                        d,
                    ),
            decreases 4 - k,
        {
            let dir = GridDir::from_index(k);
            let opposite = dir.opposite();
            let ghost cur = self.wfc_grid;
            let ghost nq = spec_march(dir, pos, g.spec_size());
            let ghost updated_before = updated@;
            proof {
                if nq is Some {
                    assert(!is_processed_neighbour(pos, g.spec_size(), nq->0, k as int)) by {
                        if is_processed_neighbour(pos, g.spec_size(), nq->0, k as int) {
                            let d = choose|d: GridDir| dir_index(d) < k && #[trigger] march_hits(d, pos, g.spec_size(), nq->0);
                            assert(d != dir);
                        }
                    }
                    assert(tile_at(cur, nq->0) == tile_at(g, nq->0));
                }
                assert(neighbour_position(cur, pos, dir) == neighbour_position(g, pos, dir));
            }
            match self.wfc_grid.get_mut_neighbour_at(&pos, &dir) {
                Some(neighbour) => {
                    let npos = neighbour.grid_position();
                    let narrowed = if collapsed {
                        neighbour.data.resolve_options_neighbour_collapsed(&self.adjacency_rules, opposite, tile_id)
                    } else {
                        neighbour.data.resolve_options_neighbour_uncollapsed(&self.adjacency_rules, opposite, tile_options.as_slice())
                    };
                    if narrowed {
                        updated.push(npos);
                        if !contains_position(&self.changed, &npos) {
                            self.changed.push(npos);
                        }
                    }
                },
                None => {},
            }
            k = k + 1;
            proof {
                assert forall|q: GridPosition| #[trigger] tile_at(g, q) is None implies tile_at(self.wfc_grid, q) is None by {
                    assert(tile_at(cur, q) is None);
                    if nq is Some && nq->0.x == q.x && nq->0.y == q.y {
                        assert(tile_at(cur, nq->0) == tile_at(cur, q));
                    }
                }
                assert(updated_before.push(neighbour_position(g, pos, dir)->0).drop_last() =~= updated_before);
                assert(updated_before.push(neighbour_position(g, pos, dir)->0).last() == neighbour_position(g, pos, dir)->0);
                assert forall|q: GridPosition|
                    !#[trigger] is_processed_neighbour(pos, g.spec_size(), q, k as int) implies tile_at(self.wfc_grid, q) == tile_at(g, q) by {
                    assert(!is_processed_neighbour(pos, g.spec_size(), q, k - 1));
                    if nq is Some && nq->0.x == q.x && nq->0.y == q.y {
                        assert(march_hits(dir, pos, g.spec_size(), q));
                        assert(is_processed_neighbour(pos, g.spec_size(), q, k as int));
                    }
                }
                assert forall|d: GridDir|
                    #![trigger neighbour_position(g, pos, d)]
                    dir_index(d) < k && neighbour_position(g, pos, d) is Some implies tile_at(self.wfc_grid, neighbour_position(g, pos, d)->0) is Some
                        && narrowed_by(
                        tile_at(g, neighbour_position(g, pos, d)->0)->0,
                        tile_at(self.wfc_grid, neighbour_position(g, pos, d)->0)->0,
                        g,
                        self.adjacency_rules,
                        pos,
                        d,
                    ) by {
                    if d != dir {
                        let q = neighbour_position(g, pos, d)->0;
                        if nq is Some {
                            assert(nq->0.x != q.x || nq->0.y != q.y);
                        }
                        assert(tile_at(self.wfc_grid, q) == tile_at(cur, q));
                    }
                }
            }
        }
        updated
    }

    /// A propagation step leaves no tile with more options, and either leaves fewer options in the grid (when some
    /// neighbour lost options) or shortens the queue.
    proof fn lemma_step_progress(before: Self, after: Self, updated: Seq<GridPosition>)
        requires
            before.propagation_step(after, updated),
        ensures
            options_left(after.grid()) <= options_left(before.grid()),
            updated.len() > 0 ==> options_left(after.grid()) < options_left(before.grid()),
            updated.len() == 0 ==> after.spec_changed().len() < before.spec_changed().len(),
    {
        let pos = before.spec_changed()[0];
        let g = before.grid();
        let g2 = after.grid();
        let rules = before.rules();
        assert forall|p: GridPosition| #[trigger] option_count(tile_at(g2, p)) <= option_count(tile_at(g, p)) by {
            if tile_at(g, pos) is Some && is_processed_neighbour(pos, g.spec_size(), p, 4) {
                let d = choose|d: GridDir| dir_index(d) < 4 && #[trigger] march_hits(d, pos, g.spec_size(), p);
                let q = spec_march(d, pos, g.spec_size())->0;
                assert(tile_at(g, q) == tile_at(g, p));
                assert(tile_at(g2, q) == tile_at(g2, p));
                if tile_at(g, q) is Some {
                    assert(neighbour_position(g, pos, d) == Some(q));
                    let t = tile_at(g, q)->0;
                    let t2 = tile_at(g2, q)->0;
                    t.options_with_weights.lemma_dom_finite();
                    assert(t2.options().dom().subset_of(t.options().dom()));
                    vstd::set_lib::lemma_len_subset(t2.options().dom(), t.options().dom());
                }
            }
        }
        lemma_options_shrink(g, g2);
        if updated.len() > 0 {
            reveal_with_fuel(narrowed_neighbours, 5);
            let d = if propagation_narrows(g, rules, pos, GridDir::UP) {
                GridDir::UP
            } else if propagation_narrows(g, rules, pos, GridDir::DOWN) {
                GridDir::DOWN
            } else if propagation_narrows(g, rules, pos, GridDir::LEFT) {
                GridDir::LEFT
            } else {
                GridDir::RIGHT
            };
            assert(propagation_narrows(g, rules, pos, d));
            let q = neighbour_position(g, pos, d)->0;
            let t = tile_at(g, q)->0;
            let t2 = tile_at(g2, q)->0;
            let o = choose|o: u64| #[trigger] t.options().contains_key(o) && !propagation_keeps(g, rules, pos, d, o);
            t.options_with_weights.lemma_dom_finite();
            assert(t2.options().dom().subset_of(t.options().dom().remove(o)));
            vstd::set_lib::lemma_len_subset(t2.options().dom(), t.options().dom().remove(o));
            vstd::set::axiom_set_remove_len(t.options().dom(), o);
            assert(option_count(tile_at(g2, q)) < option_count(tile_at(g, q)));
        } else {
            assert(enqueue_new(before.spec_changed().drop_first(), updated) == before.spec_changed().drop_first());
        }
    }

    /// `after` is the resolver after propagating the change of the first position queued in `self` (see
    /// [`WFCResolver::propagate_next`]), `updated` the neighbours of that position which lost options.
    pub open spec fn propagation_step(self, after: Self, updated: Seq<GridPosition>) -> bool {
        &&& self.spec_changed().len() > 0
        &&& {
            let pos = self.spec_changed()[0];
            let g = self.grid();
            &&& after.grid().spec_size() == g.spec_size()
            &&& after.rules() == self.rules()
            &&& after.weights() == self.weights()
            &&& tile_at(g, pos) is None ==> updated == Seq::<GridPosition>::empty() && after.grid() == g
            &&& tile_at(g, pos) is Some ==> updated == narrowed_neighbours(g, self.rules(), pos, 4)
            &&& after.spec_changed() == enqueue_new(self.spec_changed().drop_first(), updated)
            &&& forall|q: GridPosition|
                !#[trigger] is_processed_neighbour(pos, g.spec_size(), q, 4) ==> tile_at(after.grid(), q) == tile_at(g, q)
            &&& forall|q: GridPosition| #[trigger] tile_at(g, q) is None ==> tile_at(after.grid(), q) is None
            &&& tile_at(g, pos) is Some ==> forall|d: GridDir|
                #![trigger neighbour_position(g, pos, d)]
                neighbour_position(g, pos, d) matches Some(q) ==> tile_at(after.grid(), q) is Some && narrowed_by(
                    tile_at(g, q)->0,
                    tile_at(after.grid(), q)->0,
                    g,
                    self.rules(),
                    pos,
                    d,
                )
        }
    }

    /// Propagates the change of the first position queued (see [`WFCResolver::propagate`]): `None` when nothing
    /// is queued, else the neighbours of that position which lost options (queued in turn).
    pub fn propagate_next(&mut self) -> (r: Option<Vec<GridPosition>>)
        ensures
            r is None <==> old(self).spec_changed().len() == 0,
            r is None ==> *final(self) == *old(self),
            r matches Some(updated) ==> old(self).propagation_step(*final(self), updated@),
    {
        if self.changed.len() == 0 {
            return None;
        }
        let pos = self.changed.remove(0);
        proof {
            assert(self.changed@ =~= old(self).changed@.drop_first());
        }
        let updated = self.propagate(pos);
        Some(updated)
    }

    /// `states` are resolvers each following from the one before by a propagation step, `lists` the neighbours
    /// that lost options in each step.
    pub open spec fn is_trace(states: Seq<Self>, lists: Seq<Seq<GridPosition>>) -> bool {
        &&& states.len() == lists.len() + 1
        &&& forall|i: int| 0 <= i < lists.len() ==> states[i].propagation_step(states[i + 1], #[trigger] lists[i])
    }

    /// `after` follows from `self` by propagation steps until nothing is queued; `updated` lists, step after step,
    /// the neighbours that lost options.
    pub open spec fn propagated(self, after: Self, updated: Seq<GridPosition>) -> bool {
        &&& after.spec_changed().len() == 0
        &&& exists|states: Seq<Self>, lists: Seq<Seq<GridPosition>>|
            #[trigger] Self::is_trace(states, lists) && states[0] == self && states.last() == after && concat_all(lists)
                == updated
    }

    /// A propagation step only narrows the grid.
    proof fn lemma_step_narrower(before: Self, after: Self, updated: Seq<GridPosition>)
        requires
            before.propagation_step(after, updated),
        ensures
            narrower(before.grid(), after.grid()),
    {
        let pos = before.spec_changed()[0];
        let g = before.grid();
        let g2 = after.grid();
        assert forall|p: GridPosition| #[trigger] tile_at(g2, p) is Some implies ({
            let t = tile_at(g, p)->0;
            let u = tile_at(g2, p)->0;
            &&& tile_at(g, p) is Some
            &&& u.same_but_options(&t)
            &&& forall|o: u64| #[trigger] u.options().contains_key(o) ==> t.options().contains_key(o) && u.options()[o]
                == t.options()[o]
        }) by {
            if tile_at(g, pos) is Some && is_processed_neighbour(pos, g.spec_size(), p, 4) {
                let d = choose|d: GridDir| dir_index(d) < 4 && #[trigger] march_hits(d, pos, g.spec_size(), p);
                let q = spec_march(d, pos, g.spec_size())->0;
                assert(tile_at(g, q) == tile_at(g, p));
                assert(tile_at(g2, q) == tile_at(g2, p));
                assert(neighbour_position(g, pos, d) == Some(q));
            }
        }
    }

    /// The states of a trace only narrow the grid of the first.
    proof fn lemma_trace_narrower(states: Seq<Self>, lists: Seq<Seq<GridPosition>>, i: int)
        requires
            Self::is_trace(states, lists),
            0 <= i < states.len(),
        ensures
            narrower(states[0].grid(), states[i].grid()),
        decreases i,
    {
        if i > 0 {
            Self::lemma_trace_narrower(states, lists, i - 1);
            Self::lemma_step_narrower(states[i - 1], states[i], lists[i - 1]);
            let a = states[0].grid();
            let b = states[i - 1].grid();
            let c = states[i].grid();
            assert forall|p: GridPosition| #[trigger] tile_at(c, p) is Some implies ({
                let t = tile_at(a, p)->0;
                let u = tile_at(c, p)->0;
                &&& tile_at(a, p) is Some
                &&& u.same_but_options(&t)
                &&& forall|o: u64| #[trigger] u.options().contains_key(o) ==> t.options().contains_key(o) && u.options()[o]
                    == t.options()[o]
            }) by {
                assert(tile_at(b, p) is Some);
                let t = tile_at(a, p)->0;
                let m = tile_at(b, p)->0;
                let u = tile_at(c, p)->0;
                assert forall|o: u64| #[trigger] u.options().contains_key(o) implies t.options().contains_key(o)
                    && u.options()[o] == t.options()[o] by {
                    assert(m.options().contains_key(o));
                }
            }
        }
    }

    /// Propagation only narrows options: after it, every tile is the tile that was at its place before, in the same
    /// state, left with some of its options, weighted as before.
    pub proof fn lemma_propagation_narrows(self, after: Self, updated: Seq<GridPosition>)
        requires
            self.propagated(after, updated),
        ensures
            narrower(self.grid(), after.grid()),
    {
        let (states, lists) = choose|states: Seq<Self>, lists: Seq<Seq<GridPosition>>|
            #[trigger] Self::is_trace(states, lists) && states[0] == self && states.last() == after && concat_all(lists)
                == updated;
        Self::lemma_trace_narrower(states, lists, states.len() - 1);
    }

    /// Collapses the tile at `next`, the position picked by the caller (by the entropy of the tiles), if there is
    /// one (see [`collapse_position`](Self::collapse_position)), then propagates the changes until nothing is
    /// queued. Says whether a position was given, and lists, step after step, the neighbours that lost options.
    pub fn process(&mut self, rng: &mut StdRng, next: Option<GridPosition>) -> (r: (bool, Vec<GridPosition>))
        ensures
            r.0 == next is Some,
            exists|mid: Self|
                #[trigger] mid.propagated(*final(self), r.1@) && match next {
                    Some(pos) => old(self).collapse_step(mid, pos),
                    None => mid == *old(self),
                },
    {
        let ghost start = *self;
        let can_continue = match next {
            Some(pos) => {
                self.collapse_position(rng, &pos);
                true
            },
            None => false,
        };
        let ghost mid = *self;
        proof {
            assert(match next {
                Some(pos) => start.collapse_step(mid, pos),
                None => mid == start,
            });
        }
        let mut updated_all: Vec<GridPosition> = Vec::new();
        let ghost mut states: Seq<Self> = seq![mid];
        let ghost mut lists: Seq<Seq<GridPosition>> = Seq::empty();
        proof {
            assert(Self::is_trace(states, lists));
        }
        while self.changed.len() > 0
            invariant
                Self::is_trace(states, lists),
                states[0] == mid,
                states.last() == *self,
                concat_all(lists) == updated_all@,
            decreases options_left(self.wfc_grid), self.changed@.len(),
        {
            let ghost before = *self;
            let mut updated = self.propagate_next().unwrap();
            proof {
                Self::lemma_step_progress(before, *self, updated@);
                let new_states = states.push(*self);
                let new_lists = lists.push(updated@);
                assert(new_lists.drop_last() =~= lists);
                assert forall|i: int| 0 <= i < new_lists.len() implies new_states[i].propagation_step(
                    new_states[i + 1],
                    #[trigger] new_lists[i],
                ) by {
                    if i < lists.len() {
                        assert(new_states[i] == states[i]);
                        assert(new_states[i + 1] == states[i + 1]);
                        assert(new_lists[i] == lists[i]);
                    }
                }
                states = new_states;
                lists = new_lists;
            }
            updated_all.append(&mut updated);
        }
        proof {
            assert(Self::is_trace(states, lists));
            assert(mid.propagated(*self, updated_all@));
        }
        let r = (can_continue, updated_all);
        proof {
            assert(mid.propagated(*self, r.1@) && match next {
                Some(pos) => old(self).collapse_step(mid, pos),
                None => mid == *old(self),
            });
        }
        r
    }
}

} // verus!
