//! Adjacency rules of tiles carrying their own position, and the analyzers deriving them from sample grid maps.
use vstd::prelude::*;

use crate::gen::collapse::border::BorderTable;
use crate::gen::collapse::AdjacencyTable;
use crate::gen::wfc::analyzer::{tile_id_at, tile_observed, tile_observed_at};
use crate::map::{
    lemma_march_round_trip, lemma_march_stays_valid, listing_of, neighbour_position, occupied, spec_opposite,
    spec_position_valid, GridDir, GridMap2D,
};
use crate::tile::identifiable::IdentifiableTile;
use crate::tile::{GridPosition, TileContainer};

verus! {

/// Some tile of `map` has identifier `t`.
pub open spec fn map_has_tile_id<T: IdentifiableTile>(map: GridMap2D<T>, t: u64) -> bool {
    exists|p: GridPosition| p.z is None && #[trigger] occupied(map, p) && tile_id_at(map, p) == t
}

/// Observations made at the first `k` positions of `positions`.
pub open spec fn tile_observed_among<T: IdentifiableTile>(
    map: GridMap2D<T>,
    positions: Seq<GridPosition>,
    k: int,
    a: u64,
    d: GridDir,
    c: u64,
) -> bool {
    exists|i: int| 0 <= i < k && #[trigger] tile_observed_at(map, positions[i], a, d, c)
}

/// Observing a tile next to another is observing the other next to the first, in the opposite direction.
pub proof fn lemma_tile_observed_symmetric<T: IdentifiableTile>(map: GridMap2D<T>, a: u64, d: GridDir, c: u64)
    requires
        tile_observed(map, a, d, c),
    ensures
        tile_observed(map, c, spec_opposite(d), a),
{
    let p = choose|p: GridPosition| #[trigger] tile_observed_at(map, p, a, d, c);
    let q = neighbour_position(map, p, d)->0;
    lemma_march_round_trip(d, p, map.spec_size());
    lemma_march_stays_valid(d, p, map.spec_size());
    assert(tile_observed_at(map, q, c, spec_opposite(d), a));
}

/// Observations over a listing of the occupied positions are all observations of the map.
proof fn lemma_listing_tile_observed<T: IdentifiableTile>(
    map: GridMap2D<T>,
    positions: Seq<GridPosition>,
    a: u64,
    d: GridDir,
    c: u64,
)
    requires
        listing_of(positions, |p: GridPosition| occupied(map, p)),
    ensures
        tile_observed(map, a, d, c) <==> tile_observed_among(map, positions, positions.len() as int, a, d, c),
{
    if tile_observed(map, a, d, c) {
        let p = choose|p: GridPosition| #[trigger] tile_observed_at(map, p, a, d, c);
        assert(positions.contains(p));
        let i = positions.index_of(p);
        assert(tile_observed_at(map, positions[i], a, d, c));
    }
}

/// Identifiers of the tiles at the first `k` positions are seen exactly when those of the whole listing are.
proof fn lemma_listing_has_id<T: IdentifiableTile>(map: GridMap2D<T>, positions: Seq<GridPosition>, t: u64)
    requires
        listing_of(positions, |p: GridPosition| occupied(map, p)),
    ensures
        map_has_tile_id(map, t) <==> exists|i: int|
            0 <= i < positions.len() && tile_id_at(map, #[trigger] positions[i]) == t,
{
    if map_has_tile_id(map, t) {
        let p = choose|p: GridPosition| p.z is None && #[trigger] occupied(map, p) && tile_id_at(map, p) == t;
        assert(positions.contains(p));
        let i = positions.index_of(p);
        assert(tile_id_at(map, positions[i]) == t);
    }
    if exists|i: int| 0 <= i < positions.len() && tile_id_at(map, #[trigger] positions[i]) == t {
        let i = choose|i: int| 0 <= i < positions.len() && tile_id_at(map, #[trigger] positions[i]) == t;
        assert(positions.contains(positions[i]));
    }
}

/// Analyzer deriving adjacency rules out of sample grid maps of tiles carrying their own position.
pub trait AdjacencyAnalyzer<T: IdentifiableTile> {
    /// Internal consistency of the analyzer.
    spec fn analyzer_wf(&self) -> bool;

    /// Rules derived so far.
    spec fn rules(&self) -> AdjacencyRules<T>;

    /// Identifiers seen so far.
    spec fn seen_tiles(&self) -> Seq<u64>;

    fn adjacency(&self) -> (r: &AdjacencyRules<T>)
        ensures
            *r == self.rules(),
    ;

    fn tiles(&self) -> (r: &[u64])
        ensures
            r@ == self.seen_tiles(),
    ;

    /// Analyzes the map: every adjacency observed in it becomes allowed, and every identifier in it becomes seen.
    fn analyze(&mut self, map: &GridMap2D<T>)
        requires
            old(self).analyzer_wf(),
        ensures
            final(self).analyzer_wf(),
            forall|a: u64, d: GridDir, c: u64|
                tile_observed(*map, a, d, c) ==> #[trigger] final(self).rules().allows(a, d, c),
            forall|t: u64| #[trigger]
                final(self).seen_tiles().contains(t) <==> old(self).seen_tiles().contains(t) || map_has_tile_id(*map, t),
            final(self).seen_tiles().no_duplicates(),
    ;
}

/// Rules telling which tiles may be placed next to each other, by tile identifier.
#[derive(Debug)]
pub struct AdjacencyRules<T: IdentifiableTile> {
    inner: AdjacencyTable,
    id_type: std::marker::PhantomData<T>,
}

impl<T: IdentifiableTile> AdjacencyRules<T> {
    /// A tile of identifier `adj` may be placed in direction `d` of a tile of identifier `el`.
    pub closed spec fn allows(&self, el: u64, d: GridDir, adj: u64) -> bool {
        self.inner.allows(el, d, adj)
    }

    /// A tile may be placed next to another exactly when the other may be placed next to it, in the opposite
    /// direction.
    pub open spec fn symmetric(&self) -> bool {
        forall|a: u64, d: GridDir, c: u64| #[trigger] self.allows(a, d, c) <==> self.allows(c, spec_opposite(d), a)
    }

    /// Rules allowing nothing.
    pub fn new() -> (r: Self)
        ensures
            forall|a: u64, d: GridDir, c: u64| !#[trigger] r.allows(a, d, c),
    {
        Self { inner: AdjacencyTable::new(), id_type: std::marker::PhantomData }
    }

    /// Allows `adjacent_tile` in `direction` of `tile`.
    fn add_adjacency(&mut self, tile: &T, adjacent_tile: &T, direction: GridDir)
        ensures
            forall|a: u64, d: GridDir, c: u64| #[trigger]
                final(self).allows(a, d, c) <==> old(self).allows(a, d, c) || (a == tile.spec_tile_id() && d
                    == direction && c == adjacent_tile.spec_tile_id()),
    {
        self.add_adjacency_raw(tile.get_tile_id(), adjacent_tile.get_tile_id(), direction)
    }

    /// Allows `adjacent_id` in `direction` of `tile_id`.
    pub fn add_adjacency_raw(&mut self, tile_id: u64, adjacent_id: u64, direction: GridDir)
        ensures
            forall|a: u64, d: GridDir, c: u64| #[trigger]
                final(self).allows(a, d, c) <==> old(self).allows(a, d, c) || (a == tile_id && d == direction && c
                    == adjacent_id),
    {
        self.inner.insert_adjacency(tile_id, direction, adjacent_id);
    }

    /// `adjacent_id` is allowed in `direction` of `tile_id`.
    pub fn is_valid_raw(&self, tile_id: u64, adjacent_id: u64, direction: GridDir) -> (r: bool)
        ensures
            r == self.allows(tile_id, direction, adjacent_id),
    {
        self.inner.check_adjacency(tile_id, direction, adjacent_id)
    }

    /// Any of `adjacent_options` is allowed in `direction` of `tile_id`.
    pub fn is_valid_raw_any(&self, tile_id: u64, adjacent_options: &[u64], direction: GridDir) -> (r: bool)
        ensures
            r == exists|i: int|
                0 <= i < adjacent_options@.len() && self.allows(tile_id, direction, #[trigger] adjacent_options@[i]),
    {
        self.inner.check_adjacency_any(tile_id, direction, adjacent_options)
    }
}

impl<T: IdentifiableTile> Clone for AdjacencyRules<T> {
    fn clone(&self) -> (r: Self)
        ensures
            forall|a: u64, d: GridDir, c: u64| #[trigger] r.allows(a, d, c) == self.allows(a, d, c),
    {
        Self { inner: self.inner.clone(), id_type: std::marker::PhantomData }
    }
}

/// Adds `t` to `tiles` unless it is there already.
fn push_unique(tiles: &mut Vec<u64>, t: u64)
    requires
        old(tiles)@.no_duplicates(),
    ensures
        final(tiles)@.no_duplicates(),
        forall|x: u64| #[trigger] final(tiles)@.contains(x) <==> old(tiles)@.contains(x) || x == t,
{
    if !crate::gen::collapse::contains_id(tiles.as_slice(), t) {
        let ghost before = tiles@;
        tiles.push(t);
        proof {
            assert forall|a: int, b: int| 0 <= a < b < tiles@.len() implies tiles@[a] != tiles@[b] by {
                if b == tiles@.len() - 1 {
                    assert(before[a] == tiles@[a]);
                }
            }
            assert forall|x: u64| #[trigger] tiles@.contains(x) <==> before.contains(x) || x == t by {
                if before.contains(x) {
                    let i = before.index_of(x);
                    assert(tiles@[i] == x);
                }
                if tiles@.contains(x) && x != t {
                    let i = tiles@.index_of(x);
                    assert(before[i] == x);
                }
                if x == t {
                    assert(tiles@[before.len() as int] == x);
                }
            }
        }
    }
}

/// Analyzer allowing exactly the adjacencies observed on the analyzed maps.
pub struct AdjacencyIdentityAnalyzer<T: IdentifiableTile> {
    tiles: Vec<u64>,
    adjacency_rules: AdjacencyRules<T>,
}

impl<T: IdentifiableTile> AdjacencyIdentityAnalyzer<T> {
    /// Analyzer that has seen nothing.
    pub fn new() -> (a: Self)
        ensures
            a.analyzer_wf(),
            a.seen_tiles() == Seq::<u64>::empty(),
            forall|x: u64, d: GridDir, c: u64| !#[trigger] a.rules().allows(x, d, c),
    {
        Self { tiles: Vec::new(), adjacency_rules: AdjacencyRules::new() }
    }

    fn analyze_tile_at_pos(&mut self, map: &GridMap2D<T>, pos: GridPosition)
        requires
            old(self).tiles@.no_duplicates(),
            pos.z is None,
            occupied(*map, pos),
        ensures
            final(self).tiles@.no_duplicates(),
            forall|t: u64| #[trigger]
                final(self).tiles@.contains(t) <==> old(self).tiles@.contains(t) || t == tile_id_at(*map, pos),
            forall|a: u64, d: GridDir, c: u64| #[trigger]
                final(self).adjacency_rules.allows(a, d, c) <==> old(self).adjacency_rules.allows(a, d, c)
                    || tile_observed_at(*map, pos, a, d, c),
    {
        let tile = map.get_tile_at_position(&pos).unwrap();
        let id = tile.inner().get_tile_id();
        push_unique(&mut self.tiles, id);
        let ghost start = self.adjacency_rules;
        let ghost tiles_after = self.tiles@;
        proof {
            crate::map::lemma_tile_at_valid(*map, pos);
        }
        let mut k: usize = 0;
        while k < 4
            invariant
                k <= 4,
                self.tiles@ == tiles_after,
                pos.z is None,
                occupied(*map, pos),
                id == tile_id_at(*map, pos),
                tile.spec_data() == crate::map::tile_at(*map, pos)->0,
                spec_position_valid(map.spec_size(), pos),
                forall|a: u64, d: GridDir, c: u64| #[trigger]
                    self.adjacency_rules.allows(a, d, c) <==> start.allows(a, d, c) || (crate::map::dir_index(d) < k
                        && tile_observed_at(*map, pos, a, d, c)),
            decreases 4 - k,
        {
            let dir = GridDir::from_index(k);
            if let Some(neighbour) = map.get_neighbour_at(&pos, &dir) {
                self.adjacency_rules.add_adjacency(tile.inner(), neighbour.inner(), dir);
            }
            k = k + 1;
        }
    }

    /// The rules derived so far.
    pub fn adjacency(&self) -> (r: &AdjacencyRules<T>)
        ensures
            *r == self.rules(),
    {
        &self.adjacency_rules
    }
}

impl<T: IdentifiableTile> AdjacencyAnalyzer<T> for AdjacencyIdentityAnalyzer<T> {
    open spec fn analyzer_wf(&self) -> bool {
        self.seen_tiles().no_duplicates()
    }

    closed spec fn rules(&self) -> AdjacencyRules<T> {
        self.adjacency_rules
    }

    closed spec fn seen_tiles(&self) -> Seq<u64> {
        self.tiles@
    }

    fn adjacency(&self) -> (r: &AdjacencyRules<T>) {
        &self.adjacency_rules
    }

    fn tiles(&self) -> (r: &[u64]) {
        self.tiles.as_slice()
    }

    /// Analyzes the map, in the order of its positions: the rules afterwards allow exactly what they allowed
    /// before and what is observed in the map.
    fn analyze(&mut self, map: &GridMap2D<T>)
        ensures
            forall|a: u64, d: GridDir, c: u64| #[trigger]
                final(self).rules().allows(a, d, c) <==> old(self).rules().allows(a, d, c) || tile_observed(
                    *map,
                    a,
                    d,
                    c,
                ),
    {
        let positions = map.get_all_positions();
        let ghost start = *self;
        let mut k: usize = 0;
        while k < positions.len()
            invariant
                k <= positions@.len(),
                listing_of(positions@, |p: GridPosition| occupied(*map, p)),
                self.tiles@.no_duplicates(),
                forall|t: u64| #[trigger]
                    self.tiles@.contains(t) <==> start.tiles@.contains(t) || exists|i: int|
                        0 <= i < k && tile_id_at(*map, #[trigger] positions@[i]) == t,
                forall|a: u64, d: GridDir, c: u64| #[trigger]
                    self.adjacency_rules.allows(a, d, c) <==> start.adjacency_rules.allows(a, d, c)
                        || tile_observed_among(*map, positions@, k as int, a, d, c),
            decreases positions@.len() - k,
        {
            let pos = positions[k];
            proof {
                assert(positions@.contains(pos));
            }
            self.analyze_tile_at_pos(map, pos);
            k = k + 1;
            proof {
                assert forall|a: u64, d: GridDir, c: u64| #[trigger]
                    self.adjacency_rules.allows(a, d, c) <==> start.adjacency_rules.allows(a, d, c)
                        || tile_observed_among(*map, positions@, k as int, a, d, c) by {
                    if tile_observed_at(*map, pos, a, d, c) {
                        assert(tile_observed_at(*map, positions@[k - 1], a, d, c));
                    }
                    if tile_observed_among(*map, positions@, k as int, a, d, c) {
                        let i = choose|i: int| 0 <= i < k && #[trigger] tile_observed_at(*map, positions@[i], a, d, c);
                        if i < k - 1 {
                            assert(tile_observed_among(*map, positions@, k - 1, a, d, c));
                        }
                    }
                }
                assert forall|t: u64| #[trigger]
                    self.tiles@.contains(t) <==> start.tiles@.contains(t) || exists|i: int|
                        0 <= i < k && tile_id_at(*map, #[trigger] positions@[i]) == t by {
                    if t == tile_id_at(*map, pos) {
                        assert(tile_id_at(*map, positions@[k - 1]) == t);
                    }
                    if exists|i: int| 0 <= i < k && tile_id_at(*map, #[trigger] positions@[i]) == t {
                        let i = choose|i: int| 0 <= i < k && tile_id_at(*map, #[trigger] positions@[i]) == t;
                        if i < k - 1 {
                            assert(exists|j: int| 0 <= j < k - 1 && tile_id_at(*map, #[trigger] positions@[j]) == t);
                        }
                    }
                }
            }
        }
        proof {
            assert forall|a: u64, d: GridDir, c: u64| #[trigger]
                self.rules().allows(a, d, c) <==> start.rules().allows(a, d, c) || tile_observed(*map, a, d, c) by {
                lemma_listing_tile_observed(*map, positions@, a, d, c);
            }
            assert forall|t: u64| #[trigger]
                self.seen_tiles().contains(t) <==> start.seen_tiles().contains(t) || map_has_tile_id(*map, t) by {
                lemma_listing_has_id(*map, positions@, t);
            }
        }
    }
}

/// Rules allowing exactly the adjacencies observed in a map are symmetric.
pub proof fn lemma_tile_observed_rules_symmetric<T: IdentifiableTile>(rules: AdjacencyRules<T>, map: GridMap2D<T>)
    requires
        forall|a: u64, d: GridDir, c: u64| #[trigger] rules.allows(a, d, c) <==> tile_observed(map, a, d, c),
    ensures
        rules.symmetric(),
{
    assert forall|a: u64, d: GridDir, c: u64| #[trigger] rules.allows(a, d, c) <==> rules.allows(c, spec_opposite(d), a) by {
        if tile_observed(map, a, d, c) {
            lemma_tile_observed_symmetric(map, a, d, c);
        }
        if tile_observed(map, c, spec_opposite(d), a) {
            lemma_tile_observed_symmetric(map, c, spec_opposite(d), a);
            crate::map::lemma_opposite_involutive(d);
        }
    }
}

/// The border analyzer is at least as liberal as the identity analyzer: rules allowing exactly the adjacencies
/// observed in a map (those of the identity analyzer) allow nothing that rules allowing every observed adjacency
/// (those of any analyzer, the border analyzer among them) do not allow.
pub proof fn lemma_observed_rules_within<T: IdentifiableTile>(
    identity: AdjacencyRules<T>,
    other: AdjacencyRules<T>,
    map: GridMap2D<T>,
)
    requires
        forall|a: u64, d: GridDir, c: u64| #[trigger] identity.allows(a, d, c) <==> tile_observed(map, a, d, c),
        forall|a: u64, d: GridDir, c: u64| tile_observed(map, a, d, c) ==> #[trigger] other.allows(a, d, c),
    ensures
        forall|a: u64, d: GridDir, c: u64| #[trigger] identity.allows(a, d, c) ==> other.allows(a, d, c),
{
}

/// Analyzer unifying the borders of tiles observed next to each other, and allowing every tile next to every
/// other whose touching sides share a border.
pub struct AdjacencyBorderAnalyzer<T: IdentifiableTile> {
    tiles: Vec<u64>,
    adjacency_rules: AdjacencyRules<T>,
    borders: BorderTable,
}

impl<T: IdentifiableTile> AdjacencyBorderAnalyzer<T> {
    /// Analyzer that has seen nothing.
    pub fn new() -> (a: Self)
        ensures
            a.analyzer_wf(),
            a.seen_tiles() == Seq::<u64>::empty(),
            forall|x: u64, d: GridDir, c: u64| !#[trigger] a.rules().allows(x, d, c),
            forall|t: u64, d: GridDir| #[trigger] a.border_table().border(t, d) is None,
            forall|t1: u64, d1: GridDir, t2: u64, d2: GridDir| !#[trigger] a.same_border(t1, d1, t2, d2),
    {
        Self { tiles: Vec::new(), adjacency_rules: AdjacencyRules::new(), borders: BorderTable::new() }
    }

    /// The border table is consistent.
    pub closed spec fn border_wf(&self) -> bool {
        self.borders.wf()
    }

    /// Table of the borders of the sides of the tile types seen.
    pub closed spec fn border_table(&self) -> BorderTable {
        self.borders
    }

    /// Side `d1` of identifier `t1` has a border shared with side `d2` of `t2`.
    pub open spec fn same_border(&self, t1: u64, d1: GridDir, t2: u64, d2: GridDir) -> bool {
        self.border_table().same_border(t1, d1, t2, d2)
    }

    /// Records that `neighbour` lies in `direction` of `tile`, unifying the borders of the touching sides.
    pub fn add_adjacency(&mut self, tile: &T, neighbour: &T, direction: &GridDir)
        requires
            old(self).analyzer_wf(),
        ensures
            final(self).analyzer_wf(),
            final(self).same_border(tile.spec_tile_id(), *direction, neighbour.spec_tile_id(), spec_opposite(*direction)),
            BorderTable::border_step(
                old(self).border_table(),
                final(self).border_table(),
                tile.spec_tile_id(),
                neighbour.spec_tile_id(),
                *direction,
            ),
            forall|t1: u64, d1: GridDir, t2: u64, d2: GridDir|
                #[trigger] old(self).same_border(t1, d1, t2, d2) ==> final(self).same_border(t1, d1, t2, d2),
            final(self).rules() == old(self).rules(),
            final(self).seen_tiles() == old(self).seen_tiles(),
    {
        self.add_adjacency_raw(tile.get_tile_id(), neighbour.get_tile_id(), direction)
    }

    /// Records that `adjacent_id` lies in `direction` of `tile_id`, unifying the borders of the touching sides.
    pub fn add_adjacency_raw(&mut self, tile_id: u64, adjacent_id: u64, direction: &GridDir)
        requires
            old(self).analyzer_wf(),
        ensures
            final(self).analyzer_wf(),
            final(self).same_border(tile_id, *direction, adjacent_id, spec_opposite(*direction)),
            BorderTable::border_step(old(self).border_table(), final(self).border_table(), tile_id, adjacent_id, *direction),
            forall|t1: u64, d1: GridDir, t2: u64, d2: GridDir|
                #[trigger] old(self).same_border(t1, d1, t2, d2) ==> final(self).same_border(t1, d1, t2, d2),
            final(self).rules() == old(self).rules(),
            final(self).seen_tiles() == old(self).seen_tiles(),
    {
        let ghost prev = self.borders;
        self.borders.add_adjacency_raw(tile_id, adjacent_id, *direction);
        assert forall|t1: u64, d1: GridDir, t2: u64, d2: GridDir|
            #[trigger] old(self).same_border(t1, d1, t2, d2) implies self.same_border(t1, d1, t2, d2) by {
            assert(prev.same_border(t1, d1, t2, d2));
        }
    }

    /// Allows every tile next to every other where the touching sides share a border.
    pub fn prepare(&mut self)
        requires
            old(self).analyzer_wf(),
        ensures
            final(self).analyzer_wf(),
            forall|a: u64, d: GridDir, c: u64| #[trigger]
                final(self).rules().allows(a, d, c) <==> old(self).rules().allows(a, d, c)
                    || final(self).same_border(a, d, c, spec_opposite(d)),
            forall|t1: u64, d1: GridDir, t2: u64, d2: GridDir| #[trigger]
                final(self).same_border(t1, d1, t2, d2) == old(self).same_border(t1, d1, t2, d2),
            final(self).seen_tiles() == old(self).seen_tiles(),
            forall|a: u64, d: GridDir, c: u64|
                #[trigger] final(self).same_border(a, d, c, spec_opposite(d)) ==> final(self).rules().allows(a, d, c)
                    && final(self).rules().allows(c, spec_opposite(d), a),
            forall|a: u64, d: GridDir, c: u64| #[trigger]
                old(self).rules().allows(a, d, c) ==> final(self).rules().allows(a, d, c),
    {
        self.generate_adjacency_rules();
        proof {
            assert forall|a: u64, d: GridDir, c: u64|
                #[trigger] self.same_border(a, d, c, spec_opposite(d)) implies self.rules().allows(a, d, c)
                    && self.rules().allows(c, spec_opposite(d), a) by {
                crate::map::lemma_opposite_involutive(d);
                assert(self.same_border(c, spec_opposite(d), a, spec_opposite(spec_opposite(d))));
            }
        }
    }

    fn generate_adjacency_rules(&mut self)
        requires
            old(self).borders.wf(),
        ensures
            final(self).borders == old(self).borders,
            final(self).tiles == old(self).tiles,
            forall|a: u64, d: GridDir, c: u64| #[trigger]
                final(self).adjacency_rules.allows(a, d, c) <==> old(self).adjacency_rules.allows(a, d, c)
                    || old(self).borders.same_border(a, d, c, spec_opposite(d)),
    {
        let mut table = AdjacencyTable::new();
        std::mem::swap(&mut table, &mut self.adjacency_rules.inner);
        self.borders.generate_adjacency_rules(&mut table);
        std::mem::swap(&mut table, &mut self.adjacency_rules.inner);
    }

    fn analyze_tile_at_pos(&mut self, map: &GridMap2D<T>, pos: GridPosition)
        requires
            old(self).analyzer_wf(),
            pos.z is None,
            occupied(*map, pos),
        ensures
            final(self).analyzer_wf(),
            forall|t: u64| #[trigger]
                final(self).tiles@.contains(t) <==> old(self).tiles@.contains(t) || t == tile_id_at(*map, pos),
            forall|t1: u64, d1: GridDir, t2: u64, d2: GridDir|
                #[trigger] old(self).same_border(t1, d1, t2, d2) ==> final(self).same_border(t1, d1, t2, d2),
            forall|a: u64, d: GridDir, c: u64|
                tile_observed_at(*map, pos, a, d, c) ==> #[trigger] final(self).same_border(a, d, c, spec_opposite(d)),
            final(self).adjacency_rules == old(self).adjacency_rules,
    {
        let tile = map.get_tile_at_position(&pos).unwrap();
        let id = tile.inner().get_tile_id();
        push_unique(&mut self.tiles, id);
        let ghost start = *self;
        proof {
            crate::map::lemma_tile_at_valid(*map, pos);
        }
        let mut k: usize = 0;
        while k < 4
            invariant
                k <= 4,
                pos.z is None,
                occupied(*map, pos),
                id == tile_id_at(*map, pos),
                spec_position_valid(map.spec_size(), pos),
                self.analyzer_wf(),
                self.tiles@ == start.tiles@,
                self.adjacency_rules == start.adjacency_rules,
                forall|t1: u64, d1: GridDir, t2: u64, d2: GridDir|
                    #[trigger] start.same_border(t1, d1, t2, d2) ==> self.same_border(t1, d1, t2, d2),
                forall|a: u64, d: GridDir, c: u64|
                    crate::map::dir_index(d) < k && tile_observed_at(*map, pos, a, d, c) ==> #[trigger] self.same_border(
                        a,
                        d,
                        c,
                        spec_opposite(d),
                    ),
            decreases 4 - k,
        {
            let dir = GridDir::from_index(k);
            let ghost before = *self;
            if let Some(neighbour) = map.get_neighbour_at(&pos, &dir) {
                let nid = neighbour.inner().get_tile_id();
                self.add_adjacency_raw(id, nid, &dir);
            }
            k = k + 1;
            proof {
                assert forall|t1: u64, d1: GridDir, t2: u64, d2: GridDir|
                    #[trigger] start.same_border(t1, d1, t2, d2) implies self.same_border(t1, d1, t2, d2) by {
                    assert(before.same_border(t1, d1, t2, d2));
                }
                assert forall|a: u64, d: GridDir, c: u64|
                    crate::map::dir_index(d) < k && tile_observed_at(*map, pos, a, d, c) implies #[trigger] self.same_border(
                        a,
                        d,
                        c,
                        spec_opposite(d),
                    ) by {
                    if crate::map::dir_index(d) < k - 1 {
                        assert(before.same_border(a, d, c, spec_opposite(d)));
                    }
                }
            }
        }
        assert forall|t1: u64, d1: GridDir, t2: u64, d2: GridDir|
            #[trigger] old(self).same_border(t1, d1, t2, d2) implies self.same_border(t1, d1, t2, d2) by {
            assert(start.same_border(t1, d1, t2, d2));
        }
    }
}

impl<T: IdentifiableTile> AdjacencyAnalyzer<T> for AdjacencyBorderAnalyzer<T> {
    open spec fn analyzer_wf(&self) -> bool {
        self.seen_tiles().no_duplicates() && self.border_wf()
    }

    closed spec fn rules(&self) -> AdjacencyRules<T> {
        self.adjacency_rules
    }

    closed spec fn seen_tiles(&self) -> Seq<u64> {
        self.tiles@
    }

    fn adjacency(&self) -> (r: &AdjacencyRules<T>) {
        &self.adjacency_rules
    }

    fn tiles(&self) -> (r: &[u64]) {
        self.tiles.as_slice()
    }

    /// Analyzes the map, replacing the rules: afterwards exactly the tiles whose touching sides share a border may
    /// be placed next to each other.
    fn analyze(&mut self, map: &GridMap2D<T>)
        ensures
            forall|a: u64, d: GridDir, c: u64| #[trigger]
                final(self).rules().allows(a, d, c) <==> final(self).same_border(a, d, c, spec_opposite(d)),
            final(self).rules().symmetric(),
    {
        self.adjacency_rules = AdjacencyRules::new();
        let positions = map.get_all_positions();
        let ghost start = *self;
        let mut k: usize = 0;
        while k < positions.len()
            invariant
                k <= positions@.len(),
                listing_of(positions@, |p: GridPosition| occupied(*map, p)),
                self.analyzer_wf(),
                self.adjacency_rules == start.adjacency_rules,
                forall|t: u64| #[trigger]
                    self.tiles@.contains(t) <==> start.tiles@.contains(t) || exists|i: int|
                        0 <= i < k && tile_id_at(*map, #[trigger] positions@[i]) == t,
                forall|a: u64, d: GridDir, c: u64|
                    tile_observed_among(*map, positions@, k as int, a, d, c) ==> #[trigger] self.same_border(
                        a,
                        d,
                        c,
                        spec_opposite(d),
                    ),
            decreases positions@.len() - k,
        {
            let pos = positions[k];
            proof {
                assert(positions@.contains(pos));
            }
            let ghost before = *self;
            self.analyze_tile_at_pos(map, pos);
            k = k + 1;
            proof {
                assert forall|a: u64, d: GridDir, c: u64|
                    tile_observed_among(*map, positions@, k as int, a, d, c) implies #[trigger] self.same_border(
                        a,
                        d,
                        c,
                        spec_opposite(d),
                    ) by {
                    let i = choose|i: int| 0 <= i < k && #[trigger] tile_observed_at(*map, positions@[i], a, d, c);
                    if i < k - 1 {
                        assert(tile_observed_among(*map, positions@, k - 1, a, d, c));
                        assert(before.same_border(a, d, c, spec_opposite(d)));
                    }
                }
                assert forall|t: u64| #[trigger]
                    self.tiles@.contains(t) <==> start.tiles@.contains(t) || exists|i: int|
                        0 <= i < k && tile_id_at(*map, #[trigger] positions@[i]) == t by {
                    if t == tile_id_at(*map, pos) {
                        assert(tile_id_at(*map, positions@[k - 1]) == t);
                    }
                    if exists|i: int| 0 <= i < k && tile_id_at(*map, #[trigger] positions@[i]) == t {
                        let i = choose|i: int| 0 <= i < k && tile_id_at(*map, #[trigger] positions@[i]) == t;
                        if i < k - 1 {
                            assert(exists|j: int| 0 <= j < k - 1 && tile_id_at(*map, #[trigger] positions@[j]) == t);
                        }
                    }
                }
            }
        }
        let ghost before_rules = *self;
        self.generate_adjacency_rules();
        proof {
            assert forall|a: u64, d: GridDir, c: u64|
                tile_observed(*map, a, d, c) implies #[trigger] self.rules().allows(a, d, c) by {
                lemma_listing_tile_observed(*map, positions@, a, d, c);
                assert(before_rules.same_border(a, d, c, spec_opposite(d)));
            }
            assert forall|t: u64| #[trigger]
                self.seen_tiles().contains(t) <==> old(self).seen_tiles().contains(t) || map_has_tile_id(*map, t) by {
                lemma_listing_has_id(*map, positions@, t);
            }
            assert forall|a: u64, d: GridDir, c: u64| #[trigger]
                self.rules().allows(a, d, c) <==> self.rules().allows(c, spec_opposite(d), a) by {
                crate::map::lemma_opposite_involutive(d);
            }
        }
    }
}

} // verus!
