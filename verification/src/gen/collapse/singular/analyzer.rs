//! Adjacency rules, frequency hints and the analyzers deriving them from sample grid maps.
use vstd::prelude::*;

use crate::gen::collapse::border::BorderTable;
use crate::gen::collapse::AdjacencyTable;
use crate::id_map::IdMap;
use crate::map::{
    lemma_march_round_trip, lemma_march_stays_valid, listing_of, neighbour_position, occupied, spec_march,
    spec_opposite, spec_position_valid, tile_at, GridDir, GridMap2D,
};
use crate::tile::identifiable::IdentifiableTileData;
use crate::tile::{GridPosition, TileContainer};

verus! {

/// Identifier of the tile at `p` of `map`.
pub open spec fn id_at<Data: IdentifiableTileData>(map: GridMap2D<Data>, p: GridPosition) -> u64 {
    tile_at(map, p)->0.spec_tile_type_id()
}

/// At position `p` of `map` lies a tile of type `a`, whose neighbour in direction `d` is of type `c`.
pub open spec fn observed_at<Data: IdentifiableTileData>(
    map: GridMap2D<Data>,
    p: GridPosition,
    a: u64,
    d: GridDir,
    c: u64,
) -> bool {
    &&& p.z is None
    &&& occupied(map, p)
    &&& id_at(map, p) == a
    &&& neighbour_position(map, p, d) is Some
    &&& id_at(map, neighbour_position(map, p, d)->0) == c
}

/// Somewhere in `map` a tile of type `c` lies in direction `d` of a tile of type `a`.
pub open spec fn observed<Data: IdentifiableTileData>(map: GridMap2D<Data>, a: u64, d: GridDir, c: u64) -> bool {
    exists|p: GridPosition| #[trigger] observed_at(map, p, a, d, c)
}

/// Some tile of `map` is of type `t`.
pub open spec fn map_has_id<Data: IdentifiableTileData>(map: GridMap2D<Data>, t: u64) -> bool {
    exists|p: GridPosition| p.z is None && #[trigger] occupied(map, p) && id_at(map, p) == t
}

/// Observing a tile next to another is observing the other next to the first, in the opposite direction.
pub proof fn lemma_observed_symmetric<Data: IdentifiableTileData>(
    map: GridMap2D<Data>,
    a: u64,
    d: GridDir,
    c: u64,
)
    requires
        observed(map, a, d, c),
    ensures
        observed(map, c, spec_opposite(d), a),
{
    let p = choose|p: GridPosition| #[trigger] observed_at(map, p, a, d, c);
    let q = neighbour_position(map, p, d)->0;
    lemma_march_round_trip(d, p, map.spec_size());
    lemma_march_stays_valid(d, p, map.spec_size());
    assert(observed_at(map, q, c, spec_opposite(d), a));
}

/// Rules allowing exactly the adjacencies observed in a map are symmetric.
pub proof fn lemma_observed_rules_symmetric<Data: IdentifiableTileData>(rules: AdjacencyRules<Data>, map: GridMap2D<Data>)
    requires
        forall|a: u64, d: GridDir, c: u64| #[trigger] rules.allows(a, d, c) <==> observed(map, a, d, c),
    ensures
        rules.symmetric(),
{
    assert forall|a: u64, d: GridDir, c: u64| #[trigger] rules.allows(a, d, c) <==> rules.allows(c, spec_opposite(d), a) by {
        if observed(map, a, d, c) {
            lemma_observed_symmetric(map, a, d, c);
        }
        if observed(map, c, spec_opposite(d), a) {
            lemma_observed_symmetric(map, c, spec_opposite(d), a);
            crate::map::lemma_opposite_involutive(d);
        }
    }
}

/// Rules telling which tiles may be placed next to each other, by tile type.
#[derive(Debug)]
pub struct AdjacencyRules<Data: IdentifiableTileData> {
    inner: AdjacencyTable,
    id_type: std::marker::PhantomData<Data>,
}

impl<Data: IdentifiableTileData> AdjacencyRules<Data> {
    /// A tile of type `adj` may be placed in direction `d` of a tile of type `el`.
    pub closed spec fn allows(&self, el: u64, d: GridDir, adj: u64) -> bool {
        self.inner.allows(el, d, adj)
    }

    /// The rules hold an entry for tile type `el`.
    pub closed spec fn has_element(&self, el: u64) -> bool {
        self.inner.has_element(el)
    }

    /// The table of adjacencies behind the rules.
    pub closed spec fn table(&self) -> AdjacencyTable {
        self.inner
    }

    /// A tile may be placed next to another exactly when the other may be placed next to it, in the opposite
    /// direction.
    pub open spec fn symmetric(&self) -> bool {
        forall|a: u64, d: GridDir, c: u64| #[trigger] self.allows(a, d, c) <==> self.allows(c, spec_opposite(d), a)
    }

    /// Rules allowing nothing.
    pub fn new() -> (r: Self)
        ensures
            forall|a: u64, d: GridDir, c: u64| !#[trigger] r.allows(a, d, c),
            forall|a: u64| !#[trigger] r.has_element(a),
    {
        Self { inner: AdjacencyTable::new(), id_type: std::marker::PhantomData }
    }

    /// Rules allowing exactly what `table` allows.
    pub(crate) fn from_table(table: AdjacencyTable) -> (r: Self)
        ensures
            r.table() == table,
            forall|a: u64, d: GridDir, c: u64| #[trigger] r.allows(a, d, c) == table.allows(a, d, c),
    {
        Self { inner: table, id_type: std::marker::PhantomData }
    }

    /// Allows the type of `adjacent_tile` in `direction` of the type of `tile`.
    pub fn add_adjacency(&mut self, tile: &Data, adjacent_tile: &Data, direction: GridDir)
        ensures
            forall|el: u64| #[trigger]
                final(self).has_element(el) <==> old(self).has_element(el) || el == tile.spec_tile_type_id(),
            forall|a: u64, d: GridDir, c: u64| #[trigger]
                final(self).allows(a, d, c) <==> old(self).allows(a, d, c) || (a == tile.spec_tile_type_id()
                    && d == direction && c == adjacent_tile.spec_tile_type_id()),
    {
        self.add_adjacency_raw(tile.tile_type_id(), adjacent_tile.tile_type_id(), direction)
    }

    /// Allows `adjacent_id` in `direction` of `tile_id`.
    pub fn add_adjacency_raw(&mut self, tile_id: u64, adjacent_id: u64, direction: GridDir)
        ensures
            forall|el: u64| #[trigger] final(self).has_element(el) <==> old(self).has_element(el) || el == tile_id,
            forall|a: u64, d: GridDir, c: u64| #[trigger]
                final(self).allows(a, d, c) <==> old(self).allows(a, d, c) || (a == tile_id && d == direction && c
                    == adjacent_id),
    {
        self.inner.insert_adjacency(tile_id, direction, adjacent_id);
    }

    /// `adjacent_id` is allowed in `direction` of `tile_id`.
    pub fn is_valid_raw(&self, tile_id: u64, adjacent_id: u64, direction: GridDir) -> (r: bool)
        ensures
            r == self.allows(tile_id, direction, adjacent_id),
    {
        self.inner.check_adjacency(tile_id, direction, adjacent_id)
    }

    /// Any of `adjacent_options` is allowed in `direction` of `tile_id`.
    pub fn is_valid_raw_any(&self, tile_id: u64, adjacent_options: &[u64], direction: GridDir) -> (r: bool)
        ensures
            r == exists|i: int|
                0 <= i < adjacent_options@.len() && self.allows(tile_id, direction, #[trigger] adjacent_options@[i]),
    {
        self.inner.check_adjacency_any(tile_id, direction, adjacent_options)
    }

    /// The table of adjacencies behind the rules.
    pub fn inner(&self) -> (t: &AdjacencyTable)
        ensures
            *t == self.table(),
            forall|a: u64, d: GridDir, c: u64| #[trigger] t.allows(a, d, c) == self.allows(a, d, c),
            forall|a: u64| #[trigger] t.has_element(a) == self.has_element(a),
    {
        &self.inner
    }
}

impl<Data: IdentifiableTileData> Clone for AdjacencyRules<Data> {
    fn clone(&self) -> (r: Self)
        ensures
            forall|a: u64, d: GridDir, c: u64| #[trigger] r.allows(a, d, c) == self.allows(a, d, c),
            forall|a: u64| #[trigger] r.has_element(a) == self.has_element(a),
    {
        Self { inner: self.inner.clone(), id_type: std::marker::PhantomData }
    }
}

/// Analyzer deriving adjacency rules out of sample grid maps.
pub trait Analyzer<Data: IdentifiableTileData> {
    /// Internal consistency of the analyzer.
    spec fn analyzer_wf(&self) -> bool;

    /// Rules derived so far.
    spec fn rules(&self) -> AdjacencyRules<Data>;

    /// Tile types seen so far.
    spec fn seen_tiles(&self) -> Seq<u64>;

    fn adjacency(&self) -> (r: &AdjacencyRules<Data>)
        ensures
            *r == self.rules(),
    ;

    fn tiles(&self) -> (r: &[u64])
        ensures
            r@ == self.seen_tiles(),
    ;

    /// Analyzes the map: every adjacency observed in it becomes allowed, and every tile type in it becomes seen.
    fn analyze(&mut self, map: &GridMap2D<Data>)
        requires
            old(self).analyzer_wf(),
        ensures
            final(self).analyzer_wf(),
            forall|a: u64, d: GridDir, c: u64|
                observed(*map, a, d, c) ==> #[trigger] final(self).rules().allows(a, d, c),
            forall|t: u64| #[trigger]
                final(self).seen_tiles().contains(t) <==> old(self).seen_tiles().contains(t) || map_has_id(*map, t),
            final(self).seen_tiles().no_duplicates(),
    ;
}

/// Adds `t` to `tiles` unless it is there already.
fn push_unique(tiles: &mut Vec<u64>, t: u64)
    requires
        old(tiles)@.no_duplicates(),
    ensures
        final(tiles)@.no_duplicates(),
        forall|x: u64| #[trigger] final(tiles)@.contains(x) <==> old(tiles)@.contains(x) || x == t,
{
    if !crate::gen::collapse::contains_id(tiles.as_slice(), t) {
        let ghost before = tiles@;
        tiles.push(t);
        proof {
            assert forall|a: int, b: int| 0 <= a < b < tiles@.len() implies tiles@[a] != tiles@[b] by {
                if b == tiles@.len() - 1 {
                    assert(before[a] == tiles@[a]);
                }
            }
            assert forall|x: u64| #[trigger] tiles@.contains(x) <==> before.contains(x) || x == t by {
                if before.contains(x) {
                    let i = before.index_of(x);
                    assert(tiles@[i] == x);
                }
                if tiles@.contains(x) && x != t {
                    let i = tiles@.index_of(x);
                    assert(before[i] == x);
                }
                if x == t {
                    assert(tiles@[before.len() as int] == x);
                }
            }
        }
    }
}

/// Observations made at the first `k` positions of `positions`.
pub open spec fn observed_among<Data: IdentifiableTileData>(
    map: GridMap2D<Data>,
    positions: Seq<GridPosition>,
    k: int,
    a: u64,
    d: GridDir,
    c: u64,
) -> bool {
    exists|i: int| 0 <= i < k && #[trigger] observed_at(map, positions[i], a, d, c)
}

/// Observations over a listing of the occupied positions are all observations of the map.
proof fn lemma_listing_observed<Data: IdentifiableTileData>(
    map: GridMap2D<Data>,
    positions: Seq<GridPosition>,
    a: u64,
    d: GridDir,
    c: u64,
)
    requires
        listing_of(positions, |p: GridPosition| occupied(map, p)),
    ensures
        observed(map, a, d, c) <==> observed_among(map, positions, positions.len() as int, a, d, c),
{
    if observed(map, a, d, c) {
        let p = choose|p: GridPosition| #[trigger] observed_at(map, p, a, d, c);
        assert(positions.contains(p));
        let i = positions.index_of(p);
        assert(observed_at(map, positions[i], a, d, c));
    }
}

/// Analyzer allowing exactly the adjacencies observed on the analyzed maps.
pub struct IdentityAnalyzer<Data: IdentifiableTileData> {
    tiles: Vec<u64>,
    adjacency_rules: AdjacencyRules<Data>,
}

impl<Data: IdentifiableTileData> IdentityAnalyzer<Data> {
    /// Analyzer that has seen nothing.
    pub fn new() -> (a: Self)
        ensures
            a.analyzer_wf(),
            a.seen_tiles() == Seq::<u64>::empty(),
            forall|x: u64, d: GridDir, c: u64| !#[trigger] a.rules().allows(x, d, c),
    {
        Self { tiles: Vec::new(), adjacency_rules: AdjacencyRules::new() }
    }

    fn analyze_tile_at_pos(&mut self, map: &GridMap2D<Data>, pos: GridPosition)
        requires
            old(self).tiles@.no_duplicates(),
            pos.z is None,
            occupied(*map, pos),
        ensures
            final(self).tiles@.no_duplicates(),
            forall|t: u64| #[trigger]
                final(self).tiles@.contains(t) <==> old(self).tiles@.contains(t) || t == id_at(*map, pos),
            forall|a: u64, d: GridDir, c: u64| #[trigger]
                final(self).adjacency_rules.allows(a, d, c) <==> old(self).adjacency_rules.allows(a, d, c)
                    || observed_at(*map, pos, a, d, c),
    {
        let tile = map.get_tile_at_position(&pos).unwrap();
        let id = tile.inner().tile_type_id();
        push_unique(&mut self.tiles, id);
        let ghost start = self.adjacency_rules;
        let ghost tiles_after = self.tiles@;
        let mut k: usize = 0;
        while k < 4
            invariant
                k <= 4,
                self.tiles@ == tiles_after,
                pos.z is None,
                occupied(*map, pos),
                id == id_at(*map, pos),
                spec_position_valid(map.spec_size(), pos),
                forall|a: u64, d: GridDir, c: u64| #[trigger]
                    self.adjacency_rules.allows(a, d, c) <==> start.allows(a, d, c) || (crate::map::dir_index(d) < k
                        && observed_at(*map, pos, a, d, c)),
            decreases 4 - k,
        {
            let dir = GridDir::from_index(k);
            if let Some(neighbour) = map.get_neighbour_at(&pos, &dir) {
                let nid = neighbour.inner().tile_type_id();
                self.adjacency_rules.add_adjacency_raw(id, nid, dir);
            }
            k = k + 1;
        }
    }
}

impl<Data: IdentifiableTileData> Analyzer<Data> for IdentityAnalyzer<Data> {
    open spec fn analyzer_wf(&self) -> bool {
        self.seen_tiles().no_duplicates()
    }

    closed spec fn rules(&self) -> AdjacencyRules<Data> {
        self.adjacency_rules
    }

    closed spec fn seen_tiles(&self) -> Seq<u64> {
        self.tiles@
    }

    fn adjacency(&self) -> (r: &AdjacencyRules<Data>) {
        &self.adjacency_rules
    }

    fn tiles(&self) -> (r: &[u64]) {
        self.tiles.as_slice()
    }

    fn analyze(&mut self, map: &GridMap2D<Data>)
        ensures
            forall|a: u64, d: GridDir, c: u64| #[trigger]
                final(self).rules().allows(a, d, c) <==> old(self).rules().allows(a, d, c) || observed(
                    *map,
                    a,
                    d,
                    c,
                ),
    {
        let positions = map.get_all_positions();
        let ghost start = *self;
        let mut k: usize = 0;
        while k < positions.len()
            invariant
                k <= positions@.len(),
                listing_of(positions@, |p: GridPosition| occupied(*map, p)),
                self.tiles@.no_duplicates(),
                forall|t: u64| #[trigger]
                    self.tiles@.contains(t) <==> start.tiles@.contains(t) || exists|i: int|
                        0 <= i < k && id_at(*map, #[trigger] positions@[i]) == t,
                forall|a: u64, d: GridDir, c: u64| #[trigger]
                    self.adjacency_rules.allows(a, d, c) <==> start.adjacency_rules.allows(a, d, c)
                        || observed_among(*map, positions@, k as int, a, d, c),
            decreases positions@.len() - k,
        {
            let pos = positions[k];
            proof {
                assert(positions@.contains(pos));
            }
            self.analyze_tile_at_pos(map, pos);
            k = k + 1;
            proof {
                assert forall|a: u64, d: GridDir, c: u64| #[trigger]
                    self.adjacency_rules.allows(a, d, c) <==> start.adjacency_rules.allows(a, d, c)
                        || observed_among(*map, positions@, k as int, a, d, c) by {
                    if observed_at(*map, pos, a, d, c) {
                        assert(observed_at(*map, positions@[k - 1], a, d, c));
                    }
                    if observed_among(*map, positions@, k as int, a, d, c) {
                        let i = choose|i: int| 0 <= i < k && #[trigger] observed_at(*map, positions@[i], a, d, c);
                        if i < k - 1 {
                            assert(observed_among(*map, positions@, k - 1, a, d, c));
                        }
                    }
                }
                assert forall|t: u64| #[trigger]
                    self.tiles@.contains(t) <==> start.tiles@.contains(t) || exists|i: int|
                        0 <= i < k && id_at(*map, #[trigger] positions@[i]) == t by {
                    if t == id_at(*map, pos) {
                        assert(id_at(*map, positions@[k - 1]) == t);
                    }
                    if exists|i: int| 0 <= i < k && id_at(*map, #[trigger] positions@[i]) == t {
                        let i = choose|i: int| 0 <= i < k && id_at(*map, #[trigger] positions@[i]) == t;
                        if i < k - 1 {
                            assert(exists|j: int| 0 <= j < k - 1 && id_at(*map, #[trigger] positions@[j]) == t);
                        }
                    }
                }
            }
        }
        proof {
            assert forall|a: u64, d: GridDir, c: u64| #[trigger]
                self.rules().allows(a, d, c) <==> start.rules().allows(a, d, c) || observed(*map, a, d, c) by {
                lemma_listing_observed(*map, positions@, a, d, c);
            }
            assert forall|t: u64| #[trigger]
                self.seen_tiles().contains(t) <==> start.seen_tiles().contains(t) || map_has_id(*map, t) by {
                if map_has_id(*map, t) {
                    let p = choose|p: GridPosition| p.z is None && #[trigger] occupied(*map, p) && id_at(*map, p) == t;
                    assert(positions@.contains(p));
                    let i = positions@.index_of(p);
                    assert(id_at(*map, positions@[i]) == t);
                }
                if exists|i: int| 0 <= i < k && id_at(*map, #[trigger] positions@[i]) == t {
                    let i = choose|i: int| 0 <= i < k && id_at(*map, #[trigger] positions@[i]) == t;
                    assert(positions@.contains(positions@[i]));
                    assert(occupied(*map, positions@[i]));
                }
            }
        }
    }
}

/// Analyzer unifying the borders of tiles observed next to each other, and allowing every tile next to every
/// other whose touching sides share a border. It allows more than [`IdentityAnalyzer`]: tiles that *could* be
/// placed next to each other on the analyzed maps.
pub struct BorderAnalyzer<Data: IdentifiableTileData> {
    tiles: Vec<u64>,
    adjacency_rules: AdjacencyRules<Data>,
    borders: BorderTable,
}

impl<Data: IdentifiableTileData> BorderAnalyzer<Data> {
    /// Analyzer that has seen nothing.
    pub fn new() -> (a: Self)
        ensures
            a.analyzer_wf(),
            a.seen_tiles() == Seq::<u64>::empty(),
            forall|x: u64, d: GridDir, c: u64| !#[trigger] a.rules().allows(x, d, c),
            forall|t: u64, d: GridDir| #[trigger] a.border_table().border(t, d) is None,
            forall|t1: u64, d1: GridDir, t2: u64, d2: GridDir| !#[trigger] a.same_border(t1, d1, t2, d2),
    {
        Self { tiles: Vec::new(), adjacency_rules: AdjacencyRules::new(), borders: BorderTable::new() }
    }

    /// Table of the borders of the sides of the tile types seen.
    pub closed spec fn border_table(&self) -> BorderTable {
        self.borders
    }

    /// Side `d1` of tile type `t1` has a border shared with side `d2` of `t2`.
    pub open spec fn same_border(&self, t1: u64, d1: GridDir, t2: u64, d2: GridDir) -> bool {
        self.border_table().same_border(t1, d1, t2, d2)
    }

    /// Records that `neighbour` lies in `direction` of `tile`, unifying the borders of the touching sides.
    pub fn add_adjacency(&mut self, tile: &Data, neighbour: &Data, direction: &GridDir)
        requires
            old(self).analyzer_wf(),
        ensures
            final(self).analyzer_wf(),
            final(self).same_border(
                tile.spec_tile_type_id(),
                *direction,
                neighbour.spec_tile_type_id(),
                spec_opposite(*direction),
            ),
            BorderTable::border_step(
                old(self).border_table(),
                final(self).border_table(),
                tile.spec_tile_type_id(),
                neighbour.spec_tile_type_id(),
                *direction,
            ),
            forall|t1: u64, d1: GridDir, t2: u64, d2: GridDir|
                #[trigger] old(self).same_border(t1, d1, t2, d2) ==> final(self).same_border(t1, d1, t2, d2),
            final(self).rules() == old(self).rules(),
            final(self).seen_tiles() == old(self).seen_tiles(),
    {
        self.add_adjacency_raw(tile.tile_type_id(), neighbour.tile_type_id(), direction)
    }

    /// Records that `adjacent_id` lies in `direction` of `tile_id`, unifying the borders of the touching sides.
    pub fn add_adjacency_raw(&mut self, tile_id: u64, adjacent_id: u64, direction: &GridDir)
        requires
            old(self).analyzer_wf(),
        ensures
            final(self).analyzer_wf(),
            final(self).same_border(tile_id, *direction, adjacent_id, spec_opposite(*direction)),
            BorderTable::border_step(old(self).border_table(), final(self).border_table(), tile_id, adjacent_id, *direction),
            forall|t1: u64, d1: GridDir, t2: u64, d2: GridDir|
                #[trigger] old(self).same_border(t1, d1, t2, d2) ==> final(self).same_border(t1, d1, t2, d2),
            final(self).rules() == old(self).rules(),
            final(self).seen_tiles() == old(self).seen_tiles(),
    {
        let ghost prev = self.borders;
        self.borders.add_adjacency_raw(tile_id, adjacent_id, *direction);
        assert forall|t1: u64, d1: GridDir, t2: u64, d2: GridDir|
            #[trigger] old(self).same_border(t1, d1, t2, d2) implies self.same_border(t1, d1, t2, d2) by {
            assert(prev.same_border(t1, d1, t2, d2));
        }
    }

    /// Allows every tile next to every other where the touching sides share a border.
    pub fn prepare(&mut self)
        requires
            old(self).analyzer_wf(),
        ensures
            final(self).analyzer_wf(),
            forall|a: u64, d: GridDir, c: u64| #[trigger]
                final(self).rules().allows(a, d, c) <==> old(self).rules().allows(a, d, c)
                    || final(self).same_border(a, d, c, spec_opposite(d)),
            forall|t1: u64, d1: GridDir, t2: u64, d2: GridDir| #[trigger]
                final(self).same_border(t1, d1, t2, d2) == old(self).same_border(t1, d1, t2, d2),
            final(self).seen_tiles() == old(self).seen_tiles(),
            forall|a: u64, d: GridDir, c: u64|
                #[trigger] final(self).same_border(a, d, c, spec_opposite(d)) ==> final(self).rules().allows(a, d, c)
                    && final(self).rules().allows(c, spec_opposite(d), a),
            forall|a: u64, d: GridDir, c: u64| #[trigger]
                old(self).rules().allows(a, d, c) ==> final(self).rules().allows(a, d, c),
    {
        self.generate_adjacency_rules();
        proof {
            assert forall|a: u64, d: GridDir, c: u64|
                #[trigger] self.same_border(a, d, c, spec_opposite(d)) implies self.rules().allows(a, d, c)
                    && self.rules().allows(c, spec_opposite(d), a) by {
                crate::map::lemma_opposite_involutive(d);
                assert(self.same_border(c, spec_opposite(d), a, spec_opposite(spec_opposite(d))));
            }
        }
    }

    fn generate_adjacency_rules(&mut self)
        requires
            old(self).borders.wf(),
        ensures
            final(self).borders == old(self).borders,
            final(self).tiles == old(self).tiles,
            forall|a: u64, d: GridDir, c: u64| #[trigger]
                final(self).adjacency_rules.allows(a, d, c) <==> old(self).adjacency_rules.allows(a, d, c)
                    || old(self).borders.same_border(a, d, c, spec_opposite(d)),
    {
        let mut table = AdjacencyTable::new();
        std::mem::swap(&mut table, &mut self.adjacency_rules.inner);
        self.borders.generate_adjacency_rules(&mut table);
        std::mem::swap(&mut table, &mut self.adjacency_rules.inner);
    }

    fn analyze_tile_at_pos(&mut self, map: &GridMap2D<Data>, pos: GridPosition)
        requires
            old(self).analyzer_wf(),
            pos.z is None,
            occupied(*map, pos),
        ensures
            final(self).analyzer_wf(),
            forall|t: u64| #[trigger]
                final(self).tiles@.contains(t) <==> old(self).tiles@.contains(t) || t == id_at(*map, pos),
            forall|t1: u64, d1: GridDir, t2: u64, d2: GridDir|
                #[trigger] old(self).same_border(t1, d1, t2, d2) ==> final(self).same_border(t1, d1, t2, d2),
            forall|a: u64, d: GridDir, c: u64|
                observed_at(*map, pos, a, d, c) ==> #[trigger] final(self).same_border(a, d, c, spec_opposite(d)),
            final(self).adjacency_rules == old(self).adjacency_rules,
    {
        let tile = map.get_tile_at_position(&pos).unwrap();
        let id = tile.inner().tile_type_id();
        push_unique(&mut self.tiles, id);
        let ghost start = *self;
        let mut k: usize = 0;
        while k < 4
            invariant
                k <= 4,
                pos.z is None,
                occupied(*map, pos),
                id == id_at(*map, pos),
                spec_position_valid(map.spec_size(), pos),
                self.analyzer_wf(),
                self.tiles@ == start.tiles@,
                self.adjacency_rules == start.adjacency_rules,
                forall|t1: u64, d1: GridDir, t2: u64, d2: GridDir|
                    #[trigger] start.same_border(t1, d1, t2, d2) ==> self.same_border(t1, d1, t2, d2),
                forall|a: u64, d: GridDir, c: u64|
                    crate::map::dir_index(d) < k && observed_at(*map, pos, a, d, c) ==> #[trigger] self.same_border(
                        a,
                        d,
                        c,
                        spec_opposite(d),
                    ),
            decreases 4 - k,
        {
            let dir = GridDir::from_index(k);
            let ghost before = *self;
            if let Some(neighbour) = map.get_neighbour_at(&pos, &dir) {
                let nid = neighbour.inner().tile_type_id();
                self.add_adjacency_raw(id, nid, &dir);
            }
            k = k + 1;
            proof {
                assert forall|t1: u64, d1: GridDir, t2: u64, d2: GridDir|
                    #[trigger] start.same_border(t1, d1, t2, d2) implies self.same_border(t1, d1, t2, d2) by {
                    assert(before.same_border(t1, d1, t2, d2));
                }
                assert forall|a: u64, d: GridDir, c: u64|
                    crate::map::dir_index(d) < k && observed_at(*map, pos, a, d, c) implies #[trigger] self.same_border(
                        a,
                        d,
                        c,
                        spec_opposite(d),
                    ) by {
                    if crate::map::dir_index(d) < k - 1 {
                        assert(before.same_border(a, d, c, spec_opposite(d)));
                    }
                }
            }
        }
        assert forall|t1: u64, d1: GridDir, t2: u64, d2: GridDir|
            #[trigger] old(self).same_border(t1, d1, t2, d2) implies self.same_border(t1, d1, t2, d2) by {
            assert(start.same_border(t1, d1, t2, d2));
        }
    }
}

impl<Data: IdentifiableTileData> Analyzer<Data> for BorderAnalyzer<Data> {
    open spec fn analyzer_wf(&self) -> bool {
        self.seen_tiles().no_duplicates() && self.border_wf()
    }

    closed spec fn rules(&self) -> AdjacencyRules<Data> {
        self.adjacency_rules
    }

    closed spec fn seen_tiles(&self) -> Seq<u64> {
        self.tiles@
    }

    fn adjacency(&self) -> (r: &AdjacencyRules<Data>) {
        &self.adjacency_rules
    }

    fn tiles(&self) -> (r: &[u64]) {
        self.tiles.as_slice()
    }

    /// Analyzes the map, replacing the rules: afterwards exactly the tiles whose touching sides share a border may
    /// be placed next to each other.
    fn analyze(&mut self, map: &GridMap2D<Data>)
        ensures
            forall|a: u64, d: GridDir, c: u64| #[trigger]
                final(self).rules().allows(a, d, c) <==> final(self).same_border(a, d, c, spec_opposite(d)),
            final(self).rules().symmetric(),
    {
        self.adjacency_rules = AdjacencyRules::new();
        let positions = map.get_all_positions();
        let ghost start = *self;
        let mut k: usize = 0;
        while k < positions.len()
            invariant
                k <= positions@.len(),
                listing_of(positions@, |p: GridPosition| occupied(*map, p)),
                self.analyzer_wf(),
                self.adjacency_rules == start.adjacency_rules,
                forall|t: u64| #[trigger]
                    self.tiles@.contains(t) <==> start.tiles@.contains(t) || exists|i: int|
                        0 <= i < k && id_at(*map, #[trigger] positions@[i]) == t,
                forall|a: u64, d: GridDir, c: u64|
                    observed_among(*map, positions@, k as int, a, d, c) ==> #[trigger] self.same_border(
                        a,
                        d,
                        c,
                        spec_opposite(d),
                    ),
            decreases positions@.len() - k,
        {
            let pos = positions[k];
            proof {
                assert(positions@.contains(pos));
            }
            let ghost before = *self;
            self.analyze_tile_at_pos(map, pos);
            k = k + 1;
            proof {
                assert forall|a: u64, d: GridDir, c: u64|
                    observed_among(*map, positions@, k as int, a, d, c) implies #[trigger] self.same_border(
                        a,
                        d,
                        c,
                        spec_opposite(d),
                    ) by {
                    let i = choose|i: int| 0 <= i < k && #[trigger] observed_at(*map, positions@[i], a, d, c);
                    if i < k - 1 {
                        assert(observed_among(*map, positions@, k - 1, a, d, c));
                        assert(before.same_border(a, d, c, spec_opposite(d)));
                    }
                }
                assert forall|t: u64| #[trigger]
                    self.tiles@.contains(t) <==> start.tiles@.contains(t) || exists|i: int|
                        0 <= i < k && id_at(*map, #[trigger] positions@[i]) == t by {
                    if t == id_at(*map, pos) {
                        assert(id_at(*map, positions@[k - 1]) == t);
                    }
                    if exists|i: int| 0 <= i < k && id_at(*map, #[trigger] positions@[i]) == t {
                        let i = choose|i: int| 0 <= i < k && id_at(*map, #[trigger] positions@[i]) == t;
                        if i < k - 1 {
                            assert(exists|j: int| 0 <= j < k - 1 && id_at(*map, #[trigger] positions@[j]) == t);
                        }
                    }
                }
            }
        }
        let ghost before_rules = *self;
        self.generate_adjacency_rules();
        proof {
            assert forall|a: u64, d: GridDir, c: u64|
                observed(*map, a, d, c) implies #[trigger] self.rules().allows(a, d, c) by {
                lemma_listing_observed(*map, positions@, a, d, c);
                assert(before_rules.same_border(a, d, c, spec_opposite(d)));
            }
            assert forall|t: u64| #[trigger]
                self.seen_tiles().contains(t) <==> old(self).seen_tiles().contains(t) || map_has_id(*map, t) by {
                if map_has_id(*map, t) {
                    let p = choose|p: GridPosition| p.z is None && #[trigger] occupied(*map, p) && id_at(*map, p) == t;
                    assert(positions@.contains(p));
                    let i = positions@.index_of(p);
                    assert(id_at(*map, positions@[i]) == t);
                }
                if exists|i: int| 0 <= i < k && id_at(*map, #[trigger] positions@[i]) == t {
                    let i = choose|i: int| 0 <= i < k && id_at(*map, #[trigger] positions@[i]) == t;
                    assert(positions@.contains(positions@[i]));
                    assert(occupied(*map, positions@[i]));
                }
            }
            assert forall|a: u64, d: GridDir, c: u64| #[trigger]
                self.rules().allows(a, d, c) <==> self.rules().allows(c, spec_opposite(d), a) by {
                crate::map::lemma_opposite_involutive(d);
            }
        }
    }
}

impl<Data: IdentifiableTileData> BorderAnalyzer<Data> {
    /// The border table is consistent.
    pub closed spec fn border_wf(&self) -> bool {
        self.borders.wf()
    }
}

/// Weight of each tile type: how often it should occur in generated grids.
#[derive(Debug)]
pub struct FrequencyHints<Data: IdentifiableTileData> {
    weights: IdMap<u32>,
    id_type: std::marker::PhantomData<Data>,
}

/// Weights after counting one more tile of type `t` in each element of `ids`.
pub open spec fn counted(weights: Map<u64, int>, ids: Seq<u64>) -> Map<u64, int>
    decreases ids.len(),
{
    if ids.len() == 0 {
        weights
    } else {
        let w = counted(weights, ids.drop_last());
        let t = ids.last();
        w.insert(t, if w.contains_key(t) { w[t] + 1 } else { 1 })
    }
}

/// Weights as integers.
pub open spec fn as_int_weights(weights: Map<u64, u32>) -> Map<u64, int> {
    Map::new(|t: u64| weights.contains_key(t), |t: u64| weights[t] as int)
}

/// Tile types of the tiles at `positions` of `map`.
pub open spec fn ids_at<Data: IdentifiableTileData>(map: GridMap2D<Data>, positions: Seq<GridPosition>) -> Seq<u64> {
    positions.map_values(|p: GridPosition| id_at(map, p))
}

/// Counting never lowers a weight.
proof fn lemma_counted_grows(weights: Map<u64, int>, ids: Seq<u64>, t: u64)
    requires
        weights.contains_key(t),
    ensures
        counted(weights, ids).contains_key(t),
        counted(weights, ids)[t] >= weights[t],
    decreases ids.len(),
{
    if ids.len() > 0 {
        lemma_counted_grows(weights, ids.drop_last(), t);
    }
}

impl<Data: IdentifiableTileData> FrequencyHints<Data> {
    /// Weight of each tile type.
    pub closed spec fn weights(&self) -> Map<u64, u32> {
        self.weights@
    }

    /// Hints without any weight.
    pub fn new() -> (h: Self)
        ensures
            h.weights() == Map::<u64, u32>::empty(),
    {
        Self { weights: IdMap::new(), id_type: std::marker::PhantomData }
    }

    /// Hints with the given weights, bound to the identifiers.
    pub(crate) fn from_weights(weights: IdMap<u32>) -> (h: Self)
        ensures
            h.weights() == weights@,
    {
        Self { weights, id_type: std::marker::PhantomData }
    }

    /// Sets the weight of the type of `tile`.
    pub fn set_weight_for_tile(&mut self, tile: &Data, weight: u32)
        ensures
            final(self).weights() == old(self).weights().insert(tile.spec_tile_type_id(), weight),
    {
        self.weights.insert(tile.tile_type_id(), weight);
    }

    /// Counts one more tile of the type of `tile`: its weight grows by one, starting from zero.
    pub fn count_tile(&mut self, tile: &Data)
        requires
            old(self).weights().contains_key(tile.spec_tile_type_id()) ==> old(self).weights()[tile.spec_tile_type_id()]
                < u32::MAX,
        ensures
            as_int_weights(final(self).weights()) == counted(
                as_int_weights(old(self).weights()),
                seq![tile.spec_tile_type_id()],
            ),
    {
        let id = tile.tile_type_id();
        let ghost start = as_int_weights(self.weights@);
        let next = match self.weights.get(id) {
            Some(count) => *count + 1,
            None => 1,
        };
        self.weights.insert(id, next);
        proof {
            reveal_with_fuel(counted, 2);
            assert(seq![id].drop_last() =~= Seq::<u64>::empty());
            assert(as_int_weights(self.weights@) =~= counted(start, seq![id]));
        }
    }

    /// All weights, by tile type in increasing order.
    pub fn get_all_weights_cloned(&self) -> (w: IdMap<u32>)
        ensures
            w@ == self.weights(),
            w.consistent(),
    {
        let w = self.weights.clone();
        assert(w@ =~= self.weights@);
        w
    }

    /// Counts every tile of the map, in the order of its positions (see
    /// [`get_all_positions`](GridMap2D::get_all_positions)).
    pub fn analyze_grid_map(&mut self, map: &GridMap2D<Data>)
        requires
            forall|positions: Seq<GridPosition>, t: u64|
                listing_of(positions, |p: GridPosition| occupied(*map, p)) && #[trigger] counted(
                    as_int_weights(old(self).weights()),
                    ids_at(*map, positions),
                ).contains_key(t) ==> counted(as_int_weights(old(self).weights()), ids_at(*map, positions))[t]
                    <= u32::MAX,
        ensures
            exists|positions: Seq<GridPosition>|
                listing_of(positions, |p: GridPosition| occupied(*map, p)) && as_int_weights(final(self).weights())
                    == counted(as_int_weights(old(self).weights()), #[trigger] ids_at(*map, positions)),
    {
        let positions = map.get_all_positions();
        let ghost start = as_int_weights(self.weights@);
        let ghost all = ids_at(*map, positions@);
        proof {
            assert forall|t: u64| #[trigger] counted(start, all).contains_key(t) implies counted(start, all)[t]
                <= u32::MAX by {
                assert(counted(as_int_weights(old(self).weights()), ids_at(*map, positions@)).contains_key(t));
            }
            assert(all.take(0) =~= Seq::<u64>::empty());
            assert(as_int_weights(self.weights@) =~= start);
        }
        let mut k: usize = 0;
        while k < positions.len()
            invariant
                k <= positions@.len(),
                all == ids_at(*map, positions@),
                listing_of(positions@, |p: GridPosition| occupied(*map, p)),
                forall|t: u64|
                    #[trigger] counted(start, all).contains_key(t) ==> counted(start, all)[t] <= u32::MAX,
                as_int_weights(self.weights@) == counted(start, all.take(k as int)),
            decreases positions@.len() - k,
        {
            let pos = positions[k];
            proof {
                assert(positions@.contains(pos));
            }
            let tile = map.get_tile_at_position(&pos).unwrap();
            let id = tile.inner().tile_type_id();
            proof {
                assert(all.take(k + 1).drop_last() =~= all.take(k as int));
                assert(all.take(k + 1).last() == id);
                assert(all.take(k + 1) =~= all.take(k as int).push(id));
                assert(all =~= all.take(k + 1) + all.skip(k + 1));
                lemma_counted_prefix(start, all.take(k + 1), all.skip(k + 1), id);
            }
            let ghost prev = as_int_weights(self.weights@);
            self.count_tile(tile.inner());
            proof {
                reveal_with_fuel(counted, 2);
                assert(seq![id].drop_last() =~= Seq::<u64>::empty());
                assert(counted(prev, seq![id]) =~= counted(start, all.take(k + 1)));
            }
            k = k + 1;
        }
        proof {
            assert(all.take(k as int) =~= all);
        }
    }
}

/// The weight of `t` after counting a prefix of `ids` never exceeds its weight after counting all of `ids`.
pub proof fn lemma_counted_prefix(weights: Map<u64, int>, prefix: Seq<u64>, rest: Seq<u64>, t: u64)
    requires
        counted(weights, prefix).contains_key(t),
    ensures
        counted(weights, prefix + rest).contains_key(t),
        counted(weights, prefix)[t] <= counted(weights, prefix + rest)[t],
    decreases rest.len(),
{
    if rest.len() > 0 {
        lemma_counted_prefix(weights, prefix, rest.drop_last(), t);
        assert((prefix + rest).drop_last() =~= prefix + rest.drop_last());
    } else {
        assert(prefix + rest =~= prefix);
    }
}

impl<Data: IdentifiableTileData> Clone for FrequencyHints<Data> {
    fn clone(&self) -> (r: Self)
        ensures
            r.weights() == self.weights(),
    {
        let weights = self.weights.clone();
        proof {
            assert(weights@ =~= self.weights@);
        }
        Self { weights, id_type: std::marker::PhantomData }
    }
}

} // verus!
