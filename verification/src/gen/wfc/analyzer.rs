//! Analyzer of grid maps of tiles carrying their own position.
use vstd::prelude::*;

use crate::gen::adjacency::{AdjacencyAnalyzer, AdjacencyRules};
use crate::gen::collapse::singular::analyzer::{as_int_weights, counted};
use crate::gen::frequency::FrequencyRules;
use crate::id_map::IdMap;
use crate::map::{listing_of, neighbour_position, occupied, tile_at, GridDir, GridMap2D};
use crate::tile::identifiable::IdentifiableTile;
use crate::tile::GridPosition;

verus! {

/// Identifier of the tile at `p` of `map`.
pub open spec fn tile_id_at<T: IdentifiableTile>(map: GridMap2D<T>, p: GridPosition) -> u64 {
    tile_at(map, p)->0.spec_tile_id()
}

/// At position `p` of `map` lies a tile of identifier `a`, whose neighbour in direction `d` has identifier `c`.
pub open spec fn tile_observed_at<T: IdentifiableTile>(map: GridMap2D<T>, p: GridPosition, a: u64, d: GridDir, c: u64) -> bool {
    &&& p.z is None
    &&& occupied(map, p)
    &&& tile_id_at(map, p) == a
    &&& neighbour_position(map, p, d) is Some
    &&& tile_id_at(map, neighbour_position(map, p, d)->0) == c
}

/// Somewhere in `map` a tile of identifier `c` lies in direction `d` of a tile of identifier `a`.
pub open spec fn tile_observed<T: IdentifiableTile>(map: GridMap2D<T>, a: u64, d: GridDir, c: u64) -> bool {
    exists|p: GridPosition| #[trigger] tile_observed_at(map, p, a, d, c)
}

/// Identifiers of the tiles at `positions` of `map`.
pub open spec fn tile_ids_at<T: IdentifiableTile>(map: GridMap2D<T>, positions: Seq<GridPosition>) -> Seq<u64> {
    positions.map_values(|p: GridPosition| tile_id_at(map, p))
}

/// Analyzer allowing exactly the adjacencies observed on the analyzed maps, and counting their tiles.
pub struct WFCAnalyzer<T: IdentifiableTile> {
    tiles: IdMap<()>,
    frequency_rules: FrequencyRules<T>,
    adjacency_rules: AdjacencyRules<T>,
}

impl<T: IdentifiableTile> WFCAnalyzer<T> {
    /// Analyzer that has seen nothing.
    pub fn new() -> (a: Self)
        ensures
            a.seen_tiles() == Set::<u64>::empty(),
            a.counts() == Map::<u64, u32>::empty(),
            forall|x: u64, d: GridDir, c: u64| !#[trigger] a.rules().allows(x, d, c),
    {
        let a = Self { tiles: IdMap::new(), frequency_rules: FrequencyRules::new(), adjacency_rules: AdjacencyRules::new() };
        assert(a.tiles@.dom() =~= Set::<u64>::empty());
        a
    }

    /// Counts of the tiles seen, by identifier.
    pub closed spec fn counts(&self) -> Map<u64, u32> {
        self.frequency_rules.weights()
    }

    /// The frequency rules.
    pub closed spec fn frequency_rules(&self) -> FrequencyRules<T> {
        self.frequency_rules
    }

    fn analyze_tile_at_pos(&mut self, map: &GridMap2D<T>, pos: GridPosition)
        requires
            pos.z is None,
            occupied(*map, pos),
            old(self).counts().contains_key(tile_id_at(*map, pos)) ==> old(self).counts()[tile_id_at(*map, pos)] < u32::MAX,
        ensures
            final(self).tiles@.dom() == old(self).tiles@.dom().insert(tile_id_at(*map, pos)),
            as_int_weights(final(self).counts()) == counted(as_int_weights(old(self).counts()), seq![tile_id_at(*map, pos)]),
            forall|a: u64, d: GridDir, c: u64| #[trigger]
                final(self).adjacency_rules.allows(a, d, c) <==> old(self).adjacency_rules.allows(a, d, c)
                    || tile_observed_at(*map, pos, a, d, c),
    {
        let tile = map.get_tile_at_position(&pos).unwrap();
        let id = tile.inner().get_tile_id();
        self.tiles.insert(id, ());
        let ghost before_counts = as_int_weights(self.frequency_rules.weights());
        self.frequency_rules.count_tile(tile.inner());
        proof {
            reveal_with_fuel(counted, 2);
            assert(seq![id].drop_last() =~= Seq::<u64>::empty());
            assert(as_int_weights(self.frequency_rules.weights()) =~= counted(before_counts, seq![id]));
        }
        let ghost start = self.adjacency_rules;
        let ghost tiles_now = self.tiles@;
        let ghost counts_now = self.frequency_rules.weights();
        proof {
            crate::map::lemma_tile_at_valid(*map, pos);
        }
        let mut k: usize = 0;
        while k < 4
            invariant
                k <= 4,
                pos.z is None,
                occupied(*map, pos),
                id == tile_id_at(*map, pos),
                tile.spec_data() == tile_at(*map, pos)->0,
                crate::map::spec_position_valid(map.spec_size(), pos),
                self.tiles@ == tiles_now,
                self.frequency_rules.weights() == counts_now,
                forall|a: u64, d: GridDir, c: u64| #[trigger]
                    self.adjacency_rules.allows(a, d, c) <==> start.allows(a, d, c) || (crate::map::dir_index(d) < k
                        && tile_observed_at(*map, pos, a, d, c)),
            decreases 4 - k,
        {
            let dir = GridDir::from_index(k);
            if let Some(neighbour) = map.get_neighbour_at(&pos, &dir) {
                self.adjacency_rules.add_adjacency(tile.inner(), neighbour.inner(), dir);
            }
            k = k + 1;
        }
    }
}

impl<T: IdentifiableTile> AdjacencyAnalyzer<T> for WFCAnalyzer<T> {
    closed spec fn rules(&self) -> AdjacencyRules<T> {
        self.adjacency_rules
    }

    closed spec fn seen_tiles(&self) -> Set<u64> {
        self.tiles@.dom()
    }

    fn adjacency(&self) -> (r: &AdjacencyRules<T>) {
        &self.adjacency_rules
    }

    open spec fn spec_frequency(&self) -> FrequencyRules<T> {
        self.frequency_rules()
    }

    fn frequency(&self) -> (r: &FrequencyRules<T>) {
        &self.frequency_rules
    }

    fn tiles(&self) -> (r: Vec<u64>) {
        let r = self.tiles.keys();
        proof {
            assert forall|a: int, b: int| 0 <= a < b < r@.len() implies r@[a] != r@[b] by {
                assert(r@[a] < r@[b]);
            }
            assert forall|t: u64| r@.to_set().contains(t) <==> self.tiles@.dom().contains(t) by {
                assert(r@.contains(t) <==> self.tiles.spec_keys().contains(t));
            }
            assert(r@.to_set() =~= self.tiles@.dom());
        }
        r
    }

    /// Analyzes the map, in the order of its positions: every adjacency observed in it becomes allowed, every
    /// identifier in it is seen, and every tile is counted.
    /// Counting the tiles of the map cannot overflow.
    open spec fn can_analyze(&self, map: GridMap2D<T>) -> bool {
        forall|positions: Seq<GridPosition>, t: u64|
            listing_of(positions, |p: GridPosition| occupied(map, p)) && #[trigger] counted(
                as_int_weights(self.counts()),
                tile_ids_at(map, positions),
            ).contains_key(t) ==> counted(as_int_weights(self.counts()), tile_ids_at(map, positions))[t] <= u32::MAX
    }

    fn analyze(&mut self, map: &GridMap2D<T>)
        ensures
            forall|a: u64, d: GridDir, c: u64| #[trigger]
                final(self).rules().allows(a, d, c) <==> old(self).rules().allows(a, d, c) || tile_observed(*map, a, d, c),
            forall|t: u64| #[trigger]
                final(self).seen_tiles().contains(t) <==> old(self).seen_tiles().contains(t) || exists|p: GridPosition|
                    p.z is None && #[trigger] occupied(*map, p) && tile_id_at(*map, p) == t,
            exists|positions: Seq<GridPosition>|
                listing_of(positions, |p: GridPosition| occupied(*map, p)) && as_int_weights(final(self).counts())
                    == counted(as_int_weights(old(self).counts()), #[trigger] tile_ids_at(*map, positions)),
    {
        let positions = map.get_all_positions();
        let ghost start = self.adjacency_rules;
        let ghost start_tiles = self.tiles@.dom();
        let ghost start_counts = as_int_weights(self.frequency_rules.weights());
        let ghost all = tile_ids_at(*map, positions@);
        proof {
            assert forall|t: u64| #[trigger] counted(start_counts, all).contains_key(t) implies counted(start_counts, all)[t]
                <= u32::MAX by {
                assert(counted(as_int_weights(old(self).counts()), tile_ids_at(*map, positions@)).contains_key(t));
            }
            assert(all.take(0) =~= Seq::<u64>::empty());
        }
        let mut k: usize = 0;
        while k < positions.len()
            invariant
                k <= positions@.len(),
                all == tile_ids_at(*map, positions@),
                listing_of(positions@, |p: GridPosition| occupied(*map, p)),
                forall|t: u64| #[trigger] counted(start_counts, all).contains_key(t) ==> counted(start_counts, all)[t] <= u32::MAX,
                as_int_weights(self.frequency_rules.weights()) == counted(start_counts, all.take(k as int)),
                forall|t: u64| #[trigger]
                    self.tiles@.dom().contains(t) <==> start_tiles.contains(t) || exists|i: int|
                        0 <= i < k && tile_id_at(*map, #[trigger] positions@[i]) == t,
                forall|a: u64, d: GridDir, c: u64| #[trigger]
                    self.adjacency_rules.allows(a, d, c) <==> start.allows(a, d, c) || exists|i: int|
                        0 <= i < k && #[trigger] tile_observed_at(*map, positions@[i], a, d, c),
            decreases positions@.len() - k,
        {
            let pos = positions[k];
            proof {
                assert(positions@.contains(pos));
                assert(all.take(k + 1) =~= all.take(k as int).push(tile_id_at(*map, pos)));
                assert(all =~= all.take(k + 1) + all.skip(k + 1));
                crate::gen::collapse::singular::analyzer::lemma_counted_prefix(
                    start_counts,
                    all.take(k + 1),
                    all.skip(k + 1),
                    tile_id_at(*map, pos),
                );
                assert(all.take(k + 1).drop_last() =~= all.take(k as int));
            }
            let ghost prev = as_int_weights(self.frequency_rules.weights());
            let ghost prev_rules = self.adjacency_rules;
            let ghost prev_tiles = self.tiles@.dom();
            self.analyze_tile_at_pos(map, pos);
            k = k + 1;
            proof {
                reveal_with_fuel(counted, 2);
                assert(seq![tile_id_at(*map, pos)].drop_last() =~= Seq::<u64>::empty());
                assert(counted(prev, seq![tile_id_at(*map, pos)]) =~= counted(start_counts, all.take(k as int)));
                assert forall|a: u64, d: GridDir, c: u64| #[trigger]
                    self.adjacency_rules.allows(a, d, c) <==> start.allows(a, d, c) || exists|i: int|
                        0 <= i < k && #[trigger] tile_observed_at(*map, positions@[i], a, d, c) by {
                    if tile_observed_at(*map, pos, a, d, c) {
                        assert(tile_observed_at(*map, positions@[k - 1], a, d, c));
                    }
                    if exists|i: int| 0 <= i < k && #[trigger] tile_observed_at(*map, positions@[i], a, d, c) {
                        let i = choose|i: int| 0 <= i < k && #[trigger] tile_observed_at(*map, positions@[i], a, d, c);
                        if i < k - 1 {
                            assert(prev_rules.allows(a, d, c));
                        }
                    }
                }
                assert forall|t: u64| #[trigger]
                    self.tiles@.dom().contains(t) <==> start_tiles.contains(t) || exists|i: int|
                        0 <= i < k && tile_id_at(*map, #[trigger] positions@[i]) == t by {
                    if t == tile_id_at(*map, pos) {
                        assert(tile_id_at(*map, positions@[k - 1]) == t);
                    }
                    if exists|i: int| 0 <= i < k && tile_id_at(*map, #[trigger] positions@[i]) == t {
                        let i = choose|i: int| 0 <= i < k && tile_id_at(*map, #[trigger] positions@[i]) == t;
                        if i < k - 1 {
                            assert(prev_tiles.contains(t));
                        }
                    }
                }
            }
        }
        proof {
            assert(all.take(k as int) =~= all);
            assert forall|a: u64, d: GridDir, c: u64| #[trigger]
                self.rules().allows(a, d, c) <==> start.allows(a, d, c) || tile_observed(*map, a, d, c) by {
                if tile_observed(*map, a, d, c) {
                    let p = choose|p: GridPosition| #[trigger] tile_observed_at(*map, p, a, d, c);
                    assert(positions@.contains(p));
                    let i = positions@.index_of(p);
                    assert(tile_observed_at(*map, positions@[i], a, d, c));
                }
            }
            assert forall|t: u64| #[trigger]
                self.seen_tiles().contains(t) <==> start_tiles.contains(t) || exists|p: GridPosition|
                    p.z is None && #[trigger] occupied(*map, p) && tile_id_at(*map, p) == t by {
                if exists|p: GridPosition| p.z is None && #[trigger] occupied(*map, p) && tile_id_at(*map, p) == t {
                    let p = choose|p: GridPosition| p.z is None && #[trigger] occupied(*map, p) && tile_id_at(*map, p) == t;
                    assert(positions@.contains(p));
                    let i = positions@.index_of(p);
                    assert(tile_id_at(*map, positions@[i]) == t);
                }
                if exists|i: int| 0 <= i < k && tile_id_at(*map, #[trigger] positions@[i]) == t {
                    let i = choose|i: int| 0 <= i < k && tile_id_at(*map, #[trigger] positions@[i]) == t;
                    assert(positions@.contains(positions@[i]));
                }
            }
        }
    }
}

} // verus!
