//! Weights and adjacency rules of the patterns found in sample maps, and the analyzer gathering them.
use vstd::prelude::*;

use crate::gen::collapse::overlap::pattern::{
    collection_extended, grid_of_map, pattern_tile, OverlappingPattern, OverlappingPattern3D, OverlappingPatternGrid,
    PatternCollection, PatternTileData,
};
use crate::gen::collapse::rules::pattern::{block_fits, fitting_ids};
use crate::gen::collapse::AdjacencyTable;
use crate::map::{dir_index, GridDir};
use crate::tile::identifiable::collection::IdentTileCollection;
use crate::gen::collapse::singular::analyzer::{as_int_weights, counted, lemma_counted_prefix};
use crate::id_map::IdMap;
use crate::map::{listing_of, occupied, tile_at, GridMap2D};
use crate::tile::identifiable::IdentifiableTileData;
use crate::tile::{GridPosition, TileContainer};

verus! {

/// Identifiers of the patterns starting at the positions `s` of a grid of pattern tiles, in their order.
pub open spec fn grid_pattern_ids(g: GridMap2D<PatternTileData>, s: Seq<GridPosition>) -> Seq<u64>
    decreases s.len(),
{
    if s.len() == 0 {
        Seq::empty()
    } else {
        let earlier = grid_pattern_ids(g, s.drop_last());
        match tile_at(g, s.last()) {
            Some(PatternTileData::WithPattern { tile_type_id: _, pattern_id }) => earlier.push(pattern_id),
            _ => earlier,
        }
    }
}

/// The identifiers of the patterns starting at a prefix of the positions begin those starting at all of them.
proof fn lemma_grid_ids_is_prefix(g: GridMap2D<PatternTileData>, s: Seq<GridPosition>, k: int)
    requires
        0 <= k <= s.len(),
    ensures
        grid_pattern_ids(g, s.take(k)).len() <= grid_pattern_ids(g, s).len(),
        grid_pattern_ids(g, s).take(grid_pattern_ids(g, s.take(k)).len() as int) == grid_pattern_ids(g, s.take(k)),
    decreases s.len(),
{
    if k == s.len() {
        assert(s.take(k) =~= s);
        let all = grid_pattern_ids(g, s);
        assert(all.take(all.len() as int) =~= all);
    } else {
        let shorter = s.drop_last();
        lemma_grid_ids_is_prefix(g, shorter, k);
        assert(shorter.take(k) =~= s.take(k));
        let part = grid_pattern_ids(g, s.take(k));
        let mid = grid_pattern_ids(g, shorter);
        let all = grid_pattern_ids(g, s);
        match tile_at(g, s.last()) {
            Some(PatternTileData::WithPattern { tile_type_id: _, pattern_id }) => {
                assert(all == mid.push(pattern_id));
                assert(all.take(part.len() as int) =~= mid.take(part.len() as int));
            },
            _ => {},
        }
    }
}

/// Weights of the patterns, by identifier: how often each pattern was found in sample maps, or as set.
#[derive(Debug)]
pub struct PatternFrequencyHints<const X: usize, const Y: usize, const Z: usize, Data> {
    weights: IdMap<u32>,
    id_type: std::marker::PhantomData<Data>,
}

impl<const X: usize, const Y: usize, const Z: usize, Data: IdentifiableTileData> PatternFrequencyHints<X, Y, Z, Data> {
    /// Weight of each pattern, by identifier.
    pub closed spec fn spec_weights(&self) -> Map<u64, u32> {
        self.weights@
    }

    /// Hints without any weight.
    pub fn new() -> (h: Self)
        ensures
            h.spec_weights() == Map::<u64, u32>::empty(),
    {
        Self { weights: IdMap::new(), id_type: std::marker::PhantomData }
    }

    /// Sets the weight of `pattern`.
    pub fn set_weight_for_pattern(&mut self, pattern: &OverlappingPattern3D<X, Y, Z>, weight: u32)
        ensures
            final(self).spec_weights() == old(self).spec_weights().insert(
                crate::gen::collapse::overlap::pattern::OverlappingPattern::spec_pattern_id(pattern),
                weight,
            ),
    {
        let id = crate::gen::collapse::overlap::pattern::OverlappingPattern::pattern_id(pattern);
        self.weights.insert(id, weight);
    }

    /// Counts one more occurrence of the pattern with `pattern_id`.
    pub(crate) fn count_pattern(&mut self, pattern_id: u64)
        requires
            old(self).spec_weights().contains_key(pattern_id) ==> old(self).spec_weights()[pattern_id] < u32::MAX,
        ensures
            final(self).spec_weights() == old(self).spec_weights().insert(
                pattern_id,
                if old(self).spec_weights().contains_key(pattern_id) {
                    (old(self).spec_weights()[pattern_id] + 1) as u32
                } else {
                    1
                },
            ),
    {
        let n: u32 = match self.weights.get(pattern_id) {
            Some(count) => *count + 1,
            None => 1,
        };
        self.weights.insert(pattern_id, n);
    }

    /// Copy of the weights.
    pub(crate) fn get_all_weights_cloned(&self) -> (w: IdMap<u32>)
        ensures
            w@ == self.spec_weights(),
    {
        let w = self.weights.clone();
        proof {
            assert(w@ =~= self.spec_weights());
        }
        w
    }

    /// Weight of the pattern with `pattern_id`; `0` for a pattern without one.
    pub fn get_weight_for_pattern(&self, pattern_id: u64) -> (w: u32)
        ensures
            w == if self.spec_weights().contains_key(pattern_id) {
                self.spec_weights()[pattern_id]
            } else {
                0
            },
    {
        match self.weights.get(pattern_id) {
            Some(w) => *w,
            None => 0,
        }
    }

    /// Counting the patterns starting in the grid cannot overflow.
    pub open spec fn can_analyze(&self, g: GridMap2D<PatternTileData>) -> bool {
        forall|s: Seq<GridPosition>, t: u64|
            listing_of(s, |p: GridPosition| occupied(g, p)) && #[trigger] counted(
                as_int_weights(self.spec_weights()),
                grid_pattern_ids(g, s),
            ).contains_key(t) ==> counted(as_int_weights(self.spec_weights()), grid_pattern_ids(g, s))[t] <= u32::MAX
    }

    /// Counts each pattern starting in the grid, going through its tiles in order of position.
    pub fn analyze_pattern_grid(&mut self, grid: &OverlappingPatternGrid<OverlappingPattern3D<X, Y, Z>>)
        requires
            old(self).can_analyze(grid.spec_inner()),
        ensures
            exists|s: Seq<GridPosition>|
                listing_of(s, |p: GridPosition| occupied(grid.spec_inner(), p)) && as_int_weights(final(self).spec_weights())
                    == counted(as_int_weights(old(self).spec_weights()), #[trigger] grid_pattern_ids(grid.spec_inner(), s)),
    {
        let tiles = grid.inner().iter_tiles();
        let ghost g = grid.spec_inner();
        let ghost s = tiles@.map_values(|t: crate::tile::GridTileRef<'_, PatternTileData>| t.spec_grid_position());
        let ghost start = as_int_weights(self.weights@);
        let ghost all = grid_pattern_ids(g, s);
        proof {
            assert forall|t: u64| #[trigger] counted(start, all).contains_key(t) implies counted(start, all)[t] <= u32::MAX by {
                assert(listing_of(s, |p: GridPosition| occupied(g, p)));
                assert(counted(as_int_weights(old(self).spec_weights()), grid_pattern_ids(g, s)).contains_key(t));
            }
            assert(s.take(0) =~= Seq::<GridPosition>::empty());
            assert(as_int_weights(self.weights@) =~= counted(start, grid_pattern_ids(g, s.take(0))));
        }
        let mut k: usize = 0;
        while k < tiles.len()
            invariant
                k <= tiles@.len(),
                s.len() == tiles@.len(),
                g == grid.spec_inner(),
                s == tiles@.map_values(|t: crate::tile::GridTileRef<'_, PatternTileData>| t.spec_grid_position()),
                listing_of(s, |p: GridPosition| occupied(g, p)),
                forall|i: int| 0 <= i < tiles@.len() ==> Some(#[trigger] tiles@[i].spec_data()) == tile_at(g, tiles@[i].spec_grid_position()),
                all == grid_pattern_ids(g, s),
                forall|t: u64| #[trigger] counted(start, all).contains_key(t) ==> counted(start, all)[t] <= u32::MAX,
                as_int_weights(self.weights@) == counted(start, grid_pattern_ids(g, s.take(k as int))),
            decreases tiles@.len() - k,
        {
            let tile = &tiles[k];
            proof {
                assert(s.take(k + 1).drop_last() =~= s.take(k as int));
                assert(s.take(k + 1).last() == tiles@[k as int].spec_grid_position());
            }
            match tile.inner() {
                PatternTileData::WithPattern { tile_type_id: _, pattern_id } => {
                    let id = *pattern_id;
                    let ghost prefix = grid_pattern_ids(g, s.take(k + 1));
                    proof {
                        assert(prefix == grid_pattern_ids(g, s.take(k as int)).push(id));
                        lemma_grid_ids_is_prefix(g, s, k + 1);
                        assert(all =~= prefix + all.skip(prefix.len() as int));
                        lemma_counted_prefix(start, prefix, all.skip(prefix.len() as int), id);
                        assert(prefix.drop_last() =~= grid_pattern_ids(g, s.take(k as int)));
                        assert(counted(start, prefix).contains_key(id));
                    }
                    self.count_pattern(id);
                    proof {
                        assert(as_int_weights(self.weights@) =~= counted(start, prefix));
                    }
                },
                PatternTileData::OnlyId { tile_type_id: _ } => {
                    proof {
                        assert(grid_pattern_ids(g, s.take(k + 1)) == grid_pattern_ids(g, s.take(k as int)));
                    }
                },
            }
            k = k + 1;
        }
        proof {
            assert(s.take(k as int) =~= s);
        }
    }
}

impl<const X: usize, const Y: usize, const Z: usize, Data: IdentifiableTileData> Default for PatternFrequencyHints<X, Y, Z, Data> {
    fn default() -> (h: Self)
        ensures
            h.spec_weights() == Map::<u64, u32>::empty(),
    {
        Self::new()
    }
}

/// Pattern `adj` of the collection can neighbour its pattern `el` in direction `d`.
pub open spec fn patterns_compatible<const X: usize, const Y: usize, const Z: usize>(
    c: PatternCollection<OverlappingPattern3D<X, Y, Z>>,
    el: u64,
    d: GridDir,
    adj: u64,
) -> bool {
    &&& c.patterns().contains_key(el)
    &&& c.patterns().contains_key(adj)
    &&& c.patterns()[el].spec_compatible_with(&c.patterns()[adj], d)
}

/// Pair `(el, d, adj)` comes before the step at `(i, j, m)` when going through the identifiers `keys` for `el`,
/// then for `adj`, then through the directions.
spec fn pair_done(keys: Seq<u64>, el: u64, d: GridDir, adj: u64, i: int, j: int, m: int) -> bool {
    exists|a: int, b: int|
        0 <= a < keys.len() && 0 <= b < keys.len() && #[trigger] keys[a] == el && #[trigger] keys[b] == adj && (a < i || (a
            == i && (b < j || (b == j && dir_index(d) < m))))
}

/// One more direction is done at `(i, j)`.
proof fn lemma_done_step(keys: Seq<u64>, e: u64, d: GridDir, adj: u64, i: int, j: int, m: int)
    requires
        0 <= i < keys.len(),
        0 <= j < keys.len(),
        0 <= m < 4,
    ensures
        pair_done(keys, e, d, adj, i, j, m + 1) <==> pair_done(keys, e, d, adj, i, j, m) || (e == keys[i] && adj == keys[j]
            && dir_index(d) == m),
{
    if e == keys[i] && adj == keys[j] && dir_index(d) == m {
        assert(keys[i] == e && keys[j] == adj);
    }
    if pair_done(keys, e, d, adj, i, j, m) {
        let (a, b) = choose|a: int, b: int|
            0 <= a < keys.len() && 0 <= b < keys.len() && #[trigger] keys[a] == e && #[trigger] keys[b] == adj && (a < i || (a
                == i && (b < j || (b == j && dir_index(d) < m))));
        assert(keys[a] == e && keys[b] == adj);
    }
}

/// Having gone through all directions for `(i, j)` is having gone to `(i, j + 1)`.
proof fn lemma_done_next_adj(keys: Seq<u64>, e: u64, d: GridDir, adj: u64, i: int, j: int)
    ensures
        pair_done(keys, e, d, adj, i, j, 4) <==> pair_done(keys, e, d, adj, i, j + 1, 0),
{
    if pair_done(keys, e, d, adj, i, j, 4) {
        let (a, b) = choose|a: int, b: int|
            0 <= a < keys.len() && 0 <= b < keys.len() && #[trigger] keys[a] == e && #[trigger] keys[b] == adj && (a < i || (a
                == i && (b < j || (b == j && dir_index(d) < 4))));
        assert(keys[a] == e && keys[b] == adj);
    }
    if pair_done(keys, e, d, adj, i, j + 1, 0) {
        let (a, b) = choose|a: int, b: int|
            0 <= a < keys.len() && 0 <= b < keys.len() && #[trigger] keys[a] == e && #[trigger] keys[b] == adj && (a < i || (a
                == i && (b < j + 1 || (b == j + 1 && dir_index(d) < 0))));
        assert(keys[a] == e && keys[b] == adj);
    }
}

/// Having gone through all identifiers for `i` is having gone to `i + 1`.
proof fn lemma_done_next_el(keys: Seq<u64>, e: u64, d: GridDir, adj: u64, i: int)
    ensures
        pair_done(keys, e, d, adj, i, keys.len() as int, 0) <==> pair_done(keys, e, d, adj, i + 1, 0, 0),
{
    if pair_done(keys, e, d, adj, i, keys.len() as int, 0) {
        let (a, b) = choose|a: int, b: int|
            0 <= a < keys.len() && 0 <= b < keys.len() && #[trigger] keys[a] == e && #[trigger] keys[b] == adj && (a < i || (a
                == i && (b < keys.len() || (b == keys.len() && dir_index(d) < 0))));
        assert(keys[a] == e && keys[b] == adj);
    }
    if pair_done(keys, e, d, adj, i + 1, 0, 0) {
        let (a, b) = choose|a: int, b: int|
            0 <= a < keys.len() && 0 <= b < keys.len() && #[trigger] keys[a] == e && #[trigger] keys[b] == adj && (a < i + 1 || (a
                == i + 1 && (b < 0 || (b == 0 && dir_index(d) < 0))));
        assert(keys[a] == e && keys[b] == adj);
    }
}

/// Having gone through all identifiers is having gone through every pair of them.
proof fn lemma_done_all(keys: Seq<u64>, e: u64, d: GridDir, adj: u64)
    ensures
        pair_done(keys, e, d, adj, keys.len() as int, 0, 0) <==> keys.contains(e) && keys.contains(adj),
{
    if keys.contains(e) && keys.contains(adj) {
        let a = keys.index_of(e);
        let b = keys.index_of(adj);
        assert(keys[a] == e && keys[b] == adj);
    }
    if pair_done(keys, e, d, adj, keys.len() as int, 0, 0) {
        let (a, b) = choose|a: int, b: int|
            0 <= a < keys.len() && 0 <= b < keys.len() && #[trigger] keys[a] == e && #[trigger] keys[b] == adj && (a < keys.len()
                || (a == keys.len() && (b < 0 || (b == 0 && dir_index(d) < 0))));
        assert(keys.contains(keys[a]) && keys.contains(keys[b]));
    }
}

/// Nothing is done before the first step.
proof fn lemma_done_none(keys: Seq<u64>, e: u64, d: GridDir, adj: u64)
    ensures
        !pair_done(keys, e, d, adj, 0, 0, 0),
{
}

/// Adjacency rules of the patterns: which pattern can neighbour which in each direction.
#[derive(Debug)]
pub struct PatternAdjacencyRules<const X: usize, const Y: usize, const Z: usize, Data> {
    inner: AdjacencyTable,
    data_type: std::marker::PhantomData<Data>,
}

impl<const X: usize, const Y: usize, const Z: usize, Data: IdentifiableTileData> PatternAdjacencyRules<X, Y, Z, Data> {
    /// Table of the rules.
    pub closed spec fn table(&self) -> AdjacencyTable {
        self.inner
    }

    /// Rules allowing nothing.
    pub fn new() -> (r: Self)
        ensures
            forall|el: u64| !#[trigger] r.table().has_element(el),
            forall|el: u64, d: GridDir, adj: u64| !#[trigger] r.table().allows(el, d, adj),
    {
        Self { inner: AdjacencyTable::new(), data_type: std::marker::PhantomData }
    }

    /// Table of the rules.
    pub fn as_ref(&self) -> (t: &AdjacencyTable)
        ensures
            *t == self.table(),
    {
        &self.inner
    }

    /// Allows each pair of patterns of the collection, in each direction in which they can neighbour each other.
    pub fn analyze_collection(&mut self, collection: &PatternCollection<OverlappingPattern3D<X, Y, Z>>)
        ensures
            forall|el: u64| #[trigger] final(self).table().has_element(el) <==> old(self).table().has_element(el)
                || exists|d: GridDir, adj: u64| patterns_compatible(*collection, el, d, adj),
            forall|el: u64, d: GridDir, adj: u64| #[trigger] final(self).table().allows(el, d, adj) <==> old(self).table().allows(el, d, adj)
                || patterns_compatible(*collection, el, d, adj),
    {
        let table = collection.inner();
        let keys = table.keys();
        let ghost ks = keys@;
        let ghost start = self.inner;
        proof {
            assert forall|e: u64, d: GridDir, a: u64| !#[trigger] pair_done(ks, e, d, a, 0, 0, 0) by {
                lemma_done_none(ks, e, d, a);
            }
        }
        let mut i: usize = 0;
        while i < keys.len()
            invariant
                i <= keys@.len(),
                ks == keys@,
                table@ == collection.patterns(),
                table.consistent(),
                ks == table.spec_keys(),
                forall|el: u64, d: GridDir, adj: u64| #[trigger] self.inner.allows(el, d, adj) <==> start.allows(el, d, adj)
                    || (patterns_compatible(*collection, el, d, adj) && pair_done(ks, el, d, adj, i as int, 0, 0)),
                forall|el: u64| #[trigger] self.inner.has_element(el) <==> start.has_element(el)
                    || exists|d: GridDir, adj: u64| patterns_compatible(*collection, el, d, adj) && pair_done(ks, el, d, adj, i as int, 0, 0),
            decreases keys@.len() - i,
        {
            let el = keys[i];
            let pat_outer = table.value_at(i);
            let mut j: usize = 0;
            while j < keys.len()
                invariant
                    i < keys@.len(),
                    j <= keys@.len(),
                    ks == keys@,
                    el == ks[i as int],
                    table@ == collection.patterns(),
                    table.consistent(),
                    ks == table.spec_keys(),
                    *pat_outer == collection.patterns()[el],
                    forall|e: u64, d: GridDir, adj: u64| #[trigger] self.inner.allows(e, d, adj) <==> start.allows(e, d, adj)
                        || (patterns_compatible(*collection, e, d, adj) && pair_done(ks, e, d, adj, i as int, j as int, 0)),
                    forall|e: u64| #[trigger] self.inner.has_element(e) <==> start.has_element(e)
                        || exists|d: GridDir, adj: u64| patterns_compatible(*collection, e, d, adj) && pair_done(ks, e, d, adj, i as int, j as int, 0),
                decreases keys@.len() - j,
            {
                let adj_id = keys[j];
                let pat_inner = table.value_at(j);
                let mut m: usize = 0;
                while m < 4
                    invariant
                        i < keys@.len(),
                        j < keys@.len(),
                        m <= 4,
                        ks == keys@,
                        el == ks[i as int],
                        adj_id == ks[j as int],
                        table@ == collection.patterns(),
                        table.consistent(),
                        ks == table.spec_keys(),
                        *pat_outer == collection.patterns()[el],
                        *pat_inner == collection.patterns()[adj_id],
                        forall|e: u64, d: GridDir, adj: u64| #[trigger] self.inner.allows(e, d, adj) <==> start.allows(e, d, adj)
                            || (patterns_compatible(*collection, e, d, adj) && pair_done(ks, e, d, adj, i as int, j as int, m as int)),
                        forall|e: u64| #[trigger] self.inner.has_element(e) <==> start.has_element(e)
                            || exists|d: GridDir, adj: u64| patterns_compatible(*collection, e, d, adj) && pair_done(ks, e, d, adj, i as int, j as int, m as int),
                    decreases 4 - m,
                {
                    let direction = GridDir::from_index(m);
                    let ghost before = self.inner;
                    let compatible = pat_outer.is_compatible_with(pat_inner, direction);
                    proof {
                        assert(ks.contains(el) && ks.contains(adj_id));
                        assert(compatible == patterns_compatible(*collection, el, direction, adj_id));
                    }
                    if compatible {
                        self.inner.insert_adjacency(el, direction, adj_id);
                    }
                    proof {
                        assert forall|e: u64, d: GridDir, a: u64|
                            #[trigger] pair_done(ks, e, d, a, i as int, j as int, m + 1) <==> pair_done(ks, e, d, a, i as int, j as int, m as int)
                                || (e == el && a == adj_id && d == direction) by {
                            lemma_done_step(ks, e, d, a, i as int, j as int, m as int);
                        }
                        assert forall|e: u64, d: GridDir, a: u64| #[trigger] self.inner.allows(e, d, a) <==> start.allows(e, d, a)
                            || (patterns_compatible(*collection, e, d, a) && pair_done(ks, e, d, a, i as int, j as int, m + 1)) by {
                            assert(before.allows(e, d, a) <==> start.allows(e, d, a) || (patterns_compatible(*collection, e, d, a)
                                && pair_done(ks, e, d, a, i as int, j as int, m as int)));
                        }
                        assert forall|e: u64| #[trigger] self.inner.has_element(e) <==> start.has_element(e)
                            || exists|d: GridDir, a: u64| patterns_compatible(*collection, e, d, a) && pair_done(ks, e, d, a, i as int, j as int, m + 1) by {
                            assert(before.has_element(e) <==> start.has_element(e)
                                || exists|d: GridDir, a: u64| patterns_compatible(*collection, e, d, a) && pair_done(ks, e, d, a, i as int, j as int, m as int));
                            if compatible && e == el {
                                assert(pair_done(ks, el, direction, adj_id, i as int, j as int, m + 1));
                            }
                            if exists|d: GridDir, a: u64| patterns_compatible(*collection, e, d, a) && pair_done(ks, e, d, a, i as int, j as int, m + 1) {
                                let (d, a) = choose|d: GridDir, a: u64| patterns_compatible(*collection, e, d, a) && pair_done(ks, e, d, a, i as int, j as int, m + 1);
                                if !pair_done(ks, e, d, a, i as int, j as int, m as int) {
                                    assert(e == el && a == adj_id && d == direction);
                                }
                            }
                        }
                    }
                    m = m + 1;
                }
                proof {
                    assert forall|e: u64, d: GridDir, a: u64|
                        #[trigger] pair_done(ks, e, d, a, i as int, j as int, 4) <==> pair_done(ks, e, d, a, i as int, j + 1, 0) by {
                        lemma_done_next_adj(ks, e, d, a, i as int, j as int);
                    }
                }
                j = j + 1;
            }
            proof {
                assert forall|e: u64, d: GridDir, a: u64|
                    #[trigger] pair_done(ks, e, d, a, i as int, ks.len() as int, 0) <==> pair_done(ks, e, d, a, i + 1, 0, 0) by {
                    lemma_done_next_el(ks, e, d, a, i as int);
                }
            }
            i = i + 1;
        }
        proof {
            assert forall|e: u64, d: GridDir, a: u64|
                #[trigger] pair_done(ks, e, d, a, ks.len() as int, 0, 0) <==> ks.contains(e) && ks.contains(a) by {
                lemma_done_all(ks, e, d, a);
            }
            assert forall|e: u64, d: GridDir, a: u64| #[trigger] patterns_compatible(*collection, e, d, a) implies pair_done(
                ks,
                e,
                d,
                a,
                ks.len() as int,
                0,
                0,
            ) by {
                assert(ks.contains(e) && ks.contains(a));
            }
        }
    }
}

impl<const X: usize, const Y: usize, const Z: usize, Data: IdentifiableTileData> Default for PatternAdjacencyRules<X, Y, Z, Data> {
    fn default() -> (r: Self)
        ensures
            forall|el: u64| !#[trigger] r.table().has_element(el),
            forall|el: u64, d: GridDir, adj: u64| !#[trigger] r.table().allows(el, d, adj),
    {
        Self::new()
    }
}

/// In the pattern grid of a map, the patterns starting at positions of the map holding tiles are those of the
/// blocks fitting there.
proof fn lemma_grid_ids_are_fitting<Data: IdentifiableTileData>(
    g: GridMap2D<PatternTileData>,
    map: GridMap2D<Data>,
    s: Seq<GridPosition>,
    w: int,
    h: int,
    d: int,
)
    requires
        grid_of_map(g, map, w, h, d),
        forall|i: int| 0 <= i < s.len() ==> (#[trigger] s[i]).z is None && occupied(map, s[i]),
    ensures
        grid_pattern_ids(g, s) == fitting_ids(map, s, w, h, d),
    decreases s.len(),
{
    if s.len() > 0 {
        let shorter = s.drop_last();
        assert forall|i: int| 0 <= i < shorter.len() implies (#[trigger] shorter[i]).z is None && occupied(map, shorter[i]) by {
            assert(shorter[i] == s[i]);
        }
        lemma_grid_ids_are_fitting(g, map, shorter, w, h, d);
        let p = s.last();
        assert(p == s[s.len() - 1]);
        assert(tile_at(g, p) == Some(pattern_tile(map, p, w, h, d)));
    }
}

/// A listing of the positions of a map holding tiles lists those of its pattern grid.
proof fn lemma_grid_listing<Data: IdentifiableTileData>(
    g: GridMap2D<PatternTileData>,
    map: GridMap2D<Data>,
    s: Seq<GridPosition>,
    w: int,
    h: int,
    d: int,
)
    requires
        grid_of_map(g, map, w, h, d),
    ensures
        listing_of(s, |p: GridPosition| occupied(g, p)) <==> listing_of(s, |p: GridPosition| occupied(map, p)),
{
    assert forall|p: GridPosition| p.z is None implies occupied(g, p) == occupied(map, p) by {
        assert(tile_at(g, p) == if occupied(map, p) {
            Some(pattern_tile(map, p, w, h, d))
        } else {
            None
        });
    }
    if listing_of(s, |p: GridPosition| occupied(g, p)) {
        assert forall|p: GridPosition| #[trigger] s.contains(p) <==> p.z is None && occupied(map, p) by {
            assert(s.contains(p) <==> p.z is None && occupied(g, p));
        }
    }
    if listing_of(s, |p: GridPosition| occupied(map, p)) {
        assert forall|p: GridPosition| #[trigger] s.contains(p) <==> p.z is None && occupied(g, p) by {
            assert(s.contains(p) <==> p.z is None && occupied(map, p));
        }
    }
}

/// Analyzer gathering the patterns of sample maps into a collection, with their weights and adjacency rules.
#[derive(Debug)]
pub struct OverlappingAnalyzer<const X: usize, const Y: usize, const Z: usize, Data: IdentifiableTileData> {
    collection: PatternCollection<OverlappingPattern3D<X, Y, Z>>,
    frequency: PatternFrequencyHints<X, Y, Z, Data>,
    adjacency: PatternAdjacencyRules<X, Y, Z, Data>,
}

impl<const X: usize, const Y: usize, const Z: usize, Data: IdentifiableTileData> OverlappingAnalyzer<X, Y, Z, Data> {
    /// Collection of the patterns found.
    pub closed spec fn spec_collection(&self) -> PatternCollection<OverlappingPattern3D<X, Y, Z>> {
        self.collection
    }

    /// Weights of the patterns found.
    pub closed spec fn spec_frequency(&self) -> PatternFrequencyHints<X, Y, Z, Data> {
        self.frequency
    }

    /// Adjacency rules of the patterns found.
    pub closed spec fn spec_adjacency(&self) -> PatternAdjacencyRules<X, Y, Z, Data> {
        self.adjacency
    }

    /// Analyzer that has found nothing.
    pub fn new() -> (a: Self)
        ensures
            a.spec_collection().patterns() == Map::<u64, OverlappingPattern3D<X, Y, Z>>::empty(),
            a.spec_collection().type_ids() == Map::<u64, u64>::empty(),
            a.spec_collection().by_tile() == Map::<u64, Set<u64>>::empty(),
            a.spec_collection().index_complete() && a.spec_collection().index_exact(),
            a.spec_frequency().spec_weights() == Map::<u64, u32>::empty(),
            forall|el: u64| !#[trigger] a.spec_adjacency().table().has_element(el),
            forall|el: u64, d: GridDir, adj: u64| !#[trigger] a.spec_adjacency().table().allows(el, d, adj),
    {
        Self { collection: PatternCollection::new(), frequency: PatternFrequencyHints::new(), adjacency: PatternAdjacencyRules::new() }
    }

    /// Counting the patterns of the map cannot overflow.
    pub open spec fn can_analyze(&self, map: GridMap2D<Data>) -> bool {
        forall|s: Seq<GridPosition>, t: u64|
            listing_of(s, |p: GridPosition| occupied(map, p)) && #[trigger] counted(
                as_int_weights(self.spec_frequency().spec_weights()),
                fitting_ids(map, s, X as int, Y as int, Z as int),
            ).contains_key(t) ==> counted(as_int_weights(self.spec_frequency().spec_weights()), fitting_ids(map, s, X as int, Y as int, Z as int))[t]
                <= u32::MAX
    }

    /// Builds the pattern grid of `map`, recording its patterns in the collection, counting each pattern starting
    /// in the grid into the weights, and then allowing, in the adjacency rules, each pair of patterns of the
    /// collection in each direction in which they can neighbour each other.
    pub fn analyze_map(&mut self, map: &GridMap2D<Data>) -> (grid: OverlappingPatternGrid<OverlappingPattern3D<X, Y, Z>>)
        requires
            (X >= 1 && Y >= 1) || forall|p: GridPosition| !occupied(*map, p),
            forall|p: GridPosition| #[trigger] occupied(*map, p) ==> p.x + X - 1 <= u32::MAX && p.y + Y - 1 <= u32::MAX,
            Z == 1 || forall|p: GridPosition| #[trigger] occupied(*map, p) ==> !block_fits(map.spec_size(), p, X as int, Y as int),
            old(self).can_analyze(*map),
        ensures
            grid_of_map(grid.spec_inner(), *map, X as int, Y as int, Z as int),
            collection_extended(old(self).spec_collection(), final(self).spec_collection(), *map, X as int, Y as int, Z as int),
            old(self).spec_collection().index_complete() ==> final(self).spec_collection().index_complete(),
            old(self).spec_collection().index_exact() ==> final(self).spec_collection().index_exact(),
            exists|s: Seq<GridPosition>|
                listing_of(s, |p: GridPosition| occupied(*map, p)) && as_int_weights(final(self).spec_frequency().spec_weights())
                    == counted(
                    as_int_weights(old(self).spec_frequency().spec_weights()),
                    #[trigger] fitting_ids(*map, s, X as int, Y as int, Z as int),
                ),
            forall|el: u64| #[trigger] final(self).spec_adjacency().table().has_element(el) <==> old(self).spec_adjacency().table().has_element(el)
                || exists|d: GridDir, adj: u64| patterns_compatible(final(self).spec_collection(), el, d, adj),
            forall|el: u64, d: GridDir, adj: u64| #[trigger] final(self).spec_adjacency().table().allows(el, d, adj)
                <==> old(self).spec_adjacency().table().allows(el, d, adj) || patterns_compatible(final(self).spec_collection(), el, d, adj),
    {
        let grid = OverlappingPatternGrid::from_map(map, &mut self.collection);
        let ghost g = grid.spec_inner();
        proof {
            assert forall|s: Seq<GridPosition>, t: u64|
                listing_of(s, |p: GridPosition| occupied(g, p)) && #[trigger] counted(
                    as_int_weights(self.frequency.spec_weights()),
                    grid_pattern_ids(g, s),
                ).contains_key(t) implies counted(as_int_weights(self.frequency.spec_weights()), grid_pattern_ids(g, s))[t] <= u32::MAX by {
                lemma_grid_listing(g, *map, s, X as int, Y as int, Z as int);
                assert forall|i: int| 0 <= i < s.len() implies (#[trigger] s[i]).z is None && occupied(*map, s[i]) by {
                    assert(s.contains(s[i]));
                }
                lemma_grid_ids_are_fitting(g, *map, s, X as int, Y as int, Z as int);
                assert(counted(as_int_weights(old(self).spec_frequency().spec_weights()), fitting_ids(*map, s, X as int, Y as int, Z as int)).contains_key(t));
            }
        }
        self.frequency.analyze_pattern_grid(&grid);
        self.adjacency.analyze_collection(&self.collection);
        proof {
            let s = choose|s: Seq<GridPosition>|
                listing_of(s, |p: GridPosition| occupied(g, p)) && as_int_weights(self.frequency.spec_weights()) == counted(
                    as_int_weights(old(self).spec_frequency().spec_weights()),
                    #[trigger] grid_pattern_ids(g, s),
                );
            lemma_grid_listing(g, *map, s, X as int, Y as int, Z as int);
            assert forall|i: int| 0 <= i < s.len() implies (#[trigger] s[i]).z is None && occupied(*map, s[i]) by {
                assert(s.contains(s[i]));
            }
            lemma_grid_ids_are_fitting(g, *map, s, X as int, Y as int, Z as int);
        }
        grid
    }

    /// Collection of the patterns found.
    pub fn get_collection(&self) -> (c: &PatternCollection<OverlappingPattern3D<X, Y, Z>>)
        ensures
            *c == self.spec_collection(),
    {
        &self.collection
    }

    /// Weights of the patterns found.
    pub fn get_frequency(&self) -> (f: &PatternFrequencyHints<X, Y, Z, Data>)
        ensures
            *f == self.spec_frequency(),
    {
        &self.frequency
    }

    /// Adjacency rules of the patterns found.
    pub fn get_adjacency(&self) -> (a: &PatternAdjacencyRules<X, Y, Z, Data>)
        ensures
            *a == self.spec_adjacency(),
    {
        &self.adjacency
    }
}

impl<const X: usize, const Y: usize, const Z: usize, Data: IdentifiableTileData> Default for OverlappingAnalyzer<X, Y, Z, Data> {
    fn default() -> (a: Self)
        ensures
            a.spec_collection().patterns() == Map::<u64, OverlappingPattern3D<X, Y, Z>>::empty(),
            a.spec_collection().type_ids() == Map::<u64, u64>::empty(),
            a.spec_collection().by_tile() == Map::<u64, Set<u64>>::empty(),
            a.spec_collection().index_complete() && a.spec_collection().index_exact(),
            a.spec_frequency().spec_weights() == Map::<u64, u32>::empty(),
            forall|el: u64| !#[trigger] a.spec_adjacency().table().has_element(el),
            forall|el: u64, d: GridDir, adj: u64| !#[trigger] a.spec_adjacency().table().allows(el, d, adj),
    {
        Self::new()
    }
}

} // verus!
