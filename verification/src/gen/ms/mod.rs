//! Analyzer of grid maps of tiles carrying their own position, deriving adjacency rules from the borders of the
//! tiles observed next to each other.
//!
//! Each side of a tile gets a border identifier; observing two tiles next to each other merges the borders of the
//! touching sides. Every side is listed under each border it is given, and two tiles may be placed next to each
//! other in a direction when the facing sides are listed under one border.
use vstd::prelude::*;

use crate::gen::adjacency::{AdjacencyAnalyzer, AdjacencyRules};
use crate::gen::collapse::border::pair_listed;
use crate::gen::collapse::singular::analyzer::{as_int_weights, counted};
use crate::gen::frequency::FrequencyRules;
use crate::gen::wfc::analyzer::{tile_id_at, tile_ids_at, tile_observed, tile_observed_at};
use crate::id_map::IdMap;
use crate::map::{dir_index, listing_of, neighbour_position, occupied, spec_opposite, GridDir, GridMap2D};
use crate::tile::identifiable::IdentifiableTile;
use crate::tile::{GridPosition, TileContainer};

verus! {

/// Border identifiers of the four sides of a tile.
#[derive(Clone, Copy, Debug)]
struct TileBordersAdjacency {
    up: Option<u64>,
    down: Option<u64>,
    left: Option<u64>,
    right: Option<u64>,
}

impl TileBordersAdjacency {
    closed spec fn at(&self, d: GridDir) -> Option<u64> {
        match d {
            GridDir::UP => self.up,
            GridDir::DOWN => self.down,
            GridDir::LEFT => self.left,
            GridDir::RIGHT => self.right,
        }
    }

    fn empty() -> (b: Self)
        ensures
            forall|d: GridDir| #[trigger] b.at(d) is None,
    {
        Self { up: None, down: None, left: None, right: None }
    }

    fn get_at_dir(&self, dir: &GridDir) -> (r: Option<u64>)
        ensures
            r == self.at(*dir),
    {
        match dir {
            GridDir::UP => self.up,
            GridDir::DOWN => self.down,
            GridDir::LEFT => self.left,
            GridDir::RIGHT => self.right,
        }
    }

    fn set_at_dir(&mut self, dir: &GridDir, border_id: u64)
        ensures
            forall|e: GridDir| #[trigger] final(self).at(e) == if e == *dir {
                Some(border_id)
            } else {
                old(self).at(e)
            },
    {
        match dir {
            GridDir::UP => self.up = Some(border_id),
            GridDir::DOWN => self.down = Some(border_id),
            GridDir::LEFT => self.left = Some(border_id),
            GridDir::RIGHT => self.right = Some(border_id),
        }
    }
}

/// Analyzer merging the borders of tiles observed next to each other, counting the tiles, and allowing every tile
/// next to every other whose facing sides are listed under one border.
pub struct MSAnalyzer<T: IdentifiableTile> {
    tiles: IdMap<()>,
    frequency_rules: FrequencyRules<T>,
    adjacency_rules: AdjacencyRules<T>,
    /// Borders of each tile identifier.
    inner: IdMap<TileBordersAdjacency>,
    /// Sides (tile identifier and direction) listed under each border.
    border_types: IdMap<Vec<(u64, GridDir)>>,
}

impl<T: IdentifiableTile> MSAnalyzer<T> {
    /// The analyzer knows the borders of tile identifier `t`.
    pub closed spec fn has_tile(&self, t: u64) -> bool {
        self.inner@.contains_key(t)
    }

    /// Border of the side of `t` facing `d`.
    pub closed spec fn border(&self, t: u64, d: GridDir) -> Option<u64> {
        if self.inner@.contains_key(t) {
            self.inner@[t].at(d)
        } else {
            None
        }
    }

    /// Border `b` is in use.
    pub closed spec fn has_border(&self, b: u64) -> bool {
        self.border_types@.contains_key(b)
    }

    /// Sides listed under border `b`, in the order they were given it.
    pub closed spec fn listed(&self, b: u64) -> Seq<(u64, GridDir)> {
        if self.border_types@.contains_key(b) {
            self.border_types@[b]@
        } else {
            Seq::empty()
        }
    }

    /// Identifier a new border gets: the one after the greatest in use (wrapping around), or `0`.
    pub closed spec fn next_border_id(&self) -> u64 {
        let ks = self.border_types.spec_keys();
        if ks.len() == 0 {
            0
        } else if ks.last() == u64::MAX {
            0
        } else {
            (ks.last() + 1) as u64
        }
    }

    /// Each side with a border is listed under it, which is in use, and each listed side belongs to a known tile.
    pub closed spec fn borders_wf(&self) -> bool {
        &&& forall|t: u64, d: GridDir| #[trigger]
            self.border(t, d) is Some ==> self.has_border(self.border(t, d)->0) && self.listed(
                self.border(t, d)->0,
            ).contains((t, d))
        &&& forall|b: u64, t: u64, d: GridDir|
            #![trigger self.listed(b).contains((t, d))]
            self.listed(b).contains((t, d)) ==> self.has_tile(t)
    }

    /// Tiles of identifier `c` may be placed in direction `d` of tiles of identifier `a`: side `d` of `a` and the
    /// opposite side of `c` are listed under one border in use.
    pub open spec fn pairs_allowed(&self, a: u64, d: GridDir, c: u64) -> bool {
        exists|b: u64| #[trigger] self.has_border(b) && pair_listed(self.listed(b), a, d, c)
    }

    /// Counts of the tiles seen, by identifier.
    pub closed spec fn counts(&self) -> Map<u64, u32> {
        self.frequency_rules.weights()
    }

    /// The frequency rules.
    pub closed spec fn frequency_rules(&self) -> FrequencyRules<T> {
        self.frequency_rules
    }

    /// Two analyzers with the same border table agree on everything said of borders.
    proof fn lemma_same_table(a: &Self, b: &Self)
        requires
            a.inner == b.inner,
            a.border_types == b.border_types,
        ensures
            a.borders_wf() == b.borders_wf(),
            a.next_border_id() == b.next_border_id(),
            forall|t: u64| #[trigger] a.has_tile(t) == b.has_tile(t),
            forall|t: u64, d: GridDir| #[trigger] a.border(t, d) == b.border(t, d),
            forall|x: u64| #[trigger] a.has_border(x) == b.has_border(x),
            forall|x: u64| #[trigger] a.listed(x) == b.listed(x),
            forall|x: u64, d: GridDir, c: u64| #[trigger] a.pairs_allowed(x, d, c) == b.pairs_allowed(x, d, c),
    {
        assert forall|x: u64, d: GridDir, c: u64| #[trigger] a.pairs_allowed(x, d, c) == b.pairs_allowed(x, d, c) by {
            if a.pairs_allowed(x, d, c) {
                let y = choose|y: u64| #[trigger] a.has_border(y) && pair_listed(a.listed(y), x, d, c);
                assert(b.has_border(y) && pair_listed(b.listed(y), x, d, c));
            }
            if b.pairs_allowed(x, d, c) {
                let y = choose|y: u64| #[trigger] b.has_border(y) && pair_listed(b.listed(y), x, d, c);
                assert(a.has_border(y) && pair_listed(a.listed(y), x, d, c));
            }
        }
        if a.borders_wf() {
            assert forall|t: u64, d: GridDir| #[trigger]
                b.border(t, d) is Some implies b.has_border(b.border(t, d)->0) && b.listed(b.border(t, d)->0).contains(
                    (t, d),
                ) by {
                assert(a.border(t, d) is Some);
            }
            assert forall|x: u64, t: u64, d: GridDir|
                #![trigger b.listed(x).contains((t, d))]
                b.listed(x).contains((t, d)) implies b.has_tile(t) by {
                assert(a.listed(x).contains((t, d)));
            }
        }
        if b.borders_wf() {
            assert forall|t: u64, d: GridDir| #[trigger]
                a.border(t, d) is Some implies a.has_border(a.border(t, d)->0) && a.listed(a.border(t, d)->0).contains(
                    (t, d),
                ) by {
                assert(b.border(t, d) is Some);
            }
            assert forall|x: u64, t: u64, d: GridDir|
                #![trigger a.listed(x).contains((t, d))]
                a.listed(x).contains((t, d)) implies a.has_tile(t) by {
                assert(b.listed(x).contains((t, d)));
            }
        }
    }

    /// Analyzer that has seen nothing.
    pub fn new() -> (a: Self)
        ensures
            a.borders_wf(),
            a.seen_tiles() == Set::<u64>::empty(),
            a.counts() == Map::<u64, u32>::empty(),
            forall|x: u64, d: GridDir, c: u64| !#[trigger] a.rules().allows(x, d, c),
            forall|t: u64| !#[trigger] a.has_tile(t),
            forall|b: u64| !#[trigger] a.has_border(b),
    {
        let a = Self {
            tiles: IdMap::new(),
            frequency_rules: FrequencyRules::new(),
            adjacency_rules: AdjacencyRules::new(),
            inner: IdMap::new(),
            border_types: IdMap::new(),
        };
        assert(a.tiles@.dom() =~= Set::<u64>::empty());
        a
    }

    fn ensure_adjacencies_present_for_tile(&mut self, id: u64)
        requires
            old(self).borders_wf(),
        ensures
            final(self).borders_wf(),
            forall|t: u64| #[trigger] final(self).has_tile(t) <==> old(self).has_tile(t) || t == id,
            forall|t: u64, d: GridDir| #[trigger] final(self).border(t, d) == old(self).border(t, d),
            final(self).border_types == old(self).border_types,
            final(self).tiles == old(self).tiles,
            final(self).frequency_rules == old(self).frequency_rules,
            final(self).adjacency_rules == old(self).adjacency_rules,
    {
        if !self.inner.contains_key(id) {
            self.inner.insert(id, TileBordersAdjacency::empty());
            assert forall|t: u64, d: GridDir| #[trigger] self.border(t, d) == old(self).border(t, d) by {}
            assert forall|t: u64, d: GridDir| #[trigger]
                self.border(t, d) is Some implies self.has_border(self.border(t, d)->0) && self.listed(
                    self.border(t, d)->0,
                ).contains((t, d)) by {
                assert(old(self).border(t, d) is Some);
            }
            assert forall|b: u64, t: u64, d: GridDir|
                #![trigger self.listed(b).contains((t, d))]
                self.listed(b).contains((t, d)) implies self.has_tile(t) by {
                assert(old(self).listed(b).contains((t, d)));
            }
        }
    }

    fn get_border_id(&self, tile_id: &u64, direction: &GridDir) -> (r: Option<u64>)
        requires
            self.has_tile(*tile_id),
        ensures
            r == self.border(*tile_id, *direction),
    {
        self.inner.get(*tile_id).unwrap().get_at_dir(direction)
    }

    /// Gives side `direction` of `tile_id` the border `border_id`, listing it there.
    fn set_border_id(&mut self, border_id: u64, tile_id: u64, direction: &GridDir)
        requires
            old(self).borders_wf(),
            old(self).has_tile(tile_id),
        ensures
            final(self).borders_wf(),
            forall|t: u64| #[trigger] final(self).has_tile(t) == old(self).has_tile(t),
            forall|t: u64, d: GridDir| #[trigger]
                final(self).border(t, d) == if t == tile_id && d == *direction {
                    Some(border_id)
                } else {
                    old(self).border(t, d)
                },
            forall|b: u64| #[trigger] final(self).has_border(b) <==> old(self).has_border(b) || b == border_id,
            forall|b: u64| #[trigger]
                final(self).listed(b) == if b == border_id {
                    old(self).listed(b).push((tile_id, *direction))
                } else {
                    old(self).listed(b)
                },
            final(self).tiles == old(self).tiles,
            final(self).frequency_rules == old(self).frequency_rules,
            final(self).adjacency_rules == old(self).adjacency_rules,
    {
        let mut borders = *self.inner.get(tile_id).unwrap();
        borders.set_at_dir(direction, border_id);
        self.inner.insert(tile_id, borders);
        let mut listed: Vec<(u64, GridDir)> = match self.border_types.remove(border_id) {
            Some(v) => v,
            None => Vec::new(),
        };
        listed.push((tile_id, *direction));
        self.border_types.insert(border_id, listed);
        assert forall|t: u64| #[trigger] self.has_tile(t) == old(self).has_tile(t) by {}
        assert forall|t: u64, d: GridDir| #[trigger]
            self.border(t, d) == if t == tile_id && d == *direction {
                Some(border_id)
            } else {
                old(self).border(t, d)
            } by {}
        assert forall|b: u64| #[trigger]
            self.listed(b) == if b == border_id {
                old(self).listed(b).push((tile_id, *direction))
            } else {
                old(self).listed(b)
            } by {}
        assert forall|t: u64, d: GridDir| #[trigger]
            self.border(t, d) is Some implies self.has_border(self.border(t, d)->0) && self.listed(
                self.border(t, d)->0,
            ).contains((t, d)) by {
            if t == tile_id && d == *direction {
                assert(self.listed(border_id).last() == (t, d));
            } else {
                let b = old(self).border(t, d)->0;
                let k = old(self).listed(b).index_of((t, d));
                if b == border_id {
                    assert(self.listed(b)[k] == (t, d));
                }
            }
        }
        assert forall|b: u64, t: u64, d: GridDir|
            #![trigger self.listed(b).contains((t, d))]
            self.listed(b).contains((t, d)) implies self.has_tile(t) by {
            if b == border_id && (t, d) != (tile_id, *direction) {
                let k = self.listed(b).index_of((t, d));
                assert(old(self).listed(b)[k] == (t, d));
                assert(old(self).listed(b).contains((t, d)));
                assert(old(self).has_tile(t));
            } else if b != border_id {
                assert(old(self).listed(b).contains((t, d)));
                assert(old(self).has_tile(t));
            } else {
                assert(old(self).has_tile(tile_id));
            }
        }
    }

    /// Gives every side listed under border `existing` the border `into`, listing them there, and drops
    /// `existing`.
    fn unify_border_id(&mut self, existing: u64, into: u64)
        requires
            old(self).borders_wf(),
            old(self).has_border(existing),
            existing != into,
        ensures
            final(self).borders_wf(),
            forall|t: u64| #[trigger] final(self).has_tile(t) == old(self).has_tile(t),
            forall|t: u64, d: GridDir| #[trigger]
                final(self).border(t, d) == if old(self).listed(existing).contains((t, d)) {
                    Some(into)
                } else {
                    old(self).border(t, d)
                },
            forall|b: u64| #[trigger]
                final(self).has_border(b) <==> (old(self).has_border(b) && b != existing) || (b == into
                    && old(self).listed(existing).len() > 0),
            forall|b: u64| #[trigger]
                final(self).listed(b) == if b == into {
                    old(self).listed(into) + old(self).listed(existing)
                } else if b == existing {
                    Seq::<(u64, GridDir)>::empty()
                } else {
                    old(self).listed(b)
                },
            final(self).tiles == old(self).tiles,
            final(self).frequency_rules == old(self).frequency_rules,
            final(self).adjacency_rules == old(self).adjacency_rules,
    {
        let ghost start = *old(self);
        let cache = self.border_types.remove(existing).unwrap();
        proof {
            assert(cache@ == start.listed(existing));
            assert forall|t: u64, d: GridDir| #[trigger]
                self.border(t, d) is Some && self.border(t, d) != Some(existing) implies self.has_border(
                    self.border(t, d)->0,
                ) && self.listed(self.border(t, d)->0).contains((t, d)) by {
                assert(start.border(t, d) is Some);
            }
            assert forall|b: u64, t: u64, d: GridDir|
                #![trigger self.listed(b).contains((t, d))]
                self.listed(b).contains((t, d)) implies self.has_tile(t) by {
                assert(start.listed(b).contains((t, d)));
            }
            assert(cache@.take(0) =~= Seq::<(u64, GridDir)>::empty());
        }
        let mut k: usize = 0;
        while k < cache.len()
            invariant
                k <= cache@.len(),
                existing != into,
                cache@ == start.listed(existing),
                start.borders_wf(),
                !self.has_border(existing),
                forall|t: u64| #[trigger] self.has_tile(t) == start.has_tile(t),
                forall|t: u64, d: GridDir| #[trigger]
                    self.border(t, d) == if cache@.take(k as int).contains((t, d)) {
                        Some(into)
                    } else {
                        start.border(t, d)
                    },
                forall|b: u64| #[trigger]
                    self.has_border(b) <==> (start.has_border(b) && b != existing) || (b == into && k > 0),
                forall|b: u64| #[trigger]
                    self.listed(b) == if b == into {
                        start.listed(into) + cache@.take(k as int)
                    } else if b == existing {
                        Seq::<(u64, GridDir)>::empty()
                    } else {
                        start.listed(b)
                    },
                forall|t: u64, d: GridDir| #[trigger]
                    self.border(t, d) is Some && self.border(t, d) != Some(existing) ==> self.has_border(
                        self.border(t, d)->0,
                    ) && self.listed(self.border(t, d)->0).contains((t, d)),
                forall|b: u64, t: u64, d: GridDir|
                    #![trigger self.listed(b).contains((t, d))]
                    self.listed(b).contains((t, d)) ==> self.has_tile(t),
                self.tiles == start.tiles,
                self.frequency_rules == start.frequency_rules,
                self.adjacency_rules == start.adjacency_rules,
            decreases cache@.len() - k,
        {
            let (tile_id, direction) = cache[k];
            proof {
                assert(start.listed(existing).contains((tile_id, direction)));
            }
            let ghost prev = *self;
            self.set_border_id_loose(into, tile_id, &direction);
            k = k + 1;
            proof {
                assert(cache@.take(k as int) =~= cache@.take(k - 1).push((tile_id, direction)));
                assert forall|t: u64, d: GridDir| #[trigger]
                    self.border(t, d) == if cache@.take(k as int).contains((t, d)) {
                        Some(into)
                    } else {
                        start.border(t, d)
                    } by {
                    if !(t == tile_id && d == direction) {
                        assert(cache@.take(k as int).contains((t, d)) <==> cache@.take(k - 1).contains((t, d)));
                    } else {
                        assert(cache@.take(k as int)[k - 1] == (t, d));
                    }
                }
                assert forall|b: u64| #[trigger]
                    self.listed(b) == if b == into {
                        start.listed(into) + cache@.take(k as int)
                    } else if b == existing {
                        Seq::<(u64, GridDir)>::empty()
                    } else {
                        start.listed(b)
                    } by {
                    if b == into {
                        assert(start.listed(into) + cache@.take(k as int) =~= (start.listed(into) + cache@.take(
                            k - 1,
                        )).push((tile_id, direction)));
                    }
                }
                assert forall|b: u64, t: u64, d: GridDir|
                    #![trigger self.listed(b).contains((t, d))]
                    self.listed(b).contains((t, d)) implies self.has_tile(t) by {
                    if b == into && (t, d) != (tile_id, direction) {
                        let j = self.listed(b).index_of((t, d));
                        assert(prev.listed(b)[j] == (t, d));
                        assert(prev.listed(b).contains((t, d)));
                    } else if b != into {
                        assert(prev.listed(b).contains((t, d)));
                    } else {
                        assert(start.has_tile(tile_id));
                    }
                }
                assert forall|t: u64, d: GridDir| #[trigger]
                    self.border(t, d) is Some && self.border(t, d) != Some(existing) implies self.has_border(
                        self.border(t, d)->0,
                    ) && self.listed(self.border(t, d)->0).contains((t, d)) by {
                    if t == tile_id && d == direction {
                        assert(self.listed(into).last() == (t, d));
                    } else {
                        let b = prev.border(t, d)->0;
                        let j = prev.listed(b).index_of((t, d));
                        if b == into {
                            assert(self.listed(b)[j] == (t, d));
                        }
                    }
                }
            }
        }
        proof {
            assert(cache@.take(k as int) =~= cache@);
            assert forall|t: u64, d: GridDir| #[trigger]
                self.border(t, d) is Some implies self.has_border(self.border(t, d)->0) && self.listed(
                    self.border(t, d)->0,
                ).contains((t, d)) by {
                if self.border(t, d) == Some(existing) {
                    assert(!cache@.contains((t, d)));
                    assert(start.border(t, d) == Some(existing));
                    assert(start.listed(existing).contains((t, d)));
                }
            }
        }
    }

    /// [`set_border_id`](Self::set_border_id), for the state inside [`unify_border_id`](Self::unify_border_id)
    /// where the sides still having the dropped border are not listed.
    fn set_border_id_loose(&mut self, border_id: u64, tile_id: u64, direction: &GridDir)
        requires
            old(self).has_tile(tile_id),
        ensures
            forall|t: u64| #[trigger] final(self).has_tile(t) == old(self).has_tile(t),
            forall|t: u64, d: GridDir| #[trigger]
                final(self).border(t, d) == if t == tile_id && d == *direction {
                    Some(border_id)
                } else {
                    old(self).border(t, d)
                },
            forall|b: u64| #[trigger] final(self).has_border(b) <==> old(self).has_border(b) || b == border_id,
            forall|b: u64| #[trigger]
                final(self).listed(b) == if b == border_id {
                    old(self).listed(b).push((tile_id, *direction))
                } else {
                    old(self).listed(b)
                },
            final(self).tiles == old(self).tiles,
            final(self).frequency_rules == old(self).frequency_rules,
            final(self).adjacency_rules == old(self).adjacency_rules,
    {
        let mut borders = *self.inner.get(tile_id).unwrap();
        borders.set_at_dir(direction, border_id);
        self.inner.insert(tile_id, borders);
        let mut listed: Vec<(u64, GridDir)> = match self.border_types.remove(border_id) {
            Some(v) => v,
            None => Vec::new(),
        };
        listed.push((tile_id, *direction));
        self.border_types.insert(border_id, listed);
        assert forall|t: u64| #[trigger] self.has_tile(t) == old(self).has_tile(t) by {}
        assert forall|t: u64, d: GridDir| #[trigger]
            self.border(t, d) == if t == tile_id && d == *direction {
                Some(border_id)
            } else {
                old(self).border(t, d)
            } by {}
        assert forall|b: u64| #[trigger]
            self.listed(b) == if b == border_id {
                old(self).listed(b).push((tile_id, *direction))
            } else {
                old(self).listed(b)
            } by {}
    }

    /// Identifier following the greatest border identifier in use (wrapping around), or `0` if none is.
    fn get_next_border_id(&self) -> (id: u64)
        ensures
            id == self.next_border_id(),
    {
        let keys = self.border_types.keys();
        if keys.len() == 0 {
            0
        } else {
            let max_id = keys[keys.len() - 1];
            if max_id == u64::MAX {
                0
            } else {
                max_id + 1
            }
        }
    }

    /// Effect on the border table of recording that `adjacent_id` lies in `direction` of `tile_id`.
    spec fn adjacency_step(pre: Self, post: Self, tile_id: u64, adjacent_id: u64, direction: GridDir) -> bool {
        let opp = spec_opposite(direction);
        match (pre.border(tile_id, direction), pre.border(adjacent_id, opp)) {
            (None, None) => {
                let n = pre.next_border_id();
                &&& forall|t: u64, d: GridDir| #[trigger]
                    post.border(t, d) == if (t == tile_id && d == direction) || (t == adjacent_id
                        && d == opp) {
                        Some(n)
                    } else {
                        pre.border(t, d)
                    }
                &&& forall|b: u64| #[trigger] post.has_border(b) <==> pre.has_border(b) || b == n
                &&& forall|b: u64| #[trigger]
                    post.listed(b) == if b == n {
                        pre.listed(b).push((tile_id, direction)).push((adjacent_id, opp))
                    } else {
                        pre.listed(b)
                    }
            },
            (None, Some(id_border)) => {
                &&& forall|t: u64, d: GridDir| #[trigger]
                    post.border(t, d) == if t == tile_id && d == direction {
                        Some(id_border)
                    } else {
                        pre.border(t, d)
                    }
                &&& forall|b: u64| #[trigger] post.has_border(b) == pre.has_border(b)
                &&& forall|b: u64| #[trigger]
                    post.listed(b) == if b == id_border {
                        pre.listed(b).push((tile_id, direction))
                    } else {
                        pre.listed(b)
                    }
            },
            (Some(id_border), None) => {
                &&& forall|t: u64, d: GridDir| #[trigger]
                    post.border(t, d) == if t == tile_id && d == opp {
                        Some(id_border)
                    } else {
                        pre.border(t, d)
                    }
                &&& forall|b: u64| #[trigger] post.has_border(b) == pre.has_border(b)
                &&& forall|b: u64| #[trigger]
                    post.listed(b) == if b == id_border {
                        pre.listed(b).push((tile_id, opp))
                    } else {
                        pre.listed(b)
                    }
            },
            (Some(id_left), Some(id_right)) => {
                let existing = if id_left > id_right {
                    id_left
                } else {
                    id_right
                };
                let into = if id_left > id_right {
                    id_right
                } else {
                    id_left
                };
                if id_left == id_right {
                    &&& forall|t: u64, d: GridDir| #[trigger] post.border(t, d) == pre.border(t, d)
                    &&& forall|b: u64| #[trigger] post.has_border(b) == pre.has_border(b)
                    &&& forall|b: u64| #[trigger] post.listed(b) == pre.listed(b)
                } else {
                    &&& forall|t: u64, d: GridDir| #[trigger]
                        post.border(t, d) == if pre.listed(existing).contains((t, d)) {
                            Some(into)
                        } else {
                            pre.border(t, d)
                        }
                    &&& forall|b: u64| #[trigger]
                        post.has_border(b) <==> (pre.has_border(b) && b != existing) || (b
                            == into && pre.listed(existing).len() > 0)
                    &&& forall|b: u64| #[trigger]
                        post.listed(b) == if b == into {
                            pre.listed(into) + pre.listed(existing)
                        } else if b == existing {
                            Seq::<(u64, GridDir)>::empty()
                        } else {
                            pre.listed(b)
                        }
                }
            },
        }
    }

    /// A recorded adjacency keeps every pair allowed and every side bordered, borders the side of `tile_id`
    /// facing `direction`, and allows the pair when the facing side of `adjacent_id` was bordered.
    proof fn lemma_adjacency_step(pre: Self, post: Self, tile_id: u64, adjacent_id: u64, direction: GridDir)
        requires
            pre.borders_wf(),
            Self::adjacency_step(pre, post, tile_id, adjacent_id, direction),
        ensures
            forall|a: u64, d: GridDir, c: u64| #[trigger] pre.pairs_allowed(a, d, c) ==> post.pairs_allowed(a, d, c),
            forall|t: u64, d: GridDir| #[trigger] pre.border(t, d) is Some ==> post.border(t, d) is Some,
            post.border(tile_id, direction) is Some,
            pre.border(adjacent_id, spec_opposite(direction)) is Some ==> post.pairs_allowed(
                tile_id,
                direction,
                adjacent_id,
            ),
    {
        broadcast use vstd::seq_lib::lemma_seq_contains_after_push, vstd::seq_lib::lemma_seq_concat_contains_all_elements;

        let opp = spec_opposite(direction);
        crate::map::lemma_opposite_involutive(direction);
        assert forall|a: u64, d: GridDir, c: u64| #[trigger] pre.pairs_allowed(a, d, c) implies post.pairs_allowed(
            a,
            d,
            c,
        ) by {
            let b = choose|b: u64| #[trigger] pre.has_border(b) && pair_listed(pre.listed(b), a, d, c);
            match (pre.border(tile_id, direction), pre.border(adjacent_id, opp)) {
                (Some(l), Some(r)) => {
                    let existing = if l > r {
                        l
                    } else {
                        r
                    };
                    let into = if l > r {
                        r
                    } else {
                        l
                    };
                    if l != r && b == existing {
                        assert(pre.listed(existing).contains((a, d)));
                        assert(post.has_border(into) && pair_listed(post.listed(into), a, d, c));
                    } else {
                        assert(post.has_border(b) && pair_listed(post.listed(b), a, d, c));
                    }
                },
                _ => {
                    assert(post.has_border(b) && pair_listed(post.listed(b), a, d, c));
                },
            }
        }
        assert forall|t: u64, d: GridDir| #[trigger] pre.border(t, d) is Some implies post.border(t, d) is Some by {
            match (pre.border(tile_id, direction), pre.border(adjacent_id, opp)) {
                (Some(l), Some(r)) => {
                    let existing = if l > r {
                        l
                    } else {
                        r
                    };
                    if l != r && pre.listed(existing).contains((t, d)) {
                    } else {
                    }
                },
                _ => {},
            }
        }
        match (pre.border(tile_id, direction), pre.border(adjacent_id, opp)) {
            (None, Some(b)) => {
                assert(pre.listed(b).contains((adjacent_id, opp)));
                assert(post.has_border(b) && pair_listed(post.listed(b), tile_id, direction, adjacent_id));
            },
            (Some(l), Some(r)) => {
                let existing = if l > r {
                    l
                } else {
                    r
                };
                let into = if l > r {
                    r
                } else {
                    l
                };
                assert(pre.listed(l).contains((tile_id, direction)));
                assert(pre.listed(r).contains((adjacent_id, opp)));
                if l != r {
                    assert(pre.listed(existing).len() > 0);
                    assert(post.has_border(into) && pair_listed(post.listed(into), tile_id, direction, adjacent_id));
                } else {
                    assert(post.has_border(l) && pair_listed(post.listed(l), tile_id, direction, adjacent_id));
                }
            },
            _ => {},
        }
    }

    /// Records that `adjacent_id` lies in `direction` of `tile_id`. When neither touching side has a border, both
    /// get a new one; when only the side of `adjacent_id` has one, the side of `tile_id` gets it; when only the
    /// side of `tile_id` has one, it is given to the opposite side of `tile_id` (the side of `adjacent_id` stays
    /// without border); when both have different borders, the sides of the greater are moved to the smaller.
    fn add_adjacency_raw(&mut self, tile_id: u64, adjacent_id: u64, direction: &GridDir)
        requires
            old(self).borders_wf(),
        ensures
            final(self).borders_wf(),
            forall|t: u64| #[trigger]
                final(self).has_tile(t) <==> old(self).has_tile(t) || t == tile_id || t == adjacent_id,
            final(self).tiles == old(self).tiles,
            final(self).frequency_rules == old(self).frequency_rules,
            final(self).adjacency_rules == old(self).adjacency_rules,
            Self::adjacency_step(*old(self), *final(self), tile_id, adjacent_id, *direction),
            forall|a: u64, d: GridDir, c: u64| #[trigger]
                old(self).pairs_allowed(a, d, c) ==> final(self).pairs_allowed(a, d, c),
            forall|t: u64, d: GridDir| #[trigger] old(self).border(t, d) is Some ==> final(self).border(t, d) is Some,
            final(self).border(tile_id, *direction) is Some,
            old(self).border(adjacent_id, spec_opposite(*direction)) is Some ==> final(self).pairs_allowed(
                tile_id,
                *direction,
                adjacent_id,
            ),
    {
        self.ensure_adjacencies_present_for_tile(tile_id);
        self.ensure_adjacencies_present_for_tile(adjacent_id);
        let opposite = direction.opposite();
        let ghost mid = *self;
        proof {
            assert(mid.next_border_id() == old(self).next_border_id());
            assert forall|b: u64| #[trigger] mid.listed(b) == old(self).listed(b) by {}
            assert forall|b: u64| #[trigger] mid.has_border(b) == old(self).has_border(b) by {}
        }
        match (self.get_border_id(&tile_id, direction), self.get_border_id(&adjacent_id, &opposite)) {
            (None, None) => {
                let new_id = self.get_next_border_id();
                self.set_border_id(new_id, tile_id, direction);
                self.set_border_id(new_id, adjacent_id, &opposite);
            },
            (None, Some(id_border)) => {
                self.set_border_id(id_border, tile_id, direction);
            },
            (Some(id_border), None) => {
                self.set_border_id(id_border, tile_id, &opposite);
            },
            (Some(id_left), Some(id_right)) => {
                if id_left > id_right {
                    self.unify_border_id(id_left, id_right);
                } else if id_left < id_right {
                    self.unify_border_id(id_right, id_left);
                }
            },
        }
        proof {
            assert(Self::adjacency_step(*old(self), *self, tile_id, adjacent_id, *direction));
            Self::lemma_adjacency_step(*old(self), *self, tile_id, adjacent_id, *direction);
        }
    }

    /// Allows every pair of tiles whose facing sides are listed under one border in use.
    fn generate_adjacency_rules(&mut self)
        ensures
            final(self).inner == old(self).inner,
            final(self).border_types == old(self).border_types,
            final(self).tiles == old(self).tiles,
            final(self).frequency_rules == old(self).frequency_rules,
            forall|a: u64, d: GridDir, c: u64| #[trigger]
                final(self).adjacency_rules.allows(a, d, c) <==> old(self).adjacency_rules.allows(a, d, c)
                    || old(self).pairs_allowed(a, d, c),
    {
        let border_ids = self.border_types.keys();
        let ghost start = self.adjacency_rules;
        let mut i: usize = 0;
        while i < border_ids.len()
            invariant
                i <= border_ids@.len(),
                border_ids@ == self.border_types.spec_keys(),
                self.border_types.consistent(),
                self.inner == old(self).inner,
                self.border_types == old(self).border_types,
                self.tiles == old(self).tiles,
                self.frequency_rules == old(self).frequency_rules,
                forall|a: u64, d: GridDir, c: u64| #[trigger]
                    self.adjacency_rules.allows(a, d, c) <==> start.allows(a, d, c) || exists|j: int|
                        0 <= j < i && #[trigger] pair_listed(old(self).listed(border_ids@[j]), a, d, c),
            decreases border_ids@.len() - i,
        {
            let border_id = border_ids[i];
            proof {
                assert(self.border_types.spec_keys().contains(border_id));
            }
            let borders = self.border_types.get(border_id).unwrap();
            proof {
                assert(borders@ == old(self).listed(border_id));
            }
            self.adjacency_rules.add_listed_pairs(borders.as_slice());
            i = i + 1;
            proof {
                assert forall|a: u64, d: GridDir, c: u64| #[trigger]
                    self.adjacency_rules.allows(a, d, c) <==> start.allows(a, d, c) || exists|j: int|
                        0 <= j < i && #[trigger] pair_listed(old(self).listed(border_ids@[j]), a, d, c) by {
                    if pair_listed(old(self).listed(border_ids@[i - 1]), a, d, c) {
                        assert(0 <= i - 1 < i);
                    }
                }
            }
        }
        proof {
            assert forall|a: u64, d: GridDir, c: u64| #[trigger]
                self.adjacency_rules.allows(a, d, c) <==> start.allows(a, d, c) || old(self).pairs_allowed(a, d, c) by {
                if old(self).pairs_allowed(a, d, c) {
                    let b = choose|b: u64| #[trigger] old(self).has_border(b) && pair_listed(old(self).listed(b), a, d, c);
                    assert(border_ids@.contains(b));
                    let j = border_ids@.index_of(b);
                    assert(pair_listed(old(self).listed(border_ids@[j]), a, d, c));
                }
                if exists|j: int| 0 <= j < i && #[trigger] pair_listed(old(self).listed(border_ids@[j]), a, d, c) {
                    let j = choose|j: int| 0 <= j < i && #[trigger] pair_listed(old(self).listed(border_ids@[j]), a, d, c);
                    assert(old(self).has_border(border_ids@[j]));
                }
            }
        }
    }

    fn analyze_tile_at_pos(&mut self, map: &GridMap2D<T>, pos: GridPosition)
        requires
            old(self).borders_wf(),
            pos.z is None,
            occupied(*map, pos),
            old(self).counts().contains_key(tile_id_at(*map, pos)) ==> old(self).counts()[tile_id_at(*map, pos)] < u32::MAX,
        ensures
            final(self).borders_wf(),
            final(self).tiles@.dom() == old(self).tiles@.dom().insert(tile_id_at(*map, pos)),
            as_int_weights(final(self).counts()) == counted(as_int_weights(old(self).counts()), seq![tile_id_at(*map, pos)]),
            final(self).adjacency_rules == old(self).adjacency_rules,
            forall|a: u64, d: GridDir, c: u64| #[trigger]
                old(self).pairs_allowed(a, d, c) ==> final(self).pairs_allowed(a, d, c),
            forall|t: u64, d: GridDir| #[trigger] old(self).border(t, d) is Some ==> final(self).border(t, d) is Some,
            forall|d: GridDir| #[trigger]
                neighbour_position(*map, pos, d) is Some ==> final(self).border(tile_id_at(*map, pos), d) is Some,
            forall|d: GridDir| #[trigger]
                neighbour_position(*map, pos, d) is Some && old(self).border(
                    tile_id_at(*map, neighbour_position(*map, pos, d)->0),
                    spec_opposite(d),
                ) is Some ==> final(self).pairs_allowed(
                    tile_id_at(*map, pos),
                    d,
                    tile_id_at(*map, neighbour_position(*map, pos, d)->0),
                ),
    {
        let tile = map.get_tile_at_position(&pos).unwrap();
        let id = tile.inner().get_tile_id();
        self.tiles.insert(id, ());
        let ghost before_counts = as_int_weights(self.frequency_rules.weights());
        self.frequency_rules.count_tile(tile.inner());
        proof {
            reveal_with_fuel(counted, 2);
            assert(seq![id].drop_last() =~= Seq::<u64>::empty());
            assert(as_int_weights(self.frequency_rules.weights()) =~= counted(before_counts, seq![id]));
        }
        let ghost tiles_now = self.tiles@;
        let ghost counts_now = self.frequency_rules.weights();
        let ghost rules_now = self.adjacency_rules;
        proof {
            Self::lemma_same_table(&*self, &*old(self));
            crate::map::lemma_tile_at_valid(*map, pos);
        }
        let mut k: usize = 0;
        while k < 4
            invariant
                k <= 4,
                crate::map::spec_position_valid(map.spec_size(), pos),
                self.borders_wf(),
                self.tiles@ == tiles_now,
                self.frequency_rules.weights() == counts_now,
                self.adjacency_rules == rules_now,
                id == tile_id_at(*map, pos),
                forall|a: u64, d: GridDir, c: u64| #[trigger]
                    old(self).pairs_allowed(a, d, c) ==> self.pairs_allowed(a, d, c),
                forall|t: u64, d: GridDir| #[trigger] old(self).border(t, d) is Some ==> self.border(t, d) is Some,
                forall|d: GridDir| #[trigger]
                    neighbour_position(*map, pos, d) is Some && dir_index(d) < k ==> self.border(id, d) is Some,
                forall|d: GridDir| #[trigger]
                    neighbour_position(*map, pos, d) is Some && dir_index(d) < k && old(self).border(
                        tile_id_at(*map, neighbour_position(*map, pos, d)->0),
                        spec_opposite(d),
                    ) is Some ==> self.pairs_allowed(id, d, tile_id_at(*map, neighbour_position(*map, pos, d)->0)),
            decreases 4 - k,
        {
            let dir = GridDir::from_index(k);
            let ghost prev = *self;
            if let Some(neighbour) = map.get_neighbour_at(&pos, &dir) {
                let adjacent = neighbour.inner().get_tile_id();
                self.add_adjacency_raw(id, adjacent, &dir);
                proof {
                    assert(adjacent == tile_id_at(*map, neighbour_position(*map, pos, dir)->0));
                }
            }
            k = k + 1;
            proof {
                assert forall|d: GridDir| #[trigger]
                    neighbour_position(*map, pos, d) is Some && dir_index(d) < k implies self.border(id, d) is Some by {
                    if d != dir {
                        assert(prev.border(id, d) is Some);
                    }
                }
                assert forall|d: GridDir| #[trigger]
                    neighbour_position(*map, pos, d) is Some && dir_index(d) < k && old(self).border(
                        tile_id_at(*map, neighbour_position(*map, pos, d)->0),
                        spec_opposite(d),
                    ) is Some implies self.pairs_allowed(id, d, tile_id_at(*map, neighbour_position(*map, pos, d)->0)) by {
                    let c = tile_id_at(*map, neighbour_position(*map, pos, d)->0);
                    if d != dir {
                        assert(prev.pairs_allowed(id, d, c));
                    } else {
                        assert(prev.border(c, spec_opposite(d)) is Some);
                    }
                }
            }
        }
    }
}

impl<T: IdentifiableTile> MSAnalyzer<T> {
    /// Processing the tile at `positions[k]` extends to the first `k + 1` listed positions the facts that their
    /// sides facing a neighbour are bordered and that each pair of neighbours among them is allowed.
    proof fn lemma_neighbours_step(pre: Self, post: Self, map: GridMap2D<T>, positions: Seq<GridPosition>, k: int)
        requires
            0 <= k < positions.len(),
            listing_of(positions, |p: GridPosition| occupied(map, p)),
            forall|a: u64, d: GridDir, c: u64| #[trigger] pre.pairs_allowed(a, d, c) ==> post.pairs_allowed(a, d, c),
            forall|t: u64, d: GridDir| #[trigger] pre.border(t, d) is Some ==> post.border(t, d) is Some,
            forall|d: GridDir| #[trigger]
                neighbour_position(map, positions[k], d) is Some ==> post.border(tile_id_at(map, positions[k]), d) is Some,
            forall|d: GridDir| #[trigger]
                neighbour_position(map, positions[k], d) is Some && pre.border(
                    tile_id_at(map, neighbour_position(map, positions[k], d)->0),
                    spec_opposite(d),
                ) is Some ==> post.pairs_allowed(
                    tile_id_at(map, positions[k]),
                    d,
                    tile_id_at(map, neighbour_position(map, positions[k], d)->0),
                ),
            forall|i: int, d: GridDir|
                0 <= i < k && #[trigger] neighbour_position(map, positions[i], d) is Some ==> pre.border(
                    tile_id_at(map, positions[i]),
                    d,
                ) is Some,
            forall|i: int, j: int, d: GridDir|
                #![trigger neighbour_position(map, positions[i], d), positions[j]]
                0 <= i < k && 0 <= j < k && neighbour_position(map, positions[i], d) == Some(positions[j])
                    ==> pre.pairs_allowed(tile_id_at(map, positions[i]), d, tile_id_at(map, positions[j])),
        ensures
            forall|i: int, d: GridDir|
                0 <= i < k + 1 && #[trigger] neighbour_position(map, positions[i], d) is Some ==> post.border(
                    tile_id_at(map, positions[i]),
                    d,
                ) is Some,
            forall|i: int, j: int, d: GridDir|
                #![trigger neighbour_position(map, positions[i], d), positions[j]]
                0 <= i < k + 1 && 0 <= j < k + 1 && neighbour_position(map, positions[i], d) == Some(positions[j])
                    ==> post.pairs_allowed(tile_id_at(map, positions[i]), d, tile_id_at(map, positions[j])),
    {
        let pos = positions[k];
        assert(positions.contains(pos));
        crate::map::lemma_tile_at_valid(map, pos);
        assert forall|i: int, d: GridDir|
            0 <= i < k + 1 && #[trigger] neighbour_position(map, positions[i], d) is Some implies post.border(
                tile_id_at(map, positions[i]),
                d,
            ) is Some by {
            if i < k {
                assert(pre.border(tile_id_at(map, positions[i]), d) is Some);
            }
        }
        assert forall|i: int, j: int, d: GridDir|
            #![trigger neighbour_position(map, positions[i], d), positions[j]]
            0 <= i < k + 1 && 0 <= j < k + 1 && neighbour_position(map, positions[i], d) == Some(positions[j])
                implies post.pairs_allowed(tile_id_at(map, positions[i]), d, tile_id_at(map, positions[j])) by {
            let p = positions[i];
            let q = positions[j];
            assert(positions.contains(p));
            assert(positions.contains(q));
            crate::map::lemma_tile_at_valid(map, p);
            crate::map::lemma_tile_at_valid(map, q);
            crate::map::lemma_march_round_trip(d, p, map.spec_size());
            crate::map::lemma_opposite_involutive(d);
            assert(neighbour_position(map, q, spec_opposite(d)) == Some(p));
            if i < k && j < k {
                assert(pre.pairs_allowed(tile_id_at(map, p), d, tile_id_at(map, q)));
            } else if i == k && j < k {
                assert(pre.border(tile_id_at(map, q), spec_opposite(d)) is Some);
            } else if i < k && j == k {
                assert(pre.border(tile_id_at(map, p), d) is Some);
                assert(pre.border(tile_id_at(map, p), spec_opposite(spec_opposite(d))) is Some);
                assert(post.pairs_allowed(tile_id_at(map, q), spec_opposite(d), tile_id_at(map, p)));
                lemma_pairs_allowed_symmetric(post, tile_id_at(map, q), spec_opposite(d), tile_id_at(map, p));
            } else {
                assert(p.x != q.x || p.y != q.y);
            }
        }
    }

    /// Once every pair of neighbours among the listed positions is allowed, so is every adjacency observed in the
    /// map.
    proof fn lemma_observed_paired(analyzer: Self, map: GridMap2D<T>, positions: Seq<GridPosition>)
        requires
            listing_of(positions, |p: GridPosition| occupied(map, p)),
            forall|i: int, j: int, d: GridDir|
                #![trigger neighbour_position(map, positions[i], d), positions[j]]
                0 <= i < positions.len() && 0 <= j < positions.len() && neighbour_position(map, positions[i], d)
                    == Some(positions[j]) ==> analyzer.pairs_allowed(
                    tile_id_at(map, positions[i]),
                    d,
                    tile_id_at(map, positions[j]),
                ),
        ensures
            forall|a: u64, d: GridDir, c: u64| tile_observed(map, a, d, c) ==> #[trigger] analyzer.pairs_allowed(a, d, c),
    {
        assert forall|a: u64, d: GridDir, c: u64| tile_observed(map, a, d, c) implies #[trigger] analyzer.pairs_allowed(
            a,
            d,
            c,
        ) by {
            let p = choose|p: GridPosition| #[trigger] tile_observed_at(map, p, a, d, c);
            let q = neighbour_position(map, p, d)->0;
            crate::map::lemma_march_stays_valid(d, p, map.spec_size());
            assert(positions.contains(p));
            assert(positions.contains(q));
            let i = positions.index_of(p);
            let j = positions.index_of(q);
            assert(neighbour_position(map, positions[i], d) == Some(positions[j]));
        }
    }
}

/// The rules of an analyzer are symmetric: a tile may be placed next to another exactly when the other may be
/// placed next to it in the opposite direction.
pub proof fn lemma_pairs_allowed_symmetric<T: IdentifiableTile>(analyzer: MSAnalyzer<T>, a: u64, d: GridDir, c: u64)
    ensures
        analyzer.pairs_allowed(a, d, c) <==> analyzer.pairs_allowed(c, spec_opposite(d), a),
{
    crate::map::lemma_opposite_involutive(d);
    if analyzer.pairs_allowed(a, d, c) {
        let b = choose|b: u64| #[trigger] analyzer.has_border(b) && pair_listed(analyzer.listed(b), a, d, c);
        assert(analyzer.has_border(b) && pair_listed(analyzer.listed(b), c, spec_opposite(d), a));
    }
    if analyzer.pairs_allowed(c, spec_opposite(d), a) {
        let b = choose|b: u64| #[trigger] analyzer.has_border(b) && pair_listed(analyzer.listed(b), c, spec_opposite(d), a);
        assert(analyzer.has_border(b) && pair_listed(analyzer.listed(b), a, d, c));
    }
}

impl<T: IdentifiableTile> AdjacencyAnalyzer<T> for MSAnalyzer<T> {
    closed spec fn rules(&self) -> AdjacencyRules<T> {
        self.adjacency_rules
    }

    closed spec fn seen_tiles(&self) -> Set<u64> {
        self.tiles@.dom()
    }

    fn adjacency(&self) -> (r: &AdjacencyRules<T>) {
        &self.adjacency_rules
    }

    open spec fn spec_frequency(&self) -> FrequencyRules<T> {
        self.frequency_rules()
    }

    fn frequency(&self) -> (r: &FrequencyRules<T>) {
        &self.frequency_rules
    }

    fn tiles(&self) -> (r: Vec<u64>) {
        let r = self.tiles.keys();
        proof {
            assert forall|a: int, b: int| 0 <= a < b < r@.len() implies r@[a] != r@[b] by {
                assert(r@[a] < r@[b]);
            }
            assert forall|t: u64| r@.to_set().contains(t) <==> self.tiles@.dom().contains(t) by {
                assert(r@.contains(t) <==> self.tiles.spec_keys().contains(t));
            }
            assert(r@.to_set() =~= self.tiles@.dom());
        }
        r
    }

    /// The border table is consistent and counting the tiles of the map cannot overflow.
    open spec fn can_analyze(&self, map: GridMap2D<T>) -> bool {
        &&& self.borders_wf()
        &&& forall|positions: Seq<GridPosition>, t: u64|
            listing_of(positions, |p: GridPosition| occupied(map, p)) && #[trigger] counted(
                as_int_weights(self.counts()),
                tile_ids_at(map, positions),
            ).contains_key(t) ==> counted(as_int_weights(self.counts()), tile_ids_at(map, positions))[t] <= u32::MAX
    }

    /// Analyzes the map, in the order of its positions, replacing the rules: each tile is counted and seen, the
    /// borders of each pair of neighbours are merged, and afterwards exactly the pairs of tiles whose facing sides
    /// are listed under one border are allowed. Pairs allowed before stay allowed, and every adjacency observed in
    /// the map becomes allowed.
    fn analyze(&mut self, map: &GridMap2D<T>)
        ensures
            final(self).borders_wf(),
            forall|a: u64, d: GridDir, c: u64| #[trigger]
                final(self).rules().allows(a, d, c) <==> final(self).pairs_allowed(a, d, c),
            forall|t: u64| #[trigger]
                final(self).seen_tiles().contains(t) <==> old(self).seen_tiles().contains(t) || exists|p: GridPosition|
                    p.z is None && #[trigger] occupied(*map, p) && tile_id_at(*map, p) == t,
            exists|positions: Seq<GridPosition>|
                listing_of(positions, |p: GridPosition| occupied(*map, p)) && as_int_weights(final(self).counts())
                    == counted(as_int_weights(old(self).counts()), #[trigger] tile_ids_at(*map, positions)),
            forall|a: u64, d: GridDir, c: u64| #[trigger]
                old(self).pairs_allowed(a, d, c) ==> final(self).pairs_allowed(a, d, c),
            forall|a: u64, d: GridDir, c: u64|
                tile_observed(*map, a, d, c) ==> #[trigger] final(self).rules().allows(a, d, c),
    {
        self.adjacency_rules = AdjacencyRules::new();
        proof {
            Self::lemma_same_table(&*self, &*old(self));
        }
        let positions = map.get_all_positions();
        let ghost start_tiles = self.tiles@.dom();
        let ghost start_counts = as_int_weights(self.frequency_rules.weights());
        let ghost all = tile_ids_at(*map, positions@);
        proof {
            assert forall|t: u64| #[trigger] counted(start_counts, all).contains_key(t) implies counted(start_counts, all)[t]
                <= u32::MAX by {
                assert(counted(as_int_weights(old(self).counts()), tile_ids_at(*map, positions@)).contains_key(t));
            }
            assert(all.take(0) =~= Seq::<u64>::empty());
        }
        let mut k: usize = 0;
        while k < positions.len()
            invariant
                k <= positions@.len(),
                all == tile_ids_at(*map, positions@),
                listing_of(positions@, |p: GridPosition| occupied(*map, p)),
                self.borders_wf(),
                forall|t: u64| #[trigger] counted(start_counts, all).contains_key(t) ==> counted(start_counts, all)[t] <= u32::MAX,
                as_int_weights(self.frequency_rules.weights()) == counted(start_counts, all.take(k as int)),
                forall|t: u64| #[trigger]
                    self.tiles@.dom().contains(t) <==> start_tiles.contains(t) || exists|i: int|
                        0 <= i < k && tile_id_at(*map, #[trigger] positions@[i]) == t,
                forall|a: u64, d: GridDir, c: u64| !#[trigger] self.adjacency_rules.allows(a, d, c),
                forall|a: u64, d: GridDir, c: u64| #[trigger]
                    old(self).pairs_allowed(a, d, c) ==> self.pairs_allowed(a, d, c),
                forall|i: int, d: GridDir|
                    0 <= i < k && #[trigger] neighbour_position(*map, positions@[i], d) is Some ==> self.border(
                        tile_id_at(*map, positions@[i]),
                        d,
                    ) is Some,
                forall|i: int, j: int, d: GridDir|
                    #![trigger neighbour_position(*map, positions@[i], d), positions@[j]]
                    0 <= i < k && 0 <= j < k && neighbour_position(*map, positions@[i], d) == Some(positions@[j])
                        ==> self.pairs_allowed(tile_id_at(*map, positions@[i]), d, tile_id_at(*map, positions@[j])),
            decreases positions@.len() - k,
        {
            let pos = positions[k];
            let ghost prev_state = *self;
            proof {
                assert(positions@.contains(pos));
                assert(all.take(k + 1) =~= all.take(k as int).push(tile_id_at(*map, pos)));
                assert(all =~= all.take(k + 1) + all.skip(k + 1));
                crate::gen::collapse::singular::analyzer::lemma_counted_prefix(
                    start_counts,
                    all.take(k + 1),
                    all.skip(k + 1),
                    tile_id_at(*map, pos),
                );
                assert(all.take(k + 1).drop_last() =~= all.take(k as int));
            }
            let ghost prev = as_int_weights(self.frequency_rules.weights());
            let ghost prev_tiles = self.tiles@.dom();
            self.analyze_tile_at_pos(map, pos);
            k = k + 1;
            proof {
                Self::lemma_neighbours_step(prev_state, *self, *map, positions@, (k - 1) as int);
            }
            proof {
                reveal_with_fuel(counted, 2);
                assert(seq![tile_id_at(*map, pos)].drop_last() =~= Seq::<u64>::empty());
                assert(counted(prev, seq![tile_id_at(*map, pos)]) =~= counted(start_counts, all.take(k as int)));
                assert forall|t: u64| #[trigger]
                    self.tiles@.dom().contains(t) <==> start_tiles.contains(t) || exists|i: int|
                        0 <= i < k && tile_id_at(*map, #[trigger] positions@[i]) == t by {
                    if t == tile_id_at(*map, pos) {
                        assert(tile_id_at(*map, positions@[k - 1]) == t);
                    }
                    if exists|i: int| 0 <= i < k && tile_id_at(*map, #[trigger] positions@[i]) == t {
                        let i = choose|i: int| 0 <= i < k && tile_id_at(*map, #[trigger] positions@[i]) == t;
                        if i < k - 1 {
                            assert(prev_tiles.contains(t));
                        }
                    }
                }
            }
        }
        let ghost before_rules = *self;
        proof {
            Self::lemma_observed_paired(*self, *map, positions@);
        }
        self.generate_adjacency_rules();
        proof {
            Self::lemma_same_table(&*self, &before_rules);
            assert(all.take(k as int) =~= all);
            assert forall|t: u64| #[trigger]
                self.seen_tiles().contains(t) <==> start_tiles.contains(t) || exists|p: GridPosition|
                    p.z is None && #[trigger] occupied(*map, p) && tile_id_at(*map, p) == t by {
                if exists|p: GridPosition| p.z is None && #[trigger] occupied(*map, p) && tile_id_at(*map, p) == t {
                    let p = choose|p: GridPosition| p.z is None && #[trigger] occupied(*map, p) && tile_id_at(*map, p) == t;
                    assert(positions@.contains(p));
                    let i = positions@.index_of(p);
                    assert(tile_id_at(*map, positions@[i]) == t);
                }
                if exists|i: int| 0 <= i < k && tile_id_at(*map, #[trigger] positions@[i]) == t {
                    let i = choose|i: int| 0 <= i < k && tile_id_at(*map, #[trigger] positions@[i]) == t;
                    assert(positions@.contains(positions@[i]));
                }
            }
        }
    }
}

} // verus!
