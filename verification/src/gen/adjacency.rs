//! Adjacency rules of tiles carrying their own position.
use vstd::prelude::*;

use crate::gen::collapse::border::{add_border_pairs, pair_listed};
use crate::gen::collapse::AdjacencyTable;
use crate::gen::frequency::FrequencyRules;
use crate::map::{spec_opposite, GridDir, GridMap2D};
use crate::tile::identifiable::IdentifiableTile;

verus! {

/// Analyzer deriving adjacency rules and frequencies out of sample grid maps.
pub trait AdjacencyAnalyzer<T: IdentifiableTile> {
    /// Rules derived so far.
    spec fn rules(&self) -> AdjacencyRules<T>;

    /// Tile types seen so far.
    spec fn seen_tiles(&self) -> Set<u64>;

    fn adjacency(&self) -> (r: &AdjacencyRules<T>)
        ensures
            *r == self.rules(),
    ;

    /// Frequencies counted so far.
    spec fn spec_frequency(&self) -> FrequencyRules<T>;

    fn frequency(&self) -> (r: &FrequencyRules<T>)
        ensures
            *r == self.spec_frequency(),
    ;

    /// Tile types seen so far, each once.
    fn tiles(&self) -> (r: Vec<u64>)
        ensures
            r@.to_set() == self.seen_tiles(),
            r@.no_duplicates(),
    ;

    /// The analyzer can analyze the map (its counts cannot overflow).
    spec fn can_analyze(&self, map: GridMap2D<T>) -> bool;

    fn analyze(&mut self, map: &GridMap2D<T>)
        requires
            old(self).can_analyze(*map),
    ;
}

/// Rules telling which tiles may be placed next to each other, by tile identifier.
#[derive(Debug)]
pub struct AdjacencyRules<T: IdentifiableTile> {
    inner: AdjacencyTable,
    id_type: std::marker::PhantomData<T>,
}

impl<T: IdentifiableTile> AdjacencyRules<T> {
    /// A tile of identifier `adj` may be placed in direction `d` of a tile of identifier `el`.
    pub closed spec fn allows(&self, el: u64, d: GridDir, adj: u64) -> bool {
        self.inner.allows(el, d, adj)
    }

    /// Rules allowing nothing.
    pub fn new() -> (r: Self)
        ensures
            forall|a: u64, d: GridDir, c: u64| !#[trigger] r.allows(a, d, c),
    {
        Self { inner: AdjacencyTable::new(), id_type: std::marker::PhantomData }
    }

    /// Allows `adjacent_tile` in `direction` of `tile`.
    pub fn add_adjacency(&mut self, tile: &T, adjacent_tile: &T, direction: GridDir)
        ensures
            forall|a: u64, d: GridDir, c: u64| #[trigger]
                final(self).allows(a, d, c) <==> old(self).allows(a, d, c) || (a == tile.spec_tile_id() && d
                    == direction && c == adjacent_tile.spec_tile_id()),
    {
        self.add_adjacency_raw(tile.get_tile_id(), adjacent_tile.get_tile_id(), direction)
    }

    /// A tile of identifier `adjacent_id` may hold a neighbour of identifier `tile_id` in `direction`: the
    /// rules allow `adjacent_id` in the opposite direction of `tile_id`.
    pub fn is_adjacent_option_valid(&self, tile_id: u64, adjacent_id: u64, direction: GridDir) -> (r: bool)
        ensures
            r == self.allows(adjacent_id, spec_opposite(direction), tile_id),
    {
        self.is_valid_raw(adjacent_id, tile_id, direction.opposite())
    }

    /// Some of `tile_options` may be placed with `adjacent_id` as its neighbour in `direction`.
    pub fn is_adjacent_option_valid_for_options(&self, tile_options: &[u64], adjacent_id: u64, direction: GridDir) -> (r:
        bool)
        ensures
            r == exists|i: int|
                0 <= i < tile_options@.len() && self.allows(
                    #[trigger] tile_options@[i],
                    spec_opposite(direction),
                    adjacent_id,
                ),
    {
        let mut i: usize = 0;
        while i < tile_options.len()
            invariant
                i <= tile_options@.len(),
                forall|j: int|
                    0 <= j < i ==> !self.allows(#[trigger] tile_options@[j], spec_opposite(direction), adjacent_id),
            decreases tile_options@.len() - i,
        {
            if self.is_adjacent_option_valid(adjacent_id, tile_options[i], direction) {
                return true;
            }
            i = i + 1;
        }
        false
    }

    /// Allows `adjacent_id` in `direction` of `tile_id`.
    pub fn add_adjacency_raw(&mut self, tile_id: u64, adjacent_id: u64, direction: GridDir)
        ensures
            forall|a: u64, d: GridDir, c: u64| #[trigger]
                final(self).allows(a, d, c) <==> old(self).allows(a, d, c) || (a == tile_id && d == direction && c
                    == adjacent_id),
    {
        self.inner.insert_adjacency(tile_id, direction, adjacent_id);
    }

    /// `adjacent_id` is allowed in `direction` of `tile_id`.
    pub fn is_valid_raw(&self, tile_id: u64, adjacent_id: u64, direction: GridDir) -> (r: bool)
        ensures
            r == self.allows(tile_id, direction, adjacent_id),
    {
        self.inner.check_adjacency(tile_id, direction, adjacent_id)
    }

    /// Allows the pairs of tiles whose sides, listed together, face each other.
    pub(crate) fn add_listed_pairs(&mut self, listed: &[(u64, GridDir)])
        ensures
            forall|a: u64, d: GridDir, c: u64| #[trigger]
                final(self).allows(a, d, c) <==> old(self).allows(a, d, c) || pair_listed(listed@, a, d, c),
    {
        add_border_pairs(&mut self.inner, listed);
    }
}

impl<T: IdentifiableTile> Clone for AdjacencyRules<T> {
    fn clone(&self) -> (r: Self)
        ensures
            forall|a: u64, d: GridDir, c: u64| #[trigger] r.allows(a, d, c) == self.allows(a, d, c),
    {
        Self { inner: self.inner.clone(), id_type: std::marker::PhantomData }
    }
}

} // verus!
