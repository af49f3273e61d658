//! Frequencies of tiles carrying their own position.
use vstd::prelude::*;

use crate::id_map::IdMap;
use crate::tile::identifiable::IdentifiableTile;

verus! {

/// Number of tiles counted of each identifier.
#[derive(Debug)]
pub struct FrequencyRules<T: IdentifiableTile> {
    weights: IdMap<u32>,
    id_type: std::marker::PhantomData<T>,
}

impl<T: IdentifiableTile> FrequencyRules<T> {
    /// Count of each identifier.
    pub closed spec fn weights(&self) -> Map<u64, u32> {
        self.weights@
    }

    /// Nothing counted.
    pub fn new() -> (f: Self)
        ensures
            f.weights() == Map::<u64, u32>::empty(),
    {
        Self { weights: IdMap::new(), id_type: std::marker::PhantomData }
    }

    /// Counts one more tile of the identifier of `tile`.
    pub fn count_tile(&mut self, tile: &T)
        requires
            old(self).weights().contains_key(tile.spec_tile_id()) ==> old(self).weights()[tile.spec_tile_id()] < u32::MAX,
        ensures
            final(self).weights() == old(self).weights().insert(
                tile.spec_tile_id(),
                if old(self).weights().contains_key(tile.spec_tile_id()) {
                    (old(self).weights()[tile.spec_tile_id()] + 1) as u32
                } else {
                    1u32
                },
            ),
    {
        let id = tile.get_tile_id();
        let next = match self.weights.get(id) {
            Some(count) => *count + 1,
            None => 1,
        };
        self.weights.insert(id, next);
    }

    /// All counts, by identifier in increasing order.
    pub fn get_all_weights_cloned(&self) -> (w: IdMap<u32>)
        ensures
            w@ == self.weights(),
            w.consistent(),
    {
        let w = self.weights.clone();
        assert(w@ =~= self.weights@);
        w
    }
}

impl<T: IdentifiableTile> Clone for FrequencyRules<T> {
    fn clone(&self) -> (r: Self)
        ensures
            r.weights() == self.weights(),
    {
        Self { weights: self.get_all_weights_cloned(), id_type: std::marker::PhantomData }
    }
}

} // verus!
