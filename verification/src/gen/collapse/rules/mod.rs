//! Rules of the collapsible generation: adjacency rules of tiles carrying their own position, and the patterns of
//! the overlapping algorithm.
use vstd::prelude::*;

use crate::tile::identifiable::IdentifiableTile;

pub mod adjacency;
pub mod pattern;

verus! {

/// Set of rules for the collapsible generation of tiles of type `InputTile`.
pub struct AdjacencyRuleset<InputTile: IdentifiableTile> {
    input_tile_type: std::marker::PhantomData<InputTile>,
}

} // verus!
