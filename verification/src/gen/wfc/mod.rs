//! Analysis of grid maps of tiles carrying their own position, for wave-function-collapse generation.
use vstd::prelude::*;

use crate::tile::TileContainer;

pub mod analyzer;
pub mod resolver;
pub mod vis;

verus! {

/// Tile with an identifier for wave-function-collapse generation, independent of its position: tiles of one
/// type placed at different positions share it.
pub trait WFCTile: TileContainer {
    /// Identifier of the tile's type.
    fn wfc_id(&self) -> u64;
}

} // verus!
