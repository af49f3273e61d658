//! Tiles identifiable by their type.
//!
//! Generative algorithms match and select tiles by their `tile_type_id`: tiles of the same type share the
//! identifier, whatever their position within the grid map.
use vstd::prelude::*;

use crate::tile::{GridPosition, TileContainer, TileData};

pub mod builder;
pub mod builders;
pub mod collection;

verus! {

/// Tile data which can be told apart from tile data of other types by its `tile_type_id`.
pub trait IdentifiableTileData: TileData {
    spec fn spec_tile_type_id(&self) -> u64;

    fn tile_type_id(&self) -> (id: u64)
        ensures
            id == self.spec_tile_type_id(),
    ;
}

/// Basic tile data implementing [`IdentifiableTileData`], holding only the `tile_type_id`.
#[derive(Clone, Copy, Debug, PartialEq, Eq, Hash, Structural)]
pub struct BasicIdentTileData {
    tile_type_id: u64,
}

impl TileData for BasicIdentTileData {}

impl IdentifiableTileData for BasicIdentTileData {
    open spec fn spec_tile_type_id(&self) -> u64 {
        self.spec_id()
    }

    fn tile_type_id(&self) -> (id: u64) {
        self.tile_type_id
    }
}

impl BasicIdentTileData {
    pub closed spec fn spec_id(&self) -> u64 {
        self.tile_type_id
    }
}

impl builders::ConstructableViaIdentifierTile for BasicIdentTileData {
    open spec fn spec_tile_new(tile_type_id: u64) -> Self {
        Self::spec_with_id(tile_type_id)
    }

    fn tile_new(tile_type_id: u64) -> (data: Self) {
        Self { tile_type_id }
    }
}

impl BasicIdentTileData {
    pub closed spec fn spec_with_id(tile_type_id: u64) -> Self {
        BasicIdentTileData { tile_type_id }
    }

    /// The constructed data carries the identifier it was constructed with.
    pub broadcast proof fn lemma_with_id(tile_type_id: u64)
        ensures
            #[trigger] Self::spec_with_id(tile_type_id).spec_id() == tile_type_id,
    {
    }
}

/// Tile which carries its own position and can be told apart from tiles of other types by its identifier.
pub trait IdentifiableTile: TileData + TileContainer {
    spec fn spec_tile_id(&self) -> u64;

    fn get_tile_id(&self) -> (id: u64)
        ensures
            id == self.spec_tile_id(),
    ;

    /// Moves the tile to another position, keeping its identifier.
    fn set_grid_position(&mut self, position: GridPosition)
        ensures
            final(self).spec_grid_position() == position,
            final(self).spec_tile_id() == old(self).spec_tile_id(),
    ;
}

/// Basic tile implementing [`IdentifiableTile`], holding only its position and identifier.
#[derive(Clone, Copy, Debug)]
pub struct BasicIdentifiableTile2D {
    pos: GridPosition,
    tile_id: u64,
}

impl TileData for BasicIdentifiableTile2D {}

impl TileContainer for BasicIdentifiableTile2D {
    closed spec fn spec_grid_position(&self) -> GridPosition {
        self.pos
    }

    fn grid_position(&self) -> (pos: GridPosition) {
        self.pos
    }
}

impl IdentifiableTile for BasicIdentifiableTile2D {
    closed spec fn spec_tile_id(&self) -> u64 {
        self.tile_id
    }

    fn get_tile_id(&self) -> (id: u64) {
        self.tile_id
    }

    fn set_grid_position(&mut self, position: GridPosition) {
        self.pos = position;
    }
}

impl builder::ConstructableViaIdentifierTile for BasicIdentifiableTile2D {
    closed spec fn spec_tile_new(pos: GridPosition, tile_id: u64) -> Self {
        BasicIdentifiableTile2D { pos, tile_id }
    }

    fn tile_new(pos: GridPosition, tile_id: u64) -> (tile: Self) {
        Self { pos, tile_id }
    }
}

impl BasicIdentifiableTile2D {
    /// The constructed tile carries the position and identifier it was constructed with.
    pub broadcast proof fn lemma_tile_new(pos: GridPosition, tile_id: u64)
        ensures
            #[trigger] <Self as builder::ConstructableViaIdentifierTile>::spec_tile_new(
                pos,
                tile_id,
            ).spec_tile_id() == tile_id,
            <Self as builder::ConstructableViaIdentifierTile>::spec_tile_new(
                pos,
                tile_id,
            ).spec_grid_position() == pos,
    {
    }
}

} // verus!
