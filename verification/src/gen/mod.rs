//! Procedural generation of grid maps.
//!
//! - [`collapse`] holds the collapsible generative algorithms, which start from positions that can hold any tile
//! and narrow their options down until each position holds exactly one.
//! - [`adjacency`], [`frequency`] and [`wfc`] hold the rules and analyzers of tiles which carry their own position
//! ([`IdentifiableTile`](crate::tile::identifiable::IdentifiableTile)).
pub mod adjacency;
pub mod collapse;
pub mod frequency;
pub mod ms;
pub mod walker;
pub mod wfc;
