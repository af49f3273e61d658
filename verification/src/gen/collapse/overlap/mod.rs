//! Overlapping procedural generation: the patterns found in sample grid maps, their analysis, and the grids of
//! tiles collapsing into patterns.
//!
//! Implementation is analogous to the one named `Overlapping Wave-Function Collapse` in external sources.
pub mod analyzer;
pub mod pattern;
pub mod resolver;
pub mod tile;

pub use analyzer::{OverlappingAnalyzer, PatternAdjacencyRules, PatternFrequencyHints};
pub use pattern::{
    OverlappingPattern, OverlappingPattern2D, OverlappingPattern3D, OverlappingPatternGrid, PatternCollection,
    PatternTileData,
};
pub use resolver::{Resolver, Subscriber};
pub use tile::{collapsed_into_collapsible_pattern, CollapsiblePatternGrid};
