//! # Singular procedural generation
//!
//! Collapsible generation working with rules based on tile type adjacencies: a tile of type `X` may be placed in
//! direction `D` of a tile of type `Y`.
//!
//! - [`AdjacencyRules`] and [`FrequencyHints`] hold the rules and the weights of tile types,
//! - [`IdentityAnalyzer`] allows exactly the adjacencies observed on sample maps, while [`BorderAnalyzer`]
//! derives more permissive rules from the borders of tiles: tiles that *could* be placed next to each other,
//! - [`CollapsibleTileGrid`] holds the tiles to collapse together with the rules and weights,
//! - [`Resolver`] collapses them, telling its [`Subscriber`] of each tile collapsed.
pub mod analyzer;
pub mod resolver;
pub mod tile;

pub use analyzer::{
    AdjacencyRules, Analyzer, BorderAnalyzer, FrequencyHints, IdentityAnalyzer, lemma_observed_symmetric, observed,
    observed_at, map_has_id, id_at,
};
pub use resolver::{CollapseHistoryItem, CollapseHistorySubscriber, Resolver, Subscriber};
pub use tile::CollapsibleTileGrid;
