//! Grid maps of identifiable tiles, with analyzers and collapsible generative algorithms working on them.
use vstd::prelude::*;

pub mod id_map;
pub mod map;
pub mod tile;
pub mod gen;

verus! {
} // verus!
