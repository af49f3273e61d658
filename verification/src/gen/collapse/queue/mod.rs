//! Queues deciding the order in which tiles are collapsed.
use vstd::prelude::*;

pub mod position;
pub mod propagator;

pub use position::{PositionQueue, PositionQueueDirection, PositionQueueStartingPoint};
pub use propagator::{PropagateItem, Propagator};

verus! {
} // verus!
