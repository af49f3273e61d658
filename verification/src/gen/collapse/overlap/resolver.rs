//! Resolver collapsing [`CollapsiblePatternGrid`]s, and the subscribers it tells of each pattern chosen.
use vstd::prelude::*;

use rand::rngs::StdRng;

use super::pattern::OverlappingPattern3D;
use super::tile::CollapsiblePatternGrid;
use crate::gen::collapse::error::{CollapseError, CollapseErrorKind};
use crate::gen::collapse::queue::PositionQueue;
use crate::gen::collapse::resolver::{
    allows_known, collapsed_at, filled_at, generation_removals_justified, init_blocked, neighbour_compatible,
};
use crate::gen::collapse::singular::resolver::Subscriber as TileSubscriber;
use crate::id_map::IdMap;
use crate::map::{spec_position_valid, tile_at, GridDir};
use crate::tile::identifiable::IdentifiableTileData;
use crate::tile::GridPosition;

verus! {

/// Reacts to the events of an overlapping generation: injected into a [`Resolver`], it is told of each tile
/// collapsed, with the tile type and the pattern chosen.
pub trait Subscriber {
    /// Called when the tile at `position` is collapsed into the pattern `pattern_id`, standing for `tile_type_id`.
    fn on_collapse(&mut self, position: &GridPosition, tile_type_id: u64, pattern_id: u64);
}

/// Tells a [`Subscriber`] of the patterns collapsed into, with their tile types.
struct PatternNotifier<S: Subscriber> {
    inner: S,
    types: IdMap<u64>,
}

impl<S: Subscriber> TileSubscriber for PatternNotifier<S> {
    fn on_collapse(&mut self, position: &GridPosition, tile_type_id: u64) {
        let pattern_type = match self.types.get(tile_type_id) {
            Some(t) => *t,
            None => 0,
        };
        self.inner.on_collapse(position, pattern_type, tile_type_id);
    }
}

/// Main executor of the overlapping generation, telling its subscriber (if any) of each pattern chosen.
pub struct Resolver<P, Data: IdentifiableTileData, S: Subscriber> {
    subscriber: Option<S>,
    tile_type: std::marker::PhantomData<(P, Data)>,
}

impl<const X: usize, const Y: usize, const Z: usize, Data: IdentifiableTileData, S: Subscriber> Resolver<
    OverlappingPattern3D<X, Y, Z>,
    Data,
    S,
> {
    /// The subscriber attached.
    pub closed spec fn spec_subscriber(&self) -> Option<S> {
        self.subscriber
    }

    /// Resolver without subscriber.
    pub fn new() -> (r: Self)
        ensures
            r.spec_subscriber() is None,
    {
        Self { subscriber: None, tile_type: std::marker::PhantomData }
    }

    /// Attaches a subscriber to the resolver, which will be told of each tile collapsed.
    pub fn with_subscriber(self, subscriber: S) -> (r: Self)
        ensures
            r.spec_subscriber() == Some(subscriber),
    {
        Self { subscriber: Some(subscriber), tile_type: std::marker::PhantomData }
    }

    /// Takes the subscriber out of the resolver.
    pub fn retrieve_subscriber(&mut self) -> (r: Option<S>)
        ensures
            r == old(self).spec_subscriber(),
            final(self).spec_subscriber() is None,
    {
        self.subscriber.take()
    }

    /// Generates the tiles at `positions` of `grid`, collapsing each into one of the patterns it can be, taking
    /// them in the order of `queue`: the tiles there are given every pattern with a weight, those conflicting with
    /// the collapsed tiles around are removed, and then each is collapsed into one of its patterns compatible with
    /// its neighbours, at random (by `rng`, weighted by the weights of the patterns). The subscriber is told of
    /// each pattern chosen.
    ///
    /// Returns the grid with each of `positions` collapsed into a pattern compatible with each of its collapsed
    /// neighbours by the rules of the grid, every pattern taken from a tile left uncollapsed being unsupported by
    /// one of its neighbours (see [`generation_removals_justified`]). An error tells which tile was left without
    /// options, and at which stage.
    pub fn generate(
        &mut self,
        grid: CollapsiblePatternGrid<OverlappingPattern3D<X, Y, Z>, Data>,
        rng: &mut StdRng,
        positions: &[GridPosition],
        queue: PositionQueue,
    ) -> (r: Result<CollapsiblePatternGrid<OverlappingPattern3D<X, Y, Z>, Data>, CollapseError>)
        requires
            grid.wf(),
            forall|i: int| 0 <= i < positions@.len() ==> spec_position_valid(grid.grid().spec_size(), #[trigger] positions@[i]),
            forall|q: GridPosition|
                #[trigger] queue.waiting().contains(q) ==> positions@.contains(q) || tile_at(grid.grid(), q) is Some,
        ensures
            r matches Ok(g) ==> {
                &&& g.wf()
                &&& g.grid().spec_size() == grid.grid().spec_size()
                &&& g.weights() == grid.weights()
                &&& g.rules() == grid.rules()
                &&& g.collection() == grid.collection()
                &&& forall|i: int| 0 <= i < positions@.len() ==> collapsed_at(g.grid(), #[trigger] positions@[i]) is Some
                &&& forall|i: int| 0 <= i < positions@.len() ==> g.weights().contains_key(
                    #[trigger] collapsed_at(g.grid(), positions@[i])->0,
                )
                &&& forall|i: int, d: GridDir|
                    0 <= i < positions@.len() ==> #[trigger] neighbour_compatible(g.grid(), g.rules(), positions@[i], d)
                &&& forall|p: GridPosition|
                    !filled_at(grid.grid().spec_size(), positions@, positions@.len() as int, p) && #[trigger] collapsed_at(
                        grid.grid(),
                        p,
                    ) is Some ==> collapsed_at(g.grid(), p) == collapsed_at(grid.grid(), p)
                &&& generation_removals_justified(grid.grid(), positions@, grid.weights(), g.grid(), grid.rules())
            },
            positions@.len() == 0 && queue.waiting().len() == 0 ==> r is Ok,
            allows_known(grid.rules(), grid.weights(), grid.grid()) && (exists|t: u64| grid.weights().contains_key(t) && grid.weights()[t]
                > 0) && (forall|q: GridPosition|
                tile_at(grid.grid(), q) is Some && !filled_at(grid.grid().spec_size(), positions@, positions@.len() as int, q)
                    ==> #[trigger] collapsed_at(grid.grid(), q) is Some) ==> r is Ok,
            (r matches Err(e) && e.spec_kind() == CollapseErrorKind::Init) <==> exists|i: int|
                0 <= i < positions@.len() && #[trigger] init_blocked(
                    grid.grid(),
                    grid.rules(),
                    positions@,
                    grid.weights(),
                    positions@[i],
                ),
            r matches Err(e) ==> e.spec_kind() != CollapseErrorKind::Propagation,
            final(self).spec_subscriber() is Some <==> old(self).spec_subscriber() is Some,
    {
        let mut grid = grid;
        let mut notifier = match self.subscriber.take() {
            Some(s) => Some(PatternNotifier { inner: s, types: grid.pattern_types() }),
            None => None,
        };
        let r = grid.generate(rng, positions, queue, &mut notifier);
        self.subscriber = match notifier {
            Some(n) => Some(n.inner),
            None => None,
        };
        match r {
            Ok(()) => Ok(grid),
            Err(e) => Err(e),
        }
    }
}

} // verus!
