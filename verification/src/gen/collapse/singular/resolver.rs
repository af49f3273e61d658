//! Resolver collapsing [`CollapsibleTileGrid`]s, and the subscribers it tells of each tile collapsed.
use vstd::prelude::*;

use rand::rngs::StdRng;

use super::tile::CollapsibleTileGrid;
use crate::gen::collapse::error::{CollapseError, CollapseErrorKind};
use crate::gen::collapse::queue::PositionQueue;
use crate::gen::collapse::resolver::{
    allows_known, collapse_step_done, collapsed_at, failed_at, filled_at, init_blocked, placed_removals_justified, init_options,
    lemma_init_blocked_by_collapse, lemma_placed_removals_justified, neighbour_compatible, options_at, reported_since, step_result,
};
use crate::map::{spec_position_valid, tile_at, GridDir};
use crate::tile::identifiable::IdentifiableTileData;
use crate::tile::GridPosition;

verus! {

/// Reacts to the events of a generation: injected into a [`Resolver`], it is told of each tile collapsed.
pub trait Subscriber {
    /// The subscriber keeps a record of the collapses it is told of (see [`told`](Subscriber::told)); one that
    /// keeps none need not say so.
    open spec fn keeps_record() -> bool {
        false
    }

    /// Collapses the subscriber was told of, in order: position and tile type.
    open spec fn told(&self) -> Seq<(GridPosition, u64)> {
        Seq::empty()
    }

    /// Called when a generation starts.
    fn on_generation_start(&mut self) {
    }

    /// Called when the tile at `position` is collapsed into `tile_type_id`.
    fn on_collapse(&mut self, position: &GridPosition, tile_type_id: u64)
        ensures
            Self::keeps_record() ==> final(self).told() == old(self).told().push((*position, tile_type_id)),
    ;
}

/// Event in the history of a generation: the tile at `position` collapsed into `tile_type_id`.
#[derive(Debug, Clone, Copy)]
pub struct CollapseHistoryItem {
    pub position: GridPosition,
    pub tile_type_id: u64,
}

/// Subscriber collecting the history of a generation. Each generation started clears the history.
#[derive(Debug, Clone)]
pub struct CollapseHistorySubscriber {
    history: Vec<CollapseHistoryItem>,
}

impl CollapseHistorySubscriber {
    /// Events recorded, in the order they happened.
    pub closed spec fn spec_history(&self) -> Seq<CollapseHistoryItem> {
        self.history@
    }

    /// Subscriber with an empty history.
    pub fn new() -> (s: Self)
        ensures
            s.spec_history() == Seq::<CollapseHistoryItem>::empty(),
    {
        Self { history: Vec::new() }
    }

    /// History of the generation.
    pub fn history(&self) -> (h: &[CollapseHistoryItem])
        ensures
            h@ == self.spec_history(),
    {
        self.history.as_slice()
    }
}

impl Subscriber for CollapseHistorySubscriber {
    open spec fn keeps_record() -> bool {
        true
    }

    closed spec fn told(&self) -> Seq<(GridPosition, u64)> {
        self.history@.map_values(|e: CollapseHistoryItem| (e.position, e.tile_type_id))
    }

    fn on_generation_start(&mut self)
        ensures
            final(self).spec_history() == Seq::<CollapseHistoryItem>::empty(),
    {
        self.history.clear();
    }

    fn on_collapse(&mut self, position: &GridPosition, tile_type_id: u64)
        ensures
            final(self).spec_history() == old(self).spec_history().push(
                CollapseHistoryItem { position: *position, tile_type_id },
            ),
    {
        self.history.push(CollapseHistoryItem { position: *position, tile_type_id });
        assert(self.told() =~= old(self).told().push((*position, tile_type_id)));
    }
}

/// Main executor of the collapsible generation, telling its subscriber (if any) of the generation's events.
pub struct Resolver<Data: IdentifiableTileData, S: Subscriber> {
    subscriber: Option<S>,
    tile_type: std::marker::PhantomData<Data>,
}

impl<Data: IdentifiableTileData, S: Subscriber> Resolver<Data, S> {
    /// The subscriber attached.
    pub closed spec fn spec_subscriber(&self) -> Option<S> {
        self.subscriber
    }

    /// Resolver without subscriber.
    pub fn new() -> (r: Self)
        ensures
            r.spec_subscriber() is None,
    {
        Self { subscriber: None, tile_type: std::marker::PhantomData }
    }

    /// Attaches a subscriber to the resolver, which will be told of each tile collapsed.
    pub fn with_subscriber(self, subscriber: S) -> (r: Self)
        ensures
            r.spec_subscriber() == Some(subscriber),
    {
        Self { subscriber: Some(subscriber), tile_type: std::marker::PhantomData }
    }

    /// Takes the subscriber out of the resolver.
    pub fn retrieve_subscriber(&mut self) -> (r: Option<S>)
        ensures
            r == old(self).spec_subscriber(),
            final(self).spec_subscriber() is None,
    {
        self.subscriber.take()
    }

    /// Starts a generation of the tiles at `positions` of `grid`, to be carried on by [`collapse_at`]
    /// (Self::collapse_at) in an order of the caller's choice: the subscriber is told that the generation starts,
    /// the uncollapsed tiles of the grid are removed, and tiles which can be any of the tile types with a weight
    /// are placed at `positions`, without their options conflicting with the collapsed tiles around them.
    ///
    /// The error names the first of `positions` left without options.
    pub fn start_generation(&mut self, grid: &mut CollapsibleTileGrid<Data>, positions: &[GridPosition]) -> (r: Result<(), CollapseError>)
        requires
            old(grid).wf(),
            forall|i: int| 0 <= i < positions@.len() ==> spec_position_valid(old(grid).grid().spec_size(), #[trigger] positions@[i]),
        ensures
            final(grid).wf(),
            final(grid).grid().spec_size() == old(grid).grid().spec_size(),
            final(grid).weights() == old(grid).weights(),
            final(grid).rules() == old(grid).rules(),
            forall|q: GridPosition|
                !#[trigger] filled_at(old(grid).grid().spec_size(), positions@, positions@.len() as int, q) ==> tile_at(
                    final(grid).grid(),
                    q,
                ) == if collapsed_at(old(grid).grid(), q) is Some {
                    tile_at(old(grid).grid(), q)
                } else {
                    None
                },
            forall|i: int| 0 <= i < positions@.len() ==> tile_at(final(grid).grid(), #[trigger] positions@[i]) is Some
                && collapsed_at(final(grid).grid(), positions@[i]) is None,
            r is Ok ==> init_options(
                final(grid).grid(),
                old(grid).grid(),
                old(grid).rules(),
                positions@,
                old(grid).weights(),
                positions@.len() as int,
            ),
            r is Ok ==> forall|q: GridPosition, o: u64|
                #[trigger] options_at(final(grid).grid(), q).contains_key(o) && filled_at(
                    old(grid).grid().spec_size(),
                    positions@,
                    positions@.len() as int,
                    q,
                ) ==> old(grid).weights().contains_key(o) && options_at(final(grid).grid(), q)[o] == old(grid).weights()[o],
            r is Err <==> exists|i: int|
                0 <= i < positions@.len() && #[trigger] init_blocked(
                    old(grid).grid(),
                    old(grid).rules(),
                    positions@,
                    old(grid).weights(),
                    positions@[i],
                ),
            r matches Err(e) ==> e.spec_kind() == CollapseErrorKind::Init && failed_at(final(grid).grid(), positions@, e),
            final(self).spec_subscriber() is Some <==> old(self).spec_subscriber() is Some,
    {
        match &mut self.subscriber {
            Some(s) => s.on_generation_start(),
            None => {},
        }
        grid.remove_uncollapsed();
        let ghost mid = *grid;
        proof {
            assert forall|q: GridPosition| #[trigger] collapsed_at(grid.grid(), q) == collapsed_at(old(grid).grid(), q) by {
                assert(tile_at(grid.grid(), q) == if collapsed_at(old(grid).grid(), q) is Some {
                    tile_at(old(grid).grid(), q)
                } else {
                    None
                });
            }
            lemma_init_blocked_by_collapse(grid.grid(), old(grid).grid(), grid.rules(), positions@, grid.weights());
        }
        let r = grid.prepare_generation(positions);
        proof {
            assert forall|i: int| 0 <= i < positions@.len() implies #[trigger] init_blocked(
                old(grid).grid(),
                old(grid).rules(),
                positions@,
                old(grid).weights(),
                positions@[i],
            ) == init_blocked(mid.grid(), mid.rules(), positions@, mid.weights(), positions@[i]) by {
                assert(init_blocked(mid.grid(), mid.rules(), positions@, mid.weights(), positions@[i]) == init_blocked(
                    old(grid).grid(),
                    mid.rules(),
                    positions@,
                    mid.weights(),
                    positions@[i],
                ));
            }
            if r is Ok {
                assert forall|p: GridPosition, o: u64|
                    #![trigger filled_at(old(grid).grid().spec_size(), positions@, positions@.len() as int, p), options_at(grid.grid(), p).contains_key(o)]
                    filled_at(old(grid).grid().spec_size(), positions@, positions@.len() as int, p) implies (options_at(
                        grid.grid(),
                        p,
                    ).contains_key(o) <==> old(grid).weights().contains_key(o) && (filled_at(
                        old(grid).grid().spec_size(),
                        positions@,
                        positions@.len() as int,
                        p,
                    ) ==> !crate::gen::collapse::resolver::precollapsed_blocks(
                        old(grid).grid(),
                        old(grid).rules(),
                        positions@,
                        p,
                        o,
                    ))) by {
                    assert(crate::gen::collapse::resolver::precollapsed_blocks(mid.grid(), mid.rules(), positions@, p, o)
                        == crate::gen::collapse::resolver::precollapsed_blocks(
                        old(grid).grid(),
                        old(grid).rules(),
                        positions@,
                        p,
                        o,
                    ));
                    assert(filled_at(mid.grid().spec_size(), positions@, positions@.len() as int, p));
                }
                assert forall|q: GridPosition, o: u64|
                    #[trigger] options_at(grid.grid(), q).contains_key(o) && filled_at(
                        old(grid).grid().spec_size(),
                        positions@,
                        positions@.len() as int,
                        q,
                    ) implies old(grid).weights().contains_key(o) by {
                    assert(options_at(grid.grid(), q).contains_key(o) <==> mid.weights().contains_key(o) && (filled_at(
                        old(grid).grid().spec_size(),
                        positions@,
                        positions@.len() as int,
                        q,
                    ) ==> !crate::gen::collapse::resolver::precollapsed_blocks(mid.grid(), mid.rules(), positions@, q, o)));
                }
            }
        }
        r
    }

    /// Collapses the tile at `position` of `grid` as one step of a generation started by
    /// [`start_generation`](Self::start_generation): removes its options conflicting with its neighbours, collapses
    /// it into one of the rest at random (weighted by the options' weights), tells the subscriber of it, and
    /// removes from its uncollapsed neighbours the options not allowing the chosen type (see
    /// [`collapse_step_done`]). Returns the neighbours whose options changed; nothing if the tile was collapsed
    /// already.
    pub fn collapse_at(
        &mut self,
        grid: &mut CollapsibleTileGrid<Data>,
        rng: &mut StdRng,
        position: GridPosition,
    ) -> (r: Result<Vec<GridPosition>, CollapseError>)
        requires
            old(grid).wf(),
            tile_at(old(grid).grid(), position) is Some,
        ensures
            final(grid).wf(),
            final(grid).weights() == old(grid).weights(),
            final(grid).rules() == old(grid).rules(),
            collapse_step_done(old(grid).grid(), final(grid).grid(), old(grid).rules(), position, step_result(r)),
            collapsed_at(old(grid).grid(), position) is Some ==> final(self).spec_subscriber() == old(self).spec_subscriber(),
            collapsed_at(old(grid).grid(), position) is None && collapsed_at(final(grid).grid(), position) is Some
                && S::keeps_record() && old(self).spec_subscriber() is Some ==> final(self).spec_subscriber()->0.told()
                == old(self).spec_subscriber()->0.told().push((position, collapsed_at(final(grid).grid(), position)->0)),
            final(self).spec_subscriber() is Some <==> old(self).spec_subscriber() is Some,
    {
        grid.collapse_at(rng, position, &mut self.subscriber)
    }

    /// Generates the tiles at `positions` of `grid`, taking them in the order of `queue`. The uncollapsed tiles
    /// of the grid are removed first; the subscriber is told that the generation starts and then of each tile
    /// collapsed.
    ///
    /// On success each of `positions` holds a collapsed tile, compatible with each of its collapsed neighbours by
    /// the rules of the grid. An error tells which tile was left without options, and at which stage. Whatever the
    /// outcome, every option of the weights missing at one of `positions` left uncollapsed is unsupported by one
    /// of its neighbours (see [`placed_removals_justified`]).
    pub fn generate_position(
        &mut self,
        grid: &mut CollapsibleTileGrid<Data>,
        rng: &mut StdRng,
        positions: &[GridPosition],
        queue: PositionQueue,
    ) -> (r: Result<(), CollapseError>)
        requires
            old(grid).wf(),
            forall|i: int| 0 <= i < positions@.len() ==> spec_position_valid(old(grid).grid().spec_size(), #[trigger] positions@[i]),
            forall|q: GridPosition|
                #[trigger] queue.waiting().contains(q) ==> positions@.contains(q) || collapsed_at(old(grid).grid(), q) is Some,
        ensures
            final(grid).wf(),
            final(grid).grid().spec_size() == old(grid).grid().spec_size(),
            final(grid).rules() == old(grid).rules(),
            final(grid).weights() == old(grid).weights(),
            r is Ok ==> forall|i: int| 0 <= i < positions@.len() ==> collapsed_at(final(grid).grid(), #[trigger] positions@[i]) is Some,
            r is Ok ==> forall|i: int, d: GridDir|
                0 <= i < positions@.len() ==> #[trigger] neighbour_compatible(final(grid).grid(), final(grid).rules(), positions@[i], d),
            r matches Err(e) ==> failed_at(final(grid).grid(), positions@, e),
            placed_removals_justified(positions@, old(grid).weights(), final(grid).grid(), old(grid).rules()),
            positions@.len() == 0 && queue.waiting().len() == 0 ==> r is Ok,
            allows_known(old(grid).rules(), old(grid).weights(), old(grid).grid()) && (exists|t: u64| old(grid).weights().contains_key(t) && old(grid).weights()[t]
                > 0) ==> r is Ok,
            (r matches Err(e) && e.spec_kind() == CollapseErrorKind::Init) <==> exists|i: int|
                0 <= i < positions@.len() && #[trigger] init_blocked(
                    old(grid).grid(),
                    old(grid).rules(),
                    positions@,
                    old(grid).weights(),
                    positions@[i],
                ),
            r is Ok ==> forall|i: int|
                0 <= i < positions@.len() ==> final(grid).weights().contains_key(
                    #[trigger] collapsed_at(final(grid).grid(), positions@[i])->0,
                ),
            forall|p: GridPosition|
                !filled_at(old(grid).grid().spec_size(), positions@, positions@.len() as int, p) && #[trigger] collapsed_at(
                    old(grid).grid(),
                    p,
                ) is Some ==> collapsed_at(final(grid).grid(), p) == collapsed_at(old(grid).grid(), p),
            final(self).spec_subscriber() is Some <==> old(self).spec_subscriber() is Some,
            S::keeps_record() && final(self).spec_subscriber() is Some ==> exists|told_before: Seq<(GridPosition, u64)>, log: Seq<(GridPosition, u64)>|
                #[trigger] reported_since(log, old(grid).grid(), positions@, final(grid).grid()) && final(self).spec_subscriber()->0.told()
                    == #[trigger] told_before.add(log),
    {
        match &mut self.subscriber {
            Some(s) => s.on_generation_start(),
            None => {},
        }
        grid.remove_uncollapsed();
        proof {
            assert forall|p: GridPosition| #[trigger] collapsed_at(old(grid).grid(), p) is Some implies collapsed_at(
                grid.grid(),
                p,
            ) == collapsed_at(old(grid).grid(), p) by {
                assert(tile_at(grid.grid(), p) == tile_at(old(grid).grid(), p));
            }
            assert forall|q: GridPosition| #[trigger] collapsed_at(grid.grid(), q) == collapsed_at(old(grid).grid(), q) by {
                assert(tile_at(grid.grid(), q) == if collapsed_at(old(grid).grid(), q) is Some {
                    tile_at(old(grid).grid(), q)
                } else {
                    None
                });
            }
            lemma_init_blocked_by_collapse(grid.grid(), old(grid).grid(), grid.rules(), positions@, grid.weights());
            assert forall|q: GridPosition|
                #[trigger] queue.waiting().contains(q) implies positions@.contains(q) || tile_at(grid.grid(), q) is Some by {
                if !positions@.contains(q) {
                    assert(collapsed_at(old(grid).grid(), q) is Some);
                }
            }
        }
        let ghost mid = *grid;
        let ghost sub_mid = self.subscriber;
        let r = grid.generate(rng, positions, queue, &mut self.subscriber);
        proof {
            lemma_placed_removals_justified(mid.grid(), positions@, mid.weights(), grid.grid(), mid.rules());
            if S::keeps_record() && self.subscriber is Some {
                let log = choose|log: Seq<(GridPosition, u64)>|
                    #[trigger] reported_since(log, mid.grid(), positions@, grid.grid()) && self.subscriber->0.told() == sub_mid->0.told()
                        + log;
                assert(reported_since(log, old(grid).grid(), positions@, grid.grid()));
                assert(self.subscriber->0.told() == sub_mid->0.told().add(log));
            }
            assert forall|i: int| 0 <= i < positions@.len() implies #[trigger] init_blocked(
                old(grid).grid(),
                old(grid).rules(),
                positions@,
                old(grid).weights(),
                positions@[i],
            ) == init_blocked(mid.grid(), mid.rules(), positions@, mid.weights(), positions@[i]) by {
                assert(init_blocked(mid.grid(), mid.rules(), positions@, mid.weights(), positions@[i]) == init_blocked(
                    old(grid).grid(),
                    mid.rules(),
                    positions@,
                    mid.weights(),
                    positions@[i],
                ));
            }
        }
        r
    }
}

} // verus!
