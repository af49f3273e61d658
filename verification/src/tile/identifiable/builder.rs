//! Builders of [`IdentifiableTile`]s, which carry their own position.
//!
//! Methods constructing new grid maps need to create new tile instances by their `tile_id`. They use a builder
//! implementing [`IdentTileBuilder`]:
//! - [`IdentTileCloneBuilder`] clones prototypes provided beforehand and moves them to the requested position,
//! - [`IdentTileFunBuilder`] calls constructor functions provided beforehand,
//! - [`IdentTileTraitBuilder`] calls [`ConstructableViaIdentifierTile::tile_new`].
use vstd::prelude::*;

use crate::id_map::IdMap;
use crate::tile::identifiable::builders::{collect_missing, missing_ids};
use crate::tile::identifiable::IdentifiableTile;
use crate::tile::{GridPosition, TileContainer};

verus! {

/// Error stemming from missing tile creators in an [`IdentTileBuilder`].
#[derive(Debug, Clone)]
pub struct TileBuilderError {
    tile_ids: Vec<u64>,
}

impl View for TileBuilderError {
    type V = Seq<u64>;

    closed spec fn view(&self) -> Seq<u64> {
        self.tile_ids@
    }
}

impl TileBuilderError {
    /// Identifiers for which the builder has no tile creator.
    pub fn get_missing_tile_ids(&self) -> (ids: &[u64])
        ensures
            ids@ == self@,
    {
        self.tile_ids.as_slice()
    }
}

/// Builder creating [`IdentifiableTile`]s of given `tile_id` at given positions.
pub trait IdentTileBuilder<T: IdentifiableTile> {
    /// The builder is able to create tiles of this identifier.
    spec fn can_create(&self, tile_id: u64) -> bool;

    /// `tile` is a possible outcome of creating a tile of this identifier at this position.
    spec fn creates(&self, pos: GridPosition, tile_id: u64, tile: T) -> bool;

    /// Creates tile with given identifier at given position; the identifier must have a tile creator.
    fn create_identifiable_tile(&self, pos: GridPosition, tile_id: u64) -> (tile: T)
        requires
            self.can_create(tile_id),
        ensures
            self.creates(pos, tile_id, tile),
    ;

    /// Checks which of the identifiers have no tile creator: the error lists them in their order.
    fn check_missing_tile_creators(&self, tile_ids: &[u64]) -> (r: Result<(), TileBuilderError>)
        ensures
            r is Ok <==> forall|i: int| 0 <= i < tile_ids@.len() ==> self.can_create(#[trigger] tile_ids@[i]),
            r matches Err(e) ==> e@ == missing_ids(tile_ids@, |id: u64| self.can_create(id)),
    ;
}

/// Index of the last element of `tiles` with identifier `id`, or `-1` if there is none.
pub open spec fn last_with_tile_id<T: IdentifiableTile>(tiles: Seq<T>, id: u64) -> int
    decreases tiles.len(),
{
    if tiles.len() == 0 {
        -1
    } else if tiles.last().spec_tile_id() == id {
        tiles.len() - 1
    } else {
        last_with_tile_id(tiles.drop_last(), id)
    }
}

/// Index of the first element of `tiles` with identifier `id`, or `-1` if there is none.
pub open spec fn first_with_tile_id<T: IdentifiableTile>(tiles: Seq<T>, id: u64) -> int
    decreases tiles.len(),
{
    if tiles.len() == 0 {
        -1
    } else {
        let earlier = first_with_tile_id(tiles.drop_last(), id);
        if earlier >= 0 {
            earlier
        } else if tiles.last().spec_tile_id() == id {
            tiles.len() - 1
        } else {
            -1
        }
    }
}

/// Some element of `tiles` has identifier `id`.
pub open spec fn has_tile_id<T: IdentifiableTile>(tiles: Seq<T>, id: u64) -> bool {
    last_with_tile_id(tiles, id) >= 0
}

/// The element of `tiles` whose clone becomes the prototype of `id`: the last one with `overwrite`, else the
/// first one.
pub open spec fn tile_prototype_source<T: IdentifiableTile>(tiles: Seq<T>, id: u64, overwrite: bool) -> int {
    if overwrite {
        last_with_tile_id(tiles, id)
    } else {
        first_with_tile_id(tiles, id)
    }
}

/// The prototypes of the builder after adding `tiles` to prototypes `before`: with `overwrite` a clone of the
/// last tile of each identifier is kept, without it a clone of the first one and only if no prototype was there
/// before.
pub open spec fn tile_prototypes_added<T: IdentifiableTile + Clone>(
    before: Map<u64, T>,
    tiles: Seq<T>,
    overwrite: bool,
    after: Map<u64, T>,
) -> bool {
    &&& forall|id: u64| #[trigger] after.contains_key(id) <==> before.contains_key(id) || has_tile_id(tiles, id)
    &&& forall|id: u64|
        #![trigger after[id]]
        after.contains_key(id) ==> if has_tile_id(tiles, id) && (overwrite || !before.contains_key(id)) {
            cloned(tiles[tile_prototype_source(tiles, id, overwrite)], after[id])
        } else {
            after[id] == before[id]
        }
}

/// The indices of the first and last element with an identifier move with a push as expected.
proof fn lemma_with_tile_id_push<T: IdentifiableTile>(done: Seq<T>, tile: T)
    ensures
        forall|id: u64|
            #![trigger last_with_tile_id(done.push(tile), id)]
            last_with_tile_id(done.push(tile), id) == if tile.spec_tile_id() == id {
                done.len() as int
            } else {
                last_with_tile_id(done, id)
            },
        forall|id: u64|
            #![trigger first_with_tile_id(done.push(tile), id)]
            first_with_tile_id(done.push(tile), id) == if first_with_tile_id(done, id) >= 0 {
                first_with_tile_id(done, id)
            } else if tile.spec_tile_id() == id {
                done.len() as int
            } else {
                -1
            },
        forall|id: u64| #[trigger] has_tile_id(done.push(tile), id) <==> has_tile_id(done, id) || tile.spec_tile_id() == id,
        forall|id: u64| first_with_tile_id(done, id) >= 0 <==> #[trigger] has_tile_id(done, id),
        forall|id: u64| has_tile_id(done, id) ==> 0 <= #[trigger] first_with_tile_id(done, id) < done.len(),
        forall|id: u64| has_tile_id(done, id) ==> 0 <= #[trigger] last_with_tile_id(done, id) < done.len(),
{
    assert(done.push(tile).drop_last() =~= done);
    assert forall|id: u64| first_with_tile_id(done, id) >= 0 <==> #[trigger] has_tile_id(done, id) by {
        lemma_first_last_tile_agree(done, id);
    }
    assert forall|id: u64| has_tile_id(done, id) implies 0 <= #[trigger] first_with_tile_id(done, id) < done.len() by {
        lemma_first_last_tile_agree(done, id);
    }
    assert forall|id: u64| has_tile_id(done, id) implies 0 <= #[trigger] last_with_tile_id(done, id) < done.len() by {
        lemma_first_last_tile_agree(done, id);
    }
    assert forall|id: u64| #[trigger] has_tile_id(done.push(tile), id) <==> has_tile_id(done, id) || tile.spec_tile_id() == id by {
        lemma_first_last_tile_agree(done, id);
    }
}

proof fn lemma_first_last_tile_agree<T: IdentifiableTile>(tiles: Seq<T>, id: u64)
    ensures
        (first_with_tile_id(tiles, id) >= 0) == (last_with_tile_id(tiles, id) >= 0),
        -1 <= first_with_tile_id(tiles, id) < tiles.len(),
        -1 <= last_with_tile_id(tiles, id) < tiles.len(),
    decreases tiles.len(),
{
    if tiles.len() > 0 {
        lemma_first_last_tile_agree(tiles.drop_last(), id);
    }
}

/// Builder cloning tile prototypes provided with [`add_tiles`](Self::add_tiles).
#[derive(Debug)]
pub struct IdentTileCloneBuilder<T: IdentifiableTile + Clone> {
    tiles: IdMap<T>,
}

impl<T: IdentifiableTile + Clone> IdentTileCloneBuilder<T> {
    /// Prototypes kept by the builder, by identifier.
    pub closed spec fn prototypes(&self) -> Map<u64, T> {
        self.tiles@
    }

    /// Builder without any prototypes.
    pub fn new() -> (b: Self)
        ensures
            b.prototypes() == Map::<u64, T>::empty(),
    {
        Self { tiles: IdMap::new() }
    }

    /// Provides tile prototypes. If `overwrite` is `true`, prototypes already saved for an identifier are replaced.
    pub fn add_tiles(&mut self, tiles: Vec<&T>, overwrite: bool)
        ensures
            tile_prototypes_added(
                old(self).prototypes(),
                tiles@.map_values(|t: &T| *t),
                overwrite,
                final(self).prototypes(),
            ),
    {
        let ghost before = self.tiles@;
        let ghost all = tiles@.map_values(|t: &T| *t);
        let mut k: usize = 0;
        while k < tiles.len()
            invariant
                k <= tiles@.len(),
                all == tiles@.map_values(|t: &T| *t),
                tile_prototypes_added(before, all.take(k as int), overwrite, self.tiles@),
            decreases tiles@.len() - k,
        {
            let ghost prev = self.tiles@;
            let tile = tiles[k];
            let id = tile.get_tile_id();
            proof {
                assert(all.take(k + 1) =~= all.take(k as int).push(*tile));
            }
            if !overwrite && self.tiles.contains_key(id) {
                proof {
                    lemma_tile_prototype_kept(before, all.take(k as int), *tile, overwrite, prev);
                }
            } else {
                let data = tile.clone();
                self.tiles.insert(id, data);
                proof {
                    lemma_tile_prototype_added(before, all.take(k as int), *tile, overwrite, prev, data);
                }
            }
            k = k + 1;
        }
        assert(all.take(k as int) =~= all);
    }
}

/// Skipping a tile whose identifier already has a prototype, without overwriting, keeps the prototypes.
proof fn lemma_tile_prototype_kept<T: IdentifiableTile + Clone>(
    before: Map<u64, T>,
    done: Seq<T>,
    tile: T,
    overwrite: bool,
    prev: Map<u64, T>,
)
    requires
        !overwrite,
        tile_prototypes_added(before, done, overwrite, prev),
        prev.contains_key(tile.spec_tile_id()),
    ensures
        tile_prototypes_added(before, done.push(tile), overwrite, prev),
{
    let next = done.push(tile);
    lemma_with_tile_id_push(done, tile);
    assert forall|i: u64| #[trigger] prev.contains_key(i) <==> before.contains_key(i) || has_tile_id(next, i) by {}
    assert forall|i: u64|
        #![trigger prev[i]]
        prev.contains_key(i) implies if has_tile_id(next, i) && (overwrite || !before.contains_key(i)) {
            cloned(next[tile_prototype_source(next, i, overwrite)], prev[i])
        } else {
            prev[i] == before[i]
        } by {
        if has_tile_id(next, i) && !before.contains_key(i) {
            assert(has_tile_id(done, i));
            assert(prev[i] == prev[i]);
            assert(next[first_with_tile_id(done, i)] == done[first_with_tile_id(done, i)]);
        }
    }
}

/// Storing a clone of a tile as the prototype of its identifier.
proof fn lemma_tile_prototype_added<T: IdentifiableTile + Clone>(
    before: Map<u64, T>,
    done: Seq<T>,
    tile: T,
    overwrite: bool,
    prev: Map<u64, T>,
    data: T,
)
    requires
        tile_prototypes_added(before, done, overwrite, prev),
        overwrite || !prev.contains_key(tile.spec_tile_id()),
        cloned(tile, data),
    ensures
        tile_prototypes_added(before, done.push(tile), overwrite, prev.insert(tile.spec_tile_id(), data)),
{
    let next = done.push(tile);
    let id = tile.spec_tile_id();
    let after = prev.insert(id, data);
    let k = done.len() as int;
    lemma_with_tile_id_push(done, tile);
    assert(next[k] == tile);
    assert forall|i: u64| #[trigger] after.contains_key(i) <==> before.contains_key(i) || has_tile_id(next, i) by {
        if i != id {
            assert(after.contains_key(i) == prev.contains_key(i));
        }
    }
    assert forall|i: u64|
        #![trigger after[i]]
        after.contains_key(i) implies if has_tile_id(next, i) && (overwrite || !before.contains_key(i)) {
            cloned(next[tile_prototype_source(next, i, overwrite)], after[i])
        } else {
            after[i] == before[i]
        } by {
        if i == id {
            if !overwrite {
                assert(!has_tile_id(done, i));
            }
        } else if has_tile_id(next, i) && (overwrite || !before.contains_key(i)) {
            assert(has_tile_id(done, i));
            assert(prev[i] == after[i]);
            assert(next[tile_prototype_source(done, i, overwrite)] == done[tile_prototype_source(done, i, overwrite)]);
        }
    }
}

impl<T: IdentifiableTile + Clone> IdentTileBuilder<T> for IdentTileCloneBuilder<T> {
    open spec fn can_create(&self, tile_id: u64) -> bool {
        self.prototypes().contains_key(tile_id)
    }

    /// A clone of the prototype, moved to the position.
    open spec fn creates(&self, pos: GridPosition, tile_id: u64, tile: T) -> bool {
        &&& tile.spec_grid_position() == pos
        &&& exists|c: T| cloned(self.prototypes()[tile_id], c) && c.spec_tile_id() == tile.spec_tile_id()
    }

    fn create_identifiable_tile(&self, pos: GridPosition, tile_id: u64) -> (tile: T) {
        let mut tile = self.tiles.get(tile_id).unwrap().clone();
        let ghost c = tile;
        tile.set_grid_position(pos);
        assert(cloned(self.prototypes()[tile_id], c) && c.spec_tile_id() == tile.spec_tile_id());
        tile
    }

    fn check_missing_tile_creators(&self, tile_ids: &[u64]) -> (r: Result<(), TileBuilderError>) {
        let can = |id: u64| -> (b: bool)
            ensures
                b == self.tiles@.contains_key(id),
            { self.tiles.contains_key(id) };
        let missing = collect_missing(tile_ids, can, Ghost(|id: u64| self.can_create(id)));
        if missing.len() > 0 {
            Err(TileBuilderError { tile_ids: missing })
        } else {
            Ok(())
        }
    }
}

/// Builder calling tile constructor functions, set by identifier.
#[derive(Debug)]
#[verifier::reject_recursive_types(T)]
pub struct IdentTileFunBuilder<T: IdentifiableTile, F: Fn(GridPosition, u64) -> T> {
    funs: IdMap<F>,
}

impl<T: IdentifiableTile, F: Fn(GridPosition, u64) -> T> IdentTileFunBuilder<T, F> {
    #[verifier::type_invariant]
    closed spec fn inv(&self) -> bool {
        forall|id: u64, pos: GridPosition, arg: u64|
            self.funs@.contains_key(id) ==> #[trigger] self.funs@[id].requires((pos, arg))
    }

    /// Constructor functions kept by the builder, by identifier.
    pub closed spec fn constructors(&self) -> Map<u64, F> {
        self.funs@
    }

    /// Builder without any constructor.
    pub fn new() -> (b: Self)
        ensures
            b.constructors() == Map::<u64, F>::empty(),
    {
        Self { funs: IdMap::new() }
    }

    /// Sets the constructor of tiles for `tile_id`, replacing the one set before.
    pub fn set_tile_constructor(&mut self, tile_id: u64, constructor: F)
        requires
            forall|pos: GridPosition, arg: u64| constructor.requires((pos, arg)),
        ensures
            final(self).constructors() == old(self).constructors().insert(tile_id, constructor),
    {
        proof {
            use_type_invariant(&*self);
        }
        let mut funs = IdMap::new();
        std::mem::swap(&mut funs, &mut self.funs);
        funs.insert(tile_id, constructor);
        std::mem::swap(&mut funs, &mut self.funs);
    }
}

impl<T: IdentifiableTile, F: Fn(GridPosition, u64) -> T> IdentTileBuilder<T> for IdentTileFunBuilder<T, F> {
    open spec fn can_create(&self, tile_id: u64) -> bool {
        self.constructors().contains_key(tile_id)
    }

    open spec fn creates(&self, pos: GridPosition, tile_id: u64, tile: T) -> bool {
        self.constructors()[tile_id].ensures((pos, tile_id), tile)
    }

    fn create_identifiable_tile(&self, pos: GridPosition, tile_id: u64) -> (tile: T) {
        proof {
            use_type_invariant(self);
        }
        let fun = self.funs.get(tile_id).unwrap();
        fun(pos, tile_id)
    }

    fn check_missing_tile_creators(&self, tile_ids: &[u64]) -> (r: Result<(), TileBuilderError>) {
        let can = |id: u64| -> (b: bool)
            ensures
                b == self.funs@.contains_key(id),
            { self.funs.contains_key(id) };
        let missing = collect_missing(tile_ids, can, Ghost(|id: u64| self.can_create(id)));
        if missing.len() > 0 {
            Err(TileBuilderError { tile_ids: missing })
        } else {
            Ok(())
        }
    }
}

/// Tile which can be created out of its position and identifier alone.
pub trait ConstructableViaIdentifierTile: IdentifiableTile {
    /// The tile created for the position and identifier.
    spec fn spec_tile_new(pos: GridPosition, tile_id: u64) -> Self;

    fn tile_new(pos: GridPosition, tile_id: u64) -> (tile: Self)
        ensures
            tile == Self::spec_tile_new(pos, tile_id),
    ;
}

/// Builder creating tiles with [`ConstructableViaIdentifierTile::tile_new`]; it can create every identifier.
#[derive(Debug)]
pub struct IdentTileTraitBuilder<T: ConstructableViaIdentifierTile> {
    phantom: std::marker::PhantomData<T>,
}

impl<T: ConstructableViaIdentifierTile> IdentTileTraitBuilder<T> {
    pub fn new() -> (b: Self) {
        Self { phantom: std::marker::PhantomData }
    }
}

impl<T: ConstructableViaIdentifierTile> IdentTileBuilder<T> for IdentTileTraitBuilder<T> {
    open spec fn can_create(&self, tile_id: u64) -> bool {
        true
    }

    open spec fn creates(&self, pos: GridPosition, tile_id: u64, tile: T) -> bool {
        tile == T::spec_tile_new(pos, tile_id)
    }

    fn create_identifiable_tile(&self, pos: GridPosition, tile_id: u64) -> (tile: T) {
        T::tile_new(pos, tile_id)
    }

    fn check_missing_tile_creators(&self, tile_ids: &[u64]) -> (r: Result<(), TileBuilderError>) {
        Ok(())
    }
}

} // verus!
