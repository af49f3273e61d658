//! Builders of [`GridTile`]s holding [`IdentifiableTileData`].
//!
//! Methods constructing new grid maps need to create new tile instances by their `tile_type_id`. They use a builder
//! implementing [`IdentTileBuilder`], which follows some strategy to create the data of new tiles:
//! - [`IdentTileCloneBuilder`] clones prototypes provided beforehand,
//! - [`IdentTileFunBuilder`] calls constructor functions provided beforehand,
//! - [`IdentTileTraitBuilder`] calls [`ConstructableViaIdentifierTile::tile_new`].
use vstd::prelude::*;

use crate::id_map::IdMap;
use crate::tile::identifiable::IdentifiableTileData;
use crate::tile::{GridPosition, GridTile, TileContainer};

verus! {

/// Error stemming from missing tiles in an [`IdentTileBuilder`].
#[derive(Debug, Clone)]
pub struct TileBuilderError {
    tile_type_ids: Vec<u64>,
}

impl View for TileBuilderError {
    type V = Seq<u64>;

    closed spec fn view(&self) -> Seq<u64> {
        self.tile_type_ids@
    }
}

impl TileBuilderError {
    fn new(tile_ids: &[u64]) -> (e: Self)
        ensures
            e@ == tile_ids@,
    {
        let mut tile_type_ids: Vec<u64> = Vec::new();
        let mut i: usize = 0;
        while i < tile_ids.len()
            invariant
                i <= tile_ids@.len(),
                tile_type_ids@ == tile_ids@.take(i as int),
            decreases tile_ids@.len() - i,
        {
            tile_type_ids.push(tile_ids[i]);
            i = i + 1;
            assert(tile_type_ids@ =~= tile_ids@.take(i as int));
        }
        assert(tile_ids@.take(i as int) =~= tile_ids@);
        Self { tile_type_ids }
    }

    /// Identifiers for which the builder could not build tiles.
    pub fn get_missing_tile_type_ids(&self) -> (ids: &[u64])
        ensures
            ids@ == self@,
    {
        self.tile_type_ids.as_slice()
    }
}

/// Identifiers out of `ids` for which `can_build` does not hold, in their order.
pub open spec fn missing_ids(ids: Seq<u64>, can_build: spec_fn(u64) -> bool) -> Seq<u64> {
    ids.filter(|id: u64| !can_build(id))
}

/// Builder creating [`GridTile`]s of given `tile_type_id` at given positions.
pub trait IdentTileBuilder<Data: IdentifiableTileData> {
    /// The builder is able to create tile data of this identifier.
    spec fn can_build(&self, tile_type_id: u64) -> bool;

    /// `data` is a possible outcome of building tile data of this identifier.
    spec fn builds(&self, tile_type_id: u64, data: Data) -> bool;

    /// Creates tile with given identifier at given position. The identifier must be buildable; see
    /// [`check_missing_ids`](IdentTileBuilder::check_missing_ids) and [`build_tile`](IdentTileBuilder::build_tile).
    fn build_tile_unchecked(&self, position: GridPosition, tile_type_id: u64) -> (tile: GridTile<Data>)
        requires
            self.can_build(tile_type_id),
        ensures
            tile.spec_grid_position() == position,
            self.builds(tile_type_id, tile.spec_data()),
    ;

    /// Creates tile with given identifier at given position, or returns an error holding the identifier if the
    /// builder cannot build it.
    fn build_tile(&self, position: GridPosition, tile_type_id: u64) -> (r: Result<
        GridTile<Data>,
        TileBuilderError,
    >)
        ensures
            r is Ok <==> self.can_build(tile_type_id),
            r matches Ok(tile) ==> tile.spec_grid_position() == position && self.builds(
                tile_type_id,
                tile.spec_data(),
            ),
            r matches Err(e) ==> e@ == seq![tile_type_id],
    ;

    /// Checks which of the identifiers cannot be built: the error lists them in their order.
    fn check_missing_ids(&self, tile_type_ids: &[u64]) -> (r: Result<(), TileBuilderError>)
        ensures
            r is Ok <==> forall|i: int|
                0 <= i < tile_type_ids@.len() ==> self.can_build(#[trigger] tile_type_ids@[i]),
            r matches Err(e) ==> e@ == missing_ids(tile_type_ids@, |id: u64| self.can_build(id)),
    ;
}

/// Collects, in their order, the identifiers for which `can(id)` is false.
pub(crate) fn collect_missing<F: Fn(u64) -> bool>(tile_type_ids: &[u64], can: F, Ghost(can_spec): Ghost<
    spec_fn(u64) -> bool,
>) -> (missing: Vec<u64>)
    requires
        forall|id: u64| can.requires((id,)),
        forall|id: u64, b: bool| can.ensures((id,), b) ==> b == can_spec(id),
    ensures
        missing@ == missing_ids(tile_type_ids@, can_spec),
        missing@.len() == 0 <==> forall|i: int|
            0 <= i < tile_type_ids@.len() ==> can_spec(#[trigger] tile_type_ids@[i]),
{
    let ghost pred = |id: u64| !can_spec(id);
    let mut missing: Vec<u64> = Vec::new();
    let mut i: usize = 0;
    while i < tile_type_ids.len()
        invariant
            i <= tile_type_ids@.len(),
            forall|id: u64| can.requires((id,)),
            forall|id: u64, b: bool| can.ensures((id,), b) ==> b == can_spec(id),
            pred == (|id: u64| !can_spec(id)),
            missing@ == tile_type_ids@.take(i as int).filter(pred),
            missing@.len() == 0 <==> forall|j: int| 0 <= j < i ==> can_spec(#[trigger] tile_type_ids@[j]),
        decreases tile_type_ids@.len() - i,
    {
        proof {
            reveal_with_fuel(Seq::filter, 1);
            assert(tile_type_ids@.take(i + 1).drop_last() =~= tile_type_ids@.take(i as int));
        }
        let id = tile_type_ids[i];
        let ghost before = missing@;
        if !can(id) {
            missing.push(id);
        } else {
            proof {
                if before.len() == 0 {
                    assert forall|j: int| 0 <= j < i + 1 implies can_spec(#[trigger] tile_type_ids@[j]) by {}
                }
            }
        }
        i = i + 1;
    }
    assert(tile_type_ids@.take(i as int) =~= tile_type_ids@);
    missing
}

/// Index of the last element of `tiles` with identifier `id`, or `-1` if there is none.
pub open spec fn last_with_id<Data: IdentifiableTileData>(tiles: Seq<Data>, id: u64) -> int
    decreases tiles.len(),
{
    if tiles.len() == 0 {
        -1
    } else if tiles.last().spec_tile_type_id() == id {
        tiles.len() - 1
    } else {
        last_with_id(tiles.drop_last(), id)
    }
}

/// Index of the first element of `tiles` with identifier `id`, or `-1` if there is none.
pub open spec fn first_with_id<Data: IdentifiableTileData>(tiles: Seq<Data>, id: u64) -> int
    decreases tiles.len(),
{
    if tiles.len() == 0 {
        -1
    } else {
        let earlier = first_with_id(tiles.drop_last(), id);
        if earlier >= 0 {
            earlier
        } else if tiles.last().spec_tile_type_id() == id {
            tiles.len() - 1
        } else {
            -1
        }
    }
}

/// Some element of `tiles` has identifier `id`.
pub open spec fn has_id<Data: IdentifiableTileData>(tiles: Seq<Data>, id: u64) -> bool {
    last_with_id(tiles, id) >= 0
}

/// The element of `tiles` whose clone becomes the prototype of `id`: the last one with `overwrite`, else the
/// first one.
pub open spec fn prototype_source<Data: IdentifiableTileData>(tiles: Seq<Data>, id: u64, overwrite: bool) -> int {
    if overwrite {
        last_with_id(tiles, id)
    } else {
        first_with_id(tiles, id)
    }
}

/// The prototypes of the builder after adding `tiles` to prototypes `before`: with `overwrite` a clone of the
/// last tile of each identifier is kept, without it a clone of the first one and only if no prototype was there
/// before.
pub open spec fn prototypes_added<Data: IdentifiableTileData + Clone>(
    before: Map<u64, Data>,
    tiles: Seq<Data>,
    overwrite: bool,
    after: Map<u64, Data>,
) -> bool {
    &&& forall|id: u64| #[trigger] after.contains_key(id) <==> before.contains_key(id) || has_id(tiles, id)
    &&& forall|id: u64|
        #![trigger after[id]]
        after.contains_key(id) ==> if has_id(tiles, id) && (overwrite || !before.contains_key(id)) {
            cloned(tiles[prototype_source(tiles, id, overwrite)], after[id])
        } else {
            after[id] == before[id]
        }
}

/// The indices of the first and last element with an identifier move with a push as expected.
proof fn lemma_with_id_push<Data: IdentifiableTileData>(done: Seq<Data>, tile: Data)
    ensures
        forall|id: u64|
            #![trigger last_with_id(done.push(tile), id)]
            last_with_id(done.push(tile), id) == if tile.spec_tile_type_id() == id {
                done.len() as int
            } else {
                last_with_id(done, id)
            },
        forall|id: u64|
            #![trigger first_with_id(done.push(tile), id)]
            first_with_id(done.push(tile), id) == if first_with_id(done, id) >= 0 {
                first_with_id(done, id)
            } else if tile.spec_tile_type_id() == id {
                done.len() as int
            } else {
                -1
            },
        forall|id: u64| #[trigger] has_id(done.push(tile), id) <==> has_id(done, id) || tile.spec_tile_type_id() == id,
        forall|id: u64| first_with_id(done, id) >= 0 <==> #[trigger] has_id(done, id),
        forall|id: u64| has_id(done, id) ==> 0 <= #[trigger] first_with_id(done, id) < done.len(),
        forall|id: u64| has_id(done, id) ==> 0 <= #[trigger] last_with_id(done, id) < done.len(),
{
    assert(done.push(tile).drop_last() =~= done);
    assert forall|id: u64| first_with_id(done, id) >= 0 <==> #[trigger] has_id(done, id) by {
        lemma_first_last_agree(done, id);
    }
    assert forall|id: u64| has_id(done, id) implies 0 <= #[trigger] first_with_id(done, id) < done.len() by {
        lemma_first_last_agree(done, id);
    }
    assert forall|id: u64| has_id(done, id) implies 0 <= #[trigger] last_with_id(done, id) < done.len() by {
        lemma_first_last_agree(done, id);
    }
    assert forall|id: u64| #[trigger] has_id(done.push(tile), id) <==> has_id(done, id) || tile.spec_tile_type_id() == id by {
        lemma_first_last_agree(done, id);
    }
}

proof fn lemma_first_last_agree<Data: IdentifiableTileData>(tiles: Seq<Data>, id: u64)
    ensures
        (first_with_id(tiles, id) >= 0) == (last_with_id(tiles, id) >= 0),
        -1 <= first_with_id(tiles, id) < tiles.len(),
        -1 <= last_with_id(tiles, id) < tiles.len(),
    decreases tiles.len(),
{
    if tiles.len() > 0 {
        lemma_first_last_agree(tiles.drop_last(), id);
    }
}

/// Builder cloning prototypes of tile data provided with [`add_tiles`](Self::add_tiles).
#[derive(Debug)]
pub struct IdentTileCloneBuilder<Data: IdentifiableTileData + Clone> {
    tiles: IdMap<Data>,
}

impl<Data: IdentifiableTileData + Clone> IdentTileCloneBuilder<Data> {
    /// Prototypes kept by the builder, by identifier.
    pub closed spec fn prototypes(&self) -> Map<u64, Data> {
        self.tiles@
    }

    /// Builder without any prototypes.
    pub fn new() -> (b: Self)
        ensures
            b.prototypes() == Map::<u64, Data>::empty(),
    {
        Self { tiles: IdMap::new() }
    }

    /// Provides prototypes of tile data. If `overwrite` is `true`, prototypes already saved for an identifier are
    /// replaced.
    pub fn add_tiles(&mut self, tiles: &[Data], overwrite: bool)
        ensures
            prototypes_added(old(self).prototypes(), tiles@, overwrite, final(self).prototypes()),
    {
        let ghost before = self.tiles@;
        let mut k: usize = 0;
        while k < tiles.len()
            invariant
                k <= tiles@.len(),
                prototypes_added(before, tiles@.take(k as int), overwrite, self.tiles@),
            decreases tiles@.len() - k,
        {
            let ghost prev = self.tiles@;
            let tile = &tiles[k];
            let id = tile.tile_type_id();
            proof {
                assert(tiles@.take(k + 1) =~= tiles@.take(k as int).push(*tile));
            }
            if !overwrite && self.tiles.contains_key(id) {
                proof {
                    lemma_prototype_kept(before, tiles@.take(k as int), *tile, overwrite, prev);
                }
            } else {
                let data = tile.clone();
                self.tiles.insert(id, data);
                proof {
                    lemma_prototype_added(before, tiles@.take(k as int), *tile, overwrite, prev, data);
                }
            }
            k = k + 1;
        }
        assert(tiles@.take(k as int) =~= tiles@);
    }
}

/// Skipping a tile whose identifier already has a prototype, without overwriting, keeps the prototypes.
proof fn lemma_prototype_kept<Data: IdentifiableTileData + Clone>(
    before: Map<u64, Data>,
    done: Seq<Data>,
    tile: Data,
    overwrite: bool,
    prev: Map<u64, Data>,
)
    requires
        !overwrite,
        prototypes_added(before, done, overwrite, prev),
        prev.contains_key(tile.spec_tile_type_id()),
    ensures
        prototypes_added(before, done.push(tile), overwrite, prev),
{
    let next = done.push(tile);
    lemma_with_id_push(done, tile);
    assert forall|i: u64| #[trigger] prev.contains_key(i) <==> before.contains_key(i) || has_id(next, i) by {}
    assert forall|i: u64|
        #![trigger prev[i]]
        prev.contains_key(i) implies if has_id(next, i) && (overwrite || !before.contains_key(i)) {
            cloned(next[prototype_source(next, i, overwrite)], prev[i])
        } else {
            prev[i] == before[i]
        } by {
        if has_id(next, i) && !before.contains_key(i) {
            assert(has_id(done, i));
            assert(prev[i] == prev[i]);
            assert(next[first_with_id(done, i)] == done[first_with_id(done, i)]);
        }
    }
}

/// Storing a clone of a tile as the prototype of its identifier.
proof fn lemma_prototype_added<Data: IdentifiableTileData + Clone>(
    before: Map<u64, Data>,
    done: Seq<Data>,
    tile: Data,
    overwrite: bool,
    prev: Map<u64, Data>,
    data: Data,
)
    requires
        prototypes_added(before, done, overwrite, prev),
        overwrite || !prev.contains_key(tile.spec_tile_type_id()),
        cloned(tile, data),
    ensures
        prototypes_added(before, done.push(tile), overwrite, prev.insert(tile.spec_tile_type_id(), data)),
{
    let next = done.push(tile);
    let id = tile.spec_tile_type_id();
    let after = prev.insert(id, data);
    let k = done.len() as int;
    lemma_with_id_push(done, tile);
    assert(next[k] == tile);
    assert forall|i: u64| #[trigger] after.contains_key(i) <==> before.contains_key(i) || has_id(next, i) by {
        if i != id {
            assert(after.contains_key(i) == prev.contains_key(i));
        }
    }
    assert forall|i: u64|
        #![trigger after[i]]
        after.contains_key(i) implies if has_id(next, i) && (overwrite || !before.contains_key(i)) {
            cloned(next[prototype_source(next, i, overwrite)], after[i])
        } else {
            after[i] == before[i]
        } by {
        if i == id {
            if !overwrite {
                assert(!has_id(done, i));
            }
        } else if has_id(next, i) && (overwrite || !before.contains_key(i)) {
            assert(has_id(done, i));
            assert(prev[i] == after[i]);
            assert(next[prototype_source(done, i, overwrite)] == done[prototype_source(done, i, overwrite)]);
        }
    }
}

impl<Data: IdentifiableTileData + Clone> IdentTileBuilder<Data> for IdentTileCloneBuilder<Data> {
    open spec fn can_build(&self, tile_type_id: u64) -> bool {
        self.prototypes().contains_key(tile_type_id)
    }

    open spec fn builds(&self, tile_type_id: u64, data: Data) -> bool {
        cloned(self.prototypes()[tile_type_id], data)
    }

    fn build_tile_unchecked(&self, position: GridPosition, tile_type_id: u64) -> (tile: GridTile<Data>) {
        let data = self.tiles.get(tile_type_id).unwrap().clone();
        GridTile::new(position, data)
    }

    fn build_tile(&self, position: GridPosition, tile_type_id: u64) -> (r: Result<
        GridTile<Data>,
        TileBuilderError,
    >) {
        match self.tiles.get(tile_type_id) {
            Some(tile) => {
                let data = tile.clone();
                Ok(GridTile::new(position, data))
            },
            None => Err(TileBuilderError::new(&[tile_type_id])),
        }
    }

    fn check_missing_ids(&self, tile_type_ids: &[u64]) -> (r: Result<(), TileBuilderError>) {
        let can = |id: u64| -> (b: bool)
            ensures
                b == self.tiles@.contains_key(id),
            { self.tiles.contains_key(id) };
        let missing = collect_missing(tile_type_ids, can, Ghost(|id: u64| self.can_build(id)));
        if missing.len() > 0 {
            Err(TileBuilderError { tile_type_ids: missing })
        } else {
            Ok(())
        }
    }
}

/// Builder calling constructor functions provided with [`set_tile_constructor`](Self::set_tile_constructor).
#[derive(Debug)]
#[verifier::reject_recursive_types(Data)]
pub struct IdentTileFunBuilder<Data: IdentifiableTileData, F: Fn(u64) -> Data> {
    funs: IdMap<F>,
}

impl<Data: IdentifiableTileData, F: Fn(u64) -> Data> IdentTileFunBuilder<Data, F> {
    #[verifier::type_invariant]
    closed spec fn inv(&self) -> bool {
        forall|id: u64, arg: u64|
            self.funs@.contains_key(id) ==> #[trigger] self.funs@[id].requires((arg,))
    }

    /// Constructor functions kept by the builder, by identifier.
    pub closed spec fn constructors(&self) -> Map<u64, F> {
        self.funs@
    }

    /// Builder without any constructor.
    pub fn new() -> (b: Self)
        ensures
            b.constructors() == Map::<u64, F>::empty(),
    {
        Self { funs: IdMap::new() }
    }

    /// Sets the constructor of tile data for `tile_id`, replacing the one set before.
    pub fn set_tile_constructor(&mut self, tile_id: u64, constructor: F)
        requires
            forall|arg: u64| constructor.requires((arg,)),
        ensures
            final(self).constructors() == old(self).constructors().insert(tile_id, constructor),
    {
        proof {
            use_type_invariant(&*self);
        }
        let mut funs = IdMap::new();
        std::mem::swap(&mut funs, &mut self.funs);
        funs.insert(tile_id, constructor);
        std::mem::swap(&mut funs, &mut self.funs);
    }

    /// Removes all constructors.
    pub fn clear(&mut self)
        ensures
            final(self).constructors() == Map::<u64, F>::empty(),
    {
        let mut funs = IdMap::new();
        std::mem::swap(&mut funs, &mut self.funs);
        funs.clear();
        std::mem::swap(&mut funs, &mut self.funs);
    }
}

impl<Data: IdentifiableTileData, F: Fn(u64) -> Data> IdentTileBuilder<Data> for IdentTileFunBuilder<
    Data,
    F,
> {
    open spec fn can_build(&self, tile_type_id: u64) -> bool {
        self.constructors().contains_key(tile_type_id)
    }

    open spec fn builds(&self, tile_type_id: u64, data: Data) -> bool {
        self.constructors()[tile_type_id].ensures((tile_type_id,), data)
    }

    fn build_tile_unchecked(&self, position: GridPosition, tile_type_id: u64) -> (tile: GridTile<Data>) {
        proof {
            use_type_invariant(self);
        }
        let fun = self.funs.get(tile_type_id).unwrap();
        GridTile::new(position, fun(tile_type_id))
    }

    fn build_tile(&self, position: GridPosition, tile_type_id: u64) -> (r: Result<
        GridTile<Data>,
        TileBuilderError,
    >) {
        proof {
            use_type_invariant(self);
        }
        match self.funs.get(tile_type_id) {
            Some(fun) => Ok(GridTile::new(position, fun(tile_type_id))),
            None => Err(TileBuilderError::new(&[tile_type_id])),
        }
    }

    fn check_missing_ids(&self, tile_type_ids: &[u64]) -> (r: Result<(), TileBuilderError>) {
        let can = |id: u64| -> (b: bool)
            ensures
                b == self.funs@.contains_key(id),
            { self.funs.contains_key(id) };
        let missing = collect_missing(tile_type_ids, can, Ghost(|id: u64| self.can_build(id)));
        if missing.len() > 0 {
            Err(TileBuilderError { tile_type_ids: missing })
        } else {
            Ok(())
        }
    }
}

/// Tile data which can be created out of its identifier alone.
pub trait ConstructableViaIdentifierTile: IdentifiableTileData {
    /// The tile data created for the identifier.
    spec fn spec_tile_new(tile_type_id: u64) -> Self;

    fn tile_new(tile_type_id: u64) -> (data: Self)
        ensures
            data == Self::spec_tile_new(tile_type_id),
    ;
}

/// Builder creating tile data with [`ConstructableViaIdentifierTile::tile_new`]; it can build every identifier.
#[derive(Debug)]
pub struct IdentTileTraitBuilder<Data: IdentifiableTileData + ConstructableViaIdentifierTile> {
    phantom: std::marker::PhantomData<Data>,
}

impl<Data: IdentifiableTileData + ConstructableViaIdentifierTile> IdentTileTraitBuilder<Data> {
    pub fn new() -> (b: Self) {
        Self { phantom: std::marker::PhantomData }
    }
}

impl<Data: IdentifiableTileData + ConstructableViaIdentifierTile> IdentTileBuilder<
    Data,
> for IdentTileTraitBuilder<Data> {
    open spec fn can_build(&self, tile_type_id: u64) -> bool {
        true
    }

    open spec fn builds(&self, tile_type_id: u64, data: Data) -> bool {
        data == Data::spec_tile_new(tile_type_id)
    }

    fn build_tile_unchecked(&self, position: GridPosition, tile_type_id: u64) -> (tile: GridTile<Data>) {
        GridTile::new(position, Data::tile_new(tile_type_id))
    }

    fn build_tile(&self, position: GridPosition, tile_type_id: u64) -> (r: Result<
        GridTile<Data>,
        TileBuilderError,
    >) {
        Ok(GridTile::new(position, Data::tile_new(tile_type_id)))
    }

    fn check_missing_ids(&self, tile_type_ids: &[u64]) -> (r: Result<(), TileBuilderError>) {
        Ok(())
    }
}

} // verus!
