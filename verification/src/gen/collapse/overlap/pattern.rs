//! Patterns of the overlapping collapse algorithm, the collection of those found, and grids telling which
//! pattern starts at each position of a sample map.
use vstd::prelude::*;

use crate::gen::collapse::rules::pattern::{
    anchor_pattern_id, block_fits, create_pattern, extracted_id, extracted_ids, ids_pattern_id, Pattern,
};
use crate::id_map::IdMap;
use crate::map::{listing_of, occupied, spec_opposite, tile_at, GridDir, GridMap2D};
use crate::tile::identifiable::collection::IdentTileCollection;
use crate::tile::identifiable::IdentifiableTileData;
use crate::tile::{GridPosition, TileData};

verus! {

/// Position `anchor` moved by the offsets; the layer moves only for an anchor that has one.
pub open spec fn offset_position(anchor: GridPosition, xo: int, yo: int, zo: int) -> GridPosition {
    GridPosition {
        x: (anchor.x + xo) as u32,
        y: (anchor.y + yo) as u32,
        z: match anchor.z {
            Some(z) => Some((z + zo) as u32),
            None => None,
        },
    }
}

/// Positions at offsets `(xo, yo, 0..depth)` from `anchor`.
pub open spec fn column_offsets(anchor: GridPosition, xo: int, yo: int, depth: nat) -> Seq<GridPosition> {
    Seq::new(depth, |zo: int| offset_position(anchor, xo, yo, zo))
}

/// Positions at offsets `(xo, 0..height, 0..depth)` from `anchor`, `y` offset first.
pub open spec fn slice_offsets(anchor: GridPosition, xo: int, height: nat, depth: nat) -> Seq<GridPosition> {
    Seq::new(height, |yo: int| column_offsets(anchor, xo, yo, depth)).flatten()
}

/// Positions at offsets `(0..width, 0..height, 0..depth)` from `anchor`, `x` offset first, then `y`, then `z`.
pub open spec fn block_offsets(anchor: GridPosition, width: nat, height: nat, depth: nat) -> Seq<GridPosition> {
    Seq::new(width, |xo: int| slice_offsets(anchor, xo, height, depth)).flatten()
}

/// Pattern used in the overlapping collapse algorithm: the tile types of a block of tiles, where the one at the
/// block's first position is the *main* tile the pattern stands for, and the others are *secondary* tiles that
/// decide which patterns can neighbour it.
pub trait OverlappingPattern: Sized {
    /// Identifier of the pattern.
    spec fn spec_pattern_id(&self) -> u64;

    /// Type of the main tile.
    spec fn spec_tile_type_id(&self) -> u64;

    /// `pos` lies within the pattern placed with its main tile at `anchor_pos`, counted backwards from the anchor.
    spec fn spec_covers(anchor_pos: GridPosition, pos: GridPosition) -> bool;

    /// Tile type the pattern holds at `pos`, counted backwards from `anchor_pos`.
    spec fn spec_id_for_pos(&self, anchor_pos: GridPosition, pos: GridPosition) -> u64;

    /// The pattern can neighbour `other` in `direction`.
    spec fn spec_compatible_with(&self, other: &Self, direction: GridDir) -> bool;

    /// The secondary positions of a pattern anchored at `anchor_pos` can be computed without overflow.
    spec fn spec_secondary_fit(anchor_pos: GridPosition) -> bool;

    /// Positions of the secondary tiles of a pattern anchored at `anchor_pos`.
    spec fn spec_secondary_positions(anchor_pos: GridPosition) -> Seq<GridPosition>;

    /// Identifier of the pattern.
    fn pattern_id(&self) -> (id: u64)
        ensures
            id == self.spec_pattern_id(),
    ;

    /// Type of the main tile.
    fn tile_type_id(&self) -> (id: u64)
        ensures
            id == self.spec_tile_type_id(),
    ;

    /// Tile type the pattern holds at `pos`, counted backwards from `anchor_pos`.
    fn get_id_for_pos(&self, anchor_pos: &GridPosition, pos: &GridPosition) -> (id: u64)
        requires
            Self::spec_covers(*anchor_pos, *pos),
        ensures
            id == self.spec_id_for_pos(*anchor_pos, *pos),
    ;

    /// Checks whether the pattern can neighbour `other` in `direction`.
    fn is_compatible_with(&self, other: &Self, direction: GridDir) -> (r: bool)
        ensures
            r == self.spec_compatible_with(other, direction),
    ;

    /// Positions of the secondary tiles of a pattern anchored at `anchor_pos`.
    fn secondary_tile_positions(anchor_pos: &GridPosition) -> (out: Vec<GridPosition>)
        requires
            Self::spec_secondary_fit(*anchor_pos),
        ensures
            out@ == Self::spec_secondary_positions(*anchor_pos),
    ;
}

/// [`OverlappingPattern`] of blocks `X` tiles wide, `Y` tiles high and `Z` layers deep.
#[derive(Debug)]
pub struct OverlappingPattern3D<const X: usize, const Y: usize, const Z: usize> {
    pattern: Pattern<X, Y, Z>,
}

/// [`OverlappingPattern`] for two-dimensional grids.
pub type OverlappingPattern2D<const X: usize, const Y: usize> = OverlappingPattern3D<X, Y, 1>;

impl<const X: usize, const Y: usize, const Z: usize> OverlappingPattern3D<X, Y, Z> {
    /// Tile types of the pattern, as layers of rows.
    pub closed spec fn ids(&self) -> Seq<Seq<Seq<u64>>> {
        self.pattern.ids_view()
    }

    /// Tile type at layer `z`, row `y` and column `x` of the pattern.
    pub closed spec fn id_at(&self, z: int, y: int, x: int) -> u64 {
        self.pattern.id_at(z, y, x)
    }

    /// Pattern with the given identifiers and tile types.
    pub fn from_tile_type_ids(pattern_id: u64, tile_type_id: u64, tile_type_ids: [[[u64; X]; Y]; Z]) -> (p: Self)
        ensures
            p.spec_pattern_id() == pattern_id,
            p.spec_tile_type_id() == tile_type_id,
            forall|z: int, y: int, x: int|
                0 <= z < Z && 0 <= y < Y && 0 <= x < X ==> #[trigger] p.id_at(z, y, x) == tile_type_ids@[z]@[y]@[x],
    {
        OverlappingPattern3D { pattern: Pattern::from_tile_type_ids(pattern_id, tile_type_id, tile_type_ids) }
    }
}

impl<const X: usize, const Y: usize, const Z: usize> OverlappingPattern for OverlappingPattern3D<X, Y, Z> {
    closed spec fn spec_pattern_id(&self) -> u64 {
        self.pattern.spec_pattern_id()
    }

    closed spec fn spec_tile_type_id(&self) -> u64 {
        self.pattern.spec_tile_type_id()
    }

    open spec fn spec_covers(anchor_pos: GridPosition, pos: GridPosition) -> bool {
        &&& pos.y <= anchor_pos.y
        &&& anchor_pos.y - pos.y < Y
        &&& pos.x <= anchor_pos.x
        &&& anchor_pos.x - pos.x < X
        &&& Z == 1 || (anchor_pos.z is Some && pos.z is Some && pos.z->0 <= anchor_pos.z->0 && anchor_pos.z->0
            - pos.z->0 < Z)
    }

    open spec fn spec_id_for_pos(&self, anchor_pos: GridPosition, pos: GridPosition) -> u64 {
        self.id_at(
            if Z == 1 {
                0
            } else {
                anchor_pos.z->0 - pos.z->0
            },
            anchor_pos.y - pos.y,
            anchor_pos.x - pos.x,
        )
    }

    /// `other`, placed one tile away in `direction`, agrees with this pattern wherever the two overlap.
    closed spec fn spec_compatible_with(&self, other: &Self, direction: GridDir) -> bool {
        self.pattern.spec_compatible(&other.pattern, spec_opposite(direction))
    }

    open spec fn spec_secondary_fit(anchor_pos: GridPosition) -> bool {
        X >= 1 && Y >= 1 && Z >= 1 ==> {
            &&& anchor_pos.x + X - 1 <= u32::MAX
            &&& anchor_pos.y + Y - 1 <= u32::MAX
            &&& anchor_pos.z is Some ==> anchor_pos.z->0 + Z - 1 <= u32::MAX
        }
    }

    open spec fn spec_secondary_positions(anchor_pos: GridPosition) -> Seq<GridPosition> {
        let all = block_offsets(anchor_pos, X as nat, Y as nat, Z as nat);
        if all.len() > 0 {
            all.drop_first()
        } else {
            all
        }
    }

    fn pattern_id(&self) -> (id: u64) {
        self.pattern.pattern_id()
    }

    fn tile_type_id(&self) -> (id: u64) {
        self.pattern.tile_type_id()
    }

    fn get_id_for_pos(&self, anchor_pos: &GridPosition, pos: &GridPosition) -> (id: u64) {
        let dy = (anchor_pos.y - pos.y) as usize;
        let dx = (anchor_pos.x - pos.x) as usize;
        if Z == 1 {
            self.pattern.get_id(0, dy, dx)
        } else {
            let az = anchor_pos.z.unwrap();
            let pz = pos.z.unwrap();
            self.pattern.get_id((az - pz) as usize, dy, dx)
        }
    }

    fn is_compatible_with(&self, other: &Self, direction: GridDir) -> (r: bool) {
        self.pattern.is_compatible_with(&other.pattern, direction.opposite())
    }

    fn secondary_tile_positions(anchor_pos: &GridPosition) -> (out: Vec<GridPosition>) {
        let mut all: Vec<GridPosition> = Vec::new();
        let mut x_off: usize = 0;
        while x_off < X
            invariant
                x_off <= X,
                Self::spec_secondary_fit(*anchor_pos),
                all@ == Seq::new(x_off as nat, |xo: int| slice_offsets(*anchor_pos, xo, Y as nat, Z as nat)).flatten(),
            decreases X - x_off,
        {
            let ghost before_x = all@;
            let mut y_off: usize = 0;
            while y_off < Y
                invariant
                    x_off < X,
                    y_off <= Y,
                    Self::spec_secondary_fit(*anchor_pos),
                    all@ == before_x + Seq::new(y_off as nat, |yo: int| column_offsets(*anchor_pos, x_off as int, yo, Z as nat)).flatten(),
                decreases Y - y_off,
            {
                let ghost before_y = all@;
                let mut z_off: usize = 0;
                while z_off < Z
                    invariant
                        x_off < X,
                        y_off < Y,
                        z_off <= Z,
                        Self::spec_secondary_fit(*anchor_pos),
                        all@ == before_y + Seq::new(z_off as nat, |zo: int| offset_position(*anchor_pos, x_off as int, y_off as int, zo)),
                    decreases Z - z_off,
                {
                    let mut pos = *anchor_pos;
                    pos.add_xy((x_off as u32, y_off as u32));
                    pos.add_z(z_off as u32);
                    let ghost prev = all@;
                    all.push(pos);
                    proof {
                        let f = |zo: int| offset_position(*anchor_pos, x_off as int, y_off as int, zo);
                        assert(pos == f(z_off as int));
                        assert(Seq::new((z_off + 1) as nat, f) =~= Seq::new(z_off as nat, f).push(f(z_off as int)));
                        assert(all@ =~= before_y + Seq::new((z_off + 1) as nat, f));
                    }
                    z_off = z_off + 1;
                }
                proof {
                    let f = |yo: int| column_offsets(*anchor_pos, x_off as int, yo, Z as nat);
                    assert(Seq::new((y_off + 1) as nat, f) =~= Seq::new(y_off as nat, f).push(f(y_off as int)));
                    Seq::new(y_off as nat, f).lemma_flatten_push(f(y_off as int));
                    assert(Seq::new(Z as nat, |zo: int| offset_position(*anchor_pos, x_off as int, y_off as int, zo))
                        =~= f(y_off as int));
                    assert(all@ =~= before_x + Seq::new((y_off + 1) as nat, f).flatten());
                }
                y_off = y_off + 1;
            }
            proof {
                let f = |xo: int| slice_offsets(*anchor_pos, xo, Y as nat, Z as nat);
                assert(Seq::new((x_off + 1) as nat, f) =~= Seq::new(x_off as nat, f).push(f(x_off as int)));
                Seq::new(x_off as nat, f).lemma_flatten_push(f(x_off as int));
                assert(Seq::new(Y as nat, |yo: int| column_offsets(*anchor_pos, x_off as int, yo, Z as nat)).flatten()
                    == f(x_off as int));
                assert(all@ =~= Seq::new((x_off + 1) as nat, f).flatten());
            }
            x_off = x_off + 1;
        }
        if all.len() > 0 {
            let ghost whole = all@;
            all.remove(0);
            proof {
                assert(all@ =~= whole.drop_first());
            }
        }
        all
    }
}

/// A pattern can neighbour another in a direction exactly when the other can neighbour it in the opposite
/// direction.
pub proof fn lemma_compatible_with_mirrors<const X: usize, const Y: usize, const Z: usize>(
    a: OverlappingPattern3D<X, Y, Z>,
    b: OverlappingPattern3D<X, Y, Z>,
    d: GridDir,
)
    ensures
        a.spec_compatible_with(&b, d) <==> b.spec_compatible_with(&a, spec_opposite(d)),
{
    crate::gen::collapse::rules::pattern::lemma_compatibility_mirrors(a.pattern, b.pattern, spec_opposite(d));
    assert(spec_opposite(spec_opposite(d)) == d);
}

/// Tile of an [`OverlappingPatternGrid`].
#[derive(Debug, Clone, Copy, PartialEq, Eq, Structural)]
pub enum PatternTileData {
    /// Tile that holds the `tile_type_id` of the tile of the sample map, and is the first tile of the pattern
    /// with `pattern_id` (the one at `[0][0][0]` within the pattern).
    WithPattern { tile_type_id: u64, pattern_id: u64 },
    /// Tile that holds only the `tile_type_id` of the tile of the sample map: no pattern fits from there.
    OnlyId { tile_type_id: u64 },
}

impl TileData for PatternTileData {}

/// Sequence of identifiers as a set.
pub open spec fn id_set(ids: Vec<u64>) -> Set<u64> {
    ids@.to_set()
}

/// Collection holding the patterns found, bound to their identifiers, with an index of the patterns standing for
/// each tile type.
#[derive(Debug)]
pub struct PatternCollection<P> {
    inner: IdMap<P>,
    rev: IdMap<u64>,
    by_tile_id: IdMap<Vec<u64>>,
}

impl<P> PatternCollection<P> {
    /// Patterns bound to their identifiers.
    pub closed spec fn patterns(&self) -> Map<u64, P> {
        self.inner@
    }

    /// Identifier bound to each hash of a pattern.
    pub closed spec fn type_ids(&self) -> Map<u64, u64> {
        self.rev@
    }

    /// Identifiers of the patterns indexed under each tile type.
    pub closed spec fn by_tile(&self) -> Map<u64, Set<u64>> {
        self.by_tile_id@.map_values(|ids: Vec<u64>| id_set(ids))
    }

    /// Empty collection.
    pub fn new() -> (c: Self)
        ensures
            c.patterns() == Map::<u64, P>::empty(),
            c.type_ids() == Map::<u64, u64>::empty(),
            c.by_tile() == Map::<u64, Set<u64>>::empty(),
    {
        let c = PatternCollection { inner: IdMap::new(), rev: IdMap::new(), by_tile_id: IdMap::new() };
        proof {
            assert(c.by_tile() =~= Map::<u64, Set<u64>>::empty());
        }
        c
    }
}

impl<P> PatternCollection<P> {
    /// Identifiers of the patterns indexed under `tile_type_id` that the collection holds.
    pub open spec fn indexed_ids(&self, tile_type_id: u64) -> Set<u64> {
        if self.by_tile().contains_key(tile_type_id) {
            self.by_tile()[tile_type_id].filter(|k: u64| self.patterns().contains_key(k))
        } else {
            Set::empty()
        }
    }

    /// Patterns indexed under `tile_type_id` that the collection holds, each once, in no particular order.
    pub fn get_patterns_for_tile(&self, tile_type_id: u64) -> (out: Vec<&P>)
        ensures
            exists|ks: Seq<u64>|
                #[trigger] ks.no_duplicates() && ks.to_set() == self.indexed_ids(tile_type_id) && out@ == ks.map_values(
                    |k: u64| &self.patterns()[k],
                ),
    {
        let mut out: Vec<&P> = Vec::new();
        let mut taken: Vec<u64> = Vec::new();
        match self.by_tile_id.get(tile_type_id) {
            Some(ids) => {
                let mut i: usize = 0;
                while i < ids.len()
                    invariant
                        i <= ids@.len(),
                        self.by_tile_id@.contains_key(tile_type_id),
                        *ids == self.by_tile_id@[tile_type_id],
                        taken@.no_duplicates(),
                        forall|k: u64|
                            #[trigger] taken@.contains(k) <==> ids@.take(i as int).contains(k) && self.patterns().contains_key(k),
                        out@ == taken@.map_values(|k: u64| &self.patterns()[k]),
                    decreases ids@.len() - i,
                {
                    let id = ids[i];
                    let ghost before = taken@;
                    if !crate::gen::collapse::contains_id(taken.as_slice(), id) {
                        match self.inner.get(id) {
                            Some(p) => {
                                out.push(p);
                                taken.push(id);
                                proof {
                                    assert(taken@.no_duplicates()) by {
                                        assert forall|a: int, b: int| 0 <= a < b < taken@.len() implies taken@[a] != taken@[b] by {
                                            if b == taken@.len() - 1 {
                                                assert(before.contains(before[a]));
                                            }
                                        }
                                    }
                                    assert(out@ =~= taken@.map_values(|k: u64| &self.patterns()[k]));
                                }
                            },
                            None => {},
                        }
                    }
                    proof {
                        assert(ids@.take(i + 1) =~= ids@.take(i as int).push(id));
                        assert forall|k: u64|
                            #[trigger] taken@.contains(k) <==> ids@.take(i + 1).contains(k) && self.patterns().contains_key(k) by {
                            vstd::seq_lib::lemma_seq_contains_after_push(ids@.take(i as int), id, k);
                            vstd::seq_lib::lemma_seq_contains_after_push(before, id, k);
                        }
                    }
                    i = i + 1;
                }
                proof {
                    assert(ids@.take(i as int) =~= ids@);
                    assert(taken@.to_set() =~= self.indexed_ids(tile_type_id));
                }
            },
            None => {
                proof {
                    assert(taken@.to_set() =~= self.indexed_ids(tile_type_id));
                    assert(out@ =~= taken@.map_values(|k: u64| &self.patterns()[k]));
                }
            },
        }
        proof {
            assert(taken@.no_duplicates());
        }
        out
    }
}

impl<const X: usize, const Y: usize, const Z: usize> Clone for OverlappingPattern3D<X, Y, Z> {
    fn clone(&self) -> (r: Self)
        ensures
            r.spec_pattern_id() == self.spec_pattern_id(),
            r.spec_tile_type_id() == self.spec_tile_type_id(),
            r.ids() == self.ids(),
    {
        Self { pattern: self.pattern.duplicate() }
    }
}

impl<P: Clone> Clone for PatternCollection<P> {
    fn clone(&self) -> (r: Self)
        ensures
            r.patterns().dom() == self.patterns().dom(),
            r.type_ids() == self.type_ids(),
    {
        let rev = self.rev.clone();
        proof {
            assert(rev@ =~= self.rev@);
        }
        PatternCollection { inner: self.inner.clone(), rev, by_tile_id: self.by_tile_id.clone() }
    }
}

impl<P> Default for PatternCollection<P> {
    fn default() -> (c: Self)
        ensures
            c.patterns() == Map::<u64, P>::empty(),
            c.type_ids() == Map::<u64, u64>::empty(),
            c.by_tile() == Map::<u64, Set<u64>>::empty(),
    {
        Self::new()
    }
}

/// The collection's index records `id` under the tile type `tile`.
pub open spec fn indexed<P>(c: PatternCollection<P>, tile: u64, id: u64) -> bool {
    c.by_tile().contains_key(tile) && c.by_tile()[tile].contains(id)
}

impl<P: OverlappingPattern> PatternCollection<P> {
    /// Each pattern of the collection is indexed under its tile type by its identifier, so that
    /// [`get_patterns_for_tile`](PatternCollection::get_patterns_for_tile) finds it.
    pub open spec fn index_complete(&self) -> bool {
        forall|h: u64| #[trigger] self.patterns().contains_key(h) ==> indexed(*self, self.patterns()[h].spec_tile_type_id(), h)
    }

    /// Each identifier indexed under a tile type names a pattern of the collection of that tile type.
    pub open spec fn index_exact(&self) -> bool {
        forall|t: u64, h: u64|
            #[trigger] indexed(*self, t, h) ==> self.patterns().contains_key(h) && self.patterns()[h].spec_tile_type_id() == t
    }
}

/// With an index both complete and exact, the identifiers indexed under a tile type that the collection holds (what
/// [`get_patterns_for_tile`](PatternCollection::get_patterns_for_tile) returns the patterns of) are exactly those
/// of its patterns of that tile type.
pub proof fn lemma_indexed_ids_of_type<P: OverlappingPattern>(c: PatternCollection<P>, t: u64)
    requires
        c.index_complete(),
        c.index_exact(),
    ensures
        c.indexed_ids(t) == Set::new(|h: u64| c.patterns().contains_key(h) && c.patterns()[h].spec_tile_type_id() == t),
{
    assert forall|h: u64| #[trigger] c.indexed_ids(t).contains(h) <==> c.patterns().contains_key(h)
        && c.patterns()[h].spec_tile_type_id() == t by {
        if c.indexed_ids(t).contains(h) {
            assert(indexed(c, t, h));
        }
        if c.patterns().contains_key(h) && c.patterns()[h].spec_tile_type_id() == t {
            assert(indexed(c, c.patterns()[h].spec_tile_type_id(), h));
        }
    }
    assert(c.indexed_ids(t) =~= Set::new(|h: u64| c.patterns().contains_key(h) && c.patterns()[h].spec_tile_type_id() == t));
}

/// Index of identifiers by tile type, after recording `id` under `tile`.
pub open spec fn index_added(index: Map<u64, Set<u64>>, tile: u64, id: u64) -> Map<u64, Set<u64>> {
    if index.contains_key(tile) {
        index.insert(tile, index[tile].insert(id))
    } else {
        index.insert(tile, set![id])
    }
}

/// Index of identifiers by tile type, after dropping `id` from under `tile`.
pub open spec fn index_removed(index: Map<u64, Set<u64>>, tile: u64, id: u64) -> Map<u64, Set<u64>> {
    if index.contains_key(tile) {
        index.insert(tile, index[tile].remove(id))
    } else {
        index
    }
}

/// What the collection's state besides its two maps is kept in, and how its hooks change it.
proof fn lemma_rest_meaning<const X: usize, const Y: usize, const Z: usize>()
    ensures
        forall|a: PatternCollection<OverlappingPattern3D<X, Y, Z>>, b: PatternCollection<OverlappingPattern3D<X, Y, Z>>|
            #[trigger] <PatternCollection<OverlappingPattern3D<X, Y, Z>> as IdentTileCollection>::same_rest(a, b) == (a.by_tile()
                == b.by_tile()),
        forall|a: PatternCollection<OverlappingPattern3D<X, Y, Z>>, b: PatternCollection<OverlappingPattern3D<X, Y, Z>>, d: OverlappingPattern3D<X, Y, Z>|
            #[trigger] <PatternCollection<OverlappingPattern3D<X, Y, Z>> as IdentTileCollection>::added_rest(a, b, d) == (b.by_tile()
                == index_added(a.by_tile(), d.spec_tile_type_id(), d.spec_pattern_id())),
        forall|a: PatternCollection<OverlappingPattern3D<X, Y, Z>>, b: PatternCollection<OverlappingPattern3D<X, Y, Z>>, d: OverlappingPattern3D<X, Y, Z>|
            #[trigger] <PatternCollection<OverlappingPattern3D<X, Y, Z>> as IdentTileCollection>::removed_rest(a, b, d) == (b.by_tile()
                == index_removed(a.by_tile(), d.spec_tile_type_id(), d.spec_pattern_id())),
{
}

/// `ids` without `id`.
fn without_id(ids: &Vec<u64>, id: u64) -> (out: Vec<u64>)
    ensures
        out@.to_set() == ids@.to_set().remove(id),
{
    let mut out: Vec<u64> = Vec::new();
    let mut k: usize = 0;
    while k < ids.len()
        invariant
            k <= ids@.len(),
            forall|x: u64| #[trigger] out@.contains(x) <==> (ids@.take(k as int).contains(x) && x != id),
        decreases ids@.len() - k,
    {
        let ghost before = out@;
        if ids[k] != id {
            out.push(ids[k]);
        }
        proof {
            assert(ids@.take(k + 1) =~= ids@.take(k as int).push(ids@[k as int]));
            assert forall|x: u64| #[trigger] out@.contains(x) <==> (ids@.take(k + 1).contains(x) && x != id) by {
                vstd::seq_lib::lemma_seq_contains_after_push(ids@.take(k as int), ids@[k as int], x);
                if ids@[k as int] != id {
                    vstd::seq_lib::lemma_seq_contains_after_push(before, ids@[k as int], x);
                }
            }
        }
        k = k + 1;
    }
    proof {
        assert(ids@.take(k as int) =~= ids@);
        assert(out@.to_set() =~= ids@.to_set().remove(id));
    }
    out
}

/// `ids` with `id` added unless it is there.
fn with_id(ids: Vec<u64>, id: u64) -> (out: Vec<u64>)
    ensures
        out@.to_set() == ids@.to_set().insert(id),
{
    let mut out = ids;
    if !crate::gen::collapse::contains_id(out.as_slice(), id) {
        proof {
            out@.lemma_push_to_set_commute(id);
        }
        out.push(id);
    } else {
        proof {
            assert(out@.to_set() =~= out@.to_set().insert(id));
        }
    }
    out
}

impl<const X: usize, const Y: usize, const Z: usize> IdentTileCollection for PatternCollection<OverlappingPattern3D<X, Y, Z>> {
    type DATA = OverlappingPattern3D<X, Y, Z>;

    /// The hash of the tile types of the pattern.
    open spec fn spec_type_id(data: OverlappingPattern3D<X, Y, Z>) -> u64 {
        ids_pattern_id(data.ids())
    }

    open spec fn spec_inner(&self) -> Map<u64, OverlappingPattern3D<X, Y, Z>> {
        self.patterns()
    }

    open spec fn spec_rev(&self) -> Map<u64, u64> {
        self.type_ids()
    }

    open spec fn same_rest(a: Self, b: Self) -> bool {
        a.by_tile() == b.by_tile()
    }

    open spec fn added_rest(before: Self, after: Self, data: OverlappingPattern3D<X, Y, Z>) -> bool {
        after.by_tile() == index_added(before.by_tile(), data.spec_tile_type_id(), data.spec_pattern_id())
    }

    open spec fn removed_rest(before: Self, after: Self, data: OverlappingPattern3D<X, Y, Z>) -> bool {
        after.by_tile() == index_removed(before.by_tile(), data.spec_tile_type_id(), data.spec_pattern_id())
    }

    proof fn lemma_same_rest_trans(a: Self, b: Self, c: Self) {
        lemma_rest_meaning::<X, Y, Z>();
    }

    proof fn lemma_hook_then_same(before: Self, mid: Self, after: Self, data: OverlappingPattern3D<X, Y, Z>) {
        lemma_rest_meaning::<X, Y, Z>();
    }

    proof fn lemma_same_then_hook(before: Self, mid: Self, after: Self, data: OverlappingPattern3D<X, Y, Z>) {
        lemma_rest_meaning::<X, Y, Z>();
    }

    fn inner(&self) -> (r: &IdMap<OverlappingPattern3D<X, Y, Z>>) {
        &self.inner
    }

    fn inner_mut(&mut self) -> (r: &mut IdMap<OverlappingPattern3D<X, Y, Z>>) {
        proof {
            lemma_rest_meaning::<X, Y, Z>();
        }
        &mut self.inner
    }

    fn rev(&self) -> (r: &IdMap<u64>) {
        &self.rev
    }

    fn rev_mut(&mut self) -> (r: &mut IdMap<u64>) {
        proof {
            lemma_rest_meaning::<X, Y, Z>();
        }
        &mut self.rev
    }

    fn generate_type_id(data: &OverlappingPattern3D<X, Y, Z>) -> (id: u64) {
        data.pattern.ids_hash()
    }

    /// Records the pattern's identifier under its tile type.
    fn on_add(&mut self, data: &OverlappingPattern3D<X, Y, Z>) {
        proof {
            lemma_rest_meaning::<X, Y, Z>();
        }
        let tile = data.tile_type_id();
        let id = data.pattern_id();
        let ghost before = self.by_tile_id@;
        let ids = match self.by_tile_id.remove(tile) {
            Some(ids) => with_id(ids, id),
            None => {
                let empty: Vec<u64> = Vec::new();
                proof {
                    assert(empty@.to_set() =~= Set::<u64>::empty());
                }
                with_id(empty, id)
            },
        };
        self.by_tile_id.insert(tile, ids);
        proof {
            assert(before.contains_key(tile) ==> id_set(ids) == id_set(before[tile]).insert(id));
            assert(!before.contains_key(tile) ==> id_set(ids) =~= set![id]);
            assert(self.by_tile_id@ =~= before.insert(tile, ids));
            assert(self.by_tile() =~= index_added(old(self).by_tile(), tile, id));
        }
    }

    /// Drops the pattern's identifier from under its tile type.
    fn on_remove(&mut self, data: &OverlappingPattern3D<X, Y, Z>) {
        proof {
            lemma_rest_meaning::<X, Y, Z>();
        }
        let tile = data.tile_type_id();
        let id = data.pattern_id();
        match self.by_tile_id.remove(tile) {
            Some(ids) => {
                let left = without_id(&ids, id);
                self.by_tile_id.insert(tile, left);
            },
            None => {},
        }
        proof {
            assert(self.by_tile() =~= index_removed(old(self).by_tile(), tile, id));
        }
    }
}

/// Type of the tile held at `p`.
pub open spec fn tile_type_at<Data: IdentifiableTileData>(map: GridMap2D<Data>, p: GridPosition) -> u64 {
    tile_at(map, p)->0.spec_tile_type_id()
}

/// Tile of the pattern grid at the position `p` of a map holding a tile there: the first tile of the pattern of
/// the `w` × `h` × `d` block starting there if the block lies within the map, a tile holding only the type
/// otherwise.
pub open spec fn pattern_tile<Data: IdentifiableTileData>(
    map: GridMap2D<Data>,
    p: GridPosition,
    w: int,
    h: int,
    d: int,
) -> PatternTileData {
    if block_fits(map.spec_size(), p, w, h) {
        PatternTileData::WithPattern { tile_type_id: tile_type_at(map, p), pattern_id: anchor_pattern_id(map, p, w, h, d) }
    } else {
        PatternTileData::OnlyId { tile_type_id: tile_type_at(map, p) }
    }
}

/// A pattern of a `w` × `h` block is found at `a`: the map holds a tile there and the block lies within it.
pub open spec fn found_at<Data: IdentifiableTileData>(map: GridMap2D<Data>, a: GridPosition, w: int, h: int) -> bool {
    &&& occupied(map, a)
    &&& a.z is None
    &&& block_fits(map.spec_size(), a, w, h)
}

/// `id` is the identifier of a pattern found in `map` that the collection `old` knew nothing of.
pub open spec fn newly_found<Data: IdentifiableTileData, P>(
    old: PatternCollection<P>,
    map: GridMap2D<Data>,
    id: u64,
    w: int,
    h: int,
    d: int,
) -> bool {
    &&& exists|a: GridPosition| found_at(map, a, w, h) && #[trigger] anchor_pattern_id(map, a, w, h, d) == id
    &&& !old.type_ids().contains_key(id)
    &&& !old.patterns().contains_key(id)
}

/// `g` is the pattern grid of `map`: of its size, with a tile at each position where the map has one, telling
/// which pattern of a `w` × `h` × `d` block starts there.
pub open spec fn grid_of_map<Data: IdentifiableTileData>(
    g: GridMap2D<PatternTileData>,
    map: GridMap2D<Data>,
    w: int,
    h: int,
    d: int,
) -> bool {
    &&& g.spec_size() == map.spec_size()
    &&& forall|p: GridPosition|
        p.z is None ==> #[trigger] tile_at(g, p) == if occupied(map, p) {
            Some(pattern_tile(map, p, w, h, d))
        } else {
            None
        }
}

/// Type held by a tile of a pattern grid.
pub open spec fn pattern_tile_type(t: PatternTileData) -> u64 {
    match t {
        PatternTileData::WithPattern { tile_type_id, .. } => tile_type_id,
        PatternTileData::OnlyId { tile_type_id } => tile_type_id,
    }
}

/// The pattern grid made out of a map has the map's size and holds a tile exactly where the map does, of the
/// same tile type.
pub proof fn lemma_pattern_grid_follows_map<Data: IdentifiableTileData>(
    g: GridMap2D<PatternTileData>,
    map: GridMap2D<Data>,
    w: int,
    h: int,
    d: int,
)
    requires
        grid_of_map(g, map, w, h, d),
    ensures
        g.spec_size() == map.spec_size(),
        forall|p: GridPosition| p.z is None ==> (#[trigger] occupied(g, p) <==> occupied(map, p)),
        forall|p: GridPosition|
            p.z is None && #[trigger] occupied(map, p) ==> pattern_tile_type(tile_at(g, p)->0) == tile_type_at(map, p),
{
}

/// The pattern grid made out of a map (see [`OverlappingPatternGrid::from_map`] and
/// [`OverlappingPatternGrid::inner`]) has the map's size, lists its tiles (see [`GridMap2D::get_all_positions`]) at
/// exactly the positions where the map lists its own, in the same order, and each of them carries the tile type of
/// the map's tile there.
pub proof fn lemma_pattern_grid_lists_map_positions<Data: IdentifiableTileData>(
    g: GridMap2D<PatternTileData>,
    map: GridMap2D<Data>,
    w: int,
    h: int,
    d: int,
    grid_positions: Seq<GridPosition>,
    map_positions: Seq<GridPosition>,
)
    requires
        grid_of_map(g, map, w, h, d),
        listing_of(grid_positions, |p: GridPosition| occupied(g, p)),
        listing_of(map_positions, |p: GridPosition| occupied(map, p)),
    ensures
        g.spec_size() == map.spec_size(),
        grid_positions == map_positions,
        forall|i: int|
            0 <= i < grid_positions.len() ==> pattern_tile_type(tile_at(g, #[trigger] grid_positions[i])->0)
                == tile_type_at(map, grid_positions[i]),
{
    lemma_pattern_grid_follows_map(g, map, w, h, d);
    assert forall|i: int| 0 <= i < grid_positions.len() implies pattern_tile_type(
        tile_at(g, #[trigger] grid_positions[i])->0,
    ) == tile_type_at(map, grid_positions[i]) by {
        assert(grid_positions.contains(grid_positions[i]));
    }
    crate::map::lemma_same_occupied_same_listing(g, map, grid_positions, map_positions);
}

/// `new` is the collection `old` after adding the patterns of the `w` × `h` × `d` blocks of `map`: each pattern
/// whose identifier `old` knew nothing of is bound to its identifier, both ways, and indexed under its tile type;
/// all else is kept.
pub open spec fn collection_extended<Data: IdentifiableTileData, const X: usize, const Y: usize, const Z: usize>(
    old: PatternCollection<OverlappingPattern3D<X, Y, Z>>,
    new: PatternCollection<OverlappingPattern3D<X, Y, Z>>,
    map: GridMap2D<Data>,
    w: int,
    h: int,
    d: int,
) -> bool {
    &&& forall|id: u64| #[trigger] new.type_ids().contains_key(id) <==> old.type_ids().contains_key(id) || newly_found(old, map, id, w, h, d)
    &&& forall|id: u64| #[trigger] old.type_ids().contains_key(id) ==> new.type_ids()[id] == old.type_ids()[id]
    &&& forall|id: u64| #[trigger] newly_found(old, map, id, w, h, d) ==> new.type_ids()[id] == id
    &&& forall|id: u64| #[trigger] new.patterns().contains_key(id) <==> old.patterns().contains_key(id) || newly_found(old, map, id, w, h, d)
    &&& forall|id: u64| #[trigger] old.patterns().contains_key(id) ==> new.patterns()[id] == old.patterns()[id]
    &&& forall|id: u64|
        #[trigger] newly_found(old, map, id, w, h, d) ==> exists|a: GridPosition|
            found_at(map, a, w, h) && #[trigger] anchor_pattern_id(map, a, w, h, d) == id && new.patterns()[id].ids()
                == extracted_ids(map, a, w, h, d) && new.patterns()[id].spec_pattern_id() == id
                && new.patterns()[id].spec_tile_type_id() == tile_type_at(map, a)
    &&& forall|t: u64, id: u64|
        #[trigger] indexed(new, t, id) <==> indexed(old, t, id) || (newly_found(old, map, id, w, h, d)
            && new.patterns()[id].spec_tile_type_id() == t)
}

/// Grid of the patterns found in a sample map: for each tile of the map, the pattern starting there.
pub struct OverlappingPatternGrid<P> {
    inner: GridMap2D<PatternTileData>,
    pattern_type: std::marker::PhantomData<P>,
}

impl<P> OverlappingPatternGrid<P> {
    /// Map of the pattern tiles.
    pub closed spec fn spec_inner(&self) -> GridMap2D<PatternTileData> {
        self.inner
    }

    /// Gets the inner [`GridMap2D`] of pattern tiles: which pattern starts at each position of the sample map.
    pub fn inner(&self) -> (r: &GridMap2D<PatternTileData>)
        ensures
            *r == self.spec_inner(),
    {
        &self.inner
    }
}

impl<const X: usize, const Y: usize, const Z: usize> OverlappingPatternGrid<OverlappingPattern3D<X, Y, Z>> {
    /// Pattern of the block of `map` starting at `anchor`, if the block lies within the map.
    fn create_pattern<Data: IdentifiableTileData>(&self, map: &GridMap2D<Data>, anchor: &GridPosition) -> (r: Option<
        OverlappingPattern3D<X, Y, Z>,
    >)
        requires
            X >= 1,
            Y >= 1,
            anchor.x + X - 1 <= u32::MAX,
            anchor.y + Y - 1 <= u32::MAX,
            Z == 1 || !block_fits(map.spec_size(), *anchor, X as int, Y as int),
        ensures
            r is Some <==> block_fits(map.spec_size(), *anchor, X as int, Y as int),
            r matches Some(p) ==> p.ids() == extracted_ids(*map, *anchor, X as int, Y as int, Z as int)
                && p.spec_pattern_id() == ids_pattern_id(p.ids()) && p.spec_tile_type_id() == extracted_id(
                *map,
                *anchor,
                0,
                0,
                0,
            ),
    {
        let size = map.size();
        if !(anchor.x as u64 + (X as u64 - 1) < size.x as u64 && anchor.y as u64 + (Y as u64 - 1) < size.y as u64) {
            return None;
        }
        match create_pattern::<Data, X, Y, Z>(map, anchor) {
            Some(pattern) => Some(OverlappingPattern3D { pattern }),
            None => None,
        }
    }

    /// Grid of the patterns of `map`, recording each pattern found in `collection`: the pattern of each block
    /// starting at a tile of the map and lying within it is added to the collection (unless its identifier is
    /// known there already) and marked at the block's first position.
    pub fn from_map<Data: IdentifiableTileData>(
        map: &GridMap2D<Data>,
        collection: &mut PatternCollection<OverlappingPattern3D<X, Y, Z>>,
    ) -> (grid: Self)
        requires
            (X >= 1 && Y >= 1) || forall|p: GridPosition| !occupied(*map, p),
            forall|p: GridPosition| #[trigger] occupied(*map, p) ==> p.x + X - 1 <= u32::MAX && p.y + Y - 1 <= u32::MAX,
            Z == 1 || forall|p: GridPosition| #[trigger] occupied(*map, p) ==> !block_fits(map.spec_size(), p, X as int, Y as int),
        ensures
            grid_of_map(grid.spec_inner(), *map, X as int, Y as int, Z as int),
            collection_extended(*old(collection), *final(collection), *map, X as int, Y as int, Z as int),
            old(collection).index_complete() ==> final(collection).index_complete(),
            old(collection).index_exact() ==> final(collection).index_exact(),
    {
        let size = *map.size();
        let mut instance = Self { inner: GridMap2D::new(size), pattern_type: std::marker::PhantomData };
        let positions = map.get_all_positions();
        let ghost start = *collection;
        let mut k: usize = 0;
        while k < positions.len()
            invariant
                k <= positions@.len(),
                listing_of(positions@, |p: GridPosition| occupied(*map, p)),
                size == map.spec_size(),
                (X >= 1 && Y >= 1) || forall|p: GridPosition| !occupied(*map, p),
                forall|p: GridPosition| #[trigger] occupied(*map, p) ==> p.x + X - 1 <= u32::MAX && p.y + Y - 1 <= u32::MAX,
                Z == 1 || forall|p: GridPosition| #[trigger] occupied(*map, p) ==> !block_fits(map.spec_size(), p, X as int, Y as int),
                instance.inner.spec_size() == size,
                forall|p: GridPosition|
                    p.z is None ==> #[trigger] tile_at(instance.inner, p) == if positions@.take(k as int).contains(p) {
                        Some(pattern_tile(*map, p, X as int, Y as int, Z as int))
                    } else {
                        None
                    },
                forall|h: u64| #[trigger] collection.type_ids().contains_key(h) <==> start.type_ids().contains_key(h) || seen_new(start, *map, positions@, k as int, h, X as int, Y as int, Z as int),
                forall|h: u64| #[trigger] start.type_ids().contains_key(h) ==> collection.type_ids()[h] == start.type_ids()[h],
                forall|h: u64| #[trigger] seen_new(start, *map, positions@, k as int, h, X as int, Y as int, Z as int) ==> collection.type_ids()[h] == h,
                forall|h: u64| #[trigger] collection.patterns().contains_key(h) <==> start.patterns().contains_key(h) || seen_new(start, *map, positions@, k as int, h, X as int, Y as int, Z as int),
                forall|h: u64| #[trigger] start.patterns().contains_key(h) ==> collection.patterns()[h] == start.patterns()[h],
                forall|h: u64|
                    #[trigger] seen_new(start, *map, positions@, k as int, h, X as int, Y as int, Z as int) ==> exists|i: int|
                        0 <= i < k && block_fits(size, positions@[i], X as int, Y as int)
                            && #[trigger] anchor_pattern_id(*map, positions@[i], X as int, Y as int, Z as int) == h
                            && collection.patterns()[h].ids() == extracted_ids(*map, positions@[i], X as int, Y as int, Z as int)
                            && collection.patterns()[h].spec_pattern_id() == h
                            && collection.patterns()[h].spec_tile_type_id() == tile_type_at(*map, positions@[i]),
                forall|t: u64, key: u64|
                    #[trigger] indexed(*collection, t, key) <==> indexed(start, t, key) || (seen_new(start, *map, positions@, k as int, key, X as int, Y as int, Z as int)
                        && collection.patterns()[key].spec_tile_type_id() == t),
            decreases positions@.len() - k,
        {
            let position = positions[k];
            proof {
                assert(positions@.contains(position));
                assert(occupied(*map, position));
                assert(positions@.take(k + 1) =~= positions@.take(k as int).push(position));
                lemma_rest_meaning::<X, Y, Z>();
            }
            let ghost before = *collection;
            match instance.create_pattern(map, &position) {
                Some(pattern) => {
                    let tile = PatternTileData::WithPattern { tile_type_id: pattern.tile_type_id(), pattern_id: pattern.pattern_id() };
                    let ghost h = pattern.spec_pattern_id();
                    let ghost pat = pattern;
                    proof {
                        assert(h == anchor_pattern_id(*map, position, X as int, Y as int, Z as int));
                        assert(pattern.spec_tile_type_id() == tile_type_at(*map, position));
                    }
                    let ghost grid_before = instance.inner;
                    collection.add_tile(pattern);
                    instance.inner.insert_data(&position, tile);
                    proof {
                        assert forall|x: u64| #[trigger] seen_new(start, *map, positions@, k + 1, x, X as int, Y as int, Z as int) <==> seen_new(start, *map, positions@, k as int, x, X as int, Y as int, Z as int)
                            || (x == h && !start.type_ids().contains_key(h) && !start.patterns().contains_key(h)) by {
                            if x == h && !start.type_ids().contains_key(h) && !start.patterns().contains_key(h) {
                                assert(anchor_pattern_id(*map, positions@[k as int], X as int, Y as int, Z as int) == h);
                            }
                            if seen_new(start, *map, positions@, k + 1, x, X as int, Y as int, Z as int) && x != h {
                                let i = choose|i: int| 0 <= i < k + 1 && block_fits(size, positions@[i], X as int, Y as int)
                                    && #[trigger] anchor_pattern_id(*map, positions@[i], X as int, Y as int, Z as int) == x;
                                assert(i < k);
                            }
                        }
                        lemma_index_step::<Data, X, Y, Z>(start, before, *collection, *map, positions@, k as int, h, pat);
                        assert forall|x: u64| #[trigger] seen_new(start, *map, positions@, k + 1, x, X as int, Y as int, Z as int) implies exists|i: int|
                            0 <= i < k + 1 && block_fits(size, positions@[i], X as int, Y as int)
                                && #[trigger] anchor_pattern_id(*map, positions@[i], X as int, Y as int, Z as int) == x
                                && collection.patterns()[x].ids() == extracted_ids(*map, positions@[i], X as int, Y as int, Z as int)
                                && collection.patterns()[x].spec_pattern_id() == x
                                && collection.patterns()[x].spec_tile_type_id() == tile_type_at(*map, positions@[i]) by {
                            if seen_new(start, *map, positions@, k as int, x, X as int, Y as int, Z as int) {
                                let i = choose|i: int|
                                    0 <= i < k && block_fits(size, positions@[i], X as int, Y as int)
                                        && #[trigger] anchor_pattern_id(*map, positions@[i], X as int, Y as int, Z as int) == x
                                        && before.patterns()[x].ids() == extracted_ids(*map, positions@[i], X as int, Y as int, Z as int)
                                        && before.patterns()[x].spec_pattern_id() == x
                                        && before.patterns()[x].spec_tile_type_id() == tile_type_at(*map, positions@[i]);
                                assert(before.patterns().contains_key(x));
                                assert(collection.patterns()[x] == before.patterns()[x]);
                            } else {
                                assert(x == h);
                                assert(collection.patterns()[x] == pat);
                                assert(anchor_pattern_id(*map, positions@[k as int], X as int, Y as int, Z as int) == x);
                            }
                        }
                        assert forall|p: GridPosition|
                            p.z is None implies #[trigger] tile_at(instance.inner, p) == if positions@.take(k + 1).contains(p) {
                                Some(pattern_tile(*map, p, X as int, Y as int, Z as int))
                            } else {
                                None
                            } by {
                            if p == position {
                                assert(tile_at(instance.inner, p) == Some(tile));
                                assert(tile == pattern_tile(*map, position, X as int, Y as int, Z as int));
                                vstd::seq_lib::lemma_seq_contains_after_push(positions@.take(k as int), position, p);
                            } else {
                                assert(p.x != position.x || p.y != position.y);
                                assert(tile_at(instance.inner, p) == tile_at(grid_before, p));
                                vstd::seq_lib::lemma_seq_contains_after_push(positions@.take(k as int), position, p);
                            }
                        }
                    }
                },
                None => {
                    let t = map.get_tile_at_position(&position).unwrap();
                    let tile = PatternTileData::OnlyId { tile_type_id: t.inner().tile_type_id() };
                    let ghost grid_before = instance.inner;
                    instance.inner.insert_data(&position, tile);
                    proof {
                        assert forall|p: GridPosition|
                            p.z is None implies #[trigger] tile_at(instance.inner, p) == if positions@.take(k + 1).contains(p) {
                                Some(pattern_tile(*map, p, X as int, Y as int, Z as int))
                            } else {
                                None
                            } by {
                            if p == position {
                                assert(tile_at(instance.inner, p) == Some(tile));
                                assert(tile == pattern_tile(*map, position, X as int, Y as int, Z as int));
                                vstd::seq_lib::lemma_seq_contains_after_push(positions@.take(k as int), position, p);
                            } else {
                                assert(p.x != position.x || p.y != position.y);
                                assert(tile_at(instance.inner, p) == tile_at(grid_before, p));
                                vstd::seq_lib::lemma_seq_contains_after_push(positions@.take(k as int), position, p);
                            }
                        }
                        assert forall|x: u64| #[trigger] seen_new(start, *map, positions@, k + 1, x, X as int, Y as int, Z as int) <==> seen_new(start, *map, positions@, k as int, x, X as int, Y as int, Z as int) by {
                            if seen_new(start, *map, positions@, k + 1, x, X as int, Y as int, Z as int) {
                                let i = choose|i: int| 0 <= i < k + 1 && block_fits(size, positions@[i], X as int, Y as int)
                                    && #[trigger] anchor_pattern_id(*map, positions@[i], X as int, Y as int, Z as int) == x;
                                assert(i < k);
                            }
                        }
                    }
                },
            }
            k = k + 1;
        }
        proof {
            assert(positions@.take(k as int) =~= positions@);
            assert forall|x: u64|
                #![trigger seen_new(start, *map, positions@, k as int, x, X as int, Y as int, Z as int)]
                #![trigger newly_found(start, *map, x, X as int, Y as int, Z as int)]
                seen_new(start, *map, positions@, k as int, x, X as int, Y as int, Z as int) <==> newly_found(
                    start,
                    *map,
                    x,
                    X as int,
                    Y as int,
                    Z as int,
                ) by {
                if newly_found(start, *map, x, X as int, Y as int, Z as int) {
                    let a = choose|a: GridPosition|
                        found_at(*map, a, X as int, Y as int) && #[trigger] anchor_pattern_id(*map, a, X as int, Y as int, Z as int) == x;
                    assert(positions@.contains(a));
                    let i = positions@.index_of(a);
                    assert(anchor_pattern_id(*map, positions@[i], X as int, Y as int, Z as int) == x);
                }
                if seen_new(start, *map, positions@, k as int, x, X as int, Y as int, Z as int) {
                    let i = choose|i: int|
                        0 <= i < k && block_fits(size, positions@[i], X as int, Y as int)
                            && #[trigger] anchor_pattern_id(*map, positions@[i], X as int, Y as int, Z as int) == x;
                    assert(positions@.contains(positions@[i]));
                    assert(found_at(*map, positions@[i], X as int, Y as int));
                }
            }
            assert forall|h: u64| #[trigger] newly_found(start, *map, h, X as int, Y as int, Z as int) implies exists|a: GridPosition|
                found_at(*map, a, X as int, Y as int) && #[trigger] anchor_pattern_id(*map, a, X as int, Y as int, Z as int) == h
                    && collection.patterns()[h].ids() == extracted_ids(*map, a, X as int, Y as int, Z as int)
                    && collection.patterns()[h].spec_pattern_id() == h
                    && collection.patterns()[h].spec_tile_type_id() == tile_type_at(*map, a) by {
                assert(seen_new(start, *map, positions@, k as int, h, X as int, Y as int, Z as int));
                let i = choose|i: int|
                    0 <= i < k && block_fits(size, positions@[i], X as int, Y as int)
                        && #[trigger] anchor_pattern_id(*map, positions@[i], X as int, Y as int, Z as int) == h
                        && collection.patterns()[h].ids() == extracted_ids(*map, positions@[i], X as int, Y as int, Z as int)
                        && collection.patterns()[h].spec_pattern_id() == h
                        && collection.patterns()[h].spec_tile_type_id() == tile_type_at(*map, positions@[i]);
                assert(positions@.contains(positions@[i]));
                assert(found_at(*map, positions@[i], X as int, Y as int));
            }
            if start.index_exact() {
                assert forall|t: u64, h: u64| #[trigger] indexed(*collection, t, h) implies collection.patterns().contains_key(h)
                    && collection.patterns()[h].spec_tile_type_id() == t by {
                    if indexed(start, t, h) {
                        assert(start.patterns().contains_key(h));
                    }
                }
            }
            if start.index_complete() {
                assert forall|h: u64| #[trigger] collection.patterns().contains_key(h) implies indexed(
                    *collection,
                    collection.patterns()[h].spec_tile_type_id(),
                    h,
                ) by {
                    if start.patterns().contains_key(h) {
                        assert(indexed(start, start.patterns()[h].spec_tile_type_id(), h));
                    }
                }
            }
            assert forall|p: GridPosition| p.z is None implies #[trigger] tile_at(instance.inner, p) == if occupied(*map, p) {
                Some(pattern_tile(*map, p, X as int, Y as int, Z as int))
            } else {
                None
            } by {
                assert(positions@.contains(p) <==> occupied(*map, p));
            }
        }
        instance
    }
}

/// Recording the pattern of one more anchor keeps the index of the collection matching the patterns found so far.
proof fn lemma_index_step<Data: IdentifiableTileData, const X: usize, const Y: usize, const Z: usize>(
    start: PatternCollection<OverlappingPattern3D<X, Y, Z>>,
    before: PatternCollection<OverlappingPattern3D<X, Y, Z>>,
    after: PatternCollection<OverlappingPattern3D<X, Y, Z>>,
    map: GridMap2D<Data>,
    anchors: Seq<GridPosition>,
    k: int,
    h: u64,
    pat: OverlappingPattern3D<X, Y, Z>,
)
    requires
        forall|t: u64, key: u64|
            #[trigger] indexed(before, t, key) <==> indexed(start, t, key) || (seen_new(start, map, anchors, k, key, X as int, Y as int, Z as int)
                && before.patterns()[key].spec_tile_type_id() == t),
        forall|x: u64| #[trigger] seen_new(start, map, anchors, k + 1, x, X as int, Y as int, Z as int) <==> seen_new(start, map, anchors, k, x, X as int, Y as int, Z as int)
            || (x == h && !start.type_ids().contains_key(h) && !start.patterns().contains_key(h)),
        forall|x: u64| #[trigger] before.type_ids().contains_key(x) <==> start.type_ids().contains_key(x) || seen_new(start, map, anchors, k, x, X as int, Y as int, Z as int),
        forall|x: u64| #[trigger] before.patterns().contains_key(x) <==> start.patterns().contains_key(x) || seen_new(start, map, anchors, k, x, X as int, Y as int, Z as int),
        (after == before && (before.type_ids().contains_key(h) || before.patterns().contains_key(h))) || (!before.type_ids().contains_key(h)
            && !before.patterns().contains_key(h) && after.by_tile() == index_added(before.by_tile(), pat.spec_tile_type_id(), h)
            && after.patterns() == before.patterns().insert(h, pat)),
    ensures
        forall|t: u64, key: u64|
            #[trigger] indexed(after, t, key) <==> indexed(start, t, key) || (seen_new(start, map, anchors, k + 1, key, X as int, Y as int, Z as int)
                && after.patterns()[key].spec_tile_type_id() == t),
{
    assert forall|t: u64, key: u64|
        #[trigger] indexed(after, t, key) <==> indexed(start, t, key) || (seen_new(start, map, anchors, k + 1, key, X as int, Y as int, Z as int)
            && after.patterns()[key].spec_tile_type_id() == t) by {
        assert(indexed(before, t, key) <==> indexed(start, t, key) || (seen_new(start, map, anchors, k, key, X as int, Y as int, Z as int)
            && before.patterns()[key].spec_tile_type_id() == t));
        assert(seen_new(start, map, anchors, k + 1, key, X as int, Y as int, Z as int) <==> seen_new(start, map, anchors, k, key, X as int, Y as int, Z as int)
            || (key == h && !start.type_ids().contains_key(h) && !start.patterns().contains_key(h)));
        if after == before {
            if key == h && !start.type_ids().contains_key(h) && !start.patterns().contains_key(h) {
                assert(before.type_ids().contains_key(h) || before.patterns().contains_key(h));
                assert(seen_new(start, map, anchors, k, h, X as int, Y as int, Z as int));
            }
        } else {
            assert(!seen_new(start, map, anchors, k, h, X as int, Y as int, Z as int));
            if key != h {
                assert(after.patterns()[key] == before.patterns()[key]);
            }
        }
    }
}

/// `id` is the identifier of the pattern of a block starting at one of the first `k` anchors, that the collection
/// `old` knew nothing of.
spec fn seen_new<Data: IdentifiableTileData, P>(
    old: PatternCollection<P>,
    map: GridMap2D<Data>,
    anchors: Seq<GridPosition>,
    k: int,
    id: u64,
    w: int,
    h: int,
    d: int,
) -> bool {
    &&& exists|i: int|
        0 <= i < k && block_fits(map.spec_size(), anchors[i], w, h) && #[trigger] anchor_pattern_id(map, anchors[i], w, h, d) == id
    &&& !old.type_ids().contains_key(id)
    &&& !old.patterns().contains_key(id)
}

} // verus!
