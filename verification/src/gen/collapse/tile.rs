//! Tile data used within collapsible generation: collapsed tiles, tiles with options left, and the random choice
//! of an option.
use vstd::prelude::*;

use rand::Rng;
use rand::rngs::StdRng;

use super::singular::AdjacencyRules;
use super::AdjacencyTable;
use crate::id_map::IdMap;
use crate::map::{dir_index, GridDir};
use crate::tile::identifiable::IdentifiableTileData;
use crate::tile::{GridPosition, GridTile, TileContainer, TileData};

verus! {

#[verifier::external_type_specification]
#[verifier::external_body]
pub struct ExStdRng(StdRng);

/// Calls `Rng::gen_range` on `rng` with the range `low..high`, which rand documents to return a value within the
/// range (and to panic on an empty range, which `requires` rules out). Which value comes out is left open.
#[verifier::external_body]
pub(crate) fn gen_range_u128(rng: &mut StdRng, low: u128, high: u128) -> (r: u128)
    requires
        low < high,
    ensures
        low <= r < high,
{
    rng.gen_range(low..high)
}

/// Data of a collapsed tile: only its `tile_type_id`.
#[derive(Clone, Copy, Debug, PartialEq, Eq, Structural)]
pub struct CollapsedTileData {
    tile_type_id: u64,
}

impl TileData for CollapsedTileData {}

impl IdentifiableTileData for CollapsedTileData {
    open spec fn spec_tile_type_id(&self) -> u64 {
        self.spec_id()
    }

    fn tile_type_id(&self) -> (id: u64) {
        self.tile_type_id
    }
}

impl CollapsedTileData {
    pub closed spec fn spec_id(&self) -> u64 {
        self.tile_type_id
    }

    /// Collapsed tile data of given type.
    pub fn new(tile_type_id: u64) -> (d: Self)
        ensures
            d.spec_tile_type_id() == tile_type_id,
    {
        Self { tile_type_id }
    }
}

/// Sum of the first `n` weights.
pub open spec fn weight_prefix(weights: Seq<u32>, n: int) -> int
    decreases n,
{
    if n <= 0 {
        0
    } else {
        weight_prefix(weights, n - 1) + weights[n - 1]
    }
}

/// Sum of all weights.
pub open spec fn weight_total(weights: Seq<u32>) -> int {
    weight_prefix(weights, weights.len() as int)
}

/// Index chosen by the random number `r`: the first index whose running sum of weights reaches `r`.
pub open spec fn is_weighted_choice(weights: Seq<u32>, r: int, i: int) -> bool {
    &&& 0 <= i < weights.len()
    &&& r <= weight_prefix(weights, i + 1)
    &&& forall|j: int| 0 <= j < i ==> r > #[trigger] weight_prefix(weights, j + 1)
}

/// Weights all zero sum up to zero.
proof fn lemma_prefix_zero(weights: Seq<u32>, k: int)
    requires
        0 <= k <= weights.len(),
        forall|i: int| 0 <= i < weights.len() ==> weights[i] == 0,
    ensures
        weight_prefix(weights, k) == 0,
    decreases k,
{
    if k > 0 {
        lemma_prefix_zero(weights, k - 1);
    }
}

proof fn lemma_prefix_monotone(weights: Seq<u32>, a: int, b: int)
    requires
        0 <= a <= b <= weights.len(),
    ensures
        weight_prefix(weights, a) <= weight_prefix(weights, b),
    decreases b - a,
{
    if a < b {
        lemma_prefix_monotone(weights, a, b - 1);
    }
}

/// Chooses among `weights` (at least one) by the random number `r`, at most their sum: the first index whose running
/// sum of weights reaches `r`.
pub fn choose_weighted(weights: &[u32], r: u128) -> (i: usize)
    requires
        weights@.len() > 0,
        r <= weight_total(weights@),
        weight_total(weights@) <= u128::MAX,
    ensures
        is_weighted_choice(weights@, r as int, i as int),
{
    let mut current_sum: u128 = 0;
    let mut i: usize = 0;
    while i < weights.len()
        invariant
            i <= weights@.len(),
            weights@.len() > 0,
            r <= weight_total(weights@),
            weight_total(weights@) <= u128::MAX,
            current_sum == weight_prefix(weights@, i as int),
            current_sum <= r,
            forall|j: int| 0 <= j < i ==> r > #[trigger] weight_prefix(weights@, j + 1),
        decreases weights@.len() - i,
    {
        proof {
            lemma_prefix_monotone(weights@, i + 1, weights@.len() as int);
        }
        current_sum = current_sum + weights[i] as u128;
        if r <= current_sum {
            return i;
        }
        i = i + 1;
    }
    proof {
        assert(i == weights@.len());
        assert(r > weight_prefix(weights@, (weights@.len() - 1) + 1));
    }
    i
}

/// Identifiers of `options` in increasing order, their weights in that order, and the sum of the weights.
pub(crate) fn ordered_weights(options: &IdMap<u32>) -> (r: (Vec<u64>, Vec<u32>, u128))
    ensures
        r.0@ == options.spec_keys(),
        r.1@ == options.spec_keys().map_values(|id: u64| options@[id]),
        r.2 == weight_total(r.1@),
        r.2 < u128::MAX,
        options.consistent(),
{
    let ids = options.keys();
    let ghost target = options.spec_keys().map_values(|id: u64| options@[id]);
    let mut weights: Vec<u32> = Vec::new();
    let mut total: u128 = 0;
    let mut k: usize = 0;
    while k < ids.len()
        invariant
            k <= ids@.len(),
            ids@ == options.spec_keys(),
            options.consistent(),
            target == options.spec_keys().map_values(|id: u64| options@[id]),
            weights@ == target.take(k as int),
            total == weight_prefix(weights@, k as int),
            total <= k * 0xffff_ffff,
            k <= usize::MAX,
        decreases ids@.len() - k,
    {
        proof {
            assert(options.spec_keys().contains(ids@[k as int]));
        }
        let w = *options.get(ids[k]).unwrap();
        proof {
            assert(total + w <= (k + 1) * 0xffff_ffff) by (nonlinear_arith)
                requires
                    total <= k * 0xffff_ffff,
                    w <= 0xffff_ffff,
            ;
            assert((k + 1) * 0xffff_ffff <= 0x1_0000_0000_0000_0000 * 0xffff_ffff) by (nonlinear_arith)
                requires
                    k < usize::MAX,
                    usize::MAX <= 0xffff_ffff_ffff_ffff,
            ;
        }
        let ghost before = weights@;
        weights.push(w);
        total = total + w as u128;
        k = k + 1;
        proof {
            assert(weights@ =~= target.take(k as int));
            assert(weights@.take(k - 1) =~= before);
            lemma_prefix_take(weights@, k - 1);
        }
    }
    proof {
        assert(weights@ =~= target);
        assert(total < u128::MAX) by (nonlinear_arith)
            requires
                total <= k * 0xffff_ffff,
                k <= usize::MAX,
                usize::MAX <= 0xffff_ffff_ffff_ffff,
        ;
    }
    (ids, weights, total)
}

/// Data of a tile within collapsible generation: either collapsed into a tile type, or still having some options,
/// each with its weight.
#[derive(Debug)]
pub struct CollapsibleTileData {
    options_with_weights: IdMap<u32>,
    collapsed: Option<u64>,
}

impl TileData for CollapsibleTileData {}

impl IdentifiableTileData for CollapsibleTileData {
    /// The type the tile collapsed into; `0` while it is not collapsed.
    open spec fn spec_tile_type_id(&self) -> u64 {
        match self.collapsed_id() {
            Some(id) => id,
            None => 0,
        }
    }

    fn tile_type_id(&self) -> (id: u64) {
        match self.collapsed {
            Some(id) => id,
            None => 0,
        }
    }
}

impl CollapsibleTileData {
    /// Options left, with their weights.
    pub closed spec fn options(&self) -> Map<u64, u32> {
        self.options_with_weights@
    }

    /// An option of positive weight makes the total weight of the options positive.
    pub proof fn lemma_positive_option(&self, t: u64)
        requires
            self.options().contains_key(t),
            self.options()[t] > 0,
        ensures
            weight_total(self.option_weights()) > 0,
            self.option_ids().contains(t),
    {
        self.options_with_weights.lemma_view_keys();
        let ids = self.option_ids();
        let ws = self.option_weights();
        assert(ids.contains(t));
        let i = ids.index_of(t);
        assert(ws[i] == self.options()[t]);
        lemma_prefix_monotone(ws, 0, i);
        lemma_prefix_monotone(ws, i + 1, ws.len() as int);
    }

    /// Options all of weight zero have a total weight of zero.
    pub proof fn lemma_zero_weights(&self)
        requires
            forall|t: u64| #[trigger] self.options().contains_key(t) ==> self.options()[t] == 0,
        ensures
            weight_total(self.option_weights()) == 0,
    {
        self.options_with_weights.lemma_view_keys();
        let ws = self.option_weights();
        assert forall|i: int| 0 <= i < ws.len() implies ws[i] == 0 by {
            let k = self.option_ids()[i];
            assert(self.option_ids().contains(k));
            assert(self.options().contains_key(k));
            assert(ws[i] == self.options()[k]);
        }
        lemma_prefix_zero(ws, ws.len() as int);
    }

    /// The option ids listed are exactly the options left.
    pub proof fn options_with_weights_keys_lemma(&self)
        ensures
            forall|k: u64| #[trigger] self.option_ids().contains(k) <==> self.options().contains_key(k),
    {
        self.options_with_weights.lemma_view_keys();
    }

    /// A tile has finitely many options.
    pub proof fn lemma_options_finite(&self)
        ensures
            self.options().dom().finite(),
    {
        self.options_with_weights.lemma_dom_finite();
    }

    /// Option ids in increasing order.
    pub closed spec fn option_ids(&self) -> Seq<u64> {
        self.options_with_weights.spec_keys()
    }

    /// The tile type the tile collapsed into.
    pub closed spec fn collapsed_id(&self) -> Option<u64> {
        self.collapsed
    }

    /// Weights of the options, in increasing order of their ids.
    pub open spec fn option_weights(&self) -> Seq<u32> {
        self.option_ids().map_values(|id: u64| self.options()[id])
    }

    /// Data collapsed into `tile_id`.
    pub fn new_collapsed_data(tile_id: u64) -> (d: Self)
        ensures
            d.collapsed_id() == Some(tile_id),
            d.options() == Map::<u64, u32>::empty(),
    {
        Self { options_with_weights: IdMap::new(), collapsed: Some(tile_id) }
    }

    /// Tile collapsed into `tile_id` at `position`.
    pub fn new_collapsed_tile(position: GridPosition, tile_id: u64) -> (t: GridTile<Self>)
        ensures
            t.spec_grid_position() == position,
            t.spec_data().collapsed_id() == Some(tile_id),
            t.spec_data().options() == Map::<u64, u32>::empty(),
    {
        GridTile::new(position, Self::new_collapsed_data(tile_id))
    }

    /// Data not collapsed, with the given options.
    pub fn new_uncollapsed(options_with_weights: IdMap<u32>) -> (d: Self)
        ensures
            d.collapsed_id() is None,
            d.options() == options_with_weights@,
    {
        Self { options_with_weights, collapsed: None }
    }

    /// Uncollapsed tiles at each of `positions`, all with the same options.
    pub fn new_from_frequency(positions: &[GridPosition], options_with_weights: &IdMap<u32>) -> (tiles: Vec<
        GridTile<Self>,
    >)
        ensures
            tiles@.len() == positions@.len(),
            forall|i: int|
                0 <= i < tiles@.len() ==> (#[trigger] tiles@[i]).spec_grid_position() == positions@[i]
                    && tiles@[i].spec_data().collapsed_id() is None && tiles@[i].spec_data().options()
                    == options_with_weights@,
    {
        let mut tiles: Vec<GridTile<Self>> = Vec::new();
        let mut k: usize = 0;
        while k < positions.len()
            invariant
                k <= positions@.len(),
                tiles@.len() == k,
                forall|i: int|
                    0 <= i < k ==> (#[trigger] tiles@[i]).spec_grid_position() == positions@[i]
                        && tiles@[i].spec_data().collapsed_id() is None && tiles@[i].spec_data().options()
                        == options_with_weights@,
            decreases positions@.len() - k,
        {
            let options = copy_weights(options_with_weights);
            tiles.push(GridTile::new(positions[k], Self::new_uncollapsed(options)));
            k = k + 1;
        }
        tiles
    }

    pub fn is_collapsed(&self) -> (r: bool)
        ensures
            r == self.collapsed_id() is Some,
    {
        self.collapsed.is_some()
    }

    pub fn collapse_id(&self) -> (r: Option<u64>)
        ensures
            r == self.collapsed_id(),
    {
        self.collapsed
    }

    /// Some option is left.
    pub fn have_options(&self) -> (r: bool)
        ensures
            r == (self.options().dom().len() > 0),
            self.options().dom().finite(),
    {
        !self.options_with_weights.is_empty()
    }

    /// Number of options left.
    pub fn option_count(&self) -> (n: usize)
        ensures
            n == self.options().dom().len(),
    {
        self.options_with_weights.len()
    }

    /// Copy of the options left, with their weights.
    pub(crate) fn copy_options(&self) -> (o: IdMap<u32>)
        ensures
            o@ == self.options(),
    {
        copy_weights(&self.options_with_weights)
    }

    /// Weights of the options left, in increasing order of their ids.
    pub fn option_weight_list(&self) -> (w: Vec<u32>)
        ensures
            w@ == self.option_weights(),
    {
        let (_, weights, _) = ordered_weights(&self.options_with_weights);
        weights
    }

    /// Ids of the options left, in increasing order.
    pub fn option_id_list(&self) -> (ids: Vec<u64>)
        ensures
            ids@ == self.option_ids(),
            forall|id: u64| #[trigger] ids@.contains(id) <==> self.options().contains_key(id),
            ids@.no_duplicates(),
    {
        let ids = self.options_with_weights.keys();
        proof {
            assert forall|a: int, b: int| 0 <= a < b < ids@.len() implies ids@[a] != ids@[b] by {
                assert(ids@[a] < ids@[b]);
            }
        }
        ids
    }

    /// Removes option `tile_id`, returning whether it was there.
    pub fn remove_option(&mut self, tile_id: u64) -> (r: bool)
        ensures
            r == old(self).options().contains_key(tile_id),
            final(self).options() == old(self).options().remove(tile_id),
            final(self).collapsed_id() == old(self).collapsed_id(),
    {
        self.options_with_weights.remove(tile_id).is_some()
    }

    /// Removes each option of `ids` in turn, stopping as soon as no option is left. Returns whether some option is
    /// left.
    pub fn remove_options(&mut self, ids: &[u64]) -> (r: bool)
        ensures
            final(self).collapsed_id() == old(self).collapsed_id(),
            r == (final(self).options().dom().len() > 0),
            final(self).options().dom().finite(),
            forall|o: u64| #[trigger]
                final(self).options().contains_key(o) ==> final(self).options()[o] == old(self).options()[o],
            r ==> forall|o: u64| #[trigger]
                final(self).options().contains_key(o) <==> old(self).options().contains_key(o) && !ids@.contains(o),
            !r ==> forall|o: u64| old(self).options().contains_key(o) ==> #[trigger] ids@.contains(o),
    {
        let mut i: usize = 0;
        while i < ids.len()
            invariant
                i <= ids@.len(),
                self.collapsed == old(self).collapsed,
                self.options().dom().len() > 0 || i == 0,
                forall|o: u64| #[trigger]
                    self.options().contains_key(o) ==> self.options()[o] == old(self).options()[o],
                forall|o: u64| #[trigger]
                    self.options().contains_key(o) <==> old(self).options().contains_key(o) && !ids@.take(
                        i as int,
                    ).contains(o),
            decreases ids@.len() - i,
        {
            self.remove_option(ids[i]);
            i = i + 1;
            proof {
                lemma_take_push_contains(ids@, i as int);
            }
            if !self.have_options() {
                proof {
                    assert forall|o: u64| old(self).options().contains_key(o) implies #[trigger] ids@.contains(o) by {
                        self.options().dom().lemma_len0_is_empty();
                        assert(!self.options().contains_key(o));
                        assert(ids@.take(i as int).contains(o));
                        let j = ids@.take(i as int).index_of(o);
                        assert(ids@.take(i as int)[j] == o);
                        assert(ids@[j] == o);
                    }
                }
                return false;
            }
        }
        proof {
            assert(ids@.take(i as int) =~= ids@);
        }
        if !self.have_options() {
            proof {
                assert forall|o: u64| old(self).options().contains_key(o) implies #[trigger] ids@.contains(o) by {
                    self.options().dom().lemma_len0_is_empty();
                    assert(!self.options().contains_key(o));
                    assert(ids@.take(i as int).contains(o));
                }
            }
            return false;
        }
        true
    }

    /// Collapses the tile into one of its options at random, weighted by the options' weights, and drops the
    /// options. Returns `Ok(false)` if the tile was collapsed already, and the error (with `position`) if the
    /// options' weights sum up to zero.
    pub fn collapse(&mut self, rng: &mut StdRng, position: GridPosition) -> (r: Result<bool, GridPosition>)
        ensures
            old(self).collapsed_id() is Some ==> r == Ok::<bool, GridPosition>(false) && *final(self) == *old(self),
            old(self).collapsed_id() is None ==> (r is Err <==> weight_total(old(self).option_weights()) == 0),
            old(self).collapsed_id() is None ==> r != Ok::<bool, GridPosition>(false),
            r matches Err(p) ==> p == position && *final(self) == *old(self),
            r == Ok::<bool, GridPosition>(true) ==> final(self).collapsed_id() is Some && old(self).options().contains_key(
                final(self).collapsed_id()->0,
            ),
            r == Ok::<bool, GridPosition>(true) ==> old(self).collapsed_id() is None && exists|rand: int, i: int|
                0 <= rand < weight_total(old(self).option_weights()) && is_weighted_choice(
                    old(self).option_weights(),
                    rand,
                    i,
                ) && final(self).collapsed_id() == Some(old(self).option_ids()[i])
                    && final(self).options() == Map::<u64, u32>::empty(),
    {
        if self.collapsed.is_some() {
            return Ok(false);
        }
        let (ids, weights, total) = ordered_weights(&self.options_with_weights);
        if total == 0 {
            return Err(position);
        }
        let random = gen_range_u128(rng, 0, total);
        let i = choose_weighted(weights.as_slice(), random);
        proof {
            assert(self.option_ids().contains(ids@[i as int]));
        }
        self.collapsed = Some(ids[i]);
        self.options_with_weights.clear();
        Ok(true)
    }

    /// Removes the options which do not allow the collapsed tile `neighbour_id` in `direction`, returning the
    /// removed options; the error (with `position`) if no option is left.
    pub fn resolve_options_neighbour_collapsed<Data: IdentifiableTileData>(
        &mut self,
        adjacency: &AdjacencyRules<Data>,
        direction: GridDir,
        neighbour_id: u64,
        position: GridPosition,
    ) -> (r: Result<Vec<u64>, GridPosition>)
        ensures
            final(self).collapsed_id() == old(self).collapsed_id(),
            forall|o: u64| #[trigger]
                final(self).options().contains_key(o) <==> old(self).options().contains_key(o)
                    && adjacency.allows(o, direction, neighbour_id),
            forall|o: u64| #[trigger]
                final(self).options().contains_key(o) ==> final(self).options()[o] == old(self).options()[o],
            r is Err <==> final(self).options().dom().len() == 0,
            r matches Err(p) ==> p == position,
            r matches Ok(removed) ==> forall|o: u64| #[trigger]
                removed@.contains(o) <==> old(self).options().contains_key(o) && !adjacency.allows(
                    o,
                    direction,
                    neighbour_id,
                ),
    {
        let ids = self.option_id_list();
        let mut removed: Vec<u64> = Vec::new();
        let ghost start = *self;
        let mut k: usize = 0;
        while k < ids.len()
            invariant
                k <= ids@.len(),
                ids@.no_duplicates(),
                forall|id: u64| #[trigger] ids@.contains(id) <==> start.options().contains_key(id),
                self.collapsed_id() == start.collapsed_id(),
                forall|o: u64| #[trigger]
                    self.options().contains_key(o) <==> start.options().contains_key(o) && !(ids@.take(
                        k as int,
                    ).contains(o) && !adjacency.allows(o, direction, neighbour_id)),
                forall|o: u64| #[trigger]
                    self.options().contains_key(o) ==> self.options()[o] == start.options()[o],
                forall|o: u64| #[trigger]
                    removed@.contains(o) <==> ids@.take(k as int).contains(o) && !adjacency.allows(
                        o,
                        direction,
                        neighbour_id,
                    ),
            decreases ids@.len() - k,
        {
            let option = ids[k];
            let ghost before = removed@;
            if !adjacency.is_valid_raw(option, neighbour_id, direction) {
                self.remove_option(option);
                removed.push(option);
            }
            k = k + 1;
            proof {
                lemma_take_push_contains(ids@, k as int);
                assert forall|o: u64| #[trigger]
                    removed@.contains(o) <==> ids@.take(k as int).contains(o) && !adjacency.allows(
                        o,
                        direction,
                        neighbour_id,
                    ) by {
                    if removed@.contains(o) && o != option {
                        let j = removed@.index_of(o);
                        assert(before[j] == o);
                    }
                    if before.contains(o) {
                        let j = before.index_of(o);
                        assert(removed@[j] == o);
                    }
                    if o == option && !adjacency.allows(o, direction, neighbour_id) {
                        assert(removed@[before.len() as int] == o);
                    }
                }
            }
        }
        proof {
            assert(ids@.take(k as int) =~= ids@);
        }
        if !self.have_options() {
            return Err(position);
        }
        Ok(removed)
    }

    /// Removes the options which allow none of the options `neighbour_options` of the uncollapsed neighbour in
    /// `direction`, returning the removed options; the error (with `position`) if no option is left.
    pub fn resolve_options_neighbour_uncollapsed<Data: IdentifiableTileData>(
        &mut self,
        adjacency: &AdjacencyRules<Data>,
        direction: GridDir,
        neighbour_options: &[u64],
        position: GridPosition,
    ) -> (r: Result<Vec<u64>, GridPosition>)
        ensures
            final(self).collapsed_id() == old(self).collapsed_id(),
            forall|o: u64| #[trigger]
                final(self).options().contains_key(o) <==> old(self).options().contains_key(o) && allows_any(
                    *adjacency,
                    o,
                    direction,
                    neighbour_options@,
                ),
            forall|o: u64| #[trigger]
                final(self).options().contains_key(o) ==> final(self).options()[o] == old(self).options()[o],
            r is Err <==> final(self).options().dom().len() == 0,
            r matches Err(p) ==> p == position,
            r matches Ok(removed) ==> forall|o: u64| #[trigger]
                removed@.contains(o) <==> old(self).options().contains_key(o) && !allows_any(
                    *adjacency,
                    o,
                    direction,
                    neighbour_options@,
                ),
    {
        let ids = self.option_id_list();
        let mut removed: Vec<u64> = Vec::new();
        let ghost start = *self;
        let mut k: usize = 0;
        while k < ids.len()
            invariant
                k <= ids@.len(),
                ids@.no_duplicates(),
                forall|id: u64| #[trigger] ids@.contains(id) <==> start.options().contains_key(id),
                self.collapsed_id() == start.collapsed_id(),
                forall|o: u64| #[trigger]
                    self.options().contains_key(o) <==> start.options().contains_key(o) && !(ids@.take(
                        k as int,
                    ).contains(o) && !allows_any(*adjacency, o, direction, neighbour_options@)),
                forall|o: u64| #[trigger]
                    self.options().contains_key(o) ==> self.options()[o] == start.options()[o],
                forall|o: u64| #[trigger]
                    removed@.contains(o) <==> ids@.take(k as int).contains(o) && !allows_any(
                        *adjacency,
                        o,
                        direction,
                        neighbour_options@,
                    ),
            decreases ids@.len() - k,
        {
            let option = ids[k];
            let ghost before = removed@;
            if !adjacency.is_valid_raw_any(option, neighbour_options, direction) {
                self.remove_option(option);
                removed.push(option);
            }
            k = k + 1;
            proof {
                lemma_take_push_contains(ids@, k as int);
                assert forall|o: u64| #[trigger]
                    removed@.contains(o) <==> ids@.take(k as int).contains(o) && !allows_any(
                        *adjacency,
                        o,
                        direction,
                        neighbour_options@,
                    ) by {
                    if removed@.contains(o) && o != option {
                        let j = removed@.index_of(o);
                        assert(before[j] == o);
                    }
                    if before.contains(o) {
                        let j = before.index_of(o);
                        assert(removed@[j] == o);
                    }
                    if o == option && !allows_any(*adjacency, o, direction, neighbour_options@) {
                        assert(removed@[before.len() as int] == o);
                    }
                }
            }
        }
        proof {
            assert(ids@.take(k as int) =~= ids@);
        }
        if !self.have_options() {
            return Err(position);
        }
        Ok(removed)
    }
}

/// Option `o` allows some of `options` in direction `d`.
pub open spec fn allows_any<Data: IdentifiableTileData>(
    rules: AdjacencyRules<Data>,
    o: u64,
    d: GridDir,
    options: Seq<u64>,
) -> bool {
    exists|i: int| 0 <= i < options.len() && rules.allows(o, d, #[trigger] options[i])
}

/// Membership in a prefix grows by the next element.
pub(crate) proof fn lemma_take_push_contains(s: Seq<u64>, k: int)
    requires
        0 < k <= s.len(),
    ensures
        forall|x: u64| #[trigger] s.take(k).contains(x) <==> s.take(k - 1).contains(x) || x == s[k - 1],
{
    assert forall|x: u64| #[trigger] s.take(k).contains(x) <==> s.take(k - 1).contains(x) || x == s[k - 1] by {
        if s.take(k).contains(x) && x != s[k - 1] {
            let j = s.take(k).index_of(x);
            assert(s.take(k - 1)[j] == x);
        }
        if s.take(k - 1).contains(x) {
            let j = s.take(k - 1).index_of(x);
            assert(s.take(k)[j] == x);
        }
        if x == s[k - 1] {
            assert(s.take(k)[k - 1] == x);
        }
    }
}

proof fn lemma_prefix_take(weights: Seq<u32>, n: int)
    requires
        0 <= n < weights.len(),
    ensures
        weight_prefix(weights, n + 1) == weight_prefix(weights.take(n), n) + weights[n],
{
    lemma_prefix_agree(weights, weights.take(n), n);
}

/// Prefix sums agree on a common prefix.
proof fn lemma_prefix_agree(a: Seq<u32>, b: Seq<u32>, n: int)
    requires
        0 <= n <= a.len(),
        n <= b.len(),
        forall|j: int| 0 <= j < n ==> a[j] == b[j],
    ensures
        weight_prefix(a, n) == weight_prefix(b, n),
    decreases n,
{
    if n > 0 {
        lemma_prefix_agree(a, b, n - 1);
    }
}

/// Copy of the options with their weights.
pub(crate) fn copy_weights(weights: &IdMap<u32>) -> (copy: IdMap<u32>)
    ensures
        copy@ == weights@,
        copy.consistent(),
{
    let copy = weights.clone();
    assert(copy@ =~= weights@);
    copy
}

/// Number of ways left in each direction for an option to be placed.
#[derive(Clone, Copy, Debug)]
pub struct DirCounts {
    up: usize,
    down: usize,
    left: usize,
    right: usize,
}

impl DirCounts {
    pub closed spec fn at(&self, d: GridDir) -> usize {
        match d {
            GridDir::UP => self.up,
            GridDir::DOWN => self.down,
            GridDir::LEFT => self.left,
            GridDir::RIGHT => self.right,
        }
    }

    fn get_at_dir(&self, d: GridDir) -> (r: usize)
        ensures
            r == self.at(d),
    {
        match d {
            GridDir::UP => self.up,
            GridDir::DOWN => self.down,
            GridDir::LEFT => self.left,
            GridDir::RIGHT => self.right,
        }
    }

    fn set_at_dir(&mut self, d: GridDir, n: usize)
        ensures
            forall|e: GridDir| #[trigger] final(self).at(e) == if e == d {
                n
            } else {
                old(self).at(e)
            },
    {
        match d {
            GridDir::UP => self.up = n,
            GridDir::DOWN => self.down = n,
            GridDir::LEFT => self.left = n,
            GridDir::RIGHT => self.right = n,
        }
    }
}

/// Number of tile types allowed in direction `d` of `el`.
pub open spec fn allowed_count(table: AdjacencyTable, el: u64, d: GridDir) -> nat {
    Set::new(|c: u64| table.allows(el, d, c)).len()
}

/// For each option, the number of ways left in each direction for it to be placed.
#[derive(Debug)]
pub struct WaysToBeOption {
    table: IdMap<DirCounts>,
}

impl WaysToBeOption {
    /// Ways left for `option_id` in direction `d`, if the option is known.
    pub closed spec fn ways(&self, option_id: u64, d: GridDir) -> Option<usize> {
        if self.table@.contains_key(option_id) {
            Some(self.table@[option_id].at(d))
        } else {
            None
        }
    }

    /// Nothing is known.
    pub fn empty() -> (w: Self)
        ensures
            forall|id: u64, d: GridDir| #[trigger] w.ways(id, d) is None,
    {
        Self { table: IdMap::new() }
    }

    /// For each element of the table, as many ways in each direction as tile types are allowed there.
    pub fn new(adjacencies: &AdjacencyTable) -> (w: Self)
        ensures
            forall|id: u64, d: GridDir| #[trigger]
                w.ways(id, d) == if adjacencies.has_element(id) {
                    Some(allowed_count(*adjacencies, id, d) as usize)
                } else {
                    None::<usize>
                },
    {
        let keys = adjacencies.inner.keys();
        let mut table: IdMap<DirCounts> = IdMap::new();
        let mut k: usize = 0;
        while k < keys.len()
            invariant
                k <= keys@.len(),
                keys@ == adjacencies.inner.spec_keys(),
                adjacencies.inner.consistent(),
                forall|id: u64| #[trigger] table@.contains_key(id) <==> keys@.take(k as int).contains(id),
                forall|id: u64, d: GridDir|
                    table@.contains_key(id) ==> #[trigger] table@[id].at(d) == allowed_count(*adjacencies, id, d),
            decreases keys@.len() - k,
        {
            let id = keys[k];
            proof {
                assert(adjacencies.inner.spec_keys().contains(id));
            }
            let mut counts = DirCounts { up: 0, down: 0, left: 0, right: 0 };
            let mut di: usize = 0;
            while di < 4
                invariant
                    di <= 4,
                    adjacencies.has_element(id),
                    forall|d: GridDir|
                        dir_index(d) < di ==> #[trigger] counts.at(d) == allowed_count(*adjacencies, id, d),
                decreases 4 - di,
            {
                let dir = GridDir::from_index(di);
                let ids = adjacencies.get_all_adjacencies_in_direction(id, dir);
                proof {
                    ids@.unique_seq_to_set();
                    ids@.lemma_no_dup_set_cardinality();
                    assert(ids@.to_set() =~= Set::new(|c: u64| adjacencies.allows(id, dir, c)));
                }
                counts.set_at_dir(dir, ids.len());
                di = di + 1;
                proof {
                    assert forall|d: GridDir|
                        dir_index(d) < di implies #[trigger] counts.at(d) == allowed_count(*adjacencies, id, d) by {
                        if dir_index(d) == di - 1 {
                            assert(d == dir);
                        }
                    }
                }
            }
            table.insert(id, counts);
            k = k + 1;
            proof {
                lemma_take_push_contains(keys@, k as int);
            }
        }
        proof {
            assert(keys@.take(k as int) =~= keys@);
        }
        let w = Self { table };
        assert forall|id: u64, d: GridDir| #[trigger]
            w.ways(id, d) == if adjacencies.has_element(id) {
                Some(allowed_count(*adjacencies, id, d) as usize)
            } else {
                None::<usize>
            } by {
            assert(keys@.contains(id) <==> adjacencies.inner@.contains_key(id));
        }
        w
    }

    /// Takes one way away from `option_id` in `direction`: no change if the option is unknown or has no ways
    /// left there; otherwise it is decremented, or eliminated when no way is left.
    pub fn try_decrement(&mut self, option_id: u64, direction: GridDir) -> (r: WaysToBeOptionOutcome)
        ensures
            match old(self).ways(option_id, direction) {
                None => r == WaysToBeOptionOutcome::NoChange && *final(self) == *old(self),
                Some(n) => if n == 0 {
                    r == WaysToBeOptionOutcome::NoChange && *final(self) == *old(self)
                } else {
                    &&& r == if n > 1 {
                        WaysToBeOptionOutcome::Decremented
                    } else {
                        WaysToBeOptionOutcome::Eliminated
                    }
                    &&& forall|id: u64, d: GridDir| #[trigger]
                        final(self).ways(id, d) == if id == option_id && d == direction {
                            Some((n - 1) as usize)
                        } else {
                            old(self).ways(id, d)
                        }
                },
            },
    {
        match self.table.get(option_id) {
            Some(counts) => {
                let mut num_ways_by_dir = *counts;
                let num_ways = num_ways_by_dir.get_at_dir(direction);
                if num_ways == 0 {
                    return WaysToBeOptionOutcome::NoChange;
                }
                num_ways_by_dir.set_at_dir(direction, num_ways - 1);
                self.table.insert(option_id, num_ways_by_dir);
                if num_ways - 1 > 0 {
                    WaysToBeOptionOutcome::Decremented
                } else {
                    WaysToBeOptionOutcome::Eliminated
                }
            },
            None => WaysToBeOptionOutcome::NoChange,
        }
    }
}

/// Outcome of [`WaysToBeOption::try_decrement`].
#[derive(Debug, Clone, Copy, PartialEq, Eq, Structural)]
pub enum WaysToBeOptionOutcome {
    NoChange,
    Decremented,
    Eliminated,
}

} // verus!
