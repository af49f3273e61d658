//! Random walker: from a starting position, it repeatedly picks a direction and a number of steps at random and
//! walks them within the bounds of a grid, collecting the positions walked.
use vstd::prelude::*;

use rand::distributions::{Distribution, Uniform};
use rand::rngs::StdRng;

use crate::map::{dir_at, dir_index, lemma_march_stays_valid, march_in_bounds, spec_march, spec_position_valid, tile_at, GridDir, GridMap2D, GridSize};
use crate::tile::GridPosition;

verus! {

/// Calls `Uniform::new(low, high)` and samples it with `rng`. rand documents the distribution to sample from the
/// half-open range `[low, high)` (and `new` to panic when `low >= high`, which `requires` rules out). Which value
/// comes out is left open.
#[verifier::external_body]
fn sample_uniform(rng: &mut StdRng, low: usize, high: usize) -> (r: usize)
    requires
        low < high,
    ensures
        low <= r < high,
{
    Uniform::new(low, high).sample(rng)
}

/// Positions visited walking `n` steps in direction `d` from `from` within `size`, and whether all steps could be
/// made (the walk stops at the first step that would leave the grid).
pub open spec fn walk_path(from: GridPosition, d: GridDir, n: nat, size: GridSize) -> (Seq<GridPosition>, bool)
    decreases n,
{
    if n == 0 {
        (Seq::empty(), true)
    } else {
        match spec_march(d, from, size) {
            Some(p) => {
                let rest = walk_path(p, d, (n - 1) as nat, size);
                (seq![p] + rest.0, rest.1)
            },
            None => (Seq::empty(), false),
        }
    }
}

/// No step of the walk of `n` steps in direction `d` from `from` overflows the coordinates.
pub open spec fn walk_in_bounds(from: GridPosition, d: GridDir, n: nat, size: GridSize) -> bool
    decreases n,
{
    n == 0 || (march_in_bounds(d, from) && match spec_march(d, from, size) {
        Some(p) => walk_in_bounds(p, d, (n - 1) as nat, size),
        None => true,
    })
}

/// Position reached by the walk: the last one visited, or the starting one if none was.
pub open spec fn walk_end(from: GridPosition, path: Seq<GridPosition>) -> GridPosition {
    if path.len() == 0 {
        from
    } else {
        path.last()
    }
}

/// A walk from a position within the grid never overflows the coordinates.
pub proof fn lemma_valid_walk_in_bounds(from: GridPosition, d: GridDir, n: nat, size: GridSize)
    requires
        spec_position_valid(size, from),
    ensures
        walk_in_bounds(from, d, n, size),
    decreases n,
{
    if n > 0 {
        if let Some(p) = spec_march(d, from, size) {
            lemma_march_stays_valid(d, from, size);
            lemma_valid_walk_in_bounds(p, d, (n - 1) as nat, size);
        }
    }
}

/// The draws `walk` picks its direction from, `0..4`, give each of the four directions of [`GridDir::ALL_2D`]
/// exactly once: every direction, `RIGHT` among them, is the direction of [`walk_drawn`](GridWalker2D::walk_drawn)
/// for one draw of that range, and different draws walk in different directions.
pub proof fn lemma_draws_cover_directions(d: GridDir, i: int, j: int)
    ensures
        exists|draw: int| 0 <= draw < 4 && #[trigger] dir_at(draw) == d,
        0 <= i < 4 && 0 <= j < 4 && dir_at(i) == dir_at(j) ==> i == j,
{
    assert(dir_at(dir_index(d)) == d);
}

/// The elements of a sequence with one more pushed are those of the sequence and the one pushed.
proof fn lemma_push_to_set(s: Seq<GridPosition>, x: GridPosition)
    ensures
        s.push(x).to_set() == s.to_set().insert(x),
{
    s.lemma_push_to_set_commute(x);
}

/// One of the first `k` positions of `walked` is valid within `size` and has the coordinates of `p`.
pub open spec fn walked_over(walked: Seq<GridPosition>, k: int, p: GridPosition, size: GridSize) -> bool {
    exists|i: int| 0 <= i < k && #[trigger] walked[i].x == p.x && walked[i].y == p.y && spec_position_valid(size, walked[i])
}

/// Field a [`GridWalker2DBuilder`] was not given.
#[derive(Debug, Clone, Copy, PartialEq, Eq, Structural)]
pub enum BuilderField {
    Size,
    Rng,
}

/// Error of building a walker: the fields that were not given.
#[derive(Debug)]
pub struct BuilderError {
    missing_fields: Vec<BuilderField>,
}

impl BuilderError {
    pub closed spec fn spec_missing_fields(&self) -> Seq<BuilderField> {
        self.missing_fields@
    }

    /// Fields that were not given, in the order `size`, `rng`.
    pub fn missing_fields(&self) -> (r: &[BuilderField])
        ensures
            r@ == self.spec_missing_fields(),
    {
        self.missing_fields.as_slice()
    }
}

/// Random walker within the bounds of a grid, collecting the positions walked. To be created with
/// [`GridWalker2DBuilder`].
pub struct GridWalker2D {
    current_pos: GridPosition,
    walked: Vec<GridPosition>,
    rng: StdRng,
    step_range: Option<(usize, usize)>,
    size: GridSize,
    step_size: usize,
    iters: u32,
}

impl GridWalker2D {
    /// Each position is walked once, and the range of random step sizes is not empty.
    pub closed spec fn wf(&self) -> bool {
        &&& self.walked@.no_duplicates()
        &&& self.step_range matches Some(r) ==> r.0 < r.1
    }

    pub closed spec fn spec_current_pos(&self) -> GridPosition {
        self.current_pos
    }

    /// Positions walked, each once.
    pub closed spec fn spec_walked(&self) -> Seq<GridPosition> {
        self.walked@
    }

    pub closed spec fn spec_size(&self) -> GridSize {
        self.size
    }

    pub closed spec fn spec_iters(&self) -> u32 {
        self.iters
    }

    /// A walk may take `n` steps: between the minimum and maximum step sizes.
    pub closed spec fn step_allowed(&self, n: nat) -> bool {
        match self.step_range {
            Some(r) => r.0 <= n < r.1,
            None => n == self.step_size,
        }
    }

    /// No walk the walker may take from its position overflows the coordinates.
    pub open spec fn can_walk(&self) -> bool {
        forall|d: GridDir, n: nat| self.step_allowed(n) ==> #[trigger] walk_in_bounds(self.spec_current_pos(), d, n, self.spec_size())
    }

    /// Number of calls to [`walk`](Self::walk).
    pub fn current_iters(&self) -> (r: u32)
        ensures
            r == self.spec_iters(),
    {
        self.iters
    }

    /// Walks `steps` steps in `direction`, stopping at the first step that would leave the grid; each position
    /// reached is walked and becomes the current one. Returns whether all steps were made.
    pub fn walk_in(&mut self, direction: GridDir, steps: usize) -> (r: bool)
        requires
            old(self).wf(),
            walk_in_bounds(old(self).spec_current_pos(), direction, steps as nat, old(self).spec_size()),
        ensures
            final(self).wf(),
            r == walk_path(old(self).spec_current_pos(), direction, steps as nat, old(self).spec_size()).1,
            final(self).spec_current_pos() == walk_end(
                old(self).spec_current_pos(),
                walk_path(old(self).spec_current_pos(), direction, steps as nat, old(self).spec_size()).0,
            ),
            final(self).spec_walked().to_set() == old(self).spec_walked().to_set() + walk_path(
                old(self).spec_current_pos(),
                direction,
                steps as nat,
                old(self).spec_size(),
            ).0.to_set(),
            final(self).spec_size() == old(self).spec_size(),
            final(self).spec_iters() == old(self).spec_iters(),
            forall|n: nat| #[trigger] final(self).step_allowed(n) == old(self).step_allowed(n),
    {
        let ghost start = self.current_pos;
        let ghost start_walked = self.walked@;
        let ghost full = walk_path(start, direction, steps as nat, self.size);
        let mut k: usize = 0;
        while k < steps
            invariant
                k <= steps,
                self.wf(),
                self.size == old(self).size,
                self.iters == old(self).iters,
                self.step_range == old(self).step_range,
                self.step_size == old(self).step_size,
                full == walk_path(start, direction, steps as nat, self.size),
                start == old(self).current_pos,
                start_walked == old(self).walked@,
                walk_in_bounds(self.current_pos, direction, (steps - k) as nat, self.size),
                ({
                    let rest = walk_path(self.current_pos, direction, (steps - k) as nat, self.size);
                    let done = full.0.take(full.0.len() - rest.0.len());
                    &&& rest.0.len() <= full.0.len()
                    &&& full.0 == done + rest.0
                    &&& full.1 == rest.1
                    &&& self.current_pos == walk_end(start, done)
                    &&& self.walked@.to_set() == start_walked.to_set() + done.to_set()
                }),
            decreases steps - k,
        {
            let ghost before = self.current_pos;
            let ghost walked_before = self.walked@;
            match direction.march_step(&self.current_pos, &self.size) {
                Some(pos) => {
                    self.current_pos = pos;
                    if !crate::gen::collapse::queue::position::contains_position(self.walked.as_slice(), &pos) {
                        self.walked.push(pos);
                        proof {
                            assert forall|a: int, b: int| 0 <= a < b < self.walked@.len() implies self.walked@[a]
                                != self.walked@[b] by {
                                if b == self.walked@.len() - 1 {
                                    assert(walked_before.contains(self.walked@[a]));
                                }
                            }
                        }
                    }
                    k = k + 1;
                    proof {
                        let rest_before = walk_path(before, direction, (steps - k + 1) as nat, self.size);
                        let rest = walk_path(pos, direction, (steps - k) as nat, self.size);
                        assert(rest_before.0 == seq![pos] + rest.0);
                        let done_before = full.0.take(full.0.len() - rest_before.0.len());
                        let done = full.0.take(full.0.len() - rest.0.len());
                        assert(done =~= done_before.push(pos)) by {
                            assert(full.0 == done_before + rest_before.0);
                            assert forall|i: int| 0 <= i < done.len() implies done[i] == done_before.push(pos)[i] by {
                                if i < done_before.len() {
                                    assert(full.0[i] == done_before[i]);
                                } else {
                                    assert(full.0[i] == rest_before.0[0]);
                                }
                            }
                        }
                        assert(full.0 =~= done + rest.0) by {
                            assert(full.0 == done_before + rest_before.0);
                        }
                        assert(self.walked@.to_set() =~= start_walked.to_set() + done.to_set()) by {
                            lemma_push_to_set(done_before, pos);
                            if walked_before.contains(pos) {
                                assert(self.walked@ == walked_before);
                                assert(walked_before.to_set().insert(pos) =~= walked_before.to_set());
                            } else {
                                lemma_push_to_set(walked_before, pos);
                            }
                        }
                    }
                },
                None => {
                    proof {
                        let rest = walk_path(before, direction, (steps - k) as nat, self.size);
                        assert(rest.0 == Seq::<GridPosition>::empty());
                        assert(rest.1 == false);
                        assert(full.0.take(full.0.len() as int) =~= full.0);
                        assert(full.1 == false);
                        assert(self.current_pos == walk_end(start, full.0));
                        assert(self.walked@.to_set() == start_walked.to_set() + full.0.to_set());
                    }
                    return false;
                },
            }
        }
        proof {
            let rest = walk_path(self.current_pos, direction, 0, self.size);
            assert(full.0.take(full.0.len() as int) =~= full.0);
        }
        true
    }

    /// Walks in the direction of index `direction_draw` of [`GridDir::ALL_2D`] (`UP`, `DOWN`, `LEFT`, `RIGHT`),
    /// `steps` steps (see [`walk_in`](Self::walk_in)), counting the call: the walk [`walk`](Self::walk) makes once
    /// it has drawn the direction's index from `0..4` and the number of steps. Returns whether all steps were made.
    pub fn walk_drawn(&mut self, direction_draw: usize, steps: usize) -> (r: bool)
        requires
            old(self).wf(),
            old(self).spec_iters() < u32::MAX,
            old(self).can_walk(),
            direction_draw < 4,
            old(self).step_allowed(steps as nat),
        ensures
            final(self).wf(),
            final(self).spec_iters() == old(self).spec_iters() + 1,
            final(self).spec_size() == old(self).spec_size(),
            r == walk_path(old(self).spec_current_pos(), dir_at(direction_draw as int), steps as nat, old(self).spec_size()).1,
            final(self).spec_current_pos() == walk_end(
                old(self).spec_current_pos(),
                walk_path(old(self).spec_current_pos(), dir_at(direction_draw as int), steps as nat, old(self).spec_size()).0,
            ),
            final(self).spec_walked().to_set() == old(self).spec_walked().to_set() + walk_path(
                old(self).spec_current_pos(),
                dir_at(direction_draw as int),
                steps as nat,
                old(self).spec_size(),
            ).0.to_set(),
            forall|n: nat| #[trigger] final(self).step_allowed(n) == old(self).step_allowed(n),
    {
        self.iters = self.iters + 1;
        let direction = GridDir::from_index(direction_draw);
        proof {
            assert(walk_in_bounds(self.current_pos, direction, steps as nat, self.size));
        }
        self.walk_in(direction, steps)
    }

    /// Walks in a direction picked at random among the four of [`GridDir::ALL_2D`], as many steps as picked at
    /// random between the minimum and maximum step sizes (see [`walk_drawn`](Self::walk_drawn)), counting the
    /// call. Returns whether all steps were made.
    pub fn walk(&mut self) -> (r: bool)
        requires
            old(self).wf(),
            old(self).spec_iters() < u32::MAX,
            old(self).can_walk(),
        ensures
            final(self).wf(),
            final(self).spec_iters() == old(self).spec_iters() + 1,
            final(self).spec_size() == old(self).spec_size(),
            exists|draw: int, n: nat|
                #![trigger walk_path(old(self).spec_current_pos(), dir_at(draw), n, old(self).spec_size())]
                0 <= draw < 4 && old(self).step_allowed(n) && r == walk_path(old(self).spec_current_pos(), dir_at(draw), n, old(self).spec_size()).1
                    && final(self).spec_current_pos() == walk_end(
                    old(self).spec_current_pos(),
                    walk_path(old(self).spec_current_pos(), dir_at(draw), n, old(self).spec_size()).0,
                ) && final(self).spec_walked().to_set() == old(self).spec_walked().to_set() + walk_path(
                    old(self).spec_current_pos(),
                    dir_at(draw),
                    n,
                    old(self).spec_size(),
                ).0.to_set(),
            forall|n: nat| #[trigger] final(self).step_allowed(n) == old(self).step_allowed(n),
    {
        let idx = sample_uniform(&mut self.rng, 0, 4);
        let step_size = match self.step_range {
            Some((low, high)) => sample_uniform(&mut self.rng, low, high),
            None => self.step_size,
        };
        proof {
            assert(old(self).step_allowed(step_size as nat));
        }
        let r = self.walk_drawn(idx, step_size);
        proof {
            assert(walk_path(old(self).spec_current_pos(), dir_at(idx as int), step_size as nat, old(self).spec_size()) ==
                walk_path(old(self).spec_current_pos(), dir_at(idx as int), step_size as nat, old(self).spec_size()));
        }
        r
    }

    /// Positions walked, each once.
    pub fn walked(&self) -> (r: &[GridPosition])
        ensures
            r@ == self.spec_walked(),
            self.wf() ==> r@.no_duplicates(),
    {
        self.walked.as_slice()
    }

    /// Grid map of the size of the walker, holding at each position walked the data `tile_fn` makes for it.
    pub fn gen_grid_map<Data: crate::tile::TileData, F: Fn(GridPosition) -> Data>(&self, tile_fn: F) -> (map: GridMap2D<Data>)
        requires
            self.spec_size().x * self.spec_size().y <= usize::MAX,
            forall|p: GridPosition| #[trigger] tile_fn.requires((p,)),
        ensures
            map.spec_size() == self.spec_size(),
            forall|p: GridPosition| #[trigger]
                tile_at(map, p) is Some <==> exists|w: GridPosition|
                    #![trigger self.spec_walked().contains(w)]
                    self.spec_walked().contains(w) && w.x == p.x && w.y == p.y && spec_position_valid(self.spec_size(), w),
            forall|p: GridPosition| #[trigger]
                tile_at(map, p) is Some ==> exists|w: GridPosition|
                    #![trigger self.spec_walked().contains(w)]
                    self.spec_walked().contains(w) && w.x == p.x && w.y == p.y && tile_fn.ensures((w,), tile_at(map, p)->0),
    {
        let mut map: GridMap2D<Data> = GridMap2D::new(self.size);
        let mut k: usize = 0;
        while k < self.walked.len()
            invariant
                k <= self.walked@.len(),
                map.spec_size() == self.size,
                forall|p: GridPosition| #[trigger] tile_fn.requires((p,)),
                forall|p: GridPosition| #[trigger] tile_at(map, p) is Some <==> walked_over(self.walked@, k as int, p, self.size),
                forall|p: GridPosition| #[trigger]
                    tile_at(map, p) is Some ==> exists|i: int|
                        0 <= i < k && #[trigger] self.walked@[i].x == p.x && self.walked@[i].y == p.y && tile_fn.ensures(
                            (self.walked@[i],),
                            tile_at(map, p)->0,
                        ),
            decreases self.walked@.len() - k,
        {
            let pos = self.walked[k];
            let data = tile_fn(pos);
            let ghost before = map;
            let ghost k0 = k as int;
            map.insert_data(&pos, data);
            k = k + 1;
            proof {
                assert forall|p: GridPosition| #[trigger] tile_at(map, p) is Some <==> walked_over(self.walked@, k as int, p, self.size) by {
                    let here = p.x == pos.x && p.y == pos.y && spec_position_valid(self.size, pos);
                    assert(walked_over(self.walked@, k as int, p, self.size) <==> walked_over(self.walked@, k0, p, self.size) || here) by {
                        if walked_over(self.walked@, k as int, p, self.size) && !here {
                            let i = choose|i: int|
                                0 <= i < k && #[trigger] self.walked@[i].x == p.x && self.walked@[i].y == p.y
                                    && spec_position_valid(self.size, self.walked@[i]);
                            assert(i != k0);
                        }
                        if here {
                            assert(self.walked@[k0].x == p.x);
                        }
                    }
                    assert(tile_at(before, p) is Some <==> walked_over(self.walked@, k0, p, self.size));
                    if p.x == pos.x && p.y == pos.y {
                        if !spec_position_valid(self.size, pos) {
                            assert(map.cell(p.x as int, p.y as int) == before.cell(p.x as int, p.y as int));
                        } else {
                            assert(tile_at(map, p) is Some);
                        }
                    } else {
                        assert(map.cell(p.x as int, p.y as int) == before.cell(p.x as int, p.y as int));
                    }
                }
                assert forall|p: GridPosition| #[trigger]
                    tile_at(map, p) is Some implies exists|i: int|
                        0 <= i < k && #[trigger] self.walked@[i].x == p.x && self.walked@[i].y == p.y && tile_fn.ensures(
                            (self.walked@[i],),
                            tile_at(map, p)->0,
                        ) by {
                    if p.x == pos.x && p.y == pos.y && spec_position_valid(self.size, pos) {
                        assert(self.walked@[k0].x == p.x && self.walked@[k0].y == p.y);
                        assert(tile_at(map, p) == Some(data));
                    } else {
                        assert(map.cell(p.x as int, p.y as int) == before.cell(p.x as int, p.y as int));
                        let i = choose|i: int|
                            0 <= i < k0 && #[trigger] self.walked@[i].x == p.x && self.walked@[i].y == p.y && tile_fn.ensures(
                                (self.walked@[i],),
                                tile_at(before, p)->0,
                            );
                        assert(self.walked@[i].x == p.x);
                    }
                }
            }
        }
        proof {
            assert forall|p: GridPosition| #[trigger]
                tile_at(map, p) is Some <==> exists|w: GridPosition|
                    #![trigger self.spec_walked().contains(w)]
                    self.spec_walked().contains(w) && w.x == p.x && w.y == p.y && spec_position_valid(self.spec_size(), w) by {
                if tile_at(map, p) is Some {
                    let i = choose|i: int|
                        0 <= i < k && #[trigger] self.walked@[i].x == p.x && self.walked@[i].y == p.y && spec_position_valid(
                            self.size,
                            self.walked@[i],
                        );
                    assert(self.spec_walked().contains(self.walked@[i]));
                }
                if exists|w: GridPosition|
                    #![trigger self.spec_walked().contains(w)]
                    self.spec_walked().contains(w) && w.x == p.x && w.y == p.y && spec_position_valid(self.spec_size(), w) {
                    let w = choose|w: GridPosition|
                        #![trigger self.spec_walked().contains(w)]
                        self.spec_walked().contains(w) && w.x == p.x && w.y == p.y && spec_position_valid(self.spec_size(), w);
                    let i = self.walked@.index_of(w);
                    assert(self.walked@[i].x == p.x && self.walked@[i].y == p.y);
                }
            }
            assert forall|p: GridPosition| #[trigger]
                tile_at(map, p) is Some implies exists|w: GridPosition|
                    #![trigger self.spec_walked().contains(w)]
                    self.spec_walked().contains(w) && w.x == p.x && w.y == p.y && tile_fn.ensures((w,), tile_at(map, p)->0) by {
                let i = choose|i: int|
                    0 <= i < k && #[trigger] self.walked@[i].x == p.x && self.walked@[i].y == p.y && tile_fn.ensures(
                        (self.walked@[i],),
                        tile_at(map, p)->0,
                    );
                assert(self.spec_walked().contains(self.walked@[i]));
            }
        }
        map
    }

    /// Sets the position the walker is at.
    pub fn set_current_pos(&mut self, current_pos: GridPosition)
        ensures
            final(self).wf() == old(self).wf(),
            final(self).spec_current_pos() == current_pos,
            final(self).spec_walked() == old(self).spec_walked(),
            final(self).spec_size() == old(self).spec_size(),
            final(self).spec_iters() == old(self).spec_iters(),
            forall|n: nat| #[trigger] final(self).step_allowed(n) == old(self).step_allowed(n),
    {
        self.current_pos = current_pos;
    }

    /// Position the walker is at.
    pub fn current_pos(&self) -> (r: GridPosition)
        ensures
            r == self.spec_current_pos(),
    {
        self.current_pos
    }

    /// Forgets the walks: no call counted, no position walked.
    pub fn reset(&mut self)
        ensures
            old(self).wf() ==> final(self).wf(),
            final(self).spec_iters() == 0,
            final(self).spec_walked() == Seq::<GridPosition>::empty(),
            final(self).spec_current_pos() == old(self).spec_current_pos(),
            final(self).spec_size() == old(self).spec_size(),
            forall|n: nat| #[trigger] final(self).step_allowed(n) == old(self).step_allowed(n),
    {
        self.iters = 0;
        self.walked.clear();
    }
}

/// Builder of [`GridWalker2D`].
pub struct GridWalker2DBuilder {
    current_pos: Option<GridPosition>,
    rng: Option<StdRng>,
    size: Option<GridSize>,
    min_step_size: usize,
    max_step_size: usize,
}

impl GridWalker2DBuilder {
    pub closed spec fn spec_current_pos(&self) -> Option<GridPosition> {
        self.current_pos
    }

    pub closed spec fn has_rng(&self) -> bool {
        self.rng is Some
    }

    pub closed spec fn spec_size(&self) -> Option<GridSize> {
        self.size
    }

    pub closed spec fn spec_min_step_size(&self) -> usize {
        self.min_step_size
    }

    pub closed spec fn spec_max_step_size(&self) -> usize {
        self.max_step_size
    }

    /// Builder with nothing set, and both step sizes `1`.
    pub fn new() -> (b: Self)
        ensures
            b.spec_current_pos() is None,
            !b.has_rng(),
            b.spec_size() is None,
            b.spec_min_step_size() == 1,
            b.spec_max_step_size() == 1,
    {
        Self { current_pos: None, rng: None, size: None, min_step_size: 1, max_step_size: 1 }
    }

    /// Sets the starting position of the walker.
    pub fn with_current_pos(self, current_pos: GridPosition) -> (b: Self)
        ensures
            b.spec_current_pos() == Some(current_pos),
            b.has_rng() == self.has_rng(),
            b.spec_size() == self.spec_size(),
            b.spec_min_step_size() == self.spec_min_step_size(),
            b.spec_max_step_size() == self.spec_max_step_size(),
    {
        Self { current_pos: Some(current_pos), ..self }
    }

    /// Sets the random number generator of the walker.
    pub fn with_rng(self, rng: StdRng) -> (b: Self)
        ensures
            b.spec_current_pos() == self.spec_current_pos(),
            b.has_rng(),
            b.spec_size() == self.spec_size(),
            b.spec_min_step_size() == self.spec_min_step_size(),
            b.spec_max_step_size() == self.spec_max_step_size(),
    {
        Self { rng: Some(rng), ..self }
    }

    /// Sets the minimum step size: at every walk the walker picks a direction and takes between the minimum and
    /// maximum step sizes steps in it, at random.
    pub fn with_min_step_size(self, min_step_size: usize) -> (b: Self)
        ensures
            b.spec_current_pos() == self.spec_current_pos(),
            b.has_rng() == self.has_rng(),
            b.spec_size() == self.spec_size(),
            b.spec_min_step_size() == min_step_size,
            b.spec_max_step_size() == self.spec_max_step_size(),
    {
        Self { min_step_size, ..self }
    }

    /// Sets the maximum step size (see [`with_min_step_size`](Self::with_min_step_size)).
    pub fn with_max_step_size(self, max_step_size: usize) -> (b: Self)
        ensures
            b.spec_current_pos() == self.spec_current_pos(),
            b.has_rng() == self.has_rng(),
            b.spec_size() == self.spec_size(),
            b.spec_min_step_size() == self.spec_min_step_size(),
            b.spec_max_step_size() == max_step_size,
    {
        Self { max_step_size, ..self }
    }

    /// Sets the size of the grid the walker walks within.
    pub fn with_size(self, size: GridSize) -> (b: Self)
        ensures
            b.spec_current_pos() == self.spec_current_pos(),
            b.has_rng() == self.has_rng(),
            b.spec_size() == Some(size),
            b.spec_min_step_size() == self.spec_min_step_size(),
            b.spec_max_step_size() == self.spec_max_step_size(),
    {
        Self { size: Some(size), ..self }
    }

    /// Builds the walker, starting at the given position or else at the center of the grid, with that position
    /// walked. Returns an error listing the fields not given if the size or the random number generator is
    /// missing.
    pub fn build(self) -> (r: Result<GridWalker2D, BuilderError>)
        requires
            self.spec_size() is Some || self.spec_current_pos() is Some,
            self.spec_size() is Some && self.has_rng() ==> self.spec_min_step_size() == self.spec_max_step_size() || (
            self.spec_min_step_size() < self.spec_max_step_size() && self.spec_max_step_size() < usize::MAX),
        ensures
            r is Err <==> self.spec_size() is None || !self.has_rng(),
            r matches Err(e) ==> e.spec_missing_fields() == (if self.spec_size() is None {
                seq![BuilderField::Size]
            } else {
                Seq::<BuilderField>::empty()
            }) + (if self.has_rng() {
                Seq::<BuilderField>::empty()
            } else {
                seq![BuilderField::Rng]
            }),
            r matches Ok(w) ==> {
                let start = match self.spec_current_pos() {
                    Some(p) => p,
                    None => GridPosition {
                        x: self.spec_size()->0.center.0,
                        y: self.spec_size()->0.center.1,
                        z: None,
                    },
                };
                &&& w.wf()
                &&& w.spec_current_pos() == start
                &&& w.spec_walked() == seq![start]
                &&& w.spec_size() == self.spec_size()->0
                &&& w.spec_iters() == 0
                &&& forall|n: nat| #[trigger] w.step_allowed(n) == (self.spec_min_step_size() <= n <= self.spec_max_step_size())
            },
    {
        let mut missing_fields: Vec<BuilderField> = Vec::new();
        if self.size.is_none() {
            missing_fields.push(BuilderField::Size);
        }
        let current_pos = match self.current_pos {
            Some(pos) => pos,
            None => {
                let center = self.size.unwrap().center();
                GridPosition::new_xy(center.0, center.1)
            },
        };
        if self.rng.is_none() {
            missing_fields.push(BuilderField::Rng);
        }
        if missing_fields.len() > 0 {
            let ghost m = missing_fields@;
            proof {
                if self.size is None {
                    if self.rng is None {
                        assert(m =~= seq![BuilderField::Size] + seq![BuilderField::Rng]);
                    } else {
                        assert(m =~= seq![BuilderField::Size] + Seq::<BuilderField>::empty());
                    }
                } else {
                    assert(m =~= Seq::<BuilderField>::empty() + seq![BuilderField::Rng]);
                }
            }
            return Err(BuilderError { missing_fields });
        }
        let step_range = if self.min_step_size == self.max_step_size {
            None
        } else {
            Some((self.min_step_size, self.max_step_size + 1))
        };
        let mut walked: Vec<GridPosition> = Vec::new();
        walked.push(current_pos);
        let w = GridWalker2D {
            current_pos,
            walked,
            rng: self.rng.unwrap(),
            step_range,
            size: self.size.unwrap(),
            step_size: self.min_step_size,
            iters: 0,
        };
        proof {
            assert(w.walked@ =~= seq![current_pos]);
        }
        Ok(w)
    }
}

} // verus!
