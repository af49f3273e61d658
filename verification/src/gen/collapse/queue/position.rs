//! Queue collapsing tiles consecutively in a fixed direction, based solely on their position.
use vstd::prelude::*;

use std::cmp::Ordering;

use crate::tile::{z_key, GridPosition};

verus! {

/// Starting point of the collapse wave.
#[derive(Debug, Clone, Copy, PartialEq, Eq, Structural, Default)]
pub enum PositionQueueStartingPoint {
    /// Starts at the `(0, 0)` position.
    #[default]
    UpLeft,
    /// Starts at the `(max, 0)` position.
    UpRight,
    /// Starts at the `(0, max)` position.
    DownLeft,
    /// Starts at the `(max, max)` position.
    DownRight,
}

/// Direction in which the tiles are collapsed.
#[derive(Debug, Clone, Copy, PartialEq, Eq, Structural, Default)]
pub enum PositionQueueDirection {
    /// Collapses tiles row by row.
    #[default]
    Rowwise,
    /// Collapses tiles column by column.
    Columnwise,
}

/// Key of a position in the order of collapse, compared lexicographically: layer first, then the two
/// coordinates in the order and sense given by the starting point and the direction. The first position of each
/// layer is the corner named by the starting point; row by row, each row is taken from that corner's side and the
/// rows from that corner's edge on, and likewise column by column.
pub open spec fn queue_key(
    start: PositionQueueStartingPoint,
    direction: PositionQueueDirection,
    p: GridPosition,
) -> (int, int, int) {
    let z = z_key(p);
    let x = p.x as int;
    let y = p.y as int;
    match (start, direction) {
        (PositionQueueStartingPoint::UpLeft, PositionQueueDirection::Rowwise) => (z, y, x),
        (PositionQueueStartingPoint::UpLeft, PositionQueueDirection::Columnwise) => (z, x, y),
        (PositionQueueStartingPoint::UpRight, PositionQueueDirection::Rowwise) => (z, y, -x),
        (PositionQueueStartingPoint::UpRight, PositionQueueDirection::Columnwise) => (z, -x, y),
        (PositionQueueStartingPoint::DownLeft, PositionQueueDirection::Rowwise) => (z, -y, x),
        (PositionQueueStartingPoint::DownLeft, PositionQueueDirection::Columnwise) => (z, x, -y),
        (PositionQueueStartingPoint::DownRight, PositionQueueDirection::Rowwise) => (z, -y, -x),
        (PositionQueueStartingPoint::DownRight, PositionQueueDirection::Columnwise) => (z, -x, -y),
    }
}

/// Lexicographic strict order of keys.
pub open spec fn key_lt(a: (int, int, int), b: (int, int, int)) -> bool {
    ||| a.0 < b.0
    ||| a.0 == b.0 && a.1 < b.1
    ||| a.0 == b.0 && a.1 == b.1 && a.2 < b.2
}

/// Position `a` is collapsed before position `b`.
pub open spec fn queue_lt(
    start: PositionQueueStartingPoint,
    direction: PositionQueueDirection,
    a: GridPosition,
    b: GridPosition,
) -> bool {
    key_lt(queue_key(start, direction, a), queue_key(start, direction, b))
}

/// Ordering of two keys.
pub open spec fn key_ordering(a: (int, int, int), b: (int, int, int)) -> Ordering {
    if key_lt(a, b) {
        Ordering::Less
    } else if a == b {
        Ordering::Equal
    } else {
        Ordering::Greater
    }
}

/// Key of a position, as integers.
fn exec_key(start: PositionQueueStartingPoint, direction: PositionQueueDirection, p: &GridPosition) -> (k: (
    i64,
    i64,
    i64,
))
    ensures
        int_key(k) == queue_key(start, direction, *p),
{
    let z: i64 = match p.z {
        Some(z) => z as i64,
        None => -1,
    };
    let x = p.x as i64;
    let y = p.y as i64;
    match (start, direction) {
        (PositionQueueStartingPoint::UpLeft, PositionQueueDirection::Rowwise) => (z, y, x),
        (PositionQueueStartingPoint::UpLeft, PositionQueueDirection::Columnwise) => (z, x, y),
        (PositionQueueStartingPoint::UpRight, PositionQueueDirection::Rowwise) => (z, y, -x),
        (PositionQueueStartingPoint::UpRight, PositionQueueDirection::Columnwise) => (z, -x, y),
        (PositionQueueStartingPoint::DownLeft, PositionQueueDirection::Rowwise) => (z, -y, x),
        (PositionQueueStartingPoint::DownLeft, PositionQueueDirection::Columnwise) => (z, x, -y),
        (PositionQueueStartingPoint::DownRight, PositionQueueDirection::Rowwise) => (z, -y, -x),
        (PositionQueueStartingPoint::DownRight, PositionQueueDirection::Columnwise) => (z, -x, -y),
    }
}

/// Position `a` is collapsed before position `b`.
pub fn comes_before(
    start: PositionQueueStartingPoint,
    direction: PositionQueueDirection,
    a: &GridPosition,
    b: &GridPosition,
) -> (r: bool)
    ensures
        r == queue_lt(start, direction, *a, *b),
{
    let ka = exec_key(start, direction, a);
    let kb = exec_key(start, direction, b);
    ka.0 < kb.0 || (ka.0 == kb.0 && ka.1 < kb.1) || (ka.0 == kb.0 && ka.1 == kb.1 && ka.2 < kb.2)
}

/// Key given by integers.
pub open spec fn int_key(k: (i64, i64, i64)) -> (int, int, int) {
    (k.0 as int, k.1 as int, k.2 as int)
}

fn order_keys(a: (i64, i64, i64), b: (i64, i64, i64)) -> (r: Ordering)
    ensures
        r == key_ordering(int_key(a), int_key(b)),
{
    if a.0 < b.0 || (a.0 == b.0 && a.1 < b.1) || (a.0 == b.0 && a.1 == b.1 && a.2 < b.2) {
        Ordering::Less
    } else if a.0 == b.0 && a.1 == b.1 && a.2 == b.2 {
        Ordering::Equal
    } else {
        Ordering::Greater
    }
}

/// Order of collapse starting up-left, column by column.
pub fn compare_upleft_columnwise(a: &GridPosition, b: &GridPosition) -> (r: Ordering)
    ensures
        r == key_ordering(
            queue_key(PositionQueueStartingPoint::UpLeft, PositionQueueDirection::Columnwise, *a),
            queue_key(PositionQueueStartingPoint::UpLeft, PositionQueueDirection::Columnwise, *b),
        ),
{
    order_keys(
        exec_key(PositionQueueStartingPoint::UpLeft, PositionQueueDirection::Columnwise, a),
        exec_key(PositionQueueStartingPoint::UpLeft, PositionQueueDirection::Columnwise, b),
    )
}

/// Order of collapse starting up-left, row by row.
pub fn compare_upleft_rowwise(a: &GridPosition, b: &GridPosition) -> (r: Ordering)
    ensures
        r == key_ordering(
            queue_key(PositionQueueStartingPoint::UpLeft, PositionQueueDirection::Rowwise, *a),
            queue_key(PositionQueueStartingPoint::UpLeft, PositionQueueDirection::Rowwise, *b),
        ),
{
    order_keys(
        exec_key(PositionQueueStartingPoint::UpLeft, PositionQueueDirection::Rowwise, a),
        exec_key(PositionQueueStartingPoint::UpLeft, PositionQueueDirection::Rowwise, b),
    )
}

/// Order of collapse starting up-right, column by column.
pub fn compare_upright_columnwise(a: &GridPosition, b: &GridPosition) -> (r: Ordering)
    ensures
        r == key_ordering(
            queue_key(PositionQueueStartingPoint::UpRight, PositionQueueDirection::Columnwise, *a),
            queue_key(PositionQueueStartingPoint::UpRight, PositionQueueDirection::Columnwise, *b),
        ),
{
    order_keys(
        exec_key(PositionQueueStartingPoint::UpRight, PositionQueueDirection::Columnwise, a),
        exec_key(PositionQueueStartingPoint::UpRight, PositionQueueDirection::Columnwise, b),
    )
}

/// Order of collapse starting up-right, row by row.
pub fn compare_upright_rowwise(a: &GridPosition, b: &GridPosition) -> (r: Ordering)
    ensures
        r == key_ordering(
            queue_key(PositionQueueStartingPoint::UpRight, PositionQueueDirection::Rowwise, *a),
            queue_key(PositionQueueStartingPoint::UpRight, PositionQueueDirection::Rowwise, *b),
        ),
{
    order_keys(
        exec_key(PositionQueueStartingPoint::UpRight, PositionQueueDirection::Rowwise, a),
        exec_key(PositionQueueStartingPoint::UpRight, PositionQueueDirection::Rowwise, b),
    )
}

/// Order of collapse starting down-left, column by column.
pub fn compare_downleft_columnwise(a: &GridPosition, b: &GridPosition) -> (r: Ordering)
    ensures
        r == key_ordering(
            queue_key(PositionQueueStartingPoint::DownLeft, PositionQueueDirection::Columnwise, *a),
            queue_key(PositionQueueStartingPoint::DownLeft, PositionQueueDirection::Columnwise, *b),
        ),
{
    order_keys(
        exec_key(PositionQueueStartingPoint::DownLeft, PositionQueueDirection::Columnwise, a),
        exec_key(PositionQueueStartingPoint::DownLeft, PositionQueueDirection::Columnwise, b),
    )
}

/// Order of collapse starting down-left, row by row.
pub fn compare_downleft_rowwise(a: &GridPosition, b: &GridPosition) -> (r: Ordering)
    ensures
        r == key_ordering(
            queue_key(PositionQueueStartingPoint::DownLeft, PositionQueueDirection::Rowwise, *a),
            queue_key(PositionQueueStartingPoint::DownLeft, PositionQueueDirection::Rowwise, *b),
        ),
{
    order_keys(
        exec_key(PositionQueueStartingPoint::DownLeft, PositionQueueDirection::Rowwise, a),
        exec_key(PositionQueueStartingPoint::DownLeft, PositionQueueDirection::Rowwise, b),
    )
}

/// Order of collapse starting down-right, column by column.
pub fn compare_downright_columnwise(a: &GridPosition, b: &GridPosition) -> (r: Ordering)
    ensures
        r == key_ordering(
            queue_key(PositionQueueStartingPoint::DownRight, PositionQueueDirection::Columnwise, *a),
            queue_key(PositionQueueStartingPoint::DownRight, PositionQueueDirection::Columnwise, *b),
        ),
{
    order_keys(
        exec_key(PositionQueueStartingPoint::DownRight, PositionQueueDirection::Columnwise, a),
        exec_key(PositionQueueStartingPoint::DownRight, PositionQueueDirection::Columnwise, b),
    )
}

/// Order of collapse starting down-right, row by row.
pub fn compare_downright_rowwise(a: &GridPosition, b: &GridPosition) -> (r: Ordering)
    ensures
        r == key_ordering(
            queue_key(PositionQueueStartingPoint::DownRight, PositionQueueDirection::Rowwise, *a),
            queue_key(PositionQueueStartingPoint::DownRight, PositionQueueDirection::Rowwise, *b),
        ),
{
    order_keys(
        exec_key(PositionQueueStartingPoint::DownRight, PositionQueueDirection::Rowwise, a),
        exec_key(PositionQueueStartingPoint::DownRight, PositionQueueDirection::Rowwise, b),
    )
}

/// `s` is ordered so that its last element is collapsed first: no element comes before an earlier one.
pub open spec fn sorted_for_pop(
    start: PositionQueueStartingPoint,
    direction: PositionQueueDirection,
    s: Seq<GridPosition>,
) -> bool {
    forall|i: int, j: int| 0 <= i < j < s.len() ==> !queue_lt(start, direction, #[trigger] s[i], #[trigger] s[j])
}

/// `p` was waiting in `before` and comes first in its order; `after` holds the other waiting positions.
pub open spec fn popped_first(before: PositionQueue, after: PositionQueue, p: GridPosition) -> bool {
    &&& before.waiting().contains(p)
    &&& forall|q: GridPosition| #[trigger]
        before.waiting().contains(q) ==> !queue_lt(before.start(), before.direction(), q, p)
    &&& after.waiting().len() == before.waiting().len() - 1
    &&& forall|q: GridPosition| #[trigger] after.waiting().contains(q) <==> before.waiting().contains(q) && q != p
}

/// The layer of `a` is collapsed before that of `b`: positions without a layer first, then the layers upwards.
pub open spec fn layer_before(a: GridPosition, b: GridPosition) -> bool {
    match (a.z, b.z) {
        (None, Some(_)) => true,
        (Some(za), Some(zb)) => za < zb,
        _ => false,
    }
}

/// Position `a` is collapsed before position `b` by a queue starting at `start` and going in `direction`: layer by
/// layer; within a layer row by row (or column by column), the rows (columns) taken from the edge of the starting
/// corner on, and each row (column) from that corner's side.
pub open spec fn collapses_before(
    start: PositionQueueStartingPoint,
    direction: PositionQueueDirection,
    a: GridPosition,
    b: GridPosition,
) -> bool {
    let from_top = start == PositionQueueStartingPoint::UpLeft || start == PositionQueueStartingPoint::UpRight;
    let from_left = start == PositionQueueStartingPoint::UpLeft || start == PositionQueueStartingPoint::DownLeft;
    let earlier_row = if from_top { a.y < b.y } else { a.y > b.y };
    let earlier_column = if from_left { a.x < b.x } else { a.x > b.x };
    ||| layer_before(a, b)
    ||| a.z == b.z && direction == PositionQueueDirection::Rowwise && (earlier_row || (a.y == b.y && earlier_column))
    ||| a.z == b.z && direction == PositionQueueDirection::Columnwise && (earlier_column || (a.x == b.x && earlier_row))
}

/// The order of a position queue is the order of collapse described by its starting point and direction: a position
/// comes before another exactly when it is collapsed before it (see [`collapses_before`]), and the comparisons of
/// the queue (such as [`compare_upleft_columnwise`]) find two positions equal exactly when they have the same
/// coordinates and layer. So, starting up-left column by column, of two positions of the same layer and column the
/// upper one comes first.
pub proof fn lemma_queue_order(
    start: PositionQueueStartingPoint,
    direction: PositionQueueDirection,
    a: GridPosition,
    b: GridPosition,
)
    ensures
        queue_lt(start, direction, a, b) <==> collapses_before(start, direction, a, b),
        key_ordering(queue_key(start, direction, a), queue_key(start, direction, b)) == Ordering::Less <==> collapses_before(
            start,
            direction,
            a,
            b,
        ),
        key_ordering(queue_key(start, direction, a), queue_key(start, direction, b)) == Ordering::Equal <==> (a.z == b.z
            && a.x == b.x && a.y == b.y),
        key_ordering(queue_key(start, direction, a), queue_key(start, direction, b)) == Ordering::Greater <==> collapses_before(
            start,
            direction,
            b,
            a,
        ),
{
}

/// The position a queue hands out next is collapsed no later than any other waiting: no waiting position is
/// collapsed before it (see [`collapses_before`]).
pub proof fn lemma_next_position_first(before: PositionQueue, after: PositionQueue, p: GridPosition, q: GridPosition)
    requires
        popped_first(before, after, p),
        before.waiting().contains(q),
    ensures
        !collapses_before(before.start(), before.direction(), q, p),
{
    lemma_queue_order(before.start(), before.direction(), q, p);
}

/// Queue collapsing tiles consecutively in a fixed order, based solely on their position.
#[derive(Debug)]
pub struct PositionQueue {
    starting_point: PositionQueueStartingPoint,
    progress_direction: PositionQueueDirection,
    positions: Vec<GridPosition>,
    changed: bool,
}

impl PositionQueue {
    #[verifier::type_invariant]
    closed spec fn inv(&self) -> bool {
        &&& self.positions@.no_duplicates()
        &&& self.positions@.len() > 0 ==> self.changed
    }

    /// Positions waiting in the queue.
    pub closed spec fn waiting(&self) -> Seq<GridPosition> {
        self.positions@
    }

    pub closed spec fn start(&self) -> PositionQueueStartingPoint {
        self.starting_point
    }

    pub closed spec fn direction(&self) -> PositionQueueDirection {
        self.progress_direction
    }

    /// Empty queue collapsing from `starting` in `direction`.
    pub fn new(starting: PositionQueueStartingPoint, direction: PositionQueueDirection) -> (q: Self)
        ensures
            q.waiting() == Seq::<GridPosition>::empty(),
            q.start() == starting,
            q.direction() == direction,
    {
        Self { starting_point: starting, progress_direction: direction, positions: Vec::new(), changed: false }
    }

    /// Sorts the waiting positions so that the one collapsed first is last.
    pub fn sort_elements(&mut self)
        ensures
            sorted_for_pop(final(self).start(), final(self).direction(), final(self).waiting()),
            final(self).waiting().len() == old(self).waiting().len(),
            forall|p: GridPosition| #[trigger] final(self).waiting().contains(p) <==> old(self).waiting().contains(p),
            final(self).start() == old(self).start(),
            final(self).direction() == old(self).direction(),
    {
        proof {
            use_type_invariant(&*self);
        }
        let start = self.starting_point;
        let direction = self.progress_direction;
        let mut sorted: Vec<GridPosition> = Vec::new();
        let mut k: usize = 0;
        while k < self.positions.len()
            invariant
                k <= self.positions@.len(),
                self.positions@.no_duplicates(),
                start == self.starting_point,
                direction == self.progress_direction,
                sorted@.len() == k,
                sorted@.no_duplicates(),
                sorted_for_pop(start, direction, sorted@),
                forall|p: GridPosition| #[trigger] sorted@.contains(p) <==> self.positions@.take(k as int).contains(p),
            decreases self.positions@.len() - k,
        {
            let p = self.positions[k];
            proof {
                assert(!sorted@.contains(p)) by {
                    if sorted@.contains(p) {
                        let j = self.positions@.take(k as int).index_of(p);
                        assert(self.positions@[j] == self.positions@[k as int]);
                    }
                }
            }
            insert_sorted(&mut sorted, p, start, direction);
            k = k + 1;
            proof {
                assert forall|q: GridPosition| #[trigger] sorted@.contains(q) <==> self.positions@.take(
                    k as int,
                ).contains(q) by {
                    if self.positions@.take(k as int).contains(q) && q != p {
                        let j = self.positions@.take(k as int).index_of(q);
                        assert(self.positions@.take(k - 1)[j] == q);
                    }
                    if self.positions@.take(k - 1).contains(q) {
                        let j = self.positions@.take(k - 1).index_of(q);
                        assert(self.positions@.take(k as int)[j] == q);
                    }
                    if q == p {
                        assert(self.positions@.take(k as int)[k - 1] == q);
                    }
                }
            }
        }
        proof {
            assert(self.positions@.take(k as int) =~= self.positions@);
        }
        self.positions = sorted;
    }

    /// Pops the position to collapse next: the one that comes first in the order of the queue.
    pub fn get_next_position(&mut self) -> (r: Option<GridPosition>)
        ensures
            old(self).waiting().len() == 0 ==> r is None && final(self).waiting() == old(self).waiting(),
            old(self).waiting().len() > 0 ==> (r matches Some(p) && popped_first(*old(self), *final(self), p)),
            final(self).start() == old(self).start(),
            final(self).direction() == old(self).direction(),
    {
        proof {
            use_type_invariant(&*self);
        }
        if self.positions.len() == 0 {
            return None;
        }
        if self.changed {
            self.sort_elements();
        }
        proof {
            use_type_invariant(&*self);
        }
        let ghost sorted = self.positions@;
        let mut positions: Vec<GridPosition> = Vec::new();
        std::mem::swap(&mut positions, &mut self.positions);
        let r = positions.pop();
        proof {
            assert(positions@ =~= sorted.drop_last());
            assert forall|a: int, b: int| 0 <= a < b < positions@.len() implies positions@[a] != positions@[b] by {
                assert(sorted[a] != sorted[b]);
            }
        }
        std::mem::swap(&mut positions, &mut self.positions);
        proof {
            let p = sorted.last();
            assert(r == Some(p));
            assert(sorted[sorted.len() - 1] == p);
            assert(sorted.contains(p));
            assert(self.waiting() == self.positions@);
            assert forall|q: GridPosition| #[trigger] old(self).waiting().contains(q) implies !queue_lt(
                old(self).start(),
                old(self).direction(),
                q,
                p,
            ) by {
                assert(sorted.contains(q));
                let j = sorted.index_of(q);
                if j < sorted.len() - 1 {
                    assert(!queue_lt(self.starting_point, self.progress_direction, sorted[j], sorted[sorted.len() - 1]));
                }
            }
            assert(self.positions@ =~= sorted.drop_last());
            assert forall|q: GridPosition| #[trigger] self.positions@.contains(q) <==> old(self).waiting().contains(
                q,
            ) && q != p by {
                if self.positions@.contains(q) {
                    let j = self.positions@.index_of(q);
                    assert(sorted[j] == q);
                    assert(sorted.contains(q));
                    assert(sorted[j] != sorted[sorted.len() - 1]);
                }
                if old(self).waiting().contains(q) && q != p {
                    assert(sorted.contains(q));
                    let j = sorted.index_of(q);
                    assert(self.positions@[j] == q);
                }
            }
            assert(popped_first(*old(self), *self, p));
        }
        r
    }

    /// Adds `position` to the queue unless it is waiting already.
    pub fn update_queue(&mut self, position: GridPosition)
        ensures
            forall|p: GridPosition| #[trigger]
                final(self).waiting().contains(p) <==> old(self).waiting().contains(p) || p == position,
            final(self).waiting().len() == if old(self).waiting().contains(position) {
                old(self).waiting().len()
            } else {
                old(self).waiting().len() + 1
            },
            final(self).start() == old(self).start(),
            final(self).direction() == old(self).direction(),
    {
        proof {
            use_type_invariant(&*self);
        }
        if !contains_position(self.positions.as_slice(), &position) {
            let mut positions: Vec<GridPosition> = Vec::new();
            std::mem::swap(&mut positions, &mut self.positions);
            let ghost before = positions@;
            positions.push(position);
            proof {
                assert forall|a: int, b: int| 0 <= a < b < positions@.len() implies positions@[a] != positions@[b] by {
                    if b == positions@.len() - 1 {
                        assert(before[a] == positions@[a]);
                    }
                }
                assert forall|p: GridPosition| #[trigger] positions@.contains(p) <==> before.contains(p) || p == position by {
                    if positions@.contains(p) && p != position {
                        let j = positions@.index_of(p);
                        assert(before[j] == p);
                    }
                    if before.contains(p) {
                        let j = before.index_of(p);
                        assert(positions@[j] == p);
                    }
                    if p == position {
                        assert(positions@[before.len() as int] == p);
                    }
                }
            }
            self.changed = true;
            std::mem::swap(&mut positions, &mut self.positions);
        }
        self.changed = true;
    }

    /// Adds each of the positions to the queue.
    pub fn initialize_queue(&mut self, positions: &[GridPosition])
        ensures
            forall|p: GridPosition| #[trigger]
                final(self).waiting().contains(p) <==> old(self).waiting().contains(p) || positions@.contains(p),
            final(self).start() == old(self).start(),
            final(self).direction() == old(self).direction(),
    {
        let mut k: usize = 0;
        while k < positions.len()
            invariant
                k <= positions@.len(),
                self.start() == old(self).start(),
                self.direction() == old(self).direction(),
                forall|p: GridPosition| #[trigger]
                    self.waiting().contains(p) <==> old(self).waiting().contains(p) || positions@.take(
                        k as int,
                    ).contains(p),
            decreases positions@.len() - k,
        {
            self.update_queue(positions[k]);
            k = k + 1;
            proof {
                assert forall|p: GridPosition| #[trigger] positions@.take(k as int).contains(p) <==> positions@.take(
                    k - 1,
                ).contains(p) || p == positions@[k - 1] by {
                    if positions@.take(k as int).contains(p) && p != positions@[k - 1] {
                        let j = positions@.take(k as int).index_of(p);
                        assert(positions@.take(k - 1)[j] == p);
                    }
                    if positions@.take(k - 1).contains(p) {
                        let j = positions@.take(k - 1).index_of(p);
                        assert(positions@.take(k as int)[j] == p);
                    }
                    if p == positions@[k - 1] {
                        assert(positions@.take(k as int)[k - 1] == p);
                    }
                }
            }
        }
        assert(positions@.take(k as int) =~= positions@);
    }

    /// Number of waiting positions.
    pub fn len(&self) -> (n: usize)
        ensures
            n == self.waiting().len(),
    {
        self.positions.len()
    }

    /// No position is waiting.
    pub fn is_empty(&self) -> (r: bool)
        ensures
            r == (self.waiting().len() == 0),
    {
        self.positions.len() == 0
    }
}

/// `positions` holds `p`.
pub fn contains_position(positions: &[GridPosition], p: &GridPosition) -> (r: bool)
    ensures
        r == positions@.contains(*p),
{
    let mut i: usize = 0;
    while i < positions.len()
        invariant
            i <= positions@.len(),
            forall|j: int| 0 <= j < i ==> positions@[j] != *p,
        decreases positions@.len() - i,
    {
        if positions[i] == *p {
            assert(positions@[i as int] == *p);
            return true;
        }
        i = i + 1;
    }
    false
}

/// Inserts `p` into `sorted`, keeping it sorted so that the element collapsed first is last.
fn insert_sorted(
    sorted: &mut Vec<GridPosition>,
    p: GridPosition,
    start: PositionQueueStartingPoint,
    direction: PositionQueueDirection,
)
    requires
        sorted_for_pop(start, direction, old(sorted)@),
        old(sorted)@.no_duplicates(),
        !old(sorted)@.contains(p),
    ensures
        sorted_for_pop(start, direction, final(sorted)@),
        final(sorted)@.no_duplicates(),
        final(sorted)@.len() == old(sorted)@.len() + 1,
        forall|q: GridPosition| #[trigger] final(sorted)@.contains(q) <==> old(sorted)@.contains(q) || q == p,
{
    let mut i: usize = 0;
    while i < sorted.len() && !comes_before(start, direction, &sorted[i], &p)
        invariant
            i <= sorted@.len(),
            forall|j: int| 0 <= j < i ==> !queue_lt(start, direction, #[trigger] sorted@[j], p),
        decreases sorted@.len() - i,
    {
        i = i + 1;
    }
    let ghost before = sorted@;
    sorted.insert(i, p);
    proof {
        assert(sorted@ == before.insert(i as int, p));
        before.insert_ensures(i as int, p);
        let ghost head = before.subrange(0, i as int).push(p);
        let ghost tail = before.subrange(i as int, before.len() as int);
        assert(sorted@ == head + tail);
        assert forall|b: int| #![trigger sorted@[b]] i < b < sorted@.len() implies sorted@[b] == before[b - 1] by {
            assert(head.len() == i + 1);
            assert((head + tail)[b] == tail[b - (i + 1)]);
            assert(tail[b - (i + 1)] == before[b - 1]);
        }
        assert forall|b: int| #![trigger sorted@[b]] 0 <= b < i implies sorted@[b] == before[b] by {
            assert((head + tail)[b] == head[b]);
        }
        assert(sorted@[i as int] == p) by {
            assert((head + tail)[i as int] == head[i as int]);
        }
        assert forall|a: int, b: int| 0 <= a < b < sorted@.len() implies !queue_lt(
            start,
            direction,
            #[trigger] sorted@[a],
            #[trigger] sorted@[b],
        ) by {
            if b < i {
                assert(sorted@[b] == before[b]);
                assert(sorted@[a] == before[a]);
            } else if a < i && b == i {
            } else if a < i && b > i {
                assert(sorted@[b] == before[b - 1]);
                assert(sorted@[a] == before[a]);
            } else if a == i && b > i {
                assert(sorted@[b] == before[b - 1]);
                assert(queue_lt(start, direction, before[i as int], p));
                if queue_lt(start, direction, p, before[b - 1]) {
                    assert(b - 1 > i);
                    assert(!queue_lt(start, direction, before[i as int], before[b - 1]));
                }
            } else {
                assert(sorted@[b] == before[b - 1]);
                assert(sorted@[a] == before[a - 1]);
            }
        }
        assert forall|a: int, b: int| 0 <= a < b < sorted@.len() implies sorted@[a] != sorted@[b] by {
            if b < i {
                assert(sorted@[b] == before[b]);
                assert(sorted@[a] == before[a]);
            } else if a < i && b == i {
                assert(before.contains(sorted@[a]));
            } else if a < i && b > i {
                assert(sorted@[b] == before[b - 1]);
            } else if a == i && b > i {
                assert(before.contains(sorted@[b]));
            } else {
                assert(sorted@[b] == before[b - 1]);
                assert(sorted@[a] == before[a - 1]);
            }
        }
        assert forall|q: GridPosition| #[trigger] sorted@.contains(q) <==> before.contains(q) || q == p by {
            if sorted@.contains(q) {
                let j = sorted@.index_of(q);
                if j < i {
                    assert(before[j] == q);
                } else if j > i {
                    assert(before[j - 1] == q);
                }
            }
            if before.contains(q) {
                let j = before.index_of(q);
                if j < i {
                    assert(sorted@[j] == q);
                } else {
                    assert(sorted@[j + 1] == q);
                }
            }
            if q == p {
                assert(sorted@[i as int] == q);
            }
        }
    }
}

} // verus!
