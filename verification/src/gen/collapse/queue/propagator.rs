//! Pending removals of options to propagate through a grid: a stack of items, and removals retained per position
//! until that position is handled.
use vstd::prelude::*;

use crate::gen::collapse::resolver::{
    arc_ok, collapsed_at, grid_consistent, narrowed, open_options_kept, options_at, pending_at, removals_justified,
    same_collapse,
};
use crate::gen::collapse::singular::CollapsibleTileGrid;
use crate::map::{tile_at, GridDir};
use crate::tile::identifiable::IdentifiableTileData;
use crate::tile::GridPosition;

verus! {

/// Removal of option `to_remove` at `position`, to be propagated to its neighbours.
#[derive(Debug, Clone, Copy)]
pub struct PropagateItem {
    position: GridPosition,
    to_remove: usize,
}

impl PropagateItem {
    pub closed spec fn spec_position(&self) -> GridPosition {
        self.position
    }

    pub closed spec fn spec_to_remove(&self) -> usize {
        self.to_remove
    }

    pub fn new(position: GridPosition, to_remove: usize) -> (item: Self)
        ensures
            item.spec_position() == position,
            item.spec_to_remove() == to_remove,
    {
        Self { position, to_remove }
    }

    pub fn position(&self) -> (p: &GridPosition)
        ensures
            *p == self.spec_position(),
    {
        &self.position
    }

    pub fn to_remove(&self) -> (r: usize)
        ensures
            r == self.spec_to_remove(),
    {
        self.to_remove
    }
}

/// Position of the entry holding `p` among `entries`, if there is one.
pub open spec fn entry_index(entries: Seq<(GridPosition, Vec<usize>)>, p: GridPosition) -> Option<int> {
    if exists|i: int| 0 <= i < entries.len() && (#[trigger] entries[i]).0 == p {
        Some(choose|i: int| 0 <= i < entries.len() && (#[trigger] entries[i]).0 == p)
    } else {
        None
    }
}

/// Removals waiting to be propagated: a stack of items, and the removals retained for some positions.
#[derive(Debug)]
pub struct Propagator {
    inner: Vec<PropagateItem>,
    reserved_removal: Vec<(GridPosition, Vec<usize>)>,
}

impl Propagator {
    /// Items waiting, the last one on top.
    pub closed spec fn pending(&self) -> Seq<PropagateItem> {
        self.inner@
    }

    /// Removals retained for `p`, if any entry is kept for it (the last one is handed out first).
    pub closed spec fn retained(&self, p: GridPosition) -> Option<Seq<usize>> {
        match entry_index(self.reserved_removal@, p) {
            Some(i) => Some(self.reserved_removal@[i].1@),
            None => None,
        }
    }

    /// At most one entry is kept per position.
    pub closed spec fn wf(&self) -> bool {
        forall|i: int, j: int|
            0 <= i < j < self.reserved_removal@.len() ==> (#[trigger] self.reserved_removal@[i]).0 != (
            #[trigger] self.reserved_removal@[j]).0
    }

    /// Propagator with nothing waiting.
    pub fn new() -> (p: Self)
        ensures
            p.wf(),
            p.pending() == Seq::<PropagateItem>::empty(),
            forall|q: GridPosition| #[trigger] p.retained(q) is None,
    {
        Self { inner: Vec::new(), reserved_removal: Vec::new() }
    }

    /// No item is waiting.
    pub fn is_empty(&self) -> (r: bool)
        ensures
            r == (self.pending().len() == 0),
    {
        self.inner.len() == 0
    }

    /// Puts `item` on top of the waiting items.
    pub fn push_propagate(&mut self, item: PropagateItem)
        ensures
            final(self).wf() == old(self).wf(),
            final(self).pending() == old(self).pending().push(item),
            forall|q: GridPosition| #[trigger] final(self).retained(q) == old(self).retained(q),
    {
        self.inner.push(item);
    }

    fn find_entry(&self, position: &GridPosition) -> (r: Option<usize>)
        requires
            self.wf(),
        ensures
            r matches Some(i) ==> entry_index(self.reserved_removal@, *position) == Some(i as int),
            r is None ==> entry_index(self.reserved_removal@, *position) is None,
    {
        let mut i: usize = 0;
        while i < self.reserved_removal.len()
            invariant
                i <= self.reserved_removal@.len(),
                self.wf(),
                forall|j: int| 0 <= j < i ==> (#[trigger] self.reserved_removal@[j]).0 != *position,
            decreases self.reserved_removal@.len() - i,
        {
            if self.reserved_removal[i].0 == *position {
                proof {
                    assert(self.reserved_removal@[i as int].0 == *position);
                    let c = choose|c: int| 0 <= c < self.reserved_removal@.len() && (#[trigger] self.reserved_removal@[c]).0
                        == *position;
                    if c != i {
                        if c < i {
                            assert(self.reserved_removal@[c].0 != *position);
                        } else {
                            assert(self.reserved_removal@[i as int].0 != self.reserved_removal@[c].0);
                        }
                    }
                }
                return Some(i);
            }
            i = i + 1;
        }
        None
    }

    /// Retains the removal of `option_to_remove` for `position`, on top of those retained for it.
    pub fn retain_removal(&mut self, position: GridPosition, option_to_remove: usize)
        requires
            old(self).wf(),
        ensures
            final(self).wf(),
            final(self).pending() == old(self).pending(),
            forall|q: GridPosition| #[trigger]
                final(self).retained(q) == if q == position {
                    Some(
                        match old(self).retained(position) {
                            Some(s) => s,
                            None => Seq::<usize>::empty(),
                        }.push(option_to_remove),
                    )
                } else {
                    old(self).retained(q)
                },
    {
        let ghost before = self.reserved_removal@;
        match self.find_entry(&position) {
            Some(i) => {
                let mut entry = self.reserved_removal.remove(i);
                entry.1.push(option_to_remove);
                self.reserved_removal.insert(i, entry);
                proof {
                    assert forall|a: int| 0 <= a < before.len() implies (#[trigger] self.reserved_removal@[a]).0
                        == before[a].0 by {}
                    assert forall|q: GridPosition| #[trigger] entry_index(self.reserved_removal@, q) == entry_index(before, q) by {
                        if exists|c: int| 0 <= c < before.len() && (#[trigger] before[c]).0 == q {
                            let c = choose|c: int| 0 <= c < before.len() && (#[trigger] before[c]).0 == q;
                            assert(self.reserved_removal@[c].0 == q);
                        }
                        if exists|c: int| 0 <= c < self.reserved_removal@.len() && (#[trigger] self.reserved_removal@[c]).0 == q {
                            let c = choose|c: int| 0 <= c < self.reserved_removal@.len() && (#[trigger] self.reserved_removal@[c]).0
                                == q;
                            assert(before[c].0 == q);
                        }
                    }
                }
            },
            None => {
                let mut list: Vec<usize> = Vec::new();
                list.push(option_to_remove);
                self.reserved_removal.push((position, list));
                proof {
                    assert forall|q: GridPosition| #[trigger]
                        entry_index(self.reserved_removal@, q) == if q == position {
                            Some(before.len() as int)
                        } else {
                            entry_index(before, q)
                        } by {
                        if q == position {
                            assert(self.reserved_removal@[before.len() as int].0 == q);
                            let c = choose|c: int| 0 <= c < self.reserved_removal@.len() && (#[trigger] self.reserved_removal@[c]).0
                                == q;
                            if c < before.len() {
                                assert(before[c].0 == q);
                            }
                        } else {
                            if exists|c: int| 0 <= c < before.len() && (#[trigger] before[c]).0 == q {
                                let c = choose|c: int| 0 <= c < before.len() && (#[trigger] before[c]).0 == q;
                                assert(self.reserved_removal@[c].0 == q);
                            }
                            if exists|c: int| 0 <= c < self.reserved_removal@.len() && (#[trigger] self.reserved_removal@[c]).0 == q {
                                let c = choose|c: int| 0 <= c < self.reserved_removal@.len() && (#[trigger] self.reserved_removal@[c]).0
                                    == q;
                                assert(before[c].0 == q);
                            }
                        }
                    }
                    assert forall|a: int, b: int| 0 <= a < b < self.reserved_removal@.len() implies (
                    #[trigger] self.reserved_removal@[a]).0 != (#[trigger] self.reserved_removal@[b]).0 by {
                        if b == before.len() {
                            assert(before[a].0 != position);
                        }
                    }
                }
            },
        }
    }

    /// Hands out the removal retained last for `position`, if any is left. An entry without removals left is
    /// dropped, and nothing is handed out.
    pub fn get_from_retained(&mut self, position: &GridPosition) -> (r: Option<usize>)
        requires
            old(self).wf(),
        ensures
            final(self).wf(),
            final(self).pending() == old(self).pending(),
            match old(self).retained(*position) {
                None => r is None && forall|q: GridPosition| #[trigger] final(self).retained(q) == old(self).retained(q),
                Some(s) => if s.len() == 0 {
                    r is None && forall|q: GridPosition| #[trigger]
                        final(self).retained(q) == if q == *position {
                            None
                        } else {
                            old(self).retained(q)
                        }
                } else {
                    r == Some(s.last()) && forall|q: GridPosition| #[trigger]
                        final(self).retained(q) == if q == *position {
                            Some(s.drop_last())
                        } else {
                            old(self).retained(q)
                        }
                },
            },
    {
        let ghost before = self.reserved_removal@;
        match self.find_entry(position) {
            None => None,
            Some(i) => {
                let mut entry = self.reserved_removal.remove(i);
                let ghost removed = self.reserved_removal@;
                match entry.1.pop() {
                    Some(option) => {
                        self.reserved_removal.insert(i, entry);
                        proof {
                            assert forall|a: int| 0 <= a < before.len() implies (#[trigger] self.reserved_removal@[a]).0
                                == before[a].0 by {}
                            assert forall|q: GridPosition| #[trigger] entry_index(self.reserved_removal@, q) == entry_index(
                                before,
                                q,
                            ) by {
                                if exists|c: int| 0 <= c < before.len() && (#[trigger] before[c]).0 == q {
                                    let c = choose|c: int| 0 <= c < before.len() && (#[trigger] before[c]).0 == q;
                                    assert(self.reserved_removal@[c].0 == q);
                                }
                                if exists|c: int| 0 <= c < self.reserved_removal@.len() && (#[trigger] self.reserved_removal@[c]).0
                                    == q {
                                    let c = choose|c: int| 0 <= c < self.reserved_removal@.len() && (
                                    #[trigger] self.reserved_removal@[c]).0 == q;
                                    assert(before[c].0 == q);
                                }
                            }
                        }
                        Some(option)
                    },
                    None => {
                        proof {
                            assert forall|q: GridPosition| #[trigger]
                                self.retained(q) == if q == *position {
                                    None
                                } else {
                                    old(self).retained(q)
                                } by {
                                if q == *position {
                                    if exists|c: int| 0 <= c < removed.len() && (#[trigger] removed[c]).0 == q {
                                        let c = choose|c: int| 0 <= c < removed.len() && (#[trigger] removed[c]).0 == q;
                                        if c < i {
                                            assert(before[c].0 == q);
                                        } else {
                                            assert(before[c + 1].0 == q);
                                        }
                                    }
                                } else {
                                    if exists|c: int| 0 <= c < before.len() && (#[trigger] before[c]).0 == q {
                                        let c = choose|c: int| 0 <= c < before.len() && (#[trigger] before[c]).0 == q;
                                        if c < i {
                                            assert(removed[c].0 == q);
                                        } else {
                                            assert(c != i);
                                            assert(removed[c - 1].0 == q);
                                        }
                                        let d = choose|d: int| 0 <= d < removed.len() && (#[trigger] removed[d]).0 == q;
                                        let e = choose|e: int| 0 <= e < before.len() && (#[trigger] before[e]).0 == q;
                                        if d < i {
                                            assert(before[d].0 == q);
                                            assert(removed[d] == before[d]);
                                        } else {
                                            assert(before[d + 1].0 == q);
                                            assert(removed[d] == before[d + 1]);
                                        }
                                    }
                                    if exists|c: int| 0 <= c < removed.len() && (#[trigger] removed[c]).0 == q {
                                        let c = choose|c: int| 0 <= c < removed.len() && (#[trigger] removed[c]).0 == q;
                                        if c < i {
                                            assert(before[c].0 == q);
                                        } else {
                                            assert(before[c + 1].0 == q);
                                        }
                                    }
                                }
                            }
                            assert forall|a: int, b: int| 0 <= a < b < removed.len() implies (#[trigger] removed[a]).0
                                != (#[trigger] removed[b]).0 by {
                                let a1 = if a < i { a } else { a + 1 };
                                let b1 = if b < i { b } else { b + 1 };
                                assert(removed[a] == before[a1]);
                                assert(removed[b] == before[b1]);
                            }
                        }
                        None
                    },
                }
            },
        }
    }

    /// Next removal to propagate: one retained for `collapsed_pos` (if given and any is left), or else the item
    /// on top of the waiting ones.
    pub fn pop_to_resolve(&mut self, collapsed_pos: Option<&GridPosition>) -> (r: Option<(GridPosition, usize)>)
        requires
            old(self).wf(),
        ensures
            final(self).wf(),
            ({
                let from_retained = match collapsed_pos {
                    Some(p) => match old(self).retained(*p) {
                        Some(s) => s.len() > 0,
                        None => false,
                    },
                    None => false,
                };
                if from_retained {
                    let p = *collapsed_pos->0;
                    &&& r == Some((p, old(self).retained(p)->0.last()))
                    &&& final(self).pending() == old(self).pending()
                } else if old(self).pending().len() > 0 {
                    &&& r == Some((old(self).pending().last().spec_position(), old(self).pending().last().spec_to_remove()))
                    &&& final(self).pending() == old(self).pending().drop_last()
                } else {
                    &&& r is None
                    &&& final(self).pending() == old(self).pending()
                }
            }),
    {
        if let Some(pos) = collapsed_pos {
            if let Some(option) = self.get_from_retained(pos) {
                return Some((*pos, option));
            }
        }
        match self.inner.pop() {
            Some(item) => Some((item.position, item.to_remove)),
            None => None,
        }
    }
}

impl Propagator {
    /// Propagates the waiting removals through `grid`: takes the waiting items one by one (the last first), and
    /// removes from the uncollapsed neighbours of the position of each the options that no option of that tile
    /// allows next to them (or, for a collapsed tile, that its type does not allow), putting an item on top for
    /// each neighbour that lost options. The error holds the position of a tile left without options.
    ///
    /// Whatever the outcome, options were only removed, and each option removed is not allowed by some neighbour of
    /// its tile (see [`removals_justified`]); so a tile named by the error lost all its options that way. On
    /// success nothing is left waiting, and at each position that was waiting every uncollapsed neighbour keeps
    /// only options allowed by that tile (see [`arc_ok`]). Propagating through a consistent grid (see
    /// [`grid_consistent`]) succeeds and takes no option from an uncollapsed tile.
    pub fn propagate<Data: IdentifiableTileData>(&mut self, grid: &mut CollapsibleTileGrid<Data>) -> (r: Result<(), GridPosition>)
        requires
            old(self).wf(),
            old(grid).wf(),
        ensures
            final(self).wf(),
            final(grid).wf(),
            final(grid).weights() == old(grid).weights(),
            final(grid).rules() == old(grid).rules(),
            final(grid).grid().spec_size() == old(grid).grid().spec_size(),
            same_collapse(final(grid).grid(), old(grid).grid()),
            narrowed(old(grid).grid(), final(grid).grid()),
            removals_justified(old(grid).grid(), final(grid).grid(), old(grid).rules()),
            r is Ok ==> final(self).pending().len() == 0,
            r is Ok ==> forall|p: GridPosition, d: GridDir|
                pending_at(old(self).pending(), p) && tile_at(old(grid).grid(), p) is Some ==> #[trigger] arc_ok(
                    final(grid).grid(),
                    old(grid).rules(),
                    p,
                    d,
                ),
            r matches Err(q) ==> tile_at(final(grid).grid(), q) is Some && collapsed_at(final(grid).grid(), q) is None
                && options_at(final(grid).grid(), q).dom().len() == 0,
            grid_consistent(old(grid).grid(), old(grid).rules()) ==> r is Ok && open_options_kept(old(grid).grid(), final(grid).grid()),
    {
        grid.propagate_pending(self)
    }
}

} // verus!
