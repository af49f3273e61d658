//! Border types of tiles, used by border analyzers to derive adjacency rules.
//!
//! Each side of a tile type gets a border identifier. Observing two tiles next to each other unifies the borders
//! of their touching sides. Two tiles may then be placed next to each other in a direction if the side of the
//! first facing that direction has the same border as the opposite side of the second.
use vstd::prelude::*;

use super::{contains_id, AdjacencyTable};
use crate::id_map::IdMap;
use crate::map::{spec_opposite, GridDir};

verus! {

/// Border identifiers of the four sides of a tile.
#[derive(Clone, Copy, Debug)]
pub struct Borders {
    up: Option<u64>,
    down: Option<u64>,
    left: Option<u64>,
    right: Option<u64>,
}

impl Borders {
    pub closed spec fn at(&self, d: GridDir) -> Option<u64> {
        match d {
            GridDir::UP => self.up,
            GridDir::DOWN => self.down,
            GridDir::LEFT => self.left,
            GridDir::RIGHT => self.right,
        }
    }

    fn empty() -> (b: Self)
        ensures
            forall|d: GridDir| #[trigger] b.at(d) is None,
    {
        Borders { up: None, down: None, left: None, right: None }
    }

    fn get_at_dir(&self, d: GridDir) -> (r: Option<u64>)
        ensures
            r == self.at(d),
    {
        match d {
            GridDir::UP => self.up,
            GridDir::DOWN => self.down,
            GridDir::LEFT => self.left,
            GridDir::RIGHT => self.right,
        }
    }

    fn set_at_dir(&mut self, d: GridDir, border_id: u64)
        ensures
            forall|e: GridDir| #[trigger]
                final(self).at(e) == if e == d {
                    Some(border_id)
                } else {
                    old(self).at(e)
                },
    {
        match d {
            GridDir::UP => self.up = Some(border_id),
            GridDir::DOWN => self.down = Some(border_id),
            GridDir::LEFT => self.left = Some(border_id),
            GridDir::RIGHT => self.right = Some(border_id),
        }
    }
}

/// Borders of tile sides, unified as adjacent tiles are observed.
#[derive(Debug)]
pub struct BorderTable {
    /// Borders of each tile type.
    inner: IdMap<Borders>,
    /// Sides (tile type and direction) having each border.
    border_types: IdMap<Vec<(u64, GridDir)>>,
}

impl BorderTable {
    /// The table knows tile type `t`.
    pub closed spec fn has_tile(&self, t: u64) -> bool {
        self.inner@.contains_key(t)
    }

    /// Border of the side of tile type `t` facing `d`.
    pub closed spec fn border(&self, t: u64, d: GridDir) -> Option<u64> {
        if self.inner@.contains_key(t) {
            self.inner@[t].at(d)
        } else {
            None
        }
    }

    /// Sides listed under border `b`.
    closed spec fn listed(&self, b: u64) -> Seq<(u64, GridDir)> {
        if self.border_types@.contains_key(b) {
            self.border_types@[b]@
        } else {
            Seq::empty()
        }
    }

    /// The side, if it has a border, is listed under it.
    closed spec fn side_listed(&self, t: u64, d: GridDir) -> bool {
        self.border(t, d) is Some ==> self.listed(self.border(t, d)->0).contains((t, d))
    }

    /// Each side with a border is listed under it, and each listed side has that border.
    pub closed spec fn wf(&self) -> bool {
        &&& forall|t: u64, d: GridDir| #[trigger] self.side_listed(t, d)
        &&& forall|b: u64, t: u64, d: GridDir|
            #![trigger self.listed(b).contains((t, d))]
            self.listed(b).contains((t, d)) ==> self.has_tile(t) && self.border(t, d) == Some(b)
    }

    /// Side `d1` of `t1` has a border, which is the border of side `d2` of `t2`.
    pub open spec fn same_border(&self, t1: u64, d1: GridDir, t2: u64, d2: GridDir) -> bool {
        self.border(t1, d1) is Some && self.border(t1, d1) == self.border(t2, d2)
    }

    /// Sides with the same border in `old` have the same border in `self`, and known tiles stay known.
    pub open spec fn coarsens(&self, old: &Self) -> bool {
        &&& forall|t: u64| old.has_tile(t) ==> #[trigger] self.has_tile(t)
        &&& forall|t1: u64, d1: GridDir, t2: u64, d2: GridDir|
            #[trigger] old.same_border(t1, d1, t2, d2) ==> self.same_border(t1, d1, t2, d2)
    }

    /// Border of each side after recording in `pre` that `adjacent_id` lies in `direction` of `tile_id`: when
    /// neither touching side has a border both get a new one; when one has, the other gets it; when both have
    /// different borders, every side of the greater is given the smaller. No other side changes.
    pub open spec fn border_step(pre: Self, post: Self, tile_id: u64, adjacent_id: u64, direction: GridDir) -> bool {
        let opp = spec_opposite(direction);
        forall|t: u64, d: GridDir| #[trigger]
            post.border(t, d) == match (pre.border(tile_id, direction), pre.border(adjacent_id, opp)) {
                (None, None) => if (t == tile_id && d == direction) || (t == adjacent_id && d == opp) {
                    Some(pre.next_border_id())
                } else {
                    pre.border(t, d)
                },
                (None, Some(b)) => if t == tile_id && d == direction {
                    Some(b)
                } else {
                    pre.border(t, d)
                },
                (Some(b), None) => if t == adjacent_id && d == opp {
                    Some(b)
                } else {
                    pre.border(t, d)
                },
                (Some(l), Some(r)) => if l > r && pre.border(t, d) == Some(l) {
                    Some(r)
                } else if r > l && pre.border(t, d) == Some(r) {
                    Some(l)
                } else {
                    pre.border(t, d)
                },
            }
    }

    /// Table without tiles.
    pub fn new() -> (t: Self)
        ensures
            t.wf(),
            forall|tile: u64| !#[trigger] t.has_tile(tile),
            forall|tile: u64, d: GridDir| #[trigger] t.border(tile, d) is None,
    {
        Self { inner: IdMap::new(), border_types: IdMap::new() }
    }

    fn ensure_tile(&mut self, tile_id: u64)
        requires
            old(self).wf(),
        ensures
            final(self).wf(),
            final(self).has_tile(tile_id),
            forall|t: u64| #[trigger] final(self).has_tile(t) <==> old(self).has_tile(t) || t == tile_id,
            forall|t: u64, d: GridDir| #[trigger] final(self).border(t, d) == old(self).border(t, d),
            forall|b: u64| #[trigger] final(self).listed(b) == old(self).listed(b),
            final(self).border_types == old(self).border_types,
    {
        if !self.inner.contains_key(tile_id) {
            self.inner.insert(tile_id, Borders::empty());
            assert forall|t: u64, d: GridDir| #[trigger] self.border(t, d) == old(self).border(t, d) by {}
            assert forall|b: u64| #[trigger] self.listed(b) == old(self).listed(b) by {}
            assert forall|t: u64, d: GridDir| #[trigger] self.side_listed(t, d) by {
                assert(old(self).border(t, d) == self.border(t, d));
                assert(old(self).side_listed(t, d));
            }
            assert forall|b: u64, t: u64, d: GridDir|
                #![trigger self.listed(b).contains((t, d))]
                self.listed(b).contains((t, d)) implies self.has_tile(t) && self.border(t, d) == Some(b) by {
                assert(old(self).listed(b) == self.listed(b));
                assert(old(self).border(t, d) == self.border(t, d));
            }
        }
    }

    fn get_border_id(&self, tile_id: u64, direction: GridDir) -> (r: Option<u64>)
        ensures
            r == self.border(tile_id, direction),
    {
        match self.inner.get(tile_id) {
            Some(borders) => borders.get_at_dir(direction),
            None => None,
        }
    }

    /// Gives side `direction` of `tile_id` the border `border_id`, listing it there. The side must have no border,
    /// or one whose listing has been taken out of the table.
    fn set_border_id(&mut self, border_id: u64, tile_id: u64, direction: GridDir)
        requires
            old(self).has_tile(tile_id),
            forall|b: u64, t: u64, d: GridDir|
                #![trigger old(self).listed(b).contains((t, d))]
                old(self).listed(b).contains((t, d)) ==> old(self).has_tile(t) && old(self).border(t, d)
                    == Some(b),
            forall|b: u64| #[trigger] old(self).listed(b).contains((tile_id, direction)) ==> b == border_id,
        ensures
            (forall|t: u64, d: GridDir|
                #![trigger old(self).side_listed(t, d)]
                !(t == tile_id && d == direction) ==> old(self).side_listed(t, d)) ==> final(self).wf(),
            forall|t: u64, d: GridDir|
                #![trigger final(self).side_listed(t, d)]
                !(t == tile_id && d == direction) && old(self).side_listed(t, d) ==> final(self).side_listed(t, d),
            final(self).side_listed(tile_id, direction),
            forall|b: u64, t: u64, d: GridDir|
                #![trigger final(self).listed(b).contains((t, d))]
                final(self).listed(b).contains((t, d)) ==> final(self).has_tile(t) && final(self).border(t, d)
                    == Some(b),
            forall|b: u64| #[trigger]
                final(self).border_types@.contains_key(b) <==> old(self).border_types@.contains_key(b) || b
                    == border_id,
            forall|t: u64| #[trigger] final(self).has_tile(t) == old(self).has_tile(t),
            forall|t: u64, d: GridDir| #[trigger]
                final(self).border(t, d) == if t == tile_id && d == direction {
                    Some(border_id)
                } else {
                    old(self).border(t, d)
                },
            forall|b: u64| #[trigger]
                final(self).listed(b) == if b == border_id {
                    old(self).listed(b).push((tile_id, direction))
                } else {
                    old(self).listed(b)
                },
    {
        let mut borders = *self.inner.get(tile_id).unwrap();
        borders.set_at_dir(direction, border_id);
        self.inner.insert(tile_id, borders);
        let mut listed: Vec<(u64, GridDir)> = match self.border_types.remove(border_id) {
            Some(v) => v,
            None => Vec::new(),
        };
        listed.push((tile_id, direction));
        self.border_types.insert(border_id, listed);
        assert forall|t: u64, d: GridDir| #[trigger]
            self.border(t, d) == if t == tile_id && d == direction {
                Some(border_id)
            } else {
                old(self).border(t, d)
            } by {}
        assert forall|b: u64| #[trigger]
            self.listed(b) == if b == border_id {
                old(self).listed(b).push((tile_id, direction))
            } else {
                old(self).listed(b)
            } by {}
        assert forall|b: u64, t: u64, d: GridDir|
            #![trigger self.listed(b).contains((t, d))]
            self.listed(b).contains((t, d)) implies self.has_tile(t) && self.border(t, d) == Some(b) by {
            if b == border_id && !old(self).listed(b).contains((t, d)) {
                let k = self.listed(b).index_of((t, d));
                if k < old(self).listed(b).len() {
                    assert(old(self).listed(b)[k] == (t, d));
                }
                assert(k == old(self).listed(b).len());
            } else if b != border_id {
                assert(old(self).listed(b).contains((t, d)));
                if t == tile_id && d == direction {
                    assert(old(self).border(t, d) == Some(b));
                }
            } else {
                assert(old(self).border(t, d) == Some(b));
            }
        }
        assert(self.listed(border_id).last() == (tile_id, direction));
        assert(self.side_listed(tile_id, direction));
        assert forall|t: u64, d: GridDir|
            #![trigger self.side_listed(t, d)]
            !(t == tile_id && d == direction) && old(self).side_listed(t, d) implies self.side_listed(t, d) by {
            if self.border(t, d) is Some {
                let b = old(self).border(t, d)->0;
                let k = old(self).listed(b).index_of((t, d));
                if b == border_id {
                    assert(self.listed(b)[k] == (t, d));
                }
            }
        }
    }

    /// Identifier a new border gets: the one after the greatest in use (wrapping around), or `0`.
    pub closed spec fn next_border_id(&self) -> u64 {
        let ks = self.border_types.spec_keys();
        if ks.len() == 0 {
            0
        } else if ks.last() == u64::MAX {
            0
        } else {
            (ks.last() + 1) as u64
        }
    }

    /// Identifier following the greatest border identifier in use (wrapping around), or `0` if none is.
    fn get_next_border_id(&self) -> (id: u64)
        ensures
            id == self.next_border_id(),
    {
        let keys = self.border_types.keys();
        if keys.len() == 0 {
            0
        } else {
            keys[keys.len() - 1].wrapping_add(1)
        }
    }

    /// Gives all sides of border `existing` the border `into`, removing `existing`.
    fn unify_border_id(&mut self, existing: u64, into: u64)
        requires
            old(self).wf(),
            existing != into,
        ensures
            final(self).wf(),
            forall|t: u64| #[trigger] final(self).has_tile(t) == old(self).has_tile(t),
            forall|t: u64, d: GridDir| #[trigger]
                final(self).border(t, d) == if old(self).border(t, d) == Some(existing) {
                    Some(into)
                } else {
                    old(self).border(t, d)
                },
    {
        let cache = match self.border_types.remove(existing) {
            Some(v) => v,
            None => Vec::new(),
        };
        let ghost start = *old(self);
        proof {
            assert(cache@ == start.listed(existing));
            assert forall|b: u64| b != existing implies #[trigger] self.listed(b) == start.listed(b) by {}
            assert forall|t: u64, d: GridDir|
                self.border(t, d) != Some(existing) implies #[trigger] self.side_listed(t, d) by {
                assert(start.border(t, d) == self.border(t, d));
                assert(start.side_listed(t, d));
            }
            assert forall|b: u64, t: u64, d: GridDir|
                #![trigger self.listed(b).contains((t, d))]
                self.listed(b).contains((t, d)) implies self.has_tile(t) && self.border(t, d) == Some(b) by {
                assert(start.listed(b) == self.listed(b));
                assert(start.border(t, d) == self.border(t, d));
            }
            assert(cache@.take(0) =~= Seq::<(u64, GridDir)>::empty());
        }
        let mut k: usize = 0;
        while k < cache.len()
            invariant
                k <= cache@.len(),
                existing != into,
                cache@ == start.listed(existing),
                start.wf(),
                !self.border_types@.contains_key(existing),
                forall|t: u64| #[trigger] self.has_tile(t) == start.has_tile(t),
                forall|t: u64, d: GridDir| #[trigger]
                    self.border(t, d) == if start.border(t, d) == Some(existing) && cache@.take(
                        k as int,
                    ).contains((t, d)) {
                        Some(into)
                    } else {
                        start.border(t, d)
                    },
                forall|t: u64, d: GridDir|
                    self.border(t, d) != Some(existing) ==> #[trigger] self.side_listed(t, d),
                forall|b: u64, t: u64, d: GridDir|
                    #![trigger self.listed(b).contains((t, d))]
                    self.listed(b).contains((t, d)) ==> self.has_tile(t) && self.border(t, d) == Some(b),
            decreases cache@.len() - k,
        {
            let (tile_id, direction) = cache[k];
            proof {
                assert(cache@[k as int] == (tile_id, direction));
                assert(start.listed(existing).contains((tile_id, direction)));
                assert(start.border(tile_id, direction) == Some(existing));
                assert forall|b: u64| #[trigger] self.listed(b).contains((tile_id, direction)) implies b == into by {
                    assert(self.border(tile_id, direction) == Some(b));
                    if b == existing {
                        assert(self.listed(b) == Seq::<(u64, GridDir)>::empty());
                    }
                }
            }
            let ghost prev = *self;
            self.set_border_id(into, tile_id, direction);
            k = k + 1;
            proof {
                assert(cache@.take(k as int) =~= cache@.take(k - 1).push((tile_id, direction)));
                assert forall|t: u64, d: GridDir| #[trigger]
                    self.border(t, d) == if start.border(t, d) == Some(existing) && cache@.take(
                        k as int,
                    ).contains((t, d)) {
                        Some(into)
                    } else {
                        start.border(t, d)
                    } by {
                    if !(t == tile_id && d == direction) {
                        assert(cache@.take(k as int).contains((t, d)) <==> cache@.take(k - 1).contains(
                            (t, d),
                        ));
                    } else {
                        assert(cache@.take(k as int)[k - 1] == (t, d));
                    }
                }
                assert forall|t: u64, d: GridDir|
                    self.border(t, d) != Some(existing) implies #[trigger] self.side_listed(t, d) by {
                    if !(t == tile_id && d == direction) {
                        assert(prev.border(t, d) == self.border(t, d));
                        assert(prev.side_listed(t, d));
                    }
                }
            }
        }
        proof {
            assert(cache@.take(k as int) =~= cache@);
            assert forall|t: u64, d: GridDir| #[trigger]
                self.border(t, d) == if start.border(t, d) == Some(existing) {
                    Some(into)
                } else {
                    start.border(t, d)
                } by {
                if start.border(t, d) == Some(existing) {
                    assert(start.side_listed(t, d));
                    assert(start.listed(existing).contains((t, d)));
                }
            }
            assert forall|t: u64, d: GridDir| #[trigger] self.side_listed(t, d) by {
                assert(self.border(t, d) != Some(existing));
            }
        }
    }

    /// Records that side `direction` of `tile_id` touches the opposite side of `adjacent_id`: both sides get the
    /// same border, unifying the borders they had.
    pub fn add_adjacency_raw(&mut self, tile_id: u64, adjacent_id: u64, direction: GridDir)
        requires
            old(self).wf(),
        ensures
            final(self).wf(),
            final(self).coarsens(old(self)),
            final(self).has_tile(tile_id),
            final(self).has_tile(adjacent_id),
            forall|t: u64| #[trigger]
                final(self).has_tile(t) <==> old(self).has_tile(t) || t == tile_id || t == adjacent_id,
            final(self).same_border(tile_id, direction, adjacent_id, spec_opposite(direction)),
            Self::border_step(*old(self), *final(self), tile_id, adjacent_id, direction),
    {
        self.ensure_tile(tile_id);
        self.ensure_tile(adjacent_id);
        let opposite = direction.opposite();
        let ghost mid = *self;
        match (self.get_border_id(tile_id, direction), self.get_border_id(adjacent_id, opposite)) {
            (None, None) => {
                let new_id = self.get_next_border_id();
                self.set_border_id(new_id, tile_id, direction);
                self.set_border_id(new_id, adjacent_id, opposite);
            },
            (None, Some(id_border)) => {
                self.set_border_id(id_border, tile_id, direction);
            },
            (Some(id_border), None) => {
                self.set_border_id(id_border, adjacent_id, opposite);
            },
            (Some(id_left), Some(id_right)) => {
                if id_left != id_right {
                    if id_left > id_right {
                        self.unify_border_id(id_left, id_right);
                    } else {
                        self.unify_border_id(id_right, id_left);
                    }
                }
            },
        }
        assert forall|t1: u64, d1: GridDir, t2: u64, d2: GridDir|
            #[trigger] old(self).same_border(t1, d1, t2, d2) implies self.same_border(t1, d1, t2, d2) by {
            assert(mid.same_border(t1, d1, t2, d2));
        }
    }

    /// Allows in `rules` every tile next to every other in a direction where the touching sides have the same
    /// border.
    pub fn generate_adjacency_rules(&self, rules: &mut AdjacencyTable)
        requires
            self.wf(),
        ensures
            forall|a: u64, d: GridDir, c: u64| #[trigger]
                final(rules).allows(a, d, c) <==> old(rules).allows(a, d, c) || self.same_border(
                    a,
                    d,
                    c,
                    spec_opposite(d),
                ),
            forall|e: u64| #[trigger]
                final(rules).has_element(e) ==> old(rules).has_element(e) || exists|d: GridDir, c: u64|
                    #[trigger] self.same_border(e, d, c, spec_opposite(d)),
            forall|e: u64| old(rules).has_element(e) ==> #[trigger] final(rules).has_element(e),
    {
        let border_ids = self.border_types.keys();
        let ghost start = *old(rules);
        let mut i: usize = 0;
        while i < border_ids.len()
            invariant
                i <= border_ids@.len(),
                border_ids@ == self.border_types.spec_keys(),
                self.border_types.consistent(),
                self.wf(),
                forall|a: u64, d: GridDir, c: u64| #[trigger]
                    rules.allows(a, d, c) <==> start.allows(a, d, c) || exists|j: int|
                        0 <= j < i && #[trigger] pair_listed(
                            self.listed(border_ids@[j]),
                            a,
                            d,
                            c,
                        ),
                forall|e: u64| #[trigger]
                    rules.has_element(e) ==> start.has_element(e) || exists|d: GridDir, c: u64|
                        #[trigger] rules.allows(e, d, c),
                forall|e: u64| start.has_element(e) ==> #[trigger] rules.has_element(e),
            decreases border_ids@.len() - i,
        {
            let border_id = border_ids[i];
            proof {
                assert(self.border_types.spec_keys().contains(border_id));
            }
            let listed = self.border_types.get(border_id).unwrap();
            proof {
                assert(listed@ == self.listed(border_id));
            }
            let ghost before = *rules;
            add_border_pairs(rules, listed.as_slice());
            i = i + 1;
            proof {
                assert forall|e: u64| #[trigger]
                    rules.has_element(e) implies start.has_element(e) || exists|d: GridDir, c: u64|
                        #[trigger] rules.allows(e, d, c) by {
                    if !before.has_element(e) {
                    } else if !start.has_element(e) {
                        let (d, c) = choose|d: GridDir, c: u64| #[trigger] before.allows(e, d, c);
                        assert(rules.allows(e, d, c));
                    }
                }
                assert forall|a: u64, d: GridDir, c: u64| #[trigger]
                    rules.allows(a, d, c) <==> start.allows(a, d, c) || exists|j: int|
                        0 <= j < i && #[trigger] pair_listed(
                            self.listed(border_ids@[j]),
                            a,
                            d,
                            c,
                        ) by {
                    if pair_listed(self.listed(border_ids@[i - 1]), a, d, c) {
                        assert(0 <= i - 1 < i);
                    }
                }
            }
        }
        proof {
            assert forall|a: u64, d: GridDir, c: u64| #[trigger]
                rules.allows(a, d, c) <==> start.allows(a, d, c) || self.same_border(
                    a,
                    d,
                    c,
                    spec_opposite(d),
                ) by {
                if self.same_border(a, d, c, spec_opposite(d)) {
                    let b = self.border(a, d)->0;
                    assert(self.side_listed(a, d));
                    assert(self.side_listed(c, spec_opposite(d)));
                    assert(self.listed(b).contains((a, d)));
                    assert(self.listed(b).contains((c, spec_opposite(d))));
                    assert(self.border_types@.contains_key(b));
                    assert(self.border_types.spec_keys().contains(b));
                    let j = border_ids@.index_of(b);
                    assert(pair_listed(self.listed(border_ids@[j]), a, d, c));
                }
                if exists|j: int|
                    0 <= j < i && #[trigger] pair_listed(self.listed(border_ids@[j]), a, d, c) {
                    let j = choose|j: int|
                        0 <= j < i && #[trigger] pair_listed(self.listed(border_ids@[j]), a, d, c);
                    let b = border_ids@[j];
                    assert(self.listed(b).contains((a, d)));
                    assert(self.listed(b).contains((c, spec_opposite(d))));
                }
            }
            assert forall|e: u64| #[trigger]
                rules.has_element(e) implies start.has_element(e) || exists|d: GridDir, c: u64|
                    #[trigger] self.same_border(e, d, c, spec_opposite(d)) by {
                if !start.has_element(e) {
                    let (d, c) = choose|d: GridDir, c: u64| #[trigger] rules.allows(e, d, c);
                    if !start.allows(e, d, c) {
                        assert(self.same_border(e, d, c, spec_opposite(d)));
                    } else {
                        assert(start.has_element(e));
                    }
                }
            }
        }
    }
}

/// Sides `(a, d)` and `(c, opposite of d)` are both listed.
pub open spec fn pair_listed(listed: Seq<(u64, GridDir)>, a: u64, d: GridDir, c: u64) -> bool {
    listed.contains((a, d)) && listed.contains((c, spec_opposite(d)))
}

/// Tile types of the sides listed in direction `d`.
fn tiles_at_dir(listed: &[(u64, GridDir)], d: GridDir) -> (out: Vec<u64>)
    ensures
        forall|t: u64| #[trigger] out@.contains(t) <==> listed@.contains((t, d)),
{
    let mut out: Vec<u64> = Vec::new();
    let mut k: usize = 0;
    while k < listed.len()
        invariant
            k <= listed@.len(),
            forall|t: u64| #[trigger] out@.contains(t) <==> listed@.take(k as int).contains((t, d)),
        decreases listed@.len() - k,
    {
        let (t, dir) = listed[k];
        let ghost before = out@;
        if dir == d {
            out.push(t);
        }
        k = k + 1;
        proof {
            assert(listed@.take(k as int) =~= listed@.take(k - 1).push((t, dir)));
            assert forall|x: u64| #[trigger] out@.contains(x) <==> listed@.take(k as int).contains((x, d)) by {
                if dir == d && x == t {
                    assert(out@[out@.len() - 1] == x);
                    assert(listed@.take(k as int)[k - 1] == (x, d));
                } else {
                    if out@.contains(x) {
                        let j = out@.index_of(x);
                        assert(before[j] == x);
                    }
                    if listed@.take(k as int).contains((x, d)) {
                        let j = listed@.take(k as int).index_of((x, d));
                        assert(listed@.take(k - 1)[j] == (x, d));
                    }
                    if before.contains(x) {
                        let j = before.index_of(x);
                        assert(out@[j] == x);
                    }
                }
            }
        }
    }
    assert(listed@.take(k as int) =~= listed@);
    out
}

/// Allows every tile of `firsts` next to every tile of `seconds` in direction `half`, and the reverse.
fn add_pairs(rules: &mut AdjacencyTable, firsts: &[u64], seconds: &[u64], half: GridDir)
    ensures
        forall|a: u64, d: GridDir, c: u64| #[trigger]
            final(rules).allows(a, d, c) <==> old(rules).allows(a, d, c) || (d == half && firsts@.contains(a)
                && seconds@.contains(c)) || (d == spec_opposite(half) && seconds@.contains(a)
                && firsts@.contains(c)),
        forall|e: u64| #[trigger]
            final(rules).has_element(e) ==> old(rules).has_element(e) || exists|d: GridDir, c: u64|
                #[trigger] final(rules).allows(e, d, c),
        forall|e: u64| old(rules).has_element(e) ==> #[trigger] final(rules).has_element(e),
{
    let opposite = half.opposite();
    let ghost start = *old(rules);
    let mut i: usize = 0;
    while i < firsts.len()
        invariant
            i <= firsts@.len(),
            opposite == spec_opposite(half),
            forall|a: u64, d: GridDir, c: u64| #[trigger]
                rules.allows(a, d, c) <==> start.allows(a, d, c) || (d == half && firsts@.take(i as int).contains(
                    a,
                ) && seconds@.contains(c)) || (d == opposite && seconds@.contains(a) && firsts@.take(
                    i as int,
                ).contains(c)),
            forall|e: u64| #[trigger]
                rules.has_element(e) ==> start.has_element(e) || exists|d: GridDir, c: u64|
                    #[trigger] rules.allows(e, d, c),
            forall|e: u64| start.has_element(e) ==> #[trigger] rules.has_element(e),
        decreases firsts@.len() - i,
    {
        let first = firsts[i];
        let ghost outer = *rules;
        let mut j: usize = 0;
        while j < seconds.len()
            invariant
                j <= seconds@.len(),
                opposite == spec_opposite(half),
                first == firsts@[i as int],
                i < firsts@.len(),
                forall|a: u64, d: GridDir, c: u64| #[trigger]
                    rules.allows(a, d, c) <==> outer.allows(a, d, c) || (d == half && a == first
                        && seconds@.take(j as int).contains(c)) || (d == opposite && seconds@.take(
                        j as int,
                    ).contains(a) && c == first),
                forall|e: u64| #[trigger]
                    rules.has_element(e) ==> outer.has_element(e) || exists|d: GridDir, c: u64|
                        #[trigger] rules.allows(e, d, c),
                forall|e: u64| outer.has_element(e) ==> #[trigger] rules.has_element(e),
            decreases seconds@.len() - j,
        {
            let second = seconds[j];
            let ghost before = *rules;
            rules.insert_adjacency(first, half, second);
            rules.insert_adjacency(second, opposite, first);
            j = j + 1;
            proof {
                assert(seconds@.take(j as int) =~= seconds@.take(j - 1).push(second));
                assert forall|x: u64| #[trigger] seconds@.take(j as int).contains(x) <==> seconds@.take(j - 1).contains(x) || x == second by {
                    if seconds@.take(j as int).contains(x) && x != second {
                        let q = seconds@.take(j as int).index_of(x);
                        assert(seconds@.take(j - 1)[q] == x);
                    }
                    if seconds@.take(j - 1).contains(x) {
                        let q = seconds@.take(j - 1).index_of(x);
                        assert(seconds@.take(j as int)[q] == x);
                    }
                    if x == second {
                        assert(seconds@.take(j as int)[j - 1] == x);
                    }
                }
                assert(rules.allows(first, half, second));
                assert(rules.allows(second, opposite, first));
                assert forall|e: u64| #[trigger]
                    rules.has_element(e) implies outer.has_element(e) || exists|d: GridDir, c: u64|
                        #[trigger] rules.allows(e, d, c) by {
                    if e == first {
                        assert(rules.allows(first, half, second));
                    } else if e == second {
                        assert(rules.allows(second, opposite, first));
                    } else if !outer.has_element(e) {
                        assert(before.has_element(e));
                        let (d, c) = choose|d: GridDir, c: u64| #[trigger] before.allows(e, d, c);
                        assert(rules.allows(e, d, c));
                    }
                }
            }
        }
        i = i + 1;
        proof {
            assert(seconds@.take(j as int) =~= seconds@);
            assert(firsts@.take(i as int) =~= firsts@.take(i - 1).push(first));
            assert forall|x: u64| #[trigger] firsts@.take(i as int).contains(x) <==> firsts@.take(i - 1).contains(x) || x == first by {
                if firsts@.take(i as int).contains(x) && x != first {
                    let q = firsts@.take(i as int).index_of(x);
                    assert(firsts@.take(i - 1)[q] == x);
                }
                if firsts@.take(i - 1).contains(x) {
                    let q = firsts@.take(i - 1).index_of(x);
                    assert(firsts@.take(i as int)[q] == x);
                }
                if x == first {
                    assert(firsts@.take(i as int)[i - 1] == x);
                }
            }
            assert forall|e: u64| #[trigger]
                rules.has_element(e) implies start.has_element(e) || exists|d: GridDir, c: u64|
                    #[trigger] rules.allows(e, d, c) by {
                if !outer.has_element(e) {
                } else if !start.has_element(e) {
                    let (d, c) = choose|d: GridDir, c: u64| #[trigger] outer.allows(e, d, c);
                    assert(rules.allows(e, d, c));
                }
            }
        }
    }
    assert(firsts@.take(i as int) =~= firsts@);
}

/// Allows in `rules` the pairs of tiles with sides listed under one border facing each other.
pub(crate) fn add_border_pairs(rules: &mut AdjacencyTable, listed: &[(u64, GridDir)])
    ensures
        forall|a: u64, d: GridDir, c: u64| #[trigger]
            final(rules).allows(a, d, c) <==> old(rules).allows(a, d, c) || pair_listed(listed@, a, d, c),
        forall|e: u64| #[trigger]
            final(rules).has_element(e) ==> old(rules).has_element(e) || exists|d: GridDir, c: u64|
                #[trigger] final(rules).allows(e, d, c),
        forall|e: u64| old(rules).has_element(e) ==> #[trigger] final(rules).has_element(e),
{
    let ghost start = *old(rules);
    let left_firsts = tiles_at_dir(listed, GridDir::LEFT);
    let left_seconds = tiles_at_dir(listed, GridDir::RIGHT);
    add_pairs(rules, left_firsts.as_slice(), left_seconds.as_slice(), GridDir::LEFT);
    let ghost mid = *rules;
    let up_firsts = tiles_at_dir(listed, GridDir::UP);
    let up_seconds = tiles_at_dir(listed, GridDir::DOWN);
    add_pairs(rules, up_firsts.as_slice(), up_seconds.as_slice(), GridDir::UP);
    assert forall|e: u64| #[trigger]
        rules.has_element(e) implies start.has_element(e) || exists|d: GridDir, c: u64|
            #[trigger] rules.allows(e, d, c) by {
        if !mid.has_element(e) {
        } else if !start.has_element(e) {
            let (d, c) = choose|d: GridDir, c: u64| #[trigger] mid.allows(e, d, c);
            assert(rules.allows(e, d, c));
        }
    }
}

} // verus!
