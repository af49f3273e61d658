//! # Collapsible procedural generation
//!
//! Algorithms contained within this module work on a collection of tiles whose final identity is unknown in the
//! beginning: every position can be any tile. In the process of generating a new grid, the algorithm *collapses*
//! the possible options of a position, choosing one of them at random. A collapsed tile puts constraints on the
//! remaining tiles, reducing their possible options. The process continues until all tiles are collapsed into one
//! option each.
//!
//! - *adjacency rules* determine the possible neighbours of each tile,
//! - *frequency hints* are weights per option, influencing how often options occur in the generated grid,
//! - *analyzers* derive rules and hints from sample grid maps,
//! - *resolvers* collapse the tiles,
//! - *queues* decide the order in which tiles are collapsed.
use vstd::prelude::*;

use crate::id_map::IdMap;
use crate::map::{dir_index, GridDir};

pub mod border;
pub mod error;
pub mod grid;
pub mod overlap;
pub mod queue;
pub mod resolver;
pub mod rules;
pub mod singular;
pub mod tile;

pub use queue::{PositionQueue, PositionQueueDirection, PositionQueueStartingPoint, PropagateItem, Propagator};
pub use error::{CollapseError, CollapseErrorKind, CollapsedGridError};
pub use grid::CollapsedGrid;
pub use tile::{CollapsedTileData, CollapsibleTileData, WaysToBeOption, WaysToBeOptionOutcome};

verus! {

/// Identifiers allowed next to some tile, for each of the four directions.
#[derive(Debug)]
pub struct Adjacencies {
    inner: Vec<Vec<u64>>,
}

impl Adjacencies {
    #[verifier::type_invariant]
    closed spec fn inv(&self) -> bool {
        &&& self.inner@.len() == 4
        &&& forall|i: int| 0 <= i < 4 ==> (#[trigger] self.inner@[i])@.no_duplicates()
    }

    /// Identifiers allowed in direction `d`.
    pub closed spec fn at(&self, d: GridDir) -> Set<u64> {
        self.inner@[dir_index(d)]@.to_set()
    }

    /// Adjacencies allowing nothing.
    pub fn new() -> (a: Self)
        ensures
            forall|d: GridDir| #[trigger] a.at(d) == Set::<u64>::empty(),
    {
        let mut inner: Vec<Vec<u64>> = Vec::new();
        let mut i: usize = 0;
        while i < 4
            invariant
                i <= 4,
                inner@.len() == i,
                forall|j: int| 0 <= j < i ==> (#[trigger] inner@[j])@ == Seq::<u64>::empty(),
            decreases 4 - i,
        {
            inner.push(Vec::new());
            i = i + 1;
        }
        let a = Self { inner };
        assert forall|d: GridDir| #[trigger] a.at(d) == Set::<u64>::empty() by {
            assert(a.inner@[dir_index(d)]@ == Seq::<u64>::empty());
            assert(a.inner@[dir_index(d)]@.to_set() =~= Set::<u64>::empty());
        }
        a
    }

    /// Allows `id` in `direction`.
    pub fn add_at_dir(&mut self, direction: GridDir, id: u64)
        ensures
            forall|d: GridDir| #[trigger]
                final(self).at(d) == if d == direction {
                    old(self).at(d).insert(id)
                } else {
                    old(self).at(d)
                },
    {
        proof {
            use_type_invariant(&*self);
        }
        let i = direction.index();
        let mut inner: Vec<Vec<u64>> = Vec::new();
        let mut j: usize = 0;
        while j < 4
            invariant
                j <= 4,
                i == dir_index(direction),
                self.inner@.len() == 4,
                forall|k: int| 0 <= k < 4 ==> (#[trigger] self.inner@[k])@.no_duplicates(),
                inner@.len() == j,
                forall|k: int| 0 <= k < j ==> (#[trigger] inner@[k])@.no_duplicates(),
                forall|k: int| 0 <= k < j ==> (#[trigger] inner@[k])@.to_set() == if k == i {
                    self.inner@[k]@.to_set().insert(id)
                } else {
                    self.inner@[k]@.to_set()
                },
            decreases 4 - j,
        {
            let mut ids = copy_ids(self.inner[j].as_slice());
            if j == i && !contains_id(&ids, id) {
                let ghost before = ids@;
                ids.push(id);
                proof {
                    before.lemma_push_to_set_commute(id);
                    assert forall|a: int, b: int| 0 <= a < b < ids@.len() implies ids@[a] != ids@[b] by {
                        if b == ids@.len() - 1 {
                            assert(before[a] == ids@[a]);
                        }
                    }
                }
            } else if j == i {
                proof {
                    assert(ids@.to_set() =~= ids@.to_set().insert(id));
                }
            }
            inner.push(ids);
            j = j + 1;
        }
        self.inner = inner;
        proof {
            assert forall|d: GridDir| #[trigger]
                self.at(d) == if d == direction {
                    old(self).at(d).insert(id)
                } else {
                    old(self).at(d)
                } by {
                if d != direction {
                    assert(dir_index(d) != i);
                }
            }
        }
    }

    /// Identifiers allowed in `direction`, each once.
    pub fn get_at_dir(&self, direction: GridDir) -> (ids: &[u64])
        ensures
            ids@.to_set() == self.at(direction),
            ids@.no_duplicates(),
    {
        proof {
            use_type_invariant(self);
        }
        self.inner[direction.index()].as_slice()
    }

    /// Copy allowing the same identifiers.
    pub fn duplicate(&self) -> (copy: Self)
        ensures
            forall|d: GridDir| #[trigger] copy.at(d) == self.at(d),
    {
        proof {
            use_type_invariant(self);
        }
        let mut inner: Vec<Vec<u64>> = Vec::new();
        let mut i: usize = 0;
        while i < 4
            invariant
                i <= 4,
                self.inner@.len() == 4,
                inner@.len() == i,
                forall|j: int| 0 <= j < i ==> (#[trigger] inner@[j])@ == self.inner@[j]@,
            decreases 4 - i,
        {
            inner.push(copy_ids(self.inner[i].as_slice()));
            i = i + 1;
        }
        Self { inner }
    }
}

/// Copy of `ids`.
pub fn copy_ids(ids: &[u64]) -> (v: Vec<u64>)
    ensures
        v@ == ids@,
{
    let mut v: Vec<u64> = Vec::new();
    let mut i: usize = 0;
    while i < ids.len()
        invariant
            i <= ids@.len(),
            v@ == ids@.take(i as int),
        decreases ids@.len() - i,
    {
        v.push(ids[i]);
        i = i + 1;
        assert(v@ =~= ids@.take(i as int));
    }
    assert(ids@.take(i as int) =~= ids@);
    v
}

/// `ids` holds `id`.
pub fn contains_id(ids: &[u64], id: u64) -> (r: bool)
    ensures
        r == ids@.contains(id),
{
    let mut i: usize = 0;
    while i < ids.len()
        invariant
            i <= ids@.len(),
            forall|j: int| 0 <= j < i ==> ids@[j] != id,
        decreases ids@.len() - i,
    {
        if ids[i] == id {
            assert(ids@[i as int] == id);
            return true;
        }
        i = i + 1;
    }
    false
}

/// Table of adjacencies: for each identifier of an element, the identifiers allowed next to it in each direction.
#[derive(Debug)]
pub struct AdjacencyTable {
    inner: IdMap<Adjacencies>,
}

impl AdjacencyTable {
    /// The table holds an entry for element `el`.
    pub closed spec fn has_element(&self, el: u64) -> bool {
        self.inner@.contains_key(el)
    }

    /// Element `adj` is allowed in direction `d` of element `el`.
    pub closed spec fn allows(&self, el: u64, d: GridDir, adj: u64) -> bool {
        self.has_element(el) && self.inner@[el].at(d).contains(adj)
    }

    /// Table without entries.
    pub fn new() -> (t: Self)
        ensures
            forall|el: u64| !#[trigger] t.has_element(el),
            forall|el: u64, d: GridDir, adj: u64| !#[trigger] t.allows(el, d, adj),
    {
        Self { inner: IdMap::new() }
    }

    /// Allows `adj_id` in `direction` of `el_id`.
    pub fn insert_adjacency(&mut self, el_id: u64, direction: GridDir, adj_id: u64)
        ensures
            forall|el: u64| #[trigger] final(self).has_element(el) <==> old(self).has_element(el) || el == el_id,
            forall|el: u64, d: GridDir, adj: u64| #[trigger]
                final(self).allows(el, d, adj) <==> old(self).allows(el, d, adj) || (el == el_id && d
                    == direction && adj == adj_id),
    {
        let mut adjacencies = match self.inner.remove(el_id) {
            Some(a) => a,
            None => Adjacencies::new(),
        };
        adjacencies.add_at_dir(direction, adj_id);
        self.inner.insert(el_id, adjacencies);
    }

    /// Identifiers allowed in `direction` of element `el_id`, each once. The element must have an entry.
    pub fn get_all_adjacencies_in_direction(&self, el_id: u64, direction: GridDir) -> (ids: &[u64])
        requires
            self.has_element(el_id),
        ensures
            forall|adj: u64| #[trigger] ids@.contains(adj) <==> self.allows(el_id, direction, adj),
            ids@.no_duplicates(),
    {
        let adjacencies = self.inner.get(el_id).unwrap();
        let ids = adjacencies.get_at_dir(direction);
        assert forall|adj: u64| #[trigger] ids@.contains(adj) <==> self.allows(el_id, direction, adj) by {
            assert(ids@.contains(adj) <==> ids@.to_set().contains(adj));
        }
        ids
    }

    /// `adj_id` is allowed in `direction` of `el_id`.
    pub fn check_adjacency(&self, el_id: u64, direction: GridDir, adj_id: u64) -> (r: bool)
        ensures
            r == self.allows(el_id, direction, adj_id),
    {
        match self.inner.get(el_id) {
            Some(adjacencies) => {
                let ids = adjacencies.get_at_dir(direction);
                assert(ids@.contains(adj_id) <==> ids@.to_set().contains(adj_id));
                contains_id(ids, adj_id)
            },
            None => false,
        }
    }

    /// Any of `options` is allowed in `direction` of `el_id`.
    pub fn check_adjacency_any(&self, el_id: u64, direction: GridDir, options: &[u64]) -> (r: bool)
        ensures
            r == exists|i: int| 0 <= i < options@.len() && self.allows(el_id, direction, #[trigger] options@[i]),
    {
        let mut i: usize = 0;
        while i < options.len()
            invariant
                i <= options@.len(),
                forall|j: int| 0 <= j < i ==> !self.allows(el_id, direction, #[trigger] options@[j]),
            decreases options@.len() - i,
        {
            if self.check_adjacency(el_id, direction, options[i]) {
                return true;
            }
            i = i + 1;
        }
        false
    }
}

impl Clone for AdjacencyTable {
    fn clone(&self) -> (r: Self)
        ensures
            forall|el: u64| #[trigger] r.has_element(el) == self.has_element(el),
            forall|el: u64, d: GridDir, adj: u64| #[trigger] r.allows(el, d, adj) == self.allows(el, d, adj),
    {
        let keys = self.inner.keys();
        let mut inner: IdMap<Adjacencies> = IdMap::new();
        let mut k: usize = 0;
        while k < keys.len()
            invariant
                k <= keys@.len(),
                keys@ == self.inner.spec_keys(),
                self.inner.consistent(),
                forall|el: u64| #[trigger] inner@.contains_key(el) <==> keys@.take(k as int).contains(el),
                forall|el: u64, d: GridDir|
                    inner@.contains_key(el) ==> #[trigger] inner@[el].at(d) == self.inner@[el].at(d),
            decreases keys@.len() - k,
        {
            let el = keys[k];
            assert(self.inner.spec_keys().contains(el));
            let source = self.inner.get(el).unwrap();
            let copy = source.duplicate();
            inner.insert(el, copy);
            k = k + 1;
            proof {
                assert(keys@.take(k as int) =~= keys@.take(k - 1).push(el));
                assert forall|e: u64| #[trigger] inner@.contains_key(e) <==> keys@.take(k as int).contains(e) by {
                    if e != el {
                        assert(keys@.take(k as int).contains(e) <==> keys@.take(k - 1).contains(e));
                    } else {
                        assert(keys@.take(k as int)[k - 1] == e);
                    }
                }
            }
        }
        assert(keys@.take(k as int) =~= keys@);
        let r = Self { inner };
        assert forall|el: u64| #[trigger] r.has_element(el) == self.has_element(el) by {
            assert(keys@.contains(el) <==> self.inner@.contains_key(el));
        }
        r
    }
}

} // verus!
