//! Collections binding outside data to `tile_type_id`s.
use vstd::prelude::*;

use crate::id_map::IdMap;

verus! {

/// Collection keeping some data for each tile type, bound both ways: each `tile_type_id` to its data, and the
/// identifier generated out of each data (its hash) back to the `tile_type_id`.
///
/// Besides the two maps, an implementor may keep more state, updated by the [`on_add`](IdentTileCollection::on_add)
/// and [`on_remove`](IdentTileCollection::on_remove) hooks as data enters and leaves the collection.
pub trait IdentTileCollection: Sized {
    /// Data kept for each tile type.
    type DATA;

    /// Identifier generated out of the data.
    spec fn spec_type_id(data: Self::DATA) -> u64;

    /// Data bound to each `tile_type_id`.
    spec fn spec_inner(&self) -> Map<u64, Self::DATA>;

    /// `tile_type_id` bound to each identifier generated out of data.
    spec fn spec_rev(&self) -> Map<u64, u64>;

    /// The two collections hold the same state besides the two maps.
    spec fn same_rest(a: Self, b: Self) -> bool;

    /// What the hook run when `data` enters the collection makes of the state besides the two maps.
    spec fn added_rest(before: Self, after: Self, data: Self::DATA) -> bool;

    /// What the hook run when `data` leaves the collection makes of the state besides the two maps.
    spec fn removed_rest(before: Self, after: Self, data: Self::DATA) -> bool;

    /// Keeping the same state besides the maps is transitive.
    proof fn lemma_same_rest_trans(a: Self, b: Self, c: Self)
        requires
            Self::same_rest(a, b),
            Self::same_rest(b, c),
        ensures
            Self::same_rest(a, c),
    ;

    /// A hook's outcome, followed by changes of the maps alone, is still that outcome.
    proof fn lemma_hook_then_same(before: Self, mid: Self, after: Self, data: Self::DATA)
        requires
            Self::same_rest(mid, after),
        ensures
            Self::added_rest(before, mid, data) ==> Self::added_rest(before, after, data),
            Self::removed_rest(before, mid, data) ==> Self::removed_rest(before, after, data),
    ;

    /// Changes of the maps alone, followed by a hook's outcome, still give that outcome.
    proof fn lemma_same_then_hook(before: Self, mid: Self, after: Self, data: Self::DATA)
        requires
            Self::same_rest(before, mid),
        ensures
            Self::added_rest(mid, after, data) ==> Self::added_rest(before, after, data),
            Self::removed_rest(mid, after, data) ==> Self::removed_rest(before, after, data),
    ;

    /// Map from `tile_type_id` to data.
    fn inner(&self) -> (r: &IdMap<Self::DATA>)
        ensures
            r@ == self.spec_inner(),
    ;

    /// Map from `tile_type_id` to data, to change.
    fn inner_mut(&mut self) -> (r: &mut IdMap<Self::DATA>)
        ensures
            (*r)@ == old(self).spec_inner(),
            final(self).spec_inner() == final(r)@,
            final(self).spec_rev() == old(self).spec_rev(),
            Self::same_rest(*old(self), *final(self)),
    ;

    /// Map from generated identifier to `tile_type_id`.
    fn rev(&self) -> (r: &IdMap<u64>)
        ensures
            r@ == self.spec_rev(),
    ;

    /// Map from generated identifier to `tile_type_id`, to change.
    fn rev_mut(&mut self) -> (r: &mut IdMap<u64>)
        ensures
            (*r)@ == old(self).spec_rev(),
            final(self).spec_rev() == final(r)@,
            final(self).spec_inner() == old(self).spec_inner(),
            Self::same_rest(*old(self), *final(self)),
    ;

    /// Identifier generated out of `data`.
    fn generate_type_id(data: &Self::DATA) -> (id: u64)
        ensures
            id == Self::spec_type_id(*data),
    ;

    /// Hook run as `data` enters the collection.
    fn on_add(&mut self, data: &Self::DATA)
        ensures
            final(self).spec_inner() == old(self).spec_inner(),
            final(self).spec_rev() == old(self).spec_rev(),
            Self::added_rest(*old(self), *final(self), *data),
    ;

    /// Hook run as `data` leaves the collection.
    fn on_remove(&mut self, data: &Self::DATA)
        ensures
            final(self).spec_inner() == old(self).spec_inner(),
            final(self).spec_rev() == old(self).spec_rev(),
            Self::removed_rest(*old(self), *final(self), *data),
    ;

    /// Binds `data` to `tile_type_id`, unless that identifier is bound already; says whether it bound it.
    fn add_tile_data(&mut self, tile_type_id: u64, data: Self::DATA) -> (changed: bool)
        ensures
            changed == !old(self).spec_inner().contains_key(tile_type_id),
            changed ==> final(self).spec_inner() == old(self).spec_inner().insert(tile_type_id, data)
                && final(self).spec_rev() == old(self).spec_rev().insert(Self::spec_type_id(data), tile_type_id)
                && Self::added_rest(*old(self), *final(self), data),
            !changed ==> *final(self) == *old(self),
    {
        if self.inner().contains_key(tile_type_id) {
            return false;
        }
        let data_hash = Self::generate_type_id(&data);
        let ghost s0 = *self;
        self.on_add(&data);
        let ghost s1 = *self;
        self.inner_mut().insert(tile_type_id, data);
        let ghost s2 = *self;
        self.rev_mut().insert(data_hash, tile_type_id);
        proof {
            Self::lemma_same_rest_trans(s1, s2, *self);
            Self::lemma_hook_then_same(s0, s1, *self, data);
        }
        true
    }

    /// Binds `data` to the identifier generated out of it, unless that identifier is bound already; says whether
    /// it bound it.
    fn add_tile(&mut self, data: Self::DATA) -> (changed: bool)
        ensures
            changed == (!old(self).spec_rev().contains_key(Self::spec_type_id(data))
                && !old(self).spec_inner().contains_key(Self::spec_type_id(data))),
            changed ==> final(self).spec_inner() == old(self).spec_inner().insert(Self::spec_type_id(data), data)
                && final(self).spec_rev() == old(self).spec_rev().insert(Self::spec_type_id(data), Self::spec_type_id(data))
                && Self::added_rest(*old(self), *final(self), data),
            !changed ==> *final(self) == *old(self),
    {
        let hash = Self::generate_type_id(&data);
        if self.rev().contains_key(hash) {
            return false;
        }
        self.add_tile_data(hash, data)
    }

    /// Binds `data` to `tile_type_id`, replacing what was bound to it; returns the replaced data.
    fn set_tile_data(&mut self, tile_type_id: u64, data: Self::DATA) -> (existing: Option<Self::DATA>)
        ensures
            existing == old(self).spec_inner().get(tile_type_id),
            final(self).spec_inner() == old(self).spec_inner().insert(tile_type_id, data),
            final(self).spec_rev() == match existing {
                Some(d) => old(self).spec_rev().remove(Self::spec_type_id(d)),
                None => old(self).spec_rev(),
            }.insert(Self::spec_type_id(data), tile_type_id),
            match existing {
                Some(d) => exists|mid: Self|
                    #[trigger] Self::removed_rest(*old(self), mid, d) && Self::added_rest(mid, *final(self), data),
                None => Self::added_rest(*old(self), *final(self), data),
            },
    {
        let data_hash = Self::generate_type_id(&data);
        let ghost s0 = *self;
        let existing = self.inner_mut().remove(tile_type_id);
        let ghost s1 = *self;
        match &existing {
            Some(d) => {
                let hash_to_remove = Self::generate_type_id(d);
                self.rev_mut().remove(hash_to_remove);
                let ghost s2 = *self;
                self.on_remove(d);
                proof {
                    Self::lemma_same_rest_trans(s0, s1, s2);
                    Self::lemma_same_then_hook(s0, s2, *self, *d);
                }
            },
            None => {},
        }
        let ghost s3 = *self;
        self.on_add(&data);
        let ghost s4 = *self;
        self.inner_mut().insert(tile_type_id, data);
        let ghost s5 = *self;
        self.rev_mut().insert(data_hash, tile_type_id);
        proof {
            Self::lemma_same_rest_trans(s4, s5, *self);
            Self::lemma_hook_then_same(s3, s4, *self, data);
            if existing is None {
                Self::lemma_same_then_hook(s0, s3, *self, data);
            }
        }
        existing
    }

    /// Removes the data bound to `tile_type_id`, and the data bound to the identifier generated out of it;
    /// returns the data removed for `tile_type_id`. The map from generated identifiers stays as it was.
    fn remove_tile_data(&mut self, tile_type_id: u64) -> (existing: Option<Self::DATA>)
        ensures
            existing == old(self).spec_inner().get(tile_type_id),
            final(self).spec_inner() == match existing {
                Some(d) => old(self).spec_inner().remove(tile_type_id).remove(Self::spec_type_id(d)),
                None => old(self).spec_inner(),
            },
            final(self).spec_rev() == old(self).spec_rev(),
            match existing {
                Some(d) => Self::removed_rest(*old(self), *final(self), d),
                None => *final(self) == *old(self),
            },
    {
        if !self.inner().contains_key(tile_type_id) {
            return None;
        }
        let ghost s0 = *self;
        let existing = self.inner_mut().remove(tile_type_id);
        match &existing {
            Some(d) => {
                let hash = Self::generate_type_id(d);
                let ghost s1 = *self;
                self.inner_mut().remove(hash);
                let ghost s2 = *self;
                self.on_remove(d);
                proof {
                    Self::lemma_same_rest_trans(s0, s1, s2);
                    Self::lemma_same_then_hook(s0, s2, *self, *d);
                }
            },
            None => {},
        }
        existing
    }

    /// Binds `data` to the identifier generated out of it, first removing what was bound through that
    /// identifier; says whether data was bound to the identifier still.
    fn set_tile(&mut self, data: Self::DATA) -> (replaced: bool)
        ensures
            ({
                let h = Self::spec_type_id(data);
                let cleared = if old(self).spec_rev().contains_key(h) {
                    old(self).spec_inner().remove(old(self).spec_rev()[h])
                } else {
                    old(self).spec_inner()
                };
                &&& replaced == cleared.contains_key(h)
                &&& final(self).spec_inner() == cleared.insert(h, data)
                &&& final(self).spec_rev() == match cleared.get(h) {
                    Some(d) => old(self).spec_rev().remove(h).remove(Self::spec_type_id(d)),
                    None => old(self).spec_rev().remove(h),
                }.insert(h, h)
            }),
    {
        let hash = Self::generate_type_id(&data);
        match self.rev_mut().remove(hash) {
            Some(type_id) => {
                let removed = self.inner_mut().remove(type_id);
                match &removed {
                    Some(d) => {
                        self.on_remove(d);
                    },
                    None => {},
                }
            },
            None => {},
        }
        let existing = self.set_tile_data(hash, data);
        existing.is_some()
    }

    /// Removes the data bound through the identifier generated out of `data`, and the data bound to that
    /// identifier itself; says whether anything was removed.
    fn remove_tile(&mut self, data: Self::DATA) -> (changed: bool)
        ensures
            ({
                let h = Self::spec_type_id(data);
                let cleared = if old(self).spec_rev().contains_key(h) {
                    old(self).spec_inner().remove(old(self).spec_rev()[h])
                } else {
                    old(self).spec_inner()
                };
                &&& changed == (old(self).spec_rev().contains_key(h) || cleared.contains_key(h))
                &&& final(self).spec_inner() == match cleared.get(h) {
                    Some(d) => cleared.remove(h).remove(Self::spec_type_id(d)),
                    None => cleared,
                }
                &&& final(self).spec_rev() == old(self).spec_rev().remove(h)
            }),
    {
        let mut changed = false;
        let hash = Self::generate_type_id(&data);
        match self.rev_mut().remove(hash) {
            Some(type_id) => {
                let removed = self.inner_mut().remove(type_id);
                match &removed {
                    Some(d) => {
                        self.on_remove(d);
                    },
                    None => {},
                }
                changed = true;
            },
            None => {},
        }
        if self.remove_tile_data(hash).is_some() {
            changed = true;
        }
        changed
    }

    /// Data bound to `tile_type_id`.
    fn get_tile_data(&self, tile_type_id: u64) -> (r: Option<&Self::DATA>)
        ensures
            r == (if self.spec_inner().contains_key(tile_type_id) {
                Some(&self.spec_inner()[tile_type_id])
            } else {
                None
            }),
    {
        self.inner().get(tile_type_id)
    }

    /// `tile_type_id` bound to the identifier generated out of `data`.
    fn get_tile_type_id(&self, data: &Self::DATA) -> (r: Option<u64>)
        ensures
            r == self.spec_rev().get(Self::spec_type_id(*data)),
    {
        match self.rev().get(Self::generate_type_id(data)) {
            Some(id) => Some(*id),
            None => None,
        }
    }
}

} // verus!
