//! Last owner of reference-counted entity references,
//! used for identifying strong reference leaks.

use std::collections::HashMap;

use vstd::prelude::*;

use super::{Entity, MaybeArc, Ref, TempRef};
use crate::Archetype;

verus! {

/// Stores the last strong reference of each live entity of one archetype.
pub struct Store {
    vec: Vec<Option<MaybeArc>>,
}

impl Store {
    /// Whether the store holds the strong reference of the entity `id`.
    pub closed spec fn holds(&self, id: int) -> bool {
        0 <= id < self.vec@.len() && self.vec@[id] is Some
    }

    /// Creates a store that holds no reference.
    pub fn new() -> (r: Self)
        ensures
            forall|id: int| !#[trigger] r.holds(id),
    {
        Store { vec: Vec::new() }
    }

    /// Starts tracking the strong reference of the entity `id`.
    ///
    /// The previous entity with the same ID must have been freed.
    pub fn set(&mut self, id: usize, rc: MaybeArc)
        requires
            !old(self).holds(id as int),
            id < usize::MAX,
        ensures
            final(self).holds(id as int),
            forall|other: int| other != id ==> #[trigger] final(self).holds(other) == old(self).holds(other),
    {
        let ghost before = *self;
        if self.vec.len() <= id {
            while self.vec.len() <= id
                invariant
                    id < usize::MAX,
                    self.vec@.len() <= id + 1,
                    forall|other: int| #[trigger] self.holds(other) == before.holds(other),
                decreases id + 1 - self.vec@.len(),
            {
                let ghost prev = *self;
                self.vec.push(None);
                proof {
                    assert forall|other: int| #[trigger] self.holds(other) == before.holds(other) by {
                        assert(prev.holds(other) == before.holds(other));
                        if 0 <= other < prev.vec@.len() {
                            assert(self.vec@[other] == prev.vec@[other]);
                        }
                    }
                }
            }
        }
        let ghost mid = *self;
        assert(forall|other: int| #[trigger] mid.holds(other) == before.holds(other));
        self.vec.set(id, Some(rc));
        proof {
            assert forall|other: int| other != id implies #[trigger] self.holds(other) == before.holds(other) by {
                assert(mid.holds(other) == before.holds(other));
                if 0 <= other < mid.vec@.len() {
                    assert(self.vec@[other] == mid.vec@[other]);
                }
            }
        }
    }

    /// Stops tracking and returns the strong reference of the entity `id`.
    pub fn remove(&mut self, id: usize) -> (r: MaybeArc)
        requires
            old(self).holds(id as int),
        ensures
            !final(self).holds(id as int),
            forall|other: int| other != id ==> #[trigger] final(self).holds(other) == old(self).holds(other),
    {
        let rc = match self.vec[id] {
            Some(rc) => rc,
            None => vstd::pervasive::unreached(),
        };
        self.vec.set(id, None);
        rc
    }

    /// The strong reference tracked for the entity `id`, if any.
    pub fn get(&self, id: usize) -> (r: Option<&MaybeArc>)
        ensures
            r is Some == self.holds(id as int),
    {
        if id < self.vec.len() {
            match &self.vec[id] {
                Some(rc) => Some(rc),
                None => None,
            }
        } else {
            None
        }
    }
}

impl Default for Store {
    fn default() -> (r: Self)
        ensures
            forall|id: int| !#[trigger] r.holds(id),
    {
        Store::new()
    }
}

/// The stores of all archetypes, keyed by archetype.
pub struct StoreMap {
    map: HashMap<u64, Store>,
}

impl StoreMap {
    /// Whether the strong reference of entity `id` of the archetype with key `key` is tracked.
    pub closed spec fn holds(&self, key: u64, id: int) -> bool {
        self.map@.contains_key(key) && self.map@[key].holds(id)
    }

    /// Whether a store was created for the archetype with key `key`.
    pub closed spec fn knows(&self, key: u64) -> bool {
        self.map@.contains_key(key)
    }

    /// Creates a map without any stores.
    pub fn new() -> (r: Self)
        ensures
            forall|key: u64| !#[trigger] r.knows(key),
            forall|key: u64, id: int| !#[trigger] r.holds(key, id),
    {
        StoreMap { map: HashMap::new() }
    }

    /// Starts tracking a strong reference.
    pub fn set<A: Archetype>(&mut self, id: usize, rc: MaybeArc)
        requires
            !old(self).holds(A::KEY, id as int),
            id < usize::MAX,
        ensures
            final(self).holds(A::KEY, id as int),
            final(self).knows(A::KEY),
            forall|key: u64| key != A::KEY ==> #[trigger] final(self).knows(key) == old(self).knows(key),
            forall|key: u64, other: int|
                (key != A::KEY || other != id) ==> #[trigger] final(self).holds(key, other) == old(
                    self,
                ).holds(key, other),
    {
        broadcast use vstd::std_specs::hash::group_hash_axioms;

        let key = A::KEY;
        let mut store = match self.map.remove(&key) {
            Some(store) => store,
            None => Store::new(),
        };
        store.set(id, rc);
        self.map.insert(key, store);
    }

    /// Removes and returns the current strong reference to an entity.
    pub fn remove<A: Archetype>(&mut self, id: usize) -> (r: MaybeArc)
        requires
            old(self).holds(A::KEY, id as int),
        ensures
            !final(self).holds(A::KEY, id as int),
            forall|key: u64| #[trigger] final(self).knows(key) == old(self).knows(key),
            forall|key: u64, other: int|
                (key != A::KEY || other != id) ==> #[trigger] final(self).holds(key, other) == old(
                    self,
                ).holds(key, other),
    {
        broadcast use vstd::std_specs::hash::group_hash_axioms;

        let key = A::KEY;
        let mut store = match self.map.remove(&key) {
            Some(store) => store,
            None => vstd::pervasive::unreached(),
        };
        let rc = store.remove(id);
        self.map.insert(key, store);
        rc
    }

    /// Converts a temporary reference to a strong reference, cloning the tracked one.
    pub fn to_strong<'t, A: Archetype>(&self, entity: TempRef<'t, A>) -> (r: Entity<A>)
        requires
            self.holds(A::KEY, entity.spec_id() as int),
        ensures
            r.spec_id() == entity.spec_id(),
    {
        broadcast use vstd::std_specs::hash::group_hash_axioms;

        let id = entity.id();
        let rc = match self.map.get(&A::KEY) {
            Some(store) => match store.get(id as usize) {
                Some(rc) => *rc,
                None => vstd::pervasive::unreached(),
            },
            None => vstd::pervasive::unreached(),
        };
        Entity::with_rc(id, rc)
    }
}

impl Default for StoreMap {
    fn default() -> (r: Self)
        ensures
            forall|key: u64| !#[trigger] r.knows(key),
            forall|key: u64, id: int| !#[trigger] r.holds(key, id),
    {
        StoreMap::new()
    }
}

/// A map of reference-tracking stores for each archetype.
///
/// Strong references carry no counter in this build ([`MaybeArc`] is a plain token),
/// so nothing is tracked and converting a temporary reference looks nothing up.
pub struct MaybeStoreMap;

impl MaybeStoreMap {
    /// Converts a temporary reference to a `'static` strong reference.
    pub fn to_strong<'t, A: Archetype>(&self, entity: TempRef<'t, A>) -> (r: Entity<A>)
        ensures
            r.spec_id() == entity.spec_id(),
    {
        Entity::with_rc(entity.id(), MaybeArc)
    }
}

impl Default for MaybeStoreMap {
    fn default() -> (r: Self)
        ensures
            r == MaybeStoreMap,
    {
        MaybeStoreMap
    }
}

} // verus!
