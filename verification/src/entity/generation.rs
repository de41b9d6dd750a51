//! Tracks the number of times an entity ID is allocated,
//! used for distinguishing dangling weak references.

use std::collections::HashMap;

use vstd::prelude::*;

use crate::Archetype;

verus! {

/// The number of times the same ID has been used for allocating an entity.
/// A greater generation implies a newer version.
#[derive(Debug, Clone, Copy, PartialEq, Eq, Structural, PartialOrd, Ord)]
pub struct Generation(pub u32);

impl Generation {
    /// The generation of an ID that was never allocated.
    pub fn zero() -> (r: Self)
        ensures
            r == Generation(0),
    {
        Generation(0)
    }
}

impl Default for Generation {
    fn default() -> (r: Self)
        ensures
            r == Generation(0),
    {
        Generation(0)
    }
}

/// Stores generations of entities for a specific archetype.
pub struct Store {
    vec: Vec<Generation>,
}

impl Store {
    /// The generation of the last entity created with the given ID.
    pub closed spec fn generation_of(&self, id: int) -> Generation {
        if 0 <= id < self.vec@.len() {
            self.vec@[id]
        } else {
            Generation(0)
        }
    }

    /// Creates a store where every ID is at generation zero.
    pub fn new() -> (r: Self)
        ensures
            forall|id: int| #[trigger] r.generation_of(id) == Generation(0),
    {
        Store { vec: Vec::new() }
    }

    /// Bumps the generation of the entity.
    pub fn next(&mut self, id: usize) -> (r: Generation)
        requires
            id < usize::MAX,
        ensures
            r == Generation(old(self).generation_of(id as int).0.wrapping_add(1)),
            final(self).generation_of(id as int) == r,
            forall|other: int|
                other != id ==> #[trigger] final(self).generation_of(other) == old(
                    self,
                ).generation_of(other),
    {
        if self.vec.len() <= id {
            let mut i = self.vec.len();
            while i <= id
                invariant
                    i == self.vec@.len(),
                    i <= id + 1,
                    id < usize::MAX,
                    forall|other: int|
                        #[trigger] self.generation_of(other) == old(self).generation_of(other),
                decreases id + 1 - i,
            {
                let ghost before = *self;
                self.vec.push(Generation(0));
                proof {
                    assert forall|other: int| #[trigger] self.generation_of(other) == before.generation_of(other) by {
                        if 0 <= other < before.vec@.len() {
                            assert(self.vec@[other] == before.vec@[other]);
                        }
                    }
                }
                i += 1;
            }
        }
        let current = self.vec[id];
        assert(self.generation_of(id as int) == old(self).generation_of(id as int));
        assert(current == old(self).generation_of(id as int));
        let generation = Generation(current.0.wrapping_add(1));
        let ghost before = *self;
        self.vec.set(id, generation);
        proof {
            assert forall|other: int| other != id implies #[trigger] self.generation_of(other) == before.generation_of(other) by {
                if 0 <= other < before.vec@.len() {
                    assert(self.vec@[other] == before.vec@[other]);
                }
            }
        }
        generation
    }

    /// Gets the generation of the last created entity with the given `id`.
    pub fn get(&self, id: usize) -> (r: Generation)
        ensures
            r == self.generation_of(id as int),
    {
        if id < self.vec.len() {
            self.vec[id]
        } else {
            Generation(0)
        }
    }
}

impl Default for Store {
    fn default() -> (r: Self)
        ensures
            forall|id: int| #[trigger] r.generation_of(id) == Generation(0),
    {
        Store::new()
    }
}

/// A map of generation stores for each archetype.
pub struct StoreMap {
    map: HashMap<u64, Store>,
}

impl StoreMap {
    /// The store of the archetype with the given key, if one was created.
    pub closed spec fn store_of(&self, key: u64) -> Option<Store> {
        if self.map@.contains_key(key) {
            Some(self.map@[key])
        } else {
            None
        }
    }

    /// The generation of the last entity created with the given archetype key and ID.
    pub open spec fn generation_of(&self, key: u64, id: int) -> Generation {
        match self.store_of(key) {
            Some(store) => store.generation_of(id),
            None => Generation(0),
        }
    }

    /// Creates a map without any stores.
    pub fn new() -> (r: Self)
        ensures
            forall|key: u64| #[trigger] r.store_of(key) is None,
    {
        StoreMap { map: HashMap::new() }
    }

    /// Bumps the generation of the entity with the given archetype.
    pub fn next<A: Archetype>(&mut self, id: usize) -> (r: Generation)
        requires
            id < usize::MAX,
        ensures
            r == Generation(old(self).generation_of(A::KEY, id as int).0.wrapping_add(1)),
            final(self).generation_of(A::KEY, id as int) == r,
            final(self).store_of(A::KEY) is Some,
            forall|key: u64, other: int|
                (key != A::KEY || other != id) ==> #[trigger] final(self).generation_of(
                    key,
                    other,
                ) == old(self).generation_of(key, other),
            forall|key: u64|
                key != A::KEY ==> #[trigger] final(self).store_of(key) == old(
                    self,
                ).store_of(key),
    {
        broadcast use vstd::std_specs::hash::group_hash_axioms;

        let key = A::KEY;
        let mut store = match self.map.remove(&key) {
            Some(store) => store,
            None => Store::new(),
        };
        let generation = store.next(id);
        self.map.insert(key, store);
        generation
    }

    /// Gets the generation of the last created entity with the given archetype and `id`.
    pub fn get<A: Archetype>(&self, id: usize) -> (r: Generation)
        ensures
            r == self.generation_of(A::KEY, id as int),
    {
        broadcast use vstd::std_specs::hash::group_hash_axioms;

        match self.map.get(&A::KEY) {
            Some(store) => store.get(id),
            None => Generation(0),
        }
    }
}

impl Default for StoreMap {
    fn default() -> (r: Self)
        ensures
            forall|key: u64| #[trigger] r.store_of(key) is None,
    {
        StoreMap::new()
    }
}

/// Parameter to [`Entity::weak`](super::Entity::weak).
pub trait WeakStore {
    /// The generation store for the archetype with the given key, if there is one.
    spec fn resolved(&self, key: u64) -> Option<Store>;

    /// Resolves the actual generation store for the archetype.
    fn resolve<A: Archetype>(&self) -> (r: Option<&Store>)
        ensures
            match r {
                Some(store) => self.resolved(A::KEY) == Some(*store),
                None => self.resolved(A::KEY) is None,
            },
    ;
}

impl WeakStore for Store {
    open spec fn resolved(&self, key: u64) -> Option<Store> {
        Some(*self)
    }

    fn resolve<A: Archetype>(&self) -> (r: Option<&Store>) {
        Some(self)
    }
}

impl WeakStore for StoreMap {
    open spec fn resolved(&self, key: u64) -> Option<Store> {
        self.store_of(key)
    }

    fn resolve<A: Archetype>(&self) -> (r: Option<&Store>) {
        broadcast use vstd::std_specs::hash::group_hash_axioms;

        self.map.get(&A::KEY)
    }
}

} // verus!
