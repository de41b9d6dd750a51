//! The allocators of all archetypes, and the shards handed to one worker.

use std::collections::hash_map::Entry;
use std::collections::HashMap;

use vstd::prelude::*;

use super::snapshot::Snapshot;
use super::traits::Ealloc;
use crate::Archetype;

verus! {

broadcast use vstd::std_specs::hash::group_hash_axioms;

/// Contains the entity allocators of all archetypes, keyed by archetype.
pub struct EallocMap<E: Ealloc> {
    pub(crate) map: HashMap<u64, E>,
}

impl<E: Ealloc> EallocMap<E> {
    /// The allocator of each archetype.
    pub closed spec fn allocators(&self) -> Map<u64, E> {
        self.map@
    }

    /// Creates a map of the given allocators.
    pub fn new(map: HashMap<u64, E>) -> (r: Self)
        ensures
            r.allocators() == map@,
    {
        EallocMap { map }
    }

    /// Gets the allocator of the archetype `A`.
    pub fn get<A: Archetype>(&mut self) -> (r: &mut E)
        requires
            old(self).allocators().contains_key(A::KEY),
        ensures
            *r == old(self).allocators()[A::KEY],
            final(self).allocators() == old(self).allocators().insert(A::KEY, *final(r)),
    {
        let key = A::KEY;
        match self.map.entry(key) {
            Entry::Occupied(occupied) => occupied.into_mut(),
            Entry::Vacant(_) => vstd::pervasive::unreached(),
        }
    }

    /// Creates a snapshot of the allocated entities of the archetype `A`.
    ///
    /// For online access, get the snapshot through [`ShardMap::snapshot`] instead.
    /// This function is intended for offline access e.g. in unit tests.
    pub fn snapshot<A: Archetype>(&mut self) -> (r: Snapshot)
        requires
            old(self).allocators().contains_key(A::KEY),
            old(self).allocators()[A::KEY].wf(),
        ensures
            final(self).allocators() == old(self).allocators(),
            r.wf(),
            r.spec_gauge() == old(self).allocators()[A::KEY].snapshot_gauge(),
            r.spec_recyclable() == old(self).allocators()[A::KEY].snapshot_recyclable(),
    {
        match self.map.get(&A::KEY) {
            Some(ealloc) => ealloc.snapshot(),
            None => vstd::pervasive::unreached(),
        }
    }
}

/// The snapshot and shard of one archetype in a [`ShardMap`].
pub struct ShardMapEntry<S> {
    snapshot: Snapshot,
    shard: S,
}

/// A map of shards assigned to a single worker thread, keyed by archetype.
pub struct ShardMap<S> {
    map: HashMap<u64, ShardMapEntry<S>>,
}

impl<S> ShardMap<S> {
    /// The shard of each archetype.
    pub closed spec fn shards(&self) -> Map<u64, S> {
        Map::new(|key: u64| self.map@.contains_key(key), |key: u64| self.map@[key].shard)
    }

    /// The snapshot of each archetype.
    pub closed spec fn snapshots(&self) -> Map<u64, Snapshot> {
        Map::new(|key: u64| self.map@.contains_key(key), |key: u64| self.map@[key].snapshot)
    }

    /// Creates a map without shards.
    pub fn new() -> (r: Self)
        ensures
            r.shards() == Map::<u64, S>::empty(),
            r.snapshots() == Map::<u64, Snapshot>::empty(),
    {
        let r = ShardMap { map: HashMap::new() };
        proof {
            assert(r.shards() =~= Map::<u64, S>::empty());
            assert(r.snapshots() =~= Map::<u64, Snapshot>::empty());
        }
        r
    }

    /// Assigns the shard of the archetype `A`, with the snapshot taken during the last offline phase.
    pub fn insert<A: Archetype>(&mut self, snapshot: Snapshot, shard: S)
        ensures
            final(self).shards() == old(self).shards().insert(A::KEY, shard),
            final(self).snapshots() == old(self).snapshots().insert(A::KEY, snapshot),
    {
        let ghost key = A::KEY;
        self.map.insert(A::KEY, ShardMapEntry { snapshot, shard });
        proof {
            assert(self.shards() =~= old(self).shards().insert(key, shard));
            assert(self.snapshots() =~= old(self).snapshots().insert(key, snapshot));
        }
    }

    /// Gets the mutable shard reference of the archetype `A`.
    pub fn get<A: Archetype>(&mut self) -> (r: &mut S)
        requires
            old(self).shards().contains_key(A::KEY),
        ensures
            *r == old(self).shards()[A::KEY],
            final(self).shards() == old(self).shards().insert(A::KEY, *final(r)),
            final(self).snapshots() == old(self).snapshots(),
    {
        let result = match self.map.entry(A::KEY) {
            Entry::Occupied(occupied) => &mut occupied.into_mut().shard,
            Entry::Vacant(_) => vstd::pervasive::unreached(),
        };
        result
    }

    /// Returns the snapshot that tells what entities of the archetype `A` were allocated
    /// during the last offline phase.
    pub fn snapshot<A: Archetype>(&self) -> (r: &Snapshot)
        requires
            self.snapshots().contains_key(A::KEY),
        ensures
            *r == self.snapshots()[A::KEY],
    {
        match self.map.get(&A::KEY) {
            Some(entry) => &entry.snapshot,
            None => vstd::pervasive::unreached(),
        }
    }
}

} // verus!
