//! An entity is a single object that owns components.
//!
//! All components and states referencing entities
//! must visit their references in [`Referrer::visit_mut`](referrer::Referrer::visit_mut).
//!
//! All strong references to an entity must be dropped before it gets deleted.

use std::marker::PhantomData;

use vstd::prelude::*;

use crate::Archetype;

pub mod ealloc;

pub mod generation;
pub use generation::Generation;

pub mod raw;
pub use raw::Raw;
mod raw_atomic;

mod sealed;
pub use sealed::Sealed;

verus! {

/// A trait implemented by all types of entity references.
pub trait Ref: Sealed {
    /// The archetype that this entity belongs to.
    type Archetype: Archetype;

    /// The underlying entity ID referenced.
    spec fn spec_id(&self) -> u32;

    /// The underlying entity ID referenced.
    fn id(&self) -> (r: u32)
        ensures
            r == self.spec_id(),
    ;
}

/// A temporary, short-lived reference to an entity.
///
/// This type is not ref-counted.
/// It is only used as a short-lived pointer passed from the API
/// for entity references that should not outlive a short scope (e.g. an API callback).
pub struct TempRef<'t, A: Archetype> {
    pub(crate) value: u32,
    _ph: PhantomData<(&'t (), A)>,
}

impl<'t, A: Archetype> TempRef<'t, A> {
    /// Creates a new temporary reference with a lifetime.
    pub fn new(value: u32) -> (r: Self)
        ensures
            r.spec_id() == value,
    {
        TempRef { value, _ph: PhantomData }
    }
}

impl<'t, A: Archetype> Sealed for TempRef<'t, A> {

}

impl<'t, A: Archetype> Ref for TempRef<'t, A> {
    type Archetype = A;

    closed spec fn spec_id(&self) -> u32 {
        self.value
    }

    fn id(&self) -> (r: u32) {
        self.value
    }
}

impl<'t, A: Archetype> Clone for TempRef<'t, A> {
    fn clone(&self) -> (r: Self)
        ensures
            r.spec_id() == self.spec_id(),
    {
        TempRef { value: self.value, _ph: PhantomData }
    }
}

impl<'t, A: Archetype> Copy for TempRef<'t, A> {

}

/// A chunk of continuous [`TempRef`]s, covering the IDs `start..end`.
pub struct TempRefChunk<'t, A: Archetype> {
    pub start: u32,
    pub end: u32,
    pub _ph: PhantomData<(&'t (), A)>,
}

impl<'t, A: Archetype> TempRefChunk<'t, A> {
    /// Lists all entities in the chunk in ascending order.
    ///
    /// A chunk whose start is not below its end holds no entity.
    pub fn iter(&self) -> (r: Vec<TempRef<'t, A>>)
        ensures
            self.start < self.end ==> r@.len() == self.end - self.start,
            self.start >= self.end ==> r@.len() == 0,
            forall|i: int| 0 <= i < r@.len() ==> #[trigger] r@[i].spec_id() == self.start + i,
    {
        let mut out: Vec<TempRef<'t, A>> = Vec::new();
        if self.start >= self.end {
            return out;
        }
        out.push(TempRef::new(self.start));
        let mut prev = self.start;
        while Raw::add(prev, 1) < self.end
            invariant
                self.start <= prev < self.end,
                out@.len() == prev - self.start + 1,
                forall|i: int| 0 <= i < out@.len() ==> #[trigger] out@[i].spec_id() == self.start + i,
            decreases self.end - prev,
        {
            prev = Raw::add(prev, 1);
            out.push(TempRef::new(prev));
        }
        out
    }
}

impl<'t, A: Archetype> Clone for TempRefChunk<'t, A> {
    fn clone(&self) -> (r: Self)
        ensures
            r.start == self.start,
            r.end == self.end,
    {
        TempRefChunk { start: self.start, end: self.end, _ph: PhantomData }
    }
}

impl<'t, A: Archetype> Copy for TempRefChunk<'t, A> {

}

/// The reference-count token held by strong references.
#[derive(Clone, Copy, Debug)]
pub struct MaybeArc;

/// The reference-count token held by weak references.
#[derive(Clone, Copy, Debug)]
pub struct MaybeWeak;

/// Derives the weak token from a strong one.
pub fn downgrade(_arc: &MaybeArc) -> MaybeWeak {
    MaybeWeak
}

/// A strong reference to an entity.
///
/// This reference must be dropped before an entity is deleted
/// (after all finalizers have been unset).
/// Use `Weak` if the reference is allowed to outlive the entity.
pub struct Entity<A: Archetype> {
    pub(crate) id: u32,
    pub(crate) rc: MaybeArc,
    _ph: PhantomData<A>,
}

impl<A: Archetype> Entity<A> {
    /// Creates a new strong reference to an entity.
    ///
    /// This method should only be used when a completely new entity has been created.
    pub fn new_allocated(id: u32) -> (r: Self)
        ensures
            r.spec_id() == id,
    {
        Entity { id, rc: MaybeArc, _ph: PhantomData }
    }

    /// Creates a strong reference from the tracked reference-count token of the entity.
    pub(crate) fn with_rc(id: u32, rc: MaybeArc) -> (r: Self)
        ensures
            r.spec_id() == id,
    {
        Entity { id, rc, _ph: PhantomData }
    }

    /// Converts the strong reference into a weak reference.
    ///
    /// Since this strong reference is still valid,
    /// the current state of the generation store is the actual generation of the entity.
    pub fn weak<S: generation::WeakStore>(&self, store: &S) -> (r: Weak<A>)
        requires
            store.resolved(A::KEY) is Some,
        ensures
            r.spec_id() == self.spec_id(),
            r.spec_generation() == store.resolved(A::KEY)->0.generation_of(self.spec_id() as int),
    {
        let store = match store.resolve::<A>() {
            Some(store) => store,
            None => vstd::pervasive::unreached(),
        };
        let generation = store.get(self.id as usize);
        Weak { id: self.id, generation, rc: downgrade(&self.rc), _ph: PhantomData }
    }
}

impl<A: Archetype> Sealed for Entity<A> {

}

impl<A: Archetype> Ref for Entity<A> {
    type Archetype = A;

    closed spec fn spec_id(&self) -> u32 {
        self.id
    }

    fn id(&self) -> (r: u32) {
        self.id
    }
}

impl<A: Archetype> Clone for Entity<A> {
    fn clone(&self) -> (r: Self)
        ensures
            r.spec_id() == self.spec_id(),
    {
        Entity { id: self.id, rc: self.rc, _ph: PhantomData }
    }
}

/// A weak counted reference to an entity.
///
/// This reference can outlive the entity.
/// It additionally stores the generation of an entity
/// in order to disambiguate new entities that reuse the recycled ID.
pub struct Weak<A: Archetype> {
    pub(crate) id: u32,
    pub(crate) generation: Generation,
    pub(crate) rc: MaybeWeak,
    _ph: PhantomData<A>,
}

impl<A: Archetype> Weak<A> {
    /// The generation of the entity when this reference was created.
    pub closed spec fn spec_generation(&self) -> Generation {
        self.generation
    }

    /// The generation of the entity when this reference was created.
    pub fn generation(&self) -> (r: Generation)
        ensures
            r == self.spec_generation(),
    {
        self.generation
    }
}

impl<A: Archetype> Sealed for Weak<A> {

}

impl<A: Archetype> Ref for Weak<A> {
    type Archetype = A;

    closed spec fn spec_id(&self) -> u32 {
        self.id
    }

    fn id(&self) -> (r: u32) {
        self.id
    }
}

impl<A: Archetype> Clone for Weak<A> {
    fn clone(&self) -> (r: Self)
        ensures
            r.spec_id() == self.spec_id(),
            r.spec_generation() == self.spec_generation(),
    {
        Weak { id: self.id, generation: self.generation, rc: self.rc, _ph: PhantomData }
    }
}

} // verus!

pub mod deletion;

pub mod rctrack;

pub mod referrer;
pub use referrer::Referrer;

pub mod permutation;
pub use permutation::Permutation;
mod sort;
pub use sort::{placed_before, sort_ids_by, sorted_by};

