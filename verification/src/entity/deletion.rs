//! Manages entity deletion logic.

use std::any::TypeId;

use vstd::prelude::*;

use super::referrer::{visit_all, HeldRef, Referrer, VisitMutArg, VisitTypeArg};

verus! {

/// The flag exists as a component of an entity
/// if and only if the entity was marked for deletion.
pub struct Flag(pub(crate) ());

impl Referrer for Flag {
    open spec fn refs(&self) -> Seq<HeldRef> {
        Seq::empty()
    }

    /// Marks this type; the flag records no archetype.
    fn visit_type(arg: &mut VisitTypeArg)
        ensures
            exists|t: TypeId|
                #![trigger old(arg).marked().contains(t)]
                final(arg).marked() == old(arg).marked().insert(t),
            final(arg).found() == old(arg).found(),
    {
        let ghost before = *arg;
        let _ = arg.mark::<Self>();
        let ghost t = choose|t: TypeId|
            #![trigger before.marked().contains(t)]
            arg.marked() == before.marked().insert(t);
        assert(old(arg).marked().contains(t) || !old(arg).marked().contains(t));
    }

    fn visit_mut<V: VisitMutArg>(&mut self, arg: &mut V) {
    }
}

} // verus!
