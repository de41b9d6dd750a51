//! A map of owned components of one entity, used in parameter passing.

use std::any::Any;
use std::collections::HashMap;
use std::marker::PhantomData;

use vstd::prelude::*;

use super::discrim::Discrim;
use super::{Isotope, Simple};
use crate::Archetype;

verus! {

/// A value of some component type behind a type-erased box (`Box<dyn Any + Send + Sync>`).
///
/// The box stays in this opaque struct
/// and is only touched by the functions below.
#[verifier::external_body]
pub struct Erased {
    inner: Box<dyn Any + Send + Sync>,
}

/// `Box::new` into a `Box<dyn Any + Send + Sync>`: erases the type of `value`.
/// Nothing is stated of the result, which is opaque.
#[verifier::external_body]
fn erase<T: Send + Sync + 'static>(value: T) -> Erased {
    Erased { inner: Box::new(value) }
}

/// `<dyn Any>::downcast_ref`: the erased value, if it is of type `T`.
/// Nothing is stated of the result, which depends on the type that was erased.
#[verifier::external_body]
fn downcast_ref<T: 'static>(erased: &Erased) -> Option<&T> {
    erased.inner.downcast_ref::<T>()
}

/// `<dyn Any>::downcast_mut`: the erased value, if it is of type `T`.
/// Nothing is stated of the result, which depends on the type that was erased.
#[verifier::external_body]
fn downcast_mut<T: 'static>(erased: &mut Erased) -> Option<&mut T> {
    erased.inner.downcast_mut::<T>()
}

/// `Box::<dyn Any + Send + Sync>::downcast` and unboxing: the erased value, if it is of type `T`.
/// Nothing is stated of the result, which depends on the type that was erased.
#[verifier::external_body]
fn take_erased<T: 'static>(erased: Erased) -> Option<T> {
    erased.inner.downcast::<T>().ok().map(|value| *value)
}

/// A typemap of owned simple and isotope components, keyed by component type.
///
/// This type is only used in parameter passing, not in the actual storage.
/// Each simple component type holds one value; each isotope component type holds
/// the list of its entries in insertion order, each the discriminant's index
/// beside the erased pair of discriminant and value.
pub struct ComponentMap<A: Archetype> {
    simple: HashMap<u64, Erased>,
    isotope: HashMap<u64, Vec<(usize, Erased)>>,
    _ph: PhantomData<A>,
}

/// The discriminant indices of a list of isotope entries, in order.
pub open spec fn entry_indices(entries: Seq<(usize, Erased)>) -> Seq<usize> {
    entries.map_values(|e: (usize, Erased)| e.0)
}

impl<A: Archetype> ComponentMap<A> {
    /// The keys of the simple component types in the map.
    pub closed spec fn simple_keys(&self) -> Set<u64> {
        self.simple@.dom()
    }

    /// The keys of the isotope component types in the map.
    pub closed spec fn isotope_keys(&self) -> Set<u64> {
        self.isotope@.dom()
    }

    /// The discriminant indices of the isotope components with key `key`, in insertion order.
    pub closed spec fn isotope_discrims(&self, key: u64) -> Seq<usize> {
        if self.isotope@.dom().contains(key) {
            entry_indices(self.isotope@[key]@)
        } else {
            Seq::empty()
        }
    }

    /// Creates an empty map.
    pub fn new() -> (r: Self)
        ensures
            r.simple_keys().is_empty(),
            r.isotope_keys().is_empty(),
    {
        let r = ComponentMap { simple: HashMap::new(), isotope: HashMap::new(), _ph: PhantomData };
        proof {
            assert(r.simple@.dom() =~= Set::empty());
            assert(r.isotope@.dom() =~= Set::empty());
        }
        r
    }

    /// Inserts a simple component into the map.
    ///
    /// The same simple component type cannot be inserted into the same map twice.
    pub fn insert_simple<C: Simple<A>>(&mut self, comp: C)
        requires
            !old(self).simple_keys().contains(C::KEY),
        ensures
            final(self).simple_keys() == old(self).simple_keys().insert(C::KEY),
            final(self).isotope_keys() == old(self).isotope_keys(),
    {
        broadcast use vstd::std_specs::hash::group_hash_axioms;

        let _ = self.simple.insert(C::KEY, erase(comp));
    }

    /// Inserts an isotope component into the map, after those of its type inserted before.
    ///
    /// Every insertion is kept, also one whose discriminant was inserted before.
    pub fn insert_isotope<C: Isotope<A>>(&mut self, discrim: C::Discrim, comp: C)
        ensures
            final(self).isotope_keys() == old(self).isotope_keys().insert(C::KEY),
            final(self).simple_keys() == old(self).simple_keys(),
            final(self).isotope_discrims(C::KEY) == old(self).isotope_discrims(C::KEY).push(discrim.index()),
            forall|key: u64| key != C::KEY ==> #[trigger] final(self).isotope_discrims(key) == old(self).isotope_discrims(key),
    {
        broadcast use vstd::std_specs::hash::group_hash_axioms;

        let key = C::KEY;
        let index = discrim.into_usize();
        let mut list = match self.isotope.remove(&key) {
            Some(list) => list,
            None => Vec::new(),
        };
        let ghost before = list@;
        list.push((index, erase((discrim, comp))));
        proof {
            assert(entry_indices(list@) =~= entry_indices(before).push(index));
            if !old(self).isotope@.dom().contains(key) {
                assert(entry_indices(before) =~= Seq::<usize>::empty());
            }
        }
        self.isotope.insert(key, list);
        proof {
            assert(self.isotope@.dom() =~= old(self).isotope@.dom().insert(key));
        }
    }

    /// Gets a simple component from the map, if one of its type was inserted.
    pub fn get_simple<C: Simple<A>>(&self) -> (r: Option<&C>)
        ensures
            !self.simple_keys().contains(C::KEY) ==> r is None,
    {
        broadcast use vstd::std_specs::hash::group_hash_axioms;

        match self.simple.get(&C::KEY) {
            Some(erased) => downcast_ref::<C>(erased),
            None => None,
        }
    }

    /// Removes the simple component of type `C` from the map, returning it if one was inserted.
    pub fn remove_simple<C: Simple<A>>(&mut self) -> (r: Option<C>)
        ensures
            final(self).simple_keys() == old(self).simple_keys().remove(C::KEY),
            final(self).isotope_keys() == old(self).isotope_keys(),
            !old(self).simple_keys().contains(C::KEY) ==> r is None,
    {
        broadcast use vstd::std_specs::hash::group_hash_axioms;

        let r = match self.simple.remove(&C::KEY) {
            Some(erased) => take_erased::<C>(erased),
            None => None,
        };
        proof {
            assert(self.simple@.dom() =~= old(self).simple@.dom().remove(C::KEY));
        }
        r
    }

    /// Removes the isotope components of type `C` from the map,
    /// returning their discriminants and values in insertion order.
    pub fn remove_isotope<C: Isotope<A>>(&mut self) -> (r: Vec<(C::Discrim, C)>)
        ensures
            final(self).isotope_keys() == old(self).isotope_keys().remove(C::KEY),
            final(self).simple_keys() == old(self).simple_keys(),
            !old(self).isotope_keys().contains(C::KEY) ==> r@.len() == 0,
            r@.len() <= old(self).isotope_discrims(C::KEY).len(),
            final(self).isotope_discrims(C::KEY) == Seq::<usize>::empty(),
            forall|key: u64| key != C::KEY ==> #[trigger] final(self).isotope_discrims(key) == old(self).isotope_discrims(key),
    {
        broadcast use vstd::std_specs::hash::group_hash_axioms;

        let mut list = match self.isotope.remove(&C::KEY) {
            Some(list) => list,
            None => Vec::new(),
        };
        let ghost n = list@.len();
        proof {
            if old(self).isotope@.dom().contains(C::KEY) {
                assert(entry_indices(list@).len() == n);
            }
        }
        let mut r: Vec<(C::Discrim, C)> = Vec::new();
        while list.len() > 0
            invariant
                r@.len() + list@.len() <= n,
            decreases list@.len(),
        {
            let (_, erased) = list.remove(0);
            match take_erased::<(C::Discrim, C)>(erased) {
                Some(entry) => r.push(entry),
                None => {},
            }
        }
        proof {
            assert(self.isotope@.dom() =~= old(self).isotope@.dom().remove(C::KEY));
        }
        r
    }

    /// Computes the simple component `C` from the simple component `P` in the map
    /// and inserts it, unless `P` is missing.
    ///
    /// Returns whether `C` was inserted.
    pub fn populate<P: Simple<A>, C: Simple<A>, F: Fn(&P) -> C>(&mut self, init: &F) -> (r: bool)
        requires
            !old(self).simple_keys().contains(C::KEY),
            forall|p: &P| #[trigger] init.requires((p,)),
        ensures
            r ==> old(self).simple_keys().contains(P::KEY),
            final(self).simple_keys() == if r {
                old(self).simple_keys().insert(C::KEY)
            } else {
                old(self).simple_keys()
            },
            final(self).isotope_keys() == old(self).isotope_keys(),
    {
        let value = match self.get_simple::<P>() {
            Some(dep) => init(dep),
            None => {
                return false;
            },
        };
        self.insert_simple(value);
        true
    }

    /// The number of simple components.
    pub fn simple_len(&self) -> (r: usize)
        ensures
            r == self.simple_keys().len(),
    {
        broadcast use vstd::std_specs::hash::group_hash_axioms;

        self.simple.len()
    }

    /// The number of distinct isotope component types.
    pub fn isotope_type_count(&self) -> (r: usize)
        ensures
            r == self.isotope_keys().len(),
    {
        broadcast use vstd::std_specs::hash::group_hash_axioms;

        self.isotope.len()
    }
}

impl<A: Archetype> Default for ComponentMap<A> {
    fn default() -> (r: Self)
        ensures
            r.simple_keys().is_empty(),
            r.isotope_keys().is_empty(),
    {
        ComponentMap::new()
    }
}

} // verus!
