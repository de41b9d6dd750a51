//! Discriminants distinguish different isotopes of the same component type.

use vstd::prelude::*;

verus! {

/// A discriminant value that distinguishes different isotopes of the same component type.
///
/// A discriminant has a one-to-one mapping to `usize`,
/// which is used to represent the discriminant in type-erased code (such as scheduling)
/// and for indexing storages during all-isotopes access.
pub trait Discrim: Copy + Eq + 'static {
    /// The `usize` that this discriminant maps to.
    spec fn index(self) -> usize;

    /// Whether `u` is the `usize` of some discriminant.
    spec fn supports(u: usize) -> bool;

    /// Two discriminants are equal if and only if they map to the same `usize`.
    proof fn lemma_one_to_one(a: Self, b: Self)
        requires
            a.index() == b.index(),
        ensures
            a == b,
    ;

    /// Constructs a discriminant from the usize, the inverse of [`into_usize`](Self::into_usize).
    fn from_usize(u: usize) -> (r: Self)
        requires
            Self::supports(u),
        ensures
            r.index() == u,
    ;

    /// Converts the discriminant to a usize, the inverse of [`from_usize`](Self::from_usize).
    fn into_usize(self) -> (r: usize)
        ensures
            r == self.index(),
            Self::supports(r),
    ;
}

impl Discrim for usize {
    open spec fn index(self) -> usize {
        self
    }

    open spec fn supports(u: usize) -> bool {
        true
    }

    proof fn lemma_one_to_one(a: Self, b: Self) {
    }

    fn from_usize(u: usize) -> (r: Self) {
        u
    }

    fn into_usize(self) -> (r: usize) {
        self
    }
}

/// A set of discriminants, used for specifying partial isotope access.
pub trait DiscrimSet<D: Discrim> {
    /// The discriminants in this set, in order.
    spec fn members(&self) -> Seq<D>;

    /// Lists the discriminants in this set.
    fn iter(&self) -> (r: Vec<D>)
        ensures
            r@ == self.members(),
    ;

    /// Pairs each discriminant with the value that `func` computes from it.
    fn map<U, F: Fn(D) -> U>(&self, func: F) -> (r: Vec<(D, U)>)
        requires
            forall|d: D| #[trigger] func.requires((d,)),
        ensures
            r@.len() == self.members().len(),
            forall|i: int|
                0 <= i < r@.len() ==> {
                    &&& (#[trigger] r@[i]).0 == self.members()[i]
                    &&& func.ensures((self.members()[i],), r@[i].1)
                },
    ;
}

/// Pairs each discriminant of `members` with the value that `func` computes from it.
fn map_members<D: Discrim, U, F: Fn(D) -> U>(members: &[D], func: F) -> (r: Vec<(D, U)>)
    requires
        forall|d: D| #[trigger] func.requires((d,)),
    ensures
        r@.len() == members@.len(),
        forall|i: int|
            0 <= i < r@.len() ==> {
                &&& (#[trigger] r@[i]).0 == members@[i]
                &&& func.ensures((members@[i],), r@[i].1)
            },
{
    let mut out: Vec<(D, U)> = Vec::new();
    let mut i: usize = 0;
    while i < members.len()
        invariant
            0 <= i <= members@.len(),
            out@.len() == i,
            forall|d: D| #[trigger] func.requires((d,)),
            forall|j: int|
                0 <= j < i ==> {
                    &&& (#[trigger] out@[j]).0 == members@[j]
                    &&& func.ensures((members@[j],), out@[j].1)
                },
        decreases members@.len() - i,
    {
        let d = members[i];
        let value = func(d);
        out.push((d, value));
        i += 1;
    }
    out
}

/// Copies the discriminants of `members`.
fn copy_members<D: Discrim>(members: &[D]) -> (r: Vec<D>)
    ensures
        r@ == members@,
{
    let mut out: Vec<D> = Vec::new();
    let mut i: usize = 0;
    while i < members.len()
        invariant
            0 <= i <= members@.len(),
            out@ == members@.take(i as int),
        decreases members@.len() - i,
    {
        out.push(members[i]);
        proof {
            assert(members@.take(i + 1) =~= members@.take(i as int).push(members@[i as int]));
        }
        i += 1;
    }
    proof {
        assert(members@.take(members@.len() as int) =~= members@);
    }
    out
}

impl<D: Discrim, const N: usize> DiscrimSet<D> for [D; N] {
    open spec fn members(&self) -> Seq<D> {
        self@
    }

    fn iter(&self) -> (r: Vec<D>) {
        copy_members(self.as_slice())
    }

    fn map<U, F: Fn(D) -> U>(&self, func: F) -> (r: Vec<(D, U)>) {
        map_members(self.as_slice(), func)
    }
}

impl<D: Discrim> DiscrimSet<D> for Vec<D> {
    open spec fn members(&self) -> Seq<D> {
        self@
    }

    fn iter(&self) -> (r: Vec<D>) {
        copy_members(self.as_slice())
    }

    fn map<U, F: Fn(D) -> U>(&self, func: F) -> (r: Vec<(D, U)>) {
        map_members(self.as_slice(), func)
    }
}

/// A data structure derived from a [discriminant set](DiscrimSet)
/// that can efficiently access an item using [`Key`](Self::Key),
/// which is based on the shape of the set.
pub trait Mapped {
    /// The discriminant type.
    type Discrim: Discrim;

    /// The type used for indexing data.
    type Key;

    /// The type of the values.
    type Value;

    /// The discriminants and values, in order.
    spec fn entries(&self) -> Seq<(Self::Discrim, Self::Value)>;

    /// The position in [`entries`](Self::entries) that `key` selects, if any.
    spec fn position(&self, key: Self::Key) -> Option<int>;

    /// Gets a shared reference to an element.
    fn get_by(&self, key: &Self::Key) -> (r: Option<&Self::Value>)
        ensures
            match self.position(*key) {
                Some(i) => 0 <= i < self.entries().len() && r is Some && *r->0 == self.entries()[i].1,
                None => r is None,
            },
    ;

    /// Gets a mutable reference to an element.
    fn get_mut_by(&mut self, key: &Self::Key) -> (r: Option<&mut Self::Value>)
        ensures
            match old(self).position(*key) {
                Some(i) => {
                    &&& 0 <= i < old(self).entries().len()
                    &&& r is Some
                    &&& *r->0 == old(self).entries()[i].1
                    &&& final(self).entries() == old(self).entries().update(
                        i,
                        (old(self).entries()[i].0, *final(r->0)),
                    )
                },
                None => r is None && final(self).entries() == old(self).entries(),
            },
    ;

    /// Lists the discriminants with references to their values.
    fn iter(&self) -> (r: Vec<(Self::Discrim, &Self::Value)>)
        ensures
            r@.len() == self.entries().len(),
            forall|i: int|
                0 <= i < r@.len() ==> (#[trigger] r@[i]).0 == self.entries()[i].0 && *r@[i].1
                    == self.entries()[i].1,
    ;
}

/// Lists the discriminants of `entries` with references to their values.
fn iter_entries<D: Discrim, V>(entries: &[(D, V)]) -> (r: Vec<(D, &V)>)
    ensures
        r@.len() == entries@.len(),
        forall|i: int| 0 <= i < r@.len() ==> (#[trigger] r@[i]).0 == entries@[i].0 && *r@[i].1 == entries@[i].1,
{
    let mut out: Vec<(D, &V)> = Vec::new();
    let mut i: usize = 0;
    while i < entries.len()
        invariant
            0 <= i <= entries@.len(),
            out@.len() == i,
            forall|j: int| 0 <= j < i ==> (#[trigger] out@[j]).0 == entries@[j].0 && *out@[j].1 == entries@[j].1,
        decreases entries@.len() - i,
    {
        let entry = &entries[i];
        out.push((entry.0, &entry.1));
        i += 1;
    }
    out
}

impl<D: Discrim, V, const N: usize> Mapped for [(D, V); N] {
    type Discrim = D;
    type Key = usize;
    type Value = V;

    open spec fn entries(&self) -> Seq<(D, V)> {
        self@
    }

    open spec fn position(&self, key: usize) -> Option<int> {
        if key < N {
            Some(key as int)
        } else {
            None
        }
    }

    fn get_by(&self, key: &usize) -> (r: Option<&V>) {
        if *key < N {
            Some(&self[*key].1)
        } else {
            None
        }
    }

    fn get_mut_by(&mut self, key: &usize) -> (r: Option<&mut V>) {
        if *key < N {
            Some(&mut self[*key].1)
        } else {
            None
        }
    }

    fn iter(&self) -> (r: Vec<(D, &V)>) {
        iter_entries(self.as_slice())
    }
}

impl<D: Discrim, V> Mapped for Vec<(D, V)> {
    type Discrim = D;
    type Key = usize;
    type Value = V;

    open spec fn entries(&self) -> Seq<(D, V)> {
        self@
    }

    open spec fn position(&self, key: usize) -> Option<int> {
        if key < self@.len() {
            Some(key as int)
        } else {
            None
        }
    }

    fn get_by(&self, key: &usize) -> (r: Option<&V>) {
        if *key < self.len() {
            Some(&self[*key].1)
        } else {
            None
        }
    }

    fn get_mut_by(&mut self, key: &usize) -> (r: Option<&mut V>) {
        if *key < self.len() {
            Some(&mut self[*key].1)
        } else {
            None
        }
    }

    fn iter(&self) -> (r: Vec<(D, &V)>) {
        iter_entries(self.as_slice())
    }
}

/// Values of isotopes kept in a vector of pairs, searched linearly by discriminant.
pub struct LinearVecMap<D: Discrim, T> {
    vec: Vec<(D, T)>,
}

/// Values of isotopes kept in a vector of pairs, sorted by the `usize` of the discriminant.
pub struct SortedVecMap<D: Discrim, T> {
    vec: Vec<(D, T)>,
}

/// Values of isotopes kept in a vector indexed by the `usize` of the discriminant.
pub struct BoundedVecMap<D: Discrim, T> {
    vec: Vec<T>,
    _ph: std::marker::PhantomData<D>,
}

} // verus!
