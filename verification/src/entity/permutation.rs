//! Permutations that rearrange the entities of an archetype.

use std::cmp::Ordering;

use vstd::prelude::*;
use vstd::std_specs::cmp::OrdSpec;

use super::referrer::sealed::Sealed;
use super::referrer::{
    visit_all, HeldRef, Referrer, VisitMutArg, VisitStrongArgs, VisitStrongResult, VisitWeakArgs, VisitWeakResult,
};
use super::sort::{placed_before, sort_ids_by, sorted_by};

verus! {

broadcast use {vstd::seq_lib::group_to_multiset_ensures, vstd::multiset::group_multiset_axioms};

/// A permutation of entities: the entity at an original position moves to its permuted position.
pub struct Permutation {
    index: Vec<Option<u32>>,
}

/// Whether the comparator was seen to place `x` no later than `y`:
/// it answered `Less` or `Equal` for `(x, y)`, or `Greater` for `(y, x)`.
pub open spec fn comparator_places_before<F: Fn(u32, u32) -> Ordering>(f: F, x: u32, y: u32) -> bool {
    ||| exists|r: Ordering| #[trigger] f.ensures((x, y), r) && !(r is Greater)
    ||| exists|r: Ordering| #[trigger] f.ensures((y, x), r) && r is Greater
}

/// Whether the mapper was seen to give `x` a key no greater than that of `y`,
/// for a key type whose comparison follows its specification.
pub open spec fn key_places_before<T: Ord, M: Fn(u32) -> T>(mapper: M, x: u32, y: u32) -> bool {
    exists|kx: T, ky: T|
        #![trigger mapper.ensures((x,), kx), mapper.ensures((y,), ky)]
        {
            &&& mapper.ensures((x,), kx)
            &&& mapper.ensures((y,), ky)
            &&& T::obeys_cmp_spec() ==> (!(kx.cmp_spec(&ky) is Greater) || ky.cmp_spec(&kx) is Greater)
        }
}

/// Whether `o` is what comparing the keys that the mapper gave `x` and `y` answers,
/// for a key type whose comparison follows its specification.
pub open spec fn keys_compare<T: Ord, M: Fn(u32) -> T>(mapper: M, x: u32, y: u32, o: Ordering) -> bool {
    exists|kx: T, ky: T|
        #![trigger mapper.ensures((x,), kx), mapper.ensures((y,), ky)]
        {
            &&& mapper.ensures((x,), kx)
            &&& mapper.ensures((y,), ky)
            &&& T::obeys_cmp_spec() ==> o == kx.cmp_spec(&ky)
        }
}

/// The largest ID in the sequence, or 0 for an empty one.
pub open spec fn max_id(s: Seq<u32>) -> int
    decreases s.len(),
{
    if s.len() == 0 {
        0
    } else {
        let rest = max_id(s.drop_last());
        if s.last() > rest {
            s.last() as int
        } else {
            rest
        }
    }
}

proof fn lemma_max_id(s: Seq<u32>)
    ensures
        forall|k: int| 0 <= k < s.len() ==> s[k] <= max_id(s),
        s.len() > 0 ==> exists|k: int| 0 <= k < s.len() && s[k] == max_id(s),
        max_id(s) >= 0,
    decreases s.len(),
{
    if s.len() > 0 {
        lemma_max_id(s.drop_last());
        if s.last() <= max_id(s.drop_last()) && s.len() > 1 {
            let k = choose|k: int| 0 <= k < s.drop_last().len() && s.drop_last()[k] == max_id(s.drop_last());
            assert(s[k] == max_id(s));
        }
        assert forall|k: int| 0 <= k < s.len() implies s[k] <= max_id(s) by {
            if k < s.len() - 1 {
                assert(s[k] == s.drop_last()[k]);
            }
        }
    }
}

impl Permutation {
    /// The permuted position of each original position, if it takes part.
    pub closed spec fn spec_index(&self) -> Seq<Option<u32>> {
        self.index@
    }

    /// Whether this permutation moves the entity at `order[k]` to position `k + 1`,
    /// covering exactly the positions in `order`.
    pub open spec fn built_from(&self, order: Seq<u32>) -> bool {
        let index = self.spec_index();
        &&& index.len() == if order.len() == 0 { 0 } else { max_id(order) + 1 }
        &&& forall|k: int| 0 <= k < order.len() ==> #[trigger] index[order[k] as int] is Some
        &&& forall|x: int|
            0 <= x < index.len() && #[trigger] index[x] is Some ==> {
                let p = index[x]->0;
                &&& 1 <= p <= order.len()
                &&& order[p - 1] == x
            }
        &&& order.no_duplicates() ==> forall|k: int|
            0 <= k < order.len() ==> #[trigger] index[order[k] as int] == Some((k + 1) as u32)
    }

    /// A permutation is one-to-one:
    /// distinct original positions move to distinct permuted positions.
    /// (That every position from 1 to the length of an order without repeats is a target
    /// is part of [`built_from`](Self::built_from).)
    pub proof fn lemma_one_to_one(&self, order: Seq<u32>)
        requires
            self.built_from(order),
        ensures
            forall|x: int, y: int|
                0 <= x < self.spec_index().len() && 0 <= y < self.spec_index().len() && x != y
                    && #[trigger] self.spec_index()[x] is Some && #[trigger] self.spec_index()[y] is Some
                    ==> self.spec_index()[x] != self.spec_index()[y],
    {
    }

    /// Builds the permutation that moves the entity at `inverse[k]` to position `k + 1`.
    fn from_sorted(inverse: Vec<u32>) -> (r: Self)
        requires
            inverse@.len() < u32::MAX,
            forall|k: int| 0 <= k < inverse@.len() ==> #[trigger] inverse@[k] < usize::MAX,
        ensures
            r.built_from(inverse@),
    {
        let ghost order = inverse@;
        if inverse.len() == 0 {
            return Permutation { index: Vec::new() };
        }
        proof {
            lemma_max_id(order);
        }
        // the largest original position plus one is the size of the index
        let mut max: u32 = 0;
        let mut k: usize = 0;
        while k < inverse.len()
            invariant
                0 <= k <= order.len(),
                order == inverse@,
                max == max_id(order.take(k as int)),
            decreases order.len() - k,
        {
            proof {
                assert(order.take(k + 1).drop_last() =~= order.take(k as int));
            }
            if inverse[k] > max {
                max = inverse[k];
            }
            k += 1;
        }
        proof {
            assert(order.take(order.len() as int) =~= order);
            let m = choose|k: int| 0 <= k < order.len() && order[k] == max_id(order);
        }
        let index_len = max as usize + 1;
        let mut index: Vec<Option<u32>> = Vec::new();
        while index.len() < index_len
            invariant
                index@.len() <= index_len,
                forall|x: int| 0 <= x < index@.len() ==> #[trigger] index@[x] is None,
            decreases index_len - index@.len(),
        {
            index.push(None);
        }
        let mut k: usize = 0;
        while k < inverse.len()
            invariant
                0 <= k <= order.len(),
                order == inverse@,
                order.len() < u32::MAX,
                index@.len() == index_len,
                index_len == max_id(order) + 1,
                forall|t: int| 0 <= t < order.len() ==> #[trigger] order[t] <= max_id(order),
                forall|t: int| 0 <= t < k ==> #[trigger] index@[order[t] as int] is Some,
                forall|x: int|
                    0 <= x < index@.len() && #[trigger] index@[x] is Some ==> {
                        let p = index@[x]->0;
                        &&& 1 <= p <= k
                        &&& order[p - 1] == x
                    },
                order.no_duplicates() ==> forall|t: int|
                    0 <= t < k ==> #[trigger] index@[order[t] as int] == Some((t + 1) as u32),
            decreases order.len() - k,
        {
            let original = inverse[k] as usize;
            let permuted = (k + 1) as u32;
            index.set(original, Some(permuted));
            proof {
                if order.no_duplicates() {
                    assert forall|t: int| 0 <= t < k + 1 implies #[trigger] index@[order[t] as int] == Some((t + 1) as u32) by {
                        if t < k {
                            assert(order[t] != order[k as int]);
                        }
                    }
                }
            }
            k += 1;
        }
        Permutation { index }
    }

    /// Creates a new permutation with a comparator on raw entity positions.
    ///
    /// The positions are sorted by the comparator, and the `k`-th of them moves to position `k + 1`.
    pub fn from_comparator<F: Fn(u32, u32) -> Ordering>(positions: Vec<u32>, comparator: F) -> (r: Self)
        requires
            forall|a: u32, b: u32| #[trigger] comparator.requires((a, b)),
            positions@.len() < u32::MAX,
            forall|k: int| 0 <= k < positions@.len() ==> #[trigger] positions@[k] < usize::MAX,
        ensures
            exists|order: Seq<u32>|
                #![trigger r.built_from(order)]
                {
                    &&& order.to_multiset() == positions@.to_multiset()
                    &&& forall|k: int|
                        0 <= k < order.len() - 1 ==> #[trigger] comparator_places_before(comparator, order[k], order[k + 1])
                    &&& r.built_from(order)
                },
    {
        let compare = &comparator;
        let goes_after = |a: u32, b: u32| -> (after: bool)
            requires
                compare.requires((a, b)),
            ensures
                exists|o: Ordering| compare.ensures((a, b), o) && after == (o is Greater),
            {
                match compare(a, b) {
                    Ordering::Greater => true,
                    _ => false,
                }
            };
        let ghost input = positions@;
        let inverse = sort_ids_by(positions, &goes_after);
        proof {
            let order = inverse@;
            assert(order.len() == input.len()) by {
                assert(order.to_multiset().len() == input.to_multiset().len());
            }
            assert forall|k: int| 0 <= k < order.len() - 1 implies #[trigger] comparator_places_before(
                comparator,
                order[k],
                order[k + 1],
            ) by {
                assert(placed_before(goes_after, order[k], order[k + 1]));
            }
            assert forall|k: int| 0 <= k < order.len() implies #[trigger] order[k] < usize::MAX by {
                assert(order.to_multiset().count(order[k]) > 0);
                assert(input.contains(order[k]));
            }
        }
        Permutation::from_sorted(inverse)
    }

    /// Creates a new permutation by mapping raw entity positions to a comparable key.
    ///
    /// The positions are sorted by key, and the `k`-th of them moves to position `k + 1`.
    pub fn from_mapper<T: Ord, M: Fn(u32) -> T>(positions: Vec<u32>, mapper: M) -> (r: Self)
        requires
            forall|a: u32| #[trigger] mapper.requires((a,)),
            positions@.len() < u32::MAX,
            forall|k: int| 0 <= k < positions@.len() ==> #[trigger] positions@[k] < usize::MAX,
        ensures
            exists|order: Seq<u32>|
                #![trigger r.built_from(order)]
                {
                    &&& order.to_multiset() == positions@.to_multiset()
                    &&& forall|k: int|
                        0 <= k < order.len() - 1 ==> #[trigger] key_places_before(mapper, order[k], order[k + 1])
                    &&& r.built_from(order)
                },
    {
        let key_of = &mapper;
        let by_key = |a: u32, b: u32| -> (o: Ordering)
            requires
                key_of.requires((a,)),
                key_of.requires((b,)),
            ensures
                keys_compare(key_of, a, b, o),
            {
                let ka = key_of(a);
                let kb = key_of(b);
                let o = ka.cmp(&kb);
                assert(key_of.ensures((a,), ka) && key_of.ensures((b,), kb));
                assert(T::obeys_cmp_spec() ==> o == ka.cmp_spec(&kb));
                assert(keys_compare(key_of, a, b, o));
                o
            };
        let r = Permutation::from_comparator(positions, by_key);
        proof {
            let order = choose|order: Seq<u32>|
                #![trigger r.built_from(order)]
                {
                    &&& order.to_multiset() == positions@.to_multiset()
                    &&& forall|k: int|
                        0 <= k < order.len() - 1 ==> #[trigger] comparator_places_before(by_key, order[k], order[k + 1])
                    &&& r.built_from(order)
                };
            assert forall|k: int| 0 <= k < order.len() - 1 implies #[trigger] key_places_before(
                mapper,
                order[k],
                order[k + 1],
            ) by {
                assert(comparator_places_before(by_key, order[k], order[k + 1]));
                if exists|o: Ordering| #[trigger] by_key.ensures((order[k], order[k + 1]), o) && !(o is Greater) {
                    let o = choose|o: Ordering| #[trigger] by_key.ensures((order[k], order[k + 1]), o) && !(o is Greater);
                    assert(keys_compare(key_of, order[k], order[k + 1], o));
                    let (kx, ky) = choose|kx: T, ky: T|
                        #![trigger key_of.ensures((order[k],), kx), key_of.ensures((order[k + 1],), ky)]
                        key_of.ensures((order[k],), kx) && key_of.ensures((order[k + 1],), ky) && (T::obeys_cmp_spec()
                            ==> o == kx.cmp_spec(&ky));
                    assert(mapper.ensures((order[k],), kx) && mapper.ensures((order[k + 1],), ky));
                } else {
                    let o = choose|o: Ordering| #[trigger] by_key.ensures((order[k + 1], order[k]), o) && o is Greater;
                    assert(keys_compare(key_of, order[k + 1], order[k], o));
                    let (ky, kx) = choose|ky: T, kx: T|
                        #![trigger key_of.ensures((order[k + 1],), ky), key_of.ensures((order[k],), kx)]
                        key_of.ensures((order[k + 1],), ky) && key_of.ensures((order[k],), kx) && (T::obeys_cmp_spec()
                            ==> o == ky.cmp_spec(&kx));
                    assert(mapper.ensures((order[k],), kx) && mapper.ensures((order[k + 1],), ky));
                }
            }
        }
        r
    }

    /// The permuted position of the entity at `original`.
    pub fn get(&self, original: u32) -> (r: u32)
        requires
            original < self.spec_index().len(),
            self.spec_index()[original as int] is Some,
        ensures
            Some(r) == self.spec_index()[original as int],
    {
        match self.index[original as usize] {
            Some(permuted) => permuted,
            None => vstd::pervasive::unreached(),
        }
    }

    /// Whether the entity at `original` takes part in the permutation.
    pub open spec fn covers(&self, original: u32) -> bool {
        original < self.spec_index().len() && self.spec_index()[original as int] is Some
    }

    /// A reference after the entities of the archetype with key `archetype` were permuted.
    pub open spec fn permute_ref(&self, archetype: u64, r: HeldRef) -> HeldRef {
        if r.archetype == archetype {
            HeldRef { archetype: r.archetype, raw: self.spec_index()[r.raw as int]->0, strong: r.strong }
        } else {
            r
        }
    }

    /// Updates the references that a referrer holds to entities of the archetype with key `archetype`.
    ///
    /// Each such reference moves to the permuted position of its entity;
    /// references to other archetypes and everything else the referrer holds are left as they are.
    pub fn update_referrer<R: Referrer>(&self, archetype: u64, referrer: &mut R)
        requires
            forall|k: int|
                0 <= k < old(referrer).refs().len() && (#[trigger] old(referrer).refs()[k]).archetype == archetype
                    ==> self.covers(old(referrer).refs()[k].raw),
        ensures
            final(referrer).refs() == old(referrer).refs().map_values(|r: HeldRef| self.permute_ref(archetype, r)),
            old(referrer).same_apart_from_refs(&*final(referrer)),
    {
        let mut visitor = Permuter { index: &self.index, archetype };
        proof {
            self.lemma_permuter(archetype, referrer.refs());
        }
        referrer.visit_mut(&mut visitor);
    }

    proof fn lemma_permuter(&self, archetype: u64, refs: Seq<HeldRef>)
        requires
            forall|k: int|
                0 <= k < refs.len() && (#[trigger] refs[k]).archetype == archetype ==> self.covers(refs[k].raw),
        ensures
            visit_all::<Permuter>((archetype, self.index@), refs) == ((archetype, self.index@), refs.map_values(
                |r: HeldRef| self.permute_ref(archetype, r),
            )),
        decreases refs.len(),
    {
        if refs.len() > 0 {
            assert forall|k: int|
                0 <= k < refs.drop_last().len() && (#[trigger] refs.drop_last()[k]).archetype == archetype implies self.covers(
                refs.drop_last()[k].raw,
            ) by {
                assert(refs.drop_last()[k] == refs[k]);
            }
            self.lemma_permuter(archetype, refs.drop_last());
            let last = refs.last();
            assert(refs[refs.len() - 1] == last);
            assert(refs.map_values(|r: HeldRef| self.permute_ref(archetype, r)) =~= refs.drop_last().map_values(
                |r: HeldRef| self.permute_ref(archetype, r),
            ).push(self.permute_ref(archetype, last)));
        } else {
            assert(refs.map_values(|r: HeldRef| self.permute_ref(archetype, r)) =~= Seq::<HeldRef>::empty());
        }
    }

    /// Updates an entity reference with the permutation.
    pub fn update(&self, entity: &mut u32)
        requires
            *old(entity) < self.spec_index().len(),
            self.spec_index()[*old(entity) as int] is Some,
        ensures
            Some(*final(entity)) == self.spec_index()[*old(entity) as int],
    {
        *entity = self.get(*entity);
    }
}

/// Moves the references to one archetype's entities to their permuted positions.
struct Permuter<'t> {
    index: &'t Vec<Option<u32>>,
    archetype: u64,
}

/// The new raw ID of a reference after permuting the archetype `m.0` with the index `m.1`.
pub open spec fn permuted_raw(m: (u64, Seq<Option<u32>>), archetype: u64, raw: usize) -> usize {
    if archetype == m.0 && raw < m.1.len() && m.1[raw as int] is Some {
        m.1[raw as int]->0 as usize
    } else {
        raw
    }
}

impl<'t> Permuter<'t> {
    fn permute(&self, archetype: u64, raw: usize) -> (r: usize)
        ensures
            r == permuted_raw((self.archetype, self.index@), archetype, raw),
            raw <= u32::MAX ==> r <= u32::MAX,
    {
        if archetype == self.archetype && raw < self.index.len() {
            match self.index[raw] {
                Some(permuted) => permuted as usize,
                None => raw,
            }
        } else {
            raw
        }
    }
}

impl<'t> Sealed for Permuter<'t> {

}

impl<'t> VisitMutArg for Permuter<'t> {
    /// The permuted archetype and the permutation's index.
    type Model = (u64, Seq<Option<u32>>);

    closed spec fn model(&self) -> Self::Model {
        (self.archetype, self.index@)
    }

    open spec fn strong_step(m: Self::Model, archetype: u64, raw: usize) -> (Self::Model, usize) {
        (m, permuted_raw(m, archetype, raw))
    }

    open spec fn weak_step(m: Self::Model, archetype: u64, raw: usize) -> (Self::Model, usize) {
        (m, permuted_raw(m, archetype, raw))
    }

    open spec fn named(m: Self::Model, name: Seq<char>) -> Self::Model {
        m
    }

    fn _visit_strong(&mut self, args: VisitStrongArgs) -> (r: VisitStrongResult) {
        VisitStrongResult { new_raw: self.permute(args.archetype, args.raw) }
    }

    fn _visit_weak(&mut self, args: VisitWeakArgs) -> (r: VisitWeakResult) {
        VisitWeakResult { new_raw: self.permute(args.archetype, args.raw) }
    }

    fn _set_debug_name(&mut self, name: String) {
    }
}

} // verus!
