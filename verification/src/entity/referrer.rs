//! Tracks entity references owned by components and globals.
//! See [`Referrer`] for more information.

use std::any::TypeId;
use std::collections::HashSet;
use std::marker::PhantomData;
use std::ops::ControlFlow;

use vstd::prelude::*;

use super::{Entity, Ref, Weak};
use crate::Archetype;

pub mod sealed;
pub mod search_single;
mod std_impl;

pub use search_single::SearchSingleStrong;
pub use std_impl::all_refs;

verus! {

#[verifier::external_type_specification]
#[verifier::external_body]
pub struct ExTypeId(TypeId);

/// `std::any::TypeId::of`: the identifier of a type. Nothing is stated of the value.
#[verifier::external_body]
fn type_id_of<T: ?Sized + 'static>() -> TypeId {
    TypeId::of::<T>()
}

/// `PartialEq::eq` of `std::any::TypeId`: two identifiers compare equal exactly when
/// they are the same value.
#[verifier::external_body]
fn same_type(a: &TypeId, b: &TypeId) -> (r: bool)
    ensures
        r == (*a == *b),
{
    *a == *b
}

/// One entity reference held by a referrer.
#[derive(Clone, Copy, Debug, PartialEq, Eq, Structural)]
pub struct HeldRef {
    /// The key of the archetype that the referenced entity belongs to.
    pub archetype: u64,
    /// The raw ID of the referenced entity.
    pub raw: u32,
    /// Whether this is a strong reference (an [`Entity`]) rather than a [`Weak`] one.
    pub strong: bool,
}

/// A type that may own entity references (no matter strong or weak).
///
/// Implementors should only forward the arg reference to implementors in their member fields,
/// where the actual logic is eventually implemented by
/// owned [`Entity`] and [`Weak`] fields.
///
/// Each entity reference must be visited exactly once,
/// which is why ref-counted containers cannot be referrers.
pub trait Referrer: 'static {
    /// The entity references held by this value, in the order [`visit_mut`](Self::visit_mut) visits them.
    ///
    /// The default is for types that hold no entity reference;
    /// types that hold some override it.
    open spec fn refs(&self) -> Seq<HeldRef> {
        Seq::empty()
    }

    /// Whether `other` agrees with this value in everything but the raw IDs of its references.
    ///
    /// The default, for types that hold no entity reference, is equality.
    open spec fn same_apart_from_refs(&self, other: &Self) -> bool {
        self == other
    }

    /// Whether visiting this type may take the marked types and found archetypes from `pre` to `post`.
    ///
    /// The default says only that nothing is unmarked or lost;
    /// the referrers of this library state exactly what their visit does.
    open spec fn type_visit(pre: (Set<TypeId>, Set<u64>), post: (Set<TypeId>, Set<u64>)) -> bool {
        pre.0.subset_of(post.0) && pre.1.subset_of(post.1)
    }

    /// Visit all types that may appear under this referrer.
    ///
    /// It is OK to visit the same type twice.
    /// `arg` contains an internal set that avoids recursion.
    fn visit_type(arg: &mut VisitTypeArg)
        ensures
            old(arg).found().subset_of(final(arg).found()),
            old(arg).marked().subset_of(final(arg).marked()),
            Self::type_visit(old(arg).visit_state(), final(arg).visit_state()),
    ;

    /// Executes the visitor on every strong and weak entity reference exactly once, in order,
    /// replacing each raw ID by the one the visitor returns.
    fn visit_mut<V: VisitMutArg>(&mut self, arg: &mut V)
        ensures
            (final(arg).model(), final(self).refs()) == visit_all::<V>(old(arg).model(), old(self).refs()),
            old(self).same_apart_from_refs(&*final(self)),
    ;
}

/// The argument passed to [`Referrer::visit_type`].
pub struct VisitTypeArg<'t> {
    recursion_guard: Vec<TypeId>,
    pub(crate) found_archs: HashSet<u64>,
    _ph: PhantomData<&'t ()>,
}

impl<'t> VisitTypeArg<'t> {
    /// The types marked so far.
    pub closed spec fn marked(&self) -> Set<TypeId> {
        self.recursion_guard@.to_set()
    }

    /// The keys of the archetypes found so far.
    pub closed spec fn found(&self) -> Set<u64> {
        self.found_archs@
    }

    /// The types marked and the archetypes found so far.
    pub open spec fn visit_state(&self) -> (Set<TypeId>, Set<u64>) {
        (self.marked(), self.found())
    }

    /// Creates an argument that has marked no type and found no archetype.
    pub fn new() -> (r: Self)
        ensures
            r.marked().is_empty(),
            r.found().is_empty(),
    {
        let r = VisitTypeArg { recursion_guard: Vec::new(), found_archs: HashSet::new(), _ph: PhantomData };
        proof {
            assert(r.recursion_guard@.to_set() =~= Set::empty()) by {
                assert forall|t: TypeId| !r.recursion_guard@.to_set().contains(t) by {
                    assert(!r.recursion_guard@.contains(t));
                }
            }
        }
        r
    }

    /// Marks the type `T` as visited.
    ///
    /// All types visited by this arg must call `mark` at least once to avoid recursion.
    /// Implementors should return immediately if [`ControlFlow::Break`] is returned,
    /// which happens exactly when the type was marked before.
    pub fn mark<T: ?Sized + 'static>(&mut self) -> (r: ControlFlow<(), ()>)
        ensures
            exists|t: TypeId|
                #![trigger old(self).marked().contains(t)]
                {
                    &&& final(self).marked() == old(self).marked().insert(t)
                    &&& (r is Continue <==> !old(self).marked().contains(t))
                },
            r is Continue <==> final(self).marked() != old(self).marked(),
            final(self).found() == old(self).found(),
    {
        let t = type_id_of::<T>();
        let mut i: usize = 0;
        while i < self.recursion_guard.len()
            invariant
                0 <= i <= self.recursion_guard@.len(),
                self.recursion_guard@ == old(self).recursion_guard@,
                self.found_archs@ == old(self).found_archs@,
                forall|j: int| 0 <= j < i ==> self.recursion_guard@[j] != t,
            decreases self.recursion_guard@.len() - i,
        {
            if same_type(&self.recursion_guard[i], &t) {
                proof {
                    assert(self.recursion_guard@[i as int] == t);
                    assert(old(self).marked().contains(t));
                    assert(old(self).marked().insert(t) =~= old(self).marked());
                }
                return ControlFlow::Break(());
            }
            i += 1;
        }
        let ghost before = self.recursion_guard@;
        self.recursion_guard.push(t);
        proof {
            assert(!before.contains(t));
            assert(!old(self).marked().contains(t));
            assert(self.recursion_guard@.to_set() =~= before.to_set().insert(t)) by {
                assert forall|x: TypeId| self.recursion_guard@.to_set().contains(x) implies before.to_set().insert(t).contains(x) by {
                    let j = choose|j: int| 0 <= j < self.recursion_guard@.len() && self.recursion_guard@[j] == x;
                    if j < before.len() {
                        assert(before[j] == x);
                    }
                }
                assert forall|x: TypeId| before.to_set().insert(t).contains(x) implies self.recursion_guard@.to_set().contains(x) by {
                    if x == t {
                        assert(self.recursion_guard@[before.len() as int] == t);
                    } else {
                        let j = choose|j: int| 0 <= j < before.len() && before[j] == x;
                        assert(self.recursion_guard@[j] == x);
                    }
                }
            }
            assert(self.recursion_guard@.to_set().contains(t));
        }
        ControlFlow::Continue(())
    }

    /// The keys of the archetypes found so far.
    pub fn found_archetypes(&self) -> (r: &HashSet<u64>)
        ensures
            r@ == self.found(),
    {
        &self.found_archs
    }

    /// Records that an archetype is referenced.
    fn add_archetype<A: Archetype>(&mut self)
        ensures
            final(self).found() == old(self).found().insert(A::KEY),
            final(self).marked() == old(self).marked(),
    {
        let key = A::KEY;
        self.found_archs.insert(key);
    }
}

/// The bound for arguments passed to [`Referrer::visit_mut`].
///
/// Downstream crates cannot implement this trait,
/// nor should they call any methods on this trait.
///
/// A visitor is described by its model: each visit of a reference takes the model
/// and the visited reference to a new model and the new raw ID of the reference.
pub trait VisitMutArg: sealed::Sealed + Sized {
    /// What the visitor's behaviour depends on.
    type Model;

    /// The current model of the visitor.
    spec fn model(&self) -> Self::Model;

    /// The model after visiting a strong reference, and the new raw ID of that reference.
    spec fn strong_step(m: Self::Model, archetype: u64, raw: usize) -> (Self::Model, usize);

    /// The model after visiting a weak reference, and the new raw ID of that reference.
    spec fn weak_step(m: Self::Model, archetype: u64, raw: usize) -> (Self::Model, usize);

    /// The model after the visitor was told the name of the value being visited.
    spec fn named(m: Self::Model, name: Seq<char>) -> Self::Model;

    fn _visit_strong(&mut self, args: VisitStrongArgs) -> (r: VisitStrongResult)
        ensures
            (final(self).model(), r.new_raw) == Self::strong_step(old(self).model(), args.archetype, args.raw),
            args.raw <= u32::MAX ==> r.new_raw <= u32::MAX,
    ;

    fn _visit_weak(&mut self, args: VisitWeakArgs) -> (r: VisitWeakResult)
        ensures
            (final(self).model(), r.new_raw) == Self::weak_step(old(self).model(), args.archetype, args.raw),
            args.raw <= u32::MAX ==> r.new_raw <= u32::MAX,
    ;

    fn _set_debug_name(&mut self, name: String)
        ensures
            final(self).model() == Self::named(old(self).model(), name@),
    ;
}

/// A strong reference being visited.
pub struct VisitStrongArgs {
    pub archetype: u64,
    pub raw: usize,
}

/// The new raw ID of a visited strong reference.
pub struct VisitStrongResult {
    pub new_raw: usize,
}

/// A weak reference being visited.
pub struct VisitWeakArgs {
    pub archetype: u64,
    pub raw: usize,
}

/// The new raw ID of a visited weak reference.
pub struct VisitWeakResult {
    pub new_raw: usize,
}

/// The visitor's model after one reference, and the reference with its new raw ID.
pub open spec fn visit_one<V: VisitMutArg>(m: V::Model, r: HeldRef) -> (V::Model, HeldRef) {
    let step = if r.strong {
        V::strong_step(m, r.archetype, r.raw as usize)
    } else {
        V::weak_step(m, r.archetype, r.raw as usize)
    };
    (step.0, HeldRef { archetype: r.archetype, raw: step.1 as u32, strong: r.strong })
}

/// The visitor's model after visiting `refs` in order, and the references with their new raw IDs.
pub open spec fn visit_all<V: VisitMutArg>(m: V::Model, refs: Seq<HeldRef>) -> (V::Model, Seq<HeldRef>)
    decreases refs.len(),
{
    if refs.len() == 0 {
        (m, Seq::empty())
    } else {
        let before = visit_all::<V>(m, refs.drop_last());
        let last = visit_one::<V>(before.0, refs.last());
        (last.0, before.1.push(last.1))
    }
}

/// Visiting two runs of references one after the other is visiting their concatenation.
pub proof fn lemma_visit_all_concat<V: VisitMutArg>(m: V::Model, a: Seq<HeldRef>, b: Seq<HeldRef>)
    ensures
        visit_all::<V>(m, a + b) == (
            visit_all::<V>(visit_all::<V>(m, a).0, b).0,
            visit_all::<V>(m, a).1 + visit_all::<V>(visit_all::<V>(m, a).0, b).1,
        ),
    decreases b.len(),
{
    if b.len() == 0 {
        assert(a + b =~= a);
        assert(visit_all::<V>(m, a).1 + Seq::<HeldRef>::empty() =~= visit_all::<V>(m, a).1);
    } else {
        lemma_visit_all_concat::<V>(m, a, b.drop_last());
        assert((a + b).drop_last() =~= a + b.drop_last());
        let mid = visit_all::<V>(m, a);
        let rest = visit_all::<V>(mid.0, b.drop_last());
        let last = visit_one::<V>(rest.0, b.last());
        assert((mid.1 + rest.1).push(last.1) =~= mid.1 + rest.1.push(last.1));
    }
}

/// Visiting keeps the number, archetypes and strength of the references.
pub proof fn lemma_visit_all_shape<V: VisitMutArg>(m: V::Model, refs: Seq<HeldRef>)
    ensures
        visit_all::<V>(m, refs).1.len() == refs.len(),
        forall|k: int|
            0 <= k < refs.len() ==> {
                &&& (#[trigger] visit_all::<V>(m, refs).1[k]).archetype == refs[k].archetype
                &&& visit_all::<V>(m, refs).1[k].strong == refs[k].strong
            },
    decreases refs.len(),
{
    if refs.len() > 0 {
        lemma_visit_all_shape::<V>(m, refs.drop_last());
    }
}

impl<A: Archetype> Referrer for Entity<A> {
    open spec fn refs(&self) -> Seq<HeldRef> {
        seq![HeldRef { archetype: A::KEY, raw: self.spec_id(), strong: true }]
    }

    /// A strong reference holds nothing besides the referenced ID.
    open spec fn same_apart_from_refs(&self, other: &Self) -> bool {
        true
    }

    /// Marks this type and, the first time, finds the archetype `A`.
    open spec fn type_visit(pre: (Set<TypeId>, Set<u64>), post: (Set<TypeId>, Set<u64>)) -> bool {
        exists|t: TypeId|
            #![trigger pre.0.contains(t)]
            post.0 == pre.0.insert(t) && post.1 == if pre.0.contains(t) {
                pre.1
            } else {
                pre.1.insert(A::KEY)
            }
    }

    /// Marks this type and, the first time, records the archetype `A`.
    fn visit_type(arg: &mut VisitTypeArg)
        ensures
            exists|t: TypeId|
                #![trigger old(arg).marked().contains(t)]
                {
                    &&& final(arg).marked() == old(arg).marked().insert(t)
                    &&& final(arg).found() == if old(arg).marked().contains(t) {
                        old(arg).found()
                    } else {
                        old(arg).found().insert(A::KEY)
                    }
                },
    {
        let ghost before = *arg;
        let r = arg.mark::<Self>();
        let ghost t = choose|t: TypeId|
            #![trigger before.marked().contains(t)]
            arg.marked() == before.marked().insert(t) && (r is Continue <==> !before.marked().contains(t));
        let ghost pre = before.visit_state();
        match r {
            ControlFlow::Break(()) => {
                assert(old(arg).marked().contains(t));
                assert(pre.0.contains(t));
                assert(arg.visit_state().0 == pre.0.insert(t) && arg.visit_state().1 == pre.1);
                assert(Self::type_visit(pre, arg.visit_state()));
                return;
            },
            ControlFlow::Continue(()) => {},
        }
        arg.add_archetype::<A>();
        assert(!old(arg).marked().contains(t));
        assert(!pre.0.contains(t));
        assert(arg.visit_state().0 == pre.0.insert(t) && arg.visit_state().1 == pre.1.insert(A::KEY));
        assert(Self::type_visit(pre, arg.visit_state()));
    }

    fn visit_mut<V: VisitMutArg>(&mut self, arg: &mut V) {
        let ret = arg._visit_strong(VisitStrongArgs { archetype: A::KEY, raw: self.id as usize });
        self.id = ret.new_raw as u32;
        proof {
            reveal_with_fuel(visit_all, 2);
            assert(old(self).refs().drop_last() =~= Seq::<HeldRef>::empty());
            assert(self.refs() =~= visit_all::<V>(old(arg).model(), old(self).refs()).1);
        }
    }
}

impl<A: Archetype> Referrer for Weak<A> {
    open spec fn refs(&self) -> Seq<HeldRef> {
        seq![HeldRef { archetype: A::KEY, raw: self.spec_id(), strong: false }]
    }

    /// A weak reference also holds the generation of the referenced entity.
    open spec fn same_apart_from_refs(&self, other: &Self) -> bool {
        self.spec_generation() == other.spec_generation()
    }

    /// Marks this type and, the first time, finds the archetype `A`.
    open spec fn type_visit(pre: (Set<TypeId>, Set<u64>), post: (Set<TypeId>, Set<u64>)) -> bool {
        exists|t: TypeId|
            #![trigger pre.0.contains(t)]
            post.0 == pre.0.insert(t) && post.1 == if pre.0.contains(t) {
                pre.1
            } else {
                pre.1.insert(A::KEY)
            }
    }

    /// Marks this type and, the first time, records the archetype `A`:
    /// a weak reference depends on the entities of `A` like a strong one.
    fn visit_type(arg: &mut VisitTypeArg)
        ensures
            exists|t: TypeId|
                #![trigger old(arg).marked().contains(t)]
                {
                    &&& final(arg).marked() == old(arg).marked().insert(t)
                    &&& final(arg).found() == if old(arg).marked().contains(t) {
                        old(arg).found()
                    } else {
                        old(arg).found().insert(A::KEY)
                    }
                },
    {
        let ghost before = *arg;
        let r = arg.mark::<Self>();
        let ghost t = choose|t: TypeId|
            #![trigger before.marked().contains(t)]
            arg.marked() == before.marked().insert(t) && (r is Continue <==> !before.marked().contains(t));
        let ghost pre = before.visit_state();
        match r {
            ControlFlow::Break(()) => {
                assert(old(arg).marked().contains(t));
                assert(pre.0.contains(t));
                assert(arg.visit_state().0 == pre.0.insert(t) && arg.visit_state().1 == pre.1);
                assert(Self::type_visit(pre, arg.visit_state()));
                return;
            },
            ControlFlow::Continue(()) => {},
        }
        arg.add_archetype::<A>();
        assert(!old(arg).marked().contains(t));
        assert(!pre.0.contains(t));
        assert(arg.visit_state().0 == pre.0.insert(t) && arg.visit_state().1 == pre.1.insert(A::KEY));
        assert(Self::type_visit(pre, arg.visit_state()));
    }

    fn visit_mut<V: VisitMutArg>(&mut self, arg: &mut V) {
        let ret = arg._visit_weak(VisitWeakArgs { archetype: A::KEY, raw: self.id as usize });
        self.id = ret.new_raw as u32;
        proof {
            reveal_with_fuel(visit_all, 2);
            assert(old(self).refs().drop_last() =~= Seq::<HeldRef>::empty());
            assert(self.refs() =~= visit_all::<V>(old(arg).model(), old(self).refs()).1);
        }
    }
}

/// Values that can search the references they hold for the owners of a strong reference.
pub(crate) trait Object {
    /// The references still to be searched.
    spec fn held(&self) -> Seq<HeldRef>;

    /// Visits every reference still to be searched with the search, once:
    /// a later search visits nothing.
    fn search_single_strong(&mut self, state: &mut SearchSingleStrong)
        ensures
            final(state).model() == visit_all::<SearchSingleStrong>(old(state).model(), old(self).held()).0,
            final(self).held() == Seq::<HeldRef>::empty(),
    ;
}

/// A single referrer borrowed for the duration of an [`AsObject`],
/// handed out to the first search only.
struct Single<'t, R: Referrer> {
    value: Option<&'t mut R>,
}

impl<'t, R: Referrer> Object for Single<'t, R> {
    closed spec fn held(&self) -> Seq<HeldRef> {
        match self.value {
            Some(value) => (*value).refs(),
            None => Seq::empty(),
        }
    }

    fn search_single_strong(&mut self, state: &mut SearchSingleStrong) {
        if let Some(value) = self.value.take() {
            value.visit_mut(state);
        }
    }
}

/// Wraps a referrer as a trait object for calling [`Referrer::visit_mut`].
pub struct AsObject<'t>(pub(crate) Box<dyn Object + 't>);

impl<'t> AsObject<'t> {
    /// The references of the wrapped referrer that are still to be searched.
    pub closed spec fn held(&self) -> Seq<HeldRef> {
        self.0.held()
    }

    /// Constructs an `AsObject` that delegates to the given [`Referrer`].
    pub fn of<R: Referrer>(value: &'t mut R) -> (r: Self)
        ensures
            r.held() == old(value).refs(),
    {
        AsObject(Box::new(Single { value: Some(value) }))
    }
}

} // verus!
