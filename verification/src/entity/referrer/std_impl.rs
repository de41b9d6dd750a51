//! Implements [`Referrer`] for standard containers.

use std::any::TypeId;
use std::collections::VecDeque;
use std::ops::ControlFlow;

use vstd::prelude::*;

use super::super::Entity;
use crate::Archetype;
use super::{lemma_visit_all_concat, visit_all, HeldRef, Referrer, VisitMutArg, VisitTypeArg};

verus! {

/// The references held by a sequence of referrers, in order.
pub open spec fn all_refs<T: Referrer>(s: Seq<T>) -> Seq<HeldRef>
    decreases s.len(),
{
    if s.len() == 0 {
        Seq::empty()
    } else {
        all_refs(s.drop_last()) + s.last().refs()
    }
}

/// What visiting a container of `T` does: it marks the container's type and,
/// unless that type was marked before, goes on to visit `T` from there.
pub open spec fn container_visit<T: Referrer>(pre: (Set<TypeId>, Set<u64>), post: (Set<TypeId>, Set<u64>)) -> bool {
    exists|t: TypeId|
        #![trigger pre.0.contains(t)]
        if pre.0.contains(t) {
            post == pre
        } else {
            T::type_visit((pre.0.insert(t), pre.1), post)
        }
}

/// A container visits the type of its items unless its own type was marked before:
/// then the visit changes nothing; otherwise it ends where a visit of the item type ends
/// when started right after marking the container's type.
pub proof fn lemma_container_visits_items<T: Referrer>(pre: (Set<TypeId>, Set<u64>), post: (Set<TypeId>, Set<u64>))
    ensures
        <Box<T> as Referrer>::type_visit(pre, post) ==> post == pre || exists|t: TypeId|
            !pre.0.contains(t) && #[trigger] T::type_visit((pre.0.insert(t), pre.1), post),
        <Option<T> as Referrer>::type_visit(pre, post) ==> post == pre || exists|t: TypeId|
            !pre.0.contains(t) && #[trigger] T::type_visit((pre.0.insert(t), pre.1), post),
        <Vec<T> as Referrer>::type_visit(pre, post) ==> post == pre || exists|t: TypeId|
            !pre.0.contains(t) && #[trigger] T::type_visit((pre.0.insert(t), pre.1), post),
        <VecDeque<T> as Referrer>::type_visit(pre, post) ==> post == pre || exists|t: TypeId|
            !pre.0.contains(t) && #[trigger] T::type_visit((pre.0.insert(t), pre.1), post),
{
}

/// The same for arrays: an array visits the type of its items unless its own type was marked before.
pub proof fn lemma_array_visits_items<T: Referrer, const N: usize>(pre: (Set<TypeId>, Set<u64>), post: (Set<TypeId>, Set<u64>))
    ensures
        <[T; N] as Referrer>::type_visit(pre, post) ==> post == pre || exists|t: TypeId|
            !pre.0.contains(t) && #[trigger] T::type_visit((pre.0.insert(t), pre.1), post),
{
}

/// A box of a strong reference to an entity of `A` finds `A` or nothing new,
/// and finds `A` whenever neither the box type nor the reference type was marked before.
pub proof fn lemma_box_of_entity_finds<A: Archetype>(pre: (Set<TypeId>, Set<u64>), post: (Set<TypeId>, Set<u64>))
    requires
        <Box<Entity<A>> as Referrer>::type_visit(pre, post),
        pre.0.finite(),
    ensures
        post.1 == pre.1 || post.1 == pre.1.insert(A::KEY),
        post.0.len() == pre.0.len() + 2 ==> post.1 == pre.1.insert(A::KEY),
{
    let t1 = choose|t: TypeId|
        #![trigger pre.0.contains(t)]
        if pre.0.contains(t) {
            post == pre
        } else {
            <Entity<A> as Referrer>::type_visit((pre.0.insert(t), pre.1), post)
        };
    if !pre.0.contains(t1) {
        let mid = (pre.0.insert(t1), pre.1);
        let t2 = choose|t: TypeId|
            #![trigger mid.0.contains(t)]
            post.0 == mid.0.insert(t) && post.1 == if mid.0.contains(t) {
                mid.1
            } else {
                mid.1.insert(A::KEY)
            };
        assert(mid.0.len() == pre.0.len() + 1);
        if mid.0.contains(t2) {
            assert(post.0 =~= mid.0);
        }
    }
}

proof fn lemma_all_refs_step<T: Referrer>(s: Seq<T>, i: int)
    requires
        0 <= i < s.len(),
    ensures
        all_refs(s.take(i + 1)) == all_refs(s.take(i)) + s[i].refs(),
{
    assert(s.take(i + 1).drop_last() =~= s.take(i));
}

impl<T: Referrer> Referrer for Option<T> {
    open spec fn refs(&self) -> Seq<HeldRef> {
        match self {
            Some(value) => value.refs(),
            None => Seq::empty(),
        }
    }

    open spec fn same_apart_from_refs(&self, other: &Self) -> bool {
        match (self, other) {
            (Some(a), Some(b)) => a.same_apart_from_refs(b),
            (None, None) => true,
            _ => false,
        }
    }

    /// Marks this type and, the first time, visits the type of the items.
    open spec fn type_visit(pre: (Set<TypeId>, Set<u64>), post: (Set<TypeId>, Set<u64>)) -> bool {
        container_visit::<T>(pre, post)
    }

    /// Marks this type and, the first time, visits the type of the items.
    fn visit_type(arg: &mut VisitTypeArg)
        ensures
            exists|t: TypeId|
                #![trigger old(arg).marked().contains(t)]
                {
                    &&& old(arg).marked().insert(t).subset_of(final(arg).marked())
                    &&& old(arg).marked().contains(t) ==> final(arg).marked() == old(arg).marked()
                        && final(arg).found() == old(arg).found()
                },
    {
        let ghost before = *arg;
        let r = arg.mark::<Self>();
        let ghost t = choose|t: TypeId|
            #![trigger before.marked().contains(t)]
            arg.marked() == before.marked().insert(t) && (r is Continue <==> !before.marked().contains(t));
        match r {
            ControlFlow::Continue(()) => {
                let ghost mid = arg.visit_state();
                assert(mid == (before.marked().insert(t), before.found()));
                T::visit_type(arg);
                assert(!before.marked().contains(t));
                assert(T::type_visit((before.marked().insert(t), before.found()), arg.visit_state()));
            },
            ControlFlow::Break(()) => {
                assert(before.marked().insert(t) =~= before.marked());
                assert(before.marked().contains(t));
                assert(arg.visit_state() == before.visit_state());
            },
        }
        assert(old(arg).marked().contains(t) || !old(arg).marked().contains(t));
        let ghost pre = before.visit_state();
        assert(pre.0.contains(t) ==> arg.visit_state() == pre);
        assert(!pre.0.contains(t) ==> T::type_visit((pre.0.insert(t), pre.1), arg.visit_state()));
        assert(container_visit::<T>(pre, arg.visit_state()));
    }

    fn visit_mut<V: VisitMutArg>(&mut self, arg: &mut V) {
        if let Some(value) = self {
            value.visit_mut(arg);
        }
    }
}

impl<T: Referrer> Referrer for Box<T> {
    open spec fn refs(&self) -> Seq<HeldRef> {
        (**self).refs()
    }

    open spec fn same_apart_from_refs(&self, other: &Self) -> bool {
        (**self).same_apart_from_refs(&**other)
    }

    /// Marks this type and, the first time, visits the type of the items.
    open spec fn type_visit(pre: (Set<TypeId>, Set<u64>), post: (Set<TypeId>, Set<u64>)) -> bool {
        container_visit::<T>(pre, post)
    }

    /// Marks this type and, the first time, visits the type of the items.
    fn visit_type(arg: &mut VisitTypeArg)
        ensures
            exists|t: TypeId|
                #![trigger old(arg).marked().contains(t)]
                {
                    &&& old(arg).marked().insert(t).subset_of(final(arg).marked())
                    &&& old(arg).marked().contains(t) ==> final(arg).marked() == old(arg).marked()
                        && final(arg).found() == old(arg).found()
                },
    {
        let ghost before = *arg;
        let r = arg.mark::<Self>();
        let ghost t = choose|t: TypeId|
            #![trigger before.marked().contains(t)]
            arg.marked() == before.marked().insert(t) && (r is Continue <==> !before.marked().contains(t));
        match r {
            ControlFlow::Continue(()) => {
                let ghost mid = arg.visit_state();
                assert(mid == (before.marked().insert(t), before.found()));
                T::visit_type(arg);
                assert(!before.marked().contains(t));
                assert(T::type_visit((before.marked().insert(t), before.found()), arg.visit_state()));
            },
            ControlFlow::Break(()) => {
                assert(before.marked().insert(t) =~= before.marked());
                assert(before.marked().contains(t));
                assert(arg.visit_state() == before.visit_state());
            },
        }
        assert(old(arg).marked().contains(t) || !old(arg).marked().contains(t));
        let ghost pre = before.visit_state();
        assert(pre.0.contains(t) ==> arg.visit_state() == pre);
        assert(!pre.0.contains(t) ==> T::type_visit((pre.0.insert(t), pre.1), arg.visit_state()));
        assert(container_visit::<T>(pre, arg.visit_state()));
    }

    fn visit_mut<V: VisitMutArg>(&mut self, arg: &mut V) {
        T::visit_mut(&mut **self, arg);
    }
}

impl<T: Referrer> Referrer for Vec<T> {
    open spec fn refs(&self) -> Seq<HeldRef> {
        all_refs(self@)
    }

    open spec fn same_apart_from_refs(&self, other: &Self) -> bool {
        &&& self@.len() == other@.len()
        &&& forall|i: int| 0 <= i < self@.len() ==> #[trigger] self@[i].same_apart_from_refs(&other@[i])
    }

    /// Marks this type and, the first time, visits the type of the items.
    open spec fn type_visit(pre: (Set<TypeId>, Set<u64>), post: (Set<TypeId>, Set<u64>)) -> bool {
        container_visit::<T>(pre, post)
    }

    /// Marks this type and, the first time, visits the type of the items.
    fn visit_type(arg: &mut VisitTypeArg)
        ensures
            exists|t: TypeId|
                #![trigger old(arg).marked().contains(t)]
                {
                    &&& old(arg).marked().insert(t).subset_of(final(arg).marked())
                    &&& old(arg).marked().contains(t) ==> final(arg).marked() == old(arg).marked()
                        && final(arg).found() == old(arg).found()
                },
    {
        let ghost before = *arg;
        let r = arg.mark::<Self>();
        let ghost t = choose|t: TypeId|
            #![trigger before.marked().contains(t)]
            arg.marked() == before.marked().insert(t) && (r is Continue <==> !before.marked().contains(t));
        match r {
            ControlFlow::Continue(()) => {
                let ghost mid = arg.visit_state();
                assert(mid == (before.marked().insert(t), before.found()));
                T::visit_type(arg);
                assert(!before.marked().contains(t));
                assert(T::type_visit((before.marked().insert(t), before.found()), arg.visit_state()));
            },
            ControlFlow::Break(()) => {
                assert(before.marked().insert(t) =~= before.marked());
                assert(before.marked().contains(t));
                assert(arg.visit_state() == before.visit_state());
            },
        }
        assert(old(arg).marked().contains(t) || !old(arg).marked().contains(t));
        let ghost pre = before.visit_state();
        assert(pre.0.contains(t) ==> arg.visit_state() == pre);
        assert(!pre.0.contains(t) ==> T::type_visit((pre.0.insert(t), pre.1), arg.visit_state()));
        assert(container_visit::<T>(pre, arg.visit_state()));
    }

    fn visit_mut<V: VisitMutArg>(&mut self, arg: &mut V) {
        let ghost m0 = arg.model();
        let ghost s0 = self@;
        let n = self.len();
        let mut i: usize = 0;
        while i < n
            invariant
                0 <= i <= n,
                n == s0.len(),
                self@.len() == n,
                forall|j: int| i <= j < n ==> #[trigger] self@[j] == s0[j],
                forall|j: int| 0 <= j < i ==> #[trigger] s0[j].same_apart_from_refs(&self@[j]),
                (arg.model(), all_refs(self@.take(i as int))) == visit_all::<V>(m0, all_refs(s0.take(i as int))),
            decreases n - i,
        {
            let ghost before = self@;
            let ghost m = arg.model();
            proof {
                lemma_all_refs_step(s0, i as int);
                lemma_visit_all_concat::<V>(m0, all_refs(s0.take(i as int)), s0[i as int].refs());
            }
            self[i].visit_mut(arg);
            proof {
                lemma_all_refs_step(self@, i as int);
                assert(self@.take(i as int) =~= before.take(i as int));
                assert forall|j: int| i + 1 <= j < n implies #[trigger] self@[j] == s0[j] by {
                    assert(self@[j] == before[j]);
                }
                assert forall|j: int| 0 <= j < i + 1 implies #[trigger] s0[j].same_apart_from_refs(&self@[j]) by {
                    if j < i {
                        assert(self@[j] == before[j]);
                    }
                }
            }
            i += 1;
        }
        proof {
            assert(self@.take(n as int) =~= self@);
            assert(s0.take(n as int) =~= s0);
        }
    }
}

impl<T: Referrer, const N: usize> Referrer for [T; N] {
    open spec fn refs(&self) -> Seq<HeldRef> {
        all_refs(self@)
    }

    open spec fn same_apart_from_refs(&self, other: &Self) -> bool {
        &&& self@.len() == other@.len()
        &&& forall|i: int| 0 <= i < self@.len() ==> #[trigger] self@[i].same_apart_from_refs(&other@[i])
    }

    /// Marks this type and, the first time, visits the type of the items.
    open spec fn type_visit(pre: (Set<TypeId>, Set<u64>), post: (Set<TypeId>, Set<u64>)) -> bool {
        container_visit::<T>(pre, post)
    }

    /// Marks this type and, the first time, visits the type of the items.
    fn visit_type(arg: &mut VisitTypeArg)
        ensures
            exists|t: TypeId|
                #![trigger old(arg).marked().contains(t)]
                {
                    &&& old(arg).marked().insert(t).subset_of(final(arg).marked())
                    &&& old(arg).marked().contains(t) ==> final(arg).marked() == old(arg).marked()
                        && final(arg).found() == old(arg).found()
                },
    {
        let ghost before = *arg;
        let r = arg.mark::<Self>();
        let ghost t = choose|t: TypeId|
            #![trigger before.marked().contains(t)]
            arg.marked() == before.marked().insert(t) && (r is Continue <==> !before.marked().contains(t));
        match r {
            ControlFlow::Continue(()) => {
                let ghost mid = arg.visit_state();
                assert(mid == (before.marked().insert(t), before.found()));
                T::visit_type(arg);
                assert(!before.marked().contains(t));
                assert(T::type_visit((before.marked().insert(t), before.found()), arg.visit_state()));
            },
            ControlFlow::Break(()) => {
                assert(before.marked().insert(t) =~= before.marked());
                assert(before.marked().contains(t));
                assert(arg.visit_state() == before.visit_state());
            },
        }
        assert(old(arg).marked().contains(t) || !old(arg).marked().contains(t));
        let ghost pre = before.visit_state();
        assert(pre.0.contains(t) ==> arg.visit_state() == pre);
        assert(!pre.0.contains(t) ==> T::type_visit((pre.0.insert(t), pre.1), arg.visit_state()));
        assert(container_visit::<T>(pre, arg.visit_state()));
    }

    fn visit_mut<V: VisitMutArg>(&mut self, arg: &mut V) {
        let ghost m0 = arg.model();
        let ghost s0 = self@;
        let n = self.len();
        let mut i: usize = 0;
        while i < n
            invariant
                0 <= i <= n,
                n == s0.len(),
                self@.len() == n,
                forall|j: int| i <= j < n ==> #[trigger] self@[j] == s0[j],
                forall|j: int| 0 <= j < i ==> #[trigger] s0[j].same_apart_from_refs(&self@[j]),
                (arg.model(), all_refs(self@.take(i as int))) == visit_all::<V>(m0, all_refs(s0.take(i as int))),
            decreases n - i,
        {
            let ghost before = self@;
            let ghost m = arg.model();
            proof {
                lemma_all_refs_step(s0, i as int);
                lemma_visit_all_concat::<V>(m0, all_refs(s0.take(i as int)), s0[i as int].refs());
            }
            self[i].visit_mut(arg);
            proof {
                lemma_all_refs_step(self@, i as int);
                assert(self@.take(i as int) =~= before.take(i as int));
                assert forall|j: int| i + 1 <= j < n implies #[trigger] self@[j] == s0[j] by {
                    assert(self@[j] == before[j]);
                }
                assert forall|j: int| 0 <= j < i + 1 implies #[trigger] s0[j].same_apart_from_refs(&self@[j]) by {
                    if j < i {
                        assert(self@[j] == before[j]);
                    }
                }
            }
            i += 1;
        }
        proof {
            assert(self@.take(n as int) =~= self@);
            assert(s0.take(n as int) =~= s0);
        }
    }
}

impl<T: Referrer> Referrer for VecDeque<T> {
    open spec fn refs(&self) -> Seq<HeldRef> {
        all_refs(self@)
    }

    open spec fn same_apart_from_refs(&self, other: &Self) -> bool {
        &&& self@.len() == other@.len()
        &&& forall|i: int| 0 <= i < self@.len() ==> #[trigger] self@[i].same_apart_from_refs(&other@[i])
    }

    /// Marks this type and, the first time, visits the type of the items.
    open spec fn type_visit(pre: (Set<TypeId>, Set<u64>), post: (Set<TypeId>, Set<u64>)) -> bool {
        container_visit::<T>(pre, post)
    }

    /// Marks this type and, the first time, visits the type of the items.
    fn visit_type(arg: &mut VisitTypeArg)
        ensures
            exists|t: TypeId|
                #![trigger old(arg).marked().contains(t)]
                {
                    &&& old(arg).marked().insert(t).subset_of(final(arg).marked())
                    &&& old(arg).marked().contains(t) ==> final(arg).marked() == old(arg).marked()
                        && final(arg).found() == old(arg).found()
                },
    {
        let ghost before = *arg;
        let r = arg.mark::<Self>();
        let ghost t = choose|t: TypeId|
            #![trigger before.marked().contains(t)]
            arg.marked() == before.marked().insert(t) && (r is Continue <==> !before.marked().contains(t));
        match r {
            ControlFlow::Continue(()) => {
                let ghost mid = arg.visit_state();
                assert(mid == (before.marked().insert(t), before.found()));
                T::visit_type(arg);
                assert(!before.marked().contains(t));
                assert(T::type_visit((before.marked().insert(t), before.found()), arg.visit_state()));
            },
            ControlFlow::Break(()) => {
                assert(before.marked().insert(t) =~= before.marked());
                assert(before.marked().contains(t));
                assert(arg.visit_state() == before.visit_state());
            },
        }
        assert(old(arg).marked().contains(t) || !old(arg).marked().contains(t));
        let ghost pre = before.visit_state();
        assert(pre.0.contains(t) ==> arg.visit_state() == pre);
        assert(!pre.0.contains(t) ==> T::type_visit((pre.0.insert(t), pre.1), arg.visit_state()));
        assert(container_visit::<T>(pre, arg.visit_state()));
    }

    fn visit_mut<V: VisitMutArg>(&mut self, arg: &mut V) {
        let ghost m0 = arg.model();
        let ghost s0 = self@;
        let ghost mut done: Seq<T> = Seq::empty();
        let n = self.len();
        let mut i: usize = 0;
        // Each item is taken from the front, visited and put back at the end,
        // so that after a full turn the items are in their places again.
        while i < n
            invariant
                0 <= i <= n,
                n == s0.len(),
                done.len() == i,
                self@ == s0.subrange(i as int, n as int) + done,
                forall|j: int| 0 <= j < i ==> #[trigger] s0[j].same_apart_from_refs(&done[j]),
                (arg.model(), all_refs(done)) == visit_all::<V>(m0, all_refs(s0.take(i as int))),
            decreases n - i,
        {
            let mut item = match self.pop_front() {
                Some(item) => item,
                None => vstd::pervasive::unreached(),
            };
            proof {
                assert(item == s0[i as int]);
                lemma_all_refs_step(s0, i as int);
                lemma_visit_all_concat::<V>(m0, all_refs(s0.take(i as int)), s0[i as int].refs());
            }
            item.visit_mut(arg);
            let ghost visited = item;
            self.push_back(item);
            proof {
                assert(done.push(visited).drop_last() =~= done);
                assert(s0[i as int].same_apart_from_refs(&visited));
                done = done.push(visited);
                assert(self@ =~= s0.subrange(i + 1, n as int) + done);
            }
            i += 1;
        }
        proof {
            assert(s0.subrange(n as int, n as int) + done =~= done);
            assert(s0.take(n as int) =~= s0);
        }
    }
}

} // verus!
