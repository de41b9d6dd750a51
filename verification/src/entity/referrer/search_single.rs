//! A visitor that finds the owners of a strong reference.

use vstd::prelude::*;

use super::sealed::Sealed;
use super::{visit_all, visit_one, HeldRef, VisitMutArg, VisitStrongArgs, VisitStrongResult, VisitWeakArgs, VisitWeakResult};

verus! {

/// Collects the names of the values that hold a strong reference to one entity.
///
/// A name is recorded once for each run of matching references visited under it.
pub struct SearchSingleStrong {
    ty: u64,
    raw: usize,
    pub(crate) found: Vec<String>,
    pub(crate) current: String,
}

impl SearchSingleStrong {
    /// Starts a search for strong references to the entity `raw` of the archetype with key `ty`.
    pub fn new(ty: u64, raw: usize) -> (r: Self)
        ensures
            r.model() == (ty, raw, Seq::<Seq<char>>::empty(), Seq::<char>::empty()),
    {
        let r = SearchSingleStrong { ty, raw, found: Vec::new(), current: String::new() };
        proof {
            assert(r.found@.map_values(|s: String| s@) =~= Seq::<Seq<char>>::empty());
        }
        r
    }

    /// The names recorded so far.
    pub fn found(&self) -> (r: &Vec<String>)
        ensures
            r@.map_values(|s: String| s@) == self.model().2,
    {
        &self.found
    }
}

impl Sealed for SearchSingleStrong {

}

impl VisitMutArg for SearchSingleStrong {
    /// The searched archetype and ID, the names recorded, and the name of the value being visited.
    type Model = (u64, usize, Seq<Seq<char>>, Seq<char>);

    closed spec fn model(&self) -> Self::Model {
        (self.ty, self.raw, self.found@.map_values(|s: String| s@), self.current@)
    }

    open spec fn strong_step(m: Self::Model, archetype: u64, raw: usize) -> (Self::Model, usize) {
        if archetype == m.0 && raw == m.1 && (m.2.len() == 0 || m.2.last() != m.3) {
            ((m.0, m.1, m.2.push(m.3), m.3), raw)
        } else {
            (m, raw)
        }
    }

    open spec fn weak_step(m: Self::Model, archetype: u64, raw: usize) -> (Self::Model, usize) {
        (m, raw)
    }

    open spec fn named(m: Self::Model, name: Seq<char>) -> Self::Model {
        (m.0, m.1, m.2, name)
    }

    /// A strong reference is left as it is; the name being visited is recorded
    /// when the reference is the searched one and the name is not the last recorded.
    fn _visit_strong(&mut self, args: VisitStrongArgs) -> (r: VisitStrongResult)
        ensures
            r.new_raw == args.raw,
            !(args.archetype == old(self).model().0 && args.raw == old(self).model().1) ==> final(self).model() == old(self).model(),
    {
        if args.archetype == self.ty && args.raw == self.raw {
            let is_new = match self.found.last() {
                Some(last) => !(*last == self.current),
                None => true,
            };
            if is_new {
                let ghost before = self.found@;
                let name = self.current.clone();
                self.found.push(name);
                proof {
                    assert(self.found@.map_values(|s: String| s@) =~= before.map_values(|s: String| s@).push(self.current@));
                }
            }
        }
        VisitStrongResult { new_raw: args.raw }
    }

    /// A weak reference does not own the entity: it is left as it is and nothing is recorded.
    fn _visit_weak(&mut self, args: VisitWeakArgs) -> (r: VisitWeakResult)
        ensures
            final(self).model() == old(self).model(),
            r.new_raw == args.raw,
    {
        VisitWeakResult { new_raw: args.raw }
    }

    fn _set_debug_name(&mut self, name: String) {
        self.current = name;
    }
}

/// Visiting a weak reference leaves the search as it was and the reference unchanged.
pub proof fn lemma_search_ignores_weak(m: (u64, usize, Seq<Seq<char>>, Seq<char>), archetype: u64, raw: usize)
    ensures
        SearchSingleStrong::weak_step(m, archetype, raw) == (m, raw),
{
}

/// The search never rewrites a reference, and it records a name only on a strong reference
/// to the searched entity: over references of which none is such, it ends as it began.
pub proof fn lemma_search_records_only_owners(m: (u64, usize, Seq<Seq<char>>, Seq<char>), refs: Seq<HeldRef>)
    ensures
        visit_all::<SearchSingleStrong>(m, refs).1 == refs,
        (forall|k: int|
            0 <= k < refs.len() ==> !((#[trigger] refs[k]).strong && refs[k].archetype == m.0 && refs[k].raw as usize == m.1))
            ==> visit_all::<SearchSingleStrong>(m, refs).0 == m,
    decreases refs.len(),
{
    if refs.len() > 0 {
        let rest = refs.drop_last();
        lemma_search_records_only_owners(m, rest);
        let before = visit_all::<SearchSingleStrong>(m, rest);
        let last = refs.last();
        let step = visit_one::<SearchSingleStrong>(before.0, last);
        assert(step.1 == last);
        assert(before.1.push(step.1) =~= refs);
        if forall|k: int|
            0 <= k < refs.len() ==> !((#[trigger] refs[k]).strong && refs[k].archetype == m.0 && refs[k].raw as usize == m.1) {
            assert forall|k: int|
                0 <= k < rest.len() implies !((#[trigger] rest[k]).strong && rest[k].archetype == m.0 && rest[k].raw as usize == m.1) by {
                assert(rest[k] == refs[k]);
            }
            assert(refs[refs.len() - 1] == last);
        }
    }
}

} // verus!
