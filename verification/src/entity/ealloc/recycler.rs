//! Data structures that hold recycled entity IDs.

use std::collections::BTreeSet;

use vstd::prelude::*;

use crate::entity::Raw;

verus! {

broadcast use {vstd::std_specs::btree::group_btree_axioms, vstd::laws_cmp::group_laws_cmp};

/// A data structure that provides the ability to recycle entity IDs.
pub trait Recycler: Sized {
    /// Additional configuration for polling.
    type Hint;

    /// The IDs currently held by the recycler.
    spec fn recycled(&self) -> Set<u32>;

    /// The internal consistency of the recycler.
    spec fn wf(&self) -> bool;

    /// Whether `id` is the ID that polling with `hint` hands out.
    spec fn chooses(&self, hint: Self::Hint, id: u32) -> bool;

    /// Creates an empty recycler.
    fn new() -> (r: Self)
        ensures
            r.wf(),
            r.recycled() == Set::<u32>::empty(),
    ;

    /// Returns the number of IDs in this recycler.
    fn len(&self) -> (r: usize)
        requires
            self.wf(),
        ensures
            r == self.recycled().len(),
    ;

    /// Returns whether the recycler is empty.
    fn is_empty(&self) -> (r: bool)
        requires
            self.wf(),
        ensures
            r == (self.recycled().len() == 0),
    {
        self.len() == 0
    }

    /// Adds an ID that is not yet held.
    fn push(&mut self, id: u32)
        requires
            old(self).wf(),
            !old(self).recycled().contains(id),
        ensures
            final(self).wf(),
            final(self).recycled() == old(self).recycled().insert(id),
    ;

    /// Polls an ID from the recycler based on the given hint.
    ///
    /// Returns `None` only if the recycler is empty.
    fn poll(&mut self, hint: Self::Hint) -> (r: Option<u32>)
        requires
            old(self).wf(),
        ensures
            final(self).wf(),
            match r {
                Some(id) => old(self).recycled().contains(id) && final(self).recycled() == old(
                    self,
                ).recycled().remove(id) && old(self).chooses(hint, id),
                None => old(self).recycled().finite() && old(self).recycled().len() == 0
                    && final(self).recycled() == old(self).recycled(),
            },
    ;
}

/// A minimal recycler implemented through a FILO stack.
impl Recycler for Vec<u32> {
    type Hint = ();

    open spec fn recycled(&self) -> Set<u32> {
        self@.to_set()
    }

    open spec fn wf(&self) -> bool {
        self@.no_duplicates()
    }

    /// The last ID pushed is handed out first.
    open spec fn chooses(&self, hint: (), id: u32) -> bool {
        self@.len() > 0 && id == self@.last()
    }

    fn new() -> (r: Self) {
        let r: Vec<u32> = Vec::new();
        proof {
            assert(r@.to_set() =~= Set::<u32>::empty());
        }
        r
    }

    fn len(&self) -> (r: usize) {
        proof {
            self@.unique_seq_to_set();
        }
        Vec::len(self)
    }

    fn push(&mut self, id: u32) {
        let ghost prev = self@;
        Vec::push(self, id);
        proof {
            assert(self@ =~= prev.push(id));
            assert(self@.to_set() =~= prev.to_set().insert(id)) by {
                assert forall|x: u32| self@.to_set().contains(x) implies prev.to_set().insert(
                    id,
                ).contains(x) by {
                    let i = choose|i: int| 0 <= i < self@.len() && self@[i] == x;
                    if i < prev.len() {
                        assert(prev[i] == x);
                    }
                }
                assert forall|x: u32| prev.to_set().insert(id).contains(x) implies self@.to_set().contains(
                    x,
                ) by {
                    if x == id {
                        assert(self@[prev.len() as int] == x);
                    } else {
                        let i = choose|i: int| 0 <= i < prev.len() && prev[i] == x;
                        assert(self@[i] == x);
                    }
                }
            }
        }
    }

    fn poll(&mut self, hint: ()) -> (r: Option<u32>)
        ensures
            r is Some ==> final(self)@ == old(self)@.drop_last(),
    {
        let ghost prev = self@;
        let r = self.pop();
        proof {
            match r {
                Some(id) => {
                    assert(prev =~= self@.push(id));
                    assert(prev[prev.len() - 1] == id);
                    assert(prev.to_set().contains(id));
                    assert(self@.to_set() =~= prev.to_set().remove(id)) by {
                        assert forall|x: u32| self@.to_set().contains(x) implies prev.to_set().remove(
                            id,
                        ).contains(x) by {
                            let i = choose|i: int| 0 <= i < self@.len() && self@[i] == x;
                            assert(prev[i] == x);
                        }
                        assert forall|x: u32| prev.to_set().remove(id).contains(x) implies self@.to_set().contains(
                            x,
                        ) by {
                            let i = choose|i: int| 0 <= i < prev.len() && prev[i] == x;
                            if i == prev.len() - 1 {
                                assert(false);
                            }
                            assert(self@[i] == x);
                        }
                    }
                },
                None => {
                    assert(prev.to_set() =~= Set::<u32>::empty());
                },
            }
        }
        r
    }
}

/// Additional configuration for allocating entities from a `BTreeSet` recycler.
pub struct BTreeHint {
    /// Try to allocate the entity somewhere nearest to the given value.
    pub near: Option<u32>,
}

impl Default for BTreeHint {
    fn default() -> (r: Self)
        ensures
            r.near is None,
    {
        BTreeHint { near: None }
    }
}

/// `BTreeSet::range(..near)`, taking its last item.
///
/// Claims: the result is the greatest element of the set below `near`,
/// and `None` if there is no such element.
#[verifier::external_body]
fn btree_last_below(set: &BTreeSet<u32>, near: u32) -> (r: Option<u32>)
    ensures
        match r {
            Some(x) => set@.contains(x) && x < near && forall|y: u32|
                #![trigger set@.contains(y)]
                set@.contains(y) && y < near ==> y <= x,
            None => forall|y: u32| #![trigger set@.contains(y)] set@.contains(y) ==> y >= near,
        },
{
    set.range(..near).next_back().copied()
}

/// `BTreeSet::range(near..)`, taking its first item.
///
/// Claims: the result is the least element of the set not below `near`,
/// and `None` if there is no such element.
#[verifier::external_body]
fn btree_first_from(set: &BTreeSet<u32>, near: u32) -> (r: Option<u32>)
    ensures
        match r {
            Some(x) => set@.contains(x) && x >= near && forall|y: u32|
                #![trigger set@.contains(y)]
                set@.contains(y) && y >= near ==> x <= y,
            None => forall|y: u32| #![trigger set@.contains(y)] set@.contains(y) ==> y < near,
        },
{
    set.range(near..).next().copied()
}

/// `BTreeSet::pop_first`.
///
/// Claims: the least element is removed and returned, and `None` only for an empty set.
#[verifier::external_body]
fn btree_pop_first(set: &mut BTreeSet<u32>) -> (r: Option<u32>)
    ensures
        match r {
            Some(x) => old(set)@.contains(x) && final(set)@ == old(set)@.remove(x) && forall|
                y: u32,
            |
                #![trigger old(set)@.contains(y)]
                old(set)@.contains(y) ==> x <= y,
            None => old(set)@ == Set::<u32>::empty() && final(set)@ == old(set)@,
        },
{
    set.pop_first()
}

/// The ID a `BTreeSet` recycler gives out for the given hint:
/// the least ID without a hint, otherwise the ID nearest to the hint,
/// preferring the smaller one on a tie.
pub open spec fn btree_choice(set: Set<u32>, hint: BTreeHint, x: u32) -> bool {
    &&& set.contains(x)
    &&& match hint.near {
        None => forall|y: u32| #![trigger set.contains(y)] set.contains(y) ==> x <= y,
        Some(near) => forall|y: u32|
            #![trigger set.contains(y)]
            set.contains(y) ==> {
                let dx = if x < near { near - x } else { x - near };
                let dy = if y < near { near - y } else { y - near };
                dx < dy || (dx == dy && x <= y)
            },
    }
}

impl Recycler for BTreeSet<u32> {
    type Hint = BTreeHint;

    open spec fn recycled(&self) -> Set<u32> {
        self@
    }

    open spec fn wf(&self) -> bool {
        true
    }

    open spec fn chooses(&self, hint: BTreeHint, id: u32) -> bool {
        btree_choice(self@, hint, id)
    }

    fn new() -> (r: Self) {
        BTreeSet::new()
    }

    fn len(&self) -> (r: usize) {
        BTreeSet::len(self)
    }

    fn push(&mut self, id: u32) {
        self.insert(id);
    }

    fn poll(&mut self, hint: BTreeHint) -> (r: Option<u32>)
        ensures
            match r {
                Some(x) => btree_choice(old(self)@, hint, x),
                None => true,
            },
    {
        match hint.near {
            Some(near) => {
                let left = btree_last_below(self, near);
                let right = btree_first_from(self, near);
                let selected = match (left, right) {
                    (Some(left), Some(right)) => {
                        let left_delta = Raw::sub(near, left);
                        let right_delta = Raw::sub(right, near);
                        if left_delta <= right_delta {
                            Some(left)
                        } else {
                            Some(right)
                        }
                    },
                    (Some(left), None) => Some(left),
                    (None, Some(right)) => Some(right),
                    (None, None) => None,
                };
                match selected {
                    Some(selected) => {
                        let removed = self.remove(&selected);
                        proof {
                            assert(removed);
                        }
                        Some(selected)
                    },
                    None => {
                        proof {
                            assert(self@ =~= Set::<u32>::empty());
                        }
                        None
                    },
                }
            },
            None => {
                let r = btree_pop_first(self);
                r
            },
        }
    }
}

} // verus!
