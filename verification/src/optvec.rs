//! A `Vec<Option<T>>`-like data structure that records which slots are occupied in a [`BitVec`].

use bitvec::vec::BitVec;

use vstd::prelude::*;

verus! {

/// A [`BitVec`] kept opaque: its parameters are bounded by bitvec's own traits,
/// so it is only touched through the functions below.
#[verifier::external_body]
pub struct Bits {
    bits: BitVec,
}

/// The bits held by a bit-vector, in order.
pub uninterp spec fn bits_of(bits: Bits) -> Seq<bool>;

/// The largest number of bits a bit-vector can hold: `BitSlice::MAX_BITS`.
pub open spec fn max_bits() -> int {
    (usize::MAX >> 3usize) as int
}

/// `BitVec::new`: an empty bit-vector.
#[verifier::external_body]
fn bits_new() -> (r: Bits)
    ensures
        bits_of(r) == Seq::<bool>::empty(),
{
    Bits { bits: BitVec::new() }
}

/// `BitVec::repeat`: `len` copies of `bit`.
/// It panics when `len` exceeds the largest length a bit-vector can encode.
#[verifier::external_body]
fn bits_repeat(bit: bool, len: usize) -> (r: Bits)
    requires
        len <= max_bits(),
    ensures
        bits_of(r) == Seq::new(len as nat, |_i: int| bit),
{
    Bits { bits: BitVec::repeat(bit, len) }
}

/// `BitVec::len`: the number of bits.
#[verifier::external_body]
fn bits_len(bits: &Bits) -> (r: usize)
    ensures
        r == bits_of(*bits).len(),
{
    bits.bits.len()
}

/// `BitVec::is_empty`: whether there are no bits.
#[verifier::external_body]
fn bits_is_empty(bits: &Bits) -> (r: bool)
    ensures
        r == (bits_of(*bits).len() == 0),
{
    bits.bits.is_empty()
}

/// `BitSlice::get` with a single index: the bit at `index`, or `None` past the end.
#[verifier::external_body]
fn bits_get(bits: &Bits, index: usize) -> (r: Option<bool>)
    ensures
        index < bits_of(*bits).len() ==> r == Some(bits_of(*bits)[index as int]),
        index >= bits_of(*bits).len() ==> r is None,
{
    bits.bits.get(index).map(|bit| *bit)
}

/// `BitSlice::set`: writes the bit at `index`. It panics past the end.
#[verifier::external_body]
fn bits_set(bits: &mut Bits, index: usize, value: bool)
    requires
        index < bits_of(*old(bits)).len(),
    ensures
        bits_of(*final(bits)) == bits_of(*old(bits)).update(index as int, value),
{
    bits.bits.set(index, value)
}

/// `BitVec::resize`: truncates to `new_len` bits, or appends copies of `value` up to it.
/// It panics when `new_len` exceeds the largest length a bit-vector can encode.
#[verifier::external_body]
fn bits_resize(bits: &mut Bits, new_len: usize, value: bool)
    requires
        new_len <= max_bits(),
    ensures
        new_len <= bits_of(*old(bits)).len() ==> bits_of(*final(bits)) == bits_of(*old(bits)).take(new_len as int),
        new_len > bits_of(*old(bits)).len() ==> bits_of(*final(bits)) == bits_of(*old(bits)) + Seq::new(
            (new_len - bits_of(*old(bits)).len()) as nat,
            |_i: int| value,
        ),
{
    bits.bits.resize(new_len, value)
}

/// A `Vec<Option<T>>`-like data structure whose occupied slots are also recorded in a [`BitVec`].
pub struct OptVec<T> {
    is_set: Bits,
    data: Vec<Option<T>>,
}

impl<T> OptVec<T> {
    /// The slots, in order.
    pub closed spec fn slots(&self) -> Seq<Option<T>> {
        self.data@
    }

    /// The presence bits agree with the slots.
    pub closed spec fn wf(&self) -> bool {
        &&& bits_of(self.is_set).len() == self.data@.len()
        &&& forall|i: int| 0 <= i < self.data@.len() ==> #[trigger] bits_of(self.is_set)[i] == self.data@[i] is Some
    }

    /// Creates an `OptVec` without slots.
    pub fn new() -> (r: Self)
        ensures
            r.wf(),
            r.slots() == Seq::<Option<T>>::empty(),
    {
        OptVec { is_set: bits_new(), data: Vec::new() }
    }

    /// Creates an `OptVec` with `capacity` empty slots.
    pub fn repeat_none(capacity: usize) -> (r: Self)
        requires
            capacity <= max_bits(),
        ensures
            r.wf(),
            r.slots() == Seq::new(capacity as nat, |_i: int| None::<T>),
    {
        let is_set = bits_repeat(false, capacity);
        let mut data: Vec<Option<T>> = Vec::new();
        while data.len() < capacity
            invariant
                data@.len() <= capacity,
                forall|i: int| 0 <= i < data@.len() ==> #[trigger] data@[i] is None,
            decreases capacity - data@.len(),
        {
            data.push(None);
        }
        let r = OptVec { is_set, data };
        proof {
            assert(r.data@ =~= Seq::new(capacity as nat, |_i: int| None::<T>));
        }
        r
    }

    /// Returns the number of slots.
    pub fn len(&self) -> (r: usize)
        requires
            self.wf(),
        ensures
            r == self.slots().len(),
    {
        bits_len(&self.is_set)
    }

    /// Returns `true` if there are no slots.
    pub fn is_empty(&self) -> (r: bool)
        requires
            self.wf(),
        ensures
            r == (self.slots().len() == 0),
    {
        bits_is_empty(&self.is_set)
    }

    /// Appends empty slots until there are at least `new_len` of them.
    pub fn resize_at_least(&mut self, new_len: usize)
        requires
            old(self).wf(),
            new_len <= max_bits(),
        ensures
            final(self).wf(),
            new_len <= old(self).slots().len() ==> final(self).slots() == old(self).slots(),
            new_len > old(self).slots().len() ==> final(self).slots() == old(self).slots() + Seq::new(
                (new_len - old(self).slots().len()) as nat,
                |_i: int| None::<T>,
            ),
    {
        if self.len() >= new_len {
            return;
        }
        let ghost old_data = self.data@;
        let ghost old_bits = bits_of(self.is_set);
        bits_resize(&mut self.is_set, new_len, false);
        let ghost new_bits = bits_of(self.is_set);
        while self.data.len() < new_len
            invariant
                bits_of(self.is_set) == new_bits,
                old_data.len() <= self.data@.len() <= new_len,
                self.data@.take(old_data.len() as int) == old_data,
                forall|i: int| old_data.len() <= i < self.data@.len() ==> #[trigger] self.data@[i] is None,
            decreases new_len - self.data@.len(),
        {
            self.data.push(None);
            proof {
                assert(self.data@.take(old_data.len() as int) =~= old_data);
            }
        }
        proof {
            assert(self.data@ =~= old_data + Seq::new((new_len - old_data.len()) as nat, |_i: int| None::<T>));
            assert forall|i: int| 0 <= i < self.data@.len() implies #[trigger] bits_of(self.is_set)[i] == self.data@[i] is Some by {
                if i < old_data.len() {
                    assert(bits_of(self.is_set)[i] == old_bits[i]);
                    assert(self.data@[i] == old_data[i]);
                }
            }
        }
    }

    /// The value in the slot `index`, if the slot exists and is occupied.
    pub fn get(&self, index: usize) -> (r: Option<&T>)
        requires
            self.wf(),
        ensures
            match r {
                Some(value) => index < self.slots().len() && self.slots()[index as int] == Some(*value),
                None => index >= self.slots().len() || self.slots()[index as int] is None,
            },
    {
        match bits_get(&self.is_set, index) {
            Some(true) => match &self.data[index] {
                Some(value) => Some(value),
                None => vstd::pervasive::unreached(),
            },
            _ => None,
        }
    }

    /// A mutable reference to the value in the slot `index`, if the slot exists and is occupied.
    pub fn get_mut(&mut self, index: usize) -> (r: Option<&mut T>)
        requires
            old(self).wf(),
        ensures
            final(self).wf(),
            match r {
                Some(value) => {
                    &&& index < old(self).slots().len()
                    &&& old(self).slots()[index as int] == Some(*value)
                    &&& final(self).slots() == old(self).slots().update(index as int, Some(*final(value)))
                },
                None => {
                    &&& index >= old(self).slots().len() || old(self).slots()[index as int] is None
                    &&& final(self).slots() == old(self).slots()
                },
            },
    {
        match bits_get(&self.is_set, index) {
            Some(true) => match &mut self.data[index] {
                Some(value) => Some(value),
                None => vstd::pervasive::unreached(),
            },
            _ => None,
        }
    }

    /// Puts `value` into the slot `index`, returning the value it held before.
    ///
    /// Past the last slot nothing changes and `None` is returned.
    pub fn replace(&mut self, index: usize, value: Option<T>) -> (r: Option<T>)
        requires
            old(self).wf(),
        ensures
            final(self).wf(),
            index < old(self).slots().len() ==> {
                &&& r == old(self).slots()[index as int]
                &&& final(self).slots() == old(self).slots().update(index as int, value)
            },
            index >= old(self).slots().len() ==> r is None && final(self).slots() == old(self).slots(),
    {
        if bits_get(&self.is_set, index).is_none() {
            return None;
        }
        let is_some = value.is_some();
        bits_set(&mut self.is_set, index, is_some);
        let ghost before = self.data@;
        let mut previous = value;
        std::mem::swap(&mut self.data[index], &mut previous);
        proof {
            assert forall|i: int| 0 <= i < self.data@.len() implies #[trigger] bits_of(self.is_set)[i] == self.data@[i] is Some by {
                if i != index {
                    assert(self.data@[i] == before[i]);
                }
            }
        }
        previous
    }
}

impl<T> Default for OptVec<T> {
    fn default() -> (r: Self)
        ensures
            r.wf(),
            r.slots() == Seq::<Option<T>>::empty(),
    {
        OptVec::new()
    }
}

} // verus!
