//! Raw entity identifiers and their atomic counterparts.

use vstd::prelude::*;

verus! {

/// The primitive scalar type used for indexing storages.
pub type Primitive = usize;

/// A raw entity ID.
///
/// Raw IDs start from 1; the value 0 is never a valid ID.
/// Types implementing this trait are only used in storage internals.
pub trait Raw: Sized + Copy {
    /// The integer value of this ID.
    spec fn primitive(self) -> int;

    /// The largest value this ID type can hold.
    spec fn max_primitive() -> int;

    /// The atomic variant of this data type.
    type Atomic: Atomic<Self>;

    /// Creates the smallest value of this type in atomic form, used for initialization.
    fn new() -> Self::Atomic;

    /// The smallest valid ID.
    fn first() -> (r: Self)
        ensures
            r.primitive() == 1,
    ;

    /// Equivalent to `self + count`, does not mutate any values.
    fn add(self, count: Primitive) -> (r: Self)
        requires
            self.primitive() + count <= Self::max_primitive(),
        ensures
            r.primitive() == self.primitive() + count,
    ;

    /// Equivalent to `self - other`, does not mutate any values.
    fn sub(self, other: Self) -> (r: Primitive)
        requires
            other.primitive() <= self.primitive(),
            self.primitive() - other.primitive() <= usize::MAX,
        ensures
            r == self.primitive() - other.primitive(),
    ;

    /// Returns the midpoint between two IDs, rounded down.
    fn approx_midpoint(self, other: Self) -> (r: Self)
        requires
            self.primitive() >= 1,
            other.primitive() >= 1,
            self.primitive() <= Self::max_primitive(),
            other.primitive() <= Self::max_primitive(),
        ensures
            r.primitive() == (self.primitive() + other.primitive()) / 2,
    ;

    /// Converts the primitive scalar to the ID.
    fn from_primitive(i: Primitive) -> (r: Self)
        requires
            1 <= i <= Self::max_primitive(),
        ensures
            r.primitive() == i,
    ;

    /// Converts the ID to a primitive scalar.
    fn to_primitive(self) -> (r: Primitive)
        requires
            self.primitive() <= usize::MAX,
        ensures
            r == self.primitive(),
    ;

    /// Whether `self` is strictly smaller than `other`.
    fn less_than(self, other: Self) -> (r: bool)
        ensures
            r == (self.primitive() < other.primitive()),
    ;

    /// Lists all IDs in the range `start..end`.
    fn range(start: Self, end: Self) -> (r: Vec<Self>)
        requires
            start.primitive() <= end.primitive(),
        ensures
            r@.len() == end.primitive() - start.primitive(),
            forall|i: int| 0 <= i < r@.len() ==> #[trigger] r@[i].primitive() == start.primitive() + i,
    ;
}

/// An atomic variant of [`Raw`].
///
/// Atomics are shared between threads, so nothing is promised about the values they return.
pub trait Atomic<E>: Sized {
    /// The largest count that can be added at once.
    spec fn max_count() -> int;

    /// Adds `count` and returns the previous value.
    fn fetch_add(&self, count: usize) -> E
        requires
            count <= Self::max_count(),
    ;

    /// Reads the current value.
    fn load(&self) -> E;

    /// Reads the current value through an exclusive reference.
    fn load_mut(&mut self) -> E;
}

impl Raw for u32 {
    open spec fn primitive(self) -> int {
        self as int
    }

    open spec fn max_primitive() -> int {
        u32::MAX as int
    }

    type Atomic = std::sync::atomic::AtomicU32;

    fn new() -> Self::Atomic {
        std::sync::atomic::AtomicU32::new(1)
    }

    fn first() -> (r: Self) {
        1
    }

    fn add(self, count: Primitive) -> (r: Self) {
        self + count as u32
    }

    fn sub(self, other: Self) -> (r: Primitive) {
        (self - other) as usize
    }

    fn approx_midpoint(self, other: Self) -> (r: Self) {
        ((self as u64 + other as u64) / 2) as u32
    }

    fn from_primitive(i: Primitive) -> (r: Self) {
        i as u32
    }

    fn to_primitive(self) -> (r: Primitive) {
        self as usize
    }

    fn less_than(self, other: Self) -> (r: bool) {
        self < other
    }

    fn range(start: Self, end: Self) -> (r: Vec<Self>) {
        let mut out: Vec<u32> = Vec::new();
        let mut v = start;
        while v < end
            invariant
                start <= v <= end,
                out@.len() == v - start,
                forall|i: int| 0 <= i < out@.len() ==> #[trigger] out@[i] == start + i,
            decreases end - v,
        {
            out.push(v);
            v += 1;
        }
        out
    }
}

impl Raw for u16 {
    open spec fn primitive(self) -> int {
        self as int
    }

    open spec fn max_primitive() -> int {
        u16::MAX as int
    }

    type Atomic = std::sync::atomic::AtomicU16;

    fn new() -> Self::Atomic {
        std::sync::atomic::AtomicU16::new(1)
    }

    fn first() -> (r: Self) {
        1
    }

    fn add(self, count: Primitive) -> (r: Self) {
        self + count as u16
    }

    fn sub(self, other: Self) -> (r: Primitive) {
        (self - other) as usize
    }

    fn approx_midpoint(self, other: Self) -> (r: Self) {
        ((self as u32 + other as u32) / 2) as u16
    }

    fn from_primitive(i: Primitive) -> (r: Self) {
        i as u16
    }

    fn to_primitive(self) -> (r: Primitive) {
        self as usize
    }

    fn less_than(self, other: Self) -> (r: bool) {
        self < other
    }

    fn range(start: Self, end: Self) -> (r: Vec<Self>) {
        let mut out: Vec<u16> = Vec::new();
        let mut v = start;
        while v < end
            invariant
                start <= v <= end,
                out@.len() == v - start,
                forall|i: int| 0 <= i < out@.len() ==> #[trigger] out@[i] == start + i,
            decreases end - v,
        {
            out.push(v);
            v += 1;
        }
        out
    }
}

impl Raw for u64 {
    open spec fn primitive(self) -> int {
        self as int
    }

    open spec fn max_primitive() -> int {
        u64::MAX as int
    }

    type Atomic = std::sync::atomic::AtomicU64;

    fn new() -> Self::Atomic {
        std::sync::atomic::AtomicU64::new(1)
    }

    fn first() -> (r: Self) {
        1
    }

    fn add(self, count: Primitive) -> (r: Self) {
        self + count as u64
    }

    fn sub(self, other: Self) -> (r: Primitive) {
        (self - other) as usize
    }

    fn approx_midpoint(self, other: Self) -> (r: Self) {
        (self / 2 + other / 2 + (self % 2 + other % 2) / 2) as u64
    }

    fn from_primitive(i: Primitive) -> (r: Self) {
        i as u64
    }

    fn to_primitive(self) -> (r: Primitive) {
        self as usize
    }

    fn less_than(self, other: Self) -> (r: bool) {
        self < other
    }

    fn range(start: Self, end: Self) -> (r: Vec<Self>) {
        let mut out: Vec<u64> = Vec::new();
        let mut v = start;
        while v < end
            invariant
                start <= v <= end,
                out@.len() == v - start,
                forall|i: int| 0 <= i < out@.len() ==> #[trigger] out@[i] == start + i,
            decreases end - v,
        {
            out.push(v);
            v += 1;
        }
        out
    }
}

/// Narrows a count that fits in `u16`.
pub(crate) fn narrow_u16(count: usize) -> (r: u16)
    requires
        count <= u16::MAX,
    ensures
        r == count,
{
    count as u16
}

/// Narrows a count that fits in `u32`.
pub(crate) fn narrow_u32(count: usize) -> (r: u32)
    requires
        count <= u32::MAX,
    ensures
        r == count,
{
    count as u32
}

/// Widens a count to `u64`.
pub(crate) fn widen_u64(count: usize) -> (r: u64)
    ensures
        r == count,
{
    count as u64
}

} // verus!
