//! [`Atomic`](super::raw::Atomic) for the standard atomic integers.

use std::sync::atomic::{AtomicU16, AtomicU32, AtomicU64, Ordering};

use vstd::prelude::*;

use super::raw::{narrow_u16, narrow_u32, widen_u64, Atomic};

verus! {

/// `AtomicU32::get_mut`, read through the exclusive reference.
///
/// Nothing is stated of the value read: the atomic's contents are opaque here.
#[verifier::external_body]
fn read_exclusive_u32(a: &mut AtomicU32) -> u32 {
    *a.get_mut()
}

/// `AtomicU16::get_mut`, read through the exclusive reference.
///
/// Nothing is stated of the value read: the atomic's contents are opaque here.
#[verifier::external_body]
fn read_exclusive_u16(a: &mut AtomicU16) -> u16 {
    *a.get_mut()
}

/// `AtomicU64::get_mut`, read through the exclusive reference.
///
/// Nothing is stated of the value read: the atomic's contents are opaque here.
#[verifier::external_body]
fn read_exclusive_u64(a: &mut AtomicU64) -> u64 {
    *a.get_mut()
}

impl Atomic<u32> for AtomicU32 {
    open spec fn max_count() -> int {
        u32::MAX as int
    }

    fn fetch_add(&self, count: usize) -> u32 {
        AtomicU32::fetch_add(self, narrow_u32(count), Ordering::SeqCst)
    }

    fn load(&self) -> u32 {
        AtomicU32::load(self, Ordering::SeqCst)
    }

    fn load_mut(&mut self) -> u32 {
        read_exclusive_u32(self)
    }
}

impl Atomic<u16> for AtomicU16 {
    open spec fn max_count() -> int {
        u16::MAX as int
    }

    fn fetch_add(&self, count: usize) -> u16 {
        AtomicU16::fetch_add(self, narrow_u16(count), Ordering::SeqCst)
    }

    fn load(&self) -> u16 {
        AtomicU16::load(self, Ordering::SeqCst)
    }

    fn load_mut(&mut self) -> u16 {
        read_exclusive_u16(self)
    }
}

impl Atomic<u64> for AtomicU64 {
    open spec fn max_count() -> int {
        usize::MAX as int
    }

    fn fetch_add(&self, count: usize) -> u64 {
        AtomicU64::fetch_add(self, widen_u64(count), Ordering::SeqCst)
    }

    fn load(&self) -> u64 {
        AtomicU64::load(self, Ordering::SeqCst)
    }

    fn load_mut(&mut self) -> u64 {
        read_exclusive_u64(self)
    }
}

} // verus!
