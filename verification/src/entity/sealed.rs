//! Seals the entity reference traits against outside implementations.

use vstd::prelude::*;

verus! {

/// Implemented only by the entity reference types of this crate.
pub trait Sealed {}

} // verus!
