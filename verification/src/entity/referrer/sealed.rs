//! Seals the visitor trait against outside implementations.

use vstd::prelude::*;

verus! {

/// Implemented only by the visitors of this crate.
pub trait Sealed {}

} // verus!
