//! An archetype is a kind of entity with a fixed set of (optional) components.
//!
//! It is comparable to a class in OOP-based designs.
//! Entities of different archetypes are stored separately,
//! and per-archetype data is looked up by the archetype's key.

use vstd::prelude::*;

verus! {

/// An archetype is a kind of entity with a fixed set of (optional) components.
///
/// Each archetype is identified by a key that is distinct from the keys of
/// all other archetypes in the same world.
pub trait Archetype: 'static {
    /// The key identifying this archetype.
    const KEY: u64;
}

} // verus!
