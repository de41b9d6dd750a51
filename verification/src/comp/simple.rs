//! Presence of simple components.

use vstd::prelude::*;

verus! {

/// Describes whether a simple component must be present.
#[derive(Clone, Copy, Debug, PartialEq, Eq, Structural)]
pub enum SimplePresence {
    /// The component may not be present in an entity.
    /// The component is always retrieved as an `Option` type.
    Optional,
    /// The component must be present in an entity.
    /// It can be mutated, but it cannot be removed from the entity.
    Required,
}

} // verus!
