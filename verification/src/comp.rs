//! A component is a small data structure that can be attached to an entity.
//!
//! Components can only be attached to entities of an archetype `A`
//! where the component type implements [`Simple<A>`] or [`Isotope<A>`].
//!
//! # Simple vs Isotope components
//! Component types that implement [`Simple`] are called simple components.
//! There can only be one instance of each simple component type for each entity.
//! This means that each entity is effectively a typemap of its simple components.
//!
//! Component types that implement [`Isotope`] are called isotope components.
//! For an isotope component type `C`,
//! there can be multiple instances of `C` stored on the same entity,
//! indexed by [its discriminant type](Isotope::Discrim) [`Discrim`].
//! You can consider isotope components to be basically simple components with the type `Vec<C>`,
//! except with more efficient storage.
//!
//! # Identification
//! Like archetypes, component types are identified by keys:
//! each component type has a key that is distinct from those of all other component types
//! of the same archetype.

use vstd::prelude::*;

use crate::entity::Referrer;
use crate::Archetype;

pub mod discrim;
pub use discrim::Discrim;

pub mod any;
pub use any::ComponentMap;

pub mod simple;
pub use simple::SimplePresence;

verus! {

/// A simple component has only one instance per entity.
pub trait Simple<A: Archetype>: Referrer + Send + Sync + Sized {
    /// The key identifying this component type.
    const KEY: u64;

    /// The presence constraint of this component.
    const PRESENCE: Presence;

    /// Whether the component is a finalizer.
    ///
    /// Finalizer components must be [optional](Presence::Optional).
    /// Entities are not removed until all finalizer components have been removed.
    const IS_FINALIZER: bool = false;
}

/// An isotope component may have multiple instances per entity.
pub trait Isotope<A: Archetype>: Referrer + Send + Sync + Sized {
    /// The discriminant type.
    type Discrim: Discrim + Send + Sync;

    /// The key identifying this component type.
    const KEY: u64;
}

/// Describes whether a simple component must be present.
#[derive(Clone, Copy, Debug, PartialEq, Eq, Structural)]
pub enum Presence {
    /// The component may not be present in an entity.
    /// The component is always retrieved as an `Option` type.
    Optional,
    /// The component must be present in an entity.
    /// It can be mutated, but it cannot be removed from the entity.
    Required,
}

/// Marks that a component type is always present.
///
/// This trait must only be implemented by components that
/// implement [`Simple`] with [`Simple::PRESENCE`] set to [`Presence::Required`].
pub trait Must<A: Archetype> {}

} // verus!
