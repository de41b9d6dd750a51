//! Global states shared by all systems.

use vstd::prelude::*;

use crate::entity::Referrer;

verus! {

/// A global state that can be requested by all systems.
///
/// A global state may be a transitive owner of entity references.
/// Thus, all global states must implement [`Referrer`].
pub trait Global: Referrer + Sized {
    /// The value of the state when some system requests this type
    /// but it was not provided separately.
    ///
    /// A type without a meaningful initial value must be provided manually.
    fn initial() -> Self;
}

} // verus!
