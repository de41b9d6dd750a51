//! An opinionated ECS framework with statically archetyped entities,
//! sharded entity ID allocation with recycling, and trackable entity references.

pub mod archetype;
pub use archetype::Archetype;

pub mod comp;

pub mod entity;
pub use entity::Entity;

pub mod global;
pub use global::Global;

pub mod optvec;
pub use optvec::OptVec;
