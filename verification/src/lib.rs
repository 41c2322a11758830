//! Typed, hierarchy-aware object handles over a `bevy_ecs` world.
//!
//! The crate has three layers:
//!
//! * [`host`] is the boundary to the entity store: the few lookups that are
//!   taken from `bevy_ecs` and `moonshine_tag` on trust, each with the
//!   mathematical name of what it reads.
//! * [`hierarchy`] and [`path`] hold the model of the entity tree and of
//!   object paths; [`walker`] produces ancestor chains and descendant
//!   orders, and [`path`] resolves paths. [`laws`] states what holds of
//!   them in general.
//! * [`kind`], [`object`], [`object_ref`] and [`objects`] hold the handles:
//!   an entity together with the kind it is known to be of.
//!
//! Entities are identified by the 64 bits that `Entity::to_bits` gives.

pub mod hierarchy;
pub mod host;
pub mod kind;
pub mod laws;
pub mod object;
pub mod object_ref;
pub mod objects;
pub mod path;
pub mod prelude;
pub mod walker;

pub use kind::{Instance, Kind};
pub use object::{Object, ObjectHierarchy, ObjectInstance, ObjectName, ObjectRebind, ObjectTags};
pub use object_ref::ObjectRef;
pub use objects::{LookupError, Objects, SingleError};
