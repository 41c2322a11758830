//! The types and traits that working with objects takes.

pub use crate::kind::Kind;
pub use crate::object::{Object, ObjectHierarchy, ObjectName, ObjectRebind};
pub use crate::object_ref::ObjectRef;
pub use crate::objects::Objects;
