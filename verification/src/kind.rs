//! Kinds and instances.
//!
//! A [`Kind`] names a predicate over the entities of a world. An
//! [`Instance`] is an entity together with the kind that it is claimed to be
//! of; the claim is [`Instance::valid_in`] a world where the predicate holds
//! of the entity there.

use crate::host::{component_sets, has_component};
use bevy_ecs::world::World;
use vstd::prelude::*;

verus! {

/// The kind of an entity.
#[derive(Clone, Copy, Debug, PartialEq, Eq, Structural)]
pub enum Kind {
    /// The kind of every entity: it asks nothing.
    Any,
    /// The kind of the entities that have the component with this index
    /// (`ComponentId::index`).
    Component(usize),
}

impl Kind {
    /// The predicate of the kind: whether `entity` is of this kind in
    /// `world`.
    pub open spec fn holds_in(self, world: World, entity: u64) -> bool {
        match self {
            Kind::Any => true,
            Kind::Component(component) => component_sets(world).contains_key(entity)
                && component_sets(world)[entity].contains(component),
        }
    }

    /// The conversions that are safe by declaration: a kind converts into
    /// itself and into [`Kind::Any`].
    pub open spec fn casts_into(self, target: Kind) -> bool {
        target == Kind::Any || target == self
    }

    /// Whether this kind converts into `target` by declaration.
    pub fn can_cast_into(self, target: Kind) -> (safe: bool)
        ensures
            safe == self.casts_into(target),
    {
        match target {
            Kind::Any => true,
            Kind::Component(wanted) => match self {
                Kind::Any => false,
                Kind::Component(own) => own == wanted,
            },
        }
    }

    /// Asks the world whether `entity` is of this kind.
    pub fn test(self, world: &World, entity: u64) -> (holds: bool)
        ensures
            holds == self.holds_in(*world, entity),
    {
        match self {
            Kind::Any => true,
            Kind::Component(component) => has_component(world, entity, component),
        }
    }

    /// A declared conversion is sound: what is of a kind is of every kind
    /// that the kind converts into.
    pub proof fn lemma_cast_sound(self, target: Kind, world: World, entity: u64)
        requires
            self.casts_into(target),
            self.holds_in(world, entity),
        ensures
            target.holds_in(world, entity),
    {
    }

    /// Declared conversions compose.
    pub proof fn lemma_cast_transitive(self, middle: Kind, target: Kind)
        requires
            self.casts_into(middle),
            middle.casts_into(target),
        ensures
            self.casts_into(target),
    {
    }
}

/// An entity of a kind: the plain value that a handle is built around.
#[derive(Clone, Copy, Debug, PartialEq, Eq, Structural)]
pub struct Instance {
    /// The bits of the entity.
    pub entity: u64,
    /// The kind that the entity is claimed to be of.
    pub kind: Kind,
}

impl Instance {
    /// The claim holds: `entity` is of `kind` in `world`.
    pub open spec fn valid_in(self, world: World) -> bool {
        self.kind.holds_in(world, self.entity)
    }

    /// An instance of `kind` for `entity`, with nothing checked.
    pub fn from_entity_unchecked(entity: u64, kind: Kind) -> (instance: Instance)
        ensures
            instance == (Instance { entity, kind }),
    {
        Instance { entity, kind }
    }

    /// An instance of `kind` for `entity`, if the entity is of that kind in
    /// `world`.
    pub fn from_entity(world: &World, entity: u64, kind: Kind) -> (instance: Option<Instance>)
        ensures
            instance == (if kind.holds_in(*world, entity) {
                Some(Instance { entity, kind })
            } else {
                None
            }),
    {
        if kind.test(world, entity) {
            Some(Instance { entity, kind })
        } else {
            None
        }
    }

    /// The entity of this instance.
    pub fn entity(&self) -> (entity: u64)
        ensures
            entity == self.entity,
    {
        self.entity
    }

    /// The same entity as an instance of [`Kind::Any`].
    pub fn cast_into_any(self) -> (instance: Instance)
        ensures
            instance == (Instance { entity: self.entity, kind: Kind::Any }),
    {
        Instance { entity: self.entity, kind: Kind::Any }
    }
}

} // verus!
