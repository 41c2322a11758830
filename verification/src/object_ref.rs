//! Object handles that carry a second entity along, whose components they
//! read.

use crate::hierarchy::{hierarchy_of, Hierarchy};
use crate::host::has_component;
use crate::kind::{Instance, Kind};
use crate::object::{
    are_any_of, is_any_of, Object, ObjectHierarchy, ObjectInstance, ObjectName, ObjectRebind,
    ObjectTags,
};
use bevy_ecs::world::World;
use moonshine_tag::Tags;
use vstd::prelude::*;

verus! {

/// An [`Object`] together with the entity whose components are read
/// through the handle: its source.
///
/// A lookup gives a reference whose source is the object's own entity.
/// Rebinding and walking change the object and keep the source.
#[derive(Clone, Copy)]
pub struct ObjectRef<'w> {
    source: u64,
    object: Object<'w>,
}

impl<'w> ObjectRef<'w> {
    /// The entity whose components this reference reads.
    pub closed spec fn source(&self) -> u64 {
        self.source
    }

    /// A reference that reads the components of `source` and stands for
    /// `object`.
    pub fn new(source: u64, object: Object<'w>) -> (reference: Self)
        ensures
            reference.source() == source,
            reference.world() == object.world(),
            reference.id() == object.id(),
            reference.kind() == object.kind(),
    {
        ObjectRef { source, object }
    }

    /// References with the source of this one for the given objects.
    fn bind_all(&self, objects: Vec<Object<'w>>, Ghost(entities): Ghost<Seq<u64>>) -> (references:
        Vec<Self>)
        requires
            are_any_of(objects@, self.object, entities),
        ensures
            are_any_of(references@, *self, entities),
    {
        let mut references: Vec<Self> = Vec::new();
        let mut i: usize = 0;
        while i < objects.len()
            invariant
                i <= objects.len(),
                are_any_of(objects@, self.object, entities),
                are_any_of(references@, *self, entities.take(i as int)),
            decreases objects.len() - i,
        {
            references.push(ObjectRef { source: self.source, object: objects[i] });
            i = i + 1;
        }
        assert(entities.take(entities.len() as int) =~= entities);
        references
    }

    /// Casts a reference of [`Kind::Any`] down to `kind`.
    ///
    /// Nothing is checked: the caller vouches that the entity is of that
    /// kind.
    pub fn from_base_unchecked(base: ObjectRef<'w>, kind: Kind) -> (reference: Self)
        requires
            kind.holds_in(base.world(), base.id()),
        ensures
            reference.source() == base.source(),
            reference.world() == base.world(),
            reference.id() == base.id(),
            reference.kind() == kind,
    {
        ObjectRef { source: base.source, object: Object::from_base_unchecked(base.object, kind) }
    }

    /// Whether the source has the component with the given index.
    pub fn contains(&self, component: usize) -> (has: bool)
        ensures
            has == Kind::Component(component).holds_in(self.world(), self.source()),
    {
        has_component(self.object.world_ref(), self.source, component)
    }

    /// The object that this reference stands for.
    pub fn object(&self) -> (object: Object<'w>)
        ensures
            object.world() == self.world(),
            object.id() == self.id(),
            object.kind() == self.kind(),
    {
        self.object
    }
}

impl<'w> ObjectInstance for ObjectRef<'w> {
    closed spec fn world(&self) -> World {
        self.object.world()
    }

    closed spec fn id(&self) -> u64 {
        self.object.id()
    }

    closed spec fn kind(&self) -> Kind {
        self.object.kind()
    }

    open spec fn same_source(&self, other: &Self) -> bool {
        other.source() == self.source()
    }

    fn instance(&self) -> (instance: Instance) {
        proof {
            assert(self.id() == self.object.id());
            assert(self.kind() == self.object.kind());
            assert(self.world() == self.object.world());
        }
        self.object.instance()
    }
}

impl<'w> PartialEq for ObjectRef<'w> {
    /// Two references are equal where they stand for the same entity,
    /// whatever their sources.
    fn eq(&self, other: &Self) -> (same: bool) {
        self.object.entity() == other.object.entity()
    }
}

impl<'w> Eq for ObjectRef<'w> {

}

impl<'w> vstd::std_specs::cmp::PartialEqSpecImpl for ObjectRef<'w> {
    open spec fn obeys_eq_spec() -> bool {
        true
    }

    open spec fn eq_spec(&self, other: &Self) -> bool {
        self.id() == other.id()
    }
}

impl<'w> ObjectName for ObjectRef<'w> {
    fn name(&self) -> (name: Option<&str>) {
        self.object.name()
    }
}

impl<'w> ObjectTags for ObjectRef<'w> {
    fn tags(&self) -> (tags: &Tags) {
        self.object.tags()
    }
}

impl<'w> ObjectRebind for ObjectRef<'w> {
    fn rebind_as(&self, instance: Instance) -> (object: Self) {
        ObjectRef { source: self.source, object: self.object.rebind_as(instance) }
    }
}

impl<'w> ObjectHierarchy for ObjectRef<'w> {
    fn parent(&self) -> (parent: Option<Self>) {
        match self.object.parent() {
            Some(parent) => Some(ObjectRef { source: self.source, object: parent }),
            None => None,
        }
    }

    fn children(&self) -> (children: Vec<Self>)
    {
        let objects = self.object.children();
        self.bind_all(objects, Ghost(hierarchy_of(self.world()).children(self.id())))
    }

    fn ancestors(&self) -> (chain: Vec<Self>)
    {
        let objects = self.object.ancestors();
        self.bind_all(objects, Ghost(hierarchy_of(self.world()).ancestors(self.id())))
    }

    fn descendants_wide(&self) -> (order: Vec<Self>)
    {
        let objects = self.object.descendants_wide();
        self.bind_all(objects, Ghost(hierarchy_of(self.world()).descendants_wide(self.id())))
    }

    fn descendants_deep(&self) -> (order: Vec<Self>)
    {
        let objects = self.object.descendants_deep();
        self.bind_all(objects, Ghost(hierarchy_of(self.world()).descendants_deep(self.id())))
    }

    fn find_by_path(&self, path: &str) -> (found: Option<Self>) {
        match self.object.find_by_path(path) {
            Some(found) => Some(ObjectRef { source: self.source, object: found }),
            None => None,
        }
    }

    fn is_rooted_within(&self, limit: usize) -> (rooted: bool) {
        self.object.is_rooted_within(limit)
    }

    fn is_bounded_below(&self, limit: usize) -> (bounded: bool) {
        self.object.is_bounded_below(limit)
    }
}

} // verus!
