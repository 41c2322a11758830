//! Object handles and what every handle offers.
//!
//! An [`Object`] is an [`Instance`] together with the world it was found
//! in. A handle is only ever built for an instance that is valid in its
//! world: the checked constructors test the kind, the unchecked ones ask
//! the caller for it, and the safe casts preserve it. So whoever holds a
//! handle may rely on [`ObjectInstance::instance`] being of its kind.
//!
//! The traits of this module are what [`Object`] and
//! [`ObjectRef`](crate::object_ref::ObjectRef) have in common.

use crate::hierarchy::{hierarchy_of, Hierarchy};
use crate::host::{entity_tags, name_of, no_tags, tag_hashes, tags_of};
use crate::kind::{Instance, Kind};
use crate::objects::Objects;
use crate::path::{find_by_path, split};
use crate::walker;
use bevy_ecs::world::World;
use moonshine_tag::Tags;
use vstd::prelude::*;
use vstd::string::*;

verus! {

/// The hashes of the tags of `entity` in `world`; none for an entity
/// without tags.
pub open spec fn tags_in(world: World, entity: u64) -> Set<u64> {
    if entity_tags(world).contains_key(entity) {
        entity_tags(world)[entity]
    } else {
        Set::empty()
    }
}

/// How an object is shown: the name of its kind, then in brackets the text
/// of its entity and, after a comma and in double quotes, its name if it
/// has one.
pub open spec fn shown_as(kind: Seq<char>, entity: Seq<char>, name: Option<Seq<char>>) -> Seq<char> {
    match name {
        Some(name) => kind + seq!['('] + entity + seq![',', ' ', '"'] + name + seq!['"', ')'],
        None => kind + seq!['('] + entity + seq![')'],
    }
}

/// `object` is what `from` gives when it is bound to `entity` as
/// [`Kind::Any`]: a handle for `entity` of that kind, in the same world and
/// with the same source.
pub open spec fn is_any_of<O: ObjectInstance>(object: O, from: O, entity: u64) -> bool {
    &&& object.world() == from.world()
    &&& from.same_source(&object)
    &&& object.id() == entity
    &&& object.kind() == Kind::Any
}

/// `objects` are what `from` gives when it is bound to each of `entities`
/// as [`Kind::Any`], one for one.
pub open spec fn are_any_of<O: ObjectInstance>(objects: Seq<O>, from: O, entities: Seq<u64>) -> bool {
    &&& objects.len() == entities.len()
    &&& forall|i: int|
        0 <= i < objects.len() ==> is_any_of(#[trigger] objects[i], from, entities[i])
}

/// The entities of a list of handles.
pub open spec fn entities_of<O: ObjectInstance>(objects: Seq<O>) -> Seq<u64> {
    Seq::new(objects.len(), |i: int| objects[i].id())
}

/// The entities of a list of handles, as a list.
pub(crate) fn list_entities<O: ObjectInstance>(objects: &Vec<O>) -> (entities: Vec<u64>)
    ensures
        entities@ == entities_of(objects@),
{
    let mut entities: Vec<u64> = Vec::new();
    let mut i: usize = 0;
    while i < objects.len()
        invariant
            i <= objects.len(),
            entities@ == entities_of(objects@.take(i as int)),
        decreases objects.len() - i,
    {
        entities.push(objects[i].entity());
        i = i + 1;
        assert(entities@ =~= entities_of(objects@.take(i as int)));
    }
    assert(objects@.take(objects@.len() as int) =~= objects@);
    entities
}

/// A handle stands for an instance in a world.
pub trait ObjectInstance: Sized {
    /// The world that the handle reads.
    spec fn world(&self) -> World;

    /// The entity that the handle stands for.
    spec fn id(&self) -> u64;

    /// The kind that the entity is known to be of.
    spec fn kind(&self) -> Kind;

    /// Whether `other` reads components where this handle reads them. This
    /// is what rebinding keeps besides the world: nothing for an
    /// [`Object`], the source for an
    /// [`ObjectRef`](crate::object_ref::ObjectRef).
    spec fn same_source(&self, other: &Self) -> bool;

    /// The instance of this object. It is valid in the world of the handle.
    fn instance(&self) -> (instance: Instance)
        ensures
            instance == (Instance { entity: self.id(), kind: self.kind() }),
            instance.valid_in(self.world()),
    ;

    /// The entity of this object.
    fn entity(&self) -> (entity: u64)
        ensures
            entity == self.id(),
    {
        self.instance().entity()
    }
}

/// A handle knows the name of its entity.
pub trait ObjectName: ObjectInstance {
    /// The name of this object, if it has one.
    fn name(&self) -> (name: Option<&str>)
        ensures
            name is Some <==> hierarchy_of(self.world()).name(self.id()) is Some,
            name matches Some(text) ==> hierarchy_of(self.world()).name(self.id()) == Some(text@),
    ;

    /// The text that shows this object, given the name of its kind and the
    /// text of its entity: `Kind(entity)`, or `Kind(entity, "name")` for an
    /// object with a name.
    fn describe(&self, kind: &str, entity: &str) -> (text: String)
        ensures
            text@ == shown_as(kind@, entity@, hierarchy_of(self.world()).name(self.id())),
    {
        proof {
            reveal_strlit("(");
            reveal_strlit(", \"");
            reveal_strlit("\")");
            reveal_strlit(")");
            assert("("@ =~= seq!['(']);
            assert(", \""@ =~= seq![',', ' ', '"']);
            assert("\")"@ =~= seq!['"', ')']);
            assert(")"@ =~= seq![')']);
        }
        let mut text = String::from_str(kind);
        text.append("(");
        text.append(entity);
        match self.name() {
            Some(name) => {
                text.append(", \"");
                text.append(name);
                text.append("\")");
            },
            None => {
                text.append(")");
            },
        }
        text
    }
}

/// A handle knows the tags of its entity.
pub trait ObjectTags: ObjectInstance {
    /// The tags of this object; the shared empty set where it has none.
    fn tags(&self) -> (tags: &Tags)
        ensures
            tag_hashes(*tags) == tags_in(self.world(), self.id()),
    ;
}

/// A handle can be bound to another instance of the same world, and its
/// kind can be cast.
pub trait ObjectRebind: ObjectInstance {
    /// Binds the handle to an instance of any kind.
    ///
    /// The instance is not checked: the caller vouches that it is valid.
    fn rebind_as(&self, instance: Instance) -> (object: Self)
        requires
            instance.valid_in(self.world()),
        ensures
            object.world() == self.world(),
            self.same_source(&object),
            object.id() == instance.entity,
            object.kind() == instance.kind,
    ;

    /// Binds the handle to another instance of its own kind.
    ///
    /// The instance is not checked: the caller vouches that it is valid.
    fn rebind(&self, instance: Instance) -> (object: Self)
        requires
            instance.kind == self.kind(),
            instance.valid_in(self.world()),
        ensures
            object.world() == self.world(),
            self.same_source(&object),
            object.id() == instance.entity,
            object.kind() == self.kind(),
    {
        self.rebind_as(instance)
    }

    /// Binds the handle to another entity, as [`Kind::Any`]. Nothing is
    /// asked of the entity, as that kind has no predicate.
    fn rebind_any(&self, entity: u64) -> (object: Self)
        ensures
            is_any_of(object, *self, entity),
    {
        self.rebind_as(Instance::from_entity_unchecked(entity, Kind::Any))
    }

    /// Casts the handle into a kind that its own kind converts into by
    /// declaration. The entity stays the same, and it is of the new kind.
    fn cast_into(self, target: Kind) -> (object: Self)
        requires
            self.kind().casts_into(target),
        ensures
            object.world() == self.world(),
            self.same_source(&object),
            object.id() == self.id(),
            object.kind() == target,
    {
        let instance = self.instance();
        proof {
            instance.kind.lemma_cast_sound(target, self.world(), instance.entity);
        }
        self.rebind_as(Instance::from_entity_unchecked(instance.entity(), target))
    }

    /// Casts the handle into [`Kind::Any`], which every kind converts into.
    fn cast_into_any(self) -> (object: Self)
        ensures
            is_any_of(object, self, self.id()),
    {
        let instance = self.instance();
        self.rebind_as(instance.cast_into_any())
    }

    /// Casts the handle into any kind.
    ///
    /// Nothing is checked: the caller vouches that the entity is of the new
    /// kind.
    fn cast_into_unchecked(self, target: Kind) -> (object: Self)
        requires
            target.holds_in(self.world(), self.id()),
        ensures
            object.world() == self.world(),
            self.same_source(&object),
            object.id() == self.id(),
            object.kind() == target,
    {
        let entity = self.entity();
        self.rebind_as(Instance::from_entity_unchecked(entity, target))
    }

    /// This object as [`Kind::Any`].
    fn as_any(&self) -> (object: Self)
        ensures
            is_any_of(object, *self, self.id()),
    {
        self.rebind_any(self.entity())
    }
}

/// Whether `entity` occurs in `entities`.
pub(crate) fn has_entity(entities: &Vec<u64>, entity: u64) -> (found: bool)
    ensures
        found == entities@.contains(entity),
{
    let mut i: usize = 0;
    while i < entities.len()
        invariant
            i <= entities.len(),
            forall|j: int| 0 <= j < i ==> entities@[j] != entity,
        decreases entities.len() - i,
    {
        if entities[i] == entity {
            return true;
        }
        i = i + 1;
    }
    false
}

/// Handles of kind [`Kind::Any`] for a list of entities have those entities.
pub(crate) proof fn lemma_entities_of_any<O: ObjectInstance>(objects: Seq<O>, from: O, entities: Seq<u64>)
    requires
        are_any_of(objects, from, entities),
    ensures
        entities_of(objects) == entities,
{
    assert(entities_of(objects) =~= entities);
}

/// A handle can walk the hierarchy of its entity.
///
/// What a walk returns is a handle of kind [`Kind::Any`] in the same world.
/// The walks that follow a chain to its end ask that it has one: see
/// [`Hierarchy::rooted`] and [`Hierarchy::finite_below`].
pub trait ObjectHierarchy: ObjectRebind + ObjectName {
    /// The parent of this object, if it has one.
    fn parent(&self) -> (parent: Option<Self>)
        ensures
            parent is Some <==> hierarchy_of(self.world()).parent(self.id()) is Some,
            parent matches Some(found) ==> is_any_of(
                found,
                *self,
                hierarchy_of(self.world()).parent(self.id()).unwrap(),
            ),
    ;

    /// The children of this object, in the order of the world.
    fn children(&self) -> (children: Vec<Self>)
        ensures
            are_any_of(children@, *self, hierarchy_of(self.world()).children(self.id())),
    ;

    /// The ancestors of this object, from its parent to its root.
    fn ancestors(&self) -> (chain: Vec<Self>)
        requires
            hierarchy_of(self.world()).rooted(self.id()),
        ensures
            are_any_of(chain@, *self, hierarchy_of(self.world()).ancestors(self.id())),
    ;

    /// The descendants of this object in breadth-first order.
    fn descendants_wide(&self) -> (order: Vec<Self>)
        requires
            hierarchy_of(self.world()).finite_below(self.id()),
        ensures
            are_any_of(order@, *self,
                hierarchy_of(self.world()).descendants_wide(self.id()),
            ),
    ;

    /// The descendants of this object in depth-first order.
    fn descendants_deep(&self) -> (order: Vec<Self>)
        requires
            hierarchy_of(self.world()).finite_below(self.id()),
        ensures
            are_any_of(order@, *self,
                hierarchy_of(self.world()).descendants_deep(self.id()),
            ),
    ;

    /// The object that `path` addresses relative to this one, if there is
    /// one. See [`crate::path`] for how a path is read.
    fn find_by_path(&self, path: &str) -> (found: Option<Self>)
        ensures
            found is Some <==> hierarchy_of(self.world()).resolve(self.id(), split(path@)) is Some,
            found matches Some(object) ==> is_any_of(
                object,
                *self,
                hierarchy_of(self.world()).resolve(self.id(), split(path@)).unwrap(),
            ),
    ;

    /// Whether the chain of parents above this object ends within `limit`
    /// steps.
    fn is_rooted_within(&self, limit: usize) -> (rooted: bool)
        ensures
            rooted == hierarchy_of(self.world()).rooted_within(self.id(), limit as nat),
            rooted ==> hierarchy_of(self.world()).rooted(self.id()),
    ;

    /// Whether every chain of children below this object ends within
    /// `limit` steps.
    fn is_bounded_below(&self, limit: usize) -> (bounded: bool)
        ensures
            bounded == hierarchy_of(self.world()).bounded_below(self.id(), limit as nat),
            bounded ==> hierarchy_of(self.world()).finite_below(self.id()),
    ;

    /// The root of the hierarchy of this object.
    fn root(&self) -> (root: Self)
        requires
            hierarchy_of(self.world()).rooted(self.id()),
        ensures
            is_any_of(root, *self, hierarchy_of(self.world()).root(self.id())),
    {
        let chain = self.ancestors();
        let n = chain.len();
        if n == 0 {
            self.as_any()
        } else {
            self.rebind_any(chain[n - 1].entity())
        }
    }

    /// Whether this object has no parent.
    fn is_root(&self) -> (root: bool)
        ensures
            root == (hierarchy_of(self.world()).parent(self.id()) is None),
    {
        self.parent().is_none()
    }

    /// Whether this object and `other` have the same root.
    fn is_related_to(&self, other: &Self) -> (related: bool)
        requires
            hierarchy_of(self.world()).rooted(self.id()),
            hierarchy_of(other.world()).rooted(other.id()),
        ensures
            related == (hierarchy_of(self.world()).root(self.id()) == hierarchy_of(
                other.world(),
            ).root(other.id())),
    {
        self.root().entity() == other.root().entity()
    }

    /// Whether this object has a parent.
    fn is_child(&self) -> (child: bool)
        ensures
            child == (hierarchy_of(self.world()).parent(self.id()) is Some),
    {
        self.parent().is_some()
    }

    /// Whether `entity` is the parent of this object.
    fn is_child_of(&self, entity: u64) -> (child: bool)
        ensures
            child == (hierarchy_of(self.world()).parent(self.id()) == Some(entity)),
    {
        match self.parent() {
            Some(parent) => parent.entity() == entity,
            None => false,
        }
    }

    /// Whether this object has any children.
    fn has_children(&self) -> (any: bool)
        ensures
            any == (hierarchy_of(self.world()).children(self.id()).len() > 0),
    {
        self.children().len() > 0
    }

    /// The children of this object that `objects` matches.
    fn children_of_kind<'a>(&self, objects: &Objects<'a>) -> (found: Vec<Object<'a>>)
        ensures
            objects.gives_all(
                found@,
                hierarchy_of(self.world()).children(self.id()).filter(objects.matching()),
            ),
    {
        let children = self.children();
        proof {
            lemma_entities_of_any(children@, *self,
                hierarchy_of(self.world()).children(self.id()),
            );
        }
        objects.select(&list_entities(&children))
    }

    /// The first child of this object that `objects` matches.
    fn find_child_of_kind<'a>(&self, objects: &Objects<'a>) -> (found: Option<Object<'a>>)
        ensures
            found is Some <==> hierarchy_of(self.world()).children(self.id()).filter(
                objects.matching(),
            ).len() > 0,
            found matches Some(object) ==> objects.gives(
                object,
                hierarchy_of(self.world()).children(self.id()).filter(objects.matching())[0],
            ),
    {
        let children = self.children();
        proof {
            lemma_entities_of_any(children@, *self,
                hierarchy_of(self.world()).children(self.id()),
            );
        }
        objects.first(&list_entities(&children))
    }

    /// This object, followed by its ancestors.
    fn self_and_ancestors(&self) -> (chain: Vec<Self>)
        requires
            hierarchy_of(self.world()).rooted(self.id()),
        ensures
            are_any_of(chain@, *self,
                hierarchy_of(self.world()).self_and_ancestors(self.id()),
            ),
    {
        let mut chain: Vec<Self> = Vec::new();
        chain.push(self.as_any());
        let mut above = self.ancestors();
        chain.append(&mut above);
        chain
    }

    /// Whether this object is an ancestor of `other`.
    fn is_ancestor_of(&self, other: &Self) -> (above: bool)
        requires
            hierarchy_of(other.world()).rooted(other.id()),
        ensures
            above == hierarchy_of(other.world()).ancestors(other.id()).contains(self.id()),
    {
        let chain = other.ancestors();
        proof {
            lemma_entities_of_any(chain@, *other,
                hierarchy_of(other.world()).ancestors(other.id()),
            );
        }
        has_entity(&list_entities(&chain), self.entity())
    }

    /// The ancestors of this object that `objects` matches.
    fn ancestors_of_kind<'a>(&self, objects: &Objects<'a>) -> (found: Vec<Object<'a>>)
        requires
            hierarchy_of(self.world()).rooted(self.id()),
        ensures
            objects.gives_all(
                found@,
                hierarchy_of(self.world()).ancestors(self.id()).filter(objects.matching()),
            ),
    {
        let chain = self.ancestors();
        proof {
            lemma_entities_of_any(chain@, *self,
                hierarchy_of(self.world()).ancestors(self.id()),
            );
        }
        objects.select(&list_entities(&chain))
    }

    /// This object and its ancestors, as far as `objects` matches them.
    fn self_and_ancestors_of_kind<'a>(&self, objects: &Objects<'a>) -> (found: Vec<Object<'a>>)
        requires
            hierarchy_of(self.world()).rooted(self.id()),
        ensures
            objects.gives_all(
                found@,
                hierarchy_of(self.world()).self_and_ancestors(self.id()).filter(
                    objects.matching(),
                ),
            ),
    {
        let chain = self.self_and_ancestors();
        proof {
            lemma_entities_of_any(chain@, *self,
                hierarchy_of(self.world()).self_and_ancestors(self.id()),
            );
        }
        objects.select(&list_entities(&chain))
    }

    /// The nearest ancestor of this object that `objects` matches.
    fn find_ancestor_of_kind<'a>(&self, objects: &Objects<'a>) -> (found: Option<Object<'a>>)
        requires
            hierarchy_of(self.world()).rooted(self.id()),
        ensures
            found is Some <==> hierarchy_of(self.world()).ancestors(self.id()).filter(
                objects.matching(),
            ).len() > 0,
            found matches Some(object) ==> objects.gives(
                object,
                hierarchy_of(self.world()).ancestors(self.id()).filter(objects.matching())[0],
            ),
    {
        let chain = self.ancestors();
        proof {
            lemma_entities_of_any(chain@, *self,
                hierarchy_of(self.world()).ancestors(self.id()),
            );
        }
        objects.first(&list_entities(&chain))
    }

    /// This object, followed by its descendants in breadth-first order.
    fn self_and_descendants_wide(&self) -> (order: Vec<Self>)
        requires
            hierarchy_of(self.world()).finite_below(self.id()),
        ensures
            are_any_of(order@, *self,
                seq![self.id()] + hierarchy_of(self.world()).descendants_wide(self.id()),
            ),
    {
        let mut order: Vec<Self> = Vec::new();
        order.push(self.as_any());
        let mut below = self.descendants_wide();
        order.append(&mut below);
        order
    }

    /// This object, followed by its descendants in depth-first order.
    fn self_and_descendants_deep(&self) -> (order: Vec<Self>)
        requires
            hierarchy_of(self.world()).finite_below(self.id()),
        ensures
            are_any_of(order@, *self,
                seq![self.id()] + hierarchy_of(self.world()).descendants_deep(self.id()),
            ),
    {
        let mut order: Vec<Self> = Vec::new();
        order.push(self.as_any());
        let mut below = self.descendants_deep();
        order.append(&mut below);
        order
    }

    /// Whether this object is a descendant of `entity`: whether `entity` is
    /// among its ancestors.
    fn is_descendant_of(&self, entity: u64) -> (below: bool)
        requires
            hierarchy_of(self.world()).rooted(self.id()),
        ensures
            below == hierarchy_of(self.world()).ancestors(self.id()).contains(entity),
    {
        let chain = self.ancestors();
        proof {
            lemma_entities_of_any(chain@, *self,
                hierarchy_of(self.world()).ancestors(self.id()),
            );
        }
        has_entity(&list_entities(&chain), entity)
    }

    /// The descendants of this object that `objects` matches, in
    /// breadth-first order.
    fn descendants_of_kind_wide<'a>(&self, objects: &Objects<'a>) -> (found: Vec<Object<'a>>)
        requires
            hierarchy_of(self.world()).finite_below(self.id()),
        ensures
            objects.gives_all(
                found@,
                hierarchy_of(self.world()).descendants_wide(self.id()).filter(
                    objects.matching(),
                ),
            ),
    {
        let order = self.descendants_wide();
        proof {
            lemma_entities_of_any(order@, *self,
                hierarchy_of(self.world()).descendants_wide(self.id()),
            );
        }
        objects.select(&list_entities(&order))
    }

    /// The descendants of this object that `objects` matches, in
    /// depth-first order.
    fn descendants_of_kind_deep<'a>(&self, objects: &Objects<'a>) -> (found: Vec<Object<'a>>)
        requires
            hierarchy_of(self.world()).finite_below(self.id()),
        ensures
            objects.gives_all(
                found@,
                hierarchy_of(self.world()).descendants_deep(self.id()).filter(
                    objects.matching(),
                ),
            ),
    {
        let order = self.descendants_deep();
        proof {
            lemma_entities_of_any(order@, *self,
                hierarchy_of(self.world()).descendants_deep(self.id()),
            );
        }
        objects.select(&list_entities(&order))
    }

    /// This object and its descendants in breadth-first order, as far as
    /// `objects` matches them.
    fn self_and_descendants_of_kind_wide<'a>(&self, objects: &Objects<'a>) -> (found: Vec<
        Object<'a>,
    >)
        requires
            hierarchy_of(self.world()).finite_below(self.id()),
        ensures
            objects.gives_all(
                found@,
                (seq![self.id()] + hierarchy_of(self.world()).descendants_wide(
                    self.id(),
                )).filter(objects.matching()),
            ),
    {
        let order = self.self_and_descendants_wide();
        proof {
            lemma_entities_of_any(order@, *self,
                seq![self.id()] + hierarchy_of(self.world()).descendants_wide(self.id()),
            );
        }
        objects.select(&list_entities(&order))
    }

    /// This object and its descendants in depth-first order, as far as
    /// `objects` matches them.
    fn self_and_descendants_of_kind_deep<'a>(&self, objects: &Objects<'a>) -> (found: Vec<
        Object<'a>,
    >)
        requires
            hierarchy_of(self.world()).finite_below(self.id()),
        ensures
            objects.gives_all(
                found@,
                (seq![self.id()] + hierarchy_of(self.world()).descendants_deep(
                    self.id(),
                )).filter(objects.matching()),
            ),
    {
        let order = self.self_and_descendants_deep();
        proof {
            lemma_entities_of_any(order@, *self,
                seq![self.id()] + hierarchy_of(self.world()).descendants_deep(self.id()),
            );
        }
        objects.select(&list_entities(&order))
    }

    /// The first descendant of this object, in breadth-first order, that
    /// `objects` matches.
    fn find_descendant_of_kind_wide<'a>(&self, objects: &Objects<'a>) -> (found: Option<
        Object<'a>,
    >)
        requires
            hierarchy_of(self.world()).finite_below(self.id()),
        ensures
            found is Some <==> hierarchy_of(self.world()).descendants_wide(self.id()).filter(
                objects.matching(),
            ).len() > 0,
            found matches Some(object) ==> objects.gives(
                object,
                hierarchy_of(self.world()).descendants_wide(self.id()).filter(
                    objects.matching(),
                )[0],
            ),
    {
        let order = self.descendants_wide();
        proof {
            lemma_entities_of_any(order@, *self,
                hierarchy_of(self.world()).descendants_wide(self.id()),
            );
        }
        objects.first(&list_entities(&order))
    }

    /// The first descendant of this object, in depth-first order, that
    /// `objects` matches.
    fn find_descendant_of_kind_deep<'a>(&self, objects: &Objects<'a>) -> (found: Option<
        Object<'a>,
    >)
        requires
            hierarchy_of(self.world()).finite_below(self.id()),
        ensures
            found is Some <==> hierarchy_of(self.world()).descendants_deep(self.id()).filter(
                objects.matching(),
            ).len() > 0,
            found matches Some(object) ==> objects.gives(
                object,
                hierarchy_of(self.world()).descendants_deep(self.id()).filter(
                    objects.matching(),
                )[0],
            ),
    {
        let order = self.descendants_deep();
        proof {
            lemma_entities_of_any(order@, *self,
                hierarchy_of(self.world()).descendants_deep(self.id()),
            );
        }
        objects.first(&list_entities(&order))
    }

    /// The path of this object from its root: the names of its root, of
    /// each ancestor down to its parent, and its own, joined by `/`. An
    /// object without a name contributes an empty segment.
    fn path(&self) -> (path: String)
        requires
            hierarchy_of(self.world()).rooted(self.id()),
        ensures
            path@ == hierarchy_of(self.world()).path(self.id()),
    {
        let ghost h = hierarchy_of(self.world());
        let chain = self.self_and_ancestors();
        let ghost entities = h.self_and_ancestors(self.id());
        let mut path = String::new();
        let mut left = chain.len();
        proof {
            reveal_strlit("/");
            assert("/"@ =~= seq!['/']);
        }
        while left > 0
            invariant
                h == hierarchy_of(self.world()),
                left <= chain.len(),
                are_any_of(chain@, *self, entities),
                "/"@ == seq!['/'],
                left == chain.len() ==> path@ == Seq::<char>::empty(),
                left < chain.len() ==> path@ == h.join_labels(entities.skip(left as int)),
            decreases left,
        {
            let ghost before = path@;
            let ghost first = (left == chain.len());
            if left < chain.len() {
                path.append("/");
            }
            left = left - 1;
            let ghost rest = entities.skip(left as int);
            assert(rest[0] == entities[left as int]);
            assert(rest.drop_first() =~= entities.skip(left + 1));
            match chain[left].name() {
                Some(name) => path.append(name),
                None => {},
            }
            assert(path@ =~= h.join_labels(rest)) by {
                if first {
                    assert(rest.len() == 1);
                } else {
                    assert(rest.len() >= 2);
                }
            }
        }
        assert(entities.skip(0) =~= entities);
        path
    }
}

/// An entity of a kind, with access to its hierarchy and its name.
#[derive(Clone, Copy)]
pub struct Object<'w> {
    world: &'w World,
    instance: Instance,
}

impl<'w> Object<'w> {
    /// What every handle satisfies: its instance is valid in its world.
    #[verifier::type_invariant]
    spec fn well_formed(self) -> bool {
        self.instance.valid_in(*self.world)
    }

    /// The handle of kind [`Kind::Any`] for `entity` in `world`. Nothing is
    /// asked of the entity, as that kind has no predicate.
    pub fn new(world: &'w World, entity: u64) -> (object: Self)
        ensures
            object.world() == *world,
            object.id() == entity,
            object.kind() == Kind::Any,
    {
        Object { world, instance: Instance { entity, kind: Kind::Any } }
    }

    /// The handle for an instance that is valid in `world`.
    pub(crate) fn bind(world: &'w World, instance: Instance) -> (object: Self)
        requires
            instance.valid_in(*world),
        ensures
            object.world() == *world,
            object.id() == instance.entity,
            object.kind() == instance.kind,
    {
        Object { world, instance }
    }

    /// The handles of kind [`Kind::Any`] for the given entities, in the
    /// world of this object.
    fn bind_all(&self, entities: &Vec<u64>) -> (objects: Vec<Self>)
        ensures
            are_any_of(objects@, *self, entities@),
    {
        let mut objects: Vec<Self> = Vec::new();
        let mut i: usize = 0;
        while i < entities.len()
            invariant
                i <= entities.len(),
                are_any_of(objects@, *self, entities@.take(i as int)),
            decreases entities.len() - i,
        {
            objects.push(self.rebind_any(entities[i]));
            i = i + 1;
        }
        assert(entities@.take(entities@.len() as int) =~= entities@);
        objects
    }

    /// The instance of this object. It is valid in the world of the object.
    pub fn instance(&self) -> (instance: Instance)
        ensures
            instance == (Instance { entity: self.id(), kind: self.kind() }),
            instance.valid_in(self.world()),
    {
        proof {
            use_type_invariant(self);
        }
        self.instance
    }

    /// The entity of this object.
    pub fn entity(&self) -> (entity: u64)
        ensures
            entity == self.id(),
    {
        self.instance.entity
    }

    /// The world that this object was found in.
    pub fn world_ref(&self) -> (world: &'w World)
        ensures
            *world == self.world(),
    {
        self.world
    }

    /// Casts an object of [`Kind::Any`] down to `kind`.
    ///
    /// Nothing is checked: the caller vouches that the entity is of that
    /// kind.
    pub fn from_base_unchecked(base: Object<'w>, kind: Kind) -> (object: Self)
        requires
            kind.holds_in(base.world(), base.id()),
        ensures
            object.world() == base.world(),
            object.id() == base.id(),
            object.kind() == kind,
    {
        Object { world: base.world, instance: Instance { entity: base.instance.entity, kind } }
    }

    /// Casts an object of [`Kind::Any`] down to `kind`, if its entity is of
    /// that kind.
    pub fn from_base(base: Object<'w>, kind: Kind) -> (object: Option<Self>)
        ensures
            object is Some <==> kind.holds_in(base.world(), base.id()),
            object matches Some(found) ==> found.world() == base.world() && found.id()
                == base.id() && found.kind() == kind,
    {
        match Instance::from_entity(base.world, base.instance.entity, kind) {
            Some(instance) => Some(base.rebind_as(instance)),
            None => None,
        }
    }
}

impl<'w> ObjectInstance for Object<'w> {
    closed spec fn world(&self) -> World {
        *self.world
    }

    closed spec fn id(&self) -> u64 {
        self.instance.entity
    }

    closed spec fn kind(&self) -> Kind {
        self.instance.kind
    }

    open spec fn same_source(&self, other: &Self) -> bool {
        true
    }

    fn instance(&self) -> (instance: Instance) {
        proof {
            use_type_invariant(self);
            assert(self.id() == self.instance.entity);
            assert(self.kind() == self.instance.kind);
            assert(self.world() == *self.world);
        }
        self.instance
    }
}

impl<'w> PartialEq for Object<'w> {
    /// Two objects are equal where they stand for the same entity.
    fn eq(&self, other: &Self) -> (same: bool) {
        self.instance.entity == other.instance.entity
    }
}

impl<'w> Eq for Object<'w> {

}

impl<'w> vstd::std_specs::cmp::PartialEqSpecImpl for Object<'w> {
    open spec fn obeys_eq_spec() -> bool {
        true
    }

    open spec fn eq_spec(&self, other: &Self) -> bool {
        self.id() == other.id()
    }
}

impl<'w> ObjectName for Object<'w> {
    fn name(&self) -> (name: Option<&str>) {
        name_of(self.world, self.instance.entity)
    }
}

impl<'w> ObjectTags for Object<'w> {
    fn tags(&self) -> (tags: &Tags) {
        match tags_of(self.world, self.instance.entity) {
            Some(tags) => tags,
            None => no_tags(),
        }
    }
}

impl<'w> ObjectRebind for Object<'w> {
    fn rebind_as(&self, instance: Instance) -> (object: Self) {
        Object { world: self.world, instance }
    }
}

impl<'w> ObjectHierarchy for Object<'w> {
    fn parent(&self) -> (parent: Option<Self>) {
        match walker::parent(self.world, self.instance.entity) {
            Some(parent) => Some(self.rebind_any(parent)),
            None => None,
        }
    }

    fn children(&self) -> (children: Vec<Self>) {
        let entities = walker::children(self.world, self.instance.entity);
        self.bind_all(&entities)
    }

    fn ancestors(&self) -> (chain: Vec<Self>) {
        let entities = walker::ancestors(self.world, self.instance.entity);
        self.bind_all(&entities)
    }

    fn descendants_wide(&self) -> (order: Vec<Self>) {
        let entities = walker::descendants_wide(self.world, self.instance.entity);
        self.bind_all(&entities)
    }

    fn descendants_deep(&self) -> (order: Vec<Self>) {
        let entities = walker::descendants_deep(self.world, self.instance.entity);
        self.bind_all(&entities)
    }

    fn find_by_path(&self, path: &str) -> (found: Option<Self>) {
        match find_by_path(self.world, self.instance.entity, path) {
            Some(entity) => Some(self.rebind_any(entity)),
            None => None,
        }
    }

    fn is_rooted_within(&self, limit: usize) -> (rooted: bool) {
        walker::is_rooted_within(self.world, self.instance.entity, limit)
    }

    fn is_bounded_below(&self, limit: usize) -> (bounded: bool) {
        walker::is_bounded_below(self.world, self.instance.entity, limit)
    }
}

} // verus!
