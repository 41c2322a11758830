//! The objects of a kind: lookup and listing of handles.
//!
//! An [`Objects`] value stands for a query of a world: it matches the
//! entities that a query of the world yields, that are of its kind and,
//! where it was made with [`Objects::roots`], that have no parent.

use crate::hierarchy::{hierarchy_of, Hierarchy};
use crate::host::{all_queried, is_queried, is_spawned, parent_of, queried_entities, spawned_in};
use crate::kind::{Instance, Kind};
use crate::object::{Object, ObjectInstance};
use crate::object_ref::ObjectRef;
use bevy_ecs::world::World;
use vstd::prelude::*;

verus! {

/// Why an entity gave no object.
#[derive(Clone, Copy, Debug, PartialEq, Eq, Structural)]
pub enum LookupError {
    /// The entity is not spawned in the world.
    NotSpawned,
    /// The entity is spawned, but the query does not match it.
    DoesNotMatch,
}

/// Why a query gave no single object.
#[derive(Clone, Copy, Debug, PartialEq, Eq, Structural)]
pub enum SingleError {
    /// No entity matches the query.
    NoEntities,
    /// More than one entity matches the query.
    MultipleEntities,
}

/// The objects of one kind in a world.
#[derive(Clone, Copy)]
pub struct Objects<'w> {
    world: &'w World,
    kind: Kind,
    roots_only: bool,
}

impl<'w> Objects<'w> {
    /// The world that is queried.
    pub closed spec fn world(&self) -> World {
        *self.world
    }

    /// The kind of the objects.
    pub closed spec fn kind(&self) -> Kind {
        self.kind
    }

    /// Whether only objects without a parent are matched.
    pub closed spec fn roots_only(&self) -> bool {
        self.roots_only
    }

    /// Whether the query matches `entity`.
    pub open spec fn matches(&self, entity: u64) -> bool {
        &&& queried_entities(self.world()).contains(entity)
        &&& self.kind().holds_in(self.world(), entity)
        &&& self.roots_only() ==> hierarchy_of(self.world()).parent(entity) is None
    }

    /// [`Objects::matches`] as a predicate.
    pub open spec fn matching(&self) -> spec_fn(u64) -> bool {
        |entity: u64| self.matches(entity)
    }

    /// Whether `entity` is matched and has no parent.
    pub open spec fn matches_root(&self, entity: u64) -> bool {
        self.matches(entity) && hierarchy_of(self.world()).parent(entity) is None
    }

    /// [`Objects::matches_root`] as a predicate.
    pub open spec fn matching_root(&self) -> spec_fn(u64) -> bool {
        |entity: u64| self.matches_root(entity)
    }

    /// The entities that the query matches, in the order of the world's
    /// query.
    pub open spec fn entities(&self) -> Seq<u64> {
        queried_entities(self.world()).filter(self.matching())
    }

    /// `object` is the handle that this query gives for `entity`.
    pub open spec fn gives(&self, object: Object<'w>, entity: u64) -> bool {
        &&& object.world() == self.world()
        &&& object.id() == entity
        &&& object.kind() == self.kind()
    }

    /// `objects` are the handles that this query gives for `entities`, one
    /// for one.
    pub open spec fn gives_all(&self, objects: Seq<Object<'w>>, entities: Seq<u64>) -> bool {
        &&& objects.len() == entities.len()
        &&& forall|i: int|
            0 <= i < objects.len() ==> self.gives(#[trigger] objects[i], entities[i])
    }

    /// The objects of `kind` in `world`.
    pub fn new(world: &'w World, kind: Kind) -> (objects: Self)
        ensures
            objects.world() == *world,
            objects.kind() == kind,
            !objects.roots_only(),
    {
        Objects { world, kind, roots_only: false }
    }

    /// The objects of `kind` in `world` that have no parent.
    pub fn roots(world: &'w World, kind: Kind) -> (objects: Self)
        ensures
            objects.world() == *world,
            objects.kind() == kind,
            objects.roots_only(),
    {
        Objects { world, kind, roots_only: true }
    }

    /// Whether `entity` is an object of this query.
    pub fn contains(&self, entity: u64) -> (found: bool)
        ensures
            found == self.matches(entity),
    {
        is_queried(self.world, entity) && self.kind.test(self.world, entity) && (!self.roots_only
            || parent_of(self.world, entity).is_none())
    }

    /// Whether `entity` is an object of this query and has no parent.
    pub fn contains_root(&self, entity: u64) -> (found: bool)
        ensures
            found == self.matches_root(entity),
    {
        self.contains(entity) && parent_of(self.world, entity).is_none()
    }

    /// The object for `entity`, if the query matches it.
    pub fn get(&self, entity: u64) -> (object: Result<Object<'w>, LookupError>)
        ensures
            object is Ok <==> self.matches(entity),
            object matches Ok(found) ==> self.gives(found, entity),
            object matches Err(error) ==> error == (if spawned_in(self.world(), entity) {
                LookupError::DoesNotMatch
            } else {
                LookupError::NotSpawned
            }),
    {
        if self.contains(entity) {
            Ok(Object::bind(self.world, Instance::from_entity_unchecked(entity, self.kind)))
        } else if is_spawned(self.world, entity) {
            Err(LookupError::DoesNotMatch)
        } else {
            Err(LookupError::NotSpawned)
        }
    }

    /// The object for `entity`, if the query matches it and it has no
    /// parent.
    pub fn get_root(&self, entity: u64) -> (object: Option<Object<'w>>)
        ensures
            object is Some <==> self.matches_root(entity),
            object matches Some(found) ==> self.gives(found, entity),
    {
        match self.get(entity) {
            Ok(found) => if parent_of(self.world, entity).is_none() {
                Some(found)
            } else {
                None
            },
            Err(_) => None,
        }
    }

    /// The object for an instance of this query's kind.
    pub fn instance(&self, instance: Instance) -> (object: Object<'w>)
        requires
            instance.kind == self.kind(),
            self.matches(instance.entity),
        ensures
            self.gives(object, instance.entity),
    {
        Object::bind(self.world, instance)
    }

    /// The objects for those of `entities` that the query matches, in their
    /// order.
    pub(crate) fn select(&self, entities: &Vec<u64>) -> (objects: Vec<Object<'w>>)
        ensures
            self.gives_all(objects@, entities@.filter(self.matching())),
    {
        let mut objects: Vec<Object<'w>> = Vec::new();
        let mut i: usize = 0;
        proof {
            reveal(Seq::filter);
            assert(entities@.take(0) =~= Seq::<u64>::empty());
        }
        while i < entities.len()
            invariant
                i <= entities.len(),
                self.gives_all(objects@, entities@.take(i as int).filter(self.matching())),
            decreases entities.len() - i,
        {
            proof {
                reveal(Seq::filter);
                assert(entities@.take(i + 1).drop_last() =~= entities@.take(i as int));
            }
            match self.get(entities[i]) {
                Ok(found) => objects.push(found),
                Err(_) => {},
            }
            i = i + 1;
        }
        assert(entities@.take(entities@.len() as int) =~= entities@);
        objects
    }

    /// The object for the first of `entities` that the query matches.
    pub(crate) fn first(&self, entities: &Vec<u64>) -> (object: Option<Object<'w>>)
        ensures
            object is Some <==> entities@.filter(self.matching()).len() > 0,
            object matches Some(found) ==> self.gives(
                found,
                entities@.filter(self.matching())[0],
            ),
    {
        let mut i: usize = 0;
        proof {
            reveal(Seq::filter);
            assert(entities@.take(0) =~= Seq::<u64>::empty());
        }
        while i < entities.len()
            invariant
                i <= entities.len(),
                entities@.take(i as int).filter(self.matching()).len() == 0,
            decreases entities.len() - i,
        {
            match self.get(entities[i]) {
                Ok(found) => {
                    proof {
                        let seen = entities@.take(i as int);
                        let rest = entities@.skip(i as int);
                        assert(entities@ =~= seen + rest);
                        Seq::filter_distributes_over_add(seen, rest, self.matching());
                        assert(rest =~= seq![entities@[i as int]] + rest.drop_first());
                        rest.drop_first().lemma_filter_prepend(
                            entities@[i as int],
                            self.matching(),
                        );
                    }
                    return Some(found);
                },
                Err(_) => {
                    proof {
                        reveal(Seq::filter);
                        assert(entities@.take(i + 1).drop_last() =~= entities@.take(i as int));
                    }
                },
            }
            i = i + 1;
        }
        assert(entities@.take(entities@.len() as int) =~= entities@);
        None
    }

    /// All objects of this query, in the order of the world's query.
    pub fn iter(&self) -> (objects: Vec<Object<'w>>)
        ensures
            self.gives_all(objects@, self.entities()),
    {
        let all = all_queried(self.world);
        self.select(&all)
    }

    /// The objects of this query that have no parent.
    pub fn iter_root(&self) -> (objects: Vec<Object<'w>>)
        ensures
            self.gives_all(objects@, queried_entities(self.world()).filter(self.matching_root())),
    {
        let all = all_queried(self.world);
        let mut objects: Vec<Object<'w>> = Vec::new();
        let mut i: usize = 0;
        proof {
            reveal(Seq::filter);
            assert(all@.take(0) =~= Seq::<u64>::empty());
        }
        while i < all.len()
            invariant
                i <= all.len(),
                all@ == queried_entities(self.world()),
                self.gives_all(objects@, all@.take(i as int).filter(self.matching_root())),
            decreases all.len() - i,
        {
            proof {
                reveal(Seq::filter);
                assert(all@.take(i + 1).drop_last() =~= all@.take(i as int));
            }
            match self.get_root(all[i]) {
                Some(found) => objects.push(found),
                None => {},
            }
            i = i + 1;
        }
        assert(all@.take(all@.len() as int) =~= all@);
        objects
    }

    /// The one object of this query, where it matches exactly one entity.
    pub fn get_single(&self) -> (object: Result<Object<'w>, SingleError>)
        ensures
            object is Ok <==> self.entities().len() == 1,
            object matches Ok(found) ==> self.gives(found, self.entities()[0]),
            object matches Err(error) ==> error == (if self.entities().len() == 0 {
                SingleError::NoEntities
            } else {
                SingleError::MultipleEntities
            }),
    {
        let objects = self.iter();
        if objects.len() == 0 {
            Err(SingleError::NoEntities)
        } else if objects.len() == 1 {
            Ok(objects[0])
        } else {
            Err(SingleError::MultipleEntities)
        }
    }

    /// The one object of this query, where it matches exactly one entity and
    /// that entity has no parent. An only object that has a parent is
    /// answered with [`SingleError::NoEntities`].
    pub fn get_single_root(&self) -> (object: Result<Object<'w>, SingleError>)
        ensures
            object is Ok <==> self.entities().len() == 1 && self.matches_root(self.entities()[0]),
            object matches Ok(found) ==> self.gives(found, self.entities()[0]),
            object matches Err(error) ==> error == (if self.entities().len() <= 1 {
                SingleError::NoEntities
            } else {
                SingleError::MultipleEntities
            }),
    {
        match self.get_single() {
            Ok(found) => {
                proof {
                    queried_entities(self.world()).lemma_filter_pred(self.matching(), 0);
                }
                if parent_of(self.world, found.entity()).is_none() {
                    Ok(found)
                } else {
                    Err(SingleError::NoEntities)
                }
            },
            Err(error) => Err(error),
        }
    }

    /// `reference` is the reference that this query gives for `entity`: it
    /// stands for the object of `entity` and reads the components of
    /// `source`.
    pub open spec fn gives_ref(&self, reference: ObjectRef<'w>, source: u64, entity: u64) -> bool {
        &&& reference.source() == source
        &&& reference.world() == self.world()
        &&& reference.id() == entity
        &&& reference.kind() == self.kind()
    }

    /// `references` are the references that this query gives for
    /// `entities`, each with its own entity as its source.
    pub open spec fn gives_all_refs(
        &self,
        references: Seq<ObjectRef<'w>>,
        entities: Seq<u64>,
    ) -> bool {
        &&& references.len() == entities.len()
        &&& forall|i: int|
            0 <= i < references.len() ==> self.gives_ref(
                #[trigger] references[i],
                entities[i],
                entities[i],
            )
    }

    /// All objects of this query as references, each with its own entity as
    /// its source.
    pub fn iter_ref(&self) -> (references: Vec<ObjectRef<'w>>)
        ensures
            self.gives_all_refs(references@, self.entities()),
    {
        let objects = self.iter();
        let mut references: Vec<ObjectRef<'w>> = Vec::new();
        let mut i: usize = 0;
        while i < objects.len()
            invariant
                i <= objects.len(),
                self.gives_all(objects@, self.entities()),
                self.gives_all_refs(references@, self.entities().take(i as int)),
            decreases objects.len() - i,
        {
            references.push(ObjectRef::new(objects[i].entity(), objects[i]));
            i = i + 1;
        }
        assert(self.entities().take(self.entities().len() as int) =~= self.entities());
        references
    }

    /// All objects of this query as references. Despite its name it gives
    /// what [`Objects::iter_ref`] gives, objects with a parent included.
    pub fn iter_root_ref(&self) -> (references: Vec<ObjectRef<'w>>)
        ensures
            self.gives_all_refs(references@, self.entities()),
    {
        self.iter_ref()
    }

    /// The reference for `entity`, if the query matches it.
    pub fn get_ref(&self, entity: u64) -> (reference: Option<ObjectRef<'w>>)
        ensures
            reference is Some <==> self.matches(entity),
            reference matches Some(found) ==> self.gives_ref(found, entity, entity),
    {
        match self.get(entity) {
            Ok(object) => Some(ObjectRef::new(entity, object)),
            Err(_) => None,
        }
    }

    /// The one object of this query as a reference that reads the
    /// components of `source`, where `source` is spawned and the query
    /// matches exactly one entity.
    pub fn get_single_ref(&self, source: u64) -> (reference: Option<ObjectRef<'w>>)
        ensures
            reference is Some <==> spawned_in(self.world(), source) && self.entities().len()
                == 1,
            reference matches Some(found) ==> self.gives_ref(found, source, self.entities()[0]),
    {
        if !is_spawned(self.world, source) {
            return None;
        }
        match self.get_single() {
            Ok(object) => Some(ObjectRef::new(source, object)),
            Err(_) => None,
        }
    }
}

} // verus!
