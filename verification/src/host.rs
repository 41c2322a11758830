//! The boundary to the entity store.
//!
//! Everything the crate knows of a [`World`] it learns through the lookups
//! in this module. Each lookup is a single call into `bevy_ecs` (or
//! `moonshine_tag`) whose contract is taken on trust; what the call reads is
//! given a mathematical name, so that the rest of the crate can be proved
//! against those names.

use bevy_ecs::component::ComponentId;
use bevy_ecs::entity::Entity;
use bevy_ecs::hierarchy::{ChildOf, Children};
use bevy_ecs::name::Name;
use bevy_ecs::world::World;
use moonshine_tag::Tags;
use vstd::prelude::*;

verus! {

/// `bevy_ecs::world::World`, the entity store. Opaque to the verifier.
#[verifier::external_type_specification]
#[verifier::external_body]
pub struct ExWorld(World);

/// The `ChildOf` components of a world: each entity that has one, mapped to
/// the parent it names.
pub uninterp spec fn parent_links(world: World) -> Map<u64, u64>;

/// The `Children` components of a world: each entity that has one, mapped to
/// the children it lists, in the order in which it lists them.
pub uninterp spec fn child_lists(world: World) -> Map<u64, Seq<u64>>;

/// The `Name` components of a world: each entity that has one, mapped to the
/// characters of its name.
pub uninterp spec fn entity_names(world: World) -> Map<u64, Seq<char>>;

/// The components of a world: each spawned entity, mapped to the indices of
/// the components it has.
pub uninterp spec fn component_sets(world: World) -> Map<u64, Set<usize>>;

/// The `Tags` components of a world: each entity that has one, mapped to the
/// hashes of the tags it holds.
pub uninterp spec fn entity_tags(world: World) -> Map<u64, Set<u64>>;

/// The entities that a query of the world yields when it asks for every
/// entity and names no filter, in the order in which it yields them. These
/// are the spawned entities but for those that the world's default query
/// filters leave out.
pub uninterp spec fn queried_entities(world: World) -> Seq<u64>;

/// Whether the bits are those of an entity that is spawned in the world.
pub open spec fn spawned_in(world: World, entity: u64) -> bool {
    component_sets(world).contains_key(entity)
}

/// `moonshine_tag::Tags`, a set of tags. Opaque to the verifier.
#[verifier::external_type_specification]
#[verifier::external_body]
pub struct ExTags(Tags);

/// The hashes of the tags that a set of tags holds.
pub uninterp spec fn tag_hashes(tags: Tags) -> Set<u64>;

/// Reads the `ChildOf` component of an entity with `World::get`.
///
/// Trusted: the result is the parent that the entity's `ChildOf` names, and
/// `None` where the bits are no entity of the world or the entity has no
/// `ChildOf`.
#[verifier::external_body]
pub(crate) fn parent_of(world: &World, entity: u64) -> (parent: Option<u64>)
    ensures
        parent == (if parent_links(*world).contains_key(entity) {
            Some(parent_links(*world)[entity])
        } else {
            None
        }),
{
    let entity = Entity::try_from_bits(entity)?;
    let link = world.get::<ChildOf>(entity)?;
    Some(link.parent().to_bits())
}

/// Reads the `Children` component of an entity with `World::get`.
///
/// Trusted: the result lists the entity's children in the component's own
/// order, and is empty where the bits are no entity of the world or the
/// entity has no `Children`.
#[verifier::external_body]
pub(crate) fn children_of(world: &World, entity: u64) -> (children: Vec<u64>)
    ensures
        children@ == (if child_lists(*world).contains_key(entity) {
            child_lists(*world)[entity]
        } else {
            Seq::<u64>::empty()
        }),
{
    let mut out = Vec::new();
    if let Some(entity) = Entity::try_from_bits(entity) {
        if let Some(children) = world.get::<Children>(entity) {
            for child in children.iter() {
                out.push(child.to_bits());
            }
        }
    }
    out
}

/// Reads the `Name` component of an entity with `World::get`.
///
/// Trusted: the result holds the characters of the entity's `Name`, and is
/// `None` where the bits are no entity of the world or the entity has no
/// `Name`.
#[verifier::external_body]
pub(crate) fn name_of<'w>(world: &'w World, entity: u64) -> (name: Option<&'w str>)
    ensures
        name is Some <==> entity_names(*world).contains_key(entity),
        name matches Some(text) ==> text@ == entity_names(*world)[entity],
{
    let entity = Entity::try_from_bits(entity)?;
    let name = world.get::<Name>(entity)?;
    Some(name.as_str())
}

/// Reads the `Tags` component of an entity with `World::get`.
///
/// Trusted: the result is the entity's `Tags`, and is `None` where the bits
/// are no entity of the world or the entity has no `Tags`.
#[verifier::external_body]
pub(crate) fn tags_of<'w>(world: &'w World, entity: u64) -> (tags: Option<&'w Tags>)
    ensures
        tags is Some <==> entity_tags(*world).contains_key(entity),
        tags matches Some(found) ==> tag_hashes(*found) == entity_tags(*world)[entity],
{
    let entity = Entity::try_from_bits(entity)?;
    world.get::<Tags>(entity)
}

/// The shared empty set of tags, `Tags::static_empty`.
///
/// Trusted: the set holds no tag.
#[verifier::external_body]
pub(crate) fn no_tags() -> (tags: &'static Tags)
    ensures
        tag_hashes(*tags) == Set::<u64>::empty(),
{
    Tags::static_empty()
}

/// Asks `EntityRef::contains_id` whether an entity has the component with
/// the given index.
///
/// Trusted: the result says whether the entity is spawned and has that
/// component; it is `false` where the bits are no entity of the world.
#[verifier::external_body]
pub(crate) fn has_component(world: &World, entity: u64, component: usize) -> (has: bool)
    ensures
        has == (component_sets(*world).contains_key(entity) && component_sets(
            *world,
        )[entity].contains(component)),
{
    match Entity::try_from_bits(entity) {
        Some(entity) => match world.get_entity(entity) {
            Ok(found) => found.contains_id(ComponentId::new(component)),
            Err(_) => false,
        },
        None => false,
    }
}

/// Asks `World::get_entity` whether an entity is spawned.
///
/// Trusted: the result says whether the bits are those of an entity that is
/// spawned in the world.
#[verifier::external_body]
pub(crate) fn is_spawned(world: &World, entity: u64) -> (spawned: bool)
    ensures
        spawned == spawned_in(*world, entity),
{
    match Entity::try_from_bits(entity) {
        Some(entity) => world.get_entity(entity).is_ok(),
        None => false,
    }
}

/// Asks a query for every entity, built with `World::try_query`, whether it
/// yields the given entity (`QueryState::get`).
///
/// Trusted: the result says whether the entity is among those that the
/// query yields.
#[verifier::external_body]
pub(crate) fn is_queried(world: &World, entity: u64) -> (queried: bool)
    ensures
        queried == queried_entities(*world).contains(entity),
{
    match (Entity::try_from_bits(entity), world.try_query::<Entity>()) {
        (Some(entity), Some(mut query)) => query.get(world, entity).is_ok(),
        _ => false,
    }
}

/// Runs a query for every entity, built with `World::try_query`, and lists
/// what it yields (`QueryState::iter`).
///
/// Trusted: the result is what the query yields, in its order.
#[verifier::external_body]
pub(crate) fn all_queried(world: &World) -> (entities: Vec<u64>)
    ensures
        entities@ == queried_entities(*world),
{
    let mut out = Vec::new();
    if let Some(mut query) = world.try_query::<Entity>() {
        for entity in query.iter(world) {
            out.push(entity.to_bits());
        }
    }
    out
}

} // verus!
