use bevy_ecs::component::{Component, Mutable, StorageType};
use bevy_ecs::entity_disabling::Disabled;
use bevy_ecs::hierarchy::ChildOf;
use bevy_ecs::name::Name;
use bevy_ecs::world::World;
use moonshine_object::prelude::{Kind, Object, ObjectHierarchy, ObjectName, ObjectRebind, Objects};
use moonshine_object::{Instance, LookupError, ObjectInstance, ObjectTags, SingleError};
use moonshine_tag::{Tag, Tags};

struct Apple;

impl Component for Apple {
    const STORAGE_TYPE: StorageType = StorageType::Table;
    type Mutability = Mutable;
}

struct Worm;

impl Component for Worm {
    const STORAGE_TYPE: StorageType = StorageType::Table;
    type Mutability = Mutable;
}

fn kinds(w: &mut World) -> (Kind, Kind) {
    (
        Kind::Component(w.register_component::<Apple>().index()),
        Kind::Component(w.register_component::<Worm>().index()),
    )
}

#[test]
fn kinds_convert_into_themselves_and_into_any() {
    let apple = Kind::Component(3);
    let worm = Kind::Component(4);

    assert!(Kind::Any.can_cast_into(Kind::Any));
    assert!(apple.can_cast_into(Kind::Any));
    assert!(apple.can_cast_into(apple));
    assert!(!apple.can_cast_into(worm));
    assert!(!Kind::Any.can_cast_into(apple));
}

#[test]
fn kind_test_asks_the_world() {
    let mut w = World::new();
    let (apple, worm) = kinds(&mut w);
    let fruit = w.spawn(Apple).id().to_bits();
    let both = w.spawn((Apple, Worm)).id().to_bits();
    let none = w.spawn_empty().id().to_bits();

    assert!(apple.test(&w, fruit));
    assert!(!worm.test(&w, fruit));
    assert!(apple.test(&w, both));
    assert!(worm.test(&w, both));
    assert!(!apple.test(&w, none));
    assert!(Kind::Any.test(&w, none));
    assert!(!apple.test(&w, u64::MAX));
    assert!(Kind::Any.test(&w, u64::MAX));
    assert!(!Kind::Component(usize::MAX).test(&w, fruit));
    assert!(!Kind::Component(usize::MAX).test(&w, u64::MAX));
}

#[test]
fn instance_from_entity_checks_the_kind() {
    let mut w = World::new();
    let (apple, worm) = kinds(&mut w);
    let fruit = w.spawn(Apple).id().to_bits();

    assert_eq!(
        Instance::from_entity(&w, fruit, apple),
        Some(Instance { entity: fruit, kind: apple })
    );
    assert_eq!(Instance::from_entity(&w, fruit, worm), None);
    assert_eq!(
        Instance::from_entity_unchecked(fruit, worm),
        Instance { entity: fruit, kind: worm }
    );
    assert_eq!(
        Instance { entity: fruit, kind: apple }.cast_into_any(),
        Instance { entity: fruit, kind: Kind::Any }
    );
    assert_eq!(Instance { entity: fruit, kind: apple }.entity(), fruit);
}

#[test]
fn get_tells_why_there_is_no_object() {
    let mut w = World::new();
    let (apple, _worm) = kinds(&mut w);
    let fruit = w.spawn(Apple).id().to_bits();
    let other = w.spawn(Worm).id().to_bits();
    let gone = w.spawn(Apple).id();
    w.despawn(gone);
    let apples = Objects::new(&w, apple);

    let found = apples.get(fruit).unwrap();
    assert_eq!(found.entity(), fruit);
    assert_eq!(found.instance(), Instance { entity: fruit, kind: apple });
    assert_eq!(apples.get(other).err(), Some(LookupError::DoesNotMatch));
    assert_eq!(apples.get(gone.to_bits()).err(), Some(LookupError::NotSpawned));
    assert_eq!(apples.get(u64::MAX).err(), Some(LookupError::NotSpawned));
    assert!(apples.contains(fruit));
    assert!(!apples.contains(other));
    assert!(!apples.contains(gone.to_bits()));
}

#[test]
fn disabled_entities_are_spawned_but_not_matched() {
    let mut w = World::new();
    let (apple, _worm) = kinds(&mut w);
    let parent = w.spawn(Apple).id();
    let hidden = w.spawn((Apple, Disabled, ChildOf(parent))).id().to_bits();

    let apples = Objects::new(&w, apple);
    let all = Objects::new(&w, Kind::Any);
    assert_eq!(apples.get(hidden).err(), Some(LookupError::DoesNotMatch));
    assert_eq!(all.get(hidden).err(), Some(LookupError::DoesNotMatch));
    assert!(!all.contains(hidden));
    assert!(all.contains(parent.to_bits()));
    assert_eq!(apples.iter().len(), 1);
    assert!(all.iter().iter().all(|object| object.entity() != hidden));
    let children = all.get(parent.to_bits()).unwrap().children();
    assert_eq!(children.len(), 1);
    assert_eq!(children[0].entity(), hidden);
}

#[test]
fn iter_lists_the_objects_of_the_kind() {
    let mut w = World::new();
    let (apple, worm) = kinds(&mut w);
    let first = w.spawn(Apple).id().to_bits();
    let _other = w.spawn(Worm).id().to_bits();
    let second = w.spawn((Apple, Worm)).id().to_bits();

    let apples = Objects::new(&w, apple);
    let mut found: Vec<u64> = apples.iter().iter().map(|object| object.entity()).collect();
    found.sort();
    let mut expected = vec![first, second];
    expected.sort();
    assert_eq!(found, expected);
    assert!(apples
        .iter()
        .iter()
        .all(|object| object.instance().kind == apple));
    assert_eq!(Objects::new(&w, worm).iter().len(), 2);

    let everything: Vec<u64> = Objects::new(&w, Kind::Any)
        .iter()
        .iter()
        .map(|object| object.entity())
        .collect();
    assert!(everything.contains(&first));
    assert!(everything.contains(&second));
    let mut unique = everything.clone();
    unique.sort();
    unique.dedup();
    assert_eq!(unique.len(), everything.len());
}

#[test]
fn get_single_wants_exactly_one() {
    let mut w = World::new();
    let (apple, worm) = kinds(&mut w);
    assert_eq!(
        Objects::new(&w, apple).get_single().err(),
        Some(SingleError::NoEntities)
    );

    let fruit = w.spawn(Apple).id().to_bits();
    assert_eq!(Objects::new(&w, apple).get_single().unwrap().entity(), fruit);
    assert_eq!(
        Objects::new(&w, worm).get_single().err(),
        Some(SingleError::NoEntities)
    );

    w.spawn(Apple);
    assert_eq!(
        Objects::new(&w, apple).get_single().err(),
        Some(SingleError::MultipleEntities)
    );
}

#[test]
fn root_lookups_leave_out_children() {
    let mut w = World::new();
    let (apple, _worm) = kinds(&mut w);
    let top = w.spawn(Apple).id();
    let child = w.spawn((Apple, ChildOf(top))).id().to_bits();
    let top = top.to_bits();
    let apples = Objects::new(&w, apple);
    let roots = Objects::roots(&w, apple);

    assert!(apples.contains(child));
    assert!(!apples.contains_root(child));
    assert!(apples.contains_root(top));
    assert!(!roots.contains(child));
    assert!(roots.contains(top));

    assert_eq!(apples.get_root(top).unwrap().entity(), top);
    assert!(apples.get_root(child).is_none());
    assert!(apples.get_root(u64::MAX).is_none());
    assert_eq!(roots.get(child).err(), Some(LookupError::DoesNotMatch));

    let found: Vec<u64> = apples.iter_root().iter().map(|object| object.entity()).collect();
    assert_eq!(found, vec![top]);
    let found: Vec<u64> = roots.iter().iter().map(|object| object.entity()).collect();
    assert_eq!(found, vec![top]);
    assert_eq!(apples.iter().len(), 2);
    assert_eq!(apples.iter_ref().len(), 2);
    assert_eq!(apples.iter_root_ref().len(), 2);
    assert_eq!(roots.iter_root_ref().len(), 1);

    assert_eq!(apples.get_single().err(), Some(SingleError::MultipleEntities));
    assert_eq!(apples.get_single_root().err(), Some(SingleError::MultipleEntities));
    assert_eq!(roots.get_single().unwrap().entity(), top);
    assert_eq!(roots.get_single_root().unwrap().entity(), top);
}

#[test]
fn single_root_reports_an_only_child_as_no_entity() {
    let mut w = World::new();
    let (apple, worm) = kinds(&mut w);
    let top = w.spawn(Worm).id();
    let child = w.spawn((Apple, ChildOf(top))).id().to_bits();

    assert_eq!(Objects::new(&w, apple).get_single().unwrap().entity(), child);
    assert_eq!(
        Objects::new(&w, apple).get_single_root().err(),
        Some(SingleError::NoEntities)
    );
    assert_eq!(
        Objects::new(&w, worm).get_single_root().unwrap().entity(),
        top.to_bits()
    );
}

#[test]
fn instance_gives_the_object_of_a_matched_instance() {
    let mut w = World::new();
    let (apple, _worm) = kinds(&mut w);
    let fruit = w.spawn(Apple).id().to_bits();
    let apples = Objects::new(&w, apple);
    let instance = Instance::from_entity(&w, fruit, apple).unwrap();
    assert!(apples.contains(instance.entity()));

    let object = apples.instance(instance);
    assert_eq!(object.entity(), fruit);
    assert_eq!(object.instance(), instance);
}

#[test]
fn new_binds_any_entity_as_any() {
    let mut w = World::new();
    let (apple, _worm) = kinds(&mut w);
    let fruit = w.spawn(Apple).id().to_bits();

    let object = Object::new(&w, fruit);
    assert_eq!(object.instance(), Instance { entity: fruit, kind: Kind::Any });
    assert!(std::ptr::eq(object.world_ref(), &w));
    assert_eq!(
        Object::from_base(object, apple).unwrap().instance(),
        Instance { entity: fruit, kind: apple }
    );

    let nothing = Object::new(&w, u64::MAX);
    assert_eq!(nothing.entity(), u64::MAX);
    assert!(nothing.parent().is_none());
    assert!(nothing.children().is_empty());
    assert_eq!(nothing.name(), None);
    assert!(nothing.tags().is_empty());
    assert!(Object::from_base(nothing, apple).is_none());
}

#[test]
fn objects_are_equal_where_their_entities_are() {
    let mut w = World::new();
    let (apple, _worm) = kinds(&mut w);
    let fruit = w.spawn(Apple).id().to_bits();
    let other = w.spawn(Apple).id().to_bits();
    let apples = Objects::new(&w, apple);

    assert!(apples.get(fruit).unwrap() == Object::new(&w, fruit));
    assert!(apples.get(fruit).unwrap() != apples.get(other).unwrap());
    assert!(apples.get_ref(fruit).unwrap() == apples.get_ref(fruit).unwrap());
    assert!(apples.get_ref(fruit).unwrap() != apples.get_ref(other).unwrap());
    assert!(
        moonshine_object::ObjectRef::new(other, apples.get(fruit).unwrap())
            == apples.get_ref(fruit).unwrap()
    );
}

#[test]
fn names_are_read_from_the_world() {
    let mut w = World::new();
    let named = w.spawn(Name::new("Granny Smith")).id().to_bits();
    let unnamed = w.spawn_empty().id().to_bits();
    let objects = Objects::new(&w, Kind::Any);

    assert_eq!(objects.get(named).unwrap().name(), Some("Granny Smith"));
    assert_eq!(objects.get(unnamed).unwrap().name(), None);
    assert_eq!(objects.get_ref(named).unwrap().name(), Some("Granny Smith"));
}

#[test]
fn describe_shows_kind_entity_and_name() {
    let mut w = World::new();
    let named = w.spawn(Name::new("Granny Smith")).id().to_bits();
    let unnamed = w.spawn_empty().id().to_bits();
    let empty = w.spawn(Name::new("")).id().to_bits();
    let objects = Objects::new(&w, Kind::Any);

    assert_eq!(
        objects.get(named).unwrap().describe("Apple", "7v1"),
        "Apple(7v1, \"Granny Smith\")"
    );
    assert_eq!(objects.get(unnamed).unwrap().describe("Apple", "8v1"), "Apple(8v1)");
    assert_eq!(objects.get(empty).unwrap().describe("Any", ""), "Any(, \"\")");
    assert_eq!(
        objects.get_ref(named).unwrap().describe("Apple", "7v1"),
        "Apple(7v1, \"Granny Smith\")"
    );
}

#[test]
fn tags_are_read_from_the_world() {
    let mut w = World::new();
    let sweet = Tag::new("Sweet");
    let sour = Tag::new("Sour");
    let tagged = w.spawn(Tags::from([sweet])).id().to_bits();
    let plain = w.spawn_empty().id().to_bits();
    let objects = Objects::new(&w, Kind::Any);

    let object = objects.get(tagged).unwrap();
    let tags = object.tags();
    assert!(tags.contains(sweet));
    assert!(!tags.contains(sour));
    assert_eq!(tags.len(), 1);
    assert!(objects.get(plain).unwrap().tags().is_empty());
    assert!(objects.get_ref(tagged).unwrap().tags().contains(sweet));
}

#[test]
fn from_base_casts_down_where_the_kind_holds() {
    let mut w = World::new();
    let (apple, worm) = kinds(&mut w);
    let fruit = w.spawn(Apple).id().to_bits();
    let base = Objects::new(&w, Kind::Any).get(fruit).unwrap();

    let cast = Object::from_base(base, apple).unwrap();
    assert_eq!(cast.instance(), Instance { entity: fruit, kind: apple });
    assert!(Object::from_base(base, worm).is_none());
    assert_eq!(
        Object::from_base(base, Kind::Any).unwrap().instance(),
        Instance { entity: fruit, kind: Kind::Any }
    );

    assert!(apple.test(&w, fruit));
    let unchecked = Object::from_base_unchecked(base, apple);
    assert_eq!(unchecked.instance(), Instance { entity: fruit, kind: apple });
}

#[test]
fn casts_keep_the_entity() {
    let mut w = World::new();
    let (apple, _worm) = kinds(&mut w);
    let fruit = w.spawn(Apple).id().to_bits();
    let object = Objects::new(&w, apple).get(fruit).unwrap();

    assert_eq!(
        object.cast_into_any().instance(),
        Instance { entity: fruit, kind: Kind::Any }
    );
    assert_eq!(
        object.as_any().instance(),
        Instance { entity: fruit, kind: Kind::Any }
    );
    assert!(apple.can_cast_into(apple));
    assert_eq!(
        object.cast_into(apple).instance(),
        Instance { entity: fruit, kind: apple }
    );
    assert!(apple.can_cast_into(Kind::Any));
    assert_eq!(
        object.cast_into(Kind::Any).instance(),
        Instance { entity: fruit, kind: Kind::Any }
    );
    assert!(apple.test(&w, fruit));
    assert_eq!(
        object.as_any().cast_into_unchecked(apple).instance(),
        Instance { entity: fruit, kind: apple }
    );
}

#[test]
fn rebinding_changes_the_entity() {
    let mut w = World::new();
    let (apple, worm) = kinds(&mut w);
    let fruit = w.spawn(Apple).id().to_bits();
    let other = w.spawn(Apple).id().to_bits();
    let pest = w.spawn(Worm).id().to_bits();
    let apples = Objects::new(&w, apple);
    let worms = Objects::new(&w, worm);
    let object = apples.get(fruit).unwrap();

    assert!(apples.contains(other));
    let friend = object.rebind(Instance::from_entity_unchecked(other, apple));
    assert_eq!(friend.instance(), Instance { entity: other, kind: apple });

    assert!(worms.contains(pest));
    let found = object.rebind_as(Instance::from_entity_unchecked(pest, worm));
    assert_eq!(found.instance(), Instance { entity: pest, kind: worm });
    assert!(std::ptr::eq(found.world_ref(), &w));

    let any = object.rebind_any(pest);
    assert_eq!(any.instance(), Instance { entity: pest, kind: Kind::Any });
}

#[test]
fn of_kind_walks_keep_what_the_query_matches() {
    let mut w = World::new();
    let (apple, worm) = kinds(&mut w);
    let tree = w.spawn(Name::new("Tree")).id();
    let branch = w.spawn((Apple, ChildOf(tree))).id();
    let first = w.spawn((Worm, ChildOf(tree))).id().to_bits();
    let fruit = w.spawn((Apple, ChildOf(branch))).id();
    let second = w.spawn((Worm, ChildOf(fruit))).id().to_bits();
    let third = w.spawn((Worm, ChildOf(branch))).id().to_bits();
    let (tree, branch, fruit) = (tree.to_bits(), branch.to_bits(), fruit.to_bits());
    let all = Objects::new(&w, Kind::Any);
    let apples = Objects::new(&w, apple);
    let worms = Objects::new(&w, worm);
    let entities =
        |found: Vec<Object>| -> Vec<u64> { found.iter().map(|object| object.entity()).collect() };
    let top = all.get(tree).unwrap();
    let leaf = all.get(second).unwrap();

    assert_eq!(entities(top.children_of_kind(&worms)), vec![first]);
    assert_eq!(entities(top.children_of_kind(&apples)), vec![branch]);
    assert_eq!(top.find_child_of_kind(&worms).unwrap().entity(), first);
    assert!(leaf.find_child_of_kind(&worms).is_none());

    assert_eq!(entities(leaf.ancestors_of_kind(&apples)), vec![fruit, branch]);
    assert!(entities(leaf.ancestors_of_kind(&worms)).is_empty());
    assert_eq!(entities(leaf.self_and_ancestors_of_kind(&worms)), vec![second]);
    assert_eq!(leaf.find_ancestor_of_kind(&apples).unwrap().entity(), fruit);
    assert!(leaf.find_ancestor_of_kind(&worms).is_none());

    assert_eq!(
        entities(top.descendants_of_kind_wide(&worms)),
        vec![first, third, second]
    );
    assert_eq!(
        entities(top.descendants_of_kind_deep(&worms)),
        vec![second, third, first]
    );
    assert_eq!(
        entities(all.get(branch).unwrap().self_and_descendants_of_kind_wide(&apples)),
        vec![branch, fruit]
    );
    assert_eq!(
        entities(all.get(branch).unwrap().self_and_descendants_of_kind_deep(&apples)),
        vec![branch, fruit]
    );
    assert_eq!(top.find_descendant_of_kind_wide(&worms).unwrap().entity(), first);
    assert_eq!(top.find_descendant_of_kind_deep(&worms).unwrap().entity(), second);
    assert!(leaf.find_descendant_of_kind_wide(&apples).is_none());
    assert!(leaf.find_descendant_of_kind_deep(&apples).is_none());
    assert_eq!(
        top.find_descendant_of_kind_deep(&worms).unwrap().instance().kind,
        worm
    );
}

#[test]
fn references_read_their_source() {
    let mut w = World::new();
    let (apple, worm) = kinds(&mut w);
    let (apple_index, worm_index) = match (apple, worm) {
        (Kind::Component(apple), Kind::Component(worm)) => (apple, worm),
        _ => unreachable!(),
    };
    let top = w.spawn(Worm).id();
    let fruit = w.spawn((Apple, ChildOf(top))).id().to_bits();
    let top = top.to_bits();
    let apples = Objects::new(&w, apple);

    let reference = apples.get_ref(fruit).unwrap();
    assert_eq!(reference.entity(), fruit);
    assert_eq!(reference.instance().kind, apple);
    assert!(reference.contains(apple_index));
    assert!(!reference.contains(worm_index));
    assert_eq!(reference.object().entity(), fruit);
    assert!(apples.get_ref(top).is_none());

    let parent = reference.parent().unwrap();
    assert_eq!(parent.entity(), top);
    assert_eq!(parent.instance().kind, Kind::Any);
    assert!(parent.contains(apple_index));
    assert!(!parent.contains(worm_index));

    let found = reference.find_by_path("..").unwrap();
    assert_eq!(found.entity(), top);
    assert!(found.contains(apple_index));
    let chain = reference.ancestors();
    assert_eq!(chain.len(), 1);
    assert_eq!(chain[0].entity(), top);
    assert!(chain[0].contains(apple_index));

    let single = apples.get_single_ref(top).unwrap();
    assert_eq!(single.entity(), fruit);
    assert!(single.contains(worm_index));
    assert!(!single.contains(apple_index));
    assert!(apples.get_single_ref(u64::MAX).is_none());
    assert!(Objects::new(&w, Kind::Component(worm_index + apple_index + 1000))
        .get_single_ref(top)
        .is_none());

    let listed: Vec<u64> = apples.iter_ref().iter().map(|found| found.entity()).collect();
    assert_eq!(listed, vec![fruit]);
    assert!(apples.iter_ref()[0].contains(apple_index));
}
