use bevy_ecs::entity::Entity;
use bevy_ecs::hierarchy::ChildOf;
use bevy_ecs::name::Name;
use bevy_ecs::world::World;
use moonshine_object::prelude::{Kind, ObjectHierarchy, Objects};
use moonshine_object::{walker, ObjectInstance};
use moonshine_util::hierarchy::{WorldDescendantsDeepIter, WorldDescendantsWideIter};

/// Spawns
///
/// ```text
/// 0
/// └ 1
///   ├ 2
///   │ ├ 3
///   │ └ 4
///   │   └ 5
///   └ 6
///     └ 7
/// ```
///
/// and returns the bits of the eight entities, by number.
fn spawn_tree(w: &mut World) -> Vec<u64> {
    let parents: [Option<usize>; 8] = [
        None,
        Some(0),
        Some(1),
        Some(2),
        Some(2),
        Some(4),
        Some(1),
        Some(6),
    ];
    let mut entities: Vec<Entity> = Vec::new();
    for (number, parent) in parents.iter().enumerate() {
        let name = Name::new(format!("N{number}"));
        let entity = match parent {
            Some(parent) => w.spawn((name, ChildOf(entities[*parent]))).id(),
            None => w.spawn(name).id(),
        };
        entities.push(entity);
    }
    entities.iter().map(|entity| entity.to_bits()).collect()
}

fn numbers(tree: &[u64], entities: &[u64]) -> Vec<usize> {
    entities
        .iter()
        .map(|entity| tree.iter().position(|other| other == entity).unwrap())
        .collect()
}

#[test]
fn walker_reads_parents_and_children() {
    let mut w = World::new();
    let tree = spawn_tree(&mut w);

    assert_eq!(walker::parent(&w, tree[0]), None);
    assert_eq!(walker::parent(&w, tree[1]), Some(tree[0]));
    assert_eq!(walker::parent(&w, tree[5]), Some(tree[4]));
    assert_eq!(numbers(&tree, &walker::children(&w, tree[1])), vec![2, 6]);
    assert_eq!(numbers(&tree, &walker::children(&w, tree[2])), vec![3, 4]);
    assert!(walker::children(&w, tree[7]).is_empty());
}

#[test]
fn walker_knows_nothing_of_bits_that_are_no_entity() {
    let mut w = World::new();
    let tree = spawn_tree(&mut w);
    let gone = w.spawn(ChildOf(Entity::from_bits(tree[0]))).id();
    w.despawn(gone);

    assert_eq!(walker::parent(&w, gone.to_bits()), None);
    assert!(walker::children(&w, gone.to_bits()).is_empty());
    assert_eq!(walker::parent(&w, u64::MAX), None);
    assert!(walker::children(&w, u64::MAX).is_empty());
    assert!(walker::ancestors(&w, u64::MAX).is_empty());
    assert_eq!(walker::root(&w, u64::MAX), u64::MAX);
}

#[test]
fn ancestors_run_from_parent_to_root() {
    let mut w = World::new();
    let tree = spawn_tree(&mut w);

    assert_eq!(numbers(&tree, &walker::ancestors(&w, tree[7])), vec![6, 1, 0]);
    assert_eq!(numbers(&tree, &walker::ancestors(&w, tree[5])), vec![4, 2, 1, 0]);
    assert!(walker::ancestors(&w, tree[0]).is_empty());
}

#[test]
fn descendants_wide_is_level_order() {
    let mut w = World::new();
    let tree = spawn_tree(&mut w);

    assert_eq!(
        numbers(&tree, &walker::descendants_wide(&w, tree[0])),
        vec![1, 2, 6, 3, 4, 7, 5]
    );
    assert_eq!(
        numbers(&tree, &walker::descendants_wide(&w, tree[2])),
        vec![3, 4, 5]
    );
    assert!(walker::descendants_wide(&w, tree[5]).is_empty());
}

#[test]
fn descendants_deep_is_pre_order() {
    let mut w = World::new();
    let tree = spawn_tree(&mut w);

    assert_eq!(
        numbers(&tree, &walker::descendants_deep(&w, tree[0])),
        vec![1, 2, 3, 4, 5, 6, 7]
    );
    assert_eq!(
        numbers(&tree, &walker::descendants_deep(&w, tree[1])),
        vec![2, 3, 4, 5, 6, 7]
    );
    assert!(walker::descendants_deep(&w, tree[7]).is_empty());
}

#[test]
fn descendant_orders_agree_with_the_world_iterators() {
    let mut w = World::new();
    let tree = spawn_tree(&mut w);

    for entity in &tree {
        let wide: Vec<u64> =
            WorldDescendantsWideIter::<ChildOf>::new(&w, Entity::from_bits(*entity))
                .map(|found| found.to_bits())
                .collect();
        let deep: Vec<u64> =
            WorldDescendantsDeepIter::<ChildOf>::new(&w, Entity::from_bits(*entity))
                .map(|found| found.to_bits())
                .collect();
        assert_eq!(walker::descendants_wide(&w, *entity), wide);
        assert_eq!(walker::descendants_deep(&w, *entity), deep);
    }
}

#[test]
fn both_orders_visit_the_same_entities() {
    let mut w = World::new();
    let tree = spawn_tree(&mut w);

    for entity in &tree {
        let mut wide = walker::descendants_wide(&w, *entity);
        let mut deep = walker::descendants_deep(&w, *entity);
        assert_eq!(wide.len(), deep.len());
        wide.sort();
        deep.sort();
        assert_eq!(wide, deep);
    }
}

#[test]
fn every_descendant_has_the_entity_among_its_ancestors() {
    let mut w = World::new();
    let tree = spawn_tree(&mut w);

    for entity in &tree {
        for descendant in walker::descendants_deep(&w, *entity) {
            assert!(walker::ancestors(&w, descendant).contains(entity));
        }
        for descendant in walker::descendants_wide(&w, *entity) {
            assert!(walker::ancestors(&w, descendant).contains(entity));
        }
    }
}

#[test]
fn every_entity_is_among_the_descendants_of_its_ancestors() {
    let mut w = World::new();
    let tree = spawn_tree(&mut w);

    for entity in &tree {
        for above in walker::ancestors(&w, *entity) {
            assert!(walker::descendants_deep(&w, above).contains(entity));
            assert!(walker::descendants_wide(&w, above).contains(entity));
        }
    }
}

#[test]
fn root_is_the_one_entity_without_a_parent() {
    let mut w = World::new();
    let tree = spawn_tree(&mut w);

    for entity in &tree {
        let root = walker::root(&w, *entity);
        assert_eq!(root, tree[0]);
        assert_eq!(walker::parent(&w, root), None);
    }
    let parentless: Vec<&u64> = tree
        .iter()
        .filter(|entity| walker::parent(&w, **entity).is_none())
        .collect();
    assert_eq!(parentless, vec![&tree[0]]);
}

#[test]
fn rooted_within_counts_the_steps_to_the_root() {
    let mut w = World::new();
    let tree = spawn_tree(&mut w);

    assert!(walker::is_rooted_within(&w, tree[0], 0));
    assert!(!walker::is_rooted_within(&w, tree[5], 0));
    assert!(!walker::is_rooted_within(&w, tree[5], 3));
    assert!(walker::is_rooted_within(&w, tree[5], 4));
    assert!(walker::is_rooted_within(&w, tree[5], usize::MAX));
}

#[test]
fn bounded_below_counts_the_levels_below() {
    let mut w = World::new();
    let tree = spawn_tree(&mut w);

    assert!(walker::is_bounded_below(&w, tree[7], 0));
    assert!(!walker::is_bounded_below(&w, tree[6], 0));
    assert!(walker::is_bounded_below(&w, tree[6], 1));
    assert!(!walker::is_bounded_below(&w, tree[0], 3));
    assert!(walker::is_bounded_below(&w, tree[0], 4));
}

#[test]
fn handles_walk_like_the_walker() {
    let mut w = World::new();
    let tree = spawn_tree(&mut w);
    let objects = Objects::new(&w, Kind::Any);
    let two = objects.get(tree[2]).unwrap();

    assert_eq!(two.parent().unwrap().entity(), tree[1]);
    assert!(objects.get(tree[0]).unwrap().parent().is_none());
    let entities = |found: Vec<moonshine_object::Object>| -> Vec<u64> {
        found.iter().map(|object| object.entity()).collect()
    };
    assert_eq!(numbers(&tree, &entities(two.children())), vec![3, 4]);
    assert_eq!(numbers(&tree, &entities(two.ancestors())), vec![1, 0]);
    assert_eq!(numbers(&tree, &entities(two.self_and_ancestors())), vec![2, 1, 0]);
    assert_eq!(numbers(&tree, &entities(two.descendants_wide())), vec![3, 4, 5]);
    assert_eq!(numbers(&tree, &entities(two.descendants_deep())), vec![3, 4, 5]);
    assert_eq!(
        numbers(&tree, &entities(two.self_and_descendants_wide())),
        vec![2, 3, 4, 5]
    );
    assert_eq!(
        numbers(&tree, &entities(two.self_and_descendants_deep())),
        vec![2, 3, 4, 5]
    );
    assert_eq!(two.root().entity(), tree[0]);
    assert!(two.is_rooted_within(2));
    assert!(!two.is_rooted_within(1));
    assert!(two.is_bounded_below(2));
    assert!(!two.is_bounded_below(1));
}

#[test]
fn handles_answer_questions_about_their_place() {
    let mut w = World::new();
    let tree = spawn_tree(&mut w);
    let lone = w.spawn_empty().id().to_bits();
    let objects = Objects::new(&w, Kind::Any);
    let zero = objects.get(tree[0]).unwrap();
    let two = objects.get(tree[2]).unwrap();
    let five = objects.get(tree[5]).unwrap();
    let seven = objects.get(tree[7]).unwrap();
    let lone = objects.get(lone).unwrap();

    assert!(zero.is_root());
    assert!(!zero.is_child());
    assert!(!two.is_root());
    assert!(two.is_child());
    assert!(two.is_child_of(tree[1]));
    assert!(!two.is_child_of(tree[0]));
    assert!(!zero.is_child_of(tree[0]));
    assert!(two.has_children());
    assert!(!five.has_children());

    assert!(two.is_ancestor_of(&five));
    assert!(zero.is_ancestor_of(&five));
    assert!(!five.is_ancestor_of(&two));
    assert!(!two.is_ancestor_of(&two));
    assert!(!two.is_ancestor_of(&seven));

    assert!(five.is_descendant_of(tree[2]));
    assert!(five.is_descendant_of(tree[0]));
    assert!(!two.is_descendant_of(tree[5]));
    assert!(!two.is_descendant_of(tree[2]));
    assert!(!seven.is_descendant_of(tree[2]));

    assert!(five.is_related_to(&seven));
    assert!(zero.is_related_to(&five));
    assert!(!lone.is_related_to(&five));
    assert!(lone.is_related_to(&lone));
}

#[test]
fn ancestry_is_the_same_from_both_ends() {
    let mut w = World::new();
    let tree = spawn_tree(&mut w);
    let objects = Objects::new(&w, Kind::Any);

    for above in &tree {
        for below in &tree {
            let upper = objects.get(*above).unwrap();
            let lower = objects.get(*below).unwrap();
            assert_eq!(upper.is_ancestor_of(&lower), lower.is_descendant_of(*above));
        }
    }
}
