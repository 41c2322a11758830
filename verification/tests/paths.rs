use bevy_ecs::hierarchy::ChildOf;
use bevy_ecs::name::Name;
use bevy_ecs::world::World;
use moonshine_object::path::{find_by_path, split_path};
use moonshine_object::prelude::{Kind, ObjectHierarchy, Objects};
use moonshine_object::ObjectInstance;

/// A→B→{C, D}, all named after their letter.
fn spawn_abcd(w: &mut World) -> (u64, u64, u64, u64) {
    let a = w.spawn(Name::new("A")).id();
    let b = w.spawn((Name::new("B"), ChildOf(a))).id();
    let c = w.spawn((Name::new("C"), ChildOf(b))).id();
    let d = w.spawn((Name::new("D"), ChildOf(b))).id();
    (a.to_bits(), b.to_bits(), c.to_bits(), d.to_bits())
}

#[test]
fn split_cuts_at_every_slash() {
    assert_eq!(split_path(""), vec![""]);
    assert_eq!(split_path("."), vec!["."]);
    assert_eq!(split_path("A"), vec!["A"]);
    assert_eq!(split_path("A/B"), vec!["A", "B"]);
    assert_eq!(split_path("/"), vec!["", ""]);
    assert_eq!(split_path("/A"), vec!["", "A"]);
    assert_eq!(split_path("A/"), vec!["A", ""]);
    assert_eq!(split_path("A//B"), vec!["A", "", "B"]);
    assert_eq!(split_path("../*/Ünï cödé/."), vec!["..", "*", "Ünï cödé", "."]);
}

#[test]
fn split_agrees_with_the_standard_split() {
    for path in ["", "/", "//", "a", "a/b/c", "/a/", "..//*", "é/è/", "a/b//"] {
        let expected: Vec<String> = path.split('/').map(|part| part.to_string()).collect();
        assert_eq!(split_path(path), expected);
        assert_eq!(split_path(path).join("/"), path);
    }
}

#[test]
fn dot_and_empty_path_stay_at_the_start() {
    let mut w = World::new();
    let (a, b, c, d) = spawn_abcd(&mut w);
    let unnamed = w.spawn_empty().id().to_bits();

    for entity in [a, b, c, d, unnamed, u64::MAX] {
        assert_eq!(find_by_path(&w, entity, "."), Some(entity));
        assert_eq!(find_by_path(&w, entity, ""), Some(entity));
        assert_eq!(find_by_path(&w, entity, "./."), Some(entity));
        assert_eq!(find_by_path(&w, entity, "/"), Some(entity));
    }
}

#[test]
fn paths_of_the_small_tree() {
    let mut w = World::new();
    let (a, b, c, d) = spawn_abcd(&mut w);

    assert_eq!(find_by_path(&w, a, "B/C"), Some(c));
    assert_eq!(find_by_path(&w, a, "B/*"), Some(c));
    assert_eq!(find_by_path(&w, c, ".."), Some(b));
    assert_eq!(find_by_path(&w, c, "../D"), Some(d));
    assert_eq!(find_by_path(&w, d, "../.."), Some(a));
    assert_eq!(find_by_path(&w, d, "../../B/D"), Some(d));
}

#[test]
fn empty_segments_change_nothing() {
    let mut w = World::new();
    let (a, b, c, _d) = spawn_abcd(&mut w);

    assert_eq!(find_by_path(&w, a, "/B"), Some(b));
    assert_eq!(find_by_path(&w, a, "B/"), Some(b));
    assert_eq!(find_by_path(&w, a, "B//C"), Some(c));
    assert_eq!(find_by_path(&w, a, "./B/./C/."), Some(c));
}

#[test]
fn parent_of_a_root_is_not_found() {
    let mut w = World::new();
    let (a, b, _c, _d) = spawn_abcd(&mut w);

    assert_eq!(find_by_path(&w, a, ".."), None);
    assert_eq!(find_by_path(&w, b, "../.."), None);
    assert_eq!(find_by_path(&w, a, "../B"), None);
}

#[test]
fn any_child_of_a_leaf_is_not_found() {
    let mut w = World::new();
    let (a, _b, c, _d) = spawn_abcd(&mut w);

    assert_eq!(find_by_path(&w, c, "*"), None);
    assert_eq!(find_by_path(&w, a, "*/*/*"), None);
}

#[test]
fn unmatched_literal_is_not_found() {
    let mut w = World::new();
    let (a, b, _c, _d) = spawn_abcd(&mut w);

    assert_eq!(find_by_path(&w, a, "X"), None);
    assert_eq!(find_by_path(&w, a, "B/X"), None);
    assert_eq!(find_by_path(&w, a, "X/.."), None);
    assert_eq!(find_by_path(&w, a, "B/X/.."), None);
    assert_eq!(find_by_path(&w, a, "b"), None);
    assert_eq!(find_by_path(&w, a, "B "), None);
    assert_eq!(find_by_path(&w, a, "C"), None);
    assert_eq!(find_by_path(&w, b, "A"), None);
    assert_eq!(find_by_path(&w, a, "..."), None);
}

#[test]
fn any_tries_each_child_in_order() {
    let mut w = World::new();
    let a = w.spawn(Name::new("A")).id();
    let first = w.spawn((Name::new("First"), ChildOf(a))).id();
    let second = w.spawn((Name::new("Second"), ChildOf(a))).id();
    let _x = w.spawn((Name::new("X"), ChildOf(first))).id();
    let y = w.spawn((Name::new("Y"), ChildOf(second))).id();
    let z1 = w.spawn((Name::new("Z"), ChildOf(first))).id();
    let _z2 = w.spawn((Name::new("Z"), ChildOf(second))).id();

    assert_eq!(find_by_path(&w, a.to_bits(), "*"), Some(first.to_bits()));
    assert_eq!(find_by_path(&w, a.to_bits(), "*/Y"), Some(y.to_bits()));
    assert_eq!(find_by_path(&w, a.to_bits(), "*/Z"), Some(z1.to_bits()));
    assert_eq!(find_by_path(&w, a.to_bits(), "*/Y/.."), Some(second.to_bits()));
    assert_eq!(find_by_path(&w, a.to_bits(), "*/W"), None);
}

#[test]
fn literal_takes_the_first_child_of_that_name() {
    let mut w = World::new();
    let a = w.spawn(Name::new("A")).id();
    let _unnamed = w.spawn(ChildOf(a)).id();
    let first = w.spawn((Name::new("Twin"), ChildOf(a))).id();
    let second = w.spawn((Name::new("Twin"), ChildOf(a))).id();
    let inner = w.spawn((Name::new("Inner"), ChildOf(second))).id();

    assert_eq!(find_by_path(&w, a.to_bits(), "Twin"), Some(first.to_bits()));
    assert_eq!(find_by_path(&w, a.to_bits(), "Twin/Inner"), None);
    assert_eq!(find_by_path(&w, a.to_bits(), "*/Inner"), Some(inner.to_bits()));
}

#[test]
fn path_joins_the_names_from_the_root() {
    let mut w = World::new();
    let (a, b, c, d) = spawn_abcd(&mut w);
    let objects = Objects::new(&w, Kind::Any);

    assert_eq!(objects.get(a).unwrap().path(), "A");
    assert_eq!(objects.get(b).unwrap().path(), "A/B");
    assert_eq!(objects.get(c).unwrap().path(), "A/B/C");
    assert_eq!(objects.get(d).unwrap().path(), "A/B/D");
}

#[test]
fn path_has_an_empty_segment_for_an_unnamed_object() {
    let mut w = World::new();
    let root = w.spawn_empty().id();
    let middle = w.spawn((Name::new("M"), ChildOf(root))).id();
    let inner = w.spawn(ChildOf(middle)).id();
    let leaf = w.spawn((Name::new("L"), ChildOf(inner))).id();
    let objects = Objects::new(&w, Kind::Any);

    assert_eq!(objects.get(root.to_bits()).unwrap().path(), "");
    assert_eq!(objects.get(middle.to_bits()).unwrap().path(), "/M");
    assert_eq!(objects.get(inner.to_bits()).unwrap().path(), "/M/");
    assert_eq!(objects.get(leaf.to_bits()).unwrap().path(), "/M//L");
}

#[test]
fn found_objects_are_of_any_kind_in_the_same_world() {
    let mut w = World::new();
    let (a, _b, c, _d) = spawn_abcd(&mut w);
    let objects = Objects::new(&w, Kind::Any);
    let found = objects.get(a).unwrap().find_by_path("B/C").unwrap();

    assert_eq!(found.entity(), c);
    assert_eq!(found.instance().kind, Kind::Any);
    assert!(std::ptr::eq(found.world_ref(), &w));
    assert!(objects.get(a).unwrap().find_by_path("B/X").is_none());
}
