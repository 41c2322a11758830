//! What holds of every hierarchy and every path.
//!
//! The statements are made over the model of [`crate::hierarchy`] and
//! [`crate::path`], in which the contracts of the walker, of the resolver
//! and of the handles are written.

use crate::hierarchy::Hierarchy;
use crate::path::{is_literal, join, split};
use vstd::prelude::*;
use vstd::seq_lib::*;

verus! {

impl Hierarchy {
    /// The root of an entity is the root of its parent.
    pub proof fn lemma_root_unfold(self, entity: u64)
        requires
            self.rooted(entity),
        ensures
            self.parent(entity) is None ==> self.root(entity) == entity,
            self.parent(entity) matches Some(p) ==> self.rooted(p) && self.root(entity)
                == self.root(p) && self.self_and_ancestors(entity) == seq![entity]
                + self.self_and_ancestors(p),
    {
        self.lemma_ancestors_unfold(entity);
        if let Some(p) = self.parent(entity) {
            assert(self.self_and_ancestors(entity) =~= seq![entity] + self.self_and_ancestors(p));
        }
    }

    /// Where the chain above `entity` ends within `steps` steps: its root has
    /// no parent, is the only entity of the chain without one, and is the
    /// root of every entity of the chain.
    pub proof fn lemma_root_within(self, entity: u64, steps: nat)
        requires
            self.rooted_within(entity, steps),
        ensures
            self.rooted(entity),
            self.parent(self.root(entity)) is None,
            self.self_and_ancestors(entity).contains(self.root(entity)),
            forall|x: u64|
                self.self_and_ancestors(entity).contains(x) && self.parent(x) is None ==> x
                    == self.root(entity),
            forall|x: u64| #[trigger]
                self.self_and_ancestors(entity).contains(x) ==> self.rooted(x) && self.root(x)
                    == self.root(entity),
        decreases steps,
    {
        self.lemma_ancestors_within(entity, steps);
        self.lemma_root_unfold(entity);
        let chain = self.self_and_ancestors(entity);
        assert(chain[0] == entity);
        match self.parent(entity) {
            None => {
                assert(chain =~= seq![entity]);
                assert(chain.last() == entity);
            },
            Some(p) => {
                self.lemma_root_within(p, (steps - 1) as nat);
                let above = self.self_and_ancestors(p);
                assert(above.contains(self.root(p)));
                let k = choose|k: int| 0 <= k < above.len() && above[k] == self.root(p);
                assert(chain[k + 1] == self.root(p));
                assert forall|x: u64| chain.contains(x) implies self.rooted(x) && self.root(x)
                    == self.root(entity) && (self.parent(x) is None ==> x == self.root(
                    entity,
                )) by {
                    let i = choose|i: int| 0 <= i < chain.len() && chain[i] == x;
                    if i > 0 {
                        assert(above[i - 1] == x);
                        assert(above.contains(x));
                    }
                }
            },
        }
    }

    /// One more step at the top of a climb.
    pub proof fn lemma_climb_further(self, entity: u64, middle: u64, above: u64, steps: nat)
        requires
            self.climbs_to(entity, middle, steps),
            self.parent(middle) == Some(above),
        ensures
            self.climbs_to(entity, above, steps + 1),
        decreases steps,
    {
        let p = self.parent(entity).unwrap();
        if p != middle {
            self.lemma_climb_further(p, middle, above, (steps - 1) as nat);
        } else {
            assert(self.climbs_to(p, above, steps));
        }
    }

    /// What is reached by climbing from an entity is one of its ancestors,
    /// and the entity is rooted where what is reached is.
    pub proof fn lemma_climb_is_ancestor(self, entity: u64, above: u64, steps: nat)
        requires
            self.climbs_to(entity, above, steps),
            self.rooted(above),
        ensures
            self.rooted(entity),
            self.ancestors(entity).contains(above),
        decreases steps,
    {
        let p = self.parent(entity).unwrap();
        if p != above {
            self.lemma_climb_is_ancestor(p, above, (steps - 1) as nat);
        }
        let bound = self.depth_bound(p);
        assert(self.rooted_within(entity, bound + 1));
        self.lemma_ancestors_within(entity, bound + 1);
        self.lemma_ancestors_unfold(entity);
        let rest = self.ancestors(p);
        let chain = seq![p] + rest;
        if p == above {
            assert(chain[0] == above);
        } else {
            let k = choose|k: int| 0 <= k < rest.len() && rest[k] == above;
            assert(chain[k + 1] == above);
        }
    }

    /// An entity of a pre-order is one of the roots or lies in the pre-order
    /// below one of them.
    pub proof fn lemma_preorder_member(self, roots: Seq<u64>, steps: nat, entity: u64) -> (i: int)
        requires
            self.preorder(roots, steps).contains(entity),
        ensures
            0 <= i < roots.len(),
            entity == roots[i] || (steps > 0 && self.preorder(
                self.children(roots[i]),
                (steps - 1) as nat,
            ).contains(entity)),
        decreases roots.len(),
    {
        let order = self.preorder(roots, steps);
        let k = choose|k: int| 0 <= k < order.len() && order[k] == entity;
        let below = if steps == 0 {
            Seq::<u64>::empty()
        } else {
            self.preorder(self.children(roots[0]), (steps - 1) as nat)
        };
        let rest = self.preorder(roots.drop_first(), steps);
        assert(order == seq![roots[0]] + below + rest);
        if k == 0 {
            0
        } else if k < 1 + below.len() {
            assert(below[k - 1] == entity);
            0
        } else {
            assert(rest[k - 1 - below.len()] == entity);
            let j = self.lemma_preorder_member(roots.drop_first(), steps, entity);
            j + 1
        }
    }

    /// In a linked hierarchy, what lies in the pre-order below the children
    /// of an entity climbs to that entity.
    pub proof fn lemma_preorder_climbs(self, above: u64, steps: nat, entity: u64)
        requires
            self.linked(),
            self.preorder(self.children(above), steps).contains(entity),
        ensures
            self.climbs_to(entity, above, steps + 1),
        decreases steps,
    {
        let i = self.lemma_preorder_member(self.children(above), steps, entity);
        let child = self.children(above)[i];
        assert(self.parent(child) == Some(above));
        if entity != child {
            self.lemma_preorder_climbs(child, (steps - 1) as nat, entity);
            self.lemma_climb_further(entity, child, above, steps);
        }
    }

    /// An ancestor of an entity is reached by climbing from it.
    pub proof fn lemma_ancestor_is_climbed(self, entity: u64, above: u64, steps: nat)
        requires
            self.ancestors_upto(entity, steps).contains(above),
        ensures
            self.climbs_to(entity, above, steps),
        decreases steps,
    {
        let chain = self.ancestors_upto(entity, steps);
        let p = self.parent(entity).unwrap();
        let rest = self.ancestors_upto(p, (steps - 1) as nat);
        assert(chain == seq![p] + rest);
        let k = choose|k: int| 0 <= k < chain.len() && chain[k] == above;
        if k > 0 {
            assert(rest[k - 1] == above);
            self.lemma_ancestor_is_climbed(p, above, (steps - 1) as nat);
        }
    }

    /// The roots of a forest are in its pre-order.
    pub proof fn lemma_preorder_has_roots(self, roots: Seq<u64>, steps: nat, i: int)
        requires
            0 <= i < roots.len(),
        ensures
            self.preorder(roots, steps).contains(roots[i]),
        decreases roots.len(),
    {
        let below = if steps == 0 {
            Seq::<u64>::empty()
        } else {
            self.preorder(self.children(roots[0]), (steps - 1) as nat)
        };
        let rest = self.preorder(roots.drop_first(), steps);
        let order = self.preorder(roots, steps);
        assert(order == seq![roots[0]] + below + rest);
        if i == 0 {
            assert(order[0] == roots[0]);
        } else {
            self.lemma_preorder_has_roots(roots.drop_first(), steps, i - 1);
            let k = choose|k: int| 0 <= k < rest.len() && rest[k] == roots[i];
            assert(order[1 + below.len() + k] == roots[i]);
        }
    }

    /// The pre-order of a bounded forest holds the children of what it
    /// holds.
    pub proof fn lemma_preorder_has_children(
        self,
        roots: Seq<u64>,
        steps: nat,
        entity: u64,
        i: int,
    )
        requires
            self.all_bounded_below(roots, steps),
            self.preorder(roots, steps).contains(entity),
            0 <= i < self.children(entity).len(),
        ensures
            self.preorder(roots, steps).contains(self.children(entity)[i]),
        decreases steps, roots.len(),
    {
        let child = self.children(entity)[i];
        let order = self.preorder(roots, steps);
        let k = choose|k: int| 0 <= k < order.len() && order[k] == entity;
        let first = roots[0];
        let below = if steps == 0 {
            Seq::<u64>::empty()
        } else {
            self.preorder(self.children(first), (steps - 1) as nat)
        };
        let rest = self.preorder(roots.drop_first(), steps);
        assert(order == seq![first] + below + rest);
        assert(self.bounded_below(first, steps));
        if k < 1 + below.len() {
            if k == 0 {
                assert(entity == first);
                self.lemma_children_bounded(first, steps);
                self.lemma_preorder_has_roots(self.children(first), (steps - 1) as nat, i);
            } else {
                assert(below[k - 1] == entity);
                self.lemma_children_bounded(first, steps);
                self.lemma_preorder_has_children(
                    self.children(first),
                    (steps - 1) as nat,
                    entity,
                    i,
                );
            }
            let j = choose|j: int| 0 <= j < below.len() && below[j] == child;
            assert(order[1 + j] == child);
        } else {
            assert(rest[k - 1 - below.len()] == entity);
            assert(self.all_bounded_below(roots.drop_first(), steps)) by {
                assert forall|j: int| 0 <= j < roots.drop_first().len() implies self.bounded_below(
                    #[trigger] roots.drop_first()[j],
                    steps,
                ) by {
                    assert(roots.drop_first()[j] == roots[j + 1]);
                }
            }
            self.lemma_preorder_has_children(roots.drop_first(), steps, entity, i);
            let j = choose|j: int| 0 <= j < rest.len() && rest[j] == child;
            assert(order[1 + below.len() + j] == child);
        }
    }

    /// In a hierarchy where parents list their children, what climbs to an
    /// entity lies in the pre-order below that entity's children.
    pub proof fn lemma_climber_is_below(self, entity: u64, above: u64, steps: nat, bound: nat)
        requires
            self.listed(),
            self.climbs_to(entity, above, steps),
            self.bounded_below(above, bound),
        ensures
            self.preorder(self.children(above), bound).contains(entity),
        decreases steps,
    {
        let p = self.parent(entity).unwrap();
        assert(self.children(p).contains(entity));
        let i = choose|i: int| 0 <= i < self.children(p).len() && self.children(p)[i] == entity;
        self.lemma_children_bounded(above, bound);
        if p == above {
            self.lemma_preorder_has_roots(self.children(above), bound, i);
        } else {
            self.lemma_climber_is_below(p, above, (steps - 1) as nat, bound);
            self.lemma_preorder_has_children(self.children(above), bound, p, i);
        }
    }

    /// With no step to go down, the pre-order of a forest is its roots.
    pub proof fn lemma_preorder_flat(self, roots: Seq<u64>)
        ensures
            self.preorder(roots, 0) == roots,
        decreases roots.len(),
    {
        if roots.len() > 0 {
            self.lemma_preorder_flat(roots.drop_first());
            assert(self.preorder(roots, 0) =~= seq![roots[0]] + roots.drop_first());
            assert(seq![roots[0]] + roots.drop_first() =~= roots);
        }
    }

    /// The pre-order of a forest holds its roots and the pre-order of the
    /// level below them, each as often.
    pub proof fn lemma_preorder_by_level(self, roots: Seq<u64>, steps: nat)
        requires
            steps > 0,
        ensures
            self.preorder(roots, steps).to_multiset() == roots.to_multiset().add(
                self.preorder(self.next_level(roots), (steps - 1) as nat).to_multiset(),
            ),
        decreases roots.len(),
    {
        broadcast use vstd::multiset::group_multiset_axioms;

        let less = (steps - 1) as nat;
        if roots.len() == 0 {
            let none = Seq::<u64>::empty();
            assert(roots =~= none);
            assert(self.next_level(none) =~= none);
            assert(self.preorder(none, steps) =~= none);
            assert(self.preorder(none, less) =~= none);
            lemma_multiset_commutative(none, none);
            assert(none + none =~= none);
        } else {
            let first = seq![roots[0]];
            let rest = roots.drop_first();
            let below = self.preorder(self.children(roots[0]), less);
            let beside = self.preorder(rest, steps);
            let under = self.preorder(self.next_level(rest), less);
            self.lemma_preorder_by_level(rest, steps);
            assert(beside.to_multiset() == rest.to_multiset().add(under.to_multiset()));
            self.lemma_preorder_concat(self.children(roots[0]), self.next_level(rest), less);
            assert(self.preorder(self.next_level(roots), less) == below + under);
            assert(roots =~= first + rest);
            assert(self.preorder(roots, steps) == first + below + beside);
            lemma_multiset_commutative(first, rest);
            lemma_multiset_commutative(first + below, beside);
            lemma_multiset_commutative(first, below);
            lemma_multiset_commutative(below, under);
            let a = first.to_multiset();
            let b = below.to_multiset();
            let c = rest.to_multiset();
            let d = under.to_multiset();
            assert(self.preorder(roots, steps).to_multiset() == a.add(b).add(c.add(d)));
            assert(roots.to_multiset() == a.add(c));
            assert(self.preorder(self.next_level(roots), less).to_multiset() == b.add(d));
            assert(a.add(b).add(c.add(d)) =~= a.add(c).add(b.add(d)));
        }
    }

    /// The pre-order and the level order of a forest hold the same entities,
    /// each as often.
    pub proof fn lemma_orders_agree(self, roots: Seq<u64>, steps: nat)
        ensures
            self.preorder(roots, steps).to_multiset() == self.level_order(
                roots,
                steps,
            ).to_multiset(),
        decreases steps,
    {
        if steps == 0 {
            self.lemma_preorder_flat(roots);
        } else {
            let less = (steps - 1) as nat;
            self.lemma_preorder_by_level(roots, steps);
            self.lemma_orders_agree(self.next_level(roots), less);
            lemma_multiset_commutative(roots, self.level_order(self.next_level(roots), less));
        }
    }
}

/// The depth-first and the breadth-first order of the descendants of an
/// entity are rearrangements of each other: they hold the same entities,
/// each as often, and so are equally long.
pub proof fn law_orders_hold_the_same(h: Hierarchy, entity: u64)
    ensures
        h.descendants_deep(entity).to_multiset() == h.descendants_wide(entity).to_multiset(),
        h.descendants_deep(entity).len() == h.descendants_wide(entity).len(),
        forall|x: u64|
            h.descendants_deep(entity).contains(x) <==> h.descendants_wide(entity).contains(x),
{
    let deep = h.descendants_deep(entity);
    let wide = h.descendants_wide(entity);
    h.lemma_orders_agree(h.children(entity), h.height_bound(entity));
    to_multiset_len(deep);
    to_multiset_len(wide);
    assert forall|x: u64| deep.contains(x) <==> wide.contains(x) by {
        to_multiset_contains(deep, x);
        to_multiset_contains(wide, x);
    }
}

/// In a linked hierarchy, every descendant of a rooted entity has that
/// entity among its ancestors, whichever order found it.
pub proof fn law_descendant_has_ancestor(h: Hierarchy, entity: u64, descendant: u64)
    requires
        h.linked(),
        h.rooted(entity),
        h.descendants_deep(entity).contains(descendant) || h.descendants_wide(entity).contains(
            descendant,
        ),
    ensures
        h.rooted(descendant),
        h.ancestors(descendant).contains(entity),
{
    law_orders_hold_the_same(h, entity);
    let steps = h.height_bound(entity);
    h.lemma_preorder_climbs(entity, steps, descendant);
    h.lemma_climb_is_ancestor(descendant, entity, steps + 1);
}

/// In a hierarchy where parents list their children, an entity is among the
/// descendants of each of its ancestors below which the tree is finite,
/// whichever order lists them.
pub proof fn law_ancestor_has_descendant(h: Hierarchy, entity: u64, descendant: u64)
    requires
        h.listed(),
        h.finite_below(entity),
        h.ancestors(descendant).contains(entity),
    ensures
        h.descendants_deep(entity).contains(descendant),
        h.descendants_wide(entity).contains(descendant),
{
    h.lemma_ancestor_is_climbed(descendant, entity, h.depth_bound(descendant));
    h.lemma_climber_is_below(
        descendant,
        entity,
        h.depth_bound(descendant),
        h.height_bound(entity),
    );
    law_orders_hold_the_same(h, entity);
}

/// An entity that is the top of a tree is the root of every entity of the
/// tree: where an entity without a parent is an entity itself or among its
/// ancestors, it is its root.
pub proof fn law_root_is_the_top(h: Hierarchy, entity: u64, top: u64)
    requires
        h.rooted(entity),
        h.parent(top) is None,
        h.self_and_ancestors(entity).contains(top),
    ensures
        h.root(entity) == top,
{
    law_root_is_the_parentless(h, entity);
}

/// The root of a rooted entity has no parent, and it is the only entity
/// without a parent among the entity and its ancestors.
pub proof fn law_root_is_the_parentless(h: Hierarchy, entity: u64)
    requires
        h.rooted(entity),
    ensures
        h.parent(h.root(entity)) is None,
        h.self_and_ancestors(entity).contains(h.root(entity)),
        forall|x: u64|
            h.self_and_ancestors(entity).contains(x) && h.parent(x) is None ==> x == h.root(
                entity,
            ),
{
    h.lemma_root_within(entity, h.depth_bound(entity));
}

/// An entity and each of its ancestors have the same root.
pub proof fn law_root_is_shared(h: Hierarchy, entity: u64, above: u64)
    requires
        h.rooted(entity),
        h.ancestors(entity).contains(above),
    ensures
        h.rooted(above),
        h.root(above) == h.root(entity),
{
    h.lemma_root_within(entity, h.depth_bound(entity));
    let chain = h.ancestors(entity);
    let k = choose|k: int| 0 <= k < chain.len() && chain[k] == above;
    assert(h.self_and_ancestors(entity)[k + 1] == above);
    assert(h.self_and_ancestors(entity).contains(above));
}

/// In a linked hierarchy, a rooted entity and each of its descendants have
/// the same root.
pub proof fn law_root_of_descendant(h: Hierarchy, entity: u64, descendant: u64)
    requires
        h.linked(),
        h.rooted(entity),
        h.descendants_deep(entity).contains(descendant) || h.descendants_wide(entity).contains(
            descendant,
        ),
    ensures
        h.rooted(descendant),
        h.root(descendant) == h.root(entity),
{
    law_descendant_has_ancestor(h, entity, descendant);
    law_root_is_shared(h, descendant, entity);
}

/// The path `.` leads from every entity to itself.
pub proof fn law_dot_stays(h: Hierarchy, start: u64)
    ensures
        split(seq!['.']) == seq![seq!['.']],
        h.resolve(start, split(seq!['.'])) == Some(start),
{
    let path = seq!['.'];
    assert(path.drop_last() =~= Seq::<char>::empty());
    assert(split(path.drop_last()) == seq![Seq::<char>::empty()]);
    let before = split(path.drop_last());
    assert(before.drop_last().push(before.last().push('.')) =~= seq![seq!['.']]);
    assert(Seq::<char>::empty().push('.') =~= seq!['.']);
    assert(split(path) =~= seq![seq!['.']]);
    let segments = seq![seq!['.']];
    assert(segments.drop_first() =~= Seq::<Seq<char>>::empty());
    assert(h.resolve(start, segments.drop_first()) == Some(start));
}

/// The empty path leads from every entity to itself.
pub proof fn law_empty_stays(h: Hierarchy, start: u64)
    ensures
        split(Seq::empty()) == seq![Seq::<char>::empty()],
        h.resolve(start, split(Seq::empty())) == Some(start),
{
    let segments = seq![Seq::<char>::empty()];
    assert(segments.drop_first() =~= Seq::<Seq<char>>::empty());
    assert(h.resolve(start, segments.drop_first()) == Some(start));
}

/// A search by name finds a candidate with that name, the first of them,
/// and finds none only where no candidate has that name.
pub proof fn law_first_named(h: Hierarchy, candidates: Seq<u64>, name: Seq<char>)
    ensures
        h.first_named(candidates, name) is None <==> (forall|i: int|
            0 <= i < candidates.len() ==> h.name(#[trigger] candidates[i]) != Some(name)),
        h.first_named(candidates, name) matches Some(found) ==> exists|i: int|
            0 <= i < candidates.len() && #[trigger] candidates[i] == found && h.name(found) == Some(
                name,
            ) && forall|j: int| 0 <= j < i ==> h.name(#[trigger] candidates[j]) != Some(name),
    decreases candidates.len(),
{
    if candidates.len() > 0 {
        let rest = candidates.drop_first();
        law_first_named(h, rest, name);
        if h.name(candidates[0]) == Some(name) {
            assert(candidates[0] == candidates[0]);
        } else {
            assert forall|i: int| 0 <= i < rest.len() implies rest[i] == candidates[i + 1] by {}
            if let Some(found) = h.first_named(rest, name) {
                let i = choose|i: int|
                    0 <= i < rest.len() && #[trigger] rest[i] == found && h.name(found) == Some(
                        name,
                    ) && forall|j: int| 0 <= j < i ==> h.name(#[trigger] rest[j]) != Some(name);
                assert(candidates[i + 1] == found);
                assert forall|j: int| 0 <= j < i + 1 implies h.name(#[trigger] candidates[j])
                    != Some(name) by {
                    if j > 0 {
                        assert(rest[j - 1] == candidates[j]);
                    }
                }
            } else {
                assert forall|i: int| 0 <= i < candidates.len() implies h.name(
                    #[trigger] candidates[i],
                ) != Some(name) by {
                    if i > 0 {
                        assert(rest[i - 1] == candidates[i]);
                    }
                }
            }
        }
    }
}

/// A path whose first segment is a literal that is the name of no child of
/// the start leads nowhere, whatever follows the segment.
pub proof fn law_unmatched_literal_fails(h: Hierarchy, start: u64, segments: Seq<Seq<char>>)
    requires
        segments.len() > 0,
        is_literal(segments[0]),
        forall|i: int|
            0 <= i < h.children(start).len() ==> h.name(#[trigger] h.children(start)[i]) != Some(
                segments[0],
            ),
    ensures
        h.resolve(start, segments) is None,
{
    law_first_named(h, h.children(start), segments[0]);
}

/// A path is split into at least one segment, no segment holds a `/`, and
/// the segments joined by `/` give the path back.
pub proof fn law_split_then_join(path: Seq<char>)
    ensures
        split(path).len() >= 1,
        forall|i: int| 0 <= i < split(path).len() ==> !(#[trigger] split(path)[i]).contains('/'),
        join(split(path)) == path,
    decreases path.len(),
{
    if path.len() == 0 {
        assert(join(split(path)) =~= path);
    } else {
        let shorter = path.drop_last();
        let before = split(shorter);
        law_split_then_join(shorter);
        assert(path =~= shorter.push(path.last()));
        if path.last() == '/' {
            let after = before.push(Seq::empty());
            assert(after.drop_last() =~= before);
            assert(join(after) =~= join(before) + seq!['/']);
        } else {
            let open = before.last().push(path.last());
            let after = before.drop_last().push(open);
            assert(after.drop_last() =~= before.drop_last());
            assert(!open.contains('/')) by {
                if open.contains('/') {
                    let k = choose|k: int| 0 <= k < open.len() && open[k] == '/';
                    assert(before.last()[k] == '/');
                    assert(before.last().contains('/'));
                }
            }
            if before.len() == 1 {
                assert(join(after) =~= join(before).push(path.last()));
            } else {
                assert(join(after) =~= join(before).push(path.last()));
            }
        }
    }
}

} // verus!
