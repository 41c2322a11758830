//! The mathematical model of an entity hierarchy.
//!
//! A [`Hierarchy`] is what the walker and the path resolver read of a world:
//! who is the parent of whom, which children an entity lists and in what
//! order, and what each entity is called. Ancestor chains and descendant
//! orders are defined here, over the model alone.

use crate::host::{child_lists, entity_names, parent_links};
use bevy_ecs::world::World;
use vstd::prelude::*;

verus! {

/// The parent, children and name relations of a world, over entity bits.
pub struct Hierarchy {
    /// Each entity that has a parent, mapped to it.
    pub parents: Map<u64, u64>,
    /// Each entity that lists children, mapped to the list.
    pub children: Map<u64, Seq<u64>>,
    /// Each entity that has a name, mapped to its characters.
    pub names: Map<u64, Seq<char>>,
}

/// The hierarchy that a world holds.
pub open spec fn hierarchy_of(world: World) -> Hierarchy {
    Hierarchy {
        parents: parent_links(world),
        children: child_lists(world),
        names: entity_names(world),
    }
}

impl Hierarchy {
    /// The parent of `entity`, if it has one.
    pub open spec fn parent(self, entity: u64) -> Option<u64> {
        if self.parents.contains_key(entity) {
            Some(self.parents[entity])
        } else {
            None
        }
    }

    /// The children of `entity` in the order in which it lists them; empty
    /// for an entity that lists none.
    pub open spec fn children(self, entity: u64) -> Seq<u64> {
        if self.children.contains_key(entity) {
            self.children[entity]
        } else {
            Seq::empty()
        }
    }

    /// The name of `entity`, if it has one.
    pub open spec fn name(self, entity: u64) -> Option<Seq<char>> {
        if self.names.contains_key(entity) {
            Some(self.names[entity])
        } else {
            None
        }
    }

    /// The two relations agree: every child that an entity lists names that
    /// entity as its parent.
    pub open spec fn linked(self) -> bool {
        forall|p: u64, i: int|
            0 <= i < self.children(p).len() ==> self.parent(#[trigger] self.children(p)[i])
                == Some(p)
    }

    /// The two relations agree the other way round: every entity that has a
    /// parent is among the children that the parent lists.
    pub open spec fn listed(self) -> bool {
        forall|c: u64|
            self.parent(c) is Some ==> self.children((#[trigger] self.parent(c)).unwrap()).contains(
                c,
            )
    }

    /// `above` is reached from `entity` by at least one and at most `steps`
    /// steps from child to parent.
    pub open spec fn climbs_to(self, entity: u64, above: u64, steps: nat) -> bool
        decreases steps,
    {
        match self.parent(entity) {
            Some(p) => steps > 0 && (p == above || self.climbs_to(p, above, (steps - 1) as nat)),
            None => false,
        }
    }

    /// The chain of parents above `entity` ends after at most `steps` steps.
    pub open spec fn rooted_within(self, entity: u64, steps: nat) -> bool
        decreases steps,
    {
        match self.parent(entity) {
            None => true,
            Some(p) => steps > 0 && self.rooted_within(p, (steps - 1) as nat),
        }
    }

    /// The chain of parents above `entity` ends: no cycle lies above it.
    pub open spec fn rooted(self, entity: u64) -> bool {
        exists|steps: nat| self.rooted_within(entity, steps)
    }

    /// A number of steps within which the chain above `entity` ends, where
    /// it ends at all.
    pub open spec fn depth_bound(self, entity: u64) -> nat {
        choose|steps: nat| self.rooted_within(entity, steps)
    }

    /// The first `steps` ancestors of `entity`, nearest first.
    pub open spec fn ancestors_upto(self, entity: u64, steps: nat) -> Seq<u64>
        decreases steps,
    {
        match self.parent(entity) {
            Some(p) if steps > 0 => seq![p] + self.ancestors_upto(p, (steps - 1) as nat),
            _ => Seq::empty(),
        }
    }

    /// The ancestors of `entity`, from its parent to its root. Meaningful
    /// where `entity` is rooted.
    pub open spec fn ancestors(self, entity: u64) -> Seq<u64> {
        self.ancestors_upto(entity, self.depth_bound(entity))
    }

    /// `entity` followed by its ancestors.
    pub open spec fn self_and_ancestors(self, entity: u64) -> Seq<u64> {
        seq![entity] + self.ancestors(entity)
    }

    /// The farthest ancestor of `entity`, or `entity` itself where it has no
    /// parent.
    pub open spec fn root(self, entity: u64) -> u64 {
        self.self_and_ancestors(entity).last()
    }

    /// Every chain of children below `entity` ends after at most `steps`
    /// steps.
    pub open spec fn bounded_below(self, entity: u64, steps: nat) -> bool
        decreases steps,
    {
        forall|i: int|
            0 <= i < self.children(entity).len() ==> steps > 0 && self.bounded_below(
                #[trigger] self.children(entity)[i],
                (steps - 1) as nat,
            )
    }

    /// Every entity of `roots` is bounded below by `steps`.
    pub open spec fn all_bounded_below(self, roots: Seq<u64>, steps: nat) -> bool {
        forall|i: int| 0 <= i < roots.len() ==> self.bounded_below(#[trigger] roots[i], steps)
    }

    /// The tree below `entity` has finite height: no cycle lies below it.
    pub open spec fn finite_below(self, entity: u64) -> bool {
        exists|steps: nat| self.bounded_below(entity, steps)
    }

    /// A bound on the height of the tree below `entity`, where it has one.
    pub open spec fn height_bound(self, entity: u64) -> nat {
        choose|steps: nat| self.bounded_below(entity, steps)
    }

    /// The entities of `roots` in pre-order: each followed by everything
    /// below it, down to `steps` levels.
    pub open spec fn preorder(self, roots: Seq<u64>, steps: nat) -> Seq<u64>
        decreases steps, roots.len(),
    {
        if roots.len() == 0 {
            Seq::empty()
        } else {
            let below = if steps == 0 {
                Seq::empty()
            } else {
                self.preorder(self.children(roots[0]), (steps - 1) as nat)
            };
            seq![roots[0]] + below + self.preorder(roots.drop_first(), steps)
        }
    }

    /// The children of every entity of `level`, in order: the next level.
    pub open spec fn next_level(self, level: Seq<u64>) -> Seq<u64>
        decreases level.len(),
    {
        if level.len() == 0 {
            Seq::empty()
        } else {
            self.children(level[0]) + self.next_level(level.drop_first())
        }
    }

    /// The entities of `level` followed by the `steps` levels below it,
    /// level by level.
    pub open spec fn level_order(self, level: Seq<u64>, steps: nat) -> Seq<u64>
        decreases steps,
    {
        if steps == 0 {
            level
        } else {
            level + self.level_order(self.next_level(level), (steps - 1) as nat)
        }
    }

    /// The descendants of `entity` in depth-first order: a pre-order
    /// expansion of its children. Meaningful where the tree below `entity`
    /// is finite.
    pub open spec fn descendants_deep(self, entity: u64) -> Seq<u64> {
        self.preorder(self.children(entity), self.height_bound(entity))
    }

    /// The descendants of `entity` in breadth-first order: a level-order
    /// expansion of its children. Meaningful where the tree below `entity`
    /// is finite.
    pub open spec fn descendants_wide(self, entity: u64) -> Seq<u64> {
        self.level_order(self.children(entity), self.height_bound(entity))
    }
}

impl Hierarchy {
    /// Once the chain above `entity` has ended, more steps find no more
    /// ancestors.
    pub proof fn lemma_ancestors_upto_stable(self, entity: u64, steps: nat, more: nat)
        requires
            self.rooted_within(entity, steps),
            self.rooted_within(entity, more),
        ensures
            self.ancestors_upto(entity, steps) == self.ancestors_upto(entity, more),
            self.ancestors_upto(entity, steps).len() <= steps,
        decreases steps,
    {
        if let Some(p) = self.parent(entity) {
            self.lemma_ancestors_upto_stable(p, (steps - 1) as nat, (more - 1) as nat);
        }
    }

    /// Any number of steps within which the chain ends gives the ancestors.
    pub proof fn lemma_ancestors_within(self, entity: u64, steps: nat)
        requires
            self.rooted_within(entity, steps),
        ensures
            self.rooted(entity),
            self.ancestors(entity) == self.ancestors_upto(entity, steps),
            self.ancestors(entity).len() <= steps,
    {
        self.lemma_ancestors_upto_stable(entity, steps, self.depth_bound(entity));
    }

    /// The ancestors of an entity are its parent followed by the parent's
    /// ancestors; an entity without a parent has none.
    pub proof fn lemma_ancestors_unfold(self, entity: u64)
        requires
            self.rooted(entity),
        ensures
            self.parent(entity) is None ==> self.ancestors(entity) == Seq::<u64>::empty(),
            self.parent(entity) matches Some(p) ==> self.rooted(p) && self.ancestors(entity)
                == seq![p] + self.ancestors(p),
    {
        let steps = self.depth_bound(entity);
        if let Some(p) = self.parent(entity) {
            self.lemma_ancestors_within(p, (steps - 1) as nat);
        }
    }

    /// A tree that is bounded by `steps` is bounded by any larger number.
    pub proof fn lemma_bounded_below_monotone(self, entity: u64, steps: nat, more: nat)
        requires
            self.bounded_below(entity, steps),
            steps <= more,
        ensures
            self.bounded_below(entity, more),
        decreases steps,
    {
        assert forall|i: int| 0 <= i < self.children(entity).len() implies more > 0
            && self.bounded_below(#[trigger] self.children(entity)[i], (more - 1) as nat) by {
            self.lemma_bounded_below_monotone(
                self.children(entity)[i],
                (steps - 1) as nat,
                (more - 1) as nat,
            );
        }
    }

    /// The children of a bounded entity are bounded by one step less, and
    /// an entity bounded by no step has no children.
    pub proof fn lemma_children_bounded(self, entity: u64, steps: nat)
        requires
            self.bounded_below(entity, steps),
        ensures
            steps == 0 ==> self.children(entity).len() == 0,
            steps > 0 ==> self.all_bounded_below(self.children(entity), (steps - 1) as nat),
            self.all_bounded_below(self.children(entity), steps),
    {
        if self.children(entity).len() > 0 {
            let first = self.children(entity)[0];
            assert(steps > 0);
        }
        assert forall|i: int| 0 <= i < self.children(entity).len() implies self.bounded_below(
            #[trigger] self.children(entity)[i],
            steps,
        ) by {
            self.lemma_bounded_below_monotone(
                self.children(entity)[i],
                (steps - 1) as nat,
                steps,
            );
        }
    }

    /// The pre-order of a concatenation is the concatenation of the
    /// pre-orders.
    pub proof fn lemma_preorder_concat(self, left: Seq<u64>, right: Seq<u64>, steps: nat)
        ensures
            self.preorder(left + right, steps) == self.preorder(left, steps) + self.preorder(
                right,
                steps,
            ),
        decreases left.len(),
    {
        if left.len() == 0 {
            assert(left + right =~= right);
        } else {
            assert((left + right).drop_first() =~= left.drop_first() + right);
            self.lemma_preorder_concat(left.drop_first(), right, steps);
        }
    }

    /// Below a bounded forest, more steps find no more entities.
    pub proof fn lemma_preorder_stable(self, roots: Seq<u64>, steps: nat, more: nat)
        requires
            self.all_bounded_below(roots, steps),
            steps <= more,
        ensures
            self.preorder(roots, steps) == self.preorder(roots, more),
        decreases steps, roots.len(),
    {
        if roots.len() > 0 {
            let first = roots[0];
            self.lemma_children_bounded(first, steps);
            if steps > 0 {
                self.lemma_preorder_stable(
                    self.children(first),
                    (steps - 1) as nat,
                    (more - 1) as nat,
                );
            } else if more > 0 {
                assert(self.preorder(self.children(first), (more - 1) as nat) == Seq::<
                    u64,
                >::empty());
            }
            assert(self.all_bounded_below(roots.drop_first(), steps)) by {
                assert forall|i: int| 0 <= i < roots.drop_first().len() implies self.bounded_below(
                    #[trigger] roots.drop_first()[i],
                    steps,
                ) by {
                    assert(roots.drop_first()[i] == roots[i + 1]);
                }
            }
            self.lemma_preorder_stable(roots.drop_first(), steps, more);
        }
    }

    /// The next level of a concatenation is the concatenation of the next
    /// levels.
    pub proof fn lemma_next_level_concat(self, left: Seq<u64>, right: Seq<u64>)
        ensures
            self.next_level(left + right) == self.next_level(left) + self.next_level(right),
        decreases left.len(),
    {
        if left.len() == 0 {
            assert(left + right =~= right);
        } else {
            assert((left + right).drop_first() =~= left.drop_first() + right);
            self.lemma_next_level_concat(left.drop_first(), right);
        }
    }

    /// The next level of a forest bounded by `steps` is bounded by one step
    /// less, and is empty where `steps` is zero.
    pub proof fn lemma_next_level_bounded(self, level: Seq<u64>, steps: nat)
        requires
            self.all_bounded_below(level, steps),
        ensures
            steps == 0 ==> self.next_level(level).len() == 0,
            steps > 0 ==> self.all_bounded_below(self.next_level(level), (steps - 1) as nat),
        decreases level.len(),
    {
        if level.len() > 0 {
            let rest = level.drop_first();
            assert forall|i: int| 0 <= i < rest.len() implies self.bounded_below(
                #[trigger] rest[i],
                steps,
            ) by {
                assert(rest[i] == level[i + 1]);
            }
            self.lemma_next_level_bounded(rest, steps);
            self.lemma_children_bounded(level[0], steps);
        }
    }

    /// Nothing lies below an empty level.
    pub proof fn lemma_level_order_empty(self, steps: nat)
        ensures
            self.level_order(Seq::empty(), steps) == Seq::<u64>::empty(),
        decreases steps,
    {
        if steps > 0 {
            self.lemma_level_order_empty((steps - 1) as nat);
            assert(self.next_level(Seq::empty()) == Seq::<u64>::empty());
        }
    }

    /// Below a bounded forest, more levels find no more entities.
    pub proof fn lemma_level_order_stable(self, level: Seq<u64>, steps: nat, more: nat)
        requires
            self.all_bounded_below(level, steps),
            steps <= more,
        ensures
            self.level_order(level, steps) == self.level_order(level, more),
        decreases steps,
    {
        self.lemma_next_level_bounded(level, steps);
        if steps > 0 {
            self.lemma_level_order_stable(
                self.next_level(level),
                (steps - 1) as nat,
                (more - 1) as nat,
            );
        } else if more > 0 {
            assert(self.next_level(level) =~= Seq::<u64>::empty());
            self.lemma_level_order_empty((more - 1) as nat);
        }
    }

    /// Any bound on the height of the tree below an entity gives its
    /// descendants, in either order.
    pub proof fn lemma_descendants_within(self, entity: u64, steps: nat)
        requires
            self.bounded_below(entity, steps),
        ensures
            self.finite_below(entity),
            self.descendants_deep(entity) == self.preorder(self.children(entity), steps),
            self.descendants_wide(entity) == self.level_order(self.children(entity), steps),
    {
        let chosen = self.height_bound(entity);
        let below = self.children(entity);
        self.lemma_children_bounded(entity, steps);
        self.lemma_children_bounded(entity, chosen);
        if steps <= chosen {
            self.lemma_preorder_stable(below, steps, chosen);
            self.lemma_level_order_stable(below, steps, chosen);
        } else {
            self.lemma_preorder_stable(below, chosen, steps);
            self.lemma_level_order_stable(below, chosen, steps);
        }
    }
}

} // verus!
