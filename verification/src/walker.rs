//! The hierarchy walker: parents, children, ancestor chains and descendant
//! orders of an entity, read from a world.
//!
//! The walker performs no cycle detection. The functions that follow a chain
//! to its end ask the caller that the chain has one:
//! [`Hierarchy::rooted`] above the entity, [`Hierarchy::finite_below`] below
//! it. [`is_rooted_within`] and [`is_bounded_below`] test the two within a
//! given number of steps.

use crate::hierarchy::{hierarchy_of, Hierarchy};
use crate::host::{children_of, parent_of};
use bevy_ecs::world::World;
use vstd::prelude::*;

verus! {

/// The parent of `entity`, if it has one.
pub fn parent(world: &World, entity: u64) -> (parent: Option<u64>)
    ensures
        parent == hierarchy_of(*world).parent(entity),
{
    parent_of(world, entity)
}

/// The children of `entity`, in the order in which the world lists them.
pub fn children(world: &World, entity: u64) -> (children: Vec<u64>)
    ensures
        children@ == hierarchy_of(*world).children(entity),
{
    children_of(world, entity)
}

/// Whether the chain of parents above `entity` ends within `limit` steps.
pub fn is_rooted_within(world: &World, entity: u64, limit: usize) -> (rooted: bool)
    ensures
        rooted == hierarchy_of(*world).rooted_within(entity, limit as nat),
        rooted ==> hierarchy_of(*world).rooted(entity),
{
    let ghost h = hierarchy_of(*world);
    let mut current = entity;
    let mut left = limit;
    let mut next = parent_of(world, current);
    while next.is_some() && left > 0
        invariant
            h == hierarchy_of(*world),
            next == h.parent(current),
            h.rooted_within(entity, limit as nat) == h.rooted_within(current, left as nat),
        decreases left,
    {
        current = next.unwrap();
        left = left - 1;
        next = parent_of(world, current);
    }
    next.is_none()
}

/// Whether every chain of children below `entity` ends within `limit`
/// steps.
pub fn is_bounded_below(world: &World, entity: u64, limit: usize) -> (bounded: bool)
    ensures
        bounded == hierarchy_of(*world).bounded_below(entity, limit as nat),
        bounded ==> hierarchy_of(*world).finite_below(entity),
    decreases limit,
{
    let ghost h = hierarchy_of(*world);
    let below = children_of(world, entity);
    if below.len() == 0 {
        return true;
    }
    if limit == 0 {
        assert(!h.bounded_below(entity, 0)) by {
            let first = h.children(entity)[0];
        }
        return false;
    }
    let mut i: usize = 0;
    while i < below.len()
        invariant
            h == hierarchy_of(*world),
            below@ == h.children(entity),
            limit > 0,
            i <= below.len(),
            forall|j: int| 0 <= j < i ==> h.bounded_below(#[trigger] below@[j], (limit - 1) as nat),
        decreases below.len() - i,
    {
        if !is_bounded_below(world, below[i], limit - 1) {
            assert(!h.bounded_below(entity, limit as nat)) by {
                let child = h.children(entity)[i as int];
            }
            return false;
        }
        i = i + 1;
    }
    true
}

/// The ancestors of `entity`, from its parent to its root.
pub fn ancestors(world: &World, entity: u64) -> (chain: Vec<u64>)
    requires
        hierarchy_of(*world).rooted(entity),
    ensures
        chain@ == hierarchy_of(*world).ancestors(entity),
{
    let ghost h = hierarchy_of(*world);
    let ghost mut steps = h.depth_bound(entity);
    let mut chain: Vec<u64> = Vec::new();
    let mut current = entity;
    let mut next = parent_of(world, current);
    proof {
        h.lemma_ancestors_within(entity, steps);
    }
    while next.is_some()
        invariant
            h == hierarchy_of(*world),
            next == h.parent(current),
            h.rooted_within(current, steps),
            chain@ + h.ancestors_upto(current, steps) == h.ancestors(entity),
        decreases steps,
    {
        let ghost before = chain@;
        let ghost rest = h.ancestors_upto(current, steps);
        current = next.unwrap();
        chain.push(current);
        next = parent_of(world, current);
        proof {
            steps = (steps - 1) as nat;
            assert(rest == seq![current] + h.ancestors_upto(current, steps));
            assert(chain@ + h.ancestors_upto(current, steps) =~= before + rest);
        }
    }
    assert(chain@ =~= chain@ + h.ancestors_upto(current, steps));
    chain
}

/// The root of the hierarchy of `entity`: its farthest ancestor, or `entity`
/// itself where it has no parent.
pub fn root(world: &World, entity: u64) -> (root: u64)
    requires
        hierarchy_of(*world).rooted(entity),
    ensures
        root == hierarchy_of(*world).root(entity),
{
    let chain = ancestors(world, entity);
    if chain.len() == 0 {
        entity
    } else {
        chain[chain.len() - 1]
    }
}

/// Pushes `items` onto `stack`, last item first, so that the first item is
/// popped first.
fn push_reversed(stack: &mut Vec<u64>, items: &Vec<u64>)
    ensures
        final(stack)@ == old(stack)@ + items@.reverse(),
{
    let mut left = items.len();
    while left > 0
        invariant
            left <= items.len(),
            stack@ == old(stack)@ + items@.skip(left as int).reverse(),
        decreases left,
    {
        let ghost before = stack@;
        left = left - 1;
        stack.push(items[left]);
        assert(stack@ =~= old(stack)@ + items@.skip(left as int).reverse()) by {
            let tail = items@.skip(left as int);
            let shorter = items@.skip(left as int + 1);
            assert(tail.reverse() =~= shorter.reverse().push(items@[left as int]));
        }
    }
    assert(items@.skip(0) =~= items@);
}

/// The descendants of `entity` in depth-first order: each child followed by
/// its own descendants, before the next child.
pub fn descendants_deep(world: &World, entity: u64) -> (order: Vec<u64>)
    requires
        hierarchy_of(*world).finite_below(entity),
    ensures
        order@ == hierarchy_of(*world).descendants_deep(entity),
{
    let ghost h = hierarchy_of(*world);
    let ghost bound = h.height_bound(entity);
    let mut order: Vec<u64> = Vec::new();
    let mut stack: Vec<u64> = Vec::new();
    let first = children_of(world, entity);
    push_reversed(&mut stack, &first);
    proof {
        h.lemma_children_bounded(entity, bound);
        assert(stack@.reverse() =~= first@);
        assert(h.all_bounded_below(stack@, bound)) by {
            assert forall|i: int| 0 <= i < stack@.len() implies h.bounded_below(
                #[trigger] stack@[i],
                bound,
            ) by {
                assert(stack@[i] == first@[first@.len() - 1 - i]);
            }
        }
        assert(order@ + h.preorder(stack@.reverse(), bound) =~= h.preorder(first@, bound));
    }
    while stack.len() > 0
        invariant
            h == hierarchy_of(*world),
            h.all_bounded_below(stack@, bound),
            order@ + h.preorder(stack@.reverse(), bound) == h.descendants_deep(entity),
            bound == h.height_bound(entity),
        decreases h.preorder(stack@.reverse(), bound).len(),
    {
        let ghost stack_before = stack@;
        let ghost order_before = order@;
        let top = stack.pop().unwrap();
        order.push(top);
        let below = children_of(world, top);
        let ghost rest = stack@;
        push_reversed(&mut stack, &below);
        proof {
            assert(stack_before == rest.push(top));
            assert(h.bounded_below(top, bound)) by {
                assert(stack_before[stack_before.len() - 1] == top);
            }
            h.lemma_children_bounded(top, bound);
            assert(stack_before.reverse() =~= seq![top] + rest.reverse());
            assert((seq![top] + rest.reverse()).drop_first() =~= rest.reverse());
            assert(stack@.reverse() =~= below@ + rest.reverse());
            h.lemma_preorder_concat(below@, rest.reverse(), bound);
            if bound > 0 {
                h.lemma_preorder_stable(below@, (bound - 1) as nat, bound);
            }
            assert(h.preorder(stack_before.reverse(), bound) =~= seq![top] + h.preorder(
                stack@.reverse(),
                bound,
            ));
            assert(order@ + h.preorder(stack@.reverse(), bound) =~= order_before + h.preorder(
                stack_before.reverse(),
                bound,
            ));
            assert(h.all_bounded_below(stack@, bound)) by {
                assert forall|i: int| 0 <= i < stack@.len() implies h.bounded_below(
                    #[trigger] stack@[i],
                    bound,
                ) by {
                    if i < rest.len() {
                        assert(stack@[i] == stack_before[i]);
                    } else {
                        assert(stack@[i] == below@[below@.len() - 1 - (i - rest.len())]);
                    }
                }
            }
        }
    }
    assert(stack@.reverse() =~= Seq::<u64>::empty());
    assert(order@ =~= order@ + h.preorder(stack@.reverse(), bound));
    order
}

/// The descendants of `entity` in breadth-first order: its children, then
/// their children, and so on level by level.
pub fn descendants_wide(world: &World, entity: u64) -> (order: Vec<u64>)
    requires
        hierarchy_of(*world).finite_below(entity),
    ensures
        order@ == hierarchy_of(*world).descendants_wide(entity),
{
    let ghost h = hierarchy_of(*world);
    let ghost mut steps = h.height_bound(entity);
    let mut order: Vec<u64> = Vec::new();
    let mut level = children_of(world, entity);
    proof {
        h.lemma_children_bounded(entity, steps);
    }
    while level.len() > 0
        invariant
            h == hierarchy_of(*world),
            h.all_bounded_below(level@, steps),
            order@ + h.level_order(level@, steps) == h.descendants_wide(entity),
        decreases steps, level.len(),
    {
        let ghost order_before = order@;
        let mut next: Vec<u64> = Vec::new();
        let mut i: usize = 0;
        while i < level.len()
            invariant
                h == hierarchy_of(*world),
                i <= level.len(),
                order@ == order_before + level@.take(i as int),
                next@ == h.next_level(level@.take(i as int)),
            decreases level.len() - i,
        {
            let ghost seen = level@.take(i as int);
            order.push(level[i]);
            let mut below = children_of(world, level[i]);
            next.append(&mut below);
            proof {
                let one = seq![level@[i as int]];
                assert(level@.take(i + 1) =~= seen + one);
                h.lemma_next_level_concat(seen, one);
                assert(one.drop_first() =~= Seq::<u64>::empty());
                assert(h.next_level(one.drop_first()) =~= Seq::<u64>::empty());
                assert(h.next_level(one) =~= h.children(level@[i as int]));
            }
            i = i + 1;
        }
        proof {
            let before = steps;
            assert(level@.take(level@.len() as int) =~= level@);
            h.lemma_next_level_bounded(level@, before);
            if before > 0 {
                steps = (before - 1) as nat;
            }
            assert(order@ + h.level_order(next@, steps) =~= order_before + h.level_order(
                level@,
                before,
            ));
        }
        level = next;
    }
    proof {
        h.lemma_level_order_empty(steps);
        assert(level@ =~= Seq::<u64>::empty());
        assert(order@ =~= order@ + h.level_order(level@, steps));
    }
    order
}

} // verus!
