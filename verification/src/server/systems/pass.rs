//! Visiting the entities of a world one after another, lowest handle first.
//!
//! The store hands its entities out in no particular order. A pass that
//! changes more than the entity it visits takes them by ascending handle, so
//! that its outcome depends on the world alone.

use crate::server::systems::planner::lemma_remove_listed;
use crate::server::world::ComponentsView;
use vstd::prelude::*;

verus! {

/// Whether `x` is the lowest handle of `set`.
pub open spec fn is_least(set: Set<u64>, x: u64) -> bool {
    set.contains(x) && forall|y: u64| set.contains(y) ==> x <= y
}

/// The lowest handle of `set`.
pub open spec fn least(set: Set<u64>) -> u64 {
    choose|x: u64| is_least(set, x)
}

/// The world after `rule` was applied to the handles of `remaining`, lowest
/// first.
pub open spec fn visit(
    entities: Map<u64, ComponentsView>,
    remaining: Set<u64>,
    rule: spec_fn(Map<u64, ComponentsView>, u64) -> Map<u64, ComponentsView>,
) -> Map<u64, ComponentsView>
    decreases remaining.len(),
    when remaining.finite()
{
    let id = least(remaining);
    if remaining.is_empty() || !remaining.contains(id) {
        entities
    } else {
        visit(rule(entities, id), remaining.remove(id), rule)
    }
}

/// The world after `rule` was applied to every entity it had at the start,
/// lowest handle first.
pub open spec fn visit_all(
    entities: Map<u64, ComponentsView>,
    rule: spec_fn(Map<u64, ComponentsView>, u64) -> Map<u64, ComponentsView>,
) -> Map<u64, ComponentsView> {
    visit(entities, entities.dom(), rule)
}

/// Takes the lowest handle out of a list without repeats.
pub(crate) fn take_least(ids: &mut Vec<u64>) -> (id: u64)
    requires
        old(ids).len() > 0,
        old(ids)@.no_duplicates(),
    ensures
        id == least(old(ids)@.to_set()),
        is_least(old(ids)@.to_set(), id),
        final(ids)@.no_duplicates(),
        final(ids)@.to_set() == old(ids)@.to_set().remove(id),
        final(ids).len() == old(ids).len() - 1,
{
    let mut best: usize = 0;
    let mut i: usize = 1;
    while i < ids.len()
        invariant
            1 <= i <= ids.len(),
            best < i,
            forall|k: int| 0 <= k < i ==> ids[best as int] <= #[trigger] ids[k],
        decreases ids.len() - i,
    {
        if ids[i] < ids[best] {
            best = i;
        }
        i += 1;
    }
    let ghost before = ids@;
    let id = ids.remove(best);
    proof {
        lemma_remove_listed(before, best as int);
        assert(before.contains(id));
        assert forall|y: u64| before.to_set().contains(y) implies id <= y by {
            let k = choose|k: int| 0 <= k < before.len() && before[k] == y;
            assert(before[best as int] <= before[k]);
        }
        assert(is_least(before.to_set(), id));
        let c = least(before.to_set());
        assert(is_least(before.to_set(), c));
    }
    id
}

/// One step of a pass.
pub proof fn lemma_visit_step(
    entities: Map<u64, ComponentsView>,
    remaining: Set<u64>,
    rule: spec_fn(Map<u64, ComponentsView>, u64) -> Map<u64, ComponentsView>,
    id: u64,
)
    requires
        remaining.finite(),
        remaining.contains(id),
        id == least(remaining),
    ensures
        visit(entities, remaining, rule) == visit(rule(entities, id), remaining.remove(id), rule),
{
    assert(!remaining.is_empty());
}

/// A pass over no entities changes nothing.
pub proof fn lemma_visit_done(
    entities: Map<u64, ComponentsView>,
    rule: spec_fn(Map<u64, ComponentsView>, u64) -> Map<u64, ComponentsView>,
)
    ensures
        visit(entities, Set::empty(), rule) == entities,
{
}

} // verus!
