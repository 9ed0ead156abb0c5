//! What holds of the passes taken together.

use crate::server::components::TaskStatePhase;
use crate::server::systems::lifecycle::maintained;
use crate::protocol::codec::decoded;
use crate::protocol::Error;
use crate::server::systems::network::{
    acknowledged, disconnected, drain_from, drained, flushed, is_session,
    lemma_routed_keeps_streams, routed, with_incoming,
};
use crate::server::systems::pass::{is_least, least, visit, visit_all};
use crate::server::systems::schedule::{after_assignment, Plan};
use crate::server::systems::task::{distributed, finalized, is_delivered};
use crate::server::world::ComponentsView;
use crate::protocol::MessageView;
use vstd::prelude::*;

verus! {

/// Whether the task on entity `id` is under way or done.
pub open spec fn is_running_or_done(entities: Map<u64, ComponentsView>, id: u64) -> bool {
    &&& entities.dom().contains(id)
    &&& entities[id].state is Some
    &&& (entities[id].state->0.phase == TaskStatePhase::Executing || entities[id].state->0.phase
        == TaskStatePhase::Completed)
}

/// No task that is Executing or Completed has a transfer record.
pub open spec fn settled(entities: Map<u64, ComponentsView>) -> bool {
    forall|id: u64| #[trigger] is_running_or_done(entities, id) ==> entities[id].transfer is None
}

/// Whether the task on entity `id` is Executing and has no transfer record.
pub open spec fn is_started(entities: Map<u64, ComponentsView>, id: u64) -> bool {
    &&& entities.dom().contains(id)
    &&& entities[id].state is Some
    &&& entities[id].state->0.phase == TaskStatePhase::Executing
    &&& entities[id].transfer is None
}

/// A finite set of handles that is not empty has a lowest handle.
pub proof fn lemma_has_least(set: Set<u64>)
    requires
        set.finite(),
        !set.is_empty(),
    ensures
        is_least(set, least(set)),
    decreases set.len(),
{
    let a = set.choose();
    let rest = set.remove(a);
    if rest.is_empty() {
        assert forall|y: u64| set.contains(y) implies a <= y by {
            if y != a {
                assert(rest.contains(y));
            }
        }
        assert(is_least(set, a));
    } else {
        lemma_has_least(rest);
        let m = least(rest);
        let low = if a <= m {
            a
        } else {
            m
        };
        assert forall|y: u64| set.contains(y) implies low <= y by {
            if y != a {
                assert(rest.contains(y));
            }
        }
        assert(is_least(set, low));
    }
}

/// What every step of a pass keeps, the pass keeps.
pub proof fn lemma_visit_keeps(
    entities: Map<u64, ComponentsView>,
    remaining: Set<u64>,
    rule: spec_fn(Map<u64, ComponentsView>, u64) -> Map<u64, ComponentsView>,
    kept: spec_fn(Map<u64, ComponentsView>) -> bool,
)
    requires
        remaining.finite(),
        kept(entities),
        forall|e: Map<u64, ComponentsView>, id: u64| kept(e) ==> kept(#[trigger] rule(e, id)),
    ensures
        kept(visit(entities, remaining, rule)),
    decreases remaining.len(),
{
    let id = least(remaining);
    if !(remaining.is_empty() || !remaining.contains(id)) {
        lemma_visit_keeps(rule(entities, id), remaining.remove(id), rule, kept);
    }
}

/// Assigning tasks leaves no task that is Executing or Completed with a
/// transfer record.
pub proof fn lemma_assignment_keeps_settled(entities: Map<u64, ComponentsView>, plan: Plan)
    requires
        settled(entities),
    ensures
        settled(after_assignment(entities, plan)),
{
    let after = after_assignment(entities, plan);
    assert forall|id: u64| #[trigger] is_running_or_done(after, id) implies after[id].transfer
        is None by {
        assert(is_running_or_done(entities, id));
    }
}

/// Handing out chunks leaves no task that is Executing or Completed with a
/// transfer record.
pub proof fn lemma_distributed_keeps_settled(entities: Map<u64, ComponentsView>, id: u64)
    requires
        settled(entities),
    ensures
        settled(distributed(entities, id)),
{
    let after = distributed(entities, id);
    assert forall|x: u64| #[trigger] is_running_or_done(after, x) implies after[x].transfer
        is None by {
        assert(is_running_or_done(entities, x));
    }
}

/// Completing a transfer leaves no task that is Executing or Completed with
/// a transfer record.
pub proof fn lemma_finalized_keeps_settled(entities: Map<u64, ComponentsView>, id: u64, now: u64)
    requires
        settled(entities),
    ensures
        settled(finalized(entities, id, now)),
{
    let after = finalized(entities, id, now);
    assert forall|x: u64| #[trigger] is_running_or_done(after, x) implies after[x].transfer
        is None by {
        if x != id || !is_delivered(entities, id) {
            assert(is_running_or_done(entities, x));
        }
    }
}

/// Looking after a session leaves no task that is Executing or Completed
/// with a transfer record.
pub proof fn lemma_maintained_keeps_settled(
    entities: Map<u64, ComponentsView>,
    id: u64,
    now: u64,
    reconnected: Seq<u64>,
)
    requires
        settled(entities),
    ensures
        settled(maintained(entities, id, now, reconnected)),
{
    let after = maintained(entities, id, now, reconnected);
    assert forall|x: u64| #[trigger] is_running_or_done(after, x) implies after[x].transfer
        is None by {
        assert(is_running_or_done(entities, x));
    }
}

/// Encoding a queue leaves no task that is Executing or Completed with a
/// transfer record.
pub proof fn lemma_flushed_keeps_settled(entities: Map<u64, ComponentsView>, id: u64)
    requires
        settled(entities),
    ensures
        settled(flushed(entities, id)),
{
    let after = flushed(entities, id);
    assert forall|x: u64| #[trigger] is_running_or_done(after, x) implies after[x].transfer
        is None by {
        assert(is_running_or_done(entities, x));
    }
}

/// A message leaves no task that is Executing or Completed with a transfer
/// record.
pub proof fn lemma_routed_keeps_settled(
    entities: Map<u64, ComponentsView>,
    id: u64,
    message: MessageView,
    now: u64,
)
    requires
        settled(entities),
        entities.dom().contains(id),
    ensures
        settled(routed(entities, id, message, now)),
{
    let after = routed(entities, id, message, now);
    assert forall|x: u64| #[trigger] is_running_or_done(after, x) implies after[x].transfer
        is None by {
        match message {
            MessageView::ClientResult { task_id, result } => {
                if x != task_id {
                    assert(is_running_or_done(entities, x));
                } else if after[x].transfer is Some {
                    assert(is_running_or_done(entities, x));
                }
            },
            MessageView::ClientAck { task_id, ack_info } => {
                assert(is_running_or_done(entities, x));
            },
            _ => {
                assert(is_running_or_done(entities, x));
            },
        }
    }
}

/// Giving up on a session leaves no task that is Executing or Completed
/// with a transfer record.
pub proof fn lemma_disconnected_keeps_settled(entities: Map<u64, ComponentsView>, id: u64)
    requires
        settled(entities),
    ensures
        settled(disconnected(entities, id)),
{
    let after = disconnected(entities, id);
    assert forall|x: u64| #[trigger] is_running_or_done(after, x) implies after[x].transfer
        is None by {
        assert(is_running_or_done(entities, x));
    }
}

/// Taking the frames out of a session's buffer leaves no task that is
/// Executing or Completed with a transfer record.
pub proof fn lemma_drain_keeps_settled(
    entities: Map<u64, ComponentsView>,
    id: u64,
    buffer: Seq<u8>,
    now: u64,
    failures: nat,
)
    requires
        settled(entities),
        is_session(entities, id),
    ensures
        settled(drain_from(entities, id, buffer, now, failures)),
    decreases buffer.len(),
{
    match decoded(buffer) {
        Ok((message, consumed)) => {
            if 0 < consumed <= buffer.len() {
                let taken = with_incoming(entities, id, buffer.skip(consumed as int));
                assert forall|x: u64| #[trigger] is_running_or_done(taken, x) implies taken[x].transfer
                    is None by {
                    assert(is_running_or_done(entities, x));
                }
                lemma_routed_keeps_settled(taken, id, message, now);
                lemma_routed_keeps_streams(taken, id, message, now);
                lemma_drain_keeps_settled(
                    routed(taken, id, message, now),
                    id,
                    buffer.skip(consumed as int),
                    now,
                    failures,
                );
            }
        },
        Err(Error::InsufficientData) => {},
        Err(_) => {
            let size = 2 + crate::protocol::wire::be_value(buffer.subrange(0, 2));
            if buffer.len() >= 2 && size <= buffer.len() {
                let dropped = with_incoming(entities, id, buffer.skip(size as int));
                assert forall|x: u64| #[trigger] is_running_or_done(dropped, x) implies dropped[x].transfer
                    is None by {
                    assert(is_running_or_done(entities, x));
                }
                if failures >= 1 {
                    lemma_disconnected_keeps_settled(dropped, id);
                } else {
                    lemma_drain_keeps_settled(
                        dropped,
                        id,
                        buffer.skip(size as int),
                        now,
                        failures + 1,
                    );
                }
            }
        },
    }
}

/// Applying what a session has received leaves no task that is Executing
/// or Completed with a transfer record.
pub proof fn lemma_drained_keeps_settled(entities: Map<u64, ComponentsView>, id: u64, now: u64)
    requires
        settled(entities),
    ensures
        settled(drained(entities, id, now)),
{
    if is_session(entities, id) {
        lemma_drain_keeps_settled(entities, id, entities[id].stream->0.incoming, now, 0);
    }
}

/// Every pass leaves no task that is Executing or Completed with a transfer
/// record.
pub proof fn lemma_passes_keep_settled(
    entities: Map<u64, ComponentsView>,
    plan: Plan,
    now: u64,
    reconnected: Seq<u64>,
)
    requires
        settled(entities),
        entities.dom().finite(),
    ensures
        settled(after_assignment(entities, plan)),
        settled(visit_all(entities, |e: Map<u64, ComponentsView>, id: u64| distributed(e, id))),
        settled(visit_all(entities, |e: Map<u64, ComponentsView>, id: u64| finalized(e, id, now))),
        settled(visit_all(entities, |e: Map<u64, ComponentsView>, id: u64| flushed(e, id))),
        settled(visit_all(entities, |e: Map<u64, ComponentsView>, id: u64| drained(e, id, now))),
        settled(
            visit_all(
                entities,
                |e: Map<u64, ComponentsView>, id: u64| maintained(e, id, now, reconnected),
            ),
        ),
{
    let kept = |e: Map<u64, ComponentsView>| settled(e);
    lemma_assignment_keeps_settled(entities, plan);
    let distribute = |e: Map<u64, ComponentsView>, id: u64| distributed(e, id);
    assert forall|e: Map<u64, ComponentsView>, id: u64| kept(e) implies kept(
        #[trigger] distribute(e, id),
    ) by {
        lemma_distributed_keeps_settled(e, id);
    }
    lemma_visit_keeps(entities, entities.dom(), distribute, kept);
    let finalize = |e: Map<u64, ComponentsView>, id: u64| finalized(e, id, now);
    assert forall|e: Map<u64, ComponentsView>, id: u64| kept(e) implies kept(
        #[trigger] finalize(e, id),
    ) by {
        lemma_finalized_keeps_settled(e, id, now);
    }
    lemma_visit_keeps(entities, entities.dom(), finalize, kept);
    let flush = |e: Map<u64, ComponentsView>, id: u64| flushed(e, id);
    assert forall|e: Map<u64, ComponentsView>, id: u64| kept(e) implies kept(#[trigger] flush(e, id)) by {
        lemma_flushed_keeps_settled(e, id);
    }
    lemma_visit_keeps(entities, entities.dom(), flush, kept);
    let drain = |e: Map<u64, ComponentsView>, id: u64| drained(e, id, now);
    assert forall|e: Map<u64, ComponentsView>, id: u64| kept(e) implies kept(#[trigger] drain(e, id)) by {
        lemma_drained_keeps_settled(e, id, now);
    }
    lemma_visit_keeps(entities, entities.dom(), drain, kept);
    let maintain = |e: Map<u64, ComponentsView>, id: u64| maintained(e, id, now, reconnected);
    assert forall|e: Map<u64, ComponentsView>, id: u64| kept(e) implies kept(
        #[trigger] maintain(e, id),
    ) by {
        lemma_maintained_keeps_settled(e, id, now, reconnected);
    }
    lemma_visit_keeps(entities, entities.dom(), maintain, kept);
}

/// A tick leaves no task that is Executing or Completed with a transfer
/// record.
pub proof fn lemma_tick_keeps_settled(
    entities: Map<u64, ComponentsView>,
    now: u64,
    reconnected: Seq<u64>,
)
    requires
        settled(entities),
        entities.dom().finite(),
    ensures
        settled(crate::server::dispatcher::ticked(entities, now, reconnected)),
{
    let kept = |e: Map<u64, ComponentsView>| settled(e) && e.dom().finite();
    let maintain = |e: Map<u64, ComponentsView>, id: u64| maintained(e, id, now, reconnected);
    assert forall|e: Map<u64, ComponentsView>, id: u64| kept(e) implies kept(
        #[trigger] maintain(e, id),
    ) by {
        lemma_maintained_keeps_settled(e, id, now, reconnected);
    }
    lemma_visit_keeps(entities, entities.dom(), maintain, kept);
    let alive = visit_all(entities, maintain);
    let drain = |e: Map<u64, ComponentsView>, id: u64| drained(e, id, now);
    assert forall|e: Map<u64, ComponentsView>, id: u64| kept(e) implies kept(#[trigger] drain(e, id)) by {
        lemma_drained_keeps_settled(e, id, now);
        lemma_drained_keeps_handles(e, id, now);
    }
    lemma_visit_keeps(alive, alive.dom(), drain, kept);
    let heard = visit_all(alive, drain);
    let assigned = after_assignment(heard, crate::server::systems::schedule::assignment(heard));
    lemma_assignment_keeps_settled(heard, crate::server::systems::schedule::assignment(heard));
    assert(assigned.dom() =~= heard.dom());
    let distribute = |e: Map<u64, ComponentsView>, id: u64| distributed(e, id);
    assert forall|e: Map<u64, ComponentsView>, id: u64| kept(e) implies kept(
        #[trigger] distribute(e, id),
    ) by {
        lemma_distributed_keeps_settled(e, id);
        assert(distributed(e, id).dom() =~= e.dom());
    }
    lemma_visit_keeps(assigned, assigned.dom(), distribute, kept);
    let handed = visit_all(assigned, distribute);
    let finalize = |e: Map<u64, ComponentsView>, id: u64| finalized(e, id, now);
    assert forall|e: Map<u64, ComponentsView>, id: u64| kept(e) implies kept(
        #[trigger] finalize(e, id),
    ) by {
        lemma_finalized_keeps_settled(e, id, now);
        assert(finalized(e, id, now).dom() =~= e.dom());
    }
    lemma_visit_keeps(handed, handed.dom(), finalize, kept);
    let started = visit_all(handed, finalize);
    let flush = |e: Map<u64, ComponentsView>, id: u64| flushed(e, id);
    assert forall|e: Map<u64, ComponentsView>, id: u64| kept(e) implies kept(#[trigger] flush(e, id)) by {
        lemma_flushed_keeps_settled(e, id);
        assert(flushed(e, id).dom() =~= e.dom());
    }
    lemma_visit_keeps(started, started.dom(), flush, kept);
}

/// Taking the frames out of a session's buffer adds and removes no entity.
pub proof fn lemma_drain_keeps_handles(
    entities: Map<u64, ComponentsView>,
    id: u64,
    buffer: Seq<u8>,
    now: u64,
    failures: nat,
)
    requires
        is_session(entities, id),
    ensures
        drain_from(entities, id, buffer, now, failures).dom() == entities.dom(),
    decreases buffer.len(),
{
    match decoded(buffer) {
        Ok((message, consumed)) => {
            if 0 < consumed <= buffer.len() {
                let taken = with_incoming(entities, id, buffer.skip(consumed as int));
                assert(taken.dom() =~= entities.dom());
                lemma_routed_keeps_streams(taken, id, message, now);
                assert(routed(taken, id, message, now).dom() =~= taken.dom());
                lemma_drain_keeps_handles(
                    routed(taken, id, message, now),
                    id,
                    buffer.skip(consumed as int),
                    now,
                    failures,
                );
            }
        },
        Err(Error::InsufficientData) => {},
        Err(_) => {
            let size = 2 + crate::protocol::wire::be_value(buffer.subrange(0, 2));
            if buffer.len() >= 2 && size <= buffer.len() {
                let dropped = with_incoming(entities, id, buffer.skip(size as int));
                assert(dropped.dom() =~= entities.dom());
                if failures >= 1 {
                    assert(disconnected(dropped, id).dom() =~= dropped.dom());
                } else {
                    lemma_drain_keeps_handles(
                        dropped,
                        id,
                        buffer.skip(size as int),
                        now,
                        failures + 1,
                    );
                }
            }
        },
    }
}

/// Applying what a session has received adds and removes no entity.
pub proof fn lemma_drained_keeps_handles(entities: Map<u64, ComponentsView>, id: u64, now: u64)
    ensures
        drained(entities, id, now).dom() == entities.dom(),
{
    if is_session(entities, id) {
        lemma_drain_keeps_handles(entities, id, entities[id].stream->0.incoming, now, 0);
    }
}

/// An acknowledgment leaves a transfer one bit per chunk: the number of its
/// bits stays what it was when the task was assigned.
pub proof fn lemma_acknowledged_keeps_length(
    entities: Map<u64, ComponentsView>,
    task: u64,
    ack: crate::protocol::AckInfoView,
    id: u64,
)
    requires
        entities.dom().contains(id),
        entities[id].transfer is Some,
    ensures
        acknowledged(entities, task, ack).dom().contains(id),
        acknowledged(entities, task, ack)[id].transfer is Some,
        acknowledged(entities, task, ack)[id].transfer->0.acked_chunks.len()
            == entities[id].transfer->0.acked_chunks.len(),
{
}

/// The rest of a completion pass starts the task on entity `id`, where it is
/// still to be visited and its transfer is fully acknowledged, and leaves it
/// started where it is.
proof fn lemma_finalize_reaches(
    entities: Map<u64, ComponentsView>,
    remaining: Set<u64>,
    now: u64,
    id: u64,
)
    requires
        remaining.finite(),
        (remaining.contains(id) && is_delivered(entities, id)) || (!remaining.contains(id)
            && is_started(entities, id)),
    ensures
        is_started(
            visit(entities, remaining, |e: Map<u64, ComponentsView>, x: u64| finalized(e, x, now)),
            id,
        ),
    decreases remaining.len(),
{
    let rule = |e: Map<u64, ComponentsView>, x: u64| finalized(e, x, now);
    if remaining.is_empty() {
    } else {
        lemma_has_least(remaining);
        let x = least(remaining);
        let next = finalized(entities, x, now);
        assert(rule(entities, x) == next);
        lemma_finalize_reaches(next, remaining.remove(x), now, id);
    }
}

/// Within one pass of the distributor every task whose transfer is fully
/// acknowledged is Executing, and its transfer record is gone.
pub proof fn lemma_finalize_starts(entities: Map<u64, ComponentsView>, now: u64, id: u64)
    requires
        entities.dom().finite(),
        is_delivered(entities, id),
    ensures
        is_started(
            visit_all(entities, |e: Map<u64, ComponentsView>, x: u64| finalized(e, x, now)),
            id,
        ),
{
    lemma_finalize_reaches(entities, entities.dom(), now, id);
}

} // verus!
