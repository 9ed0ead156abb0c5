//! The life of a session: accepted, alive as long as it is heard of, a
//! zombie for a while after it fell silent, and then gone.
//!
//! Times are nanoseconds on the dispatcher's clock.

use crate::buffer::buffer_with_capacity;
use crate::protocol::{messages_view, names_view};
use crate::server::components::{
    Session, SessionHealth, SessionStatus, SessionStream, SessionStreamView, SessionView,
};
use crate::server::systems::pass::{lemma_visit_done, lemma_visit_step, take_least, visit, visit_all};
use crate::server::world::{
    nothing, world_components, world_despawn, world_entities, world_handles, world_spawn, Components,
    ComponentsView,
};
use std::collections::VecDeque;
use vstd::prelude::*;

verus! {

/// Keeps the sessions alive or lets them go.
pub struct LifecycleSystem;

/// How long a session may stay silent before it counts as a zombie.
pub const HEARTBEAT_TIMEOUT: u64 = 32_000_000_000;

/// The number of passes after which a zombie is removed.
pub const MAX_RETRIES: u8 = 5;

/// A session as it is when its connection was accepted.
pub open spec fn accepted(address: Seq<char>, now: u64) -> ComponentsView {
    ComponentsView {
        session: Some(
            SessionView {
                device_addr: address,
                device_ram: 0,
                message_queue: Seq::empty(),
                latency: 0,
                modules: Seq::empty(),
            },
        ),
        stream: Some(SessionStreamView { incoming: Seq::empty(), outgoing: Seq::empty() }),
        health: Some(
            SessionHealth { retries: 0, status: SessionStatus::Connected, last_heartbeat: now },
        ),
        ..nothing()
    }
}

/// The time since the session was last heard of, or nothing where that lies
/// ahead of `now`.
pub open spec fn silence(health: SessionHealth, now: u64) -> u64 {
    if now >= health.last_heartbeat {
        (now - health.last_heartbeat) as u64
    } else {
        0
    }
}

/// The world after the liveness of entity `id` was looked after at `now`.
/// A Connected session that was silent for longer than the timeout becomes
/// a Zombie with no retries. A Zombie gets one more retry and is removed
/// when it has five. A Disconnected session whose channel was opened again
/// is Connected and counts as heard of. Nothing else changes.
pub open spec fn maintained(
    entities: Map<u64, ComponentsView>,
    id: u64,
    now: u64,
    reconnected: Seq<u64>,
) -> Map<u64, ComponentsView> {
    if !(entities.dom().contains(id) && entities[id].health is Some) {
        entities
    } else {
        let health = entities[id].health->0;
        match health.status {
            SessionStatus::Connected => if silence(health, now) > HEARTBEAT_TIMEOUT {
                entities.insert(
                    id,
                    ComponentsView {
                        health: Some(
                            SessionHealth { status: SessionStatus::Zombie, retries: 0, ..health },
                        ),
                        ..entities[id]
                    },
                )
            } else {
                entities
            },
            SessionStatus::Zombie => if health.retries + 1 >= MAX_RETRIES {
                entities.remove(id)
            } else {
                entities.insert(
                    id,
                    ComponentsView {
                        health: Some(SessionHealth { retries: (health.retries + 1) as u8, ..health }),
                        ..entities[id]
                    },
                )
            },
            SessionStatus::Disconnected => if reconnected.contains(id) {
                entities.insert(
                    id,
                    ComponentsView {
                        health: Some(
                            SessionHealth {
                                status: SessionStatus::Connected,
                                last_heartbeat: now,
                                ..health
                            },
                        ),
                        ..entities[id]
                    },
                )
            } else {
                entities
            },
            SessionStatus::Occupied => entities,
        }
    }
}

/// Whether entity `id` is a session that lost its channel.
pub open spec fn is_disconnected(entities: Map<u64, ComponentsView>, id: u64) -> bool {
    &&& entities.dom().contains(id)
    &&& entities[id].health is Some
    &&& entities[id].health->0.status == SessionStatus::Disconnected
}

/// Whether a list holds a handle.
fn contains_handle(ids: &Vec<u64>, id: u64) -> (found: bool)
    ensures
        found == ids@.contains(id),
{
    let mut i: usize = 0;
    while i < ids.len()
        invariant
            i <= ids.len(),
            forall|k: int| 0 <= k < i ==> ids@[k] != id,
        decreases ids.len() - i,
    {
        if ids[i] == id {
            return true;
        }
        i += 1;
    }
    false
}

impl LifecycleSystem {
    /// Adds the session of a connection that was accepted at `now` from
    /// `address`. Returns its handle.
    pub fn accept_connection(world: &mut hecs::World, address: String, now: u64) -> (id: u64)
        ensures
            !world_entities(*old(world)).dom().contains(id),
            world_entities(*final(world)) == world_entities(*old(world)).insert(
                id,
                accepted(address@, now),
            ),
    {
        let mut components = Components::empty();
        let queue = VecDeque::new();
        let modules: Vec<String> = Vec::new();
        assert(messages_view(queue@) =~= Seq::empty());
        assert(names_view(modules@) =~= Seq::empty());
        components.session = Some(
            Session { device_addr: address, device_ram: 0, message_queue: queue, latency: 0, modules },
        );
        components.stream = Some(
            SessionStream {
                incoming: buffer_with_capacity(0),
                outgoing: buffer_with_capacity(0),
            },
        );
        components.health = Some(
            SessionHealth { retries: 0, status: SessionStatus::Connected, last_heartbeat: now },
        );
        world_spawn(world, components)
    }

    /// The sessions that lost their channel, lowest handle first, each with
    /// its address: those that the caller may try to reach again.
    pub fn lost(world: &mut hecs::World) -> (sessions: Vec<(u64, String)>)
        ensures
            world_entities(*final(world)) == world_entities(*old(world)),
            forall|k: int|
                0 <= k < sessions@.len() ==> is_disconnected(
                    world_entities(*old(world)),
                    (#[trigger] sessions@[k]).0,
                ),
            forall|id: u64|
                is_disconnected(world_entities(*old(world)), id) ==> exists|k: int|
                    0 <= k < sessions@.len() && (#[trigger] sessions@[k]).0 == id,
            forall|k: int|
                0 <= k < sessions@.len() ==> (#[trigger] sessions@[k]).1@ == match world_entities(
                    *old(world),
                )[sessions@[k].0].session {
                    Some(session) => session.device_addr,
                    None => Seq::empty(),
                },
            forall|i: int, j: int|
                0 <= i < j < sessions@.len() ==> (#[trigger] sessions@[i]).0 < (
                #[trigger] sessions@[j]).0,
    {
        let ghost before = world_entities(*world);
        let ids = crate::server::world::handles(world);
        let mut sessions: Vec<(u64, String)> = Vec::new();
        let mut i: usize = 0;
        while i < ids.len()
            invariant
                i <= ids.len(),
                world_entities(*world) == before,
                ids@.to_set() == before.dom(),
                forall|a: int, b: int| 0 <= a < b < ids@.len() ==> ids@[a] < ids@[b],
                forall|k: int|
                    0 <= k < sessions@.len() ==> is_disconnected(
                        before,
                        (#[trigger] sessions@[k]).0,
                    ),
                forall|k: int|
                    0 <= k < sessions@.len() ==> exists|j: int|
                        0 <= j < i && ids@[j] == (#[trigger] sessions@[k]).0,
                forall|j: int|
                    0 <= j < i && is_disconnected(before, #[trigger] ids@[j]) ==> exists|k: int|
                        0 <= k < sessions@.len() && (#[trigger] sessions@[k]).0 == ids@[j],
                forall|k: int|
                    0 <= k < sessions@.len() ==> (#[trigger] sessions@[k]).1@ == match before[sessions@[k].0].session {
                        Some(session) => session.device_addr,
                        None => Seq::empty(),
                    },
                forall|a: int, b: int|
                    0 <= a < b < sessions@.len() ==> (#[trigger] sessions@[a]).0 < (
                    #[trigger] sessions@[b]).0,
            decreases ids.len() - i,
        {
            let id = ids[i];
            let ghost listed = sessions@;
            let mut address: Option<String> = None;
            match world_components(world, id) {
                Some(c) => match &c.health {
                    Some(health) => {
                        if health.status == SessionStatus::Disconnected {
                            address = Some(
                                match &c.session {
                                    Some(session) => session.device_addr.clone(),
                                    None => String::new(),
                                },
                            );
                        }
                    },
                    None => {},
                },
                None => {},
            }
            assert(world_entities(*world) =~= before);
            match address {
                Some(address) => {
                    sessions.push((id, address));
                    proof {
                        assert forall|a: int, b: int| 0 <= a < b < sessions@.len() implies (
                        #[trigger] sessions@[a]).0 < (#[trigger] sessions@[b]).0 by {
                            if b == listed.len() {
                                assert(sessions@[a] == listed[a]);
                                let j = choose|j: int| 0 <= j < i && ids@[j] == (#[trigger] listed[a]).0;
                                assert(ids@[j] < ids@[i as int]);
                            } else {
                                assert(sessions@[a] == listed[a] && sessions@[b] == listed[b]);
                            }
                        }
                    }
                },
                None => {},
            }
            proof {
                assert forall|k: int| 0 <= k < sessions@.len() implies exists|j: int|
                    0 <= j < i + 1 && ids@[j] == (#[trigger] sessions@[k]).0 by {
                    if k < listed.len() {
                        assert(sessions@[k] == listed[k]);
                        let j = choose|j: int| 0 <= j < i && ids@[j] == (#[trigger] listed[k]).0;
                        assert(ids@[j] == sessions@[k].0);
                    } else {
                        assert(ids@[i as int] == sessions@[k].0);
                    }
                }
                assert forall|j: int|
                    0 <= j < i + 1 && is_disconnected(before, #[trigger] ids@[j]) implies exists|k: int|
                    0 <= k < sessions@.len() && (#[trigger] sessions@[k]).0 == ids@[j] by {
                    if j < i {
                        let k = choose|k: int|
                            0 <= k < listed.len() && (#[trigger] listed[k]).0 == ids@[j];
                        assert(sessions@[k] == listed[k]);
                    } else {
                        assert(sessions@[listed.len() as int].0 == ids@[j]);
                    }
                }
            }
            i += 1;
        }
        proof {
            assert forall|id: u64| is_disconnected(before, id) implies exists|k: int|
                0 <= k < sessions@.len() && (#[trigger] sessions@[k]).0 == id by {
                assert(ids@.to_set().contains(id));
                let j = choose|j: int| 0 <= j < ids@.len() && ids@[j] == id;
                assert(is_disconnected(before, ids@[j]));
            }
        }
        sessions
    }

    /// Looks after the liveness of entity `id` at `now`; `reconnected` says
    /// whether its channel was opened again.
    pub fn maintain_one(world: &mut hecs::World, id: u64, now: u64, reconnected: &Vec<u64>)
        ensures
            world_entities(*final(world)) == maintained(
                world_entities(*old(world)),
                id,
                now,
                reconnected@,
            ),
    {
        let ghost before = world_entities(*world);
        let mut dead = false;
        match world_components(world, id) {
            Some(c) => match &mut c.health {
                Some(health) => {
                    let silent = if now >= health.last_heartbeat {
                        now - health.last_heartbeat
                    } else {
                        0
                    };
                    match health.status {
                        SessionStatus::Connected => {
                            if silent > HEARTBEAT_TIMEOUT {
                                health.status = SessionStatus::Zombie;
                                health.retries = 0;
                            }
                        },
                        SessionStatus::Zombie => {
                            if health.retries >= MAX_RETRIES - 1 {
                                dead = true;
                            } else {
                                health.retries = health.retries + 1;
                            }
                        },
                        SessionStatus::Disconnected => {
                            if contains_handle(reconnected, id) {
                                health.status = SessionStatus::Connected;
                                health.last_heartbeat = now;
                            }
                        },
                        SessionStatus::Occupied => {},
                    }
                },
                None => {},
            },
            None => {},
        }
        if dead {
            assert(world_entities(*world) =~= before);
            world_despawn(world, id);
        }
        assert(world_entities(*world) =~= maintained(before, id, now, reconnected@));
    }

    /// The lifecycle pass at `now` over every entity, by ascending handle.
    /// `reconnected` holds the sessions whose channel the caller opened
    /// again since the last pass.
    pub fn maintain_connection(world: &mut hecs::World, now: u64, reconnected: &Vec<u64>)
        ensures
            world_entities(*final(world)) == visit_all(
                world_entities(*old(world)),
                |entities: Map<u64, ComponentsView>, id: u64|
                    maintained(entities, id, now, reconnected@),
            ),
    {
        let ghost before = world_entities(*world);
        let ghost rule = |entities: Map<u64, ComponentsView>, id: u64|
            maintained(entities, id, now, reconnected@);
        let mut ids = world_handles(world);
        proof {
            vstd::seq_lib::seq_to_set_is_finite(ids@);
        }
        while ids.len() > 0
            invariant
                ids@.no_duplicates(),
                forall|entities: Map<u64, ComponentsView>, id: u64| #[trigger]
                    rule(entities, id) == maintained(entities, id, now, reconnected@),
                visit(world_entities(*world), ids@.to_set(), rule) == visit_all(before, rule),
            decreases ids.len(),
        {
            let ghost remaining = ids@.to_set();
            let ghost current = world_entities(*world);
            proof {
                vstd::seq_lib::seq_to_set_is_finite(ids@);
            }
            let id = take_least(&mut ids);
            proof {
                lemma_visit_step(current, remaining, rule, id);
            }
            LifecycleSystem::maintain_one(world, id, now, reconnected);
        }
        proof {
            assert(ids@.to_set() =~= Set::<u64>::empty());
            lemma_visit_done(world_entities(*world), rule);
        }
    }
}

} // verus!
