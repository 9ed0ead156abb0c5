//! A read view of the world for observers: the sessions and the tasks as
//! they are at one moment.

use crate::bits::count_set;
use crate::protocol::{clone_names, clone_types, names_view, Type};
use crate::server::components::{SessionStatus, TaskStatePhase};
use crate::server::world::{handles, world_components, world_entities, ComponentsView};
use vstd::prelude::*;

verus! {

/// A session as an observer sees it.
#[derive(Debug, PartialEq, Eq)]
pub struct SessionSnapshot {
    pub id: u64,
    pub address: String,
    pub ram: u64,
    /// Nanoseconds.
    pub latency: u64,
    pub status: SessionStatus,
    pub modules: Vec<String>,
}

/// How far the delivery of a module is.
#[derive(Clone, Copy, Debug, PartialEq, Eq)]
pub struct Progress {
    pub acked: usize,
    pub total: usize,
}

/// A task as an observer sees it.
#[derive(Debug, PartialEq, Eq)]
pub struct TaskSnapshot {
    pub id: u64,
    /// The name of the module that the task needs; empty where the module
    /// is gone.
    pub module: String,
    pub phase: TaskStatePhase,
    /// There while the module is being delivered.
    pub progress: Option<Progress>,
    /// There once the task is Completed.
    pub result: Option<Vec<Type>>,
}

/// The world as an observer sees it.
#[derive(Debug, PartialEq, Eq)]
pub struct Snapshot {
    /// The sessions, lowest handle first.
    pub sessions: Vec<SessionSnapshot>,
    /// The tasks, lowest handle first.
    pub tasks: Vec<TaskSnapshot>,
}

/// Whether entity `id` is shown as a session.
pub open spec fn shows_session(entities: Map<u64, ComponentsView>, id: u64) -> bool {
    &&& entities.dom().contains(id)
    &&& entities[id].session is Some
    &&& entities[id].health is Some
}

/// Whether entity `id` is shown as a task.
pub open spec fn shows_task(entities: Map<u64, ComponentsView>, id: u64) -> bool {
    &&& entities.dom().contains(id)
    &&& entities[id].task is Some
    &&& entities[id].state is Some
}

/// Whether the snapshot shows the session as the world has it.
pub open spec fn session_shown(entities: Map<u64, ComponentsView>, shot: SessionSnapshot) -> bool {
    &&& shows_session(entities, shot.id)
    &&& shot.address@ == entities[shot.id].session->0.device_addr
    &&& shot.ram == entities[shot.id].session->0.device_ram
    &&& shot.latency == entities[shot.id].session->0.latency
    &&& shot.status == entities[shot.id].health->0.status
    &&& names_view(shot.modules@) == entities[shot.id].session->0.modules
}

/// Whether the snapshot shows the task as the world has it.
pub open spec fn task_shown(entities: Map<u64, ComponentsView>, shot: TaskSnapshot) -> bool {
    let components = entities[shot.id];
    let module = components.task->0.require_module;
    &&& shows_task(entities, shot.id)
    &&& shot.module@ == if entities.dom().contains(module) && entities[module].module is Some {
        entities[module].module->0.name
    } else {
        Seq::empty()
    }
    &&& shot.phase == components.state->0.phase
    &&& match components.transfer {
        Some(transfer) => shot.progress == Some(
            Progress {
                acked: count_set(transfer.acked_chunks) as usize,
                total: transfer.acked_chunks.len() as usize,
            },
        ),
        None => shot.progress is None,
    }
    &&& if components.state->0.phase == TaskStatePhase::Completed {
        shot.result is Some && shot.result->0@ == components.task->0.result
    } else {
        shot.result is None
    }
}

/// The name of a phase.
pub fn phase_name(phase: TaskStatePhase) -> (name: &'static str)
    ensures
        name@ == match phase {
            TaskStatePhase::Queued => "Queued"@,
            TaskStatePhase::Distributing => "Distributing"@,
            TaskStatePhase::Executing => "Executing"@,
            TaskStatePhase::Completed => "Completed"@,
            TaskStatePhase::Failed => "Failed"@,
        },
{
    match phase {
        TaskStatePhase::Queued => "Queued",
        TaskStatePhase::Distributing => "Distributing",
        TaskStatePhase::Executing => "Executing",
        TaskStatePhase::Completed => "Completed",
        TaskStatePhase::Failed => "Failed",
    }
}

/// The values that a list of optional values holds, in order, and for each
/// the place it came from.
fn compact<T>(values: Vec<Option<T>>) -> (out: (Vec<T>, Ghost<Seq<int>>))
    ensures
        out.1@.len() == out.0@.len(),
        forall|k: int|
            0 <= k < out.0@.len() ==> 0 <= #[trigger] out.1@[k] < values@.len() && values@[out.1@[k]]
                == Some(out.0@[k]),
        forall|a: int, b: int| 0 <= a < b < out.1@.len() ==> out.1@[a] < out.1@[b],
        forall|j: int|
            0 <= j < values@.len() && (#[trigger] values@[j]) is Some ==> out.1@.contains(j),
{
    let mut values = values;
    let ghost all = values@;
    let mut kept: Vec<T> = Vec::new();
    let ghost mut places: Seq<int> = Seq::empty();
    let mut i: usize = 0;
    while i < values.len()
        invariant
            i <= values.len(),
            values@.len() == all.len(),
            forall|j: int| i <= j < all.len() ==> values@[j] == all[j],
            places.len() == kept@.len(),
            forall|k: int|
                0 <= k < kept@.len() ==> 0 <= #[trigger] places[k] < i && all[places[k]] == Some(
                    kept@[k],
                ),
            forall|a: int, b: int| 0 <= a < b < places.len() ==> places[a] < places[b],
            forall|j: int| 0 <= j < i && (#[trigger] all[j]) is Some ==> places.contains(j),
        decreases values.len() - i,
    {
        let ghost before = places;
        let ghost held = kept@;
        match values[i].take() {
            Some(value) => {
                kept.push(value);
                proof {
                    places = places.push(i as int);
                    assert forall|j: int| 0 <= j < i + 1 && (#[trigger] all[j]) is Some implies places.contains(
                        j,
                    ) by {
                        if j < i {
                            let k = choose|k: int| 0 <= k < before.len() && before[k] == j;
                            assert(places[k] == j);
                        } else {
                            assert(places[before.len() as int] == j);
                        }
                    }
                    assert forall|k: int| 0 <= k < kept@.len() implies 0 <= #[trigger] places[k] < i
                        + 1 && all[places[k]] == Some(kept@[k]) by {
                        if k < held.len() {
                            assert(places[k] == before[k]);
                            assert(kept@[k] == held[k]);
                        }
                    }
                }
            },
            None => {},
        }
        i += 1;
    }
    (kept, Ghost(places))
}

/// Entity `id` as a session, if it is shown as one.
pub fn session_snapshot(world: &mut hecs::World, id: u64) -> (shot: Option<SessionSnapshot>)
    ensures
        world_entities(*final(world)) == world_entities(*old(world)),
        shot is Some == shows_session(world_entities(*old(world)), id),
        shot is Some ==> shot->0.id == id && session_shown(world_entities(*old(world)), shot->0),
{
    let ghost before = world_entities(*world);
    let mut shot: Option<SessionSnapshot> = None;
    match world_components(world, id) {
        Some(c) => match &c.session {
            Some(session) => match &c.health {
                Some(health) => {
                    shot = Some(
                        SessionSnapshot {
                            id,
                            address: session.device_addr.clone(),
                            ram: session.device_ram,
                            latency: session.latency,
                            status: health.status,
                            modules: clone_names(&session.modules),
                        },
                    );
                },
                None => {},
            },
            None => {},
        },
        None => {},
    }
    assert(world_entities(*world) =~= before);
    shot
}

/// Entity `id` as a task, if it is shown as one.
pub fn task_snapshot(world: &mut hecs::World, id: u64) -> (shot: Option<TaskSnapshot>)
    ensures
        world_entities(*final(world)) == world_entities(*old(world)),
        shot is Some == shows_task(world_entities(*old(world)), id),
        shot is Some ==> shot->0.id == id && task_shown(world_entities(*old(world)), shot->0),
{
    let ghost before = world_entities(*world);
    let mut shot: Option<TaskSnapshot> = None;
    let mut module_entity: u64 = 0;
    match world_components(world, id) {
        Some(c) => match &c.task {
            Some(task) => match &c.state {
                Some(state) => {
                    module_entity = task.require_module;
                    let progress = match &c.transfer {
                        Some(transfer) => Some(
                            Progress {
                                acked: transfer.acked_chunks.count_ones(),
                                total: transfer.acked_chunks.len(),
                            },
                        ),
                        None => None,
                    };
                    let result = if state.phase == TaskStatePhase::Completed {
                        Some(clone_types(&task.result))
                    } else {
                        None
                    };
                    shot = Some(
                        TaskSnapshot {
                            id,
                            module: String::new(),
                            phase: state.phase,
                            progress,
                            result,
                        },
                    );
                },
                None => {},
            },
            None => {},
        },
        None => {},
    }
    assert(world_entities(*world) =~= before);
    let mut shot = match shot {
        Some(shot) => shot,
        None => {
            return None;
        },
    };
    match world_components(world, module_entity) {
        Some(c) => match &c.module {
            Some(module) => {
                shot.module = module.name.clone();
            },
            None => {},
        },
        None => {},
    }
    assert(world_entities(*world) =~= before);
    Some(shot)
}

/// The sessions and the tasks of the world, each kind by ascending handle.
/// Every session and every task is shown, once, as the world has it.
pub fn snapshot(world: &mut hecs::World) -> (shot: Snapshot)
    ensures
        world_entities(*final(world)) == world_entities(*old(world)),
        forall|k: int|
            0 <= k < shot.sessions@.len() ==> session_shown(
                world_entities(*old(world)),
                #[trigger] shot.sessions@[k],
            ),
        forall|id: u64|
            shows_session(world_entities(*old(world)), id) ==> exists|k: int|
                0 <= k < shot.sessions@.len() && (#[trigger] shot.sessions@[k]).id == id,
        forall|a: int, b: int|
            0 <= a < b < shot.sessions@.len() ==> (#[trigger] shot.sessions@[a]).id < (
            #[trigger] shot.sessions@[b]).id,
        forall|k: int|
            0 <= k < shot.tasks@.len() ==> task_shown(
                world_entities(*old(world)),
                #[trigger] shot.tasks@[k],
            ),
        forall|id: u64|
            shows_task(world_entities(*old(world)), id) ==> exists|k: int|
                0 <= k < shot.tasks@.len() && (#[trigger] shot.tasks@[k]).id == id,
        forall|a: int, b: int|
            0 <= a < b < shot.tasks@.len() ==> (#[trigger] shot.tasks@[a]).id < (
            #[trigger] shot.tasks@[b]).id,
{
    let ghost before = world_entities(*world);
    let ids = handles(world);
    let mut sessions: Vec<Option<SessionSnapshot>> = Vec::new();
    let mut tasks: Vec<Option<TaskSnapshot>> = Vec::new();
    let mut i: usize = 0;
    while i < ids.len()
        invariant
            i <= ids.len(),
            world_entities(*world) == before,
            sessions@.len() == i,
            tasks@.len() == i,
            forall|j: int|
                0 <= j < i ==> (#[trigger] sessions@[j]) is Some == shows_session(before, ids@[j]),
            forall|j: int|
                0 <= j < i && (#[trigger] sessions@[j]) is Some ==> sessions@[j]->0.id == ids@[j]
                    && session_shown(before, sessions@[j]->0),
            forall|j: int| 0 <= j < i ==> (#[trigger] tasks@[j]) is Some == shows_task(before, ids@[j]),
            forall|j: int|
                0 <= j < i && (#[trigger] tasks@[j]) is Some ==> tasks@[j]->0.id == ids@[j]
                    && task_shown(before, tasks@[j]->0),
        decreases ids.len() - i,
    {
        let session = session_snapshot(world, ids[i]);
        let task = task_snapshot(world, ids[i]);
        sessions.push(session);
        tasks.push(task);
        i += 1;
    }
    let ghost all_sessions = sessions@;
    let ghost all_tasks = tasks@;
    let (sessions, Ghost(session_places)) = compact(sessions);
    let (tasks, Ghost(task_places)) = compact(tasks);
    proof {
        assert forall|k: int| 0 <= k < sessions@.len() implies session_shown(
            before,
            #[trigger] sessions@[k],
        ) by {
            assert(all_sessions[session_places[k]] is Some);
        }
        assert forall|id: u64| shows_session(before, id) implies exists|k: int|
            0 <= k < sessions@.len() && (#[trigger] sessions@[k]).id == id by {
            assert(ids@.to_set().contains(id));
            let j = choose|j: int| 0 <= j < ids@.len() && ids@[j] == id;
            assert(all_sessions[j] is Some);
            let k = choose|k: int| 0 <= k < session_places.len() && session_places[k] == j;
            assert(sessions@[k].id == id);
        }
        assert forall|a: int, b: int| 0 <= a < b < sessions@.len() implies (
        #[trigger] sessions@[a]).id < (#[trigger] sessions@[b]).id by {
            assert(all_sessions[session_places[a]] is Some);
            assert(all_sessions[session_places[b]] is Some);
            assert(ids@[session_places[a]] < ids@[session_places[b]]);
        }
        assert forall|k: int| 0 <= k < tasks@.len() implies task_shown(before, #[trigger] tasks@[k]) by {
            assert(all_tasks[task_places[k]] is Some);
        }
        assert forall|id: u64| shows_task(before, id) implies exists|k: int|
            0 <= k < tasks@.len() && (#[trigger] tasks@[k]).id == id by {
            assert(ids@.to_set().contains(id));
            let j = choose|j: int| 0 <= j < ids@.len() && ids@[j] == id;
            assert(all_tasks[j] is Some);
            let k = choose|k: int| 0 <= k < task_places.len() && task_places[k] == j;
            assert(tasks@[k].id == id);
        }
        assert forall|a: int, b: int| 0 <= a < b < tasks@.len() implies (#[trigger] tasks@[a]).id < (
        #[trigger] tasks@[b]).id by {
            assert(all_tasks[task_places[a]] is Some);
            assert(all_tasks[task_places[b]] is Some);
            assert(ids@[task_places[a]] < ids@[task_places[b]]);
        }
    }
    Snapshot { sessions, tasks }
}

} // verus!
