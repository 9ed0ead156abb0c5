//! What the scheduler decides: which queued task goes to which connected
//! device.
//!
//! Tasks are taken largest module first. Each task goes to the fitting device
//! with the most RAM among those that cache its module, or else among all
//! fitting devices; a device takes one task per pass.

use crate::protocol::{MessageView, ModuleInfoView};
use crate::server::components::{
    ModuleTransferState, ModuleTransferView, ModuleView, SessionHealth, SessionStatus, SessionView,
    TaskState, TaskStatePhase,
};
use crate::server::world::ComponentsView;
use vstd::prelude::*;

verus! {

/// Working memory that a device needs beside the module binary, in bytes.
pub const TASK_OVERHEAD: u64 = 2048;

/// The number of chunks of `chunk_size` bytes that hold `size` bytes.
pub open spec fn chunk_count(size: int, chunk_size: int) -> int {
    size / chunk_size + if size % chunk_size == 0 {
        0int
    } else {
        1int
    }
}

/// Whether a module can be described to a device: it has a chunk size, and
/// its size and chunk count fit the descriptor and the acknowledgment bits.
pub open spec fn deliverable(module: ModuleView) -> bool {
    &&& module.chunk_size > 0
    &&& module.binary.len() <= u64::MAX
    &&& chunk_count(module.binary.len() as int, module.chunk_size as int) <= u32::MAX
    &&& chunk_count(module.binary.len() as int, module.chunk_size as int) <= usize::MAX / 8
}

/// Whether entity `id` carries a task that names an existing module.
pub open spec fn has_module(entities: Map<u64, ComponentsView>, id: u64) -> bool {
    &&& entities.dom().contains(id)
    &&& entities[id].task is Some
    &&& entities.dom().contains(entities[id].task->0.require_module)
    &&& entities[entities[id].task->0.require_module].module is Some
}

/// The module that the task on entity `id` needs.
pub open spec fn module_of(entities: Map<u64, ComponentsView>, id: u64) -> ModuleView {
    entities[entities[id].task->0.require_module].module->0
}

/// Whether entity `id` is a task that awaits a device: its phase is Queued, it
/// has no transfer record, and its module exists and can be delivered.
pub open spec fn is_queued(entities: Map<u64, ComponentsView>, id: u64) -> bool {
    &&& has_module(entities, id)
    &&& entities[id].state is Some
    &&& entities[id].state->0.phase == TaskStatePhase::Queued
    &&& entities[id].transfer is None
    &&& deliverable(module_of(entities, id))
}

/// Whether entity `id` is a device that can take a task.
pub open spec fn is_candidate(entities: Map<u64, ComponentsView>, id: u64) -> bool {
    &&& entities.dom().contains(id)
    &&& entities[id].session is Some
    &&& entities[id].health is Some
    &&& entities[id].health->0.status == SessionStatus::Connected
}

/// The tasks that await a device.
pub open spec fn queued_tasks(entities: Map<u64, ComponentsView>) -> Set<u64> {
    Set::new(|id: u64| is_queued(entities, id))
}

/// The devices that can take a task.
pub open spec fn candidates(entities: Map<u64, ComponentsView>) -> Set<u64> {
    Set::new(|id: u64| is_candidate(entities, id))
}

/// The order in which tasks are taken: larger module first, then lower
/// priority byte, then lower module handle, then lower task handle.
pub open spec fn task_precedes(entities: Map<u64, ComponentsView>, a: u64, b: u64) -> bool {
    let size_a = module_of(entities, a).binary.len();
    let size_b = module_of(entities, b).binary.len();
    let prio_a = entities[a].task->0.priority;
    let prio_b = entities[b].task->0.priority;
    let module_a = entities[a].task->0.require_module;
    let module_b = entities[b].task->0.require_module;
    ||| size_a > size_b
    ||| size_a == size_b && prio_a < prio_b
    ||| size_a == size_b && prio_a == prio_b && module_a < module_b
    ||| size_a == size_b && prio_a == prio_b && module_a == module_b && a < b
}

/// Whether `task` is the one of `remaining` that is taken first.
pub open spec fn is_next_task(
    entities: Map<u64, ComponentsView>,
    remaining: Set<u64>,
    task: u64,
) -> bool {
    &&& remaining.contains(task)
    &&& forall|other: u64|
        remaining.contains(other) && other != task ==> task_precedes(entities, task, other)
}

/// The task of `remaining` that is taken first.
pub open spec fn next_task(entities: Map<u64, ComponentsView>, remaining: Set<u64>) -> u64 {
    choose|task: u64| is_next_task(entities, remaining, task)
}

/// Whether the device has room for the task's module and its working memory.
pub open spec fn fits(entities: Map<u64, ComponentsView>, device: u64, task: u64) -> bool {
    entities[device].session->0.device_ram >= module_of(entities, task).binary.len()
        + TASK_OVERHEAD
}

/// Whether the device reports the task's module as cached.
pub open spec fn has_cached(entities: Map<u64, ComponentsView>, device: u64, task: u64) -> bool {
    entities[device].session->0.modules.contains(module_of(entities, task).name)
}

/// The order of preference among devices: more RAM first, then lower handle.
pub open spec fn device_precedes(entities: Map<u64, ComponentsView>, a: u64, b: u64) -> bool {
    let ram_a = entities[a].session->0.device_ram;
    let ram_b = entities[b].session->0.device_ram;
    ram_a > ram_b || (ram_a == ram_b && a < b)
}

/// Whether `device` is the preferred one of `pool` for `task`, among those
/// that fit and, where `cached` is set, cache the module.
pub open spec fn is_best_device(
    entities: Map<u64, ComponentsView>,
    pool: Set<u64>,
    task: u64,
    cached: bool,
    device: u64,
) -> bool {
    &&& pool.contains(device)
    &&& fits(entities, device, task)
    &&& cached ==> has_cached(entities, device, task)
    &&& forall|other: u64|
        pool.contains(other) && other != device && fits(entities, other, task) && (cached
            ==> has_cached(entities, other, task)) ==> device_precedes(entities, device, other)
}

/// The device of `pool` that `task` goes to, if any: the preferred one among
/// those that cache the module, else the preferred one among all that fit.
pub open spec fn chosen_device(
    entities: Map<u64, ComponentsView>,
    pool: Set<u64>,
    task: u64,
) -> Option<u64> {
    if exists|d: u64| is_best_device(entities, pool, task, true, d) {
        Some(choose|d: u64| is_best_device(entities, pool, task, true, d))
    } else if exists|d: u64| is_best_device(entities, pool, task, false, d) {
        Some(choose|d: u64| is_best_device(entities, pool, task, false, d))
    } else {
        None
    }
}

/// Which task goes to which device, readable from either side.
pub struct Plan {
    /// The device of each assigned task.
    pub device_of: Map<u64, u64>,
    /// The task of each device that takes one.
    pub task_of: Map<u64, u64>,
}

impl Plan {
    /// The plan that assigns nothing.
    pub open spec fn empty() -> Plan {
        Plan { device_of: Map::empty(), task_of: Map::empty() }
    }

    /// This plan with `task` bound to `device`.
    pub open spec fn bind(self, task: u64, device: u64) -> Plan {
        Plan {
            device_of: self.device_of.insert(task, device),
            task_of: self.task_of.insert(device, task),
        }
    }
}

/// Runs the scheduler's loop on the tasks of `remaining` and the devices of
/// `pool`, adding to `plan`.
pub open spec fn schedule(
    entities: Map<u64, ComponentsView>,
    remaining: Set<u64>,
    pool: Set<u64>,
    plan: Plan,
) -> Plan
    decreases remaining.len(),
    when remaining.finite()
{
    let task = next_task(entities, remaining);
    if remaining.is_empty() || pool.is_empty() || !remaining.contains(task) {
        plan
    } else {
        match chosen_device(entities, pool, task) {
            Some(device) => schedule(
                entities,
                remaining.remove(task),
                pool.remove(device),
                plan.bind(task, device),
            ),
            None => schedule(entities, remaining.remove(task), pool, plan),
        }
    }
}

/// The assignment of one scheduling pass.
pub open spec fn assignment(entities: Map<u64, ComponentsView>) -> Plan {
    schedule(entities, queued_tasks(entities), candidates(entities), Plan::empty())
}

/// The descriptor of a module as sent to a device.
pub open spec fn descriptor(module: ModuleView) -> ModuleInfoView {
    ModuleInfoView {
        name: module.name,
        size: module.binary.len() as u64,
        chunk_size: module.chunk_size,
        total_chunks: chunk_count(module.binary.len() as int, module.chunk_size as int) as u32,
    }
}

/// The message that advertises `task` to its device.
pub open spec fn advertisement(entities: Map<u64, ComponentsView>, task: u64) -> MessageView {
    MessageView::ServerTask {
        task_id: task,
        module: descriptor(module_of(entities, task)),
        params: entities[task].task->0.params,
    }
}

/// The transfer record attached to a task when it is assigned: nothing
/// acknowledged yet.
pub open spec fn fresh_transfer(module: ModuleView, device: u64) -> ModuleTransferView {
    ModuleTransferView {
        state: ModuleTransferState::Pending,
        acked_chunks: Seq::new(
            chunk_count(module.binary.len() as int, module.chunk_size as int) as nat,
            |i: int| false,
        ),
        retries: 0,
        session: device,
    }
}

/// One entity after the tasks of `plan` were assigned.
pub open spec fn assigned_entity(
    entities: Map<u64, ComponentsView>,
    plan: Plan,
    id: u64,
) -> ComponentsView {
    let before = entities[id];
    ComponentsView {
        state: if plan.device_of.dom().contains(id) {
            Some(
                TaskState {
                    phase: TaskStatePhase::Distributing,
                    assigned_device: Some(plan.device_of[id]),
                    deadline: before.state->0.deadline,
                },
            )
        } else {
            before.state
        },
        transfer: if plan.device_of.dom().contains(id) {
            Some(fresh_transfer(module_of(entities, id), plan.device_of[id]))
        } else {
            before.transfer
        },
        health: if plan.task_of.dom().contains(id) {
            Some(SessionHealth { status: SessionStatus::Occupied, ..before.health->0 })
        } else {
            before.health
        },
        session: if plan.task_of.dom().contains(id) {
            Some(
                SessionView {
                    message_queue: before.session->0.message_queue.push(
                        advertisement(entities, plan.task_of[id]),
                    ),
                    ..before.session->0
                },
            )
        } else {
            before.session
        },
        ..before
    }
}

/// The world after the tasks of `plan` were assigned: each task is
/// Distributing, bound to its device, with a fresh transfer record; each
/// device is Occupied and has the task's advertisement at the end of its
/// queue. Nothing else changes.
pub open spec fn after_assignment(
    entities: Map<u64, ComponentsView>,
    plan: Plan,
) -> Map<u64, ComponentsView> {
    Map::new(|id: u64| entities.dom().contains(id), |id: u64| assigned_entity(entities, plan, id))
}

} // verus!
