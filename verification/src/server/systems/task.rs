//! Scheduling tasks onto devices and streaming their modules.

use crate::bits::{all_set, BitSet};
use crate::protocol::{
    clone_bytes, clone_names, clone_types, contains_name, messages_view, names_view, Message,
    MessageView, ModuleInfo, Type,
};
use crate::server::components::{
    Module, ModuleTransfer, ModuleTransferState, ModuleTransferView, ModuleView, SessionStatus,
    SessionView, TaskState, TaskStatePhase,
};
use crate::server::systems::planner::{
    describes_device, describes_task, device_entities, lemma_plan_of, lists_devices, lists_tasks, plan_assignments, plan_of,
    task_entities, well_assigned, Assignment, DeviceRecord, TaskRecord,
};
use crate::server::systems::schedule::{
    advertisement, after_assignment, assigned_entity, assignment, candidates, chunk_count,
    deliverable, has_module, is_candidate, is_queued, module_of, queued_tasks, Plan,
};
use crate::server::systems::pass::{lemma_visit_done, lemma_visit_step, take_least, visit, visit_all};
use crate::server::world::{world_components, world_entities, world_handles, ComponentsView};
use std::collections::VecDeque;
use vstd::prelude::*;
use vstd::slice::slice_subrange;

verus! {

/// The passes that move tasks along: assignment, chunk distribution and
/// completion of transfers.
pub struct TaskSystem;

/// What a task that may be queued says of itself.
struct QueuedTask {
    module_entity: u64,
    priority: u8,
}

/// What the scheduler needs of one entity itself.
struct Found {
    task: Option<QueuedTask>,
    device: Option<DeviceRecord>,
}

/// The records of one scheduling pass.
struct Records {
    tasks: Vec<TaskRecord>,
    devices: Vec<DeviceRecord>,
}

/// What the scheduler needs of entity `id` itself: the module and priority of
/// a queued task, and the record of a connected device.
fn read_entity(world: &mut hecs::World, id: u64) -> (found: Found)
    ensures
        world_entities(*final(world)) == world_entities(*old(world)),
        ({
            let entities = world_entities(*old(world));
            let queued = entities.dom().contains(id) && entities[id].task is Some
                && entities[id].state is Some && entities[id].state->0.phase
                == TaskStatePhase::Queued && entities[id].transfer is None;
            &&& found.task is Some == queued
            &&& found.task is Some ==> found.task->0.module_entity
                == entities[id].task->0.require_module
            &&& found.task is Some ==> found.task->0.priority == entities[id].task->0.priority
            &&& found.device is Some == is_candidate(entities, id)
            &&& found.device is Some ==> found.device->0.entity == id
            &&& found.device is Some ==> describes_device(entities, found.device->0)
        }),
{
    let ghost entities = world_entities(*world);
    let mut task: Option<QueuedTask> = None;
    let mut device: Option<DeviceRecord> = None;
    match world_components(world, id) {
        Some(c) => {
            match &c.task {
                Some(t) => match &c.state {
                    Some(s) => {
                        if s.phase == TaskStatePhase::Queued && c.transfer.is_none() {
                            task = Some(
                                QueuedTask { module_entity: t.require_module, priority: t.priority },
                            );
                        }
                    },
                    None => {},
                },
                None => {},
            }
            match &c.session {
                Some(s) => match &c.health {
                    Some(h) => {
                        if h.status == SessionStatus::Connected {
                            device = Some(
                                DeviceRecord {
                                    entity: id,
                                    ram: s.device_ram,
                                    modules: clone_names(&s.modules),
                                },
                            );
                        }
                    },
                    None => {},
                },
                None => {},
            }
        },
        None => {},
    }
    assert(world_entities(*world) =~= entities);
    Found { task, device }
}

/// The record of the task on entity `id`, which is Queued and without a
/// transfer record, if its module exists and can be delivered.
fn read_task(world: &mut hecs::World, id: u64, module_entity: u64, priority: u8) -> (record: Option<
    TaskRecord,
>)
    requires
        ({
            let entities = world_entities(*old(world));
            &&& entities.dom().contains(id)
            &&& entities[id].task is Some
            &&& entities[id].state is Some
            &&& entities[id].state->0.phase == TaskStatePhase::Queued
            &&& entities[id].transfer is None
            &&& entities[id].task->0.require_module == module_entity
            &&& entities[id].task->0.priority == priority
        }),
    ensures
        world_entities(*final(world)) == world_entities(*old(world)),
        record is Some == is_queued(world_entities(*old(world)), id),
        record is Some ==> record->0.entity == id,
        record is Some ==> describes_task(
            world_entities(*old(world)),
            record->0,
        ),
{
    let ghost entities = world_entities(*world);
    let mut record: Option<TaskRecord> = None;
    match world_components(world, module_entity) {
        Some(c) => match &c.module {
            Some(m) => {
                if m.chunk_size > 0 {
                    let size = m.binary.len();
                    let chunk = m.chunk_size as usize;
                    let whole = size / chunk;
                    let count: u128 = if size % chunk == 0 {
                        whole as u128
                    } else {
                        whole as u128 + 1
                    };
                    assert(count == chunk_count(size as int, chunk as int));
                    if count <= u32::MAX as u128 && count <= (usize::MAX / 8) as u128 {
                        record = Some(
                            TaskRecord {
                                entity: id,
                                module_entity,
                                size,
                                chunk_size: m.chunk_size,
                                total_chunks: count as u32,
                                priority,
                                module_name: m.name.clone(),
                            },
                        );
                    }
                }
            },
            None => {},
        },
        None => {},
    }
    assert(world_entities(*world) =~= entities);
    record
}

/// The records of the queued tasks and of the connected devices.
fn gather(world: &mut hecs::World) -> (records: Records)
    ensures
        world_entities(*final(world)) == world_entities(*old(world)),
        lists_tasks(
            world_entities(*old(world)),
            records.tasks@,
            queued_tasks(world_entities(*old(world))),
        ),
        lists_devices(
            world_entities(*old(world)),
            records.devices@,
            candidates(world_entities(*old(world))),
        ),
{
    let ghost entities = world_entities(*world);
    let ids = world_handles(world);
    let mut tasks: Vec<TaskRecord> = Vec::new();
    let mut devices: Vec<DeviceRecord> = Vec::new();
    let mut i: usize = 0;
    while i < ids.len()
        invariant
            i <= ids.len(),
            world_entities(*world) == entities,
            ids@.no_duplicates(),
            ids@.to_set() == entities.dom(),
            forall|k: int|
                0 <= k < tasks.len() ==> describes_task(
                    entities,
                    #[trigger] tasks[k],
                ),
            forall|k: int|
                0 <= k < devices.len() ==> describes_device(
                    entities,
                    #[trigger] devices[k],
                ),
            forall|k: int|
                0 <= k < tasks.len() ==> exists|j: int|
                    0 <= j < i && ids[j] == (#[trigger] tasks[k]).entity,
            forall|k: int|
                0 <= k < devices.len() ==> exists|j: int|
                    0 <= j < i && ids[j] == (#[trigger] devices[k]).entity,
            forall|j: int|
                0 <= j < i && is_queued(entities, #[trigger] ids[j]) ==> task_entities(
                    tasks@,
                ).contains(ids[j]),
            forall|j: int|
                0 <= j < i && is_candidate(entities, #[trigger] ids[j]) ==> device_entities(
                    devices@,
                ).contains(ids[j]),
            task_entities(tasks@).no_duplicates(),
            device_entities(devices@).no_duplicates(),
        decreases ids.len() - i,
    {
        let id = ids[i];
        let ghost old_tasks = tasks@;
        let ghost old_devices = devices@;
        let found = read_entity(world, id);
        let queued = found.task;
        match found.device {
            Some(record) => {
                devices.push(record);
                proof {
                    assert(device_entities(devices@) =~= device_entities(old_devices).push(id));
                    assert forall|a: int, b: int|
                        0 <= a < devices.len() && 0 <= b < devices.len() && a != b implies device_entities(
                        devices@,
                    )[a] != device_entities(devices@)[b] by {
                        if a == old_devices.len() {
                            let j = choose|j: int| 0 <= j < i && ids[j] == (#[trigger] old_devices[b]).entity;
                        } else if b == old_devices.len() {
                            let j = choose|j: int| 0 <= j < i && ids[j] == (#[trigger] old_devices[a]).entity;
                        } else {
                            assert(device_entities(old_devices)[a] != device_entities(
                                old_devices,
                            )[b]);
                        }
                    }
                    assert(device_entities(devices@)[old_devices.len() as int] == id);
                }
            },
            None => {},
        }
        proof {
            assert forall|j: int|
                0 <= j < i + 1 && is_candidate(entities, #[trigger] ids[j]) implies device_entities(
                devices@,
            ).contains(ids[j]) by {
                if j < i {
                    assert(device_entities(old_devices).contains(ids[j]));
                    let k = choose|k: int|
                        0 <= k < old_devices.len() && device_entities(old_devices)[k] == ids[j];
                    assert(device_entities(devices@)[k] == ids[j]);
                }
            }
            assert forall|k: int| 0 <= k < devices.len() implies exists|j: int|
                0 <= j < i + 1 && ids[j] == (#[trigger] devices[k]).entity by {
                if k < old_devices.len() {
                    let j = choose|j: int| 0 <= j < i && ids[j] == (#[trigger] old_devices[k]).entity;
                    assert(ids[j] == devices[k].entity);
                } else {
                    assert(ids[i as int] == devices[k].entity);
                }
            }
        }
        let record = match queued {
            Some(q) => read_task(world, id, q.module_entity, q.priority),
            None => None,
        };
        match record {
            Some(record) => {
                tasks.push(record);
                proof {
                    assert(task_entities(tasks@) =~= task_entities(old_tasks).push(id));
                    assert forall|a: int, b: int|
                        0 <= a < tasks.len() && 0 <= b < tasks.len() && a != b implies task_entities(
                        tasks@,
                    )[a] != task_entities(tasks@)[b] by {
                        if a == old_tasks.len() {
                            let j = choose|j: int| 0 <= j < i && ids[j] == (#[trigger] old_tasks[b]).entity;
                        } else if b == old_tasks.len() {
                            let j = choose|j: int| 0 <= j < i && ids[j] == (#[trigger] old_tasks[a]).entity;
                        } else {
                            assert(task_entities(old_tasks)[a] != task_entities(old_tasks)[b]);
                        }
                    }
                    assert(task_entities(tasks@)[old_tasks.len() as int] == id);
                }
            },
            None => {},
        }
        proof {
            assert forall|j: int|
                0 <= j < i + 1 && is_queued(entities, #[trigger] ids[j]) implies task_entities(
                tasks@,
            ).contains(ids[j]) by {
                if j < i {
                    assert(task_entities(old_tasks).contains(ids[j]));
                    let k = choose|k: int|
                        0 <= k < old_tasks.len() && task_entities(old_tasks)[k] == ids[j];
                    assert(task_entities(tasks@)[k] == ids[j]);
                }
            }
            assert forall|k: int| 0 <= k < tasks.len() implies exists|j: int|
                0 <= j < i + 1 && ids[j] == (#[trigger] tasks[k]).entity by {
                if k < old_tasks.len() {
                    let j = choose|j: int| 0 <= j < i && ids[j] == (#[trigger] old_tasks[k]).entity;
                    assert(ids[j] == tasks[k].entity);
                } else {
                    assert(ids[i as int] == tasks[k].entity);
                }
            }
        }
        i += 1;
    }
    proof {
        assert forall|x: u64| task_entities(tasks@).to_set().contains(x) == queued_tasks(
            entities,
        ).contains(x) by {
            if task_entities(tasks@).contains(x) {
                let k = choose|k: int|
                    0 <= k < tasks.len() && task_entities(tasks@)[k] == x;
                assert(describes_task(entities, tasks[k]));
            }
            if is_queued(entities, x) {
                assert(ids@.to_set().contains(x));
                let j = choose|j: int| 0 <= j < ids.len() && ids[j] == x;
                assert(is_queued(entities, ids[j]));
            }
        }
        assert(task_entities(tasks@).to_set() =~= queued_tasks(entities));
        assert forall|x: u64| device_entities(devices@).to_set().contains(x) == candidates(
            entities,
        ).contains(x) by {
            if device_entities(devices@).contains(x) {
                let k = choose|k: int|
                    0 <= k < devices.len() && device_entities(devices@)[k] == x;
                assert(describes_device(entities, devices[k]));
            }
            if is_candidate(entities, x) {
                assert(ids@.to_set().contains(x));
                let j = choose|j: int| 0 <= j < ids.len() && ids[j] == x;
                assert(is_candidate(entities, ids[j]));
            }
        }
        assert(device_entities(devices@).to_set() =~= candidates(entities));
    }
    Records { tasks, devices }
}

/// Binds one queued task to one connected device.
fn bind(
    world: &mut hecs::World,
    bound: &Assignment,
    Ghost(before): Ghost<Map<u64, ComponentsView>>,
    Ghost(plan): Ghost<Plan>,
)
    requires
        world_entities(*old(world)) == after_assignment(before, plan),
        describes_task(before, bound.task),
        is_candidate(before, bound.device),
        !plan.device_of.dom().contains(bound.task.entity),
        !plan.task_of.dom().contains(bound.device),
    ensures
        world_entities(*final(world)) == after_assignment(
            before,
            plan.bind(bound.task.entity, bound.device),
        ),
{
    let ghost now = world_entities(*world);
    let ghost next = plan.bind(bound.task.entity, bound.device);
    let task_id = bound.task.entity;
    let device_id = bound.device;
    let mut params: Vec<Type> = Vec::new();
    match world_components(world, task_id) {
        Some(c) => {
            match &c.task {
                Some(t) => {
                    params = clone_types(&t.params);
                },
                None => {},
            }
            let deadline = match &c.state {
                Some(s) => s.deadline,
                None => None,
            };
            c.state = Some(
                TaskState {
                    phase: TaskStatePhase::Distributing,
                    assigned_device: Some(device_id),
                    deadline,
                },
            );
            let acked = BitSet::zeroed(bound.task.total_chunks as usize);
            c.transfer = Some(
                ModuleTransfer {
                    state: ModuleTransferState::Pending,
                    acked_chunks: acked.unwrap(),
                    retries: 0,
                    session: device_id,
                },
            );
        },
        None => {},
    }
    let message = Message::ServerTask {
        task_id,
        module: ModuleInfo {
            name: bound.task.module_name.clone(),
            size: bound.task.size as u64,
            chunk_size: bound.task.chunk_size,
            total_chunks: bound.task.total_chunks,
        },
        params,
    };
    assert(message@ == advertisement(before, task_id));
    match world_components(world, device_id) {
        Some(c) => {
            match &mut c.health {
                Some(h) => {
                    h.status = SessionStatus::Occupied;
                },
                None => {},
            }
            match &mut c.session {
                Some(s) => {
                    let ghost queue = s.message_queue@;
                    s.message_queue.push_back(message);
                    assert(messages_view(s.message_queue@) =~= messages_view(queue).push(message@));
                },
                None => {},
            }
        },
        None => {},
    }
    proof {
        let after = world_entities(*world);
        assert forall|id: u64| after.dom().contains(id) implies #[trigger] after[id]
            == assigned_entity(before, next, id) by {
            assert(now[id] == assigned_entity(before, plan, id));
        }
        assert(after =~= after_assignment(before, next));
    }
}

impl TaskSystem {
    /// One scheduling pass. Every queued task without a transfer record whose
    /// module exists is taken, larger module first; it goes to the connected
    /// device with the most RAM among those that have room for the module and
    /// cache it, or else among all that have room. A device takes one task.
    /// The task becomes Distributing, bound to the device, with a fresh
    /// transfer record; the device becomes Occupied and gets the task's
    /// advertisement queued. Nothing else changes.
    pub fn assign_tasks(world: &mut hecs::World)
        ensures
            world_entities(*final(world)) == after_assignment(
                world_entities(*old(world)),
                assignment(world_entities(*old(world))),
            ),
    {
        let ghost before = world_entities(*world);
        let records = gather(world);
        let assignments = plan_assignments(records.tasks, records.devices, Ghost(before));
        proof {
            assert(world_entities(*world) =~= after_assignment(before, plan_of(assignments@.take(0))));
        }
        let mut i: usize = 0;
        while i < assignments.len()
            invariant
                i <= assignments.len(),
                well_assigned(before, assignments@),
                world_entities(*world) == after_assignment(before, plan_of(assignments@.take(i as int))),
            decreases assignments.len() - i,
        {
            let ghost done = assignments@.take(i as int);
            proof {
                lemma_plan_of(done);
                assert(assignments@.take(i + 1).drop_last() =~= done);
                assert forall|k: int| 0 <= k < done.len() implies (#[trigger] done[k]).task.entity
                    != assignments[i as int].task.entity && done[k].device
                    != assignments[i as int].device by {
                    assert(done[k] == assignments[k]);
                }
            }
            bind(world, &assignments[i], Ghost(before), Ghost(plan_of(done)));
            i += 1;
        }
        assert(assignments@.take(assignments.len() as int) =~= assignments@);
    }
}

/// How long a task may execute before it is overdue, in nanoseconds.
pub const EXECUTION_TIMEOUT: u64 = 60_000_000_000;

/// The bytes of chunk `index` of a binary cut into chunks of `chunk_size`
/// bytes; the last chunk may be shorter.
pub open spec fn chunk_of(binary: Seq<u8>, chunk_size: int, index: int) -> Seq<u8> {
    binary.subrange(
        index * chunk_size,
        if (index + 1) * chunk_size <= binary.len() {
            (index + 1) * chunk_size
        } else {
            binary.len() as int
        },
    )
}

/// The chunk messages for task `task`, one for each of the first `upto`
/// chunks that is not acknowledged, by ascending index.
pub open spec fn pending_chunks(
    task: u64,
    module: ModuleView,
    acked: Seq<bool>,
    upto: nat,
) -> Seq<MessageView>
    decreases upto,
{
    if upto == 0 {
        Seq::empty()
    } else {
        let index = upto - 1;
        let earlier = pending_chunks(task, module, acked, index as nat);
        if index < acked.len() && acked[index] {
            earlier
        } else {
            earlier.push(
                MessageView::ServerModule {
                    task_id: task,
                    chunk_index: index as u32,
                    chunk_data: chunk_of(module.binary, module.chunk_size as int, index),
                },
            )
        }
    }
}

/// Whether entity `id` is a task whose device asked for the module: its
/// transfer record is Requested and its module exists.
pub open spec fn awaits_chunks(entities: Map<u64, ComponentsView>, id: u64) -> bool {
    &&& has_module(entities, id)
    &&& deliverable(module_of(entities, id))
    &&& entities[id].transfer is Some
    &&& entities[id].transfer->0.state == ModuleTransferState::Requested
}

/// The world after the chunks of task `id` were handed to its device: the
/// transfer is Transferring, and the device's queue ends with one message for
/// each chunk that is not acknowledged. A task that does not await chunks
/// changes nothing; a device that is gone gets nothing.
pub open spec fn distributed(entities: Map<u64, ComponentsView>, id: u64) -> Map<
    u64,
    ComponentsView,
> {
    if !awaits_chunks(entities, id) {
        entities
    } else {
        let transfer = entities[id].transfer->0;
        let module = module_of(entities, id);
        let marked = entities.insert(
            id,
            ComponentsView {
                transfer: Some(
                    ModuleTransferView { state: ModuleTransferState::Transferring, ..transfer },
                ),
                ..entities[id]
            },
        );
        let device = transfer.session;
        if marked.dom().contains(device) && marked[device].session is Some {
            let session = marked[device].session->0;
            let chunks = pending_chunks(
                id,
                module,
                transfer.acked_chunks,
                chunk_count(module.binary.len() as int, module.chunk_size as int) as nat,
            );
            marked.insert(
                device,
                ComponentsView {
                    session: Some(
                        SessionView { message_queue: session.message_queue + chunks, ..session },
                    ),
                    ..marked[device]
                },
            )
        } else {
            marked
        }
    }
}

/// Whether entity `id` is a task whose module arrived: every chunk of its
/// transfer record is acknowledged.
pub open spec fn is_delivered(entities: Map<u64, ComponentsView>, id: u64) -> bool {
    &&& entities.dom().contains(id)
    &&& entities[id].state is Some
    &&& entities[id].transfer is Some
    &&& all_set(entities[id].transfer->0.acked_chunks)
}

/// The time by which a task that starts at `now` is due.
pub open spec fn deadline_after(now: u64) -> u64 {
    if now + EXECUTION_TIMEOUT <= u64::MAX {
        (now + EXECUTION_TIMEOUT) as u64
    } else {
        u64::MAX
    }
}

/// The world after the transfer of task `id` was completed at time `now`:
/// the task is Executing with a deadline, its transfer record is gone, and
/// its device lists the module as cached. A task whose module has not
/// arrived changes nothing.
pub open spec fn finalized(entities: Map<u64, ComponentsView>, id: u64, now: u64) -> Map<
    u64,
    ComponentsView,
> {
    if !is_delivered(entities, id) {
        entities
    } else {
        let device = entities[id].transfer->0.session;
        let started = entities.insert(
            id,
            ComponentsView {
                state: Some(
                    TaskState {
                        phase: TaskStatePhase::Executing,
                        deadline: Some(deadline_after(now)),
                        ..entities[id].state->0
                    },
                ),
                transfer: None,
                ..entities[id]
            },
        );
        if has_module(entities, id) && started.dom().contains(device)
            && started[device].session is Some
            && !started[device].session->0.modules.contains(module_of(entities, id).name) {
            let session = started[device].session->0;
            started.insert(
                device,
                ComponentsView {
                    session: Some(
                        SessionView {
                            modules: session.modules.push(module_of(entities, id).name),
                            ..session
                        },
                    ),
                    ..started[device]
                },
            )
        } else {
            started
        }
    }
}

/// Bounds of chunk `index` of `len` bytes cut by `chunk`.
proof fn lemma_chunk_bounds(len: int, chunk: int, index: int)
    requires
        chunk > 0,
        len >= 0,
        0 <= index < chunk_count(len, chunk),
    ensures
        0 <= index * chunk < len,
        (index + 1) * chunk == index * chunk + chunk,
{
    assert(len == chunk * (len / chunk) + len % chunk) by (nonlinear_arith)
        requires
            chunk > 0,
    ;
    assert(0 <= len % chunk < chunk) by (nonlinear_arith)
        requires
            chunk > 0,
    ;
    assert(index * chunk < len) by (nonlinear_arith)
        requires
            chunk > 0,
            0 <= index,
            len == chunk * (len / chunk) + len % chunk,
            0 <= len % chunk < chunk,
            index < len / chunk + if len % chunk == 0 {
                0int
            } else {
                1int
            },
    ;
    assert(0 <= index * chunk) by (nonlinear_arith)
        requires
            chunk > 0,
            0 <= index,
    ;
    assert((index + 1) * chunk == index * chunk + chunk) by (nonlinear_arith);
}

/// The chunk messages for a task, one for each chunk of the binary that is
/// not acknowledged, by ascending index.
pub fn chunk_messages(task: u64, module: &Module, acked: &Vec<bool>) -> (messages: Vec<Message>)
    requires
        deliverable(module@),
    ensures
        messages_view(messages@) == pending_chunks(
            task,
            module@,
            acked@,
            chunk_count(module.binary.len() as int, module.chunk_size as int) as nat,
        ),
{
    let len = module.binary.len();
    let chunk = module.chunk_size as usize;
    let whole = len / chunk;
    let count: usize = if len % chunk == 0 {
        whole
    } else {
        whole + 1
    };
    let mut messages: Vec<Message> = Vec::new();
    let mut index: usize = 0;
    assert(messages_view(messages@) =~= pending_chunks(task, module@, acked@, 0));
    while index < count
        invariant
            index <= count,
            len == module.binary.len(),
            chunk == module.chunk_size,
            chunk > 0,
            count == chunk_count(len as int, chunk as int),
            count <= u32::MAX,
            messages_view(messages@) == pending_chunks(task, module@, acked@, index as nat),
        decreases count - index,
    {
        proof {
            lemma_chunk_bounds(len as int, chunk as int, index as int);
        }
        let done = index < acked.len() && acked[index];
        if !done {
            let start = index * chunk;
            let end = if len - start < chunk {
                len
            } else {
                start + chunk
            };
            let data = clone_bytes(slice_subrange(module.binary.as_slice(), start, end));
            let ghost before = messages@;
            let message = Message::ServerModule {
                task_id: task,
                chunk_index: index as u32,
                chunk_data: data,
            };
            messages.push(message);
            assert(messages_view(messages@) =~= messages_view(before).push(message@));
        }
        index += 1;
    }
    messages
}

/// What the distributor reads of a task: its module and what its device
/// acknowledged so far.
struct Request {
    module_entity: u64,
    device: u64,
    acked: Vec<bool>,
}

/// Appends messages to the end of a queue.
pub fn enqueue_all(queue: &mut VecDeque<Message>, messages: Vec<Message>)
    ensures
        messages_view(final(queue)@) == messages_view(old(queue)@) + messages_view(messages@),
{
    let mut messages = messages;
    let ghost all = messages@;
    let ghost start = queue@;
    let mut i: usize = 0;
    let n = messages.len();
    assert(messages_view(start) + messages_view(all.take(0)) =~= messages_view(start));
    while i < n
        invariant
            i <= n,
            n == messages.len(),
            messages.len() == all.len(),
            forall|k: int| i <= k < n ==> messages[k]@ == all[k]@,
            messages_view(queue@) == messages_view(start) + messages_view(all.take(i as int)),
        decreases n - i,
    {
        let message = messages[i].clone();
        let ghost before = queue@;
        queue.push_back(message);
        proof {
            assert(messages_view(queue@) =~= messages_view(before).push(message@));
            assert(messages_view(all.take(i + 1)) =~= messages_view(all.take(i as int)).push(
                all[i as int]@,
            ));
            assert(messages_view(queue@) =~= messages_view(start) + messages_view(
                all.take(i + 1),
            ));
        }
        i += 1;
    }
    assert(all.take(n as int) =~= all);
}

impl TaskSystem {
    /// Hands the unacknowledged chunks of task `id` to its device, if the
    /// device asked for the module.
    pub fn distribute_to(world: &mut hecs::World, id: u64)
        ensures
            world_entities(*final(world)) == distributed(world_entities(*old(world)), id),
    {
        let ghost before = world_entities(*world);
        let mut request: Option<Request> = None;
        match world_components(world, id) {
            Some(c) => match &c.task {
                Some(t) => match &c.transfer {
                    Some(transfer) => {
                        if transfer.state == ModuleTransferState::Requested {
                            request = Some(
                                Request {
                                    module_entity: t.require_module,
                                    device: transfer.session,
                                    acked: transfer.acked_chunks.to_vec(),
                                },
                            );
                        }
                    },
                    None => {},
                },
                None => {},
            },
            None => {},
        }
        assert(world_entities(*world) =~= before);
        let request = match request {
            Some(r) => r,
            None => {
                return ;
            },
        };
        let mut messages: Option<Vec<Message>> = None;
        match world_components(world, request.module_entity) {
            Some(c) => match &c.module {
                Some(m) => {
                    if m.chunk_size > 0 {
                        let size = m.binary.len();
                        let chunk = m.chunk_size as usize;
                        let whole = size / chunk;
                        let count: u128 = if size % chunk == 0 {
                            whole as u128
                        } else {
                            whole as u128 + 1
                        };
                        if count <= u32::MAX as u128 && count <= (usize::MAX / 8) as u128 {
                            messages = Some(chunk_messages(id, m, &request.acked));
                        }
                    }
                },
                None => {},
            },
            None => {},
        }
        assert(world_entities(*world) =~= before);
        let messages = match messages {
            Some(m) => m,
            None => {
                return ;
            },
        };
        assert(awaits_chunks(before, id));
        match world_components(world, id) {
            Some(c) => match &mut c.transfer {
                Some(transfer) => {
                    transfer.state = ModuleTransferState::Transferring;
                },
                None => {},
            },
            None => {},
        }
        match world_components(world, request.device) {
            Some(c) => match &mut c.session {
                Some(session) => {
                    enqueue_all(&mut session.message_queue, messages);
                },
                None => {},
            },
            None => {},
        }
        assert(world_entities(*world) =~= distributed(before, id));
    }

    /// The distributor's first pass: every task whose device asked for the
    /// module gets its unacknowledged chunks queued, tasks taken by ascending
    /// handle.
    pub fn transfer_chunks(world: &mut hecs::World)
        ensures
            world_entities(*final(world)) == visit_all(
                world_entities(*old(world)),
                |entities: Map<u64, ComponentsView>, id: u64| distributed(entities, id),
            ),
    {
        let ghost before = world_entities(*world);
        let ghost rule = |entities: Map<u64, ComponentsView>, id: u64| distributed(entities, id);
        let mut ids = world_handles(world);
        proof {
            vstd::seq_lib::seq_to_set_is_finite(ids@);
        }
        while ids.len() > 0
            invariant
                ids@.no_duplicates(),
                forall|entities: Map<u64, ComponentsView>, id: u64| #[trigger]
                    rule(entities, id) == distributed(entities, id),
                visit(world_entities(*world), ids@.to_set(), rule) == visit_all(before, rule),
            decreases ids.len(),
        {
            let ghost remaining = ids@.to_set();
            let ghost now = world_entities(*world);
            proof {
                vstd::seq_lib::seq_to_set_is_finite(ids@);
            }
            let id = take_least(&mut ids);
            proof {
                lemma_visit_step(now, remaining, rule, id);
            }
            TaskSystem::distribute_to(world, id);
        }
        proof {
            assert(ids@.to_set() =~= Set::<u64>::empty());
            lemma_visit_done(world_entities(*world), rule);
        }
    }

    /// Completes the transfer of task `id`, if every chunk is acknowledged.
    pub fn finalize_one(world: &mut hecs::World, id: u64, now: u64)
        ensures
            world_entities(*final(world)) == finalized(world_entities(*old(world)), id, now),
    {
        let ghost before = world_entities(*world);
        let mut target: Option<(u64, Option<u64>)> = None;
        match world_components(world, id) {
            Some(c) => {
                let delivered = match &c.transfer {
                    Some(transfer) => transfer.acked_chunks.all(),
                    None => false,
                };
                if delivered && c.state.is_some() {
                    let device = match &c.transfer {
                        Some(transfer) => transfer.session,
                        None => 0,
                    };
                    let module_entity = match &c.task {
                        Some(t) => Some(t.require_module),
                        None => None,
                    };
                    target = Some((device, module_entity));
                    let deadline = if now <= u64::MAX - EXECUTION_TIMEOUT {
                        now + EXECUTION_TIMEOUT
                    } else {
                        u64::MAX
                    };
                    match &mut c.state {
                        Some(state) => {
                            state.phase = TaskStatePhase::Executing;
                            state.deadline = Some(deadline);
                        },
                        None => {},
                    }
                    c.transfer = None;
                }
            },
            None => {},
        }
        let ghost started = world_entities(*world);
        let (device, module_entity) = match target {
            Some(t) => t,
            None => {
                assert(world_entities(*world) =~= before);
                return ;
            },
        };
        let mut name: Option<String> = None;
        match module_entity {
            Some(m) => match world_components(world, m) {
                Some(c) => match &c.module {
                    Some(module) => {
                        name = Some(module.name.clone());
                    },
                    None => {},
                },
                None => {},
            },
            None => {},
        }
        assert(world_entities(*world) =~= started);
        match name {
            Some(name) => match world_components(world, device) {
                Some(c) => match &mut c.session {
                    Some(session) => {
                        if !contains_name(&session.modules, &name) {
                            let ghost modules = session.modules@;
                            session.modules.push(name);
                            assert(names_view(session.modules@) =~= names_view(modules).push(name@));
                        }
                    },
                    None => {},
                },
                None => {},
            },
            None => {},
        }
        assert(world_entities(*world) =~= finalized(before, id, now));
    }

    /// The distributor's second pass: every task whose transfer is fully
    /// acknowledged becomes Executing and loses its transfer record, and its
    /// device lists the module as cached. `now` is the dispatcher's clock in
    /// nanoseconds.
    pub fn finalize_transfer(world: &mut hecs::World, now: u64)
        ensures
            world_entities(*final(world)) == visit_all(
                world_entities(*old(world)),
                |entities: Map<u64, ComponentsView>, id: u64| finalized(entities, id, now),
            ),
    {
        let ghost before = world_entities(*world);
        let ghost rule = |entities: Map<u64, ComponentsView>, id: u64| finalized(entities, id, now);
        let mut ids = world_handles(world);
        proof {
            vstd::seq_lib::seq_to_set_is_finite(ids@);
        }
        while ids.len() > 0
            invariant
                ids@.no_duplicates(),
                forall|entities: Map<u64, ComponentsView>, id: u64| #[trigger]
                    rule(entities, id) == finalized(entities, id, now),
                visit(world_entities(*world), ids@.to_set(), rule) == visit_all(before, rule),
            decreases ids.len(),
        {
            let ghost remaining = ids@.to_set();
            let ghost current = world_entities(*world);
            proof {
                vstd::seq_lib::seq_to_set_is_finite(ids@);
            }
            let id = take_least(&mut ids);
            proof {
                lemma_visit_step(current, remaining, rule, id);
            }
            TaskSystem::finalize_one(world, id, now);
        }
        proof {
            assert(ids@.to_set() =~= Set::<u64>::empty());
            lemma_visit_done(world_entities(*world), rule);
        }
    }
}

} // verus!
