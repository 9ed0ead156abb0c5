//! The scheduler's loop on plain records of the queued tasks and the
//! connected devices.

use crate::protocol::{contains_name, names_view};
use crate::server::systems::schedule::{
    assignment, candidates, chosen_device, chunk_count, device_precedes, fits, has_cached,
    is_best_device, is_candidate, is_next_task, is_queued, module_of, next_task, queued_tasks,
    schedule, task_precedes, Plan, TASK_OVERHEAD,
};
use crate::server::world::ComponentsView;
use vstd::prelude::*;

verus! {

/// What the scheduler reads of a queued task.
pub struct TaskRecord {
    pub entity: u64,
    pub module_entity: u64,
    pub size: usize,
    pub chunk_size: u32,
    pub total_chunks: u32,
    pub priority: u8,
    pub module_name: String,
}

/// What the scheduler reads of a connected device.
pub struct DeviceRecord {
    pub entity: u64,
    pub ram: u64,
    pub modules: Vec<String>,
}

/// A task bound to a device.
pub struct Assignment {
    pub task: TaskRecord,
    pub device: u64,
}

/// Whether the record holds what the world says of a queued task.
pub open spec fn describes_task(entities: Map<u64, ComponentsView>, record: TaskRecord) -> bool {
    &&& is_queued(entities, record.entity)
    &&& record.module_entity == entities[record.entity].task->0.require_module
    &&& record.size == module_of(entities, record.entity).binary.len()
    &&& record.chunk_size == module_of(entities, record.entity).chunk_size
    &&& record.total_chunks == chunk_count(record.size as int, record.chunk_size as int)
    &&& record.priority == entities[record.entity].task->0.priority
    &&& record.module_name@ == module_of(entities, record.entity).name
}

/// Whether the record holds what the world says of a connected device.
pub open spec fn describes_device(entities: Map<u64, ComponentsView>, record: DeviceRecord) -> bool {
    &&& is_candidate(entities, record.entity)
    &&& record.ram == entities[record.entity].session->0.device_ram
    &&& names_view(record.modules@) == entities[record.entity].session->0.modules
}

/// The handles of the tasks that the records describe, in the same order.
pub open spec fn task_entities(records: Seq<TaskRecord>) -> Seq<u64> {
    records.map_values(|r: TaskRecord| r.entity)
}

/// The handles of the devices that the records describe, in the same order.
pub open spec fn device_entities(records: Seq<DeviceRecord>) -> Seq<u64> {
    records.map_values(|r: DeviceRecord| r.entity)
}

/// Whether the records are those of the tasks in `set`, each once.
pub open spec fn lists_tasks(
    entities: Map<u64, ComponentsView>,
    records: Seq<TaskRecord>,
    set: Set<u64>,
) -> bool {
    &&& forall|k: int| 0 <= k < records.len() ==> describes_task(entities, #[trigger] records[k])
    &&& task_entities(records).no_duplicates()
    &&& task_entities(records).to_set() == set
}

/// Whether the records are those of the devices in `set`, each once.
pub open spec fn lists_devices(
    entities: Map<u64, ComponentsView>,
    records: Seq<DeviceRecord>,
    set: Set<u64>,
) -> bool {
    &&& forall|k: int| 0 <= k < records.len() ==> describes_device(entities, #[trigger] records[k])
    &&& device_entities(records).no_duplicates()
    &&& device_entities(records).to_set() == set
}

/// The order of tasks, read off their records.
pub open spec fn record_precedes(a: TaskRecord, b: TaskRecord) -> bool {
    ||| a.size > b.size
    ||| a.size == b.size && a.priority < b.priority
    ||| a.size == b.size && a.priority == b.priority && a.module_entity < b.module_entity
    ||| a.size == b.size && a.priority == b.priority && a.module_entity == b.module_entity
        && a.entity < b.entity
}

/// Whether a device may take a task, read off their records.
pub open spec fn eligible(device: DeviceRecord, task: TaskRecord, cached: bool) -> bool {
    &&& device.ram >= task.size + TASK_OVERHEAD
    &&& cached ==> names_view(device.modules@).contains(task.module_name@)
}

/// The order of devices, read off their records.
pub open spec fn device_record_precedes(a: DeviceRecord, b: DeviceRecord) -> bool {
    a.ram > b.ram || (a.ram == b.ram && a.entity < b.entity)
}

/// The plan that a list of assignments stands for.
pub open spec fn plan_of(assignments: Seq<Assignment>) -> Plan
    decreases assignments.len(),
{
    if assignments.len() == 0 {
        Plan::empty()
    } else {
        plan_of(assignments.drop_last()).bind(
            assignments.last().task.entity,
            assignments.last().device,
        )
    }
}

/// A plan binds only the tasks and the devices of its assignments.
pub proof fn lemma_plan_of(assignments: Seq<Assignment>)
    ensures
        forall|t: u64|
            plan_of(assignments).device_of.dom().contains(t) ==> exists|k: int|
                0 <= k < assignments.len() && (#[trigger] assignments[k]).task.entity == t,
        forall|d: u64|
            plan_of(assignments).task_of.dom().contains(d) ==> exists|k: int|
                0 <= k < assignments.len() && (#[trigger] assignments[k]).device == d,
    decreases assignments.len(),
{
    if assignments.len() > 0 {
        let front = assignments.drop_last();
        lemma_plan_of(front);
        assert(plan_of(assignments) == plan_of(front).bind(
            assignments.last().task.entity,
            assignments.last().device,
        ));
        assert forall|t: u64| plan_of(assignments).device_of.dom().contains(t) implies exists|k: int|
            0 <= k < assignments.len() && (#[trigger] assignments[k]).task.entity == t by {
            if t == assignments.last().task.entity {
                assert(assignments[assignments.len() - 1].task.entity == t);
            } else {
                assert(plan_of(front).device_of.dom().contains(t));
                let k = choose|k: int| 0 <= k < front.len() && (#[trigger] front[k]).task.entity == t;
                assert(assignments[k].task.entity == t);
            }
        }
        assert forall|d: u64| plan_of(assignments).task_of.dom().contains(d) implies exists|k: int|
            0 <= k < assignments.len() && (#[trigger] assignments[k]).device == d by {
            if d == assignments.last().device {
                assert(assignments[assignments.len() - 1].device == d);
            } else {
                assert(plan_of(front).task_of.dom().contains(d));
                let k = choose|k: int| 0 <= k < front.len() && (#[trigger] front[k]).device == d;
                assert(assignments[k].device == d);
            }
        }
    }
}

/// The index of the task that is taken first.
fn first_task(tasks: &Vec<TaskRecord>) -> (best: usize)
    requires
        tasks.len() > 0,
        task_entities(tasks@).no_duplicates(),
    ensures
        best < tasks.len(),
        forall|k: int|
            0 <= k < tasks.len() && k != best ==> record_precedes(
                tasks[best as int],
                #[trigger] tasks[k],
            ),
{
    let mut best: usize = 0;
    let mut i: usize = 1;
    while i < tasks.len()
        invariant
            1 <= i <= tasks.len(),
            best < i,
            task_entities(tasks@).no_duplicates(),
            forall|k: int|
                0 <= k < i && k != best ==> record_precedes(tasks[best as int], #[trigger] tasks[k]),
        decreases tasks.len() - i,
    {
        let a = &tasks[i];
        let b = &tasks[best];
        let before = a.size > b.size || (a.size == b.size && (a.priority < b.priority || (a.priority
            == b.priority && (a.module_entity < b.module_entity || (a.module_entity
            == b.module_entity && a.entity < b.entity)))));
        assert(before == record_precedes(tasks[i as int], tasks[best as int]));
        assert(task_entities(tasks@)[i as int] != task_entities(tasks@)[best as int]);
        if before {
            assert forall|k: int| 0 <= k < i + 1 && k != i implies record_precedes(
                tasks[i as int],
                #[trigger] tasks[k],
            ) by {
                if k != best {
                    assert(record_precedes(tasks[best as int], tasks[k]));
                }
            }
            best = i;
        }
        i += 1;
    }
    best
}

/// The index of the preferred device among those that may take the task.
fn best_device(devices: &Vec<DeviceRecord>, task: &TaskRecord, cached: bool) -> (best: Option<usize>)
    requires
        device_entities(devices@).no_duplicates(),
    ensures
        match best {
            Some(b) => {
                &&& b < devices.len()
                &&& eligible(devices[b as int], *task, cached)
                &&& forall|k: int|
                    0 <= k < devices.len() && k != b && eligible(#[trigger] devices[k], *task, cached)
                        ==> device_record_precedes(devices[b as int], devices[k])
            },
            None => forall|k: int|
                0 <= k < devices.len() ==> !eligible(#[trigger] devices[k], *task, cached),
        },
{
    let mut best: Option<usize> = None;
    let mut i: usize = 0;
    while i < devices.len()
        invariant
            i <= devices.len(),
            device_entities(devices@).no_duplicates(),
            match best {
                Some(b) => {
                    &&& b < i
                    &&& eligible(devices[b as int], *task, cached)
                    &&& forall|k: int|
                        0 <= k < i && k != b && eligible(#[trigger] devices[k], *task, cached)
                            ==> device_record_precedes(devices[b as int], devices[k])
                },
                None => forall|k: int| 0 <= k < i ==> !eligible(#[trigger] devices[k], *task, cached),
            },
        decreases devices.len() - i,
    {
        let device = &devices[i];
        let room = device.ram >= TASK_OVERHEAD && device.ram - TASK_OVERHEAD >= task.size as u64;
        let may = room && (!cached || contains_name(&device.modules, &task.module_name));
        assert(may == eligible(devices[i as int], *task, cached));
        if may {
            match best {
                Some(b) => {
                    let current = &devices[b];
                    assert(device_entities(devices@)[i as int] != device_entities(devices@)[b as int]);
                    if device.ram > current.ram || (device.ram == current.ram && device.entity
                        < current.entity) {
                        assert forall|k: int|
                            0 <= k < i + 1 && k != i && eligible(
                                #[trigger] devices[k],
                                *task,
                                cached,
                            ) implies device_record_precedes(devices[i as int], devices[k]) by {
                            if k != b {
                                assert(device_record_precedes(devices[b as int], devices[k]));
                            }
                        }
                        best = Some(i);
                    }
                },
                None => {
                    best = Some(i);
                },
            }
        }
        i += 1;
    }
    best
}

/// Removing one element from a list without repeats removes it from the set
/// of the list's elements.
pub proof fn lemma_remove_listed(ids: Seq<u64>, i: int)
    requires
        ids.no_duplicates(),
        0 <= i < ids.len(),
    ensures
        ids.remove(i).no_duplicates(),
        ids.remove(i).to_set() == ids.to_set().remove(ids[i]),
{
    let r = ids.remove(i);
    assert forall|x: u64| r.to_set().contains(x) == ids.to_set().remove(ids[i]).contains(x) by {
        if r.contains(x) {
            let k = choose|k: int| 0 <= k < r.len() && r[k] == x;
            if k < i {
                assert(ids[k] == x);
            } else {
                assert(ids[k + 1] == x);
            }
        }
        if ids.contains(x) && x != ids[i] {
            let k = choose|k: int| 0 <= k < ids.len() && ids[k] == x;
            if k < i {
                assert(r[k] == x);
            } else {
                assert(r[k - 1] == x);
            }
        }
    }
    assert(r.to_set() =~= ids.to_set().remove(ids[i]));
}

/// The record that precedes all others is the record of the task that the
/// scheduler takes first.
proof fn lemma_first_is_next(
    entities: Map<u64, ComponentsView>,
    records: Seq<TaskRecord>,
    set: Set<u64>,
    best: int,
)
    requires
        lists_tasks(entities, records, set),
        0 <= best < records.len(),
        forall|k: int|
            0 <= k < records.len() && k != best ==> record_precedes(records[best], #[trigger] records[k]),
    ensures
        set.contains(records[best].entity),
        next_task(entities, set) == records[best].entity,
{
    let ids = task_entities(records);
    let t = records[best].entity;
    assert(ids[best] == t);
    assert(ids.contains(t));
    assert forall|other: u64| set.contains(other) && other != t implies task_precedes(
        entities,
        t,
        other,
    ) by {
        assert(ids.contains(other));
        let k = choose|k: int| 0 <= k < ids.len() && ids[k] == other;
        assert(records[k].entity == other);
        assert(record_precedes(records[best], records[k]));
    }
    assert(is_next_task(entities, set, t));
    let c = next_task(entities, set);
    assert(is_next_task(entities, set, c));
    if c != t {
        assert(task_precedes(entities, c, t));
        assert(task_precedes(entities, t, c));
    }
}

/// The device that the scheduler gives a task: the preferred one among those
/// that cache the module, else among all that fit.
fn choose_device(
    devices: &Vec<DeviceRecord>,
    task: &TaskRecord,
    Ghost(entities): Ghost<Map<u64, ComponentsView>>,
    Ghost(pool): Ghost<Set<u64>>,
) -> (chosen: Option<usize>)
    requires
        lists_devices(entities, devices@, pool),
        describes_task(entities, *task),
    ensures
        match chosen {
            Some(i) => i < devices.len() && chosen_device(entities, pool, task.entity) == Some(
                devices[i as int].entity,
            ),
            None => chosen_device(entities, pool, task.entity) is None,
        },
{
    let with_cache = best_device(devices, task, true);
    match with_cache {
        Some(i) => {
            proof {
                lemma_best_is_chosen(entities, devices@, pool, *task, true, i as int);
            }
            Some(i)
        },
        None => {
            proof {
                lemma_none_eligible(entities, devices@, pool, *task, true);
            }
            let any = best_device(devices, task, false);
            match any {
                Some(i) => {
                    proof {
                        lemma_best_is_chosen(entities, devices@, pool, *task, false, i as int);
                    }
                    Some(i)
                },
                None => {
                    proof {
                        lemma_none_eligible(entities, devices@, pool, *task, false);
                    }
                    None
                },
            }
        },
    }
}

/// What `eligible` says of records is what the world says of the entities.
proof fn lemma_eligible(
    entities: Map<u64, ComponentsView>,
    device: DeviceRecord,
    task: TaskRecord,
    cached: bool,
)
    requires
        describes_device(entities, device),
        describes_task(entities, task),
    ensures
        eligible(device, task, cached) == (fits(entities, device.entity, task.entity) && (cached
            ==> has_cached(entities, device.entity, task.entity))),
{
}

/// The preferred record is the record of the only preferred device.
proof fn lemma_best_is_chosen(
    entities: Map<u64, ComponentsView>,
    records: Seq<DeviceRecord>,
    pool: Set<u64>,
    task: TaskRecord,
    cached: bool,
    best: int,
)
    requires
        lists_devices(entities, records, pool),
        describes_task(entities, task),
        0 <= best < records.len(),
        eligible(records[best], task, cached),
        forall|k: int|
            0 <= k < records.len() && k != best && eligible(#[trigger] records[k], task, cached)
                ==> device_record_precedes(records[best], records[k]),
    ensures
        is_best_device(entities, pool, task.entity, cached, records[best].entity),
        forall|d: u64|
            is_best_device(entities, pool, task.entity, cached, d) ==> d == records[best].entity,
{
    let ids = device_entities(records);
    let d = records[best].entity;
    assert(ids[best] == d);
    assert(ids.contains(d));
    lemma_eligible(entities, records[best], task, cached);
    assert forall|other: u64|
        pool.contains(other) && other != d && fits(entities, other, task.entity) && (cached
            ==> has_cached(entities, other, task.entity)) implies device_precedes(
        entities,
        d,
        other,
    ) by {
        assert(ids.contains(other));
        let k = choose|k: int| 0 <= k < ids.len() && ids[k] == other;
        assert(records[k].entity == other);
        lemma_eligible(entities, records[k], task, cached);
        assert(device_record_precedes(records[best], records[k]));
    }
    assert forall|x: u64| is_best_device(entities, pool, task.entity, cached, x) implies x == d by {
        if x != d {
            assert(pool.contains(d));
            assert(fits(entities, d, task.entity));
            assert(cached ==> has_cached(entities, d, task.entity));
            assert(pool.contains(x));
            assert(device_precedes(entities, x, d));
            assert(device_precedes(entities, d, x));
        }
    }
}

/// Where no record is eligible, no device is preferred.
proof fn lemma_none_eligible(
    entities: Map<u64, ComponentsView>,
    records: Seq<DeviceRecord>,
    pool: Set<u64>,
    task: TaskRecord,
    cached: bool,
)
    requires
        lists_devices(entities, records, pool),
        describes_task(entities, task),
        forall|k: int| 0 <= k < records.len() ==> !eligible(#[trigger] records[k], task, cached),
    ensures
        forall|d: u64| !is_best_device(entities, pool, task.entity, cached, d),
{
    let ids = device_entities(records);
    assert forall|d: u64| !is_best_device(entities, pool, task.entity, cached, d) by {
        if is_best_device(entities, pool, task.entity, cached, d) {
            assert(ids.contains(d));
            let k = choose|k: int| 0 <= k < ids.len() && ids[k] == d;
            assert(records[k].entity == d);
            lemma_eligible(entities, records[k], task, cached);
        }
    }
}

/// Whether the assignments bind queued tasks to candidate devices, no task
/// and no device twice.
pub open spec fn well_assigned(
    entities: Map<u64, ComponentsView>,
    assignments: Seq<Assignment>,
) -> bool {
    &&& forall|k: int|
        0 <= k < assignments.len() ==> describes_task(entities, (#[trigger] assignments[k]).task)
    &&& forall|k: int|
        0 <= k < assignments.len() ==> is_candidate(entities, (#[trigger] assignments[k]).device)
    &&& forall|i: int, j: int|
        0 <= i < assignments.len() && 0 <= j < assignments.len() && i != j ==> {
            &&& (#[trigger] assignments[i]).task.entity != (#[trigger] assignments[j]).task.entity
            &&& assignments[i].device != assignments[j].device
        }
}

/// Runs the scheduler's loop on the records of the queued tasks and the
/// connected devices.
pub(crate) fn plan_assignments(
    tasks: Vec<TaskRecord>,
    devices: Vec<DeviceRecord>,
    Ghost(entities): Ghost<Map<u64, ComponentsView>>,
) -> (assignments: Vec<Assignment>)
    requires
        lists_tasks(entities, tasks@, queued_tasks(entities)),
        lists_devices(entities, devices@, candidates(entities)),
    ensures
        plan_of(assignments@) == assignment(entities),
        well_assigned(entities, assignments@),
{
    let mut tasks = tasks;
    let mut devices = devices;
    let mut assignments: Vec<Assignment> = Vec::new();
    let ghost mut remaining = queued_tasks(entities);
    let ghost mut pool = candidates(entities);
    proof {
        vstd::seq_lib::seq_to_set_is_finite(task_entities(tasks@));
    }
    while tasks.len() > 0 && devices.len() > 0
        invariant
            lists_tasks(entities, tasks@, remaining),
            lists_devices(entities, devices@, pool),
            remaining.finite(),
            schedule(entities, remaining, pool, plan_of(assignments@)) == assignment(entities),
            well_assigned(entities, assignments@),
            forall|k: int|
                0 <= k < assignments.len() ==> !remaining.contains(
                    (#[trigger] assignments[k]).task.entity,
                ),
            forall|k: int|
                0 <= k < assignments.len() ==> !pool.contains((#[trigger] assignments[k]).device),
        decreases tasks.len(),
    {
        let ghost plan = plan_of(assignments@);
        let ghost before = assignments@;
        let ti = first_task(&tasks);
        proof {
            lemma_first_is_next(entities, tasks@, remaining, ti as int);
            assert(task_entities(tasks@)[0] == tasks@[0].entity);
            assert(task_entities(tasks@).contains(tasks@[0].entity));
            assert(device_entities(devices@)[0] == devices@[0].entity);
            assert(device_entities(devices@).contains(devices@[0].entity));
            assert(remaining.contains(tasks@[0].entity));
            assert(pool.contains(devices@[0].entity));
        }
        let chosen = choose_device(&devices, &tasks[ti], Ghost(entities), Ghost(pool));
        let ghost old_tasks = tasks@;
        let task = tasks.remove(ti);
        proof {
            assert(task_entities(tasks@) =~= task_entities(old_tasks).remove(ti as int));
            lemma_remove_listed(task_entities(old_tasks), ti as int);
            assert(task_entities(old_tasks)[ti as int] == task.entity);
        }
        let ghost t = task.entity;
        match chosen {
            Some(di) => {
                let ghost old_devices = devices@;
                let device = devices.remove(di);
                let ghost d = device.entity;
                proof {
                    assert(device_entities(devices@) =~= device_entities(old_devices).remove(
                        di as int,
                    ));
                    lemma_remove_listed(device_entities(old_devices), di as int);
                    assert(device_entities(old_devices)[di as int] == d);
                    assert(device_entities(old_devices).contains(d));
                    assert(pool.contains(d));
                    assert(schedule(entities, remaining, pool, plan) == schedule(
                        entities,
                        remaining.remove(t),
                        pool.remove(d),
                        plan.bind(t, d),
                    ));
                }
                assignments.push(Assignment { task, device: device.entity });
                proof {
                    assert(assignments@.drop_last() =~= before);
                    assert(plan_of(assignments@) == plan.bind(t, d));
                    remaining = remaining.remove(t);
                    pool = pool.remove(d);
                    assert forall|i: int, j: int|
                        0 <= i < assignments.len() && 0 <= j < assignments.len() && i != j implies {
                        &&& (#[trigger] assignments[i]).task.entity != (#[trigger] assignments[j]).task.entity
                        &&& assignments[i].device != assignments[j].device
                    } by {
                        if i < before.len() {
                            assert(assignments[i] == before[i]);
                        }
                        if j < before.len() {
                            assert(assignments[j] == before[j]);
                        }
                    }
                }
            },
            None => {
                proof {
                    assert(schedule(entities, remaining, pool, plan) == schedule(
                        entities,
                        remaining.remove(t),
                        pool,
                        plan,
                    ));
                    remaining = remaining.remove(t);
                }
            },
        }
    }
    proof {
        if tasks.len() == 0 {
            assert(task_entities(tasks@) =~= Seq::<u64>::empty());
            assert(remaining =~= Set::<u64>::empty());
        } else {
            assert(device_entities(devices@) =~= Seq::<u64>::empty());
            assert(pool =~= Set::<u64>::empty());
        }
    }
    assignments
}

} // verus!
