//! The dispatcher's loop, one tick at a time, and the world it starts with.

use crate::server::components::{Module, ModuleView, Task, TaskState, TaskStatePhase, TaskView};
use crate::server::systems::lifecycle::maintained;
use crate::server::systems::network::{drained, flushed};
use crate::server::systems::pass::visit_all;
use crate::server::systems::schedule::{after_assignment, assignment};
use crate::server::systems::task::{distributed, finalized};
use crate::server::systems::{LifecycleSystem, NetworkSystem, TaskSystem};
use crate::server::world::{nothing, spawn_module, spawn_task, world_entities, ComponentsView};
use crate::task::StaticModule;
use vstd::prelude::*;

verus! {

/// The size of the chunks in which modules are delivered, in bytes.
pub const CHUNK_SIZE: u32 = 1024;

/// The priority of the tasks that a dispatcher starts with.
pub const DEFAULT_PRIORITY: u8 = 1;

/// The world after one tick at `now`: the lifecycle pass, the inbound pass,
/// the scheduler, the two passes of the distributor, and the outbound pass,
/// in this order. `reconnected` holds the sessions whose channel was opened
/// again since the last tick.
pub open spec fn ticked(
    entities: Map<u64, ComponentsView>,
    now: u64,
    reconnected: Seq<u64>,
) -> Map<u64, ComponentsView> {
    let alive = visit_all(
        entities,
        |e: Map<u64, ComponentsView>, id: u64| maintained(e, id, now, reconnected),
    );
    let heard = visit_all(alive, |e: Map<u64, ComponentsView>, id: u64| drained(e, id, now));
    let assigned = after_assignment(heard, assignment(heard));
    let handed = visit_all(assigned, |e: Map<u64, ComponentsView>, id: u64| distributed(e, id));
    let started = visit_all(handed, |e: Map<u64, ComponentsView>, id: u64| finalized(e, id, now));
    visit_all(started, |e: Map<u64, ComponentsView>, id: u64| flushed(e, id))
}

/// One tick of the dispatcher at `now`. The caller reads from the channels
/// before it and writes to them after it.
pub fn tick(world: &mut hecs::World, now: u64, reconnected: &Vec<u64>)
    ensures
        world_entities(*final(world)) == ticked(world_entities(*old(world)), now, reconnected@),
{
    LifecycleSystem::maintain_connection(world, now, reconnected);
    NetworkSystem::process_inbound(world, now);
    TaskSystem::assign_tasks(world);
    TaskSystem::transfer_chunks(world);
    TaskSystem::finalize_transfer(world, now);
    NetworkSystem::process_outbound(world);
}

/// The entity of a module that was built in.
pub open spec fn module_entity(module: StaticModule) -> ComponentsView {
    ComponentsView {
        module: Some(
            ModuleView {
                name: module.name@,
                binary: module.binary@,
                dependencies: Seq::empty(),
                chunk_size: CHUNK_SIZE,
            },
        ),
        ..nothing()
    }
}

/// The entity of a task that a dispatcher starts with.
pub open spec fn task_entity(task: crate::task::TaskView, module: u64, now: u64) -> ComponentsView {
    ComponentsView {
        task: Some(
            TaskView {
                name: task.name,
                params: task.params,
                result: Seq::empty(),
                created_at: now,
                require_module: module,
                priority: DEFAULT_PRIORITY,
            },
        ),
        state: Some(
            TaskState { phase: TaskStatePhase::Queued, assigned_device: None, deadline: None },
        ),
        ..nothing()
    }
}

/// The position of the last module named `name` among the first `upto`, or
/// -1 where there is none.
pub open spec fn last_named(modules: Seq<StaticModule>, name: Seq<char>, upto: int) -> int
    decreases upto,
{
    if upto <= 0 {
        -1
    } else if modules[upto - 1].name@ == name {
        upto - 1
    } else {
        last_named(modules, name, upto - 1)
    }
}

/// Whether `after` has everything that `before` has, unchanged.
pub open spec fn extends(
    before: Map<u64, ComponentsView>,
    after: Map<u64, ComponentsView>,
) -> bool {
    forall|id: u64| #[trigger]
        before.dom().contains(id) ==> after.dom().contains(id) && after[id] == before[id]
}

/// A position that `last_named` gives is one of the positions asked for.
pub proof fn lemma_last_named(modules: Seq<StaticModule>, name: Seq<char>, upto: int)
    requires
        upto <= modules.len(),
    ensures
        -1 <= last_named(modules, name, upto) < upto || last_named(modules, name, upto) == -1,
    decreases upto,
{
    if upto > 0 && modules[upto - 1].name@ != name {
        lemma_last_named(modules, name, upto - 1);
    }
}

/// The handles of what a dispatcher was started with.
pub struct Started {
    /// The entity of each module, in the modules' order.
    pub modules: Vec<u64>,
    /// The entity of each task, in the tasks' order; `None` for a task whose
    /// module is unknown.
    pub tasks: Vec<Option<u64>>,
}

/// The position of the last module named `name`.
fn find_module(modules: &Vec<StaticModule>, name: &String) -> (found: Option<usize>)
    ensures
        match found {
            Some(k) => k < modules@.len() && k == last_named(modules@, name@, modules@.len() as int),
            None => last_named(modules@, name@, modules@.len() as int) < 0,
        },
{
    let mut upto = modules.len();
    while upto > 0
        invariant
            upto <= modules.len(),
            last_named(modules@, name@, modules@.len() as int) == last_named(
                modules@,
                name@,
                upto as int,
            ),
        decreases upto,
    {
        if modules[upto - 1].name == *name {
            return Some(upto - 1);
        }
        upto -= 1;
    }
    None
}

/// Adds the modules that were built in and the tasks to start with. A task
/// goes with the last module of the name it asks for, is Queued, and was
/// created at `now`; a task that asks for an unknown module is left out.
/// Nothing that was in the world changes.
pub fn initialize_modules_and_tasks(
    world: &mut hecs::World,
    modules: &Vec<StaticModule>,
    tasks: &Vec<crate::task::Task>,
    now: u64,
) -> (started: Started)
    ensures
        started.modules@.len() == modules@.len(),
        started.tasks@.len() == tasks@.len(),
        extends(world_entities(*old(world)), world_entities(*final(world))),
        forall|id: u64| #[trigger]
            world_entities(*final(world)).dom().contains(id) ==> world_entities(
                *old(world),
            ).dom().contains(id) || started.modules@.contains(id) || started.tasks@.contains(
                Some(id),
            ),
        forall|k: int|
            0 <= k < modules@.len() ==> !world_entities(*old(world)).dom().contains(
                #[trigger] started.modules@[k],
            ) && world_entities(*final(world)).dom().contains(started.modules@[k])
                && world_entities(*final(world))[started.modules@[k]] == module_entity(modules@[k]),
        forall|j: int|
            0 <= j < tasks@.len() ==> match #[trigger] started.tasks@[j] {
                Some(id) => {
                    let k = last_named(modules@, tasks@[j].module@, modules@.len() as int);
                    &&& k >= 0
                    &&& !world_entities(*old(world)).dom().contains(id)
                    &&& world_entities(*final(world)).dom().contains(id)
                    &&& world_entities(*final(world))[id] == task_entity(
                        tasks@[j]@,
                        started.modules@[k],
                        now,
                    )
                },
                None => last_named(modules@, tasks@[j].module@, modules@.len() as int) < 0,
            },
{
    let ghost before = world_entities(*world);
    let mut module_ids: Vec<u64> = Vec::new();
    let mut i: usize = 0;
    while i < modules.len()
        invariant
            i <= modules.len(),
            module_ids@.len() == i,
            extends(before, world_entities(*world)),
            forall|id: u64| #[trigger]
                world_entities(*world).dom().contains(id) ==> before.dom().contains(id)
                    || module_ids@.contains(id),
            forall|k: int|
                0 <= k < i ==> !before.dom().contains(#[trigger] module_ids@[k]) && world_entities(
                    *world,
                ).dom().contains(module_ids@[k]) && world_entities(*world)[module_ids@[k]]
                    == module_entity(modules@[k]),
        decreases modules.len() - i,
    {
        let ghost held = module_ids@;
        let ghost current = world_entities(*world);
        let module = Module {
            name: modules[i].name.clone(),
            binary: crate::protocol::clone_bytes(modules[i].binary.as_slice()),
            dependencies: Vec::new(),
            chunk_size: CHUNK_SIZE,
        };
        assert(module@ == module_entity(modules@[i as int]).module->0);
        let id = spawn_module(world, module);
        module_ids.push(id);
        proof {
            assert forall|x: u64| #[trigger] before.dom().contains(x) implies world_entities(
                *world,
            ).dom().contains(x) && world_entities(*world)[x] == before[x] by {
                assert(current.dom().contains(x));
            }
            assert forall|x: u64| #[trigger] world_entities(*world).dom().contains(x) implies before.dom().contains(
                x,
            ) || module_ids@.contains(x) by {
                if x == id {
                    assert(module_ids@[held.len() as int] == id);
                } else {
                    assert(current.dom().contains(x));
                    if held.contains(x) {
                        let k = choose|k: int| 0 <= k < held.len() && held[k] == x;
                        assert(module_ids@[k] == x);
                    }
                }
            }
            assert forall|k: int| 0 <= k < i + 1 implies !before.dom().contains(
                #[trigger] module_ids@[k],
            ) && world_entities(*world).dom().contains(module_ids@[k]) && world_entities(
                *world,
            )[module_ids@[k]] == module_entity(modules@[k]) by {
                if k < i {
                    assert(module_ids@[k] == held[k]);
                    assert(current.dom().contains(held[k]));
                }
            }
        }
        i += 1;
    }
    let ghost with_modules = world_entities(*world);
    let mut task_ids: Vec<Option<u64>> = Vec::new();
    let mut j: usize = 0;
    while j < tasks.len()
        invariant
            j <= tasks.len(),
            task_ids@.len() == j,
            module_ids@.len() == modules@.len(),
            extends(with_modules, world_entities(*world)),
            forall|id: u64| #[trigger]
                world_entities(*world).dom().contains(id) ==> with_modules.dom().contains(id)
                    || task_ids@.contains(Some(id)),
            forall|k: int|
                0 <= k < j ==> match #[trigger] task_ids@[k] {
                    Some(id) => {
                        let m = last_named(modules@, tasks@[k].module@, modules@.len() as int);
                        &&& m >= 0
                        &&& !with_modules.dom().contains(id)
                        &&& world_entities(*world).dom().contains(id)
                        &&& world_entities(*world)[id] == task_entity(tasks@[k]@, module_ids@[m], now)
                    },
                    None => last_named(modules@, tasks@[k].module@, modules@.len() as int) < 0,
                },
        decreases tasks.len() - j,
    {
        let ghost held = task_ids@;
        let ghost current = world_entities(*world);
        let spec = &tasks[j];
        proof {
            lemma_last_named(modules@, spec.module@, modules@.len() as int);
        }
        let created = match find_module(modules, &spec.module) {
            Some(m) => {
                let task = Task {
                    name: spec.name.clone(),
                    params: crate::protocol::clone_types(&spec.params),
                    result: Vec::new(),
                    created_at: now,
                    require_module: module_ids[m],
                    priority: DEFAULT_PRIORITY,
                };
                Some(spawn_task(world, task))
            },
            None => None,
        };
        task_ids.push(created);
        proof {
            assert forall|x: u64| #[trigger] with_modules.dom().contains(x) implies world_entities(
                *world,
            ).dom().contains(x) && world_entities(*world)[x] == with_modules[x] by {
                assert(current.dom().contains(x));
            }
            assert forall|x: u64| #[trigger] world_entities(*world).dom().contains(x) implies with_modules.dom().contains(
                x,
            ) || task_ids@.contains(Some(x)) by {
                if created == Some(x) {
                    assert(task_ids@[held.len() as int] == Some(x));
                } else {
                    assert(current.dom().contains(x));
                    if held.contains(Some(x)) {
                        let k = choose|k: int| 0 <= k < held.len() && held[k] == Some(x);
                        assert(task_ids@[k] == Some(x));
                    }
                }
            }
            assert forall|k: int| 0 <= k < j + 1 implies match #[trigger] task_ids@[k] {
                Some(id) => {
                    let m = last_named(modules@, tasks@[k].module@, modules@.len() as int);
                    &&& m >= 0
                    &&& !with_modules.dom().contains(id)
                    &&& world_entities(*world).dom().contains(id)
                    &&& world_entities(*world)[id] == task_entity(tasks@[k]@, module_ids@[m], now)
                },
                None => last_named(modules@, tasks@[k].module@, modules@.len() as int) < 0,
            } by {
                lemma_last_named(modules@, tasks@[k].module@, modules@.len() as int);
                if k < j {
                    assert(task_ids@[k] == held[k]);
                    if held[k] is Some {
                        assert(current.dom().contains(held[k]->0));
                        assert(created != held[k]);
                    }
                } else {
                    assert(task_ids@[k] == created);
                    if created is Some && with_modules.dom().contains(created->0) {
                        assert(current.dom().contains(created->0));
                    }
                }
            }
        }
        j += 1;
    }
    proof {
        assert forall|x: u64| #[trigger] world_entities(*world).dom().contains(x) implies before.dom().contains(
            x,
        ) || module_ids@.contains(x) || task_ids@.contains(Some(x)) by {
            if !task_ids@.contains(Some(x)) {
                assert(with_modules.dom().contains(x));
            }
        }
        assert forall|x: u64| #[trigger] before.dom().contains(x) implies world_entities(
            *world,
        ).dom().contains(x) && world_entities(*world)[x] == before[x] by {
            assert(with_modules.dom().contains(x));
        }
        assert forall|k: int| 0 <= k < modules@.len() implies !before.dom().contains(
            #[trigger] module_ids@[k],
        ) && world_entities(*world).dom().contains(module_ids@[k]) && world_entities(
            *world,
        )[module_ids@[k]] == module_entity(modules@[k]) by {
            assert(with_modules.dom().contains(module_ids@[k]));
        }
        assert forall|k: int| 0 <= k < tasks@.len() implies match #[trigger] task_ids@[k] {
            Some(id) => {
                let m = last_named(modules@, tasks@[k].module@, modules@.len() as int);
                &&& m >= 0
                &&& !before.dom().contains(id)
                &&& world_entities(*world).dom().contains(id)
                &&& world_entities(*world)[id] == task_entity(tasks@[k]@, module_ids@[m], now)
            },
            None => last_named(modules@, tasks@[k].module@, modules@.len() as int) < 0,
        } by {
            if task_ids@[k] is Some {
                let id = task_ids@[k]->0;
                if before.dom().contains(id) {
                    assert(with_modules.dom().contains(id));
                }
            }
        }
    }
    Started { modules: module_ids, tasks: task_ids }
}

} // verus!
