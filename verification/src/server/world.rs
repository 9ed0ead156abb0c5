//! The dispatcher's world: an entity-component store kept in a `hecs::World`.
//!
//! Every entity of the dispatcher carries one [`Components`] value, which
//! holds the subset of components that the entity has. Handles are the 64-bit
//! form of `hecs::Entity`.

use crate::server::components::{
    Module, ModuleTransfer, ModuleTransferView, ModuleView, Session, SessionHealth, SessionStream,
    SessionStreamView, SessionView, Task, TaskState, TaskStatePhase, TaskView,
};
use crate::server::systems::pass::take_least;
use vstd::prelude::*;

verus! {

/// `hecs::World`, of which the verifier knows only what [`world_entities`]
/// says.
#[verifier::external_type_specification]
#[verifier::external_body]
pub struct ExWorld(hecs::World);

/// The components of one entity.
pub struct Components {
    pub task: Option<Task>,
    pub state: Option<TaskState>,
    pub transfer: Option<ModuleTransfer>,
    pub session: Option<Session>,
    pub stream: Option<SessionStream>,
    pub health: Option<SessionHealth>,
    pub module: Option<Module>,
}

/// Model of a [`Components`].
pub struct ComponentsView {
    pub task: Option<TaskView>,
    pub state: Option<TaskState>,
    pub transfer: Option<ModuleTransferView>,
    pub session: Option<SessionView>,
    pub stream: Option<SessionStreamView>,
    pub health: Option<SessionHealth>,
    pub module: Option<ModuleView>,
}

impl View for Components {
    type V = ComponentsView;

    open spec fn view(&self) -> ComponentsView {
        ComponentsView {
            task: match self.task {
                Some(t) => Some(t@),
                None => None,
            },
            state: self.state,
            transfer: match self.transfer {
                Some(t) => Some(t@),
                None => None,
            },
            session: match self.session {
                Some(s) => Some(s@),
                None => None,
            },
            stream: match self.stream {
                Some(s) => Some(s@),
                None => None,
            },
            health: self.health,
            module: match self.module {
                Some(m) => Some(m@),
                None => None,
            },
        }
    }
}

/// The entities of a world that carry [`Components`], by handle.
pub uninterp spec fn world_entities(world: hecs::World) -> Map<u64, ComponentsView>;

/// The model of a world without entities.
pub open spec fn no_entities() -> Map<u64, ComponentsView> {
    Map::empty()
}

/// `World::new`: a world without entities.
#[verifier::external_body]
pub(crate) fn world_new() -> (world: hecs::World)
    ensures
        world_entities(world) == no_entities(),
{
    hecs::World::new()
}

/// `World::spawn` with `Entity::to_bits`: a new entity that carries
/// `components`, under a handle that no entity of the world had.
#[verifier::external_body]
pub(crate) fn world_spawn(world: &mut hecs::World, components: Components) -> (id: u64)
    ensures
        !world_entities(*old(world)).dom().contains(id),
        world_entities(*final(world)) == world_entities(*old(world)).insert(id, components@),
{
    world.spawn((components,)).to_bits().get()
}

/// `World::despawn` after `Entity::from_bits`: the entity is gone, if there
/// was one. Returns whether the handle named a live entity.
#[verifier::external_body]
pub(crate) fn world_despawn(world: &mut hecs::World, id: u64) -> (found: bool)
    ensures
        world_entities(*old(world)).dom().contains(id) ==> found,
        world_entities(*final(world)) == world_entities(*old(world)).remove(id),
{
    hecs::Entity::from_bits(id).is_some_and(|entity| world.despawn(entity).is_ok())
}

/// `World::query` over [`Components`]: the handle of every entity, each once,
/// in no particular order.
#[verifier::external_body]
pub(crate) fn world_handles(world: &hecs::World) -> (ids: Vec<u64>)
    ensures
        ids@.no_duplicates(),
        ids@.to_set() == world_entities(*world).dom(),
{
    world.query::<&Components>().iter().map(|(entity, _)| entity.to_bits().get()).collect()
}

/// `World::query_one_mut` after `Entity::from_bits`: the components of one
/// entity, to read and to change, or `None` where the world has no such
/// entity. What the caller leaves in them is what the world then holds.
#[verifier::external_body]
pub(crate) fn world_components(world: &mut hecs::World, id: u64) -> (found: Option<&mut Components>)
    ensures
        found is Some == world_entities(*old(world)).dom().contains(id),
        found is Some ==> found->0@ == world_entities(*old(world))[id],
        found is Some ==> world_entities(*final(world)) == world_entities(*old(world)).insert(
            id,
            final(found->0)@,
        ),
        found is None ==> world_entities(*final(world)) == world_entities(*old(world)),
{
    hecs::Entity::from_bits(id).and_then(|entity| world.query_one_mut::<&mut Components>(entity).ok())
}

/// The model of an entity that carries nothing.
pub open spec fn nothing() -> ComponentsView {
    ComponentsView {
        task: None,
        state: None,
        transfer: None,
        session: None,
        stream: None,
        health: None,
        module: None,
    }
}

impl Components {
    /// An entity that carries nothing.
    pub fn empty() -> (components: Components)
        ensures
            components@ == nothing(),
    {
        Components {
            task: None,
            state: None,
            transfer: None,
            session: None,
            stream: None,
            health: None,
            module: None,
        }
    }
}

/// A world without entities.
pub fn new_world() -> (world: hecs::World)
    ensures
        world_entities(world) == no_entities(),
{
    world_new()
}

/// Adds an entity that carries `components`. Returns its handle, which no
/// entity of the world had.
pub fn spawn(world: &mut hecs::World, components: Components) -> (id: u64)
    ensures
        !world_entities(*old(world)).dom().contains(id),
        world_entities(*final(world)) == world_entities(*old(world)).insert(id, components@),
{
    world_spawn(world, components)
}

/// Adds a module. Returns its handle.
pub fn spawn_module(world: &mut hecs::World, module: Module) -> (id: u64)
    ensures
        !world_entities(*old(world)).dom().contains(id),
        world_entities(*final(world)) == world_entities(*old(world)).insert(
            id,
            ComponentsView { module: Some(module@), ..nothing() },
        ),
{
    let mut components = Components::empty();
    components.module = Some(module);
    world_spawn(world, components)
}

/// Adds a task, Queued and bound to no device. Returns its handle.
pub fn spawn_task(world: &mut hecs::World, task: Task) -> (id: u64)
    ensures
        !world_entities(*old(world)).dom().contains(id),
        world_entities(*final(world)) == world_entities(*old(world)).insert(
            id,
            ComponentsView {
                task: Some(task@),
                state: Some(
                    TaskState {
                        phase: TaskStatePhase::Queued,
                        assigned_device: None,
                        deadline: None,
                    },
                ),
                ..nothing()
            },
        ),
{
    let mut components = Components::empty();
    components.task = Some(task);
    components.state = Some(
        TaskState { phase: TaskStatePhase::Queued, assigned_device: None, deadline: None },
    );
    world_spawn(world, components)
}

/// The handles of all entities, lowest first.
pub fn handles(world: &hecs::World) -> (ids: Vec<u64>)
    ensures
        ids@.no_duplicates(),
        ids@.to_set() == world_entities(*world).dom(),
        forall|i: int, j: int| 0 <= i < j < ids@.len() ==> ids@[i] < ids@[j],
{
    let mut rest = world_handles(world);
    let mut ids: Vec<u64> = Vec::new();
    let ghost all = rest@;
    while rest.len() > 0
        invariant
            rest@.no_duplicates(),
            ids@.no_duplicates(),
            forall|x: u64| all.contains(x) <==> rest@.contains(x) || ids@.contains(x),
            forall|i: int, j: int| 0 <= i < ids@.len() && 0 <= j < rest@.len() ==> ids@[i] < rest@[j],
            forall|i: int, j: int| 0 <= i < j < ids@.len() ==> ids@[i] < ids@[j],
        decreases rest.len(),
    {
        let ghost before_rest = rest@;
        let ghost before_ids = ids@;
        let id = take_least(&mut rest);
        ids.push(id);
        proof {
            assert forall|x: u64| all.contains(x) <==> rest@.contains(x) || ids@.contains(x) by {
                if before_rest.contains(x) {
                    if x == id {
                        assert(ids@[before_ids.len() as int] == x);
                    } else {
                        assert(before_rest.to_set().remove(id).contains(x));
                        assert(rest@.to_set().contains(x));
                    }
                }
                if before_ids.contains(x) {
                    let k = choose|k: int| 0 <= k < before_ids.len() && before_ids[k] == x;
                    assert(ids@[k] == x);
                }
                if rest@.contains(x) {
                    assert(rest@.to_set().contains(x));
                    assert(before_rest.to_set().contains(x));
                }
                if ids@.contains(x) {
                    let k = choose|k: int| 0 <= k < ids@.len() && ids@[k] == x;
                    if k < before_ids.len() {
                        assert(before_ids[k] == x);
                    } else {
                        assert(before_rest.to_set().contains(id));
                    }
                }
            }
            assert forall|i: int, j: int|
                0 <= i < ids@.len() && 0 <= j < rest@.len() implies ids@[i] < rest@[j] by {
                assert(rest@.to_set().contains(rest@[j]));
                assert(before_rest.to_set().contains(rest@[j]));
                let k = choose|k: int| 0 <= k < before_rest.len() && before_rest[k] == rest@[j];
                if i < before_ids.len() {
                    assert(ids@[i] == before_ids[i]);
                } else {
                    assert(id <= rest@[j]);
                    assert(rest@[j] != id);
                }
            }
            assert forall|i: int, j: int| 0 <= i < j < ids@.len() implies ids@[i] < ids@[j] by {
                if j == before_ids.len() {
                    assert(ids@[i] == before_ids[i]);
                    assert(before_rest.to_set().contains(id));
                    let k = choose|k: int| 0 <= k < before_rest.len() && before_rest[k] == id;
                    assert(before_ids[i] < before_rest[k]);
                } else {
                    assert(ids@[i] == before_ids[i] && ids@[j] == before_ids[j]);
                }
            }
            assert forall|i: int, j: int|
                0 <= i < ids@.len() && 0 <= j < ids@.len() && i != j implies ids@[i] != ids@[j] by {
                if i < j {
                    assert(ids@[i] < ids@[j]);
                } else {
                    assert(ids@[j] < ids@[i]);
                }
            }
        }
    }
    proof {
        assert forall|x: u64| ids@.to_set().contains(x) == world_entities(*world).dom().contains(
            x,
        ) by {
            assert(all.to_set().contains(x) == all.contains(x));
            if rest@.contains(x) {
                let k = choose|k: int| 0 <= k < rest@.len() && rest@[k] == x;
            }
        }
        assert(ids@.to_set() =~= world_entities(*world).dom());
    }
    ids
}

} // verus!
