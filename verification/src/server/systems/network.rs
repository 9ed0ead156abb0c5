//! Between the channels and the world: what the devices sent is decoded and
//! applied, and what they are to get is encoded.
//!
//! Reading from and writing to a channel is left to the caller, who hands the
//! bytes read to [`NetworkSystem::receive`] and reports the bytes written to
//! [`NetworkSystem::written`]. Times are nanoseconds on the dispatcher's
//! clock.

use crate::buffer::{buffer_advance, buffer_bytes, buffer_extend, buffer_len, buffer_slice};
use crate::protocol::codec::{decoded, frame, payload, MAX_PAYLOAD};
use crate::protocol::{
    clone_names, contains_name, messages_view, AckInfo, AckInfoView, Error, Message, MessageView,
    Type,
};
use crate::server::components::{
    ModuleTransferState, ModuleTransferView, SessionHealth, SessionStatus, SessionStreamView,
    SessionView, TaskState, TaskStatePhase, TaskView,
};
use crate::server::systems::pass::{lemma_visit_done, lemma_visit_step, take_least, visit, visit_all};
use crate::server::systems::schedule::{has_module, module_of};
use crate::server::world::{world_components, world_entities, world_handles, ComponentsView};
use std::collections::VecDeque;
use vstd::prelude::*;

verus! {

/// Reads and writes on behalf of the sessions.
pub struct NetworkSystem;

/// Whether entity `id` is a session with buffers.
pub open spec fn is_session(entities: Map<u64, ComponentsView>, id: u64) -> bool {
    &&& entities.dom().contains(id)
    &&& entities[id].session is Some
    &&& entities[id].stream is Some
    &&& entities[id].health is Some
}

/// The time from `sent` to `now`, or nothing where `sent` is ahead.
pub open spec fn latency(now: u64, sent: u64) -> u64 {
    if now >= sent {
        (now - sent) as u64
    } else {
        0
    }
}

/// The session's entity with its list of cached modules replaced.
pub open spec fn with_modules(components: ComponentsView, modules: Seq<Seq<char>>) -> ComponentsView {
    ComponentsView {
        session: Some(SessionView { modules, ..components.session->0 }),
        ..components
    }
}

/// The session's entity after a message arrived at `now`.
pub open spec fn heard(components: ComponentsView, now: u64) -> ComponentsView {
    ComponentsView {
        health: Some(SessionHealth { last_heartbeat: now, ..components.health->0 }),
        ..components
    }
}

/// The world after the transfer of task `task` took an acknowledgment. A
/// confirmed or refused chunk sets or clears its bit, if the transfer has
/// such a chunk. An answer to the advertisement makes the transfer
/// Requested, and marks every chunk where the device caches the module.
/// An entity that is no task in transfer takes nothing.
pub open spec fn acknowledged(
    entities: Map<u64, ComponentsView>,
    task: u64,
    ack: AckInfoView,
) -> Map<u64, ComponentsView> {
    if !(entities.dom().contains(task) && entities[task].task is Some
        && entities[task].transfer is Some) {
        entities
    } else {
        let transfer = entities[task].transfer->0;
        let after = match ack {
            AckInfoView::Module { chunk_index, success } => if chunk_index
                < transfer.acked_chunks.len() {
                ModuleTransferView {
                    acked_chunks: transfer.acked_chunks.update(chunk_index as int, success),
                    ..transfer
                }
            } else {
                transfer
            },
            AckInfoView::Task { modules } => ModuleTransferView {
                state: ModuleTransferState::Requested,
                acked_chunks: if has_module(entities, task) && modules.contains(
                    module_of(entities, task).name,
                ) {
                    Seq::new(transfer.acked_chunks.len(), |i: int| true)
                } else {
                    transfer.acked_chunks
                },
                ..transfer
            },
        };
        entities.insert(task, ComponentsView { transfer: Some(after), ..entities[task] })
    }
}

/// The world after task `task` reported its result: the result is kept, the
/// task is Completed and has no transfer record any more, and its device
/// gets an acknowledgment queued. An entity that is no task takes nothing.
pub open spec fn completed(
    entities: Map<u64, ComponentsView>,
    task: u64,
    result: Seq<Type>,
) -> Map<u64, ComponentsView> {
    if !(entities.dom().contains(task) && entities[task].task is Some && entities[task].state
        is Some) {
        entities
    } else {
        let done = entities.insert(
            task,
            ComponentsView {
                task: Some(TaskView { result, ..entities[task].task->0 }),
                state: Some(
                    TaskState { phase: TaskStatePhase::Completed, ..entities[task].state->0 },
                ),
                transfer: None,
                ..entities[task]
            },
        );
        match entities[task].state->0.assigned_device {
            Some(device) => if done.dom().contains(device) && done[device].session is Some {
                let session = done[device].session->0;
                done.insert(
                    device,
                    ComponentsView {
                        session: Some(
                            SessionView {
                                message_queue: session.message_queue.push(
                                    MessageView::ServerAck { task_id: task, success: true },
                                ),
                                ..session
                            },
                        ),
                        ..done[device]
                    },
                )
            } else {
                done
            },
            None => done,
        }
    }
}

/// The world after session `id` sent `message`, which arrived at `now`.
///
/// A heartbeat gives the latency. A readiness report from a Connected
/// session replaces its cached modules and its RAM. An acknowledgment from
/// an Occupied session goes to the task's transfer, and an answer to an
/// advertisement also replaces the session's cached modules. A result from an
/// Occupied session completes the task and makes the session Connected.
/// Every message counts as a sign of life.
pub open spec fn routed(
    entities: Map<u64, ComponentsView>,
    id: u64,
    message: MessageView,
    now: u64,
) -> Map<u64, ComponentsView> {
    let status = entities[id].health->0.status;
    let applied = match message {
        MessageView::Heartbeat { timestamp } => entities.insert(
            id,
            ComponentsView {
                session: Some(
                    SessionView { latency: latency(now, timestamp), ..entities[id].session->0 },
                ),
                ..entities[id]
            },
        ),
        MessageView::ClientReady { modules, device_ram } => if status == SessionStatus::Connected {
            entities.insert(
                id,
                ComponentsView {
                    session: Some(SessionView { modules, device_ram, ..entities[id].session->0 }),
                    ..entities[id]
                },
            )
        } else {
            entities
        },
        MessageView::ClientAck { task_id, ack_info } => if status == SessionStatus::Occupied {
            let listed = match ack_info {
                AckInfoView::Task { modules } => entities.insert(
                    id,
                    with_modules(entities[id], modules),
                ),
                AckInfoView::Module { .. } => entities,
            };
            acknowledged(listed, task_id, ack_info)
        } else {
            entities
        },
        MessageView::ClientResult { task_id, result } => if status == SessionStatus::Occupied {
            let freed = entities.insert(
                id,
                ComponentsView {
                    health: Some(
                        SessionHealth { status: SessionStatus::Connected, ..entities[id].health->0 },
                    ),
                    ..entities[id]
                },
            );
            completed(freed, task_id, result)
        } else {
            entities
        },
        _ => entities,
    };
    applied.insert(id, heard(applied[id], now))
}

impl NetworkSystem {
    /// Applies an acknowledgment to the transfer of task `task`.
    pub fn acknowledge(world: &mut hecs::World, task: u64, ack: &AckInfo)
        ensures
            world_entities(*final(world)) == acknowledged(world_entities(*old(world)), task, ack@),
    {
        let ghost before = world_entities(*world);
        match ack {
            AckInfo::Module { chunk_index, success } => {
                match world_components(world, task) {
                    Some(c) => {
                        if c.task.is_some() {
                            match &mut c.transfer {
                                Some(transfer) => {
                                    transfer.acked_chunks.set(*chunk_index as usize, *success);
                                },
                                None => {},
                            }
                        }
                    },
                    None => {},
                }
                assert(world_entities(*world) =~= acknowledged(before, task, ack@));
            },
            AckInfo::Task { modules } => {
                let mut module_entity: Option<u64> = None;
                let mut in_transfer = false;
                match world_components(world, task) {
                    Some(c) => match &c.task {
                        Some(t) => {
                            if c.transfer.is_some() {
                                in_transfer = true;
                                module_entity = Some(t.require_module);
                            }
                        },
                        None => {},
                    },
                    None => {},
                }
                assert(world_entities(*world) =~= before);
                if !in_transfer {
                    return ;
                }
                let mut cached = false;
                match module_entity {
                    Some(m) => match world_components(world, m) {
                        Some(c) => match &c.module {
                            Some(module) => {
                                cached = contains_name(modules, &module.name);
                            },
                            None => {},
                        },
                        None => {},
                    },
                    None => {},
                }
                assert(world_entities(*world) =~= before);
                match world_components(world, task) {
                    Some(c) => match &mut c.transfer {
                        Some(transfer) => {
                            transfer.state = ModuleTransferState::Requested;
                            if cached {
                                transfer.acked_chunks.fill(true);
                            }
                        },
                        None => {},
                    },
                    None => {},
                }
                assert(world_entities(*world) =~= acknowledged(before, task, ack@));
            },
        }
    }

    /// Keeps the result of task `task`, completes it, drops its transfer
    /// record, and queues the acknowledgment for its device.
    pub fn complete(world: &mut hecs::World, task: u64, result: Vec<Type>)
        ensures
            world_entities(*final(world)) == completed(world_entities(*old(world)), task, result@),
    {
        let ghost before = world_entities(*world);
        let mut device: Option<u64> = None;
        let mut done = false;
        match world_components(world, task) {
            Some(c) => {
                if c.task.is_some() && c.state.is_some() {
                    done = true;
                    match &mut c.task {
                        Some(t) => {
                            t.result = result;
                        },
                        None => {},
                    }
                    match &mut c.state {
                        Some(state) => {
                            device = state.assigned_device;
                            state.phase = TaskStatePhase::Completed;
                        },
                        None => {},
                    }
                    c.transfer = None;
                }
            },
            None => {},
        }
        if !done {
            assert(world_entities(*world) =~= before);
            return ;
        }
        match device {
            Some(d) => match world_components(world, d) {
                Some(c) => match &mut c.session {
                    Some(session) => {
                        let ghost queue = session.message_queue@;
                        let message = Message::ServerAck { task_id: task, success: true };
                        session.message_queue.push_back(message);
                        assert(messages_view(session.message_queue@) =~= messages_view(queue).push(
                            message@,
                        ));
                    },
                    None => {},
                },
                None => {},
            },
            None => {},
        }
        assert(world_entities(*world) =~= completed(before, task, result@));
    }

    /// Applies a message that session `id` sent and that arrived at `now`.
    pub fn route(world: &mut hecs::World, id: u64, message: Message, now: u64)
        requires
            is_session(world_entities(*old(world)), id),
        ensures
            world_entities(*final(world)) == routed(world_entities(*old(world)), id, message@, now),
    {
        let ghost before = world_entities(*world);
        let mut status = SessionStatus::Disconnected;
        match world_components(world, id) {
            Some(c) => match &c.health {
                Some(health) => {
                    status = health.status;
                },
                None => {},
            },
            None => {},
        }
        assert(world_entities(*world) =~= before);
        match message {
            Message::Heartbeat { timestamp } => {
                let elapsed = if now >= timestamp {
                    now - timestamp
                } else {
                    0
                };
                match world_components(world, id) {
                    Some(c) => match &mut c.session {
                        Some(session) => {
                            session.latency = elapsed;
                        },
                        None => {},
                    },
                    None => {},
                }
            },
            Message::ClientReady { modules, device_ram } => {
                if status == SessionStatus::Connected {
                    match world_components(world, id) {
                        Some(c) => match &mut c.session {
                            Some(session) => {
                                session.modules = modules;
                                session.device_ram = device_ram;
                            },
                            None => {},
                        },
                        None => {},
                    }
                }
            },
            Message::ClientAck { task_id, ack_info } => {
                if status == SessionStatus::Occupied {
                    match &ack_info {
                        AckInfo::Task { modules } => {
                            let copy = clone_names(modules);
                            match world_components(world, id) {
                                Some(c) => match &mut c.session {
                                    Some(session) => {
                                        session.modules = copy;
                                    },
                                    None => {},
                                },
                                None => {},
                            }
                        },
                        AckInfo::Module { .. } => {},
                    }
                    NetworkSystem::acknowledge(world, task_id, &ack_info);
                }
            },
            Message::ClientResult { task_id, result } => {
                if status == SessionStatus::Occupied {
                    match world_components(world, id) {
                        Some(c) => match &mut c.health {
                            Some(health) => {
                                health.status = SessionStatus::Connected;
                            },
                            None => {},
                        },
                        None => {},
                    }
                    NetworkSystem::complete(world, task_id, result);
                }
            },
            _ => {},
        }
        match world_components(world, id) {
            Some(c) => match &mut c.health {
                Some(health) => {
                    health.last_heartbeat = now;
                },
                None => {},
            },
            None => {},
        }
        assert(world_entities(*world) =~= routed(before, id, message@, now));
    }
}

/// The world with the incoming buffer of session `id` replaced.
pub open spec fn with_incoming(
    entities: Map<u64, ComponentsView>,
    id: u64,
    bytes: Seq<u8>,
) -> Map<u64, ComponentsView> {
    entities.insert(
        id,
        ComponentsView {
            stream: Some(SessionStreamView { incoming: bytes, ..entities[id].stream->0 }),
            ..entities[id]
        },
    )
}

/// The world after session `id` was given up on, because its channel failed
/// or closed or because it keeps sending what is no message: the session is
/// Disconnected.
pub open spec fn disconnected(entities: Map<u64, ComponentsView>, id: u64) -> Map<
    u64,
    ComponentsView,
> {
    if entities.dom().contains(id) && entities[id].health is Some {
        entities.insert(
            id,
            ComponentsView {
                health: Some(
                    SessionHealth { status: SessionStatus::Disconnected, ..entities[id].health->0 },
                ),
                ..entities[id]
            },
        )
    } else {
        entities
    }
}

/// The world after the frames at the start of `buffer`, which is the
/// incoming buffer of session `id`, were taken out one by one. The message of
/// a frame is applied. A frame whose payload is no single message is
/// dropped; the second such frame in one pass, `failures` counting those
/// before, ends the pass for the session and marks it as Disconnected.
/// Otherwise what is left in the buffer is the start of a frame that has not
/// arrived in full.
pub open spec fn drain_from(
    entities: Map<u64, ComponentsView>,
    id: u64,
    buffer: Seq<u8>,
    now: u64,
    failures: nat,
) -> Map<u64, ComponentsView>
    decreases buffer.len(),
{
    match decoded(buffer) {
        Ok((message, consumed)) => if 0 < consumed <= buffer.len() {
            drain_from(
                routed(with_incoming(entities, id, buffer.skip(consumed as int)), id, message, now),
                id,
                buffer.skip(consumed as int),
                now,
                failures,
            )
        } else {
            entities
        },
        Err(Error::InsufficientData) => entities,
        Err(_) => {
            let size = 2 + crate::protocol::wire::be_value(buffer.subrange(0, 2));
            if buffer.len() >= 2 && size <= buffer.len() {
                let dropped = with_incoming(entities, id, buffer.skip(size as int));
                if failures >= 1 {
                    disconnected(dropped, id)
                } else {
                    drain_from(dropped, id, buffer.skip(size as int), now, failures + 1)
                }
            } else {
                entities
            }
        },
    }
}

/// The world after everything that session `id` has received in full was
/// applied. An entity that is no session changes nothing.
pub open spec fn drained(entities: Map<u64, ComponentsView>, id: u64, now: u64) -> Map<
    u64,
    ComponentsView,
> {
    if is_session(entities, id) {
        drain_from(entities, id, entities[id].stream->0.incoming, now, 0)
    } else {
        entities
    }
}

/// A message changes no buffer and leaves the sender a session.
pub proof fn lemma_routed_keeps_streams(
    entities: Map<u64, ComponentsView>,
    id: u64,
    message: MessageView,
    now: u64,
)
    requires
        is_session(entities, id),
    ensures
        is_session(routed(entities, id, message, now), id),
        routed(entities, id, message, now)[id].stream == entities[id].stream,
{
}

/// What one step of draining did.
enum Drained {
    /// A message was taken out of the buffer.
    Message(Message),
    /// A frame that held no single message was dropped.
    Dropped,
    /// The buffer holds no complete frame.
    Nothing,
}

impl NetworkSystem {
    /// Takes the first frame out of the incoming buffer of session `id`.
    fn take_frame(world: &mut hecs::World, id: u64) -> (step: Drained)
        requires
            is_session(world_entities(*old(world)), id),
        ensures
            ({
                let before = world_entities(*old(world));
                let buffer = before[id].stream->0.incoming;
                let size = 2 + crate::protocol::wire::be_value(buffer.subrange(0, 2));
                match step {
                    Drained::Message(message) => {
                        &&& decoded(buffer) matches Ok((m, consumed))
                        &&& m == message@
                        &&& 0 < consumed <= buffer.len()
                        &&& world_entities(*final(world)) == with_incoming(
                            before,
                            id,
                            buffer.skip(consumed as int),
                        )
                    },
                    Drained::Dropped => {
                        &&& decoded(buffer) is Err
                        &&& decoded(buffer) != Err::<(MessageView, nat), Error>(
                            Error::InsufficientData,
                        )
                        &&& buffer.len() >= 2
                        &&& size <= buffer.len()
                        &&& world_entities(*final(world)) == with_incoming(
                            before,
                            id,
                            buffer.skip(size as int),
                        )
                    },
                    Drained::Nothing => {
                        &&& decoded(buffer) == Err::<(MessageView, nat), Error>(
                            Error::InsufficientData,
                        )
                        &&& world_entities(*final(world)) == before
                    },
                }
            }),
    {
        let ghost before = world_entities(*world);
        let mut step = Drained::Nothing;
        match world_components(world, id) {
            Some(c) => match &mut c.stream {
                Some(stream) => {
                    let slice = buffer_slice(&stream.incoming);
                    match Message::decode(slice) {
                        Ok((message, consumed)) => {
                            buffer_advance(&mut stream.incoming, consumed);
                            step = Drained::Message(message);
                        },
                        Err(Error::InsufficientData) => {},
                        Err(_) => {
                            match Message::frame_size(slice) {
                                Some(size) => {
                                    buffer_advance(&mut stream.incoming, size);
                                    step = Drained::Dropped;
                                },
                                None => {},
                            }
                        },
                    }
                },
                None => {},
            },
            None => {},
        }
        proof {
            let buffer = before[id].stream->0.incoming;
            match step {
                Drained::Message(_) => {
                    let consumed = decoded(buffer)->Ok_0.1;
                    assert(world_entities(*world) =~= with_incoming(
                        before,
                        id,
                        buffer.skip(consumed as int),
                    ));
                },
                Drained::Dropped => {
                    let size = 2 + crate::protocol::wire::be_value(buffer.subrange(0, 2));
                    assert(world_entities(*world) =~= with_incoming(
                        before,
                        id,
                        buffer.skip(size as int),
                    ));
                },
                Drained::Nothing => {
                    assert(world_entities(*world) =~= before);
                },
            }
        }
        step
    }

    /// Applies everything that session `id` has received in full.
    pub fn drain(world: &mut hecs::World, id: u64, now: u64)
        ensures
            world_entities(*final(world)) == drained(world_entities(*old(world)), id, now),
    {
        let ghost before = world_entities(*world);
        let mut left: usize = 0;
        let mut session = false;
        match world_components(world, id) {
            Some(c) => {
                if c.session.is_some() && c.health.is_some() {
                    match &c.stream {
                        Some(stream) => {
                            session = true;
                            left = buffer_len(&stream.incoming);
                        },
                        None => {},
                    }
                }
            },
            None => {},
        }
        assert(world_entities(*world) =~= before);
        if !session {
            return ;
        }
        let mut failures: u8 = 0;
        loop
            invariant_except_break
                left == world_entities(*world)[id].stream->0.incoming.len(),
                drain_from(
                    world_entities(*world),
                    id,
                    world_entities(*world)[id].stream->0.incoming,
                    now,
                    failures as nat,
                ) == drained(before, id, now),
            invariant
                is_session(world_entities(*world), id),
                failures <= 1,
            ensures
                world_entities(*world) == drained(before, id, now),
            decreases left,
        {
            let ghost current = world_entities(*world);
            let ghost buffer = current[id].stream->0.incoming;
            match NetworkSystem::take_frame(world, id) {
                Drained::Message(message) => {
                    let ghost taken = world_entities(*world);
                    let ghost consumed = decoded(buffer)->Ok_0.1;
                    proof {
                        lemma_routed_keeps_streams(taken, id, message@, now);
                        assert(drain_from(current, id, buffer, now, failures as nat) == drain_from(
                            routed(taken, id, message@, now),
                            id,
                            buffer.skip(consumed as int),
                            now,
                            failures as nat,
                        ));
                        assert(taken[id].stream->0.incoming == buffer.skip(consumed as int));
                    }
                    NetworkSystem::route(world, id, message, now);
                },
                Drained::Dropped => {
                    if failures >= 1 {
                        let ghost dropped = world_entities(*world);
                        NetworkSystem::disconnect(world, id);
                        proof {
                            assert(drain_from(current, id, buffer, now, 1) == disconnected(
                                dropped,
                                id,
                            ));
                        }
                        break ;
                    }
                    proof {
                        let size = 2 + crate::protocol::wire::be_value(buffer.subrange(0, 2));
                        assert(drain_from(current, id, buffer, now, 0) == drain_from(
                            world_entities(*world),
                            id,
                            buffer.skip(size as int),
                            now,
                            1,
                        ));
                    }
                    failures = 1;
                },
                Drained::Nothing => {
                    proof {
                        assert(drain_from(current, id, buffer, now, failures as nat) == current);
                    }
                    break ;
                },
            }
            let ghost stepped = world_entities(*world);
            match world_components(world, id) {
                Some(c) => match &c.stream {
                    Some(stream) => {
                        left = buffer_len(&stream.incoming);
                    },
                    None => {},
                },
                None => {},
            }
            assert(world_entities(*world) =~= stepped);
        }
    }
}

/// The frames of the messages of a queue, one after another; a message too
/// long for a frame is left out.
pub open spec fn frames(queue: Seq<MessageView>) -> Seq<u8>
    decreases queue.len(),
{
    if queue.len() == 0 {
        Seq::empty()
    } else {
        frames(queue.drop_last()) + if payload(queue.last()).len() <= MAX_PAYLOAD {
            frame(queue.last())
        } else {
            Seq::empty()
        }
    }
}

/// The world after the queue of session `id` was encoded: the queue is
/// empty and its frames stand at the end of the outgoing buffer. An entity
/// that is no session changes nothing.
pub open spec fn flushed(entities: Map<u64, ComponentsView>, id: u64) -> Map<u64, ComponentsView> {
    if is_session(entities, id) && entities[id].stream->0.outgoing.len() + frames(
        entities[id].session->0.message_queue,
    ).len() <= usize::MAX {
        let session = entities[id].session->0;
        let stream = entities[id].stream->0;
        entities.insert(
            id,
            ComponentsView {
                session: Some(SessionView { message_queue: Seq::empty(), ..session }),
                stream: Some(
                    SessionStreamView {
                        outgoing: stream.outgoing + frames(session.message_queue),
                        ..stream
                    },
                ),
                ..entities[id]
            },
        )
    } else {
        entities
    }
}

/// The world after bytes arrived for session `id`: they stand at the end of
/// its incoming buffer.
pub open spec fn received(entities: Map<u64, ComponentsView>, id: u64, data: Seq<u8>) -> Map<
    u64,
    ComponentsView,
> {
    if entities.dom().contains(id) && entities[id].stream is Some
        && entities[id].stream->0.incoming.len() + data.len() <= usize::MAX {
        with_incoming(entities, id, entities[id].stream->0.incoming + data)
    } else {
        entities
    }
}

/// A counter after one more failure; it stops at 255.
pub open spec fn one_more(retries: u8) -> u8 {
    if retries < u8::MAX {
        (retries + 1) as u8
    } else {
        retries
    }
}

/// The world after an attempt to write the outgoing buffer of session `id`.
/// Bytes that were written leave the buffer and the failures are forgotten;
/// a failed write counts as one more failure.
pub open spec fn after_write(
    entities: Map<u64, ComponentsView>,
    id: u64,
    outcome: Option<usize>,
) -> Map<u64, ComponentsView> {
    if !(entities.dom().contains(id) && entities[id].stream is Some && entities[id].health
        is Some) {
        entities
    } else {
        let stream = entities[id].stream->0;
        let health = entities[id].health->0;
        match outcome {
            Some(count) => entities.insert(
                id,
                ComponentsView {
                    stream: Some(
                        SessionStreamView {
                            outgoing: if count <= stream.outgoing.len() {
                                stream.outgoing.skip(count as int)
                            } else {
                                Seq::empty()
                            },
                            ..stream
                        },
                    ),
                    health: Some(SessionHealth { retries: 0, ..health }),
                    ..entities[id]
                },
            ),
            None => entities.insert(
                id,
                ComponentsView {
                    health: Some(SessionHealth { retries: one_more(health.retries), ..health }),
                    ..entities[id]
                },
            ),
        }
    }
}

/// The frames of the messages of a queue.
pub fn encode_all(queue: &VecDeque<Message>) -> (bytes: Vec<u8>)
    ensures
        bytes@ == frames(messages_view(queue@)),
{
    let mut bytes: Vec<u8> = Vec::new();
    let mut i: usize = 0;
    let ghost all = messages_view(queue@);
    assert(all.take(0) =~= Seq::<MessageView>::empty());
    while i < queue.len()
        invariant
            i <= queue.len(),
            all == messages_view(queue@),
            bytes@ == frames(all.take(i as int)),
        decreases queue.len() - i,
    {
        proof {
            assert(all.take(i + 1).drop_last() =~= all.take(i as int));
            assert(all.take(i + 1).last() == queue@[i as int]@);
        }
        match queue[i].encode() {
            Ok(encoded) => {
                crate::protocol::wire::append(&mut bytes, encoded.as_slice());
            },
            Err(_) => {
                assert(bytes@ + Seq::<u8>::empty() =~= bytes@);
            },
        }
        i += 1;
    }
    assert(all.take(queue.len() as int) =~= all);
    bytes
}

impl NetworkSystem {
    /// The inbound pass: for every session, by ascending handle, everything
    /// that it has received in full is applied.
    pub fn process_inbound(world: &mut hecs::World, now: u64)
        ensures
            world_entities(*final(world)) == visit_all(
                world_entities(*old(world)),
                |entities: Map<u64, ComponentsView>, id: u64| drained(entities, id, now),
            ),
    {
        let ghost before = world_entities(*world);
        let ghost rule = |entities: Map<u64, ComponentsView>, id: u64| drained(entities, id, now);
        let mut ids = world_handles(world);
        proof {
            vstd::seq_lib::seq_to_set_is_finite(ids@);
        }
        while ids.len() > 0
            invariant
                ids@.no_duplicates(),
                forall|entities: Map<u64, ComponentsView>, id: u64| #[trigger]
                    rule(entities, id) == drained(entities, id, now),
                visit(world_entities(*world), ids@.to_set(), rule) == visit_all(before, rule),
            decreases ids.len(),
        {
            let ghost remaining = ids@.to_set();
            let ghost current = world_entities(*world);
            proof {
                vstd::seq_lib::seq_to_set_is_finite(ids@);
            }
            let id = take_least(&mut ids);
            proof {
                lemma_visit_step(current, remaining, rule, id);
            }
            NetworkSystem::drain(world, id, now);
        }
        proof {
            assert(ids@.to_set() =~= Set::<u64>::empty());
            lemma_visit_done(world_entities(*world), rule);
        }
    }

    /// The bytes that session `id` has to send, for the caller to write.
    pub fn pending(world: &mut hecs::World, id: u64) -> (bytes: Vec<u8>)
        ensures
            world_entities(*final(world)) == world_entities(*old(world)),
            bytes@ == if world_entities(*old(world)).dom().contains(id) && world_entities(
                *old(world),
            )[id].stream is Some {
                world_entities(*old(world))[id].stream->0.outgoing
            } else {
                Seq::empty()
            },
    {
        let ghost before = world_entities(*world);
        let mut bytes: Vec<u8> = Vec::new();
        match world_components(world, id) {
            Some(c) => match &c.stream {
                Some(stream) => {
                    bytes = crate::protocol::clone_bytes(buffer_slice(&stream.outgoing));
                },
                None => {},
            },
            None => {},
        }
        assert(world_entities(*world) =~= before);
        bytes
    }

    /// Takes bytes that arrived for session `id`. Returns whether they were
    /// taken, which they are unless there is no such session.
    pub fn receive(world: &mut hecs::World, id: u64, data: &[u8]) -> (taken: bool)
        ensures
            world_entities(*final(world)) == received(world_entities(*old(world)), id, data@),
            taken == (world_entities(*old(world)).dom().contains(id) && world_entities(
                *old(world),
            )[id].stream is Some && world_entities(*old(world))[id].stream->0.incoming.len()
                + data@.len() <= usize::MAX),
    {
        let ghost before = world_entities(*world);
        let mut taken = false;
        match world_components(world, id) {
            Some(c) => match &mut c.stream {
                Some(stream) => {
                    if data.len() <= usize::MAX - buffer_len(&stream.incoming) {
                        buffer_extend(&mut stream.incoming, data);
                        taken = true;
                    }
                },
                None => {},
            },
            None => {},
        }
        assert(world_entities(*world) =~= received(before, id, data@));
        taken
    }

    /// Marks session `id` as Disconnected, after its channel failed or
    /// closed.
    pub fn disconnect(world: &mut hecs::World, id: u64)
        ensures
            world_entities(*final(world)) == disconnected(world_entities(*old(world)), id),
    {
        let ghost before = world_entities(*world);
        match world_components(world, id) {
            Some(c) => match &mut c.health {
                Some(health) => {
                    health.status = SessionStatus::Disconnected;
                },
                None => {},
            },
            None => {},
        }
        assert(world_entities(*world) =~= disconnected(before, id));
    }

    /// Encodes the queue of session `id` into its outgoing buffer.
    pub fn flush(world: &mut hecs::World, id: u64)
        ensures
            world_entities(*final(world)) == flushed(world_entities(*old(world)), id),
    {
        let ghost before = world_entities(*world);
        match world_components(world, id) {
            Some(c) => {
                if c.health.is_some() {
                    match &mut c.session {
                        Some(session) => match &mut c.stream {
                            Some(stream) => {
                                let bytes = encode_all(&session.message_queue);
                                if bytes.len() <= usize::MAX - buffer_len(&stream.outgoing) {
                                    buffer_extend(&mut stream.outgoing, bytes.as_slice());
                                    session.message_queue.clear();
                                    assert(messages_view(session.message_queue@) =~= Seq::<
                                        MessageView,
                                    >::empty());
                                }
                            },
                            None => {},
                        },
                        None => {},
                    }
                }
            },
            None => {},
        }
        assert(world_entities(*world) =~= flushed(before, id));
    }

    /// The outbound pass: the queue of every session is encoded into its
    /// outgoing buffer.
    pub fn process_outbound(world: &mut hecs::World)
        ensures
            world_entities(*final(world)) == visit_all(
                world_entities(*old(world)),
                |entities: Map<u64, ComponentsView>, id: u64| flushed(entities, id),
            ),
    {
        let ghost before = world_entities(*world);
        let ghost rule = |entities: Map<u64, ComponentsView>, id: u64| flushed(entities, id);
        let mut ids = world_handles(world);
        proof {
            vstd::seq_lib::seq_to_set_is_finite(ids@);
        }
        while ids.len() > 0
            invariant
                ids@.no_duplicates(),
                forall|entities: Map<u64, ComponentsView>, id: u64| #[trigger]
                    rule(entities, id) == flushed(entities, id),
                visit(world_entities(*world), ids@.to_set(), rule) == visit_all(before, rule),
            decreases ids.len(),
        {
            let ghost remaining = ids@.to_set();
            let ghost current = world_entities(*world);
            proof {
                vstd::seq_lib::seq_to_set_is_finite(ids@);
            }
            let id = take_least(&mut ids);
            proof {
                lemma_visit_step(current, remaining, rule, id);
            }
            NetworkSystem::flush(world, id);
        }
        proof {
            assert(ids@.to_set() =~= Set::<u64>::empty());
            lemma_visit_done(world_entities(*world), rule);
        }
    }

    /// Records an attempt to write the outgoing buffer of session `id`:
    /// `Some` with the number of bytes written, or `None` where the write
    /// failed.
    pub fn written(world: &mut hecs::World, id: u64, outcome: Option<usize>)
        ensures
            world_entities(*final(world)) == after_write(world_entities(*old(world)), id, outcome),
    {
        let ghost before = world_entities(*world);
        match world_components(world, id) {
            Some(c) => match &mut c.stream {
                Some(stream) => match &mut c.health {
                    Some(health) => match outcome {
                        Some(count) => {
                            let held = buffer_len(&stream.outgoing);
                            let ghost bytes = buffer_bytes(stream.outgoing);
                            if count <= held {
                                buffer_advance(&mut stream.outgoing, count);
                            } else {
                                buffer_advance(&mut stream.outgoing, held);
                                assert(bytes.skip(held as int) =~= Seq::<u8>::empty());
                            }
                            health.retries = 0;
                        },
                        None => {
                            if health.retries < u8::MAX {
                                health.retries = health.retries + 1;
                            }
                        },
                    },
                    None => {},
                },
                None => {},
            },
            None => {},
        }
        assert(world_entities(*world) =~= after_write(before, id, outcome));
    }
}

} // verus!
