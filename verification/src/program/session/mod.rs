//! One worker's conversation with its dispatcher.
//!
//! [`Worker`] holds what the conversation is about and decides what each
//! message leads to. [`Session`] joins it to a channel, an executor and a
//! clock.

pub mod cache;
pub mod events;
pub mod transfer;

use crate::bits::all_set;
use crate::buffer::{
    buffer_advance, buffer_bytes, buffer_extend, buffer_len, buffer_slice, buffer_with_capacity,
};
use crate::program::{Clock, Error, Executor, Transport};
use crate::protocol::codec::{decoded, frame, payload, MAX_PAYLOAD};
use crate::protocol::wire::be_value;
use crate::protocol::{
    clone_types, names_view, AckInfo, AckInfoView, Message, MessageView, ModuleInfo, Type,
};
use cache::{fits, position, touched, with_slot, ModuleCache, Slot};
use events::{EventQueue, SessionEvent, SessionEventView};
use transfer::{refusal, stored, with_chunk, ModuleTransfer, ModuleTransferView, Refusal};
use vstd::prelude::*;

verus! {

/// The bytes that the module cache of a worker may hold.
pub const MAX_MODULE_CACHE_SIZE: usize = 65536;

/// The room that a worker's buffers start with.
pub const MAX_BUFF_SIZE: usize = 2048;

/// The number of refused chunks that a delivery survives.
pub const MAX_TRANSFER_RETRIES: u8 = 3;

/// What a task needs to start.
pub struct TaskMeta {
    pub module: String,
    pub params: Vec<Type>,
}

impl TaskMeta {
    /// A task of the module `name` with these parameters.
    pub fn new(name: String, params: Vec<Type>) -> (meta: Self)
        ensures
            meta.module@ == name@,
            meta.params@ == params@,
    {
        Self { module: name, params }
    }
}

/// Where a worker stands.
pub enum SessionState {
    /// Nothing to do.
    Ready,
    /// The module of a task is arriving.
    Transferring { task_id: u64, transfer: ModuleTransfer, params: Vec<Type>, retries: u8 },
    /// A task is running and due at `deadline`.
    Executing { task_id: u64, deadline: u64 },
    /// The result of a task was sent.
    Completed,
    /// The worker gave up. Nothing leads out of this state.
    Failed,
}

/// Model of a [`SessionState`].
pub enum SessionStateView {
    Ready,
    Transferring { task_id: u64, transfer: ModuleTransferView, params: Seq<Type>, retries: u8 },
    Executing { task_id: u64, deadline: u64 },
    Completed,
    Failed,
}

impl View for SessionState {
    type V = SessionStateView;

    open spec fn view(&self) -> SessionStateView {
        match *self {
            SessionState::Ready => SessionStateView::Ready,
            SessionState::Transferring { task_id, transfer, params, retries } => {
                SessionStateView::Transferring {
                    task_id,
                    transfer: transfer@,
                    params: params@,
                    retries,
                }
            },
            SessionState::Executing { task_id, deadline } => SessionStateView::Executing {
                task_id,
                deadline,
            },
            SessionState::Completed => SessionStateView::Completed,
            SessionState::Failed => SessionStateView::Failed,
        }
    }
}

/// A module to run for a task.
pub struct Execution {
    pub task_id: u64,
    pub module: String,
    pub params: Vec<Type>,
}

/// Model of an [`Execution`].
pub struct ExecutionView {
    pub task_id: u64,
    pub module: Seq<char>,
    pub params: Seq<Type>,
}

impl View for Execution {
    type V = ExecutionView;

    open spec fn view(&self) -> ExecutionView {
        ExecutionView { task_id: self.task_id, module: self.module@, params: self.params@ }
    }
}

/// What a worker holds: its module cache, the bytes from and for the
/// dispatcher, its state, and the events it has not dealt with yet.
pub struct Worker {
    pub module_cache: ModuleCache,
    pub incoming: bytes::BytesMut,
    pub outgoing: bytes::BytesMut,
    pub device_ram: u64,
    pub state: SessionState,
    pub events: EventQueue,
}

/// Model of a [`Worker`].
pub struct WorkerView {
    pub cache: Seq<Slot>,
    pub capacity: nat,
    pub incoming: Seq<u8>,
    pub outgoing: Seq<u8>,
    pub device_ram: u64,
    pub state: SessionStateView,
    pub events: Seq<SessionEventView>,
}

impl View for Worker {
    type V = WorkerView;

    open spec fn view(&self) -> WorkerView {
        WorkerView {
            cache: self.module_cache@,
            capacity: self.module_cache.spec_capacity(),
            incoming: buffer_bytes(self.incoming),
            outgoing: buffer_bytes(self.outgoing),
            device_ram: self.device_ram,
            state: self.state@,
            events: self.events@,
        }
    }
}

/// Why a message cannot be dealt with.
pub enum Fault {
    /// An answer could not be put into a frame or into the buffer.
    Unsendable,
    /// A chunk for a task that is not the current one.
    TaskNotFound(u64),
    /// The cache slot of the module in transfer is gone.
    CacheEntryNotFound(Seq<char>),
    /// The executor failed.
    Execution(Seq<char>),
}

/// Whether the error stands for the fault.
pub open spec fn is_fault(error: Error, fault: Fault) -> bool {
    match fault {
        Fault::Unsendable => error == Error::Protocol(crate::protocol::Error::InvalidMessage),
        Fault::TaskNotFound(task_id) => error == Error::TaskNotFound(task_id),
        Fault::CacheEntryNotFound(name) => error matches Error::CacheEntryNotFound(n) && n@ == name,
        Fault::Execution(text) => error matches Error::Execution(t) && t@ == text,
    }
}

/// Whether a message can be sent: it fits a frame, and the frame fits the
/// buffer.
pub open spec fn sendable(outgoing: Seq<u8>, message: MessageView) -> bool {
    payload(message).len() <= MAX_PAYLOAD && outgoing.len() + frame(message).len() <= usize::MAX
}

/// The names of the cached modules, oldest first.
pub open spec fn cached_names(cache: Seq<Slot>) -> Seq<Seq<char>> {
    cache.map_values(|slot: Slot| slot.name)
}

/// What a message leads to: the worker after it, a module to run if one is
/// to be run, and a fault if the message cannot be dealt with.
pub struct Accepted {
    pub after: WorkerView,
    pub run: Option<ExecutionView>,
    pub fault: Option<Fault>,
}

/// The answer to an advertisement: the names of the cached modules.
pub open spec fn task_ack(worker: WorkerView, task_id: u64) -> MessageView {
    MessageView::ClientAck {
        task_id,
        ack_info: AckInfoView::Task { modules: cached_names(worker.cache) },
    }
}

/// The answer to a chunk.
pub open spec fn chunk_ack(task_id: u64, chunk_index: u32, success: bool) -> MessageView {
    MessageView::ClientAck { task_id, ack_info: AckInfoView::Module { chunk_index, success } }
}

/// What an advertisement leads to. The worker answers with the names of its
/// cached modules. A cached module is to be run at once. For any other a
/// slot is made and a delivery begins; where the module cannot be held or
/// assembled, the worker fails.
pub open spec fn advertised(
    worker: WorkerView,
    task_id: u64,
    module: crate::protocol::ModuleInfoView,
    params: Seq<Type>,
) -> Accepted {
    let ack = task_ack(worker, task_id);
    if !sendable(worker.outgoing, ack) {
        Accepted { after: worker, run: None, fault: Some(Fault::Unsendable) }
    } else {
        let answered = WorkerView { outgoing: worker.outgoing + frame(ack), ..worker };
        if position(worker.cache, module.name) >= 0 {
            Accepted {
                after: answered,
                run: Some(ExecutionView { task_id, module: module.name, params }),
                fault: None,
            }
        } else if module.size > usize::MAX {
            Accepted {
                after: WorkerView { state: SessionStateView::Failed, ..answered },
                run: None,
                fault: None,
            }
        } else {
            let cache = with_slot(worker.cache, worker.capacity, module.name, module.size as nat);
            let state = if fits(worker.cache, worker.capacity, module.name, module.size as nat)
                && transfer::assemblable(module) {
                SessionStateView::Transferring {
                    task_id,
                    transfer: ModuleTransferView {
                        name: module.name,
                        size: module.size as nat,
                        chunk_size: module.chunk_size as nat,
                        total_chunks: module.total_chunks as nat,
                        received: Seq::new(module.total_chunks as nat, |i: int| false),
                    },
                    params,
                    retries: 0,
                }
            } else {
                SessionStateView::Failed
            };
            Accepted { after: WorkerView { cache, state, ..answered }, run: None, fault: None }
        }
    }
}

/// What a chunk leads to. Outside a delivery it is ignored; for another
/// task than the current one it is a fault. A chunk that is taken is
/// confirmed, and the module is to be run once all chunks are there. A
/// chunk that is refused is answered so and counts as a retry; that the
/// module's slot is gone is a fault.
pub open spec fn chunked(
    worker: WorkerView,
    task_id: u64,
    chunk_index: u32,
    data: Seq<u8>,
) -> Accepted {
    match worker.state {
        SessionStateView::Transferring { task_id: current, transfer, params, retries } => {
            if current != task_id {
                Accepted { after: worker, run: None, fault: Some(Fault::TaskNotFound(task_id)) }
            } else {
                match refusal(transfer, worker.cache, chunk_index as nat, data.len()) {
                    None => {
                        let grown = with_chunk(transfer, chunk_index as nat);
                        let taken = WorkerView {
                            cache: stored(worker.cache, transfer, chunk_index as nat, data),
                            state: SessionStateView::Transferring {
                                task_id: current,
                                transfer: grown,
                                params,
                                retries,
                            },
                            ..worker
                        };
                        let ack = chunk_ack(task_id, chunk_index, true);
                        if !sendable(worker.outgoing, ack) {
                            Accepted { after: taken, run: None, fault: Some(Fault::Unsendable) }
                        } else {
                            Accepted {
                                after: WorkerView {
                                    outgoing: worker.outgoing + frame(ack),
                                    ..taken
                                },
                                run: if all_set(grown.received) {
                                    Some(ExecutionView { task_id, module: transfer.name, params })
                                } else {
                                    None
                                },
                                fault: None,
                            }
                        }
                    },
                    Some(Refusal::NoSlot) => Accepted {
                        after: worker,
                        run: None,
                        fault: Some(Fault::CacheEntryNotFound(transfer.name)),
                    },
                    Some(_) => {
                        let counted = WorkerView {
                            state: SessionStateView::Transferring {
                                task_id: current,
                                transfer,
                                params,
                                retries: if retries < u8::MAX {
                                    (retries + 1) as u8
                                } else {
                                    retries
                                },
                            },
                            ..worker
                        };
                        let ack = chunk_ack(task_id, chunk_index, false);
                        if !sendable(worker.outgoing, ack) {
                            Accepted { after: counted, run: None, fault: Some(Fault::Unsendable) }
                        } else {
                            Accepted {
                                after: WorkerView {
                                    outgoing: worker.outgoing + frame(ack),
                                    ..counted
                                },
                                run: None,
                                fault: None,
                            }
                        }
                    },
                }
            }
        },
        _ => Accepted { after: worker, run: None, fault: None },
    }
}

/// What a message leads to. The dispatcher's acknowledgment brings a worker
/// that has not failed back to Ready; a heartbeat and anything a dispatcher
/// does not send are ignored.
pub open spec fn accepted(worker: WorkerView, message: MessageView) -> Accepted {
    match message {
        MessageView::ServerTask { task_id, module, params } => advertised(
            worker,
            task_id,
            module,
            params,
        ),
        MessageView::ServerModule { task_id, chunk_index, chunk_data } => chunked(
            worker,
            task_id,
            chunk_index,
            chunk_data,
        ),
        MessageView::ServerAck { .. } => Accepted {
            after: if worker.state is Failed {
                worker
            } else {
                WorkerView { state: SessionStateView::Ready, ..worker }
            },
            run: None,
            fault: None,
        },
        _ => Accepted { after: worker, run: None, fault: None },
    }
}

/// What the outcome of a run leads to. A result is sent, and a delivery for
/// that task is Completed. A failure of the executor is a fault.
pub open spec fn finished(
    worker: WorkerView,
    task_id: u64,
    outcome: Result<Seq<Type>, Seq<char>>,
) -> Accepted {
    match outcome {
        Err(text) => Accepted { after: worker, run: None, fault: Some(Fault::Execution(text)) },
        Ok(result) => {
            let report = MessageView::ClientResult { task_id, result };
            if !sendable(worker.outgoing, report) {
                Accepted { after: worker, run: None, fault: Some(Fault::Unsendable) }
            } else {
                Accepted {
                    after: WorkerView {
                        outgoing: worker.outgoing + frame(report),
                        state: match worker.state {
                            SessionStateView::Transferring { task_id: current, .. } => if current
                                == task_id {
                                SessionStateView::Completed
                            } else {
                                worker.state
                            },
                            _ => worker.state,
                        },
                        ..worker
                    },
                    run: None,
                    fault: None,
                }
            }
        },
    }
}

impl Worker {
    /// Whether the worker is in order: its cache is, and so is the delivery
    /// it is in.
    pub open spec fn wf(&self) -> bool {
        &&& self.module_cache.wf()
        &&& match self.state {
            SessionState::Transferring { transfer, .. } => transfer.wf(),
            _ => true,
        }
    }

    /// A worker that is Ready, with an empty cache of `capacity` bytes and
    /// empty buffers.
    pub fn new(device_ram: u64, capacity: usize) -> (worker: Self)
        ensures
            worker.wf(),
            worker@ == (WorkerView {
                cache: Seq::empty(),
                capacity: capacity as nat,
                incoming: Seq::empty(),
                outgoing: Seq::empty(),
                device_ram,
                state: SessionStateView::Ready,
                events: Seq::empty(),
            }),
    {
        Worker {
            module_cache: ModuleCache::new(capacity),
            incoming: buffer_with_capacity(MAX_BUFF_SIZE),
            outgoing: buffer_with_capacity(MAX_BUFF_SIZE),
            device_ram,
            state: SessionState::Ready,
            events: EventQueue::new(),
        }
    }

    /// Puts a message, framed, at the end of the outgoing buffer.
    pub fn send_message(&mut self, message: &Message) -> (result: Result<(), Error>)
        ensures
            final(self).module_cache == old(self).module_cache,
            final(self).state == old(self).state,
            if sendable(old(self)@.outgoing, message@) {
                &&& result is Ok
                &&& final(self)@ == (WorkerView {
                    outgoing: old(self)@.outgoing + frame(message@),
                    ..old(self)@
                })
            } else {
                &&& result matches Err(error)
                &&& is_fault(error, Fault::Unsendable)
                &&& final(self)@ == old(self)@
            },
    {
        let bytes = match message.encode() {
            Ok(bytes) => bytes,
            Err(_) => {
                return Err(Error::Protocol(crate::protocol::Error::InvalidMessage));
            },
        };
        if bytes.len() > usize::MAX - buffer_len(&self.outgoing) {
            return Err(Error::Protocol(crate::protocol::Error::InvalidMessage));
        }
        buffer_extend(&mut self.outgoing, bytes.as_slice());
        Ok(())
    }

    /// Reports for duty: the cached modules and the device's RAM.
    pub fn send_ready(&mut self, modules: Vec<String>) -> (result: Result<(), Error>)
        ensures
            final(self).module_cache == old(self).module_cache,
            final(self).state == old(self).state,
            ({
                let message = MessageView::ClientReady {
                    modules: names_view(modules@),
                    device_ram: old(self).device_ram,
                };
                if sendable(old(self)@.outgoing, message) {
                    &&& result is Ok
                    &&& final(self)@ == (WorkerView {
                        outgoing: old(self)@.outgoing + frame(message),
                        ..old(self)@
                    })
                } else {
                    &&& result matches Err(error)
                    &&& is_fault(error, Fault::Unsendable)
                    &&& final(self)@ == old(self)@
                }
            }),
    {
        let message = Message::ClientReady { modules, device_ram: self.device_ram };
        self.send_message(&message)
    }

    /// Sends a sign of life with the time `timestamp`.
    pub fn send_heartbeat(&mut self, timestamp: u64) -> (result: Result<(), Error>)
        ensures
            final(self).module_cache == old(self).module_cache,
            final(self).state == old(self).state,
            ({
                let message = MessageView::Heartbeat { timestamp };
                if sendable(old(self)@.outgoing, message) {
                    &&& result is Ok
                    &&& final(self)@ == (WorkerView {
                        outgoing: old(self)@.outgoing + frame(message),
                        ..old(self)@
                    })
                } else {
                    &&& result matches Err(error)
                    &&& is_fault(error, Fault::Unsendable)
                    &&& final(self)@ == old(self)@
                }
            }),
    {
        let message = Message::Heartbeat { timestamp };
        self.send_message(&message)
    }

    /// Answers a task or a chunk.
    fn send_ack(&mut self, task_id: u64, ack_info: AckInfo) -> (result: Result<(), Error>)
        ensures
            final(self).module_cache == old(self).module_cache,
            final(self).state == old(self).state,
            ({
                let message = MessageView::ClientAck { task_id, ack_info: ack_info@ };
                if sendable(old(self)@.outgoing, message) {
                    &&& result is Ok
                    &&& final(self)@ == (WorkerView {
                        outgoing: old(self)@.outgoing + frame(message),
                        ..old(self)@
                    })
                } else {
                    &&& result matches Err(error)
                    &&& is_fault(error, Fault::Unsendable)
                    &&& final(self)@ == old(self)@
                }
            }),
    {
        let message = Message::ClientAck { task_id, ack_info };
        self.send_message(&message)
    }

    /// Reports the result of a task.
    fn send_result(&mut self, task_id: u64, result: Vec<Type>) -> (sent: Result<(), Error>)
        ensures
            final(self).module_cache == old(self).module_cache,
            final(self).state == old(self).state,
            ({
                let message = MessageView::ClientResult { task_id, result: result@ };
                if sendable(old(self)@.outgoing, message) {
                    &&& sent is Ok
                    &&& final(self)@ == (WorkerView {
                        outgoing: old(self)@.outgoing + frame(message),
                        ..old(self)@
                    })
                } else {
                    &&& sent matches Err(error)
                    &&& is_fault(error, Fault::Unsendable)
                    &&& final(self)@ == old(self)@
                }
            }),
    {
        let message = Message::ClientResult { task_id, result };
        self.send_message(&message)
    }
}

/// The messages of the frames at the start of a buffer, in order; a frame
/// whose payload is no single message is left out.
pub open spec fn arrived(buffer: Seq<u8>) -> Seq<MessageView>
    decreases buffer.len(),
{
    match decoded(buffer) {
        Ok((message, consumed)) => if 0 < consumed <= buffer.len() {
            seq![message] + arrived(buffer.skip(consumed as int))
        } else {
            Seq::empty()
        },
        Err(crate::protocol::Error::InsufficientData) => Seq::empty(),
        Err(_) => {
            let size = 2 + be_value(buffer.subrange(0, 2));
            if buffer.len() >= 2 && size <= buffer.len() {
                arrived(buffer.skip(size as int))
            } else {
                Seq::empty()
            }
        },
    }
}

/// What is left of a buffer after the frames at its start were taken out:
/// the start of a frame that has not arrived in full.
pub open spec fn left_over(buffer: Seq<u8>) -> Seq<u8>
    decreases buffer.len(),
{
    match decoded(buffer) {
        Ok((message, consumed)) => if 0 < consumed <= buffer.len() {
            left_over(buffer.skip(consumed as int))
        } else {
            buffer
        },
        Err(crate::protocol::Error::InsufficientData) => buffer,
        Err(_) => {
            let size = 2 + be_value(buffer.subrange(0, 2));
            if buffer.len() >= 2 && size <= buffer.len() {
                left_over(buffer.skip(size as int))
            } else {
                buffer
            }
        },
    }
}

/// A frame is taken out of a buffer whole or not at all: what is left of a
/// buffer is its end from some position on, and holds no complete frame.
pub proof fn lemma_left_over_waits(buffer: Seq<u8>)
    ensures
        exists|taken: int| 0 <= taken <= buffer.len() && left_over(buffer) == #[trigger] buffer.skip(taken),
        decoded(left_over(buffer)) == Err::<(MessageView, nat), crate::protocol::Error>(
            crate::protocol::Error::InsufficientData,
        ),
    decreases buffer.len(),
{
    let size = 2 + be_value(buffer.subrange(0, 2));
    let step: int = match decoded(buffer) {
        Ok((message, consumed)) => if 0 < consumed <= buffer.len() {
            consumed as int
        } else {
            0
        },
        Err(crate::protocol::Error::InsufficientData) => 0,
        Err(_) => if buffer.len() >= 2 && size <= buffer.len() {
            size as int
        } else {
            0
        },
    };
    if step > 0 {
        let rest = buffer.skip(step);
        lemma_left_over_waits(rest);
        let taken = choose|taken: int|
            0 <= taken <= rest.len() && left_over(rest) == #[trigger] rest.skip(taken);
        assert(rest.skip(taken) =~= buffer.skip(step + taken));
    } else {
        assert(buffer.skip(0) =~= buffer);
    }
}

/// The events that messages stand for.
pub open spec fn as_events(messages: Seq<MessageView>) -> Seq<SessionEventView> {
    messages.map_values(|m: MessageView| SessionEventView::Message(m))
}

/// The worker after its state was looked after at `now`. A delivery with
/// more than three retries ends: the worker reports its cached modules and
/// fails. A task that is overdue raises a timeout.
pub open spec fn checked(worker: WorkerView, now: u64) -> Accepted {
    match worker.state {
        SessionStateView::Transferring { task_id, retries, .. } => if retries
            > MAX_TRANSFER_RETRIES {
            let ack = task_ack(worker, task_id);
            if !sendable(worker.outgoing, ack) {
                Accepted { after: worker, run: None, fault: Some(Fault::Unsendable) }
            } else {
                Accepted {
                    after: WorkerView {
                        outgoing: worker.outgoing + frame(ack),
                        state: SessionStateView::Failed,
                        ..worker
                    },
                    run: None,
                    fault: None,
                }
            }
        } else {
            Accepted { after: worker, run: None, fault: None }
        },
        SessionStateView::Executing { task_id, deadline } => Accepted {
            after: if now > deadline {
                WorkerView {
                    events: worker.events.push(SessionEventView::TaskTimeout(task_id)),
                    ..worker
                }
            } else {
                worker
            },
            run: None,
            fault: None,
        },
        _ => Accepted { after: worker, run: None, fault: None },
    }
}

/// What taking a chunk led to.
enum Chunk {
    Taken { complete: bool, module: String, params: Vec<Type> },
    Refused,
    Lost(Error),
    Foreign,
    Idle,
}

impl Worker {
    /// Gives up.
    pub fn fail(&mut self)
        ensures
            final(self)@ == (WorkerView { state: SessionStateView::Failed, ..old(self)@ }),
            old(self).module_cache.wf() ==> final(self).wf(),
    {
        self.state = SessionState::Failed;
    }

    /// Deals with an advertisement.
    fn advertise(&mut self, task_id: u64, module: &ModuleInfo, params: &Vec<Type>) -> (result: Result<
        Option<Execution>,
        Error,
    >)
        requires
            old(self).wf(),
        ensures
            final(self).wf(),
            ({
                let a = advertised(old(self)@, task_id, module@, params@);
                &&& final(self)@ == a.after
                &&& match result {
                    Ok(Some(run)) => a.fault is None && a.run == Some(run@),
                    Ok(None) => a.fault is None && a.run is None,
                    Err(error) => a.fault matches Some(fault) && is_fault(error, fault),
                }
            }),
    {
        let names = self.module_cache.keys();
        match self.send_ack(task_id, AckInfo::Task { modules: names }) {
            Ok(_) => {},
            Err(error) => {
                return Err(error);
            },
        }
        if self.module_cache.contains_key(module.name.as_str()) {
            return Ok(
                Some(Execution { task_id, module: module.name.clone(), params: clone_types(params) }),
            );
        }
        if module.size > usize::MAX as u64 {
            self.state = SessionState::Failed;
            return Ok(None);
        }
        match self.module_cache.put(module.name.as_str(), module.size as usize) {
            Ok(_) => match ModuleTransfer::new(module) {
                Some(transfer) => {
                    self.state = SessionState::Transferring {
                        task_id,
                        transfer,
                        params: clone_types(params),
                        retries: 0,
                    };
                },
                None => {
                    self.state = SessionState::Failed;
                },
            },
            Err(_) => {
                self.state = SessionState::Failed;
            },
        }
        Ok(None)
    }

    /// Hands a chunk to the delivery that the worker is in.
    fn take_chunk(&mut self, task_id: u64, chunk_index: u32, data: &[u8]) -> (chunk: Chunk)
        requires
            old(self).wf(),
        ensures
            final(self).wf(),
            final(self)@.outgoing == old(self)@.outgoing,
            final(self)@.incoming == old(self)@.incoming,
            final(self)@.events == old(self)@.events,
            final(self)@.device_ram == old(self)@.device_ram,
            final(self)@.capacity == old(self)@.capacity,
            match old(self)@.state {
                SessionStateView::Transferring { task_id: current, transfer, params, retries } => {
                    if current != task_id {
                        chunk is Foreign && final(self)@ == old(self)@
                    } else {
                        match refusal(transfer, old(self)@.cache, chunk_index as nat, data@.len()) {
                            None => {
                                &&& chunk matches Chunk::Taken { complete, module, params: p }
                                &&& complete == all_set(
                                    with_chunk(transfer, chunk_index as nat).received,
                                )
                                &&& module@ == transfer.name
                                &&& p@ == params
                                &&& final(self)@.cache == stored(
                                    old(self)@.cache,
                                    transfer,
                                    chunk_index as nat,
                                    data@,
                                )
                                &&& final(self)@.state == (SessionStateView::Transferring {
                                    task_id: current,
                                    transfer: with_chunk(transfer, chunk_index as nat),
                                    params,
                                    retries,
                                })
                            },
                            Some(Refusal::NoSlot) => {
                                &&& chunk matches Chunk::Lost(error)
                                &&& is_fault(error, Fault::CacheEntryNotFound(transfer.name))
                                &&& final(self)@ == old(self)@
                            },
                            Some(_) => {
                                &&& chunk is Refused
                                &&& final(self)@.cache == old(self)@.cache
                                &&& final(self)@.state == (SessionStateView::Transferring {
                                    task_id: current,
                                    transfer,
                                    params,
                                    retries: if retries < u8::MAX {
                                        (retries + 1) as u8
                                    } else {
                                        retries
                                    },
                                })
                            },
                        }
                    }
                },
                _ => chunk is Idle && final(self)@ == old(self)@,
            },
    {
        match &mut self.state {
            SessionState::Transferring { task_id: current, transfer, params, retries } => {
                if *current != task_id {
                    return Chunk::Foreign;
                }
                match transfer.add_chunk(&mut self.module_cache, chunk_index as usize, data) {
                    Ok(_) => Chunk::Taken {
                        complete: transfer.is_complete(),
                        module: transfer.name().to_owned(),
                        params: clone_types(params),
                    },
                    Err(Error::CacheEntryNotFound(name)) => Chunk::Lost(
                        Error::CacheEntryNotFound(name),
                    ),
                    Err(_) => {
                        if *retries < u8::MAX {
                            *retries = *retries + 1;
                        }
                        Chunk::Refused
                    },
                }
            },
            _ => Chunk::Idle,
        }
    }

    /// Deals with a message from the dispatcher. Returns the module to run,
    /// where the message asks for one; its outcome goes to
    /// [`Worker::finish`].
    pub fn accept(&mut self, message: &Message) -> (result: Result<Option<Execution>, Error>)
        requires
            old(self).wf(),
        ensures
            final(self).wf(),
            ({
                let a = accepted(old(self)@, message@);
                &&& final(self)@ == a.after
                &&& match result {
                    Ok(Some(run)) => a.fault is None && a.run == Some(run@),
                    Ok(None) => a.fault is None && a.run is None,
                    Err(error) => a.fault matches Some(fault) && is_fault(error, fault),
                }
            }),
    {
        match message {
            Message::ServerTask { task_id, module, params } => self.advertise(
                *task_id,
                module,
                params,
            ),
            Message::ServerModule { task_id, chunk_index, chunk_data } => {
                match self.take_chunk(*task_id, *chunk_index, chunk_data.as_slice()) {
                    Chunk::Taken { complete, module, params } => {
                        match self.send_ack(
                            *task_id,
                            AckInfo::Module { chunk_index: *chunk_index, success: true },
                        ) {
                            Ok(_) => {},
                            Err(error) => {
                                return Err(error);
                            },
                        }
                        if complete {
                            Ok(Some(Execution { task_id: *task_id, module, params }))
                        } else {
                            Ok(None)
                        }
                    },
                    Chunk::Refused => {
                        match self.send_ack(
                            *task_id,
                            AckInfo::Module { chunk_index: *chunk_index, success: false },
                        ) {
                            Ok(_) => Ok(None),
                            Err(error) => Err(error),
                        }
                    },
                    Chunk::Lost(error) => Err(error),
                    Chunk::Foreign => Err(Error::TaskNotFound(*task_id)),
                    Chunk::Idle => Ok(None),
                }
            },
            Message::ServerAck { .. } => {
                match &self.state {
                    SessionState::Failed => {},
                    _ => {
                        self.state = SessionState::Ready;
                    },
                }
                Ok(None)
            },
            _ => Ok(None),
        }
    }
}

impl Worker {
    /// The bytes of a cached module, for the executor; the read is counted.
    pub fn module_bytes(&mut self, name: &str) -> (bytes: Option<&[u8]>)
        requires
            old(self).wf(),
        ensures
            final(self).wf(),
            ({
                let index = position(old(self)@.cache, name@);
                if index < 0 {
                    bytes is None && final(self)@ == old(self)@
                } else {
                    &&& bytes is Some
                    &&& bytes->0@ == old(self)@.cache[index].data
                    &&& final(self)@ == (WorkerView {
                        cache: touched(old(self)@.cache, index),
                        ..old(self)@
                    })
                }
            }),
    {
        self.module_cache.get(name)
    }

    /// Deals with the outcome of running the module of task `task_id`.
    pub fn finish(&mut self, task_id: u64, outcome: Result<Vec<Type>, String>) -> (result: Result<
        (),
        Error,
    >)
        requires
            old(self).wf(),
        ensures
            final(self).wf(),
            ({
                let a = finished(
                    old(self)@,
                    task_id,
                    match outcome {
                        Ok(values) => Ok(values@),
                        Err(text) => Err(text@),
                    },
                );
                &&& final(self)@ == a.after
                &&& match result {
                    Ok(_) => a.fault is None,
                    Err(error) => a.fault matches Some(fault) && is_fault(error, fault),
                }
            }),
    {
        let values = match outcome {
            Ok(values) => values,
            Err(text) => {
                return Err(Error::Execution(text));
            },
        };
        match self.send_result(task_id, values) {
            Ok(_) => {},
            Err(error) => {
                return Err(error);
            },
        }
        let done = match &self.state {
            SessionState::Transferring { task_id: current, .. } => *current == task_id,
            _ => false,
        };
        if done {
            self.state = SessionState::Completed;
        }
        Ok(())
    }

    /// Takes the frames that have arrived in full out of the incoming buffer
    /// and queues their messages as events.
    pub fn feed(&mut self)
        ensures
            final(self).module_cache == old(self).module_cache,
            final(self).state == old(self).state,
            final(self)@ == (WorkerView {
                incoming: left_over(old(self)@.incoming),
                events: old(self)@.events + as_events(arrived(old(self)@.incoming)),
                ..old(self)@
            }),
    {
        let ghost start = self@;
        let mut left = buffer_len(&self.incoming);
        assert(start.events + as_events(Seq::<MessageView>::empty()) =~= start.events);
        loop
            invariant
                self.module_cache == old(self).module_cache,
                self.state == old(self).state,
                self@.cache == start.cache,
                self@.capacity == start.capacity,
                self@.outgoing == start.outgoing,
                self@.device_ram == start.device_ram,
                self@.state == start.state,
                left == self@.incoming.len(),
                left_over(self@.incoming) == left_over(start.incoming),
                self@.events + as_events(arrived(self@.incoming)) == start.events + as_events(
                    arrived(start.incoming),
                ),
            ensures
                self.module_cache == old(self).module_cache,
                self.state == old(self).state,
                self@ == (WorkerView {
                    incoming: left_over(start.incoming),
                    events: start.events + as_events(arrived(start.incoming)),
                    ..start
                }),
            decreases left,
        {
            let ghost buffer = self@.incoming;
            let ghost events = self@.events;
            let slice = buffer_slice(&self.incoming);
            match Message::decode(slice) {
                Ok((message, consumed)) => {
                    proof {
                        let rest = arrived(buffer.skip(consumed as int));
                        assert(as_events(seq![message@] + rest) =~= seq![
                            SessionEventView::Message(message@),
                        ] + as_events(rest));
                        assert(events.push(SessionEventView::Message(message@)) + as_events(rest)
                            =~= events + (seq![SessionEventView::Message(message@)] + as_events(
                            rest,
                        )));
                    }
                    buffer_advance(&mut self.incoming, consumed);
                    self.events.push(SessionEvent::Message(message));
                },
                Err(crate::protocol::Error::InsufficientData) => {
                    assert(self@.events + as_events(Seq::<MessageView>::empty()) =~= self@.events);
                    break ;
                },
                Err(_) => {
                    match Message::frame_size(slice) {
                        Some(size) => {
                            buffer_advance(&mut self.incoming, size);
                        },
                        None => {
                            break ;
                        },
                    }
                },
            }
            left = buffer_len(&self.incoming);
        }
    }

    /// Looks after the state at `now`.
    pub fn check_state(&mut self, now: u64) -> (result: Result<(), Error>)
        requires
            old(self).wf(),
        ensures
            final(self).wf(),
            ({
                let a = checked(old(self)@, now);
                &&& final(self)@ == a.after
                &&& match result {
                    Ok(_) => a.fault is None,
                    Err(error) => a.fault matches Some(fault) && is_fault(error, fault),
                }
            }),
    {
        let mut expired: Option<u64> = None;
        let mut overdue: Option<u64> = None;
        match &self.state {
            SessionState::Transferring { task_id, retries, .. } => {
                if *retries > MAX_TRANSFER_RETRIES {
                    expired = Some(*task_id);
                }
            },
            SessionState::Executing { task_id, deadline } => {
                if now > *deadline {
                    overdue = Some(*task_id);
                }
            },
            _ => {},
        }
        match expired {
            Some(task_id) => {
                let names = self.module_cache.keys();
                match self.send_ack(task_id, AckInfo::Task { modules: names }) {
                    Ok(_) => {},
                    Err(error) => {
                        return Err(error);
                    },
                }
                self.state = SessionState::Failed;
            },
            None => {},
        }
        match overdue {
            Some(task_id) => {
                self.events.push(SessionEvent::TaskTimeout(task_id));
            },
            None => {},
        }
        Ok(())
    }

    /// Deals with a timeout of task `task_id`: a worker that is executing
    /// that task fails. Returns whether it did.
    pub fn time_out(&mut self, task_id: u64) -> (failed: bool)
        requires
            old(self).wf(),
        ensures
            final(self).wf(),
            failed == (old(self)@.state matches SessionStateView::Executing { task_id: current, .. }
                && current == task_id),
            final(self)@ == if failed {
                WorkerView { state: SessionStateView::Failed, ..old(self)@ }
            } else {
                old(self)@
            },
    {
        let failed = match &self.state {
            SessionState::Executing { task_id: current, .. } => *current == task_id,
            _ => false,
        };
        if failed {
            self.state = SessionState::Failed;
        }
        failed
    }

    /// Drops the first `count` bytes of the outgoing buffer, or all of them
    /// where there are fewer: they were written to the channel.
    pub fn sent(&mut self, count: usize)
        ensures
            final(self).module_cache == old(self).module_cache,
            final(self).state == old(self).state,
            final(self)@ == (WorkerView {
                outgoing: if count <= old(self)@.outgoing.len() {
                    old(self)@.outgoing.skip(count as int)
                } else {
                    Seq::empty()
                },
                ..old(self)@
            }),
    {
        let held = buffer_len(&self.outgoing);
        let ghost bytes = buffer_bytes(self.outgoing);
        if count <= held {
            buffer_advance(&mut self.outgoing, count);
        } else {
            buffer_advance(&mut self.outgoing, held);
            assert(bytes.skip(held as int) =~= Seq::<u8>::empty());
        }
    }
}

/// The worker after it gave up.
pub open spec fn failed(worker: WorkerView) -> WorkerView {
    WorkerView { state: SessionStateView::Failed, ..worker }
}

/// What a message leads to when the run it may ask for has the outcome
/// `outcome`. The module's bytes are read from the cache, which counts as a
/// use; that they are gone is a fault.
pub open spec fn handled(
    worker: WorkerView,
    message: MessageView,
    outcome: Result<Seq<Type>, Seq<char>>,
) -> Accepted {
    let a = accepted(worker, message);
    match a.run {
        None => a,
        Some(run) => {
            let index = position(a.after.cache, run.module);
            if index < 0 {
                Accepted {
                    after: a.after,
                    run: None,
                    fault: Some(Fault::CacheEntryNotFound(run.module)),
                }
            } else {
                finished(
                    WorkerView { cache: touched(a.after.cache, index), ..a.after },
                    run.task_id,
                    outcome,
                )
            }
        },
    }
}

/// Whether a message asks for a run that can be made.
pub open spec fn runs(worker: WorkerView, message: MessageView) -> bool {
    let a = accepted(worker, message);
    a.run is Some && position(a.after.cache, a.run->0.module) >= 0
}

/// The worker after it dealt with its events, oldest first, where the runs
/// that the events ask for have the outcomes `outcomes`, in this order. A
/// message that cannot be dealt with and a timeout of the task in execution
/// fail the worker, and the events behind them stay.
pub open spec fn replayed(worker: WorkerView, outcomes: Seq<Result<Seq<Type>, Seq<char>>>) -> WorkerView
    decreases worker.events.len(),
{
    if worker.events.len() == 0 {
        worker
    } else {
        let rest = WorkerView { events: worker.events.skip(1), ..worker };
        match worker.events[0] {
            SessionEventView::Message(message) => {
                let outcome = if outcomes.len() > 0 {
                    outcomes[0]
                } else {
                    Err(Seq::empty())
                };
                let h = handled(rest, message, outcome);
                if h.fault is Some {
                    failed(h.after)
                } else if h.after.events.len() >= worker.events.len() {
                    h.after
                } else {
                    replayed(
                        h.after,
                        if runs(rest, message) && outcomes.len() > 0 {
                            outcomes.skip(1)
                        } else {
                            outcomes
                        },
                    )
                }
            },
            SessionEventView::TaskTimeout(task_id) => {
                if rest.state matches SessionStateView::Executing { task_id: current, .. }
                    && current == task_id {
                    failed(rest)
                } else {
                    replayed(rest, outcomes)
                }
            },
        }
    }
}

/// Whether `after` is the worker after bytes were moved: `arrived` is what
/// the incoming buffer held once the channel was read, and `count` is the
/// number of bytes that were written. Where something was read, the frames
/// that arrived in full are queued as events. A failure of the channel
/// fails the worker.
pub open spec fn moved(before: WorkerView, after: WorkerView, held: Seq<u8>, count: int) -> bool {
    &&& after.cache == before.cache
    &&& after.capacity == before.capacity
    &&& after.device_ram == before.device_ram
    &&& after.state == before.state || after.state is Failed
    &&& (after.incoming == left_over(held) && after.events == before.events + as_events(
        arrived(held),
    )) || (after.incoming == held && after.events == before.events)
    &&& 0 <= count <= before.outgoing.len()
    &&& after.outgoing == before.outgoing.skip(count)
}

/// Whether `after` is the worker after its state was looked after at `now`;
/// a report that cannot be sent fails the worker.
pub open spec fn looked_after(before: WorkerView, after: WorkerView, now: u64) -> bool {
    let c = checked(before, now);
    after == if c.fault is Some {
        failed(c.after)
    } else {
        c.after
    }
}

/// Whether `after` is the worker after one round: bytes were moved, the
/// events were dealt with, and the state was looked after.
pub open spec fn stepped(before: WorkerView, after: WorkerView) -> bool {
    exists|
        first: WorkerView,
        second: WorkerView,
        held: Seq<u8>,
        count: int,
        outcomes: Seq<Result<Seq<Type>, Seq<char>>>,
        now: u64,
    |
        #![trigger moved(before, first, held, count), replayed(first, outcomes), looked_after(second, after, now)]
        moved(before, first, held, count) && second == replayed(first, outcomes) && looked_after(
            second,
            after,
            now,
        )
}

/// A worker joined to its channel, its executor and its clock.
pub struct Session<T: Transport, E: Executor, C: Clock> {
    pub transport: T,
    pub executor: E,
    pub clock: C,
    pub worker: Worker,
}

impl<T: Transport, E: Executor, C: Clock> Session<T, E, C> {
    /// A session that is Ready, with an empty cache and empty buffers.
    pub fn new(transport: T, executor: E, clock: C, device_ram: u64) -> (session: Self)
        ensures
            session.worker.wf(),
            session.worker@ == (WorkerView {
                cache: Seq::empty(),
                capacity: MAX_MODULE_CACHE_SIZE as nat,
                incoming: Seq::empty(),
                outgoing: Seq::empty(),
                device_ram,
                state: SessionStateView::Ready,
                events: Seq::empty(),
            }),
    {
        Session { transport, executor, clock, worker: Worker::new(device_ram, MAX_MODULE_CACHE_SIZE) }
    }

    /// Reports for duty with no cached modules. This is the first thing a
    /// session does.
    pub fn start(&mut self) -> (result: Result<(), Error>)
        requires
            old(self).worker.wf(),
        ensures
            final(self).worker.wf(),
            ({
                let message = MessageView::ClientReady {
                    modules: Seq::empty(),
                    device_ram: old(self).worker.device_ram,
                };
                if sendable(old(self).worker@.outgoing, message) {
                    &&& result is Ok
                    &&& final(self).worker@ == (WorkerView {
                        outgoing: old(self).worker@.outgoing + frame(message),
                        ..old(self).worker@
                    })
                } else {
                    &&& result matches Err(error)
                    &&& is_fault(error, Fault::Unsendable)
                    &&& final(self).worker@ == old(self).worker@
                }
            }),
    {
        let none: Vec<String> = Vec::new();
        assert(names_view(none@) =~= Seq::<Seq<char>>::empty());
        self.worker.send_ready(none)
    }

    /// Moves bytes between the channel and the buffers. What arrived in
    /// full is queued as events. A failure of the channel fails the worker.
    pub fn process_io(&mut self)
        requires
            old(self).worker.wf(),
        ensures
            final(self).worker.wf(),
            exists|held: Seq<u8>, count: int|
                moved(old(self).worker@, final(self).worker@, held, count),
    {
        let ghost before = self.worker@;
        match self.transport.read(&mut self.worker.incoming) {
            Ok(count) => {
                let ghost held = self.worker@.incoming;
                if count > 0 {
                    self.worker.feed();
                }
                assert(moved(before, self.worker@, held, 0)) by {
                    assert(before.outgoing.skip(0) =~= before.outgoing);
                }
            },
            Err(_) => {
                let ghost held = self.worker@.incoming;
                self.worker.fail();
                assert(moved(before, self.worker@, held, 0)) by {
                    assert(before.outgoing.skip(0) =~= before.outgoing);
                }
            },
        }
        let ghost read = self.worker@;
        let ghost held = choose|held: Seq<u8>| moved(before, read, held, 0);
        let ghost mut written: int = 0;
        let mut left = buffer_len(&self.worker.outgoing);
        while left > 0
            invariant
                self.worker.wf(),
                moved(before, self.worker@, held, written),
                left == self.worker@.outgoing.len(),
            decreases left,
        {
            match self.transport.write(buffer_slice(&self.worker.outgoing)) {
                Ok(count) => {
                    if count == 0 {
                        break ;
                    }
                    let ghost outgoing = self.worker@.outgoing;
                    self.worker.sent(count);
                    proof {
                        let step = if count <= outgoing.len() {
                            count as int
                        } else {
                            outgoing.len() as int
                        };
                        assert(before.outgoing.skip(written).skip(step) =~= before.outgoing.skip(
                            written + step,
                        ));
                        assert(outgoing.skip(outgoing.len() as int) =~= Seq::<u8>::empty());
                        written = written + step;
                    }
                },
                Err(_) => {
                    self.worker.fail();
                    break ;
                },
            }
            left = buffer_len(&self.worker.outgoing);
        }
    }

    /// Deals with a message: what the worker decides, and where it asks for
    /// a run, the run and its outcome.
    pub fn handle_message(&mut self, message: &Message) -> (result: Result<(), Error>)
        requires
            old(self).worker.wf(),
        ensures
            final(self).worker.wf(),
            final(self).worker@.events == old(self).worker@.events,
            exists|outcome: Result<Seq<Type>, Seq<char>>|
                {
                    let h = #[trigger] handled(old(self).worker@, message@, outcome);
                    &&& final(self).worker@ == h.after
                    &&& match result {
                        Ok(_) => h.fault is None,
                        Err(error) => h.fault matches Some(fault) && is_fault(error, fault),
                    }
                },
    {
        let ghost before = self.worker@;
        let ghost any: Result<Seq<Type>, Seq<char>> = Err(Seq::empty());
        let run = match self.worker.accept(message) {
            Ok(Some(run)) => run,
            Ok(None) => {
                assert(self.worker@ == handled(before, message@, any).after);
                return Ok(());
            },
            Err(error) => {
                assert(self.worker@ == handled(before, message@, any).after);
                return Err(error);
            },
        };
        let outcome = match self.worker.module_bytes(run.module.as_str()) {
            Some(bytes) => self.executor.execute(bytes, run.params),
            None => {
                assert(self.worker@ == handled(before, message@, any).after);
                return Err(Error::CacheEntryNotFound(run.module));
            },
        };
        let ghost seen: Result<Seq<Type>, Seq<char>> = match &outcome {
            Ok(values) => Ok(values@),
            Err(text) => Err(text@),
        };
        let result = self.worker.finish(run.task_id, outcome);
        assert(self.worker@ == handled(before, message@, seen).after);
        result
    }

    /// Deals with the events in the queue, oldest first, until the queue is
    /// empty or the worker fails. A message that cannot be dealt with and a
    /// timeout of the task in execution fail the worker.
    pub fn process_events(&mut self)
        requires
            old(self).worker.wf(),
        ensures
            final(self).worker.wf(),
            exists|outcomes: Seq<Result<Seq<Type>, Seq<char>>>|
                final(self).worker@ == #[trigger] replayed(old(self).worker@, outcomes),
    {
        let ghost start = self.worker@;
        let ghost mut used: Seq<Result<Seq<Type>, Seq<char>>> = Seq::empty();
        let mut pending = self.worker.events.len();
        proof {
            assert forall|tail: Seq<Result<Seq<Type>, Seq<char>>>| #[trigger]
                replayed(start, used + tail) == replayed(self.worker@, tail) by {
                assert(used + tail =~= tail);
            }
        }
        while pending > 0
            invariant_except_break
                pending == self.worker@.events.len(),
                forall|tail: Seq<Result<Seq<Type>, Seq<char>>>| #[trigger]
                    replayed(start, used + tail) == replayed(self.worker@, tail),
            invariant
                self.worker.wf(),
            ensures
                self.worker.wf(),
                exists|outcomes: Seq<Result<Seq<Type>, Seq<char>>>|
                    self.worker@ == #[trigger] replayed(start, outcomes),
            decreases pending,
        {
            let ghost current = self.worker@;
            let ghost before = used;
            match self.worker.events.pop() {
                Some(SessionEvent::Message(message)) => {
                    let ghost rest = self.worker@;
                    let result = self.handle_message(&message);
                    let ghost outcome = choose|outcome: Result<Seq<Type>, Seq<char>>|
                        {
                            let h = #[trigger] handled(rest, message@, outcome);
                            &&& self.worker@ == h.after
                            &&& match result {
                                Ok(_) => h.fault is None,
                                Err(error) => h.fault matches Some(fault) && is_fault(error, fault),
                            }
                        };
                    proof {
                        assert(rest == WorkerView { events: current.events.skip(1), ..current });
                        if runs(rest, message@) {
                            used = used.push(outcome);
                        }
                    }
                    match result {
                        Ok(_) => {
                            proof {
                                assert forall|tail: Seq<Result<Seq<Type>, Seq<char>>>| #[trigger]
                                    replayed(start, used + tail) == replayed(self.worker@, tail) by {
                                    if runs(rest, message@) {
                                        let longer = seq![outcome] + tail;
                                        assert(used + tail =~= before + longer);
                                        assert(longer.skip(1) =~= tail);
                                        assert(replayed(current, longer) == replayed(
                                            self.worker@,
                                            tail,
                                        ));
                                    } else {
                                        let other = if tail.len() > 0 {
                                            tail[0]
                                        } else {
                                            Err(Seq::empty())
                                        };
                                        assert(handled(rest, message@, other) == handled(
                                            rest,
                                            message@,
                                            outcome,
                                        ));
                                        assert(replayed(current, tail) == replayed(
                                            self.worker@,
                                            tail,
                                        ));
                                    }
                                }
                            }
                        },
                        Err(_) => {
                            let ghost faulty = self.worker@;
                            self.worker.fail();
                            proof {
                                if runs(rest, message@) {
                                    let longer = seq![outcome];
                                    assert(used + Seq::empty() =~= before + longer);
                                    assert(replayed(current, longer) == failed(faulty));
                                    assert(replayed(start, used + Seq::empty()) == self.worker@);
                                } else {
                                    let none = Seq::<Result<Seq<Type>, Seq<char>>>::empty();
                                    assert(handled(rest, message@, Err(Seq::empty())) == handled(
                                        rest,
                                        message@,
                                        outcome,
                                    ));
                                    assert(replayed(current, none) == failed(faulty));
                                    assert(replayed(start, used + none) == self.worker@);
                                }
                            }
                            break ;
                        },
                    }
                },
                Some(SessionEvent::TaskTimeout(task_id)) => {
                    let ghost rest = self.worker@;
                    proof {
                        assert(rest == WorkerView { events: current.events.skip(1), ..current });
                    }
                    if self.worker.time_out(task_id) {
                        proof {
                            let none = Seq::<Result<Seq<Type>, Seq<char>>>::empty();
                            assert(replayed(current, none) == self.worker@);
                            assert(replayed(start, used + none) == self.worker@);
                        }
                        break ;
                    }
                    proof {
                        assert forall|tail: Seq<Result<Seq<Type>, Seq<char>>>| #[trigger]
                            replayed(start, used + tail) == replayed(self.worker@, tail) by {
                            assert(replayed(current, tail) == replayed(self.worker@, tail));
                        }
                    }
                },
                None => {
                    proof {
                        let none = Seq::<Result<Seq<Type>, Seq<char>>>::empty();
                        assert(replayed(start, used + none) == self.worker@);
                    }
                    break ;
                },
            }
            pending = self.worker.events.len();
        }
        proof {
            if pending == 0 && self.worker@.events.len() == 0 {
                let none = Seq::<Result<Seq<Type>, Seq<char>>>::empty();
                assert(replayed(self.worker@, none) == self.worker@);
            }
        }
    }

    /// Looks after the state by the clock. A report that cannot be sent
    /// fails the worker.
    pub fn process_state(&mut self)
        requires
            old(self).worker.wf(),
        ensures
            final(self).worker.wf(),
            exists|now: u64| looked_after(old(self).worker@, final(self).worker@, now),
    {
        let ghost before = self.worker@;
        let now = self.clock.timestamp();
        match self.worker.check_state(now) {
            Ok(_) => {},
            Err(_) => {
                self.worker.fail();
            },
        }
        assert(looked_after(before, self.worker@, now));
    }

    /// One round of the session: bytes are moved, events are dealt with,
    /// and the state is looked after. A session is run by reporting for
    /// duty with [`Session::start`] and then making round after round.
    pub fn step(&mut self)
        requires
            old(self).worker.wf(),
        ensures
            final(self).worker.wf(),
            stepped(old(self).worker@, final(self).worker@),
    {
        let ghost before = self.worker@;
        self.process_io();
        let ghost first = self.worker@;
        self.process_events();
        let ghost second = self.worker@;
        self.process_state();
        proof {
            let (held, count) = choose|held: Seq<u8>, count: int| moved(before, first, held, count);
            let outcomes = choose|outcomes: Seq<Result<Seq<Type>, Seq<char>>>|
                second == #[trigger] replayed(first, outcomes);
            let now = choose|now: u64| looked_after(second, self.worker@, now);
            assert(moved(before, first, held, count) && second == replayed(first, outcomes)
                && looked_after(second, self.worker@, now));
        }
    }
}

} // verus!
