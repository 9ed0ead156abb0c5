//! The message set shared by dispatcher and worker, with the mathematical
//! model of each type.

pub mod codec;
pub mod config;
pub mod values;
pub mod wire;

pub use config::{Config, Environment, Wifi};

use vstd::prelude::*;

verus! {

/// A typed value of the executor's ABI. Floating-point values are carried as
/// their IEEE-754 bit patterns, which is how they travel on the wire.
#[derive(Clone, Copy, Debug, PartialEq, Eq, Structural)]
pub enum Type {
    Void,
    I32(i32),
    I64(i64),
    F32(u32),
    F64(u64),
    V128(i128),
}

/// Describes a module binary: its name, which is the cache key on both sides,
/// and how it is cut into chunks.
#[derive(Debug, PartialEq, Eq)]
pub struct ModuleInfo {
    pub name: String,
    pub size: u64,
    pub chunk_size: u32,
    pub total_chunks: u32,
}

/// Model of a [`ModuleInfo`].
pub struct ModuleInfoView {
    pub name: Seq<char>,
    pub size: u64,
    pub chunk_size: u32,
    pub total_chunks: u32,
}

/// What a worker acknowledges.
#[derive(Debug, PartialEq, Eq)]
pub enum AckInfo {
    /// Answer to a task advertisement: the module names the worker caches.
    Task { modules: Vec<String> },
    /// Confirmation, or refusal, of a single chunk.
    Module { chunk_index: u32, success: bool },
}

/// Model of an [`AckInfo`].
pub enum AckInfoView {
    Task { modules: Seq<Seq<char>> },
    Module { chunk_index: u32, success: bool },
}

/// A protocol message.
#[derive(Debug, PartialEq, Eq)]
pub enum Message {
    ClientReady { modules: Vec<String>, device_ram: u64 },
    ServerTask { task_id: u64, module: ModuleInfo, params: Vec<Type> },
    ServerModule { task_id: u64, chunk_index: u32, chunk_data: Vec<u8> },
    ClientAck { task_id: u64, ack_info: AckInfo },
    ClientResult { task_id: u64, result: Vec<Type> },
    ServerAck { task_id: u64, success: bool },
    Heartbeat { timestamp: u64 },
}

/// Model of a [`Message`].
pub enum MessageView {
    ClientReady { modules: Seq<Seq<char>>, device_ram: u64 },
    ServerTask { task_id: u64, module: ModuleInfoView, params: Seq<Type> },
    ServerModule { task_id: u64, chunk_index: u32, chunk_data: Seq<u8> },
    ClientAck { task_id: u64, ack_info: AckInfoView },
    ClientResult { task_id: u64, result: Seq<Type> },
    ServerAck { task_id: u64, success: bool },
    Heartbeat { timestamp: u64 },
}

/// Why a frame could not be produced or read.
#[derive(Clone, Copy, Debug, PartialEq, Eq, Structural)]
pub enum Error {
    /// The buffer ends before the frame does.
    InsufficientData,
    /// The payload does not fit a frame, or a frame's payload holds more than
    /// one message.
    InvalidMessage,
    /// The payload is not the encoding of any message.
    Malformed,
}

/// The names held by a list of strings.
pub open spec fn names_view(names: Seq<String>) -> Seq<Seq<char>> {
    names.map_values(|s: String| s@)
}

/// The messages held by a list.
pub open spec fn messages_view(messages: Seq<Message>) -> Seq<MessageView> {
    messages.map_values(|m: Message| m@)
}

impl View for ModuleInfo {
    type V = ModuleInfoView;

    open spec fn view(&self) -> ModuleInfoView {
        ModuleInfoView {
            name: self.name@,
            size: self.size,
            chunk_size: self.chunk_size,
            total_chunks: self.total_chunks,
        }
    }
}

impl View for AckInfo {
    type V = AckInfoView;

    open spec fn view(&self) -> AckInfoView {
        match *self {
            AckInfo::Task { modules } => AckInfoView::Task { modules: names_view(modules@) },
            AckInfo::Module { chunk_index, success } => AckInfoView::Module { chunk_index, success },
        }
    }
}

impl View for Message {
    type V = MessageView;

    open spec fn view(&self) -> MessageView {
        match *self {
            Message::ClientReady { modules, device_ram } => MessageView::ClientReady {
                modules: names_view(modules@),
                device_ram,
            },
            Message::ServerTask { task_id, module, params } => MessageView::ServerTask {
                task_id,
                module: module@,
                params: params@,
            },
            Message::ServerModule { task_id, chunk_index, chunk_data } => MessageView::ServerModule {
                task_id,
                chunk_index,
                chunk_data: chunk_data@,
            },
            Message::ClientAck { task_id, ack_info } => MessageView::ClientAck {
                task_id,
                ack_info: ack_info@,
            },
            Message::ClientResult { task_id, result } => MessageView::ClientResult {
                task_id,
                result: result@,
            },
            Message::ServerAck { task_id, success } => MessageView::ServerAck { task_id, success },
            Message::Heartbeat { timestamp } => MessageView::Heartbeat { timestamp },
        }
    }
}

/// Copies a list of names.
pub fn clone_names(names: &Vec<String>) -> (copy: Vec<String>)
    ensures
        names_view(copy@) == names_view(names@),
{
    let mut copy: Vec<String> = Vec::new();
    let mut i: usize = 0;
    while i < names.len()
        invariant
            i <= names.len(),
            copy.len() == i,
            forall|k: int| 0 <= k < i ==> copy@[k]@ == names@[k]@,
        decreases names.len() - i,
    {
        copy.push(names[i].clone());
        i += 1;
    }
    assert(names_view(copy@) =~= names_view(names@));
    copy
}

/// Copies a list of typed values.
pub fn clone_types(values: &Vec<Type>) -> (copy: Vec<Type>)
    ensures
        copy@ == values@,
{
    let mut copy: Vec<Type> = Vec::new();
    let mut i: usize = 0;
    while i < values.len()
        invariant
            i <= values.len(),
            copy@ == values@.take(i as int),
        decreases values.len() - i,
    {
        copy.push(values[i]);
        assert(values@.take(i as int).push(values@[i as int]) =~= values@.take(i + 1));
        i += 1;
    }
    assert(values@.take(values.len() as int) =~= values@);
    copy
}

/// Copies a run of bytes.
pub fn clone_bytes(bytes: &[u8]) -> (copy: Vec<u8>)
    ensures
        copy@ == bytes@,
{
    let mut copy: Vec<u8> = Vec::new();
    let mut i: usize = 0;
    while i < bytes.len()
        invariant
            i <= bytes.len(),
            copy@ == bytes@.take(i as int),
        decreases bytes.len() - i,
    {
        copy.push(bytes[i]);
        assert(bytes@.take(i as int).push(bytes@[i as int]) =~= bytes@.take(i + 1));
        i += 1;
    }
    assert(bytes@.take(bytes.len() as int) =~= bytes@);
    copy
}

impl Clone for ModuleInfo {
    fn clone(&self) -> (copy: Self)
        ensures
            copy@ == self@,
    {
        ModuleInfo {
            name: self.name.clone(),
            size: self.size,
            chunk_size: self.chunk_size,
            total_chunks: self.total_chunks,
        }
    }
}

impl Clone for AckInfo {
    fn clone(&self) -> (copy: Self)
        ensures
            copy@ == self@,
    {
        match self {
            AckInfo::Task { modules } => AckInfo::Task { modules: clone_names(modules) },
            AckInfo::Module { chunk_index, success } => AckInfo::Module {
                chunk_index: *chunk_index,
                success: *success,
            },
        }
    }
}

impl Clone for Message {
    fn clone(&self) -> (copy: Self)
        ensures
            copy@ == self@,
    {
        match self {
            Message::ClientReady { modules, device_ram } => Message::ClientReady {
                modules: clone_names(modules),
                device_ram: *device_ram,
            },
            Message::ServerTask { task_id, module, params } => Message::ServerTask {
                task_id: *task_id,
                module: module.clone(),
                params: clone_types(params),
            },
            Message::ServerModule { task_id, chunk_index, chunk_data } => Message::ServerModule {
                task_id: *task_id,
                chunk_index: *chunk_index,
                chunk_data: clone_bytes(chunk_data.as_slice()),
            },
            Message::ClientAck { task_id, ack_info } => Message::ClientAck {
                task_id: *task_id,
                ack_info: ack_info.clone(),
            },
            Message::ClientResult { task_id, result } => Message::ClientResult {
                task_id: *task_id,
                result: clone_types(result),
            },
            Message::ServerAck { task_id, success } => Message::ServerAck {
                task_id: *task_id,
                success: *success,
            },
            Message::Heartbeat { timestamp } => Message::Heartbeat { timestamp: *timestamp },
        }
    }
}

} // verus!

verus! {

/// Whether a list of names holds `name`.
pub fn contains_name(names: &Vec<String>, name: &String) -> (found: bool)
    ensures
        found == names_view(names@).contains(name@),
{
    let mut i: usize = 0;
    while i < names.len()
        invariant
            i <= names.len(),
            forall|k: int| 0 <= k < i ==> names@[k]@ != name@,
        decreases names.len() - i,
    {
        if names[i] == *name {
            assert(names_view(names@)[i as int] == name@);
            return true;
        }
        i += 1;
    }
    assert(!names_view(names@).contains(name@)) by {
        if names_view(names@).contains(name@) {
            let k = choose|k: int| 0 <= k < names_view(names@).len() && names_view(names@)[k] == name@;
            assert(names@[k]@ == name@);
        }
    }
    false
}

} // verus!
