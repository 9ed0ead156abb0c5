//! Messages and frames on the wire.
//!
//! A message is its variant's number as a variable-length integer, then its
//! fields in order. A frame is the length of the message in two bytes, most
//! significant first, and then the message.

use crate::protocol::values::{
    lemma_name_list_roundtrip, lemma_type_list_roundtrip, name_list, parse_name_list,
    parse_type_list, read_names, read_types, type_list, write_names, write_types,
};
use crate::protocol::wire::{
    agrees, append, be_bytes, be_value, blob, bool_byte, get_be, has_at, lemma_be_len,
    lemma_be_roundtrip, lemma_blob_roundtrip, lemma_bool_roundtrip, lemma_has_at_split,
    lemma_pow256, lemma_text_roundtrip, lemma_varint_roundtrip, parse_blob, parse_bool, parse_text,
    parse_varint, put_be, read_blob, read_bool, read_text, read_varint, text, varint, write_blob,
    write_bool, write_text, write_varint, Parsed, Taken,
};
use crate::protocol::{AckInfo, AckInfoView, Error, Message, MessageView, ModuleInfo, ModuleInfoView};
use vstd::prelude::*;
use vstd::slice::slice_subrange;

verus! {

/// The longest message that fits a frame, in bytes.
pub const MAX_PAYLOAD: usize = 65535;

/// A module descriptor on the wire.
pub open spec fn module_info(module: ModuleInfoView) -> Seq<u8> {
    text(module.name) + varint(module.size as nat) + varint(module.chunk_size as nat) + varint(
        module.total_chunks as nat,
    )
}

/// Reads a module descriptor at `pos`.
pub open spec fn parse_module_info(s: Seq<u8>, pos: int) -> Option<Taken<ModuleInfoView>> {
    match parse_text(s, pos) {
        None => None,
        Some(name) => match parse_varint(s, name.next, 8) {
            None => None,
            Some(size) => match parse_varint(s, size.next, 4) {
                None => None,
                Some(chunk_size) => match parse_varint(s, chunk_size.next, 4) {
                    None => None,
                    Some(total_chunks) => Some(
                        Taken {
                            value: ModuleInfoView {
                                name: name.value,
                                size: size.value as u64,
                                chunk_size: chunk_size.value as u32,
                                total_chunks: total_chunks.value as u32,
                            },
                            next: total_chunks.next,
                        },
                    ),
                },
            },
        },
    }
}

/// An acknowledgment on the wire.
pub open spec fn ack_info(ack: AckInfoView) -> Seq<u8> {
    match ack {
        AckInfoView::Task { modules } => varint(0) + name_list(modules),
        AckInfoView::Module { chunk_index, success } => varint(1) + varint(chunk_index as nat)
            + bool_byte(success),
    }
}

/// Reads an acknowledgment at `pos`.
pub open spec fn parse_ack_info(s: Seq<u8>, pos: int) -> Option<Taken<AckInfoView>> {
    match parse_varint(s, pos, 4) {
        None => None,
        Some(tag) => if tag.value == 0 {
            match parse_name_list(s, tag.next) {
                None => None,
                Some(modules) => Some(
                    Taken { value: AckInfoView::Task { modules: modules.value }, next: modules.next },
                ),
            }
        } else if tag.value == 1 {
            match parse_varint(s, tag.next, 4) {
                None => None,
                Some(chunk_index) => match parse_bool(s, chunk_index.next) {
                    None => None,
                    Some(success) => Some(
                        Taken {
                            value: AckInfoView::Module {
                                chunk_index: chunk_index.value as u32,
                                success: success.value,
                            },
                            next: success.next,
                        },
                    ),
                },
            }
        } else {
            None
        },
    }
}

/// The number of a message's variant.
pub open spec fn variant(message: MessageView) -> nat {
    match message {
        MessageView::ClientReady { .. } => 0,
        MessageView::ServerTask { .. } => 1,
        MessageView::ServerModule { .. } => 2,
        MessageView::ClientAck { .. } => 3,
        MessageView::ClientResult { .. } => 4,
        MessageView::ServerAck { .. } => 5,
        MessageView::Heartbeat { .. } => 6,
    }
}

/// The fields of a message on the wire.
pub open spec fn fields(message: MessageView) -> Seq<u8> {
    match message {
        MessageView::ClientReady { modules, device_ram } => name_list(modules) + varint(
            device_ram as nat,
        ),
        MessageView::ServerTask { task_id, module, params } => varint(task_id as nat)
            + module_info(module) + type_list(params),
        MessageView::ServerModule { task_id, chunk_index, chunk_data } => varint(task_id as nat)
            + varint(chunk_index as nat) + blob(chunk_data),
        MessageView::ClientAck { task_id, ack_info: ack } => varint(task_id as nat) + ack_info(ack),
        MessageView::ClientResult { task_id, result } => varint(task_id as nat) + type_list(result),
        MessageView::ServerAck { task_id, success } => varint(task_id as nat) + bool_byte(success),
        MessageView::Heartbeat { timestamp } => varint(timestamp as nat),
    }
}

/// A message on the wire.
pub open spec fn payload(message: MessageView) -> Seq<u8> {
    varint(variant(message)) + fields(message)
}

/// Reads the fields of a message of variant `tag` at `pos`.
pub open spec fn parse_fields(s: Seq<u8>, pos: int, tag: nat) -> Option<Taken<MessageView>> {
    if tag == 0 {
        match parse_name_list(s, pos) {
            None => None,
            Some(modules) => match parse_varint(s, modules.next, 8) {
                None => None,
                Some(ram) => Some(
                    Taken {
                        value: MessageView::ClientReady {
                            modules: modules.value,
                            device_ram: ram.value as u64,
                        },
                        next: ram.next,
                    },
                ),
            },
        }
    } else if tag == 6 {
        match parse_varint(s, pos, 8) {
            None => None,
            Some(timestamp) => Some(
                Taken {
                    value: MessageView::Heartbeat { timestamp: timestamp.value as u64 },
                    next: timestamp.next,
                },
            ),
        }
    } else if 1 <= tag <= 5 {
        match parse_varint(s, pos, 8) {
            None => None,
            Some(id) => {
                let task_id = id.value as u64;
                if tag == 1 {
                    match parse_module_info(s, id.next) {
                        None => None,
                        Some(module) => match parse_type_list(s, module.next) {
                            None => None,
                            Some(params) => Some(
                                Taken {
                                    value: MessageView::ServerTask {
                                        task_id,
                                        module: module.value,
                                        params: params.value,
                                    },
                                    next: params.next,
                                },
                            ),
                        },
                    }
                } else if tag == 2 {
                    match parse_varint(s, id.next, 4) {
                        None => None,
                        Some(index) => match parse_blob(s, index.next) {
                            None => None,
                            Some(data) => Some(
                                Taken {
                                    value: MessageView::ServerModule {
                                        task_id,
                                        chunk_index: index.value as u32,
                                        chunk_data: data.value,
                                    },
                                    next: data.next,
                                },
                            ),
                        },
                    }
                } else if tag == 3 {
                    match parse_ack_info(s, id.next) {
                        None => None,
                        Some(ack) => Some(
                            Taken {
                                value: MessageView::ClientAck { task_id, ack_info: ack.value },
                                next: ack.next,
                            },
                        ),
                    }
                } else if tag == 4 {
                    match parse_type_list(s, id.next) {
                        None => None,
                        Some(result) => Some(
                            Taken {
                                value: MessageView::ClientResult { task_id, result: result.value },
                                next: result.next,
                            },
                        ),
                    }
                } else {
                    match parse_bool(s, id.next) {
                        None => None,
                        Some(success) => Some(
                            Taken {
                                value: MessageView::ServerAck { task_id, success: success.value },
                                next: success.next,
                            },
                        ),
                    }
                }
            },
        }
    } else {
        None
    }
}

/// Reads a message at `pos`.
pub open spec fn parse_payload(s: Seq<u8>, pos: int) -> Option<Taken<MessageView>> {
    match parse_varint(s, pos, 4) {
        None => None,
        Some(tag) => parse_fields(s, tag.next, tag.value),
    }
}

/// A message in its frame.
pub open spec fn frame(message: MessageView) -> Seq<u8> {
    be_bytes(payload(message).len(), 2) + payload(message)
}

/// What decoding makes of a buffer: the message of the frame that the buffer
/// starts with and the length of that frame, or why there is none.
pub open spec fn decoded(data: Seq<u8>) -> Result<(MessageView, nat), Error> {
    if data.len() < 2 {
        Err(Error::InsufficientData)
    } else {
        let len = be_value(data.subrange(0, 2));
        if data.len() < 2 + len {
            Err(Error::InsufficientData)
        } else {
            match parse_payload(data.subrange(2, 2 + len as int), 0) {
                None => Err(Error::Malformed),
                Some(message) => if message.next != len {
                    Err(Error::InvalidMessage)
                } else {
                    Ok((message.value, 2 + len))
                },
            }
        }
    }
}

/// A module descriptor is read back.
pub proof fn lemma_module_info_roundtrip(s: Seq<u8>, pos: int, module: ModuleInfoView)
    requires
        has_at(s, pos, module_info(module)),
        s.len() <= u64::MAX,
    ensures
        parse_module_info(s, pos) == Some(
            Taken { value: module, next: pos + module_info(module).len() },
        ),
{
    lemma_pow256();
    let a = text(module.name);
    let b = varint(module.size as nat);
    let c = varint(module.chunk_size as nat);
    let d = varint(module.total_chunks as nat);
    lemma_has_at_split(s, pos, a + b + c, d);
    lemma_has_at_split(s, pos, a + b, c);
    lemma_has_at_split(s, pos, a, b);
    lemma_text_roundtrip(s, pos, module.name);
    lemma_varint_roundtrip(s, pos + a.len(), module.size as nat, 8);
    lemma_varint_roundtrip(s, pos + a.len() + b.len(), module.chunk_size as nat, 4);
    lemma_varint_roundtrip(s, pos + a.len() + b.len() + c.len(), module.total_chunks as nat, 4);
}

/// An acknowledgment is read back.
pub proof fn lemma_ack_info_roundtrip(s: Seq<u8>, pos: int, ack: AckInfoView)
    requires
        has_at(s, pos, ack_info(ack)),
        s.len() <= u64::MAX,
    ensures
        parse_ack_info(s, pos) == Some(Taken { value: ack, next: pos + ack_info(ack).len() }),
{
    lemma_pow256();
    match ack {
        AckInfoView::Task { modules } => {
            lemma_has_at_split(s, pos, varint(0), name_list(modules));
            lemma_varint_roundtrip(s, pos, 0, 4);
            lemma_name_list_roundtrip(s, pos + 1, modules);
        },
        AckInfoView::Module { chunk_index, success } => {
            let a = varint(1);
            let b = varint(chunk_index as nat);
            lemma_has_at_split(s, pos, a + b, bool_byte(success));
            lemma_has_at_split(s, pos, a, b);
            lemma_varint_roundtrip(s, pos, 1, 4);
            lemma_varint_roundtrip(s, pos + 1, chunk_index as nat, 4);
            lemma_bool_roundtrip(s, pos + 1 + b.len(), success);
        },
    }
}

/// The fields of a readiness report are read back.
proof fn lemma_ready_roundtrip(s: Seq<u8>, pos: int, modules: Seq<Seq<char>>, device_ram: u64)
    requires
        has_at(s, pos, name_list(modules) + varint(device_ram as nat)),
        s.len() <= u64::MAX,
    ensures
        parse_fields(s, pos, 0) == Some(
            Taken {
                value: MessageView::ClientReady { modules, device_ram },
                next: pos + (name_list(modules) + varint(device_ram as nat)).len(),
            },
        ),
{
    lemma_pow256();
    lemma_has_at_split(s, pos, name_list(modules), varint(device_ram as nat));
    lemma_name_list_roundtrip(s, pos, modules);
    lemma_varint_roundtrip(s, pos + name_list(modules).len(), device_ram as nat, 8);
}

/// The fields of a task advertisement are read back.
proof fn lemma_task_roundtrip(
    s: Seq<u8>,
    pos: int,
    task_id: u64,
    module: ModuleInfoView,
    params: Seq<crate::protocol::Type>,
)
    requires
        has_at(s, pos, varint(task_id as nat) + module_info(module) + type_list(params)),
        s.len() <= u64::MAX,
    ensures
        parse_fields(s, pos, 1) == Some(
            Taken {
                value: MessageView::ServerTask { task_id, module, params },
                next: pos + (varint(task_id as nat) + module_info(module) + type_list(
                    params,
                )).len(),
            },
        ),
{
    lemma_pow256();
    let a = varint(task_id as nat);
    let b = module_info(module);
    lemma_has_at_split(s, pos, a + b, type_list(params));
    lemma_has_at_split(s, pos, a, b);
    lemma_varint_roundtrip(s, pos, task_id as nat, 8);
    lemma_module_info_roundtrip(s, pos + a.len(), module);
    lemma_type_list_roundtrip(s, pos + a.len() + b.len(), params);
}

/// The fields of a chunk message are read back.
proof fn lemma_chunk_roundtrip(
    s: Seq<u8>,
    pos: int,
    task_id: u64,
    chunk_index: u32,
    chunk_data: Seq<u8>,
)
    requires
        has_at(s, pos, varint(task_id as nat) + varint(chunk_index as nat) + blob(chunk_data)),
        s.len() <= u64::MAX,
    ensures
        parse_fields(s, pos, 2) == Some(
            Taken {
                value: MessageView::ServerModule { task_id, chunk_index, chunk_data },
                next: pos + (varint(task_id as nat) + varint(chunk_index as nat) + blob(
                    chunk_data,
                )).len(),
            },
        ),
{
    lemma_pow256();
    let a = varint(task_id as nat);
    let b = varint(chunk_index as nat);
    lemma_has_at_split(s, pos, a + b, blob(chunk_data));
    lemma_has_at_split(s, pos, a, b);
    lemma_varint_roundtrip(s, pos, task_id as nat, 8);
    lemma_varint_roundtrip(s, pos + a.len(), chunk_index as nat, 4);
    lemma_blob_roundtrip(s, pos + a.len() + b.len(), chunk_data);
}

/// The fields of an acknowledgment message are read back.
proof fn lemma_ack_roundtrip(s: Seq<u8>, pos: int, task_id: u64, ack: AckInfoView)
    requires
        has_at(s, pos, varint(task_id as nat) + ack_info(ack)),
        s.len() <= u64::MAX,
    ensures
        parse_fields(s, pos, 3) == Some(
            Taken {
                value: MessageView::ClientAck { task_id, ack_info: ack },
                next: pos + (varint(task_id as nat) + ack_info(ack)).len(),
            },
        ),
{
    lemma_pow256();
    let a = varint(task_id as nat);
    lemma_has_at_split(s, pos, a, ack_info(ack));
    lemma_varint_roundtrip(s, pos, task_id as nat, 8);
    lemma_ack_info_roundtrip(s, pos + a.len(), ack);
}

/// The fields of a result message are read back.
proof fn lemma_result_roundtrip(
    s: Seq<u8>,
    pos: int,
    task_id: u64,
    result: Seq<crate::protocol::Type>,
)
    requires
        has_at(s, pos, varint(task_id as nat) + type_list(result)),
        s.len() <= u64::MAX,
    ensures
        parse_fields(s, pos, 4) == Some(
            Taken {
                value: MessageView::ClientResult { task_id, result },
                next: pos + (varint(task_id as nat) + type_list(result)).len(),
            },
        ),
{
    lemma_pow256();
    let a = varint(task_id as nat);
    lemma_has_at_split(s, pos, a, type_list(result));
    lemma_varint_roundtrip(s, pos, task_id as nat, 8);
    lemma_type_list_roundtrip(s, pos + a.len(), result);
}

/// The fields of a dispatcher's acknowledgment are read back.
proof fn lemma_server_ack_roundtrip(s: Seq<u8>, pos: int, task_id: u64, success: bool)
    requires
        has_at(s, pos, varint(task_id as nat) + bool_byte(success)),
        s.len() <= u64::MAX,
    ensures
        parse_fields(s, pos, 5) == Some(
            Taken {
                value: MessageView::ServerAck { task_id, success },
                next: pos + (varint(task_id as nat) + bool_byte(success)).len(),
            },
        ),
{
    lemma_pow256();
    let a = varint(task_id as nat);
    lemma_has_at_split(s, pos, a, bool_byte(success));
    lemma_varint_roundtrip(s, pos, task_id as nat, 8);
    lemma_bool_roundtrip(s, pos + a.len(), success);
}

/// The field of a heartbeat is read back.
proof fn lemma_heartbeat_roundtrip(s: Seq<u8>, pos: int, timestamp: u64)
    requires
        has_at(s, pos, varint(timestamp as nat)),
        s.len() <= u64::MAX,
    ensures
        parse_fields(s, pos, 6) == Some(
            Taken {
                value: MessageView::Heartbeat { timestamp },
                next: pos + varint(timestamp as nat).len(),
            },
        ),
{
    lemma_pow256();
    lemma_varint_roundtrip(s, pos, timestamp as nat, 8);
}

/// The fields of a message are read back.
pub proof fn lemma_fields_roundtrip(s: Seq<u8>, pos: int, message: MessageView)
    requires
        has_at(s, pos, fields(message)),
        s.len() <= u64::MAX,
    ensures
        parse_fields(s, pos, variant(message)) == Some(
            Taken { value: message, next: pos + fields(message).len() },
        ),
{
    match message {
        MessageView::ClientReady { modules, device_ram } => {
            lemma_ready_roundtrip(s, pos, modules, device_ram);
        },
        MessageView::ServerTask { task_id, module, params } => {
            lemma_task_roundtrip(s, pos, task_id, module, params);
        },
        MessageView::ServerModule { task_id, chunk_index, chunk_data } => {
            lemma_chunk_roundtrip(s, pos, task_id, chunk_index, chunk_data);
        },
        MessageView::ClientAck { task_id, ack_info: ack } => {
            lemma_ack_roundtrip(s, pos, task_id, ack);
        },
        MessageView::ClientResult { task_id, result } => {
            lemma_result_roundtrip(s, pos, task_id, result);
        },
        MessageView::ServerAck { task_id, success } => {
            lemma_server_ack_roundtrip(s, pos, task_id, success);
        },
        MessageView::Heartbeat { timestamp } => {
            lemma_heartbeat_roundtrip(s, pos, timestamp);
        },
    }
}

/// A message is read back.
pub proof fn lemma_payload_roundtrip(s: Seq<u8>, pos: int, message: MessageView)
    requires
        has_at(s, pos, payload(message)),
        s.len() <= u64::MAX,
    ensures
        parse_payload(s, pos) == Some(
            Taken { value: message, next: pos + payload(message).len() },
        ),
{
    lemma_pow256();
    lemma_has_at_split(s, pos, varint(variant(message)), fields(message));
    lemma_varint_roundtrip(s, pos, variant(message), 4);
    lemma_fields_roundtrip(s, pos + 1, message);
}

/// Decoding a buffer that starts with the frame of a message gives the
/// message back and consumes exactly the frame, whatever follows it.
pub proof fn lemma_decode_frame(message: MessageView, rest: Seq<u8>)
    requires
        payload(message).len() <= MAX_PAYLOAD,
    ensures
        decoded(frame(message) + rest) == Ok::<(MessageView, nat), Error>(
            (message, frame(message).len()),
        ),
{
    lemma_pow256();
    let body = payload(message);
    let data = frame(message) + rest;
    lemma_be_len(body.len(), 2);
    lemma_be_roundtrip(body.len(), 2);
    assert(data.subrange(0, 2) =~= be_bytes(body.len(), 2));
    assert(data.subrange(2, 2 + body.len() as int) =~= body);
    assert(body.subrange(0, body.len() as int) =~= body);
    lemma_payload_roundtrip(body, 0, message);
}

/// Decoding the encoding of a message gives the message back and consumes
/// all of it.
pub proof fn lemma_decode_encode(message: MessageView)
    requires
        payload(message).len() <= MAX_PAYLOAD,
    ensures
        decoded(frame(message)) == Ok::<(MessageView, nat), Error>(
            (message, frame(message).len()),
        ),
{
    lemma_decode_frame(message, Seq::empty());
    assert(frame(message) + Seq::<u8>::empty() =~= frame(message));
}

/// Appends a module descriptor.
pub fn write_module_info(out: &mut Vec<u8>, module: &ModuleInfo)
    ensures
        final(out)@ == old(out)@ + module_info(module@),
{
    write_text(out, &module.name);
    write_varint(out, module.size);
    write_varint(out, module.chunk_size as u64);
    write_varint(out, module.total_chunks as u64);
    assert(out@ =~= old(out)@ + module_info(module@));
}

/// Reads a module descriptor.
pub fn read_module_info(data: &[u8], pos: usize) -> (parsed: Option<Parsed<ModuleInfo>>)
    ensures
        agrees(parsed, parse_module_info(data@, pos as int), |v: ModuleInfo| v@),
        parsed is Some ==> pos < parsed->0.next <= data@.len(),
{
    let name = match read_text(data, pos) {
        Some(v) => v,
        None => {
            return None;
        },
    };
    let size = match read_varint(data, name.next, 8) {
        Some(v) => v,
        None => {
            return None;
        },
    };
    let chunk_size = match read_varint(data, size.next, 4) {
        Some(v) => v,
        None => {
            return None;
        },
    };
    let total_chunks = match read_varint(data, chunk_size.next, 4) {
        Some(v) => v,
        None => {
            return None;
        },
    };
    proof {
        lemma_pow256();
    }
    Some(
        Parsed {
            value: ModuleInfo {
                name: name.value,
                size: size.value,
                chunk_size: chunk_size.value as u32,
                total_chunks: total_chunks.value as u32,
            },
            next: total_chunks.next,
        },
    )
}

/// Appends an acknowledgment.
pub fn write_ack_info(out: &mut Vec<u8>, ack: &AckInfo)
    ensures
        final(out)@ == old(out)@ + ack_info(ack@),
{
    match ack {
        AckInfo::Task { modules } => {
            write_varint(out, 0);
            write_names(out, modules);
        },
        AckInfo::Module { chunk_index, success } => {
            write_varint(out, 1);
            write_varint(out, *chunk_index as u64);
            write_bool(out, *success);
        },
    }
    assert(out@ =~= old(out)@ + ack_info(ack@));
}

/// Reads an acknowledgment.
pub fn read_ack_info(data: &[u8], pos: usize) -> (parsed: Option<Parsed<AckInfo>>)
    ensures
        agrees(parsed, parse_ack_info(data@, pos as int), |v: AckInfo| v@),
        parsed is Some ==> pos < parsed->0.next <= data@.len(),
{
    let tag = match read_varint(data, pos, 4) {
        Some(v) => v,
        None => {
            return None;
        },
    };
    proof {
        lemma_pow256();
    }
    if tag.value == 0 {
        match read_names(data, tag.next) {
            Some(modules) => Some(
                Parsed { value: AckInfo::Task { modules: modules.value }, next: modules.next },
            ),
            None => None,
        }
    } else if tag.value == 1 {
        let chunk_index = match read_varint(data, tag.next, 4) {
            Some(v) => v,
            None => {
                return None;
            },
        };
        match read_bool(data, chunk_index.next) {
            Some(success) => Some(
                Parsed {
                    value: AckInfo::Module {
                        chunk_index: chunk_index.value as u32,
                        success: success.value,
                    },
                    next: success.next,
                },
            ),
            None => None,
        }
    } else {
        None
    }
}

/// Appends a message.
pub fn write_message(out: &mut Vec<u8>, message: &Message)
    ensures
        final(out)@ == old(out)@ + payload(message@),
{
    match message {
        Message::ClientReady { modules, device_ram } => {
            write_varint(out, 0);
            write_names(out, modules);
            write_varint(out, *device_ram);
        },
        Message::ServerTask { task_id, module, params } => {
            write_varint(out, 1);
            write_varint(out, *task_id);
            write_module_info(out, module);
            write_types(out, params);
        },
        Message::ServerModule { task_id, chunk_index, chunk_data } => {
            write_varint(out, 2);
            write_varint(out, *task_id);
            write_varint(out, *chunk_index as u64);
            write_blob(out, chunk_data.as_slice());
        },
        Message::ClientAck { task_id, ack_info: ack } => {
            write_varint(out, 3);
            write_varint(out, *task_id);
            write_ack_info(out, ack);
        },
        Message::ClientResult { task_id, result } => {
            write_varint(out, 4);
            write_varint(out, *task_id);
            write_types(out, result);
        },
        Message::ServerAck { task_id, success } => {
            write_varint(out, 5);
            write_varint(out, *task_id);
            write_bool(out, *success);
        },
        Message::Heartbeat { timestamp } => {
            write_varint(out, 6);
            write_varint(out, *timestamp);
        },
    }
    assert(out@ =~= old(out)@ + payload(message@));
}

/// Reads the fields of a message of variant `tag`.
fn read_fields(data: &[u8], pos: usize, tag: u64) -> (parsed: Option<Parsed<Message>>)
    ensures
        agrees(parsed, parse_fields(data@, pos as int, tag as nat), |v: Message| v@),
{
    proof {
        lemma_pow256();
    }
    if tag == 0 {
        let modules = match read_names(data, pos) {
            Some(v) => v,
            None => {
                return None;
            },
        };
        return match read_varint(data, modules.next, 8) {
            Some(ram) => Some(
                Parsed {
                    value: Message::ClientReady { modules: modules.value, device_ram: ram.value },
                    next: ram.next,
                },
            ),
            None => None,
        };
    }
    if tag == 6 {
        return match read_varint(data, pos, 8) {
            Some(timestamp) => Some(
                Parsed {
                    value: Message::Heartbeat { timestamp: timestamp.value },
                    next: timestamp.next,
                },
            ),
            None => None,
        };
    }
    if tag > 6 {
        return None;
    }
    let id = match read_varint(data, pos, 8) {
        Some(v) => v,
        None => {
            return None;
        },
    };
    let task_id = id.value;
    if tag == 1 {
        let module = match read_module_info(data, id.next) {
            Some(v) => v,
            None => {
                return None;
            },
        };
        match read_types(data, module.next) {
            Some(params) => Some(
                Parsed {
                    value: Message::ServerTask {
                        task_id,
                        module: module.value,
                        params: params.value,
                    },
                    next: params.next,
                },
            ),
            None => None,
        }
    } else if tag == 2 {
        let index = match read_varint(data, id.next, 4) {
            Some(v) => v,
            None => {
                return None;
            },
        };
        match read_blob(data, index.next) {
            Some(chunk) => Some(
                Parsed {
                    value: Message::ServerModule {
                        task_id,
                        chunk_index: index.value as u32,
                        chunk_data: chunk.value,
                    },
                    next: chunk.next,
                },
            ),
            None => None,
        }
    } else if tag == 3 {
        match read_ack_info(data, id.next) {
            Some(ack) => Some(
                Parsed { value: Message::ClientAck { task_id, ack_info: ack.value }, next: ack.next },
            ),
            None => None,
        }
    } else if tag == 4 {
        match read_types(data, id.next) {
            Some(result) => Some(
                Parsed {
                    value: Message::ClientResult { task_id, result: result.value },
                    next: result.next,
                },
            ),
            None => None,
        }
    } else {
        match read_bool(data, id.next) {
            Some(success) => Some(
                Parsed {
                    value: Message::ServerAck { task_id, success: success.value },
                    next: success.next,
                },
            ),
            None => None,
        }
    }
}

/// Reads a message.
pub fn read_message(data: &[u8], pos: usize) -> (parsed: Option<Parsed<Message>>)
    ensures
        agrees(parsed, parse_payload(data@, pos as int), |v: Message| v@),
{
    match read_varint(data, pos, 4) {
        Some(tag) => read_fields(data, tag.next, tag.value),
        None => None,
    }
}

impl Message {
    /// The length of a frame's header, in bytes.
    pub const HEADER_SIZE: usize = 2;

    /// The message in its frame, or `InvalidMessage` where the message is
    /// longer than a frame can say.
    pub fn encode(&self) -> (encoded: Result<Vec<u8>, Error>)
        ensures
            match encoded {
                Ok(bytes) => payload(self@).len() <= MAX_PAYLOAD && bytes@ == frame(self@),
                Err(error) => payload(self@).len() > MAX_PAYLOAD && error == Error::InvalidMessage,
            },
    {
        let mut body: Vec<u8> = Vec::new();
        write_message(&mut body, self);
        assert(body@ =~= payload(self@));
        if body.len() > MAX_PAYLOAD {
            return Err(Error::InvalidMessage);
        }
        let mut bytes: Vec<u8> = Vec::new();
        put_be(&mut bytes, body.len() as u128, 2);
        append(&mut bytes, body.as_slice());
        assert(bytes@ =~= frame(self@));
        Ok(bytes)
    }

    /// The length of the frame that `data` starts with, header included, or
    /// `None` where the frame is not complete.
    pub fn frame_size(data: &[u8]) -> (size: Option<usize>)
        ensures
            match size {
                Some(n) => data@.len() >= 2 && n == 2 + be_value(data@.subrange(0, 2)) && n
                    <= data@.len(),
                None => data@.len() < 2 || data@.len() < 2 + be_value(data@.subrange(0, 2)),
            },
    {
        if data.len() < 2 {
            return None;
        }
        let len = get_be(data, 0, 2);
        proof {
            lemma_pow256();
            crate::protocol::wire::lemma_be_value_bound(data@.subrange(0, 2));
        }
        let len = len as usize;
        if data.len() - 2 < len {
            None
        } else {
            Some(2 + len)
        }
    }

    /// Reads the frame that `data` starts with: its message and its length.
    /// Fails with `InsufficientData` where the frame is not complete, with
    /// `Malformed` where its payload is no message, and with `InvalidMessage`
    /// where the message ends before the payload does.
    pub fn decode(data: &[u8]) -> (result: Result<(Message, usize), Error>)
        ensures
            match result {
                Ok((message, consumed)) => decoded(data@) == Ok::<(MessageView, nat), Error>(
                    (message@, consumed as nat),
                ),
                Err(error) => decoded(data@) == Err::<(MessageView, nat), Error>(error),
            },
    {
        if data.len() < 2 {
            return Err(Error::InsufficientData);
        }
        let len = get_be(data, 0, 2);
        proof {
            lemma_pow256();
            crate::protocol::wire::lemma_be_value_bound(data@.subrange(0, 2));
        }
        let len = len as usize;
        if data.len() - 2 < len {
            return Err(Error::InsufficientData);
        }
        let total = 2 + len;
        let body = slice_subrange(data, 2, total);
        match read_message(body, 0) {
            None => Err(Error::Malformed),
            Some(parsed) => {
                if parsed.next != len {
                    Err(Error::InvalidMessage)
                } else {
                    Ok((parsed.value, total))
                }
            },
        }
    }
}

} // verus!
