//! The dispatcher's side of one connected worker.

use crate::buffer::buffer_bytes;
use crate::protocol::{messages_view, names_view, Message, MessageView};
use std::collections::VecDeque;
use vstd::prelude::*;

verus! {

/// Whether a session can take work.
#[derive(Clone, Copy, Debug, PartialEq, Eq, Structural)]
pub enum SessionStatus {
    Connected,
    Occupied,
    Disconnected,
    Zombie,
}

/// Liveness of a session. Times are seconds on the dispatcher's clock.
#[derive(Clone, Copy, Debug, PartialEq, Eq, Structural)]
pub struct SessionHealth {
    pub retries: u8,
    pub status: SessionStatus,
    pub last_heartbeat: u64,
}

/// The two byte buffers between a session and its channel.
pub struct SessionStream {
    pub incoming: bytes::BytesMut,
    pub outgoing: bytes::BytesMut,
}

/// Model of a [`SessionStream`].
pub struct SessionStreamView {
    pub incoming: Seq<u8>,
    pub outgoing: Seq<u8>,
}

impl View for SessionStream {
    type V = SessionStreamView;

    open spec fn view(&self) -> SessionStreamView {
        SessionStreamView {
            incoming: buffer_bytes(self.incoming),
            outgoing: buffer_bytes(self.outgoing),
        }
    }
}

/// What the dispatcher knows of a device.
#[derive(Debug)]
pub struct Session {
    pub device_addr: String,
    /// Free RAM the device reported, in bytes.
    pub device_ram: u64,
    /// Outbound messages, oldest first, not yet encoded.
    pub message_queue: VecDeque<Message>,
    /// Round-trip latency last measured, in nanoseconds.
    pub latency: u64,
    /// Names of the modules the device reports as cached.
    pub modules: Vec<String>,
}

/// Model of a [`Session`].
pub struct SessionView {
    pub device_addr: Seq<char>,
    pub device_ram: u64,
    pub message_queue: Seq<MessageView>,
    pub latency: u64,
    pub modules: Seq<Seq<char>>,
}

impl View for Session {
    type V = SessionView;

    open spec fn view(&self) -> SessionView {
        SessionView {
            device_addr: self.device_addr@,
            device_ram: self.device_ram,
            message_queue: messages_view(self.message_queue@),
            latency: self.latency,
            modules: names_view(self.modules@),
        }
    }
}

} // verus!
