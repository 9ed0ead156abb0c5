//! Modules and the record of their delivery.

use crate::bits::BitSet;
use vstd::prelude::*;

verus! {

/// Where the delivery of a module to a device stands.
#[derive(Clone, Copy, Debug, PartialEq, Eq, Structural)]
pub enum ModuleTransferState {
    /// The task was advertised; the device has not answered yet.
    Pending,
    /// The device answered; unacknowledged chunks are to be sent.
    Requested,
    /// The chunks were sent; acknowledgments are awaited.
    Transferring,
}

/// Attached to a task while its module is being delivered.
pub struct ModuleTransfer {
    pub state: ModuleTransferState,
    /// One bit per chunk, set once the device confirmed the chunk.
    pub acked_chunks: BitSet,
    pub retries: u8,
    /// The device the module goes to.
    pub session: u64,
}

/// Model of a [`ModuleTransfer`].
pub struct ModuleTransferView {
    pub state: ModuleTransferState,
    pub acked_chunks: Seq<bool>,
    pub retries: u8,
    pub session: u64,
}

impl View for ModuleTransfer {
    type V = ModuleTransferView;

    open spec fn view(&self) -> ModuleTransferView {
        ModuleTransferView {
            state: self.state,
            acked_chunks: self.acked_chunks@,
            retries: self.retries,
            session: self.session,
        }
    }
}

/// A module binary known to the dispatcher.
#[derive(Debug, PartialEq, Eq)]
pub struct Module {
    pub name: String,
    pub binary: Vec<u8>,
    pub dependencies: Vec<u64>,
    pub chunk_size: u32,
}

/// Model of a [`Module`].
pub struct ModuleView {
    pub name: Seq<char>,
    pub binary: Seq<u8>,
    pub dependencies: Seq<u64>,
    pub chunk_size: u32,
}

impl View for Module {
    type V = ModuleView;

    open spec fn view(&self) -> ModuleView {
        ModuleView {
            name: self.name@,
            binary: self.binary@,
            dependencies: self.dependencies@,
            chunk_size: self.chunk_size,
        }
    }
}

} // verus!
