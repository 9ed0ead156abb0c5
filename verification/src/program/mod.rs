//! The worker: a module cache under tight memory, an assembler for chunked
//! modules, and the session that ties them to a dispatcher.

pub mod cache;
pub mod session;

use vstd::prelude::*;

verus! {

/// What can go wrong on a worker.
#[derive(Debug, PartialEq, Eq)]
pub enum Error {
    /// A frame could not be produced or read.
    Protocol(crate::protocol::Error),
    /// The channel failed.
    Transport(String),
    /// The executor failed.
    Execution(String),
    /// A chunk index at or beyond the number of chunks: the index and the
    /// number.
    InvalidChunkIndex(usize, usize),
    /// A chunk that was received before.
    DuplicateChunk(usize),
    /// A chunk of the wrong length: the expected length and the actual one.
    InvalidChunkSize(usize, usize),
    /// A message for a task that is not the current one.
    TaskNotFound(u64),
    /// No slot of that name.
    CacheEntryNotFound(String),
    /// Not enough room: the bytes allocated and the capacity.
    CacheFull(usize, usize),
}

/// A monotonic clock with a resolution of seconds.
pub trait Clock {
    /// The time now.
    fn timestamp(&self) -> u64;
}

/// The bytecode engine. The module must export an entry point named `run`.
pub trait Executor {
    /// Runs the module on the parameters. An error is described in words.
    fn execute(&self, module: &[u8], params: Vec<crate::protocol::Type>) -> Result<
        Vec<crate::protocol::Type>,
        String,
    >;
}

/// A byte channel that does not block: where the channel is not ready,
/// nothing is read or written and the count is zero.
pub trait Transport {
    /// Reads what is there and appends it to `buf`. Returns the number of
    /// bytes read.
    fn read(&mut self, buf: &mut bytes::BytesMut) -> Result<usize, String>;

    /// Writes bytes from the start of `src`. Returns the number of bytes
    /// written.
    fn write(&mut self, src: &[u8]) -> Result<usize, String>;
}

} // verus!
