//! A distributed executor for self-contained bytecode modules.
//!
//! A central dispatcher queues tasks, schedules them onto connected worker
//! devices, streams module binaries in chunks and collects typed results.
//! Each worker caches recently used modules under tight memory pressure,
//! executes the bytecode and reports back.

pub mod adapter;
pub mod bits;
pub mod buffer;
pub mod program;
pub mod protocol;
pub mod reactive;
pub mod server;
pub mod task;
