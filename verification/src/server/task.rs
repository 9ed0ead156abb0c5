//! A task as the first dispatcher kept it: a binary, its parameters and a
//! status.

use crate::protocol::Type;
use vstd::prelude::*;

verus! {

/// How far a task has come.
#[derive(Clone, Copy, Debug, PartialEq, Eq, Structural)]
pub enum TaskStatus {
    Queued,
    Dispatched,
    Completed,
    Failed,
}

/// A binary to run with parameters.
#[derive(Debug, PartialEq, Eq)]
pub struct Task {
    pub wasm_binary: Vec<u8>,
    pub params: Vec<Type>,
    pub status: TaskStatus,
}

} // verus!
