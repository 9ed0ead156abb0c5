//! Units of work and their lifecycle.

use crate::protocol::Type;
use vstd::prelude::*;

verus! {

/// The phase of a task's lifecycle.
#[derive(Clone, Copy, Debug, PartialEq, Eq, Structural)]
pub enum TaskStatePhase {
    Queued,
    Distributing,
    Executing,
    Completed,
    Failed,
}

/// Where a task stands: its phase, the device it is bound to, and the time
/// by which its execution is due, in seconds on the dispatcher's clock.
#[derive(Clone, Copy, Debug, PartialEq, Eq, Structural)]
pub struct TaskState {
    pub phase: TaskStatePhase,
    pub assigned_device: Option<u64>,
    pub deadline: Option<u64>,
}

/// A unit of work: a module reference and typed parameters.
#[derive(Debug, PartialEq, Eq)]
pub struct Task {
    pub name: String,
    pub params: Vec<Type>,
    /// Empty until execution completes.
    pub result: Vec<Type>,
    pub created_at: u64,
    /// Handle of the entity that carries the module.
    pub require_module: u64,
    pub priority: u8,
}

/// Model of a [`Task`].
pub struct TaskView {
    pub name: Seq<char>,
    pub params: Seq<Type>,
    pub result: Seq<Type>,
    pub created_at: u64,
    pub require_module: u64,
    pub priority: u8,
}

impl View for Task {
    type V = TaskView;

    open spec fn view(&self) -> TaskView {
        TaskView {
            name: self.name@,
            params: self.params@,
            result: self.result@,
            created_at: self.created_at,
            require_module: self.require_module,
            priority: self.priority,
        }
    }
}

} // verus!
