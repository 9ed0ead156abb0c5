//! What an entity of the dispatcher's world may carry.

pub mod module;
pub mod session;
pub mod task;

pub use module::{Module, ModuleTransfer, ModuleTransferState, ModuleTransferView, ModuleView};
pub use session::{
    Session, SessionHealth, SessionStatus, SessionStream, SessionStreamView, SessionView,
};
pub use task::{Task, TaskState, TaskStatePhase, TaskView};
