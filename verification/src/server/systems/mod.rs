//! The passes that the dispatcher runs on its world, once per tick.

pub mod laws;
pub mod lifecycle;
pub mod network;
pub mod pass;
pub mod planner;
pub mod schedule;
pub mod task;

pub use lifecycle::LifecycleSystem;
pub use network::NetworkSystem;
pub use task::TaskSystem;
