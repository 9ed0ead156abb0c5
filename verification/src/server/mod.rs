//! The dispatcher.

pub mod components;
pub mod dispatcher;
pub mod inspector;
pub mod loader;
pub mod module;
pub mod world;
pub mod systems;
pub mod task;
