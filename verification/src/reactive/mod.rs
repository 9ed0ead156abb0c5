//! A tree of reactive scopes with typed context values.
//!
//! Scopes nest: each but the first has a parent. A scope can provide a value
//! of some kind; a lookup finds the value of that kind in the nearest
//! enclosing scope that provides one. The tree is a value of its own that
//! every operation takes, rather than a global.

pub mod component;
pub mod context;
pub mod root;

pub use component::{component_scope, Children, Props, UnitBuilder};
pub use context::{
    provide_context, provide_context_in_new_scope, try_use_context, use_context,
    use_context_or_else, use_scope_depth,
};
pub use root::{create_child_scope, untrack, Binding, Root, Scope};
