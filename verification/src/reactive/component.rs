//! Components and their properties.

use crate::reactive::root::{untrack, Root};
use vstd::prelude::*;

verus! {

/// Runs a component's body. A component reads without being tracked, so that
/// it is not run again when what it read changes.
pub fn component_scope<V, T, F: FnOnce(&mut Root<V>) -> T>(root: &mut Root<V>, f: F) -> (result: T)
    requires
        forall|inner: &mut Root<V>| !inner.tracking ==> call_requires(f, (inner,)),
    ensures
        final(root).tracking == old(root).tracking,
        exists|inner: &mut Root<V>|
            {
                &&& *inner == Root { tracking: false, ..*old(root) }
                &&& #[trigger] call_ensures(f, (inner,), result)
                &&& *final(root) == Root { tracking: old(root).tracking, ..*final(inner) }
            },
{
    untrack(root, f)
}

/// What a component shows inside itself: a view that is made when it is
/// asked for.
pub struct Children<F> {
    f: F,
}

impl<F> Children<F> {
    /// Children that `f` makes.
    pub fn new(f: F) -> (children: Self)
        ensures
            children.maker() == f,
    {
        Self { f }
    }

    /// What makes the view.
    pub closed spec fn maker(self) -> F {
        self.f
    }

    /// Makes the view.
    pub fn call<V>(self) -> (view: V) where F: FnOnce() -> V
        requires
            call_requires(self.maker(), ()),
        ensures
            call_ensures(self.maker(), (), view),
    {
        (self.f)()
    }
}

/// The properties of a component, made by a builder.
pub trait Props {
    type Builder;

    /// A builder for these properties.
    fn builder() -> Self::Builder;
}

/// The builder of no properties.
#[derive(Debug)]
pub struct UnitBuilder;

impl UnitBuilder {
    /// No properties.
    pub fn build(self) {
    }
}

impl Props for () {
    type Builder = UnitBuilder;

    fn builder() -> UnitBuilder {
        UnitBuilder
    }
}

} // verus!
