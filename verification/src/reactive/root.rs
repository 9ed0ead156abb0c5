//! The scope tree.

use vstd::prelude::*;

verus! {

/// A context value and the kind under which it was provided.
pub struct Binding<V> {
    pub kind: u64,
    pub value: V,
}

/// One scope: its parent and the values it provides.
pub struct Scope<V> {
    pub parent: Option<usize>,
    pub context: Vec<Binding<V>>,
}

/// The scope tree, the scope that is current, and whether reads are being
/// tracked as dependencies.
pub struct Root<V> {
    pub scopes: Vec<Scope<V>>,
    pub current: usize,
    pub tracking: bool,
}

/// The number of scopes from `node` up to the first scope, both counted.
pub open spec fn depth<V>(scopes: Seq<Scope<V>>, node: int) -> nat
    decreases node,
{
    match scopes[node].parent {
        Some(parent) => if 0 <= parent < node {
            1 + depth(scopes, parent as int)
        } else {
            1
        },
        None => 1,
    }
}

/// The position of the first value of `kind` among the first `upto`
/// bindings, or -1 where there is none.
pub open spec fn first_of<V>(context: Seq<Binding<V>>, kind: u64, upto: int) -> int
    decreases upto,
{
    if upto <= 0 {
        -1
    } else if first_of(context, kind, upto - 1) >= 0 {
        first_of(context, kind, upto - 1)
    } else if context[upto - 1].kind == kind {
        upto - 1
    } else {
        -1
    }
}

/// Whether the scope provides a value of `kind`.
pub open spec fn provides<V>(scope: Scope<V>, kind: u64) -> bool {
    first_of(scope.context@, kind, scope.context@.len() as int) >= 0
}

/// The scope nearest to `node`, itself included, that provides a value of
/// `kind`, or -1 where none does.
pub open spec fn provider<V>(scopes: Seq<Scope<V>>, node: int, kind: u64) -> int
    decreases node,
{
    if provides(scopes[node], kind) {
        node
    } else {
        match scopes[node].parent {
            Some(parent) => if 0 <= parent < node {
                provider(scopes, parent as int, kind)
            } else {
                -1
            },
            None => -1,
        }
    }
}

/// The value of `kind` that is visible from `node`, if any.
pub open spec fn lookup<V>(scopes: Seq<Scope<V>>, node: int, kind: u64) -> Option<V> {
    let scope = provider(scopes, node, kind);
    if scope >= 0 {
        let context = scopes[scope].context@;
        Some(context[first_of(context, kind, context.len() as int)].value)
    } else {
        None
    }
}

impl<V> Root<V> {
    /// Whether the tree is in order: there is a first scope, the current
    /// scope exists, and every parent was made before its child.
    pub open spec fn wf(&self) -> bool {
        &&& self.scopes@.len() >= 1
        &&& self.current < self.scopes@.len()
        &&& forall|i: int|
            0 <= i < self.scopes@.len() ==> match (#[trigger] self.scopes@[i]).parent {
                Some(parent) => parent < i,
                None => true,
            }
    }

    /// A tree of one scope, which is current; reads are tracked.
    pub fn new() -> (root: Self)
        ensures
            root.wf(),
            root.scopes@.len() == 1,
            root.scopes@[0].parent is None,
            root.scopes@[0].context@.len() == 0,
            root.current == 0,
            root.tracking,
    {
        let mut scopes: Vec<Scope<V>> = Vec::new();
        scopes.push(Scope { parent: None, context: Vec::new() });
        Root { scopes, current: 0, tracking: true }
    }
}

/// Runs `f` with dependency tracking switched off, and switches it back to
/// what it was.
pub fn untrack<V, T, F: FnOnce(&mut Root<V>) -> T>(root: &mut Root<V>, f: F) -> (result: T)
    requires
        forall|inner: &mut Root<V>| !inner.tracking ==> call_requires(f, (inner,)),
    ensures
        final(root).tracking == old(root).tracking,
        exists|inner: &mut Root<V>|
            {
                &&& *inner == Root { tracking: false, ..*old(root) }
                &&& #[trigger] call_ensures(f, (inner,), result)
                &&& *final(root) == Root { tracking: old(root).tracking, ..*final(inner) }
            },
{
    let previous = root.tracking;
    root.tracking = false;
    let result = f(root);
    root.tracking = previous;
    result
}

/// Makes a scope under the current one, runs `f` with the new scope as the
/// current one, and makes the scope that was current so again. Returns the
/// new scope's position.
pub fn create_child_scope<V, F: FnOnce(&mut Root<V>)>(root: &mut Root<V>, f: F) -> (child: usize)
    requires
        old(root).wf(),
        forall|inner: &mut Root<V>| inner.wf() ==> call_requires(f, (inner,)),
        forall|inner: &mut Root<V>|
            inner.wf() && #[trigger] call_ensures(f, (inner,), ()) ==> final(inner).wf()
                && final(inner).scopes@.len() >= inner.scopes@.len(),
    ensures
        final(root).wf(),
        final(root).current == old(root).current,
        child == old(root).scopes@.len(),
        exists|inner: &mut Root<V>|
            {
                &&& inner.scopes@.len() == old(root).scopes@.len() + 1
                &&& inner.scopes@.drop_last() == old(root).scopes@
                &&& inner.scopes@.last().parent == Some(old(root).current)
                &&& inner.scopes@.last().context@.len() == 0
                &&& inner.current == child
                &&& inner.tracking == old(root).tracking
                &&& #[trigger] call_ensures(f, (inner,), ())
                &&& *final(root) == Root { current: old(root).current, ..*final(inner) }
            },
{
    let previous = root.current;
    let child = root.scopes.len();
    root.scopes.push(Scope { parent: Some(previous), context: Vec::new() });
    root.current = child;
    proof {
        assert(root.scopes@.drop_last() =~= old(root).scopes@);
        assert forall|i: int| 0 <= i < root.scopes@.len() implies match (#[trigger] root.scopes@[i]).parent {
            Some(parent) => parent < i,
            None => true,
        } by {
            if i < child {
                assert(root.scopes@[i] == old(root).scopes@[i]);
                assert(root.scopes@.drop_last()[i] == root.scopes@[i]);
            }
        }
        assert(root.wf());
    }
    f(root);
    root.current = previous;
    child
}

} // verus!
