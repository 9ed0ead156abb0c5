//! Context values: provided by a scope, found from the scopes inside it.

use crate::reactive::root::{depth, first_of, lookup, provider, provides, Binding, Root, Scope};
use vstd::prelude::*;

verus! {

/// The tree after the current scope provides `value` under `kind`.
pub open spec fn provided<V>(root: Root<V>, kind: u64, value: V, after: Root<V>) -> bool {
    &&& after.current == root.current
    &&& after.tracking == root.tracking
    &&& after.scopes@.len() == root.scopes@.len()
    &&& forall|i: int|
        0 <= i < root.scopes@.len() && i != root.current ==> after.scopes@[i] == root.scopes@[i]
    &&& after.scopes@[root.current as int].parent == root.scopes@[root.current as int].parent
    &&& after.scopes@[root.current as int].context@ == root.scopes@[root.current as int].context@.push(
        Binding { kind, value },
    )
}

/// The position of the first value of `kind` in the scope, if it provides
/// one.
fn find_in<V>(scope: &Scope<V>, kind: u64) -> (index: Option<usize>)
    ensures
        match index {
            Some(i) => i < scope.context@.len() && i == first_of(
                scope.context@,
                kind,
                scope.context@.len() as int,
            ),
            None => !provides(*scope, kind),
        },
{
    let mut i: usize = 0;
    while i < scope.context.len()
        invariant
            i <= scope.context.len(),
            first_of(scope.context@, kind, i as int) < 0,
        decreases scope.context.len() - i,
    {
        if scope.context[i].kind == kind {
            proof {
                lemma_first_stays(scope.context@, kind, i as int + 1, scope.context@.len() as int);
            }
            return Some(i);
        }
        i += 1;
    }
    None
}

/// Once a value of the kind is found, it stays the first.
proof fn lemma_first_stays<V>(context: Seq<Binding<V>>, kind: u64, few: int, many: int)
    requires
        0 <= few <= many,
        first_of(context, kind, few) >= 0,
    ensures
        first_of(context, kind, many) == first_of(context, kind, few),
    decreases many,
{
    if few < many {
        lemma_first_stays(context, kind, few, many - 1);
    }
}

/// The scope that provides the value of `kind` visible from the current
/// scope, and the value's position in it.
fn find<V>(root: &Root<V>, kind: u64) -> (found: Option<(usize, usize)>)
    requires
        root.wf(),
    ensures
        match found {
            Some((scope, index)) => {
                &&& scope == provider(root.scopes@, root.current as int, kind)
                &&& scope < root.scopes@.len()
                &&& index < root.scopes@[scope as int].context@.len()
                &&& index == first_of(
                    root.scopes@[scope as int].context@,
                    kind,
                    root.scopes@[scope as int].context@.len() as int,
                )
            },
            None => provider(root.scopes@, root.current as int, kind) < 0,
        },
{
    let mut node = root.current;
    loop
        invariant
            root.wf(),
            node < root.scopes@.len(),
            provider(root.scopes@, node as int, kind) == provider(
                root.scopes@,
                root.current as int,
                kind,
            ),
        decreases node,
    {
        match find_in(&root.scopes[node], kind) {
            Some(index) => {
                return Some((node, index));
            },
            None => {},
        }
        match root.scopes[node].parent {
            Some(parent) => {
                node = parent;
            },
            None => {
                return None;
            },
        }
    }
}

/// The number of scopes from the current one up to the first, both counted;
/// `u32::MAX` where there are more.
pub fn use_scope_depth<V>(root: &Root<V>) -> (count: u32)
    requires
        root.wf(),
    ensures
        count == if depth(root.scopes@, root.current as int) <= u32::MAX {
            depth(root.scopes@, root.current as int)
        } else {
            u32::MAX as nat
        },
{
    let mut node = root.current;
    let mut above: u32 = 0;
    loop
        invariant
            root.wf(),
            node < root.scopes@.len(),
            above < u32::MAX ==> above + depth(root.scopes@, node as int) == depth(
                root.scopes@,
                root.current as int,
            ),
            above == u32::MAX ==> depth(root.scopes@, root.current as int) > u32::MAX,
        decreases node,
    {
        match root.scopes[node].parent {
            Some(parent) => {
                if above < u32::MAX {
                    above = above + 1;
                }
                node = parent;
            },
            None => {
                return if above < u32::MAX {
                    above + 1
                } else {
                    u32::MAX
                };
            },
        }
    }
}

/// Provides `value` under `kind` in the current scope. A scope provides at
/// most one value of a kind.
pub fn provide_context<V>(root: &mut Root<V>, kind: u64, value: V)
    requires
        old(root).wf(),
        !provides(old(root).scopes@[old(root).current as int], kind),
    ensures
        final(root).wf(),
        provided(*old(root), kind, value, *final(root)),
{
    let current = root.current;
    let ghost before = root.scopes@;
    root.scopes[current].context.push(Binding { kind, value });
    proof {
        assert forall|i: int| 0 <= i < root.scopes@.len() implies match (#[trigger] root.scopes@[i]).parent {
            Some(parent) => parent < i,
            None => true,
        } by {
            assert(root.scopes@[i].parent == before[i].parent);
        }
    }
}

/// The value of `kind` visible from the current scope, if any: the one that
/// the nearest enclosing scope provides.
pub fn try_use_context<V>(root: &Root<V>, kind: u64) -> (value: Option<&V>)
    requires
        root.wf(),
    ensures
        match value {
            Some(v) => lookup(root.scopes@, root.current as int, kind) == Some(*v),
            None => lookup(root.scopes@, root.current as int, kind) is None,
        },
{
    match find(root, kind) {
        Some((scope, index)) => Some(&root.scopes[scope].context[index].value),
        None => None,
    }
}

/// The value of `kind` visible from the current scope, which must exist.
pub fn use_context<V>(root: &Root<V>, kind: u64) -> (value: &V)
    requires
        root.wf(),
        lookup(root.scopes@, root.current as int, kind) is Some,
    ensures
        lookup(root.scopes@, root.current as int, kind) == Some(*value),
{
    match find(root, kind) {
        Some((scope, index)) => &root.scopes[scope].context[index].value,
        None => vstd::pervasive::unreached(),
    }
}

/// The value of `kind` visible from the current scope; where there is none,
/// the current scope provides what `f` makes, and that is the value.
pub fn use_context_or_else<V, F: FnOnce() -> V>(root: &mut Root<V>, kind: u64, f: F) -> (value: &V)
    requires
        old(root).wf(),
        call_requires(f, ()),
    ensures
        final(root).wf(),
        match lookup(old(root).scopes@, old(root).current as int, kind) {
            Some(found) => *value == found && *final(root) == *old(root),
            None => call_ensures(f, (), *value) && provided(*old(root), kind, *value, *final(root)),
        },
{
    let current = root.current;
    match find(root, kind) {
        Some((scope, index)) => &root.scopes[scope].context[index].value,
        None => {
            let made = f();
            provide_context(root, kind, made);
            let last = root.scopes[current].context.len() - 1;
            &root.scopes[current].context[last].value
        },
    }
}

/// Makes a scope under the current one that provides `value` under `kind`,
/// runs `f` with the new scope as the current one, and makes the scope that
/// was current so again.
pub fn provide_context_in_new_scope<V, U, F: FnOnce(&mut Root<V>) -> U>(
    root: &mut Root<V>,
    kind: u64,
    value: V,
    f: F,
) -> (result: U)
    requires
        old(root).wf(),
        forall|inner: &mut Root<V>| inner.wf() ==> call_requires(f, (inner,)),
        forall|inner: &mut Root<V>, out: U|
            inner.wf() && #[trigger] call_ensures(f, (inner,), out) ==> final(inner).wf()
                && final(inner).scopes@.len() >= inner.scopes@.len(),
    ensures
        final(root).wf(),
        final(root).current == old(root).current,
        exists|inner: &mut Root<V>|
            {
                &&& inner.scopes@.len() == old(root).scopes@.len() + 1
                &&& inner.scopes@.drop_last() == old(root).scopes@
                &&& inner.scopes@.last().parent == Some(old(root).current)
                &&& inner.scopes@.last().context@ == seq![Binding { kind, value }]
                &&& inner.current == old(root).scopes@.len()
                &&& inner.tracking == old(root).tracking
                &&& #[trigger] call_ensures(f, (inner,), result)
                &&& *final(root) == Root { current: old(root).current, ..*final(inner) }
            },
{
    let previous = root.current;
    let child = root.scopes.len();
    let mut context: Vec<Binding<V>> = Vec::new();
    context.push(Binding { kind, value });
    root.scopes.push(Scope { parent: Some(previous), context });
    root.current = child;
    proof {
        assert(root.scopes@.drop_last() =~= old(root).scopes@);
        assert forall|i: int| 0 <= i < root.scopes@.len() implies match (#[trigger] root.scopes@[i]).parent {
            Some(parent) => parent < i,
            None => true,
        } by {
            if i < child {
                assert(root.scopes@[i] == old(root).scopes@[i]);
                assert(root.scopes@.drop_last()[i] == root.scopes@[i]);
            }
        }
        assert(root.wf());
    }
    let result = f(root);
    root.current = previous;
    result
}

} // verus!
