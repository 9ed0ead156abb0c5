use wasm_dispatch::reactive::{
    component_scope, create_child_scope, provide_context, provide_context_in_new_scope,
    try_use_context, untrack, use_context, use_context_or_else, use_scope_depth, Children, Props,
    Root, UnitBuilder,
};

#[test]
fn a_value_is_found_from_the_scopes_inside_the_one_that_provides_it() {
    let mut root: Root<&'static str> = Root::new();
    assert_eq!(use_scope_depth(&root), 1);
    provide_context(&mut root, 1, "outer");
    assert_eq!(try_use_context(&root, 1), Some(&"outer"));
    assert_eq!(try_use_context(&root, 2), None);

    let child = create_child_scope(&mut root, |inner| {
        assert_eq!(use_scope_depth(inner), 2);
        assert_eq!(*use_context(inner, 1), "outer");
        provide_context(inner, 1, "inner");
        provide_context(inner, 2, "other");
        assert_eq!(*use_context(inner, 1), "inner");
        let deepest = provide_context_in_new_scope(inner, 3, "deep", |deepest| {
            assert_eq!(use_scope_depth(deepest), 3);
            assert_eq!(try_use_context(deepest, 2), Some(&"other"));
            *use_context(deepest, 3)
        });
        assert_eq!(deepest, "deep");
        assert_eq!(try_use_context(inner, 3), None);
    });
    assert_eq!(child, 1);
    assert_eq!(root.current, 0);
    assert_eq!(*use_context(&root, 1), "outer");
    assert_eq!(try_use_context(&root, 2), None);
    assert_eq!(root.scopes.len(), 3);
}

#[test]
fn a_missing_value_is_made_once() {
    let mut root: Root<u32> = Root::new();
    assert_eq!(*use_context_or_else(&mut root, 5, || 10), 10);
    assert_eq!(*use_context_or_else(&mut root, 5, || 20), 10);
    assert_eq!(root.scopes[0].context.len(), 1);
}

#[test]
fn tracking_is_off_inside_and_back_on_outside() {
    let mut root: Root<u8> = Root::new();
    assert!(root.tracking);
    let seen = untrack(&mut root, |inner| inner.tracking);
    assert!(!seen);
    assert!(root.tracking);
    root.tracking = false;
    let seen = component_scope(&mut root, |inner| {
        inner.tracking = true;
        7
    });
    assert_eq!(seen, 7);
    assert!(!root.tracking);
}

#[test]
fn children_are_made_when_they_are_asked_for() {
    let label = String::from("leaf");
    let children = Children::new(move || format!("<{}>", label));
    assert_eq!(children.call(), "<leaf>");
}

#[test]
fn no_properties_need_no_building() {
    let builder: UnitBuilder = <() as Props>::builder();
    builder.build();
}
