use tachys::context::Cx;
use tachys::dom::Dom;
use tachys::keep_alive::{keep_alive_build, keep_alive_rebuild, EitherKeepAlive};
use tachys::view::Mountable;

fn text(s: &str) -> String {
    s.to_string()
}

#[test]
fn keep_alive_switch_splices_before_then_unmounts() {
    let mut dom = Dom::new();
    let mut cx = Cx::new();
    let root = dom.create_element();
    let value = EitherKeepAlive {
        a: Some(text("first")),
        b: Some(text("second")),
        show_b: false,
    };
    let mut state = keep_alive_build(value, &mut dom, &mut cx);
    state.mount(&mut dom, root, None);
    assert_eq!(dom.child_count(root), 1);
    assert_eq!(dom.read_text(dom.child_at(root, 0)), "first");

    let toggle = EitherKeepAlive::<String, String> {
        a: None,
        b: None,
        show_b: true,
    };
    keep_alive_rebuild(toggle, &mut state, &mut dom, &mut cx);
    assert!(state.showing_b);
    assert_eq!(dom.child_count(root), 1);
    assert_eq!(dom.read_text(dom.child_at(root, 0)), "second");
    // the hidden branch is retained, detached, with its content intact
    let hidden = state.a.as_ref().expect("first branch kept");
    assert_eq!(dom.get_parent(hidden.node), None);
    assert_eq!(dom.read_text(hidden.node), "first");
}

#[test]
fn keep_alive_lazily_builds_a_late_branch() {
    let mut dom = Dom::new();
    let mut cx = Cx::new();
    let root = dom.create_element();
    let value = EitherKeepAlive::<String, String> {
        a: Some(text("early")),
        b: None,
        show_b: false,
    };
    let mut state = keep_alive_build(value, &mut dom, &mut cx);
    state.mount(&mut dom, root, None);
    assert!(state.b.is_none());

    let late = EitherKeepAlive::<String, String> {
        a: None,
        b: Some(text("late")),
        show_b: true,
    };
    keep_alive_rebuild(late, &mut state, &mut dom, &mut cx);
    assert!(state.b.is_some());
    assert_eq!(dom.child_count(root), 1);
    assert_eq!(dom.read_text(dom.child_at(root, 0)), "late");
}

#[test]
fn keep_alive_patches_the_shown_branch_in_place() {
    let mut dom = Dom::new();
    let mut cx = Cx::new();
    let root = dom.create_element();
    let value = EitherKeepAlive::<String, String> {
        a: Some(text("before")),
        b: None,
        show_b: false,
    };
    let mut state = keep_alive_build(value, &mut dom, &mut cx);
    state.mount(&mut dom, root, None);
    let node = state.a.as_ref().expect("shown branch").node;

    let update = EitherKeepAlive::<String, String> {
        a: Some(text("after")),
        b: None,
        show_b: false,
    };
    keep_alive_rebuild(update, &mut state, &mut dom, &mut cx);
    let kept = state.a.as_ref().expect("shown branch kept");
    assert_eq!(kept.node, node);
    assert_eq!(dom.read_text(node), "after");
    assert_eq!(dom.child_count(root), 1);
}

#[test]
fn keep_alive_round_trip_restores_the_first_branch() {
    let mut dom = Dom::new();
    let mut cx = Cx::new();
    let root = dom.create_element();
    let value = EitherKeepAlive {
        a: Some(text("alpha")),
        b: Some(text("beta")),
        show_b: false,
    };
    let mut state = keep_alive_build(value, &mut dom, &mut cx);
    state.mount(&mut dom, root, None);
    let first_node = state.a.as_ref().expect("first branch").node;

    let to_b = EitherKeepAlive::<String, String> { a: None, b: None, show_b: true };
    keep_alive_rebuild(to_b, &mut state, &mut dom, &mut cx);
    let to_a = EitherKeepAlive::<String, String> { a: None, b: None, show_b: false };
    keep_alive_rebuild(to_a, &mut state, &mut dom, &mut cx);

    // the same retained node returns to the tree with its old content
    assert_eq!(dom.child_count(root), 1);
    assert_eq!(dom.child_at(root, 0), first_node);
    assert_eq!(dom.read_text(first_node), "alpha");
    let hidden = state.b.as_ref().expect("second branch kept");
    assert_eq!(dom.get_parent(hidden.node), None);
}

#[test]
fn keep_alive_patches_the_hidden_branch_in_place() {
    let mut dom = Dom::new();
    let mut cx = Cx::new();
    let root = dom.create_element();
    let value = EitherKeepAlive {
        a: Some(text("shown")),
        b: Some(text("stale")),
        show_b: false,
    };
    let mut state = keep_alive_build(value, &mut dom, &mut cx);
    state.mount(&mut dom, root, None);
    let hidden_node = state.b.as_ref().expect("second branch").node;

    // update the hidden branch off the tree
    let update = EitherKeepAlive::<String, String> {
        a: None,
        b: Some(text("fresh")),
        show_b: false,
    };
    keep_alive_rebuild(update, &mut state, &mut dom, &mut cx);
    assert_eq!(dom.read_text(dom.child_at(root, 0)), "shown");
    let hidden = state.b.as_ref().expect("second branch kept");
    assert_eq!(hidden.node, hidden_node);
    assert_eq!(dom.get_parent(hidden.node), None);
    assert_eq!(dom.read_text(hidden.node), "fresh");

    // switching now presents the already-updated branch
    let toggle = EitherKeepAlive::<String, String> { a: None, b: None, show_b: true };
    keep_alive_rebuild(toggle, &mut state, &mut dom, &mut cx);
    assert_eq!(dom.read_text(dom.child_at(root, 0)), "fresh");
}

#[test]
fn keep_alive_switch_with_both_values_supplied() {
    let mut dom = Dom::new();
    let mut cx = Cx::new();
    let root = dom.create_element();
    let value = EitherKeepAlive {
        a: Some(text("child")),
        b: Some(text("fallback")),
        show_b: false,
    };
    let mut state = keep_alive_build(value, &mut dom, &mut cx);
    state.mount(&mut dom, root, None);
    let a_node = state.a.as_ref().expect("first branch").node;
    let b_node = state.b.as_ref().expect("second branch").node;

    // every rebuild passes both values; the flag flips to the fallback
    let update = EitherKeepAlive {
        a: Some(text("child two")),
        b: Some(text("fallback two")),
        show_b: true,
    };
    keep_alive_rebuild(update, &mut state, &mut dom, &mut cx);
    assert!(state.showing_b);
    assert_eq!(dom.child_count(root), 1);
    assert_eq!(dom.child_at(root, 0), b_node);
    assert_eq!(dom.read_text(b_node), "fallback two");
    // the outgoing branch was patched too, then detached but retained
    let hidden = state.a.as_ref().expect("first branch kept");
    assert_eq!(hidden.node, a_node);
    assert_eq!(dom.get_parent(a_node), None);
    assert_eq!(dom.read_text(a_node), "child two");
}
