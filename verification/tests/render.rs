use tachys::context::{Cx, ErrorEvent};
use tachys::dom::Dom;
use tachys::either::Either;
use tachys::view::{Mountable, Render};

fn text(s: &str) -> String {
    s.to_string()
}

#[test]
fn build_text_creates_one_node() {
    let mut dom = Dom::new();
    let mut cx = Cx::new();
    let state = text("hello").build(&mut dom, &mut cx);
    assert_eq!(dom.len(), 1);
    assert_eq!(dom.read_text(state.node), "hello");
}

#[test]
fn noop_rebuild_performs_zero_mutations() {
    let mut dom = Dom::new();
    let mut cx = Cx::new();
    let mut state = text("hello").build(&mut dom, &mut cx);
    let nodes_before = dom.len();
    let mutations_before = dom.mutation_count();
    text("hello").rebuild(&mut state, &mut dom, &mut cx);
    assert_eq!(dom.len(), nodes_before);
    assert_eq!(dom.mutation_count(), mutations_before);
    assert_eq!(dom.read_text(state.node), "hello");
}

#[test]
fn changed_rebuild_updates_text_in_place() {
    let mut dom = Dom::new();
    let mut cx = Cx::new();
    let mut state = text("old").build(&mut dom, &mut cx);
    let node = state.node;
    text("new").rebuild(&mut state, &mut dom, &mut cx);
    assert_eq!(state.node, node);
    assert_eq!(dom.read_text(node), "new");
}

#[test]
fn option_switch_replaces_placeholder() {
    let mut dom = Dom::new();
    let mut cx = Cx::new();
    let root = dom.create_element();
    let mut state = None::<String>.build(&mut dom, &mut cx);
    state.mount(&mut dom, root, None);
    assert!(matches!(state, Either::Right(_)));
    Some(text("shown")).rebuild(&mut state, &mut dom, &mut cx);
    assert!(matches!(state, Either::Left(_)));
    assert_eq!(dom.child_count(root), 1);
    let shown = dom.child_at(root, 0);
    assert_eq!(dom.read_text(shown), "shown");
}

#[test]
fn either_switch_keeps_document_position() {
    let mut dom = Dom::new();
    let mut cx = Cx::new();
    let root = dom.create_element();
    let before = text("before").build(&mut dom, &mut cx);
    before.mount(&mut dom, root, None);
    let mut state = Either::<String, String>::Left(text("left")).build(&mut dom, &mut cx);
    state.mount(&mut dom, root, None);
    let after = text("after").build(&mut dom, &mut cx);
    after.mount(&mut dom, root, None);
    assert_eq!(dom.child_count(root), 3);
    Either::<String, String>::Right(text("right")).rebuild(&mut state, &mut dom, &mut cx);
    // the right side's node appears exactly where the left side stood,
    // with no residual left node
    assert_eq!(dom.child_count(root), 3);
    assert_eq!(dom.read_text(dom.child_at(root, 0)), "before");
    assert_eq!(dom.read_text(dom.child_at(root, 1)), "right");
    assert_eq!(dom.read_text(dom.child_at(root, 2)), "after");
}

#[test]
fn list_positional_diff_touches_only_changed_index() {
    let mut dom = Dom::new();
    let mut cx = Cx::new();
    let root = dom.create_element();
    let items = vec![text("A"), text("B"), text("C")];
    let mut state = items.build(&mut dom, &mut cx);
    state.mount(&mut dom, root, None);
    let node_a = state.states[0].node;
    let node_b = state.states[1].node;
    let node_c = state.states[2].node;
    let nodes_before = dom.len();
    let new_items = vec![text("A"), text("X"), text("C")];
    new_items.rebuild(&mut state, &mut dom, &mut cx);
    // same retained nodes, only index 1 changed
    assert_eq!(dom.len(), nodes_before);
    assert_eq!(state.states[0].node, node_a);
    assert_eq!(state.states[1].node, node_b);
    assert_eq!(state.states[2].node, node_c);
    assert_eq!(dom.read_text(node_a), "A");
    assert_eq!(dom.read_text(node_b), "X");
    assert_eq!(dom.read_text(node_c), "C");
}

#[test]
fn list_growth_mounts_new_items_before_marker_in_order() {
    let mut dom = Dom::new();
    let mut cx = Cx::new();
    let root = dom.create_element();
    let items = vec![text("A"), text("B")];
    let mut state = items.build(&mut dom, &mut cx);
    state.mount(&mut dom, root, None);
    // children: A, B, marker
    assert_eq!(dom.child_count(root), 3);
    let new_items = vec![text("A"), text("B"), text("C"), text("D")];
    new_items.rebuild(&mut state, &mut dom, &mut cx);
    // children: A, B, C, D, marker
    assert_eq!(dom.child_count(root), 5);
    assert_eq!(dom.read_text(dom.child_at(root, 0)), "A");
    assert_eq!(dom.read_text(dom.child_at(root, 1)), "B");
    assert_eq!(dom.read_text(dom.child_at(root, 2)), "C");
    assert_eq!(dom.read_text(dom.child_at(root, 3)), "D");
    assert_eq!(dom.child_at(root, 4), state.marker);
}

#[test]
fn list_shrink_unmounts_tail() {
    let mut dom = Dom::new();
    let mut cx = Cx::new();
    let root = dom.create_element();
    let items = vec![text("A"), text("B"), text("C")];
    let mut state = items.build(&mut dom, &mut cx);
    state.mount(&mut dom, root, None);
    assert_eq!(dom.child_count(root), 4);
    let new_items = vec![text("A")];
    new_items.rebuild(&mut state, &mut dom, &mut cx);
    assert_eq!(state.states.len(), 1);
    assert_eq!(dom.child_count(root), 2);
    assert_eq!(dom.read_text(dom.child_at(root, 0)), "A");
    assert_eq!(dom.child_at(root, 1), state.marker);
}

#[test]
fn empty_list_fills_before_marker() {
    let mut dom = Dom::new();
    let mut cx = Cx::new();
    let root = dom.create_element();
    let items: Vec<String> = vec![];
    let mut state = items.build(&mut dom, &mut cx);
    state.mount(&mut dom, root, None);
    assert_eq!(dom.child_count(root), 1);
    let new_items = vec![text("X"), text("Y")];
    new_items.rebuild(&mut state, &mut dom, &mut cx);
    assert_eq!(dom.child_count(root), 3);
    assert_eq!(dom.read_text(dom.child_at(root, 0)), "X");
    assert_eq!(dom.read_text(dom.child_at(root, 1)), "Y");
    assert_eq!(dom.child_at(root, 2), state.marker);
}

#[test]
fn fallible_round_trip_registers_twice_and_clears_once() {
    let mut dom = Dom::new();
    let mut cx = Cx::new();
    let root = dom.create_element();
    let err = tachys::context::AppError { message: text("boom") };
    let mut state = Err::<String, _>(err).build(&mut dom, &mut cx);
    state.mount(&mut dom, root, None);
    assert!(state.error.is_some());
    Ok::<_, tachys::context::AppError>(text("fine")).rebuild(&mut state, &mut dom, &mut cx);
    assert!(state.error.is_none());
    let err2 = tachys::context::AppError { message: text("boom again") };
    Err::<String, _>(err2).rebuild(&mut state, &mut dom, &mut cx);
    assert!(state.error.is_some());
    assert_eq!(
        cx.events,
        vec![ErrorEvent::Thrown(0), ErrorEvent::Cleared(0), ErrorEvent::Thrown(1)]
    );
    // the final mounted state is a bare placeholder, as a fresh error build
    // would produce
    assert!(matches!(state.inner, Either::Right(_)));
    assert_eq!(dom.child_count(root), 1);
}

#[test]
fn clearing_a_released_error_state() {
    let mut dom = Dom::new();
    let mut cx = Cx::new();
    let err = tachys::context::AppError { message: text("gone") };
    let mut state = Err::<String, _>(err).build(&mut dom, &mut cx);
    state.clear_error(&mut cx);
    assert!(state.error.is_none());
    assert_eq!(cx.events, vec![ErrorEvent::Thrown(0), ErrorEvent::Cleared(0)]);
}

#[test]
fn emptying_a_list_keeps_the_marker_mounted() {
    let mut dom = Dom::new();
    let mut cx = Cx::new();
    let root = dom.create_element();
    let items = vec![text("A"), text("B")];
    let mut state = items.build(&mut dom, &mut cx);
    state.mount(&mut dom, root, None);
    assert_eq!(dom.child_count(root), 3);
    let empty: Vec<String> = Vec::new();
    empty.rebuild(&mut state, &mut dom, &mut cx);
    assert_eq!(state.states.len(), 0);
    // the marker stays attached as the stable anchor for future growth
    assert_eq!(dom.child_count(root), 1);
    assert_eq!(dom.child_at(root, 0), state.marker);
    let refill = vec![text("Z")];
    refill.rebuild(&mut state, &mut dom, &mut cx);
    assert_eq!(dom.read_text(dom.child_at(root, 0)), "Z");
    assert_eq!(dom.child_at(root, 1), state.marker);
}

#[test]
fn fixed_size_array_rebuilds_index_wise() {
    let mut dom = Dom::new();
    let mut cx = Cx::new();
    let root = dom.create_element();
    let items: [String; 3] = [text("p"), text("q"), text("r")];
    let mut state = items.build(&mut dom, &mut cx);
    state.mount(&mut dom, root, None);
    assert_eq!(state.inner.states.len(), 3);
    // children: p, q, r, anchor placeholder
    assert_eq!(dom.child_count(root), 4);
    let q_node = state.inner.states[1].node;
    let next: [String; 3] = [text("p"), text("Q"), text("r")];
    let before = dom.mutation_count();
    next.rebuild(&mut state, &mut dom, &mut cx);
    assert_eq!(dom.read_text(dom.child_at(root, 0)), "p");
    assert_eq!(dom.read_text(dom.child_at(root, 1)), "Q");
    assert_eq!(dom.read_text(dom.child_at(root, 2)), "r");
    // only the changed index touched the backend, in place
    assert_eq!(state.inner.states[1].node, q_node);
    assert_eq!(dom.mutation_count(), before + 1);
}
