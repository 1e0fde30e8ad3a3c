use tachys::context::Cx;
use tachys::dom::Dom;
use tachys::view::{Mountable, Render};

#[test]
fn booleans_render_their_canonical_text() {
    let mut dom = Dom::new();
    let mut cx = Cx::new();
    let root = dom.create_element();
    let state = true.build(&mut dom, &mut cx);
    state.mount(&mut dom, root, None);
    assert_eq!(dom.read_text(state.node), "true");
    let mut state = state;
    false.rebuild(&mut state, &mut dom, &mut cx);
    assert_eq!(dom.read_text(state.node), "false");
}

#[test]
fn equal_primitive_rebuild_mutates_nothing() {
    let mut dom = Dom::new();
    let mut cx = Cx::new();
    let mut state = 42u64.build(&mut dom, &mut cx);
    let before = dom.mutation_count();
    42u64.rebuild(&mut state, &mut dom, &mut cx);
    assert_eq!(dom.mutation_count(), before);
    let mut b = true.build(&mut dom, &mut cx);
    let mut c = 'x'.build(&mut dom, &mut cx);
    let mut i = (-7i64).build(&mut dom, &mut cx);
    let before = dom.mutation_count();
    true.rebuild(&mut b, &mut dom, &mut cx);
    'x'.rebuild(&mut c, &mut dom, &mut cx);
    (-7i64).rebuild(&mut i, &mut dom, &mut cx);
    assert_eq!(dom.mutation_count(), before);
}

#[test]
fn integers_render_their_decimal_digits() {
    let mut dom = Dom::new();
    let mut cx = Cx::new();
    let state = 9041u64.build(&mut dom, &mut cx);
    assert_eq!(dom.read_text(state.node), "9041");
    let zero = 0u64.build(&mut dom, &mut cx);
    assert_eq!(dom.read_text(zero.node), "0");
    let neg = (-305i64).build(&mut dom, &mut cx);
    assert_eq!(dom.read_text(neg.node), "-305");
    let mut state = state;
    7u64.rebuild(&mut state, &mut dom, &mut cx);
    assert_eq!(dom.read_text(state.node), "7");
}

#[test]
fn characters_render_as_one_character_of_text() {
    let mut dom = Dom::new();
    let mut cx = Cx::new();
    let mut state = 'a'.build(&mut dom, &mut cx);
    assert_eq!(dom.read_text(state.node), "a");
    let node = state.node;
    'b'.rebuild(&mut state, &mut dom, &mut cx);
    assert_eq!(state.node, node);
    assert_eq!(dom.read_text(node), "b");
}
