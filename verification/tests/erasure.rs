use tachys::any_view::{AnyView, IntoAny};
use tachys::context::Cx;
use tachys::dom::Dom;
use tachys::erased::{ViewState, ViewValue};
use tachys::fragment::{Fragment, IntoFragment};
use tachys::view::{Mountable, Render};

fn text(s: &str) -> String {
    s.to_string()
}

#[test]
fn erased_equal_type_takes_the_patch_path() {
    let mut dom = Dom::new();
    let mut cx = Cx::new();
    let root = dom.create_element();
    let mut state = text("same").into_any().build(&mut dom, &mut cx);
    state.mount(&mut dom, root, None);
    let tag = state.type_id;
    let nodes_before = dom.len();
    let mutations_before = dom.mutation_count();
    // same concrete type, equal value: no new backend node, no mutation
    text("same").into_any().rebuild(&mut state, &mut dom, &mut cx);
    assert_eq!(state.type_id, tag);
    assert_eq!(dom.len(), nodes_before);
    assert_eq!(dom.mutation_count(), mutations_before);
    // same concrete type, new value: patched in place
    text("changed").into_any().rebuild(&mut state, &mut dom, &mut cx);
    assert_eq!(state.type_id, tag);
    assert_eq!(dom.len(), nodes_before);
    assert_eq!(dom.read_text(dom.child_at(root, 0)), "changed");
}

#[test]
fn erased_different_type_takes_the_replace_path() {
    let mut dom = Dom::new();
    let mut cx = Cx::new();
    let root = dom.create_element();
    let mut state = text("words").into_any().build(&mut dom, &mut cx);
    state.mount(&mut dom, root, None);
    let old_tag = state.type_id;
    let nodes_before = dom.len();
    ().into_any().rebuild(&mut state, &mut dom, &mut cx);
    assert_ne!(state.type_id, old_tag);
    // the replace path always builds a new node, even for equal content
    assert!(dom.len() > nodes_before);
    assert!(matches!(*state.state, ViewState::Blank(_)));
    assert_eq!(dom.child_count(root), 1);
}

#[test]
fn erased_value_round_trips_through_the_erased_enum() {
    let mut dom = Dom::new();
    let mut cx = Cx::new();
    let av = ViewValue::Text(text("payload")).into_any();
    let state = av.build(&mut dom, &mut cx);
    assert!(matches!(*state.state, ViewState::Text(_)));
}

#[test]
fn fragment_renders_its_erased_entries_in_order() {
    let mut dom = Dom::new();
    let mut cx = Cx::new();
    let root = dom.create_element();
    let entries: Vec<AnyView> = vec![text("one").into_any(), ().into_any(), text("two").into_any()];
    let frag = Fragment::new(entries);
    let mut state = frag.build(&mut dom, &mut cx);
    state.mount(&mut dom, root, None);
    // one, placeholder, two, trailing marker
    assert_eq!(dom.child_count(root), 4);
    assert_eq!(dom.read_text(dom.child_at(root, 0)), "one");
    assert_eq!(dom.read_text(dom.child_at(root, 2)), "two");
}

#[test]
fn views_collect_into_a_fragment() {
    let views = vec![text("a"), text("b")];
    let frag = views.into_fragment();
    assert_eq!(frag.nodes.0.len(), 2);
}

#[test]
fn erasing_the_same_type_yields_equal_tags() {
    let one = text("one").into_any();
    let two = text("two").into_any();
    assert_eq!(one.type_id, two.type_id);
    let unit = ().into_any();
    assert_ne!(one.type_id, unit.type_id);
    // re-erasing an erased view keeps its tag
    let again = one.into_any();
    assert_eq!(again.type_id, two.type_id);
}
