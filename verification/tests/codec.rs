use tachys::context::Cx;
use tachys::dom::Dom;
use std::borrow::Cow;
use tachys::serde_lite::SerdeLite;
use tachys::view::{Mountable, Render};

#[test]
fn encode_then_decode_round_trips_a_document() {
    let mut doc = serde_json::Map::new();
    doc.insert("kind".to_string(), serde_json::Value::String("greeting".to_string()));
    doc.insert("text".to_string(), serde_json::Value::String("hello".to_string()));
    let value = serde_json::Value::Object(doc);
    let body = SerdeLite::encode(&value).unwrap();
    let back = SerdeLite::decode(&body).unwrap();
    assert_eq!(back, value);
}

#[test]
fn decode_rejects_bytes_that_are_not_json() {
    let body = bytes::Bytes::from_static(b"not json at all {{{");
    let r = SerdeLite::decode(&body);
    assert!(r.is_err());
}

#[test]
fn oco_strings_render_and_diff_by_contents() {
    let mut dom = Dom::new();
    let mut cx = Cx::new();
    let v: oco_ref::Oco<'static, str> = oco_ref::Oco::Borrowed("stable");
    let mut state = v.build(&mut dom, &mut cx);
    assert_eq!(dom.read_text(state.node), "stable");
    let mutations_before = dom.mutation_count();
    let same: oco_ref::Oco<'static, str> = oco_ref::Oco::Counted(std::sync::Arc::from("stable"));
    same.rebuild(&mut state, &mut dom, &mut cx);
    assert_eq!(dom.mutation_count(), mutations_before);
    let other: oco_ref::Oco<'static, str> = oco_ref::Oco::Owned("moved".to_string());
    other.rebuild(&mut state, &mut dom, &mut cx);
    assert_eq!(dom.read_text(state.node), "moved");
}

#[test]
fn shared_strings_render_as_text() {
    let mut dom = Dom::new();
    let mut cx = Cx::new();
    let rc = std::rc::Rc::new("counted".to_string());
    let state = rc.build(&mut dom, &mut cx);
    assert_eq!(dom.read_text(state.node), "counted");
    let arc = std::sync::Arc::new("shared".to_string());
    let state = arc.build(&mut dom, &mut cx);
    assert_eq!(dom.read_text(state.node), "shared");
    let slice: &str = "borrowed";
    let mut state = slice.build(&mut dom, &mut cx);
    assert_eq!(dom.read_text(state.node), "borrowed");
    let mutations_before = dom.mutation_count();
    "borrowed".rebuild(&mut state, &mut dom, &mut cx);
    assert_eq!(dom.mutation_count(), mutations_before);
}

#[test]
fn tuples_render_their_elements_in_order() {
    let mut dom = Dom::new();
    let mut cx = Cx::new();
    let root = dom.create_element();
    let pair = ("first".to_string(), "second".to_string());
    let mut state = pair.build(&mut dom, &mut cx);
    state.mount(&mut dom, root, None);
    assert_eq!(dom.child_count(root), 2);
    assert_eq!(dom.read_text(dom.child_at(root, 0)), "first");
    assert_eq!(dom.read_text(dom.child_at(root, 1)), "second");
    let renamed = ("first".to_string(), "renamed".to_string());
    renamed.rebuild(&mut state, &mut dom, &mut cx);
    assert_eq!(dom.read_text(dom.child_at(root, 0)), "first");
    assert_eq!(dom.read_text(dom.child_at(root, 1)), "renamed");
    let single = ("alone".to_string(),);
    let state = single.build(&mut dom, &mut cx);
    assert_eq!(dom.read_text(state.node), "alone");
}

#[test]
fn static_vec_renders_like_a_list() {
    let mut dom = Dom::new();
    let mut cx = Cx::new();
    let root = dom.create_element();
    let views = tachys::iterators::StaticVec::from_items(vec!["p".to_string(), "q".to_string()]);
    assert_eq!(views.iter().len(), 2);
    let mut state = views.build(&mut dom, &mut cx);
    state.mount(&mut dom, root, None);
    assert_eq!(dom.child_count(root), 3);
    let next = tachys::iterators::StaticVec::from_items(vec!["p".to_string(), "r".to_string()]);
    next.rebuild(&mut state, &mut dom, &mut cx);
    assert_eq!(dom.read_text(dom.child_at(root, 0)), "p");
    assert_eq!(dom.read_text(dom.child_at(root, 1)), "r");
}

#[test]
fn cow_strings_render_borrowed_and_owned_alike() {
    let mut dom = tachys::dom::Dom::new();
    let mut cx = tachys::context::Cx::new();
    let mut state = Cow::Borrowed("lent").build(&mut dom, &mut cx);
    assert_eq!(dom.read_text(state.node), "lent");
    let node = state.node;
    Cow::<str>::Owned("owned".to_string()).rebuild(&mut state, &mut dom, &mut cx);
    assert_eq!(state.node, node);
    assert_eq!(dom.read_text(node), "owned");
    let before = dom.mutation_count();
    Cow::Borrowed("owned").rebuild(&mut state, &mut dom, &mut cx);
    assert_eq!(dom.mutation_count(), before);
}
