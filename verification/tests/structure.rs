use tachys::context::Cx;
use tachys::dom::Dom;
use tachys::view::{
    insert_before_this, insert_before_this_or_marker, mount_before, MountKind, Mountable,
    Position, Render,
};

fn text(s: &str) -> String {
    s.to_string()
}

#[test]
fn splice_places_a_sibling_before_the_anchor() {
    let mut dom = Dom::new();
    let mut cx = Cx::new();
    let root = dom.create_element();
    let anchor = text("anchor").build(&mut dom, &mut cx);
    anchor.mount(&mut dom, root, None);
    let fresh = text("fresh").build(&mut dom, &mut cx);
    let inserted = insert_before_this(&anchor, &mut dom, &fresh);
    assert!(inserted);
    assert_eq!(dom.child_count(root), 2);
    assert_eq!(dom.read_text(dom.child_at(root, 0)), "fresh");
    assert_eq!(dom.read_text(dom.child_at(root, 1)), "anchor");
}

#[test]
fn splice_falls_back_to_the_marker() {
    let mut dom = Dom::new();
    let mut cx = Cx::new();
    let root = dom.create_element();
    let marker = dom.create_placeholder();
    dom.insert_node(root, marker, None);
    let anchor = text("present").build(&mut dom, &mut cx);
    anchor.mount(&mut dom, root, Some(marker));
    let fresh = text("fresh").build(&mut dom, &mut cx);
    insert_before_this_or_marker(&anchor, &mut dom, &fresh, root, Some(marker));
    assert_eq!(dom.read_text(dom.child_at(root, 0)), "fresh");
    assert_eq!(dom.read_text(dom.child_at(root, 1)), "present");
}

#[test]
fn mounting_before_an_attached_node() {
    let mut dom = Dom::new();
    let mut cx = Cx::new();
    let root = dom.create_element();
    let tail = text("tail").build(&mut dom, &mut cx);
    tail.mount(&mut dom, root, None);
    let head = text("head").build(&mut dom, &mut cx);
    mount_before(&head, &mut dom, tail.node);
    assert_eq!(dom.read_text(dom.child_at(root, 0)), "head");
    assert_eq!(dom.read_text(dom.child_at(root, 1)), "tail");
}

#[test]
fn unmounting_detaches_and_keeps_content() {
    let mut dom = Dom::new();
    let mut cx = Cx::new();
    let root = dom.create_element();
    let state = text("kept").build(&mut dom, &mut cx);
    state.mount(&mut dom, root, None);
    assert_eq!(dom.child_count(root), 1);
    state.unmount(&mut dom);
    assert_eq!(dom.child_count(root), 0);
    assert_eq!(dom.read_text(state.node), "kept");
}

#[test]
fn mount_positions_are_distinguished() {
    let marker = MountKind::Before(4);
    assert!(matches!(marker, MountKind::Before(4)));
    assert!(matches!(MountKind::Append, MountKind::Append));
    assert_eq!(Position::default(), Position::FirstChild);
    assert_ne!(Position::Current, Position::LastChild);
}
