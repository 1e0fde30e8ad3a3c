use tachys::context::Cx;
use tachys::dom::Dom;
use tachys::either::Either;
use tachys::owned::OwnedView;
use tachys::reactive_graph::{
    render_effect_build, render_effect_rebuild, render_effect_rerun, ReactiveFunction,
};
use tachys::suspense::{suspend_build, suspend_rebuild, suspend_resolve, Aborted, Suspend};
use tachys::view::{Mountable, Render};

fn text(s: &str) -> String {
    s.to_string()
}

struct Counter {
    n: u64,
}

impl ReactiveFunction for Counter {
    type Output = String;

    fn invoke(&mut self) -> String {
        self.n = self.n + 1;
        format!("run {}", self.n)
    }
}

#[test]
fn effect_build_retains_the_first_run() {
    let mut dom = Dom::new();
    let mut cx = Cx::new();
    let mut f = Counter { n: 0 };
    let state = render_effect_build(&mut f, &mut dom, &mut cx);
    let effect = state.0.as_ref().unwrap();
    assert_eq!(dom.read_text(effect.value.node), "run 1");
}

#[test]
fn effect_rerun_rebuilds_in_place() {
    let mut dom = Dom::new();
    let mut cx = Cx::new();
    let mut f = Counter { n: 0 };
    let mut state = render_effect_build(&mut f, &mut dom, &mut cx);
    let node = state.0.as_ref().unwrap().value.node;
    let nodes_before = dom.len();
    render_effect_rerun(&mut f, &mut state, &mut dom, &mut cx);
    assert_eq!(dom.len(), nodes_before);
    assert_eq!(dom.read_text(node), "run 2");
}

#[test]
fn effect_rebuild_discards_the_old_computation() {
    let mut dom = Dom::new();
    let mut cx = Cx::new();
    let root = dom.create_element();
    let mut f = Counter { n: 0 };
    let mut state = render_effect_build(&mut f, &mut dom, &mut cx);
    state.mount(&mut dom, root, None);
    let old_node = state.0.as_ref().unwrap().value.node;
    render_effect_rebuild(&mut f, &mut state, &mut dom, &mut cx);
    let new_node = state.0.as_ref().unwrap().value.node;
    assert_ne!(old_node, new_node);
    assert_eq!(dom.child_count(root), 1);
    assert_eq!(dom.read_text(dom.child_at(root, 0)), "run 2");
}

#[test]
fn owned_view_builds_under_its_owner() {
    let mut dom = Dom::new();
    let mut cx = Cx::new();
    cx.owner = Some(7);
    let view = OwnedView::new(text("owned"), &cx);
    assert_eq!(view.owner, 7);
    let state = view.build(&mut dom, &mut cx);
    assert_eq!(state.owner, 7);
    assert_eq!(cx.owner, Some(7));
    let other = OwnedView::new_with_owner(text("given"), 9);
    assert_eq!(other.owner, 9);
}

#[test]
fn ready_suspend_never_shows_the_pending_state() {
    let mut dom = Dom::new();
    let mut cx = Cx::new();
    let s = Suspend::new(1, Some(text("done")), &cx);
    let state = suspend_build(s, &mut dom, &mut cx);
    assert!(matches!(state.inner, Either::Left(_)));
    assert_eq!(cx.pending.len(), 0);
}

#[test]
fn pending_suspend_shows_placeholder_and_schedules() {
    let mut dom = Dom::new();
    let mut cx = Cx::new();
    let s = Suspend::new(11, None::<String>, &cx);
    let mut state = suspend_build(s, &mut dom, &mut cx);
    assert!(matches!(state.inner, Either::Right(_)));
    assert_eq!(cx.pending, vec![11]);
    let root = dom.create_element();
    state.mount(&mut dom, root, None);
    suspend_resolve(Ok(text("arrived")), &mut state, &mut dom, &mut cx);
    assert!(matches!(state.inner, Either::Left(_)));
    assert_eq!(dom.read_text(dom.child_at(root, 0)), "arrived");
}

#[test]
fn aborted_resolution_touches_nothing() {
    let mut dom = Dom::new();
    let mut cx = Cx::new();
    let s = Suspend::new(3, None::<String>, &cx);
    let mut state = suspend_build(s, &mut dom, &mut cx);
    let root = dom.create_element();
    state.mount(&mut dom, root, None);
    let nodes_before = dom.len();
    let mutations_before = dom.mutation_count();
    suspend_resolve(Err::<String, _>(Aborted), &mut state, &mut dom, &mut cx);
    assert!(matches!(state.inner, Either::Right(_)));
    assert_eq!(dom.len(), nodes_before);
    assert_eq!(dom.mutation_count(), mutations_before);
}

#[test]
fn suspend_rebuild_defers_and_reschedules() {
    let mut dom = Dom::new();
    let mut cx = Cx::new();
    let s = Suspend::new(5, None::<String>, &cx);
    let mut state = suspend_build(s, &mut dom, &mut cx);
    let nodes_before = dom.len();
    let s2 = Suspend::new(6, Some(text("later")), &cx);
    suspend_rebuild(s2, &mut state, &mut dom, &mut cx);
    assert_eq!(dom.len(), nodes_before);
    assert_eq!(cx.pending, vec![5, 6]);
    assert!(matches!(state.inner, Either::Right(_)));
}

#[test]
fn forward_relinks_sources_to_the_outer_subscriber() {
    let mut cx = Cx::new();
    cx.observer = Some(42);
    let s = Suspend::new(1, None::<String>, &cx);
    let mut sub = s.subscriber;
    sub.add_source(100);
    sub.add_source(200);
    sub.forward(&mut cx);
    assert_eq!(cx.links, vec![(100, 42), (200, 42)]);
    assert_eq!(sub.sources.len(), 0);
}
