//! A view wrapper that sets the reactive owner scope whenever it is
//! rendered: its child builds and rebuilds under the wrapper's owner, and
//! the ambient owner is restored afterwards.

use crate::context::Cx;
use crate::dom::{Dom, RNode};
use crate::view::{Mountable, Render};
use vstd::prelude::*;

verus! {

/// A view paired with the reactive owner under which it renders.
pub struct OwnedView<T> {
    /// The owner scope.
    pub owner: u64,
    /// The wrapped view.
    pub view: T,
}

impl<T> OwnedView<T> {
    /// Wraps a view with the current owner.
    pub fn new(view: T, cx: &Cx) -> (r: OwnedView<T>)
        requires
            cx.owner is Some,
        ensures
            r.owner == cx.owner->0,
            r.view == view,
    {
        let owner = cx.owner.unwrap();
        OwnedView { owner, view }
    }

    /// Wraps a view with the given owner.
    pub fn new_with_owner(view: T, owner: u64) -> (r: OwnedView<T>)
        ensures
            r.owner == owner,
            r.view == view,
    {
        OwnedView { owner, view }
    }
}

/// Retained view state for an [`OwnedView`].
pub struct OwnedViewState<T> {
    /// The owner scope.
    pub owner: u64,
    /// The wrapped retained state.
    pub state: T,
}

impl<T: Mountable> OwnedViewState<T> {
    /// Wraps a state with the given owner.
    pub fn new(state: T, owner: u64) -> (r: OwnedViewState<T>)
        ensures
            r.owner == owner,
            r.state == state,
    {
        OwnedViewState { owner, state }
    }
}

impl<T: Mountable> Mountable for OwnedViewState<T> {
    open spec fn nodes(self) -> Seq<usize> {
        self.state.nodes()
    }

    open spec fn live(self) -> Seq<usize> {
        self.state.live()
    }

    open spec fn wf(self, dom: Dom) -> bool {
        self.state.wf(dom)
    }

    proof fn wf_frame(self, d1: Dom, d2: Dom) {
        self.state.wf_frame(d1, d2);
    }

    proof fn wf_facts(self, dom: Dom) {
        self.state.wf_facts(dom);
    }

    fn unmount(&self, dom: &mut Dom) {
        self.state.unmount(dom);
    }

    fn mount(&self, dom: &mut Dom, parent: usize, marker: Option<usize>) {
        self.state.mount(dom, parent, marker);
    }

    fn first_node(&self) -> (r: Option<usize>) {
        self.state.first_node()
    }
}

impl<T: Render> Render for OwnedView<T> {
    type State = OwnedViewState<T::State>;

    open spec fn target(self) -> Seq<RNode> {
        self.view.target()
    }

    open spec fn no_change(self, state: OwnedViewState<T::State>) -> bool {
        self.owner == state.owner && self.view.no_change(state.state)
    }

    open spec fn builds_clean(self) -> bool {
        self.view.builds_clean()
    }

    open spec fn rebuilds_clean(self, state: OwnedViewState<T::State>) -> bool {
        self.view.rebuilds_clean(state.state)
    }

    open spec fn rebuild_req(self, state: OwnedViewState<T::State>, dom: Dom) -> bool {
        self.view.rebuild_req(state.state, dom)
    }

    proof fn rebuild_req_frame(self, state: OwnedViewState<T::State>, d1: Dom, d2: Dom) {
        self.view.rebuild_req_frame(state.state, d1, d2);
    }

    fn build(self, dom: &mut Dom, cx: &mut Cx) -> (state: OwnedViewState<T::State>)
        ensures
            state.owner == self.owner,
    {
        let saved = cx.owner;
        cx.owner = Some(self.owner);
        let inner = self.view.build(dom, cx);
        cx.owner = saved;
        OwnedViewState { owner: self.owner, state: inner }
    }

    fn rebuild(self, state: &mut OwnedViewState<T::State>, dom: &mut Dom, cx: &mut Cx)
        ensures
            final(state).owner == self.owner,
    {
        let saved = cx.owner;
        cx.owner = Some(self.owner);
        self.view.rebuild(&mut state.state, dom, cx);
        cx.owner = saved;
        state.owner = self.owner;
    }
}

} // verus!
