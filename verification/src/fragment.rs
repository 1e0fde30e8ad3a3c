//! A type-erased ordered collection of views.
//!
//! A fragment carries a variable-length, heterogeneously-typed set of
//! children behind one concrete type; it renders by delegating to the list
//! combinator over its erased entries.

use crate::any_view::{AnyView, IntoAny};
use crate::context::Cx;
use crate::dom::{Dom, RNode};
use crate::iterators::{StaticVec, StaticVecState};
use crate::view::{Mountable, Render};
use vstd::prelude::*;

verus! {

/// A type-erased collection of different views.
pub struct Fragment {
    /// The erased views contained in the fragment.
    pub nodes: StaticVec<AnyView>,
}

impl Fragment {
    /// Creates a new fragment from erased views.
    pub fn new(nodes: Vec<AnyView>) -> (r: Fragment)
        ensures
            r.nodes.0@ == nodes@,
    {
        Fragment { nodes: StaticVec::from_items(nodes) }
    }
}

/// Converts some view into a type-erased collection of views.
pub trait IntoFragment: Sized {
    /// Converts the view into a fragment.
    fn into_fragment(self) -> Fragment;
}

impl IntoFragment for AnyView {
    fn into_fragment(self) -> (r: Fragment) {
        let mut nodes: Vec<AnyView> = Vec::new();
        nodes.push(self);
        Fragment::new(nodes)
    }
}

impl<T: IntoAny> IntoFragment for Vec<T> {
    fn into_fragment(self) -> (r: Fragment) {
        let mut items = self;
        let mut nodes: Vec<AnyView> = Vec::new();
        while items.len() > 0
            decreases items@.len(),
        {
            let v = items.remove(0);
            nodes.push(v.into_any());
        }
        Fragment::new(nodes)
    }
}

impl<T: IntoAny> IntoFragment for StaticVec<T> {
    fn into_fragment(self) -> (r: Fragment) {
        self.into_items().into_fragment()
    }
}

/// Retained view state for a fragment.
pub struct FragmentState {
    /// The retained list state over the erased entries.
    pub inner: StaticVecState<crate::any_view::AnyViewState>,
}

impl Mountable for FragmentState {
    open spec fn nodes(self) -> Seq<usize> {
        self.inner.nodes()
    }

    open spec fn live(self) -> Seq<usize> {
        self.inner.live()
    }

    open spec fn wf(self, dom: Dom) -> bool {
        self.inner.wf(dom)
    }

    proof fn wf_frame(self, d1: Dom, d2: Dom) {
        self.inner.wf_frame(d1, d2);
    }

    proof fn wf_facts(self, dom: Dom) {
        self.inner.wf_facts(dom);
    }

    fn unmount(&self, dom: &mut Dom) {
        self.inner.unmount(dom);
    }

    fn mount(&self, dom: &mut Dom, parent: usize, marker: Option<usize>) {
        self.inner.mount(dom, parent, marker);
    }

    fn first_node(&self) -> (r: Option<usize>) {
        self.inner.first_node()
    }
}

impl Render for Fragment {
    type State = FragmentState;

    open spec fn target(self) -> Seq<RNode> {
        self.nodes.target()
    }

    open spec fn no_change(self, state: FragmentState) -> bool {
        self.nodes.no_change(state.inner)
    }

    open spec fn builds_clean(self) -> bool {
        self.nodes.builds_clean()
    }

    open spec fn rebuild_req(self, state: FragmentState, dom: Dom) -> bool {
        self.nodes.rebuild_req(state.inner, dom)
    }

    proof fn rebuild_req_frame(self, state: FragmentState, d1: Dom, d2: Dom) {
        self.nodes.rebuild_req_frame(state.inner, d1, d2);
    }

    fn build(self, dom: &mut Dom, cx: &mut Cx) -> (state: FragmentState) {
        FragmentState { inner: self.nodes.build(dom, cx) }
    }

    fn rebuild(self, state: &mut FragmentState, dom: &mut Dom, cx: &mut Cx) {
        self.nodes.rebuild(&mut state.inner, dom, cx);
    }
}

} // verus!
