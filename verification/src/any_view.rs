//! The type-erased view.
//!
//! Erasure captures, at the point a concrete view is converted to erased
//! form, the concrete value together with a tag that is stable per concrete
//! erasable type.  Rebuild dispatches on the tag: equal tags patch the
//! existing state in place through the concrete shape's own rebuild;
//! different tags build a wholly new state, splice it before the old one,
//! unmount the old one, and replace state and tag — the same
//! splice-then-remove discipline as the alternative combinator, generalized
//! over the erasable types.

use crate::context::{cx_frame, Cx};
use crate::dom::{
    detached, fresh_nodes, replaced_in_place, rnodes, Dom, RNode,
};
use crate::erased::{ViewState, ViewValue};
use crate::view::{insert_before_this, lemma_fresh_after_build, lemma_switch, Mountable, Render};
use vstd::prelude::*;

verus! {

/// A type-erased view: a runtime tag plus the erased value.
pub struct AnyView {
    /// The tag, stable per concrete erasable shape.
    pub type_id: u64,
    /// The erased view value.
    pub value: Box<ViewValue>,
}

/// Retained view state for an erased view: the tag of the shape it
/// retains, plus that shape's state.
pub struct AnyViewState {
    /// The tag of the retained shape.
    pub type_id: u64,
    /// The retained state of the underlying shape.
    pub state: Box<ViewState>,
}

impl AnyViewState {
    /// The tag always names the shape the retained state actually holds.
    /// Build establishes this from a consistent value, and rebuild
    /// preserves it.
    pub open spec fn tag_consistent(self) -> bool {
        self.type_id == self.state.tag()
    }
}

impl Mountable for AnyViewState {
    open spec fn nodes(self) -> Seq<usize> {
        self.state.nodes()
    }

    open spec fn live(self) -> Seq<usize> {
        self.state.live()
    }

    open spec fn wf(self, dom: Dom) -> bool {
        self.state.wf(dom)
    }

    proof fn wf_frame(self, d1: Dom, d2: Dom) {
        self.state.wf_frame(d1, d2);
    }

    proof fn wf_facts(self, dom: Dom) {
        self.state.wf_facts(dom);
    }

    fn unmount(&self, dom: &mut Dom) {
        self.state.unmount(dom);
    }

    fn mount(&self, dom: &mut Dom, parent: usize, marker: Option<usize>) {
        self.state.mount(dom, parent, marker);
    }

    fn first_node(&self) -> (r: Option<usize>) {
        self.state.first_node()
    }
}

/// Builds the state for a new erased value, splices it immediately before
/// the old state's nodes, and unmounts the old state: the replace path a
/// shape change takes.
pub fn replace_erased(new_value: ViewValue, old_state: &ViewState, dom: &mut Dom, cx: &mut Cx) -> (s:
    ViewState)
    requires
        old(dom).wf(),
        old_state.wf(*old(dom)),
        old(dom).parent_of(old_state.live()[0]) is Some,
    ensures
        final(dom).wf(),
        s.wf(*final(dom)),
        s.tag() == new_value.tag(),
        crate::dom::kinds_stable(*old(dom), *final(dom)),
        rnodes(*final(dom), s.live()) == new_value.target(),
        crate::dom::texts_frame(*old(dom), *final(dom), old_state.nodes()),
        crate::dom::parents_frame(*old(dom), *final(dom), old_state.nodes()),
        fresh_nodes(*old(dom), s.nodes()),
        detached(*final(dom), old_state.nodes()),
        replaced_in_place(*old(dom), *final(dom), old_state.live(), s.live()),
        cx_frame(*old(cx), *final(cx)),
{
    proof {
        old_state.wf_facts(*dom);
    }
    let ghost d1 = *dom;
    let new_state = new_value.build(dom, cx);
    let ghost d2 = *dom;
    proof {
        lemma_fresh_after_build(d1, d2, *old_state, new_state);
    }
    let r = insert_before_this(old_state, dom, &new_state);
    let ghost d3 = *dom;
    old_state.unmount(dom);
    proof {
        lemma_switch(d1, d2, d3, *dom, *old_state, new_state);
    }
    new_state
}

impl Render for AnyView {
    type State = AnyViewState;

    open spec fn target(self) -> Seq<RNode> {
        self.value.target()
    }

    open spec fn no_change(self, state: AnyViewState) -> bool {
        self.type_id == state.type_id && self.value.no_change(*state.state)
    }

    open spec fn builds_clean(self) -> bool {
        self.value.builds_clean()
    }

    open spec fn rebuilds_clean(self, state: AnyViewState) -> bool {
        self.type_id == state.type_id && self.value.rebuilds_clean(*state.state)
    }

    open spec fn rebuild_req(self, state: AnyViewState, dom: Dom) -> bool {
        if self.type_id == state.type_id {
            self.value.rebuild_req(*state.state, dom)
        } else {
            dom.parent_of(state.live()[0]) is Some
        }
    }

    proof fn rebuild_req_frame(self, state: AnyViewState, d1: Dom, d2: Dom) {
        if self.type_id == state.type_id {
            self.value.rebuild_req_frame(*state.state, d1, d2);
        } else {
            state.wf_facts(d1);
            assert(state.nodes().contains(state.live()[0]));
            let w = choose|w: int|
                0 <= w < state.nodes().len() && state.nodes()[w] == state.live()[0];
            assert(d2.parent_of(state.nodes()[w]) == d1.parent_of(state.nodes()[w]));
        }
    }

    fn build(self, dom: &mut Dom, cx: &mut Cx) -> (state: AnyViewState)
        ensures
            state.type_id == self.type_id,
            state.state.tag() == self.value.tag(),
            self.tag_consistent() ==> state.tag_consistent(),
    {
        let AnyView { type_id, value } = self;
        let inner = (*value).build(dom, cx);
        AnyViewState { type_id, state: Box::new(inner) }
    }

    fn rebuild(self, state: &mut AnyViewState, dom: &mut Dom, cx: &mut Cx)
        ensures
            final(state).type_id == self.type_id,
            final(state).state.tag() == self.value.tag(),
            self.tag_consistent() ==> final(state).tag_consistent(),
            self.type_id != old(state).type_id ==> {
                &&& final(state).type_id == self.type_id
                &&& fresh_nodes(*old(dom), final(state).nodes())
                &&& detached(*final(dom), old(state).nodes())
                &&& replaced_in_place(
                    *old(dom),
                    *final(dom),
                    old(state).live(),
                    final(state).live(),
                )
            },
    {
        if self.type_id == state.type_id {
            let AnyView { type_id, value } = self;
            (*value).rebuild(&mut *state.state, dom, cx);
        } else {
            let AnyView { type_id, value } = self;
            let new_inner = replace_erased(*value, &*state.state, dom, cx);
            state.state = Box::new(new_inner);
            state.type_id = type_id;
        }
    }
}

impl AnyView {
    /// The tag always names the shape the payload actually holds: no
    /// erased value produced by [`IntoAny`] can dispatch to the wrong
    /// concrete rebuild.
    pub open spec fn tag_consistent(self) -> bool {
        self.type_id == self.value.tag()
    }
}

/// Converts a view into its type-erased form, keeping what it displays.
/// Two values of the same concrete erasable type always receive the same
/// tag, so rebuilding one over the other's state takes the patch path.
pub trait IntoAny: Render + Sized {
    /// Erases the view.
    fn into_any(self) -> (r: AnyView)
        ensures
            r.target() == self.target(),
            r.tag_consistent(),
    ;
}

impl IntoAny for () {
    fn into_any(self) -> (r: AnyView)
        ensures
            r.type_id == 0,
            *r.value == ViewValue::Blank,
    {
        let r = AnyView { type_id: 0, value: Box::new(ViewValue::Blank) };
        proof {
            assert(r.target() =~= self.target());
        }
        r
    }
}

impl IntoAny for String {
    fn into_any(self) -> (r: AnyView)
        ensures
            r.type_id == 1,
            *r.value == ViewValue::Text(self),
    {
        let r = AnyView { type_id: 1, value: Box::new(ViewValue::Text(self)) };
        proof {
            assert(r.target() =~= self.target());
        }
        r
    }
}

impl IntoAny for ViewValue {
    fn into_any(self) -> (r: AnyView)
        ensures
            r.type_id == self.tag(),
            *r.value == self,
    {
        let tag: u64 = match &self {
            ViewValue::Blank => 0,
            ViewValue::Text(_) => 1,
        };
        AnyView { type_id: tag, value: Box::new(self) }
    }
}

impl IntoAny for AnyView {
    fn into_any(self) -> (r: AnyView)
        ensures
            *r.value == *self.value,
            self.tag_consistent() ==> r == self,
    {
        let AnyView { type_id, value } = self;
        let tag: u64 = match &*value {
            ViewValue::Blank => 0,
            ViewValue::Text(_) => 1,
        };
        AnyView { type_id: tag, value }
    }
}

/// In a build where every view is erased, a view converts to its erased
/// form; otherwise it passes through unchanged.  Here the typed path is
/// kept: the conversion is the identity.
pub trait IntoMaybeErased: Sized {
    /// The type of the output.
    type Output;

    /// Converts the view for the erased build mode.
    fn into_maybe_erased(self) -> Self::Output;
}

impl<T: Render> IntoMaybeErased for T {
    type Output = T;

    fn into_maybe_erased(self) -> (r: T)
        ensures
            r == self,
    {
        self
    }
}

} // verus!
