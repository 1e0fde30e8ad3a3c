//! Leaf views for string types.
//!
//! Each string type renders as a single text node; its retained state keeps
//! the node and the previously shown string, and rebuild touches the
//! backend only when the new string differs from the retained one.

use crate::context::Cx;
use crate::dom::{rnodes, unmount_single, Dom, RNode};
use crate::view::{Mountable, Render};
use std::borrow::Cow;
use std::rc::Rc;
use std::sync::Arc;
use vstd::prelude::*;

verus! {

/// Relies on str's `PartialEq`: two slices are equal exactly when their
/// character sequences are.
#[verifier::external_body]
fn str_eq(a: &str, b: &str) -> (r: bool)
    ensures
        r == (a@ == b@),
{
    a == b
}

/// Retained view state for `String`.
pub struct StringState {
    /// The text node.
    pub node: usize,
    /// The string the node currently shows.
    pub str: String,
}

impl Mountable for StringState {
    open spec fn nodes(self) -> Seq<usize> {
        seq![self.node]
    }

    open spec fn live(self) -> Seq<usize> {
        seq![self.node]
    }

    open spec fn wf(self, dom: Dom) -> bool {
        dom.is_text(self.node) && dom.text_of(self.node) == self.str@
    }

    proof fn wf_frame(self, d1: Dom, d2: Dom) {
        assert(self.nodes()[0] == self.node);
    }

    proof fn wf_facts(self, dom: Dom) {
        assert(self.nodes()[0] == self.node);
        assert(self.live()[0] == self.node);
        assert(self.live().contains(self.node));
    }

    fn unmount(&self, dom: &mut Dom) {
        let ghost d1 = *old(dom);
        proof {
            assert(self.nodes()[0] == self.node);
        }
        dom.remove(self.node);
        proof {
            unmount_single(d1, *dom, self.node, self.nodes());
        }
    }

    fn mount(&self, dom: &mut Dom, parent: usize, marker: Option<usize>) {
        proof {
            assert(self.nodes()[0] == self.node);
            assert(self.node != parent);
        }
        dom.insert_node(parent, self.node, marker);
        proof {
            assert(self.live() =~= seq![self.node]);
            assert forall|i: int| 0 <= i < self.live().len() implies dom.parent_of(
                #[trigger] self.live()[i],
            ) == Some(parent) by {
                assert(self.live()[i] == self.node);
            }
        }
    }

    fn first_node(&self) -> (r: Option<usize>) {
        proof {
            assert(self.live()[0] == self.node);
        }
        Some(self.node)
    }
}

impl Render for String {
    type State = StringState;

    open spec fn target(self) -> Seq<RNode> {
        seq![RNode::Txt(self@)]
    }

    open spec fn no_change(self, state: StringState) -> bool {
        self@ == state.str@
    }

    open spec fn builds_clean(self) -> bool {
        true
    }

    open spec fn rebuilds_clean(self, state: StringState) -> bool {
        true
    }

    open spec fn rebuild_req(self, state: StringState, dom: Dom) -> bool {
        true
    }

    proof fn rebuild_req_frame(self, state: StringState, d1: Dom, d2: Dom) {
    }

    fn build(self, dom: &mut Dom, cx: &mut Cx) -> (state: StringState) {
        let node = dom.create_text_node(self.as_str());
        let state = StringState { node, str: self };
        proof {
            assert(state.nodes() =~= seq![node]);
            assert(rnodes(*dom, state.live()) =~= self.target());
        }
        state
    }

    fn rebuild(self, state: &mut StringState, dom: &mut Dom, cx: &mut Cx)
        ensures
            final(state).node == old(state).node,
            final(dom).num_nodes() == old(dom).num_nodes(),
            *final(cx) == *old(cx),
    {
        proof {
            assert(state.nodes()[0] == state.node);
        }
        if !str_eq(self.as_str(), state.str.as_str()) {
            dom.set_text(state.node, self.as_str());
            state.str = self;
            proof {
                assert(state.nodes() =~= seq![state.node]);
                assert(rnodes(*dom, state.live()) =~= self.target());
                assert(state.nodes().contains(state.nodes()[0]));
            }
        } else {
            proof {
                assert(rnodes(*dom, state.live()) =~= self.target());
                assert(state.nodes().contains(state.nodes()[0]));
            }
        }
    }
}

/// Text state that already shows an equal string reports no change for it,
/// so rebuilding with an equal value performs no backend mutation.
pub proof fn lemma_string_noop_rebuild(v: String, state: StringState, dom: Dom)
    requires
        state.wf(dom),
        rnodes(dom, state.live()) == v.target(),
    ensures
        v.no_change(state),
{
    assert(state.live()[0] == state.node);
    assert(rnodes(dom, state.live())[0] == dom.rnode(state.node));
    assert(v.target()[0] == RNode::Txt(v@));
}

/// Retained view state for `&str`.
pub struct StrState<'a> {
    /// The text node.
    pub node: usize,
    /// The string the node currently shows.
    pub str: &'a str,
}

impl<'a> Mountable for StrState<'a> {
    open spec fn nodes(self) -> Seq<usize> {
        seq![self.node]
    }

    open spec fn live(self) -> Seq<usize> {
        seq![self.node]
    }

    open spec fn wf(self, dom: Dom) -> bool {
        dom.is_text(self.node) && dom.text_of(self.node) == self.str@
    }

    proof fn wf_frame(self, d1: Dom, d2: Dom) {
        assert(self.nodes()[0] == self.node);
    }

    proof fn wf_facts(self, dom: Dom) {
        assert(self.nodes()[0] == self.node);
        assert(self.live()[0] == self.node);
        assert(self.live().contains(self.node));
    }

    fn unmount(&self, dom: &mut Dom) {
        let ghost d1 = *old(dom);
        proof {
            assert(self.nodes()[0] == self.node);
        }
        dom.remove(self.node);
        proof {
            unmount_single(d1, *dom, self.node, self.nodes());
        }
    }

    fn mount(&self, dom: &mut Dom, parent: usize, marker: Option<usize>) {
        proof {
            assert(self.nodes()[0] == self.node);
            assert(self.node != parent);
        }
        dom.insert_node(parent, self.node, marker);
        proof {
            assert(self.live() =~= seq![self.node]);
            assert forall|i: int| 0 <= i < self.live().len() implies dom.parent_of(
                #[trigger] self.live()[i],
            ) == Some(parent) by {
                assert(self.live()[i] == self.node);
            }
        }
    }

    fn first_node(&self) -> (r: Option<usize>) {
        proof {
            assert(self.live()[0] == self.node);
        }
        Some(self.node)
    }
}

impl<'a> Render for &'a str {
    type State = StrState<'a>;

    open spec fn target(self) -> Seq<RNode> {
        seq![RNode::Txt(self@)]
    }

    open spec fn no_change(self, state: StrState<'a>) -> bool {
        self@ == state.str@
    }

    open spec fn builds_clean(self) -> bool {
        true
    }

    open spec fn rebuilds_clean(self, state: StrState<'a>) -> bool {
        true
    }

    open spec fn rebuild_req(self, state: StrState<'a>, dom: Dom) -> bool {
        true
    }

    proof fn rebuild_req_frame(self, state: StrState<'a>, d1: Dom, d2: Dom) {
    }

    fn build(self, dom: &mut Dom, cx: &mut Cx) -> (state: StrState<'a>) {
        let node = dom.create_text_node(self);
        let state = StrState { node, str: self };
        proof {
            assert(state.nodes() =~= seq![node]);
            assert(rnodes(*dom, state.live()) =~= self.target());
        }
        state
    }

    fn rebuild(self, state: &mut StrState<'a>, dom: &mut Dom, cx: &mut Cx)
        ensures
            final(state).node == old(state).node,
            final(dom).num_nodes() == old(dom).num_nodes(),
            *final(cx) == *old(cx),
    {
        proof {
            assert(state.nodes()[0] == state.node);
        }
        if !str_eq(self, state.str) {
            dom.set_text(state.node, self);
            state.str = self;
            proof {
                assert(state.nodes() =~= seq![state.node]);
                assert(rnodes(*dom, state.live()) =~= self.target());
                assert(state.nodes().contains(state.nodes()[0]));
            }
        } else {
            proof {
                assert(rnodes(*dom, state.live()) =~= self.target());
                assert(state.nodes().contains(state.nodes()[0]));
            }
        }
    }
}

/// Retained view state for `Rc<String>`.
pub struct RcStrState {
    /// The text node.
    pub node: usize,
    /// The string the node currently shows.
    pub str: Rc<String>,
}

impl Mountable for RcStrState {
    open spec fn nodes(self) -> Seq<usize> {
        seq![self.node]
    }

    open spec fn live(self) -> Seq<usize> {
        seq![self.node]
    }

    open spec fn wf(self, dom: Dom) -> bool {
        dom.is_text(self.node) && dom.text_of(self.node) == self.str@
    }

    proof fn wf_frame(self, d1: Dom, d2: Dom) {
        assert(self.nodes()[0] == self.node);
    }

    proof fn wf_facts(self, dom: Dom) {
        assert(self.nodes()[0] == self.node);
        assert(self.live()[0] == self.node);
        assert(self.live().contains(self.node));
    }

    fn unmount(&self, dom: &mut Dom) {
        let ghost d1 = *old(dom);
        proof {
            assert(self.nodes()[0] == self.node);
        }
        dom.remove(self.node);
        proof {
            unmount_single(d1, *dom, self.node, self.nodes());
        }
    }

    fn mount(&self, dom: &mut Dom, parent: usize, marker: Option<usize>) {
        proof {
            assert(self.nodes()[0] == self.node);
            assert(self.node != parent);
        }
        dom.insert_node(parent, self.node, marker);
        proof {
            assert(self.live() =~= seq![self.node]);
            assert forall|i: int| 0 <= i < self.live().len() implies dom.parent_of(
                #[trigger] self.live()[i],
            ) == Some(parent) by {
                assert(self.live()[i] == self.node);
            }
        }
    }

    fn first_node(&self) -> (r: Option<usize>) {
        proof {
            assert(self.live()[0] == self.node);
        }
        Some(self.node)
    }
}

impl Render for Rc<String> {
    type State = RcStrState;

    open spec fn target(self) -> Seq<RNode> {
        seq![RNode::Txt(self@)]
    }

    open spec fn no_change(self, state: RcStrState) -> bool {
        self@ == state.str@
    }

    open spec fn builds_clean(self) -> bool {
        true
    }

    open spec fn rebuilds_clean(self, state: RcStrState) -> bool {
        true
    }

    open spec fn rebuild_req(self, state: RcStrState, dom: Dom) -> bool {
        true
    }

    proof fn rebuild_req_frame(self, state: RcStrState, d1: Dom, d2: Dom) {
    }

    fn build(self, dom: &mut Dom, cx: &mut Cx) -> (state: RcStrState) {
        let node = dom.create_text_node((*self).as_str());
        let state = RcStrState { node, str: self };
        proof {
            assert(state.nodes() =~= seq![node]);
            assert(rnodes(*dom, state.live()) =~= self.target());
        }
        state
    }

    fn rebuild(self, state: &mut RcStrState, dom: &mut Dom, cx: &mut Cx)
        ensures
            final(state).node == old(state).node,
            final(dom).num_nodes() == old(dom).num_nodes(),
            *final(cx) == *old(cx),
    {
        proof {
            assert(state.nodes()[0] == state.node);
        }
        if !str_eq((*self).as_str(), (*state.str).as_str()) {
            dom.set_text(state.node, (*self).as_str());
            state.str = self;
            proof {
                assert(state.nodes() =~= seq![state.node]);
                assert(rnodes(*dom, state.live()) =~= self.target());
                assert(state.nodes().contains(state.nodes()[0]));
            }
        } else {
            proof {
                assert(rnodes(*dom, state.live()) =~= self.target());
                assert(state.nodes().contains(state.nodes()[0]));
            }
        }
    }
}

/// Retained view state for `Arc<String>`.
pub struct ArcStrState {
    /// The text node.
    pub node: usize,
    /// The string the node currently shows.
    pub str: Arc<String>,
}

impl Mountable for ArcStrState {
    open spec fn nodes(self) -> Seq<usize> {
        seq![self.node]
    }

    open spec fn live(self) -> Seq<usize> {
        seq![self.node]
    }

    open spec fn wf(self, dom: Dom) -> bool {
        dom.is_text(self.node) && dom.text_of(self.node) == self.str@
    }

    proof fn wf_frame(self, d1: Dom, d2: Dom) {
        assert(self.nodes()[0] == self.node);
    }

    proof fn wf_facts(self, dom: Dom) {
        assert(self.nodes()[0] == self.node);
        assert(self.live()[0] == self.node);
        assert(self.live().contains(self.node));
    }

    fn unmount(&self, dom: &mut Dom) {
        let ghost d1 = *old(dom);
        proof {
            assert(self.nodes()[0] == self.node);
        }
        dom.remove(self.node);
        proof {
            unmount_single(d1, *dom, self.node, self.nodes());
        }
    }

    fn mount(&self, dom: &mut Dom, parent: usize, marker: Option<usize>) {
        proof {
            assert(self.nodes()[0] == self.node);
            assert(self.node != parent);
        }
        dom.insert_node(parent, self.node, marker);
        proof {
            assert(self.live() =~= seq![self.node]);
            assert forall|i: int| 0 <= i < self.live().len() implies dom.parent_of(
                #[trigger] self.live()[i],
            ) == Some(parent) by {
                assert(self.live()[i] == self.node);
            }
        }
    }

    fn first_node(&self) -> (r: Option<usize>) {
        proof {
            assert(self.live()[0] == self.node);
        }
        Some(self.node)
    }
}

impl Render for Arc<String> {
    type State = ArcStrState;

    open spec fn target(self) -> Seq<RNode> {
        seq![RNode::Txt(self@)]
    }

    open spec fn no_change(self, state: ArcStrState) -> bool {
        self@ == state.str@
    }

    open spec fn builds_clean(self) -> bool {
        true
    }

    open spec fn rebuilds_clean(self, state: ArcStrState) -> bool {
        true
    }

    open spec fn rebuild_req(self, state: ArcStrState, dom: Dom) -> bool {
        true
    }

    proof fn rebuild_req_frame(self, state: ArcStrState, d1: Dom, d2: Dom) {
    }

    fn build(self, dom: &mut Dom, cx: &mut Cx) -> (state: ArcStrState) {
        let node = dom.create_text_node((*self).as_str());
        let state = ArcStrState { node, str: self };
        proof {
            assert(state.nodes() =~= seq![node]);
            assert(rnodes(*dom, state.live()) =~= self.target());
        }
        state
    }

    fn rebuild(self, state: &mut ArcStrState, dom: &mut Dom, cx: &mut Cx)
        ensures
            final(state).node == old(state).node,
            final(dom).num_nodes() == old(dom).num_nodes(),
            *final(cx) == *old(cx),
    {
        proof {
            assert(state.nodes()[0] == state.node);
        }
        if !str_eq((*self).as_str(), (*state.str).as_str()) {
            dom.set_text(state.node, (*self).as_str());
            state.str = self;
            proof {
                assert(state.nodes() =~= seq![state.node]);
                assert(rnodes(*dom, state.live()) =~= self.target());
                assert(state.nodes().contains(state.nodes()[0]));
            }
        } else {
            proof {
                assert(rnodes(*dom, state.live()) =~= self.target());
                assert(state.nodes().contains(state.nodes()[0]));
            }
        }
    }
}


/// Slice text state that already shows an equal string reports no change
/// for it, so rebuilding with an equal value performs no backend mutation.
pub proof fn lemma_str_noop_rebuild<'a>(v: &'a str, state: StrState<'a>, dom: Dom)
    requires
        state.wf(dom),
        rnodes(dom, state.live()) == v.target(),
    ensures
        v.no_change(state),
{
    assert(state.live()[0] == state.node);
    assert(rnodes(dom, state.live())[0] == dom.rnode(state.node));
    assert(v.target()[0] == RNode::Txt(v@));
}

/// Shared text state that already shows an equal string reports no change
/// for it, so rebuilding with an equal value performs no backend mutation.
pub proof fn lemma_rc_str_noop_rebuild(v: Rc<String>, state: RcStrState, dom: Dom)
    requires
        state.wf(dom),
        rnodes(dom, state.live()) == v.target(),
    ensures
        v.no_change(state),
{
    assert(state.live()[0] == state.node);
    assert(rnodes(dom, state.live())[0] == dom.rnode(state.node));
    assert(v.target()[0] == RNode::Txt(v@));
}

/// Thread-shared text state that already shows an equal string reports no
/// change for it, so rebuilding with an equal value performs no backend
/// mutation.
pub proof fn lemma_arc_str_noop_rebuild(v: Arc<String>, state: ArcStrState, dom: Dom)
    requires
        state.wf(dom),
        rnodes(dom, state.live()) == v.target(),
    ensures
        v.no_change(state),
{
    assert(state.live()[0] == state.node);
    assert(rnodes(dom, state.live())[0] == dom.rnode(state.node));
    assert(v.target()[0] == RNode::Txt(v@));
}


/// Relies on Cow's `AsRef<str>`: a slice of the characters the value
/// holds, borrowed or owned.
#[verifier::external_body]
fn cow_as_str<'a, 'b>(c: &'b Cow<'a, str>) -> (r: &'b str)
    ensures
        r@ == c@,
{
    c.as_ref()
}

/// Retained view state for `Cow<'_, str>`.
pub struct CowStrState<'a> {
    /// The text node.
    pub node: usize,
    /// The string the node currently shows.
    pub str: Cow<'a, str>,
}

impl<'a> Mountable for CowStrState<'a> {
    open spec fn nodes(self) -> Seq<usize> {
        seq![self.node]
    }

    open spec fn live(self) -> Seq<usize> {
        seq![self.node]
    }

    open spec fn wf(self, dom: Dom) -> bool {
        dom.is_text(self.node) && dom.text_of(self.node) == self.str@
    }

    proof fn wf_frame(self, d1: Dom, d2: Dom) {
        assert(self.nodes()[0] == self.node);
    }

    proof fn wf_facts(self, dom: Dom) {
        assert(self.nodes()[0] == self.node);
        assert(self.live()[0] == self.node);
        assert(self.live().contains(self.node));
    }

    fn unmount(&self, dom: &mut Dom) {
        let ghost d1 = *old(dom);
        proof {
            assert(self.nodes()[0] == self.node);
        }
        dom.remove(self.node);
        proof {
            unmount_single(d1, *dom, self.node, self.nodes());
        }
    }

    fn mount(&self, dom: &mut Dom, parent: usize, marker: Option<usize>) {
        proof {
            assert(self.nodes()[0] == self.node);
            assert(self.node != parent);
        }
        dom.insert_node(parent, self.node, marker);
        proof {
            assert(self.live() =~= seq![self.node]);
            assert forall|i: int| 0 <= i < self.live().len() implies dom.parent_of(
                #[trigger] self.live()[i],
            ) == Some(parent) by {
                assert(self.live()[i] == self.node);
            }
        }
    }

    fn first_node(&self) -> (r: Option<usize>) {
        proof {
            assert(self.live()[0] == self.node);
        }
        Some(self.node)
    }
}

impl<'a> Render for Cow<'a, str> {
    type State = CowStrState<'a>;

    open spec fn target(self) -> Seq<RNode> {
        seq![RNode::Txt(self@)]
    }

    open spec fn no_change(self, state: CowStrState<'a>) -> bool {
        self@ == state.str@
    }

    open spec fn builds_clean(self) -> bool {
        true
    }

    open spec fn rebuilds_clean(self, state: CowStrState<'a>) -> bool {
        true
    }

    open spec fn rebuild_req(self, state: CowStrState<'a>, dom: Dom) -> bool {
        true
    }

    proof fn rebuild_req_frame(self, state: CowStrState<'a>, d1: Dom, d2: Dom) {
    }

    fn build(self, dom: &mut Dom, cx: &mut Cx) -> (state: CowStrState<'a>) {
        let node = dom.create_text_node(cow_as_str(&self));
        let state = CowStrState { node, str: self };
        proof {
            assert(state.nodes() =~= seq![node]);
            assert(rnodes(*dom, state.live()) =~= self.target());
        }
        state
    }

    fn rebuild(self, state: &mut CowStrState<'a>, dom: &mut Dom, cx: &mut Cx)
        ensures
            final(state).node == old(state).node,
            final(dom).num_nodes() == old(dom).num_nodes(),
            *final(cx) == *old(cx),
    {
        proof {
            assert(state.nodes()[0] == state.node);
        }
        if !str_eq(cow_as_str(&self), cow_as_str(&state.str)) {
            dom.set_text(state.node, cow_as_str(&self));
            state.str = self;
            proof {
                assert(state.nodes() =~= seq![state.node]);
                assert(rnodes(*dom, state.live()) =~= self.target());
                assert(state.nodes().contains(state.nodes()[0]));
            }
        } else {
            proof {
                assert(rnodes(*dom, state.live()) =~= self.target());
                assert(state.nodes().contains(state.nodes()[0]));
            }
        }
    }
}

/// Borrow-or-own text state that already shows an equal string reports no
/// change for it, so rebuilding with an equal value performs no backend
/// mutation.
pub proof fn lemma_cow_str_noop_rebuild<'a>(v: Cow<'a, str>, state: CowStrState<'a>, dom: Dom)
    requires
        state.wf(dom),
        rnodes(dom, state.live()) == v.target(),
    ensures
        v.no_change(state),
{
    assert(state.live()[0] == state.node);
    assert(rnodes(dom, state.live())[0] == dom.rnode(state.node));
    assert(v.target()[0] == RNode::Txt(v@));
}

} // verus!
