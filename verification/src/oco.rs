//! View rendering for the `oco_ref` crate's cheaply-cloned string type.
//!
//! An `Oco` string — borrowed, reference-counted, or owned — renders as a
//! single text node, diffed by the characters it holds.

use crate::context::Cx;
use crate::dom::{rnodes, unmount_single, Dom, RNode};
use crate::view::{Mountable, Render};
use oco_ref::Oco;
use vstd::prelude::*;

verus! {

#[verifier::external_type_specification]
#[verifier::external_body]
#[verifier::reject_recursive_types(T)]
pub struct ExOco<'a, T: ?Sized + ToOwned + 'a>(Oco<'a, T>);

/// The characters an `Oco` string holds, whichever of its three forms
/// carries them.
pub uninterp spec fn oco_str(o: Oco<'static, str>) -> Seq<char>;

/// Relies on Oco's `PartialEq`: it compares the dereferenced string
/// contents.
#[verifier::external_body]
fn oco_eq(a: &Oco<'static, str>, b: &Oco<'static, str>) -> (r: bool)
    ensures
        r == (oco_str(*a) == oco_str(*b)),
{
    a == b
}

/// Relies on Oco::as_str: a slice of the characters the value holds.
#[verifier::external_body]
fn oco_as_str<'a>(o: &'a Oco<'static, str>) -> (r: &'a str)
    ensures
        r@ == oco_str(*o),
{
    o.as_str()
}

/// Retained view state for an `Oco` string.
pub struct OcoStrState {
    /// The text node.
    pub node: usize,
    /// The string the node currently shows.
    pub str: Oco<'static, str>,
}

impl Mountable for OcoStrState {
    open spec fn nodes(self) -> Seq<usize> {
        seq![self.node]
    }

    open spec fn live(self) -> Seq<usize> {
        seq![self.node]
    }

    open spec fn wf(self, dom: Dom) -> bool {
        dom.is_text(self.node) && dom.text_of(self.node) == oco_str(self.str)
    }

    proof fn wf_frame(self, d1: Dom, d2: Dom) {
        assert(self.nodes()[0] == self.node);
    }

    proof fn wf_facts(self, dom: Dom) {
        assert(self.nodes()[0] == self.node);
        assert(self.live()[0] == self.node);
        assert(self.live().contains(self.node));
    }

    fn unmount(&self, dom: &mut Dom) {
        let ghost d1 = *old(dom);
        proof {
            assert(self.nodes()[0] == self.node);
        }
        dom.remove(self.node);
        proof {
            unmount_single(d1, *dom, self.node, self.nodes());
        }
    }

    fn mount(&self, dom: &mut Dom, parent: usize, marker: Option<usize>) {
        proof {
            assert(self.nodes()[0] == self.node);
            assert(self.node != parent);
        }
        dom.insert_node(parent, self.node, marker);
        proof {
            assert(self.live() =~= seq![self.node]);
            assert forall|i: int| 0 <= i < self.live().len() implies dom.parent_of(
                #[trigger] self.live()[i],
            ) == Some(parent) by {
                assert(self.live()[i] == self.node);
            }
        }
    }

    fn first_node(&self) -> (r: Option<usize>) {
        proof {
            assert(self.live()[0] == self.node);
        }
        Some(self.node)
    }
}

impl Render for Oco<'static, str> {
    type State = OcoStrState;

    open spec fn target(self) -> Seq<RNode> {
        seq![RNode::Txt(oco_str(self))]
    }

    open spec fn no_change(self, state: OcoStrState) -> bool {
        oco_str(self) == oco_str(state.str)
    }

    open spec fn builds_clean(self) -> bool {
        true
    }

    open spec fn rebuilds_clean(self, state: OcoStrState) -> bool {
        true
    }

    open spec fn rebuild_req(self, state: OcoStrState, dom: Dom) -> bool {
        true
    }

    proof fn rebuild_req_frame(self, state: OcoStrState, d1: Dom, d2: Dom) {
    }

    fn build(self, dom: &mut Dom, cx: &mut Cx) -> (state: OcoStrState) {
        let node = dom.create_text_node(oco_as_str(&self));
        let state = OcoStrState { node, str: self };
        proof {
            assert(state.nodes() =~= seq![node]);
            assert(rnodes(*dom, state.live()) =~= self.target());
        }
        state
    }

    fn rebuild(self, state: &mut OcoStrState, dom: &mut Dom, cx: &mut Cx)
        ensures
            final(state).node == old(state).node,
            final(dom).num_nodes() == old(dom).num_nodes(),
            *final(cx) == *old(cx),
    {
        proof {
            assert(state.nodes()[0] == state.node);
        }
        if !oco_eq(&self, &state.str) {
            dom.set_text(state.node, oco_as_str(&self));
            state.str = self;
            proof {
                assert(state.nodes() =~= seq![state.node]);
                assert(rnodes(*dom, state.live()) =~= self.target());
                assert(state.nodes().contains(state.nodes()[0]));
            }
        } else {
            proof {
                assert(rnodes(*dom, state.live()) =~= self.target());
                assert(state.nodes().contains(state.nodes()[0]));
            }
        }
    }
}

/// Cheaply-shared text state that already shows an equal string reports no
/// change for it, so rebuilding with an equal value performs no backend
/// mutation.
pub proof fn lemma_oco_noop_rebuild(v: Oco<'static, str>, state: OcoStrState, dom: Dom)
    requires
        state.wf(dom),
        rnodes(dom, state.live()) == v.target(),
    ensures
        v.no_change(state),
{
    assert(state.live()[0] == state.node);
    assert(rnodes(dom, state.live())[0] == dom.rnode(state.node));
    assert(v.target()[0] == RNode::Txt(oco_str(v)));
}

} // verus!
