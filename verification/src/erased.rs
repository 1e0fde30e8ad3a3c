//! The concrete view values that type erasure can carry, and their
//! retained states.
//!
//! The statically-typed combinators cannot name a heterogeneously-typed
//! collection; that exists only through the erased view, which this module
//! grounds: a closed universe of erasable leaf values realized as a tagged
//! union.  A heterogeneous collection of erased views is a fragment, which
//! renders through the list combinator over erased entries.

use crate::context::{cx_frame, Cx};
use crate::dom::{Dom, RNode};
use crate::strings::StringState;
use crate::view::{Mountable, PlaceholderState, Render};
use vstd::prelude::*;

verus! {

/// An erased view value.
pub enum ViewValue {
    /// The unit view: a placeholder.
    Blank,
    /// A text view.
    Text(String),
}

impl ViewValue {
    /// The tag of this value's shape; erasure stores it, and rebuilds of
    /// erased views dispatch on it.
    pub open spec fn tag(self) -> u64 {
        match self {
            ViewValue::Blank => 0,
            ViewValue::Text(_) => 1,
        }
    }
}

/// Retained state for an erased view value.
pub enum ViewState {
    /// State for the unit view.
    Blank(PlaceholderState),
    /// State for a text view.
    Text(StringState),
}

impl Mountable for ViewState {
    open spec fn nodes(self) -> Seq<usize> {
        match self {
            ViewState::Blank(p) => p.nodes(),
            ViewState::Text(s) => s.nodes(),
        }
    }

    open spec fn live(self) -> Seq<usize> {
        match self {
            ViewState::Blank(p) => p.live(),
            ViewState::Text(s) => s.live(),
        }
    }

    open spec fn wf(self, dom: Dom) -> bool {
        match self {
            ViewState::Blank(p) => p.wf(dom),
            ViewState::Text(s) => s.wf(dom),
        }
    }

    proof fn wf_frame(self, d1: Dom, d2: Dom) {
        match self {
            ViewState::Blank(p) => p.wf_frame(d1, d2),
            ViewState::Text(s) => s.wf_frame(d1, d2),
        }
    }

    proof fn wf_facts(self, dom: Dom) {
        match self {
            ViewState::Blank(p) => p.wf_facts(dom),
            ViewState::Text(s) => s.wf_facts(dom),
        }
    }

    fn unmount(&self, dom: &mut Dom) {
        match self {
            ViewState::Blank(p) => p.unmount(dom),
            ViewState::Text(s) => s.unmount(dom),
        }
    }

    fn mount(&self, dom: &mut Dom, parent: usize, marker: Option<usize>) {
        match self {
            ViewState::Blank(p) => p.mount(dom, parent, marker),
            ViewState::Text(s) => s.mount(dom, parent, marker),
        }
    }

    fn first_node(&self) -> (r: Option<usize>) {
        match self {
            ViewState::Blank(p) => p.first_node(),
            ViewState::Text(s) => s.first_node(),
        }
    }
}

impl ViewState {
    /// The tag of the shape this state retains.
    pub open spec fn tag(self) -> u64 {
        match self {
            ViewState::Blank(_) => 0,
            ViewState::Text(_) => 1,
        }
    }
}

impl Render for ViewValue {
    type State = ViewState;

    open spec fn target(self) -> Seq<RNode> {
        match self {
            ViewValue::Blank => seq![RNode::Hole],
            ViewValue::Text(s) => seq![RNode::Txt(s@)],
        }
    }

    open spec fn no_change(self, state: ViewState) -> bool {
        match (self, state) {
            (ViewValue::Blank, ViewState::Blank(_)) => true,
            (ViewValue::Text(v), ViewState::Text(s)) => v.no_change(s),
            _ => false,
        }
    }

    open spec fn builds_clean(self) -> bool {
        match self {
            ViewValue::Blank => true,
            ViewValue::Text(_) => true,
        }
    }

    open spec fn rebuilds_clean(self, state: ViewState) -> bool {
        self.tag() == state.tag()
    }

    open spec fn rebuild_req(self, state: ViewState, dom: Dom) -> bool {
        match (self, state) {
            (ViewValue::Blank, ViewState::Blank(_)) => true,
            (ViewValue::Text(v), ViewState::Text(s)) => true,
            _ => dom.parent_of(state.live()[0]) is Some,
        }
    }

    proof fn rebuild_req_frame(self, state: ViewState, d1: Dom, d2: Dom) {
        match (self, state) {
            (ViewValue::Blank, ViewState::Blank(_)) => {},
            (ViewValue::Text(v), ViewState::Text(s)) => {},
            _ => {
                state.wf_facts(d1);
                assert(state.nodes().contains(state.live()[0]));
                let w = choose|w: int|
                    0 <= w < state.nodes().len() && state.nodes()[w] == state.live()[0];
                assert(d2.parent_of(state.nodes()[w]) == d1.parent_of(state.nodes()[w]));
            },
        }
    }

    fn build(self, dom: &mut Dom, cx: &mut Cx) -> (state: ViewState)
        ensures
            state.tag() == self.tag(),
    {
        match self {
            ViewValue::Blank => ViewState::Blank(().build(dom, cx)),
            ViewValue::Text(s) => ViewState::Text(s.build(dom, cx)),
        }
    }

    fn rebuild(self, state: &mut ViewState, dom: &mut Dom, cx: &mut Cx)
        ensures
            final(state).tag() == self.tag(),
    {
        let same = match (&self, &*state) {
            (ViewValue::Blank, ViewState::Blank(_)) => true,
            (ViewValue::Text(_), ViewState::Text(_)) => true,
            _ => false,
        };
        if same {
            match (self, &mut *state) {
                (ViewValue::Blank, ViewState::Blank(s)) => {
                    ().rebuild(s, dom, cx);
                },
                (ViewValue::Text(v), ViewState::Text(s)) => {
                    v.rebuild(s, dom, cx);
                },
                _ => {
                    proof {
                        assert(false);
                    }
                },
            }
        } else {
            let replacement = crate::any_view::replace_erased(self, &*state, dom, cx);
            *state = replacement;
        }
    }
}

} // verus!
