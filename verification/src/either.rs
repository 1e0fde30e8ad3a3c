//! The two-way alternative: exactly one of two branches is active.
//!
//! Rebuilding with the same variant delegates to that branch's own rebuild.
//! Rebuilding with the other variant builds the new branch, splices it
//! immediately before the old branch's nodes, and only then unmounts the
//! old branch, so the new nodes take exactly the position the old ones
//! occupied in document order.
//!
//! Only the two-way form is provided; a choice among more branches nests
//! this type, since each wider form would repeat the same definitions and
//! proofs once per arity.

use crate::context::{cx_frame, Cx};
use crate::dom::{
    detached, fresh_nodes, replaced_in_place, rnodes, Dom, RNode,
};
use crate::view::{insert_before_this, lemma_fresh_after_build, lemma_switch, Mountable, Render};
use vstd::prelude::*;

verus! {

/// A choice between two alternatives.
pub enum Either<A, B> {
    /// The first alternative.
    Left(A),
    /// The second alternative.
    Right(B),
}

impl<A: Mountable, B: Mountable> Mountable for Either<A, B> {
    open spec fn nodes(self) -> Seq<usize> {
        match self {
            Either::Left(a) => a.nodes(),
            Either::Right(b) => b.nodes(),
        }
    }

    open spec fn live(self) -> Seq<usize> {
        match self {
            Either::Left(a) => a.live(),
            Either::Right(b) => b.live(),
        }
    }

    open spec fn wf(self, dom: Dom) -> bool {
        match self {
            Either::Left(a) => a.wf(dom),
            Either::Right(b) => b.wf(dom),
        }
    }

    proof fn wf_frame(self, d1: Dom, d2: Dom) {
        match self {
            Either::Left(a) => a.wf_frame(d1, d2),
            Either::Right(b) => b.wf_frame(d1, d2),
        }
    }

    proof fn wf_facts(self, dom: Dom) {
        match self {
            Either::Left(a) => a.wf_facts(dom),
            Either::Right(b) => b.wf_facts(dom),
        }
    }

    fn unmount(&self, dom: &mut Dom) {
        match self {
            Either::Left(a) => a.unmount(dom),
            Either::Right(b) => b.unmount(dom),
        }
    }

    fn mount(&self, dom: &mut Dom, parent: usize, marker: Option<usize>) {
        match self {
            Either::Left(a) => a.mount(dom, parent, marker),
            Either::Right(b) => b.mount(dom, parent, marker),
        }
    }

    fn first_node(&self) -> (r: Option<usize>) {
        match self {
            Either::Left(a) => a.first_node(),
            Either::Right(b) => b.first_node(),
        }
    }
}

impl<A: Render, B: Render> Render for Either<A, B> {
    type State = Either<A::State, B::State>;

    open spec fn target(self) -> Seq<RNode> {
        match self {
            Either::Left(a) => a.target(),
            Either::Right(b) => b.target(),
        }
    }

    open spec fn no_change(self, state: Either<A::State, B::State>) -> bool {
        match (self, state) {
            (Either::Left(n), Either::Left(s)) => n.no_change(s),
            (Either::Right(n), Either::Right(s)) => n.no_change(s),
            _ => false,
        }
    }

    open spec fn builds_clean(self) -> bool {
        match self {
            Either::Left(a) => a.builds_clean(),
            Either::Right(b) => b.builds_clean(),
        }
    }

    open spec fn rebuilds_clean(self, state: Either<A::State, B::State>) -> bool {
        match (self, state) {
            (Either::Left(n), Either::Left(s)) => n.rebuilds_clean(s),
            (Either::Right(n), Either::Right(s)) => n.rebuilds_clean(s),
            _ => false,
        }
    }

    open spec fn rebuild_req(self, state: Either<A::State, B::State>, dom: Dom) -> bool {
        match (self, state) {
            (Either::Left(n), Either::Left(s)) => n.rebuild_req(s, dom),
            (Either::Right(n), Either::Right(s)) => n.rebuild_req(s, dom),
            (Either::Left(n), Either::Right(s)) => dom.parent_of(s.live()[0]) is Some,
            (Either::Right(n), Either::Left(s)) => dom.parent_of(s.live()[0]) is Some,
        }
    }

    proof fn rebuild_req_frame(self, state: Either<A::State, B::State>, d1: Dom, d2: Dom) {
        match (self, state) {
            (Either::Left(n), Either::Left(s)) => n.rebuild_req_frame(s, d1, d2),
            (Either::Right(n), Either::Right(s)) => n.rebuild_req_frame(s, d1, d2),
            (Either::Left(n), Either::Right(s)) => {
                s.wf_facts(d1);
                assert(s.nodes().contains(s.live()[0]));
                let w = choose|w: int| 0 <= w < s.nodes().len() && s.nodes()[w] == s.live()[0];
                assert(d2.parent_of(s.nodes()[w]) == d1.parent_of(s.nodes()[w]));
            },
            (Either::Right(n), Either::Left(s)) => {
                s.wf_facts(d1);
                assert(s.nodes().contains(s.live()[0]));
                let w = choose|w: int| 0 <= w < s.nodes().len() && s.nodes()[w] == s.live()[0];
                assert(d2.parent_of(s.nodes()[w]) == d1.parent_of(s.nodes()[w]));
            },
        }
    }

    fn build(self, dom: &mut Dom, cx: &mut Cx) -> (state: Either<A::State, B::State>)
        ensures
            self is Left <==> state is Left,
    {
        match self {
            Either::Left(a) => Either::Left(a.build(dom, cx)),
            Either::Right(b) => Either::Right(b.build(dom, cx)),
        }
    }

    fn rebuild(self, state: &mut Either<A::State, B::State>, dom: &mut Dom, cx: &mut Cx)
        ensures
            self is Left && *old(state) is Left ==> (*final(state)) is Left,
            self is Right && *old(state) is Right ==> (*final(state)) is Right,
            self is Right && *old(state) is Left ==> {
                &&& (*final(state)) is Right
                &&& fresh_nodes(*old(dom), final(state).nodes())
                &&& detached(*final(dom), old(state).nodes())
                &&& replaced_in_place(
                    *old(dom),
                    *final(dom),
                    old(state).live(),
                    final(state).live(),
                )
            },
            self is Left && *old(state) is Right ==> {
                &&& (*final(state)) is Left
                &&& fresh_nodes(*old(dom), final(state).nodes())
                &&& detached(*final(dom), old(state).nodes())
                &&& replaced_in_place(
                    *old(dom),
                    *final(dom),
                    old(state).live(),
                    final(state).live(),
                )
            },
    {
        match (self, &mut *state) {
            (Either::Left(new), Either::Left(old_side)) => {
                new.rebuild(old_side, dom, cx);
            },
            (Either::Right(new), Either::Right(old_side)) => {
                new.rebuild(old_side, dom, cx);
            },
            (Either::Right(new), Either::Left(old_side)) => {
                proof {
                    old_side.wf_facts(*dom);
                }
                let ghost d1 = *dom;
                let mut new_state = new.build(dom, cx);
                let ghost d2 = *dom;
                proof {
                    lemma_fresh_after_build(d1, d2, *old_side, new_state);
                }
                let r = insert_before_this(&*old_side, dom, &new_state);
                let ghost d3 = *dom;
                old_side.unmount(dom);
                proof {
                    lemma_switch(d1, d2, d3, *dom, *old_side, new_state);
                    assert(rnodes(*dom, new_state.live()) == Either::<A, B>::Right(
                        new,
                    ).target());
                }
                *state = Either::Right(new_state);
            },
            (Either::Left(new), Either::Right(old_side)) => {
                proof {
                    old_side.wf_facts(*dom);
                }
                let ghost d1 = *dom;
                let mut new_state = new.build(dom, cx);
                let ghost d2 = *dom;
                proof {
                    lemma_fresh_after_build(d1, d2, *old_side, new_state);
                }
                let r = insert_before_this(&*old_side, dom, &new_state);
                let ghost d3 = *dom;
                old_side.unmount(dom);
                proof {
                    lemma_switch(d1, d2, d3, *dom, *old_side, new_state);
                    assert(rnodes(*dom, new_state.live()) == Either::<A, B>::Left(new).target());
                }
                *state = Either::Left(new_state);
            },
        }
    }
}

} // verus!
