//! View rendering for `Result<_, _>`: the fallible combinator.
//!
//! A success value renders its child; an error value renders a
//! zero-footprint placeholder and registers the error with the ambient
//! registry, keeping the returned identifier.  Rebuilding across the
//! success/error boundary registers or clears exactly once per transition,
//! and releasing an error-holding state must clear its registration —
//! that duty is [`ResultState::clear_error`], which the owner calls
//! exactly once on release — so no stale error outlives the subtree that
//! raised it.

use crate::context::{cx_frame, AppError, Cx, ErrorEvent};
use crate::dom::{
    agree_on, detached, fresh_nodes, replaced_in_place, rnodes, Dom, RNode,
};
use crate::either::Either;
use crate::view::{insert_before_this, lemma_fresh_after_build, lemma_switch, Mountable, PlaceholderState, Render};
use vstd::prelude::*;

verus! {

/// View state for a `Result<_, _>` view: the child's state or a
/// placeholder, the registered error's identifier, and the error hook that
/// was installed at build time.
pub struct ResultState<T> {
    /// The child state (success) or the placeholder (error).
    pub inner: Either<T, PlaceholderState>,
    /// The identifier of the currently registered error, if any.
    pub error: Option<u64>,
    /// The ambient error hook captured when the state was built.
    pub hook: Option<u64>,
}

impl<T: Mountable> Mountable for ResultState<T> {
    open spec fn nodes(self) -> Seq<usize> {
        self.inner.nodes()
    }

    open spec fn live(self) -> Seq<usize> {
        self.inner.live()
    }

    open spec fn wf(self, dom: Dom) -> bool {
        &&& self.inner.wf(dom)
        &&& (self.inner is Left <==> self.error is None)
    }

    proof fn wf_frame(self, d1: Dom, d2: Dom) {
        self.inner.wf_frame(d1, d2);
    }

    proof fn wf_facts(self, dom: Dom) {
        self.inner.wf_facts(dom);
    }

    fn unmount(&self, dom: &mut Dom) {
        self.inner.unmount(dom);
    }

    fn mount(&self, dom: &mut Dom, parent: usize, marker: Option<usize>) {
        self.inner.mount(dom, parent, marker);
    }

    fn first_node(&self) -> (r: Option<usize>) {
        self.inner.first_node()
    }
}

impl<T: Render> Render for Result<T, AppError> {
    type State = ResultState<T::State>;

    open spec fn target(self) -> Seq<RNode> {
        match self {
            Ok(v) => v.target(),
            Err(_) => seq![RNode::Hole],
        }
    }

    open spec fn no_change(self, state: ResultState<T::State>) -> bool {
        match (self, state.inner) {
            (Ok(v), Either::Left(s)) => v.no_change(s),
            _ => false,
        }
    }

    open spec fn builds_clean(self) -> bool {
        match self {
            Ok(v) => v.builds_clean(),
            Err(_) => false,
        }
    }

    open spec fn rebuilds_clean(self, state: ResultState<T::State>) -> bool {
        match (self, state.inner) {
            (Ok(v), Either::Left(s)) => v.rebuilds_clean(s),
            _ => false,
        }
    }

    open spec fn rebuild_req(self, state: ResultState<T::State>, dom: Dom) -> bool {
        match (self, state.inner) {
            (Ok(v), Either::Left(s)) => v.rebuild_req(s, dom),
            (Ok(v), Either::Right(s)) => dom.parent_of(s.live()[0]) is Some,
            (Err(e), Either::Left(s)) => dom.parent_of(s.live()[0]) is Some,
            (Err(e), Either::Right(s)) => true,
        }
    }

    proof fn rebuild_req_frame(self, state: ResultState<T::State>, d1: Dom, d2: Dom) {
        match (self, state.inner) {
            (Ok(v), Either::Left(s)) => {
                assert(agree_on(d1, d2, s.nodes())) by {
                    assert forall|j: int| 0 <= j < s.nodes().len() implies {
                        let n = #[trigger] s.nodes()[j];
                        &&& d1.is_valid(n)
                        &&& d2.is_valid(n)
                        &&& d2.kind_of(n) == d1.kind_of(n)
                        &&& d2.text_of(n) == d1.text_of(n)
                        &&& d2.parent_of(n) == d1.parent_of(n)
                    } by {
                        assert(state.nodes()[j] == s.nodes()[j]);
                    }
                }
                v.rebuild_req_frame(s, d1, d2);
            },
            (Ok(v), Either::Right(s)) => {
                s.wf_facts(d1);
                assert(s.nodes().contains(s.live()[0]));
                let w = choose|w: int| 0 <= w < s.nodes().len() && s.nodes()[w] == s.live()[0];
                assert(state.nodes()[w] == s.nodes()[w]);
                assert(d2.parent_of(state.nodes()[w]) == d1.parent_of(state.nodes()[w]));
            },
            (Err(e), Either::Left(s)) => {
                s.wf_facts(d1);
                assert(s.nodes().contains(s.live()[0]));
                let w = choose|w: int| 0 <= w < s.nodes().len() && s.nodes()[w] == s.live()[0];
                assert(state.nodes()[w] == s.nodes()[w]);
                assert(d2.parent_of(state.nodes()[w]) == d1.parent_of(state.nodes()[w]));
            },
            (Err(e), Either::Right(s)) => {},
        }
    }

    fn build(self, dom: &mut Dom, cx: &mut Cx) -> (state: ResultState<T::State>)
        ensures
            self matches Err(e) ==> {
                &&& state.error matches Some(id)
                &&& id == old(cx).next_error_id
                &&& final(cx).events@ == old(cx).events@.push(ErrorEvent::Thrown(id))
            },
            self is Ok ==> state.error is None,
            state.hook == old(cx).hook,
    {
        let hook = cx.hook;
        match self {
            Ok(view) => {
                let inner = Either::<T, ()>::Left(view).build(dom, cx);
                ResultState { inner, error: None, hook }
            },
            Err(e) => {
                let inner = Either::<T, ()>::Right(()).build(dom, cx);
                let id = cx.throw(e);
                proof {
                    assert(cx.hook == old(cx).hook);
                }
                ResultState { inner, error: Some(id), hook }
            },
        }
    }

    fn rebuild(self, state: &mut ResultState<T::State>, dom: &mut Dom, cx: &mut Cx)
        ensures
            self matches Err(e) && (*old(state)).inner is Right ==> {
                &&& *final(dom) == *old(dom)
                &&& final(state).error matches Some(id2) && id2 == old(cx).next_error_id
                &&& final(cx).events@ == old(cx).events@.push(
                    ErrorEvent::Cleared(old(state).error->0),
                ).push(ErrorEvent::Thrown(old(cx).next_error_id))
            },
            self matches Err(e) && (*old(state)).inner is Left ==> {
                &&& final(state).error matches Some(id2) && id2 == old(cx).next_error_id
                &&& final(cx).events@ == old(cx).events@.push(
                    ErrorEvent::Thrown(old(cx).next_error_id),
                )
                &&& fresh_nodes(*old(dom), final(state).nodes())
                &&& detached(*final(dom), old(state).nodes())
                &&& replaced_in_place(
                    *old(dom),
                    *final(dom),
                    old(state).live(),
                    final(state).live(),
                )
            },
            self is Ok && (*old(state)).inner is Right ==> {
                &&& final(state).error is None
                &&& old(cx).events@.push(ErrorEvent::Cleared(old(state).error->0)).is_prefix_of(
                    final(cx).events@,
                )
                &&& (self matches Ok(v) && v.builds_clean() ==> final(cx).events@ == old(
                    cx,
                ).events@.push(ErrorEvent::Cleared(old(state).error->0)))
                &&& fresh_nodes(*old(dom), final(state).nodes())
                &&& detached(*final(dom), old(state).nodes())
                &&& replaced_in_place(
                    *old(dom),
                    *final(dom),
                    old(state).live(),
                    final(state).live(),
                )
            },
            self is Ok && (*old(state)).inner is Left ==> final(state).error is None
                && final(state).inner is Left,
            final(state).hook == old(state).hook,
            final(cx).hook == old(cx).hook,
    {
        // the whole rebuild runs under the hook captured at build time, so
        // anything built during a transition captures that hook, not the
        // ambient one; the ambient hook is restored on return
        let saved = cx.hook;
        cx.hook = state.hook;
        match (self, &mut state.inner) {
            (Ok(new), Either::Left(old_side)) => {
                new.rebuild(old_side, dom, cx);
            },
            (Err(new_err), Either::Right(_)) => {
                match state.error {
                    Some(old_id) => {
                        cx.clear(old_id);
                    },
                    None => {
                        proof {
                            assert(false);
                        }
                    },
                }
                let id = cx.throw(new_err);
                state.error = Some(id);
                proof {
                    assert(rnodes(*dom, state.live()) =~= seq![RNode::Hole]) by {
                        assert(state.live() == state.inner.live());
                    }
                }
            },
            (Err(new_err), Either::Left(old_side)) => {
                proof {
                    old_side.wf_facts(*dom);
                }
                let ghost d1 = *dom;
                let mut new_state = ().build(dom, cx);
                let ghost d2 = *dom;
                proof {
                    lemma_fresh_after_build(d1, d2, *old_side, new_state);
                }
                let r = insert_before_this(&*old_side, dom, &new_state);
                let ghost d3 = *dom;
                old_side.unmount(dom);
                proof {
                    lemma_switch(d1, d2, d3, *dom, *old_side, new_state);
                }
                state.inner = Either::Right(new_state);
                let id = cx.throw(new_err);
                state.error = Some(id);
                proof {
                    assert(rnodes(*dom, state.live()) =~= seq![RNode::Hole]) by {
                        assert(state.live() == state.inner.live());
                    }
                }
            },
            (Ok(new), Either::Right(old_side)) => {
                match state.error {
                    Some(old_id) => {
                        cx.clear(old_id);
                    },
                    None => {
                        proof {
                            assert(false);
                        }
                    },
                }
                state.error = None;
                proof {
                    old_side.wf_facts(*dom);
                }
                let ghost d1 = *dom;
                let ghost cmid = *cx;
                let mut new_state = new.build(dom, cx);
                let ghost d2 = *dom;
                proof {
                    lemma_fresh_after_build(d1, d2, *old_side, new_state);
                }
                let r = insert_before_this(&*old_side, dom, &new_state);
                let ghost d3 = *dom;
                old_side.unmount(dom);
                proof {
                    lemma_switch(d1, d2, d3, *dom, *old_side, new_state);
                    assert(rnodes(*dom, new_state.live()) == rnodes(d2, new_state.live()));
                }
                state.inner = Either::Left(new_state);
            },
        }
        cx.hook = saved;
    }
}

impl<T: Mountable> ResultState<T> {
    /// The duty a released error-holding state carries: clear its
    /// registration so the stale error is no longer shown.  The owner of
    /// the state must call this exactly once, when the state is released.
    pub fn clear_error(&mut self, cx: &mut Cx)
        ensures
            final(self).error is None,
            final(self).inner == old(self).inner,
            final(self).hook == old(self).hook,
            old(self).error matches Some(id) ==> final(cx).events@ == old(cx).events@.push(
                ErrorEvent::Cleared(id),
            ),
            old(self).error is None ==> *final(cx) == *old(cx),
            cx_frame(*old(cx), *final(cx)),
    {
        match self.error {
            Some(id) => {
                cx.clear(id);
                self.error = None;
            },
            None => {
                proof {
                    crate::context::lemma_cx_frame_refl(*cx);
                }
            },
        }
    }
}


/// The fallible round trip: building an error value, rebuilding it with a
/// success whose build registers nothing, and rebuilding again with a
/// second error performs exactly two error registrations and one clearing,
/// in that order.  The three premises are exactly what building an error,
/// rebuilding a success over an error, and rebuilding an error over a
/// success promise of the registry's event log.
pub proof fn lemma_fallible_round_trip(
    e0: Seq<ErrorEvent>,
    id1: u64,
    id2: u64,
    after_build: Seq<ErrorEvent>,
    after_ok: Seq<ErrorEvent>,
    after_err: Seq<ErrorEvent>,
)
    requires
        after_build == e0.push(ErrorEvent::Thrown(id1)),
        after_ok == after_build.push(ErrorEvent::Cleared(id1)),
        after_err == after_ok.push(ErrorEvent::Thrown(id2)),
    ensures
        after_err == e0 + seq![
            ErrorEvent::Thrown(id1),
            ErrorEvent::Cleared(id1),
            ErrorEvent::Thrown(id2),
        ],
{
    assert(after_err =~= e0 + seq![
        ErrorEvent::Thrown(id1),
        ErrorEvent::Cleared(id1),
        ErrorEvent::Thrown(id2),
    ]);
}

} // verus!
