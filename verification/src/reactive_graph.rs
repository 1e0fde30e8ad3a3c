//! The reactive bridge: a re-invocable function producing a view behaves as
//! a self-updating view.
//!
//! Building registers a computation whose body invokes the function and
//! either builds (first run) or rebuilds (automatic reruns) the retained
//! child state, re-installing the error hook captured at build time around
//! every run.  Replacing the bridge itself never reuses the old
//! computation: a brand-new one is built, its output spliced before the old
//! one's, and the old one unmounted.  The runtime that schedules reruns is
//! an external collaborator; it drives these functions.

use crate::context::{cx_frame, Cx};
use crate::dom::{
    detached, fresh_nodes, replaced_in_place, rnodes, Dom, RNode,
};
use crate::view::{insert_before_this, lemma_fresh_after_build, lemma_switch, Mountable, Render};
use vstd::prelude::*;

verus! {

/// A reactive view function: invoked once at build time and again on every
/// rerun the reactive graph schedules.  Implementations are supplied by
/// the surrounding application; nothing is assumed of the values they
/// produce.
pub trait ReactiveFunction: Sized {
    /// The view type the function produces.
    type Output: Render;

    /// Produces the next view value.
    fn invoke(&mut self) -> Self::Output;
}

/// A registered reactive computation: the retained state of its latest
/// output, and the error hook captured when it was created.
pub struct RenderEffect<T> {
    /// The retained state of the computation's latest output.
    pub value: T,
    /// The error hook to re-install around every rerun.
    pub hook: Option<u64>,
}

impl<T: Mountable> Mountable for RenderEffect<T> {
    open spec fn nodes(self) -> Seq<usize> {
        self.value.nodes()
    }

    open spec fn live(self) -> Seq<usize> {
        self.value.live()
    }

    open spec fn wf(self, dom: Dom) -> bool {
        self.value.wf(dom)
    }

    proof fn wf_frame(self, d1: Dom, d2: Dom) {
        self.value.wf_frame(d1, d2);
    }

    proof fn wf_facts(self, dom: Dom) {
        self.value.wf_facts(dom);
    }

    fn unmount(&self, dom: &mut Dom) {
        self.value.unmount(dom);
    }

    fn mount(&self, dom: &mut Dom, parent: usize, marker: Option<usize>) {
        self.value.mount(dom, parent, marker);
    }

    fn first_node(&self) -> (r: Option<usize>) {
        self.value.first_node()
    }
}

/// Retained view state for a reactive computation.
pub struct RenderEffectState<T>(pub Option<RenderEffect<T>>);

impl<T: Mountable> Mountable for RenderEffectState<T> {
    open spec fn nodes(self) -> Seq<usize> {
        match self.0 {
            Some(e) => e.nodes(),
            None => Seq::empty(),
        }
    }

    open spec fn live(self) -> Seq<usize> {
        match self.0 {
            Some(e) => e.live(),
            None => Seq::empty(),
        }
    }

    open spec fn wf(self, dom: Dom) -> bool {
        match self.0 {
            Some(e) => e.wf(dom),
            None => false,
        }
    }

    proof fn wf_frame(self, d1: Dom, d2: Dom) {
        match self.0 {
            Some(e) => e.wf_frame(d1, d2),
            None => {},
        }
    }

    proof fn wf_facts(self, dom: Dom) {
        match self.0 {
            Some(e) => e.wf_facts(dom),
            None => {},
        }
    }

    fn unmount(&self, dom: &mut Dom) {
        match &self.0 {
            Some(e) => e.unmount(dom),
            None => {
                proof {
                    assert(false);
                }
            },
        }
    }

    fn mount(&self, dom: &mut Dom, parent: usize, marker: Option<usize>) {
        match &self.0 {
            Some(e) => e.mount(dom, parent, marker),
            None => {
                proof {
                    assert(false);
                }
            },
        }
    }

    fn first_node(&self) -> (r: Option<usize>) {
        match &self.0 {
            Some(e) => e.first_node(),
            None => None,
        }
    }
}

/// One run of a reactive computation's body: re-install the captured error
/// hook, build the value the first time or rebuild the retained state in
/// place on a rerun, and restore the hook.
pub fn effect_run<V: Render>(
    value: V,
    prev: Option<V::State>,
    hook: Option<u64>,
    dom: &mut Dom,
    cx: &mut Cx,
) -> (state: V::State)
    requires
        old(dom).wf(),
        prev matches Some(st) ==> st.wf(*old(dom)) && value.rebuild_req(st, *old(dom)),
    ensures
        final(dom).wf(),
        state.wf(*final(dom)),
        rnodes(*final(dom), state.live()) == value.target(),
        prev is None ==> crate::dom::appends(*old(dom), *final(dom)),
        final(cx).owner == old(cx).owner,
        final(cx).observer == old(cx).observer,
        final(cx).hook == old(cx).hook,
        prev is None ==> fresh_nodes(*old(dom), state.nodes()) && detached(
            *final(dom),
            state.nodes(),
        ),
{
    let saved = cx.hook;
    cx.hook = hook;
    let state = match prev {
        Some(mut st) => {
            value.rebuild(&mut st, dom, cx);
            st
        },
        None => value.build(dom, cx),
    };
    cx.hook = saved;
    state
}

/// Registers a reactive computation for the function's first run: invokes
/// it, builds the produced view, and retains the result together with the
/// error hook installed at this moment.
pub fn render_effect_build<F: ReactiveFunction>(f: &mut F, dom: &mut Dom, cx: &mut Cx) -> (state:
    RenderEffectState<<F::Output as Render>::State>)
    requires
        old(dom).wf(),
    ensures
        final(dom).wf(),
        state.wf(*final(dom)),
        state.0 matches Some(e) ==> e.hook == old(cx).hook,
        crate::dom::appends(*old(dom), *final(dom)),
        fresh_nodes(*old(dom), state.nodes()),
        detached(*final(dom), state.nodes()),
        final(cx).owner == old(cx).owner,
        final(cx).observer == old(cx).observer,
        final(cx).hook == old(cx).hook,
{
    let hook = cx.hook;
    let value = f.invoke();
    let inner = effect_run::<F::Output>(value, None, hook, dom, cx);
    RenderEffectState(Some(RenderEffect { value: inner, hook }))
}

/// One automatic rerun of an already registered computation: the function
/// is invoked again and the retained child state is rebuilt in place.
pub fn render_effect_rerun<F: ReactiveFunction>(
    f: &mut F,
    state: &mut RenderEffectState<<F::Output as Render>::State>,
    dom: &mut Dom,
    cx: &mut Cx,
)
    requires
        old(dom).wf(),
        old(state).wf(*old(dom)),
        forall|v: F::Output|
            v.rebuild_req((#[trigger] old(state).0)->Some_0.value, *old(dom)),
    ensures
        final(dom).wf(),
        final(state).wf(*final(dom)),
        final(cx).owner == old(cx).owner,
        final(cx).observer == old(cx).observer,
        final(cx).hook == old(cx).hook,
{
    let value = f.invoke();
    match &mut state.0 {
        Some(e) => {
            let hook = e.hook;
            let saved = cx.hook;
            cx.hook = hook;
            value.rebuild(&mut e.value, dom, cx);
            cx.hook = saved;
        },
        None => {
            proof {
                assert(false);
            }
        },
    }
}

/// Replaces the bridge itself: a brand-new computation is registered, its
/// output spliced immediately before the old computation's output, and the
/// old computation unmounted and discarded.
pub fn render_effect_rebuild<F: ReactiveFunction>(
    f: &mut F,
    state: &mut RenderEffectState<<F::Output as Render>::State>,
    dom: &mut Dom,
    cx: &mut Cx,
)
    requires
        old(dom).wf(),
        old(state).wf(*old(dom)),
        old(dom).parent_of(old(state).live()[0]) is Some,
    ensures
        final(dom).wf(),
        final(state).wf(*final(dom)),
        fresh_nodes(*old(dom), final(state).nodes()),
        detached(*final(dom), old(state).nodes()),
        replaced_in_place(*old(dom), *final(dom), old(state).live(), final(state).live()),
        final(cx).owner == old(cx).owner,
        final(cx).observer == old(cx).observer,
        final(cx).hook == old(cx).hook,
{
    proof {
        old(state).wf_facts(*dom);
    }
    let ghost d1 = *dom;
    let new_state = render_effect_build(f, dom, cx);
    let ghost d2 = *dom;
    proof {
        lemma_fresh_after_build(d1, d2, *old(state), new_state);
    }
    let r = insert_before_this(&*state, dom, &new_state);
    proof {
        assert(r);
    }
    let ghost d3 = *dom;
    state.unmount(dom);
    proof {
        lemma_switch(d1, d2, d3, *dom, *old(state), new_state);
    }
    *state = new_state;
}

} // verus!
