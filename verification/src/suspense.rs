//! A suspended computation used in the view: synchronously renders a
//! pending placeholder if the computation is not immediately ready, then
//! swaps in the resolved view when it completes.
//!
//! A computation that is already complete at build time never exposes the
//! pending state.  Completion arrives as an event: the resolved view, or
//! the abort marker when the owning scope was torn down first — in which
//! case resolution touches nothing.  Dependencies read while the
//! computation ran are collected privately and forwarded to the outer
//! subscriber only at resolution, so completing the computation does not
//! re-trigger the effect that was waiting for it.

use crate::context::{cx_frame, Cx};
use crate::dom::{fresh_nodes, rnodes, Dom, RNode};
use crate::either::Either;
use crate::view::{Mountable, PlaceholderState, Render};
use vstd::prelude::*;

verus! {

/// Collects the reactive sources a suspended computation reads, to be
/// re-linked to the outer subscriber once the computation resolves.
pub struct SuspendSubscriber {
    /// The subscriber that was observing when the computation was created.
    pub outer: Option<u64>,
    /// The sources read so far, in order.
    pub sources: Vec<u64>,
}

impl SuspendSubscriber {
    /// Captures the current observer; no sources are recorded yet.
    pub fn new(cx: &Cx) -> (s: SuspendSubscriber)
        ensures
            s.outer == cx.observer,
            s.sources@ == Seq::<u64>::empty(),
    {
        SuspendSubscriber { outer: cx.observer, sources: Vec::new() }
    }

    /// Records that the computation read a source.
    pub fn add_source(&mut self, source: u64)
        ensures
            final(self).outer == old(self).outer,
            final(self).sources@ == old(self).sources@.push(source),
    {
        self.sources.push(source);
    }

    /// Re-links all collected sources to the outer subscriber.  Collecting
    /// during the run and forwarding only now prevents the completion of
    /// the computation from re-triggering the effect that awaited it.
    pub fn forward(&mut self, cx: &mut Cx)
        ensures
            final(self).outer == old(self).outer,
            old(self).outer matches Some(to) ==> {
                &&& final(self).sources@ == Seq::<u64>::empty()
                &&& final(cx).links@ == old(cx).links@ + old(self).sources@.map_values(
                    |s: u64| (s, to),
                )
            },
            old(self).outer is None ==> *final(self) == *old(self) && *final(cx) == *old(cx),
            final(cx).owner == old(cx).owner,
            final(cx).observer == old(cx).observer,
            final(cx).hook == old(cx).hook,
            final(cx).events == old(cx).events,
            final(cx).pending == old(cx).pending,
    {
        match self.outer {
            Some(to) => {
                let ghost src0 = self.sources@;
                let ghost l0 = cx.links@;
                let n = self.sources.len();
                let mut i: usize = 0;
                while i < n
                    invariant
                        i <= n,
                        n == src0.len(),
                        self.sources@ == src0,
                        self.outer == Some(to),
                        cx.links@ == l0 + src0.take(i as int).map_values(|s: u64| (s, to)),
                        cx.owner == old(cx).owner,
                        cx.observer == old(cx).observer,
                        cx.hook == old(cx).hook,
                        cx.events == old(cx).events,
                        cx.pending == old(cx).pending,
                        cx.next_error_id == old(cx).next_error_id,
                    decreases n - i,
                {
                    let s = self.sources[i];
                    cx.links.push((s, to));
                    proof {
                        assert(src0.take(i + 1).drop_last() =~= src0.take(i as int));
                        assert(src0.take(i + 1).map_values(|s: u64| (s, to)) =~= src0.take(
                            i as int,
                        ).map_values(|s: u64| (s, to)).push((src0[i as int], to)));
                        assert(cx.links@ =~= l0 + src0.take(i + 1).map_values(
                            |s: u64| (s, to),
                        ));
                    }
                    i = i + 1;
                }
                self.sources = Vec::new();
                proof {
                    assert(src0.take(n as int) =~= src0);
                }
            },
            None => {},
        }
    }
}

/// The abort marker: the owning scope was torn down before the computation
/// resolved, and the late completion must touch nothing.
pub struct Aborted;

/// A suspended computation yielding a view: its scheduling identifier, and
/// its value when it was already complete at build time.
pub struct Suspend<V> {
    /// The subscriber that collects the computation's reactive reads.
    pub subscriber: SuspendSubscriber,
    /// The identifier under which the runtime drives the computation.
    pub task: u64,
    /// The resolved view, when the computation was complete immediately.
    pub ready: Option<V>,
}

impl<V> Suspend<V> {
    /// Creates a new suspended view under the current observer.
    pub fn new(task: u64, ready: Option<V>, cx: &Cx) -> (s: Suspend<V>)
        ensures
            s.subscriber.outer == cx.observer,
            s.subscriber.sources@ == Seq::<u64>::empty(),
            s.task == task,
            s.ready == ready,
    {
        Suspend { subscriber: SuspendSubscriber::new(cx), task, ready }
    }
}

/// Retained view state for a suspended computation: the resolved child's
/// state or the pending placeholder, plus the subscriber to forward at
/// resolution.
pub struct SuspendState<S> {
    /// The resolved child's state, or the pending placeholder.
    pub inner: Either<S, PlaceholderState>,
    /// The subscriber whose sources resolution forwards.
    pub subscriber: SuspendSubscriber,
}

impl<S: Mountable> Mountable for SuspendState<S> {
    open spec fn nodes(self) -> Seq<usize> {
        self.inner.nodes()
    }

    open spec fn live(self) -> Seq<usize> {
        self.inner.live()
    }

    open spec fn wf(self, dom: Dom) -> bool {
        self.inner.wf(dom)
    }

    proof fn wf_frame(self, d1: Dom, d2: Dom) {
        self.inner.wf_frame(d1, d2);
    }

    proof fn wf_facts(self, dom: Dom) {
        self.inner.wf_facts(dom);
    }

    fn unmount(&self, dom: &mut Dom) {
        self.inner.unmount(dom);
    }

    fn mount(&self, dom: &mut Dom, parent: usize, marker: Option<usize>) {
        self.inner.mount(dom, parent, marker);
    }

    fn first_node(&self) -> (r: Option<usize>) {
        self.inner.first_node()
    }
}

/// Builds a suspended view.  A computation that is already complete builds
/// the resolved child directly — the pending state is never exposed — and
/// forwards the collected sources at once.  Otherwise the pending
/// placeholder is built and the computation is scheduled to be driven to
/// completion.
pub fn suspend_build<V: Render>(this: Suspend<V>, dom: &mut Dom, cx: &mut Cx) -> (state:
    SuspendState<V::State>)
    requires
        old(dom).wf(),
    ensures
        final(dom).wf(),
        state.wf(*final(dom)),
        crate::dom::appends(*old(dom), *final(dom)),
        fresh_nodes(*old(dom), state.nodes()),
        crate::dom::detached(*final(dom), state.nodes()),
        this.ready matches Some(v) ==> state.inner is Left && rnodes(*final(dom), state.live())
            == v.target(),
        this.ready matches Some(v) && v.builds_clean() && this.subscriber.sources@ =~= Seq::<
            u64,
        >::empty() ==> final(cx).pending == old(cx).pending,
        this.ready is None ==> state.inner is Right && rnodes(*final(dom), state.live())
            == seq![RNode::Hole] && final(cx).pending@ == old(cx).pending@.push(this.task),
        state.subscriber.outer == this.subscriber.outer,
        this.ready is Some && this.subscriber.outer is Some ==> state.subscriber.sources@ == Seq::<
            u64,
        >::empty(),
        this.ready is Some && this.ready->0.builds_clean() && this.subscriber.outer is Some
            ==> final(cx).links@ == old(cx).links@ + this.subscriber.sources@.map_values(
            (|s: u64| (s, this.subscriber.outer->0)),
        ),
        this.ready is Some && this.subscriber.outer is None ==> state.subscriber
            == this.subscriber,
        this.ready is None ==> state.subscriber == this.subscriber,
        final(cx).owner == old(cx).owner,
        final(cx).observer == old(cx).observer,
        final(cx).hook == old(cx).hook,
{
    let Suspend { mut subscriber, task, ready } = this;
    match ready {
        Some(v) => {
            let inner = Either::<V, ()>::Left(v).build(dom, cx);
            subscriber.forward(cx);
            SuspendState { inner, subscriber }
        },
        None => {
            let inner = Either::<V, ()>::Right(()).build(dom, cx);
            cx.pending.push(task);
            SuspendState { inner, subscriber }
        },
    }
}

/// Replaces a suspended view: the existing state is left untouched now —
/// the computation is re-scheduled against it rather than re-polled
/// synchronously, and the resolved value arrives later through
/// [`suspend_resolve`].
pub fn suspend_rebuild<V: Render>(
    this: Suspend<V>,
    state: &mut SuspendState<V::State>,
    dom: &mut Dom,
    cx: &mut Cx,
)
    ensures
        *final(dom) == *old(dom),
        final(state).inner == old(state).inner,
        final(state).subscriber == this.subscriber,
        final(cx).pending@ == old(cx).pending@.push(this.task),
        final(cx).owner == old(cx).owner,
        final(cx).observer == old(cx).observer,
        final(cx).hook == old(cx).hook,
        final(cx).events == old(cx).events,
        final(cx).links == old(cx).links,
{
    let Suspend { subscriber, task, ready } = this;
    state.subscriber = subscriber;
    cx.pending.push(task);
}

/// Delivers a suspended computation's completion.  An aborted completion —
/// the owning scope was torn down first — touches nothing at all.  A
/// resolved value rebuilds the retained state from pending to present (or
/// present to present) and only then forwards the collected reactive
/// sources to the outer subscriber.
pub fn suspend_resolve<V: Render>(
    outcome: Result<V, Aborted>,
    state: &mut SuspendState<V::State>,
    dom: &mut Dom,
    cx: &mut Cx,
)
    requires
        old(dom).wf(),
        old(state).wf(*old(dom)),
        outcome matches Ok(v) ==> Some(v).rebuild_req(old(state).inner, *old(dom)),
    ensures
        outcome is Err ==> *final(dom) == *old(dom) && *final(state) == *old(state) && *final(cx)
            == *old(cx),
        final(dom).wf(),
        final(state).wf(*final(dom)),
        outcome matches Ok(v) ==> final(state).inner is Left && rnodes(
            *final(dom),
            final(state).live(),
        ) == v.target(),
        final(cx).owner == old(cx).owner,
        final(cx).observer == old(cx).observer,
        final(cx).hook == old(cx).hook,
{
    match outcome {
        Err(_) => {},
        Ok(v) => {
            Some(v).rebuild(&mut state.inner, dom, cx);
            state.subscriber.forward(cx);
            proof {
                assert(final(state).inner is Left);
            }
        },
    }
}

} // verus!
