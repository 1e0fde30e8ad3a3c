//! The ambient scope a build or rebuild runs in.
//!
//! The engine consumes a reactive graph and an error-reporting capability
//! only at a narrow boundary: the current owner and observer scopes, the
//! installed error hook, an error registry, and queues of scheduled tasks
//! and forwarded subscriptions.  Rather than untracked globals, these are
//! threaded through every build and rebuild call as one explicit context
//! value, so each combinator's exact effect on them can be stated and
//! proved.

use vstd::prelude::*;

verus! {

/// One entry of the error registry's event log.
#[derive(Clone, Copy, PartialEq, Eq, Structural, Debug)]
pub enum ErrorEvent {
    /// An error value was registered and got this identifier.
    Thrown(u64),
    /// A previously registered error was cleared.
    Cleared(u64),
}

/// A value-level application error, carried by the fallible combinator.
#[derive(Clone, Debug)]
pub struct AppError {
    /// A description of what went wrong.
    pub message: String,
}

/// The ambient scope: reactive owner and observer, error hook and registry,
/// and the queues a build hands back to its runtime.
pub struct Cx {
    /// The current reactive owner scope, if any.
    pub owner: Option<u64>,
    /// The current reactive observer, if any.
    pub observer: Option<u64>,
    /// The installed error hook, if any.
    pub hook: Option<u64>,
    /// The identifier the next registered error receives.
    pub next_error_id: u64,
    /// Every registration and clearing, in order.
    pub events: Vec<ErrorEvent>,
    /// Asynchronous computations scheduled to be driven to completion.
    pub pending: Vec<u64>,
    /// Reactive sources re-linked to an outer subscriber, in order.
    pub links: Vec<(u64, u64)>,
}

impl Cx {
    /// An empty scope: no owner, no observer, no hook, nothing recorded.
    pub fn new() -> (cx: Cx)
        ensures
            cx.owner is None,
            cx.observer is None,
            cx.hook is None,
            cx.next_error_id == 0,
            cx.events@ == Seq::<ErrorEvent>::empty(),
            cx.pending@ == Seq::<u64>::empty(),
            cx.links@ == Seq::<(u64, u64)>::empty(),
    {
        Cx {
            owner: None,
            observer: None,
            hook: None,
            next_error_id: 0,
            events: Vec::new(),
            pending: Vec::new(),
            links: Vec::new(),
        }
    }

    /// Registers an error value and returns its identifier.
    pub fn throw(&mut self, err: AppError) -> (id: u64)
        ensures
            id == old(self).next_error_id,
            final(self).events@ == old(self).events@.push(ErrorEvent::Thrown(id)),
            final(self).next_error_id >= old(self).next_error_id,
            final(self).owner == old(self).owner,
            final(self).observer == old(self).observer,
            final(self).hook == old(self).hook,
            final(self).pending == old(self).pending,
            final(self).links == old(self).links,
    {
        let id = self.next_error_id;
        if self.next_error_id < u64::MAX {
            self.next_error_id = self.next_error_id + 1;
        }
        self.events.push(ErrorEvent::Thrown(id));
        id
    }

    /// Clears a previously registered error.
    pub fn clear(&mut self, id: u64)
        ensures
            final(self).events@ == old(self).events@.push(ErrorEvent::Cleared(id)),
            final(self).next_error_id == old(self).next_error_id,
            final(self).owner == old(self).owner,
            final(self).observer == old(self).observer,
            final(self).hook == old(self).hook,
            final(self).pending == old(self).pending,
            final(self).links == old(self).links,
    {
        self.events.push(ErrorEvent::Cleared(id));
    }
}

/// What any build or rebuild may do to the ambient scope: leave owner,
/// observer and hook as they were, and only append to the logs and queues.
pub open spec fn cx_frame(c1: Cx, c2: Cx) -> bool {
    &&& c2.owner == c1.owner
    &&& c2.observer == c1.observer
    &&& c2.hook == c1.hook
    &&& c2.next_error_id >= c1.next_error_id
    &&& c1.events@.is_prefix_of(c2.events@)
    &&& c1.pending@.is_prefix_of(c2.pending@)
    &&& c1.links@.is_prefix_of(c2.links@)
}

/// The scope frame holds from any scope to itself.
pub proof fn lemma_cx_frame_refl(c: Cx)
    ensures
        cx_frame(c, c),
{
    assert(c.events@ =~= c.events@.subrange(0, c.events@.len() as int));
    assert(c.pending@ =~= c.pending@.subrange(0, c.pending@.len() as int));
    assert(c.links@ =~= c.links@.subrange(0, c.links@.len() as int));
}

/// The scope frame composes across consecutive calls.
pub proof fn lemma_cx_frame_trans(c1: Cx, c2: Cx, c3: Cx)
    requires
        cx_frame(c1, c2),
        cx_frame(c2, c3),
    ensures
        cx_frame(c1, c3),
{
    assert(c1.events@.is_prefix_of(c3.events@)) by {
        assert(c1.events@ =~= c3.events@.subrange(0, c1.events@.len() as int));
    }
    assert(c1.pending@.is_prefix_of(c3.pending@)) by {
        assert(c1.pending@ =~= c3.pending@.subrange(0, c1.pending@.len() as int));
    }
    assert(c1.links@.is_prefix_of(c3.links@)) by {
        assert(c1.links@ =~= c3.links@.subrange(0, c1.links@.len() as int));
    }
}

} // verus!
