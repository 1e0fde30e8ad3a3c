//! The keep-alive alternative: both branches' retained states survive a
//! switch.
//!
//! Unlike the plain alternative, switching sides never destroys the
//! inactive branch's state: the newly-visible side's nodes are spliced
//! immediately before the currently-visible one's and the old side is
//! unmounted but retained, detached from the tree.  A branch's state is
//! built lazily, the first time a value is actually supplied for it.

use crate::context::{cx_frame, Cx};
use crate::dom::{
    agree_on, appends, content_stable, detached, fresh_nodes, insert_before_marker, kinds_stable,
    lemma_no_dup_concat, lemma_rnodes_stable,
    lemma_splice_replaces, lemma_without_absent, node_unchanged, parents_frame, replaced_in_place,
    rnodes, segment_at, texts_frame, without, Dom, NodeKind, RNode,
};
use crate::view::{insert_before_this, Mountable, Render};
use vstd::prelude::*;

verus! {

/// The keep-alive alternative's view value.  A `None` branch means "no
/// change to that branch"; `show_b` selects which branch is visible.
///
/// Build and rebuild are the free functions [`keep_alive_build`] and
/// [`keep_alive_rebuild`] rather than a `Render` impl: what the state
/// presents depends on retained branches a `None` value says nothing
/// about, so no `target` exists as a function of the value alone.
pub struct EitherKeepAlive<A, B> {
    /// The first branch's new value, if it changed.
    pub a: Option<A>,
    /// The second branch's new value, if it changed.
    pub b: Option<B>,
    /// Whether the second branch is the visible one.
    pub show_b: bool,
}

/// Retained view state for [`EitherKeepAlive`]: each branch's state once
/// it has been built, and which branch is presented.
pub struct EitherKeepAliveState<A, B> {
    /// The first branch's retained state, once built.
    pub a: Option<A>,
    /// The second branch's retained state, once built.
    pub b: Option<B>,
    /// Whether the second branch is the presented one.
    pub showing_b: bool,
}

impl<A: Mountable, B: Mountable> EitherKeepAliveState<A, B> {
    /// The nodes the first branch owns (none before it is built).
    pub open spec fn a_nodes(self) -> Seq<usize> {
        match self.a {
            Some(s) => s.nodes(),
            None => Seq::empty(),
        }
    }

    /// The nodes the second branch owns (none before it is built).
    pub open spec fn b_nodes(self) -> Seq<usize> {
        match self.b {
            Some(s) => s.nodes(),
            None => Seq::empty(),
        }
    }
}

impl<A: Mountable, B: Mountable> Mountable for EitherKeepAliveState<A, B> {
    open spec fn nodes(self) -> Seq<usize> {
        self.a_nodes() + self.b_nodes()
    }

    open spec fn live(self) -> Seq<usize> {
        if self.showing_b {
            match self.b {
                Some(s) => s.live(),
                None => Seq::empty(),
            }
        } else {
            match self.a {
                Some(s) => s.live(),
                None => Seq::empty(),
            }
        }
    }

    open spec fn wf(self, dom: Dom) -> bool {
        &&& self.a matches Some(s) ==> s.wf(dom)
        &&& self.b matches Some(s) ==> s.wf(dom)
        &&& self.showing_b ==> self.b is Some
        &&& !self.showing_b ==> self.a is Some
        &&& self.nodes().no_duplicates()
        &&& self.showing_b ==> detached(dom, self.a_nodes())
        &&& !self.showing_b ==> detached(dom, self.b_nodes())
    }

    proof fn wf_frame(self, d1: Dom, d2: Dom) {
        let an = self.a_nodes();
        let bn = self.b_nodes();
        assert(agree_on(d1, d2, an)) by {
            assert forall|i: int| 0 <= i < an.len() implies {
                let n = #[trigger] an[i];
                &&& d1.is_valid(n)
                &&& d2.is_valid(n)
                &&& d2.kind_of(n) == d1.kind_of(n)
                &&& d2.text_of(n) == d1.text_of(n)
                &&& d2.parent_of(n) == d1.parent_of(n)
            } by {
                assert(self.nodes()[i] == an[i]);
            }
        }
        assert(agree_on(d1, d2, bn)) by {
            assert forall|i: int| 0 <= i < bn.len() implies {
                let n = #[trigger] bn[i];
                &&& d1.is_valid(n)
                &&& d2.is_valid(n)
                &&& d2.kind_of(n) == d1.kind_of(n)
                &&& d2.text_of(n) == d1.text_of(n)
                &&& d2.parent_of(n) == d1.parent_of(n)
            } by {
                assert(self.nodes()[an.len() + i] == bn[i]);
            }
        }
        match self.a {
            Some(s) => s.wf_frame(d1, d2),
            None => {},
        }
        match self.b {
            Some(s) => s.wf_frame(d1, d2),
            None => {},
        }
    }

    proof fn wf_facts(self, dom: Dom) {
        let an = self.a_nodes();
        let bn = self.b_nodes();
        match self.a {
            Some(s) => s.wf_facts(dom),
            None => {},
        }
        match self.b {
            Some(s) => s.wf_facts(dom),
            None => {},
        }
        assert forall|i: int| 0 <= i < self.nodes().len() implies dom.is_valid(
            #[trigger] self.nodes()[i],
        ) && dom.kind_of(self.nodes()[i]) != NodeKind::Element by {
            if i < an.len() {
                assert(self.nodes()[i] == an[i]);
            } else {
                assert(self.nodes()[i] == bn[i - an.len()]);
            }
        }
        if self.showing_b {
            let s = self.b->0;
            s.wf_facts(dom);
            assert forall|i: int| 0 <= i < self.live().len() implies self.nodes().contains(
                #[trigger] self.live()[i],
            ) by {
                assert(s.nodes().contains(s.live()[i]));
                let w = choose|w: int| 0 <= w < s.nodes().len() && s.nodes()[w] == s.live()[i];
                assert(self.nodes()[an.len() + w] == self.live()[i]);
            }
            assert forall|i: int| 0 <= i < self.nodes().len() implies self.live().contains(
                #[trigger] self.nodes()[i],
            ) || dom.parent_of(self.nodes()[i]) is None by {
                if i < an.len() {
                    assert(self.nodes()[i] == an[i]);
                    assert(dom.parent_of(an[i]) is None);
                } else {
                    assert(self.nodes()[i] == bn[i - an.len()]);
                    assert(s.live().contains(bn[i - an.len()]) || dom.parent_of(
                        bn[i - an.len()],
                    ) is None);
                }
            }
        } else {
            let s = self.a->0;
            s.wf_facts(dom);
            assert forall|i: int| 0 <= i < self.live().len() implies self.nodes().contains(
                #[trigger] self.live()[i],
            ) by {
                assert(s.nodes().contains(s.live()[i]));
                let w = choose|w: int| 0 <= w < s.nodes().len() && s.nodes()[w] == s.live()[i];
                assert(self.nodes()[w] == self.live()[i]);
            }
            assert forall|i: int| 0 <= i < self.nodes().len() implies self.live().contains(
                #[trigger] self.nodes()[i],
            ) || dom.parent_of(self.nodes()[i]) is None by {
                if i < an.len() {
                    assert(self.nodes()[i] == an[i]);
                    assert(s.live().contains(an[i]) || dom.parent_of(an[i]) is None);
                } else {
                    assert(self.nodes()[i] == bn[i - an.len()]);
                    assert(dom.parent_of(bn[i - an.len()]) is None);
                }
            }
        }
    }

    fn unmount(&self, dom: &mut Dom) {
        let ghost d0 = *old(dom);
        let ghost an = self.a_nodes();
        let ghost bn = self.b_nodes();
        proof {
            self.wf_facts(d0);
            match &self.a {
                Some(s) => s.wf_facts(d0),
                None => {},
            }
            match &self.b {
                Some(s) => s.wf_facts(d0),
                None => {},
            }
            lemma_no_dup_concat(an, bn);
        }
        if self.showing_b {
            match &self.b {
                Some(s) => {
                    s.unmount(dom);
                    proof {
                        let d1 = *dom;
                        // the hidden branch was, and stays, untouched
                        assert(agree_on(d0, d1, an)) by {
                            assert forall|i: int| 0 <= i < an.len() implies {
                                let n = #[trigger] an[i];
                                &&& d0.is_valid(n)
                                &&& d1.is_valid(n)
                                &&& d1.kind_of(n) == d0.kind_of(n)
                                &&& d1.text_of(n) == d0.text_of(n)
                                &&& d1.parent_of(n) == d0.parent_of(n)
                            } by {
                                let n = an[i];
                                assert(self.nodes()[i] == n);
                                assert(an.contains(n));
                                assert(!bn.contains(n));
                            }
                        }
                        match &self.a {
                            Some(sa) => sa.wf_frame(d0, d1),
                            None => {},
                        }
                        assert forall|e: usize| d0.is_valid(e) implies #[trigger] d1.children_of(
                            e,
                        ) == without(d0.children_of(e), self.nodes()) by {
                            assert forall|i: int| 0 <= i < d0.children_of(e).len() implies
                                !an.contains(#[trigger] d0.children_of(e)[i]) by {
                                let n = d0.children_of(e)[i];
                                if an.contains(n) {
                                    assert(d0.parent_of(n) is None);
                                    let w = choose|w: int| 0 <= w < an.len() && an[w] == n;
                                    assert(d0.is_valid(an[w]));
                                    d0.lemma_detached_not_listed(n);
                                }
                            }
                            lemma_without_absent(d0.children_of(e), bn, an);
                        }
                        assert forall|j: int| 0 <= j < self.nodes().len() implies d1.parent_of(
                            #[trigger] self.nodes()[j],
                        ) is None by {
                            if j < an.len() {
                                assert(self.nodes()[j] == an[j]);
                                assert(d1.parent_of(an[j]) == d0.parent_of(an[j]));
                            } else {
                                assert(self.nodes()[j] == bn[j - an.len()]);
                            }
                        }
                        assert forall|m: usize| d0.is_valid(m) && !self.nodes().contains(m) implies
                            #[trigger] d1.parent_of(m) == d0.parent_of(m) by {
                            assert(!bn.contains(m)) by {
                                if bn.contains(m) {
                                    let w = choose|w: int| 0 <= w < bn.len() && bn[w] == m;
                                    assert(self.nodes()[an.len() + w] == m);
                                }
                            }
                        }
                    }
                },
                None => {
                    proof {
                        assert(false);
                    }
                },
            }
        } else {
            match &self.a {
                Some(s) => {
                    s.unmount(dom);
                    proof {
                        let d1 = *dom;
                        assert(agree_on(d0, d1, bn)) by {
                            assert forall|i: int| 0 <= i < bn.len() implies {
                                let n = #[trigger] bn[i];
                                &&& d0.is_valid(n)
                                &&& d1.is_valid(n)
                                &&& d1.kind_of(n) == d0.kind_of(n)
                                &&& d1.text_of(n) == d0.text_of(n)
                                &&& d1.parent_of(n) == d0.parent_of(n)
                            } by {
                                let n = bn[i];
                                assert(self.nodes()[an.len() + i] == n);
                                assert(bn.contains(n));
                                assert(!an.contains(n));
                            }
                        }
                        match &self.b {
                            Some(sb) => sb.wf_frame(d0, d1),
                            None => {},
                        }
                        assert forall|e: usize| d0.is_valid(e) implies #[trigger] d1.children_of(
                            e,
                        ) == without(d0.children_of(e), self.nodes()) by {
                            assert forall|i: int| 0 <= i < d0.children_of(e).len() implies
                                !bn.contains(#[trigger] d0.children_of(e)[i]) by {
                                let n = d0.children_of(e)[i];
                                if bn.contains(n) {
                                    assert(d0.parent_of(n) is None);
                                    let w = choose|w: int| 0 <= w < bn.len() && bn[w] == n;
                                    assert(d0.is_valid(bn[w]));
                                    d0.lemma_detached_not_listed(n);
                                }
                            }
                            lemma_without_absent(d0.children_of(e), an, bn);
                        }
                        assert forall|j: int| 0 <= j < self.nodes().len() implies d1.parent_of(
                            #[trigger] self.nodes()[j],
                        ) is None by {
                            if j < an.len() {
                                assert(self.nodes()[j] == an[j]);
                            } else {
                                assert(self.nodes()[j] == bn[j - an.len()]);
                                assert(d1.parent_of(bn[j - an.len()]) == d0.parent_of(
                                    bn[j - an.len()],
                                ));
                            }
                        }
                        assert forall|m: usize| d0.is_valid(m) && !self.nodes().contains(m) implies
                            #[trigger] d1.parent_of(m) == d0.parent_of(m) by {
                            assert(!an.contains(m)) by {
                                if an.contains(m) {
                                    let w = choose|w: int| 0 <= w < an.len() && an[w] == m;
                                    assert(self.nodes()[w] == m);
                                }
                            }
                        }
                    }
                },
                None => {
                    proof {
                        assert(false);
                    }
                },
            }
        }
    }

    fn mount(&self, dom: &mut Dom, parent: usize, marker: Option<usize>) {
        let ghost d0 = *old(dom);
        let ghost an = self.a_nodes();
        let ghost bn = self.b_nodes();
        proof {
            self.wf_facts(d0);
            match &self.a {
                Some(s) => s.wf_facts(d0),
                None => {},
            }
            match &self.b {
                Some(s) => s.wf_facts(d0),
                None => {},
            }
            lemma_no_dup_concat(an, bn);
        }
        if self.showing_b {
            match &self.b {
                Some(s) => {
                    proof {
                        assert(detached(d0, s.nodes())) by {
                            assert forall|i: int| 0 <= i < bn.len() implies d0.parent_of(
                                #[trigger] bn[i],
                            ) is None by {
                                assert(self.nodes()[an.len() + i] == bn[i]);
                            }
                        }
                    }
                    s.mount(dom, parent, marker);
                    proof {
                        let d1 = *dom;
                        assert(agree_on(d0, d1, an)) by {
                            assert forall|i: int| 0 <= i < an.len() implies {
                                let n = #[trigger] an[i];
                                &&& d0.is_valid(n)
                                &&& d1.is_valid(n)
                                &&& d1.kind_of(n) == d0.kind_of(n)
                                &&& d1.text_of(n) == d0.text_of(n)
                                &&& d1.parent_of(n) == d0.parent_of(n)
                            } by {
                                let n = an[i];
                                assert(self.nodes()[i] == n);
                                assert(!s.live().contains(n)) by {
                                    if s.live().contains(n) {
                                        let w = choose|w: int|
                                            0 <= w < s.live().len() && s.live()[w] == n;
                                        assert(s.nodes().contains(s.live()[w]));
                                        let v = choose|v: int|
                                            0 <= v < bn.len() && bn[v] == n;
                                        assert(an.contains(n));
                                        assert(!bn.contains(n));
                                    }
                                }
                            }
                        }
                        match &self.a {
                            Some(sa) => sa.wf_frame(d0, d1),
                            None => {},
                        }
                        assert forall|j: int| 0 <= j < an.len() implies d1.parent_of(
                            #[trigger] an[j],
                        ) is None by {
                            assert(self.nodes()[j] == an[j]);
                            assert(d1.parent_of(an[j]) == d0.parent_of(an[j]));
                        }
                    }
                },
                None => {
                    proof {
                        assert(false);
                    }
                },
            }
        } else {
            match &self.a {
                Some(s) => {
                    proof {
                        assert(detached(d0, s.nodes())) by {
                            assert forall|i: int| 0 <= i < an.len() implies d0.parent_of(
                                #[trigger] an[i],
                            ) is None by {
                                assert(self.nodes()[i] == an[i]);
                            }
                        }
                    }
                    s.mount(dom, parent, marker);
                    proof {
                        let d1 = *dom;
                        assert(agree_on(d0, d1, bn)) by {
                            assert forall|i: int| 0 <= i < bn.len() implies {
                                let n = #[trigger] bn[i];
                                &&& d0.is_valid(n)
                                &&& d1.is_valid(n)
                                &&& d1.kind_of(n) == d0.kind_of(n)
                                &&& d1.text_of(n) == d0.text_of(n)
                                &&& d1.parent_of(n) == d0.parent_of(n)
                            } by {
                                let n = bn[i];
                                assert(self.nodes()[an.len() + i] == n);
                                assert(!s.live().contains(n)) by {
                                    if s.live().contains(n) {
                                        let w = choose|w: int|
                                            0 <= w < s.live().len() && s.live()[w] == n;
                                        assert(s.nodes().contains(s.live()[w]));
                                        assert(bn.contains(n));
                                        assert(!an.contains(n));
                                    }
                                }
                            }
                        }
                        match &self.b {
                            Some(sb) => sb.wf_frame(d0, d1),
                            None => {},
                        }
                        assert forall|j: int| 0 <= j < bn.len() implies d1.parent_of(
                            #[trigger] bn[j],
                        ) is None by {
                            assert(self.nodes()[an.len() + j] == bn[j]);
                            assert(d1.parent_of(bn[j]) == d0.parent_of(bn[j]));
                        }
                    }
                },
                None => {
                    proof {
                        assert(false);
                    }
                },
            }
        }
    }

    fn first_node(&self) -> (r: Option<usize>) {
        if self.showing_b {
            match &self.b {
                Some(s) => s.first_node(),
                None => None,
            }
        } else {
            match &self.a {
                Some(s) => s.first_node(),
                None => None,
            }
        }
    }
}

/// Builds the keep-alive state: each branch that is supplied with a value
/// is built (an absent branch stays unbuilt), and `show_b` selects the
/// presented branch, which must be among the supplied ones.
pub fn keep_alive_build<A: Render, B: Render>(
    this: EitherKeepAlive<A, B>,
    dom: &mut Dom,
    cx: &mut Cx,
) -> (state: EitherKeepAliveState<A::State, B::State>)
    requires
        old(dom).wf(),
        this.show_b ==> this.b is Some,
        !this.show_b ==> this.a is Some,
    ensures
        final(dom).wf(),
        state.wf(*final(dom)),
        appends(*old(dom), *final(dom)),
        fresh_nodes(*old(dom), state.nodes()),
        detached(*final(dom), state.nodes()),
        state.showing_b == this.show_b,
        state.a is Some <==> this.a is Some,
        state.b is Some <==> this.b is Some,
        this.show_b ==> rnodes(*final(dom), state.live()) == this.b->0.target(),
        !this.show_b ==> rnodes(*final(dom), state.live()) == this.a->0.target(),
        cx_frame(*old(cx), *final(cx)),
{
    let EitherKeepAlive { a, b, show_b } = this;
    let ghost d0 = *old(dom);
    let ghost cx0 = *old(cx);
    proof {
        crate::context::lemma_cx_frame_refl(cx0);
    }
    let sa = match a {
        Some(v) => Some(v.build(dom, cx)),
        None => None,
    };
    let ghost d1 = *dom;
    let ghost cx1 = *cx;
    let sb = match b {
        Some(v) => Some(v.build(dom, cx)),
        None => None,
    };
    let state = EitherKeepAliveState { a: sa, b: sb, showing_b: show_b };
    proof {
        let d2 = *dom;
        let an = state.a_nodes();
        let bn = state.b_nodes();
        crate::context::lemma_cx_frame_trans(cx0, cx1, *cx);
        assert(appends(d0, d2)) by {
            assert forall|n: usize| d0.is_valid(n) implies #[trigger] node_unchanged(
                d0,
                d2,
                n,
            ) by {
                assert(node_unchanged(d0, d1, n));
                assert(node_unchanged(d1, d2, n));
            }
        }
        // the first branch's state is untouched by the second build
        match &state.a {
            Some(s) => {
                s.wf_facts(d1);
                assert(agree_on(d1, d2, s.nodes())) by {
                    assert forall|i: int| 0 <= i < s.nodes().len() implies {
                        let n = #[trigger] s.nodes()[i];
                        &&& d1.is_valid(n)
                        &&& d2.is_valid(n)
                        &&& d2.kind_of(n) == d1.kind_of(n)
                        &&& d2.text_of(n) == d1.text_of(n)
                        &&& d2.parent_of(n) == d1.parent_of(n)
                    } by {
                        assert(node_unchanged(d1, d2, s.nodes()[i]));
                    }
                }
                s.wf_frame(d1, d2);
                lemma_rnodes_stable(d1, d2, s.live());
            },
            None => {},
        }
        // freshness, detachment, and distinctness of the joint footprint
        assert forall|j: int| 0 <= j < state.nodes().len() implies #[trigger] state.nodes()[j]
            >= d0.num_nodes() && d2.parent_of(state.nodes()[j]) is None by {
            if j < an.len() {
                assert(state.nodes()[j] == an[j]);
                assert(an[j] >= d0.num_nodes());
                assert(d1.parent_of(an[j]) is None);
                assert(node_unchanged(d1, d2, an[j]));
            } else {
                assert(state.nodes()[j] == bn[j - an.len()]);
                assert(bn[j - an.len()] >= d1.num_nodes());
            }
        }
        assert(state.nodes().no_duplicates()) by {
            match &state.a {
                Some(s) => {
                    s.wf_facts(d1);
                },
                None => {},
            }
            match &state.b {
                Some(s) => {
                    s.wf_facts(d2);
                },
                None => {},
            }
            assert forall|j: int| 0 <= j < an.len() implies #[trigger] an[j]
                < d1.num_nodes() by {
                match &state.a {
                    Some(s) => {
                        assert(d1.is_valid(s.nodes()[j]));
                    },
                    None => {},
                }
            }
            assert forall|j: int| 0 <= j < bn.len() implies #[trigger] bn[j]
                >= d1.num_nodes() by {}
            crate::dom::lemma_no_dup_join(an, bn, d1.num_nodes());
        }
        if show_b {
            assert(state.live() == sb->0.live());
        } else {
            assert(state.live() == sa->0.live());
            assert(rnodes(d2, state.live()) == a->0.target());
        }
    }
    state
}

/// Rebuilds a keep-alive state.  A branch that is supplied with a value
/// and has no state yet is built lazily; a branch with state is patched in
/// place, whether it stands in the tree or lies detached; and flipping
/// `show_b` splices the newly-presented branch's retained nodes
/// immediately before the currently-presented one's and unmounts — but
/// keeps — the old branch.
pub fn keep_alive_rebuild<A: Render, B: Render>(
    this: EitherKeepAlive<A, B>,
    state: &mut EitherKeepAliveState<A::State, B::State>,
    dom: &mut Dom,
    cx: &mut Cx,
)
    requires
        old(dom).wf(),
        old(state).wf(*old(dom)),
        this.a matches Some(n) && old(state).a matches Some(s) ==> n.rebuild_req(s, *old(dom)),
        this.b matches Some(n) && old(state).b matches Some(s) ==> n.rebuild_req(s, *old(dom)),
        this.show_b ==> this.b is Some || old(state).b is Some,
        !this.show_b ==> this.a is Some || old(state).a is Some,
        this.show_b != old(state).showing_b ==> old(dom).parent_of(
            old(state).live()[0],
        ) is Some,
    ensures
        final(dom).wf(),
        final(state).wf(*final(dom)),
        final(state).showing_b == this.show_b,
        old(state).a is Some ==> final(state).a is Some,
        old(state).b is Some ==> final(state).b is Some,
        final(state).a is Some <==> (this.a is Some || old(state).a is Some),
        final(state).b is Some <==> (this.b is Some || old(state).b is Some),
        this.a is None ==> final(state).a == old(state).a,
        this.b is None ==> final(state).b == old(state).b,
        this.show_b && this.b is Some ==> rnodes(*final(dom), final(state).live())
            == this.b->0.target(),
        !this.show_b && this.a is Some ==> rnodes(*final(dom), final(state).live())
            == this.a->0.target(),
        this.show_b && this.a is Some ==> rnodes(*final(dom), final(state).a->0.live())
            == this.a->0.target(),
        !this.show_b && this.b is Some ==> rnodes(*final(dom), final(state).b->0.live())
            == this.b->0.target(),
        this.show_b && this.b is None ==> rnodes(*final(dom), final(state).live()) == rnodes(
            *old(dom),
            old(state).b->0.live(),
        ),
        !this.show_b && this.a is None ==> rnodes(*final(dom), final(state).live()) == rnodes(
            *old(dom),
            old(state).a->0.live(),
        ),
        this.show_b != old(state).showing_b && !(this.a is Some && old(state).a is Some) && !(
        this.b is Some && old(state).b is Some) ==> replaced_in_place(
            *old(dom),
            *final(dom),
            old(state).live(),
            final(state).live(),
        ) && detached(*final(dom), old(state).live()),
        this.show_b != old(state).showing_b ==> detached(
            *final(dom),
            if old(state).showing_b {
                final(state).b_nodes()
            } else {
                final(state).a_nodes()
            },
        ),
        cx_frame(*old(cx), *final(cx)),
        this.a is None && this.b is None ==> *final(cx) == *old(cx),
{
    let ghost d0 = *old(dom);
    let ghost s0 = *old(state);
    let ghost cx0 = *old(cx);
    proof {
        crate::context::lemma_cx_frame_refl(cx0);
        s0.wf_facts(d0);
        lemma_no_dup_concat(s0.a_nodes(), s0.b_nodes());
    }
    let EitherKeepAlive { a: va, b: vb, show_b } = this;
    let ghost built_a = this.a is Some && s0.a is None;
    let ghost built_b = this.b is Some && s0.b is None;
    // lazily build a branch that receives its first value
    let va = if va.is_some() && state.a.is_none() {
        let v = va.unwrap();
        let s = v.build(dom, cx);
        state.a = Some(s);
        None
    } else {
        va
    };
    let ghost da = *dom;
    let ghost cxa = *cx;
    proof {
        if built_a {
            state.a->0.wf_facts(da);
        }
        match &s0.b {
            Some(s) => {
                s.wf_facts(d0);
                assert(agree_on(d0, da, s.nodes())) by {
                    assert forall|i: int| 0 <= i < s.nodes().len() implies {
                        let n = #[trigger] s.nodes()[i];
                        &&& d0.is_valid(n)
                        &&& da.is_valid(n)
                        &&& da.kind_of(n) == d0.kind_of(n)
                        &&& da.text_of(n) == d0.text_of(n)
                        &&& da.parent_of(n) == d0.parent_of(n)
                    } by {
                        assert(node_unchanged(d0, da, s.nodes()[i]));
                    }
                }
                s.wf_frame(d0, da);
                lemma_rnodes_stable(d0, da, s.live());
            },
            None => {},
        }
    }
    let vb = if vb.is_some() && state.b.is_none() {
        let v = vb.unwrap();
        let s = v.build(dom, cx);
        state.b = Some(s);
        None
    } else {
        vb
    };
    let ghost dlz = *dom;
    let ghost slz = *state;
    let ghost cxlz = *cx;
    proof {
        crate::context::lemma_cx_frame_trans(cx0, cxa, *cx);
        if built_b {
            state.b->0.wf_facts(dlz);
        }
        assert(appends(d0, dlz)) by {
            assert forall|n: usize| d0.is_valid(n) implies #[trigger] node_unchanged(
                d0,
                dlz,
                n,
            ) by {
                assert(node_unchanged(d0, da, n));
                assert(node_unchanged(da, dlz, n));
            }
        }
        // every already-present branch state is untouched by the lazy builds
        match &s0.a {
            Some(s) => {
                s.wf_facts(d0);
                assert(agree_on(d0, dlz, s.nodes())) by {
                    assert forall|i: int| 0 <= i < s.nodes().len() implies {
                        let n = #[trigger] s.nodes()[i];
                        &&& d0.is_valid(n)
                        &&& dlz.is_valid(n)
                        &&& dlz.kind_of(n) == d0.kind_of(n)
                        &&& dlz.text_of(n) == d0.text_of(n)
                        &&& dlz.parent_of(n) == d0.parent_of(n)
                    } by {
                        assert(node_unchanged(d0, dlz, s.nodes()[i]));
                    }
                }
                s.wf_frame(d0, dlz);
                lemma_rnodes_stable(d0, dlz, s.live());
            },
            None => {},
        }
        match &s0.b {
            Some(s) => {
                assert(agree_on(da, dlz, s.nodes())) by {
                    assert forall|i: int| 0 <= i < s.nodes().len() implies {
                        let n = #[trigger] s.nodes()[i];
                        &&& da.is_valid(n)
                        &&& dlz.is_valid(n)
                        &&& dlz.kind_of(n) == da.kind_of(n)
                        &&& dlz.text_of(n) == da.text_of(n)
                        &&& dlz.parent_of(n) == da.parent_of(n)
                    } by {
                        assert(node_unchanged(da, dlz, s.nodes()[i]));
                    }
                }
                s.wf_frame(da, dlz);
                lemma_rnodes_stable(da, dlz, s.live());
            },
            None => {},
        }
        // a freshly built first branch is untouched by the second build
        if built_a {
            let s = state.a->0;
            assert(agree_on(da, dlz, s.nodes())) by {
                assert forall|i: int| 0 <= i < s.nodes().len() implies {
                    let n = #[trigger] s.nodes()[i];
                    &&& da.is_valid(n)
                    &&& dlz.is_valid(n)
                    &&& dlz.kind_of(n) == da.kind_of(n)
                    &&& dlz.text_of(n) == da.text_of(n)
                    &&& dlz.parent_of(n) == da.parent_of(n)
                } by {
                    assert(node_unchanged(da, dlz, s.nodes()[i]));
                }
            }
            s.wf_frame(da, dlz);
            lemma_rnodes_stable(da, dlz, s.live());
        }
        // the joint footprint stays duplicate-free, each side keeping its
        // place: retained nodes are old, built ones are fresh
        assert(slz.nodes().no_duplicates()) by {
            let an = slz.a_nodes();
            let bn = slz.b_nodes();
            if built_a {
                assert forall|j: int| 0 <= j < an.len() implies #[trigger] an[j]
                    >= d0.num_nodes() && an[j] < da.num_nodes() by {
                    assert(da.is_valid(an[j]));
                }
            } else {
                assert(an == s0.a_nodes());
                assert forall|j: int| 0 <= j < an.len() implies #[trigger] an[j]
                    < d0.num_nodes() by {
                    match &s0.a {
                        Some(s) => {
                            assert(d0.is_valid(s.nodes()[j]));
                        },
                        None => {},
                    }
                }
            }
            if built_b {
                assert forall|j: int| 0 <= j < bn.len() implies #[trigger] bn[j]
                    >= da.num_nodes() by {}
                crate::dom::lemma_no_dup_join(an, bn, da.num_nodes());
            } else {
                assert(bn == s0.b_nodes());
                if built_a {
                    assert forall|j: int| 0 <= j < bn.len() implies #[trigger] bn[j]
                        < d0.num_nodes() by {
                        match &s0.b {
                            Some(s) => {
                                assert(d0.is_valid(s.nodes()[j]));
                            },
                            None => {},
                        }
                    }
                    assert forall|x: usize| bn.contains(x) implies !an.contains(x) by {
                        if an.contains(x) && bn.contains(x) {
                            let i = choose|i: int| 0 <= i < an.len() && an[i] == x;
                            let j = choose|j: int| 0 <= j < bn.len() && bn[j] == x;
                            assert(an[i] >= d0.num_nodes());
                            assert(bn[j] < d0.num_nodes());
                        }
                    }
                    assert forall|x: usize| an.contains(x) implies !bn.contains(x) by {
                        if an.contains(x) && bn.contains(x) {
                            let i = choose|i: int| 0 <= i < an.len() && an[i] == x;
                            let j = choose|j: int| 0 <= j < bn.len() && bn[j] == x;
                            assert(an[i] >= d0.num_nodes());
                            assert(bn[j] < d0.num_nodes());
                        }
                    }
                    crate::dom::lemma_no_dup_disjoint_join(an, bn);
                } else {
                    assert(slz.nodes() == s0.nodes());
                }
            }
        }
        // detachment of everything that is or may become hidden
        assert(built_a ==> detached(dlz, slz.a_nodes())) by {
            if built_a {
                assert forall|j: int| 0 <= j < slz.a_nodes().len() implies dlz.parent_of(
                    #[trigger] slz.a_nodes()[j],
                ) is None by {
                    assert(da.parent_of(slz.a_nodes()[j]) is None);
                    assert(node_unchanged(da, dlz, slz.a_nodes()[j]));
                }
            }
        }
        assert(s0.showing_b ==> detached(dlz, slz.a_nodes())) by {
            if s0.showing_b && !built_a {
                assert forall|j: int| 0 <= j < slz.a_nodes().len() implies dlz.parent_of(
                    #[trigger] slz.a_nodes()[j],
                ) is None by {
                    assert(slz.a_nodes() == s0.a_nodes());
                    assert(d0.parent_of(s0.a_nodes()[j]) is None);
                    match &s0.a {
                        Some(s) => {
                            assert(d0.is_valid(s.nodes()[j]));
                            assert(node_unchanged(d0, dlz, s.nodes()[j]));
                        },
                        None => {},
                    }
                }
            }
        }
        assert(!s0.showing_b ==> detached(dlz, slz.b_nodes())) by {
            if !s0.showing_b && !built_b {
                assert forall|j: int| 0 <= j < slz.b_nodes().len() implies dlz.parent_of(
                    #[trigger] slz.b_nodes()[j],
                ) is None by {
                    assert(slz.b_nodes() == s0.b_nodes());
                    assert(d0.parent_of(s0.b_nodes()[j]) is None);
                    match &s0.b {
                        Some(s) => {
                            assert(d0.is_valid(s.nodes()[j]));
                            assert(node_unchanged(d0, dlz, s.nodes()[j]));
                        },
                        None => {},
                    }
                }
            }
        }
        assert(built_b ==> detached(dlz, slz.b_nodes()));
        assert(slz.showing_b == s0.showing_b);
        assert(state.wf(dlz));
        // the presented branch's anchor keeps its parent
        if show_b != s0.showing_b {
            assert(s0.live().len() > 0);
            assert(slz.live() == s0.live()) by {
                if s0.showing_b {
                    assert(slz.b == s0.b);
                } else {
                    assert(slz.a == s0.a);
                }
            }
            assert(dlz.parent_of(s0.live()[0]) == d0.parent_of(s0.live()[0]) && d0.is_valid(
                s0.live()[0],
            )) by {
                assert(s0.nodes().contains(s0.live()[0]));
                let w = choose|w: int|
                    0 <= w < s0.nodes().len() && s0.nodes()[w] == s0.live()[0];
                assert(d0.is_valid(s0.nodes()[w]));
                assert(node_unchanged(d0, dlz, s0.nodes()[w]));
            }
        }
    }
    if show_b != state.showing_b {
        // switch: patch the incoming branch while it is detached, splice
        // it immediately before the outgoing branch's anchor, patch the
        // outgoing branch while it still stands, then unmount — but
        // keep — it
        if show_b {

            let ghost patched_b_in = this.b is Some && s0.b is Some;
            let ghost patched_a_out = this.a is Some && s0.a is Some;
            let ghost inrend: Seq<RNode> = if this.b is Some {
                this.b->0.target()
            } else {
                rnodes(d0, s0.b->0.live())
            };
            // the incoming branch is patched while it still lies detached
            match (vb, &mut state.b) {
                (Some(v), Some(si)) => {
                    proof {
                        assert(*si == s0.b->0);
                        match &s0.b {
                            Some(s) => {
                                v.rebuild_req_frame(*s, d0, dlz);
                            },
                            None => {},
                        }
                        lemma_no_dup_concat(slz.a_nodes(), slz.b_nodes());
                    }
                    let ghost siold = *si;
                    v.rebuild(si, dom, cx);
                    proof {
                        assert(siold.nodes() == slz.b_nodes());
                        match &slz.a {
                            Some(h) => {
                                assert forall|i: int| 0 <= i < h.nodes().len() implies
                                    !siold.nodes().contains(#[trigger] h.nodes()[i]) by {
                                    assert(slz.a_nodes()[i] == h.nodes()[i]);
                                    assert(slz.a_nodes().contains(h.nodes()[i]));
                                    assert(!slz.b_nodes().contains(h.nodes()[i]));
                                }
                            },
                            None => {},
                        }
                        lemma_keep_alive_patch::<A::State, B::State>(
                            dlz,
                            *dom,
                            slz.a,
                            siold,
                            *si,
                        );
                        assert(detached(*dom, si.nodes()));
                    }
                },
                _ => {},
            }
            let ghost dpi = *dom;
            let ghost spi = *state;
            let ghost cxpi = *cx;
            proof {
                lemma_no_dup_concat(slz.a_nodes(), slz.b_nodes());
                if !patched_b_in {
                    assert(*dom == dlz);
                    assert(spi == slz);
                    crate::context::lemma_cx_frame_refl(*cx);
                }
                assert(spi.a == slz.a);
                assert(spi.b matches Some(s) ==> s.wf(dpi) && detached(dpi, s.nodes()));
                assert(spi.a matches Some(s) ==> s.wf(dpi));
                // the footprints stay disjoint, in both directions
                assert forall|i: int| 0 <= i < spi.b_nodes().len() implies
                    !spi.a_nodes().contains(#[trigger] spi.b_nodes()[i]) by {
                    if patched_b_in {
                        match (&spi.b, &slz.a) {
                            (Some(s), Some(h)) => {
                                assert(s.nodes()[i] == spi.b_nodes()[i]);
                                assert(!h.nodes().contains(s.nodes()[i]));
                                if spi.a_nodes().contains(spi.b_nodes()[i]) {
                                    let w = choose|w: int|
                                        0 <= w < spi.a_nodes().len() && spi.a_nodes()[w]
                                            == spi.b_nodes()[i];
                                    assert(h.nodes()[w] == spi.b_nodes()[i]);
                                    assert(h.nodes().contains(spi.b_nodes()[i]));
                                }
                            },
                            _ => {},
                        }
                    } else {
                        assert(slz.b_nodes().contains(spi.b_nodes()[i]));
                    }
                }
                assert forall|i: int| 0 <= i < spi.a_nodes().len() implies
                    !spi.b_nodes().contains(#[trigger] spi.a_nodes()[i]) by {
                    if spi.b_nodes().contains(spi.a_nodes()[i]) {
                        let w = choose|w: int|
                            0 <= w < spi.b_nodes().len() && spi.b_nodes()[w]
                                == spi.a_nodes()[i];
                        assert(!spi.a_nodes().contains(spi.b_nodes()[w]));
                    }
                }
                // the outgoing branch is untouched: agreement and anchor
                match &spi.a {
                    Some(s) => {
                        if !patched_b_in {
                            s.wf_facts(dlz);
                            assert(agree_on(dlz, dpi, s.nodes())) by {
                                assert forall|i: int| 0 <= i < s.nodes().len() implies {
                                    let n = #[trigger] s.nodes()[i];
                                    &&& dlz.is_valid(n)
                                    &&& dpi.is_valid(n)
                                    &&& dpi.kind_of(n) == dlz.kind_of(n)
                                    &&& dpi.text_of(n) == dlz.text_of(n)
                                    &&& dpi.parent_of(n) == dlz.parent_of(n)
                                } by {}
                            }
                        }
                        assert(agree_on(dlz, dpi, s.nodes()));
                        assert(s.live() == slz.live());
                        assert(dpi.parent_of(s.live()[0]) == dlz.parent_of(s.live()[0])) by {
                            s.wf_facts(dlz);
                            assert(s.nodes().contains(s.live()[0]));
                            let w = choose|w: int|
                                0 <= w < s.nodes().len() && s.nodes()[w] == s.live()[0];
                            assert(dpi.parent_of(s.nodes()[w]) == dlz.parent_of(s.nodes()[w]));
                        }
                    },
                    None => {},
                }
                // the incoming branch renders its intended content
                match &spi.b {
                    Some(s) => {
                        assert(rnodes(dpi, s.live()) == inrend);
                    },
                    None => {},
                }
                assert(cx_frame(cxlz, cxpi));
                assert(dpi.num_nodes() >= dlz.num_nodes());
            }
            // splice the incoming branch immediately before the outgoing
            // branch's anchor
            match (&state.a, &state.b) {
                (Some(so), Some(si)) => {
                    proof {
                        so.wf_facts(dpi);
                        si.wf_facts(dpi);
                        assert forall|i: int| 0 <= i < si.nodes().len() implies
                            !so.nodes().contains(#[trigger] si.nodes()[i]) by {
                            assert(spi.b_nodes().contains(si.nodes()[i]));
                            if so.nodes().contains(si.nodes()[i]) {
                                assert(spi.a_nodes().contains(si.nodes()[i]));
                            }
                        }
                        assert(detached(dpi, si.nodes()));
                        assert(dpi.parent_of(so.live()[0]) is Some);
                    }
                    let r = insert_before_this(so, dom, si);
                    proof {
                        assert(r);
                    }
                },
                _ => {
                    proof {
                        assert(false);
                    }
                },
            }
            let ghost dsp = *dom;
            proof {
                // the splice leaves both branches' nodes' content alone
                match &spi.a {
                    Some(s) => {
                        s.wf_facts(dpi);
                        assert(agree_on(dpi, dsp, s.nodes())) by {
                            assert forall|i: int| 0 <= i < s.nodes().len() implies {
                                let n = #[trigger] s.nodes()[i];
                                &&& dpi.is_valid(n)
                                &&& dsp.is_valid(n)
                                &&& dsp.kind_of(n) == dpi.kind_of(n)
                                &&& dsp.text_of(n) == dpi.text_of(n)
                                &&& dsp.parent_of(n) == dpi.parent_of(n)
                            } by {
                                let n = s.nodes()[i];
                                match &spi.b {
                                    Some(t) => {
                                        assert(!t.live().contains(n)) by {
                                            t.wf_facts(dpi);
                                            if t.live().contains(n) {
                                                let w = choose|w: int|
                                                    0 <= w < t.live().len() && t.live()[w] == n;
                                                assert(t.nodes().contains(t.live()[w]));
                                                assert(spi.b_nodes().contains(n));
                                                assert(spi.a_nodes().contains(n));
                                            }
                                        }
                                    },
                                    None => {},
                                }
                            }
                        }
                    },
                    None => {},
                }
                match &spi.b {
                    Some(s) => {
                        s.wf_facts(dpi);
                        assert forall|i: int| 0 <= i < s.live().len() implies dpi.is_valid(
                            #[trigger] s.live()[i],
                        ) && dsp.is_valid(s.live()[i]) && dsp.kind_of(s.live()[i]) == dpi.kind_of(
                            s.live()[i],
                        ) && dsp.text_of(s.live()[i]) == dpi.text_of(s.live()[i]) by {
                            assert(s.nodes().contains(s.live()[i]));
                            let w = choose|w: int|
                                0 <= w < s.nodes().len() && s.nodes()[w] == s.live()[i];
                            assert(dpi.is_valid(s.nodes()[w]));
                        }
                        lemma_rnodes_stable(dpi, dsp, s.live());
                        assert(rnodes(dsp, s.live()) == inrend);
                    },
                    None => {},
                }
                assert(dsp.num_nodes() >= dpi.num_nodes());
            }
            // the outgoing branch may now be patched, still in the tree
            match (va, &mut state.a) {
                (Some(v), Some(so)) => {
                    proof {
                        assert(*so == s0.a->0);
                        match &s0.a {
                            Some(s) => {
                                v.rebuild_req_frame(*s, d0, dlz);
                                v.rebuild_req_frame(*s, dlz, dpi);
                                v.rebuild_req_frame(*s, dpi, dsp);
                            },
                            None => {},
                        }
                    }
                    let ghost soold = *so;
                    v.rebuild(so, dom, cx);
                    proof {
                        assert(soold.nodes() == spi.a_nodes());
                        match &spi.b {
                            Some(h) => {
                                assert forall|i: int| 0 <= i < h.nodes().len() implies
                                    !soold.nodes().contains(#[trigger] h.nodes()[i]) by {
                                    assert(spi.b_nodes()[i] == h.nodes()[i]);
                                    assert(!spi.a_nodes().contains(spi.b_nodes()[i]));
                                }
                            },
                            None => {},
                        }
                        lemma_keep_alive_patch::<B::State, A::State>(
                            dsp,
                            *dom,
                            spi.b,
                            soold,
                            *so,
                        );
                    }
                },
                _ => {},
            }
            let ghost dpo = *dom;
            let ghost spo = *state;
            proof {
                if !patched_a_out {
                    assert(*dom == dsp);
                    assert(*state == spi);
                    crate::context::lemma_cx_frame_refl(*cx);
                }
                assert(spo.b == spi.b);
                assert(spo.a matches Some(s) ==> s.wf(dpo));
                assert(spo.b matches Some(s) ==> s.wf(dpo));
                // the incoming branch keeps its rendering
                match &spo.b {
                    Some(s) => {
                        if patched_a_out {
                        } else {
                            s.wf_facts(dsp);
                        }
                        assert(rnodes(dpo, s.live()) == inrend);
                    },
                    None => {},
                }
                // disjointness after the outgoing patch
                assert forall|i: int| 0 <= i < spo.a_nodes().len() implies
                    !spo.b_nodes().contains(#[trigger] spo.a_nodes()[i]) by {
                    if patched_a_out {
                        match (&spo.a, &spi.b) {
                            (Some(s), Some(h)) => {
                                if spo.b_nodes().contains(spo.a_nodes()[i]) {
                                    let w = choose|w: int|
                                        0 <= w < spo.b_nodes().len() && spo.b_nodes()[w]
                                            == spo.a_nodes()[i];
                                    assert(h.nodes()[w] == spo.a_nodes()[i]);
                                    assert(!h.nodes().contains(s.nodes()[i]));
                                    assert(h.nodes().contains(spo.a_nodes()[i]));
                                }
                            },
                            _ => {},
                        }
                    } else {
                        assert(!spi.b_nodes().contains(spi.a_nodes()[i]));
                    }
                }
                assert(cx_frame(cxpi, *cx));
                assert(dpo.num_nodes() >= dsp.num_nodes());
            }
            // unmount — but keep — the outgoing branch
            match &state.a {
                Some(so) => {
                    proof {
                        so.wf_facts(dpo);
                    }
                    so.unmount(dom);
                    proof {
                        let d4 = *dom;
                        assert(detached(d4, so.nodes()));
                        match &spo.b {
                            Some(s) => {
                                s.wf_facts(dpo);
                                assert(agree_on(dpo, d4, s.nodes())) by {
                                    assert forall|i: int| 0 <= i < s.nodes().len() implies {
                                        let n = #[trigger] s.nodes()[i];
                                        &&& dpo.is_valid(n)
                                        &&& d4.is_valid(n)
                                        &&& d4.kind_of(n) == dpo.kind_of(n)
                                        &&& d4.text_of(n) == dpo.text_of(n)
                                        &&& d4.parent_of(n) == dpo.parent_of(n)
                                    } by {
                                        let n = s.nodes()[i];
                                        assert(spo.b_nodes().contains(n));
                                        assert(!so.nodes().contains(n)) by {
                                            if so.nodes().contains(n) {
                                                assert(spo.a_nodes().contains(n));
                                                let w = choose|w: int|
                                                    0 <= w < spo.a_nodes().len()
                                                        && spo.a_nodes()[w] == n;
                                                assert(!spo.b_nodes().contains(
                                                    spo.a_nodes()[w],
                                                ));
                                            }
                                        }
                                    }
                                }
                                s.wf_frame(dpo, d4);
                                assert forall|i: int| 0 <= i < s.live().len() implies
                                    dpo.is_valid(#[trigger] s.live()[i]) && d4.is_valid(
                                    s.live()[i],
                                ) && d4.kind_of(s.live()[i]) == dpo.kind_of(s.live()[i])
                                    && d4.text_of(s.live()[i]) == dpo.text_of(s.live()[i]) by {
                                    assert(s.nodes().contains(s.live()[i]));
                                    let w = choose|w: int|
                                        0 <= w < s.nodes().len() && s.nodes()[w] == s.live()[i];
                                    assert(dpo.is_valid(s.nodes()[w]));
                                }
                                lemma_rnodes_stable(dpo, d4, s.live());
                                assert(rnodes(d4, s.live()) == inrend);
                            },
                            None => {},
                        }
                    }
                },
                _ => {
                    proof {
                        assert(false);
                    }
                },
            }
            proof {
                let d4 = *dom;
                // components of the final well-formed state
                assert(state.a matches Some(s) ==> s.wf(d4) && detached(d4, s.nodes()));
                assert(state.b matches Some(s) ==> s.wf(d4));
                assert(state.b == spo.b && state.a == spo.a);
                assert forall|i: int| 0 <= i < state.a_nodes().len() implies
                    !state.b_nodes().contains(#[trigger] state.a_nodes()[i]) by {
                    assert(!spo.b_nodes().contains(spo.a_nodes()[i]));
                }
                // the outgoing branch, patched or not, keeps its rendering
                // duty through the unmount, which edits no content
                match &state.a {
                    Some(s) => {
                        if patched_a_out {
                            s.wf_facts(dpo);
                            assert forall|i: int| 0 <= i < s.live().len() implies
                                dpo.is_valid(#[trigger] s.live()[i]) && d4.is_valid(
                                s.live()[i],
                            ) && d4.kind_of(s.live()[i]) == dpo.kind_of(s.live()[i])
                                && d4.text_of(s.live()[i]) == dpo.text_of(s.live()[i]) by {
                                assert(s.nodes().contains(s.live()[i]));
                                let w = choose|w: int|
                                    0 <= w < s.nodes().len() && s.nodes()[w] == s.live()[i];
                                assert(dpo.is_valid(s.nodes()[w]));
                            }
                            lemma_rnodes_stable(dpo, d4, s.live());
                            assert(rnodes(d4, s.live()) == this.a->0.target());
                        }
                    },
                    None => {},
                }
                // with no in-place patch on either side, the switch stands
                // exactly where the old branch stood
                if !patched_b_in && !patched_a_out {
                    assert(dpi == dlz && dsp == dpo);
                    match (&state.a, &state.b) {
                        (Some(so), Some(si)) => {
                            assert(*so == slz.a->0 && *si == slz.b->0);
                            so.wf_facts(dlz);
                            si.wf_facts(dlz);
                            assert forall|i: int| 0 <= i < si.nodes().len() implies
                                !so.nodes().contains(#[trigger] si.nodes()[i]) by {
                                assert(!spi.a_nodes().contains(spi.b_nodes()[i]));
                            }
                            lemma_keep_alive_switch::<A::State, B::State>(
                                d0,
                                dlz,
                                dsp,
                                d4,
                                *so,
                                *si,
                            );
                            assert(replaced_in_place(d0, d4, s0.live(), si.live()));
                            assert(detached(d4, s0.live())) by {
                                assert forall|i: int| 0 <= i < s0.live().len() implies
                                    d4.parent_of(#[trigger] s0.live()[i]) is None by {
                                    assert(so.live() == s0.live());
                                    assert(so.nodes().contains(so.live()[i]));
                                    let w = choose|w: int|
                                        0 <= w < so.nodes().len() && so.nodes()[w] == so.live()[i];
                                    assert(d4.parent_of(so.nodes()[w]) is None);
                                }
                            }
                        },
                        _ => {},
                    }
                }
                crate::context::lemma_cx_frame_refl(*cx);
                crate::context::lemma_cx_frame_trans(cxlz, cxpi, *cx);
            }
        } else {

            let ghost patched_a_in = this.a is Some && s0.a is Some;
            let ghost patched_b_out = this.b is Some && s0.b is Some;
            let ghost inrend: Seq<RNode> = if this.a is Some {
                this.a->0.target()
            } else {
                rnodes(d0, s0.a->0.live())
            };
            // the incoming branch is patched while it still lies detached
            match (va, &mut state.a) {
                (Some(v), Some(si)) => {
                    proof {
                        assert(*si == s0.a->0);
                        match &s0.a {
                            Some(s) => {
                                v.rebuild_req_frame(*s, d0, dlz);
                            },
                            None => {},
                        }
                        lemma_no_dup_concat(slz.a_nodes(), slz.b_nodes());
                    }
                    let ghost siold = *si;
                    v.rebuild(si, dom, cx);
                    proof {
                        assert(siold.nodes() == slz.a_nodes());
                        match &slz.b {
                            Some(h) => {
                                assert forall|i: int| 0 <= i < h.nodes().len() implies
                                    !siold.nodes().contains(#[trigger] h.nodes()[i]) by {
                                    assert(slz.b_nodes()[i] == h.nodes()[i]);
                                    assert(slz.b_nodes().contains(h.nodes()[i]));
                                    assert(!slz.a_nodes().contains(h.nodes()[i]));
                                }
                            },
                            None => {},
                        }
                        lemma_keep_alive_patch::<B::State, A::State>(
                            dlz,
                            *dom,
                            slz.b,
                            siold,
                            *si,
                        );
                        assert(detached(*dom, si.nodes()));
                    }
                },
                _ => {},
            }
            let ghost dpi = *dom;
            let ghost spi = *state;
            let ghost cxpi = *cx;
            proof {
                lemma_no_dup_concat(slz.a_nodes(), slz.b_nodes());
                if !patched_a_in {
                    assert(*dom == dlz);
                    assert(spi == slz);
                    crate::context::lemma_cx_frame_refl(*cx);
                }
                assert(spi.b == slz.b);
                assert(spi.a matches Some(s) ==> s.wf(dpi) && detached(dpi, s.nodes()));
                assert(spi.b matches Some(s) ==> s.wf(dpi));
                // the footprints stay disjoint, in both directions
                assert forall|i: int| 0 <= i < spi.a_nodes().len() implies
                    !spi.b_nodes().contains(#[trigger] spi.a_nodes()[i]) by {
                    if patched_a_in {
                        match (&spi.a, &slz.b) {
                            (Some(s), Some(h)) => {
                                assert(s.nodes()[i] == spi.a_nodes()[i]);
                                assert(!h.nodes().contains(s.nodes()[i]));
                                if spi.b_nodes().contains(spi.a_nodes()[i]) {
                                    let w = choose|w: int|
                                        0 <= w < spi.b_nodes().len() && spi.b_nodes()[w]
                                            == spi.a_nodes()[i];
                                    assert(h.nodes()[w] == spi.a_nodes()[i]);
                                    assert(h.nodes().contains(spi.a_nodes()[i]));
                                }
                            },
                            _ => {},
                        }
                    } else {
                        assert(slz.a_nodes().contains(spi.a_nodes()[i]));
                    }
                }
                assert forall|i: int| 0 <= i < spi.b_nodes().len() implies
                    !spi.a_nodes().contains(#[trigger] spi.b_nodes()[i]) by {
                    if spi.a_nodes().contains(spi.b_nodes()[i]) {
                        let w = choose|w: int|
                            0 <= w < spi.a_nodes().len() && spi.a_nodes()[w]
                                == spi.b_nodes()[i];
                        assert(!spi.b_nodes().contains(spi.a_nodes()[w]));
                    }
                }
                // the outgoing branch is untouched: agreement and anchor
                match &spi.b {
                    Some(s) => {
                        if !patched_a_in {
                            s.wf_facts(dlz);
                            assert(agree_on(dlz, dpi, s.nodes())) by {
                                assert forall|i: int| 0 <= i < s.nodes().len() implies {
                                    let n = #[trigger] s.nodes()[i];
                                    &&& dlz.is_valid(n)
                                    &&& dpi.is_valid(n)
                                    &&& dpi.kind_of(n) == dlz.kind_of(n)
                                    &&& dpi.text_of(n) == dlz.text_of(n)
                                    &&& dpi.parent_of(n) == dlz.parent_of(n)
                                } by {}
                            }
                        }
                        assert(agree_on(dlz, dpi, s.nodes()));
                        assert(s.live() == slz.live());
                        assert(dpi.parent_of(s.live()[0]) == dlz.parent_of(s.live()[0])) by {
                            s.wf_facts(dlz);
                            assert(s.nodes().contains(s.live()[0]));
                            let w = choose|w: int|
                                0 <= w < s.nodes().len() && s.nodes()[w] == s.live()[0];
                            assert(dpi.parent_of(s.nodes()[w]) == dlz.parent_of(s.nodes()[w]));
                        }
                    },
                    None => {},
                }
                // the incoming branch renders its intended content
                match &spi.a {
                    Some(s) => {
                        assert(rnodes(dpi, s.live()) == inrend);
                    },
                    None => {},
                }
                assert(cx_frame(cxlz, cxpi));
                assert(dpi.num_nodes() >= dlz.num_nodes());
            }
            // splice the incoming branch immediately before the outgoing
            // branch's anchor
            match (&state.b, &state.a) {
                (Some(so), Some(si)) => {
                    proof {
                        so.wf_facts(dpi);
                        si.wf_facts(dpi);
                        assert forall|i: int| 0 <= i < si.nodes().len() implies
                            !so.nodes().contains(#[trigger] si.nodes()[i]) by {
                            assert(spi.a_nodes().contains(si.nodes()[i]));
                            if so.nodes().contains(si.nodes()[i]) {
                                assert(spi.b_nodes().contains(si.nodes()[i]));
                            }
                        }
                        assert(detached(dpi, si.nodes()));
                        assert(dpi.parent_of(so.live()[0]) is Some);
                    }
                    let r = insert_before_this(so, dom, si);
                    proof {
                        assert(r);
                    }
                },
                _ => {
                    proof {
                        assert(false);
                    }
                },
            }
            let ghost dsp = *dom;
            proof {
                // the splice leaves both branches' nodes' content alone
                match &spi.b {
                    Some(s) => {
                        s.wf_facts(dpi);
                        assert(agree_on(dpi, dsp, s.nodes())) by {
                            assert forall|i: int| 0 <= i < s.nodes().len() implies {
                                let n = #[trigger] s.nodes()[i];
                                &&& dpi.is_valid(n)
                                &&& dsp.is_valid(n)
                                &&& dsp.kind_of(n) == dpi.kind_of(n)
                                &&& dsp.text_of(n) == dpi.text_of(n)
                                &&& dsp.parent_of(n) == dpi.parent_of(n)
                            } by {
                                let n = s.nodes()[i];
                                match &spi.a {
                                    Some(t) => {
                                        assert(!t.live().contains(n)) by {
                                            t.wf_facts(dpi);
                                            if t.live().contains(n) {
                                                let w = choose|w: int|
                                                    0 <= w < t.live().len() && t.live()[w] == n;
                                                assert(t.nodes().contains(t.live()[w]));
                                                assert(spi.a_nodes().contains(n));
                                                assert(spi.b_nodes().contains(n));
                                            }
                                        }
                                    },
                                    None => {},
                                }
                            }
                        }
                    },
                    None => {},
                }
                match &spi.a {
                    Some(s) => {
                        s.wf_facts(dpi);
                        assert forall|i: int| 0 <= i < s.live().len() implies dpi.is_valid(
                            #[trigger] s.live()[i],
                        ) && dsp.is_valid(s.live()[i]) && dsp.kind_of(s.live()[i]) == dpi.kind_of(
                            s.live()[i],
                        ) && dsp.text_of(s.live()[i]) == dpi.text_of(s.live()[i]) by {
                            assert(s.nodes().contains(s.live()[i]));
                            let w = choose|w: int|
                                0 <= w < s.nodes().len() && s.nodes()[w] == s.live()[i];
                            assert(dpi.is_valid(s.nodes()[w]));
                        }
                        lemma_rnodes_stable(dpi, dsp, s.live());
                        assert(rnodes(dsp, s.live()) == inrend);
                    },
                    None => {},
                }
                assert(dsp.num_nodes() >= dpi.num_nodes());
            }
            // the outgoing branch may now be patched, still in the tree
            match (vb, &mut state.b) {
                (Some(v), Some(so)) => {
                    proof {
                        assert(*so == s0.b->0);
                        match &s0.b {
                            Some(s) => {
                                v.rebuild_req_frame(*s, d0, dlz);
                                v.rebuild_req_frame(*s, dlz, dpi);
                                v.rebuild_req_frame(*s, dpi, dsp);
                            },
                            None => {},
                        }
                    }
                    let ghost soold = *so;
                    v.rebuild(so, dom, cx);
                    proof {
                        assert(soold.nodes() == spi.b_nodes());
                        match &spi.a {
                            Some(h) => {
                                assert forall|i: int| 0 <= i < h.nodes().len() implies
                                    !soold.nodes().contains(#[trigger] h.nodes()[i]) by {
                                    assert(spi.a_nodes()[i] == h.nodes()[i]);
                                    assert(!spi.b_nodes().contains(spi.a_nodes()[i]));
                                }
                            },
                            None => {},
                        }
                        lemma_keep_alive_patch::<A::State, B::State>(
                            dsp,
                            *dom,
                            spi.a,
                            soold,
                            *so,
                        );
                    }
                },
                _ => {},
            }
            let ghost dpo = *dom;
            let ghost spo = *state;
            proof {
                if !patched_b_out {
                    assert(*dom == dsp);
                    assert(*state == spi);
                    crate::context::lemma_cx_frame_refl(*cx);
                }
                assert(spo.a == spi.a);
                assert(spo.b matches Some(s) ==> s.wf(dpo));
                assert(spo.a matches Some(s) ==> s.wf(dpo));
                // the incoming branch keeps its rendering
                match &spo.a {
                    Some(s) => {
                        if patched_b_out {
                        } else {
                            s.wf_facts(dsp);
                        }
                        assert(rnodes(dpo, s.live()) == inrend);
                    },
                    None => {},
                }
                // disjointness after the outgoing patch
                assert forall|i: int| 0 <= i < spo.b_nodes().len() implies
                    !spo.a_nodes().contains(#[trigger] spo.b_nodes()[i]) by {
                    if patched_b_out {
                        match (&spo.b, &spi.a) {
                            (Some(s), Some(h)) => {
                                if spo.a_nodes().contains(spo.b_nodes()[i]) {
                                    let w = choose|w: int|
                                        0 <= w < spo.a_nodes().len() && spo.a_nodes()[w]
                                            == spo.b_nodes()[i];
                                    assert(h.nodes()[w] == spo.b_nodes()[i]);
                                    assert(!h.nodes().contains(s.nodes()[i]));
                                    assert(h.nodes().contains(spo.b_nodes()[i]));
                                }
                            },
                            _ => {},
                        }
                    } else {
                        assert(!spi.a_nodes().contains(spi.b_nodes()[i]));
                    }
                }
                assert(cx_frame(cxpi, *cx));
                assert(dpo.num_nodes() >= dsp.num_nodes());
            }
            // unmount — but keep — the outgoing branch
            match &state.b {
                Some(so) => {
                    proof {
                        so.wf_facts(dpo);
                    }
                    so.unmount(dom);
                    proof {
                        let d4 = *dom;
                        assert(detached(d4, so.nodes()));
                        match &spo.a {
                            Some(s) => {
                                s.wf_facts(dpo);
                                assert(agree_on(dpo, d4, s.nodes())) by {
                                    assert forall|i: int| 0 <= i < s.nodes().len() implies {
                                        let n = #[trigger] s.nodes()[i];
                                        &&& dpo.is_valid(n)
                                        &&& d4.is_valid(n)
                                        &&& d4.kind_of(n) == dpo.kind_of(n)
                                        &&& d4.text_of(n) == dpo.text_of(n)
                                        &&& d4.parent_of(n) == dpo.parent_of(n)
                                    } by {
                                        let n = s.nodes()[i];
                                        assert(spo.a_nodes().contains(n));
                                        assert(!so.nodes().contains(n)) by {
                                            if so.nodes().contains(n) {
                                                assert(spo.b_nodes().contains(n));
                                                let w = choose|w: int|
                                                    0 <= w < spo.b_nodes().len()
                                                        && spo.b_nodes()[w] == n;
                                                assert(!spo.a_nodes().contains(
                                                    spo.b_nodes()[w],
                                                ));
                                            }
                                        }
                                    }
                                }
                                s.wf_frame(dpo, d4);
                                assert forall|i: int| 0 <= i < s.live().len() implies
                                    dpo.is_valid(#[trigger] s.live()[i]) && d4.is_valid(
                                    s.live()[i],
                                ) && d4.kind_of(s.live()[i]) == dpo.kind_of(s.live()[i])
                                    && d4.text_of(s.live()[i]) == dpo.text_of(s.live()[i]) by {
                                    assert(s.nodes().contains(s.live()[i]));
                                    let w = choose|w: int|
                                        0 <= w < s.nodes().len() && s.nodes()[w] == s.live()[i];
                                    assert(dpo.is_valid(s.nodes()[w]));
                                }
                                lemma_rnodes_stable(dpo, d4, s.live());
                                assert(rnodes(d4, s.live()) == inrend);
                            },
                            None => {},
                        }
                    }
                },
                _ => {
                    proof {
                        assert(false);
                    }
                },
            }
            proof {
                let d4 = *dom;
                // components of the final well-formed state
                assert(state.b matches Some(s) ==> s.wf(d4) && detached(d4, s.nodes()));
                assert(state.a matches Some(s) ==> s.wf(d4));
                assert(state.a == spo.a && state.b == spo.b);
                assert forall|i: int| 0 <= i < state.b_nodes().len() implies
                    !state.a_nodes().contains(#[trigger] state.b_nodes()[i]) by {
                    assert(!spo.a_nodes().contains(spo.b_nodes()[i]));
                }
                // the outgoing branch, patched or not, keeps its rendering
                // duty through the unmount, which edits no content
                match &state.b {
                    Some(s) => {
                        if patched_b_out {
                            s.wf_facts(dpo);
                            assert forall|i: int| 0 <= i < s.live().len() implies
                                dpo.is_valid(#[trigger] s.live()[i]) && d4.is_valid(
                                s.live()[i],
                            ) && d4.kind_of(s.live()[i]) == dpo.kind_of(s.live()[i])
                                && d4.text_of(s.live()[i]) == dpo.text_of(s.live()[i]) by {
                                assert(s.nodes().contains(s.live()[i]));
                                let w = choose|w: int|
                                    0 <= w < s.nodes().len() && s.nodes()[w] == s.live()[i];
                                assert(dpo.is_valid(s.nodes()[w]));
                            }
                            lemma_rnodes_stable(dpo, d4, s.live());
                            assert(rnodes(d4, s.live()) == this.b->0.target());
                        }
                    },
                    None => {},
                }
                // with no in-place patch on either side, the switch stands
                // exactly where the old branch stood
                if !patched_a_in && !patched_b_out {
                    assert(dpi == dlz && dsp == dpo);
                    match (&state.b, &state.a) {
                        (Some(so), Some(si)) => {
                            assert(*so == slz.b->0 && *si == slz.a->0);
                            so.wf_facts(dlz);
                            si.wf_facts(dlz);
                            assert forall|i: int| 0 <= i < si.nodes().len() implies
                                !so.nodes().contains(#[trigger] si.nodes()[i]) by {
                                assert(!spi.b_nodes().contains(spi.a_nodes()[i]));
                            }
                            lemma_keep_alive_switch::<B::State, A::State>(
                                d0,
                                dlz,
                                dsp,
                                d4,
                                *so,
                                *si,
                            );
                            assert(replaced_in_place(d0, d4, s0.live(), si.live()));
                            assert(detached(d4, s0.live())) by {
                                assert forall|i: int| 0 <= i < s0.live().len() implies
                                    d4.parent_of(#[trigger] s0.live()[i]) is None by {
                                    assert(so.live() == s0.live());
                                    assert(so.nodes().contains(so.live()[i]));
                                    let w = choose|w: int|
                                        0 <= w < so.nodes().len() && so.nodes()[w] == so.live()[i];
                                    assert(d4.parent_of(so.nodes()[w]) is None);
                                }
                            }
                        },
                        _ => {},
                    }
                }
                crate::context::lemma_cx_frame_refl(*cx);
                crate::context::lemma_cx_frame_trans(cxlz, cxpi, *cx);
            }
        }
        state.showing_b = show_b;
        proof {
            lemma_keep_alive_wf(*dom, *state);
        }
    } else {
        // no switch: the hidden branch may be patched in place while it
        // lies detached, and the presented branch while it stands in the
        // tree
        if show_b {

            let ghost patched_a = this.a is Some && s0.a is Some;
            let ghost patched_b = this.b is Some && s0.b is Some;
            // hidden branch a, patched while it lies detached
            match (va, &mut state.a) {
                (Some(v), Some(sh)) => {
                    proof {
                        assert(*sh == s0.a->0);
                        match &s0.a {
                            Some(s) => {
                                v.rebuild_req_frame(*s, d0, dlz);
                            },
                            None => {},
                        }
                        lemma_no_dup_concat(slz.a_nodes(), slz.b_nodes());
                    }
                    let ghost shold = *sh;
                    v.rebuild(sh, dom, cx);
                    proof {
                        assert(shold.nodes() == slz.a_nodes());
                        match &slz.b {
                            Some(h) => {
                                assert forall|i: int| 0 <= i < h.nodes().len() implies
                                    !shold.nodes().contains(#[trigger] h.nodes()[i]) by {
                                    assert(slz.b_nodes()[i] == h.nodes()[i]);
                                    assert(slz.b_nodes().contains(h.nodes()[i]));
                                    assert(!slz.a_nodes().contains(h.nodes()[i]));
                                }
                            },
                            None => {},
                        }
                        lemma_keep_alive_patch::<B::State, A::State>(
                            dlz,
                            *dom,
                            slz.b,
                            shold,
                            *sh,
                        );
                        assert(detached(*dom, sh.nodes()));
                    }
                },
                _ => {},
            }
            let ghost dph = *dom;
            let ghost sph = *state;
            let ghost cxph = *cx;
            proof {
                lemma_no_dup_concat(slz.a_nodes(), slz.b_nodes());
                if !patched_a {
                    assert(*dom == dlz);
                    assert(sph == slz);
                    crate::context::lemma_cx_frame_refl(*cx);
                }
                assert(sph.b == slz.b);
                assert(sph.a matches Some(s) ==> s.wf(dph) && detached(dph, s.nodes()));
                assert(sph.b matches Some(s) ==> s.wf(dph));
                // the footprints stay disjoint
                assert forall|i: int| 0 <= i < sph.a_nodes().len() implies
                    !sph.b_nodes().contains(#[trigger] sph.a_nodes()[i]) by {
                    if patched_a {
                        match (&sph.a, &slz.b) {
                            (Some(s), Some(h)) => {
                                assert(s.nodes()[i] == sph.a_nodes()[i]);
                                assert(!h.nodes().contains(s.nodes()[i]));
                                if sph.b_nodes().contains(sph.a_nodes()[i]) {
                                    let w = choose|w: int|
                                        0 <= w < sph.b_nodes().len() && sph.b_nodes()[w]
                                            == sph.a_nodes()[i];
                                    assert(h.nodes()[w] == sph.a_nodes()[i]);
                                    assert(h.nodes().contains(sph.a_nodes()[i]));
                                }
                            },
                            _ => {},
                        }
                    } else {
                        assert(slz.a_nodes().contains(sph.a_nodes()[i]));
                    }
                }
                // the presented side is untouched: content and agreement
                match &sph.b {
                    Some(s) => {
                        if !patched_a {
                            s.wf_facts(dlz);
                            assert(agree_on(dlz, dph, s.nodes())) by {
                                assert forall|i: int| 0 <= i < s.nodes().len() implies {
                                    let n = #[trigger] s.nodes()[i];
                                    &&& dlz.is_valid(n)
                                    &&& dph.is_valid(n)
                                    &&& dph.kind_of(n) == dlz.kind_of(n)
                                    &&& dph.text_of(n) == dlz.text_of(n)
                                    &&& dph.parent_of(n) == dlz.parent_of(n)
                                } by {}
                            }
                            assert(rnodes(dph, s.live()) == rnodes(dlz, s.live()));
                        }
                        assert(agree_on(dlz, dph, s.nodes()));
                        assert(rnodes(dph, s.live()) == rnodes(dlz, s.live()));
                    },
                    None => {},
                }
                assert(cx_frame(cxlz, cxph));
                assert(dph.num_nodes() >= dlz.num_nodes());
            }
            // presented branch b, patched in place
            match (vb, &mut state.b) {
                (Some(v), Some(ss)) => {
                    proof {
                        assert(*ss == s0.b->0);
                        match &s0.b {
                            Some(s) => {
                                v.rebuild_req_frame(*s, d0, dlz);
                                v.rebuild_req_frame(*s, dlz, dph);
                            },
                            None => {},
                        }
                    }
                    let ghost ssold = *ss;
                    v.rebuild(ss, dom, cx);
                    proof {
                        assert(ssold.nodes() == sph.b_nodes());
                        match &sph.a {
                            Some(h) => {
                                assert forall|i: int| 0 <= i < h.nodes().len() implies
                                    !ssold.nodes().contains(#[trigger] h.nodes()[i]) by {
                                    assert(sph.a_nodes()[i] == h.nodes()[i]);
                                    if ssold.nodes().contains(h.nodes()[i]) {
                                        let w = choose|w: int|
                                            0 <= w < sph.b_nodes().len() && sph.b_nodes()[w]
                                                == h.nodes()[i];
                                        assert(!sph.b_nodes().contains(sph.a_nodes()[i]));
                                    }
                                }
                            },
                            None => {},
                        }
                        lemma_keep_alive_patch::<A::State, B::State>(
                            dph,
                            *dom,
                            sph.a,
                            ssold,
                            *ss,
                        );
                    }
                },
                _ => {},
            }
            proof {
                let dfin = *dom;
                if !patched_b {
                    assert(*dom == dph);
                    assert(*state == sph);
                    crate::context::lemma_cx_frame_refl(*cx);
                }
                assert(state.a == sph.a);
                // both sides end well formed, the hidden one detached
                assert(state.a matches Some(s) ==> s.wf(dfin) && detached(dfin, s.nodes()));
                assert(state.b matches Some(s) ==> s.wf(dfin));
                // disjointness survives the presented patch
                assert forall|i: int| 0 <= i < state.a_nodes().len() implies
                    !state.b_nodes().contains(#[trigger] state.a_nodes()[i]) by {
                    if patched_b {
                        match (&state.b, &sph.a) {
                            (Some(s), Some(h)) => {
                                if state.b_nodes().contains(state.a_nodes()[i]) {
                                    let w = choose|w: int|
                                        0 <= w < state.b_nodes().len() && state.b_nodes()[w]
                                            == state.a_nodes()[i];
                                    assert(s.nodes()[w] == state.a_nodes()[i]);
                                    assert(!h.nodes().contains(s.nodes()[w]));
                                    assert(h.nodes()[i] == state.a_nodes()[i]);
                                    assert(h.nodes().contains(state.a_nodes()[i]));
                                }
                            },
                            _ => {},
                        }
                    } else {
                        assert(!sph.b_nodes().contains(sph.a_nodes()[i]));
                    }
                }
                // the hidden side keeps its rendering across the presented
                // patch; a supplied hidden value therefore shows its target
                match &state.a {
                    Some(s) => {
                        if patched_b {
                        } else {
                            assert(rnodes(dfin, s.live()) == rnodes(dph, s.live()));
                        }
                        assert(rnodes(dfin, s.live()) == rnodes(dph, s.live()));
                    },
                    None => {},
                }
                assert(cx_frame(cxph, *cx));
                crate::context::lemma_cx_frame_trans(cxlz, cxph, *cx);
            }
        } else {

            let ghost patched_b = this.b is Some && s0.b is Some;
            let ghost patched_a = this.a is Some && s0.a is Some;
            // hidden branch b, patched while it lies detached
            match (vb, &mut state.b) {
                (Some(v), Some(sh)) => {
                    proof {
                        assert(*sh == s0.b->0);
                        match &s0.b {
                            Some(s) => {
                                v.rebuild_req_frame(*s, d0, dlz);
                            },
                            None => {},
                        }
                        lemma_no_dup_concat(slz.a_nodes(), slz.b_nodes());
                    }
                    let ghost shold = *sh;
                    v.rebuild(sh, dom, cx);
                    proof {
                        assert(shold.nodes() == slz.b_nodes());
                        match &slz.a {
                            Some(h) => {
                                assert forall|i: int| 0 <= i < h.nodes().len() implies
                                    !shold.nodes().contains(#[trigger] h.nodes()[i]) by {
                                    assert(slz.a_nodes()[i] == h.nodes()[i]);
                                    assert(slz.a_nodes().contains(h.nodes()[i]));
                                    assert(!slz.b_nodes().contains(h.nodes()[i]));
                                }
                            },
                            None => {},
                        }
                        lemma_keep_alive_patch::<A::State, B::State>(
                            dlz,
                            *dom,
                            slz.a,
                            shold,
                            *sh,
                        );
                        assert(detached(*dom, sh.nodes()));
                    }
                },
                _ => {},
            }
            let ghost dph = *dom;
            let ghost sph = *state;
            let ghost cxph = *cx;
            proof {
                lemma_no_dup_concat(slz.a_nodes(), slz.b_nodes());
                if !patched_b {
                    assert(*dom == dlz);
                    assert(sph == slz);
                    crate::context::lemma_cx_frame_refl(*cx);
                }
                assert(sph.a == slz.a);
                assert(sph.b matches Some(s) ==> s.wf(dph) && detached(dph, s.nodes()));
                assert(sph.a matches Some(s) ==> s.wf(dph));
                // the footprints stay disjoint
                assert forall|i: int| 0 <= i < sph.b_nodes().len() implies
                    !sph.a_nodes().contains(#[trigger] sph.b_nodes()[i]) by {
                    if patched_b {
                        match (&sph.b, &slz.a) {
                            (Some(s), Some(h)) => {
                                assert(s.nodes()[i] == sph.b_nodes()[i]);
                                assert(!h.nodes().contains(s.nodes()[i]));
                                if sph.a_nodes().contains(sph.b_nodes()[i]) {
                                    let w = choose|w: int|
                                        0 <= w < sph.a_nodes().len() && sph.a_nodes()[w]
                                            == sph.b_nodes()[i];
                                    assert(h.nodes()[w] == sph.b_nodes()[i]);
                                    assert(h.nodes().contains(sph.b_nodes()[i]));
                                }
                            },
                            _ => {},
                        }
                    } else {
                        assert(slz.b_nodes().contains(sph.b_nodes()[i]));
                    }
                }
                // the presented side is untouched: content and agreement
                match &sph.a {
                    Some(s) => {
                        if !patched_b {
                            s.wf_facts(dlz);
                            assert(agree_on(dlz, dph, s.nodes())) by {
                                assert forall|i: int| 0 <= i < s.nodes().len() implies {
                                    let n = #[trigger] s.nodes()[i];
                                    &&& dlz.is_valid(n)
                                    &&& dph.is_valid(n)
                                    &&& dph.kind_of(n) == dlz.kind_of(n)
                                    &&& dph.text_of(n) == dlz.text_of(n)
                                    &&& dph.parent_of(n) == dlz.parent_of(n)
                                } by {}
                            }
                            assert(rnodes(dph, s.live()) == rnodes(dlz, s.live()));
                        }
                        assert(agree_on(dlz, dph, s.nodes()));
                        assert(rnodes(dph, s.live()) == rnodes(dlz, s.live()));
                    },
                    None => {},
                }
                assert(cx_frame(cxlz, cxph));
                assert(dph.num_nodes() >= dlz.num_nodes());
            }
            // presented branch a, patched in place
            match (va, &mut state.a) {
                (Some(v), Some(ss)) => {
                    proof {
                        assert(*ss == s0.a->0);
                        match &s0.a {
                            Some(s) => {
                                v.rebuild_req_frame(*s, d0, dlz);
                                v.rebuild_req_frame(*s, dlz, dph);
                            },
                            None => {},
                        }
                    }
                    let ghost ssold = *ss;
                    v.rebuild(ss, dom, cx);
                    proof {
                        assert(ssold.nodes() == sph.a_nodes());
                        match &sph.b {
                            Some(h) => {
                                assert forall|i: int| 0 <= i < h.nodes().len() implies
                                    !ssold.nodes().contains(#[trigger] h.nodes()[i]) by {
                                    assert(sph.b_nodes()[i] == h.nodes()[i]);
                                    if ssold.nodes().contains(h.nodes()[i]) {
                                        let w = choose|w: int|
                                            0 <= w < sph.a_nodes().len() && sph.a_nodes()[w]
                                                == h.nodes()[i];
                                        assert(!sph.a_nodes().contains(sph.b_nodes()[i]));
                                    }
                                }
                            },
                            None => {},
                        }
                        lemma_keep_alive_patch::<B::State, A::State>(
                            dph,
                            *dom,
                            sph.b,
                            ssold,
                            *ss,
                        );
                    }
                },
                _ => {},
            }
            proof {
                let dfin = *dom;
                if !patched_a {
                    assert(*dom == dph);
                    assert(*state == sph);
                    crate::context::lemma_cx_frame_refl(*cx);
                }
                assert(state.b == sph.b);
                // both sides end well formed, the hidden one detached
                assert(state.b matches Some(s) ==> s.wf(dfin) && detached(dfin, s.nodes()));
                assert(state.a matches Some(s) ==> s.wf(dfin));
                // disjointness survives the presented patch
                assert forall|i: int| 0 <= i < state.b_nodes().len() implies
                    !state.a_nodes().contains(#[trigger] state.b_nodes()[i]) by {
                    if patched_a {
                        match (&state.a, &sph.b) {
                            (Some(s), Some(h)) => {
                                if state.a_nodes().contains(state.b_nodes()[i]) {
                                    let w = choose|w: int|
                                        0 <= w < state.a_nodes().len() && state.a_nodes()[w]
                                            == state.b_nodes()[i];
                                    assert(s.nodes()[w] == state.b_nodes()[i]);
                                    assert(!h.nodes().contains(s.nodes()[w]));
                                    assert(h.nodes()[i] == state.b_nodes()[i]);
                                    assert(h.nodes().contains(state.b_nodes()[i]));
                                }
                            },
                            _ => {},
                        }
                    } else {
                        assert(!sph.a_nodes().contains(sph.b_nodes()[i]));
                    }
                }
                // the hidden side keeps its rendering across the presented
                // patch; a supplied hidden value therefore shows its target
                match &state.b {
                    Some(s) => {
                        if patched_a {
                        } else {
                            assert(rnodes(dfin, s.live()) == rnodes(dph, s.live()));
                        }
                        assert(rnodes(dfin, s.live()) == rnodes(dph, s.live()));
                    },
                    None => {},
                }
                assert(cx_frame(cxph, *cx));
                crate::context::lemma_cx_frame_trans(cxlz, cxph, *cx);
            }
        }
        state.showing_b = show_b;
        proof {
            lemma_keep_alive_wf(*dom, *state);
            assert(state.wf(*dom));
        }
    }
    proof {
        crate::context::lemma_cx_frame_refl(*cx);
        crate::context::lemma_cx_frame_trans(cx0, cxlz, *cx);
    }
}

/// The pieces of keep-alive well-formedness, assembled: two well-formed
/// sides with disjoint footprints, the presented one there and the hidden
/// one detached, make a well-formed keep-alive state.
pub proof fn lemma_keep_alive_wf<A: Mountable, B: Mountable>(
    dom: Dom,
    state: EitherKeepAliveState<A, B>,
)
    requires
        state.a matches Some(s) ==> s.wf(dom),
        state.b matches Some(s) ==> s.wf(dom),
        state.showing_b ==> state.b is Some,
        !state.showing_b ==> state.a is Some,
        state.showing_b ==> detached(dom, state.a_nodes()),
        !state.showing_b ==> detached(dom, state.b_nodes()),
        forall|i: int|
            0 <= i < state.a_nodes().len() ==> !state.b_nodes().contains(
                #[trigger] state.a_nodes()[i],
            ),
    ensures
        state.wf(dom),
{
    match &state.a {
        Some(s) => {
            s.wf_facts(dom);
        },
        None => {},
    }
    match &state.b {
        Some(s) => {
            s.wf_facts(dom);
        },
        None => {},
    }
    assert forall|x: usize| state.a_nodes().contains(x) implies !state.b_nodes().contains(
        x,
    ) by {
        let w = choose|w: int| 0 <= w < state.a_nodes().len() && state.a_nodes()[w] == x;
        assert(!state.b_nodes().contains(state.a_nodes()[w]));
    }
    crate::dom::lemma_no_dup_disjoint_join(state.a_nodes(), state.b_nodes());
}

/// The keep-alive switch discipline: after splicing the retained (or
/// freshly built) incoming side immediately before the outgoing side's
/// anchor and unmounting the outgoing side, the incoming side is well
/// formed, keeps its content, and stands exactly where the outgoing side
/// stood — also as seen from the tree before any lazy builds.
pub proof fn lemma_keep_alive_switch<SOld: Mountable, SNew: Mountable>(
    d0: Dom,
    d1: Dom,
    d2: Dom,
    d3: Dom,
    olds: SOld,
    news: SNew,
)
    requires
        d0.wf(),
        appends(d0, d1),
        d1.wf(),
        olds.wf(d1),
        news.wf(d1),
        detached(d1, news.nodes()),
        forall|i: int|
            0 <= i < news.nodes().len() ==> !olds.nodes().contains(#[trigger] news.nodes()[i]),
        olds.live().len() > 0,
        d1.parent_of(olds.live()[0]) is Some,
        d0.is_valid(olds.live()[0]),
        d0.parent_of(olds.live()[0]) == d1.parent_of(olds.live()[0]),
        d2.wf(),
        d2.num_nodes() == d1.num_nodes(),
        content_stable(d1, d2),
        ({
            let anchor = olds.live()[0];
            let p = d1.parent_of(anchor)->0;
            &&& d2.children_of(p) == insert_before_marker(
                d1.children_of(p),
                news.live(),
                Some(anchor),
            )
            &&& forall|e: usize|
                d1.is_valid(e) && e != p ==> d2.children_of(e) == d1.children_of(e)
            &&& parents_frame(d1, d2, news.live())
            &&& news.wf(d2)
            &&& olds.wf(d2)
        }),
        d3.wf(),
        d3.num_nodes() == d2.num_nodes(),
        content_stable(d2, d3),
        detached(d3, olds.nodes()),
        parents_frame(d2, d3, olds.nodes()),
        forall|e: usize|
            d2.is_valid(e) ==> #[trigger] d3.children_of(e) == without(
                d2.children_of(e),
                olds.nodes(),
            ),
        olds.wf(d3),
    ensures
        news.wf(d3),
        content_stable(d1, d3),
        rnodes(d3, news.live()) == rnodes(d1, news.live()),
        detached(d3, olds.nodes()),
        replaced_in_place(d1, d3, olds.live(), news.live()),
        replaced_in_place(d0, d3, olds.live(), news.live()),
{
    olds.wf_facts(d1);
    news.wf_facts(d1);
    let anchor = olds.live()[0];
    let p = d1.parent_of(anchor)->0;
    assert(olds.nodes().contains(anchor));
    assert(content_stable(d1, d3)) by {
        assert forall|n: usize| d1.is_valid(n) implies (#[trigger] d3.kind_of(n)) == d1.kind_of(n)
            && d3.text_of(n) == d1.text_of(n) by {
            assert(d2.kind_of(n) == d1.kind_of(n));
            assert(d2.text_of(n) == d1.text_of(n));
        }
    }
    assert(rnodes(d3, news.live()) == rnodes(d1, news.live())) by {
        assert forall|i: int| 0 <= i < news.live().len() implies d1.is_valid(
            #[trigger] news.live()[i],
        ) && d3.is_valid(news.live()[i]) && d3.kind_of(news.live()[i]) == d1.kind_of(
            news.live()[i],
        ) && d3.text_of(news.live()[i]) == d1.text_of(news.live()[i]) by {
            assert(news.nodes().contains(news.live()[i]));
            let w = choose|w: int|
                0 <= w < news.nodes().len() && news.nodes()[w] == news.live()[i];
            assert(d1.is_valid(news.nodes()[w]));
        }
        lemma_rnodes_stable(d1, d3, news.live());
    }
    assert(news.wf(d3)) by {
        news.wf_facts(d2);
        assert(agree_on(d2, d3, news.nodes())) by {
            assert forall|i: int| 0 <= i < news.nodes().len() implies {
                let n = #[trigger] news.nodes()[i];
                &&& d2.is_valid(n)
                &&& d3.is_valid(n)
                &&& d3.kind_of(n) == d2.kind_of(n)
                &&& d3.text_of(n) == d2.text_of(n)
                &&& d3.parent_of(n) == d2.parent_of(n)
            } by {
                let n = news.nodes()[i];
                assert(!olds.nodes().contains(n));
            }
        }
        news.wf_frame(d2, d3);
    }
    assert(replaced_in_place(d1, d3, olds.live(), news.live())) by {
        assert forall|n: usize| olds.nodes().contains(n) implies olds.live().contains(n)
            || d1.parent_of(n) is None by {
            let w = choose|w: int| 0 <= w < olds.nodes().len() && olds.nodes()[w] == n;
            assert(olds.live().contains(olds.nodes()[w]) || d1.parent_of(olds.nodes()[w]) is None);
        }
        assert forall|j: int| 0 <= j < news.live().len() implies !olds.nodes().contains(
            #[trigger] news.live()[j],
        ) by {
            assert(news.nodes().contains(news.live()[j]));
            let w = choose|w: int|
                0 <= w < news.nodes().len() && news.nodes()[w] == news.live()[j];
            assert(!olds.nodes().contains(news.nodes()[w]));
        }
        assert(d1.is_valid(p));
        lemma_splice_replaces(d1, d2, d3, olds.nodes(), olds.live(), news.live());
    }
    assert(replaced_in_place(d0, d3, olds.live(), news.live())) by {
        assert forall|q: usize, i: int|
            olds.live().len() > 0 && d0.parent_of(olds.live()[0]) == Some(q)
                && #[trigger] segment_at(d0.children_of(q), olds.live(), i) implies
            d3.children_of(q) == d0.children_of(q).take(i) + news.live() + d0.children_of(q).skip(
            i + olds.live().len(),
        ) by {
            assert(q == p);
            assert(d0.is_valid(p)) by {
                assert(d0.parent_of(anchor) is Some);
            }
            assert(node_unchanged(d0, d1, p));
            assert(d1.children_of(p) == d0.children_of(p));
            assert(d1.parent_of(olds.live()[0]) == Some(p));
            assert(segment_at(d1.children_of(p), olds.live(), i));
        }
    }
}

/// An in-place rebuild of one branch leaves any disjoint bystander state
/// exactly as it was: well formed, with its content and parents intact —
/// so a detached bystander stays detached and an attached anchor keeps
/// its parent — and disjoint from the rebuilt branch's new footprint.
pub proof fn lemma_keep_alive_patch<SBy: Mountable, SShown: Mountable>(
    d1: Dom,
    d2: Dom,
    bystander: Option<SBy>,
    sold: SShown,
    snew: SShown,
)
    requires
        d1.wf(),
        d2.wf(),
        d2.num_nodes() >= d1.num_nodes(),
        bystander matches Some(h) ==> h.wf(d1),
        bystander matches Some(h) ==> forall|i: int|
            0 <= i < h.nodes().len() ==> !sold.nodes().contains(#[trigger] h.nodes()[i]),
        sold.wf(d1),
        snew.wf(d2),
        kinds_stable(d1, d2),
        texts_frame(d1, d2, sold.nodes()),
        parents_frame(d1, d2, sold.nodes()),
        forall|i: int|
            0 <= i < snew.nodes().len() ==> sold.nodes().contains(#[trigger] snew.nodes()[i])
                || snew.nodes()[i] >= d1.num_nodes(),
    ensures
        bystander matches Some(h) ==> ({
            &&& h.wf(d2)
            &&& agree_on(d1, d2, h.nodes())
            &&& rnodes(d2, h.live()) == rnodes(d1, h.live())
            &&& (detached(d1, h.nodes()) ==> detached(d2, h.nodes()))
            &&& (h.live().len() > 0 ==> d2.parent_of(h.live()[0]) == d1.parent_of(h.live()[0]))
            &&& forall|i: int|
                0 <= i < snew.nodes().len() ==> !h.nodes().contains(#[trigger] snew.nodes()[i])
        }),
{
    match bystander {
        Some(h) => {
            h.wf_facts(d1);
            assert(agree_on(d1, d2, h.nodes())) by {
                assert forall|i: int| 0 <= i < h.nodes().len() implies {
                    let n = #[trigger] h.nodes()[i];
                    &&& d1.is_valid(n)
                    &&& d2.is_valid(n)
                    &&& d2.kind_of(n) == d1.kind_of(n)
                    &&& d2.text_of(n) == d1.text_of(n)
                    &&& d2.parent_of(n) == d1.parent_of(n)
                } by {
                    let n = h.nodes()[i];
                    assert(!sold.nodes().contains(n));
                }
            }
            h.wf_frame(d1, d2);
            assert(rnodes(d2, h.live()) == rnodes(d1, h.live())) by {
                assert forall|i: int| 0 <= i < h.live().len() implies d1.is_valid(
                    #[trigger] h.live()[i],
                ) && d2.is_valid(h.live()[i]) && d2.kind_of(h.live()[i]) == d1.kind_of(
                    h.live()[i],
                ) && d2.text_of(h.live()[i]) == d1.text_of(h.live()[i]) by {
                    assert(h.nodes().contains(h.live()[i]));
                    let w = choose|w: int|
                        0 <= w < h.nodes().len() && h.nodes()[w] == h.live()[i];
                    assert(d1.is_valid(h.nodes()[w]));
                    assert(d2.kind_of(h.nodes()[w]) == d1.kind_of(h.nodes()[w]));
                    assert(d2.text_of(h.nodes()[w]) == d1.text_of(h.nodes()[w]));
                }
                lemma_rnodes_stable(d1, d2, h.live());
            }
            if detached(d1, h.nodes()) {
                assert forall|i: int| 0 <= i < h.nodes().len() implies d2.parent_of(
                    #[trigger] h.nodes()[i],
                ) is None by {
                    assert(d1.parent_of(h.nodes()[i]) is None);
                }
            }
            if h.live().len() > 0 {
                assert(h.nodes().contains(h.live()[0]));
                let w = choose|w: int| 0 <= w < h.nodes().len() && h.nodes()[w] == h.live()[0];
                assert(d2.parent_of(h.nodes()[w]) == d1.parent_of(h.nodes()[w]));
            }
            assert forall|i: int| 0 <= i < snew.nodes().len() implies !h.nodes().contains(
                #[trigger] snew.nodes()[i],
            ) by {
                if h.nodes().contains(snew.nodes()[i]) {
                    let w = choose|w: int|
                        0 <= w < h.nodes().len() && h.nodes()[w] == snew.nodes()[i];
                    assert(d1.is_valid(h.nodes()[w]));
                    assert(!sold.nodes().contains(h.nodes()[w]));
                    assert(snew.nodes()[i] >= d1.num_nodes());
                }
            }
        },
        None => {},
    }
}

} // verus!
