//! The build/rebuild and mount/unmount contracts.
//!
//! `Render` is the capability of a view value: `build` turns it into
//! retained state (creating backend nodes, but mounting none of them), and
//! `rebuild` consumes a new view value of the same static shape and updates
//! existing retained state in place.  `Mountable` is the capability of
//! retained state: detach from the tree, attach under a parent before a
//! marker, and name the anchor node before which a sibling can be spliced.
//!
//! The contracts here are what every implementation promises.  A rebuild
//! leaves every node outside the state's own footprint untouched, and when
//! the new view value equals what the state already shows (`no_change`),
//! it performs no backend mutation at all.

use crate::context::{cx_frame, Cx};
use crate::dom::{
    agree_on, appends, content_stable, detached, fresh_nodes, insert_before_marker, kinds_stable,
    lemma_rnodes_stable, lemma_splice_replaces, node_unchanged, parents_frame, replaced_in_place,
    rnodes, segment_at, texts_frame, unmount_single, valid_all, without, Dom, NodeKind, RNode,
};
use vstd::prelude::*;

verus! {

/// The retained-state capability: state that owns backend nodes and can be
/// attached to and detached from the tree.
///
/// `nodes` is the state's whole footprint; `live` is the part it presents
/// (for most states the two coincide; a keep-alive choice also owns the
/// hidden side's nodes).  Splicing a sibling immediately before this state
/// goes through `first_node`, which names the anchor: see
/// [`insert_before_this`].
pub trait Mountable: Sized {
    /// Every node this state owns, in presentation order.
    spec fn nodes(self) -> Seq<usize>;

    /// The nodes this state presents: what mount attaches and unmount
    /// detaches.
    spec fn live(self) -> Seq<usize>;

    /// The state's structural invariant against the backend.
    spec fn wf(self, dom: Dom) -> bool;

    /// Well-formedness depends only on the state's own nodes.
    proof fn wf_frame(self, d1: Dom, d2: Dom)
        requires
            self.wf(d1),
            agree_on(d1, d2, self.nodes()),
        ensures
            self.wf(d2),
    ;

    /// What well-formedness guarantees about the footprint.
    proof fn wf_facts(self, dom: Dom)
        requires
            self.wf(dom),
        ensures
            valid_all(dom, self.nodes()),
            self.nodes().no_duplicates(),
            forall|i: int|
                0 <= i < self.nodes().len() ==> dom.kind_of(#[trigger] self.nodes()[i])
                    != NodeKind::Element,
            forall|i: int|
                0 <= i < self.live().len() ==> self.nodes().contains(#[trigger] self.live()[i]),
            self.live().no_duplicates(),
            self.live().len() > 0,
            forall|i: int|
                0 <= i < self.nodes().len() ==> self.live().contains(#[trigger] self.nodes()[i])
                    || dom.parent_of(self.nodes()[i]) is None,
    ;

    /// Detaches the presented nodes from the tree.
    fn unmount(&self, dom: &mut Dom)
        requires
            old(dom).wf(),
            self.wf(*old(dom)),
        ensures
            final(dom).wf(),
            final(dom).num_nodes() == old(dom).num_nodes(),
            content_stable(*old(dom), *final(dom)),
            detached(*final(dom), self.nodes()),
            parents_frame(*old(dom), *final(dom), self.nodes()),
            forall|e: usize|
                old(dom).is_valid(e) ==> final(dom).children_of(e) == without(
                    old(dom).children_of(e),
                    self.nodes(),
                ),
            self.wf(*final(dom)),
            final(dom).mutations >= old(dom).mutations,
    ;

    /// Attaches the presented nodes under `parent`, in order, immediately
    /// before `marker` (or at the end, with no marker).
    fn mount(&self, dom: &mut Dom, parent: usize, marker: Option<usize>)
        requires
            old(dom).wf(),
            self.wf(*old(dom)),
            detached(*old(dom), self.nodes()),
            old(dom).is_element(parent),
            marker matches Some(m) ==> old(dom).children_of(parent).contains(m),
        ensures
            final(dom).wf(),
            final(dom).num_nodes() == old(dom).num_nodes(),
            content_stable(*old(dom), *final(dom)),
            final(dom).children_of(parent) == insert_before_marker(
                old(dom).children_of(parent),
                self.live(),
                marker,
            ),
            forall|e: usize|
                old(dom).is_valid(e) && e != parent ==> final(dom).children_of(e) == old(
                    dom,
                ).children_of(e),
            forall|i: int|
                0 <= i < self.live().len() ==> final(dom).parent_of(
                    #[trigger] self.live()[i],
                ) == Some(parent),
            parents_frame(*old(dom), *final(dom), self.live()),
            self.wf(*final(dom)),
            final(dom).mutations >= old(dom).mutations,
    ;

    /// The anchor node: the first presented node.
    fn first_node(&self) -> (r: Option<usize>)
        ensures
            r == (if self.live().len() > 0 {
                Some(self.live()[0])
            } else {
                None::<usize>
            }),
    ;
}

/// The build/rebuild capability of a view value.
pub trait Render: Sized {
    /// The retained state this view type produces and updates.
    type State: Mountable;

    /// The content this view value asks to be displayed.
    spec fn target(self) -> Seq<RNode>;

    /// A sufficient condition for rebuild to be a guaranteed no-op:
    /// the state already shows exactly this value.
    spec fn no_change(self, state: Self::State) -> bool;

    /// When building this value leaves the ambient scope untouched
    /// (it registers no error and schedules nothing).
    spec fn builds_clean(self) -> bool;

    /// When rebuilding this value over this state registers and clears
    /// nothing: no success/error transition is crossed anywhere in the
    /// subtree.  Shapes that cannot say so keep the trivial default, which
    /// promises nothing.
    open spec fn rebuilds_clean(self, state: Self::State) -> bool {
        false
    }

    /// What rebuild needs of the state beyond well-formedness: the same
    /// static shape, and, where a splice may occur, an attached anchor.
    spec fn rebuild_req(self, state: Self::State, dom: Dom) -> bool;

    /// The rebuild precondition depends only on the state's own nodes.
    proof fn rebuild_req_frame(self, state: Self::State, d1: Dom, d2: Dom)
        requires
            self.rebuild_req(state, d1),
            state.wf(d1),
            agree_on(d1, d2, state.nodes()),
        ensures
            self.rebuild_req(state, d2),
    ;

    /// Creates the retained state for this view value.  New backend nodes
    /// are created, none mounted; nothing existing is touched.
    fn build(self, dom: &mut Dom, cx: &mut Cx) -> (state: Self::State)
        requires
            old(dom).wf(),
        ensures
            final(dom).wf(),
            appends(*old(dom), *final(dom)),
            state.wf(*final(dom)),
            fresh_nodes(*old(dom), state.nodes()),
            detached(*final(dom), state.nodes()),
            rnodes(*final(dom), state.live()) == self.target(),
            cx_frame(*old(cx), *final(cx)),
            self.builds_clean() ==> *final(cx) == *old(cx),
            final(dom).mutations >= old(dom).mutations,
    ;

    /// Updates existing retained state in place from this view value.
    /// Afterwards the state presents exactly this value's target; nodes
    /// outside the state's old footprint keep their text and parent, and
    /// when nothing changed, nothing is touched.
    fn rebuild(self, state: &mut Self::State, dom: &mut Dom, cx: &mut Cx)
        requires
            old(dom).wf(),
            old(state).wf(*old(dom)),
            self.rebuild_req(*old(state), *old(dom)),
        ensures
            final(dom).wf(),
            final(state).wf(*final(dom)),
            final(dom).num_nodes() >= old(dom).num_nodes(),
            kinds_stable(*old(dom), *final(dom)),
            rnodes(*final(dom), final(state).live()) == self.target(),
            texts_frame(*old(dom), *final(dom), old(state).nodes()),
            parents_frame(*old(dom), *final(dom), old(state).nodes()),
            forall|i: int|
                0 <= i < final(state).nodes().len() ==> old(state).nodes().contains(
                    #[trigger] final(state).nodes()[i],
                ) || final(state).nodes()[i] >= old(dom).num_nodes(),
            detached(*old(dom), old(state).nodes()) ==> detached(
                *final(dom),
                final(state).nodes(),
            ),
            self.no_change(*old(state)) ==> *final(dom) == *old(dom) && *final(cx) == *old(cx)
                && final(state).nodes() == old(state).nodes() && final(state).live() == old(
                state,
            ).live(),
            self.rebuilds_clean(*old(state)) ==> final(cx).events@ == old(cx).events@,
            cx_frame(*old(cx), *final(cx)),
    ;
}

/// Retained state for the unit view: one invisible placeholder node.
pub struct PlaceholderState {
    /// The placeholder node.
    pub node: usize,
}

impl Mountable for PlaceholderState {
    open spec fn nodes(self) -> Seq<usize> {
        seq![self.node]
    }

    open spec fn live(self) -> Seq<usize> {
        seq![self.node]
    }

    open spec fn wf(self, dom: Dom) -> bool {
        dom.is_placeholder(self.node)
    }

    proof fn wf_frame(self, d1: Dom, d2: Dom) {
        assert(self.nodes()[0] == self.node);
    }

    proof fn wf_facts(self, dom: Dom) {
        assert(self.nodes()[0] == self.node);
        assert(self.live()[0] == self.node);
        assert(self.live().contains(self.node));
    }

    fn unmount(&self, dom: &mut Dom) {
        let ghost d1 = *old(dom);
        proof {
            assert(self.nodes()[0] == self.node);
        }
        dom.remove(self.node);
        proof {
            unmount_single(d1, *dom, self.node, self.nodes());
        }
    }

    fn mount(&self, dom: &mut Dom, parent: usize, marker: Option<usize>) {
        proof {
            assert(self.nodes()[0] == self.node);
            assert(self.node != parent);
        }
        dom.insert_node(parent, self.node, marker);
        proof {
            assert(self.live() =~= seq![self.node]);
            assert forall|i: int| 0 <= i < self.live().len() implies dom.parent_of(
                #[trigger] self.live()[i],
            ) == Some(parent) by {
                assert(self.live()[i] == self.node);
            }
        }
    }

    fn first_node(&self) -> (r: Option<usize>) {
        proof {
            assert(self.live()[0] == self.node);
        }
        Some(self.node)
    }
}

impl Render for () {
    type State = PlaceholderState;

    open spec fn target(self) -> Seq<RNode> {
        seq![RNode::Hole]
    }

    open spec fn no_change(self, state: PlaceholderState) -> bool {
        true
    }

    open spec fn builds_clean(self) -> bool {
        true
    }

    open spec fn rebuilds_clean(self, state: PlaceholderState) -> bool {
        true
    }

    open spec fn rebuild_req(self, state: PlaceholderState, dom: Dom) -> bool {
        true
    }

    proof fn rebuild_req_frame(self, state: PlaceholderState, d1: Dom, d2: Dom) {
    }

    fn build(self, dom: &mut Dom, cx: &mut Cx) -> (state: PlaceholderState) {
        let node = dom.create_placeholder();
        let state = PlaceholderState { node };
        proof {
            assert(state.nodes() =~= seq![node]);
            assert(rnodes(*dom, state.live()) =~= self.target());
        }
        state
    }

    fn rebuild(self, state: &mut PlaceholderState, dom: &mut Dom, cx: &mut Cx) {
        proof {
            assert(state.live()[0] == state.node);
            assert(rnodes(*dom, state.live()) =~= self.target());
        }
    }
}

/// Indicates where a node should be mounted relative to its parent.
pub enum MountKind {
    /// The node should be mounted before this marker node.
    Before(usize),
    /// The node should be appended to the parent's children.
    Append,
}

/// The position of a node relative to its siblings, kept while a tree is
/// walked against existing output.
#[derive(Debug, Clone, Copy, PartialEq, Eq, Structural, Default)]
pub enum Position {
    /// This is the current node.
    Current,
    /// This is the first child of its parent.
    #[default]
    FirstChild,
    /// This is the next child after another child.
    NextChild,
    /// This is the next child after a text node.
    NextChildAfterText,
    /// This is the only child of its parent.
    OnlyChild,
    /// This is the last child of its parent.
    LastChild,
}

/// Splices `child`'s presented nodes immediately before `this`'s anchor
/// node, in the anchor's parent.  Returns `false` — and touches nothing —
/// only when `this` has no presented nodes.
pub fn insert_before_this<S: Mountable, M: Mountable>(this: &S, dom: &mut Dom, child: &M) -> (r:
    bool)
    requires
        old(dom).wf(),
        this.wf(*old(dom)),
        child.wf(*old(dom)),
        detached(*old(dom), child.nodes()),
        this.live().len() > 0 ==> old(dom).parent_of(this.live()[0]) is Some,
        forall|i: int|
            0 <= i < child.nodes().len() ==> !this.nodes().contains(
                #[trigger] child.nodes()[i],
            ),
    ensures
        final(dom).wf(),
        r == (this.live().len() > 0),
        !r ==> *final(dom) == *old(dom),
        final(dom).num_nodes() == old(dom).num_nodes(),
        content_stable(*old(dom), *final(dom)),
        r ==> {
            let anchor = this.live()[0];
            let p = old(dom).parent_of(anchor)->0;
            &&& final(dom).children_of(p) == insert_before_marker(
                old(dom).children_of(p),
                child.live(),
                Some(anchor),
            )
            &&& forall|e: usize|
                old(dom).is_valid(e) && e != p ==> final(dom).children_of(e) == old(
                    dom,
                ).children_of(e)
            &&& forall|i: int|
                0 <= i < child.live().len() ==> final(dom).parent_of(
                    #[trigger] child.live()[i],
                ) == Some(p)
            &&& parents_frame(*old(dom), *final(dom), child.live())
            &&& this.wf(*final(dom))
            &&& child.wf(*final(dom))
        },
        final(dom).mutations >= old(dom).mutations,
{
    let r = this.first_node();
    match r {
        Some(anchor) => {
            proof {
                this.wf_facts(*dom);
                assert(this.live()[0] == anchor);
            }
            let p = dom.get_parent(anchor).unwrap();
            proof {
                assert(dom.is_element(p) && dom.children_of(p).contains(anchor));
            }
            let ghost d1 = *dom;
            child.mount(dom, p, Some(anchor));
            proof {
                assert(agree_on(d1, *dom, this.nodes())) by {
                    assert forall|i: int| 0 <= i < this.nodes().len() implies {
                        let n = #[trigger] this.nodes()[i];
                        &&& d1.is_valid(n)
                        &&& dom.is_valid(n)
                        &&& dom.kind_of(n) == d1.kind_of(n)
                        &&& dom.text_of(n) == d1.text_of(n)
                        &&& dom.parent_of(n) == d1.parent_of(n)
                    } by {
                        let n = this.nodes()[i];
                        assert(!child.live().contains(n)) by {
                            if child.live().contains(n) {
                                let w = choose|w: int|
                                    0 <= w < child.live().len() && child.live()[w] == n;
                                child.wf_facts(d1);
                                assert(child.nodes().contains(child.live()[w]));
                                let v = choose|v: int|
                                    0 <= v < child.nodes().len() && child.nodes()[v] == n;
                                assert(this.nodes().contains(n));
                            }
                        }
                    }
                }
                this.wf_frame(d1, *dom);
            }
            true
        },
        None => false,
    }
}

/// Splices `child` before `this`'s anchor, or mounts it before `marker`
/// under `parent` when `this` presents nothing.
///
/// The fallback arm is kept for callers that track their own anchor, but
/// it can never be taken by a well-formed state of this crate: every such
/// state presents at least one node, so `this.live()` is never empty.
pub fn insert_before_this_or_marker<S: Mountable, M: Mountable>(
    this: &S,
    dom: &mut Dom,
    child: &M,
    parent: usize,
    marker: Option<usize>,
)
    requires
        old(dom).wf(),
        this.wf(*old(dom)),
        child.wf(*old(dom)),
        detached(*old(dom), child.nodes()),
        this.live().len() > 0 ==> old(dom).parent_of(this.live()[0]) is Some,
        forall|i: int|
            0 <= i < child.nodes().len() ==> !this.nodes().contains(
                #[trigger] child.nodes()[i],
            ),
        old(dom).is_element(parent),
        marker matches Some(m) ==> old(dom).children_of(parent).contains(m),
    ensures
        final(dom).wf(),
        final(dom).num_nodes() == old(dom).num_nodes(),
        content_stable(*old(dom), *final(dom)),
        child.wf(*final(dom)),
        this.wf(*final(dom)),
        this.live().len() > 0 ==> ({
            let anchor = this.live()[0];
            let p = old(dom).parent_of(anchor)->0;
            &&& final(dom).children_of(p) == insert_before_marker(
                old(dom).children_of(p),
                child.live(),
                Some(anchor),
            )
            &&& forall|e: usize|
                old(dom).is_valid(e) && e != p ==> final(dom).children_of(e) == old(
                    dom,
                ).children_of(e)
            &&& forall|i: int|
                0 <= i < child.live().len() ==> final(dom).parent_of(
                    #[trigger] child.live()[i],
                ) == Some(p)
            &&& parents_frame(*old(dom), *final(dom), child.live())
        }),
        this.live().len() == 0 ==> ({
            &&& final(dom).children_of(parent) == insert_before_marker(
                old(dom).children_of(parent),
                child.live(),
                marker,
            )
            &&& forall|e: usize|
                old(dom).is_valid(e) && e != parent ==> final(dom).children_of(e) == old(
                    dom,
                ).children_of(e)
            &&& forall|i: int|
                0 <= i < child.live().len() ==> final(dom).parent_of(
                    #[trigger] child.live()[i],
                ) == Some(parent)
            &&& parents_frame(*old(dom), *final(dom), child.live())
        }),
        final(dom).mutations >= old(dom).mutations,
{
    let ghost d1 = *old(dom);
    if !insert_before_this(this, dom, child) {
        child.mount(dom, parent, marker);
        proof {
            this.wf_facts(d1);
            child.wf_facts(d1);
            assert(agree_on(d1, *dom, this.nodes())) by {
                assert forall|i: int| 0 <= i < this.nodes().len() implies {
                    let n = #[trigger] this.nodes()[i];
                    &&& d1.is_valid(n)
                    &&& dom.is_valid(n)
                    &&& dom.kind_of(n) == d1.kind_of(n)
                    &&& dom.text_of(n) == d1.text_of(n)
                    &&& dom.parent_of(n) == d1.parent_of(n)
                } by {
                    let n = this.nodes()[i];
                    assert(!child.live().contains(n)) by {
                        if child.live().contains(n) {
                            let w = choose|w: int|
                                0 <= w < child.live().len() && child.live()[w] == n;
                            assert(child.nodes().contains(child.live()[w]));
                            let v = choose|v: int|
                                0 <= v < child.nodes().len() && child.nodes()[v] == n;
                            assert(this.nodes().contains(n));
                        }
                    }
                }
            }
            this.wf_frame(d1, *dom);
        }
    }
}

/// Mounts `child`'s presented nodes immediately before the attached node
/// `before`, as its sibling.
pub fn mount_before<M: Mountable>(child: &M, dom: &mut Dom, before: usize)
    requires
        old(dom).wf(),
        child.wf(*old(dom)),
        detached(*old(dom), child.nodes()),
        old(dom).is_valid(before),
        old(dom).parent_of(before) is Some,
    ensures
        final(dom).wf(),
        final(dom).num_nodes() == old(dom).num_nodes(),
        content_stable(*old(dom), *final(dom)),
        ({
            let p = old(dom).parent_of(before)->0;
            &&& final(dom).children_of(p) == insert_before_marker(
                old(dom).children_of(p),
                child.live(),
                Some(before),
            )
            &&& forall|e: usize|
                old(dom).is_valid(e) && e != p ==> final(dom).children_of(e) == old(
                    dom,
                ).children_of(e)
            &&& forall|i: int|
                0 <= i < child.live().len() ==> final(dom).parent_of(
                    #[trigger] child.live()[i],
                ) == Some(p)
            &&& parents_frame(*old(dom), *final(dom), child.live())
            &&& child.wf(*final(dom))
        }),
        final(dom).mutations >= old(dom).mutations,
{
    let p = dom.get_parent(before).unwrap();
    proof {
        assert(dom.is_element(p) && dom.children_of(p).contains(before));
    }
    child.mount(dom, p, Some(before));
}


/// After a build appends fresh nodes, the side that was already in the
/// tree is untouched: its nodes agree with before, it stays well formed,
/// its anchor keeps its parent, and the fresh nodes are disjoint from its
/// footprint.  Every combinator that replaces one side by another uses
/// this between building the new side and splicing it in.
pub proof fn lemma_fresh_after_build<SOld: Mountable, SNew: Mountable>(
    d1: Dom,
    d2: Dom,
    olds: SOld,
    news: SNew,
)
    requires
        d1.wf(),
        olds.wf(d1),
        appends(d1, d2),
        fresh_nodes(d1, news.nodes()),
    ensures
        agree_on(d1, d2, olds.nodes()),
        olds.wf(d2),
        olds.live().len() > 0 ==> d2.parent_of(olds.live()[0]) == d1.parent_of(olds.live()[0]),
        forall|i: int|
            0 <= i < news.nodes().len() ==> !olds.nodes().contains(#[trigger] news.nodes()[i]),
{
    olds.wf_facts(d1);
    assert(agree_on(d1, d2, olds.nodes())) by {
        assert forall|i: int| 0 <= i < olds.nodes().len() implies {
            let n = #[trigger] olds.nodes()[i];
            &&& d1.is_valid(n)
            &&& d2.is_valid(n)
            &&& d2.kind_of(n) == d1.kind_of(n)
            &&& d2.text_of(n) == d1.text_of(n)
            &&& d2.parent_of(n) == d1.parent_of(n)
        } by {
            assert(node_unchanged(d1, d2, olds.nodes()[i]));
        }
    }
    olds.wf_frame(d1, d2);
    if olds.live().len() > 0 {
        assert(olds.nodes().contains(olds.live()[0]));
        let w = choose|w: int| 0 <= w < olds.nodes().len() && olds.nodes()[w] == olds.live()[0];
        assert(d2.parent_of(olds.nodes()[w]) == d1.parent_of(olds.nodes()[w]));
    }
    assert forall|i: int| 0 <= i < news.nodes().len() implies !olds.nodes().contains(
        #[trigger] news.nodes()[i],
    ) by {
        if olds.nodes().contains(news.nodes()[i]) {
            let v = choose|v: int|
                0 <= v < olds.nodes().len() && olds.nodes()[v] == news.nodes()[i];
            assert(d1.is_valid(olds.nodes()[v]));
            assert(news.nodes()[i] >= d1.num_nodes());
        }
    }
}

/// The variant-switch discipline, proved once for every combinator that
/// replaces one side by another: after building the new side (`d1` to
/// `d2`), splicing it immediately before the old side's anchor (`d2` to
/// `d3`) and unmounting the old side (`d3` to `d4`), the new state is
/// well-formed, keeps the content it was built with, and stands exactly
/// where the old side stood, while everything outside the old footprint
/// is untouched.
pub proof fn lemma_switch<SOld: Mountable, SNew: Mountable>(
    d1: Dom,
    d2: Dom,
    d3: Dom,
    d4: Dom,
    olds: SOld,
    news: SNew,
)
    requires
        d1.wf(),
        olds.wf(d1),
        olds.live().len() > 0,
        d1.parent_of(olds.live()[0]) is Some,
        d2.wf(),
        appends(d1, d2),
        news.wf(d2),
        fresh_nodes(d1, news.nodes()),
        detached(d2, news.nodes()),
        d3.wf(),
        d3.num_nodes() == d2.num_nodes(),
        content_stable(d2, d3),
        ({
            let anchor = olds.live()[0];
            let p = d2.parent_of(anchor)->0;
            &&& d3.children_of(p) == insert_before_marker(
                d2.children_of(p),
                news.live(),
                Some(anchor),
            )
            &&& forall|e: usize|
                d2.is_valid(e) && e != p ==> d3.children_of(e) == d2.children_of(e)
            &&& parents_frame(d2, d3, news.live())
            &&& news.wf(d3)
            &&& olds.wf(d3)
        }),
        d4.wf(),
        d4.num_nodes() == d3.num_nodes(),
        content_stable(d3, d4),
        detached(d4, olds.nodes()),
        parents_frame(d3, d4, olds.nodes()),
        forall|e: usize|
            d3.is_valid(e) ==> #[trigger] d4.children_of(e) == without(
                d3.children_of(e),
                olds.nodes(),
            ),
        olds.wf(d4),
    ensures
        news.wf(d4),
        kinds_stable(d1, d4),
        content_stable(d1, d4),
        rnodes(d4, news.live()) == rnodes(d2, news.live()),
        texts_frame(d1, d4, olds.nodes()),
        parents_frame(d1, d4, olds.nodes()),
        replaced_in_place(d1, d4, olds.live(), news.live()),
        fresh_nodes(d1, news.nodes()),
        detached(d4, olds.nodes()),
{
    olds.wf_facts(d1);
    news.wf_facts(d2);
    assert(agree_on(d1, d2, olds.nodes())) by {
        assert forall|i: int| 0 <= i < olds.nodes().len() implies {
            let n = #[trigger] olds.nodes()[i];
            &&& d1.is_valid(n)
            &&& d2.is_valid(n)
            &&& d2.kind_of(n) == d1.kind_of(n)
            &&& d2.text_of(n) == d1.text_of(n)
            &&& d2.parent_of(n) == d1.parent_of(n)
        } by {
            assert(node_unchanged(d1, d2, olds.nodes()[i]));
        }
    }
    olds.wf_frame(d1, d2);
    let anchor = olds.live()[0];
    let p = d1.parent_of(anchor)->0;
    assert(olds.nodes().contains(anchor)) by {
        assert(olds.live()[0] == anchor);
    }
    let ai = choose|ai: int| 0 <= ai < olds.nodes().len() && olds.nodes()[ai] == anchor;
    assert(d1.is_valid(anchor));
    assert(node_unchanged(d1, d2, anchor));
    assert(d2.parent_of(anchor) == Some(p));
    // content is never edited along the way
    assert(content_stable(d1, d4)) by {
        assert forall|n: usize| d1.is_valid(n) implies (#[trigger] d4.kind_of(n)) == d1.kind_of(n)
            && d4.text_of(n) == d1.text_of(n) by {
            assert(node_unchanged(d1, d2, n));
            assert(d2.kind_of(n) == d1.kind_of(n));
        }
    }
    assert(kinds_stable(d1, d4)) by {
        assert forall|n: usize| d1.is_valid(n) implies (#[trigger] d4.kind_of(n)) == d1.kind_of(
            n,
        ) by {
            assert(node_unchanged(d1, d2, n));
        }
    }
    // the new side keeps the content it was built with
    assert(rnodes(d4, news.live()) == rnodes(d2, news.live())) by {
        assert forall|i: int| 0 <= i < news.live().len() implies d2.is_valid(
            #[trigger] news.live()[i],
        ) && d4.is_valid(news.live()[i]) && d4.kind_of(news.live()[i]) == d2.kind_of(
            news.live()[i],
        ) && d4.text_of(news.live()[i]) == d2.text_of(news.live()[i]) by {
            assert(news.nodes().contains(news.live()[i]));
            let w = choose|w: int|
                0 <= w < news.nodes().len() && news.nodes()[w] == news.live()[i];
            assert(d2.is_valid(news.nodes()[w]));
        }
        lemma_rnodes_stable(d2, d4, news.live());
    }
    // disjointness of the two footprints
    assert forall|j: int| 0 <= j < news.nodes().len() implies !olds.nodes().contains(
        #[trigger] news.nodes()[j],
    ) by {
        if olds.nodes().contains(news.nodes()[j]) {
            let w = choose|w: int|
                0 <= w < olds.nodes().len() && olds.nodes()[w] == news.nodes()[j];
            assert(d1.is_valid(olds.nodes()[w]));
            assert(news.nodes()[j] >= d1.num_nodes());
        }
    }
    // frames over the old footprint
    assert(texts_frame(d1, d4, olds.nodes())) by {
        assert forall|n: usize| d1.is_valid(n) && !olds.nodes().contains(n) implies
            #[trigger] d4.text_of(n) == d1.text_of(n) by {
            assert(node_unchanged(d1, d2, n));
            assert(d4.kind_of(n) == d3.kind_of(n));
            assert(d3.kind_of(n) == d2.kind_of(n));
        }
    }
    assert(parents_frame(d1, d4, olds.nodes())) by {
        assert forall|n: usize| d1.is_valid(n) && !olds.nodes().contains(n) implies
            #[trigger] d4.parent_of(n) == d1.parent_of(n) by {
            assert(node_unchanged(d1, d2, n));
            assert(d2.parent_of(n) == d1.parent_of(n));
            assert(!news.live().contains(n)) by {
                if news.live().contains(n) {
                    let w = choose|w: int|
                        0 <= w < news.live().len() && news.live()[w] == n;
                    assert(news.nodes().contains(news.live()[w]));
                    let v = choose|v: int|
                        0 <= v < news.nodes().len() && news.nodes()[v] == n;
                    assert(news.nodes()[v] >= d1.num_nodes());
                }
            }
            assert(d3.parent_of(n) == d2.parent_of(n));
        }
    }
    // the new side is well formed at the end
    assert(news.wf(d4)) by {
        news.wf_facts(d3);
        assert(agree_on(d3, d4, news.nodes())) by {
            assert forall|i: int| 0 <= i < news.nodes().len() implies {
                let n = #[trigger] news.nodes()[i];
                &&& d3.is_valid(n)
                &&& d4.is_valid(n)
                &&& d4.kind_of(n) == d3.kind_of(n)
                &&& d4.text_of(n) == d3.text_of(n)
                &&& d4.parent_of(n) == d3.parent_of(n)
            } by {
                let n = news.nodes()[i];
                assert(!olds.nodes().contains(n));
            }
        }
        news.wf_frame(d3, d4);
    }
    // the splice replaces the old nodes in place
    assert(replaced_in_place(d2, d4, olds.live(), news.live())) by {
        olds.wf_facts(d2);
        assert forall|n: usize| olds.nodes().contains(n) implies olds.live().contains(n)
            || d2.parent_of(n) is None by {
            let w = choose|w: int| 0 <= w < olds.nodes().len() && olds.nodes()[w] == n;
            assert(olds.live().contains(olds.nodes()[w]) || d2.parent_of(olds.nodes()[w]) is None);
        }
        assert forall|j: int| 0 <= j < news.live().len() implies !olds.nodes().contains(
            #[trigger] news.live()[j],
        ) by {
            assert(news.nodes().contains(news.live()[j]));
            let w = choose|w: int|
                0 <= w < news.nodes().len() && news.nodes()[w] == news.live()[j];
            assert(!olds.nodes().contains(news.nodes()[w]));
        }
        assert(d2.is_valid(p));
        lemma_splice_replaces(d2, d3, d4, olds.nodes(), olds.live(), news.live());
    }
    assert(replaced_in_place(d1, d4, olds.live(), news.live())) by {
        assert forall|q: usize, i: int|
            olds.live().len() > 0 && d1.parent_of(olds.live()[0]) == Some(q)
                && #[trigger] segment_at(d1.children_of(q), olds.live(), i) implies
            d4.children_of(q) == d1.children_of(q).take(i) + news.live() + d1.children_of(q).skip(
            i + olds.live().len(),
        ) by {
            assert(q == p);
            assert(node_unchanged(d1, d2, p));
            assert(d2.children_of(p) == d1.children_of(p));
            assert(d2.parent_of(olds.live()[0]) == Some(p));
            assert(segment_at(d2.children_of(p), olds.live(), i));
        }
    }
}

} // verus!
