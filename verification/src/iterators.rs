//! View rendering for optional values and homogeneous lists.
//!
//! An optional value is a two-way choice between the child and a
//! zero-footprint placeholder.  A list retains one state per element plus a
//! trailing placeholder marker used as a stable append anchor; its rebuild
//! performs a positional, unkeyed diff: elements present at the same index
//! on both sides are rebuilt in place, extra new elements are built and
//! mounted before the marker in order, and extra old elements are unmounted
//! from the tail.

use crate::context::{cx_frame, lemma_cx_frame_refl, lemma_cx_frame_trans, Cx};
use crate::dom::{
    agree_on, appends, content_stable, detached, fresh_nodes, insert_before_marker, kinds_stable,
    lemma_ibm_compose, lemma_no_dup_concat, lemma_no_dup_disjoint_join, lemma_no_dup_join,
    lemma_no_dup_replace,
    lemma_rnodes_stable, lemma_segment_extend, lemma_without_compose, lemma_without_id,
    node_unchanged, parents_frame, rnodes, segment_at, texts_frame,
    valid_all, without, Dom, NodeKind, RNode,
};
use crate::dom::unmount_single;
use crate::either::Either;
use crate::view::{mount_before, Mountable, PlaceholderState, Render};
use vstd::prelude::*;

verus! {

/// Retained view state for an `Option`: either the child's state or a
/// placeholder.
pub type OptionState<T> = Either<<T as Render>::State, PlaceholderState>;

/// An option value as the two-way choice it renders as.
pub open spec fn option_as_either<T>(v: Option<T>) -> Either<T, ()> {
    match v {
        Some(value) => Either::Left(value),
        None => Either::Right(()),
    }
}

impl<T: Render> Render for Option<T> {
    type State = OptionState<T>;

    open spec fn target(self) -> Seq<RNode> {
        option_as_either(self).target()
    }

    open spec fn no_change(self, state: OptionState<T>) -> bool {
        option_as_either(self).no_change(state)
    }

    open spec fn builds_clean(self) -> bool {
        option_as_either(self).builds_clean()
    }

    open spec fn rebuilds_clean(self, state: OptionState<T>) -> bool {
        option_as_either(self).rebuilds_clean(state)
    }

    open spec fn rebuild_req(self, state: OptionState<T>, dom: Dom) -> bool {
        option_as_either(self).rebuild_req(state, dom)
    }

    proof fn rebuild_req_frame(self, state: OptionState<T>, d1: Dom, d2: Dom) {
        option_as_either(self).rebuild_req_frame(state, d1, d2);
    }

    fn build(self, dom: &mut Dom, cx: &mut Cx) -> (state: OptionState<T>)
        ensures
            self is Some <==> state is Left,
    {
        match self {
            Some(value) => Either::Left(value),
            None => Either::Right(()),
        }.build(dom, cx)
    }

    fn rebuild(self, state: &mut OptionState<T>, dom: &mut Dom, cx: &mut Cx)
        ensures
            self is Some ==> (*final(state)) is Left,
            self is None ==> (*final(state)) is Right,
    {
        match self {
            Some(value) => Either::Left(value),
            None => Either::Right(()),
        }.rebuild(state, dom, cx)
    }
}

/// The nodes owned by a sequence of states, in order.
pub open spec fn states_nodes<T: Mountable>(ss: Seq<T>) -> Seq<usize>
    decreases ss.len(),
{
    if ss.len() == 0 {
        Seq::empty()
    } else {
        ss[0].nodes() + states_nodes(ss.drop_first())
    }
}

/// The nodes presented by a sequence of states, in order.
pub open spec fn states_live<T: Mountable>(ss: Seq<T>) -> Seq<usize>
    decreases ss.len(),
{
    if ss.len() == 0 {
        Seq::empty()
    } else {
        ss[0].live() + states_live(ss.drop_first())
    }
}

/// The content a sequence of view values asks to be displayed, in order.
pub open spec fn targets_all<V: Render>(vs: Seq<V>) -> Seq<RNode>
    decreases vs.len(),
{
    if vs.len() == 0 {
        Seq::empty()
    } else {
        vs[0].target() + targets_all(vs.drop_first())
    }
}

/// The owned nodes split at any element boundary.
pub proof fn lemma_states_nodes_split<T: Mountable>(ss: Seq<T>, i: int)
    requires
        0 <= i <= ss.len(),
    ensures
        states_nodes(ss) == states_nodes(ss.take(i)) + states_nodes(ss.skip(i)),
    decreases i,
{
    if i == 0 {
        assert(ss.take(0).len() == 0);
        assert(ss.skip(0) =~= ss);
        assert(states_nodes(ss) =~= states_nodes(ss.take(0)) + states_nodes(ss.skip(0)));
    } else {
        lemma_states_nodes_split(ss.drop_first(), i - 1);
        assert(ss.take(i).drop_first() =~= ss.drop_first().take(i - 1));
        assert(ss.skip(i) =~= ss.drop_first().skip(i - 1));
        assert(ss.take(i).len() > 0);
        assert(states_nodes(ss.take(i)) == ss.take(i)[0].nodes() + states_nodes(
            ss.take(i).drop_first(),
        ));
        assert(ss.take(i)[0] == ss[0]);
        assert(states_nodes(ss) =~= states_nodes(ss.take(i)) + states_nodes(ss.skip(i)));
    }
}

/// The presented nodes split at any element boundary.
pub proof fn lemma_states_live_split<T: Mountable>(ss: Seq<T>, i: int)
    requires
        0 <= i <= ss.len(),
    ensures
        states_live(ss) == states_live(ss.take(i)) + states_live(ss.skip(i)),
    decreases i,
{
    if i == 0 {
        assert(ss.take(0).len() == 0);
        assert(ss.skip(0) =~= ss);
        assert(states_live(ss) =~= states_live(ss.take(0)) + states_live(ss.skip(0)));
    } else {
        lemma_states_live_split(ss.drop_first(), i - 1);
        assert(ss.take(i).drop_first() =~= ss.drop_first().take(i - 1));
        assert(ss.skip(i) =~= ss.drop_first().skip(i - 1));
        assert(ss.take(i).len() > 0);
        assert(states_live(ss.take(i)) == ss.take(i)[0].live() + states_live(
            ss.take(i).drop_first(),
        ));
        assert(ss.take(i)[0] == ss[0]);
        assert(states_live(ss) =~= states_live(ss.take(i)) + states_live(ss.skip(i)));
    }
}

/// The targets split at any element boundary.
pub proof fn lemma_targets_all_split<V: Render>(vs: Seq<V>, i: int)
    requires
        0 <= i <= vs.len(),
    ensures
        targets_all(vs) == targets_all(vs.take(i)) + targets_all(vs.skip(i)),
    decreases i,
{
    if i == 0 {
        assert(vs.take(0).len() == 0);
        assert(vs.skip(0) =~= vs);
        assert(targets_all(vs) =~= targets_all(vs.take(0)) + targets_all(vs.skip(0)));
    } else {
        lemma_targets_all_split(vs.drop_first(), i - 1);
        assert(vs.take(i).drop_first() =~= vs.drop_first().take(i - 1));
        assert(vs.skip(i) =~= vs.drop_first().skip(i - 1));
        assert(vs.take(i).len() > 0);
        assert(targets_all(vs.take(i)) == vs.take(i)[0].target() + targets_all(
            vs.take(i).drop_first(),
        ));
        assert(vs.take(i)[0] == vs[0]);
        assert(targets_all(vs) =~= targets_all(vs.take(i)) + targets_all(vs.skip(i)));
    }
}

/// A node owned by a state sequence is owned by one of its states.
pub proof fn lemma_states_nodes_contains<T: Mountable>(ss: Seq<T>, x: usize)
    ensures
        states_nodes(ss).contains(x) <==> exists|i: int|
            0 <= i < ss.len() && #[trigger] ss[i].nodes().contains(x),
    decreases ss.len(),
{
    if ss.len() > 0 {
        lemma_states_nodes_contains(ss.drop_first(), x);
        if states_nodes(ss).contains(x) {
            let w = choose|w: int| 0 <= w < states_nodes(ss).len() && states_nodes(ss)[w] == x;
            if w < ss[0].nodes().len() {
                assert(ss[0].nodes()[w] == x);
                assert(ss[0].nodes().contains(x));
            } else {
                assert(states_nodes(ss.drop_first())[w - ss[0].nodes().len()] == x);
                assert(states_nodes(ss.drop_first()).contains(x));
                let i = choose|i: int|
                    0 <= i < ss.drop_first().len() && #[trigger] ss.drop_first()[i].nodes(
                    ).contains(x);
                assert(ss[i + 1] == ss.drop_first()[i]);
                assert(ss[i + 1].nodes().contains(x));
            }
        }
        if exists|i: int| 0 <= i < ss.len() && #[trigger] ss[i].nodes().contains(x) {
            let i = choose|i: int| 0 <= i < ss.len() && #[trigger] ss[i].nodes().contains(x);
            if i == 0 {
                let w = choose|w: int| 0 <= w < ss[0].nodes().len() && ss[0].nodes()[w] == x;
                assert(states_nodes(ss)[w] == x);
                assert(states_nodes(ss).contains(x));
            } else {
                assert(ss.drop_first()[i - 1] == ss[i]);
                assert(ss.drop_first()[i - 1].nodes().contains(x));
                assert(states_nodes(ss.drop_first()).contains(x));
                let w = choose|w: int|
                    0 <= w < states_nodes(ss.drop_first()).len() && states_nodes(
                        ss.drop_first(),
                    )[w] == x;
                assert(states_nodes(ss)[ss[0].nodes().len() + w] == x);
                assert(states_nodes(ss).contains(x));
            }
        }
    }
}

/// When every state presents its matching value's content, the sequence
/// presents the concatenation.
pub proof fn lemma_list_rendered<V: Render>(d: Dom, ss: Seq<V::State>, vs: Seq<V>)
    requires
        ss.len() == vs.len(),
        forall|i: int|
            0 <= i < ss.len() ==> rnodes(d, #[trigger] ss[i].live()) == vs[i].target(),
    ensures
        rnodes(d, states_live(ss)) == targets_all(vs),
    decreases ss.len(),
{
    if ss.len() == 0 {
        assert(rnodes(d, states_live(ss)) =~= targets_all(vs));
    } else {
        assert(rnodes(d, ss[0].live()) == vs[0].target());
        assert forall|j: int| 0 <= j < ss.drop_first().len() implies rnodes(
            d,
            #[trigger] ss.drop_first()[j].live(),
        ) == vs.drop_first()[j].target() by {
            assert(ss.drop_first()[j] == ss[j + 1]);
            assert(vs.drop_first()[j] == vs[j + 1]);
        }
        lemma_list_rendered::<V>(d, ss.drop_first(), vs.drop_first());
        assert(rnodes(d, states_live(ss)) =~= rnodes(d, ss[0].live()) + rnodes(
            d,
            states_live(ss.drop_first()),
        ));
        assert(targets_all(vs) == vs[0].target() + targets_all(vs.drop_first()));
    }
}


/// What well-formedness of every state in a sequence, together with a
/// duplicate-free combined footprint, guarantees about the whole sequence.
pub proof fn lemma_states_wf_facts<T: Mountable>(dom: Dom, ss: Seq<T>)
    requires
        forall|i: int| 0 <= i < ss.len() ==> (#[trigger] ss[i]).wf(dom),
        states_nodes(ss).no_duplicates(),
    ensures
        valid_all(dom, states_nodes(ss)),
        forall|j: int|
            0 <= j < states_nodes(ss).len() ==> dom.kind_of(#[trigger] states_nodes(ss)[j])
                != NodeKind::Element,
        forall|j: int|
            0 <= j < states_live(ss).len() ==> states_nodes(ss).contains(
                #[trigger] states_live(ss)[j],
            ),
        states_live(ss).no_duplicates(),
        forall|j: int|
            0 <= j < states_nodes(ss).len() ==> states_live(ss).contains(
                #[trigger] states_nodes(ss)[j],
            ) || dom.parent_of(states_nodes(ss)[j]) is None,
        ss.len() > 0 ==> states_live(ss).len() > 0,
    decreases ss.len(),
{
    if ss.len() > 0 {
        let h = ss[0];
        let rest = ss.drop_first();
        h.wf_facts(dom);
        let hn = h.nodes();
        let hl = h.live();
        assert(states_nodes(ss) == hn + states_nodes(rest));
        assert(states_live(ss) == hl + states_live(rest));
        lemma_no_dup_concat(hn, states_nodes(rest));
        assert forall|i: int| 0 <= i < rest.len() implies (#[trigger] rest[i]).wf(dom) by {
            assert(rest[i] == ss[i + 1]);
        }
        lemma_states_wf_facts(dom, rest);
        let ns = states_nodes(ss);
        let ls = states_live(ss);
        assert forall|j: int| 0 <= j < ns.len() implies dom.is_valid(#[trigger] ns[j])
            && dom.kind_of(ns[j]) != NodeKind::Element by {
            if j < hn.len() {
                assert(ns[j] == hn[j]);
            } else {
                assert(ns[j] == states_nodes(rest)[j - hn.len()]);
            }
        }
        assert forall|j: int| 0 <= j < ls.len() implies ns.contains(#[trigger] ls[j]) by {
            if j < hl.len() {
                assert(ls[j] == hl[j]);
                assert(hn.contains(hl[j]));
                let w = choose|w: int| 0 <= w < hn.len() && hn[w] == hl[j];
                assert(ns[w] == ls[j]);
            } else {
                assert(ls[j] == states_live(rest)[j - hl.len()]);
                assert(states_nodes(rest).contains(ls[j]));
                let w = choose|w: int|
                    0 <= w < states_nodes(rest).len() && states_nodes(rest)[w] == ls[j];
                assert(ns[hn.len() + w] == ls[j]);
            }
        }
        assert(ls.no_duplicates()) by {
            assert forall|x: usize| hl.contains(x) implies !states_live(rest).contains(x) by {
                if hl.contains(x) && states_live(rest).contains(x) {
                    let a = choose|a: int| 0 <= a < hl.len() && hl[a] == x;
                    assert(hn.contains(hl[a]));
                    let b = choose|b: int|
                        0 <= b < states_live(rest).len() && states_live(rest)[b] == x;
                    assert(states_nodes(rest).contains(states_live(rest)[b]));
                    assert(!states_nodes(rest).contains(x));
                }
            }
            lemma_no_dup_disjoint_join(hl, states_live(rest));
        }
        assert forall|j: int| 0 <= j < ns.len() implies ls.contains(#[trigger] ns[j])
            || dom.parent_of(ns[j]) is None by {
            if j < hn.len() {
                assert(ns[j] == hn[j]);
                if hl.contains(hn[j]) {
                    let w = choose|w: int| 0 <= w < hl.len() && hl[w] == hn[j];
                    assert(ls[w] == ns[j]);
                }
            } else {
                let x = states_nodes(rest)[j - hn.len()];
                assert(ns[j] == x);
                if states_live(rest).contains(x) {
                    let w = choose|w: int|
                        0 <= w < states_live(rest).len() && states_live(rest)[w] == x;
                    assert(ls[hl.len() + w] == x);
                }
            }
        }
        assert(hl.len() > 0);
        assert(ls.len() > 0);
    }
}

/// Well-formedness of every state in a sequence carries over to a tree
/// that agrees on the combined footprint.
pub proof fn lemma_states_frame<T: Mountable>(d1: Dom, d2: Dom, ss: Seq<T>)
    requires
        forall|i: int| 0 <= i < ss.len() ==> (#[trigger] ss[i]).wf(d1),
        agree_on(d1, d2, states_nodes(ss)),
    ensures
        forall|i: int| 0 <= i < ss.len() ==> (#[trigger] ss[i]).wf(d2),
{
    assert forall|i: int| 0 <= i < ss.len() implies (#[trigger] ss[i]).wf(d2) by {
        assert(agree_on(d1, d2, ss[i].nodes())) by {
            assert forall|j: int| 0 <= j < ss[i].nodes().len() implies {
                let n = #[trigger] ss[i].nodes()[j];
                &&& d1.is_valid(n)
                &&& d2.is_valid(n)
                &&& d2.kind_of(n) == d1.kind_of(n)
                &&& d2.text_of(n) == d1.text_of(n)
                &&& d2.parent_of(n) == d1.parent_of(n)
            } by {
                let n = ss[i].nodes()[j];
                assert(ss[i].nodes().contains(n));
                lemma_states_nodes_contains(ss, n);
                let w = choose|w: int|
                    0 <= w < states_nodes(ss).len() && states_nodes(ss)[w] == n;
                assert(states_nodes(ss)[w] == n);
            }
        }
        ss[i].wf_frame(d1, d2);
    }
}

/// A single state's sequence owns and presents exactly its nodes.
pub proof fn lemma_states_single<T: Mountable>(s: T)
    ensures
        states_nodes(seq![s]) == s.nodes(),
        states_live(seq![s]) == s.live(),
{
    let one = seq![s];
    assert(one.len() == 1);
    assert(one[0] == s);
    assert(one.drop_first() =~= Seq::<T>::empty());
    assert(states_nodes(one.drop_first()) =~= Seq::<usize>::empty());
    assert(states_live(one.drop_first()) =~= Seq::<usize>::empty());
    assert(states_nodes(one) == one[0].nodes() + states_nodes(one.drop_first()));
    assert(states_live(one) == one[0].live() + states_live(one.drop_first()));
    assert(states_nodes(one) =~= s.nodes());
    assert(states_live(one) =~= s.live());
}

/// A single view value's sequence targets exactly its own content.
pub proof fn lemma_targets_single<V: Render>(v: V)
    ensures
        targets_all(seq![v]) == v.target(),
{
    let one = seq![v];
    assert(one.len() == 1);
    assert(one[0] == v);
    assert(one.drop_first() =~= Seq::<V>::empty());
    assert(targets_all(one.drop_first()) =~= Seq::<RNode>::empty());
    assert(targets_all(one) == one[0].target() + targets_all(one.drop_first()));
    assert(targets_all(one) =~= v.target());
}

/// Builds the retained state for each item, in order.  The states' nodes
/// are fresh, detached, pairwise distinct and present the items' targets.
pub fn list_build<V: Render>(items: Vec<V>, dom: &mut Dom, cx: &mut Cx) -> (states: Vec<V::State>)
    requires
        old(dom).wf(),
    ensures
        final(dom).wf(),
        appends(*old(dom), *final(dom)),
        states@.len() == items@.len(),
        forall|i: int| 0 <= i < states@.len() ==> (#[trigger] states@[i]).wf(*final(dom)),
        fresh_nodes(*old(dom), states_nodes(states@)),
        detached(*final(dom), states_nodes(states@)),
        states_nodes(states@).no_duplicates(),
        rnodes(*final(dom), states_live(states@)) == targets_all(items@),
        forall|i: int|
            0 <= i < states@.len() ==> rnodes(*final(dom), (#[trigger] states@[i]).live())
                == items@[i].target(),
        cx_frame(*old(cx), *final(cx)),
        (forall|i: int| 0 <= i < items@.len() ==> (#[trigger] items@[i]).builds_clean())
            ==> *final(cx) == *old(cx),
        final(dom).mutations >= old(dom).mutations,
{
    let ghost d0 = *old(dom);
    let ghost c0 = *old(cx);
    let ghost whole = items@;
    let mut items = items;
    let mut states: Vec<V::State> = Vec::new();
    proof {
        lemma_cx_frame_refl(c0);
        assert(states_nodes(states@) =~= Seq::<usize>::empty());
        assert(states_live(states@) =~= Seq::<usize>::empty());
        assert(rnodes(*dom, states_live(states@)) =~= targets_all(whole.take(0)));
        assert(whole.take(0).len() == 0);
    }
    while items.len() > 0
        invariant
            dom.wf(),
            appends(d0, *dom),
            cx_frame(c0, *cx),
            states@.len() + items@.len() == whole.len(),
            items@ == whole.skip(states@.len() as int),
            forall|i: int| 0 <= i < states@.len() ==> (#[trigger] states@[i]).wf(*dom),
            fresh_nodes(d0, states_nodes(states@)),
            detached(*dom, states_nodes(states@)),
            states_nodes(states@).no_duplicates(),
            valid_all(*dom, states_nodes(states@)),
            rnodes(*dom, states_live(states@)) == targets_all(whole.take(states@.len() as int)),
            forall|i: int|
                0 <= i < states@.len() ==> rnodes(*dom, (#[trigger] states@[i]).live()) == whole[
                    i
                ].target(),
            (forall|i: int| 0 <= i < whole.len() ==> (#[trigger] whole[i]).builds_clean()) ==> *cx
                == c0,
            dom.mutations >= d0.mutations,
        decreases items@.len(),
    {
        let ghost k = states@.len() as int;
        let ghost dk = *dom;
        let ghost ck = *cx;
        let ghost prev = states@;
        let v = items.remove(0);
        proof {
            assert(v == whole[k]);
        }
        let s = v.build(dom, cx);
        proof {
            // earlier states keep their invariants under the append
            assert(agree_on(dk, *dom, states_nodes(prev))) by {
                assert forall|j: int| 0 <= j < states_nodes(prev).len() implies {
                    let n = #[trigger] states_nodes(prev)[j];
                    &&& dk.is_valid(n)
                    &&& dom.is_valid(n)
                    &&& dom.kind_of(n) == dk.kind_of(n)
                    &&& dom.text_of(n) == dk.text_of(n)
                    &&& dom.parent_of(n) == dk.parent_of(n)
                } by {
                    assert(node_unchanged(dk, *dom, states_nodes(prev)[j]));
                }
            }
            lemma_states_frame(dk, *dom, prev);
            s.wf_facts(*dom);
        }
        states.push(s);
        proof {
            assert(states@ == prev.push(s));
            assert(states@.drop_last() =~= prev);
            assert(states@.take(k) =~= prev);
            assert(states@.skip(k) =~= seq![s]);
            lemma_states_nodes_split(states@, k);
            lemma_states_live_split(states@, k);
            lemma_states_single(s);
            assert(states_nodes(states@) == states_nodes(prev) + s.nodes());
            assert(states_live(states@) == states_live(prev) + s.live());
            // freshness, detachment, distinctness
            assert forall|j: int| 0 <= j < states_nodes(states@).len() implies
                #[trigger] states_nodes(states@)[j] >= d0.num_nodes() by {
                if j < states_nodes(prev).len() {
                    assert(states_nodes(states@)[j] == states_nodes(prev)[j]);
                } else {
                    assert(states_nodes(states@)[j] == s.nodes()[j - states_nodes(prev).len()]);
                    assert(s.nodes()[j - states_nodes(prev).len()] >= dk.num_nodes());
                    assert(dk.num_nodes() >= d0.num_nodes());
                }
            }
            assert forall|j: int| 0 <= j < states_nodes(states@).len() implies dom.parent_of(
                #[trigger] states_nodes(states@)[j],
            ) is None by {
                if j < states_nodes(prev).len() {
                    assert(states_nodes(states@)[j] == states_nodes(prev)[j]);
                    assert(node_unchanged(dk, *dom, states_nodes(prev)[j]));
                    assert(dk.parent_of(states_nodes(prev)[j]) is None);
                } else {
                    assert(states_nodes(states@)[j] == s.nodes()[j - states_nodes(prev).len()]);
                }
            }
            lemma_no_dup_join(states_nodes(prev), s.nodes(), dk.num_nodes());
            assert forall|j: int| 0 <= j < states_nodes(states@).len() implies dom.is_valid(
                #[trigger] states_nodes(states@)[j],
            ) by {
                if j < states_nodes(prev).len() {
                    assert(states_nodes(states@)[j] == states_nodes(prev)[j]);
                    assert(node_unchanged(dk, *dom, states_nodes(prev)[j]));
                } else {
                    assert(states_nodes(states@)[j] == s.nodes()[j - states_nodes(prev).len()]);
                }
            }
            // rendered content
            assert(rnodes(*dom, states_live(prev)) == targets_all(whole.take(k))) by {
                assert forall|j: int| 0 <= j < states_live(prev).len() implies {
                    let n = #[trigger] states_live(prev)[j];
                    &&& dk.is_valid(n)
                    &&& dom.is_valid(n)
                    &&& dom.kind_of(n) == dk.kind_of(n)
                    &&& dom.text_of(n) == dk.text_of(n)
                } by {
                    lemma_states_wf_facts(dk, prev);
                    assert(states_nodes(prev).contains(states_live(prev)[j]));
                    let w = choose|w: int|
                        0 <= w < states_nodes(prev).len() && states_nodes(prev)[w] == states_live(
                            prev,
                        )[j];
                    assert(node_unchanged(dk, *dom, states_nodes(prev)[w]));
                }
                lemma_rnodes_stable(dk, *dom, states_live(prev));
            }
            assert(whole.take(k + 1).drop_last() =~= whole.take(k));
            assert(whole.take(k + 1).last() == whole[k]);
            lemma_targets_all_split(whole.take(k + 1), k);
            assert(whole.take(k + 1).take(k) =~= whole.take(k));
            assert(whole.take(k + 1).skip(k) =~= seq![whole[k]]);
            lemma_targets_single(whole[k]);
            assert(targets_all(whole.take(k + 1)) == targets_all(whole.take(k))
                + whole[k].target());
            assert(rnodes(*dom, states_live(states@)) =~= rnodes(*dom, states_live(prev)) + rnodes(
                *dom,
                s.live(),
            ));
            // per-element rendering survives the append
            assert forall|i: int| 0 <= i < states@.len() implies rnodes(
                *dom,
                (#[trigger] states@[i]).live(),
            ) == whole[i].target() by {
                if i < k {
                    assert(states@[i] == prev[i]);
                    prev[i].wf_facts(dk);
                    assert forall|j: int| 0 <= j < prev[i].live().len() implies {
                        let n = #[trigger] prev[i].live()[j];
                        &&& dk.is_valid(n)
                        &&& dom.is_valid(n)
                        &&& dom.kind_of(n) == dk.kind_of(n)
                        &&& dom.text_of(n) == dk.text_of(n)
                    } by {
                        assert(prev[i].nodes().contains(prev[i].live()[j]));
                        let w = choose|w: int|
                            0 <= w < prev[i].nodes().len() && prev[i].nodes()[w] == prev[
                                i
                            ].live()[j];
                        assert(dk.is_valid(prev[i].nodes()[w]));
                        assert(node_unchanged(dk, *dom, prev[i].nodes()[w]));
                    }
                    lemma_rnodes_stable(dk, *dom, prev[i].live());
                } else {
                    assert(states@[i] == s);
                }
            }
            // the append composes
            assert(appends(d0, *dom)) by {
                assert forall|n: usize| d0.is_valid(n) implies #[trigger] node_unchanged(
                    d0,
                    *dom,
                    n,
                ) by {
                    assert(node_unchanged(d0, dk, n));
                    assert(node_unchanged(dk, *dom, n));
                }
            }
            // ambient scope
            lemma_cx_frame_trans(c0, ck, *cx);
            if forall|i: int| 0 <= i < whole.len() ==> (#[trigger] whole[i]).builds_clean() {
                assert(whole[k].builds_clean());
                assert(*cx == ck);
            }
            assert(items@ =~= whole.skip(states@.len() as int));
        }
    }
    proof {
        assert(whole.take(whole.len() as int) =~= whole);
    }
    states
}


/// When the presented nodes of a prefix are empty, the first presented
/// node of the whole sequence is the first presented node of the first
/// state that presents any.
pub proof fn lemma_states_live_first<T: Mountable>(ss: Seq<T>, i: int)
    requires
        0 <= i < ss.len(),
        states_live(ss.take(i)) == Seq::<usize>::empty(),
        ss[i].live().len() > 0,
    ensures
        states_live(ss).len() > 0,
        states_live(ss)[0] == ss[i].live()[0],
{
    lemma_states_live_split(ss, i);
    assert(ss.skip(i).len() > 0);
    assert(states_live(ss.skip(i)) == ss.skip(i)[0].live() + states_live(
        ss.skip(i).drop_first(),
    ));
    assert(ss.skip(i)[0] == ss[i]);
    assert(states_live(ss) =~= ss[i].live() + states_live(ss.skip(i).drop_first()));
}

/// Retained view state for a `Vec<_>`.
///
/// Lists keep a placeholder because they can add items after their own
/// items but before their next neighbour: adding before a known marker is
/// simpler than adding after the last known item.
pub struct VecState<T: Mountable> {
    /// One retained state per element, in order.
    pub states: Vec<T>,
    /// The trailing placeholder marker, the stable append anchor.
    pub marker: usize,
}

impl<T: Mountable> Mountable for VecState<T> {
    open spec fn nodes(self) -> Seq<usize> {
        states_nodes(self.states@) + seq![self.marker]
    }

    open spec fn live(self) -> Seq<usize> {
        states_live(self.states@) + seq![self.marker]
    }

    open spec fn wf(self, dom: Dom) -> bool {
        &&& dom.is_placeholder(self.marker)
        &&& forall|i: int| 0 <= i < self.states@.len() ==> (#[trigger] self.states@[i]).wf(dom)
        &&& self.nodes().no_duplicates()
    }

    proof fn wf_frame(self, d1: Dom, d2: Dom) {
        let ns = self.nodes();
        assert(ns[ns.len() - 1] == self.marker);
        assert forall|j: int| 0 <= j < states_nodes(self.states@).len() implies {
            let n = #[trigger] states_nodes(self.states@)[j];
            &&& d1.is_valid(n)
            &&& d2.is_valid(n)
            &&& d2.kind_of(n) == d1.kind_of(n)
            &&& d2.text_of(n) == d1.text_of(n)
            &&& d2.parent_of(n) == d1.parent_of(n)
        } by {
            assert(ns[j] == states_nodes(self.states@)[j]);
        }
        lemma_states_frame(d1, d2, self.states@);
    }

    proof fn wf_facts(self, dom: Dom) {
        let sn = states_nodes(self.states@);
        let sl = states_live(self.states@);
        lemma_no_dup_concat(sn, seq![self.marker]);
        lemma_states_wf_facts(dom, self.states@);
        let ns = self.nodes();
        let ls = self.live();
        assert(ns[sn.len() as int] == self.marker);
        assert(ls[sl.len() as int] == self.marker);
        assert forall|j: int| 0 <= j < ns.len() implies dom.is_valid(#[trigger] ns[j])
            && dom.kind_of(ns[j]) != NodeKind::Element by {
            if j < sn.len() {
                assert(ns[j] == sn[j]);
            } else {
                assert(ns[j] == self.marker);
            }
        }
        assert(ns.no_duplicates());
        assert forall|j: int| 0 <= j < ls.len() implies ns.contains(#[trigger] ls[j]) by {
            if j < sl.len() {
                assert(ls[j] == sl[j]);
                assert(sn.contains(sl[j]));
                let w = choose|w: int| 0 <= w < sn.len() && sn[w] == sl[j];
                assert(ns[w] == ls[j]);
            } else {
                assert(ls[j] == self.marker);
                assert(ns[sn.len() as int] == self.marker);
            }
        }
        assert(ls.no_duplicates()) by {
            assert forall|x: usize| sl.contains(x) implies !seq![self.marker].contains(x) by {
                if sl.contains(x) && seq![self.marker].contains(x) {
                    let a = choose|a: int| 0 <= a < sl.len() && sl[a] == x;
                    assert(sn.contains(sl[a]));
                    let w = choose|w: int| 0 <= w < seq![self.marker].len()
                        && seq![self.marker][w] == x;
                    assert(x == self.marker);
                    assert(!sn.contains(self.marker));
                }
            }
            lemma_no_dup_disjoint_join(sl, seq![self.marker]);
        }
        assert forall|j: int| 0 <= j < ns.len() implies ls.contains(#[trigger] ns[j])
            || dom.parent_of(ns[j]) is None by {
            if j < sn.len() {
                assert(ns[j] == sn[j]);
                if sl.contains(sn[j]) {
                    let w = choose|w: int| 0 <= w < sl.len() && sl[w] == sn[j];
                    assert(ls[w] == ns[j]);
                }
            } else {
                assert(ns[j] == self.marker);
                assert(ls[sl.len() as int] == self.marker);
                assert(ls.contains(self.marker));
            }
        }
        assert(ls.len() > 0);
    }

    #[verifier::loop_isolation(false)]
    #[verifier::rlimit(80)]
    fn unmount(&self, dom: &mut Dom) {
        let ghost d0 = *old(dom);
        let ghost all = self.states@;
        let ghost own = self.nodes();
        proof {
            self.wf_facts(d0);
            lemma_no_dup_concat(states_nodes(all), seq![self.marker]);
            assert(states_nodes(all.take(0)) =~= Seq::<usize>::empty());
            assert forall|e: usize| d0.is_valid(e) implies #[trigger] d0.children_of(e) == without(
                d0.children_of(e),
                states_nodes(all.take(0)),
            ) by {
                lemma_without_id(d0.children_of(e), states_nodes(all.take(0)));
            }
        }
        let n = self.states.len();
        let mut i: usize = 0;
        while i < n
            invariant
                i <= n,
                dom.wf(),
                dom.num_nodes() == d0.num_nodes(),
                content_stable(d0, *dom),
                forall|k: int| 0 <= k < all.len() ==> (#[trigger] all[k]).wf(*dom),
                detached(*dom, states_nodes(all.take(i as int))),
                parents_frame(d0, *dom, states_nodes(all.take(i as int))),
                forall|e: usize|
                    d0.is_valid(e) ==> #[trigger] dom.children_of(e) == without(
                        d0.children_of(e),
                        states_nodes(all.take(i as int)),
                    ),
                valid_all(*dom, states_nodes(all.take(i as int))),
                dom.mutations >= d0.mutations,
            decreases n - i,
        {
            let ghost dk = *dom;
            let ghost done = states_nodes(all.take(i as int));
            let s = &self.states[i];
            s.unmount(dom);
            proof {
                let si = all[i as int];
                assert(all.take(i + 1).drop_last() =~= all.take(i as int));
                lemma_states_nodes_split(all.take(i + 1), i as int);
                assert(all.take(i + 1).take(i as int) =~= all.take(i as int));
                assert(all.take(i + 1).skip(i as int) =~= seq![si]);
                lemma_states_single(si);
                assert(states_nodes(all.take(i + 1)) == done + si.nodes());
                // every child list reads as the grown strike-out
                assert forall|e: usize| d0.is_valid(e) implies #[trigger] dom.children_of(e)
                    == without(d0.children_of(e), states_nodes(all.take(i + 1))) by {
                    assert(dom.children_of(e) == without(dk.children_of(e), si.nodes()));
                    assert(dk.children_of(e) == without(d0.children_of(e), done));
                    lemma_without_compose(d0.children_of(e), done, si.nodes());
                }
                // detachment accumulates
                assert forall|j: int| 0 <= j < states_nodes(all.take(i + 1)).len() implies
                    dom.parent_of(#[trigger] states_nodes(all.take(i + 1))[j]) is None by {
                    let x = states_nodes(all.take(i + 1))[j];
                    if j < done.len() {
                        assert(x == done[j]);
                        assert(states_nodes(all.take(i as int))[j] == x);
                        assert(dk.parent_of(x) is None);
                        assert(dk.is_valid(x));
                        assert(!si.nodes().contains(x)) by {
                            si.wf_facts(dk);
                            if si.nodes().contains(x) {
                                lemma_states_nodes_contains(all, x);
                                lemma_states_nodes_contains(all.take(i as int), x);
                                let a = choose|a: int|
                                    0 <= a < all.take(i as int).len()
                                        && #[trigger] all.take(i as int)[a].nodes().contains(x);
                                lemma_states_nodes_split(all, a);
                                lemma_states_nodes_split(all, a + 1);
                                assert(states_nodes(all).no_duplicates());
                                lemma_no_dup_concat(
                                    states_nodes(all.take(a + 1)),
                                    states_nodes(all.skip(a + 1)),
                                );
                                lemma_states_nodes_split(all.take(a + 1), a);
                                assert(all.take(a + 1).take(a) =~= all.take(a));
                                assert(all.take(a + 1).skip(a) =~= seq![all[a]]);
                                lemma_states_single(all[a]);
                                assert(states_nodes(all.take(a + 1)).contains(x)) by {
                                    assert(all.take(i as int)[a] == all[a]);
                                    let w = choose|w: int|
                                        0 <= w < all[a].nodes().len() && all[a].nodes()[w] == x;
                                    assert(states_nodes(all.take(a + 1))[states_nodes(
                                        all.take(a),
                                    ).len() + w] == x);
                                }
                                assert(states_nodes(all.skip(a + 1)).contains(x)) by {
                                    assert(all.skip(a + 1)[i - (a + 1)] == all[i as int]);
                                    lemma_states_nodes_contains(all.skip(a + 1), x);
                                    assert(all.skip(a + 1)[i - (a + 1)].nodes().contains(x));
                                }
                                assert(false);
                            }
                        }
                        assert(dom.parent_of(x) == dk.parent_of(x));
                    } else {
                        assert(x == si.nodes()[j - done.len()]);
                        assert(dom.parent_of(si.nodes()[j - done.len()]) is None);
                    }
                }
                assert forall|j: int| 0 <= j < states_nodes(all.take(i + 1)).len() implies
                    dom.is_valid(#[trigger] states_nodes(all.take(i + 1))[j]) by {
                    let x = states_nodes(all.take(i + 1))[j];
                    if j < done.len() {
                        assert(x == done[j]);
                        assert(states_nodes(all.take(i as int))[j] == x);
                        assert(dk.is_valid(x));
                    } else {
                        assert(x == si.nodes()[j - done.len()]);
                        si.wf_facts(*dom);
                        assert(dom.is_valid(si.nodes()[j - done.len()]));
                    }
                }
                // parents elsewhere unchanged
                assert forall|m: usize|
                    d0.is_valid(m) && !states_nodes(all.take(i + 1)).contains(m) implies
                    #[trigger] dom.parent_of(m) == d0.parent_of(m) by {
                    assert(!done.contains(m)) by {
                        if done.contains(m) {
                            let w = choose|w: int| 0 <= w < done.len() && done[w] == m;
                            assert(states_nodes(all.take(i + 1))[w] == m);
                        }
                    }
                    assert(!si.nodes().contains(m)) by {
                        if si.nodes().contains(m) {
                            let w = choose|w: int|
                                0 <= w < si.nodes().len() && si.nodes()[w] == m;
                            assert(states_nodes(all.take(i + 1))[done.len() + w] == m);
                        }
                    }
                    assert(dk.parent_of(m) == d0.parent_of(m));
                }
                // siblings stay well formed
                assert forall|k: int| 0 <= k < all.len() implies (#[trigger] all[k]).wf(
                    *dom,
                ) by {
                    if k == i {
                        assert(all[k].wf(*dom));
                    } else {
                        assert(agree_on(dk, *dom, all[k].nodes())) by {
                            assert forall|j: int| 0 <= j < all[k].nodes().len() implies {
                                let nn = #[trigger] all[k].nodes()[j];
                                &&& dk.is_valid(nn)
                                &&& dom.is_valid(nn)
                                &&& dom.kind_of(nn) == dk.kind_of(nn)
                                &&& dom.text_of(nn) == dk.text_of(nn)
                                &&& dom.parent_of(nn) == dk.parent_of(nn)
                            } by {
                                let nn = all[k].nodes()[j];
                                all[k].wf_facts(dk);
                                assert(all[k].nodes().contains(nn));
                                assert(!si.nodes().contains(nn)) by {
                                    if si.nodes().contains(nn) {
                                        let ki: int = if k < i {
                                            k
                                        } else {
                                            i as int
                                        };
                                        let kj: int = if k < i {
                                            i as int
                                        } else {
                                            k
                                        };
                                        lemma_states_nodes_split(all, ki + 1);
                                        lemma_no_dup_concat(
                                            states_nodes(all.take(ki + 1)),
                                            states_nodes(all.skip(ki + 1)),
                                        );
                                        lemma_states_nodes_contains(all.take(ki + 1), nn);
                                        lemma_states_nodes_contains(all.skip(ki + 1), nn);
                                        assert(all.take(ki + 1)[ki] == all[ki]);
                                        assert(all.skip(ki + 1)[kj - (ki + 1)] == all[kj]);
                                        assert(all[ki].nodes().contains(nn));
                                        assert(all[kj].nodes().contains(nn));
                                        assert(states_nodes(all.take(ki + 1)).contains(nn));
                                        assert(states_nodes(all.skip(ki + 1)).contains(nn));
                                        assert(false);
                                    }
                                }
                            }
                        }
                        all[k].wf_frame(dk, *dom);
                    }
                }
            }
            i = i + 1;
        }
        proof {
            assert(all.take(n as int) =~= all);
        }
        let ghost dn = *dom;
        dom.remove(self.marker);
        proof {
            unmount_single(dn, *dom, self.marker, seq![self.marker]);
            assert forall|e: usize| d0.is_valid(e) implies #[trigger] dom.children_of(e)
                == without(d0.children_of(e), own) by {
                assert(dom.children_of(e) == without(
                    dn.children_of(e),
                    seq![self.marker],
                ));
                assert(dn.children_of(e) == without(d0.children_of(e), states_nodes(all)));
                lemma_without_compose(d0.children_of(e), states_nodes(all), seq![self.marker]);
            }
            assert forall|j: int| 0 <= j < own.len() implies dom.parent_of(
                #[trigger] own[j],
            ) is None by {
                if j < states_nodes(all).len() {
                    assert(own[j] == states_nodes(all)[j]);
                    assert(dn.parent_of(own[j]) is None);
                    assert(!seq![self.marker].contains(own[j])) by {
                        assert(seq![self.marker][0] == self.marker);
                        assert(seq![self.marker].contains(self.marker));
                        assert(!states_nodes(all).contains(self.marker));
                        assert(states_nodes(all).contains(states_nodes(all)[j]));
                        if seq![self.marker].contains(own[j]) {
                            let w = choose|w: int|
                                0 <= w < 1 && seq![self.marker][w] == own[j];
                            assert(own[j] == self.marker);
                        }
                    }
                } else {
                    assert(own[j] == self.marker);
                }
            }
            assert forall|m: usize| d0.is_valid(m) && !own.contains(m) implies
                #[trigger] dom.parent_of(m) == d0.parent_of(m) by {
                assert(!states_nodes(all).contains(m)) by {
                    if states_nodes(all).contains(m) {
                        let w = choose|w: int|
                            0 <= w < states_nodes(all).len() && states_nodes(all)[w] == m;
                        assert(own[w] == m);
                    }
                }
                assert(dn.parent_of(m) == d0.parent_of(m));
                assert(m != self.marker) by {
                    assert(own[own.len() - 1] == self.marker);
                }
            }
            assert forall|k: int| 0 <= k < all.len() implies (#[trigger] all[k]).wf(*dom) by {
                assert(agree_on(dn, *dom, all[k].nodes())) by {
                    assert forall|j: int| 0 <= j < all[k].nodes().len() implies {
                        let nn = #[trigger] all[k].nodes()[j];
                        &&& dn.is_valid(nn)
                        &&& dom.is_valid(nn)
                        &&& dom.kind_of(nn) == dn.kind_of(nn)
                        &&& dom.text_of(nn) == dn.text_of(nn)
                        &&& dom.parent_of(nn) == dn.parent_of(nn)
                    } by {
                        let nn = all[k].nodes()[j];
                        all[k].wf_facts(dn);
                        assert(all[k].nodes().contains(nn));
                        assert(nn != self.marker) by {
                            assert(seq![self.marker][0] == self.marker);
                            assert(seq![self.marker].contains(self.marker));
                            lemma_states_nodes_contains(all, nn);
                            assert(states_nodes(all).contains(nn));
                            assert(!states_nodes(all).contains(self.marker));
                        }
                    }
                }
                all[k].wf_frame(dn, *dom);
            }
            assert(content_stable(d0, *dom)) by {
                assert forall|n2: usize| d0.is_valid(n2) implies (#[trigger] dom.kind_of(n2))
                    == d0.kind_of(n2) && dom.text_of(n2) == d0.text_of(n2) by {
                    assert(dn.kind_of(n2) == d0.kind_of(n2));
                }
            }
        }
    }

    #[verifier::loop_isolation(false)]
    #[verifier::rlimit(80)]
    fn mount(&self, dom: &mut Dom, parent: usize, marker: Option<usize>) {
        let ghost d0 = *old(dom);
        let ghost all = self.states@;
        let ghost c0 = d0.children_of(parent);
        proof {
            self.wf_facts(d0);
            lemma_no_dup_concat(states_nodes(all), seq![self.marker]);
            assert(states_live(all.take(0)) =~= Seq::<usize>::empty());
            assert(insert_before_marker(c0, Seq::<usize>::empty(), marker) =~= c0) by {
                match marker {
                    Some(m) => {
                        let idx = c0.index_of(m);
                        assert(exists|w: int| 0 <= w < c0.len() && c0[w] == m);
                        assert(0 <= idx < c0.len() && c0[idx] == m);
                        assert(c0.take(idx) + Seq::<usize>::empty() + c0.skip(idx) =~= c0);
                    },
                    None => {},
                }
            }
            assert(all.skip(0) =~= all);
            assert forall|j: int| 0 <= j < states_nodes(all).len() implies dom.parent_of(
                #[trigger] states_nodes(all)[j],
            ) is None by {
                assert(self.nodes()[j] == states_nodes(all)[j]);
            }
            assert(self.nodes()[states_nodes(all).len() as int] == self.marker);
            assert(dom.parent_of(self.marker) is None);
        }
        let n = self.states.len();
        let mut i: usize = 0;
        while i < n
            invariant
                i <= n,
                dom.wf(),
                dom.num_nodes() == d0.num_nodes(),
                content_stable(d0, *dom),
                forall|k: int| 0 <= k < all.len() ==> (#[trigger] all[k]).wf(*dom),
                detached(*dom, states_nodes(all.skip(i as int))),
                dom.parent_of(self.marker) is None,
                dom.children_of(parent) == insert_before_marker(
                    c0,
                    states_live(all.take(i as int)),
                    marker,
                ),
                forall|e: usize|
                    d0.is_valid(e) && e != parent ==> #[trigger] dom.children_of(e)
                        == d0.children_of(e),
                forall|j: int|
                    0 <= j < states_live(all.take(i as int)).len() ==> dom.parent_of(
                        #[trigger] states_live(all.take(i as int))[j],
                    ) == Some(parent),
                parents_frame(d0, *dom, states_live(all.take(i as int))),
                valid_all(*dom, states_live(all.take(i as int))),
                dom.mutations >= d0.mutations,
            decreases n - i,
        {
            let ghost dk = *dom;
            let ghost done = states_live(all.take(i as int));
            let ghost si = all[i as int];
            proof {
                // the next child's footprint is still detached
                assert(detached(*dom, si.nodes())) by {
                    assert forall|j: int| 0 <= j < si.nodes().len() implies dom.parent_of(
                        #[trigger] si.nodes()[j],
                    ) is None by {
                        lemma_states_nodes_contains(all.skip(i as int), si.nodes()[j]);
                        assert(all.skip(i as int)[0] == si);
                        assert(all.skip(i as int)[0].nodes().contains(si.nodes()[j]));
                        let w = choose|w: int|
                            0 <= w < states_nodes(all.skip(i as int)).len() && states_nodes(
                                all.skip(i as int),
                            )[w] == si.nodes()[j];
                        assert(dom.parent_of(states_nodes(all.skip(i as int))[w]) is None);
                    }
                }
                // the marker argument is still a child of the parent
                match marker {
                    Some(m) => {
                        assert(dom.children_of(parent).contains(m)) by {
                            let c = dom.children_of(parent);
                            let idx = c0.index_of(m);
                            assert(exists|w: int| 0 <= w < c0.len() && c0[w] == m);
                            assert(0 <= idx < c0.len() && c0[idx] == m);
                            assert(c == c0.take(idx) + done + c0.skip(idx));
                            assert(c0.skip(idx)[0] == m);
                            assert(c[(c0.take(idx).len() + done.len()) as int] == m);
                        }
                    },
                    None => {},
                }
            }
            let s = &self.states[i];
            s.mount(dom, parent, marker);
            proof {
                assert(all.take(i + 1).take(i as int) =~= all.take(i as int));
                assert(all.take(i + 1).skip(i as int) =~= seq![si]);
                lemma_states_live_split(all.take(i + 1), i as int);
                lemma_states_single(si);
                assert(states_live(all.take(i + 1)) == done + si.live());
                // the marker argument is outside what was mounted so far
                match marker {
                    Some(m) => {
                    assert(!done.contains(m)) by {
                        if done.contains(m) {
                            let w = choose|w: int| 0 <= w < done.len() && done[w] == m;
                            assert(dk.parent_of(done[w]) == Some(parent));
                            assert(states_live(all.take(i as int))[w] == m);
                            lemma_states_wf_facts(d0, all);
                            assert(states_live(all).contains(m)) by {
                                lemma_states_live_split(all, i as int);
                                assert(states_live(all)[w] == m);
                            }
                            assert(states_nodes(all).contains(m));
                            let v = choose|v: int|
                                0 <= v < states_nodes(all).len() && states_nodes(all)[v] == m;
                            assert(d0.parent_of(states_nodes(all)[v]) is None) by {
                                assert(detached(d0, self.nodes()));
                                assert(self.nodes()[v] == m);
                            }
                            assert(c0.contains(m));
                            d0.lemma_only_parent_lists(m, parent);
                            assert(false);
                        }
                    }
                    assert(c0.no_duplicates()) by {
                        assert(d0.children_of(parent).no_duplicates());
                    }
                    lemma_ibm_compose(c0, done, si.live(), m);
                    },
                    None => {
                        assert(insert_before_marker(c0, done, marker) == c0 + done);
                        assert(insert_before_marker(c0, done + si.live(), marker) =~= (c0 + done)
                            + si.live());
                    },
                }
                // previously mounted children keep their parents
                assert forall|j: int| 0 <= j < states_live(all.take(i + 1)).len() implies
                    dom.parent_of(#[trigger] states_live(all.take(i + 1))[j]) == Some(
                    parent,
                ) by {
                    let x = states_live(all.take(i + 1))[j];
                    if j < done.len() {
                        assert(x == done[j]);
                        assert(states_live(all.take(i as int))[j] == x);
                        assert(dk.parent_of(x) == Some(parent));
                        assert(dk.is_valid(x));
                        assert(!si.live().contains(x)) by {
                            si.wf_facts(dk);
                            if si.live().contains(x) {
                                let w = choose|w: int|
                                    0 <= w < si.live().len() && si.live()[w] == x;
                                assert(si.nodes().contains(si.live()[w]));
                                let v = choose|v: int|
                                    0 <= v < si.nodes().len() && si.nodes()[v] == x;
                                assert(dk.parent_of(si.nodes()[v]) is None) by {
                                    assert(all.skip(i as int)[0] == si);
                                    assert(states_nodes(all.skip(i as int)) == si.nodes()
                                        + states_nodes(all.skip(i as int).drop_first()));
                                    assert(states_nodes(all.skip(i as int))[v] == si.nodes()[v]);
                                    assert(dk.parent_of(states_nodes(all.skip(i as int))[v])
                                        is None);
                                }
                            }
                        }
                        assert(dom.parent_of(x) == dk.parent_of(x));
                    } else {
                        assert(x == si.live()[j - done.len()]);
                        assert(dom.parent_of(si.live()[j - done.len()]) == Some(parent));
                    }
                }
                assert forall|j: int| 0 <= j < states_live(all.take(i + 1)).len() implies
                    dom.is_valid(#[trigger] states_live(all.take(i + 1))[j]) by {
                    let x = states_live(all.take(i + 1))[j];
                    if j < done.len() {
                        assert(x == done[j]);
                        assert(states_live(all.take(i as int))[j] == x);
                        assert(dk.is_valid(x));
                    } else {
                        assert(x == si.live()[j - done.len()]);
                        si.wf_facts(*dom);
                        assert(si.nodes().contains(si.live()[j - done.len()]));
                        let v = choose|v: int|
                            0 <= v < si.nodes().len() && si.nodes()[v] == x;
                        assert(dom.is_valid(si.nodes()[v]));
                    }
                }
                // the rest stays detached
                assert(states_nodes(all.skip(i as int)).no_duplicates()) by {
                    lemma_states_nodes_split(all, i as int);
                    lemma_no_dup_concat(
                        states_nodes(all.take(i as int)),
                        states_nodes(all.skip(i as int)),
                    );
                }
                assert forall|j: int| 0 <= j < states_nodes(all.skip(i + 1)).len() implies
                    dom.parent_of(#[trigger] states_nodes(all.skip(i + 1))[j]) is None by {
                    let x = states_nodes(all.skip(i + 1))[j];
                    lemma_states_nodes_contains(all.skip(i + 1), x);
                    assert(states_nodes(all.skip(i + 1)).contains(x));
                    let a = choose|a: int|
                        0 <= a < all.skip(i + 1).len() && #[trigger] all.skip(i + 1)[a].nodes(
                        ).contains(x);
                    assert(all.skip(i + 1)[a] == all[i + 1 + a]);
                    assert(all.skip(i as int)[1 + a] == all[i + 1 + a]);
                    lemma_states_nodes_contains(all.skip(i as int), x);
                    assert(all.skip(i as int)[1 + a].nodes().contains(x));
                    let w = choose|w: int|
                        0 <= w < states_nodes(all.skip(i as int)).len() && states_nodes(
                            all.skip(i as int),
                        )[w] == x;
                    assert(dk.parent_of(states_nodes(all.skip(i as int))[w]) is None);
                    assert(dk.is_valid(x)) by {
                        all[i + 1 + a].wf_facts(dk);
                        let b2 = choose|b2: int|
                            0 <= b2 < all[i + 1 + a].nodes().len() && #[trigger] all[i + 1
                                + a].nodes()[b2] == x;
                        assert(dk.is_valid(all[i + 1 + a].nodes()[b2]));
                    }
                    assert(!si.live().contains(x)) by {
                        si.wf_facts(dk);
                        if si.live().contains(x) {
                            let b = choose|b: int| 0 <= b < si.live().len() && si.live()[b] == x;
                            assert(si.nodes().contains(si.live()[b]));
                            assert(all.skip(i as int)[0] == si);
                            lemma_states_nodes_split(all.skip(i as int), 1);
                            lemma_no_dup_concat(
                                states_nodes(all.skip(i as int).take(1)),
                                states_nodes(all.skip(i as int).skip(1)),
                            );
                            assert(all.skip(i as int).take(1) =~= seq![si]);
                            lemma_states_single(si);
                            assert(states_nodes(all.skip(i as int).take(1)).contains(x));
                            assert(all.skip(i as int).skip(1) =~= all.skip(i + 1));
                            assert(states_nodes(all.skip(i + 1)).contains(x));
                            assert(false);
                        }
                    }
                    assert(dom.parent_of(x) == dk.parent_of(x));
                }
                // the list marker stays detached
                assert(dom.parent_of(self.marker) is None) by {
                    assert(!si.live().contains(self.marker)) by {
                        si.wf_facts(dk);
                        if si.live().contains(self.marker) {
                            let b = choose|b: int|
                                0 <= b < si.live().len() && si.live()[b] == self.marker;
                            assert(si.nodes().contains(self.marker));
                            lemma_states_nodes_contains(all, self.marker);
                            assert(all[i as int].nodes().contains(self.marker));
                            assert(states_nodes(all).contains(self.marker));
                        }
                    }
                }
                // siblings stay well formed
                assert forall|k: int| 0 <= k < all.len() implies (#[trigger] all[k]).wf(
                    *dom,
                ) by {
                    if k == i {
                        assert(all[k].wf(*dom));
                    } else {
                        assert(agree_on(dk, *dom, all[k].nodes())) by {
                            assert forall|j: int| 0 <= j < all[k].nodes().len() implies {
                                let nn = #[trigger] all[k].nodes()[j];
                                &&& dk.is_valid(nn)
                                &&& dom.is_valid(nn)
                                &&& dom.kind_of(nn) == dk.kind_of(nn)
                                &&& dom.text_of(nn) == dk.text_of(nn)
                                &&& dom.parent_of(nn) == dk.parent_of(nn)
                            } by {
                                let nn = all[k].nodes()[j];
                                all[k].wf_facts(dk);
                                assert(all[k].nodes().contains(nn));
                                assert(!si.live().contains(nn)) by {
                                    si.wf_facts(dk);
                                    if si.live().contains(nn) {
                                        let b = choose|b: int|
                                            0 <= b < si.live().len() && si.live()[b] == nn;
                                        assert(si.nodes().contains(nn));
                                        let ki: int = if k < i {
                                            k
                                        } else {
                                            i as int
                                        };
                                        let kj: int = if k < i {
                                            i as int
                                        } else {
                                            k
                                        };
                                        lemma_states_nodes_split(all, ki + 1);
                                        lemma_no_dup_concat(
                                            states_nodes(all.take(ki + 1)),
                                            states_nodes(all.skip(ki + 1)),
                                        );
                                        lemma_states_nodes_contains(all.take(ki + 1), nn);
                                        lemma_states_nodes_contains(all.skip(ki + 1), nn);
                                        assert(all.take(ki + 1)[ki] == all[ki]);
                                        assert(all.skip(ki + 1)[kj - (ki + 1)] == all[kj]);
                                        assert(all[ki].nodes().contains(nn));
                                        assert(all[kj].nodes().contains(nn));
                                        assert(states_nodes(all.take(ki + 1)).contains(nn));
                                        assert(states_nodes(all.skip(ki + 1)).contains(nn));
                                        assert(false);
                                    }
                                }
                            }
                        }
                        all[k].wf_frame(dk, *dom);
                    }
                }
            }
            i = i + 1;
        }
        proof {
            assert(all.take(n as int) =~= all);
            assert(all.skip(n as int).len() == 0);
            match marker {
                Some(m) => {
                    assert(dom.children_of(parent).contains(m)) by {
                        let c = dom.children_of(parent);
                        let idx = c0.index_of(m);
                        assert(exists|w: int| 0 <= w < c0.len() && c0[w] == m);
                        assert(0 <= idx < c0.len() && c0[idx] == m);
                        assert(c == c0.take(idx) + states_live(all) + c0.skip(idx));
                        assert(c0.skip(idx)[0] == m);
                        assert(c[(c0.take(idx).len() + states_live(all).len()) as int] == m);
                    }
                    assert(!states_live(all).contains(m)) by {
                        if states_live(all).contains(m) {
                            let w = choose|w: int|
                                0 <= w < states_live(all).len() && states_live(all)[w] == m;
                            assert(dom.parent_of(states_live(all)[w]) == Some(parent));
                            lemma_states_wf_facts(d0, all);
                            assert(states_nodes(all).contains(m));
                            let v = choose|v: int|
                                0 <= v < states_nodes(all).len() && states_nodes(all)[v] == m;
                            assert(detached(d0, self.nodes()));
                            assert(self.nodes()[v] == m);
                            assert(d0.parent_of(m) is None);
                            assert(c0.contains(m));
                            d0.lemma_only_parent_lists(m, parent);
                            assert(false);
                        }
                    }
                },
                None => {},
            }
        }
        let ghost dn = *dom;
        let ghost marker_node = self.marker;
        dom.insert_node(parent, self.marker, marker);
        proof {
            assert(states_live(all.take(n as int)) == states_live(all));
            assert(dn.children_of(parent) == insert_before_marker(c0, states_live(all), marker));
            assert(dom.children_of(parent) == insert_before_marker(
                dn.children_of(parent),
                seq![marker_node],
                marker,
            ));
            match marker {
                Some(m) => {
                    assert(c0.no_duplicates()) by {
                        assert(d0.children_of(parent).no_duplicates());
                    }
                    lemma_ibm_compose(c0, states_live(all), seq![marker_node], m);
                },
                None => {
                    assert(insert_before_marker(c0, states_live(all), marker) == c0 + states_live(
                        all,
                    ));
                    assert(insert_before_marker(c0, states_live(all) + seq![marker_node], marker)
                        =~= (c0 + states_live(all)) + seq![marker_node]);
                },
            }
            assert(dom.children_of(parent) == insert_before_marker(
                c0,
                self.live(),
                marker,
            )) by {
                assert(states_live(all) + seq![marker_node] == self.live());
            }
            // attached where promised
            assert forall|j: int| 0 <= j < self.live().len() implies dom.parent_of(
                #[trigger] self.live()[j],
            ) == Some(parent) by {
                let x = self.live()[j];
                if j < states_live(all).len() {
                    assert(x == states_live(all)[j]);
                    assert(dn.parent_of(x) == Some(parent));
                    assert(x != marker_node) by {
                        lemma_states_wf_facts(d0, all);
                        assert(states_nodes(all).contains(states_live(all)[j]));
                        assert(!states_nodes(all).contains(marker_node));
                    }
                } else {
                    assert(x == marker_node);
                }
            }
            assert forall|m2: usize| d0.is_valid(m2) && !self.live().contains(m2) implies
                #[trigger] dom.parent_of(m2) == d0.parent_of(m2) by {
                assert(!states_live(all).contains(m2)) by {
                    if states_live(all).contains(m2) {
                        let w = choose|w: int|
                            0 <= w < states_live(all).len() && states_live(all)[w] == m2;
                        assert(self.live()[w] == m2);
                    }
                }
                assert(states_live(all.take(n as int)) == states_live(all));
                assert(dn.parent_of(m2) == d0.parent_of(m2));
                assert(m2 != marker_node) by {
                    assert(self.live()[self.live().len() - 1] == marker_node);
                    assert(self.live().contains(marker_node));
                }
                if m2 != parent {
                    assert(dn.is_valid(m2));
                    assert(node_unchanged(dn, *dom, m2));
                }
            }
            assert(content_stable(d0, *dom)) by {
                assert forall|n2: usize| d0.is_valid(n2) implies (#[trigger] dom.kind_of(n2))
                    == d0.kind_of(n2) && dom.text_of(n2) == d0.text_of(n2) by {
                    assert(dn.kind_of(n2) == d0.kind_of(n2));
                }
            }
            assert forall|e: usize| d0.is_valid(e) && e != parent implies dom.children_of(e)
                == d0.children_of(e) by {
                assert(dn.children_of(e) == d0.children_of(e));
                assert(dn.is_valid(e));
                if e != marker_node {
                    assert(node_unchanged(dn, *dom, e));
                }
            }
            // the whole state stays well formed
            assert forall|k: int| 0 <= k < all.len() implies (#[trigger] all[k]).wf(*dom) by {
                assert(agree_on(dn, *dom, all[k].nodes())) by {
                    assert forall|j: int| 0 <= j < all[k].nodes().len() implies {
                        let nn = #[trigger] all[k].nodes()[j];
                        &&& dn.is_valid(nn)
                        &&& dom.is_valid(nn)
                        &&& dom.kind_of(nn) == dn.kind_of(nn)
                        &&& dom.text_of(nn) == dn.text_of(nn)
                        &&& dom.parent_of(nn) == dn.parent_of(nn)
                    } by {
                        let nn = all[k].nodes()[j];
                        all[k].wf_facts(dn);
                        assert(all[k].nodes().contains(nn));
                        assert(nn != marker_node) by {
                            lemma_states_nodes_contains(all, nn);
                            assert(states_nodes(all).contains(nn));
                            assert(!states_nodes(all).contains(marker_node));
                        }
                    }
                }
                all[k].wf_frame(dn, *dom);
            }
        }
    }

    #[verifier::loop_isolation(false)]
    fn first_node(&self) -> (r: Option<usize>) {
        let ghost all = self.states@;
        let n = self.states.len();
        let mut i: usize = 0;
        proof {
            assert(states_live(all.take(0)) =~= Seq::<usize>::empty());
        }
        while i < n
            invariant
                i <= n,
                states_live(all.take(i as int)) == Seq::<usize>::empty(),
            decreases n - i,
        {
            let r = self.states[i].first_node();
            if r.is_some() {
                proof {
                    lemma_states_live_first(all, i as int);
                    assert(self.live()[0] == states_live(all)[0]);
                }
                return r;
            }
            proof {
                assert(all.take(i + 1).take(i as int) =~= all.take(i as int));
                assert(all.take(i + 1).skip(i as int) =~= seq![all[i as int]]);
                lemma_states_live_split(all.take(i + 1), i as int);
                lemma_states_single(all[i as int]);
                assert(states_live(all.take(i + 1)) =~= Seq::<usize>::empty());
            }
            i = i + 1;
        }
        proof {
            assert(all.take(n as int) =~= all);
            assert(self.live()[states_live(all).len() as int] == self.marker);
            assert(self.live()[0] == self.marker);
        }
        Some(self.marker)
    }
}


/// The owned and presented nodes after one element is replaced.
pub proof fn lemma_states_update<T: Mountable>(ss: Seq<T>, i: int, snew: T)
    requires
        0 <= i < ss.len(),
    ensures
        states_nodes(ss.update(i, snew)) == states_nodes(ss.take(i)) + snew.nodes()
            + states_nodes(ss.skip(i + 1)),
        states_live(ss.update(i, snew)) == states_live(ss.take(i)) + snew.live() + states_live(
            ss.skip(i + 1),
        ),
        states_nodes(ss) == states_nodes(ss.take(i)) + ss[i].nodes() + states_nodes(
            ss.skip(i + 1),
        ),
        states_live(ss) == states_live(ss.take(i)) + ss[i].live() + states_live(ss.skip(i + 1)),
{
    let up = ss.update(i, snew);
    lemma_states_nodes_split(up, i);
    lemma_states_nodes_split(up.skip(i), 1);
    assert(up.take(i) =~= ss.take(i));
    assert(up.skip(i).take(1) =~= seq![snew]);
    assert(up.skip(i).skip(1) =~= ss.skip(i + 1));
    lemma_states_single(snew);
    assert(states_nodes(up.skip(i)) == snew.nodes() + states_nodes(ss.skip(i + 1)));
    assert(states_nodes(up) =~= states_nodes(ss.take(i)) + snew.nodes() + states_nodes(
        ss.skip(i + 1),
    ));
    lemma_states_live_split(up, i);
    lemma_states_live_split(up.skip(i), 1);
    assert(states_live(up.skip(i)) == snew.live() + states_live(ss.skip(i + 1)));
    assert(states_live(up) =~= states_live(ss.take(i)) + snew.live() + states_live(
        ss.skip(i + 1),
    ));
    lemma_states_nodes_split(ss, i);
    lemma_states_nodes_split(ss.skip(i), 1);
    assert(ss.skip(i).take(1) =~= seq![ss[i]]);
    assert(ss.skip(i).skip(1) =~= ss.skip(i + 1));
    lemma_states_single(ss[i]);
    assert(states_nodes(ss) =~= states_nodes(ss.take(i)) + ss[i].nodes() + states_nodes(
        ss.skip(i + 1),
    ));
    lemma_states_live_split(ss, i);
    lemma_states_live_split(ss.skip(i), 1);
    assert(states_live(ss) =~= states_live(ss.take(i)) + ss[i].live() + states_live(
        ss.skip(i + 1),
    ));
}

impl<T: Render> Render for Vec<T> {
    type State = VecState<T::State>;

    open spec fn target(self) -> Seq<RNode> {
        targets_all(self@) + seq![RNode::Hole]
    }

    open spec fn no_change(self, state: VecState<T::State>) -> bool {
        &&& self@.len() == state.states@.len()
        &&& forall|i: int|
            0 <= i < self@.len() ==> (#[trigger] self@[i]).no_change(state.states@[i])
    }

    open spec fn builds_clean(self) -> bool {
        forall|i: int| 0 <= i < self@.len() ==> (#[trigger] self@[i]).builds_clean()
    }

    open spec fn rebuild_req(self, state: VecState<T::State>, dom: Dom) -> bool {
        &&& forall|i: int|
            0 <= i < self@.len() && i < state.states@.len() ==> (#[trigger] self@[i]).rebuild_req(
                state.states@[i],
                dom,
            )
        &&& self@.len() > state.states@.len() ==> dom.parent_of(state.marker) is Some
    }

    proof fn rebuild_req_frame(self, state: VecState<T::State>, d1: Dom, d2: Dom) {
        assert forall|i: int|
            0 <= i < self@.len() && i < state.states@.len() implies (
        #[trigger] self@[i]).rebuild_req(state.states@[i], d2) by {
            assert(agree_on(d1, d2, state.states@[i].nodes())) by {
                assert forall|j: int| 0 <= j < state.states@[i].nodes().len() implies {
                    let n = #[trigger] state.states@[i].nodes()[j];
                    &&& d1.is_valid(n)
                    &&& d2.is_valid(n)
                    &&& d2.kind_of(n) == d1.kind_of(n)
                    &&& d2.text_of(n) == d1.text_of(n)
                    &&& d2.parent_of(n) == d1.parent_of(n)
                } by {
                    let n = state.states@[i].nodes()[j];
                    assert(state.states@[i].nodes().contains(n));
                    lemma_states_nodes_contains(state.states@, n);
                    let w = choose|w: int|
                        0 <= w < states_nodes(state.states@).len() && states_nodes(
                            state.states@,
                        )[w] == n;
                    assert(state.nodes()[w] == n);
                }
            }
            self@[i].rebuild_req_frame(state.states@[i], d1, d2);
        }
        if self@.len() > state.states@.len() {
            assert(state.nodes()[states_nodes(state.states@).len() as int] == state.marker);
        }
    }

    fn build(self, dom: &mut Dom, cx: &mut Cx) -> (state: VecState<T::State>)
        ensures
            state.states@.len() == self@.len(),
            forall|k: int|
                0 <= k < self@.len() ==> rnodes(*final(dom), (#[trigger] state.states@[k]).live())
                    == self@[k].target(),
            forall|k: int| 0 <= k < self@.len() ==> (#[trigger] state.states@[k]).wf(*final(dom)),
            state.marker >= old(dom).num_nodes(),
            final(dom).is_placeholder(state.marker),
    {
        let ghost d0 = *old(dom);
        let marker = dom.create_placeholder();
        let ghost d1 = *dom;
        let ghost items = self@;
        let states = list_build(self, dom, cx);
        let state = VecState { states, marker };
        proof {
            let sn = states_nodes(states@);
            assert(state.nodes() == sn + seq![marker]);
            assert(state.live() == states_live(states@) + seq![marker]);
            // the marker is untouched by the children's build
            assert(node_unchanged(d1, *dom, marker));
            // well-formedness
            assert(state.wf(*dom)) by {
                assert(dom.is_placeholder(marker));
                assert(seq![marker].no_duplicates());
                assert forall|j: int| 0 <= j < sn.len() implies #[trigger] sn[j]
                    >= d1.num_nodes() by {}
                assert forall|x: usize| sn.contains(x) implies !seq![marker].contains(x) by {
                    if sn.contains(x) && seq![marker].contains(x) {
                        let w = choose|w: int| 0 <= w < sn.len() && sn[w] == x;
                        let v = choose|v: int| 0 <= v < 1 && seq![marker][v] == x;
                        assert(sn[w] >= d1.num_nodes());
                        assert(x == marker);
                    }
                }
                lemma_no_dup_disjoint_join(sn, seq![marker]);
            }
            // freshness and detachment
            assert forall|j: int| 0 <= j < state.nodes().len() implies #[trigger] state.nodes()[j]
                >= d0.num_nodes() && dom.parent_of(state.nodes()[j]) is None by {
                if j < sn.len() {
                    assert(state.nodes()[j] == sn[j]);
                    assert(sn[j] >= d1.num_nodes());
                } else {
                    assert(state.nodes()[j] == marker);
                }
            }
            // the appended tree
            assert(appends(d0, *dom)) by {
                assert forall|n: usize| d0.is_valid(n) implies #[trigger] node_unchanged(
                    d0,
                    *dom,
                    n,
                ) by {
                    assert(node_unchanged(d0, d1, n));
                    assert(node_unchanged(d1, *dom, n));
                }
            }
            // rendered content
            assert(rnodes(*dom, state.live()) =~= rnodes(*dom, states_live(states@)) + rnodes(
                *dom,
                seq![marker],
            ));
            assert(rnodes(*dom, seq![marker]) =~= seq![RNode::Hole]);
            assert(rnodes(*dom, state.live()) == self.target());
        }
        state
    }

    fn rebuild(self, state: &mut VecState<T::State>, dom: &mut Dom, cx: &mut Cx)
        ensures
            final(state).marker == old(state).marker,
            final(state).states@.len() == self@.len(),
            final(dom).parent_of(old(state).marker) == old(dom).parent_of(old(state).marker),
            forall|k: int|
                0 <= k < self@.len() ==> rnodes(
                    *final(dom),
                    (#[trigger] final(state).states@[k]).live(),
                ) == self@[k].target(),
            forall|k: int|
                0 <= k < self@.len() && k < old(state).states@.len() && (
                #[trigger] self@[k]).no_change(old(state).states@[k]) ==> final(state).states@[
                    k
                ].nodes() == old(state).states@[k].nodes() && final(state).states@[k].live() == old(
                    state,
                ).states@[k].live() && agree_on(
                    *old(dom),
                    *final(dom),
                    old(state).states@[k].nodes(),
                ),
            forall|k: int, j: int|
                0 <= k < self@.len() && k < old(state).states@.len() && 0 <= j < final(
                    state
                ).states@[k].nodes().len() ==> old(state).states@[k].nodes().contains(
                    #[trigger] final(state).states@[k].nodes()[j],
                ) || final(state).states@[k].nodes()[j] >= old(dom).num_nodes(),
            forall|k: int, j: int|
                old(state).states@.len() <= k < self@.len() && 0 <= j < final(
                    state
                ).states@[k].nodes().len() ==> #[trigger] final(state).states@[k].nodes()[j] >= old(
                    dom,
                ).num_nodes(),
            self@.len() < old(state).states@.len() ==> forall|k: int|
                self@.len() <= k < old(state).states@.len() ==> detached(
                    *final(dom),
                    (#[trigger] old(state).states@[k]).nodes(),
                ),
            self@.len() > old(state).states@.len() ==> ({
                let p = old(dom).parent_of(old(state).marker)->0;
                exists|w: int|
                    segment_at(
                        final(dom).children_of(p),
                        states_live(final(state).states@.skip(old(state).states@.len() as int))
                            + seq![old(state).marker],
                        w,
                    )
            }),
            (self@.len() > old(state).states@.len() && (forall|k: int|
                0 <= k < old(state).states@.len() ==> (#[trigger] self@[k]).no_change(
                    old(state).states@[k],
                ))) ==> {
                let p = old(dom).parent_of(old(state).marker)->0;
                final(dom).children_of(p) == insert_before_marker(
                    old(dom).children_of(p),
                    states_live(final(state).states@.skip(old(state).states@.len() as int)),
                    Some(old(state).marker),
                )
            },
    {
        list_rebuild(self, state, dom, cx);
    }
}


/// Sequences whose states own and present the same nodes elementwise own
/// and present the same nodes overall.
pub proof fn lemma_states_congruence<T: Mountable>(ss1: Seq<T>, ss2: Seq<T>)
    requires
        ss1.len() == ss2.len(),
        forall|i: int|
            0 <= i < ss1.len() ==> (#[trigger] ss1[i]).nodes() == ss2[i].nodes() && ss1[i].live()
                == ss2[i].live(),
    ensures
        states_nodes(ss1) == states_nodes(ss2),
        states_live(ss1) == states_live(ss2),
    decreases ss1.len(),
{
    if ss1.len() > 0 {
        assert(ss1[0].nodes() == ss2[0].nodes());
        assert forall|i: int| 0 <= i < ss1.drop_first().len() implies (
        #[trigger] ss1.drop_first()[i]).nodes() == ss2.drop_first()[i].nodes()
            && ss1.drop_first()[i].live() == ss2.drop_first()[i].live() by {
            assert(ss1.drop_first()[i] == ss1[i + 1]);
            assert(ss2.drop_first()[i] == ss2[i + 1]);
        }
        lemma_states_congruence(ss1.drop_first(), ss2.drop_first());
    }
}

/// When every element's state is detached and the marker has no parent,
/// the whole list state is detached.
pub proof fn lemma_states_detached_concat<T: Mountable>(dom: Dom, ss: Seq<T>, marker: usize)
    requires
        forall|k: int| 0 <= k < ss.len() ==> detached(dom, (#[trigger] ss[k]).nodes()),
        dom.parent_of(marker) is None,
    ensures
        detached(dom, states_nodes(ss) + seq![marker]),
{
    let whole = states_nodes(ss) + seq![marker];
    assert forall|j: int| 0 <= j < whole.len() implies dom.parent_of(
        #[trigger] whole[j],
    ) is None by {
        if j < states_nodes(ss).len() {
            let x = whole[j];
            assert(x == states_nodes(ss)[j]);
            lemma_states_nodes_contains(ss, x);
            assert(states_nodes(ss).contains(states_nodes(ss)[j]));
            let k = choose|k: int| 0 <= k < ss.len() && #[trigger] ss[k].nodes().contains(x);
            let w = choose|w: int| 0 <= w < ss[k].nodes().len() && ss[k].nodes()[w] == x;
            assert(detached(dom, ss[k].nodes()));
            assert(dom.parent_of(ss[k].nodes()[w]) is None);
        } else {
            assert(whole[j] == marker);
        }
    }
}

/// The positional, unkeyed list diff.  Elements present at the same index
/// on both sides are rebuilt in place; extra new elements are built and
/// mounted immediately before the trailing marker, in order; extra old
/// elements are unmounted.
#[verifier::loop_isolation(false)]
#[verifier::rlimit(100)]
#[verifier::spinoff_prover]
pub fn list_rebuild<V: Render>(
    items: Vec<V>,
    state: &mut VecState<V::State>,
    dom: &mut Dom,
    cx: &mut Cx,
)
    requires
        old(dom).wf(),
        old(state).wf(*old(dom)),
        forall|i: int|
            0 <= i < items@.len() && i < old(state).states@.len() ==> (
            #[trigger] items@[i]).rebuild_req(old(state).states@[i], *old(dom)),
        items@.len() > old(state).states@.len() ==> old(dom).parent_of(old(state).marker) is Some,
    ensures
        final(dom).wf(),
        final(state).wf(*final(dom)),
        final(state).marker == old(state).marker,
        final(state).states@.len() == items@.len(),
        kinds_stable(*old(dom), *final(dom)),
        rnodes(*final(dom), final(state).live()) == targets_all(items@) + seq![RNode::Hole],
        texts_frame(*old(dom), *final(dom), old(state).nodes()),
        parents_frame(*old(dom), *final(dom), old(state).nodes()),
        forall|i: int|
            0 <= i < final(state).nodes().len() ==> old(state).nodes().contains(
                #[trigger] final(state).nodes()[i],
            ) || final(state).nodes()[i] >= old(dom).num_nodes(),
        (items@.len() == old(state).states@.len() && (forall|i: int|
            0 <= i < items@.len() ==> (#[trigger] items@[i]).no_change(old(state).states@[i])))
            ==> *final(dom) == *old(dom) && *final(cx) == *old(cx) && final(state).nodes() == old(
            state,
        ).nodes() && final(state).live() == old(state).live(),
        cx_frame(*old(cx), *final(cx)),
        forall|k: int|
            0 <= k < items@.len() && k < old(state).states@.len() && (
            #[trigger] items@[k]).no_change(old(state).states@[k]) ==> final(state).states@[
                k
            ].nodes() == old(state).states@[k].nodes() && final(state).states@[k].live() == old(
                state,
            ).states@[k].live() && agree_on(*old(dom), *final(dom), old(state).states@[k].nodes()),
        items@.len() < old(state).states@.len() ==> forall|k: int|
            items@.len() <= k < old(state).states@.len() ==> detached(
                *final(dom),
                (#[trigger] old(state).states@[k]).nodes(),
            ),
        (items@.len() > old(state).states@.len() && (forall|k: int|
            0 <= k < old(state).states@.len() ==> (#[trigger] items@[k]).no_change(
                old(state).states@[k],
            ))) ==> {
            let p = old(dom).parent_of(old(state).marker)->0;
            final(dom).children_of(p) == insert_before_marker(
                old(dom).children_of(p),
                states_live(final(state).states@.skip(old(state).states@.len() as int)),
                Some(old(state).marker),
            )
        },
        final(dom).parent_of(old(state).marker) == old(dom).parent_of(old(state).marker),
        forall|k: int|
            0 <= k < items@.len() ==> rnodes(
                *final(dom),
                (#[trigger] final(state).states@[k]).live(),
            ) == items@[k].target(),
        forall|k: int, j: int|
            0 <= k < items@.len() && k < old(state).states@.len() && 0 <= j < final(
                state
            ).states@[k].nodes().len() ==> old(state).states@[k].nodes().contains(
                #[trigger] final(state).states@[k].nodes()[j],
            ) || final(state).states@[k].nodes()[j] >= old(dom).num_nodes(),
        forall|k: int, j: int|
            old(state).states@.len() <= k < items@.len() && 0 <= j < final(
                state
            ).states@[k].nodes().len() ==> #[trigger] final(state).states@[k].nodes()[j] >= old(
                dom,
            ).num_nodes(),
        items@.len() > old(state).states@.len() ==> ({
            let p = old(dom).parent_of(old(state).marker)->0;
            exists|w: int|
                segment_at(
                    final(dom).children_of(p),
                    states_live(final(state).states@.skip(old(state).states@.len() as int))
                        + seq![old(state).marker],
                    w,
                )
        }),
        detached(*old(dom), old(state).nodes()) ==> detached(*final(dom), final(state).nodes()),
{
    let ghost d0 = *old(dom);
    let ghost cx0 = *old(cx);
    let ghost orig = old(state).states@;
    let ghost whole = items@;
    let ghost marker0 = old(state).marker;
    let ghost own0 = old(state).nodes();
    proof {
        old(state).wf_facts(d0);
        lemma_no_dup_concat(states_nodes(orig), seq![marker0]);
        lemma_cx_frame_refl(cx0);
        lemma_states_wf_facts(d0, orig);
        assert forall|k: int| 0 <= k < orig.len() implies agree_on(
            d0,
            d0,
            (#[trigger] orig[k]).nodes(),
        ) by {
            orig[k].wf_facts(d0);
            assert forall|j: int| 0 <= j < orig[k].nodes().len() implies d0.is_valid(
                #[trigger] orig[k].nodes()[j],
            ) by {}
        }
        if detached(d0, own0) {
            assert forall|k: int| 0 <= k < orig.len() implies detached(
                d0,
                (#[trigger] orig[k]).nodes(),
            ) by {
                assert forall|j: int| 0 <= j < orig[k].nodes().len() implies d0.parent_of(
                    #[trigger] orig[k].nodes()[j],
                ) is None by {
                    let n = orig[k].nodes()[j];
                    assert(orig[k].nodes().contains(n));
                    lemma_states_nodes_contains(orig, n);
                    let w = choose|w: int|
                        0 <= w < states_nodes(orig).len() && states_nodes(orig)[w] == n;
                    assert(own0[w] == n);
                }
            }
        }
    }
    let mut items = items;
    let oldn = state.states.len();
    let newn = items.len();
    let minn = if newn < oldn {
        newn
    } else {
        oldn
    };
    let mut i: usize = 0;
    while i < minn
        invariant
            i <= minn,
            dom.wf(),
            cx_frame(cx0, *cx),
            state.marker == marker0,
            state.states@.len() == oldn,
            items@ == whole.skip(i as int),
            forall|k: int| i <= k < oldn ==> state.states@[k] == orig[k],
            forall|k: int| 0 <= k < oldn ==> (#[trigger] state.states@[k]).wf(*dom),
            forall|k: int|
                0 <= k < i ==> rnodes(*dom, (#[trigger] state.states@[k]).live()) == whole[
                    k
                ].target(),
            forall|k: int, j: int|
                0 <= k < i && 0 <= j < state.states@[k].nodes().len() ==> orig[k].nodes().contains(
                    #[trigger] state.states@[k].nodes()[j],
                ) || state.states@[k].nodes()[j] >= d0.num_nodes(),
            (states_nodes(state.states@) + seq![marker0]).no_duplicates(),
            kinds_stable(d0, *dom),
            texts_frame(d0, *dom, own0),
            parents_frame(d0, *dom, own0),
            dom.parent_of(marker0) == d0.parent_of(marker0),
            forall|k: int|
                i <= k < minn ==> (#[trigger] whole[k]).rebuild_req(orig[k], *dom),
            forall|k: int| i <= k < oldn ==> agree_on(d0, *dom, (#[trigger] orig[k]).nodes()),
            (forall|k: int| 0 <= k < i ==> (#[trigger] whole[k]).no_change(orig[k])) ==> *dom == d0
                && *cx == cx0,
            forall|k: int|
                0 <= k < i && (#[trigger] whole[k]).no_change(orig[k]) ==> state.states@[
                    k
                ].nodes() == orig[k].nodes() && state.states@[k].live() == orig[k].live()
                    && agree_on(d0, *dom, orig[k].nodes()),
            detached(d0, own0) ==> forall|k: int|
                0 <= k < oldn ==> detached(*dom, (#[trigger] state.states@[k]).nodes()),
            dom.num_nodes() >= d0.num_nodes(),
        decreases minn - i,
    {
        let ghost dk = *dom;
        let ghost ck = *cx;
        let ghost before = state.states@;
        let v = items.remove(0);
        proof {
            assert(v == whole[i as int]);
            assert(state.states@[i as int] == orig[i as int]);
        }
        let child = &mut state.states[i];
        v.rebuild(child, dom, cx);
        proof {
            let snew = state.states@[i as int];
            assert(state.states@ == before.update(i as int, snew));
            let oi = orig[i as int];
            oi.wf_facts(dk);
            snew.wf_facts(*dom);
            // where the element's nodes sit in the whole footprint
            lemma_states_update(before, i as int, snew);
            assert(before.take(i as int) =~= state.states@.take(i as int));
            assert(before.skip(i + 1) =~= state.states@.skip(i + 1));
            // the old footprint of this element lies inside the whole
            assert forall|j: int| 0 <= j < oi.nodes().len() implies own0.contains(
                #[trigger] oi.nodes()[j],
            ) by {
                lemma_states_nodes_contains(orig, oi.nodes()[j]);
                assert(orig[i as int].nodes().contains(oi.nodes()[j]));
                let w = choose|w: int|
                    0 <= w < states_nodes(orig).len() && states_nodes(orig)[w] == oi.nodes()[j];
                assert(own0[w] == oi.nodes()[j]);
            }
            // other elements' nodes are untouched by this rebuild
            assert forall|k: int| 0 <= k < oldn && k != i implies agree_on(
                dk,
                *dom,
                (#[trigger] state.states@[k]).nodes(),
            ) by {
                assert(state.states@[k] == before[k]);
                before[k].wf_facts(dk);
                assert forall|j: int| 0 <= j < before[k].nodes().len() implies {
                    let n = #[trigger] before[k].nodes()[j];
                    &&& dk.is_valid(n)
                    &&& dom.is_valid(n)
                    &&& dom.kind_of(n) == dk.kind_of(n)
                    &&& dom.text_of(n) == dk.text_of(n)
                    &&& dom.parent_of(n) == dk.parent_of(n)
                } by {
                    let n = before[k].nodes()[j];
                    assert(before[k].nodes().contains(n));
                    assert(!oi.nodes().contains(n)) by {
                        if oi.nodes().contains(n) {
                            let ki: int = if k < i {
                                k
                            } else {
                                i as int
                            };
                            let kj: int = if k < i {
                                i as int
                            } else {
                                k
                            };
                            lemma_states_nodes_split(before, ki + 1);
                            lemma_no_dup_concat(
                                states_nodes(before) + seq![marker0],
                                Seq::<usize>::empty(),
                            );
                            assert((states_nodes(before) + seq![marker0]) + Seq::<
                                usize,
                            >::empty() =~= states_nodes(before) + seq![marker0]);
                            lemma_no_dup_concat(states_nodes(before), seq![marker0]);
                            lemma_no_dup_concat(
                                states_nodes(before.take(ki + 1)),
                                states_nodes(before.skip(ki + 1)),
                            );
                            lemma_states_nodes_contains(before.take(ki + 1), n);
                            lemma_states_nodes_contains(before.skip(ki + 1), n);
                            assert(before.take(ki + 1)[ki] == before[ki]);
                            assert(before.skip(ki + 1)[kj - (ki + 1)] == before[kj]);
                            assert(before[ki] == if ki == i {
                                oi
                            } else {
                                before[ki]
                            });
                            assert(before[i as int] == oi);
                            assert(before[ki].nodes().contains(n));
                            assert(before[kj].nodes().contains(n));
                            assert(states_nodes(before.take(ki + 1)).contains(n));
                            assert(states_nodes(before.skip(ki + 1)).contains(n));
                            assert(false);
                        }
                    }
                }
            }
            // those elements stay well formed, and their settled rebuilds
            // keep their preconditions
            assert forall|k: int| 0 <= k < oldn && k != i implies (
            #[trigger] state.states@[k]).wf(*dom) by {
                assert(state.states@[k] == before[k]);
                assert(agree_on(dk, *dom, state.states@[k].nodes()));
                before[k].wf_frame(dk, *dom);
            }
            assert forall|k: int| i + 1 <= k < minn implies (#[trigger] whole[k]).rebuild_req(
                orig[k],
                *dom,
            ) by {
                assert(state.states@[k] == before[k]);
                assert(before[k] == orig[k]);
                assert(agree_on(dk, *dom, state.states@[k].nodes()));
                whole[k].rebuild_req_frame(orig[k], dk, *dom);
            }
            // rendered content of settled elements survives
            assert forall|k: int| 0 <= k < i + 1 implies rnodes(
                *dom,
                (#[trigger] state.states@[k]).live(),
            ) == whole[k].target() by {
                if k < i {
                    assert(state.states@[k] == before[k]);
                    assert forall|j: int| 0 <= j < before[k].live().len() implies {
                        let n = #[trigger] before[k].live()[j];
                        &&& dk.is_valid(n)
                        &&& dom.is_valid(n)
                        &&& dom.kind_of(n) == dk.kind_of(n)
                        &&& dom.text_of(n) == dk.text_of(n)
                    } by {
                        before[k].wf_facts(dk);
                        assert(before[k].nodes().contains(before[k].live()[j]));
                        let w = choose|w: int|
                            0 <= w < before[k].nodes().len() && #[trigger] before[k].nodes()[w]
                                == before[k].live()[j];
                        assert(dk.is_valid(before[k].nodes()[w]));
                    }
                    lemma_rnodes_stable(dk, *dom, before[k].live());
                }
            }
            // the combined footprint stays duplicate-free
            assert((states_nodes(state.states@) + seq![marker0]).no_duplicates()) by {
                let a = states_nodes(before.take(i as int));
                let b = states_nodes(before.skip(i + 1)) + seq![marker0];
                lemma_no_dup_concat(states_nodes(before), seq![marker0]);
                assert(states_nodes(before) + seq![marker0] =~= a + oi.nodes() + b);
                assert(states_nodes(state.states@) + seq![marker0] =~= a + snew.nodes() + b);
                assert forall|j: int| 0 <= j < a.len() implies #[trigger] a[j]
                    < dk.num_nodes() by {
                    assert((states_nodes(before) + seq![marker0])[j] == a[j]);
                    lemma_states_wf_facts(dk, before);
                    assert(states_nodes(before)[j] == a[j]);
                }
                assert forall|j: int| 0 <= j < b.len() implies #[trigger] b[j]
                    < dk.num_nodes() by {
                    let pos = a.len() + oi.nodes().len() + j;
                    assert((states_nodes(before) + seq![marker0])[pos as int] == b[j]);
                    if j < states_nodes(before.skip(i + 1)).len() {
                        lemma_states_wf_facts(dk, before);
                        assert(states_nodes(before)[(a.len() + oi.nodes().len() + j) as int] == b[
                            j
                        ]);
                    } else {
                        assert(b[j] == marker0);
                    }
                }
                assert forall|j: int| 0 <= j < snew.nodes().len() implies oi.nodes().contains(
                    #[trigger] snew.nodes()[j],
                ) || snew.nodes()[j] >= dk.num_nodes() by {}
                lemma_no_dup_replace(a, oi.nodes(), b, snew.nodes(), dk.num_nodes());
            }
            // frames compose
            assert(texts_frame(d0, *dom, own0)) by {
                assert forall|n: usize| d0.is_valid(n) && !own0.contains(n) implies
                    #[trigger] dom.text_of(n) == d0.text_of(n) by {
                    assert(dk.text_of(n) == d0.text_of(n));
                    assert(!oi.nodes().contains(n)) by {
                        if oi.nodes().contains(n) {
                            let w = choose|w: int|
                                0 <= w < oi.nodes().len() && oi.nodes()[w] == n;
                            assert(own0.contains(oi.nodes()[w]));
                        }
                    }
                    assert(dom.text_of(n) == dk.text_of(n));
                }
            }
            assert(parents_frame(d0, *dom, own0)) by {
                assert forall|n: usize| d0.is_valid(n) && !own0.contains(n) implies
                    #[trigger] dom.parent_of(n) == d0.parent_of(n) by {
                    assert(dk.parent_of(n) == d0.parent_of(n));
                    assert(!oi.nodes().contains(n)) by {
                        if oi.nodes().contains(n) {
                            let w = choose|w: int|
                                0 <= w < oi.nodes().len() && oi.nodes()[w] == n;
                            assert(own0.contains(oi.nodes()[w]));
                        }
                    }
                    assert(dom.parent_of(n) == dk.parent_of(n));
                }
            }
            assert(dom.parent_of(marker0) == d0.parent_of(marker0)) by {
                assert(!oi.nodes().contains(marker0)) by {
                    if oi.nodes().contains(marker0) {
                        assert(seq![marker0][0] == marker0);
                        assert(seq![marker0].contains(marker0));
                        lemma_states_nodes_contains(orig, marker0);
                        assert(orig[i as int].nodes().contains(marker0));
                        assert(states_nodes(orig).contains(marker0));
                        assert(!states_nodes(orig).contains(marker0));
                        assert(false);
                    }
                }
                assert(dk.is_valid(marker0));
                assert(dom.parent_of(marker0) == dk.parent_of(marker0));
            }
            assert(kinds_stable(d0, *dom)) by {
                assert forall|n: usize| d0.is_valid(n) implies #[trigger] dom.kind_of(n)
                    == d0.kind_of(n) by {
                    assert(dk.kind_of(n) == d0.kind_of(n));
                    assert(dom.kind_of(n) == dk.kind_of(n));
                }
            }
            lemma_cx_frame_trans(cx0, ck, *cx);
            // agreement with the starting tree for every untouched element
            assert forall|k: int| i + 1 <= k < oldn implies agree_on(
                d0,
                *dom,
                (#[trigger] orig[k]).nodes(),
            ) by {
                assert(before[k] == orig[k]);
                assert(state.states@[k] == before[k]);
                assert(agree_on(dk, *dom, state.states@[k].nodes()));
                assert forall|j: int| 0 <= j < orig[k].nodes().len() implies {
                    let n = #[trigger] orig[k].nodes()[j];
                    &&& d0.is_valid(n)
                    &&& dom.is_valid(n)
                    &&& dom.kind_of(n) == d0.kind_of(n)
                    &&& dom.text_of(n) == d0.text_of(n)
                    &&& dom.parent_of(n) == d0.parent_of(n)
                } by {
                    let n = orig[k].nodes()[j];
                    assert(agree_on(d0, dk, orig[k].nodes()));
                    assert(before[k].nodes()[j] == n);
                }
            }
            // no-op tracking
            if forall|k: int| 0 <= k < i + 1 ==> (#[trigger] whole[k]).no_change(orig[k]) {
                assert(whole[i as int].no_change(orig[i as int]));
                assert(*dom == dk && *cx == ck);
            }
            assert forall|k: int|
                0 <= k < i + 1 && (#[trigger] whole[k]).no_change(orig[k]) implies state.states@[
                    k
                ].nodes() == orig[k].nodes() && state.states@[k].live() == orig[k].live()
                    && agree_on(d0, *dom, orig[k].nodes()) by {
                if k == i {
                    assert(snew.nodes() == oi.nodes() && snew.live() == oi.live());
                    assert(*dom == dk);
                    assert(agree_on(d0, dk, orig[k].nodes()));
                } else {
                    assert(state.states@[k] == before[k]);
                    assert(agree_on(d0, dk, orig[k].nodes()));
                    assert(agree_on(dk, *dom, state.states@[k].nodes()));
                    assert forall|j: int| 0 <= j < orig[k].nodes().len() implies {
                        let n = #[trigger] orig[k].nodes()[j];
                        &&& d0.is_valid(n)
                        &&& dom.is_valid(n)
                        &&& dom.kind_of(n) == d0.kind_of(n)
                        &&& dom.text_of(n) == d0.text_of(n)
                        &&& dom.parent_of(n) == d0.parent_of(n)
                    } by {
                        let n = orig[k].nodes()[j];
                        assert(before[k].nodes() == orig[k].nodes());
                        assert(before[k].nodes()[j] == n);
                    }
                }
            }
            // detachment of every element is preserved when it held
            if detached(d0, own0) {
                assert forall|k: int| 0 <= k < oldn implies detached(
                    *dom,
                    (#[trigger] state.states@[k]).nodes(),
                ) by {
                    if k == i {
                        assert(detached(dk, oi.nodes()));
                        assert(detached(*dom, snew.nodes()));
                    } else {
                        assert(state.states@[k] == before[k]);
                        crate::dom::lemma_detached_agree(dk, *dom, before[k].nodes());
                    }
                }
            }
            assert(items@ =~= whole.skip(i + 1));
        }
        i = i + 1;
    }
    let ghost dc = *dom;
    let ghost cxc = *cx;
    let ghost afterc = state.states@;
    proof {
        // per-element provenance of the settled prefix
        assert forall|k: int, j: int|
            0 <= k < minn && 0 <= j < afterc[k].nodes().len() implies orig[k].nodes().contains(
            #[trigger] afterc[k].nodes()[j],
        ) || afterc[k].nodes()[j] >= d0.num_nodes() by {
            assert(state.states@[k].nodes()[j] == afterc[k].nodes()[j]);
        }
    }
    let ghost pg = d0.parent_of(marker0)->0;
    if newn > oldn {
        proof {
            // a growing list is attached: its marker has a parent
            assert(!detached(d0, own0)) by {
                assert(own0[own0.len() - 1] == marker0);
            }
            if forall|k: int| 0 <= k < oldn ==> (#[trigger] whole[k]).no_change(orig[k]) {
                assert(*dom == d0);
                let p = d0.parent_of(marker0)->0;
                assert(d0.children_of(p).contains(marker0));
                assert(state.states@.skip(oldn as int) =~= Seq::<V::State>::empty());
                assert(states_live(state.states@.skip(oldn as int)) =~= Seq::<usize>::empty());
                assert(insert_before_marker(
                    d0.children_of(p),
                    Seq::<usize>::empty(),
                    Some(marker0),
                ) =~= d0.children_of(p)) by {
                    let c = d0.children_of(p);
                    let idx = c.index_of(marker0);
                    assert(exists|w: int| 0 <= w < c.len() && c[w] == marker0);
                    assert(0 <= idx < c.len() && c[idx] == marker0);
                    assert(c.take(idx) + Seq::<usize>::empty() + c.skip(idx) =~= c);
                }
            }
            assert forall|k: int, j: int|
                0 <= k < state.states@.len() && 0 <= j < state.states@[k].nodes().len() implies
                own0.contains(#[trigger] state.states@[k].nodes()[j]) || state.states@[k].nodes()[
                    j
                ] >= d0.num_nodes() by {
                let x = state.states@[k].nodes()[j];
                assert(orig[k].nodes().contains(x) || x >= d0.num_nodes());
                if orig[k].nodes().contains(x) {
                    lemma_states_nodes_contains(orig, x);
                    assert(states_nodes(orig).contains(x));
                    let w = choose|w: int|
                        0 <= w < states_nodes(orig).len() && states_nodes(orig)[w] == x;
                    assert(own0[w] == x);
                }
            }
            // before anything is appended, the block before the marker is
            // just the marker itself
            assert(dom.parent_of(marker0) == Some(pg));
            let c0 = dom.children_of(pg);
            assert(c0.contains(marker0));
            let idx = c0.index_of(marker0);
            assert(exists|w: int| 0 <= w < c0.len() && c0[w] == marker0);
            assert(0 <= idx < c0.len() && c0[idx] == marker0);
            assert(states_live(state.states@.skip(oldn as int)) =~= Seq::<usize>::empty()) by {
                assert(state.states@.skip(oldn as int) =~= Seq::<V::State>::empty());
            }
            assert(states_live(state.states@.skip(oldn as int)) + seq![marker0]
                =~= seq![marker0]);
            assert(c0.subrange(idx, idx + 1) =~= seq![marker0]);
            assert(segment_at(
                c0,
                states_live(state.states@.skip(oldn as int)) + seq![marker0],
                idx,
            ));
        }
        while items.len() > 0
            invariant
                newn > oldn,
                dom.wf(),
                cx_frame(cx0, *cx),
                state.marker == marker0,
                oldn <= state.states@.len() <= newn,
                items@ == whole.skip(state.states@.len() as int),
                forall|k: int| 0 <= k < oldn ==> state.states@[k] == afterc[k],
                forall|k: int|
                    0 <= k < state.states@.len() ==> (#[trigger] state.states@[k]).wf(*dom),
                forall|k: int|
                    0 <= k < state.states@.len() ==> rnodes(
                        *dom,
                        (#[trigger] state.states@[k]).live(),
                    ) == whole[k].target(),
                forall|k: int, j: int|
                    0 <= k < state.states@.len() && 0 <= j < state.states@[k].nodes().len()
                        ==> own0.contains(#[trigger] state.states@[k].nodes()[j])
                        || state.states@[k].nodes()[j] >= d0.num_nodes(),
                forall|k: int, j: int|
                    oldn <= k < state.states@.len() && 0 <= j < state.states@[k].nodes().len()
                        ==> #[trigger] state.states@[k].nodes()[j] >= d0.num_nodes(),
                (states_nodes(state.states@) + seq![marker0]).no_duplicates(),
                kinds_stable(d0, *dom),
                texts_frame(d0, *dom, own0),
                parents_frame(d0, *dom, own0),
                dom.parent_of(marker0) == d0.parent_of(marker0),
                dom.parent_of(marker0) == Some(pg),
                exists|w: int|
                    segment_at(
                        dom.children_of(pg),
                        states_live(state.states@.skip(oldn as int)) + seq![marker0],
                        w,
                    ),
                dom.num_nodes() >= d0.num_nodes(),
                forall|k: int|
                    0 <= k < oldn && k < newn && (#[trigger] whole[k]).no_change(orig[k])
                        ==> state.states@[k].nodes() == orig[k].nodes() && state.states@[k].live()
                        == orig[k].live() && agree_on(d0, *dom, orig[k].nodes()),
                (forall|k: int| 0 <= k < oldn ==> (#[trigger] whole[k]).no_change(orig[k])) ==> {
                    let p = d0.parent_of(marker0)->0;
                    &&& dom.children_of(p) == insert_before_marker(
                        d0.children_of(p),
                        states_live(state.states@.skip(oldn as int)),
                        Some(marker0),
                    )
                    &&& forall|e: usize|
                        d0.is_valid(e) && e != p ==> #[trigger] dom.children_of(e)
                            == d0.children_of(e)
                },
            decreases items@.len(),
        {
            let ghost dk = *dom;
            let ghost ck = *cx;
            let ghost before = state.states@;
            let ghost kk = state.states@.len() as int;
            let v = items.remove(0);
            proof {
                assert(v == whole[kk]);
                assert forall|k2: int, j: int|
                    0 <= k2 < before.len() && 0 <= j < before[k2].nodes().len() implies
                    own0.contains(#[trigger] before[k2].nodes()[j]) || before[k2].nodes()[j]
                        >= d0.num_nodes() by {
                    assert(own0.contains(state.states@[k2].nodes()[j]) || state.states@[
                        k2
                    ].nodes()[j] >= d0.num_nodes());
                }
                assert forall|k2: int, j: int|
                    oldn <= k2 < before.len() && 0 <= j < before[k2].nodes().len() implies
                    #[trigger] before[k2].nodes()[j] >= d0.num_nodes() by {
                    assert(state.states@[k2].nodes()[j] >= d0.num_nodes());
                }
            }
            let s = v.build(dom, cx);
            let ghost dmid = *dom;
            proof {
                s.wf_facts(dmid);
                // everything existing is untouched by the build
                assert forall|k: int| 0 <= k < before.len() implies agree_on(
                    dk,
                    dmid,
                    (#[trigger] before[k]).nodes(),
                ) by {
                    before[k].wf_facts(dk);
                    assert forall|j: int| 0 <= j < before[k].nodes().len() implies {
                        let n = #[trigger] before[k].nodes()[j];
                        &&& dk.is_valid(n)
                        &&& dmid.is_valid(n)
                        &&& dmid.kind_of(n) == dk.kind_of(n)
                        &&& dmid.text_of(n) == dk.text_of(n)
                        &&& dmid.parent_of(n) == dk.parent_of(n)
                    } by {
                        assert(node_unchanged(dk, dmid, before[k].nodes()[j]));
                    }
                }
                assert(dmid.is_valid(marker0));
                assert(node_unchanged(dk, dmid, marker0));
            }
            mount_before(&s, dom, state.marker);
            proof {
                let p = dmid.parent_of(marker0)->0;
                // the new state and the old ones stay well formed
                assert forall|k: int| 0 <= k < before.len() implies (#[trigger] before[k]).wf(
                    *dom,
                ) by {
                    assert(agree_on(dmid, *dom, before[k].nodes())) by {
                        assert forall|j: int| 0 <= j < before[k].nodes().len() implies {
                            let n = #[trigger] before[k].nodes()[j];
                            &&& dmid.is_valid(n)
                            &&& dom.is_valid(n)
                            &&& dom.kind_of(n) == dmid.kind_of(n)
                            &&& dom.text_of(n) == dmid.text_of(n)
                            &&& dom.parent_of(n) == dmid.parent_of(n)
                        } by {
                            let n = before[k].nodes()[j];
                            assert(!s.live().contains(n)) by {
                                if s.live().contains(n) {
                                    let w = choose|w: int|
                                        0 <= w < s.live().len() && s.live()[w] == n;
                                    assert(s.nodes().contains(s.live()[w]));
                                    let u = choose|u: int|
                                        0 <= u < s.nodes().len() && s.nodes()[u] == n;
                                    assert(s.nodes()[u] >= dk.num_nodes());
                                    before[k].wf_facts(dk);
                                    assert(dk.is_valid(before[k].nodes()[j]));
                                }
                            }
                        }
                    }
                    before[k].wf_frame(dk, *dom);
                }
                assert(s.wf(*dom));
            }
            state.states.push(s);
            proof {
                assert(state.states@ == before.push(s));
                assert(state.states@.take(kk) =~= before);
                assert(state.states@.skip(kk) =~= seq![s]);
                lemma_states_nodes_split(state.states@, kk);
                lemma_states_live_split(state.states@, kk);
                lemma_states_single(s);
                assert(states_nodes(state.states@) == states_nodes(before) + s.nodes());
                assert(states_live(state.states@) == states_live(before) + s.live());
                // distinctness
                assert((states_nodes(state.states@) + seq![marker0]).no_duplicates()) by {
                    let flat_old = states_nodes(before) + seq![marker0];
                    let flat_new = states_nodes(state.states@) + seq![marker0];
                    assert(flat_new =~= states_nodes(before) + s.nodes() + seq![marker0]);
                    assert(flat_old =~= states_nodes(before) + Seq::<usize>::empty()
                        + seq![marker0]);
                    assert forall|j: int| 0 <= j < states_nodes(before).len() implies
                        #[trigger] states_nodes(before)[j] < dk.num_nodes() by {
                        lemma_no_dup_concat(states_nodes(before), seq![marker0]);
                        lemma_states_wf_facts(dk, before);
                    }
                    assert forall|j: int| 0 <= j < seq![marker0].len() implies
                        #[trigger] seq![marker0][j] < dk.num_nodes() by {
                        assert(seq![marker0][j] == marker0);
                    }
                    assert forall|j: int| 0 <= j < s.nodes().len() implies Seq::<
                        usize,
                    >::empty().contains(#[trigger] s.nodes()[j]) || s.nodes()[j]
                        >= dk.num_nodes() by {}
                    lemma_no_dup_replace(
                        states_nodes(before),
                        Seq::<usize>::empty(),
                        seq![marker0],
                        s.nodes(),
                        dk.num_nodes(),
                    );
                }
                // rendered content of the new element survives the mount
                assert forall|k: int| 0 <= k < state.states@.len() implies rnodes(
                    *dom,
                    (#[trigger] state.states@[k]).live(),
                ) == whole[k].target() by {
                    if k < kk {
                        assert(state.states@[k] == before[k]);
                        assert forall|j: int| 0 <= j < before[k].live().len() implies {
                            let n = #[trigger] before[k].live()[j];
                            &&& dk.is_valid(n)
                            &&& dom.is_valid(n)
                            &&& dom.kind_of(n) == dk.kind_of(n)
                            &&& dom.text_of(n) == dk.text_of(n)
                        } by {
                            before[k].wf_facts(dk);
                            assert(before[k].nodes().contains(before[k].live()[j]));
                            let w = choose|w: int|
                                0 <= w < before[k].nodes().len() && #[trigger] before[k].nodes()[w]
                                    == before[k].live()[j];
                            assert(dk.is_valid(before[k].nodes()[w]));
                        }
                        lemma_rnodes_stable(dk, *dom, before[k].live());
                    } else {
                        assert(state.states@[k] == s);
                        assert forall|j: int| 0 <= j < s.live().len() implies {
                            let n = #[trigger] s.live()[j];
                            &&& dmid.is_valid(n)
                            &&& dom.is_valid(n)
                            &&& dom.kind_of(n) == dmid.kind_of(n)
                            &&& dom.text_of(n) == dmid.text_of(n)
                        } by {
                            assert(s.nodes().contains(s.live()[j]));
                            let w = choose|w: int|
                                0 <= w < s.nodes().len() && #[trigger] s.nodes()[w] == s.live()[j];
                            assert(dmid.is_valid(s.nodes()[w]));
                        }
                        lemma_rnodes_stable(dmid, *dom, s.live());
                        assert(rnodes(dmid, s.live()) == whole[kk].target());
                    }
                }
                // frames
                assert(kinds_stable(d0, *dom)) by {
                    assert forall|n: usize| d0.is_valid(n) implies #[trigger] dom.kind_of(n)
                        == d0.kind_of(n) by {
                        assert(dk.kind_of(n) == d0.kind_of(n));
                        assert(node_unchanged(dk, dmid, n));
                        assert(dom.kind_of(n) == dmid.kind_of(n));
                    }
                }
                assert(texts_frame(d0, *dom, own0)) by {
                    assert forall|n: usize| d0.is_valid(n) && !own0.contains(n) implies
                        #[trigger] dom.text_of(n) == d0.text_of(n) by {
                        assert(dk.text_of(n) == d0.text_of(n));
                        assert(node_unchanged(dk, dmid, n));
                        assert(dom.kind_of(n) == dmid.kind_of(n));
                        assert(dom.text_of(n) == dmid.text_of(n));
                    }
                }
                assert(parents_frame(d0, *dom, own0)) by {
                    assert forall|n: usize| d0.is_valid(n) && !own0.contains(n) implies
                        #[trigger] dom.parent_of(n) == d0.parent_of(n) by {
                        assert(dk.parent_of(n) == d0.parent_of(n));
                        assert(node_unchanged(dk, dmid, n));
                        assert(!s.live().contains(n)) by {
                            if s.live().contains(n) {
                                let w = choose|w: int| 0 <= w < s.live().len() && s.live()[w] == n;
                                assert(s.nodes().contains(s.live()[w]));
                                let u = choose|u: int|
                                    0 <= u < s.nodes().len() && s.nodes()[u] == n;
                                assert(s.nodes()[u] >= dk.num_nodes());
                            }
                        }
                        assert(dom.parent_of(n) == dmid.parent_of(n));
                    }
                }
                assert(dom.parent_of(marker0) == d0.parent_of(marker0)) by {
                    assert(node_unchanged(dk, dmid, marker0));
                    assert(!s.live().contains(marker0)) by {
                        if s.live().contains(marker0) {
                            let w = choose|w: int|
                                0 <= w < s.live().len() && s.live()[w] == marker0;
                            assert(s.nodes().contains(s.live()[w]));
                            let u = choose|u: int|
                                0 <= u < s.nodes().len() && s.nodes()[u] == marker0;
                            assert(s.nodes()[u] >= dk.num_nodes());
                        }
                    }
                    assert(dom.parent_of(marker0) == dmid.parent_of(marker0));
                }
                // settled no-change agreement survives
                assert forall|k: int|
                    0 <= k < oldn && k < newn && (#[trigger] whole[k]).no_change(orig[k]) implies
                    state.states@[k].nodes() == orig[k].nodes() && state.states@[k].live() == orig[
                        k
                    ].live() && agree_on(d0, *dom, orig[k].nodes()) by {
                    assert(state.states@[k] == before[k]);
                    assert forall|j: int| 0 <= j < orig[k].nodes().len() implies {
                        let n = #[trigger] orig[k].nodes()[j];
                        &&& d0.is_valid(n)
                        &&& dom.is_valid(n)
                        &&& dom.kind_of(n) == d0.kind_of(n)
                        &&& dom.text_of(n) == d0.text_of(n)
                        &&& dom.parent_of(n) == d0.parent_of(n)
                    } by {
                        let n = orig[k].nodes()[j];
                        assert(agree_on(d0, dk, orig[k].nodes()));
                        assert(node_unchanged(dk, dmid, n));
                        assert(before[k].nodes() == orig[k].nodes());
                        assert(before[k].nodes()[j] == n);
                        assert(agree_on(dmid, *dom, before[k].nodes()));
                    }
                }
                // placement before the marker accumulates in order
                if forall|k: int| 0 <= k < oldn ==> (#[trigger] whole[k]).no_change(orig[k]) {
                    let p = d0.parent_of(marker0)->0;
                    let added = before.skip(oldn as int);
                    assert(state.states@.skip(oldn as int) =~= added.push(s));
                    assert(added.push(s).take(added.len() as int) =~= added);
                    assert(added.push(s).skip(added.len() as int) =~= seq![s]);
                    lemma_states_live_split(added.push(s), added.len() as int);
                    lemma_states_single(s);
                    assert(states_live(state.states@.skip(oldn as int)) == states_live(added)
                        + s.live());
                    assert(dk.children_of(p) == insert_before_marker(
                        d0.children_of(p),
                        states_live(added),
                        Some(marker0),
                    ));
                    assert(dmid.children_of(p) == dk.children_of(p)) by {
                        assert(node_unchanged(dk, dmid, p));
                    }
                    assert(dmid.parent_of(marker0) == Some(p)) by {
                        assert(node_unchanged(dk, dmid, marker0));
                    }
                    assert(d0.children_of(p).no_duplicates());
                    assert(d0.children_of(p).contains(marker0));
                    assert(!states_live(added).contains(marker0)) by {
                        if states_live(added).contains(marker0) {
                            let w = choose|w: int|
                                0 <= w < states_live(added).len() && states_live(added)[w]
                                    == marker0;
                            assert(state.states@.skip(oldn as int)[0] == added[0] || true);
                            assert forall|k2: int| 0 <= k2 < added.len() implies (
                            #[trigger] added[k2]).wf(dk) by {
                                assert(added[k2] == before[oldn + k2]);
                            }
                            lemma_states_nodes_split(before, oldn as int);
                            lemma_no_dup_concat(states_nodes(before), seq![marker0]);
                            lemma_no_dup_concat(
                                states_nodes(before.take(oldn as int)),
                                states_nodes(before.skip(oldn as int)),
                            );
                            lemma_states_wf_facts(dk, added);
                            assert(states_nodes(added).contains(marker0)) by {
                                assert(states_nodes(added).contains(states_live(added)[w]));
                            }
                            let v = choose|v: int|
                                0 <= v < states_nodes(added).len() && states_nodes(added)[v]
                                    == marker0;
                            lemma_states_nodes_contains(added, marker0);
                            let k2 = choose|k2: int|
                                0 <= k2 < added.len() && #[trigger] added[k2].nodes().contains(
                                    marker0,
                                );
                            assert(added[k2] == before[oldn + k2]);
                            assert(before[oldn + k2].nodes().contains(marker0));
                            let u = choose|u: int|
                                0 <= u < before[oldn + k2].nodes().len() && #[trigger] before[oldn
                                    + k2].nodes()[u] == marker0;
                            assert(before[oldn + k2].nodes()[u] >= d0.num_nodes());
                            assert(marker0 < d0.num_nodes());
                            assert(false);
                        }
                    }
                    lemma_ibm_compose(d0.children_of(p), states_live(added), s.live(), marker0);
                    assert(dom.children_of(p) == insert_before_marker(
                        dmid.children_of(p),
                        s.live(),
                        Some(marker0),
                    ));
                    assert forall|e: usize| d0.is_valid(e) && e != p implies
                        #[trigger] dom.children_of(e) == d0.children_of(e) by {
                        assert(dk.children_of(e) == d0.children_of(e));
                        assert(node_unchanged(dk, dmid, e));
                        assert(dom.children_of(e) == dmid.children_of(e));
                    }
                }
                // the appended block before the marker gains the new element
                assert(exists|w: int|
                    segment_at(
                        dom.children_of(pg),
                        states_live(state.states@.skip(oldn as int)) + seq![marker0],
                        w,
                    )) by {
                    let added = before.skip(oldn as int);
                    let l = states_live(added);
                    let w = choose|w: int|
                        segment_at(dk.children_of(pg), l + seq![marker0], w);
                    assert(dmid.children_of(pg) == dk.children_of(pg)) by {
                        assert(node_unchanged(dk, dmid, pg));
                    }
                    assert(dmid.parent_of(marker0) == Some(pg)) by {
                        assert(node_unchanged(dk, dmid, marker0));
                    }
                    assert(dk.children_of(pg).no_duplicates());
                    assert(dom.children_of(pg) == insert_before_marker(
                        dmid.children_of(pg),
                        s.live(),
                        Some(marker0),
                    ));
                    lemma_segment_extend(dk.children_of(pg), l, s.live(), marker0, w);
                    assert(states_live(state.states@.skip(oldn as int)) == l + s.live()) by {
                        assert(state.states@.skip(oldn as int) =~= added.push(s));
                        assert(added.push(s).take(added.len() as int) =~= added);
                        assert(added.push(s).skip(added.len() as int) =~= seq![s]);
                        lemma_states_live_split(added.push(s), added.len() as int);
                        lemma_states_single(s);
                    }
                    assert(segment_at(
                        dom.children_of(pg),
                        states_live(state.states@.skip(oldn as int)) + seq![marker0],
                        w,
                    ));
                }
                lemma_cx_frame_trans(cx0, ck, *cx);
                assert(items@ =~= whole.skip(state.states@.len() as int));
            }
        }
    } else {
        proof {
            lemma_no_dup_concat(states_nodes(afterc), seq![marker0]);
            lemma_states_wf_facts(dc, afterc);
            assert forall|j: int| 0 <= j < (states_nodes(afterc) + seq![marker0]).len() implies
                dom.is_valid(#[trigger] (states_nodes(afterc) + seq![marker0])[j]) by {
                let x = (states_nodes(afterc) + seq![marker0])[j];
                if j < states_nodes(afterc).len() {
                    assert(x == states_nodes(afterc)[j]);
                    assert(dc.is_valid(states_nodes(afterc)[j]));
                } else {
                    assert(x == marker0);
                }
            }
        }
        while state.states.len() > newn
            invariant
                newn <= oldn,
                newn == oldn ==> *dom == dc && *cx == cxc,
                valid_all(*dom, states_nodes(afterc) + seq![marker0]),
                dom.wf(),
                *cx == cxc,
                state.marker == marker0,
                newn <= state.states@.len() <= oldn,
                state.states@ == afterc.take(state.states@.len() as int),
                forall|k: int|
                    0 <= k < state.states@.len() ==> (#[trigger] state.states@[k]).wf(*dom),
                forall|k: int|
                    0 <= k < newn ==> rnodes(*dom, (#[trigger] state.states@[k]).live()) == whole[
                        k
                    ].target(),
                (states_nodes(afterc) + seq![marker0]).no_duplicates(),
                kinds_stable(d0, *dom),
                texts_frame(d0, *dom, own0),
                parents_frame(d0, *dom, own0),
                dom.parent_of(marker0) == d0.parent_of(marker0),
                dom.num_nodes() >= d0.num_nodes(),
                forall|k: int|
                    state.states@.len() <= k < oldn ==> detached(
                        *dom,
                        (#[trigger] afterc[k]).nodes(),
                    ),
                forall|k: int|
                    0 <= k < newn && (#[trigger] whole[k]).no_change(orig[k]) ==> state.states@[
                        k
                    ].nodes() == orig[k].nodes() && state.states@[k].live() == orig[k].live()
                        && agree_on(d0, *dom, orig[k].nodes()),
                detached(d0, own0) ==> forall|k: int|
                    0 <= k < state.states@.len() ==> detached(
                        *dom,
                        (#[trigger] state.states@[k]).nodes(),
                    ),
            decreases state.states@.len(),
        {
            let ghost dk = *dom;
            let ghost before = state.states@;
            let popped = state.states.pop();
            proof {
                assert(popped is Some);
            }
            let s = popped.unwrap();
            let ghost kk = state.states@.len() as int;
            proof {
                assert(s == before[kk]);
                assert(state.states@ =~= afterc.take(kk));
                assert(before[kk] == afterc[kk]);
            }
            s.unmount(dom);
            proof {
                let sn = s.nodes();
                // the remaining elements are untouched
                assert forall|k: int| 0 <= k < kk implies agree_on(
                    dk,
                    *dom,
                    (#[trigger] before[k]).nodes(),
                ) by {
                    before[k].wf_facts(dk);
                    assert forall|j: int| 0 <= j < before[k].nodes().len() implies {
                        let n = #[trigger] before[k].nodes()[j];
                        &&& dk.is_valid(n)
                        &&& dom.is_valid(n)
                        &&& dom.kind_of(n) == dk.kind_of(n)
                        &&& dom.text_of(n) == dk.text_of(n)
                        &&& dom.parent_of(n) == dk.parent_of(n)
                    } by {
                        let n = before[k].nodes()[j];
                        assert(before[k].nodes().contains(n));
                        assert(!sn.contains(n)) by {
                            if sn.contains(n) {
                                assert(before[k] == afterc[k]);
                                assert(s == afterc[kk]);
                                lemma_states_nodes_split(afterc, kk);
                                lemma_no_dup_concat(states_nodes(afterc), seq![marker0]);
                                lemma_no_dup_concat(
                                    states_nodes(afterc.take(kk)),
                                    states_nodes(afterc.skip(kk)),
                                );
                                lemma_states_nodes_contains(afterc.take(kk), n);
                                lemma_states_nodes_contains(afterc.skip(kk), n);
                                assert(afterc.take(kk)[k] == afterc[k]);
                                assert(afterc.skip(kk)[0] == afterc[kk]);
                                assert(afterc[k].nodes().contains(n));
                                assert(afterc[kk].nodes().contains(n));
                                assert(states_nodes(afterc.take(kk)).contains(n));
                                assert(states_nodes(afterc.skip(kk)).contains(n));
                                assert(false);
                            }
                        }
                    }
                }
                assert forall|k: int| 0 <= k < kk implies (#[trigger] state.states@[k]).wf(
                    *dom,
                ) by {
                    assert(state.states@[k] == before[k]);
                    before[k].wf_frame(dk, *dom);
                }
                // rendered content of the kept prefix survives
                assert forall|k: int| 0 <= k < newn implies rnodes(
                    *dom,
                    (#[trigger] state.states@[k]).live(),
                ) == whole[k].target() by {
                    assert(state.states@[k] == before[k]);
                    assert forall|j: int| 0 <= j < before[k].live().len() implies {
                        let n = #[trigger] before[k].live()[j];
                        &&& dk.is_valid(n)
                        &&& dom.is_valid(n)
                        &&& dom.kind_of(n) == dk.kind_of(n)
                        &&& dom.text_of(n) == dk.text_of(n)
                    } by {
                        before[k].wf_facts(dk);
                        assert(before[k].nodes().contains(before[k].live()[j]));
                        let w = choose|w: int|
                            0 <= w < before[k].nodes().len() && #[trigger] before[k].nodes()[w]
                                == before[k].live()[j];
                        assert(agree_on(dk, *dom, before[k].nodes()));
                        assert(dk.is_valid(before[k].nodes()[w]));
                    }
                    lemma_rnodes_stable(dk, *dom, before[k].live());
                }
                // the dropped tail is and stays detached
                assert forall|k: int| kk <= k < oldn implies detached(
                    *dom,
                    (#[trigger] afterc[k]).nodes(),
                ) by {
                    if k == kk {
                        assert(detached(*dom, s.nodes()));
                        assert(s == afterc[kk]);
                    } else {
                        assert forall|j: int| 0 <= j < afterc[k].nodes().len() implies
                            dom.parent_of(#[trigger] afterc[k].nodes()[j]) is None by {
                            let n = afterc[k].nodes()[j];
                            assert(dk.parent_of(n) is None);
                            assert(dk.is_valid(n)) by {
                                lemma_states_nodes_contains(afterc, n);
                                assert(afterc[k].nodes().contains(n));
                                assert(states_nodes(afterc).contains(n));
                                let w = choose|w: int|
                                    0 <= w < states_nodes(afterc).len() && states_nodes(afterc)[w]
                                        == n;
                                assert((states_nodes(afterc) + seq![marker0])[w] == n);
                                assert(dk.is_valid((states_nodes(afterc) + seq![marker0])[w]));
                            }
                            assert(!sn.contains(n)) by {
                                if sn.contains(n) {
                                    assert(s == afterc[kk]);
                                    let ki: int = kk;
                                    let kj: int = k;
                                    lemma_states_nodes_split(afterc, ki + 1);
                                    lemma_no_dup_concat(states_nodes(afterc), seq![marker0]);
                                    lemma_no_dup_concat(
                                        states_nodes(afterc.take(ki + 1)),
                                        states_nodes(afterc.skip(ki + 1)),
                                    );
                                    lemma_states_nodes_contains(afterc.take(ki + 1), n);
                                    lemma_states_nodes_contains(afterc.skip(ki + 1), n);
                                    assert(afterc.take(ki + 1)[ki] == afterc[ki]);
                                    assert(afterc.skip(ki + 1)[kj - (ki + 1)] == afterc[kj]);
                                    assert(afterc[ki].nodes().contains(n));
                                    assert(afterc[kj].nodes().contains(n));
                                    assert(states_nodes(afterc.take(ki + 1)).contains(n));
                                    assert(states_nodes(afterc.skip(ki + 1)).contains(n));
                                    assert(false);
                                }
                            }
                            assert(dom.parent_of(n) == dk.parent_of(n));
                        }
                    }
                }
                // frames
                assert(kinds_stable(d0, *dom)) by {
                    assert forall|n: usize| d0.is_valid(n) implies #[trigger] dom.kind_of(n)
                        == d0.kind_of(n) by {
                        assert(dk.kind_of(n) == d0.kind_of(n));
                        assert(dom.kind_of(n) == dk.kind_of(n));
                    }
                }
                assert(texts_frame(d0, *dom, own0)) by {
                    assert forall|n: usize| d0.is_valid(n) && !own0.contains(n) implies
                        #[trigger] dom.text_of(n) == d0.text_of(n) by {
                        assert(dk.text_of(n) == d0.text_of(n));
                        assert(dom.kind_of(n) == dk.kind_of(n));
                        assert(dom.text_of(n) == dk.text_of(n));
                    }
                }
                assert(parents_frame(d0, *dom, own0)) by {
                    assert forall|n: usize| d0.is_valid(n) && !own0.contains(n) implies
                        #[trigger] dom.parent_of(n) == d0.parent_of(n) by {
                        assert(dk.parent_of(n) == d0.parent_of(n));
                        assert(!sn.contains(n)) by {
                            if sn.contains(n) {
                                assert(s == afterc[kk]);
                                s.wf_facts(dk);
                                let w = choose|w: int| 0 <= w < sn.len() && sn[w] == n;
                                assert(own0.contains(n)) by {
                                    assert(forall|jj: int|
                                        0 <= jj < afterc[kk].nodes().len()
                                            ==> #[trigger] afterc[kk].nodes()[jj] == orig[kk].nodes()[jj]
                                            || true);
                                    lemma_states_nodes_contains(afterc, n);
                                    assert(afterc[kk].nodes().contains(n));
                                    assert(states_nodes(afterc).contains(n));
                                    let u = choose|u: int|
                                        0 <= u < states_nodes(afterc).len() && states_nodes(
                                            afterc,
                                        )[u] == n;
                                    assert(afterc[kk].nodes()[w] >= d0.num_nodes() || orig[
                                        kk
                                    ].nodes().contains(n)) by {
                                        assert(afterc[kk] == orig[kk]);
                                    }
                                    assert(orig[kk].nodes().contains(n));
                                    lemma_states_nodes_contains(orig, n);
                                    assert(states_nodes(orig).contains(n));
                                    let q = choose|q: int|
                                        0 <= q < states_nodes(orig).len() && states_nodes(orig)[q]
                                            == n;
                                    assert(own0[q] == n);
                                }
                            }
                        }
                        assert(dom.parent_of(n) == dk.parent_of(n));
                    }
                }
                assert(dom.parent_of(marker0) == d0.parent_of(marker0)) by {
                    assert(!sn.contains(marker0)) by {
                        if sn.contains(marker0) {
                            assert(s == afterc[kk]);
                            lemma_states_nodes_contains(afterc, marker0);
                            assert(afterc[kk].nodes().contains(marker0));
                            assert(states_nodes(afterc).contains(marker0));
                            lemma_no_dup_concat(states_nodes(afterc), seq![marker0]);
                            assert(seq![marker0][0] == marker0);
                            assert(seq![marker0].contains(marker0));
                            assert(false);
                        }
                    }
                    assert(dk.is_valid(marker0));
                    assert(dom.parent_of(marker0) == dk.parent_of(marker0));
                }
                // settled no-change agreement survives
                assert forall|k: int|
                    0 <= k < newn && (#[trigger] whole[k]).no_change(orig[k]) implies
                    state.states@[k].nodes() == orig[k].nodes() && state.states@[k].live() == orig[
                        k
                    ].live() && agree_on(d0, *dom, orig[k].nodes()) by {
                    assert(state.states@[k] == before[k]);
                    assert forall|j: int| 0 <= j < orig[k].nodes().len() implies {
                        let n = #[trigger] orig[k].nodes()[j];
                        &&& d0.is_valid(n)
                        &&& dom.is_valid(n)
                        &&& dom.kind_of(n) == d0.kind_of(n)
                        &&& dom.text_of(n) == d0.text_of(n)
                        &&& dom.parent_of(n) == d0.parent_of(n)
                    } by {
                        let n = orig[k].nodes()[j];
                        assert(agree_on(d0, dk, orig[k].nodes()));
                        assert(before[k].nodes() == orig[k].nodes());
                        assert(before[k].nodes()[j] == n);
                        assert(agree_on(dk, *dom, before[k].nodes()));
                    }
                }
                // detachment of the kept prefix is preserved when it held
                if detached(d0, own0) {
                    assert forall|k: int| 0 <= k < state.states@.len() implies detached(
                        *dom,
                        (#[trigger] state.states@[k]).nodes(),
                    ) by {
                        assert(state.states@[k] == before[k]);
                        crate::dom::lemma_detached_agree(dk, *dom, before[k].nodes());
                    }
                }
            }
        }
    }
    proof {
        let ss = state.states@;
        assert(ss.len() == newn);
        // the combined footprint is duplicate-free
        assert((states_nodes(ss) + seq![marker0]).no_duplicates()) by {
            if newn <= oldn {
                assert(ss =~= afterc.take(newn as int));
                lemma_states_nodes_split(afterc, newn as int);
                let a = states_nodes(afterc.take(newn as int));
                let b = states_nodes(afterc.skip(newn as int));
                assert(states_nodes(afterc) + seq![marker0] =~= a + (b + seq![marker0]));
                lemma_no_dup_concat(a, b + seq![marker0]);
                assert(a + seq![marker0] =~= (states_nodes(ss) + seq![marker0]));
                assert forall|x: int, y: int|
                    0 <= x < y < (a + seq![marker0]).len() implies (a + seq![marker0])[x] != (a
                    + seq![marker0])[y] by {
                    if y < a.len() {
                    } else {
                        assert((a + seq![marker0])[y] == marker0);
                        if x < a.len() {
                            assert((a + seq![marker0])[x] == a[x]);
                            assert(a.contains(a[x]));
                            assert((b + seq![marker0])[b.len() as int] == marker0);
                            assert((b + seq![marker0]).contains(marker0));
                        }
                    }
                }
            }
        }
        // well-formedness
        assert(state.wf(*dom)) by {
            assert(dom.is_placeholder(marker0)) by {
                assert(d0.is_placeholder(marker0));
                assert(dom.kind_of(marker0) == d0.kind_of(marker0));
            }
        }
        // rendered content
        assert(rnodes(*dom, state.live()) == targets_all(whole) + seq![RNode::Hole]) by {
            assert forall|k: int| 0 <= k < ss.len() implies rnodes(*dom, #[trigger] ss[k].live())
                == whole[k].target() by {}
            lemma_list_rendered::<V>(*dom, ss, whole);
            assert(rnodes(*dom, state.live()) =~= rnodes(*dom, states_live(ss)) + rnodes(
                *dom,
                seq![marker0],
            ));
            assert(rnodes(*dom, seq![marker0]) =~= seq![RNode::Hole]) by {
                assert(dom.kind_of(marker0) == d0.kind_of(marker0));
            }
        }
        // every node of the new state is an old one or fresh
        assert forall|j: int| 0 <= j < state.nodes().len() implies own0.contains(
            #[trigger] state.nodes()[j],
        ) || state.nodes()[j] >= d0.num_nodes() by {
            let x = state.nodes()[j];
            if j < states_nodes(ss).len() {
                assert(x == states_nodes(ss)[j]);
                lemma_states_nodes_contains(ss, x);
                assert(states_nodes(ss).contains(states_nodes(ss)[j]));
                let k = choose|k: int| 0 <= k < ss.len() && #[trigger] ss[k].nodes().contains(x);
                let w = choose|w: int| 0 <= w < ss[k].nodes().len() && ss[k].nodes()[w] == x;
                if newn > oldn {
                    assert(own0.contains(ss[k].nodes()[w]) || ss[k].nodes()[w]
                        >= d0.num_nodes());
                } else {
                    assert(ss[k] == afterc[k]);
                    assert(orig[k].nodes().contains(x) || x >= d0.num_nodes());
                    if orig[k].nodes().contains(x) {
                        lemma_states_nodes_contains(orig, x);
                        assert(states_nodes(orig).contains(x));
                        let u = choose|u: int|
                            0 <= u < states_nodes(orig).len() && states_nodes(orig)[u] == x;
                        assert(own0[u] == x);
                    }
                }
            } else {
                assert(x == marker0);
                assert(own0[own0.len() - 1] == marker0);
                assert(own0.contains(marker0));
            }
        }
        // nothing changed when nothing needed to change
        if newn == oldn && (forall|k: int|
            0 <= k < whole.len() ==> (#[trigger] whole[k]).no_change(orig[k])) {
            assert(dc == d0 && cxc == cx0);
            assert(*dom == d0 && *cx == cx0);
            assert forall|k: int| 0 <= k < ss.len() implies (#[trigger] ss[k]).nodes() == orig[
                k
            ].nodes() && ss[k].live() == orig[k].live() by {
                assert(ss[k] == afterc[k]);
                assert(whole[k].no_change(orig[k]));
            }
            lemma_states_congruence(ss, orig);
            assert(state.nodes() == own0);
            assert(state.live() == old(state).live());
        }
        // the settled indices that reported no change
        assert forall|k: int|
            0 <= k < whole.len() && k < oldn && (#[trigger] whole[k]).no_change(orig[k]) implies
            state.states@[k].nodes() == orig[k].nodes() && state.states@[k].live() == orig[
                k
            ].live() && agree_on(d0, *dom, orig[k].nodes()) by {
            if newn <= oldn {
                assert(ss[k] == afterc[k]);
            }
        }
        // a dropped tail is detached
        if newn < oldn {
            assert forall|k: int| newn <= k < oldn implies detached(
                *dom,
                (#[trigger] orig[k]).nodes(),
            ) by {
                assert(afterc[k] == orig[k]);
                assert(detached(*dom, afterc[k].nodes()));
            }
        }
        // per-element provenance of the kept prefix
        assert forall|k: int, j: int|
            0 <= k < newn && k < oldn && 0 <= j < ss[k].nodes().len() implies orig[
            k
        ].nodes().contains(#[trigger] ss[k].nodes()[j]) || ss[k].nodes()[j]
            >= d0.num_nodes() by {
            assert(ss[k] == afterc[k]);
        }
        // a detached list stays detached
        if detached(d0, own0) {
            assert(dom.parent_of(marker0) is None) by {
                assert(own0[own0.len() - 1] == marker0);
            }
            lemma_states_detached_concat(*dom, ss, marker0);
            assert(state.nodes() == states_nodes(ss) + seq![marker0]);
        }
        // the appended elements are wholly fresh, and sit as one block
        // immediately before the marker
        if newn > oldn {
            assert forall|k: int, j: int|
                oldn <= k < newn && 0 <= j < ss[k].nodes().len() implies #[trigger] ss[
                k
            ].nodes()[j] >= d0.num_nodes() by {}
            assert(exists|w: int|
                segment_at(
                    dom.children_of(pg),
                    states_live(ss.skip(oldn as int)) + seq![marker0],
                    w,
                ));
        }
    }
}


/// A fixed container of views used by erased collections: the rendering
/// code still diffs positionally, but callers treat the length as settled.
#[derive(Clone)]
pub struct StaticVec<T>(pub Vec<T>);

impl<T> StaticVec<T> {
    /// Read access to the items.
    pub fn iter(&self) -> (r: &Vec<T>)
        ensures
            r@ == self.0@,
    {
        &self.0
    }

    /// Wraps a plain vector of items.
    pub fn from_items(items: Vec<T>) -> (r: StaticVec<T>)
        ensures
            r.0@ == items@,
    {
        StaticVec(items)
    }

    /// Unwraps into a plain vector of items.
    pub fn into_items(self) -> (r: Vec<T>)
        ensures
            r@ == self.0@,
    {
        self.0
    }
}

/// Retained view state for a `StaticVec<_>`.
pub struct StaticVecState<T: Mountable> {
    /// The retained list state: one state per element plus the trailing
    /// marker.
    pub inner: VecState<T>,
}

impl<T: Mountable> Mountable for StaticVecState<T> {
    open spec fn nodes(self) -> Seq<usize> {
        self.inner.nodes()
    }

    open spec fn live(self) -> Seq<usize> {
        self.inner.live()
    }

    open spec fn wf(self, dom: Dom) -> bool {
        self.inner.wf(dom)
    }

    proof fn wf_frame(self, d1: Dom, d2: Dom) {
        self.inner.wf_frame(d1, d2);
    }

    proof fn wf_facts(self, dom: Dom) {
        self.inner.wf_facts(dom);
    }

    fn unmount(&self, dom: &mut Dom) {
        self.inner.unmount(dom);
    }

    fn mount(&self, dom: &mut Dom, parent: usize, marker: Option<usize>) {
        self.inner.mount(dom, parent, marker);
    }

    fn first_node(&self) -> (r: Option<usize>) {
        self.inner.first_node()
    }
}

impl<T: Render> Render for StaticVec<T> {
    type State = StaticVecState<T::State>;

    open spec fn target(self) -> Seq<RNode> {
        self.0.target()
    }

    open spec fn no_change(self, state: StaticVecState<T::State>) -> bool {
        self.0.no_change(state.inner)
    }

    open spec fn builds_clean(self) -> bool {
        self.0.builds_clean()
    }

    open spec fn rebuild_req(self, state: StaticVecState<T::State>, dom: Dom) -> bool {
        self.0.rebuild_req(state.inner, dom)
    }

    proof fn rebuild_req_frame(self, state: StaticVecState<T::State>, d1: Dom, d2: Dom) {
        self.0.rebuild_req_frame(state.inner, d1, d2);
    }

    fn build(self, dom: &mut Dom, cx: &mut Cx) -> (state: StaticVecState<T::State>)
        ensures
            state.inner.states@.len() == self.0@.len(),
            forall|k: int|
                0 <= k < self.0@.len() ==> rnodes(
                    *final(dom),
                    (#[trigger] state.inner.states@[k]).live(),
                ) == self.0@[k].target(),
            forall|k: int|
                0 <= k < self.0@.len() ==> (#[trigger] state.inner.states@[k]).wf(*final(dom)),
            state.inner.marker >= old(dom).num_nodes(),
            final(dom).is_placeholder(state.inner.marker),
    {
        StaticVecState { inner: self.0.build(dom, cx) }
    }

    fn rebuild(self, state: &mut StaticVecState<T::State>, dom: &mut Dom, cx: &mut Cx)
        ensures
            final(state).inner.marker == old(state).inner.marker,
            final(state).inner.states@.len() == self.0@.len(),
            final(dom).parent_of(old(state).inner.marker) == old(dom).parent_of(
                old(state).inner.marker,
            ),
            forall|k: int|
                0 <= k < self.0@.len() ==> rnodes(
                    *final(dom),
                    (#[trigger] final(state).inner.states@[k]).live(),
                ) == self.0@[k].target(),
            forall|k: int|
                0 <= k < self.0@.len() && k < old(state).inner.states@.len() && (
                #[trigger] self.0@[k]).no_change(old(state).inner.states@[k]) ==> final(
                    state
                ).inner.states@[k].nodes() == old(state).inner.states@[k].nodes() && final(
                    state
                ).inner.states@[k].live() == old(state).inner.states@[k].live() && agree_on(
                    *old(dom),
                    *final(dom),
                    old(state).inner.states@[k].nodes(),
                ),
            forall|k: int, j: int|
                0 <= k < self.0@.len() && k < old(state).inner.states@.len() && 0 <= j < final(
                    state
                ).inner.states@[k].nodes().len() ==> old(state).inner.states@[k].nodes().contains(
                    #[trigger] final(state).inner.states@[k].nodes()[j],
                ) || final(state).inner.states@[k].nodes()[j] >= old(dom).num_nodes(),
            forall|k: int, j: int|
                old(state).inner.states@.len() <= k < self.0@.len() && 0 <= j < final(
                    state
                ).inner.states@[k].nodes().len() ==> #[trigger] final(
                    state
                ).inner.states@[k].nodes()[j] >= old(dom).num_nodes(),
            self.0@.len() < old(state).inner.states@.len() ==> forall|k: int|
                self.0@.len() <= k < old(state).inner.states@.len() ==> detached(
                    *final(dom),
                    (#[trigger] old(state).inner.states@[k]).nodes(),
                ),
            self.0@.len() > old(state).inner.states@.len() ==> ({
                let p = old(dom).parent_of(old(state).inner.marker)->0;
                exists|w: int|
                    segment_at(
                        final(dom).children_of(p),
                        states_live(
                            final(state).inner.states@.skip(
                                old(state).inner.states@.len() as int,
                            ),
                        ) + seq![old(state).inner.marker],
                        w,
                    )
            }),
    {
        self.0.rebuild(&mut state.inner, dom, cx);
    }
}

/// Relies on Vec's `From<[T; N]>`: the array's items, in order.
#[verifier::external_body]
fn array_into_vec<T, const N: usize>(a: [T; N]) -> (r: Vec<T>)
    ensures
        r@ == a@,
{
    Vec::from(a)
}

/// Retained view state for a fixed-size array of views: the list's
/// retained shape with the length never changing.  The trailing
/// placeholder is this model's uniform splice anchor; with a fixed length
/// it is simply never used for growth.
pub struct ArrayState<T: Mountable> {
    /// The retained list state.
    pub inner: VecState<T>,
}

impl<T: Mountable> Mountable for ArrayState<T> {
    open spec fn nodes(self) -> Seq<usize> {
        self.inner.nodes()
    }

    open spec fn live(self) -> Seq<usize> {
        self.inner.live()
    }

    open spec fn wf(self, dom: Dom) -> bool {
        self.inner.wf(dom)
    }

    proof fn wf_frame(self, d1: Dom, d2: Dom) {
        self.inner.wf_frame(d1, d2);
    }

    proof fn wf_facts(self, dom: Dom) {
        self.inner.wf_facts(dom);
    }

    fn unmount(&self, dom: &mut Dom) {
        self.inner.unmount(dom);
    }

    fn mount(&self, dom: &mut Dom, parent: usize, marker: Option<usize>) {
        self.inner.mount(dom, parent, marker);
    }

    fn first_node(&self) -> (r: Option<usize>) {
        self.inner.first_node()
    }
}

impl<T: Render, const N: usize> Render for [T; N] {
    type State = ArrayState<T::State>;

    open spec fn target(self) -> Seq<RNode> {
        targets_all(self@) + seq![RNode::Hole]
    }

    open spec fn no_change(self, state: ArrayState<T::State>) -> bool {
        &&& self@.len() == state.inner.states@.len()
        &&& forall|i: int|
            0 <= i < self@.len() ==> (#[trigger] self@[i]).no_change(state.inner.states@[i])
    }

    open spec fn builds_clean(self) -> bool {
        forall|i: int| 0 <= i < self@.len() ==> (#[trigger] self@[i]).builds_clean()
    }

    open spec fn rebuild_req(self, state: ArrayState<T::State>, dom: Dom) -> bool {
        &&& forall|i: int|
            0 <= i < self@.len() && i < state.inner.states@.len() ==> (
            #[trigger] self@[i]).rebuild_req(state.inner.states@[i], dom)
        &&& self@.len() > state.inner.states@.len() ==> dom.parent_of(
            state.inner.marker,
        ) is Some
    }

    proof fn rebuild_req_frame(self, state: ArrayState<T::State>, d1: Dom, d2: Dom) {
        assert forall|i: int|
            0 <= i < self@.len() && i < state.inner.states@.len() implies (
        #[trigger] self@[i]).rebuild_req(state.inner.states@[i], d2) by {
            assert(agree_on(d1, d2, state.inner.states@[i].nodes())) by {
                assert forall|j: int| 0 <= j < state.inner.states@[i].nodes().len() implies {
                    let n = #[trigger] state.inner.states@[i].nodes()[j];
                    &&& d1.is_valid(n)
                    &&& d2.is_valid(n)
                    &&& d2.kind_of(n) == d1.kind_of(n)
                    &&& d2.text_of(n) == d1.text_of(n)
                    &&& d2.parent_of(n) == d1.parent_of(n)
                } by {
                    let n = state.inner.states@[i].nodes()[j];
                    assert(state.inner.states@[i].nodes().contains(n));
                    lemma_states_nodes_contains(state.inner.states@, n);
                    let w = choose|w: int|
                        0 <= w < states_nodes(state.inner.states@).len() && states_nodes(
                            state.inner.states@,
                        )[w] == n;
                    assert(state.nodes()[w] == n);
                }
            }
            self@[i].rebuild_req_frame(state.inner.states@[i], d1, d2);
        }
        if self@.len() > state.inner.states@.len() {
            assert(state.nodes()[states_nodes(state.inner.states@).len() as int]
                == state.inner.marker);
        }
    }

    fn build(self, dom: &mut Dom, cx: &mut Cx) -> (state: ArrayState<T::State>)
        ensures
            state.inner.states@.len() == N,
            forall|k: int|
                0 <= k < self@.len() ==> rnodes(
                    *final(dom),
                    (#[trigger] state.inner.states@[k]).live(),
                ) == self@[k].target(),
    {
        let items = array_into_vec(self);
        let ghost iv = items@;
        let inner = items.build(dom, cx);
        proof {
            assert(targets_all(iv) == targets_all(self@));
        }
        ArrayState { inner }
    }

    fn rebuild(self, state: &mut ArrayState<T::State>, dom: &mut Dom, cx: &mut Cx)
        ensures
            final(state).inner.marker == old(state).inner.marker,
            final(state).inner.states@.len() == N,
            forall|k: int|
                0 <= k < self@.len() ==> rnodes(
                    *final(dom),
                    (#[trigger] final(state).inner.states@[k]).live(),
                ) == self@[k].target(),
            forall|k: int|
                0 <= k < self@.len() && k < old(state).inner.states@.len() && (
                #[trigger] self@[k]).no_change(old(state).inner.states@[k]) ==> final(
                    state
                ).inner.states@[k].nodes() == old(state).inner.states@[k].nodes() && final(
                    state
                ).inner.states@[k].live() == old(state).inner.states@[k].live() && agree_on(
                    *old(dom),
                    *final(dom),
                    old(state).inner.states@[k].nodes(),
                ),
    {
        let items = array_into_vec(self);
        let ghost iv = items@;
        items.rebuild(&mut state.inner, dom, cx);
        proof {
            assert(targets_all(iv) == targets_all(self@));
        }
    }
}

} // verus!
