//! View rendering for tuples: heterogeneous, fixed-arity sequences of
//! children.  Build, rebuild, mount and unmount simply sequence the
//! corresponding operation across the elements in declaration order, and
//! the splice anchor is the first element that presents any node.

use crate::context::{cx_frame, lemma_cx_frame_trans, Cx};
use crate::dom::{
    agree_on, appends, content_stable, detached, fresh_nodes, insert_before_marker, kinds_stable,
    lemma_ibm_compose, lemma_no_dup_concat, lemma_no_dup_join, lemma_rnodes_stable,
    lemma_without_compose, node_unchanged, parents_frame, rnodes, texts_frame, valid_all, without,
    Dom, NodeKind, RNode,
};
use crate::view::{Mountable, Render};
use vstd::prelude::*;

verus! {

impl<A: Render> Render for (A,) {
    type State = A::State;

    open spec fn target(self) -> Seq<RNode> {
        self.0.target()
    }

    open spec fn no_change(self, state: A::State) -> bool {
        self.0.no_change(state)
    }

    open spec fn builds_clean(self) -> bool {
        self.0.builds_clean()
    }

    open spec fn rebuilds_clean(self, state: A::State) -> bool {
        self.0.rebuilds_clean(state)
    }

    open spec fn rebuild_req(self, state: A::State, dom: Dom) -> bool {
        self.0.rebuild_req(state, dom)
    }

    proof fn rebuild_req_frame(self, state: A::State, d1: Dom, d2: Dom) {
        self.0.rebuild_req_frame(state, d1, d2);
    }

    fn build(self, dom: &mut Dom, cx: &mut Cx) -> (state: A::State) {
        self.0.build(dom, cx)
    }

    fn rebuild(self, state: &mut A::State, dom: &mut Dom, cx: &mut Cx) {
        self.0.rebuild(state, dom, cx);
    }
}

impl<A: Mountable, B: Mountable> Mountable for (A, B) {
    open spec fn nodes(self) -> Seq<usize> {
        self.0.nodes() + self.1.nodes()
    }

    open spec fn live(self) -> Seq<usize> {
        self.0.live() + self.1.live()
    }

    open spec fn wf(self, dom: Dom) -> bool {
        &&& self.0.wf(dom)
        &&& self.1.wf(dom)
        &&& self.nodes().no_duplicates()
    }

    proof fn wf_frame(self, d1: Dom, d2: Dom) {
        assert(agree_on(d1, d2, self.0.nodes())) by {
            assert forall|i: int| 0 <= i < self.0.nodes().len() implies {
                let n = #[trigger] self.0.nodes()[i];
                &&& d1.is_valid(n)
                &&& d2.is_valid(n)
                &&& d2.kind_of(n) == d1.kind_of(n)
                &&& d2.text_of(n) == d1.text_of(n)
                &&& d2.parent_of(n) == d1.parent_of(n)
            } by {
                assert(self.nodes()[i] == self.0.nodes()[i]);
            }
        }
        assert(agree_on(d1, d2, self.1.nodes())) by {
            assert forall|i: int| 0 <= i < self.1.nodes().len() implies {
                let n = #[trigger] self.1.nodes()[i];
                &&& d1.is_valid(n)
                &&& d2.is_valid(n)
                &&& d2.kind_of(n) == d1.kind_of(n)
                &&& d2.text_of(n) == d1.text_of(n)
                &&& d2.parent_of(n) == d1.parent_of(n)
            } by {
                assert(self.nodes()[self.0.nodes().len() + i] == self.1.nodes()[i]);
            }
        }
        self.0.wf_frame(d1, d2);
        self.1.wf_frame(d1, d2);
    }

    proof fn wf_facts(self, dom: Dom) {
        self.0.wf_facts(dom);
        self.1.wf_facts(dom);
        let an = self.0.nodes();
        let bn = self.1.nodes();
        let al = self.0.live();
        let bl = self.1.live();
        assert forall|i: int| 0 <= i < self.nodes().len() implies dom.is_valid(
            #[trigger] self.nodes()[i],
        ) && dom.kind_of(self.nodes()[i]) != NodeKind::Element by {
            if i < an.len() {
                assert(self.nodes()[i] == an[i]);
            } else {
                assert(self.nodes()[i] == bn[i - an.len()]);
            }
        }
        assert forall|i: int| 0 <= i < self.live().len() implies self.nodes().contains(
            #[trigger] self.live()[i],
        ) by {
            if i < al.len() {
                assert(self.live()[i] == al[i]);
                assert(an.contains(al[i]));
                let w = choose|w: int| 0 <= w < an.len() && an[w] == al[i];
                assert(self.nodes()[w] == self.live()[i]);
            } else {
                assert(self.live()[i] == bl[i - al.len()]);
                assert(bn.contains(bl[i - al.len()]));
                let w = choose|w: int| 0 <= w < bn.len() && bn[w] == bl[i - al.len()];
                assert(self.nodes()[an.len() + w] == self.live()[i]);
            }
        }
        assert(self.live().no_duplicates()) by {
            lemma_no_dup_concat(an, bn);
            assert forall|x: usize| al.contains(x) implies !bl.contains(x) by {
                if al.contains(x) && bl.contains(x) {
                    let i = choose|i: int| 0 <= i < al.len() && al[i] == x;
                    let j = choose|j: int| 0 <= j < bl.len() && bl[j] == x;
                    assert(an.contains(al[i]));
                    assert(bn.contains(bl[j]));
                }
            }
            crate::dom::lemma_no_dup_disjoint_join(al, bl);
        }
        assert forall|i: int| 0 <= i < self.nodes().len() implies self.live().contains(
            #[trigger] self.nodes()[i],
        ) || dom.parent_of(self.nodes()[i]) is None by {
            if i < an.len() {
                assert(self.nodes()[i] == an[i]);
                if al.contains(an[i]) {
                    let w = choose|w: int| 0 <= w < al.len() && al[w] == an[i];
                    assert(self.live()[w] == an[i]);
                }
            } else {
                assert(self.nodes()[i] == bn[i - an.len()]);
                if bl.contains(bn[i - an.len()]) {
                    let w = choose|w: int| 0 <= w < bl.len() && bl[w] == bn[i - an.len()];
                    assert(self.live()[al.len() + w] == bn[i - an.len()]);
                }
            }
        }
        assert(al.len() > 0);
        assert(self.live().len() > 0);
    }

    fn unmount(&self, dom: &mut Dom) {
        let ghost d0 = *old(dom);
        proof {
            self.wf_facts(d0);
            lemma_no_dup_concat(self.0.nodes(), self.1.nodes());
        }
        self.0.unmount(dom);
        let ghost d1 = *dom;
        proof {
            assert(agree_on(d0, d1, self.1.nodes())) by {
                assert forall|i: int| 0 <= i < self.1.nodes().len() implies {
                    let n = #[trigger] self.1.nodes()[i];
                    &&& d0.is_valid(n)
                    &&& d1.is_valid(n)
                    &&& d1.kind_of(n) == d0.kind_of(n)
                    &&& d1.text_of(n) == d0.text_of(n)
                    &&& d1.parent_of(n) == d0.parent_of(n)
                } by {
                    let n = self.1.nodes()[i];
                    self.1.wf_facts(d0);
                    assert(self.1.nodes().contains(n));
                    assert(!self.0.nodes().contains(n));
                }
            }
            self.1.wf_frame(d0, d1);
        }
        self.1.unmount(dom);
        proof {
            let d2 = *dom;
            assert forall|e: usize| d0.is_valid(e) implies #[trigger] d2.children_of(e) == without(
                d0.children_of(e),
                self.nodes(),
            ) by {
                lemma_without_compose(d0.children_of(e), self.0.nodes(), self.1.nodes());
            }
            assert forall|j: int| 0 <= j < self.nodes().len() implies d2.parent_of(
                #[trigger] self.nodes()[j],
            ) is None by {
                if j < self.0.nodes().len() {
                    let n = self.0.nodes()[j];
                    assert(self.nodes()[j] == n);
                    assert(d1.parent_of(n) is None);
                    assert(!self.1.nodes().contains(n)) by {
                        assert(self.0.nodes().contains(n));
                    }
                    assert(d2.parent_of(n) == d1.parent_of(n));
                } else {
                    assert(self.nodes()[j] == self.1.nodes()[j - self.0.nodes().len()]);
                }
            }
            assert forall|m: usize| d0.is_valid(m) && !self.nodes().contains(m) implies
                #[trigger] d2.parent_of(m) == d0.parent_of(m) by {
                assert(!self.0.nodes().contains(m)) by {
                    if self.0.nodes().contains(m) {
                        let w = choose|w: int|
                            0 <= w < self.0.nodes().len() && self.0.nodes()[w] == m;
                        assert(self.nodes()[w] == m);
                    }
                }
                assert(!self.1.nodes().contains(m)) by {
                    if self.1.nodes().contains(m) {
                        let w = choose|w: int|
                            0 <= w < self.1.nodes().len() && self.1.nodes()[w] == m;
                        assert(self.nodes()[self.0.nodes().len() + w] == m);
                    }
                }
                assert(d1.parent_of(m) == d0.parent_of(m));
            }
            assert(self.0.wf(d2)) by {
                assert(agree_on(d1, d2, self.0.nodes())) by {
                    assert forall|i: int| 0 <= i < self.0.nodes().len() implies {
                        let n = #[trigger] self.0.nodes()[i];
                        &&& d1.is_valid(n)
                        &&& d2.is_valid(n)
                        &&& d2.kind_of(n) == d1.kind_of(n)
                        &&& d2.text_of(n) == d1.text_of(n)
                        &&& d2.parent_of(n) == d1.parent_of(n)
                    } by {
                        let n = self.0.nodes()[i];
                        self.0.wf_facts(d1);
                        assert(self.0.nodes().contains(n));
                        assert(!self.1.nodes().contains(n));
                    }
                }
                self.0.wf_frame(d1, d2);
            }
        }
    }

    fn mount(&self, dom: &mut Dom, parent: usize, marker: Option<usize>) {
        let ghost d0 = *old(dom);
        let ghost c0 = d0.children_of(parent);
        proof {
            self.wf_facts(d0);
            lemma_no_dup_concat(self.0.nodes(), self.1.nodes());
            assert(detached(d0, self.0.nodes())) by {
                assert forall|i: int| 0 <= i < self.0.nodes().len() implies d0.parent_of(
                    #[trigger] self.0.nodes()[i],
                ) is None by {
                    assert(self.nodes()[i] == self.0.nodes()[i]);
                }
            }
        }
        self.0.mount(dom, parent, marker);
        let ghost d1 = *dom;
        proof {
            assert(agree_on(d0, d1, self.1.nodes())) by {
                assert forall|i: int| 0 <= i < self.1.nodes().len() implies {
                    let n = #[trigger] self.1.nodes()[i];
                    &&& d0.is_valid(n)
                    &&& d1.is_valid(n)
                    &&& d1.kind_of(n) == d0.kind_of(n)
                    &&& d1.text_of(n) == d0.text_of(n)
                    &&& d1.parent_of(n) == d0.parent_of(n)
                } by {
                    let n = self.1.nodes()[i];
                    self.1.wf_facts(d0);
                    assert(self.1.nodes().contains(n));
                    assert(!self.0.live().contains(n)) by {
                        self.0.wf_facts(d0);
                        if self.0.live().contains(n) {
                            let w = choose|w: int|
                                0 <= w < self.0.live().len() && self.0.live()[w] == n;
                            assert(self.0.nodes().contains(self.0.live()[w]));
                            assert(!self.0.nodes().contains(n));
                        }
                    }
                }
            }
            self.1.wf_frame(d0, d1);
            assert(detached(d1, self.1.nodes())) by {
                assert forall|i: int| 0 <= i < self.1.nodes().len() implies d1.parent_of(
                    #[trigger] self.1.nodes()[i],
                ) is None by {
                    assert(self.nodes()[self.0.nodes().len() + i] == self.1.nodes()[i]);
                    assert(d0.parent_of(self.1.nodes()[i]) is None);
                }
            }
            match marker {
                Some(m) => {
                    assert(d1.children_of(parent).contains(m)) by {
                        let idx = c0.index_of(m);
                        assert(exists|w: int| 0 <= w < c0.len() && c0[w] == m);
                        assert(0 <= idx < c0.len() && c0[idx] == m);
                        assert(d1.children_of(parent) == c0.take(idx) + self.0.live() + c0.skip(
                            idx,
                        ));
                        assert(c0.skip(idx)[0] == m);
                        assert(d1.children_of(parent)[(c0.take(idx).len()
                            + self.0.live().len()) as int] == m);
                    }
                },
                None => {},
            }
        }
        self.1.mount(dom, parent, marker);
        proof {
            let d2 = *dom;
            match marker {
                Some(m) => {
                    assert(c0.no_duplicates()) by {
                        assert(d0.children_of(parent).no_duplicates());
                    }
                    assert(!self.0.live().contains(m)) by {
                        self.0.wf_facts(d0);
                        if self.0.live().contains(m) {
                            let w = choose|w: int|
                                0 <= w < self.0.live().len() && self.0.live()[w] == m;
                            assert(self.0.nodes().contains(self.0.live()[w]));
                            let v = choose|v: int|
                                0 <= v < self.0.nodes().len() && self.0.nodes()[v] == m;
                            assert(self.nodes()[v] == m);
                            assert(d0.parent_of(m) is None);
                            assert(c0.contains(m));
                            d0.lemma_only_parent_lists(m, parent);
                            assert(false);
                        }
                    }
                    lemma_ibm_compose(c0, self.0.live(), self.1.live(), m);
                },
                None => {
                    assert(insert_before_marker(c0, self.0.live(), marker) == c0 + self.0.live());
                    assert(insert_before_marker(c0, self.live(), marker) =~= (c0 + self.0.live())
                        + self.1.live());
                },
            }
            assert forall|i: int| 0 <= i < self.live().len() implies d2.parent_of(
                #[trigger] self.live()[i],
            ) == Some(parent) by {
                if i < self.0.live().len() {
                    let n = self.0.live()[i];
                    assert(self.live()[i] == n);
                    assert(d1.parent_of(n) == Some(parent));
                    assert(!self.1.live().contains(n)) by {
                        self.0.wf_facts(d0);
                        self.1.wf_facts(d0);
                        if self.1.live().contains(n) {
                            let w = choose|w: int|
                                0 <= w < self.1.live().len() && self.1.live()[w] == n;
                            assert(self.1.nodes().contains(self.1.live()[w]));
                            assert(self.0.nodes().contains(self.0.live()[i]));
                            assert(!self.1.nodes().contains(n));
                        }
                    }
                    assert(d2.parent_of(n) == d1.parent_of(n));
                } else {
                    assert(self.live()[i] == self.1.live()[i - self.0.live().len()]);
                }
            }
            assert forall|m2: usize| d0.is_valid(m2) && !self.live().contains(m2) implies
                #[trigger] d2.parent_of(m2) == d0.parent_of(m2) by {
                assert(!self.0.live().contains(m2)) by {
                    if self.0.live().contains(m2) {
                        let w = choose|w: int|
                            0 <= w < self.0.live().len() && self.0.live()[w] == m2;
                        assert(self.live()[w] == m2);
                    }
                }
                assert(!self.1.live().contains(m2)) by {
                    if self.1.live().contains(m2) {
                        let w = choose|w: int|
                            0 <= w < self.1.live().len() && self.1.live()[w] == m2;
                        assert(self.live()[self.0.live().len() + w] == m2);
                    }
                }
                assert(d1.parent_of(m2) == d0.parent_of(m2));
            }
            assert(self.0.wf(d2)) by {
                assert(agree_on(d1, d2, self.0.nodes())) by {
                    assert forall|i: int| 0 <= i < self.0.nodes().len() implies {
                        let n = #[trigger] self.0.nodes()[i];
                        &&& d1.is_valid(n)
                        &&& d2.is_valid(n)
                        &&& d2.kind_of(n) == d1.kind_of(n)
                        &&& d2.text_of(n) == d1.text_of(n)
                        &&& d2.parent_of(n) == d1.parent_of(n)
                    } by {
                        let n = self.0.nodes()[i];
                        self.0.wf_facts(d1);
                        self.1.wf_facts(d1);
                        assert(self.0.nodes().contains(n));
                        assert(!self.1.live().contains(n)) by {
                            if self.1.live().contains(n) {
                                let w = choose|w: int|
                                    0 <= w < self.1.live().len() && self.1.live()[w] == n;
                                assert(self.1.nodes().contains(self.1.live()[w]));
                                assert(!self.1.nodes().contains(n));
                            }
                        }
                    }
                }
                self.0.wf_frame(d1, d2);
            }
        }
    }

    fn first_node(&self) -> (r: Option<usize>) {
        let r = self.0.first_node();
        match r {
            Some(n) => {
                proof {
                    assert(self.live()[0] == self.0.live()[0]);
                }
                Some(n)
            },
            None => {
                let r2 = self.1.first_node();
                proof {
                    if self.1.live().len() > 0 {
                        assert(self.live()[0] == self.1.live()[0]);
                    } else {
                        assert(self.live().len() == 0);
                    }
                }
                r2
            },
        }
    }
}

impl<A: Render, B: Render> Render for (A, B) {
    type State = (A::State, B::State);

    open spec fn target(self) -> Seq<RNode> {
        self.0.target() + self.1.target()
    }

    open spec fn no_change(self, state: (A::State, B::State)) -> bool {
        self.0.no_change(state.0) && self.1.no_change(state.1)
    }

    open spec fn builds_clean(self) -> bool {
        self.0.builds_clean() && self.1.builds_clean()
    }

    open spec fn rebuilds_clean(self, state: (A::State, B::State)) -> bool {
        self.0.rebuilds_clean(state.0) && self.1.rebuilds_clean(state.1)
    }

    open spec fn rebuild_req(self, state: (A::State, B::State), dom: Dom) -> bool {
        self.0.rebuild_req(state.0, dom) && self.1.rebuild_req(state.1, dom)
    }

    proof fn rebuild_req_frame(self, state: (A::State, B::State), d1: Dom, d2: Dom) {
        assert(agree_on(d1, d2, state.0.nodes())) by {
            assert forall|i: int| 0 <= i < state.0.nodes().len() implies {
                let n = #[trigger] state.0.nodes()[i];
                &&& d1.is_valid(n)
                &&& d2.is_valid(n)
                &&& d2.kind_of(n) == d1.kind_of(n)
                &&& d2.text_of(n) == d1.text_of(n)
                &&& d2.parent_of(n) == d1.parent_of(n)
            } by {
                assert(state.nodes()[i] == state.0.nodes()[i]);
            }
        }
        assert(agree_on(d1, d2, state.1.nodes())) by {
            assert forall|i: int| 0 <= i < state.1.nodes().len() implies {
                let n = #[trigger] state.1.nodes()[i];
                &&& d1.is_valid(n)
                &&& d2.is_valid(n)
                &&& d2.kind_of(n) == d1.kind_of(n)
                &&& d2.text_of(n) == d1.text_of(n)
                &&& d2.parent_of(n) == d1.parent_of(n)
            } by {
                assert(state.nodes()[state.0.nodes().len() + i] == state.1.nodes()[i]);
            }
        }
        self.0.rebuild_req_frame(state.0, d1, d2);
        self.1.rebuild_req_frame(state.1, d1, d2);
    }

    fn build(self, dom: &mut Dom, cx: &mut Cx) -> (state: (A::State, B::State)) {
        let ghost d0 = *old(dom);
        let ghost cx0 = *old(cx);
        let a = self.0.build(dom, cx);
        let ghost d1 = *dom;
        let ghost cx1 = *cx;
        let b = self.1.build(dom, cx);
        let state = (a, b);
        proof {
            let d2 = *dom;
            assert(agree_on(d1, d2, a.nodes())) by {
                a.wf_facts(d1);
                assert forall|i: int| 0 <= i < a.nodes().len() implies {
                    let n = #[trigger] a.nodes()[i];
                    &&& d1.is_valid(n)
                    &&& d2.is_valid(n)
                    &&& d2.kind_of(n) == d1.kind_of(n)
                    &&& d2.text_of(n) == d1.text_of(n)
                    &&& d2.parent_of(n) == d1.parent_of(n)
                } by {
                    assert(node_unchanged(d1, d2, a.nodes()[i]));
                }
            }
            a.wf_frame(d1, d2);
            a.wf_facts(d1);
            b.wf_facts(d2);
            assert(appends(d0, d2)) by {
                assert forall|n: usize| d0.is_valid(n) implies #[trigger] node_unchanged(
                    d0,
                    d2,
                    n,
                ) by {
                    assert(node_unchanged(d0, d1, n));
                    assert(node_unchanged(d1, d2, n));
                }
            }
            assert(state.wf(d2)) by {
                assert forall|j: int| 0 <= j < a.nodes().len() implies #[trigger] a.nodes()[j]
                    < d1.num_nodes() by {
                    assert(d1.is_valid(a.nodes()[j]));
                }
                lemma_no_dup_join(a.nodes(), b.nodes(), d1.num_nodes());
            }
            assert forall|j: int| 0 <= j < state.nodes().len() implies #[trigger] state.nodes()[j]
                >= d0.num_nodes() && d2.parent_of(state.nodes()[j]) is None by {
                if j < a.nodes().len() {
                    assert(state.nodes()[j] == a.nodes()[j]);
                    assert(node_unchanged(d1, d2, a.nodes()[j]));
                } else {
                    assert(state.nodes()[j] == b.nodes()[j - a.nodes().len()]);
                    assert(b.nodes()[j - a.nodes().len()] >= d1.num_nodes());
                }
            }
            assert(rnodes(d2, state.live()) == self.target()) by {
                assert forall|i: int| 0 <= i < a.live().len() implies {
                    let n = #[trigger] a.live()[i];
                    &&& d1.is_valid(n)
                    &&& d2.is_valid(n)
                    &&& d2.kind_of(n) == d1.kind_of(n)
                    &&& d2.text_of(n) == d1.text_of(n)
                } by {
                    assert(a.nodes().contains(a.live()[i]));
                    let w = choose|w: int| 0 <= w < a.nodes().len() && a.nodes()[w] == a.live()[i];
                    assert(node_unchanged(d1, d2, a.nodes()[w]));
                }
                lemma_rnodes_stable(d1, d2, a.live());
                assert(rnodes(d2, state.live()) =~= rnodes(d2, a.live()) + rnodes(d2, b.live()));
            }
            lemma_cx_frame_trans(cx0, cx1, *cx);
        }
        state
    }

    fn rebuild(self, state: &mut (A::State, B::State), dom: &mut Dom, cx: &mut Cx) {
        let ghost d0 = *old(dom);
        let ghost cx0 = *old(cx);
        proof {
            old(state).wf_facts(d0);
            lemma_no_dup_concat(old(state).0.nodes(), old(state).1.nodes());
        }
        self.0.rebuild(&mut state.0, dom, cx);
        let ghost d1 = *dom;
        let ghost cx1 = *cx;
        proof {
            assert(agree_on(d0, d1, old(state).1.nodes())) by {
                assert forall|i: int| 0 <= i < old(state).1.nodes().len() implies {
                    let n = #[trigger] old(state).1.nodes()[i];
                    &&& d0.is_valid(n)
                    &&& d1.is_valid(n)
                    &&& d1.kind_of(n) == d0.kind_of(n)
                    &&& d1.text_of(n) == d0.text_of(n)
                    &&& d1.parent_of(n) == d0.parent_of(n)
                } by {
                    let n = old(state).1.nodes()[i];
                    old(state).1.wf_facts(d0);
                    assert(old(state).1.nodes().contains(n));
                    assert(!old(state).0.nodes().contains(n));
                }
            }
            old(state).1.wf_frame(d0, d1);
            self.1.rebuild_req_frame(old(state).1, d0, d1);
        }
        self.1.rebuild(&mut state.1, dom, cx);
        proof {
            let d2 = *dom;
            let a = state.0;
            let b = state.1;
            a.wf_facts(d1);
            b.wf_facts(d2);
            // the first element is untouched by the second's rebuild
            assert(agree_on(d1, d2, a.nodes())) by {
                assert forall|i: int| 0 <= i < a.nodes().len() implies {
                    let n = #[trigger] a.nodes()[i];
                    &&& d1.is_valid(n)
                    &&& d2.is_valid(n)
                    &&& d2.kind_of(n) == d1.kind_of(n)
                    &&& d2.text_of(n) == d1.text_of(n)
                    &&& d2.parent_of(n) == d1.parent_of(n)
                } by {
                    let n = a.nodes()[i];
                    assert(a.nodes().contains(n));
                    assert(!old(state).1.nodes().contains(n)) by {
                        if old(state).1.nodes().contains(n) {
                            assert(old(state).0.nodes().contains(n) || n >= d0.num_nodes());
                            if old(state).0.nodes().contains(n) {
                                assert(!old(state).1.nodes().contains(n));
                            } else {
                                old(state).1.wf_facts(d0);
                                let w = choose|w: int|
                                    0 <= w < old(state).1.nodes().len() && old(state).1.nodes()[w]
                                        == n;
                                assert(d0.is_valid(old(state).1.nodes()[w]));
                            }
                        }
                    }
                }
            }
            a.wf_frame(d1, d2);
            assert(state.wf(d2)) by {
                assert forall|j: int| 0 <= j < a.nodes().len() implies #[trigger] a.nodes()[j]
                    < d1.num_nodes() by {
                    assert(d1.is_valid(a.nodes()[j]));
                }
                assert forall|j: int| 0 <= j < b.nodes().len() implies old(
                    state,
                ).1.nodes().contains(#[trigger] b.nodes()[j]) || b.nodes()[j]
                    >= d1.num_nodes() by {}
                assert forall|j: int| 0 <= j < old(state).1.nodes().len() implies #[trigger] old(
                    state,
                ).1.nodes()[j] < d1.num_nodes() by {
                    old(state).1.wf_facts(d0);
                    assert(d0.is_valid(old(state).1.nodes()[j]));
                }
                crate::dom::lemma_no_dup_replace(
                    a.nodes(),
                    old(state).1.nodes(),
                    Seq::<usize>::empty(),
                    b.nodes(),
                    d1.num_nodes(),
                );
                assert(a.nodes() + old(state).1.nodes() + Seq::<usize>::empty() =~= a.nodes()
                    + old(state).1.nodes());
                assert((a.nodes() + old(state).1.nodes()).no_duplicates()) by {
                    let whole_old = old(state).0.nodes() + old(state).1.nodes();
                    assert forall|j: int| 0 <= j < a.nodes().len() implies old(
                        state,
                    ).0.nodes().contains(#[trigger] a.nodes()[j]) || a.nodes()[j]
                        >= d0.num_nodes() by {}
                    assert forall|j: int| 0 <= j < old(state).0.nodes().len() implies
                        #[trigger] old(state).0.nodes()[j] < d0.num_nodes() by {
                        old(state).0.wf_facts(d0);
                        assert(d0.is_valid(old(state).0.nodes()[j]));
                    }
                    assert forall|j: int| 0 <= j < old(state).1.nodes().len() implies #[trigger]
                    old(state).1.nodes()[j] < d0.num_nodes() by {
                        old(state).1.wf_facts(d0);
                        assert(d0.is_valid(old(state).1.nodes()[j]));
                    }
                    crate::dom::lemma_no_dup_replace(
                        Seq::<usize>::empty(),
                        old(state).0.nodes(),
                        old(state).1.nodes(),
                        a.nodes(),
                        d0.num_nodes(),
                    );
                    assert(Seq::<usize>::empty() + old(state).0.nodes() + old(state).1.nodes()
                        =~= whole_old);
                    assert(Seq::<usize>::empty() + a.nodes() + old(state).1.nodes() =~= a.nodes()
                        + old(state).1.nodes());
                }
                assert(a.nodes() + b.nodes() =~= a.nodes() + b.nodes() + Seq::<usize>::empty());
            }
            // the rendered content is both elements' targets in order
            assert(rnodes(d2, state.live()) == self.target()) by {
                assert forall|i: int| 0 <= i < a.live().len() implies {
                    let n = #[trigger] a.live()[i];
                    &&& d1.is_valid(n)
                    &&& d2.is_valid(n)
                    &&& d2.kind_of(n) == d1.kind_of(n)
                    &&& d2.text_of(n) == d1.text_of(n)
                } by {
                    assert(a.nodes().contains(a.live()[i]));
                    let w = choose|w: int| 0 <= w < a.nodes().len() && a.nodes()[w] == a.live()[i];
                    assert(d1.is_valid(a.nodes()[w]));
                }
                lemma_rnodes_stable(d1, d2, a.live());
                assert(rnodes(d2, state.live()) =~= rnodes(d2, a.live()) + rnodes(d2, b.live()));
            }
            // frames compose over the pair's footprint
            assert(texts_frame(d0, d2, old(state).nodes())) by {
                assert forall|n: usize| d0.is_valid(n) && !old(state).nodes().contains(n) implies
                    #[trigger] d2.text_of(n) == d0.text_of(n) by {
                    assert(!old(state).0.nodes().contains(n)) by {
                        if old(state).0.nodes().contains(n) {
                            let w = choose|w: int|
                                0 <= w < old(state).0.nodes().len() && old(state).0.nodes()[w]
                                    == n;
                            assert(old(state).nodes()[w] == n);
                        }
                    }
                    assert(!old(state).1.nodes().contains(n)) by {
                        if old(state).1.nodes().contains(n) {
                            let w = choose|w: int|
                                0 <= w < old(state).1.nodes().len() && old(state).1.nodes()[w]
                                    == n;
                            assert(old(state).nodes()[old(state).0.nodes().len() + w] == n);
                        }
                    }
                    assert(d1.text_of(n) == d0.text_of(n));
                }
            }
            assert(parents_frame(d0, d2, old(state).nodes())) by {
                assert forall|n: usize| d0.is_valid(n) && !old(state).nodes().contains(n) implies
                    #[trigger] d2.parent_of(n) == d0.parent_of(n) by {
                    assert(!old(state).0.nodes().contains(n)) by {
                        if old(state).0.nodes().contains(n) {
                            let w = choose|w: int|
                                0 <= w < old(state).0.nodes().len() && old(state).0.nodes()[w]
                                    == n;
                            assert(old(state).nodes()[w] == n);
                        }
                    }
                    assert(!old(state).1.nodes().contains(n)) by {
                        if old(state).1.nodes().contains(n) {
                            let w = choose|w: int|
                                0 <= w < old(state).1.nodes().len() && old(state).1.nodes()[w]
                                    == n;
                            assert(old(state).nodes()[old(state).0.nodes().len() + w] == n);
                        }
                    }
                    assert(d1.parent_of(n) == d0.parent_of(n));
                }
            }
            assert(kinds_stable(d0, d2)) by {
                assert forall|n: usize| d0.is_valid(n) implies #[trigger] d2.kind_of(n)
                    == d0.kind_of(n) by {
                    assert(d1.kind_of(n) == d0.kind_of(n));
                }
            }
            assert forall|i: int| 0 <= i < state.nodes().len() implies old(
                state,
            ).nodes().contains(#[trigger] state.nodes()[i]) || state.nodes()[i]
                >= d0.num_nodes() by {
                if i < a.nodes().len() {
                    assert(state.nodes()[i] == a.nodes()[i]);
                    assert(old(state).0.nodes().contains(a.nodes()[i]) || a.nodes()[i]
                        >= d0.num_nodes());
                    if old(state).0.nodes().contains(a.nodes()[i]) {
                        let w = choose|w: int|
                            0 <= w < old(state).0.nodes().len() && old(state).0.nodes()[w]
                                == a.nodes()[i];
                        assert(old(state).nodes()[w] == a.nodes()[i]);
                    }
                } else {
                    let n = b.nodes()[i - a.nodes().len()];
                    assert(state.nodes()[i] == n);
                    assert(old(state).1.nodes().contains(n) || n >= d1.num_nodes());
                    if old(state).1.nodes().contains(n) {
                        let w = choose|w: int|
                            0 <= w < old(state).1.nodes().len() && old(state).1.nodes()[w] == n;
                        assert(old(state).nodes()[old(state).0.nodes().len() + w] == n);
                    }
                }
            }
            if self.no_change(*old(state)) {
                assert(self.0.no_change(old(state).0));
                assert(self.1.no_change(old(state).1));
                assert(d1 == d0 && cx1 == cx0);
                assert(d2 == d1 && *cx == cx1);
                assert(state.nodes() =~= old(state).nodes());
                assert(state.live() =~= old(state).live());
            }
            // a detached pair stays detached: each side's own rebuild
            // keeps its detachment, and the other side's rebuild frames it
            if detached(d0, old(state).nodes()) {
                let a0 = old(state).0.nodes();
                let b0 = old(state).1.nodes();
                assert(detached(d0, a0)) by {
                    assert forall|j: int| 0 <= j < a0.len() implies d0.parent_of(
                        #[trigger] a0[j],
                    ) is None by {
                        assert(old(state).nodes()[j] == a0[j]);
                    }
                }
                assert(detached(d0, b0)) by {
                    assert forall|j: int| 0 <= j < b0.len() implies d0.parent_of(
                        #[trigger] b0[j],
                    ) is None by {
                        assert(old(state).nodes()[a0.len() + j] == b0[j]);
                    }
                }
                old(state).0.wf_facts(d0);
                old(state).1.wf_facts(d0);
                crate::dom::lemma_no_dup_concat(a0, b0);
                assert(detached(d1, a.nodes()));
                assert(detached(d1, b0)) by {
                    assert forall|j: int| 0 <= j < b0.len() implies d1.parent_of(
                        #[trigger] b0[j],
                    ) is None by {
                        assert(d0.is_valid(b0[j]));
                        assert(!a0.contains(b0[j])) by {
                            assert(b0.contains(b0[j]));
                        }
                        assert(d1.parent_of(b0[j]) == d0.parent_of(b0[j]));
                    }
                }
                assert(detached(d2, b.nodes()));
                assert(detached(d2, a.nodes())) by {
                    assert forall|j: int| 0 <= j < a.nodes().len() implies d2.parent_of(
                        #[trigger] a.nodes()[j],
                    ) is None by {
                        let n = a.nodes()[j];
                        assert(d1.is_valid(n));
                        assert(d1.parent_of(n) is None);
                        assert(!b0.contains(n)) by {
                            assert(a0.contains(n) || n >= d0.num_nodes());
                            if a0.contains(n) {
                                assert(!b0.contains(n));
                            } else if b0.contains(n) {
                                let w = choose|w: int| 0 <= w < b0.len() && b0[w] == n;
                                assert(d0.is_valid(b0[w]));
                            }
                        }
                        assert(d2.parent_of(n) == d1.parent_of(n));
                    }
                }
                assert(detached(d2, state.nodes())) by {
                    assert forall|j: int| 0 <= j < state.nodes().len() implies d2.parent_of(
                        #[trigger] state.nodes()[j],
                    ) is None by {
                        if j < a.nodes().len() {
                            assert(state.nodes()[j] == a.nodes()[j]);
                        } else {
                            assert(state.nodes()[j] == b.nodes()[j - a.nodes().len()]);
                        }
                    }
                }
            }
            lemma_cx_frame_trans(cx0, cx1, *cx);
        }
    }
}

} // verus!
