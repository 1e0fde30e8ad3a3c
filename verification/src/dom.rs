//! The concrete rendering backend: an arena of nodes forming a tree.
//!
//! Retained-state types hold node identifiers (indices into the arena) as
//! their leaves.  Every tree operation the view layer needs — creating text
//! and placeholder nodes, changing a text node's content, inserting a node
//! under an element before a marker sibling, and removing a node — is given
//! an exact contract here, so that the reconciliation algorithms above can
//! be proved to touch exactly the nodes they claim to touch.  A mutation
//! counter records every operation that changes the tree.

use vstd::prelude::*;

verus! {

/// What sort of node an arena entry is.
#[derive(Clone, Copy, PartialEq, Eq, Structural, Debug)]
pub enum NodeKind {
    /// A visible element that can hold children.
    Element,
    /// A text node.
    Text,
    /// A zero-visual-footprint marker node.
    Placeholder,
}

/// The abstract content of one node, as a view value's target speaks of it:
/// an element, a text run with its characters, or an invisible hole.
pub enum RNode {
    /// An element node.
    Elem,
    /// A text node with its content.
    Txt(Seq<char>),
    /// A placeholder node.
    Hole,
}

/// One arena entry.
pub struct Node {
    /// The node's kind; fixed at creation.
    pub kind: NodeKind,
    /// The text content; meaningful for text nodes.
    pub text: String,
    /// The parent element, if the node is attached.
    pub parent: Option<usize>,
    /// The children, in order; meaningful for elements.
    pub children: Vec<usize>,
}

/// The rendering backend: an arena of nodes plus a mutation counter.
pub struct Dom {
    /// All nodes ever created; a node's identifier is its index here.
    pub nodes: Vec<Node>,
    /// Counts every operation that changed the tree.
    pub mutations: u64,
}

impl Dom {
    /// How many nodes exist.
    pub open spec fn num_nodes(&self) -> nat {
        self.nodes@.len()
    }

    /// Whether `n` names a node.
    pub open spec fn is_valid(&self, n: usize) -> bool {
        n < self.nodes@.len()
    }

    /// The kind of node `n`.
    pub open spec fn kind_of(&self, n: usize) -> NodeKind {
        self.nodes@[n as int].kind
    }

    /// The text content of node `n`.
    pub open spec fn text_of(&self, n: usize) -> Seq<char> {
        self.nodes@[n as int].text@
    }

    /// The parent of node `n`, if attached.
    pub open spec fn parent_of(&self, n: usize) -> Option<usize> {
        self.nodes@[n as int].parent
    }

    /// The children of node `n`, in order.
    pub open spec fn children_of(&self, n: usize) -> Seq<usize> {
        self.nodes@[n as int].children@
    }

    /// Whether `n` is a valid element node.
    pub open spec fn is_element(&self, n: usize) -> bool {
        self.is_valid(n) && self.kind_of(n) == NodeKind::Element
    }

    /// Whether `n` is a valid text node.
    pub open spec fn is_text(&self, n: usize) -> bool {
        self.is_valid(n) && self.kind_of(n) == NodeKind::Text
    }

    /// Whether `n` is a valid placeholder node.
    pub open spec fn is_placeholder(&self, n: usize) -> bool {
        self.is_valid(n) && self.kind_of(n) == NodeKind::Placeholder
    }

    /// The abstract content of node `n`.
    pub open spec fn rnode(&self, n: usize) -> RNode {
        match self.kind_of(n) {
            NodeKind::Element => RNode::Elem,
            NodeKind::Text => RNode::Txt(self.text_of(n)),
            NodeKind::Placeholder => RNode::Hole,
        }
    }

    /// Attached nodes appear in their parent's child list.
    pub open spec fn wf_parents(&self) -> bool {
        forall|n: usize|
            self.is_valid(n) && (#[trigger] self.parent_of(n)) is Some ==> {
                let p = self.parent_of(n)->0;
                &&& self.is_element(p)
                &&& self.children_of(p).contains(n)
            }
    }

    /// Only elements have children, and child lists never repeat a node.
    pub open spec fn wf_child_lists(&self) -> bool {
        forall|n: usize|
            self.is_valid(n) ==> {
                &&& (self.kind_of(n) != NodeKind::Element ==> (#[trigger] self.children_of(
                    n,
                )).len() == 0)
                &&& self.children_of(n).no_duplicates()
            }
    }

    /// Every listed child is a valid node whose parent pointer agrees.
    pub open spec fn wf_children(&self) -> bool {
        forall|n: usize, j: int|
            self.is_valid(n) && 0 <= j < self.children_of(n).len() ==> {
                let c = #[trigger] self.children_of(n)[j];
                &&& self.is_valid(c)
                &&& c != n
                &&& self.parent_of(c) == Some(n)
            }
    }

    /// The tree is well-formed.
    pub open spec fn wf(&self) -> bool {
        &&& self.wf_parents()
        &&& self.wf_child_lists()
        &&& self.wf_children()
    }
}

/// Every identifier in `ns` names a node of `dom`.
pub open spec fn valid_all(dom: Dom, ns: Seq<usize>) -> bool {
    forall|i: int| 0 <= i < ns.len() ==> dom.is_valid(#[trigger] ns[i])
}

/// Every node in `ns` is detached (has no parent).
pub open spec fn detached(dom: Dom, ns: Seq<usize>) -> bool {
    forall|i: int| 0 <= i < ns.len() ==> dom.parent_of(#[trigger] ns[i]) is None
}

/// Every identifier in `ns` was not yet a node of `d1`.
pub open spec fn fresh_nodes(d1: Dom, ns: Seq<usize>) -> bool {
    forall|i: int| 0 <= i < ns.len() ==> #[trigger] ns[i] >= d1.num_nodes()
}

/// The two arenas agree on kind, text and parent of every node in `ns`.
pub open spec fn agree_on(d1: Dom, d2: Dom, ns: Seq<usize>) -> bool {
    forall|i: int|
        0 <= i < ns.len() ==> {
            let n = #[trigger] ns[i];
            &&& d1.is_valid(n)
            &&& d2.is_valid(n)
            &&& d2.kind_of(n) == d1.kind_of(n)
            &&& d2.text_of(n) == d1.text_of(n)
            &&& d2.parent_of(n) == d1.parent_of(n)
        }
}

/// Node `n` is identical in the two arenas.
pub open spec fn node_unchanged(d1: Dom, d2: Dom, n: usize) -> bool {
    &&& d2.is_valid(n)
    &&& d2.kind_of(n) == d1.kind_of(n)
    &&& d2.text_of(n) == d1.text_of(n)
    &&& d2.parent_of(n) == d1.parent_of(n)
    &&& d2.children_of(n) == d1.children_of(n)
}

/// `d2` is `d1` with zero or more nodes appended; nothing existing changed.
pub open spec fn appends(d1: Dom, d2: Dom) -> bool {
    &&& d1.num_nodes() <= d2.num_nodes()
    &&& forall|n: usize| d1.is_valid(n) ==> #[trigger] node_unchanged(d1, d2, n)
}

/// Kinds and texts of nodes outside `owned` are unchanged from `d1` to `d2`.
pub open spec fn texts_frame(d1: Dom, d2: Dom, owned: Seq<usize>) -> bool {
    forall|n: usize|
        d1.is_valid(n) && !owned.contains(n) ==> #[trigger] d2.text_of(n) == d1.text_of(n)
}

/// Parents of nodes outside `owned` are unchanged from `d1` to `d2`.
pub open spec fn parents_frame(d1: Dom, d2: Dom, owned: Seq<usize>) -> bool {
    forall|n: usize|
        d1.is_valid(n) && !owned.contains(n) ==> #[trigger] d2.parent_of(n) == d1.parent_of(n)
}

/// Kind and text of every existing node are unchanged from `d1` to `d2`.
pub open spec fn content_stable(d1: Dom, d2: Dom) -> bool {
    forall|n: usize|
        d1.is_valid(n) ==> (#[trigger] d2.kind_of(n)) == d1.kind_of(n) && d2.text_of(n)
            == d1.text_of(n)
}

/// No node disappears and no node changes kind from `d1` to `d2`.
pub open spec fn kinds_stable(d1: Dom, d2: Dom) -> bool {
    &&& d1.num_nodes() <= d2.num_nodes()
    &&& forall|n: usize| d1.is_valid(n) ==> #[trigger] d2.kind_of(n) == d1.kind_of(n)
}

/// The abstract contents of the nodes `ns`, in order.
pub open spec fn rnodes(dom: Dom, ns: Seq<usize>) -> Seq<RNode> {
    Seq::new(ns.len(), |i: int| dom.rnode(ns[i]))
}

/// `c` with the nodes `ns` spliced in immediately before `marker`
/// (or appended, when there is no marker).
pub open spec fn insert_before_marker(c: Seq<usize>, ns: Seq<usize>, marker: Option<usize>) -> Seq<
    usize,
> {
    match marker {
        None => c + ns,
        Some(m) => {
            let i = c.index_of(m);
            c.take(i) + ns + c.skip(i)
        },
    }
}

/// `l` with every node of `ns` struck out, order kept.
pub open spec fn without(l: Seq<usize>, ns: Seq<usize>) -> Seq<usize>
    decreases l.len(),
{
    if l.len() == 0 {
        Seq::empty()
    } else {
        let rest = without(l.drop_first(), ns);
        if ns.contains(l[0]) {
            rest
        } else {
            seq![l[0]] + rest
        }
    }
}

/// `ns` occupies exactly positions `i .. i + ns.len()` of `c`.
pub open spec fn segment_at(c: Seq<usize>, ns: Seq<usize>, i: int) -> bool {
    &&& 0 <= i
    &&& i + ns.len() <= c.len()
    &&& c.subrange(i, i + ns.len()) == ns
}

/// Splicing more nodes immediately before a marker extends a contiguous
/// block that ends at that marker: the block keeps its start and gains the
/// spliced nodes just before the marker.
pub proof fn lemma_segment_extend(c: Seq<usize>, l: Seq<usize>, s: Seq<usize>, m: usize, w: int)
    requires
        c.no_duplicates(),
        segment_at(c, l + seq![m], w),
    ensures
        segment_at(insert_before_marker(c, s, Some(m)), l + s + seq![m], w),
{
    let lm = l + seq![m];
    assert(c.subrange(w, w + lm.len()) == lm);
    assert(c[w + l.len()] == m) by {
        assert(c.subrange(w, w + lm.len())[l.len() as int] == lm[l.len() as int]);
        assert(lm[l.len() as int] == m);
    }
    lemma_index_of_unique(c, m, w + l.len());
    let i = c.index_of(m);
    let r = c.take(i) + s + c.skip(i);
    assert(insert_before_marker(c, s, Some(m)) == r);
    assert(r.subrange(w, w + l.len() + s.len() + 1) =~= l + s + seq![m]) by {
        assert forall|j: int| 0 <= j < l.len() + s.len() + 1 implies r[w + j] == (l + s
            + seq![m])[j] by {
            if j < l.len() {
                assert(r[w + j] == c.take(i)[w + j]);
                assert(c.take(i)[w + j] == c[w + j]);
                assert(c.subrange(w, w + lm.len())[j] == lm[j]);
                assert(lm[j] == l[j]);
            } else if j < l.len() + s.len() {
                assert(r[w + j] == s[j - l.len()]);
            } else {
                assert(w + j == i + s.len());
                assert(r[w + j] == c.skip(i)[0]);
                assert(c.skip(i)[0] == c[i]);
            }
        }
    }
}

/// Detachment carries over to any arena that agrees on the nodes.
pub proof fn lemma_detached_agree(d1: Dom, d2: Dom, ns: Seq<usize>)
    requires
        detached(d1, ns),
        agree_on(d1, d2, ns),
    ensures
        detached(d2, ns),
{
    assert forall|i: int| 0 <= i < ns.len() implies d2.parent_of(#[trigger] ns[i]) is None by {
        assert(d1.parent_of(ns[i]) is None);
    }
}

/// Striking out nodes that do not occur in the list, alongside some that
/// may, strikes out only the latter.
pub proof fn lemma_without_absent(l: Seq<usize>, ns: Seq<usize>, ms: Seq<usize>)
    requires
        forall|i: int| 0 <= i < l.len() ==> !ms.contains(#[trigger] l[i]),
    ensures
        without(l, ns + ms) == without(l, ns),
        without(l, ms + ns) == without(l, ns),
    decreases l.len(),
{
    if l.len() > 0 {
        assert forall|i: int| 0 <= i < l.drop_first().len() implies !ms.contains(
            #[trigger] l.drop_first()[i],
        ) by {
            assert(l.drop_first()[i] == l[i + 1]);
        }
        lemma_without_absent(l.drop_first(), ns, ms);
        lemma_contains_concat(ns, ms, l[0]);
        lemma_contains_concat(ms, ns, l[0]);
        assert(!ms.contains(l[0]));
        assert(without(l, ns + ms) =~= without(l, ns));
        assert(without(l, ms + ns) =~= without(l, ns));
    } else {
        assert(without(l, ns + ms) =~= without(l, ns));
        assert(without(l, ms + ns) =~= without(l, ns));
    }
}

/// Concatenation membership splits into membership in either part.
pub proof fn lemma_contains_concat(a: Seq<usize>, b: Seq<usize>, x: usize)
    ensures
        (a + b).contains(x) <==> (a.contains(x) || b.contains(x)),
{
    if a.contains(x) {
        let i = choose|i: int| 0 <= i < a.len() && a[i] == x;
        assert((a + b)[i] == x);
    }
    if b.contains(x) {
        let i = choose|i: int| 0 <= i < b.len() && b[i] == x;
        assert((a + b)[a.len() + i] == x);
    }
    if (a + b).contains(x) {
        let i = choose|i: int| 0 <= i < (a + b).len() && (a + b)[i] == x;
        if i < a.len() {
            assert(a[i] == x);
        } else {
            assert(b[i - a.len()] == x);
        }
    }
}

/// Striking out nodes that do not occur leaves the list unchanged.
pub proof fn lemma_without_id(l: Seq<usize>, ns: Seq<usize>)
    requires
        forall|i: int| 0 <= i < l.len() ==> !ns.contains(#[trigger] l[i]),
    ensures
        without(l, ns) == l,
    decreases l.len(),
{
    if l.len() > 0 {
        assert(!ns.contains(l[0]));
        lemma_without_id(l.drop_first(), ns);
        assert(without(l, ns) =~= l);
    } else {
        assert(without(l, ns) =~= l);
    }
}

/// Striking out a superset of the list leaves nothing.
pub proof fn lemma_without_all(l: Seq<usize>, ns: Seq<usize>)
    requires
        forall|i: int| 0 <= i < l.len() ==> ns.contains(#[trigger] l[i]),
    ensures
        without(l, ns) == Seq::<usize>::empty(),
    decreases l.len(),
{
    if l.len() > 0 {
        lemma_without_all(l.drop_first(), ns);
    }
    assert(without(l, ns) =~= Seq::<usize>::empty());
}

/// Striking out two sets one after the other strikes out their union.
pub proof fn lemma_without_compose(l: Seq<usize>, a: Seq<usize>, b: Seq<usize>)
    ensures
        without(without(l, a), b) == without(l, a + b),
    decreases l.len(),
{
    if l.len() == 0 {
        assert(without(without(l, a), b) =~= without(l, a + b));
    } else {
        let x = l[0];
        let rest = l.drop_first();
        lemma_without_compose(rest, a, b);
        lemma_contains_concat(a, b, x);
        if a.contains(x) {
            assert(without(l, a) == without(rest, a));
            assert(without(l, a + b) == without(rest, a + b));
        } else {
            assert(without(l, a) == seq![x] + without(rest, a));
            let w = seq![x] + without(rest, a);
            assert(w[0] == x);
            assert(w.drop_first() =~= without(rest, a));
            if b.contains(x) {
                assert(without(w, b) == without(without(rest, a), b));
                assert(without(l, a + b) == without(rest, a + b));
            } else {
                assert(without(w, b) == seq![x] + without(without(rest, a), b));
                assert(without(l, a + b) == seq![x] + without(rest, a + b));
            }
        }
        assert(without(without(l, a), b) =~= without(l, a + b));
    }
}

/// Striking out distributes over concatenation.
pub proof fn lemma_without_concat(l1: Seq<usize>, l2: Seq<usize>, ns: Seq<usize>)
    ensures
        without(l1 + l2, ns) == without(l1, ns) + without(l2, ns),
    decreases l1.len(),
{
    if l1.len() == 0 {
        assert(l1 + l2 =~= l2);
        assert(without(l1, ns) + without(l2, ns) =~= without(l2, ns));
    } else {
        lemma_without_concat(l1.drop_first(), l2, ns);
        assert((l1 + l2).drop_first() =~= l1.drop_first() + l2);
        assert((l1 + l2)[0] == l1[0]);
        if ns.contains(l1[0]) {
            assert(without(l1 + l2, ns) == without(l1.drop_first() + l2, ns));
            assert(without(l1, ns) + without(l2, ns) =~= without(l1 + l2, ns));
        } else {
            assert(without(l1 + l2, ns) == seq![l1[0]] + without(l1.drop_first() + l2, ns));
            assert(without(l1, ns) + without(l2, ns) =~= without(l1 + l2, ns));
        }
    }
}

/// On a duplicate-free list, removing the position that holds `x`
/// is the same as striking `x` out.
pub proof fn lemma_remove_is_without(l: Seq<usize>, j: int)
    requires
        l.no_duplicates(),
        0 <= j < l.len(),
    ensures
        l.remove(j) == without(l, seq![l[j]]),
    decreases j,
{
    let x = l[j];
    if j == 0 {
        assert(seq![x][0] == l[0]);
        assert(seq![x].contains(l[0]));
        assert(forall|i: int|
            0 <= i < l.drop_first().len() ==> !seq![x].contains(#[trigger] l.drop_first()[i]));
        lemma_without_id(l.drop_first(), seq![x]);
        assert(l.remove(0) =~= l.drop_first());
    } else {
        assert(l[0] != x);
        assert(!seq![x].contains(l[0]));
        assert(l.drop_first().no_duplicates());
        assert(l.drop_first()[j - 1] == x);
        lemma_remove_is_without(l.drop_first(), j - 1);
        assert(without(l, seq![x]) == seq![l[0]] + without(l.drop_first(), seq![x]));
        assert(l.remove(j) =~= seq![l[0]] + l.drop_first().remove(j - 1));
    }
}

/// On a duplicate-free list, `index_of` names the one position that holds `m`.
pub proof fn lemma_index_of_unique(c: Seq<usize>, m: usize, j: int)
    requires
        c.no_duplicates(),
        0 <= j < c.len(),
        c[j] == m,
    ensures
        c.index_of(m) == j,
{
    assert(exists|i: int| 0 <= i < c.len() && c[i] == m);
    let i = c.index_of(m);
    assert(0 <= i < c.len() && c[i] == m);
}

/// Inserting a new value into a duplicate-free list keeps it duplicate-free.
pub proof fn lemma_no_dup_insert(c: Seq<usize>, idx: int, x: usize)
    requires
        c.no_duplicates(),
        !c.contains(x),
        0 <= idx <= c.len(),
    ensures
        (c.take(idx) + seq![x] + c.skip(idx)).no_duplicates(),
{
    let d = c.take(idx) + seq![x] + c.skip(idx);
    assert forall|i: int, j: int| 0 <= i < j < d.len() implies d[i] != d[j] by {
        if i < idx {
            assert(d[i] == c[i]);
        } else if i == idx {
            assert(d[i] == x);
        } else {
            assert(d[i] == c[i - 1]);
        }
        if j < idx {
            assert(d[j] == c[j]);
        } else if j == idx {
            assert(d[j] == x);
        } else {
            assert(d[j] == c[j - 1]);
        }
        if i == idx {
            assert(c.contains(c[j - 1]));
        }
        if j == idx {
            assert(c.contains(c[i]));
        }
    }
}

impl Dom {
    /// A detached node stands in no child list.
    pub proof fn lemma_detached_not_listed(&self, n: usize)
        requires
            self.wf(),
            self.is_valid(n),
            self.parent_of(n) is None,
        ensures
            forall|e: usize| self.is_valid(e) ==> !(#[trigger] self.children_of(e)).contains(n),
    {
        assert forall|e: usize| self.is_valid(e) implies !(#[trigger] self.children_of(e)).contains(
            n,
        ) by {
            if self.children_of(e).contains(n) {
                let j = choose|j: int|
                    0 <= j < self.children_of(e).len() && self.children_of(e)[j] == n;
                assert(self.children_of(e)[j] == n);
                assert(self.parent_of(n) == Some(e));
            }
        }
    }

    /// A node listed as a child of `e` has `e` as its parent.
    pub proof fn lemma_only_parent_lists(&self, n: usize, e: usize)
        requires
            self.wf(),
            self.is_valid(e),
            self.children_of(e).contains(n),
        ensures
            self.parent_of(n) == Some(e),
    {
        let j = choose|j: int| 0 <= j < self.children_of(e).len() && self.children_of(e)[j] == n;
        assert(self.children_of(e)[j] == n);
    }

    /// Appends the detached node `child` to `parent`'s children, before
    /// `marker` when one is given, else at the end.
    #[verifier::loop_isolation(false)]
    pub fn insert_node(&mut self, parent: usize, child: usize, marker: Option<usize>)
        requires
            old(self).wf(),
            old(self).is_element(parent),
            old(self).is_valid(child),
            old(self).parent_of(child) is None,
            child != parent,
            marker matches Some(m) ==> old(self).children_of(parent).contains(m),
        ensures
            final(self).wf(),
            final(self).num_nodes() == old(self).num_nodes(),
            final(self).children_of(parent) == insert_before_marker(
                old(self).children_of(parent),
                seq![child],
                marker,
            ),
            final(self).parent_of(child) == Some(parent),
            final(self).kind_of(child) == old(self).kind_of(child),
            final(self).text_of(child) == old(self).text_of(child),
            final(self).children_of(child) == old(self).children_of(child),
            final(self).kind_of(parent) == old(self).kind_of(parent),
            final(self).text_of(parent) == old(self).text_of(parent),
            final(self).parent_of(parent) == old(self).parent_of(parent),
            forall|m: usize|
                old(self).is_valid(m) && m != parent && m != child ==> node_unchanged(
                    *old(self),
                    *final(self),
                    m,
                ),
            content_stable(*old(self), *final(self)),
            final(self).mutations >= old(self).mutations,
    {
        let ghost d1 = *old(self);
        let ghost c0 = old(self).children_of(parent);
        let idx: usize = match marker {
            Some(m) => {
                let mut j: usize = 0;
                let count = self.nodes[parent].children.len();
                loop
                    invariant
                        *self == *old(self),
                        j <= count,
                        count == c0.len(),
                        forall|k: int| 0 <= k < j ==> c0[k] != m,
                    decreases count - j,
                {
                    proof {
                        if j == count {
                            let w = choose|w: int| 0 <= w < c0.len() && c0[w] == m;
                            assert(c0[w] == m);
                            assert(false);
                        }
                    }
                    if self.nodes[parent].children[j] == m {
                        break ;
                    }
                    j = j + 1;
                }
                proof {
                    assert(c0.no_duplicates());
                    lemma_index_of_unique(c0, m, j as int);
                }
                j
            },
            None => self.nodes[parent].children.len(),
        };
        let pnode = &mut self.nodes[parent];
        pnode.children.insert(idx, child);
        let cnode = &mut self.nodes[child];
        cnode.parent = Some(parent);
        self.bump();
        proof {
            let d2 = *self;
            let cnew = c0.take(idx as int) + seq![child] + c0.skip(idx as int);
            assert(d2.children_of(parent) =~= cnew) by {
                assert(d2.children_of(parent) == c0.insert(idx as int, child));
                c0.insert_ensures(idx as int, child);
                assert forall|k: int| 0 <= k < cnew.len() implies cnew[k] == c0.insert(
                    idx as int,
                    child,
                )[k] by {
                    if k < idx {
                        assert(cnew[k] == c0[k]);
                    } else if k == idx {
                        assert(cnew[k] == child);
                    } else {
                        assert(cnew[k] == c0[k - 1]);
                    }
                }
            }
            assert(d2.children_of(parent) == insert_before_marker(c0, seq![child], marker));
            assert forall|m: usize|
                d1.is_valid(m) && m != parent && m != child implies node_unchanged(d1, d2, m) by {
                assert(d2.nodes@[m as int] == d1.nodes@[m as int]);
            }
            d1.lemma_detached_not_listed(child);
            assert(d2.wf_parents()) by {
                assert forall|n: usize|
                    d2.is_valid(n) && (#[trigger] d2.parent_of(n)) is Some implies {
                    let p = d2.parent_of(n)->0;
                    &&& d2.is_element(p)
                    &&& d2.children_of(p).contains(n)
                } by {
                    let p = d2.parent_of(n)->0;
                    if n == child {
                        assert(p == parent);
                        assert(cnew[idx as int] == child);
                    } else {
                        assert(d1.parent_of(n) == d2.parent_of(n));
                        assert(d1.is_element(p) && d1.children_of(p).contains(n));
                        assert(d2.kind_of(p) == d1.kind_of(p));
                        if p == parent {
                            let k = choose|k: int| 0 <= k < c0.len() && c0[k] == n;
                            if k < idx {
                                assert(cnew[k] == n);
                            } else {
                                assert(cnew[k + 1] == n);
                            }
                        }
                    }
                }
            }
            assert(d2.wf_child_lists()) by {
                assert forall|n: usize| d2.is_valid(n) implies {
                    &&& (d2.kind_of(n) != NodeKind::Element ==> (#[trigger] d2.children_of(
                        n,
                    )).len() == 0)
                    &&& d2.children_of(n).no_duplicates()
                } by {
                    if n == parent {
                        assert(!c0.contains(child));
                        lemma_no_dup_insert(c0, idx as int, child);
                    } else {
                        assert(d2.children_of(n) == d1.children_of(n));
                        assert(d2.kind_of(n) == d1.kind_of(n));
                    }
                }
            }
            assert(d2.wf_children()) by {
                assert forall|n: usize, j: int|
                    d2.is_valid(n) && 0 <= j < d2.children_of(n).len() implies {
                    let c = #[trigger] d2.children_of(n)[j];
                    &&& d2.is_valid(c)
                    &&& c != n
                    &&& d2.parent_of(c) == Some(n)
                } by {
                    if n == parent {
                        let c = d2.children_of(n)[j];
                        if j == idx {
                            assert(c == child);
                        } else {
                            let oj: int = if j < idx {
                                j
                            } else {
                                j - 1
                            };
                            assert(c == c0[oj]);
                            assert(d1.parent_of(c) == Some(parent));
                            assert(c != child);
                        }
                    } else {
                        assert(d2.children_of(n) == d1.children_of(n));
                        let c = d2.children_of(n)[j];
                        assert(d1.children_of(n)[j] == c);
                        assert(d1.parent_of(c) == Some(n));
                        assert(c != child);
                    }
                }
            }
            assert(content_stable(d1, d2)) by {
                assert forall|m: usize| d1.is_valid(m) implies (#[trigger] d2.kind_of(m))
                    == d1.kind_of(m) && d2.text_of(m) == d1.text_of(m) by {
                    if m != parent && m != child {
                        assert(node_unchanged(d1, d2, m));
                    }
                }
            }
        }
    }

    /// Detaches node `n` from its parent, if it has one.
    #[verifier::loop_isolation(false)]
    pub fn remove(&mut self, n: usize)
        requires
            old(self).wf(),
            old(self).is_valid(n),
        ensures
            final(self).wf(),
            final(self).num_nodes() == old(self).num_nodes(),
            final(self).parent_of(n) is None,
            final(self).kind_of(n) == old(self).kind_of(n),
            final(self).text_of(n) == old(self).text_of(n),
            final(self).children_of(n) == old(self).children_of(n),
            old(self).parent_of(n) is None ==> final(self).nodes == old(self).nodes,
            old(self).parent_of(n) matches Some(p) ==> {
                &&& final(self).children_of(p) == without(old(self).children_of(p), seq![n])
                &&& final(self).kind_of(p) == old(self).kind_of(p)
                &&& final(self).text_of(p) == old(self).text_of(p)
                &&& final(self).parent_of(p) == old(self).parent_of(p)
                &&& forall|m: usize|
                    old(self).is_valid(m) && m != n && m != p ==> node_unchanged(
                        *old(self),
                        *final(self),
                        m,
                    )
            },
            content_stable(*old(self), *final(self)),
            final(self).mutations >= old(self).mutations,
    {
        let ghost d1 = *old(self);
        let par = self.nodes[n].parent;
        match par {
            None => {
                proof {
                    assert(content_stable(d1, *self)) by {
                        assert forall|m: usize| d1.is_valid(m) implies (#[trigger] self.kind_of(m))
                            == d1.kind_of(m) && self.text_of(m) == d1.text_of(m) by {}
                    }
                }
            },
            Some(p) => {
                let ghost c0 = d1.children_of(p);
                proof {
                    assert(d1.children_of(p).contains(n));
                }
                let mut j: usize = 0;
                let count = self.nodes[p].children.len();
                loop
                    invariant
                        *self == *old(self),
                        j <= count,
                        count == c0.len(),
                        forall|k: int| 0 <= k < j ==> c0[k] != n,
                    decreases count - j,
                {
                    proof {
                        if j == count {
                            let w = choose|w: int| 0 <= w < c0.len() && c0[w] == n;
                            assert(c0[w] == n);
                            assert(false);
                        }
                    }
                    if self.nodes[p].children[j] == n {
                        break ;
                    }
                    j = j + 1;
                }
                let pnode = &mut self.nodes[p];
                pnode.children.remove(j);
                let nnode = &mut self.nodes[n];
                nnode.parent = None;
                self.bump();
                proof {
                    let d2 = *self;
                    assert(c0.no_duplicates());
                    lemma_remove_is_without(c0, j as int);
                    assert(d2.children_of(p) == without(c0, seq![n]));
                    assert forall|m: usize|
                        d1.is_valid(m) && m != n && m != p implies node_unchanged(d1, d2, m) by {
                        assert(d2.nodes@[m as int] == d1.nodes@[m as int]);
                    }
                    let cnew = c0.remove(j as int);
                    assert(d2.wf_parents()) by {
                        assert forall|m: usize|
                            d2.is_valid(m) && (#[trigger] d2.parent_of(m)) is Some implies {
                            let q = d2.parent_of(m)->0;
                            &&& d2.is_element(q)
                            &&& d2.children_of(q).contains(m)
                        } by {
                            assert(m != n);
                            assert(d1.parent_of(m) == d2.parent_of(m));
                            let q = d1.parent_of(m)->0;
                            assert(d1.is_element(q) && d1.children_of(q).contains(m));
                            assert(d2.kind_of(q) == d1.kind_of(q));
                            if q == p {
                                let k = choose|k: int| 0 <= k < c0.len() && c0[k] == m;
                                if k < j {
                                    assert(cnew[k] == m);
                                } else {
                                    assert(k != j);
                                    assert(cnew[k - 1] == m);
                                }
                            }
                        }
                    }
                    assert(d2.wf_child_lists()) by {
                        assert forall|m: usize| d2.is_valid(m) implies {
                            &&& (d2.kind_of(m) != NodeKind::Element ==> (
                            #[trigger] d2.children_of(m)).len() == 0)
                            &&& d2.children_of(m).no_duplicates()
                        } by {
                            if m == p {
                                assert forall|a: int, b: int|
                                    0 <= a < b < cnew.len() implies cnew[a] != cnew[b] by {
                                    let oa: int = if a < j {
                                        a
                                    } else {
                                        a + 1
                                    };
                                    let ob: int = if b < j {
                                        b
                                    } else {
                                        b + 1
                                    };
                                    assert(cnew[a] == c0[oa]);
                                    assert(cnew[b] == c0[ob]);
                                }
                            } else {
                                assert(d2.children_of(m) == d1.children_of(m));
                                assert(d2.kind_of(m) == d1.kind_of(m));
                            }
                        }
                    }
                    assert(content_stable(d1, d2)) by {
                        assert forall|m: usize| d1.is_valid(m) implies (#[trigger] d2.kind_of(m))
                            == d1.kind_of(m) && d2.text_of(m) == d1.text_of(m) by {
                            if m != n && m != p {
                                assert(node_unchanged(d1, d2, m));
                            }
                        }
                    }
                    assert(d2.wf_children()) by {
                        assert forall|m: usize, jj: int|
                            d2.is_valid(m) && 0 <= jj < d2.children_of(m).len() implies {
                            let c = #[trigger] d2.children_of(m)[jj];
                            &&& d2.is_valid(c)
                            &&& c != m
                            &&& d2.parent_of(c) == Some(m)
                        } by {
                            if m == p {
                                let c = d2.children_of(m)[jj];
                                let oj: int = if jj < j {
                                    jj
                                } else {
                                    jj + 1
                                };
                                assert(c == c0[oj]);
                                assert(d1.parent_of(c) == Some(p));
                                assert(oj != j);
                                assert(c != n);
                            } else {
                                assert(d2.children_of(m) == d1.children_of(m));
                                let c = d2.children_of(m)[jj];
                                assert(d1.children_of(m)[jj] == c);
                                assert(d1.parent_of(c) == Some(m));
                                if c == n {
                                    assert(d1.parent_of(n) == Some(p));
                                }
                                assert(c != n);
                            }
                        }
                    }
                }
            },
        }
    }

    /// Creates an empty backend.
    pub fn new() -> (dom: Dom)
        ensures
            dom.wf(),
            dom.num_nodes() == 0,
            dom.mutations == 0,
    {
        Dom { nodes: Vec::new(), mutations: 0 }
    }

    fn bump(&mut self)
        ensures
            final(self).nodes == old(self).nodes,
            final(self).mutations >= old(self).mutations,
    {
        if self.mutations < u64::MAX {
            self.mutations = self.mutations + 1;
        }
    }

    fn create(&mut self, kind: NodeKind, text: String) -> (n: usize)
        ensures
            n == old(self).num_nodes(),
            final(self).num_nodes() == old(self).num_nodes() + 1,
            forall|m: usize| old(self).is_valid(m) ==> node_unchanged(*old(self), *final(self), m),
            final(self).kind_of(n) == kind,
            final(self).text_of(n) == text@,
            final(self).parent_of(n) is None,
            final(self).children_of(n) == Seq::<usize>::empty(),
            old(self).wf() ==> final(self).wf(),
            final(self).mutations >= old(self).mutations,
    {
        let n = self.nodes.len();
        self.nodes.push(Node { kind, text, parent: None, children: Vec::new() });
        self.bump();
        proof {
            let d1 = *old(self);
            let d2 = *self;
            assert forall|m: usize| d1.is_valid(m) implies node_unchanged(d1, d2, m) by {
                assert(d2.nodes@[m as int] == d1.nodes@[m as int]);
            }
            if d1.wf() {
                assert forall|m: usize|
                    d2.is_valid(m) && (#[trigger] d2.parent_of(m)) is Some implies {
                    let p = d2.parent_of(m)->0;
                    &&& d2.is_element(p)
                    &&& d2.children_of(p).contains(m)
                } by {
                    assert(m != n);
                    assert(d1.is_valid(m));
                    assert(d1.parent_of(m) == d2.parent_of(m));
                }
                assert forall|m: usize, j: int|
                    d2.is_valid(m) && 0 <= j < d2.children_of(m).len() implies {
                    let c = #[trigger] d2.children_of(m)[j];
                    &&& d2.is_valid(c)
                    &&& c != m
                    &&& d2.parent_of(c) == Some(m)
                } by {
                    assert(m != n);
                    assert(d1.is_valid(m));
                    assert(d1.children_of(m) == d2.children_of(m));
                    assert(d1.children_of(m)[j] == d2.children_of(m)[j]);
                }
                assert forall|m: usize| d2.is_valid(m) implies {
                    &&& (d2.kind_of(m) != NodeKind::Element ==> (#[trigger] d2.children_of(
                        m,
                    )).len() == 0)
                    &&& d2.children_of(m).no_duplicates()
                } by {
                    if m != n {
                        assert(d1.is_valid(m));
                        assert(d1.children_of(m) == d2.children_of(m));
                    }
                }
            }
        }
        n
    }

    /// Creates a detached element node.
    pub fn create_element(&mut self) -> (n: usize)
        ensures
            n == old(self).num_nodes(),
            final(self).num_nodes() == old(self).num_nodes() + 1,
            forall|m: usize| old(self).is_valid(m) ==> node_unchanged(*old(self), *final(self), m),
            final(self).is_element(n),
            final(self).parent_of(n) is None,
            final(self).children_of(n) == Seq::<usize>::empty(),
            old(self).wf() ==> final(self).wf(),
            final(self).mutations >= old(self).mutations,
    {
        self.create(NodeKind::Element, String::new())
    }

    /// Creates a detached text node with the given content.
    pub fn create_text_node(&mut self, text: &str) -> (n: usize)
        ensures
            n == old(self).num_nodes(),
            final(self).num_nodes() == old(self).num_nodes() + 1,
            forall|m: usize| old(self).is_valid(m) ==> node_unchanged(*old(self), *final(self), m),
            final(self).is_text(n),
            final(self).text_of(n) == text@,
            final(self).parent_of(n) is None,
            final(self).children_of(n) == Seq::<usize>::empty(),
            old(self).wf() ==> final(self).wf(),
            final(self).mutations >= old(self).mutations,
    {
        self.create(NodeKind::Text, text.to_owned())
    }

    /// Creates a detached placeholder node.
    pub fn create_placeholder(&mut self) -> (n: usize)
        ensures
            n == old(self).num_nodes(),
            final(self).num_nodes() == old(self).num_nodes() + 1,
            forall|m: usize| old(self).is_valid(m) ==> node_unchanged(*old(self), *final(self), m),
            final(self).is_placeholder(n),
            final(self).parent_of(n) is None,
            final(self).children_of(n) == Seq::<usize>::empty(),
            old(self).wf() ==> final(self).wf(),
            final(self).mutations >= old(self).mutations,
    {
        self.create(NodeKind::Placeholder, String::new())
    }

    /// Replaces the content of a text node.
    pub fn set_text(&mut self, n: usize, text: &str)
        requires
            old(self).wf(),
            old(self).is_text(n),
        ensures
            final(self).wf(),
            final(self).num_nodes() == old(self).num_nodes(),
            final(self).text_of(n) == text@,
            final(self).kind_of(n) == old(self).kind_of(n),
            final(self).parent_of(n) == old(self).parent_of(n),
            final(self).children_of(n) == old(self).children_of(n),
            forall|m: usize|
                old(self).is_valid(m) && m != n ==> node_unchanged(*old(self), *final(self), m),
            final(self).mutations >= old(self).mutations,
    {
        let node = &mut self.nodes[n];
        node.text = text.to_owned();
        self.bump();
        proof {
            let d1 = *old(self);
            let d2 = *self;
            assert forall|m: usize|
                d1.is_valid(m) && m != n implies node_unchanged(d1, d2, m) by {
                assert(d2.nodes@[m as int] == d1.nodes@[m as int]);
            }
            assert(d2.wf_parents()) by {
                assert forall|m: usize|
                    d2.is_valid(m) && (#[trigger] d2.parent_of(m)) is Some implies {
                    let p = d2.parent_of(m)->0;
                    &&& d2.is_element(p)
                    &&& d2.children_of(p).contains(m)
                } by {
                    assert(d1.parent_of(m) == d2.parent_of(m));
                    let p = d1.parent_of(m)->0;
                    assert(d1.is_element(p) && d1.children_of(p).contains(m));
                    assert(d2.children_of(p) == d1.children_of(p));
                }
            }
            assert(d2.wf_child_lists()) by {
                assert forall|m: usize| d2.is_valid(m) implies {
                    &&& (d2.kind_of(m) != NodeKind::Element ==> (#[trigger] d2.children_of(
                        m,
                    )).len() == 0)
                    &&& d2.children_of(m).no_duplicates()
                } by {
                    assert(d2.children_of(m) == d1.children_of(m));
                    assert(d2.kind_of(m) == d1.kind_of(m));
                }
            }
            assert(d2.wf_children()) by {
                assert forall|m: usize, j: int|
                    d2.is_valid(m) && 0 <= j < d2.children_of(m).len() implies {
                    let c = #[trigger] d2.children_of(m)[j];
                    &&& d2.is_valid(c)
                    &&& c != m
                    &&& d2.parent_of(c) == Some(m)
                } by {
                    assert(d2.children_of(m) == d1.children_of(m));
                    assert(d1.children_of(m)[j] == d2.children_of(m)[j]);
                }
            }
        }
    }

    /// The parent of `n`, if attached.
    pub fn get_parent(&self, n: usize) -> (r: Option<usize>)
        requires
            self.is_valid(n),
        ensures
            r == self.parent_of(n),
    {
        self.nodes[n].parent
    }

    /// How many nodes exist.
    pub fn len(&self) -> (r: usize)
        ensures
            r == self.num_nodes(),
    {
        self.nodes.len()
    }

    /// The mutation counter.
    pub fn mutation_count(&self) -> (r: u64)
        ensures
            r == self.mutations,
    {
        self.mutations
    }

    /// A copy of a node's text content.
    pub fn read_text(&self, n: usize) -> (r: String)
        requires
            self.is_valid(n),
        ensures
            r@ == self.text_of(n),
    {
        self.nodes[n].text.clone()
    }

    /// How many children node `e` has.
    pub fn child_count(&self, e: usize) -> (r: usize)
        requires
            self.is_valid(e),
        ensures
            r == self.children_of(e).len(),
    {
        self.nodes[e].children.len()
    }

    /// The child of `e` at position `i`.
    pub fn child_at(&self, e: usize, i: usize) -> (r: usize)
        requires
            self.is_valid(e),
            i < self.children_of(e).len(),
        ensures
            r == self.children_of(e)[i as int],
    {
        self.nodes[e].children[i]
    }
}

/// After removing the one node of a single-node state, every child list
/// reads as that state's footprint struck out.
pub proof fn unmount_single(d1: Dom, d2: Dom, node: usize, ns: Seq<usize>)
    requires
        d1.wf(),
        d1.is_valid(node),
        ns == seq![node],
        d2.num_nodes() == d1.num_nodes(),
        d2.parent_of(node) is None,
        d2.children_of(node) == d1.children_of(node),
        d1.parent_of(node) is None ==> d2.nodes == d1.nodes,
        d1.parent_of(node) matches Some(p) ==> {
            &&& d2.children_of(p) == without(d1.children_of(p), seq![node])
            &&& forall|m: usize|
                d1.is_valid(m) && m != node && m != p ==> node_unchanged(d1, d2, m)
        },
        forall|m: usize|
            d1.is_valid(m) && m != node ==> d2.kind_of(m) == d1.kind_of(m) && d2.text_of(m)
                == d1.text_of(m) && d2.parent_of(m) == d1.parent_of(m),
    ensures
        detached(d2, ns),
        parents_frame(d1, d2, ns),
        forall|e: usize|
            d1.is_valid(e) ==> d2.children_of(e) == without(d1.children_of(e), ns),
{
    assert(ns[0] == node);
    assert forall|e: usize| d1.is_valid(e) implies d2.children_of(e) == without(
        d1.children_of(e),
        ns,
    ) by {
        let l = d1.children_of(e);
        match d1.parent_of(node) {
            Some(p) => {
                if e == p {
                    assert(d2.children_of(e) == without(l, ns));
                } else {
                    if l.contains(node) {
                        d1.lemma_only_parent_lists(node, e);
                        assert(false);
                    }
                    assert forall|i: int| 0 <= i < l.len() implies !ns.contains(
                        #[trigger] l[i],
                    ) by {
                        assert(l[i] != node);
                        if ns.contains(l[i]) {
                            let w = choose|w: int| 0 <= w < ns.len() && ns[w] == l[i];
                            assert(ns[w] == node);
                        }
                    }
                    lemma_without_id(l, ns);
                    if e == node {
                        assert(d2.children_of(e) == l);
                    } else {
                        assert(node_unchanged(d1, d2, e));
                    }
                }
            },
            None => {
                d1.lemma_detached_not_listed(node);
                assert(!l.contains(node));
                assert forall|i: int| 0 <= i < l.len() implies !ns.contains(#[trigger] l[i]) by {
                    assert(l.contains(l[i]));
                    if ns.contains(l[i]) {
                        let w = choose|w: int| 0 <= w < ns.len() && ns[w] == l[i];
                        assert(ns[w] == node);
                    }
                }
                lemma_without_id(l, ns);
                assert(d2.children_of(e) == d1.children_of(e));
            },
        }
    }
}

/// The abstract contents are unchanged when kind and text of the listed
/// nodes are.
pub proof fn lemma_rnodes_stable(d1: Dom, d2: Dom, ns: Seq<usize>)
    requires
        forall|i: int|
            0 <= i < ns.len() ==> d1.is_valid(#[trigger] ns[i]) && d2.is_valid(ns[i])
                && d2.kind_of(ns[i]) == d1.kind_of(ns[i]) && d2.text_of(ns[i]) == d1.text_of(
                ns[i],
            ),
    ensures
        rnodes(d2, ns) == rnodes(d1, ns),
{
    assert(rnodes(d2, ns) =~= rnodes(d1, ns));
}

/// After a variant switch, the new nodes stand exactly where the old ones
/// stood: wherever the old presented nodes formed a segment of their
/// parent's children, the new children are that list with the segment
/// replaced by the new presented nodes.
pub open spec fn replaced_in_place(
    d1: Dom,
    d2: Dom,
    old_live: Seq<usize>,
    new_live: Seq<usize>,
) -> bool {
    forall|p: usize, i: int|
        old_live.len() > 0 && d1.parent_of(old_live[0]) == Some(p) && #[trigger] segment_at(
            d1.children_of(p),
            old_live,
            i,
        ) ==> d2.children_of(p) == d1.children_of(p).take(i) + new_live + d1.children_of(p).skip(
            i + old_live.len(),
        )
}

/// The splice discipline — build the new side, insert it before the old
/// side's first node, then unmount the old side — replaces the old nodes
/// in place.
///
/// `d1` is the tree before the insertion, `d2` after it, and `d3` after
/// the old footprint was struck out of every child list.
pub proof fn lemma_splice_replaces(
    d1: Dom,
    d2: Dom,
    d3: Dom,
    old_nodes: Seq<usize>,
    old_live: Seq<usize>,
    new_live: Seq<usize>,
)
    requires
        d1.wf(),
        old_live.len() > 0,
        d1.parent_of(old_live[0]) is Some,
        old_live.no_duplicates(),
        forall|j: int| 0 <= j < old_live.len() ==> old_nodes.contains(#[trigger] old_live[j]),
        forall|n: usize|
            old_nodes.contains(n) ==> old_live.contains(n) || d1.parent_of(n) is None,
        forall|j: int| 0 <= j < new_live.len() ==> !old_nodes.contains(#[trigger] new_live[j]),
        ({
            let p = d1.parent_of(old_live[0])->0;
            &&& d1.is_valid(p)
            &&& d2.children_of(p) == insert_before_marker(
                d1.children_of(p),
                new_live,
                Some(old_live[0]),
            )
        }),
        forall|e: usize|
            d1.is_valid(e) ==> #[trigger] d3.children_of(e) == without(d2.children_of(e), old_nodes),
    ensures
        replaced_in_place(d1, d3, old_live, new_live),
{
    let anchor = old_live[0];
    let p = d1.parent_of(anchor)->0;
    let c1 = d1.children_of(p);
    assert forall|q: usize, i: int|
        old_live.len() > 0 && d1.parent_of(old_live[0]) == Some(q) && #[trigger] segment_at(
            d1.children_of(q),
            old_live,
            i,
        ) implies d3.children_of(q) == d1.children_of(q).take(i) + new_live + d1.children_of(
        q,
    ).skip(i + old_live.len()) by {
        assert(q == p);
        let k = old_live.len() as int;
        assert(c1.subrange(i, i + k) == old_live);
        assert(c1.subrange(i, i + k)[0] == c1[i]);
        assert(c1[i] == anchor);
        assert(c1.no_duplicates());
        lemma_index_of_unique(c1, anchor, i);
        let c2 = c1.take(i) + new_live + c1.skip(i);
        assert(d2.children_of(p) == c2);
        let c3 = without(c2, old_nodes);
        assert(d3.children_of(p) == c3);
        lemma_without_concat(c1.take(i) + new_live, c1.skip(i), old_nodes);
        lemma_without_concat(c1.take(i), new_live, old_nodes);
        assert((c1.take(i) + new_live) + c1.skip(i) =~= c2);
        // the prefix survives: none of the old footprint stands in it
        assert forall|j: int| 0 <= j < c1.take(i).len() implies !old_nodes.contains(
            #[trigger] c1.take(i)[j],
        ) by {
            let x = c1.take(i)[j];
            assert(x == c1[j]);
            if old_nodes.contains(x) {
                if old_live.contains(x) {
                    let m = choose|m: int| 0 <= m < old_live.len() && old_live[m] == x;
                    assert(c1[i + m] == old_live[m]);
                    assert(c1[j] == c1[i + m]);
                    assert(false);
                } else {
                    assert(d1.parent_of(x) is None);
                    assert(c1.contains(x));
                    d1.lemma_only_parent_lists(x, p);
                    assert(false);
                }
            }
        }
        lemma_without_id(c1.take(i), old_nodes);
        // the new nodes survive: they are disjoint from the old footprint
        lemma_without_id(new_live, old_nodes);
        // the old segment goes; the tail after it survives
        assert(c1.skip(i) =~= old_live + c1.skip(i + k)) by {
            assert forall|j: int| 0 <= j < c1.skip(i).len() implies c1.skip(i)[j] == (old_live
                + c1.skip(i + k))[j] by {
                if j < k {
                    assert(c1.subrange(i, i + k)[j] == c1[i + j]);
                }
            }
        }
        lemma_without_concat(old_live, c1.skip(i + k), old_nodes);
        lemma_without_all(old_live, old_nodes);
        assert forall|j: int| 0 <= j < c1.skip(i + k).len() implies !old_nodes.contains(
            #[trigger] c1.skip(i + k)[j],
        ) by {
            let x = c1.skip(i + k)[j];
            assert(x == c1[i + k + j]);
            if old_nodes.contains(x) {
                if old_live.contains(x) {
                    let m = choose|m: int| 0 <= m < old_live.len() && old_live[m] == x;
                    assert(c1[i + m] == old_live[m]);
                    assert(c1[i + m] == c1[i + k + j]);
                    assert(i + m < i + k + j);
                    assert(false);
                } else {
                    assert(d1.parent_of(x) is None);
                    assert(c1.contains(x));
                    d1.lemma_only_parent_lists(x, p);
                    assert(false);
                }
            }
        }
        lemma_without_id(c1.skip(i + k), old_nodes);
        assert(c3 =~= c1.take(i) + new_live + c1.skip(i + k));
    }
}

/// When `m` occurs at exactly one position, `index_of` names it.
pub proof fn lemma_index_of_unique_value(c: Seq<usize>, m: usize, j: int)
    requires
        0 <= j < c.len(),
        c[j] == m,
        forall|k: int| 0 <= k < c.len() && k != j ==> c[k] != m,
    ensures
        c.index_of(m) == j,
{
    assert(exists|i: int| 0 <= i < c.len() && c[i] == m);
    let i = c.index_of(m);
    assert(0 <= i < c.len() && c[i] == m);
}

/// Inserting before the same marker twice is inserting the concatenation.
pub proof fn lemma_ibm_compose(c: Seq<usize>, n1: Seq<usize>, n2: Seq<usize>, m: usize)
    requires
        c.no_duplicates(),
        c.contains(m),
        !n1.contains(m),
    ensures
        insert_before_marker(insert_before_marker(c, n1, Some(m)), n2, Some(m))
            == insert_before_marker(c, n1 + n2, Some(m)),
{
    let j = choose|j: int| 0 <= j < c.len() && c[j] == m;
    lemma_index_of_unique(c, m, j);
    let i = c.index_of(m);
    let c2 = c.take(i) + n1 + c.skip(i);
    assert(insert_before_marker(c, n1, Some(m)) == c2);
    assert(c2[i + n1.len()] == m) by {
        assert(c.skip(i)[0] == c[i]);
    }
    assert forall|k: int| 0 <= k < c2.len() && k != i + n1.len() implies c2[k] != m by {
        if k < i {
            assert(c2[k] == c[k]);
        } else if k < i + n1.len() {
            assert(c2[k] == n1[k - i]);
            if c2[k] == m {
                assert(n1.contains(n1[k - i]));
            }
        } else {
            assert(c2[k] == c[k - n1.len()]);
        }
    }
    lemma_index_of_unique_value(c2, m, i + n1.len() as int);
    let lhs = c2.take(i + n1.len()) + n2 + c2.skip(i + n1.len());
    assert(insert_before_marker(c2, n2, Some(m)) == lhs);
    let rhs = c.take(i) + (n1 + n2) + c.skip(i);
    assert(insert_before_marker(c, n1 + n2, Some(m)) == rhs);
    assert(c2.take(i + n1.len()) =~= c.take(i) + n1);
    assert(c2.skip(i + n1.len()) =~= c.skip(i));
    assert(lhs =~= rhs);
}

/// A duplicate-free concatenation has duplicate-free, disjoint parts.
pub proof fn lemma_no_dup_concat(a: Seq<usize>, b: Seq<usize>)
    requires
        (a + b).no_duplicates(),
    ensures
        a.no_duplicates(),
        b.no_duplicates(),
        forall|x: usize| a.contains(x) ==> !b.contains(x),
{
    assert forall|i: int, j: int| 0 <= i < j < a.len() implies a[i] != a[j] by {
        assert((a + b)[i] == a[i]);
        assert((a + b)[j] == a[j]);
    }
    assert forall|i: int, j: int| 0 <= i < j < b.len() implies b[i] != b[j] by {
        assert((a + b)[a.len() + i] == b[i]);
        assert((a + b)[a.len() + j] == b[j]);
    }
    assert forall|x: usize| a.contains(x) implies !b.contains(x) by {
        if a.contains(x) && b.contains(x) {
            let i = choose|i: int| 0 <= i < a.len() && a[i] == x;
            let j = choose|j: int| 0 <= j < b.len() && b[j] == x;
            assert((a + b)[i] == x);
            assert((a + b)[a.len() + j] == x);
        }
    }
}

/// Concatenating duplicate-free lists separated by a bound stays
/// duplicate-free.
pub proof fn lemma_no_dup_join(a: Seq<usize>, b: Seq<usize>, bound: nat)
    requires
        a.no_duplicates(),
        b.no_duplicates(),
        forall|i: int| 0 <= i < a.len() ==> #[trigger] a[i] < bound,
        forall|i: int| 0 <= i < b.len() ==> #[trigger] b[i] >= bound,
    ensures
        (a + b).no_duplicates(),
{
    let c = a + b;
    assert forall|i: int, j: int| 0 <= i < j < c.len() implies c[i] != c[j] by {
        if i < a.len() {
            assert(c[i] == a[i]);
        } else {
            assert(c[i] == b[i - a.len()]);
        }
        if j < a.len() {
            assert(c[j] == a[j]);
        } else {
            assert(c[j] == b[j - a.len()]);
        }
    }
}

/// Concatenating duplicate-free, disjoint lists stays duplicate-free.
pub proof fn lemma_no_dup_disjoint_join(a: Seq<usize>, b: Seq<usize>)
    requires
        a.no_duplicates(),
        b.no_duplicates(),
        forall|x: usize| a.contains(x) ==> !b.contains(x),
    ensures
        (a + b).no_duplicates(),
{
    let c = a + b;
    assert forall|i: int, j: int| 0 <= i < j < c.len() implies c[i] != c[j] by {
        if i < a.len() && j >= a.len() {
            assert(c[i] == a[i]);
            assert(c[j] == b[j - a.len()]);
            assert(a.contains(a[i]));
            if c[i] == c[j] {
                assert(b.contains(b[j - a.len()]));
            }
        } else if i < a.len() {
            assert(c[i] == a[i]);
            assert(c[j] == a[j]);
        } else {
            assert(c[i] == b[i - a.len()]);
            assert(c[j] == b[j - a.len()]);
        }
    }
}

/// Replacing the middle part of a duplicate-free concatenation by nodes
/// that are either from the replaced part or beyond a bound that the
/// outer parts stay under keeps the whole duplicate-free.
pub proof fn lemma_no_dup_replace(
    a: Seq<usize>,
    mid_old: Seq<usize>,
    b: Seq<usize>,
    mid_new: Seq<usize>,
    bound: nat,
)
    requires
        (a + mid_old + b).no_duplicates(),
        mid_new.no_duplicates(),
        forall|j: int|
            0 <= j < mid_new.len() ==> mid_old.contains(#[trigger] mid_new[j]) || mid_new[j]
                >= bound,
        forall|j: int| 0 <= j < a.len() ==> #[trigger] a[j] < bound,
        forall|j: int| 0 <= j < b.len() ==> #[trigger] b[j] < bound,
    ensures
        (a + mid_new + b).no_duplicates(),
{
    lemma_no_dup_concat(a + mid_old, b);
    lemma_no_dup_concat(a, mid_old);
    let c = a + mid_new + b;
    assert forall|x: int, y: int| 0 <= x < y < c.len() implies c[x] != c[y] by {
        let la = a.len() as int;
        let lm = mid_new.len() as int;
        if c[x] == c[y] {
            let v = c[x];
            // place each of the two positions
            if x < la && y < la {
                assert(c[x] == a[x] && c[y] == a[y]);
                assert((a + mid_old + b)[x] == a[x]);
                assert((a + mid_old + b)[y] == a[y]);
            } else if x < la && y < la + lm {
                assert(c[x] == a[x] && c[y] == mid_new[y - la]);
                if mid_old.contains(v) {
                    let w = choose|w: int| 0 <= w < mid_old.len() && mid_old[w] == v;
                    assert((a + mid_old + b)[x] == a[x]);
                    assert((a + mid_old + b)[la + w] == mid_old[w]);
                } else {
                    assert(a.contains(a[x]));
                }
            } else if x < la {
                assert(c[x] == a[x] && c[y] == b[y - la - lm]);
                assert((a + mid_old + b)[x] == a[x]);
                assert((a + mid_old + b)[a.len() + mid_old.len() + (y - la - lm)] == b[y - la
                    - lm]);
            } else if x < la + lm && y < la + lm {
                assert(c[x] == mid_new[x - la] && c[y] == mid_new[y - la]);
            } else if x < la + lm {
                assert(c[x] == mid_new[x - la] && c[y] == b[y - la - lm]);
                if mid_old.contains(v) {
                    let w = choose|w: int| 0 <= w < mid_old.len() && mid_old[w] == v;
                    assert((a + mid_old + b)[a.len() + w] == mid_old[w]);
                    assert((a + mid_old + b)[a.len() + mid_old.len() + (y - la - lm)] == b[y - la
                        - lm]);
                } else {
                    assert(b.contains(b[y - la - lm]));
                }
            } else {
                assert(c[x] == b[x - la - lm] && c[y] == b[y - la - lm]);
                assert((a + mid_old + b)[a.len() + mid_old.len() + (x - la - lm)] == b[x - la
                    - lm]);
                assert((a + mid_old + b)[a.len() + mid_old.len() + (y - la - lm)] == b[y - la
                    - lm]);
            }
            assert(false);
        }
    }
}

} // verus!
