//! Leaf views for primitive values: booleans, characters and integers.
//!
//! Each renders as a single text node holding the value's canonical text
//! and is diffed by value equality, so rebuilding with an equal value
//! touches nothing.  Every integer width follows the pattern given here
//! for the unsigned and signed forms.

use crate::context::Cx;
use crate::dom::{rnodes, unmount_single, Dom, RNode};
use crate::view::{Mountable, Render};
use vstd::prelude::*;

verus! {

/// The canonical text of a boolean.
pub open spec fn bool_chars(b: bool) -> Seq<char> {
    if b {
        "true"@
    } else {
        "false"@
    }
}

/// The character for one decimal digit.
pub open spec fn digit_char(d: nat) -> char {
    if d == 0 {
        '0'
    } else if d == 1 {
        '1'
    } else if d == 2 {
        '2'
    } else if d == 3 {
        '3'
    } else if d == 4 {
        '4'
    } else if d == 5 {
        '5'
    } else if d == 6 {
        '6'
    } else if d == 7 {
        '7'
    } else if d == 8 {
        '8'
    } else {
        '9'
    }
}

/// The decimal digits of a natural number, most significant first.
pub open spec fn dec_chars(n: nat) -> Seq<char>
    decreases n,
{
    if n < 10 {
        seq![digit_char(n)]
    } else {
        dec_chars(n / 10).push(digit_char(n % 10))
    }
}

/// The canonical text of a signed integer: a minus sign for a negative
/// value, then its decimal digits.
pub open spec fn int_chars(i: int) -> Seq<char> {
    if i < 0 {
        seq!['-'] + dec_chars((-i) as nat)
    } else {
        dec_chars(i as nat)
    }
}

/// Equal digit characters come from equal digits.
proof fn lemma_digit_char_injective(d1: nat, d2: nat)
    requires
        d1 < 10,
        d2 < 10,
        digit_char(d1) == digit_char(d2),
    ensures
        d1 == d2,
{
}

/// The decimal text never starts with a minus sign.
proof fn lemma_dec_chars_first(n: nat)
    ensures
        dec_chars(n).len() >= 1,
        dec_chars(n)[0] != '-',
    decreases n,
{
    if n < 10 {
        assert(dec_chars(n)[0] == digit_char(n));
    } else {
        lemma_dec_chars_first(n / 10);
        assert(dec_chars(n)[0] == dec_chars(n / 10)[0]);
    }
}

/// Equal decimal texts come from equal numbers.
proof fn lemma_dec_chars_injective(a: nat, b: nat)
    requires
        dec_chars(a) == dec_chars(b),
    ensures
        a == b,
    decreases a,
{
    lemma_dec_chars_first(a);
    lemma_dec_chars_first(b);
    if a < 10 && b < 10 {
        assert(dec_chars(a)[0] == digit_char(a));
        assert(dec_chars(b)[0] == digit_char(b));
        lemma_digit_char_injective(a, b);
    } else if a < 10 {
        assert(dec_chars(a).len() == 1);
        assert(dec_chars(b).len() == dec_chars(b / 10).len() + 1);
    } else if b < 10 {
        assert(dec_chars(b).len() == 1);
        assert(dec_chars(a).len() == dec_chars(a / 10).len() + 1);
    } else {
        let la = dec_chars(a).len();
        assert(dec_chars(a)[la - 1] == digit_char(a % 10));
        assert(dec_chars(b)[la - 1] == digit_char(b % 10));
        lemma_digit_char_injective(a % 10, b % 10);
        assert(dec_chars(a).drop_last() =~= dec_chars(a / 10));
        assert(dec_chars(b).drop_last() =~= dec_chars(b / 10));
        lemma_dec_chars_injective(a / 10, b / 10);
        assert(a == (a / 10) * 10 + a % 10);
        assert(b == (b / 10) * 10 + b % 10);
    }
}

/// Equal signed texts come from equal integers.
proof fn lemma_int_chars_injective(a: int, b: int)
    requires
        int_chars(a) == int_chars(b),
    ensures
        a == b,
{
    if a < 0 && b < 0 {
        assert((seq!['-'] + dec_chars((-a) as nat)).drop_first() =~= dec_chars((-a) as nat));
        assert((seq!['-'] + dec_chars((-b) as nat)).drop_first() =~= dec_chars((-b) as nat));
        lemma_dec_chars_injective((-a) as nat, (-b) as nat);
    } else if a < 0 {
        lemma_dec_chars_first(b as nat);
        assert(int_chars(a)[0] == '-');
    } else if b < 0 {
        lemma_dec_chars_first(a as nat);
        assert(int_chars(b)[0] == '-');
    } else {
        lemma_dec_chars_injective(a as nat, b as nat);
    }
}

/// Relies on `String::from` for `char`: a string of exactly that
/// character.
#[verifier::external_body]
fn char_to_string(c: char) -> (r: String)
    ensures
        r@ == seq![c],
{
    String::from(c)
}

/// Relies on `u64`'s `Display`: the value's decimal digits.
#[verifier::external_body]
fn u64_to_string(n: u64) -> (r: String)
    ensures
        r@ == dec_chars(n as nat),
{
    n.to_string()
}

/// Relies on `i64`'s `Display`: a minus sign for a negative value, then
/// the decimal digits.
#[verifier::external_body]
fn i64_to_string(n: i64) -> (r: String)
    ensures
        r@ == int_chars(n as int),
{
    n.to_string()
}


/// The canonical text of a character: exactly that character.
pub open spec fn char_chars(c: char) -> Seq<char> {
    seq![c]
}

/// The canonical text of an unsigned integer.
pub open spec fn u64_chars(n: u64) -> Seq<char> {
    dec_chars(n as nat)
}

/// The canonical text of a signed integer.
pub open spec fn i64_chars(n: i64) -> Seq<char> {
    int_chars(n as int)
}

/// Retained view state for `bool`.
pub struct BoolState {
    /// The text node.
    pub node: usize,
    /// The value the node currently shows.
    pub value: bool,
}

impl Mountable for BoolState {
    open spec fn nodes(self) -> Seq<usize> {
        seq![self.node]
    }

    open spec fn live(self) -> Seq<usize> {
        seq![self.node]
    }

    open spec fn wf(self, dom: Dom) -> bool {
        dom.is_text(self.node) && dom.text_of(self.node) == bool_chars(self.value)
    }

    proof fn wf_frame(self, d1: Dom, d2: Dom) {
        assert(self.nodes()[0] == self.node);
    }

    proof fn wf_facts(self, dom: Dom) {
        assert(self.nodes()[0] == self.node);
        assert(self.live()[0] == self.node);
        assert(self.live().contains(self.node));
    }

    fn unmount(&self, dom: &mut Dom) {
        let ghost d1 = *old(dom);
        proof {
            assert(self.nodes()[0] == self.node);
        }
        dom.remove(self.node);
        proof {
            unmount_single(d1, *dom, self.node, self.nodes());
        }
    }

    fn mount(&self, dom: &mut Dom, parent: usize, marker: Option<usize>) {
        proof {
            assert(self.nodes()[0] == self.node);
            assert(self.node != parent);
        }
        dom.insert_node(parent, self.node, marker);
        proof {
            assert(self.live() =~= seq![self.node]);
            assert forall|i: int| 0 <= i < self.live().len() implies dom.parent_of(
                #[trigger] self.live()[i],
            ) == Some(parent) by {
                assert(self.live()[i] == self.node);
            }
        }
    }

    fn first_node(&self) -> (r: Option<usize>) {
        proof {
            assert(self.live()[0] == self.node);
        }
        Some(self.node)
    }
}

impl Render for bool {
    type State = BoolState;

    open spec fn target(self) -> Seq<RNode> {
        seq![RNode::Txt(bool_chars(self))]
    }

    open spec fn no_change(self, state: BoolState) -> bool {
        self == state.value
    }

    open spec fn builds_clean(self) -> bool {
        true
    }

    open spec fn rebuilds_clean(self, state: BoolState) -> bool {
        true
    }

    open spec fn rebuild_req(self, state: BoolState, dom: Dom) -> bool {
        true
    }

    proof fn rebuild_req_frame(self, state: BoolState, d1: Dom, d2: Dom) {
    }

    fn build(self, dom: &mut Dom, cx: &mut Cx) -> (state: BoolState) {
        let node = dom.create_text_node((if self { "true" } else { "false" }).to_string().as_str());
        let state = BoolState { node, value: self };
        proof {
            assert(state.nodes() =~= seq![node]);
            assert(rnodes(*dom, state.live()) =~= self.target());
        }
        state
    }

    fn rebuild(self, state: &mut BoolState, dom: &mut Dom, cx: &mut Cx)
        ensures
            final(state).node == old(state).node,
            final(dom).num_nodes() == old(dom).num_nodes(),
            *final(cx) == *old(cx),
    {
        proof {
            assert(state.nodes()[0] == state.node);
        }
        if self != state.value {
            dom.set_text(state.node, (if self { "true" } else { "false" }).to_string().as_str());
            state.value = self;
            proof {
                assert(state.nodes() =~= seq![state.node]);
                assert(rnodes(*dom, state.live()) =~= self.target());
                assert(state.nodes().contains(state.nodes()[0]));
            }
        } else {
            proof {
                assert(rnodes(*dom, state.live()) =~= self.target());
                assert(state.nodes().contains(state.nodes()[0]));
            }
        }
    }
}

/// Boolean text state that already shows an equal value reports no change
/// for it, so rebuilding with an equal value performs no backend mutation.
pub proof fn lemma_bool_noop_rebuild(v: bool, state: BoolState, dom: Dom)
    requires
        state.wf(dom),
        rnodes(dom, state.live()) == v.target(),
    ensures
        v.no_change(state),
{
    assert(state.live()[0] == state.node);
    assert(rnodes(dom, state.live())[0] == dom.rnode(state.node));
    assert(v.target()[0] == RNode::Txt(bool_chars(v)));
    if v != state.value {
        reveal_strlit("true");
        reveal_strlit("false");
        assert(bool_chars(true).len() == 4);
        assert(bool_chars(false).len() == 5);
    }
}

/// Retained view state for `char`.
pub struct CharState {
    /// The text node.
    pub node: usize,
    /// The value the node currently shows.
    pub value: char,
}

impl Mountable for CharState {
    open spec fn nodes(self) -> Seq<usize> {
        seq![self.node]
    }

    open spec fn live(self) -> Seq<usize> {
        seq![self.node]
    }

    open spec fn wf(self, dom: Dom) -> bool {
        dom.is_text(self.node) && dom.text_of(self.node) == char_chars(self.value)
    }

    proof fn wf_frame(self, d1: Dom, d2: Dom) {
        assert(self.nodes()[0] == self.node);
    }

    proof fn wf_facts(self, dom: Dom) {
        assert(self.nodes()[0] == self.node);
        assert(self.live()[0] == self.node);
        assert(self.live().contains(self.node));
    }

    fn unmount(&self, dom: &mut Dom) {
        let ghost d1 = *old(dom);
        proof {
            assert(self.nodes()[0] == self.node);
        }
        dom.remove(self.node);
        proof {
            unmount_single(d1, *dom, self.node, self.nodes());
        }
    }

    fn mount(&self, dom: &mut Dom, parent: usize, marker: Option<usize>) {
        proof {
            assert(self.nodes()[0] == self.node);
            assert(self.node != parent);
        }
        dom.insert_node(parent, self.node, marker);
        proof {
            assert(self.live() =~= seq![self.node]);
            assert forall|i: int| 0 <= i < self.live().len() implies dom.parent_of(
                #[trigger] self.live()[i],
            ) == Some(parent) by {
                assert(self.live()[i] == self.node);
            }
        }
    }

    fn first_node(&self) -> (r: Option<usize>) {
        proof {
            assert(self.live()[0] == self.node);
        }
        Some(self.node)
    }
}

impl Render for char {
    type State = CharState;

    open spec fn target(self) -> Seq<RNode> {
        seq![RNode::Txt(char_chars(self))]
    }

    open spec fn no_change(self, state: CharState) -> bool {
        self == state.value
    }

    open spec fn builds_clean(self) -> bool {
        true
    }

    open spec fn rebuilds_clean(self, state: CharState) -> bool {
        true
    }

    open spec fn rebuild_req(self, state: CharState, dom: Dom) -> bool {
        true
    }

    proof fn rebuild_req_frame(self, state: CharState, d1: Dom, d2: Dom) {
    }

    fn build(self, dom: &mut Dom, cx: &mut Cx) -> (state: CharState) {
        let node = dom.create_text_node(char_to_string(self).as_str());
        let state = CharState { node, value: self };
        proof {
            assert(state.nodes() =~= seq![node]);
            assert(rnodes(*dom, state.live()) =~= self.target());
        }
        state
    }

    fn rebuild(self, state: &mut CharState, dom: &mut Dom, cx: &mut Cx)
        ensures
            final(state).node == old(state).node,
            final(dom).num_nodes() == old(dom).num_nodes(),
            *final(cx) == *old(cx),
    {
        proof {
            assert(state.nodes()[0] == state.node);
        }
        if self != state.value {
            dom.set_text(state.node, char_to_string(self).as_str());
            state.value = self;
            proof {
                assert(state.nodes() =~= seq![state.node]);
                assert(rnodes(*dom, state.live()) =~= self.target());
                assert(state.nodes().contains(state.nodes()[0]));
            }
        } else {
            proof {
                assert(rnodes(*dom, state.live()) =~= self.target());
                assert(state.nodes().contains(state.nodes()[0]));
            }
        }
    }
}

/// Character text state that already shows an equal value reports no change
/// for it, so rebuilding with an equal value performs no backend mutation.
pub proof fn lemma_char_noop_rebuild(v: char, state: CharState, dom: Dom)
    requires
        state.wf(dom),
        rnodes(dom, state.live()) == v.target(),
    ensures
        v.no_change(state),
{
    assert(state.live()[0] == state.node);
    assert(rnodes(dom, state.live())[0] == dom.rnode(state.node));
    assert(v.target()[0] == RNode::Txt(char_chars(v)));
    assert(char_chars(v)[0] == v);
    assert(char_chars(state.value)[0] == state.value);
}

/// Retained view state for `u64`.
pub struct U64State {
    /// The text node.
    pub node: usize,
    /// The value the node currently shows.
    pub value: u64,
}

impl Mountable for U64State {
    open spec fn nodes(self) -> Seq<usize> {
        seq![self.node]
    }

    open spec fn live(self) -> Seq<usize> {
        seq![self.node]
    }

    open spec fn wf(self, dom: Dom) -> bool {
        dom.is_text(self.node) && dom.text_of(self.node) == u64_chars(self.value)
    }

    proof fn wf_frame(self, d1: Dom, d2: Dom) {
        assert(self.nodes()[0] == self.node);
    }

    proof fn wf_facts(self, dom: Dom) {
        assert(self.nodes()[0] == self.node);
        assert(self.live()[0] == self.node);
        assert(self.live().contains(self.node));
    }

    fn unmount(&self, dom: &mut Dom) {
        let ghost d1 = *old(dom);
        proof {
            assert(self.nodes()[0] == self.node);
        }
        dom.remove(self.node);
        proof {
            unmount_single(d1, *dom, self.node, self.nodes());
        }
    }

    fn mount(&self, dom: &mut Dom, parent: usize, marker: Option<usize>) {
        proof {
            assert(self.nodes()[0] == self.node);
            assert(self.node != parent);
        }
        dom.insert_node(parent, self.node, marker);
        proof {
            assert(self.live() =~= seq![self.node]);
            assert forall|i: int| 0 <= i < self.live().len() implies dom.parent_of(
                #[trigger] self.live()[i],
            ) == Some(parent) by {
                assert(self.live()[i] == self.node);
            }
        }
    }

    fn first_node(&self) -> (r: Option<usize>) {
        proof {
            assert(self.live()[0] == self.node);
        }
        Some(self.node)
    }
}

impl Render for u64 {
    type State = U64State;

    open spec fn target(self) -> Seq<RNode> {
        seq![RNode::Txt(u64_chars(self))]
    }

    open spec fn no_change(self, state: U64State) -> bool {
        self == state.value
    }

    open spec fn builds_clean(self) -> bool {
        true
    }

    open spec fn rebuilds_clean(self, state: U64State) -> bool {
        true
    }

    open spec fn rebuild_req(self, state: U64State, dom: Dom) -> bool {
        true
    }

    proof fn rebuild_req_frame(self, state: U64State, d1: Dom, d2: Dom) {
    }

    fn build(self, dom: &mut Dom, cx: &mut Cx) -> (state: U64State) {
        let node = dom.create_text_node(u64_to_string(self).as_str());
        let state = U64State { node, value: self };
        proof {
            assert(state.nodes() =~= seq![node]);
            assert(rnodes(*dom, state.live()) =~= self.target());
        }
        state
    }

    fn rebuild(self, state: &mut U64State, dom: &mut Dom, cx: &mut Cx)
        ensures
            final(state).node == old(state).node,
            final(dom).num_nodes() == old(dom).num_nodes(),
            *final(cx) == *old(cx),
    {
        proof {
            assert(state.nodes()[0] == state.node);
        }
        if self != state.value {
            dom.set_text(state.node, u64_to_string(self).as_str());
            state.value = self;
            proof {
                assert(state.nodes() =~= seq![state.node]);
                assert(rnodes(*dom, state.live()) =~= self.target());
                assert(state.nodes().contains(state.nodes()[0]));
            }
        } else {
            proof {
                assert(rnodes(*dom, state.live()) =~= self.target());
                assert(state.nodes().contains(state.nodes()[0]));
            }
        }
    }
}

/// Unsigned-integer text state that already shows an equal value reports no change
/// for it, so rebuilding with an equal value performs no backend mutation.
pub proof fn lemma_u64_noop_rebuild(v: u64, state: U64State, dom: Dom)
    requires
        state.wf(dom),
        rnodes(dom, state.live()) == v.target(),
    ensures
        v.no_change(state),
{
    assert(state.live()[0] == state.node);
    assert(rnodes(dom, state.live())[0] == dom.rnode(state.node));
    assert(v.target()[0] == RNode::Txt(u64_chars(v)));
    lemma_dec_chars_injective(v as nat, state.value as nat);
}

/// Retained view state for `i64`.
pub struct I64State {
    /// The text node.
    pub node: usize,
    /// The value the node currently shows.
    pub value: i64,
}

impl Mountable for I64State {
    open spec fn nodes(self) -> Seq<usize> {
        seq![self.node]
    }

    open spec fn live(self) -> Seq<usize> {
        seq![self.node]
    }

    open spec fn wf(self, dom: Dom) -> bool {
        dom.is_text(self.node) && dom.text_of(self.node) == i64_chars(self.value)
    }

    proof fn wf_frame(self, d1: Dom, d2: Dom) {
        assert(self.nodes()[0] == self.node);
    }

    proof fn wf_facts(self, dom: Dom) {
        assert(self.nodes()[0] == self.node);
        assert(self.live()[0] == self.node);
        assert(self.live().contains(self.node));
    }

    fn unmount(&self, dom: &mut Dom) {
        let ghost d1 = *old(dom);
        proof {
            assert(self.nodes()[0] == self.node);
        }
        dom.remove(self.node);
        proof {
            unmount_single(d1, *dom, self.node, self.nodes());
        }
    }

    fn mount(&self, dom: &mut Dom, parent: usize, marker: Option<usize>) {
        proof {
            assert(self.nodes()[0] == self.node);
            assert(self.node != parent);
        }
        dom.insert_node(parent, self.node, marker);
        proof {
            assert(self.live() =~= seq![self.node]);
            assert forall|i: int| 0 <= i < self.live().len() implies dom.parent_of(
                #[trigger] self.live()[i],
            ) == Some(parent) by {
                assert(self.live()[i] == self.node);
            }
        }
    }

    fn first_node(&self) -> (r: Option<usize>) {
        proof {
            assert(self.live()[0] == self.node);
        }
        Some(self.node)
    }
}

impl Render for i64 {
    type State = I64State;

    open spec fn target(self) -> Seq<RNode> {
        seq![RNode::Txt(i64_chars(self))]
    }

    open spec fn no_change(self, state: I64State) -> bool {
        self == state.value
    }

    open spec fn builds_clean(self) -> bool {
        true
    }

    open spec fn rebuilds_clean(self, state: I64State) -> bool {
        true
    }

    open spec fn rebuild_req(self, state: I64State, dom: Dom) -> bool {
        true
    }

    proof fn rebuild_req_frame(self, state: I64State, d1: Dom, d2: Dom) {
    }

    fn build(self, dom: &mut Dom, cx: &mut Cx) -> (state: I64State) {
        let node = dom.create_text_node(i64_to_string(self).as_str());
        let state = I64State { node, value: self };
        proof {
            assert(state.nodes() =~= seq![node]);
            assert(rnodes(*dom, state.live()) =~= self.target());
        }
        state
    }

    fn rebuild(self, state: &mut I64State, dom: &mut Dom, cx: &mut Cx)
        ensures
            final(state).node == old(state).node,
            final(dom).num_nodes() == old(dom).num_nodes(),
            *final(cx) == *old(cx),
    {
        proof {
            assert(state.nodes()[0] == state.node);
        }
        if self != state.value {
            dom.set_text(state.node, i64_to_string(self).as_str());
            state.value = self;
            proof {
                assert(state.nodes() =~= seq![state.node]);
                assert(rnodes(*dom, state.live()) =~= self.target());
                assert(state.nodes().contains(state.nodes()[0]));
            }
        } else {
            proof {
                assert(rnodes(*dom, state.live()) =~= self.target());
                assert(state.nodes().contains(state.nodes()[0]));
            }
        }
    }
}

/// Signed-integer text state that already shows an equal value reports no change
/// for it, so rebuilding with an equal value performs no backend mutation.
pub proof fn lemma_i64_noop_rebuild(v: i64, state: I64State, dom: Dom)
    requires
        state.wf(dom),
        rnodes(dom, state.live()) == v.target(),
    ensures
        v.no_change(state),
{
    assert(state.live()[0] == state.node);
    assert(rnodes(dom, state.live())[0] == dom.rnode(state.node));
    assert(v.target()[0] == RNode::Txt(i64_chars(v)));
    lemma_int_chars_injective(v as int, state.value as int);
}

} // verus!
