use vstd::prelude::*;

use crate::envelope::{Aabb, empty_aabb, merged};
use crate::object::RTreeObject;
use crate::selection::SelectionFunction;

verus! {

/// A node of the tree: a stored value, or an interior node with children.
pub enum RTreeNode<T> {
    Leaf(T),
    Parent(ParentNode<T>),
}

/// An interior node: its children, in no meaningful order, and the cached
/// bounding box of all of them.
pub struct ParentNode<T> {
    pub children: Vec<RTreeNode<T>>,
    pub envelope: Aabb,
}

/// The mathematical model of a node: a value, or the models of the children
/// with the cached box.
pub enum TreeView<T> {
    Leaf(T),
    Parent(Seq<TreeView<T>>, Aabb),
}

pub open spec fn node_view<T>(n: RTreeNode<T>) -> TreeView<T>
    decreases n,
{
    match n {
        RTreeNode::Leaf(t) => TreeView::Leaf(t),
        RTreeNode::Parent(p) => TreeView::Parent(seq_view(p.children@), p.envelope),
    }
}

pub open spec fn seq_view<T>(cs: Seq<RTreeNode<T>>) -> Seq<TreeView<T>>
    decreases cs,
{
    if cs.len() == 0 {
        Seq::empty()
    } else {
        seq_view(cs.subrange(0, cs.len() - 1)).push(node_view(cs[cs.len() - 1]))
    }
}

pub open spec fn parent_view<T>(p: ParentNode<T>) -> TreeView<T> {
    TreeView::Parent(seq_view(p.children@), p.envelope)
}

/// The values stored under a node, in depth-first order.
pub open spec fn elems<T>(n: TreeView<T>) -> Seq<T>
    decreases n,
{
    match n {
        TreeView::Leaf(t) => seq![t],
        TreeView::Parent(cs, _) => seq_elems(cs),
    }
}

/// The values stored under a sequence of nodes, in order.
pub open spec fn seq_elems<T>(cs: Seq<TreeView<T>>) -> Seq<T>
    decreases cs,
{
    if cs.len() == 0 {
        Seq::empty()
    } else {
        seq_elems(cs.subrange(0, cs.len() - 1)) + elems(cs[cs.len() - 1])
    }
}

/// The number of nodes under a model, counting an interior node twice: once
/// for entering it and once for leaving it.
pub open spec fn tsize<T>(n: TreeView<T>) -> nat
    decreases n,
{
    match n {
        TreeView::Leaf(_) => 1,
        TreeView::Parent(cs, _) => 2 + seq_tsize(cs),
    }
}

pub open spec fn seq_tsize<T>(cs: Seq<TreeView<T>>) -> nat
    decreases cs,
{
    if cs.len() == 0 {
        0
    } else {
        seq_tsize(cs.subrange(0, cs.len() - 1)) + tsize(cs[cs.len() - 1])
    }
}

/// The bounding box of a node: its value's box, or the cached one.
pub open spec fn envelope_of<T: RTreeObject>(n: TreeView<T>) -> Aabb {
    match n {
        TreeView::Leaf(t) => t.spec_envelope(),
        TreeView::Parent(_, e) => e,
    }
}

/// The union of the boxes of a sequence of nodes.
pub open spec fn seq_envelope<T: RTreeObject>(cs: Seq<TreeView<T>>) -> Aabb
    decreases cs.len(),
{
    if cs.len() == 0 {
        empty_aabb()
    } else {
        merged(seq_envelope(cs.subrange(0, cs.len() - 1)), envelope_of(cs[cs.len() - 1]))
    }
}

/// A node is well formed when every interior node below it (itself included)
/// has at least one child and caches the union of its children's boxes.
pub open spec fn node_wf<T: RTreeObject>(n: TreeView<T>) -> bool
    decreases n,
{
    match n {
        TreeView::Leaf(_) => true,
        TreeView::Parent(cs, e) => cs.len() > 0 && e == seq_envelope(cs) && seq_nodes_wf(cs),
    }
}

pub open spec fn seq_nodes_wf<T: RTreeObject>(cs: Seq<TreeView<T>>) -> bool
    decreases cs,
{
    if cs.len() == 0 {
        true
    } else {
        seq_nodes_wf(cs.subrange(0, cs.len() - 1)) && node_wf(cs[cs.len() - 1])
    }
}

/// Every node of the sequence is well formed, and none is an empty interior node.
pub open spec fn seq_wf<T: RTreeObject>(cs: Seq<TreeView<T>>) -> bool {
    forall|i: int| 0 <= i < cs.len() ==> #[trigger] node_wf(cs[i])
}

/// A root is well formed like any interior node, except that it may be empty.
pub open spec fn root_wf<T: RTreeObject>(n: TreeView<T>) -> bool {
    match n {
        TreeView::Leaf(_) => false,
        TreeView::Parent(cs, e) => e == seq_envelope(cs) && seq_wf(cs),
    }
}

/// An interior node is well formed exactly when it has children, caches their
/// union and its children are well formed.
pub proof fn lemma_node_wf_parent<T: RTreeObject>(cs: Seq<TreeView<T>>, e: Aabb)
    ensures
        node_wf(TreeView::Parent(cs, e)) <==> (cs.len() > 0 && e == seq_envelope(cs) && seq_wf(cs)),
{
    lemma_seq_wf(cs);
}

pub proof fn lemma_seq_wf<T: RTreeObject>(cs: Seq<TreeView<T>>)
    ensures
        seq_nodes_wf(cs) <==> seq_wf(cs),
    decreases cs.len(),
{
    if cs.len() > 0 {
        let init = cs.subrange(0, cs.len() - 1);
        lemma_seq_wf(init);
        if seq_wf(cs) {
            assert forall|k: int| 0 <= k < init.len() implies #[trigger] node_wf(init[k]) by {
                assert(init[k] == cs[k]);
            }
            assert(node_wf(cs[cs.len() - 1]));
            assert(seq_nodes_wf(cs));
        }
        if seq_nodes_wf(cs) {
            assert forall|k: int| 0 <= k < cs.len() implies #[trigger] node_wf(cs[k]) by {
                if k < cs.len() - 1 {
                    assert(init[k] == cs[k]);
                }
            }
        }
    }
}

/// The values a selection finds under a node, in depth-first order: a subtree
/// whose box the selection rejects is skipped whole.
pub open spec fn selected<T, R: SelectionFunction<T>>(n: TreeView<T>, sel: R) -> Seq<T>
    decreases n,
{
    match n {
        TreeView::Leaf(t) => if sel.spec_unpack_leaf(t) {
            seq![t]
        } else {
            Seq::empty()
        },
        TreeView::Parent(cs, e) => if sel.spec_unpack_parent(e) {
            seq_selected(cs, sel)
        } else {
            Seq::empty()
        },
    }
}

pub open spec fn seq_selected<T, R: SelectionFunction<T>>(cs: Seq<TreeView<T>>, sel: R) -> Seq<T>
    decreases cs,
{
    if cs.len() == 0 {
        Seq::empty()
    } else {
        seq_selected(cs.subrange(0, cs.len() - 1), sel) + selected(cs[cs.len() - 1], sel)
    }
}

/// The values under a node that a selection does not find, in depth-first order.
pub open spec fn kept<T, R: SelectionFunction<T>>(n: TreeView<T>, sel: R) -> Seq<T>
    decreases n,
{
    match n {
        TreeView::Leaf(t) => if sel.spec_unpack_leaf(t) {
            Seq::empty()
        } else {
            seq![t]
        },
        TreeView::Parent(cs, e) => if sel.spec_unpack_parent(e) {
            seq_kept(cs, sel)
        } else {
            seq_elems(cs)
        },
    }
}

pub open spec fn seq_kept<T, R: SelectionFunction<T>>(cs: Seq<TreeView<T>>, sel: R) -> Seq<T>
    decreases cs,
{
    if cs.len() == 0 {
        Seq::empty()
    } else {
        seq_kept(cs.subrange(0, cs.len() - 1), sel) + kept(cs[cs.len() - 1], sel)
    }
}

/// The values under a node once the first value that the selection finds is
/// taken out; all of them where it finds none.
pub open spec fn first_kept<T, R: SelectionFunction<T>>(n: TreeView<T>, sel: R) -> Seq<T>
    decreases n,
{
    match n {
        TreeView::Leaf(t) => if sel.spec_unpack_leaf(t) {
            Seq::empty()
        } else {
            seq![t]
        },
        TreeView::Parent(cs, e) => if sel.spec_unpack_parent(e) {
            seq_first_kept(cs, sel)
        } else {
            seq_elems(cs)
        },
    }
}

pub open spec fn seq_first_kept<T, R: SelectionFunction<T>>(cs: Seq<TreeView<T>>, sel: R) -> Seq<T>
    decreases cs,
{
    if cs.len() == 0 {
        Seq::empty()
    } else {
        let init = cs.subrange(0, cs.len() - 1);
        if seq_selected(init, sel).len() > 0 {
            seq_first_kept(init, sel) + elems(cs[cs.len() - 1])
        } else {
            seq_elems(init) + first_kept(cs[cs.len() - 1], sel)
        }
    }
}

/// The model of a sequence of nodes is taken node by node.
pub proof fn lemma_seq_view<T>(cs: Seq<RTreeNode<T>>)
    ensures
        seq_view(cs).len() == cs.len(),
        forall|k: int| 0 <= k < cs.len() ==> #[trigger] seq_view(cs)[k] == node_view(cs[k]),
    decreases cs.len(),
{
    if cs.len() > 0 {
        lemma_seq_view(cs.subrange(0, cs.len() - 1));
    }
}

/// Two sequences of nodes whose nodes have equal models have equal models.
pub proof fn lemma_seq_view_eq<T>(a: Seq<RTreeNode<T>>, b: Seq<TreeView<T>>)
    requires
        a.len() == b.len(),
        forall|k: int| 0 <= k < a.len() ==> node_view(#[trigger] a[k]) == b[k],
    ensures
        seq_view(a) == b,
{
    lemma_seq_view(a);
    assert(seq_view(a) =~= b);
}

/// Where a selection finds nothing under a node, it keeps every value.
pub proof fn lemma_unselected_kept<T, R: SelectionFunction<T>>(n: TreeView<T>, sel: R)
    requires
        selected(n, sel).len() == 0,
    ensures
        kept(n, sel) == elems(n),
    decreases n,
{
    match n {
        TreeView::Leaf(_) => {},
        TreeView::Parent(cs, e) => {
            if sel.spec_unpack_parent(e) {
                lemma_seq_unselected_kept(cs, sel);
            }
        },
    }
}

pub proof fn lemma_seq_unselected_kept<T, R: SelectionFunction<T>>(cs: Seq<TreeView<T>>, sel: R)
    requires
        seq_selected(cs, sel).len() == 0,
    ensures
        seq_kept(cs, sel) == seq_elems(cs),
    decreases cs,
{
    if cs.len() > 0 {
        lemma_seq_unselected_kept(cs.subrange(0, cs.len() - 1), sel);
        lemma_unselected_kept(cs[cs.len() - 1], sel);
    }
}

/// What a selection finds and what it keeps together make up the values.
pub proof fn lemma_selected_kept_len<T, R: SelectionFunction<T>>(n: TreeView<T>, sel: R)
    ensures
        selected(n, sel).len() + kept(n, sel).len() == elems(n).len(),
    decreases n,
{
    match n {
        TreeView::Leaf(_) => {},
        TreeView::Parent(cs, e) => {
            lemma_seq_selected_kept_len(cs, sel);
        },
    }
}

pub proof fn lemma_seq_selected_kept_len<T, R: SelectionFunction<T>>(
    cs: Seq<TreeView<T>>,
    sel: R,
)
    ensures
        seq_selected(cs, sel).len() + seq_kept(cs, sel).len() == seq_elems(cs).len(),
    decreases cs,
{
    if cs.len() > 0 {
        lemma_seq_selected_kept_len(cs.subrange(0, cs.len() - 1), sel);
        lemma_selected_kept_len(cs[cs.len() - 1], sel);
    }
}

/// Appending a node appends its model.
pub proof fn lemma_seq_view_push<T>(cs: Seq<RTreeNode<T>>, c: RTreeNode<T>)
    ensures
        seq_view(cs.push(c)) == seq_view(cs).push(node_view(c)),
{
    assert(cs.push(c).subrange(0, cs.len() as int) =~= cs);
}

/// Taking off the first node takes off its model.
pub proof fn lemma_seq_view_drop_first<T>(cs: Seq<RTreeNode<T>>)
    requires
        cs.len() > 0,
    ensures
        seq_view(cs.drop_first()) == seq_view(cs).drop_first(),
{
    lemma_seq_view(cs);
    lemma_seq_view_eq(cs.drop_first(), seq_view(cs).drop_first());
}

/// Appending a node to a sequence of models.
pub proof fn lemma_elems_push<T>(vs: Seq<TreeView<T>>, v: TreeView<T>)
    ensures
        seq_elems(vs.push(v)) == seq_elems(vs) + elems(v),
{
    assert(vs.push(v).subrange(0, vs.len() as int) =~= vs);
}

/// The values under a sequence of models start with those under its first.
pub proof fn lemma_elems_first<T>(vs: Seq<TreeView<T>>)
    requires
        vs.len() > 0,
    ensures
        seq_elems(vs) == elems(vs[0]) + seq_elems(vs.drop_first()),
        seq_tsize(vs) == tsize(vs[0]) + seq_tsize(vs.drop_first()),
{
    let one = seq![vs[0]];
    assert(vs =~= one + vs.drop_first());
    lemma_seq_concat(one, vs.drop_first(), crate::selection::SelectAllFunc);
    assert(one.subrange(0, 0) =~= Seq::<TreeView<T>>::empty());
    assert(seq_elems(one.subrange(0, 0)) =~= Seq::<T>::empty());
    assert(one[0] == vs[0]);
    assert(seq_elems(one) =~= seq_elems(one.subrange(0, 0)) + elems(one[0]));
    assert(seq_elems(one) =~= elems(vs[0]));
    assert(seq_tsize(one) == seq_tsize(one.subrange(0, 0)) + tsize(one[0]));
}

/// Taking out the first selected value takes out exactly one value.
pub proof fn lemma_first_kept_len<T, R: SelectionFunction<T>>(n: TreeView<T>, sel: R)
    ensures
        selected(n, sel).len() > 0 ==> first_kept(n, sel).len() + 1 == elems(n).len(),
        selected(n, sel).len() == 0 ==> first_kept(n, sel) == elems(n),
    decreases n,
{
    match n {
        TreeView::Leaf(_) => {},
        TreeView::Parent(cs, e) => {
            lemma_seq_first_kept_len(cs, sel);
        },
    }
}

pub proof fn lemma_seq_first_kept_len<T, R: SelectionFunction<T>>(cs: Seq<TreeView<T>>, sel: R)
    ensures
        seq_selected(cs, sel).len() > 0 ==> seq_first_kept(cs, sel).len() + 1 == seq_elems(cs).len(),
        seq_selected(cs, sel).len() == 0 ==> seq_first_kept(cs, sel) == seq_elems(cs),
    decreases cs,
{
    if cs.len() > 0 {
        lemma_seq_first_kept_len(cs.subrange(0, cs.len() - 1), sel);
        lemma_first_kept_len(cs[cs.len() - 1], sel);
    }
}

/// Taking out the first selected value leaves the other values.
pub proof fn lemma_first_kept_ms<T, R: SelectionFunction<T>>(n: TreeView<T>, sel: R)
    requires
        selected(n, sel).len() > 0,
    ensures
        elems(n).to_multiset() == first_kept(n, sel).to_multiset().insert(selected(n, sel)[0]),
    decreases n,
{
    match n {
        TreeView::Leaf(t) => {
            Seq::<T>::empty().to_multiset_ensures();
            assert(elems(n) =~= Seq::<T>::empty().push(t));
            assert(first_kept(n, sel) =~= Seq::<T>::empty());
        },
        TreeView::Parent(cs, e) => {
            lemma_seq_first_kept_ms(cs, sel);
        },
    }
}

pub proof fn lemma_seq_first_kept_ms<T, R: SelectionFunction<T>>(cs: Seq<TreeView<T>>, sel: R)
    requires
        seq_selected(cs, sel).len() > 0,
    ensures
        seq_elems(cs).to_multiset() == seq_first_kept(cs, sel).to_multiset().insert(
            seq_selected(cs, sel)[0],
        ),
    decreases cs,
{
    broadcast use vstd::seq_lib::lemma_multiset_commutative;

    let init = cs.subrange(0, cs.len() - 1);
    let last = cs[cs.len() - 1];
    if seq_selected(init, sel).len() > 0 {
        lemma_seq_first_kept_ms(init, sel);
        assert(seq_selected(cs, sel)[0] == seq_selected(init, sel)[0]);
        assert((seq_first_kept(init, sel) + elems(last)).to_multiset() =~= seq_first_kept(
            init,
            sel,
        ).to_multiset().add(elems(last).to_multiset()));
        assert((seq_elems(init) + elems(last)).to_multiset() =~= seq_elems(init).to_multiset().add(
            elems(last).to_multiset(),
        ));
    } else {
        assert(seq_selected(cs, sel) =~= selected(last, sel));
        lemma_first_kept_ms(last, sel);
        assert((seq_elems(init) + first_kept(last, sel)).to_multiset() =~= seq_elems(
            init,
        ).to_multiset().add(first_kept(last, sel).to_multiset()));
        assert((seq_elems(init) + elems(last)).to_multiset() =~= seq_elems(init).to_multiset().add(
            elems(last).to_multiset(),
        ));
    }
}

/// Every value a selection finds is one it accepts.
pub proof fn lemma_selected_match<T, R: SelectionFunction<T>>(n: TreeView<T>, sel: R)
    ensures
        forall|k: int|
            0 <= k < selected(n, sel).len() ==> sel.spec_unpack_leaf(#[trigger] selected(n, sel)[k]),
    decreases n,
{
    match n {
        TreeView::Leaf(t) => {
            assert forall|k: int| 0 <= k < selected(n, sel).len() implies sel.spec_unpack_leaf(
                #[trigger] selected(n, sel)[k],
            ) by {
                assert(selected(n, sel) =~= seq![t]);
                assert(selected(n, sel)[k] == t);
            }
        },
        TreeView::Parent(cs, e) => {
            lemma_seq_selected_match(cs, sel);
            assert forall|k: int| 0 <= k < selected(n, sel).len() implies sel.spec_unpack_leaf(
                #[trigger] selected(n, sel)[k],
            ) by {
                assert(selected(n, sel) == seq_selected(cs, sel));
                assert(selected(n, sel)[k] == seq_selected(cs, sel)[k]);
            }
        },
    }
}

pub proof fn lemma_seq_selected_match<T, R: SelectionFunction<T>>(cs: Seq<TreeView<T>>, sel: R)
    ensures
        forall|k: int|
            0 <= k < seq_selected(cs, sel).len() ==> sel.spec_unpack_leaf(
                #[trigger] seq_selected(cs, sel)[k],
            ),
    decreases cs,
{
    if cs.len() > 0 {
        let init = cs.subrange(0, cs.len() - 1);
        let last = cs[cs.len() - 1];
        lemma_seq_selected_match(init, sel);
        lemma_selected_match(last, sel);
        let a = seq_selected(init, sel);
        let b = selected(last, sel);
        assert forall|k: int| 0 <= k < (a + b).len() implies sel.spec_unpack_leaf(
            #[trigger] (a + b)[k],
        ) by {
            if k < a.len() {
                assert((a + b)[k] == a[k]);
            } else {
                assert((a + b)[k] == b[k - a.len()]);
            }
        }
    }
}

/// What a selection finds under a sequence of models starts with what it
/// finds under the first.
pub proof fn lemma_selected_first<T, R: SelectionFunction<T>>(vs: Seq<TreeView<T>>, sel: R)
    requires
        vs.len() > 0,
    ensures
        seq_selected(vs, sel) == selected(vs[0], sel) + seq_selected(vs.drop_first(), sel),
{
    let one = seq![vs[0]];
    assert(vs =~= one + vs.drop_first());
    lemma_seq_concat(one, vs.drop_first(), sel);
    assert(one.subrange(0, 0) =~= Seq::<TreeView<T>>::empty());
    assert(seq_selected(one.subrange(0, 0), sel) =~= Seq::<T>::empty());
    assert(one[0] == vs[0]);
    assert(seq_selected(one, sel) =~= seq_selected(one.subrange(0, 0), sel) + selected(one[0], sel));
}

/// Splitting a sequence of nodes splits the values stored under it.
pub proof fn lemma_seq_concat<T, R: SelectionFunction<T>>(
    a: Seq<TreeView<T>>,
    b: Seq<TreeView<T>>,
    sel: R,
)
    ensures
        seq_elems(a + b) == seq_elems(a) + seq_elems(b),
        seq_selected(a + b, sel) == seq_selected(a, sel) + seq_selected(b, sel),
        seq_kept(a + b, sel) == seq_kept(a, sel) + seq_kept(b, sel),
        seq_tsize(a + b) == seq_tsize(a) + seq_tsize(b),
    decreases b.len(),
{
    if b.len() == 0 {
        assert(a + b =~= a);
        assert(seq_elems(b) =~= Seq::<T>::empty());
        assert(seq_elems(a) + seq_elems(b) =~= seq_elems(a));
        assert(seq_selected(a, sel) + seq_selected(b, sel) =~= seq_selected(a, sel));
        assert(seq_kept(a, sel) + seq_kept(b, sel) =~= seq_kept(a, sel));
    } else {
        let b0 = b.subrange(0, b.len() - 1);
        let ab = a + b;
        assert(ab.subrange(0, ab.len() - 1) =~= a + b0);
        assert(ab[ab.len() - 1] == b[b.len() - 1]);
        lemma_seq_concat(a, b0, sel);
        assert(seq_elems(a + b) =~= seq_elems(a) + seq_elems(b));
        assert(seq_selected(a + b, sel) =~= seq_selected(a, sel) + seq_selected(b, sel));
        assert(seq_kept(a + b, sel) =~= seq_kept(a, sel) + seq_kept(b, sel));
    }
}

/// Extending a prefix of a sequence of nodes by one node.
pub proof fn lemma_seq_prefix_step<T, R: SelectionFunction<T>>(
    s: Seq<TreeView<T>>,
    j: int,
    sel: R,
)
    requires
        0 <= j < s.len(),
    ensures
        seq_elems(s.subrange(0, j + 1)) == seq_elems(s.subrange(0, j)) + elems(s[j]),
        seq_selected(s.subrange(0, j + 1), sel) == seq_selected(s.subrange(0, j), sel)
            + selected(s[j], sel),
        seq_kept(s.subrange(0, j + 1), sel) == seq_kept(s.subrange(0, j), sel) + kept(
            s[j],
            sel,
        ),
{
    assert(s.subrange(0, j + 1).subrange(0, j) =~= s.subrange(0, j));
}

/// Where nothing before `c` is selected and something under `c` is, taking out
/// the first selected value takes it out from under `c`.
pub proof fn lemma_first_kept_split<T, R: SelectionFunction<T>>(
    a: Seq<TreeView<T>>,
    c: TreeView<T>,
    b: Seq<TreeView<T>>,
    sel: R,
)
    requires
        seq_selected(a, sel).len() == 0,
        selected(c, sel).len() > 0,
    ensures
        seq_first_kept(a + seq![c] + b, sel) == seq_elems(a) + first_kept(c, sel) + seq_elems(
            b,
        ),
        seq_selected(a + seq![c] + b, sel) == seq_selected(a, sel) + selected(c, sel)
            + seq_selected(b, sel),
    decreases b.len(),
{
    let ac = a + seq![c];
    assert(ac.subrange(0, ac.len() - 1) =~= a);
    lemma_seq_concat(ac, b, sel);
    if b.len() == 0 {
        assert(ac + b =~= ac);
        assert(seq_elems(b) =~= Seq::<T>::empty());
        assert(seq_selected(b, sel) =~= Seq::<T>::empty());
        assert(seq_elems(a) + first_kept(c, sel) + seq_elems(b) =~= seq_elems(a)
            + first_kept(c, sel));
    } else {
        let b0 = b.subrange(0, b.len() - 1);
        let s = ac + b;
        assert(s.subrange(0, s.len() - 1) =~= ac + b0);
        assert(s[s.len() - 1] == b[b.len() - 1]);
        lemma_first_kept_split(a, c, b0, sel);
        lemma_seq_concat(ac, b0, sel);
        assert(seq_selected(ac, sel) =~= seq_selected(a, sel) + selected(c, sel));
        assert(seq_selected(ac + b0, sel).len() > 0);
        assert(seq_first_kept(s, sel) =~= seq_elems(a) + first_kept(c, sel) + seq_elems(b));
    }
}

/// The union of the children's boxes, computed in order.
pub fn envelope_for_children<T: RTreeObject>(children: &Vec<RTreeNode<T>>) -> (r: Aabb)
    ensures
        r == seq_envelope(seq_view(children@)),
{
    let ghost vs = seq_view(children@);
    proof {
        lemma_seq_view(children@);
    }
    let mut acc = Aabb::new_empty();
    let mut i: usize = 0;
    while i < children.len()
        invariant
            0 <= i <= children@.len(),
            vs == seq_view(children@),
            vs.len() == children@.len(),
            forall|k: int| 0 <= k < children@.len() ==> #[trigger] vs[k] == node_view(children@[k]),
            acc == seq_envelope(vs.subrange(0, i as int)),
        decreases children@.len() - i,
    {
        let e = match &children[i] {
            RTreeNode::Leaf(t) => t.envelope(),
            RTreeNode::Parent(p) => p.envelope,
        };
        assert(vs[i as int] == node_view(children@[i as int]));
        assert(vs.subrange(0, i + 1).subrange(0, i as int) =~= vs.subrange(0, i as int));
        acc = acc.merge(&e);
        i = i + 1;
    }
    assert(vs.subrange(0, i as int) =~= vs);
    acc
}

} // verus!
