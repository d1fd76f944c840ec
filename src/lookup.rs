use vstd::prelude::*;

use crate::envelope::{merged, spec_contains_envelope};
use crate::node::{
    elems, envelope_of, lemma_node_wf_parent, node_wf, root_wf, selected, seq_elems,
    seq_envelope, seq_selected, seq_wf, TreeView,
};
use crate::object::{RTreeObject, ValueEq};
use crate::selection::{spec_contains_point, SelectAtPointFunc, SelectEqualsFunc};

verus! {

/// A value lies in a concatenation exactly when it lies in one of the parts.
pub proof fn lemma_contains_concat<T>(a: Seq<T>, b: Seq<T>, x: T)
    ensures
        (a + b).contains(x) <==> a.contains(x) || b.contains(x),
{
    if a.contains(x) {
        let i = choose|i: int| 0 <= i < a.len() && a[i] == x;
        assert((a + b)[i] == x);
    }
    if b.contains(x) {
        let i = choose|i: int| 0 <= i < b.len() && b[i] == x;
        assert((a + b)[a.len() + i] == x);
    }
    if (a + b).contains(x) {
        let i = choose|i: int| 0 <= i < (a + b).len() && (a + b)[i] == x;
        if i < a.len() {
            assert(a[i] == x);
        } else {
            assert(b[i - a.len()] == x);
        }
    }
}

/// In a well-formed node, every box on the way down contains the box of each
/// value below it, so looking a value up by equality finds it exactly when it
/// is stored there.
pub proof fn lemma_equal_found<T: RTreeObject + ValueEq>(n: TreeView<T>, x: T)
    requires
        node_wf(n),
    ensures
        selected(n, SelectEqualsFunc { value: x }).len() > 0 <==> elems(n).contains(x),
        elems(n).contains(x) ==> spec_contains_envelope(envelope_of(n), x.spec_envelope()),
    decreases n,
{
    match n {
        TreeView::Leaf(t) => {
            if t == x {
                assert(elems(n)[0] == x);
            }
            if elems(n).contains(x) {
                let i = choose|i: int| 0 <= i < elems(n).len() && elems(n)[i] == x;
                assert(t == x);
            }
        },
        TreeView::Parent(cs, e) => {
            lemma_node_wf_parent(cs, e);
            lemma_seq_equal_found(cs, x);
        },
    }
}

pub proof fn lemma_seq_equal_found<T: RTreeObject + ValueEq>(cs: Seq<TreeView<T>>, x: T)
    requires
        seq_wf(cs),
    ensures
        seq_selected(cs, SelectEqualsFunc { value: x }).len() > 0 <==> seq_elems(cs).contains(x),
        seq_elems(cs).contains(x) ==> spec_contains_envelope(seq_envelope(cs), x.spec_envelope()),
    decreases cs,
{
    if cs.len() > 0 {
        let init = cs.subrange(0, cs.len() - 1);
        let last = cs[cs.len() - 1];
        assert forall|k: int| 0 <= k < init.len() implies #[trigger] node_wf(init[k]) by {
            assert(init[k] == cs[k]);
        }
        assert(node_wf(last));
        lemma_seq_equal_found(init, x);
        lemma_equal_found(last, x);
        lemma_contains_concat(seq_elems(init), elems(last), x);
        let m = merged(seq_envelope(init), envelope_of(last));
        assert(seq_envelope(cs) == m);
    } else {
        assert(!seq_elems(cs).contains(x));
    }
}

/// The root version: its box may be that of an empty tree.
pub proof fn lemma_root_equal_found<T: RTreeObject + ValueEq>(n: TreeView<T>, x: T)
    requires
        root_wf(n),
    ensures
        selected(n, SelectEqualsFunc { value: x }).len() > 0 <==> elems(n).contains(x),
{
    match n {
        TreeView::Leaf(_) => {},
        TreeView::Parent(cs, e) => {
            lemma_seq_equal_found(cs, x);
        },
    }
}

} // verus!

verus! {

/// In a well-formed node, the at-point selection finds something wherever a
/// stored value's box contains the point: every box on the way down contains
/// that value's box.
pub proof fn lemma_point_found<T: RTreeObject + ValueEq>(n: TreeView<T>, v: T, x: i64, y: i64)
    requires
        node_wf(n),
        elems(n).contains(v),
        spec_contains_point(v.spec_envelope(), x, y),
    ensures
        selected(n, SelectAtPointFunc { x, y }).len() > 0,
    decreases n,
{
    lemma_equal_found(n, v);
    match n {
        TreeView::Leaf(t) => {
            let i = choose|i: int| 0 <= i < elems(n).len() && elems(n)[i] == v;
            assert(t == v);
        },
        TreeView::Parent(cs, e) => {
            lemma_node_wf_parent(cs, e);
            lemma_seq_point_found(cs, v, x, y);
        },
    }
}

pub proof fn lemma_seq_point_found<T: RTreeObject + ValueEq>(
    cs: Seq<TreeView<T>>,
    v: T,
    x: i64,
    y: i64,
)
    requires
        seq_wf(cs),
        seq_elems(cs).contains(v),
        spec_contains_point(v.spec_envelope(), x, y),
    ensures
        seq_selected(cs, SelectAtPointFunc { x, y }).len() > 0,
    decreases cs,
{
    let init = cs.subrange(0, cs.len() - 1);
    let last = cs[cs.len() - 1];
    assert forall|k: int| 0 <= k < init.len() implies #[trigger] node_wf(init[k]) by {
        assert(init[k] == cs[k]);
    }
    assert(node_wf(last));
    lemma_contains_concat(seq_elems(init), elems(last), v);
    if seq_elems(init).contains(v) {
        lemma_seq_point_found(init, v, x, y);
    } else {
        lemma_point_found(last, v, x, y);
    }
}

/// The root version: the at-point selection finds something wherever a
/// stored value's box contains the point.
pub proof fn lemma_root_point_found<T: RTreeObject + ValueEq>(n: TreeView<T>, v: T, x: i64, y: i64)
    requires
        root_wf(n),
        elems(n).contains(v),
        spec_contains_point(v.spec_envelope(), x, y),
    ensures
        selected(n, SelectAtPointFunc { x, y }).len() > 0,
{
    match n {
        TreeView::Leaf(_) => {},
        TreeView::Parent(cs, e) => {
            lemma_seq_point_found(cs, v, x, y);
            assert(spec_contains_point(e, x, y)) by {
                lemma_seq_equal_found(cs, v);
            }
        },
    }
}

} // verus!
