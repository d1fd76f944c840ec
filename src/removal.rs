use vstd::prelude::*;

use crate::node::{
    elems, envelope_for_children, first_kept, kept, lemma_first_kept_split, lemma_node_wf_parent, lemma_seq_concat,
    lemma_seq_prefix_step, lemma_seq_view, lemma_seq_view_eq, lemma_unselected_kept, node_view, node_wf, parent_view,
    root_wf, selected, seq_elems, seq_first_kept, seq_kept, seq_selected, seq_view, seq_wf,
    ParentNode, RTreeNode, TreeView,
};
use crate::object::RTreeObject;
use crate::selection::SelectionFunction;

verus! {

/// Removes the first value that `removal_function` selects under `node`, in
/// depth-first order, and returns it. An interior node left without children
/// is taken out of its parent; the boxes on the way are recomputed.
pub fn remove<T: RTreeObject, R: SelectionFunction<T>>(
    node: &mut ParentNode<T>,
    removal_function: &R,
) -> (r: Option<T>)
    requires
        root_wf(parent_view(*old(node))),
    ensures
        root_wf(parent_view(*final(node))),
        selected(parent_view(*old(node)), *removal_function).len() == 0 ==> r.is_none()
            && parent_view(*final(node)) == parent_view(*old(node)),
        selected(parent_view(*old(node)), *removal_function).len() > 0 ==> r == Some(
            selected(parent_view(*old(node)), *removal_function)[0],
        ) && elems(parent_view(*final(node))) == first_kept(
            parent_view(*old(node)),
            *removal_function,
        ),
{
    let mut v = remove_recursive(node, removal_function, true);
    v.pop()
}

/// Removes every value that `removal_function` selects under `node` and
/// returns them in depth-first order. Interior nodes left without children are
/// taken out; the boxes on the way are recomputed.
pub fn remove_all<T: RTreeObject, R: SelectionFunction<T>>(
    node: &mut ParentNode<T>,
    removal_function: &R,
) -> (r: Vec<T>)
    requires
        root_wf(parent_view(*old(node))),
    ensures
        removes_all(
            parent_view(*old(node)),
            parent_view(*final(node)),
            r@,
            *removal_function,
        ),
{
    remove_recursive(node, removal_function, false)
}

/// What `remove_all` does: from the root `before` it returns `removed`, every
/// value that `sel` finds, in depth-first order, and leaves the well-formed
/// root `after`, which holds the other values, in order, and in which `sel`
/// finds nothing. Where nothing is removed the root is left as it was.
pub open spec fn removes_all<T: RTreeObject, R: SelectionFunction<T>>(
    before: TreeView<T>,
    after: TreeView<T>,
    removed: Seq<T>,
    sel: R,
) -> bool {
    &&& root_wf(after)
    &&& removed == selected(before, sel)
    &&& elems(after) == kept(before, sel)
    &&& selected(after, sel).len() == 0
    &&& removed.len() == 0 ==> after == before
}

/// Removing all that a selection finds twice over: the second pass returns
/// nothing and leaves the tree as the first pass left it.
pub proof fn lemma_remove_all_twice<T: RTreeObject, R: SelectionFunction<T>>(
    t0: TreeView<T>,
    t1: TreeView<T>,
    t2: TreeView<T>,
    first: Seq<T>,
    second: Seq<T>,
    sel: R,
)
    requires
        removes_all(t0, t1, first, sel),
        removes_all(t1, t2, second, sel),
    ensures
        second.len() == 0,
        t2 == t1,
{
}

/// Removes the first value (with `remove_only_first`) or every value that
/// `removal_function` selects under `node`. Children are scanned in order; an
/// interior child is taken out while it is looked into and put back in its
/// place unless it was emptied, in which case the scan stays where it is, as
/// it does after a leaf is taken out. The box is recomputed where anything
/// was removed.
fn remove_recursive<T: RTreeObject, R: SelectionFunction<T>>(
    node: &mut ParentNode<T>,
    removal_function: &R,
    remove_only_first: bool,
) -> (result: Vec<T>)
    requires
        root_wf(parent_view(*old(node))),
    ensures
        root_wf(parent_view(*final(node))),
        result@.len() == 0 ==> parent_view(*final(node)) == parent_view(*old(node)),
        remove_only_first ==> {
            let s = selected(parent_view(*old(node)), *removal_function);
            &&& s.len() == 0 ==> result@.len() == 0
            &&& s.len() > 0 ==> result@ == seq![s[0]] && elems(parent_view(*final(node)))
                == first_kept(parent_view(*old(node)), *removal_function)
        },
        !remove_only_first ==> {
            &&& result@ == selected(parent_view(*old(node)), *removal_function)
            &&& elems(parent_view(*final(node))) == kept(
                parent_view(*old(node)),
                *removal_function,
            )
            &&& selected(parent_view(*final(node)), *removal_function).len() == 0
        },
    decreases *old(node),
{
    let ghost sel = *removal_function;
    let ghost old_node = *node;
    let ghost old_cs = node.children@;
    let ghost ovs = seq_view(old_cs);
    proof {
        lemma_seq_view(old_cs);
    }
    let mut result: Vec<T> = Vec::new();
    if removal_function.should_unpack_parent(&node.envelope) {
        let mut i: usize = 0;
        let ghost mut j: int = 0;
        let mut done = false;
        while i < node.children.len() && !done
            invariant
                sel == *removal_function,
                old_node == *old(node),
                old_cs == old_node.children@,
                ovs == seq_view(old_cs),
                ovs.len() == old_cs.len(),
                forall|k: int| 0 <= k < old_cs.len() ==> #[trigger] ovs[k] == node_view(old_cs[k]),
                root_wf(parent_view(old_node)),
                sel.spec_unpack_parent(old_node.envelope),
                node.envelope == old_node.envelope,
                seq_wf(seq_view(node.children@)),
                seq_view(node.children@).len() == node.children@.len(),
                !done ==> (0 <= i <= j <= old_cs.len()),
                !done ==> (node.children@.len() - i == old_cs.len() - j),
                !done ==> (node.children@.subrange(i as int, node.children@.len() as int) == old_cs.subrange(j, old_cs.len() as int)),
                !done ==> (result@ == seq_selected(ovs.subrange(0, j), sel)),
                !done ==> (seq_elems(seq_view(node.children@).subrange(0, i as int)) == seq_kept( ovs.subrange(0, j), sel, )),
                !done ==> (seq_selected(seq_view(node.children@).subrange(0, i as int), sel).len() == 0),
                !done ==> (result@.len() == 0 ==> seq_view(node.children@) == ovs && i == j),
                !done ==> (remove_only_first ==> result@.len() == 0),
                done ==> {
                    &&& remove_only_first
                    &&& seq_selected(ovs, sel).len() > 0
                    &&& result@ == seq![seq_selected(ovs, sel)[0]]
                    &&& seq_elems(seq_view(node.children@)) == seq_first_kept(ovs, sel)
                },
            decreases node.children@.len() - i + (if done {
                0int
            } else {
                1int
            }),
        {
            let ghost cs = node.children@;
            let ghost vs = seq_view(cs);
            let ghost c = ovs[j];
            proof {
                lemma_seq_view(cs);
                assert(cs[i as int] == cs.subrange(i as int, cs.len() as int)[0]);
                assert(cs[i as int] == old_cs[j]);
                assert(vs[i as int] == c);
                assert(cs.subrange(i + 1, cs.len() as int) =~= old_cs.subrange(
                    j + 1,
                    old_cs.len() as int,
                )) by {
                    let x = cs.subrange(i + 1, cs.len() as int);
                    let y = old_cs.subrange(j + 1, old_cs.len() as int);
                    assert forall|k: int| 0 <= k < x.len() implies #[trigger] x[k] == y[k] by {
                        assert(x[k] == cs.subrange(i as int, cs.len() as int)[k + 1]);
                        assert(y[k] == old_cs.subrange(j, old_cs.len() as int)[k + 1]);
                    }
                }
                lemma_seq_prefix_step(ovs, j, sel);
                lemma_seq_prefix_step(vs, i as int, sel);
            }
            let take = match &node.children[i] {
                RTreeNode::Leaf(t) => removal_function.should_unpack_leaf(t),
                RTreeNode::Parent(_) => true,
            };
            if !take {
                proof {
                    assert(node.children@.subrange(i + 1, node.children@.len() as int)
                        =~= cs.subrange(i + 1, cs.len() as int));
                    j = j + 1;
                }
                i = i + 1;
                continue;
            }
            let child = node.children.remove(i);
            proof {
                lemma_seq_view(node.children@);
                lemma_seq_view_eq(node.children@, vs.remove(i as int));
                assert(node.children@.subrange(i as int, node.children@.len() as int)
                    =~= cs.subrange(i + 1, cs.len() as int));
                assert(vs.remove(i as int).subrange(0, i as int) =~= vs.subrange(0, i as int));
            }
            let ghost vr = vs.remove(i as int);
            match child {
                RTreeNode::Leaf(t) => {
                    if remove_only_first {
                        proof {
                            let a = ovs.subrange(0, j);
                            let b = ovs.subrange(j + 1, ovs.len() as int);
                            assert(ovs =~= a + seq![c] + b);
                            lemma_first_kept_split(a, c, b, sel);
                            assert(vr =~= a + b);
                            lemma_seq_concat(a, b, sel);
                            assert(seq_selected(ovs, sel) =~= seq![t] + seq_selected(b, sel));
                            assert(seq_first_kept(ovs, sel) =~= seq_elems(a) + seq_elems(b));
                        }
                        done = true;
                    } else {
                        proof {
                            j = j + 1;
                        }
                    }
                    result.push(t);
                },
                RTreeNode::Parent(mut data) => {
                    proof {
                        assert(c == parent_view(data));
                        assert(node_wf(c));
                        lemma_seq_view(data.children@);
                        assert(decreases_to!(old_node => old_node.children));
                        assert(decreases_to!(old_node.children => old_cs));
                        assert(decreases_to!(old_cs => old_cs[j]));
                        assert(decreases_to!(old_cs[j] => data));
                        assert(decreases_to!(old_node => data));
                        let cc = seq_view(data.children@);
                        assert(c == TreeView::Parent(cc, data.envelope));
                        lemma_node_wf_parent(cc, data.envelope);
                        assert(seq_wf(cc));
                        assert(root_wf(parent_view(data)));
                    }
                    let mut removed = remove_recursive(&mut data, removal_function, remove_only_first);
                    let ghost dv = parent_view(data);
                    proof {
                        lemma_seq_view(data.children@);
                        if removed@.len() == 0 {
                            lemma_unselected_kept(c, sel);
                        }
                    }
                    if data.children.len() > 0 {
                        let ghost before = node.children@;
                        node.children.insert(i, RTreeNode::Parent(data));
                        proof {
                            lemma_node_wf_parent(seq_view(data.children@), data.envelope);
                            assert(node_wf(dv));
                            lemma_seq_view(node.children@);
                            lemma_seq_view_eq(node.children@, vs.update(i as int, dv));
                            assert(node.children@.subrange(i + 1, node.children@.len() as int)
                                =~= before.subrange(i as int, before.len() as int));
                            assert(vs.update(i as int, dv).subrange(0, i as int) =~= vs.subrange(
                                0,
                                i as int,
                            ));
                            lemma_seq_prefix_step(vs.update(i as int, dv), i as int, sel);
                        }
                        i = i + 1;
                    }
                    if remove_only_first && removed.len() > 0 {
                        proof {
                            let a = ovs.subrange(0, j);
                            let b = ovs.subrange(j + 1, ovs.len() as int);
                            assert(ovs =~= a + seq![c] + b);
                            lemma_first_kept_split(a, c, b, sel);
                            lemma_seq_concat(a, b, sel);
                            if data.children.len() > 0 {
                                let m = a + seq![dv];
                                assert(vs.update(i - 1, dv) =~= m + b);
                                lemma_seq_concat(m, b, sel);
                                lemma_seq_prefix_step(m, a.len() as int, sel);
                                assert(m.subrange(0, a.len() as int) =~= a);
                                assert(m.subrange(0, a.len() + 1int) =~= m);
                            } else {
                                assert(vr =~= a + b);
                            }
                            assert(seq_elems(seq_view(node.children@)) =~= seq_first_kept(ovs, sel));
                        }
                        done = true;
                    } else {
                        proof {
                            j = j + 1;
                        }
                    }
                    result.append(&mut removed);
                },
            }
        }
        proof {
            if !done {
                assert(seq_view(node.children@).subrange(0, i as int) =~= seq_view(node.children@));
                assert(ovs.subrange(0, j) =~= ovs);
            }
        }
    }
    if result.len() > 0 {
        node.envelope = envelope_for_children(&node.children);
    }
    result
}

} // verus!
