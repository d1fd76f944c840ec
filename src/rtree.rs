use vstd::prelude::*;

use crate::envelope::Aabb;
use crate::node::{
    elems, envelope_for_children, kept, lemma_node_wf_parent, lemma_selected_kept_len,
    lemma_seq_concat, lemma_seq_prefix_step, lemma_seq_view, lemma_seq_view_eq, lemma_seq_view_push, lemma_elems_push, lemma_elems_first, lemma_seq_view_drop_first, node_view,
    node_wf, parent_view, root_wf, selected, seq_elems, seq_selected, seq_view, seq_wf,
    ParentNode, RTreeNode, TreeView,
};
use crate::object::{RTreeObject, ValueEq};
use crate::removal::{remove, remove_all};
use crate::lookup::lemma_root_equal_found;
use crate::selection::{spec_contains_point, SelectAtPointFunc, SelectEqualsFunc, SelectionFunction};

verus! {

/// The largest number of children that bulk loading gives an interior node.
pub const MAX_CHILDREN: usize = 6;

/// An R-tree: a root interior node and the number of values stored under it.
pub struct RTree<T> {
    root: ParentNode<T>,
    size: usize,
}

impl<T> View for RTree<T> {
    type V = TreeView<T>;

    closed spec fn view(&self) -> TreeView<T> {
        parent_view(self.root)
    }
}

impl<T: RTreeObject> RTree<T> {
    /// The root is well formed and the count is the number of stored values.
    pub closed spec fn wf(&self) -> bool {
        root_wf(parent_view(self.root)) && self.size == elems(parent_view(self.root)).len()
    }

    /// A well-formed tree has a well-formed root: no interior node below it
    /// is empty, and each caches the union of its children's boxes.
    pub proof fn lemma_wf(&self)
        requires
            self.wf(),
        ensures
            root_wf(self@),
            self.spec_elems().len() <= usize::MAX,
    {
    }

    /// The values stored in the tree, in depth-first order.
    pub open spec fn spec_elems(&self) -> Seq<T> {
        elems(self@)
    }

    /// An empty tree.
    pub fn new() -> (r: RTree<T>)
        ensures
            r.wf(),
            r.spec_elems() == Seq::<T>::empty(),
    {
        let children: Vec<RTreeNode<T>> = Vec::new();
        let envelope = envelope_for_children(&children);
        proof {
            lemma_seq_view(children@);
        }
        RTree { root: ParentNode { children, envelope }, size: 0 }
    }

    /// The number of values stored in the tree.
    pub fn size(&self) -> (r: usize)
        requires
            self.wf(),
        ensures
            r == self.spec_elems().len(),
    {
        self.size
    }

    /// Adds `t` to the tree, below the last child on each level; no node is
    /// split.
    pub fn insert(&mut self, t: T)
        requires
            old(self).wf(),
            old(self).spec_elems().len() < usize::MAX,
        ensures
            final(self).wf(),
            final(self).spec_elems() == old(self).spec_elems().push(t),
    {
        insert_into(&mut self.root, t);
        self.size = self.size + 1;
    }

    /// The number of values that `sel` finds in the tree.
    pub fn count_with_selection_function<R: SelectionFunction<T>>(&self, sel: &R) -> (r: usize)
        requires
            self.wf(),
        ensures
            r == selected(self@, *sel).len(),
    {
        count_selected(&self.root, sel)
    }

    /// Removes and returns the first value that `sel` finds, if any.
    pub fn remove_with_selection_function<R: SelectionFunction<T>>(&mut self, sel: &R) -> (r:
        Option<T>)
        requires
            old(self).wf(),
        ensures
            final(self).wf(),
            selected(old(self)@, *sel).len() == 0 ==> r.is_none() && final(self)@ == old(self)@,
            selected(old(self)@, *sel).len() > 0 ==> r == Some(selected(old(self)@, *sel)[0])
                && final(self).spec_elems() == crate::node::first_kept(old(self)@, *sel),
            r.is_some() ==> final(self).spec_elems().len() == old(self).spec_elems().len() - 1,
    {
        let r = remove(&mut self.root, sel);
        proof {
            lemma_selected_kept_len(parent_view(self.root), *sel);
        }
        if r.is_some() {
            proof {
                crate::node::lemma_first_kept_len(old(self)@, *sel);
            }
            self.size = self.size - 1;
        }
        r
    }

    /// Removes and returns every value that `sel` finds.
    pub fn remove_all_with_selection_function<R: SelectionFunction<T>>(&mut self, sel: &R) -> (r:
        Vec<T>)
        requires
            old(self).wf(),
        ensures
            final(self).wf(),
            r@ == selected(old(self)@, *sel),
            final(self).spec_elems() == kept(old(self)@, *sel),
            selected(final(self)@, *sel).len() == 0,
            final(self).spec_elems().len() == old(self).spec_elems().len() - r@.len(),
    {
        let ghost before = self@;
        let r = remove_all(&mut self.root, sel);
        proof {
            lemma_selected_kept_len(before, *sel);
        }
        self.size = self.size - r.len();
        r
    }

    /// Takes the root and the count out, leaving an empty tree behind.
    pub(crate) fn take_root(&mut self) -> (r: (ParentNode<T>, usize))
        requires
            old(self).wf(),
        ensures
            final(self).wf(),
            final(self).spec_elems() == Seq::<T>::empty(),
            root_wf(parent_view(r.0)),
            parent_view(r.0) == old(self)@,
            r.1 == old(self).spec_elems().len(),
    {
        let mut other = RTree::new();
        std::mem::swap(self, &mut other);
        (other.root, other.size)
    }

    /// Installs a well-formed root with its count.
    pub(crate) fn set_root(&mut self, root: ParentNode<T>, size: usize)
        requires
            root_wf(parent_view(root)),
            size == elems(parent_view(root)).len(),
        ensures
            final(self).wf(),
            final(self)@ == parent_view(root),
    {
        self.root = root;
        self.size = size;
    }

    /// A tree holding the given values, in their order: consecutive runs of at
    /// most `MAX_CHILDREN` nodes are grouped under new interior nodes, level by
    /// level, until the root's children fit.
    pub fn bulk_load(elements: Vec<T>) -> (r: RTree<T>)
        ensures
            r.wf(),
            r.spec_elems() == elements@,
    {
        let mut elements = elements;
        let ghost input = elements@;
        let count = elements.len();
        let mut level: Vec<RTreeNode<T>> = Vec::new();
        proof {
            lemma_seq_view(level@);
            assert(seq_view(level@) =~= Seq::<TreeView<T>>::empty());
        }
        while elements.len() > 0
            invariant
                seq_elems(seq_view(level@)) + elements@ == input,
                seq_wf(seq_view(level@)),
                seq_view(level@).len() == level@.len(),
            decreases elements@.len(),
        {
            let ghost before = level@;
            let t = elements.remove(0);
            level.push(RTreeNode::Leaf(t));
            proof {
                lemma_seq_view_push(before, RTreeNode::Leaf(t));
                lemma_elems_push(seq_view(before), TreeView::Leaf(t));
                assert(seq_elems(seq_view(level@)) + elements@ =~= input);
            }
        }
        assert(elements@ =~= Seq::<T>::empty());
        assert(seq_elems(seq_view(level@)) =~= input);
        while level.len() > MAX_CHILDREN
            invariant
                seq_elems(seq_view(level@)) == input,
                seq_wf(seq_view(level@)),
                seq_view(level@).len() == level@.len(),
            decreases level@.len(),
        {
            level = group_level(level);
        }
        let envelope = envelope_for_children(&level);
        RTree { root: ParentNode { children: level, envelope }, size: count }
    }
}

impl<T: RTreeObject + ValueEq + Copy> RTree<T> {
    /// Whether a value equal to `t` is stored in the tree.
    pub fn contains(&self, t: &T) -> (r: bool)
        requires
            self.wf(),
        ensures
            r == self.spec_elems().contains(*t),
    {
        let sel = SelectEqualsFunc::new(*t);
        proof {
            lemma_root_equal_found(self@, *t);
        }
        self.count_with_selection_function(&sel) > 0
    }

    /// Removes one stored value equal to `t` and returns it; `None`, with the
    /// tree unchanged, where there is none.
    pub fn remove(&mut self, t: &T) -> (r: Option<T>)
        requires
            old(self).wf(),
        ensures
            final(self).wf(),
            r.is_some() <==> old(self).spec_elems().contains(*t),
            r.is_some() ==> r == Some(*t) && old(self).spec_elems().to_multiset()
                == final(self).spec_elems().to_multiset().insert(*t)
                && final(self).spec_elems().len() == old(self).spec_elems().len() - 1,
            r.is_none() ==> final(self)@ == old(self)@,
    {
        let sel = SelectEqualsFunc::new(*t);
        proof {
            lemma_root_equal_found(self@, *t);
            if selected(self@, sel).len() > 0 {
                crate::node::lemma_first_kept_ms(self@, sel);
                crate::node::lemma_selected_match(self@, sel);
                assert(sel.spec_unpack_leaf(selected(self@, sel)[0]));
            }
        }
        self.remove_with_selection_function(&sel)
    }
}

impl<T: RTreeObject + ValueEq> RTree<T> {
    /// Removes and returns the first value whose box contains the point: one
    /// is removed wherever a stored value's box contains the point.
    pub fn remove_at_point(&mut self, x: i64, y: i64) -> (r: Option<T>)
        requires
            old(self).wf(),
        ensures
            final(self).wf(),
            ({
                let sel = SelectAtPointFunc { x, y };
                &&& selected(old(self)@, sel).len() == 0 ==> r.is_none() && final(self)@ == old(self)@
                &&& selected(old(self)@, sel).len() > 0 ==> r == Some(selected(old(self)@, sel)[0])
                    && old(self).spec_elems().to_multiset()
                    == final(self).spec_elems().to_multiset().insert(r.unwrap())
                    && final(self).spec_elems().len() == old(self).spec_elems().len() - 1
            }),
            forall|v: T|
                old(self).spec_elems().contains(v) && spec_contains_point(v.spec_envelope(), x, y)
                    ==> r.is_some(),
            r.is_some() ==> spec_contains_point(r.unwrap().spec_envelope(), x, y),
    {
        let sel = SelectAtPointFunc::new(x, y);
        proof {
            if selected(self@, sel).len() > 0 {
                crate::node::lemma_first_kept_ms(self@, sel);
                crate::node::lemma_selected_match(self@, sel);
                assert(sel.spec_unpack_leaf(selected(self@, sel)[0]));
            }
            assert forall|v: T|
                self.spec_elems().contains(v) && spec_contains_point(v.spec_envelope(), x, y)
                    implies selected(self@, sel).len() > 0 by {
                crate::lookup::lemma_root_point_found(self@, v, x, y);
            }
        }
        self.remove_with_selection_function(&sel)
    }
}

/// Appends `t` below the last child while that child is an interior node,
/// so that the values keep their order with `t` last.
fn insert_into<T: RTreeObject>(node: &mut ParentNode<T>, t: T)
    requires
        root_wf(parent_view(*old(node))),
    ensures
        root_wf(parent_view(*final(node))),
        final(node).children@.len() > 0,
        elems(parent_view(*final(node))) == elems(parent_view(*old(node))).push(t),
    decreases *old(node),
{
    let ghost old_node = *node;
    let ghost cs = node.children@;
    proof {
        lemma_seq_view(cs);
    }
    match node.children.pop() {
        Some(RTreeNode::Parent(mut data)) => {
            proof {
                let init = cs.subrange(0, cs.len() - 1);
                assert(node.children@ =~= init);
                assert(node_view(cs[cs.len() - 1]) == seq_view(cs)[cs.len() - 1]);
                assert(node_wf(parent_view(data)));
                lemma_node_wf_parent(seq_view(data.children@), data.envelope);
                assert(decreases_to!(old_node => old_node.children));
                assert(decreases_to!(old_node.children => cs));
                assert(decreases_to!(cs => cs[cs.len() - 1]));
                assert(decreases_to!(cs[cs.len() - 1] => data));
            }
            insert_into(&mut data, t);
            let ghost d = data;
            let ghost before = node.children@;
            node.children.push(RTreeNode::Parent(data));
            proof {
                lemma_seq_view(data.children@);
                lemma_node_wf_parent(seq_view(d.children@), d.envelope);
                lemma_seq_view_push(before, RTreeNode::Parent(d));
                lemma_elems_push(seq_view(before), parent_view(d));
                assert(seq_view(before) =~= seq_view(cs).subrange(0, cs.len() - 1)) by {
                    lemma_seq_view(before);
                    lemma_seq_view_eq(before, seq_view(cs).subrange(0, cs.len() - 1));
                }
                lemma_seq_view(node.children@);
                assert forall|k: int| 0 <= k < seq_view(node.children@).len() implies #[trigger] node_wf(
                    seq_view(node.children@)[k],
                ) by {
                    if k < before.len() {
                        assert(seq_view(node.children@)[k] == seq_view(cs)[k]);
                    }
                }
                assert(elems(parent_view(*node)) =~= elems(parent_view(old_node)).push(t));
            }
        },
        Some(RTreeNode::Leaf(l)) => {
            node.children.push(RTreeNode::Leaf(l));
            let ghost before = node.children@;
            node.children.push(RTreeNode::Leaf(t));
            proof {
                assert(before =~= cs);
                lemma_seq_view_push(before, RTreeNode::Leaf(t));
                lemma_elems_push(seq_view(before), TreeView::Leaf(t));
                lemma_seq_view(node.children@);
                assert forall|k: int| 0 <= k < seq_view(node.children@).len() implies #[trigger] node_wf(
                    seq_view(node.children@)[k],
                ) by {
                    if k < before.len() {
                        assert(seq_view(node.children@)[k] == seq_view(cs)[k]);
                    }
                }
            }
        },
        None => {
            node.children.push(RTreeNode::Leaf(t));
            proof {
                assert(cs =~= Seq::<RTreeNode<T>>::empty());
                lemma_seq_view_push(cs, RTreeNode::Leaf(t));
                lemma_elems_push(seq_view(cs), TreeView::Leaf(t));
                lemma_seq_view(node.children@);
            }
        },
    }
    node.envelope = envelope_for_children(&node.children);
}

/// The number of values that `sel` finds under `node`.
fn count_selected<T: RTreeObject, R: SelectionFunction<T>>(node: &ParentNode<T>, sel: &R) -> (r:
    usize)
    requires
        elems(parent_view(*node)).len() <= usize::MAX,
    ensures
        r == selected(parent_view(*node), *sel).len(),
    decreases *node,
{
    let ghost vs = seq_view(node.children@);
    proof {
        lemma_seq_view(node.children@);
    }
    if !sel.should_unpack_parent(&node.envelope) {
        return 0;
    }
    let mut acc: usize = 0;
    let mut i: usize = 0;
    while i < node.children.len()
        invariant
            vs == seq_view(node.children@),
            vs.len() == node.children@.len(),
            forall|k: int| 0 <= k < node.children@.len() ==> #[trigger] vs[k] == node_view(node.children@[k]),
            seq_elems(vs).len() <= usize::MAX,
            0 <= i <= vs.len(),
            acc == seq_selected(vs.subrange(0, i as int), *sel).len(),
        decreases vs.len() - i,
    {
        proof {
            lemma_seq_prefix_step(vs, i as int, *sel);
            lemma_seq_concat(vs.subrange(0, i + 1), vs.subrange(i + 1, vs.len() as int), *sel);
            assert(vs.subrange(0, i + 1) + vs.subrange(i + 1, vs.len() as int) =~= vs);
            crate::node::lemma_seq_selected_kept_len(vs.subrange(0, i + 1), *sel);
            lemma_selected_kept_len(vs[i as int], *sel);
        }
        match &node.children[i] {
            RTreeNode::Leaf(t) => {
                if sel.should_unpack_leaf(t) {
                    acc = acc + 1;
                }
            },
            RTreeNode::Parent(p) => {
                proof {
                    assert(decreases_to!(*node => node.children));
                    assert(decreases_to!(node.children => node.children@));
                    assert(decreases_to!(node.children@ => node.children@[i as int]));
                }
                let c = count_selected(p, sel);
                acc = acc + c;
            },
        }
        i = i + 1;
    }
    assert(vs.subrange(0, i as int) =~= vs);
    acc
}

/// Groups consecutive runs of at most `MAX_CHILDREN` nodes under new
/// interior nodes, keeping the order of the values.
fn group_level<T: RTreeObject>(level: Vec<RTreeNode<T>>) -> (r: Vec<RTreeNode<T>>)
    requires
        seq_wf(seq_view(level@)),
    ensures
        seq_wf(seq_view(r@)),
        seq_view(r@).len() == r@.len(),
        seq_elems(seq_view(r@)) == seq_elems(seq_view(level@)),
        MAX_CHILDREN * r@.len() <= level@.len() + MAX_CHILDREN - 1,
{
    let mut level = level;
    let ghost input = seq_view(level@);
    let ghost n = level@.len();
    let mut next: Vec<RTreeNode<T>> = Vec::new();
    proof {
        lemma_seq_view(next@);
        assert(seq_elems(seq_view(next@)) =~= Seq::<T>::empty());
        assert(seq_elems(seq_view(next@)) + seq_elems(seq_view(level@)) =~= seq_elems(input));
    }
    while level.len() > 0
        invariant
            seq_elems(seq_view(next@)) + seq_elems(seq_view(level@)) == seq_elems(input),
            seq_wf(seq_view(next@)),
            seq_wf(seq_view(level@)),
            seq_view(next@).len() == next@.len(),
            level@.len() <= n,
            level@.len() > 0 ==> MAX_CHILDREN * next@.len() == n - level@.len(),
            MAX_CHILDREN * next@.len() <= n - level@.len() + MAX_CHILDREN - 1,
        decreases level@.len(),
    {
        let ghost level0 = level@;
        let mut chunk: Vec<RTreeNode<T>> = Vec::new();
        proof {
            lemma_seq_view(chunk@);
            assert(seq_elems(seq_view(chunk@)) =~= Seq::<T>::empty());
            assert(seq_elems(seq_view(chunk@)) + seq_elems(seq_view(level@)) =~= seq_elems(
                seq_view(level0),
            ));
        }
        while chunk.len() < MAX_CHILDREN && level.len() > 0
            invariant
                seq_elems(seq_view(chunk@)) + seq_elems(seq_view(level@)) == seq_elems(
                    seq_view(level0),
                ),
                seq_wf(seq_view(chunk@)),
                seq_wf(seq_view(level@)),
                seq_view(chunk@).len() == chunk@.len(),
                chunk@.len() <= MAX_CHILDREN,
                chunk@.len() + level@.len() == level0.len(),
            decreases level@.len(),
        {
            let ghost lv = level@;
            let ghost ch = chunk@;
            proof {
                lemma_seq_view(lv);
                lemma_seq_view_drop_first(lv);
                lemma_elems_first(seq_view(lv));
            }
            let c = level.remove(0);
            proof {
                assert(level@ =~= lv.drop_first());
                assert(node_view(c) == seq_view(lv)[0]);
                assert(node_wf(node_view(c)));
            }
            chunk.push(c);
            proof {
                lemma_seq_view_push(ch, c);
                lemma_elems_push(seq_view(ch), node_view(c));
                lemma_seq_view(chunk@);
                lemma_seq_view(level@);
                assert forall|k: int| 0 <= k < seq_view(chunk@).len() implies #[trigger] node_wf(
                    seq_view(chunk@)[k],
                ) by {
                    if k < ch.len() {
                        assert(seq_view(chunk@)[k] == seq_view(ch)[k]);
                    }
                }
                assert(seq_elems(seq_view(chunk@)) + seq_elems(seq_view(level@)) =~= seq_elems(
                    seq_view(level0),
                ));
            }
        }
        let envelope = envelope_for_children(&chunk);
        let ghost nx = next@;
        let ghost p = ParentNode { children: chunk, envelope };
        proof {
            lemma_node_wf_parent(seq_view(chunk@), envelope);
            assert(node_wf(parent_view(p)));
        }
        next.push(RTreeNode::Parent(ParentNode { children: chunk, envelope }));
        proof {
            lemma_seq_view_push(nx, RTreeNode::Parent(p));
            lemma_elems_push(seq_view(nx), parent_view(p));
            lemma_seq_view(next@);
            assert forall|k: int| 0 <= k < seq_view(next@).len() implies #[trigger] node_wf(
                seq_view(next@)[k],
            ) by {
                if k < nx.len() {
                    assert(seq_view(next@)[k] == seq_view(nx)[k]);
                }
            }
            assert(seq_elems(seq_view(next@)) + seq_elems(seq_view(level@)) =~= seq_elems(input));
        }
    }
    assert(seq_elems(seq_view(level@)) =~= Seq::<T>::empty());
    assert(seq_elems(seq_view(next@)) =~= seq_elems(input));
    next
}

} // verus!
