use vstd::prelude::*;

use crate::node::{
    elems, envelope_for_children, lemma_elems_first, lemma_node_wf_parent, lemma_selected_first,
    lemma_seq_concat, lemma_seq_prefix_step, lemma_seq_view, lemma_seq_view_eq, node_view,
    parent_view, root_wf, selected, seq_elems, seq_envelope, seq_selected, seq_tsize, seq_view,
    seq_wf, ParentNode, RTreeNode, TreeView,
};
use crate::object::RTreeObject;
use crate::rtree::RTree;
use crate::selection::{SelectAllFunc, SelectionFunction};

verus! {

/// A frame of the traversal: an interior node taken out of the tree, the
/// position of the next child to look at, and how many values were removed
/// from under it so far.
pub type Frame<T> = (ParentNode<T>, usize, usize);

pub open spec fn frame_ok<T: RTreeObject, R: SelectionFunction<T>>(f: Frame<T>, sel: R) -> bool {
    &&& f.1 <= f.0.children@.len()
    &&& seq_view(f.0.children@).len() == f.0.children@.len()
    &&& seq_wf(seq_view(f.0.children@))
    &&& seq_selected(seq_view(f.0.children@).subrange(0, f.1 as int), sel).len() == 0
    &&& f.1 == 0 && !sel.spec_unpack_parent(f.0.envelope) ==> f.0.envelope == seq_envelope(
        seq_view(f.0.children@),
    )
}

/// The traversal has looked inside the frame's node.
pub open spec fn frame_started<T, R: SelectionFunction<T>>(f: Frame<T>, sel: R) -> bool {
    f.1 > 0 || sel.spec_unpack_parent(f.0.envelope)
}

/// Nothing is left to look at in the frame: every child was seen, or the
/// selection rejects the node's box.
pub open spec fn frame_done<T, R: SelectionFunction<T>>(f: Frame<T>, sel: R) -> bool {
    f.1 >= f.0.children@.len() || (f.1 == 0 && !sel.spec_unpack_parent(f.0.envelope))
}

/// A finished frame holds nothing the selection finds, once its box is
/// recomputed.
pub proof fn lemma_done_selected<T: RTreeObject, R: SelectionFunction<T>>(f: Frame<T>, sel: R)
    requires
        frame_ok(f, sel),
        frame_done(f, sel),
    ensures
        selected(TreeView::Parent(seq_view(f.0.children@), seq_envelope(seq_view(f.0.children@))), sel).len() == 0,
{
    let vs = seq_view(f.0.children@);
    if f.1 >= f.0.children@.len() {
        assert(vs.subrange(0, f.1 as int) =~= vs);
    }
}

/// The children of a frame that are still to be looked at.
pub open spec fn frame_rest<T>(f: Frame<T>) -> Seq<TreeView<T>> {
    seq_view(f.0.children@).subrange(f.1 as int, f.0.children@.len() as int)
}

/// The values held by the nodes of the frames, frame by frame.
pub open spec fn stack_elems<T>(fs: Seq<Frame<T>>) -> Seq<T>
    decreases fs.len(),
{
    if fs.len() == 0 {
        Seq::empty()
    } else {
        stack_elems(fs.subrange(0, fs.len() - 1)) + seq_elems(seq_view(fs[fs.len() - 1].0.children@))
    }
}

/// The values removed under the frames, summed.
pub open spec fn stack_removed<T>(fs: Seq<Frame<T>>) -> nat
    decreases fs.len(),
{
    if fs.len() == 0 {
        0
    } else {
        stack_removed(fs.subrange(0, fs.len() - 1)) + fs[fs.len() - 1].2 as nat
    }
}

/// An upper bound on the steps left to the traversal.
pub open spec fn stack_work<T>(fs: Seq<Frame<T>>) -> nat
    decreases fs.len(),
{
    if fs.len() == 0 {
        0
    } else {
        stack_work(fs.subrange(0, fs.len() - 1)) + 1 + seq_tsize(frame_rest(fs[fs.len() - 1]))
    }
}

/// Pushing a frame adds its part to each sum over the frames.
pub proof fn lemma_stack_push<T>(fs: Seq<Frame<T>>, f: Frame<T>)
    ensures
        stack_elems(fs.push(f)) == stack_elems(fs) + seq_elems(seq_view(f.0.children@)),
        stack_removed(fs.push(f)) == stack_removed(fs) + f.2,
        stack_work(fs.push(f)) == stack_work(fs) + 1 + seq_tsize(frame_rest(f)),
{
    assert(fs.push(f).subrange(0, fs.len() as int) =~= fs);
}

/// A sequence of models around its `i`-th node, and without it.
pub proof fn lemma_split_at<T>(vs: Seq<TreeView<T>>, i: int)
    requires
        0 <= i < vs.len(),
    ensures
        seq_elems(vs) == seq_elems(vs.subrange(0, i)) + elems(vs[i]) + seq_elems(
            vs.subrange(i + 1, vs.len() as int),
        ),
        seq_elems(vs.remove(i)) == seq_elems(vs.subrange(0, i)) + seq_elems(
            vs.subrange(i + 1, vs.len() as int),
        ),
        seq_tsize(vs.subrange(i, vs.len() as int)) == crate::node::tsize(vs[i]) + seq_tsize(
            vs.subrange(i + 1, vs.len() as int),
        ),
        vs.remove(i).subrange(i, vs.len() - 1) == vs.subrange(i + 1, vs.len() as int),
{
    let a = vs.subrange(0, i);
    let b = vs.subrange(i, vs.len() as int);
    let c = vs.subrange(i + 1, vs.len() as int);
    assert(vs =~= a + b);
    lemma_seq_concat(a, b, SelectAllFunc);
    lemma_elems_first(b);
    assert(b.drop_first() =~= c);
    assert(b[0] == vs[i]);
    assert(vs.remove(i) =~= a + c);
    lemma_seq_concat(a, c, SelectAllFunc);
    assert(vs.remove(i).subrange(i, vs.len() - 1) =~= c);
}

/// A sequence of models with a node put in at position `i`.
pub proof fn lemma_insert_at<T>(vs: Seq<TreeView<T>>, i: int, x: TreeView<T>)
    requires
        0 <= i <= vs.len(),
    ensures
        seq_elems(vs.insert(i, x)) == seq_elems(vs.subrange(0, i)) + elems(x) + seq_elems(
            vs.subrange(i, vs.len() as int),
        ),
        seq_elems(vs) == seq_elems(vs.subrange(0, i)) + seq_elems(vs.subrange(i, vs.len() as int)),
        vs.insert(i, x).subrange(i + 1, vs.len() + 1int) == vs.subrange(i, vs.len() as int),
{
    let a = vs.subrange(0, i);
    let b = vs.subrange(i, vs.len() as int);
    assert(vs =~= a + b);
    lemma_seq_concat(a, b, SelectAllFunc);
    let v2 = vs.insert(i, x);
    assert(v2 =~= a + (seq![x] + b));
    lemma_seq_concat(a, seq![x] + b, SelectAllFunc);
    lemma_elems_first(seq![x] + b);
    assert((seq![x] + b).drop_first() =~= b);
    assert(v2.subrange(i + 1, vs.len() + 1int) =~= b);
}

/// Moving a block of values inside a concatenation keeps the multiset.
pub proof fn lemma_ms_move<T>(b: Seq<T>, p: Seq<T>, c: Seq<T>, q: Seq<T>, y: Seq<T>)
    ensures
        (b + (p + q) + c + y).to_multiset() == (b + (p + c + q) + y).to_multiset(),
{
    broadcast use vstd::seq_lib::lemma_multiset_commutative;

    assert(b + (p + q) + c + y =~= b + (p + (q + (c + y))));
    assert(b + (p + c + q) + y =~= b + (p + (c + (q + y))));
    assert((q + (c + y)).to_multiset() =~= q.to_multiset().add(c.to_multiset().add(y.to_multiset())));
    assert((c + (q + y)).to_multiset() =~= c.to_multiset().add(q.to_multiset().add(y.to_multiset())));
    assert((p + (q + (c + y))).to_multiset() =~= (p + (c + (q + y))).to_multiset());
    assert((b + (p + (q + (c + y)))).to_multiset() =~= (b + (p + (c + (q + y)))).to_multiset());
}

/// Handing out a value from the middle of the frames keeps the multiset.
pub proof fn lemma_ms_yield<T>(b: Seq<T>, p: Seq<T>, t: T, q: Seq<T>, y: Seq<T>)
    ensures
        (b + (p + q) + y.push(t)).to_multiset() == (b + (p + seq![t] + q) + y).to_multiset(),
{
    broadcast use vstd::seq_lib::lemma_multiset_commutative;

    lemma_ms_move(b, p, seq![t], q, y);
    Seq::<T>::empty().to_multiset_ensures();
    y.to_multiset_ensures();
    assert(seq![t] =~= Seq::<T>::empty().push(t));
    let m = b + (p + q);
    assert(m + seq![t] + y =~= m + (seq![t] + y));
    assert((m + (seq![t] + y)).to_multiset() =~= m.to_multiset().add(seq![t].to_multiset().add(y.to_multiset())));
    assert((m + y.push(t)).to_multiset() =~= m.to_multiset().add(y.push(t).to_multiset()));
}

/// The node of a closed frame with its box recomputed, as it is put back.
pub open spec fn closed_node<T: RTreeObject>(f: Frame<T>) -> ParentNode<T> {
    ParentNode { children: f.0.children, envelope: seq_envelope(seq_view(f.0.children@)) }
}

/// The stack `after` is `before` with its top frame closed: the frames below
/// the one under the top are unchanged; that one adds the closed frame's
/// removal count to its own and gets the closed node back, unless the node has
/// no children left. With `increment_idx` the node goes in at that frame's scan
/// index, which moves past it; without, it goes last and the index is kept.
pub open spec fn closed_frame<T: RTreeObject>(
    before: Seq<Frame<T>>,
    after: Seq<Frame<T>>,
    increment_idx: bool,
) -> bool {
    let n = before.len();
    let top = before[n - 1];
    let parent = before[n - 2];
    let nt = after[n - 2];
    let back = RTreeNode::Parent(closed_node(top));
    &&& after.len() == n - 1
    &&& after.subrange(0, n - 2) == before.subrange(0, n - 2)
    &&& nt.2 == parent.2 + top.2
    &&& nt.0.envelope == parent.0.envelope
    &&& top.0.children@.len() == 0 ==> nt.0 == parent.0 && nt.1 == parent.1
    &&& top.0.children@.len() > 0 && increment_idx ==> nt.0.children@
        == parent.0.children@.insert(parent.1 as int, back) && nt.1 == parent.1 + 1
    &&& top.0.children@.len() > 0 && !increment_idx ==> nt.0.children@
        == parent.0.children@.push(back) && nt.1 == parent.1
}

/// What the selection has still to find in a frame: under the children from
/// the scan index on, unless the node's box was rejected before any was seen.
pub open spec fn frame_pending<T, R: SelectionFunction<T>>(f: Frame<T>, sel: R) -> Seq<T> {
    if frame_started(f, sel) {
        seq_selected(seq_view(f.0.children@).subrange(f.1 as int, f.0.children@.len() as int), sel)
    } else {
        Seq::empty()
    }
}

/// What the selection has still to find, from the top frame down.
pub open spec fn stack_pending<T, R: SelectionFunction<T>>(fs: Seq<Frame<T>>, sel: R) -> Seq<T>
    decreases fs.len(),
{
    if fs.len() == 0 {
        Seq::empty()
    } else {
        frame_pending(fs[fs.len() - 1], sel) + stack_pending(fs.subrange(0, fs.len() - 1), sel)
    }
}

pub proof fn lemma_stack_pending_push<T, R: SelectionFunction<T>>(
    fs: Seq<Frame<T>>,
    f: Frame<T>,
    sel: R,
)
    ensures
        stack_pending(fs.push(f), sel) == frame_pending(f, sel) + stack_pending(fs, sel),
{
    assert(fs.push(f).subrange(0, fs.len() as int) =~= fs);
}

/// What is still to be found in a started frame, split at its scan index.
pub proof fn lemma_pending_split<T: RTreeObject, R: SelectionFunction<T>>(f: Frame<T>, sel: R)
    requires
        frame_ok(f, sel),
        frame_started(f, sel),
        f.1 < f.0.children@.len(),
    ensures
        frame_pending(f, sel) == selected(seq_view(f.0.children@)[f.1 as int], sel) + seq_selected(
            seq_view(f.0.children@).subrange(f.1 + 1, f.0.children@.len() as int),
            sel,
        ),
{
    let vs = seq_view(f.0.children@);
    let rest = vs.subrange(f.1 as int, vs.len() as int);
    lemma_selected_first(rest, sel);
    assert(rest.drop_first() =~= vs.subrange(f.1 + 1, vs.len() as int));
    assert(rest[0] == vs[f.1 as int]);
}

/// Closing a finished frame leaves what is still to be found as it was.
pub proof fn lemma_close_keeps_pending<T: RTreeObject, R: SelectionFunction<T>>(
    before: Seq<Frame<T>>,
    after: Seq<Frame<T>>,
    sel: R,
)
    requires
        before.len() > 1,
        closed_frame(before, after, true),
        frame_ok(before[before.len() - 1], sel),
        frame_done(before[before.len() - 1], sel),
        frame_ok(before[before.len() - 2], sel),
        frame_started(before[before.len() - 2], sel),
    ensures
        stack_pending(after, sel) == stack_pending(before, sel),
{
    let n = before.len();
    let top = before[n - 1];
    let parent = before[n - 2];
    let nt = after[n - 2];
    let base2 = before.subrange(0, n - 2);
    assert(before =~= base2.push(parent).push(top));
    assert(after =~= base2.push(nt));
    lemma_stack_pending_push(base2.push(parent), top, sel);
    lemma_stack_pending_push(base2, parent, sel);
    lemma_stack_pending_push(base2, nt, sel);
    let tvs = seq_view(top.0.children@);
    if frame_started(top, sel) {
        assert(tvs.subrange(top.1 as int, top.0.children@.len() as int) =~= Seq::<TreeView<T>>::empty());
    }
    assert(frame_pending(top, sel) =~= Seq::<T>::empty());
    if top.0.children@.len() > 0 {
        let pvs = seq_view(parent.0.children@);
        let back = RTreeNode::Parent(closed_node(top));
        lemma_seq_view(nt.0.children@);
        lemma_seq_view(parent.0.children@);
        lemma_seq_view_eq(nt.0.children@, pvs.insert(parent.1 as int, node_view(back)));
        lemma_insert_at(pvs, parent.1 as int, node_view(back));
    }
    assert(frame_pending(nt, sel) == frame_pending(parent, sel));
    assert(stack_pending(before, sel) =~= stack_pending(after, sel));
}

/// Removes, one at a time, the values that a selection finds, taking nodes out
/// of the tree as it descends and putting them back, with fresh boxes, as it
/// climbs. `finish` puts the tree together again however far it went.
pub struct DrainIterator<T, R> {
    node_stack: Vec<Frame<T>>,
    removal_function: R,
    original_size: usize,
    exhausted: bool,
    original: Ghost<Seq<T>>,
    original_tree: Ghost<TreeView<T>>,
    yielded: Ghost<Seq<T>>,
}

impl<T: RTreeObject, R: SelectionFunction<T>> DrainIterator<T, R> {
    /// The values the tree held when the traversal began.
    pub closed spec fn original(&self) -> Seq<T> {
        self.original@
    }

    /// The values handed out so far, in order.
    pub closed spec fn yielded(&self) -> Seq<T> {
        self.yielded@
    }

    /// The tree as it was when the traversal began.
    pub closed spec fn original_tree(&self) -> TreeView<T> {
        self.original_tree@
    }

    /// The frames of the traversal, bottom first.
    pub closed spec fn frames(&self) -> Seq<Frame<T>> {
        self.node_stack@
    }

    /// What was handed out, followed by what is still to be found, is what
    /// the selection finds in the original tree, in order.
    pub closed spec fn on_track(&self) -> bool {
        self.yielded@ + stack_pending(self.node_stack@, self.removal_function) == selected(
            self.original_tree@,
            self.removal_function,
        )
    }

    /// The values handed out are the first ones the selection finds in the
    /// original tree; all of them once the traversal is exhausted.
    pub proof fn lemma_yielded_prefix(&self)
        requires
            self.inv(),
            self.on_track(),
        ensures
            self.yielded() == selected(self.original_tree(), self.selection()).take(
                self.yielded().len() as int,
            ),
            self.is_exhausted() ==> self.yielded() == selected(
                self.original_tree(),
                self.selection(),
            ),
    {
        let fs = self.node_stack@;
        let s = selected(self.original_tree@, self.removal_function);
        assert(s.take(self.yielded@.len() as int) =~= self.yielded@);
        if self.exhausted {
            assert(fs =~= Seq::<Frame<T>>::empty().push(fs[0]));
            lemma_stack_pending_push(Seq::<Frame<T>>::empty(), fs[0], self.removal_function);
            let f = fs[0];
            assert(frame_ok(f, self.removal_function));
            if frame_started(f, self.removal_function) {
                assert(seq_view(f.0.children@).subrange(f.1 as int, f.0.children@.len() as int)
                    =~= Seq::<TreeView<T>>::empty());
            }
            assert(stack_pending(fs, self.removal_function) =~= Seq::<T>::empty());
            assert(self.yielded@ =~= s);
        }
    }

    pub closed spec fn selection(&self) -> R {
        self.removal_function
    }

    /// Whether the traversal has reported that nothing is left.
    pub closed spec fn is_exhausted(&self) -> bool {
        self.exhausted
    }

    pub closed spec fn inv(&self) -> bool {
        let fs = self.node_stack@;
        &&& fs.len() >= 1
        &&& forall|k: int| 0 <= k < fs.len() ==> #[trigger] frame_ok(fs[k], self.removal_function)
        &&& (stack_elems(fs) + self.yielded@).to_multiset() == self.original@.to_multiset()
        &&& stack_elems(fs).len() + self.yielded@.len() == self.original@.len()
        &&& stack_removed(fs) == self.yielded@.len()
        &&& self.original@.len() == self.original_size
        &&& forall|k: int| 0 <= k < self.yielded@.len() ==> self.removal_function.spec_unpack_leaf(
            #[trigger] self.yielded@[k],
        )
        &&& forall|k: int| 0 <= k < fs.len() - 1 ==> #[trigger] frame_started(fs[k], self.removal_function)
        &&& self.exhausted ==> fs.len() == 1 && frame_done(fs[0], self.removal_function)
        &&& root_wf(self.original_tree@)
    }

    /// Starts draining `rtree` with `removal_function`. Until `finish` is
    /// called the tree is left empty.
    pub fn new(rtree: &mut RTree<T>, removal_function: R) -> (r: Self)
        requires
            old(rtree).wf(),
        ensures
            r.inv(),
            r.on_track(),
            r.original_tree() == old(rtree)@,
            r.frames().len() == 1,
            parent_view(r.frames()[0].0) == old(rtree)@,
            r.frames()[0].1 == 0,
            r.frames()[0].2 == 0,
            r.original() == old(rtree).spec_elems(),
            r.yielded() == Seq::<T>::empty(),
            r.selection() == removal_function,
            final(rtree).wf(),
            final(rtree).spec_elems() == Seq::<T>::empty(),
    {
        let (root, size) = rtree.take_root();
        let ghost original = elems(parent_view(root));
        let mut node_stack: Vec<Frame<T>> = Vec::new();
        node_stack.push((root, 0, 0));
        let r = DrainIterator {
            node_stack,
            removal_function,
            original_size: size,
            exhausted: false,
            original: Ghost(original),
            original_tree: Ghost(parent_view(root)),
            yielded: Ghost(Seq::empty()),
        };
        proof {
            let fs = r.node_stack@;
            lemma_seq_view(root.children@);
            assert(fs.subrange(0, 0) =~= Seq::<Frame<T>>::empty());
            assert(fs[0] == (root, 0usize, 0usize));
            assert(stack_elems(fs.subrange(0, 0)) =~= Seq::<T>::empty());
            assert(stack_removed(fs.subrange(0, 0)) == 0);
            assert(seq_view(root.children@).subrange(0, 0) =~= Seq::<TreeView<T>>::empty());
            assert(frame_ok(fs[0], r.removal_function));
            assert(stack_elems(fs) =~= original);
            assert(stack_elems(fs) + r.yielded@ =~= original);
            assert(fs =~= Seq::<Frame<T>>::empty().push(fs[0]));
            lemma_stack_pending_push(Seq::<Frame<T>>::empty(), fs[0], r.removal_function);
            assert(seq_view(root.children@).subrange(0, root.children@.len() as int) =~= seq_view(
                root.children@,
            ));
            assert(r.yielded@ + stack_pending(fs, r.removal_function) =~= selected(
                parent_view(root),
                r.removal_function,
            ));
        }
        r
    }

    /// Removes and returns the next value that the selection finds, or
    /// reports that none is left.
    #[verifier::rlimit(100)]
    pub fn next(&mut self) -> (r: Option<T>)
        requires
            old(self).inv(),
            old(self).on_track(),
        ensures
            final(self).inv(),
            final(self).on_track(),
            final(self).original_tree() == old(self).original_tree(),
            final(self).yielded() == selected(final(self).original_tree(), final(self).selection()).take(
                final(self).yielded().len() as int,
            ),
            r.is_none() ==> final(self).yielded() == selected(
                final(self).original_tree(),
                final(self).selection(),
            ),
            final(self).original() == old(self).original(),
            final(self).selection() == old(self).selection(),
            old(self).is_exhausted() ==> r.is_none(),
            match r {
                Some(t) => {
                    &&& final(self).yielded() == old(self).yielded().push(t)
                    &&& old(self).selection().spec_unpack_leaf(t)
                    &&& !final(self).is_exhausted()
                },
                None => {
                    &&& final(self).yielded() == old(self).yielded()
                    &&& final(self).is_exhausted()
                },
            },
    {
        broadcast use vstd::seq_lib::lemma_multiset_commutative;

        if self.exhausted {
            proof {
                self.lemma_yielded_prefix();
            }
            return None;
        }
        loop
            invariant
                self.inv(),
                self.on_track(),
                self.original_tree@ == old(self).original_tree@,
                !self.exhausted,
                !old(self).exhausted,
                self.original@ == old(self).original@,
                self.yielded@ == old(self).yielded@,
                self.removal_function == old(self).removal_function,
            decreases stack_work(self.node_stack@),
        {
            let last = self.node_stack.len() - 1;
            let scan = self.node_stack[last].1 < self.node_stack[last].0.children.len() && (
            self.node_stack[last].1 > 0 || self.removal_function.should_unpack_parent(
                &self.node_stack[last].0.envelope,
            ));
            if !scan {
                if last == 0 {
                    self.exhausted = true;
                    proof {
                        self.lemma_yielded_prefix();
                    }
                    return None;
                }
                let ghost fs0 = self.node_stack@;
                proof {
                    assert(frame_ok(fs0[fs0.len() - 1], self.removal_function));
                    assert(frame_ok(fs0[fs0.len() - 2], self.removal_function));
                    assert(frame_started(fs0[fs0.len() - 2], self.removal_function));
                }
                self.pop_node(true);
                proof {
                    lemma_close_keeps_pending(fs0, self.node_stack@, self.removal_function);
                }
                continue;
            }
            let ghost fs = self.node_stack@;
            let ghost base = fs.subrange(0, fs.len() - 1);
            let ghost top = fs[fs.len() - 1];
            proof {
                assert(frame_ok(top, self.removal_function));
                assert(fs =~= base.push(top));
                lemma_stack_push(base, top);
                lemma_seq_view(top.0.children@);
                lemma_stack_pending_push(base, top, self.removal_function);
                lemma_pending_split(top, self.removal_function);
            }
            let (mut node, idx, removed) = match self.node_stack.pop() {
                Some(f) => f,
                None => {
                    return None;
                },
            };
            let ghost vs = seq_view(node.children@);
            proof {
                lemma_split_at(vs, idx as int);
            }
            let take = match &node.children[idx] {
                RTreeNode::Leaf(t) => self.removal_function.should_unpack_leaf(t),
                RTreeNode::Parent(_) => true,
            };
            if !take {
                let ghost f1 = (node, (idx + 1) as usize, removed);
                proof {
                    assert(frame_rest(f1) =~= vs.subrange(idx + 1, vs.len() as int));
                    lemma_seq_prefix_step(vs, idx as int, self.removal_function);
                }
                self.node_stack.push((node, idx + 1, removed));
                proof {
                    lemma_stack_push(base, f1);
                    lemma_stack_pending_push(base, f1, self.removal_function);
                    assert(frame_pending(f1, self.removal_function) =~= seq_selected(
                        vs.subrange(idx + 1, vs.len() as int),
                        self.removal_function,
                    ));
                    assert(selected(vs[idx as int], self.removal_function) =~= Seq::<T>::empty());
                    assert(stack_pending(self.node_stack@, self.removal_function)
                        =~= stack_pending(fs, self.removal_function));
                    assert(self.on_track());
                    assert(frame_ok(f1, self.removal_function));
                    assert forall|k: int| 0 <= k < self.node_stack@.len() - 1 implies #[trigger] frame_started(
                        self.node_stack@[k],
                        self.removal_function,
                    ) by {
                        assert(self.node_stack@[k] == fs[k]);
                    }
                    assert forall|k: int| 0 <= k < self.node_stack@.len() implies #[trigger] frame_ok(self.node_stack@[k], self.removal_function) by {
                        if k < base.len() {
                            assert(self.node_stack@[k] == fs[k]);
                        }
                    }
                }
                continue;
            }
            let ghost cs = node.children@;
            let child = node.children.remove(idx);
            proof {
                lemma_seq_view(node.children@);
                lemma_seq_view_eq(node.children@, vs.remove(idx as int));
                assert(node_view(child) == vs[idx as int]);
                assert(vs.remove(idx as int).subrange(0, idx as int) =~= vs.subrange(0, idx as int));
                assert(frame_started(top, self.removal_function));
            }
            match child {
                RTreeNode::Parent(c) => {
                    let ghost f1 = (node, idx, removed);
                    let ghost f2 = (c, 0usize, 0usize);
                    proof {
                        lemma_node_wf_parent(seq_view(c.children@), c.envelope);
                        lemma_seq_view(c.children@);
                        assert(seq_view(c.children@).subrange(0, c.children@.len() as int)
                            =~= seq_view(c.children@));
                        assert(seq_view(c.children@).subrange(0, 0) =~= Seq::<TreeView<T>>::empty());
                        assert(frame_rest(f1) == vs.subrange(idx + 1, vs.len() as int));
                    }
                    self.node_stack.push((node, idx, removed));
                    self.node_stack.push((c, 0, 0));
                    proof {
                        lemma_stack_push(base, f1);
                        lemma_stack_push(base.push(f1), f2);
                        lemma_stack_pending_push(base, f1, self.removal_function);
                        lemma_stack_pending_push(base.push(f1), f2, self.removal_function);
                        assert(seq_view(c.children@).subrange(0, c.children@.len() as int)
                            =~= seq_view(c.children@));
                        assert(frame_pending(f2, self.removal_function) == selected(
                            vs[idx as int],
                            self.removal_function,
                        ));
                        assert(frame_started(f1, self.removal_function));
                        assert(frame_pending(f1, self.removal_function) == seq_selected(
                            vs.subrange(idx + 1, vs.len() as int),
                            self.removal_function,
                        ));
                        assert(self.yielded@ + stack_pending(self.node_stack@, self.removal_function)
                            =~= self.yielded@ + stack_pending(fs, self.removal_function));
                        assert(self.node_stack@ =~= base.push(f1).push(f2));
                        assert(frame_ok(f1, self.removal_function));
                        assert(frame_ok(f2, self.removal_function));
                        assert forall|k: int| 0 <= k < self.node_stack@.len() - 1 implies #[trigger] frame_started(
                            self.node_stack@[k],
                            self.removal_function,
                        ) by {
                            if k < base.len() {
                                assert(self.node_stack@[k] == fs[k]);
                            }
                        }
                        assert forall|k: int| 0 <= k < self.node_stack@.len() implies #[trigger] frame_ok(self.node_stack@[k], self.removal_function) by {
                            if k < base.len() {
                                assert(self.node_stack@[k] == fs[k]);
                            }
                        }
                        let pre = seq_elems(vs.subrange(0, idx as int));
                        let post = seq_elems(vs.subrange(idx + 1, vs.len() as int));
                        assert(stack_elems(self.node_stack@) == stack_elems(base) + (pre + post)
                            + seq_elems(seq_view(c.children@)));
                        assert(stack_elems(fs) == stack_elems(base) + (pre + seq_elems(
                            seq_view(c.children@),
                        ) + post));
                        lemma_ms_move(stack_elems(base), pre, seq_elems(seq_view(c.children@)), post, self.yielded@);
                    }
                },
                RTreeNode::Leaf(t) => {
                    proof {
                        let pre = seq_elems(vs.subrange(0, idx as int));
                        let post = seq_elems(vs.subrange(idx + 1, vs.len() as int));
                        assert(stack_elems(fs) == stack_elems(base) + (pre + seq![t]
                            + post));
                        assert(stack_elems(fs).len() >= 1);
                    }
                    let new_removed = removed + 1;
                    self.node_stack.push((node, idx, new_removed));
                    let ghost f1 = (node, idx, new_removed);
                    proof {
                        lemma_stack_push(base, f1);
                        assert(frame_ok(f1, self.removal_function));
                        assert forall|k: int| 0 <= k < self.node_stack@.len() - 1 implies #[trigger] frame_started(
                            self.node_stack@[k],
                            self.removal_function,
                        ) by {
                            assert(self.node_stack@[k] == fs[k]);
                        }
                        assert forall|k: int| 0 <= k < self.node_stack@.len() implies #[trigger] frame_ok(self.node_stack@[k], self.removal_function) by {
                            if k < base.len() {
                                assert(self.node_stack@[k] == fs[k]);
                            }
                        }
                        let pre = seq_elems(vs.subrange(0, idx as int));
                        let post = seq_elems(vs.subrange(idx + 1, vs.len() as int));
                        let y2 = self.yielded@.push(t);
                        self.yielded@.to_multiset_ensures();
                        assert(stack_elems(self.node_stack@) == stack_elems(base) + (pre
                            + post));
                        lemma_ms_yield(stack_elems(base), pre, t, post, self.yielded@);
                        assert forall|k: int| 0 <= k < y2.len() implies self.removal_function.spec_unpack_leaf(
                            #[trigger] y2[k],
                        ) by {
                            if k < self.yielded@.len() {
                                assert(y2[k] == self.yielded@[k]);
                            }
                        }
                    }
                    proof {
                        lemma_stack_pending_push(base, f1, self.removal_function);
                        assert(frame_started(f1, self.removal_function));
                        assert(frame_pending(f1, self.removal_function) == seq_selected(
                            vs.subrange(idx + 1, vs.len() as int),
                            self.removal_function,
                        ));
                        assert(selected(vs[idx as int], self.removal_function) =~= seq![t]);
                        assert(self.yielded@.push(t) + stack_pending(self.node_stack@, self.removal_function)
                            =~= self.yielded@ + stack_pending(fs, self.removal_function));
                    }
                    self.yielded = Ghost(self.yielded@.push(t));
                    proof {
                        self.lemma_yielded_prefix();
                    }
                    return Some(t);
                },
            }
        }
    }

    /// Closes the top frame: recomputes its box and, where a frame lies below
    /// it, puts the node back there unless it has no children left, adding its
    /// removal count to that frame's. With `increment_idx` the node goes into
    /// the scan position of the frame below, which then moves past it; without,
    /// it goes last. Closing the only frame hands back the root and the number
    /// of values removed in all.
    fn pop_node(&mut self, increment_idx: bool) -> (r: Option<(ParentNode<T>, usize)>)
        requires
            old(self).inv(),
            increment_idx ==> frame_done(
                old(self).node_stack@[old(self).node_stack@.len() - 1],
                old(self).removal_function,
            ),
        ensures
            final(self).original@ == old(self).original@,
            final(self).original_tree@ == old(self).original_tree@,
            final(self).yielded@ == old(self).yielded@,
            final(self).removal_function == old(self).removal_function,
            final(self).original_size == old(self).original_size,
            final(self).exhausted == old(self).exhausted,
            old(self).node_stack@.len() == 1 ==> match r {
                Some((root, removed)) => {
                    &&& root_wf(parent_view(root))
                    &&& (elems(parent_view(root)) + old(self).yielded@).to_multiset()
                        == old(self).original@.to_multiset()
                    &&& elems(parent_view(root)).len() + old(self).yielded@.len()
                        == old(self).original@.len()
                    &&& removed == old(self).yielded@.len()
                    &&& final(self).node_stack@.len() == 0
                    &&& root.children == old(self).node_stack@[0].0.children
                    &&& root.envelope == seq_envelope(seq_view(root.children@))
                    &&& removed == old(self).node_stack@[0].2
                    &&& frame_done(old(self).node_stack@[0], old(self).removal_function) ==> selected(
                        parent_view(root),
                        old(self).removal_function,
                    ).len() == 0
                },
                None => false,
            },
            old(self).node_stack@.len() > 1 ==> {
                &&& r.is_none()
                &&& final(self).inv()
                &&& final(self).node_stack@.len() == old(self).node_stack@.len() - 1
                &&& increment_idx ==> stack_work(final(self).node_stack@) < stack_work(
                    old(self).node_stack@,
                )
                &&& closed_frame(
                    old(self).node_stack@,
                    final(self).node_stack@,
                    increment_idx,
                )
            },
    {
        broadcast use vstd::seq_lib::lemma_multiset_commutative;

        let ghost fs = self.node_stack@;
        let ghost base = fs.subrange(0, fs.len() - 1);
        let ghost top = fs[fs.len() - 1];
        proof {
            assert(frame_ok(top, self.removal_function));
            assert(fs =~= base.push(top));
            lemma_stack_push(base, top);
            lemma_seq_view(top.0.children@);
        }
        let (mut node, idx, removed) = match self.node_stack.pop() {
            Some(f) => f,
            None => {
                return None;
            },
        };
        // The union is recomputed on every close, whether or not anything was
        // removed below.
        node.envelope = envelope_for_children(&node.children);
        let ghost nv = parent_view(node);
        let ghost nn = node;
        proof {
            assert(seq_elems(seq_view(node.children@)) == elems(nv));
        }
        proof {
            if frame_done(top, self.removal_function) {
                lemma_done_selected(top, self.removal_function);
            }
        }
        if self.node_stack.len() == 0 {
            proof {
                assert(base =~= Seq::<Frame<T>>::empty());
                assert(stack_elems(base) =~= Seq::<T>::empty());
                assert(stack_elems(fs) =~= elems(nv));
            }
            return Some((node, removed));
        }
        let ghost base2 = base.subrange(0, base.len() - 1);
        let ghost parent = base[base.len() - 1];
        proof {
            assert(base =~= base2.push(parent));
            lemma_stack_push(base2, parent);
            assert(frame_ok(parent, self.removal_function));
            assert(frame_started(parent, self.removal_function));
            lemma_seq_view(parent.0.children@);
            assert(stack_removed(fs) == stack_removed(base2) + parent.2 + removed);
        }
        let (mut pnode, pidx, premoved) = match self.node_stack.pop() {
            Some(f) => f,
            None => {
                return None;
            },
        };
        let ghost pvs = seq_view(pnode.children@);
        let ghost pcs = pnode.children@;
        let new_removed = premoved + removed;
        if node.children.len() == 0 {
            let ghost f1 = (pnode, pidx, new_removed);
            self.node_stack.push((pnode, pidx, new_removed));
            proof {
                lemma_stack_push(base2, f1);
                assert forall|k: int| 0 <= k < self.node_stack@.len() - 1 implies #[trigger] frame_started(
                    self.node_stack@[k],
                    self.removal_function,
                ) by {
                    assert(self.node_stack@[k] == fs[k]);
                }
                assert(frame_ok(f1, self.removal_function));
                assert forall|k: int| 0 <= k < self.node_stack@.len() implies #[trigger] frame_ok(self.node_stack@[k], self.removal_function) by {
                    if k < base2.len() {
                        assert(self.node_stack@[k] == fs[k]);
                    }
                }
                assert(seq_view(node.children@) =~= Seq::<TreeView<T>>::empty());
                assert(elems(nv) =~= Seq::<T>::empty());
                assert(stack_elems(self.node_stack@) =~= stack_elems(fs));
            }
            proof {
                assert(nn == closed_node(top));
                assert(self.node_stack@.subrange(0, fs.len() - 2) =~= fs.subrange(0, fs.len() - 2));
                assert(self.node_stack@[fs.len() - 2] == f1);
                assert(closed_frame(fs, self.node_stack@, increment_idx));
            }
            return None;
        }
        proof {
            lemma_node_wf_parent(seq_view(node.children@), node.envelope);
        }
        if increment_idx {
            proof {
                lemma_insert_at(pvs, pidx as int, nv);
            }
            pnode.children.insert(pidx, RTreeNode::Parent(node));
            let plen = pnode.children.len();
            let new_idx = pidx + 1;
            let ghost f1 = (pnode, new_idx, new_removed);
            proof {
                lemma_seq_view(pnode.children@);
                lemma_seq_view_eq(pnode.children@, pvs.insert(pidx as int, nv));
                assert(frame_rest(f1) =~= frame_rest(parent));
                let ins = pvs.insert(pidx as int, nv);
                lemma_seq_prefix_step(ins, pidx as int, self.removal_function);
                assert(ins.subrange(0, pidx as int) =~= pvs.subrange(0, pidx as int));
                assert(ins[pidx as int] == nv);
                assert forall|k: int| 0 <= k < seq_view(pnode.children@).len() implies #[trigger] crate::node::node_wf(
                    seq_view(pnode.children@)[k],
                ) by {
                    if k < pidx {
                        assert(seq_view(pnode.children@)[k] == pvs[k]);
                    } else if k > pidx {
                        assert(seq_view(pnode.children@)[k] == pvs[k - 1]);
                    }
                }
            }
            self.node_stack.push((pnode, new_idx, new_removed));
            proof {
                lemma_stack_push(base2, f1);
                assert forall|k: int| 0 <= k < self.node_stack@.len() - 1 implies #[trigger] frame_started(
                    self.node_stack@[k],
                    self.removal_function,
                ) by {
                    assert(self.node_stack@[k] == fs[k]);
                }
                assert(frame_ok(f1, self.removal_function));
                assert forall|k: int| 0 <= k < self.node_stack@.len() implies #[trigger] frame_ok(self.node_stack@[k], self.removal_function) by {
                    if k < base2.len() {
                        assert(self.node_stack@[k] == fs[k]);
                    }
                }
                let pre = seq_elems(pvs.subrange(0, pidx as int));
                let post = seq_elems(pvs.subrange(pidx as int, pvs.len() as int));
                assert(stack_elems(self.node_stack@) == stack_elems(base2) + (pre + elems(nv)
                    + post));
                assert(stack_elems(fs) == stack_elems(base2) + (pre + post) + elems(nv));
                lemma_ms_move(stack_elems(base2), pre, elems(nv), post, self.yielded@);
                assert(stack_elems(base2) + (pre + post) + elems(nv) + self.yielded@
                    =~= stack_elems(fs) + self.yielded@);
            }
            proof {
                assert(nn == closed_node(top));
                assert(self.node_stack@.subrange(0, fs.len() - 2) =~= fs.subrange(0, fs.len() - 2));
                assert(self.node_stack@[fs.len() - 2] == f1);
                assert(closed_frame(fs, self.node_stack@, increment_idx));
            }
        } else {
            pnode.children.push(RTreeNode::Parent(node));
            let ghost f1 = (pnode, pidx, new_removed);
            proof {
                crate::node::lemma_seq_view_push(pcs, RTreeNode::Parent(node));
                crate::node::lemma_elems_push(pvs, nv);
                lemma_seq_view(pnode.children@);
                assert(pvs.push(nv).subrange(0, pidx as int) =~= pvs.subrange(0, pidx as int));
                assert forall|k: int| 0 <= k < seq_view(pnode.children@).len() implies #[trigger] crate::node::node_wf(
                    seq_view(pnode.children@)[k],
                ) by {
                    if k < pcs.len() {
                        assert(seq_view(pnode.children@)[k] == pvs[k]);
                    }
                }
                assert(frame_ok(f1, self.removal_function));
            }
            self.node_stack.push((pnode, pidx, new_removed));
            proof {
                lemma_stack_push(base2, f1);
                assert forall|k: int| 0 <= k < self.node_stack@.len() - 1 implies #[trigger] frame_started(
                    self.node_stack@[k],
                    self.removal_function,
                ) by {
                    assert(self.node_stack@[k] == fs[k]);
                }
                assert forall|k: int| 0 <= k < self.node_stack@.len() implies #[trigger] frame_ok(self.node_stack@[k], self.removal_function) by {
                    if k < base2.len() {
                        assert(self.node_stack@[k] == fs[k]);
                    }
                }
                assert(stack_elems(self.node_stack@) =~= stack_elems(fs));
            }
            proof {
                assert(nn == closed_node(top));
                assert(self.node_stack@.subrange(0, fs.len() - 2) =~= fs.subrange(0, fs.len() - 2));
                assert(self.node_stack@[fs.len() - 2] == f1);
                assert(closed_frame(fs, self.node_stack@, increment_idx));
            }
        }
        None
    }

    /// Puts the tree together again, however far the traversal went: every
    /// frame left is closed by `pop_node`, and the last one becomes the root
    /// of `rtree`, whose count drops by the number of values handed out.
    /// `rtree` must be the emptied tree the traversal was started on. A
    /// traversal that never looked inside the root gives the tree back as it
    /// was.
    pub fn finish(self, rtree: &mut RTree<T>)
        requires
            self.inv(),
            old(rtree).spec_elems().len() == 0,
        ensures
            final(rtree).wf(),
            (final(rtree).spec_elems() + self.yielded()).to_multiset()
                == self.original().to_multiset(),
            final(rtree).spec_elems().len() == self.original().len() - self.yielded().len(),
            self.is_exhausted() ==> selected(final(rtree)@, self.selection()).len() == 0,
            self.frames().len() == 1 && parent_view(self.frames()[0].0) == self.original_tree()
                ==> final(rtree)@ == self.original_tree(),
    {
        let ghost start = self;
        let mut this = self;
        loop
            invariant
                this.inv(),
                this.original@ == start.original@,
                this.yielded@ == start.yielded@,
                this.original_size == start.original_size,
                start.yielded@ == self.yielded(),
                start.original@ == self.original(),
                start.removal_function == self.selection(),
                start.exhausted == self.is_exhausted(),
                start.original_tree@ == self.original_tree(),
                start.node_stack@ == self.frames(),
                this.original_tree@ == start.original_tree@,
                this.node_stack@.len() < start.node_stack@.len() || this.node_stack@ == start.node_stack@,
                this.removal_function == start.removal_function,
                this.exhausted == start.exhausted,
            decreases this.node_stack@.len(),
        {
            let single = this.node_stack.len() == 1;
            match this.pop_node(false) {
                Some((root, removed)) => {
                    proof {
                        if start.node_stack@.len() == 1 && parent_view(start.node_stack@[0].0)
                            == start.original_tree@ {
                            lemma_seq_view(root.children@);
                            assert(parent_view(root) == start.original_tree@);
                        }
                    }
                    let size = this.original_size - removed;
                    rtree.set_root(root, size);
                    proof {
                        assert(final(rtree).spec_elems() == elems(parent_view(root)));
                    }
                    return ;
                },
                None => {
                    if single {
                        return ;
                    }
                },
            }
        }
    }
}

/// Drains at most `limit` of the values that `removal_function` selects from
/// `rtree`, then puts the tree back together: the count drops by exactly the
/// number handed out, those values are gone and all others are still there.
/// Where fewer than `limit` come out, the selection finds nothing any more.
pub fn drain_take<T: RTreeObject, R: SelectionFunction<T>>(
    rtree: &mut RTree<T>,
    removal_function: R,
    limit: usize,
) -> (r: Vec<T>)
    requires
        old(rtree).wf(),
    ensures
        final(rtree).wf(),
        r@.len() <= limit,
        forall|k: int| 0 <= k < r@.len() ==> removal_function.spec_unpack_leaf(#[trigger] r@[k]),
        (final(rtree).spec_elems() + r@).to_multiset() == old(rtree).spec_elems().to_multiset(),
        final(rtree).spec_elems().len() == old(rtree).spec_elems().len() - r@.len(),
        r@.len() < limit ==> selected(final(rtree)@, removal_function).len() == 0,
        r@ == selected(old(rtree)@, removal_function).take(r@.len() as int),
        r@.len() < limit ==> r@ == selected(old(rtree)@, removal_function),
{
    let ghost sel = removal_function;
    let mut it = DrainIterator::new(rtree, removal_function);
    let mut out: Vec<T> = Vec::new();
    let mut more = true;
    while more && out.len() < limit
        invariant
            it.inv(),
            it.on_track(),
            it.original_tree() == old(rtree)@,
            it.yielded() == out@,
            it.original() == old(rtree).spec_elems(),
            it.selection() == sel,
            out@.len() <= limit,
            forall|k: int| 0 <= k < out@.len() ==> sel.spec_unpack_leaf(#[trigger] out@[k]),
            !more ==> it.is_exhausted(),
        decreases limit - out@.len() + (if more {
            1int
        } else {
            0int
        }),
    {
        match it.next() {
            Some(t) => {
                let ghost before = out@;
                out.push(t);
                proof {
                    assert forall|k: int| 0 <= k < out@.len() implies sel.spec_unpack_leaf(
                        #[trigger] out@[k],
                    ) by {
                        if k < before.len() {
                            assert(out@[k] == before[k]);
                        }
                    }
                }
            },
            None => {
                more = false;
            },
        }
    }
    proof {
        it.lemma_yielded_prefix();
    }
    it.finish(rtree);
    out
}

} // verus!
