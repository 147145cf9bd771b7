//! A tree of partitions with no payload: the geometry skeleton that
//! repeated subdivision builds.

use vstd::prelude::*;
use crate::partition::Subdivide;

verus! {

/// A node: a region and its children (none for a leaf). Each node owns its
/// children.
pub struct PureTree<P> {
    /// The region of this node.
    pub partition: P,
    /// The child nodes, in the order the region was split.
    pub children: Vec<PureTree<P>>,
}

/// `b` is what growing a leaf of region `p` gives, at most `depth` levels
/// deep: the leaf is split when levels remain, its region can be split and
/// `pred` asks for it; each new child is grown in turn with one level less.
pub open spec fn grown_leaf<P: Subdivide, F: Fn(&P) -> bool>(
    p: P,
    b: PureTree<P>,
    depth: nat,
    pred: F,
) -> bool
    decreases depth,
{
    &&& b.partition == p
    &&& {
        ||| b.children.len() == 0 && (depth == 0 || !p.can_subdivide() || pred.ensures((&p,), false))
        ||| {
        &&& depth > 0
        &&& p.can_subdivide()
        &&& pred.ensures((&p,), true)
        &&& b.children.len() == p.subdivide_spec().len()
        &&& forall|i: int|
            0 <= i < b.children.len() ==> grown_leaf(
                p.subdivide_spec()[i],
                #[trigger] b.children@[i],
                (depth - 1) as nat,
                pred,
            )
        }
    }
}

/// `b` is what growing the tree `a` gives, at most `depth` levels below its
/// root: leaves are grown as `grown_leaf` says, and the children of an inner
/// node are grown with one level less.
pub open spec fn grown<P: Subdivide, F: Fn(&P) -> bool>(
    a: PureTree<P>,
    b: PureTree<P>,
    depth: nat,
    pred: F,
) -> bool
    decreases depth,
{
    if a.children.len() == 0 {
        grown_leaf(a.partition, b, depth, pred)
    } else if depth == 0 {
        b == a
    } else {
        &&& b.partition == a.partition
        &&& b.children.len() == a.children.len()
        &&& forall|i: int|
            0 <= i < a.children.len() ==> grown(
                a.children@[i],
                #[trigger] b.children@[i],
                (depth - 1) as nat,
                pred,
            )
    }
}

impl<P> PureTree<P> {
    /// The regions of this tree in depth-first pre-order: a node before its
    /// children, children in order.
    pub open spec fn preorder(self) -> Seq<P>
        decreases self,
    {
        seq![self.partition] + preorder_of(self.children@)
    }
}

/// The pre-order regions of each tree of `ts`, one after the other.
pub open spec fn preorder_of<P>(ts: Seq<PureTree<P>>) -> Seq<P>
    decreases ts,
{
    if ts.len() == 0 {
        Seq::empty()
    } else {
        preorder_of(ts.subrange(0, ts.len() - 1)) + ts[ts.len() - 1].preorder()
    }
}

impl<P: Copy> PureTree<P> {
    fn collect_into(&self, out: &mut Vec<P>)
        ensures
            final(out)@ == old(out)@ + self.preorder(),
        decreases self,
    {
        out.push(self.partition);
        let ghost start = out@;
        let mut i: usize = 0;
        while i < self.children.len()
            invariant
                i <= self.children.len(),
                start == old(out)@ + seq![self.partition],
                out@ == start + preorder_of(self.children@.subrange(0, i as int)),
            decreases self.children.len() - i,
        {
            let ghost before = out@;
            self.children[i].collect_into(out);
            proof {
                let s = self.children@.subrange(0, i + 1);
                assert(s.subrange(0, i as int) =~= self.children@.subrange(0, i as int));
                assert(s[i as int] == self.children@[i as int]);
            }
            i = i + 1;
        }
        assert(self.children@.subrange(0, i as int) =~= self.children@);
    }

    /// The regions of all nodes, in depth-first pre-order.
    pub fn partitions(&self) -> (r: Vec<P>)
        ensures
            r@ == self.preorder(),
    {
        let mut out: Vec<P> = Vec::new();
        self.collect_into(&mut out);
        assert(out@ =~= self.preorder());
        out
    }
}

impl<P: Subdivide> PureTree<P> {
    /// Makes a single leaf holding `partition`.
    pub fn new(partition: P) -> (r: PureTree<P>)
        ensures
            r.partition == partition,
            r.children.len() == 0,
    {
        PureTree { partition, children: Vec::new() }
    }

    fn grow_leaf<F: Fn(&P) -> bool>(&mut self, depth: usize, pred: F) -> (r: F)
        requires
            old(self).children.len() == 0,
            forall|p: P| pred.requires((&p,)),
        ensures
            r == pred,
            grown_leaf(old(self).partition, *final(self), depth as nat, pred),
        decreases depth,
    {
        if depth == 0 || !self.partition.can_split() {
            return pred;
        }
        if !pred(&self.partition) {
            return pred;
        }
        let ghost partition = self.partition;
        let mut parts = self.partition.subdivide();
        let ghost spec_parts = parts@;
        let mut children: Vec<PureTree<P>> = Vec::new();
        let mut pred = pred;
        let ghost pred0 = pred;
        while parts.len() > 0
            invariant
                children.len() + parts.len() == spec_parts.len(),
                spec_parts == partition.subdivide_spec(),
                parts@ == spec_parts.skip(children.len() as int),
                pred == pred0,
                depth > 0,
                forall|p: P| pred.requires((&p,)),
                forall|i: int|
                    0 <= i < children.len() ==> grown_leaf(
                        spec_parts[i],
                        #[trigger] children@[i],
                        (depth - 1) as nat,
                        pred0,
                    ),
            decreases parts.len(),
        {
            let part = parts.remove(0);
            let mut child = PureTree::new(part);
            let f = child.grow_leaf(depth - 1, pred);
            pred = f;
            children.push(child);
            assert(parts@ =~= spec_parts.skip(children.len() as int));
        }
        self.children = children;
        pred
    }

    fn grow<F: Fn(&P) -> bool>(&mut self, depth: usize, pred: F) -> (r: F)
        requires
            forall|p: P| pred.requires((&p,)),
        ensures
            r == pred,
            grown(*old(self), *final(self), depth as nat, pred),
        decreases depth,
    {
        if self.children.len() == 0 {
            return self.grow_leaf(depth, pred);
        }
        if depth == 0 {
            return pred;
        }
        let ghost before = *self;
        let ghost pred0 = pred;
        let mut pred = pred;
        let mut i: usize = 0;
        while i < self.children.len()
            invariant
                i <= self.children.len() == before.children.len(),
                self.partition == before.partition,
                depth > 0,
                pred == pred0,
                forall|p: P| pred.requires((&p,)),
                forall|k: int| 0 <= k < i ==> grown(
                    before.children@[k],
                    #[trigger] self.children@[k],
                    (depth - 1) as nat,
                    pred0,
                ),
                forall|k: int| i <= k < self.children.len() ==> #[trigger] self.children@[k] == before.children@[k],
            decreases self.children.len() - i,
        {
            let mut child = self.children.remove(i);
            let f = child.grow(depth - 1, pred);
            pred = f;
            self.children.insert(i, child);
            i = i + 1;
        }
        pred
    }

    /// Splits, recursively, every leaf whose region `pred` asks to split and
    /// that can be split, down to at most `depth` levels below this node;
    /// the new leaves are grown in turn.
    pub fn subdivide_to<F: Fn(&P) -> bool>(&mut self, depth: usize, pred: F)
        requires
            forall|p: P| pred.requires((&p,)),
        ensures
            grown(*old(self), *final(self), depth as nat, pred),
    {
        self.grow(depth, pred);
    }
}

} // verus!
