//! A tree of partitions that carry a payload each, for spatial insertion
//! and lookup.

use vstd::prelude::*;
use crate::partition::{Partition, Subdivide};

verus! {

/// The element given to an insertion lies outside the region the tree covers.
#[derive(Clone, Copy, Debug, PartialEq, Eq, Hash, Structural)]
pub struct OutsideDomain;

/// A node: a region, its payload, and its children (none for a leaf). Each
/// node owns its children.
pub struct Tree<P, T> {
    /// The region of this node.
    pub partition: P,
    /// The payload of this node.
    pub payload: T,
    /// The child nodes, in the order the region was split.
    pub children: Vec<Tree<P, T>>,
}

/// Index `i` is the first position of `children` whose region holds `e`.
pub open spec fn is_first_holding<E, P: Partition<E>, T>(
    children: Seq<Tree<P, T>>,
    e: E,
    i: int,
) -> bool {
    &&& 0 <= i < children.len()
    &&& children[i].partition.contains_spec(e)
    &&& forall|k: int| 0 <= k < i ==> !(#[trigger] children[k]).partition.contains_spec(e)
}

/// The first position of `children` whose region holds `e`, if any.
pub open spec fn first_holding<E, P: Partition<E>, T>(children: Seq<Tree<P, T>>, e: E) -> Option<
    int,
> {
    if exists|i: int| is_first_holding(children, e, i) {
        Some(choose|i: int| is_first_holding(children, e, i))
    } else {
        None
    }
}

proof fn lemma_first_unique<E, P: Partition<E>, T>(children: Seq<Tree<P, T>>, e: E, i: int)
    requires
        is_first_holding(children, e, i),
    ensures
        first_holding(children, e) == Some(i),
{
    let j = choose|j: int| is_first_holding(children, e, j);
    if j < i {
        assert(!children[j].partition.contains_spec(e));
    } else if i < j {
        assert(!children[i].partition.contains_spec(e));
    }
}

/// `b` is `a` with at most the payload at the end of `path` changed: every
/// region, every other payload and the shape are the same.
pub open spec fn same_but_payload_at<P, T>(a: Tree<P, T>, b: Tree<P, T>, path: Seq<int>) -> bool
    decreases path.len(),
{
    &&& a.partition == b.partition
    &&& a.children.len() == b.children.len()
    &&& if path.len() == 0 {
        a.children@ == b.children@
    } else {
        &&& a.payload == b.payload
        &&& 0 <= path[0] < a.children.len()
        &&& forall|k: int|
            0 <= k < a.children.len() && k != path[0] ==> #[trigger] a.children@[k]
                == b.children@[k]
        &&& same_but_payload_at(a.children@[path[0]], b.children@[path[0]], path.drop_first())
    }
}

impl<P, T> Tree<P, T> {
    /// The path of child positions that a descent for `e` takes from this node
    /// to a leaf, entering at each node the first child that holds `e`; `None`
    /// when some node on the way has children and none of them holds `e`.
    pub open spec fn route<E>(self, e: E) -> Option<Seq<int>> where P: Partition<E>
        decreases self,
    {
        if self.children.len() == 0 {
            Some(Seq::empty())
        } else {
            match first_holding(self.children@, e) {
                Some(i) => if 0 <= i < self.children.len() {
                    match self.children@[i].route(e) {
                        Some(p) => Some(seq![i] + p),
                        None => None,
                    }
                } else {
                    None
                },
                None => None,
            }
        }
    }

    /// Where `e` belongs in the tree: the route to its leaf, when this node's
    /// region holds `e` and the descent reaches a leaf.
    pub open spec fn locate<E>(self, e: E) -> Option<Seq<int>> where P: Partition<E> {
        if self.partition.contains_spec(e) {
            self.route(e)
        } else {
            None
        }
    }

    /// The payload of the node at the end of `path`.
    pub open spec fn payload_at(self, path: Seq<int>) -> T
        decreases path.len(),
    {
        if path.len() > 0 && 0 <= path[0] < self.children.len() {
            self.children@[path[0]].payload_at(path.drop_first())
        } else {
            self.payload
        }
    }

    /// Makes a single leaf holding `partition` and `payload`.
    pub fn new(partition: P, payload: T) -> (r: Tree<P, T>)
        ensures
            r.partition == partition,
            r.payload == payload,
            r.children.len() == 0,
    {
        Tree { partition, payload, children: Vec::new() }
    }
}

/// The position of the first of `children` whose region holds `elem`.
fn find_first<E, P: Partition<E>, T>(children: &Vec<Tree<P, T>>, elem: &E) -> (r: Option<usize>)
    ensures
        match r {
            Some(i) => first_holding(children@, *elem) == Some(i as int),
            None => first_holding(children@, *elem) is None,
        },
{
    let mut i: usize = 0;
    while i < children.len()
        invariant
            i <= children.len(),
            forall|k: int| 0 <= k < i ==> !(#[trigger] children@[k]).partition.contains_spec(*elem),
        decreases children.len() - i,
    {
        if children[i].partition.contains(elem) {
            proof {
                lemma_first_unique(children@, *elem, i as int);
            }
            return Some(i);
        }
        i = i + 1;
    }
    None
}

proof fn lemma_route_step<E, P: Partition<E>, T>(t: Tree<P, T>, e: E, i: int, p: Seq<int>)
    requires
        t.children.len() > 0,
        first_holding(t.children@, e) == Some(i),
        t.children@[i].route(e) == Some(p),
    ensures
        0 <= i < t.children.len(),
        t.route(e) == Some(seq![i] + p),
        (seq![i] + p).drop_first() == p,
        (seq![i] + p)[0] == i,
        t.payload_at(seq![i] + p) == t.children@[i].payload_at(p),
{
    let j = choose|j: int| is_first_holding(t.children@, e, j);
    assert(is_first_holding(t.children@, e, j));
    assert((seq![i] + p).drop_first() =~= p);
}

impl<P, T> Tree<P, T> {
    /// Descends from this node for `elem` and hands out the leaf payload.
    fn descend<E>(&self, elem: &E) -> (r: Option<&T>) where P: Partition<E>
        ensures
            match r {
                Some(t) => self.route(*elem) is Some && *t == self.payload_at(self.route(*elem)->0),
                None => self.route(*elem) is None,
            },
        decreases self,
    {
        if self.children.len() == 0 {
            return Some(&self.payload);
        }
        match find_first(&self.children, elem) {
            None => None,
            Some(i) => {
                proof {
                    let j = choose|j: int| is_first_holding(self.children@, *elem, j);
                    assert(is_first_holding(self.children@, *elem, j));
                }
                let r = self.children[i].descend(elem);
                proof {
                    if let Some(p) = self.children@[i as int].route(*elem) {
                        lemma_route_step(*self, *elem, i as int, p);
                    }
                }
                r
            },
        }
    }

    /// The payload of the leaf where `elem` belongs, found by descending from
    /// the root into the first child that holds it at each level; `None` when
    /// the root does not hold `elem` or the descent stops short of a leaf.
    pub fn query<E>(&self, elem: &E) -> (r: Option<&T>) where P: Partition<E>
        ensures
            match r {
                Some(t) => self.locate(*elem) is Some && *t == self.payload_at(
                    self.locate(*elem)->0,
                ),
                None => self.locate(*elem) is None,
            },
    {
        if !self.partition.contains(elem) {
            return None;
        }
        self.descend(elem)
    }

    /// Applies `update` to the payload of the leaf that the route for `elem`
    /// ends at; gives `update` back for further use.
    fn insert_at_leaf<E, F: Fn(&T) -> T>(&mut self, elem: &E, update: F) -> (r: F) where
        P: Partition<E>,
        requires
            old(self).route(*elem) is Some,
            forall|t: T| update.requires((&t,)),
        ensures
            r == update,
            same_but_payload_at(*old(self), *final(self), old(self).route(*elem)->0),
            update.ensures(
                (&old(self).payload_at(old(self).route(*elem)->0),),
                final(self).payload_at(old(self).route(*elem)->0),
            ),
        decreases *old(self),
    {
        if self.children.len() == 0 {
            let np = update(&self.payload);
            self.payload = np;
            return update;
        }
        let ghost before = *self;
        let i = match find_first(&self.children, elem) {
            Some(i) => i,
            None => {
                return update;
            },
        };
        let ghost p = before.children@[i as int].route(*elem)->0;
        proof {
            let j = choose|j: int| is_first_holding(before.children@, *elem, j);
            assert(is_first_holding(before.children@, *elem, j));
            lemma_route_step(before, *elem, i as int, p);
        }
        let mut child = self.children.remove(i);
        assert(child == before.children@[i as int]);
        let f = child.insert_at_leaf(elem, update);
        self.children.insert(i, child);
        proof {
            let path = seq![i as int] + p;
            assert(forall|k: int|
                0 <= k < before.children.len() && k != i ==> #[trigger] before.children@[k]
                    == self.children@[k]);
            assert(self.children@[i as int] == child);
            assert(same_but_payload_at(before, *self, path));
            assert(self.payload_at(path) == child.payload_at(p));
        }
        f
    }

    /// Inserts `elem`: descends from the root into the first child that
    /// holds it at each level and applies `update` to the payload of the leaf
    /// reached. Fails, leaving the tree unchanged, when the root does not hold
    /// `elem` or the descent stops short of a leaf.
    pub fn insert<E, F: Fn(&T) -> T>(&mut self, elem: &E, update: F) -> (r: Result<(), OutsideDomain>) where
        P: Partition<E>,
        requires
            forall|t: T| update.requires((&t,)),
        ensures
            r is Ok <==> old(self).locate(*elem) is Some,
            r is Err ==> *final(self) == *old(self),
            r is Ok ==> {
                let path = old(self).locate(*elem)->0;
                &&& same_but_payload_at(*old(self), *final(self), path)
                &&& update.ensures((&old(self).payload_at(path),), final(self).payload_at(path))
            },
    {
        if !self.partition.contains(elem) || !self.reaches_leaf(elem) {
            return Err(OutsideDomain);
        }
        self.insert_at_leaf(elem, update);
        Ok(())
    }

    /// Whether the descent for `elem` from this node reaches a leaf.
    fn reaches_leaf<E>(&self, elem: &E) -> (r: bool) where P: Partition<E>
        ensures
            r == self.route(*elem) is Some,
    {
        self.descend(elem).is_some()
    }

    /// Turns this leaf into an internal node: its region is split, and each
    /// new child, itself a leaf, gets the payload `redistribute` computes from
    /// this node's payload and the child's region. This node keeps its payload.
    pub fn subdivide_leaf<F: Fn(&T, &P) -> T>(&mut self, redistribute: F) where P: Subdivide
        requires
            old(self).children.len() == 0,
            old(self).partition.can_subdivide(),
            forall|t: T, p: P| redistribute.requires((&t, &p)),
        ensures
            final(self).partition == old(self).partition,
            final(self).payload == old(self).payload,
            final(self).children.len() == old(self).partition.subdivide_spec().len(),
            forall|i: int|
                0 <= i < final(self).children.len() ==> {
                    let c = #[trigger] final(self).children@[i];
                    &&& c.partition == old(self).partition.subdivide_spec()[i]
                    &&& c.children.len() == 0
                    &&& redistribute.ensures((&old(self).payload, &c.partition), c.payload)
                },
    {
        let mut parts = self.partition.subdivide();
        let ghost spec_parts = parts@;
        let mut children: Vec<Tree<P, T>> = Vec::new();
        while parts.len() > 0
            invariant
                children.len() + parts.len() == spec_parts.len(),
                parts@ == spec_parts.skip(children.len() as int),
                forall|t: T, p: P| redistribute.requires((&t, &p)),
                forall|i: int|
                    0 <= i < children.len() ==> {
                        let c = #[trigger] children@[i];
                        &&& c.partition == spec_parts[i]
                        &&& c.children.len() == 0
                        &&& redistribute.ensures((&self.payload, &c.partition), c.payload)
                    },
            decreases parts.len(),
        {
            let part = parts.remove(0);
            let payload = redistribute(&self.payload, &part);
            children.push(Tree { partition: part, payload, children: Vec::new() });
            assert(parts@ =~= spec_parts.skip(children.len() as int));
        }
        self.children = children;
    }
}

impl<P, T> Tree<P, T> {
    /// The payloads of the nodes whose region holds `e`, in depth-first
    /// pre-order.
    pub open spec fn holding_payloads<E>(self, e: E) -> Seq<T> where P: Partition<E>
        decreases self,
    {
        (if self.partition.contains_spec(e) {
            seq![self.payload]
        } else {
            Seq::empty()
        }) + holding_payloads_of(self.children@, e)
    }

    fn collect_holding<'a, E>(&'a self, elem: &E, out: &mut Vec<&'a T>) where P: Partition<E>
        ensures
            final(out)@.map_values(|x: &T| *x) == old(out)@.map_values(|x: &T| *x)
                + self.holding_payloads(*elem),
        decreases self,
    {
        let ghost start0 = out@.map_values(|x: &T| *x);
        if self.partition.contains(elem) {
            out.push(&self.payload);
        }
        let ghost start = out@.map_values(|x: &T| *x);
        assert(start =~= start0 + (if self.partition.contains_spec(*elem) {
            seq![self.payload]
        } else {
            Seq::empty()
        }));
        let mut i: usize = 0;
        while i < self.children.len()
            invariant
                i <= self.children.len(),
                out@.map_values(|x: &T| *x) == start + holding_payloads_of(
                    self.children@.subrange(0, i as int),
                    *elem,
                ),
            decreases self.children.len() - i,
        {
            let ghost before = out@.map_values(|x: &T| *x);
            self.children[i].collect_holding(elem, out);
            proof {
                let s = self.children@.subrange(0, i + 1);
                assert(s.subrange(0, i as int) =~= self.children@.subrange(0, i as int));
                assert(s[i as int] == self.children@[i as int]);
            }
            i = i + 1;
        }
        assert(self.children@.subrange(0, i as int) =~= self.children@);
    }

    /// The payloads of all nodes whose region holds `elem`, in depth-first
    /// pre-order: a node before its children, children in order.
    pub fn payloads_holding<E>(&self, elem: &E) -> (r: Vec<&T>) where P: Partition<E>
        ensures
            r@.map_values(|x: &T| *x) == self.holding_payloads(*elem),
    {
        let mut out: Vec<&T> = Vec::new();
        self.collect_holding(elem, &mut out);
        assert(out@.map_values(|x: &T| *x) =~= self.holding_payloads(*elem));
        out
    }
}

/// The payloads of the nodes of each tree of `ts` that hold `e`, tree after
/// tree, each in pre-order.
pub open spec fn holding_payloads_of<E, P: Partition<E>, T>(ts: Seq<Tree<P, T>>, e: E) -> Seq<T>
    decreases ts,
{
    if ts.len() == 0 {
        Seq::empty()
    } else {
        holding_payloads_of(ts.subrange(0, ts.len() - 1), e) + ts[ts.len() - 1].holding_payloads(e)
    }
}

/// After an insertion, a lookup of the same element goes down the same path:
/// when `b` differs from `a` at most in the payload where `e` belongs, `e`
/// belongs at the same place in `b`, so the lookup finds the payload that
/// the insertion wrote.
pub proof fn lemma_insert_then_query<E, P: Partition<E>, T>(a: Tree<P, T>, b: Tree<P, T>, e: E)
    requires
        a.locate(e) is Some,
        same_but_payload_at(a, b, a.locate(e)->0),
    ensures
        b.locate(e) == a.locate(e),
{
    lemma_route_kept(a, b, e, a.locate(e)->0);
}

proof fn lemma_route_kept<E, P: Partition<E>, T>(a: Tree<P, T>, b: Tree<P, T>, e: E, path: Seq<int>)
    requires
        a.route(e) == Some(path),
        same_but_payload_at(a, b, path),
    ensures
        b.route(e) == Some(path),
    decreases path.len(),
{
    if a.children.len() > 0 {
        let i = first_holding(a.children@, e)->0;
        let j = choose|j: int| is_first_holding(a.children@, e, j);
        assert(is_first_holding(a.children@, e, j));
        let p = a.children@[i].route(e)->0;
        assert(path =~= seq![i] + p);
        assert(path.drop_first() =~= p);
        assert(path[0] == i);
        assert(same_but_payload_at(a.children@[i], b.children@[i], p));
        assert(b.children@[i].partition == a.children@[i].partition);
        assert(is_first_holding(b.children@, e, i)) by {
            assert forall|k: int| 0 <= k < i implies !(#[trigger] b.children@[k]).partition.contains_spec(e) by {
                assert(b.children@[k] == a.children@[k]);
            }
        }
        lemma_first_unique(b.children@, e, i);
        lemma_route_kept(a.children@[i], b.children@[i], e, p);
    }
}

} // verus!
