//! A uniform view over the collections that hold a node's children: a
//! growable `Vec`, or a fixed pair for binary splits.

use vstd::prelude::*;

verus! {

/// An abstraction of a container of elements of type `N`, indexed from 0.
///
/// Traversals hand each element to a function that cannot keep state
/// between calls, so what a traversal does is given back as its result,
/// position for position.
pub trait Container<N>: Sized {
    /// The elements, in index order.
    spec fn items(&self) -> Seq<N>;

    /// Optional access: the element at `idx`, or `None` past the end.
    fn get(&self, idx: usize) -> (r: Option<&N>)
        ensures
            match r {
                Some(x) => idx < self.items().len() && *x == self.items()[idx as int],
                None => idx >= self.items().len(),
            },
    ;

    /// Access an element immutably; the index must be in bounds.
    fn index(&self, idx: usize) -> (r: &N)
        requires
            idx < self.items().len(),
        ensures
            *r == self.items()[idx as int],
    ;

    /// Access an element mutably; the index must be in bounds. What is
    /// written through the reference lands at `idx` and nowhere else.
    fn index_mut(&mut self, idx: usize) -> (r: &mut N)
        requires
            idx < old(self).items().len(),
        ensures
            *r == old(self).items()[idx as int],
            final(self).items() == old(self).items().update(idx as int, *final(r)),
    ;

    /// Calls `f` on each element in index order; result `i` is what `f`
    /// returned for element `i`.
    fn for_each<R, F: Fn(&N) -> R>(&self, f: F) -> (r: Vec<R>)
        requires
            forall|i: int| 0 <= i < self.items().len() ==> f.requires((&#[trigger] self.items()[i],)),
        ensures
            r.len() == self.items().len(),
            forall|i: int|
                0 <= i < self.items().len() ==> f.ensures((&#[trigger] self.items()[i],), r[i]),
    ;

    /// Replaces each element, in index order, by what `f` returns for it.
    fn for_each_mut<F: Fn(&N) -> N>(&mut self, f: F)
        requires
            forall|i: int|
                0 <= i < old(self).items().len() ==> f.requires((&#[trigger] old(self).items()[i],)),
        ensures
            final(self).items().len() == old(self).items().len(),
            forall|i: int|
                0 <= i < old(self).items().len() ==> f.ensures(
                    (&#[trigger] old(self).items()[i],),
                    final(self).items()[i],
                ),
    ;
}

impl<N> Container<N> for Vec<N> {
    open spec fn items(&self) -> Seq<N> {
        self@
    }

    fn get(&self, idx: usize) -> (r: Option<&N>) {
        if idx < self.len() {
            Some(&self[idx])
        } else {
            None
        }
    }

    fn index(&self, idx: usize) -> (r: &N) {
        &self[idx]
    }

    fn index_mut(&mut self, idx: usize) -> (r: &mut N) {
        &mut self[idx]
    }

    fn for_each<R, F: Fn(&N) -> R>(&self, f: F) -> (r: Vec<R>) {
        let mut r: Vec<R> = Vec::new();
        let mut i: usize = 0;
        while i < self.len()
            invariant
                i <= self.len(),
                r.len() == i,
                forall|i: int| 0 <= i < self.items().len() ==> f.requires((&#[trigger] self.items()[i],)),
                forall|k: int| 0 <= k < i ==> f.ensures((&#[trigger] self@[k],), r[k]),
            decreases self.len() - i,
        {
            assert(f.requires((&self.items()[i as int],)));
            let x = f(&self[i]);
            r.push(x);
            i = i + 1;
        }
        r
    }

    fn for_each_mut<F: Fn(&N) -> N>(&mut self, f: F) {
        let ghost before = self@;
        assert forall|i: int| 0 <= i < before.len() implies f.requires((&#[trigger] before[i],)) by {
            assert(f.requires((&old(self).items()[i],)));
        }
        let mut i: usize = 0;
        while i < self.len()
            invariant
                i <= self.len(),
                self.len() == before.len(),
                forall|i: int| 0 <= i < before.len() ==> f.requires((&#[trigger] before[i],)),
                forall|k: int| 0 <= k < i ==> f.ensures((&#[trigger] before[k],), self@[k]),
                forall|k: int| i <= k < before.len() ==> #[trigger] self@[k] == before[k],
            decreases self.len() - i,
        {
            let x = f(&self[i]);
            self[i] = x;
            i = i + 1;
        }
    }
}

impl<N> Container<N> for [N; 2] {
    open spec fn items(&self) -> Seq<N> {
        self@
    }

    fn get(&self, idx: usize) -> (r: Option<&N>) {
        if idx < 2 {
            Some(&self[idx])
        } else {
            None
        }
    }

    fn index(&self, idx: usize) -> (r: &N) {
        &self[idx]
    }

    fn index_mut(&mut self, idx: usize) -> (r: &mut N) {
        &mut self[idx]
    }

    fn for_each<R, F: Fn(&N) -> R>(&self, f: F) -> (r: Vec<R>) {
        assert(f.requires((&self.items()[0],)));
        assert(f.requires((&self.items()[1],)));
        let mut r: Vec<R> = Vec::new();
        r.push(f(&self[0]));
        r.push(f(&self[1]));
        assert(f.ensures((&self.items()[0],), r[0]));
        r
    }

    fn for_each_mut<F: Fn(&N) -> N>(&mut self, f: F) {
        assert(f.requires((&old(self).items()[0],)));
        assert(f.requires((&old(self).items()[1],)));
        let a = f(&self[0]);
        self[0] = a;
        let b = f(&self[1]);
        self[1] = b;
    }
}

} // verus!
