//! Disjoint sets.

use vstd::prelude::*;

verus! {

/// A partition of `0..n`, as one label per element.
#[derive(Debug)]
pub struct UnionFind {
    pub labels: Vec<usize>,
}

/// `u` and `v` are in one class of a labelling.
pub open spec fn same_label(l: Seq<usize>, u: usize, v: usize) -> bool {
    u < l.len() && v < l.len() && l[u as int] == l[v as int]
}

impl UnionFind {
    /// The labels are elements.
    pub open spec fn wf(&self) -> bool {
        forall|i: int| 0 <= i < self.labels@.len() ==> (#[trigger] self.labels@[i]) < self.labels@.len()
    }

    /// The number of elements.
    pub open spec fn n(&self) -> nat {
        self.labels@.len()
    }

    /// The elements are in one class.
    pub open spec fn same(&self, u: usize, v: usize) -> bool {
        same_label(self.labels@, u, v)
    }

    /// Every element alone.
    pub fn new(n: usize) -> (r: Self)
        ensures
            r.wf(),
            r.n() == n,
            forall|u: usize, v: usize|
                #[trigger] r.same(u, v) == (u < n && u == v),
    {
        let mut labels: Vec<usize> = Vec::new();
        let mut i: usize = 0;
        while i < n
            invariant
                i <= n,
                labels@.len() == i,
                forall|j: int| 0 <= j < i ==> #[trigger] labels@[j] == j,
            decreases n - i,
        {
            labels.push(i);
            i += 1;
        }
        UnionFind { labels }
    }

    /// The label of the element's class.
    pub fn find(&self, v: usize) -> (r: usize)
        requires
            self.wf(),
            v < self.n(),
        ensures
            r == self.labels@[v as int],
            r < self.n(),
    {
        self.labels[v]
    }

    /// Join the classes of two elements; whether they were different.
    pub fn union(&mut self, a: usize, b: usize) -> (r: bool)
        requires
            old(self).wf(),
            a < old(self).n(),
            b < old(self).n(),
        ensures
            final(self).wf(),
            final(self).n() == old(self).n(),
            r == !old(self).same(a, b),
            forall|u: usize, v: usize| #[trigger]
                final(self).same(u, v) == (old(self).same(u, v) || (old(self).same(u, a) && old(
                    self,
                ).same(v, b)) || (old(self).same(u, b) && old(self).same(v, a))),
    {
        let from: usize = self.labels[a];
        let to: usize = self.labels[b];
        let n: usize = self.labels.len();
        let ghost before = self.labels@;
        let mut i: usize = 0;
        while i < n
            invariant
                i <= n,
                n == before.len(),
                self.labels@.len() == n,
                to < n,
                forall|j: int| 0 <= j < n ==> (#[trigger] before[j]) < n,
                forall|j: int|
                    0 <= j < n ==> #[trigger] self.labels@[j] == (if j < i && before[j] == from {
                        to
                    } else {
                        before[j]
                    }),
            decreases n - i,
        {
            if self.labels[i] == from {
                self.labels.set(i, to);
            }
            i += 1;
        }
        proof {
            assert forall|u: usize, v: usize| #[trigger]
                self.same(u, v) == (old(self).same(u, v) || (old(self).same(u, a) && old(self).same(
                    v,
                    b,
                )) || (old(self).same(u, b) && old(self).same(v, a))) by {
                if u < n && v < n {
                    assert(self.labels@[u as int] == if before[u as int] == from {
                        to
                    } else {
                        before[u as int]
                    });
                    assert(self.labels@[v as int] == if before[v as int] == from {
                        to
                    } else {
                        before[v as int]
                    });
                }
            }
        }
        from != to
    }
}

} // verus!
