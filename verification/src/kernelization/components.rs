//! Connected components of the interaction graph.

use crate::domain::VarDomain;
use crate::instance::HuboInstance;
use crate::reach;
use crate::term::Term;
use crate::term;
use crate::unionfind::UnionFind;
use crate::unionfind;
use vstd::prelude::*;

verus! {

/// One of the first `k` terms lists both variables.
pub open spec fn co_listed(terms: Seq<Term>, k: nat) -> spec_fn(usize, usize) -> bool {
    |u: usize, v: usize|
        exists|t: int|
            0 <= t < k && (#[trigger] terms[t]).indices@.contains(u) && terms[t].indices@.contains(v)
}

/// The component of each variable, numbered from zero in order of first
/// appearance. Two variables share a component when a chain of terms connects
/// them.
pub fn connected_components<V: VarDomain>(instance: &HuboInstance<V>) -> (r: Vec<usize>)
    requires
        instance.wf(),
    ensures
        r@.len() == instance.n(),
        reach::first_appearance(r@),
        forall|u: usize, v: usize|
            u < instance.n() && v < instance.n() ==> (r@[u as int] == r@[v as int])
                == #[trigger] reach::connected(co_listed(instance.terms@, instance.terms@.len()), u, v),
{
    let n: usize = instance.n_vars();
    let ghost terms = instance.terms@;
    let mut uf = UnionFind::new(n);
    let mut t: usize = 0;
    proof {
        assert forall|u: usize, v: usize| #[trigger] uf.same(u, v) implies reach::connected(
            co_listed(terms, 0),
            u,
            v,
        ) by {
            reach::lemma_connected_self(co_listed(terms, 0), u);
        }
    }
    while t < instance.terms.len()
        invariant
            t <= terms.len(),
            terms == instance.terms@,
            instance.wf(),
            n == instance.n(),
            uf.wf(),
            uf.n() == n,
            forall|u: usize, v: usize|
                co_listed(terms, t as nat)(u, v) ==> #[trigger] uf.same(u, v),
            forall|u: usize, v: usize| #[trigger]
                uf.same(u, v) ==> reach::connected(co_listed(terms, t as nat), u, v),
        decreases terms.len() - t,
    {
        let ghost idx = terms[t as int].indices@;
        let ghost before = uf;
        let ghost link = co_listed(terms, (t + 1) as nat);
        assert(term::indices_below(idx, n as int));
        proof {
            assert forall|u: usize, v: usize| #[trigger] uf.same(u, v) implies reach::connected(
                link,
                u,
                v,
            ) by {
                reach::lemma_connected_mono(co_listed(terms, t as nat), link, u, v);
            }
            assert(reach::symmetric(link));
        }
        if instance.terms[t].indices.len() >= 2 {
            let first: usize = instance.terms[t].indices[0];
            let mut q: usize = 1;
            while q < instance.terms[t].indices.len()
                invariant
                    t < terms.len(),
                    terms == instance.terms@,
                    idx == terms[t as int].indices@,
                    term::indices_below(idx, n as int),
                    link == co_listed(terms, (t + 1) as nat),
                    reach::symmetric(link),
                    1 <= q <= idx.len(),
                    first == idx[0],
                    uf.wf(),
                    uf.n() == n,
                    forall|a: int| 0 <= a < q ==> uf.same(first, #[trigger] idx[a]),
                    forall|u: usize, v: usize| #[trigger] before.same(u, v) ==> uf.same(u, v),
                    forall|u: usize, v: usize| #[trigger]
                        uf.same(u, v) ==> reach::connected(link, u, v),
                decreases idx.len() - q,
            {
                let v: usize = instance.terms[t].indices[q];
                let ghost uf0 = uf;
                assert(idx[q as int] < n);
                assert(idx[0] < n);
                let joined: bool = uf.union(first, v);
                proof {
                    assert(link(first, v)) by {
                        assert(terms[t as int].indices@.contains(idx[0]));
                        assert(terms[t as int].indices@.contains(idx[q as int]));
                    }
                    reach::lemma_union_connected(link, uf0, uf, first, v);
                    assert forall|a: int| 0 <= a < q + 1 implies uf.same(
                        first,
                        #[trigger] idx[a],
                    ) by {
                        if a < q {
                            assert(uf0.same(first, idx[a]));
                        } else {
                            assert(uf0.same(first, first));
                            assert(uf0.same(v, v));
                        }
                    }
                }
                q += 1;
            }
        }
        proof {
            assert forall|u: usize, v: usize| link(u, v) implies #[trigger] uf.same(u, v) by {
                let a = choose|a: int|
                    0 <= a < t + 1 && (#[trigger] terms[a]).indices@.contains(u)
                        && terms[a].indices@.contains(v);
                if a < t {
                    assert(terms[a].indices@.contains(u));
                    assert(co_listed(terms, t as nat)(u, v));
                    assert(before.same(u, v));
                } else {
                    let i = choose|i: int| 0 <= i < idx.len() && idx[i] == u;
                    let j = choose|j: int| 0 <= j < idx.len() && idx[j] == v;
                    assert(idx[i] < n && idx[j] < n);
                    if idx.len() >= 2 {
                        assert(uf.same(idx[0], idx[i]));
                        assert(uf.same(idx[0], idx[j]));
                    }
                }
            }
        }
        t += 1;
    }
    let comp = reach::number_classes(&uf);
    proof {
        let link = co_listed(terms, terms.len());
        assert forall|u: usize, v: usize| #[trigger] link(u, v) implies uf.same(u, v) by {
        }
        reach::lemma_classes_connected(link, uf);
        assert forall|u: usize, v: usize| u < n && v < n implies (comp@[u as int]
            == comp@[v as int]) == #[trigger] reach::connected(link, u, v) by {
            assert((comp@[u as int] == comp@[v as int]) == uf.same(u, v));
        }
    }
    comp
}

} // verus!
