//! Connected elements and their classes.

use crate::sets;
use crate::unionfind::UnionFind;
use crate::unionfind;
use vstd::prelude::*;

verus! {

/// Each entry of the path is linked to the next one.
pub open spec fn is_path(link: spec_fn(usize, usize) -> bool, path: Seq<usize>) -> bool {
    path.len() > 0 && forall|i: int|
        0 <= i < path.len() - 1 ==> link(#[trigger] path[i], path[i + 1])
}

/// A path leads from `u` to `v`.
pub open spec fn leads(
    link: spec_fn(usize, usize) -> bool,
    path: Seq<usize>,
    u: usize,
    v: usize,
) -> bool {
    is_path(link, path) && path[0] == u && path.last() == v
}

/// The elements are connected by links.
pub open spec fn connected(link: spec_fn(usize, usize) -> bool, u: usize, v: usize) -> bool {
    exists|path: Seq<usize>| #[trigger] leads(link, path, u, v)
}

/// Links go both ways.
pub open spec fn symmetric(link: spec_fn(usize, usize) -> bool) -> bool {
    forall|u: usize, v: usize| #[trigger] link(u, v) ==> link(v, u)
}

pub proof fn lemma_connected_self(link: spec_fn(usize, usize) -> bool, u: usize)
    ensures
        connected(link, u, u),
{
    assert(leads(link, seq![u], u, u));
}

pub proof fn lemma_connected_link(link: spec_fn(usize, usize) -> bool, u: usize, v: usize)
    requires
        link(u, v),
    ensures
        connected(link, u, v),
{
    assert(leads(link, seq![u, v], u, v));
}

pub proof fn lemma_connected_trans(
    link: spec_fn(usize, usize) -> bool,
    u: usize,
    v: usize,
    w: usize,
)
    requires
        connected(link, u, v),
        connected(link, v, w),
    ensures
        connected(link, u, w),
{
    let p = choose|p: Seq<usize>| #[trigger] leads(link, p, u, v);
    let q = choose|q: Seq<usize>| #[trigger] leads(link, q, v, w);
    let r = p.drop_last() + q;
    assert forall|i: int| 0 <= i < r.len() - 1 implies link(#[trigger] r[i], r[i + 1]) by {
        if i + 1 < p.len() {
            assert(r[i] == p[i]);
            if i + 1 < p.len() - 1 {
                assert(r[i + 1] == p[i + 1]);
            } else {
                assert(r[i + 1] == q[0]);
                assert(p[i + 1] == v);
            }
        } else {
            let j = i - (p.len() - 1);
            assert(r[i] == q[j]);
            assert(r[i + 1] == q[j + 1]);
        }
    }
    assert(r[0] == u);
    assert(r.last() == w);
    assert(leads(link, r, u, w));
}

pub proof fn lemma_connected_sym(link: spec_fn(usize, usize) -> bool, u: usize, v: usize)
    requires
        symmetric(link),
        connected(link, u, v),
    ensures
        connected(link, v, u),
{
    let p = choose|p: Seq<usize>| #[trigger] leads(link, p, u, v);
    let r = p.reverse();
    assert forall|i: int| 0 <= i < r.len() - 1 implies link(#[trigger] r[i], r[i + 1]) by {
        let j = p.len() - 2 - i;
        assert(link(p[j], p[j + 1]));
        assert(r[i] == p[j + 1]);
        assert(r[i + 1] == p[j]);
    }
    assert(leads(link, r, v, u));
}

/// More links connect more.
pub proof fn lemma_connected_mono(
    link: spec_fn(usize, usize) -> bool,
    more: spec_fn(usize, usize) -> bool,
    u: usize,
    v: usize,
)
    requires
        connected(link, u, v),
        forall|a: usize, b: usize| #[trigger] link(a, b) ==> more(a, b),
    ensures
        connected(more, u, v),
{
    let p = choose|p: Seq<usize>| #[trigger] leads(link, p, u, v);
    assert forall|i: int| 0 <= i < p.len() - 1 implies more(#[trigger] p[i], p[i + 1]) by {
        assert(link(p[i], p[i + 1]));
    }
    assert(leads(more, p, u, v));
}

/// A labelling that joins linked elements joins connected ones.
pub proof fn lemma_path_same(
    link: spec_fn(usize, usize) -> bool,
    l: Seq<usize>,
    path: Seq<usize>,
)
    requires
        is_path(link, path),
        forall|u: usize, v: usize| #[trigger] link(u, v) ==> unionfind::same_label(l, u, v),
        path[0] < l.len(),
    ensures
        unionfind::same_label(l, path[0], path.last()),
    decreases path.len(),
{
    if path.len() > 1 {
        let p = path.drop_last();
        assert forall|i: int| 0 <= i < p.len() - 1 implies link(#[trigger] p[i], p[i + 1]) by {
            assert(link(path[i], path[i + 1]));
        }
        lemma_path_same(link, l, p);
        let i = path.len() - 2;
        assert(link(path[i], path[i + 1]));
    }
}

/// Joining two linked elements keeps all joined elements connected.
pub proof fn lemma_union_connected(
    link: spec_fn(usize, usize) -> bool,
    before: UnionFind,
    after: UnionFind,
    a: usize,
    b: usize,
)
    requires
        symmetric(link),
        link(a, b),
        forall|u: usize, v: usize| #[trigger] before.same(u, v) ==> connected(link, u, v),
        forall|u: usize, v: usize| #[trigger]
            after.same(u, v) == (before.same(u, v) || (before.same(u, a) && before.same(v, b)) || (
            before.same(u, b) && before.same(v, a))),
    ensures
        forall|u: usize, v: usize| #[trigger] after.same(u, v) ==> connected(link, u, v),
{
    lemma_connected_link(link, a, b);
    assert forall|u: usize, v: usize| #[trigger] after.same(u, v) implies connected(link, u, v) by {
        if before.same(u, v) {
        } else if before.same(u, a) && before.same(v, b) {
            lemma_connected_sym(link, v, b);
            lemma_connected_trans(link, u, a, b);
            lemma_connected_trans(link, u, b, v);
        } else {
            lemma_connected_sym(link, v, a);
            lemma_connected_sym(link, a, b);
            lemma_connected_trans(link, u, b, a);
            lemma_connected_trans(link, u, a, v);
        }
    }
}

/// A partition that joins linked elements and only connected ones is the
/// partition into connected elements.
pub proof fn lemma_classes_connected(link: spec_fn(usize, usize) -> bool, uf: UnionFind)
    requires
        forall|u: usize, v: usize| #[trigger] link(u, v) ==> uf.same(u, v),
        forall|u: usize, v: usize| #[trigger] uf.same(u, v) ==> connected(link, u, v),
    ensures
        forall|u: usize, v: usize|
            u < uf.n() && v < uf.n() ==> #[trigger] uf.same(u, v) == connected(link, u, v),
{
    assert forall|u: usize, v: usize| u < uf.n() && v < uf.n() implies #[trigger] uf.same(u, v)
        == connected(link, u, v) by {
        if connected(link, u, v) {
            let p = choose|p: Seq<usize>| #[trigger] leads(link, p, u, v);
            assert forall|a: usize, b: usize| #[trigger] link(a, b) implies unionfind::same_label(
                uf.labels@,
                a,
                b,
            ) by {
                assert(uf.same(a, b));
            }
            lemma_path_same(link, uf.labels@, p);
        }
    }
}

/// The number of different labels among the first `k` entries, when labels are
/// given out in order of first appearance.
pub open spec fn next_label(l: Seq<usize>, k: nat) -> nat
    decreases k,
{
    if k == 0 {
        0
    } else if l[k - 1] >= next_label(l, (k - 1) as nat) {
        (l[k - 1] + 1) as nat
    } else {
        next_label(l, (k - 1) as nat)
    }
}

/// The label at `v` has been given out before or is the next one.
pub open spec fn in_order(l: Seq<usize>, v: int) -> bool {
    l[v] <= next_label(l, v as nat)
}

/// New labels are given out contiguously from zero.
pub open spec fn first_appearance(l: Seq<usize>) -> bool {
    forall|v: int| 0 <= v < l.len() ==> #[trigger] in_order(l, v)
}

/// Labels below the next one have been given out.
pub proof fn lemma_next_label(l: Seq<usize>, k: nat)
    requires
        k <= l.len(),
        forall|v: int| 0 <= v < k ==> #[trigger] in_order(l, v),
    ensures
        forall|v: int| 0 <= v < k ==> #[trigger] l[v] < next_label(l, k),
        forall|c: usize| c < next_label(l, k) ==> l.take(k as int).contains(c),
        next_label(l, k) <= k,
    decreases k,
{
    if k > 0 {
        let k1 = (k - 1) as nat;
        lemma_next_label(l, k1);
        assert(in_order(l, k1 as int));
        assert forall|c: usize| c < next_label(l, k) implies l.take(k as int).contains(c) by {
            if c < next_label(l, k1) {
                assert(l.take(k1 as int).contains(c));
                let i = choose|i: int| 0 <= i < k1 && l.take(k1 as int)[i] == c;
                assert(l.take(k as int)[i] == c);
            } else {
                assert(l.take(k as int)[k1 as int] == c);
            }
        }
    }
}

proof fn lemma_next_label_same(a: Seq<usize>, b: Seq<usize>, k: nat)
    requires
        k <= a.len(),
        k <= b.len(),
        forall|v: int| 0 <= v < k ==> a[v] == b[v],
    ensures
        next_label(a, k) == next_label(b, k),
    decreases k,
{
    if k > 0 {
        lemma_next_label_same(a, b, (k - 1) as nat);
    }
}

/// Renumber the classes in order of first appearance.
pub fn number_classes(uf: &UnionFind) -> (r: Vec<usize>)
    requires
        uf.wf(),
    ensures
        r@.len() == uf.n(),
        first_appearance(r@),
        forall|u: usize, v: usize|
            u < uf.n() && v < uf.n() ==> (r@[u as int] == r@[v as int]) == #[trigger] uf.same(
                u,
                v,
            ),
{
    let n: usize = uf.labels.len();
    let mut ids: Vec<Option<usize>> = Vec::new();
    while ids.len() < n
        invariant
            ids@.len() <= n,
            forall|i: int| 0 <= i < ids@.len() ==> (#[trigger] ids@[i]) is None,
        decreases n - ids@.len(),
    {
        ids.push(None);
    }
    let mut next_id: usize = 0;
    let mut comp: Vec<usize> = Vec::new();
    let mut v: usize = 0;
    while v < n
        invariant
            v <= n,
            n == uf.n(),
            uf.wf(),
            ids@.len() == n,
            comp@.len() == v,
            next_id <= v,
            next_id == next_label(comp@, v as nat),
            forall|u: int| 0 <= u < v ==> #[trigger] in_order(comp@, u),
            forall|u: int|
                0 <= u < v ==> ids@[uf.labels@[u] as int] == Some(#[trigger] comp@[u]),
            forall|l: int|
                0 <= l < n && (#[trigger] ids@[l]) is Some ==> ids@[l]->0 < next_id && exists|u: int|
                    0 <= u < v && uf.labels@[u] == l && #[trigger] comp@[u] == ids@[l]->0,
            forall|a: int, b: int|
                0 <= a < n && 0 <= b < n && (#[trigger] ids@[a]) is Some && ids@[a]
                    == #[trigger] ids@[b] ==> a == b,
        decreases n - v,
    {
        let root: usize = uf.find(v);
        let ghost before = comp@;
        let ghost ids0 = ids@;
        let id: usize = match ids[root] {
            Some(id) => id,
            None => {
                let id: usize = next_id;
                ids.set(root, Some(id));
                next_id += 1;
                id
            },
        };
        comp.push(id);
        proof {
            lemma_next_label_same(before, comp@, v as nat);
            assert forall|u: int| 0 <= u < v + 1 implies #[trigger] in_order(
                comp@,
                u,
            ) by {
                lemma_next_label_same(before, comp@, u as nat);
                if u < v {
                    assert(in_order(before, u));
                }
            }
            assert forall|u: int| 0 <= u < v + 1 implies ids@[uf.labels@[u] as int] == Some(
                #[trigger] comp@[u],
            ) by {
                if u < v {
                    assert(ids0[uf.labels@[u] as int] == Some(before[u]));
                }
            }
            assert forall|l: int| 0 <= l < n && (#[trigger] ids@[l]) is Some implies ids@[l]->0
                < next_id && exists|u: int|
                0 <= u < v + 1 && uf.labels@[u] == l && #[trigger] comp@[u] == ids@[l]->0 by {
                if l == root {
                    assert(comp@[v as int] == id);
                } else {
                    assert(ids0[l] is Some);
                    let u = choose|u: int|
                        0 <= u < v && uf.labels@[u] == l && #[trigger] before[u] == ids0[l]->0;
                    assert(comp@[u] == before[u]);
                }
            }
        }
        v += 1;
    }
    proof {
        assert forall|a: usize, b: usize| a < n && b < n implies (comp@[a as int]
            == comp@[b as int]) == #[trigger] uf.same(a, b) by {
            assert(ids@[uf.labels@[a as int] as int] == Some(comp@[a as int]));
            assert(ids@[uf.labels@[b as int] as int] == Some(comp@[b as int]));
        }
        assert(first_appearance(comp@));
    }
    comp
}

/// `groups` are the classes of `rel` on `0..n`: each ascending, ordered by their
/// least members.
pub open spec fn is_partition_by(
    n: nat,
    rel: spec_fn(usize, usize) -> bool,
    groups: Seq<Vec<usize>>,
) -> bool {
    &&& forall|c: int|
        0 <= c < groups.len() ==> (#[trigger] groups[c])@.len() > 0 && sets::ascending(groups[c]@)
    &&& forall|c: int, d: int|
        0 <= c < d < groups.len() ==> (#[trigger] groups[c])@[0] < (#[trigger] groups[d])@[0]
    &&& forall|c: int, v: usize|
        0 <= c < groups.len() && #[trigger] groups[c]@.contains(v) ==> v < n
    &&& forall|v: usize| v < n ==> #[trigger] is_grouped(groups, v)
    &&& forall|c: int, u: usize, v: usize|
        0 <= c < groups.len() && #[trigger] groups[c]@.contains(u) && v < n ==> (
        #[trigger] groups[c]@.contains(v)) == rel(u, v)
}

/// Some group has `v`.
pub open spec fn is_grouped(groups: Seq<Vec<usize>>, v: usize) -> bool {
    exists|c: int| 0 <= c < groups.len() && #[trigger] groups[c]@.contains(v)
}

/// The classes of a partition.
pub fn group_classes(uf: &UnionFind) -> (r: Vec<Vec<usize>>)
    requires
        uf.wf(),
    ensures
        is_partition_by(uf.n(), |u: usize, v: usize| uf.same(u, v), r@),
{
    let comp = number_classes(uf);
    let n: usize = comp.len();
    let ghost l = comp@;
    let mut groups: Vec<Vec<usize>> = Vec::new();
    let mut v: usize = 0;
    while v < n
        invariant
            v <= n,
            n == l.len(),
            l == comp@,
            first_appearance(l),
            groups@.len() == next_label(l, v as nat),
            forall|c: int|
                0 <= c < groups@.len() ==> (#[trigger] groups@[c])@.len() > 0 && sets::ascending(
                    groups@[c]@,
                ),
            forall|c: int, d: int|
                0 <= c < d < groups@.len() ==> (#[trigger] groups@[c])@[0] < (
                #[trigger] groups@[d])@[0],
            forall|c: int, u: usize|
                0 <= c < groups@.len() ==> #[trigger] groups@[c]@.contains(u) == (u < v && l[u as int]
                    == c),
        decreases n - v,
    {
        let c: usize = comp[v];
        let ghost g0 = groups@;
        proof {
            assert(in_order(l, v as int));
            lemma_next_label(l, v as nat);
        }
        if c < groups.len() {
            assert forall|i: int| 0 <= i < g0[c as int]@.len() implies (#[trigger] g0[c as int]@[i])
                < v by {
                assert(g0[c as int]@.contains(g0[c as int]@[i]));
            }
            groups[c].push(v);
            proof {
                assert forall|d: int, u: usize| 0 <= d < groups@.len() implies #[trigger] groups@[d]@.contains(
                u) == (u < v + 1 && l[u as int] == d) by {
                    assert(g0[d]@.contains(u) == (u < v && l[u as int] == d));
                    if d == c {
                        assert(groups@[d]@ == g0[d]@.push(v));
                        lemma_push_contains(g0[d]@, v, u);
                    } else {
                        assert(groups@[d] == g0[d]);
                    }
                }
                assert forall|d: int| 0 <= d < groups@.len() implies (#[trigger] groups@[d])@.len()
                    > 0 && sets::ascending(groups@[d]@) && groups@[d]@[0] == g0[d]@[0] by {
                    if d == c {
                        assert(groups@[d]@ == g0[d]@.push(v));
                    } else {
                        assert(groups@[d] == g0[d]);
                    }
                }
            }
        } else {
            let mut g: Vec<usize> = Vec::new();
            g.push(v);
            groups.push(g);
            proof {
                assert(c == g0.len());
                assert forall|d: int, u: usize| 0 <= d < groups@.len() implies #[trigger] groups@[d]@.contains(
                u) == (u < v + 1 && l[u as int] == d) by {
                    if d < g0.len() {
                        assert(groups@[d] == g0[d]);
                        assert(g0[d]@.contains(u) == (u < v && l[u as int] == d));
                    } else {
                        assert(groups@[d]@ =~= seq![v]);
                        if u == v {
                            assert(groups@[d]@[0] == u);
                        }
                        if u < v {
                            assert(l[u as int] < next_label(l, v as nat));
                        }
                    }
                }
                assert forall|a: int, b: int| 0 <= a < b < groups@.len() implies (
                #[trigger] groups@[a])@[0] < (#[trigger] groups@[b])@[0] by {
                    assert(groups@[a] == g0[a]);
                    assert(g0[a]@.contains(g0[a]@[0]));
                    if b < g0.len() {
                        assert(groups@[b] == g0[b]);
                    }
                }
            }
        }
        v += 1;
    }
    proof {
        lemma_next_label(l, n as nat);
        let rel = |u: usize, v: usize| uf.same(u, v);
        assert forall|v: usize| v < n implies #[trigger] is_grouped(groups@, v) by {
            assert(l[v as int] < next_label(l, n as nat));
            assert(groups@[l[v as int] as int]@.contains(v));
        }
        assert forall|c: int, u: usize, v: usize|
            0 <= c < groups@.len() && #[trigger] groups@[c]@.contains(u) && v < n implies (
        #[trigger] groups@[c]@.contains(v)) == rel(u, v) by {
            assert((l[u as int] == l[v as int]) == uf.same(u, v));
        }
    }
    groups
}

proof fn lemma_push_contains(s: Seq<usize>, v: usize, u: usize)
    ensures
        s.push(v).contains(u) == (s.contains(u) || u == v),
{
    let r = s.push(v);
    if s.contains(u) {
        let i = choose|i: int| 0 <= i < s.len() && s[i] == u;
        assert(r[i] == u);
    }
    if u == v {
        assert(r[s.len() as int] == u);
    }
    if r.contains(u) && u != v {
        let i = choose|i: int| 0 <= i < r.len() && r[i] == u;
        assert(s[i] == u);
    }
}

} // verus!
