//! The maximal cliques of a graph with a perfect elimination order.

use crate::chordal;
use crate::lists;
use crate::reach;
use crate::sets;
use crate::unionfind::UnionFind;
use vstd::prelude::*;

verus! {

/// The vertex at place `i` of the order with its later neighbours, ascending.
pub open spec fn is_candidate(
    a: Seq<Seq<bool>>,
    peo: Seq<usize>,
    i: int,
    c: Seq<usize>,
) -> bool {
    &&& 0 <= i < peo.len()
    &&& sets::ascending(c)
    &&& forall|u: usize| #[trigger]
        c.contains(u) == (u == peo[i] || (u < a.len() && a[peo[i] as int][u as int]
            && chordal::is_later(peo, i, u as int)))
}

/// Some vertex gives the list.
pub open spec fn is_some_candidate(a: Seq<Seq<bool>>, peo: Seq<usize>, c: Seq<usize>) -> bool {
    exists|i: int| #[trigger] is_candidate(a, peo, i, c)
}

/// All of `c` is in `d`.
pub open spec fn is_within(c: Seq<usize>, d: Seq<usize>) -> bool {
    forall|u: usize| #[trigger] c.contains(u) ==> d.contains(u)
}

/// A candidate that is in no other candidate.
pub open spec fn is_maximal(a: Seq<Seq<bool>>, peo: Seq<usize>, c: Seq<usize>) -> bool {
    &&& is_some_candidate(a, peo, c)
    &&& forall|d: Seq<usize>| #[trigger]
        is_some_candidate(a, peo, d) && is_within(c, d) ==> c == d
}

/// Whether all of one ascending list is in another.
pub fn is_subset(a: &[usize], b: &[usize]) -> (r: bool)
    requires
        sets::ascending(a@),
        sets::ascending(b@),
    ensures
        r == is_within(a@, b@),
{
    let mut i: usize = 0;
    let mut j: usize = 0;
    while i < a.len() && j < b.len()
        invariant
            i <= a@.len(),
            j <= b@.len(),
            sets::ascending(a@),
            sets::ascending(b@),
            forall|p: int| 0 <= p < i ==> b@.contains(#[trigger] a@[p]),
            forall|p: int, q: int| i <= p < a@.len() && 0 <= q < j ==> a@[p] != b@[q],
        decreases a@.len() - i + b@.len() - j,
    {
        if a[i] == b[j] {
            proof {
                assert(b@.contains(a@[i as int]));
                assert forall|p: int, q: int|
                    i + 1 <= p < a@.len() && 0 <= q < j + 1 implies a@[p] != b@[q] by {
                    assert(a@[i as int] < a@[p]);
                    if q < j {
                        assert(a@[p] != b@[q]);
                    }
                }
            }
            i += 1;
            j += 1;
        } else if a[i] > b[j] {
            proof {
                assert forall|p: int, q: int| i <= p < a@.len() && 0 <= q < j + 1 implies a@[p]
                    != b@[q] by {
                    assert(p == i || a@[i as int] < a@[p]);
                }
            }
            j += 1;
        } else {
            proof {
                assert(!b@.contains(a@[i as int])) by {
                    if b@.contains(a@[i as int]) {
                        let q = choose|q: int| 0 <= q < b@.len() && b@[q] == a@[i as int];
                        if q < j {
                            assert(a@[i as int] != b@[q]);
                        } else {
                            assert(q == j || b@[j as int] < b@[q]);
                        }
                    }
                }
                assert(a@.contains(a@[i as int]));
            }
            return false;
        }
    }
    proof {
        if i == a@.len() {
            assert forall|u: usize| #[trigger] a@.contains(u) implies b@.contains(u) by {
                let p = choose|p: int| 0 <= p < a@.len() && a@[p] == u;
                assert(b@.contains(a@[p]));
            }
        } else {
            assert(a@.contains(a@[i as int]));
            assert(!b@.contains(a@[i as int])) by {
                if b@.contains(a@[i as int]) {
                    let q = choose|q: int| 0 <= q < b@.len() && b@[q] == a@[i as int];
                    assert(a@[i as int] != b@[q]);
                }
            }
        }
    }
    i == a.len()
}

/// The candidate at place `i`.
fn candidate(adj: &Vec<Vec<bool>>, peo: &Vec<usize>, pos: &Vec<usize>, i: usize) -> (r: Vec<usize>)
    requires
        chordal::is_graph(chordal::rows_of(adj@), peo@.len()),
        peo@.no_duplicates(),
        forall|k: int| 0 <= k < peo@.len() ==> (#[trigger] peo@[k]) < peo@.len(),
        pos@.len() == peo@.len(),
        forall|k: int| 0 <= k < peo@.len() ==> pos@[#[trigger] peo@[k] as int] == k,
        forall|u: int| 0 <= u < pos@.len() ==> (#[trigger] pos@[u]) < peo@.len() && peo@[pos@[u] as int] == u,
        i < peo@.len(),
    ensures
        is_candidate(chordal::rows_of(adj@), peo@, i as int, r@),
{
    let n: usize = peo.len();
    let v: usize = peo[i];
    let ghost a = chordal::rows_of(adj@);
    let mut c: Vec<usize> = Vec::new();
    let mut u: usize = 0;
    assert(a[v as int].len() == n);
    while u < n
        invariant
            u <= n,
            n == peo@.len(),
            v < n,
            i < n,
            v == peo@[i as int],
            a == chordal::rows_of(adj@),
            adj@.len() == n,
            a[v as int].len() == n,
            pos@.len() == n,
            sets::ascending(c@),
            forall|w: int| 0 <= w < c@.len() ==> (#[trigger] c@[w]) < u,
            forall|w: usize| #[trigger]
                c@.contains(w) == (w < u && (w == v || (a[v as int][w as int] && pos@[w as int]
                    > i))),
        decreases n - u,
    {
        let ghost c0 = c@;
        if u == v || (adj[v][u] && pos[u] > i) {
            c.push(u);
        }
        proof {
            assert forall|w: usize| #[trigger] c@.contains(w) == (w < u + 1 && (w == v || (
            a[v as int][w as int] && pos@[w as int] > i))) by {
                assert(c0.contains(w) == (w < u && (w == v || (a[v as int][w as int]
                    && pos@[w as int] > i))));
                if c0.contains(w) {
                    let q = choose|q: int| 0 <= q < c0.len() && c0[q] == w;
                    assert(c@[q] == w);
                }
                if c@.len() > c0.len() {
                    assert(c@[c0.len() as int] == u);
                }
                if c@.contains(w) && !c0.contains(w) {
                    let q = choose|q: int| 0 <= q < c@.len() && c@[q] == w;
                    if q < c0.len() {
                        assert(c0[q] == w);
                    }
                }
            }
        }
        u += 1;
    }
    proof {
        assert forall|w: usize| #[trigger] c@.contains(w) == (w == peo@[i as int] || (w < a.len()
            && a[peo@[i as int] as int][w as int] && chordal::is_later(peo@, i as int, w as int))) by {
            assert(c@.contains(w) == (w < n && (w == v || (a[v as int][w as int] && pos@[w as int]
                > i))));
            if w < n && w != v {
                let s = peo@.take(i + 1);
                let k = pos@[w as int] as int;
                assert(peo@[k] == w);
                if k <= i {
                    assert(s[k] == w);
                    assert(s.contains(w));
                } else if s.contains(w) {
                    let q = choose|q: int| 0 <= q < s.len() && s[q] == w;
                    assert(peo@[q] == peo@[k]);
                }
            }
        }
    }
    c
}

/// The places of the vertices in the order.
fn places_of(peo: &Vec<usize>) -> (r: Vec<usize>)
    requires
        peo@.no_duplicates(),
        forall|k: int| 0 <= k < peo@.len() ==> (#[trigger] peo@[k]) < peo@.len(),
    ensures
        r@.len() == peo@.len(),
        forall|k: int| 0 <= k < peo@.len() ==> r@[#[trigger] peo@[k] as int] == k,
        forall|u: int| 0 <= u < r@.len() ==> (#[trigger] r@[u]) < peo@.len() && peo@[r@[u] as int] == u,
{
    let n: usize = peo.len();
    let mut pos: Vec<usize> = Vec::new();
    while pos.len() < n
        invariant
            pos@.len() <= n,
        decreases n - pos@.len(),
    {
        pos.push(0);
    }
    let mut i: usize = 0;
    while i < n
        invariant
            i <= n,
            n == peo@.len(),
            pos@.len() == n,
            peo@.no_duplicates(),
            forall|k: int| 0 <= k < peo@.len() ==> (#[trigger] peo@[k]) < peo@.len(),
            forall|k: int| 0 <= k < i ==> pos@[#[trigger] peo@[k] as int] == k,
        decreases n - i,
    {
        let v: usize = peo[i];
        pos.set(v, i);
        i += 1;
    }
    proof {
        assert forall|u: int| 0 <= u < pos@.len() implies (#[trigger] pos@[u]) < peo@.len()
            && peo@[pos@[u] as int] == u by {
            lemma_permutation(peo@, n as nat, u as usize);
            let k = choose|k: int| 0 <= k < peo@.len() && peo@[k] == u as usize;
            assert(pos@[peo@[k] as int] == k);
        }
    }
    pos
}

/// A list of `n` distinct numbers below `n` has all of them.
pub proof fn lemma_permutation(s: Seq<usize>, n: nat, u: usize)
    requires
        s.no_duplicates(),
        s.len() == n,
        n <= usize::MAX,
        forall|k: int| 0 <= k < s.len() ==> (#[trigger] s[k]) < n,
        u < n,
    ensures
        s.contains(u),
{
    if !s.contains(u) {
        let t = Seq::new(
            n,
            |k: int|
                if s[k] > u {
                    (s[k] - 1) as usize
                } else {
                    s[k]
                },
        );
        assert forall|i: int, j: int| 0 <= i < j < n implies t[i] != t[j] by {
            assert(s[i] != s[j]);
            assert(s.contains(s[i]) && s.contains(s[j]));
        }
        assert forall|k: int| 0 <= k < n implies (#[trigger] t[k]) < n - 1 by {
            assert(s.contains(s[k]));
            assert(s[k] < n);
        }
        lemma_distinct_below(t, (n - 1) as nat);
    }
}

/// At most `m` distinct numbers are below `m`.
proof fn lemma_distinct_below(t: Seq<usize>, m: nat)
    requires
        t.no_duplicates(),
        m <= usize::MAX,
        forall|k: int| 0 <= k < t.len() ==> (#[trigger] t[k]) < m,
    ensures
        t.len() <= m,
    decreases m,
{
    if m == 0 {
        if t.len() > 0 {
            assert(t[0] < 0);
        }
    } else {
        let w = (m - 1) as usize;
        if t.contains(w) {
            let p = choose|p: int| 0 <= p < t.len() && t[p] == w;
            let s = t.remove(p);
            assert forall|k: int| 0 <= k < s.len() implies (#[trigger] s[k]) < m - 1 by {
                let q = if k < p {
                    k
                } else {
                    k + 1
                };
                assert(s[k] == t[q]);
                assert(t[q] < m && t[q] != t[p]);
            }
            assert(s.no_duplicates()) by {
                assert forall|i: int, j: int| 0 <= i < s.len() && 0 <= j < s.len() && i != j implies s[i]
                    != s[j] by {
                    let i1 = if i < p {
                        i
                    } else {
                        i + 1
                    };
                    let j1 = if j < p {
                        j
                    } else {
                        j + 1
                    };
                    assert(t[i1] != t[j1]);
                }
            }
            lemma_distinct_below(s, (m - 1) as nat);
        } else {
            assert forall|k: int| 0 <= k < t.len() implies (#[trigger] t[k]) < m - 1 by {
                assert(t.contains(t[k]));
                assert(t[k] < m);
            }
            lemma_distinct_below(t, (m - 1) as nat);
        }
    }
}

proof fn lemma_candidate_unique(
    a: Seq<Seq<bool>>,
    peo: Seq<usize>,
    i: int,
    c: Seq<usize>,
    d: Seq<usize>,
)
    requires
        is_candidate(a, peo, i, c),
        is_candidate(a, peo, i, d),
    ensures
        c == d,
{
    assert forall|u: usize| c.contains(u) == d.contains(u) by {}
    sets::lemma_ascending_unique(c, d);
}

/// The maximal cliques, in lexicographic order.
pub fn maximal_cliques_from_peo(adj: &Vec<Vec<bool>>, peo: &Vec<usize>) -> (r: Vec<Vec<usize>>)
    requires
        chordal::is_graph(chordal::rows_of(adj@), peo@.len()),
        peo@.no_duplicates(),
        forall|k: int| 0 <= k < peo@.len() ==> (#[trigger] peo@[k]) < peo@.len(),
    ensures
        lists::in_list_order(false, r@),
        forall|c: Seq<usize>| #[trigger]
            lists::has_list(r@, c) == is_maximal(chordal::rows_of(adj@), peo@, c),
{
    let n: usize = peo.len();
    let ghost a = chordal::rows_of(adj@);
    let pos = places_of(peo);
    let mut cands: Vec<Vec<usize>> = Vec::new();
    let mut i: usize = 0;
    while i < n
        invariant
            i <= n,
            n == peo@.len(),
            a == chordal::rows_of(adj@),
            chordal::is_graph(a, n as nat),
            peo@.no_duplicates(),
            forall|k: int| 0 <= k < peo@.len() ==> (#[trigger] peo@[k]) < peo@.len(),
            pos@.len() == n,
            forall|k: int| 0 <= k < peo@.len() ==> pos@[#[trigger] peo@[k] as int] == k,
            forall|u: int|
                0 <= u < pos@.len() ==> (#[trigger] pos@[u]) < peo@.len() && peo@[pos@[u] as int]
                    == u,
            cands@.len() == i,
            forall|k: int| 0 <= k < i ==> is_candidate(a, peo@, k, (#[trigger] cands@[k])@),
        decreases n - i,
    {
        cands.push(candidate(adj, peo, &pos, i));
        i += 1;
    }
    let mut r: Vec<Vec<usize>> = Vec::new();
    let mut i: usize = 0;
    while i < n
        invariant
            i <= n,
            n == peo@.len(),
            cands@.len() == n,
            forall|k: int| 0 <= k < n ==> is_candidate(a, peo@, k, (#[trigger] cands@[k])@),
            lists::in_list_order(false, r@),
            forall|c: Seq<usize>| #[trigger]
                lists::has_list(r@, c) == (is_maximal(a, peo@, c) && exists|k: int|
                    0 <= k < i && (#[trigger] cands@[k])@ == c),
        decreases n - i,
    {
        let ghost ci = cands@[i as int]@;
        let ghost r0 = r@;
        assert(is_candidate(a, peo@, i as int, cands@[i as int]@));
        let mut covered: bool = false;
        let mut j: usize = 0;
        while j < n
            invariant
                j <= n,
                i < n,
                n == peo@.len(),
                cands@.len() == n,
                ci == cands@[i as int]@,
                sets::ascending(ci),
                forall|k: int| 0 <= k < n ==> is_candidate(a, peo@, k, (#[trigger] cands@[k])@),
                covered == exists|k: int|
                    0 <= k < j && is_within(ci, (#[trigger] cands@[k])@) && ci != cands@[k]@,
            decreases n - j,
        {
            let ghost covered0 = covered;
            assert(is_candidate(a, peo@, j as int, cands@[j as int]@));
            let inside: bool = is_subset(cands[i].as_slice(), cands[j].as_slice());
            let longer: bool = cands[j].len() > cands[i].len();
            proof {
                let cj = cands@[j as int]@;
                if inside {
                    lemma_within_len(ci, cj);
                }
            }
            if inside && longer {
                assert(is_within(ci, cands@[j as int]@));
                covered = true;
            }
            proof {
                if covered0 {
                    let k = choose|k: int|
                        0 <= k < j && is_within(ci, (#[trigger] cands@[k])@) && ci != cands@[k]@;
                    assert(is_within(ci, cands@[k]@));
                }
            }
            j += 1;
        }
        proof {
            assert(is_some_candidate(a, peo@, ci));
            assert(is_maximal(a, peo@, ci) == !covered) by {
                if covered {
                    let k = choose|k: int|
                        0 <= k < n && is_within(ci, (#[trigger] cands@[k])@) && ci != cands@[k]@;
                    assert(is_candidate(a, peo@, k, cands@[k]@));
                    assert(is_some_candidate(a, peo@, cands@[k]@));
                } else {
                    assert forall|d: Seq<usize>| #[trigger]
                        is_some_candidate(a, peo@, d) && is_within(ci, d) implies ci == d by {
                        let k = choose|k: int| #[trigger] is_candidate(a, peo@, k, d);
                        assert(is_candidate(a, peo@, k, cands@[k]@));
                        lemma_candidate_unique(a, peo@, k, d, cands@[k]@);
                    }
                }
            }
        }
        if !covered {
            lists::add_list(&mut r, lists::copy_list(cands[i].as_slice()), false);
        }
        proof {
            assert forall|c: Seq<usize>| #[trigger] lists::has_list(r@, c) == (is_maximal(
                a,
                peo@,
                c,
            ) && exists|k: int| 0 <= k < i + 1 && (#[trigger] cands@[k])@ == c) by {
                assert(lists::has_list(r0, c) == (is_maximal(a, peo@, c) && exists|k: int|
                    0 <= k < i && (#[trigger] cands@[k])@ == c));
                if exists|k: int| 0 <= k < i && (#[trigger] cands@[k])@ == c {
                    let k = choose|k: int| 0 <= k < i && (#[trigger] cands@[k])@ == c;
                    assert(cands@[k]@ == c);
                }
                if c == ci {
                    assert(cands@[i as int]@ == c);
                }
                if exists|k: int| 0 <= k < i + 1 && (#[trigger] cands@[k])@ == c {
                    let k = choose|k: int| 0 <= k < i + 1 && (#[trigger] cands@[k])@ == c;
                    if k < i {
                        assert(cands@[k]@ == c);
                    }
                }
            }
        }
        i += 1;
    }
    proof {
        assert forall|c: Seq<usize>| #[trigger] lists::has_list(r@, c) == is_maximal(a, peo@, c) by {
            if is_maximal(a, peo@, c) {
                let k = choose|k: int| #[trigger] is_candidate(a, peo@, k, c);
                assert(is_candidate(a, peo@, k, cands@[k]@));
                lemma_candidate_unique(a, peo@, k, c, cands@[k]@);
                assert(cands@[k]@ == c);
            }
        }
    }
    r
}

/// A part is no longer than the whole, and as long only when equal.
proof fn lemma_within_len(c: Seq<usize>, d: Seq<usize>)
    requires
        sets::ascending(c),
        sets::ascending(d),
        is_within(c, d),
    ensures
        c.len() <= d.len(),
        c.len() == d.len() ==> c == d,
    decreases c.len(),
{
    if c.len() > 0 {
        let x = c.last();
        assert(c[c.len() - 1] == x);
        assert(c.contains(x));
        assert(d.contains(x));
        let p = choose|p: int| 0 <= p < d.len() && d[p] == x;
        let c1 = c.drop_last();
        let d1 = d.take(p);
        assert forall|i: int, j: int| 0 <= i < j < c1.len() implies c1[i] < c1[j] by {
            assert(c[i] < c[j]);
        }
        assert forall|i: int, j: int| 0 <= i < j < d1.len() implies d1[i] < d1[j] by {
            assert(d[i] < d[j]);
        }
        assert forall|u: usize| #[trigger] c1.contains(u) implies d1.contains(u) by {
            let i = choose|i: int| 0 <= i < c1.len() && c1[i] == u;
            assert(c[i] == u && c[i] < c[c.len() - 1]);
            assert(c.contains(u));
            let q = choose|q: int| 0 <= q < d.len() && d[q] == u;
            if q >= p {
                assert(q == p || d[p] < d[q]);
            }
            assert(d1[q] == u);
        }
        lemma_within_len(c1, d1);
        if c.len() == d.len() {
            assert(p == d.len() - 1);
            assert(c =~= c1.push(x));
            assert(d =~= d1.push(x));
        }
    } else if d.len() == 0 {
        assert(c =~= d);
    }
}

/// The vertices of a clique are pairwise joined.
pub proof fn cliques_are_complete(
    a: Seq<Seq<bool>>,
    peo: Seq<usize>,
    c: Seq<usize>,
    x: usize,
    y: usize,
)
    requires
        chordal::is_graph(a, peo.len()),
        forall|k: int| 0 <= k < peo.len() ==> (#[trigger] peo[k]) < peo.len(),
        chordal::is_perfect_order(a, peo),
        is_some_candidate(a, peo, c),
        c.contains(x),
        c.contains(y),
        x != y,
    ensures
        x < a.len(),
        y < a.len(),
        a[x as int][y as int],
{
    let i = choose|i: int| #[trigger] is_candidate(a, peo, i, c);
    let v = peo[i] as int;
    assert(peo[i] < peo.len());
    if x != peo[i] && y != peo[i] {
        assert(a[peo[i] as int][x as int] && a[peo[i] as int][y as int]);
    } else if x == peo[i] {
        assert(a[v][y as int]);
    } else {
        assert(a[v][x as int]);
        assert(a[x as int][v] == a[v][x as int]);
    }
}

/// Every list that a vertex gives is in a maximal one.
pub proof fn lemma_has_maximal(a: Seq<Seq<bool>>, peo: Seq<usize>, c: Seq<usize>) -> (d: Seq<usize>)
    requires
        is_some_candidate(a, peo, c),
        a.len() == peo.len(),
        peo.len() <= usize::MAX,
        forall|k: int| 0 <= k < peo.len() ==> (#[trigger] peo[k]) < peo.len(),
    ensures
        is_maximal(a, peo, d),
        is_within(c, d),
    decreases peo.len() - c.len(),
{
    lemma_candidate_len(a, peo, c);
    if is_maximal(a, peo, c) {
        c
    } else {
        let d = choose|d: Seq<usize>| #[trigger]
            is_some_candidate(a, peo, d) && is_within(c, d) && c != d;
        let i = choose|i: int| #[trigger] is_candidate(a, peo, i, c);
        let j = choose|j: int| #[trigger] is_candidate(a, peo, j, d);
        lemma_within_len(c, d);
        lemma_candidate_len(a, peo, d);
        let e = lemma_has_maximal(a, peo, d);
        assert forall|u: usize| #[trigger] c.contains(u) implies e.contains(u) by {
            assert(d.contains(u));
        }
        e
    }
}

proof fn lemma_candidate_len(a: Seq<Seq<bool>>, peo: Seq<usize>, c: Seq<usize>)
    requires
        is_some_candidate(a, peo, c),
        a.len() == peo.len(),
        peo.len() <= usize::MAX,
        forall|k: int| 0 <= k < peo.len() ==> (#[trigger] peo[k]) < peo.len(),
    ensures
        c.len() <= peo.len(),
{
    let i = choose|i: int| #[trigger] is_candidate(a, peo, i, c);
    assert(c.no_duplicates()) by {
        assert forall|p: int, q: int| 0 <= p < c.len() && 0 <= q < c.len() && p != q implies c[p]
            != c[q] by {
            if p < q {
                assert(c[p] < c[q]);
            } else {
                assert(c[q] < c[p]);
            }
        }
    }
    assert forall|k: int| 0 <= k < c.len() implies (#[trigger] c[k]) < peo.len() by {
        assert(c.contains(c[k]));
        assert(peo[i] < peo.len());
    }
    lemma_distinct_below(c, peo.len());
}

/// Every edge is in a maximal clique.
pub proof fn cliques_cover_edges(a: Seq<Seq<bool>>, peo: Seq<usize>, x: usize, y: usize) -> (c: Seq<
    usize,
>)
    requires
        chordal::is_graph(a, peo.len()),
        peo.len() <= usize::MAX,
        peo.no_duplicates(),
        forall|k: int| 0 <= k < peo.len() ==> (#[trigger] peo[k]) < peo.len(),
        x < peo.len(),
        y < peo.len(),
        a[x as int][y as int],
    ensures
        is_maximal(a, peo, c),
        c.contains(x),
        c.contains(y),
{
    lemma_permutation(peo, peo.len(), x);
    lemma_permutation(peo, peo.len(), y);
    let i = choose|i: int| 0 <= i < peo.len() && peo[i] == x;
    let j = choose|j: int| 0 <= j < peo.len() && peo[j] == y;
    assert(a[x as int][y as int] == a[y as int][x as int]);
    assert(!a[x as int][x as int]);
    let (k, u, w, l) = if i < j {
        (i, x, y, j)
    } else {
        (j, y, x, i)
    };
    let c = lemma_candidate_exists(a, peo, k, a.len());
    assert(chordal::is_later(peo, k, w as int)) by {
        let s = peo.take(k + 1);
        if s.contains(w) {
            let q = choose|q: int| 0 <= q < s.len() && s[q] == w;
            assert(peo[q] == peo[l]);
        }
    }
    assert(c.contains(u) && c.contains(w));
    assert(is_candidate(a, peo, k, c));
    lemma_has_maximal(a, peo, c)
}

/// The members below `m` of the candidate at place `i`.
proof fn lemma_members_below(a: Seq<Seq<bool>>, peo: Seq<usize>, i: int, m: nat) -> (c: Seq<usize>)
    requires
        0 <= i < peo.len(),
        m <= usize::MAX,
    ensures
        sets::ascending(c),
        forall|w: int| 0 <= w < c.len() ==> (#[trigger] c[w]) < m,
        forall|u: usize| #[trigger]
            c.contains(u) == (u < m && (u == peo[i] || (u < a.len() && a[peo[i] as int][u as int]
                && chordal::is_later(peo, i, u as int)))),
    decreases m,
{
    if m == 0 {
        Seq::empty()
    } else {
        let b = lemma_members_below(a, peo, i, (m - 1) as nat);
        let w = (m - 1) as usize;
        if w == peo[i] || (w < a.len() && a[peo[i] as int][w as int] && chordal::is_later(
            peo,
            i,
            w as int,
        )) {
            let c = b.push(w);
            assert forall|u: usize| #[trigger] c.contains(u) == (u < m && (u == peo[i] || (u
                < a.len() && a[peo[i] as int][u as int] && chordal::is_later(peo, i, u as int)))) by {
                if b.contains(u) {
                    let q = choose|q: int| 0 <= q < b.len() && b[q] == u;
                    assert(c[q] == u);
                }
                if u == w {
                    assert(c[b.len() as int] == u);
                }
                if c.contains(u) && u != w {
                    let q = choose|q: int| 0 <= q < c.len() && c[q] == u;
                    assert(b[q] == u);
                }
            }
            c
        } else {
            b
        }
    }
}

/// Every vertex gives a candidate.
pub proof fn lemma_candidate_exists(a: Seq<Seq<bool>>, peo: Seq<usize>, i: int, n: nat) -> (c: Seq<usize>)
    requires
        0 <= i < peo.len(),
        a.len() == n,
        n <= usize::MAX,
        peo[i] < n,
    ensures
        is_candidate(a, peo, i, c),
{
    lemma_members_below(a, peo, i, n)
}

/// How many of the first `k` entries of `a` are in `b`.
pub open spec fn common(a: Seq<usize>, b: Seq<usize>, k: nat) -> nat
    decreases k,
{
    if k == 0 {
        0
    } else {
        common(a, b, (k - 1) as nat) + (if b.contains(a[k - 1]) {
            1nat
        } else {
            0nat
        })
    }
}

/// How many entries two ascending lists share.
pub fn intersection_size(a: &[usize], b: &[usize]) -> (r: usize)
    requires
        sets::ascending(a@),
        sets::ascending(b@),
    ensures
        r == common(a@, b@, a@.len()),
{
    let mut size: usize = 0;
    let mut i: usize = 0;
    while i < a.len()
        invariant
            i <= a@.len(),
            sets::ascending(b@),
            size == common(a@, b@, i as nat),
            size <= i,
        decreases a@.len() - i,
    {
        let (p, found) = sets::position_of(b, a[i]);
        if found {
            size += 1;
        }
        i += 1;
    }
    size
}

proof fn lemma_common(a: Seq<usize>, b: Seq<usize>, k: nat)
    ensures
        common(a, b, k) <= k,
    decreases k,
{
    if k > 0 {
        lemma_common(a, b, (k - 1) as nat);
    }
}

/// How many variables two cliques share.
pub open spec fn weight(c: Seq<Vec<usize>>, i: usize, j: usize) -> nat {
    common(c[i as int]@, c[j as int]@, c[i as int]@.len())
}

/// Two different cliques that share a variable, in order.
pub open spec fn is_pair(c: Seq<Vec<usize>>, i: usize, j: usize) -> bool {
    i < j < c.len() && weight(c, i, j) > 0
}

/// A pair comes before a place: heavier pairs first, equally heavy ones by their
/// cliques.
pub open spec fn comes_first(c: Seq<Vec<usize>>, a: usize, b: usize, w: int, i: int, j: int) -> bool {
    weight(c, a, b) > w || (weight(c, a, b) == w && (a < i || (a == i && b < j)))
}

/// The links of a tree.
pub open spec fn tree_links(tree: Seq<(usize, usize)>) -> spec_fn(usize, usize) -> bool {
    |u: usize, v: usize| tree.contains((u, v)) || tree.contains((v, u))
}

/// The links of a tree that come before a pair.
pub open spec fn earlier_links(
    c: Seq<Vec<usize>>,
    tree: Seq<(usize, usize)>,
    i: usize,
    j: usize,
) -> spec_fn(usize, usize) -> bool {
    |u: usize, v: usize|
        (tree.contains((u, v)) && comes_first(c, u, v, weight(c, i, j) as int, i as int, j as int))
            || (tree.contains((v, u)) && comes_first(
            c,
            v,
            u,
            weight(c, i, j) as int,
            i as int,
            j as int,
        ))
}

/// A pair belongs to the tree exactly when its cliques are not connected by pairs
/// of the tree that come before it.
pub open spec fn is_tree_choice(
    c: Seq<Vec<usize>>,
    tree: Seq<(usize, usize)>,
    i: usize,
    j: usize,
) -> bool {
    tree.contains((i, j)) == !reach::connected(earlier_links(c, tree, i, j), i, j)
}

/// The pairs come heavier ones first, equally heavy ones by their cliques, none
/// twice.
pub open spec fn is_in_order(c: Seq<Vec<usize>>, tree: Seq<(usize, usize)>) -> bool {
    forall|k: int, l: int|
        0 <= k < l < tree.len() ==> comes_first(
            c,
            (#[trigger] tree[k]).0,
            tree[k].1,
            weight(c, (#[trigger] tree[l]).0, tree[l].1) as int,
            tree[l].0 as int,
            tree[l].1 as int,
        )
}

/// The tree of greatest weight over cliques that share variables (one tree for
/// each connected part): taken from the heaviest pair on, every pair belongs to it
/// that joins parts not yet connected.
pub open spec fn is_clique_tree(c: Seq<Vec<usize>>, tree: Seq<(usize, usize)>) -> bool {
    &&& is_in_order(c, tree)
    &&& forall|k: int|
        0 <= k < tree.len() ==> is_pair(c, (#[trigger] tree[k]).0, tree[k].1)
    &&& forall|i: usize, j: usize|
        is_pair(c, i, j) ==> #[trigger] is_tree_choice(c, tree, i, j)
}

/// The links of a tree between cliques of a variable.
pub open spec fn owner_links(
    c: Seq<Vec<usize>>,
    tree: Seq<(usize, usize)>,
    v: usize,
) -> spec_fn(usize, usize) -> bool {
    |i: usize, j: usize|
        i < c.len() && j < c.len() && c[i as int]@.contains(v) && c[j as int]@.contains(v)
            && tree_links(tree)(i, j)
}

/// The cliques of every variable are connected in the tree by cliques of that
/// variable.
pub open spec fn owners_are_connected(c: Seq<Vec<usize>>, tree: Seq<(usize, usize)>) -> bool {
    forall|v: usize, i: usize, j: usize|
        i < c.len() && j < c.len() && #[trigger] c[i as int]@.contains(v)
            && #[trigger] c[j as int]@.contains(v) ==> reach::connected(
            owner_links(c, tree, v),
            i,
            j,
        )
}

/// The cliques of every variable are connected in the clique tree.
pub open spec fn is_running_intersection(cliques: Seq<Vec<usize>>) -> bool {
    exists|tree: Seq<(usize, usize)>| #[trigger]
        is_clique_tree(cliques, tree) && owners_are_connected(cliques, tree)
}

/// Two clique trees hold the same pairs.
proof fn lemma_tree_unique(
    c: Seq<Vec<usize>>,
    s: Seq<(usize, usize)>,
    t: Seq<(usize, usize)>,
    top: nat,
    i: usize,
    j: usize,
)
    requires
        is_clique_tree(c, s),
        is_clique_tree(c, t),
        is_pair(c, i, j),
        forall|a: usize, b: usize| #[trigger] is_pair(c, a, b) ==> weight(c, a, b) <= top,
    ensures
        s.contains((i, j)) == t.contains((i, j)),
    decreases top - weight(c, i, j), i, j,
{
    let w = weight(c, i, j) as int;
    assert forall|a: usize, b: usize|
        is_pair(c, a, b) && #[trigger] comes_first(c, a, b, w, i as int, j as int) implies s.contains(
        (a, b),
    ) == t.contains((a, b)) by {
        lemma_tree_unique(c, s, t, top, a, b);
    }
    let ls = earlier_links(c, s, i, j);
    let lt = earlier_links(c, t, i, j);
    assert forall|u: usize, v: usize| #[trigger] ls(u, v) == lt(u, v) by {
        lemma_tree_pair(c, s, u, v);
        lemma_tree_pair(c, s, v, u);
        lemma_tree_pair(c, t, u, v);
        lemma_tree_pair(c, t, v, u);
    }
    assert forall|u: usize, v: usize| #[trigger] lt(u, v) == ls(u, v) by {
        assert(ls(u, v) == lt(u, v));
    }
    if reach::connected(ls, i, j) {
        reach::lemma_connected_mono(ls, lt, i, j);
    }
    if reach::connected(lt, i, j) {
        reach::lemma_connected_mono(lt, ls, i, j);
    }
    assert(is_tree_choice(c, s, i, j) && is_tree_choice(c, t, i, j));
}

proof fn lemma_tree_pair(c: Seq<Vec<usize>>, t: Seq<(usize, usize)>, u: usize, v: usize)
    requires
        is_clique_tree(c, t),
    ensures
        t.contains((u, v)) ==> is_pair(c, u, v),
{
    if t.contains((u, v)) {
        let k = choose|k: int| 0 <= k < t.len() && t[k] == (u, v);
        assert(is_pair(c, t[k].0, t[k].1));
    }
}

/// The part of the clique tree before a place, with the classes that it connects.
spec fn is_built(
    c: Seq<Vec<usize>>,
    tree: Seq<(usize, usize)>,
    uf: UnionFind,
    w: int,
    i: int,
    j: int,
) -> bool {
    &&& uf.wf()
    &&& uf.n() == c.len()
    &&& is_in_order(c, tree)
    &&& forall|k: int|
        0 <= k < tree.len() ==> is_pair(c, (#[trigger] tree[k]).0, tree[k].1) && comes_first(
            c,
            tree[k].0,
            tree[k].1,
            w,
            i,
            j,
        )
    &&& forall|a: usize, b: usize|
        is_pair(c, a, b) && comes_first(c, a, b, w, i, j) ==> #[trigger] is_tree_choice(
            c,
            tree,
            a,
            b,
        )
    &&& forall|u: usize, v: usize| #[trigger] tree_links(tree)(u, v) ==> uf.same(u, v)
    &&& forall|u: usize, v: usize| #[trigger]
        uf.same(u, v) ==> reach::connected(tree_links(tree), u, v)
}

/// Places that the same pairs come before are alike.
proof fn lemma_move_on(
    c: Seq<Vec<usize>>,
    tree: Seq<(usize, usize)>,
    uf: UnionFind,
    w: int,
    i: int,
    j: int,
    w2: int,
    i2: int,
    j2: int,
)
    requires
        is_built(c, tree, uf, w, i, j),
        forall|a: usize, b: usize| #[trigger]
            is_pair(c, a, b) ==> comes_first(c, a, b, w, i, j) == comes_first(c, a, b, w2, i2, j2),
    ensures
        is_built(c, tree, uf, w2, i2, j2),
{
}

proof fn lemma_links_symmetric(tree: Seq<(usize, usize)>)
    ensures
        reach::symmetric(tree_links(tree)),
{
    let link = tree_links(tree);
    assert forall|u: usize, v: usize| #[trigger] link(u, v) implies link(v, u) by {
    }
}

/// All links of a tree that is built up to a pair come before the pair.
proof fn lemma_all_earlier(
    c: Seq<Vec<usize>>,
    tree: Seq<(usize, usize)>,
    uf: UnionFind,
    i: usize,
    j: usize,
)
    requires
        is_pair(c, i, j),
        is_built(c, tree, uf, weight(c, i, j) as int, i as int, j as int),
    ensures
        reach::connected(earlier_links(c, tree, i, j), i, j) == uf.same(i, j),
{
    let all = tree_links(tree);
    let early = earlier_links(c, tree, i, j);
    let w = weight(c, i, j) as int;
    assert forall|u: usize, v: usize| #[trigger] early(u, v) == all(u, v) by {
        if tree.contains((u, v)) {
            let k = choose|k: int| 0 <= k < tree.len() && tree[k] == (u, v);
            assert(comes_first(c, tree[k].0, tree[k].1, w, i as int, j as int));
        }
        if tree.contains((v, u)) {
            let k = choose|k: int| 0 <= k < tree.len() && tree[k] == (v, u);
            assert(comes_first(c, tree[k].0, tree[k].1, w, i as int, j as int));
        }
    }
    assert forall|u: usize, v: usize| #[trigger] all(u, v) == early(u, v) by {
        assert(early(u, v) == all(u, v));
    }
    if reach::connected(early, i, j) {
        reach::lemma_connected_mono(early, all, i, j);
    }
    if reach::connected(all, i, j) {
        reach::lemma_connected_mono(all, early, i, j);
    }
    reach::lemma_classes_connected(all, uf);
}

/// A pair that is added changes no choice that comes before it.
proof fn lemma_choice_kept(
    c: Seq<Vec<usize>>,
    tree: Seq<(usize, usize)>,
    i: usize,
    j: usize,
    a: usize,
    b: usize,
)
    requires
        is_pair(c, i, j),
        is_pair(c, a, b),
        comes_first(c, a, b, weight(c, i, j) as int, i as int, j as int),
        is_tree_choice(c, tree, a, b),
    ensures
        is_tree_choice(c, tree.push((i, j)), a, b),
{
    let t = tree.push((i, j));
    let before = earlier_links(c, tree, a, b);
    let after = earlier_links(c, t, a, b);
    assert forall|u: usize, v: usize| (u, v) != (i, j) implies #[trigger] t.contains((u, v))
        == tree.contains((u, v)) by {
        lemma_push_pair(tree, (i, j), (u, v));
    }
    assert forall|u: usize, v: usize| #[trigger] before(u, v) == after(u, v) by {
        lemma_push_pair(tree, (i, j), (u, v));
        lemma_push_pair(tree, (i, j), (v, u));
    }
    assert forall|u: usize, v: usize| #[trigger] after(u, v) == before(u, v) by {
        assert(before(u, v) == after(u, v));
    }
    if reach::connected(before, a, b) {
        reach::lemma_connected_mono(before, after, a, b);
    }
    if reach::connected(after, a, b) {
        reach::lemma_connected_mono(after, before, a, b);
    }
    lemma_push_pair(tree, (i, j), (a, b));
}

proof fn lemma_push_pair(tree: Seq<(usize, usize)>, e: (usize, usize), f: (usize, usize))
    ensures
        tree.push(e).contains(f) == (tree.contains(f) || f == e),
{
    let t = tree.push(e);
    if tree.contains(f) {
        let k = choose|k: int| 0 <= k < tree.len() && tree[k] == f;
        assert(t[k] == f);
    }
    if f == e {
        assert(t[tree.len() as int] == f);
    }
    if t.contains(f) && f != e {
        let k = choose|k: int| 0 <= k < t.len() && t[k] == f;
        assert(tree[k] == f);
    }
}

/// Take a pair into the tree if it joins two parts.
fn consider(
    cliques: &Vec<Vec<usize>>,
    uf: &mut UnionFind,
    tree: &mut Vec<(usize, usize)>,
    w: usize,
    i: usize,
    j: usize,
)
    requires
        forall|k: int| 0 <= k < cliques@.len() ==> sets::ascending((#[trigger] cliques@[k])@),
        w > 0,
        i < j < cliques@.len(),
        is_built(cliques@, old(tree)@, *old(uf), w as int, i as int, j as int),
    ensures
        is_built(cliques@, final(tree)@, *final(uf), w as int, i as int, j + 1),
{
    let ghost c = cliques@;
    let ghost t0 = tree@;
    let ghost u0 = *uf;
    assert(sets::ascending(c[i as int]@) && sets::ascending(c[j as int]@));
    if intersection_size(cliques[i].as_slice(), cliques[j].as_slice()) != w {
        proof {
            lemma_move_on(c, t0, u0, w as int, i as int, j as int, w as int, i as int, j + 1);
        }
        return;
    }
    assert(is_pair(c, i, j));
    proof {
        lemma_all_earlier(c, t0, u0, i, j);
        if t0.contains((i, j)) {
            let k = choose|k: int| 0 <= k < t0.len() && t0[k] == (i, j);
            assert(comes_first(c, t0[k].0, t0[k].1, w as int, i as int, j as int));
        }
    }
    let joined: bool = uf.union(i, j);
    if joined {
        tree.push((i, j));
        proof {
            let t = tree@;
            assert(t == t0.push((i, j)));
            lemma_push_pair(t0, (i, j), (i, j));
            assert(is_in_order(c, t)) by {
                assert forall|k: int, l: int| 0 <= k < l < t.len() implies comes_first(
                    c,
                    (#[trigger] t[k]).0,
                    t[k].1,
                    weight(c, (#[trigger] t[l]).0, t[l].1) as int,
                    t[l].0 as int,
                    t[l].1 as int,
                ) by {
                    assert(t[k] == t0[k]);
                    if l < t0.len() {
                        assert(t[l] == t0[l]);
                    }
                }
            }
            assert forall|a: usize, b: usize|
                is_pair(c, a, b) && comes_first(
                    c,
                    a,
                    b,
                    w as int,
                    i as int,
                    j + 1,
                ) implies #[trigger] is_tree_choice(c, t, a, b) by {
                if (a, b) == (i, j) {
                    lemma_choice_made(c, t0, i, j);
                } else {
                    assert(is_tree_choice(c, t0, a, b));
                    lemma_choice_kept(c, t0, i, j, a, b);
                }
            }
            let before = tree_links(t0);
            let link = tree_links(t);
            assert forall|u: usize, v: usize| #[trigger] link(u, v) implies uf.same(u, v) by {
                lemma_push_pair(t0, (i, j), (u, v));
                lemma_push_pair(t0, (i, j), (v, u));
                if before(u, v) {
                    assert(u0.same(u, v));
                }
            }
            assert forall|u: usize, v: usize| #[trigger] before(u, v) implies link(u, v) by {
                lemma_push_pair(t0, (i, j), (u, v));
                lemma_push_pair(t0, (i, j), (v, u));
            }
            assert forall|u: usize, v: usize| #[trigger] u0.same(u, v) implies reach::connected(
                link,
                u,
                v,
            ) by {
                reach::lemma_connected_mono(before, link, u, v);
            }
            lemma_links_symmetric(t);
            assert(link(i, j));
            reach::lemma_union_connected(link, u0, *uf, i, j);
        }
    } else {
        proof {
            assert forall|a: usize, b: usize|
                is_pair(c, a, b) && comes_first(
                    c,
                    a,
                    b,
                    w as int,
                    i as int,
                    j + 1,
                ) implies #[trigger] is_tree_choice(c, t0, a, b) by {
                if (a, b) != (i, j) {
                    assert(comes_first(c, a, b, w as int, i as int, j as int));
                }
            }
            assert forall|u: usize, v: usize| #[trigger] uf.same(u, v) == u0.same(u, v) by {
            }
        }
    }
}

/// A pair that is not connected by the tree so far is chosen.
proof fn lemma_choice_made(c: Seq<Vec<usize>>, tree: Seq<(usize, usize)>, i: usize, j: usize)
    requires
        is_pair(c, i, j),
        !reach::connected(earlier_links(c, tree, i, j), i, j),
    ensures
        is_tree_choice(c, tree.push((i, j)), i, j),
{
    let t = tree.push((i, j));
    let before = earlier_links(c, tree, i, j);
    let after = earlier_links(c, t, i, j);
    assert forall|u: usize, v: usize| #[trigger] after(u, v) implies before(u, v) by {
        lemma_push_pair(tree, (i, j), (u, v));
        lemma_push_pair(tree, (i, j), (v, u));
    }
    if reach::connected(after, i, j) {
        reach::lemma_connected_mono(after, before, i, j);
    }
    lemma_push_pair(tree, (i, j), (i, j));
}

/// The tree of greatest weight over the cliques.
pub fn clique_tree(cliques: &Vec<Vec<usize>>) -> (tree: Vec<(usize, usize)>)
    requires
        forall|i: int| 0 <= i < cliques@.len() ==> sets::ascending((#[trigger] cliques@[i])@),
    ensures
        is_clique_tree(cliques@, tree@),
{
    let ghost c = cliques@;
    let n: usize = cliques.len();
    let top: usize = largest_clique(cliques);
    let mut uf = UnionFind::new(n);
    let mut tree: Vec<(usize, usize)> = Vec::new();
    let mut w: usize = top;
    proof {
        assert forall|a: usize, b: usize| #[trigger] is_pair(c, a, b) implies weight(c, a, b)
            <= top by {
            lemma_common(c[a as int]@, c[b as int]@, c[a as int]@.len());
        }
        let link = tree_links(tree@);
        assert forall|u: usize, v: usize| #[trigger] uf.same(u, v) implies reach::connected(
            link,
            u,
            v,
        ) by {
            reach::lemma_connected_self(link, u);
        }
    }
    assert(is_built(c, tree@, uf, w as int, 0, 0));
    while w > 0
        invariant
            c == cliques@,
            n == c.len(),
            forall|i: int| 0 <= i < c.len() ==> sets::ascending((#[trigger] c[i])@),
            is_built(c, tree@, uf, w as int, 0, 0),
        decreases w,
    {
        let mut i: usize = 0;
        while i < n
            invariant
                i <= n,
                w > 0,
                c == cliques@,
                n == c.len(),
                forall|i: int| 0 <= i < c.len() ==> sets::ascending((#[trigger] c[i])@),
                is_built(c, tree@, uf, w as int, i as int, 0),
            decreases n - i,
        {
            let mut j: usize = i + 1;
            proof {
                lemma_move_on(c, tree@, uf, w as int, i as int, 0, w as int, i as int, i + 1);
            }
            while j < n
                invariant
                    i < j <= n,
                    w > 0,
                    c == cliques@,
                    n == c.len(),
                    forall|i: int| 0 <= i < c.len() ==> sets::ascending((#[trigger] c[i])@),
                    is_built(c, tree@, uf, w as int, i as int, j as int),
                decreases n - j,
            {
                consider(cliques, &mut uf, &mut tree, w, i, j);
                j += 1;
            }
            proof {
                lemma_move_on(c, tree@, uf, w as int, i as int, n as int, w as int, i + 1, 0);
            }
            i += 1;
        }
        proof {
            lemma_move_on(c, tree@, uf, w as int, n as int, 0, w - 1, 0, 0);
        }
        w -= 1;
    }
    tree
}

/// The size of the largest clique.
fn largest_clique(cliques: &Vec<Vec<usize>>) -> (r: usize)
    ensures
        forall|k: int| 0 <= k < cliques@.len() ==> (#[trigger] cliques@[k])@.len() <= r,
{
    let mut r: usize = 0;
    let mut i: usize = 0;
    while i < cliques.len()
        invariant
            i <= cliques@.len(),
            forall|k: int| 0 <= k < i ==> (#[trigger] cliques@[k])@.len() <= r,
        decreases cliques@.len() - i,
    {
        if cliques[i].len() > r {
            r = cliques[i].len();
        }
        i += 1;
    }
    r
}

/// The classes of cliques of a variable that the tree connects.
fn owner_classes(cliques: &Vec<Vec<usize>>, tree: &Vec<(usize, usize)>, v: usize) -> (uf: UnionFind)
    requires
        forall|k: int|
            0 <= k < tree@.len() ==> (#[trigger] tree@[k]).0 < cliques@.len() && tree@[k].1
                < cliques@.len(),
    ensures
        uf.wf(),
        uf.n() == cliques@.len(),
        forall|i: usize, j: usize|
            i < cliques@.len() && j < cliques@.len() ==> #[trigger] uf.same(i, j)
                == reach::connected(owner_links(cliques@, tree@, v), i, j),
{
    let ghost c = cliques@;
    let ghost link = owner_links(c, tree@, v);
    let mut uf = UnionFind::new(cliques.len());
    proof {
        assert forall|i: usize, j: usize| #[trigger] uf.same(i, j) implies reach::connected(
            link,
            i,
            j,
        ) by {
            reach::lemma_connected_self(link, i);
        }
        assert forall|i: usize, j: usize| #[trigger] link(i, j) implies link(j, i) by {
        }
    }
    let mut k: usize = 0;
    while k < tree.len()
        invariant
            k <= tree@.len(),
            c == cliques@,
            link == owner_links(c, tree@, v),
            reach::symmetric(link),
            forall|k: int|
                0 <= k < tree@.len() ==> (#[trigger] tree@[k]).0 < c.len() && tree@[k].1 < c.len(),
            uf.wf(),
            uf.n() == c.len(),
            forall|q: int|
                0 <= q < k && c[(#[trigger] tree@[q]).0 as int]@.contains(v)
                    && c[tree@[q].1 as int]@.contains(v) ==> uf.same(tree@[q].0, tree@[q].1),
            forall|i: usize, j: usize| #[trigger] uf.same(i, j) ==> reach::connected(link, i, j),
            forall|i: usize| i < c.len() ==> #[trigger] uf.same(i, i),
        decreases tree@.len() - k,
    {
        let (a, b) = tree[k];
        assert(tree@[k as int].0 < c.len());
        if sets::member(cliques[a].as_slice(), v) && sets::member(cliques[b].as_slice(), v) {
            let ghost u0 = uf;
            let joined: bool = uf.union(a, b);
            proof {
                assert(tree@.contains((a, b))) by {
                    assert(tree@[k as int] == (a, b));
                }
                assert(link(a, b));
                reach::lemma_union_connected(link, u0, uf, a, b);
                assert forall|q: int|
                    0 <= q < k + 1 && c[(#[trigger] tree@[q]).0 as int]@.contains(v)
                        && c[tree@[q].1 as int]@.contains(v) implies uf.same(
                    tree@[q].0,
                    tree@[q].1,
                ) by {
                    if q < k {
                        assert(u0.same(tree@[q].0, tree@[q].1));
                    } else {
                        assert(u0.same(a, a) && u0.same(b, b));
                    }
                }
                assert forall|i: usize| i < c.len() implies #[trigger] uf.same(i, i) by {
                    assert(u0.same(i, i));
                }
            }
        }
        k += 1;
    }
    proof {
        assert forall|i: usize, j: usize| #[trigger] link(i, j) implies uf.same(i, j) by {
            if tree@.contains((i, j)) {
                let q = choose|q: int| 0 <= q < tree@.len() && tree@[q] == (i, j);
                assert(uf.same(tree@[q].0, tree@[q].1));
            } else {
                let q = choose|q: int| 0 <= q < tree@.len() && tree@[q] == (j, i);
                assert(uf.same(tree@[q].0, tree@[q].1));
            }
        }
        reach::lemma_classes_connected(link, uf);
    }
    uf
}

/// Whether the cliques of a variable are connected in the tree by cliques of that
/// variable.
fn variable_is_connected(cliques: &Vec<Vec<usize>>, tree: &Vec<(usize, usize)>, v: usize, i: usize) -> (r:
    bool)
    requires
        forall|k: int|
            0 <= k < tree@.len() ==> (#[trigger] tree@[k]).0 < cliques@.len() && tree@[k].1
                < cliques@.len(),
        i < cliques@.len(),
    ensures
        r == forall|j: usize|
            j < cliques@.len() && #[trigger] cliques@[j as int]@.contains(v) ==> reach::connected(
                owner_links(cliques@, tree@, v),
                i,
                j,
            ),
{
    let uf = owner_classes(cliques, tree, v);
    let mut j: usize = 0;
    while j < cliques.len()
        invariant
            j <= cliques@.len(),
            i < cliques@.len(),
            uf.wf(),
            uf.n() == cliques@.len(),
            forall|i: usize, j: usize|
                i < cliques@.len() && j < cliques@.len() ==> #[trigger] uf.same(i, j)
                    == reach::connected(owner_links(cliques@, tree@, v), i, j),
            forall|q: usize|
                q < j && #[trigger] cliques@[q as int]@.contains(v) ==> reach::connected(
                    owner_links(cliques@, tree@, v),
                    i,
                    q,
                ),
        decreases cliques@.len() - j,
    {
        if sets::member(cliques[j].as_slice(), v) && uf.find(i) != uf.find(j) {
            assert(!uf.same(i, j));
            return false;
        }
        assert(cliques@[j as int]@.contains(v) ==> uf.same(i, j));
        j += 1;
    }
    true
}

/// Whether the cliques of every variable are connected in the clique tree.
pub fn running_intersection_holds(cliques: &Vec<Vec<usize>>) -> (r: bool)
    requires
        forall|i: int| 0 <= i < cliques@.len() ==> sets::ascending((#[trigger] cliques@[i])@),
    ensures
        r == is_running_intersection(cliques@),
{
    let ghost c = cliques@;
    let tree = clique_tree(cliques);
    let top: usize = largest_clique(cliques);
    proof {
        assert forall|k: int| 0 <= k < tree@.len() implies (#[trigger] tree@[k]).0 < c.len()
            && tree@[k].1 < c.len() by {
            assert(is_pair(c, tree@[k].0, tree@[k].1));
        }
    }
    let mut i: usize = 0;
    while i < cliques.len()
        invariant
            i <= c.len(),
            c == cliques@,
            is_clique_tree(c, tree@),
            forall|k: int| 0 <= k < c.len() ==> (#[trigger] c[k])@.len() <= top,
            forall|k: int|
                0 <= k < tree@.len() ==> (#[trigger] tree@[k]).0 < c.len() && tree@[k].1 < c.len(),
            forall|v: usize, a: usize, b: usize|
                a < i && b < c.len() && #[trigger] c[a as int]@.contains(v)
                    && #[trigger] c[b as int]@.contains(v) ==> reach::connected(
                    owner_links(c, tree@, v),
                    a,
                    b,
                ),
        decreases c.len() - i,
    {
        let mut p: usize = 0;
        while p < cliques[i].len()
            invariant
                i < c.len(),
                p <= c[i as int]@.len(),
                c == cliques@,
                is_clique_tree(c, tree@),
                forall|k: int| 0 <= k < c.len() ==> (#[trigger] c[k])@.len() <= top,
                forall|k: int|
                    0 <= k < tree@.len() ==> (#[trigger] tree@[k]).0 < c.len() && tree@[k].1
                        < c.len(),
                forall|q: int, b: usize|
                    0 <= q < p && b < c.len() && #[trigger] c[b as int]@.contains(
                        #[trigger] c[i as int]@[q],
                    ) ==> reach::connected(owner_links(c, tree@, c[i as int]@[q]), i, b),
            decreases c[i as int]@.len() - p,
        {
            let v: usize = cliques[i][p];
            if !variable_is_connected(cliques, &tree, v, i) {
                proof {
                    let b = choose|b: usize|
                        b < c.len() && #[trigger] c[b as int]@.contains(v) && !reach::connected(
                            owner_links(c, tree@, v),
                            i,
                            b,
                        );
                    assert(c[i as int]@[p as int] == v);
                    assert(c[i as int]@.contains(v));
                    assert forall|t: Seq<(usize, usize)>| #[trigger] is_clique_tree(c, t) implies !owners_are_connected(
                        c,
                        t,
                    ) by {
                        lemma_same_owners(c, t, tree@, top as nat, v, i, b);
                    }
                }
                return false;
            }
            p += 1;
        }
        proof {
            assert forall|v: usize, a: usize, b: usize|
                a < i + 1 && b < c.len() && #[trigger] c[a as int]@.contains(v)
                    && #[trigger] c[b as int]@.contains(v) implies reach::connected(
                owner_links(c, tree@, v),
                a,
                b,
            ) by {
                if a == i {
                    let q = choose|q: int| 0 <= q < c[i as int]@.len() && c[i as int]@[q] == v;
                    assert(c[b as int]@.contains(c[i as int]@[q]));
                }
            }
        }
        i += 1;
    }
    assert(owners_are_connected(c, tree@));
    true
}

/// What one clique tree connects every one does.
proof fn lemma_same_owners(
    c: Seq<Vec<usize>>,
    s: Seq<(usize, usize)>,
    t: Seq<(usize, usize)>,
    top: nat,
    v: usize,
    i: usize,
    j: usize,
)
    requires
        is_clique_tree(c, s),
        is_clique_tree(c, t),
        forall|k: int| 0 <= k < c.len() ==> (#[trigger] c[k])@.len() <= top,
    ensures
        reach::connected(owner_links(c, s, v), i, j) ==> reach::connected(
            owner_links(c, t, v),
            i,
            j,
        ),
{
    let ls = owner_links(c, s, v);
    let lt = owner_links(c, t, v);
    assert forall|a: usize, b: usize| #[trigger] is_pair(c, a, b) implies weight(c, a, b) <= top by {
        lemma_common(c[a as int]@, c[b as int]@, c[a as int]@.len());
    }
    assert forall|a: usize, b: usize| #[trigger] ls(a, b) implies lt(a, b) by {
        lemma_tree_pair(c, s, a, b);
        lemma_tree_pair(c, s, b, a);
        if s.contains((a, b)) {
            lemma_tree_unique(c, s, t, top, a, b);
        } else {
            lemma_tree_unique(c, s, t, top, b, a);
        }
    }
    if reach::connected(ls, i, j) {
        reach::lemma_connected_mono(ls, lt, i, j);
    }
}

/// The place of entry `(i, j)` of a lower triangle, row by row.
pub open spec fn tri_place(i: int, j: int) -> int {
    i * (i + 1) / 2 + j
}

/// The place of entry `(i, j)` of a lower triangle, row by row.
pub fn tri_index(i: usize, j: usize) -> (r: usize)
    requires
        j <= i,
        tri_place(i as int, j as int) <= usize::MAX,
    ensures
        r == tri_place(i as int, j as int),
{
    let a: u128 = i as u128;
    assert(a * (a + 1) <= u64::MAX * (u64::MAX + 1)) by (nonlinear_arith)
        requires
            0 <= a <= u64::MAX,
    ;
    (a * (a + 1) / 2 + j as u128) as usize
}

/// The rows of a lower triangle follow one another without gap.
pub proof fn triangle_has_no_gaps(i: int)
    requires
        i >= 0,
    ensures
        tri_place(i, i) + 1 == tri_place(i + 1, 0),
        tri_place(0, 0) == 0,
{
    assert((i + 1) * (i + 2) == i * (i + 1) + 2 * (i + 1)) by (nonlinear_arith);
    assert(0 * (0 + 1) == 0);
}

} // verus!
