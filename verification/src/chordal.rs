//! Chordal completion of a graph by minimum fill, and its cliques.

use vstd::prelude::*;

verus! {

/// A chordal completion with its elimination order and cliques.
#[derive(Debug)]
pub struct ChordalSdpDecomposition {
    pub n_vars: usize,
    pub peo: Vec<usize>,
    pub fill_edges: Vec<(usize, usize)>,
    pub maximal_cliques: Vec<Vec<usize>>,
    pub rip_holds: bool,
}

/// The rows of an adjacency matrix.
pub open spec fn rows_of(adj: Seq<Vec<bool>>) -> Seq<Seq<bool>> {
    Seq::new(adj.len(), |i: int| adj[i]@)
}

/// A symmetric adjacency matrix of `n` vertices without loops.
pub open spec fn is_graph(a: Seq<Seq<bool>>, n: nat) -> bool {
    &&& a.len() == n
    &&& forall|x: int| 0 <= x < n ==> (#[trigger] a[x]).len() == n
    &&& forall|x: int, y: int| 0 <= x < n && 0 <= y < n ==> #[trigger] a[x][y] == a[y][x]
    &&& forall|x: int| 0 <= x < n ==> !#[trigger] a[x][x]
}

/// The graph of the listed edges.
pub open spec fn edge_graph(n: nat, edges: Seq<(usize, usize)>) -> Seq<Seq<bool>> {
    Seq::new(n, |x: int| Seq::new(n, |y: int| is_edge(edges, x, y)))
}

/// The edge is listed, in either direction.
pub open spec fn is_edge(edges: Seq<(usize, usize)>, x: int, y: int) -> bool {
    exists|e: int|
        0 <= e < edges.len() && ((#[trigger] edges[e] == (x as usize, y as usize)) || edges[e] == (
            y as usize,
            x as usize,
        ))
}

/// The vertices not among the first `k` of the order.
pub open spec fn alive_after(n: nat, order: Seq<usize>, k: nat) -> Seq<bool> {
    Seq::new(n, |x: int| !order.take(k as int).contains(x as usize))
}

/// `x` is a neighbour of `v` that is still there.
pub open spec fn is_neighbour(a: Seq<Seq<bool>>, alive: Seq<bool>, v: int, x: int) -> bool {
    alive[x] && a[v][x]
}

/// The graph after the neighbours of `v` that are still there were joined.
pub open spec fn joined(a: Seq<Seq<bool>>, alive: Seq<bool>, v: int) -> Seq<Seq<bool>> {
    Seq::new(
        a.len(),
        |x: int|
            Seq::new(
                a.len(),
                |y: int|
                    a[x][y] || (x != y && is_neighbour(a, alive, v, x) && is_neighbour(
                        a,
                        alive,
                        v,
                        y,
                    )),
            ),
    )
}

/// The graph after the first `k` vertices of the order were eliminated.
pub open spec fn eliminated(a: Seq<Seq<bool>>, order: Seq<usize>, k: nat) -> Seq<Seq<bool>>
    decreases k,
{
    if k == 0 {
        a
    } else {
        let b = eliminated(a, order, (k - 1) as nat);
        joined(b, alive_after(a.len(), order, (k - 1) as nat), order[k - 1] as int)
    }
}

/// How many of the first `k` vertices are neighbours of `v`.
pub open spec fn degree(a: Seq<Seq<bool>>, alive: Seq<bool>, v: int, k: nat) -> nat
    decreases k,
{
    if k == 0 {
        0
    } else {
        degree(a, alive, v, (k - 1) as nat) + (if is_neighbour(a, alive, v, k - 1) {
            1nat
        } else {
            0nat
        })
    }
}

/// How many of the first `k` vertices are neighbours of `v` not joined to `y`.
pub open spec fn missing_to(
    a: Seq<Seq<bool>>,
    alive: Seq<bool>,
    v: int,
    y: int,
    k: nat,
) -> nat
    decreases k,
{
    if k == 0 {
        0
    } else {
        missing_to(a, alive, v, y, (k - 1) as nat) + (if is_neighbour(a, alive, v, k - 1) && !a[k
            - 1][y] {
            1nat
        } else {
            0nat
        })
    }
}

/// How many pairs of neighbours of `v` among the first `k` vertices are not
/// joined.
pub open spec fn fill_count(a: Seq<Seq<bool>>, alive: Seq<bool>, v: int, k: nat) -> nat
    decreases k,
{
    if k == 0 {
        0
    } else {
        fill_count(a, alive, v, (k - 1) as nat) + (if is_neighbour(a, alive, v, k - 1) {
            missing_to(a, alive, v, k - 1, (k - 1) as nat)
        } else {
            0
        })
    }
}

/// Eliminating `u` joins fewer pairs than eliminating `v`, or as many at a lower
/// degree.
pub open spec fn is_cheaper(a: Seq<Seq<bool>>, alive: Seq<bool>, u: int, v: int) -> bool {
    let n = a.len();
    ||| fill_count(a, alive, u, n) < fill_count(a, alive, v, n)
    ||| fill_count(a, alive, u, n) == fill_count(a, alive, v, n) && degree(a, alive, u, n) < degree(
        a,
        alive,
        v,
        n,
    )
}

/// `v` is the first cheapest of the first `k` vertices.
pub open spec fn is_next(a: Seq<Seq<bool>>, alive: Seq<bool>, k: nat, v: int) -> bool {
    &&& 0 <= v < k
    &&& alive[v]
    &&& forall|u: int| 0 <= u < k && #[trigger] alive[u] ==> !is_cheaper(a, alive, u, v)
    &&& forall|u: int| 0 <= u < v && #[trigger] alive[u] ==> is_cheaper(a, alive, v, u)
}

/// Each vertex of the order is the cheapest to eliminate after those before it.
pub open spec fn is_min_fill_order(a: Seq<Seq<bool>>, order: Seq<usize>) -> bool {
    forall|i: int|
        0 <= i < order.len() ==> is_next(
            eliminated(a, order, i as nat),
            alive_after(a.len(), order, i as nat),
            a.len(),
            (#[trigger] order[i]) as int,
        )
}

proof fn lemma_counts(a: Seq<Seq<bool>>, alive: Seq<bool>, v: int, y: int, k: nat)
    ensures
        degree(a, alive, v, k) <= k,
        missing_to(a, alive, v, y, k) <= k,
        fill_count(a, alive, v, k) <= k * k,
    decreases k,
{
    if k > 0 {
        lemma_counts(a, alive, v, y, (k - 1) as nat);
        lemma_counts(a, alive, v, k - 1, (k - 1) as nat);
        assert((k - 1) * (k - 1) + (k - 1) <= k * k) by (nonlinear_arith)
            requires
                k >= 1,
        ;
    }
}

/// The fill and the degree of a vertex.
fn fill_and_degree(adj: &Vec<Vec<bool>>, alive: &Vec<bool>, v: usize, n: usize) -> (r: (u128, usize))
    requires
        is_graph(rows_of(adj@), n as nat),
        alive@.len() == n,
        v < n,
    ensures
        r.0 == fill_count(rows_of(adj@), alive@, v as int, n as nat),
        r.1 == degree(rows_of(adj@), alive@, v as int, n as nat),
{
    let ghost a = rows_of(adj@);
    let mut fill: u128 = 0;
    let mut deg: usize = 0;
    let mut y: usize = 0;
    while y < n
        invariant
            y <= n,
            v < n,
            a == rows_of(adj@),
            is_graph(a, n as nat),
            adj@.len() == n,
            alive@.len() == n,
            fill == fill_count(a, alive@, v as int, y as nat),
            deg == degree(a, alive@, v as int, y as nat),
            deg <= y,
        decreases n - y,
    {
        assert(a[v as int].len() == n);
        if alive[y] && adj[v][y] {
            deg += 1;
            let mut missing: usize = 0;
            let mut x: usize = 0;
            while x < y
                invariant
                    x <= y < n,
                    v < n,
                    a == rows_of(adj@),
                    is_graph(a, n as nat),
                    adj@.len() == n,
                    alive@.len() == n,
                    missing == missing_to(a, alive@, v as int, y as int, x as nat),
                    missing <= x,
                decreases y - x,
            {
                assert(a[v as int].len() == n && a[x as int].len() == n);
                if alive[x] && adj[v][x] && !adj[x][y] {
                    missing += 1;
                }
                x += 1;
            }
            proof {
                lemma_counts(a, alive@, v as int, 0, (y + 1) as nat);
                assert((y + 1) * (y + 1) <= u128::MAX) by (nonlinear_arith)
                    requires
                        0 <= y < u64::MAX,
                ;
            }
            fill = fill + missing as u128;
        }
        y += 1;
    }
    (fill, deg)
}

/// Complete the graph by eliminating vertices in the order of minimum fill: the
/// completed graph, the order, and the edges that were added, in order.
pub fn min_fill_completion(n: usize, edges: &Vec<(usize, usize)>) -> (r: (
    Vec<Vec<bool>>,
    Vec<usize>,
    Vec<(usize, usize)>,
))
    requires
        forall|e: int|
            0 <= e < edges@.len() ==> (#[trigger] edges@[e]).0 < n && edges@[e].1 < n && edges@[e].0
                != edges@[e].1,
    ensures
        r.1@.len() == n,
        is_min_fill_order(edge_graph(n as nat, edges@), r.1@),
        rows_of(r.0@) == eliminated(edge_graph(n as nat, edges@), r.1@, n as nat),
        are_added(edge_graph(n as nat, edges@), rows_of(r.0@), r.2@),
        is_graph(rows_of(r.0@), n as nat),
        r.1@.no_duplicates(),
        forall|i: int| 0 <= i < n ==> (#[trigger] r.1@[i]) < n,
{
    let ghost g0 = edge_graph(n as nat, edges@);
    let start = adjacency(n, edges);
    let mut adj = adjacency(n, edges);
    let mut alive: Vec<bool> = Vec::new();
    while alive.len() < n
        invariant
            alive@.len() <= n,
            forall|i: int| 0 <= i < alive@.len() ==> #[trigger] alive@[i],
        decreases n - alive@.len(),
    {
        alive.push(true);
    }
    let mut order: Vec<usize> = Vec::new();
    proof {
        lemma_edge_graph(n as nat, edges@);
        assert(order@.take(0) =~= Seq::empty());
        assert(alive@ =~= alive_after(n as nat, order@, 0));
    }
    while order.len() < n
        invariant
            order@.len() <= n,
            g0.len() == n,
            is_graph(rows_of(adj@), n as nat),
            adj@.len() == n,
            alive@ == alive_after(n as nat, order@, order@.len()),
            rows_of(adj@) == eliminated(g0, order@, order@.len()),
            is_min_fill_order(g0, order@),
            order@.no_duplicates(),
            forall|i: int| 0 <= i < order@.len() ==> (#[trigger] order@[i]) < n,
        decreases n - order@.len(),
    {
        let ghost a = rows_of(adj@);
        let mut best: Option<usize> = None;
        let mut best_fill: u128 = 0;
        let mut best_deg: usize = 0;
        let mut v: usize = 0;
        while v < n
            invariant
                v <= n,
                a == rows_of(adj@),
                is_graph(a, n as nat),
                alive@.len() == n,
                best matches Some(b) ==> is_next(a, alive@, v as nat, b as int) && best_fill
                    == fill_count(a, alive@, b as int, n as nat) && best_deg == degree(
                    a,
                    alive@,
                    b as int,
                    n as nat,
                ),
                best is None ==> forall|u: int| 0 <= u < v ==> !#[trigger] alive@[u],
            decreases n - v,
        {
            if alive[v] {
                let (fill, deg) = fill_and_degree(&adj, &alive, v, n);
                let better: bool = match best {
                    None => true,
                    Some(_) => fill < best_fill || (fill == best_fill && deg < best_deg),
                };
                if better {
                    best = Some(v);
                    best_fill = fill;
                    best_deg = deg;
                }
            }
            v += 1;
        }
        proof {
            lemma_some_alive(n as nat, order@);
            let u = choose|u: int| 0 <= u < n && #[trigger] alive@[u];
            assert(alive@[u]);
        }
        let v: usize = match best {
            None => {
                return (adj, order, Vec::new());
            },
            Some(v) => v,
        };
        let ghost order0 = order@;
        let ghost alive0 = alive@;
        join_neighbours(&mut adj, &alive, v, n);
        alive.set(v, false);
        order.push(v);
        proof {
            let k = order0.len();
            assert(!order0.contains(v)) by {
                assert(alive0[v as int]);
                assert(order0.take(k as int) =~= order0);
            }
            lemma_prefix_same(g0, order0, v, k);
            assert(order@.take(k as int) =~= order0);
            assert(order@.take(order@.len() as int) =~= order@);
            assert(order0.take(k as int) =~= order0);
            assert(alive@ =~= alive_after(n as nat, order@, order@.len())) by {
                assert forall|x: int| 0 <= x < n implies alive@[x] == !order@.contains(
                    x as usize,
                ) by {
                    if order0.contains(x as usize) {
                        let j = choose|j: int| 0 <= j < order0.len() && order0[j] == x as usize;
                        assert(order@[j] == x as usize);
                    }
                    if x == v {
                        assert(order@[k as int] == x as usize);
                    } else if order@.contains(x as usize) {
                        let j = choose|j: int| 0 <= j < order@.len() && order@[j] == x as usize;
                        assert(order0[j] == x as usize);
                    }
                }
            }
            assert(alive_after(n as nat, order@, k) =~= alive0);
            assert(rows_of(adj@) == eliminated(g0, order@, order@.len()));
            assert forall|i: int| 0 <= i < order@.len() implies is_next(
                eliminated(g0, order@, i as nat),
                alive_after(g0.len(), order@, i as nat),
                g0.len(),
                (#[trigger] order@[i]) as int,
            ) by {
                if i < k {
                    lemma_prefix_same(g0, order0, v, i as nat);
                    assert(order@.take(i) =~= order0.take(i));
                    assert(alive_after(g0.len(), order@, i as nat) =~= alive_after(
                        g0.len(),
                        order0,
                        i as nat,
                    ));
                    assert(order@[i] == order0[i]);
                    assert(is_next(
                        eliminated(g0, order0, i as nat),
                        alive_after(g0.len(), order0, i as nat),
                        g0.len(),
                        order0[i] as int,
                    ));
                }
            }
            lemma_joined_graph(a, alive0, v as int, n as nat);
        }
    }
    let fill_edges = added_edges(&start, &adj, n);
    (adj, order, fill_edges)
}

/// The vertices that are eliminated leave one.
proof fn lemma_some_alive(n: nat, order: Seq<usize>)
    requires
        order.len() < n,
        n <= usize::MAX,
    ensures
        exists|u: int| 0 <= u < n && #[trigger] alive_after(n, order, order.len())[u],
{
    let k = order.len();
    assert(order.take(k as int) =~= order);
    if forall|u: int| 0 <= u < n ==> !#[trigger] alive_after(n, order, k)[u] {
        assert forall|u: usize| u < n implies #[trigger] order.contains(u) by {
            assert(!alive_after(n, order, k)[u as int]);
        }
        lemma_pigeon(order, n);
    }
}

/// A list that has all numbers below `n` has at least `n` entries.
proof fn lemma_pigeon(s: Seq<usize>, n: nat)
    requires
        forall|u: usize| u < n ==> #[trigger] s.contains(u),
        n <= usize::MAX,
    ensures
        s.len() >= n,
    decreases n,
{
    if n > 0 {
        let w = (n - 1) as usize;
        assert(s.contains(w));
        let p = choose|p: int| 0 <= p < s.len() && s[p] == w;
        let t = s.remove(p);
        assert forall|u: usize| u < n - 1 implies #[trigger] t.contains(u) by {
            assert(s.contains(u));
            let q = choose|q: int| 0 <= q < s.len() && s[q] == u;
            if q < p {
                assert(t[q] == u);
            } else {
                assert(t[q - 1] == u);
            }
        }
        lemma_pigeon(t, (n - 1) as nat);
    }
}

/// The elimination of a prefix does not depend on what comes later.
proof fn lemma_prefix_same(g: Seq<Seq<bool>>, order: Seq<usize>, v: usize, k: nat)
    requires
        k <= order.len(),
    ensures
        eliminated(g, order.push(v), k) == eliminated(g, order, k),
    decreases k,
{
    if k > 0 {
        lemma_prefix_same(g, order, v, (k - 1) as nat);
        assert(order.push(v).take(k - 1) =~= order.take(k - 1));
        assert(alive_after(g.len(), order.push(v), (k - 1) as nat) =~= alive_after(
            g.len(),
            order,
            (k - 1) as nat,
        ));
    }
}

proof fn lemma_joined_graph(a: Seq<Seq<bool>>, alive: Seq<bool>, v: int, n: nat)
    requires
        is_graph(a, n),
    ensures
        is_graph(joined(a, alive, v), n),
{
    let b = joined(a, alive, v);
    assert forall|x: int, y: int| 0 <= x < n && 0 <= y < n implies #[trigger] b[x][y] == b[y][x] by {
        assert(a[x][y] == a[y][x]);
    }
}

pub proof fn lemma_edge_graph(n: nat, edges: Seq<(usize, usize)>)
    requires
        n <= usize::MAX,
        forall|e: int|
            0 <= e < edges.len() ==> (#[trigger] edges[e]).0 < n && edges[e].1 < n && edges[e].0
                != edges[e].1,
    ensures
        is_graph(edge_graph(n, edges), n),
{
    let g = edge_graph(n, edges);
    assert forall|x: int, y: int| 0 <= x < n && 0 <= y < n implies #[trigger] g[x][y] == g[y][x] by {
        if is_edge(edges, x, y) {
            let e = choose|e: int|
                0 <= e < edges.len() && ((#[trigger] edges[e] == (x as usize, y as usize))
                    || edges[e] == (y as usize, x as usize));
            assert(edges[e] == edges[e]);
            assert(is_edge(edges, y, x));
        }
        if is_edge(edges, y, x) {
            let e = choose|e: int|
                0 <= e < edges.len() && ((#[trigger] edges[e] == (y as usize, x as usize))
                    || edges[e] == (x as usize, y as usize));
            assert(edges[e] == edges[e]);
            assert(is_edge(edges, x, y));
        }
    }
    assert forall|x: int| 0 <= x < n implies !#[trigger] g[x][x] by {
        if is_edge(edges, x, x) {
            let e = choose|e: int|
                0 <= e < edges.len() && ((#[trigger] edges[e] == (x as usize, x as usize))
                    || edges[e] == (x as usize, x as usize));
            assert(edges[e].0 != edges[e].1);
        }
    }
}

/// An adjacency matrix without edges.
fn empty_matrix(n: usize) -> (r: Vec<Vec<bool>>)
    ensures
        r@.len() == n,
        forall|x: int| 0 <= x < n ==> (#[trigger] r@[x])@.len() == n,
        forall|x: int, y: int| 0 <= x < n && 0 <= y < n ==> !#[trigger] r@[x]@[y],
{
    let mut m: Vec<Vec<bool>> = Vec::new();
    while m.len() < n
        invariant
            m@.len() <= n,
            forall|x: int| 0 <= x < m@.len() ==> (#[trigger] m@[x])@.len() == n,
            forall|x: int, y: int| 0 <= x < m@.len() && 0 <= y < n ==> !#[trigger] m@[x]@[y],
        decreases n - m@.len(),
    {
        let mut row: Vec<bool> = Vec::new();
        while row.len() < n
            invariant
                row@.len() <= n,
                forall|y: int| 0 <= y < row@.len() ==> !#[trigger] row@[y],
            decreases n - row@.len(),
        {
            row.push(false);
        }
        m.push(row);
    }
    m
}

/// The adjacency matrix of the listed edges.
fn adjacency(n: usize, edges: &Vec<(usize, usize)>) -> (r: Vec<Vec<bool>>)
    requires
        forall|e: int|
            0 <= e < edges@.len() ==> (#[trigger] edges@[e]).0 < n && edges@[e].1 < n,
    ensures
        rows_of(r@) == edge_graph(n as nat, edges@),
        r@.len() == n,
{
    let mut m = empty_matrix(n);
    let mut e: usize = 0;
    proof {
        assert forall|x: int, y: int| 0 <= x < n && 0 <= y < n implies !is_edge(
            edges@.take(0),
            x,
            y,
        ) by {}
    }
    while e < edges.len()
        invariant
            e <= edges@.len(),
            forall|q: int|
                0 <= q < edges@.len() ==> (#[trigger] edges@[q]).0 < n && edges@[q].1 < n,
            m@.len() == n,
            forall|x: int| 0 <= x < n ==> (#[trigger] m@[x])@.len() == n,
            forall|x: int, y: int|
                0 <= x < n && 0 <= y < n ==> #[trigger] m@[x]@[y] == is_edge(
                    edges@.take(e as int),
                    x,
                    y,
                ),
        decreases edges@.len() - e,
    {
        let (u, v) = edges[e];
        let ghost m0 = m@;
        assert(edges@[e as int].0 < n && edges@[e as int].1 < n);
        assert(m@[u as int]@.len() == n && m@[v as int]@.len() == n);
        m[u].set(v, true);
        let ghost m1 = m@;
        assert(m@[v as int]@.len() == n);
        m[v].set(u, true);
        proof {
            let a = edges@.take(e as int);
            let b = edges@.take(e + 1);
            assert forall|x: int, y: int| 0 <= x < n && 0 <= y < n implies #[trigger] m@[x]@[y]
                == is_edge(b, x, y) by {
                assert(m0[x]@[y] == is_edge(a, x, y));
                assert(m1[x]@[y] == (m0[x]@[y] || (x == u && y == v)));
                assert(m@[x]@[y] == (m1[x]@[y] || (x == v && y == u)));
                if is_edge(a, x, y) {
                    let q = choose|q: int|
                        0 <= q < a.len() && ((#[trigger] a[q] == (x as usize, y as usize)) || a[q]
                            == (y as usize, x as usize));
                    assert(b[q] == a[q]);
                }
                if (x == u && y == v) || (x == v && y == u) {
                    assert(b[e as int] == (u, v));
                }
                if is_edge(b, x, y) {
                    let q = choose|q: int|
                        0 <= q < b.len() && ((#[trigger] b[q] == (x as usize, y as usize)) || b[q]
                            == (y as usize, x as usize));
                    if q < e {
                        assert(a[q] == b[q]);
                    }
                }
            }
        }
        e += 1;
    }
    proof {
        assert(edges@.take(e as int) =~= edges@);
        let g = edge_graph(n as nat, edges@);
        assert forall|x: int| 0 <= x < n implies rows_of(m@)[x] == g[x] by {
            assert(m@[x]@.len() == n);
            assert(m@[x]@ =~= g[x]);
        }
        assert(rows_of(m@) =~= g);
    }
    m
}

/// Join the neighbours of `v`.
fn join_neighbours(adj: &mut Vec<Vec<bool>>, alive: &Vec<bool>, v: usize, n: usize)
    requires
        is_graph(rows_of(old(adj)@), n as nat),
        alive@.len() == n,
        v < n,
    ensures
        rows_of(final(adj)@) == joined(rows_of(old(adj)@), alive@, v as int),
        final(adj)@.len() == n,
{
    let ghost a = rows_of(adj@);
    let mut next = empty_matrix(n);
    let mut x: usize = 0;
    let ghost b = joined(a, alive@, v as int);
    while x < n
        invariant
            x <= n,
            v < n,
            a == rows_of(adj@),
            is_graph(a, n as nat),
            adj@.len() == n,
            alive@.len() == n,
            b == joined(a, alive@, v as int),
            next@.len() == n,
            forall|p: int| 0 <= p < n ==> (#[trigger] next@[p])@.len() == n,
            forall|p: int, q: int|
                0 <= p < x && 0 <= q < n ==> #[trigger] next@[p]@[q] == b[p][q],
        decreases n - x,
    {
        assert(a[v as int].len() == n && a[x as int].len() == n);
        let xn: bool = alive[x] && adj[v][x];
        let mut row: Vec<bool> = Vec::new();
        let mut y: usize = 0;
        while y < n
            invariant
                y <= n,
                x < n,
                v < n,
                a == rows_of(adj@),
                is_graph(a, n as nat),
                adj@.len() == n,
                a[v as int].len() == n,
                a[x as int].len() == n,
                alive@.len() == n,
                b == joined(a, alive@, v as int),
                xn == is_neighbour(a, alive@, v as int, x as int),
                row@.len() == y,
                forall|q: int| 0 <= q < y ==> #[trigger] row@[q] == b[x as int][q],
            decreases n - y,
        {
            row.push(adj[x][y] || (x != y && xn && alive[y] && adj[v][y]));
            y += 1;
        }
        next.set(x, row);
        x += 1;
    }
    proof {
        assert forall|p: int| 0 <= p < n implies rows_of(next@)[p] == b[p] by {
            assert(next@[p]@.len() == n);
            assert(next@[p]@ =~= b[p]);
        }
        assert(rows_of(next@) =~= b);
    }
    *adj = next;
}

/// The pair `(x, y)` is in the list.
pub open spec fn has_pair(list: Seq<(usize, usize)>, x: usize, y: usize) -> bool {
    list.contains((x, y))
}

/// The first pair comes before the second.
pub open spec fn pair_before(a: (usize, usize), b: (usize, usize)) -> bool {
    a.0 < b.0 || (a.0 == b.0 && a.1 < b.1)
}

/// The pairs `x < y` that are joined in `b` but not in `a`, in order.
pub open spec fn are_added(
    a: Seq<Seq<bool>>,
    b: Seq<Seq<bool>>,
    list: Seq<(usize, usize)>,
) -> bool {
    &&& forall|i: int, j: int|
        0 <= i < j < list.len() ==> pair_before(#[trigger] list[i], #[trigger] list[j])
    &&& forall|x: usize, y: usize| #[trigger]
        has_pair(list, x, y) == (x < y < a.len() && b[x as int][y as int] && !a[x as int][y as int])
}

/// The pairs that are joined in the second graph only.
fn added_edges(a: &Vec<Vec<bool>>, b: &Vec<Vec<bool>>, n: usize) -> (r: Vec<(usize, usize)>)
    requires
        is_graph(rows_of(a@), n as nat),
        is_graph(rows_of(b@), n as nat),
    ensures
        are_added(rows_of(a@), rows_of(b@), r@),
{
    let ghost ga = rows_of(a@);
    let ghost gb = rows_of(b@);
    let mut list: Vec<(usize, usize)> = Vec::new();
    let mut x: usize = 0;
    while x < n
        invariant
            x <= n,
            ga == rows_of(a@),
            gb == rows_of(b@),
            is_graph(ga, n as nat),
            is_graph(gb, n as nat),
            forall|i: int, j: int|
                0 <= i < j < list@.len() ==> pair_before(#[trigger] list@[i], #[trigger] list@[j]),
            forall|i: int| 0 <= i < list@.len() ==> (#[trigger] list@[i]).0 < x,
            forall|p: usize, q: usize| #[trigger]
                has_pair(list@, p, q) == (p < x && p < q < n && gb[p as int][q as int]
                    && !ga[p as int][q as int]),
        decreases n - x,
    {
        let mut y: usize = x + 1;
        while y < n
            invariant
                x < y <= n,
                ga == rows_of(a@),
                gb == rows_of(b@),
                is_graph(ga, n as nat),
                is_graph(gb, n as nat),
                a@.len() == n,
                b@.len() == n,
                forall|i: int, j: int|
                    0 <= i < j < list@.len() ==> pair_before(
                        #[trigger] list@[i],
                        #[trigger] list@[j],
                    ),
                forall|i: int|
                    0 <= i < list@.len() ==> (#[trigger] list@[i]).0 < x || (list@[i].0 == x
                        && list@[i].1 < y),
                forall|p: usize, q: usize| #[trigger]
                    has_pair(list@, p, q) == ((p < x || (p == x && q < y)) && p < q < n
                        && gb[p as int][q as int] && !ga[p as int][q as int]),
            decreases n - y,
        {
            assert(ga[x as int].len() == n && gb[x as int].len() == n);
            let ghost l0 = list@;
            if b[x][y] && !a[x][y] {
                list.push((x, y));
            }
            proof {
                assert forall|p: usize, q: usize| #[trigger] has_pair(list@, p, q) == ((p < x || (p
                    == x && q < y + 1)) && p < q < n && gb[p as int][q as int]
                    && !ga[p as int][q as int]) by {
                    assert(has_pair(l0, p, q) == ((p < x || (p == x && q < y)) && p < q < n
                        && gb[p as int][q as int] && !ga[p as int][q as int]));
                    if l0.contains((p, q)) {
                        let i = choose|i: int| 0 <= i < l0.len() && l0[i] == (p, q);
                        assert(list@[i] == (p, q));
                    }
                    if list@.len() > l0.len() {
                        assert(list@[l0.len() as int] == (x, y));
                    }
                    if list@.contains((p, q)) && !l0.contains((p, q)) {
                        let i = choose|i: int| 0 <= i < list@.len() && list@[i] == (p, q);
                        if i < l0.len() {
                            assert(l0[i] == (p, q));
                        }
                    }
                }
            }
            y += 1;
        }
        x += 1;
    }
    list
}

// The order is a perfect elimination order of the completed graph.

pub proof fn lemma_eliminated_grows(
    a: Seq<Seq<bool>>,
    order: Seq<usize>,
    n: nat,
    j: nat,
    k: nat,
    x: int,
    y: int,
)
    requires
        j <= k <= order.len(),
        is_graph(a, n),
        0 <= x < n,
        0 <= y < n,
    ensures
        is_graph(eliminated(a, order, k), n),
        eliminated(a, order, j)[x][y] ==> eliminated(a, order, k)[x][y],
        order.take(j as int).contains(x as usize) && eliminated(a, order, k)[x][y] ==> eliminated(
            a,
            order,
            j,
        )[x][y],
    decreases k,
{
    if j < k {
        let k1 = (k - 1) as nat;
        lemma_eliminated_grows(a, order, n, j, k1, x, y);
        lemma_joined_graph(
            eliminated(a, order, k1),
            alive_after(n, order, k1),
            order[k1 as int] as int,
            n,
        );
        if order.take(j as int).contains(x as usize) {
            let p = order.take(j as int);
            let q = order.take(k1 as int);
            let i = choose|i: int| 0 <= i < p.len() && p[i] == x as usize;
            assert(q[i] == x as usize);
        }
    } else if k > 0 {
        let k1 = (k - 1) as nat;
        lemma_eliminated_grows(a, order, n, k1, k1, x, y);
        lemma_joined_graph(
            eliminated(a, order, k1),
            alive_after(n, order, k1),
            order[k1 as int] as int,
            n,
        );
    }
}

/// The later neighbours of a vertex are joined to each other.
pub open spec fn is_perfect_order(a: Seq<Seq<bool>>, order: Seq<usize>) -> bool {
    forall|i: int, x: int, y: int|
        0 <= i < order.len() && 0 <= x < a.len() && 0 <= y < a.len() && x != y && is_later(
            order,
            i,
            x,
        ) && is_later(order, i, y) && #[trigger] a[order[i] as int][x]
            && #[trigger] a[order[i] as int][y] ==> a[x][y]
}

/// `x` does not come before or at place `i`.
pub open spec fn is_later(order: Seq<usize>, i: int, x: int) -> bool {
    !order.take(i + 1).contains(x as usize)
}

/// The completed graph is chordal: the order of elimination is a perfect
/// elimination order of it.
pub proof fn completion_is_chordal(a: Seq<Seq<bool>>, order: Seq<usize>, n: nat)
    requires
        is_graph(a, n),
        n <= usize::MAX,
        order.len() == n,
        forall|i: int| 0 <= i < n ==> (#[trigger] order[i]) < n,
    ensures
        is_perfect_order(eliminated(a, order, n), order),
{
    let b = eliminated(a, order, n);
    lemma_dims(a, order, n, n);
    assert forall|i: int, x: int, y: int|
        0 <= i < order.len() && 0 <= x < b.len() && 0 <= y < b.len() && x != y && is_later(
            order,
            i,
            x,
        ) && is_later(order, i, y) && #[trigger] b[order[i] as int][x]
            && #[trigger] b[order[i] as int][y] implies b[x][y] by {
        let v = order[i] as int;
        let k = i as nat;
        let s = order.take(i + 1);
        assert(s[i] == order[i]);
        assert(s.contains(v as usize));
        lemma_eliminated_grows(a, order, n, k + 1, n, v, x);
        lemma_eliminated_grows(a, order, n, k + 1, n, v, y);
        let c = eliminated(a, order, k);
        let d = eliminated(a, order, k + 1);
        assert(d[v][x] && d[v][y]);
        lemma_eliminated_grows(a, order, n, k, k, v, x);
        lemma_dims(a, order, n, k);
        assert(!order.take(k as int).contains(x as usize)) by {
            if order.take(k as int).contains(x as usize) {
                let p = order.take(k as int);
                let j = choose|j: int| 0 <= j < p.len() && p[j] == x as usize;
                assert(s[j] == x as usize);
            }
        }
        assert(!order.take(k as int).contains(y as usize)) by {
            if order.take(k as int).contains(y as usize) {
                let p = order.take(k as int);
                let j = choose|j: int| 0 <= j < p.len() && p[j] == y as usize;
                assert(s[j] == y as usize);
            }
        }
        assert(c[v][x] && c[v][y]) by {
            assert(!c[v][v]);
        }
        assert(d[x][y]);
        lemma_eliminated_grows(a, order, n, k + 1, n, x, y);
    }
}

/// Elimination keeps the vertices.
pub proof fn lemma_dims(a: Seq<Seq<bool>>, order: Seq<usize>, n: nat, k: nat)
    requires
        is_graph(a, n),
        k <= order.len(),
    ensures
        is_graph(eliminated(a, order, k), n),
    decreases k,
{
    if k > 0 {
        lemma_dims(a, order, n, (k - 1) as nat);
        lemma_joined_graph(
            eliminated(a, order, (k - 1) as nat),
            alive_after(n, order, (k - 1) as nat),
            order[k - 1] as int,
            n,
        );
    }
}

} // verus!
