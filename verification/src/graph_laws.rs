//! What the completion of a graph adds, and what its cliques hold.

use crate::chordal;
use crate::cliques;
use crate::reach;
use vstd::prelude::*;

verus! {

/// How many of the first `k` vertices are joined to `y` in `b` but not in `a`.
pub open spec fn new_to(a: Seq<Seq<bool>>, b: Seq<Seq<bool>>, y: int, k: nat) -> nat
    decreases k,
{
    if k == 0 {
        0
    } else {
        new_to(a, b, y, (k - 1) as nat) + (if b[k - 1][y] && !a[k - 1][y] {
            1nat
        } else {
            0
        })
    }
}

/// How many pairs of the first `k` vertices are joined in `b` but not in `a`.
pub open spec fn new_pairs(a: Seq<Seq<bool>>, b: Seq<Seq<bool>>, k: nat) -> nat
    decreases k,
{
    if k == 0 {
        0
    } else {
        new_pairs(a, b, (k - 1) as nat) + new_to(a, b, k - 1, (k - 1) as nat)
    }
}

proof fn lemma_new_to(a: Seq<Seq<bool>>, alive: Seq<bool>, v: int, y: int, k: nat)
    requires
        k <= y < a.len(),
    ensures
        new_to(a, chordal::joined(a, alive, v), y, k) == if chordal::is_neighbour(a, alive, v, y) {
            chordal::missing_to(a, alive, v, y, k)
        } else {
            0
        },
    decreases k,
{
    if k > 0 {
        lemma_new_to(a, alive, v, y, (k - 1) as nat);
    }
}

proof fn lemma_new_pairs(a: Seq<Seq<bool>>, alive: Seq<bool>, v: int, k: nat)
    requires
        k <= a.len(),
    ensures
        new_pairs(a, chordal::joined(a, alive, v), k) == chordal::fill_count(a, alive, v, k),
    decreases k,
{
    if k > 0 {
        lemma_new_pairs(a, alive, v, (k - 1) as nat);
        lemma_new_to(a, alive, v, k - 1, (k - 1) as nat);
    }
}

/// Each vertex that is eliminated is still there, and eliminating any other vertex that
/// is still there would join at least as many pairs.
pub proof fn elimination_joins_fewest_pairs(a: Seq<Seq<bool>>, order: Seq<usize>, i: int, u: int)
    requires
        chordal::is_graph(a, a.len()),
        chordal::is_min_fill_order(a, order),
        0 <= i < order.len(),
        0 <= u < a.len(),
        !order.take(i).contains(u as usize),
    ensures
        ({
            let now = chordal::eliminated(a, order, i as nat);
            let alive = chordal::alive_after(a.len(), order, i as nat);
            &&& !order.take(i).contains(order[i])
            &&& new_pairs(
                now,
                chordal::eliminated(a, order, (i + 1) as nat),
                a.len(),
            ) <= new_pairs(now, chordal::joined(now, alive, u), a.len())
        }),
{
    let now = chordal::eliminated(a, order, i as nat);
    let alive = chordal::alive_after(a.len(), order, i as nat);
    chordal::lemma_dims(a, order, a.len(), i as nat);
    assert(chordal::is_next(now, alive, a.len(), order[i] as int));
    assert(alive[u]);
    assert(alive[order[i] as int]);
    lemma_new_pairs(now, alive, u, a.len());
    lemma_new_pairs(now, alive, order[i] as int, a.len());
    assert(!chordal::is_cheaper(now, alive, u, order[i] as int));
}

/// How many of the first `k` vertices are still there and joined to `v`.
pub open spec fn live_neighbours(
    a: Seq<Seq<bool>>,
    order: Seq<usize>,
    i: int,
    v: int,
    k: nat,
) -> nat
    decreases k,
{
    if k == 0 {
        0
    } else {
        live_neighbours(a, order, i, v, (k - 1) as nat) + (if a[v][k - 1] && !order.take(
            i,
        ).contains((k - 1) as usize) {
            1nat
        } else {
            0
        })
    }
}

proof fn lemma_live(a: Seq<Seq<bool>>, order: Seq<usize>, i: int, v: int, n: nat, k: nat)
    requires
        k <= n,
        0 <= i,
    ensures
        live_neighbours(a, order, i, v, k) == chordal::degree(
            a,
            chordal::alive_after(n, order, i as nat),
            v,
            k,
        ),
    decreases k,
{
    if k > 0 {
        lemma_live(a, order, i, v, n, (k - 1) as nat);
    }
}

/// Among the vertices that join equally few pairs the one with the fewest neighbours is
/// eliminated, and among those the first.
pub proof fn ties_go_to_the_fewest_neighbours(
    a: Seq<Seq<bool>>,
    order: Seq<usize>,
    i: int,
    u: int,
)
    requires
        chordal::is_graph(a, a.len()),
        chordal::is_min_fill_order(a, order),
        0 <= i < order.len(),
        0 <= u < a.len(),
        !order.take(i).contains(u as usize),
        ({
            let now = chordal::eliminated(a, order, i as nat);
            let alive = chordal::alive_after(a.len(), order, i as nat);
            new_pairs(now, chordal::eliminated(a, order, (i + 1) as nat), a.len()) == new_pairs(
                now,
                chordal::joined(now, alive, u),
                a.len(),
            )
        }),
    ensures
        ({
            let now = chordal::eliminated(a, order, i as nat);
            let d = live_neighbours(now, order, i, order[i] as int, a.len());
            let e = live_neighbours(now, order, i, u, a.len());
            d < e || (d == e && order[i] <= u)
        }),
{
    let now = chordal::eliminated(a, order, i as nat);
    let alive = chordal::alive_after(a.len(), order, i as nat);
    chordal::lemma_dims(a, order, a.len(), i as nat);
    assert(chordal::is_next(now, alive, a.len(), order[i] as int));
    assert(alive[u]);
    lemma_new_pairs(now, alive, u, a.len());
    lemma_new_pairs(now, alive, order[i] as int, a.len());
    lemma_live(now, order, i, u, a.len(), a.len());
    lemma_live(now, order, i, order[i] as int, a.len(), a.len());
    assert(!chordal::is_cheaper(now, alive, u, order[i] as int));
    if u < order[i] {
        assert(chordal::is_cheaper(now, alive, order[i] as int, u));
    }
}

proof fn lemma_nothing_new(a: Seq<Seq<bool>>, b: Seq<Seq<bool>>, n: nat, k: nat)
    requires
        k <= n,
        new_pairs(a, b, k) == 0,
    ensures
        forall|x: int, y: int| 0 <= x < y < k && #[trigger] b[x][y] ==> a[x][y],
    decreases k,
{
    if k > 0 {
        lemma_nothing_new(a, b, n, (k - 1) as nat);
        lemma_none_to(a, b, k - 1, (k - 1) as nat);
    }
}

proof fn lemma_none_to(a: Seq<Seq<bool>>, b: Seq<Seq<bool>>, y: int, k: nat)
    requires
        new_to(a, b, y, k) == 0,
    ensures
        forall|x: int| 0 <= x < k && #[trigger] b[x][y] ==> a[x][y],
    decreases k,
{
    if k > 0 {
        lemma_none_to(a, b, y, (k - 1) as nat);
    }
}

/// Where the remaining neighbours of some remaining vertex are all joined to each other,
/// the next elimination joins nothing.
pub proof fn simplicial_vertices_save_joins(
    a: Seq<Seq<bool>>,
    order: Seq<usize>,
    i: int,
    u: int,
    x: int,
    y: int,
)
    requires
        chordal::is_graph(a, a.len()),
        chordal::is_min_fill_order(a, order),
        0 <= i < order.len(),
        0 <= u < a.len(),
        !order.take(i).contains(u as usize),
        forall|p: int, q: int|
            0 <= p < a.len() && 0 <= q < a.len() && p != q && !order.take(i).contains(p as usize)
                && !order.take(i).contains(q as usize) && #[trigger] chordal::eliminated(
                a,
                order,
                i as nat,
            )[u][p] && #[trigger] chordal::eliminated(a, order, i as nat)[u][q]
                ==> chordal::eliminated(a, order, i as nat)[p][q],
        0 <= x < a.len(),
        0 <= y < a.len(),
    ensures
        chordal::eliminated(a, order, (i + 1) as nat)[x][y] == chordal::eliminated(
            a,
            order,
            i as nat,
        )[x][y],
{
    let n = a.len();
    let now = chordal::eliminated(a, order, i as nat);
    let next = chordal::eliminated(a, order, (i + 1) as nat);
    let alive = chordal::alive_after(n, order, i as nat);
    chordal::lemma_dims(a, order, n, i as nat);
    chordal::lemma_dims(a, order, n, (i + 1) as nat);
    elimination_joins_fewest_pairs(a, order, i, u);
    lemma_new_pairs(now, alive, u, n);
    lemma_no_fill(now, alive, u, n);
    lemma_nothing_new(now, next, n, n);
    if x < y {
        assert(next[x][y] ==> now[x][y]);
    } else if y < x {
        assert(next[y][x] ==> now[y][x]);
        assert(next[x][y] == next[y][x]);
        assert(now[x][y] == now[y][x]);
    } else {
        assert(!next[x][x]);
        assert(!now[x][x]);
    }
}

proof fn lemma_no_fill(a: Seq<Seq<bool>>, alive: Seq<bool>, u: int, k: nat)
    requires
        k <= a.len(),
        forall|p: int, q: int|
            0 <= p < a.len() && 0 <= q < a.len() && p != q && alive[p] && alive[q]
                && #[trigger] a[u][p] && #[trigger] a[u][q] ==> a[p][q],
    ensures
        chordal::fill_count(a, alive, u, k) == 0,
    decreases k,
{
    if k > 0 {
        lemma_no_fill(a, alive, u, (k - 1) as nat);
        if chordal::is_neighbour(a, alive, u, k - 1) {
            lemma_none_missing(a, alive, u, k - 1, (k - 1) as nat);
        }
    }
}

proof fn lemma_none_missing(a: Seq<Seq<bool>>, alive: Seq<bool>, u: int, y: int, k: nat)
    requires
        k <= y < a.len(),
        chordal::is_neighbour(a, alive, u, y),
        forall|p: int, q: int|
            0 <= p < a.len() && 0 <= q < a.len() && p != q && alive[p] && alive[q]
                && #[trigger] a[u][p] && #[trigger] a[u][q] ==> a[p][q],
    ensures
        chordal::missing_to(a, alive, u, y, k) == 0,
    decreases k,
{
    if k > 0 {
        lemma_none_missing(a, alive, u, y, (k - 1) as nat);
        if chordal::is_neighbour(a, alive, u, k - 1) {
            assert(a[u][k - 1] && a[u][y]);
        }
    }
}

proof fn lemma_first_member(peo: Seq<usize>, s: Seq<usize>, k: nat) -> (i: int)
    requires
        k <= peo.len(),
        exists|j: int| 0 <= j < k && s.contains(#[trigger] peo[j]),
    ensures
        0 <= i < k,
        s.contains(peo[i]),
        forall|j: int| 0 <= j < i ==> !s.contains(#[trigger] peo[j]),
    decreases k,
{
    if exists|j: int| 0 <= j < k - 1 && s.contains(#[trigger] peo[j]) {
        lemma_first_member(peo, s, (k - 1) as nat)
    } else {
        k - 1
    }
}

/// Every set of vertices that are all joined to each other is within one of the maximal
/// cliques.
pub proof fn every_clique_is_within_a_maximal_one(
    a: Seq<Seq<bool>>,
    peo: Seq<usize>,
    s: Seq<usize>,
) -> (c: Seq<usize>)
    requires
        chordal::is_graph(a, peo.len()),
        peo.len() <= usize::MAX,
        peo.no_duplicates(),
        forall|k: int| 0 <= k < peo.len() ==> (#[trigger] peo[k]) < peo.len(),
        s.len() > 0,
        forall|i: int| 0 <= i < s.len() ==> (#[trigger] s[i]) < peo.len(),
        forall|i: int, j: int|
            0 <= i < s.len() && 0 <= j < s.len() && s[i] != s[j] ==> a[#[trigger] s[i] as int][
                #[trigger] s[j] as int
            ],
    ensures
        cliques::is_maximal(a, peo, c),
        cliques::is_within(s, c),
{
    cliques::lemma_permutation(peo, peo.len(), s[0]);
    let at = peo.index_of(s[0]);
    assert(s.contains(peo[at]));
    let i = lemma_first_member(peo, s, peo.len());
    let d = cliques::lemma_candidate_exists(a, peo, i, a.len());
    let p = s.index_of(peo[i]);
    assert forall|u: usize| #[trigger] s.contains(u) implies d.contains(u) by {
        if u != peo[i] {
            let q = s.index_of(u);
            assert(a[s[p] as int][s[q] as int]);
            let early = peo.take(i + 1);
            if early.contains(u) {
                let r = early.index_of(u);
                assert(peo[r] == u);
                assert(r < i);
            }
            assert(chordal::is_later(peo, i, u as int));
        }
    }
    assert(cliques::is_candidate(a, peo, i, d));
    let c = cliques::lemma_has_maximal(a, peo, d);
    assert forall|u: usize| #[trigger] s.contains(u) implies c.contains(u) by {
        assert(d.contains(u));
    }
    c
}

/// The links between cliques that share at least `w` variables.
pub open spec fn heavy_links(
    c: Seq<Vec<usize>>,
    tree: Seq<(usize, usize)>,
    w: nat,
) -> spec_fn(usize, usize) -> bool {
    |u: usize, v: usize|
        (tree.contains((u, v)) && cliques::weight(c, u, v) >= w) || (tree.contains((v, u))
            && cliques::weight(c, v, u) >= w)
}

/// Any two cliques that share variables are connected in the clique tree by pairs that
/// share at least as many.
pub proof fn trees_connect_by_heavy_pairs(
    c: Seq<Vec<usize>>,
    tree: Seq<(usize, usize)>,
    i: usize,
    j: usize,
)
    requires
        cliques::is_clique_tree(c, tree),
        i < j < c.len(),
        cliques::weight(c, i, j) > 0,
    ensures
        reach::connected(heavy_links(c, tree, cliques::weight(c, i, j)), i, j),
{
    let links = heavy_links(c, tree, cliques::weight(c, i, j));
    assert(cliques::is_pair(c, i, j));
    assert(cliques::is_tree_choice(c, tree, i, j));
    if tree.contains((i, j)) {
        assert(links(i, j));
        reach::lemma_connected_link(links, i, j);
    } else {
        reach::lemma_connected_mono(cliques::earlier_links(c, tree, i, j), links, i, j);
    }
}

/// A clique tree has no cycle: each of its pairs joins two cliques that the pairs listed
/// before it do not connect.
pub proof fn trees_have_no_cycles(c: Seq<Vec<usize>>, tree: Seq<(usize, usize)>, l: int)
    requires
        cliques::is_clique_tree(c, tree),
        0 <= l < tree.len(),
    ensures
        !reach::connected(cliques::tree_links(tree.take(l)), tree[l].0, tree[l].1),
{
    let (i, j) = tree[l];
    let before = tree.take(l);
    let links = cliques::tree_links(before);
    let earlier = cliques::earlier_links(c, tree, i, j);
    assert(cliques::is_pair(c, tree[l].0, tree[l].1));
    assert(tree.contains((i, j)));
    assert(cliques::is_tree_choice(c, tree, i, j));
    assert forall|u: usize, v: usize| #[trigger] links(u, v) implies earlier(u, v) by {
        if before.contains((u, v)) {
            let k = before.index_of((u, v));
            assert(tree[k] == (u, v));
            assert(tree.contains((u, v)));
            assert(cliques::comes_first(
                c,
                tree[k].0,
                tree[k].1,
                cliques::weight(c, tree[l].0, tree[l].1) as int,
                tree[l].0 as int,
                tree[l].1 as int,
            ));
        } else {
            let k = before.index_of((v, u));
            assert(tree[k] == (v, u));
            assert(tree.contains((v, u)));
            assert(cliques::comes_first(
                c,
                tree[k].0,
                tree[k].1,
                cliques::weight(c, tree[l].0, tree[l].1) as int,
                tree[l].0 as int,
                tree[l].1 as int,
            ));
        }
    }
    if reach::connected(links, i, j) {
        reach::lemma_connected_mono(links, earlier, i, j);
    }
}

} // verus!
