//! One moment matrix for each clique of a quadratic form.

use crate::bounds::psd::{PsdProgram, PsdRow};
use crate::bounds::psd;
use crate::chordal::ChordalSdpDecomposition;
use crate::chordal;
use crate::cliques;
use crate::domain::VarType;
use crate::lasserre;
use crate::lists;
use crate::quadratic::{PairCoeff, ReducedQuadratic};
use crate::quadratic;
use crate::sets;
use crate::term;
use vstd::prelude::*;

verus! {

/// Both variables are in one of the cliques.
pub open spec fn share_clique(c: Seq<Vec<usize>>, a: usize, b: usize) -> bool {
    exists|k: int| 0 <= k < c.len() && (#[trigger] c[k])@.contains(a) && c[k]@.contains(b)
}

/// The cliques list variables below `n`, ascending.
pub open spec fn are_cliques(c: Seq<Vec<usize>>, n: int) -> bool {
    forall|k: int| 0 <= k < c.len() ==> is_clique_list((#[trigger] c[k])@, n)
}

/// The list holds variables below `n`, ascending.
pub open spec fn is_clique_list(c: Seq<usize>, n: int) -> bool {
    &&& sets::ascending(c)
    &&& forall|i: int| 0 <= i < c.len() ==> (#[trigger] c[i]) < n
}

/// One pair comes before another.
pub open spec fn is_before(p: (usize, usize), q: (usize, usize)) -> bool {
    p.0 < q.0 || (p.0 == q.0 && p.1 < q.1)
}

/// The pairs of variables of a clique, in order.
pub open spec fn are_pairs(c: Seq<Vec<usize>>, n: int, pairs: Seq<(usize, usize)>) -> bool {
    &&& forall|p: int|
        0 <= p < pairs.len() ==> (#[trigger] pairs[p]).0 < pairs[p].1 < n && share_clique(
            c,
            pairs[p].0,
            pairs[p].1,
        )
    &&& forall|p: int, q: int|
        0 <= p < q < pairs.len() ==> is_before(#[trigger] pairs[p], #[trigger] pairs[q])
    &&& forall|a: usize, b: usize|
        a < b < n && #[trigger] share_clique(c, a, b) ==> pairs.contains((a, b))
}

/// The coefficient of a pair in a form, zero where the form lacks it.
pub open spec fn pair_cost(quad: Seq<PairCoeff>, p: (usize, usize), k: nat) -> int
    decreases k,
{
    if k == 0 {
        0
    } else if quad[k - 1].a == p.0 && quad[k - 1].b == p.1 {
        quad[k - 1].coeff as int
    } else {
        pair_cost(quad, p, (k - 1) as nat)
    }
}

/// The costs: those of the variables, then those of the pairs.
pub open spec fn are_costs(
    q: &ReducedQuadratic,
    pairs: Seq<(usize, usize)>,
    cost: Seq<i64>,
) -> bool {
    let n = q.linear@.len() as int;
    &&& cost.len() == n + pairs.len()
    &&& forall|i: int| 0 <= i < n ==> #[trigger] cost[i] == q.linear@[i]
    &&& forall|i: int|
        n <= i < cost.len() ==> #[trigger] cost[i] == pair_cost(
            q.quad@,
            pairs[i - n],
            q.quad@.len(),
        )
}

/// The entry of a clique's matrix: one in the corner, the variables along the
/// edge, and within the products of two variables.
pub open spec fn is_clique_entry(
    vt: VarType,
    n: int,
    pairs: Seq<(usize, usize)>,
    c: Seq<usize>,
    i: nat,
    j: nat,
    e: Option<usize>,
) -> bool {
    if j == 0 {
        e is None
    } else if i == 0 {
        e == Some(c[j - 1])
    } else if i == j {
        match vt {
            VarType::Bin => e == Some(c[i - 1]),
            VarType::Spin => e is None,
        }
    } else {
        e matches Some(m) && n <= m < n + pairs.len() && pairs[m - n] == (c[i - 1], c[j - 1])
    }
}

/// The entries of a clique's matrix.
pub open spec fn are_clique_entries(
    vt: VarType,
    n: int,
    pairs: Seq<(usize, usize)>,
    c: Seq<usize>,
    entries: Seq<Option<usize>>,
) -> bool {
    let dim = c.len() + 1;
    &&& entries.len() == lasserre::row_start(dim, dim)
    &&& forall|i: nat, j: nat|
        i <= j < dim ==> is_clique_entry(
            vt,
            n,
            pairs,
            c,
            i,
            j,
            entries[#[trigger] lasserre::upper_place(dim, i, j)],
        )
}

/// The rows of a clique's block.
pub open spec fn is_clique_block(
    vt: VarType,
    n: int,
    pairs: Seq<(usize, usize)>,
    c: Seq<usize>,
    start: int,
    rows: Seq<PsdRow>,
) -> bool {
    exists|entries: Seq<Option<usize>>| #[trigger]
        psd::is_block(entries, c.len() + 1, start, rows) && are_clique_entries(
            vt,
            n,
            pairs,
            c,
            entries,
        )
}

/// Where the factors of block `k` start.
pub open spec fn factor_start(c: Seq<Vec<usize>>, k: nat) -> int
    decreases k,
{
    if k == 0 {
        0
    } else {
        factor_start(c, (k - 1) as nat) + cliques::tri_place(c[k - 1]@.len() as int + 1, 0)
    }
}

/// Where the rows of block `k` start.
pub open spec fn rows_start(c: Seq<Vec<usize>>, k: nat) -> int
    decreases k,
{
    if k == 0 {
        0
    } else {
        rows_start(c, (k - 1) as nat) + lasserre::row_start(
            c[k - 1]@.len() + 1,
            c[k - 1]@.len() + 1,
        )
    }
}

/// The first `k` blocks.
pub open spec fn are_blocks(
    vt: VarType,
    n: int,
    pairs: Seq<(usize, usize)>,
    c: Seq<Vec<usize>>,
    rows: Seq<PsdRow>,
    k: int,
) -> bool {
    &&& rows.len() == rows_start(c, k as nat)
    &&& forall|b: int|
        0 <= b < k ==> 0 <= rows_start(c, b as nat) <= rows_start(c, (b + 1) as nat) <= rows.len()
            && is_clique_block(
            vt,
            n,
            pairs,
            (#[trigger] c[b])@,
            factor_start(c, b as nat),
            rows.subrange(rows_start(c, b as nat), rows_start(c, (b + 1) as nat)),
        )
}

/// The program of a form over its cliques.
pub open spec fn is_clique_program(
    q: &ReducedQuadratic,
    c: Seq<Vec<usize>>,
    pairs: Seq<(usize, usize)>,
    r: &PsdProgram,
) -> bool {
    let n = q.linear@.len() as int;
    &&& are_pairs(c, n, pairs)
    &&& r.lower == psd::least_moment(q.var_type)
    &&& are_costs(q, pairs, r.cost@)
    &&& r.dims@.len() == c.len()
    &&& forall|k: int| 0 <= k < c.len() ==> #[trigger] r.dims@[k] == c[k]@.len() + 1
    &&& are_blocks(q.var_type, n, pairs, c, r.rows@, c.len() as int)
}

/// Whether both variables are in one of the cliques.
fn in_one_clique(c: &Vec<Vec<usize>>, a: usize, b: usize) -> (r: bool)
    ensures
        r == share_clique(c@, a, b),
{
    let mut k: usize = 0;
    while k < c.len()
        invariant
            k <= c@.len(),
            forall|j: int| 0 <= j < k ==> !((#[trigger] c@[j])@.contains(a) && c@[j]@.contains(b)),
        decreases c@.len() - k,
    {
        if sets::member(c[k].as_slice(), a) && sets::member(c[k].as_slice(), b) {
            assert(share_clique(c@, a, b));
            return true;
        }
        k += 1;
    }
    false
}

/// The pairs of variables of a clique, in order.
fn clique_pairs(c: &Vec<Vec<usize>>, n: usize) -> (pairs: Vec<(usize, usize)>)
    ensures
        are_pairs(c@, n as int, pairs@),
        pairs@.len() <= n * n,
{
    let mut pairs: Vec<(usize, usize)> = Vec::new();
    let mut a: usize = 0;
    assert(0 * n == 0);
    while a < n
        invariant
            a <= n,
            pairs@.len() <= a * n,
            are_pairs_up_to(c@, n as int, pairs@, a as int, 0),
        decreases n - a,
    {
        let mut b: usize = a + 1;
        while b < n
            invariant
                a < n,
                a < b <= n,
                pairs@.len() <= a * n + b,
                are_pairs_up_to(c@, n as int, pairs@, a as int, b as int),
            decreases n - b,
        {
            let ghost before = pairs@;
            if in_one_clique(c, a, b) {
                pairs.push((a, b));
                assert(pairs@[before.len() as int] == (a, b));
            }
            proof {
                assert forall|x: usize, y: usize|
                    x < y < n && (x < a || (x == a && y < b + 1)) && #[trigger] share_clique(
                        c@,
                        x,
                        y,
                    ) implies pairs@.contains((x, y)) by {
                    if (x, y) != (a, b) {
                        let i = choose|i: int| 0 <= i < before.len() && before[i] == (x, y);
                        assert(pairs@[i] == (x, y));
                    }
                }
            }
            b += 1;
        }
        assert((a + 1) * n == a * n + n) by (nonlinear_arith);
        a += 1;
    }
    pairs
}

/// The pairs of cliques that come before a pair.
spec fn are_pairs_up_to(
    c: Seq<Vec<usize>>,
    n: int,
    pairs: Seq<(usize, usize)>,
    a: int,
    b: int,
) -> bool {
    &&& forall|p: int|
        0 <= p < pairs.len() ==> (#[trigger] pairs[p]).0 < pairs[p].1 < n && share_clique(
            c,
            pairs[p].0,
            pairs[p].1,
        ) && (pairs[p].0 < a || (pairs[p].0 == a && pairs[p].1 < b))
    &&& forall|p: int, q: int|
        0 <= p < q < pairs.len() ==> is_before(#[trigger] pairs[p], #[trigger] pairs[q])
    &&& forall|x: usize, y: usize|
        x < y < n && (x < a || (x == a && y < b)) && #[trigger] share_clique(c, x, y)
            ==> pairs.contains((x, y))
}

/// The coefficient of a pair.
fn cost_of(quad: &Vec<PairCoeff>, p: (usize, usize)) -> (r: i64)
    ensures
        r == pair_cost(quad@, p, quad@.len()),
{
    let mut r: i64 = 0;
    let mut k: usize = 0;
    while k < quad.len()
        invariant
            k <= quad@.len(),
            r == pair_cost(quad@, p, k as nat),
        decreases quad@.len() - k,
    {
        if quad[k].a == p.0 && quad[k].b == p.1 {
            r = quad[k].coeff;
        }
        k += 1;
    }
    r
}

/// The number of a listed pair.
fn find_pair(pairs: &Vec<(usize, usize)>, p: (usize, usize)) -> (r: usize)
    requires
        pairs@.contains(p),
    ensures
        r < pairs@.len(),
        pairs@[r as int] == p,
{
    let n: usize = pairs.len();
    let mut k: usize = 0;
    while pairs[k].0 != p.0 || pairs[k].1 != p.1
        invariant
            k < n,
            n == pairs@.len(),
            pairs@.contains(p),
            forall|j: int| 0 <= j < k ==> #[trigger] pairs@[j] != p,
        decreases pairs@.len() - k,
    {
        proof {
            let j = choose|j: int| 0 <= j < pairs@.len() && pairs@[j] == p;
            assert(j > k);
        }
        k += 1;
    }
    k
}

/// The entries of a clique's matrix.
fn clique_entries(
    vt: VarType,
    n: usize,
    pairs: &Vec<(usize, usize)>,
    c: &Vec<usize>,
) -> (entries: Vec<Option<usize>>)
    requires
        is_clique_list(c@, n as int),
        c@.len() < usize::MAX,
        n + pairs@.len() <= usize::MAX,
        forall|i: int, j: int|
            0 <= i < j < c@.len() ==> pairs@.contains((#[trigger] c@[i], #[trigger] c@[j])),
    ensures
        are_clique_entries(vt, n as int, pairs@, c@, entries@),
{
    let dim: usize = c.len() + 1;
    let ghost nn = dim as nat;
    let mut entries: Vec<Option<usize>> = Vec::new();
    let mut i: usize = 0;
    while i < dim
        invariant
            i <= dim,
            dim == c@.len() + 1,
            nn == dim,
            is_clique_list(c@, n as int),
            n + pairs@.len() <= usize::MAX,
            forall|i: int, j: int|
                0 <= i < j < c@.len() ==> pairs@.contains((#[trigger] c@[i], #[trigger] c@[j])),
            entries@.len() == lasserre::row_start(nn, i as nat),
            forall|a: nat, b: nat|
                a < i && a <= b < dim ==> is_clique_entry(
                    vt,
                    n as int,
                    pairs@,
                    c@,
                    a,
                    b,
                    entries@[#[trigger] lasserre::upper_place(nn, a, b)],
                ),
        decreases dim - i,
    {
        let mut j: usize = i;
        while j < dim
            invariant
                i <= j <= dim,
                i < dim,
                dim == c@.len() + 1,
                nn == dim,
                is_clique_list(c@, n as int),
                n + pairs@.len() <= usize::MAX,
                forall|i: int, j: int|
                    0 <= i < j < c@.len() ==> pairs@.contains((#[trigger] c@[i], #[trigger] c@[j])),
                entries@.len() == lasserre::row_start(nn, i as nat) + j - i,
                forall|a: nat, b: nat|
                    (a < i || (a == i && b < j)) && a <= b < dim ==> is_clique_entry(
                        vt,
                        n as int,
                        pairs@,
                        c@,
                        a,
                        b,
                        entries@[#[trigger] lasserre::upper_place(nn, a, b)],
                    ),
            decreases dim - j,
        {
            let e: Option<usize> = if j == 0 {
                None
            } else if i == 0 {
                Some(c[j - 1])
            } else if i == j {
                match vt {
                    VarType::Bin => Some(c[i - 1]),
                    VarType::Spin => None,
                }
            } else {
                assert(pairs@.contains((c@[i - 1], c@[j - 1])));
                Some(n + find_pair(pairs, (c[i - 1], c[j - 1])))
            };
            let ghost before = entries@;
            entries.push(e);
            proof {
                lasserre::lemma_place_below(nn, i as nat, j as nat);
                assert forall|a: nat, b: nat|
                    (a < i || (a == i && b < j + 1)) && a <= b < dim implies is_clique_entry(
                    vt,
                    n as int,
                    pairs@,
                    c@,
                    a,
                    b,
                    entries@[#[trigger] lasserre::upper_place(nn, a, b)],
                ) by {
                    if a < i {
                        lasserre::lemma_place_order(nn, a, b, i as nat, j as nat);
                    }
                    if b < j || a < i {
                        assert(entries@[lasserre::upper_place(nn, a, b)]
                            == before[lasserre::upper_place(nn, a, b)]);
                    }
                }
            }
            j += 1;
        }
        i += 1;
    }
    entries
}

/// The costs of the variables and of the pairs.
fn costs_of(q: &ReducedQuadratic, pairs: &Vec<(usize, usize)>) -> (cost: Vec<i64>)
    requires
        q.linear@.len() + pairs@.len() <= usize::MAX,
    ensures
        are_costs(q, pairs@, cost@),
{
    let n: usize = q.linear.len();
    let mut cost: Vec<i64> = Vec::new();
    let mut i: usize = 0;
    while i < n
        invariant
            i <= n,
            n == q.linear@.len(),
            cost@.len() == i,
            forall|j: int| 0 <= j < i ==> #[trigger] cost@[j] == q.linear@[j],
        decreases n - i,
    {
        cost.push(q.linear[i]);
        i += 1;
    }
    let mut p: usize = 0;
    while p < pairs.len()
        invariant
            p <= pairs@.len(),
            n == q.linear@.len(),
            cost@.len() == n + p,
            forall|j: int| 0 <= j < n ==> #[trigger] cost@[j] == q.linear@[j],
            forall|j: int|
                n <= j < n + p ==> #[trigger] cost@[j] == pair_cost(
                    q.quad@,
                    pairs@[j - n],
                    q.quad@.len(),
                ),
        decreases pairs@.len() - p,
    {
        cost.push(cost_of(&q.quad, pairs[p]));
        p += 1;
    }
    cost
}

/// The rows of one clique.
fn clique_rows(
    vt: VarType,
    n: usize,
    pairs: &Vec<(usize, usize)>,
    c: &Vec<usize>,
    start: usize,
) -> (rows: Vec<PsdRow>)
    requires
        is_clique_list(c@, n as int),
        n + pairs@.len() <= usize::MAX,
        start + cliques::tri_place(c@.len() as int + 1, 0) <= usize::MAX,
        forall|i: int, j: int|
            0 <= i < j < c@.len() ==> pairs@.contains((#[trigger] c@[i], #[trigger] c@[j])),
    ensures
        is_clique_block(vt, n as int, pairs@, c@, start as int, rows@),
{
    proof {
        lemma_triangle_nonneg(c@.len() as int + 1);
    }
    let entries = clique_entries(vt, n, pairs, c);
    let dim: usize = c.len() + 1;
    psd::block_rows(&entries, dim, start)
}

proof fn lemma_next_block(
    vt: VarType,
    n: int,
    pairs: Seq<(usize, usize)>,
    c: Seq<Vec<usize>>,
    before: Seq<PsdRow>,
    part: Seq<PsdRow>,
    k: int,
)
    requires
        0 <= k < c.len(),
        are_blocks(vt, n, pairs, c, before, k),
        is_clique_block(vt, n, pairs, c[k]@, factor_start(c, k as nat), part),
    ensures
        are_blocks(vt, n, pairs, c, before + part, k + 1),
{
    let rows = before + part;
    let dim = c[k]@.len() + 1;
    lasserre::lemma_row_start(dim, dim);
    assert forall|b: int| 0 <= b < k + 1 implies 0 <= rows_start(c, b as nat) <= rows_start(
        c,
        (b + 1) as nat,
    ) <= rows.len() && is_clique_block(
        vt,
        n,
        pairs,
        (#[trigger] c[b])@,
        factor_start(c, b as nat),
        rows.subrange(rows_start(c, b as nat), rows_start(c, (b + 1) as nat)),
    ) by {
        let lo = rows_start(c, b as nat);
        let hi = rows_start(c, (b + 1) as nat);
        if b < k {
            assert(rows.subrange(lo, hi) =~= before.subrange(lo, hi));
        } else {
            assert(rows.subrange(lo, hi) =~= part);
        }
    }
}

/// The program of a form over its cliques, with the pairs whose moments follow
/// those of the variables.
pub fn clique_program(q: &ReducedQuadratic, c: &Vec<Vec<usize>>) -> (r: (
    PsdProgram,
    Vec<(usize, usize)>,
))
    requires
        are_cliques(c@, q.linear@.len() as int),
        q.linear@.len() * q.linear@.len() + q.linear@.len() <= usize::MAX,
        factor_start(c@, c@.len()) <= usize::MAX,
    ensures
        is_clique_program(q, c@, r.1@, &r.0),
{
    let n: usize = q.linear.len();
    let vt = q.var_type;
    let pairs = clique_pairs(c, n);
    let cost = costs_of(q, &pairs);
    let mut dims: Vec<usize> = Vec::new();
    let mut rows: Vec<PsdRow> = Vec::new();
    let mut start: usize = 0;
    let mut k: usize = 0;
    while k < c.len()
        invariant
            k <= c@.len(),
            n + pairs@.len() <= usize::MAX,
            are_cliques(c@, n as int),
            are_pairs(c@, n as int, pairs@),
            factor_start(c@, c@.len()) <= usize::MAX,
            start == factor_start(c@, k as nat),
            dims@.len() == k,
            forall|j: int| 0 <= j < k ==> #[trigger] dims@[j] == c@[j]@.len() + 1,
            are_blocks(vt, n as int, pairs@, c@, rows@, k as int),
        decreases c@.len() - k,
    {
        let ghost list = c@[k as int]@;
        proof {
            assert(is_clique_list(list, n as int));
            lemma_starts_grow(c@, (k + 1) as nat, c@.len());
            lemma_triangle_nonneg(list.len() as int + 1);
            assert forall|i: int, j: int| 0 <= i < j < list.len() implies pairs@.contains(
                (#[trigger] list[i], #[trigger] list[j]),
            ) by {
                assert(list[i] < list[j]);
                assert(list.contains(list[i]) && list.contains(list[j]));
                assert(share_clique(c@, list[i], list[j]));
            }
        }
        let mut block = clique_rows(vt, n, &pairs, &c[k], start);
        let dim: usize = c[k].len() + 1;
        proof {
            lemma_next_block(vt, n as int, pairs@, c@, rows@, block@, k as int);
        }
        rows.append(&mut block);
        dims.push(dim);
        start = next_start(start, dim);
        k += 1;
    }
    (PsdProgram { lower: psd::lower_of(vt), cost, dims, rows }, pairs)
}

/// The first factor after a block.
fn next_start(start: usize, dim: usize) -> (r: usize)
    requires
        start + cliques::tri_place(dim as int, 0) <= usize::MAX,
    ensures
        r == start + cliques::tri_place(dim as int, 0),
{
    proof {
        lemma_triangle_nonneg(dim as int);
    }
    start + cliques::tri_index(dim, 0)
}

proof fn lemma_triangle_nonneg(n: int)
    requires
        n >= 0,
    ensures
        n <= cliques::tri_place(n, 0),
    decreases n,
{
    cliques::triangle_has_no_gaps(n);
    if n > 0 {
        cliques::triangle_has_no_gaps(n - 1);
        lemma_triangle_nonneg(n - 1);
    }
}

pub proof fn lemma_starts_grow(c: Seq<Vec<usize>>, j: nat, k: nat)
    requires
        j <= k <= c.len(),
    ensures
        0 <= factor_start(c, j) <= factor_start(c, k),
    decreases k,
{
    if k > 0 {
        let k1 = (k - 1) as nat;
        lemma_triangle_nonneg(c[k1 as int]@.len() as int + 1);
        if j < k {
            lemma_starts_grow(c, j, k1);
        } else {
            lemma_starts_grow(c, k1, k1);
        }
    }
}

/// The cliques of a decomposition list variables of the form, ascending, and
/// every pair of the form is in one of them.
pub proof fn decomposition_covers(q: &ReducedQuadratic, d: &ChordalSdpDecomposition)
    requires
        quadratic::is_decomposition(q, d),
        forall|i: int|
            0 <= i < q.quad@.len() ==> (#[trigger] q.quad@[i]).a < q.quad@[i].b < q.n_free,
    ensures
        are_cliques(d.maximal_cliques@, q.n_free as int),
        forall|i: int|
            0 <= i < q.quad@.len() ==> share_clique(
                d.maximal_cliques@,
                (#[trigger] q.quad@[i]).a,
                q.quad@[i].b,
            ),
{
    let n = q.n_free as nat;
    let edges = quadratic::pairs_of(q.quad@);
    let g = chordal::edge_graph(n, edges);
    let h = chordal::eliminated(g, d.peo@, n);
    let c = d.maximal_cliques@;
    assert forall|e: int| 0 <= e < edges.len() implies (#[trigger] edges[e]).0 < n && edges[e].1 < n
        && edges[e].0 != edges[e].1 by {
        assert(q.quad@[e].a < q.quad@[e].b < n);
    }
    chordal::lemma_edge_graph(n, edges);
    assert forall|k: int| 0 <= k < d.peo@.len() implies (#[trigger] d.peo@[k]) < n by {
        assert(0 <= d.peo@[k] as int);
    }
    assert forall|j: int, k: int| 0 <= j < d.peo@.len() && 0 <= k < d.peo@.len() && j
        != k implies d.peo@[j] != d.peo@[k] by {
        let (a, b) = if j < k {
            (j, k)
        } else {
            (k, j)
        };
        assert(d.peo@[b] < n);
        if d.peo@[a] == d.peo@[b] {
            assert(d.peo@.take(b)[a] == d.peo@[b]);
            assert(chordal::alive_after(n, d.peo@, b as nat)[d.peo@[b] as int]);
        }
    }
    assert forall|k: int| 0 <= k < c.len() implies is_clique_list((#[trigger] c[k])@, n as int) by {
        assert(lists::has_list(c, c[k]@));
        let i = choose|i: int| #[trigger] cliques::is_candidate(h, d.peo@, i, c[k]@);
        assert forall|j: int| 0 <= j < c[k]@.len() implies (#[trigger] c[k]@[j]) < n by {
            assert(c[k]@.contains(c[k]@[j]));
            lemma_graph_size(g, d.peo@, n, n);
        }
    }
    assert forall|i: int| 0 <= i < q.quad@.len() implies share_clique(
        c,
        (#[trigger] q.quad@[i]).a,
        q.quad@[i].b,
    ) by {
        let a = q.quad@[i].a;
        let b = q.quad@[i].b;
        assert(edges[i] == (a, b));
        assert(chordal::is_edge(edges, a as int, b as int));
        assert(g[a as int][b as int]);
        chordal::lemma_eliminated_grows(g, d.peo@, n, 0, n, a as int, b as int);
        let s = cliques::cliques_cover_edges(h, d.peo@, a, b);
        assert(lists::has_list(c, s));
        let k = choose|k: int| 0 <= k < c.len() && (#[trigger] c[k])@ == s;
        assert(c[k]@.contains(a));
    }
}

proof fn lemma_graph_size(g: Seq<Seq<bool>>, order: Seq<usize>, n: nat, k: nat)
    requires
        g.len() == n,
    ensures
        chordal::eliminated(g, order, k).len() == n,
    decreases k,
{
    if k > 0 {
        lemma_graph_size(g, order, n, (k - 1) as nat);
    }
}

/// The moments of an assignment: the values of the variables, then of the pairs.
pub open spec fn clique_moments(
    vt: VarType,
    pairs: Seq<(usize, usize)>,
    y: Seq<bool>,
) -> Seq<int> {
    Seq::new(
        y.len() + pairs.len(),
        |k: int|
            if k < y.len() {
                term::bit_value(vt, y[k])
            } else {
                pair_value(vt, pairs[k - y.len()], y)
            },
    )
}

/// The value of a pair of variables.
pub open spec fn pair_value(vt: VarType, p: (usize, usize), y: Seq<bool>) -> int {
    term::bit_value(vt, y[p.0 as int]) * term::bit_value(vt, y[p.1 as int])
}

/// One, and the values of the variables of a clique.
pub open spec fn clique_vector(vt: VarType, c: Seq<usize>, y: Seq<bool>) -> Seq<int> {
    Seq::new(
        c.len() + 1,
        |i: int|
            if i == 0 {
                1
            } else {
                term::bit_value(vt, y[c[i - 1] as int])
            },
    )
}

/// The first `j` pairs at their coefficients among the first `k` of the form.
spec fn pair_sum(
    quad: Seq<PairCoeff>,
    pairs: Seq<(usize, usize)>,
    vt: VarType,
    y: Seq<bool>,
    k: nat,
    j: nat,
) -> int
    decreases j,
{
    if j == 0 {
        0
    } else {
        pair_sum(quad, pairs, vt, y, k, (j - 1) as nat) + pair_cost(quad, pairs[j - 1], k)
            * pair_value(vt, pairs[j - 1], y)
    }
}

proof fn lemma_cost_sum(
    q: &ReducedQuadratic,
    pairs: Seq<(usize, usize)>,
    cost: Seq<i64>,
    y: Seq<bool>,
    k: nat,
)
    requires
        are_costs(q, pairs, cost),
        y.len() == q.linear@.len(),
        k <= cost.len(),
    ensures
        psd::cost_sum(cost, clique_moments(q.var_type, pairs, y), k) == (if k <= y.len() {
            quadratic::linear_value(q.var_type, q.linear@, y, k)
        } else {
            quadratic::linear_value(q.var_type, q.linear@, y, y.len()) + pair_sum(
                q.quad@,
                pairs,
                q.var_type,
                y,
                q.quad@.len(),
                (k - y.len()) as nat,
            )
        }),
    decreases k,
{
    if k > 0 {
        lemma_cost_sum(q, pairs, cost, y, (k - 1) as nat);
        let k1 = k - 1;
        assert(cost[k1] == cost[k1]);
        if k == y.len() + 1 {
            assert(pair_sum(q.quad@, pairs, q.var_type, y, q.quad@.len(), 0) == 0);
        }
    }
}

proof fn lemma_pair_sum_none(
    quad: Seq<PairCoeff>,
    pairs: Seq<(usize, usize)>,
    vt: VarType,
    y: Seq<bool>,
    j: nat,
)
    ensures
        pair_sum(quad, pairs, vt, y, 0, j) == 0,
    decreases j,
{
    if j > 0 {
        lemma_pair_sum_none(quad, pairs, vt, y, (j - 1) as nat);
        let v = pair_value(vt, pairs[j - 1], y);
        assert(0 * v == 0) by (nonlinear_arith);
    }
}

proof fn lemma_cost_absent(quad: Seq<PairCoeff>, p: (usize, usize), k: nat)
    requires
        forall|i: int| 0 <= i < k ==> (#[trigger] quad[i]).a != p.0 || quad[i].b != p.1,
    ensures
        pair_cost(quad, p, k) == 0,
    decreases k,
{
    if k > 0 {
        assert(quad[k - 1].a != p.0 || quad[k - 1].b != p.1);
        lemma_cost_absent(quad, p, (k - 1) as nat);
    }
}

/// One more coefficient counts once, at the place `at` of its pair.
proof fn lemma_pair_sum_step(
    quad: Seq<PairCoeff>,
    pairs: Seq<(usize, usize)>,
    vt: VarType,
    y: Seq<bool>,
    k: nat,
    j: nat,
    at: int,
)
    requires
        0 < k <= quad.len(),
        j <= pairs.len(),
        0 <= at < pairs.len(),
        pairs[at] == (quad[k - 1].a, quad[k - 1].b),
        forall|p: int| 0 <= p < pairs.len() && p != at ==> #[trigger] pairs[p] != pairs[at],
        pair_cost(quad, pairs[at], (k - 1) as nat) == 0,
    ensures
        pair_sum(quad, pairs, vt, y, k, j) == pair_sum(quad, pairs, vt, y, (k - 1) as nat, j) + (
        if at < j {
            quad[k - 1].coeff * pair_value(vt, pairs[at], y)
        } else {
            0
        }),
    decreases j,
{
    if j > 0 {
        let j1 = j - 1;
        lemma_pair_sum_step(quad, pairs, vt, y, k, j1 as nat, at);
        if j1 == at {
            let v = pair_value(vt, pairs[at], y);
            assert(0 * v == 0) by (nonlinear_arith);
        } else {
            assert(pairs[j1] != pairs[at]);
        }
    }
}

proof fn lemma_pair_sum(
    quad: Seq<PairCoeff>,
    pairs: Seq<(usize, usize)>,
    vt: VarType,
    y: Seq<bool>,
    k: nat,
)
    requires
        k <= quad.len(),
        forall|i: int|
            0 <= i < quad.len() ==> pairs.contains(((#[trigger] quad[i]).a, quad[i].b)),
        forall|i: int, j: int|
            0 <= i < j < quad.len() ==> (#[trigger] quad[i]).a != (#[trigger] quad[j]).a || quad[i].b
                != quad[j].b,
        forall|p: int, q: int|
            0 <= p < q < pairs.len() ==> is_before(#[trigger] pairs[p], #[trigger] pairs[q]),
    ensures
        pair_sum(quad, pairs, vt, y, k, pairs.len()) == quadratic::quad_weight(
            quad,
            |s: Seq<usize>| term::monomial(vt, s, y),
            k,
        ),
    decreases k,
{
    if k == 0 {
        lemma_pair_sum_none(quad, pairs, vt, y, pairs.len());
    } else {
        let k1 = k - 1;
        lemma_pair_sum(quad, pairs, vt, y, k1 as nat);
        let p = (quad[k1].a, quad[k1].b);
        assert(pairs.contains(p));
        let at = choose|at: int| 0 <= at < pairs.len() && pairs[at] == p;
        assert forall|i: int| 0 <= i < pairs.len() && i != at implies #[trigger] pairs[i]
            != pairs[at] by {
            if i < at {
                assert(is_before(pairs[i], pairs[at]));
            } else {
                assert(is_before(pairs[at], pairs[i]));
            }
        }
        assert forall|i: int| 0 <= i < k1 implies (#[trigger] quad[i]).a != p.0 || quad[i].b
            != p.1 by {
            assert(quad[i].a != quad[k1].a || quad[i].b != quad[k1].b);
        }
        lemma_cost_absent(quad, p, k1 as nat);
        lemma_pair_sum_step(quad, pairs, vt, y, k, pairs.len(), at);
        lemma_pair_monomial(vt, p.0, p.1, y);
        assert(quadratic::pair_of(quad[k1]) == seq![p.0, p.1]);
    }
}

proof fn lemma_pair_monomial(vt: VarType, a: usize, b: usize, y: Seq<bool>)
    ensures
        term::monomial(vt, seq![a, b], y) == pair_value(vt, (a, b), y),
{
    let s = seq![a, b];
    let t = seq![a];
    let e = Seq::<usize>::empty();
    assert(s.drop_last() =~= t);
    assert(t.drop_last() =~= e);
    assert(term::monomial(vt, e, y) == 1);
    assert(term::monomial(vt, t, y) == 1 * term::bit_value(vt, y[a as int]));
}

/// A clique's matrix at the moments of an assignment is the product of one
/// vector with itself.
proof fn lemma_clique_rank_one(
    vt: VarType,
    pairs: Seq<(usize, usize)>,
    c: Seq<usize>,
    entries: Seq<Option<usize>>,
    y: Seq<bool>,
)
    requires
        is_clique_list(c, y.len() as int),
        are_clique_entries(vt, y.len() as int, pairs, c, entries),
    ensures
        psd::is_rank_one(
            entries,
            c.len() + 1,
            clique_moments(vt, pairs, y),
            clique_vector(vt, c, y),
        ),
{
    let dim = c.len() + 1;
    let m = clique_moments(vt, pairs, y);
    let v = clique_vector(vt, c, y);
    assert forall|i: nat, j: nat| i <= j < dim implies psd::entry_value(
        entries[#[trigger] lasserre::upper_place(dim, i, j)],
        m,
    ) == v[i as int] * v[j as int] by {
        let e = entries[lasserre::upper_place(dim, i, j)];
        assert(is_clique_entry(vt, y.len() as int, pairs, c, i, j, e));
        if j == 0 {
            assert(1int * 1 == 1);
        } else {
            let j1 = j - 1;
            assert(c[j1] < y.len());
            let w = term::bit_value(vt, y[c[j1] as int]);
            if i == 0 {
                assert(1 * w == w);
            } else if i == j {
                assert(vt is Bin ==> (w == 0 || w == 1));
                assert(vt is Spin ==> (w == 1 || w == -1));
                assert(0int * 0 == 0 && 1int * 1 == 1 && (-1int) * (-1) == 1);
            }
        }
    }
}

/// Every assignment is a point of the program of a form: with the variables of
/// each clique in the first column of its factor every row holds, and the cost
/// is the value of the form without its constant part.
pub proof fn clique_program_is_relaxation(
    q: &ReducedQuadratic,
    d: &ChordalSdpDecomposition,
    pairs: Seq<(usize, usize)>,
    r: &PsdProgram,
    y: Seq<bool>,
    l: spec_fn(int) -> int,
)
    requires
        quadratic::is_decomposition(q, d),
        q.linear@.len() == q.n_free,
        forall|i: int|
            0 <= i < q.quad@.len() ==> (#[trigger] q.quad@[i]).a < q.quad@[i].b < q.n_free,
        forall|i: int, j: int|
            0 <= i < j < q.quad@.len() ==> (#[trigger] q.quad@[i]).a != (#[trigger] q.quad@[j]).a
                || q.quad@[i].b != q.quad@[j].b,
        is_clique_program(q, d.maximal_cliques@, pairs, r),
        y.len() == q.n_free,
        forall|b: int|
            0 <= b < d.maximal_cliques@.len() ==> psd::is_first_column(
                factor_start(d.maximal_cliques@, b as nat),
                clique_vector(q.var_type, (#[trigger] d.maximal_cliques@[b])@, y),
                l,
            ),
    ensures
        forall|b: int, i: nat, j: nat|
            0 <= b < d.maximal_cliques@.len() && i <= j < r.dims@[b] ==> block_row_holds(
                q,
                d.maximal_cliques@,
                pairs,
                r,
                y,
                l,
                b,
                #[trigger] lasserre::upper_place(#[trigger] r.dims@[b] as nat, i, j),
            ),
        forall|k: int|
            0 <= k < r.cost@.len() ==> psd::least_moment(q.var_type) <= #[trigger] clique_moments(
                q.var_type,
                pairs,
                y,
            )[k] <= 1,
        q.base_offset + q.higher_order_trivial + psd::cost_sum(
            r.cost@,
            clique_moments(q.var_type, pairs, y),
            r.cost@.len(),
        ) == quadratic::form_value(q, y),
{
    let c = d.maximal_cliques@;
    decomposition_covers(q, d);
    lemma_program_cost(q, c, pairs, r, y);
    lemma_moment_range(q.var_type, pairs, y);
    assert forall|b: int, i: nat, j: nat|
        0 <= b < c.len() && i <= j < r.dims@[b] implies block_row_holds(
        q,
        c,
        pairs,
        r,
        y,
        l,
        b,
        #[trigger] lasserre::upper_place(#[trigger] r.dims@[b] as nat, i, j),
    ) by {
        lemma_block_row(q, c, pairs, r, y, l, b, i, j);
    }
}

/// The cost at the moments of an assignment is the value of the form without its
/// constant part.
proof fn lemma_program_cost(
    q: &ReducedQuadratic,
    c: Seq<Vec<usize>>,
    pairs: Seq<(usize, usize)>,
    r: &PsdProgram,
    y: Seq<bool>,
)
    requires
        q.linear@.len() == q.n_free,
        y.len() == q.n_free,
        forall|i: int|
            0 <= i < q.quad@.len() ==> (#[trigger] q.quad@[i]).a < q.quad@[i].b < q.n_free
                && share_clique(c, q.quad@[i].a, q.quad@[i].b),
        forall|i: int, j: int|
            0 <= i < j < q.quad@.len() ==> (#[trigger] q.quad@[i]).a != (#[trigger] q.quad@[j]).a
                || q.quad@[i].b != q.quad@[j].b,
        is_clique_program(q, c, pairs, r),
    ensures
        q.base_offset + q.higher_order_trivial + psd::cost_sum(
            r.cost@,
            clique_moments(q.var_type, pairs, y),
            r.cost@.len(),
        ) == quadratic::form_value(q, y),
{
    let vt = q.var_type;
    lemma_cost_sum(q, pairs, r.cost@, y, r.cost@.len());
    assert forall|i: int| 0 <= i < q.quad@.len() implies pairs.contains(
        ((#[trigger] q.quad@[i]).a, q.quad@[i].b),
    ) by {
        assert(share_clique(c, q.quad@[i].a, q.quad@[i].b));
    }
    lemma_pair_sum(q.quad@, pairs, vt, y, q.quad@.len());
    assert(pair_sum(q.quad@, pairs, vt, y, q.quad@.len(), 0) == 0);
}

/// The moments of an assignment are within their bounds.
proof fn lemma_moment_range(vt: VarType, pairs: Seq<(usize, usize)>, y: Seq<bool>)
    ensures
        forall|k: int|
            0 <= k < y.len() + pairs.len() ==> psd::least_moment(vt) <= #[trigger] clique_moments(
                vt,
                pairs,
                y,
            )[k] <= 1,
{
    let m = clique_moments(vt, pairs, y);
    assert forall|k: int| 0 <= k < y.len() + pairs.len() implies psd::least_moment(vt)
        <= #[trigger] m[k] <= 1 by {
        if k >= y.len() {
            let p = pairs[k - y.len()];
            let a = term::bit_value(vt, y[p.0 as int]);
            let b = term::bit_value(vt, y[p.1 as int]);
            assert(a * 1 == a && a * 0 == 0 && a * -1 == -a);
        }
    }
}

/// A row of a block holds at the moments of an assignment.
proof fn lemma_block_row(
    q: &ReducedQuadratic,
    c: Seq<Vec<usize>>,
    pairs: Seq<(usize, usize)>,
    r: &PsdProgram,
    y: Seq<bool>,
    l: spec_fn(int) -> int,
    b: int,
    i: nat,
    j: nat,
)
    requires
        q.linear@.len() == y.len(),
        are_cliques(c, y.len() as int),
        is_clique_program(q, c, pairs, r),
        0 <= b < c.len(),
        psd::is_first_column(
            factor_start(c, b as nat),
            clique_vector(q.var_type, c[b]@, y),
            l,
        ),
        i <= j < r.dims@[b],
    ensures
        block_row_holds(
            q,
            c,
            pairs,
            r,
            y,
            l,
            b,
            lasserre::upper_place(r.dims@[b] as nat, i, j),
        ),
{
    let vt = q.var_type;
    let list = c[b]@;
    let rows = block_of(c, r, b);
    assert(is_clique_list(list, y.len() as int));
    assert(r.dims@[b] == list.len() + 1);
    let entries = choose|entries: Seq<Option<usize>>| #[trigger]
        psd::is_block(entries, list.len() + 1, factor_start(c, b as nat), rows)
            && are_clique_entries(vt, y.len() as int, pairs, list, entries);
    lemma_clique_rank_one(vt, pairs, list, entries, y);
    psd::rank_one_is_feasible(
        entries,
        list.len() + 1,
        factor_start(c, b as nat),
        rows,
        clique_moments(vt, pairs, y),
        clique_vector(vt, list, y),
        l,
        i,
        j,
    );
}

/// The rows of block `b`.
pub open spec fn block_of(c: Seq<Vec<usize>>, r: &PsdProgram, b: int) -> Seq<PsdRow> {
    r.rows@.subrange(rows_start(c, b as nat), rows_start(c, (b + 1) as nat))
}

/// Row `p` of block `b` holds at the moments of an assignment.
pub open spec fn block_row_holds(
    q: &ReducedQuadratic,
    c: Seq<Vec<usize>>,
    pairs: Seq<(usize, usize)>,
    r: &PsdProgram,
    y: Seq<bool>,
    l: spec_fn(int) -> int,
    b: int,
    p: int,
) -> bool {
    let row = block_of(c, r, b)[p];
    psd::row_value(row, clique_moments(q.var_type, pairs, y), l) == row.rhs
}

} // verus!
