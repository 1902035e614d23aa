//! Persistent labels of a quadratic objective over bits, from a minimum cut.
//!
//! The network has a source, a sink and two nodes per variable: one for the
//! value one and one for the value zero. Every arc has a conjugate, so a
//! minimum cut is consistent.

use crate::domain::VarType;
use crate::kernelization::maxflow::Dinic;
use crate::kernelization::maxflow;
use crate::merge::KeySum;
use crate::merge;
use crate::term;
use vstd::prelude::*;

verus! {

/// The sink.
pub open spec fn sink(n: nat) -> int {
    (2 * n + 1) as int
}

/// The conjugate of a node.
pub open spec fn conjugate(n: nat, v: int) -> int {
    if v == 0 {
        sink(n)
    } else if v == sink(n) {
        0
    } else if v <= n {
        v + n
    } else {
        v - n
    }
}

/// What the cut pays for an arc.
pub open spec fn arc_cost(s: Seq<bool>, u: int, v: int, c: int) -> int {
    if s[u] && !s[v] {
        c
    } else {
        0
    }
}

/// What the cut pays for an arc and its conjugate.
pub open spec fn sym_cost(n: nat, s: Seq<bool>, u: int, v: int, c: int) -> int {
    arc_cost(s, u, v, c) + arc_cost(s, conjugate(n, v), conjugate(n, u), c)
}

/// What the cut pays for the linear term of variable `i`.
pub open spec fn linear_cost(n: nat, s: Seq<bool>, i: int, a: int) -> int {
    if a > 0 {
        sym_cost(n, s, 1 + i, sink(n), a)
    } else if a < 0 {
        sym_cost(n, s, 0, 1 + i, -a)
    } else {
        0
    }
}

/// What the cut pays for the product of variables `i` and `j`.
pub open spec fn product_cost(n: nat, s: Seq<bool>, i: int, j: int, b: int) -> int {
    if b > 0 {
        sym_cost(n, s, 1 + i, 1 + n + j, b)
    } else if b < 0 {
        sym_cost(n, s, 0, 1 + j, -b) + sym_cost(n, s, 1 + n + i, 1 + n + j, -b)
    } else {
        0
    }
}

/// What the cut pays for the first `k` linear terms.
pub open spec fn linear_costs(n: nat, linear: Seq<i128>, s: Seq<bool>, k: nat) -> int
    decreases k,
{
    if k == 0 {
        0
    } else {
        linear_costs(n, linear, s, (k - 1) as nat) + linear_cost(
            n,
            s,
            k - 1,
            linear[k - 1] as int,
        )
    }
}

/// What the cut pays for the first `k` products.
pub open spec fn product_costs(n: nat, quadratic: Seq<KeySum>, s: Seq<bool>, k: nat) -> int
    decreases k,
{
    if k == 0 {
        0
    } else {
        product_costs(n, quadratic, s, (k - 1) as nat) + product_cost(
            n,
            s,
            quadratic[k - 1].key@[0] as int,
            quadratic[k - 1].key@[1] as int,
            quadratic[k - 1].sum as int,
        )
    }
}

/// What a cut pays in all.
pub open spec fn cut_cost(
    n: nat,
    linear: Seq<i128>,
    quadratic: Seq<KeySum>,
    s: Seq<bool>,
) -> int {
    linear_costs(n, linear, s, n) + product_costs(n, quadratic, s, quadratic.len())
}

/// A set with the source and without the sink.
pub open spec fn is_cut(n: nat, s: Seq<bool>) -> bool {
    s.len() == 2 * n + 2 && s[0] && !s[sink(n)]
}

/// No cut pays less.
pub open spec fn is_min_cut(
    n: nat,
    linear: Seq<i128>,
    quadratic: Seq<KeySum>,
    s: Seq<bool>,
) -> bool {
    is_cut(n, s) && forall|c: Seq<bool>| #[trigger]
        is_cut(n, c) ==> cut_cost(n, linear, quadratic, s) <= cut_cost(n, linear, quadratic, c)
}

/// The first set is within the second.
pub open spec fn within(n: nat, a: Seq<bool>, b: Seq<bool>) -> bool {
    forall|v: int| 0 <= v < 2 * n + 2 && #[trigger] a[v] ==> b[v]
}

/// The minimum cut that is within all minimum cuts.
pub open spec fn is_least_cut(
    n: nat,
    linear: Seq<i128>,
    quadratic: Seq<KeySum>,
    s: Seq<bool>,
) -> bool {
    is_min_cut(n, linear, quadratic, s) && forall|c: Seq<bool>| #[trigger]
        is_min_cut(n, linear, quadratic, c) ==> within(n, s, c)
}

/// The labels of a cut.
pub open spec fn labels(n: nat, s: Seq<bool>) -> Seq<Option<bool>> {
    Seq::new(
        n,
        |i: int|
            if s[1 + i] {
                Some(true)
            } else if s[1 + n + i] {
                Some(false)
            } else {
                None
            },
    )
}

/// The keys are pairs of variables.
pub open spec fn pair_keys(n: nat, quadratic: Seq<KeySum>) -> bool {
    forall|k: int|
        0 <= k < quadratic.len() ==> (#[trigger] quadratic[k]).key@.len() == 2
            && quadratic[k].key@[0] < quadratic[k].key@[1] < n && quadratic[k].sum > i128::MIN
}

/// The labels are those of the least minimum cut.
pub open spec fn is_persistent_labels(
    n: nat,
    linear: Seq<i128>,
    quadratic: Seq<KeySum>,
    r: Seq<Option<bool>>,
) -> bool {
    exists|s: Seq<bool>| #[trigger]
        is_least_cut(n, linear, quadratic, s) && r == labels(n, s)
}

/// The conjugate of a node.
fn conjugate_node(n: usize, v: usize) -> (r: usize)
    requires
        v < 2 * n + 2,
        2 * n + 2 <= usize::MAX,
    ensures
        r == conjugate(n as nat, v as int),
        r < 2 * n + 2,
{
    if v == 0 {
        2 * n + 1
    } else if v == 2 * n + 1 {
        0
    } else if v <= n {
        v + n
    } else {
        v - n
    }
}

/// Add an arc and its conjugate.
fn add_sym(g: &mut Dinic, n: usize, u: usize, v: usize, c: i128)
    requires
        old(g).wf(),
        old(g).n == 2 * n + 2,
        2 * n + 2 <= usize::MAX,
        u < 2 * n + 2,
        v < 2 * n + 2,
        c > 0,
        old(g).m() + 4 <= maxflow::NONE,
    ensures
        final(g).wf(),
        final(g).n == old(g).n,
        final(g).m() == old(g).m() + 4,
        forall|s: Seq<bool>| #[trigger]
            final(g).cut(s) == old(g).cut(s) + sym_cost(
                n as nat,
                s,
                u as int,
                v as int,
                c as int,
            ),
{
    let ghost g0 = *g;
    let cv: usize = conjugate_node(n, v);
    let cu: usize = conjugate_node(n, u);
    g.add_edge(u, v, c);
    let ghost g1 = *g;
    g.add_edge(cv, cu, c);
    proof {
        assert forall|s: Seq<bool>| #[trigger]
            g.cut(s) == old(g).cut(s) + sym_cost(n as nat, s, u as int, v as int, c as int) by {
            assert(g1.cut(s) == g0.cut(s) + arc_cost(s, u as int, v as int, c as int));
        }
    }
}

/// The labels that every minimiser of a quadratic objective over bits has, as
/// far as the least minimum cut shows them.
pub fn qpbo_fixings(n: usize, linear: &Vec<i128>, quadratic: &Vec<KeySum>) -> (r: Vec<
    Option<bool>,
>)
    requires
        linear@.len() == n,
        forall|i: int| 0 <= i < n ==> #[trigger] linear@[i] > i128::MIN,
        pair_keys(n as nat, quadratic@),
        4 * n + 8 * quadratic@.len() + 2 < usize::MAX,
    ensures
        is_persistent_labels(n as nat, linear@, quadratic@, r@),
{
    let s: usize = 0;
    let t: usize = 2 * n + 1;
    let mut g = Dinic::new(2 * n + 2);
    let ghost lin = linear@;
    let ghost quad = quadratic@;
    let mut i: usize = 0;
    while i < n
        invariant
            i <= n,
            lin == linear@,
            lin.len() == n,
            forall|i: int| 0 <= i < n ==> #[trigger] linear@[i] > i128::MIN,
            4 * n + 8 * quad.len() + 2 < usize::MAX,
            t == 2 * n + 1,
            g.wf(),
            g.n == 2 * n + 2,
            g.m() <= 4 * i,
            forall|c: Seq<bool>| #[trigger] g.cut(c) == linear_costs(n as nat, lin, c, i as nat),
        decreases n - i,
    {
        let ghost g0 = g;
        let a: i128 = linear[i];
        if a > 0 {
            add_sym(&mut g, n, 1 + i, t, a);
        } else if a < 0 {
            add_sym(&mut g, n, 0, 1 + i, -a);
        }
        proof {
            assert forall|c: Seq<bool>| #[trigger] g.cut(c) == linear_costs(
                n as nat,
                lin,
                c,
                (i + 1) as nat,
            ) by {
                assert(g0.cut(c) == linear_costs(n as nat, lin, c, i as nat));
            }
        }
        i += 1;
    }
    let mut k: usize = 0;
    while k < quadratic.len()
        invariant
            k <= quad.len(),
            lin == linear@,
            quad == quadratic@,
            pair_keys(n as nat, quad),
            4 * n + 8 * quad.len() + 2 < usize::MAX,
            t == 2 * n + 1,
            g.wf(),
            g.n == 2 * n + 2,
            g.m() <= 4 * n + 8 * k,
            forall|c: Seq<bool>| #[trigger]
                g.cut(c) == linear_costs(n as nat, lin, c, n as nat) + product_costs(
                    n as nat,
                    quad,
                    c,
                    k as nat,
                ),
        decreases quad.len() - k,
    {
        let ghost g0 = g;
        assert(quad[k as int].key@.len() == 2);
        let p: usize = quadratic[k].key[0];
        let q: usize = quadratic[k].key[1];
        let b: i128 = quadratic[k].sum;
        if b > 0 {
            add_sym(&mut g, n, 1 + p, 1 + n + q, b);
        } else if b < 0 {
            add_sym(&mut g, n, 0, 1 + q, -b);
            let ghost g1 = g;
            add_sym(&mut g, n, 1 + n + p, 1 + n + q, -b);
            proof {
                assert forall|c: Seq<bool>| #[trigger] g.cut(c) == g0.cut(c) + product_cost(
                    n as nat,
                    c,
                    p as int,
                    q as int,
                    b as int,
                ) by {
                    assert(g1.cut(c) == g0.cut(c) + sym_cost(
                        n as nat,
                        c,
                        0,
                        1 + q as int,
                        -(b as int),
                    ));
                }
            }
        }
        proof {
            assert forall|c: Seq<bool>| #[trigger] g.cut(c) == linear_costs(
                n as nat,
                lin,
                c,
                n as nat,
            ) + product_costs(n as nat, quad, c, (k + 1) as nat) by {
                assert(g0.cut(c) == linear_costs(n as nat, lin, c, n as nat) + product_costs(
                    n as nat,
                    quad,
                    c,
                    k as nat,
                ));
            }
        }
        k += 1;
    }
    let ghost start = g;
    g.max_flow(s, t);
    let reach = g.reachable_from(s);
    proof {
        lemma_reach_is_least(n as nat, lin, quad, start, g, t, reach@);
    }
    let mut r: Vec<Option<bool>> = Vec::new();
    let mut j: usize = 0;
    while j < n
        invariant
            j <= n,
            reach@.len() == 2 * n + 2,
            2 * n + 2 <= usize::MAX,
            r@ == labels(n as nat, reach@).take(j as int),
        decreases n - j,
    {
        let label: Option<bool> = if reach[1 + j] {
            Some(true)
        } else if reach[1 + n + j] {
            Some(false)
        } else {
            None
        };
        r.push(label);
        assert(labels(n as nat, reach@).take(j + 1) =~= labels(n as nat, reach@).take(
            j as int,
        ).push(label));
        j += 1;
    }
    assert(r@ =~= labels(n as nat, reach@));
    r
}

/// What the source reaches after a maximum flow is the least minimum cut.
proof fn lemma_reach_is_least(
    n: nat,
    lin: Seq<i128>,
    quad: Seq<KeySum>,
    a: Dinic,
    b: Dinic,
    t: usize,
    r: Seq<bool>,
)
    requires
        a.wf(),
        b.wf(),
        a.n == 2 * n + 2,
        b.n == a.n,
        b.to == a.to,
        forall|c: Seq<bool>| #[trigger] a.cut(c) == cut_cost(n, lin, quad, c),
        exists|flow: int| #[trigger]
            maxflow::pushed_through(a, b, 0, t, flow),
        t == sink(n),
        exists|level: Seq<usize>| #[trigger]
            maxflow::is_levels(b.to@, b.cap@, b.n as nat, 0, level) && level[sink(n)]
                == maxflow::NONE,
        maxflow::is_reach(b.to@, b.cap@, b.n as nat, 0, r),
    ensures
        is_least_cut(n, lin, quad, r),
{
    let flow = choose|flow: int| #[trigger] maxflow::pushed_through(a, b, 0, t, flow);
    let level = choose|level: Seq<usize>| #[trigger]
        maxflow::is_levels(b.to@, b.cap@, b.n as nat, 0, level) && level[sink(n)]
            == maxflow::NONE;
    let to = b.to@;
    let cap = b.cap@;
    let reached = Seq::new(b.n as nat, |v: int| level[v] != maxflow::NONE);
    assert(maxflow::is_closed(to, cap, reached)) by {
        assert forall|e: int|
            0 <= e < to.len() && reached[maxflow::start_of(to, e) as int] && #[trigger] cap[e]
                > 0 implies reached[to[e] as int] by {
            assert(0 <= maxflow::mate(e) < to.len());
            assert(to[maxflow::mate(e)] < b.n);
            assert(to[e] < b.n);
        }
    }
    assert(reached[0]);
    assert(!reached[sink(n)]);
    assert(!r[sink(n)]);
    assert(is_cut(n, r));
    maxflow::lemma_leaving_closed(to, cap, r, to.len());
    assert(b.cut(r) == 0);
    assert(b.cut(r) == a.cut(r) - flow);
    assert(cut_cost(n, lin, quad, r) == flow);
    assert forall|c: Seq<bool>| #[trigger] is_cut(n, c) implies cut_cost(n, lin, quad, r)
        <= cut_cost(n, lin, quad, c) by {
        assert(b.cut(c) == a.cut(c) - flow);
        maxflow::lemma_leaving_nonneg(to, cap, c, to.len());
    }
    assert forall|c: Seq<bool>| #[trigger] is_min_cut(n, lin, quad, c) implies within(n, r, c) by {
        assert(is_cut(n, c));
        assert(is_cut(n, r));
        assert(cut_cost(n, lin, quad, c) <= cut_cost(n, lin, quad, r));
        assert(b.cut(c) == a.cut(c) - flow);
        maxflow::lemma_leaving_nonneg(to, cap, c, to.len());
        assert(b.cut(c) == 0);
        maxflow::lemma_leaving_closed(to, cap, c, to.len());
        assert forall|v: int| 0 <= v < 2 * n + 2 && #[trigger] r[v] implies c[v] by {
            assert(maxflow::is_closed(to, cap, c));
        }
    }
}

/// The value of a quadratic form over bits.
pub open spec fn form_value(linear: Seq<i128>, quadratic: Seq<KeySum>, x: Seq<bool>) -> int {
    linear_value(linear, x, linear.len()) + merge::weighted(quadratic, product_at(x))
}

/// The value of the first `k` linear terms.
pub open spec fn linear_value(linear: Seq<i128>, x: Seq<bool>, k: nat) -> int
    decreases k,
{
    if k == 0 {
        0
    } else {
        linear_value(linear, x, (k - 1) as nat) + (if x[k - 1] {
            linear[k - 1] as int
        } else {
            0
        })
    }
}

/// The product of the listed bits.
pub open spec fn product_at(x: Seq<bool>) -> spec_fn(Seq<usize>) -> int {
    |key: Seq<usize>| term::monomial(VarType::Bin, key, x)
}

/// The cut of an assignment.
pub open spec fn assignment_cut(n: nat, x: Seq<bool>) -> Seq<bool> {
    Seq::new(
        2 * n + 2,
        |v: int|
            if v == 0 {
                true
            } else if v <= n {
                x[v - 1]
            } else if v <= 2 * n {
                !x[v - n - 1]
            } else {
                false
            },
    )
}

/// The cost that does not depend on the assignment.
pub open spec fn fixed_cost(linear: Seq<i128>, quadratic: Seq<KeySum>) -> int {
    linear_fixed(linear, linear.len()) + product_fixed(quadratic, quadratic.len())
}

/// The part of the linear terms.
pub open spec fn linear_fixed(linear: Seq<i128>, k: nat) -> int
    decreases k,
{
    if k == 0 {
        0
    } else {
        linear_fixed(linear, (k - 1) as nat) + (if linear[k - 1] < 0 {
            -2 * linear[k - 1]
        } else {
            0
        })
    }
}

/// The part of the products.
pub open spec fn product_fixed(quadratic: Seq<KeySum>, k: nat) -> int
    decreases k,
{
    if k == 0 {
        0
    } else {
        product_fixed(quadratic, (k - 1) as nat) + (if quadratic[k - 1].sum < 0 {
            -2 * quadratic[k - 1].sum
        } else {
            0
        })
    }
}

proof fn lemma_linear_cost(n: nat, linear: Seq<i128>, x: Seq<bool>, k: nat)
    requires
        k <= n,
        x.len() == n,
        linear.len() == n,
    ensures
        linear_costs(n, linear, assignment_cut(n, x), k) == 2 * linear_value(linear, x, k)
            + linear_fixed(linear, k),
    decreases k,
{
    if k > 0 {
        lemma_linear_cost(n, linear, x, (k - 1) as nat);
        let s = assignment_cut(n, x);
        let i = k - 1;
        assert(s[1 + i] == x[i]);
        assert(s[1 + n + i] == !x[i]);
        assert(s[0] && !s[sink(n)]);
    }
}

proof fn lemma_product_cost(n: nat, quad: Seq<KeySum>, x: Seq<bool>, k: nat)
    requires
        k <= quad.len(),
        x.len() == n,
        pair_keys(n, quad),
    ensures
        product_costs(n, quad, assignment_cut(n, x), k) == 2 * merge::weighted(
            quad.take(k as int),
            product_at(x),
        ) + product_fixed(quad, k),
    decreases k,
{
    if k > 0 {
        lemma_product_cost(n, quad, x, (k - 1) as nat);
        assert(quad.take(k as int).drop_last() =~= quad.take(k - 1));
        let s = assignment_cut(n, x);
        let e = quad[k - 1];
        let i = e.key@[0] as int;
        let j = e.key@[1] as int;
        assert(s[1 + i] == x[i]);
        assert(s[1 + n + i] == !x[i]);
        assert(s[1 + j] == x[j]);
        assert(s[1 + n + j] == !x[j]);
        assert(s[0] && !s[sink(n)]);
        lemma_pair_product(e.key@, x);
        let m = term::monomial(VarType::Bin, e.key@, x);
        assert(e.sum * m == if x[i] && x[j] { e.sum as int } else { 0 }) by (nonlinear_arith)
            requires
                m == if x[i] && x[j] { 1int } else { 0 },
        ;
    }
}

/// The product of two bits.
pub proof fn lemma_pair_product(key: Seq<usize>, x: Seq<bool>)
    requires
        key.len() == 2,
    ensures
        term::monomial(VarType::Bin, key, x) == (if x[key[0] as int] && x[key[1] as int] {
            1int
        } else {
            0
        }),
        term::monomial(VarType::Spin, key, x) == (if x[key[0] as int] == x[key[1] as int] {
            1int
        } else {
            -1
        }),
{
    let p = key.drop_last();
    assert(p.drop_last().len() == 0);
    assert(p.last() == key[0]);
    assert(term::monomial(VarType::Bin, p.drop_last(), x) == 1);
    assert(term::monomial(VarType::Spin, p.drop_last(), x) == 1);
    let a = term::bit_value(VarType::Bin, x[key[0] as int]);
    let b = term::bit_value(VarType::Bin, x[key[1] as int]);
    assert(term::monomial(VarType::Bin, p, x) == 1 * a);
    assert(term::monomial(VarType::Bin, key, x) == (1 * a) * b);
    let c = term::bit_value(VarType::Spin, x[key[0] as int]);
    let d = term::bit_value(VarType::Spin, x[key[1] as int]);
    assert(term::monomial(VarType::Spin, p, x) == 1 * c);
    assert(term::monomial(VarType::Spin, key, x) == (1 * c) * d);
}

/// The cut of an assignment pays twice its value and a constant.
/// The cost of the cut of an assignment.
pub proof fn lemma_assignment_cost(n: nat, lin: Seq<i128>, quad: Seq<KeySum>, x: Seq<bool>)
    requires
        x.len() == n,
        lin.len() == n,
        pair_keys(n, quad),
    ensures
        cut_cost(n, lin, quad, assignment_cut(n, x)) == 2 * form_value(lin, quad, x) + fixed_cost(
            lin,
            quad,
        ),
        is_cut(n, assignment_cut(n, x)),
{
    lemma_linear_cost(n, lin, x, n);
    lemma_product_cost(n, quad, x, quad.len());
    assert(quad.take(quad.len() as int) =~= quad);
}

spec fn join(a: Seq<bool>, b: Seq<bool>) -> Seq<bool> {
    Seq::new(a.len(), |v: int| a[v] || b[v])
}

spec fn meet(a: Seq<bool>, b: Seq<bool>) -> Seq<bool> {
    Seq::new(a.len(), |v: int| a[v] && b[v])
}

spec fn conjugate_cut(n: nat, s: Seq<bool>) -> Seq<bool> {
    Seq::new(2 * n + 2, |v: int| !s[conjugate(n, v)])
}

proof fn lemma_sym_submodular(n: nat, a: Seq<bool>, b: Seq<bool>, u: int, v: int, c: int)
    requires
        a.len() == 2 * n + 2,
        b.len() == 2 * n + 2,
        0 <= u < 2 * n + 2,
        0 <= v < 2 * n + 2,
        c >= 0,
    ensures
        sym_cost(n, join(a, b), u, v, c) + sym_cost(n, meet(a, b), u, v, c) <= sym_cost(
            n,
            a,
            u,
            v,
            c,
        ) + sym_cost(n, b, u, v, c),
        sym_cost(n, conjugate_cut(n, a), u, v, c) == sym_cost(n, a, u, v, c),
{
    assert(conjugate(n, conjugate(n, u)) == u);
    assert(conjugate(n, conjugate(n, v)) == v);
}

proof fn lemma_linear_submodular(n: nat, lin: Seq<i128>, a: Seq<bool>, b: Seq<bool>, k: nat)
    requires
        a.len() == 2 * n + 2,
        b.len() == 2 * n + 2,
        k <= n,
    ensures
        linear_costs(n, lin, join(a, b), k) + linear_costs(n, lin, meet(a, b), k) <= linear_costs(
            n,
            lin,
            a,
            k,
        ) + linear_costs(n, lin, b, k),
        linear_costs(n, lin, conjugate_cut(n, a), k) == linear_costs(n, lin, a, k),
    decreases k,
{
    if k > 0 {
        lemma_linear_submodular(n, lin, a, b, (k - 1) as nat);
        let c = lin[k - 1] as int;
        if c > 0 {
            lemma_sym_submodular(n, a, b, k as int, sink(n), c);
        } else if c < 0 {
            lemma_sym_submodular(n, a, b, 0, k as int, -c);
        }
    }
}

proof fn lemma_product_submodular(n: nat, quad: Seq<KeySum>, a: Seq<bool>, b: Seq<bool>, k: nat)
    requires
        a.len() == 2 * n + 2,
        b.len() == 2 * n + 2,
        k <= quad.len(),
        pair_keys(n, quad),
    ensures
        product_costs(n, quad, join(a, b), k) + product_costs(n, quad, meet(a, b), k)
            <= product_costs(n, quad, a, k) + product_costs(n, quad, b, k),
        product_costs(n, quad, conjugate_cut(n, a), k) == product_costs(n, quad, a, k),
    decreases k,
{
    if k > 0 {
        lemma_product_submodular(n, quad, a, b, (k - 1) as nat);
        let e = quad[k - 1];
        let i = e.key@[0] as int;
        let j = e.key@[1] as int;
        let c = e.sum as int;
        if c > 0 {
            lemma_sym_submodular(n, a, b, 1 + i, 1 + n + j, c);
        } else if c < 0 {
            lemma_sym_submodular(n, a, b, 0, 1 + j, -c);
            lemma_sym_submodular(n, a, b, 1 + n + i, 1 + n + j, -c);
        }
    }
}

proof fn lemma_cost_submodular(
    n: nat,
    lin: Seq<i128>,
    quad: Seq<KeySum>,
    a: Seq<bool>,
    b: Seq<bool>,
)
    requires
        is_cut(n, a),
        is_cut(n, b),
        pair_keys(n, quad),
    ensures
        cut_cost(n, lin, quad, join(a, b)) + cut_cost(n, lin, quad, meet(a, b)) <= cut_cost(
            n,
            lin,
            quad,
            a,
        ) + cut_cost(n, lin, quad, b),
        cut_cost(n, lin, quad, conjugate_cut(n, a)) == cut_cost(n, lin, quad, a),
        is_cut(n, join(a, b)),
        is_cut(n, meet(a, b)),
        is_cut(n, conjugate_cut(n, a)),
{
    lemma_linear_submodular(n, lin, a, b, n);
    lemma_product_submodular(n, quad, a, b, quad.len());
}

/// `x` with the labelled variables at their labels.
pub open spec fn with_labels(x: Seq<bool>, r: Seq<Option<bool>>) -> Seq<bool> {
    Seq::new(
        x.len(),
        |i: int|
            match r[i] {
                Some(b) => b,
                None => x[i],
            },
    )
}

/// Labels from the least minimum cut are persistent: setting them never raises
/// the form, and every minimiser has them.
pub proof fn labels_are_persistent(
    n: nat,
    lin: Seq<i128>,
    quad: Seq<KeySum>,
    r: Seq<Option<bool>>,
    x: Seq<bool>,
)
    requires
        lin.len() == n,
        pair_keys(n, quad),
        is_persistent_labels(n, lin, quad, r),
        x.len() == n,
    ensures
        form_value(lin, quad, with_labels(x, r)) <= form_value(lin, quad, x),
        (forall|y: Seq<bool>|
            y.len() == n ==> form_value(lin, quad, x) <= #[trigger] form_value(lin, quad, y))
            ==> with_labels(x, r) == x,
{
    let least = choose|s: Seq<bool>| #[trigger]
        is_least_cut(n, lin, quad, s) && r == labels(n, s);
    let sx = assignment_cut(n, x);
    let conj = conjugate_cut(n, least);
    lemma_assignment_cost(n, lin, quad, x);
    lemma_cost_submodular(n, lin, quad, least, least);
    assert(is_min_cut(n, lin, quad, conj));
    assert(within(n, least, conj));
    let a = join(sx, least);
    lemma_cost_submodular(n, lin, quad, sx, least);
    let m = meet(sx, least);
    assert(is_cut(n, m));
    assert(cut_cost(n, lin, quad, least) <= cut_cost(n, lin, quad, m));
    let b = meet(a, conj);
    lemma_cost_submodular(n, lin, quad, a, conj);
    assert(is_cut(n, join(a, conj)));
    assert(cut_cost(n, lin, quad, conj) <= cut_cost(n, lin, quad, join(a, conj)));
    let y = with_labels(x, r);
    assert(b =~= assignment_cut(n, y)) by {
        assert forall|v: int| 0 <= v < 2 * n + 2 implies b[v] == assignment_cut(n, y)[v] by {
            if 1 <= v <= n {
                let i = v - 1;
                assert(conjugate(n, v) == 1 + n + i);
                assert(least[v] ==> conj[v]);
                assert(sx[v] == x[i]);
                assert(r[i] == labels(n, least)[i]);
            } else if n < v <= 2 * n {
                let i = v - n - 1;
                assert(conjugate(n, v) == 1 + i);
                assert(least[v] ==> conj[v]);
                assert(least[1 + i] ==> conj[1 + i]);
                assert(conjugate(n, 1 + i) == v);
                assert(sx[v] == !x[i]);
                assert(r[i] == labels(n, least)[i]);
            } else if v == 0 {
                assert(conj[0]);
            } else {
                assert(!conj[v]);
            }
        }
    }
    lemma_assignment_cost(n, lin, quad, y);
    if forall|z: Seq<bool>|
        z.len() == n ==> form_value(lin, quad, x) <= #[trigger] form_value(lin, quad, z) {
        assert(form_value(lin, quad, x) <= form_value(lin, quad, y));
        assert(cut_cost(n, lin, quad, m) <= cut_cost(n, lin, quad, least));
        assert(is_min_cut(n, lin, quad, m)) by {
            assert forall|c: Seq<bool>| #[trigger] is_cut(n, c) implies cut_cost(n, lin, quad, m)
                <= cut_cost(n, lin, quad, c) by {
                assert(cut_cost(n, lin, quad, least) <= cut_cost(n, lin, quad, c));
            }
        }
        assert(within(n, least, m));
        assert(y =~= x) by {
            assert forall|i: int| 0 <= i < n implies y[i] == x[i] by {
                assert(r[i] == labels(n, least)[i]);
                assert(least[1 + i] ==> m[1 + i]);
                assert(least[1 + n + i] ==> m[1 + n + i]);
                assert(sx[1 + i] == x[i]);
                assert(sx[1 + n + i] == !x[i]);
            }
        }
    }
}

} // verus!
