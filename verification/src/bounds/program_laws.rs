//! How tight the linear programs are: with whole variables they are the objective.

use crate::active::ActiveTerms;
use crate::active;
use crate::bounds::lp::NodeLp;
use crate::bounds::lp;
use crate::bounds::product_lp::{ProductLp, Row, Step};
use crate::bounds::product_lp;
use crate::bounds::rlt::LinearBound;
use crate::bounds::rlt;
use crate::bounds::sherali_adams::{SaCutKind, SheraliAdamsConfig};
use crate::bounds::sherali_adams;
use crate::bounds::solved;
use crate::domain::{VarDomain, VarType};
use crate::instance::HuboInstance;
use crate::lasserre;
use crate::lists;
use crate::node::Node;
use crate::node;
use crate::restriction;
use crate::term::Term;
use crate::term;
use vstd::prelude::*;

verus! {

/// A number that a variable takes: 0 or 1 for bits, -1 or 1 for spins.
pub open spec fn is_whole(vt: VarType, c: int) -> bool {
    c == 1 || c == (match vt {
        VarType::Bin => 0int,
        VarType::Spin => -1,
    })
}

/// At whole factors the rows of a product leave one value for it within its bounds:
/// the product of its factors.
pub proof fn rows_fix_the_product(
    vt: VarType,
    s: Step,
    rows: Seq<Row>,
    at: int,
    point: Seq<int>,
)
    requires
        product_lp::is_mccormick(vt, s, rows, at),
        is_whole(vt, point[s.a as int]),
        is_whole(vt, point[s.b as int]),
        vt == VarType::Bin ==> 0 <= point[s.w as int] <= 1,
        vt == VarType::Spin ==> -1 <= point[s.w as int] <= 1,
    ensures
        (forall|r: int|
            at <= r < at + product_lp::rows_per_step(vt) ==> product_lp::meets(
                #[trigger] rows[r],
                point,
            )) <==> point[s.w as int] == point[s.a as int] * point[s.b as int],
{
    let w = point[s.w as int];
    let a = point[s.a as int];
    let b = point[s.b as int];
    assert(a * b == if a == 0 || b == 0 { 0 } else if a == b { 1 } else { -1int })
        by (nonlinear_arith)
        requires
            a == 0 || a == 1 || a == -1,
            b == 0 || b == 1 || b == -1,
    ;
    reveal_with_fuel(product_lp::row_sum, 4);
    assert(1 * w == w && -1 * w == -w && 1 * a == a && -1 * a == -a && 1 * b == b && -1 * b == -b);
    match vt {
        VarType::Bin => {
            assert(rows[at].entries@[0].col == s.w && rows[at].entries@[1].col == s.a);
            assert(rows[at + 1].entries@[0].col == s.w && rows[at + 1].entries@[1].col == s.b);
            assert(rows[at + 2].entries@[0].col == s.w && rows[at + 2].entries@[1].col == s.a
                && rows[at + 2].entries@[2].col == s.b);
            assert(product_lp::meets(rows[at], point) == (w - a <= 0));
            assert(product_lp::meets(rows[at + 1], point) == (w - b <= 0));
            assert(product_lp::meets(rows[at + 2], point) == (-w + a + b <= 1));
        },
        VarType::Spin => {
            assert(rows[at].entries@[0].col == s.w && rows[at].entries@[1].col == s.a
                && rows[at].entries@[2].col == s.b);
            assert(rows[at + 1].entries@[0].col == s.w && rows[at + 1].entries@[1].col == s.a
                && rows[at + 1].entries@[2].col == s.b);
            assert(rows[at + 2].entries@[0].col == s.w && rows[at + 2].entries@[1].col == s.a
                && rows[at + 2].entries@[2].col == s.b);
            assert(rows[at + 3].entries@[0].col == s.w && rows[at + 3].entries@[1].col == s.a
                && rows[at + 3].entries@[2].col == s.b);
            assert(product_lp::meets(rows[at], point) == (w - a + b <= 1));
            assert(product_lp::meets(rows[at + 1], point) == (w + a - b <= 1));
            assert(product_lp::meets(rows[at + 2], point) == (-w + a + b <= 1));
            assert(product_lp::meets(rows[at + 3], point) == (-w - a - b <= 1));
        },
    }
}

/// The assignment of a point with whole variables.
pub open spec fn assignment_of(n: nat, p: Seq<int>) -> Seq<bool> {
    Seq::new(n, |i: int| p[i] == 1)
}

proof fn lemma_column<V: VarDomain>(
    terms: Seq<Term>,
    fixed: Seq<Option<bool>>,
    steps: Seq<Step>,
    lp: &ProductLp,
    p: Seq<int>,
    c: int,
    len: nat,
)
    requires
        product_lp::is_product_lp(V::tag(), terms, fixed, steps, lp),
        solved::is_lp_point(lp, p),
        forall|i: int| 0 <= i < lp.n_vars ==> is_whole(V::tag(), #[trigger] p[i]),
        forall|i: int|
            lp.n_vars <= i < p.len() ==> #[trigger] has_step(steps, i),
        0 <= c < p.len(),
        product_lp::column_list(lp.n_vars as int, lp.products@, c).len() == len,
    ensures
        p[c] == term::monomial(
            V::tag(),
            product_lp::column_list(lp.n_vars as int, lp.products@, c),
            assignment_of(lp.n_vars as nat, p),
        ),
        is_whole(V::tag(), p[c]),
    decreases len,
{
    let vt = V::tag();
    let n = lp.n_vars as int;
    let x = assignment_of(lp.n_vars as nat, p);
    let list = product_lp::column_list(n, lp.products@, c);
    if c < n {
        assert(list =~= seq![c as usize]);
        assert(list.drop_last() =~= Seq::empty());
        reveal_with_fuel(term::monomial, 2);
        assert(1 * term::bit_value(vt, x[c]) == term::bit_value(vt, x[c]));
        assert(is_whole(vt, p[c]));
    } else {
        assert(has_step(steps, c));
        let i = choose|i: int| 0 <= i < steps.len() && (#[trigger] steps[i]).w == c;
        let s = steps[i];
        assert(product_lp::is_step(n, lp.products@, steps[i]));
        let j = choose|j: int| product_lp::is_split(n, lp.products@, s, j);
        let rest = product_lp::column_list(n, lp.products@, s.a as int);
        assert(rest == list.remove(j));
        lemma_column::<V>(terms, fixed, steps, lp, p, s.a as int, (len - 1) as nat);
        let per = product_lp::rows_per_step(vt);
        assert(product_lp::is_mccormick(vt, steps[i], lp.rows@, i * per));
        assert(0 <= i * per && i * per + per <= lp.rows@.len()) by (nonlinear_arith)
            requires
                0 <= i < steps.len(),
                per == 3 || per == 4,
                lp.rows@.len() == steps.len() * per,
        ;
        assert(is_whole(vt, p[s.b as int]));
        assert(lp.lower@[c] <= p[c] <= lp.upper@[c]);
        rows_fix_the_product(vt, s, lp.rows@, i * per, p);
        assert(p[c] == p[s.a as int] * p[s.b as int]);
        lemma_factor(vt, list, j, x);
        assert(p[s.b as int] == term::bit_value(vt, x[s.b as int]));
        term::lemma_monomial_range(vt, list, x);
    }
}

/// Some step ends at column `c`.
pub open spec fn has_step(steps: Seq<Step>, c: int) -> bool {
    exists|i: int| 0 <= i < steps.len() && (#[trigger] steps[i]).w == c
}

/// A monomial is the value of one of its variables times the rest.
pub proof fn lemma_factor(vt: VarType, s: Seq<usize>, j: int, x: Seq<bool>)
    requires
        0 <= j < s.len(),
    ensures
        term::monomial(vt, s, x) == term::monomial(vt, s.remove(j), x) * term::bit_value(
            vt,
            x[s[j] as int],
        ),
    decreases s.len(),
{
    let last = term::bit_value(vt, x[s.last() as int]);
    if j == s.len() - 1 {
        assert(s.remove(j) =~= s.drop_last());
    } else {
        let d = s.drop_last();
        lemma_factor(vt, d, j, x);
        assert(s.remove(j).drop_last() =~= d.remove(j));
        assert(s.remove(j).last() == s.last());
        let p = term::monomial(vt, d.remove(j), x);
        let b = term::bit_value(vt, x[s[j] as int]);
        assert((p * b) * last == (p * last) * b) by (nonlinear_arith);
    }
}

/// Every point of a program with whole variables, where each product has a step, is
/// the point of an assignment, and its cost is the value of the terms there.
pub proof fn whole_points_are_assignments<V: VarDomain>(
    terms: Seq<Term>,
    fixed: Seq<Option<bool>>,
    steps: Seq<Step>,
    lp: &ProductLp,
    p: Seq<int>,
)
    requires
        product_lp::is_product_lp(V::tag(), terms, fixed, steps, lp),
        forall|i: int|
            0 <= i < terms.len() ==> active::is_tidy_list(
                (#[trigger] terms[i]).indices@,
                lp.n_vars as nat,
            ),
        solved::is_lp_point(lp, p),
        forall|i: int| 0 <= i < lp.n_vars ==> is_whole(V::tag(), #[trigger] p[i]),
        forall|i: int| lp.n_vars <= i < p.len() ==> #[trigger] has_step(steps, i),
    ensures
        ({
            let x = assignment_of(lp.n_vars as nat, p);
            &&& node::extends(x, fixed)
            &&& forall|c: int|
                0 <= c < p.len() ==> #[trigger] p[c] == term::monomial(
                    V::tag(),
                    product_lp::column_list(lp.n_vars as int, lp.products@, c),
                    x,
                )
            &&& product_lp::cost_at(lp.cost@, p, p.len()) == term::poly(V::tag(), terms, x)
        }),
{
    let vt = V::tag();
    let n = lp.n_vars as nat;
    let x = assignment_of(n, p);
    assert forall|c: int| 0 <= c < p.len() implies #[trigger] p[c] == term::monomial(
        vt,
        product_lp::column_list(n as int, lp.products@, c),
        x,
    ) by {
        lemma_column::<V>(
            terms,
            fixed,
            steps,
            lp,
            p,
            c,
            product_lp::column_list(n as int, lp.products@, c).len(),
        );
    }
    assert forall|i: int| 0 <= i < fixed.len() && (#[trigger] fixed[i]) is Some implies fixed[i]
        == Some(x[i]) by {
        assert(lp.lower@[i] <= p[i] <= lp.upper@[i]);
        assert(is_whole(vt, p[i]));
    }
    assert(p =~= product_lp::point_of(vt, n, lp.products@, x));
    product_lp::assignment_is_feasible(vt, terms, fixed, steps, lp, x);
}

proof fn lemma_chain_steps(n: int, prefixes: Seq<Vec<usize>>, steps: Seq<Step>)
    requires
        steps.len() == prefixes.len(),
        forall|i: int|
            0 <= i < steps.len() ==> lp::is_chain_step(n, prefixes, i, #[trigger] steps[i]),
    ensures
        forall|c: int| n <= c < n + prefixes.len() ==> #[trigger] has_step(steps, c),
{
    assert forall|c: int| n <= c < n + prefixes.len() implies #[trigger] has_step(steps, c) by {
        assert(steps[c - n].w == c);
    }
}

/// The linear program of a node is exact with whole variables: every point of it is
/// the point of a completion of the node's fixes, at the completion's objective.
pub proof fn node_program_is_exact<V: VarDomain>(
    instance: &HuboInstance<V>,
    node: &Node,
    max_cols: usize,
    offset: i64,
    lp: ProductLp,
    p: Seq<int>,
)
    requires
        instance.wf(),
        instance.fits(),
        instance.n() <= usize::MAX,
        node.describes(instance),
        lp::is_node_lp(instance, node, max_cols, NodeLp::Program { offset, lp }),
        solved::is_lp_point(&lp, p),
        forall|i: int| 0 <= i < instance.n() ==> is_whole(V::tag(), #[trigger] p[i]),
    ensures
        node::extends(assignment_of(instance.n() as nat, p), node.fixed@),
        offset + product_lp::cost_at(lp.cost@, p, p.len()) == instance.objective(
            assignment_of(instance.n() as nat, p),
        ),
{
    let r = NodeLp::Program { offset, lp };
    let (a, prefixes, steps) = choose|a: ActiveTerms, prefixes: Seq<Vec<usize>>, steps: Seq<Step>|
        #[trigger] lp::is_node_lp_over(instance, node, max_cols, r, &a, prefixes, steps);
    let x = assignment_of(instance.n() as nat, p);
    lemma_chain_steps(instance.n() as int, prefixes, steps);
    whole_points_are_assignments::<V>(a.terms@, node.fixed@, steps, &lp, p);
    assert(p =~= product_lp::point_of(V::tag(), lp.n_vars as nat, lp.products@, x));
    lp::node_lp_is_relaxation(instance, node, max_cols, offset, lp, x);
}

/// The linear program over the products of the terms is exact with whole variables:
/// every point of it is the point of an extension by the fixes, at its objective.
pub proof fn product_program_is_exact<V: VarDomain>(
    instance: &HuboInstance<V>,
    g: Seq<Option<bool>>,
    max_vars: usize,
    r: LinearBound,
    p: Seq<int>,
)
    requires
        instance.wf(),
        instance.fits(),
        instance.n() <= usize::MAX,
        rlt::is_rlt_bound(instance, g, max_vars, r),
        r matches LinearBound::Program { offset, fallback, lp } ==> solved::is_lp_point(&lp, p)
            && forall|i: int| 0 <= i < lp.n_vars ==> is_whole(V::tag(), #[trigger] p[i]),
    ensures
        r matches LinearBound::Program { offset, fallback, lp } ==> offset + product_lp::cost_at(
            lp.cost@,
            p,
            p.len(),
        ) == instance.objective(
            restriction::lifted(
                restriction::fixes_of(g, instance.n() as int),
                assignment_of(lp.n_vars as nat, p),
            ),
        ),
{
    if let LinearBound::Program { offset, fallback, lp } = r {
        let (a, prefixes, steps) = choose|
            a: ActiveTerms,
            prefixes: Seq<Vec<usize>>,
            steps: Seq<Step>,
        |
            #[trigger] rlt::is_rlt_over(instance, g, max_vars, r, &a, prefixes, steps);
        let n = a.free_globals@.len();
        let x = assignment_of(n, p);
        lemma_chain_steps(n as int, prefixes, steps);
        assert forall|i: int| 0 <= i < a.terms@.len() implies active::is_tidy_list(
            (#[trigger] a.terms@[i]).indices@,
            n,
        ) by {}
        whole_points_are_assignments::<V>(a.terms@, lp::nothing_fixed(n), steps, &lp, p);
        active::active_part_keeps_objective(instance, g, &a, x);
    }
}

/// A larger product has a step for each variable whose removal leaves a product.
proof fn lemma_removal_step(
    monos: Seq<Vec<usize>>,
    m: Seq<usize>,
    k: nat,
    j: int,
)
    requires
        0 <= j < k <= m.len(),
        lists::has_list(monos, m.remove(j)),
    ensures
        exists|q: int|
            0 <= q < sherali_adams::removal_steps(monos, m, k).len() && is_removed(
                #[trigger] sherali_adams::removal_steps(monos, m, k)[q],
                m,
                j,
            ),
    decreases k,
{
    let t = sherali_adams::removal_steps(monos, m, k);
    let before = sherali_adams::removal_steps(monos, m, (k - 1) as nat);
    if j == k - 1 {
        assert(is_removed(t[before.len() as int], m, j));
    } else {
        lemma_removal_step(monos, m, (k - 1) as nat, j);
        let q = choose|q: int| 0 <= q < before.len() && is_removed(#[trigger] before[q], m, j);
        assert(t[q] == before[q]);
    }
}

/// The step takes variable `j` out of the product.
pub open spec fn is_removed(v: sherali_adams::StepView, m: Seq<usize>, j: int) -> bool {
    &&& v.product == m
    &&& v.left == m.remove(j)
    &&& v.right == m[j]
}

proof fn lemma_product_step(monos: Seq<Vec<usize>>, k: nat, i: int, j: int)
    requires
        0 <= i < k <= monos.len(),
        0 <= j < monos[i]@.len(),
        monos[i]@.len() == 2 ==> j == 1,
        monos[i]@.len() != 2 ==> lists::has_list(monos, monos[i]@.remove(j)),
    ensures
        exists|q: int|
            0 <= q < sherali_adams::steps_of(monos, k).len() && is_removed(
                #[trigger] sherali_adams::steps_of(monos, k)[q],
                monos[i]@,
                j,
            ),
    decreases k,
{
    let t = sherali_adams::steps_of(monos, k);
    let before = sherali_adams::steps_of(monos, (k - 1) as nat);
    if i == k - 1 {
        let m = monos[i]@;
        if m.len() == 2 {
            assert(m.remove(1) =~= seq![m[0]]);
            assert(is_removed(t[before.len() as int], m, 1));
        } else {
            lemma_removal_step(monos, m, m.len(), j);
            let own = sherali_adams::removal_steps(monos, m, m.len());
            let q = choose|q: int| 0 <= q < own.len() && is_removed(#[trigger] own[q], m, j);
            assert(t[before.len() + q] == own[q]);
        }
    } else {
        lemma_product_step(monos, (k - 1) as nat, i, j);
        let q = choose|q: int|
            0 <= q < before.len() && is_removed(#[trigger] before[q], monos[i]@, j);
        assert(t[q] == before[q]);
    }
}

/// The products of a level: the beginnings of the terms; from level one on all pairs
/// of variables of a term; from level two on all triples of a term.
pub proof fn enriched_program_has_all_products<V: VarDomain>(
    instance: &HuboInstance<V>,
    g: Seq<Option<bool>>,
    cfg: SheraliAdamsConfig,
    r: LinearBound,
    a: &ActiveTerms,
    monos: Seq<Vec<usize>>,
    steps: Seq<Step>,
    t: int,
)
    requires
        sherali_adams::is_sa_over(instance, g, cfg, r, a, monos, steps),
        0 <= t < a.terms@.len(),
    ensures
        forall|k: int|
            2 <= k <= a.terms@[t].indices@.len() ==> lists::has_list(
                monos,
                #[trigger] a.terms@[t].indices@.take(k),
            ),
        cfg.level >= 1 ==> forall|i: int, j: int|
            0 <= i < j < a.terms@[t].indices@.len() ==> lists::has_list(
                monos,
                seq![#[trigger] a.terms@[t].indices@[i], #[trigger] a.terms@[t].indices@[j]],
            ),
        cfg.level >= 2 ==> forall|i: int, j: int, k: int|
            0 <= i < j < k < a.terms@[t].indices@.len() ==> lists::has_list(
                monos,
                seq![
                    #[trigger] a.terms@[t].indices@[i],
                    #[trigger] a.terms@[t].indices@[j],
                    #[trigger] a.terms@[t].indices@[k],
                ],
            ),
{
    let terms = a.terms@;
    let l = terms[t].indices@;
    assert(crate::sets::ascending(l)) by {
        assert(active::is_tidy_list(l, a.free_globals@.len()));
    }
    assert forall|k: int| 2 <= k <= l.len() implies lists::has_list(
        monos,
        #[trigger] l.take(k),
    ) by {
        lemma_beginning(cfg.level, terms, t, k);
    }
    if cfg.level >= 1 {
        assert forall|i: int, j: int| 0 <= i < j < l.len() implies lists::has_list(
            monos,
            seq![#[trigger] l[i], #[trigger] l[j]],
        ) by {
            lemma_part(cfg.level, terms, t, seq![l[i], l[j]]);
        }
    }
    if cfg.level >= 2 {
        assert forall|i: int, j: int, k: int| 0 <= i < j < k < l.len() implies lists::has_list(
            monos,
            seq![#[trigger] l[i], #[trigger] l[j], #[trigger] l[k]],
        ) by {
            lemma_part(cfg.level, terms, t, seq![l[i], l[j], l[k]]);
        }
    }
}

proof fn lemma_beginning(level: usize, terms: Seq<Term>, t: int, k: int)
    requires
        0 <= t < terms.len(),
        2 <= k <= terms[t].indices@.len(),
    ensures
        sherali_adams::is_chain_product(level, terms, terms[t].indices@.take(k)),
{
    let p = terms[t].indices@.take(k);
    assert(p.len() == k);
    assert(p == terms[t].indices@.take(p.len() as int));
    assert(lp::is_prefix_of(terms, terms.len() as int, p));
}

proof fn lemma_part(level: usize, terms: Seq<Term>, t: int, p: Seq<usize>)
    requires
        0 <= t < terms.len(),
        p.len() == 2 && level >= 1 || p.len() == 3 && level >= 2,
        crate::sets::ascending(p),
        forall|i: int| 0 <= i < p.len() ==> terms[t].indices@.contains(#[trigger] p[i]),
    ensures
        sherali_adams::is_chain_product(level, terms, p),
{
    assert(crate::moments::is_part_of(terms[t].indices@, p.len(), p));
    assert(sherali_adams::is_term_part(terms, p.len(), terms.len() as int, p));
}

/// From level two on every pair of variables of two terms that share a variable is
/// among the products.
pub proof fn enriched_program_has_cross_pairs<V: VarDomain>(
    instance: &HuboInstance<V>,
    g: Seq<Option<bool>>,
    cfg: SheraliAdamsConfig,
    r: LinearBound,
    a: &ActiveTerms,
    monos: Seq<Vec<usize>>,
    steps: Seq<Step>,
    t: int,
    u: int,
    z: usize,
    v: usize,
    w: usize,
)
    requires
        sherali_adams::is_sa_over(instance, g, cfg, r, a, monos, steps),
        cfg.level >= 2,
        0 <= t < u < a.terms@.len(),
        a.terms@[t].indices@.contains(z) && a.terms@[u].indices@.contains(z),
        a.terms@[t].indices@.contains(v) || a.terms@[u].indices@.contains(v),
        a.terms@[t].indices@.contains(w) || a.terms@[u].indices@.contains(w),
        v < w,
    ensures
        lists::has_list(monos, seq![v, w]),
{
    let p = seq![v, w];
    assert(crate::moments::share_variable(a.terms@[t].indices@, a.terms@[u].indices@));
    assert(crate::sets::ascending(p));
    assert(sherali_adams::is_shared_pair(a.terms@, t, u, p));
    assert(sherali_adams::is_chain_product(cfg.level, a.terms@, p));
}

/// Every product is tied to each of its variables whose removal leaves a product or a
/// single variable.
pub proof fn enriched_program_ties_all_factors<V: VarDomain>(
    instance: &HuboInstance<V>,
    g: Seq<Option<bool>>,
    cfg: SheraliAdamsConfig,
    r: LinearBound,
    a: &ActiveTerms,
    monos: Seq<Vec<usize>>,
    steps: Seq<Step>,
    i: int,
    j: int,
)
    requires
        sherali_adams::is_sa_over(instance, g, cfg, r, a, monos, steps),
        r is Program,
        0 <= i < monos.len(),
        0 <= j < monos[i]@.len(),
        if monos[i]@.len() == 2 {
            j == 1
        } else {
            lists::has_list(monos, monos[i]@.remove(j))
        },
    ensures
        ties(r->Program_lp.n_vars as int, monos, steps, i, j),
{
    let n = r->Program_lp.n_vars as int;
    let views = sherali_adams::steps_of(monos, monos.len());
    lemma_product_step(monos, monos.len(), i, j);
    let q = choose|q: int| 0 <= q < views.len() && is_removed(#[trigger] views[q], monos[i]@, j);
    assert(sherali_adams::is_column_step(n, monos, views[q], steps[q]));
    assert(product_lp::is_step(n, monos, steps[q]));
    lemma_same_place(monos, steps[q].w - n, i);
}

/// A list of distinct lists holds a list at one place.
proof fn lemma_same_place(monos: Seq<Vec<usize>>, c: int, i: int)
    requires
        lists::in_list_order(true, monos),
        0 <= c < monos.len(),
        0 <= i < monos.len(),
        monos[c]@ == monos[i]@,
    ensures
        c == i,
{
    if c < i {
        assert(lists::comes_before(true, monos[c]@, monos[i]@));
        lists::lemma_order_total(true, monos[c]@, monos[i]@);
    } else if i < c {
        assert(lists::comes_before(true, monos[i]@, monos[c]@));
        lists::lemma_order_total(true, monos[i]@, monos[c]@);
    }
}

/// Every product has a step.
proof fn lemma_enriched_steps<V: VarDomain>(
    instance: &HuboInstance<V>,
    g: Seq<Option<bool>>,
    cfg: SheraliAdamsConfig,
    r: LinearBound,
    a: &ActiveTerms,
    monos: Seq<Vec<usize>>,
    steps: Seq<Step>,
    i: int,
)
    requires
        sherali_adams::is_sa_over(instance, g, cfg, r, a, monos, steps),
        r is Program,
        0 <= i < monos.len(),
    ensures
        has_step(steps, r->Program_lp.n_vars + i),
{
    let m = monos[i]@;
    let terms = a.terms@;
    assert(lists::has_list(monos, m));
    assert(sherali_adams::is_chain_product(cfg.level, terms, m));
    let j: int = m.len() - 1;
    if m.len() > 2 {
        let rest = m.remove(j);
        assert(rest =~= m.drop_last());
        if lp::is_prefix_of(terms, terms.len() as int, m) {
            let t = choose|t: int|
                0 <= t < terms.len() && 2 <= m.len() <= terms[t].indices@.len() && m == (
                #[trigger] terms[t]).indices@.take(m.len() as int);
            assert(rest =~= terms[t].indices@.take(j));
            lemma_beginning(cfg.level, terms, t, j);
        } else {
            let t = choose|t: int|
                0 <= t < terms.len() && crate::moments::is_part_of(
                    (#[trigger] terms[t]).indices@,
                    3,
                    m,
                );
            lemma_part(cfg.level, terms, t, rest);
        }
        assert(lists::has_list(monos, rest));
    }
    enriched_program_ties_all_factors(instance, g, cfg, r, a, monos, steps, i, j);
    let n = r->Program_lp.n_vars as int;
    let q = choose|q: int|
        0 <= q < steps.len() && (#[trigger] steps[q]).w == n + i && steps[q].b == monos[i]@[j]
            && product_lp::column_list(n, monos, steps[q].a as int) == monos[i]@.remove(j);
    assert(steps[q].w == n + i);
}

/// The linear program with the products of a level is exact with whole variables: every
/// point of it is the point of an extension by the fixes, at its objective.
pub proof fn enriched_program_is_exact<V: VarDomain>(
    instance: &HuboInstance<V>,
    g: Seq<Option<bool>>,
    cfg: SheraliAdamsConfig,
    r: LinearBound,
    p: Seq<int>,
)
    requires
        instance.wf(),
        instance.fits(),
        instance.n() <= usize::MAX,
        sherali_adams::is_sa_bound(instance, g, cfg, r),
        r matches LinearBound::Program { offset, fallback, lp } ==> solved::is_lp_point(&lp, p)
            && forall|i: int| 0 <= i < lp.n_vars ==> is_whole(V::tag(), #[trigger] p[i]),
    ensures
        r matches LinearBound::Program { offset, fallback, lp } ==> offset + product_lp::cost_at(
            lp.cost@,
            p,
            p.len(),
        ) == instance.objective(
            restriction::lifted(
                restriction::fixes_of(g, instance.n() as int),
                assignment_of(lp.n_vars as nat, p),
            ),
        ),
{
    if let LinearBound::Program { offset, fallback, lp } = r {
        let (a, monos, steps) = choose|a: ActiveTerms, monos: Seq<Vec<usize>>, steps: Seq<Step>|
            #[trigger] sherali_adams::is_sa_over(instance, g, cfg, r, &a, monos, steps);
        let n = a.free_globals@.len();
        let x = assignment_of(n, p);
        assert forall|i: int| lp.n_vars <= i < p.len() implies #[trigger] has_step(steps, i) by {
            lemma_enriched_steps(instance, g, cfg, r, &a, monos, steps, i - lp.n_vars);
        }
        assert forall|i: int| 0 <= i < a.terms@.len() implies active::is_tidy_list(
            (#[trigger] a.terms@[i]).indices@,
            n,
        ) by {}
        whole_points_are_assignments::<V>(a.terms@, lp::nothing_fixed(n), steps, &lp, p);
        active::active_part_keeps_objective(instance, g, &a, x);
    }
}

/// A step ties product `i` to its variable at place `j` and the rest of it.
pub open spec fn ties(
    n: int,
    products: Seq<Vec<usize>>,
    steps: Seq<Step>,
    i: int,
    j: int,
) -> bool {
    exists|q: int|
        0 <= q < steps.len() && (#[trigger] steps[q]).w == n + i && steps[q].b == products[i]@[j]
            && product_lp::column_list(n, products, steps[q].a as int) == products[i]@.remove(j)
}

/// The least value of a term with variables is attained, and nothing is below it.
pub proof fn term_floor_is_attained(vt: VarType, idx: Seq<usize>, c: int, n: nat)
    requires
        idx.len() > 0,
        idx.no_duplicates(),
        term::indices_below(idx, n as int),
    ensures
        exists|x: Seq<bool>|
            x.len() == n && lasserre::term_floor(vt, c) == c * #[trigger] term::monomial(vt, idx, x),
        forall|x: Seq<bool>|
            lasserre::term_floor(vt, c) <= c * #[trigger] term::monomial(vt, idx, x),
{
    assert forall|x: Seq<bool>| lasserre::term_floor(vt, c) <= c * #[trigger] term::monomial(
        vt,
        idx,
        x,
    ) by {
        lasserre::lemma_term_floor(vt, idx, c, x);
    }
    let up = Seq::new(n, |i: int| true);
    let down = up.update(idx[0] as int, false);
    lemma_all_high(vt, idx, up);
    assert(idx[0] < n);
    lemma_factor(vt, idx, 0, down);
    let rest = idx.remove(0);
    assert forall|i: int| 0 <= i < rest.len() implies down[#[trigger] rest[i] as int] by {
        assert(rest[i] == idx[i + 1]);
        assert(idx[i + 1] != idx[0]);
        assert(idx[i + 1] < n);
    }
    lemma_all_high(vt, rest, down);
    let low = term::bit_value(vt, false);
    assert(1 * low == low);
    assert(term::monomial(vt, idx, down) == low);
    assert(c * 1 == c && c * 0 == 0 && c * -1 == -c);
    if (vt == VarType::Bin && c < 0) || (vt == VarType::Spin && c <= 0) {
        assert(lasserre::term_floor(vt, c) == c * term::monomial(vt, idx, up));
    } else {
        assert(lasserre::term_floor(vt, c) == c * term::monomial(vt, idx, down));
    }
}

/// A monomial of high variables is 1.
pub proof fn lemma_all_high(vt: VarType, idx: Seq<usize>, x: Seq<bool>)
    requires
        forall|i: int| 0 <= i < idx.len() ==> x[#[trigger] idx[i] as int],
    ensures
        term::monomial(vt, idx, x) == 1,
    decreases idx.len(),
{
    if idx.len() > 0 {
        let d = idx.drop_last();
        assert forall|i: int| 0 <= i < d.len() implies x[#[trigger] d[i] as int] by {
            assert(d[i] == idx[i]);
        }
        lemma_all_high(vt, d, x);
        assert(x[idx[idx.len() - 1] as int]);
    }
}

/// At whole factors, in units, a product within its bounds violates no inequality if
/// and only if it is the product of its factors.
pub proof fn cuts_fix_the_product(vt: VarType, w: int, a: int, b: int, unit: int)
    requires
        unit >= 1,
        a == unit || a == unit * term::bit_value(vt, false),
        b == unit || b == unit * term::bit_value(vt, false),
        unit * term::bit_value(vt, false) <= w <= unit,
    ensures
        (forall|cut: SaCutKind|
            (#[trigger] sherali_adams::excess(vt, cut, w, a, b, unit)) is Some
                ==> sherali_adams::excess(vt, cut, w, a, b, unit)->0 <= 0) <==> unit * w == a * b,
{
    let low = term::bit_value(vt, false);
    assert(unit * 0 == 0 && unit * -1 == -unit && unit * 1 == unit);
    assert(a * b == if a == 0 || b == 0 { 0 } else if a == b { unit * unit } else { -(unit * unit) })
        by (nonlinear_arith)
        requires
            a == 0 || a == unit || a == -unit,
            b == 0 || b == unit || b == -unit,
            unit >= 1,
    ;
    assert(unit * w == unit * unit <==> w == unit) by (nonlinear_arith)
        requires
            unit >= 1,
    ;
    assert(unit * w == -(unit * unit) <==> w == -unit) by (nonlinear_arith)
        requires
            unit >= 1,
    ;
    assert(unit * w == 0 <==> w == 0) by (nonlinear_arith)
        requires
            unit >= 1,
    ;
    assert(unit * unit > 0) by (nonlinear_arith)
        requires
            unit >= 1,
    ;
    if forall|cut: SaCutKind|
        (#[trigger] sherali_adams::excess(vt, cut, w, a, b, unit)) is Some
            ==> sherali_adams::excess(vt, cut, w, a, b, unit)->0 <= 0 {
        assert(sherali_adams::excess(vt, SaCutKind::WLeqA, w, a, b, unit)->0 <= 0);
        assert(sherali_adams::excess(vt, SaCutKind::WLeqB, w, a, b, unit)->0 <= 0);
        assert(sherali_adams::excess(vt, SaCutKind::WGeqAplusB, w, a, b, unit)->0 <= 0);
        if vt == VarType::Spin {
            assert(sherali_adams::excess(vt, SaCutKind::WGeqMinusAMinusB, w, a, b, unit)->0 <= 0);
        }
    }
}

} // verus!
