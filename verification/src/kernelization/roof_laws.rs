//! What the minimum cut labels, stated on the coefficients.

use crate::bounds::cheap;
use crate::bounds::cover;
use crate::bounds::residual_roof;
use crate::domain::{VarDomain, VarType};
use crate::fixes;
use crate::instance::HuboInstance;
use crate::kernelization::coupling;
use crate::kernelization::dominance_laws;
use crate::kernelization::qpbo;
use crate::kernelization::roof_dual;
use crate::merge::KeySum;
use crate::merge;
use crate::node::{Node, PartiallyAssignedTerm};
use crate::node;
use crate::restriction;
use crate::term::Term;
use crate::term;
use crate::views;
use vstd::prelude::*;

verus! {

/// The cut of one assignment costs more than that of another by twice what the form
/// is larger.
pub proof fn cut_follows_the_form(
    n: nat,
    lin: Seq<i128>,
    quad: Seq<KeySum>,
    x: Seq<bool>,
    y: Seq<bool>,
)
    requires
        x.len() == n,
        y.len() == n,
        lin.len() == n,
        qpbo::pair_keys(n, quad),
    ensures
        qpbo::cut_cost(n, lin, quad, qpbo::assignment_cut(n, x)) - qpbo::cut_cost(
            n,
            lin,
            quad,
            qpbo::assignment_cut(n, y),
        ) == 2 * (qpbo::form_value(lin, quad, x) - qpbo::form_value(lin, quad, y)),
{
    qpbo::lemma_assignment_cost(n, lin, quad, x);
    qpbo::lemma_assignment_cost(n, lin, quad, y);
}

/// The sizes of the coefficients of the asked sign of the first `k` products with
/// variable `i`.
pub open spec fn pull(quad: Seq<KeySum>, i: int, positive: bool, k: nat) -> int
    decreases k,
{
    if k == 0 {
        0
    } else {
        let e = quad[k - 1];
        pull(quad, i, positive, (k - 1) as nat) + (if (e.key@[0] == i || e.key@[1] == i) && (e.sum
            > 0) == positive {
            if positive {
                e.sum as int
            } else {
                -e.sum
            }
        } else {
            0
        })
    }
}

proof fn lemma_linear_step(n: nat, lin: Seq<i128>, s: Seq<bool>, i: int, v: int, k: nat)
    requires
        s.len() == 2 * n + 2,
        s[0],
        !s[qpbo::sink(n)],
        0 <= i < n,
        v == 1 + i || v == 1 + n + i,
        k <= n,
        lin.len() == n,
    ensures
        ({
            let c = s.update(v, !s[v]);
            qpbo::linear_costs(n, lin, c, k) - qpbo::linear_costs(n, lin, s, k) == if i < k {
                if (v == 1 + i) == !s[v] {
                    lin[i] as int
                } else {
                    -(lin[i] as int)
                }
            } else {
                0
            }
        }),
    decreases k,
{
    if k > 0 {
        lemma_linear_step(n, lin, s, i, v, (k - 1) as nat);
    }
}

proof fn lemma_product_step(n: nat, quad: Seq<KeySum>, s: Seq<bool>, i: int, v: int, k: nat)
    requires
        s.len() == 2 * n + 2,
        s[0],
        !s[qpbo::sink(n)],
        0 <= i < n,
        v == 1 + i || v == 1 + n + i,
        k <= quad.len(),
        qpbo::pair_keys(n, quad),
    ensures
        ({
            let c = s.update(v, !s[v]);
            qpbo::product_costs(n, quad, c, k) - qpbo::product_costs(n, quad, s, k) <= pull(
                quad,
                i,
                (v == 1 + i) == !s[v],
                k,
            )
        }),
    decreases k,
{
    if k > 0 {
        lemma_product_step(n, quad, s, i, v, (k - 1) as nat);
        let e = quad[k - 1];
        assert(e.key@.len() == 2 && e.key@[0] < e.key@[1] < n);
        lemma_one_product(n, s, i, v, e.key@[0] as int, e.key@[1] as int, e.sum as int);
    }
}

proof fn lemma_one_product(n: nat, s: Seq<bool>, i: int, v: int, p: int, q: int, b: int)
    requires
        s.len() == 2 * n + 2,
        s[0],
        !s[qpbo::sink(n)],
        0 <= i < n,
        v == 1 + i || v == 1 + n + i,
        0 <= p < q < n,
    ensures
        ({
            let c = s.update(v, !s[v]);
            let positive = (v == 1 + i) == !s[v];
            qpbo::product_cost(n, c, p, q, b) - qpbo::product_cost(n, s, p, q, b) <= if (p == i
                || q == i) && (b > 0) == positive {
                if positive {
                    b
                } else {
                    -b
                }
            } else {
                0
            }
        }),
{
    assert(qpbo::conjugate(n, 1 + p) == 1 + n + p);
    assert(qpbo::conjugate(n, 1 + q) == 1 + n + q);
    assert(qpbo::conjugate(n, 1 + n + p) == 1 + p);
    assert(qpbo::conjugate(n, 1 + n + q) == 1 + q);
}

/// A variable whose linear coefficient outweighs its products is labelled: low where
/// the coefficient is larger than all its negative products together, high where it
/// is smaller than all its positive products could make up for.
pub proof fn outweighing_variables_are_labelled(
    n: nat,
    lin: Seq<i128>,
    quad: Seq<KeySum>,
    r: Seq<Option<bool>>,
    i: int,
)
    requires
        lin.len() == n,
        qpbo::pair_keys(n, quad),
        qpbo::is_persistent_labels(n, lin, quad, r),
        0 <= i < n,
    ensures
        lin[i] > pull(quad, i, false, quad.len()) ==> r[i] == Some(false),
        -lin[i] > pull(quad, i, true, quad.len()) ==> r[i] == Some(true),
        r.len() == n,
{
    let s = choose|s: Seq<bool>| #[trigger]
        qpbo::is_least_cut(n, lin, quad, s) && r == qpbo::labels(n, s);
    let m = quad.len();
    let up = s.update(1 + i, !s[1 + i]);
    let down = s.update(1 + n + i, !s[1 + n + i]);
    assert(qpbo::is_cut(n, up));
    assert(qpbo::is_cut(n, down));
    lemma_linear_step(n, lin, s, i, 1 + i, n);
    lemma_linear_step(n, lin, s, i, 1 + n + i, n);
    lemma_product_step(n, quad, s, i, 1 + i, m);
    lemma_product_step(n, quad, s, i, 1 + n + i, m);
    assert(qpbo::cut_cost(n, lin, quad, s) <= qpbo::cut_cost(n, lin, quad, up));
    assert(qpbo::cut_cost(n, lin, quad, s) <= qpbo::cut_cost(n, lin, quad, down));
}

/// The assignment of the plain nodes of a cut.
spec fn plain_side(n: nat, s: Seq<bool>) -> Seq<bool> {
    Seq::new(n, |i: int| s[1 + i])
}

/// The assignment of the conjugate nodes of a cut.
spec fn conjugate_side(n: nat, s: Seq<bool>) -> Seq<bool> {
    Seq::new(n, |i: int| !s[1 + n + i])
}

proof fn lemma_linear_sides(n: nat, lin: Seq<i128>, s: Seq<bool>, k: nat)
    requires
        qpbo::is_cut(n, s),
        lin.len() == n,
        k <= n,
    ensures
        2 * qpbo::linear_costs(n, lin, s, k) == qpbo::linear_costs(
            n,
            lin,
            qpbo::assignment_cut(n, plain_side(n, s)),
            k,
        ) + qpbo::linear_costs(n, lin, qpbo::assignment_cut(n, conjugate_side(n, s)), k),
    decreases k,
{
    if k > 0 {
        lemma_linear_sides(n, lin, s, (k - 1) as nat);
        let i = k - 1;
        assert(qpbo::conjugate(n, 1 + i) == 1 + n + i);
    }
}

proof fn lemma_product_sides(n: nat, quad: Seq<KeySum>, s: Seq<bool>, k: nat)
    requires
        qpbo::is_cut(n, s),
        qpbo::pair_keys(n, quad),
        forall|e: int| 0 <= e < quad.len() ==> (#[trigger] quad[e]).sum <= 0,
        k <= quad.len(),
    ensures
        2 * qpbo::product_costs(n, quad, s, k) == qpbo::product_costs(
            n,
            quad,
            qpbo::assignment_cut(n, plain_side(n, s)),
            k,
        ) + qpbo::product_costs(n, quad, qpbo::assignment_cut(n, conjugate_side(n, s)), k),
    decreases k,
{
    if k > 0 {
        lemma_product_sides(n, quad, s, (k - 1) as nat);
        let e = quad[k - 1];
        assert(e.key@.len() == 2 && e.key@[0] < e.key@[1] < n);
        assert(e.sum <= 0);
        let p = e.key@[0] as int;
        let q = e.key@[1] as int;
        assert(qpbo::conjugate(n, 1 + p) == 1 + n + p);
        assert(qpbo::conjugate(n, 1 + q) == 1 + n + q);
        assert(qpbo::conjugate(n, 1 + n + p) == 1 + p);
        assert(qpbo::conjugate(n, 1 + n + q) == 1 + q);
    }
}

/// Where no product has a positive coefficient, a variable with the same value in all
/// minimisers of the form is labelled with it.
pub proof fn common_values_are_labelled(
    n: nat,
    lin: Seq<i128>,
    quad: Seq<KeySum>,
    r: Seq<Option<bool>>,
    i: int,
    value: bool,
)
    requires
        lin.len() == n,
        qpbo::pair_keys(n, quad),
        forall|e: int| 0 <= e < quad.len() ==> (#[trigger] quad[e]).sum <= 0,
        qpbo::is_persistent_labels(n, lin, quad, r),
        0 <= i < n,
        forall|x: Seq<bool>|
            #![trigger qpbo::form_value(lin, quad, x)]
            x.len() == n && (forall|y: Seq<bool>|
                y.len() == n ==> qpbo::form_value(lin, quad, x) <= #[trigger] qpbo::form_value(
                    lin,
                    quad,
                    y,
                )) ==> x[i] == value,
    ensures
        r[i] == Some(value),
{
    let s = choose|s: Seq<bool>| #[trigger]
        qpbo::is_least_cut(n, lin, quad, s) && r == qpbo::labels(n, s);
    let a = plain_side(n, s);
    let b = conjugate_side(n, s);
    lemma_linear_sides(n, lin, s, n);
    lemma_product_sides(n, quad, s, quad.len());
    qpbo::lemma_assignment_cost(n, lin, quad, a);
    qpbo::lemma_assignment_cost(n, lin, quad, b);
    assert forall|y: Seq<bool>| y.len() == n implies qpbo::form_value(lin, quad, a)
        <= #[trigger] qpbo::form_value(lin, quad, y) && qpbo::form_value(lin, quad, b)
        <= qpbo::form_value(lin, quad, y) by {
        qpbo::lemma_assignment_cost(n, lin, quad, y);
        assert(qpbo::cut_cost(n, lin, quad, s) <= qpbo::cut_cost(
            n,
            lin,
            quad,
            qpbo::assignment_cut(n, y),
        ));
        assert(qpbo::cut_cost(n, lin, quad, s) <= qpbo::cut_cost(
            n,
            lin,
            quad,
            qpbo::assignment_cut(n, a),
        ));
        assert(qpbo::cut_cost(n, lin, quad, s) <= qpbo::cut_cost(
            n,
            lin,
            quad,
            qpbo::assignment_cut(n, b),
        ));
    }
    assert(a[i] == value);
    assert(b[i] == value);
}

/// The coefficients of variable `v` alone among the first `k` terms.
pub open spec fn own_weight(terms: Seq<Term>, v: usize, k: nat) -> int
    decreases k,
{
    if k == 0 {
        0
    } else {
        own_weight(terms, v, (k - 1) as nat) + (if terms[k - 1].indices@ == seq![v] {
            terms[k - 1].coeff as int
        } else {
            0
        })
    }
}

/// The sizes of the coefficients of the asked sign of those of the first `k` terms
/// that list `v` with one other variable.
pub open spec fn pair_weight(terms: Seq<Term>, v: usize, positive: bool, k: nat) -> int
    decreases k,
{
    if k == 0 {
        0
    } else {
        let t = terms[k - 1];
        pair_weight(terms, v, positive, (k - 1) as nat) + (if t.indices@.len() == 2
            && t.indices@.contains(v) && (t.coeff > 0) == positive {
            term::abs(t.coeff as int)
        } else {
            0
        })
    }
}

/// One for the keys with `v` that have a sum of the asked sign.
spec fn chosen(quad: Seq<KeySum>, v: usize, positive: bool) -> spec_fn(Seq<usize>) -> int {
    |key: Seq<usize>|
        if key.contains(v) && exists|e: int|
            0 <= e < quad.len() && (#[trigger] quad[e]).key@ == key && (quad[e].sum > 0)
                == positive {
            1int
        } else {
            0
        }
}

proof fn lemma_pull(n: nat, quad: Seq<KeySum>, v: usize, positive: bool, k: nat)
    requires
        k <= quad.len(),
        merge::keys_ascend(quad),
        qpbo::pair_keys(n, quad),
    ensures
        pull(quad, v as int, positive, k) == (if positive {
            merge::weighted(quad.take(k as int), chosen(quad, v, positive))
        } else {
            -merge::weighted(quad.take(k as int), chosen(quad, v, positive))
        }),
    decreases k,
{
    if k > 0 {
        lemma_pull(n, quad, v, positive, (k - 1) as nat);
        assert(quad.take(k as int).drop_last() =~= quad.take(k - 1));
        let e = quad[k - 1];
        let w = chosen(quad, v, positive);
        assert(e.key@.len() == 2);
        assert(e.key@.contains(v) == (e.key@[0] == v || e.key@[1] == v)) by {
            if e.key@[0] == v {
            }
            if e.key@[1] == v {
            }
        }
        if w(e.key@) == 1 {
            let f = choose|f: int|
                0 <= f < quad.len() && (#[trigger] quad[f]).key@ == e.key@ && (quad[f].sum > 0)
                    == positive;
            merge::lemma_lex_total(quad[f].key@, e.key@);
            if f < k - 1 {
                assert(merge::lex_lt(quad[f].key@, quad[k - 1].key@));
            } else if k - 1 < f {
                assert(merge::lex_lt(quad[k - 1].key@, quad[f].key@));
            }
        } else if e.key@.contains(v) {
            assert((quad[k - 1].sum > 0) != positive);
        }
        assert(e.sum * 1 == e.sum && e.sum * 0 == 0);
    }
}

proof fn lemma_pair_weight(
    vt: VarType,
    terms: Seq<Term>,
    v: usize,
    positive: bool,
    w: spec_fn(Seq<usize>) -> int,
    k: nat,
)
    requires
        k <= terms.len(),
        forall|key: Seq<usize>| #[trigger]
            w(key) == 0 || (w(key) == 1 && key.contains(v)),
    ensures
        (if positive {
            roof_dual::pair_sum(vt, terms, w, k)
        } else {
            -roof_dual::pair_sum(vt, terms, w, k)
        }) <= roof_dual::pair_factor_of(vt) * pair_weight(terms, v, positive, k),
        0 <= pair_weight(terms, v, positive, k),
    decreases k,
{
    if k > 0 {
        lemma_pair_weight(vt, terms, v, positive, w, (k - 1) as nat);
        let t = terms[k - 1];
        let f = roof_dual::pair_factor_of(vt);
        if t.indices@.len() == 2 {
            let key = roof_dual::sorted_pair(t.indices@);
            assert(key[0] == t.indices@[0] || key[0] == t.indices@[1]);
            assert(key[1] == t.indices@[0] || key[1] == t.indices@[1]);
            if key.contains(v) {
                assert(t.indices@.contains(v));
            }
            assert(w(key) == 0 || (w(key) == 1 && key.contains(v)));
            assert((f * t.coeff) * 1 == f * t.coeff && (f * t.coeff) * 0 == 0);
        }
    }
}

proof fn lemma_linear_weight(vt: VarType, terms: Seq<Term>, v: usize, k: nat)
    requires
        k <= terms.len(),
        term::terms_distinct(terms),
        !roof_dual::beyond_quadratic(terms),
    ensures
        roof_dual::linear_of(vt, terms, v, k) == match vt {
            VarType::Bin => own_weight(terms, v, k),
            VarType::Spin => 2 * own_weight(terms, v, k) - 2 * (pair_weight(terms, v, true, k)
                - pair_weight(terms, v, false, k)),
        },
    decreases k,
{
    if k > 0 {
        lemma_linear_weight(vt, terms, v, (k - 1) as nat);
        let idx = terms[k - 1].indices@;
        if idx.len() == 1 && idx[0] == v {
            assert(idx =~= seq![v]);
        }
    }
}

/// Roof duality on terms of degree at most two fixes every variable whose own
/// coefficient outweighs its products: over bits against the products of the
/// opposite sign, over spins against all of them.
pub proof fn roof_fixes_outweighing_terms(
    vt: VarType,
    terms: Seq<Term>,
    n: nat,
    list: Seq<(usize, i64)>,
    v: usize,
)
    requires
        term::terms_distinct(terms),
        n <= usize::MAX,
        forall|t: int| 0 <= t < terms.len() ==> (#[trigger] terms[t]).indices@.len() <= 2,
        roof_dual::is_roof_fixes(vt, terms, n, list),
        v < n,
    ensures
        ({
            let m = terms.len();
            let own = own_weight(terms, v, m);
            let more = pair_weight(terms, v, true, m);
            let less = pair_weight(terms, v, false, m);
            match vt {
                VarType::Bin => {
                    &&& own > less ==> list.contains((v, 0i64))
                    &&& -own > more ==> list.contains((v, 1i64))
                },
                VarType::Spin => {
                    &&& own > more + less ==> list.contains((v, -1i64))
                    &&& -own > more + less ==> list.contains((v, 1i64))
                },
            }
        }),
{
    let m = terms.len();
    assert(!roof_dual::beyond_quadratic(terms));
    let (lin, quad, r) = choose|lin: Seq<i128>, quad: Seq<KeySum>, r: Seq<Option<bool>>| #[trigger]
        roof_dual::is_labelled_by(vt, terms, n, lin, quad, r, list);
    outweighing_variables_are_labelled(n, lin, quad, r, v as int);
    lemma_linear_weight(vt, terms, v, m);
    assert(lin[v as int] == roof_dual::linear_of(vt, terms, v, m));
    lemma_pull(n, quad, v, true, quad.len());
    lemma_pull(n, quad, v, false, quad.len());
    assert(quad.take(quad.len() as int) =~= quad);
    let wp = chosen(quad, v, true);
    let wn = chosen(quad, v, false);
    assert(merge::weighted(quad, wp) == roof_dual::pair_sum(vt, terms, wp, m));
    assert(merge::weighted(quad, wn) == roof_dual::pair_sum(vt, terms, wn, m));
    lemma_pair_weight(vt, terms, v, true, wp, m);
    lemma_pair_weight(vt, terms, v, false, wn, m);
    let d = roof_dual::label_decision(vt, r);
    let all = coupling::all_vars(n);
    assert(all[v as int] == v);
    assert(all.contains(v));
    dominance_laws::lemma_decided_has(all, d, v, term::bit_value(vt, true) as i64);
    dominance_laws::lemma_decided_has(all, d, v, term::bit_value(vt, false) as i64);
}

/// Roof duality on an instance of degree at most two fixes every variable whose own
/// coefficient outweighs its products: over bits against the products of the
/// opposite sign, over spins against all of them.
pub proof fn roof_fixes_outweighing_variables<V: VarDomain>(
    instance: &HuboInstance<V>,
    list: Seq<(usize, i64)>,
    v: usize,
)
    requires
        instance.wf(),
        instance.n() <= usize::MAX,
        forall|t: int|
            0 <= t < instance.terms@.len() ==> (#[trigger] instance.terms@[t]).indices@.len() <= 2,
        roof_dual::is_roof_fixes(V::tag(), instance.terms@, instance.n() as nat, list),
        v < instance.n(),
    ensures
        ({
            let m = instance.terms@.len();
            let own = own_weight(instance.terms@, v, m);
            let more = pair_weight(instance.terms@, v, true, m);
            let less = pair_weight(instance.terms@, v, false, m);
            match V::tag() {
                VarType::Bin => {
                    &&& own > less ==> list.contains((v, 0i64))
                    &&& -own > more ==> list.contains((v, 1i64))
                },
                VarType::Spin => {
                    &&& own > more + less ==> list.contains((v, -1i64))
                    &&& -own > more + less ==> list.contains((v, 1i64))
                },
            }
        }),
{
    roof_fixes_outweighing_terms(V::tag(), instance.terms@, instance.n() as nat, list, v);
}

/// What is left of the first terms keeps its place among what is left of all.
proof fn lemma_residual_prefix(
    s: Seq<Option<PartiallyAssignedTerm>>,
    map: Seq<usize>,
    j: nat,
    k: nat,
)
    requires
        j <= k,
    ensures
        residual_roof::residual_terms(s, map, j).len() <= residual_roof::residual_terms(
            s,
            map,
            k,
        ).len(),
        forall|i: int|
            0 <= i < residual_roof::residual_terms(s, map, j).len()
                ==> #[trigger] residual_roof::residual_terms(s, map, k)[i]
                == residual_roof::residual_terms(s, map, j)[i],
    decreases k - j,
{
    if j < k {
        lemma_residual_prefix(s, map, j, (k - 1) as nat);
    }
}

/// The new name of a free variable stands for it alone.
proof fn lemma_renamed(f: Seq<Option<bool>>, v: usize, w: usize)
    requires
        f.len() <= usize::MAX,
        v < f.len(),
        w < f.len(),
        f[v as int] is None,
        f[w as int] is None,
    ensures
        restriction::renaming(f)[w as int] == restriction::renaming(f)[v as int] <==> w == v,
{
    restriction::lemma_renaming(f, v as int);
}

proof fn lemma_residual_weights(
    f: Seq<Option<bool>>,
    s: Seq<Option<PartiallyAssignedTerm>>,
    terms: Seq<Term>,
    v: usize,
    k: nat,
)
    requires
        f.len() <= usize::MAX,
        k <= s.len(),
        views::term_views(terms) == residual_roof::residual_terms(
            s,
            restriction::renaming(f),
            s.len(),
        ),
        !residual_roof::has_high(s),
        v < f.len(),
        f[v as int] is None,
        forall|t: int|
            0 <= t < s.len() ==> ((#[trigger] s[t]) matches Some(p) ==> p.free_variables@.no_duplicates()
                && forall|i: int|
                0 <= i < p.free_variables@.len() ==> (#[trigger] p.free_variables@[i]) < f.len()
                    && f[p.free_variables@[i] as int] is None),
    ensures
        ({
            let m = residual_roof::residual_terms(s, restriction::renaming(f), k).len();
            let u = restriction::renaming(f)[v as int];
            &&& m <= terms.len()
            &&& own_weight(terms, u, m) == dominance_laws::left_sum(s, v, alone_part(), k)
            &&& pair_weight(terms, u, true, m) == dominance_laws::left_sum(s, v, up_part(), k)
            &&& -pair_weight(terms, u, false, m) == dominance_laws::left_sum(s, v, down_part(), k)
        }),
    decreases k,
{
    let map = restriction::renaming(f);
    let u = map[v as int];
    let all = residual_roof::residual_terms(s, map, s.len());
    let now = residual_roof::residual_terms(s, map, k);
    lemma_residual_prefix(s, map, k, s.len());
    assert(views::term_views(terms).len() == terms.len());
    if k > 0 {
        lemma_residual_weights(f, s, terms, v, (k - 1) as nat);
        let before = residual_roof::residual_terms(s, map, (k - 1) as nat);
        if let Some(p) = s[k - 1] {
            let fv = p.free_variables@;
            assert(s[k - 1] is Some);
            assert(fv.len() <= 2);
            assert forall|i: int| 0 <= i < fv.len() implies (map[(#[trigger] fv[i]) as int] == u)
                == (fv[i] == v) by {
                assert(fv[i] < f.len() && f[fv[i] as int] is None);
                lemma_renamed(f, v, fv[i]);
            }
            if cheap::is_active(s[k - 1]) {
                let t = terms[before.len() as int];
                assert(views::term_views(terms)[before.len() as int] == all[before.len() as int]);
                assert(now[before.len() as int] == all[before.len() as int]);
                let idx = t.indices@;
                assert(idx == residual_roof::compact_list(map, fv));
                assert(t.coeff == p.coeff);
                if fv.len() == 1 {
                    assert(idx.len() == 1 && idx[0] == map[fv[0] as int]);
                    assert((idx == seq![u]) == (fv[0] == v)) by {
                        if fv[0] == v {
                            assert(idx =~= seq![u]);
                        } else {
                            assert(seq![u][0] == u);
                        }
                    }
                    assert(fv.contains(v) == (fv[0] == v)) by {
                        if fv[0] == v {
                        }
                    }
                } else {
                    assert(fv.len() == 2);
                    assert(idx.len() == 2);
                    assert((idx[0] == map[fv[0] as int] && idx[1] == map[fv[1] as int]) || (idx[0]
                        == map[fv[1] as int] && idx[1] == map[fv[0] as int]));
                    assert(fv.contains(v) == (fv[0] == v || fv[1] == v)) by {
                        if fv[0] == v {
                        }
                        if fv[1] == v {
                        }
                    }
                    assert(idx.contains(u) == (idx[0] == u || idx[1] == u)) by {
                        if idx[0] == u {
                        }
                        if idx[1] == u {
                        }
                    }
                    assert(idx != seq![u]);
                }
            }
        }
    }
}

/// The coefficient of a term with one variable.
spec fn alone_part() -> spec_fn(PartiallyAssignedTerm) -> int {
    |p: PartiallyAssignedTerm|
        if p.free_variables@.len() == 1 {
            p.coeff as int
        } else {
            0
        }
}

/// The negative coefficient of a term with more variables.
spec fn down_part() -> spec_fn(PartiallyAssignedTerm) -> int {
    |p: PartiallyAssignedTerm|
        if p.free_variables@.len() == 1 || p.coeff > 0 {
            0
        } else {
            p.coeff as int
        }
}

/// The positive coefficient of a term with more variables.
spec fn up_part() -> spec_fn(PartiallyAssignedTerm) -> int {
    |p: PartiallyAssignedTerm|
        if p.free_variables@.len() == 1 || p.coeff < 0 {
            0
        } else {
            p.coeff as int
        }
}

/// After the rounds of roof duality on a node no free variable is left whose own
/// coefficient outweighs its products: over bits no value pays whatever the others
/// are, over spins the products together are at least as large.
pub proof fn closed_nodes_have_no_outweighing<V: VarDomain>(
    instance: &HuboInstance<V>,
    node: &Node,
    v: usize,
)
    requires
        instance.wf(),
        instance.n() <= usize::MAX,
        node.describes(instance),
        !residual_roof::has_high(node.term_status@),
        residual_roof::is_roof_closed::<V>(node),
        v < instance.n(),
        node.fixed@[v as int] is None,
    ensures
        ({
            let s = node.term_status@;
            let own = dominance_laws::alone(s, v);
            match V::tag() {
                VarType::Bin => own + dominance_laws::shared_down(s, v) <= 0 && own
                    + dominance_laws::shared_up(s, v) >= 0,
                VarType::Spin => {
                    let rest = dominance_laws::shared_up(s, v) - dominance_laws::shared_down(s, v);
                    -rest <= own <= rest
                },
            }
        }),
{
    let f = node.fixed@;
    let s = node.term_status@;
    let map = restriction::renaming(f);
    fixes::lemma_free_vars(f);
    assert(fixes::free_vars(f).contains(v));
    let n = fixes::free_vars(f).len();
    let terms = choose|terms: Seq<Term>|
        views::term_views(terms) == residual_roof::residual_terms(s, map, s.len())
            && #[trigger] roof_dual::is_roof_fixes(V::tag(), terms, n, Seq::empty());
    restriction::lemma_renaming(f, v as int);
    let u = map[v as int];
    assert forall|t: int| 0 <= t < s.len() implies ((#[trigger] s[t]) matches Some(p)
        ==> p.free_variables@.no_duplicates() && forall|i: int|
        0 <= i < p.free_variables@.len() ==> (#[trigger] p.free_variables@[i]) < f.len()
            && f[p.free_variables@[i] as int] is None) by {
        assert(node::status_ok(V::tag(), instance.terms@[t], f, s[t]));
        if let Some(p) = s[t] {
            let idx = instance.terms@[t].indices@;
            node::lemma_free_list_subset(idx, f);
            assert(term::indices_below(idx, instance.n() as int));
            assert(idx.no_duplicates());
            assert forall|i: int| 0 <= i < p.free_variables@.len() implies (
            #[trigger] p.free_variables@[i]) < f.len() && f[p.free_variables@[i] as int] is None by {
                assert(p.free_variables@.contains(p.free_variables@[i]));
                let j = idx.index_of(p.free_variables@[i]);
                assert(idx[j] < f.len());
            }
        }
    }
    lemma_residual_weights(f, s, terms, v, s.len());
    lemma_residual_shape(f, s, terms, s.len());
    assert(views::term_views(terms).len() == terms.len());
    cover::lemma_ascending_len(fixes::free_vars(f), f.len());
    roof_fixes_outweighing_terms(V::tag(), terms, n, Seq::empty(), u);
    assert(dominance_laws::alone(s, v) == dominance_laws::left_sum(s, v, alone_part(), s.len()));
    assert(dominance_laws::shared_up(s, v) == dominance_laws::left_sum(s, v, up_part(), s.len()));
    assert(dominance_laws::shared_down(s, v) == dominance_laws::left_sum(
        s,
        v,
        down_part(),
        s.len(),
    ));
}

proof fn lemma_residual_shape(
    f: Seq<Option<bool>>,
    s: Seq<Option<PartiallyAssignedTerm>>,
    terms: Seq<Term>,
    k: nat,
)
    requires
        f.len() <= usize::MAX,
        k <= s.len(),
        views::term_views(terms) == residual_roof::residual_terms(
            s,
            restriction::renaming(f),
            s.len(),
        ),
        !residual_roof::has_high(s),
        forall|t: int|
            0 <= t < s.len() ==> ((#[trigger] s[t]) matches Some(p) ==> p.free_variables@.no_duplicates()
                && forall|i: int|
                0 <= i < p.free_variables@.len() ==> (#[trigger] p.free_variables@[i]) < f.len()
                    && f[p.free_variables@[i] as int] is None),
    ensures
        residual_roof::residual_terms(s, restriction::renaming(f), k).len() <= terms.len(),
        forall|i: int|
            0 <= i < residual_roof::residual_terms(s, restriction::renaming(f), k).len() ==> (
            #[trigger] terms[i]).indices@.len() <= 2 && terms[i].indices@.no_duplicates(),
    decreases k,
{
    let map = restriction::renaming(f);
    let all = residual_roof::residual_terms(s, map, s.len());
    let now = residual_roof::residual_terms(s, map, k);
    lemma_residual_prefix(s, map, k, s.len());
    assert(views::term_views(terms).len() == terms.len());
    if k > 0 {
        lemma_residual_shape(f, s, terms, (k - 1) as nat);
        let before = residual_roof::residual_terms(s, map, (k - 1) as nat);
        if let Some(p) = s[k - 1] {
            let fv = p.free_variables@;
            assert(s[k - 1] is Some);
            assert(fv.len() <= 2);
            if cheap::is_active(s[k - 1]) {
                let t = terms[before.len() as int];
                assert(views::term_views(terms)[before.len() as int] == all[before.len() as int]);
                assert(now[before.len() as int] == all[before.len() as int]);
                let idx = t.indices@;
                assert(idx == residual_roof::compact_list(map, fv));
                if fv.len() == 2 {
                    assert(fv[0] < f.len() && f[fv[0] as int] is None);
                    assert(fv[1] < f.len() && f[fv[1] as int] is None);
                    assert(fv[0] != fv[1]);
                    lemma_renamed(f, fv[0], fv[1]);
                }
            }
        }
    }
}

} // verus!
