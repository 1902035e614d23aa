//! Roof duality on what is left of an instance at a node.

use crate::bounds::cheap;
use crate::domain::{VarDomain, VarType};
use crate::fixes;
use crate::instance::HuboInstance;
use crate::kernelization::coupling;
use crate::kernelization::dominance;
use crate::kernelization::persistency;
use crate::kernelization::roof_dual;
use crate::kernelization::rules;
use crate::kernelization::run_laws;
use crate::kernelization::split;
use crate::node::{Node, PartiallyAssignedTerm};
use crate::node;
use crate::restriction;
use crate::sets;
use crate::term::Term;
use crate::term;
use crate::views;
use vstd::prelude::*;

verus! {

/// At most two variables under their new names, in ascending order.
pub open spec fn compact_list(map: Seq<usize>, fv: Seq<usize>) -> Seq<usize> {
    if fv.len() == 2 && map[fv[0] as int] > map[fv[1] as int] {
        seq![map[fv[1] as int], map[fv[0] as int]]
    } else {
        Seq::new(fv.len(), |i: int| map[fv[i] as int])
    }
}

/// What is left of the first `k` terms: the active ones under new names.
pub open spec fn residual_terms(
    s: Seq<Option<PartiallyAssignedTerm>>,
    map: Seq<usize>,
    k: nat,
) -> Seq<(Seq<usize>, i64)>
    decreases k,
{
    if k == 0 {
        Seq::empty()
    } else if cheap::is_active(s[k - 1]) {
        residual_terms(s, map, (k - 1) as nat).push(
            (compact_list(map, s[k - 1]->0.free_variables@), s[k - 1]->0.coeff),
        )
    } else {
        residual_terms(s, map, (k - 1) as nat)
    }
}

/// What those of the first `k` terms add that have no variable left.
pub open spec fn residual_constant(s: Seq<Option<PartiallyAssignedTerm>>, k: nat) -> int
    decreases k,
{
    if k == 0 {
        0
    } else {
        residual_constant(s, (k - 1) as nat) + (match s[k - 1] {
            Some(p) => if p.free_variables@.len() == 0 {
                p.coeff as int
            } else {
                0
            },
            None => 0,
        })
    }
}

/// Some active term has more than two variables left.
pub open spec fn has_high_active(s: Seq<Option<PartiallyAssignedTerm>>) -> bool {
    exists|t: int|
        0 <= t < s.len() && cheap::is_active(#[trigger] s[t]) && s[t]->0.free_variables@.len() > 2
}

/// Some term has more than two variables left.
pub open spec fn has_high(s: Seq<Option<PartiallyAssignedTerm>>) -> bool {
    exists|t: int|
        0 <= t < s.len() && (#[trigger] s[t] matches Some(p) && p.free_variables@.len() > 2)
}

/// `res` is what is left of the instance over the free variables `vars`.
pub open spec fn is_residual<V: VarDomain>(
    node: &Node,
    res: &HuboInstance<V>,
    vars: Seq<usize>,
) -> bool {
    &&& vars == fixes::free_vars(node.fixed@)
    &&& res.n() == vars.len()
    &&& views::term_views(res.terms@) == residual_terms(
        node.term_status@,
        restriction::renaming(node.fixed@),
        node.term_status@.len(),
    )
    &&& res.offset == node.offset + residual_constant(node.term_status@, node.term_status@.len())
    &&& res.wf()
    &&& res.fits()
}

/// The residual terms are terms over the free variables.
proof fn lemma_residual_terms<V: VarDomain>(instance: &HuboInstance<V>, node: &Node, k: nat)
    requires
        instance.wf(),
        node.describes(instance),
        instance.n() <= usize::MAX,
        k <= node.term_status@.len(),
        !has_high_active(node.term_status@),
    ensures
        forall|i: int|
            0 <= i < residual_terms(
                node.term_status@,
                restriction::renaming(node.fixed@),
                k,
            ).len() ==> term::indices_below(
                (#[trigger] residual_terms(
                    node.term_status@,
                    restriction::renaming(node.fixed@),
                    k,
                )[i]).0,
                fixes::free_vars(node.fixed@).len() as int,
            ) && residual_terms(
                node.term_status@,
                restriction::renaming(node.fixed@),
                k,
            )[i].0.no_duplicates(),
        views::view_abs(
            residual_terms(node.term_status@, restriction::renaming(node.fixed@), k),
        ) + term::abs(residual_constant(node.term_status@, k)) <= node::status_abs(
            node.term_status@.take(k as int),
        ),
        residual_terms(node.term_status@, restriction::renaming(node.fixed@), k).len() <= k,
    decreases k,
{
    let s = node.term_status@;
    let f = node.fixed@;
    let map = restriction::renaming(f);
    if k == 0 {
        assert(s.take(0) =~= Seq::empty());
    } else {
        let k1 = (k - 1) as nat;
        lemma_residual_terms(instance, node, k1);
        assert(s.take(k as int).drop_last() =~= s.take(k1 as int));
        let r = residual_terms(s, map, k);
        let p = residual_terms(s, map, k1);
        if cheap::is_active(s[k1 as int]) {
            let fv = s[k1 as int]->0.free_variables@;
            lemma_compact(instance, node, k1 as int);
            assert(r.drop_last() =~= p);
            assert forall|i: int| 0 <= i < r.len() implies term::indices_below(
                (#[trigger] r[i]).0,
                fixes::free_vars(f).len() as int,
            ) && r[i].0.no_duplicates() by {
                if i < p.len() {
                    assert(r[i] == p[i]);
                }
            }
        }
    }
}

/// The renamed variables of an active term.
proof fn lemma_compact<V: VarDomain>(instance: &HuboInstance<V>, node: &Node, t: int)
    requires
        instance.wf(),
        node.describes(instance),
        instance.n() <= usize::MAX,
        0 <= t < node.term_status@.len(),
        cheap::is_active(node.term_status@[t]),
        !has_high_active(node.term_status@),
    ensures
        ({
            let fv = node.term_status@[t]->0.free_variables@;
            let map = restriction::renaming(node.fixed@);
            let free = fixes::free_vars(node.fixed@);
            &&& 1 <= fv.len() <= 2
            &&& fv.no_duplicates()
            &&& forall|i: int|
                0 <= i < fv.len() ==> (#[trigger] fv[i]) < node.fixed@.len()
                    && node.fixed@[fv[i] as int] is None && map[fv[i] as int] < free.len()
                    && free[map[fv[i] as int] as int] == fv[i]
            &&& term::indices_below(compact_list(map, fv), free.len() as int)
            &&& compact_list(map, fv).no_duplicates()
        }),
{
    let s = node.term_status@;
    let f = node.fixed@;
    let idx = instance.terms@[t].indices@;
    let fv = s[t]->0.free_variables@;
    let map = restriction::renaming(f);
    let free = fixes::free_vars(f);
    assert(node::status_ok(V::tag(), instance.terms@[t], f, s[t]));
    assert(term::indices_below(idx, instance.n() as int));
    assert(idx.no_duplicates());
    node::lemma_free_list_subset(idx, f);
    assert forall|i: int| 0 <= i < fv.len() implies (#[trigger] fv[i]) < f.len()
        && f[fv[i] as int] is None && map[fv[i] as int] < free.len() && free[map[fv[i] as int] as int]
        == fv[i] by {
        assert(fv.contains(fv[i]));
        assert(node::free_list(idx, f).contains(fv[i]));
        let q = choose|q: int| 0 <= q < idx.len() && idx[q] == fv[i];
        assert(idx[q] < instance.n());
        restriction::lemma_renaming(f, fv[i] as int);
    }
    let c = compact_list(map, fv);
    if fv.len() == 2 {
        assert(fv[0] != fv[1]);
        assert(map[fv[0] as int] != map[fv[1] as int]);
    }
}

/// What is left of the instance as an instance over the free variables. `None`
/// when nothing is free or an active term has more than two variables left.
pub fn build_residual_quadratic<V: VarDomain>(node: &Node, instance: &HuboInstance<V>) -> (r: Option<
    (HuboInstance<V>, Vec<usize>),
>)
    requires
        instance.wf(),
        instance.fits(),
        node.describes(instance),
    ensures
        r is None <==> fixes::free_vars(node.fixed@).len() == 0 || has_high_active(
            node.term_status@,
        ),
        r matches Some((res, vars)) ==> is_residual(node, &res, vars@),
        r matches Some((res, vars)) ==> res.terms@.len() <= instance.terms@.len(),
{
    let ghost s = node.term_status@;
    let ghost f = node.fixed@;
    let ghost map = restriction::renaming(f);
    let n: usize = instance.n_vars();
    let mut free_vars: Vec<usize> = Vec::new();
    let mut v: usize = 0;
    while v < n
        invariant
            v <= n,
            n == f.len(),
            f == node.fixed@,
            node.fixed.wf(),
            free_vars@ == fixes::free_vars(f.take(v as int)),
        decreases n - v,
    {
        assert(f.take(v + 1).drop_last() =~= f.take(v as int));
        if node.fixed.get(v).is_none() {
            free_vars.push(v);
        }
        v += 1;
    }
    assert(f.take(v as int) =~= f);
    proof {
        fixes::lemma_free_vars(f);
    }
    if free_vars.len() == 0 {
        return None;
    }
    let mut high: bool = false;
    let mut t: usize = 0;
    while t < node.term_status.len()
        invariant
            t <= s.len(),
            s == node.term_status@,
            high == exists|q: int|
                0 <= q < t && cheap::is_active(#[trigger] s[q]) && s[q]->0.free_variables@.len() > 2,
        decreases s.len() - t,
    {
        let ghost high0 = high;
        if let Some(status) = &node.term_status[t] {
            if status.coeff != 0 && status.free_variables.len() > 2 {
                assert(cheap::is_active(s[t as int]));
                high = true;
            }
        }
        proof {
            if high0 {
                let q = choose|q: int|
                    0 <= q < t && cheap::is_active(#[trigger] s[q])
                        && s[q]->0.free_variables@.len() > 2;
                assert(cheap::is_active(s[q]));
            }
        }
        t += 1;
    }
    if high {
        return None;
    }
    assert(!has_high_active(s));
    let mut offset: i64 = node.offset;
    let mut terms: Vec<Term> = Vec::new();
    let mut t: usize = 0;
    proof {
        cheap::lemma_bound_size(instance, node);
        assert(views::term_views(terms@) =~= Seq::empty());
    }
    while t < node.term_status.len()
        invariant
            t <= s.len(),
            s == node.term_status@,
            f == node.fixed@,
            map == restriction::renaming(f),
            n == f.len(),
            instance.wf(),
            instance.fits(),
            instance.n() == n,
            node.describes(instance),
            !has_high_active(s),
            free_vars@ == fixes::free_vars(f),
            sets::ascending(free_vars@),
            term::abs(node.offset as int) + node::status_abs(s) <= term::abs_sum(instance.terms@),
            offset == node.offset + residual_constant(s, t as nat),
            views::term_views(terms@) == residual_terms(s, map, t as nat),
        decreases s.len() - t,
    {
        let ghost terms0 = terms@;
        proof {
            lemma_residual_terms(instance, node, (t + 1) as nat);
            lemma_status_abs_take(s, (t + 1) as int);
            lemma_view_abs(residual_terms(s, map, (t + 1) as nat));
        }
        if let Some(status) = &node.term_status[t] {
            if status.free_variables.len() == 0 {
                offset = offset + status.coeff;
            } else if status.coeff != 0 {
                let fv = &status.free_variables;
                proof {
                    assert(cheap::is_active(s[t as int]));
                    lemma_compact(instance, node, t as int);
                }
                let mut mapped: Vec<usize> = Vec::new();
                let mut j: usize = 0;
                while j < fv.len()
                    invariant
                        j <= fv@.len(),
                        fv@.len() <= 2,
                        f.len() <= usize::MAX,
                        map == restriction::renaming(f),
                        free_vars@ == fixes::free_vars(f),
                        sets::ascending(free_vars@),
                        forall|i: int|
                            0 <= i < fv@.len() ==> (#[trigger] fv@[i]) < f.len() && map[fv@[i] as int]
                                < free_vars@.len() && free_vars@[map[fv@[i] as int] as int]
                                == fv@[i],
                        mapped@.len() == j,
                        forall|i: int| 0 <= i < j ==> #[trigger] mapped@[i] == map[fv@[i] as int],
                    decreases fv@.len() - j,
                {
                    let (p, found) = sets::position_of(free_vars.as_slice(), fv[j]);
                    proof {
                        let m = map[fv@[j as int] as int] as int;
                        assert(free_vars@[m] == fv@[j as int]);
                        assert(free_vars@.contains(fv@[j as int]));
                        if p < m {
                            assert(free_vars@[p as int] < free_vars@[m]);
                        } else if m < p {
                            assert(free_vars@[m] < free_vars@[p as int]);
                        }
                    }
                    mapped.push(p);
                    j += 1;
                }
                if mapped.len() == 2 && mapped[0] > mapped[1] {
                    let a: usize = mapped[0];
                    let b: usize = mapped[1];
                    mapped.set(0, b);
                    mapped.set(1, a);
                }
                assert(mapped@ =~= compact_list(map, fv@));
                terms.push(Term { indices: mapped, coeff: status.coeff });
                assert(views::term_views(terms@) =~= views::term_views(terms0).push(
                    views::term_view(terms@[terms0.len() as int]),
                ));
            }
        }
        t += 1;
    }
    let n_free: usize = free_vars.len();
    proof {
        lemma_residual_terms(instance, node, s.len());
        assert(s.take(s.len() as int) =~= s);
        views::lemma_term_views(V::tag(), terms@, Seq::empty());
        let rt = residual_terms(s, map, s.len());
        assert forall|i: int| 0 <= i < terms@.len() implies term::indices_below(
            (#[trigger] terms@[i]).indices@,
            n_free as int,
        ) && terms@[i].indices@.no_duplicates() by {
            assert(views::term_views(terms@)[i] == rt[i]);
        }
        restriction::lemma_grid_base_fits(V::tag(), offset, terms@);
    }
    let res = HuboInstance::new(n_free, offset, terms);
    Some((res, free_vars))
}

proof fn lemma_view_abs(s: Seq<(Seq<usize>, i64)>)
    ensures
        views::view_abs(s) >= 0,
    decreases s.len(),
{
    if s.len() > 0 {
        lemma_view_abs(s.drop_last());
    }
}

proof fn lemma_status_abs_take(s: Seq<Option<PartiallyAssignedTerm>>, k: int)
    requires
        0 <= k <= s.len(),
    ensures
        0 <= node::status_abs(s.take(k)) <= node::status_abs(s),
    decreases s.len(),
{
    if s.len() == 0 || k == s.len() {
        assert(s.take(k) =~= s);
        if s.len() > 0 {
            lemma_status_abs_take(s.drop_last(), k - 1);
            assert(s.drop_last().take(k - 1) =~= s.drop_last());
        }
    } else {
        lemma_status_abs_take(s.drop_last(), k);
        assert(s.drop_last().take(k) =~= s.take(k));
    }
}

/// What is left has the same value under the new names.
proof fn lemma_residual_value<V: VarDomain>(
    instance: &HuboInstance<V>,
    node: &Node,
    x: Seq<bool>,
    k: nat,
)
    requires
        instance.wf(),
        node.describes(instance),
        instance.n() <= usize::MAX,
        k <= node.term_status@.len(),
        !has_high_active(node.term_status@),
        x.len() == node.fixed@.len(),
    ensures
        node::residual(V::tag(), node.term_status@.take(k as int), x) == residual_constant(
            node.term_status@,
            k,
        ) + views::view_poly(
            V::tag(),
            residual_terms(node.term_status@, restriction::renaming(node.fixed@), k),
            split::projected(x, fixes::free_vars(node.fixed@)),
        ),
    decreases k,
{
    let s = node.term_status@;
    let f = node.fixed@;
    let map = restriction::renaming(f);
    let free = fixes::free_vars(f);
    let y = split::projected(x, free);
    let vt = V::tag();
    if k > 0 {
        let k1 = (k - 1) as nat;
        lemma_residual_value(instance, node, x, k1);
        assert(s.take(k as int).drop_last() =~= s.take(k1 as int));
        match s[k1 as int] {
            None => {},
            Some(p) => {
                let fv = p.free_variables@;
                if fv.len() == 0 {
                    assert(p.coeff * 1 == p.coeff);
                } else if p.coeff != 0 {
                    lemma_compact(instance, node, k1 as int);
                    let c = compact_list(map, fv);
                    let r = residual_terms(s, map, k);
                    assert(r.drop_last() =~= residual_terms(s, map, k1));
                    assert(term::monomial(vt, c, y) == term::monomial(vt, fv, x)) by {
                        reveal_with_fuel(term::monomial, 3);
                        assert(fv[0] < f.len());
                        assert(y[map[fv[0] as int] as int] == x[fv[0] as int]);
                        let a = term::bit_value(vt, x[fv[0] as int]);
                        if fv.len() == 1 {
                            assert(c =~= seq![map[fv[0] as int]]);
                            assert(c.drop_last() =~= Seq::empty());
                            assert(fv.drop_last() =~= Seq::empty());
                        } else {
                            assert(y[map[fv[1] as int] as int] == x[fv[1] as int]);
                            let b = term::bit_value(vt, x[fv[1] as int]);
                            assert(fv.drop_last().drop_last() =~= Seq::empty());
                            assert(fv.drop_last().last() == fv[0]);
                            assert(c.drop_last().drop_last() =~= Seq::empty());
                            assert(c.drop_last().last() == c[0]);
                            assert(1 * a * b == 1 * b * a) by (nonlinear_arith);
                        }
                    }
                } else {
                    assert(0 * term::monomial(vt, fv, x) == 0);
                }
            },
        }
    }
}

/// The residual instance has the objective of the node's completions, up to the
/// offset.
pub proof fn residual_keeps_objective<V: VarDomain>(
    instance: &HuboInstance<V>,
    node: &Node,
    res: &HuboInstance<V>,
    vars: Seq<usize>,
    x: Seq<bool>,
)
    requires
        instance.wf(),
        instance.n() <= usize::MAX,
        node.describes(instance),
        !has_high_active(node.term_status@),
        is_residual(node, res, vars),
        node::extends(x, node.fixed@),
    ensures
        instance.objective(x) == instance.offset + res.objective(split::projected(x, vars)),
{
    let s = node.term_status@;
    lemma_residual_value(instance, node, x, s.len());
    assert(s.take(s.len() as int) =~= s);
    node::node_represents_objective(instance, node, x);
    views::lemma_term_views(V::tag(), res.terms@, split::projected(x, vars));
}

/// No completion of `f` has a lower objective than `x`.
pub open spec fn is_least<V: VarDomain>(
    instance: &HuboInstance<V>,
    f: Seq<Option<bool>>,
    x: Seq<bool>,
) -> bool {
    node::extends(x, f) && forall|y: Seq<bool>| #[trigger]
        node::extends(y, f) ==> instance.objective(x) <= instance.objective(y)
}

/// Some completion of `g` is no worse than `x`.
pub open spec fn is_matched<V: VarDomain>(
    instance: &HuboInstance<V>,
    g: Seq<Option<bool>>,
    x: Seq<bool>,
) -> bool {
    exists|y: Seq<bool>| #[trigger]
        node::extends(y, g) && instance.objective(y) <= instance.objective(x)
}

/// Going from the fixes `f` to `g` loses no optimum: `g` has the fixes of `f`,
/// every completion of `f` is matched by one of `g`, and the best completions of
/// `f` are completions of `g`.
pub open spec fn keeps_optima<V: VarDomain>(
    instance: &HuboInstance<V>,
    f: Seq<Option<bool>>,
    g: Seq<Option<bool>>,
) -> bool {
    &&& g.len() == f.len()
    &&& forall|i: int| 0 <= i < f.len() && (#[trigger] f[i]) is Some ==> g[i] == f[i]
    &&& forall|x: Seq<bool>| #[trigger] node::extends(x, f) ==> is_matched(instance, g, x)
    &&& forall|x: Seq<bool>| #[trigger] is_least(instance, f, x) ==> node::extends(x, g)
}

proof fn lemma_keeps_optima_trans<V: VarDomain>(
    instance: &HuboInstance<V>,
    f: Seq<Option<bool>>,
    g: Seq<Option<bool>>,
    h: Seq<Option<bool>>,
)
    requires
        keeps_optima(instance, f, g),
        keeps_optima(instance, g, h),
    ensures
        keeps_optima(instance, f, h),
{
    assert forall|i: int| 0 <= i < f.len() && (#[trigger] f[i]) is Some implies h[i] == f[i] by {
        assert(g[i] is Some);
    }
    assert forall|x: Seq<bool>| #[trigger] node::extends(x, f) implies is_matched(
        instance,
        h,
        x,
    ) by {
        assert(is_matched(instance, g, x));
        let y = choose|y: Seq<bool>| #[trigger]
            node::extends(y, g) && instance.objective(y) <= instance.objective(x);
        assert(is_matched(instance, h, y));
        let z = choose|z: Seq<bool>| #[trigger]
            node::extends(z, h) && instance.objective(z) <= instance.objective(y);
        assert(node::extends(z, h));
    }
    assert forall|x: Seq<bool>| #[trigger] is_least(instance, f, x) implies node::extends(x, h) by {
        assert(is_least(instance, g, x)) by {
            assert forall|y: Seq<bool>| #[trigger] node::extends(y, g) implies instance.objective(x)
                <= instance.objective(y) by {
                assert(node::extends(y, f)) by {
                    assert forall|i: int| 0 <= i < f.len() && (#[trigger] f[i]) is Some implies f[i]
                        == Some(y[i]) by {
                        assert(g[i] == f[i]);
                    }
                }
            }
        }
    }
}

/// `f` with the listed free variables fixed.
pub open spec fn with_fixes(
    f: Seq<Option<bool>>,
    vars: Seq<usize>,
    list: Seq<(usize, i64)>,
    k: nat,
) -> Seq<Option<bool>>
    decreases k,
{
    if k == 0 {
        f
    } else {
        with_fixes(f, vars, list, (k - 1) as nat).update(
            vars[list[k - 1].0 as int] as int,
            Some(list[k - 1].1 > 0),
        )
    }
}

/// Entries for distinct variables below `n` with values of the domain.
pub open spec fn is_fix_list(vt: VarType, n: nat, list: Seq<(usize, i64)>) -> bool {
    &&& rules::distinct_vars(list)
    &&& forall|i: int|
        0 <= i < list.len() ==> (#[trigger] list[i]).0 < n && (list[i].1 == term::bit_value(
            vt,
            true,
        ) || list[i].1 == term::bit_value(vt, false))
}

proof fn lemma_roof_list(vt: VarType, terms: Seq<Term>, n: nat, list: Seq<(usize, i64)>)
    requires
        roof_dual::is_roof_fixes(vt, terms, n, list),
        n <= usize::MAX,
    ensures
        is_fix_list(vt, n, list),
{
    if n > 0 && !roof_dual::beyond_quadratic(terms) {
        let (lin, quad, r) = choose|
            lin: Seq<i128>,
            quad: Seq<crate::merge::KeySum>,
            r: Seq<Option<bool>>,
        | #[trigger]
            roof_dual::is_labelled_by(vt, terms, n, lin, quad, r, list);
        let d = roof_dual::label_decision(vt, r);
        let vars = coupling::all_vars(n);
        persistency::lemma_decided(vars, d);
        assert(vars.no_duplicates()) by {
            assert forall|i: int, j: int| 0 <= i < j < vars.len() implies vars[i] != vars[j] by {}
        }
        rules::lemma_decided_distinct(vars, d);
        assert forall|i: int| 0 <= i < list.len() implies (#[trigger] list[i]).0 < n && (list[i].1
            == term::bit_value(vt, true) || list[i].1 == term::bit_value(vt, false)) by {
            assert(vars.contains(list[i].0));
            let q = choose|q: int| 0 <= q < vars.len() && vars[q] == list[i].0;
            assert(d(list[i].0) == Some(list[i].1));
            match r[list[i].0 as int] {
                Some(b) => {
                    assert(list[i].1 == term::bit_value(vt, b) as i64);
                },
                None => {},
            }
        }
    }
}

proof fn lemma_with_fixes(
    f: Seq<Option<bool>>,
    vars: Seq<usize>,
    list: Seq<(usize, i64)>,
    k: nat,
)
    requires
        k <= list.len(),
        f.len() <= usize::MAX,
        vars == fixes::free_vars(f),
        rules::distinct_vars(list),
        forall|i: int| 0 <= i < list.len() ==> (#[trigger] list[i]).0 < vars.len(),
    ensures
        with_fixes(f, vars, list, k).len() == f.len(),
        forall|i: int|
            0 <= i < f.len() && (#[trigger] f[i]) is Some ==> with_fixes(f, vars, list, k)[i] == f[i],
        forall|j: int|
            0 <= j < k ==> with_fixes(f, vars, list, k)[vars[(#[trigger] list[j]).0 as int] as int]
                == Some(list[j].1 > 0),
        forall|i: int|
            0 <= i < f.len() && (#[trigger] with_fixes(f, vars, list, k)[i]) is Some && f[i] is None
                ==> exists|j: int| 0 <= j < k && vars[(#[trigger] list[j]).0 as int] == i,
        k < list.len() ==> with_fixes(f, vars, list, k)[vars[list[k as int].0 as int] as int]
            is None,
    decreases k,
{
    fixes::lemma_free_vars(f);
    if k < list.len() {
        assert(list[k as int].0 < vars.len());
        assert(f[vars[list[k as int].0 as int] as int] is None);
    }
    if k > 0 {
        let k1 = (k - 1) as nat;
        lemma_with_fixes(f, vars, list, k1);
        let a = with_fixes(f, vars, list, k1);
        let b = with_fixes(f, vars, list, k);
        let u = vars[list[k1 as int].0 as int] as int;
        assert(list[k1 as int].0 < vars.len());
        assert forall|j: int| 0 <= j < k implies b[vars[(#[trigger] list[j]).0 as int] as int]
            == Some(list[j].1 > 0) by {
            if j < k1 {
                assert(list[j].0 != list[k1 as int].0);
                assert(list[j].0 < vars.len());
                if list[j].0 < list[k1 as int].0 {
                    assert(vars[list[j].0 as int] < vars[list[k1 as int].0 as int]);
                } else {
                    assert(vars[list[k1 as int].0 as int] < vars[list[j].0 as int]);
                }
            }
        }
        assert forall|i: int|
            0 <= i < f.len() && (#[trigger] b[i]) is Some && f[i] is None implies exists|j: int|
            0 <= j < k && vars[(#[trigger] list[j]).0 as int] == i by {
            if i == u {
                assert(vars[list[k1 as int].0 as int] == i);
            } else {
                assert(a[i] is Some);
                let j = choose|j: int| 0 <= j < k1 && vars[(#[trigger] list[j]).0 as int] == i;
                assert(vars[list[j].0 as int] == i);
            }
        }
        if k < list.len() {
            let w = vars[list[k as int].0 as int] as int;
            if b[w] is Some {
                let j = choose|j: int| 0 <= j < k && vars[(#[trigger] list[j]).0 as int] == w;
                assert(list[j].0 != list[k as int].0);
                assert(list[j].0 < vars.len());
                if list[j].0 < list[k as int].0 {
                    assert(vars[list[j].0 as int] < vars[list[k as int].0 as int]);
                } else {
                    assert(vars[list[k as int].0 as int] < vars[list[j].0 as int]);
                }
            }
        }
    }
}

/// One round of roof duality on the residual instance loses no optimum.
proof fn lemma_round<V: VarDomain>(
    instance: &HuboInstance<V>,
    node: &Node,
    res: &HuboInstance<V>,
    vars: Seq<usize>,
    list: Seq<(usize, i64)>,
)
    requires
        instance.wf(),
        instance.n() <= usize::MAX,
        node.describes(instance),
        !has_high_active(node.term_status@),
        is_residual(node, res, vars),
        roof_dual::is_roof_fixes(V::tag(), res.terms@, res.n() as nat, list),
    ensures
        keeps_optima(
            instance,
            node.fixed@,
            with_fixes(node.fixed@, vars, list, list.len()),
        ),
{
    let f = node.fixed@;
    let n = vars.len();
    let g = with_fixes(f, vars, list, list.len());
    fixes::lemma_free_vars(f);
    lemma_free_len(f);
    lemma_roof_list(V::tag(), res.terms@, n, list);
    lemma_with_fixes(f, vars, list, list.len());
    assert forall|x: Seq<bool>| #[trigger] node::extends(x, f) implies is_matched(
        instance,
        g,
        x,
    ) by {
        let y = split::projected(x, vars);
        let y2 = persistency::with_values(y, list);
        roof_dual::roof_fixes_are_persistent(res, list, y);
        run_laws::lemma_with_values_takes(y, list);
        let x2 = restriction::lifted(f, y2);
        assert(node::extends(x2, f));
        lemma_lifted(f, y2);
        residual_keeps_objective(instance, node, res, vars, x);
        residual_keeps_objective(instance, node, res, vars, x2);
        assert(node::extends(x2, g)) by {
            assert forall|i: int| 0 <= i < g.len() && (#[trigger] g[i]) is Some implies g[i]
                == Some(x2[i]) by {
                if f[i] is None {
                    let j = choose|j: int|
                        0 <= j < list.len() && vars[(#[trigger] list[j]).0 as int] == i;
                    assert(g[vars[list[j].0 as int] as int] == Some(list[j].1 > 0));
                    assert(split::projected(x2, vars)[list[j].0 as int] == x2[i]);
                    assert(y2[list[j].0 as int] == (list[j].1 == 1));
                } else {
                    assert(f[i] is Some);
                }
            }
        }
    }
    assert forall|x: Seq<bool>| #[trigger] is_least(instance, f, x) implies node::extends(x, g) by {
        let y = split::projected(x, vars);
        residual_keeps_objective(instance, node, res, vars, x);
        assert forall|z: Seq<bool>| z.len() == res.n() implies res.objective(y)
            <= #[trigger] res.objective(z) by {
            let x2 = restriction::lifted(f, z);
            assert(node::extends(x2, f));
            lemma_lifted(f, z);
            residual_keeps_objective(instance, node, res, vars, x2);
        }
        roof_dual::roof_fixes_are_persistent(res, list, y);
        run_laws::lemma_with_values_takes(y, list);
        assert forall|i: int| 0 <= i < g.len() && (#[trigger] g[i]) is Some implies g[i] == Some(
            x[i],
        ) by {
            if f[i] is None {
                let j = choose|j: int|
                    0 <= j < list.len() && vars[(#[trigger] list[j]).0 as int] == i;
                assert(g[vars[list[j].0 as int] as int] == Some(list[j].1 > 0));
                assert(y[list[j].0 as int] == x[i]);
                assert(y[list[j].0 as int] == (list[j].1 == 1));
            } else {
                assert(f[i] is Some);
            }
        }
    }
}

proof fn lemma_free_len(f: Seq<Option<bool>>)
    ensures
        fixes::free_vars(f).len() <= f.len(),
    decreases f.len(),
{
    if f.len() > 0 {
        lemma_free_len(f.drop_last());
    }
}

proof fn lemma_lifted(f: Seq<Option<bool>>, y: Seq<bool>)
    requires
        y.len() == fixes::free_vars(f).len(),
        f.len() <= usize::MAX,
    ensures
        split::projected(restriction::lifted(f, y), fixes::free_vars(f)) == y,
        node::extends(restriction::lifted(f, y), f),
{
    let vars = fixes::free_vars(f);
    let x = restriction::lifted(f, y);
    fixes::lemma_free_vars(f);
    assert forall|i: int| 0 <= i < y.len() implies split::projected(x, vars)[i] == y[i] by {
        let v = vars[i] as int;
        assert(f[vars[i] as int] is None);
        restriction::lemma_renaming(f, v);
        let m = restriction::renaming(f)[v] as int;
        assert(vars[m] == vars[i]);
        if m < i {
            assert(vars[m] < vars[i]);
        } else if i < m {
            assert(vars[i] < vars[m]);
        }
    }
    assert(split::projected(x, vars) =~= y);
}

/// Roof duality fixes nothing of what is left.
pub open spec fn is_roof_closed<V: VarDomain>(node: &Node) -> bool {
    fixes::free_vars(node.fixed@).len() == 0 || exists|terms: Seq<Term>|
        views::term_views(terms) == residual_terms(
            node.term_status@,
            restriction::renaming(node.fixed@),
            node.term_status@.len(),
        ) && #[trigger] roof_dual::is_roof_fixes(
            V::tag(),
            terms,
            fixes::free_vars(node.fixed@).len(),
            Seq::empty(),
        )
}

/// One round of roof duality on what is left at `a`: the fixes of `list` are made.
pub open spec fn is_roof_round<V: VarDomain>(a: &Node, b: &Node, list: Seq<(usize, i64)>) -> bool {
    let vars = fixes::free_vars(a.fixed@);
    &&& vars.len() > 0
    &&& list.len() > 0
    &&& exists|terms: Seq<Term>|
        views::term_views(terms) == residual_terms(
            a.term_status@,
            restriction::renaming(a.fixed@),
            a.term_status@.len(),
        ) && #[trigger] roof_dual::is_roof_fixes(V::tag(), terms, vars.len(), list)
    &&& b.fixed@ == with_fixes(a.fixed@, vars, list, list.len())
}

/// `b` follows `a` by a round of roof duality.
pub open spec fn is_roof_step<V: VarDomain>(a: &Node, b: &Node) -> bool {
    exists|list: Seq<(usize, i64)>| #[trigger] is_roof_round::<V>(a, b, list)
}

/// Rounds of roof duality, until it fixes nothing more.
pub open spec fn is_roof_run<V: VarDomain>(instance: &HuboInstance<V>, nodes: Seq<Node>) -> bool {
    &&& are_roof_steps(instance, nodes)
    &&& is_roof_closed::<V>(&nodes.last())
}

/// Rounds of roof duality, one after the other.
pub open spec fn are_roof_steps<V: VarDomain>(
    instance: &HuboInstance<V>,
    nodes: Seq<Node>,
) -> bool {
    &&& nodes.len() > 0
    &&& forall|k: int| 0 <= k < nodes.len() ==> (#[trigger] nodes[k]).describes(instance)
    &&& forall|k: int|
        #![trigger nodes[k]]
        0 <= k < nodes.len() - 1 ==> is_roof_step::<V>(&nodes[k], &nodes[k + 1])
}

proof fn lemma_roof_push<V: VarDomain>(instance: &HuboInstance<V>, nodes: Seq<Node>, b: Node)
    requires
        are_roof_steps(instance, nodes),
        b.describes(instance),
        is_roof_step::<V>(&nodes.last(), &b),
    ensures
        are_roof_steps(instance, nodes.push(b)),
{
    let t = nodes.push(b);
    assert forall|k: int| 0 <= k < t.len() implies (#[trigger] t[k]).describes(instance) by {
        if k < nodes.len() {
            assert(t[k] == nodes[k]);
        }
    }
    assert forall|k: int|
        #![trigger t[k]]
        0 <= k < t.len() - 1 implies is_roof_step::<V>(&t[k], &t[k + 1]) by {
        assert(t[k] == nodes[k]);
        if k + 1 < nodes.len() {
            assert(t[k + 1] == nodes[k + 1]);
        }
    }
}

proof fn lemma_high_kept<V: VarDomain>(instance: &HuboInstance<V>, a: &Node, b: &Node)
    requires
        instance.wf(),
        a.describes(instance),
        b.describes(instance),
        !has_high(a.term_status@),
        forall|i: int|
            0 <= i < b.term_status@.len() && (#[trigger] b.term_status@[i]) is Some
                ==> a.term_status@[i] is Some,
        forall|i: int|
            0 <= i < a.fixed@.len() && (#[trigger] a.fixed@[i]) is Some ==> b.fixed@[i] is Some,
    ensures
        !has_high(b.term_status@),
{
    if has_high(b.term_status@) {
        let t = choose|t: int|
            0 <= t < b.term_status@.len() && (#[trigger] b.term_status@[t] matches Some(p)
                && p.free_variables@.len() > 2);
        assert(b.term_status@[t] is Some);
        assert(a.term_status@[t] is Some);
        assert(node::status_ok(V::tag(), instance.terms@[t], a.fixed@, a.term_status@[t]));
        assert(node::status_ok(V::tag(), instance.terms@[t], b.fixed@, b.term_status@[t]));
        assert(term::indices_below(instance.terms@[t].indices@, instance.n() as int));
        lemma_free_list_shrinks(instance.terms@[t].indices@, a.fixed@, b.fixed@);
    }
}

proof fn lemma_free_list_shrinks(idx: Seq<usize>, f: Seq<Option<bool>>, g: Seq<Option<bool>>)
    requires
        f.len() == g.len(),
        term::indices_below(idx, f.len() as int),
        forall|i: int| 0 <= i < f.len() && (#[trigger] f[i]) is Some ==> g[i] is Some,
    ensures
        node::free_list(idx, g).len() <= node::free_list(idx, f).len(),
    decreases idx.len(),
{
    if idx.len() > 0 {
        assert(idx[idx.len() - 1] < f.len());
        assert forall|i: int| 0 <= i < idx.drop_last().len() implies (#[trigger] idx.drop_last()[i])
            < f.len() by {
            assert(idx[i] < f.len());
        }
        lemma_free_list_shrinks(idx.drop_last(), f, g);
        assert(f[idx.last() as int] is Some ==> g[idx.last() as int] is Some);
    }
}

proof fn lemma_free_fewer(f: Seq<Option<bool>>, v: int, b: bool)
    requires
        0 <= v < f.len(),
        f[v] is None,
    ensures
        fixes::free_vars(f.update(v, Some(b))).len() == fixes::free_vars(f).len() - 1,
    decreases f.len(),
{
    let g = f.update(v, Some(b));
    if v == f.len() - 1 {
        assert(g.drop_last() =~= f.drop_last());
    } else {
        lemma_free_fewer(f.drop_last(), v, b);
        assert(g.drop_last() =~= f.drop_last().update(v, Some(b)));
    }
}

/// Fix variables of the node by roof duality until it fixes nothing more, when
/// no term has more than two variables left. `false` would mean that fixes
/// contradict each other, which does not happen.
pub fn apply_roof_dual_fixings<V: VarDomain>(node: &mut Node, instance: &HuboInstance<V>) -> (r: bool)
    requires
        instance.wf(),
        instance.fits(),
        4 * instance.n() + 8 * instance.terms@.len() + 2 < usize::MAX,
        old(node).describes(instance),
    ensures
        r,
        final(node).describes(instance),
        final(node).lb == old(node).lb,
        final(node).core_hint == old(node).core_hint,
        final(node).prices == old(node).prices,
        has_high(old(node).term_status@) ==> *final(node) == *old(node),
        !has_high(old(node).term_status@) ==> exists|nodes: Seq<Node>| #[trigger]
            is_roof_run(instance, nodes) && nodes[0] == *old(node) && nodes.last() == *final(node),
        !has_high(old(node).term_status@) ==> keeps_optima(
            instance,
            old(node).fixed@,
            final(node).fixed@,
        ) && is_roof_closed::<V>(final(node)),
{
    let ghost node0 = *node;
    let n: usize = instance.n_vars();
    let mut high: bool = false;
    let mut t: usize = 0;
    while t < node.term_status.len()
        invariant
            t <= node.term_status@.len(),
            high == exists|q: int|
                0 <= q < t && (#[trigger] node.term_status@[q] matches Some(p)
                    && p.free_variables@.len() > 2),
        decreases node.term_status@.len() - t,
    {
        let ghost high0 = high;
        if let Some(status) = &node.term_status[t] {
            if status.free_variables.len() > 2 {
                assert(node.term_status@[t as int] is Some);
                high = true;
            }
        }
        proof {
            if high0 {
                let q = choose|q: int|
                    0 <= q < t && (#[trigger] node.term_status@[q] matches Some(p)
                        && p.free_variables@.len() > 2);
                assert(node.term_status@[q] is Some);
            }
        }
        t += 1;
    }
    if high {
        return true;
    }
    assert(!has_high(node.term_status@));
    let ghost mut nodes: Seq<Node> = seq![*node];
    loop
        invariant
            are_roof_steps(instance, nodes),
            nodes[0] == node0,
            nodes.last() == *node,
            n == instance.n(),
            instance.wf(),
            instance.fits(),
            4 * instance.n() + 8 * instance.terms@.len() + 2 < usize::MAX,
            node.describes(instance),
            node.lb == node0.lb,
            node.core_hint == node0.core_hint,
            node.prices == node0.prices,
            node0 == *old(node),
            !has_high(node0.term_status@),
            !has_high(node.term_status@),
            keeps_optima(instance, node0.fixed@, node.fixed@),
        decreases fixes::free_vars(node.fixed@).len(),
    {
        let ghost before = *node;
        let ghost f = node.fixed@;
        proof {
            assert(!has_high_active(node.term_status@)) by {
                if has_high_active(node.term_status@) {
                    let q = choose|q: int|
                        0 <= q < node.term_status@.len() && cheap::is_active(
                            #[trigger] node.term_status@[q],
                        ) && node.term_status@[q]->0.free_variables@.len() > 2;
                    assert(node.term_status@[q] is Some);
                }
            }
            lemma_free_len(f);
        }
        let (res, vars) = match build_residual_quadratic(node, instance) {
            None => {
                assert(is_roof_run(instance, nodes));
                return true;
            },
            Some(pair) => pair,
        };
        let list = match V::var_type() {
            VarType::Bin => roof_dual::binary_roof_duality(&res),
            VarType::Spin => roof_dual::spin_roof_duality(&res),
        };
        proof {
            lemma_roof_list(V::tag(), res.terms@, vars@.len(), list@);
            lemma_round(instance, node, &res, vars@, list@);
        }
        if list.len() == 0 {
            assert(list@ =~= Seq::empty());
            assert(is_roof_run(instance, nodes));
            return true;
        }
        let mut k: usize = 0;
        while k < list.len()
            invariant
                k <= list@.len(),
                instance.wf(),
                instance.fits(),
                before.describes(instance),
                f == before.fixed@,
                f.len() <= usize::MAX,
                vars@ == fixes::free_vars(f),
                is_fix_list(V::tag(), vars@.len(), list@),
                node.describes(instance),
                node.lb == node0.lb,
                node.core_hint == node0.core_hint,
                node.prices == node0.prices,
                !has_high(node.term_status@),
                node.fixed@ == with_fixes(f, vars@, list@, k as nat),
                fixes::free_vars(node.fixed@).len() + k == vars@.len(),
            decreases list@.len() - k,
        {
            let (compact_idx, value) = list[k];
            let ghost here = *node;
            proof {
                lemma_with_fixes(f, vars@, list@, k as nat);
                fixes::lemma_free_vars(f);
                assert(list@[k as int].0 < vars@.len());
            }
            let source_idx: usize = vars[compact_idx];
            let high: bool = value > 0;
            assert(f[vars@[compact_idx as int] as int] is None);
            let set = node.set_variable(instance, source_idx, high);
            proof {
                lemma_free_fewer(here.fixed@, source_idx as int, high);
                assert forall|i: int|
                    0 <= i < node.term_status@.len() && (#[trigger] node.term_status@[i]) is Some implies here.term_status@[i]
                    is Some by {}
                lemma_high_kept(instance, &here, node);
            }
            k += 1;
        }
        proof {
            lemma_keeps_optima_trans(instance, node0.fixed@, f, node.fixed@);
            assert(is_roof_round::<V>(&before, node, list@));
            lemma_roof_push(instance, nodes, *node);
            nodes = nodes.push(*node);
        }
    }
}

} // verus!
