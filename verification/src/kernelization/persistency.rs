//! What fixing a variable does to the objective.

use crate::bounds::cheap;
use crate::delta;
use crate::domain::{VarDomain, VarType};
use crate::domain;
use crate::fixes;
use crate::instance::HuboInstance;
use crate::kernelization::dominance;
use crate::node::{Node, PartiallyAssignedTerm};
use crate::node;
use crate::sums;
use crate::term::Term;
use crate::term;
use vstd::prelude::*;

verus! {

/// Giving `var` this value never raises the objective of a completion of `f`.
pub open spec fn safe_value<V: VarDomain>(
    instance: &HuboInstance<V>,
    f: Seq<Option<bool>>,
    var: usize,
    high: bool,
) -> bool {
    forall|x: Seq<bool>| #[trigger]
        node::extends(x, f) ==> instance.objective(x.update(var as int, high)) <= instance.objective(x)
}

/// `x` with the listed variables at the listed values.
pub open spec fn with_values(x: Seq<bool>, list: Seq<(usize, i64)>) -> Seq<bool>
    decreases list.len(),
{
    if list.len() == 0 {
        x
    } else {
        with_values(x, list.drop_last()).update(list.last().0 as int, list.last().1 == 1)
    }
}

/// `f` with the listed variables fixed at the listed values.
pub open spec fn fixed_by(f: Seq<Option<bool>>, list: Seq<(usize, i64)>) -> Seq<Option<bool>>
    decreases list.len(),
{
    if list.len() == 0 {
        f
    } else {
        fixed_by(f, list.drop_last()).update(list.last().0 as int, Some(list.last().1 == 1))
    }
}

/// An assignment that has been given the listed values completes the fixes
/// together with the list.
pub proof fn lemma_with_values(x: Seq<bool>, f: Seq<Option<bool>>, list: Seq<(usize, i64)>)
    requires
        node::extends(x, f),
        forall|i: int| 0 <= i < list.len() ==> (#[trigger] list[i]).0 < f.len(),
    ensures
        fixed_by(f, list).len() == f.len(),
        node::extends(with_values(x, list), fixed_by(f, list)),
        (forall|i: int| 0 <= i < list.len() ==> f[(#[trigger] list[i]).0 as int] is None)
            ==> node::extends(with_values(x, list), f),
    decreases list.len(),
{
    if list.len() > 0 {
        let p = list.drop_last();
        assert forall|i: int| 0 <= i < p.len() implies (#[trigger] p[i]).0 < f.len() by {
            assert(p[i] == list[i]);
        }
        lemma_with_values(x, f, p);
        assert(list[list.len() - 1].0 < f.len());
        if forall|i: int| 0 <= i < list.len() ==> f[(#[trigger] list[i]).0 as int] is None {
            assert forall|i: int| 0 <= i < p.len() implies f[(#[trigger] p[i]).0 as int]
                is None by {
                assert(p[i] == list[i]);
            }
            assert(f[list[list.len() - 1].0 as int] is None);
        }
    }
}

/// Values that are each safe are safe together.
pub proof fn safe_values_compose<V: VarDomain>(
    instance: &HuboInstance<V>,
    f: Seq<Option<bool>>,
    list: Seq<(usize, i64)>,
    x: Seq<bool>,
)
    requires
        node::extends(x, f),
        forall|i: int|
            0 <= i < list.len() ==> (#[trigger] list[i]).0 < f.len() && f[list[i].0 as int] is None
                && safe_value(instance, f, list[i].0, list[i].1 == 1),
    ensures
        instance.objective(with_values(x, list)) <= instance.objective(x),
        node::extends(with_values(x, list), fixed_by(f, list)),
        node::extends(with_values(x, list), f),
    decreases list.len(),
{
    lemma_with_values(x, f, list);
    if list.len() > 0 {
        let p = list.drop_last();
        assert forall|i: int| 0 <= i < p.len() implies (#[trigger] p[i]).0 < f.len()
            && f[p[i].0 as int] is None && safe_value(instance, f, p[i].0, p[i].1 == 1) by {
            assert(p[i] == list[i]);
        }
        safe_values_compose(instance, f, p, x);
        let y = with_values(x, p);
        let e = list[list.len() - 1];
        assert(safe_value(instance, f, e.0, e.1 == 1));
        assert(node::extends(y, f));
    }
}

/// A product that lists the variable once, with the variable set.
pub proof fn lemma_set_present(vt: VarType, idx: Seq<usize>, x: Seq<bool>, v: usize, b: bool)
    requires
        v < x.len(),
        term::indices_below(idx, x.len() as int),
        idx.no_duplicates(),
        idx.contains(v),
    ensures
        term::monomial(vt, idx, x.update(v as int, b)) == term::bit_value(vt, b) * term::monomial(
            vt,
            domain::without(idx, v),
            x,
        ),
    decreases idx.len(),
{
    let p = idx.drop_last();
    let u = idx.last();
    let y = x.update(v as int, b);
    assert(term::indices_below(p, x.len() as int));
    assert(idx[idx.len() - 1] < x.len());
    assert(p.no_duplicates());
    if u == v {
        assert(!p.contains(v)) by {
            if p.contains(v) {
                let i = choose|i: int| 0 <= i < p.len() && p[i] == v;
                assert(idx[i] == idx[idx.len() - 1]);
            }
        }
        lemma_set_absent(vt, p, x, v, b);
        delta::lemma_without_absent(p, v);
        let m = term::monomial(vt, p, x);
        assert(m * term::bit_value(vt, b) == term::bit_value(vt, b) * m) by (nonlinear_arith);
    } else {
        assert(p.contains(v)) by {
            let i = choose|i: int| 0 <= i < idx.len() && idx[i] == v;
            assert(p[i] == v);
        }
        lemma_set_present(vt, p, x, v, b);
        let w = domain::without(p, v);
        assert(domain::without(idx, v) == w.push(u));
        assert(w.push(u).drop_last() =~= w);
        let m = term::monomial(vt, w, x);
        let c = term::bit_value(vt, b);
        let d = term::bit_value(vt, x[u as int]);
        assert((c * m) * d == c * (m * d)) by (nonlinear_arith);
    }
}

/// A product that does not list the variable, with the variable set.
pub proof fn lemma_set_absent(vt: VarType, idx: Seq<usize>, x: Seq<bool>, v: usize, b: bool)
    requires
        v < x.len(),
        term::indices_below(idx, x.len() as int),
        !idx.contains(v),
    ensures
        term::monomial(vt, idx, x.update(v as int, b)) == term::monomial(vt, idx, x),
{
    let y = x.update(v as int, b);
    assert forall|i: int| 0 <= i < idx.len() implies y[#[trigger] idx[i] as int]
        == x[idx[i] as int] by {
        assert(idx.contains(idx[i]));
    }
    delta::lemma_monomial_agree(vt, idx, y, x);
}

/// The difference between a variable's two values.
pub open spec fn span(vt: VarType) -> int {
    term::bit_value(vt, true) - term::bit_value(vt, false)
}

proof fn lemma_span(vt: VarType, a: int, b: int)
    ensures
        span(vt) * a == (if vt == VarType::Bin {
            a
        } else {
            2 * a
        }),
        span(vt) * (a + b) == span(vt) * a + span(vt) * b,
        span(vt) * b == (if vt == VarType::Bin {
            b
        } else {
            2 * b
        }),
{
    let d = span(vt);
    assert(d == 1 || d == 2);
    assert(d * a == if d == 1 { a } else { 2 * a }) by (nonlinear_arith)
        requires
            d == 1 || d == 2,
    ;
    assert(d * b == if d == 1 { b } else { 2 * b }) by (nonlinear_arith)
        requires
            d == 1 || d == 2,
    ;
    assert(d * (a + b) == d * a + d * b) by (nonlinear_arith);
}

/// The least effect per term of raising a variable.
spec fn least_effect(vt: VarType, s: Seq<Option<PartiallyAssignedTerm>>) -> spec_fn(int) -> int {
    |t: int|
        match vt {
            VarType::Bin => dominance::linear_weight(s)(t) + dominance::signed_weight(s, false)(t),
            VarType::Spin => dominance::linear_weight(s)(t) - dominance::higher_weight(s)(t),
        }
}

/// The greatest effect per term of raising a variable.
spec fn greatest_effect(vt: VarType, s: Seq<Option<PartiallyAssignedTerm>>) -> spec_fn(int) -> int {
    |t: int|
        match vt {
            VarType::Bin => dominance::linear_weight(s)(t) + dominance::signed_weight(s, true)(t),
            VarType::Spin => dominance::linear_weight(s)(t) + dominance::higher_weight(s)(t),
        }
}

/// Raising a free variable changes what is left within the effects of the
/// terms that list it.
proof fn lemma_effect_range(
    vt: VarType,
    terms: Seq<Term>,
    f: Seq<Option<bool>>,
    s: Seq<Option<PartiallyAssignedTerm>>,
    x: Seq<bool>,
    v: usize,
    k: nat,
)
    requires
        k <= s.len(),
        s.len() == terms.len(),
        term::terms_below(terms, f.len() as int),
        term::terms_distinct(terms),
        x.len() == f.len(),
        v < f.len(),
        f[v as int] is None,
        forall|i: int| 0 <= i < s.len() ==> node::status_ok(vt, #[trigger] terms[i], f, s[i]),
    ensures
        span(vt) * sums::incident_sum(terms, v, least_effect(vt, s), k) <= node::residual(
            vt,
            s.take(k as int),
            x.update(v as int, true),
        ) - node::residual(vt, s.take(k as int), x.update(v as int, false)) <= span(vt) * sums::incident_sum(
            terms,
            v,
            greatest_effect(vt, s),
            k,
        ),
    decreases k,
{
    if k > 0 {
        let k1 = (k - 1) as nat;
        lemma_effect_range(vt, terms, f, s, x, v, k1);
        assert(s.take(k as int).drop_last() =~= s.take(k1 as int));
        let t = terms[k1 as int];
        assert(node::status_ok(vt, t, f, s[k1 as int]));
        assert(term::indices_below(t.indices@, f.len() as int));
        assert(t.indices@.no_duplicates());
        node::lemma_free_list_subset(t.indices@, f);
        lemma_span(
            vt,
            sums::incident_sum(terms, v, least_effect(vt, s), k1),
            least_effect(vt, s)(k1 as int),
        );
        lemma_span(
            vt,
            sums::incident_sum(terms, v, greatest_effect(vt, s), k1),
            greatest_effect(vt, s)(k1 as int),
        );
        match s[k1 as int] {
            None => {},
            Some(p) => {
                let idx = p.free_variables@;
                assert(term::indices_below(idx, x.len() as int)) by {
                    assert forall|i: int| 0 <= i < idx.len() implies (#[trigger] idx[i])
                        < x.len() by {
                        assert(idx.contains(idx[i]));
                        assert(t.indices@.contains(idx[i]));
                        let q = choose|q: int|
                            0 <= q < t.indices@.len() && t.indices@[q] == idx[i];
                    }
                }
                assert(idx.contains(v) == t.indices@.contains(v));
                if idx.contains(v) {
                    lemma_set_present(vt, idx, x, v, true);
                    lemma_set_present(vt, idx, x, v, false);
                    delta::lemma_without(idx, x, v);
                    let m = term::monomial(vt, domain::without(idx, v), x);
                    term::lemma_monomial_range(vt, domain::without(idx, v), x);
                    let c = p.coeff as int;
                    if idx.len() == 1 {
                        assert(domain::without(idx, v).len() == 0);
                        assert(m == 1);
                    }
                    let a = term::bit_value(vt, true);
                    let b = term::bit_value(vt, false);
                    assert(c * (a * m) - c * (b * m) == (a - b) * (c * m)) by (nonlinear_arith);
                    assert(c * m == if m == 0 { 0 } else if m == 1 { c } else { -c })
                        by (nonlinear_arith)
                        requires
                            m == 0 || m == 1 || m == -1,
                    ;
                } else {
                    lemma_set_absent(vt, idx, x, v, true);
                    lemma_set_absent(vt, idx, x, v, false);
                }
            },
        }
    }
}

proof fn lemma_effect_sums(
    vt: VarType,
    terms: Seq<Term>,
    s: Seq<Option<PartiallyAssignedTerm>>,
    v: usize,
    k: nat,
)
    ensures
        vt == VarType::Bin ==> sums::incident_sum(terms, v, least_effect(vt, s), k) == sums::incident_sum(
            terms,
            v,
            dominance::linear_weight(s),
            k,
        ) + sums::incident_sum(terms, v, dominance::signed_weight(s, false), k),
        vt == VarType::Bin ==> sums::incident_sum(terms, v, greatest_effect(vt, s), k) == sums::incident_sum(
            terms,
            v,
            dominance::linear_weight(s),
            k,
        ) + sums::incident_sum(terms, v, dominance::signed_weight(s, true), k),
        vt == VarType::Spin ==> sums::incident_sum(terms, v, least_effect(vt, s), k) == sums::incident_sum(
            terms,
            v,
            dominance::linear_weight(s),
            k,
        ) - sums::incident_sum(terms, v, dominance::higher_weight(s), k),
        vt == VarType::Spin ==> sums::incident_sum(terms, v, greatest_effect(vt, s), k) == sums::incident_sum(
            terms,
            v,
            dominance::linear_weight(s),
            k,
        ) + sums::incident_sum(terms, v, dominance::higher_weight(s), k),
    decreases k,
{
    if k > 0 {
        lemma_effect_sums(vt, terms, s, v, (k - 1) as nat);
    }
}

/// A dominant value is safe.
pub proof fn dominant_value_is_safe<V: VarDomain>(
    instance: &HuboInstance<V>,
    node: &Node,
    var: usize,
    value: i64,
)
    requires
        instance.wf(),
        node.describes(instance),
        var < instance.n(),
        node.fixed@[var as int] is None,
        dominance::dominant_value(V::tag(), instance.terms@, node.term_status@, var) == Some(value),
    ensures
        safe_value(instance, node.fixed@, var, value == 1),
{
    let vt = V::tag();
    let s = node.term_status@;
    let f = node.fixed@;
    let terms = instance.terms@;
    assert forall|x: Seq<bool>| #[trigger] node::extends(x, f) implies instance.objective(
        x.update(var as int, value == 1),
    ) <= instance.objective(x) by {
        let hi = x.update(var as int, true);
        let lo = x.update(var as int, false);
        assert(node::extends(hi, f));
        assert(node::extends(lo, f));
        node::node_represents_objective(instance, node, hi);
        node::node_represents_objective(instance, node, lo);
        lemma_effect_range(vt, terms, f, s, x, var, s.len());
        lemma_effect_sums(vt, terms, s, var, s.len());
        assert(s.take(s.len() as int) =~= s);
        assert(x =~= hi || x =~= lo);
        lemma_span(vt, sums::incident_sum(terms, var, least_effect(vt, s), s.len()), 0);
        lemma_span(vt, sums::incident_sum(terms, var, greatest_effect(vt, s), s.len()), 0);
    }
}

pub proof fn lemma_decided(vars: Seq<usize>, d: spec_fn(usize) -> Option<i64>)
    ensures
        forall|i: int|
            0 <= i < dominance::decided(vars, d).len() ==> vars.contains((#[trigger] dominance::decided(vars, d)[i]).0)
                && d(dominance::decided(vars, d)[i].0) == Some(dominance::decided(vars, d)[i].1),
    decreases vars.len(),
{
    if vars.len() > 0 {
        let p = vars.drop_last();
        lemma_decided(p, d);
        assert forall|i: int| 0 <= i < dominance::decided(vars, d).len() implies vars.contains(
            (#[trigger] dominance::decided(vars, d)[i]).0,
        ) && d(dominance::decided(vars, d)[i].0) == Some(dominance::decided(vars, d)[i].1) by {
            let e = dominance::decided(vars, d)[i];
            if i < dominance::decided(p, d).len() {
                assert(e == dominance::decided(p, d)[i]);
                assert(p.contains(e.0));
                let q = choose|q: int| 0 <= q < p.len() && p[q] == e.0;
                assert(vars[q] == e.0);
            } else {
                assert(vars[vars.len() - 1] == e.0);
            }
        }
    }
}

/// Fixing all dominant values at once never raises the objective: for every
/// completion of the node there is one with the dominant values that is at
/// least as good.
pub proof fn dominance_keeps_optimum<V: VarDomain>(
    instance: &HuboInstance<V>,
    node: &Node,
    list: Seq<(usize, i64)>,
    x: Seq<bool>,
)
    requires
        instance.wf(),
        instance.n() <= usize::MAX,
        node.describes(instance),
        list == dominance::decided(
            fixes::free_vars(node.fixed@),
            dominance::dominance_decision(V::tag(), instance.terms@, node.term_status@),
        ),
        node::extends(x, node.fixed@),
    ensures
        instance.objective(with_values(x, list)) <= instance.objective(x),
        node::extends(with_values(x, list), fixed_by(node.fixed@, list)),
        node::extends(with_values(x, list), node.fixed@),
{
    let f = node.fixed@;
    let d = dominance::dominance_decision(V::tag(), instance.terms@, node.term_status@);
    fixes::lemma_free_vars(f);
    lemma_decided(fixes::free_vars(f), d);
    assert forall|i: int| 0 <= i < list.len() implies (#[trigger] list[i]).0 < f.len()
        && f[list[i].0 as int] is None && safe_value(
        instance,
        f,
        list[i].0,
        list[i].1 == 1,
    ) by {
        assert(fixes::free_vars(f).contains(list[i].0));
        dominant_value_is_safe(instance, node, list[i].0, list[i].1);
    }
    safe_values_compose(instance, f, list, x);
}

/// The least value of a term under fixes.
pub open spec fn term_floor(vt: VarType, t: Term, f: Seq<Option<bool>>) -> int {
    let c = node::fold_coeff(vt, t.indices@, t.coeff as int, f);
    if node::free_list(t.indices@, f).len() == 0 {
        c
    } else {
        match vt {
            VarType::Bin => if c >= 0 {
                0
            } else {
                c
            },
            VarType::Spin => -term::abs(c),
        }
    }
}

/// The sum of the least values of the first `k` terms.
pub open spec fn floors(vt: VarType, terms: Seq<Term>, f: Seq<Option<bool>>, k: nat) -> int
    decreases k,
{
    if k == 0 {
        0
    } else {
        floors(vt, terms, f, (k - 1) as nat) + term_floor(vt, terms[k - 1], f)
    }
}

/// The termwise bound depends on the fixes alone.
pub proof fn lemma_floors(
    vt: VarType,
    terms: Seq<Term>,
    f: Seq<Option<bool>>,
    s: Seq<Option<PartiallyAssignedTerm>>,
    k: nat,
)
    requires
        k <= s.len(),
        s.len() == terms.len(),
        forall|i: int| 0 <= i < s.len() ==> node::status_ok(vt, #[trigger] terms[i], f, s[i]),
    ensures
        node::resolved_sum(vt, terms, f, s.take(k as int)) + cheap::floor_sum(vt, s.take(k as int)) == floors(
            vt,
            terms,
            f,
            k,
        ),
    decreases k,
{
    if k > 0 {
        let k1 = (k - 1) as nat;
        lemma_floors(vt, terms, f, s, k1);
        assert(s.take(k as int).drop_last() =~= s.take(k1 as int));
        assert(node::status_ok(vt, terms[k1 as int], f, s[k1 as int]));
    }
}

proof fn lemma_floors_change(
    vt: VarType,
    terms: Seq<Term>,
    f: Seq<Option<bool>>,
    s: Seq<Option<PartiallyAssignedTerm>>,
    v: usize,
    high: bool,
    k: nat,
)
    requires
        k <= s.len(),
        s.len() == terms.len(),
        term::terms_distinct(terms),
        v < f.len(),
        f[v as int] is None,
        forall|i: int| 0 <= i < s.len() ==> node::status_ok(vt, #[trigger] terms[i], f, s[i]),
    ensures
        floors(vt, terms, f.update(v as int, Some(high)), k) == floors(vt, terms, f, k)
            + sums::incident_sum(terms, v, dominance::change_weight(vt, s, high), k),
    decreases k,
{
    if k > 0 {
        let k1 = (k - 1) as nat;
        lemma_floors_change(vt, terms, f, s, v, high, k1);
        let t = terms[k1 as int];
        let idx = t.indices@;
        assert(node::status_ok(vt, t, f, s[k1 as int]));
        assert(idx.no_duplicates());
        let c = node::fold_coeff(vt, idx, t.coeff as int, f);
        if idx.contains(v) {
            node::lemma_fold_present(vt, idx, t.coeff as int, f, v, high);
            node::lemma_free_list_subset(idx, f);
            assert(node::free_list(idx, f).contains(v));
            delta::lemma_without(node::free_list(idx, f), Seq::new(f.len(), |i: int| true), v);
            assert(node::free_list(idx, f).len() > 0);
            assert(c * 0 == 0);
            assert(c * -1 == -c);
        } else {
            node::lemma_fold_absent(vt, idx, t.coeff as int, f, v, high);
        }
    }
}

/// The termwise bound of a child is that of its parent plus the growth.
pub proof fn child_bound_grows_by_delta<V: VarDomain>(
    instance: &HuboInstance<V>,
    node: &Node,
    child: &Node,
    var: usize,
    high: bool,
)
    requires
        instance.wf(),
        node.describes(instance),
        child.describes(instance),
        var < instance.n(),
        node.fixed@[var as int] is None,
        child.fixed@ == node.fixed@.update(var as int, Some(high)),
    ensures
        cheap::base_bound(instance, child) == cheap::base_bound(instance, node) + dominance::bound_delta(
            V::tag(),
            instance.terms@,
            node.term_status@,
            var,
            high,
        ),
{
    let vt = V::tag();
    let terms = instance.terms@;
    let k = terms.len();
    lemma_floors(vt, terms, node.fixed@, node.term_status@, k);
    lemma_floors(vt, terms, child.fixed@, child.term_status@, k);
    assert(node.term_status@.take(k as int) =~= node.term_status@);
    assert(child.term_status@.take(k as int) =~= child.term_status@);
    lemma_floors_change(vt, terms, node.fixed@, node.term_status@, var, high, k);
}

/// A completion that beats the incumbent takes no pruned value.
pub proof fn pruned_values_do_not_improve<V: VarDomain>(
    instance: &HuboInstance<V>,
    node: &Node,
    incumbent: i64,
    var: usize,
    x: Seq<bool>,
)
    requires
        instance.wf(),
        node.describes(instance),
        var < instance.n(),
        node.fixed@[var as int] is None,
        node::extends(x, node.fixed@),
        dominance::pruned(instance, node, incumbent, var, x[var as int]),
    ensures
        instance.objective(x) >= incumbent,
{
    let vt = V::tag();
    let terms = instance.terms@;
    let k = terms.len();
    let f = node.fixed@;
    let s = node.term_status@;
    let g = f.update(var as int, Some(x[var as int]));
    lemma_floors(vt, terms, f, s, k);
    assert(s.take(k as int) =~= s);
    lemma_floors_change(vt, terms, f, s, var, x[var as int], k);
    assert(node::extends(x, g));
    lemma_floors_valid(vt, terms, g, x, k);
    assert(terms.take(k as int) =~= terms);
}

proof fn lemma_floors_valid(
    vt: VarType,
    terms: Seq<Term>,
    f: Seq<Option<bool>>,
    x: Seq<bool>,
    k: nat,
)
    requires
        k <= terms.len(),
        term::terms_below(terms, f.len() as int),
        node::extends(x, f),
    ensures
        floors(vt, terms, f, k) <= term::poly(vt, terms.take(k as int), x),
    decreases k,
{
    if k > 0 {
        let k1 = (k - 1) as nat;
        lemma_floors_valid(vt, terms, f, x, k1);
        assert(terms.take(k as int).drop_last() =~= terms.take(k1 as int));
        let t = terms[k1 as int];
        assert(term::indices_below(t.indices@, f.len() as int));
        node::lemma_fold_value(vt, t.indices@, t.coeff as int, f, x);
        let c = node::fold_coeff(vt, t.indices@, t.coeff as int, f);
        let m = term::monomial(vt, node::free_list(t.indices@, f), x);
        term::lemma_monomial_range(vt, node::free_list(t.indices@, f), x);
        assert(c * m == if m == 0 { 0 } else if m == 1 { c } else { -c }) by (nonlinear_arith)
            requires
                m == 0 || m == 1 || m == -1,
        ;
    } else {
        assert(terms.take(0) =~= Seq::empty());
    }
}

} // verus!
