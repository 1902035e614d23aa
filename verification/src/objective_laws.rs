//! What fields and slacks say about objectives.

use crate::bounds::cheap;
use crate::bounds::lagrangian;
use crate::bounds::lp;
use crate::coeff;
use crate::delta;
use crate::domain::{VarDomain, VarType};
use crate::domain;
use crate::instance::HuboInstance;
use crate::instance;
use crate::node::{Node, PartiallyAssignedTerm};
use crate::solution;
use crate::term::Term;
use crate::term;
use vstd::prelude::*;

verus! {

proof fn lemma_flip_field(vt: VarType, terms: Seq<Term>, x: Seq<bool>, v: usize)
    requires
        term::terms_below(terms, x.len() as int),
        term::terms_distinct(terms),
        v < x.len(),
        x.len() <= usize::MAX,
    ensures
        term::poly(vt, terms, solution::flipped(x, v as int)) - term::poly(vt, terms, x) == (
        term::bit_value(vt, !x[v as int]) - term::bit_value(vt, x[v as int])) * instance::field_sum(
            vt,
            terms,
            x,
            v,
        ),
    decreases terms.len(),
{
    let y = solution::flipped(x, v as int);
    let step = term::bit_value(vt, !x[v as int]) - term::bit_value(vt, x[v as int]);
    if terms.len() > 0 {
        let d = terms.drop_last();
        let t = terms.last();
        let idx = t.indices@;
        assert(terms[terms.len() - 1] == t);
        assert(term::indices_below(idx, x.len() as int));
        assert(idx.no_duplicates());
        assert forall|i: int| 0 <= i < d.len() implies term::indices_below(
            #[trigger] d[i].indices@,
            x.len() as int,
        ) by {
            assert(d[i] == terms[i]);
        }
        assert forall|i: int| 0 <= i < d.len() implies (#[trigger] d[i].indices@).no_duplicates() by {
            assert(d[i] == terms[i]);
        }
        lemma_flip_field(vt, d, x, v);
        let c = t.coeff as int;
        let before = instance::field_sum(vt, d, x, v);
        if idx.contains(v) {
            let rest = domain::without(idx, v);
            lemma_without_members(idx, v);
            assert forall|i: int| 0 <= i < rest.len() implies x[#[trigger] rest[i] as int]
                == y[rest[i] as int] by {
                assert(rest.contains(rest[i]));
                let j = idx.index_of(rest[i]);
                assert(idx[j] < x.len());
            }
            delta::lemma_monomial_agree(vt, rest, x, y);
            let m = term::monomial(vt, rest, x);
            let a = term::bit_value(vt, x[v as int]);
            let b = term::bit_value(vt, y[v as int]);
            lemma_split_off(vt, idx, x, v);
            lemma_split_off(vt, idx, y, v);
            assert(c * (m * b) - c * (m * a) == (b - a) * (c * m)) by (nonlinear_arith);
            assert((b - a) * (before + c * m) == (b - a) * before + (b - a) * (c * m))
                by (nonlinear_arith);
        } else {
            delta::lemma_flip_absent(vt, idx, x, v);
        }
    } else {
        assert(step * 0 == 0) by (nonlinear_arith);
    }
}

proof fn lemma_without_members(idx: Seq<usize>, v: usize)
    ensures
        forall|u: usize| #[trigger] domain::without(idx, v).contains(u) ==> idx.contains(u) && u
            != v,
    decreases idx.len(),
{
    let r = domain::without(idx, v);
    if idx.len() > 0 {
        let p = idx.drop_last();
        let q = domain::without(p, v);
        lemma_without_members(p, v);
        assert forall|u: usize| #[trigger] r.contains(u) implies idx.contains(u) && u != v by {
            let i = r.index_of(u);
            if i < q.len() && q[i] == u {
                assert(q.contains(u));
                let j = p.index_of(u);
                assert(idx[j] == u);
            } else {
                assert(idx[idx.len() - 1] == u);
            }
        }
    }
}

/// A monomial is the value of one of its variables times the others.
proof fn lemma_split_off(vt: VarType, idx: Seq<usize>, x: Seq<bool>, v: usize)
    requires
        idx.no_duplicates(),
        idx.contains(v),
    ensures
        term::monomial(vt, idx, x) == term::monomial(vt, domain::without(idx, v), x)
            * term::bit_value(vt, x[v as int]),
    decreases idx.len(),
{
    let p = idx.drop_last();
    let u = idx.last();
    let b = term::bit_value(vt, x[u as int]);
    if u == v {
        delta::lemma_without_absent(p, v);
    } else {
        let j = idx.index_of(v);
        assert(p[j] == v);
        lemma_split_off(vt, p, x, v);
        let m = term::monomial(vt, domain::without(p, v), x);
        let a = term::bit_value(vt, x[v as int]);
        let r = domain::without(idx, v);
        assert(r == domain::without(p, v).push(u));
        assert(r.drop_last() =~= domain::without(p, v));
        assert((m * a) * b == (m * b) * a) by (nonlinear_arith);
    }
}

/// The field on a variable is what the objective changes by when the variable is
/// flipped, per step of the variable: one over bits, two over spins.
pub proof fn fields_give_flip_changes<V: VarDomain>(
    instance: &HuboInstance<V>,
    x: Seq<bool>,
    v: usize,
)
    requires
        instance.wf(),
        instance.n() <= usize::MAX,
        x.len() == instance.n(),
        v < x.len(),
    ensures
        instance.objective(solution::flipped(x, v as int)) - instance.objective(x) == (
        term::bit_value(V::tag(), !x[v as int]) - term::bit_value(V::tag(), x[v as int]))
            * instance::field_sum(V::tag(), instance.terms@, x, v),
{
    lemma_flip_field(V::tag(), instance.terms@, x, v);
}

/// The slack of a total is at least one and no more than one and a billionth of its
/// size.
pub proof fn slack_is_small(total: int)
    ensures
        coeff::with_slack(total) < total,
        1_000_000_000 * (total - coeff::with_slack(total) - 1) <= term::abs(total),
{
}

/// A value in units stays above its bound in whole numbers, by less than one whole number
/// and a billionth of it and of the value.
pub proof fn rounding_units_loses_little(value: int, unit: int)
    requires
        unit >= 1,
    ensures
        unit * lagrangian::unit_bound(value, unit) < value,
        1_000_000_000 * (value - unit * lagrangian::unit_bound(value, unit)) < 1_000_000_000 * unit
            + unit + term::abs(value),
{
    let top = 1_000_000_000 * value - unit - term::abs(value);
    let by = 1_000_000_000 * unit;
    let b = lagrangian::unit_bound(value, unit);
    vstd::arithmetic::div_mod::lemma_fundamental_div_mod(top, by);
    vstd::arithmetic::div_mod::lemma_mod_bound(top, by);
    assert(by * b == 1_000_000_000 * (unit * b)) by (nonlinear_arith)
        requires
            by == 1_000_000_000 * unit,
    ;
}

proof fn lemma_left_floors(vt: VarType, s: Seq<Option<PartiallyAssignedTerm>>, k: nat)
    requires
        k <= s.len(),
        forall|t: int|
            0 <= t < s.len() ==> ((#[trigger] s[t]) matches Some(p) ==> p.free_variables@.len() > 0),
    ensures
        lp::left_floors(vt, s, k) == cheap::floor_sum(vt, s.take(k as int)),
    decreases k,
{
    if k > 0 {
        lemma_left_floors(vt, s, (k - 1) as nat);
        assert(s.take(k as int).drop_last() =~= s.take(k - 1));
        assert(s.take(k as int).last() == s[k - 1]);
        if let Some(p) = s[k - 1] {
            assert(p.free_variables@.len() > 0);
        }
    } else {
        assert(s.take(0) =~= Seq::empty());
    }
}

/// Where every term that is left has a free variable, the bound of a linear program
/// that is not solved is the termwise bound.
pub proof fn unsolved_programs_have_the_termwise_bound<V: VarDomain>(
    instance: &HuboInstance<V>,
    node: &Node,
)
    requires
        forall|t: int|
            0 <= t < node.term_status@.len() ==> ((#[trigger] node.term_status@[t]) matches Some(p)
                ==> p.free_variables@.len() > 0),
    ensures
        lp::trivial_bound(instance, node) == cheap::base_bound(instance, node),
{
    let s = node.term_status@;
    lemma_left_floors(V::tag(), s, s.len());
    assert(s.take(s.len() as int) =~= s);
}

} // verus!
