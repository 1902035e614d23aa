//! Fixing by dominance and by the gap to the incumbent.

use crate::bounds::cheap;
use crate::delta;
use crate::domain::{VarDomain, VarType};
use crate::domain;
use crate::fixes::Fixes;
use crate::fixes;
use crate::instance::HuboInstance;
use crate::instance;
use crate::node::{Node, PartiallyAssignedTerm};
use crate::node;
use crate::sums;
use crate::term::Term;
use crate::term;
use vstd::prelude::*;

verus! {

/// How much the termwise bound of one term grows when one of its free
/// variables is fixed.
pub open spec fn bound_change(
    vt: VarType,
    s: Option<PartiallyAssignedTerm>,
    high: bool,
) -> int {
    match s {
        None => 0,
        Some(p) => match vt {
            VarType::Bin => if high {
                if p.free_variables@.len() == 1 && p.coeff > 0 {
                    p.coeff as int
                } else {
                    0
                }
            } else {
                if p.coeff < 0 {
                    -(p.coeff as int)
                } else {
                    0
                }
            },
            VarType::Spin => if p.free_variables@.len() == 1 && (p.coeff > 0) == high {
                2 * term::abs(p.coeff as int)
            } else {
                0
            },
        },
    }
}

/// The growth per term.
pub open spec fn change_weight(
    vt: VarType,
    s: Seq<Option<PartiallyAssignedTerm>>,
    high: bool,
) -> spec_fn(int) -> int {
    |t: int| bound_change(vt, s[t], high)
}

/// How much the termwise bound grows when `var` is fixed.
pub open spec fn bound_delta(
    vt: VarType,
    terms: Seq<Term>,
    s: Seq<Option<PartiallyAssignedTerm>>,
    var: usize,
    high: bool,
) -> int {
    sums::incident_sum(terms, var, change_weight(vt, s, high), terms.len())
}

/// The entries of `vars` for which `d` gives a value, with that value.
pub open spec fn decided(vars: Seq<usize>, d: spec_fn(usize) -> Option<i64>) -> Seq<(usize, i64)>
    decreases vars.len(),
{
    if vars.len() == 0 {
        Seq::empty()
    } else {
        match d(vars.last()) {
            Some(value) => decided(vars.drop_last(), d).push((vars.last(), value)),
            None => decided(vars.drop_last(), d),
        }
    }
}

proof fn lemma_incident_bounds<V: VarDomain>(instance: &HuboInstance<V>, node: &Node, var: usize)
    requires
        instance.wf(),
        instance.fits(),
        node.describes(instance),
        instance.terms@.len() <= usize::MAX,
    ensures
        2 * sums::incident_sum(
            instance.terms@,
            var,
            sums::abs_weight(node.term_status@),
            instance.terms@.len(),
        ) + term::abs(instance.offset as int) <= i64::MAX,
        sums::list_sum(instance::incidence(instance.terms@, var, instance.terms@.len()), sums::abs_weight(node.term_status@))
            == sums::incident_sum(
            instance.terms@,
            var,
            sums::abs_weight(node.term_status@),
            instance.terms@.len(),
        ),
        sums::list_sum(
            instance::incidence(instance.terms@, var, instance.terms@.len()),
            sums::double_abs_weight(node.term_status@),
        ) == 2 * sums::incident_sum(
            instance.terms@,
            var,
            sums::abs_weight(node.term_status@),
            instance.terms@.len(),
        ),
{
    let s = node.term_status@;
    let terms = instance.terms@;
    cheap::lemma_bound_size(instance, node);
    sums::lemma_incident_abs(terms, var, s, terms.len());
    assert(s.take(terms.len() as int) =~= s);
    sums::lemma_list_sum(terms, var, sums::abs_weight(s), terms.len());
    sums::lemma_list_sum(terms, var, sums::double_abs_weight(s), terms.len());
}

/// How much the termwise bound grows when `var` is fixed high, and when it is
/// fixed low.
pub fn lb_deltas<V: VarDomain>(instance: &HuboInstance<V>, node: &Node, var: usize) -> (r: (
    i64,
    i64,
))
    requires
        instance.wf(),
        instance.fits(),
        node.describes(instance),
        var < instance.n(),
    ensures
        r.0 == bound_delta(V::tag(), instance.terms@, node.term_status@, var, true),
        r.1 == bound_delta(V::tag(), instance.terms@, node.term_status@, var, false),
        0 <= r.0,
        0 <= r.1,
{
    let vt = V::var_type();
    let n_terms: usize = instance.terms.len();
    let ghost s = node.term_status@;
    let ghost terms = instance.terms@;
    let ghost list = instance.var_terms@[var as int]@;
    let ghost wh = change_weight(vt, s, true);
    let ghost wl = change_weight(vt, s, false);
    let ghost a2 = sums::double_abs_weight(s);
    let mut high: i64 = 0;
    let mut low: i64 = 0;
    let mut j: usize = 0;
    proof {
        lemma_incident_bounds(instance, node, var);
        delta::lemma_incidence(terms, var, terms.len());
        sums::lemma_list_sum(terms, var, wh, terms.len());
        sums::lemma_list_sum(terms, var, wl, terms.len());
        assert(list.take(0) =~= Seq::empty());
    }
    while j < instance.var_terms[var].len()
        invariant
            j <= list.len(),
            var < instance.var_terms@.len(),
            list == instance.var_terms@[var as int]@,
            vt == V::tag(),
            s == node.term_status@,
            terms == instance.terms@,
            s.len() == terms.len(),
            wh == change_weight(vt, s, true),
            wl == change_weight(vt, s, false),
            a2 == sums::double_abs_weight(s),
            forall|q: int| 0 <= q < list.len() ==> (#[trigger] list[q]) < terms.len(),
            sums::list_sum(list, a2) <= i64::MAX,
            high == sums::list_sum(list.take(j as int), wh),
            low == sums::list_sum(list.take(j as int), wl),
            0 <= high,
            0 <= low,
        decreases list.len() - j,
    {
        let ti: usize = instance.var_terms[var][j];
        proof {
            assert(ti == list[j as int]);
            assert(list.take(j + 1).drop_last() =~= list.take(j as int));
            sums::lemma_list_sum_bound(list, wh, a2, j + 1);
            sums::lemma_list_sum_bound(list, wl, a2, j + 1);
        }
        if let Some(status) = &node.term_status[ti] {
            let c: i64 = status.coeff;
            proof {
                assert(sums::abs_weight(s)(ti as int) == term::abs(c as int));
                assert(wh(ti as int) == bound_change(vt, s[ti as int], true));
                assert(wl(ti as int) == bound_change(vt, s[ti as int], false));
                assert(0 <= wh(ti as int));
                assert(0 <= wl(ti as int));
            }
            match vt {
                VarType::Bin => {
                    if status.free_variables.len() == 1 {
                        if c > 0 {
                            high += c;
                        }
                        if c < 0 {
                            low -= c;
                        }
                    } else if c < 0 {
                        low -= c;
                    }
                },
                VarType::Spin => {
                    if status.free_variables.len() == 1 {
                        if c > 0 {
                            assert(high + 2 * c <= i64::MAX);
                            high += 2 * c;
                        }
                        if c < 0 {
                            assert(low - 2 * c <= i64::MAX);
                            low -= 2 * c;
                        }
                    }
                },
            }
        }
        j += 1;
    }
    assert(list.take(j as int) =~= list);
    (high, low)
}

/// Fixing `var` raises the termwise bound to the incumbent or above.
pub open spec fn pruned<V: VarDomain>(
    instance: &HuboInstance<V>,
    node: &Node,
    incumbent: i64,
    var: usize,
    high: bool,
) -> bool {
    cheap::base_bound(instance, node) + bound_delta(
        V::tag(),
        instance.terms@,
        node.term_status@,
        var,
        high,
    ) >= incumbent
}

/// The value that is left for a variable when the other one is pruned.
pub open spec fn gap_decision<V: VarDomain>(
    instance: &HuboInstance<V>,
    node: &Node,
    incumbent: i64,
) -> spec_fn(usize) -> Option<i64> {
    |var: usize|
        if pruned(instance, node, incumbent, var, true) {
            Some(term::bit_value(V::tag(), false) as i64)
        } else if pruned(instance, node, incumbent, var, false) {
            Some(1i64)
        } else {
            None
        }
}

/// Both values of some free variable are pruned.
pub open spec fn gap_closed<V: VarDomain>(
    instance: &HuboInstance<V>,
    node: &Node,
    incumbent: i64,
) -> bool {
    exists|var: usize| #[trigger]
        fixes::free_vars(node.fixed@).contains(var) && pruned(instance, node, incumbent, var, true)
            && pruned(instance, node, incumbent, var, false)
}

/// Fix every free variable for which one value cannot beat the incumbent;
/// `None` when some variable has no value left.
pub fn lb_fixing<V: VarDomain>(
    instance: &HuboInstance<V>,
    node: &Node,
    incumbent: i64,
) -> (r: Option<Vec<(usize, i64)>>)
    requires
        instance.wf(),
        instance.fits(),
        node.describes(instance),
    ensures
        r is None <==> gap_closed(instance, node, incumbent),
        r matches Some(list) ==> list@ == decided(
            fixes::free_vars(node.fixed@),
            gap_decision(instance, node, incumbent),
        ),
{
    let base: i64 = cheap::lower_bound_base(instance, node);
    let vars = node.fixed.iter_unassigned();
    let ghost d = gap_decision(instance, node, incumbent);
    let mut list: Vec<(usize, i64)> = Vec::new();
    let mut k: usize = 0;
    let n: usize = instance.n_vars();
    proof {
        fixes::lemma_free_vars(node.fixed@);
        assert(vars@.take(0) =~= Seq::empty());
    }
    while k < vars.len()
        invariant
            k <= vars@.len(),
            vars@ == fixes::free_vars(node.fixed@),
            d == gap_decision(instance, node, incumbent),
            base == cheap::base_bound(instance, node),
            instance.wf(),
            instance.fits(),
            node.describes(instance),
            n == instance.n(),
            forall|i: int| 0 <= i < vars@.len() ==> (#[trigger] vars@[i]) < n,
            list@ == decided(vars@.take(k as int), d),
            forall|i: int|
                0 <= i < k ==> !(pruned(instance, node, incumbent, #[trigger] vars@[i], true)
                    && pruned(instance, node, incumbent, vars@[i], false)),
        decreases vars@.len() - k,
    {
        let var: usize = vars[k];
        let (dh, dl) = lb_deltas(instance, node, var);
        let high_pruned: bool = base as i128 + dh as i128 >= incumbent as i128;
        let low_pruned: bool = base as i128 + dl as i128 >= incumbent as i128;
        proof {
            assert(high_pruned == pruned(instance, node, incumbent, var, true));
            assert(low_pruned == pruned(instance, node, incumbent, var, false));
            assert(vars@.take(k + 1).drop_last() =~= vars@.take(k as int));
        }
        if high_pruned && low_pruned {
            assert(fixes::free_vars(node.fixed@).contains(var));
            return None;
        }
        if high_pruned {
            list.push((var, V::default_low()));
        } else if low_pruned {
            list.push((var, 1));
        }
        k += 1;
    }
    proof {
        assert(vars@.take(k as int) =~= vars@);
        assert(!gap_closed(instance, node, incumbent)) by {
            if gap_closed(instance, node, incumbent) {
                let var = choose|var: usize| #[trigger]
                    fixes::free_vars(node.fixed@).contains(var) && pruned(
                        instance,
                        node,
                        incumbent,
                        var,
                        true,
                    ) && pruned(instance, node, incumbent, var, false);
                let i = choose|i: int| 0 <= i < vars@.len() && vars@[i] == var;
                assert(vars@[i] == var);
            }
        }
    }
    Some(list)
}


/// The coefficients of the terms with one free variable.
pub open spec fn linear_weight(s: Seq<Option<PartiallyAssignedTerm>>) -> spec_fn(int) -> int {
    |t: int|
        match s[t] {
            Some(p) => if p.free_variables@.len() == 1 {
                p.coeff as int
            } else {
                0
            },
            None => 0,
        }
}

/// The coefficients of one sign of the terms with several free variables.
pub open spec fn signed_weight(
    s: Seq<Option<PartiallyAssignedTerm>>,
    positive: bool,
) -> spec_fn(int) -> int {
    |t: int|
        match s[t] {
            Some(p) => if p.free_variables@.len() != 1 && (p.coeff >= 0) == positive {
                p.coeff as int
            } else {
                0
            },
            None => 0,
        }
}

/// The absolute coefficients of the terms with several free variables.
pub open spec fn higher_weight(s: Seq<Option<PartiallyAssignedTerm>>) -> spec_fn(int) -> int {
    |t: int|
        match s[t] {
            Some(p) => if p.free_variables@.len() != 1 {
                term::abs(p.coeff as int)
            } else {
                0
            },
            None => 0,
        }
}

/// Term `t` lists `var` and is left with a coefficient.
pub open spec fn occurs_in(
    terms: Seq<Term>,
    s: Seq<Option<PartiallyAssignedTerm>>,
    var: usize,
    t: int,
) -> bool {
    0 <= t < terms.len() && terms[t].indices@.contains(var) && (s[t] matches Some(p) && p.coeff
        != 0)
}

/// Some term that is left lists `var`.
pub open spec fn occurs(
    terms: Seq<Term>,
    s: Seq<Option<PartiallyAssignedTerm>>,
    var: usize,
) -> bool {
    exists|t: int| #[trigger] occurs_in(terms, s, var, t)
}

/// The value of `var` that is at least as good as the other one, whatever the
/// other variables are.
pub open spec fn dominant_value(
    vt: VarType,
    terms: Seq<Term>,
    s: Seq<Option<PartiallyAssignedTerm>>,
    var: usize,
) -> Option<i64> {
    let k = terms.len();
    let linear = sums::incident_sum(terms, var, linear_weight(s), k);
    if !occurs(terms, s, var) {
        None
    } else {
        match vt {
            VarType::Bin => if linear + sums::incident_sum(terms, var, signed_weight(s, false), k) >= 0 {
                Some(0i64)
            } else if linear + sums::incident_sum(terms, var, signed_weight(s, true), k) <= 0 {
                Some(1i64)
            } else {
                None
            },
            VarType::Spin => if linear != 0 && term::abs(linear) >= sums::incident_sum(
                terms,
                var,
                higher_weight(s),
                k,
            ) {
                Some(
                    if linear > 0 {
                        -1i64
                    } else {
                        1i64
                    },
                )
            } else {
                None
            },
        }
    }
}

/// The decision for each variable.
pub open spec fn dominance_decision(
    vt: VarType,
    terms: Seq<Term>,
    s: Seq<Option<PartiallyAssignedTerm>>,
) -> spec_fn(usize) -> Option<i64> {
    |var: usize| dominant_value(vt, terms, s, var)
}

/// Fix every free variable that has a dominant value.
pub fn dominance_fixes<V: VarDomain>(instance: &HuboInstance<V>, node: &Node) -> (r: Vec<
    (usize, i64),
>)
    requires
        instance.wf(),
        instance.fits(),
        node.describes(instance),
    ensures
        r@ == decided(
            fixes::free_vars(node.fixed@),
            dominance_decision(V::tag(), instance.terms@, node.term_status@),
        ),
{
    proof {
        cheap::lemma_bound_size(instance, node);
    }
    match V::var_type() {
        VarType::Bin => binary_dominance_fixes(instance, node.term_status.as_slice(), &node.fixed),
        VarType::Spin => spin_dominance_fixes(instance, node.term_status.as_slice(), &node.fixed),
    }
}

/// The sums that decide over bits: the terms with one free variable, those
/// with more and a negative coefficient, those with more and a positive one,
/// and whether any term is left.
fn binary_sums<V: VarDomain>(
    instance: &HuboInstance<V>,
    term_status: &[Option<PartiallyAssignedTerm>],
    var: usize,
) -> (r: (i64, i64, i64, bool))
    requires
        instance.wf(),
        var < instance.n(),
        term_status@.len() == instance.terms@.len(),
        2 * node::status_abs(term_status@) <= i64::MAX,
    ensures
        r.0 == sums::incident_sum(
            instance.terms@,
            var,
            linear_weight(term_status@),
            instance.terms@.len(),
        ),
        r.1 == sums::incident_sum(
            instance.terms@,
            var,
            signed_weight(term_status@, false),
            instance.terms@.len(),
        ),
        r.2 == sums::incident_sum(
            instance.terms@,
            var,
            signed_weight(term_status@, true),
            instance.terms@.len(),
        ),
        r.3 == occurs(instance.terms@, term_status@, var),
        i64::MIN <= r.0 + r.1 <= i64::MAX,
        i64::MIN <= r.0 + r.2 <= i64::MAX,
{
    let n_terms: usize = instance.terms.len();
    let ghost s = term_status@;
    let ghost terms = instance.terms@;
    let ghost list = instance.var_terms@[var as int]@;
    let ghost wc = linear_weight(s);
    let ghost wn = signed_weight(s, false);
    let ghost wp = signed_weight(s, true);
    let ghost a = sums::abs_weight(s);
    let mut sum_const: i64 = 0;
    let mut sum_neg: i64 = 0;
    let mut sum_pos: i64 = 0;
    let mut appears: bool = false;
    let mut j: usize = 0;
    proof {
        sums::lemma_incident_abs(terms, var, s, terms.len());
        assert(s.take(terms.len() as int) =~= s);
        sums::lemma_list_sum(terms, var, a, terms.len());
        sums::lemma_list_sum(terms, var, wc, terms.len());
        sums::lemma_list_sum(terms, var, wn, terms.len());
        sums::lemma_list_sum(terms, var, wp, terms.len());
        delta::lemma_incidence(terms, var, terms.len());
        assert(list.take(0) =~= Seq::empty());
    }
    while j < instance.var_terms[var].len()
        invariant
            j <= list.len(),
            var < instance.var_terms@.len(),
            list == instance.var_terms@[var as int]@,
            s == term_status@,
            terms == instance.terms@,
            s.len() == terms.len(),
            wc == linear_weight(s),
            wn == signed_weight(s, false),
            wp == signed_weight(s, true),
            a == sums::abs_weight(s),
            forall|q: int|
                0 <= q < list.len() ==> (#[trigger] list[q]) < terms.len()
                    && terms[list[q] as int].indices@.contains(var),
            2 * sums::list_sum(list, a) <= i64::MAX,
            sum_const == sums::list_sum(list.take(j as int), wc),
            sum_neg == sums::list_sum(list.take(j as int), wn),
            sum_pos == sums::list_sum(list.take(j as int), wp),
            appears ==> occurs(terms, s, var),
            !appears ==> forall|q: int|
                0 <= q < j ==> !occurs_in(terms, s, var, #[trigger] list[q] as int),
        decreases list.len() - j,
    {
        let ti: usize = instance.var_terms[var][j];
        proof {
            assert(ti == list[j as int]);
            assert(list.take(j + 1).drop_last() =~= list.take(j as int));
            sums::lemma_list_sum_bound(list, wc, a, j + 1);
            sums::lemma_list_sum_bound(list, wn, a, j + 1);
            sums::lemma_list_sum_bound(list, wp, a, j + 1);
        }
        if let Some(status) = &term_status[ti] {
            let coeff: i64 = status.coeff;
            if coeff != 0 {
                assert(occurs_in(terms, s, var, ti as int));
                appears = true;
                if status.free_variables.len() == 1 {
                    sum_const += coeff;
                } else if coeff >= 0 {
                    sum_pos += coeff;
                } else {
                    sum_neg += coeff;
                }
            }
        }
        j += 1;
    }
    proof {
        assert(list.take(j as int) =~= list);
        sums::lemma_list_sum_bound(list, wc, a, j as int);
        sums::lemma_list_sum_bound(list, wn, a, j as int);
        sums::lemma_list_sum_bound(list, wp, a, j as int);
        lemma_occurs_listed(terms, s, var, list);
    }
    (sum_const, sum_neg, sum_pos, appears)
}

/// A term that is left and lists `var` is in the incidence list.
proof fn lemma_occurs_listed(
    terms: Seq<Term>,
    s: Seq<Option<PartiallyAssignedTerm>>,
    var: usize,
    list: Seq<usize>,
)
    requires
        terms.len() <= usize::MAX,
        forall|t: int|
            0 <= t < terms.len() && (#[trigger] terms[t]).indices@.contains(var)
                ==> list.contains(t as usize),
    ensures
        occurs(terms, s, var) ==> exists|q: int|
            0 <= q < list.len() && occurs_in(terms, s, var, #[trigger] list[q] as int),
{
    if occurs(terms, s, var) {
        let t = choose|t: int| #[trigger] occurs_in(terms, s, var, t);
        assert(terms[t].indices@.contains(var));
        let q = choose|q: int| 0 <= q < list.len() && list[q] == t as usize;
        assert(occurs_in(terms, s, var, list[q] as int));
    }
}

/// Dominance over bits.
pub fn binary_dominance_fixes<V: VarDomain>(
    instance: &HuboInstance<V>,
    term_status: &[Option<PartiallyAssignedTerm>],
    current_fixes: &Fixes,
) -> (r: Vec<(usize, i64)>)
    requires
        instance.wf(),
        term_status@.len() == instance.terms@.len(),
        2 * node::status_abs(term_status@) <= i64::MAX,
        current_fixes.wf(),
        current_fixes@.len() == instance.n(),
    ensures
        r@ == decided(
            fixes::free_vars(current_fixes@),
            dominance_decision(VarType::Bin, instance.terms@, term_status@),
        ),
{
    let vars = current_fixes.iter_unassigned();
    let ghost d = dominance_decision(VarType::Bin, instance.terms@, term_status@);
    let mut list: Vec<(usize, i64)> = Vec::new();
    let mut k: usize = 0;
    let n: usize = instance.n_vars();
    proof {
        fixes::lemma_free_vars(current_fixes@);
        assert(vars@.take(0) =~= Seq::empty());
    }
    while k < vars.len()
        invariant
            k <= vars@.len(),
            d == dominance_decision(VarType::Bin, instance.terms@, term_status@),
            instance.wf(),
            term_status@.len() == instance.terms@.len(),
            2 * node::status_abs(term_status@) <= i64::MAX,
            n == instance.n(),
            forall|i: int| 0 <= i < vars@.len() ==> (#[trigger] vars@[i]) < n,
            list@ == decided(vars@.take(k as int), d),
        decreases vars@.len() - k,
    {
        let var: usize = vars[k];
        let (sum_const, sum_neg, sum_pos, appears) = binary_sums(instance, term_status, var);
        assert(vars@.take(k + 1).drop_last() =~= vars@.take(k as int));
        if appears {
            if sum_const + sum_neg >= 0 {
                list.push((var, 0));
            } else if sum_const + sum_pos <= 0 {
                list.push((var, 1));
            }
        }
        k += 1;
    }
    assert(vars@.take(k as int) =~= vars@);
    list
}

/// The sums that decide over spins: the terms with one free variable, the
/// absolute coefficients of the others, and whether any term is left.
fn spin_sums<V: VarDomain>(
    instance: &HuboInstance<V>,
    term_status: &[Option<PartiallyAssignedTerm>],
    var: usize,
) -> (r: (i64, i64, bool))
    requires
        instance.wf(),
        var < instance.n(),
        term_status@.len() == instance.terms@.len(),
        2 * node::status_abs(term_status@) <= i64::MAX,
    ensures
        r.0 == sums::incident_sum(
            instance.terms@,
            var,
            linear_weight(term_status@),
            instance.terms@.len(),
        ),
        r.1 == sums::incident_sum(
            instance.terms@,
            var,
            higher_weight(term_status@),
            instance.terms@.len(),
        ),
        r.2 == occurs(instance.terms@, term_status@, var),
        -i64::MAX <= r.0,
{
    let n_terms: usize = instance.terms.len();
    let ghost s = term_status@;
    let ghost terms = instance.terms@;
    let ghost list = instance.var_terms@[var as int]@;
    let ghost wc = linear_weight(s);
    let ghost wo = higher_weight(s);
    let ghost a = sums::abs_weight(s);
    let mut sum_const: i64 = 0;
    let mut sum_other: i64 = 0;
    let mut appears: bool = false;
    let mut j: usize = 0;
    proof {
        sums::lemma_incident_abs(terms, var, s, terms.len());
        assert(s.take(terms.len() as int) =~= s);
        sums::lemma_list_sum(terms, var, a, terms.len());
        sums::lemma_list_sum(terms, var, wc, terms.len());
        sums::lemma_list_sum(terms, var, wo, terms.len());
        delta::lemma_incidence(terms, var, terms.len());
        assert(list.take(0) =~= Seq::empty());
    }
    while j < instance.var_terms[var].len()
        invariant
            j <= list.len(),
            var < instance.var_terms@.len(),
            list == instance.var_terms@[var as int]@,
            s == term_status@,
            terms == instance.terms@,
            s.len() == terms.len(),
            wc == linear_weight(s),
            wo == higher_weight(s),
            a == sums::abs_weight(s),
            forall|q: int|
                0 <= q < list.len() ==> (#[trigger] list[q]) < terms.len()
                    && terms[list[q] as int].indices@.contains(var),
            2 * sums::list_sum(list, a) <= i64::MAX,
            sum_const == sums::list_sum(list.take(j as int), wc),
            sum_other == sums::list_sum(list.take(j as int), wo),
            0 <= sum_other,
            appears ==> occurs(terms, s, var),
            !appears ==> forall|q: int|
                0 <= q < j ==> !occurs_in(terms, s, var, #[trigger] list[q] as int),
        decreases list.len() - j,
    {
        let ti: usize = instance.var_terms[var][j];
        proof {
            assert(ti == list[j as int]);
            assert(list.take(j + 1).drop_last() =~= list.take(j as int));
            sums::lemma_list_sum_bound(list, wc, a, j + 1);
            sums::lemma_list_sum_bound(list, wo, a, j + 1);
        }
        if let Some(status) = &term_status[ti] {
            let coeff: i64 = status.coeff;
            if coeff != 0 {
                assert(occurs_in(terms, s, var, ti as int));
                appears = true;
                if status.free_variables.len() == 1 {
                    sum_const += coeff;
                } else if coeff < 0 {
                    sum_other -= coeff;
                } else {
                    sum_other += coeff;
                }
            }
        }
        j += 1;
    }
    proof {
        assert(list.take(j as int) =~= list);
        sums::lemma_list_sum_bound(list, wc, a, j as int);
        lemma_occurs_listed(terms, s, var, list);
    }
    (sum_const, sum_other, appears)
}

/// Dominance over spins.
pub fn spin_dominance_fixes<V: VarDomain>(
    instance: &HuboInstance<V>,
    term_status: &[Option<PartiallyAssignedTerm>],
    current_fixes: &Fixes,
) -> (r: Vec<(usize, i64)>)
    requires
        instance.wf(),
        term_status@.len() == instance.terms@.len(),
        2 * node::status_abs(term_status@) <= i64::MAX,
        current_fixes.wf(),
        current_fixes@.len() == instance.n(),
    ensures
        r@ == decided(
            fixes::free_vars(current_fixes@),
            dominance_decision(VarType::Spin, instance.terms@, term_status@),
        ),
{
    let vars = current_fixes.iter_unassigned();
    let ghost d = dominance_decision(VarType::Spin, instance.terms@, term_status@);
    let mut list: Vec<(usize, i64)> = Vec::new();
    let mut k: usize = 0;
    let n: usize = instance.n_vars();
    proof {
        fixes::lemma_free_vars(current_fixes@);
        assert(vars@.take(0) =~= Seq::empty());
    }
    while k < vars.len()
        invariant
            k <= vars@.len(),
            d == dominance_decision(VarType::Spin, instance.terms@, term_status@),
            instance.wf(),
            term_status@.len() == instance.terms@.len(),
            2 * node::status_abs(term_status@) <= i64::MAX,
            n == instance.n(),
            forall|i: int| 0 <= i < vars@.len() ==> (#[trigger] vars@[i]) < n,
            list@ == decided(vars@.take(k as int), d),
        decreases vars@.len() - k,
    {
        let var: usize = vars[k];
        let (sum_const, sum_other, appears) = spin_sums(instance, term_status, var);
        assert(vars@.take(k + 1).drop_last() =~= vars@.take(k as int));
        if appears {
            if sum_const > 0 && sum_const >= sum_other {
                list.push((var, -1));
            } else if sum_const < 0 && -sum_const >= sum_other {
                list.push((var, 1));
            }
        }
        k += 1;
    }
    assert(vars@.take(k as int) =~= vars@);
    list
}

} // verus!
