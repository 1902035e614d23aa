//! The kernelization rules behind one interface.

use crate::bounds::cheap;
use crate::domain::{VarDomain, VarType};
use crate::fixes::Fixes;
use crate::fixes;
use crate::instance::HuboInstance;
use crate::kernelization::config::{KernelizationConfig, KernelizationRuleId};
use crate::kernelization::coupling::ConditionalCoupling;
use crate::kernelization::coupling;
use crate::kernelization::coupling_laws;
use crate::kernelization::dominance;
use crate::kernelization::error::KernelizationError;
use crate::kernelization::f2;
use crate::kernelization::persistency;
use crate::kernelization::roof_dual;
use crate::kernelization::sflip;
use crate::node::Node;
use crate::term;
use vstd::prelude::*;

verus! {

/// The instance is sound and small enough for every rule.
pub open spec fn kernelizable<V: VarDomain>(instance: &HuboInstance<V>) -> bool {
    &&& instance.wf()
    &&& instance.fits()
    &&& 4 * instance.n() + 8 * instance.terms@.len() + 2 < usize::MAX
}

/// `list` is what the rule proposes at the node.
pub open spec fn proposes<V: VarDomain>(
    rule: KernelizationRuleId,
    instance: &HuboInstance<V>,
    node: &Node,
    list: Seq<(usize, i64)>,
) -> bool {
    match rule {
        KernelizationRuleId::ExternalFixes => list.len() == 0,
        KernelizationRuleId::Dominance => list == dominance::decided(
            fixes::free_vars(node.fixed@),
            dominance::dominance_decision(V::tag(), instance.terms@, node.term_status@),
        ),
        KernelizationRuleId::RoofDuality => roof_dual::is_roof_fixes(
            V::tag(),
            instance.terms@,
            instance.n() as nat,
            list,
        ),
        KernelizationRuleId::SpinCouplingReduction => match V::tag() {
            VarType::Bin => list.len() == 0,
            VarType::Spin => list == coupling::pair_values(
                coupling::greedy_pairs(
                    fixes::free_vars(node.fixed@),
                    coupling::uncoupled_sign(coupling::active_items(node.term_status@), node.term_status@.len()),
                    fixes::free_vars(node.fixed@).len(),
                ),
            ),
        },
        KernelizationRuleId::SflipSymmetry => match V::tag() {
            VarType::Bin => list.len() == 0,
            VarType::Spin => sflip::is_flip_breaking(instance.terms@, instance.n() as nat, list),
        },
    }
}

/// A rule that proposes fixes.
pub trait KernelizationMethod<V: VarDomain> {
    /// Which rule it is.
    spec fn rule(&self) -> KernelizationRuleId;

    /// Which rule it is.
    fn id(&self) -> (r: KernelizationRuleId)
        ensures
            r == self.rule(),
    ;

    /// The fixes it proposes.
    fn apply(&self, instance: &HuboInstance<V>, node: &Node) -> (r: Vec<(usize, i64)>)
        requires
            kernelizable(instance),
            node.describes(instance),
        ensures
            proposes(self.rule(), instance, node, r@),
    ;
}

/// Dominance.
#[derive(Debug, Clone, Copy)]
pub struct DominanceMethod;

impl<V: VarDomain> KernelizationMethod<V> for DominanceMethod {
    open spec fn rule(&self) -> KernelizationRuleId {
        KernelizationRuleId::Dominance
    }

    fn id(&self) -> (r: KernelizationRuleId) {
        KernelizationRuleId::Dominance
    }

    fn apply(&self, instance: &HuboInstance<V>, node: &Node) -> (r: Vec<(usize, i64)>) {
        dominance::dominance_fixes(instance, node)
    }
}

/// Roof duality.
#[derive(Debug, Clone, Copy)]
pub struct RoofDualityMethod;

impl<V: VarDomain> KernelizationMethod<V> for RoofDualityMethod {
    open spec fn rule(&self) -> KernelizationRuleId {
        KernelizationRuleId::RoofDuality
    }

    fn id(&self) -> (r: KernelizationRuleId) {
        KernelizationRuleId::RoofDuality
    }

    fn apply(&self, instance: &HuboInstance<V>, node: &Node) -> (r: Vec<(usize, i64)>) {
        roof_dual::roof_dual_fixes(instance, node)
    }
}

/// Spin coupling.
#[derive(Debug, Clone, Copy)]
pub struct SpinCouplingReductionMethod;

impl<V: VarDomain> KernelizationMethod<V> for SpinCouplingReductionMethod {
    open spec fn rule(&self) -> KernelizationRuleId {
        KernelizationRuleId::SpinCouplingReduction
    }

    fn id(&self) -> (r: KernelizationRuleId) {
        KernelizationRuleId::SpinCouplingReduction
    }

    fn apply(&self, instance: &HuboInstance<V>, node: &Node) -> (r: Vec<(usize, i64)>) {
        proof {
            cheap::lemma_bound_size(instance, node);
        }
        match V::var_type() {
            VarType::Bin => Vec::new(),
            VarType::Spin => {
                let pairs = coupling::detect_uncoupled_pairs_active(
                    instance,
                    node.term_status.as_slice(),
                    &node.fixed,
                );
                coupling::coupling_fixes(pairs.as_slice())
            },
        }
    }
}

/// Flip symmetry.
#[derive(Debug, Clone, Copy)]
pub struct SflipSymmetryMethod;

impl<V: VarDomain> KernelizationMethod<V> for SflipSymmetryMethod {
    open spec fn rule(&self) -> KernelizationRuleId {
        KernelizationRuleId::SflipSymmetry
    }

    fn id(&self) -> (r: KernelizationRuleId) {
        KernelizationRuleId::SflipSymmetry
    }

    fn apply(&self, instance: &HuboInstance<V>, node: &Node) -> (r: Vec<(usize, i64)>) {
        sflip::sflip_symmetry_fixes(instance, node)
    }
}

/// What a rule proposes.
pub fn apply_rule<V: VarDomain>(
    rule: KernelizationRuleId,
    instance: &HuboInstance<V>,
    node: &Node,
) -> (r: Vec<(usize, i64)>)
    requires
        kernelizable(instance),
        node.describes(instance),
    ensures
        proposes(rule, instance, node, r@),
{
    match rule {
        KernelizationRuleId::ExternalFixes => Vec::new(),
        KernelizationRuleId::Dominance => DominanceMethod.apply(instance, node),
        KernelizationRuleId::RoofDuality => RoofDualityMethod.apply(instance, node),
        KernelizationRuleId::SpinCouplingReduction => SpinCouplingReductionMethod.apply(
            instance,
            node,
        ),
        KernelizationRuleId::SflipSymmetry => SflipSymmetryMethod.apply(instance, node),
    }
}

/// The rules that run in a domain, in order.
pub open spec fn enabled_rules(vt: VarType, c: KernelizationConfig) -> Seq<KernelizationRuleId> {
    match vt {
        VarType::Bin => {
            let a = if c.enable_binary_dominance {
                seq![KernelizationRuleId::Dominance]
            } else {
                Seq::empty()
            };
            if c.enable_binary_roof_duality {
                a.push(KernelizationRuleId::RoofDuality)
            } else {
                a
            }
        },
        VarType::Spin => {
            let a = if c.enable_coupling_reduction {
                seq![KernelizationRuleId::SpinCouplingReduction]
            } else {
                Seq::empty()
            };
            let b = if c.enable_spin_dominance {
                a.push(KernelizationRuleId::Dominance)
            } else {
                a
            };
            let d = if c.enable_spin_roof_duality {
                b.push(KernelizationRuleId::RoofDuality)
            } else {
                b
            };
            if c.enable_sflip_symmetry {
                d.push(KernelizationRuleId::SflipSymmetry)
            } else {
                d
            }
        },
    }
}

/// The rules that run in a domain, in order.
pub fn list_rules(vt: VarType, c: &KernelizationConfig) -> (r: Vec<KernelizationRuleId>)
    ensures
        r@ == enabled_rules(vt, *c),
{
    let mut rules: Vec<KernelizationRuleId> = Vec::new();
    match vt {
        VarType::Bin => {
            if c.enable_binary_dominance {
                rules.push(KernelizationRuleId::Dominance);
            }
            if c.enable_binary_roof_duality {
                rules.push(KernelizationRuleId::RoofDuality);
            }
        },
        VarType::Spin => {
            if c.enable_coupling_reduction {
                rules.push(KernelizationRuleId::SpinCouplingReduction);
            }
            if c.enable_spin_dominance {
                rules.push(KernelizationRuleId::Dominance);
            }
            if c.enable_spin_roof_duality {
                rules.push(KernelizationRuleId::RoofDuality);
            }
            if c.enable_sflip_symmetry {
                rules.push(KernelizationRuleId::SflipSymmetry);
            }
        },
    }
    assert(rules@ =~= enabled_rules(vt, *c));
    rules
}

/// The entries whose variable is free.
pub open spec fn unfixed(list: Seq<(usize, i64)>, f: Seq<Option<bool>>) -> Seq<(usize, i64)>
    decreases list.len(),
{
    if list.len() == 0 {
        Seq::empty()
    } else if fixes::fixed_at(f, list.last().0 as int) is None {
        unfixed(list.drop_last(), f).push(list.last())
    } else {
        unfixed(list.drop_last(), f)
    }
}

/// The entries whose variable is free.
pub fn keep_unfixed(list: &Vec<(usize, i64)>, fixed: &Fixes) -> (r: Vec<(usize, i64)>)
    requires
        fixed.wf(),
    ensures
        r@ == unfixed(list@, fixed@),
{
    let mut r: Vec<(usize, i64)> = Vec::new();
    let mut k: usize = 0;
    assert(list@.take(0) =~= Seq::empty());
    while k < list.len()
        invariant
            k <= list@.len(),
            fixed.wf(),
            r@ == unfixed(list@.take(k as int), fixed@),
        decreases list@.len() - k,
    {
        assert(list@.take(k + 1).drop_last() =~= list@.take(k as int));
        let e = list[k];
        if fixed.get(e.0).is_none() {
            r.push(e);
        }
        k += 1;
    }
    assert(list@.take(k as int) =~= list@);
    r
}

/// No variable is listed twice.
pub open spec fn distinct_vars(list: Seq<(usize, i64)>) -> bool {
    forall|i: int, j: int|
        0 <= i < j < list.len() ==> (#[trigger] list[i]).0 != (#[trigger] list[j]).0
}

/// The entries are values of existing variables.
pub open spec fn valid_entries(vt: VarType, list: Seq<(usize, i64)>, n: nat) -> bool {
    forall|i: int|
        0 <= i < list.len() ==> (#[trigger] list[i]).0 < n && (list[i].1 == 1 || list[i].1
            == term::bit_value(vt, false))
}

/// The entries of [`unfixed`] are entries of the list, in order.
pub proof fn lemma_unfixed(vt: VarType, list: Seq<(usize, i64)>, f: Seq<Option<bool>>, n: nat)
    requires
        f.len() == n,
        valid_entries(vt, list, n),
    ensures
        forall|i: int|
            0 <= i < unfixed(list, f).len() ==> list.contains(#[trigger] unfixed(list, f)[i])
                && f[unfixed(list, f)[i].0 as int] is None,
        valid_entries(vt, unfixed(list, f), n),
        distinct_vars(list) ==> distinct_vars(unfixed(list, f)),
        unfixed(list, f).len() <= list.len(),
        forall|i: int|
            0 <= i < list.len() && f[(#[trigger] list[i]).0 as int] is None ==> unfixed(
                list,
                f,
            ).contains(list[i]),
    decreases list.len(),
{
    if list.len() > 0 {
        let p = list.drop_last();
        assert forall|i: int| 0 <= i < p.len() implies (#[trigger] p[i]).0 < n && (p[i].1 == 1
            || p[i].1 == term::bit_value(vt, false)) by {
            assert(p[i] == list[i]);
        }
        lemma_unfixed(vt, p, f, n);
        let a = unfixed(p, f);
        let r = unfixed(list, f);
        assert(list[list.len() - 1].0 < n);
        assert forall|i: int| 0 <= i < r.len() implies list.contains(#[trigger] r[i])
            && f[r[i].0 as int] is None by {
            if i < a.len() {
                assert(r[i] == a[i]);
                let q = choose|q: int| 0 <= q < p.len() && p[q] == a[i];
                assert(list[q] == a[i]);
            } else {
                assert(list[list.len() - 1] == r[i]);
            }
        }
        assert forall|i: int| 0 <= i < r.len() implies (#[trigger] r[i]).0 < n && (r[i].1 == 1
            || r[i].1 == term::bit_value(vt, false)) by {
            if i < a.len() {
                assert(r[i] == a[i]);
            }
        }
        if distinct_vars(list) {
            assert(distinct_vars(p)) by {
                assert forall|i: int, j: int| 0 <= i < j < p.len() implies (#[trigger] p[i]).0 != (
                #[trigger] p[j]).0 by {
                    assert(list[i].0 != list[j].0);
                }
            }
            assert forall|i: int, j: int| 0 <= i < j < r.len() implies (#[trigger] r[i]).0 != (
            #[trigger] r[j]).0 by {
                assert(r[i] == a[i]);
                if j < a.len() {
                    assert(r[j] == a[j]);
                } else {
                    let q = choose|q: int| 0 <= q < p.len() && p[q] == a[i];
                    assert(list[q].0 != list[list.len() - 1].0);
                }
            }
        }
        assert forall|i: int|
            0 <= i < list.len() && f[(#[trigger] list[i]).0 as int] is None implies r.contains(
            list[i],
        ) by {
            if i < p.len() {
                assert(p[i] == list[i]);
                assert(a.contains(p[i]));
                let q = choose|q: int| 0 <= q < a.len() && a[q] == p[i];
                assert(r[q] == list[i]);
            } else {
                assert(r[r.len() - 1] == list[i]);
            }
        }
    }
}

/// Decisions over ascending variables name each at most once.
pub proof fn lemma_decided_distinct(
    vars: Seq<usize>,
    d: spec_fn(usize) -> Option<i64>,
)
    requires
        vars.no_duplicates(),
    ensures
        distinct_vars(dominance::decided(vars, d)),
    decreases vars.len(),
{
    if vars.len() > 0 {
        let p = vars.drop_last();
        assert(p.no_duplicates());
        lemma_decided_distinct(p, d);
        persistency::lemma_decided(p, d);
        let a = dominance::decided(p, d);
        let r = dominance::decided(vars, d);
        assert forall|i: int, j: int| 0 <= i < j < r.len() implies (#[trigger] r[i]).0 != (
        #[trigger] r[j]).0 by {
            assert(r[i] == a[i]);
            if j < a.len() {
                assert(r[j] == a[j]);
            } else {
                assert(p.contains(a[i].0));
                let q = choose|q: int| 0 <= q < p.len() && p[q] == a[i].0;
                assert(vars[q] != vars[vars.len() - 1]);
            }
        }
    }
}

/// Every pair has members of its own.
proof fn lemma_greedy_disjoint(vars: Seq<usize>, rel: spec_fn(usize, usize) -> Option<i64>, k: nat)
    requires
        vars.no_duplicates(),
        k <= vars.len(),
    ensures
        distinct_vars(coupling::pair_values(coupling::greedy_pairs(vars, rel, k))),
        forall|v: usize|
            lists_var(coupling::pair_values(coupling::greedy_pairs(vars, rel, k)), v) == #[trigger] coupling::paired(
                coupling::greedy_pairs(vars, rel, k),
                v,
            ),
    decreases k,
{
    if k > 0 {
        let p = coupling::greedy_pairs(vars, rel, (k - 1) as nat);
        lemma_greedy_disjoint(vars, rel, (k - 1) as nat);
        lemma_partner_free(vars, rel, p, k - 1, k as int);
        let r = coupling::greedy_pairs(vars, rel, k);
        if r != p {
            let b = coupling::partner(vars, rel, p, k - 1, k as int)->0;
            let e = (vars[k - 1], vars[b], rel(vars[k - 1], vars[b])->0);
            assert(r == p.push(e));
            assert(r.drop_last() =~= p);
            assert(vars[k - 1] != vars[b]);
            let a = coupling::pair_values(p);
            let c = coupling::pair_values(r);
            assert(c =~= a.push((e.0, 1i64)).push((e.1, e.2)));
            assert(!coupling::paired(p, e.0));
            assert(!coupling::paired(p, e.1));
            assert(!lists_var(a, e.0));
            assert(!lists_var(a, e.1));
            assert forall|i: int, j: int| 0 <= i < j < c.len() implies (#[trigger] c[i]).0 != (
            #[trigger] c[j]).0 by {
                if i < a.len() {
                    assert(c[i] == a[i]);
                    assert(lists_var(a, a[i].0));
                    if j < a.len() {
                        assert(c[j] == a[j]);
                    }
                }
            }
            assert forall|v: usize| lists_var(c, v) == #[trigger] coupling::paired(r, v) by {
                coupling::lemma_paired_push(p, e, v);
                assert(lists_var(a, v) == coupling::paired(p, v));
                if lists_var(a, v) {
                    let i = choose|i: int| 0 <= i < a.len() && (#[trigger] a[i]).0 == v;
                    assert(c[i] == a[i]);
                }
                if v == e.0 {
                    assert(c[a.len() as int].0 == v);
                }
                if v == e.1 {
                    assert(c[a.len() as int + 1].0 == v);
                }
                if lists_var(c, v) && v != e.0 && v != e.1 {
                    let i = choose|i: int| 0 <= i < c.len() && (#[trigger] c[i]).0 == v;
                    assert(a[i] == c[i]);
                }
            }
        }
    } else {
        assert(coupling::greedy_pairs(vars, rel, 0) =~= Seq::empty());
        assert(coupling::pair_values(coupling::greedy_pairs(vars, rel, 0)) =~= Seq::empty());
    }
}

/// Some entry is of variable `v`.
pub open spec fn lists_var(list: Seq<(usize, i64)>, v: usize) -> bool {
    exists|i: int| 0 <= i < list.len() && (#[trigger] list[i]).0 == v
}

proof fn lemma_partner_free(
    vars: Seq<usize>,
    rel: spec_fn(usize, usize) -> Option<i64>,
    pairs: Seq<(usize, usize, i64)>,
    a: int,
    b: int,
)
    ensures
        coupling::partner(vars, rel, pairs, a, b) matches Some(q) ==> b <= q < vars.len() && !coupling::paired(
            pairs,
            vars[q],
        ),
    decreases vars.len() - b,
{
    if b < vars.len() {
        lemma_partner_free(vars, rel, pairs, a, b + 1);
    }
}

proof fn lemma_pair_entries(pairs: Seq<(usize, usize, i64)>, n: nat)
    requires
        forall|q: int|
            0 <= q < pairs.len() ==> (#[trigger] pairs[q]).0 < n && pairs[q].1 < n && (pairs[q].2
                == 1 || pairs[q].2 == -1),
    ensures
        valid_entries(VarType::Spin, coupling::pair_values(pairs), n),
    decreases pairs.len(),
{
    if pairs.len() > 0 {
        let p = pairs.drop_last();
        assert forall|q: int| 0 <= q < p.len() implies (#[trigger] p[q]).0 < n && p[q].1 < n && (
        p[q].2 == 1 || p[q].2 == -1) by {
            assert(p[q] == pairs[q]);
        }
        lemma_pair_entries(p, n);
        let e = pairs[pairs.len() - 1];
        let a = coupling::pair_values(p);
        let c = coupling::pair_values(pairs);
        assert forall|i: int| 0 <= i < c.len() implies (#[trigger] c[i]).0 < n && (c[i].1 == 1
            || c[i].1 == term::bit_value(VarType::Spin, false)) by {
            if i < a.len() {
                assert(c[i] == a[i]);
            }
        }
    }
}

/// What a rule proposes are values of existing variables, each named once.
pub proof fn lemma_proposal<V: VarDomain>(
    rule: KernelizationRuleId,
    instance: &HuboInstance<V>,
    node: &Node,
    list: Seq<(usize, i64)>,
)
    requires
        kernelizable(instance),
        node.describes(instance),
        proposes(rule, instance, node, list),
    ensures
        distinct_vars(list),
        valid_entries(V::tag(), list, instance.n() as nat),
{
    let n = instance.n() as nat;
    let f = node.fixed@;
    match rule {
        KernelizationRuleId::ExternalFixes => {},
        KernelizationRuleId::Dominance => {
            fixes::lemma_free_vars(f);
            let d = dominance::dominance_decision(V::tag(), instance.terms@, node.term_status@);
            lemma_decided_distinct(fixes::free_vars(f), d);
            persistency::lemma_decided(fixes::free_vars(f), d);
            assert forall|i: int| 0 <= i < list.len() implies (#[trigger] list[i]).0 < n && (
            list[i].1 == 1 || list[i].1 == term::bit_value(V::tag(), false)) by {
                assert(fixes::free_vars(f).contains(list[i].0));
            }
        },
        KernelizationRuleId::RoofDuality => {
            if n == 0 || roof_dual::beyond_quadratic(instance.terms@) {
            } else {
                let (lin, quad, r) = choose|
                    lin: Seq<i128>,
                    quad: Seq<crate::merge::KeySum>,
                    r: Seq<Option<bool>>,
                | #[trigger]
                    roof_dual::is_labelled_by(V::tag(), instance.terms@, n, lin, quad, r, list);
                let d = roof_dual::label_decision(V::tag(), r);
                let vars = coupling::all_vars(n);
                assert(vars.no_duplicates());
                lemma_decided_distinct(vars, d);
                persistency::lemma_decided(vars, d);
                assert forall|i: int| 0 <= i < list.len() implies (#[trigger] list[i]).0 < n && (
                list[i].1 == 1 || list[i].1 == term::bit_value(V::tag(), false)) by {
                    assert(vars.contains(list[i].0));
                    let q = choose|q: int| 0 <= q < vars.len() && vars[q] == list[i].0;
                }
            }
        },
        KernelizationRuleId::SpinCouplingReduction => {
            if V::tag() == VarType::Spin {
                let vars = fixes::free_vars(f);
                let rel = coupling::uncoupled_sign(
                    coupling::active_items(node.term_status@),
                    node.term_status@.len(),
                );
                fixes::lemma_free_vars(f);
                let pairs = coupling::greedy_pairs(vars, rel, vars.len());
                lemma_greedy_disjoint(vars, rel, vars.len());
                coupling_laws::lemma_greedy_pairs(vars, rel, vars.len());
                assert forall|q: int| 0 <= q < pairs.len() implies (#[trigger] pairs[q]).0 < n
                    && pairs[q].1 < n && (pairs[q].2 == 1 || pairs[q].2 == -1) by {
                    assert(vars.contains(pairs[q].0));
                    assert(vars.contains(pairs[q].1));
                }
                lemma_pair_entries(pairs, n);
            }
        },
        KernelizationRuleId::SflipSymmetry => {
            if V::tag() == VarType::Spin {
                let b = choose|b: Seq<Vec<usize>>| #[trigger]
                    f2::is_reduced_basis(sflip::even_sets(instance.terms@, n), n, b) && list
                        == sflip::representatives(b);
                assert forall|i: int, j: int| 0 <= i < j < list.len() implies (
                #[trigger] list[i]).0 != (#[trigger] list[j]).0 by {
                    assert(b[i]@[0] < b[j]@[0]);
                }
                assert forall|i: int| 0 <= i < list.len() implies (#[trigger] list[i]).0 < n && (
                list[i].1 == 1 || list[i].1 == term::bit_value(V::tag(), false)) by {
                    assert(f2::is_basis_vector(b, b[i]@, n));
                }
            }
        },
    }
}

/// Entry `k` of the list can be fixed after the entries before it.
pub open spec fn step_ok(f: Seq<Option<bool>>, list: Seq<(usize, i64)>, k: int) -> bool {
    list[k].0 < f.len() && persistency::fixed_by(f, list.take(k))[list[k].0 as int] != Some(list[k].1 != 1)
}

/// Fix the listed variables in order; stop at the first that cannot be fixed.
pub fn apply_fixes<V: VarDomain>(
    instance: &HuboInstance<V>,
    node: &mut Node,
    new_fixes: &Vec<(usize, i64)>,
) -> (r: Result<(), KernelizationError>)
    requires
        instance.wf(),
        instance.fits(),
        old(node).describes(instance),
    ensures
        final(node).describes(instance),
        final(node).lb == old(node).lb,
        final(node).core_hint == old(node).core_hint,
        final(node).prices == old(node).prices,
        r is Ok <==> forall|k: int|
            0 <= k < new_fixes@.len() ==> #[trigger] step_ok(old(node).fixed@, new_fixes@, k),
        r is Ok ==> final(node).fixed@ == persistency::fixed_by(old(node).fixed@, new_fixes@),
        r matches Err(e) ==> e is FixingError && exists|k: int|
            0 <= k < new_fixes@.len() && !#[trigger] step_ok(old(node).fixed@, new_fixes@, k)
                && final(node).fixed@ == persistency::fixed_by(old(node).fixed@, new_fixes@.take(k)) && (forall|
                j: int,
            |
                0 <= j < k ==> #[trigger] step_ok(old(node).fixed@, new_fixes@, j)),
{
    let ghost f = node.fixed@;
    let ghost list = new_fixes@;
    let mut k: usize = 0;
    assert(list.take(0) =~= Seq::empty());
    while k < new_fixes.len()
        invariant
            k <= list.len(),
            list == new_fixes@,
            instance.wf(),
            instance.fits(),
            node.describes(instance),
            f.len() == instance.n(),
            node.lb == old(node).lb,
            node.core_hint == old(node).core_hint,
            node.prices == old(node).prices,
            f == old(node).fixed@,
            node.fixed@ == persistency::fixed_by(f, list.take(k as int)),
            forall|j: int| 0 <= j < k ==> #[trigger] step_ok(f, list, j),
        decreases list.len() - k,
    {
        let (index, value) = new_fixes[k];
        assert(list.take(k + 1).drop_last() =~= list.take(k as int));
        let set = node.set_variable(instance, index, value == 1);
        match set {
            Ok(_) => {
                assert(step_ok(f, list, k as int));
            },
            Err(e) => {
                assert(!step_ok(f, list, k as int));
                return Err(KernelizationError::FixingError { source: Box::new(e) });
            },
        }
        k += 1;
    }
    assert(list.take(k as int) =~= list);
    Ok(())
}

/// Distinct free variables can all be fixed.
pub proof fn lemma_steps_ok(f: Seq<Option<bool>>, list: Seq<(usize, i64)>)
    requires
        f.len() <= usize::MAX,
        distinct_vars(list),
        forall|i: int|
            0 <= i < list.len() ==> (#[trigger] list[i]).0 < f.len() && f[list[i].0 as int] is None,
    ensures
        forall|k: int| 0 <= k < list.len() ==> #[trigger] step_ok(f, list, k),
        fixes::fixed_count(persistency::fixed_by(f, list)) == fixes::fixed_count(f) + list.len(),
        persistency::fixed_by(f, list).len() == f.len(),
        forall|v: int|
            0 <= v < f.len() ==> (#[trigger] persistency::fixed_by(f, list)[v] is None <==> f[v] is None
                && !lists_var(list, v as usize)),
        forall|v: int|
            0 <= v < f.len() && f[v] is Some ==> #[trigger] persistency::fixed_by(f, list)[v] == f[v],
    decreases list.len(),
{
    if list.len() > 0 {
        let p = list.drop_last();
        let e = list[list.len() - 1];
        assert(distinct_vars(p)) by {
            assert forall|i: int, j: int| 0 <= i < j < p.len() implies (#[trigger] p[i]).0 != (
            #[trigger] p[j]).0 by {
                assert(list[i].0 != list[j].0);
            }
        }
        assert forall|i: int| 0 <= i < p.len() implies (#[trigger] p[i]).0 < f.len()
            && f[p[i].0 as int] is None by {
            assert(p[i] == list[i]);
        }
        lemma_steps_ok(f, p);
        let g = persistency::fixed_by(f, p);
        assert(!lists_var(p, e.0)) by {
            if lists_var(p, e.0) {
                let i = choose|i: int| 0 <= i < p.len() && (#[trigger] p[i]).0 == e.0;
                assert(list[i].0 != list[list.len() - 1].0);
            }
        }
        assert(g[e.0 as int] is None);
        lemma_fixed_count_update(g, e.0 as int, e.1 == 1);
        assert forall|k: int| 0 <= k < list.len() implies #[trigger] step_ok(f, list, k) by {
            if k < p.len() {
                assert(step_ok(f, p, k));
                assert(p.take(k) =~= list.take(k));
            } else {
                assert(list.take(k) =~= p);
            }
        }
        let r = persistency::fixed_by(f, list);
        assert forall|v: int| 0 <= v < f.len() implies (#[trigger] r[v] is None <==> f[v] is None
            && !lists_var(list, v as usize)) by {
            assert(g[v] is None <==> f[v] is None && !lists_var(p, v as usize));
            if lists_var(p, v as usize) {
                let i = choose|i: int| 0 <= i < p.len() && (#[trigger] p[i]).0 == v as usize;
                assert(list[i].0 == v as usize);
            }
            if v == e.0 {
                assert(list[list.len() - 1].0 == v as usize);
            }
            if lists_var(list, v as usize) && v != e.0 {
                let i = choose|i: int| 0 <= i < list.len() && (#[trigger] list[i]).0 == v as usize;
                assert(p[i].0 == v as usize);
            }
        }
        assert forall|v: int| 0 <= v < f.len() && f[v] is Some implies #[trigger] r[v] == f[v] by {
            assert(g[v] == f[v]);
        }
    }
}

proof fn lemma_fixed_count_update(f: Seq<Option<bool>>, v: int, b: bool)
    requires
        0 <= v < f.len(),
        f[v] is None,
    ensures
        fixes::fixed_count(f.update(v, Some(b))) == fixes::fixed_count(f) + 1,
    decreases f.len(),
{
    let g = f.update(v, Some(b));
    if v == f.len() - 1 {
        assert(g.drop_last() =~= f.drop_last());
    } else {
        assert(g.drop_last() =~= f.drop_last().update(v, Some(b)));
        lemma_fixed_count_update(f.drop_last(), v, b);
    }
}

} // verus!
