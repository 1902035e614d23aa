//! What the numbers of a report add up to.

use crate::domain::VarDomain;
use crate::fixes;
use crate::instance::HuboInstance;
use crate::kernelization::dominance;
use crate::kernelization::kernelizer::KernelStep;
use crate::kernelization::kernelizer;
use crate::kernelization::persistency;
use crate::kernelization::rules;
use crate::node::Node;
use crate::sets;
use vstd::prelude::*;
use crate::kernelization::config::{
    KernelizationConfig,
    KernelizationReport,
    KernelizationRuleId,
};

verus! {

proof fn lemma_count_update(f: Seq<Option<bool>>, v: int, b: bool)
    requires
        0 <= v < f.len(),
        f[v] is None,
    ensures
        fixes::fixed_count(f.update(v, Some(b))) == fixes::fixed_count(f) + 1,
    decreases f.len(),
{
    let g = f.update(v, Some(b));
    if v == f.len() - 1 {
        assert(g.drop_last() =~= f.drop_last());
    } else {
        assert(g.drop_last() =~= f.drop_last().update(v, Some(b)));
        lemma_count_update(f.drop_last(), v, b);
    }
}

/// A list of distinct free variables fixes as many as it has.
proof fn lemma_count_fixed(f: Seq<Option<bool>>, list: Seq<(usize, i64)>)
    requires
        rules::distinct_vars(list),
        kernelizer::all_free(list, f),
    ensures
        fixes::fixed_count(persistency::fixed_by(f, list)) == fixes::fixed_count(f) + list.len(),
        persistency::fixed_by(f, list).len() == f.len(),
        forall|v: int|
            0 <= v < f.len() && f[v] is None && (forall|i: int|
                0 <= i < list.len() ==> (#[trigger] list[i]).0 != v)
                ==> (#[trigger] persistency::fixed_by(f, list)[v]) is None,
    decreases list.len(),
{
    if list.len() > 0 {
        let p = list.drop_last();
        let e = list.last();
        assert forall|i: int| 0 <= i < p.len() implies (#[trigger] p[i]).0 < f.len()
            && f[p[i].0 as int] is None by {
            assert(p[i] == list[i]);
        }
        assert forall|i: int, j: int| 0 <= i < j < p.len() implies (#[trigger] p[i]).0 != (
        #[trigger] p[j]).0 by {
            assert(list[i].0 != list[j].0);
        }
        lemma_count_fixed(f, p);
        let g = persistency::fixed_by(f, p);
        assert(list[list.len() - 1] == e);
        assert forall|i: int| 0 <= i < p.len() implies (#[trigger] p[i]).0 != e.0 by {
            assert(list[i].0 != list[list.len() - 1].0);
        }
        assert(g[e.0 as int] is None);
        lemma_count_update(g, e.0 as int, e.1 == 1);
        assert forall|v: int|
            0 <= v < f.len() && f[v] is None && (forall|i: int|
                0 <= i < list.len() ==> (#[trigger] list[i]).0 != v) implies (
        #[trigger] persistency::fixed_by(f, list)[v]) is None by {
            assert(list[list.len() - 1].0 != v);
            assert forall|i: int| 0 <= i < p.len() implies (#[trigger] p[i]).0 != v by {
                assert(list[i].0 != v);
            }
            assert(g[v] is None);
        }
    }
}

proof fn lemma_decided_distinct(vars: Seq<usize>, d: spec_fn(usize) -> Option<i64>)
    requires
        sets::ascending(vars),
    ensures
        rules::distinct_vars(dominance::decided(vars, d)),
    decreases vars.len(),
{
    if vars.len() > 0 {
        let p = vars.drop_last();
        lemma_decided_distinct(p, d);
        persistency::lemma_decided(p, d);
        let r = dominance::decided(vars, d);
        let q = dominance::decided(p, d);
        assert forall|i: int, j: int| 0 <= i < j < r.len() implies (#[trigger] r[i]).0 != (
        #[trigger] r[j]).0 by {
            assert(r[i] == q[i]);
            if j < q.len() {
                assert(r[j] == q[j]);
            } else {
                assert(p.contains(q[i].0));
                let k = p.index_of(q[i].0);
                assert(vars[k] < vars[vars.len() - 1]);
            }
        }
    }
}

proof fn lemma_step_count<V: VarDomain>(
    instance: &HuboInstance<V>,
    config: KernelizationConfig,
    incumbent: Option<i64>,
    a: Node,
    b: Node,
    step: KernelStep,
)
    requires
        rules::kernelizable(instance),
        kernelizer::is_step(instance, config, incumbent, a, b, step),
    ensures
        fixes::fixed_count(b.fixed@) == fixes::fixed_count(a.fixed@) + step.fixes.len(),
{
    let f = a.fixed@;
    match step.rule {
        None => {
            let d = dominance::gap_decision(instance, &a, incumbent->0);
            fixes::lemma_free_vars(f);
            persistency::lemma_decided(fixes::free_vars(f), d);
            lemma_decided_distinct(fixes::free_vars(f), d);
            assert forall|i: int| 0 <= i < step.fixes.len() implies (#[trigger] step.fixes[i]).0
                < f.len() && f[step.fixes[i].0 as int] is None by {
                assert(fixes::free_vars(f).contains(step.fixes[i].0));
            }
        },
        Some(rule) => {
            let p = choose|p: int| #[trigger] kernelizer::fired(instance, config, &a, step, p);
            let raw = choose|raw: Seq<(usize, i64)>| #[trigger]
                rules::proposes(rule, instance, &a, raw) && step.candidates == rules::unfixed(raw, f);
            rules::lemma_proposal(rule, instance, &a, raw);
            rules::lemma_unfixed(V::tag(), raw, f, instance.n() as nat);
            assert forall|i: int| 0 <= i < step.candidates.len() implies (
            #[trigger] step.candidates[i]).0 < f.len() && f[step.candidates[i].0 as int] is None by {}
            kernelizer::lemma_completed(instance, config, &a, step.candidates);
        },
    }
    lemma_count_fixed(f, step.fixes);
}

proof fn lemma_run_count<V: VarDomain>(
    instance: &HuboInstance<V>,
    config: KernelizationConfig,
    incumbent: Option<i64>,
    nodes: Seq<Node>,
    steps: Seq<KernelStep>,
    k: nat,
)
    requires
        rules::kernelizable(instance),
        kernelizer::is_run(instance, config, incumbent, nodes, steps),
        k <= steps.len(),
    ensures
        fixes::fixed_count(nodes[k as int].fixed@) == fixes::fixed_count(nodes[0].fixed@)
            + kernelizer::fixed_in_all(steps.take(k as int)),
    decreases k,
{
    if k > 0 {
        lemma_run_count(instance, config, incumbent, nodes, steps, (k - 1) as nat);
        let j = k - 1;
        assert(kernelizer::is_step(
            instance,
            config,
            incumbent,
            nodes[j],
            nodes[j + 1],
            steps[j],
        ));
        lemma_step_count(instance, config, incumbent, nodes[j], nodes[j + 1], steps[j]);
        assert(steps.take(k as int).drop_last() =~= steps.take(j));
        assert(steps.take(k as int).last() == steps[j]);
    } else {
        assert(steps.take(0) =~= Seq::empty());
    }
}

/// The variables of a report add up: those that went missing are those that rules
/// fixed, and each of them counts for one rule or for the gap.
pub proof fn reported_fixes_add_up<V: VarDomain>(
    instance: &HuboInstance<V>,
    config: KernelizationConfig,
    incumbent: Option<i64>,
    nodes: Seq<Node>,
    steps: Seq<KernelStep>,
    r: KernelizationReport,
)
    requires
        rules::kernelizable(instance),
        kernelizer::is_run(instance, config, incumbent, nodes, steps),
        kernelizer::is_report(instance, config, nodes, steps, r),
    ensures
        r.initial_n_vars == r.final_n_vars + r.rule_fixed,
        r.rule_fixed == r.dominance_fixed + r.lb_fixing_fixed + r.roof_duality_fixed
            + r.coupling_fixed + r.sflip_symmetry_fixed,
{
    lemma_run_count(instance, config, incumbent, nodes, steps, steps.len());
    assert(steps.take(steps.len() as int) =~= steps);
    assert forall|k: int| 0 <= k < steps.len() implies (#[trigger] steps[k]).rule
        != Some(KernelizationRuleId::ExternalFixes) by {
        assert(kernelizer::is_step(
            instance,
            config,
            incumbent,
            nodes[k],
            nodes[k + 1],
            steps[k],
        ));
        if steps[k].rule == Some(KernelizationRuleId::ExternalFixes) {
            let p = choose|p: int| #[trigger]
                kernelizer::fired(instance, config, &nodes[k], steps[k], p);
            let raw = choose|raw: Seq<(usize, i64)>| #[trigger]
                rules::proposes(KernelizationRuleId::ExternalFixes, instance, &nodes[k], raw)
                    && steps[k].candidates == rules::unfixed(raw, nodes[k].fixed@);
            assert(rules::unfixed(raw, nodes[k].fixed@).len() == 0);
        }
    }
    lemma_rules_add_up(steps);
}

proof fn lemma_rules_add_up(steps: Seq<KernelStep>)
    requires
        forall|k: int|
            0 <= k < steps.len() ==> (#[trigger] steps[k]).rule != Some(
                KernelizationRuleId::ExternalFixes,
            ),
    ensures
        kernelizer::fixed_in_all(steps) == kernelizer::fixed_by_rule(
            steps,
            Some(KernelizationRuleId::Dominance),
        ) + kernelizer::fixed_by_rule(steps, None) + kernelizer::fixed_by_rule(
            steps,
            Some(KernelizationRuleId::RoofDuality),
        ) + kernelizer::fixed_by_rule(steps, Some(KernelizationRuleId::SpinCouplingReduction))
            + kernelizer::fixed_by_rule(steps, Some(KernelizationRuleId::SflipSymmetry)),
    decreases steps.len(),
{
    if steps.len() > 0 {
        let p = steps.drop_last();
        assert forall|k: int| 0 <= k < p.len() implies (#[trigger] p[k]).rule != Some(
            KernelizationRuleId::ExternalFixes,
        ) by {
            assert(p[k] == steps[k]);
        }
        lemma_rules_add_up(p);
        assert(steps[steps.len() - 1].rule != Some(KernelizationRuleId::ExternalFixes));
        let last = steps.last().rule;
        assert(last == None::<KernelizationRuleId> || last == Some(KernelizationRuleId::Dominance)
            || last == Some(KernelizationRuleId::RoofDuality) || last == Some(
            KernelizationRuleId::SpinCouplingReduction,
        ) || last == Some(KernelizationRuleId::SflipSymmetry)) by {
            if let Some(rule) = last {
                match rule {
                    KernelizationRuleId::ExternalFixes => {},
                    KernelizationRuleId::Dominance => {},
                    KernelizationRuleId::RoofDuality => {},
                    KernelizationRuleId::SpinCouplingReduction => {},
                    KernelizationRuleId::SflipSymmetry => {},
                }
            }
        }
    }
}

} // verus!
