//! Kernelization keeps an optimal completion.

use crate::domain::{VarDomain, VarType};
use crate::fixes;
use crate::instance::HuboInstance;
use crate::kernelization::config::{KernelizationConfig, KernelizationRuleId};
use crate::kernelization::coupling::{ConditionalCoupling, ConditionalCouplingKind};
use crate::kernelization::coupling;
use crate::kernelization::coupling_laws;
use crate::kernelization::dominance;
use crate::kernelization::kernelizer::KernelStep;
use crate::kernelization::kernelizer;
use crate::kernelization::persistency;
use crate::kernelization::propagate;
use crate::kernelization::roof_dual;
use crate::kernelization::rules;
use crate::kernelization::sflip;
use crate::node::Node;
use crate::node;
use vstd::prelude::*;

verus! {

/// No assignment has a smaller objective.
pub open spec fn is_minimiser<V: VarDomain>(instance: &HuboInstance<V>, x: Seq<bool>) -> bool {
    x.len() == instance.n() && forall|y: Seq<bool>|
        y.len() == instance.n() ==> instance.objective(x) <= #[trigger] instance.objective(y)
}

/// `x` has the listed values.
pub open spec fn takes(x: Seq<bool>, list: Seq<(usize, i64)>) -> bool {
    forall|i: int|
        0 <= i < list.len() ==> (#[trigger] list[i]).0 < x.len() && x[list[i].0 as int] == (
        list[i].1 == 1)
}

/// `x` has the known values.
spec fn agrees(x: Seq<bool>, known: Seq<Option<i64>>) -> bool {
    x.len() == known.len() && forall|v: int|
        0 <= v < known.len() && (#[trigger] known[v]) is Some ==> x[v] == (known[v]->0 == 1)
}

proof fn lemma_takes_extends(x: Seq<bool>, f: Seq<Option<bool>>, list: Seq<(usize, i64)>)
    requires
        node::extends(x, f),
        takes(x, list),
    ensures
        node::extends(x, persistency::fixed_by(f, list)),
    decreases list.len(),
{
    if list.len() > 0 {
        let p = list.drop_last();
        assert(takes(x, p)) by {
            assert forall|i: int| 0 <= i < p.len() implies (#[trigger] p[i]).0 < x.len()
                && x[p[i].0 as int] == (p[i].1 == 1) by {
                assert(p[i] == list[i]);
            }
        }
        lemma_takes_extends(x, f, p);
        assert(list[list.len() - 1].0 < x.len());
    }
}

/// Distinct entries that were set are taken.
pub proof fn lemma_with_values_takes(x: Seq<bool>, list: Seq<(usize, i64)>)
    requires
        rules::distinct_vars(list),
        forall|i: int| 0 <= i < list.len() ==> (#[trigger] list[i]).0 < x.len(),
    ensures
        takes(persistency::with_values(x, list), list),
        persistency::with_values(x, list).len() == x.len(),
    decreases list.len(),
{
    if list.len() > 0 {
        let p = list.drop_last();
        assert(rules::distinct_vars(p)) by {
            assert forall|i: int, j: int| 0 <= i < j < p.len() implies (#[trigger] p[i]).0 != (
            #[trigger] p[j]).0 by {
                assert(list[i].0 != list[j].0);
            }
        }
        assert forall|i: int| 0 <= i < p.len() implies (#[trigger] p[i]).0 < x.len() by {
            assert(p[i] == list[i]);
        }
        lemma_with_values_takes(x, p);
        let y = persistency::with_values(x, list);
        assert(list[list.len() - 1].0 < x.len());
        assert forall|i: int| 0 <= i < list.len() implies (#[trigger] list[i]).0 < y.len()
            && y[list[i].0 as int] == (list[i].1 == 1) by {
            if i < p.len() {
                assert(p[i] == list[i]);
                assert(list[i].0 != list[list.len() - 1].0);
            }
        }
    }
}

proof fn lemma_known_from_agrees(n: nat, list: Seq<(usize, i64)>, x: Seq<bool>)
    requires
        x.len() == n,
        takes(x, list),
    ensures
        agrees(x, propagate::known_from(n, list)),
    decreases list.len(),
{
    if list.len() > 0 {
        let p = list.drop_last();
        assert(takes(x, p)) by {
            assert forall|i: int| 0 <= i < p.len() implies (#[trigger] p[i]).0 < x.len()
                && x[p[i].0 as int] == (p[i].1 == 1) by {
                assert(p[i] == list[i]);
            }
        }
        lemma_known_from_agrees(n, p, x);
        assert(list[list.len() - 1].0 < x.len());
    }
}

proof fn lemma_known_list_taken(known: Seq<Option<i64>>, x: Seq<bool>, k: nat)
    requires
        agrees(x, known),
        k <= known.len(),
        known.len() <= usize::MAX,
    ensures
        takes(x, propagate::known_list(known, k)),
    decreases k,
{
    if k > 0 {
        lemma_known_list_taken(known, x, (k - 1) as nat);
        let p = propagate::known_list(known, (k - 1) as nat);
        let r = propagate::known_list(known, k);
        assert forall|i: int| 0 <= i < r.len() implies (#[trigger] r[i]).0 < x.len()
            && x[r[i].0 as int] == (r[i].1 == 1) by {
            if i < p.len() {
                assert(r[i] == p[i]);
            }
        }
    }
}

/// Following one coupling never raises the objective.
proof fn lemma_follow_safe<V: VarDomain>(
    instance: &HuboInstance<V>,
    node: &Node,
    known: Seq<Option<i64>>,
    c: ConditionalCoupling,
    x: Seq<bool>,
) -> (y: Seq<bool>)
    requires
        instance.wf(),
        instance.n() <= usize::MAX,
        node.describes(instance),
        V::tag() == VarType::Spin,
        node::extends(x, node.fixed@),
        agrees(x, known),
        propagate::signs(known),
        kernelizer::is_entry(
            fixes::free_vars(node.fixed@),
            coupling::active_items(node.term_status@),
            node.term_status@.len(),
            c,
        ),
    ensures
        node::extends(y, node.fixed@),
        agrees(y, propagate::follow_one(known, node.fixed@, c)),
        instance.objective(y) <= instance.objective(x),
{
    let f = node.fixed@;
    let parts = coupling::active_items(node.term_status@);
    let k = node.term_status@.len();
    fixes::lemma_free_vars(f);
    assert(fixes::free_vars(f).contains(c.i));
    assert(fixes::free_vars(f).contains(c.j));
    assert(c.i != c.j);
    assert(c.alpha == 1 || c.alpha == -1);
    let next = propagate::follow_one(known, f, c);
    if next == known {
        x
    } else {
        coupling_laws::conditional_value_is_safe(instance, node, c.i, c.j, c, x);
        let (leader, follower) = match c.kind {
            ConditionalCouplingKind::JGivenI => (c.i, c.j),
            ConditionalCouplingKind::IGivenJ => (c.j, c.i),
        };
        let y = x.update(follower as int, (c.alpha == 1) == x[leader as int]);
        assert(known[leader as int] is Some);
        let s = known[leader as int]->0;
        assert(x[leader as int] == (s == 1));
        propagate::lemma_sign_product(c.alpha, s);
        assert(next == known.update(follower as int, Some((c.alpha * s) as i64)));
        assert(agrees(y, next));
        y
    }
}

proof fn lemma_pass_safe<V: VarDomain>(
    instance: &HuboInstance<V>,
    node: &Node,
    known: Seq<Option<i64>>,
    pairs: Seq<ConditionalCoupling>,
    k: nat,
    x: Seq<bool>,
) -> (y: Seq<bool>)
    requires
        instance.wf(),
        instance.n() <= usize::MAX,
        node.describes(instance),
        V::tag() == VarType::Spin,
        node::extends(x, node.fixed@),
        agrees(x, known),
        propagate::signs(known),
        propagate::couplings_ok(pairs, instance.n() as nat),
        k <= pairs.len(),
        forall|q: int|
            0 <= q < pairs.len() ==> kernelizer::is_entry(
                fixes::free_vars(node.fixed@),
                coupling::active_items(node.term_status@),
                node.term_status@.len(),
                #[trigger] pairs[q],
            ),
    ensures
        node::extends(y, node.fixed@),
        agrees(y, propagate::follow_pass(known, node.fixed@, pairs, k)),
        propagate::signs(propagate::follow_pass(known, node.fixed@, pairs, k)),
        instance.objective(y) <= instance.objective(x),
    decreases k,
{
    if k == 0 {
        x
    } else {
        let z = lemma_pass_safe(instance, node, known, pairs, (k - 1) as nat, x);
        let mid = propagate::follow_pass(known, node.fixed@, pairs, (k - 1) as nat);
        propagate::lemma_follow_one(mid, node.fixed@, pairs[k - 1], instance.n() as nat);
        lemma_follow_safe(instance, node, mid, pairs[k - 1], z)
    }
}

proof fn lemma_passes_safe<V: VarDomain>(
    instance: &HuboInstance<V>,
    node: &Node,
    known: Seq<Option<i64>>,
    pairs: Seq<ConditionalCoupling>,
    m: nat,
    x: Seq<bool>,
) -> (y: Seq<bool>)
    requires
        instance.wf(),
        instance.n() <= usize::MAX,
        node.describes(instance),
        V::tag() == VarType::Spin,
        node::extends(x, node.fixed@),
        agrees(x, known),
        propagate::signs(known),
        propagate::couplings_ok(pairs, instance.n() as nat),
        forall|q: int|
            0 <= q < pairs.len() ==> kernelizer::is_entry(
                fixes::free_vars(node.fixed@),
                coupling::active_items(node.term_status@),
                node.term_status@.len(),
                #[trigger] pairs[q],
            ),
    ensures
        node::extends(y, node.fixed@),
        agrees(y, propagate::follow_passes(known, node.fixed@, pairs, m)),
        propagate::signs(propagate::follow_passes(known, node.fixed@, pairs, m)),
        instance.objective(y) <= instance.objective(x),
    decreases m,
{
    if m == 0 {
        x
    } else {
        let z = lemma_passes_safe(instance, node, known, pairs, (m - 1) as nat, x);
        lemma_pass_safe(
            instance,
            node,
            propagate::follow_passes(known, node.fixed@, pairs, (m - 1) as nat),
            pairs,
            pairs.len(),
            z,
        )
    }
}

/// A completion with the candidates leads to one with everything that follows.
proof fn lemma_completed_safe<V: VarDomain>(
    instance: &HuboInstance<V>,
    config: KernelizationConfig,
    node: &Node,
    candidates: Seq<(usize, i64)>,
    x: Seq<bool>,
) -> (y: Seq<bool>)
    requires
        rules::kernelizable(instance),
        node.describes(instance),
        rules::distinct_vars(candidates),
        rules::valid_entries(V::tag(), candidates, instance.n() as nat),
        kernelizer::all_free(candidates, node.fixed@),
        node::extends(x, node.fixed@),
        takes(x, candidates),
    ensures
        node::extends(
            y,
            persistency::fixed_by(
                node.fixed@,
                kernelizer::completed(node.fixed@, candidates, kernelizer::couplings_at(instance, config, node)),
            ),
        ),
        instance.objective(y) <= instance.objective(x),
{
    let f = node.fixed@;
    let n = instance.n() as nat;
    let pairs = kernelizer::couplings_at(instance, config, node);
    if pairs.len() > 0 {
        kernelizer::lemma_completed(instance, config, node, candidates);
        kernelizer::lemma_pair_scan_entries(
            fixes::free_vars(f),
            coupling::active_items(node.term_status@),
            node.term_status@.len(),
            fixes::free_vars(f).len(),
        );
        kernelizer::lemma_known_from(n, candidates, f);
        lemma_known_from_agrees(n, candidates, x);
        let y = lemma_passes_safe(instance, node, propagate::known_from(n, candidates), pairs, n, x);
        let known = propagate::follow_passes(propagate::known_from(n, candidates), f, pairs, n);
        lemma_known_list_taken(known, y, n);
        lemma_takes_extends(y, f, propagate::known_list(known, n));
        y
    } else {
        lemma_takes_extends(x, f, candidates);
        x
    }
}

/// The gap takes nothing from a completion that beats the incumbent.
proof fn lemma_gap_taken<V: VarDomain>(
    instance: &HuboInstance<V>,
    node: &Node,
    inc: i64,
    x: Seq<bool>,
)
    requires
        rules::kernelizable(instance),
        node.describes(instance),
        node::extends(x, node.fixed@),
        instance.objective(x) < inc,
    ensures
        takes(x, dominance::decided(fixes::free_vars(node.fixed@), dominance::gap_decision(instance, node, inc))),
{
    let f = node.fixed@;
    let d = dominance::gap_decision(instance, node, inc);
    let list = dominance::decided(fixes::free_vars(f), d);
    fixes::lemma_free_vars(f);
    persistency::lemma_decided(fixes::free_vars(f), d);
    assert forall|i: int| 0 <= i < list.len() implies (#[trigger] list[i]).0 < x.len()
        && x[list[i].0 as int] == (list[i].1 == 1) by {
        let v = list[i].0;
        assert(fixes::free_vars(f).contains(v));
        if dominance::pruned(instance, node, inc, v, x[v as int]) {
            persistency::pruned_values_do_not_improve(instance, node, inc, v, x);
        }
    }
}

/// One round keeps a completion at least as good as `x`. With roof duality `x`
/// is a minimiser of the whole objective; an incumbent is beaten by `x`; a flip
/// set whose representative flip symmetry may fix holds no fixed variable.
proof fn lemma_step_keeps<V: VarDomain>(
    instance: &HuboInstance<V>,
    config: KernelizationConfig,
    incumbent: Option<i64>,
    a: Node,
    b: Node,
    step: KernelStep,
    x: Seq<bool>,
) -> (y: Seq<bool>)
    requires
        rules::kernelizable(instance),
        kernelizer::is_step(instance, config, incumbent, a, b, step),
        node::extends(x, a.fixed@),
        incumbent matches Some(inc) ==> instance.objective(x) < inc,
        step.rule == Some(KernelizationRuleId::SflipSymmetry) ==> sflip::flips_are_free(
            instance.terms@,
            instance.n() as nat,
            a.fixed@,
        ),
        rules::enabled_rules(V::tag(), config).contains(KernelizationRuleId::RoofDuality)
            ==> is_minimiser(instance, x),
    ensures
        node::extends(y, b.fixed@),
        instance.objective(y) <= instance.objective(x),
{
    let f = a.fixed@;
    let n = instance.n() as nat;
    let rules = rules::enabled_rules(V::tag(), config);
    match step.rule {
        None => {
            lemma_gap_taken(instance, &a, incumbent->0, x);
            lemma_takes_extends(x, f, step.fixes);
            x
        },
        Some(rule) => {
            let p = choose|p: int| #[trigger] kernelizer::fired(instance, config, &a, step, p);
            assert(rules[p] == rule);
            assert(rules.contains(rule));
            let raw = choose|raw: Seq<(usize, i64)>| #[trigger]
                rules::proposes(rule, instance, &a, raw) && step.candidates == rules::unfixed(raw, f);
            rules::lemma_proposal(rule, instance, &a, raw);
            rules::lemma_unfixed(V::tag(), raw, f, n);
            let cand = step.candidates;
            let z = match rule {
                KernelizationRuleId::Dominance => {
                    persistency::dominance_keeps_optimum(instance, &a, raw, x);
                    persistency::with_values(x, raw)
                },
                KernelizationRuleId::SpinCouplingReduction => {
                    if V::tag() == VarType::Spin {
                        coupling_laws::coupling_keeps_optimum(instance, &a, x);
                    }
                    persistency::with_values(x, raw)
                },
                KernelizationRuleId::RoofDuality => {
                    roof_dual::roof_fixes_are_persistent(instance, raw, x);
                    persistency::with_values(x, raw)
                },
                KernelizationRuleId::SflipSymmetry => {
                    if V::tag() == VarType::Spin {
                        sflip::free_flips_keep_optimum(instance, f, raw, x)
                    } else {
                        x
                    }
                },
                KernelizationRuleId::ExternalFixes => x,
            };
            assert(node::extends(z, f) && takes(z, cand) && instance.objective(z) <= instance.objective(
                x,
            )) by {
                assert forall|i: int| 0 <= i < raw.len() implies (#[trigger] raw[i]).0
                    < x.len() by {
                    assert(raw[i].0 < n);
                }
                lemma_with_values_takes(x, raw);
                match rule {
                    KernelizationRuleId::ExternalFixes => {
                        assert(raw =~= Seq::empty());
                        assert(cand =~= Seq::empty());
                    },
                    KernelizationRuleId::SflipSymmetry => {
                        if V::tag() == VarType::Spin {
                            assert forall|i: int| 0 <= i < cand.len() implies (#[trigger] cand[i]).0
                                < z.len() && z[cand[i].0 as int] == (cand[i].1 == 1) by {
                                assert(raw.contains(cand[i]));
                                let q = choose|q: int| 0 <= q < raw.len() && raw[q] == cand[i];
                                assert(raw[q].0 < z.len());
                                assert(f[raw[q].0 as int] is None);
                            }
                        } else {
                            assert(raw =~= Seq::empty());
                            assert(cand =~= Seq::empty());
                        }
                    },
                    _ => {
                        assert forall|i: int| 0 <= i < cand.len() implies (#[trigger] cand[i]).0
                            < z.len() && z[cand[i].0 as int] == (cand[i].1 == 1) by {
                            assert(raw.contains(cand[i]));
                            let q = choose|q: int| 0 <= q < raw.len() && raw[q] == cand[i];
                            assert(raw[q].0 < z.len());
                        }
                        if rule == KernelizationRuleId::SpinCouplingReduction && V::tag()
                            == VarType::Bin {
                            assert(raw =~= Seq::empty());
                        }
                    },
                }
            }
            assert(kernelizer::all_free(cand, f));
            lemma_completed_safe(instance, config, &a, cand, z)
        },
    }
}

/// A run of kernelization keeps a completion at least as good as any `x` that
/// beats the incumbent: every `x` when only dominance, coupling and the gap
/// run, and every global minimiser when roof duality runs as well. Where flip
/// symmetry fixes representatives, their flip sets must hold no fixed variable.
pub proof fn kernelization_keeps_optimum<V: VarDomain>(
    instance: &HuboInstance<V>,
    config: KernelizationConfig,
    incumbent: Option<i64>,
    nodes: Seq<Node>,
    steps: Seq<KernelStep>,
    x: Seq<bool>,
) -> (y: Seq<bool>)
    requires
        rules::kernelizable(instance),
        kernelizer::is_run(instance, config, incumbent, nodes, steps),
        node::extends(x, nodes[0].fixed@),
        x.len() == instance.n(),
        incumbent matches Some(inc) ==> instance.objective(x) < inc,
        forall|k: int|
            0 <= k < steps.len() && (#[trigger] steps[k]).rule == Some(
                KernelizationRuleId::SflipSymmetry,
            ) ==> sflip::flips_are_free(
                instance.terms@,
                instance.n() as nat,
                nodes[k].fixed@,
            ),
        rules::enabled_rules(V::tag(), config).contains(KernelizationRuleId::RoofDuality)
            ==> is_minimiser(instance, x),
    ensures
        node::extends(y, nodes.last().fixed@),
        instance.objective(y) <= instance.objective(x),
{
    lemma_steps_keep(instance, config, incumbent, nodes, steps, x, steps.len())
}

proof fn lemma_steps_keep<V: VarDomain>(
    instance: &HuboInstance<V>,
    config: KernelizationConfig,
    incumbent: Option<i64>,
    nodes: Seq<Node>,
    steps: Seq<KernelStep>,
    x: Seq<bool>,
    k: nat,
) -> (y: Seq<bool>)
    requires
        rules::kernelizable(instance),
        kernelizer::is_run(instance, config, incumbent, nodes, steps),
        k <= steps.len(),
        node::extends(x, nodes[0].fixed@),
        x.len() == instance.n(),
        incumbent matches Some(inc) ==> instance.objective(x) < inc,
        forall|k: int|
            0 <= k < steps.len() && (#[trigger] steps[k]).rule == Some(
                KernelizationRuleId::SflipSymmetry,
            ) ==> sflip::flips_are_free(
                instance.terms@,
                instance.n() as nat,
                nodes[k].fixed@,
            ),
        rules::enabled_rules(V::tag(), config).contains(KernelizationRuleId::RoofDuality)
            ==> is_minimiser(instance, x),
    ensures
        node::extends(y, nodes[k as int].fixed@),
        y.len() == instance.n(),
        instance.objective(y) <= instance.objective(x),
    decreases k,
{
    if k == 0 {
        x
    } else {
        let z = lemma_steps_keep(instance, config, incumbent, nodes, steps, x, (k - 1) as nat);
        let step = steps[k - 1];
        assert(kernelizer::is_step(instance, config, incumbent, nodes[k - 1], nodes[k as int], step));
        if rules::enabled_rules(V::tag(), config).contains(KernelizationRuleId::RoofDuality) {
            assert forall|y: Seq<bool>| y.len() == instance.n() implies instance.objective(z)
                <= #[trigger] instance.objective(y) by {
                assert(instance.objective(x) <= instance.objective(y));
            }
        }
        lemma_step_keeps(
            instance,
            config,
            incumbent,
            nodes[k - 1],
            nodes[k as int],
            step,
            z,
        )
    }
}

} // verus!
