//! Running the kernelization rules to a fixed point.

use crate::bounds::cheap;
use crate::domain::{VarDomain, VarType};
use crate::fixes::Fixes;
use crate::fixes;
use crate::instance::HuboInstance;
use crate::kernelization::config::{KernelizationConfig, KernelizationReport, KernelizationRuleId};
use crate::kernelization::coupling::{ConditionalCoupling, ConditionalCouplingKind};
use crate::kernelization::coupling;
use crate::kernelization::dominance;
use crate::kernelization::error::KernelizationError;
use crate::kernelization::persistency;
use crate::kernelization::propagate;
use crate::kernelization::rules;
use crate::node::{Node, PartiallyAssignedTerm};
use crate::term;
use vstd::prelude::*;

verus! {

/// One round: the rule that fired, or none for the gap to the incumbent; its
/// candidates; and the fixes that were applied.
pub struct KernelStep {
    pub rule: Option<KernelizationRuleId>,
    pub candidates: Seq<(usize, i64)>,
    pub fixes: Seq<(usize, i64)>,
}

/// The conditional couplings that a round follows.
pub open spec fn couplings_at<V: VarDomain>(
    instance: &HuboInstance<V>,
    config: KernelizationConfig,
    node: &Node,
) -> Seq<ConditionalCoupling> {
    if V::tag() == VarType::Spin && config.enable_coupling_reduction {
        coupling::pair_scan(
            fixes::free_vars(node.fixed@),
            coupling::one_sided_coupling(coupling::active_items(node.term_status@), node.term_status@.len()),
            fixes::free_vars(node.fixed@).len(),
        )
    } else {
        Seq::empty()
    }
}

/// The candidates with what follows from them.
pub open spec fn completed(
    f: Seq<Option<bool>>,
    candidates: Seq<(usize, i64)>,
    pairs: Seq<ConditionalCoupling>,
) -> Seq<(usize, i64)> {
    if pairs.len() > 0 {
        propagate::propagated(f.len(), f, candidates, pairs)
    } else {
        candidates
    }
}

/// The rule has candidates at the node.
pub open spec fn has_candidates<V: VarDomain>(
    rule: KernelizationRuleId,
    instance: &HuboInstance<V>,
    node: &Node,
    candidates: Seq<(usize, i64)>,
) -> bool {
    exists|raw: Seq<(usize, i64)>| #[trigger]
        rules::proposes(rule, instance, node, raw) && candidates == rules::unfixed(raw, node.fixed@)
}

/// None of the first `p` rules fixes a free variable.
pub open spec fn all_idle<V: VarDomain>(
    rules: Seq<KernelizationRuleId>,
    instance: &HuboInstance<V>,
    node: &Node,
    p: int,
) -> bool {
    forall|q: int|
        0 <= q < p ==> has_candidates(#[trigger] rules[q], instance, node, Seq::empty())
}

/// The rule at place `p` fired.
pub open spec fn fired<V: VarDomain>(
    instance: &HuboInstance<V>,
    config: KernelizationConfig,
    node: &Node,
    step: KernelStep,
    p: int,
) -> bool {
    let rules = rules::enabled_rules(V::tag(), config);
    &&& 0 <= p < rules.len()
    &&& step.rule == Some(rules[p])
    &&& all_idle(rules, instance, node, p)
    &&& has_candidates(rules[p], instance, node, step.candidates)
    &&& step.candidates.len() > 0
    &&& step.fixes == completed(
        node.fixed@,
        step.candidates,
        couplings_at(instance, config, node),
    )
}

/// A round that leads from `a` to `b`: the first rule with candidates fires,
/// and when there is none the gap to the incumbent fixes variables.
pub open spec fn is_step<V: VarDomain>(
    instance: &HuboInstance<V>,
    config: KernelizationConfig,
    incumbent: Option<i64>,
    a: Node,
    b: Node,
    step: KernelStep,
) -> bool {
    &&& a.describes(instance)
    &&& b.describes(instance)
    &&& b.fixed@ == persistency::fixed_by(a.fixed@, step.fixes)
    &&& b.lb == a.lb
    &&& b.core_hint == a.core_hint
    &&& b.prices == a.prices
    &&& match step.rule {
        Some(rule) => exists|p: int| #[trigger] fired(instance, config, &a, step, p),
        None => {
            &&& all_idle(
                rules::enabled_rules(V::tag(), config),
                instance,
                &a,
                rules::enabled_rules(V::tag(), config).len() as int,
            )
            &&& incumbent is Some
            &&& !dominance::gap_closed(instance, &a, incumbent->0)
            &&& step.fixes == dominance::decided(
                fixes::free_vars(a.fixed@),
                dominance::gap_decision(instance, &a, incumbent->0),
            )
            &&& step.fixes.len() > 0
            &&& step.candidates == step.fixes
        },
    }
}

/// No rule has a candidate and the gap fixes nothing.
pub open spec fn is_stuck<V: VarDomain>(
    instance: &HuboInstance<V>,
    config: KernelizationConfig,
    incumbent: Option<i64>,
    a: Node,
) -> bool {
    &&& all_idle(
        rules::enabled_rules(V::tag(), config),
        instance,
        &a,
        rules::enabled_rules(V::tag(), config).len() as int,
    )
    &&& match incumbent {
        None => true,
        Some(inc) => dominance::gap_closed(instance, &a, inc) || dominance::decided(
            fixes::free_vars(a.fixed@),
            dominance::gap_decision(instance, &a, inc),
        ).len() == 0,
    }
}

/// The nodes and rounds of a run: at most the configured number of rounds, and
/// fewer only when the last node is stuck.
pub open spec fn is_run<V: VarDomain>(
    instance: &HuboInstance<V>,
    config: KernelizationConfig,
    incumbent: Option<i64>,
    nodes: Seq<Node>,
    steps: Seq<KernelStep>,
) -> bool {
    &&& nodes.len() == steps.len() + 1
    &&& steps.len() <= config.max_rounds
    &&& forall|k: int|
        0 <= k < steps.len() ==> is_step(
            instance,
            config,
            incumbent,
            nodes[k],
            nodes[k + 1],
            #[trigger] steps[k],
        )
    &&& steps.len() < config.max_rounds ==> is_stuck(instance, config, incumbent, nodes.last())
}

/// How many variables the rounds of one rule fixed.
pub open spec fn fixed_by_rule(
    steps: Seq<KernelStep>,
    rule: Option<KernelizationRuleId>,
) -> nat
    decreases steps.len(),
{
    if steps.len() == 0 {
        0
    } else {
        fixed_by_rule(steps.drop_last(), rule) + (if steps.last().rule == rule {
            steps.last().fixes.len()
        } else {
            0
        })
    }
}

/// How many variables the rounds fixed.
pub open spec fn fixed_in_all(steps: Seq<KernelStep>) -> nat
    decreases steps.len(),
{
    if steps.len() == 0 {
        0
    } else {
        fixed_in_all(steps.drop_last()) + steps.last().fixes.len()
    }
}

/// How many variables followed others.
pub open spec fn implied_in_all(steps: Seq<KernelStep>) -> nat
    decreases steps.len(),
{
    if steps.len() == 0 {
        0
    } else {
        implied_in_all(steps.drop_last()) + (if steps.last().fixes.len()
            > steps.last().candidates.len() {
            (steps.last().fixes.len() - steps.last().candidates.len()) as nat
        } else {
            0
        })
    }
}

/// The pairs that a round detects as coupled whatever the other variables are.
pub open spec fn uncoupled_at<V: VarDomain>(
    instance: &HuboInstance<V>,
    config: KernelizationConfig,
    node: &Node,
) -> Seq<(usize, usize, i64)> {
    if V::tag() == VarType::Spin && config.enable_coupling_reduction {
        coupling::greedy_pairs(
            fixes::free_vars(node.fixed@),
            coupling::uncoupled_sign(coupling::active_items(node.term_status@), node.term_status@.len()),
            fixes::free_vars(node.fixed@).len(),
        )
    } else {
        Seq::empty()
    }
}

/// The pairs that a round detects as frustrated.
pub open spec fn frustrated_at<V: VarDomain>(
    instance: &HuboInstance<V>,
    config: KernelizationConfig,
    node: &Node,
) -> Seq<(usize, usize)> {
    if V::tag() == VarType::Spin && config.enable_coupling_reduction {
        coupling::pair_scan(
            fixes::free_vars(node.fixed@),
            coupling::frustrated(coupling::active_items(node.term_status@), node.term_status@.len()),
            fixes::free_vars(node.fixed@).len(),
        )
    } else {
        Seq::empty()
    }
}

/// How many pairs the rounds at the first `k` nodes detected.
pub open spec fn detected_in_all(count: spec_fn(Node) -> nat, nodes: Seq<Node>, k: nat) -> nat
    decreases k,
{
    if k == 0 {
        0
    } else {
        detected_in_all(count, nodes, (k - 1) as nat) + count(nodes[k - 1])
    }
}

/// The numbers of pairs of each kind that the rounds at the first `k` nodes
/// detected.
pub open spec fn is_tally<V: VarDomain>(
    instance: &HuboInstance<V>,
    config: KernelizationConfig,
    nodes: Seq<Node>,
    k: nat,
    r: KernelizationReport,
) -> bool {
    &&& r.unconditional_coupling_pairs_detected == capped(
        detected_in_all(|n: Node| uncoupled_at(instance, config, &n).len(), nodes, k),
    )
    &&& r.conditional_coupling_pairs_detected == capped(
        detected_in_all(|n: Node| couplings_at(instance, config, &n).len(), nodes, k),
    )
    &&& r.frustrated_pairs_detected == capped(
        detected_in_all(|n: Node| frustrated_at(instance, config, &n).len(), nodes, k),
    )
}

/// How many terms are left.
pub open spec fn terms_left(s: Seq<Option<PartiallyAssignedTerm>>) -> nat
    decreases s.len(),
{
    if s.len() == 0 {
        0
    } else {
        terms_left(s.drop_last()) + (if s.last() is Some {
            1nat
        } else {
            0
        })
    }
}

/// The number as a machine number, capped at the greatest one.
pub open spec fn capped(n: nat) -> nat {
    if n <= usize::MAX {
        n
    } else {
        usize::MAX as nat
    }
}

/// The report of a run.
pub open spec fn is_report<V: VarDomain>(
    instance: &HuboInstance<V>,
    config: KernelizationConfig,
    nodes: Seq<Node>,
    steps: Seq<KernelStep>,
    r: KernelizationReport,
) -> bool {
    &&& r.initial_n_vars == instance.n() - fixes::fixed_count(nodes[0].fixed@)
    &&& r.final_n_vars == instance.n() - fixes::fixed_count(nodes.last().fixed@)
    &&& r.initial_n_terms == terms_left(nodes[0].term_status@)
    &&& r.final_n_terms == terms_left(nodes.last().term_status@)
    &&& r.rounds == steps.len()
    &&& r.externally_fixed == 0
    &&& r.rule_fixed == fixed_in_all(steps)
    &&& r.dominance_fixed == fixed_by_rule(steps, Some(KernelizationRuleId::Dominance))
    &&& r.lb_fixing_fixed == fixed_by_rule(steps, None)
    &&& r.roof_duality_fixed == fixed_by_rule(steps, Some(KernelizationRuleId::RoofDuality))
    &&& r.coupling_fixed == fixed_by_rule(
        steps,
        Some(KernelizationRuleId::SpinCouplingReduction),
    )
    &&& is_tally(
        instance,
        config,
        nodes,
        if steps.len() < config.max_rounds {
            steps.len() + 1
        } else {
            steps.len()
        },
        r,
    )
    &&& r.conditional_coupling_implied_fixed == implied_in_all(steps)
    &&& r.sflip_symmetry_fixed == fixed_by_rule(steps, Some(KernelizationRuleId::SflipSymmetry))
}

/// Runs the configured rules.
#[derive(Debug, Clone, Copy)]
pub struct Kernelizer {
    pub config: KernelizationConfig,
}

impl Default for Kernelizer {
    fn default() -> (r: Self)
        ensures
            r.config == (KernelizationConfig {
                enable_binary_dominance: true,
                enable_spin_dominance: true,
                enable_binary_roof_duality: true,
                enable_spin_roof_duality: true,
                remove_zero_coeff_terms: true,
                max_rounds: 32,
                enable_coupling_reduction: false,
                enable_sflip_symmetry: true,
            }),
    {
        Kernelizer::new(KernelizationConfig::default())
    }
}

/// The first rule with candidates, and they.
fn first_candidates<V: VarDomain>(
    rules: &Vec<KernelizationRuleId>,
    instance: &HuboInstance<V>,
    node: &Node,
) -> (r: Option<(usize, Vec<(usize, i64)>)>)
    requires
        rules::kernelizable(instance),
        node.describes(instance),
    ensures
        r is None ==> all_idle(rules@, instance, node, rules@.len() as int),
        r matches Some(e) ==> e.0 < rules@.len() && all_idle(rules@, instance, node, e.0 as int)
            && has_candidates(rules@[e.0 as int], instance, node, e.1@) && e.1@.len() > 0
            && rules::distinct_vars(e.1@) && rules::valid_entries(V::tag(), e.1@, instance.n() as nat) && all_free(
            e.1@,
            node.fixed@,
        ),
{
    let mut p: usize = 0;
    while p < rules.len()
        invariant
            p <= rules@.len(),
            rules::kernelizable(instance),
            node.describes(instance),
            all_idle(rules@, instance, node, p as int),
        decreases rules@.len() - p,
    {
        let raw = rules::apply_rule(rules[p], instance, node);
        let candidates = rules::keep_unfixed(&raw, &node.fixed);
        proof {
            rules::lemma_proposal(rules@[p as int], instance, node, raw@);
            rules::lemma_unfixed(V::tag(), raw@, node.fixed@, instance.n() as nat);
            assert(has_candidates(rules@[p as int], instance, node, candidates@));
        }
        if candidates.len() > 0 {
            return Some((p, candidates));
        }
        assert(candidates@ =~= Seq::empty());
        p += 1;
    }
    None
}

/// The listed variables are free.
pub open spec fn all_free(list: Seq<(usize, i64)>, f: Seq<Option<bool>>) -> bool {
    forall|i: int|
        0 <= i < list.len() ==> (#[trigger] list[i]).0 < f.len() && f[list[i].0 as int] is None
}

/// The same entries.
fn copy_entries(list: &Vec<(usize, i64)>) -> (r: Vec<(usize, i64)>)
    ensures
        r@ == list@,
{
    let mut r: Vec<(usize, i64)> = Vec::new();
    let mut k: usize = 0;
    while k < list.len()
        invariant
            k <= list@.len(),
            r@ == list@.take(k as int),
        decreases list@.len() - k,
    {
        r.push(list[k]);
        k += 1;
        assert(r@ =~= list@.take(k as int));
    }
    assert(r@ =~= list@);
    r
}

/// How many terms are left.
fn count_terms_left(s: &Vec<Option<PartiallyAssignedTerm>>) -> (r: usize)
    ensures
        r == terms_left(s@),
{
    let mut c: usize = 0;
    let mut k: usize = 0;
    assert(s@.take(0) =~= Seq::empty());
    while k < s.len()
        invariant
            k <= s@.len(),
            c <= k,
            c == terms_left(s@.take(k as int)),
        decreases s@.len() - k,
    {
        assert(s@.take(k + 1).drop_last() =~= s@.take(k as int));
        if s[k].is_some() {
            c += 1;
        }
        k += 1;
    }
    assert(s@.take(k as int) =~= s@);
    c
}

proof fn lemma_pair_row_entries(
    vars: Seq<usize>,
    parts: spec_fn(int) -> Option<(int, Seq<usize>)>,
    k: nat,
    a: int,
    b: int,
)
    requires
        0 <= a,
        b <= vars.len(),
    ensures
        forall|q: int|
            0 <= q < coupling::pair_row(vars, coupling::one_sided_coupling(parts, k), a, b).len() ==> is_entry(
                vars,
                parts,
                k,
                #[trigger] coupling::pair_row(vars, coupling::one_sided_coupling(parts, k), a, b)[q],
            ),
    decreases b - a,
{
    let cls = coupling::one_sided_coupling(parts, k);
    if b > a + 1 {
        lemma_pair_row_entries(vars, parts, k, a, b - 1);
        let r = coupling::pair_row(vars, cls, a, b);
        let p = coupling::pair_row(vars, cls, a, b - 1);
        assert forall|q: int| 0 <= q < r.len() implies is_entry(
            vars,
            parts,
            k,
            #[trigger] r[q],
        ) by {
            if q < p.len() {
                assert(r[q] == p[q]);
            } else {
                assert(vars.contains(vars[a]) && vars.contains(vars[b - 1]));
            }
        }
    }
}

/// The coupling is one of listed variables.
pub open spec fn is_entry(
    vars: Seq<usize>,
    parts: spec_fn(int) -> Option<(int, Seq<usize>)>,
    k: nat,
    c: ConditionalCoupling,
) -> bool {
    vars.contains(c.i) && vars.contains(c.j) && coupling::one_sided_coupling(parts, k)(c.i, c.j) == Some(c)
}

/// Every coupling found is one of listed variables.
pub proof fn lemma_pair_scan_entries(
    vars: Seq<usize>,
    parts: spec_fn(int) -> Option<(int, Seq<usize>)>,
    k: nat,
    m: nat,
)
    requires
        m <= vars.len(),
    ensures
        forall|q: int|
            0 <= q < coupling::pair_scan(vars, coupling::one_sided_coupling(parts, k), m).len() ==> is_entry(
                vars,
                parts,
                k,
                #[trigger] coupling::pair_scan(vars, coupling::one_sided_coupling(parts, k), m)[q],
            ),
    decreases m,
{
    let cls = coupling::one_sided_coupling(parts, k);
    if m > 0 {
        lemma_pair_scan_entries(vars, parts, k, (m - 1) as nat);
        lemma_pair_row_entries(vars, parts, k, m - 1, vars.len() as int);
        let a = coupling::pair_scan(vars, cls, (m - 1) as nat);
        let b = coupling::pair_row(vars, cls, m - 1, vars.len() as int);
        let r = coupling::pair_scan(vars, cls, m);
        assert forall|q: int| 0 <= q < r.len() implies is_entry(
            vars,
            parts,
            k,
            #[trigger] r[q],
        ) by {
            if q < a.len() {
                assert(r[q] == a[q]);
            } else {
                assert(r[q] == b[q - a.len()]);
            }
        }
    }
}

/// The known values are those of free variables.
pub open spec fn known_free(known: Seq<Option<i64>>, f: Seq<Option<bool>>) -> bool {
    known.len() == f.len() && forall|v: int|
        0 <= v < f.len() && (#[trigger] known[v]) is Some ==> f[v] is None
}

pub proof fn lemma_known_from(n: nat, list: Seq<(usize, i64)>, f: Seq<Option<bool>>)
    requires
        f.len() == n,
        all_free(list, f),
        rules::valid_entries(VarType::Spin, list, n),
    ensures
        known_free(propagate::known_from(n, list), f),
        propagate::signs(propagate::known_from(n, list)),
    decreases list.len(),
{
    if list.len() > 0 {
        let p = list.drop_last();
        assert forall|i: int| 0 <= i < p.len() implies (#[trigger] p[i]).0 < f.len()
            && f[p[i].0 as int] is None by {
            assert(p[i] == list[i]);
        }
        assert(rules::valid_entries(VarType::Spin, p, n)) by {
            assert forall|i: int| 0 <= i < p.len() implies (#[trigger] p[i]).0 < n && (p[i].1 == 1
                || p[i].1 == term::bit_value(VarType::Spin, false)) by {
                assert(p[i] == list[i]);
            }
        }
        lemma_known_from(n, p, f);
        let e = list[list.len() - 1];
    }
}

proof fn lemma_pass_free(
    known: Seq<Option<i64>>,
    f: Seq<Option<bool>>,
    pairs: Seq<ConditionalCoupling>,
    k: nat,
)
    requires
        known_free(known, f),
        propagate::signs(known),
        propagate::couplings_ok(pairs, f.len()),
        k <= pairs.len(),
    ensures
        known_free(propagate::follow_pass(known, f, pairs, k), f),
        propagate::signs(propagate::follow_pass(known, f, pairs, k)),
    decreases k,
{
    if k > 0 {
        lemma_pass_free(known, f, pairs, (k - 1) as nat);
        let a = propagate::follow_pass(known, f, pairs, (k - 1) as nat);
        let c = pairs[k - 1];
        propagate::lemma_follow_one(a, f, c, f.len());
    }
}

proof fn lemma_passes_free(
    known: Seq<Option<i64>>,
    f: Seq<Option<bool>>,
    pairs: Seq<ConditionalCoupling>,
    m: nat,
)
    requires
        known_free(known, f),
        propagate::signs(known),
        propagate::couplings_ok(pairs, f.len()),
    ensures
        known_free(propagate::follow_passes(known, f, pairs, m), f),
        propagate::signs(propagate::follow_passes(known, f, pairs, m)),
    decreases m,
{
    if m > 0 {
        lemma_passes_free(known, f, pairs, (m - 1) as nat);
        lemma_pass_free(
            propagate::follow_passes(known, f, pairs, (m - 1) as nat),
            f,
            pairs,
            pairs.len(),
        );
    }
}

proof fn lemma_known_list(known: Seq<Option<i64>>, f: Seq<Option<bool>>, k: nat)
    requires
        known_free(known, f),
        propagate::signs(known),
        k <= f.len(),
        f.len() <= usize::MAX,
    ensures
        rules::distinct_vars(propagate::known_list(known, k)),
        all_free(propagate::known_list(known, k), f),
        rules::valid_entries(VarType::Spin, propagate::known_list(known, k), f.len()),
        forall|i: int|
            0 <= i < propagate::known_list(known, k).len() ==> (#[trigger] propagate::known_list(known, k)[i]).0 < k,
    decreases k,
{
    if k > 0 {
        lemma_known_list(known, f, (k - 1) as nat);
        let p = propagate::known_list(known, (k - 1) as nat);
        let r = propagate::known_list(known, k);
        assert forall|i: int| 0 <= i < r.len() implies (#[trigger] r[i]).0 < k && r[i].0 < f.len()
            && f[r[i].0 as int] is None && (r[i].1 == 1 || r[i].1 == term::bit_value(
            VarType::Spin,
            false,
        )) by {
            if i < p.len() {
                assert(r[i] == p[i]);
            }
        }
        assert forall|i: int, j: int| 0 <= i < j < r.len() implies (#[trigger] r[i]).0 != (
        #[trigger] r[j]).0 by {
            assert(r[i] == p[i]);
            if j < p.len() {
                assert(r[j] == p[j]);
            }
        }
    }
}

/// The completed candidates are free variables, each named once.
pub proof fn lemma_completed<V: VarDomain>(
    instance: &HuboInstance<V>,
    config: KernelizationConfig,
    node: &Node,
    candidates: Seq<(usize, i64)>,
)
    requires
        rules::kernelizable(instance),
        node.describes(instance),
        rules::distinct_vars(candidates),
        rules::valid_entries(V::tag(), candidates, instance.n() as nat),
        all_free(candidates, node.fixed@),
    ensures
        propagate::couplings_ok(couplings_at(instance, config, node), instance.n() as nat),
        rules::distinct_vars(
            completed(node.fixed@, candidates, couplings_at(instance, config, node)),
        ),
        all_free(
            completed(node.fixed@, candidates, couplings_at(instance, config, node)),
            node.fixed@,
        ),
{
    let f = node.fixed@;
    let n = instance.n() as nat;
    let pairs = couplings_at(instance, config, node);
    fixes::lemma_free_vars(f);
    let parts = coupling::active_items(node.term_status@);
    let k = node.term_status@.len();
    lemma_pair_scan_entries(fixes::free_vars(f), parts, k, fixes::free_vars(f).len());
    assert forall|q: int| 0 <= q < pairs.len() implies (#[trigger] pairs[q]).i < n && pairs[q].j
        < n && (pairs[q].alpha == 1 || pairs[q].alpha == -1) by {
        assert(is_entry(fixes::free_vars(f), parts, k, pairs[q]));
    }
    if pairs.len() > 0 {
        lemma_known_from(n, candidates, f);
        lemma_passes_free(propagate::known_from(n, candidates), f, pairs, n);
        lemma_known_list(propagate::follow_passes(propagate::known_from(n, candidates), f, pairs, n), f, n);
    }
}

proof fn lemma_fixed_count_bound(f: Seq<Option<bool>>)
    ensures
        fixes::fixed_count(f) <= f.len(),
    decreases f.len(),
{
    if f.len() > 0 {
        lemma_fixed_count_bound(f.drop_last());
    }
}

/// The run so far: at most `done` rounds.
spec fn so_far<V: VarDomain>(
    instance: &HuboInstance<V>,
    config: KernelizationConfig,
    incumbent: Option<i64>,
    nodes: Seq<Node>,
    steps: Seq<KernelStep>,
) -> bool {
    &&& nodes.len() == steps.len() + 1
    &&& forall|k: int|
        0 <= k < steps.len() ==> is_step(
            instance,
            config,
            incumbent,
            nodes[k],
            nodes[k + 1],
            #[trigger] steps[k],
        )
}

/// The counters match the run so far.
spec fn counted(steps: Seq<KernelStep>, r: KernelizationReport) -> bool {
    &&& r.rounds == steps.len()
    &&& r.externally_fixed == 0
    &&& r.rule_fixed == fixed_in_all(steps)
    &&& r.dominance_fixed == fixed_by_rule(steps, Some(KernelizationRuleId::Dominance))
    &&& r.lb_fixing_fixed == fixed_by_rule(steps, None)
    &&& r.roof_duality_fixed == fixed_by_rule(steps, Some(KernelizationRuleId::RoofDuality))
    &&& r.coupling_fixed == fixed_by_rule(
        steps,
        Some(KernelizationRuleId::SpinCouplingReduction),
    )
    &&& r.conditional_coupling_implied_fixed == implied_in_all(steps)
    &&& r.sflip_symmetry_fixed == fixed_by_rule(steps, Some(KernelizationRuleId::SflipSymmetry))
}

proof fn lemma_rule_counts(steps: Seq<KernelStep>)
    ensures
        fixed_by_rule(steps, Some(KernelizationRuleId::Dominance)) <= fixed_in_all(steps),
        fixed_by_rule(steps, None) <= fixed_in_all(steps),
        fixed_by_rule(steps, Some(KernelizationRuleId::RoofDuality)) <= fixed_in_all(steps),
        fixed_by_rule(steps, Some(KernelizationRuleId::SpinCouplingReduction)) <= fixed_in_all(
            steps,
        ),
        fixed_by_rule(steps, Some(KernelizationRuleId::SflipSymmetry)) <= fixed_in_all(steps),
        implied_in_all(steps) <= fixed_in_all(steps),
    decreases steps.len(),
{
    if steps.len() > 0 {
        lemma_rule_counts(steps.drop_last());
    }
}

/// The numbers of detected pairs are the same.
spec fn same_tally(a: KernelizationReport, b: KernelizationReport) -> bool {
    &&& a.unconditional_coupling_pairs_detected == b.unconditional_coupling_pairs_detected
    &&& a.conditional_coupling_pairs_detected == b.conditional_coupling_pairs_detected
    &&& a.frustrated_pairs_detected == b.frustrated_pairs_detected
}

/// The sum of two counts, no larger than the greatest number.
fn add_capped(a: usize, b: usize) -> (r: usize)
    ensures
        r == capped((a + b) as nat),
{
    if a > usize::MAX - b {
        usize::MAX
    } else {
        a + b
    }
}

/// Detect the pairs of a round and count them; the conditional couplings.
fn detect_pairs<V: VarDomain>(
    r: &mut KernelizationReport,
    instance: &HuboInstance<V>,
    config: &KernelizationConfig,
    node: &Node,
    nodes: Ghost<Seq<Node>>,
    steps: Ghost<Seq<KernelStep>>,
) -> (pairs: Vec<ConditionalCoupling>)
    requires
        rules::kernelizable(instance),
        node.describes(instance),
        nodes@.len() > 0,
        nodes@.last() == *node,
        is_tally(instance, *config, nodes@, (nodes@.len() - 1) as nat, *old(r)),
        counted(steps@, *old(r)),
    ensures
        pairs@ == couplings_at(instance, *config, node),
        is_tally(instance, *config, nodes@, nodes@.len(), *final(r)),
        counted(steps@, *final(r)),
        final(r).initial_n_vars == old(r).initial_n_vars,
        final(r).initial_n_terms == old(r).initial_n_terms,
{
    let n_terms: usize = instance.terms.len();
    let mut pairs: Vec<ConditionalCoupling> = Vec::new();
    match V::var_type() {
        VarType::Bin => {},
        VarType::Spin => {
            if config.enable_coupling_reduction {
                proof {
                    cheap::lemma_bound_size(instance, node);
                }
                let coupled = coupling::detect_uncoupled_pairs_active(
                    instance,
                    node.term_status.as_slice(),
                    &node.fixed,
                );
                let frustrated = coupling::detect_frustrated_pairs_active(
                    instance,
                    node.term_status.as_slice(),
                    &node.fixed,
                );
                pairs =
                coupling::detect_conditionally_coupled_pairs_active(
                    instance,
                    node.term_status.as_slice(),
                    &node.fixed,
                );
                r.unconditional_coupling_pairs_detected = add_capped(
                    r.unconditional_coupling_pairs_detected,
                    coupled.len(),
                );
                r.conditional_coupling_pairs_detected = add_capped(
                    r.conditional_coupling_pairs_detected,
                    pairs.len(),
                );
                r.frustrated_pairs_detected = add_capped(
                    r.frustrated_pairs_detected,
                    frustrated.len(),
                );
            }
        },
    }
    assert(pairs@ =~= couplings_at(instance, *config, node));
    pairs
}

/// Count one round.
fn count_step(
    r: &mut KernelizationReport,
    rule: Option<KernelizationRuleId>,
    candidates: &Vec<(usize, i64)>,
    fixes: &Vec<(usize, i64)>,
    steps: Ghost<Seq<KernelStep>>,
)
    requires
        counted(steps@, *old(r)),
        steps@.len() < usize::MAX,
        fixed_in_all(steps@) + fixes@.len() <= usize::MAX,
        rule != Some(KernelizationRuleId::ExternalFixes),
    ensures
        counted(
            steps@.push(KernelStep { rule, candidates: candidates@, fixes: fixes@ }),
            *final(r),
        ),
        same_tally(*old(r), *final(r)),
        final(r).initial_n_vars == old(r).initial_n_vars,
        final(r).initial_n_terms == old(r).initial_n_terms,
{
    let k: usize = fixes.len();
    let c: usize = candidates.len();
    proof {
        lemma_rule_counts(steps@);
        let s = steps@.push(KernelStep { rule, candidates: candidates@, fixes: fixes@ });
        assert(s.drop_last() =~= steps@);
    }
    r.rounds = r.rounds + 1;
    r.rule_fixed = r.rule_fixed + k;
    if k > c {
        r.conditional_coupling_implied_fixed = r.conditional_coupling_implied_fixed + (k - c);
    }
    match rule {
        None => {
            r.lb_fixing_fixed = r.lb_fixing_fixed + k;
        },
        Some(KernelizationRuleId::Dominance) => {
            r.dominance_fixed = r.dominance_fixed + k;
        },
        Some(KernelizationRuleId::RoofDuality) => {
            r.roof_duality_fixed = r.roof_duality_fixed + k;
        },
        Some(KernelizationRuleId::SpinCouplingReduction) => {
            r.coupling_fixed = r.coupling_fixed + k;
        },
        Some(KernelizationRuleId::SflipSymmetry) => {
            r.sflip_symmetry_fixed = r.sflip_symmetry_fixed + k;
        },
        Some(KernelizationRuleId::ExternalFixes) => {},
    }
}

proof fn lemma_enabled(vt: VarType, c: KernelizationConfig)
    ensures
        forall|p: int|
            0 <= p < rules::enabled_rules(vt, c).len() ==> #[trigger] rules::enabled_rules(vt, c)[p]
                != KernelizationRuleId::ExternalFixes,
{
}

/// One more round.
proof fn lemma_extend<V: VarDomain>(
    instance: &HuboInstance<V>,
    config: KernelizationConfig,
    incumbent: Option<i64>,
    nodes: Seq<Node>,
    steps: Seq<KernelStep>,
    b: Node,
    step: KernelStep,
)
    requires
        so_far(instance, config, incumbent, nodes, steps),
        is_step(instance, config, incumbent, nodes.last(), b, step),
    ensures
        so_far(instance, config, incumbent, nodes.push(b), steps.push(step)),
        fixed_in_all(steps.push(step)) == fixed_in_all(steps) + step.fixes.len(),
        forall|r: KernelizationReport| #[trigger]
            is_tally(instance, config, nodes.push(b), nodes.len(), r) == is_tally(
                instance,
                config,
                nodes,
                nodes.len(),
                r,
            ),
{
    let n2 = nodes.push(b);
    let s2 = steps.push(step);
    assert(s2.drop_last() =~= steps);
    assert forall|k: int| 0 <= k < s2.len() implies is_step(
        instance,
        config,
        incumbent,
        n2[k],
        n2[k + 1],
        #[trigger] s2[k],
    ) by {
        if k < steps.len() {
            assert(s2[k] == steps[k]);
        }
    }
    lemma_detected_same(|n: Node| uncoupled_at(instance, config, &n).len(), nodes, b, nodes.len());
    lemma_detected_same(|n: Node| couplings_at(instance, config, &n).len(), nodes, b, nodes.len());
    lemma_detected_same(|n: Node| frustrated_at(instance, config, &n).len(), nodes, b, nodes.len());
}

proof fn lemma_detected_same(count: spec_fn(Node) -> nat, nodes: Seq<Node>, b: Node, k: nat)
    requires
        k <= nodes.len(),
    ensures
        detected_in_all(count, nodes.push(b), k) == detected_in_all(count, nodes, k),
    decreases k,
{
    if k > 0 {
        lemma_detected_same(count, nodes, b, (k - 1) as nat);
    }
}

impl Kernelizer {
    /// A kernelizer with the given rules.
    pub fn new(config: KernelizationConfig) -> (r: Self)
        ensures
            r.config == config,
    {
        Kernelizer { config }
    }

    /// Fix variables of a node by the configured rules, round by round, until
    /// nothing is left to fix or the rounds are used up.
    #[verifier::rlimit(60)]
    pub fn kernelize<V: VarDomain>(
        &self,
        instance: &HuboInstance<V>,
        node: &mut Node,
        incumbent: Option<i64>,
    ) -> (r: Result<KernelizationReport, KernelizationError>)
        requires
            rules::kernelizable(instance),
            old(node).describes(instance),
        ensures
            final(node).describes(instance),
            r is Ok,
            r matches Ok(report) ==> exists|nodes: Seq<Node>, steps: Seq<KernelStep>|
                #[trigger] is_run(instance, self.config, incumbent, nodes, steps) && nodes[0]
                    == *old(node) && is_report(instance, self.config, nodes, steps, report)
                    && final(node).fixed == nodes.last().fixed && final(node).term_status
                    == nodes.last().term_status && final(node).offset == nodes.last().offset
                    && final(node).core_hint == old(node).core_hint && final(node).prices == old(
                    node,
                ).prices && final(node).lb == (
                if steps.len() < self.config.max_rounds && incumbent is Some && dominance::gap_closed(
                    instance,
                    &nodes.last(),
                    incumbent->0,
                ) {
                    i64::MAX
                } else {
                    old(node).lb
                }),
    {
        let vt = V::var_type();
        let config = self.config;
        let n: usize = instance.n_vars();
        let n_terms: usize = instance.terms.len();
        let rules = rules::list_rules(vt, &config);
        let mut report = KernelizationReport::default();
        report.initial_n_vars = node.fixed.num_free();
        report.initial_n_terms = count_terms_left(&node.term_status);
        let ghost mut nodes: Seq<Node> = seq![*node];
        let ghost mut steps: Seq<KernelStep> = Seq::empty();
        let ghost entry = *node;
        let mut round: usize = 0;
        let mut stopped: bool = false;
        let mut infeasible: bool = false;
        proof {
            lemma_enabled(vt, config);
            lemma_fixed_count_bound(node.fixed@);
        }
        while round < config.max_rounds && !stopped
            invariant
                rules::kernelizable(instance),
                node.describes(instance),
                vt == V::tag(),
                config == self.config,
                n == instance.n(),
                rules@ == rules::enabled_rules(vt, config),
                forall|p: int|
                    0 <= p < rules@.len() ==> #[trigger] rules@[p]
                        != KernelizationRuleId::ExternalFixes,
                so_far(instance, config, incumbent, nodes, steps),
                nodes[0] == entry,
                nodes.last() == *node,
                node.core_hint == entry.core_hint,
                node.prices == entry.prices,
                node.lb == entry.lb,
                counted(steps, report),
                fixes::fixed_count(entry.fixed@) + fixed_in_all(steps) == fixes::fixed_count(node.fixed@),
                report.initial_n_vars == n - fixes::fixed_count(entry.fixed@),
                report.initial_n_terms == terms_left(entry.term_status@),
                round <= config.max_rounds,
                !stopped ==> round == steps.len(),
                stopped ==> round == steps.len() + 1 && is_stuck(
                    instance,
                    config,
                    incumbent,
                    *node,
                ),
                infeasible ==> stopped,
                stopped ==> infeasible == (incumbent is Some && dominance::gap_closed(
                    instance,
                    node,
                    incumbent->0,
                )),
                is_tally(instance, config, nodes, round as nat, report),
            decreases config.max_rounds - round,
        {
            let ghost before = *node;
            let pairs = detect_pairs(
                &mut report,
                instance,
                &config,
                node,
                Ghost(nodes),
                Ghost(steps),
            );
            let found = first_candidates(&rules, instance, node);
            let mut applied: bool = false;
            match found {
                Some((p, candidates)) => {
                    proof {
                        lemma_completed(instance, config, node, candidates@);
                    }
                    let fixes = if pairs.len() > 0 {
                        propagate::propagate(&node.fixed, &candidates, &pairs)
                    } else {
                        copy_entries(&candidates)
                    };
                    proof {
                        assert(fixes@ =~= completed(node.fixed@, candidates@, pairs@));
                        rules::lemma_steps_ok(node.fixed@, fixes@);
                    }
                    let done = rules::apply_fixes(instance, node, &fixes);
                    match done {
                        Ok(_) => {},
                        Err(e) => {
                            return Err(e);
                        },
                    }
                    let ghost step = KernelStep {
                        rule: Some(rules@[p as int]),
                        candidates: candidates@,
                        fixes: fixes@,
                    };
                    proof {
                        lemma_fixed_count_bound(node.fixed@);
                        assert(fired(instance, config, &before, step, p as int));
                        assert(is_step(instance, config, incumbent, before, *node, step));
                        lemma_extend(instance, config, incumbent, nodes, steps, *node, step);
                    }
                    count_step(
                        &mut report,
                        Some(rules[p]),
                        &candidates,
                        &fixes,
                        Ghost(steps),
                    );
                    proof {
                        nodes = nodes.push(*node);
                        steps = steps.push(step);
                    }
                    applied = true;
                },
                None => {
                    if let Some(inc) = incumbent {
                        match dominance::lb_fixing(instance, node, inc) {
                            None => {
                                infeasible = true;
                            },
                            Some(fixes) => {
                                if fixes.len() > 0 {
                                    proof {
                                        lemma_gap_list(instance, node, inc, fixes@);
                                        rules::lemma_steps_ok(node.fixed@, fixes@);
                                    }
                                    let done = rules::apply_fixes(instance, node, &fixes);
                                    match done {
                                        Ok(_) => {},
                                        Err(e) => {
                                            return Err(e);
                                        },
                                    }
                                    let ghost step = KernelStep {
                                        rule: None,
                                        candidates: fixes@,
                                        fixes: fixes@,
                                    };
                                    proof {
                                        lemma_fixed_count_bound(node.fixed@);
                                        assert(is_step(
                                            instance,
                                            config,
                                            incumbent,
                                            before,
                                            *node,
                                            step,
                                        ));
                                        lemma_extend(
                                            instance,
                                            config,
                                            incumbent,
                                            nodes,
                                            steps,
                                            *node,
                                            step,
                                        );
                                    }
                                    count_step(&mut report, None, &fixes, &fixes, Ghost(steps));
                                    proof {
                                        nodes = nodes.push(*node);
                                        steps = steps.push(step);
                                    }
                                    applied = true;
                                }
                            },
                        }
                    }
                },
            }
            if !applied {
                stopped = true;
            }
            round += 1;
        }
        let ghost last = *node;
        if infeasible {
            node.lb = i64::MAX;
        }
        report.final_n_vars = node.fixed.num_free();
        report.final_n_terms = count_terms_left(&node.term_status);
        proof {
            assert(is_run(instance, config, incumbent, nodes, steps));
            assert(is_report(instance, config, nodes, steps, report));
        }
        Ok(report)
    }
}

/// The gap fixes free variables, each once.
pub proof fn lemma_gap_list<V: VarDomain>(
    instance: &HuboInstance<V>,
    node: &Node,
    inc: i64,
    list: Seq<(usize, i64)>,
)
    requires
        rules::kernelizable(instance),
        node.describes(instance),
        list == dominance::decided(fixes::free_vars(node.fixed@), dominance::gap_decision(instance, node, inc)),
    ensures
        rules::distinct_vars(list),
        all_free(list, node.fixed@),
{
    let f = node.fixed@;
    fixes::lemma_free_vars(f);
    let d = dominance::gap_decision(instance, node, inc);
    rules::lemma_decided_distinct(fixes::free_vars(f), d);
    persistency::lemma_decided(fixes::free_vars(f), d);
    assert forall|i: int| 0 <= i < list.len() implies (#[trigger] list[i]).0 < f.len()
        && f[list[i].0 as int] is None by {
        assert(fixes::free_vars(f).contains(list[i].0));
    }
}

} // verus!
