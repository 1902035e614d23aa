//! What is left when kernelization and propagation stop by themselves.

use crate::bounds::cheap;
use crate::domain::{VarDomain, VarType};
use crate::fixes;
use crate::instance::HuboInstance;
use crate::kernelization::config::{KernelizationConfig, KernelizationRuleId};
use crate::kernelization::coupling::{ConditionalCoupling, ConditionalCouplingKind};
use crate::kernelization::coupling;
use crate::kernelization::coupling_laws;
use crate::kernelization::dominance;
use crate::kernelization::dominance_laws;
use crate::kernelization::gap_laws;
use crate::kernelization::kernelizer::KernelStep;
use crate::kernelization::kernelizer;
use crate::kernelization::orbit_laws;
use crate::kernelization::pair_laws;
use crate::kernelization::propagate;
use crate::kernelization::roof_laws;
use crate::kernelization::rules;
use crate::node::Node;
use vstd::prelude::*;

verus! {

/// The member of a coupling that is assigned first.
pub open spec fn leader(c: ConditionalCoupling) -> usize {
    match c.kind {
        ConditionalCouplingKind::JGivenI => c.i,
        ConditionalCouplingKind::IGivenJ => c.j,
    }
}

/// The member of a coupling that follows.
pub open spec fn follower(c: ConditionalCoupling) -> usize {
    match c.kind {
        ConditionalCouplingKind::JGivenI => c.j,
        ConditionalCouplingKind::IGivenJ => c.i,
    }
}

/// The list has an entry for the variable.
pub open spec fn names(list: Seq<(usize, i64)>, v: usize) -> bool {
    exists|i: int| 0 <= i < list.len() && (#[trigger] list[i]).0 == v
}

/// The first values are among the second.
spec fn grows(a: Seq<Option<i64>>, b: Seq<Option<i64>>) -> bool {
    a.len() == b.len() && forall|v: int|
        0 <= v < a.len() && (#[trigger] a[v]) is Some ==> b[v] == a[v]
}

/// Every value beyond those of `start` follows from another one.
spec fn is_founded(
    start: Seq<Option<i64>>,
    f: Seq<Option<bool>>,
    pairs: Seq<ConditionalCoupling>,
    known: Seq<Option<i64>>,
) -> bool {
    forall|v: usize|
        v < known.len() && known[v as int] is Some && start[v as int] is None ==> #[trigger] follows(
            f,
            pairs,
            known,
            v,
        )
}

/// Some coupling gives the value of `v`.
spec fn follows(
    f: Seq<Option<bool>>,
    pairs: Seq<ConditionalCoupling>,
    known: Seq<Option<i64>>,
    v: usize,
) -> bool {
    f[v as int] is None && exists|q: int|
        0 <= q < pairs.len() && follower(#[trigger] pairs[q]) == v && known[leader(
            pairs[q],
        ) as int] is Some && known[v as int] == Some(
            (pairs[q].alpha * known[leader(pairs[q]) as int]->0) as i64,
        )
}

proof fn lemma_follows_grows(
    f: Seq<Option<bool>>,
    pairs: Seq<ConditionalCoupling>,
    a: Seq<Option<i64>>,
    b: Seq<Option<i64>>,
    v: usize,
)
    requires
        propagate::couplings_ok(pairs, a.len()),
        grows(a, b),
        v < a.len(),
        a[v as int] is Some,
        follows(f, pairs, a, v),
    ensures
        follows(f, pairs, b, v),
{
    let q = choose|q: int|
        0 <= q < pairs.len() && follower(#[trigger] pairs[q]) == v && a[leader(
            pairs[q],
        ) as int] is Some && a[v as int] == Some(
            (pairs[q].alpha * a[leader(pairs[q]) as int]->0) as i64,
        );
    assert(pairs[q].i < a.len() && pairs[q].j < a.len());
    assert(b[leader(pairs[q]) as int] == a[leader(pairs[q]) as int]);
    assert(b[v as int] == a[v as int]);
    assert(follower(pairs[q]) == v);
}

proof fn lemma_pass(
    start: Seq<Option<i64>>,
    known: Seq<Option<i64>>,
    f: Seq<Option<bool>>,
    pairs: Seq<ConditionalCoupling>,
    k: nat,
)
    requires
        k <= pairs.len(),
        propagate::couplings_ok(pairs, known.len()),
        propagate::signs(known),
        start.len() == known.len(),
        f.len() == known.len(),
        is_founded(start, f, pairs, known),
    ensures
        grows(known, propagate::follow_pass(known, f, pairs, k)),
        propagate::signs(propagate::follow_pass(known, f, pairs, k)),
        is_founded(start, f, pairs, propagate::follow_pass(known, f, pairs, k)),
        forall|q: int|
            0 <= q < k && known[leader(#[trigger] pairs[q]) as int] is Some && f[follower(
                pairs[q],
            ) as int] is None ==> propagate::follow_pass(known, f, pairs, k)[follower(
                pairs[q],
            ) as int] is Some,
    decreases k,
{
    if k > 0 {
        lemma_pass(start, known, f, pairs, (k - 1) as nat);
        let a = propagate::follow_pass(known, f, pairs, (k - 1) as nat);
        let b = propagate::follow_pass(known, f, pairs, k);
        let c = pairs[k - 1];
        assert(c.i < known.len() && c.j < known.len());
        propagate::lemma_follow_one(a, f, c, known.len());
        assert(grows(a, b));
        assert(grows(known, b)) by {
            assert forall|v: int| 0 <= v < known.len() && (#[trigger] known[v]) is Some implies b[v]
                == known[v] by {
                assert(a[v] == known[v]);
            }
        }
        assert forall|v: usize|
            v < b.len() && b[v as int] is Some && start[v as int] is None implies #[trigger] follows(
            f,
            pairs,
            b,
            v,
        ) by {
            if a[v as int] is Some {
                assert(follows(f, pairs, a, v));
                lemma_follows_grows(f, pairs, a, b, v);
            } else {
                assert(follower(pairs[k - 1]) == v);
            }
        }
        assert forall|q: int|
            0 <= q < k && known[leader(#[trigger] pairs[q]) as int] is Some && f[follower(
                pairs[q],
            ) as int] is None implies b[follower(pairs[q]) as int] is Some by {
            assert(pairs[q].i < known.len() && pairs[q].j < known.len());
            if q < k - 1 {
                assert(a[follower(pairs[q]) as int] is Some);
            } else {
                assert(a[leader(c) as int] is Some);
            }
        }
    } else {
        assert(grows(known, known));
    }
}

proof fn lemma_count_grows(a: Seq<Option<i64>>, b: Seq<Option<i64>>, k: nat)
    requires
        grows(a, b),
        k <= a.len(),
    ensures
        propagate::count_known(a, k) <= propagate::count_known(b, k),
        a.take(k as int) != b.take(k as int) ==> propagate::count_known(a, k)
            < propagate::count_known(b, k),
    decreases k,
{
    if k > 0 {
        lemma_count_grows(a, b, (k - 1) as nat);
        if a.take(k - 1) == b.take(k - 1) && a[k - 1] == b[k - 1] {
            assert(a.take(k as int) =~= a.take(k - 1).push(a[k - 1]));
            assert(b.take(k as int) =~= b.take(k - 1).push(b[k - 1]));
        }
    } else {
        assert(a.take(0) =~= b.take(0));
    }
}

proof fn lemma_all_known(a: Seq<Option<i64>>, k: nat, v: int)
    requires
        k <= a.len(),
        propagate::count_known(a, k) >= k,
        0 <= v < k,
    ensures
        a[v] is Some,
    decreases k,
{
    propagate::lemma_count_bound(a, (k - 1) as nat);
    if v < k - 1 {
        lemma_all_known(a, (k - 1) as nat, v);
    }
}

proof fn lemma_passes(
    start: Seq<Option<i64>>,
    f: Seq<Option<bool>>,
    pairs: Seq<ConditionalCoupling>,
    m: nat,
)
    requires
        propagate::couplings_ok(pairs, start.len()),
        propagate::signs(start),
        f.len() == start.len(),
    ensures
        ({
            let known = propagate::follow_passes(start, f, pairs, m);
            &&& grows(start, known)
            &&& propagate::signs(known)
            &&& is_founded(start, f, pairs, known)
            &&& propagate::count_known(known, start.len()) >= m || propagate::follow_passes(
                start,
                f,
                pairs,
                m + 1,
            ) == known
        }),
    decreases m,
{
    let n = start.len();
    let known = propagate::follow_passes(start, f, pairs, m);
    if m > 0 {
        let before = propagate::follow_passes(start, f, pairs, (m - 1) as nat);
        lemma_passes(start, f, pairs, (m - 1) as nat);
        lemma_pass(start, before, f, pairs, pairs.len());
        assert(grows(start, known)) by {
            assert forall|v: int| 0 <= v < n && (#[trigger] start[v]) is Some implies known[v]
                == start[v] by {
                assert(before[v] == start[v]);
            }
        }
        lemma_count_grows(before, known, n);
        assert(before.take(n as int) =~= before);
        assert(known.take(n as int) =~= known);
        if before == known {
            propagate::lemma_passes_stable(start, f, pairs, (m - 1) as nat, m + 1);
        }
    } else {
        assert(known == start);
    }
}

proof fn lemma_known_list(known: Seq<Option<i64>>, k: nat, v: usize, c: i64)
    requires
        k <= known.len() <= usize::MAX,
    ensures
        propagate::known_list(known, k).contains((v, c)) == (v < k && known[v as int] == Some(c)),
        forall|i: int|
            0 <= i < propagate::known_list(known, k).len() ==> (#[trigger] propagate::known_list(
                known,
                k,
            )[i]).0 < k,
        forall|i: int, j: int|
            0 <= i < j < propagate::known_list(known, k).len() ==> (#[trigger] propagate::known_list(
                known,
                k,
            )[i]).0 < (#[trigger] propagate::known_list(known, k)[j]).0,
    decreases k,
{
    let r = propagate::known_list(known, k);
    if k > 0 {
        lemma_known_list(known, (k - 1) as nat, v, c);
        let p = propagate::known_list(known, (k - 1) as nat);
        if p.contains((v, c)) {
            let i = p.index_of((v, c));
            assert(r[i] == (v, c));
        }
        if v == k - 1 && known[v as int] == Some(c) {
            assert(r[p.len() as int] == (v, c));
        }
        if r.contains((v, c)) {
            let i = r.index_of((v, c));
            if i < p.len() {
                assert(p[i] == (v, c));
            }
        }
    }
}

proof fn lemma_known_from(n: nat, list: Seq<(usize, i64)>, v: usize)
    requires
        forall|q: int| 0 <= q < list.len() ==> (#[trigger] list[q]).0 < n && (list[q].1 == 1
            || list[q].1 == -1),
        v < n,
    ensures
        propagate::known_from(n, list).len() == n,
        propagate::signs(propagate::known_from(n, list)),
        propagate::known_from(n, list)[v as int] is Some == names(list, v),
        rules::distinct_vars(list) ==> forall|q: int|
            0 <= q < list.len() && (#[trigger] list[q]).0 == v ==> propagate::known_from(
                n,
                list,
            )[v as int] == Some(list[q].1),
    decreases list.len(),
{
    if list.len() > 0 {
        let p = list.drop_last();
        assert forall|q: int| 0 <= q < p.len() implies (#[trigger] p[q]).0 < n && (p[q].1 == 1
            || p[q].1 == -1) by {
            assert(list[q] == p[q]);
        }
        lemma_known_from(n, p, v);
        assert(list[list.len() - 1].0 < n);
        if names(p, v) {
            let i = choose|i: int| 0 <= i < p.len() && (#[trigger] p[i]).0 == v;
            assert(list[i].0 == v);
        }
        if names(list, v) && list.last().0 != v {
            let i = choose|i: int| 0 <= i < list.len() && (#[trigger] list[i]).0 == v;
            assert(p[i].0 == v);
        }
        if rules::distinct_vars(list) {
            assert(rules::distinct_vars(p)) by {
                assert forall|i: int, j: int| 0 <= i < j < p.len() implies (#[trigger] p[i]).0 != (
                #[trigger] p[j]).0 by {
                    assert(list[i].0 != list[j].0);
                }
            }
            assert forall|q: int| 0 <= q < list.len() && (#[trigger] list[q]).0 == v implies propagate::known_from(
                n,
                list,
            )[v as int] == Some(list[q].1) by {
                if q < p.len() {
                    assert(p[q].0 == v);
                    assert(list[q].0 != list[list.len() - 1].0);
                }
            }
        }
    }
}

/// What follows from a list of fixes: the list itself; with a coupling's leader also
/// its follower, unless that is fixed already; and nothing that does not follow, each
/// value being the leader's times the coupling's sign. The result is ascending.
pub proof fn propagation_is_closed_and_least(
    f: Seq<Option<bool>>,
    list: Seq<(usize, i64)>,
    pairs: Seq<ConditionalCoupling>,
)
    requires
        f.len() <= usize::MAX,
        forall|q: int|
            0 <= q < list.len() ==> (#[trigger] list[q]).0 < f.len() && (list[q].1 == 1
                || list[q].1 == -1),
        rules::distinct_vars(list),
        propagate::couplings_ok(pairs, f.len()),
    ensures
        ({
            let r = propagate::propagated(f.len(), f, list, pairs);
            &&& forall|q: int| 0 <= q < list.len() ==> r.contains(#[trigger] list[q])
            &&& forall|q: int|
                0 <= q < pairs.len() && names(r, leader(#[trigger] pairs[q])) && f[follower(
                    pairs[q],
                ) as int] is None ==> names(r, follower(pairs[q]))
            &&& forall|i: int|
                0 <= i < r.len() && !names(list, (#[trigger] r[i]).0) ==> is_implied(
                    f,
                    pairs,
                    r,
                    r[i],
                )
            &&& forall|i: int, j: int|
                0 <= i < j < r.len() ==> (#[trigger] r[i]).0 < (#[trigger] r[j]).0
        }),
{
    let n = f.len();
    let start = propagate::known_from(n, list);
    let r = propagate::propagated(n, f, list, pairs);
    let known = propagate::follow_passes(start, f, pairs, n);
    if n == 0 {
        assert(r.len() == 0);
        if list.len() > 0 {
            assert(list[0].0 < n);
        }
        if pairs.len() > 0 {
            assert(pairs[0].i < n);
        }
    } else {
        lemma_known_from(n, list, 0);
        lemma_passes(start, f, pairs, n);
        lemma_known_list(known, n, 0, 0);
        assert forall|v: usize| v < n implies #[trigger] names(r, v) == known[v as int] is Some by {
            if known[v as int] is Some {
                lemma_known_list(known, n, v, known[v as int]->0);
                let i = r.index_of((v, known[v as int]->0));
                assert(r[i].0 == v);
            }
            if names(r, v) {
                let i = choose|i: int| 0 <= i < r.len() && (#[trigger] r[i]).0 == v;
                lemma_known_list(known, n, v, r[i].1);
                assert(r.contains((v, r[i].1)));
            }
        }
        assert forall|q: int| 0 <= q < list.len() implies r.contains(#[trigger] list[q]) by {
            let (v, c) = list[q];
            lemma_known_from(n, list, v);
            lemma_known_list(known, n, v, c);
            assert(known[v as int] == start[v as int]);
        }
        assert forall|q: int|
            0 <= q < pairs.len() && names(r, leader(#[trigger] pairs[q])) && f[follower(
                pairs[q],
            ) as int] is None implies names(r, follower(pairs[q])) by {
            assert(pairs[q].i < n && pairs[q].j < n);
            lemma_fixed_point(start, f, pairs, q);
        }
        assert forall|i: int| 0 <= i < r.len() && !names(list, (#[trigger] r[i]).0) implies is_implied(
            f,
            pairs,
            r,
            r[i],
        ) by {
            let (v, c) = r[i];
            assert(r.contains((v, c)));
            lemma_known_list(known, n, v, c);
            lemma_known_from(n, list, v);
            assert(follows(f, pairs, known, v));
            let q = choose|q: int|
                0 <= q < pairs.len() && follower(#[trigger] pairs[q]) == v && known[leader(
                    pairs[q],
                ) as int] is Some && known[v as int] == Some(
                    (pairs[q].alpha * known[leader(pairs[q]) as int]->0) as i64,
                );
            assert(pairs[q].i < n && pairs[q].j < n);
            let l = leader(pairs[q]);
            let d = known[l as int]->0;
            lemma_known_list(known, n, l, d);
            propagate::lemma_sign_product(pairs[q].alpha, d);
            assert(r.contains((l, d)));
            assert(is_from(pairs[q], r, r[i], d));
        }
    }
}

/// The value of an entry is the leader's value times the sign of a coupling.
pub open spec fn is_from(
    c: ConditionalCoupling,
    r: Seq<(usize, i64)>,
    e: (usize, i64),
    d: i64,
) -> bool {
    follower(c) == e.0 && r.contains((leader(c), d)) && e.1 == c.alpha * d
}

/// Some coupling gives the entry.
pub open spec fn is_implied(
    f: Seq<Option<bool>>,
    pairs: Seq<ConditionalCoupling>,
    r: Seq<(usize, i64)>,
    e: (usize, i64),
) -> bool {
    f[e.0 as int] is None && exists|q: int, d: i64|
        0 <= q < pairs.len() && (d == 1 || d == -1) && #[trigger] is_from(pairs[q], r, e, d)
}

proof fn lemma_fixed_point(
    start: Seq<Option<i64>>,
    f: Seq<Option<bool>>,
    pairs: Seq<ConditionalCoupling>,
    q: int,
)
    requires
        propagate::couplings_ok(pairs, start.len()),
        propagate::signs(start),
        f.len() == start.len(),
        0 <= q < pairs.len(),
        f[follower(pairs[q]) as int] is None,
        propagate::follow_passes(start, f, pairs, start.len())[leader(pairs[q]) as int] is Some,
    ensures
        propagate::follow_passes(start, f, pairs, start.len())[follower(pairs[q]) as int] is Some,
{
    let n = start.len();
    let known = propagate::follow_passes(start, f, pairs, n);
    lemma_passes(start, f, pairs, n);
    assert(pairs[q].i < n && pairs[q].j < n);
    if propagate::count_known(known, n) >= n {
        lemma_all_known(known, n, follower(pairs[q]) as int);
    } else {
        lemma_pass(start, known, f, pairs, pairs.len());
    }
}

/// A rule runs exactly where it is switched on in the domain, and once.
pub proof fn enabled_rules_are_switched_on(c: KernelizationConfig)
    ensures
        ({
            let r = rules::enabled_rules(VarType::Bin, c);
            &&& r.contains(KernelizationRuleId::Dominance) == c.enable_binary_dominance
            &&& r.contains(KernelizationRuleId::RoofDuality) == c.enable_binary_roof_duality
            &&& !r.contains(KernelizationRuleId::SpinCouplingReduction)
            &&& !r.contains(KernelizationRuleId::SflipSymmetry)
            &&& !r.contains(KernelizationRuleId::ExternalFixes)
            &&& r.no_duplicates()
        }),
        ({
            let r = rules::enabled_rules(VarType::Spin, c);
            &&& r.contains(KernelizationRuleId::Dominance) == c.enable_spin_dominance
            &&& r.contains(KernelizationRuleId::RoofDuality) == c.enable_spin_roof_duality
            &&& r.contains(KernelizationRuleId::SpinCouplingReduction)
                == c.enable_coupling_reduction
            &&& r.contains(KernelizationRuleId::SflipSymmetry) == c.enable_sflip_symmetry
            &&& !r.contains(KernelizationRuleId::ExternalFixes)
            &&& r.no_duplicates()
        }),
{
    let a = rules::enabled_rules(VarType::Bin, c);
    assert(c.enable_binary_dominance ==> a[0] == KernelizationRuleId::Dominance);
    assert(c.enable_binary_roof_duality ==> a[a.len() - 1] == KernelizationRuleId::RoofDuality);
    let r = rules::enabled_rules(VarType::Spin, c);
    let p: int = if c.enable_coupling_reduction {
        1
    } else {
        0
    };
    let q: int = if c.enable_spin_dominance {
        p + 1
    } else {
        p
    };
    let t: int = if c.enable_spin_roof_duality {
        q + 1
    } else {
        q
    };
    assert(c.enable_coupling_reduction ==> r[0] == KernelizationRuleId::SpinCouplingReduction);
    assert(c.enable_spin_dominance ==> r[p] == KernelizationRuleId::Dominance);
    assert(c.enable_spin_roof_duality ==> r[q] == KernelizationRuleId::RoofDuality);
    assert(c.enable_sflip_symmetry ==> r[t] == KernelizationRuleId::SflipSymmetry);
}

proof fn lemma_unfixed(list: Seq<(usize, i64)>, f: Seq<Option<bool>>, e: (usize, i64))
    requires
        rules::unfixed(list, f).len() == 0,
        list.contains(e),
    ensures
        fixes::fixed_at(f, e.0 as int) is Some,
    decreases list.len(),
{
    if list.last() != e {
        let i = list.index_of(e);
        assert(list.drop_last()[i] == e);
        lemma_unfixed(list.drop_last(), f, e);
    }
}

/// A rule that is switched on has nothing to fix at the last node of a run that
/// stopped by itself.
proof fn lemma_idle<V: VarDomain>(
    instance: &HuboInstance<V>,
    config: KernelizationConfig,
    incumbent: Option<i64>,
    nodes: Seq<Node>,
    steps: Seq<KernelStep>,
    rule: KernelizationRuleId,
) -> (raw: Seq<(usize, i64)>)
    requires
        kernelizer::is_run(instance, config, incumbent, nodes, steps),
        steps.len() < config.max_rounds,
        rules::enabled_rules(V::tag(), config).contains(rule),
    ensures
        rules::proposes(rule, instance, &nodes.last(), raw),
        rules::unfixed(raw, nodes.last().fixed@).len() == 0,
{
    let all = rules::enabled_rules(V::tag(), config);
    let p = all.index_of(rule);
    assert(all[p] == rule);
    assert(kernelizer::has_candidates(all[p], instance, &nodes.last(), Seq::empty()));
    choose|raw: Seq<(usize, i64)>| #[trigger]
        rules::proposes(rule, instance, &nodes.last(), raw) && Seq::<(usize, i64)>::empty() == rules::unfixed(
            raw,
            nodes.last().fixed@,
        )
}

/// Where a run stops before its last round with dominance on, the own coefficient of
/// no variable that is left outweighs the others with it.
pub proof fn stopped_run_leaves_no_dominance<V: VarDomain>(
    instance: &HuboInstance<V>,
    config: KernelizationConfig,
    incumbent: Option<i64>,
    nodes: Seq<Node>,
    steps: Seq<KernelStep>,
    v: usize,
)
    requires
        rules::kernelizable(instance),
        nodes.last().describes(instance),
        kernelizer::is_run(instance, config, incumbent, nodes, steps),
        steps.len() < config.max_rounds,
        v < instance.n(),
        nodes.last().fixed@[v as int] is None,
        dominance_laws::is_left(nodes.last().term_status@, v),
    ensures
        ({
            let s = nodes.last().term_status@;
            let own = dominance_laws::alone(s, v);
            &&& V::tag() == VarType::Spin && config.enable_spin_dominance ==> own == 0 || -dominance_laws::shared(
                s,
                v,
            ) < own < dominance_laws::shared(s, v)
            &&& V::tag() == VarType::Bin && config.enable_binary_dominance ==> own
                + dominance_laws::shared_down(s, v) < 0 < own + dominance_laws::shared_up(s, v)
        }),
{
    enabled_rules_are_switched_on(config);
    let on = match V::tag() {
        VarType::Spin => config.enable_spin_dominance,
        VarType::Bin => config.enable_binary_dominance,
    };
    if on {
        let node = nodes.last();
        let raw = lemma_idle(
            instance,
            config,
            incumbent,
            nodes,
            steps,
            KernelizationRuleId::Dominance,
        );
        dominance_laws::dominance_fixes_what_outweighs(instance, &node, raw, v);
        assert forall|c: i64| !#[trigger] raw.contains((v, c)) by {
            if raw.contains((v, c)) {
                lemma_unfixed(raw, node.fixed@, (v, c));
            }
        }
        assert(!raw.contains((v, 1i64)) && !raw.contains((v, -1i64)) && !raw.contains((v, 0i64)));
    }
}

/// Where a run stops before its last round with roof duality on, every variable whose
/// own coefficient outweighs its products is fixed.
pub proof fn stopped_run_has_roof_fixes<V: VarDomain>(
    instance: &HuboInstance<V>,
    config: KernelizationConfig,
    incumbent: Option<i64>,
    nodes: Seq<Node>,
    steps: Seq<KernelStep>,
    v: usize,
)
    requires
        rules::kernelizable(instance),
        nodes.last().describes(instance),
        kernelizer::is_run(instance, config, incumbent, nodes, steps),
        steps.len() < config.max_rounds,
        forall|t: int|
            0 <= t < instance.terms@.len() ==> (#[trigger] instance.terms@[t]).indices@.len() <= 2,
        v < instance.n(),
        V::tag() == VarType::Spin ==> config.enable_spin_roof_duality,
        V::tag() == VarType::Bin ==> config.enable_binary_roof_duality,
        ({
            let m = instance.terms@.len();
            let own = roof_laws::own_weight(instance.terms@, v, m);
            let more = roof_laws::pair_weight(instance.terms@, v, true, m);
            let less = roof_laws::pair_weight(instance.terms@, v, false, m);
            match V::tag() {
                VarType::Bin => own > less || -own > more,
                VarType::Spin => own > more + less || -own > more + less,
            }
        }),
    ensures
        nodes.last().fixed@[v as int] is Some,
{
    enabled_rules_are_switched_on(config);
    let node = nodes.last();
    let raw = lemma_idle(
        instance,
        config,
        incumbent,
        nodes,
        steps,
        KernelizationRuleId::RoofDuality,
    );
    roof_laws::roof_fixes_outweighing_variables(instance, raw, v);
    if raw.contains((v, 1i64)) {
        lemma_unfixed(raw, node.fixed@, (v, 1i64));
    } else if raw.contains((v, 0i64)) {
        lemma_unfixed(raw, node.fixed@, (v, 0i64));
    } else {
        lemma_unfixed(raw, node.fixed@, (v, -1i64));
    }
}

/// Where a run over spins stops before its last round with flip symmetry on, every
/// set of spins whose flip keeps all terms has a fixed member.
pub proof fn stopped_run_breaks_flips<V: VarDomain>(
    instance: &HuboInstance<V>,
    config: KernelizationConfig,
    incumbent: Option<i64>,
    nodes: Seq<Node>,
    steps: Seq<KernelStep>,
    set: Seq<usize>,
    v: usize,
)
    requires
        rules::kernelizable(instance),
        V::tag() == VarType::Spin,
        config.enable_sflip_symmetry,
        nodes.last().describes(instance),
        kernelizer::is_run(instance, config, incumbent, nodes, steps),
        steps.len() < config.max_rounds,
        orbit_laws::keeps_terms(instance.terms@, instance.n() as nat, set),
        set.contains(v),
        v < instance.n(),
    ensures
        exists|u: usize| #[trigger]
            set.contains(u) && fixes::fixed_at(nodes.last().fixed@, u as int) is Some,
{
    enabled_rules_are_switched_on(config);
    let node = nodes.last();
    let raw = lemma_idle(
        instance,
        config,
        incumbent,
        nodes,
        steps,
        KernelizationRuleId::SflipSymmetry,
    );
    orbit_laws::flip_fixes_break_every_symmetry(instance, raw, set, v);
    let i = choose|i: int|
        0 <= i < raw.len() && set.contains((#[trigger] raw[i]).0) && raw[i].1 == 1;
    assert(raw.contains(raw[i]));
    lemma_unfixed(raw, node.fixed@, raw[i]);
    assert(set.contains(raw[i].0));
}

/// Where a run over spins stops before its last round with coupling on, no two free
/// spins that only occur together have a coefficient of their own that is larger
/// than all the others with both.
pub proof fn stopped_run_leaves_no_pair<V: VarDomain>(
    instance: &HuboInstance<V>,
    config: KernelizationConfig,
    incumbent: Option<i64>,
    nodes: Seq<Node>,
    steps: Seq<KernelStep>,
    i: usize,
    j: usize,
)
    requires
        rules::kernelizable(instance),
        V::tag() == VarType::Spin,
        config.enable_coupling_reduction,
        nodes.last().describes(instance),
        kernelizer::is_run(instance, config, incumbent, nodes, steps),
        steps.len() < config.max_rounds,
        i < j < instance.n(),
        nodes.last().fixed@[i as int] is None,
        nodes.last().fixed@[j as int] is None,
    ensures
        ({
            let parts = coupling::active_items(nodes.last().term_status@);
            let k = nodes.last().term_status@.len();
            let rest = pair_laws::pair_shared(parts, i, j, k);
            pair_laws::occurs_without(parts, i, j, k) || pair_laws::occurs_without(parts, j, i, k)
                || -rest <= pair_laws::pair_alone(parts, i, j, k) <= rest
        }),
{
    enabled_rules_are_switched_on(config);
    let node = nodes.last();
    let f = node.fixed@;
    let parts = coupling::active_items(node.term_status@);
    let k = node.term_status@.len();
    let raw = lemma_idle(
        instance,
        config,
        incumbent,
        nodes,
        steps,
        KernelizationRuleId::SpinCouplingReduction,
    );
    let vars = fixes::free_vars(f);
    let rel = coupling::uncoupled_sign(parts, k);
    let pairs = coupling::greedy_pairs(vars, rel, vars.len());
    fixes::lemma_free_vars(f);
    assert(vars.contains(i) && vars.contains(j));
    pair_laws::pairs_go_by_their_coefficients(parts, i, j, k);
    if rel(i, j) is Some {
        let a = vars.index_of(i);
        let b = vars.index_of(j);
        if b <= a {
            if b < a {
                assert(vars[b] < vars[a]);
            }
        }
        assert(rel(vars[a], vars[b]) is Some);
        pair_laws::taken_pairs_are_disjoint_and_maximal(vars, rel);
        coupling_laws::lemma_greedy_pairs(vars, rel, vars.len());
        let q = choose|q: int|
            0 <= q < pairs.len() && ((#[trigger] pairs[q]).0 == vars[a] || pairs[q].1 == vars[a]
                || pairs[q].0 == vars[b] || pairs[q].1 == vars[b]);
        assert(vars.contains(pairs[q].0));
        pair_laws::pair_fixes_give_the_sign(pairs);
        assert(raw[2 * q].0 == pairs[q].0);
        assert(raw.contains(raw[2 * q]));
        lemma_unfixed(raw, f, raw[2 * q]);
    }
}

/// Where a run stops before its last round with an incumbent, either some free
/// variable has two children that reach the incumbent, or no child of a free
/// variable does.
pub proof fn stopped_run_leaves_no_gap<V: VarDomain>(
    instance: &HuboInstance<V>,
    config: KernelizationConfig,
    incumbent: i64,
    nodes: Seq<Node>,
    steps: Seq<KernelStep>,
    var: usize,
    high: &Node,
    low: &Node,
)
    requires
        rules::kernelizable(instance),
        nodes.last().describes(instance),
        kernelizer::is_run(instance, config, Some(incumbent), nodes, steps),
        steps.len() < config.max_rounds,
        high.describes(instance),
        low.describes(instance),
        var < instance.n(),
        nodes.last().fixed@[var as int] is None,
        high.fixed@ == nodes.last().fixed@.update(var as int, Some(true)),
        low.fixed@ == nodes.last().fixed@.update(var as int, Some(false)),
    ensures
        dominance::gap_closed(instance, &nodes.last(), incumbent) || (cheap::base_bound(
            instance,
            high,
        ) < incumbent && cheap::base_bound(instance, low) < incumbent),
{
    let node = nodes.last();
    let list = dominance::decided(
        fixes::free_vars(node.fixed@),
        dominance::gap_decision(instance, &node, incumbent),
    );
    if !dominance::gap_closed(instance, &node, incumbent) {
        assert(list.len() == 0);
        gap_laws::gap_fixing_goes_by_the_children(
            instance,
            &node,
            incumbent,
            Some(list),
            var,
            high,
            low,
        );
    }
}

} // verus!
