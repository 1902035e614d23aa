//! Coupled spins at their preferred sign never raise the objective.

use crate::delta;
use crate::domain::{VarDomain, VarType};
use crate::domain;
use crate::fixes;
use crate::instance::HuboInstance;
use crate::kernelization::coupling::{ConditionalCoupling, ConditionalCouplingKind};
use crate::kernelization::coupling;
use crate::kernelization::persistency;
use crate::node::{Node, PartiallyAssignedTerm};
use crate::node;
use crate::sets;
use crate::solution;
use crate::term;
use vstd::prelude::*;

verus! {

/// The first `k` items list existing variables, each at most once per item.
spec fn parts_ok(parts: spec_fn(int) -> Option<(int, Seq<usize>)>, n: int, k: nat) -> bool {
    forall|t: int|
        0 <= t < k && (#[trigger] parts(t)) is Some ==> term::indices_below(coupling::item_vars(parts, t), n)
            && coupling::item_vars(parts, t).no_duplicates()
}

/// The spin polynomial of the first `k` items.
spec fn item_poly(parts: spec_fn(int) -> Option<(int, Seq<usize>)>, x: Seq<bool>, k: nat) -> int
    decreases k,
{
    if k == 0 {
        0
    } else {
        item_poly(parts, x, (k - 1) as nat) + coupling::item_coeff(parts, k - 1) * term::monomial(
            VarType::Spin,
            coupling::item_vars(parts, k - 1),
            x,
        )
    }
}

/// The factor of the product of `i` and `j`.
spec fn pair_factor(
    parts: spec_fn(int) -> Option<(int, Seq<usize>)>,
    i: usize,
    j: usize,
    x: Seq<bool>,
    k: nat,
) -> int
    decreases k,
{
    if k == 0 {
        0
    } else {
        pair_factor(parts, i, j, x, (k - 1) as nat) + (if coupling::item_has(
            parts,
            k - 1,
            i,
            j,
            true,
            true,
        ) {
            coupling::item_coeff(parts, k - 1) * term::monomial(
                VarType::Spin,
                domain::without(domain::without(coupling::item_vars(parts, k - 1), j), i),
                x,
            )
        } else {
            0
        })
    }
}

/// The value of the items without `j`.
spec fn rest(
    parts: spec_fn(int) -> Option<(int, Seq<usize>)>,
    j: usize,
    x: Seq<bool>,
    k: nat,
) -> int
    decreases k,
{
    if k == 0 {
        0
    } else {
        rest(parts, j, x, (k - 1) as nat) + (if coupling::item_vars(parts, k - 1).contains(j) {
            0
        } else {
            coupling::item_coeff(parts, k - 1) * term::monomial(VarType::Spin, coupling::item_vars(parts, k - 1), x)
        })
    }
}

proof fn lemma_without_members(s: Seq<usize>, v: usize)
    ensures
        forall|u: usize| #[trigger] domain::without(s, v).contains(u) == (s.contains(u) && u != v),
        s.no_duplicates() ==> domain::without(s, v).no_duplicates(),
        domain::without(s, v).len() <= s.len(),
    decreases s.len(),
{
    let r = domain::without(s, v);
    if s.len() > 0 {
        let p = s.drop_last();
        let l = s.last();
        lemma_without_members(p, v);
        let q = domain::without(p, v);
        assert forall|u: usize| #[trigger] r.contains(u) == (s.contains(u) && u != v) by {
            assert(q.contains(u) == (p.contains(u) && u != v));
            if p.contains(u) {
                let i = choose|i: int| 0 <= i < p.len() && p[i] == u;
                assert(s[i] == u);
            }
            if q.contains(u) {
                let i = choose|i: int| 0 <= i < q.len() && q[i] == u;
                assert(r[i] == u);
            }
            if u == l {
                assert(s[s.len() - 1] == u);
                if l != v {
                    assert(r[r.len() - 1] == u);
                }
            }
            if s.contains(u) && u != l {
                let i = choose|i: int| 0 <= i < s.len() && s[i] == u;
                assert(p[i] == u);
            }
            if r.contains(u) && u != l {
                let i = choose|i: int| 0 <= i < r.len() && r[i] == u;
                assert(q[i] == u);
            }
        }
        if s.no_duplicates() {
            assert(p.no_duplicates());
            assert(!p.contains(l)) by {
                if p.contains(l) {
                    let i = choose|i: int| 0 <= i < p.len() && p[i] == l;
                    assert(s[i] == s[s.len() - 1]);
                }
            }
            assert(!q.contains(l));
            if l != v {
                assert forall|a: int, b: int| 0 <= a < b < r.len() implies r[a] != r[b] by {
                    if b == r.len() - 1 {
                        assert(q.contains(q[a]));
                    } else {
                        assert(q[a] != q[b]);
                    }
                }
            }
        }
    }
}

/// A spin product that lists two variables is the product of their signs and
/// of the others.
proof fn lemma_split_pair(idx: Seq<usize>, x: Seq<bool>, i: usize, j: usize, b: bool)
    requires
        term::indices_below(idx, x.len() as int),
        idx.no_duplicates(),
        idx.contains(i),
        idx.contains(j),
        i != j,
        i < x.len(),
        j < x.len(),
    ensures
        term::monomial(VarType::Spin, idx, x.update(j as int, b)) == (term::bit_value(VarType::Spin, b)
            * term::bit_value(VarType::Spin, x[i as int])) * term::monomial(
            VarType::Spin,
            domain::without(domain::without(idx, j), i),
            x,
        ),
        domain::without(domain::without(idx, j), i).len() == idx.len() - 2,
{
    let p = domain::without(idx, j);
    lemma_without_members(idx, j);
    assert(p.contains(i));
    assert(term::indices_below(p, x.len() as int)) by {
        assert forall|q: int| 0 <= q < p.len() implies (#[trigger] p[q]) < x.len() by {
            assert(p.contains(p[q]));
            let a = choose|a: int| 0 <= a < idx.len() && idx[a] == p[q];
        }
    }
    persistency::lemma_set_present(VarType::Spin, idx, x, j, b);
    assert(x.update(i as int, x[i as int]) =~= x);
    persistency::lemma_set_present(VarType::Spin, p, x, i, x[i as int]);
    delta::lemma_without(idx, x, j);
    delta::lemma_without(p, x, i);
    let sb = term::bit_value(VarType::Spin, b);
    let si = term::bit_value(VarType::Spin, x[i as int]);
    let m = term::monomial(VarType::Spin, domain::without(p, i), x);
    assert(sb * (si * m) == (sb * si) * m) by (nonlinear_arith);
}

/// When `j` occurs only with `i`, setting it splits the polynomial into the
/// pair's product times its factor and the rest.
proof fn lemma_set_second(
    parts: spec_fn(int) -> Option<(int, Seq<usize>)>,
    i: usize,
    j: usize,
    x: Seq<bool>,
    b: bool,
    k: nat,
    all: nat,
)
    requires
        k <= all,
        parts_ok(parts, x.len() as int, all),
        i != j,
        i < x.len(),
        j < x.len(),
        !coupling::any_item_has(parts, i, j, false, true, all),
    ensures
        item_poly(parts, x.update(j as int, b), k) == (term::bit_value(VarType::Spin, b) * term::bit_value(
            VarType::Spin,
            x[i as int],
        )) * pair_factor(parts, i, j, x, k) + rest(parts, j, x, k),
        coupling::pair_low(parts, i, j, k) <= pair_factor(parts, i, j, x, k) <= coupling::pair_high(parts, i, j, k),
    decreases k,
{
    let sb = term::bit_value(VarType::Spin, b);
    let si = term::bit_value(VarType::Spin, x[i as int]);
    if k > 0 {
        let k1 = (k - 1) as nat;
        lemma_set_second(parts, i, j, x, b, k1, all);
        let c = coupling::item_coeff(parts, k1 as int);
        let idx = coupling::item_vars(parts, k1 as int);
        let t = parts(k1 as int);
        assert(!coupling::item_has(parts, k1 as int, i, j, false, true));
        if t is Some {
            assert(term::indices_below(idx, x.len() as int));
            if idx.contains(j) {
                assert(idx.contains(i));
                lemma_split_pair(idx, x, i, j, b);
                let m = term::monomial(VarType::Spin, domain::without(domain::without(idx, j), i), x);
                term::lemma_monomial_range(VarType::Spin, domain::without(domain::without(idx, j), i), x);
                let f = pair_factor(parts, i, j, x, k1);
                assert(c * ((sb * si) * m) == (sb * si) * (c * m)) by (nonlinear_arith);
                assert((sb * si) * (f + c * m) == (sb * si) * f + (sb * si) * (c * m))
                    by (nonlinear_arith);
                assert(c * m == if m == 1 { c } else { -c }) by (nonlinear_arith)
                    requires
                        m == 1 || m == -1,
                ;
            } else {
                persistency::lemma_set_absent(VarType::Spin, idx, x, j, b);
            }
        } else {
            assert(!idx.contains(j));
            assert(c * term::monomial(VarType::Spin, idx, x) == 0) by (nonlinear_arith)
                requires
                    c == 0,
            ;
            assert(c * term::monomial(VarType::Spin, idx, x.update(j as int, b)) == 0)
                by (nonlinear_arith)
                requires
                    c == 0,
            ;
        }
    } else {
        assert((sb * si) * 0 == 0);
    }
}

/// The follower of a coupled pair at its preferred sign.
proof fn lemma_follower(
    parts: spec_fn(int) -> Option<(int, Seq<usize>)>,
    i: usize,
    j: usize,
    alpha: i64,
    x: Seq<bool>,
    k: nat,
)
    requires
        parts_ok(parts, x.len() as int, k),
        i != j,
        i < x.len(),
        j < x.len(),
        !coupling::any_item_has(parts, i, j, false, true, k),
        coupling::preferred_sign(coupling::pair_low(parts, i, j, k), coupling::pair_high(parts, i, j, k)) == Some(alpha),
    ensures
        item_poly(parts, x.update(j as int, (alpha == 1) == x[i as int]), k) <= item_poly(
            parts,
            x,
            k,
        ),
{
    let b = (alpha == 1) == x[i as int];
    lemma_set_second(parts, i, j, x, b, k, k);
    lemma_set_second(parts, i, j, x, x[j as int], k, k);
    assert(x.update(j as int, x[j as int]) =~= x);
    let f = pair_factor(parts, i, j, x, k);
    let si = term::bit_value(VarType::Spin, x[i as int]);
    let sb = term::bit_value(VarType::Spin, b);
    let sj = term::bit_value(VarType::Spin, x[j as int]);
    assert(sb * si == alpha) by (nonlinear_arith)
        requires
            (sb == si && alpha == 1) || (sb == -si && alpha == -1),
            si == 1 || si == -1,
    ;
    let q = sj * si;
    assert(q == 1 || q == -1) by (nonlinear_arith)
        requires
            q == sj * si,
            si == 1 || si == -1,
            sj == 1 || sj == -1,
    ;
    assert(alpha * f <= q * f) by (nonlinear_arith)
        requires
            q == 1 || q == -1,
            (alpha == -1 && f > 0) || (alpha == 1 && f < 0),
    ;
}

/// The two members of a pair change places.
proof fn lemma_swap_pair(
    parts: spec_fn(int) -> Option<(int, Seq<usize>)>,
    i: usize,
    j: usize,
    k: nat,
)
    ensures
        coupling::pair_low(parts, i, j, k) == coupling::pair_low(parts, j, i, k),
        coupling::pair_high(parts, i, j, k) == coupling::pair_high(parts, j, i, k),
        coupling::any_item_has(parts, i, j, true, false, k) == coupling::any_item_has(parts, j, i, false, true, k),
        coupling::any_item_has(parts, i, j, false, true, k) == coupling::any_item_has(parts, j, i, true, false, k),
    decreases k,
{
    if k > 0 {
        lemma_swap_pair(parts, i, j, (k - 1) as nat);
    }
    if coupling::any_item_has(parts, i, j, true, false, k) {
        let t = choose|t: int| 0 <= t < k && #[trigger] coupling::item_has(parts, t, i, j, true, false);
        assert(coupling::item_has(parts, t, j, i, false, true));
    }
    if coupling::any_item_has(parts, j, i, false, true, k) {
        let t = choose|t: int| 0 <= t < k && #[trigger] coupling::item_has(parts, t, j, i, false, true);
        assert(coupling::item_has(parts, t, i, j, true, false));
    }
    if coupling::any_item_has(parts, i, j, false, true, k) {
        let t = choose|t: int| 0 <= t < k && #[trigger] coupling::item_has(parts, t, i, j, false, true);
        assert(coupling::item_has(parts, t, j, i, true, false));
    }
    if coupling::any_item_has(parts, j, i, true, false, k) {
        let t = choose|t: int| 0 <= t < k && #[trigger] coupling::item_has(parts, t, j, i, true, false);
        assert(coupling::item_has(parts, t, i, j, false, true));
    }
}

/// Flipping both members of a pair that occurs only together changes nothing.
proof fn lemma_flip_both(
    parts: spec_fn(int) -> Option<(int, Seq<usize>)>,
    i: usize,
    j: usize,
    x: Seq<bool>,
    k: nat,
    all: nat,
)
    requires
        k <= all,
        parts_ok(parts, x.len() as int, all),
        i != j,
        i < x.len(),
        j < x.len(),
        !coupling::any_item_has(parts, i, j, false, true, all),
        !coupling::any_item_has(parts, i, j, true, false, all),
    ensures
        item_poly(parts, solution::flipped(solution::flipped(x, i as int), j as int), k) == item_poly(parts, x, k),
    decreases k,
{
    if k > 0 {
        let k1 = (k - 1) as nat;
        lemma_flip_both(parts, i, j, x, k1, all);
        let c = coupling::item_coeff(parts, k1 as int);
        let idx = coupling::item_vars(parts, k1 as int);
        let t = parts(k1 as int);
        assert(!coupling::item_has(parts, k1 as int, i, j, false, true));
        assert(!coupling::item_has(parts, k1 as int, i, j, true, false));
        if t is Some {
            assert(term::indices_below(idx, x.len() as int));
            let y = solution::flipped(x, i as int);
            if idx.contains(j) {
                delta::lemma_flip_present(idx, x, i);
                delta::lemma_flip_present(idx, y, j);
            } else {
                delta::lemma_flip_absent(VarType::Spin, idx, x, i);
                delta::lemma_flip_absent(VarType::Spin, idx, y, j);
            }
        }
    }
}

proof fn lemma_active_poly(s: Seq<Option<PartiallyAssignedTerm>>, x: Seq<bool>, k: nat)
    requires
        k <= s.len(),
    ensures
        item_poly(coupling::active_items(s), x, k) == node::residual(VarType::Spin, s.take(k as int), x),
    decreases k,
{
    if k > 0 {
        let k1 = (k - 1) as nat;
        lemma_active_poly(s, x, k1);
        assert(s.take(k as int).drop_last() =~= s.take(k1 as int));
        if s[k1 as int] is None {
            let m = term::monomial(VarType::Spin, coupling::item_vars(coupling::active_items(s), k1 as int), x);
            assert(0 * m == 0);
        }
    }
}

proof fn lemma_active_ok<V: VarDomain>(instance: &HuboInstance<V>, node: &Node)
    requires
        instance.wf(),
        node.describes(instance),
    ensures
        parts_ok(coupling::active_items(node.term_status@), instance.n(), node.term_status@.len()),
{
    let parts = coupling::active_items(node.term_status@);
    assert forall|t: int|
        0 <= t < node.term_status@.len() && (#[trigger] parts(t)) is Some implies term::indices_below(
        coupling::item_vars(parts, t),
        instance.n(),
    ) && coupling::item_vars(parts, t).no_duplicates() by {
        let term = instance.terms@[t];
        assert(node::status_ok(V::tag(), term, node.fixed@, node.term_status@[t]));
        assert(term::indices_below(term.indices@, instance.n()));
        assert(term.indices@.no_duplicates());
        node::lemma_free_list_subset(term.indices@, node.fixed@);
        let idx = coupling::item_vars(parts, t);
        assert forall|q: int| 0 <= q < idx.len() implies (#[trigger] idx[q]) < instance.n() by {
            assert(idx.contains(idx[q]));
            let a = choose|a: int| 0 <= a < term.indices@.len() && term.indices@[a] == idx[q];
        }
    }
}

/// The follower of a conditional coupling at the preferred sign never raises
/// the objective of a completion.
pub proof fn conditional_value_is_safe<V: VarDomain>(
    instance: &HuboInstance<V>,
    node: &Node,
    i: usize,
    j: usize,
    c: ConditionalCoupling,
    x: Seq<bool>,
)
    requires
        instance.wf(),
        node.describes(instance),
        V::tag() == VarType::Spin,
        i != j,
        i < instance.n(),
        j < instance.n(),
        node.fixed@[i as int] is None,
        node.fixed@[j as int] is None,
        coupling::one_sided_coupling(coupling::active_items(node.term_status@), node.term_status@.len())(i, j) == Some(
            c,
        ),
        node::extends(x, node.fixed@),
    ensures
        c.kind == ConditionalCouplingKind::JGivenI ==> instance.objective(
            x.update(j as int, (c.alpha == 1) == x[i as int]),
        ) <= instance.objective(x),
        c.kind == ConditionalCouplingKind::IGivenJ ==> instance.objective(
            x.update(i as int, (c.alpha == 1) == x[j as int]),
        ) <= instance.objective(x),
{
    let s = node.term_status@;
    let k = s.len();
    let parts = coupling::active_items(s);
    lemma_active_ok(instance, node);
    assert(s.take(k as int) =~= s);
    match c.kind {
        ConditionalCouplingKind::JGivenI => {
            lemma_follower(parts, i, j, c.alpha, x, k);
            let y = x.update(j as int, (c.alpha == 1) == x[i as int]);
            assert(node::extends(y, node.fixed@));
            lemma_active_poly(s, x, k);
            lemma_active_poly(s, y, k);
            node::node_represents_objective(instance, node, x);
            node::node_represents_objective(instance, node, y);
        },
        ConditionalCouplingKind::IGivenJ => {
            lemma_swap_pair(parts, i, j, k);
            lemma_follower(parts, j, i, c.alpha, x, k);
            let y = x.update(i as int, (c.alpha == 1) == x[j as int]);
            assert(node::extends(y, node.fixed@));
            lemma_active_poly(s, x, k);
            lemma_active_poly(s, y, k);
            node::node_represents_objective(instance, node, x);
            node::node_represents_objective(instance, node, y);
        },
    }
}

/// Setting an uncoupled pair to one and its preferred sign never raises the
/// objective of a completion.
pub proof fn uncoupled_pair_is_safe<V: VarDomain>(
    instance: &HuboInstance<V>,
    node: &Node,
    i: usize,
    j: usize,
    alpha: i64,
    x: Seq<bool>,
)
    requires
        instance.wf(),
        node.describes(instance),
        V::tag() == VarType::Spin,
        i != j,
        i < instance.n(),
        j < instance.n(),
        node.fixed@[i as int] is None,
        node.fixed@[j as int] is None,
        coupling::uncoupled_sign(coupling::active_items(node.term_status@), node.term_status@.len())(i, j) == Some(
            alpha,
        ),
        node::extends(x, node.fixed@),
    ensures
        instance.objective(x.update(i as int, true).update(j as int, alpha == 1))
            <= instance.objective(x),
        node::extends(x.update(i as int, true).update(j as int, alpha == 1), node.fixed@),
{
    let s = node.term_status@;
    let k = s.len();
    let parts = coupling::active_items(s);
    lemma_active_ok(instance, node);
    assert(s.take(k as int) =~= s);
    let y = x.update(j as int, (alpha == 1) == x[i as int]);
    let z = x.update(i as int, true).update(j as int, alpha == 1);
    lemma_follower(parts, i, j, alpha, x, k);
    if x[i as int] {
        assert(z =~= y);
    } else {
        assert(z =~= solution::flipped(solution::flipped(y, i as int), j as int));
        lemma_flip_both(parts, i, j, y, k, k);
    }
    assert(node::extends(z, node.fixed@));
    lemma_active_poly(s, x, k);
    lemma_active_poly(s, z, k);
    node::node_represents_objective(instance, node, x);
    node::node_represents_objective(instance, node, z);
}

proof fn lemma_partner(
    vars: Seq<usize>,
    rel: spec_fn(usize, usize) -> Option<i64>,
    pairs: Seq<(usize, usize, i64)>,
    a: int,
    b: int,
)
    ensures
        coupling::partner(vars, rel, pairs, a, b) matches Some(q) ==> b <= q < vars.len() && rel(
            vars[a],
            vars[q],
        ) is Some,
    decreases vars.len() - b,
{
    if b < vars.len() {
        lemma_partner(vars, rel, pairs, a, b + 1);
    }
}

/// Every greedy pair is a pair of different listed variables with a preferred
/// sign.
pub proof fn lemma_greedy_pairs(
    vars: Seq<usize>,
    rel: spec_fn(usize, usize) -> Option<i64>,
    k: nat,
)
    requires
        sets::ascending(vars),
        k <= vars.len(),
    ensures
        forall|q: int|
            0 <= q < coupling::greedy_pairs(vars, rel, k).len() ==> {
                let e = #[trigger] coupling::greedy_pairs(vars, rel, k)[q];
                e.0 < e.1 && vars.contains(e.0) && vars.contains(e.1) && rel(e.0, e.1) == Some(e.2)
            },
    decreases k,
{
    if k > 0 {
        let p = coupling::greedy_pairs(vars, rel, (k - 1) as nat);
        lemma_greedy_pairs(vars, rel, (k - 1) as nat);
        lemma_partner(vars, rel, p, k - 1, k as int);
        let r = coupling::greedy_pairs(vars, rel, k);
        assert forall|q: int| 0 <= q < r.len() implies {
            let e = #[trigger] r[q];
            e.0 < e.1 && vars.contains(e.0) && vars.contains(e.1) && rel(e.0, e.1) == Some(e.2)
        } by {
            if q < p.len() {
                assert(r[q] == p[q]);
            } else {
                let b = coupling::partner(vars, rel, p, k - 1, k as int)->0;
                assert(vars[k - 1] < vars[b]);
            }
        }
    }
}


/// Fixing all uncoupled pairs never raises the objective: for every completion
/// of the node there is one with the pairs' values that is at least as good.
pub proof fn coupling_keeps_optimum<V: VarDomain>(
    instance: &HuboInstance<V>,
    node: &Node,
    x: Seq<bool>,
)
    requires
        instance.wf(),
        instance.n() <= usize::MAX,
        node.describes(instance),
        V::tag() == VarType::Spin,
        node::extends(x, node.fixed@),
    ensures
        ({
            let list = coupling::pair_values(
                coupling::greedy_pairs(
                    fixes::free_vars(node.fixed@),
                    coupling::uncoupled_sign(coupling::active_items(node.term_status@), node.term_status@.len()),
                    fixes::free_vars(node.fixed@).len(),
                ),
            );
            &&& instance.objective(persistency::with_values(x, list)) <= instance.objective(x)
            &&& node::extends(persistency::with_values(x, list), persistency::fixed_by(node.fixed@, list))
            &&& node::extends(persistency::with_values(x, list), node.fixed@)
        }),
{
    let f = node.fixed@;
    let vars = fixes::free_vars(f);
    let rel = coupling::uncoupled_sign(coupling::active_items(node.term_status@), node.term_status@.len());
    let pairs = coupling::greedy_pairs(vars, rel, vars.len());
    fixes::lemma_free_vars(f);
    lemma_greedy_pairs(vars, rel, vars.len());
    lemma_pair_values(instance, node, pairs, x);
}

proof fn lemma_pair_values<V: VarDomain>(
    instance: &HuboInstance<V>,
    node: &Node,
    pairs: Seq<(usize, usize, i64)>,
    x: Seq<bool>,
)
    requires
        instance.wf(),
        instance.n() <= usize::MAX,
        node.describes(instance),
        V::tag() == VarType::Spin,
        node::extends(x, node.fixed@),
        forall|q: int|
            0 <= q < pairs.len() ==> {
                let e = #[trigger] pairs[q];
                e.0 < e.1 && fixes::free_vars(node.fixed@).contains(e.0) && fixes::free_vars(
                    node.fixed@,
                ).contains(e.1) && coupling::uncoupled_sign(
                    coupling::active_items(node.term_status@),
                    node.term_status@.len(),
                )(e.0, e.1) == Some(e.2)
            },
    ensures
        instance.objective(persistency::with_values(x, coupling::pair_values(pairs))) <= instance.objective(x),
        node::extends(persistency::with_values(x, coupling::pair_values(pairs)), persistency::fixed_by(node.fixed@, coupling::pair_values(pairs))),
        node::extends(persistency::with_values(x, coupling::pair_values(pairs)), node.fixed@),
        persistency::fixed_by(node.fixed@, coupling::pair_values(pairs)).len() == node.fixed@.len(),
    decreases pairs.len(),
{
    if pairs.len() > 0 {
        let p = pairs.drop_last();
        let e = pairs.last();
        assert(pairs[pairs.len() - 1] == e);
        assert forall|q: int| 0 <= q < p.len() implies {
            let e = #[trigger] p[q];
            e.0 < e.1 && fixes::free_vars(node.fixed@).contains(e.0) && fixes::free_vars(node.fixed@).contains(
                e.1,
            ) && coupling::uncoupled_sign(coupling::active_items(node.term_status@), node.term_status@.len())(
                e.0,
                e.1,
            ) == Some(e.2)
        } by {
            assert(p[q] == pairs[q]);
        }
        lemma_pair_values(instance, node, p, x);
        let a = coupling::pair_values(p);
        let b = a.push((e.0, 1i64));
        let c = b.push((e.1, e.2));
        assert(b.drop_last() =~= a);
        assert(c.drop_last() =~= b);
        let y = persistency::with_values(x, a);
        fixes::lemma_free_vars(node.fixed@);
        uncoupled_pair_is_safe(instance, node, e.0, e.1, e.2, y);
        assert(persistency::with_values(x, b) == y.update(e.0 as int, true));
        assert(persistency::with_values(x, c) == y.update(e.0 as int, true).update(e.1 as int, e.2 == 1));
        assert(persistency::fixed_by(node.fixed@, b) == persistency::fixed_by(node.fixed@, a).update(
            e.0 as int,
            Some(true),
        ));
        assert(persistency::fixed_by(node.fixed@, c) == persistency::fixed_by(node.fixed@, b).update(
            e.1 as int,
            Some(e.2 == 1),
        ));
    }
}

} // verus!
