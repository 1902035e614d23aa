//! What the termwise bound and the fixing by the gap say about the terms.

use crate::bounds::cheap;
use crate::bounds::program_laws;
use crate::domain::{VarDomain, VarType};
use crate::fixes;
use crate::instance::HuboInstance;
use crate::kernelization::dominance;
use crate::kernelization::dominance_laws;
use crate::kernelization::persistency;
use crate::node::Node;
use crate::node;
use crate::term::Term;
use crate::term;
use vstd::prelude::*;

verus! {

/// The sum of the first `k` terms, each at an assignment of its own.
pub open spec fn picked_sum(vt: VarType, terms: Seq<Term>, xs: Seq<Seq<bool>>, k: nat) -> int
    decreases k,
{
    if k == 0 {
        0
    } else {
        picked_sum(vt, terms, xs, (k - 1) as nat) + terms[k - 1].coeff * term::monomial(
            vt,
            terms[k - 1].indices@,
            xs[k - 1],
        )
    }
}

/// A completion at which the term takes its least value.
proof fn lemma_floor_attained(vt: VarType, t: Term, f: Seq<Option<bool>>) -> (x: Seq<bool>)
    requires
        term::indices_below(t.indices@, f.len() as int),
        t.indices@.no_duplicates(),
        f.len() <= usize::MAX,
    ensures
        node::extends(x, f),
        t.coeff * term::monomial(vt, t.indices@, x) == persistency::term_floor(vt, t, f),
{
    let idx = t.indices@;
    let free = node::free_list(idx, f);
    let c = node::fold_coeff(vt, idx, t.coeff as int, f);
    let up = Seq::new(
        f.len(),
        |i: int|
            match f[i] {
                Some(b) => b,
                None => true,
            },
    );
    assert(node::extends(up, f));
    node::lemma_fold_value(vt, idx, t.coeff as int, f, up);
    node::lemma_free_list_subset(idx, f);
    assert forall|i: int| 0 <= i < free.len() implies (#[trigger] free[i]) < f.len()
        && f[free[i] as int] is None by {
        assert(free.contains(free[i]));
        let j = idx.index_of(free[i]);
        assert(idx[j] < f.len());
    }
    program_laws::lemma_all_high(vt, free, up);
    assert(c * 1 == c && c * 0 == 0 && c * -1 == -c);
    if free.len() == 0 || c <= 0 {
        up
    } else {
        let down = up.update(free[0] as int, false);
        assert(f[free[0] as int] is None);
        assert(node::extends(down, f));
        node::lemma_fold_value(vt, idx, t.coeff as int, f, down);
        program_laws::lemma_factor(vt, free, 0, down);
        let rest = free.remove(0);
        assert forall|i: int| 0 <= i < rest.len() implies down[#[trigger] rest[i] as int] by {
            assert(rest[i] == free[i + 1]);
            assert(free[i + 1] != free[0]);
            assert(f[free[i + 1] as int] is None);
        }
        program_laws::lemma_all_high(vt, rest, down);
        assert(1 * term::bit_value(vt, false) == term::bit_value(vt, false));
        down
    }
}

proof fn lemma_picked(
    vt: VarType,
    terms: Seq<Term>,
    f: Seq<Option<bool>>,
    k: nat,
) -> (xs: Seq<Seq<bool>>)
    requires
        k <= terms.len(),
        term::terms_below(terms, f.len() as int),
        term::terms_distinct(terms),
        f.len() <= usize::MAX,
    ensures
        xs.len() == k,
        forall|t: int| 0 <= t < k ==> node::extends(#[trigger] xs[t], f),
        picked_sum(vt, terms, xs, k) == persistency::floors(vt, terms, f, k),
    decreases k,
{
    if k == 0 {
        Seq::empty()
    } else {
        let before = lemma_picked(vt, terms, f, (k - 1) as nat);
        assert(term::indices_below(terms[k - 1].indices@, f.len() as int));
        assert(terms[k - 1].indices@.no_duplicates());
        let x = lemma_floor_attained(vt, terms[k - 1], f);
        let xs = before.push(x);
        lemma_picked_same(vt, terms, before, xs, (k - 1) as nat);
        assert forall|t: int| 0 <= t < k implies node::extends(#[trigger] xs[t], f) by {
            if t < k - 1 {
                assert(xs[t] == before[t]);
            }
        }
        xs
    }
}

proof fn lemma_picked_same(
    vt: VarType,
    terms: Seq<Term>,
    xs: Seq<Seq<bool>>,
    ys: Seq<Seq<bool>>,
    k: nat,
)
    requires
        forall|t: int| 0 <= t < k ==> xs[t] == #[trigger] ys[t],
    ensures
        picked_sum(vt, terms, xs, k) == picked_sum(vt, terms, ys, k),
    decreases k,
{
    if k > 0 {
        lemma_picked_same(vt, terms, xs, ys, (k - 1) as nat);
        assert(xs[k - 1] == ys[k - 1]);
    }
}

/// The termwise bound of a node leaves no slack in any term: it adds up values that
/// the terms take, each at a completion of its own, and no other choice of
/// completions adds up to less.
pub proof fn termwise_bound_adds_least_values<V: VarDomain>(instance: &HuboInstance<V>, node: &Node)
    requires
        instance.wf(),
        instance.n() <= usize::MAX,
        node.describes(instance),
    ensures
        exists|xs: Seq<Seq<bool>>|
            xs.len() == instance.terms@.len() && (forall|t: int|
                0 <= t < xs.len() ==> node::extends(#[trigger] xs[t], node.fixed@))
                && cheap::base_bound(instance, node) == instance.offset + #[trigger] picked_sum(
                V::tag(),
                instance.terms@,
                xs,
                xs.len(),
            ),
        forall|xs: Seq<Seq<bool>>|
            xs.len() == instance.terms@.len() && (forall|t: int|
                0 <= t < xs.len() ==> node::extends(#[trigger] xs[t], node.fixed@))
                ==> cheap::base_bound(instance, node) <= instance.offset + #[trigger] picked_sum(
                V::tag(),
                instance.terms@,
                xs,
                xs.len(),
            ),
{
    let vt = V::tag();
    let terms = instance.terms@;
    let k = terms.len();
    let f = node.fixed@;
    persistency::lemma_floors(vt, terms, f, node.term_status@, k);
    assert(node.term_status@.take(k as int) =~= node.term_status@);
    let picked = lemma_picked(vt, terms, f, k);
    assert(cheap::base_bound(instance, node) == instance.offset + picked_sum(vt, terms, picked, k));
    assert forall|xs: Seq<Seq<bool>>|
        xs.len() == terms.len() && (forall|t: int|
            0 <= t < xs.len() ==> node::extends(#[trigger] xs[t], f)) implies cheap::base_bound(
        instance,
        node,
    ) <= instance.offset + #[trigger] picked_sum(vt, terms, xs, xs.len()) by {
        lemma_picked_least(vt, terms, f, xs, k);
    }
}

proof fn lemma_picked_least(
    vt: VarType,
    terms: Seq<Term>,
    f: Seq<Option<bool>>,
    xs: Seq<Seq<bool>>,
    k: nat,
)
    requires
        k <= terms.len(),
        xs.len() == terms.len(),
        term::terms_below(terms, f.len() as int),
        forall|t: int| 0 <= t < xs.len() ==> node::extends(#[trigger] xs[t], f),
    ensures
        persistency::floors(vt, terms, f, k) <= picked_sum(vt, terms, xs, k),
    decreases k,
{
    if k > 0 {
        lemma_picked_least(vt, terms, f, xs, (k - 1) as nat);
        let t = terms[k - 1];
        let x = xs[k - 1];
        assert(node::extends(x, f));
        assert(term::indices_below(t.indices@, f.len() as int));
        node::lemma_fold_value(vt, t.indices@, t.coeff as int, f, x);
        let c = node::fold_coeff(vt, t.indices@, t.coeff as int, f);
        let free = node::free_list(t.indices@, f);
        term::lemma_monomial_range(vt, free, x);
        let m = term::monomial(vt, free, x);
        assert(c * m == if m == 0 { 0 } else if m == 1 { c } else { -c }) by (nonlinear_arith)
            requires
                m == 0 || m == 1 || m == -1,
        ;
    }
}

/// The fixing by the gap goes by the bounds of the two children of each free
/// variable: a variable whose high child reaches the incumbent is fixed low, one
/// whose low child does is fixed high, and no other variable is fixed; there is no
/// list at all exactly where both children of a variable do.
pub proof fn gap_fixing_goes_by_the_children<V: VarDomain>(
    instance: &HuboInstance<V>,
    node: &Node,
    incumbent: i64,
    r: Option<Seq<(usize, i64)>>,
    var: usize,
    high: &Node,
    low: &Node,
)
    requires
        instance.wf(),
        instance.n() <= usize::MAX,
        node.describes(instance),
        high.describes(instance),
        low.describes(instance),
        var < instance.n(),
        node.fixed@[var as int] is None,
        high.fixed@ == node.fixed@.update(var as int, Some(true)),
        low.fixed@ == node.fixed@.update(var as int, Some(false)),
        r is None <==> dominance::gap_closed(instance, node, incumbent),
        r matches Some(list) ==> list == dominance::decided(
            fixes::free_vars(node.fixed@),
            dominance::gap_decision(instance, node, incumbent),
        ),
    ensures
        cheap::base_bound(instance, high) >= incumbent && cheap::base_bound(instance, low)
            >= incumbent ==> r is None,
        r matches Some(list) ==> {
            &&& forall|c: i64| #[trigger]
                list.contains((var, c)) ==> c == 1 || c == term::bit_value(V::tag(), false)
            &&& list.contains((var, 1i64)) == (cheap::base_bound(instance, low) >= incumbent)
            &&& list.contains((var, term::bit_value(V::tag(), false) as i64)) == (
            cheap::base_bound(instance, high) >= incumbent)
        },
{
    let f = node.fixed@;
    let d = dominance::gap_decision(instance, node, incumbent);
    fixes::lemma_free_vars(f);
    persistency::child_bound_grows_by_delta(instance, node, high, var, true);
    persistency::child_bound_grows_by_delta(instance, node, low, var, false);
    assert(fixes::free_vars(f).contains(var));
    assert(dominance::pruned(instance, node, incumbent, var, true) == (cheap::base_bound(
        instance,
        high,
    ) >= incumbent));
    assert(dominance::pruned(instance, node, incumbent, var, false) == (cheap::base_bound(
        instance,
        low,
    ) >= incumbent));
    if let Some(list) = r {
        assert forall|c: i64| #[trigger] list.contains((var, c)) == (d(var) == Some(c)) by {
            dominance_laws::lemma_decided_has(fixes::free_vars(f), d, var, c);
        }
    }
}

/// Where the fixing by the gap gives up, some free variable has no value that could
/// beat the incumbent, so no completion does; where it lists fixes, every completion
/// that beats the incumbent takes them all.
pub proof fn gap_fixing_keeps_better_completions<V: VarDomain>(
    instance: &HuboInstance<V>,
    node: &Node,
    incumbent: i64,
    r: Option<Seq<(usize, i64)>>,
    x: Seq<bool>,
)
    requires
        instance.wf(),
        instance.n() <= usize::MAX,
        node.describes(instance),
        r is None <==> dominance::gap_closed(instance, node, incumbent),
        r matches Some(list) ==> list == dominance::decided(
            fixes::free_vars(node.fixed@),
            dominance::gap_decision(instance, node, incumbent),
        ),
        node::extends(x, node.fixed@),
        instance.objective(x) < incumbent,
    ensures
        r matches Some(list) && forall|i: int|
            0 <= i < list.len() ==> (#[trigger] list[i]).1 == term::bit_value(
                V::tag(),
                x[list[i].0 as int],
            ),
{
    let f = node.fixed@;
    let d = dominance::gap_decision(instance, node, incumbent);
    fixes::lemma_free_vars(f);
    if r is None {
        let var = choose|var: usize| #[trigger]
            fixes::free_vars(f).contains(var) && dominance::pruned(
                instance,
                node,
                incumbent,
                var,
                true,
            ) && dominance::pruned(instance, node, incumbent, var, false);
        persistency::pruned_values_do_not_improve(instance, node, incumbent, var, x);
    }
    let list = r->0;
    assert forall|i: int| 0 <= i < list.len() implies (#[trigger] list[i]).1 == term::bit_value(
        V::tag(),
        x[list[i].0 as int],
    ) by {
        let (v, c) = list[i];
        assert(list.contains((v, c)));
        dominance_laws::lemma_decided_has(fixes::free_vars(f), d, v, c);
        if dominance::pruned(instance, node, incumbent, v, x[v as int]) {
            persistency::pruned_values_do_not_improve(instance, node, incumbent, v, x);
        }
    }
}

} // verus!
