//! The termwise bound, tightened over spins by parity contradictions.

use crate::bitset;
use crate::domain::{VarDomain, VarType};
use crate::fixes;
use crate::instance::HuboInstance;
use crate::node::{Node, PartiallyAssignedTerm};
use crate::node;
use crate::parity;
use crate::sets;
use crate::term::Term;
use crate::term;
use fixedbitset::FixedBitSet;
use vstd::prelude::*;

verus! {

/// The termwise lower bound.
#[derive(Debug, Clone, Copy)]
pub struct Cheap;

impl Default for Cheap {
    fn default() -> (r: Self)
        ensures
            r == Cheap,
    {
        Cheap
    }
}

/// The least value of what is left of one term.
pub open spec fn status_floor(vt: VarType, s: Option<PartiallyAssignedTerm>) -> int {
    match s {
        None => 0,
        Some(p) => if p.free_variables@.len() == 0 {
            p.coeff as int
        } else {
            match vt {
                VarType::Bin => if p.coeff >= 0 {
                    0
                } else {
                    p.coeff as int
                },
                VarType::Spin => -term::abs(p.coeff as int),
            }
        },
    }
}

/// The sum of the least values.
pub open spec fn floor_sum(vt: VarType, s: Seq<Option<PartiallyAssignedTerm>>) -> int
    decreases s.len(),
{
    if s.len() == 0 {
        0
    } else {
        floor_sum(vt, s.drop_last()) + status_floor(vt, s.last())
    }
}

/// The termwise bound of a node.
pub open spec fn base_bound<V: VarDomain>(instance: &HuboInstance<V>, node: &Node) -> int {
    instance.offset + node.offset + floor_sum(V::tag(), node.term_status@)
}

/// The value of what is left is at least the sum of the least values.
pub proof fn lemma_floor_valid(
    vt: VarType,
    s: Seq<Option<PartiallyAssignedTerm>>,
    x: Seq<bool>,
)
    ensures
        floor_sum(vt, s) <= node::residual(vt, s, x),
    decreases s.len(),
{
    if s.len() > 0 {
        lemma_floor_valid(vt, s.drop_last(), x);
        match s.last() {
            Some(p) => {
                term::lemma_monomial_range(vt, p.free_variables@, x);
                let m = term::monomial(vt, p.free_variables@, x);
                let c = p.coeff as int;
                assert(c * m == if m == 0 { 0 } else if m == 1 { c } else { -c })
                    by (nonlinear_arith)
                    requires
                        m == 0 || m == 1 || m == -1,
                ;
            },
            None => {},
        }
    }
}

/// The termwise bound is at most the objective of every completion.
pub proof fn base_bound_is_valid<V: VarDomain>(
    instance: &HuboInstance<V>,
    node: &Node,
    x: Seq<bool>,
)
    requires
        instance.wf(),
        node.describes(instance),
        node::extends(x, node.fixed@),
    ensures
        base_bound(instance, node) <= instance.objective(x),
{
    lemma_floor_valid(V::tag(), node.term_status@, x);
    node::node_represents_objective(instance, node, x);
}

/// The sizes of the parts of a bound.
pub proof fn lemma_bound_size<V: VarDomain>(instance: &HuboInstance<V>, node: &Node)
    requires
        instance.fits(),
        node.describes(instance),
    ensures
        term::abs(node.offset as int) + node::status_abs(node.term_status@) <= term::abs_sum(instance.terms@),
        0 <= node::status_abs(node.term_status@),
{
    node::lemma_status_bound(V::tag(), instance.terms@, node.fixed@, node.term_status@);
    assert(instance.terms@.take(node.term_status@.len() as int) =~= instance.terms@);
}

proof fn lemma_floor_size(vt: VarType, s: Seq<Option<PartiallyAssignedTerm>>, k: int)
    requires
        0 <= k <= s.len(),
    ensures
        term::abs(floor_sum(vt, s.take(k))) <= node::status_abs(s.take(k)) <= node::status_abs(s),
    decreases s.len(),
{
    if s.len() == 0 {
        assert(s.take(k) =~= s);
    } else if k == s.len() {
        assert(s.take(k) =~= s);
        lemma_floor_size(vt, s.drop_last(), k - 1);
        assert(s.drop_last().take(k - 1) =~= s.drop_last());
    } else {
        lemma_floor_size(vt, s.drop_last(), k);
        assert(s.drop_last().take(k) =~= s.take(k));
    }
}

/// The termwise bound, whatever the domain.
pub fn lower_bound_base<V: VarDomain>(instance: &HuboInstance<V>, node: &Node) -> (r: i64)
    requires
        instance.fits(),
        node.describes(instance),
    ensures
        r == base_bound(instance, node),
{
    proof {
        lemma_bound_size(instance, node);
    }
    let vt = V::var_type();
    let mut lb: i64 = instance.offset + node.offset;
    let mut i: usize = 0;
    let ghost s = node.term_status@;
    assert(s.take(0) =~= Seq::empty());
    while i < node.term_status.len()
        invariant
            i <= s.len(),
            s == node.term_status@,
            vt == V::tag(),
            instance.fits(),
            term::abs(node.offset as int) + node::status_abs(s) <= term::abs_sum(instance.terms@),
            lb == instance.offset + node.offset + floor_sum(vt, s.take(i as int)),
        decreases s.len() - i,
    {
        proof {
            assert(s.take(i + 1).drop_last() =~= s.take(i as int));
            lemma_floor_size(vt, s, i as int);
            lemma_floor_size(vt, s, i + 1);
            assert(node::status_abs(s.take(i + 1)) == node::status_abs(s.take(i as int)) + (match s[i as int] {
                Some(p) => term::abs(p.coeff as int),
                None => 0,
            }));
        }
        if let Some(status) = &node.term_status[i] {
            if status.free_variables.len() == 0 {
                lb += status.coeff;
            } else {
                match vt {
                    VarType::Bin => {
                        if status.coeff < 0 {
                            lb += status.coeff;
                        }
                    },
                    VarType::Spin => {
                        if status.coeff < 0 {
                            lb += status.coeff;
                        } else {
                            lb -= status.coeff;
                        }
                    },
                }
            }
        }
        i += 1;
    }
    assert(s.take(i as int) =~= s);
    lb
}

/// A term whose parity preference counts: some variables free and a nonzero
/// coefficient.
pub open spec fn is_active(s: Option<PartiallyAssignedTerm>) -> bool {
    s matches Some(p) && p.free_variables@.len() > 0 && p.coeff != 0
}

/// The terms among the first `k` whose parity preference counts.
pub open spec fn active_list(s: Seq<Option<PartiallyAssignedTerm>>, k: nat) -> Seq<usize>
    decreases k,
{
    if k == 0 {
        Seq::empty()
    } else if is_active(s[k - 1]) {
        active_list(s, (k - 1) as nat).push((k - 1) as usize)
    } else {
        active_list(s, (k - 1) as nat)
    }
}

pub proof fn lemma_active_list(s: Seq<Option<PartiallyAssignedTerm>>, k: nat)
    requires
        k <= s.len(),
        s.len() <= usize::MAX,
    ensures
        forall|i: int|
            0 <= i < active_list(s, k).len() ==> (#[trigger] active_list(s, k)[i]) < k && is_active(
                s[active_list(s, k)[i] as int],
            ),
        sets::ascending(active_list(s, k)),
        forall|t: int|
            0 <= t < k && is_active(#[trigger] s[t]) ==> active_list(s, k).contains(t as usize),
    decreases k,
{
    if k > 0 {
        let k1 = (k - 1) as nat;
        lemma_active_list(s, k1);
        let a = active_list(s, k1);
        let b = active_list(s, k);
        assert forall|t: int| 0 <= t < k && is_active(#[trigger] s[t]) implies b.contains(
            t as usize,
        ) by {
            if t < k1 {
                assert(a.contains(t as usize));
                let j = choose|j: int| 0 <= j < a.len() && a[j] == t as usize;
                assert(b[j] == t as usize);
            } else {
                assert(b[b.len() - 1] == t as usize);
            }
        }
    }
}

/// The penalties of violated parity preferences, and the terms they belong to.
pub fn get_residual_penalties(node: &Node) -> (r: (Vec<i64>, Vec<usize>))
    requires
        2 * node::status_abs(node.term_status@) <= i64::MAX,
    ensures
        r.1@ == active_list(node.term_status@, node.term_status@.len()),
        r.0@.len() == r.1@.len(),
        forall|i: int|
            0 <= i < r.0@.len() ==> #[trigger] r.0@[i] == 2 * term::abs(
                node.term_status@[r.1@[i] as int]->0.coeff as int,
            ),
{
    let ghost s = node.term_status@;
    let mut penalties: Vec<i64> = Vec::new();
    let mut terms: Vec<usize> = Vec::new();
    let mut i: usize = 0;
    while i < node.term_status.len()
        invariant
            i <= s.len(),
            s == node.term_status@,
            2 * node::status_abs(s) <= i64::MAX,
            terms@ == active_list(s, i as nat),
            penalties@.len() == terms@.len(),
            forall|j: int|
                0 <= j < penalties@.len() ==> #[trigger] penalties@[j] == 2 * term::abs(
                    s[terms@[j] as int]->0.coeff as int,
                ),
        decreases s.len() - i,
    {
        if let Some(status) = &node.term_status[i] {
            if status.free_variables.len() > 0 && status.coeff != 0 {
                proof {
                    lemma_status_abs_entry(s, i as int);
                }
                let twice: i64 = status.coeff + status.coeff;
                let p: i64 = if twice < 0 {
                    -twice
                } else {
                    twice
                };
                penalties.push(p);
                terms.push(i);
            }
        }
        i += 1;
    }
    (penalties, terms)
}

pub proof fn lemma_status_abs_entry(s: Seq<Option<PartiallyAssignedTerm>>, k: int)
    requires
        0 <= k < s.len(),
    ensures
        s[k] matches Some(p) ==> term::abs(p.coeff as int) <= node::status_abs(s),
        0 <= node::status_abs(s),
    decreases s.len(),
{
    if k < s.len() - 1 {
        lemma_status_abs_entry(s.drop_last(), k);
    } else if s.len() > 1 {
        lemma_status_abs_entry(s.drop_last(), 0);
    } else {
        assert(node::status_abs(s.drop_last()) == 0);
    }
}

/// The parity equation over the listed variables.
pub open spec fn parity_row(idx: Seq<usize>, n: nat, odd: bool) -> Seq<bool> {
    Seq::new(
        n + 1,
        |j: int|
            if j < n {
                idx.contains(j as usize)
            } else {
                odd
            },
    )
}

/// The parity equation over the listed variables.
pub fn build_row(indices: &[usize], n_vars: usize, odd: bool) -> (r: Vec<bool>)
    requires
        n_vars < usize::MAX,
        term::indices_below(indices@, n_vars as int),
    ensures
        r@ == parity_row(indices@, n_vars as nat, odd),
{
    let mut row: Vec<bool> = Vec::new();
    while row.len() <= n_vars
        invariant
            row@.len() <= n_vars + 1,
            n_vars < usize::MAX,
            forall|j: int| 0 <= j < row@.len() ==> !#[trigger] row@[j],
        decreases n_vars + 1 - row@.len(),
    {
        row.push(false);
    }
    let mut k: usize = 0;
    while k < indices.len()
        invariant
            k <= indices@.len(),
            n_vars < usize::MAX,
            term::indices_below(indices@, n_vars as int),
            row@.len() == n_vars + 1,
            forall|j: int|
                0 <= j < n_vars ==> #[trigger] row@[j] == indices@.take(k as int).contains(
                    j as usize,
                ),
            !row@[n_vars as int],
        decreases indices@.len() - k,
    {
        let v: usize = indices[k];
        proof {
            assert(indices@[k as int] < n_vars);
            sets::lemma_contains_take(indices@, k as int);
        }
        let ghost row0 = row@;
        row.set(v, true);
        assert forall|j: int| 0 <= j < n_vars implies #[trigger] row@[j] == indices@.take(
            k + 1,
        ).contains(j as usize) by {
            assert(row0[j] == indices@.take(k as int).contains(j as usize));
            assert(indices@.take(k + 1).contains(j as usize) == (indices@.take(k as int).contains(
                j as usize,
            ) || j as usize == v));
        }
        k += 1;
    }
    assert(indices@.take(k as int) =~= indices@);
    row.set(n_vars, odd);
    assert(row@ =~= parity_row(indices@, n_vars as nat, odd));
    row
}

/// The equations of the active terms: the product of a term's variables
/// should have the sign opposite to its coefficient.
pub open spec fn active_rows(
    terms: Seq<Term>,
    s: Seq<Option<PartiallyAssignedTerm>>,
    n: nat,
) -> Seq<Seq<bool>> {
    Seq::new(
        active_list(s, s.len()).len(),
        |l: int|
            parity_row(
                terms[active_list(s, s.len())[l] as int].indices@,
                n,
                s[active_list(s, s.len())[l] as int]->0.coeff > 0,
            ),
    )
}

/// What the violated equations have paid so far.
pub open spec fn paid(
    rows: Seq<Seq<bool>>,
    n: nat,
    pens: Seq<i64>,
    res: Seq<i64>,
    y: Seq<bool>,
    k: nat,
) -> int
    decreases k,
{
    if k == 0 {
        0
    } else {
        paid(rows, n, pens, res, y, (k - 1) as nat) + (if parity::sat(rows[k - 1], n, y) {
            0
        } else {
            pens[k - 1] - res[k - 1]
        })
    }
}

/// The equations that still have a penalty left.
pub open spec fn unpaid_rows(rows: Seq<Seq<bool>>, res: Seq<i64>, k: nat) -> Seq<Seq<bool>>
    decreases k,
{
    if k == 0 {
        Seq::empty()
    } else if res[k - 1] > 0 {
        unpaid_rows(rows, res, (k - 1) as nat).push(rows[k - 1])
    } else {
        unpaid_rows(rows, res, (k - 1) as nat)
    }
}

/// Those of the first `k` equations that still have a penalty left.
pub open spec fn unpaid_list(res: Seq<i64>, k: nat) -> Seq<usize>
    decreases k,
{
    if k == 0 {
        Seq::empty()
    } else if res[k - 1] > 0 {
        unpaid_list(res, (k - 1) as nat).push((k - 1) as usize)
    } else {
        unpaid_list(res, (k - 1) as nat)
    }
}

/// The contradiction that elimination finds among the equations with a penalty
/// left.
pub open spec fn is_eliminated(
    rows: Seq<Seq<bool>>,
    n: nat,
    res: Seq<i64>,
    core: Seq<usize>,
) -> bool {
    exists|c: Seq<usize>| #[trigger]
        parity::is_first_core(unpaid_rows(rows, res, res.len()), n, c) && core == Seq::new(
            c.len(),
            |q: int| unpaid_list(res, res.len())[c[q] as int],
        )
}

/// The least penalty left among the listed equations.
pub open spec fn least_left(res: Seq<i64>, core: Seq<usize>) -> int
    decreases core.len(),
{
    if core.len() <= 1 {
        res[core[0] as int] as int
    } else {
        let least = least_left(res, core.drop_last());
        let last = res[core.last() as int] as int;
        if last < least {
            last
        } else {
            least
        }
    }
}

/// A contradiction among equations with a penalty left, each listed once.
pub open spec fn is_payable(
    rows: Seq<Seq<bool>>,
    n: nat,
    res: Seq<i64>,
    core: Seq<usize>,
) -> bool {
    &&& core.no_duplicates()
    &&& forall|q: int|
        0 <= q < core.len() ==> (#[trigger] core[q]) < res.len() && res[core[q] as int] > 0
    &&& parity::sums_to_contradiction(rows, n, core)
}

/// The penalties left when each equation of a contradiction has paid the least
/// one among them.
pub open spec fn charged(res: Seq<i64>, core: Seq<usize>) -> Seq<i64> {
    Seq::new(
        res.len(),
        |l: int|
            if core.contains(l as usize) {
                (res[l] - least_left(res, core)) as i64
            } else {
                res[l]
            },
    )
}

/// The penalties left after the first `k` contradictions.
pub open spec fn left_after(pens: Seq<i64>, cores: Seq<Seq<usize>>, k: nat) -> Seq<i64>
    decreases k,
{
    if k == 0 {
        pens
    } else {
        charged(left_after(pens, cores, (k - 1) as nat), cores[k - 1])
    }
}

/// What the first `k` contradictions add to the bound: the least penalty left of
/// each.
pub open spec fn amounts(pens: Seq<i64>, cores: Seq<Seq<usize>>, k: nat) -> int
    decreases k,
{
    if k == 0 {
        0
    } else {
        amounts(pens, cores, (k - 1) as nat) + least_left(
            left_after(pens, cores, (k - 1) as nat),
            cores[k - 1],
        )
    }
}

/// Contradictions that are paid one after the other, until the equations with a
/// penalty left can be satisfied together.
pub open spec fn is_packing_run(
    rows: Seq<Seq<bool>>,
    n: nat,
    pens: Seq<i64>,
    cores: Seq<Seq<usize>>,
    bonus: int,
) -> bool {
    &&& forall|k: int|
        0 <= k < cores.len() ==> is_payable(
            rows,
            n,
            left_after(pens, cores, k as nat),
            #[trigger] cores[k],
        )
    &&& parity::satisfiable(
        unpaid_rows(rows, left_after(pens, cores, cores.len()), pens.len()),
        n,
    )
    &&& bonus == amounts(pens, cores, cores.len())
}

/// The penalty of each active term.
pub open spec fn active_penalties(s: Seq<Option<PartiallyAssignedTerm>>) -> Seq<int> {
    Seq::new(
        active_list(s, s.len()).len(),
        |l: int| 2 * term::abs(s[active_list(s, s.len())[l] as int]->0.coeff as int),
    )
}

/// The penalties of the active terms.
pub open spec fn are_penalties(s: Seq<Option<PartiallyAssignedTerm>>, pens: Seq<i64>) -> bool {
    &&& pens.len() == active_penalties(s).len()
    &&& forall|l: int| 0 <= l < pens.len() ==> #[trigger] pens[l] == active_penalties(s)[l]
}

/// The terms of a contradiction among the active terms.
pub open spec fn terms_of(s: Seq<Option<PartiallyAssignedTerm>>, core: Seq<usize>) -> Seq<usize> {
    Seq::new(core.len(), |q: int| active_list(s, s.len())[core[q] as int])
}

/// The terms of the first contradiction.
pub open spec fn first_terms(
    s: Seq<Option<PartiallyAssignedTerm>>,
    cores: Seq<Seq<usize>>,
) -> Option<Seq<usize>> {
    if cores.len() == 0 {
        None
    } else {
        Some(terms_of(s, cores[0]))
    }
}

/// The hinted terms are still a contradiction.
pub open spec fn is_valid_hint(
    terms: Seq<Term>,
    s: Seq<Option<PartiallyAssignedTerm>>,
    n: nat,
    hint: Seq<usize>,
) -> bool {
    hint.len() >= 2 && is_term_core(terms, s, n, hint)
}

/// Contradictions of the node's parity preferences are paid one after the other,
/// a hinted one first if it still is one, the others as elimination finds them:
/// they add up to `bonus`, and the first of them has the terms `first`.
pub open spec fn is_core_run(
    terms: Seq<Term>,
    s: Seq<Option<PartiallyAssignedTerm>>,
    n: nat,
    hint: Option<Seq<usize>>,
    bonus: int,
    first: Option<Seq<usize>>,
) -> bool {
    let hinted = hint matches Some(h) && is_valid_hint(terms, s, n, h);
    &&& exists|pens: Seq<i64>, cores: Seq<Seq<usize>>|
        are_penalties(s, pens) && #[trigger] is_packing_run(
            active_rows(terms, s, n),
            n,
            pens,
            cores,
            bonus,
        ) && first == first_terms(s, cores) && are_eliminated(
            active_rows(terms, s, n),
            n,
            pens,
            cores,
            hinted,
        )
    &&& hinted ==> first == hint
}

/// Elimination finds all contradictions but a hinted first one.
pub open spec fn are_eliminated(
    rows: Seq<Seq<bool>>,
    n: nat,
    pens: Seq<i64>,
    cores: Seq<Seq<usize>>,
    hinted: bool,
) -> bool {
    forall|k: int|
        0 <= k < cores.len() && !(hinted && k == 0) ==> is_eliminated(
            rows,
            n,
            left_after(pens, cores, k as nat),
            #[trigger] cores[k],
        )
}

/// `bonus` is what contradictions of the node's parity preferences add up to.
pub open spec fn is_core_bonus(
    terms: Seq<Term>,
    s: Seq<Option<PartiallyAssignedTerm>>,
    n: nat,
    bonus: int,
) -> bool {
    exists|first: Option<Seq<usize>>| #[trigger] is_core_run(terms, s, n, None, bonus, first)
}

/// The equations of all terms, by term index.
pub open spec fn term_rows(
    terms: Seq<Term>,
    s: Seq<Option<PartiallyAssignedTerm>>,
    n: nat,
) -> Seq<Seq<bool>> {
    Seq::new(
        terms.len(),
        |t: int|
            parity_row(
                terms[t].indices@,
                n,
                (match s[t] {
                    Some(p) => p.coeff > 0,
                    None => false,
                }),
            ),
    )
}

/// A contradiction among active terms of the node, as distinct term indices.
pub open spec fn is_term_core(
    terms: Seq<Term>,
    s: Seq<Option<PartiallyAssignedTerm>>,
    n: nat,
    core: Seq<usize>,
) -> bool {
    &&& core.no_duplicates()
    &&& forall|k: int|
        0 <= k < core.len() ==> (#[trigger] core[k]) < s.len() && is_active(s[core[k] as int])
    &&& parity::sums_to_contradiction(term_rows(terms, s, n), n, core)
}

/// Sums over equal rows are equal.
pub proof fn lemma_sum_map(
    a: Seq<Seq<bool>>,
    la: Seq<usize>,
    b: Seq<Seq<bool>>,
    lb: Seq<usize>,
    j: int,
)
    requires
        la.len() == lb.len(),
        forall|k: int|
            0 <= k < la.len() ==> a[#[trigger] la[k] as int] == b[lb[k] as int],
    ensures
        parity::sum_bit(a, la, j) == parity::sum_bit(b, lb, j),
    decreases la.len(),
{
    if la.len() > 0 {
        assert(la[la.len() - 1] == la.last());
        assert(lb[lb.len() - 1] == lb.last());
        assert forall|k: int| 0 <= k < la.drop_last().len() implies a[#[trigger] la.drop_last()[k] as int]
            == b[lb.drop_last()[k] as int] by {
            assert(la.drop_last()[k] == la[k]);
        }
        lemma_sum_map(a, la.drop_last(), b, lb.drop_last(), j);
    }
}

/// The positions of the hinted terms, if all of them have one and their
/// equations add up to a contradiction.
pub fn validate_hint_core(
    hint: &[usize],
    position: &[Option<usize>],
    active_eqs: &Vec<Vec<bool>>,
    n_vars: usize,
) -> (r: Option<Vec<usize>>)
    requires
        n_vars < usize::MAX,
        forall|i: int|
            0 <= i < active_eqs@.len() ==> (#[trigger] active_eqs@[i])@.len() == n_vars + 1,
        forall|t: int|
            0 <= t < position@.len() ==> ((#[trigger] position@[t]) matches Some(p) ==> p
                < active_eqs@.len()),
    ensures
        r matches Some(list) ==> hint_positions(hint@, position@) == Some(list@)
            && parity::sums_to_contradiction(parity::rows(active_eqs@), n_vars as nat, list@) && hint@.len() >= 2,
        r is None ==> hint@.len() < 2 || (match hint_positions(hint@, position@) {
            None => true,
            Some(list) => !parity::sums_to_contradiction(parity::rows(active_eqs@), n_vars as nat, list),
        }),
{
    if hint.len() < 2 {
        return None;
    }
    let ghost eqs = parity::rows(active_eqs@);
    let mut sum: Vec<bool> = Vec::new();
    while sum.len() <= n_vars
        invariant
            sum@.len() <= n_vars + 1,
            n_vars < usize::MAX,
            forall|j: int| 0 <= j < sum@.len() ==> !#[trigger] sum@[j],
        decreases n_vars + 1 - sum@.len(),
    {
        sum.push(false);
    }
    let mut positions: Vec<usize> = Vec::new();
    let mut k: usize = 0;
    assert(hint@.take(0) =~= Seq::empty());
    while k < hint.len()
        invariant
            k <= hint@.len(),
            n_vars < usize::MAX,
            eqs == parity::rows(active_eqs@),
            forall|i: int|
                0 <= i < active_eqs@.len() ==> (#[trigger] active_eqs@[i])@.len() == n_vars + 1,
            forall|t: int|
                0 <= t < position@.len() ==> ((#[trigger] position@[t]) matches Some(p) ==> p
                    < active_eqs@.len()),
            hint_positions(hint@.take(k as int), position@) == Some(positions@),
            forall|q: int|
                0 <= q < positions@.len() ==> (#[trigger] positions@[q]) < active_eqs@.len(),
            sum@.len() == n_vars + 1,
            forall|j: int|
                0 <= j <= n_vars ==> #[trigger] sum@[j] == parity::sum_bit(eqs, positions@, j),
        decreases hint@.len() - k,
    {
        let ti: usize = hint[k];
        let ghost before = positions@;
        proof {
            assert(hint@.take(k + 1).drop_last() =~= hint@.take(k as int));
        }
        if ti >= position.len() {
            proof {
                lemma_hint_missing(hint@, position@, k + 1);
            }
            return None;
        }
        match position[ti] {
            None => {
                proof {
                    lemma_hint_missing(hint@, position@, k + 1);
                }
                return None;
            },
            Some(pos) => {
                proof {
                    assert(position@[ti as int] == Some(pos));
                }
                parity::xor_assign(&mut sum, &active_eqs[pos]);
                positions.push(pos);
                proof {
                    assert(positions@.drop_last() =~= before);
                    assert(eqs[pos as int] == active_eqs@[pos as int]@);
                }
            },
        }
        k += 1;
    }
    assert(hint@.take(k as int) =~= hint@);
    let p: usize = parity::first_variable(&sum, 0, n_vars);
    if p == n_vars && sum[n_vars] {
        proof {
            assert forall|j: int| 0 <= j < n_vars implies !#[trigger] parity::sum_bit(
                eqs,
                positions@,
                j,
            ) by {
                assert(!sum@[j]);
            }
            assert(sum@[n_vars as int] == parity::sum_bit(eqs, positions@, n_vars as int));
        }
        Some(positions)
    } else {
        proof {
            assert(sum@[n_vars as int] == parity::sum_bit(eqs, positions@, n_vars as int));
            if p < n_vars {
                assert(sum@[p as int]);
                assert(parity::sum_bit(eqs, positions@, p as int));
            }
        }
        None
    }
}

/// The positions of the hinted terms, if all of them have one.
pub open spec fn hint_positions(hint: Seq<usize>, position: Seq<Option<usize>>) -> Option<
    Seq<usize>,
>
    decreases hint.len(),
{
    if hint.len() == 0 {
        Some(Seq::empty())
    } else {
        match hint_positions(hint.drop_last(), position) {
            None => None,
            Some(list) => if hint.last() < position.len() && position[hint.last() as int] is Some {
                Some(list.push(position[hint.last() as int]->0))
            } else {
                None
            },
        }
    }
}

proof fn lemma_hint_missing(hint: Seq<usize>, position: Seq<Option<usize>>, k: int)
    requires
        0 <= k <= hint.len(),
        hint_positions(hint.take(k), position) is None,
    ensures
        hint_positions(hint, position) is None,
    decreases hint.len() - k,
{
    if k == hint.len() {
        assert(hint.take(k) =~= hint);
    } else {
        assert(hint.take(k + 1).drop_last() =~= hint.take(k));
        lemma_hint_missing(hint, position, k + 1);
    }
}


proof fn lemma_unpaid(all: Seq<Seq<bool>>, res: Seq<i64>, k: nat)
    requires
        k <= res.len(),
        res.len() <= usize::MAX,
    ensures
        unpaid_list(res, k).len() == unpaid_rows(all, res, k).len(),
        sets::ascending(unpaid_list(res, k)),
        forall|p: int|
            0 <= p < unpaid_list(res, k).len() ==> (#[trigger] unpaid_list(res, k)[p]) < k
                && res[unpaid_list(res, k)[p] as int] > 0 && unpaid_rows(all, res, k)[p]
                == all[unpaid_list(res, k)[p] as int],
    decreases k,
{
    if k > 0 {
        lemma_unpaid(all, res, (k - 1) as nat);
    }
}

/// The equations that still have a penalty left, with their local indices.
/// Equations without penalty are marked inactive.
fn collect_unpaid<V: VarDomain>(
    instance: &HuboInstance<V>,
    node: &Node,
    locals: &Vec<usize>,
    res: &Vec<i64>,
    active: &mut FixedBitSet,
) -> (r: (Vec<usize>, Vec<Vec<bool>>))
    requires
        instance.wf(),
        instance.n() < usize::MAX,
        node.describes(instance),
        locals@ == active_list(node.term_status@, node.term_status@.len()),
        res@.len() == locals@.len(),
        bitset::bits(*old(active)).len() == res@.len(),
        forall|l: int| 0 <= l < res@.len() && !bitset::bits(*old(active))[l] ==> #[trigger] res@[l] <= 0,
    ensures
        r.0@ == unpaid_list(res@, res@.len()),
        parity::rows(r.1@) == unpaid_rows(
            active_rows(instance.terms@, node.term_status@, instance.n() as nat),
            res@,
            res@.len(),
        ),
        r.1@.len() == r.0@.len(),
        forall|i: int| 0 <= i < r.1@.len() ==> (#[trigger] r.1@[i])@.len() == instance.n() + 1,
        bitset::bits(*final(active)).len() == res@.len(),
        forall|l: int|
            0 <= l < res@.len() ==> #[trigger] bitset::bits(*final(active))[l] == (res@[l] > 0),
        bitset::count_true(bitset::bits(*final(active))) <= bitset::count_true(bitset::bits(*old(active))),
{
    let n: usize = instance.n_vars();
    let n_terms: usize = node.term_status.len();
    let m: usize = res.len();
    let ghost s = node.term_status@;
    let ghost all = active_rows(instance.terms@, s, n as nat);
    let ghost act0 = bitset::bits(*active);
    let mut map: Vec<usize> = Vec::new();
    let mut eqs: Vec<Vec<bool>> = Vec::new();
    let mut l: usize = 0;
    proof {
        lemma_active_list(s, s.len());
    }
    while l < m
        invariant
            l <= m,
            m == res@.len(),
            n == instance.n(),
            n < usize::MAX,
            n_terms == s.len(),
            instance.wf(),
            node.describes(instance),
            s == node.term_status@,
            all == active_rows(instance.terms@, s, n as nat),
            locals@ == active_list(s, s.len()),
            m == locals@.len(),
            forall|i: int|
                0 <= i < locals@.len() ==> (#[trigger] locals@[i]) < s.len() && is_active(
                    s[locals@[i] as int],
                ),
            act0.len() == m,
            forall|q: int| 0 <= q < m && !act0[q] ==> #[trigger] res@[q] <= 0,
            bitset::bits(*active).len() == m,
            forall|q: int| 0 <= q < l ==> #[trigger] bitset::bits(*active)[q] == (res@[q] > 0),
            forall|q: int| l <= q < m ==> #[trigger] bitset::bits(*active)[q] == act0[q],
            bitset::count_true(bitset::bits(*active)) <= bitset::count_true(act0),
            map@ == unpaid_list(res@, l as nat),
            parity::rows(eqs@) == unpaid_rows(all, res@, l as nat),
            eqs@.len() == map@.len(),
            forall|i: int| 0 <= i < eqs@.len() ==> (#[trigger] eqs@[i])@.len() == n + 1,
        decreases m - l,
    {
        let ghost act1 = bitset::bits(*active);
        if active.contains(l) {
            if res[l] > 0 {
                let ti: usize = locals[l];
                assert(term::indices_below(instance.terms@[ti as int].indices@, instance.n()));
                let positive = match &node.term_status[ti] {
                    Some(p) => p.coeff > 0,
                    None => false,
                };
                let row = build_row(instance.terms[ti].indices.as_slice(), n, positive);
                proof {
                    assert(is_active(s[locals@[l as int] as int]));
                    assert(row@ == all[l as int]);
                }
                let ghost eqs0 = eqs@;
                map.push(l);
                eqs.push(row);
                proof {
                    assert(parity::rows(eqs@) =~= parity::rows(eqs0).push(all[l as int]));
                }
            } else {
                proof {
                    bitset::lemma_count_true_update(act1, l as int, false);
                }
                active.set(l, false);
            }
        } else {
            assert(!act0[l as int]);
            assert(res@[l as int] <= 0);
        }
        l += 1;
    }
    proof {
        assert(unpaid_rows(all, res@, 0) =~= Seq::empty());
    }
    (map, eqs)
}

/// The position of each term among the collected equations.
fn positions_of(map: &Vec<usize>, locals: &Vec<usize>, n_terms: usize) -> (r: Vec<Option<usize>>)
    requires
        forall|p: int| 0 <= p < map@.len() ==> (#[trigger] map@[p]) < locals@.len(),
        forall|l: int| 0 <= l < locals@.len() ==> (#[trigger] locals@[l]) < n_terms,
    ensures
        r@.len() == n_terms,
        forall|t: int|
            0 <= t < n_terms ==> ((#[trigger] r@[t]) matches Some(p) ==> p < map@.len()
                && locals@[map@[p as int] as int] == t),
        forall|p: int|
            0 <= p < map@.len() ==> r@[locals@[#[trigger] map@[p] as int] as int] is Some,
{
    let mut out: Vec<Option<usize>> = Vec::new();
    while out.len() < n_terms
        invariant
            out@.len() <= n_terms,
            forall|t: int| 0 <= t < out@.len() ==> (#[trigger] out@[t]) is None,
        decreases n_terms - out@.len(),
    {
        out.push(None);
    }
    let mut p: usize = 0;
    while p < map.len()
        invariant
            p <= map@.len(),
            out@.len() == n_terms,
            forall|q: int| 0 <= q < map@.len() ==> (#[trigger] map@[q]) < locals@.len(),
            forall|l: int| 0 <= l < locals@.len() ==> (#[trigger] locals@[l]) < n_terms,
            forall|t: int|
                0 <= t < n_terms ==> ((#[trigger] out@[t]) matches Some(q) ==> q < map@.len()
                    && locals@[map@[q as int] as int] == t),
            forall|q: int|
                0 <= q < p ==> out@[locals@[#[trigger] map@[q] as int] as int] is Some,
        decreases map@.len() - p,
    {
        let l: usize = map[p];
        let t: usize = locals[l];
        out.set(t, Some(p));
        p += 1;
    }
    out
}

/// Distinct hinted terms have distinct positions.
proof fn lemma_hint_distinct(
    hint: Seq<usize>,
    position: Seq<Option<usize>>,
    map: Seq<usize>,
    locals: Seq<usize>,
)
    requires
        hint.no_duplicates(),
        hint_positions(hint, position) is Some,
        forall|t: int|
            0 <= t < position.len() ==> ((#[trigger] position[t]) matches Some(p) ==> p < map.len()
                && locals[map[p as int] as int] == t),
    ensures
        hint_positions(hint, position)->0.len() == hint.len(),
        forall|k: int|
            0 <= k < hint.len() ==> (#[trigger] hint_positions(hint, position)->0[k]) < map.len()
                && locals[map[hint_positions(hint, position)->0[k] as int] as int] == hint[k],
        hint_positions(hint, position)->0.no_duplicates(),
    decreases hint.len(),
{
    let r = hint_positions(hint, position)->0;
    if hint.len() > 0 {
        let p = hint.drop_last();
        assert(p.no_duplicates());
        lemma_hint_distinct(p, position, map, locals);
        let q = hint_positions(p, position)->0;
        assert(r =~= q.push(position[hint.last() as int]->0));
        assert(position[hint.last() as int] is Some);
        assert forall|k: int| 0 <= k < hint.len() implies (#[trigger] r[k]) < map.len()
            && locals[map[r[k] as int] as int] == hint[k] by {
            if k < q.len() {
                assert(r[k] == q[k]);
                assert(p[k] == hint[k]);
            }
        }
        assert forall|a: int, b: int| 0 <= a < r.len() && 0 <= b < r.len() && a != b implies r[a]
            != r[b] by {
            assert(hint[a] != hint[b]);
            assert(locals[map[r[a] as int] as int] == hint[a]);
            assert(locals[map[r[b] as int] as int] == hint[b]);
        }
    }
}

/// The row lists some variable.
pub open spec fn lists_variable(row: Seq<bool>, n: nat) -> bool {
    exists|j: int| 0 <= j < n && #[trigger] row[j]
}

/// Rows of which each lists a variable: one of them alone can be satisfied.
pub proof fn lemma_one_row_satisfiable(all: Seq<Seq<bool>>, n: nat)
    requires
        all.len() <= 1,
        forall|i: int| 0 <= i < all.len() ==> lists_variable(#[trigger] all[i], n),
    ensures
        parity::satisfiable(all, n),
{
    let zero = Seq::new(n, |j: int| false);
    if all.len() == 0 {
        assert(parity::satisfies(all, n, zero));
    } else {
        assert(lists_variable(all[0], n));
        let j = choose|j: int| 0 <= j < n && #[trigger] all[0][j];
        if parity::sat(all[0], n, zero) {
            assert(parity::satisfies(all, n, zero));
        } else {
            parity::lemma_dot_flip(all[0], zero, j, n);
            assert(parity::satisfies(all, n, zero.update(j, !zero[j])));
        }
    }
}

/// The sum of a list of penalties.
pub open spec fn total(res: Seq<i64>, k: nat) -> int
    decreases k,
{
    if k == 0 {
        0
    } else {
        total(res, (k - 1) as nat) + res[k - 1]
    }
}

proof fn lemma_total_nonneg(res: Seq<i64>, k: nat)
    requires
        k <= res.len(),
        forall|l: int| 0 <= l < res.len() ==> 0 <= #[trigger] res[l],
    ensures
        total(res, k) >= 0,
    decreases k,
{
    if k > 0 {
        lemma_total_nonneg(res, (k - 1) as nat);
        assert(0 <= res[k - 1]);
    }
}

/// All penalties together are at most twice the absolute coefficients.
proof fn lemma_total_penalties(s: Seq<Option<PartiallyAssignedTerm>>, pens: Seq<i64>, k: nat)
    requires
        k <= s.len(),
        s.len() <= usize::MAX,
        active_list(s, k).len() <= pens.len(),
        forall|l: int|
            0 <= l < active_list(s, k).len() ==> #[trigger] pens[l] == 2 * term::abs(
                s[active_list(s, k)[l] as int]->0.coeff as int,
            ),
    ensures
        total(pens, active_list(s, k).len()) <= 2 * node::status_abs(s.take(k as int)),
    decreases k,
{
    if k > 0 {
        let k1 = (k - 1) as nat;
        let a = active_list(s, k1);
        let b = active_list(s, k);
        assert forall|l: int| 0 <= l < a.len() implies #[trigger] pens[l] == 2 * term::abs(
            s[a[l] as int]->0.coeff as int,
        ) by {
            assert(b[l] == a[l]);
        }
        lemma_total_penalties(s, pens, k1);
        assert(s.take(k as int).drop_last() =~= s.take(k1 as int));
        if is_active(s[k1 as int]) {
            assert(b[b.len() - 1] == k1 as usize);
            assert(pens[b.len() - 1] == 2 * term::abs(s[b[b.len() - 1] as int]->0.coeff as int));
        }
    }
}

/// The least penalty left is one of those listed, and none is less.
pub proof fn lemma_least_left(res: Seq<i64>, core: Seq<usize>) -> (q: int)
    requires
        core.len() > 0,
    ensures
        0 <= q < core.len(),
        res[core[q] as int] == least_left(res, core),
        forall|r: int|
            0 <= r < core.len() ==> least_left(res, core) <= res[#[trigger] core[r] as int],
    decreases core.len(),
{
    if core.len() == 1 {
        0
    } else {
        let p = core.drop_last();
        let q = lemma_least_left(res, p);
        assert forall|r: int| 0 <= r < core.len() implies least_left(res, core)
            <= res[#[trigger] core[r] as int] by {
            if r < p.len() {
                assert(p[r] == core[r]);
            }
        }
        if res[core.last() as int] < least_left(res, p) {
            core.len() - 1
        } else {
            q
        }
    }
}

/// What a payment does to the first `k` penalties, where the contradiction lists
/// `v` and `y` violates the equation of `v`.
proof fn lemma_charged_sums(
    all: Seq<Seq<bool>>,
    n: nat,
    pens: Seq<i64>,
    res: Seq<i64>,
    core: Seq<usize>,
    v: int,
    y: Seq<bool>,
    k: nat,
)
    requires
        is_payable(all, n, res, core),
        core.len() > 0,
        core.contains(v as usize),
        0 <= v < res.len(),
        res.len() <= usize::MAX,
        !parity::sat(all[v], n, y),
        k <= res.len(),
        forall|l: int| 0 <= l < res.len() ==> 0 <= #[trigger] res[l],
    ensures
        paid(all, n, pens, charged(res, core), y, k) >= paid(all, n, pens, res, y, k) + (if v < k {
            least_left(res, core)
        } else {
            0
        }),
        total(charged(res, core), k) <= total(res, k) - (if v < k {
            least_left(res, core)
        } else {
            0
        }),
    decreases k,
{
    if k > 0 {
        lemma_charged_sums(all, n, pens, res, core, v, y, (k - 1) as nat);
        lemma_charged_entry(all, n, res, core, k - 1);
    }
}

proof fn lemma_charged_entry(
    all: Seq<Seq<bool>>,
    n: nat,
    res: Seq<i64>,
    core: Seq<usize>,
    l: int,
)
    requires
        is_payable(all, n, res, core),
        core.len() > 0,
        0 <= l < res.len() <= usize::MAX,
        0 <= res[l],
    ensures
        least_left(res, core) > 0,
        0 <= charged(res, core)[l] <= res[l],
        charged(res, core)[l] == res[l] - (if core.contains(l as usize) {
            least_left(res, core)
        } else {
            0
        }),
{
    let q = lemma_least_left(res, core);
    assert(res[core[q] as int] > 0);
    if core.contains(l as usize) {
        let r = choose|r: int| 0 <= r < core.len() && core[r] == l as usize;
        assert(least_left(res, core) <= res[core[r] as int]);
    }
}

/// What the first `k` payments of a run have done.
pub proof fn lemma_run_left(
    all: Seq<Seq<bool>>,
    n: nat,
    pens: Seq<i64>,
    cores: Seq<Seq<usize>>,
    k: nat,
)
    requires
        k <= cores.len(),
        pens.len() == all.len(),
        pens.len() <= usize::MAX,
        forall|i: int| 0 <= i < all.len() ==> (#[trigger] all[i]).len() == n + 1,
        forall|l: int| 0 <= l < pens.len() ==> 0 <= #[trigger] pens[l],
        forall|j: int|
            0 <= j < k ==> is_payable(
                all,
                n,
                left_after(pens, cores, j as nat),
                #[trigger] cores[j],
            ),
    ensures
        left_after(pens, cores, k).len() == pens.len(),
        forall|l: int|
            0 <= l < pens.len() ==> 0 <= #[trigger] left_after(pens, cores, k)[l] <= pens[l],
        amounts(pens, cores, k) >= 0,
        k > 0 ==> amounts(pens, cores, k) > 0,
        amounts(pens, cores, k) + total(left_after(pens, cores, k), pens.len()) <= total(
            pens,
            pens.len(),
        ),
        forall|y: Seq<bool>| #[trigger]
            paid(all, n, pens, left_after(pens, cores, k), y, pens.len()) >= amounts(
                pens,
                cores,
                k,
            ),
    decreases k,
{
    if k == 0 {
        assert forall|y: Seq<bool>| #[trigger] paid(
            all,
            n,
            pens,
            left_after(pens, cores, k),
            y,
            pens.len(),
        ) >= amounts(pens, cores, k) by {
            lemma_paid_zero(all, n, pens, y, pens.len());
        }
    } else {
        let k1 = (k - 1) as nat;
        lemma_run_left(all, n, pens, cores, k1);
        let res = left_after(pens, cores, k1);
        let core = cores[k1 as int];
        let next = left_after(pens, cores, k);
        assert(is_payable(all, n, left_after(pens, cores, k1), cores[k1 as int]));
        assert(next == charged(res, core));
        if core.len() == 0 {
            assert(!parity::sum_bit(all, core, n as int));
        }
        assert forall|l: int| 0 <= l < pens.len() implies 0 <= #[trigger] next[l] <= pens[l] by {
            assert(0 <= res[l] <= pens[l]);
            lemma_charged_entry(all, n, res, core, l);
        }
        assert(core[0] < res.len());
        assert(0 <= res[core[0] as int]);
        lemma_charged_entry(all, n, res, core, core[0] as int);
        assert forall|y: Seq<bool>| #[trigger] paid(all, n, pens, next, y, pens.len()) >= amounts(
            pens,
            cores,
            k,
        ) && amounts(pens, cores, k) + total(next, pens.len()) <= total(pens, pens.len()) by {
            let q = parity::contradiction_is_violated(all, n, core, y);
            assert(core.contains(core[q]));
            lemma_charged_sums(all, n, pens, res, core, core[q] as int, y, pens.len());
            assert(paid(all, n, pens, res, y, pens.len()) >= amounts(pens, cores, k1));
        }
        let z: Seq<bool> = Seq::empty();
        assert(paid(all, n, pens, next, z, pens.len()) >= amounts(pens, cores, k));
    }
}

/// What was left does not depend on later contradictions.
proof fn lemma_left_prefix(
    pens: Seq<i64>,
    cores: Seq<Seq<usize>>,
    c: Seq<usize>,
    k: nat,
)
    requires
        k <= cores.len(),
    ensures
        left_after(pens, cores.push(c), k) == left_after(pens, cores, k),
        amounts(pens, cores.push(c), k) == amounts(pens, cores, k),
    decreases k,
{
    if k > 0 {
        lemma_left_prefix(pens, cores, c, (k - 1) as nat);
    }
}

/// The equations of the active terms, by position and by term.
proof fn lemma_rows_of_terms(
    terms: Seq<Term>,
    s: Seq<Option<PartiallyAssignedTerm>>,
    n: nat,
    core: Seq<usize>,
)
    requires
        s.len() == terms.len(),
        s.len() <= usize::MAX,
        forall|q: int|
            0 <= q < core.len() ==> (#[trigger] core[q]) < active_list(s, s.len()).len(),
    ensures
        forall|j: int| #[trigger]
            parity::sum_bit(active_rows(terms, s, n), core, j) == parity::sum_bit(
                term_rows(terms, s, n),
                terms_of(s, core),
                j,
            ),
{
    let all = active_rows(terms, s, n);
    let tr = term_rows(terms, s, n);
    lemma_active_list(s, s.len());
    assert forall|q: int| 0 <= q < core.len() implies all[#[trigger] core[q] as int]
        == tr[terms_of(s, core)[q] as int] by {
        let t = active_list(s, s.len())[core[q] as int] as int;
        assert(is_active(s[t]));
        assert(all[core[q] as int] =~= tr[t]);
    }
    assert forall|j: int| #[trigger]
        parity::sum_bit(all, core, j) == parity::sum_bit(tr, terms_of(s, core), j) by {
        lemma_sum_map(all, core, tr, terms_of(s, core), j);
    }
}

/// The terms of a contradiction among the active terms are one among all terms.
proof fn lemma_terms_of_core(
    terms: Seq<Term>,
    s: Seq<Option<PartiallyAssignedTerm>>,
    n: nat,
    res: Seq<i64>,
    core: Seq<usize>,
)
    requires
        s.len() == terms.len(),
        s.len() <= usize::MAX,
        res.len() == active_list(s, s.len()).len(),
        is_payable(active_rows(terms, s, n), n, res, core),
    ensures
        is_term_core(terms, s, n, terms_of(s, core)),
{
    let a = active_list(s, s.len());
    let g = terms_of(s, core);
    let all = active_rows(terms, s, n);
    lemma_active_list(s, s.len());
    assert forall|q: int| 0 <= q < core.len() implies (#[trigger] core[q]) < a.len() by {
        assert(res[core[q] as int] > 0);
    }
    lemma_rows_of_terms(terms, s, n, core);
    assert forall|q: int| 0 <= q < g.len() implies (#[trigger] g[q]) < s.len() && is_active(
        s[g[q] as int],
    ) by {
        assert(core[q] < a.len());
        assert(a[core[q] as int] < s.len());
    }
    assert forall|i: int, j: int| 0 <= i < g.len() && 0 <= j < g.len() && i != j implies g[i]
        != g[j] by {
        assert(core[i] != core[j]);
        assert(core[i] < a.len() && core[j] < a.len());
        lemma_ascending_distinct(a, core[i] as int, core[j] as int);
    }
    assert forall|j: int| 0 <= j < n implies !#[trigger] parity::sum_bit(
        term_rows(terms, s, n),
        g,
        j,
    ) by {
        assert(!parity::sum_bit(all, core, j));
    }
    assert(parity::sum_bit(all, core, n as int));
}

/// Where all equations have a penalty left, all of them are listed.
proof fn lemma_none_paid(res: Seq<i64>, k: nat)
    requires
        k <= res.len() <= usize::MAX,
        forall|l: int| 0 <= l < res.len() ==> #[trigger] res[l] > 0,
    ensures
        unpaid_list(res, k).len() == k,
        forall|l: int| 0 <= l < k ==> #[trigger] unpaid_list(res, k)[l] == l,
    decreases k,
{
    if k > 0 {
        lemma_none_paid(res, (k - 1) as nat);
        assert(res[k - 1] > 0);
    }
}

/// Terms that all have a position have a list of positions.
proof fn lemma_hint_found(hint: Seq<usize>, position: Seq<Option<usize>>)
    requires
        forall|q: int|
            0 <= q < hint.len() ==> (#[trigger] hint[q]) < position.len()
                && position[hint[q] as int] is Some,
    ensures
        hint_positions(hint, position) is Some,
    decreases hint.len(),
{
    if hint.len() > 0 {
        let p = hint.drop_last();
        assert forall|q: int| 0 <= q < p.len() implies (#[trigger] p[q]) < position.len()
            && position[p[q] as int] is Some by {
            assert(p[q] == hint[q]);
        }
        lemma_hint_found(p, position);
        assert(hint[hint.len() - 1] < position.len());
    }
}

/// The entries of a map at the listed places.
fn mapped(core: &Vec<usize>, map: &Vec<usize>) -> (r: Vec<usize>)
    requires
        forall|q: int| 0 <= q < core@.len() ==> (#[trigger] core@[q]) < map@.len(),
    ensures
        r@ == Seq::new(core@.len(), |q: int| map@[core@[q] as int]),
{
    let mut out: Vec<usize> = Vec::new();
    let mut q: usize = 0;
    while q < core.len()
        invariant
            q <= core@.len(),
            forall|a: int| 0 <= a < core@.len() ==> (#[trigger] core@[a]) < map@.len(),
            out@.len() == q,
            forall|a: int| 0 <= a < q ==> #[trigger] out@[a] == map@[core@[a] as int],
        decreases core@.len() - q,
    {
        out.push(map[core[q]]);
        q += 1;
    }
    assert(out@ =~= Seq::new(core@.len(), |q: int| map@[core@[q] as int]));
    out
}

/// The next contradiction among the equations with a penalty left: the hinted one
/// if it still is one, else one found by elimination.
fn next_core<V: VarDomain>(
    instance: &HuboInstance<V>,
    node: &Node,
    locals: &Vec<usize>,
    res: &Vec<i64>,
    map: &Vec<usize>,
    eqs: Vec<Vec<bool>>,
    hint: Option<&[usize]>,
) -> (r: Option<Vec<usize>>)
    requires
        instance.wf(),
        instance.n() < usize::MAX,
        instance.terms@.len() <= usize::MAX,
        node.describes(instance),
        locals@ == active_list(node.term_status@, node.term_status@.len()),
        res@.len() == locals@.len(),
        map@ == unpaid_list(res@, res@.len()),
        parity::rows(eqs@) == unpaid_rows(
            active_rows(instance.terms@, node.term_status@, instance.n() as nat),
            res@,
            res@.len(),
        ),
        forall|i: int| 0 <= i < eqs@.len() ==> (#[trigger] eqs@[i])@.len() == instance.n() + 1,
        hint matches Some(h) ==> h@.no_duplicates(),
    ensures
        r is None ==> parity::satisfiable(parity::rows(eqs@), instance.n() as nat),
        r matches Some(core) ==> is_payable(
            active_rows(instance.terms@, node.term_status@, instance.n() as nat),
            instance.n() as nat,
            res@,
            core@,
        ),
        (r is Some && !(hint matches Some(h) && is_valid_hint(
            instance.terms@,
            node.term_status@,
            instance.n() as nat,
            h@,
        ))) ==> is_eliminated(
            active_rows(instance.terms@, node.term_status@, instance.n() as nat),
            instance.n() as nat,
            res@,
            r->0@,
        ),
        (hint matches Some(h) && is_valid_hint(
            instance.terms@,
            node.term_status@,
            instance.n() as nat,
            h@,
        ) && (forall|l: int| 0 <= l < res@.len() ==> #[trigger] res@[l] > 0)) ==> (r matches Some(
            core,
        ) && terms_of(node.term_status@, core@) == hint->0@),
{
    let n: usize = instance.n_vars();
    let n_terms: usize = node.term_status.len();
    let m: usize = res.len();
    let ghost s = node.term_status@;
    let ghost all = active_rows(instance.terms@, s, n as nat);
    let ghost unp = unpaid_rows(all, res@, m as nat);
    let ghost tr = term_rows(instance.terms@, s, n as nat);
    proof {
        lemma_active_list(s, s.len());
        lemma_unpaid(all, res@, m as nat);
        assert(unp.len() == eqs@.len());
    }
    let mut core: Option<Vec<usize>> = None;
    if let Some(h) = hint {
        let position = positions_of(map, locals, n_terms);
        let found = validate_hint_core(h, position.as_slice(), &eqs, n);
        proof {
            if hint_positions(h@, position@) is Some {
                lemma_hint_distinct(h@, position@, map@, locals@);
                let list = hint_positions(h@, position@)->0;
                let loc = Seq::new(list.len(), |q: int| map@[list[q] as int]);
                assert forall|q: int| 0 <= q < loc.len() implies (#[trigger] loc[q])
                    < locals@.len() by {
                    assert(list[q] < map@.len());
                }
                assert(terms_of(s, loc) =~= h@) by {
                    assert forall|q: int| 0 <= q < h@.len() implies terms_of(s, loc)[q] == h@[q] by {
                        assert(list[q] < map@.len());
                        assert(loc[q] < locals@.len());
                    }
                }
                lemma_rows_of_terms(instance.terms@, s, n as nat, loc);
                assert forall|j: int| #[trigger]
                    parity::sum_bit(unp, list, j) == parity::sum_bit(tr, h@, j) by {
                    assert forall|q: int| 0 <= q < list.len() implies unp[#[trigger] list[q] as int]
                        == all[loc[q] as int] by {
                        assert(list[q] < map@.len());
                    }
                    lemma_sum_map(unp, list, all, loc, j);
                    assert(parity::sum_bit(all, loc, j) == parity::sum_bit(
                        tr,
                        terms_of(s, loc),
                        j,
                    ));
                }
            }
            if is_valid_hint(instance.terms@, s, n as nat, h@) && (forall|l: int|
                0 <= l < res@.len() ==> #[trigger] res@[l] > 0) {
                lemma_none_paid(res@, m as nat);
                assert forall|q: int| 0 <= q < h@.len() implies (#[trigger] h@[q]) < position@.len()
                    && position@[h@[q] as int] is Some by {
                    assert(h@[q] < s.len() && is_active(s[h@[q] as int]));
                    assert(locals@.contains(h@[q]));
                    let l = choose|l: int| 0 <= l < locals@.len() && locals@[l] == h@[q];
                    assert(map@[l] == l);
                    assert(position@[locals@[map@[l] as int] as int] is Some);
                }
                lemma_hint_found(h@, position@);
                let list = hint_positions(h@, position@)->0;
                assert(parity::sums_to_contradiction(unp, n as nat, list)) by {
                    assert forall|q: int| 0 <= q < list.len() implies (#[trigger] list[q])
                        < unp.len() by {}
                    assert forall|j: int| 0 <= j < n implies !#[trigger] parity::sum_bit(
                        unp,
                        list,
                        j,
                    ) by {
                        assert(!parity::sum_bit(tr, h@, j));
                    }
                    assert(parity::sum_bit(tr, h@, n as int));
                }
                assert(found is Some);
            }
        }
        core = found;
    }
    let ghost hinted = core;
    if core.is_none() {
        core = parity::parity_unsat_core(eqs, n);
    }
    match core {
        None => None,
        Some(core) => {
            let ghost cs = core@;
            assert(parity::sums_to_contradiction(unp, n as nat, cs));
            assert(cs.no_duplicates());
            assert forall|q: int| 0 <= q < cs.len() implies (#[trigger] cs[q]) < map@.len() by {
                assert(cs[q] < unp.len());
            }
            let r = mapped(&core, map);
            proof {
                assert forall|q: int| 0 <= q < cs.len() implies unp[#[trigger] cs[q] as int]
                    == all[r@[q] as int] by {
                    assert(cs[q] < map@.len());
                }
                assert forall|q: int| 0 <= q < r@.len() implies (#[trigger] r@[q]) < res@.len()
                    && res@[r@[q] as int] > 0 by {
                    assert(cs[q] < map@.len());
                    assert(map@[cs[q] as int] < m);
                }
                assert forall|i: int, j: int| 0 <= i < r@.len() && 0 <= j < r@.len() && i
                    != j implies r@[i] != r@[j] by {
                    assert(cs[i] != cs[j]);
                    assert(cs[i] < map@.len() && cs[j] < map@.len());
                    lemma_ascending_distinct(map@, cs[i] as int, cs[j] as int);
                }
                assert forall|j: int| parity::sum_bit(unp, cs, j) == #[trigger] parity::sum_bit(
                    all,
                    r@,
                    j,
                ) by {
                    lemma_sum_map(unp, cs, all, r@, j);
                }
                assert(parity::sum_bit(unp, cs, n as int));
                assert(is_payable(all, n as nat, res@, r@));
                if hinted is None {
                    assert(parity::is_first_core(unp, n as nat, cs));
                    assert(is_eliminated(all, n as nat, res@, r@));
                } else {
                    let h = hint->0@;
                    lemma_terms_of_core(instance.terms@, s, n as nat, res@, r@);
                    assert(terms_of(s, r@) =~= h) by {
                        assert forall|q: int| 0 <= q < h.len() implies terms_of(s, r@)[q]
                            == h[q] by {
                            assert(cs[q] < map@.len());
                        }
                    }
                }
            }
            Some(r)
        },
    }
}

/// The least penalty left among the listed equations, and an equation that has it.
fn least_of(res: &Vec<i64>, core: &Vec<usize>) -> (r: (usize, i64))
    requires
        core@.len() > 0,
        forall|q: int| 0 <= q < core@.len() ==> (#[trigger] core@[q]) < res@.len(),
    ensures
        core@.contains(r.0),
        res@[r.0 as int] == r.1,
        r.1 == least_left(res@, core@),
{
    let mut at: usize = core[0];
    let mut least: i64 = res[at];
    let mut k: usize = 1;
    assert(core@.take(1)[0] == core@[0]);
    while k < core.len()
        invariant
            1 <= k <= core@.len(),
            forall|q: int| 0 <= q < core@.len() ==> (#[trigger] core@[q]) < res@.len(),
            core@.contains(at),
            at < res@.len(),
            res@[at as int] == least,
            least == least_left(res@, core@.take(k as int)),
        decreases core@.len() - k,
    {
        let l: usize = core[k];
        assert(core@.take(k + 1).drop_last() =~= core@.take(k as int));
        assert(core@.contains(l));
        if res[l] < least {
            at = l;
            least = res[l];
        }
        k += 1;
    }
    assert(core@.take(k as int) =~= core@);
    (at, least)
}

/// Let each listed equation pay an amount.
fn charge(res: &mut Vec<i64>, core: &Vec<usize>, amount: i64)
    requires
        core@.no_duplicates(),
        amount == least_left(old(res)@, core@),
        amount > 0,
        old(res)@.len() <= usize::MAX,
        forall|q: int|
            0 <= q < core@.len() ==> (#[trigger] core@[q]) < old(res)@.len()
                && old(res)@[core@[q] as int] >= amount,
    ensures
        final(res)@ == charged(old(res)@, core@),
{
    let ghost res0 = res@;
    let mut k: usize = 0;
    while k < core.len()
        invariant
            k <= core@.len(),
            core@.no_duplicates(),
            amount > 0,
            amount == least_left(res0, core@),
            res@.len() == res0.len(),
            res0.len() <= usize::MAX,
            forall|q: int|
                0 <= q < core@.len() ==> (#[trigger] core@[q]) < res0.len()
                    && res0[core@[q] as int] >= amount,
            forall|l: int|
                0 <= l < res0.len() ==> #[trigger] res@[l] == res0[l] - (if core@.take(
                    k as int,
                ).contains(l as usize) {
                    amount as int
                } else {
                    0
                }),
        decreases core@.len() - k,
    {
        let l: usize = core[k];
        let ghost before = res@;
        proof {
            assert(core@[k as int] < res0.len());
            assert(!core@.take(k as int).contains(l)) by {
                if core@.take(k as int).contains(l) {
                    let q = choose|q: int|
                        0 <= q < core@.take(k as int).len() && core@.take(k as int)[q] == l;
                    assert(core@[q] == core@[k as int]);
                }
            }
            assert(res@[l as int] == res0[l as int]);
        }
        let v: i64 = res[l] - amount;
        res.set(l, v);
        proof {
            sets::lemma_contains_take(core@, k as int);
            assert forall|i: int| 0 <= i < res0.len() implies #[trigger] res@[i] == res0[i] - (
            if core@.take(k + 1).contains(i as usize) {
                amount as int
            } else {
                0
            }) by {
                assert(before[i] == res0[i] - (if core@.take(k as int).contains(i as usize) {
                    amount as int
                } else {
                    0
                }));
                assert(core@.take(k + 1).contains(i as usize) == (core@.take(k as int).contains(
                    i as usize,
                ) || i as usize == l));
            }
        }
        k += 1;
    }
    assert(core@.take(k as int) =~= core@);
    assert(res@ =~= charged(res0, core@));
}

/// The tightening of the spin bound by parity contradictions, and the first
/// contradiction found.
///
/// A hinted contradiction of the parent node is tried first.
pub fn unsat_core_bonus_and_core<V: VarDomain>(
    instance: &HuboInstance<V>,
    node: &Node,
    hint: Option<&[usize]>,
) -> (r: (i64, Option<Vec<usize>>))
    requires
        instance.wf(),
        instance.fits(),
        instance.n() < usize::MAX,
        node.describes(instance),
        hint matches Some(h) ==> h@.no_duplicates(),
    ensures
        is_core_run(
            instance.terms@,
            node.term_status@,
            instance.n() as nat,
            hint_view(hint),
            r.0 as int,
            core_view(r.1),
        ),
        0 <= r.0 <= 2 * node::status_abs(node.term_status@),
        r.1 is Some <==> r.0 > 0,
        r.1 matches Some(core) ==> is_term_core(
            instance.terms@,
            node.term_status@,
            instance.n() as nat,
            core@,
        ),
{
    let ghost s = node.term_status@;
    let n: usize = instance.n_vars();
    let n_terms: usize = node.term_status.len();
    proof {
        lemma_bound_size(instance, node);
    }
    let (penalties, locals) = get_residual_penalties(node);
    let ghost pens = penalties@;
    let m: usize = penalties.len();
    let ghost all = active_rows(instance.terms@, s, n as nat);
    let ghost valid = hint matches Some(h) && is_valid_hint(instance.terms@, s, n as nat, h@);
    proof {
        lemma_active_list(s, s.len());
        lemma_total_penalties(s, pens, s.len());
        assert(s.take(s.len() as int) =~= s);
        assert(are_penalties(s, pens));
        assert forall|l: int| 0 <= l < pens.len() implies #[trigger] pens[l] > 0 by {
            assert(is_active(s[locals@[l] as int]));
        }
        assert forall|l: int| 0 <= l < all.len() implies lists_variable(
            #[trigger] all[l],
            n as nat,
        ) by {
            let t = locals@[l] as int;
            assert(is_active(s[t]));
            assert(node::status_ok(V::tag(), instance.terms@[t], node.fixed@, s[t]));
            let p = s[t]->0;
            node::lemma_free_list_subset(instance.terms@[t].indices@, node.fixed@);
            let v = p.free_variables@[0];
            assert(p.free_variables@.contains(v));
            assert(instance.terms@[t].indices@.contains(v));
            let q = choose|q: int|
                0 <= q < instance.terms@[t].indices@.len() && instance.terms@[t].indices@[q] == v;
            assert(term::indices_below(instance.terms@[t].indices@, n as int));
            assert(instance.terms@[t].indices@[q] < n);
            assert(all[l][v as int]);
        }
        assert forall|i: int| 0 <= i < all.len() implies (#[trigger] all[i]).len() == n + 1 by {}
        if valid {
            let h = hint->0@;
            assert(is_active(s[h[0] as int]) && is_active(s[h[1] as int]));
            assert(locals@.contains(h[0]) && locals@.contains(h[1]));
            assert(h[0] != h[1]);
            let i = choose|i: int| 0 <= i < locals@.len() && locals@[i] == h[0];
            let j = choose|j: int| 0 <= j < locals@.len() && locals@[j] == h[1];
            assert(i != j);
        }
    }
    let mut res = penalties;
    let mut active = FixedBitSet::with_capacity(m);
    bitset::set_all(&mut active, true);
    let mut bonus: i64 = 0;
    let mut first_core: Option<Vec<usize>> = None;
    let mut is_first = true;
    let mut go = true;
    let ghost mut cores: Seq<Seq<usize>> = Seq::empty();
    while go
        invariant
            instance.wf(),
            instance.fits(),
            instance.terms@.len() == s.len(),
            node.describes(instance),
            s == node.term_status@,
            n == instance.n(),
            n < usize::MAX,
            n_terms == s.len(),
            all == active_rows(instance.terms@, s, n as nat),
            locals@ == active_list(s, s.len()),
            m == pens.len(),
            all.len() == m,
            locals@.len() == m,
            res@.len() == m,
            hint matches Some(h) ==> h@.no_duplicates(),
            valid == (hint matches Some(h) && is_valid_hint(instance.terms@, s, n as nat, h@)),
            valid ==> m >= 2,
            forall|i: int| 0 <= i < all.len() ==> (#[trigger] all[i]).len() == n + 1,
            forall|l: int| 0 <= l < all.len() ==> lists_variable(#[trigger] all[l], n as nat),
            forall|l: int| 0 <= l < pens.len() ==> #[trigger] pens[l] > 0,
            bitset::bits(active).len() == m,
            forall|l: int| 0 <= l < m && !bitset::bits(active)[l] ==> #[trigger] res@[l] <= 0,
            forall|k: int|
                0 <= k < cores.len() ==> is_payable(
                    all,
                    n as nat,
                    left_after(pens, cores, k as nat),
                    #[trigger] cores[k],
                ),
            res@ == left_after(pens, cores, cores.len()),
            bonus == amounts(pens, cores, cores.len()),
            core_view(first_core) == first_terms(s, cores),
            is_first ==> cores.len() == 0,
            valid && !is_first ==> first_terms(s, cores) == Some(hint->0@),
            are_eliminated(all, n as nat, pens, cores, valid),
            go || !is_first || !valid,
            total(pens, m as nat) <= 2 * node::status_abs(s),
            2 * node::status_abs(s) <= i64::MAX,
            !go ==> parity::satisfiable(unpaid_rows(all, res@, m as nat), n as nat),
        decreases (if go { 1int } else { 0 }) + bitset::count_true(bitset::bits(active)),
    {
        let (map, eqs) = collect_unpaid(instance, node, &locals, &res, &mut active);
        let ghost unp = unpaid_rows(all, res@, m as nat);
        proof {
            lemma_unpaid(all, res@, m as nat);
            lemma_run_left(all, n as nat, pens, cores, cores.len());
            lemma_total_nonneg(res@, m as nat);
            if is_first {
                lemma_none_paid(res@, m as nat);
            }
        }
        if eqs.len() < 2 {
            proof {
                assert(unp.len() == parity::rows(eqs@).len());
                assert forall|i: int| 0 <= i < unp.len() implies lists_variable(
                    #[trigger] unp[i],
                    n as nat,
                ) by {
                    let l = unpaid_list(res@, m as nat)[i] as int;
                    assert(unp[i] == all[l]);
                }
                lemma_one_row_satisfiable(unp, n as nat);
            }
            go = false;
        } else {
            let tried: Option<&[usize]> = if is_first {
                hint
            } else {
                None
            };
            let ghost was_first = is_first;
            is_first = false;
            match next_core(instance, node, &locals, &res, &map, eqs, tried) {
                None => {
                    go = false;
                },
                Some(core) => {
                    let ghost cs = core@;
                    let ghost res0 = res@;
                    proof {
                        if cs.len() == 0 {
                            assert(!parity::sum_bit(all, cs, n as int));
                        }
                        let q = lemma_least_left(res0, cs);
                        assert(res0[cs[q] as int] > 0);
                        assert(cs[q] < m);
                        lemma_total_entry(res0, cs[q] as int, m as nat);
                    }
                    let (min_idx, min_pen) = least_of(&res, &core);
                    let ghost q0 = choose|q: int| 0 <= q < cs.len() && cs[q] == min_idx;
                    assert(cs[q0] < m && res0[min_idx as int] > 0);
                    if first_core.is_none() {
                        let global = mapped(&core, &locals);
                        proof {
                            assert(global@ =~= terms_of(s, cs));
                        }
                        first_core = Some(global);
                    }
                    bonus = bonus + min_pen;
                    charge(&mut res, &core, min_pen);
                    let ghost cores0 = cores;
                    proof {
                        cores = cores0.push(cs);
                        assert forall|k: int| 0 <= k < cores.len() implies is_payable(
                            all,
                            n as nat,
                            left_after(pens, cores, k as nat),
                            #[trigger] cores[k],
                        ) by {
                            lemma_left_prefix(pens, cores0, cs, k as nat);
                            if k < cores0.len() {
                                assert(cores[k] == cores0[k]);
                            }
                        }
                        assert forall|k: int|
                            0 <= k < cores.len() && !(valid && k == 0) implies is_eliminated(
                            all,
                            n as nat,
                            left_after(pens, cores, k as nat),
                            #[trigger] cores[k],
                        ) by {
                            lemma_left_prefix(pens, cores0, cs, k as nat);
                            if k < cores0.len() {
                                assert(cores[k] == cores0[k]);
                            }
                        }
                        lemma_left_prefix(pens, cores0, cs, cores0.len());
                        assert(cores[cores0.len() as int] == cs);
                        if cores0.len() > 0 {
                            assert(cores[0] == cores0[0]);
                        }
                        assert(res@[min_idx as int] == 0) by {
                            lemma_charged_entry(all, n as nat, res0, cs, min_idx as int);
                        }
                        bitset::lemma_count_true_update(bitset::bits(active), min_idx as int, false);
                    }
                    let ghost act1 = bitset::bits(active);
                    active.set(min_idx, false);
                    proof {
                        assert forall|l: int| 0 <= l < m && !bitset::bits(active)[l] implies #[trigger] res@[l]
                            <= 0 by {
                            if l != min_idx {
                                assert(!act1[l]);
                                assert(res0[l] <= 0);
                                assert(0 <= res0[l]);
                                lemma_charged_entry(all, n as nat, res0, cs, l);
                            }
                        }
                    }
                },
            }
        }
    }
    proof {
        assert(is_packing_run(all, n as nat, pens, cores, bonus as int));
        lemma_run_left(all, n as nat, pens, cores, cores.len());
        lemma_total_nonneg(res@, m as nat);
        if cores.len() > 0 {
            assert(is_payable(all, n as nat, left_after(pens, cores, 0), cores[0]));
            lemma_terms_of_core(instance.terms@, s, n as nat, pens, cores[0]);
        }
    }
    (bonus, first_core)
}

/// The terms of a contradiction.
pub open spec fn core_view(core: Option<Vec<usize>>) -> Option<Seq<usize>> {
    match core {
        Some(c) => Some(c@),
        None => None,
    }
}

/// The terms of a hint.
pub open spec fn hint_view(hint: Option<&[usize]>) -> Option<Seq<usize>> {
    match hint {
        Some(h) => Some(h@),
        None => None,
    }
}

proof fn lemma_ascending_distinct(s: Seq<usize>, a: int, b: int)
    requires
        sets::ascending(s),
        0 <= a < s.len(),
        0 <= b < s.len(),
        a != b,
    ensures
        s[a] != s[b],
{
    if a < b {
        assert(s[a] < s[b]);
    } else {
        assert(s[b] < s[a]);
    }
}

proof fn lemma_total_entry(res: Seq<i64>, c: int, k: nat)
    requires
        0 <= c < k,
        k <= res.len(),
        forall|l: int| 0 <= l < res.len() ==> 0 <= #[trigger] res[l],
    ensures
        res[c] <= total(res, k),
    decreases k,
{
    if c == k - 1 {
        lemma_total_nonneg(res, (k - 1) as nat);
    } else {
        lemma_total_entry(res, c, (k - 1) as nat);
        assert(0 <= res[k - 1]);
    }
}

proof fn lemma_paid_zero(all: Seq<Seq<bool>>, n: nat, pens: Seq<i64>, y: Seq<bool>, k: nat)
    ensures
        paid(all, n, pens, pens, y, k) == 0,
    decreases k,
{
    if k > 0 {
        lemma_paid_zero(all, n, pens, y, (k - 1) as nat);
    }
}


/// The tightening alone.
pub fn unsat_core_bonus<V: VarDomain>(instance: &HuboInstance<V>, node: &Node) -> (r: i64)
    requires
        instance.wf(),
        instance.fits(),
        instance.n() < usize::MAX,
        node.describes(instance),
    ensures
        is_core_bonus(
            instance.terms@,
            node.term_status@,
            instance.n() as nat,
            r as int,
        ),
        0 <= r <= 2 * node::status_abs(node.term_status@),
{
    let r = unsat_core_bonus_and_core(instance, node, None);
    assert(is_core_run(
        instance.terms@,
        node.term_status@,
        instance.n() as nat,
        None,
        r.0 as int,
        core_view(r.1),
    ));
    r.0
}

/// The bound of a node and the first contradiction: the termwise bound, over spins
/// plus what contradictions add up to, that which the node keeps first.
pub open spec fn is_cheap_result<V: VarDomain>(
    instance: &HuboInstance<V>,
    node: &Node,
    lb: int,
    first: Option<Seq<usize>>,
) -> bool {
    match V::tag() {
        VarType::Bin => lb == base_bound(instance, node) && first is None,
        VarType::Spin => is_core_run(
            instance.terms@,
            node.term_status@,
            instance.n() as nat,
            core_view(node.core_hint),
            lb - base_bound(instance, node),
            first,
        ),
    }
}

/// `lb` is the bound of the node.
pub open spec fn is_cheap_bound<V: VarDomain>(
    instance: &HuboInstance<V>,
    node: &Node,
    lb: int,
) -> bool {
    exists|first: Option<Seq<usize>>| #[trigger] is_cheap_result(instance, node, lb, first)
}

/// `lb` is the bound of the node, whatever contradiction it keeps.
pub open spec fn is_unhinted_bound<V: VarDomain>(
    instance: &HuboInstance<V>,
    node: &Node,
    lb: int,
) -> bool {
    match V::tag() {
        VarType::Bin => lb == base_bound(instance, node),
        VarType::Spin => is_core_bonus(
            instance.terms@,
            node.term_status@,
            instance.n() as nat,
            lb - base_bound(instance, node),
        ),
    }
}

/// The node keeps the contradiction that was found, if any.
pub open spec fn keeps_core(a: &Node, first: Option<Seq<usize>>, b: &Node) -> bool {
    match first {
        Some(c) => b.core_hint matches Some(h) && h@ == c,
        None => b.core_hint == a.core_hint,
    }
}

/// The bound of a node fits.
proof fn lemma_bound_fits<V: VarDomain>(instance: &HuboInstance<V>, node: &Node, lb: int)
    requires
        instance.wf(),
        instance.fits(),
        instance.n() < usize::MAX,
        instance.terms@.len() <= usize::MAX,
        node.describes(instance),
        is_cheap_bound(instance, node, lb) || is_unhinted_bound(instance, node, lb),
        lb >= base_bound(instance, node),
    ensures
        i64::MIN <= lb <= i64::MAX,
        lb <= term::abs(instance.offset as int) + term::abs_sum(instance.terms@),
{
    lemma_bound_size(instance, node);
    lemma_floor_size(V::tag(), node.term_status@, node.term_status@.len() as int);
    assert(node.term_status@.take(node.term_status@.len() as int) =~= node.term_status@);
    let x = Seq::new(node.fixed@.len(), |i: int| node.fixed@[i] == Some(true));
    cheap_bound_is_valid(instance, node, lb, x);
    term::lemma_poly_range(V::tag(), instance.terms@, x);
}

/// The bound of a node.
pub fn lower_bound<V: VarDomain>(instance: &HuboInstance<V>, node: &Node) -> (r: i64)
    requires
        instance.wf(),
        instance.fits(),
        instance.n() < usize::MAX,
        node.describes(instance),
    ensures
        is_unhinted_bound(instance, node, r as int),
{
    let base: i64 = lower_bound_base(instance, node);
    let n_terms: usize = instance.terms.len();
    match V::var_type() {
        VarType::Bin => base,
        VarType::Spin => {
            let bonus: i64 = unsat_core_bonus(instance, node);
            proof {
                lemma_bound_fits(instance, node, base + bonus);
            }
            base + bonus
        },
    }
}

/// The bound of a node and the first contradiction found, which the node keeps
/// as a hint for its children.
pub fn compute_with_core<V: VarDomain>(instance: &HuboInstance<V>, node: &mut Node) -> (r: (
    i64,
    Option<Vec<usize>>,
))
    requires
        instance.wf(),
        instance.fits(),
        instance.n() < usize::MAX,
        old(node).describes(instance),
    ensures
        is_cheap_result(instance, old(node), r.0 as int, core_view(r.1)),
        r.1 is Some <==> r.0 > base_bound(instance, old(node)),
        r.1 matches Some(core) ==> is_term_core(
            instance.terms@,
            old(node).term_status@,
            instance.n() as nat,
            core@,
        ),
        keeps_core(old(node), core_view(r.1), final(node)),
        final(node).describes(instance),
        final(node).fixed == old(node).fixed,
        final(node).lb == old(node).lb,
        final(node).offset == old(node).offset,
        final(node).term_status == old(node).term_status,
        final(node).prices == old(node).prices,
{
    let base: i64 = lower_bound_base(instance, node);
    let n_terms: usize = instance.terms.len();
    match V::var_type() {
        VarType::Bin => (base, None),
        VarType::Spin => {
            let (bonus, core) = match &node.core_hint {
                Some(h) => unsat_core_bonus_and_core(instance, node, Some(h.as_slice())),
                None => unsat_core_bonus_and_core(instance, node, None),
            };
            proof {
                assert(is_cheap_result(instance, node, base + bonus, core_view(core)));
                lemma_bound_fits(instance, node, base + bonus);
            }
            if let Some(c) = &core {
                node.core_hint = Some(c.clone());
            }
            (base + bonus, core)
        },
    }
}

/// The bound of a node.
pub fn compute<V: VarDomain>(instance: &HuboInstance<V>, node: &mut Node) -> (r: i64)
    requires
        instance.wf(),
        instance.fits(),
        instance.n() < usize::MAX,
        old(node).describes(instance),
    ensures
        exists|first: Option<Seq<usize>>| #[trigger]
            is_cheap_result(instance, old(node), r as int, first) && keeps_core(
                old(node),
                first,
                final(node),
            ),
        final(node).describes(instance),
        final(node).fixed == old(node).fixed,
        final(node).lb == old(node).lb,
        final(node).offset == old(node).offset,
        final(node).term_status == old(node).term_status,
        final(node).prices == old(node).prices,
{
    let r = compute_with_core(instance, node);
    assert(is_cheap_result(instance, old(node), r.0 as int, core_view(r.1)));
    r.0
}

/// The low free variables of an assignment.
pub open spec fn low_bits(x: Seq<bool>, f: Seq<Option<bool>>) -> Seq<bool> {
    Seq::new(x.len(), |j: int| fixes::fixed_at(f, j) is None && !x[j])
}

pub proof fn lemma_dot_set(row: Seq<bool>, y: Seq<bool>, u: int, k: nat)
    requires
        0 <= u < row.len(),
        k <= row.len(),
        !row[u],
    ensures
        parity::dot(row.update(u, true), y, k) == (parity::dot(row, y, k) != (u < k && y[u])),
    decreases k,
{
    if k > 0 {
        lemma_dot_set(row, y, u, (k - 1) as nat);
    }
}

pub proof fn lemma_dot_none(row: Seq<bool>, y: Seq<bool>, k: nat)
    requires
        forall|j: int| 0 <= j < k ==> !#[trigger] row[j],
    ensures
        !parity::dot(row, y, k),
    decreases k,
{
    if k > 0 {
        assert(!row[k - 1]);
        lemma_dot_none(row, y, (k - 1) as nat);
    }
}

/// The parity of the low free variables of a term is the sign of its free
/// product.
pub proof fn lemma_row_parity(
    idx: Seq<usize>,
    n: nat,
    odd: bool,
    f: Seq<Option<bool>>,
    x: Seq<bool>,
)
    requires
        term::indices_below(idx, n as int),
        idx.no_duplicates(),
        x.len() == n,
        n <= usize::MAX,
    ensures
        parity::dot(parity_row(idx, n, odd), low_bits(x, f), n) == (term::monomial(
            VarType::Spin,
            node::free_list(idx, f),
            x,
        ) == -1),
    decreases idx.len(),
{
    let y = low_bits(x, f);
    let row = parity_row(idx, n, odd);
    if idx.len() == 0 {
        lemma_dot_none(row, y, n);
    } else {
        let p = idx.drop_last();
        let u = idx.last();
        assert(idx[idx.len() - 1] < n);
        assert(p.no_duplicates());
        lemma_row_parity(p, n, odd, f, x);
        let rp = parity_row(p, n, odd);
        assert(!p.contains(u)) by {
            if p.contains(u) {
                let i = choose|i: int| 0 <= i < p.len() && p[i] == u;
                assert(idx[i] == idx[idx.len() - 1]);
            }
        }
        assert forall|v: usize| idx.contains(v) == (p.contains(v) || v == u) by {
            if p.contains(v) {
                let i = choose|i: int| 0 <= i < p.len() && p[i] == v;
                assert(idx[i] == v);
            }
            if v == u {
                assert(idx[idx.len() - 1] == v);
            }
            if idx.contains(v) && v != u {
                let i = choose|i: int| 0 <= i < idx.len() && idx[i] == v;
                assert(p[i] == v);
            }
        }
        assert(row =~= rp.update(u as int, true));
        lemma_dot_set(rp, y, u as int, n);
        term::lemma_monomial_range(VarType::Spin, node::free_list(p, f), x);
        let m = term::monomial(VarType::Spin, node::free_list(p, f), x);
        if fixes::fixed_at(f, u as int) is None {
            assert(node::free_list(idx, f).drop_last() =~= node::free_list(p, f));
            assert(m * 1 == m && m * -1 == -m);
        }
    }
}

/// The penalties of the violated preferences among the first `k` terms.
spec fn violation(
    terms: Seq<Term>,
    s: Seq<Option<PartiallyAssignedTerm>>,
    n: nat,
    y: Seq<bool>,
    k: nat,
) -> int
    decreases k,
{
    if k == 0 {
        0
    } else {
        violation(terms, s, n, y, (k - 1) as nat) + (if is_active(s[k - 1]) && !parity::sat(
            parity_row(terms[k - 1].indices@, n, s[k - 1]->0.coeff > 0),
            n,
            y,
        ) {
            2 * term::abs(s[k - 1]->0.coeff as int)
        } else {
            0
        })
    }
}

/// What is left exceeds its termwise bound by the violated penalties.
proof fn lemma_violation(
    terms: Seq<Term>,
    f: Seq<Option<bool>>,
    s: Seq<Option<PartiallyAssignedTerm>>,
    x: Seq<bool>,
    k: nat,
)
    requires
        k <= s.len(),
        s.len() == terms.len(),
        term::terms_below(terms, f.len() as int),
        term::terms_distinct(terms),
        x.len() == f.len(),
        f.len() <= usize::MAX,
        forall|i: int|
            0 <= i < s.len() ==> node::status_ok(VarType::Spin, #[trigger] terms[i], f, s[i]),
    ensures
        node::residual(VarType::Spin, s.take(k as int), x) == floor_sum(VarType::Spin, s.take(k as int))
            + violation(terms, s, f.len(), low_bits(x, f), k),
    decreases k,
{
    if k > 0 {
        let k1 = (k - 1) as nat;
        lemma_violation(terms, f, s, x, k1);
        assert(s.take(k as int).drop_last() =~= s.take(k1 as int));
        let t = terms[k1 as int];
        assert(node::status_ok(VarType::Spin, t, f, s[k1 as int]));
        assert(term::indices_below(t.indices@, f.len() as int));
        assert(t.indices@.no_duplicates());
        match s[k1 as int] {
            None => {},
            Some(p) => {
                term::lemma_monomial_range(VarType::Spin, p.free_variables@, x);
                let m = term::monomial(VarType::Spin, p.free_variables@, x);
                let c = p.coeff as int;
                assert(c * m == if m == 1 { c } else { -c }) by (nonlinear_arith)
                    requires
                        m == 1 || m == -1,
                ;
                lemma_row_parity(t.indices@, f.len(), p.coeff > 0, f, x);
            },
        }
    }
}

/// The violated penalties bound what a packing has paid.
proof fn lemma_paid_violation(
    terms: Seq<Term>,
    s: Seq<Option<PartiallyAssignedTerm>>,
    n: nat,
    pens: Seq<i64>,
    res: Seq<i64>,
    y: Seq<bool>,
    k: nat,
)
    requires
        k <= s.len(),
        s.len() <= usize::MAX,
        pens.len() == active_list(s, s.len()).len(),
        res.len() == pens.len(),
        active_list(s, k).len() <= pens.len(),
        forall|l: int|
            0 <= l < active_list(s, k).len() ==> active_list(s, s.len())[l] == #[trigger] active_list(
                s,
                k,
            )[l],
        forall|l: int| 0 <= l < pens.len() ==> #[trigger] pens[l] == active_penalties(s)[l],
        forall|l: int| 0 <= l < res.len() ==> 0 <= #[trigger] res[l] <= pens[l],
    ensures
        paid(active_rows(terms, s, n), n, pens, res, y, active_list(s, k).len()) <= violation(
            terms,
            s,
            n,
            y,
            k,
        ),
    decreases k,
{
    if k > 0 {
        let k1 = (k - 1) as nat;
        let a = active_list(s, k1);
        let b = active_list(s, k);
        assert forall|l: int| 0 <= l < a.len() implies active_list(s, s.len())[l] == #[trigger] a[l] by {
            assert(b[l] == a[l]);
        }
        lemma_paid_violation(terms, s, n, pens, res, y, k1);
        if is_active(s[k1 as int]) {
            let l = a.len() as int;
            assert(b[l] == k1 as usize);
            assert(active_list(s, s.len())[l] == b[l]);
            assert(pens[l] == active_penalties(s)[l]);
            assert(0 <= res[l]);
            assert(active_rows(terms, s, n)[l] == parity_row(
                terms[k1 as int].indices@,
                n,
                s[k1 as int]->0.coeff > 0,
            ));
        }
    }
}

/// The termwise bound plus what contradictions add up to is at most the objective
/// of every completion.
proof fn lemma_run_valid<V: VarDomain>(
    instance: &HuboInstance<V>,
    node: &Node,
    hint: Option<Seq<usize>>,
    bonus: int,
    first: Option<Seq<usize>>,
    x: Seq<bool>,
)
    requires
        V::tag() == VarType::Spin,
        instance.wf(),
        node.describes(instance),
        is_core_run(
            instance.terms@,
            node.term_status@,
            instance.n() as nat,
            hint,
            bonus,
            first,
        ),
        node::extends(x, node.fixed@),
        instance.n() <= usize::MAX,
        instance.terms@.len() <= usize::MAX,
    ensures
        base_bound(instance, node) + bonus <= instance.objective(x),
{
    let s = node.term_status@;
    let f = node.fixed@;
    let n = f.len();
    let all = active_rows(instance.terms@, s, n);
    let (pens, cores) = choose|pens: Seq<i64>, cores: Seq<Seq<usize>>|
        are_penalties(s, pens) && #[trigger] is_packing_run(all, n, pens, cores, bonus) && first
            == first_terms(s, cores);
    let y = low_bits(x, f);
    lemma_active_list(s, s.len());
    lemma_active_len(s, s.len());
    assert forall|l: int| 0 <= l < pens.len() implies 0 <= #[trigger] pens[l] by {}
    assert forall|i: int| 0 <= i < all.len() implies (#[trigger] all[i]).len() == n + 1 by {}
    lemma_run_left(all, n, pens, cores, cores.len());
    let res = left_after(pens, cores, cores.len());
    lemma_violation(instance.terms@, f, s, x, s.len());
    assert(s.take(s.len() as int) =~= s);
    lemma_paid_violation(instance.terms@, s, n, pens, res, y, s.len());
    assert(paid(all, n, pens, res, y, pens.len()) >= bonus);
    node::node_represents_objective(instance, node, x);
}

proof fn lemma_active_len(s: Seq<Option<PartiallyAssignedTerm>>, k: nat)
    ensures
        active_list(s, k).len() <= k,
    decreases k,
{
    if k > 0 {
        lemma_active_len(s, (k - 1) as nat);
    }
}

/// The bound of a node is at most the objective of every completion of its
/// fixes.
pub proof fn cheap_bound_is_valid<V: VarDomain>(
    instance: &HuboInstance<V>,
    node: &Node,
    lb: int,
    x: Seq<bool>,
)
    requires
        instance.wf(),
        node.describes(instance),
        is_cheap_bound(instance, node, lb) || is_unhinted_bound(instance, node, lb),
        node::extends(x, node.fixed@),
        instance.n() <= usize::MAX,
        instance.terms@.len() <= usize::MAX,
    ensures
        lb <= instance.objective(x),
{
    base_bound_is_valid(instance, node, x);
    if V::tag() == VarType::Spin {
        let s = node.term_status@;
        let n = instance.n() as nat;
        let bonus = lb - base_bound(instance, node);
        if is_cheap_bound(instance, node, lb) {
            let first = choose|first: Option<Seq<usize>>| #[trigger]
                is_cheap_result(instance, node, lb, first);
            lemma_run_valid(instance, node, core_view(node.core_hint), bonus, first, x);
        } else {
            let first = choose|first: Option<Seq<usize>>| #[trigger]
                is_core_run(instance.terms@, s, n, None, bonus, first);
            lemma_run_valid(instance, node, None, bonus, first, x);
        }
    }
}

/// The spin bound exceeds the termwise bound exactly when the parity
/// preferences of the active terms contradict each other.
pub proof fn bonus_detects_contradiction(
    terms: Seq<Term>,
    s: Seq<Option<PartiallyAssignedTerm>>,
    n: nat,
    hint: Option<Seq<usize>>,
    bonus: int,
    first: Option<Seq<usize>>,
)
    requires
        is_core_run(terms, s, n, hint, bonus, first),
        s.len() <= usize::MAX,
    ensures
        bonus > 0 <==> !parity::satisfiable(active_rows(terms, s, n), n),
        bonus > 0 <==> first is Some,
{
    let all = active_rows(terms, s, n);
    let (pens, cores) = choose|pens: Seq<i64>, cores: Seq<Seq<usize>>|
        are_penalties(s, pens) && #[trigger] is_packing_run(all, n, pens, cores, bonus) && first
            == first_terms(s, cores);
    lemma_active_list(s, s.len());
    lemma_active_len(s, s.len());
    assert forall|l: int| 0 <= l < pens.len() implies 0 < #[trigger] pens[l] by {
        assert(is_active(s[active_list(s, s.len())[l] as int]));
    }
    assert forall|i: int| 0 <= i < all.len() implies (#[trigger] all[i]).len() == n + 1 by {}
    lemma_run_left(all, n, pens, cores, cores.len());
    if parity::satisfiable(all, n) {
        let y = choose|y: Seq<bool>| #[trigger] parity::satisfies(all, n, y);
        let res = left_after(pens, cores, cores.len());
        lemma_nothing_paid(all, n, pens, res, y, pens.len());
        assert(paid(all, n, pens, res, y, pens.len()) >= bonus);
    }
    if bonus == 0 {
        lemma_all_unpaid(all, pens, pens.len());
        assert(all.take(pens.len() as int) =~= all);
    }
}

proof fn lemma_nothing_paid(
    all: Seq<Seq<bool>>,
    n: nat,
    pens: Seq<i64>,
    res: Seq<i64>,
    y: Seq<bool>,
    k: nat,
)
    requires
        k <= all.len(),
        parity::satisfies(all, n, y),
    ensures
        paid(all, n, pens, res, y, k) == 0,
    decreases k,
{
    if k > 0 {
        lemma_nothing_paid(all, n, pens, res, y, (k - 1) as nat);
        assert(parity::sat(all[k - 1], n, y));
    }
}

proof fn lemma_all_unpaid(all: Seq<Seq<bool>>, pens: Seq<i64>, k: nat)
    requires
        k <= pens.len(),
        pens.len() == all.len(),
        forall|l: int| 0 <= l < pens.len() ==> #[trigger] pens[l] > 0,
    ensures
        unpaid_rows(all, pens, k) == all.take(k as int),
    decreases k,
{
    if k > 0 {
        lemma_all_unpaid(all, pens, (k - 1) as nat);
        assert(pens[k - 1] > 0);
        assert(all.take(k as int) =~= all.take(k - 1).push(all[k - 1]));
    } else {
        assert(all.take(0) =~= Seq::empty());
    }
}

} // verus!
