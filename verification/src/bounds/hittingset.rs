//! The bound from implicit hitting sets: parity contradictions are collected
//! until the cheapest way to give up an equation of each leaves none.

use crate::bounds::cheap;
use crate::bounds::cover;
use crate::coeff;
use crate::domain::{VarDomain, VarType};
use crate::instance::HuboInstance;
use crate::node::{Node, PartiallyAssignedTerm};
use crate::node;
use crate::parity;
use crate::sets;
use crate::term;
use vstd::prelude::*;

verus! {

/// How far the search for contradictions goes.
#[derive(Debug, Clone, Copy)]
pub struct HittingSet {
    pub max_cores: usize,
    pub max_search_nodes: usize,
}

impl Default for HittingSet {
    fn default() -> (r: Self)
        ensures
            r.max_cores == 64,
            r.max_search_nodes == 50_000,
    {
        HittingSet { max_cores: 64, max_search_nodes: 50_000 }
    }
}

/// A parity that a term prefers, and what it costs to violate it.
#[derive(Debug, Clone)]
pub struct SoftParityEq {
    pub vars: Vec<usize>,
    pub odd_required: bool,
    pub penalty: i64,
}

/// The preference of what is left of a term.
pub open spec fn is_soft_eq(p: PartiallyAssignedTerm, eq: SoftParityEq) -> bool {
    &&& sets::ascending(eq.vars@)
    &&& forall|v: usize| #[trigger] eq.vars@.contains(v) == p.free_variables@.contains(v)
    &&& eq.odd_required == (p.coeff > 0)
    &&& eq.penalty == 2 * term::abs(p.coeff as int)
}

/// The preferences of the active terms, in order.
pub open spec fn are_soft_eqs(
    s: Seq<Option<PartiallyAssignedTerm>>,
    k: nat,
    eqs: Seq<SoftParityEq>,
) -> bool {
    &&& eqs.len() == cheap::active_list(s, k).len()
    &&& forall|l: int|
        0 <= l < eqs.len() ==> is_soft_eq(
            s[cheap::active_list(s, k)[l] as int]->0,
            #[trigger] eqs[l],
        )
}

/// The row of an equation.
pub open spec fn eq_row(eq: SoftParityEq, n: nat) -> Seq<bool> {
    cheap::parity_row(eq.vars@, n, eq.odd_required)
}

/// The rows of the equations.
pub open spec fn eq_rows(eqs: Seq<SoftParityEq>, n: nat) -> Seq<Seq<bool>> {
    Seq::new(eqs.len(), |i: int| eq_row(eqs[i], n))
}

/// The penalties of the equations.
pub open spec fn penalties(eqs: Seq<SoftParityEq>) -> Seq<i64> {
    Seq::new(eqs.len(), |i: int| eqs[i].penalty)
}

/// The equations list variables below `n`.
pub open spec fn eqs_below(eqs: Seq<SoftParityEq>, n: int) -> bool {
    forall|i: int| 0 <= i < eqs.len() ==> term::indices_below((#[trigger] eqs[i]).vars@, n)
}

/// The preferences of the active terms of a node.
pub fn build_soft_parity_eqs(node: &Node) -> (r: Vec<SoftParityEq>)
    requires
        2 * node::status_abs(node.term_status@) <= i64::MAX,
    ensures
        are_soft_eqs(node.term_status@, node.term_status@.len(), r@),
{
    let ghost s = node.term_status@;
    let mut eqs: Vec<SoftParityEq> = Vec::new();
    let mut i: usize = 0;
    while i < node.term_status.len()
        invariant
            i <= s.len(),
            s == node.term_status@,
            2 * node::status_abs(s) <= i64::MAX,
            are_soft_eqs(s, i as nat, eqs@),
        decreases s.len() - i,
    {
        let ghost eqs0 = eqs@;
        if let Some(status) = &node.term_status[i] {
            if status.free_variables.len() > 0 && status.coeff != 0 {
                proof {
                    cheap::lemma_status_abs_entry(s, i as int);
                }
                let twice: i64 = status.coeff + status.coeff;
                let penalty: i64 = if twice < 0 {
                    -twice
                } else {
                    twice
                };
                let mut vars: Vec<usize> = Vec::new();
                let mut j: usize = 0;
                while j < status.free_variables.len()
                    invariant
                        j <= status.free_variables@.len(),
                        sets::ascending(vars@),
                        forall|v: usize| #[trigger]
                            vars@.contains(v) == status.free_variables@.take(j as int).contains(v),
                    decreases status.free_variables@.len() - j,
                {
                    proof {
                        sets::lemma_contains_take(status.free_variables@, j as int);
                    }
                    sets::insert_sorted(&mut vars, status.free_variables[j]);
                    j += 1;
                }
                assert(status.free_variables@.take(j as int) =~= status.free_variables@);
                eqs.push(SoftParityEq { vars, odd_required: status.coeff > 0, penalty });
            }
        }
        i += 1;
        proof {
            let a = cheap::active_list(s, i as nat);
            assert forall|l: int| 0 <= l < eqs@.len() implies is_soft_eq(
                s[a[l] as int]->0,
                #[trigger] eqs@[l],
            ) by {
                if l < eqs0.len() {
                    assert(is_soft_eq(
                        s[cheap::active_list(s, (i - 1) as nat)[l] as int]->0,
                        eqs0[l],
                    ));
                }
            }
        }
    }
    eqs
}

/// `x` satisfies the equations that are active and list a variable.
pub open spec fn satisfies_active(
    eqs: Seq<SoftParityEq>,
    active: Seq<bool>,
    n: nat,
    x: Seq<bool>,
) -> bool {
    forall|i: int|
        0 <= i < eqs.len() && active[i] && eqs[i].vars@.len() > 0 ==> parity::sat(
            #[trigger] eq_rows(eqs, n)[i],
            n,
            x,
        )
}

/// Those of the first `k` equations that are active and list a variable.
pub open spec fn active_places(eqs: Seq<SoftParityEq>, active: Seq<bool>, k: nat) -> Seq<usize>
    decreases k,
{
    if k == 0 {
        Seq::empty()
    } else if active[k - 1] && eqs[k - 1].vars@.len() > 0 {
        active_places(eqs, active, (k - 1) as nat).push((k - 1) as usize)
    } else {
        active_places(eqs, active, (k - 1) as nat)
    }
}

/// The rows of the equations that are active and list a variable.
pub open spec fn active_rows(
    eqs: Seq<SoftParityEq>,
    n: nat,
    active: Seq<bool>,
) -> Seq<Seq<bool>> {
    let places = active_places(eqs, active, eqs.len());
    Seq::new(places.len(), |k: int| eq_rows(eqs, n)[places[k] as int])
}

/// The contradiction that elimination finds among the active equations.
pub open spec fn is_active_core(
    eqs: Seq<SoftParityEq>,
    n: nat,
    active: Seq<bool>,
    core: Seq<usize>,
) -> bool {
    exists|c: Seq<usize>| #[trigger]
        parity::is_first_core(active_rows(eqs, n, active), n, c) && core == Seq::new(
            c.len(),
            |q: int| active_places(eqs, active, eqs.len())[c[q] as int],
        )
}

/// A contradiction among the active equations, as ascending positions. `None`
/// when they can be satisfied together.
pub fn core_for_active(soft_eqs: &[SoftParityEq], active: &[bool], n_vars: usize) -> (r: Option<
    Vec<usize>,
>)
    requires
        n_vars < usize::MAX,
        active@.len() == soft_eqs@.len(),
        eqs_below(soft_eqs@, n_vars as int),
    ensures
        r matches Some(core) ==> parity::is_core(
            eq_rows(soft_eqs@, n_vars as nat),
            n_vars as nat,
            core@,
        ),
        r matches Some(core) ==> forall|k: int|
            0 <= k < core@.len() ==> active@[#[trigger] core@[k] as int],
        r matches Some(core) ==> is_active_core(
            soft_eqs@,
            n_vars as nat,
            active@,
            core@,
        ),
        r is None <==> exists|x: Seq<bool>| #[trigger]
            satisfies_active(soft_eqs@, active@, n_vars as nat, x),
{
    let ghost n = n_vars as nat;
    let ghost eqs = soft_eqs@;
    let ghost rows = eq_rows(eqs, n);
    let mut active_eqs: Vec<Vec<bool>> = Vec::new();
    let mut active_map: Vec<usize> = Vec::new();
    let mut i: usize = 0;
    while i < soft_eqs.len()
        invariant
            i <= eqs.len(),
            eqs == soft_eqs@,
            n == n_vars,
            n_vars < usize::MAX,
            rows == eq_rows(eqs, n),
            active@.len() == eqs.len(),
            eqs_below(eqs, n_vars as int),
            active_eqs@.len() == active_map@.len(),
            active_map@ == active_places(eqs, active@, i as nat),
            sets::ascending(active_map@),
            forall|k: int|
                0 <= k < active_map@.len() ==> (#[trigger] active_map@[k]) < i
                    && active@[active_map@[k] as int] && eqs[active_map@[k] as int].vars@.len() > 0
                    && active_eqs@[k]@ == rows[active_map@[k] as int],
            forall|q: int|
                0 <= q < i && active@[q] && eqs[q].vars@.len() > 0 ==> active_map@.contains(
                    #[trigger] (q as usize),
                ),
        decreases eqs.len() - i,
    {
        let ghost map0 = active_map@;
        if active[i] && soft_eqs[i].vars.len() > 0 {
            assert(term::indices_below(eqs[i as int].vars@, n_vars as int));
            let row = cheap::build_row(
                soft_eqs[i].vars.as_slice(),
                n_vars,
                soft_eqs[i].odd_required,
            );
            active_map.push(i);
            active_eqs.push(row);
        }
        proof {
            assert forall|q: int|
                0 <= q < i + 1 && active@[q] && eqs[q].vars@.len() > 0 implies active_map@.contains(
                #[trigger] (q as usize),
            ) by {
                if q < i {
                    assert(map0.contains(q as usize));
                    let k = choose|k: int| 0 <= k < map0.len() && map0[k] == q as usize;
                    assert(active_map@[k] == q as usize);
                } else {
                    assert(active_map@[map0.len() as int] == q as usize);
                }
            }
        }
        i += 1;
    }
    let ghost local = parity::rows(active_eqs@);
    proof {
        assert forall|k: int| 0 <= k < local.len() implies cheap::lists_variable(
            #[trigger] local[k],
            n,
        ) by {
            let t = active_map@[k] as int;
            assert(active_eqs@[k]@ == rows[t]);
            let v = eqs[t].vars@[0];
            assert(term::indices_below(eqs[t].vars@, n_vars as int));
            assert(v < n);
            assert(eqs[t].vars@.contains(v));
            assert(local[k][v as int]);
        }
        assert forall|k: int| 0 <= k < active_eqs@.len() implies (#[trigger] active_eqs@[k])@.len()
            == n_vars + 1 by {
            assert(active_eqs@[k]@ == rows[active_map@[k] as int]);
        }
        assert(parity::satisfiable(local, n) <==> exists|x: Seq<bool>| #[trigger]
            satisfies_active(eqs, active@, n, x)) by {
            if parity::satisfiable(local, n) {
                let x = choose|x: Seq<bool>| #[trigger] parity::satisfies(local, n, x);
                assert forall|q: int|
                    0 <= q < eqs.len() && active@[q] && eqs[q].vars@.len() > 0 implies parity::sat(
                    #[trigger] eq_rows(eqs, n)[q],
                    n,
                    x,
                ) by {
                    assert(active_map@.contains(q as usize));
                    let k = choose|k: int| 0 <= k < active_map@.len() && active_map@[k] == q as usize;
                    assert(parity::sat(local[k], n, x));
                }
                assert(satisfies_active(eqs, active@, n, x));
            }
            if exists|x: Seq<bool>| #[trigger] satisfies_active(eqs, active@, n, x) {
                let x = choose|x: Seq<bool>| #[trigger] satisfies_active(eqs, active@, n, x);
                assert forall|k: int| 0 <= k < local.len() implies parity::sat(
                    #[trigger] local[k],
                    n,
                    x,
                ) by {
                    let t = active_map@[k] as int;
                    assert(parity::sat(eq_rows(eqs, n)[t], n, x));
                }
                assert(parity::satisfies(local, n, x));
            }
        }
    }
    if active_eqs.len() < 2 {
        proof {
            cheap::lemma_one_row_satisfiable(local, n);
        }
        return None;
    }
    match parity::parity_unsat_core(active_eqs, n_vars) {
        None => None,
        Some(core_local) => {
            let mut core: Vec<usize> = Vec::new();
            let mut k: usize = 0;
            while k < core_local.len()
                invariant
                    k <= core_local@.len(),
                    local.len() == active_map@.len(),
                    parity::is_core(local, n, core_local@),
                    core@.len() == k,
                    forall|j: int|
                        0 <= j < k ==> #[trigger] core@[j] == active_map@[core_local@[j] as int],
                decreases core_local@.len() - k,
            {
                assert(core_local@[k as int] < local.len());
                core.push(active_map[core_local[k]]);
                k += 1;
            }
            proof {
                assert forall|j: int| 0 <= j < core@.len() implies local[#[trigger] core_local@[j] as int]
                    == rows[core@[j] as int] by {
                    assert(core_local@[j] < local.len());
                    assert(core@[j] == active_map@[core_local@[j] as int]);
                    assert(local[core_local@[j] as int] == rows[active_map@[core_local@[j] as int] as int]);
                }
                assert forall|j: int| 0 <= j < n implies !#[trigger] parity::sum_bit(
                    rows,
                    core@,
                    j,
                ) by {
                    cheap::lemma_sum_map(local, core_local@, rows, core@, j);
                    assert(!parity::sum_bit(local, core_local@, j));
                }
                cheap::lemma_sum_map(local, core_local@, rows, core@, n as int);
                assert forall|j: int| 0 <= j < core@.len() implies (#[trigger] core@[j]) < rows.len()
                    && active@[core@[j] as int] by {
                    assert(core_local@[j] < local.len());
                    assert(active_map@[core_local@[j] as int] < eqs.len());
                }
                assert forall|a: int, b: int| 0 <= a < b < core@.len() implies core@[a] < core@[b] by {
                    assert(core_local@[a] < core_local@[b]);
                    assert(core_local@[b] < local.len());
                    assert(core@[a] == active_map@[core_local@[a] as int]);
                    assert(core@[b] == active_map@[core_local@[b] as int]);
                }
                assert(local =~= active_rows(eqs, n, active@));
                assert(core@ =~= Seq::new(
                    core_local@.len(),
                    |q: int| active_places(eqs, active@, eqs.len())[core_local@[q] as int],
                ));
                assert(parity::is_first_core(active_rows(eqs, n, active@), n, core_local@));
            }
            Some(core)
        },
    }
}

/// The items of a core in ascending order, each once.
pub fn dedup_and_sort_core(core: Vec<usize>) -> (r: Vec<usize>)
    ensures
        sets::ascending(r@),
        forall|v: usize| #[trigger] r@.contains(v) == core@.contains(v),
{
    let mut r: Vec<usize> = Vec::new();
    let mut i: usize = 0;
    while i < core.len()
        invariant
            i <= core@.len(),
            sets::ascending(r@),
            forall|v: usize| #[trigger] r@.contains(v) == core@.take(i as int).contains(v),
        decreases core@.len() - i,
    {
        proof {
            sets::lemma_contains_take(core@, i as int);
        }
        sets::insert_sorted(&mut r, core[i]);
        i += 1;
    }
    assert(core@.take(i as int) =~= core@);
    r
}

/// A cheapest selection of equations that meets the first `k` contradictions is
/// found within the allowed search nodes.
pub open spec fn is_within_nodes(
    eqs: Seq<SoftParityEq>,
    cfg: HittingSet,
    cores: Seq<Vec<usize>>,
    k: int,
) -> bool {
    k > 0 ==> cover::nodes_needed(penalties(eqs), cores.take(k)) <= cfg.max_search_nodes
}

/// Contradiction `k` is the one that elimination finds among the equations that the
/// cheapest selection for the contradictions before it does not select.
pub open spec fn follows(
    eqs: Seq<SoftParityEq>,
    n: nat,
    cfg: HittingSet,
    cores: Seq<Vec<usize>>,
    k: int,
) -> bool {
    let sel = cover::best_cover(penalties(eqs), cores.take(k));
    &&& cover::is_minimum_cover(
        penalties(eqs),
        cores.take(k),
        sel,
        cover::cost(penalties(eqs), sel, eqs.len()),
    )
    &&& is_within_nodes(eqs, cfg, cores, k)
    &&& is_active_core(eqs, n, unselected(sel), cores[k]@)
    &&& !cover::hits(sel, cores[k]@)
}

/// Contradictions that are found one after the other.
pub open spec fn are_found(
    eqs: Seq<SoftParityEq>,
    n: nat,
    cfg: HittingSet,
    cores: Seq<Vec<usize>>,
) -> bool {
    &&& forall|c: int|
        0 <= c < cores.len() ==> parity::is_core(eq_rows(eqs, n), n, (#[trigger] cores[c])@)
    &&& forall|k: int| 0 <= k < cores.len() ==> #[trigger] follows(eqs, n, cfg, cores, k)
}

/// One more contradiction is found.
proof fn lemma_found_push(
    eqs: Seq<SoftParityEq>,
    n: nat,
    cfg: HittingSet,
    cores: Seq<Vec<usize>>,
    core: Vec<usize>,
)
    requires
        are_found(eqs, n, cfg, cores),
        parity::is_core(eq_rows(eqs, n), n, core@),
        follows(eqs, n, cfg, cores.push(core), cores.len() as int),
    ensures
        are_found(eqs, n, cfg, cores.push(core)),
{
    let t = cores.push(core);
    assert forall|c: int| 0 <= c < t.len() implies parity::is_core(
        eq_rows(eqs, n),
        n,
        (#[trigger] t[c])@,
    ) by {
        if c < cores.len() {
            assert(t[c] == cores[c]);
        }
    }
    assert forall|k: int| 0 <= k < t.len() implies #[trigger] follows(eqs, n, cfg, t, k) by {
        if k < cores.len() {
            assert(follows(eqs, n, cfg, cores, k));
            assert(t.take(k) =~= cores.take(k));
            assert(t[k] == cores[k]);
        }
    }
}

/// No contradiction is found twice.
pub proof fn found_cores_differ(
    eqs: Seq<SoftParityEq>,
    n: nat,
    cfg: HittingSet,
    cores: Seq<Vec<usize>>,
    i: int,
    j: int,
)
    requires
        are_found(eqs, n, cfg, cores),
        0 <= i < j < cores.len(),
    ensures
        cores[i]@ != cores[j]@,
{
    assert(follows(eqs, n, cfg, cores, j));
    let sel = cover::best_cover(penalties(eqs), cores.take(j));
    assert(cores.take(j)[i] == cores[i]);
    assert(cover::hits(sel, cores.take(j)[i]@));
}

/// The outcome of the search: contradictions `cores`, found one after the other,
/// and either the cheapest selection of equations that meets each of them, or, when
/// finding it takes more search nodes than allowed, the packing of the cores. The
/// search ends when the allowed number of contradictions is found or the equations
/// that are not selected can be satisfied together.
pub open spec fn is_hitting_run(
    eqs: Seq<SoftParityEq>,
    n: nat,
    cfg: HittingSet,
    cores: Seq<Vec<usize>>,
    bonus: int,
) -> bool {
    let sel = cover::best_cover(penalties(eqs), cores);
    &&& are_found(eqs, n, cfg, cores)
    &&& cores.len() <= cfg.max_cores
    &&& {
        ||| cover::is_minimum_cover(penalties(eqs), cores, sel, bonus) && is_within_nodes(
            eqs,
            cfg,
            cores,
            cores.len() as int,
        ) && (cores.len() == cfg.max_cores || is_finished(eqs, n, sel))
        ||| bonus == cover::packing(penalties(eqs), cores, cores.len()) && cores.len() > 0
            && cfg.max_search_nodes < cover::nodes_needed(penalties(eqs), cores)
    }
}

/// What is not selected.
pub open spec fn unselected(sel: Seq<bool>) -> Seq<bool> {
    Seq::new(sel.len(), |i: int| !sel[i])
}

/// The equations that are not selected can be satisfied together.
pub open spec fn is_finished(eqs: Seq<SoftParityEq>, n: nat, sel: Seq<bool>) -> bool {
    exists|x: Seq<bool>| #[trigger] satisfies_active(eqs, unselected(sel), n, x)
}

/// `bonus` is what the search for contradictions gives.
pub open spec fn is_hitting_bonus(
    eqs: Seq<SoftParityEq>,
    n: nat,
    cfg: HittingSet,
    bonus: int,
) -> bool {
    exists|cores: Seq<Vec<usize>>| #[trigger] is_hitting_run(eqs, n, cfg, cores, bonus)
}

proof fn lemma_core_ok(rows: Seq<Seq<bool>>, n: nat, core: Seq<usize>)
    requires
        parity::is_core(rows, n, core),
    ensures
        cover::core_ok(core, rows.len()),
{
    if core.len() == 0 {
        assert(!parity::sum_bit(rows, core, n as int));
    }
}

/// Whether the core is in the list.
fn has_core(cores: &Vec<Vec<usize>>, core: &Vec<usize>) -> (r: bool)
    ensures
        r == exists|c: int| 0 <= c < cores@.len() && (#[trigger] cores@[c])@ == core@,
{
    let mut c: usize = 0;
    while c < cores.len()
        invariant
            c <= cores@.len(),
            forall|b: int| 0 <= b < c ==> (#[trigger] cores@[b])@ != core@,
        decreases cores@.len() - c,
    {
        let other = &cores[c];
        let mut same: bool = other.len() == core.len();
        let mut i: usize = 0;
        while same && i < core.len()
            invariant
                i <= core@.len(),
                same ==> other@.len() == core@.len() && forall|j: int|
                    0 <= j < i ==> #[trigger] other@[j] == core@[j],
                !same ==> other@ != core@,
            decreases core@.len() - i + (if same {
                1int
            } else {
                0
            }),
        {
            if other[i] != core[i] {
                same = false;
            } else {
                i += 1;
            }
        }
        if same {
            assert(cores@[c as int]@ =~= core@);
            return true;
        }
        c += 1;
    }
    false
}

/// The bonus that contradictions of the equations give.
pub fn bonus_of_eqs(soft_eqs: &Vec<SoftParityEq>, n_vars: usize, cfg: &HittingSet) -> (r: i64)
    requires
        n_vars < usize::MAX,
        eqs_below(soft_eqs@, n_vars as int),
        cover::weights_ok(penalties(soft_eqs@)),
        forall|i: int| 0 <= i < soft_eqs@.len() ==> (#[trigger] soft_eqs@[i]).vars@.len() > 0,
    ensures
        is_hitting_bonus(soft_eqs@, n_vars as nat, *cfg, r as int),
        r >= 0,
{
    let ghost eqs = soft_eqs@;
    let ghost n = n_vars as nat;
    let ghost rows = eq_rows(eqs, n);
    let m: usize = soft_eqs.len();
    let mut weights: Vec<i64> = Vec::new();
    let mut selected: Vec<bool> = Vec::new();
    let mut i: usize = 0;
    while i < m
        invariant
            i <= m,
            m == eqs.len(),
            eqs == soft_eqs@,
            weights@ == penalties(eqs).take(i as int),
            selected@.len() == i,
            forall|j: int| 0 <= j < i ==> !#[trigger] selected@[j],
        decreases m - i,
    {
        weights.push(soft_eqs[i].penalty);
        selected.push(false);
        i += 1;
        assert(weights@ =~= penalties(eqs).take(i as int));
    }
    let ghost w = penalties(eqs);
    assert(weights@ =~= w);
    let mut cores: Vec<Vec<usize>> = Vec::new();
    let mut hs_cost: i64 = 0;
    proof {
        cover::lemma_empty_cover(w, cores@, selected@);
        assert(selected@ =~= cover::best_cover(w, cores@));
    }
    if m < 2 {
        proof {
            let act = unselected(selected@);
            if m == 1 {
                assert forall|k: int| 0 <= k < rows.len() implies cheap::lists_variable(
                    #[trigger] rows[k],
                    n,
                ) by {
                    let v = eqs[k].vars@[0];
                    assert(term::indices_below(eqs[k].vars@, n_vars as int));
                    assert(v < n);
                    assert(eqs[k].vars@.contains(v));
                    assert(rows[k][v as int]);
                }
            }
            cheap::lemma_one_row_satisfiable(rows, n);
            let x = choose|x: Seq<bool>| #[trigger] parity::satisfies(rows, n, x);
            assert(satisfies_active(eqs, act, n, x));
            assert(is_hitting_run(eqs, n, *cfg, cores@, 0));
        }
        return 0;
    }
    let mut found: usize = 0;
    while found < cfg.max_cores
        invariant_except_break
            found <= cfg.max_cores,
        invariant
            cores@.len() == found,
            found <= cfg.max_cores,
            m == eqs.len(),
            eqs == soft_eqs@,
            n == n_vars,
            n_vars < usize::MAX,
            rows == eq_rows(eqs, n),
            w == penalties(eqs),
            weights@ == w,
            eqs_below(eqs, n_vars as int),
            cover::weights_ok(w),
            are_found(eqs, n, *cfg, cores@),
            is_within_nodes(eqs, *cfg, cores@, cores@.len() as int),
            cover::is_minimum_cover(w, cores@, selected@, hs_cost as int),
            selected@ == cover::best_cover(w, cores@),
        ensures
            found == cfg.max_cores || is_finished(eqs, n, selected@),
        decreases cfg.max_cores - found,
    {
        let mut active: Vec<bool> = Vec::new();
        let mut i: usize = 0;
        while i < m
            invariant
                i <= m,
                selected@.len() == m,
                active@.len() == i,
                forall|j: int| 0 <= j < i ==> #[trigger] active@[j] == !selected@[j],
            decreases m - i,
        {
            active.push(!selected[i]);
            i += 1;
        }
        assert(active@ =~= unselected(selected@));
        let core = match core_for_active(soft_eqs.as_slice(), active.as_slice(), n_vars) {
            None => {
                assert(is_finished(eqs, n, selected@));
                break;
            },
            Some(core) => core,
        };
        let ghost core0 = core@;
        let core = dedup_and_sort_core(core);
        proof {
            sets::lemma_ascending_unique(core@, core0);
            lemma_core_ok(rows, n, core@);
            assert forall|c: int| 0 <= c < cores@.len() implies (#[trigger] cores@[c])@ != core@ by {
                assert(cover::hits(selected@, cores@[c]@));
                if cores@[c]@ == core@ {
                    let k = choose|k: int| 0 <= k < core@.len() && selected@[#[trigger] core@[k] as int];
                    assert(core@[k] < m);
                    assert(active@[core0[k] as int]);
                }
            }
        }
        let ghost cores0 = cores@;
        let ghost core1 = core;
        if !has_core(&cores, &core) {
            cores.push(core);
        }
        proof {
            assert(cores@ == cores0.push(core1));
            assert(cores@.take(cores0.len() as int) =~= cores0);
            assert(cores0.take(cores0.len() as int) =~= cores0);
            assert(!cover::hits(selected@, core1@)) by {
                if cover::hits(selected@, core1@) {
                    let k = choose|k: int|
                        0 <= k < core1@.len() && selected@[#[trigger] core1@[k] as int];
                    assert(core1@[k] < m);
                    assert(active@[core0[k] as int]);
                }
            }
            assert(follows(eqs, n, *cfg, cores@, cores0.len() as int));
            lemma_found_push(eqs, n, *cfg, cores0, core1);
            assert(cores@.take(cores@.len() as int) =~= cores@);
            assert forall|c: int| 0 <= c < cores@.len() implies cover::core_ok(
                (#[trigger] cores@[c])@,
                w.len(),
            ) by {
                lemma_core_ok(rows, n, cores@[c]@);
            }
        }
        match cover::solve_weighted_hitting_set_exact(&weights, &cores, cfg.max_search_nodes) {
            None => {
                let r: i64 = cover::core_packing_lower_bound(&weights, &cores);
                proof {
                    assert(is_hitting_run(eqs, n, *cfg, cores@, r as int));
                    cover::lemma_packing_nonneg(w, cores@);
                }
                return r;
            },
            Some((c, sel)) => {
                hs_cost = c;
                selected = sel;
            },
        }
        found += 1;
    }
    proof {
        assert(is_hitting_run(eqs, n, *cfg, cores@, hs_cost as int));
        cover::lemma_cost_fits(w, selected@);
    }
    hs_cost
}

/// The equations of a node fit their use.
proof fn lemma_eqs_of_node<V: VarDomain>(
    instance: &HuboInstance<V>,
    node: &Node,
    eqs: Seq<SoftParityEq>,
)
    requires
        instance.wf(),
        instance.fits(),
        node.describes(instance),
        instance.terms@.len() <= usize::MAX,
        are_soft_eqs(node.term_status@, node.term_status@.len(), eqs),
    ensures
        eqs_below(eqs, instance.n() as int),
        cover::weights_ok(penalties(eqs)),
        forall|i: int| 0 <= i < eqs.len() ==> (#[trigger] eqs[i]).vars@.len() > 0,
{
    let s = node.term_status@;
    let a = cheap::active_list(s, s.len());
    cheap::lemma_active_list(s, s.len());
    cheap::lemma_bound_size(instance, node);
    assert forall|i: int| 0 <= i < eqs.len() implies (#[trigger] eqs[i]).vars@.len() > 0
        && term::indices_below(eqs[i].vars@, instance.n() as int) by {
        let t = a[i] as int;
        assert(is_soft_eq(s[a[i] as int]->0, eqs[i]));
        assert(cheap::is_active(s[t]));
        let p = s[t]->0;
        assert(node::status_ok(V::tag(), instance.terms@[t], node.fixed@, s[t]));
        node::lemma_free_list_subset(instance.terms@[t].indices@, node.fixed@);
        assert(p.free_variables@.contains(p.free_variables@[0]));
        assert(eqs[i].vars@.contains(p.free_variables@[0]));
        assert(term::indices_below(instance.terms@[t].indices@, instance.n() as int));
        assert forall|j: int| 0 <= j < eqs[i].vars@.len() implies (#[trigger] eqs[i].vars@[j])
            < instance.n() by {
            let v = eqs[i].vars@[j];
            assert(eqs[i].vars@.contains(v));
            assert(node::free_list(instance.terms@[t].indices@, node.fixed@).contains(v));
            let q = choose|q: int|
                0 <= q < instance.terms@[t].indices@.len() && instance.terms@[t].indices@[q] == v;
            assert(instance.terms@[t].indices@[q] < instance.n());
        }
    }
    let w = penalties(eqs);
    assert forall|i: int| 0 <= i < w.len() implies (#[trigger] w[i]) >= 0 by {
        assert(is_soft_eq(s[a[i] as int]->0, eqs[i]));
    }
    lemma_total_weight(s, eqs, s.len());
    assert(s.take(s.len() as int) =~= s);
}

/// All penalties together are at most twice the absolute coefficients.
proof fn lemma_total_weight(
    s: Seq<Option<PartiallyAssignedTerm>>,
    eqs: Seq<SoftParityEq>,
    k: nat,
)
    requires
        k <= s.len(),
        s.len() <= usize::MAX,
        cheap::active_list(s, k).len() <= eqs.len(),
        forall|l: int|
            0 <= l < cheap::active_list(s, k).len() ==> is_soft_eq(
                s[cheap::active_list(s, k)[l] as int]->0,
                #[trigger] eqs[l],
            ),
    ensures
        cover::cost(
            penalties(eqs),
            cover::all_selected(eqs.len()),
            cheap::active_list(s, k).len(),
        ) <= 2 * node::status_abs(s.take(k as int)),
    decreases k,
{
    if k > 0 {
        let k1 = (k - 1) as nat;
        let a = cheap::active_list(s, k1);
        let b = cheap::active_list(s, k);
        assert forall|l: int| 0 <= l < a.len() implies is_soft_eq(
            s[a[l] as int]->0,
            #[trigger] eqs[l],
        ) by {
            assert(b[l] == a[l]);
        }
        lemma_total_weight(s, eqs, k1);
        assert(s.take(k as int).drop_last() =~= s.take(k1 as int));
        if cheap::is_active(s[k1 as int]) {
            assert(b[b.len() - 1] == k1 as usize);
            assert(is_soft_eq(s[b[b.len() - 1] as int]->0, eqs[b.len() - 1]));
        }
    }
}

/// `bonus` is what the search gives for the preferences of the node.
pub open spec fn is_node_bonus(node: &Node, n: nat, cfg: HittingSet, bonus: int) -> bool {
    exists|eqs: Seq<SoftParityEq>|
        are_soft_eqs(node.term_status@, node.term_status@.len(), eqs)
            && #[trigger] is_hitting_bonus(eqs, n, cfg, bonus)
}

/// The bonus over the termwise bound that contradictions of the node's parity
/// preferences give.
pub fn hitting_set_spin_bonus<V: VarDomain>(
    instance: &HuboInstance<V>,
    node: &Node,
    cfg: &HittingSet,
) -> (r: i64)
    requires
        instance.wf(),
        instance.fits(),
        instance.n() < usize::MAX,
        node.describes(instance),
    ensures
        is_node_bonus(node, instance.n() as nat, *cfg, r as int),
        r >= 0,
{
    let n_terms: usize = instance.terms.len();
    proof {
        cheap::lemma_bound_size(instance, node);
    }
    let soft_eqs = build_soft_parity_eqs(node);
    proof {
        lemma_eqs_of_node(instance, node, soft_eqs@);
    }
    bonus_of_eqs(&soft_eqs, instance.n_vars(), cfg)
}

/// The low bits of an assignment.
pub open spec fn lows(x: Seq<bool>) -> Seq<bool> {
    Seq::new(x.len(), |j: int| !x[j])
}

/// The equations that an assignment of bits violates.
pub open spec fn violated(eqs: Seq<SoftParityEq>, n: nat, y: Seq<bool>) -> Seq<bool> {
    Seq::new(eqs.len(), |i: int| !parity::sat(eq_rows(eqs, n)[i], n, y))
}

/// What is left exceeds its termwise bound by the violated penalties.
proof fn lemma_violated(
    s: Seq<Option<PartiallyAssignedTerm>>,
    eqs: Seq<SoftParityEq>,
    x: Seq<bool>,
    k: nat,
)
    requires
        k <= s.len(),
        s.len() <= usize::MAX,
        x.len() <= usize::MAX,
        cheap::active_list(s, k).len() <= eqs.len(),
        forall|l: int|
            0 <= l < cheap::active_list(s, k).len() ==> is_soft_eq(
                s[cheap::active_list(s, k)[l] as int]->0,
                #[trigger] eqs[l],
            ),
        forall|i: int|
            0 <= i < s.len() && (#[trigger] s[i]) is Some ==> s[i]->0.free_variables@.no_duplicates()
                && term::indices_below(s[i]->0.free_variables@, x.len() as int),
    ensures
        node::residual(VarType::Spin, s.take(k as int), x) == cheap::floor_sum(
            VarType::Spin,
            s.take(k as int),
        ) + cover::cost(
            penalties(eqs),
            violated(eqs, x.len(), lows(x)),
            cheap::active_list(s, k).len(),
        ),
    decreases k,
{
    if k > 0 {
        let k1 = (k - 1) as nat;
        let a = cheap::active_list(s, k1);
        let b = cheap::active_list(s, k);
        assert forall|l: int| 0 <= l < a.len() implies is_soft_eq(
            s[a[l] as int]->0,
            #[trigger] eqs[l],
        ) by {
            assert(b[l] == a[l]);
        }
        lemma_violated(s, eqs, x, k1);
        assert(s.take(k as int).drop_last() =~= s.take(k1 as int));
        match s[k1 as int] {
            None => {},
            Some(p) => {
                term::lemma_monomial_range(VarType::Spin, p.free_variables@, x);
                let m = term::monomial(VarType::Spin, p.free_variables@, x);
                let c = p.coeff as int;
                assert(c * m == if m == 1 { c } else { -c }) by (nonlinear_arith)
                    requires
                        m == 1 || m == -1,
                ;
                let free = Seq::new(x.len(), |i: int| None::<bool>);
                cheap::lemma_row_parity(p.free_variables@, x.len(), p.coeff > 0, free, x);
                node::lemma_all_free(p.free_variables@, free);
                assert(cheap::low_bits(x, free) =~= lows(x));
                if cheap::is_active(s[k1 as int]) {
                    let l = a.len() as int;
                    assert(b[l] == k1 as usize);
                    assert(is_soft_eq(s[b[l] as int]->0, eqs[l]));
                    assert(eq_rows(eqs, x.len())[l] =~= cheap::parity_row(
                        p.free_variables@,
                        x.len(),
                        p.coeff > 0,
                    ));
                }
            },
        }
    }
}

/// The objective is the termwise bound plus the violated penalties.
proof fn lemma_objective_split<V: VarDomain>(
    instance: &HuboInstance<V>,
    node: &Node,
    eqs: Seq<SoftParityEq>,
    x: Seq<bool>,
)
    requires
        V::tag() == VarType::Spin,
        instance.wf(),
        instance.n() <= usize::MAX,
        instance.terms@.len() <= usize::MAX,
        node.describes(instance),
        node::extends(x, node.fixed@),
        are_soft_eqs(node.term_status@, node.term_status@.len(), eqs),
    ensures
        instance.objective(x) == cheap::base_bound(instance, node) + cover::cost(
            penalties(eqs),
            violated(eqs, x.len(), lows(x)),
            eqs.len(),
        ),
{
    let s = node.term_status@;
    assert forall|i: int| 0 <= i < s.len() && (#[trigger] s[i]) is Some implies s[i]->0.free_variables@.no_duplicates()
        && term::indices_below(s[i]->0.free_variables@, x.len() as int) by {
        let idx = instance.terms@[i].indices@;
        assert(node::status_ok(V::tag(), instance.terms@[i], node.fixed@, s[i]));
        assert(term::indices_below(idx, instance.n() as int));
        assert(idx.no_duplicates());
        node::lemma_free_list_subset(idx, node.fixed@);
        let fv = s[i]->0.free_variables@;
        assert forall|j: int| 0 <= j < fv.len() implies (#[trigger] fv[j]) < x.len() by {
            assert(fv.contains(fv[j]));
            let q = choose|q: int| 0 <= q < idx.len() && idx[q] == fv[j];
            assert(idx[q] < instance.n());
        }
    }
    lemma_violated(s, eqs, x, s.len());
    assert(s.take(s.len() as int) =~= s);
    node::node_represents_objective(instance, node, x);
}

/// The termwise bound plus the bonus is at most the objective of every
/// completion.
pub proof fn hitting_bonus_is_valid<V: VarDomain>(
    instance: &HuboInstance<V>,
    node: &Node,
    eqs: Seq<SoftParityEq>,
    cfg: HittingSet,
    bonus: int,
    x: Seq<bool>,
)
    requires
        V::tag() == VarType::Spin,
        instance.wf(),
        instance.fits(),
        instance.n() <= usize::MAX,
        instance.terms@.len() <= usize::MAX,
        node.describes(instance),
        are_soft_eqs(node.term_status@, node.term_status@.len(), eqs),
        is_hitting_bonus(eqs, instance.n() as nat, cfg, bonus),
        node::extends(x, node.fixed@),
    ensures
        cheap::base_bound(instance, node) + bonus <= instance.objective(x),
{
    let n = instance.n() as nat;
    let cores = choose|cores: Seq<Vec<usize>>| #[trigger]
        is_hitting_run(eqs, n, cfg, cores, bonus);
    lemma_objective_split(instance, node, eqs, x);
    lemma_eqs_of_node(instance, node, eqs);
    let y = lows(x);
    let viol = violated(eqs, n, y);
    let rows = eq_rows(eqs, n);
    assert forall|c: int| 0 <= c < cores.len() implies cover::core_ok(
        (#[trigger] cores[c])@,
        eqs.len(),
    ) by {
        lemma_core_ok(rows, n, cores[c]@);
    }
    assert forall|c: int| 0 <= c < cores.len() implies cover::hits(viol, (#[trigger] cores[c])@) by {
        let k = parity::contradiction_is_violated(rows, n, cores[c]@, y);
        assert(viol[cores[c]@[k] as int]);
    }
    assert(cover::hits_all(viol, cores));
    cheap::lemma_active_list(node.term_status@, node.term_status@.len());
    cover::lemma_ascending_len(
        cheap::active_list(node.term_status@, node.term_status@.len()),
        node.term_status@.len(),
    );
    if bonus == cover::packing(penalties(eqs), cores, cores.len()) {
        cover::packing_bounds_covers(penalties(eqs), cores, viol);
    }
}

/// Where the search ends because what is not given up can be satisfied
/// together, the termwise bound plus the bonus is the least objective of all
/// completions.
pub proof fn finished_search_is_exact<V: VarDomain>(
    instance: &HuboInstance<V>,
    node: &Node,
    eqs: Seq<SoftParityEq>,
    cores: Seq<Vec<usize>>,
    sel: Seq<bool>,
    bonus: int,
) -> (x: Seq<bool>)
    requires
        V::tag() == VarType::Spin,
        instance.wf(),
        instance.fits(),
        instance.n() <= usize::MAX,
        instance.terms@.len() <= usize::MAX,
        node.describes(instance),
        are_soft_eqs(node.term_status@, node.term_status@.len(), eqs),
        forall|c: int|
            0 <= c < cores.len() ==> parity::is_core(
                eq_rows(eqs, instance.n() as nat),
                instance.n() as nat,
                (#[trigger] cores[c])@,
            ),
        cover::is_minimum_cover(penalties(eqs), cores, sel, bonus),
        is_finished(eqs, instance.n() as nat, sel),
    ensures
        node::extends(x, node.fixed@),
        instance.objective(x) == cheap::base_bound(instance, node) + bonus,
{
    let n = instance.n() as nat;
    let s = node.term_status@;
    let f = node.fixed@;
    let act = unselected(sel);
    let z = choose|z: Seq<bool>| #[trigger] satisfies_active(eqs, act, n, z);
    let x = Seq::new(
        n,
        |j: int|
            match f[j] {
                Some(b) => b,
                None => !z[j],
            },
    );
    lemma_eqs_of_node(instance, node, eqs);
    lemma_objective_split(instance, node, eqs, x);
    let y = lows(x);
    let viol = violated(eqs, n, y);
    let rows = eq_rows(eqs, n);
    cheap::lemma_active_list(s, s.len());
    assert(cover::within(viol, sel)) by {
        assert forall|i: int| 0 <= i < viol.len() && #[trigger] viol[i] implies sel[i] by {
            if !sel[i] {
                assert(eqs[i].vars@.len() > 0);
                assert(parity::sat(eq_rows(eqs, n)[i], n, z));
                let t = cheap::active_list(s, s.len())[i] as int;
                assert(is_soft_eq(s[cheap::active_list(s, s.len())[i] as int]->0, eqs[i]));
                assert(node::status_ok(V::tag(), instance.terms@[t], f, s[t]));
                node::lemma_free_list_subset(instance.terms@[t].indices@, f);
                assert forall|j: int| 0 <= j < n && #[trigger] rows[i][j] implies z[j] == y[j] by {
                    assert(eqs[i].vars@.contains(j as usize));
                    assert(s[t]->0.free_variables@.contains(j as usize));
                    assert(node::free_list(instance.terms@[t].indices@, f).contains(j as usize));
                }
                parity::lemma_dot_agree(rows[i], z, y, n);
            }
        }
    }
    cover::lemma_cost_monotone(penalties(eqs), viol, sel);
    assert forall|c: int| 0 <= c < cores.len() implies cover::hits(viol, (#[trigger] cores[c])@) by {
        let k = parity::contradiction_is_violated(rows, n, cores[c]@, y);
        assert(viol[cores[c]@[k] as int]);
    }
    assert(cover::hits_all(viol, cores));
    x
}

/// `lb` is the bound: the cheap one, over spins raised to the termwise bound
/// plus the bonus of the search, with its slack, where that is larger.
pub open spec fn is_hitting_bound<V: VarDomain>(
    instance: &HuboInstance<V>,
    node: &Node,
    cfg: HittingSet,
    lb: int,
) -> bool {
    match V::tag() {
        VarType::Bin => cheap::is_cheap_bound(instance, node, lb),
        VarType::Spin => exists|c: int, bonus: int|
            #![trigger cheap::is_cheap_bound(instance, node, c), is_node_bonus(
                node,
                instance.n() as nat,
                cfg,
                bonus,
            )]
            cheap::is_cheap_bound(instance, node, c) && is_node_bonus(
                node,
                instance.n() as nat,
                cfg,
                bonus,
            ) && lb == larger_bound(c, cheap::base_bound(instance, node) + bonus),
    }
}

/// The larger of a bound and a total with its slack.
pub open spec fn larger_bound(lb: int, total: int) -> int {
    let other = if coeff::with_slack(total) < i64::MIN {
        i64::MIN as int
    } else {
        coeff::with_slack(total)
    };
    if other > lb {
        other
    } else {
        lb
    }
}

/// The bound of a node.
pub fn compute<V: VarDomain>(instance: &HuboInstance<V>, node: &mut Node, cfg: &HittingSet) -> (r:
    i64)
    requires
        instance.wf(),
        instance.fits(),
        instance.n() < usize::MAX,
        old(node).describes(instance),
    ensures
        is_hitting_bound(instance, old(node), *cfg, r as int),
        crate::bounds::bounds_below(instance, old(node).fixed@, r as int),
        final(node).describes(instance),
        crate::bounds::same_problem(old(node), final(node)),
{
    let ghost node0 = *node;
    let n_terms: usize = instance.terms.len();
    let cheap_lb: i64 = cheap::compute(instance, node);
    proof {
        crate::bounds::lemma_cheap_bounds(instance, &node0, cheap_lb as int);
    }
    let vt: VarType = V::var_type();
    if vt != VarType::Spin {
        return cheap_lb;
    }
    let base: i64 = cheap::lower_bound_base(instance, node);
    let bonus: i64 = hitting_set_spin_bonus(instance, node, cfg);
    assert(is_node_bonus(&node0, instance.n() as nat, *cfg, bonus as int));
    let ghost eqs = choose|eqs: Seq<SoftParityEq>|
        are_soft_eqs(node0.term_status@, node0.term_status@.len(), eqs)
            && #[trigger] is_hitting_bonus(eqs, instance.n() as nat, *cfg, bonus as int);
    proof {
        let total = cheap::base_bound(instance, &node0) + bonus;
        assert forall|x: Seq<bool>| #[trigger] node::extends(x, node0.fixed@) implies total
            <= instance.objective(x) by {
            hitting_bonus_is_valid(instance, &node0, eqs, *cfg, bonus as int, x);
        }
        let x = Seq::new(node0.fixed@.len(), |i: int| node0.fixed@[i] == Some(true));
        assert(node::extends(x, node0.fixed@));
        term::lemma_poly_range(V::tag(), instance.terms@, x);
        assert(total <= i64::MAX);
    }
    let hs_lb: i64 = coeff::slack_bound(base + bonus);
    coeff::max_of(hs_lb, cheap_lb)
}

impl<V: VarDomain> crate::bounds::LowerBound<V> for HittingSet {
    open spec fn is_bound(
        &self,
        instance: &HuboInstance<V>,
        node: &Node,
        ub: Option<i64>,
        r: int,
    ) -> bool {
        is_hitting_bound(instance, node, *self, r)
    }

    open spec fn is_core(
        &self,
        instance: &HuboInstance<V>,
        node: &Node,
        b: int,
        core: Option<Seq<usize>>,
    ) -> bool {
        core is None
    }

    /// No contradiction comes with the bound.
    fn compute_with_core(
        &self,
        instance: &HuboInstance<V>,
        node: &mut Node,
        incumbent_ub: Option<i64>,
    ) -> (r: (i64, Option<Vec<usize>>))
        ensures
            r.1 is None,
    {
        (self.compute(instance, node, incumbent_ub), None)
    }

    fn compute(
        &self,
        instance: &HuboInstance<V>,
        node: &mut Node,
        incumbent_ub: Option<i64>,
    ) -> (r: i64)
    {
        compute(instance, node, self)
    }
}

} // verus!
