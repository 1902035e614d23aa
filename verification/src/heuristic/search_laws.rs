//! What the searches do, stated over the assignments that they visit.

use crate::domain::VarDomain;
use crate::heuristic::greedy;
use crate::heuristic::rng;
use crate::heuristic::run::Run;
use crate::heuristic::run;
use crate::heuristic::saw;
use crate::heuristic::tabu;
use crate::heuristic::walk;
use crate::instance::HuboInstance;
use crate::solution::BitSolution;
use crate::solution;
use vstd::prelude::*;

verus! {

/// The assignment after `y` differs from `x` in variable `v` alone.
pub open spec fn differs_at(x: Seq<bool>, y: Seq<bool>, v: int) -> bool {
    &&& 0 <= v < x.len()
    &&& y.len() == x.len()
    &&& y[v] != x[v]
    &&& forall|u: int| 0 <= u < x.len() && u != v ==> #[trigger] y[u] == x[u]
}

proof fn lemma_differs(x: Seq<bool>, y: Seq<bool>, v: int)
    requires
        0 <= v < x.len(),
    ensures
        differs_at(x, y, v) <==> y == solution::flipped(x, v),
{
    if differs_at(x, y, v) {
        assert(y =~= solution::flipped(x, v));
    }
}

/// The objective after variable `u` of `x` was changed.
pub open spec fn objective_without<V: VarDomain>(
    instance: &HuboInstance<V>,
    x: Seq<bool>,
    u: int,
) -> int {
    instance.objective(x.update(u, !x[u]))
}

// Tabu search.

/// Iteration `k` of a tabu search changes variable `v`, within one restart.
pub open spec fn tabu_flips(states: Seq<tabu::Search>, k: int, v: int) -> bool {
    &&& 0 <= k < states.len() - 1
    &&& states[k + 1].run.restart == states[k].run.restart
    &&& differs_at(states[k].run.walk.sol@, states[k + 1].run.walk.sol@, v)
}

/// Variable `u` was changed in the same restart less than `tenure` iterations before
/// iteration `j`.
pub open spec fn is_recent(states: Seq<tabu::Search>, j: int, u: int, tenure: int) -> bool {
    exists|i: int| #[trigger]
        tabu_flips(states, i, u) && i < j && states[i].run.restart == states[j].run.restart && j - i
            < tenure
}

/// Variable `u` may be changed at iteration `j`: it was not changed lately, or the
/// change gives an objective below the best so far.
pub open spec fn is_free<V: VarDomain>(
    instance: &HuboInstance<V>,
    states: Seq<tabu::Search>,
    j: int,
    u: int,
    tenure: int,
) -> bool {
    !is_recent(states, j, u, tenure) || objective_without(
        instance,
        states[j].run.walk.sol@,
        u,
    ) < states[j].run.incumbent.obj
}

proof fn lemma_tabu_order<V: VarDomain>(
    instance: &HuboInstance<V>,
    config: tabu::Config,
    initial: Option<&BitSolution>,
    states: Seq<tabu::Search>,
    i: int,
    j: int,
)
    requires
        tabu::is_path(instance, config, initial, states),
        0 <= i <= j < states.len(),
        states.len() < u64::MAX,
    ensures
        states[i].run.restart <= states[j].run.restart,
        states[j].run.moves <= j,
        states[j].tenure == states[0].tenure,
        !states[j].run.over && states[i].run.restart == states[j].run.restart
            ==> states[j].run.moves - states[i].run.moves == j - i,
    decreases j,
{
    if j > 0 {
        let a = states[j - 1];
        let b = states[j];
        assert(!states[j - 1].run.over && tabu::is_step(
            instance,
            config.max_iterations,
            greedy::quiet(),
            &states[j - 1],
            &states[j - 1 + 1],
        ));
        lemma_tabu_order(
            instance,
            config,
            initial,
            states,
            if i < j {
                i
            } else {
                j - 1
            },
            j - 1,
        );
        if !greedy::is_spent(config.max_iterations, a.run.moves) {
            let v = choose|v: usize| #[trigger]
                tabu::is_chosen(instance, &a, v) && tabu::is_move(instance, &a, &b, v as int);
        }
    }
}

/// The change of iteration `k`, where no restart comes between.
proof fn lemma_tabu_move<V: VarDomain>(
    instance: &HuboInstance<V>,
    config: tabu::Config,
    initial: Option<&BitSolution>,
    states: Seq<tabu::Search>,
    k: int,
) -> (v: int)
    requires
        tabu::is_path(instance, config, initial, states),
        0 <= k < states.len() - 1,
        !greedy::is_spent(config.max_iterations, states[k].run.moves),
        instance.n() > 0,
    ensures
        0 <= v < instance.n(),
        tabu::is_chosen(instance, &states[k], v as usize),
        tabu::is_move(instance, &states[k], &states[k + 1], v),
        tabu_flips(states, k, v),
        forall|u: int| #[trigger] tabu_flips(states, k, u) ==> u == v,
{
    let a = states[k];
    let b = states[k + 1];
    assert(a.wf(instance));
    assert(tabu::is_step(
        instance,
        config.max_iterations,
        greedy::quiet(),
        &states[k],
        &states[k + 1],
    ));
    let v = choose|v: usize| #[trigger]
        tabu::is_chosen(instance, &a, v) && tabu::is_move(instance, &a, &b, v as int);
    if tabu::none_admissible(instance, &a) {
        lemma_drawn(a.run.rng, instance.n() as int);
    }
    lemma_differs(a.run.walk.sol@, b.run.walk.sol@, v as int);
    assert forall|u: int| #[trigger] tabu_flips(states, k, u) implies u == v by {}
    v as int
}

proof fn lemma_drawn(r: rng::Rng, n: int)
    requires
        n > 0,
    ensures
        0 <= rng::drawn(r, n) < n,
{
}

/// The table of a tabu search holds, for each variable, when its last change in the
/// restart stops forbidding it.
proof fn lemma_tabu_table<V: VarDomain>(
    instance: &HuboInstance<V>,
    config: tabu::Config,
    initial: Option<&BitSolution>,
    states: Seq<tabu::Search>,
    j: int,
    u: int,
) -> (last: Option<int>)
    requires
        tabu::is_path(instance, config, initial, states),
        0 <= j < states.len(),
        !states[j].run.over,
        0 <= u < instance.n(),
        states.len() + states[0].tenure < u64::MAX,
    ensures
        match last {
            None => {
                &&& states[j].tabu_until@[u] == 0
                &&& forall|i: int| #[trigger]
                    tabu_flips(states, i, u) && i < j ==> states[i].run.restart
                        != states[j].run.restart
            },
            Some(i) => {
                &&& tabu_flips(states, i, u)
                &&& i < j
                &&& states[i].run.restart == states[j].run.restart
                &&& states[j].tabu_until@[u] == states[i].run.moves + states[0].tenure
                &&& forall|k: int| #[trigger]
                    tabu_flips(states, k, u) && k < j ==> k <= i || states[k].run.restart
                        != states[j].run.restart
            },
        },
    decreases j,
{
    assert(states[j].wf(instance));
    if j == 0 {
        None
    } else {
        let a = states[j - 1];
        let b = states[j];
        assert(a.wf(instance));
        assert(!states[j - 1].run.over && tabu::is_step(
            instance,
            config.max_iterations,
            greedy::quiet(),
            &states[j - 1],
            &states[j - 1 + 1],
        ));
        lemma_tabu_order(instance, config, initial, states, j - 1, j - 1);
        if greedy::is_spent(config.max_iterations, a.run.moves) {
            assert forall|i: int| #[trigger] tabu_flips(states, i, u) && i < j implies states[i].run.restart
                != states[j].run.restart by {
                lemma_tabu_order(instance, config, initial, states, i, j - 1);
            }
            None
        } else {
            let v = lemma_tabu_move(instance, config, initial, states, j - 1);
            if v == u {
                assert(tabu_flips(states, j - 1, u));
                Some(j - 1)
            } else {
                let last = lemma_tabu_table(instance, config, initial, states, j - 1, u);
                assert(!tabu_flips(states, j - 1, u));
                last
            }
        }
    }
}

proof fn lemma_tabu_recent<V: VarDomain>(
    instance: &HuboInstance<V>,
    config: tabu::Config,
    initial: Option<&BitSolution>,
    states: Seq<tabu::Search>,
    j: int,
    u: int,
)
    requires
        tabu::is_path(instance, config, initial, states),
        0 <= j < states.len(),
        !states[j].run.over,
        0 <= u < instance.n(),
        states.len() + states[0].tenure < u64::MAX,
    ensures
        is_recent(states, j, u, states[0].tenure as int) == (states[j].tabu_until@[u]
            > states[j].run.moves),
{
    let tenure = states[0].tenure as int;
    let last = lemma_tabu_table(instance, config, initial, states, j, u);
    if is_recent(states, j, u, tenure) {
        let i = choose|i: int| #[trigger]
            tabu_flips(states, i, u) && i < j && states[i].run.restart == states[j].run.restart && j
                - i < tenure;
        let k = last->0;
        lemma_tabu_order(instance, config, initial, states, k, j);
    }
    if let Some(i) = last {
        lemma_tabu_order(instance, config, initial, states, i, j);
        if states[j].tabu_until@[u] > states[j].run.moves {
            assert(tabu_flips(states, i, u));
        }
    }
}

/// A tabu search changes at each iteration the first of the best variables among
/// those that may be changed: those not changed during the last iterations of the
/// restart, as many as the tenure says, and those whose change gives an objective
/// below the best so far. Only where none may be changed is another one changed. The
/// tenure is the given one, or the square root of the number of variables, rounded
/// up.
pub proof fn tabu_search_avoids_recent_changes<V: VarDomain>(
    instance: &HuboInstance<V>,
    config: tabu::Config,
    initial: Option<&BitSolution>,
    states: Seq<tabu::Search>,
    j: int,
    v: int,
    tenure: int,
)
    requires
        tabu::is_path(instance, config, initial, states),
        match config.tenure {
            Some(t) => tenure == t,
            None => tenure >= 0 && tenure * tenure >= instance.n() && (tenure > 0 ==> (tenure - 1)
                * (tenure - 1) < instance.n()),
        },
        states.len() + tenure < u64::MAX,
        tabu_flips(states, j, v),
    ensures
        ({
            let x = states[j].run.walk.sol@;
            let y = states[j + 1].run.walk.sol@;
            (exists|u: int| 0 <= u < instance.n() && #[trigger] is_free(
                instance,
                states,
                j,
                u,
                tenure,
            )) ==> {
                &&& is_free(instance, states, j, v, tenure)
                &&& forall|u: int|
                    0 <= u < instance.n() && #[trigger] is_free(instance, states, j, u, tenure)
                        ==> instance.objective(y) <= objective_without(instance, x, u) && (u < v
                        ==> instance.objective(y) < objective_without(instance, x, u))
            }
        }),
{
    let a = states[j];
    let x = a.run.walk.sol@;
    assert(a.wf(instance));
    assert(!states[j].run.over && tabu::is_step(
        instance,
        config.max_iterations,
        greedy::quiet(),
        &states[j],
        &states[j + 1],
    ));
    let t0 = states[0].tenure as int;
    if config.tenure is None {
        assert(t0 == tenure) by (nonlinear_arith)
            requires
                t0 >= 0,
                tenure >= 0,
                t0 * t0 >= instance.n(),
                tenure * tenure >= instance.n(),
                t0 > 0 ==> (t0 - 1) * (t0 - 1) < instance.n(),
                tenure > 0 ==> (tenure - 1) * (tenure - 1) < instance.n(),
        ;
    }
    lemma_tabu_order(instance, config, initial, states, j, j);
    if greedy::is_spent(config.max_iterations, a.run.moves) {
        assert(states[j + 1].run.walk == a.run.walk);
        assert(false);
    }
    let w = lemma_tabu_move(instance, config, initial, states, j);
    assert(w == v);
    lemma_differs(x, states[j + 1].run.walk.sol@, v);
    assert forall|u: int| 0 <= u < instance.n() implies #[trigger] is_free(
        instance,
        states,
        j,
        u,
        tenure,
    ) == tabu::is_admissible(instance, &a, u) by {
        lemma_tabu_recent(instance, config, initial, states, j, u);
        assert(solution::flipped(x, u) == x.update(u, !x[u]));
    }
    if exists|u: int| 0 <= u < instance.n() && #[trigger] is_free(instance, states, j, u, tenure) {
        let u = choose|u: int|
            0 <= u < instance.n() && #[trigger] is_free(instance, states, j, u, tenure);
        assert(tabu::is_admissible(instance, &a, u));
        assert(tabu::is_best_admissible(instance, &a, v));
        assert forall|u: int|
            0 <= u < instance.n() && #[trigger] is_free(
                instance,
                states,
                j,
                u,
                tenure,
            ) implies instance.objective(states[j + 1].run.walk.sol@) <= objective_without(
            instance,
            x,
            u,
        ) && (u < v ==> instance.objective(states[j + 1].run.walk.sol@) < objective_without(
            instance,
            x,
            u,
        )) by {
            assert(tabu::is_admissible(instance, &a, u));
        }
    }
}

// Self-avoiding walks.

/// The states of a walk, taken as a whole.
#[verifier::opaque]
spec fn on_walk<V: VarDomain>(
    instance: &HuboInstance<V>,
    config: saw::Config,
    states: Seq<saw::Search>,
) -> bool {
    saw::is_path(instance, config, states)
}

/// A step that makes a move: a variable of the deck, which is a full one where all
/// were dealt, is changed and leaves it.
proof fn lemma_saw_move<V: VarDomain>(
    instance: &HuboInstance<V>,
    config: saw::Config,
    a: &saw::Search,
    b: &saw::Search,
) -> (r: (Seq<usize>, int))
    requires
        a.wf(instance),
        0 < instance.n() <= usize::MAX,
        saw::is_step(instance, config, greedy::quiet(), a, b),
        !greedy::is_spent(config.max_steps, a.run.moves),
        a.run.moves < u64::MAX,
        !b.run.over || b.run.moves != a.run.moves,
    ensures
        b.run.restart == a.run.restart,
        b.run.moves == a.run.moves + 1,
        0 <= r.1 < r.0.len(),
        r.0.no_duplicates(),
        forall|i: int| 0 <= i < r.0.len() ==> (#[trigger] r.0[i]) < instance.n(),
        b.admissible@ == saw::dealt(r.0, r.1),
        a.admissible@.len() > 0 ==> r.0 == a.admissible@,
        a.admissible@.len() == 0 ==> r.0.len() == instance.n() && forall|v: usize|
            v < instance.n() ==> #[trigger] r.0.contains(v),
        !config.local_search || a.admissible@.len() > 0 ==> b.run.walk.sol@ == solution::flipped(
            a.run.walk.sol@,
            r.0[r.1] as int,
        ),
{
    let m = choose|m: saw::Search| #[trigger]
        saw::is_dealing(instance, config.local_search, a, &m) && (if m.run.over {
            b.run == m.run
        } else {
            saw::is_deal(&m, b)
        });
    let d = m.admissible@;
    lemma_full_deck(instance.n() as nat);
    assert(!m.run.over);
    let p = rng::drawn(m.run.rng, d.len() as int);
    lemma_drawn(m.run.rng, d.len() as int);
    (d, p)
}

/// How many variables are still to be dealt after `m` moves: none after the last of
/// a segment.
spec fn is_dealt(deck: Seq<usize>, m: int, n: int) -> bool {
    &&& m == 0 ==> deck.len() == n && forall|v: usize| v < n ==> #[trigger] deck.contains(v)
    &&& m > 0 && m % n == 0 ==> deck.len() == 0
    &&& m % n != 0 ==> deck.len() == n - m % n
}

proof fn lemma_dealt_on(deck: Seq<usize>, d: Seq<usize>, p: int, m: int, n: int)
    requires
        is_dealt(deck, m, n),
        n > 0,
        m >= 0,
        deck.len() > 0 ==> d == deck,
        deck.len() == 0 ==> d.len() == n,
        0 <= p < d.len(),
    ensures
        is_dealt(saw::dealt(d, p), m + 1, n),
{
    lemma_next_rest(m, n);
}

proof fn lemma_saw_moves<V: VarDomain>(
    instance: &HuboInstance<V>,
    config: saw::Config,
    states: Seq<saw::Search>,
    k: int,
)
    requires
        on_walk(instance, config, states),
        0 <= k < states.len(),
        states.len() < u64::MAX,
        instance.n() > 0,
    ensures
        states[k].run.moves <= k,
    decreases k,
{
    reveal(on_walk);
    if k > 0 {
        lemma_saw_moves(instance, config, states, k - 1);
        lemma_saw_pace(instance, config, states, k - 1, k);
        assert(saw::is_step(
            instance,
            config,
            greedy::quiet(),
            &states[k - 1],
            &states[k - 1 + 1],
        ));
    }
}

proof fn lemma_saw_deck<V: VarDomain>(
    instance: &HuboInstance<V>,
    config: saw::Config,
    states: Seq<saw::Search>,
    k: int,
)
    requires
        on_walk(instance, config, states),
        0 <= k < states.len(),
        states.len() < u64::MAX,
        0 < instance.n() <= usize::MAX,
        !states[k].run.over,
    ensures
        is_dealt(states[k].admissible@, states[k].run.moves as int, instance.n() as int),
    decreases k,
{
    reveal(on_walk);
    let n = instance.n() as int;
    lemma_full_deck(n as nat);
    if k > 0 {
        let a = states[k - 1];
        let b = states[k];
        assert(a.wf(instance) && b.wf(instance));
        assert(!states[k - 1].run.over && saw::is_step(
            instance,
            config,
            greedy::quiet(),
            &states[k - 1],
            &states[k - 1 + 1],
        ));
        lemma_saw_moves(instance, config, states, k - 1);
        if !greedy::is_spent(config.max_steps, a.run.moves) {
            lemma_saw_deck(instance, config, states, k - 1);
            let (d, p) = lemma_saw_move(instance, config, &a, &b);
            lemma_dealt_on(a.admissible@, d, p, a.run.moves as int, n);
        } else {
            lemma_fresh(b.admissible@, n);
        }
    } else {
        lemma_fresh(states[0].admissible@, n);
    }
}

proof fn lemma_fresh(deck: Seq<usize>, n: int)
    requires
        0 < n <= usize::MAX,
        deck == saw::full_deck(n as nat),
    ensures
        is_dealt(deck, 0, n),
{
    lemma_full_deck(n as nat);
    assert(0int % n == 0) by (nonlinear_arith)
        requires
            n > 0,
    ;
}

proof fn lemma_next_rest(m: int, n: int)
    requires
        n > 0,
        m >= 0,
    ensures
        (m + 1) % n == (if m % n == n - 1 {
            0
        } else {
            m % n + 1
        }),
        0 <= m % n < n,
        m % n == 0 && n == 1 ==> (m + 1) % n == 0,
{
    vstd::arithmetic::div_mod::lemma_fundamental_div_mod(m, n);
    let q = m / n;
    let r = m % n;
    if r == n - 1 {
        assert(m + 1 == (q + 1) * n) by (nonlinear_arith)
            requires
                m == n * q + r,
                r == n - 1,
        ;
        vstd::arithmetic::div_mod::lemma_fundamental_div_mod_converse(m + 1, n, q + 1, 0);
    } else {
        assert(m + 1 == q * n + (r + 1)) by (nonlinear_arith)
            requires
                m == n * q + r,
        ;
        vstd::arithmetic::div_mod::lemma_fundamental_div_mod_converse(m + 1, n, q, r + 1);
    }
}

proof fn lemma_full_deck(n: nat)
    requires
        n <= usize::MAX,
    ensures
        saw::full_deck(n).len() == n,
        forall|v: usize| v < n ==> #[trigger] saw::full_deck(n).contains(v),
{
    assert forall|v: usize| v < n implies #[trigger] saw::full_deck(n).contains(v) by {
        assert(saw::full_deck(n)[v as int] == v);
    }
}

/// The deck holds the variables that are as they were.
spec fn is_untouched(deck: Seq<usize>, x: Seq<bool>, x0: Seq<bool>) -> bool {
    forall|v: usize|
        v < x.len() ==> #[trigger] deck.contains(v) == (x[v as int] == x0[v as int])
}

proof fn lemma_untouched_on(d: Seq<usize>, p: int, x: Seq<bool>, x0: Seq<bool>)
    requires
        is_untouched(d, x, x0),
        d.no_duplicates(),
        0 <= p < d.len(),
        d[p] < x.len(),
    ensures
        is_untouched(saw::dealt(d, p), solution::flipped(x, d[p] as int), x0),
{
    let y = solution::flipped(x, d[p] as int);
    assert forall|v: usize| v < y.len() implies #[trigger] saw::dealt(d, p).contains(v) == (
    y[v as int] == x0[v as int]) by {
        saw::flipped_variable_leaves(d, p, v);
        assert(d.contains(d[p]));
        assert(d.contains(v) == (x[v as int] == x0[v as int]));
    }
}

/// The move of step `s` of a search.
proof fn lemma_saw_at<V: VarDomain>(
    instance: &HuboInstance<V>,
    config: saw::Config,
    states: Seq<saw::Search>,
    s: int,
) -> (r: (Seq<usize>, int))
    requires
        on_walk(instance, config, states),
        states.len() < u64::MAX,
        0 < instance.n() <= usize::MAX,
        0 <= s < states.len() - 1,
        states[s + 1].run.restart == states[s].run.restart,
        states[s + 1].run.moves > states[s].run.moves,
        !config.local_search || states[s].admissible@.len() > 0,
    ensures
        0 <= r.1 < r.0.len(),
        r.0.no_duplicates(),
        r.0[r.1] < instance.n(),
        states[s].run.walk.sol@.len() == instance.n(),
        states[s + 1].admissible@ == saw::dealt(r.0, r.1),
        states[s].admissible@.len() > 0 ==> r.0 == states[s].admissible@,
        states[s].admissible@.len() == 0 ==> r.0.len() == instance.n() && forall|v: usize|
            v < instance.n() ==> #[trigger] r.0.contains(v),
        states[s + 1].run.walk.sol@ == solution::flipped(
            states[s].run.walk.sol@,
            r.0[r.1] as int,
        ),
{
    reveal(on_walk);
    let a = states[s];
    let b = states[s + 1];
    assert(states[s].wf(instance));
    assert(saw::is_step(instance, config, greedy::quiet(), &states[s], &states[s + 1]));
    lemma_saw_moves(instance, config, states, s);
    lemma_not_spent(instance, config, &a, &b);
    lemma_saw_move(instance, config, &a, &b)
}

/// After `t` steps of a segment the deck holds the variables that have not changed.
proof fn lemma_saw_segment<V: VarDomain>(
    instance: &HuboInstance<V>,
    config: saw::Config,
    states: Seq<saw::Search>,
    k: int,
    t: int,
)
    requires
        on_walk(instance, config, states),
        states.len() < u64::MAX,
        0 < instance.n() <= usize::MAX,
        0 <= k,
        1 <= t <= instance.n(),
        k + t < states.len(),
        states[k].admissible@.len() == 0 || is_untouched(
            states[k].admissible@,
            states[k].run.walk.sol@,
            states[k].run.walk.sol@,
        ),
        states[k].admissible@.len() == 0 || states[k].admissible@.len() == instance.n(),
        states[k + t].run.restart == states[k].run.restart,
        states[k + t].run.moves == states[k].run.moves + t,
        !config.local_search || states[k].admissible@.len() > 0,
    ensures
        states[k + t].admissible@.len() == instance.n() - t,
        is_untouched(
            states[k + t].admissible@,
            states[k + t].run.walk.sol@,
            states[k].run.walk.sol@,
        ),
    decreases t,
{
    let s = k + t - 1;
    let a = states[s];
    lemma_saw_pace(instance, config, states, k, s);
    lemma_saw_pace(instance, config, states, s, s + 1);
    if t > 1 {
        lemma_saw_segment(instance, config, states, k, t - 1);
    }
    let (d, p) = lemma_saw_at(instance, config, states, s);
    assert(is_untouched(d, a.run.walk.sol@, states[k].run.walk.sol@));
    lemma_untouched_on(d, p, a.run.walk.sol@, states[k].run.walk.sol@);
}

proof fn lemma_not_spent<V: VarDomain>(
    instance: &HuboInstance<V>,
    config: saw::Config,
    a: &saw::Search,
    b: &saw::Search,
)
    requires
        saw::is_step(instance, config, greedy::quiet(), a, b),
        b.run.restart == a.run.restart,
        b.run.moves > a.run.moves,
    ensures
        !greedy::is_spent(config.max_steps, a.run.moves),
{
}

proof fn lemma_saw_pace<V: VarDomain>(
    instance: &HuboInstance<V>,
    config: saw::Config,
    states: Seq<saw::Search>,
    i: int,
    j: int,
)
    requires
        on_walk(instance, config, states),
        0 <= i <= j < states.len(),
        states.len() < u64::MAX,
        instance.n() > 0,
    ensures
        states[i].run.restart <= states[j].run.restart,
        states[i].run.restart == states[j].run.restart ==> states[j].run.moves
            <= states[i].run.moves + (j - i),
    decreases j - i,
{
    reveal(on_walk);
    if i < j {
        lemma_saw_pace(instance, config, states, i, j - 1);
        let a = states[j - 1];
        let b = states[j];
        assert(!states[j - 1].run.over && saw::is_step(
            instance,
            config,
            greedy::quiet(),
            &states[j - 1],
            &states[j - 1 + 1],
        ));
        if !greedy::is_spent(config.max_steps, a.run.moves) {
            let m = choose|m: saw::Search| #[trigger]
                saw::is_dealing(instance, config.local_search, &a, &m) && (if m.run.over {
                    b.run == m.run
                } else {
                    saw::is_deal(&m, &b)
                });
        }
    }
}

/// A self-avoiding walk changes every variable once before it changes one again:
/// from the start of a segment (every `n` moves) on, `t` moves later exactly `t`
/// variables have changed, and after `n` moves all of them have. A descent between
/// two segments comes before the moves of the second.
pub proof fn walks_avoid_themselves<V: VarDomain>(
    instance: &HuboInstance<V>,
    config: saw::Config,
    states: Seq<saw::Search>,
    k: int,
    t: int,
)
    requires
        saw::is_path(instance, config, states),
        states.len() < u64::MAX,
        0 < instance.n() <= usize::MAX,
        0 <= k,
        1 <= t <= instance.n(),
        k + t < states.len(),
        (states[k].run.moves as int) % (instance.n() as int) == 0,
        states[k + t].run.restart == states[k].run.restart,
        states[k + t].run.moves == states[k].run.moves + t,
        !config.local_search || states[k].run.moves == 0,
    ensures
        t == instance.n() ==> forall|v: int|
            0 <= v < instance.n() ==> #[trigger] states[k + t].run.walk.sol@[v]
                == !states[k].run.walk.sol@[v],
        t < instance.n() && k + t + 1 < states.len() && states[k + t + 1].run.restart
            == states[k].run.restart && states[k + t + 1].run.moves == states[k].run.moves + t + 1
            ==> exists|v: int| #[trigger]
            differs_at(states[k + t].run.walk.sol@, states[k + t + 1].run.walk.sol@, v) && states[k
                + t].run.walk.sol@[v] == states[k].run.walk.sol@[v],
{
    assert(on_walk(instance, config, states)) by {
        reveal(on_walk);
    }
    let n = instance.n() as int;
    let b = states[k + t];
    assert(states[k].wf(instance) && states[k + t].wf(instance));
    assert(!states[k].run.over);
    lemma_saw_deck(instance, config, states, k);
    lemma_saw_segment(instance, config, states, k, t);
    let x0 = states[k].run.walk.sol@;
    assert(is_untouched(b.admissible@, b.run.walk.sol@, x0));
    if t == n {
        assert forall|v: int| 0 <= v < n implies #[trigger] b.run.walk.sol@[v]
            == !states[k].run.walk.sol@[v] by {
            let u = v as usize;
            assert(!b.admissible@.contains(u));
        }
    } else if k + t + 1 < states.len() && states[k + t + 1].run.restart == states[k].run.restart
        && states[k + t + 1].run.moves == states[k].run.moves + t + 1 {
        let s = k + t;
        let c = states[s + 1];
        let (d, p) = lemma_saw_at(instance, config, states, s);
        let v = d[p];
        assert(d.contains(v));
        assert(v < n);
        lemma_differs(b.run.walk.sol@, c.run.walk.sol@, v as int);
        assert(differs_at(b.run.walk.sol@, c.run.walk.sol@, v as int));
    }
}

// Greedy descent.

/// A greedy search changes the assignment only to the best neighbour, and only
/// where that is better; it leaves a restart that may go on only at an assignment
/// without a better neighbour.
pub proof fn greedy_goes_to_the_best_neighbour<V: VarDomain>(
    instance: &HuboInstance<V>,
    config: greedy::Config,
    states: Seq<Run>,
    k: int,
)
    requires
        greedy::is_path(instance, config, states),
        0 <= k < states.len() - 1,
    ensures
        ({
            let x = states[k].walk.sol@;
            let y = states[k + 1].walk.sol@;
            let same = states[k + 1].restart == states[k].restart;
            &&& same && y != x ==> instance.objective(y) < instance.objective(x) && (forall|u: int|
                0 <= u < x.len() ==> instance.objective(y) <= #[trigger] objective_without(
                    instance,
                    x,
                    u,
                )) && exists|v: int| #[trigger] differs_at(x, y, v)
            &&& config.max_flips is None && (!same || y == x) ==> forall|u: int|
                0 <= u < x.len() ==> #[trigger] objective_without(instance, x, u)
                    >= instance.objective(x)
        }),
{
    let a = states[k];
    let b = states[k + 1];
    let x = a.walk.sol@;
    assert(a.wf(instance));
    assert(!states[k].over && greedy::is_step(
        instance,
        config.max_flips,
        greedy::quiet(),
        &states[k],
        &states[k + 1],
    ));
    assert forall|u: int| 0 <= u < x.len() implies #[trigger] objective_without(instance, x, u)
        == instance.objective(x) + instance.flip_change(x, u) by {}
    if !(greedy::is_spent(config.max_flips, a.moves) || walk::is_local_minimum(instance, x)) {
        let v = choose|v: usize| #[trigger]
            walk::is_steepest(instance, x, Some(v)) && greedy::is_counted_flip(&a, &b, v as int);
        lemma_differs(x, b.walk.sol@, v as int);
        assert(b.walk.sol@[v as int] != x[v as int]);
        assert(differs_at(x, b.walk.sol@, v as int));
        assert(objective_without(instance, x, v as int) == instance.objective(b.walk.sol@));
    }
}

// The best assignment met.

/// Either the new assignment was offered, or nothing changed.
spec fn offers(a: Run, b: Run) -> bool {
    run::is_offered(a.incumbent, b.walk, b.incumbent) || (b.incumbent == a.incumbent && b.walk
        == a.walk)
}

/// Searches that start with their first assignment as the best one and offer every
/// other.
#[verifier::opaque]
spec fn is_chain<V: VarDomain>(instance: &HuboInstance<V>, runs: Seq<Run>) -> bool {
    &&& runs.len() > 0
    &&& runs[0].incumbent.sol matches Some(s) && s@ == runs[0].walk.sol@
    &&& forall|k: int| 0 <= k < runs.len() ==> (#[trigger] runs[k]).wf(instance)
    &&& forall|k: int| 0 <= k < runs.len() - 1 ==> offers(#[trigger] runs[k], runs[k + 1])
}

proof fn lemma_chain_at<V: VarDomain>(instance: &HuboInstance<V>, runs: Seq<Run>, k: int)
    requires
        is_chain(instance, runs),
        0 <= k < runs.len(),
    ensures
        runs[k].wf(instance),
        k == 0 ==> (runs[0].incumbent.sol matches Some(s) && s@ == runs[0].walk.sol@),
        k > 0 ==> offers(runs[k - 1], runs[k]),
{
    reveal(is_chain);
    if k > 0 {
        assert(offers(runs[k - 1], runs[k - 1 + 1]));
    }
}

/// The best of the first assignments is one of them, and none of them is better.
pub open spec fn is_best_met<V: VarDomain>(
    instance: &HuboInstance<V>,
    met: Seq<Seq<bool>>,
    best: Seq<bool>,
) -> bool {
    met.contains(best) && forall|j: int|
        0 <= j < met.len() ==> instance.objective(best) <= instance.objective(#[trigger] met[j])
}

/// The assignments of the searches.
pub open spec fn assignments(runs: Seq<Run>) -> Seq<Seq<bool>> {
    Seq::new(runs.len(), |k: int| runs[k].walk.sol@)
}

proof fn lemma_best_met<V: VarDomain>(instance: &HuboInstance<V>, runs: Seq<Run>, k: nat)
    requires
        is_chain(instance, runs),
        k < runs.len(),
    ensures
        runs[k as int].incumbent.sol is Some,
        is_best_met(
            instance,
            assignments(runs).take(k as int + 1),
            runs[k as int].incumbent.sol->0@,
        ),
    decreases k,
{
    lemma_chain_at(instance, runs, k as int);
    let met = assignments(runs).take(k as int + 1);
    let now = runs[k as int];
    let best = now.incumbent.sol->0@;
    assert(met[k as int] == now.walk.sol@);
    if k == 0 {
        assert(met.contains(best));
    } else {
        lemma_best_met(instance, runs, (k - 1) as nat);
        lemma_chain_at(instance, runs, k - 1);
        let before = runs[k - 1];
        let old_met = assignments(runs).take(k as int);
        let old_best = before.incumbent.sol->0@;
        assert forall|j: int| 0 <= j < met.len() implies instance.objective(best)
            <= instance.objective(#[trigger] met[j]) by {
            if j < k {
                assert(old_met[j] == met[j]);
                assert(instance.objective(old_best) <= instance.objective(old_met[j]));
            }
        }
        if best == now.walk.sol@ {
            assert(met.contains(best));
        } else {
            assert(best == old_best);
            let j = old_met.index_of(old_best);
            assert(met[j] == best);
        }
    }
}

/// A greedy search reports the best assignment that it met.
pub proof fn greedy_keeps_the_best_met<V: VarDomain>(
    instance: &HuboInstance<V>,
    config: greedy::Config,
    states: Seq<Run>,
)
    requires
        greedy::is_path(instance, config, states),
    ensures
        states.last().incumbent.sol is Some,
        is_best_met(instance, assignments(states), states.last().incumbent.sol->0@),
{
    assert(is_chain(instance, states)) by {
        reveal(is_chain);
        assert forall|k: int| 0 <= k < states.len() - 1 implies offers(
            #[trigger] states[k],
            states[k + 1],
        ) by {
            assert(greedy::is_step(
                instance,
                config.max_flips,
                greedy::quiet(),
                &states[k],
                &states[k + 1],
            ));
        }
    }
    lemma_best_met(instance, states, (states.len() - 1) as nat);
    assert(assignments(states).take(states.len() as int) =~= assignments(states));
}

/// A tabu search reports the best assignment that it met.
pub proof fn tabu_search_keeps_the_best_met<V: VarDomain>(
    instance: &HuboInstance<V>,
    config: tabu::Config,
    initial: Option<&BitSolution>,
    states: Seq<tabu::Search>,
)
    requires
        tabu::is_path(instance, config, initial, states),
    ensures
        states.last().run.incumbent.sol is Some,
        is_best_met(
            instance,
            Seq::new(states.len(), |k: int| states[k].run.walk.sol@),
            states.last().run.incumbent.sol->0@,
        ),
{
    let runs = Seq::new(states.len(), |k: int| states[k].run);
    assert(is_chain(instance, runs)) by {
        reveal(is_chain);
        assert forall|k: int| 0 <= k < runs.len() implies (#[trigger] runs[k]).wf(instance) by {
            assert(states[k].wf(instance));
        }
        assert forall|k: int| 0 <= k < runs.len() - 1 implies offers(
            #[trigger] runs[k],
            runs[k + 1],
        ) by {
            assert(tabu::is_step(
                instance,
                config.max_iterations,
                greedy::quiet(),
                &states[k],
                &states[k + 1],
            ));
        }
    }
    lemma_best_met(instance, runs, (states.len() - 1) as nat);
    assert(assignments(runs).take(states.len() as int) =~= Seq::new(
        states.len(),
        |k: int| states[k].run.walk.sol@,
    ));
}

} // verus!
