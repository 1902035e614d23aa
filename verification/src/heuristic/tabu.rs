//! Tabu search: the best flip that is not forbidden, with restarts.

use crate::domain::VarDomain;
use crate::heuristic::Signals;
use crate::heuristic::Status;
use crate::heuristic::greedy;
use crate::heuristic::rng;
use crate::heuristic::run::{Outcome, Run};
use crate::heuristic::run;
use crate::instance::HuboInstance;
use crate::solution::BitSolution;
use crate::solution;
use vstd::prelude::*;

verus! {

/// How the search goes.
#[derive(Debug, Clone, Copy)]
pub struct Config {
    pub seed: u64,
    pub cutoff: Option<i64>,
    /// How long a flipped variable stays forbidden; by default the square root
    /// of the number of variables, rounded up.
    pub tenure: Option<usize>,
    /// How many flips a restart makes at most.
    pub max_iterations: Option<u64>,
    pub restarts: usize,
}

impl Default for Config {
    fn default() -> (r: Self)
        ensures
            r.seed == 0,
            r.cutoff is None,
            r.tenure is None,
            r.max_iterations is None,
            r.restarts == 1,
    {
        Config { seed: 0, cutoff: None, tenure: None, max_iterations: None, restarts: 1 }
    }
}

/// `r` is the least number whose square is at least `n`.
pub open spec fn is_ceil_sqrt(n: int, r: int) -> bool {
    &&& 0 <= r
    &&& r * r >= n
    &&& r > 0 ==> (r - 1) * (r - 1) < n
}

/// The square root of `n`, rounded up.
pub fn ceil_sqrt(n: usize) -> (r: usize)
    ensures
        is_ceil_sqrt(n as int, r as int),
{
    let m: u128 = n as u128;
    let mut r: u128 = 0;
    while r * r < m
        invariant
            r <= m,
            m <= u64::MAX,
            m == n,
            r * r <= u128::MAX,
            r > 0 ==> (r - 1) * (r - 1) < n,
        decreases m - r,
    {
        assert(r < m) by (nonlinear_arith)
            requires
                r * r < m,
                r >= 0,
        ;
        assert(((r + 1) as int - 1) * ((r + 1) as int - 1) == r * r) by (nonlinear_arith);
        assert((r + 1) * (r + 1) <= u128::MAX) by (nonlinear_arith)
            requires
                r + 1 <= u64::MAX,
                r >= 0,
        ;
        r += 1;
    }
    r as usize
}

/// The tenure of a search.
pub open spec fn is_tenure(config: Config, n: int, t: usize) -> bool {
    match config.tenure {
        Some(k) => t == k,
        None => is_ceil_sqrt(n, t as int),
    }
}

/// The search: a run, and until which iteration each variable is forbidden.
pub struct Search {
    pub run: Run,
    pub tenure: usize,
    pub tabu_until: Vec<u64>,
}

/// Variable `v` may be flipped: it is not forbidden, or its flip gives a new
/// best objective.
pub open spec fn is_admissible<V: VarDomain>(
    instance: &HuboInstance<V>,
    s: &Search,
    v: int,
) -> bool {
    s.tabu_until@[v] <= s.run.moves || s.run.walk.obj + instance.flip_change(s.run.walk.sol@, v)
        < s.run.incumbent.obj
}

/// `v` is the first admissible variable whose flip has the least change.
pub open spec fn is_best_admissible<V: VarDomain>(
    instance: &HuboInstance<V>,
    s: &Search,
    v: int,
) -> bool {
    let x = s.run.walk.sol@;
    &&& 0 <= v < x.len()
    &&& is_admissible(instance, s, v)
    &&& forall|u: int|
        0 <= u < x.len() && #[trigger] is_admissible(instance, s, u) ==> instance.flip_change(x, v)
            <= instance.flip_change(x, u)
    &&& forall|u: int|
        0 <= u < v && #[trigger] is_admissible(instance, s, u) ==> instance.flip_change(x, v)
            < instance.flip_change(x, u)
}

/// No variable is admissible.
pub open spec fn none_admissible<V: VarDomain>(instance: &HuboInstance<V>, s: &Search) -> bool {
    forall|u: int| 0 <= u < s.run.walk.sol@.len() ==> !#[trigger] is_admissible(instance, s, u)
}

/// The sum of an iteration and a tenure, no larger than the largest number.
pub open spec fn forbidden_until(moves: u64, tenure: usize) -> u64 {
    run::counted(moves, tenure as u64)
}

/// One step: end on a signal, go on to the next restart when the iterations are
/// made, else flip the best admissible variable, or a random one when none is.
pub open spec fn is_step<V: VarDomain>(
    instance: &HuboInstance<V>,
    limit: Option<u64>,
    signals: Signals,
    a: &Search,
    b: &Search,
) -> bool {
    &&& b.tenure == a.tenure
    &&& if signals.interrupted {
        run::is_stopped(&a.run, &b.run, Status::Interrupted)
    } else if greedy::is_spent(limit, a.run.moves) {
        run::is_next_restart(instance.n() as nat, &a.run, &b.run) && (!b.run.over ==> forall|i: int|
            0 <= i < b.tabu_until@.len() ==> #[trigger] b.tabu_until@[i] == 0)
    } else if signals.timed_out {
        run::is_stopped(&a.run, &b.run, Status::TimeLimit)
    } else {
        exists|v: usize| #[trigger] is_chosen(instance, a, v) && is_move(instance, a, b, v as int)
    }
}

/// The variable that a step flips.
pub open spec fn is_chosen<V: VarDomain>(
    instance: &HuboInstance<V>,
    a: &Search,
    v: usize,
) -> bool {
    if none_admissible(instance, a) {
        v == rng::drawn(a.run.rng, instance.n() as int)
    } else {
        is_best_admissible(instance, a, v as int)
    }
}

/// A move flips the variable, counts, and forbids the variable for a while.
pub open spec fn is_move<V: VarDomain>(
    instance: &HuboInstance<V>,
    a: &Search,
    b: &Search,
    v: int,
) -> bool {
    &&& run::same_setup(&a.run, &b.run)
    &&& b.run.restart == a.run.restart
    &&& b.run.moves == run::counted(a.run.moves, 1)
    &&& b.run.rng == (if none_admissible(instance, a) {
        rng::after_draw(a.run.rng, instance.n() as int)
    } else {
        a.run.rng
    })
    &&& b.run.walk.sol@ == solution::flipped(a.run.walk.sol@, v)
    &&& b.tabu_until@ == a.tabu_until@.update(v, forbidden_until(a.run.moves, a.tenure))
    &&& run::is_offered(a.run.incumbent, b.run.walk, b.run.incumbent)
    &&& if b.run.walk.obj < a.run.incumbent.obj && (a.run.cutoff matches Some(c)
        && b.run.walk.obj <= c) {
        b.run.over && b.run.status == Status::Cutoff && b.run.total == run::counted(
            a.run.total,
            b.run.moves,
        )
    } else {
        !b.run.over && b.run.total == a.run.total
    }
}

/// The state in which the search starts: at the given assignment if it has one
/// value per variable, else at a random one. It is over when that meets the
/// cutoff.
pub open spec fn is_start<V: VarDomain>(
    instance: &HuboInstance<V>,
    config: Config,
    initial: Option<&BitSolution>,
    r: &Search,
) -> bool {
    let r0 = rng::seeded(config.seed);
    let n = instance.n() as nat;
    let given = initial matches Some(s) && s@.len() == n;
    &&& r.run.seed == config.seed
    &&& r.run.restarts == config.restarts
    &&& r.run.cutoff == config.cutoff
    &&& r.run.restart == 0
    &&& r.run.moves == 0
    &&& r.run.total == 0
    &&& r.run.over == run::meets_cutoff(config.cutoff, r.run.walk.obj)
    &&& r.run.status == (if r.run.over {
        Status::Cutoff
    } else {
        Status::Completed
    })
    &&& r.run.walk.sol@ == (if given {
        initial->0@
    } else {
        rng::random_bits(r0, n)
    })
    &&& r.run.rng == (if given {
        r0
    } else {
        rng::advanced_by(r0, n)
    })
    &&& r.run.incumbent.obj == r.run.walk.obj
    &&& r.run.incumbent.sol matches Some(s) && s@ == r.run.walk.sol@
    &&& is_tenure(config, n as int, r.tenure)
    &&& r.tabu_until@.len() == n
    &&& forall|i: int| 0 <= i < n ==> #[trigger] r.tabu_until@[i] == 0
}

fn no_tabu(n: usize) -> (r: Vec<u64>)
    ensures
        r@.len() == n,
        forall|i: int| 0 <= i < n ==> #[trigger] r@[i] == 0,
{
    let mut t: Vec<u64> = Vec::new();
    while t.len() < n
        invariant
            t@.len() <= n,
            forall|i: int| 0 <= i < t@.len() ==> #[trigger] t@[i] == 0,
        decreases n - t@.len(),
    {
        t.push(0);
    }
    t
}

impl Search {
    /// The parts of the search fit together.
    pub open spec fn wf<V: VarDomain>(&self, instance: &HuboInstance<V>) -> bool {
        &&& self.run.wf(instance)
        &&& self.tabu_until@.len() == instance.n()
    }

    /// Start the search; the first restart starts at the given assignment if it
    /// has one value per variable.
    pub fn start<V: VarDomain>(
        instance: &HuboInstance<V>,
        config: &Config,
        initial: Option<&BitSolution>,
    ) -> (r: Self)
        requires
            run::is_searchable(instance),
            config.restarts > 0,
        ensures
            r.wf(instance),
            is_start(instance, *config, initial, &r),
    {
        let n: usize = instance.n_vars();
        let tenure: usize = match config.tenure {
            Some(t) => t,
            None => ceil_sqrt(n),
        };
        let run = Run::start(instance, config.seed, config.restarts, config.cutoff, initial);
        Search { run, tenure, tabu_until: no_tabu(n) }
    }

    /// The first admissible variable whose flip has the least change.
    fn best_admissible<V: VarDomain>(&self, instance: &HuboInstance<V>) -> (r: Option<usize>)
        requires
            run::is_searchable(instance),
            self.wf(instance),
        ensures
            r is None <==> none_admissible(instance, self),
            r matches Some(v) ==> is_best_admissible(instance, self, v as int),
    {
        let n: usize = self.tabu_until.len();
        let ghost x = self.run.walk.sol@;
        let mut best: Option<usize> = None;
        let mut best_delta: i64 = 0;
        let mut v: usize = 0;
        while v < n
            invariant
                v <= n,
                n == x.len(),
                x == self.run.walk.sol@,
                run::is_searchable(instance),
                self.wf(instance),
                best is None ==> forall|u: int|
                    0 <= u < v ==> !#[trigger] is_admissible(instance, self, u),
                best matches Some(b) ==> b < v && is_admissible(instance, self, b as int)
                    && best_delta == instance.flip_change(x, b as int) && (forall|u: int|
                    0 <= u < v && #[trigger] is_admissible(instance, self, u) ==> best_delta
                        <= instance.flip_change(x, u)) && (forall|u: int|
                    0 <= u < b && #[trigger] is_admissible(instance, self, u) ==> best_delta
                        < instance.flip_change(x, u)),
            decreases n - v,
        {
            let d: i64 = self.run.walk.delta(instance, v);
            proof {
                crate::heuristic::walk::lemma_objective_fits(
                    instance,
                    solution::flipped(x, v as int),
                );
            }
            let admissible: bool = self.tabu_until[v] <= self.run.moves || self.run.walk.obj + d
                < self.run.incumbent.obj;
            assert(admissible == is_admissible(instance, self, v as int));
            let better: bool = match best {
                None => true,
                Some(_) => d < best_delta,
            };
            if admissible && better {
                best = Some(v);
                best_delta = d;
            }
            v += 1;
        }
        best
    }

    /// Make one step; whether the search goes on.
    pub fn step<V: VarDomain>(
        &mut self,
        instance: &HuboInstance<V>,
        config: &Config,
        signals: Signals,
    ) -> (r: bool)
        requires
            run::is_searchable(instance),
            old(self).wf(instance),
            !old(self).run.over,
            instance.n() > 0,
        ensures
            final(self).wf(instance),
            is_step(instance, config.max_iterations, signals, old(self), final(self)),
            r == !final(self).run.over,
    {
        let ghost s0 = *self;
        if signals.interrupted {
            self.run.stop(Status::Interrupted);
            return false;
        }
        let spent: bool = match config.max_iterations {
            Some(m) => self.run.moves >= m,
            None => false,
        };
        if spent {
            self.run.next_restart(instance);
            if !self.run.over {
                self.tabu_until = no_tabu(instance.n_vars());
            }
            return !self.run.over;
        }
        if signals.timed_out {
            self.run.stop(Status::TimeLimit);
            return false;
        }
        let v: usize = match self.best_admissible(instance) {
            Some(v) => v,
            None => self.run.rng.index(instance.n_vars()),
        };
        assert(is_chosen(instance, &s0, v));
        self.tabu_until.set(v, run::add_counts(self.run.moves, self.tenure as u64));
        self.run.count();
        self.run.flip(instance, v);
        assert(is_move(instance, &s0, self, v as int));
        !self.run.over
    }
}

/// The states of a search without signals, up to some state.
pub open spec fn is_path<V: VarDomain>(
    instance: &HuboInstance<V>,
    config: Config,
    initial: Option<&BitSolution>,
    states: Seq<Search>,
) -> bool {
    &&& states.len() > 0
    &&& is_start(instance, config, initial, &states[0])
    &&& forall|k: int| 0 <= k < states.len() ==> (#[trigger] states[k]).wf(instance)
    &&& forall|k: int|
        0 <= k < states.len() - 1 ==> !(#[trigger] states[k]).run.over && is_step(
            instance,
            config.max_iterations,
            greedy::quiet(),
            &states[k],
            &states[k + 1],
        )
}

/// The states of a search without signals, from the start to the end.
pub open spec fn is_search<V: VarDomain>(
    instance: &HuboInstance<V>,
    config: Config,
    initial: Option<&BitSolution>,
    states: Seq<Search>,
) -> bool {
    &&& is_path(instance, config, initial, states)
    &&& states.last().run.over
}

proof fn lemma_path_push<V: VarDomain>(
    instance: &HuboInstance<V>,
    config: Config,
    initial: Option<&BitSolution>,
    states: Seq<Search>,
    b: Search,
)
    requires
        is_path(instance, config, initial, states),
        !states.last().run.over,
        is_step(instance, config.max_iterations, greedy::quiet(), &states.last(), &b),
        b.wf(instance),
    ensures
        is_path(instance, config, initial, states.push(b)),
{
    let t = states.push(b);
    assert forall|k: int| 0 <= k < t.len() - 1 implies !(#[trigger] t[k]).run.over && is_step(
        instance,
        config.max_iterations,
        greedy::quiet(),
        &t[k],
        &t[k + 1],
    ) by {
        assert(t[k] == states[k]);
        if k < states.len() - 1 {
            assert(t[k + 1] == states[k + 1]);
        }
    }
}

/// A step without signals, as the next state of a search.
fn quiet_step<V: VarDomain>(
    search: &mut Search,
    instance: &HuboInstance<V>,
    config: &Config,
    Ghost(initial): Ghost<Option<&BitSolution>>,
    Ghost(states): Ghost<Seq<Search>>,
)
    requires
        run::is_searchable(instance),
        instance.n() > 0,
        config.max_iterations is Some,
        is_path(instance, *config, initial, states),
        states.last() == *old(search),
        !old(search).run.over,
    ensures
        final(search).wf(instance),
        is_path(instance, *config, initial, states.push(*final(search))),
        run::progresses(&old(search).run, &final(search).run, config.max_iterations->0 as int),
{
    let quiet = Signals { interrupted: false, timed_out: false };
    let ghost s0 = *search;
    assert(states[states.len() - 1].wf(instance));
    let going = search.step(instance, config, quiet);
    proof {
        lemma_path_push(instance, *config, initial, states, *search);
    }
}

/// Search without signals until the search ends by itself: by the cutoff exactly
/// when an assignment that meets it was found, else after all iterations of all
/// restarts.
pub fn solve<V: VarDomain>(
    instance: &HuboInstance<V>,
    config: &Config,
    initial: Option<&BitSolution>,
) -> (r: Outcome)
    requires
        run::is_searchable(instance),
        config.restarts > 0,
        config.max_iterations is Some,
        instance.n() > 0,
    ensures
        exists|states: Seq<Search>| #[trigger]
            is_search(instance, *config, initial, states) && run::is_reported(
                states.last().run.incumbent,
                states.last().run.status,
                states.last().run.total,
                r,
            ),
        r.solution@.len() == instance.n(),
        r.objective == instance.objective(r.solution@),
        r.status == (if run::meets_cutoff(config.cutoff, r.objective) {
            Status::Cutoff
        } else {
            Status::Completed
        }),
        r.status == Status::Completed ==> r.iterations == run::capped(
            config.restarts * config.max_iterations->0,
        ),
        (initial matches Some(s) && s@.len() == instance.n()) ==> r.objective
            <= instance.objective(initial->0@),
        !(initial matches Some(s) && s@.len() == instance.n()) ==> r.objective
            <= instance.objective(
            rng::random_bits(rng::seeded(config.seed), instance.n() as nat),
        ),
{
    let mut search = Search::start(instance, config, initial);
    let ghost first = search.run.walk.obj;
    let ghost mut states: Seq<Search> = seq![search];
    let ghost m: int = config.max_iterations->0 as int;
    assert(0 * m == 0) by (nonlinear_arith);
    while !search.run.over
        invariant
            run::is_searchable(instance),
            instance.n() > 0,
            search.wf(instance),
            config.max_iterations is Some,
            m == config.max_iterations->0,
            search.run.restarts == config.restarts,
            search.run.cutoff == config.cutoff,
            search.run.incumbent.obj <= first,
            is_path(instance, *config, initial, states),
            states.last() == search,
            run::is_paced(&search.run, m),
        decreases
                (if search.run.over {
                    0int
                } else {
                    1
                }),
                config.restarts - search.run.restart,
                m - search.run.moves,
    {
        let ghost a = search.run;
        quiet_step(&mut search, instance, config, Ghost(initial), Ghost(states));
        proof {
            run::lemma_paced(&a, &search.run, m);
            states = states.push(search);
        }
    }
    let r = search.run.finish(instance);
    assert(is_search(instance, *config, initial, states));
    r
}

} // verus!
