//! A sequence of independent walks from random assignments.

use crate::domain::VarDomain;
use crate::heuristic::Status;
use crate::heuristic::rng::Rng;
use crate::heuristic::rng;
use crate::heuristic::walk::{Incumbent, Walk};
use crate::heuristic::walk;
use crate::instance::HuboInstance;
use crate::solution::BitSolution;
use crate::solution;
use crate::term;
use vstd::prelude::*;

verus! {

/// Where a search with restarts stands.
pub struct Run {
    pub seed: u64,
    pub restarts: usize,
    pub cutoff: Option<i64>,
    /// The current restart.
    pub restart: usize,
    /// The moves of the current restart.
    pub moves: u64,
    /// The moves of the restarts that ended.
    pub total: u64,
    pub rng: Rng,
    pub walk: Walk,
    pub incumbent: Incumbent,
    pub over: bool,
    /// Why the search ended, once it is over.
    pub status: Status,
}

/// What a search gives back.
#[derive(Debug)]
pub struct Outcome {
    pub status: Status,
    pub objective: i64,
    pub solution: BitSolution,
    pub iterations: u64,
}

/// Objectives of the instance fit and are below the largest number.
pub open spec fn is_searchable<V: VarDomain>(instance: &HuboInstance<V>) -> bool {
    instance.wf() && instance.fits() && instance.offset < i64::MAX
}

/// The sum of two counts, no larger than the largest number.
pub open spec fn counted(a: u64, b: u64) -> u64 {
    if a + b > u64::MAX {
        u64::MAX
    } else {
        (a + b) as u64
    }
}

/// A count, no larger than the largest number.
pub open spec fn capped(a: int) -> u64 {
    if a > u64::MAX {
        u64::MAX
    } else {
        a as u64
    }
}

/// The sum of two counts, no larger than the largest number.
pub fn add_counts(a: u64, b: u64) -> (r: u64)
    ensures
        r == counted(a, b),
{
    if a > u64::MAX - b {
        u64::MAX
    } else {
        a + b
    }
}

/// The incumbent after the walk's assignment was offered.
pub open spec fn is_offered(before: Incumbent, walk: Walk, after: Incumbent) -> bool {
    if walk.obj < before.obj {
        after.obj == walk.obj && (after.sol matches Some(s) && s@ == walk.sol@)
    } else {
        after == before
    }
}

/// The objective is at or below the cutoff.
pub open spec fn meets_cutoff(cutoff: Option<i64>, obj: i64) -> bool {
    cutoff matches Some(c) && obj <= c
}

/// The outcome reports the incumbent.
pub open spec fn is_reported(
    incumbent: Incumbent,
    status: Status,
    iterations: u64,
    r: Outcome,
) -> bool {
    &&& r.status == status
    &&& r.iterations == iterations
    &&& r.objective == incumbent.obj
    &&& incumbent.sol matches Some(s) && r.solution@ == s@
}

/// Whatever the search, and however it ended, the objective that is reported is
/// that of the solution that is reported, and the solution has a value for every
/// variable.
pub proof fn reported_objective_is_exact<V: VarDomain>(
    instance: &HuboInstance<V>,
    incumbent: Incumbent,
    status: Status,
    iterations: u64,
    r: Outcome,
)
    requires
        incumbent.wf(instance),
        is_reported(incumbent, status, iterations, r),
    ensures
        r.objective == instance.objective(r.solution@),
        r.solution@.len() == instance.n(),
{
}

/// Report the incumbent of a search.
pub fn report<V: VarDomain>(
    instance: &HuboInstance<V>,
    incumbent: Incumbent,
    status: Status,
    iterations: u64,
) -> (r: Outcome)
    requires
        instance.wf(),
        instance.fits(),
        incumbent.wf(instance),
        incumbent.sol is Some,
    ensures
        is_reported(incumbent, status, iterations, r),
        r.objective == instance.objective(r.solution@),
        r.solution@.len() == instance.n(),
{
    match incumbent.sol {
        Some(solution) => {
            proof {
                walk::lemma_objective_fits(instance, solution@);
            }
            let objective: i64 = solution.evaluate(instance);
            Outcome { status, objective, solution, iterations }
        },
        None => {
            let solution = BitSolution::new(0);
            Outcome { status, objective: 0, solution, iterations: 0 }
        },
    }
}

/// What the search keeps while it goes on within a restart.
pub open spec fn same_setup(a: &Run, b: &Run) -> bool {
    &&& a.seed == b.seed
    &&& a.restarts == b.restarts
    &&& a.cutoff == b.cutoff
}

/// `b` is the search `a` ended for the given reason.
pub open spec fn is_stopped(a: &Run, b: &Run, status: Status) -> bool {
    &&& same_setup(a, b)
    &&& b.over
    &&& b.status == status
    &&& b.total == counted(a.total, a.moves)
    &&& b.moves == a.moves
    &&& b.restart == a.restart
    &&& b.rng == a.rng
    &&& b.walk == a.walk
    &&& b.incumbent == a.incumbent
}

/// `b` starts the restart after that of `a`, or is over when there is none. The
/// search also ends when the new start meets the cutoff.
pub open spec fn is_next_restart(n: nat, a: &Run, b: &Run) -> bool {
    if a.restart + 1 < a.restarts {
        let r0 = rng::seeded(a.seed.wrapping_add((a.restart + 1) as u64));
        &&& same_setup(a, b)
        &&& b.over == meets_cutoff(b.cutoff, b.incumbent.obj)
        &&& b.status == (if b.over {
            Status::Cutoff
        } else {
            Status::Completed
        })
        &&& b.restart == a.restart + 1
        &&& b.moves == 0
        &&& b.total == counted(a.total, a.moves)
        &&& b.walk.sol@ == rng::random_bits(r0, n)
        &&& b.rng == rng::advanced_by(r0, n)
        &&& is_offered(a.incumbent, b.walk, b.incumbent)
    } else {
        is_stopped(a, b, Status::Completed)
    }
}

/// `b` is the search `a` after variable `v` was flipped: the new assignment is
/// offered, and the search ends when it improves to the cutoff.
pub open spec fn is_flip_of(a: &Run, b: &Run, v: int) -> bool {
    &&& same_setup(a, b)
    &&& b.restart == a.restart
    &&& b.moves == a.moves
    &&& b.rng == a.rng
    &&& b.walk.sol@ == solution::flipped(a.walk.sol@, v)
    &&& is_offered(a.incumbent, b.walk, b.incumbent)
    &&& if b.walk.obj < a.incumbent.obj && (a.cutoff matches Some(c) && b.walk.obj <= c) {
        b.over && b.status == Status::Cutoff && b.total == counted(a.total, a.moves)
    } else {
        !b.over && b.total == a.total
    }
}

pub proof fn lemma_below_max<V: VarDomain>(instance: &HuboInstance<V>, x: Seq<bool>)
    requires
        is_searchable(instance),
        x.len() == instance.n(),
    ensures
        instance.objective(x) < i64::MAX,
{
    term::lemma_poly_range(V::tag(), instance.terms@, x);
}

impl Run {
    /// The parts of the search fit together: the incumbent is at least as good
    /// as the current assignment, and the search ends with the cutoff exactly
    /// when the incumbent meets it.
    pub open spec fn wf<V: VarDomain>(&self, instance: &HuboInstance<V>) -> bool {
        &&& self.walk.wf(instance)
        &&& self.incumbent.wf(instance)
        &&& self.incumbent.sol is Some
        &&& self.incumbent.obj <= self.walk.obj
        &&& self.restart < self.restarts
        &&& meets_cutoff(self.cutoff, self.incumbent.obj) <==> self.over && self.status
            == Status::Cutoff
        &&& !self.over ==> self.status == Status::Completed
    }

    /// Start the first restart at the given assignment if it has one value per
    /// variable, else at a random one. The search is over when that meets the
    /// cutoff.
    pub fn start<V: VarDomain>(
        instance: &HuboInstance<V>,
        seed: u64,
        restarts: usize,
        cutoff: Option<i64>,
        initial: Option<&BitSolution>,
    ) -> (r: Self)
        requires
            is_searchable(instance),
            restarts > 0,
        ensures
            r.wf(instance),
            r.seed == seed,
            r.restarts == restarts,
            r.cutoff == cutoff,
            r.restart == 0,
            r.moves == 0,
            r.total == 0,
            r.over == meets_cutoff(cutoff, r.walk.obj),
            r.status == (if r.over {
                Status::Cutoff
            } else {
                Status::Completed
            }),
            r.incumbent.obj == r.walk.obj,
            r.incumbent.sol matches Some(s) && s@ == r.walk.sol@,
            (initial matches Some(s) && s@.len() == instance.n()) ==> r.walk.sol@
                == initial->0@ && r.rng == rng::seeded(seed),
            !(initial matches Some(s) && s@.len() == instance.n()) ==> r.walk.sol@
                == rng::random_bits(rng::seeded(seed), instance.n() as nat) && r.rng
                == rng::advanced_by(rng::seeded(seed), instance.n() as nat),
    {
        let n: usize = instance.n_vars();
        let mut rng = Rng::new(seed);
        let sol: BitSolution = match initial {
            Some(s) => if s.values.len() == n {
                s.clone()
            } else {
                rng::random_solution(n, &mut rng)
            },
            None => rng::random_solution(n, &mut rng),
        };
        let walk = Walk::from_solution(instance, sol);
        let mut incumbent = Incumbent::new();
        proof {
            lemma_below_max(instance, walk.sol@);
        }
        let improved = incumbent.offer(instance, &walk);
        let over: bool = incumbent.reaches(cutoff);
        let status = if over {
            Status::Cutoff
        } else {
            Status::Completed
        };
        Run {
            seed,
            restarts,
            cutoff,
            restart: 0,
            moves: 0,
            total: 0,
            rng,
            walk,
            incumbent,
            over,
            status,
        }
    }

    /// End the search.
    pub fn stop(&mut self, status: Status)
        ensures
            is_stopped(old(self), final(self), status),
    {
        self.total = add_counts(self.total, self.moves);
        self.status = status;
        self.over = true;
    }

    /// Go on to the next restart, or end the search when there is none.
    pub fn next_restart<V: VarDomain>(&mut self, instance: &HuboInstance<V>)
        requires
            is_searchable(instance),
            old(self).wf(instance),
            !old(self).over,
        ensures
            final(self).wf(instance),
            is_next_restart(instance.n() as nat, old(self), final(self)),
    {
        if self.restart + 1 < self.restarts {
            self.total = add_counts(self.total, self.moves);
            self.restart = self.restart + 1;
            self.moves = 0;
            self.rng = Rng::new(self.seed.wrapping_add(self.restart as u64));
            let sol = rng::random_solution(instance.n_vars(), &mut self.rng);
            self.walk = Walk::from_solution(instance, sol);
            let improved = self.incumbent.offer(instance, &self.walk);
            self.over = self.incumbent.reaches(self.cutoff);
            self.status = if self.over {
                Status::Cutoff
            } else {
                Status::Completed
            };
        } else {
            self.stop(Status::Completed);
        }
    }

    /// Count a move of the current restart.
    pub fn count(&mut self)
        ensures
            same_setup(old(self), final(self)),
            final(self).moves == counted(old(self).moves, 1),
            final(self).restart == old(self).restart,
            final(self).total == old(self).total,
            final(self).rng == old(self).rng,
            final(self).walk == old(self).walk,
            final(self).incumbent == old(self).incumbent,
            final(self).over == old(self).over,
            final(self).status == old(self).status,
    {
        self.moves = add_counts(self.moves, 1);
    }

    /// Flip a variable and offer the new assignment.
    pub fn flip<V: VarDomain>(&mut self, instance: &HuboInstance<V>, v: usize)
        requires
            is_searchable(instance),
            old(self).wf(instance),
            !old(self).over,
            v < instance.n(),
        ensures
            final(self).wf(instance),
            is_flip_of(old(self), final(self), v as int),
            final(self).walk.obj == old(self).walk.obj + instance.flip_change(
                old(self).walk.sol@,
                v as int,
            ),
    {
        self.walk.flip(instance, v);
        let improved = self.incumbent.offer(instance, &self.walk);
        if improved && self.incumbent.reaches(self.cutoff) {
            self.stop(Status::Cutoff);
        }
    }

    /// The result: the incumbent with its objective.
    pub fn finish<V: VarDomain>(self, instance: &HuboInstance<V>) -> (r: Outcome)
        requires
            is_searchable(instance),
            self.wf(instance),
        ensures
            is_reported(self.incumbent, self.status, self.total, r),
            r.objective == instance.objective(r.solution@),
            r.solution@.len() == instance.n(),
    {
        report(instance, self.incumbent, self.status, self.total)
    }
}

/// What a step without signals does to a search whose restarts make `m` moves
/// each: it makes a move, goes on to the next restart after the last move, or
/// ends.
pub open spec fn progresses(a: &Run, b: &Run, m: int) -> bool {
    &&& same_setup(a, b)
    &&& b.incumbent.obj <= a.incumbent.obj
    &&& if b.over {
        b.status == Status::Cutoff || (b.status == Status::Completed && a.moves >= m && a.restart + 1
            >= a.restarts && b.total == counted(a.total, a.moves))
    } else if a.moves < m {
        b.restart == a.restart && b.moves == a.moves + 1 && b.total == a.total
    } else {
        b.restart == a.restart + 1 && b.moves == 0 && b.total == counted(a.total, a.moves)
    }
}

/// The moves so far of a search whose restarts make `m` moves each.
pub open spec fn is_paced(a: &Run, m: int) -> bool {
    if a.over {
        a.status == Status::Cutoff || (a.status == Status::Completed && a.total == capped(
            a.restarts * m,
        ))
    } else {
        a.moves <= m && a.total == capped(a.restart * m)
    }
}

/// Every step keeps the pace.
pub proof fn lemma_paced(a: &Run, b: &Run, m: int)
    requires
        m >= 0,
        a.restart < a.restarts,
        !a.over,
        is_paced(a, m),
        progresses(a, b, m),
    ensures
        is_paced(b, m),
{
    let k = a.restart as int;
    assert((k + 1) * m == k * m + m) by (nonlinear_arith);
    assert(0 <= k * m) by (nonlinear_arith)
        requires
            0 <= k,
            0 <= m,
    ;
}

} // verus!
