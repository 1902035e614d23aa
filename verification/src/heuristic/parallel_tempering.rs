//! Parallel tempering: the replicas and their exchange. The caller keeps the
//! temperatures and decides about moves that go up.

use crate::domain::VarDomain;
use crate::heuristic::run::Outcome;
use crate::heuristic::run;
use crate::heuristic::walk::{Incumbent, Walk};
use crate::heuristic::walk;
use crate::heuristic::{Signals, Status};
use crate::instance::HuboInstance;
use crate::solution;
use rand::Rng;
use rand_xoshiro::Xoshiro256PlusPlus;
use vstd::prelude::*;

verus! {

/// `rand_xoshiro::Xoshiro256PlusPlus`, the generator that orders a sweep.
#[verifier::external_type_specification]
#[verifier::external_body]
pub struct ExXoshiro256PlusPlus(Xoshiro256PlusPlus);

/// The four words that a generator holds.
pub uninterp spec fn generator_state(g: Xoshiro256PlusPlus) -> Seq<u64>;

/// What `rand::Rng::random_range` over `0..=i` gives for a generator in some
/// state: the number, and the state after it.
pub uninterp spec fn range_draw(state: Seq<u64>, i: usize) -> (usize, Seq<u64>);

/// `rand::Rng::random_range` over `0..=i`: a number up to `i`. The number and the
/// state that the generator is left in depend on its state before and on `i`
/// alone. Which number it is for a given state is left open.
#[verifier::external_body]
fn random_up_to(rng: &mut Xoshiro256PlusPlus, i: usize) -> (r: usize)
    ensures
        r <= i,
        (r, generator_state(*final(rng))) == range_draw(generator_state(*old(rng)), i),
{
    rng.random_range(0..=i)
}

/// The first `k` picks for `n` variables, drawn one after the other for the last
/// place, the one before it and so on, and the state after them.
pub open spec fn picks_drawn(state: Seq<u64>, n: nat, k: nat) -> (Seq<usize>, Seq<u64>)
    decreases k,
{
    if k == 0 {
        (Seq::empty(), state)
    } else {
        let before = picks_drawn(state, n, (k - 1) as nat);
        let d = range_draw(before.1, (n - k) as usize);
        (before.0.push(d.0), d.1)
    }
}

/// How many picks `n` variables take: one for every place but the first.
pub open spec fn picks_for(n: nat) -> nat {
    if n == 0 {
        0
    } else {
        (n - 1) as nat
    }
}

/// The picks for `n` variables: pick `k` is no later than the place that is
/// filled with it.
pub open spec fn are_picks(n: nat, picks: Seq<usize>) -> bool {
    &&& picks.len() == picks_for(n)
    &&& forall|k: int| 0 <= k < picks.len() ==> (#[trigger] picks[k]) + k < n
}

/// The order with two places exchanged.
pub open spec fn exchanged(s: Seq<usize>, i: int, j: int) -> Seq<usize> {
    s.update(i, s[j]).update(j, s[i])
}

/// The order after the first `k` picks: each place from the last on is exchanged
/// with the place picked for it.
pub open spec fn shuffled(s: Seq<usize>, picks: Seq<usize>, k: nat) -> Seq<usize>
    decreases k,
{
    if k == 0 {
        s
    } else {
        exchanged(shuffled(s, picks, (k - 1) as nat), s.len() - k, picks[k - 1] as int)
    }
}

/// Shuffling keeps the variables and how often each occurs.
pub proof fn shuffling_keeps_variables(s: Seq<usize>, picks: Seq<usize>, k: nat)
    requires
        are_picks(s.len(), picks),
        k <= picks.len(),
    ensures
        shuffled(s, picks, k).len() == s.len(),
        shuffled(s, picks, k).to_multiset() == s.to_multiset(),
    decreases k,
{
    if k > 0 {
        let k1 = k - 1;
        shuffling_keeps_variables(s, picks, k1 as nat);
        assert(picks[k1] + k1 < s.len());
        lemma_swap_multiset(shuffled(s, picks, k1 as nat), s.len() - k, picks[k1] as int);
    }
}

/// Shuffle by the given picks.
pub fn shuffle_by(order: &mut Vec<usize>, picks: &Vec<usize>)
    requires
        are_picks(old(order)@.len(), picks@),
    ensures
        final(order)@ == shuffled(old(order)@, picks@, picks@.len()),
{
    let ghost o = order@;
    let n: usize = order.len();
    let mut k: usize = 0;
    while k < picks.len()
        invariant
            k <= picks@.len(),
            n == o.len(),
            order@.len() == n,
            are_picks(o.len(), picks@),
            order@ == shuffled(o, picks@, k as nat),
        decreases picks@.len() - k,
    {
        assert(picks@[k as int] + k < n);
        let i: usize = n - 1 - k;
        let j: usize = picks[k];
        let a: usize = order[i];
        let b: usize = order[j];
        order.set(i, b);
        order.set(j, a);
        k += 1;
    }
}

/// Draw the picks for `n` variables.
fn draw_picks(n: usize, rng: &mut Xoshiro256PlusPlus) -> (picks: Vec<usize>)
    ensures
        are_picks(n as nat, picks@),
        (picks@, generator_state(*final(rng))) == picks_drawn(
            generator_state(*old(rng)),
            n as nat,
            picks_for(n as nat),
        ),
{
    let ghost state = generator_state(*rng);
    let mut picks: Vec<usize> = Vec::new();
    let mut i: usize = n;
    while i > 1
        invariant
            i <= n,
            i == 0 ==> n == 0,
            picks@.len() == n - i,
            forall|k: int| 0 <= k < picks@.len() ==> (#[trigger] picks@[k]) + k < n,
            (picks@, generator_state(*rng)) == picks_drawn(state, n as nat, (n - i) as nat),
        decreases i,
    {
        i -= 1;
        let j: usize = random_up_to(rng, i);
        picks.push(j);
    }
    picks
}

/// Put the variables of a sweep in random order: the shuffle by the picks that the
/// generator draws.
pub fn shuffle_order(order: &mut Vec<usize>, rng: &mut Xoshiro256PlusPlus)
    ensures
        final(order)@ == shuffled(
            old(order)@,
            picks_drawn(
                generator_state(*old(rng)),
                old(order)@.len(),
                picks_for(old(order)@.len()),
            ).0,
            picks_for(old(order)@.len()),
        ),
        generator_state(*final(rng)) == picks_drawn(
            generator_state(*old(rng)),
            old(order)@.len(),
            picks_for(old(order)@.len()),
        ).1,
        final(order)@.len() == old(order)@.len(),
        final(order)@.to_multiset() == old(order)@.to_multiset(),
{
    let picks = draw_picks(order.len(), rng);
    proof {
        shuffling_keeps_variables(order@, picks@, picks@.len());
    }
    shuffle_by(order, &picks);
}

/// Exchanging two entries keeps the entries.
pub proof fn lemma_swap_multiset(s: Seq<usize>, i: int, j: int)
    requires
        0 <= j <= i < s.len(),
    ensures
        exchanged(s, i, j).to_multiset() == s.to_multiset(),
{
    broadcast use vstd::seq_lib::group_to_multiset_ensures;

    if i == j {
        assert(s.update(i, s[j]).update(j, s[i]) =~= s);
    } else {
        let t = s.update(i, s[j]);
        vstd::seq_lib::to_multiset_update(s, i, s[j]);
        vstd::seq_lib::to_multiset_update(t, j, s[i]);
        assert(t.update(j, s[i]).to_multiset() =~= s.to_multiset());
    }
}

/// The assignment after the first `j` variables were considered in order, each
/// flipped where that improves.
pub open spec fn passed<V: VarDomain>(
    instance: &HuboInstance<V>,
    x: Seq<bool>,
    j: nat,
) -> Seq<bool>
    decreases j,
{
    if j == 0 {
        x
    } else {
        let y = passed(instance, x, (j - 1) as nat);
        if instance.flip_change(y, j - 1) < 0 {
            solution::flipped(y, j - 1)
        } else {
            y
        }
    }
}

/// The assignment after at most `passes` passes; a pass without change is the
/// last.
pub open spec fn descended<V: VarDomain>(
    instance: &HuboInstance<V>,
    x: Seq<bool>,
    passes: nat,
) -> Seq<bool>
    decreases passes,
{
    if passes == 0 {
        x
    } else {
        let y = passed(instance, x, x.len());
        if y == x {
            x
        } else {
            descended(instance, y, (passes - 1) as nat)
        }
    }
}

proof fn lemma_passed<V: VarDomain>(instance: &HuboInstance<V>, x: Seq<bool>, j: nat)
    requires
        j <= x.len(),
    ensures
        passed(instance, x, j).len() == x.len(),
        instance.objective(passed(instance, x, j)) <= instance.objective(x),
        passed(instance, x, j) != x ==> instance.objective(passed(instance, x, j))
            < instance.objective(x),
    decreases j,
{
    if j > 0 {
        lemma_passed(instance, x, (j - 1) as nat);
    }
}

/// A descent does not raise the objective.
pub proof fn descent_improves<V: VarDomain>(
    instance: &HuboInstance<V>,
    x: Seq<bool>,
    passes: nat,
)
    ensures
        descended(instance, x, passes).len() == x.len(),
        instance.objective(descended(instance, x, passes)) <= instance.objective(x),
    decreases passes,
{
    if passes > 0 {
        lemma_passed(instance, x, x.len());
        let y = passed(instance, x, x.len());
        if y != x {
            descent_improves(instance, y, (passes - 1) as nat);
        }
    }
}

/// Flip every variable that improves, in order, at most `max_passes` times over.
pub fn greedy_descent<V: VarDomain>(
    state: &mut Walk,
    instance: &HuboInstance<V>,
    max_passes: usize,
)
    requires
        instance.wf(),
        instance.fits(),
        old(state).wf(instance),
    ensures
        final(state).wf(instance),
        final(state).sol@ == descended(instance, old(state).sol@, max_passes as nat),
        final(state).obj <= old(state).obj,
{
    let n: usize = instance.n_vars();
    let ghost x0 = state.sol@;
    proof {
        descent_improves(instance, x0, max_passes as nat);
    }
    let mut left: usize = max_passes;
    while left > 0
        invariant
            left <= max_passes,
            x0 == old(state).sol@,
            old(state).wf(instance),
            instance.objective(descended(instance, x0, max_passes as nat)) <= instance.objective(
                x0,
            ),
            n == instance.n(),
            instance.wf(),
            instance.fits(),
            state.wf(instance),
            descended(instance, x0, max_passes as nat) == descended(
                instance,
                state.sol@,
                left as nat,
            ),
        decreases left,
    {
        let ghost x = state.sol@;
        let mut improved: bool = false;
        let mut j: usize = 0;
        while j < n
            invariant
                j <= n,
                n == instance.n(),
                x.len() == n,
                instance.wf(),
                instance.fits(),
                state.wf(instance),
                state.sol@ == passed(instance, x, j as nat),
                !improved ==> state.sol@ == x,
                improved ==> instance.objective(state.sol@) < instance.objective(x),
            decreases n - j,
        {
            proof {
                lemma_passed(instance, x, j as nat);
            }
            if state.delta(instance, j) < 0 {
                state.flip(instance, j);
                improved = true;
            }
            j += 1;
        }
        if !improved {
            return;
        }
        left -= 1;
    }
}

/// The replicas of a run, the coldest first, with the statistics of their
/// exchange.
pub struct Ensemble {
    pub replicas: Vec<Walk>,
    pub incumbent: Incumbent,
    /// Whether the next exchange starts at the second replica.
    pub odd: bool,
    pub accepted: u64,
    pub proposed: u64,
    /// Accepted and proposed exchanges per pair since the last reset.
    pub swap_stats: Vec<(u64, u64)>,
}

impl Ensemble {
    /// The parts of the ensemble fit together.
    pub open spec fn wf<V: VarDomain>(&self, instance: &HuboInstance<V>) -> bool {
        &&& self.replicas@.len() >= 2
        &&& self.swap_stats@.len() == self.replicas@.len() - 1
        &&& forall|i: int| 0 <= i < self.replicas@.len() ==> (#[trigger] self.replicas@[i]).wf(instance)
        &&& self.incumbent.wf(instance)
        &&& self.incumbent.sol is Some
    }

    /// Start from the given replicas: the coldest descends, and is the first
    /// incumbent.
    pub fn start<V: VarDomain>(
        instance: &HuboInstance<V>,
        replicas: Vec<Walk>,
        max_passes: usize,
    ) -> (r: Self)
        requires
            run::is_searchable(instance),
            replicas@.len() >= 2,
            forall|i: int| 0 <= i < replicas@.len() ==> (#[trigger] replicas@[i]).wf(instance),
        ensures
            r.wf(instance),
            r.replicas@.len() == replicas@.len(),
            r.replicas@[0].sol@ == descended(instance, replicas@[0].sol@, max_passes as nat),
            forall|i: int| 0 < i < replicas@.len() ==> #[trigger] r.replicas@[i] == replicas@[i],
            r.incumbent.obj == r.replicas@[0].obj,
            r.incumbent.sol matches Some(s) && s@ == r.replicas@[0].sol@,
            !r.odd,
            r.accepted == 0,
            r.proposed == 0,
            forall|i: int| 0 <= i < r.swap_stats@.len() ==> #[trigger] r.swap_stats@[i] == (0u64, 0u64),
    {
        let mut replicas = replicas;
        let ghost reps = replicas@;
        greedy_descent(&mut replicas[0], instance, max_passes);
        let mut incumbent = Incumbent::new();
        proof {
            crate::term::lemma_poly_range(V::tag(), instance.terms@, replicas@[0].sol@);
        }
        let taken = incumbent.offer(instance, &replicas[0]);
        let mut swap_stats: Vec<(u64, u64)> = Vec::new();
        while swap_stats.len() < replicas.len() - 1
            invariant
                replicas@.len() >= 2,
                swap_stats@.len() <= replicas@.len() - 1,
                forall|i: int|
                    0 <= i < swap_stats@.len() ==> #[trigger] swap_stats@[i] == (0u64, 0u64),
            decreases replicas@.len() - swap_stats@.len(),
        {
            swap_stats.push((0, 0));
        }
        Ensemble { replicas, incumbent, odd: false, accepted: 0, proposed: 0, swap_stats }
    }

    /// Flip a variable of a replica if the caller accepted it.
    pub fn settle<V: VarDomain>(
        &mut self,
        instance: &HuboInstance<V>,
        replica: usize,
        v: usize,
        accepted: bool,
    )
        requires
            instance.wf(),
            instance.fits(),
            old(self).wf(instance),
            replica < old(self).replicas@.len(),
            v < instance.n(),
        ensures
            final(self).wf(instance),
            final(self).replicas@.len() == old(self).replicas@.len(),
            final(self).replicas@[replica as int].sol@ == (if accepted {
                solution::flipped(old(self).replicas@[replica as int].sol@, v as int)
            } else {
                old(self).replicas@[replica as int].sol@
            }),
            forall|i: int|
                0 <= i < old(self).replicas@.len() && i != replica
                    ==> #[trigger] final(self).replicas@[i] == old(self).replicas@[i],
            final(self).incumbent == old(self).incumbent,
            final(self).odd == old(self).odd,
            final(self).accepted == old(self).accepted,
            final(self).proposed == old(self).proposed,
            final(self).swap_stats == old(self).swap_stats,
    {
        if accepted {
            self.replicas[replica].flip(instance, v);
        }
    }

    /// Offer the assignment of a replica.
    pub fn note_replica<V: VarDomain>(&mut self, instance: &HuboInstance<V>, replica: usize) -> (r:
        bool)
        requires
            old(self).wf(instance),
            replica < old(self).replicas@.len(),
        ensures
            final(self).wf(instance),
            run::is_offered(
                old(self).incumbent,
                old(self).replicas@[replica as int],
                final(self).incumbent,
            ),
            r == (old(self).replicas@[replica as int].obj < old(self).incumbent.obj),
            final(self).replicas == old(self).replicas,
            final(self).odd == old(self).odd,
            final(self).accepted == old(self).accepted,
            final(self).proposed == old(self).proposed,
            final(self).swap_stats == old(self).swap_stats,
    {
        self.incumbent.offer(instance, &self.replicas[replica])
    }

    /// The first pair of the next exchange; even and odd pairs alternate.
    pub fn begin_exchange(&mut self) -> (r: usize)
        ensures
            r == (if old(self).odd {
                1int
            } else {
                0
            }),
            final(self).odd == !old(self).odd,
            final(self).replicas == old(self).replicas,
            final(self).incumbent == old(self).incumbent,
            final(self).accepted == old(self).accepted,
            final(self).proposed == old(self).proposed,
            final(self).swap_stats == old(self).swap_stats,
    {
        let first: usize = if self.odd {
            1
        } else {
            0
        };
        self.odd = !self.odd;
        first
    }

    /// Exchange the replicas `p` and `p + 1` if the caller accepted it: the one
    /// that is now colder descends (if wanted) and is offered. The exchange is
    /// recorded either way.
    pub fn exchange<V: VarDomain>(
        &mut self,
        instance: &HuboInstance<V>,
        p: usize,
        accepted: bool,
        greedy_after_swap: bool,
        max_passes: usize,
    )
        requires
            instance.wf(),
            instance.fits(),
            old(self).wf(instance),
            p + 1 < old(self).replicas@.len(),
        ensures
            final(self).wf(instance),
            final(self).replicas@.len() == old(self).replicas@.len(),
            final(self).odd == old(self).odd,
            final(self).proposed == run::counted(old(self).proposed, 1),
            final(self).accepted == run::counted(old(self).accepted, accepted as u64),
            final(self).swap_stats@ == old(self).swap_stats@.update(
                p as int,
                (
                    run::counted(old(self).swap_stats@[p as int].0, accepted as u64),
                    run::counted(old(self).swap_stats@[p as int].1, 1),
                ),
            ),
            !accepted ==> final(self).replicas@ == old(self).replicas@ && final(self).incumbent
                == old(self).incumbent,
            accepted ==> final(self).replicas@[p + 1] == old(self).replicas@[p as int]
                && final(self).replicas@[p as int].sol@ == (if greedy_after_swap {
                descended(instance, old(self).replicas@[p + 1].sol@, max_passes as nat)
            } else {
                old(self).replicas@[p + 1].sol@
            }) && run::is_offered(
                old(self).incumbent,
                final(self).replicas@[p as int],
                final(self).incumbent,
            ) && (forall|i: int|
                0 <= i < old(self).replicas@.len() && i != p && i != p + 1
                    ==> #[trigger] final(self).replicas@[i] == old(self).replicas@[i]),
    {
        let ghost reps = self.replicas@;
        let len: usize = self.replicas.len();
        self.proposed = run::add_counts(self.proposed, 1);
        let (a, n) = self.swap_stats[p];
        let one: u64 = if accepted {
            1
        } else {
            0
        };
        self.swap_stats.set(p, (run::add_counts(a, one), run::add_counts(n, 1)));
        self.accepted = run::add_counts(self.accepted, one);
        if accepted {
            let lower = self.replicas.remove(p);
            self.replicas.insert(p + 1, lower);
            proof {
                assert(self.replicas@ =~= reps.update(p as int, reps[p + 1]).update(
                    p + 1,
                    reps[p as int],
                ));
            }
            if greedy_after_swap {
                greedy_descent(&mut self.replicas[p], instance, max_passes);
            }
            let taken = self.incumbent.offer(instance, &self.replicas[p]);
        }
    }
}

/// The seed of a run.
pub open spec fn run_seed(base: u64, id: u64) -> u64 {
    base.wrapping_add(id.wrapping_mul(6364136223846793005).wrapping_add(1))
}

/// The seed of a run.
pub fn seed_of_run(base: u64, id: u64) -> (r: u64)
    ensures
        r == run_seed(base, id),
{
    base.wrapping_add(id.wrapping_mul(6364136223846793005).wrapping_add(1))
}

/// The first of the runs with the least energy.
pub fn best_run(energies: &Vec<i64>) -> (r: usize)
    requires
        energies@.len() > 0,
    ensures
        r < energies@.len(),
        forall|i: int| 0 <= i < energies@.len() ==> energies@[r as int] <= #[trigger] energies@[i],
        forall|i: int| 0 <= i < r ==> energies@[r as int] < #[trigger] energies@[i],
{
    let mut best: usize = 0;
    let mut i: usize = 1;
    while i < energies.len()
        invariant
            1 <= i <= energies@.len(),
            best < i,
            forall|j: int| 0 <= j < i ==> energies@[best as int] <= #[trigger] energies@[j],
            forall|j: int| 0 <= j < best ==> energies@[best as int] < #[trigger] energies@[j],
        decreases energies@.len() - i,
    {
        if energies[i] < energies[best] {
            best = i;
        }
        i += 1;
    }
    best
}

/// When a run sweeps, exchanges and adapts.
#[derive(Debug, Clone, Copy)]
pub struct Schedule {
    pub n_sweeps: usize,
    /// Replicas are exchanged after every so many sweeps.
    pub swap_interval: usize,
    /// The temperatures are adapted after every so many sweeps; never if zero.
    pub adapt_interval: usize,
    pub cutoff: Option<i64>,
}

/// What a run does next: it sweeps, and what it does after that.
#[derive(Debug, Clone, Copy, PartialEq, Eq, Structural)]
pub struct Actions {
    pub exchange: bool,
    pub adapt: bool,
}

/// What a run does after `done` sweeps with the given best objective: nothing more
/// on a signal, at the cutoff or after the last sweep.
pub open spec fn actions_after(
    schedule: Schedule,
    done: usize,
    best: i64,
    signals: Signals,
) -> Option<Actions> {
    if done >= schedule.n_sweeps || signals.interrupted || signals.timed_out || run::meets_cutoff(
        schedule.cutoff,
        best,
    ) {
        None
    } else {
        Some(
            Actions {
                exchange: (done + 1) % (schedule.swap_interval as int) == 0,
                adapt: schedule.adapt_interval > 0 && (done + 1) % (schedule.adapt_interval as int)
                    == 0,
            },
        )
    }
}

/// What a run does after `done` sweeps.
pub fn next_actions(
    schedule: &Schedule,
    done: usize,
    incumbent: &Incumbent,
    signals: Signals,
) -> (r: Option<Actions>)
    requires
        schedule.swap_interval > 0,
    ensures
        r == actions_after(*schedule, done, incumbent.obj, signals),
{
    if done >= schedule.n_sweeps || signals.interrupted || signals.timed_out || incumbent.reaches(
        schedule.cutoff,
    ) {
        return None;
    }
    let count: usize = done + 1;
    Some(
        Actions {
            exchange: count % schedule.swap_interval == 0,
            adapt: schedule.adapt_interval > 0 && count % schedule.adapt_interval == 0,
        },
    )
}

/// Why all runs ended: an interrupt first, then the cutoff, then the time.
pub open spec fn status_after(signals: Signals, cutoff: Option<i64>, best: i64) -> Status {
    if signals.interrupted {
        Status::Interrupted
    } else if run::meets_cutoff(cutoff, best) {
        Status::Cutoff
    } else if signals.timed_out {
        Status::TimeLimit
    } else {
        Status::Completed
    }
}

/// Why all runs ended.
pub fn end_status(signals: Signals, cutoff: Option<i64>, best: i64) -> (r: Status)
    ensures
        r == status_after(signals, cutoff, best),
{
    let met: bool = match cutoff {
        Some(c) => best <= c,
        None => false,
    };
    if signals.interrupted {
        Status::Interrupted
    } else if met {
        Status::Cutoff
    } else if signals.timed_out {
        Status::TimeLimit
    } else {
        Status::Completed
    }
}

/// The product of two counts, no larger than the largest number.
fn multiply_counts(a: u64, b: u64) -> (r: u64)
    ensures
        r == run::capped(a * b),
{
    proof {
        assert(a * b <= u64::MAX * u64::MAX) by (nonlinear_arith)
            requires
                0 <= a <= u64::MAX,
                0 <= b <= u64::MAX,
        ;
    }
    let p: u128 = a as u128 * b as u128;
    if p > u64::MAX as u128 {
        u64::MAX
    } else {
        p as u64
    }
}

proof fn lemma_capped_product(a: int, b: int)
    requires
        0 <= a,
        0 <= b,
    ensures
        run::capped(run::capped(a) * b) == run::capped(a * b),
{
    if a > u64::MAX {
        if b == 0 {
            assert(a * 0 == 0 && u64::MAX * 0 == 0);
        } else {
            assert(a * b >= a) by (nonlinear_arith)
                requires
                    b >= 1,
                    a >= 0,
            ;
            let m = u64::MAX as int;
            assert(m * b >= m) by (nonlinear_arith)
                requires
                    b >= 1,
                    m >= 0,
            ;
        }
    }
}

/// How many moves all runs consider: one per variable, replica, sweep and run.
pub fn moves_considered(n_runs: usize, n_replicas: usize, n_sweeps: usize, n_vars: usize) -> (r: u64)
    ensures
        r == run::capped(n_runs * n_replicas * n_sweeps * n_vars),
{
    let a: u64 = multiply_counts(n_runs as u64, n_replicas as u64);
    let b: u64 = multiply_counts(a, n_sweeps as u64);
    proof {
        let p: int = n_runs * n_replicas;
        let q: int = p * n_sweeps;
        assert(0 <= p) by (nonlinear_arith)
            requires
                p == n_runs * n_replicas,
        ;
        assert(0 <= q) by (nonlinear_arith)
            requires
                q == p * n_sweeps,
                p >= 0,
        ;
        lemma_capped_product(p, n_sweeps as int);
        lemma_capped_product(q, n_vars as int);
    }
    multiply_counts(b, n_vars as u64)
}

impl Ensemble {
    /// The result of a run: the incumbent with its objective.
    pub fn finish<V: VarDomain>(
        self,
        instance: &HuboInstance<V>,
        status: Status,
        iterations: u64,
    ) -> (r: Outcome)
        requires
            instance.wf(),
            instance.fits(),
            self.wf(instance),
        ensures
            run::is_reported(self.incumbent, status, iterations, r),
            r.objective == instance.objective(r.solution@),
            r.solution@.len() == instance.n(),
    {
        run::report(instance, self.incumbent, status, iterations)
    }
}

} // verus!
