//! Steepest descent with restarts.

use crate::domain::VarDomain;
use crate::heuristic::Signals;
use crate::heuristic::Status;
use crate::heuristic::run::{Outcome, Run};
use crate::heuristic::run;
use crate::heuristic::walk;
use crate::instance::HuboInstance;
use crate::solution;
use vstd::prelude::*;

verus! {

/// How the search goes.
#[derive(Debug, Clone, Copy)]
pub struct Config {
    pub seed: u64,
    pub cutoff: Option<i64>,
    /// How many random assignments to start from.
    pub restarts: usize,
    /// How many flips a restart makes at most.
    pub max_flips: Option<u64>,
}

impl Default for Config {
    fn default() -> (r: Self)
        ensures
            r.seed == 0,
            r.cutoff is None,
            r.restarts == 1,
            r.max_flips is None,
    {
        Config { seed: 0, cutoff: None, restarts: 1, max_flips: None }
    }
}

/// The restart has made all its flips.
pub open spec fn is_spent(limit: Option<u64>, moves: u64) -> bool {
    limit matches Some(m) && moves >= m
}

/// One step: end on a signal, go on to the next restart when the flips are made
/// or no flip improves, else make the steepest flip.
pub open spec fn is_step<V: VarDomain>(
    instance: &HuboInstance<V>,
    limit: Option<u64>,
    signals: Signals,
    a: &Run,
    b: &Run,
) -> bool {
    if signals.interrupted {
        run::is_stopped(a, b, Status::Interrupted)
    } else if signals.timed_out {
        run::is_stopped(a, b, Status::TimeLimit)
    } else if is_spent(limit, a.moves) || walk::is_local_minimum(instance, a.walk.sol@) {
        run::is_next_restart(instance.n() as nat, a, b)
    } else {
        exists|v: usize| #[trigger]
            walk::is_steepest(instance, a.walk.sol@, Some(v)) && is_counted_flip(a, b, v as int)
    }
}

/// A flip that counts as a move.
pub open spec fn is_counted_flip(a: &Run, b: &Run, v: int) -> bool {
    &&& run::same_setup(a, b)
    &&& b.restart == a.restart
    &&& b.moves == run::counted(a.moves, 1)
    &&& b.rng == a.rng
    &&& b.walk.sol@ == solution::flipped(a.walk.sol@, v)
    &&& run::is_offered(a.incumbent, b.walk, b.incumbent)
    &&& if b.walk.obj < a.incumbent.obj && (a.cutoff matches Some(c) && b.walk.obj <= c) {
        b.over && b.status == Status::Cutoff && b.total == run::counted(a.total, b.moves)
    } else {
        !b.over && b.total == a.total
    }
}

/// Start the search.
pub fn start<V: VarDomain>(instance: &HuboInstance<V>, config: &Config) -> (r: Run)
    requires
        run::is_searchable(instance),
        config.restarts > 0,
    ensures
        r.wf(instance),
        is_start(instance, *config, &r),
{
    Run::start(instance, config.seed, config.restarts, config.cutoff, None)
}

/// The state in which the search starts.
pub open spec fn is_start<V: VarDomain>(
    instance: &HuboInstance<V>,
    config: Config,
    r: &Run,
) -> bool {
    let r0 = crate::heuristic::rng::seeded(config.seed);
    let n = instance.n() as nat;
    &&& r.seed == config.seed
    &&& r.restarts == config.restarts
    &&& r.cutoff == config.cutoff
    &&& r.restart == 0
    &&& r.moves == 0
    &&& r.total == 0
    &&& r.over == run::meets_cutoff(config.cutoff, r.walk.obj)
    &&& r.status == (if r.over {
        Status::Cutoff
    } else {
        Status::Completed
    })
    &&& r.walk.sol@ == crate::heuristic::rng::random_bits(r0, n)
    &&& r.rng == crate::heuristic::rng::advanced_by(r0, n)
    &&& r.incumbent.obj == r.walk.obj
    &&& r.incumbent.sol matches Some(s) && s@ == r.walk.sol@
}

/// Make one step; whether the search goes on.
pub fn step<V: VarDomain>(
    run: &mut Run,
    instance: &HuboInstance<V>,
    config: &Config,
    signals: Signals,
) -> (r: bool)
    requires
        run::is_searchable(instance),
        old(run).wf(instance),
        !old(run).over,
    ensures
        final(run).wf(instance),
        is_step(instance, config.max_flips, signals, old(run), final(run)),
        r == !final(run).over,
        !signals.interrupted && !signals.timed_out && r ==> final(run).restart > old(run).restart
            || final(run).walk.obj < old(run).walk.obj,
{
    if signals.interrupted {
        run.stop(Status::Interrupted);
        return false;
    }
    if signals.timed_out {
        run.stop(Status::TimeLimit);
        return false;
    }
    let spent: bool = match config.max_flips {
        Some(m) => run.moves >= m,
        None => false,
    };
    if spent {
        run.next_restart(instance);
        return !run.over;
    }
    let ghost run0 = *run;
    match run.walk.steepest(instance) {
        None => {
            run.next_restart(instance);
        },
        Some(v) => {
            assert(walk::is_steepest(instance, run0.walk.sol@, Some(v)));
            assert(instance.flip_change(run0.walk.sol@, v as int) < 0);
            run.count();
            run.flip(instance, v);
            assert(is_counted_flip(&run0, run, v as int));
        },
    }
    !run.over
}

/// No signal.
pub open spec fn quiet() -> Signals {
    Signals { interrupted: false, timed_out: false }
}

/// The states of a search without signals, from the start to the end.
pub open spec fn is_search<V: VarDomain>(
    instance: &HuboInstance<V>,
    config: Config,
    states: Seq<Run>,
) -> bool {
    &&& is_path(instance, config, states)
    &&& states.last().over
}

/// The states of a search without signals, up to some state.
pub open spec fn is_path<V: VarDomain>(
    instance: &HuboInstance<V>,
    config: Config,
    states: Seq<Run>,
) -> bool {
    &&& states.len() > 0
    &&& is_start(instance, config, &states[0])
    &&& forall|k: int| 0 <= k < states.len() ==> (#[trigger] states[k]).wf(instance)
    &&& forall|k: int|
        0 <= k < states.len() - 1 ==> !(#[trigger] states[k]).over && is_step(
            instance,
            config.max_flips,
            quiet(),
            &states[k],
            &states[k + 1],
        )
}

proof fn lemma_path_push<V: VarDomain>(
    instance: &HuboInstance<V>,
    config: Config,
    states: Seq<Run>,
    b: Run,
)
    requires
        is_path(instance, config, states),
        !states.last().over,
        is_step(instance, config.max_flips, quiet(), &states.last(), &b),
        b.wf(instance),
    ensures
        is_path(instance, config, states.push(b)),
{
    let t = states.push(b);
    assert forall|k: int| 0 <= k < t.len() - 1 implies !(#[trigger] t[k]).over && is_step(
        instance,
        config.max_flips,
        quiet(),
        &t[k],
        &t[k + 1],
    ) by {
        assert(t[k] == states[k]);
        if k < states.len() - 1 {
            assert(t[k + 1] == states[k + 1]);
        }
    }
}

/// Search without signals until the search ends by itself: by the cutoff exactly
/// when an assignment that meets it was found. Without a limit on the flips, the
/// result is a local minimum unless the cutoff ended the search.
pub fn solve<V: VarDomain>(instance: &HuboInstance<V>, config: &Config) -> (r: Outcome)
    requires
        run::is_searchable(instance),
        config.restarts > 0,
    ensures
        exists|states: Seq<Run>| #[trigger]
            is_search(instance, *config, states) && run::is_reported(
                states.last().incumbent,
                states.last().status,
                states.last().total,
                r,
            ),
        r.solution@.len() == instance.n(),
        r.objective == instance.objective(r.solution@),
        r.status == (if run::meets_cutoff(config.cutoff, r.objective) {
            Status::Cutoff
        } else {
            Status::Completed
        }),
        r.status == Status::Completed && config.max_flips is None ==> walk::is_local_minimum(
            instance,
            r.solution@,
        ),
        r.objective <= instance.objective(
            crate::heuristic::rng::random_bits(
                crate::heuristic::rng::seeded(config.seed),
                instance.n() as nat,
            ),
        ),
{
    let mut run = start(instance, config);
    let ghost first = run.walk.obj;
    let quiet = Signals { interrupted: false, timed_out: false };
    let ghost mut states: Seq<Run> = seq![run];
    while !run.over
        invariant
            run::is_searchable(instance),
            run.wf(instance),
            run.restarts == config.restarts,
            run.cutoff == config.cutoff,
            run.incumbent.obj <= first,
            quiet == self::quiet(),
            is_path(instance, *config, states),
            states.last() == run,
            run.over ==> run.status == Status::Completed || run.status == Status::Cutoff,
            config.max_flips is None && (!run.over || run.status == Status::Completed) ==> (
            run.incumbent.sol matches Some(s) && (walk::is_local_minimum(instance, s@) || (!run.over
                && s@ == run.walk.sol@))),
        decreases
                (if run.over {
                    0int
                } else {
                    1
                }),
                config.restarts - run.restart,
                run.walk.obj - i64::MIN,
    {
        let going = step(&mut run, instance, config, quiet);
        proof {
            lemma_path_push(instance, *config, states, run);
            states = states.push(run);
        }
    }
    let r = run.finish(instance);
    assert(is_search(instance, *config, states));
    r
}

} // verus!
