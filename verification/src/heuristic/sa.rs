//! Simulated annealing: the moves. The caller keeps the temperature and decides
//! about moves that go up.

use crate::domain::VarDomain;
use crate::heuristic::Signals;
use crate::heuristic::Status;
use crate::heuristic::rng;
use crate::heuristic::run::Run;
use crate::heuristic::run;
use crate::instance::HuboInstance;
use vstd::prelude::*;

verus! {

/// How many flips are attempted per temperature.
pub fn attempts_per_level(sweeps_per_temp: Option<usize>, n_vars: usize) -> (r: usize)
    ensures
        r == (match sweeps_per_temp {
            Some(k) => k,
            None => n_vars,
        }),
{
    match sweeps_per_temp {
        Some(k) => k,
        None => n_vars,
    }
}

/// What comes after a temperature level: an end on a signal, the next restart
/// when the schedule is complete, else the next level.
pub open spec fn is_level(
    n: nat,
    signals: Signals,
    schedule_complete: bool,
    a: &Run,
    b: &Run,
) -> bool {
    if signals.interrupted {
        run::is_stopped(a, b, Status::Interrupted)
    } else if signals.timed_out {
        run::is_stopped(a, b, Status::TimeLimit)
    } else if schedule_complete {
        run::is_next_restart(n, a, b)
    } else {
        *b == *a
    }
}

/// Begin a temperature level; whether its flips are to be attempted.
pub fn begin_level<V: VarDomain>(
    run: &mut Run,
    instance: &HuboInstance<V>,
    signals: Signals,
    schedule_complete: bool,
) -> (r: bool)
    requires
        run::is_searchable(instance),
        old(run).wf(instance),
        !old(run).over,
    ensures
        final(run).wf(instance),
        is_level(instance.n() as nat, signals, schedule_complete, old(run), final(run)),
        r == (!signals.interrupted && !signals.timed_out && !schedule_complete),
{
    if signals.interrupted {
        run.stop(Status::Interrupted);
        false
    } else if signals.timed_out {
        run.stop(Status::TimeLimit);
        false
    } else if schedule_complete {
        run.next_restart(instance);
        false
    } else {
        true
    }
}

/// Draw a variable; its number and the change of its flip. `None` when a signal
/// ends the search.
pub fn propose<V: VarDomain>(
    run: &mut Run,
    instance: &HuboInstance<V>,
    signals: Signals,
) -> (r: Option<(usize, i64)>)
    requires
        run::is_searchable(instance),
        old(run).wf(instance),
        !old(run).over,
        instance.n() > 0,
    ensures
        final(run).wf(instance),
        signals.interrupted ==> run::is_stopped(old(run), final(run), Status::Interrupted),
        !signals.interrupted && signals.timed_out ==> run::is_stopped(
            old(run),
            final(run),
            Status::TimeLimit,
        ),
        r is None <==> signals.interrupted || signals.timed_out,
        r matches Some((v, d)) ==> v == rng::drawn(old(run).rng, instance.n() as int) && v
            < instance.n() && d == instance.flip_change(old(run).walk.sol@, v as int)
            && final(run).rng == rng::advanced(old(run).rng) && final(run).walk == old(run).walk
            && final(run).incumbent == old(run).incumbent && final(run).moves == old(run).moves
            && final(run).restart == old(run).restart && final(run).total == old(run).total
            && run::same_setup(old(run), final(run)) && !final(run).over,
{
    if signals.interrupted {
        run.stop(Status::Interrupted);
        return None;
    }
    if signals.timed_out {
        run.stop(Status::TimeLimit);
        return None;
    }
    let v: usize = run.rng.index(instance.n_vars());
    let d: i64 = run.walk.delta(instance, v);
    Some((v, d))
}

/// `b` is the run `a` with one more move counted.
pub open spec fn is_count_of(a: &Run, b: &Run) -> bool {
    &&& run::same_setup(a, b)
    &&& b.moves == run::counted(a.moves, 1)
    &&& b.restart == a.restart
    &&& b.total == a.total
    &&& b.rng == a.rng
    &&& b.walk == a.walk
    &&& b.incumbent == a.incumbent
    &&& b.over == a.over
    &&& b.status == a.status
}

/// A settled attempt: an accepted flip is made, and the attempt is counted
/// unless it ended the search.
pub open spec fn is_settled(a: &Run, v: int, accepted: bool, b: &Run) -> bool {
    if accepted {
        exists|m: Run| #[trigger]
            run::is_flip_of(a, &m, v) && (if m.over {
                *b == m
            } else {
                is_count_of(&m, b)
            })
    } else {
        is_count_of(a, b)
    }
}

/// Make the proposed flip or not; whether the search goes on.
pub fn settle<V: VarDomain>(run: &mut Run, instance: &HuboInstance<V>, v: usize, accepted: bool) -> (r:
    bool)
    requires
        run::is_searchable(instance),
        old(run).wf(instance),
        !old(run).over,
        v < instance.n(),
    ensures
        final(run).wf(instance),
        is_settled(old(run), v as int, accepted, final(run)),
        r == !final(run).over,
{
    let ghost a = *run;
    if accepted {
        run.flip(instance, v);
        assert(run::is_flip_of(&a, run, v as int));
        if run.over {
            return false;
        }
    }
    let ghost m = *run;
    run.count();
    assert(is_count_of(&m, run));
    true
}

} // verus!
