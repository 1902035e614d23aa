//! Self-avoiding walks: every variable is flipped once, in random order, before
//! any is flipped again.

use crate::domain::VarDomain;
use crate::heuristic::Signals;
use crate::heuristic::Status;
use crate::heuristic::greedy;
use crate::heuristic::rng;
use crate::heuristic::run::{Outcome, Run};
use crate::heuristic::run;
use crate::heuristic::walk;
use crate::instance::HuboInstance;
use crate::solution;
use vstd::prelude::*;

verus! {

/// How the search goes.
#[derive(Debug, Clone, Copy)]
pub struct Config {
    pub seed: u64,
    pub cutoff: Option<i64>,
    pub n_walks: usize,
    /// How many flips a walk makes at most.
    pub max_steps: Option<u64>,
    /// Whether to descend to a local minimum when all variables were flipped.
    pub local_search: bool,
}

impl Default for Config {
    fn default() -> (r: Self)
        ensures
            r.seed == 0,
            r.cutoff is None,
            r.n_walks == 1,
            r.max_steps is None,
            !r.local_search,
    {
        Config { seed: 0, cutoff: None, n_walks: 1, max_steps: None, local_search: false }
    }
}

/// The search: a run, and the variables not yet flipped in the current segment.
pub struct Search {
    pub run: Run,
    pub admissible: Vec<usize>,
}

/// All variables in order.
pub open spec fn full_deck(n: nat) -> Seq<usize> {
    Seq::new(n, |i: int| i as usize)
}

/// The deck without its entry `p`: the last entry takes its place.
pub open spec fn dealt(deck: Seq<usize>, p: int) -> Seq<usize> {
    deck.update(p, deck.last()).drop_last()
}

fn new_deck(n: usize) -> (r: Vec<usize>)
    ensures
        r@ == full_deck(n as nat),
{
    let mut deck: Vec<usize> = Vec::new();
    let mut i: usize = 0;
    while i < n
        invariant
            i <= n,
            deck@ == full_deck(i as nat),
        decreases n - i,
    {
        deck.push(i);
        i += 1;
        assert(deck@ =~= full_deck(i as nat));
    }
    deck
}

/// A descent of the walk at the end of a segment: the local minimum is offered,
/// and the search ends when it improves to the cutoff.
pub open spec fn is_polish<V: VarDomain>(
    instance: &HuboInstance<V>,
    a: &Run,
    b: &Run,
) -> bool {
    &&& run::same_setup(a, b)
    &&& b.restart == a.restart
    &&& b.moves == a.moves
    &&& b.rng == a.rng
    &&& walk::is_local_minimum(instance, b.walk.sol@)
    &&& exists|path: Seq<Seq<bool>>| #[trigger]
        walk::is_descent(instance, path, a.walk.sol@, b.walk.sol@)
    &&& run::is_offered(a.incumbent, b.walk, b.incumbent)
    &&& if b.walk.obj < a.incumbent.obj && (a.cutoff matches Some(c) && b.walk.obj <= c) {
        b.over && b.status == Status::Cutoff && b.total == run::counted(a.total, a.moves)
    } else {
        !b.over && b.total == a.total
    }
}

/// What comes before a flip: nothing, or at the end of a segment a descent (if
/// wanted) and a new deck.
pub open spec fn is_dealing<V: VarDomain>(
    instance: &HuboInstance<V>,
    local_search: bool,
    a: &Search,
    m: &Search,
) -> bool {
    if a.admissible@.len() > 0 {
        m.run == a.run && m.admissible@ == a.admissible@
    } else {
        &&& if local_search {
            is_polish(instance, &a.run, &m.run)
        } else {
            m.run == a.run
        }
        &&& !m.run.over ==> m.admissible@ == full_deck(instance.n() as nat)
    }
}

/// The flip of a step: the drawn variable leaves the deck and is flipped.
pub open spec fn is_deal(m: &Search, b: &Search) -> bool {
    let p = rng::drawn(m.run.rng, m.admissible@.len() as int);
    &&& b.admissible@ == dealt(m.admissible@, p)
    &&& run::same_setup(&m.run, &b.run)
    &&& b.run.restart == m.run.restart
    &&& b.run.moves == run::counted(m.run.moves, 1)
    &&& b.run.rng == rng::advanced(m.run.rng)
    &&& b.run.walk.sol@ == solution::flipped(m.run.walk.sol@, m.admissible@[p] as int)
    &&& run::is_offered(m.run.incumbent, b.run.walk, b.run.incumbent)
    &&& if b.run.walk.obj < m.run.incumbent.obj && (m.run.cutoff matches Some(c)
        && b.run.walk.obj <= c) {
        b.run.over && b.run.status == Status::Cutoff && b.run.total == run::counted(
            m.run.total,
            b.run.moves,
        )
    } else {
        !b.run.over && b.run.total == m.run.total
    }
}

/// One step: end on a signal, go on to the next walk when the flips are made,
/// else deal a variable.
pub open spec fn is_step<V: VarDomain>(
    instance: &HuboInstance<V>,
    config: Config,
    signals: Signals,
    a: &Search,
    b: &Search,
) -> bool {
    if signals.interrupted {
        run::is_stopped(&a.run, &b.run, Status::Interrupted)
    } else if signals.timed_out {
        run::is_stopped(&a.run, &b.run, Status::TimeLimit)
    } else if greedy::is_spent(config.max_steps, a.run.moves) {
        run::is_next_restart(instance.n() as nat, &a.run, &b.run) && (!b.run.over
            ==> b.admissible@ == full_deck(instance.n() as nat))
    } else {
        exists|m: Search| #[trigger]
            is_dealing(instance, config.local_search, a, &m) && (if m.run.over {
                b.run == m.run
            } else {
                is_deal(&m, b)
            })
    }
}

/// The state in which the search starts: at a random assignment with a full deck.
/// It is over when the assignment meets the cutoff.
pub open spec fn is_start<V: VarDomain>(
    instance: &HuboInstance<V>,
    config: Config,
    r: &Search,
) -> bool {
    let r0 = rng::seeded(config.seed);
    let n = instance.n() as nat;
    &&& r.run.seed == config.seed
    &&& r.run.restarts == config.n_walks
    &&& r.run.cutoff == config.cutoff
    &&& r.run.restart == 0
    &&& r.run.moves == 0
    &&& r.run.total == 0
    &&& r.run.over == run::meets_cutoff(config.cutoff, r.run.walk.obj)
    &&& r.run.status == (if r.run.over {
        Status::Cutoff
    } else {
        Status::Completed
    })
    &&& r.run.walk.sol@ == rng::random_bits(r0, n)
    &&& r.run.rng == rng::advanced_by(r0, n)
    &&& r.run.incumbent.obj == r.run.walk.obj
    &&& r.run.incumbent.sol matches Some(s) && s@ == r.run.walk.sol@
    &&& r.admissible@ == full_deck(n)
}

/// The entries are distinct variables.
pub open spec fn is_deck(deck: Seq<usize>, n: int) -> bool {
    &&& deck.no_duplicates()
    &&& forall|i: int| 0 <= i < deck.len() ==> (#[trigger] deck[i]) < n
}

impl Search {
    /// The parts of the search fit together; no variable is in the deck twice.
    pub open spec fn wf<V: VarDomain>(&self, instance: &HuboInstance<V>) -> bool {
        &&& self.run.wf(instance)
        &&& is_deck(self.admissible@, instance.n() as int)
    }

    /// Start the search.
    pub fn start<V: VarDomain>(instance: &HuboInstance<V>, config: &Config) -> (r: Self)
        requires
            run::is_searchable(instance),
            config.n_walks > 0,
        ensures
            r.wf(instance),
            is_start(instance, *config, &r),
    {
        let run = Run::start(instance, config.seed, config.n_walks, config.cutoff, None);
        Search { run, admissible: new_deck(instance.n_vars()) }
    }

    /// Make one step; whether the search goes on.
    pub fn step<V: VarDomain>(
        &mut self,
        instance: &HuboInstance<V>,
        config: &Config,
        signals: Signals,
    ) -> (r: bool)
        requires
            run::is_searchable(instance),
            old(self).wf(instance),
            !old(self).run.over,
            instance.n() > 0,
        ensures
            final(self).wf(instance),
            is_step(instance, *config, signals, old(self), final(self)),
            r == !final(self).run.over,
    {
        let n: usize = instance.n_vars();
        let ghost s0 = *self;
        if signals.interrupted {
            self.run.stop(Status::Interrupted);
            return false;
        }
        if signals.timed_out {
            self.run.stop(Status::TimeLimit);
            return false;
        }
        let spent: bool = match config.max_steps {
            Some(m) => self.run.moves >= m,
            None => false,
        };
        if spent {
            self.run.next_restart(instance);
            if !self.run.over {
                self.admissible = new_deck(n);
            }
            return !self.run.over;
        }
        if self.admissible.len() == 0 {
            if config.local_search {
                self.run.walk.descend(instance);
                let ghost path = choose|path: Seq<Seq<bool>>| #[trigger]
                    walk::is_descent(instance, path, s0.run.walk.sol@, self.run.walk.sol@);
                let improved = self.run.incumbent.offer(instance, &self.run.walk);
                if improved && self.run.incumbent.reaches(self.run.cutoff) {
                    self.run.stop(Status::Cutoff);
                    assert(is_polish(instance, &s0.run, &self.run));
                    assert(is_dealing(instance, config.local_search, &s0, self));
                    return false;
                }
                assert(walk::is_descent(instance, path, s0.run.walk.sol@, self.run.walk.sol@));
                assert(run::is_offered(s0.run.incumbent, self.run.walk, self.run.incumbent));
                assert(is_polish(instance, &s0.run, &self.run));
            }
            self.admissible = new_deck(n);
        }
        let ghost m = *self;
        assert(is_dealing(instance, config.local_search, &s0, &m));
        let len: usize = self.admissible.len();
        let p: usize = self.run.rng.index(len);
        let v: usize = self.admissible[p];
        let last: usize = self.admissible[len - 1];
        self.admissible.set(p, last);
        let popped = self.admissible.pop();
        assert(self.admissible@ =~= dealt(m.admissible@, p as int));
        proof {
            assert(m.admissible@[p as int] < instance.n());
            let d = self.admissible@;
            assert forall|i: int| 0 <= i < d.len() implies (#[trigger] d[i]) < instance.n() by {
                assert(m.admissible@[i] < instance.n());
                assert(m.admissible@[len - 1] < instance.n());
            }
            assert forall|i: int, j: int| 0 <= i < d.len() && 0 <= j < d.len() && i != j implies d[i]
                != d[j] by {
                let a = m.admissible@;
                let i1 = if i == p {
                    len - 1
                } else {
                    i
                };
                let j1 = if j == p {
                    len - 1
                } else {
                    j
                };
                assert(a[i1] != a[j1]);
            }
        }
        self.run.count();
        self.run.flip(instance, v);
        assert(is_deal(&m, self));
        !self.run.over
    }
}

/// A variable that was flipped leaves the deck, and the others stay: none is
/// flipped again before all were.
pub proof fn flipped_variable_leaves(deck: Seq<usize>, p: int, v: usize)
    requires
        deck.no_duplicates(),
        0 <= p < deck.len(),
    ensures
        dealt(deck, p).contains(v) == (deck.contains(v) && v != deck[p]),
        dealt(deck, p).len() == deck.len() - 1,
{
    let d = dealt(deck, p);
    if d.contains(v) {
        let i = choose|i: int| 0 <= i < d.len() && d[i] == v;
        if i == p {
            assert(deck[deck.len() - 1] == v);
        } else {
            assert(deck[i] == v);
        }
    }
    if deck.contains(v) && v != deck[p] {
        let i = choose|i: int| 0 <= i < deck.len() && deck[i] == v;
        if i == deck.len() - 1 {
            assert(d[p] == v);
        } else {
            assert(d[i] == v);
        }
    }
}

/// The states of a search without signals, up to some state.
pub open spec fn is_path<V: VarDomain>(
    instance: &HuboInstance<V>,
    config: Config,
    states: Seq<Search>,
) -> bool {
    &&& states.len() > 0
    &&& is_start(instance, config, &states[0])
    &&& forall|k: int| 0 <= k < states.len() ==> (#[trigger] states[k]).wf(instance)
    &&& forall|k: int|
        0 <= k < states.len() - 1 ==> !(#[trigger] states[k]).run.over && is_step(
            instance,
            config,
            greedy::quiet(),
            &states[k],
            &states[k + 1],
        )
}

/// The states of a search without signals, from the start to the end.
pub open spec fn is_search<V: VarDomain>(
    instance: &HuboInstance<V>,
    config: Config,
    states: Seq<Search>,
) -> bool {
    &&& is_path(instance, config, states)
    &&& states.last().run.over
}

proof fn lemma_path_push<V: VarDomain>(
    instance: &HuboInstance<V>,
    config: Config,
    states: Seq<Search>,
    b: Search,
)
    requires
        is_path(instance, config, states),
        !states.last().run.over,
        is_step(instance, config, greedy::quiet(), &states.last(), &b),
        b.wf(instance),
    ensures
        is_path(instance, config, states.push(b)),
{
    let t = states.push(b);
    assert forall|k: int| 0 <= k < t.len() - 1 implies !(#[trigger] t[k]).run.over && is_step(
        instance,
        config,
        greedy::quiet(),
        &t[k],
        &t[k + 1],
    ) by {
        assert(t[k] == states[k]);
        if k < states.len() - 1 {
            assert(t[k + 1] == states[k + 1]);
        }
    }
}

/// A step without signals, as the next state of a search.
fn quiet_step<V: VarDomain>(
    search: &mut Search,
    instance: &HuboInstance<V>,
    config: &Config,
    Ghost(states): Ghost<Seq<Search>>,
)
    requires
        run::is_searchable(instance),
        instance.n() > 0,
        config.max_steps is Some,
        is_path(instance, *config, states),
        states.last() == *old(search),
        !old(search).run.over,
    ensures
        final(search).wf(instance),
        is_path(instance, *config, states.push(*final(search))),
        run::progresses(&old(search).run, &final(search).run, config.max_steps->0 as int),
{
    let quiet = Signals { interrupted: false, timed_out: false };
    let ghost s0 = *search;
    assert(states[states.len() - 1].wf(instance));
    let going = search.step(instance, config, quiet);
    proof {
        if s0.admissible@.len() == 0 && !greedy::is_spent(config.max_steps, s0.run.moves) {
            let m = choose|m: Search| #[trigger]
                is_dealing(instance, config.local_search, &s0, &m) && (if m.run.over {
                    search.run == m.run
                } else {
                    is_deal(&m, search)
                });
        }
    }
    proof {
        lemma_path_push(instance, *config, states, *search);
    }
}

/// Search without signals until the search ends by itself: by the cutoff exactly
/// when an assignment that meets it was found, else after all steps of all walks.
pub fn solve<V: VarDomain>(instance: &HuboInstance<V>, config: &Config) -> (r: Outcome)
    requires
        run::is_searchable(instance),
        config.n_walks > 0,
        config.max_steps is Some,
        instance.n() > 0,
    ensures
        exists|states: Seq<Search>| #[trigger]
            is_search(instance, *config, states) && run::is_reported(
                states.last().run.incumbent,
                states.last().run.status,
                states.last().run.total,
                r,
            ),
        r.solution@.len() == instance.n(),
        r.objective == instance.objective(r.solution@),
        r.status == (if run::meets_cutoff(config.cutoff, r.objective) {
            Status::Cutoff
        } else {
            Status::Completed
        }),
        r.status == Status::Completed ==> r.iterations == run::capped(
            config.n_walks * config.max_steps->0,
        ),
        r.objective <= instance.objective(
            rng::random_bits(rng::seeded(config.seed), instance.n() as nat),
        ),
{
    let mut search = Search::start(instance, config);
    let ghost first = search.run.walk.obj;
    let ghost mut states: Seq<Search> = seq![search];
    let ghost m: int = config.max_steps->0 as int;
    assert(0 * m == 0) by (nonlinear_arith);
    while !search.run.over
        invariant
            run::is_searchable(instance),
            instance.n() > 0,
            search.wf(instance),
            config.max_steps is Some,
            m == config.max_steps->0,
            search.run.restarts == config.n_walks,
            search.run.cutoff == config.cutoff,
            search.run.incumbent.obj <= first,
            is_path(instance, *config, states),
            states.last() == search,
            run::is_paced(&search.run, m),
        decreases
                (if search.run.over {
                    0int
                } else {
                    1
                }),
                config.n_walks - search.run.restart,
                m - search.run.moves,
    {
        let ghost a = search.run;
        quiet_step(&mut search, instance, config, Ghost(states));
        proof {
            run::lemma_paced(&a, &search.run, m);
            states = states.push(search);
        }
    }
    let r = search.run.finish(instance);
    assert(is_search(instance, *config, states));
    r
}

} // verus!
