//! A walk over assignments by single flips, with the objective changes of all
//! flips at hand, and the best assignment met.

use crate::domain::VarDomain;
use crate::instance::HuboInstance;
use crate::instance;
use crate::solution::BitSolution;
use crate::solution;
use crate::state::{DeltaCache, TermState};
use crate::term;
use vstd::prelude::*;

verus! {

/// An assignment with its objective and the changes of its flips.
pub struct Walk {
    pub sol: BitSolution,
    pub obj: i64,
    pub term_state: TermState,
    pub delta_cache: DeltaCache,
}

/// `v` is the first variable whose flip improves most; none improves when there
/// is no such variable.
pub open spec fn is_steepest<V: VarDomain>(
    instance: &HuboInstance<V>,
    x: Seq<bool>,
    v: Option<usize>,
) -> bool {
    match v {
        None => is_local_minimum(instance, x),
        Some(v) => v < x.len() && instance.flip_change(x, v as int) < 0 && is_least_change(
            instance,
            x,
            v as int,
        ),
    }
}

/// No flip has a lower change than `v`, and none before `v` as low a change.
pub open spec fn is_least_change<V: VarDomain>(
    instance: &HuboInstance<V>,
    x: Seq<bool>,
    v: int,
) -> bool {
    &&& forall|u: int|
        0 <= u < x.len() ==> instance.flip_change(x, v) <= #[trigger] instance.flip_change(x, u)
    &&& forall|u: int|
        0 <= u < v ==> instance.flip_change(x, v) < #[trigger] instance.flip_change(x, u)
}

/// No flip improves.
pub open spec fn is_local_minimum<V: VarDomain>(instance: &HuboInstance<V>, x: Seq<bool>) -> bool {
    forall|u: int| 0 <= u < x.len() ==> #[trigger] instance.flip_change(x, u) >= 0
}

/// Objectives fit.
pub proof fn lemma_objective_fits<V: VarDomain>(instance: &HuboInstance<V>, x: Seq<bool>)
    requires
        instance.wf(),
        instance.fits(),
        x.len() == instance.n(),
    ensures
        instance.evaluable(x),
        i64::MIN <= instance.objective(x) <= i64::MAX,
{
    term::lemma_poly_range(V::tag(), instance.terms@, x);
    assert forall|k: int| 0 <= k <= instance.terms@.len() implies i64::MIN <= instance.offset
        + #[trigger] term::poly(V::tag(), instance.terms@.take(k), x) <= i64::MAX by {
        term::lemma_poly_range(V::tag(), instance.terms@.take(k), x);
        term::lemma_abs_sum_take(instance.terms@, k);
    }
}

impl Walk {
    /// The walk is over assignments of the instance and up to date.
    pub open spec fn wf<V: VarDomain>(&self, instance: &HuboInstance<V>) -> bool {
        &&& self.sol@.len() == instance.n()
        &&& self.obj == instance.objective(self.sol@)
        &&& self.term_state.tracks(V::tag(), instance.terms@, self.sol@)
        &&& instance.cached(&self.delta_cache, self.sol@)
    }

    /// Start at an assignment.
    pub fn from_solution<V: VarDomain>(instance: &HuboInstance<V>, sol: BitSolution) -> (r: Self)
        requires
            instance.wf(),
            instance.fits(),
            sol@.len() == instance.n(),
        ensures
            r.wf(instance),
            r.sol@ == sol@,
            r.obj == instance.objective(sol@),
    {
        proof {
            lemma_objective_fits(instance, sol@);
        }
        let term_state = instance.init_term_state(&sol);
        let delta_cache = instance.init_delta_cache(&sol, &term_state);
        let obj: i64 = sol.evaluate(instance);
        Walk { sol, obj, term_state, delta_cache }
    }

    /// The objective change of flipping `v`.
    pub fn delta<V: VarDomain>(&self, instance: &HuboInstance<V>, v: usize) -> (r: i64)
        requires
            self.wf(instance),
            v < self.sol@.len(),
        ensures
            r == instance.flip_change(self.sol@, v as int),
    {
        self.delta_cache.deltas[v]
    }

    /// Flip `v`.
    pub fn flip<V: VarDomain>(&mut self, instance: &HuboInstance<V>, v: usize)
        requires
            instance.wf(),
            instance.fits(),
            old(self).wf(instance),
            v < old(self).sol@.len(),
        ensures
            final(self).wf(instance),
            final(self).sol@ == solution::flipped(old(self).sol@, v as int),
            final(self).obj == instance.objective(final(self).sol@),
            final(self).obj == old(self).obj + instance.flip_change(old(self).sol@, v as int),
    {
        let ghost x = self.sol@;
        let delta: i64 = self.delta_cache.deltas[v];
        proof {
            lemma_objective_fits(instance, solution::flipped(x, v as int));
        }
        instance.flip_with_term_state(v, &mut self.sol, &mut self.term_state);
        self.obj = self.obj + delta;
        proof {
            assert(solution::flipped(self.sol@, v as int) =~= x);
        }
        instance.update_delta_cache_after_flip(
            v,
            &self.sol,
            &self.term_state,
            &mut self.delta_cache,
        );
    }

    /// The first variable whose flip improves most.
    pub fn steepest<V: VarDomain>(&self, instance: &HuboInstance<V>) -> (r: Option<usize>)
        requires
            self.wf(instance),
        ensures
            is_steepest(instance, self.sol@, r),
    {
        let ghost x = self.sol@;
        let n: usize = self.delta_cache.deltas.len();
        let mut best: Option<usize> = None;
        let mut best_delta: i64 = 0;
        let mut v: usize = 0;
        while v < n
            invariant
                v <= n,
                n == x.len(),
                x == self.sol@,
                self.wf(instance),
                best is None ==> best_delta == 0,
                best matches Some(b) ==> b < v && best_delta == instance.flip_change(x, b as int)
                    && best_delta < 0 && forall|u: int|
                    0 <= u < b ==> best_delta < #[trigger] instance.flip_change(x, u),
                forall|u: int| 0 <= u < v ==> best_delta <= #[trigger] instance.flip_change(x, u),
            decreases n - v,
        {
            let d: i64 = self.delta_cache.deltas[v];
            assert(d == instance.flip_change(x, v as int));
            if d < best_delta {
                best_delta = d;
                best = Some(v);
            }
            v += 1;
        }
        best
    }

    /// Descend by steepest flips to a local minimum.
    pub fn descend<V: VarDomain>(&mut self, instance: &HuboInstance<V>)
        requires
            instance.wf(),
            instance.fits(),
            old(self).wf(instance),
        ensures
            final(self).wf(instance),
            is_local_minimum(instance, final(self).sol@),
            exists|path: Seq<Seq<bool>>| #[trigger]
                is_descent(instance, path, old(self).sol@, final(self).sol@),
    {
        let ghost x0 = self.sol@;
        let ghost mut path: Seq<Seq<bool>> = seq![self.sol@];
        assert(is_descent(instance, path, x0, self.sol@));
        loop
            invariant_except_break
                is_descent(instance, path, x0, self.sol@),
            invariant
                instance.wf(),
                instance.fits(),
                self.wf(instance),
            ensures
                is_descent(instance, path, x0, self.sol@),
                is_local_minimum(instance, self.sol@),
            decreases self.obj - i64::MIN,
        {
            let ghost here = self.sol@;
            match self.steepest(instance) {
                None => {
                    break;
                },
                Some(v) => {
                    self.flip(instance, v);
                    proof {
                        assert(is_steepest(instance, here, Some(v)));
                        assert(is_steepest_step(instance, here, self.sol@));
                        let p0 = path;
                        path = path.push(self.sol@);
                        assert forall|i: int| 0 < i < path.len() implies is_steepest_step(
                            instance,
                            path[i - 1],
                            #[trigger] path[i],
                        ) by {
                            if i < p0.len() {
                                assert(is_steepest_step(instance, p0[i - 1], p0[i]));
                            }
                        }
                    }
                },
            }
        }
    }
}

/// `y` is `x` after its steepest flip.
pub open spec fn is_steepest_step<V: VarDomain>(
    instance: &HuboInstance<V>,
    x: Seq<bool>,
    y: Seq<bool>,
) -> bool {
    exists|v: usize| #[trigger]
        is_steepest(instance, x, Some(v)) && y == solution::flipped(x, v as int)
}

/// Each assignment of the path is the one before it after its steepest flip.
pub open spec fn is_descent<V: VarDomain>(
    instance: &HuboInstance<V>,
    path: Seq<Seq<bool>>,
    x: Seq<bool>,
    y: Seq<bool>,
) -> bool {
    &&& path.len() > 0
    &&& path[0] == x
    &&& path.last() == y
    &&& forall|i: int|
        0 < i < path.len() ==> is_steepest_step(instance, path[i - 1], #[trigger] path[i])
}

/// The best assignment met so far.
pub struct Incumbent {
    pub obj: i64,
    pub sol: Option<BitSolution>,
}

impl Incumbent {
    /// The objective belongs to the assignment.
    pub open spec fn wf<V: VarDomain>(&self, instance: &HuboInstance<V>) -> bool {
        match self.sol {
            None => self.obj == i64::MAX,
            Some(s) => s@.len() == instance.n() && self.obj == instance.objective(s@),
        }
    }

    /// Nothing met yet.
    pub fn new() -> (r: Self)
        ensures
            r.sol is None,
            r.obj == i64::MAX,
    {
        Incumbent { obj: i64::MAX, sol: None }
    }

    /// Take the assignment of the walk if it is better; whether it was.
    pub fn offer<V: VarDomain>(&mut self, instance: &HuboInstance<V>, walk: &Walk) -> (r: bool)
        requires
            old(self).wf(instance),
            walk.wf(instance),
        ensures
            final(self).wf(instance),
            r == (walk.obj < old(self).obj),
            r ==> final(self).obj == walk.obj && (final(self).sol matches Some(s) && s@
                == walk.sol@),
            !r ==> *final(self) == *old(self),
    {
        if walk.obj < self.obj {
            self.obj = walk.obj;
            self.sol = Some(walk.sol.clone());
            true
        } else {
            false
        }
    }

    /// Whether the cutoff is reached.
    pub fn reaches(&self, cutoff: Option<i64>) -> (r: bool)
        ensures
            r == (cutoff matches Some(c) && self.obj <= c),
    {
        match cutoff {
            Some(c) => self.obj <= c,
            None => false,
        }
    }
}

} // verus!
