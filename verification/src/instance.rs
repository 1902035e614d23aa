//! Core instance type.

use crate::coeff;
use crate::delta;
use crate::domain::{Bin, Spin, VarDomain, VarType};
use crate::domain;
use crate::fixes::Fixes;
use crate::granularity;
use crate::merge::KeySum;
use crate::solution::BitSolution;
use crate::solution;
use crate::state::{DeltaCache, TermState};
use crate::term::Term;
use crate::term;
use std::marker::PhantomData;
use vstd::prelude::*;

verus! {

/// A polynomial objective over the variables of a domain.
#[derive(Debug)]
pub struct HuboInstance<V> {
    pub offset: i64,
    pub terms: Vec<Term>,
    /// For each variable, the terms that list it.
    pub var_terms: Vec<Vec<usize>>,
    /// Spacing of the objective grid, where one is known.
    pub objective_granularity: Option<i64>,
    /// One attainable objective value, the residue of the grid.
    pub objective_grid_base: i64,
    pub domain: PhantomData<V>,
}

/// An instance of either domain.
#[derive(Debug)]
pub enum HuboInstanceEnum {
    Bin(HuboInstance<Bin>),
    Spin(HuboInstance<Spin>),
}

/// The terms among the first `k` that list `v`, once per occurrence.
pub open spec fn incidence(terms: Seq<Term>, v: usize, k: nat) -> Seq<usize>
    decreases k,
{
    if k == 0 {
        Seq::empty()
    } else {
        incidence(terms, v, (k - 1) as nat) + Seq::new(
            domain::occurrences(terms[k - 1].indices@, v),
            |i: int| (k - 1) as usize,
        )
    }
}

/// The incidence lists of `terms`.
pub open spec fn is_incidence(terms: Seq<Term>, lists: Seq<Vec<usize>>) -> bool {
    forall|v: int|
        0 <= v < lists.len() ==> #[trigger] lists[v]@ == incidence(terms, v as usize, terms.len())
}

/// The sum of all fields acting on `v`: for each term that lists `v`, its
/// coefficient times the product of the term's other variables.
pub open spec fn field_sum(vt: VarType, terms: Seq<Term>, x: Seq<bool>, v: usize) -> int
    decreases terms.len(),
{
    if terms.len() == 0 {
        0
    } else {
        field_sum(vt, terms.drop_last(), x, v) + (if terms.last().indices@.contains(v) {
            terms.last().coeff * term::monomial(vt, domain::without(terms.last().indices@, v), x)
        } else {
            0
        })
    }
}

/// The value of an objective at a complete assignment.
pub open spec fn value_at(vt: VarType, offset: i64, terms: Seq<Term>, x: Seq<bool>) -> int {
    offset + term::poly(vt, terms, x)
}

/// Every partial sum of an objective at `x` fits a coefficient.
pub open spec fn sums_fit(vt: VarType, offset: i64, terms: Seq<Term>, x: Seq<bool>) -> bool {
    &&& term::terms_below(terms, x.len() as int)
    &&& forall|k: int|
        0 <= k <= terms.len() ==> i64::MIN <= offset + #[trigger] term::poly(vt, terms.take(k), x)
            <= i64::MAX
}

impl<V> HuboInstance<V> {
    /// The number of variables.
    pub open spec fn n(&self) -> int {
        self.var_terms@.len() as int
    }

    /// The terms list existing variables, each at most once per term, and the
    /// incidence lists are theirs.
    pub open spec fn wf(&self) -> bool {
        &&& term::terms_below(self.terms@, self.n())
        &&& term::terms_distinct(self.terms@)
        &&& is_incidence(self.terms@, self.var_terms@)
    }

    /// Every objective value and every change by a flip fits a coefficient.
    pub open spec fn fits(&self) -> bool {
        term::abs(self.offset as int) + 2 * term::abs_sum(self.terms@) <= i64::MAX
    }
}

impl<V: VarDomain> HuboInstance<V> {
    /// The objective value of a complete assignment.
    pub open spec fn objective(&self, x: Seq<bool>) -> int {
        value_at(V::tag(), self.offset, self.terms@, x)
    }

    /// Every partial sum of the objective at `x` fits a coefficient.
    pub open spec fn evaluable(&self, x: Seq<bool>) -> bool {
        sums_fit(V::tag(), self.offset, self.terms@, x)
    }

    /// The grid fields describe the objective's grid.
    pub open spec fn grid_wf(&self) -> bool {
        &&& granularity::granularity_result(V::tag(), self.terms@, self.objective_granularity)
        &&& self.objective_grid_base == granularity::grid_base(
            V::tag(),
            self.offset as int,
            self.terms@,
        )
    }

    /// Build an instance; the incidence lists are computed.
    pub fn new(n_vars: usize, offset: i64, terms: Vec<Term>) -> (r: Self)
        requires
            term::terms_below(terms@, n_vars as int),
            granularity::grid_base_fits(V::tag(), offset as int, terms@),
        ensures
            r.offset == offset,
            r.terms == terms,
            r.n() == n_vars,
            is_incidence(terms@, r.var_terms@),
            r.grid_wf(),
            term::terms_distinct(terms@) ==> r.wf(),
    {
        let var_terms = Self::build_var_terms(n_vars, terms.as_slice());
        Self::from_parts(n_vars, offset, terms, var_terms)
    }

    /// Build an instance with given incidence lists.
    pub fn from_parts(
        n_vars: usize,
        offset: i64,
        terms: Vec<Term>,
        var_terms: Vec<Vec<usize>>,
    ) -> (r: Self)
        requires
            var_terms@.len() == n_vars,
            granularity::grid_base_fits(V::tag(), offset as int, terms@),
        ensures
            r.offset == offset,
            r.terms == terms,
            r.var_terms == var_terms,
            r.grid_wf(),
    {
        let objective_granularity = V::objective_granularity(terms.as_slice());
        let objective_grid_base: i64 = V::objective_grid_base(offset, terms.as_slice());
        HuboInstance {
            offset,
            terms,
            var_terms,
            objective_granularity,
            objective_grid_base,
            domain: PhantomData,
        }
    }

    /// Round a lower bound up to the next attainable grid value.
    pub fn round_lower_bound_to_objective_grid(&self, lb: i64) -> (r: i64)
        ensures
            r == rounded_bound(self.objective_granularity, self.objective_grid_base, lb),
    {
        match self.objective_granularity {
            Some(g) => coeff::ceil_to_grid(lb, self.objective_grid_base, g),
            None => lb,
        }
    }

    /// The domain's tag.
    pub fn var_type(&self) -> (r: VarType)
        ensures
            r == V::tag(),
    {
        V::var_type()
    }

    /// The number of variables.
    pub fn n_vars(&self) -> (r: usize)
        ensures
            r == self.n(),
    {
        self.var_terms.len()
    }

    /// The number of terms.
    pub fn n_terms(&self) -> (r: usize)
        ensures
            r == self.terms@.len(),
    {
        self.terms.len()
    }

    /// For each variable the terms that list it.
    pub fn build_var_terms(n_vars: usize, terms: &[Term]) -> (r: Vec<Vec<usize>>)
        requires
            term::terms_below(terms@, n_vars as int),
        ensures
            r@.len() == n_vars,
            is_incidence(terms@, r@),
    {
        let mut lists: Vec<Vec<usize>> = Vec::new();
        while lists.len() < n_vars
            invariant
                lists@.len() <= n_vars,
                forall|v: int| 0 <= v < lists@.len() ==> #[trigger] lists@[v]@.len() == 0,
            decreases n_vars - lists@.len(),
        {
            lists.push(Vec::new());
        }
        let mut ti: usize = 0;
        assert forall|v: int| 0 <= v < lists@.len() implies #[trigger] lists@[v]@ == incidence(
            terms@,
            v as usize,
            0,
        ) by {
            assert(lists@[v]@ =~= Seq::empty());
        }
        while ti < terms.len()
            invariant
                ti <= terms@.len(),
                term::terms_below(terms@, n_vars as int),
                lists@.len() == n_vars,
                forall|v: int|
                    0 <= v < n_vars ==> #[trigger] lists@[v]@ == incidence(
                        terms@,
                        v as usize,
                        ti as nat,
                    ),
            decreases terms@.len() - ti,
        {
            let ghost idx = terms@[ti as int].indices@;
            let mut p: usize = 0;
            assert(term::indices_below(idx, n_vars as int));
            assert forall|v: int| 0 <= v < n_vars implies #[trigger] lists@[v]@ == incidence(
                terms@,
                v as usize,
                ti as nat,
            ) + Seq::new(domain::occurrences(idx.take(0), v as usize), |i: int| ti) by {
                assert(idx.take(0) =~= Seq::empty());
                assert(lists@[v]@ =~= lists@[v]@ + Seq::new(0, |i: int| ti));
            }
            while p < terms[ti as usize].indices.len()
                invariant
                    ti < terms@.len(),
                    idx == terms@[ti as int].indices@,
                    p <= idx.len(),
                    term::indices_below(idx, n_vars as int),
                    lists@.len() == n_vars,
                    forall|v: int|
                        0 <= v < n_vars ==> #[trigger] lists@[v]@ == incidence(
                            terms@,
                            v as usize,
                            ti as nat,
                        ) + Seq::new(
                            domain::occurrences(idx.take(p as int), v as usize),
                            |i: int| ti,
                        ),
                decreases idx.len() - p,
            {
                let v: usize = terms[ti].indices[p];
                let ghost before = lists@;
                assert(idx.take(p + 1).drop_last() =~= idx.take(p as int));
                lists[v].push(ti);
                assert forall|u: int| 0 <= u < n_vars implies #[trigger] lists@[u]@ == incidence(
                    terms@,
                    u as usize,
                    ti as nat,
                ) + Seq::new(
                    domain::occurrences(idx.take(p + 1), u as usize),
                    |i: int| ti,
                ) by {
                    assert(before[u]@ == incidence(terms@, u as usize, ti as nat) + Seq::new(
                        domain::occurrences(idx.take(p as int), u as usize),
                        |i: int| ti,
                    ));
                    let m = domain::occurrences(idx.take(p as int), u as usize);
                    if u == v {
                        assert(lists@[u]@ == before[u]@.push(ti));
                        assert(Seq::new(m + 1, |i: int| ti) =~= Seq::new(m, |i: int| ti).push(ti));
                        assert(lists@[u]@ =~= incidence(terms@, u as usize, ti as nat) + Seq::new(
                            m + 1,
                            |i: int| ti,
                        ));
                    } else {
                        assert(lists@[u] == before[u]);
                    }
                }
                p += 1;
            }
            assert(idx.take(p as int) =~= idx);
            assert forall|v: int| 0 <= v < n_vars implies #[trigger] lists@[v]@ == incidence(
                terms@,
                v as usize,
                (ti + 1) as nat,
            ) by {
                assert(Seq::new(domain::occurrences(idx, v as usize), |i: int| ti) =~= Seq::new(
                    domain::occurrences(idx, v as usize),
                    |i: int| ((ti + 1) - 1) as usize,
                ));
            }
            ti += 1;
        }
        lists
    }

    /// The objective value of a bit-encoded assignment.
    pub fn evaluate_bitsol(&self, solution: &BitSolution) -> (r: i64)
        requires
            self.evaluable(solution@),
        ensures
            r == self.objective(solution@),
    {
        V::evaluate_bitsol(self, solution)
    }

    /// The term state of an assignment.
    pub fn init_term_state(&self, solution: &BitSolution) -> (r: TermState)
        requires
            term::terms_below(self.terms@, solution@.len() as int),
        ensures
            r.tracks(V::tag(), self.terms@, solution@),
    {
        V::init_term_state(self, solution)
    }

    /// The objective change of flipping `v`.
    pub open spec fn flip_change(&self, x: Seq<bool>, v: int) -> int {
        self.objective(solution::flipped(x, v)) - self.objective(x)
    }

    /// The objective change of flipping `var`.
    pub fn delta_from_term_state(
        &self,
        var: usize,
        solution: &BitSolution,
        term_state: &TermState,
    ) -> (r: i64)
        requires
            self.wf(),
            self.fits(),
            solution@.len() == self.n(),
            var < solution@.len(),
            term_state.tracks(V::tag(), self.terms@, solution@),
        ensures
            r == self.flip_change(solution@, var as int),
    {
        V::delta_from_term_state(self, var, solution, term_state)
    }

    /// The cache holds the objective change of every flip of `x`.
    pub open spec fn cached(&self, cache: &DeltaCache, x: Seq<bool>) -> bool {
        &&& cache.deltas@.len() == self.n()
        &&& cache.marks@.len() == self.n()
        &&& forall|v: int|
            0 <= v < self.n() ==> #[trigger] cache.deltas@[v] == self.flip_change(x, v)
    }

    /// The objective changes of all flips.
    pub fn init_delta_cache(&self, solution: &BitSolution, term_state: &TermState) -> (r: DeltaCache)
        requires
            self.wf(),
            self.fits(),
            solution@.len() == self.n(),
            term_state.tracks(V::tag(), self.terms@, solution@),
        ensures
            self.cached(&r, solution@),
    {
        let n: usize = self.n_vars();
        let mut deltas: Vec<i64> = Vec::new();
        let mut marks: Vec<u32> = Vec::new();
        let mut var: usize = 0;
        while var < n
            invariant
                var <= n,
                n == self.n(),
                self.wf(),
                self.fits(),
                solution@.len() == self.n(),
                term_state.tracks(V::tag(), self.terms@, solution@),
                deltas@.len() == var,
                marks@.len() == var,
                forall|v: int|
                    0 <= v < var ==> #[trigger] deltas@[v] == self.flip_change(solution@, v),
            decreases n - var,
        {
            deltas.push(self.delta_from_term_state(var, solution, term_state));
            marks.push(0);
            var += 1;
        }
        DeltaCache { deltas, marks, mark_epoch: 0 }
    }

    /// Refresh the cache after `flipped_var` was flipped: the variables that
    /// share a term with it, and itself.
    pub fn update_delta_cache_after_flip(
        &self,
        flipped_var: usize,
        solution: &BitSolution,
        term_state: &TermState,
        delta_cache: &mut DeltaCache,
    )
        requires
            self.wf(),
            self.fits(),
            solution@.len() == self.n(),
            flipped_var < solution@.len(),
            term_state.tracks(V::tag(), self.terms@, solution@),
            self.cached(old(delta_cache), solution::flipped(solution@, flipped_var as int)),
        ensures
            self.cached(final(delta_cache), solution@),
    {
        let n: usize = self.n_vars();
        let ghost before = solution::flipped(solution@, flipped_var as int);
        let mut epoch: u32 = delta_cache.mark_epoch.wrapping_add(1);
        if epoch == 0 {
            let mut v: usize = 0;
            while v < n
                invariant
                    v <= n,
                    n == self.n(),
                    self.cached(delta_cache, before),
                decreases n - v,
            {
                delta_cache.marks.set(v, 0);
                v += 1;
            }
            epoch = 1;
        }
        delta_cache.mark_epoch = epoch;
        delta_cache.marks.set(flipped_var, epoch);
        let ghost list = self.var_terms@[flipped_var as int]@;
        let n_terms: usize = self.terms.len();
        proof {
            delta::lemma_incidence(self.terms@, flipped_var, self.terms@.len());
        }
        let mut j: usize = 0;
        while j < self.var_terms[flipped_var].len()
            invariant
                self.wf(),
                n == self.n(),
                flipped_var < n,
                list == self.var_terms@[flipped_var as int]@,
                forall|q: int| 0 <= q < list.len() ==> (#[trigger] list[q]) < self.terms@.len(),
                j <= list.len(),
                self.cached(delta_cache, before),
                delta_cache.marks@[flipped_var as int] == epoch,
                forall|q: int, p: int|
                    #![trigger self.terms@[list[q] as int].indices@[p]]
                    0 <= q < j && 0 <= p < self.terms@[list[q] as int].indices@.len()
                        ==> delta_cache.marks@[self.terms@[list[q] as int].indices@[p] as int]
                        == epoch,
            decreases list.len() - j,
        {
            let ti: usize = self.var_terms[flipped_var][j];
            let ghost idx = self.terms@[ti as int].indices@;
            proof {
                assert(ti == list[j as int]);
                assert(term::indices_below(idx, self.n()));
            }
            let mut p: usize = 0;
            while p < self.terms[ti].indices.len()
                invariant
                    self.wf(),
                    n == self.n(),
                    flipped_var < n,
                    j < list.len(),
                    ti == list[j as int],
                    ti < self.terms@.len(),
                    idx == self.terms@[ti as int].indices@,
                    term::indices_below(idx, self.n()),
                    forall|q: int| 0 <= q < list.len() ==> (#[trigger] list[q]) < self.terms@.len(),
                    p <= idx.len(),
                    self.cached(delta_cache, before),
                    delta_cache.marks@[flipped_var as int] == epoch,
                    forall|q: int, p: int|
                        #![trigger self.terms@[list[q] as int].indices@[p]]
                        0 <= q < j && 0 <= p < self.terms@[list[q] as int].indices@.len()
                            ==> delta_cache.marks@[self.terms@[list[q] as int].indices@[p] as int]
                            == epoch,
                    forall|i: int|
                        0 <= i < p ==> delta_cache.marks@[#[trigger] idx[i] as int] == epoch,
                decreases idx.len() - p,
            {
                let v: usize = self.terms[ti].indices[p];
                assert(v == idx[p as int]);
                let ghost old_marks = delta_cache.marks@;
                delta_cache.marks.set(v, epoch);
                assert forall|q: int, i: int|
                    #![trigger self.terms@[list[q] as int].indices@[i]]
                    0 <= q < j && 0 <= i
                        < self.terms@[list[q] as int].indices@.len() implies delta_cache.marks@[self.terms@[list[q] as int].indices@[i] as int]
                    == epoch by {
                    let other = self.terms@[list[q] as int].indices@;
                    assert(term::indices_below(other, self.n()));
                    assert(other[i] < self.n());
                    assert(old_marks[other[i] as int] == epoch);
                }
                p += 1;
            }
            j += 1;
        }
        let mut var: usize = 0;
        while var < n
            invariant
                var <= n,
                n == self.n(),
                self.wf(),
                self.fits(),
                solution@.len() == self.n(),
                flipped_var < n,
                term_state.tracks(V::tag(), self.terms@, solution@),
                list == self.var_terms@[flipped_var as int]@,
                list == incidence(self.terms@, flipped_var, self.terms@.len()),
                n_terms == self.terms@.len(),
                before == solution::flipped(solution@, flipped_var as int),
                delta_cache.deltas@.len() == n,
                delta_cache.marks@.len() == n,
                delta_cache.marks@[flipped_var as int] == epoch,
                forall|q: int, p: int|
                    #![trigger self.terms@[list[q] as int].indices@[p]]
                    0 <= q < list.len() && 0 <= p < self.terms@[list[q] as int].indices@.len()
                        ==> delta_cache.marks@[self.terms@[list[q] as int].indices@[p] as int]
                        == epoch,
                forall|v: int|
                    0 <= v < var ==> #[trigger] delta_cache.deltas@[v] == self.flip_change(
                        solution@,
                        v,
                    ),
                forall|v: int|
                    var <= v < n ==> #[trigger] delta_cache.deltas@[v] == self.flip_change(
                        before,
                        v,
                    ),
            decreases n - var,
        {
            if delta_cache.marks[var] == epoch {
                let d: i64 = self.delta_from_term_state(var, solution, term_state);
                delta_cache.deltas.set(var, d);
            } else {
                proof {
                    assert forall|t: int|
                        0 <= t < self.terms@.len() implies !((#[trigger] self.terms@[t]).indices@.contains(
                        var,
                    ) && self.terms@[t].indices@.contains(flipped_var)) by {
                        if self.terms@[t].indices@.contains(flipped_var)
                            && self.terms@[t].indices@.contains(var) {
                            delta::lemma_incidence(self.terms@, flipped_var, self.terms@.len());
                            assert(list.contains(t as usize));
                            let q = choose|q: int| 0 <= q < list.len() && list[q] == t as usize;
                            let idx = self.terms@[list[q] as int].indices@;
                            let p = choose|p: int| 0 <= p < idx.len() && idx[p] == var;
                            assert(delta_cache.marks@[self.terms@[list[q] as int].indices@[p] as int]
                                == epoch);
                        }
                    }
                    lemma_far_flip(
                        V::tag(),
                        self.terms@,
                        solution@,
                        var as usize,
                        flipped_var,
                    );
                    assert(delta_cache.deltas@[var as int] == self.flip_change(before, var as int));
                }
            }
            var += 1;
        }
    }

    /// Flip `var` in the assignment and in its term state.
    pub fn flip_with_term_state(
        &self,
        var: usize,
        solution: &mut BitSolution,
        term_state: &mut TermState,
    )
        requires
            self.wf(),
            old(solution)@.len() == self.n(),
            var < old(solution)@.len(),
            old(term_state).tracks(V::tag(), self.terms@, old(solution)@),
        ensures
            final(solution)@ == solution::flipped(old(solution)@, var as int),
            final(term_state).tracks(V::tag(), self.terms@, final(solution)@),
    {
        V::flip_with_term_state(self, var, solution, term_state)
    }
}

/// The lower bound rounded to a grid, saturating at the largest coefficient.
pub open spec fn rounded_bound(granularity: Option<i64>, base: i64, lb: i64) -> int {
    match granularity {
        Some(g) => {
            let c = coeff::grid_ceil(lb as int, base as int, g as int);
            if c <= i64::MAX {
                c
            } else {
                i64::MAX as int
            }
        },
        None => lb as int,
    }
}

/// Flipping `v` does not change the effect of flipping `u` when no term lists
/// both.
proof fn lemma_far_flip(vt: VarType, terms: Seq<Term>, x: Seq<bool>, u: usize, v: usize)
    requires
        term::terms_below(terms, x.len() as int),
        u < x.len(),
        v < x.len(),
        u != v,
        forall|t: int|
            0 <= t < terms.len() ==> !((#[trigger] terms[t]).indices@.contains(u)
                && terms[t].indices@.contains(v)),
    ensures
        term::poly(vt, terms, solution::flipped(solution::flipped(x, v as int), u as int))
            - term::poly(vt, terms, solution::flipped(x, v as int)) == term::poly(
            vt,
            terms,
            solution::flipped(x, u as int),
        ) - term::poly(vt, terms, x),
    decreases terms.len(),
{
    if terms.len() > 0 {
        let p = terms.drop_last();
        let t = terms.last();
        assert(terms[terms.len() - 1] == t);
        assert forall|i: int| 0 <= i < p.len() implies #[trigger] p[i] == terms[i] by {}
        assert forall|i: int| 0 <= i < p.len() implies !((#[trigger] p[i]).indices@.contains(u)
            && p[i].indices@.contains(v)) by {
            assert(p[i] == terms[i]);
        }
        assert(term::terms_below(p, x.len() as int)) by {
            assert forall|i: int| 0 <= i < p.len() implies term::indices_below(
                #[trigger] p[i].indices@,
                x.len() as int,
            ) by {
                assert(p[i] == terms[i]);
            }
        }
        lemma_far_flip(vt, p, x, u, v);
        let y = solution::flipped(x, v as int);
        assert(term::indices_below(t.indices@, x.len() as int));
        if t.indices@.contains(u) {
            assert(!t.indices@.contains(v));
            delta::lemma_flip_absent(vt, t.indices@, x, v);
            let z = solution::flipped(x, u as int);
            assert(solution::flipped(y, u as int) =~= solution::flipped(z, v as int));
            delta::lemma_flip_absent(vt, t.indices@, z, v);
        } else {
            delta::lemma_flip_absent(vt, t.indices@, x, u);
            delta::lemma_flip_absent(vt, t.indices@, y, u);
        }
    }
}

impl HuboInstanceEnum {
    /// The domain's tag.
    pub fn var_type(&self) -> (r: VarType)
        ensures
            r == (match self {
                HuboInstanceEnum::Bin(_) => VarType::Bin,
                HuboInstanceEnum::Spin(_) => VarType::Spin,
            }),
    {
        match self {
            HuboInstanceEnum::Bin(_) => VarType::Bin,
            HuboInstanceEnum::Spin(_) => VarType::Spin,
        }
    }

    /// The number of variables.
    pub fn n_vars(&self) -> (r: usize)
        ensures
            r == (match self {
                HuboInstanceEnum::Bin(i) => i.n(),
                HuboInstanceEnum::Spin(i) => i.n(),
            }),
    {
        match self {
            HuboInstanceEnum::Bin(i) => i.n_vars(),
            HuboInstanceEnum::Spin(i) => i.n_vars(),
        }
    }

    /// The number of terms.
    pub fn n_terms(&self) -> (r: usize)
        ensures
            r == self.spec_terms().len(),
    {
        match self {
            HuboInstanceEnum::Bin(i) => i.n_terms(),
            HuboInstanceEnum::Spin(i) => i.n_terms(),
        }
    }

    /// The constant part of the objective.
    pub fn offset(&self) -> (r: i64)
        ensures
            r == (match self {
                HuboInstanceEnum::Bin(i) => i.offset,
                HuboInstanceEnum::Spin(i) => i.offset,
            }),
    {
        match self {
            HuboInstanceEnum::Bin(i) => i.offset,
            HuboInstanceEnum::Spin(i) => i.offset,
        }
    }

    /// The terms of the objective.
    pub open spec fn spec_terms(&self) -> Seq<Term> {
        match self {
            HuboInstanceEnum::Bin(i) => i.terms@,
            HuboInstanceEnum::Spin(i) => i.terms@,
        }
    }

    /// The terms of the objective.
    pub fn terms(&self) -> (r: &[Term])
        ensures
            r@ == self.spec_terms(),
    {
        match self {
            HuboInstanceEnum::Bin(i) => i.terms.as_slice(),
            HuboInstanceEnum::Spin(i) => i.terms.as_slice(),
        }
    }
}

} // verus!
