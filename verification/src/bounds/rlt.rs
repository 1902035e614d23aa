//! The linear relaxation of what is left of an instance.

use crate::active::ActiveTerms;
use crate::active;
use crate::bounds::lp;
use crate::bounds::product_lp::{ProductLp, Step};
use crate::bounds::product_lp;
use crate::domain::{VarDomain, VarType};
use crate::fixes::Fixes;
use crate::instance::HuboInstance;
use crate::lasserre;
use crate::restriction;
use crate::term::Term;
use crate::term;
use vstd::prelude::*;

verus! {

/// Parameters of the relaxation.
#[derive(Debug, Clone)]
pub struct RltConfig {
    /// With more free variables the termwise bound is taken.
    pub max_vars: usize,
}

impl Default for RltConfig {
    fn default() -> (r: Self)
        ensures
            r.max_vars == 200,
    {
        RltConfig { max_vars: 200 }
    }
}

/// The bound by the relaxation.
#[derive(Debug, Clone)]
pub struct RltLp(pub RltConfig);

impl Default for RltLp {
    fn default() -> (r: Self)
        ensures
            r.0.max_vars == 200,
    {
        RltLp(RltConfig::default())
    }
}

/// A bound that is known, or a linear program: its optimum plus `offset` is a
/// bound, and `fallback` is one that needs no solving.
pub enum LinearBound {
    Known(i64),
    Program { offset: i64, fallback: i64, lp: ProductLp },
}

proof fn lemma_floors_all(vt: VarType, terms: Seq<Term>, x: Seq<bool>, k: nat)
    requires
        k <= terms.len(),
    ensures
        -term::abs_sum(terms.take(k as int)) <= lasserre::floors_above(vt, terms, 0, k) <= 0,
        term::abs_sum(terms.take(k as int)) <= term::abs_sum(terms),
        (forall|i: int| 0 <= i < terms.len() ==> (#[trigger] terms[i]).indices@.len() > 0)
            ==> lasserre::floors_above(vt, terms, 0, k) <= term::poly(
            vt,
            terms.take(k as int),
            x,
        ),
    decreases k,
{
    term::lemma_abs_sum_take(terms, k as int);
    if k == 0 {
        assert(terms.take(0) =~= Seq::empty());
    } else {
        lemma_floors_all(vt, terms, x, (k - 1) as nat);
        assert(terms.take(k as int).drop_last() =~= terms.take(k - 1));
        let t = terms[k - 1];
        lasserre::lemma_term_floor(vt, t.indices@, t.coeff as int, x);
    }
}

/// The offset plus the least values of all terms.
pub fn termwise_bound(var_type: VarType, a: &ActiveTerms) -> (r: i64)
    requires
        active::is_tidy(a.base_offset, a.terms@, a.free_globals@.len()),
    ensures
        r == a.base_offset + lasserre::floors_above(var_type, a.terms@, 0, a.terms@.len()),
{
    let ghost terms = a.terms@;
    let ghost x = Seq::<bool>::empty();
    let mut sum: i64 = a.base_offset;
    let mut k: usize = 0;
    while k < a.terms.len()
        invariant
            k <= terms.len(),
            terms == a.terms@,
            active::is_tidy(a.base_offset, terms, a.free_globals@.len()),
            sum == a.base_offset + lasserre::floors_above(var_type, terms, 0, k as nat),
        decreases terms.len() - k,
    {
        proof {
            active::lemma_coeff_fits(terms, k as int);
            lemma_floors_all(var_type, terms, x, k as nat);
            lemma_floors_all(var_type, terms, x, (k + 1) as nat);
            active::lemma_abs_sum_nonneg(terms);
            assert(active::is_tidy_list(terms[k as int].indices@, a.free_globals@.len()));
        }
        sum = sum + lasserre::termwise_min(a.terms[k].coeff, var_type);
        k += 1;
    }
    sum
}

/// No variable of a program is fixed.
pub fn all_free(n: usize) -> (r: Vec<Option<bool>>)
    ensures
        r@ == lp::nothing_fixed(n as nat),
{
    let mut r: Vec<Option<bool>> = Vec::new();
    while r.len() < n
        invariant
            r@.len() <= n,
            forall|i: int| 0 <= i < r@.len() ==> #[trigger] r@[i] is None,
        decreases n - r@.len(),
    {
        r.push(None);
    }
    assert(r@ =~= lp::nothing_fixed(n as nat));
    r
}

/// A bound of what is left: the offset when no term is left, the termwise bound
/// when the program would be too large, else a program over products that cover
/// the terms.
pub open spec fn is_linear_bound(
    vt: VarType,
    a: &ActiveTerms,
    too_large: bool,
    steps: Seq<Step>,
    r: LinearBound,
) -> bool {
    let floor = a.base_offset + lasserre::floors_above(vt, a.terms@, 0, a.terms@.len());
    if a.terms@.len() == 0 {
        r matches LinearBound::Known(b) && b == a.base_offset
    } else if too_large {
        r matches LinearBound::Known(b) && b == floor
    } else {
        &&& r matches LinearBound::Program { offset, fallback, lp }
        &&& offset == a.base_offset
        &&& fallback == floor
        &&& lp.n_vars == a.free_globals@.len()
        &&& product_lp::is_product_lp(
            vt,
            a.terms@,
            lp::nothing_fixed(a.free_globals@.len()),
            steps,
            &lp,
        )
    }
}

/// The relaxation of an instance under fixes: a program over the beginnings of
/// the terms, each built from the one before.
pub open spec fn is_rlt_bound<V: VarDomain>(
    instance: &HuboInstance<V>,
    g: Seq<Option<bool>>,
    max_vars: usize,
    r: LinearBound,
) -> bool {
    exists|a: ActiveTerms, prefixes: Seq<Vec<usize>>, steps: Seq<Step>|
        #[trigger] is_rlt_over(instance, g, max_vars, r, &a, prefixes, steps)
}

/// The relaxation over these products and steps.
pub open spec fn is_rlt_over<V: VarDomain>(
    instance: &HuboInstance<V>,
    g: Seq<Option<bool>>,
    max_vars: usize,
    r: LinearBound,
    a: &ActiveTerms,
    prefixes: Seq<Vec<usize>>,
    steps: Seq<Step>,
) -> bool {
    let n = a.free_globals@.len();
    &&& active::is_active_part(instance, g, a)
    &&& active::is_tidy(a.base_offset, a.terms@, n)
    &&& lp::are_prefixes(a.terms@, prefixes)
    &&& is_linear_bound(
        V::tag(),
        a,
        n > max_vars || n + prefixes.len() > usize::MAX,
        steps,
        r,
    )
    &&& r matches LinearBound::Program { offset, fallback, lp } ==> {
        &&& lp.products@ == prefixes
        &&& steps.len() == prefixes.len()
        &&& forall|i: int|
            0 <= i < steps.len() ==> lp::is_chain_step(n as int, prefixes, i, #[trigger] steps[i])
    }
}

/// The relaxation of an instance under fixes.
pub fn rlt_relaxation<V: VarDomain>(
    instance: &HuboInstance<V>,
    fixes: &Fixes,
    cfg: &RltConfig,
) -> (r: LinearBound)
    requires
        instance.wf(),
        instance.fits(),
        fixes.wf(),
    ensures
        is_rlt_bound(instance, fixes@, cfg.max_vars, r),
{
    let vt: VarType = V::var_type();
    let a = active::active_terms(instance, fixes);
    let n: usize = a.free_globals.len();
    let prefixes = lp::prefixes_of(&a.terms);
    if a.terms.len() == 0 {
        let r = LinearBound::Known(a.base_offset);
        assert(is_rlt_over(instance, fixes@, cfg.max_vars, r, &a, prefixes@, Seq::empty()));
        return r;
    }
    let fallback: i64 = termwise_bound(vt, &a);
    if n > cfg.max_vars || prefixes.len() > usize::MAX - n {
        let r = LinearBound::Known(fallback);
        assert(is_rlt_over(instance, fixes@, cfg.max_vars, r, &a, prefixes@, Seq::empty()));
        return r;
    }
    let steps = lp::chain_steps(n, &a.terms, &prefixes);
    let fixed = all_free(n);
    proof {
        lp::lemma_prefixes_below(n as nat, a.terms@, prefixes@);
        active::lemma_abs_sum_nonneg(a.terms@);
    }
    let ghost pv = prefixes@;
    let offset: i64 = a.base_offset;
    let lp = product_lp::assemble(vt, &a.terms, &fixed, prefixes, &steps);
    let r = LinearBound::Program { offset, fallback, lp };
    assert(is_rlt_over(instance, fixes@, cfg.max_vars, r, &a, pv, steps@));
    r
}

/// `r` bounds the objective of every completion of the fixes: a known bound and a
/// fallback are at most the objective, and the completion is a feasible point of
/// the program whose cost plus the constant is the objective.
pub open spec fn relaxes<V: VarDomain>(
    instance: &HuboInstance<V>,
    r: LinearBound,
    y: Seq<bool>,
    objective: int,
) -> bool {
    match r {
        LinearBound::Known(b) => b <= objective,
        LinearBound::Program { offset, fallback, lp } => {
            let p = product_lp::point_of(V::tag(), lp.n_vars as nat, lp.products@, y);
            &&& fallback <= objective
            &&& forall|c: int|
                0 <= c < p.len() ==> lp.lower@[c] <= #[trigger] p[c] <= lp.upper@[c]
            &&& forall|i: int|
                0 <= i < lp.rows@.len() ==> product_lp::meets(#[trigger] lp.rows@[i], p)
            &&& offset + product_lp::cost_at(lp.cost@, p, p.len()) == objective
        },
    }
}

/// A linear bound of the active part relaxes the objective of the extensions by
/// the fixes.
pub proof fn linear_bound_relaxes<V: VarDomain>(
    instance: &HuboInstance<V>,
    g: Seq<Option<bool>>,
    a: &ActiveTerms,
    too_large: bool,
    steps: Seq<Step>,
    r: LinearBound,
    y: Seq<bool>,
)
    requires
        instance.wf(),
        instance.fits(),
        instance.n() <= usize::MAX,
        active::is_active_part(instance, g, a),
        active::is_tidy(a.base_offset, a.terms@, a.free_globals@.len()),
        is_linear_bound(V::tag(), a, too_large, steps, r),
        y.len() == a.free_globals@.len(),
    ensures
        relaxes(
            instance,
            r,
            y,
            instance.objective(
                restriction::lifted(restriction::fixes_of(g, instance.n() as int), y),
            ),
        ),
{
    active::active_part_keeps_objective(instance, g, a, y);
    let terms = a.terms@;
    assert forall|i: int| 0 <= i < terms.len() implies (#[trigger] terms[i]).indices@.len() > 0 by {
        assert(active::is_tidy_list(terms[i].indices@, a.free_globals@.len()));
    }
    lemma_floors_all(V::tag(), terms, y, terms.len());
    assert(terms.take(terms.len() as int) =~= terms);
    if let LinearBound::Program { offset, fallback, lp } = r {
        let fixed = lp::nothing_fixed(a.free_globals@.len());
        assert(crate::node::extends(y, fixed));
        product_lp::assignment_is_feasible(V::tag(), terms, fixed, steps, &lp, y);
    }
}

/// The relaxation bounds the objective of every extension by the fixes.
pub proof fn rlt_is_relaxation<V: VarDomain>(
    instance: &HuboInstance<V>,
    g: Seq<Option<bool>>,
    max_vars: usize,
    r: LinearBound,
    y: Seq<bool>,
)
    requires
        instance.wf(),
        instance.fits(),
        instance.n() <= usize::MAX,
        is_rlt_bound(instance, g, max_vars, r),
        y.len() == crate::fixes::free_vars(
            restriction::fixes_of(g, instance.n() as int),
        ).len(),
    ensures
        relaxes(
            instance,
            r,
            y,
            instance.objective(
                restriction::lifted(restriction::fixes_of(g, instance.n() as int), y),
            ),
        ),
{
    let (a, prefixes, steps) = choose|a: ActiveTerms, prefixes: Seq<Vec<usize>>, steps: Seq<Step>|
        #[trigger] is_rlt_over(instance, g, max_vars, r, &a, prefixes, steps);
    let n = a.free_globals@.len();
    linear_bound_relaxes(
        instance,
        g,
        &a,
        n > max_vars || n + prefixes.len() > usize::MAX,
        steps,
        r,
        y,
    );
}

} // verus!
