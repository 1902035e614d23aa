//! The terms of an instance over the variables that are not fixed.

use crate::delta;
use crate::domain::{VarDomain, VarType};
use crate::domain;
use crate::fixes::Fixes;
use crate::fixes;
use crate::instance::HuboInstance;
use crate::reduction;
use crate::restriction;
use crate::sets;
use crate::term::Term;
use crate::term;
use crate::views;
use vstd::prelude::*;

verus! {

/// An offset and terms over the free variables, which are numbered in order.
pub struct ActiveTerms {
    pub base_offset: i64,
    pub free_globals: Vec<usize>,
    pub terms: Vec<Term>,
}

/// The first `k` terms under fixes, those that keep a variable.
pub open spec fn active_views(
    vt: VarType,
    terms: Seq<Term>,
    g: Seq<Option<bool>>,
    map: Seq<usize>,
    k: nat,
) -> Seq<(Seq<usize>, i64)>
    decreases k,
{
    if k == 0 {
        Seq::empty()
    } else {
        let before = active_views(vt, terms, g, map, (k - 1) as nat);
        match domain::folded(vt, terms[k - 1].indices@, terms[k - 1].coeff as int, g, map) {
            Some(p) => if p.1.len() == 0 {
                before
            } else {
                before.push((reduction::reduced_form(vt, p.1), p.0 as i64))
            },
            None => before,
        }
    }
}

/// `a` has the terms of the instance under the fixes.
pub open spec fn is_active_part<V: VarDomain>(
    instance: &HuboInstance<V>,
    g: Seq<Option<bool>>,
    a: &ActiveTerms,
) -> bool {
    let f = restriction::fixes_of(g, instance.n() as int);
    let map = restriction::renaming(f);
    &&& a.free_globals@ == fixes::free_vars(f)
    &&& a.base_offset == instance.offset + restriction::folded_constant(
        V::tag(),
        instance.terms@,
        g,
        map,
    )
    &&& views::term_views(a.terms@) == active_views(
        V::tag(),
        instance.terms@,
        g,
        map,
        instance.terms@.len(),
    )
}

/// Nonempty ascending lists of variables below `m`, whose coefficients fit
/// together with the offset.
pub open spec fn is_tidy(base: i64, terms: Seq<Term>, m: nat) -> bool {
    &&& forall|i: int| 0 <= i < terms.len() ==> is_tidy_list((#[trigger] terms[i]).indices@, m)
    &&& term::abs(base as int) + 2 * term::abs_sum(terms) <= i64::MAX
}

/// A nonempty ascending list of variables below `m`.
pub open spec fn is_tidy_list(s: Seq<usize>, m: nat) -> bool {
    &&& s.len() > 0
    &&& sets::ascending(s)
    &&& forall|i: int| 0 <= i < s.len() ==> (#[trigger] s[i]) < m
}

proof fn lemma_reduced_tidy(vt: VarType, l: Seq<usize>, r: Seq<usize>, m: nat)
    requires
        domain::is_reduced_form(vt, l, r),
        l.no_duplicates(),
        l.len() > 0,
        term::indices_below(l, m as int),
    ensures
        is_tidy_list(r, m),
{
    delta::lemma_occurrences(l, l[0]);
    assert(l.contains(l[0]));
    assert(domain::survives(vt, l, l[0]));
    assert(r.contains(l[0]));
    assert forall|i: int| 0 <= i < r.len() implies (#[trigger] r[i]) < m by {
        let v = r[i];
        assert(r.contains(v));
        delta::lemma_occurrences(l, v);
        assert(l.contains(v));
        let q = choose|q: int| 0 <= q < l.len() && l[q] == v;
        assert(l[q] < m);
    }
}

/// The terms of the instance over the variables that are not fixed.
pub fn active_terms<V: VarDomain>(instance: &HuboInstance<V>, fixes: &Fixes) -> (r: ActiveTerms)
    requires
        instance.wf(),
        instance.fits(),
        fixes.wf(),
    ensures
        is_active_part(instance, fixes@, &r),
        is_tidy(r.base_offset, r.terms@, r.free_globals@.len()),
        r.free_globals@.len() <= instance.n(),
{
    let n: usize = instance.n_vars();
    let ghost g = fixes@;
    let ghost f = restriction::fixes_of(g, instance.n() as int);
    let ghost map = restriction::renaming(f);
    let ghost vt = V::tag();
    let mut free_globals: Vec<usize> = Vec::new();
    let mut old_to_new: Vec<usize> = Vec::new();
    let mut i: usize = 0;
    assert(f.take(0) =~= Seq::empty());
    while i < n
        invariant
            i <= n,
            n == instance.n(),
            fixes.wf(),
            g == fixes@,
            f == restriction::fixes_of(g, instance.n() as int),
            map == restriction::renaming(f),
            free_globals@ == fixes::free_vars(f.take(i as int)),
            free_globals@.len() <= i,
            old_to_new@ == map.take(i as int),
        decreases n - i,
    {
        assert(f.take(i + 1).drop_last() =~= f.take(i as int));
        assert(map.take(i + 1) =~= map.take(i as int).push(map[i as int]));
        if fixes.get(i).is_none() {
            old_to_new.push(free_globals.len());
            free_globals.push(i);
        } else {
            old_to_new.push(usize::MAX);
        }
        i += 1;
    }
    proof {
        assert(f.take(n as int) =~= f);
        assert(map.take(n as int) =~= map);
    }
    let ghost m = free_globals@.len();
    let mut base_offset: i64 = instance.offset;
    let mut terms: Vec<Term> = Vec::new();
    let mut k: usize = 0;
    proof {
        assert(instance.terms@.take(0) =~= Seq::empty());
        assert(views::term_views(terms@) =~= Seq::empty());
    }
    while k < instance.terms.len()
        invariant
            k <= instance.terms@.len(),
            n == instance.n(),
            instance.wf(),
            instance.fits(),
            fixes.wf(),
            vt == V::tag(),
            g == fixes@,
            f == restriction::fixes_of(g, instance.n() as int),
            map == restriction::renaming(f),
            old_to_new@ == map,
            m == fixes::free_vars(f).len(),
            base_offset == instance.offset + restriction::folded_constant(
                vt,
                instance.terms@.take(k as int),
                g,
                map,
            ),
            views::term_views(terms@) == active_views(vt, instance.terms@, g, map, k as nat),
            forall|i: int|
                0 <= i < terms@.len() ==> is_tidy_list((#[trigger] terms@[i]).indices@, m),
            term::abs(base_offset - instance.offset) + term::abs_sum(terms@) <= term::abs_sum(
                instance.terms@.take(k as int),
            ),
        decreases instance.terms@.len() - k,
    {
        let ghost terms0 = terms@;
        let ghost t = instance.terms@[k as int];
        proof {
            assert(instance.terms@.take(k + 1).drop_last() =~= instance.terms@.take(k as int));
            term::lemma_abs_sum_take(instance.terms@, (k + 1) as int);
            term::lemma_abs_sum_take(instance.terms@, k as int);
            assert(term::indices_below(t.indices@, instance.n() as int));
            assert(t.indices@.no_duplicates());
            assert forall|i: int| 0 <= i < f.len() implies #[trigger] fixes::fixed_at(g, i) == f[i] by {}
            restriction::lemma_free_renamed(t.indices@, f, g);
            lemma_abs_sum_nonneg(terms@);
            assert forall|i: int| 0 <= i < t.indices@.len() implies (#[trigger] t.indices@[i])
                < old_to_new@.len() by {
                assert(t.indices@[i] < instance.n());
            }
        }
        let folded = V::fold_term_under_fixes(
            instance.terms[k].indices.as_slice(),
            instance.terms[k].coeff,
            fixes,
            old_to_new.as_slice(),
        );
        if let Some((coeff, locals)) = folded {
            if locals.len() == 0 {
                base_offset = base_offset + coeff;
            } else {
                let vars = V::reduce_indices(locals.as_slice());
                proof {
                    reduction::lemma_reduced_form(vt, locals@, vars@);
                    lemma_reduced_tidy(vt, locals@, vars@, m);
                }
                terms.push(Term { indices: vars, coeff });
                proof {
                    assert(views::term_views(terms@) =~= views::term_views(terms0).push(
                        views::term_view(terms@[terms0.len() as int]),
                    ));
                    assert(terms@.drop_last() =~= terms0);
                }
            }
        }
        k += 1;
    }
    assert(instance.terms@.take(k as int) =~= instance.terms@);
    ActiveTerms { base_offset, free_globals, terms }
}

pub proof fn lemma_abs_sum_nonneg(terms: Seq<Term>)
    ensures
        term::abs_sum(terms) >= 0,
    decreases terms.len(),
{
    if terms.len() > 0 {
        lemma_abs_sum_nonneg(terms.drop_last());
    }
}

proof fn lemma_active_value(
    vt: VarType,
    terms: Seq<Term>,
    f: Seq<Option<bool>>,
    g: Seq<Option<bool>>,
    y: Seq<bool>,
    k: nat,
)
    requires
        k <= terms.len(),
        term::terms_below(terms, f.len() as int),
        f.len() <= usize::MAX,
        forall|i: int| 0 <= i < f.len() ==> #[trigger] fixes::fixed_at(g, i) == f[i],
        forall|i: int| 0 <= i < terms.len() ==> (#[trigger] terms[i]).coeff > i64::MIN,
    ensures
        term::poly(vt, terms.take(k as int), restriction::lifted(f, y))
            == restriction::folded_constant(
            vt,
            terms.take(k as int),
            g,
            restriction::renaming(f),
        ) + views::view_poly(vt, active_views(vt, terms, g, restriction::renaming(f), k), y),
    decreases k,
{
    let map = restriction::renaming(f);
    if k == 0 {
        assert(terms.take(0) =~= Seq::empty());
    } else {
        let k1 = (k - 1) as nat;
        lemma_active_value(vt, terms, f, g, y, k1);
        let t = terms[k1 as int];
        assert(terms.take(k as int).drop_last() =~= terms.take(k1 as int));
        assert(term::indices_below(t.indices@, f.len() as int));
        restriction::lemma_folded_value(vt, t.indices@, t.coeff as int, f, g, y);
        let before = active_views(vt, terms, g, map, k1);
        let after = active_views(vt, terms, g, map, k);
        match domain::folded(vt, t.indices@, t.coeff as int, g, map) {
            Some(p) => {
                if p.1.len() == 0 {
                    assert(term::monomial(vt, p.1, y) == 1);
                    assert(p.0 * 1 == p.0);
                } else {
                    let r = reduction::lemma_reduced_exists(vt, p.1, y);
                    reduction::lemma_reduced_form(vt, p.1, r);
                    assert(after.drop_last() =~= before);
                    assert(p.0 as i64 == p.0);
                }
            },
            None => {},
        }
    }
}

/// The active terms have the objective of the extension by the fixes at every
/// assignment of the free variables.
pub proof fn active_part_keeps_objective<V: VarDomain>(
    instance: &HuboInstance<V>,
    g: Seq<Option<bool>>,
    a: &ActiveTerms,
    y: Seq<bool>,
)
    requires
        instance.wf(),
        instance.fits(),
        instance.n() <= usize::MAX,
        is_active_part(instance, g, a),
    ensures
        a.base_offset + term::poly(V::tag(), a.terms@, y) == instance.objective(
            restriction::lifted(restriction::fixes_of(g, instance.n() as int), y),
        ),
{
    let f = restriction::fixes_of(g, instance.n() as int);
    let terms = instance.terms@;
    assert forall|i: int| 0 <= i < f.len() implies #[trigger] fixes::fixed_at(g, i) == f[i] by {}
    assert forall|i: int| 0 <= i < terms.len() implies (#[trigger] terms[i]).coeff > i64::MIN by {
        lemma_coeff_fits(terms, i);
    }
    lemma_active_value(V::tag(), terms, f, g, y, terms.len());
    assert(terms.take(terms.len() as int) =~= terms);
    views::lemma_term_views(V::tag(), a.terms@, y);
}

pub proof fn lemma_coeff_fits(terms: Seq<Term>, i: int)
    requires
        0 <= i < terms.len(),
    ensures
        term::abs(terms[i].coeff as int) <= term::abs_sum(terms),
    decreases terms.len(),
{
    lemma_abs_sum_nonneg(terms.drop_last());
    if i < terms.len() - 1 {
        lemma_coeff_fits(terms.drop_last(), i);
    }
}

} // verus!
