//! Search-tree nodes: an instance under a partial assignment.

use crate::delta;
use crate::domain::{VarDomain, VarType};
use crate::domain;
use crate::fixes::{FixError, Fixes};
use crate::fixes;
use crate::instance::HuboInstance;
use crate::restriction;
use crate::sets;
use crate::term::Term;
use crate::term;
use vstd::prelude::*;

verus! {

/// What is left of a term after some of its variables were fixed.
#[derive(Debug)]
pub struct PartiallyAssignedTerm {
    pub coeff: i64,
    pub free_variables: Vec<usize>,
}

impl Clone for PartiallyAssignedTerm {
    fn clone(&self) -> (r: Self)
        ensures
            r.coeff == self.coeff,
            r.free_variables@ == self.free_variables@,
    {
        PartiallyAssignedTerm {
            coeff: self.coeff,
            free_variables: self.free_variables.clone(),
        }
    }
}

impl PartiallyAssignedTerm {
    /// A term with no variable fixed.
    pub fn new(term: &Term) -> (r: Self)
        ensures
            r.coeff == term.coeff,
            r.free_variables@ == term.indices@,
    {
        PartiallyAssignedTerm { coeff: term.coeff, free_variables: term.indices.clone() }
    }
}

/// The multipliers of a term, by variable.
#[derive(Debug)]
pub struct TermPrices {
    pub term: usize,
    pub prices: Vec<(usize, i64)>,
}

/// A node of the search tree.
#[derive(Debug)]
pub struct Node {
    pub fixed: Fixes,
    pub lb: i64,
    /// The sum of the terms that the fixes made constant.
    pub offset: i64,
    /// What is left of each term; `None` once it is constant.
    pub term_status: Vec<Option<PartiallyAssignedTerm>>,
    /// A parity contradiction of the parent node, as term indices.
    pub core_hint: Option<Vec<usize>>,
    /// The multipliers that the last ascent on the terms ended at.
    pub prices: Option<Vec<TermPrices>>,
}

/// The coefficient of a term under fixes.
pub open spec fn fold_coeff(vt: VarType, idx: Seq<usize>, c: int, f: Seq<Option<bool>>) -> int {
    match vt {
        VarType::Bin => if domain::has_low(idx, f) {
            0
        } else {
            c
        },
        VarType::Spin => if domain::odd_lows(idx, f) {
            -c
        } else {
            c
        },
    }
}

/// The free variables of a list, in order.
pub open spec fn free_list(idx: Seq<usize>, f: Seq<Option<bool>>) -> Seq<usize>
    decreases idx.len(),
{
    if idx.len() == 0 {
        Seq::empty()
    } else if fixes::fixed_at(f, idx.last() as int) is None {
        free_list(idx.drop_last(), f).push(idx.last())
    } else {
        free_list(idx.drop_last(), f)
    }
}

/// `x` takes the fixed values.
pub open spec fn extends(x: Seq<bool>, f: Seq<Option<bool>>) -> bool {
    &&& x.len() == f.len()
    &&& forall|i: int| 0 <= i < f.len() && (#[trigger] f[i]) is Some ==> f[i] == Some(x[i])
}

/// The value of what is left of a term.
pub open spec fn status_value(vt: VarType, s: Option<PartiallyAssignedTerm>, x: Seq<bool>) -> int {
    match s {
        Some(p) => p.coeff * term::monomial(vt, p.free_variables@, x),
        None => 0,
    }
}

/// The value of what is left of all terms.
pub open spec fn residual(
    vt: VarType,
    s: Seq<Option<PartiallyAssignedTerm>>,
    x: Seq<bool>,
) -> int
    decreases s.len(),
{
    if s.len() == 0 {
        0
    } else {
        residual(vt, s.drop_last(), x) + status_value(vt, s.last(), x)
    }
}

/// The sum of the constant terms.
pub open spec fn resolved_sum(
    vt: VarType,
    terms: Seq<Term>,
    f: Seq<Option<bool>>,
    s: Seq<Option<PartiallyAssignedTerm>>,
) -> int
    decreases s.len(),
{
    if s.len() == 0 {
        0
    } else {
        resolved_sum(vt, terms, f, s.drop_last()) + (if s.last() is None {
            fold_coeff(
                vt,
                terms[s.len() - 1].indices@,
                terms[s.len() - 1].coeff as int,
                f,
            )
        } else {
            0
        })
    }
}

/// The status of one term describes it under the fixes.
pub open spec fn status_ok(
    vt: VarType,
    t: Term,
    f: Seq<Option<bool>>,
    s: Option<PartiallyAssignedTerm>,
) -> bool {
    match s {
        Some(p) => p.coeff == fold_coeff(vt, t.indices@, t.coeff as int, f)
            && p.free_variables@ == free_list(t.indices@, f),
        None => fold_coeff(vt, t.indices@, t.coeff as int, f) == 0 || free_list(
            t.indices@,
            f,
        ).len() == 0,
    }
}

/// The sum of the absolute coefficients that are left.
pub open spec fn status_abs(s: Seq<Option<PartiallyAssignedTerm>>) -> int
    decreases s.len(),
{
    if s.len() == 0 {
        0
    } else {
        status_abs(s.drop_last()) + (match s.last() {
            Some(p) => term::abs(p.coeff as int),
            None => 0,
        })
    }
}

/// Term `i` has been brought up to date if it is in `done`, and is as it was
/// otherwise.
spec fn progressed(
    vt: VarType,
    terms: Seq<Term>,
    g: Seq<Option<bool>>,
    s: Seq<Option<PartiallyAssignedTerm>>,
    s0: Seq<Option<PartiallyAssignedTerm>>,
    done: Seq<usize>,
    i: int,
) -> bool {
    if done.contains(i as usize) {
        status_ok(vt, terms[i], g, s[i])
    } else {
        s[i] == s0[i]
    }
}

impl Node {
    /// The node describes the instance under the node's fixes.
    pub open spec fn describes<V: VarDomain>(&self, instance: &HuboInstance<V>) -> bool {
        &&& self.fixed.wf()
        &&& self.core_hint matches Some(h) ==> h@.no_duplicates()
        &&& self.fixed@.len() == instance.n()
        &&& self.term_status@.len() == instance.terms@.len()
        &&& forall|i: int|
            0 <= i < instance.terms@.len() ==> status_ok(
                V::tag(),
                #[trigger] instance.terms@[i],
                self.fixed@,
                self.term_status@[i],
            )
        &&& self.offset == resolved_sum(
            V::tag(),
            instance.terms@,
            self.fixed@,
            self.term_status@,
        )
    }

    /// The root: no variable fixed.
    pub fn root<V: VarDomain>(instance: &HuboInstance<V>, lb: i64) -> (r: Self)
        requires
            instance.wf(),
        ensures
            r.describes(instance),
            r.lb == lb,
            r.offset == 0,
            r.core_hint is None,
            r.prices is None,
            r.fixed@ == Seq::new(instance.n() as nat, |i: int| None::<bool>),
            forall|i: int| 0 <= i < r.term_status@.len() ==> (#[trigger] r.term_status@[i]) is Some,
    {
        let n: usize = instance.n_vars();
        let fixed = Fixes::new(n);
        let mut term_status: Vec<Option<PartiallyAssignedTerm>> = Vec::new();
        let mut i: usize = 0;
        while i < instance.terms.len()
            invariant
                i <= instance.terms@.len(),
                term_status@.len() == i,
                forall|j: int|
                    0 <= j < i ==> (#[trigger] term_status@[j]) is Some
                        && term_status@[j]->0.coeff == instance.terms@[j].coeff
                        && term_status@[j]->0.free_variables@ == instance.terms@[j].indices@,
            decreases instance.terms@.len() - i,
        {
            term_status.push(Some(PartiallyAssignedTerm::new(&instance.terms[i])));
            i += 1;
        }
        proof {
            assert forall|j: int| 0 <= j < instance.terms@.len() implies status_ok(
                V::tag(),
                #[trigger] instance.terms@[j],
                fixed@,
                term_status@[j],
            ) by {
                let t = term_status@[j];
                assert(term::indices_below(instance.terms@[j].indices@, instance.n()));
                lemma_all_free(instance.terms@[j].indices@, fixed@);
            }
            lemma_no_resolved(V::tag(), instance.terms@, fixed@, term_status@);
        }
        Node { fixed, lb, offset: 0, term_status, core_hint: None, prices: None }
    }

    /// Fix one variable.
    pub fn set_variable<V: VarDomain>(
        &mut self,
        instance: &HuboInstance<V>,
        var: usize,
        high: bool,
    ) -> (r: Result<(), FixError>)
        requires
            instance.wf(),
            instance.fits(),
            old(self).describes(instance),
        ensures
            final(self).describes(instance),
            final(self).lb == old(self).lb,
            final(self).core_hint == old(self).core_hint,
            final(self).prices == old(self).prices,
            var >= old(self).fixed@.len() ==> (r matches Err(
                FixError::InvalidVariableIndex { index, n_vars },
            ) && index == var && n_vars == old(self).fixed@.len()),
            var < old(self).fixed@.len() && old(self).fixed@[var as int] == Some(!high) ==> (
            r matches Err(FixError::ConflictingFixes { index }) && index == var),
            var < old(self).fixed@.len() && old(self).fixed@[var as int] != Some(!high) ==> r is Ok
                && final(self).fixed@ == old(self).fixed@.update(var as int, Some(high)),
            r is Err ==> *final(self) == *old(self),
            forall|i: int|
                0 <= i < final(self).term_status@.len() ==> ((
                #[trigger] final(self).term_status@[i]) is None <==> old(self).term_status@[i]
                    is None || (old(self).fixed@ != final(self).fixed@
                    && instance.terms@[i].indices@.contains(var) && (fold_coeff(
                    V::tag(),
                    instance.terms@[i].indices@,
                    instance.terms@[i].coeff as int,
                    final(self).fixed@,
                ) == 0 || free_list(instance.terms@[i].indices@, final(self).fixed@).len() == 0))),
    {
        let ghost before = *self;
        let ghost f = self.fixed@;
        if let Some(value) = self.fixed.get(var) {
            if value == high {
                proof {
                    assert(f.update(var as int, Some(high)) =~= f);
                }
                return Ok(());
            }
        }
        let mut fixed = self.fixed.clone();
        let set = fixed.set(var, high);
        match set {
            Err(e) => {
                return Err(e);
            },
            Ok(_) => {},
        }
        self.fixed = fixed;
        let ghost g = self.fixed@;
        let ghost list = instance.var_terms@[var as int]@;
        let ghost terms = instance.terms@;
        let ghost s0 = self.term_status@;
        let n_terms: usize = instance.terms.len();
        proof {
            delta::lemma_incidence(terms, var, terms.len());
            assert forall|i: int|
                0 <= i < terms.len() && !list.contains(i as usize) implies status_ok(
                V::tag(),
                #[trigger] terms[i],
                g,
                s0[i],
            ) by {
                assert(!terms[i].indices@.contains(var));
                lemma_fold_absent(V::tag(), terms[i].indices@, terms[i].coeff as int, f, var, high);
                assert(status_ok(V::tag(), terms[i], f, s0[i]));
            }
            lemma_resolved_refix(V::tag(), terms, f, s0, var, high);
        }
        let mut j: usize = 0;
        while j < instance.var_terms[var].len()
            invariant
                instance.wf(),
                instance.fits(),
                n_terms == terms.len(),
                terms == instance.terms@,
                list == instance.var_terms@[var as int]@,
                var < f.len(),
                f.len() == instance.n(),
                f[var as int] is None,
                g == f.update(var as int, Some(high)),
                j <= list.len(),
                sets::ascending(list),
                forall|q: int|
                    0 <= q < list.len() ==> (#[trigger] list[q]) < terms.len()
                        && terms[list[q] as int].indices@.contains(var),
                self.fixed@ == g,
                self.fixed.wf(),
                self.lb == before.lb,
                self.core_hint == before.core_hint,
                self.prices == before.prices,
                self.term_status@.len() == terms.len(),
                s0.len() == terms.len(),
                forall|i: int|
                    0 <= i < terms.len() ==> #[trigger] progressed(
                        V::tag(),
                        terms,
                        g,
                        self.term_status@,
                        s0,
                        list.take(j as int),
                        i,
                    ),
                forall|i: int|
                    0 <= i < terms.len() ==> status_ok(V::tag(), #[trigger] terms[i], f, s0[i]),
                forall|i: int|
                    0 <= i < terms.len() ==> ((#[trigger] self.term_status@[i]) is None <==> s0[i]
                        is None || (list.take(j as int).contains(i as usize) && (fold_coeff(
                        V::tag(),
                        terms[i].indices@,
                        terms[i].coeff as int,
                        g,
                    ) == 0 || free_list(terms[i].indices@, g).len() == 0))),
                self.offset == resolved_sum(V::tag(), terms, g, self.term_status@),
            decreases list.len() - j,
        {
            let ti: usize = instance.var_terms[var][j];
            let ghost s1 = self.term_status@;
            let ghost t = terms[ti as int];
            proof {
                assert(ti == list[j as int]);
                assert(t.indices@.no_duplicates());
                assert(term::indices_below(t.indices@, instance.n()));
                sets::lemma_contains_take(list, j as int);
                assert(!list.take(j as int).contains(ti)) by {
                    if list.take(j as int).contains(ti) {
                        let q = choose|q: int| 0 <= q < j && list.take(j as int)[q] == ti;
                        assert(list[q] < list[j as int]);
                    }
                }
                assert(progressed(
                    V::tag(),
                    terms,
                    g,
                    self.term_status@,
                    s0,
                    list.take(j as int),
                    ti as int,
                ));
                assert(self.term_status@[ti as int] == s0[ti as int]);
                assert(status_ok(V::tag(), t, f, s0[ti as int]));
                lemma_fold_present(V::tag(), t.indices@, t.coeff as int, f, var, high);
                domain::lemma_coeff_bound(terms, ti as int);
                lemma_fold_coeff_size(V::tag(), t.indices@, t.coeff as int, f);
            }
            if let Some(status) = &self.term_status[ti] {
                let mut coeff: i64 = status.coeff;
                let mut free = status.free_variables.clone();
                let value = V::update_partial_term(&mut coeff, &mut free, var, high);
                match value {
                    Some(v) => {
                        proof {
                            lemma_resolved_set_none(V::tag(), terms, g, s1, ti as int);
                            lemma_resolved_bound(
                                V::tag(),
                                terms,
                                g,
                                s1.update(ti as int, None),
                            );
                        }
                        self.offset = self.offset + v;
                        self.term_status.set(ti, None);
                    },
                    None => {
                        let p = PartiallyAssignedTerm { coeff, free_variables: free };
                        proof {
                            lemma_resolved_set_some(V::tag(), terms, g, s1, ti as int, p);
                        }
                        self.term_status.set(ti, Some(p));
                    },
                }
            }
            j += 1;
            proof {
                if s1[ti as int] is None {
                    lemma_free_list_subset(t.indices@, f);
                    assert(free_list(t.indices@, f).contains(var));
                    assert(fold_coeff(V::tag(), t.indices@, t.coeff as int, f) == 0);
                    assert(0 * term::bit_value(V::tag(), false) == 0);
                }
                assert(status_ok(V::tag(), t, g, self.term_status@[ti as int]));
                assert forall|i: int| 0 <= i < terms.len() implies #[trigger] progressed(
                    V::tag(),
                    terms,
                    g,
                    self.term_status@,
                    s0,
                    list.take(j as int),
                    i,
                ) by {
                    assert(progressed(V::tag(), terms, g, s1, s0, list.take(j - 1), i));
                    if i != ti {
                        assert(self.term_status@[i] == s1[i]);
                        assert((i as usize) as int == i);
                        assert(list.take(j as int).contains(i as usize) == list.take(
                            j - 1,
                        ).contains(i as usize));
                        if list.take(j - 1).contains(i as usize) {
                            assert(status_ok(V::tag(), terms[i], g, s1[i]));
                        } else {
                            assert(status_ok(V::tag(), terms[i], f, s0[i]));
                            assert(s1[i] == s0[i]);
                        }
                    } else {
                        assert(list.take(j as int).contains(i as usize));
                        assert(terms[i] == t);
                    }
                }
            }
        }
        proof {
            assert(list.take(j as int) =~= list);
            assert forall|i: int| 0 <= i < terms.len() implies status_ok(
                V::tag(),
                #[trigger] terms[i],
                g,
                self.term_status@[i],
            ) by {
                assert(progressed(V::tag(), terms, g, self.term_status@, s0, list, i));
                if !list.contains(i as usize) {
                    assert(status_ok(V::tag(), terms[i], g, s0[i]));
                }
            }
            assert forall|i: int| 0 <= i < terms.len() implies list.contains(i as usize) == (
            #[trigger] terms[i]).indices@.contains(var) by {
                if list.contains(i as usize) {
                    let q = choose|q: int| 0 <= q < list.len() && list[q] == i as usize;
                }
            }
            assert(g[var as int] is Some);
            assert(f != g);
        }
        Ok(())
    }
}

pub proof fn lemma_all_free(idx: Seq<usize>, f: Seq<Option<bool>>)
    requires
        forall|i: int| 0 <= i < f.len() ==> (#[trigger] f[i]) is None,
    ensures
        free_list(idx, f) == idx,
        !domain::has_low(idx, f),
        !domain::odd_lows(idx, f),
    decreases idx.len(),
{
    if idx.len() > 0 {
        lemma_all_free(idx.drop_last(), f);
        assert(idx =~= idx.drop_last().push(idx.last()));
    }
    assert(!domain::has_low(idx, f)) by {
        if domain::has_low(idx, f) {
            let i = choose|i: int|
                0 <= i < idx.len() && fixes::fixed_at(f, (#[trigger] idx[i]) as int) == Some(false);
        }
    }
}

proof fn lemma_no_resolved(
    vt: VarType,
    terms: Seq<Term>,
    f: Seq<Option<bool>>,
    s: Seq<Option<PartiallyAssignedTerm>>,
)
    requires
        forall|i: int| 0 <= i < s.len() ==> (#[trigger] s[i]) is Some,
    ensures
        resolved_sum(vt, terms, f, s) == 0,
    decreases s.len(),
{
    if s.len() > 0 {
        assert(s[s.len() - 1] is Some);
        assert forall|i: int| 0 <= i < s.drop_last().len() implies (#[trigger] s.drop_last()[i])
            is Some by {
            assert(s.drop_last()[i] == s[i]);
        }
        lemma_no_resolved(vt, terms, f, s.drop_last());
    }
}

/// A term that does not list the variable keeps its coefficient and its free
/// variables.
pub proof fn lemma_fold_absent(
    vt: VarType,
    idx: Seq<usize>,
    c: int,
    f: Seq<Option<bool>>,
    v: usize,
    high: bool,
)
    requires
        v < f.len(),
        !idx.contains(v),
    ensures
        fold_coeff(vt, idx, c, f.update(v as int, Some(high))) == fold_coeff(vt, idx, c, f),
        free_list(idx, f.update(v as int, Some(high))) == free_list(idx, f),
        domain::has_low(idx, f.update(v as int, Some(high))) == domain::has_low(idx, f),
        domain::odd_lows(idx, f.update(v as int, Some(high))) == domain::odd_lows(idx, f),
    decreases idx.len(),
{
    let g = f.update(v as int, Some(high));
    if idx.len() > 0 {
        assert(idx.contains(idx[idx.len() - 1]));
        assert(!idx.drop_last().contains(v)) by {
            if idx.drop_last().contains(v) {
                let i = choose|i: int| 0 <= i < idx.drop_last().len() && idx.drop_last()[i] == v;
                assert(idx[i] == v);
            }
        }
        lemma_fold_absent(vt, idx.drop_last(), c, f, v, high);
        restriction::lemma_has_low_last(idx, f);
        restriction::lemma_has_low_last(idx, g);
    } else {
        assert(!domain::has_low(idx, f));
        assert(!domain::has_low(idx, g));
    }
}

/// A term that lists the free variable once: its coefficient takes the fixed
/// value and the variable leaves the free list.
pub proof fn lemma_fold_present(
    vt: VarType,
    idx: Seq<usize>,
    c: int,
    f: Seq<Option<bool>>,
    v: usize,
    high: bool,
)
    requires
        v < f.len(),
        f[v as int] is None,
        idx.no_duplicates(),
        idx.contains(v),
    ensures
        fold_coeff(vt, idx, c, f.update(v as int, Some(high))) == domain::fixed_coeff(
            vt,
            fold_coeff(vt, idx, c, f),
            high,
        ),
        free_list(idx, f.update(v as int, Some(high))) == domain::without(free_list(idx, f), v),
        domain::has_low(idx, f.update(v as int, Some(high))) == (domain::has_low(idx, f) || !high),
        domain::odd_lows(idx, f.update(v as int, Some(high))) == (domain::odd_lows(idx, f) != !high),
    decreases idx.len(),
{
    let g = f.update(v as int, Some(high));
    let p = idx.drop_last();
    let u = idx.last();
    let i0 = choose|i: int| 0 <= i < idx.len() && idx[i] == v;
    restriction::lemma_has_low_last(idx, f);
    restriction::lemma_has_low_last(idx, g);
    assert(p.no_duplicates());
    if u == v {
        assert(!p.contains(v)) by {
            if p.contains(v) {
                let i = choose|i: int| 0 <= i < p.len() && p[i] == v;
                assert(idx[i] == idx[idx.len() - 1]);
            }
        }
        lemma_fold_absent(vt, p, c, f, v, high);
        lemma_free_list_subset(p, f);
        assert(!free_list(p, f).contains(v));
        delta::lemma_without_absent(free_list(p, f), v);
        assert(free_list(idx, f).drop_last() =~= free_list(p, f));
    } else {
        assert(p[i0] == v);
        lemma_fold_present(vt, p, c, f, v, high);
        if fixes::fixed_at(f, u as int) is None {
            assert(free_list(idx, f).drop_last() =~= free_list(p, f));
        }
    }
    let a = fold_coeff(vt, idx, c, f);
    assert(a * 0 == 0);
    assert(a * -1 == -a);
}

/// The free list holds listed free variables only.
pub proof fn lemma_free_list_subset(idx: Seq<usize>, f: Seq<Option<bool>>)
    ensures
        forall|v: usize|
            #[trigger] free_list(idx, f).contains(v) == (idx.contains(v) && fixes::fixed_at(f, v as int)
                is None),
        idx.no_duplicates() ==> free_list(idx, f).no_duplicates(),
        free_list(idx, f).len() <= idx.len(),
    decreases idx.len(),
{
    let r = free_list(idx, f);
    if idx.len() > 0 {
        let p = idx.drop_last();
        let u = idx.last();
        lemma_free_list_subset(p, f);
        let q = free_list(p, f);
        assert forall|v: usize|
            #[trigger] r.contains(v) == (idx.contains(v) && fixes::fixed_at(f, v as int) is None) by {
            assert(q.contains(v) == (p.contains(v) && fixes::fixed_at(f, v as int) is None));
            if p.contains(v) {
                let i = choose|i: int| 0 <= i < p.len() && p[i] == v;
                assert(idx[i] == v);
            }
            if q.contains(v) {
                let i = choose|i: int| 0 <= i < q.len() && q[i] == v;
                assert(r[i] == v);
            }
            if v == u {
                assert(idx[idx.len() - 1] == v);
                if fixes::fixed_at(f, u as int) is None {
                    assert(r[r.len() - 1] == v);
                }
            }
            if idx.contains(v) && v != u {
                let i = choose|i: int| 0 <= i < idx.len() && idx[i] == v;
                assert(p[i] == v);
            }
            if r.contains(v) && v != u {
                let i = choose|i: int| 0 <= i < r.len() && r[i] == v;
                assert(q[i] == v);
            }
            if r.contains(v) && v == u && !q.contains(v) {
                assert(fixes::fixed_at(f, u as int) is None) by {
                    if fixes::fixed_at(f, u as int) is Some {
                        assert(r == q);
                    }
                }
            }
        }
        if idx.no_duplicates() {
            assert(p.no_duplicates());
            assert(!p.contains(u)) by {
                if p.contains(u) {
                    let i = choose|i: int| 0 <= i < p.len() && p[i] == u;
                    assert(idx[i] == idx[idx.len() - 1]);
                }
            }
            assert(!q.contains(u));
            assert forall|a: int, b: int| 0 <= a < r.len() && 0 <= b < r.len() && a != b implies r[a]
                != r[b] by {
                if a < q.len() && b < q.len() {
                    assert(q[a] != q[b]);
                } else {
                    let k = if a < q.len() { a } else { b };
                    assert(q.contains(q[k]));
                }
            }
        }
    }
}

pub proof fn lemma_fold_coeff_size(vt: VarType, idx: Seq<usize>, c: int, f: Seq<Option<bool>>)
    ensures
        term::abs(fold_coeff(vt, idx, c, f)) <= term::abs(c),
{
}

/// Re-reading constant terms under one more fix changes nothing.
proof fn lemma_resolved_refix(
    vt: VarType,
    terms: Seq<Term>,
    f: Seq<Option<bool>>,
    s: Seq<Option<PartiallyAssignedTerm>>,
    v: usize,
    high: bool,
)
    requires
        s.len() <= terms.len(),
        term::terms_distinct(terms),
        v < f.len(),
        f[v as int] is None,
        forall|i: int| 0 <= i < s.len() ==> status_ok(vt, #[trigger] terms[i], f, s[i]),
    ensures
        resolved_sum(vt, terms, f.update(v as int, Some(high)), s) == resolved_sum(
            vt,
            terms,
            f,
            s,
        ),
    decreases s.len(),
{
    if s.len() > 0 {
        let k = s.len() - 1;
        lemma_resolved_refix(vt, terms, f, s.drop_last(), v, high);
        let t = terms[k];
        assert(status_ok(vt, t, f, s[k]));
        assert(t.indices@.no_duplicates());
        if t.indices@.contains(v) {
            lemma_fold_present(vt, t.indices@, t.coeff as int, f, v, high);
            if s.last() is None {
                lemma_free_list_subset(t.indices@, f);
                assert(free_list(t.indices@, f).contains(v));
                assert(fold_coeff(vt, t.indices@, t.coeff as int, f) == 0);
                assert(0 * term::bit_value(vt, false) == 0);
            }
        } else {
            lemma_fold_absent(vt, t.indices@, t.coeff as int, f, v, high);
        }
    }
}

proof fn lemma_resolved_set_none(
    vt: VarType,
    terms: Seq<Term>,
    f: Seq<Option<bool>>,
    s: Seq<Option<PartiallyAssignedTerm>>,
    k: int,
)
    requires
        0 <= k < s.len(),
        s[k] is Some,
    ensures
        resolved_sum(vt, terms, f, s.update(k, None)) == resolved_sum(vt, terms, f, s)
            + fold_coeff(vt, terms[k].indices@, terms[k].coeff as int, f),
    decreases s.len(),
{
    let u = s.update(k, None);
    if k == s.len() - 1 {
        assert(u.drop_last() =~= s.drop_last());
    } else {
        assert(u.drop_last() =~= s.drop_last().update(k, None));
        lemma_resolved_set_none(vt, terms, f, s.drop_last(), k);
    }
}

proof fn lemma_resolved_set_some(
    vt: VarType,
    terms: Seq<Term>,
    f: Seq<Option<bool>>,
    s: Seq<Option<PartiallyAssignedTerm>>,
    k: int,
    p: PartiallyAssignedTerm,
)
    requires
        0 <= k < s.len(),
        s[k] is Some,
    ensures
        resolved_sum(vt, terms, f, s.update(k, Some(p))) == resolved_sum(vt, terms, f, s),
    decreases s.len(),
{
    let u = s.update(k, Some(p));
    if k == s.len() - 1 {
        assert(u.drop_last() =~= s.drop_last());
    } else {
        assert(u.drop_last() =~= s.drop_last().update(k, Some(p)));
        lemma_resolved_set_some(vt, terms, f, s.drop_last(), k, p);
    }
}

/// The constant part is bounded by the absolute coefficients.
pub proof fn lemma_resolved_bound(
    vt: VarType,
    terms: Seq<Term>,
    f: Seq<Option<bool>>,
    s: Seq<Option<PartiallyAssignedTerm>>,
)
    requires
        s.len() <= terms.len(),
    ensures
        term::abs(resolved_sum(vt, terms, f, s)) <= term::abs_sum(terms.take(s.len() as int)),
        term::abs_sum(terms.take(s.len() as int)) <= term::abs_sum(terms),
    decreases s.len(),
{
    term::lemma_abs_sum_take(terms, s.len() as int);
    if s.len() > 0 {
        lemma_resolved_bound(vt, terms, f, s.drop_last());
        assert(terms.take(s.len() as int).drop_last() =~= terms.take(s.len() - 1));
    }
}

/// What is left, plus what is constant, is at most the absolute coefficients.
pub proof fn lemma_status_bound(
    vt: VarType,
    terms: Seq<Term>,
    f: Seq<Option<bool>>,
    s: Seq<Option<PartiallyAssignedTerm>>,
)
    requires
        s.len() <= terms.len(),
        forall|i: int| 0 <= i < s.len() ==> status_ok(vt, #[trigger] terms[i], f, s[i]),
    ensures
        0 <= status_abs(s),
        term::abs(resolved_sum(vt, terms, f, s)) + status_abs(s) <= term::abs_sum(terms.take(s.len() as int)),
    decreases s.len(),
{
    if s.len() > 0 {
        let k = s.len() - 1;
        lemma_status_bound(vt, terms, f, s.drop_last());
        assert(terms.take(s.len() as int).drop_last() =~= terms.take(k));
        assert(status_ok(vt, terms[k], f, s[k]));
    } else {
        assert(terms.take(0) =~= Seq::empty());
    }
}

/// A term's value under the fixes is that of what is left of it.
pub proof fn lemma_fold_value(
    vt: VarType,
    idx: Seq<usize>,
    c: int,
    f: Seq<Option<bool>>,
    x: Seq<bool>,
)
    requires
        term::indices_below(idx, f.len() as int),
        extends(x, f),
    ensures
        c * term::monomial(vt, idx, x) == fold_coeff(vt, idx, c, f) * term::monomial(vt, free_list(idx, f), x),
    decreases idx.len(),
{
    if idx.len() > 0 {
        let p = idx.drop_last();
        let u = idx.last();
        assert(idx[idx.len() - 1] < f.len());
        lemma_fold_value(vt, p, c, f, x);
        restriction::lemma_has_low_last(idx, f);
        let m = term::monomial(vt, p, x);
        let b = term::bit_value(vt, x[u as int]);
        let a = fold_coeff(vt, p, c, f);
        let n = term::monomial(vt, free_list(p, f), x);
        assert(c * (m * b) == (c * m) * b) by (nonlinear_arith);
        match f[u as int] {
            None => {
                assert(free_list(idx, f).drop_last() =~= free_list(p, f));
                assert(a * (n * b) == (a * n) * b) by (nonlinear_arith);
            },
            Some(high) => {
                assert(f[u as int] == Some(x[u as int]));
                assert((a * n) * 0 == 0);
                assert(0 * n == 0);
                assert((a * n) * -1 == (-a) * n) by (nonlinear_arith);
            },
        }
    } else {
        assert(!domain::has_low(idx, f));
    }
}

/// A node keeps the objective: on every completion of its fixes the objective
/// is the offset, the constant part and what is left of the terms.
pub proof fn node_represents_objective<V: VarDomain>(
    instance: &HuboInstance<V>,
    node: &Node,
    x: Seq<bool>,
)
    requires
        instance.wf(),
        node.describes(instance),
        extends(x, node.fixed@),
    ensures
        instance.objective(x) == instance.offset + node.offset + residual(
            V::tag(),
            node.term_status@,
            x,
        ),
{
    lemma_residual(V::tag(), instance.terms@, node.fixed@, node.term_status@, x);
    assert(instance.terms@.take(node.term_status@.len() as int) =~= instance.terms@);
}

proof fn lemma_residual(
    vt: VarType,
    terms: Seq<Term>,
    f: Seq<Option<bool>>,
    s: Seq<Option<PartiallyAssignedTerm>>,
    x: Seq<bool>,
)
    requires
        s.len() <= terms.len(),
        term::terms_below(terms, f.len() as int),
        extends(x, f),
        forall|i: int| 0 <= i < s.len() ==> status_ok(vt, #[trigger] terms[i], f, s[i]),
    ensures
        term::poly(vt, terms.take(s.len() as int), x) == resolved_sum(vt, terms, f, s) + residual(
            vt,
            s,
            x,
        ),
    decreases s.len(),
{
    if s.len() > 0 {
        let k = s.len() - 1;
        lemma_residual(vt, terms, f, s.drop_last(), x);
        term::lemma_poly_take(vt, terms, x, k);
        let t = terms[k];
        assert(status_ok(vt, t, f, s[k]));
        assert(term::indices_below(t.indices@, f.len() as int));
        lemma_fold_value(vt, t.indices@, t.coeff as int, f, x);
        if s.last() is None {
            let a = fold_coeff(vt, t.indices@, t.coeff as int, f);
            let fl = free_list(t.indices@, f);
            if fl.len() == 0 {
                assert(a * 1 == a);
            } else {
                assert(0 * term::monomial(vt, fl, x) == 0);
            }
        }
    } else {
        assert(terms.take(0) =~= Seq::empty());
    }
}

} // verus!
