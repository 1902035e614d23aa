//! Restricting an instance to its free variables.

use crate::domain::{VarDomain, VarType};
use crate::domain;
use crate::fixes::Fixes;
use crate::fixes;
use crate::granularity;
use crate::instance::HuboInstance;
use crate::merge::KeySum;
use crate::merge;
use crate::term::Term;
use crate::term;
use vstd::prelude::*;

verus! {

/// The fixes of the first `n` variables.
pub open spec fn fixes_of(f: Seq<Option<bool>>, n: int) -> Seq<Option<bool>> {
    Seq::new(n as nat, |i: int| fixes::fixed_at(f, i))
}

/// The new index of each variable: free variables are numbered in order.
pub open spec fn renaming(f: Seq<Option<bool>>) -> Seq<usize> {
    Seq::new(
        f.len(),
        |i: int|
            if f[i] is None {
                fixes::free_vars(f.take(i)).len() as usize
            } else {
                usize::MAX
            },
    )
}

/// The complete assignment that extends the fixes by values of the free
/// variables.
pub open spec fn lifted(f: Seq<Option<bool>>, y: Seq<bool>) -> Seq<bool> {
    Seq::new(
        f.len(),
        |i: int|
            match f[i] {
                Some(b) => b,
                None => y[renaming(f)[i] as int],
            },
    )
}

/// What the terms that become constant add to the offset.
pub open spec fn folded_constant(
    vt: VarType,
    terms: Seq<Term>,
    f: Seq<Option<bool>>,
    map: Seq<usize>,
) -> int
    decreases terms.len(),
{
    if terms.len() == 0 {
        0
    } else {
        folded_constant(vt, terms.drop_last(), f, map) + (match domain::folded(
            vt,
            terms.last().indices@,
            terms.last().coeff as int,
            f,
            map,
        ) {
            Some(p) => if p.1.len() == 0 {
                p.0
            } else {
                0
            },
            None => 0,
        })
    }
}

/// The coefficients of the terms that keep free variables, weighted by a
/// function of those variables.
pub open spec fn folded_weight(
    vt: VarType,
    terms: Seq<Term>,
    f: Seq<Option<bool>>,
    map: Seq<usize>,
    w: spec_fn(Seq<usize>) -> int,
) -> int
    decreases terms.len(),
{
    if terms.len() == 0 {
        0
    } else {
        folded_weight(vt, terms.drop_last(), f, map, w) + (match domain::folded(
            vt,
            terms.last().indices@,
            terms.last().coeff as int,
            f,
            map,
        ) {
            Some(p) => if p.1.len() == 0 {
                0
            } else {
                p.0 * w(p.1)
            },
            None => 0,
        })
    }
}

/// The coefficients of terms, weighted by a function of their variables.
pub open spec fn term_weights(terms: Seq<Term>, w: spec_fn(Seq<usize>) -> int) -> int
    decreases terms.len(),
{
    if terms.len() == 0 {
        0
    } else {
        term_weights(terms.drop_last(), w) + terms.last().coeff * w(terms.last().indices@)
    }
}

/// The terms are listed in strict lexicographic order of their variables and
/// have nonzero coefficients.
pub open spec fn is_canonical(terms: Seq<Term>) -> bool {
    &&& forall|i: int, j: int|
        0 <= i < j < terms.len() ==> merge::lex_lt(
            #[trigger] terms[i].indices@,
            #[trigger] terms[j].indices@,
        )
    &&& forall|i: int| 0 <= i < terms.len() ==> (#[trigger] terms[i]).coeff != 0
}

/// The polynomial as weighted coefficients.
pub proof fn lemma_poly_weights(vt: VarType, terms: Seq<Term>, x: Seq<bool>)
    ensures
        term::poly(vt, terms, x) == term_weights(terms, |k: Seq<usize>| term::monomial(vt, k, x)),
    decreases terms.len(),
{
    if terms.len() > 0 {
        lemma_poly_weights(vt, terms.drop_last(), x);
    }
}

/// The number of free variables among a prefix is below any later count.
pub proof fn lemma_free_count(f: Seq<Option<bool>>, i: int, j: int)
    requires
        0 <= i <= j <= f.len(),
    ensures
        fixes::free_vars(f.take(i)).len() <= fixes::free_vars(f.take(j)).len(),
        i < j && f[i] is None ==> fixes::free_vars(f.take(i)).len() < fixes::free_vars(f.take(j)).len(),
        fixes::free_vars(f.take(j)).len() <= j,
    decreases j,
{
    if i < j {
        assert(f.take(j).drop_last() =~= f.take(j - 1));
        lemma_free_count(f, i, j - 1);
    } else if j > 0 {
        assert(f.take(j).drop_last() =~= f.take(j - 1));
        lemma_free_count(f, j - 1, j - 1);
    }
}

/// The renaming numbers the free variables without gaps or repetition.
pub proof fn lemma_renaming(f: Seq<Option<bool>>, i: int)
    requires
        0 <= i < f.len(),
        f[i] is None,
        f.len() <= usize::MAX,
    ensures
        renaming(f)[i] < fixes::free_vars(f).len(),
        fixes::free_vars(f)[renaming(f)[i] as int] == i,
        forall|j: int|
            0 <= j < f.len() && f[j] is None && j != i ==> #[trigger] renaming(f)[j] != renaming(
                f,
            )[i],
{
    lemma_free_count(f, i, f.len() as int);
    assert(f.take(f.len() as int) =~= f);
    lemma_free_prefix(f, i + 1);
    assert(f.take(i + 1).drop_last() =~= f.take(i));
    assert(fixes::free_vars(f.take(i + 1))[fixes::free_vars(f.take(i)).len() as int] == i as usize);
    assert forall|j: int|
        0 <= j < f.len() && f[j] is None && j != i implies #[trigger] renaming(f)[j] != renaming(
        f,
    )[i] by {
        if j < i {
            lemma_free_count(f, j, i);
        } else {
            lemma_free_count(f, i, j);
        }
        lemma_free_count(f, j, f.len() as int);
    }
}

/// The free variables of a prefix are a prefix of the free variables.
proof fn lemma_free_prefix(f: Seq<Option<bool>>, k: int)
    requires
        0 <= k <= f.len(),
    ensures
        fixes::free_vars(f.take(k)).len() <= fixes::free_vars(f).len(),
        fixes::free_vars(f).take(fixes::free_vars(f.take(k)).len() as int) == fixes::free_vars(f.take(k)),
        forall|q: int|
            0 <= q < fixes::free_vars(f.take(k)).len() ==> fixes::free_vars(f)[q] == fixes::free_vars(f.take(k))[q],
    decreases f.len(),
{
    if k == f.len() {
        assert(f.take(k) =~= f);
        assert(fixes::free_vars(f).take(fixes::free_vars(f).len() as int) =~= fixes::free_vars(f));
    } else {
        assert(f.drop_last().take(k) =~= f.take(k));
        lemma_free_prefix(f.drop_last(), k);
        assert(fixes::free_vars(f).take(fixes::free_vars(f.take(k)).len() as int) =~= fixes::free_vars(f.take(k)));
    }
}

/// `v` is the new index of a free listed variable.
pub open spec fn from_listed(idx: Seq<usize>, f: Seq<Option<bool>>, v: usize) -> bool {
    exists|i: int|
        0 <= i < idx.len() && f[(#[trigger] idx[i]) as int] is None && renaming(f)[idx[i] as int]
            == v
}

/// A renamed list keeps its length bound, its range and its distinctness.
pub proof fn lemma_free_renamed(idx: Seq<usize>, f: Seq<Option<bool>>, g: Seq<Option<bool>>)
    requires
        term::indices_below(idx, f.len() as int),
        f.len() <= usize::MAX,
        forall|i: int| 0 <= i < f.len() ==> #[trigger] fixes::fixed_at(g, i) == f[i],
    ensures
        forall|q: int|
            0 <= q < domain::free_renamed(idx, g, renaming(f)).len() ==> from_listed(
                idx,
                f,
                #[trigger] domain::free_renamed(idx, g, renaming(f))[q],
            ),
        term::indices_below(domain::free_renamed(idx, g, renaming(f)), fixes::free_vars(f).len() as int),
        idx.no_duplicates() ==> domain::free_renamed(idx, g, renaming(f)).no_duplicates(),
    decreases idx.len(),
{
    let map = renaming(f);
    let r = domain::free_renamed(idx, g, map);
    if idx.len() > 0 {
        let p = idx.drop_last();
        let u = idx.last();
        assert(idx[idx.len() - 1] < f.len());
        lemma_free_renamed(p, f, g);
        let rp = domain::free_renamed(p, g, map);
        assert(fixes::fixed_at(g, u as int) == f[u as int]);
        assert forall|q: int| 0 <= q < r.len() implies from_listed(idx, f, #[trigger] r[q]) by {
            if q < rp.len() {
                assert(from_listed(p, f, rp[q]));
                let i = choose|i: int|
                    0 <= i < p.len() && f[(#[trigger] p[i]) as int] is None && map[p[i] as int] == rp[q];
                assert(idx[i] == p[i]);
            } else {
                assert(idx[idx.len() - 1] == u);
            }
        }
        if f[u as int] is None {
            lemma_renaming(f, u as int);
            if idx.no_duplicates() {
                assert(p.no_duplicates());
                assert forall|a: int, b: int| 0 <= a < r.len() && 0 <= b < r.len() && a != b implies r[a]
                    != r[b] by {
                    if a < rp.len() && b < rp.len() {
                        assert(rp[a] != rp[b]);
                    } else {
                        let q = if a < rp.len() { a } else { b };
                        assert(from_listed(p, f, rp[q]));
                        let i = choose|i: int|
                            0 <= i < p.len() && f[(#[trigger] p[i]) as int] is None
                                && map[p[i] as int] == rp[q];
                        assert(idx[i] == p[i]);
                        assert(idx[i] != idx[idx.len() - 1]);
                        assert(renaming(f)[p[i] as int] != renaming(f)[u as int]);
                    }
                }
            }
        } else if idx.no_duplicates() {
            assert(p.no_duplicates());
        }
    }
}

/// A folded term has the value of the original at every extension.
pub proof fn lemma_folded_value(
    vt: VarType,
    idx: Seq<usize>,
    c: int,
    f: Seq<Option<bool>>,
    g: Seq<Option<bool>>,
    y: Seq<bool>,
)
    requires
        term::indices_below(idx, f.len() as int),
        f.len() <= usize::MAX,
        forall|i: int| 0 <= i < f.len() ==> #[trigger] fixes::fixed_at(g, i) == f[i],
    ensures
        c * term::monomial(vt, idx, lifted(f, y)) == (match domain::folded(vt, idx, c, g, renaming(f)) {
            Some(p) => p.0 * term::monomial(vt, p.1, y),
            None => 0,
        }),
    decreases idx.len(),
{
    let map = renaming(f);
    let x = lifted(f, y);
    if idx.len() == 0 {
        assert(domain::free_renamed(idx, g, map) =~= Seq::empty());
        assert(!domain::has_low(idx, g));
    } else {
        let p = idx.drop_last();
        let u = idx.last();
        assert(idx[idx.len() - 1] < f.len());
        lemma_folded_value(vt, p, c, f, g, y);
        assert(fixes::fixed_at(g, u as int) == f[u as int]);
        let m = term::monomial(vt, p, x);
        let b = term::bit_value(vt, x[u as int]);
        let rp = domain::free_renamed(p, g, map);
        let n = term::monomial(vt, rp, y);
        lemma_has_low_last(idx, g);
        assert(c * (m * b) == (c * m) * b) by (nonlinear_arith);
        match f[u as int] {
            None => {
                let r = rp.push(map[u as int]);
                assert(r.drop_last() =~= rp);
                let by = term::bit_value(vt, y[map[u as int] as int]);
                assert(b == by);
                assert((c * n) * b == c * (n * b)) by (nonlinear_arith);
                assert(((-c) * n) * b == (-c) * (n * b)) by (nonlinear_arith);
                assert(0 * b == 0);
            },
            Some(high) => {
                if high {
                    assert((c * m) * 1 == c * m);
                } else {
                    assert((c * m) * 0 == 0);
                    assert((c * m) * -1 == -(c * m)) by (nonlinear_arith);
                    assert(-(c * n) == (-c) * n) by (nonlinear_arith);
                    assert(-((-c) * n) == c * n) by (nonlinear_arith);
                }
            },
        }
    }
}

pub proof fn lemma_has_low_last(idx: Seq<usize>, g: Seq<Option<bool>>)
    requires
        idx.len() > 0,
    ensures
        domain::has_low(idx, g) == (domain::has_low(idx.drop_last(), g) || fixes::fixed_at(g, idx.last() as int) == Some(
            false,
        )),
{
    let p = idx.drop_last();
    if domain::has_low(p, g) {
        let i = choose|i: int|
            0 <= i < p.len() && fixes::fixed_at(g, (#[trigger] p[i]) as int) == Some(false);
        assert(idx[i] == p[i]);
    }
    if fixes::fixed_at(g, idx.last() as int) == Some(false) {
        assert(idx[idx.len() - 1] == idx.last());
    }
    if domain::has_low(idx, g) {
        let i = choose|i: int|
            0 <= i < idx.len() && fixes::fixed_at(g, (#[trigger] idx[i]) as int) == Some(false);
        if i < p.len() {
            assert(p[i] == idx[i]);
        }
    }
}

/// The folded parts add up to the original polynomial at every extension.
proof fn lemma_folded_poly(
    vt: VarType,
    terms: Seq<Term>,
    f: Seq<Option<bool>>,
    g: Seq<Option<bool>>,
    y: Seq<bool>,
)
    requires
        term::terms_below(terms, f.len() as int),
        f.len() <= usize::MAX,
        forall|i: int| 0 <= i < f.len() ==> #[trigger] fixes::fixed_at(g, i) == f[i],
    ensures
        term::poly(vt, terms, lifted(f, y)) == folded_constant(vt, terms, g, renaming(f))
            + folded_weight(vt, terms, g, renaming(f), |k: Seq<usize>| term::monomial(vt, k, y)),
    decreases terms.len(),
{
    if terms.len() > 0 {
        let p = terms.drop_last();
        let t = terms.last();
        assert(terms[terms.len() - 1] == t);
        assert(term::indices_below(t.indices@, f.len() as int));
        assert forall|i: int| 0 <= i < p.len() implies term::indices_below(
            #[trigger] p[i].indices@,
            f.len() as int,
        ) by {
            assert(p[i] == terms[i]);
        }
        lemma_folded_poly(vt, p, f, g, y);
        lemma_folded_value(vt, t.indices@, t.coeff as int, f, g, y);
        match domain::folded(vt, t.indices@, t.coeff as int, g, renaming(f)) {
            Some(q) => {
                if q.1.len() == 0 {
                    assert(term::monomial(vt, q.1, y) == 1);
                    assert(q.0 * 1 == q.0);
                }
            },
            None => {},
        }
    }
}

impl<V: VarDomain> HuboInstance<V> {
    /// The instance over the free variables, and the original index of each.
    pub fn apply_fixes(&self, fixes: &Fixes) -> (r: (Self, Vec<usize>))
        requires
            self.wf(),
            self.fits(),
            fixes.wf(),
        ensures
            r.1@ == fixes::free_vars(fixes_of(fixes@, self.n())),
            r.0.n() == r.1@.len(),
            r.0.wf(),
            r.0.fits(),
            r.0.grid_wf(),
            r.0.offset == self.offset + folded_constant(
                V::tag(),
                self.terms@,
                fixes@,
                renaming(fixes_of(fixes@, self.n())),
            ),
            forall|w: spec_fn(Seq<usize>) -> int| #[trigger]
                term_weights(r.0.terms@, w) == folded_weight(
                    V::tag(),
                    self.terms@,
                    fixes@,
                    renaming(fixes_of(fixes@, self.n())),
                    w,
                ),
            is_canonical(r.0.terms@),
    {
        let n: usize = self.n_vars();
        let ghost g = fixes@;
        let ghost f = fixes_of(g, self.n());
        let ghost map = renaming(f);
        let mut new_to_old: Vec<usize> = Vec::new();
        let mut old_to_new: Vec<usize> = Vec::new();
        let mut i: usize = 0;
        assert(f.take(0) =~= Seq::empty());
        while i < n
            invariant
                i <= n,
                n == self.n(),
                fixes.wf(),
                g == fixes@,
                f == fixes_of(g, self.n()),
                map == renaming(f),
                new_to_old@ == fixes::free_vars(f.take(i as int)),
                old_to_new@ == map.take(i as int),
            decreases n - i,
        {
            assert(f.take(i + 1).drop_last() =~= f.take(i as int));
            assert(map.take(i + 1) =~= map.take(i as int).push(map[i as int]));
            if fixes.get(i).is_none() {
                old_to_new.push(new_to_old.len());
                new_to_old.push(i);
            } else {
                old_to_new.push(usize::MAX);
            }
            i += 1;
        }
        proof {
            assert(f.take(n as int) =~= f);
            assert(map.take(n as int) =~= map);
        }
        let n_free: usize = new_to_old.len();
        let mut offset: i64 = self.offset;
        let mut table: Vec<KeySum> = Vec::new();
        let mut k: usize = 0;
        assert(self.terms@.take(0) =~= Seq::empty());
        while k < self.terms.len()
            invariant
                k <= self.terms@.len(),
                n == self.n(),
                self.wf(),
                self.fits(),
                fixes.wf(),
                g == fixes@,
                f == fixes_of(g, self.n()),
                map == renaming(f),
                old_to_new@ == map,
                n_free == fixes::free_vars(f).len(),
                offset == self.offset + folded_constant(
                    V::tag(),
                    self.terms@.take(k as int),
                    g,
                    map,
                ),
                merge::keys_ascend(table@),
                forall|w: spec_fn(Seq<usize>) -> int| #[trigger]
                    merge::weighted(table@, w) == folded_weight(
                        V::tag(),
                        self.terms@.take(k as int),
                        g,
                        map,
                        w,
                    ),
                term::abs(offset as int) + 2 * merge::table_abs(table@) <= term::abs(self.offset as int) + 2 * term::abs_sum(
                    self.terms@.take(k as int),
                ),
                forall|j: int|
                    0 <= j < table@.len() ==> term::indices_below(
                        #[trigger] table@[j].key@,
                        n_free as int,
                    ) && table@[j].key@.no_duplicates(),
            decreases self.terms@.len() - k,
        {
            let ghost t = self.terms@[k as int];
            let ghost before = table@;
            proof {
                assert(self.terms@.take(k + 1).drop_last() =~= self.terms@.take(k as int));
                assert(self.terms@.take(k + 1).last() == t);
                term::lemma_abs_sum_take(self.terms@, k + 1);
                term::lemma_abs_sum_take(self.terms@, k as int);
                assert(term::indices_below(t.indices@, self.n()));
                assert(t.indices@.no_duplicates());
                assert forall|i: int| 0 <= i < f.len() implies #[trigger] fixes::fixed_at(g, i) == f[i] by {}
                lemma_free_renamed(t.indices@, f, g);
                if table@.len() > 0 {
                    merge::lemma_table_abs_entry(table@, 0);
                }
            }
            let part = V::fold_term_under_fixes(
                self.terms[k].indices.as_slice(),
                self.terms[k].coeff,
                fixes,
                old_to_new.as_slice(),
            );
            match part {
                None => {
                    proof {
                        assert forall|w: spec_fn(Seq<usize>) -> int| #[trigger]
                            merge::weighted(table@, w) == folded_weight(
                                V::tag(),
                                self.terms@.take(k + 1),
                                g,
                                map,
                                w,
                            ) by {
                            assert(merge::weighted(before, w) == folded_weight(
                                V::tag(),
                                self.terms@.take(k as int),
                                g,
                                map,
                                w,
                            ));
                        }
                    }
                },
                Some((c, free)) => {
                    if free.len() == 0 {
                        offset += c;
                    } else {
                        merge::add_to(&mut table, free, c as i128);
                    }
                    proof {
                        assert forall|w: spec_fn(Seq<usize>) -> int| #[trigger]
                            merge::weighted(table@, w) == folded_weight(
                                V::tag(),
                                self.terms@.take(k + 1),
                                g,
                                map,
                                w,
                            ) by {
                            assert(merge::weighted(before, w) == folded_weight(
                                V::tag(),
                                self.terms@.take(k as int),
                                g,
                                map,
                                w,
                            ));
                        }
                    }
                },
            }
            k += 1;
        }
        assert(self.terms@.take(k as int) =~= self.terms@);
        let mut terms: Vec<Term> = Vec::new();
        let mut j: usize = 0;
        assert(table@.take(0) =~= Seq::empty());
        while j < table.len()
            invariant
                j <= table@.len(),
                merge::keys_ascend(table@),
                2 * merge::table_abs(table@) <= i64::MAX,
                forall|w: spec_fn(Seq<usize>) -> int| #[trigger]
                    term_weights(terms@, w) == merge::weighted(table@.take(j as int), w),
                term::abs_sum(terms@) == merge::table_abs(table@.take(j as int)),
                is_canonical(terms@),
                forall|q: int|
                    0 <= q < table@.len() ==> term::indices_below(
                        #[trigger] table@[q].key@,
                        n_free as int,
                    ) && table@[q].key@.no_duplicates(),
                forall|q: int|
                    0 <= q < terms@.len() ==> term::indices_below(
                        #[trigger] terms@[q].indices@,
                        n_free as int,
                    ) && terms@[q].indices@.no_duplicates() && exists|i: int|
                        0 <= i < j && (#[trigger] table@[i]).key@ == terms@[q].indices@,
            decreases table@.len() - j,
        {
            let ghost before = terms@;
            proof {
                merge::lemma_table_abs_entry(table@, j as int);
                assert(table@.take(j + 1).drop_last() =~= table@.take(j as int));
                assert(table@.take(j + 1).last() == table@[j as int]);
            }
            if table[j].sum != 0 {
                let e = Term { indices: table[j].key.clone(), coeff: table[j].sum as i64 };
                terms.push(e);
                proof {
                    assert(terms@.drop_last() =~= before);
                    assert forall|w: spec_fn(Seq<usize>) -> int| #[trigger]
                        term_weights(terms@, w) == merge::weighted(table@.take(j + 1), w) by {
                        assert(term_weights(before, w) == merge::weighted(table@.take(j as int), w));
                    }
                    assert forall|a: int, b: int| 0 <= a < b < terms@.len() implies merge::lex_lt(
                        #[trigger] terms@[a].indices@,
                        #[trigger] terms@[b].indices@,
                    ) by {
                        assert(terms@[a] == before[a]);
                        if b < before.len() {
                            assert(terms@[b] == before[b]);
                        } else {
                            let i = choose|i: int|
                                0 <= i < j && (#[trigger] table@[i]).key@ == terms@[a].indices@;
                            assert(merge::lex_lt(table@[i].key@, table@[j as int].key@));
                        }
                    }
                    assert forall|q: int| 0 <= q < terms@.len() implies term::indices_below(
                        #[trigger] terms@[q].indices@,
                        n_free as int,
                    ) && terms@[q].indices@.no_duplicates() && exists|i: int|
                        0 <= i < j + 1 && (#[trigger] table@[i]).key@ == terms@[q].indices@ by {
                        if q < before.len() {
                            assert(terms@[q] == before[q]);
                            let i = choose|i: int|
                                0 <= i < j && (#[trigger] table@[i]).key@ == before[q].indices@;
                            assert(table@[i].key@ == terms@[q].indices@);
                        } else {
                            assert(table@[j as int].key@ == terms@[q].indices@);
                        }
                    }
                    assert forall|q: int| 0 <= q < terms@.len() implies (#[trigger] terms@[q]).coeff
                        != 0 by {
                        if q < before.len() {
                            assert(terms@[q] == before[q]);
                        }
                    }
                }
            } else {
                proof {
                    assert forall|w: spec_fn(Seq<usize>) -> int| #[trigger]
                        term_weights(terms@, w) == merge::weighted(table@.take(j + 1), w) by {
                        assert(term_weights(before, w) == merge::weighted(table@.take(j as int), w));
                        assert(0 * w(table@[j as int].key@) == 0);
                    }
                    assert forall|q: int| 0 <= q < terms@.len() implies exists|i: int|
                        0 <= i < j + 1 && (#[trigger] table@[i]).key@ == (
                        #[trigger] terms@[q]).indices@ by {
                        assert(terms@[q].indices@ == before[q].indices@);
                        let i = choose|i: int|
                            0 <= i < j && (#[trigger] table@[i]).key@ == before[q].indices@;
                        assert(table@[i].key@ == terms@[q].indices@);
                    }
                }
            }
            j += 1;
        }
        proof {
            assert(table@.take(j as int) =~= table@);
            assert forall|w: spec_fn(Seq<usize>) -> int| #[trigger]
                term_weights(terms@, w) == folded_weight(V::tag(), self.terms@, g, map, w) by {
                assert(merge::weighted(table@, w) == folded_weight(V::tag(), self.terms@, g, map, w));
            }
            lemma_grid_base_fits(V::tag(), offset, terms@);
        }
        let ghost final_terms = terms@;
        let instance = Self::new(n_free, offset, terms);
        (instance, new_to_old)
    }
}

/// Small coefficients keep the grid base and its partial sums small.
pub proof fn lemma_grid_base_fits(vt: VarType, offset: i64, terms: Seq<Term>)
    requires
        term::abs(offset as int) + term::abs_sum(terms) <= i64::MAX,
    ensures
        granularity::grid_base_fits(vt, offset as int, terms),
{
    assert forall|k: int| 0 <= k <= terms.len() implies i64::MIN <= #[trigger] granularity::grid_base(
        vt,
        offset as int,
        terms.take(k),
    ) <= i64::MAX by {
        term::lemma_abs_sum_take(terms, k);
        lemma_grid_base_range(vt, offset as int, terms.take(k));
    }
}

proof fn lemma_grid_base_range(vt: VarType, offset: int, terms: Seq<Term>)
    ensures
        offset - term::abs_sum(terms) <= granularity::grid_base(vt, offset, terms) <= offset + term::abs_sum(terms),
        term::abs_sum(terms) >= 0,
    decreases terms.len(),
{
    if terms.len() > 0 {
        lemma_grid_base_range(vt, offset, terms.drop_last());
    }
}

/// Restricting an instance keeps the objective: every assignment of the free
/// variables has the value of its extension by the fixes.
pub proof fn restriction_preserves_objective(
    vt: VarType,
    terms: Seq<Term>,
    offset: int,
    fixes: Seq<Option<bool>>,
    n: int,
    reduced_offset: int,
    reduced_terms: Seq<Term>,
    y: Seq<bool>,
)
    requires
        0 <= n <= usize::MAX,
        term::terms_below(terms, n),
        reduced_offset == offset + folded_constant(
            vt,
            terms,
            fixes,
            renaming(fixes_of(fixes, n)),
        ),
        forall|w: spec_fn(Seq<usize>) -> int| #[trigger]
            term_weights(reduced_terms, w) == folded_weight(
                vt,
                terms,
                fixes,
                renaming(fixes_of(fixes, n)),
                w,
            ),
    ensures
        reduced_offset + term::poly(vt, reduced_terms, y) == offset + term::poly(
            vt,
            terms,
            lifted(fixes_of(fixes, n), y),
        ),
{
    let f = fixes_of(fixes, n);
    assert forall|i: int| 0 <= i < f.len() implies #[trigger] fixes::fixed_at(fixes, i) == f[i] by {}
    lemma_folded_poly(vt, terms, f, fixes, y);
    lemma_poly_weights(vt, reduced_terms, y);
    let w = |k: Seq<usize>| term::monomial(vt, k, y);
    assert(term_weights(reduced_terms, w) == folded_weight(vt, terms, fixes, renaming(f), w));
}

} // verus!
