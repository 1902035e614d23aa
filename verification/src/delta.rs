//! How single flips change products, counts and objective values.

use crate::domain::VarType;
use crate::domain;
use crate::instance;
use crate::sets;
use crate::solution;
use crate::state;
use crate::term::Term;
use crate::term;
use vstd::prelude::*;

verus! {

/// Assignments that agree on the listed variables give the same product.
pub proof fn lemma_monomial_agree(vt: VarType, idx: Seq<usize>, x: Seq<bool>, y: Seq<bool>)
    requires
        forall|i: int| 0 <= i < idx.len() ==> x[#[trigger] idx[i] as int] == y[idx[i] as int],
    ensures
        term::monomial(vt, idx, x) == term::monomial(vt, idx, y),
        state::high_count(idx, x) == state::high_count(idx, y),
    decreases idx.len(),
{
    if idx.len() > 0 {
        assert(idx[idx.len() - 1] == idx.last());
        assert forall|i: int| 0 <= i < idx.drop_last().len() implies x[#[trigger] idx.drop_last()[i] as int]
            == y[idx.drop_last()[i] as int] by {
            assert(idx.drop_last()[i] == idx[i]);
        }
        lemma_monomial_agree(vt, idx.drop_last(), x, y);
    }
}

/// Flipping a variable that is not listed changes nothing.
pub proof fn lemma_flip_absent(vt: VarType, idx: Seq<usize>, x: Seq<bool>, v: usize)
    requires
        v < x.len(),
        term::indices_below(idx, x.len() as int),
        !idx.contains(v),
    ensures
        term::monomial(vt, idx, solution::flipped(x, v as int)) == term::monomial(vt, idx, x),
        state::high_count(idx, solution::flipped(x, v as int)) == state::high_count(idx, x),
{
    assert forall|i: int| 0 <= i < idx.len() implies solution::flipped(x, v as int)[#[trigger] idx[i] as int]
        == x[idx[i] as int] by {
        assert(idx.contains(idx[i]));
    }
    lemma_monomial_agree(vt, idx, solution::flipped(x, v as int), x);
}

/// Flipping a variable that is listed once negates a spin product and moves
/// the count of high variables by one.
pub proof fn lemma_flip_present(idx: Seq<usize>, x: Seq<bool>, v: usize)
    requires
        v < x.len(),
        term::indices_below(idx, x.len() as int),
        idx.no_duplicates(),
        idx.contains(v),
    ensures
        term::monomial(VarType::Spin, idx, solution::flipped(x, v as int)) == -term::monomial(
            VarType::Spin,
            idx,
            x,
        ),
        state::high_count(idx, solution::flipped(x, v as int)) == state::high_count(idx, x) + (
        if x[v as int] {
            -1int
        } else {
            1int
        }),
    decreases idx.len(),
{
    let y = solution::flipped(x, v as int);
    let p = idx.drop_last();
    let u = idx.last();
    let i0 = choose|i: int| 0 <= i < idx.len() && idx[i] == v;
    assert(idx[idx.len() - 1] < x.len());
    if u == v {
        assert(!p.contains(v)) by {
            if p.contains(v) {
                let i = choose|i: int| 0 <= i < p.len() && p[i] == v;
                assert(idx[i] == idx[idx.len() - 1]);
            }
        }
        lemma_flip_absent(VarType::Spin, p, x, v);
        let m = term::monomial(VarType::Spin, p, x);
        assert(m * -1 == -(m * 1));
    } else {
        assert(p[i0] == v);
        lemma_flip_present(p, x, v);
        assert(y[u as int] == x[u as int]);
        let m = term::monomial(VarType::Spin, p, x);
        let b = term::bit_value(VarType::Spin, x[u as int]);
        assert((-m) * b == -(m * b)) by (nonlinear_arith);
    }
}

/// A product of bits is one exactly when every listed variable is high.
pub proof fn lemma_bin_monomial(idx: Seq<usize>, x: Seq<bool>)
    ensures
        state::high_count(idx, x) <= idx.len(),
        term::monomial(VarType::Bin, idx, x) == (if state::high_count(idx, x) == idx.len() {
            1int
        } else {
            0int
        }),
    decreases idx.len(),
{
    if idx.len() > 0 {
        lemma_bin_monomial(idx.drop_last(), x);
    }
}

/// A product of spins is one exactly when an even number of listed entries is
/// low.
pub proof fn lemma_spin_monomial(idx: Seq<usize>, x: Seq<bool>)
    ensures
        state::high_count(idx, x) <= idx.len(),
        term::monomial(VarType::Spin, idx, x) == (if (idx.len() - state::high_count(idx, x)) % 2
            == 0 {
            1int
        } else {
            -1int
        }),
    decreases idx.len(),
{
    if idx.len() > 0 {
        lemma_spin_monomial(idx.drop_last(), x);
    }
}

/// In a list without repetition a variable occurs once or not at all.
pub proof fn lemma_occurrences(idx: Seq<usize>, v: usize)
    ensures
        (domain::occurrences(idx, v) > 0) == idx.contains(v),
        idx.no_duplicates() ==> domain::occurrences(idx, v) <= 1,
    decreases idx.len(),
{
    if idx.len() > 0 {
        let p = idx.drop_last();
        lemma_occurrences(p, v);
        assert(idx[idx.len() - 1] == idx.last());
        if p.contains(v) {
            let i = choose|i: int| 0 <= i < p.len() && p[i] == v;
            assert(idx[i] == v);
        }
        if idx.contains(v) && idx.last() != v {
            let i = choose|i: int| 0 <= i < idx.len() && idx[i] == v;
            assert(p[i] == v);
        }
        if idx.no_duplicates() {
            assert(p.no_duplicates());
            if idx.last() == v {
                assert(!p.contains(v)) by {
                    if p.contains(v) {
                        let i = choose|i: int| 0 <= i < p.len() && p[i] == v;
                        assert(idx[i] == idx[idx.len() - 1]);
                    }
                }
            }
        }
    }
}

/// The incidence list of a variable names exactly the terms that list it,
/// ascending.
pub proof fn lemma_incidence(terms: Seq<Term>, v: usize, k: nat)
    requires
        term::terms_distinct(terms),
        k <= terms.len(),
        terms.len() <= usize::MAX,
    ensures
        forall|j: int|
            0 <= j < instance::incidence(terms, v, k).len() ==> (#[trigger] instance::incidence(
                terms,
                v,
                k,
            )[j]) < k && terms[instance::incidence(terms, v, k)[j] as int].indices@.contains(v),
        sets::ascending(instance::incidence(terms, v, k)),
        forall|t: int|
            0 <= t < k && (#[trigger] terms[t]).indices@.contains(v) ==> instance::incidence(
                terms,
                v,
                k,
            ).contains(t as usize),
    decreases k,
{
    if k > 0 {
        let k1 = (k - 1) as nat;
        lemma_incidence(terms, v, k1);
        let a = instance::incidence(terms, v, k1);
        let b = instance::incidence(terms, v, k);
        assert(terms[k1 as int].indices@.no_duplicates());
        lemma_occurrences(terms[k1 as int].indices@, v);
        if terms[k1 as int].indices@.contains(v) {
            assert(domain::occurrences(terms[k1 as int].indices@, v) == 1);
            assert(b =~= a.push(k1 as usize));
        } else {
            assert(b =~= a);
        }
        assert forall|t: int| 0 <= t < k && (#[trigger] terms[t]).indices@.contains(v) implies b.contains(
            t as usize,
        ) by {
            if t < k1 {
                assert(a.contains(t as usize));
                let j = choose|j: int| 0 <= j < a.len() && a[j] == t as usize;
                assert(b[j] == t as usize);
            } else {
                assert(b[b.len() - 1] == t as usize);
            }
        }
    }
}

/// The change of one term when `v` flips.
pub open spec fn term_change(vt: VarType, t: Term, x: Seq<bool>, v: usize) -> int {
    term::term_value(vt, t, solution::flipped(x, v as int)) - term::term_value(vt, t, x)
}

/// The sum of the changes of the listed terms.
pub open spec fn list_change(
    vt: VarType,
    terms: Seq<Term>,
    x: Seq<bool>,
    v: usize,
    list: Seq<usize>,
) -> int
    decreases list.len(),
{
    if list.len() == 0 {
        0
    } else {
        list_change(vt, terms, x, v, list.drop_last()) + term_change(
            vt,
            terms[list.last() as int],
            x,
            v,
        )
    }
}

/// The sum of the absolute coefficients of the listed terms.
pub open spec fn list_abs(terms: Seq<Term>, list: Seq<usize>) -> int
    decreases list.len(),
{
    if list.len() == 0 {
        0
    } else {
        list_abs(terms, list.drop_last()) + term::abs(terms[list.last() as int].coeff as int)
    }
}

/// The change by a flip comes from the terms that list the variable.
pub proof fn lemma_incidence_change(
    vt: VarType,
    terms: Seq<Term>,
    x: Seq<bool>,
    v: usize,
    k: nat,
)
    requires
        term::terms_distinct(terms),
        term::terms_below(terms, x.len() as int),
        v < x.len(),
        k <= terms.len(),
        terms.len() <= usize::MAX,
    ensures
        list_change(vt, terms, x, v, instance::incidence(terms, v, k)) == term::poly(
            vt,
            terms.take(k as int),
            solution::flipped(x, v as int),
        ) - term::poly(vt, terms.take(k as int), x),
        list_abs(terms, instance::incidence(terms, v, k)) <= term::abs_sum(terms.take(k as int)),
    decreases k,
{
    if k > 0 {
        let k1 = (k - 1) as nat;
        lemma_incidence_change(vt, terms, x, v, k1);
        let t = terms[k1 as int];
        assert(term::indices_below(t.indices@, x.len() as int));
        assert(t.indices@.no_duplicates());
        term::lemma_poly_take(vt, terms, x, k1 as int);
        term::lemma_poly_take(vt, terms, solution::flipped(x, v as int), k1 as int);
        assert(terms.take(k as int).drop_last() =~= terms.take(k1 as int));
        lemma_occurrences(t.indices@, v);
        let a = instance::incidence(terms, v, k1);
        let b = instance::incidence(terms, v, k);
        if t.indices@.contains(v) {
            assert(b =~= a.push(k1 as usize));
            assert(b.drop_last() =~= a);
        } else {
            assert(b =~= a);
            lemma_flip_absent(vt, t.indices@, x, v);
        }
    } else {
        assert(terms.take(0) =~= Seq::empty());
    }
}

/// A partial sum of changes is at most twice the absolute coefficients.
pub proof fn lemma_list_change_bound(
    vt: VarType,
    terms: Seq<Term>,
    x: Seq<bool>,
    v: usize,
    list: Seq<usize>,
    j: int,
)
    requires
        0 <= j <= list.len(),
    ensures
        0 <= list_abs(terms, list.take(j)) <= list_abs(terms, list),
        -2 * list_abs(terms, list.take(j)) <= list_change(vt, terms, x, v, list.take(j)) <= 2
            * list_abs(terms, list.take(j)),
    decreases list.len(),
{
    if list.len() == 0 {
        assert(list.take(j) =~= list);
    } else if j == list.len() {
        assert(list.take(j) =~= list);
        lemma_list_change_bound(vt, terms, x, v, list.drop_last(), j - 1);
        assert(list.drop_last().take(j - 1) =~= list.drop_last());
        let t = terms[list.last() as int];
        term::lemma_term_value_range(vt, t, x);
        term::lemma_term_value_range(vt, t, solution::flipped(x, v as int));
    } else {
        lemma_list_change_bound(vt, terms, x, v, list.drop_last(), j);
        assert(list.drop_last().take(j) =~= list.take(j));
    }
}

/// The change of one bit term that lists `v`, from its count of high
/// variables.
pub proof fn lemma_bin_change(t: Term, x: Seq<bool>, v: usize)
    requires
        v < x.len(),
        term::indices_below(t.indices@, x.len() as int),
        t.indices@.no_duplicates(),
        t.indices@.contains(v),
    ensures
        state::high_count(t.indices@, x) <= t.indices@.len(),
        x[v as int] ==> state::high_count(t.indices@, x) > 0,
        !x[v as int] ==> state::high_count(t.indices@, x) < t.indices@.len(),
        term_change(VarType::Bin, t, x, v) == (if x[v as int] {
            if state::high_count(t.indices@, x) == t.indices@.len() {
                -(t.coeff as int)
            } else {
                0
            }
        } else {
            if state::high_count(t.indices@, x) + 1 == t.indices@.len() {
                t.coeff as int
            } else {
                0
            }
        }),
{
    let y = solution::flipped(x, v as int);
    lemma_flip_present(t.indices@, x, v);
    lemma_bin_monomial(t.indices@, x);
    lemma_bin_monomial(t.indices@, y);
}

/// The change of one spin term that lists `v`.
pub proof fn lemma_spin_change(t: Term, x: Seq<bool>, v: usize)
    requires
        v < x.len(),
        term::indices_below(t.indices@, x.len() as int),
        t.indices@.no_duplicates(),
        t.indices@.contains(v),
    ensures
        term_change(VarType::Spin, t, x, v) == (if term::monomial(VarType::Spin, t.indices@, x)
            == 1 {
            -2 * t.coeff
        } else {
            2 * t.coeff
        }),
{
    lemma_flip_present(t.indices@, x, v);
    term::lemma_monomial_range(VarType::Spin, t.indices@, x);
    let c = t.coeff as int;
    assert(c * -1 == -c);
    assert(c * -(-1int) == c);
}

/// The whole change by a flip.
pub proof fn lemma_whole_change(vt: VarType, terms: Seq<Term>, x: Seq<bool>, v: usize)
    requires
        term::terms_distinct(terms),
        term::terms_below(terms, x.len() as int),
        v < x.len(),
        terms.len() <= usize::MAX,
    ensures
        list_change(vt, terms, x, v, instance::incidence(terms, v, terms.len())) == term::poly(
            vt,
            terms,
            solution::flipped(x, v as int),
        ) - term::poly(vt, terms, x),
        list_abs(terms, instance::incidence(terms, v, terms.len())) <= term::abs_sum(terms),
{
    lemma_incidence_change(vt, terms, x, v, terms.len());
    assert(terms.take(terms.len() as int) =~= terms);
}

/// The product of the other variables: over spins the whole product times the
/// variable's own sign; over bits one exactly when all others are high.
pub proof fn lemma_without(idx: Seq<usize>, x: Seq<bool>, v: usize)
    requires
        idx.no_duplicates(),
        idx.contains(v),
    ensures
        term::monomial(VarType::Spin, domain::without(idx, v), x) == (if (term::monomial(
            VarType::Spin,
            idx,
            x,
        ) == 1) == x[v as int] {
            1int
        } else {
            -1int
        }),
        domain::without(idx, v).len() == idx.len() - 1,
        state::high_count(domain::without(idx, v), x) == state::high_count(idx, x) - (
        if x[v as int] {
            1int
        } else {
            0int
        }),
    decreases idx.len(),
{
    let p = idx.drop_last();
    let u = idx.last();
    let i0 = choose|i: int| 0 <= i < idx.len() && idx[i] == v;
    term::lemma_monomial_range(VarType::Spin, idx, x);
    term::lemma_monomial_range(VarType::Spin, p, x);
    if u == v {
        assert(!p.contains(v)) by {
            if p.contains(v) {
                let i = choose|i: int| 0 <= i < p.len() && p[i] == v;
                assert(idx[i] == idx[idx.len() - 1]);
            }
        }
        lemma_without_absent(p, v);
    } else {
        assert(p[i0] == v);
        lemma_without(p, x, v);
        let w = domain::without(p, v);
        assert(domain::without(idx, v) =~= w.push(u));
        assert(w.push(u).drop_last() =~= w);
        term::lemma_monomial_range(VarType::Spin, w, x);
        let b = term::bit_value(VarType::Spin, x[u as int]);
        let mp = term::monomial(VarType::Spin, p, x);
        let mw = term::monomial(VarType::Spin, w, x);
        assert(mp * 1 == mp && mp * -1 == -mp);
        assert(mw * 1 == mw && mw * -1 == -mw);
    }
}

pub proof fn lemma_without_absent(idx: Seq<usize>, v: usize)
    requires
        !idx.contains(v),
    ensures
        domain::without(idx, v) == idx,
    decreases idx.len(),
{
    if idx.len() > 0 {
        assert(idx.contains(idx[idx.len() - 1]));
        assert(!idx.drop_last().contains(v)) by {
            if idx.drop_last().contains(v) {
                let i = choose|i: int| 0 <= i < idx.drop_last().len() && idx.drop_last()[i] == v;
                assert(idx[i] == v);
            }
        }
        lemma_without_absent(idx.drop_last(), v);
        assert(idx =~= idx.drop_last().push(idx.last()));
    }
}

} // verus!
