//! Terms as plain values, and their order.

use crate::domain::VarType;
use crate::merge::LexOrder;
use crate::merge;
use crate::term::Term;
use crate::term;
use vstd::prelude::*;

verus! {

/// The variables and the coefficient of a term.
pub open spec fn term_view(t: Term) -> (Seq<usize>, i64) {
    (t.indices@, t.coeff)
}

/// The terms as plain values.
pub open spec fn term_views(terms: Seq<Term>) -> Seq<(Seq<usize>, i64)> {
    Seq::new(terms.len(), |i: int| term_view(terms[i]))
}

/// The value of terms given as plain values.
pub open spec fn view_poly(vt: VarType, s: Seq<(Seq<usize>, i64)>, x: Seq<bool>) -> int
    decreases s.len(),
{
    if s.len() == 0 {
        0
    } else {
        view_poly(vt, s.drop_last(), x) + s.last().1 * term::monomial(vt, s.last().0, x)
    }
}

/// The absolute coefficients of terms given as plain values.
pub open spec fn view_abs(s: Seq<(Seq<usize>, i64)>) -> int
    decreases s.len(),
{
    if s.len() == 0 {
        0
    } else {
        view_abs(s.drop_last()) + term::abs(s.last().1 as int)
    }
}

pub proof fn lemma_term_views(vt: VarType, terms: Seq<Term>, x: Seq<bool>)
    ensures
        term::poly(vt, terms, x) == view_poly(vt, term_views(terms), x),
        term::abs_sum(terms) == view_abs(term_views(terms)),
    decreases terms.len(),
{
    if terms.len() > 0 {
        lemma_term_views(vt, terms.drop_last(), x);
        assert(term_views(terms).drop_last() =~= term_views(terms.drop_last()));
        assert(term_views(terms).last() == term_view(terms.last()));
    }
}

/// Put a term behind all terms that do not come after it.
pub open spec fn insert_view(
    s: Seq<(Seq<usize>, i64)>,
    e: (Seq<usize>, i64),
) -> Seq<(Seq<usize>, i64)>
    decreases s.len(),
{
    if s.len() == 0 || !merge::lex_lt(e.0, s.last().0) {
        s.push(e)
    } else {
        insert_view(s.drop_last(), e).push(s.last())
    }
}

/// The terms in lexicographic order of their variables; equal ones keep their
/// order.
pub open spec fn sorted_views(s: Seq<(Seq<usize>, i64)>) -> Seq<(Seq<usize>, i64)>
    decreases s.len(),
{
    if s.len() == 0 {
        s
    } else {
        insert_view(sorted_views(s.drop_last()), s.last())
    }
}

proof fn lemma_insert_view(
    vt: VarType,
    s: Seq<(Seq<usize>, i64)>,
    e: (Seq<usize>, i64),
    x: Seq<bool>,
)
    ensures
        insert_view(s, e).len() == s.len() + 1,
        view_poly(vt, insert_view(s, e), x) == view_poly(vt, s, x) + e.1 * term::monomial(vt, e.0, x),
        view_abs(insert_view(s, e)) == view_abs(s) + term::abs(e.1 as int),
        forall|v: (Seq<usize>, i64)| #[trigger]
            insert_view(s, e).contains(v) ==> s.contains(v) || v == e,
    decreases s.len(),
{
    let r = insert_view(s, e);
    if s.len() == 0 || !merge::lex_lt(e.0, s.last().0) {
        assert(r.drop_last() =~= s);
        assert forall|v: (Seq<usize>, i64)| #[trigger] r.contains(v) implies s.contains(v) || v
            == e by {
            let i = choose|i: int| 0 <= i < r.len() && r[i] == v;
            if i < s.len() {
                assert(s[i] == v);
            }
        }
    } else {
        let p = s.drop_last();
        lemma_insert_view(vt, p, e, x);
        let q = insert_view(p, e);
        assert(r.drop_last() =~= q);
        assert forall|v: (Seq<usize>, i64)| #[trigger] r.contains(v) implies s.contains(v) || v
            == e by {
            let i = choose|i: int| 0 <= i < r.len() && r[i] == v;
            if i < q.len() {
                assert(q[i] == v);
                assert(q.contains(v));
                if p.contains(v) {
                    let j = choose|j: int| 0 <= j < p.len() && p[j] == v;
                    assert(s[j] == v);
                }
            } else {
                assert(s[s.len() - 1] == v);
            }
        }
    }
}

/// Sorting changes the order alone.
pub proof fn lemma_sorted_views(vt: VarType, s: Seq<(Seq<usize>, i64)>, x: Seq<bool>)
    ensures
        sorted_views(s).len() == s.len(),
        view_poly(vt, sorted_views(s), x) == view_poly(vt, s, x),
        view_abs(sorted_views(s)) == view_abs(s),
        forall|v: (Seq<usize>, i64)| #[trigger] sorted_views(s).contains(v) ==> s.contains(v),
    decreases s.len(),
{
    if s.len() > 0 {
        let p = s.drop_last();
        lemma_sorted_views(vt, p, x);
        lemma_insert_view(vt, sorted_views(p), s.last(), x);
        assert forall|v: (Seq<usize>, i64)| #[trigger] sorted_views(s).contains(
            v,
        ) implies s.contains(v) by {
            if sorted_views(p).contains(v) {
                assert(p.contains(v));
                let j = choose|j: int| 0 <= j < p.len() && p[j] == v;
                assert(s[j] == v);
            } else {
                assert(s[s.len() - 1] == v);
            }
        }
    }
}

/// Where a term is put: behind those that do not come after it.
proof fn lemma_insert_at(s: Seq<(Seq<usize>, i64)>, e: (Seq<usize>, i64), p: int)
    requires
        0 <= p <= s.len(),
        p > 0 ==> !merge::lex_lt(e.0, s[p - 1].0),
        forall|i: int| p <= i < s.len() ==> merge::lex_lt(e.0, #[trigger] s[i].0),
    ensures
        insert_view(s, e) == s.insert(p, e),
    decreases s.len(),
{
    if p == s.len() {
        assert(s.insert(p, e) =~= s.push(e));
    } else {
        assert(merge::lex_lt(e.0, s[s.len() - 1].0));
        lemma_insert_at(s.drop_last(), e, p);
        assert(s.insert(p, e) =~= s.drop_last().insert(p, e).push(s.last()));
    }
}

/// Sort terms by their variables.
pub fn sort_terms(terms: Vec<Term>) -> (r: Vec<Term>)
    ensures
        term_views(r@) == sorted_views(term_views(terms@)),
{
    let ghost all = term_views(terms@);
    let mut r: Vec<Term> = Vec::new();
    let mut k: usize = 0;
    assert(all.take(0) =~= Seq::empty());
    assert(term_views(r@) =~= Seq::empty());
    while k < terms.len()
        invariant
            k <= terms@.len(),
            all == term_views(terms@),
            r@.len() == k,
            term_views(r@) == sorted_views(all.take(k as int)),
        decreases terms@.len() - k,
    {
        let e = terms[k].clone();
        let ghost r0 = r@;
        let ghost ev = term_view(e);
        let mut p: usize = r.len();
        while p > 0 && merge::lex_order(e.indices.as_slice(), r[p - 1].indices.as_slice())
            == LexOrder::Before
            invariant
                p <= r@.len(),
                r@ == r0,
                forall|i: int| p <= i < r0.len() ==> merge::lex_lt(e.indices@, #[trigger] term_views(r0)[i].0),
            decreases p,
        {
            p -= 1;
        }
        r.insert(p, e);
        proof {
            assert(ev == all[k as int]);
            assert(all.take(k + 1).drop_last() =~= all.take(k as int));
            lemma_insert_at(term_views(r0), ev, p as int);
            assert(term_views(r@) =~= term_views(r0).insert(p as int, ev));
        }
        k += 1;
    }
    assert(all.take(k as int) =~= all);
    r
}

} // verus!
