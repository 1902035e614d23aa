//! Terms of a polynomial objective.

use crate::domain::VarType;
use vstd::prelude::*;

verus! {

/// One term: a coefficient times the product of the listed variables.
#[derive(Debug)]
pub struct Term {
    pub indices: Vec<usize>,
    pub coeff: i64,
}

impl Clone for Term {
    fn clone(&self) -> (r: Self)
        ensures
            r.indices@ == self.indices@,
            r.coeff == self.coeff,
    {
        Term { indices: self.indices.clone(), coeff: self.coeff }
    }
}

/// The value that a variable takes when its bit is `high`.
pub open spec fn bit_value(vt: VarType, high: bool) -> int {
    match vt {
        VarType::Bin => if high { 1 } else { 0 },
        VarType::Spin => if high { 1 } else { -1 },
    }
}

/// The product of the variables `idx` at the assignment `x`.
pub open spec fn monomial(vt: VarType, idx: Seq<usize>, x: Seq<bool>) -> int
    decreases idx.len(),
{
    if idx.len() == 0 {
        1
    } else {
        monomial(vt, idx.drop_last(), x) * bit_value(vt, x[idx.last() as int])
    }
}

/// The value of one term at the assignment `x`.
pub open spec fn term_value(vt: VarType, t: Term, x: Seq<bool>) -> int {
    t.coeff * monomial(vt, t.indices@, x)
}

/// The sum of the values of `terms` at the assignment `x`.
pub open spec fn poly(vt: VarType, terms: Seq<Term>, x: Seq<bool>) -> int
    decreases terms.len(),
{
    if terms.len() == 0 {
        0
    } else {
        poly(vt, terms.drop_last(), x) + term_value(vt, terms.last(), x)
    }
}

/// Absolute value.
pub open spec fn abs(i: int) -> int {
    if i < 0 {
        -i
    } else {
        i
    }
}

/// The sum of the absolute coefficients of `terms`.
pub open spec fn abs_sum(terms: Seq<Term>) -> int
    decreases terms.len(),
{
    if terms.len() == 0 {
        0
    } else {
        abs_sum(terms.drop_last()) + abs(terms.last().coeff as int)
    }
}

/// Every listed variable is below `n`.
pub open spec fn indices_below(idx: Seq<usize>, n: int) -> bool {
    forall|i: int| 0 <= i < idx.len() ==> (#[trigger] idx[i]) < n
}

/// Every term lists variables below `n` only.
pub open spec fn terms_below(terms: Seq<Term>, n: int) -> bool {
    forall|i: int| 0 <= i < terms.len() ==> indices_below(#[trigger] terms[i].indices@, n)
}

/// No term lists a variable twice.
pub open spec fn terms_distinct(terms: Seq<Term>) -> bool {
    forall|i: int| 0 <= i < terms.len() ==> (#[trigger] terms[i].indices@).no_duplicates()
}

/// A monomial is 0 or 1 over bits and -1 or 1 over spins.
pub proof fn lemma_monomial_range(vt: VarType, idx: Seq<usize>, x: Seq<bool>)
    ensures
        vt == VarType::Bin ==> (monomial(vt, idx, x) == 0 || monomial(vt, idx, x) == 1),
        vt == VarType::Spin ==> (monomial(vt, idx, x) == -1 || monomial(vt, idx, x) == 1),
        -1 <= monomial(vt, idx, x) <= 1,
    decreases idx.len(),
{
    if idx.len() > 0 {
        lemma_monomial_range(vt, idx.drop_last(), x);
        let m = monomial(vt, idx.drop_last(), x);
        let b = bit_value(vt, x[idx.last() as int]);
        assert(m * b == if m == 0 { 0 } else if m == 1 { b } else { -b }) by (nonlinear_arith)
            requires
                m == 0 || m == 1 || m == -1,
        ;
    }
}

/// A term's value is at most its absolute coefficient in size.
pub proof fn lemma_term_value_range(vt: VarType, t: Term, x: Seq<bool>)
    ensures
        -abs(t.coeff as int) <= term_value(vt, t, x) <= abs(t.coeff as int),
{
    lemma_monomial_range(vt, t.indices@, x);
    let m = monomial(vt, t.indices@, x);
    let c = t.coeff as int;
    assert(c * m == if m == 0 { 0 } else if m == 1 { c } else { -c }) by (nonlinear_arith)
        requires
            m == 0 || m == 1 || m == -1,
    ;
}

/// The absolute sum is nonnegative and bounds every value of the polynomial.
pub proof fn lemma_poly_range(vt: VarType, terms: Seq<Term>, x: Seq<bool>)
    ensures
        0 <= abs_sum(terms),
        -abs_sum(terms) <= poly(vt, terms, x) <= abs_sum(terms),
    decreases terms.len(),
{
    if terms.len() > 0 {
        lemma_poly_range(vt, terms.drop_last(), x);
        lemma_term_value_range(vt, terms.last(), x);
    }
}

/// The absolute sum grows with the list.
pub proof fn lemma_abs_sum_take(terms: Seq<Term>, k: int)
    requires
        0 <= k <= terms.len(),
    ensures
        0 <= abs_sum(terms.take(k)) <= abs_sum(terms),
    decreases terms.len() - k,
{
    if k < terms.len() {
        lemma_abs_sum_take(terms, k + 1);
        assert(terms.take(k + 1).drop_last() == terms.take(k));
    } else {
        assert(terms.take(k) == terms);
    }
    lemma_poly_range(VarType::Bin, terms.take(k), Seq::empty());
}

/// One more term adds its value.
pub proof fn lemma_poly_take(vt: VarType, terms: Seq<Term>, x: Seq<bool>, k: int)
    requires
        0 <= k < terms.len(),
    ensures
        poly(vt, terms.take(k + 1), x) == poly(vt, terms.take(k), x) + term_value(
            vt,
            terms[k],
            x,
        ),
{
    assert(terms.take(k + 1).drop_last() == terms.take(k));
}

} // verus!
