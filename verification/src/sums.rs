//! Sums over the terms that list a variable.

use crate::delta;
use crate::domain;
use crate::instance;
use crate::node::PartiallyAssignedTerm;
use crate::node;
use crate::term::Term;
use crate::term;
use vstd::prelude::*;

verus! {

/// The sum of the weights of the listed terms.
pub open spec fn list_sum(list: Seq<usize>, w: spec_fn(int) -> int) -> int
    decreases list.len(),
{
    if list.len() == 0 {
        0
    } else {
        list_sum(list.drop_last(), w) + w(list.last() as int)
    }
}

/// The sum of the weights of those of the first `k` terms that list `v`.
pub open spec fn incident_sum(
    terms: Seq<Term>,
    v: usize,
    w: spec_fn(int) -> int,
    k: nat,
) -> int
    decreases k,
{
    if k == 0 {
        0
    } else {
        incident_sum(terms, v, w, (k - 1) as nat) + (if terms[k - 1].indices@.contains(v) {
            w(k - 1)
        } else {
            0
        })
    }
}

/// Summing over the incidence list is summing over the terms that list `v`.
pub proof fn lemma_list_sum(terms: Seq<Term>, v: usize, w: spec_fn(int) -> int, k: nat)
    requires
        term::terms_distinct(terms),
        k <= terms.len(),
        terms.len() <= usize::MAX,
    ensures
        list_sum(instance::incidence(terms, v, k), w) == incident_sum(terms, v, w, k),
    decreases k,
{
    if k > 0 {
        let k1 = (k - 1) as nat;
        lemma_list_sum(terms, v, w, k1);
        let idx = terms[k1 as int].indices@;
        delta::lemma_occurrences(idx, v);
        assert(idx.no_duplicates());
        let a = instance::incidence(terms, v, k1);
        let b = instance::incidence(terms, v, k);
        if idx.contains(v) {
            assert(domain::occurrences(idx, v) == 1);
            assert(b =~= a.push(k1 as usize));
            assert(b.drop_last() =~= a);
        } else {
            assert(b =~= a);
        }
    }
}

/// A partial sum is bounded by the sum of bounds.
pub proof fn lemma_list_sum_bound(
    list: Seq<usize>,
    w: spec_fn(int) -> int,
    a: spec_fn(int) -> int,
    j: int,
)
    requires
        0 <= j <= list.len(),
        forall|t: int| -a(t) <= #[trigger] w(t) <= a(t),
        forall|t: int| 0 <= #[trigger] a(t),
    ensures
        -list_sum(list.take(j), a) <= list_sum(list.take(j), w) <= list_sum(list.take(j), a),
        0 <= list_sum(list.take(j), a) <= list_sum(list, a),
    decreases list.len(),
{
    if list.len() == 0 {
        assert(list.take(j) =~= list);
    } else if j == list.len() {
        assert(list.take(j) =~= list);
        lemma_list_sum_bound(list.drop_last(), w, a, j - 1);
        assert(list.drop_last().take(j - 1) =~= list.drop_last());
        let t = list.last() as int;
        assert(-a(t) <= w(t) <= a(t));
        assert(0 <= a(t));
    } else {
        lemma_list_sum_bound(list.drop_last(), w, a, j);
        assert(list.drop_last().take(j) =~= list.take(j));
        assert(0 <= a(list.last() as int));
    }
}

/// The absolute coefficient that is left of a term.
pub open spec fn abs_weight(s: Seq<Option<PartiallyAssignedTerm>>) -> spec_fn(int) -> int {
    |t: int|
        match s[t] {
            Some(p) => term::abs(p.coeff as int),
            None => 0,
        }
}

/// Twice the absolute coefficient that is left of a term.
pub open spec fn double_abs_weight(s: Seq<Option<PartiallyAssignedTerm>>) -> spec_fn(int) -> int {
    |t: int| 2 * abs_weight(s)(t)
}

/// The absolute coefficients of the terms that list `v` are among those of all
/// terms.
pub proof fn lemma_incident_abs(
    terms: Seq<Term>,
    v: usize,
    s: Seq<Option<PartiallyAssignedTerm>>,
    k: nat,
)
    requires
        k <= s.len(),
    ensures
        0 <= incident_sum(terms, v, abs_weight(s), k) <= node::status_abs(s.take(k as int)),
        incident_sum(terms, v, double_abs_weight(s), k) == 2 * incident_sum(
            terms,
            v,
            abs_weight(s),
            k,
        ),
    decreases k,
{
    if k > 0 {
        let k1 = (k - 1) as nat;
        lemma_incident_abs(terms, v, s, k1);
        assert(s.take(k as int).drop_last() =~= s.take(k1 as int));
    }
}

} // verus!
