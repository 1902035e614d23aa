//! What is left of an instance as a quadratic form, with a bound for its terms
//! of higher degree.

use crate::active::ActiveTerms;
use crate::active;
use crate::chordal::ChordalSdpDecomposition;
use crate::chordal;
use crate::cliques;
use crate::domain::{VarDomain, VarType};
use crate::fixes::Fixes;
use crate::instance::HuboInstance;
use crate::lasserre::{LasserreConfig, LasserreSdpState, Relaxation};
use crate::lasserre;
use crate::lists;
use crate::merge::KeySum;
use crate::merge;
use crate::sets;
use crate::term::Term;
use crate::term;
use vstd::prelude::*;

verus! {

/// A coefficient of a pair of variables.
#[derive(Debug, Clone, Copy, PartialEq, Eq, Structural)]
pub struct PairCoeff {
    pub a: usize,
    pub b: usize,
    pub coeff: i64,
}

/// A quadratic form over the free variables, and a bound for the rest.
pub struct ReducedQuadratic {
    pub var_type: VarType,
    pub n_free: usize,
    pub base_offset: i64,
    pub linear: Vec<i64>,
    /// The nonzero coefficients of pairs, in the order of the pairs.
    pub quad: Vec<PairCoeff>,
    pub higher_order_trivial: i64,
}

/// The coefficients of those of the first `k` terms with two variables, weighted
/// by a function of the pair.
pub open spec fn pair_weight(terms: Seq<Term>, w: spec_fn(Seq<usize>) -> int, k: nat) -> int
    decreases k,
{
    if k == 0 {
        0
    } else {
        pair_weight(terms, w, (k - 1) as nat) + (if terms[k - 1].indices@.len() == 2 {
            terms[k - 1].coeff * w(terms[k - 1].indices@)
        } else {
            0
        })
    }
}

/// The quadratic form of tidy terms: the coefficients of single variables and of
/// pairs, and the least values of the other terms.
pub open spec fn is_reduced(
    vt: VarType,
    base: i64,
    terms: Seq<Term>,
    m: nat,
    q: &ReducedQuadratic,
) -> bool {
    let k = terms.len();
    &&& q.var_type == vt
    &&& q.n_free == m
    &&& q.base_offset == base
    &&& q.linear@.len() == m
    &&& forall|i: int|
        0 <= i < m ==> #[trigger] q.linear@[i] == lasserre::moment_weight(
            terms,
            1,
            seq![i as usize],
            k,
        )
    &&& forall|i: int|
        0 <= i < q.quad@.len() ==> (#[trigger] q.quad@[i]).a < q.quad@[i].b < m && q.quad@[i].coeff
            != 0
    &&& forall|i: int, j: int|
        0 <= i < j < q.quad@.len() ==> merge::lex_lt(
            pair_of(#[trigger] q.quad@[i]),
            pair_of(#[trigger] q.quad@[j]),
        )
    &&& forall|w: spec_fn(Seq<usize>) -> int| #[trigger]
        quad_weight(q.quad@, w, q.quad@.len()) == pair_weight(terms, w, k)
    &&& q.higher_order_trivial == lasserre::floors_above(vt, terms, 2, k)
}

/// The pair as a list.
pub open spec fn pair_of(p: PairCoeff) -> Seq<usize> {
    seq![p.a, p.b]
}

/// The first `k` coefficients of pairs, weighted by a function of the pair.
pub open spec fn quad_weight(quad: Seq<PairCoeff>, w: spec_fn(Seq<usize>) -> int, k: nat) -> int
    decreases k,
{
    if k == 0 {
        0
    } else {
        quad_weight(quad, w, (k - 1) as nat) + quad[k - 1].coeff * w(pair_of(quad[k - 1]))
    }
}

/// The absolute values of the first `k` numbers, in all.
pub open spec fn abs_total(s: Seq<i64>, k: nat) -> int
    decreases k,
{
    if k == 0 {
        0
    } else {
        abs_total(s, (k - 1) as nat) + term::abs(s[k - 1] as int)
    }
}

/// The absolute values of the first `k` coefficients of pairs, in all.
pub open spec fn quad_abs(s: Seq<PairCoeff>, k: nat) -> int
    decreases k,
{
    if k == 0 {
        0
    } else {
        quad_abs(s, (k - 1) as nat) + term::abs(s[k - 1].coeff as int)
    }
}

proof fn lemma_abs_total_update(s: Seq<i64>, p: int, v: i64, k: nat)
    requires
        k <= s.len(),
        0 <= p < s.len(),
    ensures
        abs_total(s.update(p, v), k) <= abs_total(s, k) + (if p < k {
            term::abs(v - s[p])
        } else {
            0
        }),
        abs_total(s, k) >= 0,
        p < k ==> term::abs(s[p] as int) <= abs_total(s, k),
    decreases k,
{
    if k > 0 {
        lemma_abs_total_update(s, p, v, (k - 1) as nat);
    }
}

proof fn lemma_abs_total_zero(s: Seq<i64>, k: nat)
    requires
        forall|i: int| 0 <= i < k ==> #[trigger] s[i] == 0,
    ensures
        abs_total(s, k) == 0,
    decreases k,
{
    if k > 0 {
        lemma_abs_total_zero(s, (k - 1) as nat);
        assert(s[k - 1] == 0);
    }
}

proof fn lemma_floors_two(vt: VarType, terms: Seq<Term>, k: nat)
    requires
        k <= terms.len(),
    ensures
        -term::abs_sum(terms.take(k as int)) <= lasserre::floors_above(vt, terms, 2, k) <= 0,
        term::abs_sum(terms.take(k as int)) <= term::abs_sum(terms),
    decreases k,
{
    term::lemma_abs_sum_take(terms, k as int);
    if k == 0 {
        assert(terms.take(0) =~= Seq::empty());
    } else {
        lemma_floors_two(vt, terms, (k - 1) as nat);
        assert(terms.take(k as int).drop_last() =~= terms.take(k - 1));
    }
}

/// Collect tidy terms into a quadratic form.
fn collect(var_type: VarType, a: &ActiveTerms) -> (r: ReducedQuadratic)
    requires
        active::is_tidy(a.base_offset, a.terms@, a.free_globals@.len()),
    ensures
        is_reduced(var_type, a.base_offset, a.terms@, a.free_globals@.len(), &r),
        abs_total(r.linear@, r.linear@.len()) + quad_abs(r.quad@, r.quad@.len())
            - r.higher_order_trivial <= term::abs_sum(a.terms@),
        abs_total(r.linear@, r.linear@.len()) >= 0,
        quad_abs(r.quad@, r.quad@.len()) >= 0,
{
    let ghost terms = a.terms@;
    let n: usize = a.free_globals.len();
    let mut linear: Vec<i64> = Vec::new();
    while linear.len() < n
        invariant
            linear@.len() <= n,
            forall|i: int| 0 <= i < linear@.len() ==> #[trigger] linear@[i] == 0,
        decreases n - linear@.len(),
    {
        linear.push(0);
    }
    let mut table: Vec<KeySum> = Vec::new();
    let mut higher: i64 = 0;
    let mut k: usize = 0;
    proof {
        lemma_abs_total_zero(linear@, n as nat);
        assert(terms.take(0) =~= Seq::empty());
    }
    while k < a.terms.len()
        invariant
            k <= terms.len(),
            terms == a.terms@,
            active::is_tidy(a.base_offset, terms, n as nat),
            linear@.len() == n,
            forall|i: int|
                0 <= i < n ==> #[trigger] linear@[i] == lasserre::moment_weight(
                    terms,
                    1,
                    seq![i as usize],
                    k as nat,
                ),
            merge::keys_ascend(table@),
            forall|w: spec_fn(Seq<usize>) -> int| #[trigger]
                merge::weighted(table@, w) == pair_weight(terms, w, k as nat),
            forall|i: int|
                0 <= i < table@.len() ==> is_pair_key((#[trigger] table@[i]).key@, n as nat),
            higher == lasserre::floors_above(var_type, terms, 2, k as nat),
            abs_total(linear@, n as nat) + merge::table_abs(table@) - higher <= term::abs_sum(
                terms.take(k as int),
            ),
            abs_total(linear@, n as nat) >= 0,
        decreases terms.len() - k,
    {
        let ghost idx = terms[k as int].indices@;
        let ghost lin0 = linear@;
        let ghost t0 = table@;
        let c: i64 = a.terms[k].coeff;
        proof {
            assert(active::is_tidy_list(terms[k as int].indices@, n as nat));
            active::lemma_coeff_fits(terms, k as int);
            assert(terms.take(k + 1).drop_last() =~= terms.take(k as int));
            term::lemma_abs_sum_take(terms, (k + 1) as int);
            term::lemma_abs_sum_take(terms, k as int);
            lemma_floors_two(var_type, terms, (k + 1) as nat);
            lemma_floors_two(var_type, terms, k as nat);
            lemma_table_nonneg(table@);
        }
        if a.terms[k].indices.len() == 1 {
            let v: usize = a.terms[k].indices[0];
            assert(idx[0] < n);
            assert(idx =~= seq![v]);
            proof {
                lemma_abs_total_update(linear@, v as int, 0, n as nat);
            }
            let old: i64 = linear[v];
            proof {
                lemma_abs_total_update(linear@, v as int, (old + c) as i64, n as nat);
            }
            linear.set(v, old + c);
            proof {
                lemma_abs_total_prefix(linear@, 0, n as nat);
            }
        } else if a.terms[k].indices.len() == 2 {
            let key = lists::copy_list(a.terms[k].indices.as_slice());
            assert(is_pair_key(idx, n as nat)) by {
                assert(idx[0] < idx[1]);
                assert(idx[1] < n);
            }
            merge::add_to(&mut table, key, c as i128);
            proof {
                assert forall|i: int| 0 <= i < table@.len() implies is_pair_key(
                    (#[trigger] table@[i]).key@,
                    n as nat,
                ) by {
                    if table@[i].key@ != idx {
                        let j = choose|j: int|
                            0 <= j < t0.len() && #[trigger] t0[j].key@ == table@[i].key@;
                        assert(is_pair_key(t0[j].key@, n as nat));
                    }
                }
            }
        } else {
            higher = higher + lasserre::termwise_min(c, var_type);
        }
        proof {
            assert forall|i: int| 0 <= i < n implies #[trigger] linear@[i]
                == lasserre::moment_weight(terms, 1, seq![i as usize], (k + 1) as nat) by {
                assert(lin0[i] == lasserre::moment_weight(terms, 1, seq![i as usize], k as nat));
                let s = seq![i as usize];
                if idx == s {
                    assert(idx[0] == s[0]);
                }
            }
            assert forall|w: spec_fn(Seq<usize>) -> int| #[trigger]
                merge::weighted(table@, w) == pair_weight(terms, w, (k + 1) as nat) by {
                assert(merge::weighted(t0, w) == pair_weight(terms, w, k as nat));
            }
        }
        k += 1;
    }
    proof {
        assert(terms.take(k as int) =~= terms);
    }
    let mut quad: Vec<PairCoeff> = Vec::new();
    let mut i: usize = 0;
    proof {
        assert(table@.take(0) =~= Seq::empty());
        lemma_floors_two(var_type, terms, terms.len());
        assert(merge::table_abs(table@) <= i64::MAX);
    }
    while i < table.len()
        invariant
            i <= table@.len(),
            merge::keys_ascend(table@),
            merge::table_abs(table@) <= i64::MAX,
            forall|j: int|
                0 <= j < table@.len() ==> is_pair_key((#[trigger] table@[j]).key@, n as nat),
            forall|j: int|
                0 <= j < quad@.len() ==> (#[trigger] quad@[j]).a < quad@[j].b < n && quad@[j].coeff
                    != 0,
            forall|j: int|
                0 <= j < quad@.len() && i < table@.len() ==> merge::lex_lt(
                    pair_of(#[trigger] quad@[j]),
                    table@[i as int].key@,
                ),
            forall|p: int, q: int|
                0 <= p < q < quad@.len() ==> merge::lex_lt(
                    pair_of(#[trigger] quad@[p]),
                    pair_of(#[trigger] quad@[q]),
                ),
            forall|w: spec_fn(Seq<usize>) -> int| #[trigger]
                quad_weight(quad@, w, quad@.len()) == merge::weighted(table@.take(i as int), w),
            quad_abs(quad@, quad@.len()) == merge::table_abs(table@.take(i as int)),
        decreases table@.len() - i,
    {
        let ghost q0 = quad@;
        let ghost e = table@[i as int];
        proof {
            merge::lemma_table_abs_entry(table@, i as int);
            assert(is_pair_key(table@[i as int].key@, n as nat));
            assert(table@.take(i + 1).drop_last() =~= table@.take(i as int));
        }
        if table[i].sum != 0 {
            let coeff: i64 = table[i].sum as i64;
            let pc = PairCoeff { a: table[i].key[0], b: table[i].key[1], coeff };
            quad.push(pc);
            proof {
                assert(pair_of(pc) =~= e.key@);
                assert forall|w: spec_fn(Seq<usize>) -> int| #[trigger]
                    quad_weight(quad@, w, quad@.len()) == merge::weighted(
                        table@.take(i + 1),
                        w,
                    ) by {
                    lemma_quad_weight_push(q0, pc, w);
                    assert(quad_weight(q0, w, q0.len()) == merge::weighted(
                        table@.take(i as int),
                        w,
                    ));
                }
                lemma_quad_abs_push(q0, pc);
            }
        } else {
            proof {
                assert forall|w: spec_fn(Seq<usize>) -> int| #[trigger]
                    quad_weight(quad@, w, quad@.len()) == merge::weighted(
                        table@.take(i + 1),
                        w,
                    ) by {
                    assert(quad_weight(q0, w, q0.len()) == merge::weighted(
                        table@.take(i as int),
                        w,
                    ));
                    assert(0 * w(e.key@) == 0);
                }
            }
        }
        proof {
            if i + 1 < table@.len() {
                assert forall|j: int| 0 <= j < quad@.len() implies merge::lex_lt(
                    pair_of(#[trigger] quad@[j]),
                    table@[i + 1].key@,
                ) by {
                    assert(merge::lex_lt(table@[i as int].key@, table@[i + 1].key@));
                    if j < q0.len() {
                        assert(quad@[j] == q0[j]);
                        merge::lemma_lex_trans(
                            pair_of(q0[j]),
                            table@[i as int].key@,
                            table@[i + 1].key@,
                        );
                    }
                }
            }
        }
        i += 1;
    }
    proof {
        assert(table@.take(i as int) =~= table@);
        lemma_table_nonneg(table@);
    }
    ReducedQuadratic {
        var_type,
        n_free: n,
        base_offset: a.base_offset,
        linear,
        quad,
        higher_order_trivial: higher,
    }
}

/// An ascending pair of variables below `n`.
pub open spec fn is_pair_key(key: Seq<usize>, n: nat) -> bool {
    key.len() == 2 && key[0] < key[1] < n
}

proof fn lemma_table_nonneg(t: Seq<KeySum>)
    ensures
        merge::table_abs(t) >= 0,
    decreases t.len(),
{
    if t.len() > 0 {
        lemma_table_nonneg(t.drop_last());
    }
}

proof fn lemma_quad_weight_push(q: Seq<PairCoeff>, p: PairCoeff, w: spec_fn(Seq<usize>) -> int)
    ensures
        quad_weight(q.push(p), w, q.len() + 1) == quad_weight(q, w, q.len()) + p.coeff * w(
            pair_of(p),
        ),
{
    lemma_quad_weight_prefix(q, p, w, q.len());
}

proof fn lemma_quad_weight_prefix(
    q: Seq<PairCoeff>,
    p: PairCoeff,
    w: spec_fn(Seq<usize>) -> int,
    k: nat,
)
    requires
        k <= q.len(),
    ensures
        quad_weight(q.push(p), w, k) == quad_weight(q, w, k),
    decreases k,
{
    if k > 0 {
        lemma_quad_weight_prefix(q, p, w, (k - 1) as nat);
    }
}

proof fn lemma_quad_abs_push(q: Seq<PairCoeff>, p: PairCoeff)
    ensures
        quad_abs(q.push(p), q.len() + 1) == quad_abs(q, q.len()) + term::abs(p.coeff as int),
{
    lemma_quad_abs_prefix(q, p, q.len());
}

proof fn lemma_quad_abs_prefix(q: Seq<PairCoeff>, p: PairCoeff, k: nat)
    requires
        k <= q.len(),
    ensures
        quad_abs(q.push(p), k) == quad_abs(q, k),
    decreases k,
{
    if k > 0 {
        lemma_quad_abs_prefix(q, p, (k - 1) as nat);
    }
}

/// What is left of an instance as a quadratic form.
pub fn reduce_to_quadratic<V: VarDomain>(instance: &HuboInstance<V>, fixes: &Fixes) -> (r:
    ReducedQuadratic)
    requires
        instance.wf(),
        instance.fits(),
        fixes.wf(),
    ensures
        is_reduced_of(instance, fixes@, &r),
{
    let a = active::active_terms(instance, fixes);
    let r = collect(V::var_type(), &a);
    assert(is_reduced_by(instance, fixes@, &a, &r));
    r
}

/// The quadratic form of the instance under fixes.
pub open spec fn is_reduced_of<V: VarDomain>(
    instance: &HuboInstance<V>,
    g: Seq<Option<bool>>,
    q: &ReducedQuadratic,
) -> bool {
    exists|a: ActiveTerms| #[trigger] is_reduced_by(instance, g, &a, q)
}

/// The quadratic form of the active terms `a`.
pub open spec fn is_reduced_by<V: VarDomain>(
    instance: &HuboInstance<V>,
    g: Seq<Option<bool>>,
    a: &ActiveTerms,
    q: &ReducedQuadratic,
) -> bool {
    &&& active::is_active_part(instance, g, a)
    &&& active::is_tidy(a.base_offset, a.terms@, a.free_globals@.len())
    &&& is_reduced(V::tag(), a.base_offset, a.terms@, a.free_globals@.len(), q)
    &&& abs_total(q.linear@, q.linear@.len()) + quad_abs(q.quad@, q.quad@.len())
        - q.higher_order_trivial <= term::abs_sum(a.terms@)
    &&& abs_total(q.linear@, q.linear@.len()) >= 0
    &&& quad_abs(q.quad@, q.quad@.len()) >= 0
}

/// The value of the linear part at an assignment.
pub open spec fn linear_value(vt: VarType, linear: Seq<i64>, y: Seq<bool>, k: nat) -> int
    decreases k,
{
    if k == 0 {
        0
    } else {
        linear_value(vt, linear, y, (k - 1) as nat) + linear[k - 1] * term::bit_value(vt, y[k - 1])
    }
}

/// The value of the quadratic form at an assignment.
pub open spec fn form_value(q: &ReducedQuadratic, y: Seq<bool>) -> int {
    q.base_offset + q.higher_order_trivial + linear_value(
        q.var_type,
        q.linear@,
        y,
        q.linear@.len(),
    ) + quad_weight(q.quad@, |s: Seq<usize>| term::monomial(q.var_type, s, y), q.quad@.len())
}

/// The value of the single-variable terms among the first `k`.
spec fn single_value(vt: VarType, terms: Seq<Term>, y: Seq<bool>, k: nat) -> int
    decreases k,
{
    if k == 0 {
        0
    } else {
        single_value(vt, terms, y, (k - 1) as nat) + (if terms[k - 1].indices@.len() == 1 {
            terms[k - 1].coeff * term::monomial(vt, terms[k - 1].indices@, y)
        } else {
            0
        })
    }
}

/// The weights of single variables by the first `k` terms, at an assignment.
spec fn weights_value(vt: VarType, terms: Seq<Term>, y: Seq<bool>, k: nat, i: nat) -> int
    decreases i,
{
    if i == 0 {
        0
    } else {
        weights_value(vt, terms, y, k, (i - 1) as nat) + lasserre::moment_weight(
            terms,
            1,
            seq![(i - 1) as usize],
            k,
        ) * term::bit_value(vt, y[i - 1])
    }
}

proof fn lemma_weights_step(vt: VarType, terms: Seq<Term>, y: Seq<bool>, k: nat, i: nat)
    requires
        k < terms.len(),
        i <= usize::MAX,
    ensures
        weights_value(vt, terms, y, k + 1, i) == weights_value(vt, terms, y, k, i) + (if terms[k as int].indices@.len()
            == 1 && terms[k as int].indices@[0] < i {
            terms[k as int].coeff * term::bit_value(vt, y[terms[k as int].indices@[0] as int])
        } else {
            0
        }),
    decreases i,
{
    if i > 0 {
        let j = (i - 1) as nat;
        lemma_weights_step(vt, terms, y, k, j);
        let idx = terms[k as int].indices@;
        let s = seq![j as usize];
        let b = term::bit_value(vt, y[j as int]);
        let w0 = lasserre::moment_weight(terms, 1, s, k);
        let c = terms[k as int].coeff as int;
        if idx.len() == 1 && idx[0] == j {
            assert(idx =~= s);
            assert((w0 + c) * b == w0 * b + c * b) by (nonlinear_arith);
        } else {
            assert(idx != s) by {
                if idx == s {
                    assert(idx[0] == s[0]);
                }
            }
        }
    }
}

proof fn lemma_weights_single(vt: VarType, terms: Seq<Term>, y: Seq<bool>, k: nat)
    requires
        k <= terms.len(),
        y.len() <= usize::MAX,
        forall|i: int|
            0 <= i < terms.len() ==> active::is_tidy_list((#[trigger] terms[i]).indices@, y.len()),
    ensures
        weights_value(vt, terms, y, k, y.len()) == single_value(vt, terms, y, k),
    decreases k,
{
    if k == 0 {
        lemma_weights_none(vt, terms, y, y.len());
    } else {
        let k1 = (k - 1) as nat;
        lemma_weights_single(vt, terms, y, k1);
        lemma_weights_step(vt, terms, y, k1, y.len());
        let idx = terms[k1 as int].indices@;
        assert(active::is_tidy_list(terms[k1 as int].indices@, y.len()));
        if idx.len() == 1 {
            assert(idx[0] < y.len());
            assert(idx.drop_last() =~= Seq::empty());
            reveal_with_fuel(term::monomial, 2);
            let b = term::bit_value(vt, y[idx[0] as int]);
            assert(1 * b == b);
        }
    }
}

proof fn lemma_weights_none(vt: VarType, terms: Seq<Term>, y: Seq<bool>, i: nat)
    ensures
        weights_value(vt, terms, y, 0, i) == 0,
    decreases i,
{
    if i > 0 {
        lemma_weights_none(vt, terms, y, (i - 1) as nat);
        assert(0 * term::bit_value(vt, y[i - 1]) == 0);
    }
}

proof fn lemma_linear_weights(
    vt: VarType,
    terms: Seq<Term>,
    linear: Seq<i64>,
    y: Seq<bool>,
    k: nat,
    i: nat,
)
    requires
        i <= linear.len(),
        forall|j: int|
            0 <= j < linear.len() ==> #[trigger] linear[j] == lasserre::moment_weight(
                terms,
                1,
                seq![j as usize],
                k,
            ),
    ensures
        linear_value(vt, linear, y, i) == weights_value(vt, terms, y, k, i),
    decreases i,
{
    if i > 0 {
        lemma_linear_weights(vt, terms, linear, y, k, (i - 1) as nat);
        assert(linear[i - 1] == lasserre::moment_weight(terms, 1, seq![(i - 1) as usize], k));
    }
}

proof fn lemma_split_value(vt: VarType, terms: Seq<Term>, m: nat, y: Seq<bool>, k: nat)
    requires
        k <= terms.len(),
        forall|i: int|
            0 <= i < terms.len() ==> active::is_tidy_list((#[trigger] terms[i]).indices@, m),
    ensures
        single_value(vt, terms, y, k) + pair_weight(
            terms,
            |s: Seq<usize>| term::monomial(vt, s, y),
            k,
        ) + lasserre::floors_above(vt, terms, 2, k) <= term::poly(vt, terms.take(k as int), y),
    decreases k,
{
    if k == 0 {
        assert(terms.take(0) =~= Seq::empty());
    } else {
        let k1 = (k - 1) as nat;
        lemma_split_value(vt, terms, m, y, k1);
        assert(terms.take(k as int).drop_last() =~= terms.take(k1 as int));
        assert(active::is_tidy_list(terms[k1 as int].indices@, m));
        lasserre::lemma_term_floor(vt, terms[k1 as int].indices@, terms[k1 as int].coeff as int, y);
    }
}

/// The quadratic form is at most the objective of the extension by the fixes, at
/// every assignment of the free variables.
pub proof fn form_is_below<V: VarDomain>(
    instance: &HuboInstance<V>,
    g: Seq<Option<bool>>,
    q: &ReducedQuadratic,
    y: Seq<bool>,
)
    requires
        instance.wf(),
        instance.fits(),
        instance.n() <= usize::MAX,
        is_reduced_of(instance, g, q),
        y.len() == q.n_free,
    ensures
        form_value(q, y) <= instance.objective(
            crate::restriction::lifted(
                crate::restriction::fixes_of(g, instance.n() as int),
                y,
            ),
        ),
{
    let a = choose|a: ActiveTerms| #[trigger] is_reduced_by(instance, g, &a, q);
    let terms = a.terms@;
    let k = terms.len();
    let vt = V::tag();
    lemma_split_value(vt, terms, y.len(), y, k);
    lemma_weights_single(vt, terms, y, k);
    lemma_linear_weights(vt, terms, q.linear@, y, k, y.len());
    assert(terms.take(k as int) =~= terms);
    active::active_part_keeps_objective(instance, g, &a, y);
    let w = |s: Seq<usize>| term::monomial(vt, s, y);
    assert(quad_weight(q.quad@, w, q.quad@.len()) == pair_weight(terms, w, k));
}

/// The least values of the first `k` numbers, in all.
pub open spec fn linear_floor(vt: VarType, linear: Seq<i64>, k: nat) -> int
    decreases k,
{
    if k == 0 {
        0
    } else {
        linear_floor(vt, linear, (k - 1) as nat) + lasserre::term_floor(vt, linear[k - 1] as int)
    }
}

/// The least values of the first `k` pairs, in all.
pub open spec fn quad_floor(vt: VarType, quad: Seq<PairCoeff>, k: nat) -> int
    decreases k,
{
    if k == 0 {
        0
    } else {
        quad_floor(vt, quad, (k - 1) as nat) + lasserre::term_floor(vt, quad[k - 1].coeff as int)
    }
}

/// The bound of a quadratic form by its coefficients.
pub open spec fn form_floor(q: &ReducedQuadratic) -> int {
    q.base_offset + q.higher_order_trivial + linear_floor(
        q.var_type,
        q.linear@,
        q.linear@.len(),
    ) + quad_floor(q.var_type, q.quad@, q.quad@.len())
}

proof fn lemma_linear_floor(vt: VarType, linear: Seq<i64>, y: Seq<bool>, k: nat)
    requires
        k <= linear.len(),
    ensures
        linear_floor(vt, linear, k) <= linear_value(vt, linear, y, k),
        -abs_total(linear, k) <= linear_floor(vt, linear, k) <= 0,
    decreases k,
{
    if k > 0 {
        lemma_linear_floor(vt, linear, y, (k - 1) as nat);
        let s = seq![(k - 1) as usize];
        let c = linear[k - 1] as int;
        let b = term::bit_value(vt, y[k - 1]);
        assert(c * b == if b == 0 { 0 } else if b == 1 { c } else { -c }) by (nonlinear_arith)
            requires
                b == 0 || b == 1 || b == -1,
        ;
    }
}

proof fn lemma_quad_floor(vt: VarType, quad: Seq<PairCoeff>, y: Seq<bool>, k: nat)
    requires
        k <= quad.len(),
    ensures
        quad_floor(vt, quad, k) <= quad_weight(quad, |s: Seq<usize>| term::monomial(vt, s, y), k),
        -quad_abs(quad, k) <= quad_floor(vt, quad, k) <= 0,
    decreases k,
{
    if k > 0 {
        lemma_quad_floor(vt, quad, y, (k - 1) as nat);
        lasserre::lemma_term_floor(vt, pair_of(quad[k - 1]), quad[k - 1].coeff as int, y);
    }
}

/// The bound by the coefficients is at most every value of the form.
pub proof fn form_floor_is_below(q: &ReducedQuadratic, y: Seq<bool>)
    ensures
        form_floor(q) <= form_value(q, y),
{
    lemma_linear_floor(q.var_type, q.linear@, y, q.linear@.len());
    lemma_quad_floor(q.var_type, q.quad@, y, q.quad@.len());
}

proof fn lemma_quad_abs_nonneg(quad: Seq<PairCoeff>, k: nat)
    ensures
        quad_abs(quad, k) >= 0,
    decreases k,
{
    if k > 0 {
        lemma_quad_abs_nonneg(quad, (k - 1) as nat);
    }
}

pub proof fn lemma_abs_total_prefix(s: Seq<i64>, j: nat, k: nat)
    requires
        j <= k <= s.len(),
    ensures
        0 <= abs_total(s, j) <= abs_total(s, k),
    decreases k,
{
    if k > 0 {
        if j < k {
            lemma_abs_total_prefix(s, j, (k - 1) as nat);
        } else {
            lemma_abs_total_prefix(s, (j - 1) as nat, (k - 1) as nat);
        }
    }
}

pub proof fn lemma_quad_abs_prefix_le(s: Seq<PairCoeff>, j: nat, k: nat)
    requires
        j <= k <= s.len(),
    ensures
        0 <= quad_abs(s, j) <= quad_abs(s, k),
    decreases k,
{
    if k > 0 {
        if j < k {
            lemma_quad_abs_prefix_le(s, j, (k - 1) as nat);
        } else {
            lemma_quad_abs_prefix_le(s, (j - 1) as nat, (k - 1) as nat);
        }
    }
}

/// The form fits together with its bound.
pub open spec fn form_fits(q: &ReducedQuadratic) -> bool {
    &&& term::abs(q.base_offset as int) + abs_total(q.linear@, q.linear@.len()) + quad_abs(
        q.quad@,
        q.quad@.len(),
    ) - q.higher_order_trivial <= i64::MAX
    &&& q.higher_order_trivial <= 0
}

/// The quadratic form of an instance that fits does too.
pub proof fn lemma_form_fits<V: VarDomain>(
    instance: &HuboInstance<V>,
    g: Seq<Option<bool>>,
    q: &ReducedQuadratic,
)
    requires
        instance.fits(),
        is_reduced_of(instance, g, q),
    ensures
        form_fits(q),
{
    let a = choose|a: ActiveTerms| #[trigger] is_reduced_by(instance, g, &a, q);
    active::lemma_abs_sum_nonneg(a.terms@);
    lemma_floors_two(V::tag(), a.terms@, a.terms@.len());
}

/// The bound of a quadratic form by its coefficients.
pub fn cheap_form_bound(q: &ReducedQuadratic) -> (r: i64)
    requires
        form_fits(q),
    ensures
        r == form_floor(q),
{
    let ghost y = Seq::<bool>::empty();
    proof {
        lemma_abs_total_prefix(q.linear@, 0, q.linear@.len());
        lemma_quad_abs_nonneg(q.quad@, q.quad@.len());
    }
    let mut sum: i64 = q.base_offset + q.higher_order_trivial;
    let mut i: usize = 0;
    while i < q.linear.len()
        invariant
            i <= q.linear@.len(),
            form_fits(q),
            quad_abs(q.quad@, q.quad@.len()) >= 0,
            sum == q.base_offset + q.higher_order_trivial + linear_floor(
                q.var_type,
                q.linear@,
                i as nat,
            ),
        decreases q.linear@.len() - i,
    {
        proof {
            lemma_linear_floor(q.var_type, q.linear@, y, (i + 1) as nat);
            lemma_linear_floor(q.var_type, q.linear@, y, i as nat);
            lemma_abs_total_prefix(q.linear@, (i + 1) as nat, q.linear@.len());
            lemma_abs_total_prefix(q.linear@, i as nat, (i + 1) as nat);
        }
        sum = sum + lasserre::termwise_min(q.linear[i], q.var_type);
        i += 1;
    }
    let mut j: usize = 0;
    while j < q.quad.len()
        invariant
            j <= q.quad@.len(),
            form_fits(q),
            sum == q.base_offset + q.higher_order_trivial + linear_floor(
                q.var_type,
                q.linear@,
                q.linear@.len(),
            ) + quad_floor(q.var_type, q.quad@, j as nat),
        decreases q.quad@.len() - j,
    {
        proof {
            lemma_linear_floor(q.var_type, q.linear@, y, q.linear@.len());
            lemma_abs_total_prefix(q.linear@, 0, q.linear@.len());
            lemma_quad_floor(q.var_type, q.quad@, y, (j + 1) as nat);
            lemma_quad_floor(q.var_type, q.quad@, y, j as nat);
            lemma_quad_abs_prefix_le(q.quad@, (j + 1) as nat, q.quad@.len());
            lemma_quad_abs_prefix_le(q.quad@, j as nat, (j + 1) as nat);
        }
        sum = sum + lasserre::termwise_min(q.quad[j].coeff, q.var_type);
        j += 1;
    }
    sum
}

/// A bound that is known, or a sparse relaxation still to be solved.
pub enum ChordalRelaxation {
    Known(i64),
    Blocks { reduced: ReducedQuadratic, decomposition: ChordalSdpDecomposition },
}

/// The pairs of a form.
pub open spec fn pairs_of(quad: Seq<PairCoeff>) -> Seq<(usize, usize)> {
    Seq::new(quad.len(), |i: int| (quad[i].a, quad[i].b))
}

/// The decomposition of a form: its graph completed by minimum fill, with the
/// maximal cliques of the completion.
pub open spec fn is_decomposition(q: &ReducedQuadratic, d: &ChordalSdpDecomposition) -> bool {
    let n = q.n_free as nat;
    let g = chordal::edge_graph(n, pairs_of(q.quad@));
    let h = chordal::eliminated(g, d.peo@, n);
    &&& d.n_vars == q.n_free
    &&& d.peo@.len() == n
    &&& chordal::is_min_fill_order(g, d.peo@)
    &&& chordal::are_added(g, h, d.fill_edges@)
    &&& lists::in_list_order(false, d.maximal_cliques@)
    &&& forall|c: Seq<usize>| #[trigger]
        lists::has_list(d.maximal_cliques@, c) == cliques::is_maximal(h, d.peo@, c)
    &&& d.rip_holds == cliques::is_running_intersection(d.maximal_cliques@)
}

/// The sparse relaxation of an instance under fixes: the offset when nothing is
/// free, the bound by the coefficients when too much is, else the form with its
/// decomposition.
pub open spec fn is_chordal_relaxation<V: VarDomain>(
    instance: &HuboInstance<V>,
    g: Seq<Option<bool>>,
    max_vars: usize,
    r: ChordalRelaxation,
) -> bool {
    exists|q: ReducedQuadratic| #[trigger]
        is_reduced_of(instance, g, &q) && (if q.n_free == 0 {
            r matches ChordalRelaxation::Known(b) && b == q.base_offset
        } else if q.n_free > max_vars {
            r matches ChordalRelaxation::Known(b) && b == form_floor(&q)
        } else {
            r matches ChordalRelaxation::Blocks { reduced, decomposition } && reduced == q
                && is_decomposition(&q, &decomposition)
        })
}

/// The sparse relaxation of an instance under fixes.
pub fn prepare_chordal<V: VarDomain>(
    instance: &HuboInstance<V>,
    fixes: &Fixes,
    max_vars: usize,
) -> (r: ChordalRelaxation)
    requires
        instance.wf(),
        instance.fits(),
        fixes.wf(),
    ensures
        is_chordal_relaxation(instance, fixes@, max_vars, r),
        r matches ChordalRelaxation::Blocks { reduced, decomposition } ==> form_fits(&reduced),
{
    let reduced = reduce_to_quadratic(instance, fixes);
    if reduced.n_free == 0 {
        return ChordalRelaxation::Known(reduced.base_offset);
    }
    let ghost a = choose|a: ActiveTerms| #[trigger] is_reduced_by(instance, fixes@, &a, &reduced);
    proof {
        active::lemma_abs_sum_nonneg(a.terms@);
        lemma_floors_two(V::tag(), a.terms@, a.terms@.len());
    }
    if reduced.n_free > max_vars {
        let b: i64 = cheap_form_bound(&reduced);
        return ChordalRelaxation::Known(b);
    }
    let mut edges: Vec<(usize, usize)> = Vec::new();
    let mut i: usize = 0;
    while i < reduced.quad.len()
        invariant
            i <= reduced.quad@.len(),
            edges@ == pairs_of(reduced.quad@).take(i as int),
        decreases reduced.quad@.len() - i,
    {
        edges.push((reduced.quad[i].a, reduced.quad[i].b));
        i += 1;
        assert(edges@ =~= pairs_of(reduced.quad@).take(i as int));
    }
    assert(edges@ =~= pairs_of(reduced.quad@));
    let n: usize = reduced.n_free;
    let (adj, peo, fill_edges) = chordal::min_fill_completion(n, &edges);
    let maximal_cliques = cliques::maximal_cliques_from_peo(&adj, &peo);
    proof {
        let h = chordal::rows_of(adj@);
        assert forall|i: int| 0 <= i < maximal_cliques@.len() implies sets::ascending(
            (#[trigger] maximal_cliques@[i])@,
        ) by {
            let c = maximal_cliques@[i]@;
            assert(lists::has_list(maximal_cliques@, c));
            let k = choose|k: int| #[trigger] cliques::is_candidate(h, peo@, k, c);
        }
    }
    let rip_holds: bool = cliques::running_intersection_holds(&maximal_cliques);
    let decomposition = ChordalSdpDecomposition {
        n_vars: n,
        peo,
        fill_edges,
        maximal_cliques,
        rip_holds,
    };
    assert(is_decomposition(&reduced, &decomposition));
    ChordalRelaxation::Blocks { reduced, decomposition }
}

/// A relaxation over one moment matrix, or over those of the cliques of a
/// quadratic form.
pub enum SdpRelaxation {
    Dense { state: LasserreSdpState, relaxation: Relaxation },
    Sparse(ChordalRelaxation),
}

/// The relaxation of an instance under fixes: sparse at level one, dense above.
pub fn chordal_lasserre_relaxation<V: VarDomain>(
    instance: &HuboInstance<V>,
    fixes: &Fixes,
    cfg: &LasserreConfig,
) -> (r: SdpRelaxation)
    requires
        instance.wf(),
        instance.fits(),
        fixes.wf(),
        2 * cfg.level <= usize::MAX,
    ensures
        match r {
            SdpRelaxation::Dense { state, relaxation } => {
                &&& cfg.level >= 2
                &&& state.is_of(instance, fixes@)
                &&& state.wf()
                &&& state.d == cfg.level
                &&& state.max_basis == cfg.max_basis
                &&& lasserre::is_limited_relaxation(&state, cfg.max_vars, relaxation)
            },
            SdpRelaxation::Sparse(relaxation) => {
                &&& cfg.level <= 1
                &&& is_chordal_relaxation(instance, fixes@, cfg.max_vars, relaxation)
                &&& relaxation matches ChordalRelaxation::Blocks { reduced, decomposition }
                    ==> form_fits(&reduced)
            },
        },
{
    if cfg.level >= 2 {
        let (state, relaxation) = lasserre::lasserre_relaxation(instance, fixes, cfg);
        SdpRelaxation::Dense { state, relaxation }
    } else {
        SdpRelaxation::Sparse(prepare_chordal(instance, fixes, cfg.max_vars))
    }
}

proof fn lemma_split_exact(vt: VarType, terms: Seq<Term>, m: nat, y: Seq<bool>, k: nat)
    requires
        k <= terms.len(),
        forall|i: int|
            0 <= i < terms.len() ==> active::is_tidy_list((#[trigger] terms[i]).indices@, m)
                && terms[i].indices@.len() <= 2,
    ensures
        single_value(vt, terms, y, k) + pair_weight(
            terms,
            |s: Seq<usize>| term::monomial(vt, s, y),
            k,
        ) == term::poly(vt, terms.take(k as int), y),
        lasserre::floors_above(vt, terms, 2, k) == 0,
    decreases k,
{
    if k == 0 {
        assert(terms.take(0) =~= Seq::empty());
    } else {
        let k1 = (k - 1) as nat;
        lemma_split_exact(vt, terms, m, y, k1);
        assert(terms.take(k as int).drop_last() =~= terms.take(k1 as int));
        assert(active::is_tidy_list(terms[k1 as int].indices@, m));
    }
}

/// Where no active term has more than two variables, the form is the objective at
/// every assignment of the free variables.
pub proof fn form_is_exact<V: VarDomain>(
    instance: &HuboInstance<V>,
    g: Seq<Option<bool>>,
    a: &ActiveTerms,
    q: &ReducedQuadratic,
    y: Seq<bool>,
)
    requires
        instance.wf(),
        instance.fits(),
        instance.n() <= usize::MAX,
        is_reduced_by(instance, g, a, q),
        forall|i: int|
            0 <= i < a.terms@.len() ==> (#[trigger] a.terms@[i]).indices@.len() <= 2,
        y.len() == q.n_free,
    ensures
        form_value(q, y) == instance.objective(
            crate::restriction::lifted(
                crate::restriction::fixes_of(g, instance.n() as int),
                y,
            ),
        ),
{
    let terms = a.terms@;
    let k = terms.len();
    let vt = V::tag();
    lemma_split_exact(vt, terms, y.len(), y, k);
    lemma_weights_single(vt, terms, y, k);
    lemma_linear_weights(vt, terms, q.linear@, y, k, y.len());
    assert(terms.take(k as int) =~= terms);
    active::active_part_keeps_objective(instance, g, a, y);
    let w = |s: Seq<usize>| term::monomial(vt, s, y);
    assert(quad_weight(q.quad@, w, q.quad@.len()) == pair_weight(terms, w, k));
}

/// The first `k` pairs, each at an assignment of its own.
pub open spec fn picked_pairs(
    vt: VarType,
    quad: Seq<PairCoeff>,
    zs: Seq<Seq<bool>>,
    k: nat,
) -> int
    decreases k,
{
    if k == 0 {
        0
    } else {
        picked_pairs(vt, quad, zs, (k - 1) as nat) + quad[k - 1].coeff * term::monomial(
            vt,
            pair_of(quad[k - 1]),
            zs[k - 1],
        )
    }
}

proof fn lemma_least_linear(vt: VarType, linear: Seq<i64>, k: nat) -> (y: Seq<bool>)
    requires
        k <= linear.len(),
    ensures
        y.len() == k,
        linear_value(vt, linear, y, k) == linear_floor(vt, linear, k),
    decreases k,
{
    if k == 0 {
        Seq::empty()
    } else {
        let before = lemma_least_linear(vt, linear, (k - 1) as nat);
        let c = linear[k - 1] as int;
        let y = before.push(c < 0);
        lemma_linear_same(vt, linear, before, y, (k - 1) as nat);
        assert(c * 0 == 0 && c * 1 == c && c * -1 == -c);
        y
    }
}

proof fn lemma_linear_same(vt: VarType, linear: Seq<i64>, a: Seq<bool>, b: Seq<bool>, k: nat)
    requires
        forall|i: int| 0 <= i < k ==> a[i] == #[trigger] b[i],
    ensures
        linear_value(vt, linear, a, k) == linear_value(vt, linear, b, k),
    decreases k,
{
    if k > 0 {
        lemma_linear_same(vt, linear, a, b, (k - 1) as nat);
        assert(a[k - 1] == b[k - 1]);
    }
}

proof fn lemma_least_pairs(vt: VarType, quad: Seq<PairCoeff>, n: nat, k: nat) -> (zs: Seq<
    Seq<bool>,
>)
    requires
        k <= quad.len(),
        forall|i: int|
            0 <= i < quad.len() ==> (#[trigger] quad[i]).a < quad[i].b && quad[i].b < n,
    ensures
        zs.len() == k,
        forall|i: int| 0 <= i < k ==> (#[trigger] zs[i]).len() == n,
        picked_pairs(vt, quad, zs, k) == quad_floor(vt, quad, k),
    decreases k,
{
    if k == 0 {
        Seq::empty()
    } else {
        let before = lemma_least_pairs(vt, quad, n, (k - 1) as nat);
        let p = pair_of(quad[k - 1]);
        let c = quad[k - 1].coeff as int;
        assert(quad[k - 1].a < quad[k - 1].b && quad[k - 1].b < n);
        let high = Seq::new(n, |i: int| true);
        let z = if c < 0 {
            high
        } else {
            high.update(p[0] as int, false)
        };
        let first = p.drop_last();
        assert(first =~= seq![p[0]]);
        assert(first.drop_last() =~= Seq::empty());
        reveal_with_fuel(term::monomial, 3);
        let b = term::bit_value(vt, z[p[0] as int]);
        assert(1 * b == b && b * 1 == b);
        assert(term::monomial(vt, p, z) == b);
        assert(c * 0 == 0 && c * 1 == c && c * -1 == -c);
        let zs = before.push(z);
        lemma_pairs_same(vt, quad, before, zs, (k - 1) as nat);
        assert forall|i: int| 0 <= i < k implies (#[trigger] zs[i]).len() == n by {
            if i < k - 1 {
                assert(zs[i] == before[i]);
            }
        }
        zs
    }
}

proof fn lemma_pairs_same(
    vt: VarType,
    quad: Seq<PairCoeff>,
    a: Seq<Seq<bool>>,
    b: Seq<Seq<bool>>,
    k: nat,
)
    requires
        forall|i: int| 0 <= i < k ==> a[i] == #[trigger] b[i],
    ensures
        picked_pairs(vt, quad, a, k) == picked_pairs(vt, quad, b, k),
    decreases k,
{
    if k > 0 {
        lemma_pairs_same(vt, quad, a, b, (k - 1) as nat);
        assert(a[k - 1] == b[k - 1]);
    }
}

/// The bound by the coefficients leaves no slack in any of them: it adds up the linear
/// part at one assignment and values that the pairs take, each at an assignment of
/// its own.
pub proof fn form_floor_adds_attained_values(q: &ReducedQuadratic) -> (r: (
    Seq<bool>,
    Seq<Seq<bool>>,
))
    requires
        q.linear@.len() == q.n_free,
        forall|i: int|
            0 <= i < q.quad@.len() ==> (#[trigger] q.quad@[i]).a < q.quad@[i].b && q.quad@[i].b
                < q.n_free,
    ensures
        r.0.len() == q.n_free,
        r.1.len() == q.quad@.len(),
        forall|i: int| 0 <= i < r.1.len() ==> (#[trigger] r.1[i]).len() == q.n_free,
        form_floor(q) == q.base_offset + q.higher_order_trivial + linear_value(
            q.var_type,
            q.linear@,
            r.0,
            q.linear@.len(),
        ) + picked_pairs(q.var_type, q.quad@, r.1, q.quad@.len()),
{
    let y = lemma_least_linear(q.var_type, q.linear@, q.linear@.len());
    let zs = lemma_least_pairs(q.var_type, q.quad@, q.n_free as nat, q.quad@.len());
    (y, zs)
}

} // verus!
