//! Roof duality for instances of degree at most two.

use crate::domain::{VarDomain, VarType};
use crate::instance::HuboInstance;
use crate::kernelization::coupling;
use crate::kernelization::dominance;
use crate::kernelization::persistency;
use crate::kernelization::qpbo;
use crate::merge::KeySum;
use crate::merge;
use crate::node::Node;
use crate::term::Term;
use crate::term;
use vstd::prelude::*;

verus! {

/// What a term adds to the linear coefficient of variable `i` of the form over
/// bits. A spin is twice its bit less one.
pub open spec fn linear_part(vt: VarType, t: Term, i: usize) -> int {
    match vt {
        VarType::Bin => if t.indices@.len() == 1 && t.indices@[0] == i {
            t.coeff as int
        } else {
            0
        },
        VarType::Spin => if t.indices@.len() == 1 && t.indices@[0] == i {
            2 * t.coeff
        } else if t.indices@.len() == 2 && t.indices@.contains(i) {
            -2 * t.coeff
        } else {
            0
        },
    }
}

/// The linear coefficient of variable `i` over the first `k` terms.
pub open spec fn linear_of(vt: VarType, terms: Seq<Term>, i: usize, k: nat) -> int
    decreases k,
{
    if k == 0 {
        0
    } else {
        linear_of(vt, terms, i, (k - 1) as nat) + linear_part(vt, terms[k - 1], i)
    }
}

/// The two variables in ascending order.
pub open spec fn sorted_pair(idx: Seq<usize>) -> Seq<usize> {
    if idx[0] <= idx[1] {
        seq![idx[0], idx[1]]
    } else {
        seq![idx[1], idx[0]]
    }
}

/// What a product of two variables becomes over bits.
pub open spec fn pair_factor_of(vt: VarType) -> int {
    match vt {
        VarType::Bin => 1,
        VarType::Spin => 4,
    }
}

/// The product coefficients of the first `k` terms, weighted by pair.
pub open spec fn pair_sum(
    vt: VarType,
    terms: Seq<Term>,
    w: spec_fn(Seq<usize>) -> int,
    k: nat,
) -> int
    decreases k,
{
    if k == 0 {
        0
    } else {
        pair_sum(vt, terms, w, (k - 1) as nat) + (if terms[k - 1].indices@.len() == 2 {
            (pair_factor_of(vt) * terms[k - 1].coeff) * w(sorted_pair(terms[k - 1].indices@))
        } else {
            0
        })
    }
}

/// The constant of the form over the first `k` terms.
pub open spec fn constant_of(vt: VarType, terms: Seq<Term>, k: nat) -> int
    decreases k,
{
    if k == 0 {
        0
    } else {
        constant_of(vt, terms, (k - 1) as nat) + (if terms[k - 1].indices@.len() == 0 {
            terms[k - 1].coeff as int
        } else {
            match vt {
                VarType::Bin => 0,
                VarType::Spin => if terms[k - 1].indices@.len() == 1 {
                    -(terms[k - 1].coeff as int)
                } else {
                    terms[k - 1].coeff as int
                },
            }
        })
    }
}

/// The quadratic form over bits of the first `k` terms.
pub open spec fn is_form(
    vt: VarType,
    terms: Seq<Term>,
    n: nat,
    k: nat,
    lin: Seq<i128>,
    quad: Seq<KeySum>,
) -> bool {
    &&& lin.len() == n
    &&& forall|i: int| 0 <= i < n ==> #[trigger] lin[i] == linear_of(vt, terms, i as usize, k)
    &&& merge::keys_ascend(quad)
    &&& forall|w: spec_fn(Seq<usize>) -> int| #[trigger]
        merge::weighted(quad, w) == pair_sum(vt, terms, w, k)
}

/// Some term has more than two variables.
pub open spec fn beyond_quadratic(terms: Seq<Term>) -> bool {
    exists|t: int| 0 <= t < terms.len() && (#[trigger] terms[t]).indices@.len() > 2
}

/// The value of a label in the domain.
pub open spec fn label_decision(vt: VarType, r: Seq<Option<bool>>) -> spec_fn(usize) -> Option<
    i64,
> {
    |v: usize|
        match r[v as int] {
            Some(b) => Some(term::bit_value(vt, b) as i64),
            None => None,
        }
}

/// `list` fixes the persistent labels of the form of `terms`.
pub open spec fn is_labelled_by(
    vt: VarType,
    terms: Seq<Term>,
    n: nat,
    lin: Seq<i128>,
    quad: Seq<KeySum>,
    r: Seq<Option<bool>>,
    list: Seq<(usize, i64)>,
) -> bool {
    &&& is_form(vt, terms, n, terms.len(), lin, quad)
    &&& qpbo::pair_keys(n, quad)
    &&& qpbo::is_persistent_labels(n, lin, quad, r)
    &&& list == dominance::decided(coupling::all_vars(n), label_decision(vt, r))
}

/// `list` holds the roof-dual fixes of an instance.
pub open spec fn is_roof_fixes(
    vt: VarType,
    terms: Seq<Term>,
    n: nat,
    list: Seq<(usize, i64)>,
) -> bool {
    if n == 0 || beyond_quadratic(terms) {
        list.len() == 0
    } else {
        exists|lin: Seq<i128>, quad: Seq<KeySum>, r: Seq<Option<bool>>| #[trigger]
            is_labelled_by(vt, terms, n, lin, quad, r, list)
    }
}

/// Whether some term has more than two variables.
fn is_beyond_quadratic(terms: &Vec<Term>) -> (r: bool)
    ensures
        r == beyond_quadratic(terms@),
{
    let mut t: usize = 0;
    while t < terms.len()
        invariant
            t <= terms@.len(),
            forall|q: int| 0 <= q < t ==> (#[trigger] terms@[q]).indices@.len() <= 2,
        decreases terms@.len() - t,
    {
        if terms[t].indices.len() > 2 {
            assert(terms@[t as int].indices@.len() > 2);
            return true;
        }
        t += 1;
    }
    false
}

/// Add to one entry.
fn bump(v: &mut Vec<i128>, i: usize, c: i128)
    requires
        i < old(v)@.len(),
        i128::MIN <= old(v)@[i as int] + c <= i128::MAX,
    ensures
        final(v)@ == old(v)@.update(i as int, (old(v)@[i as int] + c) as i128),
{
    let a: i128 = v[i];
    v.set(i, a + c);
}

/// The quadratic form over bits of an instance of degree at most two.
fn quadratic_form<V: VarDomain>(instance: &HuboInstance<V>) -> (r: (Vec<i128>, Vec<KeySum>))
    requires
        instance.wf(),
        instance.fits(),
        !beyond_quadratic(instance.terms@),
    ensures
        is_form(
            V::tag(),
            instance.terms@,
            instance.n() as nat,
            instance.terms@.len(),
            r.0@,
            r.1@,
        ),
        qpbo::pair_keys(instance.n() as nat, r.1@),
        r.1@.len() <= instance.terms@.len(),
        forall|i: int| 0 <= i < r.0@.len() ==> #[trigger] r.0@[i] > i128::MIN,
{
    let vt = V::var_type();
    let n: usize = instance.n_vars();
    let ghost terms = instance.terms@;
    let mut lin: Vec<i128> = Vec::new();
    while lin.len() < n
        invariant
            lin@.len() <= n,
            forall|i: int| 0 <= i < lin@.len() ==> #[trigger] lin@[i] == 0,
        decreases n - lin@.len(),
    {
        lin.push(0);
    }
    let mut quad: Vec<KeySum> = Vec::new();
    let mut t: usize = 0;
    proof {
        assert(terms.take(0) =~= Seq::empty());
    }
    while t < instance.terms.len()
        invariant
            t <= terms.len(),
            terms == instance.terms@,
            vt == V::tag(),
            n == instance.n(),
            instance.wf(),
            instance.fits(),
            !beyond_quadratic(terms),
            is_form(vt, terms, n as nat, t as nat, lin@, quad@),
            quad@.len() <= t,
            merge::table_abs(quad@) <= 4 * term::abs_sum(terms.take(t as int)),
            forall|i: int|
                0 <= i < n ==> term::abs(#[trigger] lin@[i] as int) <= 2 * term::abs_sum(terms.take(t as int)),
            qpbo::pair_keys(n as nat, quad@),
        decreases terms.len() - t,
    {
        let ghost lin0 = lin@;
        let ghost quad0 = quad@;
        let ghost idx = terms[t as int].indices@;
        let c: i128 = instance.terms[t].coeff as i128;
        let len: usize = instance.terms[t].indices.len();
        proof {
            assert(term::indices_below(idx, n as int));
            assert(idx.no_duplicates());
            term::lemma_abs_sum_take(terms, t as int);
            term::lemma_abs_sum_take(terms, t + 1);
            assert(terms.take(t + 1).drop_last() =~= terms.take(t as int));
            assert(!(terms[t as int].indices@.len() > 2));
        }
        if len == 1 {
            let i: usize = instance.terms[t].indices[0];
            assert(idx[0] < n);
            assert(term::abs(lin0[i as int] as int) <= 2 * term::abs_sum(terms.take(t as int)));
            match vt {
                VarType::Bin => bump(&mut lin, i, c),
                VarType::Spin => bump(&mut lin, i, 2 * c),
            }
        } else if len == 2 {
            let i: usize = instance.terms[t].indices[0];
            let j: usize = instance.terms[t].indices[1];
            assert(idx[0] < n && idx[1] < n && idx[0] != idx[1]);
            assert(idx =~= seq![i, j]);
            assert(idx[0] == i && idx[1] == j);
            match vt {
                VarType::Bin => {},
                VarType::Spin => {
                    assert(term::abs(lin0[i as int] as int) <= 2 * term::abs_sum(terms.take(t as int)));
                    assert(term::abs(lin0[j as int] as int) <= 2 * term::abs_sum(terms.take(t as int)));
                    bump(&mut lin, i, -2 * c);
                    bump(&mut lin, j, -2 * c);
                },
            }
            let mut key: Vec<usize> = Vec::new();
            if i <= j {
                key.push(i);
                key.push(j);
            } else {
                key.push(j);
                key.push(i);
            }
            assert(key@ =~= sorted_pair(idx));
            let d: i128 = match vt {
                VarType::Bin => c,
                VarType::Spin => 4 * c,
            };
            let ghost gkey = key@;
            merge::add_to(&mut quad, key, d);
            proof {
                assert forall|k: int| 0 <= k < quad@.len() implies (#[trigger] quad@[k]).key@.len()
                    == 2 && quad@[k].key@[0] < quad@[k].key@[1] < n && quad@[k].sum > i128::MIN by {
                    merge::lemma_table_abs_entry(quad@, k);
                    if quad@[k].key@ != gkey {
                        let q = choose|q: int|
                            0 <= q < quad0.len() && #[trigger] quad0[q].key@ == quad@[k].key@;
                        assert(quad0[q].key@.len() == 2);
                    }
                }
            }
        }
        proof {
            assert forall|w: spec_fn(Seq<usize>) -> int| #[trigger] merge::weighted(quad@, w) == pair_sum(
                vt,
                terms,
                w,
                (t + 1) as nat,
            ) by {
                assert(merge::weighted(quad0, w) == pair_sum(vt, terms, w, t as nat));
            }
            assert forall|i: int| 0 <= i < n implies #[trigger] lin@[i] == linear_of(
                vt,
                terms,
                i as usize,
                (t + 1) as nat,
            ) by {
                assert(lin0[i] == linear_of(vt, terms, i as usize, t as nat));
                if len == 2 {
                    assert(idx.contains(idx[0]) && idx.contains(idx[1]));
                    if idx.contains(i as usize) {
                        let q = choose|q: int| 0 <= q < idx.len() && idx[q] == i as usize;
                        assert(q == 0 || q == 1);
                    }
                }
            }
            assert forall|i: int| 0 <= i < n implies term::abs(#[trigger] lin@[i] as int) <= 2 * term::abs_sum(
                terms.take(t + 1),
            ) by {
                assert(term::abs(lin0[i] as int) <= 2 * term::abs_sum(terms.take(t as int)));
            }
        }
        t += 1;
    }
    proof {
        assert(terms.take(t as int) =~= terms);
        assert forall|i: int| 0 <= i < lin@.len() implies #[trigger] lin@[i] > i128::MIN by {
            assert(term::abs(lin@[i] as int) <= 2 * term::abs_sum(terms));
        }
    }
    (lin, quad)
}

/// The fixes of the persistent labels of an instance's form.
fn roof_fixes<V: VarDomain>(instance: &HuboInstance<V>) -> (r: Vec<(usize, i64)>)
    requires
        instance.wf(),
        instance.fits(),
        4 * instance.n() + 8 * instance.terms@.len() + 2 < usize::MAX,
    ensures
        is_roof_fixes(V::tag(), instance.terms@, instance.n() as nat, r@),
{
    let n: usize = instance.n_vars();
    let mut list: Vec<(usize, i64)> = Vec::new();
    if n == 0 || is_beyond_quadratic(&instance.terms) {
        return list;
    }
    let (lin, quad) = quadratic_form(instance);
    let labels = qpbo::qpbo_fixings(n, &lin, &quad);
    let ghost d = label_decision(V::tag(), labels@);
    let ghost vars = coupling::all_vars(n as nat);
    let mut i: usize = 0;
    assert(vars.take(0) =~= Seq::empty());
    proof {
        let s = choose|s: Seq<bool>| #[trigger]
            qpbo::is_least_cut(n as nat, lin@, quad@, s) && labels@ == qpbo::labels(n as nat, s);
        assert(labels@.len() == n);
    }
    while i < n
        invariant
            i <= n,
            labels@.len() == n,
            vars == coupling::all_vars(n as nat),
            d == label_decision(V::tag(), labels@),
            list@ == dominance::decided(vars.take(i as int), d),
        decreases n - i,
    {
        assert(vars.take(i + 1).drop_last() =~= vars.take(i as int));
        assert(vars[i as int] == i);
        if let Some(b) = labels[i] {
            list.push((i, V::high_to_coeff(b)));
        }
        i += 1;
    }
    proof {
        assert(vars.take(i as int) =~= vars);
        assert(is_labelled_by(
            V::tag(),
            instance.terms@,
            n as nat,
            lin@,
            quad@,
            labels@,
            list@,
        ));
    }
    list
}

/// Roof duality over bits; nothing for other domains or higher degrees.
pub fn binary_roof_duality<V: VarDomain>(instance: &HuboInstance<V>) -> (r: Vec<(usize, i64)>)
    requires
        instance.wf(),
        instance.fits(),
        4 * instance.n() + 8 * instance.terms@.len() + 2 < usize::MAX,
    ensures
        V::tag() == VarType::Spin ==> r@.len() == 0,
        V::tag() == VarType::Bin ==> is_roof_fixes(
            V::tag(),
            instance.terms@,
            instance.n() as nat,
            r@,
        ),
{
    match V::var_type() {
        VarType::Bin => roof_fixes(instance),
        VarType::Spin => Vec::new(),
    }
}

/// Roof duality over spins; nothing for other domains or higher degrees.
pub fn spin_roof_duality<V: VarDomain>(instance: &HuboInstance<V>) -> (r: Vec<(usize, i64)>)
    requires
        instance.wf(),
        instance.fits(),
        4 * instance.n() + 8 * instance.terms@.len() + 2 < usize::MAX,
    ensures
        V::tag() == VarType::Bin ==> r@.len() == 0,
        V::tag() == VarType::Spin ==> is_roof_fixes(
            V::tag(),
            instance.terms@,
            instance.n() as nat,
            r@,
        ),
{
    match V::var_type() {
        VarType::Bin => Vec::new(),
        VarType::Spin => roof_fixes(instance),
    }
}

/// Roof duality of the whole instance.
pub fn roof_dual_fixes<V: VarDomain>(instance: &HuboInstance<V>, node: &Node) -> (r: Vec<
    (usize, i64),
>)
    requires
        instance.wf(),
        instance.fits(),
        4 * instance.n() + 8 * instance.terms@.len() + 2 < usize::MAX,
    ensures
        is_roof_fixes(V::tag(), instance.terms@, instance.n() as nat, r@),
{
    match V::var_type() {
        VarType::Bin => binary_roof_duality(instance),
        VarType::Spin => spin_roof_duality(instance),
    }
}

/// The linear coefficients of the first `k` terms at the high variables among
/// the first `m`.
spec fn linear_at(vt: VarType, terms: Seq<Term>, x: Seq<bool>, k: nat, m: nat) -> int
    decreases m,
{
    if m == 0 {
        0
    } else {
        linear_at(vt, terms, x, k, (m - 1) as nat) + (if x[m - 1] {
            linear_of(vt, terms, (m - 1) as usize, k)
        } else {
            0
        })
    }
}

/// What one term adds at the high variables among the first `m`.
spec fn part_at(vt: VarType, t: Term, x: Seq<bool>, m: nat) -> int
    decreases m,
{
    if m == 0 {
        0
    } else {
        part_at(vt, t, x, (m - 1) as nat) + (if x[m - 1] {
            linear_part(vt, t, (m - 1) as usize)
        } else {
            0
        })
    }
}

proof fn lemma_linear_at_step(vt: VarType, terms: Seq<Term>, x: Seq<bool>, k: nat, m: nat)
    requires
        k > 0,
    ensures
        linear_at(vt, terms, x, k, m) == linear_at(vt, terms, x, (k - 1) as nat, m) + part_at(
            vt,
            terms[k - 1],
            x,
            m,
        ),
    decreases m,
{
    if m > 0 {
        lemma_linear_at_step(vt, terms, x, k, (m - 1) as nat);
    }
}

proof fn lemma_linear_at_zero(vt: VarType, terms: Seq<Term>, x: Seq<bool>, m: nat)
    ensures
        linear_at(vt, terms, x, 0, m) == 0,
    decreases m,
{
    if m > 0 {
        lemma_linear_at_zero(vt, terms, x, (m - 1) as nat);
    }
}

/// The part of one term: its own variables count.
proof fn lemma_part_at(vt: VarType, t: Term, x: Seq<bool>, m: nat)
    requires
        t.indices@.no_duplicates(),
        t.indices@.len() <= 2,
        m <= usize::MAX,
    ensures
        part_at(vt, t, x, m) == (match vt {
            VarType::Bin => if t.indices@.len() == 1 && t.indices@[0] < m
                && x[t.indices@[0] as int] {
                t.coeff as int
            } else {
                0
            },
            VarType::Spin => if t.indices@.len() == 1 && t.indices@[0] < m
                && x[t.indices@[0] as int] {
                2 * t.coeff
            } else if t.indices@.len() == 2 {
                (if t.indices@[0] < m && x[t.indices@[0] as int] {
                    -2 * t.coeff
                } else {
                    0
                }) + (if t.indices@[1] < m && x[t.indices@[1] as int] {
                    -2 * t.coeff
                } else {
                    0
                })
            } else {
                0
            },
        }),
    decreases m,
{
    if m > 0 {
        lemma_part_at(vt, t, x, (m - 1) as nat);
        let idx = t.indices@;
        let i = (m - 1) as usize;
        if idx.len() == 2 {
            assert(idx[0] != idx[1]);
            assert(idx.contains(idx[0]) && idx.contains(idx[1]));
            if idx.contains(i) {
                let q = choose|q: int| 0 <= q < idx.len() && idx[q] == i;
                assert(q == 0 || q == 1);
            }
        }
    }
}

/// The objective is the form over bits plus a constant.
proof fn lemma_form(vt: VarType, terms: Seq<Term>, n: nat, x: Seq<bool>, k: nat)
    requires
        k <= terms.len(),
        term::terms_distinct(terms),
        term::terms_below(terms, n as int),
        !beyond_quadratic(terms),
        x.len() == n,
        n <= usize::MAX,
    ensures
        term::poly(vt, terms.take(k as int), x) == linear_at(vt, terms, x, k, n) + pair_sum(
            vt,
            terms,
            qpbo::product_at(x),
            k,
        ) + constant_of(vt, terms, k),
    decreases k,
{
    if k == 0 {
        lemma_linear_at_zero(vt, terms, x, n);
        assert(terms.take(0) =~= Seq::empty());
    } else {
        let k1 = (k - 1) as nat;
        lemma_form(vt, terms, n, x, k1);
        assert(terms.take(k as int).drop_last() =~= terms.take(k1 as int));
        lemma_linear_at_step(vt, terms, x, k, n);
        let t = terms[k1 as int];
        let idx = t.indices@;
        assert(idx.no_duplicates());
        assert(term::indices_below(idx, n as int));
        assert(!(terms[k1 as int].indices@.len() > 2));
        lemma_part_at(vt, t, x, n);
        let c = t.coeff as int;
        if idx.len() == 0 {
            assert(term::monomial(vt, idx, x) == 1);
            assert(c * 1 == c);
        } else if idx.len() == 1 {
            assert(idx[0] < n);
            assert(idx.drop_last().len() == 0);
            assert(term::monomial(vt, idx.drop_last(), x) == 1);
            let b = term::bit_value(vt, x[idx[0] as int]);
            assert(term::monomial(vt, idx, x) == 1 * b);
            assert(c * (1 * b) == if b == 1 { c } else if b == 0 { 0 } else { -c })
                by (nonlinear_arith)
                requires
                    b == 0 || b == 1 || b == -1,
            ;
        } else {
            assert(idx[0] < n && idx[1] < n);
            let p = sorted_pair(idx);
            qpbo::lemma_pair_product(idx, x);
            qpbo::lemma_pair_product(p, x);
            let m = term::monomial(vt, idx, x);
            let b = term::monomial(VarType::Bin, p, x);
            assert(qpbo::product_at(x)(p) == b);
            assert(c * m == if m == 1 { c } else if m == 0 { 0 } else { -c })
                by (nonlinear_arith)
                requires
                    m == 0 || m == 1 || m == -1,
            ;
            let f = pair_factor_of(vt) * c;
            assert(f * b == if b == 1 { f } else { 0 }) by (nonlinear_arith)
                requires
                    b == 0 || b == 1,
            ;
        }
    }
}

proof fn lemma_linear_value(
    vt: VarType,
    terms: Seq<Term>,
    lin: Seq<i128>,
    x: Seq<bool>,
    k: nat,
    m: nat,
)
    requires
        m <= lin.len(),
        lin.len() <= usize::MAX,
        forall|i: int|
            0 <= i < lin.len() ==> #[trigger] lin[i] == linear_of(vt, terms, i as usize, k),
    ensures
        qpbo::linear_value(lin, x, m) == linear_at(vt, terms, x, k, m),
    decreases m,
{
    if m > 0 {
        lemma_linear_value(vt, terms, lin, x, k, (m - 1) as nat);
        assert(lin[m - 1] == linear_of(vt, terms, (m - 1) as usize, k));
    }
}

/// Setting the labelled variables one by one sets them all.
proof fn lemma_label_values(vt: VarType, r: Seq<Option<bool>>, x: Seq<bool>, n: nat, k: nat)
    requires
        x.len() == n,
        r.len() == n,
        k <= n,
        n <= usize::MAX,
    ensures
        persistency::with_values(x, dominance::decided(coupling::all_vars(n).take(k as int), label_decision(vt, r))) == Seq::new(
            n,
            |i: int|
                if i < k && r[i] is Some {
                    r[i]->0
                } else {
                    x[i]
                },
        ),
    decreases k,
{
    let d = label_decision(vt, r);
    let vars = coupling::all_vars(n);
    if k == 0 {
        assert(vars.take(0) =~= Seq::empty());
        assert(persistency::with_values(x, dominance::decided(vars.take(0), d)) =~= Seq::new(
            n,
            |i: int|
                if i < k && r[i] is Some {
                    r[i]->0
                } else {
                    x[i]
                },
        ));
    } else {
        let k1 = (k - 1) as nat;
        lemma_label_values(vt, r, x, n, k1);
        assert(vars.take(k as int).drop_last() =~= vars.take(k1 as int));
        let p = dominance::decided(vars.take(k1 as int), d);
        let q = dominance::decided(vars.take(k as int), d);
        if r[k1 as int] is Some {
            assert(q.drop_last() =~= p);
        }
        assert(persistency::with_values(x, q) =~= Seq::new(
            n,
            |i: int|
                if i < k && r[i] is Some {
                    r[i]->0
                } else {
                    x[i]
                },
        ));
    }
}

/// Roof-dual fixes are persistent: setting them never raises the objective of
/// an assignment, and every minimiser has them.
pub proof fn roof_fixes_are_persistent<V: VarDomain>(
    instance: &HuboInstance<V>,
    list: Seq<(usize, i64)>,
    x: Seq<bool>,
)
    requires
        instance.wf(),
        instance.n() <= usize::MAX,
        is_roof_fixes(V::tag(), instance.terms@, instance.n() as nat, list),
        x.len() == instance.n(),
    ensures
        instance.objective(persistency::with_values(x, list)) <= instance.objective(x),
        (forall|y: Seq<bool>|
            y.len() == instance.n() ==> instance.objective(x) <= #[trigger] instance.objective(y))
            ==> persistency::with_values(x, list) == x,
{
    let n = instance.n() as nat;
    let vt = V::tag();
    let terms = instance.terms@;
    if n == 0 || beyond_quadratic(terms) {
        assert(list =~= Seq::empty());
    } else {
        let (lin, quad, r) = choose|lin: Seq<i128>, quad: Seq<KeySum>, r: Seq<Option<bool>>| #[trigger]
            is_labelled_by(vt, terms, n, lin, quad, r, list);
        let s = choose|s: Seq<bool>| #[trigger]
            qpbo::is_least_cut(n, lin, quad, s) && r == qpbo::labels(n, s);
        let k = terms.len();
        let c = constant_of(vt, terms, k);
        assert(terms.take(k as int) =~= terms);
        assert forall|y: Seq<bool>| y.len() == n implies #[trigger] instance.objective(y)
            == instance.offset + c + qpbo::form_value(lin, quad, y) by {
            lemma_form(vt, terms, n, y, k);
            lemma_linear_value(vt, terms, lin, y, k, n);
            assert(merge::weighted(quad, qpbo::product_at(y)) == pair_sum(vt, terms, qpbo::product_at(y), k));
        }
        qpbo::labels_are_persistent(n, lin, quad, r, x);
        lemma_label_values(vt, r, x, n, n);
        assert(coupling::all_vars(n).take(n as int) =~= coupling::all_vars(n));
        assert(persistency::with_values(x, list) =~= qpbo::with_labels(x, r));
        if forall|y: Seq<bool>|
            y.len() == n ==> instance.objective(x) <= #[trigger] instance.objective(y) {
            assert forall|y: Seq<bool>| y.len() == n implies qpbo::form_value(lin, quad, x)
                <= #[trigger] qpbo::form_value(lin, quad, y) by {
                assert(instance.objective(x) <= instance.objective(y));
            }
        }
    }
}

} // verus!
