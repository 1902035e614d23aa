//! The grid of objective values: every attainable value of an objective with
//! integer coefficients lies on `base + granularity * Z`.

use crate::delta;
use crate::domain::{Bin, VarDomain, VarType};
use crate::domain;
use crate::merge::KeySum;
use crate::merge;
use crate::reduction;
use crate::sets;
use crate::term::Term;
use crate::term;
use vstd::prelude::*;

verus! {

/// `d` divides `n`.
pub open spec fn divides(d: int, n: int) -> bool {
    if d == 0 {
        n == 0
    } else {
        n % d == 0
    }
}

/// `g` is the greatest common divisor of `a` and `b`.
pub open spec fn is_gcd(g: int, a: int, b: int) -> bool {
    &&& g >= 0
    &&& divides(g, a)
    &&& divides(g, b)
    &&& forall|d: int| #![trigger divides(d, g)] divides(d, a) && divides(d, b) ==> divides(d, g)
}

/// A divisor of `n` has a cofactor.
pub proof fn lemma_divides_cofactor(d: int, n: int) -> (k: int)
    requires
        divides(d, n),
    ensures
        n == d * k,
{
    if d == 0 {
        0
    } else {
        let k = n / d;
        assert(n == d * (n / d) + n % d) by (nonlinear_arith)
            requires
                d != 0,
        ;
        k
    }
}

/// Multiples are divided.
pub proof fn lemma_divides_multiple(d: int, k: int)
    ensures
        divides(d, d * k),
{
    if d != 0 {
        vstd::arithmetic::div_mod::lemma_fundamental_div_mod(d * k, d);
        assert((d * k) % d == 0) by (nonlinear_arith)
            requires
                d != 0,
        ;
    }
}

/// Divisibility passes to sums and differences.
pub proof fn lemma_divides_sum(d: int, a: int, b: int)
    requires
        divides(d, a),
        divides(d, b),
    ensures
        divides(d, a + b),
        divides(d, a - b),
{
    let j = lemma_divides_cofactor(d, a);
    let k = lemma_divides_cofactor(d, b);
    lemma_divides_multiple(d, j + k);
    lemma_divides_multiple(d, j - k);
    assert(d * (j + k) == d * j + d * k) by (nonlinear_arith);
    assert(d * (j - k) == d * j - d * k) by (nonlinear_arith);
}

/// Divisibility passes to multiples.
pub proof fn lemma_divides_product(d: int, a: int, b: int)
    requires
        divides(d, a),
    ensures
        divides(d, a * b),
{
    let j = lemma_divides_cofactor(d, a);
    lemma_divides_multiple(d, j * b);
    assert(d * (j * b) == (d * j) * b) by (nonlinear_arith);
}

/// Divisibility is transitive.
pub proof fn lemma_divides_trans(d: int, a: int, b: int)
    requires
        divides(d, a),
        divides(a, b),
    ensures
        divides(d, b),
{
    let k = lemma_divides_cofactor(a, b);
    lemma_divides_product(d, a, k);
}

/// One step of Euclid's algorithm keeps the common divisors.
proof fn lemma_euclid_step(d: int, a: int, b: int)
    requires
        b > 0,
    ensures
        (divides(d, b) && divides(d, a % b)) == (divides(d, a) && divides(d, b)),
{
    let q = a / b;
    let r = a % b;
    vstd::arithmetic::div_mod::lemma_fundamental_div_mod(a, b);
    if divides(d, b) {
        lemma_divides_product(d, b, q);
        if divides(d, r) {
            lemma_divides_sum(d, b * q, r);
        }
        if divides(d, a) {
            lemma_divides_sum(d, a, b * q);
        }
    }
}

/// Euclid's algorithm.
pub fn gcd_i128(x: i128, y: i128) -> (r: i128)
    requires
        x > i128::MIN,
        y > i128::MIN,
    ensures
        is_gcd(r as int, x as int, y as int),
{
    let mut a: i128 = if x < 0 { -x } else { x };
    let mut b: i128 = if y < 0 { -y } else { y };
    proof {
        assert forall|d: int| divides(d, a as int) == divides(d, x as int) by {
            lemma_divides_neg(d, x as int);
        }
        assert forall|d: int| divides(d, b as int) == divides(d, y as int) by {
            lemma_divides_neg(d, y as int);
        }
    }
    while b != 0
        invariant
            a >= 0,
            b >= 0,
            forall|d: int|
                (#[trigger] divides(d, a as int) && divides(d, b as int)) == (divides(d, x as int)
                    && divides(d, y as int)),
        decreases b,
    {
        let r: i128 = a % b;
        proof {
            assert forall|d: int|
                (#[trigger] divides(d, b as int) && divides(d, r as int)) == (divides(d, x as int)
                    && divides(d, y as int)) by {
                lemma_euclid_step(d, a as int, b as int);
                assert(r as int == a as int % b as int);
                let da = divides(d, a as int);
                assert((da && divides(d, b as int)) == (divides(d, x as int) && divides(d, y as int)));
            }
        }
        a = b;
        b = r;
        assert forall|d: int|
            (#[trigger] divides(d, a as int) && divides(d, b as int)) == (divides(d, x as int)
                && divides(d, y as int)) by {}
    }
    proof {
        lemma_divides_multiple(a as int, 1);
        lemma_divides_multiple(a as int, 0);
        assert(divides(a as int, a as int));
        assert forall|d: int|
            #![trigger divides(d, a as int)]
            divides(d, x as int) && divides(d, y as int) implies divides(d, a as int) by {}
    }
    a
}

proof fn lemma_divides_neg(d: int, n: int)
    ensures
        divides(d, -n) == divides(d, n),
{
    if divides(d, n) {
        lemma_divides_product(d, n, -1);
    }
    if divides(d, -n) {
        lemma_divides_product(d, -n, -1);
    }
}

/// Two to the power `n`.
pub open spec fn two_pow(n: nat) -> int
    decreases n,
{
    if n == 0 {
        1
    } else {
        2 * two_pow((n - 1) as nat)
    }
}

/// All sublists of `idx`, the empty one first.
pub open spec fn sublists(idx: Seq<usize>) -> Seq<Seq<usize>>
    decreases idx.len(),
{
    if idx.len() == 0 {
        seq![Seq::empty()]
    } else {
        let s = sublists(idx.drop_last());
        s + s.map_values(|q: Seq<usize>| q.push(idx.last()))
    }
}

/// The sum of a weight over a list of keys.
pub open spec fn weight_sum(s: Seq<Seq<usize>>, w: spec_fn(Seq<usize>) -> int) -> int
    decreases s.len(),
{
    if s.len() == 0 {
        0
    } else {
        weight_sum(s.drop_last(), w) + w(s.last())
    }
}

/// The coefficients of the monomials behind `terms`, weighted by a function of
/// the monomial: over bits the reduced terms; over spins the nonempty sublists
/// of each term.
pub open spec fn expansion(
    vt: VarType,
    terms: Seq<Term>,
    w: spec_fn(Seq<usize>) -> int,
) -> int
    decreases terms.len(),
{
    if terms.len() == 0 {
        0
    } else {
        expansion(vt, terms.drop_last(), w) + terms.last().coeff * term_weight(
            vt,
            terms.last().indices@,
            w,
        )
    }
}

/// The weight of the monomials of one term.
pub open spec fn term_weight(
    vt: VarType,
    idx: Seq<usize>,
    w: spec_fn(Seq<usize>) -> int,
) -> int {
    match vt {
        VarType::Bin => if idx.len() == 0 {
            0
        } else {
            w(reduction::reduced_form(VarType::Bin, idx))
        },
        VarType::Spin => weight_sum(sublists(idx), w) - w(Seq::empty()),
    }
}

/// By how much a monomial can move the objective: its merged coefficient, times
/// two per variable over spins.
pub open spec fn grid_step(vt: VarType, terms: Seq<Term>, key: Seq<usize>) -> int {
    let c = expansion(vt, terms, merge::indicator(key));
    match vt {
        VarType::Bin => c,
        VarType::Spin => c * two_pow(key.len()),
    }
}

/// `g` is the greatest common divisor of all grid steps, zero when there are
/// none.
pub open spec fn is_grid_gcd(vt: VarType, terms: Seq<Term>, g: int) -> bool {
    &&& g >= 0
    &&& forall|key: Seq<usize>| divides(g, #[trigger] grid_step(vt, terms, key))
    &&& forall|d: int|
        (forall|key: Seq<usize>| divides(d, #[trigger] grid_step(vt, terms, key)))
            ==> #[trigger] divides(d, g)
}

/// The sum over the terms of the absolute coefficient for each sublist.
pub open spec fn sublist_mass(terms: Seq<Term>) -> int
    decreases terms.len(),
{
    if terms.len() == 0 {
        0
    } else {
        sublist_mass(terms.drop_last()) + term::abs(terms.last().coeff as int) * two_pow(
            terms.last().indices@.len(),
        )
    }
}

/// The grid of a spin objective is beyond machine arithmetic: a term too long
/// to enumerate, or sums or steps beyond 128 bits.
pub open spec fn spin_grid_overflows(terms: Seq<Term>) -> bool {
    ||| exists|i: int| 0 <= i < terms.len() && (#[trigger] terms[i]).indices@.len() >= usize::BITS
    ||| sublist_mass(terms) > i128::MAX
    ||| exists|key: Seq<usize>|
        term::abs(#[trigger] grid_step(VarType::Spin, terms, key)) > i128::MAX
}

/// What the granularity of an objective is, and when it has none.
pub open spec fn granularity_result(vt: VarType, terms: Seq<Term>, r: Option<i64>) -> bool {
    match r {
        Some(g) => g > 0 && is_grid_gcd(vt, terms, g as int),
        None => (vt == VarType::Spin && spin_grid_overflows(terms)) || exists|g: int|
            #[trigger] is_grid_gcd(vt, terms, g) && (g == 0 || g > i64::MAX),
    }
}

/// The steps of a table of merged coefficients.
spec fn table_step(vt: VarType, e: KeySum) -> int {
    match vt {
        VarType::Bin => e.sum as int,
        VarType::Spin => e.sum * two_pow(e.key@.len()),
    }
}

/// The table holds the merged coefficients of `terms`.
spec fn table_of(vt: VarType, terms: Seq<Term>, t: Seq<KeySum>) -> bool {
    &&& merge::keys_ascend(t)
    &&& forall|w: spec_fn(Seq<usize>) -> int| #[trigger]
        merge::weighted(t, w) == expansion(vt, terms, w)
}

/// The table's steps are the grid steps; keys that are not in it have step 0.
proof fn lemma_table_steps(vt: VarType, terms: Seq<Term>, t: Seq<KeySum>)
    requires
        table_of(vt, terms, t),
    ensures
        forall|i: int|
            0 <= i < t.len() ==> table_step(vt, #[trigger] t[i]) == grid_step(vt, terms, t[i].key@),
        forall|key: Seq<usize>|
            (forall|i: int| 0 <= i < t.len() ==> (#[trigger] t[i]).key@ != key)
                ==> #[trigger] grid_step(vt, terms, key) == 0,
{
    assert forall|i: int| 0 <= i < t.len() implies table_step(vt, #[trigger] t[i]) == grid_step(
        vt,
        terms,
        t[i].key@,
    ) by {
        merge::lemma_indicator_entry(t, i);
        assert(merge::weighted(t, merge::indicator(t[i].key@)) == expansion(
            vt,
            terms,
            merge::indicator(t[i].key@),
        ));
    }
    assert forall|key: Seq<usize>|
        (forall|i: int| 0 <= i < t.len() ==> (#[trigger] t[i]).key@ != key) implies #[trigger]
        grid_step(vt, terms, key) == 0 by {
        merge::lemma_indicator_absent(t, key);
        assert(merge::weighted(t, merge::indicator(key)) == expansion(
            vt,
            terms,
            merge::indicator(key),
        ));
    }
}

proof fn lemma_grid_gcd_from_table(vt: VarType, terms: Seq<Term>, t: Seq<KeySum>, g: int)
    requires
        table_of(vt, terms, t),
        g >= 0,
        forall|i: int| 0 <= i < t.len() ==> divides(g, table_step(vt, #[trigger] t[i])),
        forall|d: int|
            (forall|i: int| 0 <= i < t.len() ==> divides(d, table_step(vt, #[trigger] t[i])))
                ==> #[trigger] divides(d, g),
    ensures
        is_grid_gcd(vt, terms, g),
{
    lemma_table_steps(vt, terms, t);
    assert forall|key: Seq<usize>| divides(g, #[trigger] grid_step(vt, terms, key)) by {
        if exists|i: int| 0 <= i < t.len() && (#[trigger] t[i]).key@ == key {
            let i = choose|i: int| 0 <= i < t.len() && (#[trigger] t[i]).key@ == key;
            assert(divides(g, table_step(vt, t[i])));
        } else {
            lemma_divides_multiple(g, 0);
        }
    }
    assert forall|d: int|
        (forall|key: Seq<usize>| divides(d, #[trigger] grid_step(vt, terms, key))) implies #[trigger]
    divides(d, g) by {
        assert forall|i: int| 0 <= i < t.len() implies divides(
            d,
            table_step(vt, #[trigger] t[i]),
        ) by {
            assert(divides(d, grid_step(vt, terms, t[i].key@)));
        }
    }
}

/// The greatest common divisor of the steps of a table; `None` when a step is
/// beyond 128 bits.
fn table_gcd(vt: VarType, terms: &[Term], t: &Vec<KeySum>) -> (r: Option<i128>)
    requires
        table_of(vt, terms@, t@),
        vt == VarType::Bin ==> forall|i: int|
            0 <= i < t@.len() ==> (#[trigger] t@[i]).sum > i128::MIN,
    ensures
        r matches Some(g) ==> is_grid_gcd(vt, terms@, g as int),
        r is None ==> vt == VarType::Spin && exists|key: Seq<usize>|
            term::abs(#[trigger] grid_step(vt, terms@, key)) > i128::MAX,
{
    let mut g: i128 = 0;
    let mut k: usize = 0;
    proof {
        assert forall|d: int| #[trigger] divides(d, 0) by {
            lemma_divides_multiple(d, 0);
        }
    }
    while k < t.len()
        invariant
            k <= t@.len(),
            g >= 0,
            table_of(vt, terms@, t@),
            vt == VarType::Bin ==> forall|i: int|
                0 <= i < t@.len() ==> (#[trigger] t@[i]).sum > i128::MIN,
            forall|i: int| 0 <= i < k ==> divides(g as int, table_step(vt, #[trigger] t@[i])),
            forall|d: int|
                (forall|i: int| 0 <= i < k ==> divides(d, table_step(vt, #[trigger] t@[i])))
                    ==> #[trigger] divides(d, g as int),
        decreases t@.len() - k,
    {
        let sum: i128 = t[k].sum;
        let ghost g0 = g as int;
        if sum != 0 {
            let value: Option<i128> = match vt {
                VarType::Bin => Some(sum),
                VarType::Spin => scaled(sum, t[k].key.len()),
            };
            match value {
                None => {
                    proof {
                        lemma_table_steps(vt, terms@, t@);
                        assert(table_step(vt, t@[k as int]) == grid_step(
                            vt,
                            terms@,
                            t@[k as int].key@,
                        ));
                    }
                    return None;
                },
                Some(v) => {
                    g = gcd_i128(g, v);
                    proof {
                        assert(v == table_step(vt, t@[k as int]));
                        assert forall|i: int| 0 <= i < k + 1 implies divides(
                            g as int,
                            table_step(vt, #[trigger] t@[i]),
                        ) by {
                            if i < k {
                                lemma_divides_trans(g as int, g0, table_step(vt, t@[i]));
                            }
                        }
                    }
                },
            }
        } else {
            proof {
                assert(table_step(vt, t@[k as int]) == 0) by (nonlinear_arith)
                    requires
                        table_step(vt, t@[k as int]) == sum || table_step(vt, t@[k as int]) == sum
                            * two_pow(t@[k as int].key@.len()),
                        sum == 0,
                ;
                lemma_divides_multiple(g as int, 0);
            }
        }
        proof {
            assert forall|d: int|
                (forall|i: int| 0 <= i < k + 1 ==> divides(d, table_step(vt, #[trigger] t@[i])))
                implies #[trigger] divides(d, g as int) by {
                assert(divides(d, table_step(vt, t@[k as int])));
                assert(divides(d, g0));
            }
        }
        k += 1;
    }
    proof {
        lemma_grid_gcd_from_table(vt, terms@, t@, g as int);
    }
    Some(g)
}

/// `sum * 2^len`, or `None` beyond 128 bits.
fn scaled(sum: i128, len: usize) -> (r: Option<i128>)
    requires
        sum != 0,
    ensures
        r matches Some(v) ==> v == sum * two_pow(len as nat) && v > i128::MIN,
        r is None ==> term::abs(sum * two_pow(len as nat)) > i128::MAX,
{
    let mut v: i128 = sum;
    let mut k: usize = 0;
    while k < len
        invariant
            k <= len,
            v != 0,
            v == sum * two_pow(k as nat),
            sum != 0,
        decreases len - k,
    {
        match v.checked_mul(2) {
            None => {
                proof {
                    lemma_two_pow_grows(k as nat + 1, len as nat);
                    let p = two_pow(k as nat + 1);
                    let q = two_pow(len as nat);
                    assert(sum * p == 2 * (sum * two_pow(k as nat))) by (nonlinear_arith)
                        requires
                            p == 2 * two_pow(k as nat),
                    ;
                    assert(term::abs(sum * q) >= term::abs(sum * p))
                        by (nonlinear_arith)
                        requires
                            1 <= p <= q,
                    {
                        if sum < 0 {
                            assert(sum * q <= sum * p) by (nonlinear_arith)
                                requires
                                    sum < 0,
                                    p <= q,
                            ;
                            assert(sum * p <= 0) by (nonlinear_arith)
                                requires
                                    sum < 0,
                                    p >= 1,
                            ;
                        } else {
                            assert(sum * q >= sum * p) by (nonlinear_arith)
                                requires
                                    sum >= 0,
                                    p <= q,
                            ;
                            assert(sum * p >= 0) by (nonlinear_arith)
                                requires
                                    sum >= 0,
                                    p >= 1,
                            ;
                        }
                    }
                }
                return None;
            },
            Some(u) => {
                proof {
                    assert(sum * two_pow(k as nat + 1) == 2 * (sum * two_pow(k as nat)))
                        by (nonlinear_arith)
                        requires
                            two_pow(k as nat + 1) == 2 * two_pow(k as nat),
                    ;
                }
                v = u;
            },
        }
        k += 1;
    }
    if v == i128::MIN {
        None
    } else {
        Some(v)
    }
}

proof fn lemma_two_pow_grows(a: nat, b: nat)
    requires
        a <= b,
    ensures
        1 <= two_pow(a) <= two_pow(b),
    decreases b,
{
    if a < b {
        lemma_two_pow_grows(a, (b - 1) as nat);
    } else if a > 0 {
        lemma_two_pow_grows((a - 1) as nat, (b - 1) as nat);
    }
}


/// The granularity of a binary objective: the greatest common divisor of the
/// merged coefficients.
pub fn bin_granularity(terms: &[Term]) -> (r: Option<i64>)
    ensures
        granularity_result(VarType::Bin, terms@, r),
{
    let mut t: Vec<KeySum> = Vec::new();
    let mut i: usize = 0;
    assert(terms@.take(0) =~= Seq::empty());
    while i < terms.len()
        invariant
            i <= terms@.len(),
            table_of(VarType::Bin, terms@.take(i as int), t@),
            merge::table_abs(t@) <= i * 0x8000_0000_0000_0000,
        decreases terms@.len() - i,
    {
        let ghost t0 = t@;
        proof {
            assert(terms@.take(i + 1).drop_last() =~= terms@.take(i as int));
            assert(terms@.take(i + 1).last() == terms@[i as int]);
        }
        if terms[i].indices.len() > 0 {
            let key = Bin::reduce_indices(terms[i].indices.as_slice());
            let ghost k = key@;
            proof {
                reduction::lemma_reduced_form(VarType::Bin, terms@[i as int].indices@, key@);
            }
            merge::add_to(&mut t, key, terms[i].coeff as i128);
            proof {
                assert forall|w: spec_fn(Seq<usize>) -> int| #[trigger]
                    merge::weighted(t@, w) == expansion(VarType::Bin, terms@.take(i + 1), w) by {
                    assert(merge::weighted(t0, w) == expansion(
                        VarType::Bin,
                        terms@.take(i as int),
                        w,
                    ));
                }
            }
        } else {
            proof {
                assert forall|w: spec_fn(Seq<usize>) -> int| #[trigger]
                    merge::weighted(t@, w) == expansion(VarType::Bin, terms@.take(i + 1), w) by {
                    assert(merge::weighted(t0, w) == expansion(
                        VarType::Bin,
                        terms@.take(i as int),
                        w,
                    ));
                }
            }
        }
        i += 1;
    }
    proof {
        assert(terms@.take(i as int) =~= terms@);
        assert forall|j: int| 0 <= j < t@.len() implies (#[trigger] t@[j]).sum > i128::MIN by {
            merge::lemma_table_abs_entry(t@, j);
        }
    }
    let g: Option<i128> = table_gcd(VarType::Bin, terms, &t);
    match g {
        None => None,
        Some(g) => fit_granularity(g),
    }
}

/// A positive divisor that fits a coefficient.
fn fit_granularity(g: i128) -> (r: Option<i64>)
    ensures
        r matches Some(v) ==> v == g && v > 0,
        r is None ==> g <= 0 || g > i64::MAX,
{
    if g <= 0 || g > i64::MAX as i128 {
        None
    } else {
        Some(g as i64)
    }
}

/// All sublists of a list, the empty one first.
fn sublists_of(idx: &[usize]) -> (r: Vec<Vec<usize>>)
    ensures
        r@.len() == sublists(idx@).len(),
        forall|i: int| 0 <= i < r@.len() ==> #[trigger] r@[i]@ == sublists(idx@)[i],
{
    let mut out: Vec<Vec<usize>> = Vec::new();
    out.push(Vec::new());
    let mut k: usize = 0;
    assert(idx@.take(0) =~= Seq::empty());
    while k < idx.len()
        invariant
            k <= idx@.len(),
            out@.len() == sublists(idx@.take(k as int)).len(),
            forall|i: int|
                0 <= i < out@.len() ==> #[trigger] out@[i]@ == sublists(idx@.take(k as int))[i],
        decreases idx@.len() - k,
    {
        let ghost s = sublists(idx@.take(k as int));
        proof {
            assert(idx@.take(k + 1).drop_last() =~= idx@.take(k as int));
        }
        let n: usize = out.len();
        let mut j: usize = 0;
        while j < n
            invariant
                k < idx@.len(),
                j <= n,
                n == s.len(),
                out@.len() == n + j,
                forall|i: int| 0 <= i < n ==> #[trigger] out@[i]@ == s[i],
                forall|i: int|
                    n <= i < n + j ==> #[trigger] out@[i]@ == s[i - n].push(idx@[k as int]),
            decreases n - j,
        {
            let mut q = out[j].clone();
            q.push(idx[k]);
            out.push(q);
            j += 1;
        }
        k += 1;
    }
    assert(idx@.take(k as int) =~= idx@);
    out
}

proof fn lemma_sublists_len(idx: Seq<usize>)
    ensures
        sublists(idx).len() == two_pow(idx.len()),
        sublists(idx).len() > 0,
        sublists(idx)[0] == Seq::<usize>::empty(),
    decreases idx.len(),
{
    if idx.len() > 0 {
        lemma_sublists_len(idx.drop_last());
    }
}

proof fn lemma_sublist_mass_take(terms: Seq<Term>, k: int)
    requires
        0 <= k <= terms.len(),
    ensures
        sublist_mass(terms.take(k)) <= sublist_mass(terms),
    decreases terms.len() - k,
{
    if k < terms.len() {
        lemma_sublist_mass_take(terms, k + 1);
        assert(terms.take(k + 1).drop_last() =~= terms.take(k));
        lemma_two_pow_grows(0, terms[k].indices@.len());
        assert(term::abs(terms[k].coeff as int) * two_pow(terms[k].indices@.len()) >= 0)
            by (nonlinear_arith)
            requires
                term::abs(terms[k].coeff as int) >= 0,
                two_pow(terms[k].indices@.len()) >= 1,
        ;
    } else {
        assert(terms.take(k) =~= terms);
    }
}

/// The granularity of a spin objective: the greatest common divisor over the
/// nonempty sublists `s` of `2^|s|` times the merged coefficient of `s`.
pub fn spin_granularity(terms: &[Term]) -> (r: Option<i64>)
    ensures
        granularity_result(VarType::Spin, terms@, r),
{
    let mut t: Vec<KeySum> = Vec::new();
    let mut total: i128 = 0;
    let mut i: usize = 0;
    assert(terms@.take(0) =~= Seq::empty());
    while i < terms.len()
        invariant
            i <= terms@.len(),
            table_of(VarType::Spin, terms@.take(i as int), t@),
            merge::table_abs(t@) <= total,
            0 <= total <= sublist_mass(terms@.take(i as int)),
        decreases terms@.len() - i,
    {
        proof {
            assert(terms@.take(i + 1).drop_last() =~= terms@.take(i as int));
            assert(terms@.take(i + 1).last() == terms@[i as int]);
            lemma_sublist_mass_take(terms@, i + 1);
            lemma_sublists_len(terms@[i as int].indices@);
        }
        if terms[i].indices.len() >= usize::BITS as usize {
            proof {
                assert(terms@[i as int].indices@.len() >= usize::BITS);
            }
            return None;
        }
        let c: i128 = terms[i].coeff as i128;
        let m: i128 = if c < 0 { -c } else { c };
        let subs = sublists_of(terms[i].indices.as_slice());
        let ghost ss = sublists(terms@[i as int].indices@);
        let mut j: usize = 1;
        proof {
            assert(ss.take(1).drop_last() =~= Seq::<Seq<usize>>::empty());
            assert forall|w: spec_fn(Seq<usize>) -> int| #[trigger]
                merge::weighted(t@, w) == expansion(VarType::Spin, terms@.take(i as int), w) + c * (
            weight_sum(ss.take(1), w) - w(Seq::empty())) by {
                reveal_with_fuel(weight_sum, 2);
                assert(weight_sum(ss.take(1), w) == w(Seq::empty()));
                assert(c * 0 == 0);
            }
        }
        while j < subs.len()
            invariant
                i < terms@.len(),
                1 <= j <= subs@.len(),
                subs@.len() == ss.len(),
                ss == sublists(terms@[i as int].indices@),
                ss.len() == two_pow(terms@[i as int].indices@.len()),
                forall|q: int| 0 <= q < subs@.len() ==> #[trigger] subs@[q]@ == ss[q],
                c == terms@[i as int].coeff,
                m == term::abs(c as int),
                merge::keys_ascend(t@),
                forall|w: spec_fn(Seq<usize>) -> int| #[trigger]
                    merge::weighted(t@, w) == expansion(VarType::Spin, terms@.take(i as int), w) + c
                        * (weight_sum(ss.take(j as int), w) - w(Seq::empty())),
                merge::table_abs(t@) <= total,
                0 <= total <= sublist_mass(terms@.take(i as int)) + m * (j - 1),
                sublist_mass(terms@.take(i as int)) + m * two_pow(
                    terms@[i as int].indices@.len(),
                ) <= sublist_mass(terms@),
            decreases subs@.len() - j,
        {
            let ghost t0 = t@;
            let grown: Option<i128> = total.checked_add(m);
            proof {
                let len = two_pow(terms@[i as int].indices@.len());
                assert(m * (j - 1) + m == m * j) by (nonlinear_arith);
                assert(m * j <= m * len) by (nonlinear_arith)
                    requires
                        m >= 0,
                        j <= len,
                ;
            }
            match grown {
                None => {
                    return None;
                },
                Some(n) => {
                    total = n;
                },
            }
            merge::add_to(&mut t, subs[j].clone(), c);
            proof {
                assert(ss.take(j + 1).drop_last() =~= ss.take(j as int));
                assert forall|w: spec_fn(Seq<usize>) -> int| #[trigger]
                    merge::weighted(t@, w) == expansion(VarType::Spin, terms@.take(i as int), w) + c
                        * (weight_sum(ss.take(j + 1), w) - w(Seq::empty())) by {
                    let a = weight_sum(ss.take(j as int), w);
                    let b = w(ss[j as int]);
                    let e = w(Seq::empty());
                    assert(merge::weighted(t0, w) == expansion(
                        VarType::Spin,
                        terms@.take(i as int),
                        w,
                    ) + c * (a - e));
                    assert(c * (a - e) + c * b == c * (a + b - e)) by (nonlinear_arith);
                }
            }
            j += 1;
        }
        proof {
            assert(ss.take(j as int) =~= ss);
            assert forall|w: spec_fn(Seq<usize>) -> int| #[trigger]
                merge::weighted(t@, w) == expansion(VarType::Spin, terms@.take(i + 1), w) by {
                assert(merge::weighted(t@, w) == expansion(
                    VarType::Spin,
                    terms@.take(i as int),
                    w,
                ) + c * (weight_sum(ss.take(j as int), w) - w(Seq::empty())));
            }
            let len = two_pow(terms@[i as int].indices@.len());
            assert(m * (j - 1) <= m * len) by (nonlinear_arith)
                requires
                    m >= 0,
                    j <= len,
            ;
        }
        i += 1;
    }
    proof {
        assert(terms@.take(i as int) =~= terms@);
    }
    let g: Option<i128> = table_gcd(VarType::Spin, terms, &t);
    match g {
        None => None,
        Some(g) => fit_granularity(g),
    }
}

/// The value of a term with every variable low.
pub open spec fn low_value(vt: VarType, t: Term) -> int {
    match vt {
        VarType::Bin => if t.indices@.len() == 0 {
            t.coeff as int
        } else {
            0
        },
        VarType::Spin => if t.indices@.len() % 2 == 0 {
            t.coeff as int
        } else {
            -(t.coeff as int)
        },
    }
}

/// One attainable objective value: that with every variable low.
pub open spec fn grid_base(vt: VarType, offset: int, terms: Seq<Term>) -> int
    decreases terms.len(),
{
    if terms.len() == 0 {
        offset
    } else {
        grid_base(vt, offset, terms.drop_last()) + low_value(vt, terms.last())
    }
}

/// Every partial sum of the grid base fits a coefficient.
pub open spec fn grid_base_fits(vt: VarType, offset: int, terms: Seq<Term>) -> bool {
    forall|k: int|
        0 <= k <= terms.len() ==> i64::MIN <= #[trigger] grid_base(vt, offset, terms.take(k))
            <= i64::MAX
}

/// The grid base of an objective.
pub fn low_grid_base(vt: VarType, offset: i64, terms: &[Term]) -> (r: i64)
    requires
        grid_base_fits(vt, offset as int, terms@),
    ensures
        r == grid_base(vt, offset as int, terms@),
{
    let mut value: i64 = offset;
    let mut i: usize = 0;
    assert(terms@.take(0) =~= Seq::empty());
    while i < terms.len()
        invariant
            i <= terms@.len(),
            grid_base_fits(vt, offset as int, terms@),
            value == grid_base(vt, offset as int, terms@.take(i as int)),
        decreases terms@.len() - i,
    {
        proof {
            assert(terms@.take(i + 1).drop_last() =~= terms@.take(i as int));
            assert(i64::MIN <= grid_base(vt, offset as int, terms@.take(i + 1)) <= i64::MAX);
        }
        match vt {
            VarType::Bin => {
                if terms[i].indices.len() == 0 {
                    value += terms[i].coeff;
                }
            },
            VarType::Spin => {
                if terms[i].indices.len() % 2 == 0 {
                    value += terms[i].coeff;
                } else {
                    value -= terms[i].coeff;
                }
            },
        }
        i += 1;
    }
    assert(terms@.take(i as int) =~= terms@);
    value
}

/// A key with a coefficient, as listed in an expansion.
pub struct Item {
    pub key: Seq<usize>,
    pub c: int,
}

/// The weighted sum of a list of items.
spec fn item_sum(l: Seq<Item>, w: spec_fn(Seq<usize>) -> int) -> int
    decreases l.len(),
{
    if l.len() == 0 {
        0
    } else {
        item_sum(l.drop_last(), w) + l.last().c * w(l.last().key)
    }
}

/// The items of the expansion of one term.
spec fn term_items(vt: VarType, idx: Seq<usize>, c: int) -> Seq<Item> {
    match vt {
        VarType::Bin => if idx.len() == 0 {
            Seq::empty()
        } else {
            seq![Item { key: reduction::reduced_form(VarType::Bin, idx), c }]
        },
        VarType::Spin => keyed(sublists(idx).skip(1), c),
    }
}

/// The same coefficient under each of the keys.
spec fn keyed(s: Seq<Seq<usize>>, c: int) -> Seq<Item> {
    s.map_values(|q: Seq<usize>| Item { key: q, c })
}

/// The items of the expansion of `terms`.
spec fn items(vt: VarType, terms: Seq<Term>) -> Seq<Item>
    decreases terms.len(),
{
    if terms.len() == 0 {
        Seq::empty()
    } else {
        items(vt, terms.drop_last()) + term_items(
            vt,
            terms.last().indices@,
            terms.last().coeff as int,
        )
    }
}

proof fn lemma_item_sum_add(a: Seq<Item>, b: Seq<Item>, w: spec_fn(Seq<usize>) -> int)
    ensures
        item_sum(a + b, w) == item_sum(a, w) + item_sum(b, w),
    decreases b.len(),
{
    if b.len() == 0 {
        assert(a + b =~= a);
    } else {
        assert((a + b).drop_last() =~= a + b.drop_last());
        lemma_item_sum_add(a, b.drop_last(), w);
    }
}

proof fn lemma_keyed_sum(s: Seq<Seq<usize>>, c: int, w: spec_fn(Seq<usize>) -> int)
    ensures
        item_sum(keyed(s, c), w) == c * weight_sum(s, w),
    decreases s.len(),
{
    if s.len() > 0 {
        assert(keyed(s, c).drop_last() =~= keyed(s.drop_last(), c));
        lemma_keyed_sum(s.drop_last(), c, w);
        let a = weight_sum(s.drop_last(), w);
        let b = w(s.last());
        assert(c * a + c * b == c * (a + b)) by (nonlinear_arith);
    }
}

proof fn lemma_weight_sum_first(s: Seq<Seq<usize>>, w: spec_fn(Seq<usize>) -> int)
    requires
        s.len() > 0,
    ensures
        weight_sum(s, w) == w(s[0]) + weight_sum(s.skip(1), w),
    decreases s.len(),
{
    if s.len() == 1 {
        assert(s.skip(1) =~= Seq::<Seq<usize>>::empty());
        assert(s.drop_last() =~= Seq::<Seq<usize>>::empty());
    } else {
        lemma_weight_sum_first(s.drop_last(), w);
        assert(s.skip(1).drop_last() =~= s.drop_last().skip(1));
    }
}

proof fn lemma_items_expand(vt: VarType, terms: Seq<Term>, w: spec_fn(Seq<usize>) -> int)
    ensures
        item_sum(items(vt, terms), w) == expansion(vt, terms, w),
    decreases terms.len(),
{
    if terms.len() > 0 {
        lemma_items_expand(vt, terms.drop_last(), w);
        let idx = terms.last().indices@;
        let c = terms.last().coeff as int;
        lemma_item_sum_add(items(vt, terms.drop_last()), term_items(vt, idx, c), w);
        match vt {
            VarType::Bin => {
                if idx.len() > 0 {
                    let q = term_items(vt, idx, c);
                    assert(q.drop_last() =~= Seq::<Item>::empty());
                    reveal_with_fuel(item_sum, 2);
                } else {
                    assert(c * 0 == 0);
                }
            },
            VarType::Spin => {
                lemma_sublists_len(idx);
                lemma_keyed_sum(sublists(idx).skip(1), c, w);
                lemma_weight_sum_first(sublists(idx), w);
            },
        }
    }
}

spec fn other_keys(l: Seq<Item>, k: Seq<usize>) -> Seq<Item> {
    l.filter(|e: Item| e.key != k)
}

proof fn lemma_split_by_key(l: Seq<Item>, k: Seq<usize>, w: spec_fn(Seq<usize>) -> int)
    ensures
        item_sum(l, w) == item_sum(l, merge::indicator(k)) * w(k) + item_sum(
            other_keys(l, k),
            w,
        ),
        other_keys(l, k).len() <= l.len(),
        forall|q: Seq<usize>|
            q != k ==> #[trigger] item_sum(other_keys(l, k), merge::indicator(q)) == item_sum(
                l,
                merge::indicator(q),
            ),
        item_sum(other_keys(l, k), merge::indicator(k)) == 0,
    decreases l.len(),
{
    reveal(Seq::filter);
    if l.len() > 0 {
        let p = l.drop_last();
        let e = l.last();
        lemma_split_by_key(p, k, w);
        let o = other_keys(p, k);
        if e.key == k {
            assert(other_keys(l, k) =~= o);
            let a = item_sum(p, merge::indicator(k));
            assert((a + e.c * 1) * w(k) == a * w(k) + e.c * w(k)) by (nonlinear_arith);
        } else {
            assert(other_keys(l, k) =~= o.push(e));
            assert(o.push(e).drop_last() =~= o);
            assert forall|q: Seq<usize>| q != k implies #[trigger] item_sum(
                other_keys(l, k),
                merge::indicator(q),
            ) == item_sum(l, merge::indicator(q)) by {
                assert(item_sum(o, merge::indicator(q)) == item_sum(p, merge::indicator(q)));
            }
        }
    } else {
        assert(other_keys(l, k) =~= l);
        assert(0 * w(k) == 0);
    }
}

/// A weight that is a multiple of the step factor of each key gives a multiple
/// of every common divisor of the steps.
proof fn lemma_divides_item_sum(
    l: Seq<Item>,
    d: int,
    u: spec_fn(Seq<usize>) -> int,
    v: spec_fn(Seq<usize>) -> int,
)
    requires
        forall|k: Seq<usize>| divides(d, #[trigger] item_sum(l, merge::indicator(k)) * u(k)),
    ensures
        divides(d, item_sum(l, |k: Seq<usize>| u(k) * v(k))),
    decreases l.len(),
{
    let w = |k: Seq<usize>| u(k) * v(k);
    if l.len() == 0 {
        lemma_divides_multiple(d, 0);
    } else {
        let k = l.last().key;
        lemma_split_by_key(l, k, w);
        let rest = other_keys(l, k);
        assert(rest.len() < l.len()) by {
            reveal(Seq::filter);
            lemma_split_by_key(l.drop_last(), k, w);
            assert(rest =~= other_keys(l.drop_last(), k));
        }
        let a = item_sum(l, merge::indicator(k));
        assert(divides(d, a * u(k)));
        lemma_divides_product(d, a * u(k), v(k));
        assert((a * u(k)) * v(k) == a * (u(k) * v(k))) by (nonlinear_arith);
        assert forall|q: Seq<usize>|
            divides(d, #[trigger] item_sum(rest, merge::indicator(q)) * u(q)) by {
            if q == k {
                assert(0 * u(q) == 0);
                lemma_divides_multiple(d, 0);
            } else {
                assert(divides(d, item_sum(l, merge::indicator(q)) * u(q)));
            }
        }
        lemma_divides_item_sum(rest, d, u, v);
        lemma_divides_sum(d, a * w(k), item_sum(rest, w));
    }
}

/// Minus two to the power `n`, or zero.
spec fn low_weight(x: Seq<bool>) -> spec_fn(Seq<usize>) -> int {
    |k: Seq<usize>| low_sign(k, x)
}

/// `(-1)^|k|` if every variable of `k` is low, zero otherwise.
spec fn low_sign(k: Seq<usize>, x: Seq<bool>) -> int
    decreases k.len(),
{
    if k.len() == 0 {
        1
    } else if x[k.last() as int] {
        0
    } else {
        -low_sign(k.drop_last(), x)
    }
}

spec fn factor_of(vt: VarType) -> spec_fn(Seq<usize>) -> int {
    |k: Seq<usize>|
        match vt {
            VarType::Bin => 1int,
            VarType::Spin => two_pow(k.len()),
        }
}

proof fn lemma_pushed_sum(
    s: Seq<Seq<usize>>,
    v: usize,
    x: Seq<bool>,
    w: spec_fn(Seq<usize>) -> int,
)
    requires
        w == (|k: Seq<usize>| two_pow(k.len()) * low_sign(k, x)),
    ensures
        weight_sum(s.map_values(|q: Seq<usize>| q.push(v)), w) == (if x[v as int] {
            0
        } else {
            -2 * weight_sum(s, w)
        }),
    decreases s.len(),
{
    let f = |q: Seq<usize>| q.push(v);
    if s.len() > 0 {
        lemma_pushed_sum(s.drop_last(), v, x, w);
        assert(s.map_values(f).drop_last() =~= s.drop_last().map_values(f));
        let k = s.last();
        assert(k.push(v).drop_last() =~= k);
        let a = two_pow(k.len());
        let b = low_sign(k, x);
        assert(two_pow(k.push(v).len()) == 2 * a);
        assert((2 * a) * (-b) == -2 * (a * b)) by (nonlinear_arith);
        assert((2 * a) * 0 == 0);
    }
}

proof fn lemma_weight_sum_add(
    a: Seq<Seq<usize>>,
    b: Seq<Seq<usize>>,
    w: spec_fn(Seq<usize>) -> int,
)
    ensures
        weight_sum(a + b, w) == weight_sum(a, w) + weight_sum(b, w),
    decreases b.len(),
{
    if b.len() == 0 {
        assert(a + b =~= a);
    } else {
        assert((a + b).drop_last() =~= a + b.drop_last());
        lemma_weight_sum_add(a, b.drop_last(), w);
    }
}

/// A spin product as a sum over its low sublists.
proof fn lemma_spin_expand(idx: Seq<usize>, x: Seq<bool>, w: spec_fn(Seq<usize>) -> int)
    requires
        w == (|k: Seq<usize>| two_pow(k.len()) * low_sign(k, x)),
    ensures
        weight_sum(sublists(idx), w) == term::monomial(VarType::Spin, idx, x),
    decreases idx.len(),
{
    if idx.len() == 0 {
        let e = Seq::<usize>::empty();
        assert(sublists(idx).drop_last() =~= Seq::<Seq<usize>>::empty());
        assert(w(e) == 1);
        assert(weight_sum(sublists(idx), w) == weight_sum(sublists(idx).drop_last(), w) + w(e));
    } else {
        let s = sublists(idx.drop_last());
        let v = idx.last();
        lemma_spin_expand(idx.drop_last(), x, w);
        lemma_weight_sum_add(s, s.map_values(|q: Seq<usize>| q.push(idx.last())), w);
        lemma_pushed_sum(s, v, x, w);
    }
}

/// The sum of all coefficients: the spin objective with every variable high.
spec fn coeff_sum(terms: Seq<Term>) -> int
    decreases terms.len(),
{
    if terms.len() == 0 {
        0
    } else {
        coeff_sum(terms.drop_last()) + terms.last().coeff
    }
}

proof fn lemma_poly_expands(vt: VarType, terms: Seq<Term>, x: Seq<bool>)
    ensures
        vt == VarType::Bin ==> term::poly(vt, terms, x) == grid_base(vt, 0, terms) + expansion(
            vt,
            terms,
            |k: Seq<usize>| factor_of(vt)(k) * term::monomial(vt, k, x),
        ),
        vt == VarType::Spin ==> term::poly(vt, terms, x) == coeff_sum(terms) + expansion(
            vt,
            terms,
            |k: Seq<usize>| factor_of(vt)(k) * low_weight(x)(k),
        ),
    decreases terms.len(),
{
    if terms.len() > 0 {
        let t = terms.last();
        lemma_poly_expands(vt, terms.drop_last(), x);
        match vt {
            VarType::Bin => {
                let r = reduction::lemma_reduced_exists(vt, t.indices@, x);
                reduction::lemma_reduced_form(vt, t.indices@, r);
                if t.indices@.len() == 0 {
                    let c = t.coeff as int;
                    assert(term::monomial(vt, t.indices@, x) == 1);
                    assert(c * 1 == c && c * 0 == 0);
                }
            },
            VarType::Spin => {
                let w = |k: Seq<usize>| factor_of(vt)(k) * low_weight(x)(k);
                let w2 = |k: Seq<usize>| two_pow(k.len()) * low_sign(k, x);
                assert(w =~= w2);
                lemma_spin_expand(t.indices@, x, w);
                let m = term::monomial(vt, t.indices@, x);
                let e = Seq::<usize>::empty();
                assert(w(e) == 1);
                assert(t.coeff * (m - 1) == t.coeff * m - t.coeff) by (nonlinear_arith);
            },
        }
    }
}

/// The grid base is attained: it is the objective with every variable low.
pub proof fn grid_base_is_attained(vt: VarType, offset: int, terms: Seq<Term>, x: Seq<bool>)
    requires
        term::terms_below(terms, x.len() as int),
        forall|i: int| 0 <= i < x.len() ==> !#[trigger] x[i],
    ensures
        grid_base(vt, offset, terms) == offset + term::poly(vt, terms, x),
    decreases terms.len(),
{
    if terms.len() > 0 {
        assert(terms[terms.len() - 1] == terms.last());
        assert(term::indices_below(terms.last().indices@, x.len() as int));
        assert forall|i: int| 0 <= i < terms.drop_last().len() implies term::indices_below(
            #[trigger] terms.drop_last()[i].indices@,
            x.len() as int,
        ) by {
            assert(terms.drop_last()[i] == terms[i]);
        }
        grid_base_is_attained(vt, offset, terms.drop_last(), x);
        lemma_low_monomial(vt, terms.last().indices@, x);
        let c = terms.last().coeff as int;
        assert(c * -1 == -c && c * 0 == 0 && c * 1 == c);
    }
}

proof fn lemma_grid_base_shift(vt: VarType, offset: int, terms: Seq<Term>)
    ensures
        grid_base(vt, offset, terms) == offset + grid_base(vt, 0, terms),
    decreases terms.len(),
{
    if terms.len() > 0 {
        lemma_grid_base_shift(vt, offset, terms.drop_last());
    }
}

proof fn lemma_low_monomial(vt: VarType, idx: Seq<usize>, x: Seq<bool>)
    requires
        term::indices_below(idx, x.len() as int),
        forall|i: int| 0 <= i < x.len() ==> !#[trigger] x[i],
    ensures
        term::monomial(vt, idx, x) == (match vt {
            VarType::Bin => if idx.len() == 0 {
                1int
            } else {
                0
            },
            VarType::Spin => if idx.len() % 2 == 0 {
                1int
            } else {
                -1int
            },
        }),
    decreases idx.len(),
{
    if idx.len() > 0 {
        lemma_low_monomial(vt, idx.drop_last(), x);
        let m = term::monomial(vt, idx.drop_last(), x);
        assert(m * 0 == 0);
        assert(idx[idx.len() - 1] < x.len());
        assert(!x[idx.last() as int]);
    }
}

/// Every objective value lies on the grid: it differs from the grid base by a
/// multiple of the granularity. Over bits the terms are not constant.
pub proof fn values_lie_on_grid(
    vt: VarType,
    offset: int,
    terms: Seq<Term>,
    g: int,
    x: Seq<bool>,
)
    requires
        is_grid_gcd(vt, terms, g),
        term::terms_below(terms, x.len() as int),
    ensures
        divides(g, offset + term::poly(vt, terms, x) - grid_base(vt, offset, terms)),
{
    let l = items(vt, terms);
    assert forall|k: Seq<usize>|
        divides(g, #[trigger] item_sum(l, merge::indicator(k)) * factor_of(vt)(k)) by {
        lemma_items_expand(vt, terms, merge::indicator(k));
        assert(divides(g, grid_step(vt, terms, k)));
        let e = expansion(vt, terms, merge::indicator(k));
        assert(e * 1 == e);
    }
    lemma_poly_expands(vt, terms, x);
    lemma_grid_base_shift(vt, offset, terms);
    match vt {
        VarType::Bin => {
            let v = |k: Seq<usize>| term::monomial(vt, k, x);
            lemma_divides_item_sum(l, g, factor_of(vt), v);
            let w = |k: Seq<usize>| factor_of(vt)(k) * v(k);
            let w2 = |k: Seq<usize>| factor_of(vt)(k) * term::monomial(vt, k, x);
            assert(w =~= w2);
            lemma_items_expand(vt, terms, w);
        },
        VarType::Spin => {
            lemma_divides_item_sum(l, g, factor_of(vt), low_weight(x));
            lemma_items_expand(vt, terms, |k: Seq<usize>| factor_of(vt)(k) * low_weight(x)(k));
            let low = Seq::new(x.len(), |i: int| false);
            lemma_poly_expands(vt, terms, low);
            lemma_divides_item_sum(l, g, factor_of(vt), low_weight(low));
            lemma_items_expand(vt, terms, |k: Seq<usize>| factor_of(vt)(k) * low_weight(low)(k));
            grid_base_is_attained(vt, offset, terms, low);
            lemma_divides_sum(
                g,
                expansion(vt, terms, |k: Seq<usize>| factor_of(vt)(k) * low_weight(x)(k)),
                expansion(vt, terms, |k: Seq<usize>| factor_of(vt)(k) * low_weight(low)(k)),
            );
        },
    }
}

/// The sublists of an ascending list ascend and hold members of it; only the first is
/// empty.
proof fn lemma_sublists_ascend(idx: Seq<usize>, i: int)
    requires
        sets::ascending(idx),
        0 <= i < sublists(idx).len(),
    ensures
        sets::ascending(sublists(idx)[i]),
        forall|j: int|
            0 <= j < sublists(idx)[i].len() ==> idx.contains(#[trigger] sublists(idx)[i][j]),
        i > 0 ==> sublists(idx)[i].len() > 0,
    decreases idx.len(),
{
    if idx.len() > 0 {
        let p = idx.drop_last();
        let s = sublists(p);
        let r = sublists(idx)[i];
        if i < s.len() {
            lemma_sublists_ascend(p, i);
            assert(r == s[i]);
            assert forall|j: int| 0 <= j < r.len() implies idx.contains(#[trigger] r[j]) by {
                assert(p.contains(s[i][j]));
                let q = p.index_of(r[j]);
                assert(idx[q] == r[j]);
            }
        } else {
            let h = i - s.len();
            lemma_sublists_ascend(p, h);
            assert(r == s[h].push(idx.last()));
            assert forall|j: int| 0 <= j < r.len() implies idx.contains(#[trigger] r[j]) && (j
                < r.len() - 1 ==> r[j] < idx.last()) by {
                if j < r.len() - 1 {
                    assert(p.contains(s[h][j]));
                    let q = p.index_of(r[j]);
                    assert(idx[q] == r[j]);
                    assert(idx[q] < idx[idx.len() - 1]);
                } else {
                    assert(idx[idx.len() - 1] == r[j]);
                }
            }
        }
    }
}

/// A nonempty ascending list of variables below `n`.
spec fn is_grid_key(k: Seq<usize>, n: int) -> bool {
    k.len() > 0 && sets::ascending(k) && term::indices_below(k, n)
}

proof fn lemma_item_keys(vt: VarType, terms: Seq<Term>, n: int, i: int)
    requires
        term::terms_below(terms, n),
        forall|t: int| 0 <= t < terms.len() ==> sets::ascending(#[trigger] terms[t].indices@),
        0 <= i < items(vt, terms).len(),
    ensures
        is_grid_key(items(vt, terms)[i].key, n),
    decreases terms.len(),
{
    if terms.len() > 0 {
        let d = terms.drop_last();
        let t = terms.last();
        let idx = t.indices@;
        let before = items(vt, d);
        assert(terms[terms.len() - 1] == t);
        assert(sets::ascending(idx));
        assert(term::indices_below(idx, n));
        if i < before.len() {
            assert forall|q: int| 0 <= q < d.len() implies sets::ascending(
                #[trigger] d[q].indices@,
            ) by {
                assert(d[q] == terms[q]);
            }
            assert forall|q: int| 0 <= q < d.len() implies term::indices_below(
                #[trigger] d[q].indices@,
                n,
            ) by {
                assert(d[q] == terms[q]);
            }
            lemma_item_keys(vt, d, n, i);
        } else {
            let own = term_items(vt, idx, t.coeff as int);
            let h = i - before.len();
            let k = own[h].key;
            match vt {
                VarType::Bin => {
                    let x = Seq::new(n as nat, |j: int| true);
                    let r = reduction::lemma_reduced_exists(vt, idx, x);
                    reduction::lemma_reduced_form(vt, idx, r);
                    assert(k == r);
                    delta::lemma_occurrences(idx, idx[0]);
                    assert(idx.contains(idx[0]));
                    assert(r.contains(idx[0]));
                    assert forall|j: int| 0 <= j < r.len() implies (#[trigger] r[j]) < n by {
                        assert(r.contains(r[j]));
                        delta::lemma_occurrences(idx, r[j]);
                        let q = idx.index_of(r[j]);
                        assert(idx[q] < n);
                    }
                },
                VarType::Spin => {
                    lemma_sublists_len(idx);
                    lemma_sublists_ascend(idx, h + 1);
                    assert(k == sublists(idx)[h + 1]);
                    assert forall|j: int| 0 <= j < k.len() implies (#[trigger] k[j]) < n by {
                        assert(idx.contains(k[j]));
                        let q = idx.index_of(k[j]);
                        assert(idx[q] < n);
                    }
                },
            }
        }
    }
}

/// Weights that agree on the keys of the items give the same sum.
proof fn lemma_same_item_sum(
    l: Seq<Item>,
    a: spec_fn(Seq<usize>) -> int,
    b: spec_fn(Seq<usize>) -> int,
)
    requires
        forall|i: int| 0 <= i < l.len() ==> a((#[trigger] l[i]).key) == b(l[i].key),
    ensures
        item_sum(l, a) == item_sum(l, b),
    decreases l.len(),
{
    if l.len() > 0 {
        let d = l.drop_last();
        assert forall|i: int| 0 <= i < d.len() implies a((#[trigger] d[i]).key) == b(d[i].key) by {
            assert(d[i] == l[i]);
        }
        lemma_same_item_sum(d, a, b);
        assert(a(l[l.len() - 1].key) == b(l[l.len() - 1].key));
    }
}

proof fn lemma_no_item_sum(l: Seq<Item>, a: spec_fn(Seq<usize>) -> int)
    requires
        forall|i: int| 0 <= i < l.len() ==> a((#[trigger] l[i]).key) == 0,
    ensures
        item_sum(l, a) == 0,
    decreases l.len(),
{
    if l.len() > 0 {
        let d = l.drop_last();
        assert forall|i: int| 0 <= i < d.len() implies a((#[trigger] d[i]).key) == 0 by {
            assert(d[i] == l[i]);
        }
        lemma_no_item_sum(d, a);
        assert(a(l[l.len() - 1].key) == 0);
    }
}

/// The sum at a weight, with the part of one key apart.
proof fn lemma_item_sum_apart(l: Seq<Item>, k: Seq<usize>, w: spec_fn(Seq<usize>) -> int)
    ensures
        item_sum(l, w) == item_sum(
            l,
            |q: Seq<usize>|
                if q == k {
                    0
                } else {
                    w(q)
                },
        ) + item_sum(l, merge::indicator(k)) * w(k),
    decreases l.len(),
{
    if l.len() > 0 {
        lemma_item_sum_apart(l.drop_last(), k, w);
        let e = l.last();
        let a = item_sum(l.drop_last(), merge::indicator(k));
        let c = e.c;
        let v = w(k);
        assert((a + c) * v == a * v + c * v) by (nonlinear_arith);
        assert(c * 0 == 0 && c * 1 == c);
    } else {
        assert(0 * w(k) == 0);
    }
}

/// The members of the key, and no others, high over bits and low over spins.
spec fn at_key(vt: VarType, n: nat, key: Seq<usize>) -> Seq<bool> {
    Seq::new(n, |i: int| key.contains(i as usize) == (vt == VarType::Bin))
}

/// What a monomial weighs at an assignment.
spec fn weight_at(vt: VarType, x: Seq<bool>) -> spec_fn(Seq<usize>) -> int {
    |k: Seq<usize>|
        match vt {
            VarType::Bin => term::monomial(vt, k, x),
            VarType::Spin => low_weight(x)(k),
        }
}

proof fn lemma_weight_at(vt: VarType, n: nat, key: Seq<usize>, k: Seq<usize>)
    requires
        term::indices_below(k, n as int),
        n <= usize::MAX,
    ensures
        (forall|j: int| 0 <= j < k.len() ==> key.contains(#[trigger] k[j])) ==> weight_at(
            vt,
            at_key(vt, n, key),
        )(k) == 1 || weight_at(vt, at_key(vt, n, key))(k) == -1,
        !(forall|j: int| 0 <= j < k.len() ==> key.contains(#[trigger] k[j])) ==> weight_at(
            vt,
            at_key(vt, n, key),
        )(k) == 0,
    decreases k.len(),
{
    let x = at_key(vt, n, key);
    if k.len() > 0 {
        let p = k.drop_last();
        assert forall|j: int| 0 <= j < p.len() implies (#[trigger] p[j]) < n by {
            assert(p[j] == k[j]);
        }
        lemma_weight_at(vt, n, key, p);
        assert(k[k.len() - 1] < n);
        let inside = forall|j: int| 0 <= j < k.len() ==> key.contains(#[trigger] k[j]);
        let first = forall|j: int| 0 <= j < p.len() ==> key.contains(#[trigger] p[j]);
        assert(inside == (first && key.contains(k.last()))) by {
            if inside {
                assert forall|j: int| 0 <= j < p.len() implies key.contains(#[trigger] p[j]) by {
                    assert(key.contains(k[j]));
                }
                assert(key.contains(k[k.len() - 1]));
            }
            if first && key.contains(k.last()) {
                assert forall|j: int| 0 <= j < k.len() implies key.contains(#[trigger] k[j]) by {
                    if j < p.len() {
                        assert(key.contains(p[j]));
                    }
                }
            }
        }
        let m = weight_at(vt, x)(p);
        assert(m * 0 == 0 && m * 1 == m);
    }
}

proof fn lemma_step_divides(vt: VarType, terms: Seq<Term>, n: nat, d: int, key: Seq<usize>)
    requires
        n <= usize::MAX,
        term::terms_below(terms, n as int),
        forall|t: int| 0 <= t < terms.len() ==> sets::ascending(#[trigger] terms[t].indices@),
        forall|x: Seq<bool>, y: Seq<bool>|
            x.len() == n && y.len() == n ==> divides(
                d,
                #[trigger] term::poly(vt, terms, x) - #[trigger] term::poly(vt, terms, y),
            ),
    ensures
        divides(d, grid_step(vt, terms, key)),
    decreases key.len(),
{
    let l = items(vt, terms);
    let f = factor_of(vt);
    assert forall|i: int| 0 <= i < l.len() implies is_grid_key((#[trigger] l[i]).key, n as int) by {
        lemma_item_keys(vt, terms, n as int, i);
    }
    lemma_items_expand(vt, terms, merge::indicator(key));
    let c = item_sum(l, merge::indicator(key));
    assert(grid_step(vt, terms, key) == c * f(key)) by {
        assert(c * 1 == c);
    }
    if !is_grid_key(key, n as int) {
        lemma_no_item_sum(l, merge::indicator(key));
        assert(0 * f(key) == 0);
        lemma_divides_multiple(d, 0);
        assert(d * 0 == 0);
    } else {
        let x = at_key(vt, n, key);
        let none = at_key(vt, n, Seq::empty());
        let v = weight_at(vt, x);
        let w = |k: Seq<usize>| f(k) * v(k);
        let w0 = |k: Seq<usize>| f(k) * weight_at(vt, none)(k);
        assert forall|i: int| 0 <= i < l.len() implies w0((#[trigger] l[i]).key) == 0 by {
            let k = l[i].key;
            lemma_weight_at(vt, n, Seq::empty(), k);
            assert(!Seq::<usize>::empty().contains(k[0]));
            assert(f(k) * 0 == 0);
        }
        lemma_no_item_sum(l, w0);
        lemma_items_expand(vt, terms, w);
        lemma_items_expand(vt, terms, w0);
        lemma_poly_expands(vt, terms, x);
        lemma_poly_expands(vt, terms, none);
        match vt {
            VarType::Bin => {
                assert(w =~= |k: Seq<usize>| f(k) * term::monomial(vt, k, x));
                assert(w0 =~= |k: Seq<usize>| f(k) * term::monomial(vt, k, none));
            },
            VarType::Spin => {
                assert(w =~= |k: Seq<usize>| f(k) * low_weight(x)(k));
                assert(w0 =~= |k: Seq<usize>| f(k) * low_weight(none)(k));
            },
        }
        assert(divides(d, term::poly(vt, terms, x) - term::poly(vt, terms, none)));
        assert(divides(d, item_sum(l, w)));
        let apart = |q: Seq<usize>|
            if q == key {
                0
            } else {
                w(q)
            };
        lemma_item_sum_apart(l, key, w);
        let u = |k: Seq<usize>|
            if k != key && is_grid_key(k, n as int) && (forall|j: int|
                0 <= j < k.len() ==> key.contains(#[trigger] k[j])) {
                f(k)
            } else {
                0
            };
        let uv = |k: Seq<usize>| u(k) * v(k);
        assert forall|i: int| 0 <= i < l.len() implies apart((#[trigger] l[i]).key) == uv(
            l[i].key,
        ) by {
            let k = l[i].key;
            lemma_weight_at(vt, n, key, k);
            assert(0 * v(k) == 0 && f(k) * 0 == 0);
        }
        lemma_same_item_sum(l, apart, uv);
        assert forall|k: Seq<usize>| divides(d, #[trigger] item_sum(l, merge::indicator(k)) * u(k)) by {
            let ck = item_sum(l, merge::indicator(k));
            if u(k) == 0 {
                assert(ck * 0 == 0);
                lemma_divides_multiple(d, 0);
                assert(d * 0 == 0);
            } else {
                sets::lemma_ascending_within(k, key);
                lemma_step_divides(vt, terms, n, d, k);
                lemma_items_expand(vt, terms, merge::indicator(k));
                assert(ck * 1 == ck);
            }
        }
        lemma_divides_item_sum(l, d, u, v);
        lemma_divides_sum(d, item_sum(l, w), item_sum(l, uv));
        lemma_weight_at(vt, n, key, key);
        assert forall|j: int| 0 <= j < key.len() implies key.contains(#[trigger] key[j]) by {}
        let fk = f(key);
        assert(divides(d, c * w(key)));
        if v(key) == 1 {
            assert(fk * 1 == fk);
        } else {
            assert(c * (fk * -1) == -(c * fk)) by (nonlinear_arith);
            lemma_divides_product(d, c * w(key), -1);
            assert((-(c * fk)) * -1 == c * fk) by (nonlinear_arith);
        }
    }
}

/// The granularity is the greatest: whatever divides the differences of all values
/// divides it.
pub proof fn granularity_is_greatest(vt: VarType, terms: Seq<Term>, n: nat, g: int, d: int)
    requires
        n <= usize::MAX,
        is_grid_gcd(vt, terms, g),
        term::terms_below(terms, n as int),
        forall|t: int| 0 <= t < terms.len() ==> sets::ascending(#[trigger] terms[t].indices@),
        forall|x: Seq<bool>, y: Seq<bool>|
            x.len() == n && y.len() == n ==> divides(
                d,
                #[trigger] term::poly(vt, terms, x) - #[trigger] term::poly(vt, terms, y),
            ),
    ensures
        divides(d, g),
{
    assert forall|key: Seq<usize>| divides(d, #[trigger] grid_step(vt, terms, key)) by {
        lemma_step_divides(vt, terms, n, d, key);
    }
}

} // verus!
