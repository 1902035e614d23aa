//! Minimisers of one term together with a cost of each of its variables.

use crate::domain::VarType;
use crate::term;
use vstd::prelude::*;

verus! {

/// The product of the values of the first `k` bits.
pub open spec fn chi(vt: VarType, y: Seq<bool>, k: nat) -> int
    decreases k,
{
    if k == 0 {
        1
    } else {
        chi(vt, y, (k - 1) as nat) * term::bit_value(vt, y[k - 1])
    }
}

/// The costs of the first `k` variables at their values.
pub open spec fn cost_sum(vt: VarType, lambda: Seq<i64>, y: Seq<bool>, k: nat) -> int
    decreases k,
{
    if k == 0 {
        0
    } else {
        cost_sum(vt, lambda, y, (k - 1) as nat) + lambda[k - 1] * term::bit_value(vt, y[k - 1])
    }
}

/// The value of a term with coefficient `c` and the costs of its variables.
pub open spec fn local_value(vt: VarType, c: int, lambda: Seq<i64>, y: Seq<bool>) -> int {
    c * chi(vt, y, lambda.len()) + cost_sum(vt, lambda, y, lambda.len())
}

/// The sizes of the first `k` costs, in all.
pub open spec fn size_sum(lambda: Seq<i64>, k: nat) -> int
    decreases k,
{
    if k == 0 {
        0
    } else {
        size_sum(lambda, (k - 1) as nat) + term::abs(lambda[k - 1] as int)
    }
}

/// `y` takes the least value `v`.
pub open spec fn is_minimizer(vt: VarType, c: int, lambda: Seq<i64>, y: Seq<bool>, v: int) -> bool {
    &&& y.len() == lambda.len()
    &&& v == local_value(vt, c, lambda, y)
    &&& forall|z: Seq<bool>|
        z.len() == lambda.len() ==> v <= #[trigger] local_value(vt, c, lambda, z)
}

/// The first `k` costs, in all.
pub open spec fn plain_sum(lambda: Seq<i64>, k: nat) -> int
    decreases k,
{
    if k == 0 {
        0
    } else {
        plain_sum(lambda, (k - 1) as nat) + lambda[k - 1]
    }
}

/// The negative ones of the first `k` costs, in all.
pub open spec fn negative_sum(lambda: Seq<i64>, k: nat) -> int
    decreases k,
{
    if k == 0 {
        0
    } else {
        negative_sum(lambda, (k - 1) as nat) + (if lambda[k - 1] < 0 {
            lambda[k - 1] as int
        } else {
            0
        })
    }
}

/// The first of the largest costs.
pub open spec fn is_first_largest(lambda: Seq<i64>, j: int) -> bool {
    &&& 0 <= j < lambda.len()
    &&& forall|i: int| 0 <= i < lambda.len() ==> #[trigger] lambda[i] <= lambda[j]
    &&& forall|i: int| 0 <= i < j ==> #[trigger] lambda[i] < lambda[j]
}

/// The first of the smallest costs by size.
pub open spec fn is_first_smallest(lambda: Seq<i64>, j: int) -> bool {
    &&& 0 <= j < lambda.len()
    &&& forall|i: int|
        0 <= i < lambda.len() ==> term::abs(lambda[j] as int) <= term::abs(
            #[trigger] lambda[i] as int,
        )
    &&& forall|i: int|
        0 <= i < j ==> term::abs(lambda[j] as int) < term::abs(#[trigger] lambda[i] as int)
}

/// The bits of negative cost are high.
pub open spec fn paying(lambda: Seq<i64>) -> Seq<bool> {
    Seq::new(lambda.len(), |i: int| lambda[i] < 0)
}

/// The cheapest bits of which one is low: those of negative cost are high, but for
/// the first of the largest cost when all are negative.
pub open spec fn one_low(lambda: Seq<i64>) -> Seq<bool> {
    if exists|i: int| 0 <= i < lambda.len() && #[trigger] lambda[i] >= 0 {
        paying(lambda)
    } else {
        Seq::new(lambda.len(), |i: int| i != choose|j: int| is_first_largest(lambda, j))
    }
}

/// The minimiser over bits that is taken: all bits high only where that is better
/// than one low.
pub open spec fn bin_choice(c: int, lambda: Seq<i64>) -> Seq<bool> {
    let high = Seq::new(lambda.len(), |i: int| true);
    if local_value(VarType::Bin, c, lambda, high) < local_value(
        VarType::Bin,
        c,
        lambda,
        one_low(lambda),
    ) {
        high
    } else {
        one_low(lambda)
    }
}

/// The minimiser over spins that is taken: against the signs of the costs, or with
/// the first spin of smallest cost flipped; of the two, that with the product +1
/// only where it is better.
pub open spec fn spin_choice(c: int, lambda: Seq<i64>) -> Seq<bool> {
    let j = choose|j: int| is_first_smallest(lambda, j);
    let a = paying(lambda);
    let b = a.update(j, !a[j]);
    let (plus, minus) = if chi(VarType::Spin, a, lambda.len()) == 1 {
        (a, b)
    } else {
        (b, a)
    };
    if local_value(VarType::Spin, c, lambda, plus) < local_value(
        VarType::Spin,
        c,
        lambda,
        minus,
    ) {
        plus
    } else {
        minus
    }
}

/// The minimiser that is taken.
pub open spec fn choice(vt: VarType, c: int, lambda: Seq<i64>) -> Seq<bool> {
    match vt {
        VarType::Bin => bin_choice(c, lambda),
        VarType::Spin => spin_choice(c, lambda),
    }
}

pub proof fn lemma_size_sum(lambda: Seq<i64>, j: nat, k: nat)
    requires
        j <= k <= lambda.len(),
    ensures
        0 <= size_sum(lambda, j) <= size_sum(lambda, k),
        -size_sum(lambda, j) <= plain_sum(lambda, j) <= size_sum(lambda, j),
        -size_sum(lambda, j) <= negative_sum(lambda, j) <= 0,
        negative_sum(lambda, j) <= plain_sum(lambda, j),
        j < k ==> size_sum(lambda, j) + term::abs(lambda[j as int] as int) <= size_sum(lambda, k),
    decreases k,
{
    if k > 0 {
        if j < k {
            lemma_size_sum(lambda, j, (k - 1) as nat);
        } else {
            lemma_size_sum(lambda, (j - 1) as nat, (k - 1) as nat);
        }
    }
}

/// All bits of the first `k` are high.
spec fn all_high(y: Seq<bool>, k: nat) -> bool {
    forall|i: int| 0 <= i < k ==> #[trigger] y[i]
}

proof fn lemma_bin_chi(y: Seq<bool>, k: nat)
    requires
        k <= y.len(),
    ensures
        chi(VarType::Bin, y, k) == (if all_high(y, k) {
            1int
        } else {
            0
        }),
    decreases k,
{
    if k > 0 {
        lemma_bin_chi(y, (k - 1) as nat);
        if all_high(y, k) {
            assert(all_high(y, (k - 1) as nat));
            assert(y[k - 1]);
        } else if all_high(y, (k - 1) as nat) {
            assert(!y[k - 1]);
        } else {
            let b = term::bit_value(VarType::Bin, y[k - 1]);
            assert(0 * b == 0);
        }
    }
}

proof fn lemma_bin_costs(lambda: Seq<i64>, y: Seq<bool>, k: nat)
    requires
        k <= lambda.len(),
        k <= y.len(),
    ensures
        negative_sum(lambda, k) <= cost_sum(VarType::Bin, lambda, y, k),
        all_high(y, k) ==> cost_sum(VarType::Bin, lambda, y, k) == plain_sum(lambda, k),
    decreases k,
{
    if k > 0 {
        lemma_bin_costs(lambda, y, (k - 1) as nat);
        if all_high(y, k) {
            assert(all_high(y, (k - 1) as nat));
            assert(y[k - 1]);
        }
    }
}

/// With a low bit at `j`, and no cost that is not negative, at least the largest
/// cost is missing from the sum of all costs.
proof fn lemma_bin_missing(lambda: Seq<i64>, y: Seq<bool>, best: i64, j: int, k: nat)
    requires
        k <= lambda.len(),
        k <= y.len(),
        forall|i: int| 0 <= i < lambda.len() ==> (#[trigger] lambda[i]) < 0 && lambda[i] <= best,
        0 <= j < lambda.len(),
        j < y.len(),
        !y[j],
    ensures
        cost_sum(VarType::Bin, lambda, y, k) >= plain_sum(lambda, k),
        j < k ==> cost_sum(VarType::Bin, lambda, y, k) >= plain_sum(lambda, k) - best,
    decreases k,
{
    if k > 0 {
        lemma_bin_missing(lambda, y, best, j, (k - 1) as nat);
        assert(lambda[k - 1] < 0 && lambda[k - 1] <= best);
    }
}

proof fn lemma_bin_one_low(lambda: Seq<i64>, y: Seq<bool>, j: int, k: nat)
    requires
        k <= lambda.len(),
        y.len() == lambda.len(),
        0 <= j < y.len(),
        forall|i: int| 0 <= i < y.len() ==> #[trigger] y[i] == (i != j),
    ensures
        cost_sum(VarType::Bin, lambda, y, k) == plain_sum(lambda, k) - (if j < k {
            lambda[j] as int
        } else {
            0
        }),
    decreases k,
{
    if k > 0 {
        lemma_bin_one_low(lambda, y, j, (k - 1) as nat);
        assert(y[k - 1] == (k - 1 != j));
        assert(lambda[k - 1] * 0 == 0 && lambda[k - 1] * 1 == lambda[k - 1]);
    }
}

proof fn lemma_bin_negative(lambda: Seq<i64>, y: Seq<bool>, k: nat)
    requires
        k <= lambda.len(),
        y.len() == lambda.len(),
        forall|i: int| 0 <= i < y.len() ==> #[trigger] y[i] == (lambda[i] < 0),
    ensures
        cost_sum(VarType::Bin, lambda, y, k) == negative_sum(lambda, k),
    decreases k,
{
    if k > 0 {
        lemma_bin_negative(lambda, y, (k - 1) as nat);
        assert(y[k - 1] == (lambda[k - 1] < 0));
    }
}

/// A minimiser of a term over bits: either all bits are high, or those with a
/// negative cost are, but for the one of largest cost when all are negative.
pub fn min_local_bin(coeff: i64, lambda: &Vec<i64>) -> (r: (i64, Vec<bool>))
    requires
        lambda@.len() > 0,
        term::abs(coeff as int) + 2 * size_sum(lambda@, lambda@.len()) <= i64::MAX,
    ensures
        is_minimizer(VarType::Bin, coeff as int, lambda@, r.1@, r.0 as int),
        r.1@ == bin_choice(coeff as int, lambda@),
{
    let n: usize = lambda.len();
    let ghost l = lambda@;
    let mut sum_all: i64 = 0;
    let mut val_not_all: i64 = 0;
    let mut any_nonneg: bool = false;
    let mut best_j: usize = 0;
    let mut y: Vec<bool> = Vec::new();
    let mut j: usize = 0;
    while j < n
        invariant
            j <= n,
            n == l.len(),
            l == lambda@,
            term::abs(coeff as int) + 2 * size_sum(l, l.len()) <= i64::MAX,
            sum_all == plain_sum(l, j as nat),
            val_not_all == negative_sum(l, j as nat),
            y@.len() == j,
            forall|i: int| 0 <= i < j ==> #[trigger] y@[i] == (l[i] < 0),
            any_nonneg == exists|i: int| 0 <= i < j && #[trigger] l[i] >= 0,
            j > 0 ==> best_j < j,
            best_j <= j,
            forall|i: int| 0 <= i < j ==> #[trigger] l[i] <= l[best_j as int],
            forall|i: int| 0 <= i < best_j ==> #[trigger] l[i] < l[best_j as int],
        decreases n - j,
    {
        let v: i64 = lambda[j];
        proof {
            lemma_size_sum(l, j as nat, l.len());
            lemma_size_sum(l, (j + 1) as nat, l.len());
        }
        sum_all = sum_all + v;
        if v < 0 {
            val_not_all = val_not_all + v;
            y.push(true);
        } else {
            any_nonneg = true;
            y.push(false);
            assert(l[j as int] >= 0);
        }
        if j == 0 || v > lambda[best_j] {
            best_j = j;
        }
        j += 1;
    }
    proof {
        lemma_size_sum(l, n as nat, n as nat);
        lemma_size_sum(l, best_j as nat, n as nat);
        lemma_bin_negative(l, y@, n as nat);
        lemma_bin_chi(y@, n as nat);
    }
    if !any_nonneg {
        y.set(best_j, false);
        val_not_all = sum_all - lambda[best_j];
        proof {
            assert forall|i: int| 0 <= i < n implies #[trigger] y@[i] == (i != best_j) by {
                assert(!(l[i] >= 0));
            }
            lemma_bin_one_low(l, y@, best_j as int, n as nat);
            lemma_bin_chi(y@, n as nat);
            assert(!y@[best_j as int]);
            assert(is_first_largest(l, best_j as int));
            let q = choose|q: int| is_first_largest(l, q);
            assert(is_first_largest(l, q));
            assert(q == best_j);
        }
    }
    assert(y@ =~= one_low(l));
    proof {
        assert(val_not_all == cost_sum(VarType::Bin, l, y@, n as nat));
        assert(!all_high(y@, n as nat)) by {
            if any_nonneg {
                let i = choose|i: int| 0 <= i < n && #[trigger] l[i] >= 0;
                assert(!y@[i]);
            }
        }
        assert(coeff * 0 == 0);
        assert(coeff * 1 == coeff);
        assert forall|z: Seq<bool>| z.len() == n implies (if all_high(z, n as nat) {
            local_value(VarType::Bin, coeff as int, l, z) == sum_all + coeff
        } else {
            val_not_all <= #[trigger] local_value(VarType::Bin, coeff as int, l, z)
        }) by {
            lemma_bin_chi(z, n as nat);
            lemma_bin_costs(l, z, n as nat);
            if !all_high(z, n as nat) && !any_nonneg {
                let i = choose|i: int| 0 <= i < n && !(#[trigger] z[i]);
                assert forall|q: int| 0 <= q < n implies (#[trigger] l[q]) < 0 && l[q]
                    <= l[best_j as int] by {
                    assert(!(l[q] >= 0));
                }
                lemma_bin_missing(l, z, l[best_j as int], i, n as nat);
            }
        }
    }
    let val_all: i64 = sum_all + coeff;
    if val_all < val_not_all {
        let mut all: Vec<bool> = Vec::new();
        while all.len() < n
            invariant
                all@.len() <= n,
                forall|i: int| 0 <= i < all@.len() ==> #[trigger] all@[i],
            decreases n - all@.len(),
        {
            all.push(true);
        }
        assert(all_high(all@, n as nat));
        assert(all@ =~= Seq::new(l.len(), |i: int| true));
        return (val_all, all);
    }
    proof {
        let high = Seq::new(l.len(), |i: int| true);
        assert(all_high(high, n as nat));
        assert(local_value(VarType::Bin, coeff as int, l, high) == sum_all + coeff);
    }
    (val_not_all, y)
}

/// The parity of the low bits among the first `k`.
spec fn odd_low(y: Seq<bool>, k: nat) -> bool
    decreases k,
{
    if k == 0 {
        false
    } else {
        odd_low(y, (k - 1) as nat) != !y[k - 1]
    }
}

proof fn lemma_spin_chi(y: Seq<bool>, k: nat)
    ensures
        chi(VarType::Spin, y, k) == (if odd_low(y, k) {
            -1int
        } else {
            1
        }),
    decreases k,
{
    if k > 0 {
        lemma_spin_chi(y, (k - 1) as nat);
    }
}

/// The spins against the signs of the costs cost least; to change the parity of
/// the product at least twice the smallest cost is paid.
proof fn lemma_spin_costs(lambda: Seq<i64>, nat_y: Seq<bool>, z: Seq<bool>, least: int, k: nat)
    requires
        k <= lambda.len(),
        nat_y.len() == lambda.len(),
        forall|i: int| 0 <= i < nat_y.len() ==> #[trigger] nat_y[i] == (lambda[i] < 0),
        0 <= least,
        forall|i: int| 0 <= i < lambda.len() ==> least <= term::abs(#[trigger] lambda[i] as int),
    ensures
        cost_sum(VarType::Spin, lambda, nat_y, k) == -size_sum(lambda, k),
        cost_sum(VarType::Spin, lambda, z, k) >= -size_sum(lambda, k) + (if odd_low(z, k)
            != odd_low(nat_y, k) {
            2 * least
        } else {
            0
        }),
    decreases k,
{
    if k > 0 {
        lemma_spin_costs(lambda, nat_y, z, least, (k - 1) as nat);
        assert(nat_y[k - 1] == (lambda[k - 1] < 0));
        assert(least <= term::abs(lambda[k - 1] as int));
    }
}

/// Flipping one spin of the cheapest assignment costs twice its cost.
proof fn lemma_spin_flip(lambda: Seq<i64>, nat_y: Seq<bool>, y: Seq<bool>, j: int, k: nat)
    requires
        k <= lambda.len(),
        nat_y.len() == lambda.len(),
        0 <= j < lambda.len(),
        y == nat_y.update(j, !nat_y[j]),
        forall|i: int| 0 <= i < nat_y.len() ==> #[trigger] nat_y[i] == (lambda[i] < 0),
    ensures
        cost_sum(VarType::Spin, lambda, y, k) == -size_sum(lambda, k) + (if j < k {
            2 * term::abs(lambda[j] as int)
        } else {
            0
        }),
        odd_low(y, k) == (odd_low(nat_y, k) != (j < k)),
    decreases k,
{
    if k > 0 {
        lemma_spin_flip(lambda, nat_y, y, j, (k - 1) as nat);
        assert(nat_y[k - 1] == (lambda[k - 1] < 0));
    }
}

/// A minimiser of a term over spins: against the signs of the costs, with the
/// spin of smallest cost flipped where the product asks for it.
pub fn min_local_spin(coeff: i64, lambda: &Vec<i64>) -> (r: (i64, Vec<bool>))
    requires
        lambda@.len() > 0,
        term::abs(coeff as int) + 2 * size_sum(lambda@, lambda@.len()) <= i64::MAX,
    ensures
        is_minimizer(VarType::Spin, coeff as int, lambda@, r.1@, r.0 as int),
        r.1@ == spin_choice(coeff as int, lambda@),
{
    let n: usize = lambda.len();
    let ghost l = lambda@;
    let mut base: i64 = 0;
    let mut odd: bool = false;
    let mut min_idx: usize = 0;
    let mut min_abs: i64 = 0;
    let mut y: Vec<bool> = Vec::new();
    let mut j: usize = 0;
    while j < n
        invariant
            j <= n,
            n == l.len(),
            l == lambda@,
            term::abs(coeff as int) + 2 * size_sum(l, l.len()) <= i64::MAX,
            base == -size_sum(l, j as nat),
            y@.len() == j,
            forall|i: int| 0 <= i < j ==> #[trigger] y@[i] == (l[i] < 0),
            odd == odd_low(y@, j as nat),
            j > 0 ==> min_idx < j && min_abs == term::abs(l[min_idx as int] as int),
            forall|i: int| 0 <= i < j ==> min_abs <= term::abs(#[trigger] l[i] as int),
            forall|i: int| 0 <= i < min_idx ==> min_abs < term::abs(#[trigger] l[i] as int),
            min_idx <= j,
        decreases n - j,
    {
        let v: i64 = lambda[j];
        proof {
            lemma_size_sum(l, j as nat, l.len());
            lemma_size_sum(l, (j + 1) as nat, l.len());
        }
        let size: i64 = if v < 0 {
            -v
        } else {
            v
        };
        base = base - size;
        let ghost before = y@;
        y.push(v < 0);
        if v >= 0 {
            odd = !odd;
        }
        if j == 0 || size < min_abs {
            min_abs = size;
            min_idx = j;
        }
        proof {
            lemma_odd_push(before, v < 0, j as nat);
        }
        j += 1;
    }
    let ghost nat_y = y@;
    proof {
        lemma_size_sum(l, n as nat, n as nat);
        lemma_size_sum(l, min_idx as nat, n as nat);
        lemma_spin_flip(
            l,
            nat_y,
            nat_y.update(min_idx as int, !nat_y[min_idx as int]),
            min_idx as int,
            n as nat,
        );
        lemma_spin_chi(nat_y, n as nat);
        lemma_spin_chi(nat_y.update(min_idx as int, !nat_y[min_idx as int]), n as nat);
    }
    let keep: i64 = base;
    let change: i64 = base + 2 * min_abs;
    let (val_plus, val_minus): (i64, i64) = if odd {
        (coeff + change, keep - coeff)
    } else {
        (coeff + keep, change - coeff)
    };
    let want_even: bool = val_plus < val_minus;
    proof {
        assert(coeff * 1 == coeff);
        assert(coeff * -1int == -coeff);
        assert forall|z: Seq<bool>| z.len() == n implies (if odd_low(z, n as nat) {
            val_minus <= #[trigger] local_value(VarType::Spin, coeff as int, l, z)
        } else {
            val_plus <= local_value(VarType::Spin, coeff as int, l, z)
        }) by {
            lemma_spin_chi(z, n as nat);
            lemma_spin_costs(l, nat_y, z, min_abs as int, n as nat);
        }
        lemma_spin_costs(l, nat_y, nat_y, min_abs as int, n as nat);
    }
    proof {
        assert(nat_y =~= paying(l));
        assert(is_first_smallest(l, min_idx as int));
        let q = choose|q: int| is_first_smallest(l, q);
        assert(is_first_smallest(l, q));
        assert(q == min_idx);
    }
    if odd == want_even {
        let old: bool = y[min_idx];
        y.set(min_idx, !old);
    }
    if want_even {
        (val_plus, y)
    } else {
        (val_minus, y)
    }
}

proof fn lemma_odd_push(y: Seq<bool>, b: bool, k: nat)
    requires
        k == y.len(),
    ensures
        odd_low(y.push(b), k + 1) == (odd_low(y, k) != !b),
{
    lemma_odd_prefix(y, b, k);
}

proof fn lemma_odd_prefix(y: Seq<bool>, b: bool, k: nat)
    requires
        k <= y.len(),
    ensures
        odd_low(y.push(b), k) == odd_low(y, k),
    decreases k,
{
    if k > 0 {
        lemma_odd_prefix(y, b, (k - 1) as nat);
    }
}

} // verus!
