//! Cost tables of terms over the assignments of their variables.

use crate::domain::VarType;
use crate::term;
use vstd::arithmetic::div_mod;
use vstd::prelude::*;

verus! {

/// The most variables of a table.
pub const MAX_FACTOR_ARITY: usize = 20;

/// The weight of bit `i` of a table index.
pub open spec fn place(i: nat) -> nat
    decreases i,
{
    if i == 0 {
        1
    } else {
        2 * place((i - 1) as nat)
    }
}

/// Bit `i` of a table index.
pub open spec fn bit_at(m: int, i: nat) -> bool {
    (m / (place(i) as int)) % 2 == 1
}

/// The table index of an assignment: bit `j` is set when the variable `vars[j]`
/// is high.
pub open spec fn mask_of(vars: Seq<usize>, x: Seq<bool>) -> int
    decreases vars.len(),
{
    if vars.len() == 0 {
        0
    } else {
        mask_of(vars.drop_last(), x) + (if x[vars.last() as int] {
            place((vars.len() - 1) as nat) as int
        } else {
            0
        })
    }
}

/// The entries of a table of one variable more at which that variable is low.
pub open spec fn low_half(vt: VarType, prev: Seq<int>) -> Seq<int> {
    match vt {
        VarType::Bin => Seq::new(prev.len(), |m: int| 0),
        VarType::Spin => Seq::new(prev.len(), |m: int| -prev[m]),
    }
}

/// The table of a term with `k` variables and coefficient `c`.
pub open spec fn initial_table(vt: VarType, c: int, k: nat) -> Seq<int>
    decreases k,
{
    if k == 0 {
        seq![c]
    } else {
        let prev = initial_table(vt, c, (k - 1) as nat);
        low_half(vt, prev) + prev
    }
}

/// The entries as unbounded numbers.
pub open spec fn entries(t: Seq<i128>) -> Seq<int> {
    Seq::new(t.len(), |m: int| t[m] as int)
}

pub proof fn lemma_place_positive(i: nat)
    ensures
        place(i) >= 1,
    decreases i,
{
    if i > 0 {
        lemma_place_positive((i - 1) as nat);
    }
}

pub proof fn lemma_place_monotone(i: nat, j: nat)
    requires
        i <= j,
    ensures
        place(i) <= place(j),
        i < j ==> 2 * place(i) <= place(j),
    decreases j,
{
    lemma_place_positive(i);
    if i < j {
        lemma_place_monotone(i, (j - 1) as nat);
    }
}

pub proof fn lemma_place_max(k: nat)
    requires
        k <= MAX_FACTOR_ARITY,
    ensures
        place(k) <= 1048576,
{
    lemma_place_monotone(k, 20);
    reveal_with_fuel(place, 21);
    assert(place(20) == 1048576);
}

/// A place above bit `i` is an even multiple of the place of bit `i`.
proof fn lemma_place_even(i: nat, j: nat)
    requires
        i < j,
    ensures
        place(j) == 2 * place(i) * place((j - i - 1) as nat),
    decreases j,
{
    if i + 1 == j {
        assert(place(0) == 1);
        assert(2 * place(i) * 1 == 2 * place(i)) by (nonlinear_arith);
    } else {
        lemma_place_even(i, (j - 1) as nat);
        let p = place(i);
        let q = place((j - i - 2) as nat);
        assert(place((j - i - 1) as nat) == 2 * q);
        assert(2 * (2 * p * q) == 2 * p * (2 * q)) by (nonlinear_arith);
    }
}

/// A mask is below the size of the table, and its bits are the variables' bits.
pub proof fn lemma_mask(vars: Seq<usize>, x: Seq<bool>)
    ensures
        0 <= mask_of(vars, x) < place(vars.len()),
    decreases vars.len(),
{
    if vars.len() > 0 {
        lemma_mask(vars.drop_last(), x);
    }
}

/// The bits of a mask are the variables' bits.
pub proof fn lemma_mask_bit(vars: Seq<usize>, x: Seq<bool>, i: nat)
    requires
        i < vars.len(),
    ensures
        bit_at(mask_of(vars, x), i) == x[vars[i as int] as int],
    decreases vars.len(),
{
    let k = (vars.len() - 1) as nat;
    let lo = mask_of(vars.drop_last(), x);
    let b = x[vars.last() as int];
    lemma_mask(vars.drop_last(), x);
    lemma_place_positive(i);
    let p = place(i) as int;
    if i == k {
        if b {
            div_mod::lemma_fundamental_div_mod_converse(lo + p, p, 1, lo);
        } else {
            div_mod::lemma_fundamental_div_mod_converse(lo, p, 0, lo);
        }
    } else {
        lemma_mask_bit(vars.drop_last(), x, i);
        assert(vars.drop_last()[i as int] == vars[i as int]);
        if b {
            lemma_place_even(i, k);
            let q = place((k - i - 1) as nat) as int;
            assert(2 * p * q == (2 * q) * p) by (nonlinear_arith);
            div_mod::lemma_hoist_over_denominator(lo, 2 * q, p as nat);
            assert((lo / p + 2 * q) % 2 == (lo / p) % 2);
        }
    }
}

pub proof fn lemma_initial_size(vt: VarType, c: int, k: nat)
    ensures
        initial_table(vt, c, k).len() == place(k),
        forall|m: int|
            0 <= m < place(k) ==> -term::abs(c) <= #[trigger] initial_table(vt, c, k)[m] <= term::abs(
                c,
            ),
    decreases k,
{
    if k > 0 {
        lemma_initial_size(vt, c, (k - 1) as nat);
        let prev = initial_table(vt, c, (k - 1) as nat);
        assert forall|m: int| 0 <= m < place(k) implies -term::abs(c) <= #[trigger] initial_table(
            vt,
            c,
            k,
        )[m] <= term::abs(c) by {
            if m < prev.len() {
                assert(-term::abs(c) <= prev[m] <= term::abs(c));
            } else {
                assert(-term::abs(c) <= prev[m - prev.len()] <= term::abs(c));
            }
        }
    }
}

/// The table of a term holds the value of the term at every assignment.
pub proof fn table_holds_values(vt: VarType, c: int, vars: Seq<usize>, x: Seq<bool>)
    ensures
        initial_table(vt, c, vars.len())[mask_of(vars, x)] == c * term::monomial(vt, vars, x),
    decreases vars.len(),
{
    if vars.len() > 0 {
        let dl = vars.drop_last();
        table_holds_values(vt, c, dl, x);
        lemma_mask(dl, x);
        lemma_initial_size(vt, c, dl.len());
        let m = term::monomial(vt, dl, x);
        let b = term::bit_value(vt, x[vars.last() as int]);
        assert(c * (m * b) == (c * m) * b) by (nonlinear_arith);
        assert((c * m) * b == if b == 0 { 0 } else if b == 1 { c * m } else { -(c * m) })
            by (nonlinear_arith)
            requires
                b == 0 || b == 1 || b == -1,
        ;
    } else {
        assert(c * 1 == c);
    }
}

/// The table of a term.
pub fn init_table(var_type: VarType, coeff: i64, k: usize) -> (r: Vec<i128>)
    requires
        k <= MAX_FACTOR_ARITY,
    ensures
        entries(r@) == initial_table(var_type, coeff as int, k as nat),
{
    let c: i128 = coeff as i128;
    let mut table: Vec<i128> = Vec::new();
    table.push(c);
    let mut j: usize = 0;
    assert(entries(table@) =~= initial_table(var_type, coeff as int, 0));
    while j < k
        invariant
            j <= k <= MAX_FACTOR_ARITY,
            entries(table@) == initial_table(var_type, coeff as int, j as nat),
        decreases k - j,
    {
        let ghost prev = table@;
        let size: usize = table.len();
        let mut next: Vec<i128> = Vec::new();
        let mut m: usize = 0;
        proof {
            lemma_initial_size(var_type, coeff as int, j as nat);
            assert(entries(prev).len() == size);
        }
        while m < size
            invariant
                m <= size,
                size == table@.len(),
                prev == table@,
                next@.len() == m,
                entries(prev) == initial_table(var_type, coeff as int, j as nat),
                entries(prev).len() == place(j as nat),
                forall|i: int|
                    0 <= i < place(j as nat) ==> -term::abs(coeff as int) <= #[trigger] initial_table(
                        var_type,
                        coeff as int,
                        j as nat,
                    )[i] <= term::abs(coeff as int),
                forall|i: int|
                    0 <= i < m ==> #[trigger] next@[i] == low_half(var_type, entries(prev))[i],
            decreases size - m,
        {
            assert(initial_table(var_type, coeff as int, j as nat)[m as int] == entries(
                prev,
            )[m as int]);
            next.push(
                match var_type {
                    VarType::Bin => 0,
                    VarType::Spin => -table[m],
                },
            );
            m += 1;
        }
        m = 0;
        while m < size
            invariant
                m <= size,
                size == table@.len(),
                prev == table@,
                next@.len() == size + m,
                forall|i: int|
                    0 <= i < size ==> #[trigger] next@[i] == low_half(var_type, entries(prev))[i],
                forall|i: int| size <= i < size + m ==> #[trigger] next@[i] == prev[i - size],
            decreases size - m,
        {
            next.push(table[m]);
            m += 1;
        }
        table = next;
        j += 1;
        assert(entries(table@) =~= initial_table(var_type, coeff as int, j as nat));
    }
    table
}

/// A part of a table: all of it, or the entries at which one bit has a value.
pub open spec fn in_part(m: int, part: Option<(nat, bool)>) -> bool {
    part matches Some(s) ==> bit_at(m, s.0) == s.1
}

/// `h` is the least entry of the part among the first `k`.
pub open spec fn is_least(t: Seq<int>, part: Option<(nat, bool)>, k: int, h: int) -> bool {
    &&& exists|m: int| 0 <= m < k && in_part(m, part) && #[trigger] t[m] == h
    &&& forall|m: int| 0 <= m < k && in_part(m, part) ==> h <= #[trigger] t[m]
}

/// The least entry of a part of a table.
pub open spec fn least(t: Seq<int>, part: Option<(nat, bool)>) -> int {
    choose|h: int| is_least(t, part, t.len() as int, h)
}

proof fn lemma_least_exists(t: Seq<int>, part: Option<(nat, bool)>, k: int, w: int)
    requires
        0 <= w < k <= t.len(),
        in_part(w, part),
    ensures
        exists|h: int| is_least(t, part, k, h),
    decreases k,
{
    let k1 = k - 1;
    if k - 1 == w {
        if exists|v: int| 0 <= v < w && in_part(v, part) && is_some_index(v) {
            let v = choose|v: int| 0 <= v < w && in_part(v, part) && is_some_index(v);
            lemma_least_exists(t, part, k - 1, v);
            let h = choose|h: int| is_least(t, part, k1, h);
            let g = if h <= t[w] {
                h
            } else {
                t[w]
            };
            assert(is_least(t, part, k, g));
        } else {
            assert forall|m: int| 0 <= m < k && in_part(m, part) implies t[w] <= #[trigger] t[m] by {
                if m < w {
                    assert(is_some_index(m));
                }
            }
            assert(is_least(t, part, k, t[w]));
        }
    } else {
        lemma_least_exists(t, part, k - 1, w);
        let h = choose|h: int| is_least(t, part, k1, h);
        let g = if in_part(k - 1, part) && t[k - 1] < h {
            t[k - 1]
        } else {
            h
        };
        assert(is_least(t, part, k, g));
    }
}

spec fn is_some_index(v: int) -> bool {
    true
}

/// The least entry of a part with an entry.
pub proof fn lemma_least(t: Seq<int>, part: Option<(nat, bool)>, w: int)
    requires
        0 <= w < t.len(),
        in_part(w, part),
    ensures
        is_least(t, part, t.len() as int, least(t, part)),
{
    lemma_least_exists(t, part, t.len() as int, w);
}

/// There is only one least entry.
pub proof fn lemma_least_unique(t: Seq<int>, part: Option<(nat, bool)>, h: int)
    requires
        is_least(t, part, t.len() as int, h),
    ensures
        least(t, part) == h,
{
    let g = least(t, part);
    assert(is_least(t, part, t.len() as int, g));
}

/// The table is the size of an index with `k` bits.
pub open spec fn is_table(t: Seq<int>, k: nat) -> bool {
    t.len() == place(k)
}

/// Both halves of a table have a least entry.
pub proof fn lemma_halves(t: Seq<int>, k: nat, i: nat)
    requires
        is_table(t, k),
        i < k,
    ensures
        is_least(t, Some((i, false)), t.len() as int, least(t, Some((i, false)))),
        is_least(t, Some((i, true)), t.len() as int, least(t, Some((i, true)))),
        is_least(t, None, t.len() as int, least(t, None)),
{
    lemma_place_monotone(i, k);
    lemma_place_positive(i);
    let p = place(i) as int;
    assert(0int / p == 0) by (nonlinear_arith)
        requires
            p >= 1,
    ;
    assert(p / p == 1) by (nonlinear_arith)
        requires
            p >= 1,
    ;
    assert(in_part(0, Some((i, false))));
    assert(in_part(p, Some((i, true))));
    assert(in_part(0, None));
    lemma_least(t, Some((i, false)), 0);
    lemma_least(t, Some((i, true)), p);
    lemma_least(t, None, 0);
}

/// A table with the least entry of each half for bit `i` taken away.
pub open spec fn settled(t: Seq<int>, i: nat) -> Seq<int> {
    Seq::new(t.len(), |m: int| t[m] - least(t, Some((i, bit_at(m, i)))))
}

/// A settled table has no negative entry, and its least entry is 0.
pub proof fn settled_has_zero(t: Seq<int>, k: nat, i: nat)
    requires
        is_table(t, k),
        i < k,
    ensures
        is_table(settled(t, i), k),
        forall|m: int| 0 <= m < t.len() ==> 0 <= #[trigger] settled(t, i)[m],
        least(settled(t, i), None) == 0,
{
    lemma_halves(t, k, i);
    let s = settled(t, i);
    assert forall|m: int| 0 <= m < t.len() implies 0 <= #[trigger] s[m] by {
        assert(in_part(m, Some((i, bit_at(m, i)))));
        assert(least(t, Some((i, bit_at(m, i)))) <= t[m]);
    }
    let h = least(t, Some((i, false)));
    let m = choose|m: int|
        0 <= m < t.len() && in_part(m, Some((i, false))) && #[trigger] t[m] == h;
    assert(s[m] == 0);
    assert(in_part(m, None));
    assert(is_least(s, None, s.len() as int, 0));
    lemma_least_unique(s, None, 0);
}

/// The least entry of a table is the smaller of those of its halves.
pub proof fn lemma_least_of_halves(t: Seq<int>, k: nat, i: nat)
    requires
        is_table(t, k),
        i < k,
    ensures
        least(t, None) <= least(t, Some((i, false))),
        least(t, None) <= least(t, Some((i, true))),
        least(t, None) == least(t, Some((i, false))) || least(t, None) == least(
            t,
            Some((i, true)),
        ),
{
    lemma_halves(t, k, i);
    let h = least(t, None);
    let m = choose|m: int| 0 <= m < t.len() && in_part(m, None) && #[trigger] t[m] == h;
    assert(in_part(m, Some((i, bit_at(m, i)))));
    let h0 = least(t, Some((i, false)));
    let h1 = least(t, Some((i, true)));
    let m0 = choose|m: int|
        0 <= m < t.len() && in_part(m, Some((i, false))) && #[trigger] t[m] == h0;
    let m1 = choose|m: int|
        0 <= m < t.len() && in_part(m, Some((i, true))) && #[trigger] t[m] == h1;
    assert(in_part(m0, None) && in_part(m1, None));
    assert(h <= t[m0] && h <= t[m1]);
}

/// The least entry of a nonempty table.
pub fn least_entry(table: &Vec<i128>) -> (r: i128)
    requires
        table@.len() > 0,
    ensures
        r == least(entries(table@), None),
{
    let ghost t = entries(table@);
    let mut h: i128 = table[0];
    let mut m: usize = 1;
    assert(in_part(0, None));
    assert(t[0] == h);
    while m < table.len()
        invariant
            1 <= m <= table@.len(),
            t == entries(table@),
            is_least(t, None, m as int, h as int),
        decreases table@.len() - m,
    {
        assert(t[m as int] == table@[m as int]);
        assert(in_part(m as int, None));
        if table[m] < h {
            h = table[m];
        }
        m += 1;
    }
    proof {
        lemma_least_unique(t, None, h as int);
    }
    h
}

/// The weight of bit `i`.
fn place_of(i: usize) -> (r: usize)
    requires
        i <= MAX_FACTOR_ARITY,
    ensures
        r == place(i as nat),
{
    let mut r: usize = 1;
    let mut j: usize = 0;
    while j < i
        invariant
            j <= i <= MAX_FACTOR_ARITY,
            r == place(j as nat),
        decreases i - j,
    {
        proof {
            lemma_place_max((j + 1) as nat);
        }
        r = 2 * r;
        j += 1;
    }
    r
}

/// Settle a table at bit `i`; the result is the least entries that were taken
/// away, first that of the low half.
pub fn settle(table: &mut Vec<i128>, k: usize, i: usize) -> (r: (i128, i128))
    requires
        i < k <= MAX_FACTOR_ARITY,
        is_table(entries(old(table)@), k as nat),
        forall|m: int|
            0 <= m < old(table)@.len() ==> -i64::MAX <= #[trigger] old(table)@[m] <= 2 * i64::MAX,
    ensures
        entries(final(table)@) == settled(entries(old(table)@), i as nat),
        r.0 == least(entries(old(table)@), Some((i as nat, false))),
        r.1 == least(entries(old(table)@), Some((i as nat, true))),
{
    let ghost t = entries(table@);
    let ghost t0 = table@;
    let size: usize = table.len();
    let stride: usize = place_of(i);
    proof {
        lemma_place_positive(i as nat);
        lemma_place_monotone(i as nat, k as nat);
        let p = stride as int;
        assert(0int / p == 0) by (nonlinear_arith)
            requires
                p >= 1,
        ;
        assert(p / p == 1) by (nonlinear_arith)
            requires
                p >= 1,
        ;
        assert(in_part(0, Some((i as nat, false))));
        assert(in_part(stride as int, Some((i as nat, true))));
    }
    let mut lo: i128 = table[0];
    let mut hi: i128 = table[stride];
    let mut m: usize = 0;
    assert(t[0] == lo && t[stride as int] == hi);
    while m < size
        invariant
            m <= size,
            size == table@.len(),
            0 < stride < size,
            stride == place(i as nat),
            t == entries(table@),
            in_part(0, Some((i as nat, false))),
            in_part(stride as int, Some((i as nat, true))),
            exists|w: int|
                0 <= w < size && in_part(w, Some((i as nat, false))) && #[trigger] t[w] == lo,
            exists|w: int|
                0 <= w < size && in_part(w, Some((i as nat, true))) && #[trigger] t[w] == hi,
            forall|w: int|
                0 <= w < m && in_part(w, Some((i as nat, false))) ==> lo <= #[trigger] t[w],
            forall|w: int|
                0 <= w < m && in_part(w, Some((i as nat, true))) ==> hi <= #[trigger] t[w],
        decreases size - m,
    {
        let v: i128 = table[m];
        assert(t[m as int] == v);
        if (m / stride) % 2 == 1 {
            assert(in_part(m as int, Some((i as nat, true))));
            if v < hi {
                hi = v;
            }
        } else {
            assert(in_part(m as int, Some((i as nat, false))));
            if v < lo {
                lo = v;
            }
        }
        m += 1;
    }
    proof {
        assert(is_least(t, Some((i as nat, false)), t.len() as int, lo as int));
        assert(is_least(t, Some((i as nat, true)), t.len() as int, hi as int));
        lemma_least_unique(t, Some((i as nat, false)), lo as int);
        lemma_least_unique(t, Some((i as nat, true)), hi as int);
        let w0 = choose|w: int|
            0 <= w < size && in_part(w, Some((i as nat, false))) && #[trigger] t[w] == lo;
        let w1 = choose|w: int|
            0 <= w < size && in_part(w, Some((i as nat, true))) && #[trigger] t[w] == hi;
        assert(t0[w0] == lo && t0[w1] == hi);
    }
    m = 0;
    while m < size
        invariant
            m <= size,
            size == table@.len(),
            size == t0.len(),
            stride == place(i as nat),
            stride > 0,
            t == entries(t0),
            -i64::MAX <= lo <= 2 * i64::MAX,
            -i64::MAX <= hi <= 2 * i64::MAX,
            lo == least(t, Some((i as nat, false))),
            hi == least(t, Some((i as nat, true))),
            forall|w: int| 0 <= w < size ==> -i64::MAX <= #[trigger] t0[w] <= 2 * i64::MAX,
            forall|w: int| m <= w < size ==> #[trigger] table@[w] == t0[w],
            forall|w: int| 0 <= w < m ==> #[trigger] table@[w] == settled(t, i as nat)[w],
        decreases size - m,
    {
        let v: i128 = table[m];
        assert(v == t0[m as int]);
        if (m / stride) % 2 == 1 {
            assert(bit_at(m as int, i as nat));
            table.set(m, v - hi);
        } else {
            assert(!bit_at(m as int, i as nat));
            table.set(m, v - lo);
        }
        m += 1;
    }
    assert(entries(table@) =~= settled(t, i as nat));
    (lo, hi)
}

} // verus!
