//! Coefficient arithmetic.

use vstd::prelude::*;

verus! {

/// The least value at or above `lb` on the grid `base + g * Z`; `lb` itself
/// when the grid is no coarser than the integers.
pub open spec fn grid_ceil(lb: int, base: int, g: int) -> int {
    if g <= 1 {
        lb
    } else {
        let d = (lb - base) % g;
        if d == 0 {
            lb
        } else {
            lb + (g - d)
        }
    }
}

/// The Euclidean remainder.
fn remainder(a: i128, g: i128) -> (r: i128)
    requires
        g > 0,
        a > i128::MIN,
    ensures
        r == a as int % (g as int),
{
    if a >= 0 {
        a % g
    } else {
        let k: i128 = -a;
        let m: i128 = k % g;
        proof {
            let q = k as int / g as int;
            vstd::arithmetic::div_mod::lemma_fundamental_div_mod(k as int, g as int);
            if m == 0 {
                assert(a == (-q) * g) by (nonlinear_arith)
                    requires
                        -a == g * q,
                ;
                vstd::arithmetic::div_mod::lemma_fundamental_div_mod_converse(
                    a as int,
                    g as int,
                    -q,
                    0,
                );
            } else {
                assert(a == (-q - 1) * g + (g - m)) by (nonlinear_arith)
                    requires
                        -a == g * q + m,
                ;
                vstd::arithmetic::div_mod::lemma_fundamental_div_mod_converse(
                    a as int,
                    g as int,
                    -q - 1,
                    g - m,
                );
            }
        }
        if m == 0 {
            0
        } else {
            g - m
        }
    }
}

/// Round a lower bound up to the objective grid, saturating at the largest
/// coefficient.
pub fn ceil_to_grid(lb: i64, base: i64, granularity: i64) -> (r: i64)
    ensures
        r == (if grid_ceil(lb as int, base as int, granularity as int) <= i64::MAX {
            grid_ceil(lb as int, base as int, granularity as int)
        } else {
            i64::MAX as int
        }),
{
    if granularity <= 1 {
        return lb;
    }
    let g: i128 = granularity as i128;
    let diff: i128 = lb as i128 - base as i128;
    let delta: i128 = remainder(diff, g);
    let rounded: i128 = if delta == 0 {
        lb as i128
    } else {
        lb as i128 + (g - delta)
    };
    if rounded > i64::MAX as i128 {
        i64::MAX
    } else {
        rounded as i64
    }
}

/// An exact integer as a coefficient, when it fits.
pub fn from_i128_checked(v: i128) -> (r: Option<i64>)
    ensures
        r == (if i64::MIN <= v <= i64::MAX {
            Some(v as i64)
        } else {
            None
        }),
{
    if i64::MIN as i128 <= v && v <= i64::MAX as i128 {
        Some(v as i64)
    } else {
        None
    }
}

/// The larger of two coefficients.
pub fn max_of(a: i64, b: i64) -> (r: i64)
    ensures
        r == (if a > b {
            a
        } else {
            b
        }),
{
    if a > b {
        a
    } else {
        b
    }
}

/// The rounded bound is on the grid, not below the bound, and below no grid
/// value that the bound is below.
pub proof fn rounding_is_sound(lb: int, base: int, g: int, v: int)
    ensures
        grid_ceil(lb, base, g) >= lb,
        g > 1 ==> (grid_ceil(lb, base, g) - base) % g == 0,
        g > 1 && (v - base) % g == 0 && v >= lb ==> v >= grid_ceil(lb, base, g),
{
    if g > 1 {
        let d = (lb - base) % g;
        let c = grid_ceil(lb, base, g);
        assert(0 <= d < g) by (nonlinear_arith)
            requires
                g > 1,
                d == (lb - base) % g,
        ;
        assert((c - base) % g == 0) by {
            let q = (lb - base) / g;
            vstd::arithmetic::div_mod::lemma_fundamental_div_mod(lb - base, g);
            assert(lb - base == g * q + d);
            if d != 0 {
                assert(c - base == g * q + g);
                assert(g * q + g == g * (q + 1)) by (nonlinear_arith);
                assert((g * (q + 1)) % g == 0) by (nonlinear_arith)
                    requires
                        g > 1,
                ;
            }
        }
        if (v - base) % g == 0 && v >= lb && v < c {
            // Two grid values less than one step apart are equal.
            let a = (c - base) / g;
            let b = (v - base) / g;
            vstd::arithmetic::div_mod::lemma_fundamental_div_mod(c - base, g);
            vstd::arithmetic::div_mod::lemma_fundamental_div_mod(v - base, g);
            assert(g * a - g * b == c - v);
            assert(g * a - g * b == g * (a - b)) by (nonlinear_arith);
            assert(0 < c - v < g);
            assert(false) by (nonlinear_arith)
                requires
                    0 < g * (a - b) < g,
                    g > 1,
            ;
        }
    }
}

/// A total bound with a slack of a billionth of its size plus one, rounded down.
pub open spec fn with_slack(total: int) -> int {
    let size = if total < 0 {
        -total
    } else {
        total
    };
    total - 1 - size / 1_000_000_000
}

/// A total bound with its slack, no lower than the least coefficient.
pub fn slack_bound(total: i64) -> (r: i64)
    ensures
        r == (if with_slack(total as int) < i64::MIN {
            i64::MIN as int
        } else {
            with_slack(total as int)
        }),
        r <= total,
{
    let t: i128 = total as i128;
    let size: i128 = if t < 0 {
        -t
    } else {
        t
    };
    let lb: i128 = t - 1 - size / 1_000_000_000;
    if lb < i64::MIN as i128 {
        i64::MIN
    } else {
        lb as i64
    }
}

} // verus!
