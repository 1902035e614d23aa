//! Coefficients written as text.

use vstd::prelude::*;
use vstd::string::StrSliceExecFns;

verus! {

/// The value of a decimal digit; none for another character.
pub open spec fn digit_value(c: char) -> Option<int> {
    if '0' <= c && c <= '9' {
        Some(c as int - '0' as int)
    } else {
        None
    }
}

/// From `i` on, the first place without a digit.
pub open spec fn run_end(s: Seq<char>, i: int) -> int
    decreases s.len() - i,
{
    if i < 0 || i >= s.len() {
        i
    } else if digit_value(s[i]) is Some {
        run_end(s, i + 1)
    } else {
        i
    }
}

/// The number that digits write.
pub open spec fn digits_value(d: Seq<char>) -> nat
    decreases d.len(),
{
    if d.len() == 0 {
        0
    } else {
        10 * digits_value(d.drop_last()) + (match digit_value(d.last()) {
            Some(v) => v as nat,
            None => 0,
        })
    }
}

/// The sign at place `i`.
pub open spec fn is_sign(s: Seq<char>, i: int) -> bool {
    0 <= i < s.len() && (s[i] == '+' || s[i] == '-')
}

/// A sign, digits, and the power of ten they are multiplied by.
pub struct Written {
    pub negative: bool,
    pub digits: Seq<char>,
    pub scale: int,
}

/// Ten to the power of `k`.
pub open spec fn ten_to(k: nat) -> nat
    decreases k,
{
    if k == 0 {
        1
    } else {
        10 * ten_to((k - 1) as nat)
    }
}

/// Where the digits before the point start.
pub open spec fn start_of(s: Seq<char>) -> int {
    if is_sign(s, 0) {
        1
    } else {
        0
    }
}

/// The mantissa has a point.
pub open spec fn has_point(s: Seq<char>) -> bool {
    let i = run_end(s, start_of(s));
    0 <= i < s.len() && s[i] == '.'
}

/// Where the mantissa ends.
pub open spec fn mantissa_end(s: Seq<char>) -> int {
    let i = run_end(s, start_of(s));
    if has_point(s) {
        run_end(s, i + 1)
    } else {
        i
    }
}

/// The digits of the mantissa.
pub open spec fn mantissa_digits(s: Seq<char>) -> Seq<char> {
    let i = run_end(s, start_of(s));
    s.subrange(start_of(s), i) + (if has_point(s) {
        s.subrange(i + 1, mantissa_end(s))
    } else {
        Seq::empty()
    })
}

/// The number of digits behind the point.
pub open spec fn fraction_len(s: Seq<char>) -> int {
    if has_point(s) {
        mantissa_end(s) - run_end(s, start_of(s)) - 1
    } else {
        0
    }
}

/// The exponent behind a mantissa that ends at `e`; none when what follows is
/// neither nothing nor an exponent.
pub open spec fn exponent_of(s: Seq<char>, e: int) -> Option<int> {
    if e == s.len() {
        Some(0)
    } else if s[e] == 'e' || s[e] == 'E' {
        let d = if is_sign(s, e + 1) {
            e + 2
        } else {
            e + 1
        };
        if d < s.len() && run_end(s, d) == s.len() {
            let v = digits_value(s.subrange(d, s.len() as int)) as int;
            Some(
                if is_sign(s, e + 1) && s[e + 1] == '-' {
                    -v
                } else {
                    v
                },
            )
        } else {
            None
        }
    } else {
        None
    }
}

/// The number that a text writes: an optional sign, digits with an optional
/// point among them, and an optional exponent.
pub open spec fn written(s: Seq<char>) -> Option<Written> {
    let e = mantissa_end(s);
    let digits = mantissa_digits(s);
    match exponent_of(s, e) {
        Some(x) => if digits.len() == 0 {
            None
        } else {
            Some(
                Written {
                    negative: is_sign(s, 0) && s[0] == '-',
                    digits,
                    scale: x - fraction_len(s),
                },
            )
        },
        None => None,
    }
}

/// The size of `v` is the digits' value times the power of ten.
pub open spec fn is_size(digits: Seq<char>, scale: int, v: int) -> bool {
    if scale >= 0 {
        v == digits_value(digits) * ten_to(scale as nat)
    } else {
        v * ten_to((-scale) as nat) == digits_value(digits)
    }
}

/// The text writes the whole number `v`.
pub open spec fn writes(s: Seq<char>, v: int) -> bool {
    match written(s) {
        Some(w) => is_size(
            w.digits,
            w.scale,
            if w.negative {
                -v
            } else {
                v
            },
        ),
        None => false,
    }
}

/// The text of the refusal of `s`.
pub open spec fn refusal(s: Seq<char>) -> Seq<char> {
    "cannot parse `"@ + s + "` as integer"@
}

proof fn lemma_run_end(s: Seq<char>, i: int)
    requires
        0 <= i <= s.len(),
    ensures
        i <= run_end(s, i) <= s.len(),
        forall|j: int| i <= j < run_end(s, i) ==> digit_value(#[trigger] s[j]) is Some,
        run_end(s, i) < s.len() ==> digit_value(s[run_end(s, i)]) is None,
    decreases s.len() - i,
{
    if i < s.len() && digit_value(s[i]) is Some {
        lemma_run_end(s, i + 1);
    }
}

/// The digit of a character.
fn digit_of(c: char) -> (r: Option<u32>)
    ensures
        match digit_value(c) {
            Some(v) => r == Some(v as u32) && 0 <= v <= 9,
            None => r is None,
        },
{
    if '0' <= c && c <= '9' {
        Some(c as u32 - '0' as u32)
    } else {
        None
    }
}

/// The place behind the digits from `i` on.
fn skip_digits(s: &Vec<char>, i: usize) -> (r: usize)
    requires
        i <= s@.len(),
    ensures
        r == run_end(s@, i as int),
        i <= r <= s@.len(),
{
    let mut r: usize = i;
    proof {
        lemma_run_end(s@, i as int);
    }
    while r < s.len() && digit_of(s[r]).is_some()
        invariant
            i <= r <= s@.len(),
            run_end(s@, r as int) == run_end(s@, i as int),
        decreases s@.len() - r,
    {
        r += 1;
    }
    r
}

/// The sizes of both ways to write a number with a last digit zero agree.
proof fn lemma_drop_zero(digits: Seq<char>, scale: int, v: int)
    requires
        digits.len() > 0,
        digit_value(digits.last()) == Some(0int),
    ensures
        is_size(digits, scale, v) == is_size(digits.drop_last(), scale + 1, v),
{
    let d = digits_value(digits.drop_last()) as int;
    assert(digits_value(digits) == 10 * d);
    if scale >= 0 {
        let t = ten_to(scale as nat) as int;
        assert(ten_to((scale + 1) as nat) == 10 * t);
        assert((10 * d) * t == d * (10 * t)) by (nonlinear_arith);
    } else {
        let t = ten_to((-scale - 1) as nat) as int;
        assert(ten_to((-scale) as nat) == 10 * t);
        assert(v * (10 * t) == 10 * (v * t)) by (nonlinear_arith);
        if scale == -1 {
            assert(t == 1);
            assert(ten_to(0) == 1);
            assert(v * 1 == v);
            assert(d * 1 == d);
        }
    }
}

proof fn lemma_ten_positive(k: nat)
    ensures
        ten_to(k) >= 1,
        k > 0 ==> ten_to(k) % 10 == 0,
    decreases k,
{
    if k > 0 {
        lemma_ten_positive((k - 1) as nat);
    }
}

/// Digits that end in another digit than zero and stand behind a point write no
/// whole number.
proof fn lemma_not_whole(digits: Seq<char>, scale: int, v: int)
    requires
        digits.len() > 0,
        digit_value(digits.last()) is Some,
        digit_value(digits.last()) != Some(0int),
        scale < 0,
    ensures
        !is_size(digits, scale, v),
{
    let t = ten_to((-scale - 1) as nat) as int;
    assert(ten_to((-scale) as nat) == 10 * t);
    assert(v * (10 * t) == 10 * (v * t)) by (nonlinear_arith);
    let d = digits_value(digits.drop_last()) as int;
    let l = digit_value(digits.last())->0;
    assert(digits_value(digits) == 10 * d + l);
    assert(1 <= l <= 9);
    assert((10 * (v * t)) % 10 == 0);
    assert((10 * d + l) % 10 == l);
}

proof fn lemma_value_prefix(d: Seq<char>, k: int)
    requires
        0 <= k <= d.len(),
        forall|j: int| 0 <= j < d.len() ==> digit_value(#[trigger] d[j]) is Some,
    ensures
        digits_value(d.take(k)) <= digits_value(d),
    decreases d.len(),
{
    if k == d.len() {
        assert(d.take(k) =~= d);
    } else {
        lemma_value_prefix(d.drop_last(), k);
        assert(d.drop_last().take(k) =~= d.take(k));
    }
}

/// The number written by digits, or `limit + 1` when it is larger than `limit`.
fn capped_value(d: &Vec<char>, limit: u128) -> (r: u128)
    requires
        limit <= 0x1_0000_0000_0000_0000_0000_0000_0000,
        forall|j: int| 0 <= j < d@.len() ==> digit_value(#[trigger] d@[j]) is Some,
    ensures
        digits_value(d@) <= limit ==> r == digits_value(d@),
        digits_value(d@) > limit ==> r == limit + 1,
{
    let mut r: u128 = 0;
    let mut k: usize = 0;
    assert(d@.take(0) =~= Seq::empty());
    while k < d.len()
        invariant
            k <= d@.len(),
            limit <= 0x1_0000_0000_0000_0000_0000_0000_0000,
            forall|j: int| 0 <= j < d@.len() ==> digit_value(#[trigger] d@[j]) is Some,
            r == digits_value(d@.take(k as int)),
            r <= limit,
        decreases d@.len() - k,
    {
        assert(d@.take(k + 1).drop_last() =~= d@.take(k as int));
        assert(digit_value(d@[k as int]) is Some);
        let v: u32 = match digit_of(d[k]) {
            Some(v) => v,
            None => 0,
        };
        r = 10 * r + v as u128;
        k += 1;
        if r > limit {
            proof {
                lemma_value_prefix(d@, k as int);
            }
            return limit + 1;
        }
    }
    assert(d@.take(k as int) =~= d@);
    r
}

/// Nine hundred quintillion and more do not fit a coefficient.
pub const SIZE_LIMIT: u128 = 9223372036854775808;

/// The size written by nonempty digits and a power of ten, when it is a whole
/// number of at most the limit.
fn whole_size(given: Vec<char>, power: i128) -> (r: Option<u128>)
    requires
        forall|j: int| 0 <= j < given@.len() ==> digit_value(#[trigger] given@[j]) is Some,
        -0x1000_0000_0000_0000_0000_0000_0000 <= power
            <= 0x1000_0000_0000_0000_0000_0000_0000,
    ensures
        r matches Some(v) ==> v <= SIZE_LIMIT && is_size(given@, power as int, v as int),
        r is None ==> forall|v: int| 0 <= v <= SIZE_LIMIT ==> !#[trigger] is_size(
            given@,
            power as int,
            v,
        ),
{
    let ghost d0 = given@;
    let ghost s0 = power as int;
    let mut digits = given;
    let mut scale: i128 = power;
    let len: usize = digits.len();
    let mut trailing: bool = digits.len() > 0 && digits[digits.len() - 1] == '0';
    while trailing
        invariant
            digits@.len() <= len,
            forall|j: int| 0 <= j < digits@.len() ==> digit_value(#[trigger] digits@[j]) is Some,
            s0 <= scale,
            scale + digits@.len() == s0 + len,
            -0x1000_0000_0000_0000_0000_0000_0000 <= s0
                <= 0x1000_0000_0000_0000_0000_0000_0000,
            trailing == (digits@.len() > 0 && digits@[digits@.len() - 1] == '0'),
            forall|v: int|
                #[trigger] is_size(d0, s0, v) == is_size(digits@, scale as int, v),
        decreases digits@.len(),
    {
        let ghost before = digits@;
        let ghost scale_before = scale as int;
        let _ = digits.pop();
        scale = scale + 1;
        proof {
            assert(digits@ =~= before.drop_last());
            assert forall|v: int| #[trigger] is_size(d0, s0, v) == is_size(
                digits@,
                scale as int,
                v,
            ) by {
                lemma_drop_zero(before, scale_before, v);
                assert(is_size(d0, s0, v) == is_size(before, scale_before, v));
            }
        }
        trailing = digits.len() > 0 && digits[digits.len() - 1] == '0';
    }
    if digits.len() == 0 {
        proof {
            if scale >= 0 {
                assert(0 * ten_to(scale as nat) == 0);
            } else {
                assert(0 * ten_to((-scale) as nat) == 0);
            }
            assert(is_size(digits@, scale as int, 0));
            assert(is_size(d0, s0, 0));
        }
        return Some(0);
    }
    if scale < 0 {
        proof {
            assert forall|v: int| 0 <= v <= SIZE_LIMIT implies !#[trigger] is_size(d0, s0, v) by {
                assert(digit_value(digits@[digits@.len() - 1]) is Some);
                lemma_not_whole(digits@, scale as int, v);
                assert(is_size(d0, s0, v) == is_size(digits@, scale as int, v));
            }
        }
        return None;
    }
    let ghost d = digits@;
    let ghost sc = scale as nat;
    let ghost value = digits_value(d) as int;
    let mut v: u128 = capped_value(&digits, SIZE_LIMIT);
    proof {
        lemma_ten_positive(sc);
        let l = digit_value(d.last())->0;
        assert(digit_value(d[d.len() - 1]) is Some);
        assert(value >= 1);
    }
    if v > SIZE_LIMIT {
        proof {
            let t = ten_to(sc) as int;
            assert(value * t >= value) by (nonlinear_arith)
                requires
                    t >= 1,
                    value >= 1,
            ;
            assert forall|w: int| 0 <= w <= SIZE_LIMIT implies !#[trigger] is_size(d0, s0, w) by {
                assert(is_size(d0, s0, w) == is_size(d, scale as int, w));
            }
        }
        return None;
    }
    let mut k: i128 = 0;
    proof {
        assert(value * ten_to(0) == value) by {
            assert(ten_to(0) == 1);
        }
    }
    while k < scale
        invariant
            0 <= k <= scale,
            d0 == given@,
            s0 == power,
            sc == scale,
            value >= 1,
            1 <= v <= SIZE_LIMIT,
            v == value * ten_to(k as nat),
            d == digits@,
            value == digits_value(d),
            forall|w: int|
                #[trigger] is_size(d0, s0, w) == is_size(d, scale as int, w),
        decreases scale - k,
    {
        proof {
            let t = ten_to(k as nat) as int;
            assert(ten_to((k + 1) as nat) == 10 * t);
            assert(value * (10 * t) == 10 * (value * t)) by (nonlinear_arith);
        }
        v = 10 * v;
        k += 1;
        if v > SIZE_LIMIT {
            proof {
                lemma_ten_monotone(k as nat, sc);
                let t = ten_to(k as nat) as int;
                let u = ten_to(sc) as int;
                assert(value * u >= value * t) by (nonlinear_arith)
                    requires
                        u >= t,
                        value >= 1,
                ;
                assert forall|w: int| 0 <= w <= SIZE_LIMIT implies !#[trigger] is_size(
                    d0,
                    s0,
                    w,
                ) by {
                    assert(is_size(d0, s0, w) == is_size(d, scale as int, w));
                }
            }
            return None;
        }
    }
    proof {
        assert(is_size(d, scale as int, v as int));
        assert(is_size(d0, s0, v as int));
    }
    Some(v)
}

proof fn lemma_ten_monotone(i: nat, j: nat)
    requires
        i <= j,
    ensures
        ten_to(i) <= ten_to(j),
    decreases j,
{
    lemma_ten_positive(i);
    if i < j {
        lemma_ten_monotone(i, (j - 1) as nat);
    }
}

/// The exponent is at most this.
pub const EXPONENT_LIMIT: u128 = 1000000000000000000000000000000;

/// The characters from `a` to `b`.
fn part(s: &Vec<char>, a: usize, b: usize) -> (r: Vec<char>)
    requires
        a <= b <= s@.len(),
    ensures
        r@ == s@.subrange(a as int, b as int),
{
    let mut r: Vec<char> = Vec::new();
    let mut i: usize = a;
    while i < b
        invariant
            a <= i <= b <= s@.len(),
            r@ == s@.subrange(a as int, i as int),
        decreases b - i,
    {
        r.push(s[i]);
        i += 1;
        assert(r@ =~= s@.subrange(a as int, i as int));
    }
    r
}

/// The characters of a text.
fn chars_of(s: &str) -> (r: Vec<char>)
    ensures
        r@ == s@,
{
    let n: usize = s.unicode_len();
    let mut r: Vec<char> = Vec::new();
    let mut i: usize = 0;
    while i < n
        invariant
            i <= n,
            n == s@.len(),
            r@ == s@.take(i as int),
        decreases n - i,
    {
        r.push(s.get_char(i));
        i += 1;
        assert(r@ =~= s@.take(i as int));
    }
    assert(r@ =~= s@);
    r
}

/// An exponent beyond the limit decides like the limit.
proof fn lemma_large_exponent(digits: Seq<char>, frac: int, x: int, y: int, v: int)
    requires
        0 <= frac <= usize::MAX,
        0 <= v <= SIZE_LIMIT,
        digits.len() <= usize::MAX,
        forall|j: int| 0 <= j < digits.len() ==> digit_value(#[trigger] digits[j]) is Some,
        (x > EXPONENT_LIMIT && y == EXPONENT_LIMIT + 1) || (x < -EXPONENT_LIMIT && y
            == -EXPONENT_LIMIT - 1),
    ensures
        is_size(digits, x - frac, v) == is_size(digits, y - frac, v),
{
    lemma_value_size(digits);
    let d = digits_value(digits) as int;
    if x > 0 {
        let p = (x - frac) as nat;
        let q = (y - frac) as nat;
        lemma_ten_large(p);
        lemma_ten_large(q);
        let tp = ten_to(p) as int;
        let tq = ten_to(q) as int;
        if d == 0 {
            assert(0 * tp == 0 && 0 * tq == 0) by (nonlinear_arith);
        } else {
            assert(d * tp >= tp && d * tq >= tq) by (nonlinear_arith)
                requires
                    d >= 1,
                    tp >= 0,
                    tq >= 0,
            ;
        }
    } else {
        let p = (frac - x) as nat;
        let q = (frac - y) as nat;
        let n = digits.len();
        lemma_ten_monotone(n, p);
        lemma_ten_monotone(n, q);
        let tp = ten_to(p) as int;
        let tq = ten_to(q) as int;
        if v == 0 {
            assert(0 * tp == 0 && 0 * tq == 0) by (nonlinear_arith);
        } else {
            assert(v * tp >= tp && v * tq >= tq) by (nonlinear_arith)
                requires
                    v >= 1,
                    tp >= 0,
                    tq >= 0,
            ;
        }
    }
}

proof fn lemma_value_size(d: Seq<char>)
    requires
        forall|j: int| 0 <= j < d.len() ==> digit_value(#[trigger] d[j]) is Some,
    ensures
        digits_value(d) < ten_to(d.len()),
    decreases d.len(),
{
    if d.len() > 0 {
        lemma_value_size(d.drop_last());
        assert(digit_value(d[d.len() - 1]) is Some);
    }
}

proof fn lemma_ten_large(k: nat)
    requires
        k >= 20,
    ensures
        ten_to(k) > SIZE_LIMIT,
{
    lemma_ten_monotone(20, k);
    reveal_with_fuel(ten_to, 21);
    assert(ten_to(20) == 100000000000000000000);
}

/// Read an integer coefficient: a plain integer, or a number in point or exponent
/// notation that is whole.
pub fn parse_str(s: &str) -> (r: Result<i64, String>)
    ensures
        r matches Ok(v) ==> writes(s@, v as int),
        r matches Err(e) ==> e@ == refusal(s@) && forall|v: int|
            i64::MIN <= v <= i64::MAX ==> !#[trigger] writes(s@, v),
{
    match parse_chars(&chars_of(s)) {
        Some(v) => Ok(v),
        None => {
            let mut e = String::new();
            e.push_str("cannot parse `");
            e.push_str(s);
            e.push_str("` as integer");
            assert(e@ =~= refusal(s@));
            Err(e)
        },
    }
}

/// The parts of a number: the sign, the digits and the power of ten, which stands
/// at a limit where it would go beyond it.
struct Parts {
    negative: bool,
    digits: Vec<char>,
    power: i128,
}

/// The parts say what the text writes.
spec fn is_parts(s: Seq<char>, p: Parts) -> bool {
    &&& written(s) matches Some(w)
    &&& w.negative == p.negative
    &&& w.digits == p.digits@
    &&& forall|j: int|
        0 <= j < p.digits@.len() ==> digit_value(#[trigger] p.digits@[j]) is Some
    &&& forall|v: int|
        0 <= v <= SIZE_LIMIT ==> #[trigger] is_size(w.digits, w.scale, v) == is_size(
            w.digits,
            p.power as int,
            v,
        )
    &&& -0x1000_0000_0000_0000_0000_0000_0000 <= p.power
        <= 0x1000_0000_0000_0000_0000_0000_0000
}

/// The exponent behind the mantissa, at most one beyond the limit; none when the
/// text does not end with it.
fn read_exponent(s: &Vec<char>, end: usize) -> (r: Option<i128>)
    requires
        end <= s@.len(),
    ensures
        match exponent_of(s@, end as int) {
            None => r is None,
            Some(x) => r matches Some(y) && (if x > EXPONENT_LIMIT {
                y == EXPONENT_LIMIT + 1
            } else if x < -EXPONENT_LIMIT {
                y == -EXPONENT_LIMIT - 1
            } else {
                y == x
            }),
        },
{
    let n: usize = s.len();
    if end == n {
        return Some(0);
    }
    if s[end] != 'e' && s[end] != 'E' {
        return None;
    }
    let signed: bool = end + 1 < n && (s[end + 1] == '+' || s[end + 1] == '-');
    let negative: bool = signed && s[end + 1] == '-';
    let d: usize = if signed {
        end + 2
    } else {
        end + 1
    };
    if d >= n || skip_digits(s, d) != n {
        return None;
    }
    let digits = part(s, d, n);
    proof {
        lemma_run_end(s@, d as int);
        assert forall|j: int| 0 <= j < digits@.len() implies digit_value(
            #[trigger] digits@[j],
        ) is Some by {
            assert(digits@[j] == s@[d + j]);
        }
    }
    let size: i128 = capped_value(&digits, EXPONENT_LIMIT) as i128;
    Some(
        if negative {
            -size
        } else {
            size
        },
    )
}

/// The digits of the mantissa, where it ends, and how many digits stand behind
/// the point.
fn read_mantissa(s: &Vec<char>) -> (r: (Vec<char>, usize, usize))
    ensures
        r.0@ == mantissa_digits(s@),
        r.1 == mantissa_end(s@),
        r.1 <= s@.len(),
        r.2 == fraction_len(s@),
        forall|j: int| 0 <= j < r.0@.len() ==> digit_value(#[trigger] r.0@[j]) is Some,
{
    let n: usize = s.len();
    let signed: bool = n > 0 && (s[0] == '+' || s[0] == '-');
    let start: usize = if signed {
        1
    } else {
        0
    };
    assert(start == start_of(s@));
    let i: usize = skip_digits(s, start);
    let point: bool = i < n && s[i] == '.';
    let end: usize = if point {
        skip_digits(s, i + 1)
    } else {
        i
    };
    let mut digits = part(s, start, i);
    let frac: usize = if point {
        end - i - 1
    } else {
        0
    };
    if point {
        let mut more = part(s, i + 1, end);
        digits.append(&mut more);
    }
    proof {
        assert(digits@ =~= mantissa_digits(s@));
        lemma_run_end(s@, start as int);
        if point {
            lemma_run_end(s@, i + 1);
        }
        assert forall|j: int| 0 <= j < digits@.len() implies digit_value(
            #[trigger] digits@[j],
        ) is Some by {
            if j < i - start {
                assert(digits@[j] == s@[start + j]);
            } else {
                assert(digits@[j] == s@[i + 1 + (j - (i - start))]);
            }
        }
    }
    (digits, end, frac)
}

/// The parts of the number that a text writes.
fn read_parts(s: &Vec<char>) -> (r: Option<Parts>)
    ensures
        r matches Some(p) ==> is_parts(s@, p),
        r is None ==> written(s@) is None,
{
    let (digits, end, frac) = read_mantissa(s);
    if digits.len() == 0 {
        return None;
    }
    let negative: bool = s.len() > 0 && s[0] == '-';
    let len: usize = digits.len();
    match read_exponent(s, end) {
        None => None,
        Some(exponent) => {
            let power: i128 = exponent - frac as i128;
            let p = Parts { negative, digits, power };
            proof {
                let x = exponent_of(s@, end as int)->0;
                let d = p.digits@;
                assert forall|v: int| 0 <= v <= SIZE_LIMIT implies #[trigger] is_size(
                    d,
                    x - frac,
                    v,
                ) == is_size(d, power as int, v) by {
                    if x != exponent {
                        lemma_large_exponent(d, frac as int, x, exponent as int, v);
                    }
                }
            }
            Some(p)
        },
    }
}

/// Read an integer coefficient.
fn parse_chars(s: &Vec<char>) -> (r: Option<i64>)
    ensures
        r matches Some(v) ==> writes(s@, v as int),
        r is None ==> forall|v: int| i64::MIN <= v <= i64::MAX ==> !#[trigger] writes(s@, v),
{
    let p = match read_parts(s) {
        Some(p) => p,
        None => {
            return None;
        },
    };
    let ghost w = written(s@)->0;
    let negative: bool = p.negative;
    match whole_size(p.digits, p.power) {
        None => {
            proof {
                assert forall|v: int| i64::MIN <= v <= i64::MAX implies !#[trigger] writes(
                    s@,
                    v,
                ) by {
                    let z = if negative {
                        -v
                    } else {
                        v
                    };
                    if z >= 0 {
                        assert(is_size(w.digits, w.scale, z) == is_size(
                            w.digits,
                            p.power as int,
                            z,
                        ));
                    } else {
                        lemma_negative_size(w.digits, w.scale, z);
                    }
                }
            }
            None
        },
        Some(size) => {
            proof {
                assert(is_size(w.digits, w.scale, size as int) == is_size(
                    w.digits,
                    p.power as int,
                    size as int,
                ));
            }
            if negative {
                if size == SIZE_LIMIT {
                    Some(i64::MIN)
                } else {
                    Some(-(size as i64))
                }
            } else if size == SIZE_LIMIT {
                proof {
                    assert forall|v: int| i64::MIN <= v <= i64::MAX implies !#[trigger] writes(
                        s@,
                        v,
                    ) by {
                        if is_size(w.digits, w.scale, v) {
                            lemma_size_unique(w.digits, w.scale, v, size as int);
                        }
                    }
                }
                None
            } else {
                Some(size as i64)
            }
        },
    }
}

proof fn lemma_negative_size(d: Seq<char>, scale: int, v: int)
    requires
        v < 0,
    ensures
        !is_size(d, scale, v),
{
    if scale >= 0 {
        let t = ten_to(scale as nat) as int;
        let x = digits_value(d) as int;
        assert(x * t >= 0) by (nonlinear_arith)
            requires
                x >= 0,
                t >= 0,
        ;
    } else {
        let t = ten_to((-scale) as nat) as int;
        lemma_ten_positive((-scale) as nat);
        assert(v * t < 0) by (nonlinear_arith)
            requires
                v < 0,
                t >= 1,
        ;
    }
}

proof fn lemma_size_unique(d: Seq<char>, scale: int, v: int, w: int)
    requires
        is_size(d, scale, v),
        is_size(d, scale, w),
    ensures
        v == w,
{
    if scale < 0 {
        let t = ten_to((-scale) as nat) as int;
        lemma_ten_positive((-scale) as nat);
        assert(v == w) by (nonlinear_arith)
            requires
                v * t == w * t,
                t >= 1,
        ;
    }
}

} // verus!
