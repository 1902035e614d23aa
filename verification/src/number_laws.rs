//! Numbers are read back as they are written.

use crate::number;
use crate::text;
use vstd::prelude::*;

verus! {

proof fn lemma_decimal(n: nat)
    ensures
        text::decimal(n).len() > 0,
        forall|i: int|
            0 <= i < text::decimal(n).len() ==> number::digit_value(#[trigger] text::decimal(n)[i])
                is Some,
        number::digits_value(text::decimal(n)) == n,
    decreases n,
{
    let d = text::decimal(n);
    if n < 10 {
        lemma_digit(n as int);
        assert(d.drop_last() =~= Seq::empty());
        reveal_with_fuel(number::digits_value, 2);
    } else {
        lemma_decimal(n / 10);
        lemma_digit((n % 10) as int);
        assert(d.drop_last() =~= text::decimal(n / 10));
    }
}

proof fn lemma_digit(d: int)
    requires
        0 <= d < 10,
    ensures
        number::digit_value(text::digit_char(d)) == Some(d),
{
}

/// From a place on the text has digits up to `e`, and none there.
proof fn lemma_run(s: Seq<char>, i: int, e: int)
    requires
        0 <= i <= e <= s.len(),
        forall|j: int| i <= j < e ==> number::digit_value(#[trigger] s[j]) is Some,
        e < s.len() ==> number::digit_value(s[e]) is None,
    ensures
        number::run_end(s, i) == e,
    decreases e - i,
{
    if i < e {
        assert(number::digit_value(s[i]) is Some);
        lemma_run(s, i + 1, e);
    }
}

proof fn lemma_not_digits()
    ensures
        number::digit_value('.') is None,
        number::digit_value('e') is None,
        number::digit_value('+') is None,
        number::digit_value('-') is None,
{
}

/// The start of a text with an optional minus sign and digits.
proof fn lemma_head(v: int, tail: Seq<char>)
    requires
        tail.len() > 0 ==> number::digit_value(tail[0]) is None,
    ensures
        ({
            let s = text::decimal_int(v) + tail;
            let d = text::decimal(
                if v < 0 {
                    (-v) as nat
                } else {
                    v as nat
                },
            );
            let i = number::start_of(s);
            &&& i == (if v < 0 {
                1int
            } else {
                0
            })
            &&& number::run_end(s, i) == i + d.len()
            &&& s.subrange(i, i + d.len()) == d
            &&& (number::is_sign(s, 0) && s[0] == '-') == (v < 0)
            &&& text::decimal_int(v).len() == i + d.len()
            &&& d.len() > 0
            &&& number::digits_value(d) == (if v < 0 {
                -v
            } else {
                v
            })
        }),
{
    let n: nat = if v < 0 {
        (-v) as nat
    } else {
        v as nat
    };
    let d = text::decimal(n);
    let s = text::decimal_int(v) + tail;
    lemma_decimal(n);
    lemma_not_digits();
    let i: int = if v < 0 {
        1
    } else {
        0
    };
    assert(text::decimal_int(v).len() == i + d.len());
    assert forall|j: int| i <= j < i + d.len() implies number::digit_value(#[trigger] s[j]) is Some by {
        assert(s[j] == d[j - i]);
    }
    if v >= 0 {
        assert(s[0] == d[0]);
        assert(number::digit_value(d[0]) is Some);
    }
    if i + d.len() < s.len() {
        assert(s[i + d.len()] == tail[0]);
    }
    lemma_run(s, i, i + d.len() as int);
    assert(s.subrange(i, i + d.len()) =~= d);
}

/// A whole number in decimal is read as itself.
pub proof fn decimal_is_read_back(v: int)
    ensures
        number::writes(text::decimal_int(v), v),
{
    let s = text::decimal_int(v) + Seq::<char>::empty();
    assert(s =~= text::decimal_int(v));
    lemma_head(v, Seq::empty());
    let i = number::start_of(s);
    let e = number::run_end(s, i);
    assert(e == s.len());
    assert(!number::has_point(s));
    assert(number::mantissa_digits(s) =~= s.subrange(i, e));
    reveal_with_fuel(number::ten_to, 1);
    let d = number::mantissa_digits(s);
    assert(number::digits_value(d) * 1 == number::digits_value(d));
}

/// An exponent multiplies by a power of ten.
pub proof fn exponents_multiply(v: int, k: nat)
    ensures
        number::writes(
            text::decimal_int(v) + (seq!['e'] + text::decimal(k)),
            v * number::ten_to(k),
        ),
{
    let tail = seq!['e'] + text::decimal(k);
    let s = text::decimal_int(v) + tail;
    lemma_not_digits();
    assert(tail[0] == 'e');
    lemma_head(v, tail);
    lemma_decimal(k);
    let i = number::start_of(s);
    let e = number::run_end(s, i);
    let x = text::decimal(k);
    assert(s[e] == tail[0]);
    assert(!number::has_point(s));
    assert(number::mantissa_digits(s) =~= s.subrange(i, e));
    assert(s[e + 1] == x[0]);
    assert(number::digit_value(x[0]) is Some);
    assert(!number::is_sign(s, e + 1));
    assert forall|j: int| e + 1 <= j < s.len() implies number::digit_value(#[trigger] s[j]) is Some by {
        assert(s[j] == x[j - e - 1]);
    }
    lemma_run(s, e + 1, s.len() as int);
    assert(s.subrange(e + 1, s.len() as int) =~= x);
    assert(number::exponent_of(s, e) == Some(k as int));
    let p = number::ten_to(k) as int;
    let w = number::digits_value(number::mantissa_digits(s)) as int;
    if v < 0 {
        assert(-(v * p) == (-v) * p) by (nonlinear_arith);
    }
}

/// A run of zeros.
pub open spec fn zeros(k: nat) -> Seq<char> {
    Seq::new(k, |i: int| '0')
}

proof fn lemma_zeros(d: Seq<char>, k: nat)
    ensures
        number::digits_value(d + zeros(k)) == number::digits_value(d) * number::ten_to(k),
    decreases k,
{
    if k == 0 {
        assert(d + zeros(0) =~= d);
        assert(number::digits_value(d) * 1 == number::digits_value(d));
    } else {
        lemma_zeros(d, (k - 1) as nat);
        assert((d + zeros(k)).drop_last() =~= d + zeros((k - 1) as nat));
        assert((d + zeros(k)).last() == '0');
        let a = number::digits_value(d);
        let p = number::ten_to((k - 1) as nat);
        assert(10 * (a * p) == a * (10 * p)) by (nonlinear_arith);
    }
}

/// Zeros behind the point change nothing.
pub proof fn zero_fractions_are_dropped(v: int, k: nat)
    ensures
        number::writes(text::decimal_int(v) + (seq!['.'] + zeros(k)), v),
{
    let tail = seq!['.'] + zeros(k);
    let s = text::decimal_int(v) + tail;
    lemma_not_digits();
    assert(tail[0] == '.');
    lemma_head(v, tail);
    let i = number::start_of(s);
    let e = number::run_end(s, i);
    assert(s[e] == tail[0]);
    assert(number::has_point(s));
    assert forall|j: int| e + 1 <= j < s.len() implies number::digit_value(#[trigger] s[j]) is Some by {
        assert(s[j] == tail[j - e]);
        assert(s[j] == '0');
    }
    lemma_run(s, e + 1, s.len() as int);
    let d = s.subrange(i, e);
    assert(s.subrange(e + 1, s.len() as int) =~= zeros(k));
    assert(number::mantissa_digits(s) =~= d + zeros(k));
    lemma_zeros(d, k);
    assert(number::fraction_len(s) == k);
    assert(number::exponent_of(s, s.len() as int) == Some(0int));
    let p = number::ten_to(k) as int;
    if k == 0 {
        assert(number::digits_value(d) * 1 == number::digits_value(d));
        assert(number::digits_value(d + zeros(k)) * 1 == number::digits_value(d + zeros(k)));
    }
}

proof fn lemma_ten_positive(k: nat)
    ensures
        number::ten_to(k) >= 1,
    decreases k,
{
    if k > 0 {
        lemma_ten_positive((k - 1) as nat);
    }
}

/// A text writes one number at most.
pub proof fn a_text_writes_one_number(s: Seq<char>, v: int, w: int)
    requires
        number::writes(s, v),
        number::writes(s, w),
    ensures
        v == w,
{
    let t = number::written(s)->0;
    if t.scale < 0 {
        let p = number::ten_to((-t.scale) as nat) as int;
        lemma_ten_positive((-t.scale) as nat);
        let a = if t.negative { -v } else { v };
        let b = if t.negative { -w } else { w };
        assert(a == b) by (nonlinear_arith)
            requires
                a * p == b * p,
                p >= 1,
        ;
    }
}

} // verus!
