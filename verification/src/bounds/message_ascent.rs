//! Ascent on the messages of a quadratic form.

use crate::active;
use crate::bounds::ascent;
use crate::bounds::cheap;
use crate::bounds::lagrangian;
use crate::bounds::trwbp::{Message, Received};
use crate::bounds::trwbp;
use crate::coeff;
use crate::domain::{VarDomain, VarType};
use crate::fixes;
use crate::instance::HuboInstance;
use crate::node::Node;
use crate::node;
use crate::quadratic::{PairCoeff, ReducedQuadratic};
use crate::quadratic;
use crate::restriction;
use crate::term;
use vstd::prelude::*;

verus! {

/// The bound by messages.
#[derive(Clone, Copy, Debug)]
pub struct Trwbp {
    pub max_iter: usize,
    /// How much of a message stays at an update, in millionths.
    pub damping: i64,
}

impl Default for Trwbp {
    fn default() -> (r: Self)
        ensures
            r == (Trwbp { max_iter: 8, damping: 500000 }),
    {
        Trwbp { max_iter: 8, damping: 500000 }
    }
}

/// How many units make one.
pub const UNIT: i64 = 1000000;

/// The share of the low state among the least of two, in twelfths.
pub open spec fn low_share(low: int, high: int) -> int {
    if low == high {
        6
    } else if low < high {
        12
    } else {
        0
    }
}

/// One where the states of a pair have its least cost.
pub open spec fn least_here(p: PairCoeff, vt: VarType, m: Message, a: bool, b: bool) -> int {
    if trwbp::pair_cost(vt, UNIT as int, p, m, a, b) == trwbp::pair_least(vt, UNIT as int, p, m) {
        1
    } else {
        0
    }
}

/// How many states of a pair have its least cost.
pub open spec fn least_count(p: PairCoeff, vt: VarType, m: Message) -> int {
    least_here(p, vt, m, false, false) + least_here(p, vt, m, false, true) + least_here(
        p,
        vt,
        m,
        true,
        false,
    ) + least_here(p, vt, m, true, true)
}

/// The share of the low state of the first variable among the least states of a
/// pair, in twelfths.
pub open spec fn low_a_share(p: PairCoeff, vt: VarType, m: Message) -> int {
    12 * (least_here(p, vt, m, false, false) + least_here(p, vt, m, false, true)) / least_count(
        p,
        vt,
        m,
    )
}

/// The share of the low state of the second variable among the least states of a
/// pair, in twelfths.
pub open spec fn low_b_share(p: PairCoeff, vt: VarType, m: Message) -> int {
    12 * (least_here(p, vt, m, false, false) + least_here(p, vt, m, true, false)) / least_count(
        p,
        vt,
        m,
    )
}

/// The share of the low state of a variable after the messages, in twelfths.
pub open spec fn var_share(q: &ReducedQuadratic, msgs: Seq<Message>, v: int) -> int {
    low_share(
        trwbp::state_cost(q, UNIT as int, msgs, v, false),
        trwbp::state_cost(q, UNIT as int, msgs, v, true),
    )
}

/// A message moves towards the share of its pair and away from that of its
/// variable. What a message adds to one state it takes from the other.
pub open spec fn is_sent(
    q: &ReducedQuadratic,
    msgs: Seq<Message>,
    rate: int,
    i: int,
    next: Message,
) -> bool {
    let p = q.quad@[i];
    &&& next.to_a_low == msgs[i].to_a_low + rate * (low_a_share(p, q.var_type, msgs[i]) - var_share(
        q,
        msgs,
        p.a as int,
    ))
    &&& next.to_a_high == -next.to_a_low
    &&& next.to_b_low == msgs[i].to_b_low + rate * (low_b_share(p, q.var_type, msgs[i]) - var_share(
        q,
        msgs,
        p.b as int,
    ))
    &&& next.to_b_high == -next.to_b_low
}

/// The messages after a sweep.
pub open spec fn are_sent(
    q: &ReducedQuadratic,
    msgs: Seq<Message>,
    rate: int,
    next: Seq<Message>,
) -> bool {
    &&& next.len() == msgs.len()
    &&& forall|i: int| 0 <= i < msgs.len() ==> is_sent(q, msgs, rate, i, #[trigger] next[i])
}

/// `r` is the square root of `x`, rounded down.
pub open spec fn is_root(x: int, r: int) -> bool {
    0 <= r && r * r <= x < (r + 1) * (r + 1)
}

/// The square root of `x`, rounded down.
pub open spec fn root_of(x: int) -> int {
    choose|r: int| is_root(x, r)
}

/// The length of step `k`, in units: the scale over the square root of the number
/// of steps.
pub open spec fn step_at(scale: int, k: int) -> int {
    scale * 1000 / root_of((k + 1) * 1000000)
}

/// What part of the step is not damped.
pub open spec fn undamped(cfg: Trwbp) -> int {
    if cfg.damping < 0 {
        UNIT as int
    } else if cfg.damping > UNIT {
        0
    } else {
        UNIT - cfg.damping
    }
}

/// The step for one twelfth.
pub open spec fn rate_at(cfg: Trwbp, scale: int, k: int) -> int {
    undamped(cfg) * step_at(scale, k) / (12 * UNIT as int)
}

/// The scale after a sweep: a little more after one that improved the bound, less
/// after one that did not.
pub open spec fn next_scale(scale: int, improved: bool) -> int {
    if improved {
        if scale * 105 / 100 > UNIT {
            UNIT as int
        } else {
            scale * 105 / 100
        }
    } else if scale * 7 / 10 < 100 {
        100
    } else {
        scale * 7 / 10
    }
}

/// The best bound of the first `k` messages.
pub open spec fn best_of(q: &ReducedQuadratic, trace: Seq<Vec<Message>>, k: nat) -> int
    decreases k,
{
    if k <= 1 {
        trwbp::message_bound(q, UNIT as int, trace[0]@)
    } else {
        let before = best_of(q, trace, (k - 1) as nat);
        let b = trwbp::message_bound(q, UNIT as int, trace[k - 1]@);
        if b > before {
            b
        } else {
            before
        }
    }
}

/// All messages are zero.
pub open spec fn is_silent(m: Message) -> bool {
    m == (Message { to_a_low: 0, to_a_high: 0, to_b_low: 0, to_b_high: 0 })
}

/// The messages of the sweeps with the scales of their steps.
pub open spec fn is_message_path(
    q: &ReducedQuadratic,
    cfg: Trwbp,
    trace: Seq<Vec<Message>>,
    scales: Seq<int>,
) -> bool {
    &&& trace.len() > 0
    &&& scales.len() == trace.len()
    &&& trace[0]@.len() == q.quad@.len()
    &&& forall|i: int| 0 <= i < q.quad@.len() ==> is_silent(#[trigger] trace[0]@[i])
    &&& scales[0] == UNIT / 4
    &&& forall|k: int|
        0 <= k < trace.len() - 1 ==> is_next_sweep(q, cfg, trace, #[trigger] scales[k], k)
            && scales[k + 1] == next_scale(
            scales[k],
            trwbp::message_bound(q, UNIT as int, trace[k + 1]@) > best_of(
                q,
                trace,
                (k + 1) as nat,
            ),
        )
}

/// Sweep `k` leads to the next messages.
pub open spec fn is_next_sweep(
    q: &ReducedQuadratic,
    cfg: Trwbp,
    trace: Seq<Vec<Message>>,
    scale: int,
    k: int,
) -> bool {
    are_sent(q, trace[k]@, rate_at(cfg, scale, k), trace[k + 1]@)
}

/// A form whose coefficients fit and whose pairs are of its variables.
pub open spec fn is_sound(q: &ReducedQuadratic) -> bool {
    &&& quadratic::form_fits(q)
    &&& forall|i: int|
        0 <= i < q.quad@.len() ==> (#[trigger] q.quad@[i]).a < q.linear@.len() && q.quad@[i].b
            < q.linear@.len()
}

/// The messages stay within what `k` sweeps can have added: the steps get shorter,
/// so that the messages grow with the square root of the number of sweeps.
spec fn are_small(msgs: Seq<Message>, k: int) -> bool {
    forall|i: int|
        0 <= i < msgs.len() ==> is_small((#[trigger] msgs[i]).to_a_low as int, k) && is_small(
            msgs[i].to_b_low as int,
            k,
        )
}

spec fn is_small(m: int, k: int) -> bool {
    m * m <= 9000000000000 * k
}

/// What no message exceeds in size.
const MESSAGE_SIZE: i64 = 20000000000000000;

/// Messages of some sweeps are small enough to be added up.
proof fn lemma_within(msgs: Seq<Message>, k: int)
    requires
        are_small(msgs, k),
        are_even(msgs),
        0 <= k <= 0x1_0000_0000_0000_0000,
        msgs.len() <= usize::MAX,
    ensures
        trwbp::are_within(msgs, MESSAGE_SIZE as int),
{
    let m = msgs.len();
    assert(m * 20000000000000000 <= 0x0400_0000_0000_0000_0000_0000_0000_0000) by (nonlinear_arith)
        requires
            0 <= m <= 0xffff_ffff_ffff_ffff,
    ;
    assert forall|i: int| 0 <= i < m implies trwbp::is_within(
        #[trigger] msgs[i],
        MESSAGE_SIZE as int,
    ) by {
        lemma_small_size(msgs[i].to_a_low as int, k);
        lemma_small_size(msgs[i].to_b_low as int, k);
    }
}

/// What a message adds to one state it takes from the other.
spec fn are_even(msgs: Seq<Message>) -> bool {
    forall|i: int|
        0 <= i < msgs.len() ==> (#[trigger] msgs[i]).to_a_high == -msgs[i].to_a_low
            && msgs[i].to_b_high == -msgs[i].to_b_low
}

/// A step of at most a billion over the root keeps a message small.
proof fn lemma_step_small(m: int, d: int, root: int, k: int)
    requires
        is_small(m, k),
        0 <= k,
        1000 <= root,
        (k + 1) * 1000000 < (root + 1) * (root + 1),
        -1000000000 <= d * root <= 1000000000,
    ensures
        is_small(m + d, k + 1),
{
    let a = if m < 0 {
        -m
    } else {
        m
    };
    let e = if d < 0 {
        -d
    } else {
        d
    };
    assert(a * a == m * m) by (nonlinear_arith)
        requires
            a == m || a == -m,
    ;
    assert(e * e == d * d) by (nonlinear_arith)
        requires
            e == d || e == -d,
    ;
    assert(0 <= e * root <= 1000000000) by (nonlinear_arith)
        requires
            e == d || e == -d,
            e >= 0,
            root >= 0,
            -1000000000 <= d * root <= 1000000000,
    ;
    let b = root + 1;
    let c = 1001 * root;
    assert(1000000 * (b * b) <= c * c) by (nonlinear_arith)
        requires
            0 <= 1000 * b <= c,
    ;
    assert(c * c == 1002001 * (root * root)) by (nonlinear_arith)
        requires
            c == 1001 * root,
    ;
    let s = root * root;
    let t = e * root;
    assert((e * e) * s == t * t && t * t <= 1000000000000000000) by (nonlinear_arith)
        requires
            s == root * root,
            t == e * root,
            0 <= t <= 1000000000,
    ;
    let q = e * e;
    let n = k + 1;
    assert(0 <= q) by (nonlinear_arith)
        requires
            q == e * e,
    ;
    assert(1000000000000 * n <= 1002001 * s);
    assert(q * n <= 1002001000000) by (nonlinear_arith)
        requires
            0 <= q,
            1000000000000 * n <= 1002001 * s,
            q * s <= 1000000000000000000,
    ;
    assert(q <= q * n && q * k <= q * n) by (nonlinear_arith)
        requires
            0 <= q,
            n == k + 1,
            0 <= k,
    ;
    let p = a * e;
    assert(p * p == (a * a) * q) by (nonlinear_arith)
        requires
            p == a * e,
            q == e * e,
    ;
    let h = a * a;
    assert(h * q <= 9000000000000 * (q * k)) by (nonlinear_arith)
        requires
            h <= 9000000000000 * k,
            0 <= q,
    ;
    assert(p <= 3004000000000) by (nonlinear_arith)
        requires
            p * p <= 9018009000000000000000000,
    ;
    let z = m + d;
    assert(z * z <= h + 2 * p + q) by (nonlinear_arith)
        requires
            z == m + d,
            h == a * a,
            q == e * e,
            p == a * e,
            a == m || a == -m,
            e == d || e == -d,
            a >= 0,
            e >= 0,
    ;
}

/// The shares of the low states of a pair, in twelfths.
fn pair_shares(p: &PairCoeff, vt: VarType, m: &Message) -> (r: (i64, i64))
    ensures
        r.0 == low_a_share(*p, vt, *m),
        r.1 == low_b_share(*p, vt, *m),
        0 <= r.0 <= 12,
        0 <= r.1 <= 12,
{
    proof {
        let c = p.coeff as int;
        let u = UNIT as int;
        let bl = term::bit_value(vt, false);
        let bh = term::bit_value(vt, true);
        assert(bl * bl == -bl && bl * bh == bl && bh * bl == bl && bh * bh == 1)
            by (nonlinear_arith)
            requires
                bh == 1,
                bl == 0 || bl == -1,
        ;
        trwbp::lemma_scaled_size(u, c, bl * bl);
        trwbp::lemma_scaled_size(u, c, bl * bh);
        trwbp::lemma_scaled_size(u, c, bh * bl);
        trwbp::lemma_scaled_size(u, c, bh * bh);
    }
    let scaled: i128 = UNIT as i128 * (p.coeff as i128);
    let (equal_low, mixed): (i128, i128) = match vt {
        VarType::Bin => (0, 0),
        VarType::Spin => (scaled, -scaled),
    };
    let ll: i128 = equal_low + m.to_a_low as i128 + m.to_b_low as i128;
    let lh: i128 = mixed + m.to_a_low as i128 + m.to_b_high as i128;
    let hl: i128 = mixed + m.to_a_high as i128 + m.to_b_low as i128;
    let hh: i128 = scaled + m.to_a_high as i128 + m.to_b_high as i128;
    let l: i128 = if lh < ll {
        lh
    } else {
        ll
    };
    let h: i128 = if hh < hl {
        hh
    } else {
        hl
    };
    let least: i128 = if h < l {
        h
    } else {
        l
    };
    let cll: i64 = if ll == least {
        1
    } else {
        0
    };
    let clh: i64 = if lh == least {
        1
    } else {
        0
    };
    let chl: i64 = if hl == least {
        1
    } else {
        0
    };
    let chh: i64 = if hh == least {
        1
    } else {
        0
    };
    let count: i64 = cll + clh + chl + chh;
    proof {
        assert(1 <= count <= 4);
        assert(count == least_count(*p, vt, *m));
        let a: int = cll + clh;
        let b: int = cll + chl;
        assert(0 <= 12 * a / (count as int) <= 12) by (nonlinear_arith)
            requires
                0 <= a <= count,
                1 <= count,
        ;
        assert(0 <= 12 * b / (count as int) <= 12) by (nonlinear_arith)
            requires
                0 <= b <= count,
                1 <= count,
        ;
    }
    (12 * (cll + clh) / count, 12 * (cll + chl) / count)
}

/// The shares of the low states of the variables, in twelfths.
fn var_shares(q: &ReducedQuadratic, msgs: &Vec<Message>) -> (r: Vec<i64>)
    requires
        is_sound(q),
        msgs@.len() == q.quad@.len(),
        trwbp::are_within(msgs@, MESSAGE_SIZE as int),
    ensures
        r@.len() == q.linear@.len(),
        forall|v: int|
            0 <= v < r@.len() ==> #[trigger] r@[v] == var_share(q, msgs@, v) && 0 <= r@[v] <= 12,
{
    let vt: VarType = q.var_type;
    let got: Received = trwbp::receive(q, msgs, Ghost(MESSAGE_SIZE as int));
    let mut r: Vec<i64> = Vec::new();
    let mut v: usize = 0;
    while v < q.linear.len()
        invariant
            v <= q.linear@.len(),
            vt == q.var_type,
            is_sound(q),
            msgs@.len() == q.quad@.len(),
            trwbp::are_within(msgs@, MESSAGE_SIZE as int),
            got.low@.len() == q.linear@.len(),
            got.high@.len() == q.linear@.len(),
            forall|i: int|
                0 <= i < q.linear@.len() ==> #[trigger] got.low@[i] == trwbp::incoming(
                    q.quad@,
                    msgs@,
                    i,
                    false,
                    q.quad@.len(),
                ),
            forall|i: int|
                0 <= i < q.linear@.len() ==> #[trigger] got.high@[i] == trwbp::incoming(
                    q.quad@,
                    msgs@,
                    i,
                    true,
                    q.quad@.len(),
                ),
            r@.len() == v,
            forall|i: int|
                0 <= i < v ==> #[trigger] r@[i] == var_share(q, msgs@, i) && 0 <= r@[i] <= 12,
        decreases q.linear@.len() - v,
    {
        proof {
            let k = q.quad@.len();
            let size = MESSAGE_SIZE as int;
            trwbp::lemma_incoming_size(q.quad@, msgs@, v as int, false, size, k);
            trwbp::lemma_incoming_size(q.quad@, msgs@, v as int, true, size, k);
            let c = q.linear@[v as int] as int;
            trwbp::lemma_scaled_size(UNIT as int, c, term::bit_value(vt, false));
            trwbp::lemma_scaled_size(UNIT as int, c, term::bit_value(vt, true));
        }
        let scaled: i128 = UNIT as i128 * (q.linear[v] as i128);
        let low: i128 = (match vt {
            VarType::Bin => 0,
            VarType::Spin => -scaled,
        }) - got.low[v];
        let high: i128 = scaled - got.high[v];
        let share: i64 = if low == high {
            6
        } else if low < high {
            12
        } else {
            0
        };
        r.push(share);
        v += 1;
    }
    r
}

/// One message after a sweep.
fn moved(low: i64, rate: i64, pair: i64, var: i64, root: u64, k: Ghost<int>) -> (r: i64)
    requires
        is_small(low as int, k@),
        0 <= k@ <= u64::MAX,
        is_short(rate as int, root as int, k@),
        0 <= pair <= 12,
        0 <= var <= 12,
    ensures
        r == low + rate * (pair - var),
        is_small(r as int, k@ + 1),
        -i64::MAX <= r,
{
    let ghost d = rate * (pair - var);
    proof {
        let w = pair - var;
        let t = rate * root;
        assert(d * root == t * w) by (nonlinear_arith)
            requires
                d == rate * w,
                t == rate * root,
        ;
        assert(-1000000000 <= t * w <= 1000000000) by (nonlinear_arith)
            requires
                0 <= 12 * t <= 1000000000,
                -12 <= w <= 12,
        ;
        lemma_step_small(low as int, d, root as int, k@);
        lemma_small_size(low as int, k@);
        lemma_small_size(low + d, k@ + 1);
        assert(0 <= 12 * rate <= 1000000) by (nonlinear_arith)
            requires
                0 <= 12 * (rate * root) <= 1000000000,
                root >= 1000,
        ;
        assert(-1000000 <= d <= 1000000) by (nonlinear_arith)
            requires
                0 <= 12 * rate <= 1000000,
                -12 <= w <= 12,
                d == rate * w,
        ;
    }
    low + rate * (pair - var)
}

/// The step for one twelfth is short enough for sweep `k`.
spec fn is_short(rate: int, root: int, k: int) -> bool {
    &&& 0 <= 12 * (rate * root) <= 1000000000
    &&& 1000 <= root
    &&& (k + 1) * 1000000 < (root + 1) * (root + 1)
}

proof fn lemma_small_size(m: int, k: int)
    requires
        is_small(m, k),
        0 <= k <= 0x1_0000_0000_0000_0000,
    ensures
        -20000000000000000 <= m <= 20000000000000000,
{
    assert(-20000000000000000 <= m <= 20000000000000000) by (nonlinear_arith)
        requires
            m * m <= 9000000000000 * 0x1_0000_0000_0000_0000int,
    ;
}

/// The messages after a sweep.
fn sweep(q: &ReducedQuadratic, msgs: &Vec<Message>, rate: i64, root: u64, k: Ghost<int>) -> (next:
    Vec<Message>)
    requires
        is_sound(q),
        msgs@.len() == q.quad@.len(),
        0 <= k@ <= u64::MAX,
        is_short(rate as int, root as int, k@),
        are_small(msgs@, k@),
        are_even(msgs@),
    ensures
        are_sent(q, msgs@, rate as int, next@),
        are_small(next@, k@ + 1),
        are_even(next@),
{
    let n_pairs: usize = q.quad.len();
    proof {
        lemma_within(msgs@, k@);
    }
    let shares = var_shares(q, msgs);
    let mut next: Vec<Message> = Vec::new();
    let mut i: usize = 0;
    while i < q.quad.len()
        invariant
            i <= q.quad@.len(),
            is_sound(q),
            msgs@.len() == q.quad@.len(),
            0 <= k@ <= u64::MAX,
            is_short(rate as int, root as int, k@),
            are_small(msgs@, k@),
            shares@.len() == q.linear@.len(),
            forall|v: int|
                0 <= v < shares@.len() ==> #[trigger] shares@[v] == var_share(q, msgs@, v) && 0
                    <= shares@[v] <= 12,
            next@.len() == i,
            forall|j: int| 0 <= j < i ==> is_sent(q, msgs@, rate as int, j, #[trigger] next@[j]),
            are_small(next@, k@ + 1),
            are_even(next@),
        decreases q.quad@.len() - i,
    {
        let p: PairCoeff = q.quad[i];
        let m: Message = msgs[i];
        assert(q.quad@[i as int].a < q.linear@.len());
        assert(is_small(msgs@[i as int].to_a_low as int, k@));
        let (sa, sb) = pair_shares(&p, q.var_type, &m);
        let va: i64 = shares[p.a];
        let vb: i64 = shares[p.b];
        let a: i64 = moved(m.to_a_low, rate, sa, va, root, k);
        let b: i64 = moved(m.to_b_low, rate, sb, vb, root, k);
        next.push(Message { to_a_low: a, to_a_high: -a, to_b_low: b, to_b_high: -b });
        i += 1;
    }
    next
}

proof fn lemma_root_unique(x: int, r: int)
    requires
        is_root(x, r),
    ensures
        root_of(x) == r,
{
    let s = root_of(x);
    assert(is_root(x, s));
    assert(r == s) by (nonlinear_arith)
        requires
            0 <= r,
            0 <= s,
            r * r <= x < (r + 1) * (r + 1),
            s * s <= x < (s + 1) * (s + 1),
    ;
}

/// The square root of a number no less than the square of a given one.
fn next_root(x: u128, from: u64) -> (r: u64)
    requires
        from * from <= x,
        1000 <= from,
        x <= 18446744073709551616000000,
    ensures
        is_root(x as int, r as int),
        r == root_of(x as int),
        from <= r <= 4294967296000,
{
    let mut r: u128 = from as u128;
    proof {
        lemma_root_size(r as int);
    }
    while (r + 1) * (r + 1) <= x
        invariant
            r * r <= x,
            from <= r <= 4294967296000,
            x <= 18446744073709551616000000,
            (r + 1) * (r + 1) <= 18446744073718141550592001,
        decreases 4294967296001 - r,
    {
        r = r + 1;
        proof {
            lemma_root_size(r as int);
        }
    }
    proof {
        lemma_root_unique(x as int, r as int);
    }
    r as u64
}

proof fn lemma_root_size(r: int)
    requires
        0 <= r,
        r * r <= 18446744073709551616000000,
    ensures
        r <= 4294967296000,
        (r + 1) * (r + 1) <= 18446744073718141550592001,
{
    assert(r <= 4294967296000) by (nonlinear_arith)
        requires
            0 <= r,
            r * r <= 18446744073709551616000000,
    ;
    assert((r + 1) * (r + 1) <= 4294967296001 * 4294967296001) by (nonlinear_arith)
        requires
            0 <= r <= 4294967296000,
    ;
}

/// The step for one twelfth.
fn rate_of(cfg: &Trwbp, scale: i64, root: u64, k: Ghost<int>) -> (r: i64)
    requires
        100 <= scale <= UNIT,
        root == root_of((k@ + 1) * 1000000),
        1000 <= root <= 4294967296000,
    ensures
        r == rate_at(*cfg, scale as int, k@),
        0 <= 12 * (r * root) <= 1000000000,
{
    let part: i64 = if cfg.damping < 0 {
        UNIT
    } else if cfg.damping > UNIT {
        0
    } else {
        UNIT - cfg.damping
    };
    let step: i64 = scale * 1000 / root as i64;
    proof {
        assert(0 <= (scale * 1000) / (root as int) <= scale) by (nonlinear_arith)
            requires
                0 <= scale,
                root >= 1000,
        ;
        assert(0 <= part * step <= 1000000 * 1000000) by (nonlinear_arith)
            requires
                0 <= part <= 1000000,
                0 <= step <= 1000000,
        ;
        let a = part * step;
        let q = a / 12000000;
        assert(0 <= 12 * q <= step) by (nonlinear_arith)
            requires
                q == a / 12000000,
                a == part * step,
                0 <= part <= 1000000,
                0 <= step,
        ;
        let s = scale * 1000;
        assert(step * root <= s) by (nonlinear_arith)
            requires
                step == s / (root as int),
                root >= 1000,
                s >= 0,
        ;
        assert(0 <= 12 * (q * root) <= step * root) by (nonlinear_arith)
            requires
                0 <= 12 * q <= step,
                root >= 1000,
        ;
    }
    part * step / (12 * UNIT)
}

/// The scale after a sweep.
fn scale_after(scale: i64, improved: bool) -> (r: i64)
    requires
        100 <= scale <= UNIT,
    ensures
        r == next_scale(scale as int, improved),
        100 <= r <= UNIT,
{
    if improved {
        let s: i64 = scale * 105 / 100;
        if s > UNIT {
            UNIT
        } else {
            s
        }
    } else {
        let s: i64 = scale * 7 / 10;
        if s < 100 {
            100
        } else {
            s
        }
    }
}

proof fn lemma_best_of_same(
    q: &ReducedQuadratic,
    a: Seq<Vec<Message>>,
    b: Seq<Vec<Message>>,
    k: nat,
)
    requires
        0 < a.len(),
        k <= a.len(),
        a.len() <= b.len(),
        forall|i: int| 0 <= i < a.len() ==> a[i] == #[trigger] b[i],
    ensures
        best_of(q, a, k) == best_of(q, b, k),
    decreases k,
{
    assert(a[0] == b[0]);
    if k > 1 {
        lemma_best_of_same(q, a, b, (k - 1) as nat);
        let k1 = k - 1;
        assert(a[k1] == b[k1]);
    }
}

proof fn lemma_path_push(
    q: &ReducedQuadratic,
    cfg: Trwbp,
    trace: Seq<Vec<Message>>,
    scales: Seq<int>,
    next: Vec<Message>,
)
    requires
        is_message_path(q, cfg, trace, scales),
        are_sent(
            q,
            trace.last()@,
            rate_at(cfg, scales.last(), trace.len() - 1),
            next@,
        ),
    ensures
        is_message_path(
            q,
            cfg,
            trace.push(next),
            scales.push(
                next_scale(
                    scales.last(),
                    trwbp::message_bound(q, UNIT as int, next@) > best_of(q, trace, trace.len()),
                ),
            ),
        ),
        best_of(q, trace.push(next), trace.len() + 1) == (if trwbp::message_bound(
            q,
            UNIT as int,
            next@,
        ) > best_of(q, trace, trace.len()) {
            trwbp::message_bound(q, UNIT as int, next@)
        } else {
            best_of(q, trace, trace.len())
        }),
{
    let m = trace.len() - 1;
    let t = trace.push(next);
    let improved = trwbp::message_bound(q, UNIT as int, next@) > best_of(q, trace, trace.len());
    let c = scales.push(next_scale(scales.last(), improved));
    assert(t[0] == trace[0]);
    lemma_best_of_same(q, trace, t, trace.len());
    assert forall|k: int| 0 <= k < t.len() - 1 implies is_next_sweep(
        q,
        cfg,
        t,
        #[trigger] c[k],
        k,
    ) && c[k + 1] == next_scale(
        c[k],
        trwbp::message_bound(q, UNIT as int, t[k + 1]@) > best_of(q, t, (k + 1) as nat),
    ) by {
        assert(t[k] == trace[k]);
        assert(c[k] == scales[k]);
        if k < m {
            assert(t[k + 1] == trace[k + 1]);
            assert(c[k + 1] == scales[k + 1]);
            assert(is_next_sweep(q, cfg, trace, scales[k], k));
            lemma_best_of_same(q, trace, t, (k + 1) as nat);
        }
    }
}

/// The best bound of the sweeps, in units.
pub fn trwbp_dual_bound(q: &ReducedQuadratic, cfg: &Trwbp) -> (r: i128)
    requires
        is_sound(q),
    ensures
        exists|trace: Seq<Vec<Message>>, scales: Seq<int>| #[trigger]
            is_message_path(q, *cfg, trace, scales) && trace.len() == cfg.max_iter + 1 && r
                == best_of(q, trace, trace.len()),
{
    let limit: u64 = cfg.max_iter as u64;
    let mut msgs: Vec<Message> = Vec::new();
    let mut i: usize = 0;
    while i < q.quad.len()
        invariant
            i <= q.quad@.len(),
            msgs@.len() == i,
            forall|j: int| 0 <= j < i ==> is_silent(#[trigger] msgs@[j]),
        decreases q.quad@.len() - i,
    {
        msgs.push(Message { to_a_low: 0, to_a_high: 0, to_b_low: 0, to_b_high: 0 });
        i += 1;
    }
    let mut scale: i64 = UNIT / 4;
    let n_pairs: usize = q.quad.len();
    proof {
        assert forall|j: int| 0 <= j < msgs@.len() implies is_small(
            (#[trigger] msgs@[j]).to_a_low as int,
            0,
        ) && is_small(msgs@[j].to_b_low as int, 0) && msgs@[j].to_a_high == -msgs@[j].to_a_low
            && msgs@[j].to_b_high == -msgs@[j].to_b_low by {
            assert(is_silent(msgs@[j]));
        }
        lemma_within(msgs@, 0);
    }
    let mut best: i128 = trwbp::dual_value(q, UNIT, &msgs, Ghost(MESSAGE_SIZE as int));
    let mut root: u64 = 1000;
    let mut it: u64 = 0;
    let ghost mut trace: Seq<Vec<Message>> = seq![msgs];
    let ghost mut scales: Seq<int> = seq![scale as int];
    while it < limit
        invariant
            it <= limit,
            limit == cfg.max_iter,
            is_sound(q),
            msgs@.len() == q.quad@.len(),
            are_small(msgs@, it as int),
            are_even(msgs@),
            100 <= scale <= UNIT,
            1000 <= root,
            root * root <= (it + 1) * 1000000,
            is_message_path(q, *cfg, trace, scales),
            trace.len() == it + 1,
            trace.last() == msgs,
            scales.last() == scale,
            best == best_of(q, trace, trace.len()),
        decreases limit - it,
    {
        root = next_root((it as u128 + 1) * 1000000, root);
        let rate: i64 = rate_of(cfg, scale, root, Ghost(it as int));
        let next = sweep(q, &msgs, rate, root, Ghost(it as int));
        let n_next: usize = next.len();
        proof {
            lemma_within(next@, it + 1);
        }
        let value: i128 = trwbp::dual_value(q, UNIT, &next, Ghost(MESSAGE_SIZE as int));
        let improved: bool = value > best;
        proof {
            lemma_path_push(q, *cfg, trace, scales, next);
            trace = trace.push(next);
            scales = scales.push(next_scale(scale as int, improved));
        }
        if improved {
            best = value;
        }
        scale = scale_after(scale, improved);
        msgs = next;
        it += 1;
    }
    best
}

/// The best bound of the sweeps is at most the value of the form.
pub proof fn sweeps_bound_form(
    q: &ReducedQuadratic,
    trace: Seq<Vec<Message>>,
    k: nat,
    y: Seq<bool>,
)
    requires
        is_sound(q),
        0 < k <= trace.len(),
        y.len() == q.linear@.len(),
    ensures
        best_of(q, trace, k) <= UNIT * quadratic::form_value(q, y),
    decreases k,
{
    trwbp::messages_bound_form(q, UNIT as int, trace[k - 1]@, y);
    if k > 1 {
        sweeps_bound_form(q, trace, (k - 1) as nat, y);
    }
}

/// Every completion of fixes comes from values of the free variables.
proof fn lemma_is_lifted(f: Seq<Option<bool>>, x: Seq<bool>) -> (y: Seq<bool>)
    requires
        node::extends(x, f),
        f.len() <= usize::MAX,
    ensures
        y.len() == fixes::free_vars(f).len(),
        restriction::lifted(f, y) == x,
{
    let vars = fixes::free_vars(f);
    let y = Seq::new(vars.len(), |k: int| x[vars[k] as int]);
    assert forall|i: int| 0 <= i < f.len() implies restriction::lifted(f, y)[i] == x[i] by {
        if f[i] is None {
            restriction::lemma_renaming(f, i);
        }
    }
    assert(restriction::lifted(f, y) =~= x);
    y
}

/// The bound by messages of the quadratic form of a node.
pub open spec fn is_form_bound(q: &ReducedQuadratic, cfg: Trwbp, r: Option<i64>) -> bool {
    exists|trace: Seq<Vec<Message>>, scales: Seq<int>| #[trigger]
        is_message_path(q, cfg, trace, scales) && trace.len() == cfg.max_iter + 1 && ({
            let v = best_of(q, trace, trace.len());
            if i64::MIN < v <= i64::MAX {
                r matches Some(b) && b == trwbp::unit_floor(v, UNIT as int)
            } else {
                r is None
            }
        })
}

/// The bound by messages of a node; none where the bound is no coefficient.
pub fn trwbp_lower_bound<V: VarDomain>(
    instance: &HuboInstance<V>,
    node: &Node,
    cfg: &Trwbp,
) -> (r: Option<i64>)
    requires
        instance.wf(),
        instance.fits(),
        node.describes(instance),
    ensures
        exists|q: ReducedQuadratic| #[trigger]
            quadratic::is_reduced_of(instance, node.fixed@, &q) && is_form_bound(&q, *cfg, r),
        r matches Some(b) ==> crate::bounds::bounds_below(instance, node.fixed@, b as int),
{
    let n: usize = instance.n_vars();
    let q = quadratic::reduce_to_quadratic(instance, &node.fixed);
    let ghost g = node.fixed@;
    let ghost a = choose|a: active::ActiveTerms| #[trigger]
        quadratic::is_reduced_by(instance, g, &a, &q);
    proof {
        quadratic::lemma_form_fits(instance, g, &q);
        assert forall|i: int| 0 <= i < q.quad@.len() implies (#[trigger] q.quad@[i]).a
            < q.linear@.len() && q.quad@[i].b < q.linear@.len() by {
            assert(q.quad@[i].a < q.quad@[i].b);
        }
    }
    let value: i128 = trwbp_dual_bound(&q, cfg);
    let ghost (trace, scales) = choose|trace: Seq<Vec<Message>>, scales: Seq<int>| #[trigger]
        is_message_path(&q, *cfg, trace, scales) && trace.len() == cfg.max_iter + 1 && value
            == best_of(&q, trace, trace.len());
    if value <= i64::MIN as i128 || value > i64::MAX as i128 {
        assert(is_message_path(&q, *cfg, trace, scales));
        assert(is_form_bound(&q, *cfg, None));
        return None;
    }
    let b: i64 = lagrangian::bound_of(value as i64, UNIT);
    proof {
        assert(is_message_path(&q, *cfg, trace, scales));
        assert(is_form_bound(&q, *cfg, Some(b)));
        assert forall|x: Seq<bool>| #[trigger] node::extends(x, g) implies b
            <= instance.objective(x) by {
            let f = restriction::fixes_of(g, instance.n() as int);
            assert(f =~= g);
            let y = lemma_is_lifted(f, x);
            quadratic::form_is_below(instance, g, &q, y);
            sweeps_bound_form(&q, trace, trace.len(), y);
            let o = quadratic::form_value(&q, y);
            let u = UNIT as int;
            assert(b <= o) by (nonlinear_arith)
                requires
                    u * b <= value,
                    value <= u * o,
                    u >= 1,
            ;
        }
    }
    Some(b)
}

impl<V: VarDomain> crate::bounds::LowerBound<V> for Trwbp {
    open spec fn is_bound(
        &self,
        instance: &HuboInstance<V>,
        node: &Node,
        ub: Option<i64>,
        r: int,
    ) -> bool {
        exists|c: int, b: Option<i64>, q: ReducedQuadratic|
            #![trigger cheap::is_cheap_bound(instance, node, c), is_form_bound(&q, *self, b)]
            cheap::is_cheap_bound(instance, node, c) && quadratic::is_reduced_of(
                instance,
                node.fixed@,
                &q,
            ) && is_form_bound(&q, *self, b) && r == ascent::better(c, b)
    }

    open spec fn is_core(
        &self,
        instance: &HuboInstance<V>,
        node: &Node,
        b: int,
        core: Option<Seq<usize>>,
    ) -> bool {
        core is None
    }

    /// No contradiction comes with the bound.
    fn compute_with_core(
        &self,
        instance: &HuboInstance<V>,
        node: &mut Node,
        incumbent_ub: Option<i64>,
    ) -> (r: (i64, Option<Vec<usize>>))
        ensures
            r.1 is None,
    {
        (self.compute(instance, node, incumbent_ub), None)
    }

    /// The better of the bound by messages and the cheap bound.
    fn compute(
        &self,
        instance: &HuboInstance<V>,
        node: &mut Node,
        incumbent_ub: Option<i64>,
    ) -> (r: i64)
    {
        let n_terms: usize = instance.terms.len();
        let b: Option<i64> = trwbp_lower_bound(instance, node, self);
        let ghost q = choose|q: ReducedQuadratic| #[trigger]
            quadratic::is_reduced_of(instance, node.fixed@, &q) && is_form_bound(&q, *self, b);
        let c: i64 = cheap::compute(instance, node);
        let r: i64 = match b {
            Some(v) => coeff::max_of(v, c),
            None => c,
        };
        proof {
            crate::bounds::lemma_cheap_bounds(instance, old(node), c as int);
            assert(cheap::is_cheap_bound(instance, old(node), c as int));
            assert(is_form_bound(&q, *self, b));
            assert(r == ascent::better(c as int, b));
        }
        r
    }
}

} // verus!
