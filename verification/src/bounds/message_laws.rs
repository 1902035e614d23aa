//! How the bound by messages depends on the messages.

use crate::bounds::message_ascent;
use crate::bounds::trwbp::Message;
use crate::bounds::trwbp;
use crate::domain::VarType;
use crate::quadratic::{PairCoeff, ReducedQuadratic};
use crate::quadratic;
use crate::term;
use vstd::prelude::*;

verus! {

proof fn lemma_states_at(
    q: &ReducedQuadratic,
    unit: int,
    msgs: Seq<Message>,
    y: Seq<bool>,
    k: nat,
)
    requires
        k <= y.len(),
        forall|v: int|
            0 <= v < y.len() ==> #[trigger] trwbp::state_cost(q, unit, msgs, v, y[v])
                <= trwbp::state_cost(q, unit, msgs, v, !y[v]),
    ensures
        trwbp::state_leasts(q, unit, msgs, k) == unit * quadratic::linear_value(
            q.var_type,
            q.linear@,
            y,
            k,
        ) - trwbp::received(q.quad@, msgs, y, q.quad@.len(), k),
    decreases k,
{
    if k == 0 {
        assert(unit * 0 == 0);
    } else {
        lemma_states_at(q, unit, msgs, y, (k - 1) as nat);
        let a = quadratic::linear_value(q.var_type, q.linear@, y, (k - 1) as nat);
        let b = q.linear@[k - 1] * term::bit_value(q.var_type, y[k - 1]);
        assert(unit * (a + b) == unit * a + unit * b) by (nonlinear_arith);
        assert(trwbp::state_cost(q, unit, msgs, k - 1, y[k - 1]) <= trwbp::state_cost(
            q,
            unit,
            msgs,
            k - 1,
            !y[k - 1],
        ));
    }
}

/// No states of the pair cost less than those at `y`.
pub open spec fn is_least_pair(
    vt: VarType,
    unit: int,
    p: PairCoeff,
    m: Message,
    y: Seq<bool>,
) -> bool {
    forall|a: bool, b: bool|
        trwbp::pair_cost(vt, unit, p, m, y[p.a as int], y[p.b as int])
            <= #[trigger] trwbp::pair_cost(vt, unit, p, m, a, b)
}

proof fn lemma_pairs_at(
    vt: VarType,
    unit: int,
    quad: Seq<PairCoeff>,
    msgs: Seq<Message>,
    y: Seq<bool>,
    k: nat,
)
    requires
        k <= quad.len(),
        quad.len() == msgs.len(),
        forall|i: int|
            0 <= i < quad.len() ==> is_least_pair(vt, unit, quad[i], #[trigger] msgs[i], y),
    ensures
        trwbp::pair_leasts(vt, unit, quad, msgs, k) == unit * quadratic::quad_weight(
            quad,
            |s: Seq<usize>| term::monomial(vt, s, y),
            k,
        ) + trwbp::sent(quad, msgs, y, k),
    decreases k,
{
    let w = |s: Seq<usize>| term::monomial(vt, s, y);
    if k == 0 {
        assert(unit * 0 == 0);
    } else {
        lemma_pairs_at(vt, unit, quad, msgs, y, (k - 1) as nat);
        let p = quad[k - 1];
        let m = msgs[k - 1];
        let s = quadratic::pair_of(p);
        assert(is_least_pair(vt, unit, p, msgs[k - 1], y));
        let first = s.drop_last();
        assert(first =~= seq![p.a]);
        assert(first.drop_last() =~= Seq::empty());
        reveal_with_fuel(term::monomial, 3);
        let a = term::bit_value(vt, y[p.a as int]);
        let b = term::bit_value(vt, y[p.b as int]);
        assert(1 * a == a);
        assert(w(s) == a * b);
        let before = quadratic::quad_weight(quad, w, (k - 1) as nat);
        let c = p.coeff * (a * b);
        assert(unit * (before + c) == unit * before + unit * c) by (nonlinear_arith);
        let least = trwbp::pair_cost(vt, unit, p, m, y[p.a as int], y[p.b as int]);
        assert(least <= trwbp::pair_cost(vt, unit, p, m, false, false));
        assert(least <= trwbp::pair_cost(vt, unit, p, m, false, true));
        assert(least <= trwbp::pair_cost(vt, unit, p, m, true, false));
        assert(least <= trwbp::pair_cost(vt, unit, p, m, true, true));
        assert(trwbp::pair_least(vt, unit, p, m) == least);
    }
}

/// Where one assignment has the least cost of every variable and every pair, the bound
/// by messages is the value of the form there: nothing is lost.
pub proof fn agreeing_messages_are_exact(
    q: &ReducedQuadratic,
    unit: int,
    msgs: Seq<Message>,
    y: Seq<bool>,
)
    requires
        y.len() == q.linear@.len(),
        msgs.len() == q.quad@.len(),
        forall|i: int|
            0 <= i < q.quad@.len() ==> (#[trigger] q.quad@[i]).a < y.len() && q.quad@[i].b
                < y.len(),
        forall|v: int|
            0 <= v < y.len() ==> #[trigger] trwbp::state_cost(q, unit, msgs, v, y[v])
                <= trwbp::state_cost(q, unit, msgs, v, !y[v]),
        forall|i: int|
            0 <= i < msgs.len() ==> is_least_pair(
                q.var_type,
                unit,
                q.quad@[i],
                #[trigger] msgs[i],
                y,
            ),
    ensures
        trwbp::message_bound(q, unit, msgs) == unit * quadratic::form_value(q, y),
{
    trwbp::lemma_sent_received(q.quad@, msgs, y, q.quad@.len());
    lemma_states_at(q, unit, msgs, y, y.len());
    lemma_pairs_at(q.var_type, unit, q.quad@, msgs, y, q.quad@.len());
    let a = q.base_offset + q.higher_order_trivial;
    let b = quadratic::linear_value(q.var_type, q.linear@, y, q.linear@.len());
    let c = quadratic::quad_weight(
        q.quad@,
        |s: Seq<usize>| term::monomial(q.var_type, s, y),
        q.quad@.len(),
    );
    assert(unit * (a + b + c) == unit * a + unit * b + unit * c) by (nonlinear_arith);
}

/// What a message adds to one state it takes from the other.
pub open spec fn is_even(m: Message) -> bool {
    m.to_a_high == -m.to_a_low && m.to_b_high == -m.to_b_low
}

/// By how much the messages of the first `k` pairs to variable `v` change.
spec fn change(
    quad: Seq<PairCoeff>,
    a: Seq<Message>,
    b: Seq<Message>,
    v: int,
    k: nat,
) -> int {
    trwbp::incoming(quad, b, v, false, k) - trwbp::incoming(quad, a, v, false, k)
}

proof fn lemma_change(quad: Seq<PairCoeff>, a: Seq<Message>, b: Seq<Message>, v: int, k: nat)
    requires
        k <= quad.len(),
        quad.len() == a.len(),
        quad.len() == b.len(),
        forall|i: int| 0 <= i < a.len() ==> is_even(#[trigger] a[i]),
        forall|i: int| 0 <= i < b.len() ==> is_even(#[trigger] b[i]),
    ensures
        trwbp::incoming(quad, b, v, true, k) - trwbp::incoming(quad, a, v, true, k) == -change(
            quad,
            a,
            b,
            v,
            k,
        ),
    decreases k,
{
    if k > 0 {
        lemma_change(quad, a, b, v, (k - 1) as nat);
        assert(is_even(a[k - 1]) && is_even(b[k - 1]));
    }
}

/// The changes to the first `m` variables, each with a factor of its own.
spec fn gathered(
    quad: Seq<PairCoeff>,
    a: Seq<Message>,
    b: Seq<Message>,
    f: spec_fn(int) -> int,
    k: nat,
    m: nat,
) -> int
    decreases m,
{
    if m == 0 {
        0
    } else {
        gathered(quad, a, b, f, k, (m - 1) as nat) + f(m - 1) * change(quad, a, b, m - 1, k)
    }
}

proof fn lemma_gathered_none(
    quad: Seq<PairCoeff>,
    a: Seq<Message>,
    b: Seq<Message>,
    f: spec_fn(int) -> int,
    m: nat,
)
    ensures
        gathered(quad, a, b, f, 0, m) == 0,
    decreases m,
{
    if m > 0 {
        lemma_gathered_none(quad, a, b, f, (m - 1) as nat);
        assert(f(m - 1) * 0 == 0);
    }
}

proof fn lemma_gathered_step(
    quad: Seq<PairCoeff>,
    a: Seq<Message>,
    b: Seq<Message>,
    f: spec_fn(int) -> int,
    k: nat,
    m: nat,
)
    requires
        0 < k <= quad.len(),
    ensures
        gathered(quad, a, b, f, k, m) == gathered(quad, a, b, f, (k - 1) as nat, m) + (if quad[k
            - 1].a < m {
            f(quad[k - 1].a as int) * (b[k - 1].to_a_low - a[k - 1].to_a_low)
        } else {
            0
        }) + (if quad[k - 1].b < m {
            f(quad[k - 1].b as int) * (b[k - 1].to_b_low - a[k - 1].to_b_low)
        } else {
            0
        }),
    decreases m,
{
    if m > 0 {
        lemma_gathered_step(quad, a, b, f, k, (m - 1) as nat);
        let c = f(m - 1);
        let old = change(quad, a, b, m - 1, (k - 1) as nat);
        let da = if quad[k - 1].a == m - 1 {
            b[k - 1].to_a_low - a[k - 1].to_a_low
        } else {
            0
        };
        let db = if quad[k - 1].b == m - 1 {
            b[k - 1].to_b_low - a[k - 1].to_b_low
        } else {
            0
        };
        assert(change(quad, a, b, m - 1, k) == old + da + db);
        assert(c * (old + da + db) == c * old + c * da + c * db) by (nonlinear_arith);
        assert(c * 0 == 0);
    }
}

/// The factor of a variable: twice its low share less the whole.
spec fn factor_at(q: &ReducedQuadratic, a: Seq<Message>) -> spec_fn(int) -> int {
    |v: int| 2 * message_ascent::var_share(q, a, v) - 12
}

/// By how much a change of the messages of the first `k` pairs from `a` to `b` counts: each
/// with the share of its pair less that of its variable, twice, in twelfths.
pub open spec fn slope(q: &ReducedQuadratic, a: Seq<Message>, b: Seq<Message>, k: nat) -> int
    decreases k,
{
    if k == 0 {
        0
    } else {
        let p = q.quad@[k - 1];
        let vt = q.var_type;
        slope(q, a, b, (k - 1) as nat) + 2 * (message_ascent::low_a_share(p, vt, a[k - 1])
            - message_ascent::var_share(q, a, p.a as int)) * (b[k - 1].to_a_low - a[k - 1].to_a_low)
            + 2 * (message_ascent::low_b_share(p, vt, a[k - 1]) - message_ascent::var_share(
            q,
            a,
            p.b as int,
        )) * (b[k - 1].to_b_low - a[k - 1].to_b_low)
    }
}

proof fn lemma_state_change(
    q: &ReducedQuadratic,
    a: Seq<Message>,
    b: Seq<Message>,
    m: nat,
)
    requires
        q.quad@.len() == a.len(),
        q.quad@.len() == b.len(),
        forall|i: int| 0 <= i < a.len() ==> is_even(#[trigger] a[i]),
        forall|i: int| 0 <= i < b.len() ==> is_even(#[trigger] b[i]),
    ensures
        12 * trwbp::state_leasts(q, message_ascent::UNIT as int, b, m) <= 12 * trwbp::state_leasts(
            q,
            message_ascent::UNIT as int,
            a,
            m,
        ) - gathered(q.quad@, a, b, factor_at(q, a), q.quad@.len(), m),
    decreases m,
{
    if m > 0 {
        lemma_state_change(q, a, b, (m - 1) as nat);
        let unit = message_ascent::UNIT as int;
        let v = m - 1;
        let d = change(q.quad@, a, b, v, q.quad@.len());
        lemma_change(q.quad@, a, b, v, q.quad@.len());
        let l = trwbp::state_cost(q, unit, a, v, false);
        let h = trwbp::state_cost(q, unit, a, v, true);
        let l2 = trwbp::state_cost(q, unit, b, v, false);
        let h2 = trwbp::state_cost(q, unit, b, v, true);
        assert(l2 == l - d);
        assert(h2 == h + d);
        let s = message_ascent::var_share(q, a, v);
        let f = factor_at(q, a)(v);
        assert(f == 2 * s - 12);
        assert(f * d == if s == 12 { 12 * d } else if s == 0 { -12 * d } else { 0 }) by (nonlinear_arith)
            requires
                f == 2 * s - 12,
                s == 0 || s == 6 || s == 12,
        ;
        assert(s == message_ascent::low_share(l, h));
        if l == h {
            assert(f * d == 0);
            if d >= 0 {
                assert(trwbp::smaller(l2, h2) <= l2);
            } else {
                assert(trwbp::smaller(l2, h2) <= h2);
            }
        } else if l < h {
            assert(f * d == 12 * d);
            assert(trwbp::smaller(l2, h2) <= l2);
        } else {
            assert(f * d == -12 * d);
            assert(trwbp::smaller(l2, h2) <= h2);
        }
        assert(12 * trwbp::smaller(l2, h2) <= 12 * trwbp::smaller(l, h) - f * d);
        assert(gathered(q.quad@, a, b, factor_at(q, a), q.quad@.len(), m) == gathered(
            q.quad@,
            a,
            b,
            factor_at(q, a),
            q.quad@.len(),
            (m - 1) as nat,
        ) + f * d);
        assert(trwbp::state_leasts(q, unit, b, m) == trwbp::state_leasts(
            q,
            unit,
            b,
            (m - 1) as nat,
        ) + trwbp::smaller(l2, h2));
        assert(trwbp::state_leasts(q, unit, a, m) == trwbp::state_leasts(
            q,
            unit,
            a,
            (m - 1) as nat,
        ) + trwbp::smaller(l, h));
    }
}

proof fn lemma_pair_change(vt: VarType, p: PairCoeff, a: Message, b: Message)
    requires
        is_even(a),
        is_even(b),
    ensures
        12 * trwbp::pair_least(vt, message_ascent::UNIT as int, p, b) <= 12 * trwbp::pair_least(
            vt,
            message_ascent::UNIT as int,
            p,
            a,
        ) + (2 * message_ascent::low_a_share(p, vt, a) - 12) * (b.to_a_low - a.to_a_low) + (2
            * message_ascent::low_b_share(p, vt, a) - 12) * (b.to_b_low - a.to_b_low),
{
    let unit = message_ascent::UNIT as int;
    let da = b.to_a_low - a.to_a_low;
    let db = b.to_b_low - a.to_b_low;
    let least = trwbp::pair_least(vt, unit, p, a);
    let next = trwbp::pair_least(vt, unit, p, b);
    let h00 = message_ascent::least_here(p, vt, a, false, false);
    let h01 = message_ascent::least_here(p, vt, a, false, true);
    let h10 = message_ascent::least_here(p, vt, a, true, false);
    let h11 = message_ascent::least_here(p, vt, a, true, true);
    assert(trwbp::pair_cost(vt, unit, p, b, false, false) == trwbp::pair_cost(
        vt,
        unit,
        p,
        a,
        false,
        false,
    ) + da + db);
    assert(trwbp::pair_cost(vt, unit, p, b, false, true) == trwbp::pair_cost(
        vt,
        unit,
        p,
        a,
        false,
        true,
    ) + da - db);
    assert(trwbp::pair_cost(vt, unit, p, b, true, false) == trwbp::pair_cost(
        vt,
        unit,
        p,
        a,
        true,
        false,
    ) - da + db);
    assert(trwbp::pair_cost(vt, unit, p, b, true, true) == trwbp::pair_cost(
        vt,
        unit,
        p,
        a,
        true,
        true,
    ) - da - db);
    let u = 2 * message_ascent::low_a_share(p, vt, a) - 12;
    let w = 2 * message_ascent::low_b_share(p, vt, a) - 12;
    let c = h00 + h01 + h10 + h11;
    assert(h00 == 1 ==> next <= least + da + db);
    assert(h01 == 1 ==> next <= least + da - db);
    assert(h10 == 1 ==> next <= least - da + db);
    assert(h11 == 1 ==> next <= least - da - db);
    assert(c >= 1);
    lemma_shares(h00, h01, h10, h11, da, db, next - least, u, w);
}

proof fn lemma_shares(
    h00: int,
    h01: int,
    h10: int,
    h11: int,
    da: int,
    db: int,
    g: int,
    u: int,
    w: int,
)
    requires
        h00 == 0 || h00 == 1,
        h01 == 0 || h01 == 1,
        h10 == 0 || h10 == 1,
        h11 == 0 || h11 == 1,
        h00 + h01 + h10 + h11 >= 1,
        h00 == 1 ==> g <= da + db,
        h01 == 1 ==> g <= da - db,
        h10 == 1 ==> g <= db - da,
        h11 == 1 ==> g <= -da - db,
        u == 2 * (12 * (h00 + h01) / (h00 + h01 + h10 + h11)) - 12,
        w == 2 * (12 * (h00 + h10) / (h00 + h01 + h10 + h11)) - 12,
    ensures
        12 * g <= u * da + w * db,
{
    let c = h00 + h01 + h10 + h11;
    let n = h00 + h01;
    let m = h00 + h10;
    if c == 1 {
        assert(12 * n / 1 == 12 * n && 12 * m / 1 == 12 * m);
    } else if c == 2 {
        assert(12 * n / 2 == 6 * n && 12 * m / 2 == 6 * m);
    } else if c == 3 {
        assert(12 * n / 3 == 4 * n && 12 * m / 3 == 4 * m);
    } else {
        assert(c == 4);
        assert(12 * n / 4 == 3 * n && 12 * m / 4 == 3 * m);
    }
    assert(u == -12 || u == -4 || u == 0 || u == 4 || u == 12);
    assert(w == -12 || w == -4 || w == 0 || w == 4 || w == 12);
    assert(u * da == if u == -12 { -12 * da } else if u == -4 { -4 * da } else if u == 0 {
        0
    } else if u == 4 { 4 * da } else { 12 * da }) by (nonlinear_arith)
        requires
            u == -12 || u == -4 || u == 0 || u == 4 || u == 12,
    ;
    assert(w * db == if w == -12 { -12 * db } else if w == -4 { -4 * db } else if w == 0 {
        0
    } else if w == 4 { 4 * db } else { 12 * db }) by (nonlinear_arith)
        requires
            w == -12 || w == -4 || w == 0 || w == 4 || w == 12,
    ;
}

proof fn lemma_pairs_change(
    q: &ReducedQuadratic,
    a: Seq<Message>,
    b: Seq<Message>,
    n: nat,
    k: nat,
)
    requires
        k <= q.quad@.len(),
        q.quad@.len() == a.len(),
        q.quad@.len() == b.len(),
        forall|i: int| 0 <= i < a.len() ==> is_even(#[trigger] a[i]),
        forall|i: int| 0 <= i < b.len() ==> is_even(#[trigger] b[i]),
        forall|i: int|
            0 <= i < q.quad@.len() ==> (#[trigger] q.quad@[i]).a < n && q.quad@[i].b < n,
    ensures
        12 * trwbp::pair_leasts(q.var_type, message_ascent::UNIT as int, q.quad@, b, k)
            - gathered(q.quad@, a, b, factor_at(q, a), k, n) <= 12 * trwbp::pair_leasts(
            q.var_type,
            message_ascent::UNIT as int,
            q.quad@,
            a,
            k,
        ) + slope(q, a, b, k),
    decreases k,
{
    let f = factor_at(q, a);
    if k == 0 {
        lemma_gathered_none(q.quad@, a, b, f, n);
    } else {
        lemma_pairs_change(q, a, b, n, (k - 1) as nat);
        lemma_gathered_step(q.quad@, a, b, f, k, n);
        let p = q.quad@[k - 1];
        assert(p.a < n && p.b < n);
        assert(is_even(a[k - 1]) && is_even(b[k - 1]));
        lemma_pair_change(q.var_type, p, a[k - 1], b[k - 1]);
        let da = b[k - 1].to_a_low - a[k - 1].to_a_low;
        let db = b[k - 1].to_b_low - a[k - 1].to_b_low;
        let s = message_ascent::low_a_share(p, q.var_type, a[k - 1]);
        let t = message_ascent::low_b_share(p, q.var_type, a[k - 1]);
        let u = message_ascent::var_share(q, a, p.a as int);
        let w = message_ascent::var_share(q, a, p.b as int);
        assert(f(p.a as int) == 2 * u - 12 && f(p.b as int) == 2 * w - 12);
        assert((2 * s - 12) * da - (2 * u - 12) * da == 2 * (s - u) * da) by (nonlinear_arith);
        assert((2 * t - 12) * db - (2 * w - 12) * db == 2 * (t - w) * db) by (nonlinear_arith);
    }
}

/// The differences of the shares of pairs and variables are a slope of the bound: at
/// any other messages the bound is no larger than the slope allows.
pub proof fn shares_are_a_slope(q: &ReducedQuadratic, a: Seq<Message>, b: Seq<Message>)
    requires
        q.quad@.len() == a.len(),
        q.quad@.len() == b.len(),
        forall|i: int| 0 <= i < a.len() ==> is_even(#[trigger] a[i]),
        forall|i: int| 0 <= i < b.len() ==> is_even(#[trigger] b[i]),
        forall|i: int|
            0 <= i < q.quad@.len() ==> (#[trigger] q.quad@[i]).a < q.linear@.len() && q.quad@[i].b
                < q.linear@.len(),
    ensures
        12 * trwbp::message_bound(q, message_ascent::UNIT as int, b) <= 12 * trwbp::message_bound(
            q,
            message_ascent::UNIT as int,
            a,
        ) + slope(q, a, b, q.quad@.len()),
{
    lemma_state_change(q, a, b, q.linear@.len());
    lemma_pairs_change(q, a, b, q.linear@.len(), q.quad@.len());
}

/// The squared differences of the shares of the first `k` pairs and their variables.
pub open spec fn squares(q: &ReducedQuadratic, a: Seq<Message>, k: nat) -> int
    decreases k,
{
    if k == 0 {
        0
    } else {
        let p = q.quad@[k - 1];
        let d = message_ascent::low_a_share(p, q.var_type, a[k - 1]) - message_ascent::var_share(
            q,
            a,
            p.a as int,
        );
        let e = message_ascent::low_b_share(p, q.var_type, a[k - 1]) - message_ascent::var_share(
            q,
            a,
            p.b as int,
        );
        squares(q, a, (k - 1) as nat) + d * d + e * e
    }
}

/// A sweep goes up its slope: the messages move by the rate along the differences of
/// the shares, so the slope rises by twice the rate times their squares.
pub proof fn sweeps_go_up_the_slope(
    q: &ReducedQuadratic,
    a: Seq<Message>,
    b: Seq<Message>,
    rate: int,
    k: nat,
)
    requires
        k <= a.len(),
        message_ascent::are_sent(q, a, rate, b),
    ensures
        slope(q, a, b, k) == 2 * rate * squares(q, a, k),
        0 <= squares(q, a, k),
        0 <= rate ==> 0 <= slope(q, a, b, k),
    decreases k,
{
    if k == 0 {
        assert(2 * rate * 0 == 0) by (nonlinear_arith);
    } else {
        sweeps_go_up_the_slope(q, a, b, rate, (k - 1) as nat);
        let p = q.quad@[k - 1];
        assert(message_ascent::is_sent(q, a, rate, k - 1, b[k - 1]));
        let d = message_ascent::low_a_share(p, q.var_type, a[k - 1]) - message_ascent::var_share(
            q,
            a,
            p.a as int,
        );
        let e = message_ascent::low_b_share(p, q.var_type, a[k - 1]) - message_ascent::var_share(
            q,
            a,
            p.b as int,
        );
        let s = squares(q, a, (k - 1) as nat);
        assert(2 * rate * s + 2 * d * (rate * d) + 2 * e * (rate * e) == 2 * rate * (s + d * d + e
            * e)) by (nonlinear_arith);
        assert(d * d >= 0 && e * e >= 0) by (nonlinear_arith);
    }
    let t = squares(q, a, k);
    if rate >= 0 {
        assert(2 * rate * t >= 0) by (nonlinear_arith)
            requires
                rate >= 0,
                t >= 0,
        ;
    }
}

/// The scale of the steps stays between its limits, does not shrink after a sweep that
/// improved the bound, and does not grow after one that did not.
pub proof fn scales_follow_improvements(scale: int, improved: bool)
    requires
        100 <= scale <= message_ascent::UNIT,
    ensures
        100 <= message_ascent::next_scale(scale, improved) <= message_ascent::UNIT,
        improved ==> message_ascent::next_scale(scale, improved) >= scale,
        !improved ==> message_ascent::next_scale(scale, improved) <= scale,
        improved && scale < message_ascent::UNIT ==> message_ascent::next_scale(scale, improved)
            > scale,
        !improved && scale > 100 ==> message_ascent::next_scale(scale, improved) < scale,
{
}

} // verus!
