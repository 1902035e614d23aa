//! The bound that messages between variables and pairs give for what is left of
//! a node.

use crate::active;
use crate::bounds::lagrangian;
use crate::domain::{VarDomain, VarType};
use crate::fixes::Fixes;
use crate::instance::HuboInstance;
use crate::quadratic::{PairCoeff, ReducedQuadratic};
use crate::quadratic;
use crate::restriction;
use crate::term;
use vstd::prelude::*;

verus! {

/// The messages of a pair to its two variables, one for each state, in units.
#[derive(Debug, Clone, Copy)]
pub struct Message {
    pub to_a_low: i64,
    pub to_a_high: i64,
    pub to_b_low: i64,
    pub to_b_high: i64,
}

/// The message to the first variable of the pair.
pub open spec fn to_a(m: Message, high: bool) -> int {
    if high {
        m.to_a_high as int
    } else {
        m.to_a_low as int
    }
}

/// The message to the second variable of the pair.
pub open spec fn to_b(m: Message, high: bool) -> int {
    if high {
        m.to_b_high as int
    } else {
        m.to_b_low as int
    }
}

/// What the first `k` pairs send to a state of variable `v`.
pub open spec fn incoming(
    quad: Seq<PairCoeff>,
    msgs: Seq<Message>,
    v: int,
    high: bool,
    k: nat,
) -> int
    decreases k,
{
    if k == 0 {
        0
    } else {
        incoming(quad, msgs, v, high, (k - 1) as nat) + (if quad[k - 1].a == v {
            to_a(msgs[k - 1], high)
        } else {
            0
        }) + (if quad[k - 1].b == v {
            to_b(msgs[k - 1], high)
        } else {
            0
        })
    }
}

/// The smaller of two numbers.
pub open spec fn smaller(a: int, b: int) -> int {
    if b < a {
        b
    } else {
        a
    }
}

/// The cost of a state of variable `v` after the messages.
pub open spec fn state_cost(
    q: &ReducedQuadratic,
    unit: int,
    msgs: Seq<Message>,
    v: int,
    high: bool,
) -> int {
    unit * (q.linear@[v] * term::bit_value(q.var_type, high)) - incoming(
        q.quad@,
        msgs,
        v,
        high,
        q.quad@.len(),
    )
}

/// The cost of the states of a pair with its messages.
pub open spec fn pair_cost(
    vt: VarType,
    unit: int,
    p: PairCoeff,
    m: Message,
    a: bool,
    b: bool,
) -> int {
    unit * (p.coeff * (term::bit_value(vt, a) * term::bit_value(vt, b))) + to_a(m, a) + to_b(m, b)
}

/// The least cost of a pair.
pub open spec fn pair_least(vt: VarType, unit: int, p: PairCoeff, m: Message) -> int {
    smaller(
        smaller(pair_cost(vt, unit, p, m, false, false), pair_cost(vt, unit, p, m, false, true)),
        smaller(pair_cost(vt, unit, p, m, true, false), pair_cost(vt, unit, p, m, true, true)),
    )
}

/// The least costs of the first `k` variables.
pub open spec fn state_leasts(q: &ReducedQuadratic, unit: int, msgs: Seq<Message>, k: nat) -> int
    decreases k,
{
    if k == 0 {
        0
    } else {
        state_leasts(q, unit, msgs, (k - 1) as nat) + smaller(
            state_cost(q, unit, msgs, k - 1, false),
            state_cost(q, unit, msgs, k - 1, true),
        )
    }
}

/// The least costs of the first `k` pairs.
pub open spec fn pair_leasts(
    vt: VarType,
    unit: int,
    quad: Seq<PairCoeff>,
    msgs: Seq<Message>,
    k: nat,
) -> int
    decreases k,
{
    if k == 0 {
        0
    } else {
        pair_leasts(vt, unit, quad, msgs, (k - 1) as nat) + pair_least(
            vt,
            unit,
            quad[k - 1],
            msgs[k - 1],
        )
    }
}

/// The bound that the messages give, in units.
pub open spec fn message_bound(q: &ReducedQuadratic, unit: int, msgs: Seq<Message>) -> int {
    unit * (q.base_offset + q.higher_order_trivial) + state_leasts(
        q,
        unit,
        msgs,
        q.linear@.len(),
    ) + pair_leasts(q.var_type, unit, q.quad@, msgs, q.quad@.len())
}

/// What the first `k` pairs send at an assignment.
pub open spec fn sent(quad: Seq<PairCoeff>, msgs: Seq<Message>, y: Seq<bool>, k: nat) -> int
    decreases k,
{
    if k == 0 {
        0
    } else {
        sent(quad, msgs, y, (k - 1) as nat) + to_a(msgs[k - 1], y[quad[k - 1].a as int]) + to_b(
            msgs[k - 1],
            y[quad[k - 1].b as int],
        )
    }
}

/// What the first `m` variables receive from the first `k` pairs at an
/// assignment.
pub open spec fn received(quad: Seq<PairCoeff>, msgs: Seq<Message>, y: Seq<bool>, k: nat, m: nat) -> int
    decreases m,
{
    if m == 0 {
        0
    } else {
        received(quad, msgs, y, k, (m - 1) as nat) + incoming(quad, msgs, m - 1, y[m - 1], k)
    }
}

proof fn lemma_received_step(
    quad: Seq<PairCoeff>,
    msgs: Seq<Message>,
    y: Seq<bool>,
    k: nat,
    m: nat,
)
    requires
        0 < k <= quad.len(),
        m <= y.len(),
    ensures
        received(quad, msgs, y, k, m) == received(quad, msgs, y, (k - 1) as nat, m) + (if quad[k
            - 1].a < m {
            to_a(msgs[k - 1], y[quad[k - 1].a as int])
        } else {
            0
        }) + (if quad[k - 1].b < m {
            to_b(msgs[k - 1], y[quad[k - 1].b as int])
        } else {
            0
        }),
    decreases m,
{
    if m > 0 {
        lemma_received_step(quad, msgs, y, k, (m - 1) as nat);
    }
}

proof fn lemma_received_none(quad: Seq<PairCoeff>, msgs: Seq<Message>, y: Seq<bool>, m: nat)
    ensures
        received(quad, msgs, y, 0, m) == 0,
    decreases m,
{
    if m > 0 {
        lemma_received_none(quad, msgs, y, (m - 1) as nat);
    }
}

/// What is sent is received.
pub proof fn lemma_sent_received(quad: Seq<PairCoeff>, msgs: Seq<Message>, y: Seq<bool>, k: nat)
    requires
        k <= quad.len(),
        forall|i: int|
            0 <= i < quad.len() ==> (#[trigger] quad[i]).a < y.len() && quad[i].b < y.len(),
    ensures
        sent(quad, msgs, y, k) == received(quad, msgs, y, k, y.len()),
    decreases k,
{
    if k == 0 {
        lemma_received_none(quad, msgs, y, y.len());
    } else {
        lemma_sent_received(quad, msgs, y, (k - 1) as nat);
        lemma_received_step(quad, msgs, y, k, y.len());
        assert(quad[k - 1].a < y.len());
    }
}

proof fn lemma_state_leasts(
    q: &ReducedQuadratic,
    unit: int,
    msgs: Seq<Message>,
    y: Seq<bool>,
    k: nat,
)
    requires
        k <= y.len(),
    ensures
        state_leasts(q, unit, msgs, k) <= unit * quadratic::linear_value(
            q.var_type,
            q.linear@,
            y,
            k,
        ) - received(q.quad@, msgs, y, q.quad@.len(), k),
    decreases k,
{
    if k == 0 {
        assert(unit * 0 == 0);
    } else {
        lemma_state_leasts(q, unit, msgs, y, (k - 1) as nat);
        let a = quadratic::linear_value(q.var_type, q.linear@, y, (k - 1) as nat);
        let b = q.linear@[k - 1] * term::bit_value(q.var_type, y[k - 1]);
        assert(unit * (a + b) == unit * a + unit * b) by (nonlinear_arith);
    }
}

proof fn lemma_pair_leasts(
    vt: VarType,
    unit: int,
    quad: Seq<PairCoeff>,
    msgs: Seq<Message>,
    y: Seq<bool>,
    k: nat,
)
    requires
        k <= quad.len(),
    ensures
        pair_leasts(vt, unit, quad, msgs, k) <= unit * quadratic::quad_weight(
            quad,
            |s: Seq<usize>| term::monomial(vt, s, y),
            k,
        ) + sent(quad, msgs, y, k),
    decreases k,
{
    let w = |s: Seq<usize>| term::monomial(vt, s, y);
    if k == 0 {
        assert(unit * 0 == 0);
    } else {
        lemma_pair_leasts(vt, unit, quad, msgs, y, (k - 1) as nat);
        let p = quad[k - 1];
        let s = quadratic::pair_of(p);
        assert(s.drop_last() =~= seq![p.a]);
        assert(seq![p.a].drop_last() =~= Seq::<usize>::empty());
        reveal_with_fuel(term::monomial, 3);
        let ba = term::bit_value(vt, y[p.a as int]);
        let bb = term::bit_value(vt, y[p.b as int]);
        assert(1 * ba == ba);
        assert(w(s) == ba * bb);
        let q = quadratic::quad_weight(quad, w, (k - 1) as nat);
        let c = p.coeff * (ba * bb);
        assert(unit * (q + c) == unit * q + unit * c) by (nonlinear_arith);
        let xa = y[p.a as int];
        let xb = y[p.b as int];
        assert(pair_least(vt, unit, p, msgs[k - 1]) <= pair_cost(
            vt,
            unit,
            p,
            msgs[k - 1],
            xa,
            xb,
        ));
    }
}

/// Whatever the messages are, the bound is at most the value of the quadratic
/// form at every assignment.
pub proof fn messages_bound_form(
    q: &ReducedQuadratic,
    unit: int,
    msgs: Seq<Message>,
    y: Seq<bool>,
)
    requires
        y.len() == q.linear@.len(),
        forall|i: int|
            0 <= i < q.quad@.len() ==> (#[trigger] q.quad@[i]).a < y.len() && q.quad@[i].b
                < y.len(),
    ensures
        message_bound(q, unit, msgs) <= unit * quadratic::form_value(q, y),
{
    lemma_sent_received(q.quad@, msgs, y, q.quad@.len());
    lemma_state_leasts(q, unit, msgs, y, y.len());
    lemma_pair_leasts(q.var_type, unit, q.quad@, msgs, y, q.quad@.len());
    let a = q.base_offset + q.higher_order_trivial;
    let b = quadratic::linear_value(q.var_type, q.linear@, y, q.linear@.len());
    let c = quadratic::quad_weight(
        q.quad@,
        |s: Seq<usize>| term::monomial(q.var_type, s, y),
        q.quad@.len(),
    );
    assert(unit * (a + b + c) == unit * a + unit * b + unit * c) by (nonlinear_arith);
}

/// Whatever the messages are, the bound for the quadratic form of an instance
/// under fixes is at most the objective of every extension by the fixes.
pub proof fn messages_bound_objective<V: VarDomain>(
    instance: &HuboInstance<V>,
    g: Seq<Option<bool>>,
    q: &ReducedQuadratic,
    unit: int,
    msgs: Seq<Message>,
    y: Seq<bool>,
)
    requires
        instance.wf(),
        instance.fits(),
        instance.n() <= usize::MAX,
        quadratic::is_reduced_of(instance, g, q),
        y.len() == q.n_free,
        unit >= 1,
    ensures
        message_bound(q, unit, msgs) <= unit * instance.objective(
            restriction::lifted(restriction::fixes_of(g, instance.n() as int), y),
        ),
{
    let a = choose|a: active::ActiveTerms| #[trigger]
        quadratic::is_reduced_by(instance, g, &a, q);
    messages_bound_form(q, unit, msgs, y);
    quadratic::form_is_below(instance, g, q, y);
    let f = quadratic::form_value(q, y);
    let o = instance.objective(
        restriction::lifted(restriction::fixes_of(g, instance.n() as int), y),
    );
    assert(unit * f <= unit * o) by (nonlinear_arith)
        requires
            f <= o,
            unit >= 1,
    ;
}

/// The most units for which the bound is computed.
pub const MAX_UNIT: i64 = 1073741824;

/// More pairs than a list of them can hold in memory.
pub const MAX_PAIRS: u64 = 288230376151711744;

/// The messages are at most `size` in size, and all of them together fit.
pub open spec fn are_within(msgs: Seq<Message>, size: int) -> bool {
    &&& 0 <= size
    &&& msgs.len() * size <= 0x0400_0000_0000_0000_0000_0000_0000_0000
    &&& forall|i: int| 0 <= i < msgs.len() ==> is_within(#[trigger] msgs[i], size)
}

/// The message is at most `size` in size.
pub open spec fn is_within(m: Message, size: int) -> bool {
    &&& -size <= m.to_a_low <= size
    &&& -size <= m.to_a_high <= size
    &&& -size <= m.to_b_low <= size
    &&& -size <= m.to_b_high <= size
}

pub proof fn lemma_incoming_size(
    quad: Seq<PairCoeff>,
    msgs: Seq<Message>,
    v: int,
    high: bool,
    size: int,
    k: nat,
)
    requires
        are_within(msgs, size),
        k <= msgs.len(),
    ensures
        -(2 * (k * size)) <= incoming(quad, msgs, v, high, k) <= 2 * (k * size),
        0 <= k * size <= 0x0400_0000_0000_0000_0000_0000_0000_0000,
    decreases k,
{
    lemma_size_share(size, k, msgs.len());
    if k > 0 {
        lemma_incoming_size(quad, msgs, v, high, size, (k - 1) as nat);
        assert(is_within(msgs[k - 1], size));
        lemma_one_more(size, k);
    }
}

proof fn lemma_one_more(size: int, k: nat)
    requires
        k > 0,
    ensures
        k * size == (k - 1) * size + size,
{
    assert(k * size == (k - 1) * size + size) by (nonlinear_arith);
}

proof fn lemma_size_share(size: int, k: nat, m: nat)
    requires
        k <= m,
        0 <= size,
    ensures
        0 <= k * size <= m * size,
{
    assert(0 <= k * size <= m * size) by (nonlinear_arith)
        requires
            0 <= k <= m,
            0 <= size,
    ;
}

proof fn lemma_received_size(
    quad: Seq<PairCoeff>,
    msgs: Seq<Message>,
    y: Seq<bool>,
    size: int,
    k: nat,
    m: nat,
)
    requires
        are_within(msgs, size),
        k <= quad.len(),
        quad.len() == msgs.len(),
        m <= y.len(),
    ensures
        -(2 * (k * size)) <= received(quad, msgs, y, k, m) <= 2 * (k * size),
    decreases k,
{
    if k == 0 {
        lemma_received_none(quad, msgs, y, m);
    } else {
        lemma_received_size(quad, msgs, y, size, (k - 1) as nat, m);
        lemma_received_step(quad, msgs, y, k, m);
        assert(is_within(msgs[k - 1], size));
        lemma_one_more(size, k);
    }
}

proof fn lemma_linear_size(vt: VarType, linear: Seq<i64>, y: Seq<bool>, k: nat)
    requires
        k <= linear.len(),
    ensures
        -quadratic::abs_total(linear, k) <= quadratic::linear_value(vt, linear, y, k)
            <= quadratic::abs_total(linear, k),
    decreases k,
{
    if k > 0 {
        lemma_linear_size(vt, linear, y, (k - 1) as nat);
        let c = linear[k - 1] as int;
        assert(c * 0 == 0 && c * 1 == c && c * -1 == -c);
    }
}

/// The state of each variable that costs less.
spec fn cheaper_states(q: &ReducedQuadratic, unit: int, msgs: Seq<Message>) -> Seq<bool> {
    Seq::new(
        q.linear@.len(),
        |v: int| state_cost(q, unit, msgs, v, true) < state_cost(q, unit, msgs, v, false),
    )
}

proof fn lemma_state_value(q: &ReducedQuadratic, unit: int, msgs: Seq<Message>, k: nat)
    requires
        k <= q.linear@.len(),
    ensures
        state_leasts(q, unit, msgs, k) == unit * quadratic::linear_value(
            q.var_type,
            q.linear@,
            cheaper_states(q, unit, msgs),
            k,
        ) - received(q.quad@, msgs, cheaper_states(q, unit, msgs), q.quad@.len(), k),
    decreases k,
{
    if k == 0 {
        assert(unit * 0 == 0);
    } else {
        lemma_state_value(q, unit, msgs, (k - 1) as nat);
        let y = cheaper_states(q, unit, msgs);
        let a = quadratic::linear_value(q.var_type, q.linear@, y, (k - 1) as nat);
        let b = q.linear@[k - 1] * term::bit_value(q.var_type, y[k - 1]);
        assert(unit * (a + b) == unit * a + unit * b) by (nonlinear_arith);
    }
}

/// The least costs of the first `k` variables and pairs stay small.
proof fn lemma_least_sizes(
    q: &ReducedQuadratic,
    unit: int,
    msgs: Seq<Message>,
    size: int,
    k: nat,
)
    requires
        1 <= unit <= MAX_UNIT,
        quadratic::form_fits(q),
        q.quad@.len() == msgs.len(),
        are_within(msgs, size),
    ensures
        k <= q.linear@.len() ==> -0x0900_0000_0000_0000_0000_0000_0000_0000 <= state_leasts(
            q,
            unit,
            msgs,
            k,
        ) <= 0x0900_0000_0000_0000_0000_0000_0000_0000,
        k <= q.quad@.len() ==> -0x0900_0000_0000_0000_0000_0000_0000_0000 <= pair_leasts(
            q.var_type,
            unit,
            q.quad@,
            msgs,
            k,
        ) <= 0x0900_0000_0000_0000_0000_0000_0000_0000,
{
    let n = q.linear@.len();
    let m = q.quad@.len();
    quadratic::lemma_abs_total_prefix(q.linear@, 0, n);
    quadratic::lemma_quad_abs_prefix_le(q.quad@, 0, m);
    if k <= n {
        let y = cheaper_states(q, unit, msgs);
        lemma_state_value(q, unit, msgs, k);
        lemma_received_size(q.quad@, msgs, y, size, m, k);
        lemma_linear_size(q.var_type, q.linear@, y, k);
        quadratic::lemma_abs_total_prefix(q.linear@, k, n);
        let l = quadratic::linear_value(q.var_type, q.linear@, y, k);
        assert(-0x2000_0000_0000_0000_0000_0000 <= unit * l <= 0x2000_0000_0000_0000_0000_0000)
            by (nonlinear_arith)
            requires
                1 <= unit <= 1073741824,
                -0x7fff_ffff_ffff_ffff <= l <= 0x7fff_ffff_ffff_ffff,
        ;
    }
    if k <= m {
        lemma_pair_size(q.var_type, unit, q.quad@, msgs, size, k);
        quadratic::lemma_quad_abs_prefix_le(q.quad@, k, m);
        lemma_size_share(size, k, m);
        let l = quadratic::quad_abs(q.quad@, k);
        assert(0 <= unit * l <= 0x2000_0000_0000_0000_0000_0000) by (nonlinear_arith)
            requires
                1 <= unit <= 1073741824,
                0 <= l <= 0x7fff_ffff_ffff_ffff,
        ;
    }
}

proof fn lemma_pair_size(
    vt: VarType,
    unit: int,
    quad: Seq<PairCoeff>,
    msgs: Seq<Message>,
    size: int,
    k: nat,
)
    requires
        1 <= unit <= MAX_UNIT,
        are_within(msgs, size),
        k <= quad.len(),
        quad.len() == msgs.len(),
    ensures
        -(unit * quadratic::quad_abs(quad, k)) - 2 * (k * size) <= pair_leasts(
            vt,
            unit,
            quad,
            msgs,
            k,
        ) <= unit * quadratic::quad_abs(quad, k) + 2 * (k * size),
    decreases k,
{
    if k == 0 {
        assert(unit * 0 == 0);
    } else {
        lemma_pair_size(vt, unit, quad, msgs, size, (k - 1) as nat);
        lemma_one_more(size, k);
        assert(is_within(msgs[k - 1], size));
        let c = quad[k - 1].coeff as int;
        let bl = term::bit_value(vt, false);
        let bh = term::bit_value(vt, true);
        assert(bl * bl == -bl && bl * bh == bl && bh * bl == bl && bh * bh == 1)
            by (nonlinear_arith)
            requires
                bh == 1,
                bl == 0 || bl == -1,
        ;
        lemma_scaled_size(unit, c, bl * bl);
        lemma_scaled_size(unit, c, bl * bh);
        lemma_scaled_size(unit, c, bh * bl);
        lemma_scaled_size(unit, c, bh * bh);
        let s = quadratic::quad_abs(quad, (k - 1) as nat);
        let a = term::abs(c);
        assert(unit * (s + a) == unit * s + unit * a) by (nonlinear_arith);
        assert(unit * (-c) == -(unit * c)) by (nonlinear_arith);
        assert(0 <= unit * a) by (nonlinear_arith)
            requires
                unit >= 1,
                a >= 0,
        ;
    }
}

/// A product of a coefficient, units and a sign stays small.
pub proof fn lemma_scaled_size(unit: int, c: int, b: int)
    requires
        1 <= unit <= MAX_UNIT,
        i64::MIN <= c <= i64::MAX,
        b == 0 || b == 1 || b == -1,
    ensures
        -0x2000_0000_0000_0000_0000_0000 <= unit * (c * b) <= 0x2000_0000_0000_0000_0000_0000,
        unit * (c * b) == (if b == 0 {
            0
        } else if b == 1 {
            unit * c
        } else {
            -(unit * c)
        }),
        -0x2000_0000_0000_0000_0000_0000 <= unit * c <= 0x2000_0000_0000_0000_0000_0000,
{
    assert(c * b == if b == 0 { 0 } else if b == 1 { c } else { -c }) by (nonlinear_arith)
        requires
            b == 0 || b == 1 || b == -1,
    ;
    assert(unit * (-c) == -(unit * c)) by (nonlinear_arith);
    assert(unit * 0 == 0);
    assert(-0x2000_0000_0000_0000_0000_0000 <= unit * c <= 0x2000_0000_0000_0000_0000_0000)
        by (nonlinear_arith)
        requires
            1 <= unit <= 1073741824,
            -0x8000_0000_0000_0000 <= c <= 0x7fff_ffff_ffff_ffff,
    ;
}

/// The costs of what the pairs send to each variable.
pub struct Received {
    pub low: Vec<i128>,
    pub high: Vec<i128>,
}

/// What the pairs send to each variable.
pub fn receive(q: &ReducedQuadratic, msgs: &Vec<Message>, size: Ghost<int>) -> (r: Received)
    requires
        q.quad@.len() == msgs@.len(),
        are_within(msgs@, size@),
        forall|i: int|
            0 <= i < q.quad@.len() ==> (#[trigger] q.quad@[i]).a < q.linear@.len() && q.quad@[i].b
                < q.linear@.len(),
    ensures
        r.low@.len() == q.linear@.len(),
        r.high@.len() == q.linear@.len(),
        forall|v: int|
            0 <= v < q.linear@.len() ==> #[trigger] r.low@[v] == incoming(
                q.quad@,
                msgs@,
                v,
                false,
                q.quad@.len(),
            ),
        forall|v: int|
            0 <= v < q.linear@.len() ==> #[trigger] r.high@[v] == incoming(
                q.quad@,
                msgs@,
                v,
                true,
                q.quad@.len(),
            ),
{
    let n: usize = q.linear.len();
    let mut low: Vec<i128> = Vec::new();
    let mut high: Vec<i128> = Vec::new();
    while low.len() < n
        invariant
            low@.len() <= n,
            high@.len() == low@.len(),
            forall|v: int| 0 <= v < low@.len() ==> #[trigger] low@[v] == 0,
            forall|v: int| 0 <= v < high@.len() ==> #[trigger] high@[v] == 0,
        decreases n - low@.len(),
    {
        low.push(0);
        high.push(0);
    }
    let mut k: usize = 0;
    while k < q.quad.len()
        invariant
            k <= q.quad@.len(),
            n == q.linear@.len(),
            q.quad@.len() == msgs@.len(),
            are_within(msgs@, size@),
            forall|i: int|
                0 <= i < q.quad@.len() ==> (#[trigger] q.quad@[i]).a < n && q.quad@[i].b < n,
            low@.len() == n,
            high@.len() == n,
            forall|v: int|
                0 <= v < n ==> #[trigger] low@[v] == incoming(
                    q.quad@,
                    msgs@,
                    v,
                    false,
                    k as nat,
                ),
            forall|v: int|
                0 <= v < n ==> #[trigger] high@[v] == incoming(
                    q.quad@,
                    msgs@,
                    v,
                    true,
                    k as nat,
                ),
        decreases q.quad@.len() - k,
    {
        let ghost l0 = low@;
        let ghost h0 = high@;
        let a: usize = q.quad[k].a;
        let b: usize = q.quad[k].b;
        let m: Message = msgs[k];
        assert(q.quad@[k as int].a < n && q.quad@[k as int].b < n);
        proof {
            lemma_incoming_size(q.quad@, msgs@, a as int, false, size@, k as nat);
            lemma_incoming_size(q.quad@, msgs@, a as int, true, size@, k as nat);
            lemma_incoming_size(q.quad@, msgs@, b as int, false, size@, k as nat);
            lemma_incoming_size(q.quad@, msgs@, b as int, true, size@, k as nat);
            assert(is_within(msgs@[k as int], size@));
            lemma_incoming_size(q.quad@, msgs@, a as int, false, size@, msgs@.len());
            assert(l0[a as int] == incoming(q.quad@, msgs@, a as int, false, k as nat));
            assert(h0[a as int] == incoming(q.quad@, msgs@, a as int, true, k as nat));
            assert(l0[b as int] == incoming(q.quad@, msgs@, b as int, false, k as nat));
            assert(h0[b as int] == incoming(q.quad@, msgs@, b as int, true, k as nat));
        }
        let la: i128 = low[a];
        low.set(a, la + m.to_a_low as i128);
        let ha: i128 = high[a];
        high.set(a, ha + m.to_a_high as i128);
        let lb: i128 = low[b];
        low.set(b, lb + m.to_b_low as i128);
        let hb: i128 = high[b];
        high.set(b, hb + m.to_b_high as i128);
        k += 1;
        proof {
            assert forall|v: int| 0 <= v < n implies #[trigger] low@[v] == incoming(
                q.quad@,
                msgs@,
                v,
                false,
                k as nat,
            ) by {
                assert(l0[v] == incoming(q.quad@, msgs@, v, false, (k - 1) as nat));
            }
            assert forall|v: int| 0 <= v < n implies #[trigger] high@[v] == incoming(
                q.quad@,
                msgs@,
                v,
                true,
                k as nat,
            ) by {
                assert(h0[v] == incoming(q.quad@, msgs@, v, true, (k - 1) as nat));
            }
        }
    }
    Received { low, high }
}

/// The bound that the messages give, in units.
pub fn eval_dual(q: &ReducedQuadratic, unit: i64, msgs: &Vec<Message>) -> (r: i128)
    requires
        1 <= unit <= MAX_UNIT,
        quadratic::form_fits(q),
        q.quad@.len() <= MAX_PAIRS,
        q.quad@.len() == msgs@.len(),
        forall|i: int|
            0 <= i < q.quad@.len() ==> (#[trigger] q.quad@[i]).a < q.linear@.len() && q.quad@[i].b
                < q.linear@.len(),
    ensures
        r == message_bound(q, unit as int, msgs@),
{
    dual_value(q, unit, msgs, Ghost(0x8000_0000_0000_0000))
}

/// The bound that messages of at most `size` give, in units.
pub fn dual_value(q: &ReducedQuadratic, unit: i64, msgs: &Vec<Message>, size: Ghost<int>) -> (r:
    i128)
    requires
        1 <= unit <= MAX_UNIT,
        quadratic::form_fits(q),
        are_within(msgs@, size@),
        q.quad@.len() == msgs@.len(),
        forall|i: int|
            0 <= i < q.quad@.len() ==> (#[trigger] q.quad@[i]).a < q.linear@.len() && q.quad@[i].b
                < q.linear@.len(),
    ensures
        r == message_bound(q, unit as int, msgs@),
{
    let vt: VarType = q.var_type;
    let u: i128 = unit as i128;
    let got = receive(q, msgs, size);
    let constant: i128 = q.base_offset as i128 + q.higher_order_trivial as i128;
    proof {
        assert(-0x8000_0000_0000_0000_0000_0000 <= u * constant
            <= 0x8000_0000_0000_0000_0000_0000) by (nonlinear_arith)
            requires
                1 <= u <= 1073741824,
                -0x1_0000_0000_0000_0000 <= constant <= 0x1_0000_0000_0000_0000,
        ;
    }
    let mut sum: i128 = u * constant;
    let ghost start = sum as int;
    let mut v: usize = 0;
    while v < q.linear.len()
        invariant
            v <= q.linear@.len(),
            vt == q.var_type,
            u == unit,
            1 <= unit <= MAX_UNIT,
            quadratic::form_fits(q),
            are_within(msgs@, size@),
            q.quad@.len() == msgs@.len(),
            got.low@.len() == q.linear@.len(),
            got.high@.len() == q.linear@.len(),
            forall|i: int|
                0 <= i < q.linear@.len() ==> #[trigger] got.low@[i] == incoming(
                    q.quad@,
                    msgs@,
                    i,
                    false,
                    q.quad@.len(),
                ),
            forall|i: int|
                0 <= i < q.linear@.len() ==> #[trigger] got.high@[i] == incoming(
                    q.quad@,
                    msgs@,
                    i,
                    true,
                    q.quad@.len(),
                ),
            -0x8000_0000_0000_0000_0000_0000 <= start <= 0x8000_0000_0000_0000_0000_0000,
            sum == start + state_leasts(q, unit as int, msgs@, v as nat),
        decreases q.linear@.len() - v,
    {
        proof {
            let k = q.quad@.len();
            lemma_incoming_size(q.quad@, msgs@, v as int, false, size@, k);
            lemma_incoming_size(q.quad@, msgs@, v as int, true, size@, k);
            lemma_least_sizes(q, unit as int, msgs@, size@, v as nat);
            lemma_least_sizes(q, unit as int, msgs@, size@, (v + 1) as nat);
            let c = q.linear@[v as int] as int;
            lemma_scaled_size(unit as int, c, term::bit_value(vt, false));
            lemma_scaled_size(unit as int, c, term::bit_value(vt, true));
        }
        let scaled: i128 = u * (q.linear[v] as i128);
        let low: i128 = (match vt {
            VarType::Bin => 0,
            VarType::Spin => -scaled,
        }) - got.low[v];
        let high: i128 = scaled - got.high[v];
        sum = sum + (if high < low {
            high
        } else {
            low
        });
        v += 1;
    }
    let ghost middle = sum as int;
    proof {
        lemma_least_sizes(q, unit as int, msgs@, size@, q.linear@.len());
    }
    let mut i: usize = 0;
    while i < q.quad.len()
        invariant
            i <= q.quad@.len(),
            vt == q.var_type,
            u == unit,
            1 <= unit <= MAX_UNIT,
            quadratic::form_fits(q),
            are_within(msgs@, size@),
            q.quad@.len() == msgs@.len(),
            -0x1000_0000_0000_0000_0000_0000_0000_0000 <= middle
                <= 0x1000_0000_0000_0000_0000_0000_0000_0000,
            sum == middle + pair_leasts(vt, unit as int, q.quad@, msgs@, i as nat),
        decreases q.quad@.len() - i,
    {
        let p: PairCoeff = q.quad[i];
        let m: Message = msgs[i];
        proof {
            lemma_least_sizes(q, unit as int, msgs@, size@, i as nat);
            lemma_least_sizes(q, unit as int, msgs@, size@, (i + 1) as nat);
            let c = p.coeff as int;
            let bl = term::bit_value(vt, false);
            let bh = term::bit_value(vt, true);
            assert(bl * bl == -bl && bl * bh == bl && bh * bl == bl && bh * bh == 1)
                by (nonlinear_arith)
                requires
                    bh == 1,
                    bl == 0 || bl == -1,
            ;
            lemma_scaled_size(unit as int, c, bl * bl);
            lemma_scaled_size(unit as int, c, bl * bh);
            lemma_scaled_size(unit as int, c, bh * bl);
            lemma_scaled_size(unit as int, c, bh * bh);
        }
        let scaled: i128 = u * (p.coeff as i128);
        let (equal_low, mixed): (i128, i128) = match vt {
            VarType::Bin => (0, 0),
            VarType::Spin => (scaled, -scaled),
        };
        let ll: i128 = equal_low + m.to_a_low as i128 + m.to_b_low as i128;
        let lh: i128 = mixed + m.to_a_low as i128 + m.to_b_high as i128;
        let hl: i128 = mixed + m.to_a_high as i128 + m.to_b_low as i128;
        let hh: i128 = scaled + m.to_a_high as i128 + m.to_b_high as i128;
        let l: i128 = if lh < ll {
            lh
        } else {
            ll
        };
        let h: i128 = if hh < hl {
            hh
        } else {
            hl
        };
        sum = sum + (if h < l {
            h
        } else {
            l
        });
        i += 1;
    }
    sum
}

/// The bound in whole numbers that the messages give for the quadratic form of an
/// instance under fixes; none when there is no message for some pair, there are
/// more pairs than fit in memory, or the value in units does not fit.
pub fn message_lower_bound<V: VarDomain>(
    instance: &HuboInstance<V>,
    fixes: &Fixes,
    q: &ReducedQuadratic,
    unit: i64,
    msgs: &Vec<Message>,
) -> (r: Option<i64>)
    requires
        instance.wf(),
        instance.fits(),
        fixes.wf(),
        quadratic::is_reduced_of(instance, fixes@, q),
        1 <= unit <= MAX_UNIT,
    ensures
        r matches Some(b) ==> b == unit_floor(message_bound(q, unit as int, msgs@), unit as int),
        r matches Some(b) ==> forall|y: Seq<bool>|
            y.len() == q.n_free ==> b <= instance.objective(
                #[trigger] restriction::lifted(
                    restriction::fixes_of(fixes@, instance.n() as int),
                    y,
                ),
            ),
        r is None ==> q.quad@.len() != msgs@.len() || q.quad@.len() > MAX_PAIRS || message_bound(q, unit as int, msgs@) <= i64::MIN
            || message_bound(q, unit as int, msgs@) > i64::MAX,
{
    let n: usize = instance.n_vars();
    let ghost a = choose|a: active::ActiveTerms| #[trigger]
        quadratic::is_reduced_by(instance, fixes@, &a, q);
    if q.quad.len() != msgs.len() || q.quad.len() as u64 > MAX_PAIRS {
        return None;
    }
    proof {
        quadratic::lemma_form_fits(instance, fixes@, q);
        assert forall|i: int| 0 <= i < q.quad@.len() implies (#[trigger] q.quad@[i]).a
            < q.linear@.len() && q.quad@[i].b < q.linear@.len() by {
            assert(q.quad@[i].a < q.quad@[i].b);
        }
    }
    let value: i128 = eval_dual(q, unit, msgs);
    if value <= i64::MIN as i128 || value > i64::MAX as i128 {
        return None;
    }
    let b: i64 = lagrangian::bound_of(value as i64, unit);
    proof {
        assert forall|y: Seq<bool>| y.len() == q.n_free implies b <= instance.objective(
            #[trigger] restriction::lifted(
                restriction::fixes_of(fixes@, instance.n() as int),
                y,
            ),
        ) by {
            messages_bound_objective(instance, fixes@, q, unit as int, msgs@, y);
            let o = instance.objective(
                restriction::lifted(restriction::fixes_of(fixes@, instance.n() as int), y),
            );
            assert(b <= o) by (nonlinear_arith)
                requires
                    unit * b <= value,
                    value <= unit * o,
                    unit >= 1,
            ;
        }
    }
    Some(b)
}

/// The bound in whole numbers, no lower than the least coefficient.
pub open spec fn unit_floor(value: int, unit: int) -> int {
    let b = lagrangian::unit_bound(value, unit);
    if b < i64::MIN {
        i64::MIN as int
    } else {
        b
    }
}

} // verus!
