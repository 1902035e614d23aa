//! How the dual bound depends on its multipliers, and how pieces are formed.

use crate::bounds::ascent::AscentConfig;
use crate::bounds::ascent;
use crate::bounds::clusters::{Cluster, ClusterView};
use crate::bounds::clusters;
use crate::bounds::lagrangian::{DualPoint, Piece};
use crate::bounds::lagrangian;
use crate::bounds::local_min;
use crate::bounds::subgradient::Split;
use crate::domain::{VarDomain, VarType};
use crate::instance::HuboInstance;
use crate::node::{Node, PartiallyAssignedTerm, TermPrices};
use crate::term::Term;
use crate::term;
use vstd::prelude::*;

verus! {

/// By how much a change of the first `k` multipliers of a piece from `a` to `b` counts:
/// each with the difference of the copy and its variable.
pub open spec fn piece_slope(
    vt: VarType,
    vars: Seq<usize>,
    a: Seq<i64>,
    b: Seq<i64>,
    x: Seq<bool>,
    y: Seq<bool>,
    k: nat,
) -> int
    decreases k,
{
    if k == 0 {
        0
    } else {
        piece_slope(vt, vars, a, b, x, y, (k - 1) as nat) + (b[k - 1] - a[k - 1]) * (
        term::bit_value(vt, y[k - 1]) - term::bit_value(vt, x[vars[k - 1] as int]))
    }
}

/// By how much a change of the multipliers of the first `k` pieces counts.
pub open spec fn slope(
    vt: VarType,
    pieces: Seq<Piece>,
    a: Seq<Vec<i64>>,
    b: Seq<Vec<i64>>,
    p: DualPoint,
    k: nat,
) -> int
    decreases k,
{
    if k == 0 {
        0
    } else {
        slope(vt, pieces, a, b, p, (k - 1) as nat) + piece_slope(
            vt,
            pieces[k - 1].vars@,
            a[k - 1]@,
            b[k - 1]@,
            p.x@,
            p.y@[k - 1]@,
            pieces[k - 1].vars@.len(),
        )
    }
}

proof fn lemma_piece_slope(
    vt: VarType,
    vars: Seq<usize>,
    a: Seq<i64>,
    b: Seq<i64>,
    x: Seq<bool>,
    y: Seq<bool>,
    k: nat,
)
    requires
        k <= vars.len(),
    ensures
        piece_slope(vt, vars, a, b, x, y, k) == local_min::cost_sum(vt, b, y, k)
            - local_min::cost_sum(vt, a, y, k) - local_min::cost_sum(
            vt,
            b,
            lagrangian::restrict(vars, x),
            k,
        ) + local_min::cost_sum(vt, a, lagrangian::restrict(vars, x), k),
    decreases k,
{
    if k > 0 {
        lemma_piece_slope(vt, vars, a, b, x, y, (k - 1) as nat);
        let u = b[k - 1] as int;
        let w = a[k - 1] as int;
        let p = term::bit_value(vt, y[k - 1]);
        let q = term::bit_value(vt, x[vars[k - 1] as int]);
        assert((u - w) * (p - q) == u * p - w * p - u * q + w * q) by (nonlinear_arith);
    }
}

/// The bought variables attain the floor of the prices.
proof fn lemma_bought(vt: VarType, prices: Seq<int>, x: Seq<bool>, m: nat)
    requires
        m <= prices.len(),
        forall|v: int| 0 <= v < m ==> #[trigger] x[v] == lagrangian::is_bought(vt, prices[v]),
    ensures
        lagrangian::price_floor(vt, prices, m) == -lagrangian::priced_value(vt, prices, x, m),
    decreases m,
{
    if m > 0 {
        lemma_bought(vt, prices, x, (m - 1) as nat);
        let b = term::bit_value(vt, x[m - 1]);
        let p = prices[m - 1];
        assert(p * b == if b == 0 { 0 } else if b == 1 { p } else { -p }) by (nonlinear_arith)
            requires
                b == 0 || b == 1 || b == -1,
        ;
        assert(x[m - 1] == lagrangian::is_bought(vt, p));
    }
}

/// The values of the first `k` pieces at the copies of a point, with multipliers.
spec fn copies_at(
    vt: VarType,
    n: nat,
    unit: int,
    pieces: Seq<Piece>,
    mus: Seq<Vec<i64>>,
    p: DualPoint,
    k: nat,
) -> int
    decreases k,
{
    if k == 0 {
        0
    } else {
        copies_at(vt, n, unit, pieces, mus, p, (k - 1) as nat) + lagrangian::piece_value(
            vt,
            unit,
            pieces[k - 1],
            mus[k - 1]@,
            lagrangian::spread(pieces[k - 1].vars@, p.y@[k - 1]@, n),
        )
    }
}

proof fn lemma_copies(
    vt: VarType,
    n: nat,
    unit: int,
    pieces: Seq<Piece>,
    a: Seq<Vec<i64>>,
    b: Seq<Vec<i64>>,
    p: DualPoint,
    k: nat,
)
    requires
        k <= pieces.len(),
        unit >= 1,
        lagrangian::are_priced(n, pieces, a),
        lagrangian::are_priced(n, pieces, b),
        p.y@.len() == pieces.len(),
        forall|i: int|
            0 <= i < pieces.len() ==> (#[trigger] p.y@[i])@.len() == pieces[i].vars@.len()
                && lagrangian::piece_value(
                vt,
                unit,
                pieces[i],
                a[i]@,
                lagrangian::spread(pieces[i].vars@, p.y@[i]@, n),
            ) == lagrangian::least_value(vt, n, unit, pieces[i], a[i]@),
    ensures
        lagrangian::piece_floors(vt, n, unit, pieces, a, k) == copies_at(
            vt,
            n,
            unit,
            pieces,
            a,
            p,
            k,
        ),
        lagrangian::piece_floors(vt, n, unit, pieces, b, k) <= copies_at(
            vt,
            n,
            unit,
            pieces,
            b,
            p,
            k,
        ),
        copies_at(vt, n, unit, pieces, b, p, k) - copies_at(vt, n, unit, pieces, a, p, k)
            - lagrangian::copies_value(vt, pieces, b, p.x@, k) + lagrangian::copies_value(
            vt,
            pieces,
            a,
            p.x@,
            k,
        ) == slope(vt, pieces, a, b, p, k),
    decreases k,
{
    if k > 0 {
        lemma_copies(vt, n, unit, pieces, a, b, p, (k - 1) as nat);
        let q = pieces[k - 1];
        let y = p.y@[k - 1]@;
        let z = lagrangian::spread(q.vars@, y, n);
        assert(lagrangian::is_piece(n, pieces[k - 1]));
        assert(a[k - 1]@.len() == q.vars@.len() && b[k - 1]@.len() == q.vars@.len());
        lagrangian::lemma_least_exists(vt, n, unit, q, b[k - 1]@);
        lagrangian::lemma_least_below(vt, n, unit, q, b[k - 1]@, z);
        lagrangian::lemma_restrict_spread(q.vars@, y, n);
        lemma_piece_slope(vt, q.vars@, a[k - 1]@, b[k - 1]@, p.x@, y, q.vars@.len());
    }
}

/// The differences of the copies and their variables at a point are a slope of the
/// bound: at any other multipliers the bound is no larger than the slope allows.
pub proof fn differences_are_a_slope(
    vt: VarType,
    n: nat,
    unit: int,
    constant: int,
    by_enumeration: bool,
    pieces: Seq<Piece>,
    mus: Seq<Vec<i64>>,
    other: Seq<Vec<i64>>,
    p: DualPoint,
)
    requires
        unit >= 1,
        lagrangian::are_priced(n, pieces, mus),
        lagrangian::are_priced(n, pieces, other),
        lagrangian::are_minimizers(vt, n, unit, by_enumeration, pieces, mus, p),
    ensures
        lagrangian::dual_total(vt, n, unit, constant, pieces, other) <= lagrangian::dual_total(
            vt,
            n,
            unit,
            constant,
            pieces,
            mus,
        ) + slope(vt, pieces, mus, other, p, pieces.len()),
{
    let k = pieces.len();
    let here = lagrangian::all_prices(pieces, mus, n, k);
    let there = lagrangian::all_prices(pieces, other, n, k);
    lagrangian::lemma_prices(vt, n, pieces, mus, p.x@, k);
    lagrangian::lemma_prices(vt, n, pieces, other, p.x@, k);
    lagrangian::lemma_price_floor(vt, there, p.x@, n);
    assert forall|v: int| 0 <= v < n implies #[trigger] p.x@[v] == lagrangian::is_bought(
        vt,
        here[v],
    ) by {}
    lemma_bought(vt, here, p.x@, n);
    lemma_copies(vt, n, unit, pieces, mus, other, p, k);
}

proof fn lemma_same_poly(vt: VarType, terms: Seq<Term>, vars: Seq<usize>, x: Seq<bool>, z: Seq<bool>)
    requires
        forall|i: int|
            0 <= i < terms.len() ==> lagrangian::is_within((#[trigger] terms[i]).indices@, vars),
        forall|j: int| 0 <= j < vars.len() ==> x[#[trigger] vars[j] as int] == z[vars[j] as int],
    ensures
        term::poly(vt, terms, x) == term::poly(vt, terms, z),
    decreases terms.len(),
{
    if terms.len() > 0 {
        let d = terms.drop_last();
        assert forall|i: int| 0 <= i < d.len() implies lagrangian::is_within(
            (#[trigger] d[i]).indices@,
            vars,
        ) by {
            assert(d[i] == terms[i]);
        }
        lemma_same_poly(vt, d, vars, x, z);
        assert(lagrangian::is_within(terms[terms.len() - 1].indices@, vars));
        lemma_same_monomial(vt, terms.last().indices@, vars, x, z);
    }
}

proof fn lemma_same_monomial(
    vt: VarType,
    idx: Seq<usize>,
    vars: Seq<usize>,
    x: Seq<bool>,
    z: Seq<bool>,
)
    requires
        lagrangian::is_within(idx, vars),
        forall|j: int| 0 <= j < vars.len() ==> x[#[trigger] vars[j] as int] == z[vars[j] as int],
    ensures
        term::monomial(vt, idx, x) == term::monomial(vt, idx, z),
    decreases idx.len(),
{
    if idx.len() > 0 {
        let d = idx.drop_last();
        assert forall|j: int| 0 <= j < d.len() implies vars.contains(#[trigger] d[j]) by {
            assert(d[j] == idx[j]);
        }
        lemma_same_monomial(vt, d, vars, x, z);
        assert(vars.contains(idx[idx.len() - 1]));
        let j = vars.index_of(idx.last());
        assert(x[vars[j] as int] == z[vars[j] as int]);
    }
}

proof fn lemma_agreeing(
    vt: VarType,
    n: nat,
    unit: int,
    pieces: Seq<Piece>,
    mus: Seq<Vec<i64>>,
    p: DualPoint,
    k: nat,
)
    requires
        k <= pieces.len(),
        lagrangian::are_priced(n, pieces, mus),
        p.x@.len() == n,
        p.y@.len() == pieces.len(),
        forall|i: int|
            0 <= i < pieces.len() ==> (#[trigger] p.y@[i])@ == lagrangian::restrict(
                pieces[i].vars@,
                p.x@,
            ),
    ensures
        copies_at(vt, n, unit, pieces, mus, p, k) - lagrangian::copies_value(
            vt,
            pieces,
            mus,
            p.x@,
            k,
        ) == unit * lagrangian::pieces_value(vt, pieces, p.x@, k),
    decreases k,
{
    if k > 0 {
        lemma_agreeing(vt, n, unit, pieces, mus, p, (k - 1) as nat);
        let q = pieces[k - 1];
        let y = p.y@[k - 1]@;
        let z = lagrangian::spread(q.vars@, y, n);
        assert(lagrangian::is_piece(n, pieces[k - 1]));
        assert(y == lagrangian::restrict(q.vars@, p.x@));
        lagrangian::lemma_restrict_spread(q.vars@, y, n);
        let r = lagrangian::restrict(q.vars@, z);
        assert forall|j: int| 0 <= j < q.vars@.len() implies z[#[trigger] q.vars@[j] as int]
            == p.x@[q.vars@[j] as int] by {
            assert(r[j] == y[j]);
        }
        lemma_same_poly(vt, q.terms@, q.vars@, z, p.x@);
        let u = lagrangian::pieces_value(vt, pieces, p.x@, (k - 1) as nat);
        let w = term::poly(vt, q.terms@, p.x@);
        assert(unit * (u + w) == unit * u + unit * w) by (nonlinear_arith);
    } else {
        assert(unit * 0 == 0) by (nonlinear_arith);
    }
}

/// Where all copies agree with their variables, the bound is the value of the pieces
/// there: nothing is lost.
pub proof fn agreeing_copies_are_exact(
    vt: VarType,
    n: nat,
    unit: int,
    constant: int,
    by_enumeration: bool,
    pieces: Seq<Piece>,
    mus: Seq<Vec<i64>>,
    p: DualPoint,
)
    requires
        unit >= 1,
        lagrangian::are_priced(n, pieces, mus),
        lagrangian::are_minimizers(vt, n, unit, by_enumeration, pieces, mus, p),
        forall|i: int|
            0 <= i < pieces.len() ==> (#[trigger] p.y@[i])@ == lagrangian::restrict(
                pieces[i].vars@,
                p.x@,
            ),
    ensures
        lagrangian::dual_total(vt, n, unit, constant, pieces, mus) == unit * (constant
            + lagrangian::pieces_value(vt, pieces, p.x@, pieces.len())),
{
    let k = pieces.len();
    let here = lagrangian::all_prices(pieces, mus, n, k);
    lagrangian::lemma_prices(vt, n, pieces, mus, p.x@, k);
    assert forall|v: int| 0 <= v < n implies #[trigger] p.x@[v] == lagrangian::is_bought(
        vt,
        here[v],
    ) by {}
    lemma_bought(vt, here, p.x@, n);
    lemma_copies(vt, n, unit, pieces, mus, mus, p, k);
    lemma_agreeing(vt, n, unit, pieces, mus, p, k);
    let w = lagrangian::pieces_value(vt, pieces, p.x@, k);
    assert(unit * (constant + w) == unit * constant + unit * w) by (nonlinear_arith);
}

/// The squared differences of the first `k` copies of a piece and their variables.
pub open spec fn squares(
    vt: VarType,
    vars: Seq<usize>,
    x: Seq<bool>,
    y: Seq<bool>,
    k: nat,
) -> int
    decreases k,
{
    if k == 0 {
        0
    } else {
        let d = term::bit_value(vt, y[k - 1]) - term::bit_value(vt, x[vars[k - 1] as int]);
        squares(vt, vars, x, y, (k - 1) as nat) + d * d
    }
}

/// The squared differences of the first `k` pieces.
pub open spec fn all_squares(vt: VarType, pieces: Seq<Piece>, p: DualPoint, k: nat) -> int
    decreases k,
{
    if k == 0 {
        0
    } else {
        all_squares(vt, pieces, p, (k - 1) as nat) + squares(
            vt,
            pieces[k - 1].vars@,
            p.x@,
            p.y@[k - 1]@,
            pieces[k - 1].vars@.len(),
        )
    }
}

proof fn lemma_squares(
    vt: VarType,
    vars: Seq<usize>,
    a: Seq<i64>,
    b: Seq<i64>,
    x: Seq<bool>,
    y: Seq<bool>,
    alpha: int,
    k: nat,
)
    requires
        k <= vars.len(),
        ascent::is_moved(vt, vars, a, x, y, alpha, b),
    ensures
        piece_slope(vt, vars, a, b, x, y, k) == alpha * squares(vt, vars, x, y, k),
        squares(vt, vars, x, y, k) == ascent::differing(vars, x, y, k) * (match vt {
            VarType::Bin => 1int,
            VarType::Spin => 4,
        }),
    decreases k,
{
    if k > 0 {
        lemma_squares(vt, vars, a, b, x, y, alpha, (k - 1) as nat);
        let d = term::bit_value(vt, y[k - 1]) - term::bit_value(vt, x[vars[k - 1] as int]);
        assert(b[k - 1] == a[k - 1] + alpha * d);
        let s = squares(vt, vars, x, y, (k - 1) as nat);
        assert(alpha * d * d + alpha * s == alpha * (s + d * d)) by (nonlinear_arith);
        assert(d * d == if d == 0 { 0 } else if d == 1 || d == -1 { 1 } else { 4int })
            by (nonlinear_arith)
            requires
                d == 0 || d == 1 || d == -1 || d == 2 || d == -2,
        ;
    } else {
        assert(alpha * 0 == 0) by (nonlinear_arith);
    }
}

proof fn lemma_all_squares(
    vt: VarType,
    pieces: Seq<Piece>,
    a: Seq<Vec<i64>>,
    b: Seq<Vec<i64>>,
    p: DualPoint,
    alpha: int,
    k: nat,
)
    requires
        k <= pieces.len(),
        ascent::are_moved(vt, pieces, a, p, alpha, b),
    ensures
        slope(vt, pieces, a, b, p, k) == alpha * all_squares(vt, pieces, p, k),
        all_squares(vt, pieces, p, k) == ascent::all_differing(pieces, p, k) * (match vt {
            VarType::Bin => 1int,
            VarType::Spin => 4,
        }),
    decreases k,
{
    if k > 0 {
        lemma_all_squares(vt, pieces, a, b, p, alpha, (k - 1) as nat);
        let q = pieces[k - 1];
        assert(ascent::is_moved(vt, q.vars@, a[k - 1]@, p.x@, p.y@[k - 1]@, alpha, b[k - 1]@));
        lemma_squares(
            vt,
            q.vars@,
            a[k - 1]@,
            b[k - 1]@,
            p.x@,
            p.y@[k - 1]@,
            alpha,
            q.vars@.len(),
        );
        let u = all_squares(vt, pieces, p, (k - 1) as nat);
        let w = squares(vt, q.vars@, p.x@, p.y@[k - 1]@, q.vars@.len());
        assert(alpha * (u + w) == alpha * u + alpha * w) by (nonlinear_arith);
    } else {
        assert(alpha * 0 == 0) by (nonlinear_arith);
    }
}

/// A step of an ascent goes up its slope, by the configured share of the gap to the
/// value to reach: rounded down to a whole multiple of the squared differences, in
/// units.
pub proof fn steps_go_up_the_slope<V: VarDomain>(
    instance: &HuboInstance<V>,
    node: &Node,
    d: Split,
    cfg: AscentConfig,
    unit: int,
    incumbent: Option<i64>,
    trace: Seq<Vec<Vec<i64>>>,
    points: Seq<DualPoint>,
    k: int,
)
    requires
        unit >= 1,
        ascent::is_path(instance, node, d, cfg, unit, incumbent, trace, points),
        0 <= k < trace.len() - 1,
    ensures
        ({
            let p = points[k];
            let rise = slope(V::tag(), d.pieces@, trace[k]@, trace[k + 1]@, p, d.pieces@.len());
            let length = all_squares(V::tag(), d.pieces@, p, d.pieces@.len());
            let share = ascent::share_at(cfg, unit, k as nat);
            let gap = unit * ascent::target_value(instance, node, p.x@, incumbent) - p.value;
            &&& 0 <= rise
            &&& unit * rise <= share * gap < unit * (rise + length)
        }),
{
    let vt = V::tag();
    let p = points[k];
    let m = d.pieces@.len();
    let share = ascent::share_at(cfg, unit, k as nat);
    let gap = ascent::gap_at(instance, node, unit, incumbent, p);
    assert(ascent::moves_at(instance, node, d, cfg, unit, incumbent, points[k], k as nat));
    let alpha = ascent::length_at(instance, node, d, cfg, unit, incumbent, p, k as nat);
    lemma_all_squares(vt, d.pieces@, trace[k]@, trace[k + 1]@, p, alpha, m);
    let length = all_squares(vt, d.pieces@, p, m);
    assert(length == ascent::squared_length(vt, d.pieces@, p));
    let total = share * gap;
    let by = unit * length;
    assert(total > 0 && by > 0) by (nonlinear_arith)
        requires
            total == share * gap,
            by == unit * length,
            share > 0,
            gap > 0,
            unit >= 1,
            length > 0,
    ;
    vstd::arithmetic::div_mod::lemma_fundamental_div_mod(total, by);
    vstd::arithmetic::div_mod::lemma_mod_bound(total, by);
    assert(alpha == total / by);
    assert(alpha >= 0) by (nonlinear_arith)
        requires
            alpha == total / by,
            total > 0,
            by > 0,
    ;
    assert(alpha * length >= 0) by (nonlinear_arith)
        requires
            alpha >= 0,
            length > 0,
    ;
    assert(unit * (alpha * length) == by * alpha) by (nonlinear_arith)
        requires
            by == unit * length,
    ;
    assert(unit * (alpha * length + length) == by * alpha + by) by (nonlinear_arith)
        requires
            by == unit * length,
    ;
}

/// Each step closes a smaller share of the gap than the one before, or the same.
pub proof fn shares_do_not_grow(cfg: AscentConfig, unit: int, k: nat)
    requires
        unit >= 1,
    ensures
        0 <= ascent::share_at(cfg, unit, k + 1) <= ascent::share_at(cfg, unit, k),
        cfg.step_decay >= unit ==> ascent::share_at(cfg, unit, k + 1) == ascent::share_at(
            cfg,
            unit,
            k,
        ),
    decreases k,
{
    if k > 0 {
        shares_do_not_grow(cfg, unit, (k - 1) as nat);
    }
    let s = ascent::share_at(cfg, unit, k);
    let c = ascent::clamped(cfg.step_decay as int, unit);
    assert(0 <= s * c <= s * unit) by (nonlinear_arith)
        requires
            0 <= s,
            0 <= c <= unit,
    ;
    assert(0 <= s * c / unit <= s) by (nonlinear_arith)
        requires
            0 <= s * c <= s * unit,
            unit >= 1,
    ;
    if c == unit {
        assert(s * unit / unit == s) by (nonlinear_arith)
            requires
                unit >= 1,
        ;
    }
}

/// The clusters before any is added are apart from what comes next: a later cluster
/// holds a term that does not fit into an earlier one.
proof fn lemma_packed_apart(
    s: Seq<Option<PartiallyAssignedTerm>>,
    order: Seq<usize>,
    max_vars: int,
    k: nat,
)
    requires
        k <= order.len(),
    ensures
        forall|i: int|
            0 <= i < clusters::packed(s, order, max_vars, k).len() ==> (
            #[trigger] clusters::packed(s, order, max_vars, k)[i]).vars.finite(),
        forall|i: int, j: int|
            0 <= i < j < clusters::packed(s, order, max_vars, k).len() ==> (
            #[trigger] clusters::packed(s, order, max_vars, k)[i]).vars.union(
                (#[trigger] clusters::packed(s, order, max_vars, k)[j]).vars,
            ).len() > max_vars,
    decreases k,
{
    if k > 0 {
        lemma_packed_apart(s, order, max_vars, (k - 1) as nat);
        let before = clusters::packed(s, order, max_vars, (k - 1) as nat);
        let after = clusters::packed(s, order, max_vars, k);
        let id = order[k - 1];
        let tv = s[id as int]->0.free_variables@.to_set();
        if clusters::arity(s, id) <= max_vars {
            let f = clusters::first_fit(before, tv, max_vars, 0);
            lemma_first_fit(before, tv, max_vars, 0);
            vstd::seq_lib::seq_to_set_is_finite(s[id as int]->0.free_variables@);
            assert forall|i: int, j: int| 0 <= i < j < after.len() implies (
            #[trigger] after[i]).vars.union((#[trigger] after[j]).vars).len() > max_vars by {
                let u = after[i].vars.union(after[j].vars);
                if j < before.len() {
                    let w = before[i].vars.union(before[j].vars);
                    assert(w.len() > max_vars);
                    assert(w.subset_of(u));
                    vstd::set_lib::lemma_len_subset(w, u);
                } else {
                    assert(before[i].vars.union(tv).len() > max_vars);
                }
            }
        }
    }
}

proof fn lemma_first_fit(views: Seq<ClusterView>, tv: Set<usize>, max_vars: int, i: int)
    requires
        0 <= i <= views.len(),
    ensures
        i <= clusters::first_fit(views, tv, max_vars, i) <= views.len(),
        forall|j: int|
            i <= j < clusters::first_fit(views, tv, max_vars, i) ==> (
            #[trigger] views[j]).vars.union(tv).len() > max_vars,
    decreases views.len() - i,
{
    if i < views.len() && views[i].vars.union(tv).len() > max_vars {
        lemma_first_fit(views, tv, max_vars, i + 1);
    }
}

/// No two clusters fit into one: together they have more variables than a cluster
/// may have.
pub proof fn no_two_clusters_fit_together(
    s: Seq<Option<PartiallyAssignedTerm>>,
    order: Seq<usize>,
    max_vars: int,
    groups: Seq<Cluster>,
    skipped: Seq<usize>,
    i: int,
    j: int,
)
    requires
        clusters::are_clusters(s, order, max_vars, groups, skipped),
        0 <= i < j < groups.len(),
    ensures
        groups[i].vars@.to_set().union(groups[j].vars@.to_set()).len() > max_vars,
{
    lemma_packed_apart(s, order, max_vars, order.len());
    let views = clusters::cluster_views(groups);
    assert(views[i].vars == groups[i].vars@.to_set());
    assert(views[j].vars == groups[j].vars@.to_set());
}

/// The terms left out of the clusters are those with more variables than a cluster may
/// have.
pub proof fn only_large_terms_are_left_out(
    s: Seq<Option<PartiallyAssignedTerm>>,
    order: Seq<usize>,
    max_vars: int,
    k: nat,
    t: usize,
)
    requires
        k <= order.len(),
    ensures
        clusters::left_out(s, order, max_vars, k).contains(t) <==> order.take(k as int).contains(t)
            && s[t as int]->0.free_variables@.len() > max_vars,
    decreases k,
{
    let r = clusters::left_out(s, order, max_vars, k);
    let o = order.take(k as int);
    if k > 0 {
        let p = clusters::left_out(s, order, max_vars, (k - 1) as nat);
        let q = order.take(k - 1);
        only_large_terms_are_left_out(s, order, max_vars, (k - 1) as nat, t);
        if p.contains(t) {
            let i = p.index_of(t);
            assert(r[i] == t);
        }
        if q.contains(t) {
            let i = q.index_of(t);
            assert(o[i] == t);
        }
        if o.contains(t) && order[k - 1] != t {
            let i = o.index_of(t);
            assert(q[i] == t);
        }
        if order[k - 1] == t {
            assert(o[k - 1] == t);
            if clusters::arity(s, t) > max_vars {
                assert(r[r.len() - 1] == t);
            }
        }
        if r.contains(t) {
            let i = r.index_of(t);
            if i < p.len() {
                assert(p[i] == t);
            }
        }
    }
}

proof fn lemma_price_in(prices: Seq<(usize, i64)>, v: usize, j: int, k: nat)
    requires
        0 <= j < k <= prices.len(),
        prices[j].0 == v,
        forall|i: int| 0 <= i < prices.len() && i != j ==> (#[trigger] prices[i]).0 != v,
    ensures
        ascent::price_in(prices, v, k) == prices[j].1,
    decreases k,
{
    if j < k - 1 {
        assert(prices[k - 1].0 != v);
        lemma_price_in(prices, v, j, (k - 1) as nat);
    }
}

proof fn lemma_known_price(known: Seq<TermPrices>, t: usize, v: usize, i: int, k: nat)
    requires
        0 <= i < k <= known.len(),
        known[i].term == t,
        forall|j: int| 0 <= j < known.len() && j != i ==> (#[trigger] known[j]).term != t,
    ensures
        ascent::known_price(known, t, v, k) == ascent::price_in(
            known[i].prices@,
            v,
            known[i].prices@.len(),
        ),
    decreases k,
{
    if i < k - 1 {
        assert(known[k - 1].term != t);
        lemma_known_price(known, t, v, i, (k - 1) as nat);
    }
}

/// Multipliers that are handed on by term and variable are taken up again as they were.
pub proof fn listed_prices_are_taken_up(
    ids: Seq<usize>,
    pieces: Seq<Piece>,
    mus: Seq<Vec<i64>>,
    handed: Seq<TermPrices>,
)
    requires
        ids.len() == pieces.len(),
        mus.len() == pieces.len(),
        ids.no_duplicates(),
        forall|i: int|
            0 <= i < pieces.len() ==> (#[trigger] pieces[i]).vars@.no_duplicates() && mus[i]@.len()
                == pieces[i].vars@.len(),
        ascent::are_listed(ids, pieces, mus, handed),
    ensures
        ascent::are_known(handed, ids, pieces, mus),
{
    assert forall|i: int| 0 <= i < pieces.len() implies ascent::is_known(
        handed,
        ids[i],
        pieces[i].vars@,
        (#[trigger] mus[i])@,
    ) by {
        let vars = pieces[i].vars@;
        let prices = handed[i].prices@;
        assert(handed[i].term == ids[i]);
        assert(ascent::is_zip(vars, mus[i]@, prices));
        assert forall|j: int| 0 <= j < vars.len() implies #[trigger] mus[i]@[j]
            == ascent::known_price(handed, ids[i], vars[j], handed.len()) by {
            assert forall|q: int| 0 <= q < handed.len() && q != i implies (
            #[trigger] handed[q]).term != ids[i] by {
                assert(handed[q].term == ids[q]);
            }
            lemma_known_price(handed, ids[i], vars[j], i, handed.len());
            assert(prices[j] == (vars[j], mus[i]@[j]));
            assert forall|q: int| 0 <= q < prices.len() && q != j implies (#[trigger] prices[q]).0
                != vars[j] by {
                assert(prices[q] == (vars[q], mus[i]@[q]));
            }
            lemma_price_in(prices, vars[j], j, prices.len());
        }
    }
}

} // verus!
