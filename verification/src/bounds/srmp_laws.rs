//! What the passes over the tables of terms reach.

use crate::bounds::factor;
use crate::bounds::srmp::{Reparam, UnaryState};
use crate::bounds::srmp;
use vstd::prelude::*;

verus! {

/// A settled table has zero as the least entry of both halves.
proof fn lemma_settled_halves(t: Seq<int>, k: nat, i: nat, high: bool)
    requires
        factor::is_table(t, k),
        i < k,
    ensures
        factor::least(factor::settled(t, i), Some((i, high))) == 0,
{
    let s = factor::settled(t, i);
    let part = Some((i, high));
    factor::lemma_halves(t, k, i);
    let h = factor::least(t, part);
    let m = choose|m: int| 0 <= m < t.len() && factor::in_part(m, part) && #[trigger] t[m] == h;
    assert(s[m] == 0);
    assert forall|q: int| 0 <= q < s.len() && factor::in_part(q, part) implies 0
        <= #[trigger] s[q] by {
        assert(h <= t[q]);
    }
    assert(factor::is_least(s, part, s.len() as int, 0));
    factor::lemma_least_unique(s, part, 0);
}

/// Moving the least costs of a table to one of its variables takes all that there is to
/// take: moving them once more changes nothing.
pub proof fn moving_costs_takes_all(st: Reparam, fi: int, li: int)
    requires
        srmp::is_state(st),
        0 <= fi < st.factors.len(),
        0 <= li < st.factors[fi].vars.len(),
    ensures
        srmp::edge(srmp::edge(st, fi, li), fi, li) == srmp::edge(st, fi, li),
        factor::least(srmp::edge(st, fi, li).factors[fi].table, Some((li as nat, false))) == 0,
        factor::least(srmp::edge(st, fi, li).factors[fi].table, Some((li as nat, true))) == 0,
{
    let f = st.factors[fi];
    assert(srmp::is_factor_ok(f, st.unary.len()));
    lemma_settled_halves(f.table, f.vars.len(), li as nat, false);
    lemma_settled_halves(f.table, f.vars.len(), li as nat, true);
    let e = srmp::edge(st, fi, li);
    let g = srmp::edge(e, fi, li);
    let v = f.vars[li] as int;
    assert(v < st.unary.len());
    assert(factor::settled(e.factors[fi].table, li as nat) =~= e.factors[fi].table);
    assert(g.factors =~= e.factors);
    assert(g.unary =~= e.unary);
}

/// The passes never give less than the best bound so far, nor less than the bound after
/// the next pass.
pub proof fn rounds_keep_the_best(
    st: Reparam,
    base: int,
    best: int,
    ub: Option<i64>,
    tol: i64,
    left: nat,
)
    ensures
        srmp::best_of_rounds(st, base, best, ub, tol, left) >= best,
        left > 0 ==> srmp::best_of_rounds(st, base, best, ub, tol, left) >= base + srmp::dual(
            srmp::forward(st, st.factors.len()),
        ),
    decreases left,
{
    if left > 0 {
        let st1 = srmp::forward(st, st.factors.len());
        let best1 = srmp::larger(best, base + srmp::dual(st1));
        let st2 = srmp::backward(st1, st1.factors.len());
        let best2 = srmp::larger(best1, base + srmp::dual(st2));
        rounds_keep_the_best(st2, base, best2, ub, tol, (left - 1) as nat);
    }
}

/// Every table has one variable.
pub open spec fn is_single(st: Reparam) -> bool {
    forall|f: int| 0 <= f < st.factors.len() ==> (#[trigger] st.factors[f]).vars.len() == 1
}

proof fn lemma_single_table(t: Seq<int>)
    requires
        factor::is_table(t, 1),
    ensures
        factor::settled(t, 0) == seq![0int, 0int],
{
    reveal_with_fuel(factor::place, 2);
    assert(t.len() == 2);
    let s = factor::settled(t, 0);
    assert(!factor::bit_at(0, 0) && factor::bit_at(1, 0));
    factor::lemma_halves(t, 1, 0);
    assert(factor::in_part(0, Some((0, false))));
    assert(factor::in_part(1, Some((0, true))));
    let low = factor::least(t, Some((0, false)));
    let high = factor::least(t, Some((0, true)));
    assert(low <= t[0] && high <= t[1]);
    let m = choose|m: int|
        0 <= m < 2 && factor::in_part(m, Some((0, false))) && #[trigger] t[m] == low;
    let q = choose|q: int|
        0 <= q < 2 && factor::in_part(q, Some((0, true))) && #[trigger] t[q] == high;
    assert(m == 0 && q == 1);
    assert(s =~= seq![0int, 0int]);
}

proof fn lemma_single_forward(st: Reparam, x: Seq<bool>, k: nat)
    requires
        srmp::is_state(st),
        is_single(st),
        k <= st.factors.len(),
    ensures
        srmp::is_state(srmp::forward(st, k)),
        is_single(srmp::forward(st, k)),
        srmp::forward(st, k).factors.len() == st.factors.len(),
        srmp::forward(st, k).unary.len() == st.unary.len(),
        srmp::state_value(srmp::forward(st, k), x) == srmp::state_value(st, x),
        forall|f: int|
            0 <= f < k ==> (#[trigger] srmp::forward(st, k).factors[f]).table == seq![0int, 0int],
    decreases k,
{
    if k > 0 {
        lemma_single_forward(st, x, (k - 1) as nat);
        let before = srmp::forward(st, (k - 1) as nat);
        let fi = k - 1;
        assert(st.factors[fi].vars.len() == 1);
        let after = srmp::forward(st, k);
        reveal_with_fuel(srmp::forward_edges, 2);
        assert(before.factors[fi].vars.len() == 1);
        assert(after == srmp::edge(before, fi, 0));
        srmp::edge_keeps_value(before, fi, 0, x);
        let f = before.factors[fi];
        assert(srmp::is_factor_ok(before.factors[fi], before.unary.len()));
        lemma_single_table(f.table);
        assert forall|g: int| 0 <= g < after.factors.len() implies srmp::is_factor_ok(
            #[trigger] after.factors[g],
            after.unary.len(),
        ) && after.factors[g].vars.len() == 1 by {
            assert(srmp::is_factor_ok(before.factors[g], before.unary.len()));
            assert(before.factors[g].vars.len() == 1);
            reveal_with_fuel(factor::place, 2);
        }
        assert forall|g: int| 0 <= g < k implies (#[trigger] after.factors[g]).table == seq![
            0int,
            0int,
        ] by {
            if g < k - 1 {
                assert(before.factors[g].table == seq![0int, 0int]);
            }
        }
    }
}

/// The cheaper state of every variable.
spec fn cheapest(us: Seq<UnaryState>) -> Seq<bool> {
    Seq::new(us.len(), |v: int| us[v].high < us[v].low)
}

proof fn lemma_cheapest(us: Seq<UnaryState>, k: nat)
    requires
        k <= us.len(),
    ensures
        srmp::unary_values(us, cheapest(us), k) == srmp::unary_mins(us, k),
    decreases k,
{
    if k > 0 {
        lemma_cheapest(us, (k - 1) as nat);
    }
}

proof fn lemma_empty_tables(st: Reparam, x: Seq<bool>, k: nat)
    requires
        k <= st.factors.len(),
        is_single(st),
        forall|f: int|
            0 <= f < st.factors.len() ==> (#[trigger] st.factors[f]).table == seq![0int, 0int],
    ensures
        srmp::table_values(st.factors, x, k) == 0,
        srmp::table_mins(st.factors, k) == 0,
    decreases k,
{
    if k > 0 {
        lemma_empty_tables(st, x, (k - 1) as nat);
        let f = st.factors[k - 1];
        assert(f.vars.len() == 1);
        factor::lemma_mask(f.vars, x);
        reveal_with_fuel(factor::place, 2);
        assert(f.table[0] == 0 && f.table[1] == 0);
        assert(factor::in_part(0, None));
        assert(factor::is_least(f.table, None, 2, 0)) by {
            assert(f.table[0] == 0);
        }
        factor::lemma_least_unique(f.table, None, 0);
    }
}

/// Where every table has one variable, one pass is enough: the bound after it is the
/// cost of an assignment, so the least cost.
pub proof fn single_tables_are_exact(st: Reparam) -> (x: Seq<bool>)
    requires
        srmp::is_state(st),
        is_single(st),
    ensures
        x.len() == st.unary.len(),
        srmp::dual(srmp::forward(st, st.factors.len())) == srmp::state_value(st, x),
        forall|y: Seq<bool>| srmp::state_value(st, x) <= #[trigger] srmp::state_value(st, y),
{
    let k = st.factors.len();
    let end = srmp::forward(st, k);
    let x = cheapest(end.unary);
    lemma_single_forward(st, x, k);
    lemma_empty_tables(end, x, k);
    lemma_cheapest(end.unary, end.unary.len());
    assert forall|y: Seq<bool>| srmp::state_value(st, x) <= #[trigger] srmp::state_value(st, y) by {
        lemma_single_forward(st, y, k);
        srmp::dual_is_below(end, y);
    }
    x
}

} // verus!
