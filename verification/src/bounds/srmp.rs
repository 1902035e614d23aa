//! A lower bound by sequential message passing between the cost tables of the
//! terms and the costs of single variables.

use crate::bounds::cheap;
use crate::bounds::factor;
use crate::coeff;
use crate::domain::{VarDomain, VarType};
use crate::fixes;
use crate::instance::HuboInstance;
use crate::lists;
use crate::node::{Node, PartiallyAssignedTerm};
use crate::node;
use crate::term;
use vstd::prelude::*;

verus! {

/// Parameters of the bound.
#[derive(Debug, Clone, Copy)]
pub struct Srmp {
    /// The most rounds of a forward and a backward pass.
    pub max_iter: usize,
    /// The passes end once the bound is this close to the incumbent.
    pub optimality_tol: i64,
    /// Terms with more free variables get their least value instead of a table.
    pub max_arity: usize,
}

impl Default for Srmp {
    fn default() -> (r: Self)
        ensures
            r.max_iter == 20,
            r.optimality_tol == 0,
            r.max_arity == 15,
    {
        Srmp { max_iter: 20, optimality_tol: 0, max_arity: 15 }
    }
}

/// A term with its cost table: bit `j` of an index is the state of
/// `global_vars[j]`.
pub struct Factor {
    pub global_vars: Vec<usize>,
    pub table: Vec<i128>,
}

/// The costs of the two states of a variable.
#[derive(Debug, Clone, Copy)]
pub struct Unary {
    pub low: i128,
    pub high: i128,
}

/// A cost table over some variables.
pub struct FactorState {
    pub vars: Seq<usize>,
    pub table: Seq<int>,
}

/// The costs of the states of a variable.
pub struct UnaryState {
    pub low: int,
    pub high: int,
}

/// The costs as they are distributed over tables and variables.
pub struct Reparam {
    pub factors: Seq<FactorState>,
    pub unary: Seq<UnaryState>,
}

/// The costs that the tables and variables hold.
pub open spec fn state_of(fs: Seq<Factor>, us: Seq<Unary>) -> Reparam {
    Reparam {
        factors: Seq::new(
            fs.len(),
            |i: int|
                FactorState {
                    vars: fs[i].global_vars@,
                    table: factor::entries(fs[i].table@),
                },
        ),
        unary: Seq::new(
            us.len(),
            |v: int| UnaryState { low: us[v].low as int, high: us[v].high as int },
        ),
    }
}

/// Every table has the size that its variables ask for.
pub open spec fn is_state(st: Reparam) -> bool {
    forall|f: int| 0 <= f < st.factors.len() ==> is_factor_ok(#[trigger] st.factors[f], st.unary.len())
}

/// A table over at least one and not too many of the variables below `n`.
pub open spec fn is_factor_ok(f: FactorState, n: nat) -> bool {
    &&& 1 <= f.vars.len() <= factor::MAX_FACTOR_ARITY
    &&& factor::is_table(f.table, f.vars.len())
    &&& forall|j: int| 0 <= j < f.vars.len() ==> (#[trigger] f.vars[j]) < n
}

/// The cost of a state of a variable.
pub open spec fn cost(u: UnaryState, high: bool) -> int {
    if high {
        u.high
    } else {
        u.low
    }
}

/// The smaller cost of a variable.
pub open spec fn min_cost(u: UnaryState) -> int {
    if u.high < u.low {
        u.high
    } else {
        u.low
    }
}

/// Move the least costs of both halves of table `fi`, for its variable `li`, to
/// that variable.
pub open spec fn edge(st: Reparam, fi: int, li: int) -> Reparam {
    let f = st.factors[fi];
    let v = f.vars[li] as int;
    let u = st.unary[v];
    Reparam {
        factors: st.factors.update(
            fi,
            FactorState { vars: f.vars, table: factor::settled(f.table, li as nat) },
        ),
        unary: st.unary.update(
            v,
            UnaryState {
                low: u.low + factor::least(f.table, Some((li as nat, false))),
                high: u.high + factor::least(f.table, Some((li as nat, true))),
            },
        ),
    }
}

/// The first `k` variables of table `fi`, in order.
pub open spec fn forward_edges(st: Reparam, fi: int, k: nat) -> Reparam
    decreases k,
{
    if k == 0 {
        st
    } else {
        edge(forward_edges(st, fi, (k - 1) as nat), fi, k - 1)
    }
}

/// The first `k` tables, in order.
pub open spec fn forward(st: Reparam, k: nat) -> Reparam
    decreases k,
{
    if k == 0 {
        st
    } else {
        forward_edges(
            forward(st, (k - 1) as nat),
            k - 1,
            st.factors[k - 1].vars.len(),
        )
    }
}

/// The `k` last of the `len` variables of table `fi`, last first.
pub open spec fn backward_edges(st: Reparam, fi: int, len: nat, k: nat) -> Reparam
    decreases k,
{
    if k == 0 {
        st
    } else {
        edge(backward_edges(st, fi, len, (k - 1) as nat), fi, len - k)
    }
}

/// The `k` last tables, last first.
pub open spec fn backward(st: Reparam, k: nat) -> Reparam
    decreases k,
{
    if k == 0 {
        st
    } else {
        let fi = st.factors.len() - k;
        let len = st.factors[fi].vars.len();
        backward_edges(backward(st, (k - 1) as nat), fi, len, len)
    }
}

/// The values of the first `k` tables at an assignment.
pub open spec fn table_values(fs: Seq<FactorState>, x: Seq<bool>, k: nat) -> int
    decreases k,
{
    if k == 0 {
        0
    } else {
        table_values(fs, x, (k - 1) as nat) + fs[k - 1].table[factor::mask_of(fs[k - 1].vars, x)]
    }
}

/// The costs of the first `k` variables at an assignment.
pub open spec fn unary_values(us: Seq<UnaryState>, x: Seq<bool>, k: nat) -> int
    decreases k,
{
    if k == 0 {
        0
    } else {
        unary_values(us, x, (k - 1) as nat) + cost(us[k - 1], x[k - 1])
    }
}

/// The cost of an assignment.
pub open spec fn state_value(st: Reparam, x: Seq<bool>) -> int {
    table_values(st.factors, x, st.factors.len()) + unary_values(st.unary, x, st.unary.len())
}

/// The least entries of the first `k` tables.
pub open spec fn table_mins(fs: Seq<FactorState>, k: nat) -> int
    decreases k,
{
    if k == 0 {
        0
    } else {
        table_mins(fs, (k - 1) as nat) + factor::least(fs[k - 1].table, None)
    }
}

/// The smaller costs of the first `k` variables.
pub open spec fn unary_mins(us: Seq<UnaryState>, k: nat) -> int
    decreases k,
{
    if k == 0 {
        0
    } else {
        unary_mins(us, (k - 1) as nat) + min_cost(us[k - 1])
    }
}

/// The bound that a distribution of the costs gives.
pub open spec fn dual(st: Reparam) -> int {
    table_mins(st.factors, st.factors.len()) + unary_mins(st.unary, st.unary.len())
}

proof fn lemma_tables_update(fs: Seq<FactorState>, fi: int, f: FactorState, x: Seq<bool>, k: nat)
    requires
        0 <= fi < fs.len(),
        k <= fs.len(),
    ensures
        table_values(fs.update(fi, f), x, k) == table_values(fs, x, k) + (if fi < k {
            f.table[factor::mask_of(f.vars, x)] - fs[fi].table[factor::mask_of(fs[fi].vars, x)]
        } else {
            0
        }),
        table_mins(fs.update(fi, f), k) == table_mins(fs, k) + (if fi < k {
            factor::least(f.table, None) - factor::least(fs[fi].table, None)
        } else {
            0
        }),
    decreases k,
{
    if k > 0 {
        lemma_tables_update(fs, fi, f, x, (k - 1) as nat);
    }
}

proof fn lemma_unary_update(us: Seq<UnaryState>, v: int, u: UnaryState, x: Seq<bool>, k: nat)
    requires
        0 <= v < us.len(),
        k <= us.len(),
    ensures
        unary_values(us.update(v, u), x, k) == unary_values(us, x, k) + (if v < k {
            cost(u, x[v]) - cost(us[v], x[v])
        } else {
            0
        }),
        unary_mins(us.update(v, u), k) == unary_mins(us, k) + (if v < k {
            min_cost(u) - min_cost(us[v])
        } else {
            0
        }),
    decreases k,
{
    if k > 0 {
        lemma_unary_update(us, v, u, x, (k - 1) as nat);
    }
}

/// Moving costs keeps the sizes of the tables, and moves nothing else.
pub proof fn lemma_edge_state(st: Reparam, fi: int, li: int)
    requires
        is_state(st),
        0 <= fi < st.factors.len(),
        0 <= li < st.factors[fi].vars.len(),
    ensures
        is_state(edge(st, fi, li)),
        edge(st, fi, li).factors.len() == st.factors.len(),
        edge(st, fi, li).unary.len() == st.unary.len(),
        forall|f: int|
            0 <= f < st.factors.len() ==> (#[trigger] edge(st, fi, li).factors[f]).vars
                == st.factors[f].vars,
{
    let e = edge(st, fi, li);
    assert forall|f: int| 0 <= f < e.factors.len() implies is_factor_ok(
        #[trigger] e.factors[f],
        e.unary.len(),
    ) by {
        assert(is_factor_ok(st.factors[f], st.unary.len()));
    }
}

/// Moving costs keeps the cost of every assignment.
pub proof fn edge_keeps_value(st: Reparam, fi: int, li: int, x: Seq<bool>)
    requires
        is_state(st),
        0 <= fi < st.factors.len(),
        0 <= li < st.factors[fi].vars.len(),
    ensures
        state_value(edge(st, fi, li), x) == state_value(st, x),
{
    let e = edge(st, fi, li);
    let f = st.factors[fi];
    assert(is_factor_ok(f, st.unary.len()));
    let v = f.vars[li] as int;
    assert(v < st.unary.len());
    lemma_tables_update(st.factors, fi, e.factors[fi], x, st.factors.len());
    lemma_unary_update(st.unary, v, e.unary[v], x, st.unary.len());
    factor::lemma_mask(f.vars, x);
    factor::lemma_mask_bit(f.vars, x, li as nat);
}

/// Moving costs never lowers the bound.
pub proof fn edge_raises_dual(st: Reparam, fi: int, li: int)
    requires
        is_state(st),
        0 <= fi < st.factors.len(),
        0 <= li < st.factors[fi].vars.len(),
    ensures
        dual(st) <= dual(edge(st, fi, li)),
{
    let e = edge(st, fi, li);
    let f = st.factors[fi];
    assert(is_factor_ok(f, st.unary.len()));
    let v = f.vars[li] as int;
    assert(v < st.unary.len());
    let x = Seq::<bool>::empty();
    lemma_tables_update(st.factors, fi, e.factors[fi], x, st.factors.len());
    lemma_unary_update(st.unary, v, e.unary[v], x, st.unary.len());
    factor::settled_has_zero(f.table, f.vars.len(), li as nat);
    factor::lemma_least_of_halves(f.table, f.vars.len(), li as nat);
}

proof fn lemma_mins_below(st: Reparam, x: Seq<bool>, k: nat)
    requires
        is_state(st),
    ensures
        k <= st.factors.len() ==> table_mins(st.factors, k) <= table_values(st.factors, x, k),
        k <= st.unary.len() ==> unary_mins(st.unary, k) <= unary_values(st.unary, x, k),
    decreases k,
{
    if k > 0 {
        lemma_mins_below(st, x, (k - 1) as nat);
        if k <= st.factors.len() {
            let f = st.factors[k - 1];
            assert(is_factor_ok(f, st.unary.len()));
            factor::lemma_mask(f.vars, x);
            factor::lemma_halves(f.table, f.vars.len(), 0);
            assert(factor::in_part(factor::mask_of(f.vars, x), None));
        }
    }
}

/// The bound is at most the cost of every assignment.
pub proof fn dual_is_below(st: Reparam, x: Seq<bool>)
    requires
        is_state(st),
    ensures
        dual(st) <= state_value(st, x),
{
    lemma_mins_below(st, x, st.factors.len());
    lemma_mins_below(st, x, st.unary.len());
}

/// What the tables that start with variable `v`, among the first `k`, may take
/// from its costs.
spec fn allowance(fs: Seq<FactorState>, caps: Seq<int>, v: int, k: nat) -> int
    decreases k,
{
    if k == 0 {
        0
    } else {
        allowance(fs, caps, v, (k - 1) as nat) + (if fs[k - 1].vars[0] == v {
            caps[k - 1]
        } else {
            0
        })
    }
}

/// The allowances of the first `m` variables.
spec fn allowances(fs: Seq<FactorState>, caps: Seq<int>, m: nat, k: nat) -> int
    decreases m,
{
    if m == 0 {
        0
    } else {
        allowances(fs, caps, (m - 1) as nat, k) + allowance(fs, caps, m - 1, k)
    }
}

/// The first `k` sizes, in all.
spec fn cap_sum(caps: Seq<int>, k: nat) -> int
    decreases k,
{
    if k == 0 {
        0
    } else {
        cap_sum(caps, (k - 1) as nat) + caps[k - 1]
    }
}

/// The entries of a table in terms of the size of its term, before and after its
/// first move.
spec fn is_within(t: Seq<int>, cap: int, moved: bool) -> bool {
    forall|m: int|
        0 <= m < t.len() ==> (if moved {
            0 <= #[trigger] t[m] <= 2 * cap
        } else {
            -cap <= t[m] <= cap
        })
}

/// The costs stay small: the first `t` tables have moved costs, the others not
/// yet.
spec fn is_bounded(st: Reparam, caps: Seq<int>, t: int) -> bool {
    &&& caps.len() == st.factors.len()
    &&& 0 <= t <= caps.len()
    &&& forall|f: int| 0 <= f < caps.len() ==> 0 <= #[trigger] caps[f]
    &&& forall|f: int|
        0 <= f < st.factors.len() ==> is_within((#[trigger] st.factors[f]).table, caps[f], f < t)
    &&& forall|v: int|
        0 <= v < st.unary.len() ==> -allowance(st.factors, caps, v, t as nat) <= (
        #[trigger] st.unary[v]).low
    &&& forall|v: int|
        0 <= v < st.unary.len() ==> -allowance(st.factors, caps, v, t as nat) <= (
        #[trigger] st.unary[v]).high
    &&& forall|x: Seq<bool>| #[trigger] state_value(st, x) <= cap_sum(caps, caps.len())
}

proof fn lemma_allowance_same(a: Seq<FactorState>, b: Seq<FactorState>, caps: Seq<int>, v: int, k: nat)
    requires
        a.len() == b.len(),
        k <= a.len(),
        forall|f: int| 0 <= f < a.len() ==> (#[trigger] a[f]).vars == b[f].vars,
    ensures
        allowance(a, caps, v, k) == allowance(b, caps, v, k),
    decreases k,
{
    if k > 0 {
        lemma_allowance_same(a, b, caps, v, (k - 1) as nat);
        assert(a[k - 1].vars == b[k - 1].vars);
    }
}

proof fn lemma_allowances_step(fs: Seq<FactorState>, caps: Seq<int>, m: nat, k: nat)
    requires
        0 < k <= caps.len(),
        caps[k - 1] >= 0,
    ensures
        allowances(fs, caps, m, k) == allowances(fs, caps, m, (k - 1) as nat) + (if 0
            <= fs[k - 1].vars[0] < m {
            caps[k - 1]
        } else {
            0
        }),
    decreases m,
{
    if m > 0 {
        lemma_allowances_step(fs, caps, (m - 1) as nat, k);
    }
}

proof fn lemma_allowances_none(fs: Seq<FactorState>, caps: Seq<int>, m: nat)
    ensures
        allowances(fs, caps, m, 0) == 0,
    decreases m,
{
    if m > 0 {
        lemma_allowances_none(fs, caps, (m - 1) as nat);
    }
}

proof fn lemma_allowances(fs: Seq<FactorState>, caps: Seq<int>, m: nat, k: nat)
    requires
        k <= caps.len(),
        forall|f: int| 0 <= f < caps.len() ==> 0 <= #[trigger] caps[f],
    ensures
        0 <= allowances(fs, caps, m, k) <= cap_sum(caps, k),
    decreases k,
{
    if k == 0 {
        lemma_allowances_none(fs, caps, m);
    } else {
        assert(caps[k - 1] >= 0);
        lemma_allowances(fs, caps, m, (k - 1) as nat);
        lemma_allowances_step(fs, caps, m, k);
    }
}

proof fn lemma_cap_sum(caps: Seq<int>, j: nat, k: nat)
    requires
        j <= k <= caps.len(),
        forall|f: int| 0 <= f < caps.len() ==> 0 <= #[trigger] caps[f],
    ensures
        0 <= cap_sum(caps, j) <= cap_sum(caps, k),
        j < k ==> cap_sum(caps, j) + caps[j as int] <= cap_sum(caps, k),
    decreases k,
{
    if k > 0 {
        assert(caps[k - 1] >= 0);
        if j < k {
            lemma_cap_sum(caps, j, (k - 1) as nat);
        } else {
            lemma_cap_sum(caps, (j - 1) as nat, (k - 1) as nat);
        }
    }
}

proof fn lemma_edge_bounded(st: Reparam, caps: Seq<int>, t: int, fi: int, li: int)
    requires
        is_state(st),
        is_bounded(st, caps, t),
        0 <= fi < st.factors.len(),
        0 <= li < st.factors[fi].vars.len(),
        fi < t || (fi == t && li == 0),
    ensures
        is_bounded(
            edge(st, fi, li),
            caps,
            if fi < t {
                t
            } else {
                t + 1
            },
        ),
{
    let e = edge(st, fi, li);
    let t1 = if fi < t {
        t
    } else {
        t + 1
    };
    let f = st.factors[fi];
    let v = f.vars[li] as int;
    lemma_edge_state(st, fi, li);
    assert(is_factor_ok(f, st.unary.len()));
    assert(is_within(f.table, caps[fi], fi < t));
    factor::lemma_halves(f.table, f.vars.len(), li as nat);
    factor::settled_has_zero(f.table, f.vars.len(), li as nat);
    let h0 = factor::least(f.table, Some((li as nat, false)));
    let h1 = factor::least(f.table, Some((li as nat, true)));
    assert(caps[fi] >= 0);
    assert(is_within(e.factors[fi].table, caps[fi], true)) by {
        let s = factor::settled(f.table, li as nat);
        assert forall|m: int| 0 <= m < s.len() implies 0 <= #[trigger] s[m] <= 2 * caps[fi] by {
            assert(f.table[m] == f.table[m]);
        }
    }
    assert forall|g: int| 0 <= g < e.factors.len() implies is_within(
        (#[trigger] e.factors[g]).table,
        caps[g],
        g < t1,
    ) by {
        assert(is_within(st.factors[g].table, caps[g], g < t));
    }
    assert forall|w: int| 0 <= w < e.unary.len() implies -allowance(
        e.factors,
        caps,
        w,
        t1 as nat,
    ) <= (#[trigger] e.unary[w]).low && -allowance(e.factors, caps, w, t1 as nat)
        <= e.unary[w].high by {
        assert(-allowance(st.factors, caps, w, t as nat) <= st.unary[w].low);
        assert(-allowance(st.factors, caps, w, t as nat) <= st.unary[w].high);
        lemma_allowance_same(st.factors, e.factors, caps, w, t as nat);
        lemma_allowance_same(st.factors, e.factors, caps, w, t1 as nat);
    }
    assert forall|x: Seq<bool>| #[trigger] state_value(e, x) <= cap_sum(caps, caps.len()) by {
        edge_keeps_value(st, fi, li, x);
    }
}

proof fn lemma_table_values_low(st: Reparam, caps: Seq<int>, t: int, x: Seq<bool>, k: nat)
    requires
        is_state(st),
        is_bounded(st, caps, t),
        k <= st.factors.len(),
    ensures
        -cap_sum(caps, k) <= table_values(st.factors, x, k),
        -cap_sum(caps, k) <= table_mins(st.factors, k) <= 2 * cap_sum(caps, k),
    decreases k,
{
    if k > 0 {
        lemma_table_values_low(st, caps, t, x, (k - 1) as nat);
        let f = st.factors[k - 1];
        assert(is_factor_ok(f, st.unary.len()));
        assert(is_within(f.table, caps[k - 1], k - 1 < t));
        assert(caps[k - 1] >= 0);
        factor::lemma_mask(f.vars, x);
        factor::lemma_halves(f.table, f.vars.len(), 0);
    }
}

proof fn lemma_unary_values_low(st: Reparam, caps: Seq<int>, t: int, x: Seq<bool>, j: nat, k: nat)
    requires
        is_bounded(st, caps, t),
        j <= k <= st.unary.len(),
    ensures
        -(allowances(st.factors, caps, k, t as nat) - allowances(st.factors, caps, j, t as nat))
            <= unary_values(st.unary, x, k) - unary_values(st.unary, x, j),
    decreases k,
{
    if j < k {
        lemma_unary_values_low(st, caps, t, x, j, (k - 1) as nat);
        assert(-allowance(st.factors, caps, k - 1, t as nat) <= st.unary[k - 1].low);
        assert(-allowance(st.factors, caps, k - 1, t as nat) <= st.unary[k - 1].high);
    }
}

/// The costs of the first `k` variables are small at every assignment.
proof fn lemma_unary_values_small(st: Reparam, caps: Seq<int>, t: int, x: Seq<bool>, k: nat)
    requires
        is_state(st),
        is_bounded(st, caps, t),
        k <= st.unary.len(),
    ensures
        -cap_sum(caps, caps.len()) <= unary_values(st.unary, x, k) <= 3 * cap_sum(
            caps,
            caps.len(),
        ),
        0 <= cap_sum(caps, caps.len()),
{
    let n = st.unary.len();
    let s = cap_sum(caps, caps.len());
    lemma_cap_sum(caps, t as nat, caps.len());
    lemma_cap_sum(caps, 0, caps.len());
    lemma_allowances(st.factors, caps, n, t as nat);
    lemma_allowances(st.factors, caps, k, t as nat);
    lemma_unary_values_low(st, caps, t, x, k, n);
    lemma_unary_values_low(st, caps, t, x, 0, k);
    lemma_allowances(st.factors, caps, 0, t as nat);
    lemma_table_values_low(st, caps, t, x, st.factors.len());
    assert(state_value(st, x) <= s);
}

/// The costs of one variable are small.
proof fn lemma_unary_small(st: Reparam, caps: Seq<int>, t: int, v: int)
    requires
        is_state(st),
        is_bounded(st, caps, t),
        0 <= v < st.unary.len(),
    ensures
        -4 * cap_sum(caps, caps.len()) <= st.unary[v].low <= 4 * cap_sum(caps, caps.len()),
        -4 * cap_sum(caps, caps.len()) <= st.unary[v].high <= 4 * cap_sum(caps, caps.len()),
{
    let x0 = Seq::new(st.unary.len(), |i: int| false);
    let x1 = Seq::new(st.unary.len(), |i: int| true);
    lemma_unary_values_small(st, caps, t, x0, v as nat);
    lemma_unary_values_small(st, caps, t, x0, (v + 1) as nat);
    lemma_unary_values_small(st, caps, t, x1, v as nat);
    lemma_unary_values_small(st, caps, t, x1, (v + 1) as nat);
}

/// The assignment that takes the smaller cost of every variable.
spec fn cheapest(us: Seq<UnaryState>) -> Seq<bool> {
    Seq::new(us.len(), |i: int| us[i].high < us[i].low)
}

proof fn lemma_cheapest(us: Seq<UnaryState>, k: nat)
    requires
        k <= us.len(),
    ensures
        unary_values(us, cheapest(us), k) == unary_mins(us, k),
    decreases k,
{
    if k > 0 {
        lemma_cheapest(us, (k - 1) as nat);
    }
}

/// Move the least costs of both halves of table `fi` to its variable `li`.
fn update_edge(
    factors: &mut Vec<Factor>,
    unary: &mut Vec<Unary>,
    fi: usize,
    li: usize,
    Ghost(caps): Ghost<Seq<int>>,
    Ghost(t): Ghost<int>,
)
    requires
        is_state(state_of(old(factors)@, old(unary)@)),
        is_bounded(state_of(old(factors)@, old(unary)@), caps, t),
        cap_sum(caps, caps.len()) <= i64::MAX,
        fi < old(factors)@.len(),
        li < old(factors)@[fi as int].global_vars@.len(),
        fi < t || (fi == t && li == 0),
    ensures
        state_of(final(factors)@, final(unary)@) == edge(
            state_of(old(factors)@, old(unary)@),
            fi as int,
            li as int,
        ),
{
    let ghost st = state_of(factors@, unary@);
    let ghost e = edge(st, fi as int, li as int);
    let ghost f = st.factors[fi as int];
    let ghost fs0 = factors@;
    let k: usize = factors[fi].global_vars.len();
    let v: usize = factors[fi].global_vars[li];
    proof {
        assert(is_factor_ok(f, st.unary.len()));
        assert(f.vars[li as int] == v);
        assert(is_within(f.table, caps[fi as int], fi < t));
        lemma_cap_sum(caps, fi as nat, caps.len());
        assert(caps[fi as int] <= i64::MAX) by {
            lemma_cap_sum(caps, 0, fi as nat);
        }
        assert forall|m: int| 0 <= m < factors@[fi as int].table@.len() implies -i64::MAX
            <= #[trigger] factors@[fi as int].table@[m] <= 2 * i64::MAX by {
            assert(f.table[m] == factors@[fi as int].table@[m]);
            assert(caps[fi as int] >= 0);
        }
        lemma_edge_bounded(st, caps, t, fi as int, li as int);
        lemma_edge_state(st, fi as int, li as int);
        let t1 = if fi < t {
            t
        } else {
            t + 1
        };
        lemma_unary_small(e, caps, t1, v as int);
    }
    let (h0, h1) = factor::settle(&mut factors[fi].table, k, li);
    let u: Unary = unary[v];
    unary.set(v, Unary { low: u.low + h0, high: u.high + h1 });
    proof {
        let r = state_of(factors@, unary@);
        assert forall|g: int| 0 <= g < fs0.len() implies r.factors[g] == e.factors[g] by {
            if g == fi {
                assert(factors@[g].global_vars@ == fs0[g].global_vars@);
            }
        }
        assert(r.factors =~= e.factors);
        assert(r.unary =~= e.unary);
    }
}

/// The same tables over the same variables.
spec fn same_shape(a: Reparam, b: Reparam) -> bool {
    &&& a.factors.len() == b.factors.len()
    &&& a.unary.len() == b.unary.len()
    &&& forall|f: int|
        0 <= f < a.factors.len() ==> (#[trigger] a.factors[f]).vars == b.factors[f].vars
}

/// All tables in order, and the variables of each in order.
fn forward_pass(factors: &mut Vec<Factor>, unary: &mut Vec<Unary>, Ghost(caps): Ghost<Seq<int>>, Ghost(t0): Ghost<int>)
    requires
        is_state(state_of(old(factors)@, old(unary)@)),
        is_bounded(state_of(old(factors)@, old(unary)@), caps, t0),
        cap_sum(caps, caps.len()) <= i64::MAX,
    ensures
        state_of(final(factors)@, final(unary)@) == forward(
            state_of(old(factors)@, old(unary)@),
            old(factors)@.len(),
        ),
        is_state(state_of(final(factors)@, final(unary)@)),
        is_bounded(state_of(final(factors)@, final(unary)@), caps, caps.len() as int),
        final(factors)@.len() == old(factors)@.len(),
        final(unary)@.len() == old(unary)@.len(),
        dual(state_of(old(factors)@, old(unary)@)) <= dual(
            state_of(final(factors)@, final(unary)@),
        ),
        forall|x: Seq<bool>| #[trigger]
            state_value(state_of(final(factors)@, final(unary)@), x) == state_value(
                state_of(old(factors)@, old(unary)@),
                x,
            ),
{
    let ghost st0 = state_of(factors@, unary@);
    let ghost mut t: int = t0;
    let n: usize = factors.len();
    let mut fi: usize = 0;
    while fi < n
        invariant
            fi <= n == st0.factors.len(),
            factors@.len() == n,
            state_of(factors@, unary@) == forward(st0, fi as nat),
            is_state(state_of(factors@, unary@)),
            is_bounded(state_of(factors@, unary@), caps, t),
            fi <= t,
            cap_sum(caps, caps.len()) <= i64::MAX,
            same_shape(st0, state_of(factors@, unary@)),
            dual(st0) <= dual(state_of(factors@, unary@)),
            forall|x: Seq<bool>| #[trigger]
                state_value(state_of(factors@, unary@), x) == state_value(st0, x),
        decreases n - fi,
    {
        let ghost st1 = state_of(factors@, unary@);
        let len: usize = factors[fi].global_vars.len();
        let mut li: usize = 0;
        assert(st1.factors[fi as int].vars == st0.factors[fi as int].vars);
        while li < len
            invariant
                li <= len,
                fi < n == st0.factors.len(),
                factors@.len() == n,
                len == st0.factors[fi as int].vars.len(),
                state_of(factors@, unary@) == forward_edges(st1, fi as int, li as nat),
                is_state(state_of(factors@, unary@)),
                is_bounded(state_of(factors@, unary@), caps, t),
                fi <= t,
                li > 0 ==> fi < t,
                cap_sum(caps, caps.len()) <= i64::MAX,
                same_shape(st0, state_of(factors@, unary@)),
                dual(st0) <= dual(state_of(factors@, unary@)),
                forall|x: Seq<bool>| #[trigger]
                    state_value(state_of(factors@, unary@), x) == state_value(st0, x),
            decreases len - li,
        {
            let ghost st = state_of(factors@, unary@);
            let ghost e = edge(st, fi as int, li as int);
            proof {
                assert(st.factors[fi as int].vars == st0.factors[fi as int].vars);
                assert(st.factors[fi as int].vars == factors@[fi as int].global_vars@);
            }
            update_edge(factors, unary, fi, li, Ghost(caps), Ghost(t));
            proof {
                lemma_edge_state(st, fi as int, li as int);
                lemma_edge_bounded(st, caps, t, fi as int, li as int);
                edge_raises_dual(st, fi as int, li as int);
                assert forall|x: Seq<bool>| #[trigger] state_value(e, x) == state_value(st0, x) by {
                    edge_keeps_value(st, fi as int, li as int, x);
                    assert(state_value(st, x) == state_value(st0, x));
                }
                if fi >= t {
                    t = t + 1;
                }
            }
            li += 1;
        }
        proof {
            assert(is_factor_ok(st1.factors[fi as int], st1.unary.len()));
        }
        fi += 1;
    }
}

/// All tables from the last to the first, and the variables of each from the
/// last to the first.
fn backward_pass(factors: &mut Vec<Factor>, unary: &mut Vec<Unary>, Ghost(caps): Ghost<Seq<int>>)
    requires
        is_state(state_of(old(factors)@, old(unary)@)),
        is_bounded(state_of(old(factors)@, old(unary)@), caps, caps.len() as int),
        cap_sum(caps, caps.len()) <= i64::MAX,
    ensures
        state_of(final(factors)@, final(unary)@) == backward(
            state_of(old(factors)@, old(unary)@),
            old(factors)@.len(),
        ),
        is_state(state_of(final(factors)@, final(unary)@)),
        is_bounded(state_of(final(factors)@, final(unary)@), caps, caps.len() as int),
        final(factors)@.len() == old(factors)@.len(),
        final(unary)@.len() == old(unary)@.len(),
        dual(state_of(old(factors)@, old(unary)@)) <= dual(
            state_of(final(factors)@, final(unary)@),
        ),
        forall|x: Seq<bool>| #[trigger]
            state_value(state_of(final(factors)@, final(unary)@), x) == state_value(
                state_of(old(factors)@, old(unary)@),
                x,
            ),
{
    let ghost st0 = state_of(factors@, unary@);
    let ghost t: int = caps.len() as int;
    let n: usize = factors.len();
    let mut fi: usize = n;
    while fi > 0
        invariant
            fi <= n == st0.factors.len(),
            factors@.len() == n,
            t == caps.len(),
            state_of(factors@, unary@) == backward(st0, (n - fi) as nat),
            is_state(state_of(factors@, unary@)),
            is_bounded(state_of(factors@, unary@), caps, t),
            cap_sum(caps, caps.len()) <= i64::MAX,
            same_shape(st0, state_of(factors@, unary@)),
            dual(st0) <= dual(state_of(factors@, unary@)),
            forall|x: Seq<bool>| #[trigger]
                state_value(state_of(factors@, unary@), x) == state_value(st0, x),
        decreases fi,
    {
        fi -= 1;
        let ghost st1 = state_of(factors@, unary@);
        let len: usize = factors[fi].global_vars.len();
        let mut li: usize = len;
        assert(st1.factors[fi as int].vars == st0.factors[fi as int].vars);
        while li > 0
            invariant
                li <= len,
                fi < n == st0.factors.len(),
                factors@.len() == n,
                t == caps.len(),
                len == st0.factors[fi as int].vars.len(),
                state_of(factors@, unary@) == backward_edges(
                    st1,
                    fi as int,
                    len as nat,
                    (len - li) as nat,
                ),
                is_state(state_of(factors@, unary@)),
                is_bounded(state_of(factors@, unary@), caps, t),
                cap_sum(caps, caps.len()) <= i64::MAX,
                same_shape(st0, state_of(factors@, unary@)),
                dual(st0) <= dual(state_of(factors@, unary@)),
                forall|x: Seq<bool>| #[trigger]
                    state_value(state_of(factors@, unary@), x) == state_value(st0, x),
            decreases li,
        {
            li -= 1;
            let ghost st = state_of(factors@, unary@);
            let ghost e = edge(st, fi as int, li as int);
            proof {
                assert(st.factors[fi as int].vars == st0.factors[fi as int].vars);
                assert(st.factors[fi as int].vars == factors@[fi as int].global_vars@);
            }
            update_edge(factors, unary, fi, li, Ghost(caps), Ghost(t));
            proof {
                lemma_edge_state(st, fi as int, li as int);
                lemma_edge_bounded(st, caps, t, fi as int, li as int);
                edge_raises_dual(st, fi as int, li as int);
                assert forall|x: Seq<bool>| #[trigger] state_value(e, x) == state_value(st0, x) by {
                    edge_keeps_value(st, fi as int, li as int, x);
                    assert(state_value(st, x) == state_value(st0, x));
                }
            }
        }
    }
}

/// The bound that the costs give, from a fixed part on.
fn dual_bound(
    factors: &Vec<Factor>,
    unary: &Vec<Unary>,
    base: i128,
    Ghost(caps): Ghost<Seq<int>>,
    Ghost(t): Ghost<int>,
) -> (r: i128)
    requires
        is_state(state_of(factors@, unary@)),
        is_bounded(state_of(factors@, unary@), caps, t),
        cap_sum(caps, caps.len()) <= i64::MAX,
        i64::MIN <= base <= i64::MAX,
    ensures
        r == base + dual(state_of(factors@, unary@)),
{
    let ghost st = state_of(factors@, unary@);
    let ghost s = cap_sum(caps, caps.len());
    let ghost x = cheapest(st.unary);
    let mut d: i128 = base;
    let mut i: usize = 0;
    while i < factors.len()
        invariant
            i <= factors@.len(),
            st == state_of(factors@, unary@),
            is_state(st),
            is_bounded(st, caps, t),
            cap_sum(caps, caps.len()) <= i64::MAX,
            i64::MIN <= base <= i64::MAX,
            d == base + table_mins(st.factors, i as nat),
        decreases factors@.len() - i,
    {
        proof {
            lemma_table_values_low(st, caps, t, x, i as nat);
            lemma_table_values_low(st, caps, t, x, (i + 1) as nat);
            lemma_cap_sum(caps, i as nat, caps.len());
            lemma_cap_sum(caps, (i + 1) as nat, caps.len());
            let f = st.factors[i as int];
            assert(is_factor_ok(f, st.unary.len()));
            factor::lemma_place_positive(f.vars.len());
            assert(f.table == factor::entries(factors@[i as int].table@));
        }
        d = d + factor::least_entry(&factors[i].table);
        i += 1;
    }
    proof {
        lemma_table_values_low(st, caps, t, x, st.factors.len());
    }
    let mut v: usize = 0;
    while v < unary.len()
        invariant
            v <= unary@.len(),
            st == state_of(factors@, unary@),
            is_state(st),
            is_bounded(st, caps, t),
            x == cheapest(st.unary),
            cap_sum(caps, caps.len()) <= i64::MAX,
            i64::MIN <= base <= i64::MAX,
            -cap_sum(caps, caps.len()) <= table_mins(st.factors, st.factors.len()) <= 2 * cap_sum(
                caps,
                caps.len(),
            ),
            d == base + table_mins(st.factors, st.factors.len()) + unary_mins(st.unary, v as nat),
        decreases unary@.len() - v,
    {
        proof {
            lemma_cheapest(st.unary, v as nat);
            lemma_cheapest(st.unary, (v + 1) as nat);
            lemma_unary_values_small(st, caps, t, x, v as nat);
            lemma_unary_values_small(st, caps, t, x, (v + 1) as nat);
            assert(st.unary[v as int].low == unary@[v as int].low);
        }
        let u: Unary = unary[v];
        d = d + (if u.high < u.low {
            u.high
        } else {
            u.low
        });
        v += 1;
    }
    d
}

/// The bound is close enough to the incumbent.
pub open spec fn is_close(best: int, ub: Option<i64>, tol: i64) -> bool {
    ub matches Some(u) && best >= u - tol
}

/// The larger of two numbers.
pub open spec fn larger(a: int, b: int) -> int {
    if b > a {
        b
    } else {
        a
    }
}

/// The best bound after at most `left` more rounds of a forward and a backward
/// pass, which end once the bound is close to the incumbent.
pub open spec fn best_of_rounds(
    st: Reparam,
    base: int,
    best: int,
    ub: Option<i64>,
    tol: i64,
    left: nat,
) -> int
    decreases left,
{
    if left == 0 {
        best
    } else {
        let st1 = forward(st, st.factors.len());
        let best1 = larger(best, base + dual(st1));
        let st2 = backward(st1, st1.factors.len());
        let best2 = larger(best1, base + dual(st2));
        if is_close(best1, ub, tol) {
            best1
        } else if is_close(best2, ub, tol) {
            best2
        } else {
            best_of_rounds(st2, base, best2, ub, tol, (left - 1) as nat)
        }
    }
}

/// Whether the bound is close enough to the incumbent.
fn close(best: i128, incumbent_ub: Option<i64>, tol: i64) -> (r: bool)
    ensures
        r == is_close(best as int, incumbent_ub, tol),
{
    match incumbent_ub {
        Some(u) => best >= u as i128 - tol as i128,
        None => false,
    }
}

/// Pass costs until the rounds are used up or the bound is close to the
/// incumbent.
fn run_rounds(
    factors: &mut Vec<Factor>,
    unary: &mut Vec<Unary>,
    base: i128,
    incumbent_ub: Option<i64>,
    tol: i64,
    rounds: usize,
    Ghost(caps): Ghost<Seq<int>>,
) -> (r: i128)
    requires
        is_state(state_of(old(factors)@, old(unary)@)),
        is_bounded(state_of(old(factors)@, old(unary)@), caps, 0),
        cap_sum(caps, caps.len()) <= i64::MAX,
        i64::MIN <= base <= i64::MAX,
    ensures
        r == best_of_rounds(
            state_of(old(factors)@, old(unary)@),
            base as int,
            base + dual(state_of(old(factors)@, old(unary)@)),
            incumbent_ub,
            tol,
            rounds as nat,
        ),
        base + dual(state_of(old(factors)@, old(unary)@)) <= r,
        forall|x: Seq<bool>|
            r <= base + #[trigger] state_value(state_of(old(factors)@, old(unary)@), x),
{
    let ghost st0 = state_of(factors@, unary@);
    let mut best: i128 = dual_bound(factors, unary, base, Ghost(caps), Ghost(0));
    let ghost best0 = best as int;
    let mut left: usize = rounds;
    let ghost mut t: int = 0;
    proof {
        assert forall|x: Seq<bool>| best <= base + #[trigger] state_value(st0, x) by {
            dual_is_below(st0, x);
        }
    }
    while left > 0
        invariant
            left <= rounds,
            st0 == state_of(old(factors)@, old(unary)@),
            best0 == base + dual(st0),
            is_state(state_of(factors@, unary@)),
            is_bounded(state_of(factors@, unary@), caps, t),
            cap_sum(caps, caps.len()) <= i64::MAX,
            i64::MIN <= base <= i64::MAX,
            best0 <= best,
            best_of_rounds(st0, base as int, best0, incumbent_ub, tol, rounds as nat)
                == best_of_rounds(
                state_of(factors@, unary@),
                base as int,
                best as int,
                incumbent_ub,
                tol,
                left as nat,
            ),
            forall|x: Seq<bool>| best <= base + #[trigger] state_value(st0, x),
            forall|x: Seq<bool>| #[trigger]
                state_value(state_of(factors@, unary@), x) == state_value(st0, x),
        decreases left,
    {
        let ghost st = state_of(factors@, unary@);
        let ghost before = best;
        forward_pass(factors, unary, Ghost(caps), Ghost(t));
        let ghost st1 = state_of(factors@, unary@);
        let d: i128 = dual_bound(factors, unary, base, Ghost(caps), Ghost(caps.len() as int));
        if d > best {
            best = d;
        }
        proof {
            assert forall|x: Seq<bool>| best <= base + #[trigger] state_value(st0, x) by {
                dual_is_below(st1, x);
                assert(state_value(st1, x) == state_value(st, x));
            }
        }
        if close(best, incumbent_ub, tol) {
            return best;
        }
        backward_pass(factors, unary, Ghost(caps));
        let ghost st2 = state_of(factors@, unary@);
        let d2: i128 = dual_bound(factors, unary, base, Ghost(caps), Ghost(caps.len() as int));
        if d2 > best {
            best = d2;
        }
        proof {
            assert forall|x: Seq<bool>| #[trigger] state_value(st2, x) == state_value(st0, x) by {
                assert(state_value(st2, x) == state_value(st1, x));
                assert(state_value(st1, x) == state_value(st, x));
            }
            assert forall|x: Seq<bool>| best <= base + #[trigger] state_value(st0, x) by {
                dual_is_below(st2, x);
                assert(state_value(st2, x) == state_value(st0, x));
            }
        }
        if close(best, incumbent_ub, tol) {
            return best;
        }
        proof {
            t = caps.len() as int;
        }
        left -= 1;
    }
    best
}

/// What is left of a term gets a table: it counts, and its variables are not
/// too many.
pub open spec fn has_table(s: Option<PartiallyAssignedTerm>, max_arity: int) -> bool {
    s matches Some(p) && p.coeff != 0 && 1 <= p.free_variables@.len() <= max_arity
}

/// The tables of the first `k` terms.
pub open spec fn initial_factors(
    vt: VarType,
    s: Seq<Option<PartiallyAssignedTerm>>,
    max_arity: int,
    k: nat,
) -> Seq<FactorState>
    decreases k,
{
    if k == 0 {
        Seq::empty()
    } else {
        let prev = initial_factors(vt, s, max_arity, (k - 1) as nat);
        if has_table(s[k - 1], max_arity) {
            let p = s[k - 1]->0;
            prev.push(
                FactorState {
                    vars: p.free_variables@,
                    table: factor::initial_table(
                        vt,
                        p.coeff as int,
                        p.free_variables@.len(),
                    ),
                },
            )
        } else {
            prev
        }
    }
}

/// The least values of those of the first `k` terms that get no table.
pub open spec fn fixed_part(
    vt: VarType,
    s: Seq<Option<PartiallyAssignedTerm>>,
    max_arity: int,
    k: nat,
) -> int
    decreases k,
{
    if k == 0 {
        0
    } else {
        fixed_part(vt, s, max_arity, (k - 1) as nat) + (if has_table(s[k - 1], max_arity) {
            0
        } else {
            cheap::status_floor(vt, s[k - 1])
        })
    }
}

/// The sizes of the terms that get a table, among the first `k`.
spec fn initial_caps(s: Seq<Option<PartiallyAssignedTerm>>, max_arity: int, k: nat) -> Seq<int>
    decreases k,
{
    if k == 0 {
        Seq::empty()
    } else {
        let prev = initial_caps(s, max_arity, (k - 1) as nat);
        if has_table(s[k - 1], max_arity) {
            prev.push(term::abs(s[k - 1]->0.coeff as int))
        } else {
            prev
        }
    }
}

/// No variable has a cost of its own.
pub open spec fn no_costs(n: nat) -> Seq<UnaryState> {
    Seq::new(n, |v: int| UnaryState { low: 0, high: 0 })
}

proof fn lemma_push_sums(fs: Seq<FactorState>, f: FactorState, x: Seq<bool>, k: nat)
    requires
        k <= fs.len(),
    ensures
        table_values(fs.push(f), x, k) == table_values(fs, x, k),
        table_mins(fs.push(f), k) == table_mins(fs, k),
    decreases k,
{
    if k > 0 {
        lemma_push_sums(fs, f, x, (k - 1) as nat);
    }
}

proof fn lemma_push_cap(caps: Seq<int>, c: int, k: nat)
    requires
        k <= caps.len(),
    ensures
        cap_sum(caps.push(c), k) == cap_sum(caps, k),
    decreases k,
{
    if k > 0 {
        lemma_push_cap(caps, c, (k - 1) as nat);
    }
}

/// The least entry of the table of a term is the term's least value.
pub proof fn table_floor(vt: VarType, c: int, k: nat)
    requires
        k > 0,
    ensures
        factor::least(factor::initial_table(vt, c, k), None) == (match vt {
            VarType::Bin => if c >= 0 {
                0
            } else {
                c
            },
            VarType::Spin => -term::abs(c),
        }),
{
    let t = factor::initial_table(vt, c, k);
    let h = match vt {
        VarType::Bin => if c >= 0 {
            0
        } else {
            c
        },
        VarType::Spin => -term::abs(c),
    };
    factor::lemma_initial_size(vt, c, k);
    factor::lemma_place_positive(k);
    factor::lemma_place_positive((k - 1) as nat);
    lemma_last_entry(vt, c, k);
    lemma_last_entry(vt, c, (k - 1) as nat);
    let prev = factor::initial_table(vt, c, (k - 1) as nat);
    factor::lemma_initial_size(vt, c, (k - 1) as nat);
    let a = prev.len() - 1;
    let b = t.len() - 1;
    assert(t[b] == c);
    assert(t[a] == factor::low_half(vt, prev)[a]);
    assert(factor::in_part(a, None) && factor::in_part(b, None));
    assert(t[a] == h || t[b] == h);
    assert forall|m: int| 0 <= m < t.len() && factor::in_part(m, None) implies h
        <= #[trigger] t[m] by {
        lemma_entry_sign(vt, c, k, m);
    }
    assert(factor::is_least(t, None, t.len() as int, h));
    factor::lemma_least_unique(t, None, h);
}

proof fn lemma_last_entry(vt: VarType, c: int, k: nat)
    ensures
        factor::initial_table(vt, c, k).len() > 0,
        factor::initial_table(vt, c, k).last() == c,
    decreases k,
{
    if k > 0 {
        lemma_last_entry(vt, c, (k - 1) as nat);
    }
}

proof fn lemma_entry_sign(vt: VarType, c: int, k: nat, m: int)
    requires
        0 <= m < factor::initial_table(vt, c, k).len(),
    ensures
        vt == VarType::Bin ==> factor::initial_table(vt, c, k)[m] == 0
            || factor::initial_table(vt, c, k)[m] == c,
        vt == VarType::Spin ==> factor::initial_table(vt, c, k)[m] == -c
            || factor::initial_table(vt, c, k)[m] == c,
    decreases k,
{
    if k > 0 {
        let prev = factor::initial_table(vt, c, (k - 1) as nat);
        if m < prev.len() {
            lemma_entry_sign(vt, c, (k - 1) as nat, m);
        } else {
            lemma_entry_sign(vt, c, (k - 1) as nat, m - prev.len());
        }
    }
}

proof fn lemma_initial(
    vt: VarType,
    s: Seq<Option<PartiallyAssignedTerm>>,
    max_arity: int,
    n: nat,
    x: Seq<bool>,
    k: nat,
)
    requires
        k <= s.len(),
        max_arity <= factor::MAX_FACTOR_ARITY,
        forall|i: int|
            0 <= i < s.len() ==> ((#[trigger] s[i]) matches Some(p) ==> term::indices_below(
                p.free_variables@,
                n as int,
            )),
    ensures
        ({
            let fs = initial_factors(vt, s, max_arity, k);
            let caps = initial_caps(s, max_arity, k);
            &&& caps.len() == fs.len()
            &&& forall|f: int| 0 <= f < fs.len() ==> is_factor_ok(#[trigger] fs[f], n)
            &&& forall|f: int| 0 <= f < caps.len() ==> 0 <= #[trigger] caps[f]
            &&& forall|f: int|
                0 <= f < fs.len() ==> is_within((#[trigger] fs[f]).table, caps[f], false)
            &&& table_values(fs, x, fs.len()) <= cap_sum(caps, caps.len())
            &&& 0 <= cap_sum(caps, caps.len())
            &&& cap_sum(caps, caps.len()) + term::abs(fixed_part(vt, s, max_arity, k))
                <= node::status_abs(s.take(k as int))
            &&& fixed_part(vt, s, max_arity, k) + table_values(fs, x, fs.len()) <= node::residual(
                vt,
                s.take(k as int),
                x,
            )
            &&& fixed_part(vt, s, max_arity, k) + table_mins(fs, fs.len()) == cheap::floor_sum(
                vt,
                s.take(k as int),
            )
        }),
    decreases k,
{
    if k == 0 {
        assert(s.take(0) =~= Seq::empty());
    } else {
        let k1 = (k - 1) as nat;
        lemma_initial(vt, s, max_arity, n, x, k1);
        assert(s.take(k as int).drop_last() =~= s.take(k1 as int));
        let fs = initial_factors(vt, s, max_arity, k1);
        let caps = initial_caps(s, max_arity, k1);
        if let Some(p) = s[k1 as int] {
            let c = p.coeff as int;
            term::lemma_monomial_range(vt, p.free_variables@, x);
            let m = term::monomial(vt, p.free_variables@, x);
            assert(c * m == if m == 0 { 0 } else if m == 1 { c } else { -c }) by (nonlinear_arith)
                requires
                    m == 0 || m == 1 || m == -1,
            ;
            if has_table(s[k1 as int], max_arity) {
                let len = p.free_variables@.len();
                let f = FactorState {
                    vars: p.free_variables@,
                    table: factor::initial_table(vt, c, len),
                };
                lemma_push_sums(fs, f, x, fs.len());
                lemma_push_cap(caps, term::abs(c), caps.len());
                factor::lemma_initial_size(vt, c, len);
                factor::table_holds_values(vt, c, p.free_variables@, x);
                table_floor(vt, c, len);
                let fs1 = fs.push(f);
                let caps1 = caps.push(term::abs(c));
                assert(is_factor_ok(f, n)) by {
                    assert forall|j: int| 0 <= j < f.vars.len() implies (#[trigger] f.vars[j])
                        < n by {
                        assert(term::indices_below(p.free_variables@, n as int));
                    }
                }
                assert(is_within(f.table, term::abs(c), false));
                assert forall|g: int| 0 <= g < fs1.len() implies is_factor_ok(
                    #[trigger] fs1[g],
                    n,
                ) && is_within(fs1[g].table, caps1[g], false) by {
                    if g < fs.len() {
                        assert(fs1[g] == fs[g]);
                        assert(is_within(fs[g].table, caps[g], false));
                    }
                }
            }
        }
    }
}

proof fn lemma_no_costs(n: nat, x: Seq<bool>, k: nat)
    requires
        k <= n,
    ensures
        unary_values(no_costs(n), x, k) == 0,
        unary_mins(no_costs(n), k) == 0,
    decreases k,
{
    if k > 0 {
        lemma_no_costs(n, x, (k - 1) as nat);
    }
}

/// The number of free variables up to which a term gets a table.
pub open spec fn arity_of(cfg: Srmp) -> int {
    if cfg.max_arity < factor::MAX_FACTOR_ARITY {
        cfg.max_arity as int
    } else {
        factor::MAX_FACTOR_ARITY as int
    }
}

/// The costs at the start: every term in its table.
pub open spec fn initial_state<V: VarDomain>(
    instance: &HuboInstance<V>,
    node: &Node,
    cfg: Srmp,
) -> Reparam {
    Reparam {
        factors: initial_factors(
            V::tag(),
            node.term_status@,
            arity_of(cfg),
            node.term_status@.len(),
        ),
        unary: no_costs(instance.n() as nat),
    }
}

/// The part of the bound that no table holds.
pub open spec fn base_of<V: VarDomain>(
    instance: &HuboInstance<V>,
    node: &Node,
    cfg: Srmp,
) -> int {
    instance.offset + node.offset + fixed_part(
        V::tag(),
        node.term_status@,
        arity_of(cfg),
        node.term_status@.len(),
    )
}

/// The bound of the passes.
pub open spec fn srmp_total<V: VarDomain>(
    instance: &HuboInstance<V>,
    node: &Node,
    cfg: Srmp,
    ub: Option<i64>,
) -> int {
    let st = initial_state(instance, node, cfg);
    let base = base_of(instance, node, cfg);
    if st.factors.len() == 0 {
        base
    } else {
        best_of_rounds(
            st,
            base,
            base + dual(st),
            ub,
            cfg.optimality_tol,
            if cfg.max_iter == 0 {
                1
            } else {
                cfg.max_iter as nat
            },
        )
    }
}

proof fn lemma_status_below<V: VarDomain>(instance: &HuboInstance<V>, node: &Node)
    requires
        instance.wf(),
        node.describes(instance),
    ensures
        forall|i: int|
            0 <= i < node.term_status@.len() ==> ((
            #[trigger] node.term_status@[i]) matches Some(p) ==> term::indices_below(
                p.free_variables@,
                instance.n() as int,
            )),
{
    assert forall|i: int| 0 <= i < node.term_status@.len() implies ((
    #[trigger] node.term_status@[i]) matches Some(p) ==> term::indices_below(
        p.free_variables@,
        instance.n() as int,
    )) by {
        let t = instance.terms@[i];
        assert(node::status_ok(V::tag(), t, node.fixed@, node.term_status@[i]));
        node::lemma_free_list_subset(t.indices@, node.fixed@);
        assert(term::indices_below(t.indices@, instance.n() as int));
        if let Some(p) = node.term_status@[i] {
            assert forall|j: int| 0 <= j < p.free_variables@.len() implies (
            #[trigger] p.free_variables@[j]) < instance.n() by {
                assert(p.free_variables@.contains(p.free_variables@[j]));
                assert(t.indices@.contains(p.free_variables@[j]));
            }
        }
    }
}

/// The bound of the passes before its slack.
pub fn srmp_lb<V: VarDomain>(
    instance: &HuboInstance<V>,
    node: &Node,
    cfg: &Srmp,
    incumbent_ub: Option<i64>,
) -> (r: i64)
    requires
        instance.wf(),
        instance.fits(),
        node.describes(instance),
    ensures
        r == srmp_total(instance, node, *cfg, incumbent_ub),
        r >= cheap::base_bound(instance, node),
        forall|x: Seq<bool>| #[trigger]
            node::extends(x, node.fixed@) ==> r <= instance.objective(x),
{
    let n: usize = instance.n_vars();
    let vt: VarType = V::var_type();
    let max_arity: usize = if cfg.max_arity < factor::MAX_FACTOR_ARITY {
        cfg.max_arity
    } else {
        factor::MAX_FACTOR_ARITY
    };
    let ghost s = node.term_status@;
    let ghost xs = Seq::new(n as nat, |i: int| node.fixed@[i] == Some(true));
    proof {
        cheap::lemma_bound_size(instance, node);
        lemma_status_below(instance, node);
        assert(s.take(0) =~= Seq::empty());
    }
    let mut base: i128 = instance.offset as i128 + node.offset as i128;
    let mut factors: Vec<Factor> = Vec::new();
    let mut i: usize = 0;
    assert(state_of(factors@, Seq::empty()).factors =~= Seq::empty());
    while i < node.term_status.len()
        invariant
            i <= s.len(),
            s == node.term_status@,
            vt == V::tag(),
            max_arity == arity_of(*cfg),
            max_arity <= factor::MAX_FACTOR_ARITY,
            forall|j: int|
                0 <= j < s.len() ==> ((#[trigger] s[j]) matches Some(p) ==> term::indices_below(
                    p.free_variables@,
                    n as int,
                )),
            base == instance.offset + node.offset + fixed_part(
                vt,
                s,
                max_arity as int,
                i as nat,
            ),
            node::status_abs(s) <= i64::MAX,
            state_of(factors@, Seq::empty()).factors == initial_factors(
                vt,
                s,
                max_arity as int,
                i as nat,
            ),
        decreases s.len() - i,
    {
        let ghost before = state_of(factors@, Seq::empty()).factors;
        proof {
            lemma_initial(vt, s, max_arity as int, n as nat, xs, i as nat);
            lemma_initial(vt, s, max_arity as int, n as nat, xs, (i + 1) as nat);
            lemma_status_abs_take(s, i as int);
            lemma_status_abs_take(s, i + 1);
        }
        if let Some(status) = &node.term_status[i] {
            let k: usize = status.free_variables.len();
            if status.coeff != 0 {
                if k == 0 {
                    base = base + status.coeff as i128;
                } else if k > max_arity {
                    base = base + (match vt {
                        VarType::Bin => if status.coeff < 0 {
                            status.coeff as i128
                        } else {
                            0
                        },
                        VarType::Spin => if status.coeff < 0 {
                            status.coeff as i128
                        } else {
                            -(status.coeff as i128)
                        },
                    });
                } else {
                    let table = factor::init_table(vt, status.coeff, k);
                    let global_vars = lists::copy_list(status.free_variables.as_slice());
                    factors.push(Factor { global_vars, table });
                    assert(state_of(factors@, Seq::empty()).factors =~= before.push(
                        state_of(factors@, Seq::empty()).factors.last(),
                    ));
                }
            }
        }
        i += 1;
    }
    proof {
        assert(s.take(i as int) =~= s);
    }
    let ghost caps = initial_caps(s, max_arity as int, s.len());
    let ghost base0 = base as int;
    proof {
        lemma_initial(vt, s, max_arity as int, n as nat, xs, s.len());
        lemma_valid_start(instance, node, *cfg);
        assert(node::extends(xs, node.fixed@));
        term::lemma_poly_range(V::tag(), instance.terms@, xs);
        assert(state_value(initial_state(instance, node, *cfg), xs) + base
            <= instance.objective(xs));
    }
    if factors.len() == 0 {
        proof {
            assert(state_of(factors@, Seq::empty()).factors.len() == 0);
            assert forall|x: Seq<bool>| #[trigger] node::extends(x, node.fixed@) implies base
                <= instance.objective(x) by {
                assert(state_value(initial_state(instance, node, *cfg), x) + base
                    <= instance.objective(x));
                lemma_no_costs(n as nat, x, n as nat);
            }
            lemma_no_costs(n as nat, xs, n as nat);
        }
        return base as i64;
    }
    let mut unary: Vec<Unary> = Vec::new();
    while unary.len() < n
        invariant
            unary@.len() <= n,
            forall|v: int|
                0 <= v < unary@.len() ==> (#[trigger] unary@[v]).low == 0 && unary@[v].high == 0,
        decreases n - unary@.len(),
    {
        unary.push(Unary { low: 0, high: 0 });
    }
    let ghost st = state_of(factors@, unary@);
    proof {
        assert(st.factors =~= state_of(factors@, Seq::empty()).factors);
        assert(st.unary =~= no_costs(n as nat));
        assert(st == initial_state(instance, node, *cfg));
        assert(is_bounded(st, caps, 0)) by {
            assert forall|x: Seq<bool>| #[trigger] state_value(st, x) <= cap_sum(
                caps,
                caps.len(),
            ) by {
                lemma_initial(vt, s, max_arity as int, n as nat, x, s.len());
                lemma_no_costs(n as nat, x, n as nat);
            }
        }
        lemma_no_costs(n as nat, xs, n as nat);
        lemma_table_values_low(st, caps, 0, xs, st.factors.len());
        assert(i64::MIN <= base + dual(st));
    }
    let rounds: usize = if cfg.max_iter == 0 {
        1
    } else {
        cfg.max_iter
    };
    let r: i128 = run_rounds(
        &mut factors,
        &mut unary,
        base,
        incumbent_ub,
        cfg.optimality_tol,
        rounds,
        Ghost(caps),
    );
    proof {
        assert forall|x: Seq<bool>| #[trigger] node::extends(x, node.fixed@) implies r
            <= instance.objective(x) by {
            assert(r <= base + state_value(st, x));
            assert(state_value(initial_state(instance, node, *cfg), x) + base
                <= instance.objective(x));
        }
        assert(r <= instance.objective(xs));
        assert(instance.objective(xs) <= i64::MAX);
    }
    r as i64
}

proof fn lemma_status_abs_take(s: Seq<Option<PartiallyAssignedTerm>>, k: int)
    requires
        0 <= k <= s.len(),
    ensures
        0 <= node::status_abs(s.take(k)) <= node::status_abs(s),
    decreases s.len(),
{
    if k == s.len() {
        assert(s.take(k) =~= s);
        if k > 0 {
            lemma_status_abs_take(s.drop_last(), k - 1);
        }
    } else {
        lemma_status_abs_take(s.drop_last(), k);
        assert(s.drop_last().take(k) =~= s.take(k));
    }
}

proof fn lemma_valid_start<V: VarDomain>(instance: &HuboInstance<V>, node: &Node, cfg: Srmp)
    requires
        instance.wf(),
        node.describes(instance),
    ensures
        forall|x: Seq<bool>| #[trigger]
            node::extends(x, node.fixed@) ==> state_value(initial_state(instance, node, cfg), x)
                + base_of(instance, node, cfg) <= instance.objective(x),
{
    lemma_status_below(instance, node);
    let s = node.term_status@;
    assert(s.take(s.len() as int) =~= s);
    assert forall|x: Seq<bool>| #[trigger] node::extends(x, node.fixed@) implies state_value(
        initial_state(instance, node, cfg),
        x,
    ) + base_of(instance, node, cfg) <= instance.objective(x) by {
        lemma_initial(V::tag(), s, arity_of(cfg), instance.n() as nat, x, s.len());
        lemma_no_costs(instance.n() as nat, x, instance.n() as nat);
        node::node_represents_objective(instance, node, x);
    }
}

/// The bound of a node by message passing.
pub fn compute<V: VarDomain>(
    instance: &HuboInstance<V>,
    node: &Node,
    cfg: &Srmp,
    incumbent_ub: Option<i64>,
) -> (r: i64)
    requires
        instance.wf(),
        instance.fits(),
        node.describes(instance),
    ensures
        r == srmp_bound(instance, node, *cfg, incumbent_ub),
        crate::bounds::bounds_below(instance, node.fixed@, r as int),
{
    coeff::slack_bound(srmp_lb(instance, node, cfg, incumbent_ub))
}

/// The bound of the passes with its slack.
pub open spec fn srmp_bound<V: VarDomain>(
    instance: &HuboInstance<V>,
    node: &Node,
    cfg: Srmp,
    ub: Option<i64>,
) -> int {
    let lb = coeff::with_slack(srmp_total(instance, node, cfg, ub));
    if lb < i64::MIN {
        i64::MIN as int
    } else {
        lb
    }
}

impl<V: VarDomain> crate::bounds::LowerBound<V> for Srmp {
    open spec fn is_bound(
        &self,
        instance: &HuboInstance<V>,
        node: &Node,
        ub: Option<i64>,
        r: int,
    ) -> bool {
        exists|lb: int| #[trigger]
            cheap::is_cheap_bound(instance, node, lb) && r == (if fixes::fixed_count(node.fixed@)
                > 0 {
                lb
            } else {
                larger(lb, srmp_bound(instance, node, *self, ub))
            })
    }

    open spec fn is_core(
        &self,
        instance: &HuboInstance<V>,
        node: &Node,
        b: int,
        core: Option<Seq<usize>>,
    ) -> bool {
        core is None
    }

    /// No contradiction comes with the bound.
    fn compute_with_core(
        &self,
        instance: &HuboInstance<V>,
        node: &mut Node,
        incumbent_ub: Option<i64>,
    ) -> (r: (i64, Option<Vec<usize>>))
        ensures
            r.1 is None,
    {
        (self.compute(instance, node, incumbent_ub), None)
    }

    /// At the root the better of the bound of the passes and the cheap bound;
    /// below it the cheap bound.
    fn compute(
        &self,
        instance: &HuboInstance<V>,
        node: &mut Node,
        incumbent_ub: Option<i64>,
    ) -> (r: i64)
    {
        let ghost node0 = *node;
        let n_terms: usize = instance.terms.len();
        let cheap_lb: i64 = cheap::compute(instance, node);
        proof {
            crate::bounds::lemma_cheap_bounds(instance, &node0, cheap_lb as int);
        }
        if node.fixed.num_free() < instance.n_vars() {
            return cheap_lb;
        }
        let lb: i64 = compute(instance, node, self, incumbent_ub);
        coeff::max_of(lb, cheap_lb)
    }
}

} // verus!
