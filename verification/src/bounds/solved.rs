//! Bounds from the values of an outside solver. A solver hands back, rounded down,
//! a lower bound of the cost of a program, or nothing.

use crate::bounds::lp::NodeLp;
use crate::bounds::lp;
use crate::bounds::product_lp::ProductLp;
use crate::bounds::product_lp;
use crate::bounds::psd::{FactorBlock, PsdProgram};
use crate::bounds::psd;
use crate::bounds::psd_cliques;
use crate::bounds::rlt::LinearBound;
use crate::bounds::rlt;
use crate::chordal::ChordalSdpDecomposition;
use crate::cliques;
use crate::domain::{VarDomain, VarType};
use crate::heuristic::walk;
use crate::instance::HuboInstance;
use crate::lasserre::{LasserreSdpState, Relaxation};
use crate::lasserre;
use crate::node::Node;
use crate::node;
use crate::quadratic::{ChordalRelaxation, ReducedQuadratic};
use crate::quadratic;
use crate::term;
use vstd::prelude::*;

verus! {

/// The sum, no further than the least and the largest coefficient.
pub open spec fn clamped_sum(a: int, b: int) -> int {
    if a + b < i64::MIN {
        i64::MIN as int
    } else if a + b > i64::MAX {
        i64::MAX as int
    } else {
        a + b
    }
}

/// The sum, no further than the least and the largest coefficient.
pub fn shifted(base: i64, v: i64) -> (r: i64)
    ensures
        r == clamped_sum(base as int, v as int),
{
    let sum: i128 = base as i128 + v as i128;
    if sum < i64::MIN as i128 {
        i64::MIN
    } else if sum > i64::MAX as i128 {
        i64::MAX
    } else {
        sum as i64
    }
}

/// A point within the bounds of the columns that meets all rows.
pub open spec fn is_lp_point(lp: &ProductLp, p: Seq<int>) -> bool {
    &&& p.len() == lp.n_vars + lp.products@.len()
    &&& forall|c: int| 0 <= c < p.len() ==> lp.lower@[c] <= #[trigger] p[c] <= lp.upper@[c]
    &&& forall|i: int| 0 <= i < lp.rows@.len() ==> product_lp::meets(#[trigger] lp.rows@[i], p)
}

/// `v` is at most the cost of every point.
pub open spec fn is_lp_bound(lp: &ProductLp, v: int) -> bool {
    forall|p: Seq<int>| #[trigger]
        is_lp_point(lp, p) ==> v <= product_lp::cost_at(lp.cost@, p, p.len())
}

/// The bound that a solver's value gives of a linear relaxation.
pub open spec fn solved_linear(r: LinearBound, solved: Option<i64>) -> int {
    match (r, solved) {
        (LinearBound::Known(b), _) => b as int,
        (LinearBound::Program { offset, fallback, lp }, Some(v)) => clamped_sum(
            offset as int,
            v as int,
        ),
        (LinearBound::Program { offset, fallback, lp }, None) => fallback as int,
    }
}

/// The bound of a linear relaxation: the known one, the constant with the value of
/// the solver, or the termwise bound where there is no value.
pub fn linear_lower_bound(r: &LinearBound, solved: Option<i64>) -> (b: i64)
    ensures
        b == solved_linear(*r, solved),
{
    match r {
        LinearBound::Known(b) => *b,
        LinearBound::Program { offset, fallback, lp } => match solved {
            Some(v) => shifted(*offset, v),
            None => *fallback,
        },
    }
}

/// The bound of a linear relaxation is at most the objective that it relaxes, if
/// the solver's value is at most the cost of every point.
pub proof fn solved_linear_is_below<V: VarDomain>(
    instance: &HuboInstance<V>,
    r: LinearBound,
    solved: Option<i64>,
    y: Seq<bool>,
    objective: int,
)
    requires
        rlt::relaxes(instance, r, y, objective),
        i64::MIN <= objective <= i64::MAX,
        r matches LinearBound::Program { offset, fallback, lp } ==> (solved matches Some(v)
            ==> is_lp_bound(&lp, v as int)),
    ensures
        solved_linear(r, solved) <= objective,
{
    if let LinearBound::Program { offset, fallback, lp } = r {
        let p = product_lp::point_of(V::tag(), lp.n_vars as nat, lp.products@, y);
        assert(is_lp_point(&lp, p));
    }
}

/// What a solver answers of the linear program of a node.
#[derive(Debug, Clone, Copy, PartialEq, Eq, Structural)]
pub enum Solved {
    Value(i64),
    /// The program has no point.
    Infeasible,
    /// There is no value, for another reason.
    Failed,
}

/// The answer is right: a value is at most the cost of every point, and a program
/// said to have no point has none.
pub open spec fn is_right(lp: &ProductLp, solved: Solved) -> bool {
    match solved {
        Solved::Value(v) => is_lp_bound(lp, v as int),
        Solved::Infeasible => forall|p: Seq<int>| !(#[trigger] is_lp_point(lp, p)),
        Solved::Failed => true,
    }
}

/// The bound that a solver's answer gives of the linear program of a node.
pub open spec fn solved_node<V: VarDomain>(
    instance: &HuboInstance<V>,
    node: &Node,
    r: NodeLp,
    solved: Solved,
) -> int {
    match (r, solved) {
        (NodeLp::Known(b), _) => b as int,
        (NodeLp::Program { offset, lp }, Solved::Value(v)) => clamped_sum(
            offset as int,
            v as int,
        ),
        (NodeLp::Program { offset, lp }, Solved::Infeasible) => i64::MAX as int,
        (NodeLp::Program { offset, lp }, Solved::Failed) => lp::trivial_bound(instance, node),
    }
}

/// The bound of the linear program of a node: the known one, the constant with the
/// value of the solver, the largest number where the program has no point, or the
/// termwise bound where there is no value.
pub fn node_lower_bound<V: VarDomain>(
    instance: &HuboInstance<V>,
    node: &Node,
    r: &NodeLp,
    solved: Solved,
) -> (b: i64)
    requires
        instance.wf(),
        instance.fits(),
        node.describes(instance),
    ensures
        b == solved_node(instance, node, *r, solved),
{
    match r {
        NodeLp::Known(b) => *b,
        NodeLp::Program { offset, lp } => match solved {
            Solved::Value(v) => shifted(*offset, v),
            Solved::Infeasible => i64::MAX,
            Solved::Failed => lp::trivial_lb(instance, node),
        },
    }
}

/// The bound of the linear program of a node is at most the objective of every
/// completion, if the solver's answer is right.
pub proof fn solved_node_is_below<V: VarDomain>(
    instance: &HuboInstance<V>,
    node: &Node,
    max_cols: usize,
    r: NodeLp,
    solved: Solved,
    x: Seq<bool>,
)
    requires
        instance.wf(),
        instance.fits(),
        instance.n() <= usize::MAX,
        node.describes(instance),
        lp::is_node_lp(instance, node, max_cols, r),
        node::extends(x, node.fixed@),
        r matches NodeLp::Program { offset, lp } ==> is_right(&lp, solved),
    ensures
        solved_node(instance, node, r, solved) <= instance.objective(x),
{
    walk::lemma_objective_fits(instance, x);
    lp::trivial_bound_is_valid(instance, node, x);
    if let NodeLp::Program { offset, lp } = r {
        lp::node_lp_is_relaxation(instance, node, max_cols, offset, lp, x);
        let p = product_lp::point_of(V::tag(), lp.n_vars as nat, lp.products@, x);
        assert(is_lp_point(&lp, p));
    }
}

/// The least values of the first `k` costs.
pub open spec fn floor_sum(vt: VarType, cost: Seq<i64>, k: nat) -> int
    decreases k,
{
    if k == 0 {
        0
    } else {
        floor_sum(vt, cost, (k - 1) as nat) + lasserre::term_floor(vt, cost[k - 1] as int)
    }
}

/// The bound that a solver's value gives of a moment relaxation.
pub open spec fn solved_moments(r: Relaxation, vt: VarType, solved: Option<i64>) -> int {
    match (r, solved) {
        (Relaxation::Known(b), _) => b as int,
        (Relaxation::Moments { base, objective, apparatus }, Some(v)) => clamped_sum(
            base as int,
            v as int,
        ),
        (Relaxation::Moments { base, objective, apparatus }, None) => clamped_sum(
            base as int,
            floor_sum(vt, objective@, objective@.len()),
        ),
    }
}

/// The least values of all costs.
fn floor_of(vt: VarType, cost: &Vec<i64>) -> (r: i128)
    ensures
        r == floor_sum(vt, cost@, cost@.len()),
        r <= 0,
{
    let n: usize = cost.len();
    let mut sum: i128 = 0;
    let mut k: usize = 0;
    while k < n
        invariant
            k <= n,
            n == cost@.len(),
            sum == floor_sum(vt, cost@, k as nat),
            -(k * 0x8000_0000_0000_0000) <= sum <= 0,
        decreases n - k,
    {
        let c: i128 = cost[k] as i128;
        let f: i128 = match vt {
            VarType::Bin => if c < 0 {
                c
            } else {
                0
            },
            VarType::Spin => if c < 0 {
                c
            } else {
                -c
            },
        };
        sum = sum + f;
        k += 1;
    }
    sum
}

/// The bound of a moment relaxation: the known one, the base with the value of the
/// solver, or the termwise bound where there is no value.
pub fn moment_lower_bound(r: &Relaxation, vt: VarType, solved: Option<i64>) -> (b: i64)
    ensures
        b == solved_moments(*r, vt, solved),
{
    match r {
        Relaxation::Known(b) => *b,
        Relaxation::Moments { base, objective, apparatus } => match solved {
            Some(v) => shifted(*base, v),
            None => {
                let f: i128 = floor_of(vt, objective);
                if f < -0x1_0000_0000_0000_0000_0000 {
                    i64::MIN
                } else {
                    let sum: i128 = *base as i128 + f;
                    if sum < i64::MIN as i128 {
                        i64::MIN
                    } else {
                        sum as i64
                    }
                }
            },
        },
    }
}

proof fn lemma_moment_costs(
    vt: VarType,
    m: Seq<Vec<usize>>,
    cost: Seq<i64>,
    x: Seq<bool>,
    k: nat,
)
    requires
        k <= m.len(),
        cost.len() == m.len(),
    ensures
        psd::cost_sum(cost, psd::values_of(vt, m, x), k) == lasserre::moment_sum(
            vt,
            m,
            |i: int| cost[i] as int,
            x,
            k,
        ),
        floor_sum(vt, cost, k) <= psd::cost_sum(cost, psd::values_of(vt, m, x), k),
    decreases k,
{
    if k > 0 {
        lemma_moment_costs(vt, m, cost, x, (k - 1) as nat);
        let v = term::monomial(vt, m[k - 1]@, x);
        let c = cost[k - 1] as int;
        term::lemma_monomial_range(vt, m[k - 1]@, x);
        assert(c * 0 == 0 && c * 1 == c && c * -1 == -c);
    }
}

/// The bound of a moment relaxation is at most every value of its state, if the
/// solver's value is at most the cost of every point.
pub proof fn solved_moments_are_below(
    s: &LasserreSdpState,
    max_vars: usize,
    r: Relaxation,
    program: &PsdProgram,
    solved: Option<i64>,
    x: Seq<bool>,
)
    requires
        s.wf(),
        lasserre::is_limited_relaxation(s, max_vars, r),
        i64::MIN <= s.value(x) <= i64::MAX,
        r matches Relaxation::Moments { base, objective, apparatus } ==> psd::is_moment_program(
            objective@,
            &apparatus,
            s.var_type,
            program,
        ) && (solved matches Some(v) ==> psd::is_psd_bound(program, v as int)),
    ensures
        solved_moments(r, s.var_type, solved) <= s.value(x),
{
    if s.free_globals@.len() > max_vars {
        lasserre::floors_are_below(s, x);
    } else {
        lasserre::relaxation_is_below(s, r, x);
    }
    if let Relaxation::Moments { base, objective, apparatus } = r {
        let vt = s.var_type;
        let m = apparatus.free_moments@;
        let y = psd::values_of(vt, m, x);
        let v = psd::values_of(vt, apparatus.basis@, x);
        let blocks = seq![FactorBlock { start: 0, vector: v }];
        let l = psd::factors_of(blocks);
        psd::factors_hold_vectors(blocks, 0);
        psd::moment_program_is_relaxation(s, base, objective, apparatus, program, x, l);
        psd::lemma_factors_small(blocks);
        lemma_moment_costs(vt, m, objective@, x, m.len());
        let n = apparatus.mat_dim as nat;
        assert forall|p: int| 0 <= p < program.rows@.len() implies psd::row_value(
            #[trigger] program.rows@[p],
            y,
            l,
        ) == program.rows@[p].rhs by {
            let (i, j) = psd::lemma_place_onto(n, n, p);
            assert(psd::row_value(program.rows@[lasserre::upper_place(n, i, j)], y, l)
                == program.rows@[lasserre::upper_place(n, i, j)].rhs);
        }
        assert(psd::is_psd_point(program, y, l));
    }
}

/// The bound that a solver's value gives of a sparse relaxation.
pub open spec fn solved_cliques(r: ChordalRelaxation, solved: Option<i64>) -> int {
    match (r, solved) {
        (ChordalRelaxation::Known(b), _) => b as int,
        (ChordalRelaxation::Blocks { reduced, decomposition }, Some(v)) => clamped_sum(
            reduced.base_offset + reduced.higher_order_trivial,
            v as int,
        ),
        (ChordalRelaxation::Blocks { reduced, decomposition }, None) => quadratic::form_floor(
            &reduced,
        ),
    }
}

/// The bound of a sparse relaxation: the known one, the constant part with the
/// value of the solver, or the termwise bound where there is no value.
pub fn clique_lower_bound(r: &ChordalRelaxation, solved: Option<i64>) -> (b: i64)
    requires
        r matches ChordalRelaxation::Blocks { reduced, decomposition } ==> quadratic::form_fits(
            &reduced,
        ),
    ensures
        b == solved_cliques(*r, solved),
{
    match r {
        ChordalRelaxation::Known(b) => *b,
        ChordalRelaxation::Blocks { reduced, decomposition } => match solved {
            Some(v) => {
                let sum: i128 = reduced.base_offset as i128 + reduced.higher_order_trivial as i128
                    + v as i128;
                if sum < i64::MIN as i128 {
                    i64::MIN
                } else if sum > i64::MAX as i128 {
                    i64::MAX
                } else {
                    sum as i64
                }
            },
            None => quadratic::cheap_form_bound(reduced),
        },
    }
}

/// Every row is in a block.
proof fn lemma_block_onto(c: Seq<Vec<usize>>, k: nat, p: int) -> (b: int)
    requires
        k <= c.len(),
        0 <= p < psd_cliques::rows_start(c, k),
    ensures
        0 <= b < k,
        psd_cliques::rows_start(c, b as nat) <= p < psd_cliques::rows_start(c, (b + 1) as nat),
    decreases k,
{
    let k1 = (k - 1) as nat;
    if p < psd_cliques::rows_start(c, k1) {
        lemma_block_onto(c, k1, p)
    } else {
        k - 1
    }
}

/// The vectors of the cliques at an assignment, with the places of their factors.
spec fn clique_blocks(vt: VarType, c: Seq<Vec<usize>>, y: Seq<bool>) -> Seq<FactorBlock> {
    Seq::new(
        c.len(),
        |b: int|
            FactorBlock {
                start: psd_cliques::factor_start(c, b as nat),
                vector: psd_cliques::clique_vector(vt, c[b]@, y),
            },
    )
}

proof fn lemma_clique_blocks(vt: VarType, c: Seq<Vec<usize>>, y: Seq<bool>)
    ensures
        psd::are_spaced(clique_blocks(vt, c, y)),
        forall|t: int| -1 <= #[trigger] psd::factors_of(clique_blocks(vt, c, y))(t) <= 1,
        forall|b: int|
            0 <= b < c.len() ==> psd::is_first_column(
                psd_cliques::factor_start(c, b as nat),
                psd_cliques::clique_vector(vt, (#[trigger] c[b])@, y),
                psd::factors_of(clique_blocks(vt, c, y)),
            ),
{
    let blocks = clique_blocks(vt, c, y);
    assert forall|a: int, b: int| 0 <= a < b < blocks.len() implies (#[trigger] blocks[a]).start
        + cliques::tri_place(blocks[a].vector.len() as int, 0) <= (#[trigger] blocks[b]).start by {
        psd_cliques::lemma_starts_grow(c, (a + 1) as nat, b as nat);
    }
    psd::lemma_factors_small(blocks);
    assert forall|b: int| 0 <= b < c.len() implies psd::is_first_column(
        psd_cliques::factor_start(c, b as nat),
        psd_cliques::clique_vector(vt, (#[trigger] c[b])@, y),
        psd::factors_of(blocks),
    ) by {
        psd::factors_hold_vectors(blocks, b);
    }
}

/// The bound of the program of a form over its cliques is at most the value of
/// the form, if the solver's value is at most the cost of every point.
pub proof fn solved_cliques_are_below(
    q: ReducedQuadratic,
    d: ChordalSdpDecomposition,
    pairs: Seq<(usize, usize)>,
    program: &PsdProgram,
    solved: Option<i64>,
    y: Seq<bool>,
)
    requires
        quadratic::is_decomposition(&q, &d),
        q.linear@.len() == q.n_free,
        forall|i: int|
            0 <= i < q.quad@.len() ==> (#[trigger] q.quad@[i]).a < q.quad@[i].b < q.n_free,
        forall|i: int, j: int|
            0 <= i < j < q.quad@.len() ==> (#[trigger] q.quad@[i]).a != (#[trigger] q.quad@[j]).a
                || q.quad@[i].b != q.quad@[j].b,
        psd_cliques::is_clique_program(&q, d.maximal_cliques@, pairs, program),
        y.len() == q.n_free,
        i64::MIN <= quadratic::form_value(&q, y) <= i64::MAX,
        solved matches Some(v) ==> psd::is_psd_bound(program, v as int),
    ensures
        solved_cliques(
            (ChordalRelaxation::Blocks { reduced: q, decomposition: d }),
            solved,
        ) <= quadratic::form_value(&q, y),
{
    quadratic::form_floor_is_below(&q, y);
    let vt = q.var_type;
    let c = d.maximal_cliques@;
    let m = psd_cliques::clique_moments(vt, pairs, y);
    let l = psd::factors_of(clique_blocks(vt, c, y));
    lemma_clique_blocks(vt, c, y);
    psd_cliques::clique_program_is_relaxation(&q, &d, pairs, program, y, l);
    assert forall|p: int| 0 <= p < program.rows@.len() implies psd::row_value(
        #[trigger] program.rows@[p],
        m,
        l,
    ) == program.rows@[p].rhs by {
        let b = lemma_block_onto(c, c.len(), p);
        let n = program.dims@[b] as nat;
        assert(n == c[b]@.len() + 1);
        let at = p - psd_cliques::rows_start(c, b as nat);
        let (i, j) = psd::lemma_place_onto(n, n, at);
        assert(psd_cliques::block_row_holds(
            &q,
            c,
            pairs,
            program,
            y,
            l,
            b,
            lasserre::upper_place(n, i, j),
        ));
        assert(psd_cliques::block_of(c, program, b)[at] == program.rows@[p]);
    }
    assert(psd::is_psd_point(program, m, l));
}

} // verus!
