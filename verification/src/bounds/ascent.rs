//! Ascent on the multipliers of a split, by steps towards the best known value.

use crate::bounds::cheap;
use crate::bounds::clusters::Cluster;
use crate::bounds::clusters;
use crate::bounds::lagrangian::{DualPoint, Piece};
use crate::bounds::lagrangian;
use crate::bounds::subgradient::Split;
use crate::bounds::subgradient;
use crate::coeff;
use crate::domain::{VarDomain, VarType};
use crate::heuristic::walk;
use crate::instance::HuboInstance;
use crate::node::{Node, TermPrices};
use crate::node;
use crate::solution::BitSolution;
use crate::term;
use vstd::prelude::*;

verus! {

/// The steps of an ascent. All but the number of iterations are in units.
#[derive(Clone, Copy, Debug)]
pub struct AscentConfig {
    pub max_iter: usize,
    /// The share of the gap that a step closes.
    pub step_size: i64,
    /// What is left of the share after each step.
    pub step_decay: i64,
    /// A gap at which the ascent ends.
    pub optimality_tol: i64,
}

/// At least one iteration is made.
pub open spec fn iterations(cfg: AscentConfig) -> nat {
    if cfg.max_iter == 0 {
        1
    } else {
        cfg.max_iter as nat
    }
}

/// A number no less than zero and no more than the unit.
pub open spec fn clamped(v: int, unit: int) -> int {
    if v < 0 {
        0
    } else if v > unit {
        unit
    } else {
        v
    }
}

/// The share of the gap that step `k` closes.
pub open spec fn share_at(cfg: AscentConfig, unit: int, k: nat) -> int
    decreases k,
{
    if k == 0 {
        if cfg.step_size < 0 {
            0
        } else {
            cfg.step_size as int
        }
    } else {
        share_at(cfg, unit, (k - 1) as nat) * clamped(cfg.step_decay as int, unit) / unit
    }
}

/// The assignment with the fixed values in place.
pub open spec fn completed(x: Seq<bool>, f: Seq<Option<bool>>) -> Seq<bool> {
    Seq::new(
        f.len(),
        |i: int|
            match f[i] {
                Some(b) => b,
                None => x[i],
            },
    )
}

/// The value to reach: that of the assignment, or the incumbent if it is less.
pub open spec fn target_value<V: VarDomain>(
    instance: &HuboInstance<V>,
    node: &Node,
    x: Seq<bool>,
    incumbent: Option<i64>,
) -> int {
    let o = instance.objective(completed(x, node.fixed@));
    match incumbent {
        Some(u) => if u < o {
            u as int
        } else {
            o
        },
        None => o,
    }
}

/// How many of the first `k` copies of a piece differ from their variables.
pub open spec fn differing(vars: Seq<usize>, x: Seq<bool>, y: Seq<bool>, k: nat) -> nat
    decreases k,
{
    if k == 0 {
        0
    } else {
        differing(vars, x, y, (k - 1) as nat) + (if y[k - 1] != x[vars[k - 1] as int] {
            1nat
        } else {
            0nat
        })
    }
}

/// How many copies of the first `k` pieces differ from their variables.
pub open spec fn all_differing(pieces: Seq<Piece>, p: DualPoint, k: nat) -> nat
    decreases k,
{
    if k == 0 {
        0
    } else {
        all_differing(pieces, p, (k - 1) as nat) + differing(
            pieces[k - 1].vars@,
            p.x@,
            p.y@[k - 1]@,
            pieces[k - 1].vars@.len(),
        )
    }
}

/// The squared length of the differences.
pub open spec fn squared_length(vt: VarType, pieces: Seq<Piece>, p: DualPoint) -> int {
    all_differing(pieces, p, pieces.len()) * (match vt {
        VarType::Bin => 1int,
        VarType::Spin => 4,
    })
}

/// The length of a step that closes a share of the gap.
pub open spec fn step_length(share: int, gap: int, length: int, unit: int) -> int {
    share * gap / (unit * length)
}

/// Whether a step is made: copies differ, there is something left of the step,
/// the gap is open, and all of it is a number of the machine.
pub open spec fn goes_on(cfg: AscentConfig, share: int, gap: int, length: int, unit: int) -> bool {
    &&& 0 < length <= i64::MAX / 4
    &&& share > 0
    &&& 0 < gap <= i64::MAX
    &&& gap > cfg.optimality_tol
    &&& step_length(share, gap, length, unit) <= i64::MAX
}

/// The multipliers of a piece after a step along the differences.
pub open spec fn is_moved(
    vt: VarType,
    vars: Seq<usize>,
    mu: Seq<i64>,
    x: Seq<bool>,
    y: Seq<bool>,
    alpha: int,
    next: Seq<i64>,
) -> bool {
    &&& next.len() == vars.len()
    &&& forall|j: int|
        0 <= j < vars.len() ==> #[trigger] next[j] == mu[j] + alpha * (term::bit_value(vt, y[j])
            - term::bit_value(vt, x[vars[j] as int]))
}

/// The multipliers of all pieces after a step.
pub open spec fn are_moved(
    vt: VarType,
    pieces: Seq<Piece>,
    mus: Seq<Vec<i64>>,
    p: DualPoint,
    alpha: int,
    next: Seq<Vec<i64>>,
) -> bool {
    &&& next.len() == pieces.len()
    &&& forall|i: int|
        0 <= i < pieces.len() ==> is_moved(
            vt,
            pieces[i].vars@,
            mus[i]@,
            p.x@,
            p.y@[i]@,
            alpha,
            (#[trigger] next[i])@,
        )
}

/// A point at some multipliers.
pub open spec fn is_point<V: VarDomain>(
    instance: &HuboInstance<V>,
    d: Split,
    unit: int,
    mus: Seq<Vec<i64>>,
    p: DualPoint,
) -> bool {
    let n = instance.n() as nat;
    &&& lagrangian::are_priced(n, d.pieces@, mus)
    &&& p.value == lagrangian::dual_total(V::tag(), n, unit, d.constant as int, d.pieces@, mus)
    &&& lagrangian::are_minimizers(V::tag(), n, unit, d.by_enumeration, d.pieces@, mus, p)
}

/// The gap at a point, in units.
pub open spec fn gap_at<V: VarDomain>(
    instance: &HuboInstance<V>,
    node: &Node,
    unit: int,
    incumbent: Option<i64>,
    p: DualPoint,
) -> int {
    unit * target_value(instance, node, p.x@, incumbent) - p.value
}

/// Whether step `k` is made at a point.
pub open spec fn moves_at<V: VarDomain>(
    instance: &HuboInstance<V>,
    node: &Node,
    d: Split,
    cfg: AscentConfig,
    unit: int,
    incumbent: Option<i64>,
    p: DualPoint,
    k: nat,
) -> bool {
    goes_on(
        cfg,
        share_at(cfg, unit, k),
        gap_at(instance, node, unit, incumbent, p),
        squared_length(V::tag(), d.pieces@, p),
        unit,
    )
}

/// The length of step `k` at a point.
pub open spec fn length_at<V: VarDomain>(
    instance: &HuboInstance<V>,
    node: &Node,
    d: Split,
    cfg: AscentConfig,
    unit: int,
    incumbent: Option<i64>,
    p: DualPoint,
    k: nat,
) -> int {
    step_length(
        share_at(cfg, unit, k),
        gap_at(instance, node, unit, incumbent, p),
        squared_length(V::tag(), d.pieces@, p),
        unit,
    )
}

/// The largest bound of the first `k` points.
pub open spec fn best_bound(points: Seq<DualPoint>, unit: int, k: nat) -> int
    decreases k,
{
    if k == 0 {
        i64::MIN as int
    } else {
        let before = best_bound(points, unit, (k - 1) as nat);
        let b = lagrangian::unit_bound(points[k - 1].value as int, unit);
        if b > before {
            b
        } else {
            before
        }
    }
}

/// The points of an ascent with the multipliers that they belong to: each step
/// leads from one point to the next multipliers.
pub open spec fn is_path<V: VarDomain>(
    instance: &HuboInstance<V>,
    node: &Node,
    d: Split,
    cfg: AscentConfig,
    unit: int,
    incumbent: Option<i64>,
    trace: Seq<Vec<Vec<i64>>>,
    points: Seq<DualPoint>,
) -> bool {
    &&& points.len() <= trace.len() <= points.len() + 1
    &&& forall|k: int|
        0 <= k < points.len() ==> is_point(instance, d, unit, trace[k]@, #[trigger] points[k])
    &&& forall|k: int|
        0 <= k < trace.len() - 1 ==> moves_at(
            instance,
            node,
            d,
            cfg,
            unit,
            incumbent,
            #[trigger] points[k],
            k as nat,
        ) && are_moved(
            V::tag(),
            d.pieces@,
            trace[k]@,
            points[k],
            length_at(instance, node, d, cfg, unit, incumbent, points[k], k as nat),
            trace[k + 1]@,
        )
}

/// Why an ascent ended: no step was made, the step leads beyond the machine's
/// numbers, or the iterations are used up.
pub open spec fn is_ended<V: VarDomain>(
    instance: &HuboInstance<V>,
    node: &Node,
    d: Split,
    cfg: AscentConfig,
    unit: int,
    incumbent: Option<i64>,
    trace: Seq<Vec<Vec<i64>>>,
    points: Seq<DualPoint>,
) -> bool {
    let k = (points.len() - 1) as nat;
    if trace.len() == points.len() {
        !moves_at(instance, node, d, cfg, unit, incumbent, points.last(), k) || forall|
            next: Vec<Vec<i64>>,
        |
            !#[trigger] are_moved(
                V::tag(),
                d.pieces@,
                trace.last()@,
                points.last(),
                length_at(instance, node, d, cfg, unit, incumbent, points.last(), k),
                next@,
            )
    } else {
        points.len() == iterations(cfg) || !lagrangian::dual_fits(
            unit,
            d.constant as int,
            d.pieces@,
            trace.last()@,
        )
    }
}

/// The ascent from some multipliers, with its best bound and last multipliers.
pub open spec fn is_ascent<V: VarDomain>(
    instance: &HuboInstance<V>,
    node: &Node,
    d: Split,
    cfg: AscentConfig,
    unit: int,
    incumbent: Option<i64>,
    start: Seq<Vec<i64>>,
    trace: Seq<Vec<Vec<i64>>>,
    points: Seq<DualPoint>,
    r: (i64, Vec<Vec<i64>>),
) -> bool {
    &&& is_path(instance, node, d, cfg, unit, incumbent, trace, points)
    &&& 0 < points.len() <= iterations(cfg)
    &&& trace[0]@ == start
    &&& is_ended(instance, node, d, cfg, unit, incumbent, trace, points)
    &&& r.0 == best_bound(points, unit, points.len())
    &&& r.1 == trace.last()
}

/// The value to reach at an assignment.
fn target_of<V: VarDomain>(
    instance: &HuboInstance<V>,
    node: &Node,
    x: &Vec<bool>,
    incumbent: Option<i64>,
) -> (r: i64)
    requires
        instance.wf(),
        instance.fits(),
        node.describes(instance),
        x@.len() == instance.n(),
    ensures
        r == target_value(instance, node, x@, incumbent),
{
    let n: usize = instance.n_vars();
    let mut bits: Vec<bool> = Vec::new();
    let mut i: usize = 0;
    while i < n
        invariant
            i <= n,
            n == instance.n(),
            node.fixed@.len() == n,
            node.fixed.wf(),
            x@.len() == n,
            bits@ == completed(x@, node.fixed@).take(i as int),
        decreases n - i,
    {
        let b: bool = match node.fixed.get(i) {
            Some(b) => b,
            None => x[i],
        };
        bits.push(b);
        i += 1;
        assert(bits@ =~= completed(x@, node.fixed@).take(i as int));
    }
    assert(bits@ =~= completed(x@, node.fixed@));
    let o: i64 = objective_of(instance, bits);
    match incumbent {
        Some(u) => if u < o {
            u
        } else {
            o
        },
        None => o,
    }
}

/// The objective of an assignment.
fn objective_of<V: VarDomain>(instance: &HuboInstance<V>, bits: Vec<bool>) -> (r: i64)
    requires
        instance.wf(),
        instance.fits(),
        bits@.len() == instance.n(),
    ensures
        r == instance.objective(bits@),
{
    proof {
        walk::lemma_objective_fits(instance, bits@);
    }
    let s = BitSolution::from_bool_vec(bits);
    s.evaluate(instance)
}

/// How many copies of a piece differ from their variables, unless too many.
fn count_piece(vars: &Vec<usize>, x: &Vec<bool>, y: &Vec<bool>, before: i64) -> (r: Option<i64>)
    requires
        term::indices_below(vars@, x@.len() as int),
        y@.len() == vars@.len(),
        before >= 0,
    ensures
        match r {
            Some(c) => c == before + differing(vars@, x@, y@, vars@.len()) && c <= i64::MAX / 4,
            None => before + differing(vars@, x@, y@, vars@.len()) > i64::MAX / 4,
        },
{
    let mut c: i64 = before;
    let mut j: usize = 0;
    while j < vars.len()
        invariant
            j <= vars@.len(),
            term::indices_below(vars@, x@.len() as int),
            y@.len() == vars@.len(),
            before >= 0,
            c == before + differing(vars@, x@, y@, j as nat),
        decreases vars@.len() - j,
    {
        assert(vars@[j as int] < x@.len());
        if y[j] != x[vars[j]] {
            if c >= i64::MAX / 4 {
                proof {
                    lemma_differing_grows(vars@, x@, y@, (j + 1) as nat, vars@.len());
                }
                return None;
            }
            c = c + 1;
        }
        j += 1;
    }
    if c > i64::MAX / 4 {
        return None;
    }
    Some(c)
}

proof fn lemma_differing_grows(vars: Seq<usize>, x: Seq<bool>, y: Seq<bool>, j: nat, k: nat)
    requires
        j <= k,
    ensures
        differing(vars, x, y, j) <= differing(vars, x, y, k),
    decreases k,
{
    if j < k {
        lemma_differing_grows(vars, x, y, j, (k - 1) as nat);
    }
}

proof fn lemma_all_differing_grows(pieces: Seq<Piece>, p: DualPoint, j: nat, k: nat)
    requires
        j <= k,
    ensures
        all_differing(pieces, p, j) <= all_differing(pieces, p, k),
    decreases k,
{
    if j < k {
        lemma_all_differing_grows(pieces, p, j, (k - 1) as nat);
    }
}

/// The squared length of the differences, where it is a number of the machine.
fn length_of<V: VarDomain>(n: usize, pieces: &Vec<Piece>, p: &DualPoint) -> (r: Option<i64>)
    requires
        p.x@.len() == n,
        p.y@.len() == pieces@.len(),
        forall|i: int| 0 <= i < pieces@.len() ==> lagrangian::is_piece(n as nat, #[trigger] pieces@[i]),
        forall|i: int|
            0 <= i < pieces@.len() ==> (#[trigger] p.y@[i])@.len() == pieces@[i].vars@.len(),
    ensures
        match r {
            Some(c) => c == squared_length(V::tag(), pieces@, *p),
            None => squared_length(V::tag(), pieces@, *p) > i64::MAX / 4,
        },
{
    let mut c: i64 = 0;
    let mut i: usize = 0;
    while i < pieces.len()
        invariant
            i <= pieces@.len(),
            p.x@.len() == n,
            p.y@.len() == pieces@.len(),
            forall|i: int|
                0 <= i < pieces@.len() ==> lagrangian::is_piece(n as nat, #[trigger] pieces@[i]),
            forall|i: int|
                0 <= i < pieces@.len() ==> (#[trigger] p.y@[i])@.len() == pieces@[i].vars@.len(),
            0 <= c <= i64::MAX / 4,
            c == all_differing(pieces@, *p, i as nat),
        decreases pieces@.len() - i,
    {
        assert(lagrangian::is_piece(n as nat, pieces@[i as int]));
        assert(p.y@[i as int]@.len() == pieces@[i as int].vars@.len());
        match count_piece(&pieces[i].vars, &p.x, &p.y[i], c) {
            Some(d) => {
                c = d;
            },
            None => {
                proof {
                    lemma_all_differing_grows(pieces@, *p, (i + 1) as nat, pieces@.len());
                }
                return None;
            },
        }
        i += 1;
    }
    match V::var_type() {
        VarType::Bin => Some(c),
        VarType::Spin => Some(c * 4),
    }
}

/// The multipliers of a piece after a step, where they are numbers of the
/// machine.
fn move_piece<V: VarDomain>(
    vars: &Vec<usize>,
    mu: &Vec<i64>,
    x: &Vec<bool>,
    y: &Vec<bool>,
    alpha: i64,
) -> (r: Option<Vec<i64>>)
    requires
        term::indices_below(vars@, x@.len() as int),
        mu@.len() == vars@.len(),
        y@.len() == vars@.len(),
        alpha >= 0,
    ensures
        match r {
            Some(next) => is_moved(V::tag(), vars@, mu@, x@, y@, alpha as int, next@),
            None => forall|next: Seq<i64>|
                !#[trigger] is_moved(V::tag(), vars@, mu@, x@, y@, alpha as int, next),
        },
{
    let vt = V::var_type();
    let mut next: Vec<i64> = Vec::new();
    let mut j: usize = 0;
    while j < vars.len()
        invariant
            j <= vars@.len(),
            vt == V::tag(),
            term::indices_below(vars@, x@.len() as int),
            mu@.len() == vars@.len(),
            y@.len() == vars@.len(),
            alpha >= 0,
            next@.len() == j,
            forall|i: int|
                0 <= i < j ==> #[trigger] next@[i] == mu@[i] + alpha * (term::bit_value(vt, y@[i])
                    - term::bit_value(vt, x@[vars@[i] as int])),
        decreases vars@.len() - j,
    {
        assert(vars@[j as int] < x@.len());
        let up: bool = y[j];
        let at: bool = x[vars[j]];
        let size: i128 = match vt {
            VarType::Bin => 1,
            VarType::Spin => 2,
        };
        let m: i128 = mu[j] as i128;
        let a: i128 = alpha as i128;
        let v: i128 = if up == at {
            m
        } else if up {
            m + a * size
        } else {
            m - a * size
        };
        proof {
            let g = term::bit_value(vt, up) - term::bit_value(vt, at);
            let z: int = size as int;
            assert(g == (if up == at {
                0int
            } else if up {
                z
            } else {
                -z
            }));
            assert(alpha * 0 == 0 && alpha * (-z) == -(alpha * z)) by (nonlinear_arith);
        }
        if v < i64::MIN as i128 || v > i64::MAX as i128 {
            proof {
                assert forall|next: Seq<i64>|
                    !#[trigger] is_moved(vt, vars@, mu@, x@, y@, alpha as int, next) by {
                    if is_moved(vt, vars@, mu@, x@, y@, alpha as int, next) {
                        let w = next[j as int];
                        assert(w == v);
                    }
                }
            }
            return None;
        }
        next.push(v as i64);
        j += 1;
    }
    Some(next)
}

/// The multipliers of all pieces after a step, where they are numbers of the
/// machine.
fn move_all<V: VarDomain>(
    n: usize,
    pieces: &Vec<Piece>,
    mus: &Vec<Vec<i64>>,
    p: &DualPoint,
    alpha: i64,
) -> (r: Option<Vec<Vec<i64>>>)
    requires
        lagrangian::are_priced(n as nat, pieces@, mus@),
        p.x@.len() == n,
        p.y@.len() == pieces@.len(),
        forall|i: int|
            0 <= i < pieces@.len() ==> (#[trigger] p.y@[i])@.len() == pieces@[i].vars@.len(),
        alpha >= 0,
    ensures
        match r {
            Some(next) => are_moved(V::tag(), pieces@, mus@, *p, alpha as int, next@)
                && lagrangian::are_priced(n as nat, pieces@, next@),
            None => forall|next: Vec<Vec<i64>>|
                !#[trigger] are_moved(V::tag(), pieces@, mus@, *p, alpha as int, next@),
        },
{
    let mut next: Vec<Vec<i64>> = Vec::new();
    let mut i: usize = 0;
    while i < pieces.len()
        invariant
            i <= pieces@.len(),
            lagrangian::are_priced(n as nat, pieces@, mus@),
            p.x@.len() == n,
            p.y@.len() == pieces@.len(),
            forall|i: int|
                0 <= i < pieces@.len() ==> (#[trigger] p.y@[i])@.len() == pieces@[i].vars@.len(),
            alpha >= 0,
            next@.len() == i,
            forall|k: int|
                0 <= k < i ==> is_moved(
                    V::tag(),
                    pieces@[k].vars@,
                    mus@[k]@,
                    p.x@,
                    p.y@[k]@,
                    alpha as int,
                    (#[trigger] next@[k])@,
                ),
        decreases pieces@.len() - i,
    {
        assert(lagrangian::is_piece(n as nat, pieces@[i as int]));
        assert(p.y@[i as int]@.len() == pieces@[i as int].vars@.len());
        assert(mus@[i as int]@.len() == pieces@[i as int].vars@.len());
        match move_piece::<V>(&pieces[i].vars, &mus[i], &p.x, &p.y[i], alpha) {
            Some(m) => {
                next.push(m);
            },
            None => {
                proof {
                    assert forall|other: Vec<Vec<i64>>|
                        !#[trigger] are_moved(
                            V::tag(),
                            pieces@,
                            mus@,
                            *p,
                            alpha as int,
                            other@,
                        ) by {
                        if are_moved(V::tag(), pieces@, mus@, *p, alpha as int, other@) {
                            let o = other@[i as int]@;
                            assert(is_moved(
                                V::tag(),
                                pieces@[i as int].vars@,
                                mus@[i as int]@,
                                p.x@,
                                p.y@[i as int]@,
                                alpha as int,
                                o,
                            ));
                        }
                    }
                }
                return None;
            },
        }
        i += 1;
    }
    Some(next)
}

/// What is left of a share after a step.
fn next_share(share: i64, decay: i64, unit: i64) -> (r: i64)
    requires
        share >= 0,
        unit >= 1,
    ensures
        r == share * clamped(decay as int, unit as int) / (unit as int),
        0 <= r <= share,
{
    let c: i64 = if decay < 0 {
        0
    } else if decay > unit {
        unit
    } else {
        decay
    };
    proof {
        assert(share * c <= i64::MAX * i64::MAX) by (nonlinear_arith)
            requires
                0 <= share <= i64::MAX,
                0 <= c <= i64::MAX,
        ;
        assert(0 <= share * c <= share * unit) by (nonlinear_arith)
            requires
                0 <= share,
                0 <= c <= unit,
        ;
        assert(0 <= (share * c) / (unit as int) <= share) by (nonlinear_arith)
            requires
                0 <= share * c <= share * unit,
                unit >= 1,
        ;
    }
    let product: i128 = share as i128 * c as i128;
    (product / unit as i128) as i64
}

/// The length of a step, where one is made.
fn step_of(cfg: &AscentConfig, share: i64, gap: i128, length: Option<i64>, unit: i64) -> (r: Option<
    i64,
>)
    requires
        unit >= 1,
    ensures
        match length {
            Some(c) => match r {
                Some(a) => goes_on(*cfg, share as int, gap as int, c as int, unit as int) && a
                    == step_length(share as int, gap as int, c as int, unit as int) && a >= 0,
                None => !goes_on(*cfg, share as int, gap as int, c as int, unit as int),
            },
            None => r is None,
        },
{
    let c: i64 = match length {
        Some(c) => c,
        None => {
            return None;
        },
    };
    if c <= 0 || c > i64::MAX / 4 || share <= 0 || gap <= 0 || gap > i64::MAX as i128 || gap
        <= cfg.optimality_tol as i128 {
        return None;
    }
    proof {
        assert(0 <= share * gap <= i64::MAX * i64::MAX) by (nonlinear_arith)
            requires
                0 < share <= i64::MAX,
                0 < gap <= i64::MAX,
        ;
        assert(0 < unit * c <= i64::MAX * i64::MAX) by (nonlinear_arith)
            requires
                1 <= unit <= i64::MAX,
                0 < c <= i64::MAX,
        ;
        assert(0 <= (share * gap) / (unit * c)) by (nonlinear_arith)
            requires
                0 <= share * gap,
                0 < unit * c,
        ;
    }
    let a: i128 = (share as i128 * gap) / (unit as i128 * c as i128);
    if a > i64::MAX as i128 {
        return None;
    }
    Some(a as i64)
}

/// Ascend from some multipliers; none where the bound at the start is none.
pub fn ascend<V: VarDomain>(
    instance: &HuboInstance<V>,
    node: &Node,
    d: &Split,
    cfg: &AscentConfig,
    unit: i64,
    incumbent: Option<i64>,
    start: Vec<Vec<i64>>,
) -> (r: Option<(i64, Vec<Vec<i64>>)>)
    requires
        instance.wf(),
        instance.fits(),
        node.describes(instance),
        subgradient::splits(instance, node, *d),
        unit >= 1,
    ensures
        match r {
            Some(best) => {
                &&& exists|trace: Seq<Vec<Vec<i64>>>, points: Seq<DualPoint>| #[trigger]
                    is_ascent(
                        instance,
                        node,
                        *d,
                        *cfg,
                        unit as int,
                        incumbent,
                        start@,
                        trace,
                        points,
                        best,
                    )
                &&& crate::bounds::bounds_below(instance, node.fixed@, best.0 as int)
            },
            None => !lagrangian::are_priced(instance.n() as nat, d.pieces@, start@)
                || !lagrangian::dual_fits(unit as int, d.constant as int, d.pieces@, start@),
        },
{
    let n: usize = instance.n_vars();
    let limit: usize = if cfg.max_iter == 0 {
        1
    } else {
        cfg.max_iter
    };
    let mut share: i64 = if cfg.step_size < 0 {
        0
    } else {
        cfg.step_size
    };
    let ghost start0 = start@;
    let mut mus = start;
    let mut best: i64 = i64::MIN;
    let mut it: usize = 0;
    let ghost mut trace: Seq<Vec<Vec<i64>>> = seq![mus];
    let ghost mut points: Seq<DualPoint> = Seq::empty();
    let ghost u = unit as int;
    while it < limit
        invariant_except_break
            share >= 0,
            share == share_at(*cfg, u, it as nat),
            trace.len() == it + 1,
        invariant
            it <= limit,
            limit == iterations(*cfg),
            n == instance.n(),
            u == unit,
            unit >= 1,
            instance.wf(),
            instance.fits(),
            node.describes(instance),
            subgradient::splits(instance, node, *d),
            points.len() == it,
            trace.len() > 0,
            trace.last() == mus,
            trace[0]@ == start0,
            is_path(instance, node, *d, *cfg, u, incumbent, trace, points),
            best == best_bound(points, u, points.len()),
            it > 0 ==> crate::bounds::bounds_below(instance, node.fixed@, best as int),
            it > 0 ==> lagrangian::are_priced(n as nat, d.pieces@, mus@),
        ensures
            points.len() == limit || points.len() == 0 || is_ended(
                instance,
                node,
                *d,
                *cfg,
                u,
                incumbent,
                trace,
                points,
            ),
            points.len() <= limit,
            points.len() <= trace.len() <= points.len() + 1,
            points.len() == limit ==> trace.len() == limit + 1 || is_ended(
                instance,
                node,
                *d,
                *cfg,
                u,
                incumbent,
                trace,
                points,
            ),
            points.len() == 0 ==> mus@ == start0 && (!lagrangian::are_priced(
                n as nat,
                d.pieces@,
                mus@,
            ) || !lagrangian::dual_fits(u, d.constant as int, d.pieces@, mus@)),
            trace.last() == mus,
            trace[0]@ == start0,
            is_path(instance, node, *d, *cfg, u, incumbent, trace, points),
            best == best_bound(points, u, points.len()),
            points.len() > 0 ==> crate::bounds::bounds_below(instance, node.fixed@, best as int),
            it == 0 <==> points.len() == 0,
        decreases limit - it,
    {
        let (b, p) = match subgradient::bound_at(instance, node, d, &mus, unit) {
            Some(v) => v,
            None => {
                break;
            },
        };
        let ghost k = it as nat;
        let ghost p0 = points;
        let ghost t0 = trace;
        if b > best {
            best = b;
        }
        proof {
            points = points.push(p);
            lemma_path_point(instance, node, *d, *cfg, u, incumbent, trace, p0, p);
            lemma_best_push(p0, p, u);
        }
        let length: Option<i64> = length_of::<V>(n, &d.pieces, &p);
        let target: i64 = target_of(instance, node, &p.x, incumbent);
        proof {
            assert(-(i64::MAX + 1) * i64::MAX <= unit * target <= i64::MAX * i64::MAX)
                by (nonlinear_arith)
                requires
                    1 <= unit <= i64::MAX,
                    -(i64::MAX + 1) <= target <= i64::MAX,
            ;
        }
        let gap: i128 = unit as i128 * target as i128 - p.value as i128;
        it += 1;
        match step_of(cfg, share, gap, length, unit) {
            Some(alpha) => {
                match move_all::<V>(n, &d.pieces, &mus, &p, alpha) {
                    Some(next) => {
                        proof {
                            trace = trace.push(next);
                            lemma_path_move(
                                instance,
                                node,
                                *d,
                                *cfg,
                                u,
                                incumbent,
                                t0,
                                points,
                                next,
                            );
                        }
                        mus = next;
                        share = next_share(share, cfg.step_decay, unit);
                    },
                    None => {
                        break;
                    },
                }
            },
            None => {
                break;
            },
        }
    }
    if it == 0 {
        return None;
    }
    let r = (best, mus);
    assert(is_ascent(instance, node, *d, *cfg, u, incumbent, start0, trace, points, r));
    Some(r)
}

proof fn lemma_best_push(points: Seq<DualPoint>, p: DualPoint, unit: int)
    ensures
        best_bound(points.push(p), unit, points.len() + 1) == (if lagrangian::unit_bound(
            p.value as int,
            unit,
        ) > best_bound(points, unit, points.len()) {
            lagrangian::unit_bound(p.value as int, unit)
        } else {
            best_bound(points, unit, points.len())
        }),
{
    lemma_best_same(points, points.push(p), unit, points.len());
}

proof fn lemma_best_same(a: Seq<DualPoint>, b: Seq<DualPoint>, unit: int, k: nat)
    requires
        k <= a.len(),
        k <= b.len(),
        forall|i: int| 0 <= i < k ==> a[i] == #[trigger] b[i],
    ensures
        best_bound(a, unit, k) == best_bound(b, unit, k),
    decreases k,
{
    if k > 0 {
        lemma_best_same(a, b, unit, (k - 1) as nat);
        let k1 = k - 1;
        assert(a[k1] == b[k1]);
    }
}

proof fn lemma_path_point<V: VarDomain>(
    instance: &HuboInstance<V>,
    node: &Node,
    d: Split,
    cfg: AscentConfig,
    unit: int,
    incumbent: Option<i64>,
    trace: Seq<Vec<Vec<i64>>>,
    points: Seq<DualPoint>,
    p: DualPoint,
)
    requires
        is_path(instance, node, d, cfg, unit, incumbent, trace, points),
        trace.len() == points.len() + 1,
        is_point(instance, d, unit, trace.last()@, p),
    ensures
        is_path(instance, node, d, cfg, unit, incumbent, trace, points.push(p)),
{
    let q = points.push(p);
    assert forall|k: int| 0 <= k < trace.len() - 1 implies moves_at(
        instance,
        node,
        d,
        cfg,
        unit,
        incumbent,
        #[trigger] q[k],
        k as nat,
    ) && are_moved(
        V::tag(),
        d.pieces@,
        trace[k]@,
        q[k],
        length_at(instance, node, d, cfg, unit, incumbent, q[k], k as nat),
        trace[k + 1]@,
    ) by {
        assert(q[k] == points[k]);
    }
    assert forall|k: int| 0 <= k < q.len() implies is_point(
        instance,
        d,
        unit,
        trace[k]@,
        #[trigger] q[k],
    ) by {
        if k < points.len() {
            assert(q[k] == points[k]);
        }
    }
}

proof fn lemma_path_move<V: VarDomain>(
    instance: &HuboInstance<V>,
    node: &Node,
    d: Split,
    cfg: AscentConfig,
    unit: int,
    incumbent: Option<i64>,
    trace: Seq<Vec<Vec<i64>>>,
    points: Seq<DualPoint>,
    next: Vec<Vec<i64>>,
)
    requires
        is_path(instance, node, d, cfg, unit, incumbent, trace, points),
        trace.len() == points.len(),
        points.len() > 0,
        moves_at(
            instance,
            node,
            d,
            cfg,
            unit,
            incumbent,
            points.last(),
            (points.len() - 1) as nat,
        ),
        are_moved(
            V::tag(),
            d.pieces@,
            trace.last()@,
            points.last(),
            length_at(
                instance,
                node,
                d,
                cfg,
                unit,
                incumbent,
                points.last(),
                (points.len() - 1) as nat,
            ),
            next@,
        ),
    ensures
        is_path(instance, node, d, cfg, unit, incumbent, trace.push(next), points),
{
    let t = trace.push(next);
    assert forall|k: int| 0 <= k < t.len() - 1 implies moves_at(
        instance,
        node,
        d,
        cfg,
        unit,
        incumbent,
        #[trigger] points[k],
        k as nat,
    ) && are_moved(
        V::tag(),
        d.pieces@,
        t[k]@,
        points[k],
        length_at(instance, node, d, cfg, unit, incumbent, points[k], k as nat),
        t[k + 1]@,
    ) by {
        assert(t[k] == trace[k]);
        if k < trace.len() - 1 {
            assert(t[k + 1] == trace[k + 1]);
        }
    }
    assert forall|k: int| 0 <= k < points.len() implies is_point(
        instance,
        d,
        unit,
        t[k]@,
        #[trigger] points[k],
    ) by {
        assert(t[k] == trace[k]);
    }
}

/// No bound on the way is above the best one.
pub proof fn best_is_largest<V: VarDomain>(
    instance: &HuboInstance<V>,
    node: &Node,
    d: Split,
    cfg: AscentConfig,
    unit: int,
    incumbent: Option<i64>,
    start: Seq<Vec<i64>>,
    trace: Seq<Vec<Vec<i64>>>,
    points: Seq<DualPoint>,
    r: (i64, Vec<Vec<i64>>),
    k: int,
)
    requires
        is_ascent(instance, node, d, cfg, unit, incumbent, start, trace, points, r),
        0 <= k < points.len(),
    ensures
        lagrangian::unit_bound(points[k].value as int, unit) <= r.0,
{
    lemma_best_is_largest(points, unit, k, points.len());
}

proof fn lemma_best_is_largest(points: Seq<DualPoint>, unit: int, j: int, k: nat)
    requires
        0 <= j < k <= points.len(),
    ensures
        lagrangian::unit_bound(points[j].value as int, unit) <= best_bound(points, unit, k),
    decreases k,
{
    if j < k - 1 {
        lemma_best_is_largest(points, unit, j, (k - 1) as nat);
    }
}

/// The last of the first `k` prices of a variable, zero where there is none.
pub open spec fn price_in(prices: Seq<(usize, i64)>, v: usize, k: nat) -> i64
    decreases k,
{
    if k == 0 {
        0
    } else if prices[k - 1].0 == v {
        prices[k - 1].1
    } else {
        price_in(prices, v, (k - 1) as nat)
    }
}

/// The price of a variable in a term by the last of the first `k` lists of that
/// term, zero where there is none.
pub open spec fn known_price(known: Seq<TermPrices>, t: usize, v: usize, k: nat) -> i64
    decreases k,
{
    if k == 0 {
        0
    } else if known[k - 1].term == t {
        price_in(known[k - 1].prices@, v, known[k - 1].prices@.len())
    } else {
        known_price(known, t, v, (k - 1) as nat)
    }
}

/// The multipliers of the pieces are the known ones.
pub open spec fn are_known(
    known: Seq<TermPrices>,
    ids: Seq<usize>,
    pieces: Seq<Piece>,
    mus: Seq<Vec<i64>>,
) -> bool {
    &&& mus.len() == pieces.len()
    &&& forall|i: int|
        0 <= i < pieces.len() ==> is_known(known, ids[i], pieces[i].vars@, (#[trigger] mus[i])@)
}

/// The multipliers of one piece are the known ones.
pub open spec fn is_known(known: Seq<TermPrices>, t: usize, vars: Seq<usize>, mu: Seq<i64>) -> bool {
    &&& mu.len() == vars.len()
    &&& forall|j: int|
        0 <= j < vars.len() ==> #[trigger] mu[j] == known_price(known, t, vars[j], known.len())
}

/// The known price of a variable in a term.
fn price_of_term(known: &Vec<TermPrices>, t: usize, v: usize) -> (r: i64)
    ensures
        r == known_price(known@, t, v, known@.len()),
{
    let mut r: i64 = 0;
    let mut k: usize = 0;
    while k < known.len()
        invariant
            k <= known@.len(),
            r == known_price(known@, t, v, k as nat),
        decreases known@.len() - k,
    {
        if known[k].term == t {
            r = 0;
            let mut j: usize = 0;
            while j < known[k].prices.len()
                invariant
                    k < known@.len(),
                    j <= known@[k as int].prices@.len(),
                    r == price_in(known@[k as int].prices@, v, j as nat),
                decreases known@[k as int].prices@.len() - j,
            {
                if known[k].prices[j].0 == v {
                    r = known[k].prices[j].1;
                }
                j += 1;
            }
        }
        k += 1;
    }
    r
}

/// The multipliers to start from.
fn known_multipliers(known: &Vec<TermPrices>, ids: &Vec<usize>, pieces: &Vec<Piece>) -> (mus: Vec<
    Vec<i64>,
>)
    requires
        ids@.len() == pieces@.len(),
    ensures
        are_known(known@, ids@, pieces@, mus@),
{
    let mut mus: Vec<Vec<i64>> = Vec::new();
    let mut i: usize = 0;
    while i < pieces.len()
        invariant
            i <= pieces@.len(),
            ids@.len() == pieces@.len(),
            mus@.len() == i,
            forall|k: int|
                0 <= k < i ==> is_known(
                    known@,
                    ids@[k],
                    pieces@[k].vars@,
                    (#[trigger] mus@[k])@,
                ),
        decreases pieces@.len() - i,
    {
        let mut mu: Vec<i64> = Vec::new();
        let mut j: usize = 0;
        while j < pieces[i].vars.len()
            invariant
                i < pieces@.len(),
                ids@.len() == pieces@.len(),
                j <= pieces@[i as int].vars@.len(),
                mu@.len() == j,
                forall|q: int|
                    0 <= q < j ==> #[trigger] mu@[q] == known_price(
                        known@,
                        ids@[i as int],
                        pieces@[i as int].vars@[q],
                        known@.len(),
                    ),
            decreases pieces@[i as int].vars@.len() - j,
        {
            mu.push(price_of_term(known, ids[i], pieces[i].vars[j]));
            j += 1;
        }
        mus.push(mu);
        i += 1;
    }
    mus
}

/// The lists name the terms of the pieces, with the multipliers of their
/// variables.
pub open spec fn are_listed(
    ids: Seq<usize>,
    pieces: Seq<Piece>,
    mus: Seq<Vec<i64>>,
    lists: Seq<TermPrices>,
) -> bool {
    &&& lists.len() == pieces.len()
    &&& forall|i: int|
        0 <= i < pieces.len() ==> (#[trigger] lists[i]).term == ids[i] && is_zip(
            pieces[i].vars@,
            mus[i]@,
            lists[i].prices@,
        )
}

/// Each variable with its multiplier.
pub open spec fn is_zip(vars: Seq<usize>, mu: Seq<i64>, prices: Seq<(usize, i64)>) -> bool {
    &&& prices.len() == vars.len()
    &&& forall|j: int| 0 <= j < vars.len() ==> #[trigger] prices[j] == (vars[j], mu[j])
}

/// The multipliers by term and variable.
fn list_prices(ids: &Vec<usize>, pieces: &Vec<Piece>, mus: &Vec<Vec<i64>>) -> (lists: Vec<
    TermPrices,
>)
    requires
        ids@.len() == pieces@.len(),
        mus@.len() == pieces@.len(),
        forall|i: int|
            0 <= i < pieces@.len() ==> (#[trigger] mus@[i])@.len() == pieces@[i].vars@.len(),
    ensures
        are_listed(ids@, pieces@, mus@, lists@),
{
    let mut lists: Vec<TermPrices> = Vec::new();
    let mut i: usize = 0;
    while i < pieces.len()
        invariant
            i <= pieces@.len(),
            ids@.len() == pieces@.len(),
            mus@.len() == pieces@.len(),
            forall|i: int|
                0 <= i < pieces@.len() ==> (#[trigger] mus@[i])@.len() == pieces@[i].vars@.len(),
            lists@.len() == i,
            forall|k: int|
                0 <= k < i ==> (#[trigger] lists@[k]).term == ids@[k] && is_zip(
                    pieces@[k].vars@,
                    mus@[k]@,
                    lists@[k].prices@,
                ),
        decreases pieces@.len() - i,
    {
        assert(mus@[i as int]@.len() == pieces@[i as int].vars@.len());
        let mut prices: Vec<(usize, i64)> = Vec::new();
        let mut j: usize = 0;
        while j < pieces[i].vars.len()
            invariant
                i < pieces@.len(),
                i < mus@.len(),
                mus@[i as int]@.len() == pieces@[i as int].vars@.len(),
                j <= pieces@[i as int].vars@.len(),
                prices@.len() == j,
                forall|q: int|
                    0 <= q < j ==> #[trigger] prices@[q] == (
                        pieces@[i as int].vars@[q],
                        mus@[i as int]@[q],
                    ),
            decreases pieces@[i as int].vars@.len() - j,
        {
            prices.push((pieces[i].vars[j], mus[i][j]));
            j += 1;
        }
        lists.push(TermPrices { term: ids[i], prices });
        i += 1;
    }
    lists
}

proof fn lemma_last_priced<V: VarDomain>(
    instance: &HuboInstance<V>,
    node: &Node,
    d: Split,
    cfg: AscentConfig,
    unit: int,
    incumbent: Option<i64>,
    trace: Seq<Vec<Vec<i64>>>,
    points: Seq<DualPoint>,
)
    requires
        is_path(instance, node, d, cfg, unit, incumbent, trace, points),
        points.len() > 0,
    ensures
        trace.last()@.len() == d.pieces@.len(),
        forall|i: int|
            0 <= i < d.pieces@.len() ==> (#[trigger] trace.last()@[i])@.len()
                == d.pieces@[i].vars@.len(),
{
    let k = points.len() - 1;
    assert(is_point(instance, d, unit, trace[k]@, points[k]));
    if trace.len() > points.len() {
        assert(moves_at(instance, node, d, cfg, unit, incumbent, points[k], k as nat));
        let next = trace[k + 1]@;
        assert forall|i: int| 0 <= i < d.pieces@.len() implies (#[trigger] next[i])@.len()
            == d.pieces@[i].vars@.len() by {
            assert(is_moved(
                V::tag(),
                d.pieces@[i].vars@,
                trace[k]@[i]@,
                points[k].x@,
                points[k].y@[i]@,
                length_at(instance, node, d, cfg, unit, incumbent, points[k], k as nat),
                next[i]@,
            ));
        }
    }
}

/// The pieces of a node's terms and the known multipliers.
pub open spec fn is_term_start<V: VarDomain>(
    instance: &HuboInstance<V>,
    node: &Node,
    known: Seq<TermPrices>,
    d: Split,
    ids: Seq<usize>,
    start: Seq<Vec<i64>>,
) -> bool {
    &&& d.constant == clusters::constant_of(instance, node)
    &&& !d.by_enumeration
    &&& clusters::are_term_pieces(node.term_status@, ids, d.pieces@)
    &&& are_known(known, ids, d.pieces@, start)
}

/// The best bound of an ascent, with its last multipliers by term and variable.
pub open spec fn is_term_result<V: VarDomain>(
    instance: &HuboInstance<V>,
    node: &Node,
    cfg: AscentConfig,
    unit: int,
    incumbent: Option<i64>,
    d: Split,
    ids: Seq<usize>,
    start: Seq<Vec<i64>>,
    r: (i64, Vec<TermPrices>),
) -> bool {
    exists|trace: Seq<Vec<Vec<i64>>>, points: Seq<DualPoint>, mus: Vec<Vec<i64>>| #[trigger]
        is_ascent(
            instance,
            node,
            d,
            cfg,
            unit,
            incumbent,
            start,
            trace,
            points,
            (r.0, mus),
        ) && are_listed(ids, d.pieces@, mus@, r.1@)
}

/// The bound of an ascent on the multipliers of a node's terms, from the known
/// ones; none where the bound at the start does not fit.
pub open spec fn is_term_bound<V: VarDomain>(
    instance: &HuboInstance<V>,
    node: &Node,
    cfg: AscentConfig,
    unit: int,
    incumbent: Option<i64>,
    known: Seq<TermPrices>,
    r: Option<(i64, Vec<TermPrices>)>,
) -> bool {
    exists|d: Split, ids: Seq<usize>, start: Seq<Vec<i64>>| #[trigger]
        is_term_start(instance, node, known, d, ids, start) && (match r {
            Some(best) => is_term_result(
                instance,
                node,
                cfg,
                unit,
                incumbent,
                d,
                ids,
                start,
                best,
            ),
            None => !lagrangian::dual_fits(unit, d.constant as int, d.pieces@, start),
        })
}

/// The bound by an ascent on the multipliers of a node's terms, from those
/// already known, with the multipliers that it ends at; none where the bound at
/// the start does not fit.
pub fn lagrangian_subgradient_lb<V: VarDomain>(
    instance: &HuboInstance<V>,
    node: &Node,
    cfg: &AscentConfig,
    unit: i64,
    incumbent: Option<i64>,
    known: &Vec<TermPrices>,
) -> (r: Option<(i64, Vec<TermPrices>)>)
    requires
        instance.wf(),
        instance.fits(),
        node.describes(instance),
        unit >= 1,
    ensures
        is_term_bound(instance, node, *cfg, unit as int, incumbent, known@, r),
        r matches Some(best) ==> crate::bounds::bounds_below(
            instance,
            node.fixed@,
            best.0 as int,
        ),
{
    let (d, ids) = subgradient::split_by_term(instance, node);
    let start = known_multipliers(known, &ids, &d.pieces);
    let ghost s = start@;
    assert(is_term_start(instance, node, known@, d, ids@, s));
    proof {
        assert forall|i: int| 0 <= i < d.pieces@.len() implies (#[trigger] s[i])@.len()
            == d.pieces@[i].vars@.len() by {
            assert(is_known(known@, ids@[i], d.pieces@[i].vars@, s[i]@));
        }
    }
    match ascend(instance, node, &d, cfg, unit, incumbent, start) {
        Some((best, mus)) => {
            let ghost u = unit as int;
            let ghost (trace, points) = choose|
                trace: Seq<Vec<Vec<i64>>>,
                points: Seq<DualPoint>,
            | #[trigger]
                is_ascent(
                    instance,
                    node,
                    d,
                    *cfg,
                    u,
                    incumbent,
                    s,
                    trace,
                    points,
                    (best, mus),
                );
            proof {
                lemma_last_priced(instance, node, d, *cfg, u, incumbent, trace, points);
            }
            let lists = list_prices(&ids, &d.pieces, &mus);
            let r = (best, lists);
            assert(is_ascent(
                instance,
                node,
                d,
                *cfg,
                u,
                incumbent,
                s,
                trace,
                points,
                (r.0, mus),
            ));
            assert(are_listed(ids@, d.pieces@, mus@, r.1@));
            assert(is_term_result(instance, node, *cfg, u, incumbent, d, ids@, s, r));
            Some(r)
        },
        None => None,
    }
}

/// The multipliers are all zero.
pub open spec fn are_zero(pieces: Seq<Piece>, mus: Seq<Vec<i64>>) -> bool {
    &&& mus.len() == pieces.len()
    &&& forall|i: int| 0 <= i < pieces.len() ==> is_zero(pieces[i].vars@, (#[trigger] mus[i])@)
}

/// The multipliers of one piece are zero.
pub open spec fn is_zero(vars: Seq<usize>, mu: Seq<i64>) -> bool {
    &&& mu.len() == vars.len()
    &&& forall|j: int| 0 <= j < mu.len() ==> #[trigger] mu[j] == 0
}

fn zero_multipliers(pieces: &Vec<Piece>) -> (mus: Vec<Vec<i64>>)
    ensures
        are_zero(pieces@, mus@),
{
    let mut mus: Vec<Vec<i64>> = Vec::new();
    let mut i: usize = 0;
    while i < pieces.len()
        invariant
            i <= pieces@.len(),
            mus@.len() == i,
            forall|k: int| 0 <= k < i ==> is_zero(pieces@[k].vars@, (#[trigger] mus@[k])@),
        decreases pieces@.len() - i,
    {
        let m: usize = pieces[i].vars.len();
        let mut mu: Vec<i64> = Vec::new();
        let mut j: usize = 0;
        while j < m
            invariant
                j <= m,
                mu@.len() == j,
                forall|q: int| 0 <= q < j ==> #[trigger] mu@[q] == 0,
            decreases m - j,
        {
            mu.push(0);
            j += 1;
        }
        mus.push(mu);
        i += 1;
    }
    mus
}

/// The pieces of a node's clusters and zero multipliers.
pub open spec fn is_cluster_start<V: VarDomain>(
    instance: &HuboInstance<V>,
    node: &Node,
    max_vars: usize,
    d: Option<Split>,
    start: Seq<Vec<i64>>,
) -> bool {
    &&& exists|order: Seq<usize>, groups: Seq<Cluster>, skipped: Seq<usize>, constant: int|
        #[trigger] subgradient::is_cluster_split(
            instance,
            node,
            subgradient::cluster_limit(max_vars),
            order,
            groups,
            skipped,
            constant,
        ) && subgradient::is_split_of(node, groups, constant, d)
    &&& d matches Some(v) ==> are_zero(v.pieces@, start)
}

/// The best bound of an ascent.
pub open spec fn is_cluster_result<V: VarDomain>(
    instance: &HuboInstance<V>,
    node: &Node,
    cfg: AscentConfig,
    unit: int,
    incumbent: Option<i64>,
    d: Split,
    start: Seq<Vec<i64>>,
    best: i64,
) -> bool {
    exists|trace: Seq<Vec<Vec<i64>>>, points: Seq<DualPoint>, mus: Vec<Vec<i64>>| #[trigger]
        is_ascent(instance, node, d, cfg, unit, incumbent, start, trace, points, (best, mus))
}

/// The bound of an ascent on the multipliers of a node's clusters; none where the
/// constant or the bound at the start does not fit.
pub open spec fn is_cluster_bound<V: VarDomain>(
    instance: &HuboInstance<V>,
    node: &Node,
    cfg: AscentConfig,
    max_cluster_vars: usize,
    unit: int,
    incumbent: Option<i64>,
    r: Option<i64>,
) -> bool {
    exists|d: Option<Split>, start: Seq<Vec<i64>>| #[trigger]
        is_cluster_start(instance, node, max_cluster_vars, d, start) && (match (d, r) {
            (Some(v), Some(best)) => is_cluster_result(
                instance,
                node,
                cfg,
                unit,
                incumbent,
                v,
                start,
                best,
            ),
            (Some(v), None) => !lagrangian::dual_fits(unit, v.constant as int, v.pieces@, start),
            (None, _) => r is None,
        })
}

/// The bound by an ascent on the multipliers of a node's clusters; none where
/// the constant or the bound at the start does not fit.
pub fn cluster_subgradient_lb<V: VarDomain>(
    instance: &HuboInstance<V>,
    node: &Node,
    cfg: &AscentConfig,
    max_cluster_vars: usize,
    unit: i64,
    incumbent: Option<i64>,
) -> (r: Option<i64>)
    requires
        instance.wf(),
        instance.fits(),
        node.describes(instance),
        unit >= 1,
    ensures
        is_cluster_bound(instance, node, *cfg, max_cluster_vars, unit as int, incumbent, r),
        r matches Some(best) ==> crate::bounds::bounds_below(instance, node.fixed@, best as int),
{
    let split: Option<Split> = subgradient::split_clusters(instance, node, max_cluster_vars);
    let ghost none = Seq::<Vec<i64>>::empty();
    let ghost g = split;
    match split {
        Some(d) => {
            let start = zero_multipliers(&d.pieces);
            let ghost s = start@;
            proof {
                assert(is_cluster_start(instance, node, max_cluster_vars, g, s));
                assert forall|i: int| 0 <= i < d.pieces@.len() implies (#[trigger] s[i])@.len()
                    == d.pieces@[i].vars@.len() by {
                    assert(is_zero(d.pieces@[i].vars@, s[i]@));
                }
            }
            match ascend(instance, node, &d, cfg, unit, incumbent, start) {
                Some((best, mus)) => {
                    assert(is_cluster_result(
                        instance,
                        node,
                        *cfg,
                        unit as int,
                        incumbent,
                        d,
                        s,
                        best,
                    ));
                    Some(best)
                },
                None => None,
            }
        },
        None => {
            assert(is_cluster_start(instance, node, max_cluster_vars, g, none));
            None
        },
    }
}

/// How many units make one in the settings of the bounds below.
pub const UNIT: i64 = 1000000;

/// The bound by an ascent on the multipliers of the terms. All but the number of
/// iterations are in millionths.
#[derive(Clone, Copy, Debug)]
pub struct Subgradient {
    pub max_iter: usize,
    pub step_size: i64,
    pub step_decay: i64,
    pub optimality_tol: i64,
}

impl Default for Subgradient {
    fn default() -> (r: Self)
        ensures
            r == (Subgradient {
                max_iter: 64,
                step_size: UNIT,
                step_decay: UNIT,
                optimality_tol: 10,
            }),
    {
        Subgradient { max_iter: 64, step_size: UNIT, step_decay: UNIT, optimality_tol: 10 }
    }
}

/// The bound by an ascent on the multipliers of clusters of terms. All but the
/// numbers of iterations and variables are in millionths.
#[derive(Clone, Copy, Debug)]
pub struct ClusterSubgradient {
    pub max_iter: usize,
    pub step_size: i64,
    pub step_decay: i64,
    pub optimality_tol: i64,
    /// The most variables of a cluster, up to the limit of clusters.
    pub max_cluster_vars: usize,
}

impl Default for ClusterSubgradient {
    fn default() -> (r: Self)
        ensures
            r == (ClusterSubgradient {
                max_iter: 64,
                step_size: UNIT,
                step_decay: UNIT,
                optimality_tol: 10,
                max_cluster_vars: 15,
            }),
    {
        ClusterSubgradient {
            max_iter: 64,
            step_size: UNIT,
            step_decay: UNIT,
            optimality_tol: 10,
            max_cluster_vars: 15,
        }
    }
}

/// The larger of a bound and another one, where there is another one.
pub open spec fn better(c: int, other: Option<i64>) -> int {
    match other {
        Some(b) => if b > c {
            b as int
        } else {
            c
        },
        None => c,
    }
}

/// The first of a result.
pub open spec fn bound_of_result(r: Option<(i64, Vec<TermPrices>)>) -> Option<i64> {
    match r {
        Some(v) => Some(v.0),
        None => None,
    }
}

impl Subgradient {
    /// The steps of the ascent.
    pub open spec fn steps(&self) -> AscentConfig {
        AscentConfig {
            max_iter: self.max_iter,
            step_size: self.step_size,
            step_decay: self.step_decay,
            optimality_tol: self.optimality_tol,
        }
    }
}

impl ClusterSubgradient {
    /// The steps of the ascent.
    pub open spec fn steps(&self) -> AscentConfig {
        AscentConfig {
            max_iter: self.max_iter,
            step_size: self.step_size,
            step_decay: self.step_decay,
            optimality_tol: self.optimality_tol,
        }
    }
}

/// The multipliers that a node keeps.
pub open spec fn kept_prices(node: &Node) -> Seq<TermPrices> {
    match node.prices {
        Some(p) => p@,
        None => Seq::empty(),
    }
}

/// The better of the bound of an ascent from the node's multipliers and the cheap
/// bound.
pub open spec fn is_subgradient_bound<V: VarDomain>(
    instance: &HuboInstance<V>,
    node: &Node,
    cfg: AscentConfig,
    ub: Option<i64>,
    b: Option<(i64, Vec<TermPrices>)>,
    r: int,
) -> bool {
    &&& is_term_bound(instance, node, cfg, UNIT as int, ub, kept_prices(node), b)
    &&& exists|c: int| #[trigger]
        cheap::is_cheap_bound(instance, node, c) && r == better(c, bound_of_result(b))
}

/// The node keeps the multipliers that the ascent ended at.
pub open spec fn keeps_prices(
    before: &Node,
    b: Option<(i64, Vec<TermPrices>)>,
    after: &Node,
) -> bool {
    match b {
        Some(v) => after.prices == Some(v.1),
        None => after.prices == before.prices,
    }
}

impl<V: VarDomain> crate::bounds::LowerBound<V> for Subgradient {
    open spec fn is_bound(
        &self,
        instance: &HuboInstance<V>,
        node: &Node,
        ub: Option<i64>,
        r: int,
    ) -> bool {
        exists|b: Option<(i64, Vec<TermPrices>)>| #[trigger]
            is_subgradient_bound(instance, node, self.steps(), ub, b, r)
    }

    open spec fn is_core(
        &self,
        instance: &HuboInstance<V>,
        node: &Node,
        b: int,
        core: Option<Seq<usize>>,
    ) -> bool {
        core is None
    }

    /// No contradiction comes with the bound.
    fn compute_with_core(
        &self,
        instance: &HuboInstance<V>,
        node: &mut Node,
        incumbent_ub: Option<i64>,
    ) -> (r: (i64, Option<Vec<usize>>))
        ensures
            r.1 is None,
    {
        (self.compute(instance, node, incumbent_ub), None)
    }

    /// The better of the bound of the ascent and the cheap bound. The ascent starts
    /// from the multipliers of the node and leaves its own there.
    fn compute(
        &self,
        instance: &HuboInstance<V>,
        node: &mut Node,
        incumbent_ub: Option<i64>,
    ) -> (r: i64)
        ensures
            exists|b: Option<(i64, Vec<TermPrices>)>| #[trigger]
                is_subgradient_bound(
                    instance,
                    old(node),
                    self.steps(),
                    incumbent_ub,
                    b,
                    r as int,
                ) && keeps_prices(old(node), b, final(node)),
    {
        let cfg = AscentConfig {
            max_iter: self.max_iter,
            step_size: self.step_size,
            step_decay: self.step_decay,
            optimality_tol: self.optimality_tol,
        };
        let ghost n0 = *node;
        let n_terms: usize = instance.terms.len();
        let none: Vec<TermPrices> = Vec::new();
        assert(none@ =~= Seq::empty());
        let b = match &node.prices {
            Some(p) => lagrangian_subgradient_lb(instance, node, &cfg, UNIT, incumbent_ub, p),
            None => lagrangian_subgradient_lb(instance, node, &cfg, UNIT, incumbent_ub, &none),
        };
        let c: i64 = cheap::compute(instance, node);
        proof {
            crate::bounds::lemma_cheap_bounds(instance, &n0, c as int);
        }
        let ghost gb = b;
        let r: i64 = match b {
            Some((v, lists)) => {
                node.prices = Some(lists);
                coeff::max_of(v, c)
            },
            None => c,
        };
        proof {
            assert(r == better(c as int, bound_of_result(gb)));
            assert(cheap::is_cheap_bound(instance, &n0, c as int));
            assert(is_subgradient_bound(instance, &n0, self.steps(), incumbent_ub, gb, r as int));
        }
        r
    }
}

impl<V: VarDomain> crate::bounds::LowerBound<V> for ClusterSubgradient {
    open spec fn is_bound(
        &self,
        instance: &HuboInstance<V>,
        node: &Node,
        ub: Option<i64>,
        r: int,
    ) -> bool {
        exists|c: int, b: Option<i64>|
            #![trigger cheap::is_cheap_bound(instance, node, c), better(c, b)]
            cheap::is_cheap_bound(instance, node, c) && is_cluster_bound(
                instance,
                node,
                self.steps(),
                self.max_cluster_vars,
                UNIT as int,
                ub,
                b,
            ) && r == better(c, b)
    }

    open spec fn is_core(
        &self,
        instance: &HuboInstance<V>,
        node: &Node,
        b: int,
        core: Option<Seq<usize>>,
    ) -> bool {
        core is None
    }

    /// No contradiction comes with the bound.
    fn compute_with_core(
        &self,
        instance: &HuboInstance<V>,
        node: &mut Node,
        incumbent_ub: Option<i64>,
    ) -> (r: (i64, Option<Vec<usize>>))
        ensures
            r.1 is None,
    {
        (self.compute(instance, node, incumbent_ub), None)
    }

    /// The better of the bound of the ascent and the cheap bound.
    fn compute(
        &self,
        instance: &HuboInstance<V>,
        node: &mut Node,
        incumbent_ub: Option<i64>,
    ) -> (r: i64)
    {
        let cfg = AscentConfig {
            max_iter: self.max_iter,
            step_size: self.step_size,
            step_decay: self.step_decay,
            optimality_tol: self.optimality_tol,
        };
        let n_terms: usize = instance.terms.len();
        let b: Option<i64> = cluster_subgradient_lb(
            instance,
            node,
            &cfg,
            self.max_cluster_vars,
            UNIT,
            incumbent_ub,
        );
        let c: i64 = cheap::compute(instance, node);
        proof {
            crate::bounds::lemma_cheap_bounds(instance, old(node), c as int);
        }
        let r: i64 = match b {
            Some(v) => coeff::max_of(v, c),
            None => c,
        };
        assert(cheap::is_cheap_bound(instance, old(node), c as int));
        assert(r == better(c as int, b));
        r
    }
}

} // verus!
