//! The bound that comes of splitting an objective into pieces with copies of the
//! variables, whose agreement is priced by multipliers.

use crate::bounds::gray;
use crate::bounds::local_min;
use crate::domain::{VarDomain, VarType};
use crate::instance::HuboInstance;
use crate::lasserre;
use crate::lists;
use crate::restriction;
use crate::sets;
use crate::term::Term;
use crate::term;
use vstd::prelude::*;

verus! {

/// Some terms and variables that hold all of theirs.
#[derive(Debug)]
pub struct Piece {
    pub vars: Vec<usize>,
    pub terms: Vec<Term>,
}

/// The variables of the piece are below `n` and hold those of its terms.
pub open spec fn is_piece(n: nat, p: Piece) -> bool {
    &&& p.vars@.len() > 0
    &&& p.vars@.no_duplicates()
    &&& term::indices_below(p.vars@, n as int)
    &&& forall|i: int|
        0 <= i < p.terms@.len() ==> (#[trigger] p.terms@[i]).indices@.no_duplicates()
            && is_within(p.terms@[i].indices@, p.vars@)
}

/// The variables are among `vars`.
pub open spec fn is_within(idx: Seq<usize>, vars: Seq<usize>) -> bool {
    forall|j: int| 0 <= j < idx.len() ==> vars.contains(#[trigger] idx[j])
}

/// The values of the variables of a piece.
pub open spec fn restrict(vars: Seq<usize>, z: Seq<bool>) -> Seq<bool> {
    Seq::new(vars.len(), |j: int| z[vars[j] as int])
}

/// An assignment in which the variables of a piece have these values.
pub open spec fn spread(vars: Seq<usize>, y: Seq<bool>, n: nat) -> Seq<bool> {
    Seq::new(
        n,
        |i: int| vars.contains(i as usize) && y[vars.index_of(i as usize)],
    )
}

/// The value of a piece, of which `unit` make one, with the prices of its copies.
pub open spec fn piece_value(vt: VarType, unit: int, p: Piece, mu: Seq<i64>, z: Seq<bool>) -> int {
    unit * term::poly(vt, p.terms@, z) + local_min::cost_sum(
        vt,
        mu,
        restrict(p.vars@, z),
        p.vars@.len(),
    )
}

/// `v` is the least value of the piece.
pub open spec fn is_least_value(
    vt: VarType,
    n: nat,
    unit: int,
    p: Piece,
    mu: Seq<i64>,
    v: int,
) -> bool {
    &&& exists|z: Seq<bool>| z.len() == n && v == #[trigger] piece_value(vt, unit, p, mu, z)
    &&& forall|z: Seq<bool>| z.len() == n ==> v <= #[trigger] piece_value(vt, unit, p, mu, z)
}

/// The least value of the piece.
pub open spec fn least_value(vt: VarType, n: nat, unit: int, p: Piece, mu: Seq<i64>) -> int {
    choose|v: int| is_least_value(vt, n, unit, p, mu, v)
}

pub proof fn lemma_least_value(vt: VarType, n: nat, unit: int, p: Piece, mu: Seq<i64>, v: int)
    requires
        is_least_value(vt, n, unit, p, mu, v),
    ensures
        least_value(vt, n, unit, p, mu) == v,
{
    let w = least_value(vt, n, unit, p, mu);
    assert(is_least_value(vt, n, unit, p, mu, w));
}

/// The largest size of a value of the piece.
pub open spec fn piece_size(unit: int, p: Piece, mu: Seq<i64>) -> int {
    unit * term::abs_sum(p.terms@) + local_min::size_sum(mu, mu.len())
}

/// Spreading values keeps them.
pub proof fn lemma_restrict_spread(vars: Seq<usize>, y: Seq<bool>, n: nat)
    requires
        vars.no_duplicates(),
        term::indices_below(vars, n as int),
        y.len() == vars.len(),
    ensures
        restrict(vars, spread(vars, y, n)) == y,
{
    assert forall|j: int| 0 <= j < vars.len() implies restrict(vars, spread(vars, y, n))[j]
        == y[j] by {
        let v = vars[j];
        assert(vars.contains(v));
        let q = vars.index_of(v);
        assert(0 <= q < vars.len() && vars[q] == v);
        assert(v < n);
    }
    assert(restrict(vars, spread(vars, y, n)) =~= y);
}

proof fn lemma_local_monomial(
    vt: VarType,
    vars: Seq<usize>,
    local: Seq<usize>,
    idx: Seq<usize>,
    z: Seq<bool>,
)
    requires
        local.len() == idx.len(),
        forall|j: int|
            0 <= j < idx.len() ==> (#[trigger] local[j]) < vars.len() && vars[local[j] as int]
                == idx[j],
    ensures
        term::monomial(vt, local, restrict(vars, z)) == term::monomial(vt, idx, z),
    decreases idx.len(),
{
    if idx.len() > 0 {
        assert(local[local.len() - 1] < vars.len());
        lemma_local_monomial(vt, vars, local.drop_last(), idx.drop_last(), z);
    }
}

/// The places of the variables of a term.
fn local_indices(vars: &Vec<usize>, idx: &Vec<usize>) -> (r: Vec<usize>)
    requires
        sets::ascending(vars@),
        idx@.no_duplicates(),
        is_within(idx@, vars@),
    ensures
        r@.len() == idx@.len(),
        r@.no_duplicates(),
        forall|j: int|
            0 <= j < idx@.len() ==> (#[trigger] r@[j]) < vars@.len() && vars@[r@[j] as int]
                == idx@[j],
{
    let mut r: Vec<usize> = Vec::new();
    let mut j: usize = 0;
    while j < idx.len()
        invariant
            j <= idx@.len(),
            r@.len() == j,
            sets::ascending(vars@),
            is_within(idx@, vars@),
            forall|i: int|
                0 <= i < j ==> (#[trigger] r@[i]) < vars@.len() && vars@[r@[i] as int] == idx@[i],
        decreases idx@.len() - j,
    {
        assert(vars@.contains(idx@[j as int]));
        let (p, found) = sets::position_of(vars.as_slice(), idx[j]);
        r.push(p);
        j += 1;
    }
    proof {
        assert forall|a: int, b: int| 0 <= a < b < r@.len() implies r@[a] != r@[b] by {
            assert(vars@[r@[a] as int] == idx@[a]);
            assert(vars@[r@[b] as int] == idx@[b]);
        }
    }
    r
}

proof fn lemma_poly_push(vt: VarType, terms: Seq<Term>, t: Term, y: Seq<bool>)
    ensures
        term::poly(vt, terms.push(t), y) == term::poly(vt, terms, y) + term::term_value(vt, t, y),
        term::abs_sum(terms.push(t)) == term::abs_sum(terms) + term::abs(t.coeff as int),
{
    assert(terms.push(t).drop_last() =~= terms);
}

/// The terms and prices of a piece as terms over the places of its variables.
fn local_terms(n: Ghost<nat>, p: &Piece, mu: &Vec<i64>, unit: i64) -> (r: Vec<Term>)
    requires
        is_piece(n@, *p),
        sets::ascending(p.vars@),
        mu@.len() == p.vars@.len(),
        unit >= 1,
        piece_size(unit as int, *p, mu@) <= i64::MAX,
    ensures
        term::terms_below(r@, p.vars@.len() as int),
        term::terms_distinct(r@),
        term::abs_sum(r@) <= piece_size(unit as int, *p, mu@),
        forall|vt: VarType, z: Seq<bool>| #[trigger]
            term::poly(vt, r@, restrict(p.vars@, z)) == piece_value(vt, unit as int, *p, mu@, z),
{
    let ghost m = p.vars@.len();
    let mut out: Vec<Term> = Vec::new();
    let mut i: usize = 0;
    proof {
        assert(p.terms@.take(0) =~= Seq::empty());
        local_min::lemma_size_sum(mu@, 0, mu@.len());
        assert(unit * 0 == 0);
    }
    while i < p.terms.len()
        invariant
            i <= p.terms@.len(),
            is_piece(n@, *p),
            sets::ascending(p.vars@),
            m == p.vars@.len(),
            unit >= 1,
            unit * term::abs_sum(p.terms@) <= i64::MAX,
            term::terms_below(out@, m as int),
            term::terms_distinct(out@),
            term::abs_sum(out@) == unit * term::abs_sum(p.terms@.take(i as int)),
            forall|vt: VarType, z: Seq<bool>| #[trigger]
                term::poly(vt, out@, restrict(p.vars@, z)) == unit * term::poly(
                    vt,
                    p.terms@.take(i as int),
                    z,
                ),
        decreases p.terms@.len() - i,
    {
        let ghost t = p.terms@[i as int];
        let ghost before = out@;
        assert(is_within(t.indices@, p.vars@));
        let c: i64 = p.terms[i].coeff;
        proof {
            assert(p.terms@.take(i + 1).drop_last() =~= p.terms@.take(i as int));
            crate::active::lemma_abs_sum_nonneg(p.terms@.take(i as int));
            term::lemma_abs_sum_take(p.terms@, i + 1);
            let s0 = term::abs_sum(p.terms@.take(i as int));
            let s1 = term::abs_sum(p.terms@.take(i + 1));
            let s = term::abs_sum(p.terms@);
            let a = term::abs(c as int);
            assert(s1 == s0 + a);
            let u = unit as int;
            assert(u * s1 == u * s0 + u * a && u * a <= u * s1 && u * s1 <= u * s)
                by (nonlinear_arith)
                requires
                    s1 == s0 + a,
                    0 <= s0,
                    0 <= a,
                    s1 <= s,
                    u >= 1,
            ;
            assert(u * c == if c < 0 { -(u * a) } else { u * a }) by (nonlinear_arith)
                requires
                    a == if c < 0 { -c as int } else { c as int },
            ;
        }
        let indices = local_indices(&p.vars, &p.terms[i].indices);
        let scaled: i64 = unit * c;
        let new = Term { indices, coeff: scaled };
        out.push(new);
        proof {
            assert forall|vt: VarType, z: Seq<bool>| #[trigger]
                term::poly(vt, out@, restrict(p.vars@, z)) == unit * term::poly(
                    vt,
                    p.terms@.take(i + 1),
                    z,
                ) by {
                let y = restrict(p.vars@, z);
                lemma_poly_push(vt, before, new, y);
                lemma_local_monomial(vt, p.vars@, new.indices@, t.indices@, z);
                assert(term::poly(vt, before, y) == unit * term::poly(
                    vt,
                    p.terms@.take(i as int),
                    z,
                ));
                let q = term::poly(vt, p.terms@.take(i as int), z);
                let mo = term::monomial(vt, t.indices@, z);
                let u = unit as int;
                let cc = c as int;
                assert(u * (q + cc * mo) == u * q + (u * cc) * mo) by (nonlinear_arith);
            }
            lemma_poly_push(VarType::Bin, before, new, Seq::empty());
            assert(term::indices_below(new.indices@, m as int));
        }
        i += 1;
    }
    proof {
        assert(p.terms@.take(i as int) =~= p.terms@);
    }
    let ghost terms_part = out@;
    let mut j: usize = 0;
    while j < mu.len()
        invariant
            j <= mu@.len(),
            mu@.len() == m,
            m == p.vars@.len(),
            unit >= 1,
            piece_size(unit as int, *p, mu@) <= i64::MAX,
            term::terms_below(out@, m as int),
            term::terms_distinct(out@),
            term::abs_sum(out@) == unit * term::abs_sum(p.terms@) + local_min::size_sum(
                mu@,
                j as nat,
            ),
            forall|vt: VarType, z: Seq<bool>| #[trigger]
                term::poly(vt, out@, restrict(p.vars@, z)) == unit * term::poly(vt, p.terms@, z)
                    + local_min::cost_sum(vt, mu@, restrict(p.vars@, z), j as nat),
        decreases mu@.len() - j,
    {
        let ghost before = out@;
        let v: i64 = mu[j];
        if v != 0 {
            let mut indices: Vec<usize> = Vec::new();
            indices.push(j);
            let new = Term { indices, coeff: v };
            out.push(new);
            proof {
                assert forall|vt: VarType, z: Seq<bool>| #[trigger]
                    term::poly(vt, out@, restrict(p.vars@, z)) == unit * term::poly(
                        vt,
                        p.terms@,
                        z,
                    ) + local_min::cost_sum(vt, mu@, restrict(p.vars@, z), (j + 1) as nat) by {
                    let y = restrict(p.vars@, z);
                    lemma_poly_push(vt, before, new, y);
                    assert(new.indices@.drop_last() =~= Seq::empty());
                    reveal_with_fuel(term::monomial, 2);
                    assert(1 * term::bit_value(vt, y[j as int]) == term::bit_value(
                        vt,
                        y[j as int],
                    ));
                    assert(term::poly(vt, before, y) == unit * term::poly(vt, p.terms@, z)
                        + local_min::cost_sum(vt, mu@, y, j as nat));
                }
                lemma_poly_push(VarType::Bin, before, new, Seq::empty());
                assert(term::indices_below(new.indices@, m as int));
                assert(new.indices@.no_duplicates());
            }
        } else {
            proof {
                assert forall|vt: VarType, z: Seq<bool>| #[trigger]
                    term::poly(vt, out@, restrict(p.vars@, z)) == unit * term::poly(
                        vt,
                        p.terms@,
                        z,
                    ) + local_min::cost_sum(vt, mu@, restrict(p.vars@, z), (j + 1) as nat) by {
                    let y = restrict(p.vars@, z);
                    assert(term::poly(vt, before, y) == unit * term::poly(vt, p.terms@, z)
                        + local_min::cost_sum(vt, mu@, y, j as nat));
                    assert(0 * term::bit_value(vt, y[j as int]) == 0);
                }
            }
        }
        j += 1;
    }
    out
}

/// `y` is the first minimiser of the piece in the order of the reflected binary
/// code.
pub open spec fn is_first_least(
    vt: VarType,
    n: nat,
    unit: int,
    p: Piece,
    mu: Seq<i64>,
    y: Seq<bool>,
) -> bool {
    let least = piece_value(vt, unit, p, mu, spread(p.vars@, y, n));
    &&& forall|z: Seq<bool>| z.len() == n ==> least <= #[trigger] piece_value(vt, unit, p, mu, z)
    &&& forall|z: Seq<bool>|
        z.len() == n && gray::place(restrict(p.vars@, z), p.vars@.len()) < gray::place(
            y,
            p.vars@.len(),
        ) ==> least < #[trigger] piece_value(vt, unit, p, mu, z)
}

/// The first minimiser of a piece by enumeration.
pub fn solve_cluster_y<V: VarDomain>(n: usize, p: &Piece, mu: &Vec<i64>, unit: i64) -> (r: (
    i64,
    Vec<bool>,
))
    requires
        is_piece(n as nat, *p),
        sets::ascending(p.vars@),
        mu@.len() == p.vars@.len(),
        unit >= 1,
        2 * piece_size(unit as int, *p, mu@) <= i64::MAX,
    ensures
        r.1@.len() == p.vars@.len(),
        r.0 == piece_value(V::tag(), unit as int, *p, mu@, spread(p.vars@, r.1@, n as nat)),
        is_least_value(V::tag(), n as nat, unit as int, *p, mu@, r.0 as int),
        is_first_least(V::tag(), n as nat, unit as int, *p, mu@, r.1@),
{
    let ghost vars = p.vars@;
    proof {
        local_min::lemma_size_sum(mu@, 0, mu@.len());
        crate::active::lemma_abs_sum_nonneg(p.terms@);
        assert(unit * term::abs_sum(p.terms@) >= 0) by (nonlinear_arith)
            requires
                unit >= 1,
                term::abs_sum(p.terms@) >= 0,
        ;
    }
    let terms = local_terms(Ghost(n as nat), p, mu, unit);
    proof {
        crate::active::lemma_abs_sum_nonneg(terms@);
        restriction::lemma_grid_base_fits(V::tag(), 0, terms@);
    }
    let ghost tv = terms@;
    let m: usize = p.vars.len();
    let instance: HuboInstance<V> = HuboInstance::new(m, 0, terms);
    let (value, sol) = gray::gray_code_min(&instance);
    let y = sol.to_bool_vec();
    proof {
        let z0 = spread(vars, y@, n as nat);
        lemma_restrict_spread(vars, y@, n as nat);
        assert(term::poly(V::tag(), tv, restrict(vars, z0)) == piece_value(
            V::tag(),
            unit as int,
            *p,
            mu@,
            z0,
        ));
        assert forall|z: Seq<bool>| z.len() == n implies value <= #[trigger] piece_value(
            V::tag(),
            unit as int,
            *p,
            mu@,
            z,
        ) by {
            assert(term::poly(V::tag(), tv, restrict(vars, z)) == piece_value(
                V::tag(),
                unit as int,
                *p,
                mu@,
                z,
            ));
            assert(value <= instance.objective(restrict(vars, z)));
        }
        assert forall|z: Seq<bool>|
            z.len() == n && gray::place(restrict(vars, z), vars.len()) < gray::place(
                y@,
                vars.len(),
            ) implies value < #[trigger] piece_value(V::tag(), unit as int, *p, mu@, z) by {
            assert(term::poly(V::tag(), tv, restrict(vars, z)) == piece_value(
                V::tag(),
                unit as int,
                *p,
                mu@,
                z,
            ));
            assert(gray::wins(&instance, value as int, sol@, restrict(vars, z)));
        }
    }
    (value, y)
}

/// The piece is one term with its variables.
pub open spec fn is_term_piece(p: Piece) -> bool {
    p.terms@.len() == 1 && p.terms@[0].indices@ == p.vars@
}

proof fn lemma_chi(vt: VarType, vars: Seq<usize>, z: Seq<bool>, k: nat)
    requires
        k <= vars.len(),
    ensures
        local_min::chi(vt, restrict(vars, z), k) == term::monomial(vt, vars.take(k as int), z),
    decreases k,
{
    if k == 0 {
        assert(vars.take(0) =~= Seq::empty());
    } else {
        lemma_chi(vt, vars, z, (k - 1) as nat);
        assert(vars.take(k as int).drop_last() =~= vars.take(k - 1));
    }
}

proof fn lemma_term_piece(vt: VarType, unit: int, p: Piece, mu: Seq<i64>, z: Seq<bool>)
    requires
        is_term_piece(p),
        mu.len() == p.vars@.len(),
    ensures
        piece_value(vt, unit, p, mu, z) == local_min::local_value(
            vt,
            unit * p.terms@[0].coeff,
            mu,
            restrict(p.vars@, z),
        ),
{
    let vars = p.vars@;
    lemma_chi(vt, vars, z, vars.len());
    assert(vars.take(vars.len() as int) =~= vars);
    reveal_with_fuel(term::poly, 2);
    assert(p.terms@.drop_last() =~= Seq::empty());
    let c = p.terms@[0].coeff as int;
    let m = term::monomial(vt, vars, z);
    assert(term::poly(vt, p.terms@, z) == c * m);
    assert(unit * (c * m) == (unit * c) * m) by (nonlinear_arith);
}

/// A minimiser of a piece of one term.
pub fn solve_term_y<V: VarDomain>(n: usize, p: &Piece, mu: &Vec<i64>, unit: i64) -> (r: (
    i64,
    Vec<bool>,
))
    requires
        is_piece(n as nat, *p),
        is_term_piece(*p),
        mu@.len() == p.vars@.len(),
        unit >= 1,
        2 * piece_size(unit as int, *p, mu@) <= i64::MAX,
    ensures
        r.1@.len() == p.vars@.len(),
        r.0 == piece_value(V::tag(), unit as int, *p, mu@, spread(p.vars@, r.1@, n as nat)),
        is_least_value(V::tag(), n as nat, unit as int, *p, mu@, r.0 as int),
        r.1@ == local_min::choice(V::tag(), unit * p.terms@[0].coeff, mu@),
{
    let ghost vt = V::tag();
    let ghost vars = p.vars@;
    let c: i64 = p.terms[0].coeff;
    proof {
        reveal_with_fuel(term::abs_sum, 2);
        assert(p.terms@.drop_last() =~= Seq::empty());
        local_min::lemma_size_sum(mu@, 0, mu@.len());
        let a = term::abs(c as int);
        let u = unit as int;
        assert(term::abs_sum(p.terms@) == a);
        assert(0 <= u * a) by (nonlinear_arith)
            requires
                u >= 1,
                a >= 0,
        ;
        assert(u * c == if c < 0 { -(u * a) } else { u * a }) by (nonlinear_arith)
            requires
                a == if c < 0 { -c as int } else { c as int },
        ;
        assert(term::abs(u * c) == u * a);
    }
    let scaled: i64 = unit * c;
    let (value, y) = match V::var_type() {
        VarType::Bin => local_min::min_local_bin(scaled, mu),
        VarType::Spin => local_min::min_local_spin(scaled, mu),
    };
    proof {
        let z0 = spread(vars, y@, n as nat);
        lemma_restrict_spread(vars, y@, n as nat);
        lemma_term_piece(vt, unit as int, *p, mu@, z0);
        assert forall|z: Seq<bool>| z.len() == n implies value <= #[trigger] piece_value(
            vt,
            unit as int,
            *p,
            mu@,
            z,
        ) by {
            lemma_term_piece(vt, unit as int, *p, mu@, z);
            assert(value <= local_min::local_value(vt, scaled as int, mu@, restrict(vars, z)));
        }
    }
    (value, y)
}

/// The prices that the first `k` of the variables of a piece put on variable `v`.
pub open spec fn var_price(vars: Seq<usize>, mu: Seq<i64>, v: int, k: nat) -> int
    decreases k,
{
    if k == 0 {
        0
    } else {
        var_price(vars, mu, v, (k - 1) as nat) + (if vars[k - 1] == v {
            mu[k - 1] as int
        } else {
            0
        })
    }
}

/// The prices that the first `k` pieces put on variable `v`.
pub open spec fn price_of(pieces: Seq<Piece>, mus: Seq<Vec<i64>>, v: int, k: nat) -> int
    decreases k,
{
    if k == 0 {
        0
    } else {
        price_of(pieces, mus, v, (k - 1) as nat) + var_price(
            pieces[k - 1].vars@,
            mus[k - 1]@,
            v,
            pieces[k - 1].vars@.len(),
        )
    }
}

/// The least values of the first `m` variables at the negated prices.
pub open spec fn price_floor(vt: VarType, prices: Seq<int>, m: nat) -> int
    decreases m,
{
    if m == 0 {
        0
    } else {
        price_floor(vt, prices, (m - 1) as nat) + lasserre::term_floor(vt, -prices[m - 1])
    }
}

/// The prices of all variables.
pub open spec fn all_prices(pieces: Seq<Piece>, mus: Seq<Vec<i64>>, n: nat, k: nat) -> Seq<int> {
    Seq::new(n, |v: int| price_of(pieces, mus, v, k))
}

/// The least values of the first `k` pieces.
pub open spec fn piece_floors(
    vt: VarType,
    n: nat,
    unit: int,
    pieces: Seq<Piece>,
    mus: Seq<Vec<i64>>,
    k: nat,
) -> int
    decreases k,
{
    if k == 0 {
        0
    } else {
        piece_floors(vt, n, unit, pieces, mus, (k - 1) as nat) + least_value(
            vt,
            n,
            unit,
            pieces[k - 1],
            mus[k - 1]@,
        )
    }
}

/// The values of the first `k` pieces without prices.
pub open spec fn pieces_value(vt: VarType, pieces: Seq<Piece>, x: Seq<bool>, k: nat) -> int
    decreases k,
{
    if k == 0 {
        0
    } else {
        pieces_value(vt, pieces, x, (k - 1) as nat) + term::poly(vt, pieces[k - 1].terms@, x)
    }
}

/// The bound at these multipliers: every piece and every variable at its least.
pub open spec fn dual_total(
    vt: VarType,
    n: nat,
    unit: int,
    constant: int,
    pieces: Seq<Piece>,
    mus: Seq<Vec<i64>>,
) -> int {
    unit * constant + price_floor(vt, all_prices(pieces, mus, n, pieces.len()), n)
        + piece_floors(vt, n, unit, pieces, mus, pieces.len())
}

/// Pieces with a multiplier for every variable.
pub open spec fn are_priced(n: nat, pieces: Seq<Piece>, mus: Seq<Vec<i64>>) -> bool {
    &&& mus.len() == pieces.len()
    &&& forall|i: int| 0 <= i < pieces.len() ==> is_piece(n, #[trigger] pieces[i])
    &&& forall|i: int|
        0 <= i < pieces.len() ==> (#[trigger] mus[i])@.len() == pieces[i].vars@.len()
}

/// The sizes of the first `k` pieces.
pub open spec fn total_size(unit: int, pieces: Seq<Piece>, mus: Seq<Vec<i64>>, k: nat) -> int
    decreases k,
{
    if k == 0 {
        0
    } else {
        total_size(unit, pieces, mus, (k - 1) as nat) + piece_size(
            unit,
            pieces[k - 1],
            mus[k - 1]@,
        )
    }
}

/// The values of the first `m` prices.
pub open spec fn priced_value(vt: VarType, prices: Seq<int>, x: Seq<bool>, m: nat) -> int
    decreases m,
{
    if m == 0 {
        0
    } else {
        priced_value(vt, prices, x, (m - 1) as nat) + prices[m - 1] * term::bit_value(
            vt,
            x[m - 1],
        )
    }
}

/// The sizes of the first `m` prices.
pub open spec fn priced_size(prices: Seq<int>, m: nat) -> int
    decreases m,
{
    if m == 0 {
        0
    } else {
        priced_size(prices, (m - 1) as nat) + term::abs(prices[m - 1])
    }
}

/// A price more for variable `w`.
proof fn lemma_price_more(
    vt: VarType,
    a: Seq<int>,
    b: Seq<int>,
    w: int,
    c: int,
    x: Seq<bool>,
    m: nat,
)
    requires
        a.len() == b.len(),
        m <= a.len(),
        0 <= w < a.len(),
        forall|v: int|
            0 <= v < a.len() ==> #[trigger] b[v] == a[v] + (if v == w {
                c
            } else {
                0
            }),
    ensures
        priced_value(vt, b, x, m) == priced_value(vt, a, x, m) + (if w < m {
            c * term::bit_value(vt, x[w])
        } else {
            0
        }),
        priced_size(b, m) <= priced_size(a, m) + (if w < m {
            term::abs(c)
        } else {
            0
        }),
    decreases m,
{
    if m > 0 {
        lemma_price_more(vt, a, b, w, c, x, (m - 1) as nat);
        let v = m - 1;
        assert(b[v] == a[v] + (if v == w {
            c
        } else {
            0
        }));
        let bit = term::bit_value(vt, x[v]);
        let av = a[v];
        assert((av + c) * bit == av * bit + c * bit) by (nonlinear_arith);
    }
}

/// The prices with those of the first `j` variables of a piece added.
spec fn prices_with(prices: Seq<int>, vars: Seq<usize>, mu: Seq<i64>, j: nat) -> Seq<int> {
    Seq::new(prices.len(), |v: int| prices[v] + var_price(vars, mu, v, j))
}

proof fn lemma_prices_with(
    vt: VarType,
    prices: Seq<int>,
    vars: Seq<usize>,
    mu: Seq<i64>,
    x: Seq<bool>,
    j: nat,
)
    requires
        j <= vars.len(),
        mu.len() == vars.len(),
        term::indices_below(vars, prices.len() as int),
    ensures
        priced_value(vt, prices_with(prices, vars, mu, j), x, prices.len()) == priced_value(
            vt,
            prices,
            x,
            prices.len(),
        ) + local_min::cost_sum(vt, mu, restrict(vars, x), j),
        priced_size(prices_with(prices, vars, mu, j), prices.len()) <= priced_size(
            prices,
            prices.len(),
        ) + local_min::size_sum(mu, j),
    decreases j,
{
    if j == 0 {
        assert(prices_with(prices, vars, mu, 0) =~= prices);
    } else {
        let j1 = (j - 1) as nat;
        lemma_prices_with(vt, prices, vars, mu, x, j1);
        let w = vars[j - 1] as int;
        assert(vars[j - 1] < prices.len());
        lemma_price_more(
            vt,
            prices_with(prices, vars, mu, j1),
            prices_with(prices, vars, mu, j),
            w,
            mu[j - 1] as int,
            x,
            prices.len(),
        );
    }
}

/// The sizes of the prices of the first `k` pieces.
pub open spec fn mu_size(mus: Seq<Vec<i64>>, k: nat) -> int
    decreases k,
{
    if k == 0 {
        0
    } else {
        mu_size(mus, (k - 1) as nat) + local_min::size_sum(mus[k - 1]@, mus[k - 1]@.len())
    }
}

/// The prices of the copies, piece by piece.
pub open spec fn copies_value(
    vt: VarType,
    pieces: Seq<Piece>,
    mus: Seq<Vec<i64>>,
    x: Seq<bool>,
    k: nat,
) -> int
    decreases k,
{
    if k == 0 {
        0
    } else {
        copies_value(vt, pieces, mus, x, (k - 1) as nat) + local_min::cost_sum(
            vt,
            mus[k - 1]@,
            restrict(pieces[k - 1].vars@, x),
            pieces[k - 1].vars@.len(),
        )
    }
}

/// Priced variable by variable or copy by copy, an assignment costs the same.
pub proof fn lemma_prices(
    vt: VarType,
    n: nat,
    pieces: Seq<Piece>,
    mus: Seq<Vec<i64>>,
    x: Seq<bool>,
    k: nat,
)
    requires
        are_priced(n, pieces, mus),
        k <= pieces.len(),
    ensures
        priced_value(vt, all_prices(pieces, mus, n, k), x, n) == copies_value(
            vt,
            pieces,
            mus,
            x,
            k,
        ),
        priced_size(all_prices(pieces, mus, n, k), n) <= mu_size(mus, k),
    decreases k,
{
    if k == 0 {
        lemma_no_prices(vt, n, all_prices(pieces, mus, n, 0), x, n);
    } else {
        let k1 = (k - 1) as nat;
        lemma_prices(vt, n, pieces, mus, x, k1);
        assert(is_piece(n, pieces[k - 1]));
        assert(mus[k - 1]@.len() == pieces[k - 1].vars@.len());
        let before = all_prices(pieces, mus, n, k1);
        let vars = pieces[k - 1].vars@;
        lemma_prices_with(vt, before, vars, mus[k - 1]@, x, vars.len());
        assert(prices_with(before, vars, mus[k - 1]@, vars.len()) =~= all_prices(
            pieces,
            mus,
            n,
            k,
        ));
    }
}

proof fn lemma_no_prices(vt: VarType, n: nat, prices: Seq<int>, x: Seq<bool>, m: nat)
    requires
        m <= prices.len(),
        forall|v: int| 0 <= v < prices.len() ==> #[trigger] prices[v] == 0,
    ensures
        priced_value(vt, prices, x, m) == 0,
        priced_size(prices, m) == 0,
    decreases m,
{
    if m > 0 {
        lemma_no_prices(vt, n, prices, x, (m - 1) as nat);
        assert(prices[m - 1] == 0);
        assert(0 * term::bit_value(vt, x[m - 1]) == 0);
    }
}

/// The variables cost at least their least values.
pub proof fn lemma_price_floor(vt: VarType, prices: Seq<int>, x: Seq<bool>, m: nat)
    requires
        m <= prices.len(),
    ensures
        price_floor(vt, prices, m) <= -priced_value(vt, prices, x, m),
        -priced_size(prices, m) <= price_floor(vt, prices, m) <= 0,
        0 <= priced_size(prices, m),
    decreases m,
{
    if m > 0 {
        lemma_price_floor(vt, prices, x, (m - 1) as nat);
        let b = term::bit_value(vt, x[m - 1]);
        let p = prices[m - 1];
        assert(p * b == if b == 0 { 0 } else if b == 1 { p } else { -p }) by (nonlinear_arith)
            requires
                b == 0 || b == 1 || b == -1,
        ;
    }
}

proof fn lemma_priced_prefix(prices: Seq<int>, m: nat, n: nat)
    requires
        m <= n <= prices.len(),
    ensures
        0 <= priced_size(prices, m) <= priced_size(prices, n),
        m < n ==> term::abs(prices[m as int]) <= priced_size(prices, n),
    decreases n,
{
    if n > 0 {
        if m < n {
            lemma_priced_prefix(prices, m, (n - 1) as nat);
        } else {
            lemma_priced_prefix(prices, (m - 1) as nat, (n - 1) as nat);
        }
    }
}

proof fn lemma_cost_size(vt: VarType, mu: Seq<i64>, y: Seq<bool>, k: nat)
    requires
        k <= mu.len(),
    ensures
        -local_min::size_sum(mu, k) <= local_min::cost_sum(vt, mu, y, k) <= local_min::size_sum(
            mu,
            k,
        ),
    decreases k,
{
    if k > 0 {
        lemma_cost_size(vt, mu, y, (k - 1) as nat);
        let b = term::bit_value(vt, y[k - 1]);
        let p = mu[k - 1] as int;
        assert(p * b == if b == 0 { 0 } else if b == 1 { p } else { -p }) by (nonlinear_arith)
            requires
                b == 0 || b == 1 || b == -1,
        ;
    }
}

/// The values of a piece are no larger than its size.
proof fn lemma_piece_size(vt: VarType, unit: int, p: Piece, mu: Seq<i64>, z: Seq<bool>)
    requires
        unit >= 1,
        mu.len() == p.vars@.len(),
    ensures
        -piece_size(unit, p, mu) <= piece_value(vt, unit, p, mu, z) <= piece_size(unit, p, mu),
        0 <= piece_size(unit, p, mu),
        local_min::size_sum(mu, mu.len()) <= piece_size(unit, p, mu),
{
    term::lemma_poly_range(vt, p.terms@, z);
    crate::active::lemma_abs_sum_nonneg(p.terms@);
    lemma_cost_size(vt, mu, restrict(p.vars@, z), mu.len());
    local_min::lemma_size_sum(mu, 0, mu.len());
    let q = term::poly(vt, p.terms@, z);
    let s = term::abs_sum(p.terms@);
    assert(-(unit * s) <= unit * q <= unit * s && 0 <= unit * s) by (nonlinear_arith)
        requires
            -s <= q <= s,
            0 <= s,
            unit >= 1,
    ;
}

/// A least value is at most the value at every assignment.
pub proof fn lemma_least_below(
    vt: VarType,
    n: nat,
    unit: int,
    p: Piece,
    mu: Seq<i64>,
    x: Seq<bool>,
)
    requires
        exists|v: int| is_least_value(vt, n, unit, p, mu, v),
        x.len() == n,
    ensures
        least_value(vt, n, unit, p, mu) <= piece_value(vt, unit, p, mu, x),
{
    assert(is_least_value(vt, n, unit, p, mu, least_value(vt, n, unit, p, mu)));
}

/// Every piece has a least value.
pub proof fn lemma_least_exists(vt: VarType, n: nat, unit: int, p: Piece, mu: Seq<i64>)
    requires
        unit >= 1,
        mu.len() == p.vars@.len(),
    ensures
        exists|v: int| is_least_value(vt, n, unit, p, mu, v),
{
    let z = Seq::new(n, |i: int| false);
    lemma_piece_size(vt, unit, p, mu, z);
    let lo = -piece_size(unit, p, mu);
    assert forall|x: Seq<bool>| x.len() == n implies lo <= #[trigger] piece_value(
        vt,
        unit,
        p,
        mu,
        x,
    ) by {
        lemma_piece_size(vt, unit, p, mu, x);
    }
    lemma_least_from(vt, n, unit, p, mu, lo, z);
}

/// Going up from below all values, the first one that is taken is the least.
proof fn lemma_least_from(
    vt: VarType,
    n: nat,
    unit: int,
    p: Piece,
    mu: Seq<i64>,
    lo: int,
    z: Seq<bool>,
)
    requires
        z.len() == n,
        lo <= piece_value(vt, unit, p, mu, z),
        forall|x: Seq<bool>| x.len() == n ==> lo <= #[trigger] piece_value(vt, unit, p, mu, x),
    ensures
        exists|v: int| is_least_value(vt, n, unit, p, mu, v),
    decreases piece_value(vt, unit, p, mu, z) - lo,
{
    if exists|x: Seq<bool>| x.len() == n && #[trigger] piece_value(vt, unit, p, mu, x) == lo {
        assert(is_least_value(vt, n, unit, p, mu, lo));
    } else {
        assert(piece_value(vt, unit, p, mu, z) != lo);
        assert forall|x: Seq<bool>| x.len() == n implies lo + 1 <= #[trigger] piece_value(
            vt,
            unit,
            p,
            mu,
            x,
        ) by {
            assert(piece_value(vt, unit, p, mu, x) != lo);
        }
        lemma_least_from(vt, n, unit, p, mu, lo + 1, z);
    }
}

proof fn lemma_floors_below(
    vt: VarType,
    n: nat,
    unit: int,
    pieces: Seq<Piece>,
    mus: Seq<Vec<i64>>,
    x: Seq<bool>,
    k: nat,
)
    requires
        are_priced(n, pieces, mus),
        unit >= 1,
        x.len() == n,
        k <= pieces.len(),
    ensures
        piece_floors(vt, n, unit, pieces, mus, k) <= unit * pieces_value(vt, pieces, x, k)
            + copies_value(vt, pieces, mus, x, k),
    decreases k,
{
    if k == 0 {
        assert(unit * 0 == 0);
    } else {
        lemma_floors_below(vt, n, unit, pieces, mus, x, (k - 1) as nat);
        let p = pieces[k - 1];
        let mu = mus[k - 1]@;
        assert(mus[k - 1]@.len() == pieces[k - 1].vars@.len());
        lemma_least_exists(vt, n, unit, p, mu);
        lemma_least_below(vt, n, unit, p, mu, x);
        let a = pieces_value(vt, pieces, x, (k - 1) as nat);
        let b = term::poly(vt, p.terms@, x);
        assert(unit * (a + b) == unit * a + unit * b) by (nonlinear_arith);
    }
}

/// Whatever the multipliers are, the bound is at most the value of the constant
/// and all pieces at every assignment.
pub proof fn dual_is_valid(
    vt: VarType,
    n: nat,
    unit: int,
    constant: int,
    pieces: Seq<Piece>,
    mus: Seq<Vec<i64>>,
    x: Seq<bool>,
)
    requires
        are_priced(n, pieces, mus),
        unit >= 1,
        x.len() == n,
    ensures
        dual_total(vt, n, unit, constant, pieces, mus) <= unit * (constant + pieces_value(
            vt,
            pieces,
            x,
            pieces.len(),
        )),
{
    let k = pieces.len();
    let prices = all_prices(pieces, mus, n, k);
    lemma_prices(vt, n, pieces, mus, x, k);
    lemma_price_floor(vt, prices, x, n);
    lemma_floors_below(vt, n, unit, pieces, mus, x, k);
    let v = pieces_value(vt, pieces, x, k);
    assert(unit * (constant + v) == unit * constant + unit * v) by (nonlinear_arith);
}

proof fn lemma_floor_sizes(
    vt: VarType,
    n: nat,
    unit: int,
    pieces: Seq<Piece>,
    mus: Seq<Vec<i64>>,
    k: nat,
)
    requires
        are_priced(n, pieces, mus),
        unit >= 1,
        k <= pieces.len(),
    ensures
        -total_size(unit, pieces, mus, k) <= piece_floors(vt, n, unit, pieces, mus, k)
            <= total_size(unit, pieces, mus, k),
        0 <= mu_size(mus, k) <= total_size(unit, pieces, mus, k),
    decreases k,
{
    if k > 0 {
        lemma_floor_sizes(vt, n, unit, pieces, mus, (k - 1) as nat);
        let p = pieces[k - 1];
        let mu = mus[k - 1]@;
        assert(mus[k - 1]@.len() == pieces[k - 1].vars@.len());
        lemma_least_exists(vt, n, unit, p, mu);
        let v = least_value(vt, n, unit, p, mu);
        assert(is_least_value(vt, n, unit, p, mu, v));
        let z = choose|z: Seq<bool>| z.len() == n && v == #[trigger] piece_value(vt, unit, p, mu, z);
        lemma_piece_size(vt, unit, p, mu, z);
        local_min::lemma_size_sum(mu, 0, mu.len());
    }
}

pub proof fn lemma_total_prefix(unit: int, pieces: Seq<Piece>, mus: Seq<Vec<i64>>, n: nat, j: nat, k: nat)
    requires
        are_priced(n, pieces, mus),
        unit >= 1,
        j <= k <= pieces.len(),
    ensures
        0 <= total_size(unit, pieces, mus, j) <= total_size(unit, pieces, mus, k),
        j < k ==> piece_size(unit, pieces[j as int], mus[j as int]@) <= total_size(
            unit,
            pieces,
            mus,
            k,
        ),
    decreases k,
{
    if k > 0 {
        let p = pieces[k - 1];
        assert(mus[k - 1]@.len() == pieces[k - 1].vars@.len());
        lemma_piece_size(VarType::Bin, unit, p, mus[k - 1]@, Seq::empty());
        if j < k {
            lemma_total_prefix(unit, pieces, mus, n, j, (k - 1) as nat);
        } else {
            lemma_total_prefix(unit, pieces, mus, n, (j - 1) as nat, (k - 1) as nat);
        }
    }
}

/// The prices of the variables.
fn sum_prices(n: usize, pieces: &Vec<Piece>, mus: &Vec<Vec<i64>>, unit: Ghost<int>) -> (r: Vec<
    i64,
>)
    requires
        are_priced(n as nat, pieces@, mus@),
        unit@ >= 1,
        total_size(unit@, pieces@, mus@, pieces@.len()) <= i64::MAX,
    ensures
        r@.len() == n,
        forall|v: int|
            0 <= v < n ==> #[trigger] r@[v] == price_of(pieces@, mus@, v, pieces@.len()),
{
    let mut r: Vec<i64> = Vec::new();
    while r.len() < n
        invariant
            r@.len() <= n,
            forall|v: int| 0 <= v < r@.len() ==> #[trigger] r@[v] == 0,
        decreases n - r@.len(),
    {
        r.push(0);
    }
    let ghost x = Seq::<bool>::empty();
    let mut k: usize = 0;
    while k < pieces.len()
        invariant
            k <= pieces@.len(),
            are_priced(n as nat, pieces@, mus@),
            unit@ >= 1,
            total_size(unit@, pieces@, mus@, pieces@.len()) <= i64::MAX,
            r@.len() == n,
            forall|v: int|
                0 <= v < n ==> #[trigger] r@[v] == price_of(pieces@, mus@, v, k as nat),
        decreases pieces@.len() - k,
    {
        let ghost vars = pieces@[k as int].vars@;
        let ghost mu = mus@[k as int]@;
        let ghost before = all_prices(pieces@, mus@, n as nat, k as nat);
        proof {
            assert(is_piece(n as nat, pieces@[k as int]));
            assert(mus@[k as int]@.len() == pieces@[k as int].vars@.len());
            lemma_prices(VarType::Bin, n as nat, pieces@, mus@, x, k as nat);
            lemma_floor_sizes(VarType::Bin, n as nat, unit@, pieces@, mus@, (k + 1) as nat);
            lemma_total_prefix(unit@, pieces@, mus@, n as nat, (k + 1) as nat, pieces@.len());
        }
        let mut j: usize = 0;
        while j < pieces[k].vars.len()
            invariant
                k < pieces@.len(),
                j <= vars.len(),
                vars == pieces@[k as int].vars@,
                mu == mus@[k as int]@,
                mu.len() == vars.len(),
                mus@.len() == pieces@.len(),
                term::indices_below(vars, n as int),
                before == all_prices(pieces@, mus@, n as nat, k as nat),
                priced_size(before, n as nat) + local_min::size_sum(mu, mu.len()) <= i64::MAX,
                r@.len() == n,
                forall|v: int|
                    0 <= v < n ==> #[trigger] r@[v] == prices_with(before, vars, mu, j as nat)[v],
            decreases vars.len() - j,
        {
            let v: usize = pieces[k].vars[j];
            proof {
                assert(vars[j as int] < n);
                lemma_prices_with(VarType::Bin, before, vars, mu, x, (j + 1) as nat);
                local_min::lemma_size_sum(mu, (j + 1) as nat, mu.len());
                let after = prices_with(before, vars, mu, (j + 1) as nat);
                lemma_priced_prefix(after, v as nat, n as nat);
                assert(r@[v as int] == prices_with(before, vars, mu, j as nat)[v as int]);
            }
            let old: i64 = r[v];
            r.set(v, old + mus[k][j]);
            j += 1;
        }
        k += 1;
        proof {
            assert forall|v: int| 0 <= v < n implies #[trigger] r@[v] == price_of(
                pieces@,
                mus@,
                v,
                k as nat,
            ) by {
                assert(r@[v] == prices_with(before, vars, mu, vars.len())[v]);
            }
        }
    }
    r
}

/// A variable is high where its price pays for it.
pub open spec fn is_bought(vt: VarType, price: int) -> bool {
    price > 0 || (vt == VarType::Spin && price == 0)
}

/// The numbers as unbounded numbers.
pub open spec fn as_ints(s: Seq<i64>) -> Seq<int> {
    Seq::new(s.len(), |i: int| s[i] as int)
}

/// A minimiser of the variables at the negated prices, and its value.
pub fn find_x_minimizer(var_type: VarType, prices: &Vec<i64>) -> (r: (i64, Vec<bool>))
    requires
        local_min::size_sum(prices@, prices@.len()) <= i64::MAX,
    ensures
        r.0 == price_floor(var_type, as_ints(prices@), prices@.len()),
        r.1@.len() == prices@.len(),
        forall|v: int|
            0 <= v < r.1@.len() ==> #[trigger] r.1@[v] == is_bought(
                var_type,
                prices@[v] as int,
            ),
{
    let ghost p = as_ints(prices@);
    let mut part: i64 = 0;
    let mut x: Vec<bool> = Vec::new();
    let mut v: usize = 0;
    while v < prices.len()
        invariant
            v <= prices@.len(),
            p == as_ints(prices@),
            local_min::size_sum(prices@, prices@.len()) <= i64::MAX,
            part == price_floor(var_type, p, v as nat),
            -local_min::size_sum(prices@, v as nat) <= part <= 0,
            x@.len() == v,
            forall|i: int|
                0 <= i < v ==> #[trigger] x@[i] == is_bought(var_type, prices@[i] as int),
        decreases prices@.len() - v,
    {
        let a: i64 = prices[v];
        proof {
            local_min::lemma_size_sum(prices@, (v + 1) as nat, prices@.len());
            assert(p[v as int] == a);
        }
        match var_type {
            VarType::Bin => {
                if a > 0 {
                    part = part - a;
                }
                x.push(a > 0);
            },
            VarType::Spin => {
                if a >= 0 {
                    part = part - a;
                } else {
                    part = part + a;
                }
                x.push(a >= 0);
            },
        }
        v += 1;
    }
    (part, x)
}

/// The bound at some multipliers with the minimisers that it comes from.
#[derive(Debug)]
pub struct DualPoint {
    /// In units.
    pub value: i64,
    pub x: Vec<bool>,
    pub y: Vec<Vec<bool>>,
}

/// The sizes of the constant and all pieces fit.
pub open spec fn dual_fits(unit: int, constant: int, pieces: Seq<Piece>, mus: Seq<Vec<i64>>) -> bool {
    term::abs(unit * constant) + 2 * total_size(unit, pieces, mus, pieces.len()) <= i64::MAX
}

/// The minimiser of a piece that is taken.
pub open spec fn is_taken(
    vt: VarType,
    n: nat,
    unit: int,
    by_enumeration: bool,
    p: Piece,
    mu: Seq<i64>,
    y: Seq<bool>,
) -> bool {
    if by_enumeration {
        is_first_least(vt, n, unit, p, mu, y)
    } else {
        y == local_min::choice(vt, unit * p.terms@[0].coeff, mu)
    }
}

/// The minimisers of a dual point: the variables at the prices, and a minimiser
/// of every piece.
pub open spec fn are_minimizers(
    vt: VarType,
    n: nat,
    unit: int,
    by_enumeration: bool,
    pieces: Seq<Piece>,
    mus: Seq<Vec<i64>>,
    d: DualPoint,
) -> bool {
    &&& d.x@.len() == n
    &&& forall|v: int|
        0 <= v < n ==> #[trigger] d.x@[v] == is_bought(
            vt,
            price_of(pieces, mus, v, pieces.len()),
        )
    &&& d.y@.len() == pieces.len()
    &&& forall|i: int|
        0 <= i < pieces.len() ==> (#[trigger] d.y@[i])@.len() == pieces[i].vars@.len()
            && piece_value(
            vt,
            unit,
            pieces[i],
            mus[i]@,
            spread(pieces[i].vars@, d.y@[i]@, n),
        ) == least_value(vt, n, unit, pieces[i], mus[i]@) && is_taken(
            vt,
            n,
            unit,
            by_enumeration,
            pieces[i],
            mus[i]@,
            d.y@[i]@,
        )
}

/// The bound at some multipliers: pieces of one term are minimised directly where
/// `by_enumeration` does not ask for enumeration.
pub fn dual_at<V: VarDomain>(
    n: usize,
    unit: i64,
    constant: i64,
    pieces: &Vec<Piece>,
    mus: &Vec<Vec<i64>>,
    by_enumeration: bool,
) -> (r: DualPoint)
    requires
        are_priced(n as nat, pieces@, mus@),
        unit >= 1,
        dual_fits(unit as int, constant as int, pieces@, mus@),
        forall|i: int|
            0 <= i < pieces@.len() ==> (if by_enumeration {
                sets::ascending((#[trigger] pieces@[i]).vars@)
            } else {
                is_term_piece(pieces@[i])
            }),
    ensures
        r.value == dual_total(V::tag(), n as nat, unit as int, constant as int, pieces@, mus@),
        are_minimizers(V::tag(), n as nat, unit as int, by_enumeration, pieces@, mus@, r),
{
    let ghost vt = V::tag();
    let ghost u = unit as int;
    let ghost total = total_size(u, pieces@, mus@, pieces@.len());
    let ghost none = Seq::<bool>::empty();
    proof {
        lemma_total_prefix(u, pieces@, mus@, n as nat, 0, pieces@.len());
    }
    let prices = sum_prices(n, pieces, mus, Ghost(u));
    proof {
        lemma_prices(vt, n as nat, pieces@, mus@, none, pieces@.len());
        lemma_floor_sizes(vt, n as nat, u, pieces@, mus@, pieces@.len());
        assert(as_ints(prices@) =~= all_prices(pieces@, mus@, n as nat, pieces@.len()));
        lemma_sizes_agree(prices@, n as nat);
    }
    let (part, x) = find_x_minimizer(V::var_type(), &prices);
    proof {
        lemma_price_floor(vt, as_ints(prices@), none, n as nat);
    }
    let mut value: i64 = unit * constant + part;
    let mut y: Vec<Vec<bool>> = Vec::new();
    let mut i: usize = 0;
    while i < pieces.len()
        invariant
            i <= pieces@.len(),
            vt == V::tag(),
            u == unit,
            unit >= 1,
            are_priced(n as nat, pieces@, mus@),
            forall|j: int|
                0 <= j < pieces@.len() ==> (if by_enumeration {
                    sets::ascending((#[trigger] pieces@[j]).vars@)
                } else {
                    is_term_piece(pieces@[j])
                }),
            total == total_size(u, pieces@, mus@, pieces@.len()),
            term::abs(unit * constant) + 2 * total <= i64::MAX,
            -total <= part <= 0,
            value == unit * constant + part + piece_floors(
                vt,
                n as nat,
                u,
                pieces@,
                mus@,
                i as nat,
            ),
            y@.len() == i,
            forall|j: int|
                0 <= j < i ==> (#[trigger] y@[j])@.len() == pieces@[j].vars@.len() && piece_value(
                    vt,
                    u,
                    pieces@[j],
                    mus@[j]@,
                    spread(pieces@[j].vars@, y@[j]@, n as nat),
                ) == least_value(vt, n as nat, u, pieces@[j], mus@[j]@) && is_taken(
                    vt,
                    n as nat,
                    u,
                    by_enumeration,
                    pieces@[j],
                    mus@[j]@,
                    y@[j]@,
                ),
        decreases pieces@.len() - i,
    {
        proof {
            assert(is_piece(n as nat, pieces@[i as int]));
            assert(mus@[i as int]@.len() == pieces@[i as int].vars@.len());
            lemma_total_prefix(u, pieces@, mus@, n as nat, i as nat, pieces@.len());
            lemma_total_prefix(u, pieces@, mus@, n as nat, (i + 1) as nat, pieces@.len());
            lemma_floor_sizes(vt, n as nat, u, pieces@, mus@, (i + 1) as nat);
            assert(pieces@[i as int].vars@.len() > 0);
        }
        let (v, yi) = if by_enumeration {
            solve_cluster_y::<V>(n, &pieces[i], &mus[i], unit)
        } else {
            solve_term_y::<V>(n, &pieces[i], &mus[i], unit)
        };
        proof {
            lemma_least_value(vt, n as nat, u, pieces@[i as int], mus@[i as int]@, v as int);
        }
        value = value + v;
        y.push(yi);
        i += 1;
    }
    DualPoint { value, x, y }
}

proof fn lemma_sizes_agree(s: Seq<i64>, k: nat)
    requires
        k <= s.len(),
    ensures
        local_min::size_sum(s, k) == priced_size(as_ints(s), k),
    decreases k,
{
    if k > 0 {
        lemma_sizes_agree(s, (k - 1) as nat);
    }
}

/// The bound in whole numbers: the value in units with a slack of a billionth of
/// its size plus one, rounded down.
pub open spec fn unit_bound(value: int, unit: int) -> int {
    (1_000_000_000 * value - unit - term::abs(value)) / (1_000_000_000 * unit)
}

/// The bound in whole numbers.
pub fn bound_of(value: i64, unit: i64) -> (r: i64)
    requires
        unit >= 1,
        value > i64::MIN,
    ensures
        r == (if unit_bound(value as int, unit as int) < i64::MIN {
            i64::MIN as int
        } else {
            unit_bound(value as int, unit as int)
        }),
        unit * r <= value,
{
    let v: i128 = value as i128;
    let u: i128 = unit as i128;
    let size: i128 = if v < 0 {
        -v
    } else {
        v
    };
    let num: i128 = 1_000_000_000 * v - u - size;
    let den: i128 = 1_000_000_000 * u;
    let q: i128 = if num >= 0 {
        num / den
    } else {
        -((-num + den - 1) / den)
    };
    proof {
        assert(q == num as int / den as int && den * q <= num && num < den * q + den) by {
            lemma_floor_div(num as int, den as int, q as int);
        }
        let g: int = 1_000_000_000;
        assert(den == g * u);
        assert(u * q <= v) by (nonlinear_arith)
            requires
                (g * u) * q <= g * v,
                g == 1_000_000_000,
        ;
        assert(q <= i64::MAX) by (nonlinear_arith)
            requires
                u * q <= v,
                u >= 1,
                v <= i64::MAX,
        ;
    }
    if q < i64::MIN as i128 {
        proof {
            assert(u * i64::MIN <= v) by (nonlinear_arith)
                requires
                    u >= 1,
                    v >= i64::MIN,
            ;
        }
        i64::MIN
    } else {
        q as i64
    }
}

/// Rounding the negated quotient up rounds the quotient down.
proof fn lemma_floor_div(num: int, den: int, q: int)
    requires
        den > 0,
        q == (if num >= 0 {
            num / den
        } else {
            -((-num + den - 1) / den)
        }),
    ensures
        q == num / den,
        den * q <= num < den * q + den,
{
    if num >= 0 {
        vstd::arithmetic::div_mod::lemma_fundamental_div_mod(num, den);
    } else {
        let k = -num + den - 1;
        vstd::arithmetic::div_mod::lemma_fundamental_div_mod(k, den);
        let r = k % den;
        assert(num == den * q + (den - 1 - r)) by (nonlinear_arith)
            requires
                k == den * (k / den) + r,
                k == -num + den - 1,
                q == -(k / den),
        ;
        vstd::arithmetic::div_mod::lemma_fundamental_div_mod_converse(num, den, q, den - 1 - r);
    }
}

/// The bound is no larger than the sizes of the constant and all pieces.
pub proof fn lemma_dual_size(
    vt: VarType,
    n: nat,
    unit: int,
    constant: int,
    pieces: Seq<Piece>,
    mus: Seq<Vec<i64>>,
)
    requires
        are_priced(n, pieces, mus),
        unit >= 1,
        dual_fits(unit, constant, pieces, mus),
    ensures
        -i64::MAX <= dual_total(vt, n, unit, constant, pieces, mus) <= i64::MAX,
{
    let k = pieces.len();
    let x = Seq::<bool>::empty();
    lemma_prices(vt, n, pieces, mus, x, k);
    lemma_floor_sizes(vt, n, unit, pieces, mus, k);
    lemma_price_floor(vt, all_prices(pieces, mus, n, k), x, n);
}

} // verus!
