//! Moment matrices that must be positive semidefinite, as quadratic equations
//! over their triangular factors.

use crate::basis;
use crate::cliques;
use crate::domain::VarType;
use crate::domain;
use crate::lasserre::{LasserreSdpState, MomentApparatus, Relaxation};
use crate::lasserre;
use crate::lists;
use crate::merge;
use crate::moments;
use crate::reduction;
use crate::sets;
use crate::term;
use vstd::prelude::*;

verus! {

/// One entry of a matrix as an equation: its moment, where it has one, less the
/// products of factors equals the right-hand side.
pub struct PsdRow {
    pub moment: Option<usize>,
    pub products: Vec<(usize, usize)>,
    pub rhs: i64,
}

/// A program over moments and the factors of one matrix per block. Every moment
/// is between `lower` and one. The factors of the blocks are numbered one block
/// after the other, each lower triangle row by row.
pub struct PsdProgram {
    pub lower: i64,
    pub cost: Vec<i64>,
    pub dims: Vec<usize>,
    pub rows: Vec<PsdRow>,
}

/// The row of entry `(i, j)` of a matrix whose factors start at `start`: the
/// entry is the product of rows `i` and `j` of the factor. An entry without a
/// moment is one.
pub open spec fn is_row(
    entries: Seq<Option<usize>>,
    n: nat,
    start: int,
    i: nat,
    j: nat,
    row: PsdRow,
) -> bool {
    &&& row.moment == entries[lasserre::upper_place(n, i, j)]
    &&& row.rhs == (if row.moment is None {
        -1int
    } else {
        0
    })
    &&& row.products@.len() == i + 1
    &&& forall|r: int|
        0 <= r <= i ==> (#[trigger] row.products@[r]).0 == start + cliques::tri_place(i as int, r)
            && row.products@[r].1 == start + cliques::tri_place(j as int, r)
}

/// The rows of a block, one for each entry of the upper triangle.
pub open spec fn is_block(
    entries: Seq<Option<usize>>,
    n: nat,
    start: int,
    rows: Seq<PsdRow>,
) -> bool {
    &&& rows.len() == lasserre::row_start(n, n)
    &&& forall|i: nat, j: nat|
        i <= j < n ==> is_row(
            entries,
            n,
            start,
            i,
            j,
            rows[#[trigger] lasserre::upper_place(n, i, j)],
        )
}

/// The sum of the first `k` products of factors.
pub open spec fn product_sum(p: Seq<(usize, usize)>, l: spec_fn(int) -> int, k: nat) -> int
    decreases k,
{
    if k == 0 {
        0
    } else {
        product_sum(p, l, (k - 1) as nat) + l(p[k - 1].0 as int) * l(p[k - 1].1 as int)
    }
}

/// The left-hand side of a row at given moments and factors.
pub open spec fn row_value(row: PsdRow, y: Seq<int>, l: spec_fn(int) -> int) -> int {
    (match row.moment {
        Some(m) => y[m as int],
        None => 0,
    }) - product_sum(row.products@, l, row.products@.len())
}

/// The value of an entry of a matrix at given moments.
pub open spec fn entry_value(e: Option<usize>, y: Seq<int>) -> int {
    match e {
        Some(m) => y[m as int],
        None => 1,
    }
}

/// The matrix at the given moments is the product of one vector with itself.
pub open spec fn is_rank_one(
    entries: Seq<Option<usize>>,
    n: nat,
    y: Seq<int>,
    v: Seq<int>,
) -> bool {
    &&& v.len() == n
    &&& forall|i: nat, j: nat|
        i <= j < n ==> entry_value(
            entries[#[trigger] lasserre::upper_place(n, i, j)],
            y,
        ) == v[i as int] * v[j as int]
}

/// The factors of a block are a vector in the first column and zero elsewhere.
pub open spec fn is_first_column(start: int, v: Seq<int>, l: spec_fn(int) -> int) -> bool {
    forall|i: int, r: int|
        0 <= r <= i < v.len() ==> l(start + #[trigger] cliques::tri_place(i, r)) == (if r == 0 {
            v[i]
        } else {
            0
        })
}

proof fn lemma_first_product(
    p: Seq<(usize, usize)>,
    start: int,
    i: int,
    j: int,
    v: Seq<int>,
    l: spec_fn(int) -> int,
    k: nat,
)
    requires
        0 < k <= i + 1,
        i <= j < v.len(),
        p.len() == i + 1,
        is_first_column(start, v, l),
        forall|r: int|
            0 <= r <= i ==> (#[trigger] p[r]).0 == start + cliques::tri_place(i, r) && p[r].1
                == start + cliques::tri_place(j, r),
    ensures
        product_sum(p, l, k) == v[i] * v[j],
    decreases k,
{
    let r = k - 1;
    assert(p[r].0 == start + cliques::tri_place(i, r));
    let a = l(start + cliques::tri_place(i, r));
    let b = l(start + cliques::tri_place(j, r));
    if k > 1 {
        lemma_first_product(p, start, i, j, v, l, (k - 1) as nat);
        assert(a == 0);
        assert(a * b == 0) by (nonlinear_arith)
            requires
                a == 0,
        ;
    } else {
        assert(product_sum(p, l, 0) == 0);
    }
}

/// Where the matrix is the product of a vector with itself, the rows hold with
/// that vector in the first column of the factor.
pub proof fn rank_one_is_feasible(
    entries: Seq<Option<usize>>,
    n: nat,
    start: int,
    rows: Seq<PsdRow>,
    y: Seq<int>,
    v: Seq<int>,
    l: spec_fn(int) -> int,
    i: nat,
    j: nat,
)
    requires
        is_block(entries, n, start, rows),
        is_rank_one(entries, n, y, v),
        is_first_column(start, v, l),
        i <= j < n,
    ensures
        row_value(rows[lasserre::upper_place(n, i, j)], y, l) == rows[lasserre::upper_place(
            n,
            i,
            j,
        )].rhs,
{
    let row = rows[lasserre::upper_place(n, i, j)];
    lemma_first_product(row.products@, start, i as int, j as int, v, l, i + 1);
}

/// The rows of a block.
pub fn block_rows(entries: &Vec<Option<usize>>, n: usize, start: usize) -> (rows: Vec<PsdRow>)
    requires
        entries@.len() == lasserre::row_start(n as nat, n as nat),
        start + cliques::tri_place(n as int, 0) <= usize::MAX,
    ensures
        is_block(entries@, n as nat, start as int, rows@),
{
    let mut rows: Vec<PsdRow> = Vec::new();
    let mut i: usize = 0;
    while i < n
        invariant
            i <= n,
            entries@.len() == lasserre::row_start(n as nat, n as nat),
            start + cliques::tri_place(n as int, 0) <= usize::MAX,
            rows@.len() == lasserre::row_start(n as nat, i as nat),
            forall|a: nat, b: nat|
                a < i && a <= b < n ==> is_row(
                    entries@,
                    n as nat,
                    start as int,
                    a,
                    b,
                    rows@[#[trigger] lasserre::upper_place(n as nat, a, b)],
                ),
        decreases n - i,
    {
        let mut j: usize = i;
        while j < n
            invariant
                i <= j <= n,
                i < n,
                entries@.len() == lasserre::row_start(n as nat, n as nat),
                start + cliques::tri_place(n as int, 0) <= usize::MAX,
                rows@.len() == lasserre::row_start(n as nat, i as nat) + j - i,
                forall|a: nat, b: nat|
                    (a < i || (a == i && b < j)) && a <= b < n ==> is_row(
                        entries@,
                        n as nat,
                        start as int,
                        a,
                        b,
                        rows@[#[trigger] lasserre::upper_place(n as nat, a, b)],
                    ),
            decreases n - j,
        {
            let mut products: Vec<(usize, usize)> = Vec::new();
            let mut r: usize = 0;
            while r <= i
                invariant
                    r <= i + 1,
                    i <= j < n,
                    start + cliques::tri_place(n as int, 0) <= usize::MAX,
                    products@.len() == r,
                    forall|q: int|
                        0 <= q < r ==> (#[trigger] products@[q]).0 == start + cliques::tri_place(
                            i as int,
                            q,
                        ) && products@[q].1 == start + cliques::tri_place(j as int, q),
                decreases i + 1 - r,
            {
                proof {
                    lemma_triangle_grows(i as int, r as int, n as int);
                    lemma_triangle_grows(j as int, r as int, n as int);
                }
                products.push((start + cliques::tri_index(i, r), start + cliques::tri_index(j, r)));
                r += 1;
            }
            proof {
                lasserre::lemma_place_below(n as nat, i as nat, j as nat);
            }
            let moment: Option<usize> = entries[rows.len()];
            let rhs: i64 = if moment.is_none() {
                -1
            } else {
                0
            };
            let ghost before = rows@;
            rows.push(PsdRow { moment, products, rhs });
            proof {
                assert forall|a: nat, b: nat|
                    (a < i || (a == i && b < j + 1)) && a <= b < n implies is_row(
                    entries@,
                    n as nat,
                    start as int,
                    a,
                    b,
                    rows@[#[trigger] lasserre::upper_place(n as nat, a, b)],
                ) by {
                    if a < i {
                        lasserre::lemma_place_order(n as nat, a, b, i as nat, j as nat);
                    }
                    if b < j || a < i {
                        assert(rows@[lasserre::upper_place(n as nat, a, b)]
                            == before[lasserre::upper_place(n as nat, a, b)]);
                    }
                }
            }
            j += 1;
        }
        i += 1;
    }
    rows
}

/// The places of earlier rows of a lower triangle are below those of later ones.
proof fn lemma_triangle_grows(i: int, r: int, n: int)
    requires
        0 <= r <= i < n,
    ensures
        0 <= cliques::tri_place(i, r) < cliques::tri_place(n, 0),
    decreases n - i,
{
    cliques::triangle_has_no_gaps(i);
    assert(0 <= i * (i + 1)) by (nonlinear_arith)
        requires
            0 <= i,
    ;
    if i + 1 < n {
        lemma_triangle_grows(i + 1, 0, n);
    }
}

/// The least value of a moment.
pub open spec fn least_moment(vt: VarType) -> int {
    match vt {
        VarType::Bin => 0,
        VarType::Spin => -1,
    }
}

/// The lower bound of a moment.
pub fn lower_of(vt: VarType) -> (r: i64)
    ensures
        r == least_moment(vt),
{
    match vt {
        VarType::Bin => 0,
        VarType::Spin => -1,
    }
}

/// The moments of the entries of a moment matrix.
pub open spec fn entries_of(a: &MomentApparatus) -> Seq<Option<usize>> {
    Seq::new(
        a.upper_entry_to_y@.len(),
        |p: int|
            if a.upper_entry_to_y@[p]@.len() == 0 {
                None
            } else {
                Some(a.upper_entry_to_y@[p]@[0])
            },
    )
}

/// The program of a moment matrix: its moments at the cost of the objective, and
/// one block.
pub open spec fn is_moment_program(
    objective: Seq<i64>,
    a: &MomentApparatus,
    vt: VarType,
    r: &PsdProgram,
) -> bool {
    &&& r.lower == least_moment(vt)
    &&& r.cost@ == objective
    &&& r.dims@ == seq![a.mat_dim]
    &&& is_block(entries_of(a), a.mat_dim as nat, 0, r.rows@)
}

/// The program of a moment matrix: its moments at the cost of the objective, and
/// one block.
pub fn moment_program(objective: &Vec<i64>, a: &MomentApparatus, vt: VarType) -> (r: PsdProgram)
    requires
        a.upper_entry_to_y@.len() == lasserre::row_start(a.mat_dim as nat, a.mat_dim as nat),
        cliques::tri_place(a.mat_dim as int, 0) <= usize::MAX,
    ensures
        is_moment_program(objective@, a, vt, &r),
{
    let mut entries: Vec<Option<usize>> = Vec::new();
    let mut p: usize = 0;
    while p < a.upper_entry_to_y.len()
        invariant
            p <= a.upper_entry_to_y@.len(),
            entries@ == entries_of(a).take(p as int),
        decreases a.upper_entry_to_y@.len() - p,
    {
        let e: Option<usize> = if a.upper_entry_to_y[p].len() == 0 {
            None
        } else {
            Some(a.upper_entry_to_y[p][0])
        };
        entries.push(e);
        p += 1;
        assert(entries@ =~= entries_of(a).take(p as int));
    }
    assert(entries@ =~= entries_of(a));
    let rows = block_rows(&entries, a.mat_dim, 0);
    let mut cost: Vec<i64> = Vec::new();
    let mut k: usize = 0;
    while k < objective.len()
        invariant
            k <= objective@.len(),
            cost@ == objective@.take(k as int),
        decreases objective@.len() - k,
    {
        cost.push(objective[k]);
        k += 1;
        assert(cost@ =~= objective@.take(k as int));
    }
    assert(cost@ =~= objective@);
    let dims: Vec<usize> = vec![a.mat_dim];
    assert(dims@ =~= seq![a.mat_dim]);
    PsdProgram { lower: lower_of(vt), cost, dims, rows }
}

proof fn lemma_occurs_once(s: Seq<usize>, v: usize)
    requires
        sets::ascending(s),
    ensures
        domain::occurrences(s, v) == (if s.contains(v) {
            1nat
        } else {
            0nat
        }),
    decreases s.len(),
{
    if s.len() > 0 {
        let d = s.drop_last();
        assert forall|i: int, j: int| 0 <= i < j < d.len() implies d[i] < d[j] by {
            assert(s[i] < s[j]);
        }
        lemma_occurs_once(d, v);
        if d.contains(v) {
            let i = choose|i: int| 0 <= i < d.len() && d[i] == v;
            assert(s[i] == v);
            assert(s[i] < s[s.len() - 1]);
        }
        if s.contains(v) && s.last() != v {
            let i = choose|i: int| 0 <= i < s.len() && s[i] == v;
            assert(d[i] == v);
        }
        if s.last() == v {
            assert(s[s.len() - 1] == v);
        }
    }
}

proof fn lemma_joined_lists(vt: VarType, a: Seq<usize>, b: Seq<usize>, v: usize, x: Seq<bool>)
    ensures
        domain::occurrences(a + b, v) == domain::occurrences(a, v) + domain::occurrences(b, v),
        term::monomial(vt, a + b, x) == term::monomial(vt, a, x) * term::monomial(vt, b, x),
    decreases b.len(),
{
    if b.len() == 0 {
        assert(a + b =~= a);
    } else {
        lemma_joined_lists(vt, a, b.drop_last(), v, x);
        assert((a + b).drop_last() =~= a + b.drop_last());
        assert((a + b).last() == b.last());
        let p = term::monomial(vt, a, x);
        let q = term::monomial(vt, b.drop_last(), x);
        let e = term::bit_value(vt, x[b.last() as int]);
        assert((p * q) * e == p * (q * e)) by (nonlinear_arith);
    }
}

/// The value of a product of monomials is the product of their values.
pub proof fn product_value(vt: VarType, a: Seq<usize>, b: Seq<usize>, s: Seq<usize>, x: Seq<bool>)
    requires
        sets::ascending(a),
        sets::ascending(b),
        moments::is_product(vt, a, b, s),
    ensures
        term::monomial(vt, s, x) == term::monomial(vt, a, x) * term::monomial(vt, b, x),
{
    assert forall|v: usize| #[trigger] s.contains(v) == domain::survives(vt, a + b, v) by {
        lemma_joined_lists(vt, a, b, v, x);
        lemma_occurs_once(a, v);
        lemma_occurs_once(b, v);
    }
    reduction::reduction_preserves_monomial(vt, a + b, s, x);
    lemma_joined_lists(vt, a, b, 0, x);
}

/// The entries without a moment are those with a constant part.
pub proof fn constants_lack_moments(
    a: &MomentApparatus,
    d: nat,
    vt: VarType,
    cap: nat,
    terms: Seq<Vec<usize>>,
    i: nat,
    j: nat,
)
    requires
        a.is_for(d, vt, cap, terms),
        i <= j < a.mat_dim,
    ensures
        entries_of(a)[lasserre::upper_place(a.mat_dim as nat, i, j)] is None
            <==> lasserre::constant_at(vt, i, j) == 1,
{
    let n = a.mat_dim as nat;
    let m = a.free_moments@;
    let b = a.basis@;
    let x = b[i as int]@;
    let y = b[j as int]@;
    lasserre::lemma_place_below(n, i, j);
    let e = a.upper_entry_to_y@[lasserre::upper_place(n, i, j)]@;
    assert(lasserre::is_entry(vt, m, x, y, e));
    let s = choose|s: Seq<usize>| #[trigger]
        moments::is_product(vt, x, y, s) && (if s.len() == 0 {
            e.len() == 0
        } else {
            e.len() == 1 && e[0] < m.len() && m[e[0] as int]@ == s
        });
    let (direct, pairs) = choose|direct: Seq<basis::Batch>, pairs: Seq<basis::Batch>| #[trigger]
        basis::is_basis_by(terms, d, cap, direct, pairs, b);
    assert(lists::has_list(b, Seq::empty()));
    let k = choose|k: int| 0 <= k < b.len() && (#[trigger] b[k])@ == Seq::<usize>::empty();
    if i < j {
        assert(lists::comes_before(true, x, y));
        merge::lemma_lex_total(x, y);
    }
    if k > 0 {
        assert(lists::comes_before(true, b[0]@, b[k]@));
    }
    assert(b[0]@.len() == 0);
    if i > 0 {
        assert(lists::comes_before(true, b[0]@, x));
        assert(x.len() > 0);
    }
    if j > 0 {
        assert(lists::comes_before(true, b[0]@, y));
        assert(y.len() > 0);
    }
    match vt {
        VarType::Bin => {
            if j > 0 {
                assert(y.contains(y[0]));
                assert(s.contains(y[0]));
            } else if s.len() > 0 {
                assert(s.contains(s[0]));
            }
        },
        VarType::Spin => {
            if s.len() == 0 {
                assert forall|v: usize| x.contains(v) == y.contains(v) by {
                    assert(!s.contains(v));
                }
                sets::lemma_ascending_unique(x, y);
            } else {
                assert(s.contains(s[0]));
            }
        },
    }
}

/// The values of the monomials at an assignment.
pub open spec fn values_of(vt: VarType, m: Seq<Vec<usize>>, x: Seq<bool>) -> Seq<int> {
    Seq::new(m.len(), |k: int| term::monomial(vt, m[k]@, x))
}

/// Every assignment is a point of the program of a moment matrix: its moments
/// are within their bounds, and with the monomials of the basis in the first
/// column of the factor, none of them beyond one, every row holds. The objective there is at most the
/// value of the assignment.
pub proof fn moment_program_is_relaxation(
    s: &LasserreSdpState,
    base: i64,
    objective: Vec<i64>,
    a: MomentApparatus,
    r: &PsdProgram,
    x: Seq<bool>,
    l: spec_fn(int) -> int,
)
    requires
        s.wf(),
        lasserre::is_relaxation(s, (Relaxation::Moments { base, objective, apparatus: a })),
        is_moment_program(objective@, &a, s.var_type, r),
        is_first_column(0, values_of(s.var_type, a.basis@, x), l),
    ensures
        forall|i: nat, j: nat|
            i <= j < a.mat_dim ==> row_value(
                r.rows@[#[trigger] lasserre::upper_place(a.mat_dim as nat, i, j)],
                values_of(s.var_type, a.free_moments@, x),
                l,
            ) == r.rows@[lasserre::upper_place(a.mat_dim as nat, i, j)].rhs,
        forall|k: int|
            0 <= k < a.free_moments@.len() ==> least_moment(s.var_type) <= #[trigger] values_of(
                s.var_type,
                a.free_moments@,
                x,
            )[k] <= 1,
        forall|i: int|
            0 <= i < a.basis@.len() ==> -1 <= #[trigger] values_of(s.var_type, a.basis@, x)[i] <= 1,
        base + lasserre::moment_sum(
            s.var_type,
            a.free_moments@,
            |i: int| objective@[i] as int,
            x,
            a.free_moments@.len(),
        ) <= s.value(x),
{
    let vt = s.var_type;
    let n = a.mat_dim as nat;
    let y = values_of(vt, a.free_moments@, x);
    let v = values_of(vt, a.basis@, x);
    lasserre::relaxation_is_below(s, (Relaxation::Moments { base, objective, apparatus: a }), x);
    let t = choose|t: Seq<Vec<usize>>| #[trigger]
        a.is_for(lasserre::level_of(s), vt, s.max_basis as nat, t);
    assert forall|i: nat, j: nat| i <= j < n implies entry_value(
        entries_of(&a)[#[trigger] lasserre::upper_place(n, i, j)],
        y,
    ) == v[i as int] * v[j as int] by {
        lasserre::lemma_place_below(n, i, j);
        let p = lasserre::upper_place(n, i, j);
        let e = a.upper_entry_to_y@[p]@;
        let b = a.basis@[i as int]@;
        let c = a.basis@[j as int]@;
        assert(lasserre::is_entry(vt, a.free_moments@, b, c, e));
        let q = choose|q: Seq<usize>| #[trigger]
            moments::is_product(vt, b, c, q) && (if q.len() == 0 {
                e.len() == 0
            } else {
                e.len() == 1 && e[0] < a.free_moments@.len() && a.free_moments@[e[0] as int]@ == q
            });
        product_value(vt, b, c, q, x);
    }
    assert forall|i: nat, j: nat| i <= j < n implies row_value(
        r.rows@[#[trigger] lasserre::upper_place(n, i, j)],
        y,
        l,
    ) == r.rows@[lasserre::upper_place(n, i, j)].rhs by {
        rank_one_is_feasible(entries_of(&a), n, 0, r.rows@, y, v, l, i, j);
    }
    assert forall|k: int| 0 <= k < a.free_moments@.len() implies least_moment(vt) <= #[trigger] y[k]
        <= 1 by {
        lemma_value_range(vt, a.free_moments@[k]@, x);
    }
    assert forall|i: int| 0 <= i < a.basis@.len() implies -1 <= #[trigger] v[i] <= 1 by {
        lemma_value_range(vt, a.basis@[i]@, x);
    }
}

proof fn lemma_value_range(vt: VarType, s: Seq<usize>, x: Seq<bool>)
    ensures
        least_moment(vt) <= term::monomial(vt, s, x) <= 1,
    decreases s.len(),
{
    if s.len() > 0 {
        lemma_value_range(vt, s.drop_last(), x);
        let m = term::monomial(vt, s.drop_last(), x);
        let e = term::bit_value(vt, x[s.last() as int]);
        assert(e == 1 || e == 0 || e == -1);
        assert(m * 1 == m && m * 0 == 0 && m * -1 == -m);
    }
}

/// Every place of an upper triangle is that of an entry.
pub proof fn lemma_place_onto(n: nat, i: nat, p: int) -> (r: (nat, nat))
    requires
        i <= n,
        0 <= p < lasserre::row_start(n, i),
    ensures
        r.0 <= r.1 < n,
        lasserre::upper_place(n, r.0, r.1) == p,
    decreases i,
{
    let i1 = (i - 1) as nat;
    if p < lasserre::row_start(n, i1) {
        lemma_place_onto(n, i1, p)
    } else {
        (i1, (p - lasserre::row_start(n, i1) + i1) as nat)
    }
}

/// The places of a lower triangle grow with the rows.
proof fn lemma_triangle_order(i: int, r: int, k: int, s: int)
    requires
        0 <= r <= i < k,
        0 <= s,
    ensures
        cliques::tri_place(i, r) < cliques::tri_place(k, s),
    decreases k - i,
{
    cliques::triangle_has_no_gaps(i);
    if i + 1 < k {
        lemma_triangle_order(i + 1, 0, k, s);
    }
}

/// A vector with the place where the factors of its block start.
pub struct FactorBlock {
    pub start: int,
    pub vector: Seq<int>,
}

/// The blocks follow one another.
pub open spec fn are_spaced(blocks: Seq<FactorBlock>) -> bool {
    forall|a: int, b: int|
        0 <= a < b < blocks.len() ==> (#[trigger] blocks[a]).start + cliques::tri_place(
            blocks[a].vector.len() as int,
            0,
        ) <= (#[trigger] blocks[b]).start
}

/// Factor `t` is entry `i` of the first column of block `b`.
pub open spec fn is_head(blocks: Seq<FactorBlock>, t: int, b: int, i: int) -> bool {
    &&& 0 <= b < blocks.len()
    &&& 0 <= i < blocks[b].vector.len()
    &&& t == blocks[b].start + cliques::tri_place(i, 0)
}

/// The factors with the vectors in the first columns and zero elsewhere.
pub open spec fn factors_of(blocks: Seq<FactorBlock>) -> spec_fn(int) -> int {
    |t: int|
        if exists|b: int, i: int| is_head(blocks, t, b, i) {
            let (b, i) = choose|b: int, i: int| is_head(blocks, t, b, i);
            blocks[b].vector[i]
        } else {
            0
        }
}

proof fn lemma_head_unique(blocks: Seq<FactorBlock>, b: int, i: int, r: int, c: int, k: int)
    requires
        are_spaced(blocks),
        0 <= b < blocks.len(),
        0 <= r <= i < blocks[b].vector.len(),
        is_head(blocks, blocks[b].start + cliques::tri_place(i, r), c, k),
    ensures
        c == b,
        k == i,
        r == 0,
{
    let m = blocks[b].vector.len() as int;
    let n = blocks[c].vector.len() as int;
    lemma_triangle_grows(i, r, m);
    lemma_triangle_grows(k, 0, n);
    if c < b {
        assert(blocks[c].start + cliques::tri_place(n, 0) <= blocks[b].start);
    } else if b < c {
        assert(blocks[b].start + cliques::tri_place(m, 0) <= blocks[c].start);
    }
    if k < i {
        lemma_triangle_order(k, 0, i, r);
    } else if i < k {
        lemma_triangle_order(i, r, k, 0);
    }
}

/// The factors of some vectors hold each vector in the first column of its block.
pub proof fn factors_hold_vectors(blocks: Seq<FactorBlock>, b: int)
    requires
        are_spaced(blocks),
        0 <= b < blocks.len(),
    ensures
        is_first_column(blocks[b].start, blocks[b].vector, factors_of(blocks)),
{
    let l = factors_of(blocks);
    let v = blocks[b].vector;
    let start = blocks[b].start;
    assert forall|i: int, r: int| 0 <= r <= i < v.len() implies l(
        start + #[trigger] cliques::tri_place(i, r),
    ) == (if r == 0 {
        v[i]
    } else {
        0
    }) by {
        let t = start + cliques::tri_place(i, r);
        if r == 0 {
            assert(is_head(blocks, t, b, i));
        }
        if exists|c: int, k: int| is_head(blocks, t, c, k) {
            let (c, k) = choose|c: int, k: int| is_head(blocks, t, c, k);
            lemma_head_unique(blocks, b, i, r, c, k);
        }
    }
}

/// A point of a program: moments within their bounds, factors no larger than one,
/// and all rows hold.
pub open spec fn is_psd_point(r: &PsdProgram, y: Seq<int>, l: spec_fn(int) -> int) -> bool {
    &&& y.len() == r.cost@.len()
    &&& forall|k: int| 0 <= k < y.len() ==> r.lower <= #[trigger] y[k] <= 1
    &&& forall|t: int| -1 <= #[trigger] l(t) <= 1
    &&& forall|p: int|
        0 <= p < r.rows@.len() ==> row_value(#[trigger] r.rows@[p], y, l) == r.rows@[p].rhs
}

/// The first `k` moments at their costs.
pub open spec fn cost_sum(cost: Seq<i64>, m: Seq<int>, k: nat) -> int
    decreases k,
{
    if k == 0 {
        0
    } else {
        cost_sum(cost, m, (k - 1) as nat) + cost[k - 1] * m[k - 1]
    }
}

/// `v` is at most the cost of every point.
pub open spec fn is_psd_bound(r: &PsdProgram, v: int) -> bool {
    forall|y: Seq<int>, l: spec_fn(int) -> int| #[trigger]
        is_psd_point(r, y, l) ==> v <= cost_sum(r.cost@, y, y.len())
}

/// The factors of vectors within one are within one.
pub proof fn lemma_factors_small(blocks: Seq<FactorBlock>)
    requires
        forall|b: int, i: int|
            0 <= b < blocks.len() && 0 <= i < blocks[b].vector.len() ==> -1
                <= #[trigger] blocks[b].vector[i] <= 1,
    ensures
        forall|t: int| -1 <= #[trigger] factors_of(blocks)(t) <= 1,
{
    assert forall|t: int| -1 <= #[trigger] factors_of(blocks)(t) <= 1 by {
        if exists|b: int, i: int| is_head(blocks, t, b, i) {
            let (b, i) = choose|b: int, i: int| is_head(blocks, t, b, i);
            assert(-1 <= blocks[b].vector[i] <= 1);
        }
    }
}

} // verus!
