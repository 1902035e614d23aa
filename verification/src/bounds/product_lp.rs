//! Linear relaxations with a column for every product of variables in use.

use crate::active;
use crate::domain::VarType;
use crate::lists;
use crate::term::Term;
use crate::term;
use vstd::prelude::*;

verus! {

/// The columns of a product and its two factors.
#[derive(Debug, Clone, Copy, PartialEq, Eq, Structural)]
pub struct Step {
    pub w: usize,
    pub a: usize,
    pub b: usize,
}

/// A coefficient of a row.
#[derive(Debug, Clone, Copy, PartialEq, Eq, Structural)]
pub struct Entry {
    pub col: usize,
    pub coeff: i64,
}

/// An inequality: the weighted columns sum to at most `rhs`.
#[derive(Debug)]
pub struct Row {
    pub entries: Vec<Entry>,
    pub rhs: i64,
}

/// A linear program: minimise the cost within the bounds and under the rows.
/// The first columns are the variables, the others the products.
#[derive(Debug)]
pub struct ProductLp {
    pub n_vars: usize,
    pub products: Vec<Vec<usize>>,
    pub lower: Vec<i64>,
    pub upper: Vec<i64>,
    pub cost: Vec<i64>,
    pub rows: Vec<Row>,
}

/// The variables whose product column `c` stands for.
pub open spec fn column_list(n: int, products: Seq<Vec<usize>>, c: int) -> Seq<usize> {
    if c < n {
        seq![c as usize]
    } else {
        products[c - n]@
    }
}

/// Column `w` is the product of column `a` and variable `b`.
pub open spec fn is_step(n: int, products: Seq<Vec<usize>>, s: Step) -> bool {
    &&& n <= s.w < n + products.len()
    &&& s.a < n + products.len()
    &&& s.b < n
    &&& exists|j: int| is_split(n, products, s, j)
}

/// Variable `b` stands at place `j` of the product, and column `a` is the rest.
pub open spec fn is_split(n: int, products: Seq<Vec<usize>>, s: Step, j: int) -> bool {
    let list = column_list(n, products, s.w as int);
    &&& 0 <= j < list.len()
    &&& list[j] == s.b
    &&& column_list(n, products, s.a as int) == list.remove(j)
}

/// The value of column `c` at an assignment.
pub open spec fn column_value(
    vt: VarType,
    n: int,
    products: Seq<Vec<usize>>,
    x: Seq<bool>,
    c: int,
) -> int {
    term::monomial(vt, column_list(n, products, c), x)
}

/// The row with these columns, coefficients and right-hand side.
pub open spec fn is_row(row: Row, cols: Seq<usize>, coeffs: Seq<int>, rhs: int) -> bool {
    &&& row.rhs == rhs
    &&& row.entries@.len() == cols.len()
    &&& forall|i: int|
        0 <= i < cols.len() ==> (#[trigger] row.entries@[i]).col == cols[i]
            && row.entries@[i].coeff == coeffs[i]
}

/// The number of rows of a product.
pub open spec fn rows_per_step(vt: VarType) -> int {
    match vt {
        VarType::Bin => 3,
        VarType::Spin => 4,
    }
}

/// The rows from `at` on that tie a product to its factors: `w <= a`, `w <= b`
/// and `w >= a + b - 1` for bits; `w <= 1 + a - b`, `w <= 1 - a + b`,
/// `w >= a + b - 1` and `w >= -a - b - 1` for spins.
pub open spec fn is_mccormick(vt: VarType, s: Step, rows: Seq<Row>, at: int) -> bool {
    match vt {
        VarType::Bin => {
            &&& is_row(rows[at], seq![s.w, s.a], seq![1, -1], 0)
            &&& is_row(rows[at + 1], seq![s.w, s.b], seq![1, -1], 0)
            &&& is_row(rows[at + 2], seq![s.w, s.a, s.b], seq![-1, 1, 1], 1)
        },
        VarType::Spin => {
            &&& is_row(rows[at], seq![s.w, s.a, s.b], seq![1, -1, 1], 1)
            &&& is_row(rows[at + 1], seq![s.w, s.a, s.b], seq![1, 1, -1], 1)
            &&& is_row(rows[at + 2], seq![s.w, s.a, s.b], seq![-1, 1, 1], 1)
            &&& is_row(rows[at + 3], seq![s.w, s.a, s.b], seq![-1, -1, -1], 1)
        },
    }
}

/// The left-hand side of a row at a point, over its first `k` entries.
pub open spec fn row_sum(entries: Seq<Entry>, point: Seq<int>, k: nat) -> int
    decreases k,
{
    if k == 0 {
        0
    } else {
        row_sum(entries, point, (k - 1) as nat) + entries[k - 1].coeff
            * point[entries[k - 1].col as int]
    }
}

/// The point meets the row.
pub open spec fn meets(row: Row, point: Seq<int>) -> bool {
    row_sum(row.entries@, point, row.entries@.len()) <= row.rhs
}

/// The point of an assignment: the value of every column.
pub open spec fn point_of(vt: VarType, n: nat, products: Seq<Vec<usize>>, x: Seq<bool>) -> Seq<int> {
    Seq::new(n + products.len(), |c: int| column_value(vt, n as int, products, x, c))
}

/// The coefficients of those of the first `k` terms whose variables are `s`.
pub open spec fn list_weight(terms: Seq<Term>, s: Seq<usize>, k: nat) -> int
    decreases k,
{
    if k == 0 {
        0
    } else {
        list_weight(terms, s, (k - 1) as nat) + (if terms[k - 1].indices@ == s {
            terms[k - 1].coeff as int
        } else {
            0
        })
    }
}

/// The cost of a point over its first `k` columns.
pub open spec fn cost_at(cost: Seq<i64>, point: Seq<int>, k: nat) -> int
    decreases k,
{
    if k == 0 {
        0
    } else {
        cost_at(cost, point, (k - 1) as nat) + cost[k - 1] * point[k - 1]
    }
}

/// The smallest value of a variable.
pub open spec fn low_value(vt: VarType) -> int {
    term::bit_value(vt, false)
}

/// The products are lists of at least two variables below `n`, each once.
pub open spec fn are_products(n: nat, products: Seq<Vec<usize>>) -> bool {
    &&& forall|i: int|
        0 <= i < products.len() ==> (#[trigger] products[i])@.len() >= 2 && term::indices_below(
            products[i]@,
            n as int,
        )
    &&& lists::in_list_order(true, products)
}

/// Every term of more than one variable is a product.
pub open spec fn covers_terms(products: Seq<Vec<usize>>, terms: Seq<Term>) -> bool {
    forall|i: int|
        0 <= i < terms.len() && (#[trigger] terms[i]).indices@.len() >= 2 ==> lists::has_list(
            products,
            terms[i].indices@,
        )
}

/// The linear program of tidy terms over these products and steps, with the
/// fixed variables held at their values.
pub open spec fn is_product_lp(
    vt: VarType,
    terms: Seq<Term>,
    fixed: Seq<Option<bool>>,
    steps: Seq<Step>,
    lp: &ProductLp,
) -> bool {
    let n = lp.n_vars as nat;
    let m = n + lp.products@.len();
    &&& fixed.len() == n
    &&& are_products(n, lp.products@)
    &&& covers_terms(lp.products@, terms)
    &&& forall|i: int| 0 <= i < steps.len() ==> is_step(n as int, lp.products@, #[trigger] steps[i])
    &&& lp.rows@.len() == steps.len() * rows_per_step(vt)
    &&& forall|i: int|
        0 <= i < steps.len() ==> is_mccormick(
            vt,
            #[trigger] steps[i],
            lp.rows@,
            i * rows_per_step(vt),
        )
    &&& lp.cost@.len() == m
    &&& forall|c: int|
        0 <= c < m ==> #[trigger] lp.cost@[c] == list_weight(
            terms,
            column_list(n as int, lp.products@, c),
            terms.len(),
        )
    &&& lp.lower@.len() == m
    &&& lp.upper@.len() == m
    &&& forall|c: int|
        0 <= c < m ==> #[trigger] lp.lower@[c] == (if c < n && fixed[c] == Some(true) {
            1
        } else {
            low_value(vt)
        })
    &&& forall|c: int|
        0 <= c < m ==> #[trigger] lp.upper@[c] == (if c < n && fixed[c] == Some(false) {
            low_value(vt)
        } else {
            1
        })
}

/// Add one row.
fn push_row(rows: &mut Vec<Row>, entries: Vec<Entry>, rhs: i64)
    ensures
        final(rows)@ == old(rows)@.push((Row { entries, rhs })),
{
    rows.push(Row { entries, rhs });
}

/// Add the rows that tie a product to its factors.
pub fn add_mccormick(rows: &mut Vec<Row>, var_type: VarType, s: Step)
    ensures
        final(rows)@.len() == old(rows)@.len() + rows_per_step(var_type),
        forall|i: int| 0 <= i < old(rows)@.len() ==> #[trigger] final(rows)@[i] == old(rows)@[i],
        is_mccormick(var_type, s, final(rows)@, old(rows)@.len() as int),
{
    let w: usize = s.w;
    let a: usize = s.a;
    let b: usize = s.b;
    match var_type {
        VarType::Bin => {
            push_row(rows, vec![Entry { col: w, coeff: 1 }, Entry { col: a, coeff: -1 }], 0);
            push_row(rows, vec![Entry { col: w, coeff: 1 }, Entry { col: b, coeff: -1 }], 0);
            push_row(
                rows,
                vec![
                    Entry { col: w, coeff: -1 },
                    Entry { col: a, coeff: 1 },
                    Entry { col: b, coeff: 1 },
                ],
                1,
            );
        },
        VarType::Spin => {
            push_row(
                rows,
                vec![
                    Entry { col: w, coeff: 1 },
                    Entry { col: a, coeff: -1 },
                    Entry { col: b, coeff: 1 },
                ],
                1,
            );
            push_row(
                rows,
                vec![
                    Entry { col: w, coeff: 1 },
                    Entry { col: a, coeff: 1 },
                    Entry { col: b, coeff: -1 },
                ],
                1,
            );
            push_row(
                rows,
                vec![
                    Entry { col: w, coeff: -1 },
                    Entry { col: a, coeff: 1 },
                    Entry { col: b, coeff: 1 },
                ],
                1,
            );
            push_row(
                rows,
                vec![
                    Entry { col: w, coeff: -1 },
                    Entry { col: a, coeff: -1 },
                    Entry { col: b, coeff: -1 },
                ],
                1,
            );
        },
    }
}

proof fn lemma_list_weight(terms: Seq<Term>, s: Seq<usize>, k: nat)
    requires
        k <= terms.len(),
    ensures
        term::abs(list_weight(terms, s, k)) <= term::abs_sum(terms.take(k as int)),
        term::abs_sum(terms.take(k as int)) <= term::abs_sum(terms),
    decreases k,
{
    term::lemma_abs_sum_take(terms, k as int);
    if k == 0 {
        assert(terms.take(0) =~= Seq::empty());
    } else {
        lemma_list_weight(terms, s, (k - 1) as nat);
        assert(terms.take(k as int).drop_last() =~= terms.take(k - 1));
    }
}

/// Different columns stand for different lists.
proof fn lemma_columns_distinct(n: nat, products: Seq<Vec<usize>>, c: int, d: int)
    requires
        are_products(n, products),
        n <= usize::MAX,
        0 <= c < n + products.len(),
        0 <= d < n + products.len(),
        column_list(n as int, products, c) == column_list(n as int, products, d),
    ensures
        c == d,
{
    let lc = column_list(n as int, products, c);
    let ld = column_list(n as int, products, d);
    if c < n && d < n {
        assert(lc[0] == ld[0]);
    } else if c < n {
        assert(products[d - n]@.len() >= 2);
    } else if d < n {
        assert(products[c - n]@.len() >= 2);
    } else if c < d {
        assert(lists::comes_before(true, products[c - n]@, products[d - n]@));
        lists::lemma_order_total(true, products[c - n]@, products[d - n]@);
    } else if d < c {
        assert(lists::comes_before(true, products[d - n]@, products[c - n]@));
        lists::lemma_order_total(true, products[d - n]@, products[c - n]@);
    }
}

/// The column of a term.
fn column_of(n: usize, products: &Vec<Vec<usize>>, indices: &Vec<usize>) -> (r: usize)
    requires
        n + products@.len() <= usize::MAX,
        active::is_tidy_list(indices@, n as nat),
        indices@.len() >= 2 ==> lists::has_list(products@, indices@),
    ensures
        r < n + products@.len(),
        column_list(n as int, products@, r as int) == indices@,
{
    if indices.len() == 1 {
        let r: usize = indices[0];
        assert(column_list(n as int, products@, r as int) =~= indices@);
        r
    } else {
        match lists::find_list(products, indices) {
            Some(k) => n + k,
            None => 0,
        }
    }
}

/// Put a linear program together.
pub fn assemble(
    var_type: VarType,
    terms: &Vec<Term>,
    fixed: &Vec<Option<bool>>,
    products: Vec<Vec<usize>>,
    steps: &Vec<Step>,
) -> (r: ProductLp)
    requires
        fixed@.len() + products@.len() <= usize::MAX,
        are_products(fixed@.len(), products@),
        covers_terms(products@, terms@),
        forall|i: int|
            0 <= i < terms@.len() ==> active::is_tidy_list(
                (#[trigger] terms@[i]).indices@,
                fixed@.len(),
            ),
        term::abs_sum(terms@) <= i64::MAX,
        forall|i: int|
            0 <= i < steps@.len() ==> is_step(
                fixed@.len() as int,
                products@,
                #[trigger] steps@[i],
            ),
    ensures
        is_product_lp(var_type, terms@, fixed@, steps@, &r),
        r.n_vars == fixed@.len(),
        r.products == products,
{
    let n: usize = fixed.len();
    let m: usize = n + products.len();
    let low: i64 = match var_type {
        VarType::Bin => 0,
        VarType::Spin => -1,
    };
    let mut lower: Vec<i64> = Vec::new();
    let mut upper: Vec<i64> = Vec::new();
    let mut cost: Vec<i64> = Vec::new();
    let mut c: usize = 0;
    while c < m
        invariant
            c <= m,
            n <= m,
            n == fixed@.len(),
            low == low_value(var_type),
            lower@.len() == c,
            upper@.len() == c,
            cost@.len() == c,
            forall|i: int| 0 <= i < c ==> #[trigger] cost@[i] == 0,
            forall|i: int|
                0 <= i < c ==> #[trigger] lower@[i] == (if i < n && fixed@[i] == Some(true) {
                    1
                } else {
                    low_value(var_type)
                }),
            forall|i: int|
                0 <= i < c ==> #[trigger] upper@[i] == (if i < n && fixed@[i] == Some(false) {
                    low_value(var_type)
                } else {
                    1
                }),
        decreases m - c,
    {
        let mut lo: i64 = low;
        let mut up: i64 = 1;
        if c < n {
            match fixed[c] {
                Some(true) => {
                    lo = 1;
                },
                Some(false) => {
                    up = low;
                },
                None => {},
            }
        }
        lower.push(lo);
        upper.push(up);
        cost.push(0);
        c += 1;
    }
    let mut k: usize = 0;
    while k < terms.len()
        invariant
            k <= terms@.len(),
            n == fixed@.len(),
            m == n + products@.len(),
            cost@.len() == m,
            are_products(n as nat, products@),
            covers_terms(products@, terms@),
            term::abs_sum(terms@) <= i64::MAX,
            forall|i: int|
                0 <= i < terms@.len() ==> active::is_tidy_list(
                    (#[trigger] terms@[i]).indices@,
                    n as nat,
                ),
            forall|i: int|
                0 <= i < m ==> #[trigger] cost@[i] == list_weight(
                    terms@,
                    column_list(n as int, products@, i),
                    k as nat,
                ),
        decreases terms@.len() - k,
    {
        proof {
            assert(active::is_tidy_list(terms@[k as int].indices@, n as nat));
        }
        let ghost before = cost@;
        let col: usize = column_of(n, &products, &terms[k].indices);
        let ghost list = column_list(n as int, products@, col as int);
        proof {
            lemma_list_weight(terms@, list, (k + 1) as nat);
            assert(cost@[col as int] == list_weight(terms@, list, k as nat));
        }
        let old: i64 = cost[col];
        cost.set(col, old + terms[k].coeff);
        k += 1;
        proof {
            assert forall|i: int| 0 <= i < m implies #[trigger] cost@[i] == list_weight(
                terms@,
                column_list(n as int, products@, i),
                k as nat,
            ) by {
                assert(before[i] == list_weight(
                    terms@,
                    column_list(n as int, products@, i),
                    (k - 1) as nat,
                ));
                if column_list(n as int, products@, i) == list {
                    lemma_columns_distinct(n as nat, products@, i, col as int);
                }
            }
        }
    }
    let mut rows: Vec<Row> = Vec::new();
    let mut i: usize = 0;
    while i < steps.len()
        invariant
            i <= steps@.len(),
            rows@.len() == i * rows_per_step(var_type),
            forall|j: int|
                0 <= j < i ==> is_mccormick(
                    var_type,
                    #[trigger] steps@[j],
                    rows@,
                    j * rows_per_step(var_type),
                ),
        decreases steps@.len() - i,
    {
        let ghost before = rows@;
        add_mccormick(&mut rows, var_type, steps[i]);
        proof {
            let per = rows_per_step(var_type);
            assert((i + 1) * per == i * per + per) by (nonlinear_arith);
            assert forall|j: int| 0 <= j < i implies is_mccormick(
                var_type,
                #[trigger] steps@[j],
                rows@,
                j * rows_per_step(var_type),
            ) by {
                assert(is_mccormick(var_type, steps@[j], before, j * rows_per_step(var_type)));
            }
        }
        i += 1;
    }
    ProductLp { n_vars: n, products, lower, upper, cost, rows }
}

proof fn lemma_monomial_remove(vt: VarType, s: Seq<usize>, j: int, x: Seq<bool>)
    requires
        0 <= j < s.len(),
    ensures
        term::monomial(vt, s, x) == term::monomial(vt, s.remove(j), x) * term::bit_value(
            vt,
            x[s[j] as int],
        ),
    decreases s.len(),
{
    let last = term::bit_value(vt, x[s.last() as int]);
    if j == s.len() - 1 {
        assert(s.remove(j) =~= s.drop_last());
    } else {
        let d = s.drop_last();
        lemma_monomial_remove(vt, d, j, x);
        assert(s.remove(j).drop_last() =~= d.remove(j));
        assert(s.remove(j).last() == s.last());
        let p = term::monomial(vt, d.remove(j), x);
        let b = term::bit_value(vt, x[s[j] as int]);
        assert((p * b) * last == (p * last) * b) by (nonlinear_arith);
    }
}

/// A product column is the product of its factor columns.
proof fn lemma_step_value(vt: VarType, n: int, products: Seq<Vec<usize>>, s: Step, x: Seq<bool>)
    requires
        is_step(n, products, s),
        n <= usize::MAX,
    ensures
        column_value(vt, n, products, x, s.w as int) == column_value(
            vt,
            n,
            products,
            x,
            s.a as int,
        ) * column_value(vt, n, products, x, s.b as int),
{
    let j = choose|j: int| is_split(n, products, s, j);
    let list = column_list(n, products, s.w as int);
    lemma_monomial_remove(vt, list, j, x);
    let one = column_list(n, products, s.b as int);
    assert(one.drop_last() =~= Seq::empty());
    reveal_with_fuel(term::monomial, 2);
    assert(1 * term::bit_value(vt, x[s.b as int]) == term::bit_value(vt, x[s.b as int]));
}

proof fn lemma_row_two(row: Row, cols: Seq<usize>, coeffs: Seq<int>, rhs: int, point: Seq<int>)
    requires
        is_row(row, cols, coeffs, rhs),
        cols.len() == 2,
    ensures
        row_sum(row.entries@, point, row.entries@.len()) == coeffs[0] * point[cols[0] as int]
            + coeffs[1] * point[cols[1] as int],
{
    reveal_with_fuel(row_sum, 3);
    assert(row.entries@[0].col == cols[0]);
    assert(row.entries@[1].col == cols[1]);
}

proof fn lemma_row_three(row: Row, cols: Seq<usize>, coeffs: Seq<int>, rhs: int, point: Seq<int>)
    requires
        is_row(row, cols, coeffs, rhs),
        cols.len() == 3,
    ensures
        row_sum(row.entries@, point, row.entries@.len()) == coeffs[0] * point[cols[0] as int]
            + coeffs[1] * point[cols[1] as int] + coeffs[2] * point[cols[2] as int],
{
    reveal_with_fuel(row_sum, 4);
    assert(row.entries@[0].col == cols[0]);
    assert(row.entries@[1].col == cols[1]);
    assert(row.entries@[2].col == cols[2]);
}

proof fn lemma_mccormick_met(vt: VarType, s: Step, rows: Seq<Row>, at: int, point: Seq<int>)
    requires
        is_mccormick(vt, s, rows, at),
        vt == VarType::Bin ==> (point[s.a as int] == 0 || point[s.a as int] == 1) && (
        point[s.b as int] == 0 || point[s.b as int] == 1),
        vt == VarType::Spin ==> (point[s.a as int] == -1 || point[s.a as int] == 1) && (
        point[s.b as int] == -1 || point[s.b as int] == 1),
        point[s.w as int] == point[s.a as int] * point[s.b as int],
    ensures
        forall|r: int| at <= r < at + rows_per_step(vt) ==> meets(#[trigger] rows[r], point),
{
    let w = point[s.w as int];
    let a = point[s.a as int];
    let b = point[s.b as int];
    assert(w == if a == 0 || b == 0 { 0 } else if a == b { 1 } else { -1int }) by (nonlinear_arith)
        requires
            w == a * b,
            a == 0 || a == 1 || a == -1,
            b == 0 || b == 1 || b == -1,
    ;
    match vt {
        VarType::Bin => {
            lemma_row_two(rows[at], seq![s.w, s.a], seq![1, -1], 0, point);
            lemma_row_two(rows[at + 1], seq![s.w, s.b], seq![1, -1], 0, point);
            lemma_row_three(rows[at + 2], seq![s.w, s.a, s.b], seq![-1, 1, 1], 1, point);
            assert(1 * w == w && -1 * a == -a && -1 * b == -b && -1 * w == -w);
            assert(meets(rows[at], point));
            assert(meets(rows[at + 1], point));
            assert(meets(rows[at + 2], point));
        },
        VarType::Spin => {
            lemma_row_three(rows[at], seq![s.w, s.a, s.b], seq![1, -1, 1], 1, point);
            lemma_row_three(rows[at + 1], seq![s.w, s.a, s.b], seq![1, 1, -1], 1, point);
            lemma_row_three(rows[at + 2], seq![s.w, s.a, s.b], seq![-1, 1, 1], 1, point);
            lemma_row_three(rows[at + 3], seq![s.w, s.a, s.b], seq![-1, -1, -1], 1, point);
        },
    }
}

proof fn lemma_monomial_sign(vt: VarType, s: Seq<usize>, x: Seq<bool>)
    ensures
        vt == VarType::Bin ==> term::monomial(vt, s, x) == 0 || term::monomial(vt, s, x) == 1,
        vt == VarType::Spin ==> term::monomial(vt, s, x) == -1 || term::monomial(vt, s, x) == 1,
    decreases s.len(),
{
    if s.len() > 0 {
        lemma_monomial_sign(vt, s.drop_last(), x);
        let p = term::monomial(vt, s.drop_last(), x);
        let b = term::bit_value(vt, x[s.last() as int]);
        assert(p * b == if p == 0 || b == 0 { 0 } else if p == b { 1 } else { -1int })
            by (nonlinear_arith)
            requires
                p == 0 || p == 1 || p == -1,
                b == 0 || b == 1 || b == -1,
        ;
    }
}

/// The weights of the first `m` columns by the first `k` terms, at an
/// assignment.
spec fn weights_at(
    vt: VarType,
    n: int,
    products: Seq<Vec<usize>>,
    terms: Seq<Term>,
    x: Seq<bool>,
    k: nat,
    m: nat,
) -> int
    decreases m,
{
    if m == 0 {
        0
    } else {
        weights_at(vt, n, products, terms, x, k, (m - 1) as nat) + list_weight(
            terms,
            column_list(n, products, m - 1),
            k,
        ) * column_value(vt, n, products, x, m - 1)
    }
}

proof fn lemma_weights_none(
    vt: VarType,
    n: int,
    products: Seq<Vec<usize>>,
    terms: Seq<Term>,
    x: Seq<bool>,
    m: nat,
)
    ensures
        weights_at(vt, n, products, terms, x, 0, m) == 0,
    decreases m,
{
    if m > 0 {
        lemma_weights_none(vt, n, products, terms, x, (m - 1) as nat);
        assert(0 * column_value(vt, n, products, x, m - 1) == 0);
    }
}

proof fn lemma_weights_step(
    vt: VarType,
    n: nat,
    products: Seq<Vec<usize>>,
    terms: Seq<Term>,
    x: Seq<bool>,
    k: nat,
    m: nat,
    col: int,
)
    requires
        are_products(n, products),
        n <= usize::MAX,
        k < terms.len(),
        m <= n + products.len(),
        0 <= col < n + products.len(),
        column_list(n as int, products, col) == terms[k as int].indices@,
    ensures
        weights_at(vt, n as int, products, terms, x, k + 1, m) == weights_at(
            vt,
            n as int,
            products,
            terms,
            x,
            k,
            m,
        ) + (if col < m {
            term::term_value(vt, terms[k as int], x)
        } else {
            0
        }),
    decreases m,
{
    if m > 0 {
        let c = m - 1;
        lemma_weights_step(vt, n, products, terms, x, k, c as nat, col);
        let list = column_list(n as int, products, c);
        let w = list_weight(terms, list, k);
        let v = column_value(vt, n as int, products, x, c);
        let coeff = terms[k as int].coeff as int;
        if list == terms[k as int].indices@ {
            lemma_columns_distinct(n, products, c, col);
            assert((w + coeff) * v == w * v + coeff * v) by (nonlinear_arith);
        }
    }
}

proof fn lemma_weights(
    vt: VarType,
    n: nat,
    products: Seq<Vec<usize>>,
    terms: Seq<Term>,
    x: Seq<bool>,
    k: nat,
)
    requires
        are_products(n, products),
        covers_terms(products, terms),
        n <= usize::MAX,
        k <= terms.len(),
        forall|i: int|
            0 <= i < terms.len() ==> active::is_tidy_list((#[trigger] terms[i]).indices@, n),
    ensures
        weights_at(vt, n as int, products, terms, x, k, n + products.len()) == term::poly(
            vt,
            terms.take(k as int),
            x,
        ),
    decreases k,
{
    if k == 0 {
        lemma_weights_none(vt, n as int, products, terms, x, n + products.len());
        assert(terms.take(0) =~= Seq::empty());
    } else {
        let k1 = (k - 1) as nat;
        lemma_weights(vt, n, products, terms, x, k1);
        assert(terms.take(k as int).drop_last() =~= terms.take(k1 as int));
        let list = terms[k1 as int].indices@;
        assert(active::is_tidy_list(terms[k1 as int].indices@, n));
        if list.len() == 1 {
            assert(list[0] < n);
            assert(column_list(n as int, products, list[0] as int) =~= list);
            lemma_weights_step(vt, n, products, terms, x, k1, n + products.len(), list[0] as int);
        } else {
            assert(lists::has_list(products, terms[k1 as int].indices@));
            let i = choose|i: int| 0 <= i < products.len() && (#[trigger] products[i])@ == list;
            assert(column_list(n as int, products, n + i) == list);
            lemma_weights_step(vt, n, products, terms, x, k1, n + products.len(), n + i);
        }
    }
}

proof fn lemma_cost_weights(
    vt: VarType,
    terms: Seq<Term>,
    fixed: Seq<Option<bool>>,
    steps: Seq<Step>,
    lp: &ProductLp,
    x: Seq<bool>,
    m: nat,
)
    requires
        is_product_lp(vt, terms, fixed, steps, lp),
        m <= lp.n_vars + lp.products@.len(),
    ensures
        cost_at(lp.cost@, point_of(vt, lp.n_vars as nat, lp.products@, x), m) == weights_at(
            vt,
            lp.n_vars as int,
            lp.products@,
            terms,
            x,
            terms.len(),
            m,
        ),
    decreases m,
{
    if m > 0 {
        lemma_cost_weights(vt, terms, fixed, steps, lp, x, (m - 1) as nat);
        assert(lp.cost@[m - 1] == list_weight(
            terms,
            column_list(lp.n_vars as int, lp.products@, m - 1),
            terms.len(),
        ));
    }
}

/// Every assignment that takes the fixed values is a point within the bounds and
/// under the rows, and its cost is the value of the terms. So the optimum of the
/// linear program is a lower bound of the terms' value.
pub proof fn assignment_is_feasible(
    vt: VarType,
    terms: Seq<Term>,
    fixed: Seq<Option<bool>>,
    steps: Seq<Step>,
    lp: &ProductLp,
    x: Seq<bool>,
)
    requires
        is_product_lp(vt, terms, fixed, steps, lp),
        forall|i: int|
            0 <= i < terms.len() ==> active::is_tidy_list(
                (#[trigger] terms[i]).indices@,
                lp.n_vars as nat,
            ),
        crate::node::extends(x, fixed),
    ensures
        ({
            let p = point_of(vt, lp.n_vars as nat, lp.products@, x);
            &&& forall|c: int|
                0 <= c < p.len() ==> lp.lower@[c] <= #[trigger] p[c] <= lp.upper@[c]
            &&& forall|r: int| 0 <= r < lp.rows@.len() ==> meets(#[trigger] lp.rows@[r], p)
            &&& cost_at(lp.cost@, p, p.len()) == term::poly(vt, terms, x)
        }),
{
    let n = lp.n_vars as nat;
    let p = point_of(vt, n, lp.products@, x);
    assert forall|c: int| 0 <= c < p.len() implies lp.lower@[c] <= #[trigger] p[c]
        <= lp.upper@[c] by {
        lemma_monomial_sign(vt, column_list(n as int, lp.products@, c), x);
        if c < n {
            let one = column_list(n as int, lp.products@, c);
            assert(one.drop_last() =~= Seq::empty());
            reveal_with_fuel(term::monomial, 2);
            assert(1 * term::bit_value(vt, x[c]) == term::bit_value(vt, x[c]));
            if fixed[c] is Some {
                assert(fixed[c] == Some(x[c]));
            }
        }
    }
    let per = rows_per_step(vt);
    assert forall|r: int| 0 <= r < lp.rows@.len() implies meets(#[trigger] lp.rows@[r], p) by {
        let i = r / per;
        assert(i * per <= r < i * per + per && 0 <= i < steps.len()) by (nonlinear_arith)
            requires
                i == r / per,
                per == 3 || per == 4,
                0 <= r < steps.len() * per,
        ;
        let s = steps[i];
        assert(is_mccormick(vt, steps[i], lp.rows@, i * per));
        assert(is_step(n as int, lp.products@, s));
        lemma_step_value(vt, n as int, lp.products@, s, x);
        lemma_monomial_sign(vt, column_list(n as int, lp.products@, s.a as int), x);
        lemma_monomial_sign(vt, column_list(n as int, lp.products@, s.b as int), x);
        lemma_mccormick_met(vt, s, lp.rows@, i * per, p);
    }
    lemma_cost_weights(vt, terms, fixed, steps, lp, x, p.len());
    lemma_weights(vt, n, lp.products@, terms, x, terms.len());
    assert(terms.take(terms.len() as int) =~= terms);
}

} // verus!
