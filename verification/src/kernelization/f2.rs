//! Kernels of sparse matrices over the field of two elements.

use crate::parity;
use crate::sets;
use crate::term;
use vstd::prelude::*;

verus! {

/// A list of columns as bits.
pub open spec fn column_bits(row: Seq<usize>, n: nat) -> Seq<bool> {
    Seq::new(n, |c: int| row.contains(c as usize))
}

/// Every row meets `y` an even number of times.
pub open spec fn in_kernel(rows: Seq<Vec<usize>>, n: nat, y: Seq<bool>) -> bool {
    forall|i: int| 0 <= i < rows.len() ==> !parity::dot(column_bits((#[trigger] rows[i])@, n), y, n)
}

/// The rows are ascending lists of columns.
pub open spec fn sparse_rows(rows: Seq<Vec<usize>>, n: nat) -> bool {
    forall|i: int|
        0 <= i < rows.len() ==> sets::ascending((#[trigger] rows[i])@) && term::indices_below(
            rows[i]@,
            n as int,
        )
}

/// Vector `v` of a basis: its free column first, then pivot columns before it,
/// ascending, and none of the free columns of the basis.
pub open spec fn is_basis_vector(b: Seq<Vec<usize>>, v: Seq<usize>, n: nat) -> bool {
    &&& v.len() > 0
    &&& v[0] < n
    &&& sets::ascending(v.skip(1))
    &&& forall|j: int| 1 <= j < v.len() ==> (#[trigger] v[j]) < v[0]
    &&& forall|j: int, m: int|
        1 <= j < v.len() && 0 <= m < b.len() ==> #[trigger] v[j] != (#[trigger] b[m])@[0]
}

/// `b` is the basis in reduced form of the vectors that `ker` accepts: one
/// vector per free column, in ascending order of the free columns; an accepted
/// vector that is zero at all of them is zero.
pub open spec fn is_reduced_basis(
    ker: spec_fn(Seq<bool>) -> bool,
    n: nat,
    b: Seq<Vec<usize>>,
) -> bool {
    &&& forall|k: int|
        0 <= k < b.len() ==> is_basis_vector(b, (#[trigger] b[k])@, n) && ker(
            column_bits(b[k]@, n),
        )
    &&& forall|k: int, m: int|
        0 <= k < m < b.len() ==> (#[trigger] b[k])@[0] < (#[trigger] b[m])@[0]
    &&& forall|y: Seq<bool>|
        y.len() == n && #[trigger] ker(y) && (forall|k: int|
            0 <= k < b.len() ==> !y[(#[trigger] b[k])@[0] as int]) ==> forall|c: int|
            0 <= c < n ==> !#[trigger] y[c]
}

/// The kernel of the rows.
pub open spec fn kernel_of(rows: Seq<Vec<usize>>, n: nat) -> spec_fn(Seq<bool>) -> bool {
    |y: Seq<bool>| in_kernel(rows, n, y)
}

/// The columns that are in exactly one of two ascending lists.
pub fn sym_diff(a: &Vec<usize>, b: &Vec<usize>) -> (r: Vec<usize>)
    requires
        sets::ascending(a@),
        sets::ascending(b@),
    ensures
        sets::ascending(r@),
        forall|v: usize| #[trigger] r@.contains(v) == (a@.contains(v) != b@.contains(v)),
{
    let mut r = a.clone();
    let mut k: usize = 0;
    assert(b@.take(0) =~= Seq::empty());
    while k < b.len()
        invariant
            k <= b@.len(),
            sets::ascending(b@),
            sets::ascending(r@),
            forall|v: usize| #[trigger]
                r@.contains(v) == (a@.contains(v) != b@.take(k as int).contains(v)),
        decreases b@.len() - k,
    {
        let v: usize = b[k];
        let ghost r0 = r@;
        proof {
            sets::lemma_contains_take(b@, k as int);
            assert(!b@.take(k as int).contains(v)) by {
                if b@.take(k as int).contains(v) {
                    let q = choose|q: int| 0 <= q < k && b@.take(k as int)[q] == v;
                    assert(b@[q] < b@[k as int]);
                }
            }
        }
        sets::toggle_sorted(&mut r, v);
        assert forall|u: usize| #[trigger] r@.contains(u) == (a@.contains(u) != b@.take(
            k + 1,
        ).contains(u)) by {
            assert(r0.contains(u) == (a@.contains(u) != b@.take(k as int).contains(u)));
        }
        k += 1;
    }
    assert(b@.take(k as int) =~= b@);
    r
}

/// In `m2`, the first `k` rows other than `pc` that had column `col` have been
/// added row `pc`.
spec fn eliminated(m1: Seq<Vec<usize>>, m2: Seq<Vec<usize>>, pc: int, col: usize, k: int) -> bool {
    m1.len() == m2.len() && forall|r: int, v: usize|
        0 <= r < m1.len() ==> #[trigger] m2[r]@.contains(v) == (m1[r]@.contains(v) != (r < k && r
            != pc && m1[r]@.contains(col) && m1[pc]@.contains(v)))
}

proof fn lemma_eliminated_kernel(
    m1: Seq<Vec<usize>>,
    m2: Seq<Vec<usize>>,
    pc: int,
    col: usize,
    n: nat,
    y: Seq<bool>,
)
    requires
        eliminated(m1, m2, pc, col, m1.len() as int),
        0 <= pc < m1.len(),
        n <= usize::MAX,
    ensures
        in_kernel(m1, n, y) == in_kernel(m2, n, y),
{
    let p = column_bits(m1[pc]@, n);
    assert forall|r: int| 0 <= r < m1.len() implies parity::dot(column_bits(m2[r]@, n), y, n) == (parity::dot(
        column_bits(#[trigger] m1[r]@, n),
        y,
        n,
    ) != (r != pc && m1[r]@.contains(col) && parity::dot(p, y, n))) by {
        let a = column_bits(m1[r]@, n);
        let b = column_bits(m2[r]@, n);
        if r != pc && m1[r]@.contains(col) {
            assert(b =~= parity::xor(a, p)) by {
                assert forall|c: int| 0 <= c < n implies b[c] == (a[c] != p[c]) by {
                    assert(m2[r]@.contains(c as usize) == (m1[r]@.contains(c as usize)
                        != m1[pc]@.contains(c as usize)));
                }
            }
            parity::lemma_dot_xor(a, p, y, n);
        } else {
            assert(b =~= a) by {
                assert forall|c: int| 0 <= c < n implies b[c] == a[c] by {
                    assert(m2[r]@.contains(c as usize) == m1[r]@.contains(c as usize));
                }
            }
        }
    }
    if in_kernel(m1, n, y) {
        assert forall|r: int| 0 <= r < m2.len() implies !parity::dot(
            column_bits((#[trigger] m2[r])@, n),
            y,
            n,
        ) by {
            assert(!parity::dot(column_bits(m1[r]@, n), y, n));
            assert(!parity::dot(column_bits(m1[pc]@, n), y, n));
        }
    }
    if in_kernel(m2, n, y) {
        assert(!parity::dot(column_bits(m2[pc]@, n), y, n));
        assert(!parity::dot(column_bits(m1[pc]@, n), y, n));
        assert forall|r: int| 0 <= r < m1.len() implies !parity::dot(
            column_bits((#[trigger] m1[r])@, n),
            y,
            n,
        ) by {
            assert(!parity::dot(column_bits(m2[r]@, n), y, n));
        }
    }
}

/// The state of the elimination before column `col`.
spec fn reduced(mat: Seq<Vec<usize>>, piv: Seq<Option<usize>>, n: nat, col: int, pc: int) -> bool {
    &&& sparse_rows(mat, n)
    &&& piv.len() == n
    &&& 0 <= pc <= mat.len()
    &&& pc <= col
    &&& forall|c: int|
        0 <= c < n && (#[trigger] piv[c]) is Some ==> c < col && pivot_ok(mat, c, piv[c]->0 as int)
            && piv[c]->0 < pc
    &&& forall|c: int, d: int|
        0 <= c < d < n && (#[trigger] piv[c]) is Some && (#[trigger] piv[d]) is Some ==> piv[c]->0
            != piv[d]->0
    &&& forall|r: int| 0 <= r < pc ==> #[trigger] is_pivot_row(piv, col, r)
    &&& forall|r: int, c: usize|
        pc <= r < mat.len() && c < col ==> !(#[trigger] mat[r]@.contains(c))
}

/// Row `r` has its first entry in column `c`, and no other row has an entry
/// there.
spec fn pivot_ok(mat: Seq<Vec<usize>>, c: int, r: int) -> bool {
    &&& 0 <= r < mat.len()
    &&& mat[r]@.contains(c as usize)
    &&& forall|q: int| 0 <= q < mat.len() && q != r ==> !(#[trigger] mat[q])@.contains(c as usize)
    &&& forall|d: usize| d < c ==> !mat[r]@.contains(d)
}

/// Row `r` belongs to a pivot column before `col`.
spec fn is_pivot_row(piv: Seq<Option<usize>>, col: int, r: int) -> bool {
    exists|c: int| 0 <= c < col && #[trigger] piv[c] == Some(r as usize)
}

/// The pivot step for column `col` with row `pc`.
proof fn lemma_pivot_step(
    m1: Seq<Vec<usize>>,
    m2: Seq<Vec<usize>>,
    piv: Seq<Option<usize>>,
    n: nat,
    col: usize,
    pc: int,
)
    requires
        reduced(m1, piv, n, col as int, pc),
        col < n,
        n <= usize::MAX,
        pc < m1.len(),
        m1.len() <= usize::MAX,
        m1[pc]@.contains(col),
        piv[col as int] is None,
        eliminated(m1, m2, pc, col, m1.len() as int),
        sparse_rows(m2, n),
    ensures
        reduced(m2, piv.update(col as int, Some(pc as usize)), n, col + 1, pc + 1),
{
    let piv2 = piv.update(col as int, Some(pc as usize));
    assert forall|r: int, c: usize| pc + 1 <= r < m2.len() && c < col + 1 implies !(
    #[trigger] m2[r]@.contains(c)) by {
        assert(m2[r]@.contains(c) == (m1[r]@.contains(c) != (r < m1.len() && r != pc
            && m1[r]@.contains(col) && m1[pc]@.contains(c))));
        if c < col {
            assert(!m1[r]@.contains(c));
            assert(!m1[pc]@.contains(c));
        }
    }
    assert forall|c: int| 0 <= c < n && (#[trigger] piv2[c]) is Some implies c < col + 1
        && pivot_ok(m2, c, piv2[c]->0 as int) && piv2[c]->0 < pc + 1 by {
        if c == col {
            assert(m2[pc]@.contains(col) == m1[pc]@.contains(col));
            assert forall|q: int| 0 <= q < m2.len() && q != pc implies !(
            #[trigger] m2[q])@.contains(c as usize) by {
                assert(m2[q]@.contains(col) == (m1[q]@.contains(col) != (q < m1.len() && q != pc
                    && m1[q]@.contains(col) && m1[pc]@.contains(col))));
            }
            assert forall|d: usize| d < c implies !m2[pc]@.contains(d) by {
                assert(m2[pc]@.contains(d) == m1[pc]@.contains(d));
                assert(!m1[pc]@.contains(d));
            }
        } else {
            assert(piv[c] is Some);
            let r = piv[c]->0 as int;
            assert(pivot_ok(m1, c, r));
            let cu = c as usize;
            assert(!m1[pc]@.contains(cu));
            assert(m2[r]@.contains(cu) == (m1[r]@.contains(cu) != (r < m1.len() && r != pc
                && m1[r]@.contains(col) && m1[pc]@.contains(cu))));
            assert forall|q: int| 0 <= q < m2.len() && q != r implies !(
            #[trigger] m2[q])@.contains(c as usize) by {
                assert(!m1[q]@.contains(cu));
                assert(m2[q]@.contains(cu) == (m1[q]@.contains(cu) != (q < m1.len() && q != pc
                    && m1[q]@.contains(col) && m1[pc]@.contains(cu))));
            }
            assert forall|d: usize| d < c implies !m2[r]@.contains(d) by {
                assert(!m1[r]@.contains(d));
                assert(!m1[pc]@.contains(d));
                assert(m2[r]@.contains(d) == (m1[r]@.contains(d) != (r < m1.len() && r != pc
                    && m1[r]@.contains(col) && m1[pc]@.contains(d))));
            }
        }
    }
    assert forall|r: int| 0 <= r < pc + 1 implies #[trigger] is_pivot_row(piv2, col + 1, r) by {
        if r == pc {
            assert(piv2[col as int] == Some(r as usize));
        } else {
            assert(is_pivot_row(piv, col as int, r));
            let c = choose|c: int| 0 <= c < col && #[trigger] piv[c] == Some(r as usize);
            assert(piv2[c] == Some(r as usize));
        }
    }
}

/// Exchanging rows from the unused part keeps the state and the kernel.
proof fn lemma_swap_rows(
    m1: Seq<Vec<usize>>,
    m2: Seq<Vec<usize>>,
    piv: Seq<Option<usize>>,
    n: nat,
    col: int,
    pc: int,
    r: int,
)
    requires
        reduced(m1, piv, n, col, pc),
        pc <= r < m1.len(),
        m1.len() == m2.len(),
        forall|q: int| 0 <= q < m1.len() && q != pc && q != r ==> (#[trigger] m2[q])@ == m1[q]@,
        m2[pc]@ == m1[r]@,
        m2[r]@ == m1[pc]@,
    ensures
        reduced(m2, piv, n, col, pc),
        forall|y: Seq<bool>| #[trigger] in_kernel(m2, n, y) == in_kernel(m1, n, y),
{
    assert forall|c: int| 0 <= c < n && (#[trigger] piv[c]) is Some implies pivot_ok(
        m2,
        c,
        piv[c]->0 as int,
    ) by {
        let p = piv[c]->0 as int;
        assert(pivot_ok(m1, c, p));
        assert forall|q: int| 0 <= q < m2.len() && q != p implies !(#[trigger] m2[q])@.contains(
            c as usize,
        ) by {
            assert(!m1[q]@.contains(c as usize));
            assert(!m1[r]@.contains(c as usize));
            assert(!m1[pc]@.contains(c as usize));
        }
    }
    assert forall|y: Seq<bool>| #[trigger] in_kernel(m2, n, y) == in_kernel(m1, n, y) by {
        if in_kernel(m1, n, y) {
            assert forall|q: int| 0 <= q < m2.len() implies !parity::dot(
                column_bits((#[trigger] m2[q])@, n),
                y,
                n,
            ) by {
                assert(!parity::dot(column_bits(m1[q]@, n), y, n));
                assert(!parity::dot(column_bits(m1[r]@, n), y, n));
                assert(!parity::dot(column_bits(m1[pc]@, n), y, n));
            }
        }
        if in_kernel(m2, n, y) {
            assert forall|q: int| 0 <= q < m1.len() implies !parity::dot(
                column_bits((#[trigger] m1[q])@, n),
                y,
                n,
            ) by {
                assert(!parity::dot(column_bits(m2[q]@, n), y, n));
                assert(!parity::dot(column_bits(m2[r]@, n), y, n));
                assert(!parity::dot(column_bits(m2[pc]@, n), y, n));
            }
        }
    }
}

/// A column without a pivot adds nothing to the state.
proof fn lemma_skip_column(
    m: Seq<Vec<usize>>,
    piv: Seq<Option<usize>>,
    n: nat,
    col: usize,
    pc: int,
)
    requires
        reduced(m, piv, n, col as int, pc),
        forall|r: int| pc <= r < m.len() ==> !(#[trigger] m[r])@.contains(col),
    ensures
        reduced(m, piv, n, col + 1, pc),
{
    assert forall|r: int| 0 <= r < pc implies #[trigger] is_pivot_row(piv, col + 1, r) by {
        assert(is_pivot_row(piv, col as int, r));
        let c = choose|c: int| 0 <= c < col && #[trigger] piv[c] == Some(r as usize);
        assert(piv[c] == Some(r as usize));
    }
}

/// The vector of a free column meets every row an even number of times.
proof fn lemma_vector_in_kernel(
    m: Seq<Vec<usize>>,
    piv: Seq<Option<usize>>,
    n: nat,
    pc: int,
    f: usize,
    v: Seq<usize>,
)
    requires
        reduced(m, piv, n, n as int, pc),
        n <= usize::MAX,
        f < n,
        piv[f as int] is None,
        forall|c: usize|
            v.contains(c) == (c == f || (c < n && (piv[c as int] matches Some(r) && m[r as int]@.contains(
                f,
            )))),
    ensures
        in_kernel(m, n, column_bits(v, n)),
{
    let y = column_bits(v, n);
    assert forall|r: int| 0 <= r < m.len() implies !parity::dot(
        column_bits((#[trigger] m[r])@, n),
        y,
        n,
    ) by {
        let row = column_bits(m[r]@, n);
        if r < pc {
            assert(is_pivot_row(piv, n as int, r));
            let p = choose|p: int| 0 <= p < n && #[trigger] piv[p] == Some(r as usize);
            assert(pivot_ok(m, p, r));
            // The row meets the vector at its pivot and at the free column.
            let z = Seq::new(n, |c: int| row[c] && y[c]);
            assert forall|c: int| 0 <= c < n && c != p && c != f implies !(row[c] && y[c]) by {
                if v.contains(c as usize) {
                    assert(piv[c] is Some);
                    let q = piv[c]->0 as int;
                    assert(pivot_ok(m, c, q));
                    if q == r {
                        assert(piv[c]->0 == piv[p]->0);
                        assert(false);
                    }
                    assert(!m[r]@.contains(c as usize));
                }
            }
            assert(row[p]);
            assert(v.contains(p as usize) == m[r]@.contains(f));
            lemma_dot_two(row, y, n, p, f as int);
        } else {
            assert forall|c: int| 0 <= c < n implies !row[c] by {
                assert(!m[r]@.contains(c as usize));
            }
            lemma_dot_empty(row, y, n);
        }
    }
}

proof fn lemma_dot_empty(row: Seq<bool>, y: Seq<bool>, k: nat)
    requires
        forall|c: int| 0 <= c < k ==> !(#[trigger] row[c] && y[c]),
    ensures
        !parity::dot(row, y, k),
    decreases k,
{
    if k > 0 {
        let b = row[k - 1];
        lemma_dot_empty(row, y, (k - 1) as nat);
    }
}

/// A row that meets the vector at most at two columns.
proof fn lemma_dot_two(row: Seq<bool>, y: Seq<bool>, k: nat, p: int, f: int)
    requires
        p != f,
        forall|c: int| 0 <= c < k && c != p && c != f ==> !(#[trigger] row[c] && y[c]),
    ensures
        parity::dot(row, y, k) == ((0 <= p < k && row[p] && y[p]) != (0 <= f < k && row[f] && y[f])),
    decreases k,
{
    if k > 0 {
        lemma_dot_two(row, y, (k - 1) as nat, p, f);
        let b = row[k - 1];
    }
}

/// A kernel vector that is zero at the free columns is zero.
proof fn lemma_free_columns_decide(
    m: Seq<Vec<usize>>,
    piv: Seq<Option<usize>>,
    n: nat,
    pc: int,
    y: Seq<bool>,
)
    requires
        reduced(m, piv, n, n as int, pc),
        n <= usize::MAX,
        y.len() == n,
        in_kernel(m, n, y),
        forall|c: int| 0 <= c < n && (#[trigger] piv[c]) is None ==> !y[c],
    ensures
        forall|c: int| 0 <= c < n ==> !#[trigger] y[c],
{
    assert forall|p: int| 0 <= p < n implies !#[trigger] y[p] by {
        if piv[p] is Some {
            let r = piv[p]->0 as int;
            assert(pivot_ok(m, p, r));
            let row = column_bits(m[r]@, n);
            assert(!parity::dot(column_bits(m[r]@, n), y, n));
            assert forall|c: int| 0 <= c < n && c != p implies !(row[c] && y[c]) by {
                if piv[c] is Some {
                    let q = piv[c]->0 as int;
                    assert(pivot_ok(m, c, q));
                    if q == r {
                        assert(piv[c]->0 == piv[p]->0);
                        assert(false);
                    }
                    assert(!m[r]@.contains(c as usize));
                }
            }
            lemma_dot_two(row, y, n, p, -1);
            assert(row[p]);
        }
    }
}

/// A basis of the kernel of a matrix over two elements, by elimination. The
/// free column of each vector comes first.
pub fn f2_sparse_kernel(rows: Vec<Vec<usize>>, n_cols: usize) -> (r: Vec<Vec<usize>>)
    requires
        sparse_rows(rows@, n_cols as nat),
    ensures
        is_reduced_basis(kernel_of(rows@, n_cols as nat), n_cols as nat, r@),
{
    let m: usize = rows.len();
    let ghost rows0 = rows@;
    let ghost n = n_cols as nat;
    let mut mat: Vec<Vec<usize>> = rows;
    let mut piv: Vec<Option<usize>> = Vec::new();
    while piv.len() < n_cols
        invariant
            piv@.len() <= n_cols,
            forall|c: int| 0 <= c < piv@.len() ==> (#[trigger] piv@[c]) is None,
        decreases n_cols - piv@.len(),
    {
        piv.push(None);
    }
    let mut pivot_count: usize = 0;
    let mut col: usize = 0;
    while col < n_cols
        invariant
            col <= n_cols,
            n == n_cols,
            m == rows0.len(),
            mat@.len() == m,
            reduced(mat@, piv@, n, col as int, pivot_count as int),
            forall|y: Seq<bool>| #[trigger] in_kernel(mat@, n, y) == in_kernel(rows0, n, y),
        decreases n_cols - col,
    {
        let mut r: usize = pivot_count;
        while r < m && !sets::position_of(mat[r].as_slice(), col).1
            invariant
                pivot_count <= r <= m,
                m == mat@.len(),
                sparse_rows(mat@, n),
                forall|q: int| pivot_count <= q < r ==> !(#[trigger] mat@[q])@.contains(col),
            decreases m - r,
        {
            r += 1;
        }
        if r < m {
            let ghost m0 = mat@;
            // Exchange rows `r` and `pivot_count`.
            let top = mat[r].clone();
            let other = mat[pivot_count].clone();
            mat.set(r, other);
            mat.set(pivot_count, top.clone());
            proof {
                assert(m0[r as int]@.contains(col));
                lemma_swap_rows(m0, mat@, piv@, n, col as int, pivot_count as int, r as int);
                assert forall|y: Seq<bool>| #[trigger]
                    in_kernel(mat@, n, y) == in_kernel(rows0, n, y) by {
                    assert(in_kernel(m0, n, y) == in_kernel(rows0, n, y));
                }
            }
            let ghost m1 = mat@;
            let mut k: usize = 0;
            while k < m
                invariant
                    k <= m,
                    n == n_cols,
                    m == m1.len(),
                    mat@.len() == m,
                    pivot_count < m,
                    sparse_rows(m1, n),
                    sparse_rows(mat@, n),
                    top@ == m1[pivot_count as int]@,
                    sets::ascending(top@),
                    eliminated(m1, mat@, pivot_count as int, col, k as int),
                    forall|q: int| k <= q < m ==> (#[trigger] mat@[q])@ == m1[q]@,
                decreases m - k,
            {
                if k != pivot_count && sets::position_of(mat[k].as_slice(), col).1 {
                    let ghost mk = mat@;
                    let row = sym_diff(&mat[k], &top);
                    proof {
                        assert forall|i: int| 0 <= i < row@.len() implies (#[trigger] row@[i])
                            < n by {
                            assert(row@.contains(row@[i]));
                            if mk[k as int]@.contains(row@[i]) {
                                let a = choose|a: int|
                                    0 <= a < mk[k as int]@.len() && mk[k as int]@[a] == row@[i];
                                assert(term::indices_below(mk[k as int]@, n as int));
                            } else {
                                assert(m1[pivot_count as int]@.contains(row@[i]));
                                let a = choose|a: int|
                                    0 <= a < m1[pivot_count as int]@.len()
                                        && m1[pivot_count as int]@[a] == row@[i];
                                assert(term::indices_below(m1[pivot_count as int]@, n as int));
                            }
                        }
                    }
                    mat.set(k, row);
                    proof {
                        assert forall|q: int, v: usize| 0 <= q < m1.len() implies #[trigger]
                        mat@[q]@.contains(v) == (m1[q]@.contains(v) != (q < k + 1 && q
                            != pivot_count && m1[q]@.contains(col)
                            && m1[pivot_count as int]@.contains(v))) by {
                            if q == k {
                                assert(mk[q]@ == m1[q]@);
                                assert(row@.contains(v) == (mk[q]@.contains(v) != top@.contains(
                                    v,
                                )));
                            } else {
                                assert(mk[q]@.contains(v) == (m1[q]@.contains(v) != (q < k && q
                                    != pivot_count && m1[q]@.contains(col)
                                    && m1[pivot_count as int]@.contains(v))));
                            }
                        }
                    }
                } else {
                    proof {
                        assert(mat@[k as int]@ == m1[k as int]@);
                        assert forall|q: int, v: usize| 0 <= q < m1.len() implies #[trigger]
                        mat@[q]@.contains(v) == (m1[q]@.contains(v) != (q < k + 1 && q
                            != pivot_count && m1[q]@.contains(col)
                            && m1[pivot_count as int]@.contains(v))) by {
                            assert(mat@[q]@.contains(v) == (m1[q]@.contains(v) != (q < k && q
                                != pivot_count && m1[q]@.contains(col)
                                && m1[pivot_count as int]@.contains(v))));
                        }
                    }
                }
                k += 1;
            }
            proof {
                assert(piv@[col as int] is None);
                lemma_pivot_step(m1, mat@, piv@, n, col, pivot_count as int);
                assert forall|y: Seq<bool>| #[trigger]
                    in_kernel(mat@, n, y) == in_kernel(rows0, n, y) by {
                    lemma_eliminated_kernel(m1, mat@, pivot_count as int, col, n, y);
                    assert(in_kernel(m1, n, y) == in_kernel(rows0, n, y));
                }
            }
            piv.set(col, Some(pivot_count));
            pivot_count += 1;
        } else {
            proof {
                lemma_skip_column(mat@, piv@, n, col, pivot_count as int);
            }
        }
        col += 1;
    }
    let mut basis: Vec<Vec<usize>> = Vec::new();
    let mut f: usize = 0;
    while f < n_cols
        invariant
            f <= n_cols,
            n == n_cols,
            mat@.len() == m,
            reduced(mat@, piv@, n, n as int, pivot_count as int),
            forall|y: Seq<bool>| #[trigger] in_kernel(mat@, n, y) == in_kernel(rows0, n, y),
            forall|k: int|
                0 <= k < basis@.len() ==> free_vector(mat@, piv@, n, (#[trigger] basis@[k])@)
                    && basis@[k]@[0] < f && in_kernel(rows0, n, column_bits(basis@[k]@, n)),
            forall|k: int, l: int|
                0 <= k < l < basis@.len() ==> (#[trigger] basis@[k])@[0] < (
                #[trigger] basis@[l])@[0],
            forall|c: int|
                0 <= c < f && (#[trigger] piv@[c]) is None ==> exists|k: int|
                    0 <= k < basis@.len() && (#[trigger] basis@[k])@[0] == c,
        decreases n_cols - f,
    {
        if piv[f].is_none() {
            let mut v: Vec<usize> = Vec::new();
            v.push(f);
            let mut c: usize = 0;
            while c < n_cols
                invariant
                    c <= n_cols,
                    f < n_cols,
                    n == n_cols,
                    mat@.len() == m,
                    reduced(mat@, piv@, n, n as int, pivot_count as int),
                    piv@[f as int] is None,
                    v@.len() > 0,
                    v@[0] == f,
                    forall|j: int|
                        1 <= j < v@.len() ==> (#[trigger] v@[j]) < c && meets(
                            mat@,
                            piv@,
                            f,
                            v@[j] as int,
                        ),
                    forall|i: int, j: int| 1 <= i < j < v@.len() ==> v@[i] < v@[j],
                    forall|d: int|
                        0 <= d < c && #[trigger] meets(mat@, piv@, f, d) ==> v@.contains(
                            d as usize,
                        ),
                decreases n_cols - c,
            {
                let ghost v0 = v@;
                if let Some(row) = piv[c] {
                    assert(pivot_ok(mat@, c as int, row as int));
                    if sets::position_of(mat[row].as_slice(), f).1 {
                        v.push(c);
                        assert(meets(mat@, piv@, f, c as int));
                        assert(v@[v@.len() - 1] == c);
                    }
                }
                proof {
                    assert forall|d: int|
                        0 <= d < c + 1 && #[trigger] meets(mat@, piv@, f, d) implies v@.contains(
                        d as usize,
                    ) by {
                        if d < c {
                            assert(v0.contains(d as usize));
                            let i = choose|i: int| 0 <= i < v0.len() && v0[i] == d as usize;
                            assert(v@[i] == d as usize);
                        }
                    }
                }
                c += 1;
            }
            let ghost b0 = basis@;
            proof {
                lemma_free_vector(mat@, piv@, n, pivot_count as int, f, v@);
                assert(in_kernel(rows0, n, column_bits(v@, n)));
            }
            basis.push(v);
            proof {
                assert forall|c: int| 0 <= c < f + 1 && (#[trigger] piv@[c]) is None implies exists|
                    k: int,
                |
                    0 <= k < basis@.len() && (#[trigger] basis@[k])@[0] == c by {
                    if c < f {
                        let k = choose|k: int| 0 <= k < b0.len() && (#[trigger] b0[k])@[0] == c;
                        assert(basis@[k]@[0] == c);
                    } else {
                        assert(basis@[b0.len() as int]@[0] == c);
                    }
                }
            }
        }
        f += 1;
    }
    proof {
        assert forall|k: int| 0 <= k < basis@.len() implies is_basis_vector(
            basis@,
            (#[trigger] basis@[k])@,
            n,
        ) by {
            let v = basis@[k]@;
            assert(free_vector(mat@, piv@, n, v));
            assert forall|j: int, l: int| 1 <= j < v.len() && 0 <= l < basis@.len() implies #[trigger]
            v[j] != (#[trigger] basis@[l])@[0] by {
                assert(free_vector(mat@, piv@, n, basis@[l]@));
                assert(meets(mat@, piv@, v[0], v[j] as int));
            }
        }
        let ker = kernel_of(rows0, n);
        assert forall|y: Seq<bool>|
            y.len() == n && #[trigger] ker(y) && (forall|k: int|
                0 <= k < basis@.len() ==> !y[(#[trigger] basis@[k])@[0] as int]) implies forall|
            c: int,
        | 0 <= c < n ==> !#[trigger] y[c] by {
            assert(in_kernel(mat@, n, y));
            assert forall|c: int| 0 <= c < n && (#[trigger] piv@[c]) is None implies !y[c] by {
                let k = choose|k: int| 0 <= k < basis@.len() && (#[trigger] basis@[k])@[0] == c;
                assert(!y[basis@[k]@[0] as int]);
            }
            lemma_free_columns_decide(mat@, piv@, n, pivot_count as int, y);
        }
    }
    basis
}

/// Column `d` has a pivot whose row has an entry in column `f`.
spec fn meets(mat: Seq<Vec<usize>>, piv: Seq<Option<usize>>, f: usize, d: int) -> bool {
    piv[d] matches Some(r) && mat[r as int]@.contains(f)
}

/// `v` is the vector of a free column.
spec fn free_vector(mat: Seq<Vec<usize>>, piv: Seq<Option<usize>>, n: nat, v: Seq<usize>) -> bool {
    &&& v.len() > 0
    &&& v[0] < n
    &&& piv[v[0] as int] is None
    &&& sets::ascending(v.skip(1))
    &&& forall|j: int| 1 <= j < v.len() ==> (#[trigger] v[j]) < v[0] && meets(
        mat,
        piv,
        v[0],
        v[j] as int,
    )
}

proof fn lemma_free_vector(
    mat: Seq<Vec<usize>>,
    piv: Seq<Option<usize>>,
    n: nat,
    pc: int,
    f: usize,
    v: Seq<usize>,
)
    requires
        reduced(mat, piv, n, n as int, pc),
        n <= usize::MAX,
        f < n,
        piv[f as int] is None,
        v.len() > 0,
        v[0] == f,
        forall|j: int|
            1 <= j < v.len() ==> (#[trigger] v[j]) < n && meets(mat, piv, f, v[j] as int),
        forall|i: int, j: int| 1 <= i < j < v.len() ==> v[i] < v[j],
        forall|d: int|
            0 <= d < n && #[trigger] meets(mat, piv, f, d) ==> v.contains(d as usize),
    ensures
        free_vector(mat, piv, n, v),
        in_kernel(mat, n, column_bits(v, n)),
{
    let tail = v.skip(1);
    assert(sets::ascending(tail)) by {
        assert forall|i: int, j: int| 0 <= i < j < tail.len() implies tail[i] < tail[j] by {
            assert(v[i + 1] < v[j + 1]);
        }
    }
    assert forall|j: int| 1 <= j < v.len() implies (#[trigger] v[j]) < v[0] && meets(
        mat,
        piv,
        v[0],
        v[j] as int,
    ) by {
        let c = v[j] as int;
        assert(meets(mat, piv, f, c));
        assert(pivot_ok(mat, c, piv[c]->0 as int));
    }
    assert forall|c: usize|
        v.contains(c) == (c == f || (c < n && (piv[c as int] matches Some(r) && mat[r as int]@.contains(
            f,
        )))) by {
        if v.contains(c) {
            let j = choose|j: int| 0 <= j < v.len() && v[j] == c;
            if j > 0 {
                assert(meets(mat, piv, f, v[j] as int));
            }
        }
        if c == f {
            assert(v[0] == c);
        }
        if c < n && (piv[c as int] matches Some(r) && mat[r as int]@.contains(f)) {
            assert(meets(mat, piv, f, c as int));
        }
    }
    lemma_vector_in_kernel(mat, piv, n, pc, f, v);
}

} // verus!
