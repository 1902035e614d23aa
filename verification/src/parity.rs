//! Systems of parity equations over bits.
//!
//! An equation over `n` variables is a row of `n + 1` bits: which variables it
//! sums, and the parity that the sum must have.

use crate::sets;
use vstd::prelude::*;

verus! {

/// The parity of the variables selected by `row` among the first `k`.
pub open spec fn dot(row: Seq<bool>, x: Seq<bool>, k: nat) -> bool
    decreases k,
{
    if k == 0 {
        false
    } else {
        dot(row, x, (k - 1) as nat) != (row[k - 1] && x[k - 1])
    }
}

/// `x` satisfies the equation.
pub open spec fn sat(row: Seq<bool>, n: nat, x: Seq<bool>) -> bool {
    dot(row, x, n) == row[n as int]
}

/// Some assignment satisfies all equations.
pub open spec fn satisfiable(eqs: Seq<Seq<bool>>, n: nat) -> bool {
    exists|x: Seq<bool>| #[trigger] satisfies(eqs, n, x)
}

/// `x` satisfies all equations.
pub open spec fn satisfies(eqs: Seq<Seq<bool>>, n: nat, x: Seq<bool>) -> bool {
    forall|i: int| 0 <= i < eqs.len() ==> sat(#[trigger] eqs[i], n, x)
}

/// Bit `j` of the sum of the listed equations.
pub open spec fn sum_bit(eqs: Seq<Seq<bool>>, list: Seq<usize>, j: int) -> bool
    decreases list.len(),
{
    if list.len() == 0 {
        false
    } else {
        sum_bit(eqs, list.drop_last(), j) != eqs[list.last() as int][j]
    }
}

/// The listed equations add up to `0 = 1`.
pub open spec fn sums_to_contradiction(eqs: Seq<Seq<bool>>, n: nat, list: Seq<usize>) -> bool {
    &&& forall|k: int| 0 <= k < list.len() ==> (#[trigger] list[k]) < eqs.len()
    &&& forall|j: int| 0 <= j < n ==> !#[trigger] sum_bit(eqs, list, j)
    &&& sum_bit(eqs, list, n as int)
}

/// A contradiction with its equations listed in ascending order.
pub open spec fn is_core(eqs: Seq<Seq<bool>>, n: nat, core: Seq<usize>) -> bool {
    sets::ascending(core) && sums_to_contradiction(eqs, n, core)
}

/// Listed equations before `q` add up to the variables of `q`.
pub open spec fn gives(eqs: Seq<Seq<bool>>, n: nat, list: Seq<usize>, q: int) -> bool {
    &&& forall|k: int| 0 <= k < list.len() ==> (#[trigger] list[k]) < q
    &&& forall|j: int| 0 <= j < n ==> #[trigger] sum_bit(eqs, list, j) == eqs[q][j]
}

/// The equations before `q` do not add up to its variables.
pub open spec fn is_new(eqs: Seq<Seq<bool>>, n: nat, q: int) -> bool {
    forall|list: Seq<usize>| !(#[trigger] gives(eqs, n, list, q))
}

/// The contradiction that elimination finds: the first equation that contradicts
/// those before it, with those of them that it is the sum of and that are new.
pub open spec fn is_first_core(eqs: Seq<Seq<bool>>, n: nat, core: Seq<usize>) -> bool {
    &&& is_core(eqs, n, core)
    &&& core.len() > 0
    &&& satisfiable(eqs.take(core.last() as int), n)
    &&& forall|k: int| 0 <= k < core.len() - 1 ==> is_new(eqs, n, (#[trigger] core[k]) as int)
}

/// The sum of two rows.
pub open spec fn xor(a: Seq<bool>, b: Seq<bool>) -> Seq<bool> {
    Seq::new(a.len(), |j: int| a[j] != b[j])
}

/// The parity of a sum is the sum of the parities.
pub proof fn lemma_dot_xor(a: Seq<bool>, b: Seq<bool>, x: Seq<bool>, k: nat)
    requires
        a.len() == b.len(),
        k <= a.len(),
    ensures
        dot(xor(a, b), x, k) == (dot(a, x, k) != dot(b, x, k)),
    decreases k,
{
    if k > 0 {
        lemma_dot_xor(a, b, x, (k - 1) as nat);
    }
}

/// The sum of the listed rows.
pub open spec fn sum_row(eqs: Seq<Seq<bool>>, list: Seq<usize>, n: nat) -> Seq<bool> {
    Seq::new(n + 1, |j: int| sum_bit(eqs, list, j))
}

proof fn lemma_dot_zero(row: Seq<bool>, x: Seq<bool>, k: nat)
    requires
        forall|j: int| 0 <= j < k ==> !#[trigger] row[j],
    ensures
        !dot(row, x, k),
    decreases k,
{
    if k > 0 {
        assert(!row[k - 1]);
        lemma_dot_zero(row, x, (k - 1) as nat);
    }
}

/// Where all listed equations hold, so does their sum.
proof fn lemma_sum_sat(eqs: Seq<Seq<bool>>, n: nat, list: Seq<usize>, x: Seq<bool>)
    requires
        forall|i: int| 0 <= i < eqs.len() ==> (#[trigger] eqs[i]).len() == n + 1,
        forall|k: int| 0 <= k < list.len() ==> (#[trigger] list[k]) < eqs.len(),
        forall|k: int| 0 <= k < list.len() ==> sat(eqs[#[trigger] list[k] as int], n, x),
    ensures
        sat(sum_row(eqs, list, n), n, x),
    decreases list.len(),
{
    let r = sum_row(eqs, list, n);
    if list.len() == 0 {
        lemma_dot_zero(r, x, n);
    } else {
        let p = list.drop_last();
        assert(list[list.len() - 1] == list.last());
        assert forall|k: int| 0 <= k < p.len() implies (#[trigger] p[k]) < eqs.len() && sat(
            eqs[p[k] as int],
            n,
            x,
        ) by {
            assert(p[k] == list[k]);
        }
        lemma_sum_sat(eqs, n, p, x);
        let e = eqs[list.last() as int];
        assert(r =~= xor(sum_row(eqs, p, n), e));
        lemma_dot_xor(sum_row(eqs, p, n), e, x, n);
    }
}

/// Every assignment violates some equation of a contradiction.
pub proof fn contradiction_is_violated(
    eqs: Seq<Seq<bool>>,
    n: nat,
    list: Seq<usize>,
    x: Seq<bool>,
) -> (k: int)
    requires
        forall|i: int| 0 <= i < eqs.len() ==> (#[trigger] eqs[i]).len() == n + 1,
        sums_to_contradiction(eqs, n, list),
    ensures
        0 <= k < list.len(),
        !sat(eqs[list[k] as int], n, x),
{
    if forall|k: int| 0 <= k < list.len() ==> sat(eqs[#[trigger] list[k] as int], n, x) {
        lemma_sum_sat(eqs, n, list, x);
        let r = sum_row(eqs, list, n);
        assert forall|j: int| 0 <= j < n implies !#[trigger] r[j] by {
            assert(!sum_bit(eqs, list, j));
        }
        lemma_dot_zero(r, x, n);
        assert(false);
    }
    choose|k: int| 0 <= k < list.len() && !sat(eqs[#[trigger] list[k] as int], n, x)
}

/// One reduced row with the equations it is the sum of.
struct BasisRow {
    row: Vec<bool>,
    support: Vec<bool>,
}

/// The indices below `k` that are selected.
pub open spec fn selected(sel: Seq<bool>, k: nat) -> Seq<usize>
    decreases k,
{
    if k == 0 {
        Seq::empty()
    } else if sel[k - 1] {
        selected(sel, (k - 1) as nat).push((k - 1) as usize)
    } else {
        selected(sel, (k - 1) as nat)
    }
}

/// Bit `j` of the sum of the selected equations among the first `k`.
spec fn sel_bit(eqs: Seq<Seq<bool>>, sel: Seq<bool>, j: int, k: nat) -> bool
    decreases k,
{
    if k == 0 {
        false
    } else {
        sel_bit(eqs, sel, j, (k - 1) as nat) != (sel[k - 1] && eqs[k - 1][j])
    }
}

proof fn lemma_selected(eqs: Seq<Seq<bool>>, sel: Seq<bool>, j: int, k: nat)
    requires
        k <= eqs.len(),
        eqs.len() <= usize::MAX,
    ensures
        sum_bit(eqs, selected(sel, k), j) == sel_bit(eqs, sel, j, k),
        sets::ascending(selected(sel, k)),
        forall|i: int|
            0 <= i < selected(sel, k).len() ==> (#[trigger] selected(sel, k)[i]) < k,
    decreases k,
{
    if k > 0 {
        lemma_selected(eqs, sel, j, (k - 1) as nat);
        let p = selected(sel, (k - 1) as nat);
        if sel[k - 1] {
            assert(selected(sel, k).drop_last() =~= p);
        }
    }
}

proof fn lemma_sel_xor(eqs: Seq<Seq<bool>>, a: Seq<bool>, b: Seq<bool>, j: int, k: nat)
    requires
        k <= a.len(),
        a.len() == b.len(),
    ensures
        sel_bit(eqs, xor(a, b), j, k) == (sel_bit(eqs, a, j, k) != sel_bit(eqs, b, j, k)),
    decreases k,
{
    if k > 0 {
        lemma_sel_xor(eqs, a, b, j, (k - 1) as nat);
    }
}

proof fn lemma_sel_single(eqs: Seq<Seq<bool>>, sel: Seq<bool>, i: int, j: int, k: nat)
    requires
        k <= sel.len(),
        0 <= i < sel.len(),
        forall|q: int| 0 <= q < sel.len() ==> #[trigger] sel[q] == (q == i),
    ensures
        sel_bit(eqs, sel, j, k) == (i < k && eqs[i][j]),
    decreases k,
{
    if k > 0 {
        lemma_sel_single(eqs, sel, i, j, (k - 1) as nat);
        assert(sel[k - 1] == (k - 1 == i));
    }
}

/// A row that is the sum of its support, with `p` the first variable in it.
spec fn basis_ok(eqs: Seq<Seq<bool>>, n: nat, p: int, b: BasisRow) -> bool {
    &&& b.row@.len() == n + 1
    &&& b.support@.len() == eqs.len()
    &&& b.row@[p]
    &&& forall|j: int| 0 <= j < p ==> !#[trigger] b.row@[j]
    &&& forall|j: int| 0 <= j <= n ==> #[trigger] b.row@[j] == sel_bit(
        eqs,
        b.support@,
        j,
        eqs.len(),
    )
}

/// `x` satisfies every row of the basis.
spec fn basis_sat(basis: Seq<Option<BasisRow>>, n: nat, x: Seq<bool>) -> bool {
    forall|p: int|
        0 <= p < basis.len() && (#[trigger] basis[p]) is Some ==> sat(basis[p]->0.row@, n, x)
}

proof fn lemma_sat_xor(a: Seq<bool>, b: Seq<bool>, n: nat, x: Seq<bool>)
    requires
        a.len() == n + 1,
        b.len() == n + 1,
        sat(b, n, x),
    ensures
        sat(xor(a, b), n, x) == sat(a, n, x),
{
    lemma_dot_xor(a, b, x, n);
}

/// Parities agree where the assignments agree on the selected variables.
pub proof fn lemma_dot_agree(row: Seq<bool>, x: Seq<bool>, y: Seq<bool>, k: nat)
    requires
        forall|j: int| 0 <= j < k && #[trigger] row[j] ==> x[j] == y[j],
    ensures
        dot(row, x, k) == dot(row, y, k),
    decreases k,
{
    if k > 0 {
        lemma_dot_agree(row, x, y, (k - 1) as nat);
        let b = row[k - 1];
    }
}

/// Changing one selected variable changes the parity.
pub proof fn lemma_dot_flip(row: Seq<bool>, x: Seq<bool>, p: int, k: nat)
    requires
        0 <= p < k,
        k <= x.len(),
        row[p],
    ensures
        dot(row, x.update(p, !x[p]), k) == !dot(row, x, k),
    decreases k,
{
    let y = x.update(p, !x[p]);
    if p == k - 1 {
        lemma_dot_agree(row, x, y, (k - 1) as nat);
    } else {
        lemma_dot_flip(row, x, p, (k - 1) as nat);
    }
}

/// The rows of a basis.
spec fn rows_of(basis: Seq<Option<BasisRow>>) -> Seq<Option<Seq<bool>>> {
    Seq::new(
        basis.len(),
        |p: int|
            match basis[p] {
                Some(b) => Some(b.row@),
                None => None,
            },
    )
}

/// The first variable of a row is `p`.
spec fn starts_at(row: Seq<bool>, n: nat, p: int) -> bool {
    &&& row.len() == n + 1
    &&& row[p]
    &&& forall|j: int| 0 <= j < p ==> !#[trigger] row[j]
}

/// Rows in echelon form have a solution: fix the variables from the last pivot to
/// the first.
proof fn lemma_rows_solvable(rows: Seq<Option<Seq<bool>>>, n: nat, from: nat) -> (x: Seq<bool>)
    requires
        rows.len() == n,
        from <= n,
        forall|p: int| 0 <= p < n && (#[trigger] rows[p]) is Some ==> starts_at(rows[p]->0, n, p),
    ensures
        x.len() == n,
        forall|p: int| from <= p < n && (#[trigger] rows[p]) is Some ==> sat(rows[p]->0, n, x),
    decreases n - from,
{
    if from == n {
        Seq::new(n, |i: int| false)
    } else {
        let y = lemma_rows_solvable(rows, n, from + 1);
        match rows[from as int] {
            None => y,
            Some(b) => {
                assert(starts_at(b, n, from as int));
                let x = if sat(b, n, y) {
                    y
                } else {
                    y.update(from as int, !y[from as int])
                };
                if !sat(b, n, y) {
                    lemma_dot_flip(b, y, from as int, n);
                }
                assert forall|p: int|
                    from <= p < n && (#[trigger] rows[p]) is Some implies sat(rows[p]->0, n, x) by {
                    if p > from {
                        let c = rows[p]->0;
                        assert(starts_at(c, n, p));
                        assert(sat(c, n, y));
                        assert forall|j: int| 0 <= j < n && #[trigger] c[j] implies x[j] == y[j] by {
                            if j < p {
                                assert(!c[j]);
                            }
                        }
                        lemma_dot_agree(c, x, y, n);
                    }
                }
                x
            },
        }
    }
}

/// A basis has a solution.
proof fn lemma_basis_solvable(
    eqs: Seq<Seq<bool>>,
    basis: Seq<Option<BasisRow>>,
    n: nat,
) -> (x: Seq<bool>)
    requires
        basis.len() == n,
        forall|p: int|
            0 <= p < n && (#[trigger] basis[p]) is Some ==> basis_ok(eqs, n, p, basis[p]->0),
    ensures
        x.len() == n,
        basis_sat(basis, n, x),
{
    let rows = rows_of(basis);
    assert forall|p: int| 0 <= p < n && (#[trigger] rows[p]) is Some implies starts_at(
        rows[p]->0,
        n,
        p,
    ) by {
        assert(basis_ok(eqs, n, p, basis[p]->0));
    }
    let x = lemma_rows_solvable(rows, n, 0);
    assert forall|p: int| 0 <= p < n && (#[trigger] basis[p]) is Some implies sat(
        basis[p]->0.row@,
        n,
        x,
    ) by {
        assert(rows[p] is Some);
    }
    x
}

/// An equation that reduces to a row with a new first variable is new.
proof fn lemma_stored_is_new(
    eqs: Seq<Seq<bool>>,
    basis: Seq<Option<BasisRow>>,
    n: nat,
    i: int,
    row: Seq<bool>,
    pivot: int,
)
    requires
        basis.len() == n,
        0 <= i < eqs.len(),
        forall|q: int| 0 <= q < eqs.len() ==> (#[trigger] eqs[q]).len() == n + 1,
        forall|p: int|
            0 <= p < n && (#[trigger] basis[p]) is Some ==> basis_ok(eqs, n, p, basis[p]->0),
        forall|q: int, x: Seq<bool>|
            #![trigger eqs[q], basis_sat(basis, n, x)]
            0 <= q < i && basis_sat(basis, n, x) ==> sat(eqs[q], n, x),
        forall|x: Seq<bool>| #[trigger]
            basis_sat(basis, n, x) ==> sat(row, n, x) == sat(eqs[i], n, x),
        0 <= pivot < n,
        basis[pivot] is None,
        starts_at(row, n, pivot),
    ensures
        is_new(eqs, n, i),
{
    assert forall|list: Seq<usize>| !(#[trigger] gives(eqs, n, list, i)) by {
        if gives(eqs, n, list, i) {
            let flipped = row.update(n as int, !row[n as int]);
            let x = lemma_extended(eqs, basis, n, row, pivot);
            let y = lemma_extended(eqs, basis, n, flipped, pivot);
            lemma_dot_same(row, flipped, y, n);
            lemma_given(eqs, n, list, i, x);
            lemma_given(eqs, n, list, i, y);
        }
    }
}

/// A basis with one more row has a solution.
proof fn lemma_extended(
    eqs: Seq<Seq<bool>>,
    basis: Seq<Option<BasisRow>>,
    n: nat,
    row: Seq<bool>,
    pivot: int,
) -> (x: Seq<bool>)
    requires
        basis.len() == n,
        forall|p: int|
            0 <= p < n && (#[trigger] basis[p]) is Some ==> basis_ok(eqs, n, p, basis[p]->0),
        0 <= pivot < n,
        basis[pivot] is None,
        starts_at(row, n, pivot),
    ensures
        basis_sat(basis, n, x),
        sat(row, n, x),
{
    let rows = rows_of(basis).update(pivot, Some(row));
    assert forall|p: int| 0 <= p < n && (#[trigger] rows[p]) is Some implies starts_at(
        rows[p]->0,
        n,
        p,
    ) by {
        if p != pivot {
            assert(basis[p] is Some);
            assert(basis_ok(eqs, n, p, basis[p]->0));
        }
    }
    let x = lemma_rows_solvable(rows, n, 0);
    assert forall|p: int| 0 <= p < n && (#[trigger] basis[p]) is Some implies sat(
        basis[p]->0.row@,
        n,
        x,
    ) by {
        assert(rows[p] is Some);
    }
    assert(rows[pivot] is Some);
    x
}

/// The parity depends on the variables of a row alone.
proof fn lemma_dot_same(a: Seq<bool>, b: Seq<bool>, x: Seq<bool>, k: nat)
    requires
        forall|j: int| 0 <= j < k ==> #[trigger] a[j] == b[j],
    ensures
        dot(a, x, k) == dot(b, x, k),
    decreases k,
{
    if k > 0 {
        lemma_dot_same(a, b, x, (k - 1) as nat);
        assert(a[k - 1] == b[k - 1]);
    }
}

/// The parity of an equation that others give, where those hold.
proof fn lemma_given(eqs: Seq<Seq<bool>>, n: nat, list: Seq<usize>, i: int, x: Seq<bool>)
    requires
        0 <= i < eqs.len(),
        forall|q: int| 0 <= q < eqs.len() ==> (#[trigger] eqs[q]).len() == n + 1,
        gives(eqs, n, list, i),
        forall|q: int| 0 <= q < i ==> sat(#[trigger] eqs[q], n, x),
    ensures
        dot(eqs[i], x, n) == sum_bit(eqs, list, n as int),
{
    assert forall|k: int| 0 <= k < list.len() implies (#[trigger] list[k]) < eqs.len() && sat(
        eqs[list[k] as int],
        n,
        x,
    ) by {
        assert(list[k] < i);
    }
    lemma_sum_sat(eqs, n, list, x);
    let sum = sum_row(eqs, list, n);
    assert forall|j: int| 0 <= j < n implies #[trigger] eqs[i][j] == sum[j] by {
        assert(sum_bit(eqs, list, j) == eqs[i][j]);
    }
    lemma_dot_same(eqs[i], sum, x, n);
}

/// Add `b` to `a`, bit by bit.
pub fn xor_assign(a: &mut Vec<bool>, b: &Vec<bool>)
    requires
        old(a)@.len() == b@.len(),
    ensures
        final(a)@ == xor(old(a)@, b@),
{
    let mut i: usize = 0;
    let ghost a0 = a@;
    while i < a.len()
        invariant
            i <= a@.len(),
            a@.len() == a0.len(),
            a0.len() == b@.len(),
            forall|j: int| 0 <= j < i ==> #[trigger] a@[j] == (a0[j] != b@[j]),
            forall|j: int| i <= j < a@.len() ==> #[trigger] a@[j] == a0[j],
        decreases a@.len() - i,
    {
        let v = a[i] != b[i];
        a.set(i, v);
        i += 1;
    }
    assert(a@ =~= xor(a0, b@));
}

/// The first variable of a row at or after `start`.
pub fn first_variable(row: &Vec<bool>, start: usize, n: usize) -> (r: usize)
    requires
        start <= n,
        row@.len() == n + 1,
        forall|j: int| 0 <= j < start ==> !#[trigger] row@[j],
    ensures
        start <= r <= n,
        forall|j: int| 0 <= j < r ==> !#[trigger] row@[j],
        r < n ==> row@[r as int],
{
    let mut p: usize = start;
    while p < n && !row[p]
        invariant
            start <= p <= n,
            row@.len() == n + 1,
            forall|j: int| 0 <= j < p ==> !#[trigger] row@[j],
        decreases n - p,
    {
        p += 1;
    }
    p
}

/// The equations as sequences of bits.
pub open spec fn rows(eqs: Seq<Vec<bool>>) -> Seq<Seq<bool>> {
    Seq::new(eqs.len(), |i: int| eqs[i]@)
}

proof fn lemma_selected_contains(sel: Seq<bool>, k: nat, v: usize)
    requires
        k <= sel.len(),
        k <= usize::MAX,
    ensures
        selected(sel, k).contains(v) == (v < k && sel[v as int]),
    decreases k,
{
    if k > 0 {
        let p = selected(sel, (k - 1) as nat);
        let t = selected(sel, k);
        lemma_selected_contains(sel, (k - 1) as nat, v);
        if p.contains(v) {
            let i = choose|i: int| 0 <= i < p.len() && p[i] == v;
            assert(t[i] == v);
        }
        if sel[k - 1] && v == k - 1 {
            assert(t[p.len() as int] == v);
        }
        if t.contains(v) && v != k - 1 {
            let i = choose|i: int| 0 <= i < t.len() && t[i] == v;
            assert(p[i] == v);
        }
    }
}

/// The sum of a list is that of its members.
proof fn lemma_members(eqs: Seq<Seq<bool>>, list: Seq<usize>, j: int)
    requires
        sets::ascending(list),
        eqs.len() <= usize::MAX,
        forall|k: int| 0 <= k < list.len() ==> (#[trigger] list[k]) < eqs.len(),
    ensures
        sum_bit(eqs, list, j) == sel_bit(eqs, members(list, eqs.len()), j, eqs.len()),
{
    let sel = members(list, eqs.len());
    lemma_selected(eqs, sel, j, eqs.len());
    let t = selected(sel, eqs.len());
    assert forall|v: usize| #[trigger] list.contains(v) == t.contains(v) by {
        lemma_selected_contains(sel, eqs.len(), v);
        if list.contains(v) {
            let k = choose|k: int| 0 <= k < list.len() && list[k] == v;
            assert(list[k] < eqs.len());
        }
    }
    sets::lemma_ascending_unique(list, t);
}

/// Which of the first `m` numbers are listed.
spec fn members(list: Seq<usize>, m: nat) -> Seq<bool> {
    Seq::new(m, |q: int| list.contains(q as usize))
}

/// The last selected entry, if there is one.
proof fn lemma_last_selected(d: Seq<bool>, k: nat) -> (m: int)
    requires
        k <= d.len(),
        exists|q: int| 0 <= q < k && #[trigger] d[q],
    ensures
        0 <= m < k,
        d[m],
        forall|q: int| m < q < k ==> !#[trigger] d[q],
    decreases k,
{
    if d[k - 1] {
        k - 1
    } else {
        let q = choose|q: int| 0 <= q < k && #[trigger] d[q];
        assert(q < k - 1 && d[q]);
        lemma_last_selected(d, (k - 1) as nat)
    }
}

/// Entries that are not selected add nothing.
proof fn lemma_sel_tail(eqs: Seq<Seq<bool>>, d: Seq<bool>, j: int, m: nat, k: nat)
    requires
        m <= k <= d.len(),
        forall|q: int| m <= q < k ==> !#[trigger] d[q],
    ensures
        sel_bit(eqs, d, j, k) == sel_bit(eqs, d, j, m),
    decreases k,
{
    if m < k {
        assert(!d[k - 1]);
        lemma_sel_tail(eqs, d, j, m, (k - 1) as nat);
    }
}

/// No contradiction of elimination ends before another.
proof fn lemma_ends_alike(eqs: Seq<Seq<bool>>, n: nat, a: Seq<usize>, b: Seq<usize>)
    requires
        forall|q: int| 0 <= q < eqs.len() ==> (#[trigger] eqs[q]).len() == n + 1,
        is_first_core(eqs, n, a),
        is_first_core(eqs, n, b),
    ensures
        a.last() >= b.last(),
{
    if a.last() < b.last() {
        let early = eqs.take(b.last() as int);
        let x = choose|x: Seq<bool>| #[trigger] satisfies(early, n, x);
        let k = contradiction_is_violated(eqs, n, a, x);
        if k < a.len() - 1 {
            assert(a[k] < a[a.len() - 1]);
        }
        assert(b[b.len() - 1] < eqs.len());
        assert(sat(early[a[k] as int], n, x));
    }
}

/// Elimination finds one contradiction: the equations determine it.
pub proof fn first_core_is_unique(eqs: Seq<Seq<bool>>, n: nat, a: Seq<usize>, b: Seq<usize>)
    requires
        eqs.len() <= usize::MAX,
        forall|q: int| 0 <= q < eqs.len() ==> (#[trigger] eqs[q]).len() == n + 1,
        is_first_core(eqs, n, a),
        is_first_core(eqs, n, b),
    ensures
        a == b,
{
    let m = eqs.len();
    lemma_ends_alike(eqs, n, a, b);
    lemma_ends_alike(eqs, n, b, a);
    let sa = members(a, m);
    let sb = members(b, m);
    let d = xor(sa, sb);
    if exists|q: int| 0 <= q < m && #[trigger] d[q] {
        let q = lemma_last_selected(d, m);
        let list = selected(d, q as nat);
        assert forall|j: int| 0 <= j < n implies #[trigger] sum_bit(eqs, list, j) == eqs[q][j] by {
            lemma_members(eqs, a, j);
            lemma_members(eqs, b, j);
            assert(!sum_bit(eqs, a, j) && !sum_bit(eqs, b, j));
            lemma_sel_xor(eqs, sa, sb, j, m);
            lemma_sel_tail(eqs, d, j, (q + 1) as nat, m);
            lemma_selected(eqs, d, j, q as nat);
        }
        lemma_selected(eqs, d, 0, q as nat);
        assert(gives(eqs, n, list, q));
        let v = q as usize;
        let c = if a.contains(v) {
            a
        } else {
            b
        };
        assert(c.contains(v));
        let k = choose|k: int| 0 <= k < c.len() && c[k] == v;
        if k == c.len() - 1 {
            assert(a[a.len() - 1] == v && b[b.len() - 1] == v);
            assert(a.contains(v) && b.contains(v));
        }
        assert(is_new(eqs, n, c[k] as int));
    }
    assert forall|v: usize| #[trigger] a.contains(v) == b.contains(v) by {
        if a.contains(v) {
            let k = choose|k: int| 0 <= k < a.len() && a[k] == v;
            assert(a[k] < m);
            assert(!d[v as int]);
        }
        if b.contains(v) {
            let k = choose|k: int| 0 <= k < b.len() && b[k] == v;
            assert(b[k] < m);
            assert(!d[v as int]);
        }
    }
    sets::lemma_ascending_unique(a, b);
}

/// The support is of new equations before `i`.
spec fn is_supported(eqs: Seq<Seq<bool>>, n: nat, support: Seq<bool>, i: int) -> bool {
    &&& support.len() == eqs.len()
    &&& forall|q: int| 0 <= q < support.len() && #[trigger] support[q] ==> q < i && is_new(eqs, n, q)
}

/// The support is of `i` and new equations before it.
spec fn is_supported_with(eqs: Seq<Seq<bool>>, n: nat, support: Seq<bool>, i: int) -> bool {
    &&& support.len() == eqs.len()
    &&& 0 <= i < support.len()
    &&& support[i]
    &&& forall|q: int|
        0 <= q < support.len() && #[trigger] support[q] && q != i ==> q < i && is_new(eqs, n, q)
}

proof fn lemma_selected_last(sel: Seq<bool>, i: int, k: nat)
    requires
        0 <= i < k <= sel.len(),
        k <= usize::MAX,
        sel[i],
        forall|q: int| i < q < sel.len() ==> !#[trigger] sel[q],
    ensures
        selected(sel, k).len() > 0,
        selected(sel, k).last() == i,
    decreases k,
{
    if k - 1 > i {
        assert(!sel[k - 1]);
        lemma_selected_last(sel, i, (k - 1) as nat);
    }
}

proof fn lemma_selected_member(sel: Seq<bool>, k: nat, j: int)
    requires
        k <= sel.len(),
        k <= usize::MAX,
        0 <= j < selected(sel, k).len(),
    ensures
        selected(sel, k)[j] < k,
        sel[selected(sel, k)[j] as int],
    decreases k,
{
    if k > 0 {
        let p = selected(sel, (k - 1) as nat);
        if j < p.len() {
            lemma_selected_member(sel, (k - 1) as nat, j);
        }
    }
}

/// Find equations that add up to a contradiction, by elimination. `None` when
/// the equations can be satisfied together.
pub fn parity_unsat_core(eqns: Vec<Vec<bool>>, n_vars: usize) -> (r: Option<Vec<usize>>)
    requires
        n_vars < usize::MAX,
        forall|i: int| 0 <= i < eqns@.len() ==> (#[trigger] eqns@[i])@.len() == n_vars + 1,
    ensures
        r matches Some(core) ==> is_first_core(rows(eqns@), n_vars as nat, core@),
        r is None <==> satisfiable(rows(eqns@), n_vars as nat),
{
    let n_eqs: usize = eqns.len();
    let ghost eqs = rows(eqns@);
    let ghost n = n_vars as nat;
    let mut basis: Vec<Option<BasisRow>> = Vec::new();
    while basis.len() < n_vars
        invariant
            basis@.len() <= n_vars,
            forall|p: int| 0 <= p < basis@.len() ==> (#[trigger] basis@[p]) is None,
        decreases n_vars - basis@.len(),
    {
        basis.push(None);
    }
    let mut i: usize = 0;
    while i < n_eqs
        invariant
            i <= n_eqs,
            n_eqs == eqns@.len(),
            n == n_vars,
            eqs == rows(eqns@),
            n_vars < usize::MAX,
            forall|q: int| 0 <= q < eqns@.len() ==> (#[trigger] eqns@[q])@.len() == n_vars + 1,
            basis@.len() == n,
            forall|p: int|
                0 <= p < n && (#[trigger] basis@[p]) is Some ==> basis_ok(
                    eqs,
                    n,
                    p,
                    basis@[p]->0,
                ),
            forall|q: int, x: Seq<bool>|
                #![trigger eqs[q], basis_sat(basis@, n, x)]
                0 <= q < i && basis_sat(basis@, n, x) ==> sat(eqs[q], n, x),
            forall|p: int|
                0 <= p < n && (#[trigger] basis@[p]) is Some ==> is_supported(
                    eqs,
                    n,
                    basis@[p]->0.support@,
                    i as int,
                ),
        decreases n_eqs - i,
    {
        let mut row = eqns[i].clone();
        let mut support: Vec<bool> = Vec::new();
        while support.len() < n_eqs
            invariant
                support@.len() <= n_eqs,
                forall|q: int| 0 <= q < support@.len() ==> #[trigger] support@[q] == (q == i),
            decreases n_eqs - support@.len(),
        {
            support.push(support.len() == i);
        }
        proof {
            assert(row@ == eqs[i as int]);
            assert forall|j: int| 0 <= j <= n implies #[trigger] row@[j] == sel_bit(
                eqs,
                support@,
                j,
                eqs.len(),
            ) by {
                lemma_sel_single(eqs, support@, i as int, j, eqs.len());
            }
        }
        assert(is_supported_with(eqs, n, support@, i as int));
        let mut pivot: usize = first_variable(&row, 0, n_vars);
        let ghost basis0 = basis@;
        let mut stored = false;
        while pivot < n_vars && !stored
            invariant
                i < n_eqs,
                n_eqs == eqns@.len(),
                n == n_vars,
                eqs == rows(eqns@),
                n_vars < usize::MAX,
                forall|q: int| 0 <= q < eqns@.len() ==> (#[trigger] eqns@[q])@.len() == n_vars + 1,
                basis0.len() == n,
                forall|p: int|
                    0 <= p < n && (#[trigger] basis0[p]) is Some ==> basis_ok(
                        eqs,
                        n,
                        p,
                        basis0[p]->0,
                    ),
                !stored ==> basis@ == basis0,
                forall|p: int|
                    0 <= p < n && (#[trigger] basis0[p]) is Some ==> is_supported(
                        eqs,
                        n,
                        basis0[p]->0.support@,
                        i as int,
                    ),
                forall|q: int, x: Seq<bool>|
                    #![trigger eqs[q], basis_sat(basis0, n, x)]
                    0 <= q < i && basis_sat(basis0, n, x) ==> sat(eqs[q], n, x),
                !stored ==> is_supported_with(eqs, n, support@, i as int),
                stored ==> forall|p: int|
                    0 <= p < n && (#[trigger] basis@[p]) is Some ==> is_supported(
                        eqs,
                        n,
                        basis@[p]->0.support@,
                        i + 1,
                    ),
                !stored ==> {
                    &&& pivot <= n_vars
                    &&& row@.len() == n + 1
                    &&& support@.len() == eqs.len()
                    &&& forall|j: int| 0 <= j < pivot ==> !#[trigger] row@[j]
                    &&& pivot < n_vars ==> row@[pivot as int]
                    &&& forall|j: int|
                        0 <= j <= n ==> #[trigger] row@[j] == sel_bit(
                            eqs,
                            support@,
                            j,
                            eqs.len(),
                        )
                    &&& forall|x: Seq<bool>| #[trigger]
                        basis_sat(basis0, n, x) ==> sat(row@, n, x) == sat(eqs[i as int], n, x)
                },
                stored ==> {
                    &&& basis@.len() == n
                    &&& forall|p: int|
                        0 <= p < n && (#[trigger] basis@[p]) is Some ==> basis_ok(
                            eqs,
                            n,
                            p,
                            basis@[p]->0,
                        )
                    &&& forall|x: Seq<bool>| #[trigger]
                        basis_sat(basis@, n, x) ==> basis_sat(basis0, n, x) && sat(
                            eqs[i as int],
                            n,
                            x,
                        )
                },
            decreases (if stored { 0int } else { 1 + n_vars - pivot }),
        {
            if let Some(b) = &basis[pivot] {
                let ghost row0 = row@;
                let ghost sup0 = support@;
                proof {
                    assert(basis0[pivot as int] is Some);
                    assert(basis_ok(eqs, n, pivot as int, *b));
                    assert(b.row@[pivot as int]);
                }
                xor_assign(&mut row, &b.row);
                xor_assign(&mut support, &b.support);
                proof {
                    assert forall|j: int| 0 <= j <= n implies #[trigger] row@[j] == sel_bit(
                        eqs,
                        support@,
                        j,
                        eqs.len(),
                    ) by {
                        lemma_sel_xor(eqs, sup0, b.support@, j, eqs.len());
                        assert(row0[j] == sel_bit(eqs, sup0, j, eqs.len()));
                        assert(b.row@[j] == sel_bit(eqs, b.support@, j, eqs.len()));
                    }
                    assert forall|j: int| 0 <= j < pivot + 1 implies !#[trigger] row@[j] by {
                        if j < pivot {
                            assert(!row0[j]);
                            assert(!b.row@[j]);
                        }
                    }
                    assert forall|x: Seq<bool>| #[trigger] basis_sat(basis0, n, x) implies sat(
                        row@,
                        n,
                        x,
                    ) == sat(eqs[i as int], n, x) by {
                        assert(sat(basis0[pivot as int]->0.row@, n, x));
                        lemma_sat_xor(row0, b.row@, n, x);
                    }
                    assert(is_supported(eqs, n, b.support@, i as int));
                    assert(is_supported_with(eqs, n, support@, i as int));
                }
                pivot = first_variable(&row, pivot + 1, n_vars);
            } else {
                let ghost old_row = row@;
                let b = BasisRow { row: row.clone(), support: support.clone() };
                proof {
                    assert(basis_ok(eqs, n, pivot as int, b));
                    assert(starts_at(row@, n, pivot as int));
                    assert forall|q: int| 0 <= q < eqs.len() implies (#[trigger] eqs[q]).len() == n
                        + 1 by {
                        assert(eqns@[q]@.len() == n + 1);
                    }
                    lemma_stored_is_new(eqs, basis0, n, i as int, row@, pivot as int);
                    assert(is_supported(eqs, n, b.support@, i + 1));
                }
                basis.set(pivot, Some(b));
                stored = true;
                proof {
                    assert(basis@ == basis0.update(pivot as int, Some(b)));
                    assert forall|p: int|
                        0 <= p < n && (#[trigger] basis@[p]) is Some implies is_supported(
                        eqs,
                        n,
                        basis@[p]->0.support@,
                        i + 1,
                    ) by {
                        if p != pivot {
                            assert(is_supported(eqs, n, basis0[p]->0.support@, i as int));
                        }
                    }
                    assert forall|x: Seq<bool>| #[trigger]
                        basis_sat(basis@, n, x) implies basis_sat(basis0, n, x) && sat(
                        eqs[i as int],
                        n,
                        x,
                    ) by {
                        assert forall|p: int|
                            0 <= p < basis0.len() && (#[trigger] basis0[p]) is Some implies sat(
                            basis0[p]->0.row@,
                            n,
                            x,
                        ) by {
                            assert(p != pivot);
                            assert(basis@[p] == basis0[p]);
                        }
                        assert(basis@[pivot as int] is Some);
                        assert(sat(basis@[pivot as int]->0.row@, n, x));
                        assert(basis@[pivot as int]->0.row@ == old_row);
                        assert(basis_sat(basis0, n, x));
                        assert(sat(old_row, n, x));
                    }
                }
            }
        }
        if !stored {
            if row[n_vars] {
                let mut core: Vec<usize> = Vec::new();
                let mut k: usize = 0;
                while k < n_eqs
                    invariant
                        k <= n_eqs,
                        n_eqs == support@.len(),
                        core@ == selected(support@, k as nat),
                    decreases n_eqs - k,
                {
                    if support[k] {
                        core.push(k);
                    }
                    k += 1;
                }
                proof {
                    assert forall|j: int| 0 <= j < n implies !#[trigger] sum_bit(eqs, core@, j) by {
                        lemma_selected(eqs, support@, j, eqs.len());
                        assert(!row@[j]);
                    }
                    lemma_selected(eqs, support@, n as int, eqs.len());
                    assert(row@[n as int] == sel_bit(eqs, support@, n as int, eqs.len()));
                    assert(is_core(eqs, n, core@));
                    lemma_selected_last(support@, i as int, eqs.len());
                    assert(core@.last() == i);
                    let z = lemma_basis_solvable(eqs, basis0, n);
                    assert(satisfies(eqs.take(i as int), n, z)) by {
                        assert forall|q: int| 0 <= q < eqs.take(i as int).len() implies sat(
                            #[trigger] eqs.take(i as int)[q],
                            n,
                            z,
                        ) by {
                            assert(sat(eqs[q], n, z));
                        }
                    }
                    assert forall|k: int| 0 <= k < core@.len() - 1 implies is_new(
                        eqs,
                        n,
                        (#[trigger] core@[k]) as int,
                    ) by {
                        lemma_selected_member(support@, eqs.len(), k);
                        assert(core@[k] < core@[core@.len() - 1]);
                    }
                    if satisfiable(eqs, n) {
                        let x = choose|x: Seq<bool>| #[trigger] satisfies(eqs, n, x);
                        let k = contradiction_is_violated(eqs, n, core@, x);
                        assert(sat(eqs[core@[k] as int], n, x));
                    }
                }
                return Some(core);
            }
            proof {
                assert forall|x: Seq<bool>| #[trigger] basis_sat(basis0, n, x) implies sat(
                    eqs[i as int],
                    n,
                    x,
                ) by {
                    lemma_dot_zero(row@, x, n);
                }
            }
        }
        proof {
            assert forall|q: int, x: Seq<bool>|
                #![trigger eqs[q], basis_sat(basis@, n, x)]
                0 <= q < i + 1 && basis_sat(basis@, n, x) implies sat(eqs[q], n, x) by {
                assert(basis_sat(basis0, n, x));
            }
        }
        i += 1;
    }
    proof {
        let x = lemma_basis_solvable(eqs, basis@, n);
        assert(basis_sat(basis@, n, x));
        assert forall|q: int| 0 <= q < eqs.len() implies sat(#[trigger] eqs[q], n, x) by {}
        assert(satisfies(eqs, n, x));
    }
    None
}

} // verus!
