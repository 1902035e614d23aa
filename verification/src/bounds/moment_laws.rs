//! What the rows of a moment program and its basis leave open.

use crate::active;
use crate::basis::Batch;
use crate::basis;
use crate::bounds::program_laws;
use crate::bounds::psd::{PsdProgram, PsdRow};
use crate::bounds::psd;
use crate::bounds::psd_cliques;
use crate::cliques;
use crate::domain::VarType;
use crate::lasserre::{LasserreSdpState, MomentApparatus, Relaxation};
use crate::lasserre;
use crate::lists;
use crate::moments;
use crate::quadratic::ReducedQuadratic;
use crate::sets;
use crate::term::Term;
use vstd::prelude::*;

verus! {

/// The first of the squares that a row adds up, and the others at zero where it is
/// all of the sum.
proof fn lemma_squares(p: Seq<(usize, usize)>, l: spec_fn(int) -> int, k: nat)
    requires
        0 < k <= p.len(),
        forall|r: int| 0 <= r < k ==> (#[trigger] p[r]).0 == p[r].1,
    ensures
        psd::product_sum(p, l, k) >= l(p[0].0 as int) * l(p[0].0 as int),
        psd::product_sum(p, l, k) == l(p[0].0 as int) * l(p[0].0 as int) ==> forall|r: int|
            1 <= r < k ==> l((#[trigger] p[r]).0 as int) == 0,
    decreases k,
{
    let v = l(p[k - 1].0 as int);
    assert(p[k - 1].0 == p[k - 1].1);
    assert(v * v >= 0) by (nonlinear_arith);
    if k > 1 {
        lemma_squares(p, l, (k - 1) as nat);
        assert(v * v == 0 ==> v == 0) by (nonlinear_arith);
    } else {
        assert(psd::product_sum(p, l, 0) == 0);
    }
}

/// Only the first product of a row is not zero.
proof fn lemma_first_only(p: Seq<(usize, usize)>, l: spec_fn(int) -> int, k: nat)
    requires
        0 < k <= p.len(),
        forall|r: int| 1 <= r < k ==> l((#[trigger] p[r]).0 as int) == 0,
    ensures
        psd::product_sum(p, l, k) == l(p[0].0 as int) * l(p[0].1 as int),
    decreases k,
{
    if k > 1 {
        lemma_first_only(p, l, (k - 1) as nat);
        assert(l(p[k - 1].0 as int) == 0);
        assert(0 * l(p[k - 1].1 as int) == 0);
    } else {
        assert(psd::product_sum(p, l, 0) == 0);
    }
}

/// The entry of a row is the sum of its products.
proof fn lemma_row(
    entries: Seq<Option<usize>>,
    n: nat,
    start: int,
    rows: Seq<PsdRow>,
    y: Seq<int>,
    l: spec_fn(int) -> int,
    i: nat,
    j: nat,
)
    requires
        psd::is_block(entries, n, start, rows),
        i <= j < n,
        psd::row_value(rows[lasserre::upper_place(n, i, j)], y, l) == rows[lasserre::upper_place(
            n,
            i,
            j,
        )].rhs,
    ensures
        psd::entry_value(entries[lasserre::upper_place(n, i, j)], y) == psd::product_sum(
            rows[lasserre::upper_place(n, i, j)].products@,
            l,
            (i + 1) as nat,
        ),
        psd::is_row(entries, n, start, i, j, rows[lasserre::upper_place(n, i, j)]),
{
    assert(psd::is_row(entries, n, start, i, j, rows[lasserre::upper_place(n, i, j)]));
}

/// Where the first entry is one and the diagonal has the squares of the first row, the
/// rows of a block leave nothing open: every entry is the product of its two entries
/// of the first row.
pub proof fn blocks_with_squares_are_rank_one(
    entries: Seq<Option<usize>>,
    n: nat,
    start: int,
    rows: Seq<PsdRow>,
    y: Seq<int>,
    l: spec_fn(int) -> int,
    v: Seq<int>,
)
    requires
        n > 0,
        psd::is_block(entries, n, start, rows),
        forall|i: nat, j: nat|
            i <= j < n ==> psd::row_value(
                rows[#[trigger] lasserre::upper_place(n, i, j)],
                y,
                l,
            ) == rows[lasserre::upper_place(n, i, j)].rhs,
        v.len() == n,
        v[0] == 1,
        forall|j: nat|
            j < n ==> v[j as int] == psd::entry_value(
                entries[#[trigger] lasserre::upper_place(n, 0, j)],
                y,
            ),
        forall|j: nat|
            j < n ==> psd::entry_value(entries[#[trigger] lasserre::upper_place(n, j, j)], y) == v[
            j as int] * v[j as int],
    ensures
        psd::is_rank_one(entries, n, y, v),
{
    let head = l(start + cliques::tri_place(0, 0));
    lemma_row(entries, n, start, rows, y, l, 0, 0);
    let p00 = rows[lasserre::upper_place(n, 0, 0)].products@;
    assert(p00[0].0 == start + cliques::tri_place(0, 0));
    lemma_first_only(p00, l, 1);
    assert(head * head == 1);
    assert(head == 1 || head == -1) by (nonlinear_arith)
        requires
            head * head == 1,
    ;
    assert forall|j: nat| j < n implies l(start + #[trigger] cliques::tri_place(j as int, 0))
        == head * v[j as int] by {
        lemma_row(entries, n, start, rows, y, l, 0, j);
        let p = rows[lasserre::upper_place(n, 0, j)].products@;
        assert(p[0].0 == start + cliques::tri_place(0, 0));
        lemma_first_only(p, l, 1);
        let c = l(start + cliques::tri_place(j as int, 0));
        assert(v[j as int] == head * c);
        assert(head * (head * c) == (head * head) * c) by (nonlinear_arith);
        assert(1 * c == c);
    }
    assert forall|i: nat, j: nat| i <= j < n implies psd::entry_value(
        entries[#[trigger] lasserre::upper_place(n, i, j)],
        y,
    ) == v[i as int] * v[j as int] by {
        lemma_row(entries, n, start, rows, y, l, i, i);
        lemma_row(entries, n, start, rows, y, l, i, j);
        let d = rows[lasserre::upper_place(n, i, i)].products@;
        let p = rows[lasserre::upper_place(n, i, j)].products@;
        let a = l(start + cliques::tri_place(i as int, 0));
        let b = l(start + cliques::tri_place(j as int, 0));
        let s = v[i as int];
        let t = v[j as int];
        assert(a == head * s && b == head * t);
        assert forall|r: int| 0 <= r < i + 1 implies (#[trigger] d[r]).0 == d[r].1 by {}
        assert(d[0].0 == start + cliques::tri_place(i as int, 0));
        lemma_squares(d, l, (i + 1) as nat);
        assert(a * a == s * s) by (nonlinear_arith)
            requires
                a == head * s,
                head == 1 || head == -1,
        ;
        assert forall|r: int| 1 <= r < i + 1 implies l((#[trigger] p[r]).0 as int) == 0 by {
            assert(l(d[r].0 as int) == 0);
            assert(p[r].0 == d[r].0);
        }
        lemma_first_only(p, l, (i + 1) as nat);
        assert(p[0].0 == start + cliques::tri_place(i as int, 0));
        assert(p[0].1 == start + cliques::tri_place(j as int, 0));
        assert(a * b == s * t) by (nonlinear_arith)
            requires
                a == head * s,
                b == head * t,
                head == 1 || head == -1,
        ;
    }
}

/// The entry of a product that has a list is the moment of the list.
proof fn lemma_entry(
    vt: VarType,
    m: Seq<Vec<usize>>,
    a: Seq<usize>,
    b: Seq<usize>,
    e: Seq<usize>,
    s: Seq<usize>,
)
    requires
        lasserre::is_entry(vt, m, a, b, e),
        moments::is_product(vt, a, b, s),
    ensures
        if s.len() == 0 {
            e.len() == 0
        } else {
            e.len() == 1 && e[0] < m.len() && m[e[0] as int]@ == s
        },
{
    let q = choose|q: Seq<usize>| #[trigger]
        moments::is_product(vt, a, b, q) && (if q.len() == 0 {
            e.len() == 0
        } else {
            e.len() == 1 && e[0] < m.len() && m[e[0] as int]@ == q
        });
    assert forall|v: usize| q.contains(v) == s.contains(v) by {
        assert(q.contains(v) == s.contains(v));
    }
    sets::lemma_ascending_unique(q, s);
}

/// Every point of the program of a moment matrix with whole values of the monomials of
/// the basis has the product of the two monomials at every entry.
pub proof fn whole_moments_are_products(
    a: &MomentApparatus,
    d: nat,
    vt: VarType,
    cap: nat,
    terms: Seq<Vec<usize>>,
    rows: Seq<PsdRow>,
    y: Seq<int>,
    l: spec_fn(int) -> int,
    v: Seq<int>,
)
    requires
        a.is_for(d, vt, cap, terms),
        psd::is_block(psd::entries_of(a), a.mat_dim as nat, 0, rows),
        forall|p: int| 0 <= p < rows.len() ==> psd::row_value(#[trigger] rows[p], y, l) == rows[p].rhs,
        v.len() == a.mat_dim,
        forall|j: nat|
            j < a.mat_dim ==> v[j as int] == psd::entry_value(
                psd::entries_of(a)[#[trigger] lasserre::upper_place(a.mat_dim as nat, 0, j)],
                y,
            ),
        forall|j: int| 0 <= j < a.mat_dim ==> program_laws::is_whole(vt, #[trigger] v[j]),
    ensures
        psd::is_rank_one(psd::entries_of(a), a.mat_dim as nat, y, v),
        a.mat_dim > 0,
{
    let n = a.mat_dim as nat;
    let b = a.basis@;
    let m = a.free_moments@;
    let entries = psd::entries_of(a);
    let (direct, pairs) = choose|direct: Seq<Batch>, pairs: Seq<Batch>| #[trigger]
        basis::is_basis_by(terms, d, cap, direct, pairs, b);
    assert(lists::has_list(b, Seq::empty()));
    let k = choose|k: int| 0 <= k < b.len() && (#[trigger] b[k])@ == Seq::<usize>::empty();
    if k > 0 {
        assert(lists::comes_before(true, b[0]@, b[k]@));
    }
    assert(b[0]@.len() == 0);
    assert forall|j: nat| j < n implies psd::entry_value(
        entries[#[trigger] lasserre::upper_place(n, j, j)],
        y,
    ) == v[j as int] * v[j as int] && (j == 0 ==> v[0] == 1) by {
        lasserre::lemma_place_below(n, j, j);
        lasserre::lemma_place_below(n, 0, j);
        let x = b[j as int]@;
        let e = a.upper_entry_to_y@[lasserre::upper_place(n, j, j)]@;
        let f = a.upper_entry_to_y@[lasserre::upper_place(n, 0, j)]@;
        assert(lasserre::is_entry(vt, m, x, x, e));
        assert(lasserre::is_entry(vt, m, b[0]@, x, f));
        assert(sets::ascending(x));
        assert(moments::is_product(vt, b[0]@, x, x)) by {
            assert forall|w: usize| !(#[trigger] b[0]@.contains(w)) by {}
        }
        lemma_entry(vt, m, b[0]@, x, f, x);
        assert(program_laws::is_whole(vt, v[j as int]));
        let c = v[j as int];
        match vt {
            VarType::Bin => {
                assert(moments::is_product(vt, x, x, x));
                lemma_entry(vt, m, x, x, e, x);
                if x.len() > 0 {
                    lemma_one_place(m, e[0] as int, f[0] as int);
                }
                assert(c * c == c) by (nonlinear_arith)
                    requires
                        c == 0 || c == 1,
                ;
            },
            VarType::Spin => {
                let none = Seq::<usize>::empty();
                assert(moments::is_product(vt, x, x, none)) by {
                    assert forall|w: usize| !(#[trigger] none.contains(w)) by {}
                }
                lemma_entry(vt, m, x, x, e, none);
                assert(c * c == 1) by (nonlinear_arith)
                    requires
                        c == -1 || c == 1,
                ;
            },
        }
    }
    assert forall|i: nat, j: nat| i <= j < n implies psd::row_value(
        rows[#[trigger] lasserre::upper_place(n, i, j)],
        y,
        l,
    ) == rows[lasserre::upper_place(n, i, j)].rhs by {
        lasserre::lemma_place_below(n, i, j);
    }
    assert(lasserre::upper_place(n, 0, 0) == 0);
    blocks_with_squares_are_rank_one(entries, n, 0, rows, y, l, v);
}

proof fn lemma_one_place(m: Seq<Vec<usize>>, i: int, j: int)
    requires
        lists::in_list_order(true, m),
        0 <= i < m.len(),
        0 <= j < m.len(),
        m[i]@ == m[j]@,
    ensures
        i == j,
{
    lists::lemma_order_total(true, m[i]@, m[j]@);
    if i < j {
        assert(lists::comes_before(true, m[i]@, m[j]@));
    } else if j < i {
        assert(lists::comes_before(true, m[j]@, m[i]@));
    }
}

/// A list of distinct lists within another is no longer.
proof fn lemma_fewer_lists(a: Seq<Vec<usize>>, b: Seq<Vec<usize>>)
    requires
        lists::in_list_order(true, a),
        lists::in_list_order(true, b),
        forall|s: Seq<usize>| #[trigger] lists::has_list(a, s) ==> lists::has_list(b, s),
    ensures
        a.len() <= b.len(),
{
    let p = Seq::new(a.len(), |i: int| a[i]@);
    let q = Seq::new(b.len(), |i: int| b[i]@);
    assert forall|i: int, j: int| 0 <= i < p.len() && 0 <= j < p.len() && i != j implies p[i]
        != p[j] by {
        if p[i] == p[j] {
            lemma_one_place(a, i, j);
        }
    }
    assert forall|i: int, j: int| 0 <= i < q.len() && 0 <= j < q.len() && i != j implies q[i]
        != q[j] by {
        if q[i] == q[j] {
            lemma_one_place(b, i, j);
        }
    }
    p.unique_seq_to_set();
    q.unique_seq_to_set();
    vstd::seq_lib::seq_to_set_is_finite(p);
    vstd::seq_lib::seq_to_set_is_finite(q);
    assert(p.to_set().subset_of(q.to_set())) by {
        assert forall|s: Seq<usize>| p.to_set().contains(s) implies q.to_set().contains(s) by {
            let i = p.index_of(s);
            assert(a[i]@ == s);
            assert(lists::has_list(a, s));
            let j = choose|j: int| 0 <= j < b.len() && (#[trigger] b[j])@ == s;
            assert(q[j] == s);
        }
    }
    vstd::set_lib::lemma_len_subset(p.to_set(), q.to_set());
}

proof fn lemma_in_some(a: Seq<Batch>, b: Seq<Batch>, s: Seq<usize>)
    ensures
        basis::in_batches(a, s) || basis::in_batches(b, s) ==> basis::in_batches(a + b, s),
{
    let c = a + b;
    if basis::in_batches(a, s) {
        let i = choose|i: int|
            0 <= i < a.len() && moments::is_part_of((#[trigger] a[i]).data, a[i].size, s);
        assert(c[i] == a[i]);
    }
    if basis::in_batches(b, s) {
        let i = choose|i: int|
            0 <= i < b.len() && moments::is_part_of((#[trigger] b[i]).data, b[i].size, s);
        assert(c[a.len() + i] == b[i]);
    }
}

proof fn lemma_size_batches(data: Seq<usize>, from: nat, to: nat, s: Seq<usize>)
    requires
        moments::is_part_of(data, s.len(), s),
        from <= s.len() <= to,
        0 < s.len(),
    ensures
        basis::in_batches(basis::size_batches(data, from, to), s),
    decreases to,
{
    let r = basis::size_batches(data, from, to);
    if s.len() == to {
        assert(r[r.len() - 1] == (Batch { data, size: to }));
    } else {
        lemma_size_batches(data, from, (to - 1) as nat, s);
        let p = basis::size_batches(data, from, (to - 1) as nat);
        let i = choose|i: int|
            0 <= i < p.len() && moments::is_part_of((#[trigger] p[i]).data, p[i].size, s);
        assert(r[i] == p[i]);
    }
}

proof fn lemma_direct(terms: Seq<Vec<usize>>, d: nat, k: nat, t: int, s: Seq<usize>)
    requires
        0 <= t < k <= terms.len(),
        sets::ascending(terms[t]@),
        moments::is_part_of(terms[t]@, s.len(), s),
        1 <= s.len() <= d,
    ensures
        basis::in_batches(basis::direct_batches(terms, d, k), s),
    decreases k,
{
    let before = basis::direct_batches(terms, d, (k - 1) as nat);
    let own = basis::size_batches(terms[k - 1]@, 1, basis::least(d, terms[k - 1]@.len()));
    if t == k - 1 {
        sets::lemma_ascending_within(s, terms[t]@);
        lemma_size_batches(terms[t]@, 1, basis::least(d, terms[t]@.len()), s);
    } else {
        lemma_direct(terms, d, (k - 1) as nat, t, s);
    }
    lemma_in_some(before, own, s);
}

proof fn lemma_pair_row(terms: Seq<Vec<usize>>, d: nat, i: int, j: nat, u: int, s: Seq<usize>)
    requires
        0 <= i < u < j <= terms.len(),
        basis::is_union(terms[i]@, terms[u]@, basis::union_of(terms[i]@, terms[u]@)),
        moments::share_variable(terms[i]@, terms[u]@),
        moments::is_part_of(basis::union_of(terms[i]@, terms[u]@), s.len(), s),
        2 <= s.len() <= d,
    ensures
        basis::in_batches(basis::row_batches(terms, d, i, j), s),
    decreases j,
{
    let before = basis::row_batches(terms, d, i, (j - 1) as nat);
    let all = basis::union_of(terms[i]@, terms[j - 1]@);
    if u == j - 1 {
        sets::lemma_ascending_within(s, all);
        lemma_size_batches(all, 2, basis::least(d, all.len()), s);
        lemma_in_some(before, basis::size_batches(all, 2, basis::least(d, all.len())), s);
    } else {
        lemma_pair_row(terms, d, i, (j - 1) as nat, u, s);
        if moments::share_variable(terms[i]@, terms[j - 1]@) {
            lemma_in_some(before, basis::size_batches(all, 2, basis::least(d, all.len())), s);
        } else {
            lemma_in_some(before, Seq::empty(), s);
        }
    }
}

proof fn lemma_pairs(terms: Seq<Vec<usize>>, d: nat, k: nat, i: int, u: int, s: Seq<usize>)
    requires
        0 <= i < u < terms.len(),
        i < k <= terms.len(),
        basis::is_union(terms[i]@, terms[u]@, basis::union_of(terms[i]@, terms[u]@)),
        moments::share_variable(terms[i]@, terms[u]@),
        moments::is_part_of(basis::union_of(terms[i]@, terms[u]@), s.len(), s),
        2 <= s.len() <= d,
    ensures
        basis::in_batches(basis::pair_batches(terms, d, k), s),
    decreases k,
{
    let before = basis::pair_batches(terms, d, (k - 1) as nat);
    let own = basis::row_batches(terms, d, k - 1, terms.len());
    if i == k - 1 {
        lemma_pair_row(terms, d, i, terms.len(), u, s);
    } else {
        lemma_pairs(terms, d, (k - 1) as nat, i, u, s);
    }
    lemma_in_some(before, own, s);
}

/// A basis below its cap has every part of a term with at most `d` variables.
pub proof fn basis_has_all_parts(
    terms: Seq<Vec<usize>>,
    d: nat,
    cap: nat,
    b: Seq<Vec<usize>>,
    t: int,
    s: Seq<usize>,
)
    requires
        basis::is_basis(terms, d, cap, b),
        b.len() < cap,
        0 <= t < terms.len(),
        sets::ascending(terms[t]@),
        sets::ascending(s),
        s.len() <= d,
        forall|i: int| 0 <= i < s.len() ==> terms[t]@.contains(#[trigger] s[i]),
    ensures
        lists::has_list(b, s),
{
    let (direct, pairs) = choose|direct: Seq<Batch>, pairs: Seq<Batch>| #[trigger]
        basis::is_basis_by(terms, d, cap, direct, pairs, b);
    let all = basis::direct_batches(terms, d, terms.len());
    if s.len() > 0 {
        lemma_direct(terms, d, terms.len(), t, s);
        lemma_not_capped(direct, pairs, b, cap);
        assert(Seq::<Batch>::empty() + direct =~= direct);
        assert(all.take(all.len() as int) =~= all);
        lemma_in_some(direct, pairs, s);
    } else {
        assert(s =~= Seq::empty());
    }
}

/// A part of the batches is not full where all of them are below the cap.
proof fn lemma_not_capped(direct: Seq<Batch>, pairs: Seq<Batch>, b: Seq<Vec<usize>>, cap: nat)
    requires
        basis::represents(direct + pairs, b),
        b.len() < cap,
    ensures
        !basis::is_full(direct, cap),
        !basis::is_full(direct + pairs, cap),
{
    if basis::is_full(direct, cap) {
        let c = choose|c: Seq<Vec<usize>>| #[trigger]
            basis::represents(direct, c) && c.len() >= cap;
        assert forall|s: Seq<usize>| #[trigger] lists::has_list(c, s) implies lists::has_list(b, s) by {
            lemma_in_some(direct, pairs, s);
        }
        lemma_fewer_lists(c, b);
    }
    if basis::is_full(direct + pairs, cap) {
        let c = choose|c: Seq<Vec<usize>>| #[trigger]
            basis::represents(direct + pairs, c) && c.len() >= cap;
        lemma_fewer_lists(c, b);
    }
}

/// A basis below its cap of not too many terms has, from level two on, every part with
/// two to `d` variables of the union of two terms that share a variable.
pub proof fn basis_has_all_joint_parts(
    terms: Seq<Vec<usize>>,
    d: nat,
    cap: nat,
    b: Seq<Vec<usize>>,
    t: int,
    u: int,
    all: Seq<usize>,
    s: Seq<usize>,
)
    requires
        basis::is_basis(terms, d, cap, b),
        b.len() < cap,
        terms.len() <= moments::MAX_TERMS_FOR_ENRICHMENT,
        0 <= t < u < terms.len(),
        moments::share_variable(terms[t]@, terms[u]@),
        basis::is_union(terms[t]@, terms[u]@, all),
        sets::ascending(s),
        2 <= s.len() <= d,
        forall|i: int| 0 <= i < s.len() ==> all.contains(#[trigger] s[i]),
    ensures
        lists::has_list(b, s),
{
    let (direct, pairs) = choose|direct: Seq<Batch>, pairs: Seq<Batch>| #[trigger]
        basis::is_basis_by(terms, d, cap, direct, pairs, b);
    let every = basis::pair_batches(terms, d, terms.len());
    basis::lemma_union_of(terms[t]@, terms[u]@, all);
    lemma_pairs(terms, d, terms.len(), t, u, s);
    lemma_not_capped(direct, pairs, b, cap);
    if !basis::is_below(direct, cap) {
        assert(direct + pairs =~= direct);
        assert(basis::represents(direct, b));
    }
    assert(every.take(every.len() as int) =~= every);
    lemma_in_some(direct, pairs, s);
}

/// With a basis below its cap every term within twice the level is a moment.
pub proof fn small_terms_are_moments(
    a: &MomentApparatus,
    d: nat,
    vt: VarType,
    cap: nat,
    terms: Seq<Vec<usize>>,
    t: int,
)
    requires
        a.is_for(d, vt, cap, terms),
        a.basis@.len() < cap,
        0 <= t < terms.len(),
        sets::ascending(terms[t]@),
        0 < terms[t]@.len() <= 2 * d,
    ensures
        lists::has_list(a.free_moments@, terms[t]@),
{
    let s = terms[t]@;
    let b = a.basis@;
    let h: int = if d < s.len() {
        d as int
    } else {
        s.len() as int
    };
    let p = s.take(h);
    let q = s.skip(h);
    assert forall|i: int| 0 <= i < p.len() implies s.contains(#[trigger] p[i]) by {
        assert(p[i] == s[i]);
    }
    assert forall|i: int| 0 <= i < q.len() implies s.contains(#[trigger] q[i]) by {
        assert(q[i] == s[h + i]);
    }
    basis_has_all_parts(terms, d, cap, b, t, p);
    basis_has_all_parts(terms, d, cap, b, t, q);
    let i = choose|i: int| 0 <= i < b.len() && (#[trigger] b[i])@ == p;
    let j = choose|j: int| 0 <= j < b.len() && (#[trigger] b[j])@ == q;
    assert forall|v: usize| #[trigger] s.contains(v) == (p.contains(v) != q.contains(v))
        && s.contains(v) == (p.contains(v) || q.contains(v)) by {
        if s.contains(v) {
            let k = s.index_of(v);
            if k < h {
                assert(p[k] == v);
                if q.contains(v) {
                    let r = q.index_of(v);
                    assert(s[h + r] == v);
                    assert(s[k] < s[h + r]);
                }
            } else {
                assert(q[k - h] == v);
                if p.contains(v) {
                    let r = p.index_of(v);
                    assert(s[r] == v);
                    assert(s[r] < s[k]);
                }
            }
        }
        if p.contains(v) {
            let r = p.index_of(v);
            assert(s.contains(p[r]));
        }
        if q.contains(v) {
            let r = q.index_of(v);
            assert(s.contains(q[r]));
        }
    }
    assert(moments::is_product(vt, p, q, s));
    assert(moments::is_product(vt, q, p, s));
    if i <= j {
        assert(moments::is_product(vt, b[i]@, b[j]@, s));
    } else {
        assert(moments::is_product(vt, b[j]@, b[i]@, s));
    }
    assert(lasserre::is_basis_product(vt, b, s));
}

/// With a basis below its cap and no term beyond twice the level, the objective over
/// moments is the value at every assignment: no term is bounded by its least value.
pub proof fn relaxation_within_the_cap_is_exact(
    s: &LasserreSdpState,
    base: i64,
    objective: Vec<i64>,
    apparatus: MomentApparatus,
    y: Seq<bool>,
)
    requires
        s.wf(),
        lasserre::is_relaxation(s, (Relaxation::Moments { base, objective, apparatus })),
        apparatus.basis@.len() < s.max_basis,
        forall|t: int|
            0 <= t < s.active_terms@.len() ==> (#[trigger] s.active_terms@[t]).indices@.len() <= 2
                * lasserre::level_of(s),
    ensures
        base + lasserre::moment_sum(
            s.var_type,
            apparatus.free_moments@,
            |i: int| objective@[i] as int,
            y,
            apparatus.free_moments@.len(),
        ) == s.value(y),
{
    let terms = s.active_terms@;
    let d = lasserre::level_of(s);
    let l = choose|l: Seq<Vec<usize>>| #[trigger]
        apparatus.is_for(d, s.var_type, s.max_basis as nat, l) && lasserre::list_views(l)
            == lasserre::lists_within(terms, 2 * d, terms.len());
    lemma_all_within(terms, 2 * d, terms.len());
    assert forall|t: int| 0 <= t < terms.len() implies (#[trigger] terms[t]).indices@.len() <= 2 * d
        && lists::has_list(apparatus.free_moments@, terms[t].indices@) by {
        assert(lasserre::lists_within(terms, 2 * d, terms.len())[t] == terms[t].indices@);
        assert(lasserre::list_views(l)[t] == l[t]@);
        assert(active::is_tidy_list(terms[t].indices@, s.free_globals@.len()));
        small_terms_are_moments(&apparatus, d, s.var_type, s.max_basis as nat, l, t);
    }
    lasserre::relaxation_of_moments_is_exact(s, base, objective, apparatus, y);
}

proof fn lemma_all_within(terms: Seq<Term>, degree: nat, k: nat)
    requires
        k <= terms.len(),
        forall|t: int| 0 <= t < terms.len() ==> (#[trigger] terms[t]).indices@.len() <= degree,
    ensures
        lasserre::lists_within(terms, degree, k).len() == k,
        forall|t: int|
            0 <= t < k ==> #[trigger] lasserre::lists_within(terms, degree, k)[t] == terms[t].indices@,
    decreases k,
{
    if k > 0 {
        lemma_all_within(terms, degree, (k - 1) as nat);
        assert(terms[k - 1].indices@.len() <= degree);
    }
}

/// One, and the values of the variables of a clique.
spec fn values_in(list: Seq<usize>, m: Seq<int>) -> Seq<int> {
    Seq::new(
        list.len() + 1,
        |i: int|
            if i == 0 {
                1
            } else {
                m[list[i - 1] as int]
            },
    )
}

/// The entries of a clique's matrix along its first row and its diagonal.
proof fn lemma_clique_edges(
    vt: VarType,
    n: int,
    pairs: Seq<(usize, usize)>,
    list: Seq<usize>,
    entries: Seq<Option<usize>>,
    m: Seq<int>,
    j: nat,
)
    requires
        psd_cliques::are_clique_entries(vt, n, pairs, list, entries),
        psd_cliques::is_clique_list(list, n),
        forall|i: int| 0 <= i < n ==> program_laws::is_whole(vt, #[trigger] m[i]),
        j < list.len() + 1,
    ensures
        psd::entry_value(entries[lasserre::upper_place(list.len() + 1, 0, j)], m) == values_in(
            list,
            m,
        )[j as int],
        psd::entry_value(entries[lasserre::upper_place(list.len() + 1, j, j)], m) == values_in(
            list,
            m,
        )[j as int] * values_in(list, m)[j as int],
{
    let dim = list.len() + 1;
    assert(psd_cliques::is_clique_entry(
        vt,
        n,
        pairs,
        list,
        0,
        j,
        entries[lasserre::upper_place(dim, 0, j)],
    ));
    assert(psd_cliques::is_clique_entry(
        vt,
        n,
        pairs,
        list,
        j,
        j,
        entries[lasserre::upper_place(dim, j, j)],
    ));
    if j > 0 {
        assert(list[j - 1] < n);
        let w = m[list[j - 1] as int];
        assert(program_laws::is_whole(vt, w));
        assert(w * w == if vt == VarType::Bin { w } else { 1 }) by (nonlinear_arith)
            requires
                w == 1 || (vt == VarType::Bin && w == 0) || (vt == VarType::Spin && w == -1),
        ;
    }
}

/// The rows of one clique leave the product of two of its variables at their entry.
proof fn lemma_clique_products(
    vt: VarType,
    n: int,
    pairs: Seq<(usize, usize)>,
    list: Seq<usize>,
    start: int,
    rows: Seq<PsdRow>,
    m: Seq<int>,
    l: spec_fn(int) -> int,
    i: nat,
    j: nat,
) -> (t: int)
    requires
        psd_cliques::is_clique_block(vt, n, pairs, list, start, rows),
        psd_cliques::is_clique_list(list, n),
        forall|p: int| 0 <= p < rows.len() ==> psd::row_value(#[trigger] rows[p], m, l) == rows[p].rhs,
        forall|v: int| 0 <= v < n ==> program_laws::is_whole(vt, #[trigger] m[v]),
        i < j < list.len(),
    ensures
        0 <= t < pairs.len(),
        pairs[t] == (list[i as int], list[j as int]),
        m[n + t] == m[list[i as int] as int] * m[list[j as int] as int],
{
    let dim = list.len() + 1;
    let entries = choose|entries: Seq<Option<usize>>| #[trigger]
        psd::is_block(entries, dim, start, rows) && psd_cliques::are_clique_entries(
            vt,
            n,
            pairs,
            list,
            entries,
        );
    let v = values_in(list, m);
    assert forall|a: nat, b: nat| a <= b < dim implies psd::row_value(
        rows[#[trigger] lasserre::upper_place(dim, a, b)],
        m,
        l,
    ) == rows[lasserre::upper_place(dim, a, b)].rhs by {
        lasserre::lemma_place_below(dim, a, b);
    }
    assert forall|b: nat| b < dim implies v[b as int] == psd::entry_value(
        entries[#[trigger] lasserre::upper_place(dim, 0, b)],
        m,
    ) by {
        lemma_clique_edges(vt, n, pairs, list, entries, m, b);
    }
    assert forall|b: nat| b < dim implies psd::entry_value(
        entries[#[trigger] lasserre::upper_place(dim, b, b)],
        m,
    ) == v[b as int] * v[b as int] by {
        lemma_clique_edges(vt, n, pairs, list, entries, m, b);
    }
    blocks_with_squares_are_rank_one(entries, dim, start, rows, m, l, v);
    let e = entries[lasserre::upper_place(dim, i + 1, j + 1)];
    assert(psd_cliques::is_clique_entry(vt, n, pairs, list, i + 1, j + 1, e));
    assert(psd::entry_value(e, m) == v[i as int + 1] * v[j as int + 1]);
    e->0 - n
}

/// Every point of the program over cliques with whole variables has the product of its
/// two variables at every pair.
pub proof fn whole_pairs_are_products(
    q: &ReducedQuadratic,
    c: Seq<Vec<usize>>,
    pairs: Seq<(usize, usize)>,
    r: &PsdProgram,
    m: Seq<int>,
    l: spec_fn(int) -> int,
    p: int,
)
    requires
        psd_cliques::is_clique_program(q, c, pairs, r),
        psd_cliques::are_cliques(c, q.linear@.len() as int),
        forall|t: int|
            0 <= t < r.rows@.len() ==> psd::row_value(#[trigger] r.rows@[t], m, l)
                == r.rows@[t].rhs,
        forall|i: int|
            0 <= i < q.linear@.len() ==> program_laws::is_whole(q.var_type, #[trigger] m[i]),
        0 <= p < pairs.len(),
    ensures
        m[q.linear@.len() + p] == m[pairs[p].0 as int] * m[pairs[p].1 as int],
{
    let n = q.linear@.len() as int;
    let (a, b) = pairs[p];
    assert(pairs[p].0 < pairs[p].1 < n);
    let k = choose|k: int| 0 <= k < c.len() && (#[trigger] c[k])@.contains(a) && c[k]@.contains(b);
    let list = c[k]@;
    assert(psd_cliques::is_clique_list(c[k]@, n));
    let i = list.index_of(a);
    let j = list.index_of(b);
    if j < i {
        assert(list[j] < list[i]);
    }
    let from = psd_cliques::rows_start(c, k as nat);
    let rows = psd_cliques::block_of(c, r, k);
    let start = psd_cliques::factor_start(c, k as nat);
    assert(psd_cliques::is_clique_block(q.var_type, n, pairs, c[k]@, start, rows));
    assert forall|t: int| 0 <= t < rows.len() implies psd::row_value(#[trigger] rows[t], m, l)
        == rows[t].rhs by {
        assert(rows[t] == r.rows@[from + t]);
    }
    let t = lemma_clique_products(
        q.var_type,
        n,
        pairs,
        list,
        start,
        rows,
        m,
        l,
        i as nat,
        j as nat,
    );
    if t < p {
        assert(psd_cliques::is_before(pairs[t], pairs[p]));
    } else if p < t {
        assert(psd_cliques::is_before(pairs[p], pairs[t]));
    }
}

} // verus!
