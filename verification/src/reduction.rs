//! Reduced forms of variable lists.

use crate::domain::VarType;
use crate::domain;
use crate::sets;
use crate::term;
use vstd::prelude::*;

verus! {

/// Taking out one entry takes out its factor.
pub proof fn lemma_monomial_remove(vt: VarType, idx: Seq<usize>, p: int, x: Seq<bool>)
    requires
        0 <= p < idx.len(),
    ensures
        term::monomial(vt, idx, x) == term::monomial(vt, idx.remove(p), x) * term::bit_value(vt, x[idx[p] as int]),
    decreases idx.len(),
{
    let r = idx.remove(p);
    if p == idx.len() - 1 {
        assert(r =~= idx.drop_last());
    } else {
        lemma_monomial_remove(vt, idx.drop_last(), p, x);
        assert(r.drop_last() =~= idx.drop_last().remove(p));
        assert(r.last() == idx.last());
        let a = term::monomial(vt, idx.drop_last().remove(p), x);
        let b = term::bit_value(vt, x[idx[p] as int]);
        let c = term::bit_value(vt, x[idx.last() as int]);
        assert((a * b) * c == (a * c) * b) by (nonlinear_arith);
    }
}

/// How many entries are below `v`.
spec fn rank(r: Seq<usize>, v: usize) -> int
    decreases r.len(),
{
    if r.len() == 0 {
        0
    } else {
        rank(r.drop_last(), v) + (if r.last() < v {
            1int
        } else {
            0int
        })
    }
}

proof fn lemma_rank(r: Seq<usize>, v: usize)
    requires
        sets::ascending(r),
    ensures
        0 <= rank(r, v) <= r.len(),
        forall|i: int| 0 <= i < rank(r, v) ==> r[i] < v,
        forall|i: int| rank(r, v) <= i < r.len() ==> v <= r[i],
    decreases r.len(),
{
    if r.len() > 0 {
        lemma_rank(r.drop_last(), v);
        let q = rank(r.drop_last(), v);
        if r.last() < v {
            if q < r.len() - 1 {
                assert(r[q] < r[r.len() - 1]);
                assert(v <= r.drop_last()[q]);
            }
        }
        assert forall|i: int| 0 <= i < rank(r, v) implies r[i] < v by {
            if i < q {
                assert(r.drop_last()[i] < v);
            }
        }
        assert forall|i: int| rank(r, v) <= i < r.len() implies v <= r[i] by {
            if i < r.len() - 1 {
                assert(v <= r.drop_last()[i]);
            }
        }
    }
}

/// Removing the place of `v` from an ascending list leaves the other members.
proof fn lemma_remove_member(q: Seq<usize>, p: int)
    requires
        sets::ascending(q),
        0 <= p < q.len(),
    ensures
        sets::ascending(q.remove(p)),
        forall|u: usize| #[trigger] q.remove(p).contains(u) == (q.contains(u) && u != q[p]),
{
    let r = q.remove(p);
    assert forall|u: usize| #[trigger] r.contains(u) == (q.contains(u) && u != q[p]) by {
        if q.contains(u) && u != q[p] {
            let i = choose|i: int| 0 <= i < q.len() && q[i] == u;
            if i < p {
                assert(r[i] == u);
            } else {
                assert(r[i - 1] == u);
            }
        }
        if r.contains(u) {
            let i = choose|i: int| 0 <= i < r.len() && r[i] == u;
            if i < p {
                assert(q[i] == u && q[i] < q[p]);
            } else {
                assert(q[i + 1] == u && q[p] < q[i + 1]);
            }
        }
    }
}

/// Inserting `v` at its rank in an ascending list without it adds it.
proof fn lemma_insert_member(q: Seq<usize>, v: usize)
    requires
        sets::ascending(q),
        !q.contains(v),
    ensures
        0 <= rank(q, v) <= q.len(),
        sets::ascending(q.insert(rank(q, v), v)),
        q.insert(rank(q, v), v).remove(rank(q, v)) == q,
        forall|u: usize| #[trigger]
            q.insert(rank(q, v), v).contains(u) == (q.contains(u) || u == v),
{
    let p = rank(q, v);
    lemma_rank(q, v);
    let r = q.insert(p, v);
    assert(r.remove(p) =~= q);
    assert forall|u: usize| #[trigger] r.contains(u) == (q.contains(u) || u == v) by {
        if q.contains(u) {
            let i = choose|i: int| 0 <= i < q.len() && q[i] == u;
            if i < p {
                assert(r[i] == u);
            } else {
                assert(r[i + 1] == u);
            }
        }
        if u == v {
            assert(r[p] == v);
        }
        if r.contains(u) {
            let i = choose|i: int| 0 <= i < r.len() && r[i] == u;
            if i < p {
                assert(q[i] == u);
            } else if i > p {
                assert(q[i - 1] == u);
            }
        }
    }
    assert forall|i: int, j: int| 0 <= i < j < r.len() implies r[i] < r[j] by {
        if i == p {
            assert(v <= q[j - 1]);
            assert(q.contains(q[j - 1]));
        }
    }
}

/// A reduced form exists and has the same product.
pub proof fn lemma_reduced_exists(vt: VarType, idx: Seq<usize>, x: Seq<bool>) -> (r: Seq<usize>)
    ensures
        domain::is_reduced_form(vt, idx, r),
        term::monomial(vt, r, x) == term::monomial(vt, idx, x),
    decreases idx.len(),
{
    if idx.len() == 0 {
        let r = Seq::<usize>::empty();
        assert(r =~= idx);
        r
    } else {
        let v = idx.last();
        let q = lemma_reduced_exists(vt, idx.drop_last(), x);
        let b = term::bit_value(vt, x[v as int]);
        let r = if q.contains(v) {
            let p = choose|p: int| 0 <= p < q.len() && q[p] == v;
            lemma_monomial_remove(vt, q, p, x);
            lemma_remove_member(q, p);
            let m = term::monomial(vt, q.remove(p), x);
            match vt {
                VarType::Bin => {
                    assert((m * b) * b == m * b) by (nonlinear_arith)
                        requires
                            b == 0 || b == 1,
                    ;
                    q
                },
                VarType::Spin => {
                    assert((m * b) * b == m) by (nonlinear_arith)
                        requires
                            b == -1 || b == 1,
                    ;
                    q.remove(p)
                },
            }
        } else {
            let p = rank(q, v);
            lemma_insert_member(q, v);
            lemma_monomial_remove(vt, q.insert(p, v), p, x);
            q.insert(p, v)
        };
        assert forall|u: usize| #[trigger] r.contains(u) == domain::survives(vt, idx, u) by {
            assert(q.contains(u) == domain::survives(vt, idx.drop_last(), u));
        }
        r
    }
}

/// Reducing a list of variables keeps the product at every assignment.
pub proof fn reduction_preserves_monomial(
    vt: VarType,
    idx: Seq<usize>,
    r: Seq<usize>,
    x: Seq<bool>,
)
    requires
        domain::is_reduced_form(vt, idx, r),
    ensures
        term::monomial(vt, r, x) == term::monomial(vt, idx, x),
{
    let q = lemma_reduced_exists(vt, idx, x);
    assert forall|v: usize| q.contains(v) == r.contains(v) by {
        assert(q.contains(v) == domain::survives(vt, idx, v));
        assert(r.contains(v) == domain::survives(vt, idx, v));
    }
    sets::lemma_ascending_unique(q, r);
}

/// The reduced form of a list of variables.
pub open spec fn reduced_form(vt: VarType, idx: Seq<usize>) -> Seq<usize> {
    choose|r: Seq<usize>| domain::is_reduced_form(vt, idx, r)
}

/// A list has one reduced form only.
pub proof fn lemma_reduced_form(vt: VarType, idx: Seq<usize>, r: Seq<usize>)
    requires
        domain::is_reduced_form(vt, idx, r),
    ensures
        reduced_form(vt, idx) == r,
{
    let q = reduced_form(vt, idx);
    assert forall|v: usize| q.contains(v) == r.contains(v) by {
        assert(q.contains(v) == domain::survives(vt, idx, v));
        assert(r.contains(v) == domain::survives(vt, idx, v));
    }
    sets::lemma_ascending_unique(q, r);
}

} // verus!
