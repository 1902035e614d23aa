//! Sums of coefficients collected under index-list keys, in lexicographic
//! key order.

use vstd::prelude::*;

verus! {

/// Strict lexicographic order on index lists.
pub open spec fn lex_lt(a: Seq<usize>, b: Seq<usize>) -> bool
    decreases a.len(),
{
    if b.len() == 0 {
        false
    } else if a.len() == 0 {
        true
    } else if a[0] != b[0] {
        a[0] < b[0]
    } else {
        lex_lt(a.drop_first(), b.drop_first())
    }
}

/// The order is irreflexive and total.
pub proof fn lemma_lex_total(a: Seq<usize>, b: Seq<usize>)
    ensures
        a == b ==> !lex_lt(a, b),
        a != b ==> (lex_lt(a, b) != lex_lt(b, a)),
    decreases a.len(),
{
    if a.len() > 0 && b.len() > 0 && a[0] == b[0] {
        lemma_lex_total(a.drop_first(), b.drop_first());
        assert(a == seq![a[0]] + a.drop_first());
        assert(b == seq![b[0]] + b.drop_first());
    } else if a.len() == 0 && b.len() == 0 {
        assert(a == b);
    }
}

/// The order is transitive.
pub proof fn lemma_lex_trans(a: Seq<usize>, b: Seq<usize>, c: Seq<usize>)
    requires
        lex_lt(a, b),
        lex_lt(b, c),
    ensures
        lex_lt(a, c),
    decreases a.len(),
{
    if a.len() > 0 && b.len() > 0 && c.len() > 0 && a[0] == b[0] && b[0] == c[0] {
        lemma_lex_trans(a.drop_first(), b.drop_first(), c.drop_first());
    }
}

/// Outcome of a lexicographic comparison.
#[derive(Debug, Clone, Copy, PartialEq, Eq, Structural)]
pub enum LexOrder {
    Before,
    Same,
    After,
}

/// Compare two index lists lexicographically.
pub fn lex_order(a: &[usize], b: &[usize]) -> (r: LexOrder)
    ensures
        r == LexOrder::Before <==> lex_lt(a@, b@),
        r == LexOrder::Same <==> a@ == b@,
        r == LexOrder::After <==> lex_lt(b@, a@),
{
    let mut i: usize = 0;
    proof {
        lemma_lex_total(a@, b@);
        assert(a@.skip(0) == a@);
        assert(b@.skip(0) == b@);
    }
    while i < a.len() && i < b.len() && a[i] == b[i]
        invariant
            i <= a@.len(),
            i <= b@.len(),
            a@.take(i as int) == b@.take(i as int),
            lex_lt(a@, b@) == lex_lt(a@.skip(i as int), b@.skip(i as int)),
            lex_lt(b@, a@) == lex_lt(b@.skip(i as int), a@.skip(i as int)),
        decreases a@.len() - i,
    {
        proof {
            assert(a@.skip(i as int).drop_first() == a@.skip(i + 1));
            assert(b@.skip(i as int).drop_first() == b@.skip(i + 1));
            assert(a@.take(i + 1) == a@.take(i as int).push(a@[i as int]));
            assert(b@.take(i + 1) == b@.take(i as int).push(b@[i as int]));
        }
        i += 1;
    }
    proof {
        lemma_lex_total(a@, b@);
        if i == a@.len() && i == b@.len() {
            assert(a@.take(i as int) == a@);
            assert(b@.take(i as int) == b@);
        } else if i < a@.len() && i < b@.len() {
            assert(a@[i as int] != b@[i as int]);
        }
    }
    if i < a.len() && i < b.len() {
        if a[i] < b[i] {
            LexOrder::Before
        } else {
            LexOrder::After
        }
    } else if i < b.len() {
        LexOrder::Before
    } else if i < a.len() {
        LexOrder::After
    } else {
        LexOrder::Same
    }
}

/// One key with the sum collected under it.
#[derive(Debug)]
pub struct KeySum {
    pub key: Vec<usize>,
    pub sum: i128,
}

/// The keys grow strictly.
pub open spec fn keys_ascend(t: Seq<KeySum>) -> bool {
    forall|i: int, j: int| 0 <= i < j < t.len() ==> lex_lt(#[trigger] t[i].key@, #[trigger] t[j].key@)
}

/// The sums of a table weighted by a function of the key.
pub open spec fn weighted(t: Seq<KeySum>, w: spec_fn(Seq<usize>) -> int) -> int
    decreases t.len(),
{
    if t.len() == 0 {
        0
    } else {
        weighted(t.drop_last(), w) + t.last().sum * w(t.last().key@)
    }
}

/// The sum of the absolute sums of a table.
pub open spec fn table_abs(t: Seq<KeySum>) -> int
    decreases t.len(),
{
    if t.len() == 0 {
        0
    } else {
        table_abs(t.drop_last()) + crate::term::abs(t.last().sum as int)
    }
}

proof fn lemma_weighted_update(t: Seq<KeySum>, p: int, e: KeySum, w: spec_fn(Seq<usize>) -> int)
    requires
        0 <= p < t.len(),
        e.key@ == t[p].key@,
    ensures
        weighted(t.update(p, e), w) == weighted(t, w) + (e.sum - t[p].sum) * w(e.key@),
        table_abs(t.update(p, e)) == table_abs(t) - crate::term::abs(t[p].sum as int)
            + crate::term::abs(e.sum as int),
    decreases t.len(),
{
    let u = t.update(p, e);
    if p == t.len() - 1 {
        assert(u.drop_last() == t.drop_last());
        assert(e.sum * w(e.key@) == t[p].sum * w(e.key@) + (e.sum - t[p].sum) * w(e.key@))
            by (nonlinear_arith);
    } else {
        assert(u.drop_last() == t.drop_last().update(p, e));
        lemma_weighted_update(t.drop_last(), p, e, w);
    }
}

proof fn lemma_weighted_insert(t: Seq<KeySum>, p: int, e: KeySum, w: spec_fn(Seq<usize>) -> int)
    requires
        0 <= p <= t.len(),
    ensures
        weighted(t.insert(p, e), w) == weighted(t, w) + e.sum * w(e.key@),
        table_abs(t.insert(p, e)) == table_abs(t) + crate::term::abs(e.sum as int),
    decreases t.len(),
{
    let u = t.insert(p, e);
    if p == t.len() {
        assert(u.drop_last() == t);
    } else {
        assert(u.drop_last() == t.drop_last().insert(p, e));
        assert(u.last() == t.last());
        lemma_weighted_insert(t.drop_last(), p, e, w);
    }
}

/// A single sum is bounded by the absolute sum of the table.
pub proof fn lemma_table_abs_entry(t: Seq<KeySum>, p: int)
    requires
        0 <= p < t.len(),
    ensures
        crate::term::abs(t[p].sum as int) <= table_abs(t),
        0 <= table_abs(t),
    decreases t.len(),
{
    if t.len() > 1 {
        if p < t.len() - 1 {
            lemma_table_abs_entry(t.drop_last(), p);
        } else {
            lemma_table_abs_entry(t.drop_last(), 0);
        }
    } else {
        assert(table_abs(t.drop_last()) == 0);
    }
}

/// Add `c` to the sum collected under `key`.
pub fn add_to(t: &mut Vec<KeySum>, key: Vec<usize>, c: i128)
    requires
        keys_ascend(old(t)@),
        table_abs(old(t)@) + crate::term::abs(c as int) <= i128::MAX,
    ensures
        keys_ascend(final(t)@),
        forall|w: spec_fn(Seq<usize>) -> int| #[trigger]
            weighted(final(t)@, w) == weighted(old(t)@, w) + c * w(key@),
        table_abs(final(t)@) <= table_abs(old(t)@) + crate::term::abs(c as int),
        final(t)@.len() <= old(t)@.len() + 1,
        forall|i: int| 0 <= i < final(t)@.len() ==> (exists|j: int|
            0 <= j < old(t)@.len() && #[trigger] old(t)@[j].key@ == final(t)@[i].key@) || (
        #[trigger] final(t)@[i]).key@ == key@,
{
    let ghost a = t@;
    let ghost k = key@;
    let mut p: usize = 0;
    while p < t.len() && lex_order(t[p].key.as_slice(), key.as_slice()) == LexOrder::Before
        invariant
            t@ == a,
            key@ == k,
            p <= t@.len(),
            forall|i: int| 0 <= i < p ==> lex_lt(#[trigger] t@[i].key@, k),
        decreases t@.len() - p,
    {
        p += 1;
    }
    if p < t.len() && lex_order(t[p].key.as_slice(), key.as_slice()) == LexOrder::Same {
        proof {
            lemma_table_abs_entry(a, p as int);
        }
        let s: i128 = t[p].sum + c;
        let e = KeySum { key, sum: s };
        let ghost ge = e;
        t.set(p, e);
        proof {
            assert(t@ == a.update(p as int, ge));
            assert forall|w: spec_fn(Seq<usize>) -> int| #[trigger] weighted(t@, w) == weighted(
                a,
                w,
            ) + c * w(k) by {
                lemma_weighted_update(a, p as int, ge, w);
            }
            lemma_weighted_update(a, p as int, ge, |q: Seq<usize>| 0int);
            assert forall|i: int, j: int| 0 <= i < j < t@.len() implies lex_lt(
                #[trigger] t@[i].key@,
                #[trigger] t@[j].key@,
            ) by {
                assert(t@[i].key@ == a[i].key@);
                assert(t@[j].key@ == a[j].key@);
            }
            assert forall|i: int| 0 <= i < t@.len() implies (exists|j: int|
                0 <= j < a.len() && #[trigger] a[j].key@ == t@[i].key@) || (
            #[trigger] t@[i]).key@ == k by {
                assert(a[i].key@ == t@[i].key@);
            }
        }
    } else {
        let e = KeySum { key, sum: c };
        let ghost ge = e;
        proof {
            if p < a.len() {
                lemma_lex_total(a[p as int].key@, k);
            }
            assert forall|i: int| p <= i < a.len() implies lex_lt(k, #[trigger] a[i].key@) by {
                if i > p {
                    lemma_lex_trans(k, a[p as int].key@, a[i].key@);
                }
            }
        }
        t.insert(p, e);
        proof {
            let u = a.insert(p as int, ge);
            assert(t@ == u);
            assert forall|w: spec_fn(Seq<usize>) -> int| #[trigger] weighted(t@, w) == weighted(
                a,
                w,
            ) + c * w(k) by {
                lemma_weighted_insert(a, p as int, ge, w);
            }
            lemma_weighted_insert(a, p as int, ge, |q: Seq<usize>| 0int);
            assert forall|i: int, j: int| 0 <= i < j < u.len() implies lex_lt(
                #[trigger] u[i].key@,
                #[trigger] u[j].key@,
            ) by {
                let ai = if i < p { a[i] } else { a[i - 1] };
                let aj = if j < p { a[j] } else { a[j - 1] };
                if i != p && j != p {
                    assert(u[i] == ai && u[j] == aj);
                }
            }
            assert forall|i: int| 0 <= i < u.len() implies (exists|j: int|
                0 <= j < a.len() && #[trigger] a[j].key@ == u[i].key@) || (
            #[trigger] u[i]).key@ == k by {
                if i < p {
                    assert(a[i].key@ == u[i].key@);
                } else if i > p {
                    assert(a[i - 1].key@ == u[i].key@);
                }
            }
        }
    }
}

/// In a table with distinct keys, the indicator of a key picks its sum.
pub proof fn lemma_indicator_entry(t: Seq<KeySum>, p: int)
    requires
        keys_ascend(t),
        0 <= p < t.len(),
    ensures
        weighted(t, indicator(t[p].key@)) == t[p].sum,
    decreases t.len(),
{
    let k = t[p].key@;
    if p == t.len() - 1 {
        assert forall|i: int| 0 <= i < t.drop_last().len() implies #[trigger] t.drop_last()[i].key@
            != k by {
            assert(t.drop_last()[i] == t[i]);
            lemma_lex_total(t[i].key@, t[p].key@);
        }
        lemma_indicator_absent(t.drop_last(), k);
    } else {
        lemma_lex_total(t.last().key@, k);
        assert(lex_lt(t[p].key@, t[t.len() - 1].key@));
        lemma_indicator_entry(t.drop_last(), p);
    }
}

/// The indicator of a key that is no key of the table picks nothing.
pub proof fn lemma_indicator_absent(t: Seq<KeySum>, k: Seq<usize>)
    requires
        forall|i: int| 0 <= i < t.len() ==> #[trigger] t[i].key@ != k,
    ensures
        weighted(t, indicator(k)) == 0,
    decreases t.len(),
{
    if t.len() > 0 {
        assert(t[t.len() - 1].key@ != k);
        assert forall|i: int| 0 <= i < t.drop_last().len() implies #[trigger] t.drop_last()[i].key@
            != k by {
            assert(t.drop_last()[i] == t[i]);
        }
        lemma_indicator_absent(t.drop_last(), k);
    }
}

/// The weight that is 1 on `key` and 0 elsewhere.
pub open spec fn indicator(key: Seq<usize>) -> spec_fn(Seq<usize>) -> int {
    |q: Seq<usize>|
        if q == key {
            1int
        } else {
            0int
        }
}

} // verus!
