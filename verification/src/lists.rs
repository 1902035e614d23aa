//! Ordered collections of index lists without repetition.

use crate::merge::LexOrder;
use crate::merge;
use vstd::prelude::*;

verus! {

/// The order of lists: lexicographic, or shorter lists first.
pub open spec fn comes_before(by_length: bool, a: Seq<usize>, b: Seq<usize>) -> bool {
    if by_length && a.len() != b.len() {
        a.len() < b.len()
    } else {
        merge::lex_lt(a, b)
    }
}

pub proof fn lemma_order_total(by_length: bool, a: Seq<usize>, b: Seq<usize>)
    ensures
        a == b ==> !comes_before(by_length, a, b),
        a != b ==> (comes_before(by_length, a, b) != comes_before(by_length, b, a)),
{
    merge::lemma_lex_total(a, b);
}

pub proof fn lemma_order_trans(by_length: bool, a: Seq<usize>, b: Seq<usize>, c: Seq<usize>)
    requires
        comes_before(by_length, a, b),
        comes_before(by_length, b, c),
    ensures
        comes_before(by_length, a, c),
{
    if !by_length || (a.len() == b.len() && b.len() == c.len()) {
        merge::lemma_lex_trans(a, b, c);
    }
}

/// Some entry is `p`.
pub open spec fn has_list(lists: Seq<Vec<usize>>, p: Seq<usize>) -> bool {
    exists|i: int| 0 <= i < lists.len() && (#[trigger] lists[i])@ == p
}

/// The lists stand in strict order.
pub open spec fn in_list_order(by_length: bool, lists: Seq<Vec<usize>>) -> bool {
    forall|i: int, j: int|
        0 <= i < j < lists.len() ==> comes_before(
            by_length,
            (#[trigger] lists[i])@,
            (#[trigger] lists[j])@,
        )
}

/// Whether `a` comes before `b`.
pub fn is_before(by_length: bool, a: &Vec<usize>, b: &Vec<usize>) -> (r: bool)
    ensures
        r == comes_before(by_length, a@, b@),
{
    if by_length && a.len() != b.len() {
        a.len() < b.len()
    } else {
        merge::lex_order(a.as_slice(), b.as_slice()) == LexOrder::Before
    }
}

/// Add a list at its place unless it is there.
pub fn add_list(lists: &mut Vec<Vec<usize>>, e: Vec<usize>, by_length: bool)
    requires
        in_list_order(by_length, old(lists)@),
    ensures
        in_list_order(by_length, final(lists)@),
        forall|p: Seq<usize>| #[trigger]
            has_list(final(lists)@, p) == (has_list(old(lists)@, p) || p == e@),
{
    let ghost l0 = lists@;
    let ghost ev = e@;
    let mut p: usize = 0;
    while p < lists.len() && is_before(by_length, &lists[p], &e)
        invariant
            p <= lists@.len(),
            lists@ == l0,
            e@ == ev,
            forall|i: int| 0 <= i < p ==> comes_before(by_length, (#[trigger] l0[i])@, ev),
        decreases lists@.len() - p,
    {
        p += 1;
    }
    if p < lists.len() && !is_before(by_length, &e, &lists[p]) {
        proof {
            lemma_order_total(by_length, l0[p as int]@, ev);
        }
        assert(l0[p as int]@ == ev);
        return;
    }
    lists.insert(p, e);
    proof {
        let r = lists@;
        assert forall|i: int| p <= i < l0.len() implies comes_before(
            by_length,
            ev,
            (#[trigger] l0[i])@,
        ) by {
            if i > p {
                lemma_order_trans(by_length, ev, l0[p as int]@, l0[i]@);
            }
        }
        assert forall|i: int, j: int| 0 <= i < j < r.len() implies comes_before(
            by_length,
            (#[trigger] r[i])@,
            (#[trigger] r[j])@,
        ) by {
            let a = if i < p {
                i
            } else {
                i - 1
            };
            let b = if j < p {
                j
            } else {
                j - 1
            };
            if i != p {
                assert(r[i] == l0[a]);
            }
            if j != p {
                assert(r[j] == l0[b]);
            }
        }
        assert forall|q: Seq<usize>| #[trigger] has_list(r, q) == (has_list(l0, q) || q == ev) by {
            if has_list(l0, q) {
                let i = choose|i: int| 0 <= i < l0.len() && (#[trigger] l0[i])@ == q;
                if i < p {
                    assert(r[i] == l0[i]);
                } else {
                    assert(r[i + 1] == l0[i]);
                }
            }
            if q == ev {
                assert(r[p as int]@ == q);
            }
            if has_list(r, q) && q != ev {
                let i = choose|i: int| 0 <= i < r.len() && (#[trigger] r[i])@ == q;
                if i < p {
                    assert(l0[i] == r[i]);
                } else {
                    assert(l0[i - 1] == r[i]);
                }
            }
        }
    }
}

/// The place of a list.
pub fn find_list(lists: &Vec<Vec<usize>>, e: &Vec<usize>) -> (r: Option<usize>)
    ensures
        r matches Some(k) ==> k < lists@.len() && lists@[k as int]@ == e@,
        r is None ==> !has_list(lists@, e@),
{
    let mut i: usize = 0;
    while i < lists.len()
        invariant
            i <= lists@.len(),
            forall|j: int| 0 <= j < i ==> (#[trigger] lists@[j])@ != e@,
        decreases lists@.len() - i,
    {
        if merge::lex_order(lists[i].as_slice(), e.as_slice()) == LexOrder::Same {
            return Some(i);
        }
        i += 1;
    }
    None
}

/// A copy of a list.
pub fn copy_list(s: &[usize]) -> (r: Vec<usize>)
    ensures
        r@ == s@,
{
    let mut r: Vec<usize> = Vec::new();
    let mut i: usize = 0;
    while i < s.len()
        invariant
            i <= s@.len(),
            r@ == s@.take(i as int),
        decreases s@.len() - i,
    {
        r.push(s[i]);
        i += 1;
        assert(r@ =~= s@.take(i as int));
    }
    assert(s@.take(i as int) =~= s@);
    r
}

} // verus!
