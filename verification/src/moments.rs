//! The monomials of a moment relaxation.

use crate::domain::VarType;
use crate::kernelization::f2;
use crate::lists;
use crate::sets;
use vstd::prelude::*;

verus! {

/// Up to this many terms the basis is enriched by unions of overlapping terms.
pub const MAX_TERMS_FOR_ENRICHMENT: usize = 400;

/// The product of two monomials: over bits the union of their variables, over
/// spins the variables of exactly one.
pub open spec fn is_product(vt: VarType, a: Seq<usize>, b: Seq<usize>, r: Seq<usize>) -> bool {
    &&& sets::ascending(r)
    &&& forall|v: usize| #[trigger]
        r.contains(v) == (match vt {
            VarType::Bin => a.contains(v) || b.contains(v),
            VarType::Spin => a.contains(v) != b.contains(v),
        })
}

/// The product of two monomials.
pub fn combine_sets(a: &Vec<usize>, b: &Vec<usize>, var_type: VarType) -> (r: Vec<usize>)
    requires
        sets::ascending(a@),
        sets::ascending(b@),
    ensures
        is_product(var_type, a@, b@, r@),
{
    match var_type {
        VarType::Bin => sets::sorted_union(a.as_slice(), b.as_slice()),
        VarType::Spin => f2::sym_diff(a, b),
    }
}

/// Some variable is in both lists.
pub open spec fn share_variable(a: Seq<usize>, b: Seq<usize>) -> bool {
    exists|v: usize| #[trigger] a.contains(v) && b.contains(v)
}

/// Whether two ascending lists share a variable.
pub fn terms_share_variable(a: &[usize], b: &[usize]) -> (r: bool)
    requires
        sets::ascending(a@),
        sets::ascending(b@),
    ensures
        r == share_variable(a@, b@),
{
    let mut i: usize = 0;
    let mut j: usize = 0;
    while i < a.len() && j < b.len()
        invariant
            i <= a@.len(),
            j <= b@.len(),
            sets::ascending(a@),
            sets::ascending(b@),
            forall|p: int, q: int|
                0 <= p < a@.len() && 0 <= q < b@.len() && (p < i || q < j) ==> a@[p] != b@[q],
        decreases a@.len() - i + b@.len() - j,
    {
        if a[i] == b[j] {
            assert(a@.contains(a@[i as int]) && b@.contains(a@[i as int]));
            return true;
        } else if a[i] < b[j] {
            proof {
                assert forall|p: int, q: int|
                    0 <= p < a@.len() && 0 <= q < b@.len() && (p < i + 1 || q < j) implies a@[p]
                    != b@[q] by {
                    if p == i && q >= j {
                        assert(q == j || b@[j as int] < b@[q]);
                    }
                }
            }
            i += 1;
        } else {
            proof {
                assert forall|p: int, q: int|
                    0 <= p < a@.len() && 0 <= q < b@.len() && (p < i || q < j + 1) implies a@[p]
                    != b@[q] by {
                    if q == j && p >= i {
                        assert(p == i || a@[i as int] < a@[p]);
                    }
                }
            }
            j += 1;
        }
    }
    proof {
        if share_variable(a@, b@) {
            let v = choose|v: usize| #[trigger] a@.contains(v) && b@.contains(v);
            let p = choose|p: int| 0 <= p < a@.len() && a@[p] == v;
            let q = choose|q: int| 0 <= q < b@.len() && b@[q] == v;
            assert(a@[p] != b@[q]);
        }
    }
    false
}

/// `s` has `size` variables, all of `data`.
pub open spec fn is_part_of(data: Seq<usize>, size: nat, s: Seq<usize>) -> bool {
    &&& s.len() == size
    &&& sets::ascending(s)
    &&& forall|i: int| 0 <= i < s.len() ==> data.contains(#[trigger] s[i])
}

/// `s` has `size` variables: those of `current`, then some of `data` from `start`
/// on.
spec fn is_extension(
    data: Seq<usize>,
    size: nat,
    start: int,
    current: Seq<usize>,
    s: Seq<usize>,
) -> bool {
    &&& s.len() == size
    &&& sets::ascending(s)
    &&& current.len() <= s.len()
    &&& s.take(current.len() as int) == current
    &&& forall|i: int|
        current.len() <= i < s.len() ==> data.skip(start).contains(#[trigger] s[i])
}

proof fn lemma_split_extension(
    data: Seq<usize>,
    size: nat,
    i: int,
    current: Seq<usize>,
    s: Seq<usize>,
)
    requires
        sets::ascending(data),
        0 <= i < data.len(),
        current.len() < size,
    ensures
        is_extension(data, size, i, current, s) == (is_extension(
            data,
            size,
            i + 1,
            current.push(data[i]),
            s,
        ) || is_extension(data, size, i + 1, current, s)),
{
    let d0 = data.skip(i);
    let d1 = data.skip(i + 1);
    let c = current.len() as int;
    let c2 = current.push(data[i]);
    assert forall|v: usize| d0.contains(v) == (v == data[i] || d1.contains(
        v,
    )) by {
        if d0.contains(v) {
            let k = choose|k: int| 0 <= k < d0.len() && d0[k] == v;
            if k > 0 {
                assert(d1[k - 1] == v);
            }
        }
        if d1.contains(v) {
            let k = choose|k: int| 0 <= k < d1.len() && d1[k] == v;
            assert(d0[k + 1] == v);
        }
        if v == data[i] {
            assert(d0[0] == v);
        }
    }
    assert forall|v: usize| d1.contains(v) implies v > data[i] by {
        let k = choose|k: int| 0 <= k < d1.len() && d1[k] == v;
        assert(data[i] < data[i + 1 + k]);
    }
    if is_extension(data, size, i, current, s) {
        assert(d0.contains(s[c]));
        if s[c] == data[i] {
            assert(s.take(c + 1) =~= c2) by {
                assert(s.take(c + 1).take(c) =~= s.take(c));
            }
            assert forall|k: int| c2.len() <= k < s.len() implies d1.contains(
                #[trigger] s[k],
            ) by {
                assert(s[c] < s[k]);
                assert(d0.contains(s[k]));
            }
        } else {
            assert forall|k: int| c <= k < s.len() implies d1.contains(
                #[trigger] s[k],
            ) by {
                assert(k == c || s[c] < s[k]);
                assert(d0.contains(s[k]));
                assert(d1.contains(s[c]));
            }
        }
    }
    if is_extension(data, size, i + 1, c2, s) {
        assert(s.take(c + 1)[c] == data[i]);
        assert(s.take(c) =~= s.take(c + 1).take(c));
        assert(c2.take(c) =~= current);
        assert forall|k: int| c <= k < s.len() implies d0.contains(#[trigger] s[k]) by {
            if k > c {
                assert(d1.contains(s[k]));
            }
        }
    }
    if is_extension(data, size, i + 1, current, s) {
        assert forall|k: int| c <= k < s.len() implies d0.contains(#[trigger] s[k]) by {
            assert(d1.contains(s[k]));
        }
    }
}

/// Too few entries are left for an extension.
proof fn lemma_no_extension(
    data: Seq<usize>,
    size: nat,
    start: int,
    current: Seq<usize>,
    s: Seq<usize>,
)
    requires
        sets::ascending(data),
        0 <= start <= data.len(),
        current.len() < size,
        start + size - current.len() > data.len(),
    ensures
        !is_extension(data, size, start, current, s),
    decreases data.len() - start,
{
    if is_extension(data, size, start, current, s) {
        if start == data.len() {
            assert(data.skip(start).contains(s[current.len() as int]));
        } else {
            lemma_split_extension(data, size, start, current, s);
            if is_extension(data, size, start + 1, current, s) {
                lemma_no_extension(data, size, start + 1, current, s);
            } else {
                let c2 = current.push(data[start]);
                if c2.len() < size {
                    lemma_no_extension(data, size, start + 1, c2, s);
                }
            }
        }
    }
}

/// Of the extensions from `start` on, all but those from `i` on are in the lists.
spec fn is_so_far(
    data: Seq<usize>,
    size: nat,
    start: int,
    i: int,
    current: Seq<usize>,
    before: Seq<Vec<usize>>,
    after: Seq<Vec<usize>>,
    s: Seq<usize>,
) -> bool {
    (lists::has_list(before, s) || is_extension(data, size, start, current, s)) == (lists::has_list(
        after,
        s,
    ) || is_extension(data, size, i, current, s))
}

/// Add the extensions of `current` to the lists.
fn extend_subsets(
    data: &[usize],
    size: usize,
    start: usize,
    current: &mut Vec<usize>,
    out: &mut Vec<Vec<usize>>,
)
    requires
        sets::ascending(data@),
        start <= data@.len(),
        old(current)@.len() <= size,
        sets::ascending(old(current)@),
        forall|i: int, j: int|
            0 <= i < old(current)@.len() && start <= j < data@.len() ==> old(current)@[i] < data@[j],
        lists::in_list_order(true, old(out)@),
    ensures
        final(current)@ == old(current)@,
        lists::in_list_order(true, final(out)@),
        forall|s: Seq<usize>| #[trigger]
            lists::has_list(final(out)@, s) == (lists::has_list(old(out)@, s) || is_extension(
                data@,
                size as nat,
                start as int,
                old(current)@,
                s,
            )),
    decreases data@.len() - start,
{
    let ghost cur0 = current@;
    let ghost out0 = out@;
    if current.len() == size {
        lists::add_list(out, lists::copy_list(current.as_slice()), true);
        proof {
            assert forall|s: Seq<usize>| is_extension(
                data@,
                size as nat,
                start as int,
                cur0,
                s,
            ) == (s == cur0) by {
                if is_extension(data@, size as nat, start as int, cur0, s) {
                    assert(s.take(s.len() as int) =~= s);
                }
                if s == cur0 {
                    assert(s.take(s.len() as int) =~= s);
                }
            }
        }
        return;
    }
    let remain: usize = size - current.len();
    if start > data.len() || remain > data.len() - start {
        proof {
            assert forall|s: Seq<usize>| !is_extension(
                data@,
                size as nat,
                start as int,
                cur0,
                s,
            ) by {
                lemma_no_extension(data@, size as nat, start as int, cur0, s);
            }
        }
        return;
    }
    let mut i: usize = start;
    while i < data.len()
        invariant
            start <= i <= data@.len(),
            sets::ascending(data@),
            current@ == cur0,
            cur0.len() < size,
            sets::ascending(cur0),
            forall|p: int, j: int|
                0 <= p < cur0.len() && start <= j < data@.len() ==> cur0[p] < data@[j],
            lists::in_list_order(true, out@),
            forall|s: Seq<usize>| #[trigger]
                is_so_far(data@, size as nat, start as int, i as int, cur0, out0, out@, s),
            forall|s: Seq<usize>| #[trigger]
                lists::has_list(out@, s) ==> lists::has_list(out0, s) || is_extension(
                    data@,
                    size as nat,
                    start as int,
                    cur0,
                    s,
                ),
        decreases data@.len() - i,
    {
        let ghost out1 = out@;
        let ghost i1 = i + 1;
        current.push(data[i]);
        proof {
            let c2 = current@;
            assert forall|p: int, j: int| 0 <= p < c2.len() && i + 1 <= j < data@.len() implies c2[p]
                < data@[j] by {
                if p == cur0.len() {
                    assert(data@[i as int] < data@[j]);
                }
            }
            assert forall|p: int, q: int| 0 <= p < q < c2.len() implies c2[p] < c2[q] by {
                if q == cur0.len() {
                    assert(cur0[p] < data@[i as int]);
                }
            }
        }
        extend_subsets(data, size, i + 1, current, out);
        let popped = current.pop();
        proof {
            assert(current@ =~= cur0);
            assert forall|s: Seq<usize>| #[trigger]
                is_so_far(data@, size as nat, start as int, i1, cur0, out0, out@, s) by {
                assert(is_so_far(data@, size as nat, start as int, i as int, cur0, out0, out1, s));
                lemma_split_extension(data@, size as nat, i as int, cur0, s);
                assert(lists::has_list(out@, s) == (lists::has_list(out1, s) || is_extension(
                    data@,
                    size as nat,
                    i1,
                    cur0.push(data@[i as int]),
                    s,
                )));
            }
            assert forall|s: Seq<usize>| #[trigger] lists::has_list(out@, s) implies lists::has_list(
                out0,
                s,
            ) || is_extension(data@, size as nat, start as int, cur0, s) by {
                lemma_split_extension(data@, size as nat, i as int, cur0, s);
                assert(lists::has_list(out@, s) == (lists::has_list(out1, s) || is_extension(
                    data@,
                    size as nat,
                    i1,
                    cur0.push(data@[i as int]),
                    s,
                )));
                assert(is_so_far(data@, size as nat, start as int, i as int, cur0, out0, out1, s));
            }
        }
        i += 1;
        assert(i as int == i1);
    }
    proof {
        assert forall|s: Seq<usize>| #[trigger] lists::has_list(out@, s) == (lists::has_list(
            out0,
            s,
        ) || is_extension(data@, size as nat, start as int, cur0, s)) by {
            assert(is_so_far(data@, size as nat, start as int, i as int, cur0, out0, out@, s));
            if is_extension(data@, size as nat, i as int, cur0, s) {
                lemma_no_extension(data@, size as nat, i as int, cur0, s);
            }
        }
    }
}

/// Add all parts of `data` with `size` variables to the lists.
pub fn subsets_of_size_from_slice(data: &[usize], size: usize, out: &mut Vec<Vec<usize>>)
    requires
        sets::ascending(data@),
        lists::in_list_order(true, old(out)@),
    ensures
        lists::in_list_order(true, final(out)@),
        forall|s: Seq<usize>| #[trigger]
            lists::has_list(final(out)@, s) == (lists::has_list(old(out)@, s) || is_part_of(
                data@,
                size as nat,
                s,
            )),
{
    let ghost out0 = out@;
    let mut current: Vec<usize> = Vec::new();
    extend_subsets(data, size, 0, &mut current, out);
    proof {
        assert(data@.skip(0) =~= data@);
        assert forall|s: Seq<usize>| #[trigger] lists::has_list(out@, s) == (lists::has_list(
            out0,
            s,
        ) || is_part_of(data@, size as nat, s)) by {
            assert(s.take(0) =~= Seq::<usize>::empty());
            assert(is_extension(data@, size as nat, 0, Seq::<usize>::empty(), s) == is_part_of(
                data@,
                size as nat,
                s,
            ));
        }
    }
}

} // verus!
