//! The monomial basis of a moment relaxation: parts of the terms and of unions
//! of overlapping terms, up to a number of monomials.

use crate::lists;
use crate::moments;
use crate::sets;
use vstd::prelude::*;

verus! {

/// All parts of a list with some number of variables.
pub struct Batch {
    pub data: Seq<usize>,
    pub size: nat,
}

/// `s` is one of the parts.
pub open spec fn in_batches(bs: Seq<Batch>, s: Seq<usize>) -> bool {
    exists|b: int| 0 <= b < bs.len() && moments::is_part_of((#[trigger] bs[b]).data, bs[b].size, s)
}

/// The parts with `from` to `to` variables.
pub open spec fn size_batches(data: Seq<usize>, from: nat, to: nat) -> Seq<Batch>
    decreases to,
{
    if to < from || to == 0 {
        Seq::empty()
    } else {
        size_batches(data, from, (to - 1) as nat).push(Batch { data, size: to })
    }
}

/// The smaller of two numbers.
pub open spec fn least(a: nat, b: nat) -> nat {
    if a < b {
        a
    } else {
        b
    }
}

/// The parts of the first `t` terms with at most `d` variables.
pub open spec fn direct_batches(terms: Seq<Vec<usize>>, d: nat, t: nat) -> Seq<Batch>
    decreases t,
{
    if t == 0 {
        Seq::empty()
    } else {
        direct_batches(terms, d, (t - 1) as nat) + size_batches(
            terms[t - 1]@,
            1,
            least(d, terms[t - 1]@.len()),
        )
    }
}

/// The variables of two lists, ascending.
pub open spec fn union_of(a: Seq<usize>, b: Seq<usize>) -> Seq<usize> {
    choose|u: Seq<usize>| is_union(a, b, u)
}

/// `u` has the variables of both lists, ascending.
pub open spec fn is_union(a: Seq<usize>, b: Seq<usize>, u: Seq<usize>) -> bool {
    &&& sets::ascending(u)
    &&& forall|v: usize| #[trigger] u.contains(v) == (a.contains(v) || b.contains(v))
}

/// Two lists have one union.
pub proof fn lemma_union_of(a: Seq<usize>, b: Seq<usize>, u: Seq<usize>)
    requires
        is_union(a, b, u),
    ensures
        union_of(a, b) == u,
{
    let w = union_of(a, b);
    assert forall|v: usize| w.contains(v) == u.contains(v) by {
        assert(w.contains(v) == (a.contains(v) || b.contains(v)));
    }
    sets::lemma_ascending_unique(w, u);
}

/// The parts of the union of term `i` with each overlapping term before `j`.
pub open spec fn row_batches(terms: Seq<Vec<usize>>, d: nat, i: int, j: nat) -> Seq<Batch>
    decreases j,
{
    if j == 0 || j <= i + 1 {
        Seq::empty()
    } else {
        row_batches(terms, d, i, (j - 1) as nat) + (if moments::share_variable(
            terms[i]@,
            terms[j - 1]@,
        ) {
            size_batches(
                union_of(terms[i]@, terms[j - 1]@),
                2,
                least(d, union_of(terms[i]@, terms[j - 1]@).len()),
            )
        } else {
            Seq::empty()
        })
    }
}

/// The parts of the unions of the first `t` terms with later overlapping terms.
pub open spec fn pair_batches(terms: Seq<Vec<usize>>, d: nat, t: nat) -> Seq<Batch>
    decreases t,
{
    if t == 0 {
        Seq::empty()
    } else {
        pair_batches(terms, d, (t - 1) as nat) + row_batches(terms, d, t - 1, terms.len())
    }
}

/// The lists are the constant and the parts, in order.
pub open spec fn represents(bs: Seq<Batch>, basis: Seq<Vec<usize>>) -> bool {
    &&& lists::in_list_order(true, basis)
    &&& forall|s: Seq<usize>| #[trigger]
        lists::has_list(basis, s) == (s.len() == 0 || in_batches(bs, s))
}

/// There are fewer than `cap` monomials.
pub open spec fn is_below(bs: Seq<Batch>, cap: nat) -> bool {
    exists|basis: Seq<Vec<usize>>| #[trigger] represents(bs, basis) && basis.len() < cap
}

/// There are at least `cap` monomials.
pub open spec fn is_full(bs: Seq<Batch>, cap: nat) -> bool {
    exists|basis: Seq<Vec<usize>>| #[trigger] represents(bs, basis) && basis.len() >= cap
}

/// `done` are the batches taken in order from `all`, on top of `base`, until
/// there are at least `cap` monomials.
pub open spec fn is_capped(base: Seq<Batch>, all: Seq<Batch>, cap: nat, done: Seq<Batch>) -> bool {
    &&& done.len() <= all.len()
    &&& done == all.take(done.len() as int)
    &&& forall|j: int| 0 < j < done.len() ==> #[trigger] is_below(base + done.take(j), cap)
    &&& done.len() == all.len() || (done.len() > 0 && is_full(base + done, cap))
}

/// `basis` is the basis of the terms at level `d`: the parts of single terms
/// with at most `d` variables, and from level two on, where there is room and
/// there are not too many terms, parts of the unions of overlapping terms.
pub open spec fn is_basis(
    terms: Seq<Vec<usize>>,
    d: nat,
    cap: nat,
    basis: Seq<Vec<usize>>,
) -> bool {
    exists|direct: Seq<Batch>, pairs: Seq<Batch>| #[trigger]
        is_basis_by(terms, d, cap, direct, pairs, basis)
}

/// The basis from the given batches.
pub open spec fn is_basis_by(
    terms: Seq<Vec<usize>>,
    d: nat,
    cap: nat,
    direct: Seq<Batch>,
    pairs: Seq<Batch>,
    basis: Seq<Vec<usize>>,
) -> bool {
    &&& is_capped(Seq::empty(), direct_batches(terms, d, terms.len()), cap, direct)
    &&& if d >= 2 && is_below(direct, cap) && terms.len() <= moments::MAX_TERMS_FOR_ENRICHMENT {
        is_capped(direct, pair_batches(terms, d, terms.len()), cap, pairs)
    } else {
        pairs.len() == 0
    }
    &&& represents(direct + pairs, basis)
}

proof fn lemma_in_batches_push(bs: Seq<Batch>, b: Batch, s: Seq<usize>)
    ensures
        in_batches(bs.push(b), s) == (in_batches(bs, s) || moments::is_part_of(b.data, b.size, s)),
{
    let c = bs.push(b);
    if in_batches(bs, s) {
        let i = choose|i: int|
            0 <= i < bs.len() && moments::is_part_of((#[trigger] bs[i]).data, bs[i].size, s);
        assert(c[i] == bs[i]);
    }
    if moments::is_part_of(b.data, b.size, s) {
        assert(c[bs.len() as int] == b);
    }
    if in_batches(c, s) {
        let i = choose|i: int|
            0 <= i < c.len() && moments::is_part_of((#[trigger] c[i]).data, c[i].size, s);
        if i < bs.len() {
            assert(bs[i] == c[i]);
        }
    }
}

/// One representation only: the number of monomials is fixed.
proof fn lemma_represents_unique(bs: Seq<Batch>, a: Seq<Vec<usize>>, b: Seq<Vec<usize>>)
    requires
        represents(bs, a),
        represents(bs, b),
    ensures
        a.len() == b.len(),
{
    lemma_same_lists(a, b);
}

proof fn lemma_same_lists(a: Seq<Vec<usize>>, b: Seq<Vec<usize>>)
    requires
        lists::in_list_order(true, a),
        lists::in_list_order(true, b),
        forall|s: Seq<usize>| #[trigger] lists::has_list(a, s) == lists::has_list(b, s),
    ensures
        a.len() == b.len(),
    decreases a.len(),
{
    if a.len() == 0 {
        if b.len() > 0 {
            assert(lists::has_list(b, b[0]@));
            assert(lists::has_list(a, b[0]@));
        }
    } else if b.len() == 0 {
        assert(lists::has_list(a, a[0]@));
        assert(lists::has_list(b, a[0]@));
    } else {
        let x = a.last()@;
        let y = b.last()@;
        let ka = a.len() - 1;
        let kb = b.len() - 1;
        assert(a[ka]@ == x && b[kb]@ == y);
        assert(x == y) by {
            assert(lists::has_list(b, x)) by {
                assert(lists::has_list(a, x));
            }
            assert(lists::has_list(a, y)) by {
                assert(lists::has_list(b, y));
            }
            let i = choose|i: int| 0 <= i < b.len() && (#[trigger] b[i])@ == x;
            let j = choose|j: int| 0 <= j < a.len() && (#[trigger] a[j])@ == y;
            if i < kb && j < ka {
                assert(lists::comes_before(true, b[i]@, b[kb]@));
                assert(lists::comes_before(true, a[j]@, a[ka]@));
                lists::lemma_order_total(true, x, y);
            }
        }
        let a1 = a.drop_last();
        let b1 = b.drop_last();
        assert(lists::in_list_order(true, a1)) by {
            assert forall|i: int, j: int| 0 <= i < j < a1.len() implies lists::comes_before(
                true,
                (#[trigger] a1[i])@,
                (#[trigger] a1[j])@,
            ) by {
                assert(a[i] == a1[i] && a[j] == a1[j]);
            }
        }
        assert(lists::in_list_order(true, b1)) by {
            assert forall|i: int, j: int| 0 <= i < j < b1.len() implies lists::comes_before(
                true,
                (#[trigger] b1[i])@,
                (#[trigger] b1[j])@,
            ) by {
                assert(b[i] == b1[i] && b[j] == b1[j]);
            }
        }
        lemma_drop_last_list(a);
        lemma_drop_last_list(b);
        assert forall|s: Seq<usize>| #[trigger] lists::has_list(a1, s) == lists::has_list(b1, s) by {
            assert(lists::has_list(a, s) == lists::has_list(b, s));
        }
        lemma_same_lists(a1, b1);
    }
}

proof fn lemma_drop_last_list(a: Seq<Vec<usize>>)
    requires
        a.len() > 0,
        lists::in_list_order(true, a),
    ensures
        forall|s: Seq<usize>| #[trigger]
            lists::has_list(a.drop_last(), s) == (lists::has_list(a, s) && s != a.last()@),
{
    let a1 = a.drop_last();
    let k = a.len() - 1;
    assert forall|s: Seq<usize>| #[trigger] lists::has_list(a1, s) == (lists::has_list(a, s) && s
        != a.last()@) by {
        if lists::has_list(a1, s) {
            let i = choose|i: int| 0 <= i < a1.len() && (#[trigger] a1[i])@ == s;
            assert(a[i] == a1[i]);
            assert(lists::comes_before(true, a[i]@, a[k]@));
            lists::lemma_order_total(true, a[i]@, a[k]@);
        }
        if lists::has_list(a, s) && s != a.last()@ {
            let i = choose|i: int| 0 <= i < a.len() && (#[trigger] a[i])@ == s;
            assert(a1[i] == a[i]);
        }
    }
}

/// A prefix of the first part is a prefix of the whole.
proof fn lemma_take_append(a: Seq<Batch>, b: Seq<Batch>, k: int)
    requires
        0 <= k <= a.len(),
    ensures
        (a + b).take(k) == a.take(k),
{
    assert((a + b).take(k) =~= a.take(k));
}

proof fn lemma_size_batches_prefix(data: Seq<usize>, from: nat, k: nat, to: nat)
    requires
        k <= to,
    ensures
        size_batches(data, from, k).len() <= size_batches(data, from, to).len(),
        size_batches(data, from, to).take(size_batches(data, from, k).len() as int)
            == size_batches(data, from, k),
    decreases to,
{
    let a = size_batches(data, from, k);
    if k == to {
        assert(a.take(a.len() as int) =~= a);
    } else {
        lemma_size_batches_prefix(data, from, k, (to - 1) as nat);
        let b = size_batches(data, from, (to - 1) as nat);
        let c = size_batches(data, from, to);
        if to >= from {
            assert(c.take(a.len() as int) =~= b.take(a.len() as int));
        } else {
            assert(c =~= b) by {
                lemma_size_batches_empty(data, from, (to - 1) as nat);
            }
        }
    }
}

proof fn lemma_size_batches_empty(data: Seq<usize>, from: nat, to: nat)
    requires
        to < from,
    ensures
        size_batches(data, from, to).len() == 0,
{
}

proof fn lemma_direct_prefix(terms: Seq<Vec<usize>>, d: nat, k: nat, t: nat)
    requires
        k <= t <= terms.len(),
    ensures
        direct_batches(terms, d, k).len() <= direct_batches(terms, d, t).len(),
        direct_batches(terms, d, t).take(direct_batches(terms, d, k).len() as int)
            == direct_batches(terms, d, k),
    decreases t,
{
    let a = direct_batches(terms, d, k);
    if k == t {
        assert(a.take(a.len() as int) =~= a);
    } else {
        lemma_direct_prefix(terms, d, k, (t - 1) as nat);
        lemma_take_append(
            direct_batches(terms, d, (t - 1) as nat),
            size_batches(terms[t - 1]@, 1, least(d, terms[t - 1]@.len())),
            a.len() as int,
        );
    }
}

proof fn lemma_row_prefix(terms: Seq<Vec<usize>>, d: nat, i: int, k: nat, j: nat)
    requires
        0 <= i,
        i + 1 <= k <= j,
    ensures
        row_batches(terms, d, i, k).len() <= row_batches(terms, d, i, j).len(),
        row_batches(terms, d, i, j).take(row_batches(terms, d, i, k).len() as int) == row_batches(
            terms,
            d,
            i,
            k,
        ),
    decreases j,
{
    let a = row_batches(terms, d, i, k);
    if k == j {
        assert(a.take(a.len() as int) =~= a);
    } else {
        lemma_row_prefix(terms, d, i, k, (j - 1) as nat);
        let b = row_batches(terms, d, i, (j - 1) as nat);
        let c = row_batches(terms, d, i, j);
        assert(c.take(a.len() as int) =~= b.take(a.len() as int));
    }
}

proof fn lemma_pair_prefix(terms: Seq<Vec<usize>>, d: nat, k: nat, t: nat)
    requires
        k <= t <= terms.len(),
    ensures
        pair_batches(terms, d, k).len() <= pair_batches(terms, d, t).len(),
        pair_batches(terms, d, t).take(pair_batches(terms, d, k).len() as int) == pair_batches(
            terms,
            d,
            k,
        ),
    decreases t,
{
    let a = pair_batches(terms, d, k);
    if k == t {
        assert(a.take(a.len() as int) =~= a);
    } else {
        lemma_pair_prefix(terms, d, k, (t - 1) as nat);
        lemma_take_append(
            pair_batches(terms, d, (t - 1) as nat),
            row_batches(terms, d, t - 1, terms.len()),
            a.len() as int,
        );
    }
}

/// The batches so far, none of which filled the basis.
spec fn is_open(
    base: Seq<Batch>,
    cap: nat,
    done: Seq<Batch>,
    basis: Seq<Vec<usize>>,
) -> bool {
    &&& represents(base + done, basis)
    &&& forall|j: int| 0 < j <= done.len() ==> #[trigger] is_below(base + done.take(j), cap)
}

/// Add the parts with `from` to `to` variables; whether the basis is full. The
/// batches taken are returned as a number of sizes.
fn add_sizes(
    data: &[usize],
    from: usize,
    to: usize,
    cap: usize,
    basis: &mut Vec<Vec<usize>>,
    Ghost(base): Ghost<Seq<Batch>>,
    Ghost(done): Ghost<Seq<Batch>>,
) -> (r: (bool, Ghost<Seq<Batch>>))
    requires
        from >= 1,
        sets::ascending(data@),
        is_open(base, cap as nat, done, old(basis)@),
    ensures
        r.1@.len() <= size_batches(data@, from as nat, to as nat).len(),
        r.1@ == size_batches(data@, from as nat, to as nat).take(r.1@.len() as int),
        !r.0 ==> r.1@ == size_batches(data@, from as nat, to as nat) && is_open(
            base,
            cap as nat,
            done + r.1@,
            final(basis)@,
        ),
        r.0 ==> r.1@.len() > 0 && final(basis)@.len() >= cap && represents(
            base + (done + r.1@),
            final(basis)@,
        ) && forall|j: int|
            0 < j < (done + r.1@).len() ==> #[trigger] is_below(
                base + (done + r.1@).take(j),
                cap as nat,
            ),
{
    let ghost mut taken: Seq<Batch> = Seq::empty();
    let mut size: usize = from;
    proof {
        assert(done + taken =~= done);
        if from > 0 {
            lemma_size_batches_empty(data@, from as nat, (from - 1) as nat);
        }
        assert(taken =~= size_batches(data@, from as nat, (from - 1) as nat));
    }
    while size <= to
        invariant
            from >= 1,
            from <= size,
            size <= to || size == from || size == to + 1,
            sets::ascending(data@),
            taken == size_batches(data@, from as nat, (size - 1) as nat),
            is_open(base, cap as nat, done + taken, basis@),
        decreases to + 1 - size,
    {
        let ghost basis0 = basis@;
        let ghost b = Batch { data: data@, size: size as nat };
        let ghost prev = done + taken;
        moments::subsets_of_size_from_slice(data, size, basis);
        proof {
            let next = prev.push(b);
            assert(base + next =~= (base + prev).push(b));
            assert forall|s: Seq<usize>| #[trigger] lists::has_list(basis@, s) == (s.len() == 0
                || in_batches(base + next, s)) by {
                lemma_in_batches_push(base + prev, b, s);
                assert(lists::has_list(basis0, s) == (s.len() == 0 || in_batches(base + prev, s)));
            }
            assert(represents(base + next, basis@));
            taken = taken.push(b);
            assert(done + taken =~= next);
            assert forall|j: int| 0 < j < next.len() implies #[trigger] is_below(
                base + next.take(j),
                cap as nat,
            ) by {
                assert(next.take(j) =~= prev.take(j));
                assert(is_below(base + prev.take(j), cap as nat));
            }
            lemma_size_batches_prefix(data@, from as nat, size as nat, to as nat);
        }
        if basis.len() >= cap {
            return (true, Ghost(taken));
        }
        proof {
            let next = done + taken;
            assert(next.take(next.len() as int) =~= next);
            assert(is_below(base + next.take(next.len() as int), cap as nat));
        }
        if size == to {
            assert(taken =~= size_batches(data@, from as nat, to as nat));
            assert(taken.take(taken.len() as int) =~= taken);
            return (false, Ghost(taken));
        }
        size += 1;
    }
    proof {
        if to < from {
            lemma_size_batches_empty(data@, from as nat, to as nat);
            assert(taken =~= size_batches(data@, from as nat, to as nat));
        }
        assert(taken.take(taken.len() as int) =~= taken);
    }
    (false, Ghost(taken))
}

/// The smaller of two numbers.
fn smaller(a: usize, b: usize) -> (r: usize)
    ensures
        r == least(a as nat, b as nat),
{
    if a < b {
        a
    } else {
        b
    }
}

/// The terms are ascending lists.
pub open spec fn are_lists(terms: Seq<Vec<usize>>) -> bool {
    forall|i: int| 0 <= i < terms.len() ==> sets::ascending((#[trigger] terms[i])@)
}

/// The parts of single terms.
fn add_direct(terms: &Vec<Vec<usize>>, d: usize, cap: usize, basis: &mut Vec<Vec<usize>>) -> (r: Ghost<
    Seq<Batch>,
>)
    requires
        are_lists(terms@),
        represents(Seq::empty(), old(basis)@),
    ensures
        is_capped(
            Seq::empty(),
            direct_batches(terms@, d as nat, terms@.len()),
            cap as nat,
            r@,
        ),
        represents(r@, final(basis)@),
{
    let ghost base = Seq::<Batch>::empty();
    let ghost all = direct_batches(terms@, d as nat, terms@.len());
    let ghost mut done: Seq<Batch> = Seq::empty();
    let mut t: usize = 0;
    assert(base + done =~= Seq::empty());
    while t < terms.len()
        invariant
            t <= terms@.len(),
            are_lists(terms@),
            base == Seq::<Batch>::empty(),
            all == direct_batches(terms@, d as nat, terms@.len()),
            done == direct_batches(terms@, d as nat, t as nat),
            is_open(base, cap as nat, done, basis@),
        decreases terms@.len() - t,
    {
        assert(sets::ascending(terms@[t as int]@));
        let to: usize = smaller(d, terms[t].len());
        let (full, Ghost(taken)) = add_sizes(
            terms[t].as_slice(),
            1,
            to,
            cap,
            basis,
            Ghost(base),
            Ghost(done),
        );
        proof {
            lemma_direct_prefix(terms@, d as nat, (t + 1) as nat, terms@.len());
            let part = size_batches(terms@[t as int]@, 1, to as nat);
            let next = done + taken;
            let upto = direct_batches(terms@, d as nat, (t + 1) as nat);
            assert(next =~= upto.take(next.len() as int)) by {
                assert(upto == done + part);
                assert forall|i: int| 0 <= i < next.len() implies next[i] == upto[i] by {
                    if i >= done.len() {
                        assert(part.take(taken.len() as int)[i - done.len()] == part[i - done.len()]);
                    }
                }
            }
            assert(next =~= all.take(next.len() as int)) by {
                assert(all.take(upto.len() as int) == upto);
                assert forall|i: int| 0 <= i < next.len() implies next[i] == all[i] by {
                    assert(upto.take(next.len() as int)[i] == upto[i]);
                    assert(all.take(upto.len() as int)[i] == all[i]);
                }
            }
            done = next;
            assert(base + done =~= done);
        }
        if full {
            assert(is_full(base + done, cap as nat));
            return Ghost(done);
        }
        t += 1;
    }
    proof {
        assert(base + done =~= done);
        assert(done.take(done.len() as int) =~= done);
    }
    Ghost(done)
}

/// The parts of unions of overlapping terms.
fn add_pairs(
    terms: &Vec<Vec<usize>>,
    d: usize,
    cap: usize,
    basis: &mut Vec<Vec<usize>>,
    Ghost(base): Ghost<Seq<Batch>>,
) -> (r: Ghost<Seq<Batch>>)
    requires
        are_lists(terms@),
        represents(base, old(basis)@),
    ensures
        is_capped(base, pair_batches(terms@, d as nat, terms@.len()), cap as nat, r@),
        represents(base + r@, final(basis)@),
{
    let n: usize = terms.len();
    let ghost all = pair_batches(terms@, d as nat, terms@.len());
    let ghost mut done: Seq<Batch> = Seq::empty();
    let mut i: usize = 0;
    assert(base + done =~= base);
    while i < n
        invariant
            i <= n,
            n == terms@.len(),
            are_lists(terms@),
            all == pair_batches(terms@, d as nat, terms@.len()),
            done == pair_batches(terms@, d as nat, i as nat),
            is_open(base, cap as nat, done, basis@),
        decreases n - i,
    {
        let ghost before = done;
        let mut j: usize = i + 1;
        proof {
            assert(done =~= before + row_batches(terms@, d as nat, i as int, j as nat));
            lemma_pair_prefix(terms@, d as nat, (i + 1) as nat, terms@.len());
        }
        while j < n
            invariant
                i < j <= n,
                n == terms@.len(),
                are_lists(terms@),
                all == pair_batches(terms@, d as nat, terms@.len()),
                before == pair_batches(terms@, d as nat, i as nat),
                done == before + row_batches(terms@, d as nat, i as int, j as nat),
                is_open(base, cap as nat, done, basis@),
                all.take(pair_batches(terms@, d as nat, (i + 1) as nat).len() as int)
                    == pair_batches(terms@, d as nat, (i + 1) as nat),
                pair_batches(terms@, d as nat, (i + 1) as nat).len() <= all.len(),
            decreases n - j,
        {
            assert(sets::ascending(terms@[i as int]@) && sets::ascending(terms@[j as int]@));
            let ghost row = row_batches(terms@, d as nat, i as int, j as nat);
            let ghost row2 = row_batches(terms@, d as nat, i as int, (j + 1) as nat);
            if moments::terms_share_variable(terms[i].as_slice(), terms[j].as_slice()) {
                let union = sets::sorted_union(terms[i].as_slice(), terms[j].as_slice());
                proof {
                    lemma_union_of(terms@[i as int]@, terms@[j as int]@, union@);
                }
                let to: usize = smaller(d, union.len());
                let (full, Ghost(taken)) = add_sizes(
                    union.as_slice(),
                    2,
                    to,
                    cap,
                    basis,
                    Ghost(base),
                    Ghost(done),
                );
                proof {
                    let part = size_batches(union@, 2, to as nat);
                    let next = done + taken;
                    let upto = pair_batches(terms@, d as nat, (i + 1) as nat);
                    lemma_row_prefix(terms@, d as nat, i as int, (j + 1) as nat, n as nat);
                    let full_row = row_batches(terms@, d as nat, i as int, n as nat);
                    assert(row2 == row + part);
                    assert(next =~= all.take(next.len() as int)) by {
                        assert forall|q: int| 0 <= q < next.len() implies next[q] == all[q] by {
                            assert(all.take(upto.len() as int)[q] == all[q]);
                            assert(upto == before + full_row);
                            if q >= before.len() {
                                let p = q - before.len();
                                assert(full_row.take(row2.len() as int)[p] == full_row[p]);
                                if p >= row.len() {
                                    assert(part.take(taken.len() as int)[p - row.len()]
                                        == part[p - row.len()]);
                                }
                            }
                        }
                    }
                    done = next;
                }
                if full {
                    assert(is_full(base + done, cap as nat));
                    return Ghost(done);
                }
                assert(done =~= before + row2);
            } else {
                assert(row2 =~= row);
            }
            j += 1;
        }
        proof {
            assert(done =~= pair_batches(terms@, d as nat, (i + 1) as nat));
        }
        i += 1;
    }
    assert(done.take(done.len() as int) =~= done);
    Ghost(done)
}

/// The basis of the terms at level `d`.
pub fn build_basis(terms: &Vec<Vec<usize>>, d: usize, max_basis: usize) -> (r: Vec<Vec<usize>>)
    requires
        are_lists(terms@),
    ensures
        is_basis(terms@, d as nat, max_basis as nat, r@),
        are_lists(r@),
        lists::in_list_order(true, r@),
        lists::has_list(r@, Seq::empty()),
{
    let mut basis: Vec<Vec<usize>> = Vec::new();
    basis.push(Vec::new());
    proof {
        assert forall|s: Seq<usize>| #[trigger] lists::has_list(basis@, s) == (s.len() == 0
            || in_batches(Seq::empty(), s)) by {
            if s.len() == 0 {
                assert(basis@[0]@ =~= s);
            }
        }
    }
    let Ghost(direct) = add_direct(terms, d, max_basis, &mut basis);
    let ghost mut pairs: Seq<Batch> = Seq::empty();
    let ghost basis1 = basis@;
    assert(direct + pairs =~= direct);
    if d >= 2 && basis.len() < max_basis && terms.len() <= moments::MAX_TERMS_FOR_ENRICHMENT {
        assert(is_below(direct, max_basis as nat));
        let Ghost(p) = add_pairs(terms, d, max_basis, &mut basis, Ghost(direct));
        proof {
            pairs = p;
        }
    } else {
        proof {
            if is_below(direct, max_basis as nat) {
                let b = choose|b: Seq<Vec<usize>>| #[trigger]
                    represents(direct, b) && b.len() < max_basis;
                lemma_represents_unique(direct, b, basis1);
            }
        }
    }
    proof {
        assert(is_basis_by(
            terms@,
            d as nat,
            max_basis as nat,
            direct,
            pairs,
            basis@,
        ));
        assert forall|i: int| 0 <= i < basis@.len() implies sets::ascending(
            (#[trigger] basis@[i])@,
        ) by {
            assert(lists::has_list(basis@, basis@[i]@));
            if basis@[i]@.len() > 0 {
                let bs = direct + pairs;
                let b = choose|b: int|
                    0 <= b < bs.len() && moments::is_part_of(
                        (#[trigger] bs[b]).data,
                        bs[b].size,
                        basis@[i]@,
                    );
            }
        }
    }
    basis
}

} // verus!
