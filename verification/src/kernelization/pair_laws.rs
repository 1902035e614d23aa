//! Which pairs are found, stated on the coefficients of their terms.

use crate::kernelization::coupling::{ConditionalCoupling, ConditionalCouplingKind};
use crate::kernelization::coupling;
use crate::sets;
use vstd::prelude::*;

verus! {

/// The sum of `f` over those of the first `k` items that list both variables.
pub open spec fn both_sum(
    parts: spec_fn(int) -> Option<(int, Seq<usize>)>,
    i: usize,
    j: usize,
    f: spec_fn(int, nat) -> int,
    k: nat,
) -> int
    decreases k,
{
    if k == 0 {
        0
    } else {
        both_sum(parts, i, j, f, (k - 1) as nat) + (match parts(k - 1) {
            Some((c, vars)) => if vars.contains(i) && vars.contains(j) {
                f(c, vars.len())
            } else {
                0
            },
            None => 0,
        })
    }
}

/// The coefficient of the pair alone.
pub open spec fn pair_alone(
    parts: spec_fn(int) -> Option<(int, Seq<usize>)>,
    i: usize,
    j: usize,
    k: nat,
) -> int {
    both_sum(
        parts,
        i,
        j,
        |c: int, degree: nat|
            if degree == 2 {
                c
            } else {
                0
            },
        k,
    )
}

/// The sizes of the coefficients of the pair together with other variables.
pub open spec fn pair_shared(
    parts: spec_fn(int) -> Option<(int, Seq<usize>)>,
    i: usize,
    j: usize,
    k: nat,
) -> int {
    both_sum(
        parts,
        i,
        j,
        |c: int, degree: nat|
            if degree == 2 {
                0
            } else if c < 0 {
                -c
            } else {
                c
            },
        k,
    )
}

/// Some item lists `i` and not `j`.
pub open spec fn occurs_without(
    parts: spec_fn(int) -> Option<(int, Seq<usize>)>,
    i: usize,
    j: usize,
    k: nat,
) -> bool {
    exists|t: int|
        0 <= t < k && (#[trigger] parts(t) matches Some((c, vars)) && vars.contains(i)
            && !vars.contains(j))
}

proof fn lemma_pair_range(
    parts: spec_fn(int) -> Option<(int, Seq<usize>)>,
    i: usize,
    j: usize,
    k: nat,
)
    ensures
        coupling::pair_low(parts, i, j, k) == pair_alone(parts, i, j, k) - pair_shared(
            parts,
            i,
            j,
            k,
        ),
        coupling::pair_high(parts, i, j, k) == pair_alone(parts, i, j, k) + pair_shared(
            parts,
            i,
            j,
            k,
        ),
        0 <= pair_shared(parts, i, j, k),
        pair_alone(parts, i, j, k) != 0 || pair_shared(parts, i, j, k) != 0
            ==> coupling::any_item_has(parts, i, j, true, true, k),
    decreases k,
{
    if k > 0 {
        lemma_pair_range(parts, i, j, (k - 1) as nat);
        if coupling::any_item_has(parts, i, j, true, true, (k - 1) as nat) {
            let t = choose|t: int|
                0 <= t < k - 1 && #[trigger] coupling::item_has(parts, t, i, j, true, true);
            assert(coupling::item_has(parts, t, i, j, true, true));
        }
        assert(coupling::item_has(parts, k - 1, i, j, true, true) == (match parts(k - 1) {
            Some((c, vars)) => vars.contains(i) && vars.contains(j),
            None => false,
        }));
    }
}

proof fn lemma_without(
    parts: spec_fn(int) -> Option<(int, Seq<usize>)>,
    i: usize,
    j: usize,
    k: nat,
)
    ensures
        coupling::any_item_has(parts, i, j, true, false, k) == occurs_without(parts, i, j, k),
        coupling::any_item_has(parts, i, j, false, true, k) == occurs_without(parts, j, i, k),
{
    if coupling::any_item_has(parts, i, j, true, false, k) {
        let t = choose|t: int|
            0 <= t < k && #[trigger] coupling::item_has(parts, t, i, j, true, false);
        assert(parts(t) is Some);
    }
    if coupling::any_item_has(parts, i, j, false, true, k) {
        let t = choose|t: int|
            0 <= t < k && #[trigger] coupling::item_has(parts, t, i, j, false, true);
        assert(parts(t) is Some);
    }
    if occurs_without(parts, i, j, k) {
        let t = choose|t: int|
            0 <= t < k && (#[trigger] parts(t) matches Some((c, vars)) && vars.contains(i)
                && !vars.contains(j));
        assert(coupling::item_has(parts, t, i, j, true, false));
    }
    if occurs_without(parts, j, i, k) {
        let t = choose|t: int|
            0 <= t < k && (#[trigger] parts(t) matches Some((c, vars)) && vars.contains(j)
                && !vars.contains(i));
        assert(coupling::item_has(parts, t, i, j, false, true));
    }
}

/// The product of a pair has a preferred sign exactly where the pair's own
/// coefficient is larger than all the others with both together, and the sign is
/// against that coefficient. A pair that never occurs apart is then uncoupled; a pair
/// with one member that does is coupled, and the other member follows; where the own
/// coefficient is the smaller one, a pair that never occurs apart is frustrated.
pub proof fn pairs_go_by_their_coefficients(
    parts: spec_fn(int) -> Option<(int, Seq<usize>)>,
    i: usize,
    j: usize,
    k: nat,
)
    ensures
        ({
            let own = pair_alone(parts, i, j, k);
            let rest = pair_shared(parts, i, j, k);
            let apart_i = occurs_without(parts, i, j, k);
            let apart_j = occurs_without(parts, j, i, k);
            let sign = if own > rest {
                Some(-1i64)
            } else if -own > rest {
                Some(1i64)
            } else {
                None
            };
            &&& coupling::uncoupled_sign(parts, k)(i, j) == if apart_i || apart_j {
                None
            } else {
                sign
            }
            &&& coupling::one_sided_coupling(parts, k)(i, j) == if apart_i == apart_j || sign is None {
                None
            } else {
                Some(
                    ConditionalCoupling {
                        i,
                        j,
                        alpha: sign->0,
                        kind: if apart_i {
                            ConditionalCouplingKind::JGivenI
                        } else {
                            ConditionalCouplingKind::IGivenJ
                        },
                    },
                )
            }
            &&& coupling::frustrated(parts, k)(i, j) == if !apart_i && !apart_j && -rest < own
                && own < rest {
                Some((i, j))
            } else {
                None
            }
        }),
{
    lemma_pair_range(parts, i, j, k);
    lemma_without(parts, i, j, k);
}

/// A scan over the pairs of a list finds every pair that has a result, and nothing
/// else.
pub proof fn scan_finds_every_pair<T>(
    vars: Seq<usize>,
    cls: spec_fn(usize, usize) -> Option<T>,
    k: nat,
    e: T,
)
    requires
        k <= vars.len(),
    ensures
        coupling::pair_scan(vars, cls, k).contains(e) <==> exists|a: int, b: int|
            0 <= a < k && a < b < vars.len() && #[trigger] cls(vars[a], vars[b]) == Some(e),
    decreases k,
{
    let r = coupling::pair_scan(vars, cls, k);
    if k > 0 {
        let before = coupling::pair_scan(vars, cls, (k - 1) as nat);
        let row = coupling::pair_row(vars, cls, k - 1, vars.len() as int);
        scan_finds_every_pair(vars, cls, (k - 1) as nat, e);
        lemma_row(vars, cls, k - 1, vars.len() as int, e);
        if before.contains(e) {
            let q = before.index_of(e);
            assert(r[q] == e);
        }
        if row.contains(e) {
            let q = row.index_of(e);
            assert(r[before.len() + q] == e);
        }
        if r.contains(e) {
            let q = r.index_of(e);
            if q < before.len() {
                assert(before[q] == e);
            } else {
                assert(row[q - before.len()] == e);
            }
        }
        if exists|a: int, b: int|
            0 <= a < k && a < b < vars.len() && #[trigger] cls(vars[a], vars[b]) == Some(e) {
            let (a, b) = choose|a: int, b: int|
                0 <= a < k && a < b < vars.len() && #[trigger] cls(vars[a], vars[b]) == Some(e);
            if a < k - 1 {
                assert(before.contains(e));
            } else {
                assert(row.contains(e));
            }
        }
    }
}

proof fn lemma_row<T>(
    vars: Seq<usize>,
    cls: spec_fn(usize, usize) -> Option<T>,
    a: int,
    b: int,
    e: T,
)
    requires
        0 <= a < b <= vars.len(),
    ensures
        coupling::pair_row(vars, cls, a, b).contains(e) <==> exists|c: int|
            a < c < b && #[trigger] cls(vars[a], vars[c]) == Some(e),
    decreases b - a,
{
    let r = coupling::pair_row(vars, cls, a, b);
    if b > a + 1 {
        lemma_row(vars, cls, a, b - 1, e);
        let before = coupling::pair_row(vars, cls, a, b - 1);
        if before.contains(e) {
            let q = before.index_of(e);
            assert(r[q] == e);
        }
        if cls(vars[a], vars[b - 1]) == Some(e) {
            assert(r[before.len() as int] == e);
        }
        if r.contains(e) {
            let q = r.index_of(e);
            if q < before.len() {
                assert(before[q] == e);
            } else {
                assert(cls(vars[a], vars[b - 1]) == Some(e));
            }
        }
        if exists|c: int| a < c < b && #[trigger] cls(vars[a], vars[c]) == Some(e) {
            let c = choose|c: int| a < c < b && #[trigger] cls(vars[a], vars[c]) == Some(e);
            if c < b - 1 {
                assert(before.contains(e));
            }
        }
    }
}

proof fn lemma_no_partner(
    vars: Seq<usize>,
    rel: spec_fn(usize, usize) -> Option<i64>,
    pairs: Seq<(usize, usize, i64)>,
    a: int,
    b: int,
)
    requires
        0 <= b,
    ensures
        coupling::partner(vars, rel, pairs, a, b) is None ==> forall|c: int|
            b <= c < vars.len() ==> coupling::paired(pairs, #[trigger] vars[c]) || rel(
                vars[a],
                vars[c],
            ) is None,
        coupling::partner(vars, rel, pairs, a, b) matches Some(c) ==> b <= c < vars.len()
            && !coupling::paired(pairs, vars[c]) && rel(vars[a], vars[c]) is Some,
    decreases vars.len() - b,
{
    if b < vars.len() && !(!coupling::paired(pairs, vars[b]) && rel(vars[a], vars[b]) is Some) {
        lemma_no_partner(vars, rel, pairs, a, b + 1);
    }
}

proof fn lemma_greedy(vars: Seq<usize>, rel: spec_fn(usize, usize) -> Option<i64>, k: nat)
    requires
        sets::ascending(vars),
        k <= vars.len(),
    ensures
        forall|a: int, b: int|
            0 <= a < k && a < b < vars.len() && (#[trigger] rel(vars[a], vars[b])) is Some
                ==> coupling::paired(coupling::greedy_pairs(vars, rel, k), vars[a])
                || coupling::paired(coupling::greedy_pairs(vars, rel, k), vars[b]),
        forall|p: int, q: int|
            0 <= p < q < coupling::greedy_pairs(vars, rel, k).len() ==> are_apart(
                #[trigger] coupling::greedy_pairs(vars, rel, k)[p],
                #[trigger] coupling::greedy_pairs(vars, rel, k)[q],
            ),
    decreases k,
{
    if k > 0 {
        let before = coupling::greedy_pairs(vars, rel, (k - 1) as nat);
        let r = coupling::greedy_pairs(vars, rel, k);
        lemma_greedy(vars, rel, (k - 1) as nat);
        lemma_no_partner(vars, rel, before, k - 1, k as int);
        assert forall|v: usize| coupling::paired(before, v) implies #[trigger] coupling::paired(
            r,
            v,
        ) by {
            let q = choose|q: int|
                0 <= q < before.len() && ((#[trigger] before[q]).0 == v || before[q].1 == v);
            assert(r[q] == before[q]);
        }
        if r.len() > before.len() {
            assert(r[before.len() as int].0 == vars[k - 1]);
            assert(coupling::paired(r, vars[k - 1]));
            assert forall|p: int| 0 <= p < before.len() implies are_apart(
                #[trigger] before[p],
                r[before.len() as int],
            ) by {
                assert(coupling::paired(before, before[p].0));
                assert(coupling::paired(before, before[p].1));
            }
        }
        assert forall|a: int, b: int|
            0 <= a < k && a < b < vars.len() && (#[trigger] rel(vars[a], vars[b])) is Some implies
            coupling::paired(r, vars[a]) || coupling::paired(r, vars[b]) by {
            if a == k - 1 && !coupling::paired(before, vars[a]) {
                if r.len() == before.len() {
                    assert(coupling::paired(before, vars[b]));
                }
            } else {
                assert(coupling::paired(before, vars[a]) || coupling::paired(before, vars[b]));
            }
        }
    }
}

/// The pairs have no member in common.
pub open spec fn are_apart(p: (usize, usize, i64), q: (usize, usize, i64)) -> bool {
    p.0 != q.0 && p.0 != q.1 && p.1 != q.0 && p.1 != q.1
}

/// The pairs that are taken together are disjoint, and no further pair could be taken
/// with them.
pub proof fn taken_pairs_are_disjoint_and_maximal(
    vars: Seq<usize>,
    rel: spec_fn(usize, usize) -> Option<i64>,
)
    requires
        sets::ascending(vars),
    ensures
        ({
            let r = coupling::greedy_pairs(vars, rel, vars.len());
            &&& forall|p: int, q: int|
                0 <= p < q < r.len() ==> are_apart(#[trigger] r[p], #[trigger] r[q])
            &&& forall|a: int, b: int|
                0 <= a < b < vars.len() && (#[trigger] rel(vars[a], vars[b])) is Some ==> exists|
                    q: int,
                |
                    0 <= q < r.len() && ((#[trigger] r[q]).0 == vars[a] || r[q].1 == vars[a]
                        || r[q].0 == vars[b] || r[q].1 == vars[b])
        }),
{
    lemma_greedy(vars, rel, vars.len());
    let r = coupling::greedy_pairs(vars, rel, vars.len());
    assert forall|a: int, b: int|
        0 <= a < b < vars.len() && (#[trigger] rel(vars[a], vars[b])) is Some implies exists|q: int|
        0 <= q < r.len() && ((#[trigger] r[q]).0 == vars[a] || r[q].1 == vars[a] || r[q].0
            == vars[b] || r[q].1 == vars[b]) by {
        if coupling::paired(r, vars[a]) {
            let q = choose|q: int|
                0 <= q < r.len() && ((#[trigger] r[q]).0 == vars[a] || r[q].1 == vars[a]);
            assert(r[q].0 == vars[a] || r[q].1 == vars[a]);
        } else {
            assert(coupling::paired(r, vars[b]));
            let q = choose|q: int|
                0 <= q < r.len() && ((#[trigger] r[q]).0 == vars[b] || r[q].1 == vars[b]);
            assert(r[q].0 == vars[b] || r[q].1 == vars[b]);
        }
    }
}

/// A pair fixes its first member to 1 and its second to its sign, so that their
/// product is the sign; nothing else is fixed.
pub proof fn pair_fixes_give_the_sign(pairs: Seq<(usize, usize, i64)>)
    ensures
        coupling::pair_values(pairs).len() == 2 * pairs.len(),
        forall|q: int|
            0 <= q < pairs.len() ==> {
                let r = coupling::pair_values(pairs);
                let first = r[2 * q];
                let second = r[2 * q + 1];
                first.0 == (#[trigger] pairs[q]).0 && second.0 == pairs[q].1 && first.1
                    * second.1 == pairs[q].2 && first.1 == 1
            },
    decreases pairs.len(),
{
    if pairs.len() > 0 {
        let p = pairs.drop_last();
        pair_fixes_give_the_sign(p);
        let r = coupling::pair_values(pairs);
        let s = coupling::pair_values(p);
        assert forall|q: int| 0 <= q < pairs.len() implies {
            let first = r[2 * q];
            let second = r[2 * q + 1];
            first.0 == (#[trigger] pairs[q]).0 && second.0 == pairs[q].1 && first.1 * second.1
                == pairs[q].2 && first.1 == 1
        } by {
            if q < p.len() {
                assert(p[q] == pairs[q]);
                assert(r[2 * q] == s[2 * q] && r[2 * q + 1] == s[2 * q + 1]);
            }
        }
    }
}

} // verus!
