//! Following conditional couplings from fixed spins to their partners.

use crate::fixes::Fixes;
use crate::fixes;
use crate::kernelization::coupling::{ConditionalCoupling, ConditionalCouplingKind};
use vstd::prelude::*;

verus! {

/// The value of each variable that the list names; the last entry counts.
pub open spec fn known_from(n: nat, list: Seq<(usize, i64)>) -> Seq<Option<i64>>
    decreases list.len(),
{
    if list.len() == 0 {
        Seq::new(n, |v: int| None::<i64>)
    } else {
        known_from(n, list.drop_last()).update(list.last().0 as int, Some(list.last().1))
    }
}

/// The leader's value gives the follower's, unless that is known or fixed.
pub open spec fn follow(
    known: Seq<Option<i64>>,
    f: Seq<Option<bool>>,
    leader: usize,
    follower: usize,
    alpha: i64,
) -> Seq<Option<i64>> {
    if known[leader as int] is Some && known[follower as int] is None && f[follower as int]
        is None {
        known.update(follower as int, Some((alpha * known[leader as int]->0) as i64))
    } else {
        known
    }
}

/// One coupling followed.
pub open spec fn follow_one(
    known: Seq<Option<i64>>,
    f: Seq<Option<bool>>,
    c: ConditionalCoupling,
) -> Seq<Option<i64>> {
    match c.kind {
        ConditionalCouplingKind::JGivenI => follow(known, f, c.i, c.j, c.alpha),
        ConditionalCouplingKind::IGivenJ => follow(known, f, c.j, c.i, c.alpha),
    }
}

/// The first `k` couplings followed in order.
pub open spec fn follow_pass(
    known: Seq<Option<i64>>,
    f: Seq<Option<bool>>,
    pairs: Seq<ConditionalCoupling>,
    k: nat,
) -> Seq<Option<i64>>
    decreases k,
{
    if k == 0 {
        known
    } else {
        follow_one(follow_pass(known, f, pairs, (k - 1) as nat), f, pairs[k - 1])
    }
}

/// The couplings followed in `m` passes.
pub open spec fn follow_passes(
    known: Seq<Option<i64>>,
    f: Seq<Option<bool>>,
    pairs: Seq<ConditionalCoupling>,
    m: nat,
) -> Seq<Option<i64>>
    decreases m,
{
    if m == 0 {
        known
    } else {
        follow_pass(
            follow_passes(known, f, pairs, (m - 1) as nat),
            f,
            pairs,
            pairs.len(),
        )
    }
}

/// The known values of the first `k` variables, ascending.
pub open spec fn known_list(known: Seq<Option<i64>>, k: nat) -> Seq<(usize, i64)>
    decreases k,
{
    if k == 0 {
        Seq::empty()
    } else {
        match known[k - 1] {
            Some(value) => known_list(known, (k - 1) as nat).push(((k - 1) as usize, value)),
            None => known_list(known, (k - 1) as nat),
        }
    }
}

/// The list with everything that follows from it: as many passes as there are
/// variables reach a fixed point.
pub open spec fn propagated(
    n: nat,
    f: Seq<Option<bool>>,
    list: Seq<(usize, i64)>,
    pairs: Seq<ConditionalCoupling>,
) -> Seq<(usize, i64)> {
    known_list(follow_passes(known_from(n, list), f, pairs, n), n)
}

/// The couplings name existing variables and signs.
pub open spec fn couplings_ok(pairs: Seq<ConditionalCoupling>, n: nat) -> bool {
    forall|q: int|
        0 <= q < pairs.len() ==> (#[trigger] pairs[q]).i < n && pairs[q].j < n && (pairs[q].alpha
            == 1 || pairs[q].alpha == -1)
}

/// The known values are signs.
pub open spec fn signs(known: Seq<Option<i64>>) -> bool {
    forall|v: int|
        0 <= v < known.len() && (#[trigger] known[v]) is Some ==> known[v]->0 == 1 || known[v]->0
            == -1
}

/// How many of the first `k` values are known.
pub open spec fn count_known(known: Seq<Option<i64>>, k: nat) -> nat
    decreases k,
{
    if k == 0 {
        0
    } else {
        count_known(known, (k - 1) as nat) + (if known[k - 1] is Some {
            1nat
        } else {
            0
        })
    }
}

/// No more values are known than there are.
pub proof fn lemma_count_bound(known: Seq<Option<i64>>, k: nat)
    ensures
        count_known(known, k) <= k,
    decreases k,
{
    if k > 0 {
        lemma_count_bound(known, (k - 1) as nat);
    }
}

proof fn lemma_count_update(known: Seq<Option<i64>>, v: int, value: i64, k: nat)
    requires
        0 <= v < known.len(),
        k <= known.len(),
        known[v] is None,
    ensures
        count_known(known.update(v, Some(value)), k) == count_known(known, k) + (if v < k {
            1nat
        } else {
            0
        }),
    decreases k,
{
    if k > 0 {
        lemma_count_update(known, v, value, (k - 1) as nat);
    }
}

/// After a pass without change nothing changes any more.
pub proof fn lemma_passes_stable(
    known: Seq<Option<i64>>,
    f: Seq<Option<bool>>,
    pairs: Seq<ConditionalCoupling>,
    m: nat,
    k: nat,
)
    requires
        m <= k,
        follow_passes(known, f, pairs, m + 1) == follow_passes(known, f, pairs, m),
    ensures
        follow_passes(known, f, pairs, k) == follow_passes(known, f, pairs, m),
    decreases k - m,
{
    if k > m {
        lemma_passes_stable(known, f, pairs, m, (k - 1) as nat);
    }
}

/// The product of two signs is a sign.
pub proof fn lemma_sign_product(a: i64, b: i64)
    requires
        a == 1 || a == -1,
        b == 1 || b == -1,
    ensures
        a * b == 1 || a * b == -1,
        (a * b == 1) == (a == b),
{
    assert(a * b == if b == 1 { a as int } else { -a }) by (nonlinear_arith)
        requires
            b == 1 || b == -1,
    ;
}

/// Following one coupling keeps the shape.
pub proof fn lemma_follow_one(
    known: Seq<Option<i64>>,
    f: Seq<Option<bool>>,
    c: ConditionalCoupling,
    n: nat,
)
    requires
        known.len() == n,
        signs(known),
        c.i < n,
        c.j < n,
        c.alpha == 1 || c.alpha == -1,
    ensures
        follow_one(known, f, c).len() == n,
        signs(follow_one(known, f, c)),
        forall|v: int|
            0 <= v < n && (#[trigger] known[v]) is Some ==> follow_one(known, f, c)[v] == known[v],
{
    match c.kind {
        ConditionalCouplingKind::JGivenI => {
            if known[c.i as int] is Some {
                lemma_sign_product(c.alpha, known[c.i as int]->0);
            }
        },
        ConditionalCouplingKind::IGivenJ => {
            if known[c.j as int] is Some {
                lemma_sign_product(c.alpha, known[c.j as int]->0);
            }
        },
    }
}

/// Follow one coupling. Returns whether a value was added.
fn apply_coupling(known: &mut Vec<Option<i64>>, fixed: &Fixes, leader: usize, follower: usize, alpha: i64) -> (r:
    bool)
    requires
        leader < old(known)@.len(),
        follower < old(known)@.len(),
        fixed.wf(),
        fixed@.len() == old(known)@.len(),
        signs(old(known)@),
        alpha == 1 || alpha == -1,
    ensures
        final(known)@ == follow(old(known)@, fixed@, leader, follower, alpha),
        r == (final(known)@ != old(known)@),
        !r ==> final(known)@ == old(known)@,
        r ==> old(known)@[follower as int] is None && final(known)@[follower as int] is Some
            && final(known)@ == old(known)@.update(follower as int, final(known)@[follower as int]),
{
    let ghost k0 = known@;
    if let Some(value) = known[leader] {
        if known[follower].is_none() && fixed.get(follower).is_none() {
            proof {
                assert(known@[leader as int] is Some);
                lemma_sign_product(alpha, value);
            }
            let p: i64 = alpha * value;
            known.set(follower, Some(p));
            assert(known@[follower as int] != k0[follower as int]);
            return true;
        }
    }
    false
}

/// The candidate fixes with everything that follows from them.
pub fn propagate(
    fixed: &Fixes,
    candidates: &Vec<(usize, i64)>,
    pairs: &Vec<ConditionalCoupling>,
) -> (r: Vec<(usize, i64)>)
    requires
        fixed.wf(),
        forall|q: int|
            0 <= q < candidates@.len() ==> (#[trigger] candidates@[q]).0 < fixed@.len() && (
            candidates@[q].1 == 1 || candidates@[q].1 == -1),
        couplings_ok(pairs@, fixed@.len()),
    ensures
        r@ == propagated(fixed@.len(), fixed@, candidates@, pairs@),
{
    let n: usize = fixed.assigned.len();
    let ghost f = fixed@;
    let ghost ps = pairs@;
    let mut known: Vec<Option<i64>> = Vec::new();
    while known.len() < n
        invariant
            known@.len() <= n,
            forall|v: int| 0 <= v < known@.len() ==> (#[trigger] known@[v]) is None,
        decreases n - known@.len(),
    {
        known.push(None);
    }
    let mut q: usize = 0;
    proof {
        assert(candidates@.take(0) =~= Seq::empty());
        assert(known@ =~= known_from(n as nat, candidates@.take(0)));
    }
    while q < candidates.len()
        invariant
            q <= candidates@.len(),
            n == f.len(),
            forall|q: int|
                0 <= q < candidates@.len() ==> (#[trigger] candidates@[q]).0 < f.len() && (
                candidates@[q].1 == 1 || candidates@[q].1 == -1),
            known@.len() == n,
            signs(known@),
            known@ == known_from(n as nat, candidates@.take(q as int)),
        decreases candidates@.len() - q,
    {
        assert(candidates@.take(q + 1).drop_last() =~= candidates@.take(q as int));
        let (v, value) = candidates[q];
        assert(candidates@[q as int].0 < f.len());
        known.set(v, Some(value));
        q += 1;
    }
    let ghost start = known@;
    assert(candidates@.take(q as int) =~= candidates@);
    let mut changed: bool = true;
    let ghost mut m: nat = 0;
    proof {
        lemma_count_bound(known@, n as nat);
    }
    while changed
        invariant
            fixed.wf(),
            f == fixed@,
            ps == pairs@,
            n == f.len(),
            couplings_ok(ps, n as nat),
            known@.len() == n,
            signs(known@),
            known@ == follow_passes(start, f, ps, m),
            changed ==> m <= count_known(known@, n as nat),
            m <= n + 1,
            !changed ==> m > 0 && m - 1 <= n && follow_passes(start, f, ps, m) == follow_passes(
                start,
                f,
                ps,
                (m - 1) as nat,
            ),
        decreases
                n - count_known(known@, n as nat) + (if changed {
                    1int
                } else {
                    0int
                }),
    {
        changed = false;
        let ghost before = known@;
        let mut k: usize = 0;
        while k < pairs.len()
            invariant
                k <= ps.len(),
                fixed.wf(),
                f == fixed@,
                ps == pairs@,
                n == f.len(),
                couplings_ok(ps, n as nat),
                known@.len() == n,
                signs(known@),
                before.len() == n,
                known@ == follow_pass(before, f, ps, k as nat),
                count_known(known@, n as nat) >= count_known(before, n as nat),
                changed ==> count_known(known@, n as nat) > count_known(before, n as nat),
                !changed ==> known@ == before,
            decreases ps.len() - k,
        {
            let c = pairs[k];
            let ghost k0 = known@;
            assert(ps[k as int].i < n);
            proof {
                lemma_follow_one(known@, f, c, n as nat);
            }
            let added: bool = match c.kind {
                ConditionalCouplingKind::JGivenI => apply_coupling(
                    &mut known,
                    fixed,
                    c.i,
                    c.j,
                    c.alpha,
                ),
                ConditionalCouplingKind::IGivenJ => apply_coupling(
                    &mut known,
                    fixed,
                    c.j,
                    c.i,
                    c.alpha,
                ),
            };
            if added {
                changed = true;
                proof {
                    match c.kind {
                        ConditionalCouplingKind::JGivenI => {
                            lemma_count_update(k0, c.j as int, known@[c.j as int]->0, n as nat);
                        },
                        ConditionalCouplingKind::IGivenJ => {
                            lemma_count_update(k0, c.i as int, known@[c.i as int]->0, n as nat);
                        },
                    }
                }
            }
            k += 1;
        }
        proof {
            lemma_count_bound(known@, n as nat);
            lemma_count_bound(before, n as nat);
            m = m + 1;
        }
    }
    proof {
        lemma_passes_stable(start, f, ps, (m - 1) as nat, n as nat);
        lemma_passes_stable(start, f, ps, (m - 1) as nat, m);
    }
    let mut r: Vec<(usize, i64)> = Vec::new();
    let mut v: usize = 0;
    while v < n
        invariant
            v <= n,
            known@.len() == n,
            r@ == known_list(known@, v as nat),
        decreases n - v,
    {
        if let Some(value) = known[v] {
            r.push((v, value));
        }
        v += 1;
    }
    r
}

} // verus!
