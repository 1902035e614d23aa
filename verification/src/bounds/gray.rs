//! Exact minimisation of small instances, flipping one variable at a time.

use crate::domain::VarDomain;
use crate::heuristic::walk::{Incumbent, Walk};
use crate::heuristic::walk;
use crate::instance::HuboInstance;
use crate::solution::BitSolution;
use crate::solution;
use vstd::arithmetic::power2::pow2;
use vstd::prelude::*;

verus! {

/// The assignments agree from variable `j` on.
pub open spec fn agree_from(x: Seq<bool>, z: Seq<bool>, j: int) -> bool {
    &&& x.len() == z.len()
    &&& forall|i: int| j <= i < x.len() ==> #[trigger] x[i] == z[i]
}

/// An odd number of the variables from `i` on are high.
pub open spec fn odd_from(x: Seq<bool>, i: nat) -> bool
    decreases x.len() - i,
{
    if i >= x.len() {
        false
    } else {
        odd_from(x, i + 1) != x[i as int]
    }
}

/// The place of an assignment in the order of the reflected binary code, as far as
/// the first `k` variables decide it.
pub open spec fn place(x: Seq<bool>, k: nat) -> nat
    decreases k,
{
    if k == 0 {
        0
    } else {
        place(x, (k - 1) as nat) + (if odd_from(x, (k - 1) as nat) {
            pow2((k - 1) as nat)
        } else {
            0
        })
    }
}

/// The value is at most that of `z`, and less where `z` comes before `x`.
pub open spec fn wins<V: VarDomain>(
    instance: &HuboInstance<V>,
    value: int,
    x: Seq<bool>,
    z: Seq<bool>,
) -> bool {
    &&& value <= instance.objective(z)
    &&& place(z, z.len()) < place(x, x.len()) ==> value < instance.objective(z)
}

proof fn lemma_odd_agree(x: Seq<bool>, z: Seq<bool>, j: int, i: nat)
    requires
        agree_from(x, z, j),
        j <= i,
    ensures
        odd_from(x, i) == odd_from(z, i),
    decreases x.len() - i,
{
    if i < x.len() {
        lemma_odd_agree(x, z, j, i + 1);
        assert(x[i as int] == z[i as int]);
    }
}

proof fn lemma_place_range(x: Seq<bool>, k: nat)
    ensures
        place(x, k) < pow2(k),
        (forall|i: nat| i < k ==> !#[trigger] odd_from(x, i)) ==> place(x, k) == 0,
        (forall|i: nat| i < k ==> #[trigger] odd_from(x, i)) ==> place(x, k) == pow2(k) - 1,
    decreases k,
{
    vstd::arithmetic::power2::lemma2_to64();
    if k > 0 {
        lemma_place_range(x, (k - 1) as nat);
        vstd::arithmetic::power2::lemma_pow2_unfold(k);
        if forall|i: nat| i < k ==> #[trigger] odd_from(x, i) {
            assert(odd_from(x, (k - 1) as nat));
        }
        if forall|i: nat| i < k ==> !#[trigger] odd_from(x, i) {
            assert(!odd_from(x, (k - 1) as nat));
        }
    }
}

/// Assignments that agree from variable `j` on differ in place as their first `j`
/// variables do.
proof fn lemma_place_agree(x: Seq<bool>, z: Seq<bool>, j: nat, k: nat)
    requires
        agree_from(x, z, j as int),
        j <= k,
    ensures
        place(x, k) - place(x, j) == place(z, k) - place(z, j),
    decreases k,
{
    if j < k {
        lemma_place_agree(x, z, j, (k - 1) as nat);
        lemma_odd_agree(x, z, j as int, (k - 1) as nat);
    }
}

/// Flipping a variable changes the parities up to it.
proof fn lemma_odd_flip(x: Seq<bool>, v: nat, i: nat)
    requires
        v < x.len(),
    ensures
        odd_from(solution::flipped(x, v as int), i) == (odd_from(x, i) != (i <= v)),
    decreases x.len() - i,
{
    if i < x.len() {
        lemma_odd_flip(x, v, i + 1);
    }
}

/// Visit all assignments that differ from that of the walk in the variables
/// below `j`, in the order of the reflected binary code, and keep the best.
fn visit<V: VarDomain>(
    instance: &HuboInstance<V>,
    walk: &mut Walk,
    best: &mut Incumbent,
    j: usize,
)
    requires
        instance.wf(),
        instance.fits(),
        old(walk).wf(instance),
        old(best).wf(instance),
        old(best).sol is Some,
        old(best).obj <= old(walk).obj,
        place(old(best).sol->0@, instance.n() as nat) <= place(
            old(walk).sol@,
            instance.n() as nat,
        ),
        j <= instance.n(),
        forall|i: nat| i < j ==> !#[trigger] odd_from(old(walk).sol@, i),
    ensures
        final(walk).wf(instance),
        final(best).wf(instance),
        final(best).sol is Some,
        final(best).obj <= old(best).obj,
        final(best).obj <= final(walk).obj,
        *final(best) == *old(best) || final(best).obj < old(best).obj,
        place(final(best).sol->0@, instance.n() as nat) <= place(
            final(walk).sol@,
            instance.n() as nat,
        ),
        forall|i: nat| i < j ==> #[trigger] odd_from(final(walk).sol@, i),
        agree_from(old(walk).sol@, final(walk).sol@, j as int),
        forall|z: Seq<bool>| #[trigger]
            agree_from(old(walk).sol@, z, j as int) ==> wins(
                instance,
                final(best).obj as int,
                final(best).sol->0@,
                z,
            ),
    decreases j,
{
    let ghost x0 = walk.sol@;
    if j == 0 {
        assert forall|z: Seq<bool>| #[trigger] agree_from(x0, z, 0) implies wins(
            instance,
            best.obj as int,
            best.sol->0@,
            z,
        ) by {
            assert(z =~= x0);
        }
        return;
    }
    let v: usize = j - 1;
    visit(instance, walk, best, v);
    let ghost x1 = walk.sol@;
    let ghost best1 = *best;
    let ghost n = instance.n() as nat;
    walk.flip(instance, v);
    let ghost x2 = walk.sol@;
    proof {
        lemma_odd_agree(x0, x1, v as int, v as nat);
        assert(!odd_from(x0, v as nat));
        assert forall|i: nat| i < v implies !#[trigger] odd_from(x2, i) by {
            lemma_odd_flip(x1, v as nat, i);
            assert(odd_from(x1, i));
        }
        lemma_odd_flip(x1, v as nat, v as nat);
        assert(agree_from(x1, x2, j as int));
        lemma_place_agree(x1, x2, j as nat, n);
        lemma_place_range(x1, v as nat);
        lemma_place_range(x2, v as nat);
        assert(place(x1, n) <= place(x2, n));
    }
    best.offer(instance, walk);
    let ghost best2 = *best;
    visit(instance, walk, best, v);
    proof {
        assert forall|i: nat| i < j implies #[trigger] odd_from(walk.sol@, i) by {
            if i == v {
                lemma_odd_agree(x2, walk.sol@, v as int, v as nat);
            }
        }
        assert(x1[v as int] == x0[v as int]);
        assert forall|i: int| j <= i < x0.len() implies #[trigger] x0[i] == x2[i] && x0[i]
            == walk.sol@[i] by {
            assert(x0[i] == x1[i]);
            assert(x2[i] == x1[i]);
        }
        assert(x2[v as int] == !x0[v as int]);
        assert forall|z: Seq<bool>| #[trigger] agree_from(x0, z, j as int) implies wins(
            instance,
            best.obj as int,
            best.sol->0@,
            z,
        ) by {
            if z[v as int] == x0[v as int] {
                assert(agree_from(x0, z, v as int));
                assert(wins(instance, best1.obj as int, best1.sol->0@, z));
            } else {
                assert forall|i: int| v <= i < x2.len() implies #[trigger] x2[i] == z[i] by {
                    if i >= j {
                        assert(x0[i] == x2[i]);
                    }
                }
                assert(agree_from(x2, z, v as int));
            }
        }
    }
}

proof fn lemma_none_high(x: Seq<bool>, i: nat)
    requires
        forall|j: int| 0 <= j < x.len() ==> !#[trigger] x[j],
    ensures
        !odd_from(x, i),
    decreases x.len() - i,
{
    if i < x.len() {
        lemma_none_high(x, i + 1);
    }
}

/// The first minimiser of the instance in the order of the reflected binary code,
/// and its objective.
pub fn gray_code_min<V: VarDomain>(instance: &HuboInstance<V>) -> (r: (i64, BitSolution))
    requires
        instance.wf(),
        instance.fits(),
    ensures
        r.1@.len() == instance.n(),
        r.0 == instance.objective(r.1@),
        forall|z: Seq<bool>|
            z.len() == instance.n() ==> r.0 <= #[trigger] instance.objective(z),
        forall|z: Seq<bool>|
            z.len() == instance.n() ==> #[trigger] wins(instance, r.0 as int, r.1@, z),
{
    let n: usize = instance.n_vars();
    let mut walk = Walk::from_solution(instance, BitSolution::new(n));
    let mut best = Incumbent { obj: walk.obj, sol: Some(walk.sol.clone()) };
    let ghost x0 = walk.sol@;
    proof {
        assert forall|i: nat| i < n implies !#[trigger] odd_from(x0, i) by {
            lemma_none_high(x0, i);
        }
    }
    visit(instance, &mut walk, &mut best, n);
    proof {
        assert forall|z: Seq<bool>| z.len() == instance.n() implies best.obj
            <= #[trigger] instance.objective(z) by {
            assert(agree_from(x0, z, n as int));
        }
        assert forall|z: Seq<bool>| z.len() == instance.n() implies #[trigger] wins(
            instance,
            best.obj as int,
            best.sol->0@,
            z,
        ) by {
            assert(agree_from(x0, z, n as int));
        }
    }
    match best.sol {
        Some(sol) => (best.obj, sol),
        None => (best.obj, walk.sol),
    }
}

} // verus!
