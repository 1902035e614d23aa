//! A pool of diverse assignments that is varied by single flips, exchange
//! between members and best flips.

use crate::domain::VarDomain;
use crate::heuristic::Signals;
use crate::heuristic::Status;
use crate::heuristic::greedy;
use crate::heuristic::rng::Rng;
use crate::heuristic::rng;
use crate::heuristic::run::Outcome;
use crate::heuristic::run;
use crate::heuristic::saw;
use crate::heuristic::walk::{Incumbent, Walk};
use crate::heuristic::walk;
use crate::instance::HuboInstance;
use crate::solution::BitSolution;
use crate::solution;
use crate::term;
use vstd::prelude::*;

verus! {

/// How the search goes.
#[derive(Debug, Clone, Copy)]
pub struct Config {
    pub seed: u64,
    pub cutoff: Option<i64>,
    /// How many members the pool has at most.
    pub pool_size: usize,
    /// How many random assignments the search starts with.
    pub init_solutions: usize,
    pub max_iterations: Option<u64>,
    /// How many bits an exchange flips at most.
    pub xor_max_flips: usize,
}

impl Default for Config {
    fn default() -> (r: Self)
        ensures
            r.seed == 0,
            r.cutoff is None,
            r.pool_size == 128,
            r.init_solutions == 32,
            r.max_iterations is None,
            r.xor_max_flips == 8,
    {
        Config {
            seed: 0,
            cutoff: None,
            pool_size: 128,
            init_solutions: 32,
            max_iterations: None,
            xor_max_flips: 8,
        }
    }
}

/// A member of the pool.
pub struct Candidate {
    pub sol: BitSolution,
    pub obj: i64,
}

/// How a member is varied.
#[derive(Debug, Clone, Copy, PartialEq, Eq, Structural)]
pub enum Operator {
    OneFlip,
    Xor,
    BestFlip,
}

/// The place of an operator in the statistics.
pub open spec fn operator_index(op: Operator) -> int {
    match op {
        Operator::OneFlip => 0,
        Operator::Xor => 1,
        Operator::BestFlip => 2,
    }
}

/// The operators take turns.
pub open spec fn operator_at(iteration: u64) -> Operator {
    if iteration % 3 == 0 {
        Operator::OneFlip
    } else if iteration % 3 == 1 {
        Operator::Xor
    } else {
        Operator::BestFlip
    }
}

impl Operator {
    /// The operator of an iteration.
    pub fn at(iteration: u64) -> (r: Self)
        ensures
            r == operator_at(iteration),
    {
        match iteration % 3 {
            0 => Operator::OneFlip,
            1 => Operator::Xor,
            _ => Operator::BestFlip,
        }
    }

    /// The place of the operator in the statistics.
    pub fn idx(self) -> (r: usize)
        ensures
            r == operator_index(self),
    {
        match self {
            Operator::OneFlip => 0,
            Operator::Xor => 1,
            Operator::BestFlip => 2,
        }
    }

    /// The name of the operator.
    pub fn name(self) -> (r: &'static str)
        ensures
            r@ == (match self {
                Operator::OneFlip => "one_flip"@,
                Operator::Xor => "xor"@,
                Operator::BestFlip => "best_flip"@,
            }),
    {
        match self {
            Operator::OneFlip => "one_flip",
            Operator::Xor => "xor",
            Operator::BestFlip => "best_flip",
        }
    }
}

/// What an operator has achieved.
#[derive(Debug, Clone, Copy, PartialEq, Eq, Structural)]
pub struct OpStats {
    pub attempts: u64,
    pub benefited: u64,
    pub improved_incumbent: u64,
}

/// How many of the first `k` bits differ.
pub open spec fn hamming(a: Seq<bool>, b: Seq<bool>, k: nat) -> nat
    decreases k,
{
    if k == 0 {
        0
    } else {
        hamming(a, b, (k - 1) as nat) + (if a[k - 1] != b[k - 1] {
            1nat
        } else {
            0nat
        })
    }
}

/// Assignments at distance zero are equal.
pub proof fn distance_separates(a: Seq<bool>, b: Seq<bool>, k: nat)
    requires
        k <= a.len(),
        a.len() == b.len(),
    ensures
        hamming(a, b, k) == 0 <==> a.take(k as int) == b.take(k as int),
        hamming(a, b, k) == hamming(b, a, k),
        hamming(a, b, k) <= k,
    decreases k,
{
    if k == 0 {
        assert(a.take(0) =~= b.take(0));
    } else {
        distance_separates(a, b, (k - 1) as nat);
        assert(a.take(k as int).drop_last() =~= a.take(k - 1));
        assert(b.take(k as int).drop_last() =~= b.take(k - 1));
        if hamming(a, b, k) == 0 {
            assert(a.take(k as int) =~= a.take(k - 1).push(a[k - 1]));
            assert(b.take(k as int) =~= b.take(k - 1).push(b[k - 1]));
        }
        if a.take(k as int) == b.take(k as int) {
            assert(a.take(k as int)[k - 1] == b.take(k as int)[k - 1]);
        }
    }
}

/// The number of bits in which two assignments differ.
pub fn hamming_distance(a: &BitSolution, b: &BitSolution, n: usize) -> (r: usize)
    requires
        a@.len() == n,
        b@.len() == n,
    ensures
        r == hamming(a@, b@, n as nat),
{
    let mut dist: usize = 0;
    let mut i: usize = 0;
    while i < n
        invariant
            i <= n,
            a@.len() == n,
            b@.len() == n,
            dist <= i,
            dist == hamming(a@, b@, i as nat),
        decreases n - i,
    {
        if a.values.contains(i) != b.values.contains(i) {
            dist += 1;
        }
        i += 1;
    }
    dist
}

/// The least distance of `x` to the first `k` members other than member `skip`;
/// none when there is no such member.
pub open spec fn least_distance(
    pool: Seq<Candidate>,
    x: Seq<bool>,
    skip: int,
    k: nat,
) -> Option<nat>
    decreases k,
{
    if k == 0 {
        None
    } else if k - 1 == skip {
        least_distance(pool, x, skip, (k - 1) as nat)
    } else {
        let d = hamming(pool[k - 1].sol@, x, x.len());
        match least_distance(pool, x, skip, (k - 1) as nat) {
            None => Some(d),
            Some(m) => Some(
                if d < m {
                    d
                } else {
                    m
                },
            ),
        }
    }
}

/// How close the nearest other member is; the number of variables when there is
/// none.
pub open spec fn crowding(pool: Seq<Candidate>, i: int) -> nat {
    match least_distance(pool, pool[i].sol@, i, pool.len()) {
        Some(d) => d,
        None => pool[i].sol@.len(),
    }
}

/// The members are assignments of `n` variables.
pub open spec fn members_ok(pool: Seq<Candidate>, n: nat) -> bool {
    forall|i: int| 0 <= i < pool.len() ==> (#[trigger] pool[i]).sol@.len() == n
}

/// The least distance of `x` to the members other than member `skip`.
fn nearest(pool: &Vec<Candidate>, x: &BitSolution, skip: usize, n: usize) -> (r: Option<usize>)
    requires
        members_ok(pool@, n as nat),
        x@.len() == n,
    ensures
        (match least_distance(pool@, x@, skip as int, pool@.len()) {
            Some(d) => r matches Some(k) && k == d,
            None => r is None,
        }),
{
    let mut best: Option<usize> = None;
    let mut j: usize = 0;
    while j < pool.len()
        invariant
            j <= pool@.len(),
            members_ok(pool@, n as nat),
            x@.len() == n,
            (match least_distance(pool@, x@, skip as int, j as nat) {
                Some(d) => best matches Some(k) && k == d,
                None => best is None,
            }),
        decreases pool@.len() - j,
    {
        if j != skip {
            assert(pool@[j as int].sol@.len() == n);
            let d: usize = hamming_distance(&pool[j].sol, x, n);
            best = match best {
                None => Some(d),
                Some(m) => if d < m {
                    Some(d)
                } else {
                    Some(m)
                },
            };
        }
        j += 1;
    }
    best
}

/// How close the nearest other member is.
pub fn min_dist_to_others(pool: &Vec<Candidate>, idx: usize, n: usize) -> (r: usize)
    requires
        idx < pool@.len(),
        members_ok(pool@, n as nat),
    ensures
        r == crowding(pool@, idx as int),
{
    assert(pool@[idx as int].sol@.len() == n);
    match nearest(pool, &pool[idx].sol, idx, n) {
        Some(d) => d,
        None => n,
    }
}

/// The first member with the least objective.
pub open spec fn is_elite(pool: Seq<Candidate>, e: int) -> bool {
    &&& 0 <= e < pool.len()
    &&& forall|i: int| 0 <= i < pool.len() ==> pool[e].obj <= (#[trigger] pool[i]).obj
    &&& forall|i: int| 0 <= i < e ==> pool[e].obj < (#[trigger] pool[i]).obj
}

/// The member to give up: of those other than the elite one with the least
/// crowding, the first with the largest objective.
pub open spec fn is_victim(pool: Seq<Candidate>, e: int, k: nat, v: int) -> bool {
    &&& 0 <= v < k
    &&& v != e
    &&& forall|i: int|
        0 <= i < k && i != e ==> {
            ||| crowding(pool, v) < #[trigger] crowding(pool, i)
            ||| crowding(pool, v) == crowding(pool, i) && pool[v].obj > pool[i].obj
            ||| crowding(pool, v) == crowding(pool, i) && pool[v].obj == pool[i].obj && v <= i
        }
}

/// Some member is at distance zero; `p` is the first.
pub open spec fn is_first_equal(pool: Seq<Candidate>, x: Seq<bool>, p: int) -> bool {
    &&& 0 <= p < pool.len()
    &&& pool[p].sol@ == x
    &&& forall|i: int| 0 <= i < p ==> (#[trigger] pool[i]).sol@ != x
}

/// No member equals `x`.
pub open spec fn is_new(pool: Seq<Candidate>, x: Seq<bool>) -> bool {
    forall|i: int| 0 <= i < pool.len() ==> (#[trigger] pool[i]).sol@ != x
}

/// The candidate is worth more than the member: farther from the pool than the
/// member is crowded, or as far with a better objective.
pub open spec fn replaces(pool: Seq<Candidate>, c: Candidate, v: int) -> bool {
    match least_distance(pool, c.sol@, pool.len() as int, pool.len()) {
        Some(d) => d > crowding(pool, v) || (d == crowding(pool, v) && c.obj < pool[v].obj),
        None => false,
    }
}

/// The pool after a candidate was offered: an equal member is replaced by a
/// better candidate; a new one is added while there is room, and then replaces
/// the member to give up where it is worth more.
pub open spec fn is_inserted(
    before: Seq<Candidate>,
    cap: usize,
    c: Candidate,
    after: Seq<Candidate>,
) -> bool {
    if !is_new(before, c.sol@) {
        exists|p: int| #[trigger]
            is_first_equal(before, c.sol@, p) && after == (if c.obj < before[p].obj {
                before.update(p, c)
            } else {
                before
            })
    } else if before.len() < cap {
        after == before.push(c)
    } else if before.len() <= 1 {
        after == before
    } else {
        exists|e: int, v: int| #[trigger]
            is_elite(before, e) && #[trigger] is_victim(before, e, before.len(), v) && after == (
            if replaces(before, c, v) {
                before.update(v, c)
            } else {
                before
            })
    }
}

/// Offer a candidate to the pool.
pub fn try_insert_into_pool(pool: &mut Vec<Candidate>, cap: usize, candidate: Candidate, n: usize)
    requires
        members_ok(old(pool)@, n as nat),
        candidate.sol@.len() == n,
    ensures
        is_inserted(old(pool)@, cap, candidate, final(pool)@),
{
    let ghost p0 = pool@;
    let ghost x = candidate.sol@;
    let mut i: usize = 0;
    while i < pool.len()
        invariant
            i <= pool@.len(),
            pool@ == p0,
            members_ok(p0, n as nat),
            x == candidate.sol@,
            x.len() == n,
            forall|j: int| 0 <= j < i ==> (#[trigger] p0[j]).sol@ != x,
            p0 == old(pool)@,
        decreases pool@.len() - i,
    {
        assert(p0[i as int].sol@.len() == n);
        let d: usize = hamming_distance(&pool[i].sol, &candidate.sol, n);
        proof {
            distance_separates(p0[i as int].sol@, x, n as nat);
            assert(p0[i as int].sol@.take(n as int) =~= p0[i as int].sol@);
            assert(x.take(n as int) =~= x);
        }
        if d == 0 {
            assert(is_first_equal(p0, x, i as int));
            assert(!is_new(p0, x)) by {
                assert(p0[i as int].sol@ == x);
            }
            if candidate.obj < pool[i].obj {
                pool.set(i, candidate);
            }
            return;
        }
        i += 1;
    }
    assert(is_new(p0, x));
    if pool.len() < cap {
        pool.push(candidate);
        return;
    }
    if pool.len() <= 1 {
        return;
    }
    let mut elite: usize = 0;
    let mut i: usize = 1;
    while i < pool.len()
        invariant
            1 <= i <= pool@.len(),
            elite < i,
            forall|j: int| 0 <= j < i ==> pool@[elite as int].obj <= (#[trigger] pool@[j]).obj,
            forall|j: int| 0 <= j < elite ==> pool@[elite as int].obj < (#[trigger] pool@[j]).obj,
        decreases pool@.len() - i,
    {
        if pool[i].obj < pool[elite].obj {
            elite = i;
        }
        i += 1;
    }
    assert(is_elite(p0, elite as int));
    let len: usize = pool.len();
    let cand_min_dist: usize = match nearest(pool, &candidate.sol, len, n) {
        Some(d) => d,
        None => n,
    };
    let mut victim: usize = if elite == 0 {
        1
    } else {
        0
    };
    let mut worst: usize = min_dist_to_others(pool, victim, n);
    let mut i: usize = victim + 1;
    while i < pool.len()
        invariant
            i <= pool@.len(),
            pool@ == p0,
            members_ok(p0, n as nat),
            victim < i,
            worst == crowding(p0, victim as int),
            is_victim(p0, elite as int, i as nat, victim as int),
        decreases pool@.len() - i,
    {
        if i != elite {
            let c: usize = min_dist_to_others(pool, i, n);
            if c < worst || (c == worst && pool[i].obj > pool[victim].obj) {
                proof {
                    assert forall|j: int| 0 <= j < i + 1 && j != elite implies {
                        ||| crowding(p0, i as int) < #[trigger] crowding(p0, j)
                        ||| crowding(p0, i as int) == crowding(p0, j) && p0[i as int].obj
                            > p0[j].obj
                        ||| crowding(p0, i as int) == crowding(p0, j) && p0[i as int].obj
                            == p0[j].obj && i <= j
                    } by {
                        if j < i {
                            assert(crowding(p0, victim as int) <= crowding(p0, j));
                        }
                    }
                }
                victim = i;
                worst = c;
            }
        }
        i += 1;
    }
    proof {
        assert(is_victim(p0, elite as int, p0.len(), victim as int));
        lemma_some_distance(p0, x, p0.len());
    }
    if cand_min_dist > worst || (cand_min_dist == worst && candidate.obj < pool[victim].obj) {
        pool.set(victim, candidate);
    }
}

proof fn lemma_some_distance(pool: Seq<Candidate>, x: Seq<bool>, k: nat)
    requires
        0 < k <= pool.len(),
    ensures
        least_distance(pool, x, pool.len() as int, k) is Some,
    decreases k,
{
    if k > 1 {
        lemma_some_distance(pool, x, (k - 1) as nat);
    }
}

/// An offered candidate never makes the best objective of the pool worse, adds
/// no second copy of a member, and keeps the pool within its size.
pub proof fn insertion_keeps_pool(
    before: Seq<Candidate>,
    cap: usize,
    c: Candidate,
    after: Seq<Candidate>,
    i: int,
)
    requires
        is_inserted(before, cap, c, after),
        0 <= i < before.len(),
        forall|a: int, b: int|
            0 <= a < b < before.len() ==> (#[trigger] before[a]).sol@ != (#[trigger] before[b]).sol@,
    ensures
        exists|j: int| 0 <= j < after.len() && (#[trigger] after[j]).obj <= before[i].obj,
        forall|a: int, b: int|
            0 <= a < b < after.len() ==> (#[trigger] after[a]).sol@ != (#[trigger] after[b]).sol@,
        after.len() <= before.len() || after.len() <= cap,
{
    if !is_new(before, c.sol@) {
        let p = choose|p: int| #[trigger]
            is_first_equal(before, c.sol@, p) && after == (if c.obj < before[p].obj {
                before.update(p, c)
            } else {
                before
            });
        assert(after[i].obj <= before[i].obj);
        assert forall|a: int, b: int| 0 <= a < b < after.len() implies (#[trigger] after[a]).sol@ != (
        #[trigger] after[b]).sol@ by {
            assert(before[a].sol@ != before[b].sol@);
        }
    } else if before.len() < cap {
        assert(after[i].obj <= before[i].obj);
        assert forall|a: int, b: int| 0 <= a < b < after.len() implies (#[trigger] after[a]).sol@ != (
        #[trigger] after[b]).sol@ by {
            if b < before.len() {
                assert(before[a].sol@ != before[b].sol@);
            } else {
                assert(before[a].sol@ != c.sol@);
            }
        }
    } else if before.len() <= 1 {
        assert(after[i].obj <= before[i].obj);
    } else {
        let (e, v) = choose|e: int, v: int| #[trigger]
            is_elite(before, e) && #[trigger] is_victim(before, e, before.len(), v) && after == (
            if replaces(before, c, v) {
                before.update(v, c)
            } else {
                before
            });
        assert(after[e].obj <= before[i].obj);
        assert forall|a: int, b: int| 0 <= a < b < after.len() implies (#[trigger] after[a]).sol@ != (
        #[trigger] after[b]).sol@ by {
            assert(before[a].sol@ != before[b].sol@);
            assert(before[a].sol@ != c.sol@);
            assert(before[b].sol@ != c.sol@);
        }
    }
}

/// The distances of the first `k` members to member `i`, in all.
pub open spec fn distances_to(pool: Seq<Candidate>, i: int, k: nat) -> nat
    decreases k,
{
    if k == 0 {
        0
    } else {
        distances_to(pool, i, (k - 1) as nat) + hamming(
            pool[k - 1].sol@,
            pool[i].sol@,
            pool[i].sol@.len(),
        )
    }
}

/// The distances of all pairs among the first `k` members, in all.
pub open spec fn pair_distances(pool: Seq<Candidate>, k: nat) -> nat
    decreases k,
{
    if k == 0 {
        0
    } else {
        pair_distances(pool, (k - 1) as nat) + distances_to(pool, k - 1, (k - 1) as nat)
    }
}

proof fn lemma_distances_to(pool: Seq<Candidate>, n: nat, i: int, k: nat)
    requires
        members_ok(pool, n),
        0 <= i < pool.len(),
        k <= pool.len(),
    ensures
        distances_to(pool, i, k) <= k * n,
    decreases k,
{
    if k > 0 {
        lemma_distances_to(pool, n, i, (k - 1) as nat);
        assert(pool[k - 1].sol@.len() == n);
        assert(pool[i].sol@.len() == n);
        distance_separates(pool[k - 1].sol@, pool[i].sol@, n);
        assert((k - 1) * n + n == k * n) by (nonlinear_arith);
    }
}

proof fn lemma_pair_distances(pool: Seq<Candidate>, n: nat, k: nat)
    requires
        members_ok(pool, n),
        k <= pool.len(),
    ensures
        pair_distances(pool, k) <= k * k * n,
    decreases k,
{
    if k > 0 {
        let j = (k - 1) as nat;
        lemma_pair_distances(pool, n, j);
        lemma_distances_to(pool, n, j as int, j);
        assert(j * j * n + j * n <= k * k * n) by (nonlinear_arith)
            requires
                k == j + 1,
                j >= 0,
                n >= 0,
        ;
    }
}

/// A flip of the variable that the generator draws.
pub open spec fn is_random_flip(x: Seq<bool>, r: Rng, y: Seq<bool>, r2: Rng) -> bool {
    &&& y == solution::flipped(x, rng::drawn(r, x.len() as int))
    &&& r2 == rng::after_draw(r, x.len() as int)
}

/// The variables in which two assignments differ, among the first `k`.
pub open spec fn differing(x: Seq<bool>, y: Seq<bool>, k: nat) -> Seq<usize>
    decreases k,
{
    if k == 0 {
        Seq::empty()
    } else if x[k - 1] != y[k - 1] {
        differing(x, y, (k - 1) as nat).push((k - 1) as usize)
    } else {
        differing(x, y, (k - 1) as nat)
    }
}

/// The assignment, the deck and the generator after `k` variables were drawn
/// from the deck and flipped.
pub open spec fn dealt_flips(x: Seq<bool>, deck: Seq<usize>, r: Rng, k: nat) -> (
    Seq<bool>,
    Seq<usize>,
    Rng,
)
    decreases k,
{
    if k == 0 {
        (x, deck, r)
    } else {
        let (y, d, s) = dealt_flips(x, deck, r, (k - 1) as nat);
        let p = rng::drawn(s, d.len() as int);
        (solution::flipped(y, d[p] as int), saw::dealt(d, p), rng::after_draw(s, d.len() as int))
    }
}

/// The member to exchange with: any but the base.
pub open spec fn peer_index(r: Rng, base: int, len: int) -> int {
    let p = rng::drawn(r, len - 1);
    if p >= base {
        p + 1
    } else {
        p
    }
}

/// An exchange: some of the variables in which the base and a peer differ are
/// flipped; a random one when there is no peer or no difference.
pub open spec fn is_xor_move(
    pool: Seq<Candidate>,
    base: int,
    max_flips: usize,
    r: Rng,
    y: Seq<bool>,
    r2: Rng,
) -> bool {
    let x = pool[base].sol@;
    if x.len() == 0 {
        y == x && r2 == r
    } else if pool.len() < 2 {
        is_random_flip(x, r, y, r2)
    } else {
        let peer = pool[peer_index(r, base, pool.len() as int)].sol@;
        let s = rng::after_draw(r, pool.len() - 1);
        let deck = differing(x, peer, x.len());
        if deck.len() == 0 {
            is_random_flip(x, s, y, r2)
        } else {
            let most = if max_flips < deck.len() {
                max_flips as int
            } else {
                deck.len() as int
            };
            let flips = 1 + rng::drawn(s, most);
            let end = dealt_flips(x, deck, rng::after_draw(s, most), flips as nat);
            y == end.0 && r2 == end.2
        }
    }
}

/// What an operator makes of a member.
pub open spec fn is_child<V: VarDomain>(
    instance: &HuboInstance<V>,
    op: Operator,
    pool: Seq<Candidate>,
    base: int,
    max_flips: usize,
    r: Rng,
    y: Seq<bool>,
    r2: Rng,
) -> bool {
    let x = pool[base].sol@;
    match op {
        Operator::Xor => is_xor_move(pool, base, max_flips, r, y, r2),
        Operator::OneFlip => if x.len() == 0 {
            y == x && r2 == r
        } else {
            is_random_flip(x, r, y, r2)
        },
        Operator::BestFlip => if x.len() == 0 {
            y == x && r2 == r
        } else if walk::is_local_minimum(instance, x) {
            is_random_flip(x, r, y, r2)
        } else {
            r2 == r && walk::is_steepest_step(instance, x, y)
        },
    }
}

proof fn lemma_differing(x: Seq<bool>, y: Seq<bool>, k: nat)
    requires
        k <= x.len(),
        x.len() <= usize::MAX,
    ensures
        forall|i: int|
            0 <= i < differing(x, y, k).len() ==> (#[trigger] differing(x, y, k)[i]) < k,
        differing(x, y, k).len() <= k,
    decreases k,
{
    if k > 0 {
        lemma_differing(x, y, (k - 1) as nat);
    }
}

/// Flip some of the variables in which the base and a peer differ.
pub fn apply_xor_move<V: VarDomain>(
    instance: &HuboInstance<V>,
    pool: &Vec<Candidate>,
    rng: &mut Rng,
    base_idx: usize,
    xor_max_flips: usize,
    child: &mut Walk,
)
    requires
        run::is_searchable(instance),
        members_ok(pool@, instance.n() as nat),
        base_idx < pool@.len(),
        xor_max_flips > 0,
        old(child).wf(instance),
        old(child).sol@ == pool@[base_idx as int].sol@,
    ensures
        final(child).wf(instance),
        is_xor_move(
            pool@,
            base_idx as int,
            xor_max_flips,
            *old(rng),
            final(child).sol@,
            *final(rng),
        ),
{
    let ghost r0 = *rng;
    let ghost x = child.sol@;
    let n: usize = instance.n_vars();
    if n == 0 {
        return;
    }
    if pool.len() < 2 {
        let v: usize = rng.index(n);
        child.flip(instance, v);
        return;
    }
    let mut peer_idx: usize = rng.index(pool.len() - 1);
    if peer_idx >= base_idx {
        peer_idx += 1;
    }
    assert(peer_idx == peer_index(r0, base_idx as int, pool@.len() as int));
    let peer = &pool[peer_idx].sol;
    assert(pool@[peer_idx as int].sol@.len() == n);
    let ghost s = *rng;
    let mut deck: Vec<usize> = Vec::new();
    let mut i: usize = 0;
    while i < n
        invariant
            i <= n,
            n == x.len(),
            child.sol@ == x,
            peer@.len() == n,
            deck@ == differing(x, peer@, i as nat),
        decreases n - i,
    {
        if child.sol.values.contains(i) != peer.values.contains(i) {
            deck.push(i);
        }
        i += 1;
    }
    if deck.len() == 0 {
        let v: usize = rng.index(n);
        child.flip(instance, v);
        return;
    }
    let ghost deck0 = deck@;
    proof {
        lemma_differing(x, peer@, n as nat);
    }
    let most: usize = if xor_max_flips < deck.len() {
        xor_max_flips
    } else {
        deck.len()
    };
    let flips: usize = 1 + rng.index(most);
    let ghost s1 = *rng;
    let mut k: usize = 0;
    assert(dealt_flips(x, deck0, s1, 0) == (x, deck0, s1));
    while k < flips
        invariant
            k <= flips,
            flips <= deck0.len(),
            deck@.len() == deck0.len() - k,
            run::is_searchable(instance),
            n == instance.n(),
            child.wf(instance),
            forall|i: int| 0 <= i < deck@.len() ==> (#[trigger] deck@[i]) < n,
            dealt_flips(x, deck0, s1, k as nat) == (child.sol@, deck@, *rng),
        decreases flips - k,
    {
        let len: usize = deck.len();
        let ghost d = deck@;
        let p: usize = rng.index(len);
        let v: usize = deck[p];
        let last: usize = deck[len - 1];
        deck.set(p, last);
        let popped = deck.pop();
        proof {
            assert(deck@ =~= saw::dealt(d, p as int));
            assert(d[p as int] < n);
            assert forall|i: int| 0 <= i < deck@.len() implies (#[trigger] deck@[i]) < n by {
                assert(d[i] < n);
                assert(d[len - 1] < n);
            }
        }
        child.flip(instance, v);
        k += 1;
    }
}

/// The search.
pub struct Search {
    pub pool_cap: usize,
    pub xor_max_flips: usize,
    pub max_iterations: Option<u64>,
    pub cutoff: Option<i64>,
    /// Random assignments still to be drawn.
    pub init_left: usize,
    pub rng: Rng,
    pub pool: Vec<Candidate>,
    pub incumbent: Incumbent,
    pub iterations: u64,
    pub stats: Vec<OpStats>,
    pub cutoff_reached: bool,
    pub over: bool,
    pub status: Status,
}

/// What the search keeps.
pub open spec fn same_setup(a: &Search, b: &Search) -> bool {
    &&& a.pool_cap == b.pool_cap
    &&& a.xor_max_flips == b.xor_max_flips
    &&& a.max_iterations == b.max_iterations
    &&& a.cutoff == b.cutoff
}

/// The incumbent improved to the cutoff.
pub open spec fn is_cut(a: &Search, obj: i64) -> bool {
    obj < a.incumbent.obj && (a.cutoff matches Some(c) && obj <= c)
}

/// The incumbent after a candidate was met.
pub open spec fn is_met(before: Incumbent, c: Candidate, after: Incumbent) -> bool {
    if c.obj < before.obj {
        after.obj == c.obj && (after.sol matches Some(s) && s@ == c.sol@)
    } else {
        after == before
    }
}

/// A random assignment joins the pool.
pub open spec fn is_init_step<V: VarDomain>(
    instance: &HuboInstance<V>,
    a: &Search,
    b: &Search,
) -> bool {
    let n = instance.n() as nat;
    &&& same_setup(a, b)
    &&& b.init_left == a.init_left - 1
    &&& b.rng == rng::advanced_by(a.rng, n)
    &&& b.iterations == a.iterations
    &&& b.stats == a.stats
    &&& exists|c: Candidate|
        c.sol@ == rng::random_bits(a.rng, n) && c.obj == instance.objective(c.sol@)
            && #[trigger] is_inserted(a.pool@, a.pool_cap, c, b.pool@) && is_met(
            a.incumbent,
            c,
            b.incumbent,
        ) && b.cutoff_reached == (a.cutoff_reached || is_cut(a, c.obj))
    &&& b.over == b.cutoff_reached
    &&& b.over ==> b.status == Status::Cutoff
}

/// The time is up before all random assignments are drawn: the search ends, with
/// one assignment at least.
pub open spec fn is_init_timeout<V: VarDomain>(
    instance: &HuboInstance<V>,
    a: &Search,
    b: &Search,
) -> bool {
    &&& same_setup(a, b)
    &&& b.over
    &&& b.status == (if a.cutoff_reached {
        Status::Cutoff
    } else {
        Status::TimeLimit
    })
    &&& b.iterations == a.iterations
    &&& b.stats == a.stats
    &&& b.init_left == a.init_left
    &&& a.pool@.len() > 0 ==> b.pool@ == a.pool@ && b.incumbent == a.incumbent && b.rng == a.rng
    &&& a.pool@.len() == 0 ==> b.pool@.len() == 1 && b.pool@[0].sol@ == rng::random_bits(
        a.rng,
        instance.n() as nat,
    ) && b.incumbent.obj == b.pool@[0].obj && (b.incumbent.sol matches Some(s) && s@
        == b.pool@[0].sol@) && b.rng == rng::advanced_by(a.rng, instance.n() as nat)
}

/// The statistics after an operator made a child.
pub open spec fn is_noted(
    a: Seq<OpStats>,
    op: Operator,
    benefited: bool,
    improved: bool,
    b: Seq<OpStats>,
) -> bool {
    let i = operator_index(op);
    b == a.update(
        i,
        OpStats {
            attempts: run::counted(a[i].attempts, 1),
            benefited: run::counted(a[i].benefited, benefited as u64),
            improved_incumbent: run::counted(a[i].improved_incumbent, improved as u64),
        },
    )
}

/// A member of the pool is drawn and varied, and the child is offered.
pub open spec fn is_offspring_step<V: VarDomain>(
    instance: &HuboInstance<V>,
    a: &Search,
    b: &Search,
) -> bool {
    let base = rng::drawn(a.rng, a.pool@.len() as int);
    let op = operator_at(a.iterations);
    &&& same_setup(a, b)
    &&& b.init_left == 0
    &&& b.iterations == run::counted(a.iterations, 1)
    &&& exists|c: Candidate|
        is_child(
            instance,
            op,
            a.pool@,
            base,
            a.xor_max_flips,
            rng::after_draw(a.rng, a.pool@.len() as int),
            c.sol@,
            b.rng,
        ) && c.obj == instance.objective(c.sol@) && #[trigger] is_inserted(
            a.pool@,
            a.pool_cap,
            c,
            b.pool@,
        ) && is_met(a.incumbent, c, b.incumbent) && is_noted(
            a.stats@,
            op,
            c.obj < a.pool@[base].obj,
            c.obj < a.incumbent.obj,
            b.stats@,
        ) && b.over == is_cut(a, c.obj)
    &&& b.over ==> b.status == Status::Cutoff
}

/// `b` is the search `a` ended for the given reason.
pub open spec fn is_ended(a: &Search, b: &Search, status: Status) -> bool {
    &&& same_setup(a, b)
    &&& b.over
    &&& b.status == status
    &&& b.pool == a.pool
    &&& b.incumbent == a.incumbent
    &&& b.iterations == a.iterations
    &&& b.stats == a.stats
    &&& b.rng == a.rng
    &&& b.init_left == a.init_left
}

/// One step of the search.
pub open spec fn is_step<V: VarDomain>(
    instance: &HuboInstance<V>,
    signals: Signals,
    a: &Search,
    b: &Search,
) -> bool {
    if a.init_left > 0 {
        if signals.timed_out {
            is_init_timeout(instance, a, b)
        } else {
            is_init_step(instance, a, b)
        }
    } else if signals.interrupted {
        is_ended(a, b, Status::Interrupted)
    } else if a.max_iterations matches Some(m) && a.iterations >= m {
        is_ended(a, b, Status::Completed)
    } else if signals.timed_out {
        is_ended(a, b, Status::TimeLimit)
    } else {
        is_offspring_step(instance, a, b)
    }
}

/// The state in which the search starts: the pool is empty, and all random
/// assignments are still to be drawn.
pub open spec fn is_start(config: Config, r: &Search) -> bool {
    &&& r.pool_cap == (if config.pool_size == 0 {
        1
    } else {
        config.pool_size
    })
    &&& r.init_left == (if config.init_solutions < r.pool_cap {
        r.pool_cap
    } else {
        config.init_solutions
    })
    &&& r.xor_max_flips == (if config.xor_max_flips == 0 {
        1
    } else {
        config.xor_max_flips
    })
    &&& r.max_iterations == config.max_iterations
    &&& r.cutoff == config.cutoff
    &&& r.rng == rng::seeded(config.seed)
    &&& r.pool@.len() == 0
    &&& r.incumbent.sol is None
    &&& r.iterations == 0
    &&& r.stats@.len() == 3
    &&& forall|i: int|
        0 <= i < 3 ==> #[trigger] r.stats@[i] == (OpStats {
            attempts: 0,
            benefited: 0,
            improved_incumbent: 0,
        })
    &&& !r.cutoff_reached
    &&& !r.over
    &&& r.status == Status::Completed
}

/// All members belong to the instance.
pub open spec fn pool_ok<V: VarDomain>(instance: &HuboInstance<V>, pool: Seq<Candidate>) -> bool {
    forall|i: int|
        0 <= i < pool.len() ==> (#[trigger] pool[i]).sol@.len() == instance.n() && pool[i].obj
            == instance.objective(pool[i].sol@)
}

proof fn lemma_inserted_ok<V: VarDomain>(
    instance: &HuboInstance<V>,
    before: Seq<Candidate>,
    cap: usize,
    c: Candidate,
    after: Seq<Candidate>,
)
    requires
        is_inserted(before, cap, c, after),
        pool_ok(instance, before),
        c.sol@.len() == instance.n(),
        c.obj == instance.objective(c.sol@),
        cap > 0,
    ensures
        pool_ok(instance, after),
        after.len() > 0,
{
    if !is_new(before, c.sol@) {
        let p = choose|p: int| #[trigger]
            is_first_equal(before, c.sol@, p) && after == (if c.obj < before[p].obj {
                before.update(p, c)
            } else {
                before
            });
    } else if before.len() < cap {
    } else if before.len() <= 1 {
    } else {
        let (e, v) = choose|e: int, v: int| #[trigger]
            is_elite(before, e) && #[trigger] is_victim(before, e, before.len(), v) && after == (
            if replaces(before, c, v) {
                before.update(v, c)
            } else {
                before
            });
    }
}

impl Search {
    /// The parts of the search fit together.
    pub open spec fn wf<V: VarDomain>(&self, instance: &HuboInstance<V>) -> bool {
        &&& self.pool_cap > 0
        &&& self.xor_max_flips > 0
        &&& self.stats@.len() == 3
        &&& pool_ok(instance, self.pool@)
        &&& self.incumbent.wf(instance)
        &&& self.pool@.len() > 0 ==> self.incumbent.sol is Some
        &&& self.init_left == 0 || self.over ==> self.pool@.len() > 0
        &&& self.cutoff_reached ==> self.pool@.len() > 0
        &&& self.cutoff_reached ==> run::meets_cutoff(self.cutoff, self.incumbent.obj)
        &&& self.cutoff_reached <==> self.over && self.status == Status::Cutoff
        &&& !self.over ==> self.status == Status::Completed
        &&& !self.over && self.pool@.len() > 0 ==> !run::meets_cutoff(
            self.cutoff,
            self.incumbent.obj,
        )
        &&& self.pool@.len() == 0 ==> self.incumbent.sol is None
    }

    /// Start the search.
    pub fn start<V: VarDomain>(instance: &HuboInstance<V>, config: &Config) -> (r: Self)
        ensures
            r.wf(instance),
            is_start(*config, &r),
    {
        let pool_cap: usize = if config.pool_size == 0 {
            1
        } else {
            config.pool_size
        };
        let init_left: usize = if config.init_solutions < pool_cap {
            pool_cap
        } else {
            config.init_solutions
        };
        let xor_max_flips: usize = if config.xor_max_flips == 0 {
            1
        } else {
            config.xor_max_flips
        };
        let none = OpStats { attempts: 0, benefited: 0, improved_incumbent: 0 };
        let mut stats: Vec<OpStats> = Vec::new();
        stats.push(none);
        stats.push(none);
        stats.push(none);
        Search {
            pool_cap,
            xor_max_flips,
            max_iterations: config.max_iterations,
            cutoff: config.cutoff,
            init_left,
            rng: Rng::new(config.seed),
            pool: Vec::new(),
            incumbent: Incumbent::new(),
            iterations: 0,
            stats,
            cutoff_reached: false,
            over: false,
            status: Status::Completed,
        }
    }

    /// Draw one of the first random assignments.
    fn init_step<V: VarDomain>(&mut self, instance: &HuboInstance<V>)
        requires
            run::is_searchable(instance),
            old(self).wf(instance),
            !old(self).over,
            old(self).init_left > 0,
        ensures
            final(self).wf(instance),
            is_init_step(instance, old(self), final(self)),
    {
        let ghost s0 = *self;
        let n: usize = instance.n_vars();
        let sol = rng::random_solution(n, &mut self.rng);
        let child = Walk::from_solution(instance, sol);
        let improved = self.incumbent.offer(instance, &child);
        proof {
            term::lemma_poly_range(V::tag(), instance.terms@, child.sol@);
        }
        if improved && self.incumbent.reaches(self.cutoff) {
            self.cutoff_reached = true;
        }
        let candidate = Candidate { obj: child.obj, sol: child.sol };
        let ghost c = candidate;
        try_insert_into_pool(&mut self.pool, self.pool_cap, candidate, n);
        proof {
            lemma_inserted_ok(instance, s0.pool@, s0.pool_cap, c, self.pool@);
        }
        self.init_left = self.init_left - 1;
        if self.cutoff_reached {
            self.over = true;
            self.status = Status::Cutoff;
        }
        assert(is_inserted(s0.pool@, s0.pool_cap, c, self.pool@));
    }

    /// End the search while random assignments are drawn.
    fn init_timeout<V: VarDomain>(&mut self, instance: &HuboInstance<V>)
        requires
            run::is_searchable(instance),
            old(self).wf(instance),
            !old(self).over,
        ensures
            final(self).wf(instance),
            is_init_timeout(instance, old(self), final(self)),
    {
        let n: usize = instance.n_vars();
        if self.pool.len() == 0 {
            let sol = rng::random_solution(n, &mut self.rng);
            let child = Walk::from_solution(instance, sol);
            self.incumbent = Incumbent { obj: child.obj, sol: Some(child.sol.clone()) };
            self.pool.push(Candidate { obj: child.obj, sol: child.sol });
        }
        self.over = true;
        self.status = if self.cutoff_reached {
            Status::Cutoff
        } else {
            Status::TimeLimit
        };
    }

    /// Draw a member and vary it.
    fn offspring_step<V: VarDomain>(&mut self, instance: &HuboInstance<V>)
        requires
            run::is_searchable(instance),
            old(self).wf(instance),
            !old(self).over,
            old(self).init_left == 0,
        ensures
            final(self).wf(instance),
            is_offspring_step(instance, old(self), final(self)),
    {
        let ghost s0 = *self;
        let n: usize = instance.n_vars();
        let base_idx: usize = self.rng.index(self.pool.len());
        let ghost r1 = self.rng;
        let base_obj: i64 = self.pool[base_idx].obj;
        assert(self.pool@[base_idx as int].sol@.len() == n);
        let mut child = Walk::from_solution(instance, self.pool[base_idx].sol.clone());
        let ghost x = child.sol@;
        let op = Operator::at(self.iterations);
        match op {
            Operator::OneFlip => {
                if n > 0 {
                    let v: usize = self.rng.index(n);
                    child.flip(instance, v);
                }
            },
            Operator::BestFlip => {
                if n > 0 {
                    match child.steepest(instance) {
                        Some(v) => {
                            assert(walk::is_steepest(instance, x, Some(v)));
                            assert(instance.flip_change(x, v as int) < 0);
                            child.flip(instance, v);
                            assert(walk::is_steepest_step(instance, x, child.sol@));
                        },
                        None => {
                            let v: usize = self.rng.index(n);
                            child.flip(instance, v);
                        },
                    }
                }
            },
            Operator::Xor => {
                apply_xor_move(
                    instance,
                    &self.pool,
                    &mut self.rng,
                    base_idx,
                    self.xor_max_flips,
                    &mut child,
                );
            },
        }
        assert(is_child(
            instance,
            op,
            s0.pool@,
            base_idx as int,
            s0.xor_max_flips,
            r1,
            child.sol@,
            self.rng,
        ));
        let benefited: u64 = if child.obj < base_obj {
            1
        } else {
            0
        };
        let improved = self.incumbent.offer(instance, &child);
        let improved_count: u64 = if improved {
            1
        } else {
            0
        };
        let i: usize = op.idx();
        let st = self.stats[i];
        self.stats.set(
            i,
            OpStats {
                attempts: run::add_counts(st.attempts, 1),
                benefited: run::add_counts(st.benefited, benefited),
                improved_incumbent: run::add_counts(st.improved_incumbent, improved_count),
            },
        );
        if improved && self.incumbent.reaches(self.cutoff) {
            self.cutoff_reached = true;
            self.over = true;
            self.status = Status::Cutoff;
        }
        let candidate = Candidate { obj: child.obj, sol: child.sol };
        let ghost c = candidate;
        try_insert_into_pool(&mut self.pool, self.pool_cap, candidate, n);
        proof {
            lemma_inserted_ok(instance, s0.pool@, s0.pool_cap, c, self.pool@);
        }
        self.iterations = run::add_counts(self.iterations, 1);
        assert(is_noted(
            s0.stats@,
            op,
            c.obj < s0.pool@[base_idx as int].obj,
            c.obj < s0.incumbent.obj,
            self.stats@,
        ));
        assert(is_inserted(s0.pool@, s0.pool_cap, c, self.pool@));
    }

    /// Make one step; whether the search goes on.
    pub fn step<V: VarDomain>(&mut self, instance: &HuboInstance<V>, signals: Signals) -> (r: bool)
        requires
            run::is_searchable(instance),
            old(self).wf(instance),
            !old(self).over,
        ensures
            final(self).wf(instance),
            is_step(instance, signals, old(self), final(self)),
            r == !final(self).over,
    {
        if self.init_left > 0 {
            if signals.timed_out {
                self.init_timeout(instance);
            } else {
                self.init_step(instance);
            }
            return !self.over;
        }
        if signals.interrupted {
            self.over = true;
            self.status = Status::Interrupted;
            return false;
        }
        let spent: bool = match self.max_iterations {
            Some(m) => self.iterations >= m,
            None => false,
        };
        if spent {
            self.over = true;
            self.status = Status::Completed;
            return false;
        }
        if signals.timed_out {
            self.over = true;
            self.status = Status::TimeLimit;
            return false;
        }
        self.offspring_step(instance);
        !self.over
    }
}

/// The states of a search without signals, up to some state.
pub open spec fn is_path<V: VarDomain>(
    instance: &HuboInstance<V>,
    config: Config,
    states: Seq<Search>,
) -> bool {
    &&& states.len() > 0
    &&& is_start(config, &states[0])
    &&& forall|k: int| 0 <= k < states.len() ==> (#[trigger] states[k]).wf(instance)
    &&& forall|k: int|
        0 <= k < states.len() - 1 ==> !(#[trigger] states[k]).over && is_step(
            instance,
            greedy::quiet(),
            &states[k],
            &states[k + 1],
        )
}

/// The states of a search without signals, from the start to the end.
pub open spec fn is_search<V: VarDomain>(
    instance: &HuboInstance<V>,
    config: Config,
    states: Seq<Search>,
) -> bool {
    &&& is_path(instance, config, states)
    &&& states.last().over
}

proof fn lemma_path_push<V: VarDomain>(
    instance: &HuboInstance<V>,
    config: Config,
    states: Seq<Search>,
    b: Search,
)
    requires
        is_path(instance, config, states),
        !states.last().over,
        is_step(instance, greedy::quiet(), &states.last(), &b),
        b.wf(instance),
    ensures
        is_path(instance, config, states.push(b)),
{
    let t = states.push(b);
    assert forall|k: int| 0 <= k < t.len() - 1 implies !(#[trigger] t[k]).over && is_step(
        instance,
        greedy::quiet(),
        &t[k],
        &t[k + 1],
    ) by {
        assert(t[k] == states[k]);
        if k < states.len() - 1 {
            assert(t[k + 1] == states[k + 1]);
        }
    }
}

/// What a step without signals does: it draws one of the first assignments, makes
/// a child, or ends.
pub open spec fn progresses<V: VarDomain>(
    instance: &HuboInstance<V>,
    a: &Search,
    b: &Search,
) -> bool {
    &&& same_setup(a, b)
    &&& b.pool@.len() > 0
    &&& a.pool@.len() > 0 ==> b.incumbent.obj <= a.incumbent.obj
    &&& a.pool@.len() == 0 ==> a.init_left > 0 && b.incumbent.obj == instance.objective(
        rng::random_bits(a.rng, instance.n() as nat),
    ) && (b.incumbent.sol matches Some(s) && s@ == rng::random_bits(a.rng, instance.n() as nat))
    &&& if a.init_left > 0 {
        b.iterations == a.iterations && b.init_left == a.init_left - 1 && (b.over ==> b.status
            == Status::Cutoff)
    } else if a.max_iterations matches Some(m) && a.iterations >= m {
        b.over && b.status == Status::Completed && b.iterations == a.iterations && b.incumbent
            == a.incumbent && b.init_left == 0
    } else {
        b.init_left == 0 && b.iterations == run::counted(a.iterations, 1) && (b.over ==> b.status
            == Status::Cutoff)
    }
}

/// How far a search that starts with the assignment `x0` and makes `m` children
/// has come.
pub open spec fn is_paced<V: VarDomain>(
    instance: &HuboInstance<V>,
    r0: Rng,
    x0: Seq<bool>,
    m: u64,
    s: &Search,
) -> bool {
    &&& s.max_iterations == Some(m)
    &&& s.iterations <= m
    &&& s.init_left > 0 ==> s.iterations == 0
    &&& s.pool@.len() == 0 ==> s.rng == r0
    &&& s.pool@.len() > 0 ==> s.incumbent.obj <= instance.objective(x0)
    &&& s.over ==> s.status == Status::Completed || s.status == Status::Cutoff
    &&& s.over && s.status == Status::Completed ==> s.iterations == m && !run::meets_cutoff(
        s.cutoff,
        s.incumbent.obj,
    )
    &&& s.pool@.len() > 0 && (s.cutoff matches Some(c) && instance.objective(x0) <= c) ==> s.over
        && s.iterations == 0 && (s.incumbent.sol matches Some(y) && y@ == x0)
}

/// The search ends by the cutoff, without signals, exactly when the incumbent meets
/// it.
spec fn is_cut_off(s: &Search) -> bool {
    &&& s.over && s.status == Status::Cutoff ==> run::meets_cutoff(s.cutoff, s.incumbent.obj)
    &&& !s.over && s.pool@.len() > 0 ==> !run::meets_cutoff(s.cutoff, s.incumbent.obj)
    &&& s.init_left == 0 ==> s.pool@.len() > 0
}

proof fn lemma_paced<V: VarDomain>(
    instance: &HuboInstance<V>,
    r0: Rng,
    x0: Seq<bool>,
    m: u64,
    a: &Search,
    b: &Search,
)
    requires
        is_cut_off(a),
        is_cut_off(b),
        !a.over,
        x0 == rng::random_bits(r0, instance.n() as nat),
        is_paced(instance, r0, x0, m, a),
        progresses(instance, a, b),
    ensures
        is_paced(instance, r0, x0, m, b),
{
}

/// A step without signals, as the next state of a search.
fn quiet_step<V: VarDomain>(
    search: &mut Search,
    instance: &HuboInstance<V>,
    Ghost(config): Ghost<Config>,
    Ghost(states): Ghost<Seq<Search>>,
)
    requires
        run::is_searchable(instance),
        is_path(instance, config, states),
        states.last() == *old(search),
        !old(search).over,
    ensures
        final(search).wf(instance),
        is_path(instance, config, states.push(*final(search))),
        progresses(instance, old(search), final(search)),
{
    let quiet = Signals { interrupted: false, timed_out: false };
    let ghost s0 = *search;
    assert(states[states.len() - 1].wf(instance));
    let going = search.step(instance, quiet);
    proof {
        if s0.init_left > 0 {
            let c = choose|c: Candidate|
                c.sol@ == rng::random_bits(s0.rng, instance.n() as nat) && c.obj
                    == instance.objective(c.sol@) && #[trigger] is_inserted(
                    s0.pool@,
                    s0.pool_cap,
                    c,
                    search.pool@,
                ) && is_met(s0.incumbent, c, search.incumbent) && search.cutoff_reached == (
                s0.cutoff_reached || is_cut(&s0, c.obj));
            lemma_inserted_ok(instance, s0.pool@, s0.pool_cap, c, search.pool@);
            run::lemma_below_max(instance, c.sol@);
        }
        lemma_path_push(instance, config, states, *search);
    }
}

impl Search {
    /// The result: the incumbent with its objective.
    pub fn finish<V: VarDomain>(self, instance: &HuboInstance<V>) -> (r: Outcome)
        requires
            run::is_searchable(instance),
            self.wf(instance),
            self.over,
        ensures
            run::is_reported(self.incumbent, self.status, self.iterations, r),
            r.objective == instance.objective(r.solution@),
            r.solution@.len() == instance.n(),
    {
        run::report(instance, self.incumbent, self.status, self.iterations)
    }
}

/// Search without signals until the search ends by itself: by the cutoff exactly
/// when an assignment that meets it was found, else after all iterations. When the
/// first random assignment meets the cutoff no child is made.
pub fn solve<V: VarDomain>(instance: &HuboInstance<V>, config: &Config) -> (r: Outcome)
    requires
        run::is_searchable(instance),
        config.max_iterations is Some,
    ensures
        exists|states: Seq<Search>| #[trigger]
            is_search(instance, *config, states) && run::is_reported(
                states.last().incumbent,
                states.last().status,
                states.last().iterations,
                r,
            ),
        r.solution@.len() == instance.n(),
        r.objective == instance.objective(r.solution@),
        r.status == (if run::meets_cutoff(config.cutoff, r.objective) {
            Status::Cutoff
        } else {
            Status::Completed
        }),
        r.status == Status::Completed ==> r.iterations == config.max_iterations->0,
        r.iterations <= config.max_iterations->0,
        r.objective <= instance.objective(
            rng::random_bits(rng::seeded(config.seed), instance.n() as nat),
        ),
        (config.cutoff matches Some(c) && instance.objective(
            rng::random_bits(rng::seeded(config.seed), instance.n() as nat),
        ) <= c) ==> r.iterations == 0 && r.solution@ == rng::random_bits(
            rng::seeded(config.seed),
            instance.n() as nat,
        ),
{
    let mut search = Search::start(instance, config);
    let ghost r0 = rng::seeded(config.seed);
    let ghost x0 = rng::random_bits(r0, instance.n() as nat);
    let ghost m: u64 = config.max_iterations->0;
    let ghost mut states: Seq<Search> = seq![search];
    while !search.over
        invariant
            run::is_searchable(instance),
            search.wf(instance),
            config.max_iterations == Some(m),
            search.cutoff == config.cutoff,
            is_path(instance, *config, states),
            states.last() == search,
            x0 == rng::random_bits(r0, instance.n() as nat),
            is_paced(instance, r0, x0, m, &search),
        decreases
                (if search.over {
                    0int
                } else {
                    1
                }),
                search.init_left,
                m - search.iterations,
    {
        let ghost s0 = search;
        quiet_step(&mut search, instance, Ghost(*config), Ghost(states));
        proof {
            lemma_paced(instance, r0, x0, m, &s0, &search);
            states = states.push(search);
        }
    }
    let r = search.finish(instance);
    assert(is_search(instance, *config, states));
    r
}

/// The distances of all pairs of members in all, and the number of pairs.
pub fn pairwise_hamming(pool: &Vec<Candidate>, n: usize) -> (r: (u128, u128))
    requires
        members_ok(pool@, n as nat),
        pool@.len() * pool@.len() * n <= u128::MAX,
    ensures
        r.0 == pair_distances(pool@, pool@.len()),
        2 * r.1 == pool@.len() * (pool@.len() - 1),
{
    let len: usize = pool.len();
    let mut sum: u128 = 0;
    let mut pairs: u128 = 0;
    let mut i: usize = 0;
    while i < len
        invariant
            i <= len,
            len == pool@.len(),
            members_ok(pool@, n as nat),
            len * len * n <= u128::MAX,
            sum == pair_distances(pool@, i as nat),
            2 * pairs == i * (i - 1),
        decreases len - i,
    {
        let ghost sum0 = sum;
        let ghost pairs0 = pairs;
        let mut j: usize = 0;
        assert(i * (i - 1) <= u64::MAX * u64::MAX) by (nonlinear_arith)
            requires
                0 <= i <= u64::MAX,
        ;
        while j < i
            invariant
                j <= i,
                i < len,
                len == pool@.len(),
                members_ok(pool@, n as nat),
                len * len * n <= u128::MAX,
                sum0 == pair_distances(pool@, i as nat),
                sum == sum0 + distances_to(pool@, i as int, j as nat),
                pairs == pairs0 + j,
                2 * pairs0 <= u64::MAX * u64::MAX,
            decreases i - j,
        {
            assert(pool@[i as int].sol@.len() == n && pool@[j as int].sol@.len() == n);
            let d: usize = hamming_distance(&pool[j].sol, &pool[i].sol, n);
            proof {
                lemma_pair_distances(pool@, n as nat, i as nat);
                lemma_distances_to(pool@, n as nat, i as int, (j + 1) as nat);
                assert(i * i * n + (j + 1) * n <= len * len * n) by (nonlinear_arith)
                    requires
                        0 <= j < i < len,
                        0 <= n,
                ;
            }
            sum = sum + d as u128;
            pairs = pairs + 1;
            j += 1;
        }
        assert((i + 1) * i == i * (i - 1) + 2 * i) by (nonlinear_arith);
        i += 1;
    }
    (sum, pairs)
}

} // verus!
