//! What the population search, its moves and the shuffles do to assignments.

use crate::domain::VarDomain;
use crate::heuristic::Signals;
use crate::heuristic::parallel_tempering::Schedule;
use crate::heuristic::parallel_tempering;
use crate::heuristic::pool::{Candidate, Operator};
use crate::heuristic::pool;
use crate::heuristic::rng::Rng;
use crate::heuristic::rng;
use crate::heuristic::saw;
use crate::heuristic::search_laws;
use crate::heuristic::walk;
use crate::instance::HuboInstance;
use crate::solution;
use vstd::prelude::*;

verus! {

/// Any three iterations in a row use all three operators.
pub proof fn operators_take_turns(i: u64)
    requires
        i <= u64::MAX - 2,
    ensures
        pool::operator_at(i) != pool::operator_at((i + 1) as u64),
        pool::operator_at(i) != pool::operator_at((i + 2) as u64),
        pool::operator_at((i + 1) as u64) != pool::operator_at((i + 2) as u64),
{
}

proof fn lemma_drawn(r: Rng, n: int)
    requires
        n > 0,
    ensures
        0 <= rng::drawn(r, n) < n,
{
}

/// A random flip changes one variable.
proof fn lemma_random_flip(x: Seq<bool>, r: Rng, y: Seq<bool>, r2: Rng)
    requires
        x.len() > 0,
        pool::is_random_flip(x, r, y, r2),
    ensures
        exists|v: int| search_laws::differs_at(x, y, v),
{
    lemma_drawn(r, x.len() as int);
    assert(search_laws::differs_at(x, y, rng::drawn(r, x.len() as int)));
}

proof fn lemma_hamming_flip(a: Seq<bool>, b: Seq<bool>, v: int, k: nat)
    requires
        a.len() == b.len(),
        k <= a.len(),
        0 <= v < a.len(),
        a[v] == b[v],
    ensures
        pool::hamming(a, solution::flipped(b, v), k) == pool::hamming(a, b, k) + (if v < k {
            1nat
        } else {
            0
        }),
    decreases k,
{
    if k > 0 {
        lemma_hamming_flip(a, b, v, (k - 1) as nat);
    }
}

proof fn lemma_hamming_same(a: Seq<bool>, k: nat)
    ensures
        pool::hamming(a, a, k) == 0,
    decreases k,
{
    if k > 0 {
        lemma_hamming_same(a, (k - 1) as nat);
    }
}

proof fn lemma_differing(x: Seq<bool>, y: Seq<bool>, k: nat)
    requires
        k <= x.len() <= usize::MAX,
    ensures
        forall|i: int|
            0 <= i < pool::differing(x, y, k).len() ==> (#[trigger] pool::differing(x, y, k)[i]) < k
                && x[pool::differing(x, y, k)[i] as int] != y[pool::differing(x, y, k)[i] as int],
        pool::differing(x, y, k).no_duplicates(),
        pool::differing(x, y, k).len() == pool::hamming(x, y, k),
    decreases k,
{
    if k > 0 {
        lemma_differing(x, y, (k - 1) as nat);
    }
}

proof fn lemma_dealt(deck: Seq<usize>, p: int)
    requires
        0 <= p < deck.len(),
        deck.no_duplicates(),
    ensures
        saw::dealt(deck, p).len() == deck.len() - 1,
        saw::dealt(deck, p).no_duplicates(),
        forall|i: int|
            0 <= i < deck.len() - 1 ==> (#[trigger] saw::dealt(deck, p)[i]) != deck[p]
                && deck.contains(saw::dealt(deck, p)[i]),
{
    let d = saw::dealt(deck, p);
    assert forall|i: int| 0 <= i < deck.len() - 1 implies (#[trigger] d[i]) != deck[p]
        && deck.contains(d[i]) by {
        if i == p {
            assert(d[i] == deck[deck.len() - 1]);
        } else {
            assert(d[i] == deck[i]);
        }
    }
    assert forall|i: int, j: int| 0 <= i < j < d.len() implies d[i] != d[j] by {
        let a = if i == p { deck.len() - 1 } else { i };
        let b = if j == p { deck.len() - 1 } else { j };
        assert(deck[a] != deck[b]);
    }
}

proof fn lemma_dealt_flips(x: Seq<bool>, deck: Seq<usize>, r: Rng, k: nat)
    requires
        k <= deck.len(),
        deck.no_duplicates(),
        forall|i: int| 0 <= i < deck.len() ==> (#[trigger] deck[i]) < x.len(),
    ensures
        ({
            let (y, d, s) = pool::dealt_flips(x, deck, r, k);
            &&& y.len() == x.len()
            &&& d.len() == deck.len() - k
            &&& d.no_duplicates()
            &&& forall|i: int| 0 <= i < d.len() ==> deck.contains(#[trigger] d[i])
            &&& forall|i: int| 0 <= i < d.len() ==> y[(#[trigger] d[i]) as int] == x[d[i] as int]
            &&& forall|v: int|
                0 <= v < x.len() && #[trigger] y[v] != x[v] ==> deck.contains(v as usize)
            &&& pool::hamming(x, y, x.len()) == k
        }),
    decreases k,
{
    if k > 0 {
        lemma_dealt_flips(x, deck, r, (k - 1) as nat);
        let (y, d, s) = pool::dealt_flips(x, deck, r, (k - 1) as nat);
        let p = rng::drawn(s, d.len() as int);
        lemma_drawn(s, d.len() as int);
        let v = d[p];
        assert(deck.contains(v));
        let place = deck.index_of(v);
        assert(deck[place] < x.len());
        lemma_dealt(d, p);
        lemma_hamming_flip(x, y, v as int, x.len());
        let (y2, d2, s2) = pool::dealt_flips(x, deck, r, k);
        assert forall|i: int| 0 <= i < d2.len() implies deck.contains(#[trigger] d2[i]) && y2[
        d2[i] as int] == x[d2[i] as int] by {
            assert(d.contains(d2[i]));
            let j = d.index_of(d2[i]);
            assert(deck.contains(d[j]));
            let q = deck.index_of(d[j]);
            assert(deck[q] < x.len());
        }
    } else {
        lemma_hamming_same(x, x.len());
        assert forall|i: int| 0 <= i < deck.len() implies deck.contains(#[trigger] deck[i]) by {}
    }
}

/// What the operators make of a member: one flip changes one variable; an exchange
/// changes between one and `max_flips` variables, and only such as another member
/// has otherwise, where there is one that differs; the best flip goes to the best
/// neighbour where one is better, and else changes one variable.
pub proof fn children_are_near_their_parents<V: VarDomain>(
    instance: &HuboInstance<V>,
    op: Operator,
    members: Seq<Candidate>,
    base: int,
    max_flips: usize,
    r: Rng,
    y: Seq<bool>,
    r2: Rng,
)
    requires
        pool::members_ok(members, instance.n() as nat),
        0 < instance.n() <= usize::MAX,
        0 <= base < members.len(),
        max_flips > 0,
        pool::is_child(instance, op, members, base, max_flips, r, y, r2),
    ensures
        ({
            let x = members[base].sol@;
            let one = exists|v: int| search_laws::differs_at(x, y, v);
            match op {
                Operator::OneFlip => one,
                Operator::Xor => one || exists|p: int|
                    0 <= p < members.len() && p != base && #[trigger] is_exchange(
                        x,
                        members[p].sol@,
                        y,
                        max_flips as nat,
                    ),
                Operator::BestFlip => one && (instance.objective(y) < instance.objective(x)
                    || forall|u: int|
                    0 <= u < x.len() ==> instance.objective(x)
                        <= #[trigger] search_laws::objective_without(instance, x, u)) && ((exists|
                    u: int,
                |
                    0 <= u < x.len() && #[trigger] search_laws::objective_without(instance, x, u)
                        < instance.objective(x)) ==> forall|u: int|
                    0 <= u < x.len() ==> instance.objective(y)
                        <= #[trigger] search_laws::objective_without(instance, x, u)),
            }
        }),
{
    let x = members[base].sol@;
    assert(x.len() == instance.n());
    match op {
        Operator::OneFlip => {
            lemma_random_flip(x, r, y, r2);
        },
        Operator::Xor => {
            if members.len() < 2 {
                lemma_random_flip(x, r, y, r2);
            } else {
                lemma_drawn(r, members.len() - 1);
                let p = pool::peer_index(r, base, members.len() as int);
                let peer = members[p].sol@;
                assert(peer.len() == instance.n());
                let s = rng::after_draw(r, members.len() - 1);
                let deck = pool::differing(x, peer, x.len());
                if deck.len() == 0 {
                    lemma_random_flip(x, s, y, r2);
                } else {
                    let most = if max_flips < deck.len() {
                        max_flips as int
                    } else {
                        deck.len() as int
                    };
                    lemma_drawn(s, most);
                    let flips = 1 + rng::drawn(s, most);
                    lemma_differing(x, peer, x.len());
                    lemma_dealt_flips(x, deck, rng::after_draw(s, most), flips as nat);
                    assert forall|v: int| 0 <= v < x.len() && #[trigger] y[v] != x[v] implies peer[v]
                        != x[v] by {
                        let i = deck.index_of(v as usize);
                        assert(deck[i] == v);
                    }
                    assert(is_exchange(x, members[p].sol@, y, max_flips as nat));
                }
            }
        },
        Operator::BestFlip => {
            if walk::is_local_minimum(instance, x) {
                lemma_random_flip(x, r, y, r2);
                assert forall|u: int| 0 <= u < x.len() implies instance.objective(x)
                    <= #[trigger] search_laws::objective_without(instance, x, u) by {
                    assert(instance.flip_change(x, u) >= 0);
                }
            } else {
                let v = choose|v: usize| #[trigger]
                    walk::is_steepest(instance, x, Some(v)) && y == solution::flipped(x, v as int);
                assert(search_laws::differs_at(x, y, v as int));
                assert forall|u: int| 0 <= u < x.len() implies instance.objective(y)
                    <= #[trigger] search_laws::objective_without(instance, x, u) by {
                    assert(instance.flip_change(x, v as int) <= instance.flip_change(x, u));
                }
            }
        },
    }
}

/// `y` is `x` with between one and `most` variables taken from `peer`.
pub open spec fn is_exchange(x: Seq<bool>, peer: Seq<bool>, y: Seq<bool>, most: nat) -> bool {
    &&& y.len() == x.len()
    &&& forall|v: int| 0 <= v < x.len() && #[trigger] y[v] != x[v] ==> y[v] == peer[v]
    &&& 1 <= pool::hamming(x, y, x.len()) <= most
}

/// Two different draws give two different peers, and none gives the base: every other
/// member can be drawn.
pub proof fn every_other_member_can_be_drawn(a: Rng, b: Rng, base: int, len: int)
    requires
        0 <= base < len,
        len >= 2,
    ensures
        0 <= pool::peer_index(a, base, len) < len,
        pool::peer_index(a, base, len) != base,
        rng::drawn(a, len - 1) != rng::drawn(b, len - 1) ==> pool::peer_index(a, base, len)
            != pool::peer_index(b, base, len),
{
    lemma_drawn(a, len - 1);
    lemma_drawn(b, len - 1);
}

proof fn lemma_least_distance(members: Seq<Candidate>, x: Seq<bool>, skip: int, k: nat)
    ensures
        forall|i: int|
            0 <= i < k && i != skip ==> (pool::least_distance(members, x, skip, k) matches Some(d)
                && d <= pool::hamming((#[trigger] members[i]).sol@, x, x.len())),
        pool::least_distance(members, x, skip, k) matches Some(d) ==> exists|i: int|
            0 <= i < k && i != skip && d == pool::hamming(
                (#[trigger] members[i]).sol@,
                x,
                x.len(),
            ),
    decreases k,
{
    if k > 0 {
        lemma_least_distance(members, x, skip, (k - 1) as nat);
        if k - 1 != skip {
            assert(members[k - 1] == members[k - 1]);
        }
    }
}

/// Any two members are at least `m` apart.
pub open spec fn spread(members: Seq<Candidate>, m: nat) -> bool {
    forall|a: int, b: int|
        0 <= a < members.len() && 0 <= b < members.len() && a != b ==> pool::hamming(
            (#[trigger] members[a]).sol@,
            (#[trigger] members[b]).sol@,
            members[b].sol@.len(),
        ) >= m
}

/// A full pool never gets denser: where any two members are at least so far apart, so
/// are they after a candidate was offered. While there is room a new candidate is
/// taken, and a member equal to the candidate ends with the better objective.
pub proof fn insertion_keeps_the_spread(
    before: Seq<Candidate>,
    cap: usize,
    c: Candidate,
    after: Seq<Candidate>,
    n: nat,
    m: nat,
)
    requires
        pool::members_ok(before, n),
        c.sol@.len() == n,
        pool::is_inserted(before, cap, c, after),
        spread(before, m),
    ensures
        before.len() >= cap && before.len() >= 2 ==> spread(after, m),
        before.len() < cap ==> exists|i: int|
            0 <= i < after.len() && (#[trigger] after[i]).sol@ == c.sol@ && after[i].obj <= c.obj,
        after.len() <= before.len() + 1,
        before.len() <= after.len(),
{
    if !pool::is_new(before, c.sol@) {
        let p = choose|p: int| #[trigger]
            pool::is_first_equal(before, c.sol@, p) && after == (if c.obj < before[p].obj {
                before.update(p, c)
            } else {
                before
            });
        assert(after[p].sol@ == c.sol@);
        assert forall|a: int, b: int|
            0 <= a < after.len() && 0 <= b < after.len() && a != b implies pool::hamming(
            (#[trigger] after[a]).sol@,
            (#[trigger] after[b]).sol@,
            after[b].sol@.len(),
        ) >= m by {
            assert(after[a].sol@ == before[a].sol@ && after[b].sol@ == before[b].sol@);
        }
    } else if before.len() < cap {
        assert(after[before.len() as int] == c);
    } else if before.len() >= 2 {
        let (e, v) = choose|e: int, v: int| #[trigger]
            pool::is_elite(before, e) && #[trigger] pool::is_victim(before, e, before.len(), v)
                && after == (if pool::replaces(before, c, v) {
                before.update(v, c)
            } else {
                before
            });
        let k = before.len();
        if pool::replaces(before, c, v) {
            lemma_least_distance(before, before[v].sol@, v, k);
            lemma_least_distance(before, c.sol@, k as int, k);
            let near = pool::crowding(before, v);
            let i = choose|i: int|
                0 <= i < k && i != v && near == pool::hamming(
                    (#[trigger] before[i]).sol@,
                    before[v].sol@,
                    before[v].sol@.len(),
                );
            assert(near >= m) by {
                if pool::least_distance(before, before[v].sol@, v, k) is None {
                    let j: int = if v == 0 {
                        1
                    } else {
                        0
                    };
                    assert(before[j] == before[j]);
                }
            }
            assert forall|a: int, b: int|
                0 <= a < after.len() && 0 <= b < after.len() && a != b implies pool::hamming(
                (#[trigger] after[a]).sol@,
                (#[trigger] after[b]).sol@,
                after[b].sol@.len(),
            ) >= m by {
                assert(before[a].sol@.len() == n && before[b].sol@.len() == n);
                if a == v {
                    pool::distance_separates(after[a].sol@, after[b].sol@, n);
                }
            }
        }
    }
}

proof fn lemma_head_multiset(c: Seq<usize>, t: Seq<usize>, i: int)
    requires
        c.len() == t.len(),
        0 <= i < c.len(),
        c.to_multiset() == t.to_multiset(),
        forall|j: int| i < j < c.len() ==> c[j] == #[trigger] t[j],
    ensures
        exists|j: int| 0 <= j <= i && c[j] == t[i],
{
    broadcast use vstd::seq_lib::group_to_multiset_ensures;

    let hc = c.take(i + 1);
    let ht = t.take(i + 1);
    let tail = c.skip(i + 1);
    assert(tail =~= t.skip(i + 1));
    assert(c =~= hc + tail);
    assert(t =~= ht + tail);
    vstd::seq_lib::lemma_multiset_commutative(hc, tail);
    vstd::seq_lib::lemma_multiset_commutative(ht, tail);
    assert(hc.to_multiset() =~= ht.to_multiset()) by {
        assert forall|v: usize| #[trigger] hc.to_multiset().count(v) == ht.to_multiset().count(
            v,
        ) by {
            assert(c.to_multiset().count(v) == hc.to_multiset().count(v) + tail.to_multiset().count(
                v,
            ));
            assert(t.to_multiset().count(v) == ht.to_multiset().count(v) + tail.to_multiset().count(
                v,
            ));
        }
    }
    assert(ht[i] == t[i]);
    assert(ht.contains(t[i]));
    vstd::seq_lib::to_multiset_contains(ht, t[i]);
    vstd::seq_lib::to_multiset_contains(hc, t[i]);
    let j = hc.index_of(t[i]);
    assert(c[j] == t[i]);
}

proof fn lemma_picks_for(s: Seq<usize>, target: Seq<usize>, k: nat) -> (picks: Seq<usize>)
    requires
        s.len() <= usize::MAX,
        s.to_multiset() == target.to_multiset(),
        s.len() == target.len(),
        k < s.len(),
    ensures
        picks.len() == k,
        forall|i: int| 0 <= i < k ==> (#[trigger] picks[i]) + i < s.len(),
        parallel_tempering::shuffled(s, picks, k).len() == s.len(),
        parallel_tempering::shuffled(s, picks, k).to_multiset() == target.to_multiset(),
        forall|i: int|
            s.len() - k <= i < s.len() ==> parallel_tempering::shuffled(s, picks, k)[i]
                == #[trigger] target[i],
    decreases k,
{
    if k == 0 {
        Seq::empty()
    } else {
        let before = lemma_picks_for(s, target, (k - 1) as nat);
        let c = parallel_tempering::shuffled(s, before, (k - 1) as nat);
        let i = s.len() - k;
        lemma_head_multiset(c, target, i);
        let j = choose|j: int| 0 <= j <= i && c[j] == target[i];
        let picks = before.push(j as usize);
        lemma_shuffled_same(s, before, picks, (k - 1) as nat);
        parallel_tempering::lemma_swap_multiset(c, i, j);
        let r = parallel_tempering::shuffled(s, picks, k);
        assert(r == parallel_tempering::exchanged(c, i, j));
        assert forall|q: int| s.len() - k <= q < s.len() implies r[q] == #[trigger] target[q] by {
            if q > i {
                assert(c[q] == target[q]);
            }
        }
        picks
    }
}

proof fn lemma_shuffled_same(s: Seq<usize>, a: Seq<usize>, b: Seq<usize>, k: nat)
    requires
        forall|i: int| 0 <= i < k ==> a[i] == #[trigger] b[i],
    ensures
        parallel_tempering::shuffled(s, a, k) == parallel_tempering::shuffled(s, b, k),
    decreases k,
{
    if k > 0 {
        lemma_shuffled_same(s, a, b, (k - 1) as nat);
        assert(a[k - 1] == b[k - 1]);
    }
}

/// Every order of a list comes out of its shuffle for some draws.
pub proof fn every_order_can_be_drawn(s: Seq<usize>, target: Seq<usize>) -> (picks: Seq<usize>)
    requires
        s.len() <= usize::MAX,
        s.to_multiset() == target.to_multiset(),
        s.len() == target.len(),
    ensures
        parallel_tempering::are_picks(s.len(), picks),
        parallel_tempering::shuffled(s, picks, picks.len()) == target,
{
    if s.len() == 0 {
        assert(s =~= target);
        Seq::empty()
    } else {
        let k = (s.len() - 1) as nat;
        let picks = lemma_picks_for(s, target, k);
        let r = parallel_tempering::shuffled(s, picks, k);
        lemma_head_multiset(r, target, 0);
        assert(r =~= target);
        picks
    }
}

proof fn lemma_passed<V: VarDomain>(instance: &HuboInstance<V>, x: Seq<bool>, j: nat)
    requires
        j <= x.len(),
    ensures
        parallel_tempering::passed(instance, x, j).len() == x.len(),
        instance.objective(parallel_tempering::passed(instance, x, j)) <= instance.objective(x),
        parallel_tempering::passed(instance, x, j) == x || instance.objective(
            parallel_tempering::passed(instance, x, j),
        ) < instance.objective(x),
        parallel_tempering::passed(instance, x, j) == x ==> forall|u: int|
            0 <= u < j ==> instance.objective(x) <= #[trigger] search_laws::objective_without(
                instance,
                x,
                u,
            ),
    decreases j,
{
    if j > 0 {
        lemma_passed(instance, x, (j - 1) as nat);
        let y = parallel_tempering::passed(instance, x, (j - 1) as nat);
        let z = parallel_tempering::passed(instance, x, j);
        if y == x && z == x {
            assert(instance.flip_change(x, j - 1) >= 0);
        }
    }
}

/// The descent stops where no single change improves the objective, unless its passes
/// run out, and each pass before that improved it.
pub proof fn descent_stops_at_a_minimum<V: VarDomain>(
    instance: &HuboInstance<V>,
    x: Seq<bool>,
    passes: nat,
)
    ensures
        ({
            let y = parallel_tempering::descended(instance, x, passes);
            ||| instance.objective(y) <= instance.objective(x) - passes
            ||| forall|u: int|
                0 <= u < y.len() ==> instance.objective(y)
                    <= #[trigger] search_laws::objective_without(instance, y, u)
        }),
    decreases passes,
{
    if passes > 0 {
        lemma_passed(instance, x, x.len());
        let y = parallel_tempering::passed(instance, x, x.len());
        if y != x {
            descent_stops_at_a_minimum(instance, y, (passes - 1) as nat);
        }
    }
}

/// The crowding of a member is its distance to the nearest other member.
pub proof fn crowding_is_the_least_distance(members: Seq<Candidate>, i: int)
    requires
        0 <= i < members.len(),
        members.len() >= 2,
    ensures
        forall|j: int|
            0 <= j < members.len() && j != i ==> pool::crowding(members, i) <= pool::hamming(
                (#[trigger] members[j]).sol@,
                members[i].sol@,
                members[i].sol@.len(),
            ),
        exists|j: int|
            0 <= j < members.len() && j != i && pool::crowding(members, i) == pool::hamming(
                (#[trigger] members[j]).sol@,
                members[i].sol@,
                members[i].sol@.len(),
            ),
{
    lemma_least_distance(members, members[i].sol@, i, members.len());
    let j: int = if i == 0 {
        1
    } else {
        0
    };
    let x = members[i].sol@;
    assert(pool::hamming(members[j].sol@, x, x.len()) >= 0);
    let d = pool::least_distance(members, x, i, members.len())->0;
    assert(pool::least_distance(members, x, i, members.len()) == Some(d));
    assert(pool::crowding(members, i) == d);
    let w = choose|w: int|
        0 <= w < members.len() && w != i && d == pool::hamming(
            (#[trigger] members[w]).sol@,
            x,
            x.len(),
        );
    assert(d == pool::hamming(members[w].sol@, x, x.len()));
}

/// Between two exchanges of replicas there are exactly as many sweeps as the interval
/// says: none comes earlier, and the next one comes then.
pub proof fn exchanges_keep_their_interval(
    schedule: Schedule,
    done: usize,
    k: usize,
    best: i64,
    signals: Signals,
)
    requires
        schedule.swap_interval > 0,
        done + schedule.swap_interval <= usize::MAX,
        0 < k <= schedule.swap_interval,
        parallel_tempering::actions_after(schedule, done, best, signals) matches Some(a)
            && a.exchange,
    ensures
        parallel_tempering::actions_after(schedule, (done + k) as usize, best, signals) matches Some(
            a,
        ) ==> a.exchange == (k == schedule.swap_interval),
{
    let m = schedule.swap_interval as int;
    let d = done + 1;
    vstd::arithmetic::div_mod::lemma_fundamental_div_mod(d, m);
    let q = d / m;
    assert(d == m * q);
    if k < m {
        vstd::arithmetic::div_mod::lemma_fundamental_div_mod_converse(d + k, m, q, k as int);
    } else {
        assert(m * q + m == m * (q + 1)) by (nonlinear_arith);
        vstd::arithmetic::div_mod::lemma_fundamental_div_mod_converse(d + k, m, q + 1, 0);
    }
}

} // verus!
