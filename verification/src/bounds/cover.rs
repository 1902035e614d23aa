//! Weighted hitting sets: the cheapest selection that meets every given list.

use crate::sets;
use vstd::prelude::*;

verus! {

/// The weight of the selected items among the first `k`.
pub open spec fn cost(weights: Seq<i64>, sel: Seq<bool>, k: nat) -> int
    decreases k,
{
    if k == 0 {
        0
    } else {
        cost(weights, sel, (k - 1) as nat) + (if sel[k - 1] {
            weights[k - 1] as int
        } else {
            0
        })
    }
}

/// The selection has an item of the core.
pub open spec fn hits(sel: Seq<bool>, core: Seq<usize>) -> bool {
    exists|i: int| 0 <= i < core.len() && sel[#[trigger] core[i] as int]
}

/// The selection has an item of every core.
pub open spec fn hits_all(sel: Seq<bool>, cores: Seq<Vec<usize>>) -> bool {
    forall|c: int| 0 <= c < cores.len() ==> hits(sel, (#[trigger] cores[c])@)
}

/// Nonempty lists of items below `n`.
pub open spec fn cores_ok(cores: Seq<Vec<usize>>, n: nat) -> bool {
    forall|c: int| 0 <= c < cores.len() ==> core_ok((#[trigger] cores[c])@, n)
}

/// A nonempty list of items below `n`.
pub open spec fn core_ok(core: Seq<usize>, n: nat) -> bool {
    &&& core.len() > 0
    &&& forall|i: int| 0 <= i < core.len() ==> (#[trigger] core[i]) < n
}

/// Weights at or above zero whose total fits.
pub open spec fn weights_ok(weights: Seq<i64>) -> bool {
    &&& forall|i: int| 0 <= i < weights.len() ==> (#[trigger] weights[i]) >= 0
    &&& cost(weights, all_selected(weights.len()), weights.len()) <= i64::MAX
}

/// Everything selected.
pub open spec fn all_selected(n: nat) -> Seq<bool> {
    Seq::new(n, |i: int| true)
}

/// `sel` hits every core and costs `c`.
pub open spec fn is_cover(
    weights: Seq<i64>,
    cores: Seq<Vec<usize>>,
    sel: Seq<bool>,
    c: int,
) -> bool {
    &&& sel.len() == weights.len()
    &&& hits_all(sel, cores)
    &&& c == cost(weights, sel, weights.len())
}

/// `sel` hits every core, costs `c`, and no selection that hits every core
/// costs less.
pub open spec fn is_minimum_cover(
    weights: Seq<i64>,
    cores: Seq<Vec<usize>>,
    sel: Seq<bool>,
    c: int,
) -> bool {
    &&& is_cover(weights, cores, sel, c)
    &&& forall|s: Seq<bool>|
        s.len() == weights.len() && #[trigger] hits_all(s, cores) ==> c <= cost(
            weights,
            s,
            weights.len(),
        )
}

/// All of `a` is selected in `b`.
pub open spec fn within(a: Seq<bool>, b: Seq<bool>) -> bool {
    &&& a.len() == b.len()
    &&& forall|i: int| 0 <= i < a.len() && #[trigger] a[i] ==> b[i]
}

proof fn lemma_cost_within(weights: Seq<i64>, a: Seq<bool>, b: Seq<bool>, k: nat)
    requires
        k <= weights.len(),
        a.len() == weights.len(),
        within(a, b),
        forall|i: int| 0 <= i < weights.len() ==> (#[trigger] weights[i]) >= 0,
    ensures
        0 <= cost(weights, a, k) <= cost(weights, b, k),
    decreases k,
{
    if k > 0 {
        lemma_cost_within(weights, a, b, (k - 1) as nat);
        assert(weights[k - 1] >= 0);
    }
}

proof fn lemma_cost_set(weights: Seq<i64>, a: Seq<bool>, v: int, k: nat)
    requires
        k <= weights.len(),
        a.len() == weights.len(),
        0 <= v < a.len(),
        !a[v],
    ensures
        cost(weights, a.update(v, true), k) == cost(weights, a, k) + (if v < k {
            weights[v] as int
        } else {
            0
        }),
    decreases k,
{
    if k > 0 {
        lemma_cost_set(weights, a, v, (k - 1) as nat);
    }
}

/// The cost of any selection fits.
pub proof fn lemma_cost_fits(weights: Seq<i64>, a: Seq<bool>)
    requires
        weights_ok(weights),
        a.len() == weights.len(),
    ensures
        0 <= cost(weights, a, weights.len()) <= i64::MAX,
{
    lemma_cost_within(weights, a, all_selected(weights.len()), weights.len());
}

proof fn lemma_cost_none(weights: Seq<i64>, a: Seq<bool>, k: nat)
    requires
        forall|i: int| 0 <= i < k ==> !#[trigger] a[i],
    ensures
        cost(weights, a, k) == 0,
    decreases k,
{
    if k > 0 {
        assert(!a[k - 1]);
        lemma_cost_none(weights, a, (k - 1) as nat);
    }
}

/// A selection that has one more item costs at least that item's weight more.
proof fn lemma_cost_more(weights: Seq<i64>, a: Seq<bool>, b: Seq<bool>, v: int)
    requires
        a.len() == weights.len(),
        within(a, b),
        0 <= v < a.len(),
        !a[v],
        b[v],
        forall|i: int| 0 <= i < weights.len() ==> (#[trigger] weights[i]) >= 0,
    ensures
        cost(weights, a, weights.len()) + weights[v] <= cost(weights, b, weights.len()),
{
    lemma_cost_set(weights, a, v, weights.len());
    assert(within(a.update(v, true), b));
    lemma_cost_within(weights, a.update(v, true), b, weights.len());
}

/// A larger selection costs no less.
pub proof fn lemma_cost_monotone(weights: Seq<i64>, a: Seq<bool>, b: Seq<bool>)
    requires
        a.len() == weights.len(),
        within(a, b),
        weights_ok(weights),
    ensures
        cost(weights, a, weights.len()) <= cost(weights, b, weights.len()),
{
    lemma_cost_within(weights, a, b, weights.len());
}

/// An ascending list of items below `n` has at most `n` items.
pub proof fn lemma_ascending_len(core: Seq<usize>, n: nat)
    requires
        sets::ascending(core),
        forall|i: int| 0 <= i < core.len() ==> (#[trigger] core[i]) < n,
    ensures
        core.len() <= n,
    decreases core.len(),
{
    if core.len() > 0 {
        let m = core.last() as nat;
        assert(core[core.len() - 1] < n);
        let p = core.drop_last();
        assert forall|i: int| 0 <= i < p.len() implies (#[trigger] p[i]) < m by {
            assert(core[i] < core[core.len() - 1]);
        }
        assert forall|i: int, j: int| 0 <= i < j < p.len() implies p[i] < p[j] by {
            assert(core[i] < core[j]);
        }
        lemma_ascending_len(p, m);
    }
}

// The packing bound.

/// The least remaining weight of the first `k` items of the core.
pub open spec fn core_min(res: Seq<int>, core: Seq<usize>, k: nat) -> int
    decreases k,
{
    if k == 0 {
        0
    } else if k == 1 || res[core[k - 1] as int] < core_min(res, core, (k - 1) as nat) {
        res[core[k - 1] as int]
    } else {
        core_min(res, core, (k - 1) as nat)
    }
}

/// The remaining weights after a core took its least one off all its items.
pub open spec fn take_off(res: Seq<int>, core: Seq<usize>) -> Seq<int> {
    Seq::new(
        res.len(),
        |v: int|
            if core.contains(v as usize) {
                res[v] - core_min(res, core, core.len())
            } else {
                res[v]
            },
    )
}

/// The remaining weights after the first `k` cores took theirs.
pub open spec fn packed(weights: Seq<i64>, cores: Seq<Vec<usize>>, k: nat) -> Seq<int>
    decreases k,
{
    if k == 0 {
        Seq::new(weights.len(), |v: int| weights[v] as int)
    } else {
        take_off(packed(weights, cores, (k - 1) as nat), cores[k - 1]@)
    }
}

/// What the first `k` cores took in all.
pub open spec fn packing(weights: Seq<i64>, cores: Seq<Vec<usize>>, k: nat) -> int
    decreases k,
{
    if k == 0 {
        0
    } else {
        packing(weights, cores, (k - 1) as nat) + core_min(
            packed(weights, cores, (k - 1) as nat),
            cores[k - 1]@,
            cores[k - 1]@.len(),
        )
    }
}

/// The least weight is attained, and nothing is below it.
pub proof fn lemma_core_min(res: Seq<int>, core: Seq<usize>, k: nat)
    requires
        k <= core.len(),
    ensures
        forall|i: int| 0 <= i < k ==> core_min(res, core, k) <= res[#[trigger] core[i] as int],
        k > 0 ==> exists|i: int|
            0 <= i < k && core_min(res, core, k) == res[#[trigger] core[i] as int],
    decreases k,
{
    if k > 0 {
        lemma_core_min(res, core, (k - 1) as nat);
        if core_min(res, core, k) == res[core[k - 1] as int] {
        } else {
            let i = choose|i: int|
                0 <= i < k - 1 && core_min(res, core, (k - 1) as nat) == res[#[trigger] core[i] as int];
            assert(core_min(res, core, k) == res[core[i] as int]);
        }
    }
}

/// Weights stay at or above zero, and every core has spent one.
pub proof fn lemma_packed(weights: Seq<i64>, cores: Seq<Vec<usize>>, k: nat)
    requires
        k <= cores.len(),
        weights.len() <= usize::MAX,
        cores_ok(cores, weights.len()),
        forall|i: int| 0 <= i < weights.len() ==> (#[trigger] weights[i]) >= 0,
    ensures
        packed(weights, cores, k).len() == weights.len(),
        forall|v: int|
            0 <= v < weights.len() ==> 0 <= #[trigger] packed(weights, cores, k)[v] <= weights[v],
        forall|c: int|
            0 <= c < k ==> has_spent(packed(weights, cores, k), (#[trigger] cores[c])@),
        packing(weights, cores, k) >= 0,
    decreases k,
{
    if k > 0 {
        let k1 = (k - 1) as nat;
        lemma_packed(weights, cores, k1);
        let res = packed(weights, cores, k1);
        let core = cores[k1 as int]@;
        assert(core_ok(core, weights.len()));
        let m = core_min(res, core, core.len());
        lemma_core_min(res, core, core.len());
        let r2 = packed(weights, cores, k);
        let i0 = choose|i: int| 0 <= i < core.len() && m == res[#[trigger] core[i] as int];
        assert(0 <= res[core[i0] as int]);
        assert forall|v: int| 0 <= v < weights.len() implies 0 <= #[trigger] r2[v] <= res[v] by {
            if core.contains(v as usize) {
                let i = choose|i: int| 0 <= i < core.len() && core[i] == v as usize;
                assert(m <= res[core[i] as int]);
            } else {
                assert(res[v] >= 0);
            }
        }
        assert forall|c: int| 0 <= c < k implies has_spent(r2, (#[trigger] cores[c])@) by {
            if c < k1 {
                assert(has_spent(res, cores[c]@));
                assert(core_ok(cores[c]@, weights.len()));
                let i = choose|i: int|
                    0 <= i < cores[c]@.len() && res[#[trigger] cores[c]@[i] as int] == 0;
                assert(cores[c]@[i] < weights.len());
                assert(r2[cores[c]@[i] as int] <= res[cores[c]@[i] as int]);
                assert(r2[cores[c]@[i] as int] == 0);
            } else {
                assert(core[i0] < weights.len());
                assert(core.contains(core[i0]));
                assert(r2[core[i0] as int] == 0);
            }
        }
    }
}

/// Some item of the core has nothing left.
pub open spec fn has_spent(res: Seq<int>, core: Seq<usize>) -> bool {
    exists|i: int| 0 <= i < core.len() && res[#[trigger] core[i] as int] == 0
}

/// What is left of the selected items.
spec fn left(res: Seq<int>, sel: Seq<bool>, k: nat) -> int
    decreases k,
{
    if k == 0 {
        0
    } else {
        left(res, sel, (k - 1) as nat) + (if sel[k - 1] {
            res[k - 1]
        } else {
            0
        })
    }
}

proof fn lemma_left_take(res: Seq<int>, core: Seq<usize>, sel: Seq<bool>, v: int, k: nat)
    requires
        k <= res.len(),
        res.len() <= usize::MAX,
        0 <= v < res.len(),
        core.contains(v as usize),
        sel[v],
        core_min(res, core, core.len()) >= 0,
    ensures
        left(take_off(res, core), sel, k) + (if v < k {
            core_min(res, core, core.len())
        } else {
            0
        }) <= left(res, sel, k),
    decreases k,
{
    if k > 0 {
        lemma_left_take(res, core, sel, v, (k - 1) as nat);
        assert(v == k - 1 ==> v as usize == (k - 1) as usize);
    }
}

proof fn lemma_left_cost(weights: Seq<i64>, res: Seq<int>, sel: Seq<bool>, k: nat)
    requires
        k <= weights.len(),
        res.len() == weights.len(),
        forall|v: int| 0 <= v < res.len() ==> #[trigger] res[v] == weights[v],
    ensures
        left(res, sel, k) == cost(weights, sel, k),
    decreases k,
{
    if k > 0 {
        lemma_left_cost(weights, res, sel, (k - 1) as nat);
    }
}

proof fn lemma_left_nonneg(res: Seq<int>, sel: Seq<bool>, k: nat)
    requires
        k <= res.len(),
        forall|v: int| 0 <= v < res.len() ==> #[trigger] res[v] >= 0,
    ensures
        left(res, sel, k) >= 0,
    decreases k,
{
    if k > 0 {
        lemma_left_nonneg(res, sel, (k - 1) as nat);
        assert(res[k - 1] >= 0);
    }
}

proof fn lemma_packing_left(weights: Seq<i64>, cores: Seq<Vec<usize>>, sel: Seq<bool>, k: nat)
    requires
        k <= cores.len(),
        weights.len() <= usize::MAX,
        cores_ok(cores, weights.len()),
        forall|i: int| 0 <= i < weights.len() ==> (#[trigger] weights[i]) >= 0,
        sel.len() == weights.len(),
        hits_all(sel, cores),
    ensures
        packing(weights, cores, k) + left(packed(weights, cores, k), sel, weights.len()) <= cost(
            weights,
            sel,
            weights.len(),
        ),
    decreases k,
{
    if k == 0 {
        lemma_left_cost(weights, packed(weights, cores, 0), sel, weights.len());
    } else {
        let k1 = (k - 1) as nat;
        lemma_packing_left(weights, cores, sel, k1);
        lemma_packed(weights, cores, k1);
        let res = packed(weights, cores, k1);
        let core = cores[k1 as int]@;
        assert(core_ok(core, weights.len()));
        assert(hits(sel, cores[k1 as int]@));
        let i = choose|i: int| 0 <= i < core.len() && sel[#[trigger] core[i] as int];
        lemma_core_min(res, core, core.len());
        let i0 = choose|i: int|
            0 <= i < core.len() && core_min(res, core, core.len()) == res[#[trigger] core[i] as int];
        assert(core[i] < weights.len() && core[i0] < weights.len());
        assert(core.contains(core[i]));
        assert(0 <= res[core[i0] as int]);
        lemma_left_take(res, core, sel, core[i] as int, weights.len());
    }
}

/// Every selection that hits every core costs at least the packing.
pub proof fn packing_bounds_covers(weights: Seq<i64>, cores: Seq<Vec<usize>>, sel: Seq<bool>)
    requires
        weights.len() <= usize::MAX,
        cores_ok(cores, weights.len()),
        forall|i: int| 0 <= i < weights.len() ==> (#[trigger] weights[i]) >= 0,
        sel.len() == weights.len(),
        hits_all(sel, cores),
    ensures
        0 <= packing(weights, cores, cores.len()) <= cost(weights, sel, weights.len()),
{
    lemma_packing_left(weights, cores, sel, cores.len());
    lemma_packed(weights, cores, cores.len());
    lemma_left_nonneg(packed(weights, cores, cores.len()), sel, weights.len());
}

proof fn lemma_all_hits(cores: Seq<Vec<usize>>, n: nat)
    requires
        cores_ok(cores, n),
    ensures
        hits_all(all_selected(n), cores),
{
    assert forall|c: int| 0 <= c < cores.len() implies hits(
        all_selected(n),
        (#[trigger] cores[c])@,
    ) by {
        assert(core_ok(cores[c]@, n));
        assert(all_selected(n)[cores[c]@[0] as int]);
    }
}

/// The packing is at least zero.
pub proof fn lemma_packing_nonneg(weights: Seq<i64>, cores: Seq<Vec<usize>>)
    requires
        weights.len() <= usize::MAX,
        cores_ok(cores, weights.len()),
        forall|i: int| 0 <= i < weights.len() ==> (#[trigger] weights[i]) >= 0,
    ensures
        packing(weights, cores, cores.len()) >= 0,
{
    lemma_packed(weights, cores, cores.len());
}

/// With no core the empty selection is cheapest.
pub proof fn lemma_empty_cover(weights: Seq<i64>, cores: Seq<Vec<usize>>, sel: Seq<bool>)
    requires
        cores.len() == 0,
        sel.len() == weights.len(),
        forall|i: int| 0 <= i < sel.len() ==> !#[trigger] sel[i],
        forall|i: int| 0 <= i < weights.len() ==> (#[trigger] weights[i]) >= 0,
    ensures
        is_minimum_cover(weights, cores, sel, 0),
{
    lemma_cost_none(weights, sel, weights.len());
    assert forall|s: Seq<bool>| s.len() == weights.len() && #[trigger] hits_all(s, cores) implies 0
        <= cost(weights, s, weights.len()) by {
        lemma_cost_within(weights, sel, s, weights.len());
    }
}

/// Whether the item at a place of a list stands before it too.
fn is_listed_before(core: &Vec<usize>, i: usize) -> (r: bool)
    requires
        i < core@.len(),
    ensures
        r == core@.take(i as int).contains(core@[i as int]),
{
    let mut j: usize = 0;
    while j < i
        invariant
            j <= i < core@.len(),
            forall|k: int| 0 <= k < j ==> #[trigger] core@[k] != core@[i as int],
        decreases i - j,
    {
        if core[j] == core[i] {
            assert(core@.take(i as int)[j as int] == core@[i as int]);
            return true;
        }
        j += 1;
    }
    false
}

/// The packing bound: each core in turn takes the least remaining weight of its
/// items off all of them.
pub fn core_packing_lower_bound(weights: &Vec<i64>, cores: &Vec<Vec<usize>>) -> (r: i64)
    requires
        weights_ok(weights@),
        cores_ok(cores@, weights@.len()),
    ensures
        r == packing(weights@, cores@, cores@.len()),
{
    let ghost w = weights@;
    let ghost n = w.len();
    let mut residual: Vec<i64> = Vec::new();
    let mut v: usize = 0;
    while v < weights.len()
        invariant
            v <= weights@.len(),
            residual@ == weights@.take(v as int),
        decreases weights@.len() - v,
    {
        residual.push(weights[v]);
        v += 1;
        assert(residual@ =~= weights@.take(v as int));
    }
    assert(residual@ =~= w);
    let mut bonus: i64 = 0;
    let mut c: usize = 0;
    while c < cores.len()
        invariant
            c <= cores@.len(),
            w == weights@,
            n == w.len(),
            n <= usize::MAX,
            weights_ok(w),
            cores_ok(cores@, n),
            residual@.len() == n,
            forall|u: int| 0 <= u < n ==> #[trigger] residual@[u] == packed(w, cores@, c as nat)[u],
            bonus == packing(w, cores@, c as nat),
        decreases cores@.len() - c,
    {
        let core = &cores[c];
        let ghost res = packed(w, cores@, c as nat);
        proof {
            assert(core_ok(cores@[c as int]@, n));
            lemma_packed(w, cores@, c as nat);
            lemma_packed(w, cores@, (c + 1) as nat);
            lemma_all_hits(cores@, n);
            lemma_packing_left(w, cores@, all_selected(n), (c + 1) as nat);
            lemma_left_nonneg(packed(w, cores@, (c + 1) as nat), all_selected(n), n);
            assert(core@[0] < n);
            assert(residual@[core@[0] as int] == res[core@[0] as int]);
        }
        let mut min_w: i64 = residual[core[0]];
        let mut i: usize = 1;
        while i < core.len()
            invariant
                1 <= i <= core@.len(),
                core_ok(core@, n),
                residual@.len() == n,
                res.len() == n,
                forall|u: int| 0 <= u < n ==> #[trigger] residual@[u] == res[u],
                min_w == core_min(res, core@, i as nat),
            decreases core@.len() - i,
        {
            assert(core@[i as int] < n);
            let x: i64 = residual[core[i]];
            assert(residual@[core@[i as int] as int] == res[core@[i as int] as int]);
            if x < min_w {
                min_w = x;
            }
            i += 1;
        }
        proof {
            lemma_core_min(res, core@, core@.len());
            let i0 = choose|i: int|
                0 <= i < core@.len() && core_min(res, core@, core@.len()) == res[#[trigger] core@[i] as int];
            assert(core@[i0] < n);
            assert(res[core@[i0] as int] >= 0);
        }
        bonus = bonus + min_w;
        let mut i: usize = 0;
        while i < core.len()
            invariant
                i <= core@.len(),
                core_ok(core@, n),
                n == w.len(),
                n <= usize::MAX,
                residual@.len() == n,
                res.len() == n,
                min_w >= 0,
                min_w == core_min(res, core@, core@.len()),
                forall|u: int| 0 <= u < n ==> 0 <= #[trigger] res[u] <= w[u],
                forall|u: int|
                    0 <= u < n ==> #[trigger] residual@[u] == (if core@.take(i as int).contains(
                        u as usize,
                    ) {
                        res[u] - min_w
                    } else {
                        res[u]
                    }),
            decreases core@.len() - i,
        {
            assert(core@[i as int] < n);
            let u: usize = core[i];
            proof {
                sets::lemma_contains_take(core@, i as int);
                lemma_core_min(res, core@, core@.len());
                assert(min_w <= res[core@[i as int] as int]);
            }
            if !is_listed_before(core, i) {
                proof {
                    assert(residual@[u as int] == res[u as int]);
                    assert(res[u as int] <= w[u as int]);
                }
                let x: i64 = residual[u];
                residual.set(u, x - min_w);
            }
            i += 1;
        }
        proof {
            assert(core@.take(i as int) =~= core@);
            let r2 = packed(w, cores@, (c + 1) as nat);
            assert forall|u: int| 0 <= u < n implies #[trigger] residual@[u] == r2[u] by {}
        }
        c += 1;
    }
    bonus
}

// The exact search.

/// How many of the first `k` entries are false.
pub open spec fn open_count(covered: Seq<bool>, k: nat) -> nat
    decreases k,
{
    if k == 0 {
        0
    } else {
        open_count(covered, (k - 1) as nat) + (if covered[k - 1] {
            0nat
        } else {
            1nat
        })
    }
}

proof fn lemma_open_set(covered: Seq<bool>, c: int, k: nat)
    requires
        k <= covered.len(),
        0 <= c < covered.len(),
        !covered[c],
    ensures
        open_count(covered.update(c, true), k) == open_count(covered, k) - (if c < k {
            1int
        } else {
            0
        }),
    decreases k,
{
    if k > 0 {
        lemma_open_set(covered, c, (k - 1) as nat);
    }
}

proof fn lemma_open_zero(covered: Seq<bool>, k: nat)
    requires
        k <= covered.len(),
    ensures
        open_count(covered, k) <= k,
        open_count(covered, k) == 0 <==> forall|c: int| 0 <= c < k ==> #[trigger] covered[c],
    decreases k,
{
    if k > 0 {
        lemma_open_zero(covered, (k - 1) as nat);
        if open_count(covered, k) == 0 {
            assert forall|c: int| 0 <= c < k implies #[trigger] covered[c] by {}
        }
    }
}

/// Those of the first `k` cores that have an item.
pub open spec fn owners(cores: Seq<Vec<usize>>, v: int, k: nat) -> Seq<usize>
    decreases k,
{
    if k == 0 {
        Seq::empty()
    } else if cores[k - 1]@.contains(v as usize) {
        owners(cores, v, (k - 1) as nat).push((k - 1) as usize)
    } else {
        owners(cores, v, (k - 1) as nat)
    }
}

/// For each item, the cores that have it.
pub open spec fn is_index(cores: Seq<Vec<usize>>, n: nat, index: Seq<Vec<usize>>) -> bool {
    &&& index.len() == n
    &&& forall|v: int| 0 <= v < n ==> (#[trigger] index[v])@ == owners(cores, v, cores.len())
    &&& forall|v: int, c: int|
        0 <= v < n && 0 <= c < cores.len() ==> (#[trigger] index[v]@.contains(c as usize)
            <==> #[trigger] cores[c]@.contains(v as usize))
    &&& forall|v: int, j: int|
        0 <= v < n && 0 <= j < index[v]@.len() ==> (#[trigger] index[v]@[j]) < cores.len()
}

/// `covered` tells which cores the selection hits.
pub open spec fn is_covered(sel: Seq<bool>, cores: Seq<Vec<usize>>, covered: Seq<bool>) -> bool {
    &&& covered.len() == cores.len()
    &&& forall|c: int|
        0 <= c < cores.len() ==> (#[trigger] covered[c] <==> hits(sel, cores[c]@))
}

proof fn lemma_hits_set(sel: Seq<bool>, core: Seq<usize>, v: int)
    requires
        0 <= v < sel.len(),
        sel.len() <= usize::MAX,
        forall|i: int| 0 <= i < core.len() ==> (#[trigger] core[i]) < sel.len(),
    ensures
        hits(sel.update(v, true), core) <==> (hits(sel, core) || core.contains(v as usize)),
{
    let s2 = sel.update(v, true);
    if hits(sel, core) {
        let i = choose|i: int| 0 <= i < core.len() && sel[#[trigger] core[i] as int];
        assert(s2[core[i] as int]);
    }
    if core.contains(v as usize) {
        let i = choose|i: int| 0 <= i < core.len() && core[i] == v as usize;
        assert(s2[core[i] as int]);
    }
    if hits(s2, core) {
        let i = choose|i: int| 0 <= i < core.len() && s2[#[trigger] core[i] as int];
        if core[i] != v {
            assert(sel[core[i] as int]);
        } else {
            assert(core[i] == v as usize);
        }
    }
}

/// The cores of each item.
fn index_cores(cores: &Vec<Vec<usize>>, n: usize) -> (r: Vec<Vec<usize>>)
    requires
        cores_ok(cores@, n as nat),
    ensures
        is_index(cores@, n as nat, r@),
{
    let mut index: Vec<Vec<usize>> = Vec::new();
    let mut v: usize = 0;
    while v < n
        invariant
            v <= n,
            index@.len() == v,
            forall|u: int| 0 <= u < v ==> (#[trigger] index@[u])@.len() == 0,
        decreases n - v,
    {
        index.push(Vec::new());
        v += 1;
    }
    proof {
        assert forall|u: int| 0 <= u < n implies (#[trigger] index@[u])@ == owners(cores@, u, 0) by {
            assert(index@[u]@ =~= Seq::empty());
        }
    }
    let mut c: usize = 0;
    while c < cores.len()
        invariant
            c <= cores@.len(),
            cores_ok(cores@, n as nat),
            index@.len() == n,
            forall|u: int| 0 <= u < n ==> (#[trigger] index@[u])@ == owners(cores@, u, c as nat),
            forall|u: int, b: int|
                0 <= u < n && 0 <= b < c ==> (#[trigger] index@[u]@.contains(b as usize)
                    <==> #[trigger] cores@[b]@.contains(u as usize)),
            forall|u: int, j: int|
                0 <= u < n && 0 <= j < index@[u]@.len() ==> (#[trigger] index@[u]@[j]) < c,
        decreases cores@.len() - c,
    {
        let core = &cores[c];
        let ghost index0 = index@;
        assert(core_ok(cores@[c as int]@, n as nat));
        let mut i: usize = 0;
        while i < core.len()
            invariant
                i <= core@.len(),
                core_ok(core@, n as nat),
                index@.len() == n,
                index0.len() == n,
                forall|u: int, j: int|
                    0 <= u < n && 0 <= j < index0[u]@.len() ==> (#[trigger] index0[u]@[j]) < c,
                forall|u: int|
                    0 <= u < n ==> #[trigger] index@[u]@ == (if core@.take(i as int).contains(
                        u as usize,
                    ) {
                        index0[u]@.push(c)
                    } else {
                        index0[u]@
                    }),
            decreases core@.len() - i,
        {
            assert(core@[i as int] < n);
            let u: usize = core[i];
            proof {
                sets::lemma_contains_take(core@, i as int);
            }
            let len: usize = index[u].len();
            let listed: bool = len > 0 && index[u][len - 1] == c;
            proof {
                let before = index0[u as int]@;
                if !core@.take(i as int).contains(u) && before.len() > 0 {
                    assert(index0[u as int]@[before.len() - 1] < c);
                }
            }
            if !listed {
                index[u].push(c);
            }
            i += 1;
        }
        proof {
            assert(core@.take(i as int) =~= core@);
            assert forall|u: int| 0 <= u < n implies (#[trigger] index@[u])@ == owners(
                cores@,
                u,
                (c + 1) as nat,
            ) by {
                assert(index0[u]@ == owners(cores@, u, c as nat));
            }
            assert forall|u: int, b: int| 0 <= u < n && 0 <= b < c + 1 implies (
            #[trigger] index@[u]@.contains(b as usize) <==> #[trigger] cores@[b]@.contains(
                u as usize,
            )) by {
                let old_list = index0[u]@;
                let new_list = index@[u]@;
                if b < c {
                    assert(index0[u]@.contains(b as usize) <==> cores@[b]@.contains(u as usize));
                    if old_list.contains(b as usize) {
                        let j = choose|j: int| 0 <= j < old_list.len() && old_list[j] == b as usize;
                        assert(new_list[j] == b as usize);
                    }
                    if new_list.contains(b as usize) {
                        let j = choose|j: int| 0 <= j < new_list.len() && new_list[j] == b as usize;
                        assert(old_list[j] == b as usize);
                    }
                } else {
                    if core@.contains(u as usize) {
                        assert(new_list[old_list.len() as int] == c);
                    } else if new_list.contains(c) {
                        let j = choose|j: int| 0 <= j < new_list.len() && new_list[j] == c;
                        assert(index0[u]@[j] < c);
                    }
                }
            }
            assert forall|u: int, j: int| 0 <= u < n && 0 <= j < index@[u]@.len() implies (
            #[trigger] index@[u]@[j]) < c + 1 by {
                if j < index0[u]@.len() {
                    assert(index0[u]@[j] < c);
                }
            }
        }
        c += 1;
    }
    index
}

/// Mark the cores of an item as hit; the list of those that were not hit
/// before.
fn mark_cores(
    cores: &Vec<Vec<usize>>,
    index: &Vec<Vec<usize>>,
    selected: &mut Vec<bool>,
    covered: &mut Vec<bool>,
    v: usize,
) -> (r: Vec<usize>)
    requires
        v < old(selected)@.len(),
        cores_ok(cores@, old(selected)@.len()),
        is_index(cores@, old(selected)@.len(), index@),
        is_covered(old(selected)@, cores@, old(covered)@),
    ensures
        final(selected)@ == old(selected)@.update(v as int, true),
        is_covered(final(selected)@, cores@, final(covered)@),
        open_count(final(covered)@, cores@.len()) + r@.len() == open_count(
            old(covered)@,
            cores@.len(),
        ),
        forall|c: int|
            0 <= c < cores@.len() ==> #[trigger] old(covered)@[c] == (final(covered)@[c]
                && !r@.contains(c as usize)),
        forall|j: int| 0 <= j < r@.len() ==> (#[trigger] r@[j]) < cores@.len(),
        forall|c: int|
            0 <= c < cores@.len() && #[trigger] cores@[c]@.contains(v as usize) ==> final(covered)@[c],
{
    let n: usize = selected.len();
    let ghost sel0 = selected@;
    let ghost cov0 = covered@;
    let n_cores: usize = cores.len();
    let ghost m = cores@.len();
    selected.set(v, true);
    let mut changed: Vec<usize> = Vec::new();
    let list = &index[v];
    let mut j: usize = 0;
    while j < list.len()
        invariant
            j <= list@.len(),
            list@ == index@[v as int]@,
            v < n,
            m == cores@.len(),
            m <= usize::MAX,
            is_index(cores@, n as nat, index@),
            covered@.len() == m,
            cov0.len() == m,
            open_count(covered@, m) + changed@.len() == open_count(cov0, m),
            forall|c: int|
                0 <= c < m ==> #[trigger] covered@[c] == (cov0[c] || list@.take(j as int).contains(
                    c as usize,
                )),
            forall|c: int|
                0 <= c < m ==> #[trigger] cov0[c] == (covered@[c] && !changed@.contains(c as usize)),
            forall|q: int| 0 <= q < changed@.len() ==> (#[trigger] changed@[q]) < m,
        decreases list@.len() - j,
    {
        let c: usize = list[j];
        assert(index@[v as int]@[j as int] < m);
        let ghost cov1 = covered@;
        let ghost ch1 = changed@;
        proof {
            sets::lemma_contains_take(list@, j as int);
        }
        if !covered[c] {
            proof {
                lemma_open_set(covered@, c as int, m);
            }
            covered.set(c, true);
            changed.push(c);
            proof {
                assert forall|b: int| 0 <= b < m implies #[trigger] cov0[b] == (covered@[b]
                    && !changed@.contains(b as usize)) by {
                    assert(cov0[b] == (cov1[b] && !ch1.contains(b as usize)));
                    if ch1.contains(b as usize) {
                        let q = choose|q: int| 0 <= q < ch1.len() && ch1[q] == b as usize;
                        assert(changed@[q] == b as usize);
                    }
                    if b == c {
                        assert(changed@[ch1.len() as int] == b as usize);
                    } else if changed@.contains(b as usize) {
                        let q = choose|q: int| 0 <= q < changed@.len() && changed@[q] == b as usize;
                        assert(ch1[q] == b as usize);
                    }
                }
            }
        }
        j += 1;
    }
    proof {
        assert(list@.take(j as int) =~= list@);
        assert forall|c: int| 0 <= c < m implies (#[trigger] covered@[c] <==> hits(
            selected@,
            cores@[c]@,
        )) by {
            assert(core_ok(cores@[c]@, n as nat));
            assert(cov0[c] <==> hits(sel0, cores@[c]@));
            lemma_hits_set(sel0, cores@[c]@, v as int);
            assert(index@[v as int]@.contains(c as usize) <==> cores@[c]@.contains(v as usize));
        }
        assert forall|c: int|
            0 <= c < m && #[trigger] cores@[c]@.contains(v as usize) implies covered@[c] by {
            assert(index@[v as int]@.contains(c as usize) <==> cores@[c]@.contains(v as usize));
        }
    }
    changed
}

/// `a / g < b / h` for positive `g` and `h`.
pub open spec fn cheaper(a: int, g: int, b: int, h: int) -> bool {
    a * h < b * g
}

/// How many open cores of the list there are among the first `k`.
pub open spec fn open_gain(list: Seq<usize>, covered: Seq<bool>, k: nat) -> nat
    decreases k,
{
    if k == 0 {
        0
    } else {
        open_gain(list, covered, (k - 1) as nat) + (if covered[list[k - 1] as int] {
            0nat
        } else {
            1nat
        })
    }
}

/// The gain of an item: how many open cores it would hit.
pub open spec fn gain(index: Seq<Vec<usize>>, covered: Seq<bool>, v: int) -> nat {
    open_gain(index[v]@, covered, index[v]@.len())
}

proof fn lemma_open_gain(list: Seq<usize>, covered: Seq<bool>, j: int, k: nat)
    requires
        k <= list.len(),
    ensures
        open_gain(list, covered, k) <= k,
        0 <= j < k && !covered[list[j] as int] ==> open_gain(list, covered, k) > 0,
        open_gain(list, covered, k) > 0 ==> exists|i: int|
            0 <= i < k && !covered[#[trigger] list[i] as int],
    decreases k,
{
    if k > 0 {
        lemma_open_gain(list, covered, j, (k - 1) as nat);
        if open_gain(list, covered, k) > 0 && covered[list[k - 1] as int] {
            let i = choose|i: int| 0 <= i < k - 1 && !covered[#[trigger] list[i] as int];
            assert(!covered[list[i] as int]);
        }
    }
}

/// The next item of the greedy cover: the first with the least weight per gain.
pub open spec fn is_greedy_choice(
    weights: Seq<i64>,
    index: Seq<Vec<usize>>,
    sel: Seq<bool>,
    covered: Seq<bool>,
    k: nat,
    v: int,
) -> bool {
    &&& 0 <= v < k
    &&& !sel[v]
    &&& gain(index, covered, v) > 0
    &&& forall|u: int|
        0 <= u < k && u != v && !sel[u] && #[trigger] gain(index, covered, u) > 0 ==> {
            if u < v {
                cheaper(
                    weights[v] as int,
                    gain(index, covered, v) as int,
                    weights[u] as int,
                    gain(index, covered, u) as int,
                )
            } else {
                !cheaper(
                    weights[u] as int,
                    gain(index, covered, u) as int,
                    weights[v] as int,
                    gain(index, covered, v) as int,
                )
            }
        }
}

proof fn lemma_cheaper_trans(a: int, g: int, b: int, h: int, c: int, k: int)
    requires
        g > 0,
        h > 0,
        k > 0,
        a >= 0,
        b >= 0,
        c >= 0,
        cheaper(a, g, b, h),
        !cheaper(c, k, b, h),
    ensures
        cheaper(a, g, c, k),
{
    assert(a * k < c * g) by (nonlinear_arith)
        requires
            g > 0,
            h > 0,
            k > 0,
            a >= 0,
            b >= 0,
            c >= 0,
            a * h < b * g,
            !(c * h < b * k),
    {
        assert(a * h * k < b * g * k);
        assert(c * h * g >= b * k * g);
        assert(a * k * h == a * h * k);
        assert(c * g * h == c * h * g);
        assert(b * g * k == b * k * g);
        assert(a * k * h < c * g * h);
    }
}

/// The next item of the greedy cover.
fn greedy_choice(
    weights: &Vec<i64>,
    index: &Vec<Vec<usize>>,
    selected: &Vec<bool>,
    covered: &Vec<bool>,
) -> (r: Option<usize>)
    requires
        weights_ok(weights@),
        index@.len() == weights@.len(),
        selected@.len() == weights@.len(),
        forall|v: int, j: int|
            0 <= v < index@.len() && 0 <= j < index@[v]@.len() ==> (#[trigger] index@[v]@[j])
                < covered@.len(),
    ensures
        r matches Some(v) ==> is_greedy_choice(
            weights@,
            index@,
            selected@,
            covered@,
            weights@.len(),
            v as int,
        ),
        r is None ==> forall|u: int|
            0 <= u < weights@.len() && !selected@[u] ==> #[trigger] gain(index@, covered@, u) == 0,
{
    let ghost w = weights@;
    let ghost sel = selected@;
    let ghost cov = covered@;
    let ghost idx = index@;
    let mut best: Option<usize> = None;
    let mut best_gain: usize = 1;
    let mut v: usize = 0;
    while v < weights.len()
        invariant
            v <= w.len(),
            w == weights@,
            sel == selected@,
            cov == covered@,
            idx == index@,
            weights_ok(w),
            idx.len() == w.len(),
            sel.len() == w.len(),
            forall|v: int, j: int|
                0 <= v < idx.len() && 0 <= j < idx[v]@.len() ==> (#[trigger] idx[v]@[j])
                    < cov.len(),
            best matches Some(b) ==> is_greedy_choice(w, idx, sel, cov, v as nat, b as int)
                && best_gain == gain(idx, cov, b as int),
            best is None ==> forall|u: int|
                0 <= u < v && !sel[u] ==> #[trigger] gain(idx, cov, u) == 0,
        decreases w.len() - v,
    {
        let list = &index[v];
        let mut g: usize = 0;
        let mut j: usize = 0;
        while j < list.len()
            invariant
                j <= list@.len(),
                list@ == idx[v as int]@,
                v < idx.len(),
                cov == covered@,
                forall|v: int, j: int|
                    0 <= v < idx.len() && 0 <= j < idx[v]@.len() ==> (#[trigger] idx[v]@[j])
                        < cov.len(),
                g == open_gain(list@, cov, j as nat),
                g <= j,
            decreases list@.len() - j,
        {
            assert(idx[v as int]@[j as int] < cov.len());
            if !covered[list[j]] {
                g += 1;
            }
            j += 1;
        }
        assert(g == gain(idx, cov, v as int));
        if !selected[v] && g > 0 {
            match best {
                None => {
                    best = Some(v);
                    best_gain = g;
                },
                Some(b) => {
                    assert(w[b as int] >= 0 && w[v as int] >= 0);
                    let a: i128 = weights[v] as i128;
                    let c: i128 = weights[b] as i128;
                    assert(0 <= a * best_gain <= i128::MAX) by (nonlinear_arith)
                        requires
                            0 <= a <= i64::MAX,
                            0 <= best_gain <= u64::MAX,
                    ;
                    assert(0 <= c * g <= i128::MAX) by (nonlinear_arith)
                        requires
                            0 <= c <= i64::MAX,
                            0 <= g <= u64::MAX,
                    ;
                    if a * (best_gain as i128) < c * (g as i128) {
                        proof {
                            assert(cheaper(
                                w[v as int] as int,
                                g as int,
                                w[b as int] as int,
                                best_gain as int,
                            ));
                            assert forall|u: int|
                                0 <= u < v + 1 && u != v && !sel[u] && #[trigger] gain(idx, cov, u)
                                    > 0 implies cheaper(
                                w[v as int] as int,
                                g as int,
                                w[u] as int,
                                gain(idx, cov, u) as int,
                            ) by {
                                assert(w[u] >= 0);
                                if u != b {
                                    assert(!cheaper(
                                        w[u] as int,
                                        gain(idx, cov, u) as int,
                                        w[b as int] as int,
                                        best_gain as int,
                                    )) by {
                                        if u < b {
                                            assert(!(w[u] * best_gain < w[b as int] * gain(
                                                idx,
                                                cov,
                                                u,
                                            )));
                                        }
                                    }
                                    lemma_cheaper_trans(
                                        w[v as int] as int,
                                        g as int,
                                        w[b as int] as int,
                                        best_gain as int,
                                        w[u] as int,
                                        gain(idx, cov, u) as int,
                                    );
                                }
                            }
                        }
                        best = Some(v);
                        best_gain = g;
                    }
                },
            }
        }
        v += 1;
    }
    best
}

/// Which cores a selection hits.
pub open spec fn hit_cores(sel: Seq<bool>, cores: Seq<Vec<usize>>) -> Seq<bool> {
    Seq::new(cores.len(), |c: int| hits(sel, cores[c]@))
}

/// How many cores that the selection does not hit have the item.
pub open spec fn item_gain(cores: Seq<Vec<usize>>, sel: Seq<bool>, v: int) -> nat {
    let list = owners(cores, v, cores.len());
    open_gain(list, hit_cores(sel, cores), list.len())
}

/// The item that the greedy cover takes next: the first with the least weight per
/// gain.
pub open spec fn is_greedy_item(
    weights: Seq<i64>,
    cores: Seq<Vec<usize>>,
    sel: Seq<bool>,
    v: int,
) -> bool {
    &&& 0 <= v < weights.len()
    &&& !sel[v]
    &&& item_gain(cores, sel, v) > 0
    &&& forall|u: int|
        0 <= u < weights.len() && u != v && !sel[u] && #[trigger] item_gain(cores, sel, u) > 0 ==> {
            if u < v {
                cheaper(
                    weights[v] as int,
                    item_gain(cores, sel, v) as int,
                    weights[u] as int,
                    item_gain(cores, sel, u) as int,
                )
            } else {
                !cheaper(
                    weights[u] as int,
                    item_gain(cores, sel, u) as int,
                    weights[v] as int,
                    item_gain(cores, sel, v) as int,
                )
            }
        }
}

/// The selection after at most `depth` more items of the greedy cover.
pub open spec fn greedy_selection(
    weights: Seq<i64>,
    cores: Seq<Vec<usize>>,
    sel: Seq<bool>,
    depth: nat,
) -> Seq<bool>
    decreases depth,
{
    if depth == 0 || hits_all(sel, cores) {
        sel
    } else {
        let v = choose|v: int| is_greedy_item(weights, cores, sel, v);
        greedy_selection(weights, cores, sel.update(v, true), (depth - 1) as nat)
    }
}

/// Nothing is selected.
pub open spec fn none_selected(n: nat) -> Seq<bool> {
    Seq::new(n, |i: int| false)
}

/// The greedy cover.
pub open spec fn greedy_cover(weights: Seq<i64>, cores: Seq<Vec<usize>>) -> Seq<bool> {
    greedy_selection(weights, cores, none_selected(weights.len()), cores.len())
}

proof fn lemma_greedy_item(
    weights: Seq<i64>,
    cores: Seq<Vec<usize>>,
    index: Seq<Vec<usize>>,
    sel: Seq<bool>,
    covered: Seq<bool>,
    v: int,
)
    requires
        is_index(cores, weights.len(), index),
        is_covered(sel, cores, covered),
        is_greedy_choice(weights, index, sel, covered, weights.len(), v),
    ensures
        is_greedy_item(weights, cores, sel, v),
        (choose|v: int| is_greedy_item(weights, cores, sel, v)) == v,
{
    assert(covered =~= hit_cores(sel, cores));
    assert forall|u: int| 0 <= u < weights.len() implies #[trigger] item_gain(cores, sel, u) == gain(
        index,
        covered,
        u,
    ) by {
        assert(index[u]@ == owners(cores, u, cores.len()));
    }
    assert forall|u: int|
        0 <= u < weights.len() && u != v && !sel[u] && #[trigger] item_gain(cores, sel, u)
            > 0 implies ({
        if u < v {
            cheaper(
                weights[v] as int,
                item_gain(cores, sel, v) as int,
                weights[u] as int,
                item_gain(cores, sel, u) as int,
            )
        } else {
            !cheaper(
                weights[u] as int,
                item_gain(cores, sel, u) as int,
                weights[v] as int,
                item_gain(cores, sel, v) as int,
            )
        }
    }) by {
        assert(gain(index, covered, u) > 0);
    }
    assert(is_greedy_item(weights, cores, sel, v));
    let u = choose|u: int| is_greedy_item(weights, cores, sel, u);
    assert(is_greedy_item(weights, cores, sel, u));
    if u != v {
        assert(item_gain(cores, sel, u) > 0 && item_gain(cores, sel, v) > 0);
    }
}

/// The greedy cover: items with the least weight per gain, one after the other.
fn greedy_incumbent(weights: &Vec<i64>, cores: &Vec<Vec<usize>>, index: &Vec<Vec<usize>>) -> (r: (
    i64,
    Vec<bool>,
))
    requires
        weights_ok(weights@),
        cores_ok(cores@, weights@.len()),
        is_index(cores@, weights@.len(), index@),
    ensures
        is_cover(weights@, cores@, r.1@, r.0 as int),
        r.1@ == greedy_cover(weights@, cores@),
{
    let n: usize = weights.len();
    let ghost w = weights@;
    let mut covered: Vec<bool> = Vec::new();
    while covered.len() < cores.len()
        invariant
            covered@.len() <= cores@.len(),
            forall|c: int| 0 <= c < covered@.len() ==> !#[trigger] covered@[c],
        decreases cores@.len() - covered@.len(),
    {
        covered.push(false);
    }
    let mut selected: Vec<bool> = Vec::new();
    while selected.len() < n
        invariant
            selected@.len() <= n,
            forall|c: int| 0 <= c < selected@.len() ==> !#[trigger] selected@[c],
        decreases n - selected@.len(),
    {
        selected.push(false);
    }
    let mut total: i64 = 0;
    proof {
        lemma_cost_none(w, selected@, n as nat);
        assert forall|c: int| 0 <= c < cores@.len() implies (#[trigger] covered@[c] <==> hits(
            selected@,
            cores@[c]@,
        )) by {
            assert(core_ok(cores@[c]@, n as nat));
        }
        lemma_open_zero(covered@, cores@.len());
    }
    let n_cores: usize = cores.len();
    let mut uncovered: usize = n_cores;
    let ghost mut depth: nat = cores@.len();
    proof {
        lemma_open_all(covered@, cores@.len());
        assert(selected@ =~= none_selected(w.len()));
    }
    while uncovered > 0
        invariant
            uncovered <= depth,
            greedy_selection(w, cores@, selected@, depth) == greedy_selection(
                w,
                cores@,
                none_selected(w.len()),
                cores@.len(),
            ),
            w == weights@,
            n == w.len(),
            weights_ok(w),
            cores_ok(cores@, n as nat),
            is_index(cores@, n as nat, index@),
            selected@.len() == n,
            is_covered(selected@, cores@, covered@),
            n_cores == cores@.len(),
            uncovered == open_count(covered@, cores@.len()),
            total == cost(w, selected@, n as nat),
        decreases uncovered,
    {
        let choice = greedy_choice(weights, index, &selected, &covered);
        proof {
            lemma_open_zero(covered@, cores@.len());
            let c = choose|c: int| 0 <= c < cores@.len() && !#[trigger] covered@[c];
            assert(core_ok(cores@[c]@, n as nat));
            assert(!hits(selected@, cores@[c]@));
            let u = cores@[c]@[0] as int;
            assert(!selected@[cores@[c]@[0] as int]);
            assert(cores@[c]@.contains(u as usize));
            assert(index@[u]@.contains(c as usize));
            let j = choose|j: int| 0 <= j < index@[u]@.len() && index@[u]@[j] == c as usize;
            lemma_open_gain(index@[u]@, covered@, j, index@[u]@.len());
            assert(gain(index@, covered@, u) > 0);
        }
        match choice {
            None => {
                assert(false);
                return (total, selected);
            },
            Some(v) => {
                let ghost sel0 = selected@;
                let ghost cov0 = covered@;
                proof {
                    lemma_greedy_item(w, cores@, index@, sel0, cov0, v as int);
                    let c = choose|c: int| 0 <= c < cores@.len() && !#[trigger] cov0[c];
                    assert(!hits(sel0, cores@[c]@));
                    assert(!hits_all(sel0, cores@));
                    lemma_cost_set(w, selected@, v as int, n as nat);
                    lemma_cost_fits(w, selected@.update(v as int, true));
                    lemma_open_gain(index@[v as int]@, covered@, 0, index@[v as int]@.len());
                    let i = choose|i: int|
                        0 <= i < index@[v as int]@.len()
                            && !covered@[#[trigger] index@[v as int]@[i] as int];
                    let c = index@[v as int]@[i];
                    assert(c < cores@.len());
                    assert(index@[v as int]@.contains(c as int as usize));
                    assert(cores@[c as int]@.contains(v as int as usize));
                }
                total = total + weights[v];
                let changed = mark_cores(cores, index, &mut selected, &mut covered, v);
                proof {
                    let i = choose|i: int|
                        0 <= i < index@[v as int]@.len()
                            && !cov0[#[trigger] index@[v as int]@[i] as int];
                    let c = index@[v as int]@[i];
                    assert(covered@[c as int]);
                    assert(cov0[c as int] == (covered@[c as int] && !changed@.contains(c)));
                    assert(changed@.len() > 0);
                    depth = (depth - 1) as nat;
                }
                uncovered = uncovered - changed.len();
            },
        }
    }
    proof {
        lemma_open_zero(covered@, cores@.len());
        assert forall|c: int| 0 <= c < cores@.len() implies hits(
            selected@,
            (#[trigger] cores@[c])@,
        ) by {
            assert(covered@[c]);
        }
    }
    (total, selected)
}

proof fn lemma_open_all(covered: Seq<bool>, k: nat)
    requires
        forall|c: int| 0 <= c < k ==> !#[trigger] covered[c],
    ensures
        open_count(covered, k) == k,
    decreases k,
{
    if k > 0 {
        assert(!covered[k - 1]);
        lemma_open_all(covered, (k - 1) as nat);
    }
}

/// The least weight of a core.
pub open spec fn least_weight(weights: Seq<i64>, core: Seq<usize>) -> int {
    core_min(Seq::new(weights.len(), |v: int| weights[v] as int), core, core.len())
}

/// The largest least weight of the open cores among the first `k`.
pub open spec fn open_bound(
    weights: Seq<i64>,
    cores: Seq<Vec<usize>>,
    covered: Seq<bool>,
    k: nat,
) -> int
    decreases k,
{
    if k == 0 {
        0
    } else if !covered[k - 1] && least_weight(weights, cores[k - 1]@) > open_bound(
        weights,
        cores,
        covered,
        (k - 1) as nat,
    ) {
        least_weight(weights, cores[k - 1]@)
    } else {
        open_bound(weights, cores, covered, (k - 1) as nat)
    }
}

/// The largest least weight of the open cores: what any completion still pays.
fn additional_lb(weights: &Vec<i64>, cores: &Vec<Vec<usize>>, covered: &Vec<bool>) -> (r: i64)
    requires
        weights_ok(weights@),
        cores_ok(cores@, weights@.len()),
        covered@.len() == cores@.len(),
    ensures
        r == open_bound(weights@, cores@, covered@, cores@.len()),
{
    let ghost w = weights@;
    let ghost res = Seq::new(w.len(), |v: int| w[v] as int);
    let mut lb: i64 = 0;
    let mut c: usize = 0;
    while c < cores.len()
        invariant
            c <= cores@.len(),
            w == weights@,
            res == Seq::new(w.len(), |v: int| w[v] as int),
            cores_ok(cores@, w.len()),
            covered@.len() == cores@.len(),
            lb == open_bound(w, cores@, covered@, c as nat),
        decreases cores@.len() - c,
    {
        if !covered[c] {
            let core = &cores[c];
            assert(core_ok(cores@[c as int]@, w.len()));
            assert(core@[0] < w.len());
            let mut min_w: i64 = weights[core[0]];
            let mut i: usize = 1;
            while i < core.len()
                invariant
                    1 <= i <= core@.len(),
                    w == weights@,
                    res == Seq::new(w.len(), |v: int| w[v] as int),
                    core_ok(core@, w.len()),
                    min_w == core_min(res, core@, i as nat),
                decreases core@.len() - i,
            {
                assert(core@[i as int] < w.len());
                let x: i64 = weights[core[i]];
                if x < min_w {
                    min_w = x;
                }
                i += 1;
            }
            if min_w > lb {
                lb = min_w;
            }
        }
        c += 1;
    }
    lb
}

proof fn lemma_open_bound(
    weights: Seq<i64>,
    cores: Seq<Vec<usize>>,
    sel: Seq<bool>,
    covered: Seq<bool>,
    s: Seq<bool>,
    k: nat,
)
    requires
        k <= cores.len(),
        cores_ok(cores, weights.len()),
        forall|i: int| 0 <= i < weights.len() ==> (#[trigger] weights[i]) >= 0,
        sel.len() == weights.len(),
        is_covered(sel, cores, covered),
        within(sel, s),
        hits_all(s, cores),
    ensures
        cost(weights, sel, weights.len()) + open_bound(weights, cores, covered, k) <= cost(
            weights,
            s,
            weights.len(),
        ),
    decreases k,
{
    if k == 0 {
        lemma_cost_within(weights, sel, s, weights.len());
    } else {
        lemma_open_bound(weights, cores, sel, covered, s, (k - 1) as nat);
        if !covered[k - 1] {
            let core = cores[k - 1]@;
            let res = Seq::new(weights.len(), |v: int| weights[v] as int);
            assert(core_ok(core, weights.len()));
            assert(!hits(sel, cores[k - 1]@));
            assert(hits(s, cores[k - 1]@));
            let i = choose|i: int| 0 <= i < core.len() && s[#[trigger] core[i] as int];
            assert(core[i] < weights.len());
            assert(!sel[core[i] as int]);
            lemma_core_min(res, core, core.len());
            lemma_cost_more(weights, sel, s, core[i] as int);
        }
    }
}

/// A list in order of weight with one more item, behind those as heavy.
pub open spec fn with_item(weights: Seq<i64>, list: Seq<usize>, v: usize) -> Seq<usize>
    decreases list.len(),
{
    if list.len() == 0 || weights[list.last() as int] <= weights[v as int] {
        list.push(v)
    } else {
        with_item(weights, list.drop_last(), v).push(list.last())
    }
}

/// The items of a core in order of weight, those of equal weight in the order of
/// the core.
pub open spec fn ranked(weights: Seq<i64>, core: Seq<usize>) -> Seq<usize>
    decreases core.len(),
{
    if core.len() == 0 {
        Seq::empty()
    } else {
        with_item(weights, ranked(weights, core.drop_last()), core.last())
    }
}

/// The place of a new item: behind the last item that is not heavier.
proof fn lemma_with_item(weights: Seq<i64>, list: Seq<usize>, v: usize, p: int)
    requires
        0 <= p <= list.len(),
        p > 0 ==> weights[list[p - 1] as int] <= weights[v as int],
        forall|q: int|
            p <= q < list.len() ==> weights[#[trigger] list[q] as int] > weights[v as int],
    ensures
        with_item(weights, list, v) == list.insert(p, v),
    decreases list.len(),
{
    if p == list.len() {
        assert(list.insert(p, v) =~= list.push(v));
    } else {
        let d = list.drop_last();
        assert(weights[list[list.len() - 1] as int] > weights[v as int]);
        assert forall|q: int| p <= q < d.len() implies weights[#[trigger] d[q] as int]
            > weights[v as int] by {
            assert(d[q] == list[q]);
        }
        lemma_with_item(weights, d, v, p);
        assert(list.insert(p, v) =~= d.insert(p, v).push(list.last()));
    }
}

proof fn lemma_with_item_contains(weights: Seq<i64>, list: Seq<usize>, v: usize, u: usize)
    ensures
        with_item(weights, list, v).contains(u) == (list.contains(u) || u == v),
    decreases list.len(),
{
    if list.len() == 0 || weights[list.last() as int] <= weights[v as int] {
        lemma_push_contains(list, v, u);
    } else {
        let d = list.drop_last();
        lemma_with_item_contains(weights, d, v, u);
        lemma_push_contains(with_item(weights, d, v), list.last(), u);
        lemma_push_contains(d, list.last(), u);
        assert(d.push(list.last()) =~= list);
    }
}

proof fn lemma_push_contains(list: Seq<usize>, v: usize, u: usize)
    ensures
        list.push(v).contains(u) == (list.contains(u) || u == v),
{
    let t = list.push(v);
    if list.contains(u) {
        let i = choose|i: int| 0 <= i < list.len() && list[i] == u;
        assert(t[i] == u);
    }
    if u == v {
        assert(t[list.len() as int] == u);
    }
    if t.contains(u) && u != v {
        let i = choose|i: int| 0 <= i < t.len() && t[i] == u;
        assert(list[i] == u);
    }
}

/// The items of a core in order of weight are those of the core.
proof fn lemma_ranked(weights: Seq<i64>, core: Seq<usize>, u: usize)
    ensures
        ranked(weights, core).contains(u) == core.contains(u),
    decreases core.len(),
{
    if core.len() > 0 {
        let d = core.drop_last();
        lemma_ranked(weights, d, u);
        lemma_with_item_contains(weights, ranked(weights, d), core.last(), u);
        lemma_push_contains(d, core.last(), u);
        assert(d.push(core.last()) =~= core);
    }
}

/// The items of a core in order of weight.
fn sorted_candidates(weights: &Vec<i64>, core: &Vec<usize>) -> (r: Vec<usize>)
    requires
        core_ok(core@, weights@.len()),
    ensures
        r@ == ranked(weights@, core@),
{
    let ghost w = weights@;
    let mut r: Vec<usize> = Vec::new();
    let mut i: usize = 0;
    assert(core@.take(0) =~= Seq::empty());
    assert(r@ =~= ranked(w, core@.take(0)));
    while i < core.len()
        invariant
            i <= core@.len(),
            w == weights@,
            core_ok(core@, w.len()),
            r@ == ranked(w, core@.take(i as int)),
            r@.len() == i,
            forall|q: int| 0 <= q < r@.len() ==> (#[trigger] r@[q]) < w.len(),
        decreases core@.len() - i,
    {
        let v: usize = core[i];
        assert(core@[i as int] < w.len());
        let ghost r0 = r@;
        let mut p: usize = r.len();
        while p > 0 && weights[r[p - 1]] > weights[v]
            invariant
                p <= r@.len(),
                r@ == r0,
                w == weights@,
                v < w.len(),
                forall|q: int| 0 <= q < r0.len() ==> (#[trigger] r0[q]) < w.len(),
                forall|q: int| p <= q < r0.len() ==> w[#[trigger] r0[q] as int] > w[v as int],
            decreases p,
        {
            p -= 1;
        }
        r.insert(p, v);
        proof {
            let r1 = r@;
            assert(r1 =~= r0.insert(p as int, v));
            lemma_with_item(w, r0, v, p as int);
            assert(core@.take(i + 1).drop_last() =~= core@.take(i as int));
            assert forall|q: int| 0 <= q < r1.len() implies (#[trigger] r1[q]) < w.len() by {
                if q < p {
                    assert(r1[q] == r0[q]);
                } else if q > p {
                    assert(r1[q] == r0[q - 1]);
                }
            }
        }
        i += 1;
    }
    assert(core@.take(i as int) =~= core@);
    r
}

/// The state of the exact search.
struct Search {
    max_search_nodes: usize,
    search_nodes: usize,
    best_cost: i64,
    best_sel: Vec<bool>,
    aborted: bool,
}

/// The open core on which the search branches: the first of the smallest.
pub open spec fn is_pivot(cores: Seq<Vec<usize>>, sel: Seq<bool>, p: int) -> bool {
    &&& 0 <= p < cores.len()
    &&& !hits(sel, cores[p]@)
    &&& forall|q: int|
        0 <= q < cores.len() && !hits(sel, (#[trigger] cores[q])@) ==> cores[p]@.len()
            <= cores[q]@.len()
    &&& forall|q: int|
        0 <= q < p && !hits(sel, (#[trigger] cores[q])@) ==> cores[p]@.len() < cores[q]@.len()
}

/// The cheapest cover known.
pub struct Known {
    pub cost: int,
    pub sel: Seq<bool>,
}

/// What a search below a selection visits and finds.
pub struct Explored {
    /// The nodes visited.
    pub nodes: nat,
    /// The cheapest cover known afterwards.
    pub best: Known,
}

/// The search for covers that extend a selection, when `best` is the
/// cheapest known and at most `depth` cores are open: it ends at a cover and where the
/// bound shows no better one, else it tries the items of the pivot by weight.
pub open spec fn explored(
    weights: Seq<i64>,
    cores: Seq<Vec<usize>>,
    sel: Seq<bool>,
    best: Known,
    depth: nat,
) -> Explored
    decreases depth, 0nat,
{
    let c = cost(weights, sel, weights.len());
    if depth == 0 || hits_all(sel, cores) {
        Explored {
            nodes: 1,
            best: if c < best.cost {
                Known { cost: c, sel }
            } else {
                best
            },
        }
    } else if c + open_bound(weights, cores, hit_cores(sel, cores), cores.len()) >= best.cost {
        Explored { nodes: 1, best }
    } else {
        let p = choose|p: int| is_pivot(cores, sel, p);
        let list = ranked(weights, cores[p]@);
        let e = explored_items(weights, cores, sel, list, list.len(), best, (depth - 1) as nat);
        Explored { nodes: e.nodes + 1, best: e.best }
    }
}

/// The search below the first `k` items of a list, one after the other; items that
/// cost too much are passed over.
pub open spec fn explored_items(
    weights: Seq<i64>,
    cores: Seq<Vec<usize>>,
    sel: Seq<bool>,
    list: Seq<usize>,
    k: nat,
    best: Known,
    depth: nat,
) -> Explored
    decreases depth, k + 1,
{
    if k == 0 {
        Explored { nodes: 0, best }
    } else {
        let e = explored_items(weights, cores, sel, list, (k - 1) as nat, best, depth);
        let v = list[k - 1] as int;
        if cost(weights, sel, weights.len()) + weights[v] >= e.best.cost {
            e
        } else {
            let f = explored(weights, cores, sel.update(v, true), e.best, depth);
            Explored { nodes: e.nodes + f.nodes, best: f.best }
        }
    }
}

/// The exact search: from the empty selection, with the greedy cover as the
/// cheapest known.
pub open spec fn exact_search(weights: Seq<i64>, cores: Seq<Vec<usize>>) -> Explored {
    let greedy = greedy_cover(weights, cores);
    explored(
        weights,
        cores,
        none_selected(weights.len()),
        (Known { cost: cost(weights, greedy, weights.len()), sel: greedy }),
        cores.len(),
    )
}

/// How many nodes the exact search visits.
pub open spec fn nodes_needed(weights: Seq<i64>, cores: Seq<Vec<usize>>) -> nat {
    exact_search(weights, cores).nodes
}

/// The cheapest cover that is taken: that of the exact search, nothing where there
/// is no core.
pub open spec fn best_cover(weights: Seq<i64>, cores: Seq<Vec<usize>>) -> Seq<bool> {
    if cores.len() == 0 {
        none_selected(weights.len())
    } else {
        exact_search(weights, cores).best.sel
    }
}

proof fn lemma_items_grow(
    weights: Seq<i64>,
    cores: Seq<Vec<usize>>,
    sel: Seq<bool>,
    list: Seq<usize>,
    j: nat,
    k: nat,
    best: Known,
    depth: nat,
)
    requires
        j <= k,
    ensures
        explored_items(weights, cores, sel, list, j, best, depth).nodes <= explored_items(
            weights,
            cores,
            sel,
            list,
            k,
            best,
            depth,
        ).nodes,
    decreases k,
{
    if j < k {
        lemma_items_grow(weights, cores, sel, list, j, (k - 1) as nat, best, depth);
    }
}

proof fn lemma_pivot_unique(cores: Seq<Vec<usize>>, sel: Seq<bool>, p: int)
    requires
        is_pivot(cores, sel, p),
    ensures
        (choose|q: int| is_pivot(cores, sel, q)) == p,
{
    let q = choose|q: int| is_pivot(cores, sel, q);
    assert(is_pivot(cores, sel, q));
    assert(!hits(sel, cores[p]@) && !hits(sel, cores[q]@));
}

/// No cover that has all of `sel` costs less than `c`.
pub open spec fn none_below(
    weights: Seq<i64>,
    cores: Seq<Vec<usize>>,
    sel: Seq<bool>,
    c: int,
) -> bool {
    forall|s: Seq<bool>|
        within(sel, s) && #[trigger] hits_all(s, cores) ==> c <= cost(weights, s, weights.len())
}

/// No cover that has all of `sel` and one of the first `k` candidates costs
/// less than `c`.
spec fn none_below_candidates(
    weights: Seq<i64>,
    cores: Seq<Vec<usize>>,
    sel: Seq<bool>,
    candidates: Seq<usize>,
    k: int,
    c: int,
) -> bool {
    forall|q: int|
        0 <= q < k ==> none_below(
            weights,
            cores,
            sel.update((#[trigger] candidates[q]) as int, true),
            c,
        )
}

impl Search {
    spec fn wf(&self, weights: Seq<i64>, cores: Seq<Vec<usize>>) -> bool {
        &&& is_cover(weights, cores, self.best_sel@, self.best_cost as int)
    }

    /// The cheapest cover known.
    spec fn known(&self) -> Known {
        Known { cost: self.best_cost as int, sel: self.best_sel@ }
    }

    /// Search all covers that extend the selection.
    fn dfs(
        &mut self,
        weights: &Vec<i64>,
        cores: &Vec<Vec<usize>>,
        index: &Vec<Vec<usize>>,
        selected: &mut Vec<bool>,
        covered: &mut Vec<bool>,
        uncovered: usize,
        cur_cost: i64,
        Ghost(depth): Ghost<nat>,
    )
        requires
            old(self).wf(weights@, cores@),
            !old(self).aborted,
            old(self).search_nodes <= old(self).max_search_nodes,
            uncovered <= depth,
            weights_ok(weights@),
            cores_ok(cores@, weights@.len()),
            is_index(cores@, weights@.len(), index@),
            old(selected)@.len() == weights@.len(),
            is_covered(old(selected)@, cores@, old(covered)@),
            uncovered == open_count(old(covered)@, cores@.len()),
            cur_cost == cost(weights@, old(selected)@, weights@.len()),
        ensures
            final(self).wf(weights@, cores@),
            final(self).max_search_nodes == old(self).max_search_nodes,
            final(selected)@ == old(selected)@,
            final(covered)@ == old(covered)@,
            final(self).best_cost <= old(self).best_cost,
            ({
                let e = explored(
                    weights@,
                    cores@,
                    old(selected)@,
                    old(self).known(),
                    depth,
                );
                &&& final(self).aborted == (old(self).search_nodes + e.nodes
                    > old(self).max_search_nodes)
                &&& !final(self).aborted ==> final(self).search_nodes == old(self).search_nodes
                    + e.nodes && final(self).known() == e.best
            }),
            !final(self).aborted ==> none_below(
                weights@,
                cores@,
                old(selected)@,
                final(self).best_cost as int,
            ),
        decreases uncovered,
    {
        let ghost w = weights@;
        let n: usize = weights.len();
        let n_cores: usize = cores.len();
        let ghost sel0 = selected@;
        let ghost cov0 = covered@;
        let ghost nodes0 = self.search_nodes as int;
        let ghost best0 = self.known();
        let ghost whole = explored(w, cores@, sel0, best0, depth);
        proof {
            lemma_open_zero(cov0, cores@.len());
            assert(cov0 =~= hit_cores(sel0, cores@));
            assert(whole.nodes >= 1);
        }
        if self.search_nodes >= self.max_search_nodes {
            self.aborted = true;
            return;
        }
        self.search_nodes = self.search_nodes + 1;
        if uncovered == 0 {
            proof {
                assert forall|c: int| 0 <= c < cores@.len() implies hits(
                    sel0,
                    (#[trigger] cores@[c])@,
                ) by {
                    assert(cov0[c]);
                }
                assert forall|s: Seq<bool>| within(sel0, s) && #[trigger] hits_all(s, cores@) implies cost(
                    w,
                    sel0,
                    w.len(),
                ) <= cost(w, s, w.len()) by {
                    lemma_cost_within(w, sel0, s, w.len());
                }
            }
            if cur_cost < self.best_cost {
                self.best_cost = cur_cost;
                self.best_sel = selected.clone();
                assert(self.best_sel@ =~= sel0);
            }
            return;
        }
        let lb: i64 = additional_lb(weights, cores, covered);
        proof {
            let c = choose|c: int| 0 <= c < cores@.len() && !#[trigger] cov0[c];
            assert(!hits(sel0, cores@[c]@));
            assert(!hits_all(sel0, cores@));
            assert forall|s: Seq<bool>| within(sel0, s) && #[trigger] hits_all(s, cores@) implies cur_cost
                + lb <= cost(w, s, w.len()) by {
                lemma_open_bound(w, cores@, sel0, cov0, s, cores@.len());
            }
            lemma_all_hits(cores@, n as nat);
            assert(within(sel0, all_selected(n as nat)));
            assert(cur_cost + lb <= cost(w, all_selected(n as nat), w.len()));
            lemma_cost_fits(w, sel0);
        }
        if cur_cost + lb >= self.best_cost {
            return;
        }
        let mut pivot: Option<usize> = None;
        let mut c: usize = 0;
        while c < cores.len()
            invariant
                c <= cores@.len(),
                covered@ == cov0,
                cov0.len() == cores@.len(),
                pivot matches Some(p) ==> p < c && !cov0[p as int],
                pivot matches Some(p) ==> forall|q: int|
                    0 <= q < c && !#[trigger] cov0[q] ==> cores@[p as int]@.len() <= cores@[q]@.len(),
                pivot matches Some(p) ==> forall|q: int|
                    0 <= q < p && !#[trigger] cov0[q] ==> cores@[p as int]@.len() < cores@[q]@.len(),
                pivot is None ==> forall|q: int| 0 <= q < c ==> #[trigger] cov0[q],
            decreases cores@.len() - c,
        {
            if !covered[c] {
                match pivot {
                    None => {
                        pivot = Some(c);
                    },
                    Some(p) => {
                        if cores[c].len() < cores[p].len() {
                            pivot = Some(c);
                        }
                    },
                }
            }
            c += 1;
        }
        let p: usize = match pivot {
            None => {
                return ;
            },
            Some(p) => p,
        };
        let ghost core = cores@[p as int]@;
        assert(core_ok(cores@[p as int]@, n as nat));
        assert(!hits(sel0, cores@[p as int]@));
        let candidates = sorted_candidates(weights, &cores[p]);
        let ghost below: nat = (depth - 1) as nat;
        proof {
            assert forall|q: int| 0 <= q < cores@.len() implies #[trigger] cov0[q] == hits(
                sel0,
                cores@[q]@,
            ) by {
            }
            assert forall|q: int| 0 <= q < cores@.len() && !hits(
                sel0,
                (#[trigger] cores@[q])@,
            ) implies cores@[p as int]@.len() <= cores@[q]@.len() by {
                assert(!cov0[q]);
            }
            assert forall|q: int| 0 <= q < p && !hits(
                sel0,
                (#[trigger] cores@[q])@,
            ) implies cores@[p as int]@.len() < cores@[q]@.len() by {
                assert(!cov0[q]);
            }
            assert(is_pivot(cores@, sel0, p as int));
            lemma_pivot_unique(cores@, sel0, p as int);
            assert(whole.nodes == 1 + explored_items(
                w,
                cores@,
                sel0,
                candidates@,
                candidates@.len(),
                best0,
                below,
            ).nodes);
        }
        let mut q: usize = 0;
        while q < candidates.len()
            invariant
                q <= candidates@.len(),
                w == weights@,
                n == w.len(),
                n_cores == cores@.len(),
                weights_ok(w),
                cores_ok(cores@, n as nat),
                is_index(cores@, n as nat, index@),
                p < cores@.len(),
                core == cores@[p as int]@,
                core_ok(core, n as nat),
                !hits(sel0, core),
                candidates@ == ranked(w, core),
                sel0.len() == n,
                selected@ == sel0,
                covered@ == cov0,
                is_covered(sel0, cores@, cov0),
                !cov0[p as int],
                uncovered > 0,
                uncovered == open_count(cov0, cores@.len()),
                cur_cost == cost(w, sel0, w.len()),
                self.wf(w, cores@),
                !self.aborted,
                self.max_search_nodes == old(self).max_search_nodes,
                self.best_cost <= best0.cost,
                below == depth - 1,
                uncovered <= depth,
                whole == explored(w, cores@, sel0, best0, depth),
                whole.nodes == 1 + explored_items(
                    w,
                    cores@,
                    sel0,
                    candidates@,
                    candidates@.len(),
                    best0,
                    below,
                ).nodes,
                whole.best == explored_items(
                    w,
                    cores@,
                    sel0,
                    candidates@,
                    candidates@.len(),
                    best0,
                    below,
                ).best,
                nodes0 == old(self).search_nodes,
                best0 == old(self).known(),
                sel0 == old(selected)@,
                cov0 == old(covered)@,
                nodes0 < self.max_search_nodes,
                self.search_nodes <= self.max_search_nodes,
                self.search_nodes == nodes0 + 1 + explored_items(
                    w,
                    cores@,
                    sel0,
                    candidates@,
                    q as nat,
                    best0,
                    below,
                ).nodes,
                self.known() == explored_items(
                    w,
                    cores@,
                    sel0,
                    candidates@,
                    q as nat,
                    best0,
                    below,
                ).best,
                none_below_candidates(w, cores@, sel0, candidates@, q as int, self.best_cost as int),
            decreases candidates@.len() - q,
        {
            let v: usize = candidates[q];
            proof {
                assert(candidates@.contains(v));
                lemma_ranked(w, core, v);
                let i = choose|i: int| 0 <= i < core.len() && core[i] == v;
                assert(core[i] < n);
                assert(!sel0[core[i] as int]);
                lemma_cost_set(w, sel0, v as int, w.len());
                lemma_cost_fits(w, sel0.update(v as int, true));
                lemma_items_grow(
                    w,
                    cores@,
                    sel0,
                    candidates@,
                    (q + 1) as nat,
                    candidates@.len(),
                    best0,
                    below,
                );
            }
            let next_cost: i64 = cur_cost + weights[v];
            let ghost best1 = self.best_cost as int;
            let ghost seln = sel0.update(v as int, true);
            if next_cost >= self.best_cost {
                proof {
                    assert(none_below(w, cores@, seln, best1)) by {
                        assert forall|s: Seq<bool>|
                            within(seln, s) && #[trigger] hits_all(s, cores@) implies best1 <= cost(
                            w,
                            s,
                            w.len(),
                        ) by {
                            lemma_cost_within(w, seln, s, w.len());
                        }
                    }
                }
            } else {
                let ghost nodes1 = self.search_nodes as int;
                let changed = mark_cores(cores, index, selected, covered, v);
                proof {
                    assert(core.contains(v as int as usize));
                    assert(cores@[p as int]@.contains(v as usize));
                    assert(covered@[p as int]);
                    assert(cov0[p as int] == (covered@[p as int] && !changed@.contains(p as int as usize)));
                    assert(changed@.len() > 0);
                }
                let next_uncovered: usize = uncovered - changed.len();
                let ghost cov1 = covered@;
                self.dfs(
                    weights,
                    cores,
                    index,
                    selected,
                    covered,
                    next_uncovered,
                    next_cost,
                    Ghost(below),
                );
                let mut j: usize = 0;
                while j < changed.len()
                    invariant
                        j <= changed@.len(),
                        n_cores == cores@.len(),
                        cov0.len() == n_cores,
                        covered@.len() == n_cores,
                        cov1.len() == n_cores,
                        forall|c: int|
                            0 <= c < n_cores ==> #[trigger] covered@[c] == (cov1[c]
                                && !changed@.take(j as int).contains(c as usize)),
                        forall|i: int| 0 <= i < changed@.len() ==> (#[trigger] changed@[i]) < n_cores,
                    decreases changed@.len() - j,
                {
                    proof {
                        sets::lemma_contains_take(changed@, j as int);
                    }
                    let c: usize = changed[j];
                    assert(changed@[j as int] < n_cores);
                    let ghost cov2 = covered@;
                    covered.set(c, false);
                    j += 1;
                    proof {
                        assert forall|b: int| 0 <= b < n_cores implies #[trigger] covered@[b] == (
                        cov1[b] && !changed@.take(j as int).contains(b as usize)) by {
                            assert(cov2[b] == (cov1[b] && !changed@.take(j - 1).contains(
                                b as usize,
                            )));
                        }
                    }
                }
                selected.set(v, false);
                proof {
                    assert(changed@.take(j as int) =~= changed@);
                    assert(selected@ =~= sel0);
                    assert(covered@ =~= cov0) by {
                        assert forall|c: int| 0 <= c < n_cores implies covered@[c] == cov0[c] by {
                            assert(cov0[c] == (cov1[c] && !changed@.contains(c as usize)));
                        }
                    }
                }
                if self.aborted {
                    return;
                }
            }
            proof {
                assert forall|i: int| 0 <= i < q + 1 implies none_below(
                    w,
                    cores@,
                    sel0.update((#[trigger] candidates@[i]) as int, true),
                    self.best_cost as int,
                ) by {
                    if i < q {
                        let si = sel0.update(candidates@[i] as int, true);
                        assert(none_below(w, cores@, si, best1));
                        assert forall|s: Seq<bool>|
                            within(si, s) && #[trigger] hits_all(s, cores@) implies self.best_cost
                            <= cost(w, s, w.len()) by {
                            assert(best1 <= cost(w, s, w.len()));
                        }
                    }
                }
            }
            q += 1;
        }
        proof {
            let best = self.best_cost as int;
            assert forall|s: Seq<bool>| within(sel0, s) && #[trigger] hits_all(s, cores@) implies best
                <= cost(w, s, w.len()) by {
                assert(hits(s, cores@[p as int]@));
                let i = choose|i: int| 0 <= i < core.len() && s[#[trigger] core[i] as int];
                assert(core.contains(core[i]));
                lemma_ranked(w, core, core[i]);
                assert(candidates@.contains(core[i]));
                let j = choose|j: int| 0 <= j < candidates@.len() && candidates@[j] == core[i];
                assert(within(sel0.update(candidates@[j] as int, true), s));
                assert(none_below(w, cores@, sel0.update(candidates@[j] as int, true), best));
            }
        }
    }
}

/// Find a cheapest selection that hits every core, by branch and bound from the
/// greedy one. `None` when more search nodes are needed than allowed.
pub fn solve_weighted_hitting_set_exact(
    weights: &Vec<i64>,
    cores: &Vec<Vec<usize>>,
    max_search_nodes: usize,
) -> (r: Option<(i64, Vec<bool>)>)
    requires
        weights_ok(weights@),
        cores_ok(cores@, weights@.len()),
    ensures
        r is None <==> cores@.len() > 0 && max_search_nodes < nodes_needed(weights@, cores@),
        r matches Some((c, sel)) ==> is_minimum_cover(weights@, cores@, sel@, c as int) && sel@
            == best_cover(weights@, cores@),
        cores@.len() == 0 ==> (r matches Some((c, sel)) && c == 0),
{
    let n: usize = weights.len();
    let mut selected: Vec<bool> = Vec::new();
    while selected.len() < n
        invariant
            selected@.len() <= n,
            forall|c: int| 0 <= c < selected@.len() ==> !#[trigger] selected@[c],
        decreases n - selected@.len(),
    {
        selected.push(false);
    }
    proof {
        lemma_cost_none(weights@, selected@, n as nat);
        assert(selected@ =~= none_selected(weights@.len()));
        assert forall|s: Seq<bool>|
            s.len() == weights@.len() && #[trigger] hits_all(s, cores@) implies within(
            selected@,
            s,
        ) && 0 <= cost(weights@, s, weights@.len()) by {
            lemma_cost_within(weights@, selected@, s, weights@.len());
        }
    }
    if cores.len() == 0 {
        return Some((0, selected));
    }
    let index = index_cores(cores, n);
    let (cost0, sel0) = greedy_incumbent(weights, cores, &index);
    let mut covered: Vec<bool> = Vec::new();
    while covered.len() < cores.len()
        invariant
            covered@.len() <= cores@.len(),
            forall|c: int| 0 <= c < covered@.len() ==> !#[trigger] covered@[c],
        decreases cores@.len() - covered@.len(),
    {
        covered.push(false);
    }
    proof {
        assert forall|c: int| 0 <= c < cores@.len() implies (#[trigger] covered@[c] <==> hits(
            selected@,
            cores@[c]@,
        )) by {
            assert(core_ok(cores@[c]@, n as nat));
        }
        lemma_open_all(covered@, cores@.len());
    }
    let mut search = Search {
        max_search_nodes,
        search_nodes: 0,
        best_cost: cost0,
        best_sel: sel0,
        aborted: false,
    };
    let uncovered: usize = cores.len();
    search.dfs(
        weights,
        cores,
        &index,
        &mut selected,
        &mut covered,
        uncovered,
        0,
        Ghost(cores@.len()),
    );
    if search.aborted {
        None
    } else {
        Some((search.best_cost, search.best_sel))
    }
}

} // verus!
