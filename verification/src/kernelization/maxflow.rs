//! Maximum flow in a network with exact capacities.

use vstd::prelude::*;

verus! {

/// The end of an arc list.
pub const NONE: usize = usize::MAX;

/// A flow network as arc lists. Arcs come in pairs: an arc and its reverse.
#[derive(Debug)]
pub struct Dinic {
    pub n: usize,
    pub head: Vec<usize>,
    pub to: Vec<usize>,
    pub cap: Vec<i128>,
    pub next: Vec<usize>,
}

/// The reverse of an arc.
pub open spec fn mate(e: int) -> int {
    if e % 2 == 0 {
        e + 1
    } else {
        e - 1
    }
}

/// Where an arc starts.
pub open spec fn start_of(to: Seq<usize>, e: int) -> usize {
    to[mate(e)]
}

/// The last of the first `b` arcs that starts at `u`.
pub open spec fn last_arc(to: Seq<usize>, u: usize, b: nat) -> usize
    decreases b,
{
    if b == 0 {
        NONE
    } else if start_of(to, b - 1) == u {
        (b - 1) as usize
    } else {
        last_arc(to, u, (b - 1) as nat)
    }
}

/// The capacity left on the first `k` arcs that leave `s`.
pub open spec fn leaving(to: Seq<usize>, cap: Seq<i128>, s: Seq<bool>, k: nat) -> int
    decreases k,
{
    if k == 0 {
        0
    } else {
        leaving(to, cap, s, (k - 1) as nat) + (if s[start_of(to, k - 1) as int] && !s[to[k - 1] as int] {
            cap[k - 1] as int
        } else {
            0
        })
    }
}

/// No arc with capacity leaves `s`.
pub open spec fn is_closed(to: Seq<usize>, cap: Seq<i128>, s: Seq<bool>) -> bool {
    forall|e: int|
        0 <= e < to.len() && s[start_of(to, e) as int] && #[trigger] cap[e] > 0 ==> s[to[e] as int]
}

/// `r` is the least closed set with `start`.
pub open spec fn is_reach(
    to: Seq<usize>,
    cap: Seq<i128>,
    n: nat,
    start: usize,
    r: Seq<bool>,
) -> bool {
    &&& r.len() == n
    &&& r[start as int]
    &&& is_closed(to, cap, r)
    &&& forall|s: Seq<bool>, v: int|
        #![trigger s[v], is_closed(to, cap, s)]
        s.len() == n && s[start as int] && is_closed(to, cap, s) && 0 <= v < n && r[v] ==> s[v]
}

impl Dinic {
    /// The number of arcs.
    pub open spec fn m(&self) -> nat {
        self.to@.len()
    }

    /// The arc lists hold what they should.
    pub open spec fn wf(&self) -> bool {
        &&& self.head@.len() == self.n
        &&& self.cap@.len() == self.m()
        &&& self.next@.len() == self.m()
        &&& self.m() % 2 == 0
        &&& self.m() <= NONE
        &&& forall|e: int| 0 <= e < self.m() ==> (#[trigger] self.to@[e]) < self.n
        &&& forall|e: int|
            0 <= e < self.m() ==> 0 <= #[trigger] self.cap@[e] && self.cap@[e] + self.cap@[mate(e)]
                <= i128::MAX
        &&& forall|u: int|
            0 <= u < self.n ==> #[trigger] self.head@[u] == last_arc(self.to@, u as usize, self.m())
        &&& forall|e: int|
            0 <= e < self.m() ==> #[trigger] self.next@[e] == last_arc(
                self.to@,
                start_of(self.to@, e),
                e as nat,
            )
    }

    /// The capacity that leaves a set.
    pub open spec fn cut(&self, s: Seq<bool>) -> int {
        leaving(self.to@, self.cap@, s, self.m())
    }

    /// An empty network.
    pub fn new(n: usize) -> (r: Self)
        ensures
            r.wf(),
            r.n == n,
            r.m() == 0,
    {
        let mut head: Vec<usize> = Vec::new();
        while head.len() < n
            invariant
                head@.len() <= n,
                forall|u: int| 0 <= u < head@.len() ==> #[trigger] head@[u] == NONE,
            decreases n - head@.len(),
        {
            head.push(NONE);
        }
        Dinic { n, head, to: Vec::new(), cap: Vec::new(), next: Vec::new() }
    }

    /// Add an arc and its reverse.
    pub fn add_edge(&mut self, u: usize, v: usize, c: i128)
        requires
            old(self).wf(),
            u < old(self).n,
            v < old(self).n,
            c >= 0,
            old(self).m() + 2 <= NONE,
        ensures
            final(self).wf(),
            final(self).n == old(self).n,
            final(self).m() == old(self).m() + 2,
            forall|s: Seq<bool>| #[trigger]
                final(self).cut(s) == old(self).cut(s) + (if s[u as int] && !s[v as int] {
                    c as int
                } else {
                    0
                }),
    {
        let ghost m = self.m();
        let ghost to0 = self.to@;
        let ghost cap0 = self.cap@;
        let e: usize = self.to.len();
        self.to.push(v);
        self.cap.push(c);
        let hu: usize = self.head[u];
        self.next.push(hu);
        self.head.set(u, e);
        self.to.push(u);
        self.cap.push(0);
        let hv: usize = self.head[v];
        self.next.push(hv);
        self.head.set(v, e + 1);
        proof {
            let to1 = self.to@;
            let cap1 = self.cap@;
            assert forall|a: int| 0 <= a < m implies start_of(to1, a) == start_of(to0, a) by {
                assert(0 <= mate(a) < m);
            }
            assert(start_of(to1, m as int) == u);
            assert(start_of(to1, m as int + 1) == v);
            assert forall|w: usize, b: nat| b <= m implies #[trigger] last_arc(to1, w, b)
                == last_arc(to0, w, b) by {
                lemma_last_arc_same(to0, to1, w, b, m);
            }
            assert forall|w: int| 0 <= w < self.n implies #[trigger] self.head@[w] == last_arc(
                to1,
                w as usize,
                self.m(),
            ) by {
                assert(last_arc(to1, w as usize, m + 2) == if w == v {
                    (m + 1) as usize
                } else {
                    last_arc(to1, w as usize, m + 1)
                });
                assert(last_arc(to1, w as usize, m + 1) == if w == u {
                    m as usize
                } else {
                    last_arc(to1, w as usize, m)
                });
            }
            assert forall|a: int| 0 <= a < self.m() implies #[trigger] self.next@[a] == last_arc(
                to1,
                start_of(to1, a),
                a as nat,
            ) by {
                if a < m {
                    assert(last_arc(to1, start_of(to1, a), a as nat) == last_arc(
                        to0,
                        start_of(to0, a),
                        a as nat,
                    ));
                } else if a == m + 1 {
                    assert(last_arc(to1, v, m + 1) == if v == u {
                        m as usize
                    } else {
                        last_arc(to1, v, m)
                    });
                }
            }
            assert forall|a: int| 0 <= a < self.m() implies 0 <= #[trigger] self.cap@[a]
                && self.cap@[a] + self.cap@[mate(a)] <= i128::MAX by {
                if a < m {
                    assert(0 <= mate(a) < m);
                    assert(cap1[a] == cap0[a]);
                    assert(cap1[mate(a)] == cap0[mate(a)]);
                }
            }
            assert forall|s: Seq<bool>| #[trigger]
                self.cut(s) == old(self).cut(s) + (if s[u as int] && !s[v as int] {
                    c as int
                } else {
                    0
                }) by {
                lemma_leaving_same(to0, to1, cap0, cap1, s, m, m);
                assert(leaving(to1, cap1, s, m + 2) == leaving(to1, cap1, s, m + 1) + (
                if s[v as int] && !s[u as int] {
                    cap1[m as int + 1] as int
                } else {
                    0
                }));
                assert(leaving(to1, cap1, s, m + 1) == leaving(to1, cap1, s, m) + (
                if s[u as int] && !s[v as int] {
                    cap1[m as int] as int
                } else {
                    0
                }));
            }
        }
    }
}

proof fn lemma_last_arc_same(a: Seq<usize>, b: Seq<usize>, u: usize, k: nat, m: nat)
    requires
        k <= m,
        a.len() == m,
        m % 2 == 0,
        b.len() >= m,
        forall|e: int| 0 <= e < m ==> a[e] == b[e],
    ensures
        last_arc(a, u, k) == last_arc(b, u, k),
    decreases k,
{
    if k > 0 {
        lemma_last_arc_same(a, b, u, (k - 1) as nat, m);
        assert(0 <= mate(k - 1) < m);
    }
}

proof fn lemma_leaving_same(
    a: Seq<usize>,
    b: Seq<usize>,
    ca: Seq<i128>,
    cb: Seq<i128>,
    s: Seq<bool>,
    k: nat,
    m: nat,
)
    requires
        k <= m,
        a.len() == m,
        m % 2 == 0,
        b.len() >= m,
        forall|e: int| 0 <= e < m ==> a[e] == b[e],
        forall|e: int| 0 <= e < m ==> ca[e] == cb[e],
    ensures
        leaving(a, ca, s, k) == leaving(b, cb, s, k),
    decreases k,
{
    if k > 0 {
        lemma_leaving_same(a, b, ca, cb, s, (k - 1) as nat, m);
        assert(0 <= mate(k - 1) < m);
    }
}

/// The last arc is the greatest one that starts at `u`.
proof fn lemma_last_arc(to: Seq<usize>, u: usize, b: nat)
    requires
        b <= to.len(),
        to.len() <= NONE,
    ensures
        last_arc(to, u, b) == NONE ==> forall|e: int| 0 <= e < b ==> #[trigger] start_of(to, e) != u,
        last_arc(to, u, b) != NONE ==> last_arc(to, u, b) < b && start_of(
            to,
            last_arc(to, u, b) as int,
        ) == u && forall|e: int| last_arc(to, u, b) < e < b ==> #[trigger] start_of(to, e) != u,
    decreases b,
{
    if b > 0 {
        lemma_last_arc(to, u, (b - 1) as nat);
    }
}

/// The capacity that leaves a set is not negative.
pub proof fn lemma_leaving_nonneg(to: Seq<usize>, cap: Seq<i128>, s: Seq<bool>, k: nat)
    requires
        k <= cap.len(),
        forall|e: int| 0 <= e < cap.len() ==> 0 <= #[trigger] cap[e],
    ensures
        0 <= leaving(to, cap, s, k),
    decreases k,
{
    if k > 0 {
        lemma_leaving_nonneg(to, cap, s, (k - 1) as nat);
        assert(0 <= cap[k - 1]);
    }
}

/// Nothing leaves a set exactly when it is closed.
pub proof fn lemma_leaving_closed(to: Seq<usize>, cap: Seq<i128>, s: Seq<bool>, k: nat)
    requires
        k <= cap.len(),
        k == to.len(),
        forall|e: int| 0 <= e < cap.len() ==> 0 <= #[trigger] cap[e],
    ensures
        (leaving(to, cap, s, k) == 0) == is_closed(to, cap, s),
{
    if is_closed(to, cap, s) {
        lemma_closed_leaving(to, cap, s, k);
    }
    if leaving(to, cap, s, k) == 0 {
        assert forall|e: int|
            0 <= e < to.len() && s[start_of(to, e) as int] && #[trigger] cap[e] > 0 implies s[to[e] as int] by {
            if !s[to[e] as int] {
                lemma_leaving_at(to, cap, s, k, e);
            }
        }
    }
}

proof fn lemma_closed_leaving(to: Seq<usize>, cap: Seq<i128>, s: Seq<bool>, k: nat)
    requires
        k <= to.len(),
        k <= cap.len(),
        is_closed(to, cap, s),
        forall|e: int| 0 <= e < cap.len() ==> 0 <= #[trigger] cap[e],
    ensures
        leaving(to, cap, s, k) == 0,
    decreases k,
{
    if k > 0 {
        lemma_closed_leaving(to, cap, s, (k - 1) as nat);
        assert(0 <= cap[k - 1]);
    }
}

proof fn lemma_leaving_at(to: Seq<usize>, cap: Seq<i128>, s: Seq<bool>, k: nat, e: int)
    requires
        0 <= e < k,
        k <= cap.len(),
        forall|a: int| 0 <= a < cap.len() ==> 0 <= #[trigger] cap[a],
        s[start_of(to, e) as int],
        !s[to[e] as int],
    ensures
        leaving(to, cap, s, k) >= cap[e],
    decreases k,
{
    if e == k - 1 {
        lemma_leaving_nonneg(to, cap, s, (k - 1) as nat);
    } else {
        lemma_leaving_at(to, cap, s, (k - 1) as nat, e);
        assert(0 <= cap[k - 1]);
    }
}

/// One capacity changes.
proof fn lemma_leaving_update(
    to: Seq<usize>,
    cap: Seq<i128>,
    s: Seq<bool>,
    e: int,
    c: i128,
    k: nat,
)
    requires
        0 <= e < cap.len(),
        k <= cap.len(),
    ensures
        leaving(to, cap.update(e, c), s, k) == leaving(to, cap, s, k) + (if e < k && s[start_of(
            to,
            e,
        ) as int] && !s[to[e] as int] {
            c - cap[e]
        } else {
            0
        }),
    decreases k,
{
    if k > 0 {
        lemma_leaving_update(to, cap, s, e, c, (k - 1) as nat);
    }
}

/// Whether a node is in a set, as a number.
pub open spec fn inside(s: Seq<bool>, v: usize) -> int {
    if s[v as int] {
        1
    } else {
        0
    }
}

/// Pushing along one arc.
proof fn lemma_push(
    to: Seq<usize>,
    cap: Seq<i128>,
    cap2: Seq<i128>,
    e: int,
    d: i128,
    s: Seq<bool>,
)
    requires
        0 <= e < cap.len(),
        cap.len() == to.len(),
        cap.len() % 2 == 0,
        i128::MIN <= cap[e] - d <= i128::MAX,
        i128::MIN <= cap[mate(e)] + d <= i128::MAX,
        cap2 == cap.update(e, (cap[e] - d) as i128).update(
            mate(e),
            (cap[mate(e)] + d) as i128,
        ),
    ensures
        leaving(to, cap2, s, to.len()) == leaving(to, cap, s, to.len()) - d * (inside(
            s,
            start_of(to, e),
        ) - inside(s, to[e])),
{
    let c1 = cap.update(e, (cap[e] - d) as i128);
    let f = mate(e);
    assert(0 <= f < cap.len() && mate(f) == e && f != e);
    lemma_leaving_update(to, cap, s, e, (cap[e] - d) as i128, to.len());
    lemma_leaving_update(to, c1, s, f, (cap[f] + d) as i128, to.len());
    assert(start_of(to, f) == to[e]);
    assert(to[f] == start_of(to, e));
    let w = inside(s, start_of(to, e)) - inside(s, to[e]);
    assert(d * w == if w == 0 { 0 } else if w == 1 { d as int } else { -d }) by (nonlinear_arith)
        requires
            w == 0 || w == 1 || w == -1,
    ;
}


/// Different numbers below `n` are at most `n` many.
proof fn lemma_distinct_bound(s: Seq<usize>, n: nat)
    requires
        s.no_duplicates(),
        forall|i: int| 0 <= i < s.len() ==> (#[trigger] s[i]) < n,
    ensures
        s.len() <= n,
    decreases n,
{
    if n == 0 {
        if s.len() > 0 {
            assert(s[0] < n);
        }
    } else if exists|i: int| 0 <= i < s.len() && #[trigger] s[i] == n - 1 {
        let i = choose|i: int| 0 <= i < s.len() && #[trigger] s[i] == n - 1;
        let r = s.remove(i);
        assert forall|a: int| 0 <= a < r.len() implies (#[trigger] r[a]) < n - 1 by {
            let b = if a < i {
                a
            } else {
                a + 1
            };
            assert(r[a] == s[b]);
            assert(s[b] != s[i]);
        }
        assert(r.no_duplicates()) by {
            assert forall|a: int, b: int| 0 <= a < b < r.len() implies r[a] != r[b] by {
                let a2 = if a < i {
                    a
                } else {
                    a + 1
                };
                let b2 = if b < i {
                    b
                } else {
                    b + 1
                };
                assert(s[a2] != s[b2]);
            }
        }
        lemma_distinct_bound(r, (n - 1) as nat);
    } else {
        assert forall|i: int| 0 <= i < s.len() implies (#[trigger] s[i]) < n - 1 by {
            assert(s[i] != n - 1);
        }
        lemma_distinct_bound(s, (n - 1) as nat);
    }
}

/// The levels of a breadth-first search: the source has level zero, every other
/// reached node has a predecessor one level below, and the reached nodes are
/// closed.
pub open spec fn is_levels(
    to: Seq<usize>,
    cap: Seq<i128>,
    n: nat,
    s: usize,
    level: Seq<usize>,
) -> bool {
    &&& level.len() == n
    &&& level[s as int] == 0
    &&& forall|v: int| 0 <= v < n ==> #[trigger] level[v] == NONE || level[v] < n
    &&& forall|v: int| 0 <= v < n && #[trigger] level[v] == 0 ==> v == s
    &&& forall|v: int|
        0 <= v < n && #[trigger] level[v] != NONE && level[v] > 0 ==> has_parent(to, cap, level, v)
    &&& forall|e: int|
        0 <= e < to.len() && #[trigger] cap[e] > 0 && level[start_of(to, e) as int] != NONE
            ==> level[to[e] as int] != NONE
}

/// An arc with capacity leads to `v` from the level below.
pub open spec fn has_parent(to: Seq<usize>, cap: Seq<i128>, level: Seq<usize>, v: int) -> bool {
    exists|e: int|
        0 <= e < to.len() && #[trigger] cap[e] > 0 && to[e] == v && level[start_of(to, e) as int] + 1
            == level[v] && level[start_of(to, e) as int] != NONE
}

/// All arcs with capacity of the first `k` queued nodes lead to reached nodes.
spec fn explored(
    to: Seq<usize>,
    cap: Seq<i128>,
    level: Seq<usize>,
    queue: Seq<usize>,
    k: int,
) -> bool {
    forall|q: int, e: int|
        0 <= q < k && 0 <= e < to.len() && start_of(to, e) == #[trigger] queue[q] && #[trigger] cap[e]
            > 0 ==> level[to[e] as int] != NONE
}

impl Dinic {
    /// Breadth-first levels from `s`. Returns whether `t` was reached.
    #[verifier::rlimit(60)]
    pub fn bfs(&self, s: usize, t: usize, level: &mut Vec<usize>) -> (r: bool)
        requires
            self.wf(),
            s < self.n,
            t < self.n,
            self.n < NONE,
            old(level)@.len() == self.n,
        ensures
            is_levels(self.to@, self.cap@, self.n as nat, s, final(level)@),
            r == (final(level)@[t as int] != NONE),
    {
        let n: usize = self.n;
        let ghost to = self.to@;
        let ghost cap = self.cap@;
        let mut i: usize = 0;
        while i < n
            invariant
                i <= n,
                level@.len() == n,
                forall|v: int| 0 <= v < i ==> #[trigger] level@[v] == NONE,
            decreases n - i,
        {
            level.set(i, NONE);
            i += 1;
        }
        level.set(s, 0);
        let mut queue: Vec<usize> = Vec::new();
        queue.push(s);
        let mut qi: usize = 0;
        proof {
            assert(queue@ =~= seq![s]);
            assert(queue@.no_duplicates());
            assert(queue@[0] == s);
            lemma_distinct_bound(queue@, n as nat);
        }
        while qi < queue.len()
            invariant
                self.wf(),
                n == self.n,
                n < NONE,
                to == self.to@,
                cap == self.cap@,
                s < n,
                level@.len() == n,
                0 < queue@.len() <= n,
                qi <= queue@.len(),
                queue@.no_duplicates(),
                forall|q: int|
                    0 <= q < queue@.len() ==> (#[trigger] queue@[q]) < n
                        && level@[queue@[q] as int] <= q,
                forall|v: int|
                    0 <= v < n && #[trigger] level@[v] != NONE ==> queue@.contains(v as usize),
                level@[s as int] == 0,
                forall|v: int| 0 <= v < n && #[trigger] level@[v] == 0 ==> v == s,
                forall|v: int|
                    0 <= v < n && #[trigger] level@[v] != NONE && level@[v] > 0 ==> has_parent(
                        to,
                        cap,
                        level@,
                        v,
                    ),
                explored(to, cap, level@, queue@, qi as int),
            decreases n - qi,
        {
            let u: usize = queue[qi];
            let mut eid: usize = self.head[u];
            proof {
                lemma_last_arc(to, u, to.len());
            }
            while eid != NONE
                invariant
                    self.wf(),
                    n == self.n,
                    n < NONE,
                    to == self.to@,
                    cap == self.cap@,
                    s < n,
                    u < n,
                    qi < queue@.len() <= n,
                    u == queue@[qi as int],
                    level@.len() == n,
                    queue@.no_duplicates(),
                    eid == NONE || (eid < to.len() && start_of(to, eid as int) == u),
                    forall|q: int|
                        0 <= q < queue@.len() ==> (#[trigger] queue@[q]) < n
                            && level@[queue@[q] as int] <= q,
                    forall|v: int|
                        0 <= v < n && #[trigger] level@[v] != NONE ==> queue@.contains(v as usize),
                    level@[s as int] == 0,
                    forall|v: int| 0 <= v < n && #[trigger] level@[v] == 0 ==> v == s,
                    forall|v: int|
                        0 <= v < n && #[trigger] level@[v] != NONE && level@[v] > 0 ==> has_parent(
                            to,
                            cap,
                            level@,
                            v,
                        ),
                    explored(to, cap, level@, queue@, qi as int),
                    forall|e: int|
                        0 <= e < to.len() && start_of(to, e) == u && #[trigger] cap[e] > 0 && (eid
                            == NONE || e > eid) ==> level@[to[e] as int] != NONE,
                decreases
                        (if eid == NONE {
                            0int
                        } else {
                            eid + 1
                        }),
            {
                let v: usize = self.to[eid];
                let ghost level0 = level@;
                let ghost queue0 = queue@;
                if self.cap[eid] > 0 && level[v] == NONE {
                    let lu: usize = level[u];
                    proof {
                        assert(level@[queue@[qi as int] as int] <= qi);
                        assert(!queue@.contains(v)) by {
                            if queue@.contains(v) {
                                let q = choose|q: int| 0 <= q < queue@.len() && queue@[q] == v;
                                assert(level@[queue@[q] as int] <= q);
                            }
                        }
                    }
                    level.set(v, lu + 1);
                    queue.push(v);
                    proof {
                        assert(queue@.no_duplicates()) by {
                            assert forall|a: int, b: int| 0 <= a < b < queue@.len() implies queue@[a]
                                != queue@[b] by {
                                if b == queue0.len() {
                                    assert(queue0.contains(queue0[a]));
                                } else {
                                    assert(queue0[a] != queue0[b]);
                                }
                            }
                        }
                        assert forall|q: int| 0 <= q < queue@.len() implies (#[trigger] queue@[q])
                            < n && level@[queue@[q] as int] <= q by {
                            if q < queue0.len() {
                                assert(queue@[q] == queue0[q]);
                                assert(queue0.contains(queue0[q]));
                            }
                        }
                        lemma_distinct_bound(queue@, n as nat);
                        assert forall|w: int| 0 <= w < n && #[trigger] level@[w] != NONE implies queue@.contains(
                        w as usize) by {
                            if w == v {
                                assert(queue@[queue0.len() as int] == v);
                            } else {
                                assert(level0[w] != NONE);
                                let q = choose|q: int|
                                    0 <= q < queue0.len() && queue0[q] == w as usize;
                                assert(queue@[q] == w as usize);
                            }
                        }
                        assert forall|w: int|
                            0 <= w < n && #[trigger] level@[w] != NONE && level@[w]
                                > 0 implies has_parent(to, cap, level@, w) by {
                            if w == v {
                                assert(cap[eid as int] > 0);
                            } else {
                                assert(has_parent(to, cap, level0, w));
                                let e = choose|e: int|
                                    0 <= e < to.len() && #[trigger] cap[e] > 0 && to[e] == w
                                        && level0[start_of(to, e) as int] + 1 == level0[w]
                                        && level0[start_of(to, e) as int] != NONE;
                                assert(cap[e] > 0);
                            }
                        }
                        assert forall|q: int, e: int|
                            0 <= q < qi && 0 <= e < to.len() && start_of(to, e)
                                == #[trigger] queue@[q] && #[trigger] cap[e]
                                > 0 implies level@[to[e] as int] != NONE by {
                            assert(queue0[q] == queue@[q]);
                            assert(level0[to[e] as int] != NONE);
                        }
                    }
                }
                let ghost eid0 = eid;
                proof {
                    lemma_last_arc(to, u, eid as nat);
                }
                eid = self.next[eid];
                proof {
                    assert forall|e: int|
                        0 <= e < to.len() && start_of(to, e) == u && #[trigger] cap[e] > 0 && (eid
                            == NONE || e > eid) implies level@[to[e] as int] != NONE by {
                        if e > eid0 {
                            assert(level0[to[e] as int] != NONE);
                        } else if e < eid0 {
                            assert(start_of(to, e) != u);
                        }
                    }
                }
            }
            qi += 1;
            proof {
                assert forall|q: int, e: int|
                    0 <= q < qi && 0 <= e < to.len() && start_of(to, e) == #[trigger] queue@[q]
                        && #[trigger] cap[e] > 0 implies level@[to[e] as int] != NONE by {
                }
            }
        }
        proof {
            assert forall|e: int|
                0 <= e < to.len() && #[trigger] cap[e] > 0 && level@[start_of(to, e) as int]
                    != NONE implies level@[to[e] as int] != NONE by {
                let u = start_of(to, e);
                assert(0 <= mate(e) < to.len());
                assert(to[mate(e)] < n);
                assert(queue@.contains(u as int as usize));
                let q = choose|q: int| 0 <= q < queue@.len() && queue@[q] == u;
                assert(queue@[q] == u);
            }
            assert forall|v: int| 0 <= v < n implies #[trigger] level@[v] == NONE || level@[v] < n by {
                if level@[v] != NONE {
                    assert(queue@.contains(v as usize));
                    let q = choose|q: int| 0 <= q < queue@.len() && queue@[q] == v as usize;
                    assert(level@[queue@[q] as int] <= q);
                }
            }
        }
        level[t] != NONE
    }

    /// The nodes that can be reached through arcs with capacity.
    pub fn reachable_from(&self, start: usize) -> (r: Vec<bool>)
        requires
            self.wf(),
            start < self.n,
            self.n < NONE,
        ensures
            is_reach(self.to@, self.cap@, self.n as nat, start, r@),
    {
        let n: usize = self.n;
        let ghost to = self.to@;
        let ghost cap = self.cap@;
        let mut vis: Vec<bool> = Vec::new();
        while vis.len() < n
            invariant
                vis@.len() <= n,
                forall|v: int| 0 <= v < vis@.len() ==> !#[trigger] vis@[v],
            decreases n - vis@.len(),
        {
            vis.push(false);
        }
        vis.set(start, true);
        let mut queue: Vec<usize> = Vec::new();
        queue.push(start);
        let mut qi: usize = 0;
        proof {
            assert(queue@ =~= seq![start]);
            assert(queue@[0] == start);
            lemma_distinct_bound(queue@, n as nat);
        }
        while qi < queue.len()
            invariant
                self.wf(),
                n == self.n,
                n < NONE,
                to == self.to@,
                cap == self.cap@,
                start < n,
                vis@.len() == n,
                vis@[start as int],
                0 < queue@.len() <= n,
                qi <= queue@.len(),
                queue@.no_duplicates(),
                forall|q: int|
                    0 <= q < queue@.len() ==> (#[trigger] queue@[q]) < n && vis@[queue@[q] as int],
                forall|v: int| 0 <= v < n && #[trigger] vis@[v] ==> queue@.contains(v as usize),
                forall|q: int, e: int|
                    0 <= q < qi && 0 <= e < to.len() && start_of(to, e) == #[trigger] queue@[q]
                        && #[trigger] cap[e] > 0 ==> vis@[to[e] as int],
                forall|c: Seq<bool>, v: int|
                    #![trigger c[v], is_closed(to, cap, c)]
                    c.len() == n && c[start as int] && is_closed(to, cap, c) && 0 <= v < n && vis@[v]
                        ==> c[v],
            decreases n - qi,
        {
            let u: usize = queue[qi];
            let mut eid: usize = self.head[u];
            proof {
                lemma_last_arc(to, u, to.len());
            }
            while eid != NONE
                invariant
                    self.wf(),
                    n == self.n,
                    n < NONE,
                    to == self.to@,
                    cap == self.cap@,
                    start < n,
                    u < n,
                    vis@[u as int],
                    vis@[start as int],
                    qi < queue@.len() <= n,
                    u == queue@[qi as int],
                    vis@.len() == n,
                    queue@.no_duplicates(),
                    eid == NONE || (eid < to.len() && start_of(to, eid as int) == u),
                    forall|q: int|
                        0 <= q < queue@.len() ==> (#[trigger] queue@[q]) < n
                            && vis@[queue@[q] as int],
                    forall|v: int| 0 <= v < n && #[trigger] vis@[v] ==> queue@.contains(v as usize),
                    forall|q: int, e: int|
                        0 <= q < qi && 0 <= e < to.len() && start_of(to, e) == #[trigger] queue@[q]
                            && #[trigger] cap[e] > 0 ==> vis@[to[e] as int],
                    forall|e: int|
                        0 <= e < to.len() && start_of(to, e) == u && #[trigger] cap[e] > 0 && (eid
                            == NONE || e > eid) ==> vis@[to[e] as int],
                    forall|c: Seq<bool>, v: int|
                        #![trigger c[v], is_closed(to, cap, c)]
                        c.len() == n && c[start as int] && is_closed(to, cap, c) && 0 <= v < n
                            && vis@[v] ==> c[v],
                decreases
                        (if eid == NONE {
                            0int
                        } else {
                            eid + 1
                        }),
            {
                let v: usize = self.to[eid];
                let ghost vis0 = vis@;
                let ghost queue0 = queue@;
                if self.cap[eid] > 0 && !vis[v] {
                    proof {
                        assert(!queue@.contains(v)) by {
                            if queue@.contains(v) {
                                let q = choose|q: int| 0 <= q < queue@.len() && queue@[q] == v;
                                assert(vis@[queue@[q] as int]);
                            }
                        }
                    }
                    vis.set(v, true);
                    queue.push(v);
                    proof {
                        assert(queue@.no_duplicates()) by {
                            assert forall|a: int, b: int| 0 <= a < b < queue@.len() implies queue@[a]
                                != queue@[b] by {
                                if b == queue0.len() {
                                    assert(queue0.contains(queue0[a]));
                                } else {
                                    assert(queue0[a] != queue0[b]);
                                }
                            }
                        }
                        assert forall|q: int| 0 <= q < queue@.len() implies (#[trigger] queue@[q])
                            < n && vis@[queue@[q] as int] by {
                            if q < queue0.len() {
                                assert(queue@[q] == queue0[q]);
                            }
                        }
                        lemma_distinct_bound(queue@, n as nat);
                        assert forall|w: int| 0 <= w < n && #[trigger] vis@[w] implies queue@.contains(
                        w as usize) by {
                            if w == v {
                                assert(queue@[queue0.len() as int] == v);
                            } else {
                                assert(vis0[w]);
                                let q = choose|q: int|
                                    0 <= q < queue0.len() && queue0[q] == w as usize;
                                assert(queue@[q] == w as usize);
                            }
                        }
                        assert forall|q: int, e: int|
                            0 <= q < qi && 0 <= e < to.len() && start_of(to, e)
                                == #[trigger] queue@[q] && #[trigger] cap[e]
                                > 0 implies vis@[to[e] as int] by {
                            assert(queue0[q] == queue@[q]);
                            assert(vis0[to[e] as int]);
                        }
                        assert forall|c: Seq<bool>, w: int|
                            #![trigger c[w], is_closed(to, cap, c)]
                            c.len() == n && c[start as int] && is_closed(to, cap, c) && 0 <= w < n
                                && vis@[w] implies c[w] by {
                            if w == v {
                                assert(c[u as int]);
                                assert(cap[eid as int] > 0);
                            } else {
                                assert(vis0[w]);
                            }
                        }
                    }
                }
                let ghost eid0 = eid;
                proof {
                    lemma_last_arc(to, u, eid as nat);
                }
                eid = self.next[eid];
                proof {
                    assert forall|e: int|
                        0 <= e < to.len() && start_of(to, e) == u && #[trigger] cap[e] > 0 && (eid
                            == NONE || e > eid) implies vis@[to[e] as int] by {
                        if e > eid0 {
                            assert(vis0[to[e] as int]);
                        } else if e < eid0 {
                            assert(start_of(to, e) != u);
                        }
                    }
                }
            }
            qi += 1;
        }
        proof {
            assert forall|e: int|
                0 <= e < to.len() && vis@[start_of(to, e) as int] && #[trigger] cap[e]
                    > 0 implies vis@[to[e] as int] by {
                let u = start_of(to, e);
                assert(0 <= mate(e) < to.len());
                assert(to[mate(e)] < n);
                assert(vis@[u as int]);
                assert(queue@.contains(u as int as usize));
                let q = choose|q: int| 0 <= q < queue@.len() && queue@[q] == u;
                assert(queue@[q] == u);
            }
        }
        vis
    }
}


/// The current arcs start where they should.
pub open spec fn arcs_ok(to: Seq<usize>, n: nat, iter: Seq<usize>) -> bool {
    iter.len() == n && forall|w: int|
        0 <= w < n && #[trigger] iter[w] != NONE ==> iter[w] < to.len() && start_of(
            to,
            iter[w] as int,
        ) == w
}

/// The arc has capacity and leads one level up.
pub open spec fn admissible(to: Seq<usize>, cap: Seq<i128>, level: Seq<usize>, e: int) -> bool {
    cap[e] > 0 && level[to[e] as int] == level[start_of(to, e) as int] + 1
}

/// The arc comes before the current arc of its start.
pub open spec fn passed(to: Seq<usize>, iter: Seq<usize>, e: int) -> bool {
    iter[start_of(to, e) as int] == NONE || e > iter[start_of(to, e) as int]
}

/// Passed admissible arcs lead to nodes that are used up.
pub open spec fn dead_ends(
    to: Seq<usize>,
    cap: Seq<i128>,
    level: Seq<usize>,
    iter: Seq<usize>,
    t: usize,
) -> bool {
    forall|e: int|
        0 <= e < to.len() && #[trigger] passed(to, iter, e) && admissible(to, cap, level, e)
            ==> iter[to[e] as int] == NONE && to[e] != t
}

/// Levels are below the number of nodes.
pub open spec fn levels_below(level: Seq<usize>, n: nat) -> bool {
    level.len() == n && forall|v: int|
        0 <= v < n ==> #[trigger] level[v] == NONE || level[v] < n
}

/// The sums of the capacities of arc pairs are kept, and no capacity is
/// negative.
pub open spec fn same_pairs(a: Seq<i128>, b: Seq<i128>) -> bool {
    &&& a.len() == b.len()
    &&& forall|e: int|
        0 <= e < a.len() ==> 0 <= #[trigger] b[e] && b[e] + b[mate(e)] == a[e] + a[mate(e)]
}

/// Pushing along an admissible arc from `u`, after a push from its end.
proof fn lemma_dfs_push(
    to: Seq<usize>,
    n: nat,
    cap0: Seq<i128>,
    cap1: Seq<i128>,
    cap2: Seq<i128>,
    eid: int,
    d: i128,
    level: Seq<usize>,
    iter: Seq<usize>,
    t: usize,
)
    requires
        to.len() == cap0.len(),
        to.len() % 2 == 0,
        0 <= eid < to.len(),
        0 < d <= cap0[eid],
        same_pairs(cap0, cap1),
        cap1[eid] == cap0[eid],
        cap1[mate(eid)] == cap0[mate(eid)],
        cap0[mate(eid)] >= 0,
        cap0[eid] + cap0[mate(eid)] <= i128::MAX,
        cap2 == cap1.update(eid, (cap1[eid] - d) as i128).update(
            mate(eid),
            (cap1[mate(eid)] + d) as i128,
        ),
        level[to[eid] as int] == level[start_of(to, eid) as int] + 1,
        changed_above(to, level, level[to[eid] as int] as int, cap0, cap1),
        iter[start_of(to, eid) as int] == eid,
        eid != NONE,
        dead_ends(to, cap1, level, iter, t),
    ensures
        same_pairs(cap0, cap2),
        changed_above(to, level, level[start_of(to, eid) as int] as int, cap0, cap2),
        dead_ends(to, cap2, level, iter, t),
{
    let rev = mate(eid);
    let u = start_of(to, eid);
    let v = to[eid];
    assert(mate(rev) == eid);
    assert(start_of(to, rev) == v);
    assert(to[rev] == u);
    assert forall|e: int| 0 <= e < to.len() implies 0 <= #[trigger] cap2[e] && cap2[e] + cap2[mate(
        e,
    )] == cap0[e] + cap0[mate(e)] by {
        assert(0 <= cap1[e] && cap1[e] + cap1[mate(e)] == cap0[e] + cap0[mate(e)]);
        assert(mate(mate(e)) == e);
        assert(0 <= mate(e) < to.len());
        assert(0 <= cap1[mate(e)]);
    }
    assert forall|e: int|
        0 <= e < cap0.len() && (level[start_of(to, e) as int] < level[u as int] || level[to[e] as int]
            < level[u as int]) implies #[trigger] cap2[e] == cap0[e] by {
        assert(cap1[e] == cap0[e]);
    }
    assert forall|e: int|
        0 <= e < to.len() && #[trigger] passed(to, iter, e) && admissible(
            to,
            cap2,
            level,
            e,
        ) implies iter[to[e] as int] == NONE && to[e] != t by {
        if e == rev {
            assert(level[u as int] == level[v as int] + 1);
        } else if e == eid {
            assert(!passed(to, iter, e));
        } else {
            assert(admissible(to, cap1, level, e));
        }
    }
}

/// Passing an arc that is not admissible or leads to a node that is used up.
proof fn lemma_advance(
    to: Seq<usize>,
    n: nat,
    cap: Seq<i128>,
    level: Seq<usize>,
    a: Seq<usize>,
    b: Seq<usize>,
    u: usize,
    eid: int,
    nx: usize,
    t: usize,
)
    requires
        0 <= eid < to.len(),
        to.len() <= NONE,
        to.len() % 2 == 0,
        forall|e: int| 0 <= e < to.len() ==> (#[trigger] to[e]) < n,
        u < n,
        arcs_ok(to, n, a),
        a[u as int] == eid,
        start_of(to, eid) == u,
        nx == last_arc(to, u, eid as nat),
        b == a.update(u as int, nx),
        dead_ends(to, cap, level, a, t),
        admissible(to, cap, level, eid) ==> a[to[eid] as int] == NONE && to[eid] != t,
    ensures
        arcs_ok(to, n, b),
        dead_ends(to, cap, level, b, t),
        nx == NONE || nx < eid,
{
    lemma_last_arc(to, u, eid as nat);
    assert forall|e: int|
        0 <= e < to.len() && #[trigger] passed(to, b, e) && admissible(
            to,
            cap,
            level,
            e,
        ) implies b[to[e] as int] == NONE && to[e] != t by {
        assert(0 <= mate(e) < to.len());
        assert(to[mate(e)] < n);
        assert(to[e] < n);
        if start_of(to, e) == u {
            if e > eid {
                assert(passed(to, a, e));
            } else if e < eid {
                assert(start_of(to, e) != u);
            }
        } else {
            assert(passed(to, a, e));
        }
        assert(a[to[e] as int] == NONE);
        assert(to[e] != u);
    }
}

/// Only arcs between nodes at or above a level have changed.
pub open spec fn changed_above(
    to: Seq<usize>,
    level: Seq<usize>,
    l: int,
    a: Seq<i128>,
    b: Seq<i128>,
) -> bool {
    forall|e: int|
        0 <= e < a.len() && (level[start_of(to, e) as int] < l || level[to[e] as int] < l)
            ==> #[trigger] b[e] == a[e]
}

/// A push from the end of an arc leaves the arc and its reverse alone.
proof fn lemma_arc_kept(
    to: Seq<usize>,
    level: Seq<usize>,
    cap0: Seq<i128>,
    cap1: Seq<i128>,
    e: int,
)
    requires
        0 <= e < cap0.len(),
        cap0.len() == to.len(),
        to.len() % 2 == 0,
        level[to[e] as int] == level[start_of(to, e) as int] + 1,
        changed_above(to, level, level[to[e] as int] as int, cap0, cap1),
    ensures
        cap1[e] == cap0[e],
        cap1[mate(e)] == cap0[mate(e)],
{
    assert(mate(mate(e)) == e);
    assert(to[mate(e)] == start_of(to, e));
    assert(start_of(to, mate(e)) == to[e]);
}

impl Dinic {
    /// Move `d` units of capacity from an arc to its reverse.
    fn push(&mut self, eid: usize, d: i128)
        requires
            old(self).wf(),
            eid < old(self).m(),
            0 <= d <= old(self).cap@[eid as int],
        ensures
            final(self).wf(),
            final(self).n == old(self).n,
            final(self).to == old(self).to,
            final(self).head == old(self).head,
            final(self).next == old(self).next,
            final(self).cap@ == old(self).cap@.update(
                eid as int,
                (old(self).cap@[eid as int] - d) as i128,
            ).update(mate(eid as int), (old(self).cap@[mate(eid as int)] + d) as i128),
            forall|s: Seq<bool>| #[trigger]
                final(self).cut(s) == old(self).cut(s) - d * (inside(
                    s,
                    start_of(old(self).to@, eid as int),
                ) - inside(s, old(self).to@[eid as int])),
    {
        let ghost cap0 = self.cap@;
        let ghost to = self.to@;
        let rev: usize = if eid % 2 == 0 {
            eid + 1
        } else {
            eid - 1
        };
        proof {
            assert(rev == mate(eid as int));
            assert(cap0[eid as int] + cap0[mate(eid as int)] <= i128::MAX);
            assert(0 <= cap0[rev as int]);
        }
        let a: i128 = self.cap[eid];
        self.cap.set(eid, a - d);
        let b: i128 = self.cap[rev];
        self.cap.set(rev, b + d);
        proof {
            assert forall|e: int| 0 <= e < to.len() implies 0 <= #[trigger] self.cap@[e]
                && self.cap@[e] + self.cap@[mate(e)] <= i128::MAX by {
                assert(cap0[e] + cap0[mate(e)] <= i128::MAX);
                assert(mate(mate(e)) == e);
                assert(0 <= mate(e) < to.len());
                assert(0 <= cap0[mate(e)]);
            }
            assert forall|s: Seq<bool>| #[trigger]
                self.cut(s) == old(self).cut(s) - d * (inside(s, start_of(to, eid as int))
                    - inside(s, to[eid as int])) by {
                lemma_push(to, cap0, self.cap@, eid as int, d, s);
            }
        }
    }

    /// Push up to `pushed` units from `u` to `t` along admissible arcs.
    #[verifier::rlimit(60)]
    pub fn dfs(
        &mut self,
        u: usize,
        t: usize,
        pushed: i128,
        level: &Vec<usize>,
        iter: &mut Vec<usize>,
    ) -> (r: i128)
        requires
            old(self).wf(),
            old(self).n < NONE,
            u < old(self).n,
            t < old(self).n,
            pushed > 0,
            levels_below(level@, old(self).n as nat),
            level@[u as int] < old(self).n,
            arcs_ok(old(self).to@, old(self).n as nat, old(iter)@),
            dead_ends(old(self).to@, old(self).cap@, level@, old(iter)@, t),
        ensures
            final(self).wf(),
            final(self).n == old(self).n,
            final(self).to == old(self).to,
            final(self).head == old(self).head,
            final(self).next == old(self).next,
            same_pairs(old(self).cap@, final(self).cap@),
            changed_above(
                old(self).to@,
                level@,
                level@[u as int] as int,
                old(self).cap@,
                final(self).cap@,
            ),
            0 <= r <= pushed,
            forall|s: Seq<bool>| #[trigger]
                final(self).cut(s) == old(self).cut(s) - r * (inside(s, u) - inside(s, t)),
            r == 0 ==> final(self).cap@ == old(self).cap@ && u != t && final(iter)@[u as int]
                == NONE,
            arcs_ok(final(self).to@, final(self).n as nat, final(iter)@),
            dead_ends(final(self).to@, final(self).cap@, level@, final(iter)@, t),
            forall|w: int|
                0 <= w < old(self).n && #[trigger] old(iter)@[w] == NONE ==> final(iter)@[w]
                    == NONE,
            forall|w: int|
                0 <= w < old(self).n && level@[w] < level@[u as int] ==> #[trigger] final(iter)@[w]
                    == old(iter)@[w],
        decreases old(self).n - level@[u as int],
    {
        let ghost to = self.to@;
        let ghost cap0 = self.cap@;
        let ghost iter0 = iter@;
        let ghost me = *self;
        let ghost n = self.n as nat;
        if u == t {
            assert forall|s: Seq<bool>| #[trigger] self.cut(s) == old(self).cut(s) - pushed * (
            inside(s, u) - inside(s, t)) by {
                assert(pushed * 0 == 0);
            }
            return pushed;
        }
        while iter[u] != NONE
            invariant
                self.wf(),
                self.n == me.n,
                self.to == me.to,
                self.head == me.head,
                self.next == me.next,
                self.cap@ == cap0,
                me == *old(self),
                iter0 == old(iter)@,
                me.n < NONE,
                n == me.n,
                to == me.to@,
                cap0 == me.cap@,
                u < n,
                t < n,
                u != t,
                pushed > 0,
                iter0.len() == n,
                levels_below(level@, n),
                level@[u as int] < n,
                arcs_ok(to, n, iter@),
                dead_ends(to, cap0, level@, iter@, t),
                forall|w: int|
                    0 <= w < n && #[trigger] iter0[w] == NONE ==> iter@[w] == NONE,
                forall|w: int|
                    0 <= w < n && level@[w] < level@[u as int] ==> #[trigger] iter@[w] == iter0[w],
            ensures
                self.wf(),
                self.n == me.n,
                self.to == me.to,
                self.head == me.head,
                self.next == me.next,
                self.cap@ == cap0,
                iter@[u as int] == NONE,
                arcs_ok(to, n, iter@),
                dead_ends(to, cap0, level@, iter@, t),
                forall|w: int|
                    0 <= w < n && #[trigger] iter0[w] == NONE ==> iter@[w] == NONE,
                forall|w: int|
                    0 <= w < n && level@[w] < level@[u as int] ==> #[trigger] iter@[w] == iter0[w],
            decreases
                    (if iter@[u as int] == NONE {
                        0int
                    } else {
                        iter@[u as int] + 1
                    }),
        {
            let eid: usize = iter[u];
            let v: usize = self.to[eid];
            let c: i128 = self.cap[eid];
            let ghost iter1 = iter@;
            assert(start_of(to, eid as int) == u);
            if c > 0 && level[v] != NONE && level[v] == level[u] + 1 {
                let want: i128 = if pushed < c {
                    pushed
                } else {
                    c
                };
                let d: i128 = self.dfs(v, t, want, level, iter);
                let ghost sub = *self;
                let ghost cap1 = self.cap@;
                let ghost iter2 = iter@;
                assert(iter2[u as int] == iter1[u as int]);
                if d > 0 {
                    proof {
                        lemma_arc_kept(to, level@, cap0, cap1, eid as int);
                    }
                    self.push(eid, d);
                    proof {
                        lemma_dfs_push(to, n, cap0, cap1, self.cap@, eid as int, d, level@, iter@, t);
                        assert forall|s: Seq<bool>| #[trigger]
                            self.cut(s) == me.cut(s) - d * (inside(s, u) - inside(s, t)) by {
                            assert(sub.cut(s) == me.cut(s) - d * (inside(s, v) - inside(s, t)));
                            let iu = inside(s, u);
                            let iv = inside(s, v);
                            let it = inside(s, t);
                            assert(d * (iv - it) + d * (iu - iv) == d * (iu - it))
                                by (nonlinear_arith);
                        }
                    }
                    return d;
                }
            } else {
                assert(!admissible(to, cap0, level@, eid as int));
            }
            let ghost iter3 = iter@;
            let nx: usize = self.next[eid];
            iter.set(u, nx);
            proof {
                lemma_advance(to, n, cap0, level@, iter3, iter@, u, eid as int, nx, t);
            }
        }
        assert forall|s: Seq<bool>| #[trigger] self.cut(s) == old(self).cut(s) - 0 * (inside(s, u)
            - inside(s, t)) by {
            assert(0 * (inside(s, u) - inside(s, t)) == 0);
        }
        0
    }

    /// Push flow from `s` to `t` until no more can be pushed. Every cut loses
    /// the same capacity.
    pub fn max_flow(&mut self, s: usize, t: usize)
        requires
            old(self).wf(),
            old(self).n < NONE,
            s < old(self).n,
            t < old(self).n,
            s != t,
        ensures
            final(self).wf(),
            final(self).n == old(self).n,
            final(self).to == old(self).to,
            exists|flow: int| #[trigger] pushed_through(*old(self), *final(self), s, t, flow),
            exists|level: Seq<usize>| #[trigger]
                is_levels(final(self).to@, final(self).cap@, final(self).n as nat, s, level)
                    && level[t as int] == NONE,
    {
        let n: usize = self.n;
        let mut level: Vec<usize> = Vec::new();
        while level.len() < n
            invariant
                level@.len() <= n,
            decreases n - level@.len(),
        {
            level.push(NONE);
        }
        let ghost mut flow: int = 0;
        let ghost probe = Seq::new(n as nat, |v: int| v == s);
        let ghost me = *self;
        assert(pushed_through(me, *self, s, t, 0));
        let mut more: bool = self.bfs(s, t, &mut level);
        while more
            invariant
                self.wf(),
                n < NONE,
                self.n == n,
                self.to == me.to,
                me.n == n,
                s < n,
                t < n,
                s != t,
                level@.len() == n,
                probe == Seq::new(n as nat, |v: int| v == s),
                pushed_through(me, *self, s, t, flow),
                is_levels(self.to@, self.cap@, n as nat, s, level@),
                more == (level@[t as int] != NONE),
            decreases self.cut(probe),
        {
            let mut iter = self.head.clone();
            let ghost start = *self;
            proof {
                let to = self.to@;
                assert(arcs_ok(to, n as nat, iter@)) by {
                    assert forall|w: int| 0 <= w < n && #[trigger] iter@[w] != NONE implies iter@[w]
                        < to.len() && start_of(to, iter@[w] as int) == w by {
                        lemma_last_arc(to, w as usize, to.len());
                        assert(self.head@[w] == iter@[w]);
                    }
                }
                assert(dead_ends(to, self.cap@, level@, iter@, t)) by {
                    assert forall|e: int|
                        0 <= e < to.len() && #[trigger] passed(to, iter@, e) && admissible(
                            to,
                            self.cap@,
                            level@,
                            e,
                        ) implies iter@[to[e] as int] == NONE && to[e] != t by {
                        let w = start_of(to, e);
                        assert(0 <= mate(e) < to.len());
                        assert(to[mate(e)] < n);
                        lemma_last_arc(to, w, to.len());
                        assert(self.head@[w as int] == iter@[w as int]);
                        assert(false);
                    }
                }
            }
            let mut f: i128 = self.dfs(s, t, i128::MAX, &level, &mut iter);
            proof {
                if f == 0 {
                    lemma_no_progress(self.to@, self.cap@, n as nat, s, t, level@, iter@);
                }
                flow = flow + f;
                lemma_more_pushed(me, start, *self, s, t, flow - f, f as int);
                lemma_probe(start, *self, n as nat, s, t, f as int, probe);
            }
            while f > 0
                invariant
                    self.wf(),
                    n < NONE,
                    self.n == n,
                    self.to == me.to,
                    me.n == n,
                    s < n,
                    t < n,
                    s != t,
                    level@.len() == n,
                    level@[s as int] == 0,
                    levels_below(level@, n as nat),
                    probe == Seq::new(n as nat, |v: int| v == s),
                    pushed_through(me, *self, s, t, flow),
                    arcs_ok(self.to@, n as nat, iter@),
                    dead_ends(self.to@, self.cap@, level@, iter@, t),
                    0 <= f,
                    0 <= self.cut(probe) < start.cut(probe),
                decreases
                        self.cut(probe) + (if f > 0 {
                            1int
                        } else {
                            0int
                        }),
            {
                let ghost before = *self;
                f = self.dfs(s, t, i128::MAX, &level, &mut iter);
                proof {
                    flow = flow + f;
                    lemma_more_pushed(me, before, *self, s, t, flow - f, f as int);
                    lemma_probe(before, *self, n as nat, s, t, f as int, probe);
                }
            }
            more = self.bfs(s, t, &mut level);
        }
        assert(is_levels(self.to@, self.cap@, n as nat, s, level@));
    }
}

/// `b` is `a` with `flow` units pushed from `s` to `t`: every cut has lost them.
pub open spec fn pushed_through(a: Dinic, b: Dinic, s: usize, t: usize, flow: int) -> bool {
    forall|c: Seq<bool>| c[s as int] && !c[t as int] ==> #[trigger] b.cut(c) == a.cut(c) - flow
}

proof fn lemma_more_pushed(a: Dinic, b: Dinic, c: Dinic, s: usize, t: usize, f: int, d: int)
    requires
        pushed_through(a, b, s, t, f),
        forall|k: Seq<bool>| #[trigger]
            c.cut(k) == b.cut(k) - d * (inside(k, s) - inside(k, t)),
    ensures
        pushed_through(a, c, s, t, f + d),
{
    assert forall|k: Seq<bool>| k[s as int] && !k[t as int] implies #[trigger] c.cut(k) == a.cut(k)
        - (f + d) by {
        assert(b.cut(k) == a.cut(k) - f);
        assert(d * 1 == d);
    }
}

proof fn lemma_probe(
    a: Dinic,
    b: Dinic,
    n: nat,
    s: usize,
    t: usize,
    d: int,
    probe: Seq<bool>,
)
    requires
        probe == Seq::new(n, |v: int| v == s),
        s < n,
        t < n,
        s != t,
        b.wf(),
        forall|k: Seq<bool>| #[trigger]
            b.cut(k) == a.cut(k) - d * (inside(k, s) - inside(k, t)),
    ensures
        b.cut(probe) == a.cut(probe) - d,
        0 <= b.cut(probe),
{
    assert(d * 1 == d);
    lemma_leaving_nonneg(b.to@, b.cap@, probe, b.m());
}

/// While the sink has a level, a search that changed nothing cannot have used up
/// the source.
proof fn lemma_no_progress(
    to: Seq<usize>,
    cap: Seq<i128>,
    n: nat,
    s: usize,
    t: usize,
    level: Seq<usize>,
    iter: Seq<usize>,
)
    requires
        is_levels(to, cap, n, s, level),
        s < n,
        t < n,
        s != t,
        to.len() == cap.len(),
        to.len() % 2 == 0,
        forall|e: int| 0 <= e < to.len() ==> (#[trigger] to[e]) < n,
        level[t as int] != NONE,
        dead_ends(to, cap, level, iter, t),
    ensures
        iter[s as int] != NONE,
{
    assert(alive(iter, t, t as int));
    lemma_alive_at(to, cap, n, s, t, level, iter, level[t as int] as nat, t as int);
}

spec fn alive(iter: Seq<usize>, t: usize, w: int) -> bool {
    iter[w] != NONE || w == t
}

proof fn lemma_alive_at(
    to: Seq<usize>,
    cap: Seq<i128>,
    n: nat,
    s: usize,
    t: usize,
    level: Seq<usize>,
    iter: Seq<usize>,
    k: nat,
    w: int,
)
    requires
        is_levels(to, cap, n, s, level),
        s < n,
        t < n,
        s != t,
        to.len() == cap.len(),
        to.len() % 2 == 0,
        forall|e: int| 0 <= e < to.len() ==> (#[trigger] to[e]) < n,
        dead_ends(to, cap, level, iter, t),
        0 <= w < n,
        level[w] == k,
        level[w] != NONE,
        alive(iter, t, w),
    ensures
        iter[s as int] != NONE,
    decreases k,
{
    if k == 0 {
        assert(w == s);
    } else {
        assert(has_parent(to, cap, level, w));
        let e = choose|e: int|
            0 <= e < to.len() && #[trigger] cap[e] > 0 && to[e] == w && level[start_of(
                to,
                e,
            ) as int] + 1 == level[w] && level[start_of(to, e) as int] != NONE;
        let p = start_of(to, e);
        assert(0 <= mate(e) < to.len());
        assert(to[mate(e)] < n);
        if iter[p as int] == NONE {
            assert(passed(to, iter, e));
            assert(admissible(to, cap, level, e));
        } else {
            lemma_alive_at(to, cap, n, s, t, level, iter, (k - 1) as nat, p as int);
        }
    }
}

} // verus!
