//! Orbits of variables under permutations and flips.

use crate::reach;
use crate::sets;
use crate::text;
use crate::unionfind::UnionFind;
use crate::unionfind;
use vstd::prelude::*;

verus! {

/// What is wrong with the images of `p` from `src` on.
pub open spec fn image_fault(n: nat, index: nat, p: Seq<usize>, src: nat) -> Option<Seq<char>>
    decreases n - src,
{
    if src >= n {
        None
    } else if p[src as int] >= n {
        Some(
            "permutation "@ + text::decimal(index) + " maps variable "@ + text::decimal(src)
                + " to out-of-range index "@ + text::decimal(p[src as int] as nat),
        )
    } else if p.take(src as int).contains(p[src as int]) {
        Some(
            "permutation "@ + text::decimal(index) + " is not bijective: image "@ + text::decimal(
                p[src as int] as nat,
            ) + " appears multiple times"@,
        )
    } else {
        image_fault(n, index, p, src + 1)
    }
}

/// What is wrong with permutation number `index`.
pub open spec fn permutation_fault(n: nat, index: nat, p: Seq<usize>) -> Option<Seq<char>> {
    if p.len() != n {
        Some(
            "permutation "@ + text::decimal(index) + " has length "@ + text::decimal(p.len()) + ", expected "@
                + text::decimal(n),
        )
    } else {
        image_fault(n, index, p, 0)
    }
}

/// Some permutation maps one of the variables to the other.
pub open spec fn permuted(perms: Seq<Vec<usize>>) -> spec_fn(usize, usize) -> bool {
    |u: usize, v: usize| exists|q: int| 0 <= q < perms.len() && #[trigger] maps(perms[q]@, u, v)
}

/// The permutation maps one of the variables to the other.
pub open spec fn maps(p: Seq<usize>, u: usize, v: usize) -> bool {
    (u < p.len() && p[u as int] == v) || (v < p.len() && p[v as int] == u)
}

/// The orbits of the variables under the permutations, or the first fault.
pub fn variable_orbits_from_permutations(n_vars: usize, permutations: &Vec<Vec<usize>>) -> (r:
    Result<Vec<Vec<usize>>, String>)
    ensures
        r is Ok <==> forall|q: int|
            0 <= q < permutations@.len() ==> permutation_fault(
                n_vars as nat,
                q as nat,
                (#[trigger] permutations@[q])@,
            ) is None,
        r matches Ok(orbits) ==> reach::is_partition_by(
            n_vars as nat,
            |u: usize, v: usize| reach::connected(permuted(permutations@), u, v),
            orbits@,
        ),
        r matches Err(message) ==> exists|q: int|
            0 <= q < permutations@.len() && permutation_fault(
                n_vars as nat,
                q as nat,
                (#[trigger] permutations@[q])@,
            ) == Some(message@) && (forall|i: int|
                0 <= i < q ==> permutation_fault(
                    n_vars as nat,
                    i as nat,
                    (#[trigger] permutations@[i])@,
                ) is None),
{
    let ghost n = n_vars as nat;
    let ghost perms = permutations@;
    let ghost link = permuted(perms);
    let mut uf = UnionFind::new(n_vars);
    let mut q: usize = 0;
    proof {
        assert(reach::symmetric(link)) by {
            assert forall|u: usize, v: usize| #[trigger] link(u, v) implies link(v, u) by {
                let q = choose|q: int| 0 <= q < perms.len() && #[trigger] maps(perms[q]@, u, v);
                assert(maps(perms[q]@, v, u));
            }
        }
        assert forall|u: usize, v: usize| #[trigger] uf.same(u, v) implies reach::connected(
            link,
            u,
            v,
        ) by {
            reach::lemma_connected_self(link, u);
        }
    }
    while q < permutations.len()
        invariant
            q <= perms.len(),
            n == n_vars,
            perms == permutations@,
            link == permuted(perms),
            reach::symmetric(link),
            uf.wf(),
            uf.n() == n,
            forall|i: int|
                0 <= i < q ==> permutation_fault(n, i as nat, (#[trigger] perms[i])@) is None,
            forall|i: int, u: usize|
                0 <= i < q && u < n ==> uf.same(u, #[trigger] perms[i]@[u as int]),
            forall|u: usize, v: usize| #[trigger] uf.same(u, v) ==> reach::connected(link, u, v),
        decreases perms.len() - q,
    {
        let p = &permutations[q];
        let ghost pp = perms[q as int]@;
        if p.len() != n_vars {
            let mut s = String::new();
            s.push_str("permutation ");
            text::push_decimal(&mut s, q as u64);
            s.push_str(" has length ");
            text::push_decimal(&mut s, p.len() as u64);
            s.push_str(", expected ");
            text::push_decimal(&mut s, n_vars as u64);
            assert(permutation_fault(n, q as nat, perms[q as int]@) == Some(s@));
            return Err(s);
        }
        let ghost before = uf;
        let mut seen: Vec<bool> = Vec::new();
        while seen.len() < n_vars
            invariant
                seen@.len() <= n_vars,
                forall|v: int| 0 <= v < seen@.len() ==> !#[trigger] seen@[v],
            decreases n_vars - seen@.len(),
        {
            seen.push(false);
        }
        let mut src: usize = 0;
        assert(pp.take(0) =~= Seq::empty());
        while src < n_vars
            invariant
                src <= n_vars,
                q < perms.len(),
                n == n_vars,
                perms == permutations@,
                pp == perms[q as int]@,
                p@ == pp,
                pp.len() == n,
                link == permuted(perms),
                reach::symmetric(link),
                uf.wf(),
                uf.n() == n,
                seen@.len() == n,
                forall|v: int|
                    0 <= v < n ==> #[trigger] seen@[v] == pp.take(src as int).contains(v as usize),
                image_fault(n, q as nat, pp, 0) == image_fault(n, q as nat, pp, src as nat),
                forall|u: usize, v: usize| #[trigger] before.same(u, v) ==> uf.same(u, v),
                forall|u: usize| u < src ==> uf.same(u, #[trigger] pp[u as int]),
                forall|u: usize, v: usize| #[trigger] uf.same(u, v) ==> reach::connected(link, u, v),
                forall|i: int|
                    0 <= i < q ==> permutation_fault(n, i as nat, (#[trigger] perms[i])@) is None,
            decreases n_vars - src,
        {
            let dst: usize = p[src];
            if dst >= n_vars {
                let mut s = String::new();
                s.push_str("permutation ");
                text::push_decimal(&mut s, q as u64);
                s.push_str(" maps variable ");
                text::push_decimal(&mut s, src as u64);
                s.push_str(" to out-of-range index ");
                text::push_decimal(&mut s, dst as u64);
                assert(permutation_fault(n, q as nat, perms[q as int]@) == Some(s@));
                return Err(s);
            }
            assert(seen@[dst as int] == pp.take(src as int).contains(dst));
            if seen[dst] {
                let mut s = String::new();
                s.push_str("permutation ");
                text::push_decimal(&mut s, q as u64);
                s.push_str(" is not bijective: image ");
                text::push_decimal(&mut s, dst as u64);
                s.push_str(" appears multiple times");
                assert(permutation_fault(n, q as nat, perms[q as int]@) == Some(s@));
                return Err(s);
            }
            let ghost uf0 = uf;
            seen.set(dst, true);
            let joined: bool = uf.union(src, dst);
            proof {
                sets::lemma_contains_take(pp, src as int);
                assert(link(src, dst)) by {
                    assert(maps(perms[q as int]@, src, dst));
                }
                reach::lemma_union_connected(link, uf0, uf, src, dst);
                assert forall|u: usize| u < src + 1 implies uf.same(u, #[trigger] pp[u as int]) by {
                    if u < src {
                        assert(uf0.same(u, pp[u as int]));
                    } else {
                        assert(uf0.same(src, src));
                        assert(uf0.same(dst, dst));
                    }
                }
            }
            src += 1;
        }
        proof {
            assert forall|i: int, u: usize| 0 <= i < q + 1 && u < n implies uf.same(
                u,
                #[trigger] perms[i]@[u as int],
            ) by {
                if i < q {
                    assert(before.same(u, perms[i]@[u as int]));
                } else {
                    assert(uf.same(u, pp[u as int]));
                }
            }
        }
        q += 1;
    }
    let orbits = reach::group_classes(&uf);
    proof {
        assert forall|u: usize, v: usize| #[trigger] link(u, v) implies uf.same(u, v) by {
            let q = choose|q: int| 0 <= q < perms.len() && #[trigger] maps(perms[q]@, u, v);
            assert(permutation_fault(n, q as nat, perms[q]@) is None);
            assert(perms[q]@.len() == n);
            if u < n && perms[q]@[u as int] == v {
                assert(uf.same(u, perms[q]@[u as int]));
            } else {
                assert(uf.same(v, perms[q]@[v as int]));
            }
        }
        reach::lemma_classes_connected(link, uf);
        lemma_partition_same(
            n,
            |u: usize, v: usize| uf.same(u, v),
            |u: usize, v: usize| reach::connected(link, u, v),
            orbits@,
        );
    }
    Ok(orbits)
}

/// Equal relations have the same classes.
proof fn lemma_partition_same(
    n: nat,
    a: spec_fn(usize, usize) -> bool,
    b: spec_fn(usize, usize) -> bool,
    groups: Seq<Vec<usize>>,
)
    requires
        reach::is_partition_by(n, a, groups),
        forall|u: usize, v: usize| u < n && v < n ==> #[trigger] a(u, v) == b(u, v),
    ensures
        reach::is_partition_by(n, b, groups),
{
    assert forall|c: int, u: usize, v: usize|
        0 <= c < groups.len() && #[trigger] groups[c]@.contains(u) && v < n implies (
    #[trigger] groups[c]@.contains(v)) == b(u, v) by {
        assert(groups[c]@.contains(v) == a(u, v));
    }
}

/// The links between signed variables: both signs follow a permutation orbit,
/// and a flip set joins the two signs of its members. Sign `2 v` stands for
/// variable `v`, sign `2 v + 1` for its negation.
pub open spec fn mixed_links(kernel: Seq<Vec<usize>>, orbits: Seq<Vec<usize>>) -> spec_fn(
    usize,
    usize,
) -> bool {
    |a: usize, b: usize|
        joins_flip(kernel, a, b) || joins_flip(kernel, b, a) || joins_orbit(orbits, a, b)
            || joins_orbit(orbits, b, a)
}

/// `a` and `b` are the two signs of a member of a flip set.
pub open spec fn joins_flip(kernel: Seq<Vec<usize>>, a: usize, b: usize) -> bool {
    exists|k: int, j: int|
        0 <= k < kernel.len() && 0 <= j < kernel[k]@.len() && a == 2 * #[trigger] kernel[k]@[j] && b
            == 2 * kernel[k]@[j] + 1
}

/// `a` and `b` are equal signs of the first and another member of an orbit.
pub open spec fn joins_orbit(orbits: Seq<Vec<usize>>, a: usize, b: usize) -> bool {
    exists|k: int, j: int|
        0 <= k < orbits.len() && 1 <= j < orbits[k]@.len() && ((a == 2 * orbits[k]@[0] && b == 2
            * #[trigger] orbits[k]@[j]) || (a == 2 * orbits[k]@[0] + 1 && b == 2 * orbits[k]@[j]
            + 1))
}

/// The lists name variables below `n`.
pub open spec fn lists_below(lists: Seq<Vec<usize>>, n: nat) -> bool {
    forall|k: int, j: int|
        0 <= k < lists.len() && 0 <= j < lists[k]@.len() ==> #[trigger] lists[k]@[j] < n
}

/// The orbits of the signed variables under permutation orbits and flip sets.
pub fn mixed_orbits(n_vars: usize, kernel: &Vec<Vec<usize>>, orbits: &Vec<Vec<usize>>) -> (r: Vec<
    Vec<usize>,
>)
    requires
        2 * n_vars <= usize::MAX,
        lists_below(kernel@, n_vars as nat),
        lists_below(orbits@, n_vars as nat),
    ensures
        reach::is_partition_by(
            2 * n_vars as nat,
            |a: usize, b: usize| reach::connected(mixed_links(kernel@, orbits@), a, b),
            r@,
        ),
{
    let ghost ks = kernel@;
    let ghost os = orbits@;
    let ghost link = mixed_links(ks, os);
    let mut uf = UnionFind::new(2 * n_vars);
    let ghost n2 = 2 * n_vars as nat;
    proof {
        assert(reach::symmetric(link));
        assert forall|u: usize, v: usize| #[trigger] uf.same(u, v) implies reach::connected(
            link,
            u,
            v,
        ) by {
            reach::lemma_connected_self(link, u);
        }
    }
    let mut k: usize = 0;
    while k < orbits.len()
        invariant
            k <= os.len(),
            ks == kernel@,
            os == orbits@,
            link == mixed_links(ks, os),
            reach::symmetric(link),
            2 * n_vars <= usize::MAX,
            n2 == 2 * n_vars,
            lists_below(os, n_vars as nat),
            uf.wf(),
            uf.n() == n2,
            forall|a: int, j: int| 0 <= a < k && 1 <= j < os[a]@.len() ==> orbit_joined(uf, #[trigger] os[a]@[j], os[a]@[0]),
            forall|u: usize, v: usize| #[trigger] uf.same(u, v) ==> reach::connected(link, u, v),
        decreases os.len() - k,
    {
        let ghost before = uf;
        let ghost o = os[k as int]@;
        let mut i: usize = 1;
        while i < orbits[k].len()
            invariant
                k < os.len(),
                1 <= i,
                i <= o.len() || o.len() == 0,
                ks == kernel@,
                os == orbits@,
                o == os[k as int]@,
                link == mixed_links(ks, os),
                reach::symmetric(link),
                2 * n_vars <= usize::MAX,
                n2 == 2 * n_vars,
                lists_below(os, n_vars as nat),
                uf.wf(),
                uf.n() == n2,
                forall|u: usize, v: usize| #[trigger] before.same(u, v) ==> uf.same(u, v),
                forall|j: int| 1 <= j < i && j < o.len() ==> orbit_joined(uf, #[trigger] o[j], o[0]),
                forall|u: usize, v: usize| #[trigger] uf.same(u, v) ==> reach::connected(link, u, v),
            decreases orbits@[k as int]@.len() - i,
        {
            let head: usize = orbits[k][0];
            let v: usize = orbits[k][i];
            assert(os[k as int]@[0] < n_vars);
            assert(os[k as int]@[i as int] < n_vars);
            let ghost uf0 = uf;
            let joined: bool = uf.union(2 * head, 2 * v);
            let ghost uf1 = uf;
            proof {
                assert(joins_orbit(os, (2 * head) as usize, (2 * v) as usize)) by {
                    assert(os[k as int]@[i as int] == v);
                }
                reach::lemma_union_connected(link, uf0, uf1, (2 * head) as usize, (2 * v) as usize);
            }
            let joined: bool = uf.union(2 * head + 1, 2 * v + 1);
            proof {
                assert(joins_orbit(os, (2 * head + 1) as usize, (2 * v + 1) as usize)) by {
                    assert(os[k as int]@[i as int] == v);
                }
                reach::lemma_union_connected(
                    link,
                    uf1,
                    uf,
                    (2 * head + 1) as usize,
                    (2 * v + 1) as usize,
                );
                assert forall|a: usize, b: usize| uf0.same(a, b) implies #[trigger] uf.same(a, b) by {
                    assert(uf1.same(a, b));
                }
                assert forall|j: int| 1 <= j < i + 1 && j < o.len() implies orbit_joined(
                    uf,
                    #[trigger] o[j],
                    o[0],
                ) by {
                    if j < i {
                        assert(orbit_joined(uf0, o[j], o[0]));
                        assert(uf0.same((2 * o[0]) as usize, (2 * o[j]) as usize));
                        assert(uf0.same((2 * o[0] + 1) as usize, (2 * o[j] + 1) as usize));
                    } else {
                        assert(uf0.same((2 * head) as usize, (2 * head) as usize));
                        assert(uf0.same((2 * v) as usize, (2 * v) as usize));
                        assert(uf1.same((2 * head) as usize, (2 * v) as usize));
                        assert(uf1.same((2 * head + 1) as usize, (2 * head + 1) as usize));
                        assert(uf1.same((2 * v + 1) as usize, (2 * v + 1) as usize));
                    }
                }
            }
            i += 1;
        }
        proof {
            assert forall|a: int, j: int| 0 <= a < k + 1 && 1 <= j < os[a]@.len() implies orbit_joined(
                uf,
                #[trigger] os[a]@[j],
                os[a]@[0],
            ) by {
                if a < k {
                    assert(orbit_joined(before, os[a]@[j], os[a]@[0]));
                    assert(before.same((2 * os[a]@[0]) as usize, (2 * os[a]@[j]) as usize));
                    assert(before.same(
                        (2 * os[a]@[0] + 1) as usize,
                        (2 * os[a]@[j] + 1) as usize,
                    ));
                } else {
                    assert(orbit_joined(uf, o[j], o[0]));
                }
            }
        }
        k += 1;
    }
    let ghost middle = uf;
    let mut k: usize = 0;
    while k < kernel.len()
        invariant
            k <= ks.len(),
            ks == kernel@,
            os == orbits@,
            link == mixed_links(ks, os),
            reach::symmetric(link),
            2 * n_vars <= usize::MAX,
            n2 == 2 * n_vars,
            lists_below(ks, n_vars as nat),
            uf.wf(),
            uf.n() == n2,
            forall|u: usize, v: usize| #[trigger] middle.same(u, v) ==> uf.same(u, v),
            forall|a: int, j: int|
                0 <= a < k && 0 <= j < ks[a]@.len() ==> sign_joined(uf, #[trigger] ks[a]@[j]),
            forall|u: usize, v: usize| #[trigger] uf.same(u, v) ==> reach::connected(link, u, v),
        decreases ks.len() - k,
    {
        let ghost before = uf;
        let ghost o = ks[k as int]@;
        let mut i: usize = 0;
        while i < kernel[k].len()
            invariant
                k < ks.len(),
                i <= o.len(),
                ks == kernel@,
                os == orbits@,
                o == ks[k as int]@,
                link == mixed_links(ks, os),
                reach::symmetric(link),
                2 * n_vars <= usize::MAX,
                n2 == 2 * n_vars,
                lists_below(ks, n_vars as nat),
                uf.wf(),
                uf.n() == n2,
                forall|u: usize, v: usize| #[trigger] before.same(u, v) ==> uf.same(u, v),
                forall|j: int| 0 <= j < i ==> sign_joined(uf, #[trigger] o[j]),
                forall|u: usize, v: usize| #[trigger] uf.same(u, v) ==> reach::connected(link, u, v),
            decreases o.len() - i,
        {
            let v: usize = kernel[k][i];
            assert(ks[k as int]@[i as int] < n_vars);
            let ghost uf0 = uf;
            let joined: bool = uf.union(2 * v, 2 * v + 1);
            proof {
                assert(joins_flip(ks, (2 * v) as usize, (2 * v + 1) as usize)) by {
                    assert(ks[k as int]@[i as int] == v);
                }
                reach::lemma_union_connected(link, uf0, uf, (2 * v) as usize, (2 * v + 1) as usize);
                assert forall|j: int| 0 <= j < i + 1 implies sign_joined(uf, #[trigger] o[j]) by {
                    if j < i {
                        assert(sign_joined(uf0, o[j]));
                        assert(uf0.same((2 * o[j]) as usize, (2 * o[j] + 1) as usize));
                    } else {
                        assert(uf0.same((2 * v) as usize, (2 * v) as usize));
                        assert(uf0.same((2 * v + 1) as usize, (2 * v + 1) as usize));
                    }
                }
            }
            i += 1;
        }
        proof {
            assert forall|a: int, j: int| 0 <= a < k + 1 && 0 <= j < ks[a]@.len() implies sign_joined(
                uf,
                #[trigger] ks[a]@[j],
            ) by {
                if a < k {
                    assert(sign_joined(before, ks[a]@[j]));
                    assert(before.same((2 * ks[a]@[j]) as usize, (2 * ks[a]@[j] + 1) as usize));
                } else {
                    assert(sign_joined(uf, o[j]));
                }
            }
        }
        k += 1;
    }
    let groups = reach::group_classes(&uf);
    proof {
        assert forall|a: usize, b: usize| #[trigger] link(a, b) implies uf.same(a, b) by {
            lemma_joined(ks, os, n_vars as nat, middle, uf, a, b);
            lemma_joined(ks, os, n_vars as nat, middle, uf, b, a);
        }
        reach::lemma_classes_connected(link, uf);
        lemma_partition_same(
            n2,
            |u: usize, v: usize| uf.same(u, v),
            |u: usize, v: usize| reach::connected(link, u, v),
            groups@,
        );
    }
    groups
}

/// Equal signs of two variables are in one class.
spec fn orbit_joined(uf: UnionFind, v: usize, head: usize) -> bool {
    uf.same((2 * head) as usize, (2 * v) as usize) && uf.same(
        (2 * head + 1) as usize,
        (2 * v + 1) as usize,
    )
}

/// The two signs of a variable are in one class.
spec fn sign_joined(uf: UnionFind, v: usize) -> bool {
    uf.same((2 * v) as usize, (2 * v + 1) as usize)
}

proof fn lemma_joined(
    ks: Seq<Vec<usize>>,
    os: Seq<Vec<usize>>,
    n: nat,
    middle: UnionFind,
    uf: UnionFind,
    a: usize,
    b: usize,
)
    requires
        2 * n <= usize::MAX,
        lists_below(ks, n),
        lists_below(os, n),
        forall|i: int, j: int|
            0 <= i < os.len() && 1 <= j < os[i]@.len() ==> orbit_joined(
                middle,
                #[trigger] os[i]@[j],
                os[i]@[0],
            ),
        forall|i: int, j: int|
            0 <= i < ks.len() && 0 <= j < ks[i]@.len() ==> sign_joined(uf, #[trigger] ks[i]@[j]),
        forall|u: usize, v: usize| #[trigger] middle.same(u, v) ==> uf.same(u, v),
    ensures
        joins_flip(ks, a, b) || joins_orbit(os, a, b) ==> uf.same(a, b) && uf.same(b, a),
{
    if joins_flip(ks, a, b) {
        let (k, j) = choose|k: int, j: int|
            0 <= k < ks.len() && 0 <= j < ks[k]@.len() && a == 2 * #[trigger] ks[k]@[j] && b == 2
                * ks[k]@[j] + 1;
        assert(sign_joined(uf, ks[k]@[j]));
    }
    if joins_orbit(os, a, b) {
        let (k, j) = choose|k: int, j: int|
            0 <= k < os.len() && 1 <= j < os[k]@.len() && ((a == 2 * os[k]@[0] && b == 2
                * #[trigger] os[k]@[j]) || (a == 2 * os[k]@[0] + 1 && b == 2 * os[k]@[j] + 1));
        assert(orbit_joined(middle, os[k]@[j], os[k]@[0]));
        assert(middle.same(a, b));
        assert(uf.same(a, b));
    }
}

} // verus!
