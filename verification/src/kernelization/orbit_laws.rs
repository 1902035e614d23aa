//! Orbits, parts and flip sets: neither too coarse nor too fine.

use crate::domain::{VarDomain, VarType};
use crate::instance::HuboInstance;
use crate::kernelization::components;
use crate::kernelization::f2;
use crate::kernelization::orbits;
use crate::kernelization::sflip;
use crate::kernelization::split::ComponentSplit;
use crate::kernelization::split;
use crate::kernelization::symmetry_laws;
use crate::parity;
use crate::reach;
use crate::term::Term;
use crate::term;
use vstd::prelude::*;

verus! {

/// A property that links keep is kept along connections.
proof fn lemma_kept(
    link: spec_fn(usize, usize) -> bool,
    s: spec_fn(usize) -> bool,
    path: Seq<usize>,
)
    requires
        reach::is_path(link, path),
        forall|u: usize, v: usize| #[trigger] link(u, v) ==> s(u) == s(v),
    ensures
        s(path[0]) == s(path.last()),
    decreases path.len(),
{
    if path.len() > 1 {
        let p = path.drop_last();
        assert forall|i: int| 0 <= i < p.len() - 1 implies link(#[trigger] p[i], p[i + 1]) by {
            assert(link(path[i], path[i + 1]));
        }
        lemma_kept(link, s, p);
        assert(link(path[path.len() - 2], path[path.len() - 2 + 1]));
    }
}

proof fn lemma_connected_keeps(
    link: spec_fn(usize, usize) -> bool,
    s: spec_fn(usize) -> bool,
    u: usize,
    v: usize,
)
    requires
        reach::connected(link, u, v),
        forall|a: usize, b: usize| #[trigger] link(a, b) ==> s(a) == s(b),
    ensures
        s(u) == s(v),
{
    let p = choose|p: Seq<usize>| #[trigger] reach::leads(link, p, u, v);
    lemma_kept(link, s, p);
}

proof fn lemma_no_fault(n: nat, index: nat, p: Seq<usize>, src: nat)
    requires
        p.len() == n,
        src <= n,
    ensures
        orbits::image_fault(n, index, p, src) is None <==> forall|i: int|
            src <= i < n ==> (#[trigger] p[i]) < n && !p.take(i).contains(p[i]),
    decreases n - src,
{
    if src < n {
        lemma_no_fault(n, index, p, src + 1);
        if orbits::image_fault(n, index, p, src) is None {
            assert forall|i: int| src <= i < n implies (#[trigger] p[i]) < n && !p.take(i).contains(
                p[i],
            ) by {}
        }
        if forall|i: int| src <= i < n ==> (#[trigger] p[i]) < n && !p.take(i).contains(p[i]) {
            assert(p[src as int] < n && !p.take(src as int).contains(p[src as int]));
        }
    }
}

/// A list is accepted exactly if it is a permutation of the variables.
pub proof fn permutations_are_accepted(n: nat, index: nat, p: Seq<usize>)
    ensures
        orbits::permutation_fault(n, index, p) is None <==> symmetry_laws::is_permutation(p, n),
{
    if p.len() == n {
        lemma_no_fault(n, index, p, 0);
        if symmetry_laws::is_permutation(p, n) {
            assert forall|i: int| 0 <= i < n implies (#[trigger] p[i]) < n && !p.take(i).contains(
                p[i],
            ) by {
                if p.take(i).contains(p[i]) {
                    let j = p.take(i).index_of(p[i]);
                    assert(p[j] == p[i]);
                }
            }
        }
        if forall|i: int| 0 <= i < n ==> (#[trigger] p[i]) < n && !p.take(i).contains(p[i]) {
            assert forall|i: int, j: int| 0 <= i < j < n implies p[i] != p[j] by {
                assert(!p.take(j).contains(p[j]));
                assert(p.take(j)[i] == p[i]);
            }
        }
    }
}

/// The orbits of permutations: every variable is in one with each of its images, and
/// any property that all the permutations keep is shared by the members of an orbit.
pub proof fn orbits_are_closed_and_least(
    n: nat,
    perms: Seq<Vec<usize>>,
    groups: Seq<Vec<usize>>,
    s: spec_fn(usize) -> bool,
)
    requires
        forall|q: int|
            0 <= q < perms.len() ==> symmetry_laws::is_permutation((#[trigger] perms[q])@, n),
        n <= usize::MAX,
        reach::is_partition_by(
            n,
            |u: usize, v: usize| reach::connected(orbits::permuted(perms), u, v),
            groups,
        ),
    ensures
        forall|c: int, q: int, u: usize|
            0 <= c < groups.len() && 0 <= q < perms.len() && #[trigger] groups[c]@.contains(u)
                ==> groups[c]@.contains(#[trigger] perms[q]@[u as int]),
        (forall|q: int, u: usize|
            0 <= q < perms.len() && u < n ==> s(u) == s(#[trigger] perms[q]@[u as int]))
            ==> forall|c: int, u: usize, v: usize|
            0 <= c < groups.len() && #[trigger] groups[c]@.contains(u)
                && #[trigger] groups[c]@.contains(v) ==> s(u) == s(v),
{
    let link = orbits::permuted(perms);
    assert forall|c: int, q: int, u: usize|
        0 <= c < groups.len() && 0 <= q < perms.len() && #[trigger] groups[c]@.contains(
            u,
        ) implies groups[c]@.contains(#[trigger] perms[q]@[u as int]) by {
        let v = perms[q]@[u as int];
        assert(symmetry_laws::is_permutation(perms[q]@, n));
        assert(u < n);
        assert(orbits::maps(perms[q]@, u, v));
        assert(link(u, v));
        reach::lemma_connected_link(link, u, v);
        assert(groups[c]@.contains(v) == reach::connected(link, u, v));
    }
    if forall|q: int, u: usize|
        0 <= q < perms.len() && u < n ==> s(u) == s(#[trigger] perms[q]@[u as int]) {
        assert forall|a: usize, b: usize| #[trigger] link(a, b) implies s(a) == s(b) by {
            let q = choose|q: int| 0 <= q < perms.len() && #[trigger] orbits::maps(perms[q]@, a, b);
            assert(symmetry_laws::is_permutation(perms[q]@, n));
        }
        assert forall|c: int, u: usize, v: usize|
            0 <= c < groups.len() && #[trigger] groups[c]@.contains(u)
                && #[trigger] groups[c]@.contains(v) implies s(u) == s(v) by {
            assert(groups[c]@.contains(v) == reach::connected(link, u, v));
            lemma_connected_keeps(link, s, u, v);
        }
    }
}

/// The orbits of signed variables: the two signs of a variable of a flip set are in
/// one, so are equal signs of two members of an orbit, and any property that both
/// steps keep is shared by all members.
pub proof fn signed_orbits_are_closed_and_least(
    n: nat,
    kernel: Seq<Vec<usize>>,
    parts: Seq<Vec<usize>>,
    groups: Seq<Vec<usize>>,
    s: spec_fn(usize) -> bool,
)
    requires
        2 * n <= usize::MAX,
        orbits::lists_below(kernel, n),
        orbits::lists_below(parts, n),
        reach::is_partition_by(
            2 * n,
            |a: usize, b: usize| reach::connected(orbits::mixed_links(kernel, parts), a, b),
            groups,
        ),
    ensures
        forall|c: int, k: int, j: int|
            0 <= c < groups.len() && 0 <= k < kernel.len() && 0 <= j < kernel[k]@.len() ==> (
            #[trigger] groups[c])@.contains((2 * #[trigger] kernel[k]@[j]) as usize)
                == groups[c]@.contains((2 * kernel[k]@[j] + 1) as usize),
        forall|c: int, k: int, i: int, j: int|
            0 <= c < groups.len() && 0 <= k < parts.len() && 0 <= i < j < parts[k]@.len() ==> ((
            #[trigger] groups[c])@.contains((2 * #[trigger] parts[k]@[i]) as usize)
                == groups[c]@.contains((2 * #[trigger] parts[k]@[j]) as usize))
                && groups[c]@.contains((2 * parts[k]@[i] + 1) as usize) == groups[c]@.contains(
                (2 * parts[k]@[j] + 1) as usize,
            ),
        (forall|k: int, j: int|
            0 <= k < kernel.len() && 0 <= j < kernel[k]@.len() ==> s(
                (2 * #[trigger] kernel[k]@[j]) as usize,
            ) == s((2 * kernel[k]@[j] + 1) as usize)) && (forall|k: int, i: int, j: int|
            0 <= k < parts.len() && 0 <= i < j < parts[k]@.len() ==> s(
                (2 * #[trigger] parts[k]@[i]) as usize,
            ) == s((2 * #[trigger] parts[k]@[j]) as usize) && s((2 * parts[k]@[i] + 1) as usize)
                == s((2 * parts[k]@[j] + 1) as usize)) ==> forall|c: int, u: usize, v: usize|
            0 <= c < groups.len() && #[trigger] groups[c]@.contains(u)
                && #[trigger] groups[c]@.contains(v) ==> s(u) == s(v),
{
    let link = orbits::mixed_links(kernel, parts);
    assert forall|c: int, a: usize, b: usize|
        0 <= c < groups.len() && a < 2 * n && b < 2 * n && #[trigger] link(a, b) implies (
    #[trigger] groups[c])@.contains(a) == groups[c]@.contains(b) by {
        lemma_linked(2 * n, link, groups, c, a, b);
        assert(link(b, a));
        lemma_linked(2 * n, link, groups, c, b, a);
    }
    assert forall|c: int, k: int, j: int|
        0 <= c < groups.len() && 0 <= k < kernel.len() && 0 <= j < kernel[k]@.len() implies (
    #[trigger] groups[c])@.contains((2 * #[trigger] kernel[k]@[j]) as usize)
        == groups[c]@.contains((2 * kernel[k]@[j] + 1) as usize) by {
        let a = (2 * kernel[k]@[j]) as usize;
        let b = (2 * kernel[k]@[j] + 1) as usize;
        assert(kernel[k]@[j] < n);
        assert(orbits::joins_flip(kernel, a, b));
        assert(link(a, b));
    }
    assert forall|c: int, k: int, j: int|
        0 <= c < groups.len() && 0 <= k < parts.len() && 1 <= j < parts[k]@.len() implies ((
    #[trigger] groups[c])@.contains((2 * parts[k]@[0]) as usize) == groups[c]@.contains(
        (2 * #[trigger] parts[k]@[j]) as usize,
    )) && groups[c]@.contains((2 * parts[k]@[0] + 1) as usize) == groups[c]@.contains(
        (2 * parts[k]@[j] + 1) as usize,
    ) by {
        assert(parts[k]@[j] < n && parts[k]@[0] < n);
        let a = (2 * parts[k]@[0]) as usize;
        let b = (2 * parts[k]@[j]) as usize;
        assert(orbits::joins_orbit(parts, a, b));
        assert(link(a, b));
        let a1 = (2 * parts[k]@[0] + 1) as usize;
        let b1 = (2 * parts[k]@[j] + 1) as usize;
        assert(orbits::joins_orbit(parts, a1, b1));
        assert(link(a1, b1));
    }
    assert forall|c: int, k: int, i: int, j: int|
        0 <= c < groups.len() && 0 <= k < parts.len() && 0 <= i < j < parts[k]@.len() implies ((
    #[trigger] groups[c])@.contains((2 * #[trigger] parts[k]@[i]) as usize)
        == groups[c]@.contains((2 * #[trigger] parts[k]@[j]) as usize)) && groups[c]@.contains(
        (2 * parts[k]@[i] + 1) as usize,
    ) == groups[c]@.contains((2 * parts[k]@[j] + 1) as usize) by {
        assert(groups[c]@.contains((2 * parts[k]@[0]) as usize) == groups[c]@.contains(
            (2 * parts[k]@[j]) as usize,
        ));
    }
    if (forall|k: int, j: int|
        0 <= k < kernel.len() && 0 <= j < kernel[k]@.len() ==> s(
            (2 * #[trigger] kernel[k]@[j]) as usize,
        ) == s((2 * kernel[k]@[j] + 1) as usize)) && (forall|k: int, i: int, j: int|
        0 <= k < parts.len() && 0 <= i < j < parts[k]@.len() ==> s(
            (2 * #[trigger] parts[k]@[i]) as usize,
        ) == s((2 * #[trigger] parts[k]@[j]) as usize) && s((2 * parts[k]@[i] + 1) as usize) == s(
            (2 * parts[k]@[j] + 1) as usize,
        )) {
        assert forall|a: usize, b: usize| #[trigger] link(a, b) implies s(a) == s(b) by {
            lemma_signed_link(kernel, parts, s, a, b);
            lemma_signed_link(kernel, parts, s, b, a);
        }
        assert forall|c: int, u: usize, v: usize|
            0 <= c < groups.len() && #[trigger] groups[c]@.contains(u)
                && #[trigger] groups[c]@.contains(v) implies s(u) == s(v) by {
            assert(groups[c]@.contains(v) == reach::connected(link, u, v));
            lemma_connected_keeps(link, s, u, v);
        }
    }
}

proof fn lemma_signed_link(
    kernel: Seq<Vec<usize>>,
    parts: Seq<Vec<usize>>,
    s: spec_fn(usize) -> bool,
    a: usize,
    b: usize,
)
    requires
        forall|k: int, j: int|
            0 <= k < kernel.len() && 0 <= j < kernel[k]@.len() ==> s(
                (2 * #[trigger] kernel[k]@[j]) as usize,
            ) == s((2 * kernel[k]@[j] + 1) as usize),
        forall|k: int, i: int, j: int|
            0 <= k < parts.len() && 0 <= i < j < parts[k]@.len() ==> s(
                (2 * #[trigger] parts[k]@[i]) as usize,
            ) == s((2 * #[trigger] parts[k]@[j]) as usize) && s((2 * parts[k]@[i] + 1) as usize)
                == s((2 * parts[k]@[j] + 1) as usize),
    ensures
        orbits::joins_flip(kernel, a, b) || orbits::joins_orbit(parts, a, b) ==> s(a) == s(b),
{
    if orbits::joins_flip(kernel, a, b) {
        let (k, j) = choose|k: int, j: int|
            0 <= k < kernel.len() && 0 <= j < kernel[k]@.len() && a == 2 * #[trigger] kernel[k]@[j]
                && b == 2 * kernel[k]@[j] + 1;
        assert(s((2 * kernel[k]@[j]) as usize) == s((2 * kernel[k]@[j] + 1) as usize));
    }
    if orbits::joins_orbit(parts, a, b) {
        let (k, j) = choose|k: int, j: int|
            0 <= k < parts.len() && 1 <= j < parts[k]@.len() && ((a == 2 * parts[k]@[0] && b == 2
                * #[trigger] parts[k]@[j]) || (a == 2 * parts[k]@[0] + 1 && b == 2 * parts[k]@[j]
                + 1));
        assert(s((2 * parts[k]@[0]) as usize) == s((2 * parts[k]@[j]) as usize));
    }
}

proof fn lemma_linked(
    n: nat,
    link: spec_fn(usize, usize) -> bool,
    groups: Seq<Vec<usize>>,
    c: int,
    a: usize,
    b: usize,
)
    requires
        reach::is_partition_by(n, |u: usize, v: usize| reach::connected(link, u, v), groups),
        0 <= c < groups.len(),
        a < n,
        b < n,
        link(a, b),
    ensures
        groups[c]@.contains(a) ==> groups[c]@.contains(b),
{
    if groups[c]@.contains(a) {
        reach::lemma_connected_link(link, a, b);
        assert(groups[c]@.contains(b) == reach::connected(link, a, b));
    }
}

proof fn lemma_member(comp: Seq<usize>, c: usize, k: nat, v: usize)
    requires
        k <= comp.len() <= usize::MAX,
    ensures
        split::members(comp, c, k).contains(v) == (v < k && comp[v as int] == c),
    decreases k,
{
    let r = split::members(comp, c, k);
    if k > 0 {
        let p = split::members(comp, c, (k - 1) as nat);
        lemma_member(comp, c, (k - 1) as nat, v);
        if p.contains(v) {
            let i = p.index_of(v);
            assert(r[i] == v);
        }
        if v == k - 1 && comp[v as int] == c {
            assert(r[p.len() as int] == v);
        }
        if r.contains(v) {
            let i = r.index_of(v);
            if i < p.len() {
                assert(p[i] == v);
            }
        }
    }
}

/// Some part has the variable.
pub open spec fn is_in_part<V>(parts: Seq<ComponentSplit<V>>, v: usize) -> bool {
    exists|c: int| 0 <= c < parts.len() && #[trigger] parts[c].new_to_old@.contains(v)
}

/// The parts of an instance: every variable is in exactly one, the variables of a term
/// are in the same one, and a part does not split further: any choice of variables
/// that cuts no term takes all of a part or nothing of it.
pub proof fn parts_are_closed_and_least<V: VarDomain>(
    instance: &HuboInstance<V>,
    comp: Seq<usize>,
    parts: Seq<ComponentSplit<V>>,
    s: spec_fn(usize) -> bool,
)
    requires
        instance.wf(),
        instance.n() <= usize::MAX,
        split::is_component_map(instance, comp),
        split::is_split(instance, comp, parts),
    ensures
        forall|v: usize|
            v < instance.n() ==> #[trigger] is_in_part(parts, v),
        forall|c: int, d: int, v: usize|
            0 <= c < parts.len() && 0 <= d < parts.len() && #[trigger] parts[c].new_to_old@.contains(
                v,
            ) && #[trigger] parts[d].new_to_old@.contains(v) ==> c == d && v < instance.n(),
        forall|t: int, c: int, u: usize, v: usize|
            0 <= t < instance.terms@.len() && 0 <= c < parts.len()
                && #[trigger] instance.terms@[t].indices@.contains(u)
                && #[trigger] instance.terms@[t].indices@.contains(v)
                && #[trigger] parts[c].new_to_old@.contains(u) ==> parts[c].new_to_old@.contains(v),
        (forall|t: int, u: usize, v: usize|
            0 <= t < instance.terms@.len() && #[trigger] instance.terms@[t].indices@.contains(u)
                && #[trigger] instance.terms@[t].indices@.contains(v) ==> s(u) == s(v))
            ==> forall|c: int, u: usize, v: usize|
            0 <= c < parts.len() && #[trigger] parts[c].new_to_old@.contains(u)
                && #[trigger] parts[c].new_to_old@.contains(v) ==> s(u) == s(v),
{
    let terms = instance.terms@;
    let n = comp.len();
    let link = components::co_listed(terms, terms.len());
    let whole = reach::next_label(comp, n) <= 1;
    reach::lemma_next_label(comp, n);
    assert forall|c: int, v: usize| 0 <= c < parts.len() implies #[trigger] parts[c].new_to_old@.contains(
        v,
    ) == (v < n && comp[v as int] == c) by {
        if whole {
            let all = parts[0].new_to_old@;
            if v < n {
                assert(all[v as int] == v);
                assert(comp[v as int] < 1);
            } else {
                assert(!all.contains(v));
            }
        } else {
            assert(split::is_part(instance, comp, c as usize, parts[c]));
            lemma_member(comp, c as usize, n, v);
        }
    }
    assert forall|v: usize| v < instance.n() implies #[trigger] is_in_part(parts, v) by {
        let c = comp[v as int] as int;
        assert(parts[c].new_to_old@.contains(v));
    }
    assert forall|t: int, c: int, u: usize, v: usize|
        0 <= t < terms.len() && 0 <= c < parts.len() && #[trigger] terms[t].indices@.contains(u)
            && #[trigger] terms[t].indices@.contains(v) && #[trigger] parts[c].new_to_old@.contains(
            u,
        ) implies parts[c].new_to_old@.contains(v) by {
        assert(term::indices_below(terms[t].indices@, instance.n()));
        let i = terms[t].indices@.index_of(v);
        assert(terms[t].indices@[i] < n);
        assert(link(u, v));
        reach::lemma_connected_link(link, u, v);
        assert((comp[u as int] == comp[v as int]) == reach::connected(link, u, v));
    }
    if forall|t: int, u: usize, v: usize|
        0 <= t < terms.len() && #[trigger] terms[t].indices@.contains(u)
            && #[trigger] terms[t].indices@.contains(v) ==> s(u) == s(v) {
        assert forall|c: int, u: usize, v: usize|
            0 <= c < parts.len() && #[trigger] parts[c].new_to_old@.contains(u)
                && #[trigger] parts[c].new_to_old@.contains(v) implies s(u) == s(v) by {
            assert((comp[u as int] == comp[v as int]) == reach::connected(link, u, v));
            assert forall|a: usize, b: usize| #[trigger] link(a, b) implies s(a) == s(b) by {
                let t = choose|t: int|
                    0 <= t < terms.len() && (#[trigger] terms[t]).indices@.contains(a)
                        && terms[t].indices@.contains(b);
                assert(terms[t].indices@.contains(a) && terms[t].indices@.contains(b));
            }
            lemma_connected_keeps(link, s, u, v);
        }
    }
}

/// Flipping the listed spins leaves every term as it is.
pub open spec fn keeps_terms(terms: Seq<Term>, n: nat, set: Seq<usize>) -> bool {
    forall|t: int, x: Seq<bool>|
        0 <= t < terms.len() && x.len() == n ==> #[trigger] term::term_value(
            VarType::Spin,
            terms[t],
            sflip::flip_all(x, set),
        ) == term::term_value(VarType::Spin, terms[t], x)
}

/// After the fixes by flip symmetry none is left: every set of spins whose flip keeps
/// all terms has a fixed one, fixed high.
pub proof fn flip_fixes_break_every_symmetry<V: VarDomain>(
    instance: &HuboInstance<V>,
    list: Seq<(usize, i64)>,
    set: Seq<usize>,
    v: usize,
)
    requires
        instance.wf(),
        instance.n() <= usize::MAX,
        V::tag() == VarType::Spin,
        sflip::is_flip_breaking(instance.terms@, instance.n() as nat, list),
        keeps_terms(instance.terms@, instance.n() as nat, set),
        set.contains(v),
        v < instance.n(),
    ensures
        exists|i: int|
            0 <= i < list.len() && set.contains((#[trigger] list[i]).0) && list[i].1 == 1,
{
    let terms = instance.terms@;
    let n = instance.n() as nat;
    let b = choose|b: Seq<Vec<usize>>| #[trigger]
        f2::is_reduced_basis(sflip::even_sets(terms, n), n, b) && list == sflip::representatives(b);
    let y = f2::column_bits(set, n);
    let x = Seq::new(n, |i: int| true);
    assert forall|t: int| 0 <= t < terms.len() && (#[trigger] terms[t]).coeff != 0 implies !parity::dot(
        f2::column_bits(terms[t].indices@, n),
        y,
        n,
    ) by {
        let idx = terms[t].indices@;
        assert(idx.no_duplicates());
        assert(term::indices_below(idx, n as int));
        sflip::lemma_flip_sign(idx, x, set, n);
        term::lemma_monomial_range(VarType::Spin, idx, x);
        let m = term::monomial(VarType::Spin, idx, x);
        let c = terms[t].coeff as int;
        assert(term::term_value(VarType::Spin, terms[t], sflip::flip_all(x, set))
            == term::term_value(VarType::Spin, terms[t], x));
        assert(c * -m == c * m ==> m == 0) by (nonlinear_arith)
            requires
                c != 0,
        ;
    }
    assert(sflip::even_sets(terms, n)(y));
    if forall|i: int| 0 <= i < list.len() ==> !set.contains((#[trigger] list[i]).0) {
        assert forall|k: int| 0 <= k < b.len() implies !y[(#[trigger] b[k])@[0] as int] by {
            assert(list[k].0 == b[k]@[0]);
            assert(f2::is_basis_vector(b, b[k]@, n));
        }
        assert(!y[v as int]);
    }
    let i = choose|i: int| 0 <= i < list.len() && set.contains((#[trigger] list[i]).0);
    assert(list[i].1 == 1);
}

} // verus!
