//! What the coloured graph says about the objective.

use crate::bounds::program_laws;
use crate::domain::{VarDomain, VarType};
use crate::instance::HuboInstance;
use crate::kernelization::symmetry_graph::ColoredSymmetryGraph;
use crate::kernelization::symmetry_graph;
use crate::lists;
use crate::term::Term;
use crate::term;
use vstd::prelude::*;

verus! {

proof fn lemma_classes_distinct(terms: Seq<Term>, k: nat)
    requires
        k <= terms.len(),
    ensures
        symmetry_graph::coeff_classes(terms, k).no_duplicates(),
    decreases k,
{
    if k > 0 {
        lemma_classes_distinct(terms, (k - 1) as nat);
    }
}

/// Two term nodes have one colour if and only if their terms have one coefficient,
/// and no term node has the colour of a variable node.
pub proof fn colors_tell_coefficients(
    terms: Seq<Term>,
    n: nat,
    g: ColoredSymmetryGraph,
    t: int,
    u: int,
)
    requires
        symmetry_graph::is_colored_graph(terms, n, terms.len(), g),
        0 <= t < terms.len(),
        0 <= u < terms.len(),
    ensures
        symmetry_graph::node_colors(g.graph)[n + t] == symmetry_graph::node_colors(g.graph)[n + u]
            <==> terms[t].coeff == terms[u].coeff,
        forall|v: int|
            0 <= v < n ==> #[trigger] symmetry_graph::node_colors(g.graph)[v]
                != symmetry_graph::node_colors(g.graph)[n + t],
{
    let classes = symmetry_graph::coeff_classes(terms, terms.len());
    let colors = symmetry_graph::node_colors(g.graph);
    lemma_classes_distinct(terms, terms.len());
    assert(symmetry_graph::is_color(terms, terms.len(), terms[t].coeff, colors[n + t]));
    assert(symmetry_graph::is_color(terms, terms.len(), terms[u].coeff, colors[n + u]));
}

/// An edge joins the nodes.
pub open spec fn joined(g: ColoredSymmetryGraph, a: int, b: int) -> bool {
    symmetry_graph::edge_ends(g.graph).contains((a, b)) || symmetry_graph::edge_ends(
        g.graph,
    ).contains((b, a))
}

proof fn lemma_edges(terms: Seq<Term>, n: nat, k: nat, a: int, b: int)
    requires
        k <= terms.len(),
    ensures
        symmetry_graph::term_edges(terms, n, k).contains((a, b)) <==> n <= b < n + k && 0 <= a
            <= usize::MAX && terms[b - n].indices@.contains(a as usize),
    decreases k,
{
    if k > 0 {
        let before = symmetry_graph::term_edges(terms, n, (k - 1) as nat);
        let own = Seq::new(
            terms[k - 1].indices@.len(),
            |i: int| (terms[k - 1].indices@[i] as int, n + k - 1),
        );
        let all = symmetry_graph::term_edges(terms, n, k);
        lemma_edges(terms, n, (k - 1) as nat, a, b);
        if before.contains((a, b)) {
            let i = before.index_of((a, b));
            assert(all[i] == (a, b));
        }
        if b == n + k - 1 && 0 <= a <= usize::MAX && terms[k - 1].indices@.contains(a as usize) {
            let i = terms[k - 1].indices@.index_of(a as usize);
            assert(own[i] == (a, b));
            assert(all[before.len() + i] == (a, b));
        }
        if all.contains((a, b)) {
            let i = all.index_of((a, b));
            if i < before.len() {
                assert(before[i] == (a, b));
            } else {
                assert(own[i - before.len()] == (a, b));
                assert(terms[k - 1].indices@[i - before.len()] == a);
            }
        }
    }
}

/// A variable node and a term node are joined if and only if the term lists the
/// variable; no two variables and no two terms are joined.
pub proof fn edges_tell_variables(
    terms: Seq<Term>,
    n: nat,
    g: ColoredSymmetryGraph,
    a: int,
    b: int,
)
    requires
        symmetry_graph::is_colored_graph(terms, n, terms.len(), g),
        term::terms_below(terms, n as int),
        n <= usize::MAX,
    ensures
        0 <= a < n && 0 <= b < terms.len() ==> (joined(g, a, n + b)
            <==> terms[b].indices@.contains(a as usize)),
        0 <= a < n && 0 <= b < n ==> !joined(g, a, b),
        n <= a && n <= b ==> !joined(g, a, b),
{
    lemma_edges(terms, n, terms.len(), a, n + b);
    lemma_edges(terms, n, terms.len(), n + b, a);
    lemma_edges(terms, n, terms.len(), a, b);
    lemma_edges(terms, n, terms.len(), b, a);
    if n <= b < n + terms.len() && n <= a <= usize::MAX {
        assert(term::indices_below(terms[b - n].indices@, n as int));
    }
    if n <= a < n + terms.len() && n <= b <= usize::MAX {
        assert(term::indices_below(terms[a - n].indices@, n as int));
    }
}

/// `s` is a rearrangement of the numbers below `n`.
pub open spec fn is_permutation(s: Seq<usize>, n: nat) -> bool {
    &&& s.len() == n
    &&& s.no_duplicates()
    &&& forall|i: int| 0 <= i < s.len() ==> (#[trigger] s[i]) < n
}

/// The permutation of the nodes keeps their colours and edges.
pub open spec fn is_automorphism(g: ColoredSymmetryGraph, pi: Seq<usize>) -> bool {
    let colors = symmetry_graph::node_colors(g.graph);
    &&& is_permutation(pi, colors.len())
    &&& forall|a: int| 0 <= a < pi.len() ==> colors[(#[trigger] pi[a]) as int] == colors[a]
    &&& forall|a: int, b: int|
        0 <= a < pi.len() && 0 <= b < pi.len() ==> joined(
            g,
            (#[trigger] pi[a]) as int,
            (#[trigger] pi[b]) as int,
        ) == joined(g, a, b)
}

/// The assignment with the variables moved.
pub open spec fn moved(pi: Seq<usize>, x: Seq<bool>) -> Seq<bool> {
    Seq::new(x.len(), |v: int| x[pi[v] as int])
}

/// Lists with the same variables, each once, have the same monomial.
proof fn lemma_same_monomial(vt: VarType, a: Seq<usize>, b: Seq<usize>, x: Seq<bool>)
    requires
        a.no_duplicates(),
        b.no_duplicates(),
        forall|v: usize| #[trigger] a.contains(v) == b.contains(v),
    ensures
        term::monomial(vt, a, x) == term::monomial(vt, b, x),
    decreases a.len(),
{
    if a.len() == 0 {
        if b.len() > 0 {
            assert(b.contains(b[0]));
            assert(a.contains(b[0]));
        }
        assert(a =~= b);
    } else {
        let w = a.last();
        assert(a[a.len() - 1] == w);
        assert(a.contains(w));
        let j = b.index_of(w);
        let d = a.drop_last();
        let e = b.remove(j);
        assert forall|v: usize| #[trigger] d.contains(v) == e.contains(v) by {
            lemma_without(a, a.len() - 1, v);
            lemma_without(b, j, v);
            assert(a.remove(a.len() - 1) =~= d);
        }
        assert(e.no_duplicates()) by {
            assert forall|p: int, q: int| 0 <= p < q < e.len() implies e[p] != e[q] by {
                let p2 = if p < j { p } else { p + 1 };
                let q2 = if q < j { q } else { q + 1 };
                assert(b[p2] != b[q2]);
            }
        }
        lemma_same_monomial(vt, d, e, x);
        program_laws::lemma_factor(vt, b, j, x);
    }
}

/// A list without repetition and without its entry `j`.
proof fn lemma_without(s: Seq<usize>, j: int, v: usize)
    requires
        0 <= j < s.len(),
        s.no_duplicates(),
    ensures
        s.remove(j).contains(v) == (s.contains(v) && v != s[j]),
{
    let r = s.remove(j);
    if r.contains(v) {
        let i = r.index_of(v);
        if i < j {
            assert(s[i] == v);
        } else {
            assert(s[i + 1] == v);
        }
    }
    if s.contains(v) && v != s[j] {
        let i = s.index_of(v);
        if i < j {
            assert(r[i] == v);
        } else {
            assert(r[i - 1] == v);
        }
    }
}

/// The value of the terms at the listed places.
spec fn sum_at(vt: VarType, terms: Seq<Term>, x: Seq<bool>, s: Seq<usize>) -> int
    decreases s.len(),
{
    if s.len() == 0 {
        0
    } else {
        sum_at(vt, terms, x, s.drop_last()) + term::term_value(vt, terms[s.last() as int], x)
    }
}

proof fn lemma_sum_without(vt: VarType, terms: Seq<Term>, x: Seq<bool>, s: Seq<usize>, j: int)
    requires
        0 <= j < s.len(),
    ensures
        sum_at(vt, terms, x, s) == sum_at(vt, terms, x, s.remove(j)) + term::term_value(
            vt,
            terms[s[j] as int],
            x,
        ),
    decreases s.len(),
{
    if j == s.len() - 1 {
        assert(s.remove(j) =~= s.drop_last());
    } else {
        lemma_sum_without(vt, terms, x, s.drop_last(), j);
        assert(s.remove(j).drop_last() =~= s.drop_last().remove(j));
        assert(s.remove(j).last() == s.last());
    }
}

proof fn lemma_same_sum(
    vt: VarType,
    terms: Seq<Term>,
    x: Seq<bool>,
    a: Seq<usize>,
    b: Seq<usize>,
)
    requires
        a.no_duplicates(),
        b.no_duplicates(),
        forall|v: usize| #[trigger] a.contains(v) == b.contains(v),
    ensures
        sum_at(vt, terms, x, a) == sum_at(vt, terms, x, b),
    decreases a.len(),
{
    if a.len() == 0 {
        if b.len() > 0 {
            assert(b.contains(b[0]));
            assert(a.contains(b[0]));
        }
        assert(a =~= b);
    } else {
        let w = a.last();
        assert(a[a.len() - 1] == w);
        assert(a.contains(w));
        let j = b.index_of(w);
        let d = a.drop_last();
        let e = b.remove(j);
        assert forall|v: usize| #[trigger] d.contains(v) == e.contains(v) by {
            lemma_without(a, a.len() - 1, v);
            lemma_without(b, j, v);
            assert(a.remove(a.len() - 1) =~= d);
        }
        assert(e.no_duplicates()) by {
            assert forall|p: int, q: int| 0 <= p < q < e.len() implies e[p] != e[q] by {
                let p2 = if p < j { p } else { p + 1 };
                let q2 = if q < j { q } else { q + 1 };
                assert(b[p2] != b[q2]);
            }
        }
        lemma_same_sum(vt, terms, x, d, e);
        lemma_sum_without(vt, terms, x, b, j);
    }
}

proof fn lemma_sum_in_order(vt: VarType, terms: Seq<Term>, x: Seq<bool>, k: nat)
    requires
        k <= terms.len() <= usize::MAX,
    ensures
        sum_at(vt, terms, x, Seq::new(k, |i: int| i as usize)) == term::poly(
            vt,
            terms.take(k as int),
            x,
        ),
    decreases k,
{
    let s = Seq::new(k, |i: int| i as usize);
    if k > 0 {
        lemma_sum_in_order(vt, terms, x, (k - 1) as nat);
        assert(s.drop_last() =~= Seq::new((k - 1) as nat, |i: int| i as usize));
        assert(terms.take(k as int).drop_last() =~= terms.take(k - 1));
        assert(terms.take(k as int).last() == terms[s.last() as int]);
    }
}

/// Values of moved variables, one by one.
proof fn lemma_moved_monomial(
    vt: VarType,
    idx: Seq<usize>,
    pi: Seq<usize>,
    x: Seq<bool>,
)
    requires
        term::indices_below(idx, x.len() as int),
    ensures
        term::monomial(vt, idx, moved(pi, x)) == term::monomial(
            vt,
            Seq::new(idx.len(), |i: int| pi[idx[i] as int]),
            x,
        ),
    decreases idx.len(),
{
    if idx.len() > 0 {
        let s = Seq::new(idx.len(), |i: int| pi[idx[i] as int]);
        let d = idx.drop_last();
        assert forall|i: int| 0 <= i < d.len() implies (#[trigger] d[i]) < x.len() by {
            assert(idx[i] < x.len());
        }
        lemma_moved_monomial(vt, d, pi, x);
        assert(s.drop_last() =~= Seq::new(d.len(), |i: int| pi[d[i] as int]));
        assert(idx[idx.len() - 1] < x.len());
        assert(moved(pi, x)[idx.last() as int] == x[s.last() as int]);
    }
}

/// An automorphism moves variables to variables and a term to a term with its
/// coefficient and the moved variables.
proof fn lemma_moved_term(
    vt: VarType,
    terms: Seq<Term>,
    n: nat,
    g: ColoredSymmetryGraph,
    pi: Seq<usize>,
    t: int,
    x: Seq<bool>,
)
    requires
        symmetry_graph::is_colored_graph(terms, n, terms.len(), g),
        term::terms_below(terms, n as int),
        term::terms_distinct(terms),
        n + terms.len() <= usize::MAX,
        is_automorphism(g, pi),
        0 <= t < terms.len(),
        x.len() == n,
    ensures
        n <= pi[n + t] < n + terms.len(),
        term::term_value(vt, terms[t], moved(pi, x)) == term::term_value(
            vt,
            terms[pi[n + t] - n],
            x,
        ),
{
    let colors = symmetry_graph::node_colors(g.graph);
    let q = pi[n + t] as int;
    assert(colors[q] == colors[n + t]);
    colors_tell_coefficients(terms, n, g, t, t);
    if q < n {
        assert(colors[q] != colors[n + t]);
    }
    let u = q - n;
    colors_tell_coefficients(terms, n, g, t, u);
    let idx = terms[t].indices@;
    let img = Seq::new(idx.len(), |i: int| pi[idx[i] as int]);
    let other = terms[u].indices@;
    assert(term::indices_below(idx, n as int));
    assert(term::indices_below(other, n as int));
    assert(img.no_duplicates()) by {
        assert forall|i: int, j: int| 0 <= i < j < img.len() implies img[i] != img[j] by {
            assert(idx[i] < n && idx[j] < n);
            assert(idx[i] != idx[j]);
        }
    }
    assert forall|v: usize| #[trigger] img.contains(v) == other.contains(v) by {
        if img.contains(v) {
            let i = img.index_of(v);
            assert(idx[i] < n);
            assert(idx.contains(idx[i]));
            lemma_variable_moves(terms, n, g, pi, idx[i] as int);
            edges_tell_variables(terms, n, g, idx[i] as int, t);
            edges_tell_variables(terms, n, g, v as int, u);
            assert(joined(g, pi[idx[i] as int] as int, pi[n + t] as int) == joined(
                g,
                idx[i] as int,
                n + t,
            ));
        }
        if other.contains(v) {
            let p = other.index_of(v);
            assert(other[p] < n);
            lists_all(pi, v);
            let w = pi.index_of(v);
            assert(colors[pi[w] as int] == colors[w]);
            if w >= n {
                colors_tell_coefficients(terms, n, g, w - n, w - n);
                assert(colors[v as int] != colors[n + (w - n)]);
            }
            edges_tell_variables(terms, n, g, v as int, u);
            edges_tell_variables(terms, n, g, w, t);
            assert(joined(g, pi[w] as int, pi[n + t] as int) == joined(g, w, n + t));
            assert(idx.contains(w as usize));
            let i = idx.index_of(w as usize);
            assert(img[i] == v);
        }
    }
    lemma_moved_monomial(vt, idx, pi, x);
    lemma_same_monomial(vt, img, other, x);
}

proof fn lemma_variable_moves(
    terms: Seq<Term>,
    n: nat,
    g: ColoredSymmetryGraph,
    pi: Seq<usize>,
    v: int,
)
    requires
        symmetry_graph::is_colored_graph(terms, n, terms.len(), g),
        is_automorphism(g, pi),
        0 <= v < n,
    ensures
        pi[v] < n,
{
    let colors = symmetry_graph::node_colors(g.graph);
    let q = pi[v] as int;
    assert(colors[q] == colors[v]);
    if q >= n {
        colors_tell_coefficients(terms, n, g, q - n, q - n);
        assert(colors[v] != colors[n + (q - n)]);
    }
}

/// A rearrangement has every number.
proof fn lists_all(s: Seq<usize>, u: usize)
    requires
        is_permutation(s, s.len()),
        s.len() <= usize::MAX,
        u < s.len(),
    ensures
        s.contains(u),
{
    crate::cliques::lemma_permutation(s, s.len(), u);
}

/// Every rearrangement of the nodes that keeps colours and edges moves the variables
/// among themselves, and moving them leaves the objective as it is, at every
/// assignment.
pub proof fn automorphisms_keep_the_objective<V: VarDomain>(
    instance: &HuboInstance<V>,
    g: ColoredSymmetryGraph,
    pi: Seq<usize>,
    x: Seq<bool>,
)
    requires
        instance.wf(),
        instance.n() + instance.terms@.len() <= usize::MAX,
        symmetry_graph::is_colored_graph(
            instance.terms@,
            instance.n() as nat,
            instance.terms@.len(),
            g,
        ),
        is_automorphism(g, pi),
        x.len() == instance.n(),
    ensures
        is_permutation(pi.take(instance.n()), instance.n() as nat),
        instance.objective(moved(pi.take(instance.n()), x)) == instance.objective(x),
{
    let vt = V::tag();
    let terms = instance.terms@;
    let n = instance.n() as nat;
    let m = terms.len();
    let p = pi.take(n as int);
    assert forall|v: int| 0 <= v < n implies (#[trigger] p[v]) < n by {
        lemma_variable_moves(terms, n, g, pi, v);
    }
    assert(p.no_duplicates());
    assert(moved(p, x) =~= moved(pi, x));
    let sigma = Seq::new(m, |t: int| (pi[n + t] - n) as usize);
    let order = Seq::new(m, |t: int| t as usize);
    assert forall|t: int| 0 <= t < m implies (#[trigger] sigma[t]) < m && term::term_value(
        vt,
        terms[t],
        moved(pi, x),
    ) == term::term_value(vt, terms[sigma[t] as int], x) && sigma[t] == pi[n + t] - n by {
        lemma_moved_term(vt, terms, n, g, pi, t, x);
    }
    assert(sigma.no_duplicates()) by {
        assert forall|i: int, j: int| 0 <= i < j < m implies sigma[i] != sigma[j] by {
            assert(pi[n + i] != pi[n + j]);
        }
    }
    assert forall|u: usize| #[trigger] sigma.contains(u) == order.contains(u) by {
        if u < m {
            lists_all(sigma, u);
            assert(order[u as int] == u);
        }
    }
    lemma_same_sum(vt, terms, x, sigma, order);
    lemma_sum_in_order(vt, terms, x, m);
    assert(terms.take(m as int) =~= terms);
    lemma_terms_moved(vt, terms, sigma, x, moved(pi, x), m);
}

proof fn lemma_terms_moved(
    vt: VarType,
    terms: Seq<Term>,
    sigma: Seq<usize>,
    x: Seq<bool>,
    y: Seq<bool>,
    k: nat,
)
    requires
        k <= terms.len(),
        sigma.len() == terms.len(),
        forall|t: int|
            0 <= t < terms.len() ==> term::term_value(vt, terms[t], y) == term::term_value(
                vt,
                terms[#[trigger] sigma[t] as int],
                x,
            ),
    ensures
        term::poly(vt, terms.take(k as int), y) == sum_at(vt, terms, x, sigma.take(k as int)),
        k == terms.len() ==> term::poly(vt, terms, y) == sum_at(vt, terms, x, sigma),
    decreases k,
{
    if k > 0 {
        lemma_terms_moved(vt, terms, sigma, x, y, (k - 1) as nat);
        assert(terms.take(k as int).drop_last() =~= terms.take(k - 1));
        assert(sigma.take(k as int).drop_last() =~= sigma.take(k - 1));
        assert(terms.take(k as int).last() == terms[k - 1]);
        assert(sigma.take(k as int).last() == sigma[k - 1]);
    }
    if k == terms.len() {
        assert(terms.take(k as int) =~= terms);
        assert(sigma.take(k as int) =~= sigma);
    }
}

/// The permutations found for an instance from automorphisms of its coloured graph
/// keep its objective, and every automorphism that moves a variable is among them.
pub proof fn variable_permutations_are_symmetries<V: VarDomain>(
    instance: &HuboInstance<V>,
    g: ColoredSymmetryGraph,
    autos: Seq<Vec<usize>>,
    perms: Seq<Vec<usize>>,
    x: Seq<bool>,
)
    requires
        instance.wf(),
        instance.n() + instance.terms@.len() <= usize::MAX,
        symmetry_graph::is_colored_graph(
            instance.terms@,
            instance.n() as nat,
            instance.terms@.len(),
            g,
        ),
        forall|a: int| 0 <= a < autos.len() ==> is_automorphism(g, (#[trigger] autos[a])@),
        forall|p: Seq<usize>| #[trigger]
            lists::has_list(perms, p) == (symmetry_graph::is_image(
                autos,
                autos.len(),
                instance.n() as nat,
                p,
            ) && p != symmetry_graph::identity(instance.n() as nat)),
        x.len() == instance.n(),
    ensures
        forall|i: int|
            0 <= i < perms.len() ==> is_permutation(
                (#[trigger] perms[i])@,
                instance.n() as nat,
            ) && instance.objective(moved(perms[i]@, x)) == instance.objective(x) && exists|v: int|
                0 <= v < instance.n() && perms[i]@[v] != v,
        forall|a: int, v: int|
            0 <= a < autos.len() && 0 <= v < instance.n() && #[trigger] autos[a]@[v] != v
                ==> exists|i: int|
                0 <= i < perms.len() && (#[trigger] perms[i])@ == autos[a]@.take(instance.n()),
{
    let n = instance.n() as nat;
    let same = symmetry_graph::identity(n);
    assert forall|i: int| 0 <= i < perms.len() implies is_permutation((#[trigger] perms[i])@, n)
        && instance.objective(moved(perms[i]@, x)) == instance.objective(x) && exists|v: int|
        0 <= v < n && perms[i]@[v] != v by {
        let p = perms[i]@;
        assert(lists::has_list(perms, p));
        let a = choose|a: int| 0 <= a < autos.len() && p == (#[trigger] autos[a])@.take(n as int);
        automorphisms_keep_the_objective(instance, g, autos[a]@, x);
        if forall|v: int| 0 <= v < n ==> p[v] == v {
            assert(p =~= same);
        }
    }
    assert forall|a: int, v: int|
        0 <= a < autos.len() && 0 <= v < n && #[trigger] autos[a]@[v] != v implies exists|i: int|
        0 <= i < perms.len() && (#[trigger] perms[i])@ == autos[a]@.take(n as int) by {
        let p = autos[a]@.take(n as int);
        assert(is_automorphism(g, autos[a]@));
        assert(p[v] != same[v]);
        assert(symmetry_graph::is_image(autos, autos.len(), n, p));
        assert(lists::has_list(perms, p));
    }
}

} // verus!
