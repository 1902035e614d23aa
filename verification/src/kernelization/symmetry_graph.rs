//! The coloured graph of an instance and the variable permutations that its
//! automorphisms give.

use crate::domain::VarDomain;
use crate::instance::HuboInstance;
use crate::lists;
use crate::term::Term;
use crate::term;
use petgraph::Undirected;
use petgraph::graph::{Graph, NodeIndex, UnGraph};
use vstd::prelude::*;

verus! {

/// A node of the coloured graph.
#[derive(Debug, Clone, Copy, PartialEq, Eq, Hash, PartialOrd, Ord, Structural)]
pub enum SymmetryGraphNode {
    Variable,
    Term { color: usize },
}

/// `petgraph::graph::Graph`, held as an opaque value.
#[verifier::external_type_specification]
#[verifier::external_body]
#[verifier::reject_recursive_types(N)]
#[verifier::reject_recursive_types(E)]
#[verifier::reject_recursive_types(Ty)]
#[verifier::reject_recursive_types(Ix)]
pub struct ExGraph<N, E, Ty, Ix>(Graph<N, E, Ty, Ix>);

/// `petgraph::graph::NodeIndex`, held as an opaque value.
#[verifier::external_type_specification]
#[verifier::external_body]
#[verifier::reject_recursive_types(Ix)]
pub struct ExNodeIndex<Ix>(NodeIndex<Ix>);

/// `petgraph::Undirected`, the marker of undirected graphs.
#[verifier::external_type_specification]
#[verifier::external_body]
pub struct ExUndirected(Undirected);

/// The colours of a graph's nodes in index order; variables have none.
pub uninterp spec fn node_colors(g: UnGraph<SymmetryGraphNode, ()>) -> Seq<Option<usize>>;

/// The ends of a graph's edges in index order, as node numbers.
pub uninterp spec fn edge_ends(g: UnGraph<SymmetryGraphNode, ()>) -> Seq<(int, int)>;

/// The number of a node index.
pub uninterp spec fn node_number(i: NodeIndex<u32>) -> int;

/// The colour of a node.
pub open spec fn color_of(w: SymmetryGraphNode) -> Option<usize> {
    match w {
        SymmetryGraphNode::Variable => None,
        SymmetryGraphNode::Term { color } => Some(color),
    }
}

/// `UnGraph::default`: a graph without nodes and edges.
#[verifier::external_body]
fn empty_graph() -> (r: UnGraph<SymmetryGraphNode, ()>)
    ensures
        node_colors(r).len() == 0,
        edge_ends(r).len() == 0,
{
    UnGraph::default()
}

/// `Graph::add_node`: the new node comes after the others, and its number is
/// returned. The number of nodes stays below the largest index.
#[verifier::external_body]
fn add_graph_node(g: &mut UnGraph<SymmetryGraphNode, ()>, w: SymmetryGraphNode) -> (r: NodeIndex<
    u32,
>)
    requires
        node_colors(*old(g)).len() < u32::MAX,
    ensures
        node_number(r) == node_colors(*old(g)).len(),
        node_colors(*final(g)) == node_colors(*old(g)).push(color_of(w)),
        edge_ends(*final(g)) == edge_ends(*old(g)),
{
    g.add_node(w)
}

/// `Graph::add_edge`: the new edge comes after the others. Both ends exist, and
/// the number of edges stays below the largest index.
#[verifier::external_body]
fn add_graph_edge(g: &mut UnGraph<SymmetryGraphNode, ()>, a: NodeIndex<u32>, b: NodeIndex<u32>)
    requires
        0 <= node_number(a) < node_colors(*old(g)).len(),
        0 <= node_number(b) < node_colors(*old(g)).len(),
        edge_ends(*old(g)).len() < u32::MAX,
    ensures
        node_colors(*final(g)) == node_colors(*old(g)),
        edge_ends(*final(g)) == edge_ends(*old(g)).push((node_number(a), node_number(b))),
{
    g.add_edge(a, b, ());
}

/// The coloured graph of an instance.
#[derive(Debug)]
pub struct ColoredSymmetryGraph {
    pub graph: UnGraph<SymmetryGraphNode, ()>,
    pub variable_nodes: Vec<NodeIndex<u32>>,
    pub term_nodes: Vec<NodeIndex<u32>>,
}

/// The different coefficients of the first `k` terms, in order of appearance.
pub open spec fn coeff_classes(terms: Seq<Term>, k: nat) -> Seq<i64>
    decreases k,
{
    if k == 0 {
        Seq::empty()
    } else if coeff_classes(terms, (k - 1) as nat).contains(terms[k - 1].coeff) {
        coeff_classes(terms, (k - 1) as nat)
    } else {
        coeff_classes(terms, (k - 1) as nat).push(terms[k - 1].coeff)
    }
}

/// The edges between the first `k` terms and their variables.
pub open spec fn term_edges(terms: Seq<Term>, n: nat, k: nat) -> Seq<(int, int)>
    decreases k,
{
    if k == 0 {
        Seq::empty()
    } else {
        term_edges(terms, n, (k - 1) as nat) + Seq::new(
            terms[k - 1].indices@.len(),
            |i: int| (terms[k - 1].indices@[i] as int, n + k - 1),
        )
    }
}

/// The graph of the first `k` terms: a node without colour per variable, a node
/// per term coloured by its coefficient's class, an edge per occurrence.
pub open spec fn is_colored_graph(
    terms: Seq<Term>,
    n: nat,
    k: nat,
    g: ColoredSymmetryGraph,
) -> bool {
    &&& g.variable_nodes@.len() == n
    &&& forall|v: int| 0 <= v < n ==> node_number(#[trigger] g.variable_nodes@[v]) == v
    &&& g.term_nodes@.len() == k
    &&& forall|t: int| 0 <= t < k ==> node_number(#[trigger] g.term_nodes@[t]) == n + t
    &&& node_colors(g.graph).len() == n + k
    &&& forall|v: int| 0 <= v < n ==> (#[trigger] node_colors(g.graph)[v]) is None
    &&& forall|t: int|
        0 <= t < k ==> is_color(
            terms,
            k,
            #[trigger] terms[t].coeff,
            node_colors(g.graph)[n + t],
        )
    &&& edge_ends(g.graph) == term_edges(terms, n, k)
}

/// `c` is the class of a coefficient.
pub open spec fn is_color(terms: Seq<Term>, k: nat, coeff: i64, c: Option<usize>) -> bool {
    c matches Some(color) && color < coeff_classes(terms, k).len() && coeff_classes(
        terms,
        k,
    )[color as int] == coeff
}

/// How many variables the first `k` terms list.
pub open spec fn occurrences_total(terms: Seq<Term>, k: nat) -> nat
    decreases k,
{
    if k == 0 {
        0
    } else {
        occurrences_total(terms, (k - 1) as nat) + terms[k - 1].indices@.len()
    }
}

proof fn lemma_term_edges(terms: Seq<Term>, n: nat, k: nat, m: nat)
    requires
        k <= m,
    ensures
        term_edges(terms, n, k).len() == occurrences_total(terms, k),
        occurrences_total(terms, k) <= occurrences_total(terms, m),
    decreases m,
{
    if k < m {
        lemma_term_edges(terms, n, k, (m - 1) as nat);
    } else if k > 0 {
        lemma_term_edges(terms, n, (k - 1) as nat, (k - 1) as nat);
    }
}

/// Build the coloured graph of an instance.
pub fn build_colored_symmetry_graph<V: VarDomain>(instance: &HuboInstance<V>) -> (r:
    ColoredSymmetryGraph)
    requires
        instance.wf(),
        instance.n() + instance.terms@.len() <= u32::MAX,
        occurrences_total(instance.terms@, instance.terms@.len()) <= u32::MAX,
    ensures
        is_colored_graph(instance.terms@, instance.n() as nat, instance.terms@.len(), r),
{
    let n: usize = instance.n_vars();
    let ghost terms = instance.terms@;
    let mut graph = empty_graph();
    let mut variable_nodes: Vec<NodeIndex<u32>> = Vec::new();
    let mut v: usize = 0;
    assert(edge_ends(graph) =~= Seq::empty());
    while v < n
        invariant
            v <= n,
            n <= u32::MAX,
            node_colors(graph).len() == v,
            edge_ends(graph) == Seq::<(int, int)>::empty(),
            variable_nodes@.len() == v,
            forall|i: int| 0 <= i < v ==> node_number(#[trigger] variable_nodes@[i]) == i,
            forall|i: int| 0 <= i < v ==> (#[trigger] node_colors(graph)[i]) is None,
        decreases n - v,
    {
        let node = add_graph_node(&mut graph, SymmetryGraphNode::Variable);
        variable_nodes.push(node);
        v += 1;
    }
    let mut classes: Vec<i64> = Vec::new();
    let mut g = ColoredSymmetryGraph { graph, variable_nodes, term_nodes: Vec::new() };
    let mut t: usize = 0;
    assert(classes@ =~= coeff_classes(terms, 0));
    while t < instance.terms.len()
        invariant
            t <= terms.len(),
            terms == instance.terms@,
            n == instance.n(),
            instance.wf(),
            n + terms.len() <= u32::MAX,
            occurrences_total(terms, terms.len()) <= u32::MAX,
            classes@ == coeff_classes(terms, t as nat),
            is_colored_graph(terms, n as nat, t as nat, g),
        decreases terms.len() - t,
    {
        let coeff: i64 = instance.terms[t].coeff;
        let ghost g0 = g;
        let ghost idx = terms[t as int].indices@;
        let ghost classes0 = classes@;
        let mut color: usize = 0;
        while color < classes.len() && classes[color] != coeff
            invariant
                color <= classes@.len(),
                forall|i: int| 0 <= i < color ==> classes@[i] != coeff,
            decreases classes@.len() - color,
        {
            color += 1;
        }
        if color == classes.len() {
            classes.push(coeff);
        } else {
            assert(classes@[color as int] == coeff);
        }
        assert(classes@ =~= coeff_classes(terms, (t + 1) as nat));
        let node = add_graph_node(&mut g.graph, SymmetryGraphNode::Term { color });
        g.term_nodes.push(node);
        let ghost colors = node_colors(g.graph);
        proof {
            lemma_term_edges(terms, n as nat, t as nat, terms.len());
            lemma_term_edges(terms, n as nat, (t + 1) as nat, terms.len());
            assert(term::indices_below(idx, n as int));
            assert(edge_ends(g.graph) =~= term_edges(terms, n as nat, t as nat) + Seq::new(
                0,
                |i: int| (idx[i] as int, n as int + t),
            ));
        }
        let mut q: usize = 0;
        while q < instance.terms[t].indices.len()
            invariant
                t < terms.len(),
                terms == instance.terms@,
                idx == terms[t as int].indices@,
                term::indices_below(idx, n as int),
                q <= idx.len(),
                n + terms.len() <= u32::MAX,
                term_edges(terms, n as nat, t as nat).len() + idx.len() <= u32::MAX,
                g.variable_nodes == g0.variable_nodes,
                g.variable_nodes@.len() == n,
                forall|v: int|
                    0 <= v < n ==> node_number(#[trigger] g.variable_nodes@[v]) == v,
                g.term_nodes@ == g0.term_nodes@.push(node),
                node_number(node) == n + t,
                colors.len() == n + t + 1,
                node_colors(g.graph) == colors,
                edge_ends(g.graph) == term_edges(terms, n as nat, t as nat) + Seq::new(
                    q as nat,
                    |i: int| (idx[i] as int, n as int + t),
                ),
            decreases idx.len() - q,
        {
            let v: usize = instance.terms[t].indices[q];
            assert(idx[q as int] < n);
            let a = g.variable_nodes[v];
            add_graph_edge(&mut g.graph, a, node);
            q += 1;
            assert(edge_ends(g.graph) =~= term_edges(terms, n as nat, t as nat) + Seq::new(
                q as nat,
                |i: int| (idx[i] as int, n as int + t),
            ));
        }
        proof {
            let k2 = (t + 1) as nat;
            assert(Seq::new(q as nat, |i: int| (idx[i] as int, n as int + t)) =~= Seq::new(
                idx.len(),
                |i: int| (idx[i] as int, n + k2 - 1),
            ));
            assert(edge_ends(g.graph) =~= term_edges(terms, n as nat, k2));
            assert forall|a: int| 0 <= a < t + 1 implies is_color(
                terms,
                k2,
                #[trigger] terms[a].coeff,
                node_colors(g.graph)[n + a],
            ) by {
                if a < t {
                    assert(is_color(
                        terms,
                        t as nat,
                        terms[a].coeff,
                        node_colors(g0.graph)[n + a],
                    ));
                    assert(node_colors(g.graph)[n + a] == node_colors(g0.graph)[n + a]);
                }
            }
            assert forall|a: int| 0 <= a < t + 1 implies node_number(#[trigger] g.term_nodes@[a])
                == n + a by {
                if a < t {
                    assert(g.term_nodes@[a] == g0.term_nodes@[a]);
                }
            }
            assert forall|v: int| 0 <= v < n implies (#[trigger] node_colors(g.graph)[v])
                is None by {
                assert(node_colors(g0.graph)[v] is None);
            }
        }
        t += 1;
    }
    g
}

/// The identity on `n` variables.
pub open spec fn identity(n: nat) -> Seq<usize> {
    Seq::new(n, |i: int| i as usize)
}

/// Some automorphism permutes the variables like `p`.
pub open spec fn is_image(autos: Seq<Vec<usize>>, k: nat, n: nat, p: Seq<usize>) -> bool {
    exists|a: int| 0 <= a < k && p == (#[trigger] autos[a])@.take(n as int)
}

/// The permutations of the variables that the automorphisms of the coloured
/// graph give: without the identity and without repetition, in lexicographic
/// order.
pub fn variable_permutations(n_vars: usize, automorphisms: &Vec<Vec<usize>>) -> (r: Vec<
    Vec<usize>,
>)
    requires
        forall|a: int|
            0 <= a < automorphisms@.len() ==> (#[trigger] automorphisms@[a])@.len() >= n_vars,
    ensures
        lists::in_list_order(false, r@),
        forall|p: Seq<usize>| #[trigger]
            lists::has_list(r@, p) == (is_image(
                automorphisms@,
                automorphisms@.len(),
                n_vars as nat,
                p,
            ) && p != identity(n_vars as nat)),
{
    let ghost autos = automorphisms@;
    let ghost n = n_vars as nat;
    let mut r: Vec<Vec<usize>> = Vec::new();
    let mut a: usize = 0;
    while a < automorphisms.len()
        invariant
            a <= autos.len(),
            autos == automorphisms@,
            n == n_vars,
            forall|q: int| 0 <= q < autos.len() ==> (#[trigger] autos[q])@.len() >= n_vars,
            lists::in_list_order(false, r@),
            forall|p: Seq<usize>| #[trigger]
                lists::has_list(r@, p) == (is_image(autos, a as nat, n, p) && p != identity(n)),
        decreases autos.len() - a,
    {
        let mut permutation: Vec<usize> = Vec::new();
        let mut moved: bool = false;
        let mut i: usize = 0;
        let ghost img = autos[a as int]@.take(n as int);
        while i < n_vars
            invariant
                i <= n_vars,
                a < autos.len(),
                autos == automorphisms@,
                n == n_vars,
                autos[a as int]@.len() >= n_vars,
                img == autos[a as int]@.take(n as int),
                permutation@ == img.take(i as int),
                moved == exists|j: int| 0 <= j < i && #[trigger] img[j] != j,
            decreases n_vars - i,
        {
            let mapped: usize = automorphisms[a][i];
            let ghost moved0 = moved;
            permutation.push(mapped);
            if mapped != i {
                assert(img[i as int] != i);
                moved = true;
            }
            i += 1;
            assert(permutation@ =~= img.take(i as int));
            proof {
                if moved0 {
                    let j = choose|j: int| 0 <= j < i - 1 && #[trigger] img[j] != j;
                    assert(img[j] != j);
                }
            }
        }
        assert(permutation@ =~= img);
        let ghost r0 = r@;
        proof {
            if moved {
                let j = choose|j: int| 0 <= j < n && #[trigger] img[j] != j;
                assert(identity(n)[j] == j);
                assert(img != identity(n));
            } else {
                assert(img =~= identity(n)) by {
                    assert forall|j: int| 0 <= j < n implies img[j] == identity(n)[j] by {
                        assert(!(img[j] != j));
                    }
                }
            }
            assert forall|p: Seq<usize>| #[trigger] is_image(autos, (a + 1) as nat, n, p) == (
            is_image(autos, a as nat, n, p) || p == img) by {
                if is_image(autos, a as nat, n, p) {
                    let q = choose|q: int|
                        0 <= q < a && p == (#[trigger] autos[q])@.take(n as int);
                    assert(p == autos[q]@.take(n as int));
                }
                if p == img {
                    assert(p == autos[a as int]@.take(n as int));
                }
            }
        }
        if moved {
            lists::add_list(&mut r, permutation, false);
        }
        proof {
            assert forall|p: Seq<usize>| #[trigger] lists::has_list(r@, p) == (is_image(
                autos,
                (a + 1) as nat,
                n,
                p,
            ) && p != identity(n)) by {
                assert(lists::has_list(r0, p) == (is_image(autos, a as nat, n, p) && p != identity(n)));
            }
        }
        a += 1;
    }
    r
}

} // verus!
