use hues::domain::{Bin, Spin, VarDomain};
use hues::instance::HuboInstance;
use hues::kernelization::components::connected_components;
use hues::kernelization::f2::{f2_sparse_kernel, sym_diff};
use hues::kernelization::orbits::{mixed_orbits, variable_orbits_from_permutations};
use hues::kernelization::sflip::{detect_sflip_symmetries, sflip_symmetry_fixes};
use hues::kernelization::split::split_into_components;
use hues::kernelization::symmetry_graph::{
    build_colored_symmetry_graph, variable_permutations, SymmetryGraphNode,
};
use hues::node::Node;
use hues::solution::BitSolution;
use hues::term::Term;
use hues::unionfind::UnionFind;

fn build<V: VarDomain>(n: usize, offset: i64, terms: &[(&[usize], i64)]) -> HuboInstance<V> {
    let terms = terms
        .iter()
        .map(|(idx, c)| Term { indices: idx.to_vec(), coeff: *c })
        .collect();
    HuboInstance::new(n, offset, terms)
}

#[test]
fn single_component_returned_as_is() {
    let inst = build::<Bin>(3, 0, &[(&[0, 1], 1), (&[1, 2], 2)]);
    let splits = split_into_components(&inst);
    assert_eq!(splits.len(), 1);
    assert_eq!(splits[0].sub_instance.n_vars(), 3);
    assert_eq!(splits[0].new_to_old, vec![0, 1, 2]);
}

#[test]
fn two_independent_components_split() {
    let inst = build::<Bin>(4, 0, &[(&[0, 1], 3), (&[2, 3], -2)]);
    let splits = split_into_components(&inst);
    assert_eq!(splits.len(), 2);
    assert!(splits.iter().all(|s| s.sub_instance.n_vars() == 2));
    assert!(splits.iter().all(|s| s.sub_instance.n_terms() == 1));
    assert_eq!(splits[0].sub_instance.offset, 0);
    assert_eq!(splits[1].sub_instance.offset, 0);
}

#[test]
fn offset_goes_to_first_component() {
    let inst = build::<Bin>(4, 10, &[(&[0, 1], 1), (&[2, 3], 2)]);
    let splits = split_into_components(&inst);
    assert_eq!(splits.len(), 2);
    assert_eq!(splits[0].sub_instance.offset, 10);
    assert_eq!(splits[1].sub_instance.offset, 0);
}

#[test]
fn split_preserves_solutions() {
    let inst = build::<Bin>(4, 0, &[(&[0, 1], 3), (&[2, 3], -2)]);
    let splits = split_into_components(&inst);
    assert_eq!(splits.len(), 2);
    let mut covered = vec![false; 4];
    for split in &splits {
        for &old in &split.new_to_old {
            assert!(!covered[old], "variable {old} appears in multiple components");
            covered[old] = true;
        }
    }
    assert!(covered.iter().all(|&c| c), "not all variables covered");
}

#[test]
fn constants_go_to_first_component() {
    let inst = build::<Bin>(4, 10, &[(&[2, 3], 2), (&[], 5), (&[0, 1], 1)]);
    let splits = split_into_components(&inst);
    assert_eq!(splits.len(), 2);
    assert_eq!(splits[0].sub_instance.n_terms(), 2);
    assert_eq!(splits[1].sub_instance.n_terms(), 1);
    let low = BitSolution::from_bool_vec(vec![false, false]);
    assert_eq!(low.evaluate(&splits[0].sub_instance), 15);
    assert_eq!(low.evaluate(&splits[1].sub_instance), 0);
}

#[test]
fn classes_are_joined_once() {
    let mut classes = UnionFind::new(4);
    assert!(classes.union(0, 1));
    assert!(classes.union(2, 1));
    assert!(!classes.union(2, 0));
    assert!(!classes.union(3, 3));
    assert_eq!(classes.find(0), classes.find(2));
    assert_ne!(classes.find(0), classes.find(3));
}

#[test]
fn parts_add_up_to_the_whole() {
    let inst = build::<Spin>(5, 7, &[(&[0, 3], 3), (&[1, 2], -2), (&[1], 4), (&[4], 1)]);
    assert_eq!(connected_components(&inst), vec![0, 1, 1, 0, 2]);
    let splits = split_into_components(&inst);
    for mask in 0..32usize {
        let x: Vec<bool> = (0..5).map(|i| (mask >> i) & 1 == 1).collect();
        let parts: i64 = splits
            .iter()
            .map(|s| {
                let y: Vec<bool> = s.new_to_old.iter().map(|&v| x[v]).collect();
                BitSolution::from_bool_vec(y).evaluate(&s.sub_instance)
            })
            .sum();
        assert_eq!(parts, BitSolution::from_bool_vec(x).evaluate(&inst));
    }
}

#[test]
fn colored_symmetry_graph_separates_term_coefficients() {
    let inst = build::<Bin>(3, 0, &[(&[0, 2], 1), (&[1, 2], 2)]);
    let graph = build_colored_symmetry_graph(&inst);
    let first = &graph.graph[graph.term_nodes[0]];
    let second = &graph.graph[graph.term_nodes[1]];
    match (first, second) {
        (
            SymmetryGraphNode::Term { color: first_color, .. },
            SymmetryGraphNode::Term { color: second_color, .. },
        ) => assert_ne!(first_color, second_color),
        _ => panic!("expected term nodes"),
    }
}

#[test]
fn symmetry_graph_links_terms_to_their_variables() {
    let inst = build::<Bin>(3, 0, &[(&[0, 2], 1), (&[1], 1)]);
    let graph = build_colored_symmetry_graph(&inst);
    assert_eq!(graph.graph.node_count(), 5);
    assert_eq!(graph.graph.edge_count(), 3);
    let ends: Vec<(usize, usize)> = graph
        .graph
        .edge_indices()
        .map(|e| {
            let (a, b) = graph.graph.edge_endpoints(e).unwrap();
            (a.index(), b.index())
        })
        .collect();
    for (t, v) in [(0usize, 0usize), (0, 2), (1, 1)] {
        let a = graph.term_nodes[t].index();
        let b = graph.variable_nodes[v].index();
        assert!(ends.contains(&(a, b)) || ends.contains(&(b, a)));
    }
    assert!(graph.graph[graph.variable_nodes[0]] == SymmetryGraphNode::Variable);
}

#[test]
fn permutation_orbits_group_swapped_variables() {
    let perms = variable_permutations(3, &vec![vec![1, 0, 2, 4, 3, 6, 5]]);
    assert_eq!(perms, vec![vec![1, 0, 2]]);
    let orbits = variable_orbits_from_permutations(3, &perms).unwrap();
    assert_eq!(orbits, vec![vec![0, 1], vec![2]]);
}

#[test]
fn permutation_orbits_group_fully_symmetric_variables() {
    let perms = vec![vec![1, 0, 2], vec![0, 2, 1]];
    let orbits = variable_orbits_from_permutations(3, &perms).unwrap();
    assert_eq!(orbits, vec![vec![0, 1, 2]]);
}

#[test]
fn permutation_orbits_keep_singletons_and_swaps() {
    let orbits = variable_orbits_from_permutations(4, &vec![vec![1, 0, 2, 3]]).unwrap();
    assert_eq!(orbits, vec![vec![0, 1], vec![2], vec![3]]);
}

#[test]
fn orbits_of_a_malformed_permutation_are_refused() {
    assert!(variable_orbits_from_permutations(3, &vec![vec![0, 1]]).is_err());
    assert!(variable_orbits_from_permutations(2, &vec![vec![0, 5]]).is_err());
}

#[test]
fn mixed_orbits_join_both_states_of_flipped_variables() {
    let orbits = mixed_orbits(3, &vec![vec![2]], &vec![vec![0, 1], vec![2]]);
    assert!(orbits.contains(&vec![0, 2]));
    assert!(orbits.contains(&vec![1, 3]));
    assert!(orbits.contains(&vec![4, 5]));
    assert_eq!(orbits.len(), 3);
}

#[test]
fn sflip_detection_finds_expected_kernel_basis() {
    let inst = build::<Spin>(3, 0, &[(&[0, 1], 1), (&[1, 2], 2), (&[0, 2], 0)]);
    assert_eq!(detect_sflip_symmetries(&inst), vec![vec![2, 0, 1]]);
}

#[test]
fn sflip_detection_returns_empty_for_binary_instances() {
    let instance = build::<Bin>(2, 0, &[(&[0, 1], 1)]);
    let node = Node::root(&instance, i64::MIN);
    assert!(detect_sflip_symmetries(&instance).is_empty());
    assert!(sflip_symmetry_fixes(&instance, &node).is_empty());
}

#[test]
fn sflip_symmetry_fixes_pick_a_representative_variable() {
    let instance = build::<Spin>(3, 0, &[(&[0, 1], 1), (&[1, 2], 2)]);
    let node = Node::root(&instance, i64::MIN);
    assert_eq!(sflip_symmetry_fixes(&instance, &node), vec![(2, 1)]);
}

#[test]
fn flipping_a_kernel_vector_keeps_the_objective() {
    let inst = build::<Spin>(4, 0, &[(&[0, 1], 1), (&[1, 2], 2), (&[0, 1, 2, 3], 5)]);
    for vector in detect_sflip_symmetries(&inst) {
        for mask in 0..16usize {
            let x: Vec<bool> = (0..4).map(|i| (mask >> i) & 1 == 1).collect();
            let mut y = x.clone();
            for &v in &vector {
                y[v] = !y[v];
            }
            assert_eq!(
                BitSolution::from_bool_vec(x).evaluate(&inst),
                BitSolution::from_bool_vec(y).evaluate(&inst)
            );
        }
    }
}

#[test]
fn kernel_vectors_meet_every_row_evenly() {
    assert_eq!(sym_diff(&vec![0, 2, 3], &vec![2, 5]), vec![0, 3, 5]);
    let rows = vec![vec![0, 1], vec![1, 2, 3], vec![0, 2, 3]];
    let kernel = f2_sparse_kernel(rows.clone(), 4);
    assert_eq!(kernel.len(), 2);
    for vector in &kernel {
        for row in &rows {
            assert_eq!(row.iter().filter(|c| vector.contains(c)).count() % 2, 0);
        }
    }
}
