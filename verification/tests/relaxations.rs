use hues::basis::build_basis;
use hues::bounds::lp::{build_product_structure, node_lp, LpBound, LpConfig, NodeLp};
use hues::bounds::product_lp::{ProductLp, Row};
use hues::bounds::psd::moment_program;
use hues::bounds::psd_cliques::clique_program;
use hues::bounds::rlt::{rlt_relaxation, LinearBound, RltConfig};
use hues::bounds::solved::{
    clique_lower_bound, linear_lower_bound, moment_lower_bound, node_lower_bound, shifted,
    Solved,
};
use hues::bounds::sherali_adams::{
    build_chain, sa_relaxation, separate_sa_cuts, ChainFactor, ChainStep, SaCutKind,
    SheraliAdamsConfig,
};
use hues::chordal::min_fill_completion;
use hues::cliques::{
    clique_tree, intersection_size, is_subset, maximal_cliques_from_peo,
    running_intersection_holds, tri_index,
};
use hues::domain::{Bin, Spin, VarDomain, VarType};
use hues::fixes::Fixes;
use hues::instance::HuboInstance;
use hues::lasserre::{
    lasserre_exact_relaxation, lasserre_relaxation, ChordalSdp, ExactLasserreConfig, Lasserre,
    LasserreConfig, LasserreSdpState, MomentApparatus, Relaxation,
};
use hues::moments::combine_sets;
use hues::node::Node;
use hues::quadratic::{
    cheap_form_bound, chordal_lasserre_relaxation, prepare_chordal, reduce_to_quadratic,
    ChordalRelaxation, SdpRelaxation,
};
use hues::solution::BitSolution;
use hues::term::Term;

fn terms_of(terms: &[(&[usize], i64)]) -> Vec<Term> {
    terms
        .iter()
        .map(|(idx, c)| Term { indices: idx.to_vec(), coeff: *c })
        .collect()
}

fn build<V: VarDomain>(n: usize, terms: &[(&[usize], i64)]) -> HuboInstance<V> {
    HuboInstance::new(n, 0, terms_of(terms))
}

fn bits(n: usize, mask: usize) -> Vec<bool> {
    (0..n).map(|i| (mask >> i) & 1 == 1).collect()
}

fn value(vt: VarType, high: bool) -> i64 {
    match (vt, high) {
        (_, true) => 1,
        (VarType::Bin, false) => 0,
        (VarType::Spin, false) => -1,
    }
}

fn point(vt: VarType, lp: &ProductLp, x: &[bool]) -> Vec<i64> {
    let mut p: Vec<i64> = x.iter().map(|&b| value(vt, b)).collect();
    for product in &lp.products {
        p.push(product.iter().map(|&v| value(vt, x[v])).product());
    }
    p
}

fn left(row: &Row, p: &[i64]) -> i64 {
    row.entries.iter().map(|e| e.coeff * p[e.col]).sum()
}

fn is_feasible(lp: &ProductLp, p: &[i64]) -> bool {
    (0..p.len()).all(|c| lp.lower[c] <= p[c] && p[c] <= lp.upper[c])
        && lp.rows.iter().all(|r| left(r, p) <= r.rhs)
}

fn cost(lp: &ProductLp, p: &[i64]) -> i64 {
    (0..p.len()).map(|c| lp.cost[c] * p[c]).sum()
}

#[test]
fn combine_binary_and_spin() {
    let a = vec![0, 2];
    let b = vec![2, 3];
    assert_eq!(combine_sets(&a, &b, VarType::Bin), vec![0, 2, 3]);
    assert_eq!(combine_sets(&a, &b, VarType::Spin), vec![0, 3]);
}

fn apparatus(instance: &HuboInstance<Bin>, d: usize, max_basis: usize) -> MomentApparatus {
    let st = LasserreSdpState::new(instance, &Fixes::new(instance.n_vars()), d, max_basis);
    let lists: Vec<Vec<usize>> = st.active_terms.iter().map(|t| t.indices.clone()).collect();
    MomentApparatus::build_for_instance(st.d, st.var_type, st.max_basis, &lists)
}

#[test]
fn basis_is_instance_specific() {
    let inst = build::<Bin>(5, &[(&[0, 1, 2], -1), (&[3, 4], 2)]);
    let app = apparatus(&inst, 2, 80);
    assert!(app.basis.contains(&vec![]));
    assert!(app.basis.contains(&vec![0]));
    assert!(app.basis.contains(&vec![3, 4]));
    assert!(!app.basis.contains(&vec![0, 3]));
}

#[test]
fn level_1_basis_has_only_singletons() {
    let inst = build::<Bin>(4, &[(&[0, 1, 2], -1), (&[1, 2, 3], 1)]);
    let app = apparatus(&inst, 1, 60);
    assert!(app.basis.iter().all(|b| b.len() <= 1), "got {:?}", app.basis);
}

#[test]
fn level_2_basis_larger_than_level_1_for_overlapping_terms() {
    let inst = build::<Bin>(4, &[(&[0, 1, 2], -1), (&[1, 2, 3], 1)]);
    let app1 = apparatus(&inst, 1, 60);
    let app2 = apparatus(&inst, 2, 80);
    assert!(app2.mat_dim > app1.mat_dim);
    assert!(app2.basis.iter().any(|b| b.len() == 2));
}

#[test]
fn cross_term_enrichment_adds_inter_term_pairs() {
    let inst = build::<Bin>(5, &[(&[0, 1, 2], -2), (&[2, 3, 4], 1)]);
    let app = apparatus(&inst, 2, 80);
    let has_cross_term_pair = app.basis.iter().any(|b| {
        b.len() == 2 && {
            let (u, v) = (b[0], b[1]);
            let in_first_only = |x: usize| [0, 1].contains(&x);
            let in_second_only = |x: usize| [3, 4].contains(&x);
            (in_first_only(u) && in_second_only(v)) || (in_second_only(u) && in_first_only(v))
        }
    });
    assert!(has_cross_term_pair, "basis={:?}", app.basis);
}

#[test]
fn higher_level_basis_contains_higher_degree_monomials() {
    let inst = build::<Bin>(4, &[(&[0, 1, 2, 3], -1)]);
    let app2 = apparatus(&inst, 2, 80);
    let app3 = apparatus(&inst, 3, 80);
    let max_degree_l2 = app2.basis.iter().map(|b| b.len()).max().unwrap_or(0);
    let max_degree_l3 = app3.basis.iter().map(|b| b.len()).max().unwrap_or(0);
    assert!(max_degree_l2 <= 2, "got {max_degree_l2}");
    assert!(max_degree_l3 >= 3, "max={max_degree_l3}");
}

#[test]
fn basis_stops_at_its_limit() {
    let lists = vec![vec![0, 1, 2], vec![2, 3, 4]];
    assert!(build_basis(&lists, 2, 4).len() <= build_basis(&lists, 2, 80).len());
}

#[test]
fn moment_matrix_entries_are_products_of_basis_monomials() {
    let inst = build::<Spin>(3, &[(&[0, 1], -1), (&[1, 2], 2)]);
    let st = LasserreSdpState::new(&inst, &Fixes::new(3), 1, 60);
    let lists: Vec<Vec<usize>> = st.active_terms.iter().map(|t| t.indices.clone()).collect();
    let app = MomentApparatus::build_for_instance(1, VarType::Spin, 60, &lists);
    for i in 0..app.mat_dim {
        for j in i..app.mat_dim {
            let mono = combine_sets(&app.basis[i], &app.basis[j], VarType::Spin);
            if !mono.is_empty() {
                assert!(app.moment_index(&mono).is_some());
            }
        }
    }
    assert_eq!(app.upper_index(0, 0), 0);
    assert_eq!(app.upper_index(1, 1), app.mat_dim);
}

#[test]
fn fixing_a_variable_of_the_state_keeps_the_value() {
    let inst = build::<Bin>(3, &[(&[0, 1, 2], -4), (&[1], 3)]);
    let mut st = LasserreSdpState::new(&inst, &Fixes::new(3), 1, 60);
    st.update_with_fixed_variable(1, true);
    assert_eq!(st.base_offset, 3);
    assert_eq!(st.free_globals, vec![0, 2]);
    assert_eq!(st.active_terms.len(), 1);
    assert_eq!(st.active_terms[0].indices, vec![0, 1]);
}

#[test]
fn relaxation_of_a_fixed_instance_is_known() {
    let inst = build::<Bin>(1, &[(&[0], 5)]);
    let mut fixes = Fixes::new(1);
    fixes.set(0, true).unwrap();
    let st = LasserreSdpState::new(&inst, &fixes, 1, 60);
    assert!(matches!(st.prepare(), Relaxation::Known(5)));
}

#[test]
fn min_fill_cycle_adds_fill_edge() {
    let (_adj, _peo, fill) = min_fill_completion(4, &vec![(0, 1), (1, 2), (2, 3), (0, 3)]);
    assert!(!fill.is_empty());
}

#[test]
fn peo_cliques_on_path() {
    let (adj, peo, _fill) = min_fill_completion(3, &vec![(0, 1), (1, 2)]);
    let cliques = maximal_cliques_from_peo(&adj, &peo);
    assert!(cliques.iter().any(|c| c == &vec![0, 1]));
    assert!(cliques.iter().any(|c| c == &vec![1, 2]));
    assert!(running_intersection_holds(&cliques));
}

#[test]
fn running_intersection_needs_connected_owners() {
    let cycle = vec![vec![0, 1], vec![1, 2], vec![0, 2]];
    assert!(!running_intersection_holds(&cycle));
    assert_eq!(clique_tree(&cycle).len(), 2);
    let chordal = vec![vec![0, 1, 2], vec![2, 3], vec![1, 2, 4]];
    assert_eq!(clique_tree(&chordal), vec![(0, 2), (0, 1)]);
    assert!(running_intersection_holds(&chordal));
    assert!(running_intersection_holds(&vec![vec![0], vec![1]]));
}

#[test]
fn clique_helpers() {
    assert!(is_subset(&[1, 3], &[1, 2, 3]));
    assert!(!is_subset(&[1, 4], &[1, 2, 3]));
    assert_eq!(intersection_size(&[0, 2, 5], &[2, 3, 5]), 2);
    assert_eq!(tri_index(0, 0), 0);
    assert_eq!(tri_index(3, 1), 7);
}

#[test]
fn quadratic_form_bounds_the_objective() {
    let inst = build::<Spin>(4, &[(&[0], 2), (&[0, 1], -3), (&[1, 0], 1), (&[1, 2, 3], 4)]);
    let q = reduce_to_quadratic(&inst, &Fixes::new(4));
    assert_eq!(q.linear, vec![2, 0, 0, 0]);
    assert_eq!(q.quad.len(), 1);
    assert_eq!((q.quad[0].a, q.quad[0].b, q.quad[0].coeff), (0, 1, -2));
    assert_eq!(q.higher_order_trivial, -4);
    assert_eq!(cheap_form_bound(&q), -8);
    for mask in 0..16 {
        let x = bits(4, mask);
        let s: Vec<i64> = x.iter().map(|&b| value(VarType::Spin, b)).collect();
        let form = q.higher_order_trivial + 2 * s[0] - 2 * s[0] * s[1];
        assert!(form <= BitSolution::from_bool_vec(x).evaluate(&inst));
    }
}

#[test]
fn chordal_relaxation_is_known_when_too_large() {
    let inst = build::<Bin>(3, &[(&[0, 1], -3), (&[1, 2], 2)]);
    assert!(matches!(
        prepare_chordal(&inst, &Fixes::new(3), 2),
        ChordalRelaxation::Known(-3)
    ));
    match prepare_chordal(&inst, &Fixes::new(3), 10) {
        ChordalRelaxation::Blocks { reduced, decomposition } => {
            assert_eq!(reduced.n_free, 3);
            assert_eq!(decomposition.maximal_cliques, vec![vec![0, 1], vec![1, 2]]);
            assert!(decomposition.fill_edges.is_empty());
            assert!(decomposition.rip_holds);
        }
        ChordalRelaxation::Known(_) => panic!("small enough to set up"),
    }
}

#[test]
fn build_chain_level0_only_lr_chain() {
    let (monos, steps) = build_chain(0, &terms_of(&[(&[0, 1, 2], 1)]));
    assert!(monos.contains(&vec![0, 1]));
    assert!(monos.contains(&vec![0, 1, 2]));
    assert!(!monos.contains(&vec![0, 2]), "level-0 should not add w[0,2]");
    assert!(!monos.contains(&vec![1, 2]), "level-0 should not add w[1,2]");
    assert_eq!(steps.len(), 2);
}

#[test]
fn build_chain_level1_all_pairs() {
    let (monos, steps) = build_chain(1, &terms_of(&[(&[0, 1, 2], 1)]));
    assert!(monos.contains(&vec![0, 1]));
    assert!(monos.contains(&vec![0, 2]));
    assert!(monos.contains(&vec![1, 2]));
    assert!(monos.contains(&vec![0, 1, 2]));
    let triple_steps = steps.iter().filter(|s| s.product == vec![0, 1, 2]).count();
    assert_eq!(triple_steps, 3);
}

#[test]
fn build_chain_level2_cross_term_pairs() {
    let (monos, _steps) = build_chain(2, &terms_of(&[(&[0, 1], 1), (&[1, 2], 1)]));
    assert!(monos.contains(&vec![0, 1]));
    assert!(monos.contains(&vec![1, 2]));
    assert!(monos.contains(&vec![0, 2]), "cross-term pair [0,2] must be added at level 2");
}

#[test]
fn separation_oracle_finds_violated_mccormick() {
    let chain = vec![ChainStep { product: vec![0, 1], left: ChainFactor::X(0), right_x: 1 }];
    let viols = separate_sa_cuts(
        &vec![5, 5],
        &vec![vec![0, 1]],
        &vec![8],
        &chain,
        VarType::Bin,
        10,
        0,
    );
    assert!(!viols.is_empty(), "should find violations");
    assert!(viols.iter().any(|v| v.cut == SaCutKind::WLeqA), "WLeqA must fire");
    assert!(viols.iter().any(|v| v.cut == SaCutKind::WLeqB), "WLeqB must fire");
    assert!(!viols.iter().any(|v| v.cut == SaCutKind::WGeqAplusB), "WGeqAplusB must not fire");
    assert_eq!(viols[0].violation, 3, "max violation should be 0.3");
    assert_eq!(viols.len(), 2);
    assert!(viols[0].cut == SaCutKind::WLeqA && viols[1].cut == SaCutKind::WLeqB);
}

#[test]
fn cuts_of_a_chain_hold_single_variables_as_such() {
    let (monos, steps) = build_chain(1, &terms_of(&[(&[0, 1, 2], 1)]));
    let values = vec![90; monos.len()];
    let viols =
        separate_sa_cuts(&vec![5, 5, 5], &monos, &values, &steps, VarType::Bin, 10, 0);
    assert!(!viols.is_empty());
    for v in &viols {
        match &v.left {
            ChainFactor::X(_) => assert_eq!(v.prefix.len(), 2),
            ChainFactor::Prod(p) => assert!(p.len() == 2 && v.prefix.len() == 3),
        }
    }
}

#[test]
fn separation_over_spins_orders_by_violation() {
    let chain = vec![
        ChainStep { product: vec![0, 1], left: ChainFactor::X(0), right_x: 1 },
        ChainStep { product: vec![0, 1, 2], left: ChainFactor::Prod(vec![0, 1]), right_x: 2 },
        ChainStep { product: vec![1, 2], left: ChainFactor::X(1), right_x: 2 },
    ];
    let viols = separate_sa_cuts(
        &vec![-10, -10, 10],
        &vec![vec![0, 1], vec![0, 1, 2]],
        &vec![4, 9],
        &chain,
        VarType::Spin,
        10,
        0,
    );
    assert_eq!(viols.len(), 2);
    assert!(viols[0].cut == SaCutKind::WGeqMinusAMinusB && viols[0].violation == 6);
    assert!(viols[1].cut == SaCutKind::WLeqA && viols[1].violation == 5);
}

#[test]
fn product_structure_of_two_terms() {
    let (prefixes, steps) =
        build_product_structure(4, &terms_of(&[(&[0, 1, 3], 1), (&[0, 2], 2), (&[1], 1)])).unwrap();
    assert_eq!(prefixes, vec![vec![0, 1], vec![0, 2], vec![0, 1, 3]]);
    let cols: Vec<(usize, usize, usize)> = steps.iter().map(|s| (s.w, s.a, s.b)).collect();
    assert_eq!(cols, vec![(4, 0, 1), (5, 0, 2), (6, 4, 3)]);
}

fn check_node_lp<V: VarDomain>(instance: &HuboInstance<V>, node: &Node) {
    match node_lp(instance, node, &LpConfig::default()) {
        NodeLp::Program { offset, lp } => {
            let n = instance.n_vars();
            for mask in 0..(1usize << n) {
                let x = bits(n, mask);
                let p = point(V::var_type(), &lp, &x);
                let fixed_ok = (0..n).all(|i| node.fixed.get(i).map_or(true, |b| b == x[i]));
                assert_eq!(is_feasible(&lp, &p), fixed_ok);
                if fixed_ok {
                    let value = BitSolution::from_bool_vec(x).evaluate(instance);
                    assert_eq!(offset + cost(&lp, &p), value);
                }
            }
        }
        NodeLp::Known(_) => panic!("small enough to set up"),
    }
}

#[test]
fn node_program_has_the_assignments_as_points() {
    let bin = build::<Bin>(4, &[(&[0, 1, 3], -2), (&[3, 1], 5), (&[2], 1)]);
    let mut node = Node::root(&bin, 0);
    check_node_lp(&bin, &node);
    node.set_variable(&bin, 1, true).unwrap();
    node.set_variable(&bin, 2, false).unwrap();
    check_node_lp(&bin, &node);
    let spin = build::<Spin>(4, &[(&[0, 1, 3], -2), (&[3, 1], 5), (&[2], 1)]);
    check_node_lp(&spin, &Node::root(&spin, 0));
}

#[test]
fn node_program_with_too_many_columns_is_a_termwise_bound() {
    let bin = build::<Bin>(3, &[(&[0, 1], -2), (&[1, 2], 5)]);
    let node = Node::root(&bin, 0);
    assert!(matches!(node_lp(&bin, &node, &LpConfig { max_cols: 4 }), NodeLp::Known(-2)));
    assert_eq!(LpBound::default().0.max_cols, 500);
}

fn check_linear<V: VarDomain>(instance: &HuboInstance<V>, fixes: &Fixes, r: &LinearBound) {
    let n = instance.n_vars();
    let free = fixes.iter_free();
    for mask in 0..(1usize << free.len()) {
        let y = bits(free.len(), mask);
        let mut x = vec![false; n];
        for (i, b) in fixes.iter_fixed() {
            x[i] = b;
        }
        for (k, &g) in free.iter().enumerate() {
            x[g] = y[k];
        }
        let value = BitSolution::from_bool_vec(x).evaluate(instance);
        match r {
            LinearBound::Known(b) => assert!(*b <= value),
            LinearBound::Program { offset, fallback, lp } => {
                let p = point(V::var_type(), lp, &y);
                assert!(is_feasible(lp, &p));
                assert_eq!(*offset + cost(lp, &p), value);
                assert!(*fallback <= value);
            }
        }
    }
}

#[test]
fn rlt_program_relaxes_the_objective() {
    let inst = build::<Bin>(3, &[(&[0, 1, 2], -1)]);
    let mut fixes = Fixes::new(3);
    let r = rlt_relaxation(&inst, &fixes, &RltConfig::default());
    check_linear(&inst, &fixes, &r);
    fixes.set(2, true).unwrap();
    let r = rlt_relaxation(&inst, &fixes, &RltConfig::default());
    check_linear(&inst, &fixes, &r);
    assert!(matches!(r, LinearBound::Program { offset: 0, fallback: -1, .. }));
    let r = rlt_relaxation(&inst, &fixes, &RltConfig { max_vars: 1 });
    assert!(matches!(r, LinearBound::Known(-1)));
    fixes.set(0, true).unwrap();
    fixes.set(1, true).unwrap();
    let r = rlt_relaxation(&inst, &fixes, &RltConfig::default());
    assert!(matches!(r, LinearBound::Known(-1)));
}

#[test]
fn sherali_adams_program_relaxes_the_objective() {
    let inst = build::<Spin>(4, &[(&[0, 1, 2], -3), (&[2, 3], 2)]);
    for level in 0..3 {
        let cfg = SheraliAdamsConfig { level, ..SheraliAdamsConfig::default() };
        let r = sa_relaxation(&inst, &Fixes::new(4), &cfg);
        assert!(matches!(r, LinearBound::Program { .. }));
        check_linear(&inst, &Fixes::new(4), &r);
    }
    let small = SheraliAdamsConfig { max_vars: 1, ..SheraliAdamsConfig::default() };
    assert!(matches!(
        sa_relaxation(&inst, &Fixes::new(4), &small),
        LinearBound::Program { .. }
    ));
    let mut fixes = Fixes::new(4);
    fixes.set(0, true).unwrap();
    assert!(matches!(sa_relaxation(&inst, &fixes, &small), LinearBound::Known(-5)));
}

#[test]
fn moment_program_has_one_row_per_entry() {
    let inst = build::<Bin>(2, &[(&[0, 1], -3)]);
    let app = apparatus(&inst, 1, 80);
    assert_eq!(app.basis, vec![vec![], vec![0], vec![1]]);
    let r = moment_program(&vec![0, 0, -3], &app, VarType::Bin);
    assert_eq!((r.lower, r.cost, r.dims), (0, vec![0, 0, -3], vec![3]));
    let moments: Vec<Option<usize>> = r.rows.iter().map(|row| row.moment).collect();
    assert_eq!(moments, vec![None, Some(0), Some(1), Some(0), Some(2), Some(1)]);
    let rhs: Vec<i64> = r.rows.iter().map(|row| row.rhs).collect();
    assert_eq!(rhs, vec![-1, 0, 0, 0, 0, 0]);
    assert_eq!(r.rows[4].products, vec![(1, 3), (2, 4)]);
    assert_eq!(r.rows[5].products, vec![(3, 3), (4, 4), (5, 5)]);
}

#[test]
fn clique_program_has_one_block_per_clique() {
    let inst = build::<Spin>(3, &[(&[0], 5), (&[0, 1], -3), (&[1, 2], 2)]);
    match prepare_chordal(&inst, &Fixes::new(3), 10) {
        ChordalRelaxation::Blocks { reduced, decomposition } => {
            assert_eq!(decomposition.maximal_cliques, vec![vec![0, 1], vec![1, 2]]);
            let (r, pairs) = clique_program(&reduced, &decomposition.maximal_cliques);
            assert_eq!(pairs, vec![(0, 1), (1, 2)]);
            assert_eq!((r.lower, r.cost, r.dims), (-1, vec![5, 0, 0, -3, 2], vec![3, 3]));
            assert_eq!(r.rows.len(), 12);
            let moments: Vec<Option<usize>> = r.rows.iter().map(|row| row.moment).collect();
            assert_eq!(moments[..6], [None, Some(0), Some(1), None, Some(3), None]);
            assert_eq!(moments[6..], [None, Some(1), Some(2), None, Some(4), None]);
            assert_eq!(r.rows[10].products, vec![(7, 9), (8, 10)]);
            assert_eq!(r.rows[10].rhs, 0);
            assert_eq!(r.rows[11].rhs, -1);
        }
        ChordalRelaxation::Known(_) => panic!("blocks expected"),
    }
}

#[test]
fn assignments_satisfy_the_clique_program() {
    let inst = build::<Bin>(4, &[(&[0, 1], -3), (&[1, 2], 2), (&[0, 2], 4), (&[2, 3], -1), (&[3], 2)]);
    match prepare_chordal(&inst, &Fixes::new(4), 10) {
        ChordalRelaxation::Blocks { reduced, decomposition } => {
            let cliques = &decomposition.maximal_cliques;
            let (r, pairs) = clique_program(&reduced, cliques);
            for mask in 0..16 {
                let x = bits(4, mask);
                let v = |i: usize| value(VarType::Bin, x[i]);
                let mut y: Vec<i64> = (0..4).map(v).collect();
                y.extend(pairs.iter().map(|&(a, b)| v(a) * v(b)));
                let mut l: Vec<i64> = Vec::new();
                for c in cliques {
                    for i in 0..=c.len() {
                        for j in 0..=i {
                            l.push(if j > 0 { 0 } else if i == 0 { 1 } else { v(c[i - 1]) });
                        }
                    }
                }
                for row in &r.rows {
                    let products: i64 = row.products.iter().map(|&(a, b)| l[a] * l[b]).sum();
                    assert_eq!(row.moment.map_or(0, |m| y[m]) - products, row.rhs);
                }
                let cost: i64 = r.cost.iter().zip(&y).map(|(c, y)| c * y).sum();
                let objective = BitSolution::from_bool_vec(x.clone()).evaluate(&inst);
                assert_eq!(cost + reduced.base_offset + reduced.higher_order_trivial, objective);
            }
        }
        ChordalRelaxation::Known(_) => panic!("blocks expected"),
    }
}

#[test]
fn solver_values_are_added_to_the_constant() {
    assert_eq!(shifted(3, -5), -2);
    assert_eq!(shifted(i64::MIN, -1), i64::MIN);
    assert_eq!(shifted(i64::MAX, 1), i64::MAX);
    let terms = terms_of(&[(&[0, 1], 1), (&[0], -1), (&[1], -1)]);
    let inst = HuboInstance::<Bin>::new(2, 7, terms);
    let rlt = rlt_relaxation(&inst, &Fixes::new(2), &RltConfig { max_vars: 10 });
    assert_eq!(linear_lower_bound(&rlt, Some(-1)), 6);
    assert_eq!(linear_lower_bound(&rlt, None), 5);
    let node = Node::root(&inst, 0);
    let program = node_lp(&inst, &node, &LpConfig { max_cols: 10 });
    assert_eq!(node_lower_bound(&inst, &node, &program, Solved::Value(-1)), 6);
    assert_eq!(node_lower_bound(&inst, &node, &program, Solved::Failed), 5);
    assert_eq!(node_lower_bound(&inst, &node, &program, Solved::Infeasible), i64::MAX);
    let known = node_lp(&inst, &node, &LpConfig { max_cols: 1 });
    assert_eq!(node_lower_bound(&inst, &node, &known, Solved::Value(100)), 5);
}

#[test]
fn moment_bounds_by_level_and_size() {
    let inst = build::<Spin>(3, &[(&[0, 1], -1), (&[1, 2], 2), (&[0], 4)]);
    let fixes = Fixes::new(3);
    let cfg = Lasserre::default().0;
    assert_eq!((cfg.level, cfg.max_iter, cfg.max_vars, cfg.max_basis), (2, 100, 50, 80));
    let low = LasserreConfig { level: 0, ..cfg };
    assert_eq!(lasserre_relaxation(&inst, &fixes, &low).0.d, 2);
    let exact = ExactLasserreConfig { level: 0, max_vars: 50, max_basis: 80 };
    let (state, relaxation) = lasserre_exact_relaxation(&inst, &fixes, &exact);
    assert_eq!(state.d, 1);
    assert!(matches!(relaxation, Relaxation::Moments { .. }));
    assert_eq!(moment_lower_bound(&relaxation, VarType::Spin, Some(-6)), -6);
    assert_eq!(moment_lower_bound(&relaxation, VarType::Spin, None), -7);
    let few = ExactLasserreConfig { level: 1, max_vars: 2, max_basis: 80 };
    let (_, known) = lasserre_exact_relaxation(&inst, &fixes, &few);
    assert!(matches!(known, Relaxation::Known(-7)));
    assert_eq!(moment_lower_bound(&known, VarType::Spin, Some(0)), -7);
}

#[test]
fn chordal_bounds_by_level() {
    let inst = build::<Bin>(3, &[(&[0, 1], -3), (&[1, 2], 2), (&[0, 1, 2], -4)]);
    let fixes = Fixes::new(3);
    let sparse = ChordalSdp(LasserreConfig { level: 1, ..LasserreConfig::default() }).0;
    match chordal_lasserre_relaxation(&inst, &fixes, &sparse) {
        SdpRelaxation::Sparse(relaxation) => {
            assert_eq!(clique_lower_bound(&relaxation, Some(-2)), -6);
            assert_eq!(clique_lower_bound(&relaxation, None), -7);
        }
        SdpRelaxation::Dense { .. } => panic!("cliques expected"),
    }
    let few = LasserreConfig { max_vars: 2, ..sparse };
    match chordal_lasserre_relaxation(&inst, &fixes, &few) {
        SdpRelaxation::Sparse(relaxation) => {
            assert_eq!(clique_lower_bound(&relaxation, Some(0)), -7);
        }
        SdpRelaxation::Dense { .. } => panic!("cliques expected"),
    }
    let dense = LasserreConfig { level: 2, ..sparse };
    assert!(matches!(
        chordal_lasserre_relaxation(&inst, &fixes, &dense),
        SdpRelaxation::Dense { .. }
    ));
}

fn check_moment_program(vt: VarType, relaxation: &Relaxation, value_at: impl Fn(&[bool]) -> i64) {
    let Relaxation::Moments { base, objective, apparatus } = relaxation else {
        panic!("moments expected");
    };
    let r = moment_program(objective, apparatus, vt);
    for mask in 0..8 {
        let x = bits(3, mask);
        let mono = |m: &Vec<usize>| -> i64 { m.iter().map(|&i| value(vt, x[i])).product() };
        let y: Vec<i64> = apparatus.free_moments.iter().map(mono).collect();
        let mut l: Vec<i64> = Vec::new();
        for (i, b) in apparatus.basis.iter().enumerate() {
            l.extend((0..=i).map(|j| if j == 0 { mono(b) } else { 0 }));
        }
        for row in &r.rows {
            let products: i64 = row.products.iter().map(|&(a, b)| l[a] * l[b]).sum();
            assert_eq!(row.moment.map_or(0, |m| y[m]) - products, row.rhs);
        }
        let cost: i64 = r.cost.iter().zip(&y).map(|(c, y)| c * y).sum();
        assert!(base + cost <= value_at(&x));
    }
    for i in 0..apparatus.mat_dim {
        for j in i..apparatus.mat_dim {
            let lacks = r.rows[apparatus.upper_index(i, j)].moment.is_none();
            assert_eq!(lacks, MomentApparatus::constant_entry(vt, i, j) == 1);
        }
    }
}

#[test]
fn assignments_satisfy_the_moment_program() {
    let terms: &[(&[usize], i64)] = &[(&[0, 1, 2], -5), (&[0, 1], 3), (&[2], 2)];
    let fixes = Fixes::new(3);
    let cfg = LasserreConfig::default();
    let bin = build::<Bin>(3, terms);
    let (_, relaxation) = lasserre_relaxation(&bin, &fixes, &cfg);
    check_moment_program(VarType::Bin, &relaxation, |x| {
        BitSolution::from_bool_vec(x.to_vec()).evaluate(&bin)
    });
    let spin = build::<Spin>(3, terms);
    let (_, relaxation) = lasserre_relaxation(&spin, &fixes, &cfg);
    check_moment_program(VarType::Spin, &relaxation, |x| {
        BitSolution::from_bool_vec(x.to_vec()).evaluate(&spin)
    });
}
