use hues::bounds::ascent::{
    cluster_subgradient_lb, lagrangian_subgradient_lb, AscentConfig, ClusterSubgradient,
    Subgradient, UNIT,
};
use hues::bounds::cheap::{self, Cheap};
use hues::bounds::cover::{core_packing_lower_bound, solve_weighted_hitting_set_exact};
use hues::bounds::factor::{init_table, least_entry, settle};
use hues::bounds::gray::gray_code_min;
use hues::bounds::hittingset::{
    core_for_active, dedup_and_sort_core, hitting_set_spin_bonus, HittingSet, SoftParityEq,
};
use hues::bounds::lagrangian::bound_of;
use hues::bounds::message_ascent::{trwbp_dual_bound, trwbp_lower_bound, Trwbp};
use hues::bounds::local_min::{min_local_bin, min_local_spin};
use hues::bounds::residual_roof::apply_roof_dual_fixings;
use hues::bounds::srmp::{self, Srmp};
use hues::bounds::subgradient::{bound_at, split_clusters, split_terms};
use hues::bounds::trwbp::{eval_dual, message_lower_bound, Message};
use hues::bounds::{compute_node_lb, compute_node_lb_with_core, max_with_cheap, LowerBound};
use hues::domain::{Bin, Spin, VarDomain, VarType};
use hues::fixes::Fixes;
use hues::instance::HuboInstance;
use hues::node::{Node, TermPrices};
use hues::parity::parity_unsat_core;
use hues::quadratic::reduce_to_quadratic;
use hues::solution::BitSolution;
use hues::term::Term;

fn build<V: VarDomain>(n: usize, terms: &[(&[usize], i64)]) -> HuboInstance<V> {
    let terms = terms
        .iter()
        .map(|(idx, c)| Term { indices: idx.to_vec(), coeff: *c })
        .collect();
    HuboInstance::new(n, 0, terms)
}

fn minimum<V: VarDomain>(instance: &HuboInstance<V>, node: &Node) -> i64 {
    let n = instance.n_vars();
    let mut best = i64::MAX;
    for mask in 0..(1usize << n) {
        let bits: Vec<bool> = (0..n).map(|i| (mask >> i) & 1 == 1).collect();
        if (0..n).all(|i| node.fixed.get(i).map_or(true, |b| b == bits[i])) {
            best = best.min(BitSolution::from_bool_vec(bits).evaluate(instance));
        }
    }
    best
}

fn number(vt: VarType, high: bool) -> i64 {
    match (vt, high) {
        (_, true) => 1,
        (VarType::Bin, false) => 0,
        (VarType::Spin, false) => -1,
    }
}

fn steps(max_iter: usize) -> AscentConfig {
    AscentConfig { max_iter, step_size: UNIT, step_decay: UNIT, optimality_tol: 10 }
}

#[test]
fn cluster_lb_never_exceeds_optimum() {
    let inst = build::<Bin>(
        6,
        &[
            (&[0, 1, 2], -8),
            (&[1, 2, 3], 6),
            (&[3, 4, 5], -4),
            (&[0, 3], 3),
            (&[2, 4], -2),
            (&[1, 5], 4),
        ],
    );
    let node = Node::root(&inst, i64::MIN);
    let split = split_clusters(&inst, &node, 4).unwrap();
    assert!(split.pieces.iter().all(|p| p.vars.len() <= 4));
    let lb = cluster_subgradient_lb(&inst, &node, &steps(128), 4, UNIT, None).unwrap();
    let opt = minimum(&inst, &node);
    assert!(lb <= opt, "lb={lb} must not exceed opt={opt}");
}

#[test]
fn cluster_lb_positive_on_purely_positive_instance() {
    let inst = build::<Bin>(4, &[(&[0, 1], 3), (&[2, 3], 2), (&[0, 2, 3], 1)]);
    let node = Node::root(&inst, i64::MIN);
    let lb = cluster_subgradient_lb(&inst, &node, &steps(32), 15, UNIT, None).unwrap();
    assert!(lb <= 0, "lb={lb} should be <= 0");
}

#[test]
fn clusters_skip_terms_that_are_too_large() {
    let inst = build::<Bin>(5, &[(&[0, 1, 2, 3], -8), (&[0, 1], 6), (&[3, 4], -4)]);
    let node = Node::root(&inst, i64::MIN);
    let split = split_clusters(&inst, &node, 2).unwrap();
    assert_eq!(split.constant, -8);
    assert_eq!(split.pieces.len(), 2);
}

#[test]
fn bin_local_solver_matches_simple_cases() {
    let (v1, y1) = min_local_bin(3, &vec![-2, -1]);
    assert_eq!(v1, -2);
    assert_eq!(y1, vec![true, false]);
    let (v2, y2) = min_local_bin(-50, &vec![4, 1, 20]);
    assert_eq!(v2, -25);
    assert_eq!(y2, vec![true, true, true]);
}

#[test]
fn ties_of_local_solvers() {
    assert_eq!(min_local_bin(0, &vec![0, 0]), (0, vec![false, false]));
    assert_eq!(min_local_bin(5, &vec![-2, -2]), (-2, vec![false, true]));
    assert_eq!(min_local_bin(2, &vec![-2, -3]), (-3, vec![false, true]));
    assert_eq!(min_local_spin(0, &vec![0]), (0, vec![false]));
    assert_eq!(min_local_spin(1, &vec![1, 1]), (-1, vec![true, false]));
}

#[test]
fn spin_local_solver_respects_parity_flip() {
    let (v, y) = min_local_spin(20, &vec![10, -30, 2]);
    let s: Vec<i64> = y.iter().map(|&b| number(VarType::Spin, b)).collect();
    let lin = s[0] * 10 + s[1] * -30 + s[2] * 2;
    let chi: i64 = s.iter().product();
    let mut brute = i64::MAX;
    for a in [-1, 1] {
        for b in [-1, 1] {
            for c in [-1, 1] {
                brute = brute.min(20 * (a * b * c) + a * 10 + b * -30 + c * 2);
            }
        }
    }
    assert_eq!(v, 20 * chi + lin);
    assert_eq!(v, brute);
}

#[test]
fn bin_subgradient_bound_never_exceeds_bruteforce_on_small_node() {
    let inst = build::<Bin>(
        5,
        &[(&[0, 1, 2], -16), (&[0, 2, 3], 12), (&[1, 3], -8), (&[2, 4], 6), (&[0, 4], -5)],
    );
    let mut node = Node::root(&inst, i64::MIN);
    node.set_variable(&inst, 0, true).unwrap();
    let split = split_terms(&inst, &node);
    assert_eq!(split.constant, 0);
    assert_eq!(split.pieces.len(), 5);
    let cfg = AscentConfig { max_iter: 128, step_size: UNIT, step_decay: UNIT, optimality_tol: 0 };
    let (lb, _) = lagrangian_subgradient_lb(&inst, &node, &cfg, UNIT, None, &vec![]).unwrap();
    let opt = minimum(&inst, &node);
    assert!(lb <= opt, "lb={lb}, opt={opt}");
    assert!(lb >= -16 - 8 - 5 - 1, "no worse than the start");
}

#[test]
fn multipliers_are_checked() {
    let inst = build::<Spin>(2, &[(&[0, 1], 3)]);
    let node = Node::root(&inst, 0);
    let split = split_terms(&inst, &node);
    assert!(bound_at(&inst, &node, &split, &vec![], 1).is_none());
    assert!(bound_at(&inst, &node, &split, &vec![vec![0]], 1).is_none());
    assert!(bound_at(&inst, &node, &split, &vec![vec![i64::MAX, 1]], 1).is_none());
    let (lb, point) = bound_at(&inst, &node, &split, &vec![vec![0, 0]], 10).unwrap();
    assert_eq!(point.value, -30);
    assert_eq!(lb, -4);
}

#[test]
fn bounds_in_units_round_down() {
    assert_eq!(bound_of(25, 10), 2);
    assert_eq!(bound_of(-25, 10), -3);
    assert_eq!(bound_of(30, 10), 2);
}

#[test]
fn enumeration_finds_the_minimum() {
    let inst = build::<Spin>(5, &[(&[0, 1, 2], 3), (&[2, 3], -4), (&[3, 4], 5), (&[0], 1)]);
    let (value, sol) = gray_code_min(&inst);
    assert_eq!(value, minimum(&inst, &Node::root(&inst, 0)));
    assert_eq!(sol.evaluate(&inst), value);
    let flat = build::<Bin>(3, &[(&[0, 1], -1), (&[1, 2], -1), (&[0, 2], -1), (&[0, 1, 2], 2)]);
    let (value, sol) = gray_code_min(&flat);
    assert_eq!(value, -1);
    assert_eq!(sol.to_bool_vec(), vec![true, true, false]);
    let tied = build::<Bin>(3, &[(&[2], -1), (&[1], -1), (&[1, 2], 1)]);
    assert_eq!(gray_code_min(&tied).1.to_bool_vec(), vec![true, true, false]);
}

#[test]
fn core_for_active_allocates_rhs_bit() {
    let soft_eqs = vec![
        SoftParityEq { vars: vec![0], odd_required: false, penalty: 2 },
        SoftParityEq { vars: vec![0], odd_required: true, penalty: 2 },
    ];
    let active = vec![true, true];
    let core = core_for_active(&soft_eqs, &active, 1).expect("contradictory core");
    assert_eq!(core, vec![0, 1]);
    assert!(core_for_active(&soft_eqs, &[true, false], 1).is_none());
    assert_eq!(dedup_and_sort_core(vec![3, 1, 3]), vec![1, 3]);
}

#[test]
fn hitting_sets_are_cheapest() {
    let weights = vec![5, 2, 4];
    let cores = vec![vec![0, 1], vec![1, 2], vec![0, 2]];
    let (cost, chosen) = solve_weighted_hitting_set_exact(&weights, &cores, 1000).unwrap();
    assert_eq!(cost, 6);
    assert_eq!(chosen, vec![false, true, true]);
    assert!(core_packing_lower_bound(&weights, &cores) <= cost);
    assert!(solve_weighted_hitting_set_exact(&weights, &cores, 0).is_none());
}

#[test]
fn hitting_sets_are_found_with_enough_nodes() {
    let weights = vec![5, 2, 4];
    let cores = vec![vec![0, 1], vec![1, 2], vec![0, 2]];
    let found: Vec<bool> = (0..6)
        .map(|limit| solve_weighted_hitting_set_exact(&weights, &cores, limit).is_some())
        .collect();
    assert_eq!(found, vec![false, false, false, true, true, true]);
    assert!(solve_weighted_hitting_set_exact(&weights, &vec![], 0).is_some());
}

#[test]
fn hitting_sets_of_cores_in_any_order() {
    let weights = vec![5, 2, 4];
    let cores = vec![vec![1, 0], vec![2, 1, 2], vec![2, 0]];
    let (cost, chosen) = solve_weighted_hitting_set_exact(&weights, &cores, 1000).unwrap();
    assert_eq!(cost, 6);
    assert_eq!(chosen, vec![false, true, true]);
    assert_eq!(core_packing_lower_bound(&weights, &cores), 5);
}

fn two_triangles() -> HuboInstance<Spin> {
    build(
        6,
        &[(&[0, 1], 2), (&[1, 2], 3), (&[0, 2], 4), (&[3, 4], 5), (&[4, 5], 6), (&[3, 5], 7)],
    )
}

#[test]
fn contradictions_add_up() {
    let inst = two_triangles();
    let mut node = Node::root(&inst, 0);
    assert_eq!(cheap::unsat_core_bonus(&inst, &node), 14);
    assert_eq!(cheap::lower_bound(&inst, &node), -13);
    assert_eq!(minimum(&inst, &node), -13);
    let (lb, core) = cheap::compute_with_core(&inst, &mut node);
    assert_eq!(lb, -13);
    assert_eq!(core, Some(vec![0, 1, 2]));
    assert_eq!(node.core_hint, Some(vec![0, 1, 2]));
    assert_eq!(Cheap.branch_hint(&inst, &node), Some(vec![0, 1, 2]));
}

#[test]
fn kept_contradiction_is_used_first() {
    let inst = two_triangles();
    let mut node = Node::root(&inst, 0);
    node.core_hint = Some(vec![3, 5, 4]);
    let (lb, core) = compute_node_lb_with_core(&mut node, &Cheap, None, &inst);
    assert_eq!(lb, -13);
    assert_eq!(core, Some(vec![3, 5, 4]));
    for stale in [vec![0, 1], vec![7, 8, 9], vec![]] {
        node.core_hint = Some(stale);
        let (lb, core) = cheap::compute_with_core(&inst, &mut node);
        assert_eq!(lb, -13);
        assert_eq!(core, Some(vec![0, 1, 2]));
    }
    let calm = build::<Spin>(3, &[(&[0, 1], 2), (&[1, 2], 3)]);
    let mut node = Node::root(&calm, 0);
    let (lb, core) = compute_node_lb_with_core(&mut node, &Cheap, None, &calm);
    assert_eq!(lb, -5);
    assert_eq!(core, None);
}

#[test]
fn other_bounds_come_without_a_contradiction() {
    let inst = two_triangles();
    let mut node = Node::root(&inst, 0);
    let (lb, core) = compute_node_lb_with_core(&mut node, &HittingSet::default(), None, &inst);
    assert_eq!(lb, -13);
    assert_eq!(core, None);
}

#[test]
fn hitting_bonus_goes_on_until_the_limit() {
    let inst = two_triangles();
    let node = Node::root(&inst, 0);
    let bonus = |max_cores, max_search_nodes| {
        hitting_set_spin_bonus(&inst, &node, &HittingSet { max_cores, max_search_nodes })
    };
    assert_eq!(bonus(10, 1000), 14);
    assert_eq!(bonus(2, 1000), 14);
    assert_eq!(bonus(1, 1000), 4);
    assert_eq!(bonus(0, 1000), 0);
    assert_eq!(bonus(10, 0), 4);
}

#[test]
fn parity_contradictions_are_found() {
    let rows = vec![
        vec![true, true, false, true],
        vec![false, true, true, false],
        vec![true, false, true, false],
    ];
    assert_eq!(parity_unsat_core(rows, 3), Some(vec![0, 1, 2]));
    assert_eq!(parity_unsat_core(vec![vec![true, true]], 1), None);
    let doubled = vec![vec![true, true], vec![true, true], vec![true, false], vec![true, false]];
    assert_eq!(parity_unsat_core(doubled, 1), Some(vec![0, 2]));
}

#[test]
fn frustrated_triangle_costs_a_core() {
    let inst = build::<Spin>(3, &[(&[0, 1], 2), (&[1, 2], 3), (&[0, 2], 4)]);
    let mut node = Node::root(&inst, 0);
    assert_eq!(cheap::lower_bound_base(&inst, &node), -9);
    assert_eq!(cheap::lower_bound(&inst, &node), -5);
    assert_eq!(minimum(&inst, &node), -5);
    let (lb, core) = compute_node_lb_with_core(&mut node, &Cheap, None, &inst);
    assert_eq!(lb, -5);
    assert_eq!(core.map(dedup_and_sort_core), Some(vec![0, 1, 2]));
    let hs = HittingSet::default().compute(&inst, &mut node, None);
    assert!(hs >= -6 && hs <= -5);
    assert_eq!(compute_node_lb(&mut node, &HittingSet::default(), None, &inst), -5);
    assert_eq!(max_with_cheap(&inst, &mut node, -100), -5);
}

#[test]
fn srmp_bin_never_exceeds_optimum() {
    let inst = build::<Bin>(
        6,
        &[
            (&[0, 1, 2], -8),
            (&[1, 2, 3], 6),
            (&[3, 4, 5], -4),
            (&[0, 3], 3),
            (&[2, 4], -2),
            (&[1, 5], 4),
        ],
    );
    let node = Node::root(&inst, i64::MIN);
    let cfg = Srmp { max_iter: 50, ..Default::default() };
    let lb = srmp::compute(&inst, &node, &cfg, None);
    let opt = minimum(&inst, &node);
    assert!(lb <= opt, "lb={lb} must not exceed opt={opt}");
}

#[test]
fn srmp_bin_at_least_as_good_as_cheap() {
    let inst = build::<Bin>(5, &[(&[0, 1, 2], -6), (&[2, 3, 4], -4), (&[0, 4], 2), (&[1, 3], -3)]);
    let mut node = Node::root(&inst, i64::MIN);
    let cfg = Srmp { max_iter: 30, ..Default::default() };
    let srmp_lb = srmp::srmp_lb(&inst, &node, &cfg, None);
    let cheap_lb = cheap::compute(&inst, &mut node);
    assert!(srmp_lb >= cheap_lb, "SRMP lb={srmp_lb} should be >= cheap lb={cheap_lb}");
}

#[test]
fn srmp_spin_never_exceeds_optimum() {
    let inst = build::<Spin>(5, &[(&[0, 1, 2], -4), (&[1, 2, 3], 3), (&[0, 3, 4], -2), (&[2, 4], 1)]);
    let node = Node::root(&inst, i64::MIN);
    let cfg = Srmp { max_iter: 50, ..Default::default() };
    let lb = srmp::compute(&inst, &node, &cfg, None);
    let opt = minimum(&inst, &node);
    assert!(lb <= opt, "lb={lb} must not exceed opt={opt}");
}

#[test]
fn srmp_bin_tight_on_separable_instance() {
    let inst = build::<Bin>(6, &[(&[0, 1], -3), (&[2, 3], -2), (&[4, 5], -1)]);
    let node = Node::root(&inst, i64::MIN);
    let cfg = Srmp { max_iter: 10, ..Default::default() };
    let lb = srmp::srmp_lb(&inst, &node, &cfg, None);
    assert_eq!(lb, minimum(&inst, &node));
    assert_eq!(srmp::compute(&inst, &node, &cfg, None), lb - 1);
}

#[test]
fn srmp_beats_the_termwise_bound() {
    let inst = build::<Bin>(2, &[(&[0], 3), (&[0, 1], -3)]);
    let mut node = Node::root(&inst, i64::MIN);
    assert_eq!(cheap::compute(&inst, &mut node), -3);
    assert_eq!(srmp::srmp_lb(&inst, &node, &Srmp::default(), None), 0);
    let oversized = Srmp { max_arity: 1, ..Default::default() };
    assert_eq!(srmp::srmp_lb(&inst, &node, &oversized, None), -3);
}

#[test]
fn tables_are_settled_half_by_half() {
    assert_eq!(init_table(VarType::Bin, 7, 2), vec![0, 0, 0, 7]);
    assert_eq!(init_table(VarType::Spin, 7, 2), vec![7, -7, -7, 7]);
    let mut table = vec![1, -2, 5, 0];
    assert_eq!(least_entry(&table), -2);
    assert_eq!(settle(&mut table, 2, 0), (1, -2));
    assert_eq!(table, vec![0, 0, 4, 2]);
}

#[test]
fn messages_tighten_the_pair_bound() {
    let inst = build::<Bin>(2, &[(&[0, 1], 4), (&[0], -3), (&[1], -3)]);
    let q = reduce_to_quadratic(&inst, &Fixes::new(2));
    let silent = Message { to_a_low: 0, to_a_high: 0, to_b_low: 0, to_b_high: 0 };
    assert_eq!(eval_dual(&q, 10, &vec![silent]), -60);
    let loud = Message { to_a_low: 0, to_a_high: -20, to_b_low: 0, to_b_high: -20 };
    assert_eq!(eval_dual(&q, 10, &vec![loud]), -10 - 10 - 20);
    let lb = message_lower_bound(&inst, &Fixes::new(2), &q, 10, &vec![loud]).unwrap();
    assert_eq!(lb, -5);
    assert!(message_lower_bound(&inst, &Fixes::new(2), &q, 10, &vec![]).is_none());
}

#[test]
fn roof_dual_fixings_keep_an_optimum() {
    let inst = build::<Bin>(3, &[(&[0], 1), (&[1], 1), (&[0, 1], -3), (&[2], 5)]);
    let mut node = Node::root(&inst, 0);
    let before = minimum(&inst, &node);
    assert!(apply_roof_dual_fixings(&mut node, &inst));
    assert_eq!(node.fixed.num_fixed(), 3);
    assert_eq!(minimum(&inst, &node), before);
}

#[test]
fn ascent_closes_the_gap() {
    let inst = build::<Bin>(2, &[(&[0], 1), (&[1], 1), (&[0, 1], -2)]);
    let mut node = Node::root(&inst, i64::MIN);
    let once = lagrangian_subgradient_lb(&inst, &node, &steps(1), UNIT, None, &vec![]).unwrap();
    assert_eq!(once.0, -3);
    let prices: Vec<(usize, Vec<(usize, i64)>)> =
        once.1.into_iter().map(|p| (p.term, p.prices)).collect();
    assert_eq!(
        prices,
        vec![(0, vec![(0, 0)]), (1, vec![(1, 0)]), (2, vec![(0, UNIT), (1, UNIT)])]
    );
    let many = lagrangian_subgradient_lb(&inst, &node, &steps(64), UNIT, None, &vec![]).unwrap();
    assert_eq!(many.0, -1);
    assert_eq!(Subgradient::default().compute(&inst, &mut node, None), -1);
    assert_eq!(ClusterSubgradient::default().compute(&inst, &mut node, None), -1);
}

#[test]
fn ascent_starts_from_known_multipliers() {
    let inst = build::<Bin>(2, &[(&[0], 1), (&[1], 1), (&[0, 1], -2)]);
    let node = Node::root(&inst, i64::MIN);
    let known = vec![
        TermPrices { term: 2, prices: vec![(1, 7)] },
        TermPrices { term: 0, prices: vec![(0, -UNIT)] },
        TermPrices { term: 1, prices: vec![(1, -UNIT)] },
        TermPrices { term: 2, prices: vec![(0, UNIT), (1, 5), (1, UNIT)] },
    ];
    let (lb, _) = lagrangian_subgradient_lb(&inst, &node, &steps(1), UNIT, None, &known).unwrap();
    assert_eq!(lb, -1);
    let far = vec![TermPrices { term: 2, prices: vec![(0, i64::MAX)] }];
    assert!(lagrangian_subgradient_lb(&inst, &node, &steps(1), UNIT, None, &far).is_none());
}

#[test]
fn ascent_goes_on_from_the_multipliers_of_the_node() {
    let inst = build::<Bin>(2, &[(&[0], 1), (&[1], 1), (&[0, 1], -2)]);
    let mut node = Node::root(&inst, i64::MIN);
    assert!(node.prices.is_none());
    let once = Subgradient { max_iter: 1, ..Default::default() };
    assert_eq!(once.compute(&inst, &mut node, None), -2);
    let kept = node.prices.as_ref().unwrap();
    assert_eq!(kept.len(), 3);
    assert_eq!(kept[2].term, 2);
    assert_eq!(kept[2].prices, vec![(0, UNIT), (1, UNIT)]);
    let known = vec![
        TermPrices { term: 0, prices: vec![(0, -UNIT)] },
        TermPrices { term: 1, prices: vec![(1, -UNIT)] },
        TermPrices { term: 2, prices: vec![(0, UNIT), (1, UNIT)] },
    ];
    node.prices = Some(known);
    assert_eq!(once.compute(&inst, &mut node, None), -1);
    node.set_variable(&inst, 0, false).unwrap();
    assert!(node.prices.is_some());
}

#[test]
fn rounded_bounds_stay_below_values_with_constants() {
    let inst = build::<Bin>(1, &[(&[], 1), (&[0], 2)]);
    let mut node = Node::root(&inst, i64::MIN);
    assert_eq!(minimum(&inst, &node), 1);
    assert_eq!(compute_node_lb(&mut node, &Cheap, None, &inst), 1);
    node.set_variable(&inst, 0, true).unwrap();
    assert_eq!(compute_node_lb(&mut node, &Cheap, None, &inst), 3);
}

#[test]
fn ascent_without_a_step_stays_at_the_start() {
    let inst = build::<Spin>(2, &[(&[0, 1], 3), (&[0], 2)]);
    let node = Node::root(&inst, i64::MIN);
    let still = AscentConfig { max_iter: 9, step_size: 0, step_decay: UNIT, optimality_tol: 0 };
    let (lb, prices) =
        lagrangian_subgradient_lb(&inst, &node, &still, UNIT, None, &vec![]).unwrap();
    assert_eq!(lb, -6);
    assert!(prices.iter().all(|p| p.prices.iter().all(|&(_, mu)| mu == 0)));
}

#[test]
fn sweeps_raise_the_bound_of_messages() {
    let inst = build::<Bin>(2, &[(&[0], 1), (&[1], 1), (&[0, 1], -2)]);
    let node = Node::root(&inst, i64::MIN);
    let q = reduce_to_quadratic(&inst, &node.fixed);
    assert_eq!(trwbp_dual_bound(&q, &Trwbp { max_iter: 0, damping: 0 }), -2000000);
    assert_eq!(trwbp_dual_bound(&q, &Trwbp::default()), -11200);
    assert_eq!(trwbp_dual_bound(&q, &Trwbp { max_iter: 40, damping: 0 }), -16);
    assert_eq!(trwbp_lower_bound(&inst, &node, &Trwbp::default()), Some(-1));
    let wide = build::<Bin>(2, &[(&[0], 5), (&[1], 5), (&[0, 1], -10)]);
    let q = reduce_to_quadratic(&wide, &node.fixed);
    assert_eq!(trwbp_dual_bound(&q, &Trwbp { max_iter: 40, damping: 0 }), -560);
}

#[test]
fn sweeps_keep_a_frustrated_triangle_at_its_start() {
    let inst = build::<Spin>(3, &[(&[0, 1], 1), (&[1, 2], 1), (&[0, 2], -1)]);
    let mut node = Node::root(&inst, i64::MIN);
    assert_eq!(trwbp_lower_bound(&inst, &node, &Trwbp::default()), Some(-4));
    let lb = Trwbp::default().compute(&inst, &mut node, None);
    assert!(lb >= -3 && lb <= minimum(&inst, &node));
}
