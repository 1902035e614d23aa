use hues::domain::{Bin, Spin, VarType};
use hues::fixes::{is_valid_value, FixError, Fixes};
use hues::instance::HuboInstance;
use hues::node::Node;
use hues::solution::BitSolution;
use hues::term::Term;

fn term(indices: &[usize], coeff: i64) -> Term {
    Term { indices: indices.to_vec(), coeff }
}

#[test]
fn spin_objective_granularity_uses_superset_formula() {
    let terms = vec![term(&[0], 3), term(&[1], 7), term(&[0, 1], 5)];
    let instance: HuboInstance<Spin> = HuboInstance::new(2, 0, terms);

    assert_eq!(instance.objective_granularity, Some(4));
    assert_eq!(instance.objective_grid_base, -5);
    assert_eq!(instance.round_lower_bound_to_objective_grid(-8), -5);
    assert_eq!(instance.round_lower_bound_to_objective_grid(-9), -9);
}

#[test]
fn binary_objective_granularity_is_gcd_of_monomial_coeffs() {
    let terms = vec![term(&[0], 6), term(&[1], 10), term(&[0, 1], 4)];
    let instance: HuboInstance<Bin> = HuboInstance::new(2, 1, terms);

    assert_eq!(instance.objective_granularity, Some(2));
    assert_eq!(instance.objective_grid_base, 1);
    assert_eq!(instance.round_lower_bound_to_objective_grid(2), 3);
    assert_eq!(instance.round_lower_bound_to_objective_grid(3), 3);
}

#[test]
fn binary_granularity_merges_duplicate_subsets() {
    let terms = vec![term(&[0, 1], 3), term(&[1, 0], 5)];
    let instance: HuboInstance<Bin> = HuboInstance::new(2, 0, terms);

    assert_eq!(instance.objective_granularity, Some(8));
}

#[test]
fn constants_move_the_base_of_the_grid() {
    let terms = vec![term(&[], 1), term(&[0], 2)];
    let bin: HuboInstance<Bin> = HuboInstance::new(1, 0, terms.clone());
    assert_eq!(bin.objective_granularity, Some(2));
    assert_eq!(bin.objective_grid_base, 1);
    assert_eq!(bin.round_lower_bound_to_objective_grid(1), 1);
    assert_eq!(bin.round_lower_bound_to_objective_grid(2), 3);
    let spin: HuboInstance<Spin> = HuboInstance::new(1, 0, terms);
    assert_eq!(spin.objective_grid_base, -1);
    assert_eq!(spin.round_lower_bound_to_objective_grid(0), 3);
}

#[test]
fn objectives_lie_on_the_grid() {
    let terms = vec![term(&[0], 3), term(&[1], 7), term(&[0, 1], 5)];
    let instance: HuboInstance<Spin> = HuboInstance::new(2, 0, terms);
    for bits in 0..4usize {
        let sol = BitSolution::from_bool_vec(vec![bits & 1 == 1, bits & 2 == 2]);
        let value = sol.evaluate(&instance);
        assert_eq!((value - instance.objective_grid_base).rem_euclid(4), 0);
    }
}

#[test]
fn values_of_assignments() {
    let terms = vec![term(&[0, 1], -2), term(&[2], 5), term(&[0, 1, 2], 4)];
    let bin: HuboInstance<Bin> = HuboInstance::new(3, 1, terms.clone());
    let spin: HuboInstance<Spin> = HuboInstance::new(3, 1, terms);
    let sol = BitSolution::from_bool_vec(vec![true, true, false]);
    assert_eq!(sol.evaluate(&bin), -1);
    assert_eq!(sol.evaluate(&spin), 1 - 2 - 5 - 4);
    assert_eq!(sol.to_vec(VarType::Bin), vec![1, 1, 0]);
    assert_eq!(sol.to_vec(VarType::Spin), vec![1, 1, -1]);
    assert_eq!(BitSolution::from_vec(&[1, -1, 0]).to_bool_vec(), vec![true, false, false]);
}

#[test]
fn format_string_shows_one_character_per_variable() {
    let sol = BitSolution::from_bool_vec(vec![true, false]);
    assert_eq!(sol.format_string(VarType::Bin).len(), 2);
    assert_eq!(sol.format_string(VarType::Bin), "10");
    assert_eq!(sol.format_string(VarType::Spin), "+-");
    assert_eq!(hues::heuristic::format_solution(&sol, VarType::Bin), "10");
}

#[test]
fn fixing_reports_every_error() {
    let mut fixes = Fixes::new(2);
    assert!(fixes.fix_variable::<Bin>(0, 1).is_ok());
    assert!(matches!(
        fixes.fix_variable::<Bin>(0, 0),
        Err(FixError::ConflictingFixes { index: 0 })
    ));
    assert!(matches!(
        fixes.fix_variable::<Bin>(5, 0),
        Err(FixError::InvalidVariableIndex { index: 5, n_vars: 2 })
    ));
    assert!(matches!(
        fixes.fix_variable::<Bin>(1, -1),
        Err(FixError::InvalidFixValue { index: 1, .. })
    ));
    assert_eq!(fixes.num_fixed(), 1);
    assert_eq!(fixes.num_free(), 1);
    assert_eq!(fixes.iter_fixed(), vec![(0, true)]);
    assert_eq!(fixes.iter_free(), vec![1]);
    assert!(is_valid_value(VarType::Spin, -1) && !is_valid_value(VarType::Bin, -1));
    assert!(is_valid_value(VarType::Bin, 0) && !is_valid_value(VarType::Spin, 0));
}

#[test]
fn composed_fixes_are_merged() {
    let mut first = Fixes::new(3);
    first.set(1, true).unwrap();
    let mut step = Fixes::new(3);
    step.set(2, false).unwrap();
    let both = first.compose(&step).unwrap();
    assert_eq!(both.iter_fixed(), vec![(1, true), (2, false)]);
    step.set(1, false).unwrap();
    assert!(matches!(first.compose(&step), Err(FixError::ConflictingFixes { index: 1 })));
}

#[test]
fn applied_fixes_keep_the_objective() {
    let terms = vec![term(&[0, 1], -2), term(&[2], 5), term(&[0, 1, 2], 4)];
    let instance: HuboInstance<Spin> = HuboInstance::new(3, 1, terms);
    let mut fixes = Fixes::new(3);
    fixes.set(1, false).unwrap();
    let (small, new_to_old) = instance.apply_fixes(&fixes);
    assert_eq!(small.n_vars(), 2);
    assert_eq!(new_to_old, vec![0, 2]);
    for bits in 0..4usize {
        let y = vec![bits & 1 == 1, bits & 2 == 2];
        let x = vec![y[0], false, y[1]];
        assert_eq!(
            BitSolution::from_bool_vec(y).evaluate(&small),
            BitSolution::from_bool_vec(x).evaluate(&instance)
        );
    }
}

#[test]
fn nodes_fold_fixed_variables() {
    let terms = vec![term(&[0, 1], -2), term(&[2], 5)];
    let instance: HuboInstance<Bin> = HuboInstance::new(3, 0, terms);
    let mut node = Node::root(&instance, -9);
    assert_eq!(node.lb, -9);
    node.set_variable(&instance, 2, true).unwrap();
    assert_eq!(node.offset, 5);
    assert!(node.term_status[1].is_none());
    node.set_variable(&instance, 0, true).unwrap();
    let left = node.term_status[0].as_ref().unwrap();
    assert_eq!(left.free_variables, vec![1]);
    assert_eq!(left.coeff, -2);
    assert!(node.set_variable(&instance, 0, false).is_err());
    assert!(node.set_variable(&instance, 7, false).is_err());
}
