use hues::domain::{Bin, Spin, VarDomain};
use hues::instance::HuboInstance;
use hues::kernelization::config::{KernelizationConfig, KernelizationReport};
use hues::kernelization::coupling::{
    coupling_fixes, detect_conditionally_coupled_pairs, detect_frustrated_pairs,
    detect_uncoupled_pairs, ConditionalCouplingKind,
};
use hues::kernelization::error::KernelizationError;
use hues::kernelization::kernelizer::Kernelizer;
use hues::kernelization::result::KernelizationResult;
use hues::node::Node;
use hues::solution::BitSolution;
use hues::term::Term;

fn build<V: VarDomain>(n: usize, terms: &[(&[usize], i64)]) -> HuboInstance<V> {
    let terms = terms
        .iter()
        .map(|(idx, c)| Term { indices: idx.to_vec(), coeff: *c })
        .collect();
    HuboInstance::new(n, 0, terms)
}

fn only_rounds(max_rounds: usize) -> KernelizationConfig {
    KernelizationConfig {
        enable_binary_dominance: false,
        enable_spin_dominance: false,
        enable_binary_roof_duality: false,
        enable_spin_roof_duality: false,
        remove_zero_coeff_terms: true,
        max_rounds,
        enable_coupling_reduction: false,
        enable_sflip_symmetry: false,
    }
}

fn run<V: VarDomain>(
    instance: &HuboInstance<V>,
    config: KernelizationConfig,
) -> (Node, KernelizationReport) {
    let mut node = Node::root(instance, 0);
    let report = Kernelizer::new(config).kernelize(instance, &mut node, None).unwrap();
    (node, report)
}

fn minimum<V: VarDomain>(instance: &HuboInstance<V>, node: Option<&Node>) -> i64 {
    let n = instance.n_vars();
    let mut best = i64::MAX;
    for mask in 0..(1usize << n) {
        let bits: Vec<bool> = (0..n).map(|i| (mask >> i) & 1 == 1).collect();
        let allowed = node.map_or(true, |nd| {
            (0..n).all(|i| nd.fixed.get(i).map_or(true, |b| b == bits[i]))
        });
        if allowed {
            best = best.min(BitSolution::from_bool_vec(bits).evaluate(instance));
        }
    }
    best
}

#[test]
fn unconditional_detects_pure_pair() {
    let inst = build::<Spin>(2, &[(&[0, 1], 3)]);
    let coupled = detect_uncoupled_pairs(&inst);
    assert_eq!(coupled, vec![(0, 1, -1)]);
    assert_eq!(coupling_fixes(&coupled), vec![(0, 1), (1, -1)]);
}

#[test]
fn unconditional_not_detected_when_solo_term_exists() {
    let inst = build::<Spin>(2, &[(&[0], 1), (&[0, 1], 3)]);
    assert!(detect_uncoupled_pairs(&inst).is_empty());
}

#[test]
fn unconditional_negative_alpha_detected() {
    let inst = build::<Spin>(2, &[(&[0, 1], -2)]);
    assert_eq!(detect_uncoupled_pairs(&inst), vec![(0, 1, 1)]);
    assert_eq!(coupling_fixes(&[(0, 1, 1)]), vec![(0, 1), (1, 1)]);
}

#[test]
fn unconditional_mixed_signs_not_detected() {
    let inst = build::<Spin>(4, &[(&[0, 1], 1), (&[0, 1, 2], 2), (&[0, 1, 3], -1)]);
    assert!(detect_uncoupled_pairs(&inst).is_empty());
}

#[test]
fn unconditional_positive_coeffs_may_still_be_nonconstant() {
    let inst = build::<Spin>(4, &[(&[0, 1, 2], 1), (&[0, 1, 3], 1)]);
    assert!(detect_uncoupled_pairs(&inst).is_empty());
}

#[test]
fn unconditional_detected_when_bound_forces_sign() {
    let inst = build::<Spin>(3, &[(&[0, 1], 3), (&[0, 1, 2], 1)]);
    assert_eq!(detect_uncoupled_pairs(&inst), vec![(0, 1, -1)]);
}

#[test]
fn conditional_detects_one_sided_relation_j_given_i() {
    let inst = build::<Spin>(3, &[(&[0], 1), (&[0, 1], 3), (&[0, 1, 2], 1)]);
    let cond = detect_conditionally_coupled_pairs(&inst);
    assert_eq!(cond.len(), 1);
    assert_eq!(cond[0].i, 0);
    assert_eq!(cond[0].j, 1);
    assert_eq!(cond[0].alpha, -1);
    assert!(cond[0].kind == ConditionalCouplingKind::JGivenI);
}

#[test]
fn conditional_detects_one_sided_relation_i_given_j() {
    let inst = build::<Spin>(3, &[(&[1], 1), (&[0, 1], 3), (&[0, 1, 2], 1)]);
    let cond = detect_conditionally_coupled_pairs(&inst);
    assert_eq!(cond.len(), 1);
    assert!(cond[0].kind == ConditionalCouplingKind::IGivenJ);
}

#[test]
fn frustrated_pair_detected_when_a_straddles_zero() {
    let inst = build::<Spin>(4, &[(&[0, 1, 2], 1), (&[0, 1, 3], 1)]);
    assert_eq!(detect_frustrated_pairs(&inst), vec![(0, 1)]);
}

#[test]
fn frustrated_not_reported_for_unconditional_pair() {
    let inst = build::<Spin>(2, &[(&[0, 1], 3)]);
    assert!(detect_frustrated_pairs(&inst).is_empty());
}

#[test]
fn binary_dominance_fixes_variable() {
    let instance = build::<Bin>(2, &[(&[0], 5), (&[0, 1], 2)]);
    let (node, report) = run(&instance, KernelizationConfig::default());
    assert_eq!(node.fixed.get(0), Some(false));
    assert!(report.rule_fixed >= 1);
}

#[test]
fn spin_dominance_fixes_variable() {
    let instance = build::<Spin>(2, &[(&[0], 3), (&[0, 1], 1)]);
    let (node, report) = run(&instance, KernelizationConfig::default());
    assert_eq!(node.fixed.get(0), Some(false));
    assert!(report.rule_fixed >= 1);
}

#[test]
fn external_fix_reduces_and_lifts_binary_solution() {
    let instance = build::<Bin>(3, &[(&[0], 1), (&[1], 2), (&[0, 2], -3)]);
    let (node, report) = run(&instance, only_rounds(1));
    assert_eq!(node.fixed.num_fixed(), 0);
    assert_eq!(report.rule_fixed, 0);
}

#[test]
fn iterative_kernelization_composes_trace() {
    let instance = build::<Bin>(2, &[(&[0], -4), (&[1], 5), (&[0, 1], -10)]);
    let (_, report) = run(&instance, KernelizationConfig::default());
    assert_eq!(report.rounds, 2);
    assert_eq!(report.dominance_fixed, 2);
}

#[test]
fn roof_duality_fixes_consistent_labels() {
    let instance = build::<Bin>(2, &[(&[0], 1), (&[1], 1), (&[0, 1], -3)]);
    let config = KernelizationConfig { enable_binary_roof_duality: true, ..only_rounds(10) };
    let (node, _) = run(&instance, config);
    assert_eq!(minimum(&instance, Some(&node)), -1);
}

#[test]
fn spin_roof_duality_via_kernelizer() {
    let instance = build::<Spin>(2, &[(&[0], 1), (&[1], 1), (&[0, 1], -3)]);
    let config = KernelizationConfig { enable_spin_roof_duality: true, ..only_rounds(10) };
    let (_, report) = run(&instance, config);
    assert!(report.roof_duality_fixed >= 1);
}

#[test]
fn spin_coupling_reduction_via_kernelizer() {
    let instance = build::<Spin>(3, &[(&[0, 1], 3), (&[0, 1, 2], 1)]);
    let config = KernelizationConfig { enable_coupling_reduction: true, ..only_rounds(10) };
    let (_, report) = run(&instance, config);
    assert_eq!(report.coupling_fixed, 2);
    assert_eq!(report.rule_fixed, 2);
    assert_eq!(report.unconditional_coupling_pairs_detected, 1);
    assert_eq!(report.frustrated_pairs_detected, 0);
}

#[test]
fn frustrated_pairs_are_counted() {
    let instance = build::<Spin>(4, &[(&[0, 1, 2], 1), (&[0, 1, 3], 1)]);
    let config = KernelizationConfig { enable_coupling_reduction: true, ..only_rounds(10) };
    let (_, report) = run(&instance, config);
    assert_eq!(report.frustrated_pairs_detected, 1);
    assert_eq!(report.unconditional_coupling_pairs_detected, 0);
    let (_, report) = run(&instance, only_rounds(10));
    assert_eq!(report.frustrated_pairs_detected, 0);
}

#[test]
fn conditional_coupling_propagates_same_round_fixes() {
    let instance = build::<Spin>(3, &[(&[0], 5), (&[0, 1], 3), (&[0, 1, 2], 1)]);
    let config = KernelizationConfig {
        enable_spin_dominance: true,
        enable_coupling_reduction: true,
        ..only_rounds(10)
    };
    let (_, report) = run(&instance, config);
    assert!(report.dominance_fixed >= 1);
    assert!(report.conditional_coupling_implied_fixed >= 1);
}

#[test]
fn kernelization_keeps_an_optimum() {
    let bin = build::<Bin>(
        4,
        &[(&[0], -4), (&[1], 5), (&[0, 1], -10), (&[1, 2, 3], 3), (&[2], -1), (&[3], 2)],
    );
    let (node, _) = run(&bin, KernelizationConfig::default());
    assert_eq!(minimum(&bin, Some(&node)), minimum(&bin, None));
    let spin = build::<Spin>(4, &[(&[0], 5), (&[0, 1], 3), (&[0, 1, 2], 1), (&[2, 3], -2)]);
    let (node, _) = run(&spin, KernelizationConfig::default());
    assert_eq!(minimum(&spin, Some(&node)), minimum(&spin, None));
}

#[test]
fn presets_of_the_configuration() {
    let none = KernelizationConfig::none();
    assert!(!none.enable_binary_dominance && !none.enable_coupling_reduction);
    let node_level = KernelizationConfig::node_level();
    assert!(node_level.enable_binary_dominance || node_level.enable_spin_dominance);
}

#[test]
fn report_lines_name_the_fixed_variables() {
    let instance = build::<Bin>(2, &[(&[0], 5), (&[0, 1], 2)]);
    let (node, report) = run(&instance, KernelizationConfig::default());
    let fixed = node.fixed.iter_fixed();
    let shown: Vec<String> = fixed.iter().map(|(i, b)| format!("{i}={b}")).collect();
    let lines = KernelizationResult { fixes: node.fixed, report }.report_lines();
    assert!(lines[0].starts_with("kernelization: vars 2 -> "));
    assert_eq!(lines[1], format!("kernelization fixed variables: {}", shown.join(", ")));
    assert!(lines[2].starts_with("kernelization summary: rounds="));
}

#[test]
fn report_preview_stops_after_twelve() {
    let terms: Vec<Term> = (0..15).map(|i| Term { indices: vec![i], coeff: 1 }).collect();
    let instance: HuboInstance<Bin> = HuboInstance::new(15, 0, terms);
    let (node, report) = run(&instance, KernelizationConfig::default());
    assert_eq!(node.fixed.num_fixed(), 15);
    let lines = KernelizationResult { fixes: node.fixed, report }.report_lines();
    assert!(lines[0].ends_with("fixed_total=15"));
    assert!(lines[1].contains("11=false, ... (+3 more)"));
    assert!(!lines[1].contains("12=false"));
}

#[test]
fn errors_have_messages() {
    let e = KernelizationError::ConflictingFixes { index: 3 };
    assert_eq!(e.message(), "conflicting fixed values for variable 3");
}
