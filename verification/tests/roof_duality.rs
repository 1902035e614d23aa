use hues::domain::{Bin, Spin, VarDomain};
use hues::instance::HuboInstance;
use hues::kernelization::roof_dual::{binary_roof_duality, spin_roof_duality};
use hues::term::Term;

fn build<V: VarDomain>(n: usize, terms: &[(&[usize], i64)]) -> HuboInstance<V> {
    let terms = terms
        .iter()
        .map(|(idx, c)| Term { indices: idx.to_vec(), coeff: *c })
        .collect();
    HuboInstance::new(n, 0, terms)
}

fn get(fixes: &[(usize, i64)], v: usize) -> Option<i64> {
    fixes.iter().find(|(i, _)| *i == v).map(|(_, b)| *b)
}

#[test]
fn binary_submodular_fixes_both_to_one() {
    let inst = build::<Bin>(2, &[(&[0], 1), (&[1], 1), (&[0, 1], -3)]);
    let f = binary_roof_duality(&inst);
    assert_eq!(get(&f, 0), Some(1));
    assert_eq!(get(&f, 1), Some(1));
}

#[test]
fn binary_supermodular_ambiguous_no_fix() {
    let inst = build::<Bin>(2, &[(&[0], -1), (&[1], -1), (&[0, 1], 3)]);
    assert!(binary_roof_duality(&inst).is_empty());
}

#[test]
fn binary_linear_only_fixes_to_zero() {
    let inst = build::<Bin>(1, &[(&[0], 5)]);
    assert_eq!(get(&binary_roof_duality(&inst), 0), Some(0));
}

#[test]
fn binary_linear_only_fixes_to_one() {
    let inst = build::<Bin>(1, &[(&[0], -5)]);
    assert_eq!(get(&binary_roof_duality(&inst), 0), Some(1));
}

#[test]
fn binary_empty_instance_no_fix() {
    let inst = build::<Bin>(0, &[]);
    assert!(binary_roof_duality(&inst).is_empty());
}

#[test]
fn binary_degree3_skipped() {
    let inst = build::<Bin>(3, &[(&[0, 1, 2], -5)]);
    assert!(binary_roof_duality(&inst).is_empty());
}

#[test]
fn binary_mixed_supermodular_unique_optimum() {
    let inst = build::<Bin>(
        3,
        &[
            (&[0], 1),
            (&[1], 1),
            (&[2], -150),
            (&[0, 1], -3),
            (&[0, 2], 100),
            (&[1, 2], 100),
        ],
    );
    let f = binary_roof_duality(&inst);
    assert_eq!(get(&f, 0), Some(0));
    assert_eq!(get(&f, 1), Some(0));
    assert_eq!(get(&f, 2), Some(1));
}

#[test]
fn spin_linear_fixes_to_minus_one() {
    let inst = build::<Spin>(1, &[(&[0], 5)]);
    assert_eq!(get(&spin_roof_duality(&inst), 0), Some(-1));
}

#[test]
fn spin_linear_fixes_to_plus_one() {
    let inst = build::<Spin>(1, &[(&[0], -5)]);
    assert_eq!(get(&spin_roof_duality(&inst), 0), Some(1));
}

#[test]
fn spin_ferromagnetic_fixes_both_negative() {
    let inst = build::<Spin>(2, &[(&[0], 1), (&[1], 1), (&[0, 1], -3)]);
    let f = spin_roof_duality(&inst);
    assert_eq!(get(&f, 0), Some(-1));
    assert_eq!(get(&f, 1), Some(-1));
}

#[test]
fn spin_antiferromagnetic_ambiguous_no_fix() {
    let inst = build::<Spin>(2, &[(&[0], -1), (&[1], -1), (&[0, 1], 3)]);
    assert!(spin_roof_duality(&inst).is_empty());
}

#[test]
fn spin_ferromagnetic_coupling_no_linear() {
    let inst = build::<Spin>(2, &[(&[0, 1], -3)]);
    assert!(spin_roof_duality(&inst).is_empty());
}

#[test]
fn spin_empty_instance_no_fix() {
    let inst = build::<Spin>(0, &[]);
    assert!(spin_roof_duality(&inst).is_empty());
}

#[test]
fn spin_degree3_skipped() {
    let inst = build::<Spin>(3, &[(&[0, 1, 2], -5)]);
    assert!(spin_roof_duality(&inst).is_empty());
}

#[test]
fn spin_mixed_coupling_unique_optimum() {
    let inst = build::<Spin>(2, &[(&[0], 1), (&[0, 1], -10)]);
    let f = spin_roof_duality(&inst);
    assert_eq!(get(&f, 0), Some(-1));
    assert_eq!(get(&f, 1), Some(-1));
}
