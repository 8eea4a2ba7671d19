use lau_symplectic_agent::decision::CanonicalTransformation;
use lau_symplectic_agent::phase_space::PhasePoint;

fn identity(size: usize) -> Vec<Vec<f64>> {
    (0..size)
        .map(|r| (0..size).map(|c| if r == c { 1.0 } else { 0.0 }).collect())
        .collect()
}

#[test]
fn fits_requires_a_square_matrix_of_twice_the_dimension() {
    assert!(CanonicalTransformation::fits(&identity(4), 2));
    assert!(CanonicalTransformation::fits(&identity(0), 0));
    assert!(!CanonicalTransformation::fits(&identity(4), 1));
    assert!(!CanonicalTransformation::fits(&vec![vec![1.0, 0.0], vec![0.0]], 1));
    assert!(!CanonicalTransformation::<f64>::fits(&Vec::new(), usize::MAX));
}

#[test]
fn new_keeps_matrix_without_offset() {
    let t = CanonicalTransformation::new(identity(2), 1);
    assert_eq!(t.dim(), 1);
    assert_eq!(t.matrix(), &identity(2));
    assert!(t.offset().is_none());
}

#[test]
fn with_offset_keeps_matrix_and_sets_offset() {
    let t = CanonicalTransformation::new(identity(2), 1)
        .with_offset(PhasePoint::new(vec![1.0], vec![2.0]));
    assert_eq!(t.dim(), 1);
    assert_eq!(t.matrix(), &identity(2));
    let off = t.offset().as_ref().unwrap();
    assert_eq!(off.q, vec![1.0]);
    assert_eq!(off.p, vec![2.0]);
}

#[test]
fn clone_keeps_shape_matrix_and_offset() {
    let t = CanonicalTransformation::new(identity(2), 1)
        .with_offset(PhasePoint::new(vec![3.0], vec![4.0]));
    let c = t.clone();
    assert_eq!(c.dim(), 1);
    assert_eq!(c.matrix(), t.matrix());
    let off = c.offset().as_ref().unwrap();
    assert_eq!(off.q, vec![3.0]);
    assert_eq!(off.p, vec![4.0]);
}

fn mul(a: &[Vec<i64>], b: &[Vec<i64>]) -> Vec<Vec<i64>> {
    let n = a.len();
    (0..n)
        .map(|r| (0..n).map(|c| (0..n).map(|k| a[r][k] * b[k][c]).sum()).collect())
        .collect()
}

fn transpose(a: &[Vec<i64>]) -> Vec<Vec<i64>> {
    let n = a.len();
    (0..n).map(|r| (0..n).map(|c| a[c][r]).collect()).collect()
}

fn preserves_form(m: &[Vec<i64>], j: &[Vec<i64>]) -> bool {
    mul(&mul(&transpose(m), j), m) == j.to_vec()
}

#[test]
fn canonical_transformations_compose_and_invert() {
    let j: Vec<Vec<i64>> = lau_symplectic_agent::phase_space::SymplecticForm::canonical(1)
        .matrix()
        .iter()
        .map(|row| row.iter().map(|&e| e as i64).collect())
        .collect();
    let shear = vec![vec![1, 2], vec![0, 1]];
    let shear_inv = vec![vec![1, -2], vec![0, 1]];
    let other = vec![vec![1, 0], vec![3, 1]];
    assert!(preserves_form(&shear, &j));
    assert!(preserves_form(&other, &j));
    assert!(preserves_form(&mul(&shear, &other), &j));
    assert_eq!(mul(&shear, &shear_inv), vec![vec![1, 0], vec![0, 1]]);
    assert!(preserves_form(&shear_inv, &j));
}
