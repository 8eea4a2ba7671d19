use lau_symplectic_agent::phase_space::{PhasePoint, PhaseSpace, SymplecticForm};

fn norm(v: &[f64]) -> f64 {
    v.iter().map(|x| x * x).sum::<f64>().sqrt()
}

fn diff_norm(a: &[f64], b: &[f64]) -> f64 {
    assert_eq!(a.len(), b.len());
    a.iter().zip(b.iter()).map(|(x, y)| (x - y) * (x - y)).sum::<f64>().sqrt()
}

fn entries(form: &SymplecticForm) -> Vec<Vec<i64>> {
    form.matrix()
        .iter()
        .map(|row| row.iter().map(|&e| e as i64).collect())
        .collect()
}

fn mul(a: &[Vec<i64>], b: &[Vec<i64>]) -> Vec<Vec<i64>> {
    let n = a.len();
    let mut out = vec![vec![0i64; n]; n];
    for r in 0..n {
        for c in 0..n {
            for k in 0..n {
                out[r][c] += a[r][k] * b[k][c];
            }
        }
    }
    out
}

fn transpose(a: &[Vec<i64>]) -> Vec<Vec<i64>> {
    let n = a.len();
    let mut out = vec![vec![0i64; n]; n];
    for r in 0..n {
        for c in 0..n {
            out[c][r] = a[r][c];
        }
    }
    out
}

#[test]
fn test_phase_point_creation() {
    let q = vec![1.0, 2.0, 3.0];
    let p = vec![4.0, 5.0, 6.0];
    let pt = PhasePoint::new(q, p);
    assert_eq!(pt.dim(), 3);
    assert_eq!(pt.total_dim(), 6);
}

#[test]
fn test_phase_point_zeros() {
    let pt: PhasePoint<f64> = PhasePoint::zeros(4);
    assert_eq!(pt.dim(), 4);
    assert_eq!(norm(&pt.q), 0.0);
    assert_eq!(norm(&pt.p), 0.0);
}

#[test]
fn test_phase_point_vector_roundtrip() {
    let q = vec![1.0, 2.0];
    let p = vec![3.0, 4.0];
    let pt = PhasePoint::new(q.clone(), p.clone());
    let v = pt.to_vector();
    assert_eq!(v.len(), 4);
    let pt2 = PhasePoint::from_vector(&v, 2);
    assert!(diff_norm(&pt2.q, &q) < 1e-10);
    assert!(diff_norm(&pt2.p, &p) < 1e-10);
}

#[test]
fn test_symplectic_form_canonical() {
    let omega = SymplecticForm::canonical(2);
    let mat = entries(&omega);
    assert_eq!(mat.len(), 4);
    assert!(mat.iter().all(|row| row.len() == 4));
    // J should be antisymmetric
    let t = transpose(&mat);
    for r in 0..4 {
        for c in 0..4 {
            assert_eq!(mat[r][c] + t[r][c], 0);
        }
    }
    // J^2 = -I
    let j2 = mul(&mat, &mat);
    for r in 0..4 {
        for c in 0..4 {
            assert_eq!(j2[r][c], if r == c { -1 } else { 0 });
        }
    }
}

#[test]
fn test_phase_space_creation() {
    let ps = PhaseSpace::new(3);
    assert_eq!(ps.dim, 3);
    let origin: PhasePoint<f64> = ps.origin();
    assert_eq!(origin.dim(), 3);
}

#[test]
fn canonical_form_entries_for_one_degree_of_freedom() {
    let omega = SymplecticForm::canonical(1);
    assert_eq!(omega.dim(), 1);
    assert_eq!(entries(&omega), vec![vec![0, 1], vec![-1, 0]]);
}

#[test]
fn canonical_form_entries_for_two_degrees_of_freedom() {
    let omega = SymplecticForm::canonical(2);
    assert_eq!(
        entries(&omega),
        vec![
            vec![0, 0, 1, 0],
            vec![0, 0, 0, 1],
            vec![-1, 0, 0, 0],
            vec![0, -1, 0, 0],
        ]
    );
}

#[test]
fn canonical_form_of_no_degrees_of_freedom_is_empty() {
    let omega = SymplecticForm::canonical(0);
    assert_eq!(omega.dim(), 0);
    assert!(omega.matrix().is_empty());
}

#[test]
fn canonical_form_is_symplectic_and_squares_to_minus_identity() {
    for n in 0..5 {
        let j = entries(&SymplecticForm::canonical(n));
        let size = 2 * n;
        let id: Vec<Vec<i64>> = (0..size)
            .map(|r| (0..size).map(|c| if r == c { 1 } else { 0 }).collect())
            .collect();
        let minus_id: Vec<Vec<i64>> = id.iter().map(|row| row.iter().map(|x| -x).collect()).collect();
        assert_eq!(mul(&j, &j), minus_id);
        assert_eq!(transpose(&j), minus_id.iter().zip(j.iter()).map(|(_, row)| row.iter().map(|x| -x).collect()).collect::<Vec<Vec<i64>>>());
        assert_eq!(mul(&mul(&transpose(&j), &j), &j), j);
        assert_eq!(mul(&mul(&transpose(&id), &j), &id), j);
    }
}

#[test]
fn symplectic_form_clone_keeps_dimension_and_entries() {
    let omega = SymplecticForm::canonical(3);
    let copy = omega.clone();
    assert_eq!(copy.dim(), 3);
    assert_eq!(entries(&copy), entries(&omega));
}

#[test]
fn phase_space_form_matches_its_dimension() {
    let ps = PhaseSpace::new(2);
    assert_eq!(ps.omega.dim(), 2);
    assert_eq!(entries(&ps.omega), entries(&SymplecticForm::canonical(2)));
}

#[test]
fn to_vector_puts_positions_before_momenta() {
    let pt = PhasePoint::new(vec![1, 2, 3], vec![4, 5, 6]);
    assert_eq!(pt.to_vector(), vec![1, 2, 3, 4, 5, 6]);
}

#[test]
fn from_vector_reads_only_the_first_two_blocks() {
    let v = vec![10, 20, 30, 40, 50];
    let pt = PhasePoint::from_vector(&v, 2);
    assert_eq!(pt.q, vec![10, 20]);
    assert_eq!(pt.p, vec![30, 40]);
    let empty = PhasePoint::from_vector(&v, 0);
    assert!(empty.q.is_empty() && empty.p.is_empty());
}

#[test]
fn split_then_flatten_gives_the_vector_back() {
    let v = vec![0.5, -1.5, 2.25, 7.0, -3.0, 9.5];
    let pt = PhasePoint::from_vector(&v, 3);
    assert_eq!(pt.to_vector(), v);
    assert_eq!(pt.total_dim(), v.len());
}

#[test]
fn zeros_of_dimension_zero() {
    let pt: PhasePoint<i32> = PhasePoint::zeros(0);
    assert_eq!(pt.dim(), 0);
    assert_eq!(pt.total_dim(), 0);
    assert!(pt.to_vector().is_empty());
}

#[test]
fn zeros_are_zero_for_integers() {
    let pt: PhasePoint<i64> = PhasePoint::zeros(3);
    assert_eq!(pt.q, vec![0, 0, 0]);
    assert_eq!(pt.p, vec![0, 0, 0]);
}
