use lau_symplectic_agent::liouville::PhaseRegion;
use lau_symplectic_agent::phase_space::PhasePoint;

fn region_with_basis(k: usize) -> PhaseRegion<f64> {
    let center = PhasePoint::new(vec![0.0], vec![0.0]);
    let basis: Vec<Vec<f64>> = (0..k).map(|i| vec![i as f64, 1.0]).collect();
    PhaseRegion::new(center, basis)
}

#[test]
fn test_phase_region_vertices() {
    let center = PhasePoint::new(vec![0.0], vec![0.0]);
    let basis = vec![vec![1.0, 0.0]];
    let region = PhaseRegion::new(center, basis);
    let verts = region.vertex_selections();
    assert_eq!(verts.len(), 2); // 2^1 vertices
}

#[test]
fn region_dim_counts_basis_vectors() {
    let center = PhasePoint::new(vec![0.0], vec![0.0]);
    let basis = vec![vec![1.0, 0.0], vec![0.0, 1.0]];
    let region = PhaseRegion::new(center, basis);
    assert_eq!(region.region_dim(), 2);
}

#[test]
fn fits_checks_every_basis_vector_against_total_dimension() {
    let center = PhasePoint::new(vec![0.0, 0.0], vec![0.0, 0.0]);
    assert!(PhaseRegion::fits(&center, &vec![vec![1.0; 4], vec![2.0; 4]]));
    assert!(PhaseRegion::fits(&center, &Vec::new()));
    assert!(!PhaseRegion::fits(&center, &vec![vec![1.0; 4], vec![2.0; 3]]));
    assert!(!PhaseRegion::fits(&center, &vec![vec![1.0; 2]]));
}

#[test]
fn vertex_selections_of_a_point_region() {
    let region = region_with_basis(0);
    assert_eq!(region.vertex_selections(), vec![Vec::<bool>::new()]);
}

#[test]
fn vertex_selections_follow_the_bits_of_the_vertex_index() {
    let region = region_with_basis(2);
    assert_eq!(
        region.vertex_selections(),
        vec![
            vec![false, false],
            vec![true, false],
            vec![false, true],
            vec![true, true],
        ]
    );
}

#[test]
fn vertex_selections_are_all_distinct_subsets() {
    let region = region_with_basis(3);
    let sel = region.vertex_selections();
    assert_eq!(sel.len(), 8);
    for (m, s) in sel.iter().enumerate() {
        assert_eq!(s.len(), 3);
        for i in 0..3 {
            assert_eq!(s[i], (m >> i) & 1 == 1);
        }
    }
    for a in 0..8 {
        for b in 0..8 {
            if a != b {
                assert_ne!(sel[a], sel[b]);
            }
        }
    }
    // The first vertex is the centre: no basis vector selected.
    assert!(sel[0].iter().all(|&x| !x));
}
