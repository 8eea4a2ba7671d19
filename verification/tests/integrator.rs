use lau_symplectic_agent::integrator::{iterate_steps, record_trajectory, SymplecticEulerVariant};
use lau_symplectic_agent::phase_space::PhasePoint;

#[test]
fn trajectory_has_one_more_state_than_steps() {
    let traj = record_trajectory(0i64, |x: &i64| x + 3, 628);
    assert_eq!(traj.len(), 629);
    assert_eq!(traj[0], 0);
    for i in 0..628 {
        assert_eq!(traj[i + 1], traj[i] + 3);
    }
}

#[test]
fn trajectory_of_zero_steps_is_the_initial_state() {
    let traj = record_trajectory(String::from("start"), |s: &String| format!("{}!", s), 0);
    assert_eq!(traj, vec![String::from("start")]);
}

#[test]
fn iterate_steps_returns_last_state() {
    let last = iterate_steps(1u64, |x: &u64| x * 2, 10);
    assert_eq!(last, 1024);
    let same = iterate_steps(7u64, |x: &u64| x * 2, 0);
    assert_eq!(same, 7);
}

#[test]
fn iterate_steps_matches_end_of_trajectory() {
    let step = |pt: &PhasePoint<f64>| {
        // One symplectic Euler step (momentum first) of the unit oscillator.
        let dt = 0.1;
        let p: Vec<f64> = pt.p.iter().zip(pt.q.iter()).map(|(p, q)| p - dt * q).collect();
        let q: Vec<f64> = pt.q.iter().zip(p.iter()).map(|(q, p)| q + dt * p).collect();
        PhasePoint::new(q, p)
    };
    let initial = PhasePoint::new(vec![1.0], vec![0.0]);
    let traj = record_trajectory(initial.clone(), step, 50);
    let last = iterate_steps(initial, step, 50);
    assert_eq!(traj.len(), 51);
    assert_eq!(traj[50].q, last.q);
    assert_eq!(traj[50].p, last.p);
}

#[test]
fn symplectic_euler_variants_are_copies() {
    let v = SymplecticEulerVariant::PositionFirst;
    let w = v;
    assert!(matches!(v, SymplecticEulerVariant::PositionFirst));
    assert!(matches!(w, SymplecticEulerVariant::PositionFirst));
    assert!(matches!(
        SymplecticEulerVariant::MomentumFirst.clone(),
        SymplecticEulerVariant::MomentumFirst
    ));
    assert_eq!(format!("{:?}", SymplecticEulerVariant::MomentumFirst), "MomentumFirst");
}
