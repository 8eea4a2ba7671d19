use lau_symplectic_agent::phase_space::PhasePoint;
use lau_symplectic_agent::poisson::MultiAgentSystem;

#[test]
fn test_multi_agent_system() {
    let agents = vec![
        PhasePoint::new(vec![1.0], vec![0.0]),
        PhasePoint::new(vec![0.0], vec![1.0]),
    ];
    let coupling = vec![vec![0.0, 0.5], vec![0.5, 0.0]];
    let system = MultiAgentSystem::new(agents, coupling);
    assert_eq!(system.n_agents(), 2);
}

#[test]
fn multi_agent_system_takes_dimension_of_first_agent() {
    let agents = vec![
        PhasePoint::new(vec![1.0, 2.0, 3.0], vec![0.0, 0.0, 0.0]),
        PhasePoint::new(vec![4.0, 5.0, 6.0], vec![1.0, 1.0, 1.0]),
        PhasePoint::new(vec![7.0, 8.0, 9.0], vec![2.0, 2.0, 2.0]),
    ];
    let coupling = vec![vec![0.0; 3]; 3];
    assert!(MultiAgentSystem::accepts(&agents, &coupling));
    let system = MultiAgentSystem::new(agents, coupling);
    assert_eq!(system.dim, 3);
    assert_eq!(system.n_agents(), 3);
}

#[test]
fn accepts_rejects_malformed_systems() {
    let one = || PhasePoint::new(vec![1.0], vec![0.0]);
    let two = || PhasePoint::new(vec![1.0, 2.0], vec![0.0, 0.0]);
    // No agents.
    assert!(!MultiAgentSystem::<f64>::accepts(&Vec::new(), &Vec::new()));
    // Agents of different dimensions.
    assert!(!MultiAgentSystem::accepts(&vec![one(), two()], &vec![vec![0.0; 2]; 2]));
    // Coupling matrix with the wrong number of rows.
    assert!(!MultiAgentSystem::accepts(&vec![one(), one()], &vec![vec![0.0; 2]; 3]));
    // Coupling matrix with a short row.
    assert!(!MultiAgentSystem::accepts(&vec![one(), one()], &vec![vec![0.0; 2], vec![0.0]]));
    // A well-formed single agent.
    assert!(MultiAgentSystem::accepts(&vec![one()], &vec![vec![0.0]]));
}
