//! # lau_symplectic_agent
//!
//! Agents as Hamiltonian systems: positions q are beliefs, momenta p are
//! action tendencies, and decisions are canonical transformations that
//! preserve the symplectic form ω.
//!
//! This crate holds the verified structure of that model: phase points and
//! their flat [q; p] layout, the canonical symplectic matrix
//! J = [[0, I], [-I, 0]] with its algebraic laws, the vertices of
//! phase-space regions, the shape of multi-agent systems and of canonical
//! transformations, and the drivers that iterate an integrator's step map.
//! Coordinates are generic, so the same structure carries any kind of
//! number.

pub mod decision;
pub mod integrator;
pub mod liouville;
pub mod phase_space;
pub mod poisson;

pub use decision::CanonicalTransformation;
pub use integrator::{iterate_steps, record_trajectory, SymplecticEulerVariant};
pub use liouville::PhaseRegion;
pub use phase_space::{PhasePoint, PhaseSpace, SymplecticForm};
pub use poisson::MultiAgentSystem;
