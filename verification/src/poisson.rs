//! Multi-agent systems: agents of one common dimension with a square matrix
//! of pairwise coupling strengths.  Energies, brackets and centres of mass
//! are numerical and are computed over this shape.

use vstd::prelude::*;
use crate::phase_space::PhasePoint;

verus! {

/// The agents and coupling matrix describe a system: at least one agent,
/// every agent with the first agent's number of positions, and an
/// n x n coupling matrix for n agents.
pub open spec fn is_valid_system<T>(agents: Seq<PhasePoint<T>>, coupling: Seq<Vec<T>>) -> bool {
    &&& agents.len() > 0
    &&& forall|i: int|
        0 <= i < agents.len() ==> (#[trigger] agents[i]).q@.len() == agents[0].q@.len()
    &&& coupling.len() == agents.len()
    &&& forall|i: int| 0 <= i < coupling.len() ==> (#[trigger] coupling[i])@.len() == agents.len()
}

/// A multi-agent system with pairwise couplings.
#[derive(Debug, Clone)]
pub struct MultiAgentSystem<T> {
    /// Individual agent states.
    pub agents: Vec<PhasePoint<T>>,
    /// Coupling matrix (agents x agents).
    pub coupling_matrix: Vec<Vec<T>>,
    /// Degrees of freedom of each agent.
    pub dim: usize,
}

impl<T> MultiAgentSystem<T> {
    /// Whether `agents` and `coupling_matrix` form a system: see
    /// `is_valid_system`.
    pub fn accepts(agents: &Vec<PhasePoint<T>>, coupling_matrix: &Vec<Vec<T>>) -> (ok: bool)
        ensures
            ok == is_valid_system(agents@, coupling_matrix@),
            // Accepted: some agents, all of one number of positions, and a
            // square coupling matrix with one row and column per agent.
            ok ==> agents@.len() > 0,
            ok ==> forall|i: int, j: int|
                0 <= i < agents@.len() && 0 <= j < agents@.len() ==> (#[trigger] agents@[i]).q@.len()
                    == (#[trigger] agents@[j]).q@.len(),
            ok ==> coupling_matrix@.len() == agents@.len(),
            ok ==> forall|r: int|
                0 <= r < coupling_matrix@.len() ==> (#[trigger] coupling_matrix@[r])@.len()
                    == agents@.len(),
            // Rejected: one of those fails.
            !ok ==> agents@.len() == 0 || coupling_matrix@.len() != agents@.len() || (exists|i: int|
                0 <= i < agents@.len() && (#[trigger] agents@[i]).q@.len() != agents@[0].q@.len())
                || (exists|r: int|
                0 <= r < coupling_matrix@.len() && (#[trigger] coupling_matrix@[r])@.len()
                    != agents@.len()),
    {
        proof {
            lemma_valid_system_shape(agents@, coupling_matrix@);
        }
        if agents.len() == 0 {
            return false;
        }
        let dim = agents[0].q.len();
        let n = agents.len();
        let mut i: usize = 0;
        while i < n
            invariant
                n == agents@.len(),
                n > 0,
                dim == agents@[0].q@.len(),
                i <= n,
                forall|j: int| 0 <= j < i ==> (#[trigger] agents@[j]).q@.len() == dim,
            decreases n - i,
        {
            if agents[i].q.len() != dim {
                return false;
            }
            i = i + 1;
        }
        if coupling_matrix.len() != n {
            return false;
        }
        let mut r: usize = 0;
        while r < n
            invariant
                n == agents@.len(),
                n == coupling_matrix@.len(),
                r <= n,
                forall|j: int| 0 <= j < r ==> (#[trigger] coupling_matrix@[j])@.len() == n,
            decreases n - r,
        {
            if coupling_matrix[r].len() != n {
                return false;
            }
            r = r + 1;
        }
        true
    }

    /// The system of `agents` coupled by `coupling_matrix`; its dimension is
    /// that of the first agent.
    pub fn new(agents: Vec<PhasePoint<T>>, coupling_matrix: Vec<Vec<T>>) -> (sys: Self)
        requires
            is_valid_system(agents@, coupling_matrix@),
        ensures
            sys.agents@ == agents@,
            sys.coupling_matrix@ == coupling_matrix@,
            sys.dim == agents@[0].q@.len(),
            forall|i: int| 0 <= i < sys.agents@.len() ==> (#[trigger] sys.agents@[i]).q@.len() == sys.dim,
            sys.coupling_matrix@.len() == sys.agents@.len(),
            forall|r: int|
                0 <= r < sys.coupling_matrix@.len() ==> (#[trigger] sys.coupling_matrix@[r])@.len()
                    == sys.agents@.len(),
    {
        let dim = agents[0].q.len();
        MultiAgentSystem { agents, coupling_matrix, dim }
    }

    /// Number of agents.
    pub fn n_agents(&self) -> (n: usize)
        ensures
            n == self.agents@.len(),
    {
        self.agents.len()
    }
}

/// A system is valid exactly when there is at least one agent, any two
/// agents have the same number of positions, and the coupling matrix has
/// one row per agent and one entry per agent in each row.
pub proof fn lemma_valid_system_shape<T>(agents: Seq<PhasePoint<T>>, coupling: Seq<Vec<T>>)
    ensures
        is_valid_system(agents, coupling) <==> {
            &&& agents.len() > 0
            &&& forall|i: int, j: int|
                0 <= i < agents.len() && 0 <= j < agents.len() ==> (#[trigger] agents[i]).q@.len()
                    == (#[trigger] agents[j]).q@.len()
            &&& coupling.len() == agents.len()
            &&& forall|r: int| 0 <= r < coupling.len() ==> (#[trigger] coupling[r])@.len() == agents.len()
        },
{
    if agents.len() > 0 && (forall|i: int, j: int|
        0 <= i < agents.len() && 0 <= j < agents.len() ==> (#[trigger] agents[i]).q@.len()
            == (#[trigger] agents[j]).q@.len()) {
        assert forall|i: int| 0 <= i < agents.len() implies (#[trigger] agents[i]).q@.len()
            == agents[0].q@.len() by {
            assert(agents[i].q@.len() == agents[0].q@.len());
        }
    }
}

} // verus!
