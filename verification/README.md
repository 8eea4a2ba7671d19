# lau_symplectic_agent

Agents modelled as Hamiltonian systems on a symplectic phase space:
positions q are beliefs, momenta p are action tendencies, and decisions are
canonical transformations that preserve the symplectic form ω.

Layout:

- `src/` — the verified library (Verus). It holds the structure of the
  model, with coordinates generic over their number type:
  - `phase_space`: phase points and their flat `[q; p]` layout, the
    canonical matrix J = [[0, I], [-I, 0]] (exact integer entries) and its
    laws (J^T = -J, J J = -I, J^T J J = J, I^T J I = J);
  - `liouville`: regions of phase space and the enumeration of the
    vertices of their parallelepiped, one per subset of the basis;
  - `integrator`: the symplectic Euler variants and the drivers that run
    an integrator's step map with or without recording the trajectory;
  - `poisson`: the shape of a multi-agent system;
  - `decision`: the shape of a canonical transformation (a type
    invariant) and the group laws of form-preserving matrices: products
    and inverses of matrices with M^T J M = J again satisfy it.
- `app/` — the floating-point layer on top of it (Hamiltonians, the
  Störmer-Verlet, implicit-midpoint and symplectic Euler steps, volumes,
  Poisson brackets, application and inversion of transformations), using
  `nalgebra` and `serde`.
- `tests/` — tests of the library on concrete values.
