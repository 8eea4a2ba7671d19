//! Integrator bookkeeping: the two variants of the symplectic Euler step,
//! and the drivers that run an integrator's step map a given number of
//! times, with or without recording the trajectory.  The step maps
//! themselves are numerical and are handed in by the caller.

use vstd::prelude::*;

verus! {

/// Which half of a symplectic Euler step comes first.
#[derive(Debug, Clone, Copy)]
pub enum SymplecticEulerVariant {
    /// Update positions with ∂H/∂p first, then momenta at the new positions.
    PositionFirst,
    /// Update momenta with ∂H/∂q first, then positions with the new momenta.
    MomentumFirst,
}

/// Each state in `states` is what `step` returns for the one before it.
pub open spec fn is_step_chain<S, F: Fn(&S) -> S>(step: F, states: Seq<S>) -> bool {
    forall|i: int, j: int|
        #![trigger states[i], states[j]]
        0 <= i && j == i + 1 && j < states.len() ==> call_ensures(step, (&states[i],), states[j])
}

/// Runs `step` `n_steps` times from `initial` and returns every state
/// visited: `n_steps + 1` states, the first being `initial` and each
/// further one the step of the one before.
pub fn record_trajectory<S, F: Fn(&S) -> S>(initial: S, step: F, n_steps: usize) -> (states: Vec<
    S,
>)
    requires
        forall|s: &S| call_requires(step, (s,)),
    ensures
        states@.len() == n_steps + 1,
        states@[0] == initial,
        is_step_chain(step, states@),
{
    let ghost first = initial;
    let mut states: Vec<S> = Vec::new();
    let mut state = initial;
    for i in 0..n_steps
        invariant
            forall|s: &S| call_requires(step, (s,)),
            states@.len() == i,
            states@.push(state)[0] == first,
            is_step_chain(step, states@.push(state)),
    {
        let next = step(&state);
        let ghost before = states@.push(state);
        states.push(state);
        state = next;
        assert forall|a: int, b: int|
            #![trigger states@.push(state)[a], states@.push(state)[b]]
            0 <= a && b == a + 1 && b < states@.push(state).len() implies call_ensures(
            step,
            (&states@.push(state)[a],),
            states@.push(state)[b],
        ) by {
            if b < before.len() {
                assert(states@.push(state)[a] == before[a]);
                assert(states@.push(state)[b] == before[b]);
            }
        }
    }
    states.push(state);
    states
}

/// `last` is where `n_steps` steps of `step` from `initial` can end: the
/// end of a chain of `n_steps + 1` states that starts at `initial`, each
/// further state being the step of the one before.
pub open spec fn is_run<S, F: Fn(&S) -> S>(step: F, initial: S, n_steps: nat, last: S) -> bool {
    exists|states: Seq<S>|
        #[trigger] is_step_chain(step, states) && states.len() == n_steps + 1 && states[0]
            == initial && states.last() == last
}

/// Runs `step` `n_steps` times from `initial` and returns the last state.
pub fn iterate_steps<S, F: Fn(&S) -> S>(initial: S, step: F, n_steps: usize) -> (last: S)
    requires
        forall|s: &S| call_requires(step, (s,)),
    ensures
        is_run(step, initial, n_steps as nat, last),
{
    let ghost mut chain: Seq<S> = seq![initial];
    let mut state = initial;
    for i in 0..n_steps
        invariant
            forall|s: &S| call_requires(step, (s,)),
            chain.len() == i + 1,
            chain[0] == initial,
            chain.last() == state,
            is_step_chain(step, chain),
    {
        let next = step(&state);
        let ghost before = chain;
        proof {
            chain = chain.push(next);
        }
        assert forall|a: int, b: int|
            #![trigger chain[a], chain[b]]
            0 <= a && b == a + 1 && b < chain.len() implies call_ensures(
            step,
            (&chain[a],),
            chain[b],
        ) by {
            if b < before.len() {
                assert(chain[a] == before[a]);
                assert(chain[b] == before[b]);
            }
        }
        state = next;
    }
    assert(is_step_chain(step, chain));
    state
}

/// `g` applied `n` times to `s`.
pub open spec fn iterate_map<S>(g: spec_fn(S) -> S, s: S, n: nat) -> S
    decreases n,
{
    if n == 0 {
        s
    } else {
        g(iterate_map(g, s, (n - 1) as nat))
    }
}

/// Seen through `view`, `step` is the function `g`: whatever it returns
/// for `s` has the view `g(view(s))`.  With the identity as `view` this
/// says that `step` computes `g`; for states held in vectors, `view` can be
/// the vectors' contents.
pub open spec fn steps_as<S, V, F: Fn(&S) -> S>(step: F, view: spec_fn(S) -> V, g: spec_fn(V) -> V) -> bool {
    forall|s: S, r: S| #[trigger] call_ensures(step, (&s,), r) ==> view(r) == g(view(s))
}

/// When the step map is (seen through `view`) a function `g`, a chain of
/// steps is the orbit of its first state under `g`: the view of state `i`
/// is `g` applied `i` times to the view of the first.
pub proof fn lemma_chain_is_orbit<S, V, F: Fn(&S) -> S>(
    step: F,
    view: spec_fn(S) -> V,
    g: spec_fn(V) -> V,
    states: Seq<S>,
)
    requires
        steps_as(step, view, g),
        is_step_chain(step, states),
        states.len() > 0,
    ensures
        forall|i: int|
            0 <= i < states.len() ==> view(#[trigger] states[i]) == iterate_map(
                g,
                view(states[0]),
                i as nat,
            ),
{
    assert forall|i: int| 0 <= i < states.len() implies view(#[trigger] states[i]) == iterate_map(
        g,
        view(states[0]),
        i as nat,
    ) by {
        lemma_chain_prefix_is_orbit(step, view, g, states, i);
    }
}

proof fn lemma_chain_prefix_is_orbit<S, V, F: Fn(&S) -> S>(
    step: F,
    view: spec_fn(S) -> V,
    g: spec_fn(V) -> V,
    states: Seq<S>,
    i: int,
)
    requires
        steps_as(step, view, g),
        is_step_chain(step, states),
        0 <= i < states.len(),
    ensures
        view(states[i]) == iterate_map(g, view(states[0]), i as nat),
    decreases i,
{
    if i > 0 {
        lemma_chain_prefix_is_orbit(step, view, g, states, i - 1);
        let prev = states[i - 1];
        let cur = states[i];
        assert(call_ensures(step, (&prev,), cur));
    }
}

/// When the step map is (seen through `view`) a function `g`, running it
/// `n` steps from `initial` ends at a state whose view is `g` applied `n`
/// times to the view of `initial`.
pub proof fn lemma_run_is_orbit<S, V, F: Fn(&S) -> S>(
    step: F,
    view: spec_fn(S) -> V,
    g: spec_fn(V) -> V,
    initial: S,
    n_steps: nat,
    last: S,
)
    requires
        steps_as(step, view, g),
        is_run(step, initial, n_steps, last),
    ensures
        view(last) == iterate_map(g, view(initial), n_steps),
{
    let states = choose|states: Seq<S>|
        #[trigger] is_step_chain(step, states) && states.len() == n_steps + 1 && states[0]
            == initial && states.last() == last;
    lemma_chain_is_orbit(step, view, g, states);
    assert(view(states[n_steps as int]) == iterate_map(g, view(initial), n_steps));
}

/// When the step map is (seen through `view`) a function, a run of n steps
/// ends where any chain of n + 1 states from a state with the same view
/// ends: what `iterate_steps(initial, step, n)` returns has the view of the
/// last state of `record_trajectory(initial, step, n)`.
pub proof fn lemma_run_ends_trajectory<S, V, F: Fn(&S) -> S>(
    step: F,
    view: spec_fn(S) -> V,
    g: spec_fn(V) -> V,
    states: Seq<S>,
    initial: S,
    last: S,
)
    requires
        steps_as(step, view, g),
        is_step_chain(step, states),
        states.len() > 0,
        view(states[0]) == view(initial),
        is_run(step, initial, (states.len() - 1) as nat, last),
    ensures
        view(last) == view(states.last()),
{
    lemma_chain_is_orbit(step, view, g, states);
    lemma_run_is_orbit(step, view, g, initial, (states.len() - 1) as nat, last);
}

} // verus!
