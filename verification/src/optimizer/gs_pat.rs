//! Gerchberg-Saxton iteration with analytic acceleration.

use vstd::prelude::*;
use crate::targets::Targets;

verus! {

/// The state behind place `t` is what `step` makes of the state at place `t`.
pub open spec fn is_link<X, S: Fn(X) -> X>(step: &S, states: Seq<X>, t: int) -> bool {
    call_ensures(*step, (states[t],), states[t + 1])
}

/// Each state but the first is what `step` makes of the one before it.
pub open spec fn is_iteration<X, S: Fn(X) -> X>(step: &S, states: Seq<X>) -> bool {
    forall|t: int| 0 <= t < states.len() - 1 ==> #[trigger] is_link(step, states, t)
}

/// `step` returns one value for one argument.
pub open spec fn is_function<X, S: Fn(X) -> X>(step: &S) -> bool {
    forall|x: X, y: X, z: X|
        #[trigger] call_ensures(*step, (x,), y) && #[trigger] call_ensures(*step, (x,), z) ==> y
            == z
}

/// Where the step returns one value for one argument, the iteration is
/// repeatable: two iterations of one length from one state pass through the
/// same states, and so end in the same.
pub proof fn lemma_iteration_is_repeatable<X, S: Fn(X) -> X>(step: &S, a: Seq<X>, b: Seq<X>)
    requires
        is_function(step),
        is_iteration(step, a),
        is_iteration(step, b),
        a.len() == b.len(),
        a.len() >= 1,
        a[0] == b[0],
    ensures
        a == b,
{
    assert forall|t: int| 0 <= t < a.len() implies a[t] == b[t] by {
        lemma_iteration_agrees(step, a, b, t);
    }
    assert(a =~= b);
}

proof fn lemma_iteration_agrees<X, S: Fn(X) -> X>(step: &S, a: Seq<X>, b: Seq<X>, t: int)
    requires
        is_function(step),
        is_iteration(step, a),
        is_iteration(step, b),
        a.len() == b.len(),
        a[0] == b[0],
        0 <= t < a.len(),
    ensures
        a[t] == b[t],
    decreases t,
{
    if t > 0 {
        lemma_iteration_agrees(step, a, b, t - 1);
        assert(is_link(step, a, t - 1));
        assert(is_link(step, b, t - 1));
    }
}

/// The accelerated Gerchberg-Saxton optimizer: its targets and the number of
/// fixed-point iterations it runs.
pub struct GSPAT<V, F> {
    targets: Targets<V, F>,
    repeat: usize,
}

impl<V: Copy, F: Copy> GSPAT<V, F> {
    /// The targets.
    pub closed spec fn spec_targets(&self) -> Targets<V, F> {
        self.targets
    }

    /// The number of fixed-point iterations.
    pub closed spec fn spec_repeat(&self) -> usize {
        self.repeat
    }

    pub fn new(repeat: usize) -> (s: Self)
        ensures
            s.spec_repeat() == repeat,
            s.spec_targets().spec_foci() == Seq::<V>::empty(),
            s.spec_targets().spec_amps() == Seq::<F>::empty(),
    {
        Self { targets: Targets::new(), repeat }
    }

    /// Replaces the focus positions by a copy of `foci`.
    pub fn set_target_foci(&mut self, foci: &[V])
        ensures
            final(self).spec_targets().spec_foci() == foci@,
            final(self).spec_targets().spec_amps() == old(self).spec_targets().spec_amps(),
            final(self).spec_repeat() == old(self).spec_repeat(),
    {
        self.targets.set_foci(foci);
    }

    /// Replaces the target magnitudes by a copy of `amps`.
    pub fn set_target_amps(&mut self, amps: &[F])
        ensures
            final(self).spec_targets().spec_amps() == amps@,
            final(self).spec_targets().spec_foci() == old(self).spec_targets().spec_foci(),
            final(self).spec_repeat() == old(self).spec_repeat(),
    {
        self.targets.set_amps(amps);
    }

    /// Runs the fixed-point iteration: `step` is applied `repeat` times,
    /// first to `start` and then to what it returned.
    pub fn iterate<X, S: Fn(X) -> X>(&self, start: X, step: &S) -> (r: X)
        requires
            forall|x: X| call_requires(*step, (x,)),
        ensures
            exists|states: Seq<X>|
                states.len() == self.spec_repeat() + 1 && states[0] == start && states.last() == r
                    && #[trigger] is_iteration(step, states),
    {
        let mut state: X = start;
        let ghost mut states: Seq<X> = seq![start];
        let mut round: usize = 0;
        while round < self.repeat
            invariant
                forall|x: X| call_requires(*step, (x,)),
                round <= self.repeat,
                states.len() == round + 1,
                states[0] == start,
                states.last() == state,
                is_iteration(step, states),
            decreases self.repeat - round,
        {
            let ghost old_states = states;
            state = step(state);
            proof {
                states = states.push(state);
                assert forall|t: int| 0 <= t < states.len() - 1 implies #[trigger] is_link(
                    step,
                    states,
                    t,
                ) by {
                    if t < old_states.len() - 1 {
                        assert(is_link(step, old_states, t));
                    }
                }
            }
            round = round + 1;
        }
        state
    }

    /// The targets.
    pub fn targets(&self) -> (t: &Targets<V, F>)
        ensures
            *t == self.spec_targets(),
    {
        &self.targets
    }

    /// The number of fixed-point iterations.
    pub fn repeat(&self) -> (r: usize)
        ensures
            r == self.spec_repeat(),
    {
        self.repeat
    }
}

} // verus!
