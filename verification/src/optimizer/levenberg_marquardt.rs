//! Levenberg-Marquardt on the phases.
//!
//! The numeric work of a step (the damped solve, the gain ratio) is done
//! outside; what is decided here is when the iteration goes on and when it
//! ends, and how often the damping has been raised in a row.

use vstd::prelude::*;
use crate::targets::Targets;

verus! {

/// What one step of the iteration came to.
#[derive(PartialEq, Eq, Structural, Copy, Clone, Debug)]
pub enum StepOutcome {
    /// The damped system could not be solved.
    SolveFailed,
    /// The step was so short that the iterate is taken as final.
    SmallStep,
    /// The step lowered the objective and was taken; `converged` says whether
    /// the gradient at the new iterate is within tolerance.
    Accepted { converged: bool },
    /// The step did not lower the objective and was dropped.
    Rejected,
}

/// Where the iteration stands.
#[derive(Copy, Clone, Debug)]
pub struct Progress {
    limit: usize,
    taken: usize,
    rejections: usize,
    found: bool,
}

impl Progress {
    #[verifier::type_invariant]
    spec fn well_formed(&self) -> bool {
        self.rejections <= self.taken <= self.limit
    }

    /// The largest number of steps.
    pub closed spec fn spec_limit(&self) -> usize {
        self.limit
    }

    /// The number of steps made so far.
    pub closed spec fn spec_taken(&self) -> usize {
        self.taken
    }

    /// The number of steps rejected in a row up to now. The damping is raised
    /// by a factor that doubles with each of them, starting from 2.
    pub closed spec fn spec_rejections(&self) -> usize {
        self.rejections
    }

    /// Whether the iteration has come to its end before the limit.
    pub closed spec fn spec_found(&self) -> bool {
        self.found
    }

    /// Whether another step is to be made.
    pub open spec fn spec_active(&self) -> bool {
        !self.spec_found() && self.spec_taken() < self.spec_limit()
    }

    /// The state after a step with the given outcome.
    pub open spec fn follows(&self, before: &Progress, outcome: StepOutcome) -> bool {
        &&& self.spec_limit() == before.spec_limit()
        &&& self.spec_taken() == before.spec_taken() + 1
        &&& self.spec_found() == match outcome {
            StepOutcome::SolveFailed => true,
            StepOutcome::SmallStep => true,
            StepOutcome::Accepted { converged } => converged,
            StepOutcome::Rejected => false,
        }
        &&& self.spec_rejections() == match outcome {
            StepOutcome::Rejected => before.spec_rejections() + 1,
            StepOutcome::Accepted { converged } => 0,
            _ => before.spec_rejections() as int,
        }
    }

    /// Two marks that agree in limit, steps, rejections and end are one.
    pub proof fn lemma_same(&self, other: &Progress)
        requires
            self.spec_limit() == other.spec_limit(),
            self.spec_taken() == other.spec_taken(),
            self.spec_rejections() == other.spec_rejections(),
            self.spec_found() == other.spec_found(),
        ensures
            *self == *other,
    {
    }

    /// The state before the first step: `converged` says whether the gradient
    /// at the first iterate is within tolerance already.
    pub fn begin(limit: usize, converged: bool) -> (p: Self)
        ensures
            p.spec_limit() == limit,
            p.spec_taken() == 0,
            p.spec_rejections() == 0,
            p.spec_found() == converged,
    {
        Self { limit, taken: 0, rejections: 0, found: converged }
    }

    /// Whether another step is to be made: the end has not been found and the
    /// limit is not reached.
    pub fn active(&self) -> (b: bool)
        ensures
            b == self.spec_active(),
    {
        !self.found && self.taken < self.limit
    }

    /// Records the outcome of one step.
    pub fn advance(&mut self, outcome: StepOutcome)
        requires
            old(self).spec_active(),
        ensures
            final(self).follows(old(self), outcome),
    {
        proof {
            use_type_invariant(&*self);
        }
        let rejections: usize = match outcome {
            StepOutcome::Rejected => self.rejections + 1,
            StepOutcome::Accepted { converged } => 0,
            _ => self.rejections,
        };
        let found: bool = match outcome {
            StepOutcome::SolveFailed => true,
            StepOutcome::SmallStep => true,
            StepOutcome::Accepted { converged } => converged,
            StepOutcome::Rejected => false,
        };
        *self = Self { limit: self.limit, taken: self.taken + 1, rejections, found };
    }

    /// The largest number of steps.
    pub fn limit(&self) -> (r: usize)
        ensures
            r == self.spec_limit(),
    {
        self.limit
    }

    /// The number of steps made so far. It never passes the limit.
    pub fn taken(&self) -> (r: usize)
        ensures
            r == self.spec_taken(),
            r <= self.spec_limit(),
    {
        proof {
            use_type_invariant(self);
        }
        self.taken
    }

    /// The number of steps rejected in a row up to now.
    pub fn rejections(&self) -> (r: usize)
        ensures
            r == self.spec_rejections(),
            r <= self.spec_taken(),
    {
        proof {
            use_type_invariant(self);
        }
        self.rejections
    }

    /// Whether the iteration has come to its end before the limit.
    pub fn found(&self) -> (b: bool)
        ensures
            b == self.spec_found(),
    {
        self.found
    }
}

/// One step of a run: the iteration is active at `mark`, `step` is asked with
/// the state and the number of rejections in a row, and what it returns
/// leads to `next_state` and `next_mark`.
pub open spec fn is_lm_step<X, S: Fn(X, usize) -> (StepOutcome, X)>(
    step: &S,
    state: X,
    mark: Progress,
    next_state: X,
    next_mark: Progress,
) -> bool {
    mark.spec_active() && exists|outcome: StepOutcome|
        call_ensures(*step, (state, mark.spec_rejections()), (outcome, next_state))
            && #[trigger] next_mark.follows(&mark, outcome)
}

/// The step at place `t` of a run leads from the state and mark at `t` to
/// those behind them.
pub open spec fn is_lm_link<X, S: Fn(X, usize) -> (StepOutcome, X)>(
    step: &S,
    states: Seq<X>,
    marks: Seq<Progress>,
    t: int,
) -> bool {
    is_lm_step(step, states[t], marks[t], states[t + 1], marks[t + 1])
}

/// A whole run: it begins with no step made, every step leads from one state
/// and mark to the next, and it ends at the first mark that is not active.
pub open spec fn is_run<X, S: Fn(X, usize) -> (StepOutcome, X)>(
    step: &S,
    limit: usize,
    converged: bool,
    states: Seq<X>,
    marks: Seq<Progress>,
) -> bool {
    &&& marks.len() >= 1
    &&& states.len() == marks.len()
    &&& marks[0].spec_limit() == limit
    &&& marks[0].spec_taken() == 0
    &&& marks[0].spec_rejections() == 0
    &&& marks[0].spec_found() == converged
    &&& forall|t: int| 0 <= t < marks.len() - 1 ==> #[trigger] is_lm_link(step, states, marks, t)
    &&& !marks.last().spec_active()
}

/// A run makes as many steps as it has marks behind the first, and never
/// more than the limit.
pub proof fn lemma_run_is_bounded<X, S: Fn(X, usize) -> (StepOutcome, X)>(
    step: &S,
    limit: usize,
    converged: bool,
    states: Seq<X>,
    marks: Seq<Progress>,
    t: int,
)
    requires
        is_run(step, limit, converged, states, marks),
        0 <= t < marks.len(),
    ensures
        marks[t].spec_limit() == limit,
        marks[t].spec_taken() == t,
        t >= 1 ==> t <= limit,
        t >= 1 ==> marks[t - 1].spec_active(),
    decreases t,
{
    if t >= 1 {
        lemma_run_is_bounded(step, limit, converged, states, marks, t - 1);
        assert(is_lm_link(step, states, marks, t - 1));
    }
}

/// `step` returns one outcome and one state for one state and one count of rejections.
pub open spec fn is_lm_function<X, S: Fn(X, usize) -> (StepOutcome, X)>(step: &S) -> bool {
    forall|x: X, k: usize, y: (StepOutcome, X), z: (StepOutcome, X)|
        #[trigger] call_ensures(*step, (x, k), y) && #[trigger] call_ensures(*step, (x, k), z) ==> y
            == z
}

/// Where the step returns one result for one argument, the run is
/// repeatable: two runs with one limit from one state pass through the same
/// states and marks, and so end in the same.
pub proof fn lemma_run_is_repeatable<X, S: Fn(X, usize) -> (StepOutcome, X)>(
    step: &S,
    limit: usize,
    converged: bool,
    a: Seq<X>,
    am: Seq<Progress>,
    b: Seq<X>,
    bm: Seq<Progress>,
)
    requires
        is_lm_function(step),
        is_run(step, limit, converged, a, am),
        is_run(step, limit, converged, b, bm),
        a[0] == b[0],
    ensures
        a == b,
        am == bm,
{
    if am.len() < bm.len() {
        let last: int = am.len() - 1;
        lemma_run_agrees(step, limit, converged, a, am, b, bm, last);
        assert(is_lm_link(step, b, bm, last));
        assert(bm[last].spec_active());
        assert(am[last] == am.last());
        assert(false);
    } else if bm.len() < am.len() {
        let last: int = bm.len() - 1;
        lemma_run_agrees(step, limit, converged, a, am, b, bm, last);
        assert(is_lm_link(step, a, am, last));
        assert(am[last].spec_active());
        assert(bm[last] == bm.last());
        assert(false);
    }
    assert(am.len() == bm.len());
    assert forall|t: int| 0 <= t < a.len() implies #[trigger] a[t] == b[t] by {
        lemma_run_agrees(step, limit, converged, a, am, b, bm, t);
    }
    assert forall|t: int| 0 <= t < am.len() implies #[trigger] am[t] == bm[t] by {
        lemma_run_agrees(step, limit, converged, a, am, b, bm, t);
    }
    assert(a =~= b);
    assert(am =~= bm);
}

proof fn lemma_run_agrees<X, S: Fn(X, usize) -> (StepOutcome, X)>(
    step: &S,
    limit: usize,
    converged: bool,
    a: Seq<X>,
    am: Seq<Progress>,
    b: Seq<X>,
    bm: Seq<Progress>,
    t: int,
)
    requires
        is_lm_function(step),
        is_run(step, limit, converged, a, am),
        is_run(step, limit, converged, b, bm),
        a[0] == b[0],
        0 <= t < am.len(),
        t < bm.len(),
    ensures
        a[t] == b[t],
        am[t] == bm[t],
    decreases t,
{
    if t == 0 {
        am[0].lemma_same(&bm[0]);
    } else {
        lemma_run_agrees(step, limit, converged, a, am, b, bm, t - 1);
        assert(is_lm_link(step, a, am, t - 1));
        assert(is_lm_link(step, b, bm, t - 1));
        let oa: StepOutcome = choose|outcome: StepOutcome|
            call_ensures(*step, (a[t - 1], am[t - 1].spec_rejections()), (outcome, a[t]))
                && #[trigger] am[t].follows(&am[t - 1], outcome);
        let ob: StepOutcome = choose|outcome: StepOutcome|
            call_ensures(*step, (b[t - 1], bm[t - 1].spec_rejections()), (outcome, b[t]))
                && #[trigger] bm[t].follows(&bm[t - 1], outcome);
        assert((oa, a[t]) == (ob, b[t]));
        am[t].lemma_same(&bm[t]);
    }
}

/// The Levenberg-Marquardt optimizer: its targets, the two tolerances, the
/// initial damping and the largest number of steps.
pub struct LM<V, F> {
    targets: Targets<V, F>,
    eps_1: F,
    eps_2: F,
    tau: F,
    k_max: usize,
}

impl<V: Copy, F: Copy> LM<V, F> {
    /// The targets.
    pub closed spec fn spec_targets(&self) -> Targets<V, F> {
        self.targets
    }

    /// The tolerance on the gradient.
    pub closed spec fn spec_eps_1(&self) -> F {
        self.eps_1
    }

    /// The tolerance on the step.
    pub closed spec fn spec_eps_2(&self) -> F {
        self.eps_2
    }

    /// The initial damping, as a fraction of the largest diagonal entry.
    pub closed spec fn spec_tau(&self) -> F {
        self.tau
    }

    /// The largest number of steps.
    pub closed spec fn spec_k_max(&self) -> usize {
        self.k_max
    }

    /// The configuration is that of `other`.
    pub open spec fn same_options(&self, other: &Self) -> bool {
        &&& self.spec_eps_1() == other.spec_eps_1()
        &&& self.spec_eps_2() == other.spec_eps_2()
        &&& self.spec_tau() == other.spec_tau()
        &&& self.spec_k_max() == other.spec_k_max()
    }

    pub fn new(eps_1: F, eps_2: F, tau: F, k_max: usize) -> (s: Self)
        ensures
            s.spec_eps_1() == eps_1,
            s.spec_eps_2() == eps_2,
            s.spec_tau() == tau,
            s.spec_k_max() == k_max,
            s.spec_targets().spec_foci() == Seq::<V>::empty(),
            s.spec_targets().spec_amps() == Seq::<F>::empty(),
    {
        Self { targets: Targets::new(), eps_1, eps_2, tau, k_max }
    }

    /// Replaces the focus positions by a copy of `foci`.
    pub fn set_target_foci(&mut self, foci: &[V])
        ensures
            final(self).spec_targets().spec_foci() == foci@,
            final(self).spec_targets().spec_amps() == old(self).spec_targets().spec_amps(),
            final(self).same_options(old(self)),
    {
        self.targets.set_foci(foci);
    }

    /// Replaces the target magnitudes by a copy of `amps`.
    pub fn set_target_amps(&mut self, amps: &[F])
        ensures
            final(self).spec_targets().spec_amps() == amps@,
            final(self).spec_targets().spec_foci() == old(self).spec_targets().spec_foci(),
            final(self).same_options(old(self)),
    {
        self.targets.set_amps(amps);
    }

    /// The state of the iteration before its first step: at most `k_max`
    /// steps are allowed, and none is made where the gradient at the first
    /// iterate is within tolerance already.
    pub fn begin(&self, converged: bool) -> (p: Progress)
        ensures
            p.spec_limit() == self.spec_k_max(),
            p.spec_taken() == 0,
            p.spec_rejections() == 0,
            p.spec_found() == converged,
    {
        Progress::begin(self.k_max, converged)
    }

    /// Runs the iteration from the state `start`: as long as it is active,
    /// `step` is asked with the state and the number of rejections in a row,
    /// and gives the outcome of the step and the next state. The result is
    /// the last state and the mark at which the run ended.
    pub fn iterate<X, S: Fn(X, usize) -> (StepOutcome, X)>(
        &self,
        start: X,
        converged: bool,
        step: &S,
    ) -> (r: (X, Progress))
        requires
            forall|x: X, k: usize| call_requires(*step, (x, k)),
        ensures
            exists|states: Seq<X>, marks: Seq<Progress>|
                states[0] == start && states.last() == r.0 && marks.last() == r.1
                    && #[trigger] is_run(step, self.spec_k_max(), converged, states, marks),
    {
        let mut mark: Progress = self.begin(converged);
        let mut state: X = start;
        let ghost mut states: Seq<X> = seq![start];
        let ghost mut marks: Seq<Progress> = seq![mark];
        while mark.active()
            invariant
                forall|x: X, k: usize| call_requires(*step, (x, k)),
                marks.len() >= 1,
                states.len() == marks.len(),
                states[0] == start,
                states.last() == state,
                marks.last() == mark,
                marks[0].spec_limit() == self.spec_k_max(),
                marks[0].spec_taken() == 0,
                marks[0].spec_rejections() == 0,
                marks[0].spec_found() == converged,
                mark.spec_limit() == self.spec_k_max(),
                forall|t: int|
                    0 <= t < marks.len() - 1 ==> #[trigger] is_lm_link(step, states, marks, t),
            decreases mark.spec_limit() - mark.spec_taken(),
        {
            let ghost before_state = state;
            let ghost before_mark = mark;
            let ghost old_states = states;
            let ghost old_marks = marks;
            let rejections: usize = mark.rejections();
            let stepped: (StepOutcome, X) = step(state, rejections);
            state = stepped.1;
            mark.advance(stepped.0);
            proof {
                states = states.push(state);
                marks = marks.push(mark);
                assert(mark.follows(&before_mark, stepped.0));
                assert(is_lm_step(step, before_state, before_mark, state, mark));
                assert forall|t: int| 0 <= t < marks.len() - 1 implies #[trigger] is_lm_link(
                    step,
                    states,
                    marks,
                    t,
                ) by {
                    if t < old_marks.len() - 1 {
                        assert(is_lm_link(step, old_states, old_marks, t));
                    }
                }
            }
        }
        proof {
            assert(is_run(step, self.spec_k_max(), converged, states, marks));
        }
        (state, mark)
    }

    /// The targets.
    pub fn targets(&self) -> (t: &Targets<V, F>)
        ensures
            *t == self.spec_targets(),
    {
        &self.targets
    }

    /// The tolerance on the gradient.
    pub fn eps_1(&self) -> (r: F)
        ensures
            r == self.spec_eps_1(),
    {
        self.eps_1
    }

    /// The tolerance on the step.
    pub fn eps_2(&self) -> (r: F)
        ensures
            r == self.spec_eps_2(),
    {
        self.eps_2
    }

    /// The initial damping, as a fraction of the largest diagonal entry.
    pub fn tau(&self) -> (r: F)
        ensures
            r == self.spec_tau(),
    {
        self.tau
    }

    /// The largest number of steps.
    pub fn k_max(&self) -> (r: usize)
        ensures
            r == self.spec_k_max(),
    {
        self.k_max
    }
}

} // verus!
