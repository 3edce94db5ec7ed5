//! Eigenvector phases followed by regularized least squares.

use vstd::prelude::*;
use crate::select::{first_maximum, is_first_maximum, some_above};
use crate::targets::Targets;

verus! {

/// The position of the eigenvector that gives the focus phases, given the
/// magnitude of every eigenvalue as an order key of which 0 stands for
/// magnitude zero: that of the first largest magnitude where one is above
/// zero, else the first position.
pub open spec fn is_principal(keys: Seq<u64>, i: int) -> bool {
    if some_above(keys, 0) {
        is_first_maximum(keys, i)
    } else {
        i == 0
    }
}

/// Chooses the eigenvector that gives the focus phases.
pub fn principal(keys: &[u64]) -> (i: usize)
    ensures
        is_principal(keys@, i as int),
        keys@.len() > 0 ==> i < keys@.len(),
{
    match first_maximum(keys, 0) {
        Some(i) => i,
        None => 0,
    }
}

/// Solves the normal equations robustly: by `definite`, the solve for a
/// positive-definite system, and, only where that fails, by `general`.
pub fn solve_robust<T, E, P: FnOnce() -> Result<T, E>, G: FnOnce() -> Result<T, E>>(
    definite: P,
    general: G,
) -> (r: Result<T, E>)
    requires
        call_requires(definite, ()),
        call_requires(general, ()),
    ensures
        exists|first: Result<T, E>|
            #[trigger] call_ensures(definite, (), first) && (first is Ok ==> r == first) && (
            first is Err ==> call_ensures(general, (), r)),
{
    let first: Result<T, E> = definite();
    match first {
        Ok(x) => {
            proof {
                assert(call_ensures(definite, (), first));
            }
            Ok(x)
        },
        Err(_) => {
            let second: Result<T, E> = general();
            proof {
                assert(call_ensures(definite, (), first));
            }
            second
        },
    }
}

/// The eigenvector and least-squares optimizer: its targets and the exponent
/// of its regularization.
pub struct Long<V, F> {
    targets: Targets<V, F>,
    gamma: F,
}

impl<V: Copy, F: Copy> Long<V, F> {
    /// The targets.
    pub closed spec fn spec_targets(&self) -> Targets<V, F> {
        self.targets
    }

    /// The exponent of the regularization.
    pub closed spec fn spec_gamma(&self) -> F {
        self.gamma
    }

    pub fn new(gamma: F) -> (s: Self)
        ensures
            s.spec_gamma() == gamma,
            s.spec_targets().spec_foci() == Seq::<V>::empty(),
            s.spec_targets().spec_amps() == Seq::<F>::empty(),
    {
        Self { targets: Targets::new(), gamma }
    }

    /// Replaces the focus positions by a copy of `foci`.
    pub fn set_target_foci(&mut self, foci: &[V])
        ensures
            final(self).spec_targets().spec_foci() == foci@,
            final(self).spec_targets().spec_amps() == old(self).spec_targets().spec_amps(),
            final(self).spec_gamma() == old(self).spec_gamma(),
    {
        self.targets.set_foci(foci);
    }

    /// Replaces the target magnitudes by a copy of `amps`.
    pub fn set_target_amps(&mut self, amps: &[F])
        ensures
            final(self).spec_targets().spec_amps() == amps@,
            final(self).spec_targets().spec_foci() == old(self).spec_targets().spec_foci(),
            final(self).spec_gamma() == old(self).spec_gamma(),
    {
        self.targets.set_amps(amps);
    }

    /// The targets.
    pub fn targets(&self) -> (t: &Targets<V, F>)
        ensures
            *t == self.spec_targets(),
    {
        &self.targets
    }

    /// The exponent of the regularization.
    pub fn gamma(&self) -> (r: F)
        ensures
            r == self.spec_gamma(),
    {
        self.gamma
    }
}

} // verus!
