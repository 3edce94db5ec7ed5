//! The focal targets of an optimizer: positions and the magnitudes wanted there.

use vstd::prelude::*;

verus! {

/// Focus positions and target magnitudes, kept as copies of what the caller
/// set. The two lists correspond by position once both are set with one length.
pub struct Targets<V, F> {
    foci: Vec<V>,
    amps: Vec<F>,
}

/// A copy of a slice.
pub fn copy_of<T: Copy>(items: &[T]) -> (copy: Vec<T>)
    ensures
        copy@ == items@,
{
    let n: usize = items.len();
    let mut copy: Vec<T> = Vec::new();
    let mut k: usize = 0;
    while k < n
        invariant
            k <= n,
            n == items@.len(),
            copy@ == items@.subrange(0, k as int),
        decreases n - k,
    {
        copy.push(items[k]);
        k = k + 1;
        assert(copy@ =~= items@.subrange(0, k as int));
    }
    assert(items@.subrange(0, n as int) =~= items@);
    copy
}

impl<V: Copy, F: Copy> Targets<V, F> {
    /// The focus positions.
    pub closed spec fn spec_foci(&self) -> Seq<V> {
        self.foci@
    }

    /// The target magnitudes.
    pub closed spec fn spec_amps(&self) -> Seq<F> {
        self.amps@
    }

    /// There are as many magnitudes as foci.
    pub open spec fn matched(&self) -> bool {
        self.spec_foci().len() == self.spec_amps().len()
    }

    /// No targets yet.
    pub fn new() -> (t: Self)
        ensures
            t.spec_foci() == Seq::<V>::empty(),
            t.spec_amps() == Seq::<F>::empty(),
    {
        Self { foci: Vec::new(), amps: Vec::new() }
    }

    /// Replaces the focus positions by a copy of `foci`.
    pub fn set_foci(&mut self, foci: &[V])
        ensures
            final(self).spec_foci() == foci@,
            final(self).spec_amps() == old(self).spec_amps(),
    {
        self.foci = copy_of(foci);
    }

    /// Replaces the target magnitudes by a copy of `amps`.
    pub fn set_amps(&mut self, amps: &[F])
        ensures
            final(self).spec_amps() == amps@,
            final(self).spec_foci() == old(self).spec_foci(),
    {
        self.amps = copy_of(amps);
    }

    /// The focus positions.
    pub fn foci(&self) -> (foci: &Vec<V>)
        ensures
            foci@ == self.spec_foci(),
    {
        &self.foci
    }

    /// The target magnitudes.
    pub fn amps(&self) -> (amps: &Vec<F>)
        ensures
            amps@ == self.spec_amps(),
    {
        &self.amps
    }

    /// The number of targets, or `None` where foci and magnitudes differ in number.
    pub fn count(&self) -> (m: Option<usize>)
        ensures
            m.is_some() <==> self.matched(),
            m.is_some() ==> m.unwrap() == self.spec_foci().len(),
    {
        if self.foci.len() == self.amps.len() {
            Some(self.foci.len())
        } else {
            None
        }
    }
}

} // verus!
