//! Emitters and the writing of drives into them.

use vstd::prelude::*;

verus! {

/// A point radiator: where it stands and the complex drive it is given.
#[derive(Debug, Clone, Copy)]
pub struct WaveSource<V, C> {
    pub pos: V,
    pub q: C,
}

impl<V: Copy, C: Copy> WaveSource<V, C> {
    pub fn new(pos: V, q: C) -> (s: Self)
        ensures
            s.pos == pos,
            s.q == q,
    {
        Self { pos, q }
    }
}

/// The positions of the emitters, in order.
pub open spec fn positions<V, C>(sources: Seq<WaveSource<V, C>>) -> Seq<V> {
    Seq::new(sources.len(), |j: int| sources[j].pos)
}

/// The drives of the emitters, in order.
pub open spec fn drives<V, C>(sources: Seq<WaveSource<V, C>>) -> Seq<C> {
    Seq::new(sources.len(), |j: int| sources[j].q)
}

/// Gives emitter `j` the drive `q`. No other emitter changes, and no position.
pub fn assign_drive<V: Copy, C: Copy>(sources: &mut Vec<WaveSource<V, C>>, j: usize, q: C)
    requires
        j < old(sources)@.len(),
    ensures
        final(sources)@.len() == old(sources)@.len(),
        positions(final(sources)@) == positions(old(sources)@),
        drives(final(sources)@) == drives(old(sources)@).update(j as int, q),
{
    let pos: V = sources[j].pos;
    sources[j] = WaveSource { pos, q };
    assert(positions(sources@) =~= positions(old(sources)@));
    assert(drives(sources@) =~= drives(old(sources)@).update(j as int, q));
}

/// Gives every emitter its drive: emitter `j` gets `new_drives[j]`. The array
/// keeps its length and every emitter its position.
pub fn assign_drives<V: Copy, C: Copy>(sources: &mut Vec<WaveSource<V, C>>, new_drives: &[C])
    requires
        new_drives@.len() == old(sources)@.len(),
    ensures
        final(sources)@.len() == old(sources)@.len(),
        positions(final(sources)@) == positions(old(sources)@),
        drives(final(sources)@) == new_drives@,
{
    let n: usize = sources.len();
    let mut j: usize = 0;
    while j < n
        invariant
            j <= n,
            n == sources@.len(),
            n == new_drives@.len(),
            positions(sources@) == positions(old(sources)@),
            forall|k: int| 0 <= k < j ==> drives(sources@)[k] == new_drives@[k],
        decreases n - j,
    {
        assign_drive(sources, j, new_drives[j]);
        j = j + 1;
    }
    assert(drives(sources@) =~= new_drives@);
}

} // verus!
