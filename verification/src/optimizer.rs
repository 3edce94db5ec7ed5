//! The five optimizers: what each is configured with, the discrete part of
//! what each decides, and the frame in which every one of them runs.
//!
//! An optimizer reads the positions of the emitters and writes their drives.
//! The frame [`optimize_with`] does the reading and the writing around a
//! solver that turns targets and positions into drives, and a test that says
//! which drives an emitter can take. Whatever the solver computes, no emitter
//! is moved, added or dropped, every drive that is written has passed the
//! test, and nothing is written when the solver fails.

pub mod ghrbf;
pub mod gs_pat;
pub mod horn;
pub mod levenberg_marquardt;
pub mod long;

use vstd::prelude::*;
use crate::matrix::Matrix;
use crate::targets::Targets;
use crate::wave_source::{assign_drives, drives, positions, WaveSource};

verus! {

/// The decompositions and solves that a linear-algebra backend can fail at.
#[derive(PartialEq, Eq, Structural, Copy, Clone, Debug)]
pub enum LinalgOp {
    SingularValues,
    Eigen,
    Solve,
}

/// A failure of the linear-algebra backend: what it was asked for, and the
/// size of the system.
#[derive(PartialEq, Eq, Structural, Copy, Clone, Debug)]
pub struct LinalgFailure {
    pub op: LinalgOp,
    pub dim: usize,
}

/// Why an optimizer wrote no drives.
#[derive(PartialEq, Eq, Copy, Clone, Debug)]
pub enum OptimizeError<E> {
    /// There are not as many target magnitudes as foci.
    TargetsMismatched,
    /// The solver did not return one drive for each emitter.
    DriveCount,
    /// The solver returned a drive that an emitter cannot take.
    Inadmissible,
    /// The solver failed.
    Solver(E),
}

/// The positions of the emitters, in order.
pub fn positions_of<V: Copy, C: Copy>(sources: &Vec<WaveSource<V, C>>) -> (pos: Vec<V>)
    ensures
        pos@ == positions(sources@),
{
    let n: usize = sources.len();
    let mut pos: Vec<V> = Vec::new();
    let mut j: usize = 0;
    while j < n
        invariant
            j <= n,
            n == sources@.len(),
            pos@.len() == j,
            forall|k: int| 0 <= k < j ==> pos@[k] == sources@[k].pos,
        decreases n - j,
    {
        pos.push(sources[j].pos);
        j = j + 1;
    }
    assert(pos@ =~= positions(sources@));
    pos
}

/// The drives of the emitters, in order.
pub fn drives_of<V: Copy, C: Copy>(sources: &Vec<WaveSource<V, C>>) -> (q: Vec<C>)
    ensures
        q@ == drives(sources@),
{
    let n: usize = sources.len();
    let mut q: Vec<C> = Vec::new();
    let mut j: usize = 0;
    while j < n
        invariant
            j <= n,
            n == sources@.len(),
            q@.len() == j,
            forall|k: int| 0 <= k < j ==> q@[k] == sources@[k].q,
        decreases n - j,
    {
        q.push(sources[j].q);
        j = j + 1;
    }
    assert(q@ =~= drives(sources@));
    q
}

/// `g` is the transfer matrix of the foci and the emitter positions: one row
/// for each focus, one column for each emitter, and in row `i` and column
/// `j` what `transfer` gives from emitter `j` to focus `i`. So a column
/// depends on its emitter alone and a row on its focus alone.
pub open spec fn is_transfer_matrix<V: Copy, C: Copy, G: Fn(V, V) -> C>(
    g: &Matrix<C>,
    foci: Seq<V>,
    pos: Seq<V>,
    transfer: &G,
) -> bool {
    &&& g.nrows() == foci.len()
    &&& g.ncols() == pos.len()
    &&& forall|i: int, j: int|
        0 <= i < foci.len() && 0 <= j < pos.len() ==> call_ensures(
            *transfer,
            (pos[j], foci[i]),
            #[trigger] g.at(i, j),
        )
}

/// `transfer` gives one value for one pair of positions.
pub open spec fn transfer_is_function<V: Copy, C: Copy, G: Fn(V, V) -> C>(transfer: &G) -> bool {
    forall|source: V, target: V, a: C, b: C|
        #[trigger] call_ensures(*transfer, (source, target), a) && #[trigger] call_ensures(
            *transfer,
            (source, target),
            b,
        ) ==> a == b
}

/// Where the transfer gives one value for one pair of positions, an entry of
/// a transfer matrix depends on its focus and its emitter alone: two transfer
/// matrices agree wherever they stand for the same focus and the same
/// emitter. So reordering the foci reorders the rows in the same way, and
/// moving one emitter changes one column.
pub proof fn lemma_transfer_entry_is_determined<V: Copy, C: Copy, G: Fn(V, V) -> C>(
    transfer: &G,
    g: &Matrix<C>,
    foci: Seq<V>,
    pos: Seq<V>,
    i: int,
    j: int,
    other_g: &Matrix<C>,
    other_foci: Seq<V>,
    other_pos: Seq<V>,
    other_i: int,
    other_j: int,
)
    requires
        transfer_is_function(transfer),
        is_transfer_matrix(g, foci, pos, transfer),
        is_transfer_matrix(other_g, other_foci, other_pos, transfer),
        0 <= i < foci.len(),
        0 <= j < pos.len(),
        0 <= other_i < other_foci.len(),
        0 <= other_j < other_pos.len(),
        foci[i] == other_foci[other_i],
        pos[j] == other_pos[other_j],
    ensures
        g.at(i, j) == other_g.at(other_i, other_j),
{
    assert(call_ensures(*transfer, (pos[j], foci[i]), g.at(i, j)));
    assert(call_ensures(
        *transfer,
        (other_pos[other_j], other_foci[other_i]),
        other_g.at(other_i, other_j),
    ));
}

/// The transfer matrix of the foci and the emitter positions, or `None`
/// where the number of its entries does not fit the machine word.
pub fn transfer_matrix<V: Copy, C: Copy, G: Fn(V, V) -> C>(
    foci: &[V],
    pos: &[V],
    transfer: &G,
) -> (g: Option<Matrix<C>>)
    requires
        forall|source: V, target: V| call_requires(*transfer, (source, target)),
    ensures
        g.is_some() <==> foci@.len() * pos@.len() <= usize::MAX,
        g.is_some() ==> is_transfer_matrix(&g.unwrap(), foci@, pos@, transfer),
{
    let m: usize = foci.len();
    let n: usize = pos.len();
    if m == 0 || n == 0 {
        assert(foci@.len() * pos@.len() == 0) by (nonlinear_arith)
            requires
                foci@.len() == 0 || pos@.len() == 0,
        ;
        return Matrix::from_vec(m, n, Vec::new());
    }
    let first: C = transfer(pos[0], foci[0]);
    let mut g: Matrix<C> = match Matrix::filled(m, n, first) {
        Some(g) => g,
        None => {
            return None;
        },
    };
    let mut i: usize = 0;
    while i < m
        invariant
            i <= m,
            m == foci@.len(),
            n == pos@.len(),
            g.nrows() == m,
            g.ncols() == n,
            forall|source: V, target: V| call_requires(*transfer, (source, target)),
            forall|a: int, b: int|
                0 <= a < i && 0 <= b < n ==> call_ensures(
                    *transfer,
                    (pos@[b], foci@[a]),
                    #[trigger] g.at(a, b),
                ),
        decreases m - i,
    {
        let mut j: usize = 0;
        while j < n
            invariant
                j <= n,
                i < m,
                m == foci@.len(),
                n == pos@.len(),
                g.nrows() == m,
                g.ncols() == n,
                forall|source: V, target: V| call_requires(*transfer, (source, target)),
                forall|a: int, b: int|
                    0 <= a < i && 0 <= b < n ==> call_ensures(
                        *transfer,
                        (pos@[b], foci@[a]),
                        #[trigger] g.at(a, b),
                    ),
                forall|b: int|
                    0 <= b < j ==> call_ensures(
                        *transfer,
                        (pos@[b], foci@[i as int]),
                        #[trigger] g.at(i as int, b),
                    ),
            decreases n - j,
        {
            let value: C = transfer(pos[j], foci[i]);
            g.set(i, j, value);
            j = j + 1;
        }
        i = i + 1;
    }
    Some(g)
}

/// The test accepted the drive at place `j`.
pub open spec fn is_accepted<C, A: Fn(&C) -> bool>(admissible: &A, d: Seq<C>, j: int) -> bool {
    call_ensures(*admissible, (&d[j],), true)
}

/// The test refused the drive at place `j`.
pub open spec fn is_refused<C, A: Fn(&C) -> bool>(admissible: &A, d: Seq<C>, j: int) -> bool {
    call_ensures(*admissible, (&d[j],), false)
}

/// The test accepted every drive.
pub open spec fn all_admissible<C, A: Fn(&C) -> bool>(admissible: &A, d: Seq<C>) -> bool {
    forall|j: int| 0 <= j < d.len() ==> #[trigger] is_accepted(admissible, d, j)
}

/// The test refused some drive.
pub open spec fn some_inadmissible<C, A: Fn(&C) -> bool>(admissible: &A, d: Seq<C>) -> bool {
    exists|j: int| 0 <= j < d.len() && #[trigger] is_refused(admissible, d, j)
}

/// The test gives one answer for one drive.
pub open spec fn test_is_function<C, A: Fn(&C) -> bool>(admissible: &A) -> bool {
    forall|c: &C, a: bool, b: bool|
        #[trigger] call_ensures(*admissible, (c,), a) && #[trigger] call_ensures(
            *admissible,
            (c,),
            b,
        ) ==> a == b
}

/// Puts every drive to the test, first to last, up to the first that fails.
pub fn check_drives<C, A: Fn(&C) -> bool>(admissible: &A, d: &[C]) -> (ok: bool)
    requires
        forall|c: &C| call_requires(*admissible, (c,)),
    ensures
        ok ==> all_admissible(admissible, d@),
        !ok ==> some_inadmissible(admissible, d@),
{
    let n: usize = d.len();
    let mut j: usize = 0;
    while j < n
        invariant
            j <= n,
            n == d@.len(),
            forall|c: &C| call_requires(*admissible, (c,)),
            forall|k: int| 0 <= k < j ==> #[trigger] is_accepted(admissible, d@, k),
        decreases n - j,
    {
        let accepted: bool = admissible(&d[j]);
        if !accepted {
            assert(is_refused(admissible, d@, j as int));
            return false;
        }
        assert(is_accepted(admissible, d@, j as int));
        j = j + 1;
    }
    true
}

/// What the frame does with what the solver returned: drives are written
/// where there is one for each emitter and the test accepted every one, and
/// nothing is written otherwise.
pub open spec fn committed<V, C, E, A: Fn(&C) -> bool>(
    admissible: &A,
    before: Seq<WaveSource<V, C>>,
    after: Seq<WaveSource<V, C>>,
    solved: Result<Vec<C>, E>,
    r: Result<(), OptimizeError<E>>,
) -> bool {
    match solved {
        Ok(d) => if d@.len() != before.len() {
            r is Err && r->Err_0 is DriveCount && after == before
        } else if r is Ok {
            all_admissible(admissible, d@) && drives(after) == d@
        } else {
            r->Err_0 is Inadmissible && some_inadmissible(admissible, d@) && after == before
        },
        Err(e) => r is Err && r->Err_0 is Solver && r->Err_0->Solver_0 == e && after == before,
    }
}

/// The solver was asked with the foci and magnitudes of the targets and the
/// positions of the emitters, and returned `solved`.
pub open spec fn is_solution<V: Copy, F: Copy, C: Copy, E, S: FnOnce(
    &Vec<V>,
    &Vec<F>,
    &Vec<V>,
) -> Result<Vec<C>, E>>(
    targets: &Targets<V, F>,
    solver: S,
    before: Seq<WaveSource<V, C>>,
    foci: &Vec<V>,
    amps: &Vec<F>,
    pos: &Vec<V>,
    solved: Result<Vec<C>, E>,
) -> bool {
    &&& foci@ == targets.spec_foci()
    &&& amps@ == targets.spec_amps()
    &&& pos@ == positions(before)
    &&& call_ensures(solver, (foci, amps, pos), solved)
}

/// What the frame makes of the emitters `before`, given the targets, the
/// solver and the test: the emitters `after` and the result `r`.
///
/// Where foci and magnitudes differ in number the call fails and nothing is
/// written. Where there is no target or no emitter the emitters stay as they
/// are. Otherwise the solver is asked once, with the foci, the magnitudes and
/// the positions, and what it returns is committed. In every case the array
/// keeps its length and every emitter its position.
pub open spec fn is_optimized<V: Copy, F: Copy, C: Copy, E, S: FnOnce(
    &Vec<V>,
    &Vec<F>,
    &Vec<V>,
) -> Result<Vec<C>, E>, A: Fn(&C) -> bool>(
    targets: &Targets<V, F>,
    solver: S,
    admissible: &A,
    before: Seq<WaveSource<V, C>>,
    after: Seq<WaveSource<V, C>>,
    r: Result<(), OptimizeError<E>>,
) -> bool {
    &&& after.len() == before.len()
    &&& positions(after) == positions(before)
    &&& if !targets.matched() {
        r is Err && r->Err_0 is TargetsMismatched && after == before
    } else if targets.spec_foci().len() == 0 || before.len() == 0 {
        r is Ok && after == before
    } else {
        exists|foci: &Vec<V>, amps: &Vec<F>, pos: &Vec<V>, solved: Result<Vec<C>, E>|
            #[trigger] is_solution(targets, solver, before, foci, amps, pos, solved) && committed(
                admissible,
                before,
                after,
                solved,
                r,
            )
    }
}

/// Two results of a solver are the same: the same drives, or the same failure.
pub open spec fn same_solution<C, E>(a: Result<Vec<C>, E>, b: Result<Vec<C>, E>) -> bool {
    match (a, b) {
        (Ok(d), Ok(e)) => d@ == e@,
        (Err(d), Err(e)) => d == e,
        _ => false,
    }
}

/// The solver returns one solution for the same foci, magnitudes and positions.
pub open spec fn solver_is_function<V, F, C, E, S: FnOnce(&Vec<V>, &Vec<F>, &Vec<V>) -> Result<
    Vec<C>,
    E,
>>(solver: S) -> bool {
    forall|
        foci: &Vec<V>,
        amps: &Vec<F>,
        pos: &Vec<V>,
        solved: Result<Vec<C>, E>,
        other_foci: &Vec<V>,
        other_amps: &Vec<F>,
        other_pos: &Vec<V>,
        other_solved: Result<Vec<C>, E>,
    |
        foci@ == other_foci@ && amps@ == other_amps@ && pos@ == other_pos@
            && #[trigger] call_ensures(solver, (foci, amps, pos), solved)
            && #[trigger] call_ensures(solver, (other_foci, other_amps, other_pos), other_solved)
            ==> same_solution(solved, other_solved)
}

/// Emitters with the same positions and the same drives are the same.
pub proof fn lemma_same_sources<V, C>(a: Seq<WaveSource<V, C>>, b: Seq<WaveSource<V, C>>)
    requires
        positions(a) == positions(b),
        drives(a) == drives(b),
    ensures
        a == b,
{
    assert(a.len() == positions(a).len());
    assert(b.len() == positions(b).len());
    assert forall|j: int| 0 <= j < a.len() implies a[j] == b[j] by {
        assert(positions(a)[j] == a[j].pos && positions(b)[j] == b[j].pos);
        assert(drives(a)[j] == a[j].q && drives(b)[j] == b[j].q);
    }
    assert(a =~= b);
}

/// A test that gives one answer for one drive does not both accept every
/// drive and refuse one.
pub proof fn lemma_test_decides<C, A: Fn(&C) -> bool>(admissible: &A, d: Seq<C>)
    requires
        test_is_function(admissible),
    ensures
        !(all_admissible(admissible, d) && some_inadmissible(admissible, d)),
{
    if all_admissible(admissible, d) && some_inadmissible(admissible, d) {
        let j: int = choose|j: int| 0 <= j < d.len() && #[trigger] is_refused(admissible, d, j);
        assert(is_accepted(admissible, d, j));
    }
}

/// After an optimizer has written drives, every emitter has a drive that
/// the test accepted, and stands where it stood.
pub proof fn lemma_written_drives_are_admissible<V: Copy, F: Copy, C: Copy, E, S: FnOnce(
    &Vec<V>,
    &Vec<F>,
    &Vec<V>,
) -> Result<Vec<C>, E>, A: Fn(&C) -> bool>(
    targets: &Targets<V, F>,
    solver: S,
    admissible: &A,
    before: Seq<WaveSource<V, C>>,
    after: Seq<WaveSource<V, C>>,
    r: Result<(), OptimizeError<E>>,
)
    requires
        is_optimized(targets, solver, admissible, before, after, r),
        r is Ok,
        targets.spec_foci().len() > 0,
        before.len() > 0,
    ensures
        all_admissible(admissible, drives(after)),
        positions(after) == positions(before),
        after.len() == before.len(),
{
}

/// Where the solver returns one solution for one problem and the test one
/// answer for one drive, optimizing is repeatable: from the same emitters it
/// leads to the same emitters, and to success or failure alike.
pub proof fn lemma_optimize_is_repeatable<V: Copy, F: Copy, C: Copy, E, S: FnOnce(
    &Vec<V>,
    &Vec<F>,
    &Vec<V>,
) -> Result<Vec<C>, E>, A: Fn(&C) -> bool>(
    targets: &Targets<V, F>,
    solver: S,
    admissible: &A,
    before: Seq<WaveSource<V, C>>,
    after: Seq<WaveSource<V, C>>,
    r: Result<(), OptimizeError<E>>,
    other_after: Seq<WaveSource<V, C>>,
    other_r: Result<(), OptimizeError<E>>,
)
    requires
        solver_is_function(solver),
        test_is_function(admissible),
        is_optimized(targets, solver, admissible, before, after, r),
        is_optimized(targets, solver, admissible, before, other_after, other_r),
    ensures
        after == other_after,
        r is Ok <==> other_r is Ok,
{
    if targets.matched() && targets.spec_foci().len() > 0 && before.len() > 0 {
        let (foci, amps, pos, solved) = choose|
            foci: &Vec<V>,
            amps: &Vec<F>,
            pos: &Vec<V>,
            solved: Result<Vec<C>, E>,
        |
            #[trigger] is_solution(targets, solver, before, foci, amps, pos, solved) && committed(
                admissible,
                before,
                after,
                solved,
                r,
            );
        let (foci2, amps2, pos2, solved2) = choose|
            foci: &Vec<V>,
            amps: &Vec<F>,
            pos: &Vec<V>,
            solved: Result<Vec<C>, E>,
        |
            #[trigger] is_solution(targets, solver, before, foci, amps, pos, solved) && committed(
                admissible,
                before,
                other_after,
                solved,
                other_r,
            );
        assert(same_solution(solved, solved2));
        if solved is Ok {
            lemma_test_decides(admissible, solved->Ok_0@);
        }
        if r is Ok {
            lemma_same_sources(after, other_after);
        }
    }
}

/// Where the solver returns one solution for one problem and the test one
/// answer for one drive, optimizing is idempotent: optimizing what was
/// optimized leaves it as it is.
pub proof fn lemma_optimize_is_idempotent<V: Copy, F: Copy, C: Copy, E, S: FnOnce(
    &Vec<V>,
    &Vec<F>,
    &Vec<V>,
) -> Result<Vec<C>, E>, A: Fn(&C) -> bool>(
    targets: &Targets<V, F>,
    solver: S,
    admissible: &A,
    before: Seq<WaveSource<V, C>>,
    once: Seq<WaveSource<V, C>>,
    r: Result<(), OptimizeError<E>>,
    twice: Seq<WaveSource<V, C>>,
    again: Result<(), OptimizeError<E>>,
)
    requires
        solver_is_function(solver),
        test_is_function(admissible),
        is_optimized(targets, solver, admissible, before, once, r),
        is_optimized(targets, solver, admissible, once, twice, again),
        r is Ok,
    ensures
        twice == once,
        again is Ok,
{
    if targets.matched() && targets.spec_foci().len() > 0 && before.len() > 0 {
        let (foci, amps, pos, solved) = choose|
            foci: &Vec<V>,
            amps: &Vec<F>,
            pos: &Vec<V>,
            solved: Result<Vec<C>, E>,
        |
            #[trigger] is_solution(targets, solver, before, foci, amps, pos, solved) && committed(
                admissible,
                before,
                once,
                solved,
                r,
            );
        let (foci2, amps2, pos2, solved2) = choose|
            foci: &Vec<V>,
            amps: &Vec<F>,
            pos: &Vec<V>,
            solved: Result<Vec<C>, E>,
        |
            #[trigger] is_solution(targets, solver, once, foci, amps, pos, solved) && committed(
                admissible,
                once,
                twice,
                solved,
                again,
            );
        assert(same_solution(solved, solved2));
        lemma_test_decides(admissible, solved->Ok_0@);
        lemma_same_sources(once, twice);
    }
}

/// Runs a solver on the targets and the emitter positions, puts the drives
/// it returns to the test and writes them; see [`is_optimized`].
pub fn optimize_with<V: Copy, F: Copy, C: Copy, E, S, A>(
    targets: &Targets<V, F>,
    sources: &mut Vec<WaveSource<V, C>>,
    solver: S,
    admissible: &A,
) -> (r: Result<(), OptimizeError<E>>) where
    S: FnOnce(&Vec<V>, &Vec<F>, &Vec<V>) -> Result<Vec<C>, E>,
    A: Fn(&C) -> bool,

    requires
        forall|foci: &Vec<V>, amps: &Vec<F>, pos: &Vec<V>|
            foci@ == targets.spec_foci() && amps@ == targets.spec_amps() && pos@ == positions(
                old(sources)@,
            ) ==> call_requires(solver, (foci, amps, pos)),
        forall|c: &C| call_requires(*admissible, (c,)),
    ensures
        is_optimized(targets, solver, admissible, old(sources)@, final(sources)@, r),
{
    match targets.count() {
        None => Err(OptimizeError::TargetsMismatched),
        Some(m) => {
            let n: usize = sources.len();
            if m == 0 || n == 0 {
                Ok(())
            } else {
                let pos: Vec<V> = positions_of(sources);
                let foci: &Vec<V> = targets.foci();
                let amps: &Vec<F> = targets.amps();
                let solved: Result<Vec<C>, E> = solver(foci, amps, &pos);
                let ghost witness = solved;
                let r: Result<(), OptimizeError<E>> = match solved {
                    Ok(d) => {
                        if d.len() != n {
                            Err(OptimizeError::DriveCount)
                        } else if check_drives(admissible, d.as_slice()) {
                            assign_drives(sources, d.as_slice());
                            Ok(())
                        } else {
                            Err(OptimizeError::Inadmissible)
                        }
                    },
                    Err(e) => Err(OptimizeError::Solver(e)),
                };
                proof {
                    assert(is_solution(targets, solver, old(sources)@, foci, amps, &pos, witness));
                    assert(committed(admissible, old(sources)@, sources@, witness, r));
                }
                r
            }
        },
    }
}

} // verus!
