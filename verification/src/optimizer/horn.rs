//! Semidefinite relaxation with rank-one recovery.
//!
//! The relaxation matrix is updated one random coordinate at a time; the index
//! work of one such step is in [`crate::minor`], the draw of the coordinate in
//! [`crate::random`]. Afterwards the drives are recovered from the
//! eigenvector whose eigenvalue is largest in magnitude.

use rand::rngs::StdRng;
use vstd::prelude::*;
use crate::matrix::{skip, Matrix};
use crate::minor::{assign_cross, cross_entry, remove_row_1d, remove_row_col};
use crate::random::pick_coordinate;
use crate::select::{first_maximum, is_first_maximum, some_above};
use crate::targets::Targets;

verus! {

/// What one coordinate step writes into the relaxation matrix: the new row
/// and the new column of the coordinate, each without the diagonal entry.
pub struct CrossUpdate<T> {
    pub row: Vec<T>,
    pub col: Vec<T>,
}

/// `minor` is `of` without its row `i` and its column `i`.
pub open spec fn is_minor<T: Copy>(minor: &Matrix<T>, of: &Matrix<T>, i: int) -> bool {
    &&& minor.nrows() == of.nrows() - 1
    &&& minor.ncols() == of.ncols() - 1
    &&& forall|a: int, b: int|
        0 <= a < of.nrows() - 1 && 0 <= b < of.ncols() - 1 ==> #[trigger] minor.at(a, b) == of.at(
            skip(i, a),
            skip(i, b),
        )
}

/// `reduced` is column `i` of `of` without its entry `i`.
pub open spec fn is_reduced_column<T: Copy>(reduced: Seq<T>, of: &Matrix<T>, i: int) -> bool {
    &&& reduced.len() == of.nrows() - 1
    &&& forall|k: int| 0 <= k < of.nrows() - 1 ==> #[trigger] reduced[k] == of.at(skip(i, k), i)
}

/// `after` is `before` with row `i` and column `i` overwritten around the diagonal.
pub open spec fn is_crossed<T: Copy>(
    after: &Matrix<T>,
    before: &Matrix<T>,
    i: int,
    update: CrossUpdate<T>,
) -> bool {
    &&& after.nrows() == before.nrows()
    &&& after.ncols() == before.ncols()
    &&& forall|r: int, c: int|
        0 <= r < before.nrows() && 0 <= c < before.ncols() ==> #[trigger] after.at(r, c)
            == cross_entry(before.at(r, c), i, r, c, update.row@, update.col@)
}

/// `after` is what a coordinate step at `i` makes of `before` when the rule
/// returns `update`: the update is written where its row and its column have
/// the length of the minor, which `written` says, and nothing is written otherwise.
pub open spec fn is_step<T: Copy>(
    after: &Matrix<T>,
    before: &Matrix<T>,
    i: int,
    update: CrossUpdate<T>,
    written: bool,
) -> bool {
    &&& written == (update.row@.len() == before.nrows() - 1 && update.col@.len() == before.nrows()
        - 1)
    &&& written ==> is_crossed(after, before, i, update)
    &&& !written ==> is_unchanged(after, before)
}

/// `after` has the dimensions and the entries of `before`.
pub open spec fn is_unchanged<T: Copy>(after: &Matrix<T>, before: &Matrix<T>) -> bool {
    &&& after.nrows() == before.nrows()
    &&& after.ncols() == before.ncols()
    &&& forall|r: int, c: int|
        0 <= r < before.nrows() && 0 <= c < before.ncols() ==> #[trigger] after.at(r, c)
            == before.at(r, c)
}

/// `after` has the dimensions and the diagonal of `before`.
pub open spec fn keeps_diagonal<T: Copy>(after: &Matrix<T>, before: &Matrix<T>) -> bool {
    &&& after.nrows() == before.nrows()
    &&& after.ncols() == before.ncols()
    &&& forall|r: int| 0 <= r < before.nrows() ==> #[trigger] after.at(r, r) == before.at(r, r)
}

/// `rule` can be asked about every minor of an `m` by `m` matrix together
/// with every reduced column.
pub open spec fn rule_is_total<T: Copy, S: Fn(&Matrix<T>, &Vec<T>) -> CrossUpdate<T>>(
    rule: &S,
    m: nat,
) -> bool {
    forall|xc: &Matrix<T>, mmc: &Vec<T>|
        xc.nrows() == m - 1 && xc.ncols() == m - 1 && mmc@.len() == m - 1 ==> call_requires(
            rule,
            (xc, mmc),
        )
}

/// One coordinate step. The minor of `x` and the reduced column of `mm` at
/// coordinate `i` are handed to `rule`; what it returns is written into row `i`
/// and column `i` of `x`, around the diagonal. Where `rule` returns a row or
/// a column of another length than that of the minor, nothing is written and
/// the result is `false`. `xc` and `mmc` are scratch space of the size of the
/// minor.
pub fn coordinate_step<T: Copy, S: Fn(&Matrix<T>, &Vec<T>) -> CrossUpdate<T>>(
    x: &mut Matrix<T>,
    mm: &Matrix<T>,
    i: usize,
    xc: &mut Matrix<T>,
    mmc: &mut Vec<T>,
    rule: &S,
) -> (written: bool)
    requires
        old(x).nrows() == old(x).ncols(),
        mm.nrows() == old(x).nrows(),
        mm.ncols() == old(x).nrows(),
        i < old(x).nrows(),
        old(xc).nrows() == old(x).nrows() - 1,
        old(xc).ncols() == old(x).nrows() - 1,
        old(mmc)@.len() == old(x).nrows() - 1,
        rule_is_total(rule, old(x).nrows()),
    ensures
        is_minor(final(xc), old(x), i as int),
        is_reduced_column(final(mmc)@, mm, i as int),
        exists|update: CrossUpdate<T>|
            call_ensures(*rule, (&*final(xc), &*final(mmc)), update) && #[trigger] is_step(
                final(x),
                old(x),
                i as int,
                update,
                written,
            ),
{
    remove_row_col(xc, x, i);
    let column: Vec<T> = mm.column(i);
    remove_row_1d(mmc, &column, i);
    let update: CrossUpdate<T> = rule(xc, mmc);
    let minor_len: usize = mmc.len();
    let written: bool = update.row.len() == minor_len && update.col.len() == minor_len;
    assert(minor_len == old(x).nrows() - 1);
    if written {
        assign_cross(x, i, &update.row, &update.col);
        assert(is_crossed(&*x, old(x), i as int, update));
    } else {
        assert(is_unchanged(&*x, old(x)));
    }
    proof {
        assert(call_ensures(*rule, (&*xc, &*mmc), update));
        assert(is_step(&*x, old(x), i as int, update, written));
    }
    written
}

/// A coordinate step at `i` leads from `before` to `after`: `rule` was asked
/// with the minor `xc` and the reduced column `mmc`, returned `update`, and
/// that was written or not, as `written` says.
pub open spec fn is_coordinate_step<T: Copy, S: Fn(&Matrix<T>, &Vec<T>) -> CrossUpdate<T>>(
    rule: &S,
    mm: &Matrix<T>,
    before: &Matrix<T>,
    after: &Matrix<T>,
    i: int,
    xc: &Matrix<T>,
    mmc: &Vec<T>,
    update: CrossUpdate<T>,
    written: bool,
) -> bool {
    &&& is_minor(xc, before, i)
    &&& is_reduced_column(mmc@, mm, i)
    &&& call_ensures(*rule, (xc, mmc), update)
    &&& is_step(after, before, i, update, written)
}

/// The step at place `t` of a relaxation leads from the matrix at `t` to the
/// one behind it: at the coordinate `schedule[t]`, `rule` was asked with the
/// minor and the reduced column, and what it returned was written or not,
/// as `writes[t]` says.
pub open spec fn is_relax_link<T: Copy, S: Fn(&Matrix<T>, &Vec<T>) -> CrossUpdate<T>>(
    rule: &S,
    mm: &Matrix<T>,
    schedule: Seq<usize>,
    xs: Seq<Matrix<T>>,
    writes: Seq<bool>,
    t: int,
) -> bool {
    exists|xc: &Matrix<T>, mmc: &Vec<T>, update: CrossUpdate<T>|
        #[trigger] is_coordinate_step(
            rule,
            mm,
            &xs[t],
            &xs[t + 1],
            schedule[t] as int,
            xc,
            mmc,
            update,
            writes[t],
        )
}

/// How many of the steps wrote into the matrix.
pub open spec fn written_steps(writes: Seq<bool>) -> nat
    decreases writes.len(),
{
    if writes.len() == 0 {
        0
    } else {
        written_steps(writes.drop_last()) + if writes.last() {
            1nat
        } else {
            0nat
        }
    }
}

/// A relaxation along `schedule`: one step at each of its coordinates, in order.
pub open spec fn is_relaxation<T: Copy, S: Fn(&Matrix<T>, &Vec<T>) -> CrossUpdate<T>>(
    rule: &S,
    mm: &Matrix<T>,
    schedule: Seq<usize>,
    xs: Seq<Matrix<T>>,
    writes: Seq<bool>,
) -> bool {
    &&& xs.len() == schedule.len() + 1
    &&& writes.len() == schedule.len()
    &&& forall|t: int|
        0 <= t < schedule.len() ==> #[trigger] is_relax_link(rule, mm, schedule, xs, writes, t)
}

/// `a` and `b` have the same dimensions and the same entries.
pub open spec fn same_matrix<T: Copy>(a: &Matrix<T>, b: &Matrix<T>) -> bool {
    is_unchanged(a, b)
}

/// `rule` returns one update for one minor and one reduced column.
pub open spec fn rule_is_function<T: Copy, S: Fn(&Matrix<T>, &Vec<T>) -> CrossUpdate<T>>(
    rule: &S,
) -> bool {
    forall|
        xc: &Matrix<T>,
        mmc: &Vec<T>,
        update: CrossUpdate<T>,
        other_xc: &Matrix<T>,
        other_mmc: &Vec<T>,
        other_update: CrossUpdate<T>,
    |
        same_matrix(xc, other_xc) && mmc@ == other_mmc@ && #[trigger] call_ensures(
            *rule,
            (xc, mmc),
            update,
        ) && #[trigger] call_ensures(*rule, (other_xc, other_mmc), other_update) ==> update.row@
            == other_update.row@ && update.col@ == other_update.col@
}

/// Where the rule returns one update for one argument, a coordinate step is
/// repeatable: from matrices with the same entries it leads to matrices with
/// the same entries.
pub proof fn lemma_step_is_repeatable<T: Copy, S: Fn(&Matrix<T>, &Vec<T>) -> CrossUpdate<T>>(
    rule: &S,
    mm: &Matrix<T>,
    i: int,
    before: &Matrix<T>,
    after: &Matrix<T>,
    xc: &Matrix<T>,
    mmc: &Vec<T>,
    update: CrossUpdate<T>,
    written: bool,
    other_before: &Matrix<T>,
    other_after: &Matrix<T>,
    other_xc: &Matrix<T>,
    other_mmc: &Vec<T>,
    other_update: CrossUpdate<T>,
    other_written: bool,
)
    requires
        rule_is_function(rule),
        same_matrix(before, other_before),
        0 <= i < before.nrows(),
        i < before.ncols(),
        is_coordinate_step(rule, mm, before, after, i, xc, mmc, update, written),
        is_coordinate_step(
            rule,
            mm,
            other_before,
            other_after,
            i,
            other_xc,
            other_mmc,
            other_update,
            other_written,
        ),
    ensures
        same_matrix(after, other_after),
        written == other_written,
{
    assert forall|a: int, b: int|
        0 <= a < other_xc.nrows() && 0 <= b < other_xc.ncols() implies #[trigger] xc.at(a, b)
        == other_xc.at(a, b) by {
        assert(before.at(skip(i, a), skip(i, b)) == other_before.at(skip(i, a), skip(i, b)));
    }
    assert(same_matrix(xc, other_xc));
    assert(mmc@ =~= other_mmc@);
    assert(update.row@ == other_update.row@ && update.col@ == other_update.col@);
    assert forall|r: int, c: int|
        0 <= r < other_after.nrows() && 0 <= c < other_after.ncols() implies #[trigger] after.at(
        r,
        c,
    ) == other_after.at(r, c) by {
        assert(before.at(r, c) == other_before.at(r, c));
    }
}

/// Where the rule returns one update for one argument, the relaxation is
/// repeatable: two relaxations along one schedule from matrices with the
/// same entries pass through matrices with the same entries. The schedule
/// is the same where the generator gives the same draws.
pub proof fn lemma_relaxation_is_repeatable<T: Copy, S: Fn(&Matrix<T>, &Vec<T>) -> CrossUpdate<T>>(
    rule: &S,
    mm: &Matrix<T>,
    schedule: Seq<usize>,
    xs: Seq<Matrix<T>>,
    writes: Seq<bool>,
    ys: Seq<Matrix<T>>,
    other_writes: Seq<bool>,
    t: int,
)
    requires
        rule_is_function(rule),
        is_relaxation(rule, mm, schedule, xs, writes),
        is_relaxation(rule, mm, schedule, ys, other_writes),
        same_matrix(&xs[0], &ys[0]),
        xs[0].nrows() == xs[0].ncols(),
        forall|k: int| 0 <= k < schedule.len() ==> #[trigger] schedule[k] < xs[0].nrows(),
        0 <= t <= schedule.len(),
    ensures
        same_matrix(&xs[t], &ys[t]),
        xs[t].nrows() == xs[0].nrows(),
        xs[t].ncols() == xs[0].nrows(),
        t >= 1 ==> writes[t - 1] == other_writes[t - 1],
    decreases t,
{
    if t > 0 {
        lemma_relaxation_is_repeatable(rule, mm, schedule, xs, writes, ys, other_writes, t - 1);
        assert(is_relax_link(rule, mm, schedule, xs, writes, t - 1));
        assert(is_relax_link(rule, mm, schedule, ys, other_writes, t - 1));
        let i: int = schedule[t - 1] as int;
        let (xc, mmc, update) = choose|xc: &Matrix<T>, mmc: &Vec<T>, update: CrossUpdate<T>|
            #[trigger] is_coordinate_step(
                rule,
                mm,
                &xs[t - 1],
                &xs[t - 1 + 1],
                i,
                xc,
                mmc,
                update,
                writes[t - 1],
            );
        let (yc, mmd, other_update) = choose|xc: &Matrix<T>, mmc: &Vec<T>, update: CrossUpdate<T>|
            #[trigger] is_coordinate_step(
                rule,
                mm,
                &ys[t - 1],
                &ys[t - 1 + 1],
                i,
                xc,
                mmc,
                update,
                other_writes[t - 1],
            );
        lemma_step_is_repeatable(
            rule,
            mm,
            i,
            &xs[t - 1],
            &xs[t],
            xc,
            mmc,
            update,
            writes[t - 1],
            &ys[t - 1],
            &ys[t],
            yc,
            mmd,
            other_update,
            other_writes[t - 1],
        );
    }
}

/// The coordinates of a relaxation of an `m` by `m` matrix: `repeat` draws
/// from `rng`, each below `m`; none where `m` is 0.
pub fn draw_schedule(rng: &mut StdRng, m: usize, repeat: usize) -> (schedule: Vec<usize>)
    ensures
        schedule@.len() == if m > 0 {
            repeat
        } else {
            0
        },
        forall|t: int| 0 <= t < schedule@.len() ==> #[trigger] schedule@[t] < m,
{
    let mut schedule: Vec<usize> = Vec::new();
    if m == 0 {
        return schedule;
    }
    let mut round: usize = 0;
    while round < repeat
        invariant
            round <= repeat,
            m > 0,
            schedule@.len() == round,
            forall|t: int| 0 <= t < schedule@.len() ==> #[trigger] schedule@[t] < m,
        decreases repeat - round,
    {
        match pick_coordinate(rng, m) {
            Some(i) => {
                schedule.push(i);
            },
            None => {
                schedule.push(0);
            },
        }
        round = round + 1;
    }
    schedule
}

/// The coordinate iteration of the relaxation along given coordinates: one
/// step at each, in order. Whatever `rule` returns, the matrix keeps its
/// dimensions and its diagonal. The result is the number of steps that
/// wrote into the matrix.
pub fn relax_along<T: Copy, S: Fn(&Matrix<T>, &Vec<T>) -> CrossUpdate<T>>(
    x: &mut Matrix<T>,
    mm: &Matrix<T>,
    schedule: &[usize],
    rule: &S,
) -> (steps: usize)
    requires
        old(x).nrows() == old(x).ncols(),
        mm.nrows() == old(x).nrows(),
        mm.ncols() == old(x).nrows(),
        rule_is_total(rule, old(x).nrows()),
        forall|t: int| 0 <= t < schedule@.len() ==> #[trigger] schedule@[t] < old(x).nrows(),
    ensures
        keeps_diagonal(final(x), old(x)),
        exists|xs: Seq<Matrix<T>>, writes: Seq<bool>|
            xs[0] == *old(x) && xs.last() == *final(x) && steps == written_steps(writes)
                && #[trigger] is_relaxation(rule, mm, schedule@, xs, writes),
{
    let m: usize = x.rows();
    let rounds: usize = schedule.len();
    let ghost mut xs: Seq<Matrix<T>> = seq![*x];
    let ghost mut writes: Seq<bool> = Seq::empty();
    if m == 0 || rounds == 0 {
        proof {
            if rounds > 0 {
                assert(schedule@[0] < m);
            }
            assert(is_relaxation(rule, mm, schedule@, xs, writes));
        }
        return 0;
    }
    let fill: T = x.get(0, 0);
    let entries: usize = x.size();
    proof {
        lemma_smaller_square(m as int);
    }
    let mut xc: Matrix<T> = match Matrix::filled(m - 1, m - 1, fill) {
        Some(xc) => xc,
        None => {
            return 0;
        },
    };
    let mut mmc: Vec<T> = Vec::new();
    let mut k: usize = 0;
    while k + 1 < m
        invariant
            k + 1 <= m,
            mmc@.len() == k,
        decreases m - k,
    {
        mmc.push(fill);
        k = k + 1;
    }
    let mut steps: usize = 0;
    let mut round: usize = 0;
    while round < rounds
        invariant
            round <= rounds,
            rounds == schedule@.len(),
            steps <= round,
            steps == written_steps(writes),
            writes.len() == round,
            m > 0,
            x.nrows() == m,
            x.ncols() == m,
            old(x).nrows() == m,
            mm.nrows() == m,
            mm.ncols() == m,
            xc.nrows() == m - 1,
            xc.ncols() == m - 1,
            mmc@.len() == m - 1,
            rule_is_total(rule, m as nat),
            forall|t: int| 0 <= t < schedule@.len() ==> #[trigger] schedule@[t] < m,
            keeps_diagonal(&*x, old(x)),
            xs.len() == round + 1,
            xs[0] == *old(x),
            xs.last() == *x,
            forall|t: int|
                0 <= t < round ==> #[trigger] is_relax_link(rule, mm, schedule@, xs, writes, t),
        decreases rounds - round,
    {
        let ghost before = *x;
        let ghost old_xs = xs;
        let ghost old_writes = writes;
        let i: usize = schedule[round];
        let written: bool = coordinate_step(x, mm, i, &mut xc, &mut mmc, rule);
        if written {
            steps = steps + 1;
        }
        proof {
            let update: CrossUpdate<T> = choose|update: CrossUpdate<T>|
                call_ensures(*rule, (&xc, &mmc), update) && #[trigger] is_step(
                    &*x,
                    &before,
                    i as int,
                    update,
                    written,
                );
            assert forall|r: int| 0 <= r < m implies #[trigger] x.at(r, r) == before.at(r, r) by {}
            xs = xs.push(*x);
            writes = writes.push(written);
            assert(writes.drop_last() =~= old_writes);
            assert(writes[round as int] == written);
            assert(is_coordinate_step(
                rule,
                mm,
                &xs[round as int],
                &xs[round + 1],
                schedule@[round as int] as int,
                &xc,
                &mmc,
                update,
                written,
            ));
            assert(is_relax_link(rule, mm, schedule@, xs, writes, round as int));
            assert forall|t: int| 0 <= t < round + 1 implies #[trigger] is_relax_link(
                rule,
                mm,
                schedule@,
                xs,
                writes,
                t,
            ) by {
                if t < round {
                    assert(is_relax_link(rule, mm, schedule@, old_xs, old_writes, t));
                    let (c, d, u) = choose|xc: &Matrix<T>, mmc: &Vec<T>, update: CrossUpdate<T>|
                        #[trigger] is_coordinate_step(
                            rule,
                            mm,
                            &old_xs[t],
                            &old_xs[t + 1],
                            schedule@[t] as int,
                            xc,
                            mmc,
                            update,
                            old_writes[t],
                        );
                    assert(is_coordinate_step(
                        rule,
                        mm,
                        &xs[t],
                        &xs[t + 1],
                        schedule@[t] as int,
                        c,
                        d,
                        u,
                        writes[t],
                    ));
                }
            }
        }
        round = round + 1;
    }
    proof {
        assert(is_relaxation(rule, mm, schedule@, xs, writes));
    }
    steps
}

/// The coordinate iteration of the relaxation: `repeat` times a coordinate
/// is drawn from `rng` and one step is made at it; see [`relax_along`].
/// Whatever is drawn and whatever `rule` returns, the matrix keeps its
/// dimensions and its diagonal. The result is the number of steps that wrote
/// into the matrix.
pub fn relax<T: Copy, S: Fn(&Matrix<T>, &Vec<T>) -> CrossUpdate<T>>(
    x: &mut Matrix<T>,
    mm: &Matrix<T>,
    repeat: usize,
    rng: &mut StdRng,
    rule: &S,
) -> (steps: usize)
    requires
        old(x).nrows() == old(x).ncols(),
        mm.nrows() == old(x).nrows(),
        mm.ncols() == old(x).nrows(),
        rule_is_total(rule, old(x).nrows()),
    ensures
        keeps_diagonal(final(x), old(x)),
        exists|schedule: Seq<usize>, xs: Seq<Matrix<T>>, writes: Seq<bool>|
            {
                &&& schedule.len() == if old(x).nrows() > 0 {
                    repeat
                } else {
                    0
                }
                &&& forall|t: int|
                    0 <= t < schedule.len() ==> #[trigger] schedule[t] < old(x).nrows()
                &&& xs[0] == *old(x)
                &&& xs.last() == *final(x)
                &&& steps == written_steps(writes)
                &&& #[trigger] is_relaxation(rule, mm, schedule, xs, writes)
            },
{
    let schedule: Vec<usize> = draw_schedule(rng, x.rows(), repeat);
    let steps: usize = relax_along(x, mm, schedule.as_slice(), rule);
    proof {
        let (xs, writes) = choose|xs: Seq<Matrix<T>>, writes: Seq<bool>|
            xs[0] == *old(x) && xs.last() == *x && steps == written_steps(writes)
                && #[trigger] is_relaxation(rule, mm, schedule@, xs, writes);
        assert(is_relaxation(rule, mm, schedule@, xs, writes));
    }
    steps
}

/// A square one smaller has no more entries.
proof fn lemma_smaller_square(m: int)
    requires
        m >= 1,
    ensures
        (m - 1) * (m - 1) <= m * m,
{
    assert((m - 1) * (m - 1) <= m * m) by (nonlinear_arith)
        requires
            m >= 1,
    ;
}

/// How the drives are recovered from the relaxation matrix.
#[derive(PartialEq, Eq, Structural, Copy, Clone, Debug)]
pub enum Recovery {
    /// From the eigenvector at this position.
    Eigenvector(usize),
    /// From the closed form for a single focus, the matched filter.
    ClosedForm,
}

/// The recovery that belongs to the magnitudes of the eigenvalues, given as
/// order keys of which 0 stands for magnitude zero: the eigenvector of the
/// first largest magnitude where one is above zero; else the closed form
/// where there is at most one eigenvalue, and the first eigenvector where
/// there are more.
pub open spec fn is_recovery(keys: Seq<u64>, r: Recovery) -> bool {
    match r {
        Recovery::Eigenvector(i) => if some_above(keys, 0) {
            is_first_maximum(keys, i as int)
        } else {
            keys.len() >= 2 && i == 0
        },
        Recovery::ClosedForm => !some_above(keys, 0) && keys.len() <= 1,
    }
}

/// Chooses how to recover the drives, given the magnitude of every eigenvalue
/// as an order key.
pub fn recovery(keys: &[u64]) -> (r: Recovery)
    ensures
        is_recovery(keys@, r),
        r is Eigenvector ==> r->0 < keys@.len(),
{
    match first_maximum(keys, 0) {
        Some(i) => Recovery::Eigenvector(i),
        None => {
            if keys.len() <= 1 {
                Recovery::ClosedForm
            } else {
                Recovery::Eigenvector(0)
            }
        },
    }
}

/// The semidefinite relaxation: its targets, the number of coordinate updates,
/// the regularization of the pseudo-inverse and the step size of the update.
pub struct Horn<V, F> {
    targets: Targets<V, F>,
    repeat: usize,
    alpha: F,
    lambda: F,
}

impl<V: Copy, F: Copy> Horn<V, F> {
    /// The targets.
    pub closed spec fn spec_targets(&self) -> Targets<V, F> {
        self.targets
    }

    /// The number of coordinate updates.
    pub closed spec fn spec_repeat(&self) -> usize {
        self.repeat
    }

    /// The regularization of the pseudo-inverse.
    pub closed spec fn spec_alpha(&self) -> F {
        self.alpha
    }

    /// The step size of the update.
    pub closed spec fn spec_lambda(&self) -> F {
        self.lambda
    }

    /// The configuration is that of `other`.
    pub open spec fn same_options(&self, other: &Self) -> bool {
        &&& self.spec_repeat() == other.spec_repeat()
        &&& self.spec_alpha() == other.spec_alpha()
        &&& self.spec_lambda() == other.spec_lambda()
    }

    pub fn new(repeat: usize, alpha: F, lambda: F) -> (s: Self)
        ensures
            s.spec_repeat() == repeat,
            s.spec_alpha() == alpha,
            s.spec_lambda() == lambda,
            s.spec_targets().spec_foci() == Seq::<V>::empty(),
            s.spec_targets().spec_amps() == Seq::<F>::empty(),
    {
        Self { targets: Targets::new(), repeat, alpha, lambda }
    }

    /// Replaces the focus positions by a copy of `foci`.
    pub fn set_target_foci(&mut self, foci: &[V])
        ensures
            final(self).spec_targets().spec_foci() == foci@,
            final(self).spec_targets().spec_amps() == old(self).spec_targets().spec_amps(),
            final(self).same_options(old(self)),
    {
        self.targets.set_foci(foci);
    }

    /// Replaces the target magnitudes by a copy of `amps`.
    pub fn set_target_amps(&mut self, amps: &[F])
        ensures
            final(self).spec_targets().spec_amps() == amps@,
            final(self).spec_targets().spec_foci() == old(self).spec_targets().spec_foci(),
            final(self).same_options(old(self)),
    {
        self.targets.set_amps(amps);
    }

    /// The targets.
    pub fn targets(&self) -> (t: &Targets<V, F>)
        ensures
            *t == self.spec_targets(),
    {
        &self.targets
    }

    /// The number of coordinate updates.
    pub fn repeat(&self) -> (r: usize)
        ensures
            r == self.spec_repeat(),
    {
        self.repeat
    }

    /// The regularization of the pseudo-inverse.
    pub fn alpha(&self) -> (r: F)
        ensures
            r == self.spec_alpha(),
    {
        self.alpha
    }

    /// The step size of the update.
    pub fn lambda(&self) -> (r: F)
        ensures
            r == self.spec_lambda(),
    {
        self.lambda
    }
}

} // verus!
