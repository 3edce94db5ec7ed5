//! Greedy brute-force search over a grid of amplitudes and phases.
//!
//! Emitters are visited one after the other. For each, every candidate drive
//! on the grid is scored, and the candidate with the smallest score is
//! committed; among equal scores the one enumerated first wins. Candidates are
//! enumerated amplitude by amplitude and, within one amplitude, phase by phase.

use rand::rngs::StdRng;
use vstd::arithmetic::div_mod::{
    lemma_fundamental_div_mod,
    lemma_mod_bound,
    lemma_multiply_divide_lt,
};
use vstd::prelude::*;
use crate::random::{ascending, is_permutation, visit_order};
use crate::select::{first_minimum, is_first_minimum, lemma_first_extremum_unique, some_below};
use crate::targets::Targets;
use crate::optimizer::{
    all_admissible,
    check_drives,
    drives_of,
    lemma_same_sources,
    lemma_test_decides,
    some_inadmissible,
    test_is_function,
};
use crate::wave_source::{assign_drives, drives, positions, WaveSource};

verus! {

/// Why a search wrote no drives.
#[derive(PartialEq, Eq, Structural, Copy, Clone, Debug)]
pub enum SearchError {
    /// There are not as many target magnitudes as foci.
    TargetsMismatched,
    /// The grid holds no candidate, or more than the machine word counts.
    NoGrid,
    /// The search came to a drive that an emitter cannot take.
    Inadmissible,
}

/// A candidate drive on the grid: `amp_step` of `amp_division` equal parts of
/// the full amplitude, turned by `phase_step` of `phase_division` equal parts
/// of the circle.
#[derive(PartialEq, Eq, Structural, Copy, Clone, Debug)]
pub struct Candidate {
    pub amp_step: usize,
    pub phase_step: usize,
}

/// The place of grid point (`amp_step`, `phase_step`) in the enumeration.
pub open spec fn rank(amp_step: int, phase_step: int, phase_division: int) -> int {
    (amp_step - 1) * phase_division + phase_step
}

/// The enumeration goes amplitude by amplitude and, within one amplitude,
/// phase by phase: of two grid points the one with the smaller amplitude step
/// comes first, and of two with the same amplitude step the one with the
/// smaller phase step.
pub proof fn lemma_rank_is_lexicographic(
    amp: int,
    phase: int,
    other_amp: int,
    other_phase: int,
    phase_division: int,
)
    requires
        0 <= phase < phase_division,
        0 <= other_phase < phase_division,
    ensures
        rank(amp, phase, phase_division) < rank(other_amp, other_phase, phase_division) <==> (amp
            < other_amp || (amp == other_amp && phase < other_phase)),
{
    if amp < other_amp {
        assert((amp - 1) * phase_division + phase < (other_amp - 1) * phase_division + other_phase)
            by (nonlinear_arith)
            requires
                amp < other_amp,
                0 <= phase < phase_division,
                0 <= other_phase,
        ;
    } else if other_amp < amp {
        assert((other_amp - 1) * phase_division + other_phase < (amp - 1) * phase_division + phase)
            by (nonlinear_arith)
            requires
                other_amp < amp,
                0 <= other_phase < phase_division,
                0 <= phase,
        ;
    }
}

/// Greedy brute-force search: its targets, the two grid sizes, and whether
/// emitters are visited in random order.
pub struct GreedyBruteForce<V, F> {
    targets: Targets<V, F>,
    phase_division: usize,
    amp_division: usize,
    randomize: bool,
}

impl<V: Copy, F: Copy> GreedyBruteForce<V, F> {
    /// The targets.
    pub closed spec fn spec_targets(&self) -> Targets<V, F> {
        self.targets
    }

    /// The number of phase samples on the circle.
    pub closed spec fn spec_phase_division(&self) -> usize {
        self.phase_division
    }

    /// The number of amplitude samples.
    pub closed spec fn spec_amp_division(&self) -> usize {
        self.amp_division
    }

    /// Whether emitters are visited in random order.
    pub closed spec fn spec_randomize(&self) -> bool {
        self.randomize
    }

    /// The configuration is that of `other`.
    pub open spec fn same_options(&self, other: &Self) -> bool {
        &&& self.spec_phase_division() == other.spec_phase_division()
        &&& self.spec_amp_division() == other.spec_amp_division()
        &&& self.spec_randomize() == other.spec_randomize()
    }

    /// The number of candidates on the grid.
    pub open spec fn grid_size(&self) -> int {
        self.spec_amp_division() * self.spec_phase_division()
    }

    /// The candidate lies on the grid. Amplitude step 0, the silent drive, does not.
    pub open spec fn on_grid(&self, c: Candidate) -> bool {
        &&& 1 <= c.amp_step <= self.spec_amp_division()
        &&& c.phase_step < self.spec_phase_division()
    }

    /// The place of a candidate in the enumeration.
    pub open spec fn rank_of(&self, c: Candidate) -> int {
        rank(c.amp_step as int, c.phase_step as int, self.spec_phase_division() as int)
    }

    pub fn new(phase_division: usize, amp_division: usize, randomize: bool) -> (s: Self)
        ensures
            s.spec_phase_division() == phase_division,
            s.spec_amp_division() == amp_division,
            s.spec_randomize() == randomize,
            s.spec_targets().spec_foci() == Seq::<V>::empty(),
            s.spec_targets().spec_amps() == Seq::<F>::empty(),
    {
        Self { targets: Targets::new(), phase_division, amp_division, randomize }
    }

    /// Replaces the focus positions by a copy of `foci`.
    pub fn set_target_foci(&mut self, foci: &[V])
        ensures
            final(self).spec_targets().spec_foci() == foci@,
            final(self).spec_targets().spec_amps() == old(self).spec_targets().spec_amps(),
            final(self).same_options(old(self)),
    {
        self.targets.set_foci(foci);
    }

    /// Replaces the target magnitudes by a copy of `amps`.
    pub fn set_target_amps(&mut self, amps: &[F])
        ensures
            final(self).spec_targets().spec_amps() == amps@,
            final(self).spec_targets().spec_foci() == old(self).spec_targets().spec_foci(),
            final(self).same_options(old(self)),
    {
        self.targets.set_amps(amps);
    }

    /// The targets.
    pub fn targets(&self) -> (t: &Targets<V, F>)
        ensures
            *t == self.spec_targets(),
    {
        &self.targets
    }

    /// The number of phase samples on the circle.
    pub fn phase_division(&self) -> (r: usize)
        ensures
            r == self.spec_phase_division(),
    {
        self.phase_division
    }

    /// The number of amplitude samples.
    pub fn amp_division(&self) -> (r: usize)
        ensures
            r == self.spec_amp_division(),
    {
        self.amp_division
    }

    /// Whether emitters are visited in random order.
    pub fn randomize(&self) -> (r: bool)
        ensures
            r == self.spec_randomize(),
    {
        self.randomize
    }

    /// The number of candidates on the grid, or `None` where it does not fit
    /// the machine word.
    pub fn candidate_count(&self) -> (count: Option<usize>)
        ensures
            count.is_some() <==> self.grid_size() <= usize::MAX,
            count.is_some() ==> count.unwrap() == self.grid_size(),
    {
        self.amp_division.checked_mul(self.phase_division)
    }

    /// The candidate at a place of the enumeration.
    pub open spec fn spec_candidate(&self, index: int) -> Candidate {
        Candidate {
            amp_step: (index / (self.spec_phase_division() as int) + 1) as usize,
            phase_step: (index % (self.spec_phase_division() as int)) as usize,
        }
    }

    /// `choice` is what a search over `keys` commits.
    pub open spec fn is_choice(
        &self,
        keys: Seq<u64>,
        below: u64,
        choice: Option<Candidate>,
    ) -> bool {
        &&& choice.is_some() <==> some_below(keys, below)
        &&& choice.is_some() ==> {
            &&& self.on_grid(choice.unwrap())
            &&& is_first_minimum(keys, self.rank_of(choice.unwrap()))
            &&& keys[self.rank_of(choice.unwrap())] < below
        }
    }

    /// `keys` holds, in the order of enumeration, a key that `score` gives to
    /// each candidate for emitter `j` when the field so far is `acc`.
    pub open spec fn is_scored<A, S: Fn(&A, usize, Candidate) -> u64>(
        &self,
        score: &S,
        acc: &A,
        j: usize,
        keys: Seq<u64>,
    ) -> bool {
        &&& keys.len() == self.grid_size()
        &&& forall|e: int|
            0 <= e < keys.len() ==> call_ensures(
                *score,
                (acc, j, self.spec_candidate(e)),
                #[trigger] keys[e],
            )
    }

    /// Emitter `j` is visited when the field so far is `before`: every
    /// candidate is scored, the choice among them is committed, and `commit`
    /// gives the field `after` and the drive `q` of the emitter.
    pub open spec fn is_visit<A, C, S: Fn(&A, usize, Candidate) -> u64, K: Fn(
        A,
        usize,
        Option<Candidate>,
    ) -> (A, C)>(
        &self,
        score: &S,
        commit: &K,
        below: u64,
        before: A,
        j: usize,
        after: A,
        q: C,
    ) -> bool {
        exists|keys: Seq<u64>, choice: Option<Candidate>|
            self.is_scored(score, &before, j, keys)
                && #[trigger] self.is_choice(keys, below, choice)
                && call_ensures(*commit, (before, j, choice), (after, q))
    }

    /// The visit at place `t` of a sweep leads from `accs[t]` to `accs[t + 1]`
    /// and gives the emitter `order[t]` the drive `qs[t]`.
    pub open spec fn is_visit_at<A, C, S: Fn(&A, usize, Candidate) -> u64, K: Fn(
        A,
        usize,
        Option<Candidate>,
    ) -> (A, C)>(
        &self,
        score: &S,
        commit: &K,
        below: u64,
        order: Seq<usize>,
        accs: Seq<A>,
        qs: Seq<C>,
        t: int,
    ) -> bool {
        self.is_visit(score, commit, below, accs[t], order[t], accs[t + 1], qs[t])
    }

    /// The emitters are visited in `order`, from the field `accs[0]` on: the
    /// visit at place `t` leads from `accs[t]` to `accs[t + 1]` and gives the
    /// emitter `order[t]` the drive `qs[t]`, which is its drive in `result`.
    pub open spec fn is_sweep<A, C, S: Fn(&A, usize, Candidate) -> u64, K: Fn(
        A,
        usize,
        Option<Candidate>,
    ) -> (A, C)>(
        &self,
        score: &S,
        commit: &K,
        below: u64,
        order: Seq<usize>,
        accs: Seq<A>,
        qs: Seq<C>,
        result: Seq<C>,
    ) -> bool {
        &&& order.len() == result.len()
        &&& is_permutation(order)
        &&& !self.spec_randomize() ==> order == ascending(result.len())
        &&& accs.len() == order.len() + 1
        &&& qs.len() == order.len()
        &&& forall|t: int|
            0 <= t < order.len() ==> #[trigger] self.is_visit_at(
                score,
                commit,
                below,
                order,
                accs,
                qs,
                t,
            )
        &&& forall|t: int| 0 <= t < order.len() ==> result[order[t] as int] == #[trigger] qs[t]
    }

    /// `score` gives one key to one candidate for one emitter and one field.
    pub open spec fn score_is_function<A, S: Fn(&A, usize, Candidate) -> u64>(score: &S) -> bool {
        forall|a: &A, j: usize, c: Candidate, k: u64, l: u64|
            #[trigger] call_ensures(*score, (a, j, c), k) && #[trigger] call_ensures(
                *score,
                (a, j, c),
                l,
            ) ==> k == l
    }

    /// `commit` gives one field and one drive for one field, emitter and choice.
    pub open spec fn commit_is_function<A, C, K: Fn(A, usize, Option<Candidate>) -> (A, C)>(
        commit: &K,
    ) -> bool {
        forall|a: A, j: usize, c: Option<Candidate>, r: (A, C), s: (A, C)|
            #[trigger] call_ensures(*commit, (a, j, c), r) && #[trigger] call_ensures(
                *commit,
                (a, j, c),
                s,
            ) ==> r == s
    }

    /// A search over given keys has one choice.
    pub proof fn lemma_choice_is_unique(
        &self,
        keys: Seq<u64>,
        below: u64,
        c: Option<Candidate>,
        d: Option<Candidate>,
    )
        requires
            self.is_choice(keys, below, c),
            self.is_choice(keys, below, d),
        ensures
            c == d,
    {
        if c.is_some() {
            lemma_first_extremum_unique(keys, self.rank_of(c.unwrap()), self.rank_of(d.unwrap()));
            self.lemma_rank_on_grid(c.unwrap(), d.unwrap());
        }
    }

    /// Where scoring and committing give one result for one argument, a visit
    /// has one result.
    pub proof fn lemma_visit_is_repeatable<A, C, S: Fn(&A, usize, Candidate) -> u64, K: Fn(
        A,
        usize,
        Option<Candidate>,
    ) -> (A, C)>(
        &self,
        score: &S,
        commit: &K,
        below: u64,
        before: A,
        j: usize,
        after: A,
        q: C,
        other_after: A,
        other_q: C,
    )
        requires
            Self::score_is_function(score),
            Self::commit_is_function(commit),
            self.is_visit(score, commit, below, before, j, after, q),
            self.is_visit(score, commit, below, before, j, other_after, other_q),
        ensures
            after == other_after,
            q == other_q,
    {
        let (keys, choice) = choose|keys: Seq<u64>, choice: Option<Candidate>|
            self.is_scored(score, &before, j, keys)
                && #[trigger] self.is_choice(keys, below, choice)
                && call_ensures(*commit, (before, j, choice), (after, q));
        let (other_keys, other_choice) = choose|keys: Seq<u64>, choice: Option<Candidate>|
            self.is_scored(score, &before, j, keys)
                && #[trigger] self.is_choice(keys, below, choice)
                && call_ensures(*commit, (before, j, choice), (other_after, other_q));
        assert forall|e: int| 0 <= e < keys.len() implies keys[e] == other_keys[e] by {
            assert(call_ensures(*score, (&before, j, self.spec_candidate(e)), keys[e]));
            assert(call_ensures(*score, (&before, j, self.spec_candidate(e)), other_keys[e]));
        }
        assert(keys =~= other_keys);
        self.lemma_choice_is_unique(keys, below, choice, other_choice);
        assert((after, q) == (other_after, other_q));
    }

    /// Where scoring and committing give one result for one argument, the
    /// search is repeatable: two sweeps in one order from one field pass
    /// through the same fields and give every emitter the same drive. Without
    /// randomizing the order is always the same; with it, it is the same
    /// where the generator gives the same draws.
    pub proof fn lemma_sweep_is_repeatable<A, C, S: Fn(&A, usize, Candidate) -> u64, K: Fn(
        A,
        usize,
        Option<Candidate>,
    ) -> (A, C)>(
        &self,
        score: &S,
        commit: &K,
        below: u64,
        order: Seq<usize>,
        accs: Seq<A>,
        qs: Seq<C>,
        result: Seq<C>,
        other_accs: Seq<A>,
        other_qs: Seq<C>,
        other_result: Seq<C>,
    )
        requires
            Self::score_is_function(score),
            Self::commit_is_function(commit),
            self.is_sweep(score, commit, below, order, accs, qs, result),
            self.is_sweep(score, commit, below, order, other_accs, other_qs, other_result),
            accs[0] == other_accs[0],
        ensures
            accs == other_accs,
            qs == other_qs,
            result == other_result,
    {
        assert forall|t: int| 0 <= t < accs.len() implies #[trigger] accs[t] == other_accs[t] by {
            self.lemma_sweep_agrees(
                score,
                commit,
                below,
                order,
                accs,
                qs,
                result,
                other_accs,
                other_qs,
                other_result,
                t,
            );
        }
        assert forall|t: int| 0 <= t < qs.len() implies #[trigger] qs[t] == other_qs[t] by {
            self.lemma_sweep_agrees(
                score,
                commit,
                below,
                order,
                accs,
                qs,
                result,
                other_accs,
                other_qs,
                other_result,
                t + 1,
            );
        }
        assert forall|j: int| 0 <= j < result.len() implies #[trigger] result[j]
            == other_result[j] by {
            assert(order.contains(j as usize));
            let t: int = choose|t: int| 0 <= t < order.len() && order[t] == j as usize;
            assert(result[order[t] as int] == qs[t]);
            assert(other_result[order[t] as int] == other_qs[t]);
        }
        assert(accs =~= other_accs);
        assert(qs =~= other_qs);
        assert(result =~= other_result);
    }

    proof fn lemma_sweep_agrees<A, C, S: Fn(&A, usize, Candidate) -> u64, K: Fn(
        A,
        usize,
        Option<Candidate>,
    ) -> (A, C)>(
        &self,
        score: &S,
        commit: &K,
        below: u64,
        order: Seq<usize>,
        accs: Seq<A>,
        qs: Seq<C>,
        result: Seq<C>,
        other_accs: Seq<A>,
        other_qs: Seq<C>,
        other_result: Seq<C>,
        t: int,
    )
        requires
            Self::score_is_function(score),
            Self::commit_is_function(commit),
            self.is_sweep(score, commit, below, order, accs, qs, result),
            self.is_sweep(score, commit, below, order, other_accs, other_qs, other_result),
            accs[0] == other_accs[0],
            0 <= t < accs.len(),
        ensures
            accs[t] == other_accs[t],
            t >= 1 ==> qs[t - 1] == other_qs[t - 1],
        decreases t,
    {
        if t >= 1 {
            self.lemma_sweep_agrees(
                score,
                commit,
                below,
                order,
                accs,
                qs,
                result,
                other_accs,
                other_qs,
                other_result,
                t - 1,
            );
            assert(self.is_visit_at(score, commit, below, order, accs, qs, t - 1));
            assert(self.is_visit_at(score, commit, below, order, other_accs, other_qs, t - 1));
            self.lemma_visit_is_repeatable(
                score,
                commit,
                below,
                accs[t - 1],
                order[t - 1],
                accs[t],
                qs[t - 1],
                other_accs[t],
                other_qs[t - 1],
            );
        }
    }

    /// The candidate at a place of the enumeration.
    pub fn candidate(&self, index: usize) -> (c: Candidate)
        requires
            index < self.grid_size(),
        ensures
            c == self.spec_candidate(index as int),
            self.on_grid(c),
            self.rank_of(c) == index,
    {
        let p: usize = self.phase_division;
        proof {
            let a: int = self.amp_division as int;
            let d: int = p as int;
            let x: int = index as int;
            assert(d > 0) by (nonlinear_arith)
                requires
                    0 <= x < a * d,
                    0 <= a,
                    0 <= d,
            ;
            lemma_fundamental_div_mod(x, d);
            lemma_mod_bound(x, d);
            assert(x / d < a) by {
                assert(a * d == d * a) by (nonlinear_arith);
                lemma_multiply_divide_lt(x, d, a);
            }
            assert(0 <= x / d) by {
                vstd::arithmetic::div_mod::lemma_div_pos_is_pos(x, d);
            }
            assert(d * (x / d) == (x / d) * d) by (nonlinear_arith);
        }
        Candidate { amp_step: index / p + 1, phase_step: index % p }
    }

    /// The place of a candidate in the enumeration lies on the grid, and no
    /// other candidate has it.
    pub proof fn lemma_rank_on_grid(&self, c: Candidate, d: Candidate)
        requires
            self.on_grid(c),
            self.on_grid(d),
        ensures
            0 <= self.rank_of(c) < self.grid_size(),
            self.rank_of(c) == self.rank_of(d) ==> c == d,
    {
        let a: int = self.spec_amp_division() as int;
        let p: int = self.spec_phase_division() as int;
        let ca: int = c.amp_step as int;
        let cp: int = c.phase_step as int;
        assert(0 <= (ca - 1) * p + cp < a * p) by (nonlinear_arith)
            requires
                1 <= ca <= a,
                0 <= cp < p,
        ;
        lemma_rank_is_lexicographic(ca, cp, d.amp_step as int, d.phase_step as int, p);
        lemma_rank_is_lexicographic(d.amp_step as int, d.phase_step as int, ca, cp, p);
    }

    /// The candidate to commit, given the score key of every candidate in the
    /// order of enumeration: the first with the smallest key, provided that key
    /// lies strictly below `below`; `None` where no key does.
    pub fn search(&self, keys: &[u64], below: u64) -> (best: Option<Candidate>)
        requires
            keys@.len() == self.grid_size(),
        ensures
            best.is_some() <==> some_below(keys@, below),
            best.is_some() ==> {
                &&& self.on_grid(best.unwrap())
                &&& is_first_minimum(keys@, self.rank_of(best.unwrap()))
                &&& keys@[self.rank_of(best.unwrap())] < below
            },
    {
        match first_minimum(keys, below) {
            None => None,
            Some(index) => Some(self.candidate(index)),
        }
    }

    /// Visits one emitter: scores every candidate for it, chooses among them
    /// and commits the choice.
    pub fn visit<A, C, S: Fn(&A, usize, Candidate) -> u64, K: Fn(A, usize, Option<Candidate>) -> (
        A,
        C,
    )>(&self, acc: A, j: usize, below: u64, score: &S, commit: &K) -> (r: (A, C))
        requires
            self.grid_size() <= usize::MAX,
            forall|a: &A, c: Candidate| self.on_grid(c) ==> call_requires(*score, (a, j, c)),
            forall|a: A, c: Option<Candidate>| call_requires(*commit, (a, j, c)),
        ensures
            self.is_visit(score, commit, below, acc, j, r.0, r.1),
    {
        let count: usize = match self.candidate_count() {
            Some(count) => count,
            None => 0,
        };
        let mut keys: Vec<u64> = Vec::new();
        let mut e: usize = 0;
        while e < count
            invariant
                e <= count,
                count == self.grid_size(),
                keys@.len() == e,
                forall|a: &A, c: Candidate| self.on_grid(c) ==> call_requires(*score, (a, j, c)),
                forall|k: int|
                    0 <= k < e ==> call_ensures(
                        *score,
                        (&acc, j, self.spec_candidate(k)),
                        #[trigger] keys@[k],
                    ),
            decreases count - e,
        {
            let c: Candidate = self.candidate(e);
            let key: u64 = score(&acc, j, c);
            keys.push(key);
            e = e + 1;
        }
        let choice: Option<Candidate> = self.search(keys.as_slice(), below);
        let ghost before = acc;
        let r: (A, C) = commit(acc, j, choice);
        proof {
            assert(self.is_scored(score, &before, j, keys@));
            assert(self.is_choice(keys@, below, choice));
        }
        r
    }

    /// What a search makes of the emitters `before`, in the main case of at
    /// least one target, one emitter and a grid that is not empty: the
    /// emitters are swept from the field `start` on, and the drives of the
    /// sweep are put to the test. Where the test accepts every one, they are
    /// written, and the result is the field after the last visit; where it
    /// refuses one, nothing is written.
    pub open spec fn is_searched<A, C, S: Fn(&A, usize, Candidate) -> u64, K: Fn(
        A,
        usize,
        Option<Candidate>,
    ) -> (A, C), D: Fn(&C) -> bool>(
        &self,
        score: &S,
        commit: &K,
        admissible: &D,
        below: u64,
        start: A,
        before: Seq<WaveSource<V, C>>,
        after: Seq<WaveSource<V, C>>,
        r: Result<A, SearchError>,
    ) -> bool {
        exists|order: Seq<usize>, accs: Seq<A>, qs: Seq<C>, swept: Seq<C>|
            {
                &&& #[trigger] self.is_sweep(score, commit, below, order, accs, qs, swept)
                &&& swept.len() == before.len()
                &&& positions(after) == positions(before)
                &&& accs[0] == start
                &&& match r {
                    Ok(last) => last == accs[order.len() as int]
                        && all_admissible(admissible, swept) && drives(after) == swept,
                    Err(e) => e is Inadmissible && some_inadmissible(admissible, swept) && after
                        == before,
                }
            }
    }

    /// Where scoring, committing and testing give one result for one
    /// argument, a search that does not randomize is repeatable: from
    /// emitters at the same positions it succeeds or fails alike, and where
    /// it succeeds it leads to the same emitters and the same field. So it
    /// leads to the same emitters from the same emitters, and leaves what it
    /// has searched as it is when run on it again.
    pub proof fn lemma_search_is_repeatable<A, C, S: Fn(&A, usize, Candidate) -> u64, K: Fn(
        A,
        usize,
        Option<Candidate>,
    ) -> (A, C), D: Fn(&C) -> bool>(
        &self,
        score: &S,
        commit: &K,
        admissible: &D,
        below: u64,
        start: A,
        before: Seq<WaveSource<V, C>>,
        after: Seq<WaveSource<V, C>>,
        r: Result<A, SearchError>,
        other_before: Seq<WaveSource<V, C>>,
        other_after: Seq<WaveSource<V, C>>,
        other_r: Result<A, SearchError>,
    )
        requires
            !self.spec_randomize(),
            Self::score_is_function(score),
            Self::commit_is_function(commit),
            test_is_function(admissible),
            self.is_searched(score, commit, admissible, below, start, before, after, r),
            self.is_searched(
                score,
                commit,
                admissible,
                below,
                start,
                other_before,
                other_after,
                other_r,
            ),
            positions(before) == positions(other_before),
        ensures
            r is Ok <==> other_r is Ok,
            r is Ok ==> after == other_after && r == other_r,
    {
        let (order, accs, qs, swept) = choose|
            order: Seq<usize>,
            accs: Seq<A>,
            qs: Seq<C>,
            swept: Seq<C>,
        |
            {
                &&& #[trigger] self.is_sweep(score, commit, below, order, accs, qs, swept)
                &&& swept.len() == before.len()
                &&& positions(after) == positions(before)
                &&& accs[0] == start
                &&& match r {
                    Ok(last) => last == accs[order.len() as int]
                        && all_admissible(admissible, swept) && drives(after) == swept,
                    Err(e) => e is Inadmissible && some_inadmissible(admissible, swept) && after
                        == before,
                }
            };
        let (other_order, other_accs, other_qs, other_swept) = choose|
            order: Seq<usize>,
            accs: Seq<A>,
            qs: Seq<C>,
            swept: Seq<C>,
        |
            {
                &&& #[trigger] self.is_sweep(score, commit, below, order, accs, qs, swept)
                &&& swept.len() == other_before.len()
                &&& positions(other_after) == positions(other_before)
                &&& accs[0] == start
                &&& match other_r {
                    Ok(last) => last == accs[order.len() as int]
                        && all_admissible(admissible, swept) && drives(other_after) == swept,
                    Err(e) => e is Inadmissible && some_inadmissible(admissible, swept)
                        && other_after == other_before,
                }
            };
        assert(before.len() == positions(before).len());
        assert(other_before.len() == positions(other_before).len());
        assert(order == other_order);
        self.lemma_sweep_is_repeatable(
            score,
            commit,
            below,
            order,
            accs,
            qs,
            swept,
            other_accs,
            other_qs,
            other_swept,
        );
        lemma_test_decides(admissible, swept);
        if r is Ok {
            lemma_same_sources(after, other_after);
        }
    }

    /// Runs the search over all emitters and writes their drives.
    ///
    /// Where foci and magnitudes differ in number, or the grid holds no
    /// candidate, the call fails at once. Where there is no target or no
    /// emitter, the emitters stay as they are. Otherwise the emitters are
    /// visited one after the other, in ascending order or, where the
    /// optimizer randomizes, in an order drawn from `rng`; `start` is the
    /// field before the first visit, and the result is the field after the
    /// last. The drives are written once all emitters are visited, and only
    /// if `admissible` accepts every one. In every case the array keeps its
    /// length and every emitter its position.
    pub fn optimize_amp_phase<A, C: Copy, S: Fn(&A, usize, Candidate) -> u64, K: Fn(
        A,
        usize,
        Option<Candidate>,
    ) -> (A, C), D: Fn(&C) -> bool>(
        &self,
        sources: &mut Vec<WaveSource<V, C>>,
        rng: &mut StdRng,
        start: A,
        below: u64,
        score: &S,
        commit: &K,
        admissible: &D,
    ) -> (r: Result<A, SearchError>)
        requires
            forall|a: &A, j: usize, c: Candidate|
                j < old(sources)@.len() && self.on_grid(c) ==> call_requires(*score, (a, j, c)),
            forall|a: A, j: usize, c: Option<Candidate>|
                j < old(sources)@.len() ==> call_requires(*commit, (a, j, c)),
            forall|c: &C| call_requires(*admissible, (c,)),
        ensures
            final(sources)@.len() == old(sources)@.len(),
            positions(final(sources)@) == positions(old(sources)@),
            r is Err ==> final(sources)@ == old(sources)@,
            !self.spec_targets().matched() ==> r == Err::<A, SearchError>(
                SearchError::TargetsMismatched,
            ),
            self.spec_targets().matched() && !(0 < self.grid_size() <= usize::MAX) ==> r == Err::<
                A,
                SearchError,
            >(SearchError::NoGrid),
            self.spec_targets().matched() && 0 < self.grid_size() <= usize::MAX && (
            self.spec_targets().spec_foci().len() == 0 || old(sources)@.len() == 0) ==> r == Ok::<
                A,
                SearchError,
            >(start) && final(sources)@ == old(sources)@,
            self.spec_targets().matched() && 0 < self.grid_size() <= usize::MAX
                && self.spec_targets().spec_foci().len() > 0 && old(sources)@.len() > 0
                ==> self.is_searched(
                score,
                commit,
                admissible,
                below,
                start,
                old(sources)@,
                final(sources)@,
                r,
            ),
    {
        let m: usize = match self.targets.count() {
            Some(m) => m,
            None => {
                return Err(SearchError::TargetsMismatched);
            },
        };
        match self.candidate_count() {
            Some(count) => {
                if count == 0 {
                    return Err(SearchError::NoGrid);
                }
            },
            None => {
                return Err(SearchError::NoGrid);
            },
        }
        let n: usize = sources.len();
        if m == 0 || n == 0 {
            return Ok(start);
        }
        let order: Vec<usize> = self.visit_order(n, rng);
        let mut swept: Vec<C> = drives_of(sources);
        let mut acc: A = start;
        let ghost mut accs: Seq<A> = seq![start];
        let ghost mut qs: Seq<C> = Seq::empty();
        let mut t: usize = 0;
        while t < n
            invariant
                t <= n,
                n == sources@.len(),
                swept@.len() == n,
                order@.len() == n,
                is_permutation(order@),
                self.grid_size() <= usize::MAX,
                accs.len() == t + 1,
                accs[0] == start,
                accs[t as int] == acc,
                qs.len() == t,
                forall|a: &A, j: usize, c: Candidate|
                    j < n && self.on_grid(c) ==> call_requires(*score, (a, j, c)),
                forall|a: A, j: usize, c: Option<Candidate>|
                    j < n ==> call_requires(*commit, (a, j, c)),
                forall|k: int|
                    0 <= k < t ==> #[trigger] self.is_visit_at(
                        score,
                        commit,
                        below,
                        order@,
                        accs,
                        qs,
                        k,
                    ),
                forall|k: int| 0 <= k < t ==> swept@[order@[k] as int] == #[trigger] qs[k],
            decreases n - t,
        {
            let j: usize = order[t];
            let ghost swept_before = swept@;
            let visited: (A, C) = self.visit(acc, j, below, score, commit);
            acc = visited.0;
            swept[j] = visited.1;
            proof {
                let ghost old_accs = accs;
                let ghost old_qs = qs;
                accs = accs.push(acc);
                qs = qs.push(visited.1);
                assert forall|k: int| 0 <= k < t + 1 implies #[trigger] self.is_visit_at(
                    score,
                    commit,
                    below,
                    order@,
                    accs,
                    qs,
                    k,
                ) by {
                    if k < t {
                        assert(self.is_visit_at(score, commit, below, order@, old_accs, old_qs, k));
                    }
                }
                assert forall|k: int| 0 <= k < t + 1 implies swept@[order@[k] as int]
                    == #[trigger] qs[k] by {
                    if k < t {
                        assert(order@[k] != order@[t as int]);
                        assert(swept_before[order@[k] as int] == old_qs[k]);
                    }
                }
            }
            t = t + 1;
        }
        proof {
            assert(self.is_sweep(score, commit, below, order@, accs, qs, swept@));
        }
        if check_drives(admissible, swept.as_slice()) {
            assign_drives(sources, swept.as_slice());
            Ok(acc)
        } else {
            Err(SearchError::Inadmissible)
        }
    }

    /// The order in which `n` emitters are visited: ascending, or, where the
    /// optimizer randomizes, a permutation drawn from `rng`.
    pub fn visit_order(&self, n: usize, rng: &mut StdRng) -> (order: Vec<usize>)
        ensures
            order@.len() == n,
            is_permutation(order@),
            !self.spec_randomize() ==> order@ == ascending(n as nat),
    {
        visit_order(n, self.randomize, rng)
    }
}

} // verus!
