//! Targets, emitters, and the discrete side of each optimizer.

use ghr::matrix::Matrix;
use ghr::optimizer::ghrbf::{Candidate, GreedyBruteForce, SearchError};
use ghr::optimizer::gs_pat::GSPAT;
use ghr::optimizer::horn::{coordinate_step, draw_schedule, recovery, relax, relax_along, CrossUpdate, Horn, Recovery};
use ghr::optimizer::levenberg_marquardt::{Progress, StepOutcome, LM};
use ghr::optimizer::long::{principal, solve_robust, Long};
use ghr::optimizer::{check_drives, drives_of, optimize_with, positions_of, transfer_matrix, OptimizeError};
use ghr::targets::{copy_of, Targets};
use ghr::wave_source::{assign_drive, assign_drives, WaveSource};
use rand::rngs::StdRng;
use rand::SeedableRng;

type Source = WaveSource<(i32, i32), i64>;

fn small(q: &i64) -> bool {
    q.abs() <= 1000
}

fn line(n: usize) -> Vec<Source> {
    (0..n).map(|j| WaveSource::new((j as i32, -(j as i32)), 100 + j as i64)).collect()
}

#[test]
fn targets_are_copies() {
    let mut t: Targets<(i32, i32), u8> = Targets::new();
    assert_eq!(t.count(), Some(0));
    let foci = vec![(1, 2), (3, 4)];
    t.set_foci(&foci);
    assert_eq!(t.foci(), &foci);
    assert_eq!(t.count(), None);
    t.set_amps(&[7, 8]);
    assert_eq!(t.amps(), &vec![7, 8]);
    assert_eq!(t.count(), Some(2));
    t.set_amps(&[7, 8, 9]);
    assert_eq!(t.count(), None);
    assert_eq!(t.foci(), &foci);
    t.set_foci(&[(0, 0), (1, 1), (2, 2)]);
    assert_eq!(t.count(), Some(3));
    assert_eq!(copy_of(&[1u8, 2, 3]), vec![1, 2, 3]);
    assert_eq!(copy_of::<u8>(&[]), Vec::<u8>::new());
}

#[test]
fn drives_are_written_and_positions_kept() {
    let mut sources = line(4);
    assign_drive(&mut sources, 2, -5);
    assert_eq!(sources.iter().map(|s| s.q).collect::<Vec<_>>(), vec![100, 101, -5, 103]);
    assign_drives(&mut sources, &[1, 2, 3, 4]);
    assert_eq!(sources.iter().map(|s| s.q).collect::<Vec<_>>(), vec![1, 2, 3, 4]);
    assert_eq!(positions_of(&sources), vec![(0, 0), (1, -1), (2, -2), (3, -3)]);
    let mut none: Vec<Source> = Vec::new();
    assign_drives(&mut none, &[]);
    assert!(none.is_empty());
}

#[test]
fn frame_commits_what_the_solver_returns() {
    let mut t: Targets<(i32, i32), u8> = Targets::new();
    t.set_foci(&[(9, 9)]);
    t.set_amps(&[3]);
    let mut sources = line(3);
    let solver = |foci: &Vec<(i32, i32)>, amps: &Vec<u8>, pos: &Vec<(i32, i32)>| -> Result<Vec<i64>, String> {
        assert_eq!(foci, &vec![(9, 9)]);
        assert_eq!(amps, &vec![3]);
        Ok(pos.iter().map(|p| (p.0 * 10 + amps[0] as i32) as i64).collect())
    };
    assert_eq!(optimize_with(&t, &mut sources, solver, &small), Ok(()));
    assert_eq!(sources.iter().map(|s| s.q).collect::<Vec<_>>(), vec![3, 13, 23]);
    assert_eq!(positions_of(&sources), vec![(0, 0), (1, -1), (2, -2)]);
}

#[test]
fn frame_writes_nothing_on_failure() {
    let mut t: Targets<(i32, i32), u8> = Targets::new();
    t.set_foci(&[(9, 9)]);
    t.set_amps(&[3]);
    let mut sources = line(3);
    let failing = |_: &Vec<(i32, i32)>, _: &Vec<u8>, _: &Vec<(i32, i32)>| -> Result<Vec<i64>, String> {
        Err("eigen".to_string())
    };
    assert_eq!(optimize_with(&t, &mut sources, failing, &small), Err(OptimizeError::Solver("eigen".to_string())));
    let short = |_: &Vec<(i32, i32)>, _: &Vec<u8>, _: &Vec<(i32, i32)>| -> Result<Vec<i64>, String> {
        Ok(vec![1, 2])
    };
    assert_eq!(optimize_with(&t, &mut sources, short, &small), Err(OptimizeError::DriveCount));
    t.set_amps(&[3, 4]);
    let fine = |_: &Vec<(i32, i32)>, _: &Vec<u8>, _: &Vec<(i32, i32)>| -> Result<Vec<i64>, String> {
        Ok(vec![1, 2, 3])
    };
    assert_eq!(optimize_with(&t, &mut sources, fine, &small), Err(OptimizeError::TargetsMismatched));
    assert_eq!(sources.iter().map(|s| s.q).collect::<Vec<_>>(), vec![100, 101, 102]);
}

#[test]
fn frame_writes_nothing_that_fails_the_test() {
    let mut t: Targets<(i32, i32), u8> = Targets::new();
    t.set_foci(&[(9, 9)]);
    t.set_amps(&[3]);
    let mut sources = line(3);
    let large = |_: &Vec<(i32, i32)>, _: &Vec<u8>, _: &Vec<(i32, i32)>| -> Result<Vec<i64>, String> {
        Ok(vec![1, 1001, 2])
    };
    assert_eq!(optimize_with(&t, &mut sources, large, &small), Err(OptimizeError::Inadmissible));
    assert_eq!(sources.iter().map(|s| s.q).collect::<Vec<_>>(), vec![100, 101, 102]);
    let edge = |_: &Vec<(i32, i32)>, _: &Vec<u8>, _: &Vec<(i32, i32)>| -> Result<Vec<i64>, String> {
        Ok(vec![1000, -1000, 0])
    };
    assert_eq!(optimize_with(&t, &mut sources, edge, &small), Ok(()));
    assert_eq!(sources.iter().map(|s| s.q).collect::<Vec<_>>(), vec![1000, -1000, 0]);
    assert!(check_drives(&small, &[1, 2, 3]));
    assert!(!check_drives(&small, &[1, 2, 3000]));
    assert!(check_drives(&small, &[]));
    assert_eq!(drives_of(&sources), vec![1000, -1000, 0]);
}

#[test]
fn sweep_writes_nothing_that_fails_the_test() {
    let mut gbs: GreedyBruteForce<(i32, i32), u8> = GreedyBruteForce::new(2, 2, false);
    gbs.set_target_foci(&[(0, 0)]);
    gbs.set_target_amps(&[1]);
    let score = |_: &u8, _: usize, _: Candidate| -> u64 { 0 };
    let commit = |acc: u8, j: usize, _: Option<Candidate>| -> (u8, i64) { (acc + 1, if j == 2 { 5000 } else { 5 }) };
    let mut sources = line(4);
    let mut rng = StdRng::seed_from_u64(0);
    assert_eq!(
        gbs.optimize_amp_phase(&mut sources, &mut rng, 0, 9, &score, &commit, &small),
        Err(SearchError::Inadmissible)
    );
    assert_eq!(sources.iter().map(|s| s.q).collect::<Vec<_>>(), vec![100, 101, 102, 103]);
}

#[test]
fn transfer_matrix_is_filled_row_by_row() {
    let transfer = |source: (i32, i32), target: (i32, i32)| -> i64 { (100 * target.0 + source.0) as i64 };
    let g = transfer_matrix(&[(1, 0), (2, 0)], &[(3, 0), (4, 0), (5, 0)], &transfer).unwrap();
    assert_eq!((g.rows(), g.cols()), (2, 3));
    assert_eq!(g.as_slice(), &[103, 104, 105, 203, 204, 205]);
    let empty = transfer_matrix(&[(1, 0)], &[], &transfer).unwrap();
    assert_eq!((empty.rows(), empty.cols()), (1, 0));
}

#[test]
fn frame_is_idle_without_targets_or_emitters() {
    let t: Targets<(i32, i32), u8> = Targets::new();
    let mut sources = line(3);
    let never = |_: &Vec<(i32, i32)>, _: &Vec<u8>, _: &Vec<(i32, i32)>| -> Result<Vec<i64>, String> {
        panic!("not to be asked")
    };
    assert_eq!(optimize_with(&t, &mut sources, never, &small), Ok(()));
    assert_eq!(sources.iter().map(|s| s.q).collect::<Vec<_>>(), vec![100, 101, 102]);
    let mut full: Targets<(i32, i32), u8> = Targets::new();
    full.set_foci(&[(1, 1)]);
    full.set_amps(&[1]);
    let mut none: Vec<Source> = Vec::new();
    let never = |_: &Vec<(i32, i32)>, _: &Vec<u8>, _: &Vec<(i32, i32)>| -> Result<Vec<i64>, String> {
        panic!("not to be asked")
    };
    assert_eq!(optimize_with(&full, &mut none, never, &small), Ok(()));
}

#[test]
fn optimizers_keep_what_they_are_given() {
    let mut gbs: GreedyBruteForce<u8, u8> = GreedyBruteForce::new(16, 4, true);
    assert_eq!((gbs.phase_division(), gbs.amp_division(), gbs.randomize()), (16, 4, true));
    assert_eq!(gbs.candidate_count(), Some(64));
    gbs.set_target_foci(&[1, 2]);
    gbs.set_target_amps(&[3, 4]);
    assert_eq!((gbs.targets().foci(), gbs.targets().amps()), (&vec![1, 2], &vec![3, 4]));
    assert_eq!((gbs.phase_division(), gbs.amp_division(), gbs.randomize()), (16, 4, true));
    let mut gspat: GSPAT<u8, u8> = GSPAT::new(100);
    gspat.set_target_amps(&[3]);
    gspat.set_target_foci(&[1]);
    assert_eq!((gspat.repeat(), gspat.targets().count()), (100, Some(1)));
    let mut horn: Horn<u8, i8> = Horn::new(1000, -3, 9);
    horn.set_target_foci(&[1]);
    assert_eq!((horn.repeat(), horn.alpha(), horn.lambda()), (1000, -3, 9));
    assert_eq!(horn.targets().count(), None);
    let mut long: Long<u8, i8> = Long::new(1);
    long.set_target_foci(&[1, 2, 3]);
    long.set_target_amps(&[1, 2, 3]);
    assert_eq!((long.gamma(), long.targets().count()), (1, Some(3)));
    let mut lm: LM<u8, i8> = LM::new(1, 2, 3, 200);
    lm.set_target_amps(&[5]);
    assert_eq!((lm.eps_1(), lm.eps_2(), lm.tau(), lm.k_max()), (1, 2, 3, 200));
    assert_eq!(lm.targets().amps(), &vec![5]);
}

#[test]
fn candidates_are_enumerated_amplitude_first() {
    let gbs: GreedyBruteForce<u8, u8> = GreedyBruteForce::new(4, 3, false);
    let all: Vec<(usize, usize)> = (0..12).map(|e| gbs.candidate(e)).map(|c| (c.amp_step, c.phase_step)).collect();
    assert_eq!(
        all,
        vec![(1, 0), (1, 1), (1, 2), (1, 3), (2, 0), (2, 1), (2, 2), (2, 3), (3, 0), (3, 1), (3, 2), (3, 3)]
    );
    let huge: GreedyBruteForce<u8, u8> = GreedyBruteForce::new(usize::MAX, 2, false);
    assert_eq!(huge.candidate_count(), None);
    let none: GreedyBruteForce<u8, u8> = GreedyBruteForce::new(0, 2, false);
    assert_eq!(none.candidate_count(), Some(0));
}

#[test]
fn search_commits_the_first_smallest() {
    let gbs: GreedyBruteForce<u8, u8> = GreedyBruteForce::new(3, 2, false);
    let found = gbs.search(&[9, 4, 6, 4, 8, 4], 100);
    assert_eq!(found, Some(Candidate { amp_step: 1, phase_step: 1 }));
    assert_eq!(gbs.search(&[9, 9, 9, 9, 9, 3], 100), Some(Candidate { amp_step: 2, phase_step: 2 }));
    assert_eq!(gbs.search(&[7, 7, 7, 7, 7, 7], 100), Some(Candidate { amp_step: 1, phase_step: 0 }));
    assert_eq!(gbs.search(&[7, 7, 7, 7, 7, 7], 7), None);
}

#[test]
fn sweep_visits_every_emitter_once() {
    let mut gbs: GreedyBruteForce<(i32, i32), u8> = GreedyBruteForce::new(3, 2, false);
    gbs.set_target_foci(&[(0, 0)]);
    gbs.set_target_amps(&[1]);
    let score = |visited: &Vec<usize>, j: usize, c: Candidate| -> u64 {
        let wanted = (j + visited.len()) % 6;
        let place = (c.amp_step - 1) * 3 + c.phase_step;
        if place == wanted { 1 } else { 5 }
    };
    let commit = |mut visited: Vec<usize>, j: usize, c: Option<Candidate>| -> (Vec<usize>, i64) {
        visited.push(j);
        let c = c.unwrap();
        (visited, (10 * c.amp_step + c.phase_step) as i64)
    };
    let mut sources = line(4);
    let mut rng = StdRng::seed_from_u64(0);
    let visited = gbs.optimize_amp_phase(&mut sources, &mut rng, Vec::new(), 5, &score, &commit, &small);
    assert_eq!(visited, Ok(vec![0, 1, 2, 3]));
    assert_eq!(sources.iter().map(|s| s.q).collect::<Vec<_>>(), vec![10, 12, 21, 10]);
    assert_eq!(positions_of(&sources), vec![(0, 0), (1, -1), (2, -2), (3, -3)]);
}

#[test]
fn sweep_in_random_order_visits_every_emitter_once() {
    let mut gbs: GreedyBruteForce<(i32, i32), u8> = GreedyBruteForce::new(1, 1, true);
    gbs.set_target_foci(&[(0, 0)]);
    gbs.set_target_amps(&[1]);
    let score = |_: &Vec<usize>, _: usize, _: Candidate| -> u64 { 0 };
    let commit = |mut visited: Vec<usize>, j: usize, _: Option<Candidate>| -> (Vec<usize>, i64) {
        let place = visited.len() as i64;
        visited.push(j);
        (visited, place)
    };
    let mut sources = line(64);
    let mut rng = StdRng::seed_from_u64(12);
    let visited = gbs.optimize_amp_phase(&mut sources, &mut rng, Vec::new(), 1, &score, &commit, &small).unwrap();
    let mut sorted = visited.clone();
    sorted.sort();
    assert_eq!(sorted, (0..64).collect::<Vec<usize>>());
    assert_ne!(visited, sorted);
    for (place, j) in visited.iter().enumerate() {
        assert_eq!(sources[*j].q, place as i64);
    }
}

#[test]
fn sweep_without_a_winner_commits_none() {
    let mut gbs: GreedyBruteForce<(i32, i32), u8> = GreedyBruteForce::new(2, 2, false);
    gbs.set_target_foci(&[(0, 0)]);
    gbs.set_target_amps(&[1]);
    let score = |_: &u8, _: usize, _: Candidate| -> u64 { 9 };
    let commit = |acc: u8, _: usize, c: Option<Candidate>| -> (u8, i64) { (acc + 1, if c.is_none() { -1 } else { 1 }) };
    let mut sources = line(2);
    let mut rng = StdRng::seed_from_u64(0);
    assert_eq!(gbs.optimize_amp_phase(&mut sources, &mut rng, 0, 9, &score, &commit, &small), Ok(2));
    assert_eq!(sources.iter().map(|s| s.q).collect::<Vec<_>>(), vec![-1, -1]);
}

#[test]
fn sweep_refuses_bad_setups() {
    let score = |_: &u8, _: usize, _: Candidate| -> u64 { 0 };
    let commit = |acc: u8, _: usize, _: Option<Candidate>| -> (u8, i64) { (acc, 0) };
    let mut rng = StdRng::seed_from_u64(0);
    let mut sources = line(2);
    let mut gbs: GreedyBruteForce<(i32, i32), u8> = GreedyBruteForce::new(2, 2, false);
    gbs.set_target_foci(&[(0, 0)]);
    assert_eq!(
        gbs.optimize_amp_phase(&mut sources, &mut rng, 0, 9, &score, &commit, &small),
        Err(SearchError::TargetsMismatched)
    );
    let mut empty: GreedyBruteForce<(i32, i32), u8> = GreedyBruteForce::new(2, 0, false);
    empty.set_target_foci(&[(0, 0)]);
    empty.set_target_amps(&[1]);
    assert_eq!(
        empty.optimize_amp_phase(&mut sources, &mut rng, 0, 9, &score, &commit, &small),
        Err(SearchError::NoGrid)
    );
    let mut huge: GreedyBruteForce<(i32, i32), u8> = GreedyBruteForce::new(usize::MAX, 2, false);
    huge.set_target_foci(&[(0, 0)]);
    huge.set_target_amps(&[1]);
    assert_eq!(
        huge.optimize_amp_phase(&mut sources, &mut rng, 0, 9, &score, &commit, &small),
        Err(SearchError::NoGrid)
    );
    assert_eq!(sources.iter().map(|s| s.q).collect::<Vec<_>>(), vec![100, 101]);
}

#[test]
fn gspat_iterates_as_often_as_told() {
    let gspat: GSPAT<u8, u8> = GSPAT::new(10);
    assert_eq!(gspat.iterate(1u64, &|x: u64| x * 2), 1024);
    let none: GSPAT<u8, u8> = GSPAT::new(0);
    assert_eq!(none.iterate(7u64, &|x: u64| x * 2), 7);
}

#[test]
fn recovery_takes_the_dominant_eigenvector() {
    assert_eq!(recovery(&[3, 9, 9, 1]), Recovery::Eigenvector(1));
    assert_eq!(recovery(&[4]), Recovery::Eigenvector(0));
    assert_eq!(recovery(&[0]), Recovery::ClosedForm);
    assert_eq!(recovery(&[]), Recovery::ClosedForm);
    assert_eq!(recovery(&[0, 0, 0]), Recovery::Eigenvector(0));
    assert_eq!(recovery(&[0, 0, 1]), Recovery::Eigenvector(2));
}

#[test]
fn principal_takes_the_dominant_eigenvector() {
    assert_eq!(principal(&[3, 9, 9, 1]), 1);
    assert_eq!(principal(&[0, 0, 0]), 0);
    assert_eq!(principal(&[0, 0, 2]), 2);
    assert_eq!(principal(&[]), 0);
}

#[test]
fn robust_solve_falls_back_once() {
    let first: Result<u8, &str> = solve_robust(|| Ok(1), || panic!("not needed"));
    assert_eq!(first, Ok(1));
    let second: Result<u8, &str> = solve_robust(|| Err("definite"), || Ok(2));
    assert_eq!(second, Ok(2));
    let neither: Result<u8, &str> = solve_robust(|| Err("definite"), || Err("general"));
    assert_eq!(neither, Err("general"));
}

#[test]
fn schedule_has_one_coordinate_for_each_round() {
    let mut rng = StdRng::seed_from_u64(21);
    let schedule = draw_schedule(&mut rng, 7, 1000);
    assert_eq!(schedule.len(), 1000);
    assert!(schedule.iter().all(|i| *i < 7));
    assert!((0..7).all(|i| schedule.contains(&i)));
    assert!(draw_schedule(&mut rng, 0, 1000).is_empty());
    assert!(draw_schedule(&mut rng, 7, 0).is_empty());
    assert_eq!(draw_schedule(&mut rng, 1, 3), vec![0, 0, 0]);
    let again = draw_schedule(&mut StdRng::seed_from_u64(21), 7, 1000);
    assert_eq!(again, schedule);
}

fn sum_rule(xc: &Matrix<i64>, mmc: &Vec<i64>) -> CrossUpdate<i64> {
    let rows = xc.rows();
    let col: Vec<i64> = (0..rows).map(|r| (0..rows).map(|c| xc.get(r, c) * mmc[c]).sum()).collect();
    CrossUpdate { row: col.iter().map(|v| -v).collect(), col }
}

#[test]
fn coordinate_step_writes_the_cross() {
    let mut x = Matrix::scalar(3, 1i64, 0i64).unwrap();
    let mm = Matrix::from_vec(3, 3, vec![1, 2, 3, 4, 5, 6, 7, 8, 9]).unwrap();
    let mut xc = Matrix::filled(2, 2, 0i64).unwrap();
    let mut mmc = vec![0i64; 2];
    assert!(coordinate_step(&mut x, &mm, 1, &mut xc, &mut mmc, &sum_rule));
    assert_eq!(xc.as_slice(), &[1, 0, 0, 1]);
    assert_eq!(mmc, vec![2, 8]);
    assert_eq!(x.as_slice(), &[1, 2, 0, -2, 1, -8, 0, 8, 1]);
    assert!(coordinate_step(&mut x, &mm, 0, &mut xc, &mut mmc, &sum_rule));
    assert_eq!(xc.as_slice(), &[1, -8, 8, 1]);
    assert_eq!(mmc, vec![4, 7]);
    assert_eq!(x.as_slice(), &[1, 52, -39, -52, 1, -8, 39, 8, 1]);
}

#[test]
fn coordinate_step_refuses_a_wrong_length() {
    let mut x = Matrix::scalar(3, 1i64, 0i64).unwrap();
    let mm = Matrix::filled(3, 3, 1i64).unwrap();
    let mut xc = Matrix::filled(2, 2, 0i64).unwrap();
    let mut mmc = vec![0i64; 2];
    let short = |_: &Matrix<i64>, _: &Vec<i64>| -> CrossUpdate<i64> { CrossUpdate { row: vec![5], col: vec![5, 5] } };
    assert!(!coordinate_step(&mut x, &mm, 2, &mut xc, &mut mmc, &short));
    assert_eq!(x.as_slice(), &[1, 0, 0, 0, 1, 0, 0, 0, 1]);
}

#[test]
fn relaxation_keeps_the_diagonal() {
    let mm = Matrix::from_vec(3, 3, vec![1, 2, 3, 4, 5, 6, 7, 8, 9]).unwrap();
    let mut along = Matrix::scalar(3, 1i64, 0i64).unwrap();
    assert_eq!(relax_along(&mut along, &mm, &[1, 0], &sum_rule), 2);
    assert_eq!(along.as_slice(), &[1, 52, -39, -52, 1, -8, 39, 8, 1]);
    let wrapping = |xc: &Matrix<i64>, mmc: &Vec<i64>| -> CrossUpdate<i64> {
        let rows = xc.rows();
        let col: Vec<i64> = (0..rows)
            .map(|r| (0..rows).fold(0i64, |s, c| s.wrapping_add(xc.get(r, c).wrapping_mul(mmc[c]))) % 1000)
            .collect();
        CrossUpdate { row: col.iter().map(|v| -v).collect(), col }
    };
    let mut x = Matrix::scalar(3, 1i64, 0i64).unwrap();
    let mut rng = StdRng::seed_from_u64(5);
    assert_eq!(relax(&mut x, &mm, 40, &mut rng, &wrapping), 40);
    assert_eq!((x.get(0, 0), x.get(1, 1), x.get(2, 2)), (1, 1, 1));
    for r in 0..3 {
        for c in 0..3 {
            assert_eq!(x.get(r, c), if r == c { 1 } else { -x.get(c, r) });
        }
    }
    let mut again = Matrix::scalar(3, 1i64, 0i64).unwrap();
    relax(&mut again, &mm, 40, &mut StdRng::seed_from_u64(5), &wrapping);
    assert_eq!(again.as_slice(), x.as_slice());
    let mut nothing = Matrix::scalar(0, 1i64, 0i64).unwrap();
    let none = Matrix::filled(0, 0, 0i64).unwrap();
    assert_eq!(relax(&mut nothing, &none, 40, &mut rng, &wrapping), 0);
}

#[test]
fn progress_counts_steps_and_rejections() {
    let mut p = Progress::begin(4, false);
    assert!(p.active());
    assert_eq!((p.limit(), p.taken(), p.rejections(), p.found()), (4, 0, 0, false));
    p.advance(StepOutcome::Rejected);
    p.advance(StepOutcome::Rejected);
    assert_eq!((p.taken(), p.rejections(), p.found()), (2, 2, false));
    p.advance(StepOutcome::Accepted { converged: false });
    assert_eq!((p.taken(), p.rejections(), p.found()), (3, 0, false));
    assert!(p.active());
    p.advance(StepOutcome::Rejected);
    assert_eq!((p.taken(), p.rejections(), p.found()), (4, 1, false));
    assert!(!p.active());
}

#[test]
fn progress_ends_when_found() {
    assert!(!Progress::begin(4, true).active());
    assert!(!Progress::begin(0, false).active());
    for outcome in [StepOutcome::SolveFailed, StepOutcome::SmallStep, StepOutcome::Accepted { converged: true }] {
        let mut p = Progress::begin(4, false);
        p.advance(StepOutcome::Rejected);
        p.advance(outcome);
        assert!(p.found());
        assert!(!p.active());
        assert_eq!(p.taken(), 2);
    }
}

#[test]
fn lm_runs_to_the_limit_or_the_end() {
    let lm: LM<u8, u8> = LM::new(0, 0, 0, 5);
    let rejecting = |x: u32, rejections: usize| -> (StepOutcome, u32) { (StepOutcome::Rejected, x + rejections as u32) };
    let (state, mark) = lm.iterate(0u32, false, &rejecting);
    assert_eq!((state, mark.taken(), mark.rejections(), mark.found()), (10, 5, 5, false));
    let (state, mark) = lm.iterate(3u32, true, &rejecting);
    assert_eq!((state, mark.taken(), mark.found()), (3, 0, true));
    let halving = |x: u32, _: usize| -> (StepOutcome, u32) {
        if x % 2 == 0 {
            (StepOutcome::Accepted { converged: x / 2 == 3 }, x / 2)
        } else {
            (StepOutcome::SmallStep, x)
        }
    };
    let (state, mark) = lm.iterate(12u32, false, &halving);
    assert_eq!((state, mark.taken(), mark.found()), (3, 2, true));
    let (state, mark) = lm.iterate(5u32, false, &halving);
    assert_eq!((state, mark.taken(), mark.found()), (5, 1, true));
    let (state, mark) = lm.iterate(1 << 20, false, &halving);
    assert_eq!((state, mark.taken(), mark.found()), (1 << 15, 5, false));
    let failing = |x: u32, _: usize| -> (StepOutcome, u32) { (StepOutcome::SolveFailed, x) };
    let (state, mark) = lm.iterate(9u32, false, &failing);
    assert_eq!((state, mark.taken(), mark.found()), (9, 1, true));
    let begun = lm.begin(false);
    assert_eq!((begun.limit(), begun.taken()), (5, 0));
}
