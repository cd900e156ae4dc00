//! The construction phase, the tabu search, and the whole solve routine.

use std::time::Instant;

use rand::rngs::StdRng;
use rand::SeedableRng;

use nqueen::board::{collisions, compute_diags};
use nqueen::construct::construct;
use nqueen::search::{fast_tabu_search, SearchOutcome};
use nqueen::solve::solve;
use nqueen::Config;
use nqueen::TimeKeeper;

fn generous_gate() -> TimeKeeper {
    TimeKeeper { start_time: Instant::now(), time_threshold_seconds: 3600 }
}

fn expired_gate() -> TimeKeeper {
    TimeKeeper { start_time: Instant::now(), time_threshold_seconds: 0 }
}

fn is_bijection(sol: &[usize]) -> bool {
    let n = sol.len();
    let mut seen = vec![false; n];
    for &c in sol {
        if c >= n || seen[c] {
            return false;
        }
        seen[c] = true;
    }
    true
}

#[test]
fn time_keeper_reports_its_threshold() {
    assert!(expired_gate().is_time_over());
    assert!(!generous_gate().is_time_over());
}

#[test]
fn construct_fills_every_row() {
    let mut sol: Vec<usize> = (0..8).collect();
    let mut rng = StdRng::seed_from_u64(7);
    let (up, dn, filled) = construct(&mut sol, &generous_gate(), &mut rng);
    assert_eq!(filled, 8);
    assert!(is_bijection(&sol));
    let (up2, dn2) = compute_diags(&sol);
    assert_eq!(up, up2);
    assert_eq!(dn, dn2);
    assert_eq!(up.iter().sum::<usize>(), 8);
    assert_eq!(dn.iter().sum::<usize>(), 8);
}

#[test]
fn construct_stops_at_the_gate() {
    // an already expired gate: no row is filled, the board and the counts
    // are returned as they stand
    let mut sol: Vec<usize> = (0..8).collect();
    let mut rng = StdRng::seed_from_u64(7);
    let (up, dn, filled) = construct(&mut sol, &expired_gate(), &mut rng);
    assert_eq!(filled, 0);
    assert_eq!(sol, (0..8).collect::<Vec<usize>>());
    assert!(up.iter().all(|&c| c == 0));
    assert!(dn.iter().all(|&c| c == 0));
}

#[test]
fn search_accepts_a_solved_board() {
    let mut sol: Vec<usize> = vec![1, 3, 0, 2];
    let (mut up, mut dn) = compute_diags(&sol);
    let mut rng = StdRng::seed_from_u64(1);
    let outcome = fast_tabu_search(&mut sol, &mut up, &mut dn, &mut rng, 100);
    assert_eq!(outcome, SearchOutcome::Converged);
    assert_eq!(sol, vec![1, 3, 0, 2]);
    assert_eq!(collisions(&up) + collisions(&dn), 0);
}

#[test]
fn single_queen_converges_immediately() {
    let mut rng = StdRng::seed_from_u64(3);
    let (sol, up, dn, outcome) = solve(1, &generous_gate(), &mut rng, 100);
    assert_eq!(outcome, SearchOutcome::Converged);
    assert_eq!(sol, vec![0]);
    assert_eq!(collisions(&up) + collisions(&dn), 0);
}

#[test]
fn eight_queens_converge_to_a_clean_board() {
    let mut rng = StdRng::seed_from_u64(42);
    let (sol, up, dn, outcome) = solve(8, &generous_gate(), &mut rng, 100_000);
    assert_eq!(outcome, SearchOutcome::Converged);
    assert!(is_bijection(&sol));
    assert_eq!(collisions(&up) + collisions(&dn), 0);
    let (up2, dn2) = compute_diags(&sol);
    assert_eq!(up, up2);
    assert_eq!(dn, dn2);
}

#[test]
fn seeded_runs_repeat_exactly() {
    let mut rng1 = StdRng::seed_from_u64(42);
    let r1 = solve(8, &generous_gate(), &mut rng1, 100_000);
    let mut rng2 = StdRng::seed_from_u64(42);
    let r2 = solve(8, &generous_gate(), &mut rng2, 100_000);
    assert_eq!(r1.0, r2.0);
    assert_eq!(r1.1, r2.1);
    assert_eq!(r1.2, r2.2);
    assert_eq!(r1.3, r2.3);
}

#[test]
fn two_queens_run_out_of_budget() {
    let mut rng = StdRng::seed_from_u64(5);
    let (sol, _, _, outcome) = solve(2, &generous_gate(), &mut rng, 500);
    assert_eq!(outcome, SearchOutcome::OutOfBudget);
    assert!(is_bijection(&sol));
}

#[test]
fn three_queens_run_out_of_budget() {
    let mut rng = StdRng::seed_from_u64(5);
    let (sol, up, dn, outcome) = solve(3, &generous_gate(), &mut rng, 500);
    assert_eq!(outcome, SearchOutcome::OutOfBudget);
    assert!(is_bijection(&sol));
    assert!(collisions(&up) + collisions(&dn) > 0);
}

#[test]
fn small_solvable_boards_converge() {
    // conflict-free permutations exist for every n except 2 and 3
    for n in [4usize, 5, 6, 7] {
        let mut rng = StdRng::seed_from_u64(9);
        let (sol, up, dn, outcome) = solve(n, &generous_gate(), &mut rng, 1_000_000);
        assert_eq!(outcome, SearchOutcome::Converged);
        assert!(is_bijection(&sol));
        assert_eq!(collisions(&up) + collisions(&dn), 0);
    }
}

#[test]
fn larger_board_converges() {
    let mut rng = StdRng::seed_from_u64(2024);
    let (sol, up, dn, outcome) = solve(50, &generous_gate(), &mut rng, 1_000_000);
    assert_eq!(outcome, SearchOutcome::Converged);
    assert!(is_bijection(&sol));
    assert_eq!(collisions(&up) + collisions(&dn), 0);
}

#[test]
fn config_needs_three_arguments() {
    let args: Vec<String> = vec!["solver".to_string(), "8".to_string()];
    assert!(matches!(Config::new(&args), Err("not enough arguments")));
}

#[test]
fn config_takes_the_two_parameters() {
    let args: Vec<String> =
        vec!["solver".to_string(), "8".to_string(), "5".to_string(), "extra".to_string()];
    let config = Config::new(&args).unwrap();
    assert_eq!(config.query, "8");
    assert_eq!(config.filename, "5");
}
