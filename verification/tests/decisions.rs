//! The solver's individual decision rules: the time gate's comparison, the
//! conflicted-row selection, the swap-candidate evaluation, the trial
//! acceptance, and the fallback's least-score scan.

use nqueen::board::compute_diags;
use nqueen::construct::{least_score_candidate, place_if_free};
use nqueen::search::{best_swap_candidate, select_conflicted_row};
use nqueen::timing::budget_reached;

#[test]
fn budget_reached_at_the_threshold() {
    assert!(budget_reached(5, 5));
    assert!(budget_reached(6, 5));
    assert!(!budget_reached(4, 5));
    assert!(budget_reached(0, 0));
}

#[test]
fn conflicted_row_selection_takes_the_highest_index() {
    // on the 2-board [0, 1] both rows score 3; the scan reports row 1
    let sol: Vec<usize> = vec![0, 1];
    let (up, dn) = compute_diags(&sol);
    assert_eq!(select_conflicted_row(&sol, &up, &dn), Some((1, 3)));
    // on the diagonal 3-board every row scores 4; the scan reports row 2
    let sol: Vec<usize> = vec![0, 1, 2];
    let (up, dn) = compute_diags(&sol);
    assert_eq!(select_conflicted_row(&sol, &up, &dn), Some((2, 4)));
}

#[test]
fn conflicted_row_selection_reports_convergence() {
    let sol: Vec<usize> = vec![1, 3, 0, 2];
    let (up, dn) = compute_diags(&sol);
    assert_eq!(select_conflicted_row(&sol, &up, &dn), None);
}

#[test]
fn swap_candidate_takes_the_positive_delta() {
    // [0, 1] with conflicted row 1 (score 3): swapping with row 0 removes
    // both rows' scores (3 + 3) and creates nothing, so delta is 6
    let sol: Vec<usize> = vec![0, 1];
    let (up, dn) = compute_diags(&sol);
    let tabu: Vec<Option<usize>> = vec![None, None];
    assert_eq!(best_swap_candidate(&sol, &up, &dn, &tabu, 1, 3, 1), Some((0, 6)));
}

#[test]
fn swap_candidate_respects_the_tabu_memory() {
    let sol: Vec<usize> = vec![0, 1];
    let (up, dn) = compute_diags(&sol);
    // row 0 is tabu until iteration 5, so at iteration 1 nothing is eligible
    let tabu: Vec<Option<usize>> = vec![Some(5), None];
    assert_eq!(best_swap_candidate(&sol, &up, &dn, &tabu, 1, 3, 1), None);
    // the expiry has passed at iteration 6
    assert_eq!(best_swap_candidate(&sol, &up, &dn, &tabu, 1, 3, 6), Some((0, 6)));
}

#[test]
fn trial_placement_accepts_only_free_diagonals() {
    let mut sol: Vec<usize> = vec![0, 0];
    let mut up: Vec<usize> = vec![0, 0, 0];
    let mut dn: Vec<usize> = vec![0, 0, 0];
    let mut cand: Vec<usize> = vec![0, 1];
    // the empty board is free everywhere: column 1 goes to row 0
    assert!(place_if_free(0, 1, &mut sol, &mut up, &mut dn, &mut cand));
    assert_eq!(sol[0], 1);
    assert_eq!(cand, vec![0]);
    assert_eq!(up, vec![0, 1, 0]);
    assert_eq!(dn, vec![0, 0, 1]);
    // column 0 on row 1 shares the upward diagonal: rejected, state kept
    assert!(!place_if_free(1, 0, &mut sol, &mut up, &mut dn, &mut cand));
    assert_eq!(sol[0], 1);
    assert_eq!(cand, vec![0]);
    assert_eq!(up, vec![0, 1, 0]);
    assert_eq!(dn, vec![0, 0, 1]);
}

#[test]
fn fallback_scan_takes_least_score_earliest() {
    // 3-board with row 0 at column 0; scoring row 1: column 1 scores 1
    // (shared downward diagonal), column 2 scores 0
    let sol: Vec<usize> = vec![0, 1, 2];
    let up: Vec<usize> = vec![1, 0, 0, 0, 0];
    let dn: Vec<usize> = vec![0, 0, 1, 0, 0];
    assert_eq!(least_score_candidate(1, &sol, &up, &dn, &vec![1, 2]), 1);
    assert_eq!(least_score_candidate(1, &sol, &up, &dn, &vec![2, 1]), 0);
    // equal scores: the earliest pool position wins
    assert_eq!(least_score_candidate(1, &sol, &up, &dn, &vec![1, 1]), 0);
}
