//! Occupancy counting, recomputation, and the exchanger.

use nqueen::board::{collisions, compute_diags};
use nqueen::exchange::exchange;

fn is_bijection(sol: &[usize]) -> bool {
    let n = sol.len();
    let mut seen = vec![false; n];
    for &c in sol {
        if c >= n || seen[c] {
            return false;
        }
        seen[c] = true;
    }
    true
}

#[test]
fn collisions_of_clean_and_crowded_diagonals() {
    assert_eq!(collisions(&vec![0, 1, 2]), 1);
    assert_eq!(collisions(&vec![1, 1, 0, 1]), 0);
    assert_eq!(collisions(&vec![1, 1, 1]), 0);
    assert_eq!(collisions(&vec![3, 1, 0, 2]), 3);
    assert_eq!(collisions(&vec![5]), 4);
    assert_eq!(collisions(&Vec::new()), 0);
}

#[test]
fn compute_diags_small_board() {
    let sol: Vec<usize> = vec![0, 1];
    let (up, dn) = compute_diags(&sol);
    assert_eq!(up, vec![1, 0, 1]);
    assert_eq!(dn, vec![0, 2, 0]);
    assert_eq!(collisions(&up) + collisions(&dn), 1);
}

#[test]
fn exchange_updates_the_four_diagonals() {
    let mut sol: Vec<usize> = vec![0, 1, 2, 3];
    let (mut up, mut dn) = compute_diags(&sol);
    assert_eq!(up, vec![1, 0, 1, 0, 1, 0, 1]);
    assert_eq!(dn, vec![0, 0, 0, 4, 0, 0, 0]);
    exchange(0, 3, &mut sol, &mut up, &mut dn);
    assert_eq!(sol, vec![3, 1, 2, 0]);
    assert_eq!(up, vec![0, 0, 1, 2, 1, 0, 0]);
    assert_eq!(dn, vec![1, 0, 0, 2, 0, 0, 1]);
}

#[test]
fn exchange_matches_recomputation() {
    // occupancy consistency: after any sequence of exchanges, the
    // incrementally maintained arrays equal a recomputation from scratch
    let mut sol: Vec<usize> = vec![4, 2, 0, 3, 1];
    let (mut up, mut dn) = compute_diags(&sol);
    let swaps = [(0, 1), (2, 4), (1, 3), (0, 4), (3, 2)];
    for &(i, j) in swaps.iter() {
        exchange(i, j, &mut sol, &mut up, &mut dn);
        assert!(is_bijection(&sol));
        let (up2, dn2) = compute_diags(&sol);
        assert_eq!(up, up2);
        assert_eq!(dn, dn2);
    }
}

#[test]
fn diagonal_counts_each_sum_to_the_queen_count() {
    let mut sol: Vec<usize> = vec![2, 0, 3, 1, 4, 5];
    let (mut up, mut dn) = compute_diags(&sol);
    let n = sol.len();
    assert_eq!(up.iter().sum::<usize>(), n);
    assert_eq!(dn.iter().sum::<usize>(), n);
    exchange(1, 5, &mut sol, &mut up, &mut dn);
    assert_eq!(up.iter().sum::<usize>(), n);
    assert_eq!(dn.iter().sum::<usize>(), n);
}
