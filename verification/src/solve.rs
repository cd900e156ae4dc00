//! The solve routine: construct an initial permutation under the time
//! budget, then run the tabu search under the iteration budget.

use vstd::prelude::*;

use crate::board::{diags_match, is_permutation, lemma_diag_sums, spec_collisions, spec_sum};
use crate::construct::construct;
use crate::search::{fast_tabu_search, no_conflicts, SearchOutcome};
use crate::timing::TimeKeeper;

verus! {

/// Solve the board of `n` rows: randomized-greedy construction gated by the
/// wall clock, then tabu search capped at `max_iters` iterations.
///
/// Returns the solution, the two occupancy arrays, and the outcome.  On
/// `Converged` the solution is a conflict-free permutation and the arrays
/// are its exact diagonal counts; a board of 2 or 3 rows never converges.
/// `OutOfBudget` covers both a construction cut short by the clock and a
/// search that used up its iterations.
pub fn solve(n: usize, time_keeper: &TimeKeeper, rng: &mut rand::rngs::StdRng, max_iters: usize) -> (r: (
    Vec<usize>,
    Vec<usize>,
    Vec<usize>,
    SearchOutcome,
))
    requires
        1 <= n,
        n <= usize::MAX / 2,
        max_iters <= usize::MAX - 10,
    ensures
        r.0@.len() == n,
        r.1@.len() == 2 * n - 1,
        r.2@.len() == 2 * n - 1,
        r.3 == SearchOutcome::Converged ==> is_permutation(r.0@) && diags_match(
            r.0@,
            n as int,
            r.1@,
            r.2@,
        ) && no_conflicts(r.0@, n as int) && spec_collisions(r.1@) == 0 && spec_collisions(r.2@)
            == 0 && spec_sum(r.1@) == n && spec_sum(r.2@) == n,
        n == 2 || n == 3 ==> r.3 == SearchOutcome::OutOfBudget,
{
    let mut sol: Vec<usize> = Vec::new();
    let mut row: usize = 0;
    while row < n
        invariant
            row <= n,
            sol@.len() == row,
        decreases n - row,
    {
        sol.push(row);
        row += 1;
    }
    let (mut diag_up, mut diag_dn, filled) = construct(&mut sol, time_keeper, rng);
    if filled < n {
        return (sol, diag_up, diag_dn, SearchOutcome::OutOfBudget);
    }
    let outcome: SearchOutcome = fast_tabu_search(&mut sol, &mut diag_up, &mut diag_dn, rng, max_iters);
    proof {
        lemma_diag_sums(sol@, n as int, diag_up@, diag_dn@);
    }
    (sol, diag_up, diag_dn, outcome)
}

} // verus!
