//! The tabu-search local optimizer: repeatedly pick a conflicted row, try
//! every non-tabu partner row, apply the best strictly-improving column swap,
//! and otherwise decay the tabu memory.  Terminates either in the converged
//! state (no row sees a queen besides itself on its diagonals) or when the
//! iteration budget runs out.

use vstd::prelude::*;

use crate::board::{
    count_dn, count_up, diags_match, is_permutation, lemma_converged_no_collisions,
    lemma_count_dn_le_len, lemma_count_dn_pair, lemma_count_dn_queen, lemma_count_up_le_len,
    lemma_count_up_pair, lemma_count_up_queen, spec_collisions,
};
use crate::exchange::exchange;
use crate::rng::rand_below;

verus! {

/// What the optimizer reports: the converged state was reached, or the
/// iteration budget ran out first.
#[derive(Clone, Copy, Debug, PartialEq, Eq, Structural)]
pub enum SearchOutcome {
    Converged,
    OutOfBudget,
}

/// Occupancy seen by row `i`: the counts of its two diagonals.  The queen of
/// row `i` itself contributes 2; anything above that is a real conflict.
pub open spec fn row_score(s: Seq<usize>, n: int, i: int) -> int {
    count_up(s, i + s[i]) + count_dn(s, n, (n - 1) - i + s[i]) as int
}

/// The converged state: no row sees any queen besides itself.
pub open spec fn no_conflicts(s: Seq<usize>, n: int) -> bool {
    forall|i: int| 0 <= i < s.len() ==> #[trigger] row_score(s, n, i) <= 2
}

/// Row `j` may partner a swap with the selected row `i_star`: it is another
/// row whose tabu entry is absent or has expired.
pub open spec fn eligible_partner(
    tabu: Seq<Option<usize>>,
    n_iter: usize,
    i_star: int,
    j: int,
) -> bool {
    &&& 0 <= j < tabu.len()
    &&& j != i_star
    &&& match tabu[j] {
        Option::None => true,
        Option::Some(t) => t < n_iter,
    }
}

/// Conflict delta of hypothetically swapping the columns of rows `i` and
/// `j`: the occupancy both rows see now, minus the occupancy their columns
/// would meet at the exchanged positions.
pub open spec fn swap_delta(s: Seq<usize>, n: int, i: int, j: int) -> int {
    row_score(s, n, j) + row_score(s, n, i) - (count_up(s, i + s[j]) + count_dn(
        s,
        n,
        (n - 1) - i + s[j],
    ) + count_up(s, j + s[i]) + count_dn(s, n, (n - 1) - j + s[i]))
}

/// One decay step of the tabu tenure: halve and add one.
pub open spec fn spec_decay(t: int) -> int {
    t / 2 + 1
}

/// Tenure decay law: decay never drops the tenure below 1; from 3 on it
/// strictly shrinks, and 1 and 2 are its fixed points, so repeated decay
/// without an applied swap drives any tenure down to at most 2 and then
/// holds it there.
pub proof fn lemma_tenure_decay(t: int)
    requires
        1 <= t,
    ensures
        1 <= spec_decay(t),
        2 <= t ==> 2 <= spec_decay(t) <= t,
        3 <= t ==> spec_decay(t) < t,
        t <= 2 ==> spec_decay(t) == t,
{
}

/// One decay step of the tabu tenure, as applied when no improving swap was
/// found.
pub fn decay_tenure(t: usize) -> (r: usize)
    requires
        1 <= t,
    ensures
        r == spec_decay(t as int),
        1 <= r <= t + 1,
{
    t / 2 + 1
}

/// A board of 2 or 3 rows admits no conflict-free permutation: some row
/// always sees another queen on one of its diagonals.
pub proof fn lemma_small_board_conflict(s: Seq<usize>)
    requires
        is_permutation(s),
        s.len() == 2 || s.len() == 3,
    ensures
        !no_conflicts(s, s.len() as int),
{
    let n = s.len() as int;
    if s.len() == 2 {
        if s[0] == 0 {
            assert(s[1] == 1);
            lemma_count_dn_pair(s, n, 0, 1);
            lemma_count_up_queen(s, 0);
            assert(row_score(s, n, 0) >= 3);
        } else {
            assert(s[0] == 1 && s[1] == 0);
            lemma_count_up_pair(s, 0, 1);
            lemma_count_dn_queen(s, n, 0);
            assert(row_score(s, n, 0) >= 3);
        }
    } else {
        if s[0] == 0 && s[1] == 1 {
            lemma_count_dn_pair(s, n, 0, 1);
            lemma_count_up_queen(s, 0);
            assert(row_score(s, n, 0) >= 3);
        } else if s[0] == 0 && s[1] == 2 {
            assert(s[2] == 1);
            lemma_count_up_pair(s, 1, 2);
            lemma_count_dn_queen(s, n, 1);
            assert(row_score(s, n, 1) >= 3);
        } else if s[0] == 1 && s[1] == 0 {
            lemma_count_up_pair(s, 0, 1);
            lemma_count_dn_queen(s, n, 0);
            assert(row_score(s, n, 0) >= 3);
        } else if s[0] == 1 && s[1] == 2 {
            assert(s[2] == 0);
            lemma_count_dn_pair(s, n, 0, 1);
            lemma_count_up_queen(s, 0);
            assert(row_score(s, n, 0) >= 3);
        } else if s[0] == 2 && s[1] == 0 {
            assert(s[2] == 1);
            lemma_count_dn_pair(s, n, 1, 2);
            lemma_count_up_queen(s, 1);
            assert(row_score(s, n, 1) >= 3);
        } else {
            assert(s[0] == 2 && s[1] == 1 && s[2] == 0);
            lemma_count_up_pair(s, 0, 1);
            lemma_count_dn_queen(s, n, 0);
            assert(row_score(s, n, 0) >= 3);
        }
    }
}

/// Build the cleared tabu memory: one unrestricted entry per row.
fn cleared_tabu(n: usize) -> (r: Vec<Option<usize>>)
    ensures
        r@.len() == n,
        forall|k: int| 0 <= k < n ==> r@[k] is None,
{
    let mut tabu: Vec<Option<usize>> = Vec::new();
    let mut k: usize = 0;
    while k < n
        invariant
            k <= n,
            tabu@.len() == k,
            forall|m: int| 0 <= m < k ==> tabu@[m] is None,
        decreases n - k,
    {
        tabu.push(None);
        k += 1;
    }
    tabu
}

/// The optimizer's row selection: scan rows from the top down and return
/// the first conflicted row met — the highest-indexed row whose diagonal
/// occupancy exceeds its own two self-counts — with that occupancy sum.
/// Returns `None` exactly in the converged state.
pub fn select_conflicted_row(sol: &Vec<usize>, diag_up: &Vec<usize>, diag_dn: &Vec<usize>) -> (r:
    Option<(usize, u128)>)
    requires
        1 <= sol.len(),
        is_permutation(sol@),
        diags_match(sol@, sol.len() as int, diag_up@, diag_dn@),
    ensures
        r matches Some(p) ==> p.0 < sol.len() && p.1 == row_score(sol@, sol.len() as int, p.0 as int)
            && p.1 > 2 && (forall|k: int|
            p.0 < k < sol@.len() ==> #[trigger] row_score(sol@, sol.len() as int, k) <= 2),
        r is None ==> no_conflicts(sol@, sol.len() as int),
{
    let n: usize = sol.len();
    let n_diag: usize = diag_up.len();
    let ghost gn = n as int;
    proof {
        assert(n_diag == 2 * gn - 1);
    }
    let mut ii: usize = n;
    while ii > 0
        invariant
            ii <= n,
            n == sol@.len(),
            gn == n as int,
            n_diag == 2 * gn - 1,
            is_permutation(sol@),
            diags_match(sol@, gn, diag_up@, diag_dn@),
            forall|k: int| ii <= k < gn ==> #[trigger] row_score(sol@, gn, k) <= 2,
        decreases ii,
    {
        ii -= 1;
        let c: usize = sol[ii];
        let sc: u128 = diag_up[ii + c] as u128 + diag_dn[(n - 1) - ii + c] as u128;
        proof {
            lemma_count_up_le_len(sol@, ii + c);
            lemma_count_dn_le_len(sol@, gn, (gn - 1) - ii + c);
            assert(sc == row_score(sol@, gn, ii as int));
        }
        if sc > 2 {
            return Some((ii, sc));
        }
    }
    None
}

/// The optimizer's candidate evaluation: over every partner row whose tabu
/// entry is absent or expired, the swap of maximum conflict delta, lowest
/// row index on ties, provided that maximum is strictly positive; `None`
/// when no eligible swap strictly improves.
pub fn best_swap_candidate(
    sol: &Vec<usize>,
    diag_up: &Vec<usize>,
    diag_dn: &Vec<usize>,
    tabu: &Vec<Option<usize>>,
    i_star: usize,
    colls_star: u128,
    n_iter: usize,
) -> (r: Option<(usize, u128)>)
    requires
        1 <= sol.len(),
        is_permutation(sol@),
        diags_match(sol@, sol.len() as int, diag_up@, diag_dn@),
        tabu@.len() == sol@.len(),
        i_star < sol.len(),
        colls_star == row_score(sol@, sol.len() as int, i_star as int),
    ensures
        r matches Some(p) ==> p.0 < sol.len() && eligible_partner(
            tabu@,
            n_iter,
            i_star as int,
            p.0 as int,
        ) && p.1 == swap_delta(sol@, sol.len() as int, i_star as int, p.0 as int) && p.1 > 0 && (
        forall|k: int|
            eligible_partner(tabu@, n_iter, i_star as int, k) ==> #[trigger] swap_delta(
                sol@,
                sol.len() as int,
                i_star as int,
                k,
            ) <= p.1) && (forall|k: int|
            0 <= k < p.0 && eligible_partner(tabu@, n_iter, i_star as int, k)
                ==> #[trigger] swap_delta(sol@, sol.len() as int, i_star as int, k) < p.1),
        r is None ==> forall|k: int|
            eligible_partner(tabu@, n_iter, i_star as int, k) ==> #[trigger] swap_delta(
                sol@,
                sol.len() as int,
                i_star as int,
                k,
            ) <= 0,
{
    let n: usize = sol.len();
    let n_diag: usize = diag_up.len();
    let ghost gn = n as int;
    proof {
        assert(n_diag == 2 * gn - 1);
    }
    let ci_star: usize = sol[i_star];
    proof {
        lemma_count_up_le_len(sol@, i_star + ci_star);
        lemma_count_dn_le_len(sol@, gn, (gn - 1) - i_star + ci_star);
    }
    let mut delta: u128 = 0;
    let mut j_star: usize = 0;
    let mut have: bool = false;
    let mut j: usize = 0;
    while j < n
        invariant
            n == sol@.len(),
            gn == n as int,
            1 <= gn,
            n_diag == 2 * gn - 1,
            is_permutation(sol@),
            diags_match(sol@, gn, diag_up@, diag_dn@),
            tabu@.len() == gn,
            j <= n,
            i_star < n,
            ci_star == sol@[i_star as int],
            colls_star == row_score(sol@, gn, i_star as int),
            colls_star as int <= 2 * gn,
            delta as int <= 4 * gn,
            have ==> j_star < j && eligible_partner(tabu@, n_iter, i_star as int, j_star as int)
                && delta as int == swap_delta(sol@, gn, i_star as int, j_star as int) && delta > 0,
            !have ==> delta == 0,
            forall|k: int|
                0 <= k < j && eligible_partner(tabu@, n_iter, i_star as int, k)
                    ==> #[trigger] swap_delta(sol@, gn, i_star as int, k) <= delta as int,
            have ==> forall|k: int|
                0 <= k < j_star && eligible_partner(tabu@, n_iter, i_star as int, k)
                    ==> #[trigger] swap_delta(sol@, gn, i_star as int, k) < delta as int,
        decreases n - j,
    {
        let mut skip: bool = false;
        if j == i_star {
            skip = true;
        } else {
            match tabu[j] {
                Option::None => {},
                Option::Some(t) => {
                    if t >= n_iter {
                        skip = true;
                    }
                },
            }
        }
        if !skip {
            let cj: usize = sol[j];
            proof {
                lemma_count_up_le_len(sol@, j + cj);
                lemma_count_dn_le_len(sol@, gn, (gn - 1) - j + cj);
            }
            let lhs: u128 = diag_up[j + cj] as u128 + diag_dn[(n - 1) - j + cj] as u128
                + colls_star;
            let rhs: u128 = diag_up[i_star + cj] as u128 + diag_dn[(n - 1) - i_star
                + cj] as u128 + diag_up[j + ci_star] as u128 + diag_dn[(n - 1) - j
                + ci_star] as u128;
            proof {
                assert(lhs as int - rhs as int == swap_delta(sol@, gn, i_star as int, j as int));
            }
            if lhs > rhs + delta {
                delta = lhs - rhs;
                j_star = j;
                have = true;
            }
        } else {
            proof {
                assert(!eligible_partner(tabu@, n_iter, i_star as int, j as int));
            }
        }
        j += 1;
    }
    if have {
        Some((j_star, delta))
    } else {
        None
    }
}

/// Mark both rows of an applied swap with one shared expiry, drawn as the
/// current iteration plus a uniform tenure in `[1, tabulen)`; no other
/// entry of the tabu memory changes.
fn mark_tabu(
    tabu: &mut Vec<Option<usize>>,
    i_star: usize,
    j_star: usize,
    n_iter: usize,
    tabulen: usize,
    rng: &mut rand::rngs::StdRng,
)
    requires
        i_star < old(tabu)@.len(),
        j_star < old(tabu)@.len(),
        2 <= tabulen <= 10,
        n_iter <= usize::MAX - 10,
    ensures
        exists|v: usize|
            n_iter + 1 <= v < n_iter + tabulen && final(tabu)@ == old(tabu)@.update(
                i_star as int,
                Some(v),
            ).update(j_star as int, Some(v)),
{
    let tick: usize = 1 + rand_below(rng, tabulen - 1);
    let val: usize = n_iter + tick;
    tabu[i_star] = Some(val);
    tabu[j_star] = Some(val);
    proof {
        assert(n_iter + 1 <= val < n_iter + tabulen && tabu@ == old(tabu)@.update(
            i_star as int,
            Some(val),
        ).update(j_star as int, Some(val)));
    }
}

/// Tabu-search local optimization with an explicit iteration budget.
///
/// Per iteration: `select_conflicted_row` picks the highest-indexed row
/// with a real conflict; if none exists the search is converged and both
/// occupancy families record zero conflicts.  Otherwise
/// `best_swap_candidate` evaluates every non-tabu partner row by the
/// incremental conflict delta; the best strictly improving swap is applied
/// and both rows marked tabu by `mark_tabu`, or, if no swap improves, the
/// tenure decays and the tabu memory is cleared.
///
/// The permutation and occupancy invariants hold throughout, whatever the
/// generator returns.  An already converged board is recognized on the
/// first iteration, untouched.  A board of 2 or 3 rows admits no
/// conflict-free permutation, so there the budget always runs out.
pub fn fast_tabu_search(
    sol: &mut Vec<usize>,
    diag_up: &mut Vec<usize>,
    diag_dn: &mut Vec<usize>,
    rng: &mut rand::rngs::StdRng,
    max_iters: usize,
) -> (outcome: SearchOutcome)
    requires
        1 <= old(sol).len(),
        is_permutation(old(sol)@),
        diags_match(old(sol)@, old(sol).len() as int, old(diag_up)@, old(diag_dn)@),
        max_iters <= usize::MAX - 10,
    ensures
        final(sol).len() == old(sol).len(),
        is_permutation(final(sol)@),
        diags_match(final(sol)@, old(sol).len() as int, final(diag_up)@, final(diag_dn)@),
        outcome == SearchOutcome::Converged ==> no_conflicts(final(sol)@, old(sol).len() as int)
            && spec_collisions(final(diag_up)@) == 0 && spec_collisions(final(diag_dn)@) == 0,
        no_conflicts(old(sol)@, old(sol).len() as int) && max_iters >= 1 ==> outcome
            == SearchOutcome::Converged && final(sol)@ == old(sol)@,
        old(sol).len() == 2 || old(sol).len() == 3 ==> outcome == SearchOutcome::OutOfBudget,
        old(sol).len() == 1 && max_iters >= 1 ==> outcome == SearchOutcome::Converged
            && final(sol)@ == old(sol)@,
{
    let n: usize = sol.len();
    let n_diag: usize = diag_up.len();
    let ghost gn = n as int;
    proof {
        assert(n_diag == 2 * gn - 1);
        if n == 1 {
            assert forall|i: int| 0 <= i < sol@.len() implies #[trigger] row_score(sol@, gn, i)
                <= 2 by {
                lemma_count_up_le_len(sol@, i + sol@[i]);
                lemma_count_dn_le_len(sol@, gn, (gn - 1) - i + sol@[i]);
            }
        }
    }
    let mut tabu: Vec<Option<usize>> = cleared_tabu(n);
    let mut tabulen: usize = if 10 < n {
        10
    } else {
        n
    };
    let mut n_iter: usize = 0;
    while n_iter < max_iters
        invariant
            n == sol@.len(),
            gn == n as int,
            gn == old(sol)@.len(),
            1 <= gn,
            n_diag == 2 * gn - 1,
            is_permutation(sol@),
            diags_match(sol@, gn, diag_up@, diag_dn@),
            tabu@.len() == gn,
            1 <= tabulen <= 10,
            2 <= gn ==> 2 <= tabulen,
            n_iter <= max_iters,
            max_iters <= usize::MAX - 10,
            no_conflicts(old(sol)@, gn) ==> n_iter == 0 && sol@ == old(sol)@,
            gn == 1 ==> no_conflicts(old(sol)@, gn),
        decreases max_iters - n_iter,
    {
        n_iter += 1;

        let sel: Option<(usize, u128)> = select_conflicted_row(sol, diag_up, diag_dn);
        match sel {
            Option::None => {
                proof {
                    assert forall|i: int|
                        0 <= i < gn implies count_up(sol@, i + sol@[i]) + count_dn(
                        sol@,
                        gn,
                        (gn - 1) - i + sol@[i],
                    ) <= 2 by {
                        assert(row_score(sol@, gn, i) <= 2);
                    }
                    lemma_converged_no_collisions(sol@, gn, diag_up@, diag_dn@);
                    if gn == 2 || gn == 3 {
                        lemma_small_board_conflict(sol@);
                    }
                }
                return SearchOutcome::Converged;
            },
            Option::Some(pair) => {
                let i_star: usize = pair.0;
                let colls_star: u128 = pair.1;
                proof {
                    // the incoming board held a conflict, so it was not
                    // already converged
                    if no_conflicts(old(sol)@, gn) {
                        assert(row_score(old(sol)@, gn, i_star as int) > 2);
                        assert(false);
                    }
                    // a conflicted row needs a second queen, so the board
                    // has at least two rows and the tenure is at least 2
                    lemma_count_up_le_len(sol@, i_star + sol@[i_star as int]);
                    lemma_count_dn_le_len(sol@, gn, (gn - 1) - i_star + sol@[i_star as int]);
                    assert(row_score(sol@, gn, i_star as int) <= 2 * sol@.len());
                    assert(gn >= 2);
                }
                let choice: Option<(usize, u128)> = best_swap_candidate(
                    sol,
                    diag_up,
                    diag_dn,
                    &tabu,
                    i_star,
                    colls_star,
                    n_iter,
                );
                match choice {
                    Option::Some(best) => {
                        mark_tabu(&mut tabu, i_star, best.0, n_iter, tabulen, rng);
                        exchange(i_star, best.0, sol, diag_up, diag_dn);
                    },
                    Option::None => {
                        tabulen = decay_tenure(tabulen);
                        tabu = cleared_tabu(n);
                    },
                }
            },
        }
    }
    SearchOutcome::OutOfBudget
}

} // verus!
