//! The sole mutator of the optimizer: swap the columns of two rows and patch
//! the four affected diagonal counts in place, in O(1).

use vstd::prelude::*;

use crate::board::{
    cols_in_range, count_dn, count_up, diags_match, is_permutation, lemma_count_dn_le_len,
    lemma_count_dn_pair, lemma_count_dn_queen, lemma_count_dn_update, lemma_count_up_le_len,
    lemma_count_up_pair, lemma_count_up_queen, lemma_count_up_update,
};

verus! {

/// Swap `sol[i]` and `sol[j]` and update both occupancy arrays so that they
/// again equal a recomputation from scratch.  Decrements for the old
/// positions come first, then the swap, then increments for the new ones.
#[verifier::rlimit(80)]
pub fn exchange(
    i: usize,
    j: usize,
    sol: &mut Vec<usize>,
    diag_up: &mut Vec<usize>,
    diag_dn: &mut Vec<usize>,
)
    requires
        i < old(sol).len(),
        j < old(sol).len(),
        i != j,
        cols_in_range(old(sol)@, old(sol).len() as int),
        diags_match(old(sol)@, old(sol).len() as int, old(diag_up)@, old(diag_dn)@),
    ensures
        final(sol)@ == old(sol)@.update(i as int, old(sol)@[j as int]).update(
            j as int,
            old(sol)@[i as int],
        ),
        final(sol).len() == old(sol).len(),
        cols_in_range(final(sol)@, final(sol).len() as int),
        diags_match(final(sol)@, final(sol).len() as int, final(diag_up)@, final(diag_dn)@),
        is_permutation(old(sol)@) ==> is_permutation(final(sol)@),
{
    let n: usize = sol.len();
    let n_diag: usize = diag_up.len();
    let ghost gn = n as int;
    proof {
        assert(n_diag == 2 * gn - 1);
    }
    let ghost s = sol@;
    let ci: usize = sol[i];
    let cj: usize = sol[j];
    let ghost s1 = s.update(i as int, cj);
    let ghost s2 = s1.update(j as int, ci);

    proof {
        lemma_count_up_queen(s, i as int);
        lemma_count_up_queen(s, j as int);
        lemma_count_dn_queen(s, gn, i as int);
        lemma_count_dn_queen(s, gn, j as int);
        if i + ci == j + cj {
            if i < j {
                lemma_count_up_pair(s, i as int, j as int);
            } else {
                lemma_count_up_pair(s, j as int, i as int);
            }
        }
        if (gn - 1) - i + ci == (gn - 1) - j + cj {
            if i < j {
                lemma_count_dn_pair(s, gn, i as int, j as int);
            } else {
                lemma_count_dn_pair(s, gn, j as int, i as int);
            }
        }
        lemma_count_up_le_len(s, i + cj);
        lemma_count_up_le_len(s, j + ci);
        lemma_count_dn_le_len(s, gn, (gn - 1) - i + cj);
        lemma_count_dn_le_len(s, gn, (gn - 1) - j + ci);
        lemma_count_up_update(s, i as int, cj);
        lemma_count_up_update(s1, j as int, ci);
        lemma_count_dn_update(s, gn, i as int, cj);
        lemma_count_dn_update(s1, gn, j as int, ci);
    }

    let d: usize = i + ci;
    diag_up[d] = diag_up[d] - 1;
    let d: usize = j + cj;
    diag_up[d] = diag_up[d] - 1;

    let d: usize = (n - 1) - i + ci;
    diag_dn[d] = diag_dn[d] - 1;
    let d: usize = (n - 1) - j + cj;
    diag_dn[d] = diag_dn[d] - 1;

    sol[i] = cj;
    sol[j] = ci;

    let d: usize = i + cj;
    diag_up[d] = diag_up[d] + 1;
    let d: usize = j + ci;
    diag_up[d] = diag_up[d] + 1;

    let d: usize = (n - 1) - i + cj;
    diag_dn[d] = diag_dn[d] + 1;
    let d: usize = (n - 1) - j + ci;
    diag_dn[d] = diag_dn[d] + 1;

    proof {
        assert(sol@ =~= s2);
        assert(s1[j as int] == s[j as int]);
        assert forall|dd: int| 0 <= dd < 2 * gn - 1 implies diag_up@[dd] == count_up(s2, dd) by {
            assert(count_up(s1, dd) == count_up(s, dd) - (if i + ci == dd {
                1nat
            } else {
                0nat
            }) + (if i + cj == dd {
                1nat
            } else {
                0nat
            }));
            assert(count_up(s2, dd) == count_up(s1, dd) - (if j + cj == dd {
                1nat
            } else {
                0nat
            }) + (if j + ci == dd {
                1nat
            } else {
                0nat
            }));
        }
        assert forall|dd: int| 0 <= dd < 2 * gn - 1 implies diag_dn@[dd] == count_dn(
            s2,
            gn,
            dd,
        ) by {
            assert(count_dn(s1, gn, dd) == count_dn(s, gn, dd) - (if (gn - 1) - i + ci == dd {
                1nat
            } else {
                0nat
            }) + (if (gn - 1) - i + cj == dd {
                1nat
            } else {
                0nat
            }));
            assert(count_dn(s2, gn, dd) == count_dn(s1, gn, dd) - (if (gn - 1) - j + cj == dd {
                1nat
            } else {
                0nat
            }) + (if (gn - 1) - j + ci == dd {
                1nat
            } else {
                0nat
            }));
        }
    }
}

} // verus!
