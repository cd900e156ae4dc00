//! Randomized-greedy construction of the initial permutation: per row, a few
//! random draws from the pool of unused columns looking for a conflict-free
//! placement, then an exhaustive scan of the pool for a least-conflict column
//! as fallback.  The pool makes the fallback total: a candidate always
//! exists, so the construction cannot fail.
//!
//! The wall-clock gate may end construction early; the result then carries
//! the number of rows filled, and all invariants hold of that prefix.

use vstd::prelude::*;

use crate::board::{
    count_dn, count_up, diags_match, is_permutation, lemma_count_dn_le_len, lemma_count_dn_push,
    lemma_count_up_le_len, lemma_count_up_push,
};
use crate::rng::rand_below;
use crate::timing::TimeKeeper;
use crate::trials::trials;

verus! {

/// No value occurs twice.
pub open spec fn all_distinct(s: Seq<usize>) -> bool {
    forall|k: int, l: int| 0 <= k < l < s.len() ==> s[k] != s[l]
}

/// Column `c` is already taken by one of the first `k` rows.
pub open spec fn used_in_prefix(s: Seq<usize>, k: int, c: usize) -> bool {
    exists|r: int| 0 <= r < k && s[r] == c
}

/// Diagonal-occupancy score of placing column `c` on row `i`, over the
/// already placed prefix `s` of a board of `n` rows: the number of queens
/// on the two diagonals the new queen would join.
pub open spec fn place_score(s: Seq<usize>, n: int, i: int, c: usize) -> int {
    count_up(s, i + c) + count_dn(s, n, (n - 1) - i + c) as int
}

/// Swap-with-last-and-pop removal keeps the pool a duplicate-free set and
/// removes exactly the element at `k`.
proof fn lemma_swap_remove_pool(s: Seq<usize>, k: int)
    requires
        0 <= k < s.len(),
        all_distinct(s),
    ensures
        all_distinct(s.update(k, s.last()).drop_last()),
        forall|c: usize|
            #[trigger] s.update(k, s.last()).drop_last().contains(c) <==> (s.contains(c) && c
                != s[k]),
{
    let t = s.update(k, s.last()).drop_last();
    assert forall|k1: int, l1: int| 0 <= k1 < l1 < t.len() implies t[k1] != t[l1] by {
        assert(t[k1] == if k1 == k {
            s[s.len() - 1]
        } else {
            s[k1]
        });
        assert(t[l1] == if l1 == k {
            s[s.len() - 1]
        } else {
            s[l1]
        });
    }
    assert forall|c: usize| #[trigger] t.contains(c) implies (s.contains(c) && c != s[k]) by {
        let i = choose|i: int| 0 <= i < t.len() && t[i] == c;
        if i == k {
            assert(s[s.len() - 1] == c);
            assert(s.contains(c));
        } else {
            assert(s[i] == c);
            assert(s.contains(c));
        }
    }
    assert forall|c: usize| s.contains(c) && c != s[k] implies #[trigger] t.contains(c) by {
        let i = choose|i: int| 0 <= i < s.len() && s[i] == c;
        if i == s.len() - 1 {
            assert(k < s.len() - 1);
            assert(t[k] == c);
        } else {
            assert(i != k);
            assert(t[i] == c);
        }
    }
}

/// Ordered removal keeps the pool a duplicate-free set and removes exactly
/// the element at `k`.
proof fn lemma_remove_pool(s: Seq<usize>, k: int)
    requires
        0 <= k < s.len(),
        all_distinct(s),
    ensures
        all_distinct(s.remove(k)),
        forall|c: usize| #[trigger] s.remove(k).contains(c) <==> (s.contains(c) && c != s[k]),
{
    let t = s.remove(k);
    assert forall|k1: int, l1: int| 0 <= k1 < l1 < t.len() implies t[k1] != t[l1] by {
        assert(t[k1] == if k1 < k {
            s[k1]
        } else {
            s[k1 + 1]
        });
        assert(t[l1] == if l1 < k {
            s[l1]
        } else {
            s[l1 + 1]
        });
    }
    assert forall|c: usize| #[trigger] t.contains(c) implies (s.contains(c) && c != s[k]) by {
        let i = choose|i: int| 0 <= i < t.len() && t[i] == c;
        if i < k {
            assert(s[i] == c);
            assert(s.contains(c));
        } else {
            assert(s[i + 1] == c);
            assert(s.contains(c));
        }
    }
    assert forall|c: usize| s.contains(c) && c != s[k] implies #[trigger] t.contains(c) by {
        let i = choose|i: int| 0 <= i < s.len() && s[i] == c;
        if i < k {
            assert(t[i] == c);
        } else {
            assert(i > k);
            assert(t[i - 1] == c);
        }
    }
}

/// Place the pool column at `idx` on row `i` and take it out of the pool,
/// by swap-with-last-and-pop (`swap_mode`) or ordered removal.
fn place_and_remove(
    i: usize,
    idx: usize,
    swap_mode: bool,
    sol: &mut Vec<usize>,
    diag_up: &mut Vec<usize>,
    diag_dn: &mut Vec<usize>,
    cand: &mut Vec<usize>,
)
    requires
        i < old(sol).len(),
        old(sol).len() <= usize::MAX / 2,
        idx < old(cand).len(),
        old(cand)@.len() == old(sol).len() - i,
        forall|k: int| 0 <= k < old(cand)@.len() ==> old(cand)@[k] < old(sol).len(),
        all_distinct(old(cand)@),
        forall|c: usize|
            c < old(sol).len() ==> (old(cand)@.contains(c) <==> !used_in_prefix(
                old(sol)@,
                i as int,
                c,
            )),
        forall|r: int| 0 <= r < i ==> old(sol)@[r] < old(sol).len(),
        forall|r1: int, r2: int| 0 <= r1 < r2 < i ==> old(sol)@[r1] != old(sol)@[r2],
        diags_match(old(sol)@.take(i as int), old(sol).len() as int, old(diag_up)@, old(diag_dn)@),
    ensures
        final(sol).len() == old(sol).len(),
        final(sol)@[i as int] == old(cand)@[idx as int],
        forall|r: int| i < r < old(sol)@.len() ==> final(sol)@[r] == old(sol)@[r],
        swap_mode ==> final(cand)@ == old(cand)@.update(idx as int, old(cand)@.last()).drop_last(),
        !swap_mode ==> final(cand)@ == old(cand)@.remove(idx as int),
        final(cand)@.len() == old(sol).len() - i - 1,
        forall|k: int| 0 <= k < final(cand)@.len() ==> final(cand)@[k] < old(sol).len(),
        all_distinct(final(cand)@),
        forall|c: usize|
            c < old(sol).len() ==> (final(cand)@.contains(c) <==> !used_in_prefix(
                final(sol)@,
                i + 1,
                c,
            )),
        forall|r: int| 0 <= r < i + 1 ==> final(sol)@[r] < old(sol).len(),
        forall|r1: int, r2: int| 0 <= r1 < r2 < i + 1 ==> final(sol)@[r1] != final(sol)@[r2],
        diags_match(
            final(sol)@.take(i + 1),
            old(sol).len() as int,
            final(diag_up)@,
            final(diag_dn)@,
        ),
{
    let n: usize = sol.len();
    let ghost gn = n as int;
    let ghost s_old = sol@;
    let ghost pool_old = cand@;
    let col: usize = cand[idx];
    proof {
        assert(pool_old.contains(col));
        assert(!used_in_prefix(s_old, i as int, col));
    }
    sol[i] = col;
    let ghost s_new = sol@;
    proof {
        assert(s_new.take(i as int) =~= s_old.take(i as int));
        assert(s_new.take(i + 1) =~= s_old.take(i as int).push(col));
        lemma_count_up_le_len(s_old.take(i as int), i + col);
        lemma_count_dn_le_len(s_old.take(i as int), gn, (gn - 1) - i + col);
        lemma_count_up_push(s_old.take(i as int), col);
        lemma_count_dn_push(s_old.take(i as int), gn, col);
    }
    let du: usize = i + col;
    let dd: usize = (n - 1) - i + col;
    diag_up[du] = diag_up[du] + 1;
    diag_dn[dd] = diag_dn[dd] + 1;
    if swap_mode {
        let last: usize = cand[cand.len() - 1];
        cand[idx] = last;
        cand.pop();
        proof {
            lemma_swap_remove_pool(pool_old, idx as int);
            assert(cand@ =~= pool_old.update(idx as int, pool_old.last()).drop_last());
        }
    } else {
        cand.remove(idx);
        proof {
            lemma_remove_pool(pool_old, idx as int);
        }
    }
    proof {
        assert forall|c: usize| c < n implies (cand@.contains(c) <==> !used_in_prefix(
            s_new,
            i + 1,
            c,
        )) by {
            assert(cand@.contains(c) <==> (pool_old.contains(c) && c != col));
            if used_in_prefix(s_new, i + 1, c) {
                let r = choose|r: int| 0 <= r < i + 1 && s_new[r] == c;
                if r < i {
                    assert(s_old[r] == c);
                    assert(used_in_prefix(s_old, i as int, c));
                } else {
                    assert(c == col);
                }
            }
            if used_in_prefix(s_old, i as int, c) {
                let r = choose|r: int| 0 <= r < i && s_old[r] == c;
                assert(s_new[r] == c);
                assert(used_in_prefix(s_new, i + 1, c));
            }
            if c == col {
                assert(s_new[i as int] == c);
                assert(used_in_prefix(s_new, i + 1, c));
            }
        }
        assert forall|r1: int, r2: int| 0 <= r1 < r2 < i + 1 implies s_new[r1] != s_new[r2] by {
            if r2 == i {
                assert(s_new[r2] == col);
                if s_new[r1] == col {
                    assert(used_in_prefix(s_old, i as int, col));
                }
            }
        }
    }
}

/// One randomized trial of the construction: place the pool column at
/// `col_id` on row `i` exactly when both its diagonals are empty, removing
/// it from the pool by swap-with-last-and-pop; otherwise change nothing.
pub fn place_if_free(
    i: usize,
    col_id: usize,
    sol: &mut Vec<usize>,
    diag_up: &mut Vec<usize>,
    diag_dn: &mut Vec<usize>,
    cand: &mut Vec<usize>,
) -> (placed: bool)
    requires
        i < old(sol).len(),
        old(sol).len() <= usize::MAX / 2,
        col_id < old(cand).len(),
        old(cand)@.len() == old(sol).len() - i,
        forall|k: int| 0 <= k < old(cand)@.len() ==> old(cand)@[k] < old(sol).len(),
        all_distinct(old(cand)@),
        forall|c: usize|
            c < old(sol).len() ==> (old(cand)@.contains(c) <==> !used_in_prefix(
                old(sol)@,
                i as int,
                c,
            )),
        forall|r: int| 0 <= r < i ==> old(sol)@[r] < old(sol).len(),
        forall|r1: int, r2: int| 0 <= r1 < r2 < i ==> old(sol)@[r1] != old(sol)@[r2],
        diags_match(old(sol)@.take(i as int), old(sol).len() as int, old(diag_up)@, old(diag_dn)@),
    ensures
        placed == (place_score(
            old(sol)@.take(i as int),
            old(sol).len() as int,
            i as int,
            old(cand)@[col_id as int],
        ) == 0),
        final(sol).len() == old(sol).len(),
        placed ==> final(sol)@[i as int] == old(cand)@[col_id as int] && final(cand)@ == old(
            cand,
        )@.update(col_id as int, old(cand)@.last()).drop_last(),
        placed ==> (forall|r: int| i < r < old(sol)@.len() ==> final(sol)@[r] == old(sol)@[r])
            && final(cand)@.len() == old(sol).len() - i - 1 && (forall|k: int|
            0 <= k < final(cand)@.len() ==> final(cand)@[k] < old(sol).len()) && all_distinct(
            final(cand)@,
        ) && (forall|c: usize|
            c < old(sol).len() ==> (final(cand)@.contains(c) <==> !used_in_prefix(
                final(sol)@,
                i + 1,
                c,
            ))) && (forall|r: int| 0 <= r < i + 1 ==> final(sol)@[r] < old(sol).len()) && (forall|
            r1: int,
            r2: int,
        |
            0 <= r1 < r2 < i + 1 ==> final(sol)@[r1] != final(sol)@[r2]) && diags_match(
            final(sol)@.take(i + 1),
            old(sol).len() as int,
            final(diag_up)@,
            final(diag_dn)@,
        ),
        !placed ==> final(sol)@ == old(sol)@ && final(diag_up)@ == old(diag_up)@
            && final(diag_dn)@ == old(diag_dn)@ && final(cand)@ == old(cand)@,
{
    let n: usize = sol.len();
    let ghost gn = n as int;
    let col: usize = cand[col_id];
    proof {
        lemma_count_up_le_len(sol@.take(i as int), i + col);
        lemma_count_dn_le_len(sol@.take(i as int), gn, (gn - 1) - i + col);
    }
    let n_colls: usize = diag_up[i + col] + diag_dn[(n - 1) - i + col];
    if n_colls == 0 {
        place_and_remove(i, col_id, true, sol, diag_up, diag_dn, cand);
        true
    } else {
        false
    }
}

/// The exhaustive fallback's selection rule: the pool position whose column
/// has the least diagonal-occupancy score on row `i`, the earliest position
/// on ties.
pub fn least_score_candidate(
    i: usize,
    sol: &Vec<usize>,
    diag_up: &Vec<usize>,
    diag_dn: &Vec<usize>,
    cand: &Vec<usize>,
) -> (best: usize)
    requires
        i < sol.len(),
        sol.len() <= usize::MAX / 2,
        1 <= cand@.len(),
        forall|k: int| 0 <= k < cand@.len() ==> cand@[k] < sol.len(),
        diags_match(sol@.take(i as int), sol.len() as int, diag_up@, diag_dn@),
    ensures
        best < cand@.len(),
        forall|k: int|
            0 <= k < cand@.len() ==> #[trigger] place_score(
                sol@.take(i as int),
                sol.len() as int,
                i as int,
                cand@[k],
            ) >= place_score(sol@.take(i as int), sol.len() as int, i as int, cand@[best as int]),
        forall|k: int|
            0 <= k < best ==> #[trigger] place_score(
                sol@.take(i as int),
                sol.len() as int,
                i as int,
                cand@[k],
            ) > place_score(sol@.take(i as int), sol.len() as int, i as int, cand@[best as int]),
{
    let n: usize = sol.len();
    let ghost gn = n as int;
    let cl: usize = cand.len();
    let mut best_id: usize = 0;
    let first_col: usize = cand[0];
    proof {
        lemma_count_up_le_len(sol@.take(i as int), i + first_col);
        lemma_count_dn_le_len(sol@.take(i as int), gn, (gn - 1) - i + first_col);
    }
    let mut min_colls: usize = diag_up[i + first_col] + diag_dn[(n - 1) - i + first_col];
    let mut jj: usize = 1;
    while jj < cl
        invariant
            1 <= jj <= cl,
            cl == cand@.len(),
            best_id < jj,
            n == sol@.len(),
            gn == n as int,
            i < n,
            n <= usize::MAX / 2,
            diags_match(sol@.take(i as int), gn, diag_up@, diag_dn@),
            forall|k2: int| 0 <= k2 < cand@.len() ==> cand@[k2] < n,
            min_colls == place_score(sol@.take(i as int), gn, i as int, cand@[best_id as int]),
            forall|k: int|
                0 <= k < jj ==> #[trigger] place_score(sol@.take(i as int), gn, i as int, cand@[k])
                    >= min_colls,
            forall|k: int|
                0 <= k < best_id ==> #[trigger] place_score(
                    sol@.take(i as int),
                    gn,
                    i as int,
                    cand@[k],
                ) > min_colls,
        decreases cl - jj,
    {
        let cc: usize = cand[jj];
        proof {
            lemma_count_up_le_len(sol@.take(i as int), i + cc);
            lemma_count_dn_le_len(sol@.take(i as int), gn, (gn - 1) - i + cc);
        }
        let sc: usize = diag_up[i + cc] + diag_dn[(n - 1) - i + cc];
        if sc < min_colls {
            min_colls = sc;
            best_id = jj;
        }
        jj += 1;
    }
    best_id
}

/// Build the pool of all columns `0..n`.
fn full_pool(n: usize) -> (r: Vec<usize>)
    ensures
        r@.len() == n,
        forall|k: int| 0 <= k < n ==> r@[k] < n,
        all_distinct(r@),
        forall|c: usize| c < n ==> r@.contains(c),
{
    let mut cand: Vec<usize> = Vec::new();
    let mut c: usize = 0;
    while c < n
        invariant
            c <= n,
            cand@.len() == c,
            forall|m: int| 0 <= m < c ==> cand@[m] == m,
        decreases n - c,
    {
        cand.push(c);
        c += 1;
    }
    proof {
        assert forall|x: usize| x < n implies cand@.contains(x) by {
            assert(cand@[x as int] == x);
        }
    }
    cand
}

/// Randomized-greedy construction.
///
/// Fills rows upward from row 0, each with a column unused so far: up to
/// `trials(n)` uniform draws from the pool, each accepted through
/// `place_if_free` exactly when it creates no diagonal conflict, then the
/// least-score pool column chosen by `least_score_candidate`.  Before each
/// row the time gate is consulted; on expiry the rows filled so far are
/// returned as they stand.
///
/// Returns the two occupancy arrays and the number `filled` of rows placed.
/// The first `filled` rows hold pairwise distinct in-range columns, the rows
/// above keep their incoming values, and the occupancy arrays match that
/// prefix exactly.  When `filled == n`, the solution is a permutation and
/// the arrays match it completely.
pub fn construct(sol: &mut Vec<usize>, time_keeper: &TimeKeeper, rng: &mut rand::rngs::StdRng) -> (r
    : (Vec<usize>, Vec<usize>, usize))
    requires
        1 <= old(sol).len(),
        old(sol).len() <= usize::MAX / 2,
    ensures
        final(sol).len() == old(sol).len(),
        r.2 <= old(sol).len(),
        forall|k: int| r.2 <= k < old(sol)@.len() ==> final(sol)@[k] == old(sol)@[k],
        forall|k: int| 0 <= k < r.2 ==> final(sol)@[k] < old(sol).len(),
        forall|k1: int, k2: int| 0 <= k1 < k2 < r.2 ==> final(sol)@[k1] != final(sol)@[k2],
        diags_match(final(sol)@.take(r.2 as int), old(sol).len() as int, r.0@, r.1@),
        r.2 == old(sol).len() ==> is_permutation(final(sol)@) && diags_match(
            final(sol)@,
            old(sol).len() as int,
            r.0@,
            r.1@,
        ),
{
    let n: usize = sol.len();
    let ghost gn = n as int;
    let n_diag: usize = 2 * n - 1;
    let mut diag_up: Vec<usize> = vec![0usize; n_diag];
    let mut diag_dn: Vec<usize> = vec![0usize; n_diag];
    let mut cand: Vec<usize> = full_pool(n);
    let t_budget: usize = trials(n);
    let mut i: usize = 0;
    proof {
        assert(sol@.take(0) =~= Seq::<usize>::empty());
    }
    while i < n
        invariant
            i <= n,
            n == sol@.len(),
            gn == n as int,
            gn == old(sol)@.len(),
            1 <= n,
            n <= usize::MAX / 2,
            n_diag == 2 * gn - 1,
            forall|k: int| i <= k < gn ==> sol@[k] == old(sol)@[k],
            forall|k: int| 0 <= k < i ==> sol@[k] < n,
            forall|k1: int, k2: int| 0 <= k1 < k2 < i ==> sol@[k1] != sol@[k2],
            diags_match(sol@.take(i as int), gn, diag_up@, diag_dn@),
            cand@.len() == n - i,
            forall|k: int| 0 <= k < cand@.len() ==> cand@[k] < n,
            all_distinct(cand@),
            forall|c: usize| c < n ==> (cand@.contains(c) <==> !used_in_prefix(sol@, i as int, c)),
        decreases n - i,
    {
        if time_keeper.is_time_over() {
            return (diag_up, diag_dn, i);
        }
        let mut placed: bool = false;
        let mut k: usize = 0;
        while k < t_budget
            invariant_except_break
                !placed,
                k <= t_budget,
                i < n,
                n == sol@.len(),
                gn == n as int,
                gn == old(sol)@.len(),
                n <= usize::MAX / 2,
                n_diag == 2 * gn - 1,
                forall|k2: int| i <= k2 < gn ==> sol@[k2] == old(sol)@[k2],
                forall|k2: int| 0 <= k2 < i ==> sol@[k2] < n,
                forall|k1: int, k2: int| 0 <= k1 < k2 < i ==> sol@[k1] != sol@[k2],
                diags_match(sol@.take(i as int), gn, diag_up@, diag_dn@),
                cand@.len() == n - i,
                forall|k2: int| 0 <= k2 < cand@.len() ==> cand@[k2] < n,
                all_distinct(cand@),
                forall|c: usize|
                    c < n ==> (cand@.contains(c) <==> !used_in_prefix(sol@, i as int, c)),
            ensures
                i < n,
                n == sol@.len(),
                forall|k2: int| i + 1 <= k2 < gn ==> sol@[k2] == old(sol)@[k2],
                !placed ==> (forall|k2: int| i <= k2 < gn ==> sol@[k2] == old(sol)@[k2])
                    && diags_match(sol@.take(i as int), gn, diag_up@, diag_dn@) && cand@.len() == n
                    - i && all_distinct(cand@) && (forall|k2: int|
                    0 <= k2 < cand@.len() ==> cand@[k2] < n) && (forall|c: usize|
                    c < n ==> (cand@.contains(c) <==> !used_in_prefix(sol@, i as int, c))) && (
                forall|k2: int| 0 <= k2 < i ==> sol@[k2] < n) && (forall|k1: int, k2: int|
                    0 <= k1 < k2 < i ==> sol@[k1] != sol@[k2]),
                placed ==> diags_match(sol@.take(i + 1), gn, diag_up@, diag_dn@) && cand@.len()
                    == n - i - 1 && all_distinct(cand@) && (forall|k2: int|
                    0 <= k2 < cand@.len() ==> cand@[k2] < n) && (forall|c: usize|
                    c < n ==> (cand@.contains(c) <==> !used_in_prefix(sol@, i + 1, c))) && (forall|
                    k2: int,
                |
                    0 <= k2 < i + 1 ==> sol@[k2] < n) && (forall|k1: int, k2: int|
                    0 <= k1 < k2 < i + 1 ==> sol@[k1] != sol@[k2]),
            decreases t_budget - k,
        {
            let col_id: usize = rand_below(rng, cand.len());
            if place_if_free(i, col_id, sol, &mut diag_up, &mut diag_dn, &mut cand) {
                placed = true;
                break ;
            }
            k += 1;
        }
        if !placed {
            // Exhaustive fallback; the pool is never empty here, so a
            // candidate always exists.
            let best: usize = least_score_candidate(i, sol, &diag_up, &diag_dn, &cand);
            place_and_remove(i, best, false, sol, &mut diag_up, &mut diag_dn, &mut cand);
        }
        i += 1;
    }
    proof {
        assert(sol@.take(gn) =~= sol@);
    }
    (diag_up, diag_dn, n)
}

} // verus!
