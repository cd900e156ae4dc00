//! The board model: a permutation of columns, one queen per row, and the
//! occupancy counts of the two diagonal families.
//!
//! Row `i` holds its queen in column `sol[i]`.  The upward diagonal through
//! `(i, c)` has index `i + c`, the downward one `(n - 1) - i + c`; both range
//! over `[0, 2n - 2]`.  The occupancy arrays are modelled by the spec
//! functions `count_up` / `count_dn`, which count the queens of a (prefix of
//! a) solution on one diagonal.

use vstd::prelude::*;

verus! {

/// Number of queens among rows `0..s.len()` whose upward diagonal is `d`.
pub open spec fn count_up(s: Seq<usize>, d: int) -> nat
    decreases s.len(),
{
    if s.len() == 0 {
        0
    } else {
        count_up(s.drop_last(), d) + if s.len() - 1 + s.last() == d {
            1nat
        } else {
            0nat
        }
    }
}

/// Number of queens among rows `0..s.len()` whose downward diagonal is `d`,
/// on a board of `n` rows.
pub open spec fn count_dn(s: Seq<usize>, n: int, d: int) -> nat
    decreases s.len(),
{
    if s.len() == 0 {
        0
    } else {
        count_dn(s.drop_last(), n, d) + if (n - 1) - (s.len() - 1) + s.last() == d {
            1nat
        } else {
            0nat
        }
    }
}

/// Every column of `s` lies on a board of `n` columns.
pub open spec fn cols_in_range(s: Seq<usize>, n: int) -> bool {
    forall|i: int| 0 <= i < s.len() ==> s[i] < n
}

/// `s` is a permutation of the columns `0..s.len()`: all in range, no repeats.
pub open spec fn is_permutation(s: Seq<usize>) -> bool {
    &&& cols_in_range(s, s.len() as int)
    &&& forall|i: int, j: int| 0 <= i < j < s.len() ==> s[i] != s[j]
}

/// The occupancy arrays `up` and `dn` are exactly the diagonal counts of the
/// (partial) solution `s` on a board of `n` rows: what a recomputation from
/// scratch would yield.
pub open spec fn diags_match(s: Seq<usize>, n: int, up: Seq<usize>, dn: Seq<usize>) -> bool {
    &&& up.len() == 2 * n - 1
    &&& dn.len() == 2 * n - 1
    &&& forall|d: int| 0 <= d < 2 * n - 1 ==> up[d] == count_up(s, d)
    &&& forall|d: int| 0 <= d < 2 * n - 1 ==> dn[d] == count_dn(s, n, d)
}

/// Pairwise conflicts recorded by one family of diagonal counts: a diagonal
/// holding `c` queens contributes `c - 1`.
pub open spec fn spec_collisions(diag: Seq<usize>) -> nat
    decreases diag.len(),
{
    if diag.len() == 0 {
        0
    } else {
        spec_collisions(diag.drop_last()) + if diag.last() >= 1 {
            (diag.last() - 1) as nat
        } else {
            0nat
        }
    }
}

/// Sum of the entries of one occupancy array.
pub open spec fn spec_sum(diag: Seq<usize>) -> nat
    decreases diag.len(),
{
    if diag.len() == 0 {
        0
    } else {
        spec_sum(diag.drop_last()) + diag.last() as nat
    }
}

/// A diagonal never holds more queens than there are rows.
pub proof fn lemma_count_up_le_len(s: Seq<usize>, d: int)
    ensures
        count_up(s, d) <= s.len(),
    decreases s.len(),
{
    if s.len() > 0 {
        lemma_count_up_le_len(s.drop_last(), d);
    }
}

/// A diagonal never holds more queens than there are rows.
pub proof fn lemma_count_dn_le_len(s: Seq<usize>, n: int, d: int)
    ensures
        count_dn(s, n, d) <= s.len(),
    decreases s.len(),
{
    if s.len() > 0 {
        lemma_count_dn_le_len(s.drop_last(), n, d);
    }
}

/// A queen counts itself: the upward diagonal through row `i` is occupied.
pub proof fn lemma_count_up_queen(s: Seq<usize>, i: int)
    requires
        0 <= i < s.len(),
    ensures
        count_up(s, i + s[i]) >= 1,
    decreases s.len(),
{
    if i < s.len() - 1 {
        lemma_count_up_queen(s.drop_last(), i);
    }
}

/// A queen counts itself: the downward diagonal through row `i` is occupied.
pub proof fn lemma_count_dn_queen(s: Seq<usize>, n: int, i: int)
    requires
        0 <= i < s.len(),
    ensures
        count_dn(s, n, (n - 1) - i + s[i]) >= 1,
    decreases s.len(),
{
    if i < s.len() - 1 {
        lemma_count_dn_queen(s.drop_last(), n, i);
    }
}

/// Two distinct rows on one upward diagonal make its count at least 2.
pub proof fn lemma_count_up_pair(s: Seq<usize>, i: int, j: int)
    requires
        0 <= i < j < s.len(),
        i + s[i] == j + s[j],
    ensures
        count_up(s, i + s[i]) >= 2,
    decreases s.len(),
{
    if j == s.len() - 1 {
        lemma_count_up_queen(s.drop_last(), i);
    } else {
        lemma_count_up_pair(s.drop_last(), i, j);
    }
}

/// Two distinct rows on one downward diagonal make its count at least 2.
pub proof fn lemma_count_dn_pair(s: Seq<usize>, n: int, i: int, j: int)
    requires
        0 <= i < j < s.len(),
        (n - 1) - i + s[i] == (n - 1) - j + s[j],
    ensures
        count_dn(s, n, (n - 1) - i + s[i]) >= 2,
    decreases s.len(),
{
    if j == s.len() - 1 {
        lemma_count_dn_queen(s.drop_last(), n, i);
    } else {
        lemma_count_dn_pair(s.drop_last(), n, i, j);
    }
}

/// An occupied upward diagonal holds a queen of some row.
pub proof fn lemma_count_up_witness(s: Seq<usize>, d: int)
    requires
        count_up(s, d) >= 1,
    ensures
        exists|i: int| 0 <= i < s.len() && i + s[i] == d,
    decreases s.len(),
{
    if s.len() - 1 + s.last() == d {
        assert(0 <= s.len() - 1 < s.len() && (s.len() - 1) + s[s.len() - 1] == d);
    } else {
        lemma_count_up_witness(s.drop_last(), d);
        let i = choose|i: int| 0 <= i < s.drop_last().len() && i + s.drop_last()[i] == d;
        assert(0 <= i < s.len() && i + s[i] == d);
    }
}

/// An occupied downward diagonal holds a queen of some row.
pub proof fn lemma_count_dn_witness(s: Seq<usize>, n: int, d: int)
    requires
        count_dn(s, n, d) >= 1,
    ensures
        exists|i: int| 0 <= i < s.len() && (n - 1) - i + s[i] == d,
    decreases s.len(),
{
    if (n - 1) - (s.len() - 1) + s.last() == d {
        assert(0 <= s.len() - 1 < s.len() && (n - 1) - (s.len() - 1) + s[s.len() - 1] == d);
    } else {
        lemma_count_dn_witness(s.drop_last(), n, d);
        let i = choose|i: int|
            0 <= i < s.drop_last().len() && (n - 1) - i + s.drop_last()[i] == d;
        assert(0 <= i < s.len() && (n - 1) - i + s[i] == d);
    }
}

/// Appending a row adds one queen to exactly its two diagonals.
pub proof fn lemma_count_up_push(s: Seq<usize>, x: usize)
    ensures
        forall|d: int|
            #[trigger] count_up(s.push(x), d) == count_up(s, d) + if s.len() + x == d {
                1nat
            } else {
                0nat
            },
{
    assert forall|d: int|
        #[trigger] count_up(s.push(x), d) == count_up(s, d) + if s.len() + x == d {
            1nat
        } else {
            0nat
        } by {
        assert(s.push(x).drop_last() =~= s);
    }
}

/// Appending a row adds one queen to exactly its two diagonals.
pub proof fn lemma_count_dn_push(s: Seq<usize>, n: int, x: usize)
    ensures
        forall|d: int|
            #[trigger] count_dn(s.push(x), n, d) == count_dn(s, n, d) + if (n - 1) - s.len() + x
                == d {
                1nat
            } else {
                0nat
            },
{
    assert forall|d: int|
        #[trigger] count_dn(s.push(x), n, d) == count_dn(s, n, d) + if (n - 1) - s.len() + x == d {
            1nat
        } else {
            0nat
        } by {
        assert(s.push(x).drop_last() =~= s);
    }
}

/// Replacing the column of one row moves one queen between diagonals.
pub proof fn lemma_count_up_update(s: Seq<usize>, k: int, v: usize)
    requires
        0 <= k < s.len(),
    ensures
        forall|d: int|
            #[trigger] count_up(s.update(k, v), d) == count_up(s, d) - (if k + s[k] == d {
                1nat
            } else {
                0nat
            }) + (if k + v == d {
                1nat
            } else {
                0nat
            }),
    decreases s.len(),
{
    let t = s.update(k, v);
    if k == s.len() - 1 {
        assert(t.drop_last() =~= s.drop_last());
        assert forall|d: int|
            #[trigger] count_up(t, d) == count_up(s, d) - (if k + s[k] == d {
                1nat
            } else {
                0nat
            }) + (if k + v == d {
                1nat
            } else {
                0nat
            }) by {
            assert(t.last() == v);
            assert(s.last() == s[k]);
        }
    } else {
        lemma_count_up_update(s.drop_last(), k, v);
        assert(t.drop_last() =~= s.drop_last().update(k, v));
        assert forall|d: int|
            #[trigger] count_up(t, d) == count_up(s, d) - (if k + s[k] == d {
                1nat
            } else {
                0nat
            }) + (if k + v == d {
                1nat
            } else {
                0nat
            }) by {
            assert(count_up(t, d) == count_up(s.drop_last().update(k, v), d) + if s.len() - 1
                + s.last() == d {
                1nat
            } else {
                0nat
            });
            assert(s.drop_last()[k] == s[k]);
        }
    }
}

/// Replacing the column of one row moves one queen between diagonals.
pub proof fn lemma_count_dn_update(s: Seq<usize>, n: int, k: int, v: usize)
    requires
        0 <= k < s.len(),
    ensures
        forall|d: int|
            #[trigger] count_dn(s.update(k, v), n, d) == count_dn(s, n, d) - (if (n - 1) - k
                + s[k] == d {
                1nat
            } else {
                0nat
            }) + (if (n - 1) - k + v == d {
                1nat
            } else {
                0nat
            }),
    decreases s.len(),
{
    let t = s.update(k, v);
    if k == s.len() - 1 {
        assert(t.drop_last() =~= s.drop_last());
        assert forall|d: int|
            #[trigger] count_dn(t, n, d) == count_dn(s, n, d) - (if (n - 1) - k + s[k] == d {
                1nat
            } else {
                0nat
            }) + (if (n - 1) - k + v == d {
                1nat
            } else {
                0nat
            }) by {
            assert(t.last() == v);
            assert(s.last() == s[k]);
        }
    } else {
        lemma_count_dn_update(s.drop_last(), n, k, v);
        assert(t.drop_last() =~= s.drop_last().update(k, v));
        assert forall|d: int|
            #[trigger] count_dn(t, n, d) == count_dn(s, n, d) - (if (n - 1) - k + s[k] == d {
                1nat
            } else {
                0nat
            }) + (if (n - 1) - k + v == d {
                1nat
            } else {
                0nat
            }) by {
            assert(count_dn(t, n, d) == count_dn(s.drop_last().update(k, v), n, d) + if (n - 1) - (
            s.len() - 1) + s.last() == d {
                1nat
            } else {
                0nat
            });
            assert(s.drop_last()[k] == s[k]);
        }
    }
}

/// Column `c` is held by some row of `s`.
pub open spec fn column_used(s: Seq<usize>, c: int) -> bool {
    exists|i: int| 0 <= i < s.len() && s[i] == c
}

/// A permutation is onto: every column of the board is held by some row.
/// With `is_permutation` this makes the solution a bijection on the columns.
pub proof fn lemma_permutation_onto(s: Seq<usize>)
    requires
        is_permutation(s),
    ensures
        forall|c: int| 0 <= c < s.len() ==> #[trigger] column_used(s, c),
{
    broadcast use vstd::seq_lib::seq_to_set_is_finite;

    let n = s.len() as int;
    let si = s.map_values(|c: usize| c as int);
    assert(si.no_duplicates());
    si.unique_seq_to_set();
    vstd::set_lib::lemma_int_range(0, n);
    assert(si.to_set().subset_of(vstd::set_lib::set_int_range(0, n))) by {
        assert forall|e: int|
            si.to_set().contains(e) implies vstd::set_lib::set_int_range(0, n).contains(e) by {
            let i = choose|i: int| 0 <= i < si.len() && si[i] == e;
            assert(s[i] < s.len());
        }
    }
    vstd::set_lib::lemma_subset_equality(si.to_set(), vstd::set_lib::set_int_range(0, n));
    assert forall|c: int| 0 <= c < n implies #[trigger] column_used(s, c) by {
        assert(vstd::set_lib::set_int_range(0, n).contains(c));
        assert(si.to_set().contains(c));
        let i = choose|i: int| 0 <= i < si.len() && si[i] == c;
        assert(0 <= i < s.len() && s[i] == c);
    }
}

/// A family with no multiply-occupied diagonal records no conflict.
pub proof fn lemma_collisions_zero(u: Seq<usize>)
    requires
        forall|d: int| 0 <= d < u.len() ==> u[d] <= 1,
    ensures
        spec_collisions(u) == 0,
    decreases u.len(),
{
    if u.len() > 0 {
        lemma_collisions_zero(u.drop_last());
    }
}

/// Conflicts are no more than queens: each diagonal contributes `c - 1 <= c`.
pub proof fn lemma_collisions_le_sum(u: Seq<usize>)
    ensures
        spec_collisions(u) <= spec_sum(u),
    decreases u.len(),
{
    if u.len() > 0 {
        lemma_collisions_le_sum(u.drop_last());
    }
}

/// A prefix sums to no more than the whole.
pub proof fn lemma_sum_take_le(u: Seq<usize>, k: int)
    requires
        0 <= k <= u.len(),
    ensures
        spec_sum(u.take(k)) <= spec_sum(u),
    decreases u.len(),
{
    if k == u.len() {
        assert(u.take(k) =~= u);
    } else {
        lemma_sum_take_le(u.drop_last(), k);
        assert(u.drop_last().take(k) =~= u.take(k));
    }
}

/// Changing one entry changes the sum by the difference.
pub proof fn lemma_sum_update(u: Seq<usize>, k: int, v: usize)
    requires
        0 <= k < u.len(),
    ensures
        spec_sum(u.update(k, v)) == spec_sum(u) - u[k] + v,
    decreases u.len(),
{
    let t = u.update(k, v);
    if k == u.len() - 1 {
        assert(t.drop_last() =~= u.drop_last());
        assert(t.last() == v);
        assert(u.last() == u[k]);
    } else {
        lemma_sum_update(u.drop_last(), k, v);
        assert(t.drop_last() =~= u.drop_last().update(k, v));
        assert(u.drop_last()[k] == u[k]);
    }
}

/// Occupancy conservation: each family of diagonal counts sums to the number
/// of placed queens.
pub proof fn lemma_diag_sums(s: Seq<usize>, n: int, up: Seq<usize>, dn: Seq<usize>)
    requires
        1 <= n,
        s.len() <= n,
        cols_in_range(s, n),
        diags_match(s, n, up, dn),
    ensures
        spec_sum(up) == s.len(),
        spec_sum(dn) == s.len(),
    decreases s.len(),
{
    if s.len() == 0 {
        assert forall|d: int| 0 <= d < up.len() implies up[d] == 0 by {}
        assert forall|d: int| 0 <= d < dn.len() implies dn[d] == 0 by {}
        lemma_sum_zero(up);
        lemma_sum_zero(dn);
    } else {
        let r = s.len() - 1;
        let du = r + s[r];
        let dd = (n - 1) - r + s.last();
        assert(0 <= du < 2 * n - 1);
        assert(0 <= dd < 2 * n - 1);
        lemma_count_up_queen(s, r);
        lemma_count_dn_queen(s, n, r);
        let up1 = up.update(du, (up[du] - 1) as usize);
        let dn1 = dn.update(dd, (dn[dd] - 1) as usize);
        assert(diags_match(s.drop_last(), n, up1, dn1)) by {
            assert forall|d: int| 0 <= d < 2 * n - 1 implies up1[d] == count_up(
                s.drop_last(),
                d,
            ) by {
                assert(count_up(s, d) == count_up(s.drop_last(), d) + if r + s.last() == d {
                    1nat
                } else {
                    0nat
                });
            }
            assert forall|d: int| 0 <= d < 2 * n - 1 implies dn1[d] == count_dn(
                s.drop_last(),
                n,
                d,
            ) by {
                assert(count_dn(s, n, d) == count_dn(s.drop_last(), n, d) + if (n - 1) - r
                    + s.last() == d {
                    1nat
                } else {
                    0nat
                });
            }
        }
        assert(cols_in_range(s.drop_last(), n));
        lemma_diag_sums(s.drop_last(), n, up1, dn1);
        lemma_sum_update(up, du, (up[du] - 1) as usize);
        lemma_sum_update(dn, dd, (dn[dd] - 1) as usize);
        assert(up1.update(du, up[du]) =~= up);
        assert(dn1.update(dd, dn[dd]) =~= dn);
        lemma_sum_update(up1, du, up[du]);
        lemma_sum_update(dn1, dd, dn[dd]);
    }
}

/// An all-zero array sums to zero.
pub proof fn lemma_sum_zero(u: Seq<usize>)
    requires
        forall|d: int| 0 <= d < u.len() ==> u[d] == 0,
    ensures
        spec_sum(u) == 0,
    decreases u.len(),
{
    if u.len() > 0 {
        lemma_sum_zero(u.drop_last());
    }
}

/// When no row sees more than its own two self-counts, no diagonal holds two
/// queens, and both families record zero conflicts.
pub proof fn lemma_converged_no_collisions(s: Seq<usize>, n: int, up: Seq<usize>, dn: Seq<usize>)
    requires
        1 <= n,
        s.len() == n,
        cols_in_range(s, n),
        diags_match(s, n, up, dn),
        forall|i: int|
            0 <= i < n ==> count_up(s, i + s[i]) + count_dn(s, n, (n - 1) - i + s[i]) <= 2,
    ensures
        spec_collisions(up) == 0,
        spec_collisions(dn) == 0,
{
    assert forall|d: int| 0 <= d < up.len() implies up[d] <= 1 by {
        if up[d] >= 2 {
            lemma_count_up_witness(s, d);
            let i = choose|i: int| 0 <= i < s.len() && i + s[i] == d;
            lemma_count_dn_queen(s, n, i);
            assert(count_up(s, i + s[i]) + count_dn(s, n, (n - 1) - i + s[i]) >= 3);
        }
    }
    assert forall|d: int| 0 <= d < dn.len() implies dn[d] <= 1 by {
        if dn[d] >= 2 {
            lemma_count_dn_witness(s, n, d);
            let i = choose|i: int| 0 <= i < s.len() && (n - 1) - i + s[i] == d;
            lemma_count_up_queen(s, i);
            assert(count_up(s, i + s[i]) + count_dn(s, n, (n - 1) - i + s[i]) >= 3);
        }
    }
    lemma_collisions_zero(up);
    lemma_collisions_zero(dn);
}

/// Total pairwise conflicts recorded by one family of diagonal counts.
///
/// A diagonal holding `c > 1` queens contributes `c - 1`.
pub fn collisions(diag: &Vec<usize>) -> (n_colls: usize)
    requires
        spec_sum(diag@) <= usize::MAX,
    ensures
        n_colls == spec_collisions(diag@),
{
    let mut n_colls: usize = 0;
    let len: usize = diag.len();
    let mut k: usize = 0;
    while k < len
        invariant
            0 <= k <= len,
            len == diag@.len(),
            spec_sum(diag@) <= usize::MAX,
            n_colls == spec_collisions(diag@.take(k as int)),
        decreases len - k,
    {
        proof {
            assert(diag@.take(k + 1).drop_last() =~= diag@.take(k as int));
            assert(diag@.take(k + 1).last() == diag@[k as int]);
            lemma_collisions_le_sum(diag@.take(k + 1));
            lemma_sum_take_le(diag@, k + 1);
        }
        let c: usize = diag[k];
        if c > 1 {
            n_colls += c - 1;
        }
        k += 1;
    }
    proof {
        assert(diag@.take(len as int) =~= diag@);
    }
    n_colls
}

/// Recompute both occupancy arrays of `sol` from scratch.
pub fn compute_diags(sol: &Vec<usize>) -> (r: (Vec<usize>, Vec<usize>))
    requires
        1 <= sol.len(),
        sol.len() <= usize::MAX / 2,
        cols_in_range(sol@, sol.len() as int),
    ensures
        diags_match(sol@, sol.len() as int, r.0@, r.1@),
{
    let n: usize = sol.len();
    let n_diag: usize = 2 * n - 1;
    let mut diag_up: Vec<usize> = vec![0usize; n_diag];
    let mut diag_dn: Vec<usize> = vec![0usize; n_diag];
    let ghost gn = n as int;
    let mut i: usize = 0;
    while i < n
        invariant
            0 <= i <= n,
            n == sol@.len(),
            gn == n as int,
            2 * n - 1 == n_diag,
            n <= usize::MAX / 2,
            cols_in_range(sol@, gn),
            diags_match(sol@.take(i as int), gn, diag_up@, diag_dn@),
        decreases n - i,
    {
        let col: usize = sol[i];
        let du: usize = i + col;
        let dd: usize = (n - 1) - i + col;
        proof {
            lemma_count_up_le_len(sol@.take(i as int), du as int);
            lemma_count_dn_le_len(sol@.take(i as int), gn, dd as int);
            lemma_count_up_push(sol@.take(i as int), col);
            lemma_count_dn_push(sol@.take(i as int), gn, col);
            assert(sol@.take(i + 1) =~= sol@.take(i as int).push(col));
        }
        diag_up[du] = diag_up[du] + 1;
        diag_dn[dd] = diag_dn[dd] + 1;
        i += 1;
    }
    proof {
        assert(sol@.take(gn) =~= sol@);
    }
    (diag_up, diag_dn)
}

} // verus!
