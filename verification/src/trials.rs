//! The construction phase's per-row trial budget: `floor(10 * log10(n))`,
//! computed exactly in integer arithmetic.
//!
//! The returned `r` is characterized by `10^r <= n^10 < 10^(r+1)`.  The
//! implementation splits `r = 10*d + s` with `d` the decimal magnitude of
//! `n` (so `10^d <= n < 10^(d+1)`), and finds the fractional step `s` by
//! comparing `n` against the fixed thresholds `ceil(10^(d + s/10))`, derived
//! by integer division from the constants `C_s = floor(10^19 * 10^(s/10))`.

use vstd::arithmetic::div_mod::lemma_fundamental_div_mod;
use vstd::arithmetic::power::{
    lemma_pow0, lemma_pow1, lemma_pow_adds, lemma_pow_increases, lemma_pow_multiplies, pow,
};
use vstd::prelude::*;

verus! {

/// Powers of ten.
pub open spec fn pow10(e: nat) -> int {
    pow(10, e)
}

/// Nonnegative bases keep powers nonnegative.
proof fn lemma_pow_nonneg(a: int, e: nat)
    requires
        0 <= a,
    ensures
        0 <= pow(a, e),
    decreases e,
{
    reveal(pow);
    if e > 0 {
        lemma_pow_nonneg(a, (e - 1) as nat);
        assert(0 <= a * pow(a, (e - 1) as nat)) by (nonlinear_arith)
            requires
                0 <= a,
                0 <= pow(a, (e - 1) as nat),
        {}
    }
}

/// Powers are monotone in the base.
proof fn lemma_pow_base_le(a: int, b: int, e: nat)
    requires
        0 <= a <= b,
    ensures
        pow(a, e) <= pow(b, e),
    decreases e,
{
    reveal(pow);
    if e == 0 {
        lemma_pow0(a);
        lemma_pow0(b);
    } else {
        lemma_pow_base_le(a, b, (e - 1) as nat);
        lemma_pow_nonneg(a, (e - 1) as nat);
        assert(pow(a, e) == a * pow(a, (e - 1) as nat));
        assert(pow(b, e) == b * pow(b, (e - 1) as nat));
        assert(a * pow(a, (e - 1) as nat) <= b * pow(b, (e - 1) as nat)) by (nonlinear_arith)
            requires
                0 <= a <= b,
                0 <= pow(a, (e - 1) as nat) <= pow(b, (e - 1) as nat),
        {}
    }
}

/// Powers are strictly monotone in the base, for a positive exponent.
proof fn lemma_pow_base_lt(a: int, b: int, e: nat)
    requires
        0 <= a < b,
        1 <= e,
    ensures
        pow(a, e) < pow(b, e),
    decreases e,
{
    reveal(pow);
    if e == 1 {
        lemma_pow1(a);
        lemma_pow1(b);
    } else {
        lemma_pow_base_lt(a, b, (e - 1) as nat);
        lemma_pow_nonneg(a, (e - 1) as nat);
        assert(pow(a, e) == a * pow(a, (e - 1) as nat));
        assert(pow(b, e) == b * pow(b, (e - 1) as nat));
        assert(a * pow(a, (e - 1) as nat) < b * pow(b, (e - 1) as nat)) by (nonlinear_arith)
            requires
                0 <= a < b,
                0 <= pow(a, (e - 1) as nat) < pow(b, (e - 1) as nat),
        {}
    }
}

/// The decision rule of one fractional step: with `10^d <= n < 10^(d+1)`,
/// `q = 10^(19-d)`, and a constant `c` with `c^10 < 10^(190+r) < (c+1)^10`,
/// the comparison `n > c / q` decides exactly whether `10^(10d+r) <= n^10`.
proof fn lemma_threshold(n: int, d: nat, q: int, c: int, r: nat)
    requires
        1 <= n,
        d <= 19,
        1 <= r <= 9,
        pow10(d) <= n,
        n < pow10(d + 1),
        q == pow10((19 - d) as nat),
        0 <= c,
        pow(c, 10) < pow10(190 + r),
        pow10(190 + r) < pow(c + 1, 10),
    ensures
        (n > c / q) <==> pow10(10 * d + r) <= pow(n, 10),
{
    lemma_pow_nonneg(10, (19 - d) as nat);
    assert(q >= 1) by {
        lemma_pow_base_le(1, 10, (19 - d) as nat);
        vstd::arithmetic::power::lemma1_pow((19 - d) as nat);
    }
    lemma_fundamental_div_mod(c, q);
    let f = c / q;
    assert(c == q * f + c % q);
    assert(0 <= c % q < q);
    assert(0 <= f) by (nonlinear_arith)
        requires
            c == q * f + c % q,
            0 <= c,
            0 <= c % q < q,
            1 <= q,
    {}
    // pow(q, 10) == 10^(190 - 10d), and 10^(10d+r) * pow(q, 10) == 10^(190+r)
    lemma_pow_multiplies(10, (19 - d) as nat, 10);
    assert(pow(q, 10) == pow10((190 - 10 * d) as nat));
    lemma_pow_adds(10, 10 * d + r, (190 - 10 * d) as nat);
    assert(pow10(10 * d + r) * pow(q, 10) == pow10(190 + r));
    lemma_pow_nonneg(10, (190 - 10 * d) as nat);
    assert(pow(q, 10) >= 1) by {
        lemma_pow_base_le(1, 10, (190 - 10 * d) as nat);
        vstd::arithmetic::power::lemma1_pow((190 - 10 * d) as nat);
    }

    if n > f {
        // n * q >= c + 1, so n^10 * q^10 >= (c+1)^10 > 10^(190+r)
        assert(n * q >= c + 1) by (nonlinear_arith)
            requires
                n >= f + 1,
                c == q * f + c % q,
                0 <= c % q < q,
                1 <= q,
        {}
        lemma_pow_base_le(c + 1, n * q, 10);
        vstd::arithmetic::power::lemma_pow_distributes(n, q, 10);
        assert(pow(n, 10) * pow(q, 10) > pow10(10 * d + r) * pow(q, 10));
        assert(pow(n, 10) > pow10(10 * d + r)) by (nonlinear_arith)
            requires
                pow(n, 10) * pow(q, 10) > pow10(10 * d + r) * pow(q, 10),
                pow(q, 10) >= 1,
        {}
    } else {
        // n * q <= q * f <= c, so n^10 * q^10 <= c^10 < 10^(190+r)
        assert(n * q <= c) by (nonlinear_arith)
            requires
                n <= f,
                c == q * f + c % q,
                0 <= c % q,
                1 <= q,
        {}
        lemma_pow_nonneg(n, 10);
        assert(0 <= n * q) by (nonlinear_arith)
            requires
                1 <= n,
                1 <= q,
        {}
        lemma_pow_base_le(n * q, c, 10);
        vstd::arithmetic::power::lemma_pow_distributes(n, q, 10);
        assert(pow(n, 10) * pow(q, 10) < pow10(10 * d + r) * pow(q, 10));
        assert(pow(n, 10) < pow10(10 * d + r)) by (nonlinear_arith)
            requires
                pow(n, 10) * pow(q, 10) < pow10(10 * d + r) * pow(q, 10),
                pow(q, 10) >= 1,
        {}
    }
}

/// The nine step constants `C_r = floor(10^19 * 10^(r/10))`, pinned down by
/// `C_r^10 < 10^(190+r) < (C_r + 1)^10`.
proof fn lemma_step_constants()
    ensures
        pow(12589254117941672104, 10) < pow10(191) < pow(12589254117941672105, 10),
        pow(15848931924611134852, 10) < pow10(192) < pow(15848931924611134853, 10),
        pow(19952623149688796013, 10) < pow10(193) < pow(19952623149688796014, 10),
        pow(25118864315095801110, 10) < pow10(194) < pow(25118864315095801111, 10),
        pow(31622776601683793319, 10) < pow10(195) < pow(31622776601683793320, 10),
        pow(39810717055349725077, 10) < pow10(196) < pow(39810717055349725078, 10),
        pow(50118723362727228500, 10) < pow10(197) < pow(50118723362727228501, 10),
        pow(63095734448019324943, 10) < pow10(198) < pow(63095734448019324944, 10),
        pow(79432823472428150206, 10) < pow10(199) < pow(79432823472428150207, 10),
{
    assert(pow(10, 19) == 10000000000000000000) by {
        reveal_with_fuel(pow, 20);
    }
    lemma_pow_multiplies(10, 19, 10);
    assert(pow(10000000000000000000, 10) == pow(10, 190));
    assert(pow(10, 1) == 10 && pow(10, 2) == 100 && pow(10, 3) == 1000 && pow(10, 4) == 10000
        && pow(10, 5) == 100000 && pow(10, 6) == 1000000 && pow(10, 7) == 10000000 && pow(10, 8)
        == 100000000 && pow(10, 9) == 1000000000) by {
        reveal_with_fuel(pow, 10);
    }
    lemma_pow_adds(10, 190, 1);
    lemma_pow_adds(10, 190, 2);
    lemma_pow_adds(10, 190, 3);
    lemma_pow_adds(10, 190, 4);
    lemma_pow_adds(10, 190, 5);
    lemma_pow_adds(10, 190, 6);
    lemma_pow_adds(10, 190, 7);
    lemma_pow_adds(10, 190, 8);
    lemma_pow_adds(10, 190, 9);
    assert(pow(12589254117941672104, 10) < pow(10000000000000000000, 10) * 10
        && pow(10000000000000000000, 10) * 10 < pow(12589254117941672105, 10)) by {
        reveal_with_fuel(pow, 11);
    }
    assert(pow(15848931924611134852, 10) < pow(10000000000000000000, 10) * 100
        && pow(10000000000000000000, 10) * 100 < pow(15848931924611134853, 10)) by {
        reveal_with_fuel(pow, 11);
    }
    assert(pow(19952623149688796013, 10) < pow(10000000000000000000, 10) * 1000
        && pow(10000000000000000000, 10) * 1000 < pow(19952623149688796014, 10)) by {
        reveal_with_fuel(pow, 11);
    }
    assert(pow(25118864315095801110, 10) < pow(10000000000000000000, 10) * 10000
        && pow(10000000000000000000, 10) * 10000 < pow(25118864315095801111, 10)) by {
        reveal_with_fuel(pow, 11);
    }
    assert(pow(31622776601683793319, 10) < pow(10000000000000000000, 10) * 100000
        && pow(10000000000000000000, 10) * 100000 < pow(31622776601683793320, 10)) by {
        reveal_with_fuel(pow, 11);
    }
    assert(pow(39810717055349725077, 10) < pow(10000000000000000000, 10) * 1000000
        && pow(10000000000000000000, 10) * 1000000 < pow(39810717055349725078, 10)) by {
        reveal_with_fuel(pow, 11);
    }
    assert(pow(50118723362727228500, 10) < pow(10000000000000000000, 10) * 10000000
        && pow(10000000000000000000, 10) * 10000000 < pow(50118723362727228501, 10)) by {
        reveal_with_fuel(pow, 11);
    }
    assert(pow(63095734448019324943, 10) < pow(10000000000000000000, 10) * 100000000
        && pow(10000000000000000000, 10) * 100000000 < pow(63095734448019324944, 10)) by {
        reveal_with_fuel(pow, 11);
    }
    assert(pow(79432823472428150206, 10) < pow(10000000000000000000, 10) * 1000000000
        && pow(10000000000000000000, 10) * 1000000000 < pow(79432823472428150207, 10)) by {
        reveal_with_fuel(pow, 11);
    }
}

/// Number of random placement attempts per row: `floor(10 * log10(n))`,
/// stated exactly as the `r` with `10^r <= n^10 < 10^(r+1)`.
pub fn trials(n: usize) -> (r: usize)
    requires
        1 <= n,
    ensures
        pow10(r as nat) <= pow(n as int, 10),
        pow(n as int, 10) < pow10((r + 1) as nat),
        r <= 192,
{
    let nw: u128 = n as u128;
    let mut d: usize = 0;
    let mut p: u128 = 1;
    proof {
        lemma_pow0(10);
    }
    while p * 10 <= nw
        invariant
            nw == n as u128,
            1 <= n,
            1 <= p,
            p as int == pow10(d as nat),
            p as int <= n as int,
            d <= 19,
        decreases n as int - p as int,
    {
        proof {
            assert(pow10(20) == 100000000000000000000) by {
                reveal_with_fuel(pow, 21);
            }
            assert(pow10(d as nat + 1) == 10 * pow10(d as nat)) by {
                lemma_pow_adds(10, d as nat, 1);
                assert(pow10(1) == 10) by {
                    reveal_with_fuel(pow, 2);
                }
            }
            if d + 1 >= 20 {
                lemma_pow_increases(10, 20, (d + 1) as nat);
                assert(false);
            }
        }
        p = p * 10;
        d = d + 1;
    }
    proof {
        assert(pow10(d as nat + 1) == 10 * pow10(d as nat)) by {
            lemma_pow_adds(10, d as nat, 1);
            assert(pow10(1) == 10) by {
                reveal_with_fuel(pow, 2);
            }
        }
    }
    // now pow10(d) <= n < pow10(d + 1) and d <= 19
    let mut q: u128 = 1;
    let mut e: usize = 0;
    proof {
        lemma_pow0(10);
    }
    while e < 19 - d
        invariant
            d <= 19,
            e <= 19 - d,
            1 <= q,
            q as int == pow10(e as nat),
        decreases 19 - d - e,
    {
        proof {
            assert(pow10(e as nat + 1) == 10 * pow10(e as nat)) by {
                lemma_pow_adds(10, e as nat, 1);
                assert(pow10(1) == 10) by {
                    reveal_with_fuel(pow, 2);
                }
            }
            lemma_pow_increases(10, (e + 1) as nat, 19);
            assert(pow10(19) == 10000000000000000000) by {
                reveal_with_fuel(pow, 20);
            }
        }
        q = q * 10;
        e = e + 1;
    }
    // q == pow10(19 - d)
    let c1: u128 = 12589254117941672104;
    let c2: u128 = 15848931924611134852;
    let c3: u128 = 19952623149688796013;
    let c4: u128 = 25118864315095801110;
    let c5: u128 = 31622776601683793319;
    let c6: u128 = 39810717055349725077;
    let c7: u128 = 50118723362727228500;
    let c8: u128 = 63095734448019324943;
    let c9: u128 = 79432823472428150206;
    let s: usize = if nw > c9 / q {
        9
    } else if nw > c8 / q {
        8
    } else if nw > c7 / q {
        7
    } else if nw > c6 / q {
        6
    } else if nw > c5 / q {
        5
    } else if nw > c4 / q {
        4
    } else if nw > c3 / q {
        3
    } else if nw > c2 / q {
        2
    } else if nw > c1 / q {
        1
    } else {
        0
    };
    proof {
        lemma_step_constants();
        lemma_threshold(n as int, d as nat, q as int, c1 as int, 1);
        lemma_threshold(n as int, d as nat, q as int, c2 as int, 2);
        lemma_threshold(n as int, d as nat, q as int, c3 as int, 3);
        lemma_threshold(n as int, d as nat, q as int, c4 as int, 4);
        lemma_threshold(n as int, d as nat, q as int, c5 as int, 5);
        lemma_threshold(n as int, d as nat, q as int, c6 as int, 6);
        lemma_threshold(n as int, d as nat, q as int, c7 as int, 7);
        lemma_threshold(n as int, d as nat, q as int, c8 as int, 8);
        lemma_threshold(n as int, d as nat, q as int, c9 as int, 9);
        // lower bound for s == 0, upper bound for s == 9
        lemma_pow_multiplies(10, d as nat, 10);
        lemma_pow_multiplies(10, (d + 1) as nat, 10);
        lemma_pow_base_le(pow10(d as nat), n as int, 10);
        lemma_pow_base_lt(n as int, pow10((d + 1) as nat), 10);
        assert(pow10(10 * (d as nat)) <= pow(n as int, 10));
        assert(pow(n as int, 10) < pow10(10 * (d as nat) + 10));
    }
    10 * d + s
}

} // verus!
