//! Scaled-integer arithmetic shared by the pipeline.
//!
//! A value in "milli" units carries thousandths (1000 = 1.0); a value in
//! "micro" units carries millionths (1_000_000 = 1.0). Ratios are computed
//! in 128-bit intermediates and clipped before narrowing, so the executable
//! code never overflows.

use vstd::prelude::*;

verus! {

/// One unit (1.0) in milli scale.
pub const MILLI: u64 = 1000;

/// One unit (1.0) in micro scale.
pub const MICRO: u64 = 1_000_000;

/// Mathematical clamp of `x` into `[lo, hi]`.
pub open spec fn spec_clamp(x: int, lo: int, hi: int) -> int {
    if x < lo {
        lo
    } else if x > hi {
        hi
    } else {
        x
    }
}

/// Clamp `x` into `[lo, hi]`.
pub fn clamp_u64(x: u64, lo: u64, hi: u64) -> (r: u64)
    requires
        lo <= hi,
    ensures
        r == spec_clamp(x as int, lo as int, hi as int),
{
    if x < lo {
        lo
    } else if x > hi {
        hi
    } else {
        x
    }
}

/// `x * y / d` rounded toward zero, as the mathematical integers have it.
pub open spec fn spec_mul_div(x: int, y: int, d: int) -> int
    recommends
        d > 0,
{
    x * y / d
}

/// `x * y / d` computed in 128 bits and clipped to `cap`, so the result
/// always fits in a `u64`.
pub fn mul_div_capped(x: u64, y: u64, d: u64, cap: u64) -> (r: u64)
    requires
        d > 0,
    ensures
        r == spec_clamp(spec_mul_div(x as int, y as int, d as int), 0, cap as int),
{
    proof {
        assert((x as int) * (y as int) <= 0xffff_ffff_ffff_ffff * 0xffff_ffff_ffff_ffff)
            by (nonlinear_arith)
            requires
                0 <= x <= 0xffff_ffff_ffff_ffff,
                0 <= y <= 0xffff_ffff_ffff_ffff,
        ;
        assert((x as int) * (y as int) >= 0) by (nonlinear_arith)
            requires
                x >= 0,
                y >= 0,
        ;
    }
    let wide: u128 = (x as u128) * (y as u128) / (d as u128);
    proof {
        assert(wide == (x as int) * (y as int) / (d as int)) by {
            assert((x as u128) * (y as u128) == (x as int) * (y as int));
        }
        assert(spec_mul_div(x as int, y as int, d as int) >= 0) by (nonlinear_arith)
            requires
                x >= 0,
                y >= 0,
                d > 0,
        ;
    }
    if wide > (cap as u128) {
        cap
    } else {
        wide as u64
    }
}

/// Powers of ten, for overflow bounds on the fixed-point power.
pub open spec fn pow10(n: nat) -> int
    decreases n,
{
    if n == 0 {
        1
    } else {
        10 * pow10((n - 1) as nat)
    }
}

/// `pow10` is positive, grows, and stays at `10^8` for exponents up to 8.
pub proof fn lemma_pow10_le_8(n: nat)
    requires
        n <= 8,
    ensures
        1 <= pow10(n) <= 100_000_000,
    decreases n,
{
    if n > 0 {
        lemma_pow10_le_8((n - 1) as nat);
        assert(pow10(n) == 10 * pow10((n - 1) as nat));
        if pow10(n) > 100_000_000 {
            assert(pow10((n - 1) as nat) > 10_000_000);
            lemma_pow10_exact((n - 1) as nat);
        }
    }
}

/// Spell out the first fourteen powers of ten.
pub proof fn lemma_pow10_exact(n: nat)
    requires
        n <= 13,
    ensures
        n == 9 ==> pow10(n) == 1_000_000_000,
        n == 10 ==> pow10(n) == 10_000_000_000,
        n == 11 ==> pow10(n) == 100_000_000_000,
        n == 12 ==> pow10(n) == 1_000_000_000_000,
        n == 13 ==> pow10(n) == 10_000_000_000_000,
        n == 0 ==> pow10(n) == 1,
        n == 1 ==> pow10(n) == 10,
        n == 2 ==> pow10(n) == 100,
        n == 3 ==> pow10(n) == 1000,
        n == 4 ==> pow10(n) == 10_000,
        n == 5 ==> pow10(n) == 100_000,
        n == 6 ==> pow10(n) == 1_000_000,
        n == 7 ==> pow10(n) == 10_000_000,
        n == 8 ==> pow10(n) == 100_000_000,
    decreases n,
{
    if n > 0 {
        lemma_pow10_exact((n - 1) as nat);
    }
}

/// Fixed-point power in milli scale: `pow_milli(x, n)` is `(x/1000)^n`,
/// scaled back to milli units, with every intermediate product floored.
pub open spec fn pow_milli(x: int, n: nat) -> int
    decreases n,
{
    if n == 0 {
        1000
    } else {
        pow_milli(x, (n - 1) as nat) * x / 1000
    }
}

/// The floored milli power stays within `1000 * 10^n` when the base is at
/// most `10.0` (10_000 milli).
pub proof fn lemma_pow_milli_bound(x: int, n: nat)
    requires
        0 <= x <= 10_000,
    ensures
        0 <= pow_milli(x, n),
        pow_milli(x, n) <= 1000 * pow10(n),
    decreases n,
{
    if n == 0 {
    } else {
        let prev = pow_milli(x, (n - 1) as nat);
        lemma_pow_milli_bound(x, (n - 1) as nat);
        let p9 = pow10((n - 1) as nat);
        assert(p9 >= 1) by {
            lemma_pow10_pos((n - 1) as nat);
        }
        assert(prev * x <= 1000 * p9 * 10_000) by (nonlinear_arith)
            requires
                0 <= x <= 10_000,
                0 <= prev <= 1000 * p9,
        ;
        assert(prev * x / 1000 <= 1000 * p9 * 10) by {
            assert(1000 * p9 * 10_000 / 1000 == 1000 * p9 * 10) by (nonlinear_arith)
                requires
                    p9 >= 1,
            ;
            vstd::arithmetic::div_mod::lemma_div_is_ordered(prev * x, 1000 * p9 * 10_000, 1000);
        }
        assert(prev * x >= 0) by (nonlinear_arith)
            requires
                prev >= 0,
                x >= 0,
        ;
        assert(prev * x / 1000 >= 0) by {
            vstd::arithmetic::div_mod::lemma_div_is_ordered(0, prev * x, 1000);
        }
        assert(1000 * p9 * 10 == 1000 * (10 * p9)) by (nonlinear_arith);
    }
}

/// `pow10` grows with the exponent.
pub proof fn lemma_pow10_mono(a: nat, b: nat)
    requires
        a <= b,
    ensures
        pow10(a) <= pow10(b),
    decreases b,
{
    if a < b {
        lemma_pow10_mono(a, (b - 1) as nat);
        lemma_pow10_pos((b - 1) as nat);
    }
}

/// `pow10` is positive.
pub proof fn lemma_pow10_pos(n: nat)
    ensures
        pow10(n) >= 1,
    decreases n,
{
    if n > 0 {
        lemma_pow10_pos((n - 1) as nat);
    }
}

/// Compute `pow_milli(x, n)` for a base of at most `10.0` in milli units.
pub fn pow_milli_exec(x: u64, n: u8) -> (r: u64)
    requires
        x <= 10_000,
        n <= 8,
    ensures
        r == pow_milli(x as int, n as nat),
        r <= 100_000_000_000,
{
    let mut r: u64 = 1000;
    let mut i: u8 = 0;
    while i < n
        invariant
            i <= n,
            n <= 8,
            x <= 10_000,
            r == pow_milli(x as int, i as nat),
        decreases n - i,
    {
        proof {
            lemma_pow_milli_bound(x as int, i as nat);
            lemma_pow10_le_8(i as nat);
        }
        proof {
            assert((r as int) * (x as int) <= 100_000_000_000 * 10_000) by (nonlinear_arith)
                requires
                    0 <= r <= 100_000_000_000,
                    0 <= x <= 10_000,
            ;
            assert((r as int) * (x as int) >= 0) by (nonlinear_arith)
                requires
                    r >= 0,
                    x >= 0,
            ;
        }
        let wide: u128 = (r as u128) * (x as u128) / 1000;
        proof {
            assert((r as u128) * (x as u128) == (r as int) * (x as int));
            lemma_pow_milli_bound(x as int, (i + 1) as nat);
            lemma_pow10_le_8((i + 1) as nat);
        }
        r = wide as u64;
        i = i + 1;
    }
    proof {
        lemma_pow_milli_bound(x as int, n as nat);
        lemma_pow10_le_8(n as nat);
    }
    r
}

} // verus!
