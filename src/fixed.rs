//! Fixed-point scaling: powers of ten, precision checks and rounding.
use vstd::prelude::*;

use crate::error::PriceError;

verus! {

/// The number of decimal places that every raw value is scaled to.
pub const FIXED_PRECISION: u8 = 9;

/// `10^FIXED_PRECISION`, the factor between a value and its raw form.
pub const FIXED_SCALAR: i64 = 1_000_000_000;

/// `10^n`.
pub open spec fn pow10(n: nat) -> nat
    decreases n,
{
    if n == 0 {
        1
    } else {
        10 * pow10((n - 1) as nat)
    }
}

pub proof fn lemma_pow10_positive(n: nat)
    ensures
        pow10(n) >= 1,
    decreases n,
{
    if n > 0 {
        lemma_pow10_positive((n - 1) as nat);
    }
}

pub proof fn lemma_pow10_monotone(a: nat, b: nat)
    requires
        a <= b,
    ensures
        pow10(a) <= pow10(b),
    decreases b,
{
    if a < b {
        lemma_pow10_monotone(a, (b - 1) as nat);
        lemma_pow10_positive((b - 1) as nat);
    }
}

pub proof fn lemma_pow10_add(a: nat, b: nat)
    ensures
        pow10(a + b) == pow10(a) * pow10(b),
    decreases b,
{
    if b > 0 {
        lemma_pow10_add(a, (b - 1) as nat);
        let x = pow10(a);
        let y = pow10((b - 1) as nat);
        assert(pow10(a + b) == 10 * pow10((a + b - 1) as nat));
        assert(pow10(b) == 10 * y);
        assert(x * (10 * y) == 10 * (x * y)) by (nonlinear_arith);
        assert((a + b - 1) as nat == a + (b - 1) as nat);
    } else {
        assert(a + b == a);
        assert(pow10(b) == 1);
    }
}

pub proof fn lemma_pow10_38()
    ensures
        pow10(38) == 100_000_000_000_000_000_000_000_000_000_000_000_000,
{
    reveal_with_fuel(pow10, 39);
}

/// `10^n` as an `i128`.
pub fn pow10_i128(n: u32) -> (r: i128)
    requires
        n <= 38,
    ensures
        r == pow10(n as nat),
{
    let mut r: i128 = 1;
    let mut i: u32 = 0;
    while i < n
        invariant
            i <= n <= 38,
            r == pow10(i as nat),
        decreases n - i,
    {
        proof {
            lemma_pow10_monotone((i + 1) as nat, 38);
            lemma_pow10_38();
        }
        r = r * 10;
        i = i + 1;
    }
    r
}

/// `10^n` as an `i64`.
pub fn pow10_i64(n: u32) -> (r: i64)
    requires
        n <= 18,
    ensures
        r == pow10(n as nat),
{
    proof {
        lemma_pow10_monotone(n as nat, 18);
        reveal_with_fuel(pow10, 19);
    }
    pow10_i128(n) as i64
}

/// Whether `precision` is one that a price may carry.
pub open spec fn valid_precision(precision: int) -> bool {
    0 <= precision <= FIXED_PRECISION
}

/// Checks that `precision` does not exceed `FIXED_PRECISION`.
pub fn check_fixed_precision(precision: u8) -> (r: Result<(), PriceError>)
    ensures
        r is Ok <==> valid_precision(precision as int),
        r is Err ==> r == Err::<(), PriceError>(PriceError::PrecisionViolation),
{
    if precision > FIXED_PRECISION {
        Err(PriceError::PrecisionViolation)
    } else {
        Ok(())
    }
}

/// `n / d` rounded to the nearest integer, for `n >= 0`, halves rounded up.
pub open spec fn round_div_nat(n: int, d: int) -> int {
    n / d + if 2 * (n % d) >= d {
        1int
    } else {
        0int
    }
}

/// `n / d` rounded to the nearest integer, halves away from zero.
pub open spec fn round_div(n: int, d: int) -> int {
    if n >= 0 {
        round_div_nat(n, d)
    } else {
        -round_div_nat(-n, d)
    }
}

} // verus!
