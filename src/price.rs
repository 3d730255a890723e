//! The price value type: a raw integer scaled by `FIXED_SCALAR` and a precision tag.
use vstd::arithmetic::div_mod::{lemma_fundamental_div_mod, lemma_small_mod};
use vstd::prelude::*;

use crate::error::PriceError;
use crate::outside::{
    decimal_from_i128_with_scale, decimal_from_parts, separate_with_underscores,
    underscore_separated,
};
use rust_decimal::Decimal;
use crate::text::{
    accumulate_digits, all_digits, capped, is_digit, join_ranges, lemma_trim_trailing_zeros,
    mantissa_digits, trimmed_len, digits_end_exec, digits_value, exp_digits, exp_end,
    exp_negative, exp_sign_len, exp_start, frac_digits, frac_end, frac_start, has_exponent,
    int_digits, int_end, is_number_text, lemma_digits_value_bound,
    nat_text, number_mantissa, number_precision, number_shift, padded_text, push_nat,
    push_padded, sign_len, strip_underscores, strip_underscores_exec, text_sign, within_limits,
};
use crate::fixed::{
    check_fixed_precision, lemma_pow10_38, lemma_pow10_add, lemma_pow10_monotone,
    lemma_pow10_positive, pow10, pow10_i128, pow10_i64, round_div, round_div_nat,
    valid_precision, FIXED_PRECISION,
};

verus! {

/// The largest whole value that a price may hold.
pub const PRICE_MAX: i64 = 9_223_372_036;

/// The smallest whole value that a price may hold.
pub const PRICE_MIN: i64 = -9_223_372_036;

/// The largest raw value of a valid price: `PRICE_MAX * FIXED_SCALAR`.
pub const PRICE_RAW_MAX: i64 = 9_223_372_036_000_000_000;

/// The smallest raw value of a valid price: `PRICE_MIN * FIXED_SCALAR`.
pub const PRICE_RAW_MIN: i64 = -9_223_372_036_000_000_000;

/// The raw pattern reserved for an unset price.
pub const PRICE_UNDEF: i64 = i64::MAX;

/// The raw pattern reserved for an erroneous price.
pub const PRICE_ERROR: i64 = i64::MIN;

/// A price: `raw` is the value times `10^FIXED_PRECISION`, and `precision` is the
/// number of decimal places the price is shown and combined with.
///
/// Two prices are equal, and are ordered, by `raw` alone.
#[derive(Clone, Copy, Debug)]
pub struct Price {
    /// The value scaled by `FIXED_SCALAR`.
    pub raw: i64,
    /// The number of decimal places, at most `FIXED_PRECISION`.
    pub precision: u8,
}

/// Whether the decimal `m / 10^s` lies within `[PRICE_MIN, PRICE_MAX]`.
pub open spec fn value_in_range(m: int, s: nat) -> bool {
    PRICE_MIN * pow10(s) <= m <= PRICE_MAX * pow10(s)
}

/// The decimal `m / 10^s` in units of `10^-p`, rounded half away from zero.
pub open spec fn scaled_units(m: int, s: nat, p: nat) -> int {
    if p >= s {
        m * pow10((p - s) as nat)
    } else {
        round_div(m, pow10((s - p) as nat) as int)
    }
}

/// The raw value of the decimal `m / 10^s` taken at precision `p`.
pub open spec fn scaled_raw(m: int, s: nat, p: nat) -> int {
    scaled_units(m, s, p) * pow10((FIXED_PRECISION - p) as nat)
}

/// What building a price of precision `p` from the decimal `m / 10^s` gives:
/// the range is checked first, then the precision.
pub open spec fn constructs(m: int, s: nat, p: nat, r: Result<Price, PriceError>) -> bool {
    if !value_in_range(m, s) {
        r == Err::<Price, PriceError>(PriceError::RangeViolation)
    } else if !valid_precision(p as int) {
        r == Err::<Price, PriceError>(PriceError::PrecisionViolation)
    } else {
        r is Ok && r->Ok_0.raw == scaled_raw(m, s, p) && r->Ok_0.precision == p
    }
}

proof fn lemma_units_bound_exact(m: int, s: nat, p: nat)
    requires
        value_in_range(m, s),
        p >= s,
    ensures
        PRICE_MIN * pow10(p) <= scaled_units(m, s, p) <= PRICE_MAX * pow10(p),
{
    let k = (p - s) as nat;
    lemma_pow10_add(s, k);
    assert(s + k == p);
    let a = pow10(s);
    let b = pow10(k);
    lemma_pow10_positive(k);
    assert(PRICE_MIN * a * b <= m * b <= PRICE_MAX * a * b) by (nonlinear_arith)
        requires
            PRICE_MIN * a <= m <= PRICE_MAX * a,
            b >= 1,
    ;
    assert(PRICE_MIN * a * b == PRICE_MIN * (a * b)) by (nonlinear_arith);
    assert(PRICE_MAX * a * b == PRICE_MAX * (a * b)) by (nonlinear_arith);
}

proof fn lemma_round_nat_bound(a: int, d: int, bound: int)
    requires
        0 <= a <= bound * d,
        d > 0,
        bound >= 0,
    ensures
        0 <= round_div_nat(a, d) <= bound,
{
    lemma_fundamental_div_mod(a, d);
    let q = a / d;
    let r = a % d;
    assert(0 <= r < d);
    assert(q >= 0) by (nonlinear_arith)
        requires
            a == d * q + r,
            0 <= r < d,
            a >= 0,
    ;
    assert(q <= bound && (q == bound ==> r == 0)) by (nonlinear_arith)
        requires
            a == d * q + r,
            0 <= r < d,
            a <= bound * d,
    ;
}

proof fn lemma_units_bound_rounded(m: int, s: nat, p: nat)
    requires
        value_in_range(m, s),
        p < s,
    ensures
        PRICE_MIN * pow10(p) <= scaled_units(m, s, p) <= PRICE_MAX * pow10(p),
{
    let k = (s - p) as nat;
    lemma_pow10_add(p, k);
    assert(p + k == s);
    let d = pow10(k) as int;
    let bound = PRICE_MAX * pow10(p);
    lemma_pow10_positive(k);
    lemma_pow10_positive(p);
    assert(PRICE_MAX * pow10(s) == bound * d) by (nonlinear_arith)
        requires
            pow10(s) == pow10(p) * pow10(k),
            d == pow10(k),
            bound == PRICE_MAX * pow10(p),
    ;
    if m >= 0 {
        lemma_round_nat_bound(m, d, bound);
    } else {
        lemma_round_nat_bound(-m, d, bound);
    }
}

/// The raw value of every price that a constructor accepts fits `i64`, with the
/// sentinels to spare.
pub proof fn lemma_scaled_raw_bound(m: int, s: nat, p: nat)
    requires
        value_in_range(m, s),
        valid_precision(p as int),
    ensures
        PRICE_RAW_MIN <= scaled_raw(m, s, p) <= PRICE_RAW_MAX,
{
    if p >= s {
        lemma_units_bound_exact(m, s, p);
    } else {
        lemma_units_bound_rounded(m, s, p);
    }
    let u = scaled_units(m, s, p);
    let e = (FIXED_PRECISION - p) as nat;
    lemma_pow10_add(p, e);
    assert(p + e == 9);
    reveal_with_fuel(pow10, 10);
    let x = pow10(p);
    let y = pow10(e);
    lemma_pow10_positive(e);
    assert(PRICE_MIN * x * y <= u * y <= PRICE_MAX * x * y) by (nonlinear_arith)
        requires
            PRICE_MIN * x <= u <= PRICE_MAX * x,
            y >= 1,
    ;
    assert(PRICE_MIN * x * y == PRICE_MIN * (x * y)) by (nonlinear_arith);
    assert(PRICE_MAX * x * y == PRICE_MAX * (x * y)) by (nonlinear_arith);
}

/// Whether the decimal `m / 10^s` lies within `[PRICE_MIN, PRICE_MAX]`.
fn decimal_in_range(m: i128, s: u32) -> (r: bool)
    ensures
        r == value_in_range(m as int, s as nat),
{
    if s <= 28 {
        proof {
            lemma_pow10_monotone(s as nat, 28);
            reveal_with_fuel(pow10, 29);
        }
        let b = pow10_i128(s);
        proof {
            assert(pow10(28) == 10_000_000_000_000_000_000_000_000_000);
            assert(PRICE_MAX * b <= PRICE_MAX * 10_000_000_000_000_000_000_000_000_000)
                by (nonlinear_arith)
                requires
                    0 <= b <= 10_000_000_000_000_000_000_000_000_000,
            ;
            assert(PRICE_MIN * b >= PRICE_MIN * 10_000_000_000_000_000_000_000_000_000)
                by (nonlinear_arith)
                requires
                    0 <= b <= 10_000_000_000_000_000_000_000_000_000,
            ;
        }
        let hi = (PRICE_MAX as i128) * b;
        let lo = (PRICE_MIN as i128) * b;
        lo <= m && m <= hi
    } else {
        proof {
            lemma_pow10_monotone(29, s as nat);
            reveal_with_fuel(pow10, 30);
            let t = pow10(s as nat);
            assert(PRICE_MIN * t <= m <= PRICE_MAX * t) by (nonlinear_arith)
                requires
                    t >= 100_000_000_000_000_000_000_000_000_000,
                    -170141183460469231731687303715884105728 <= m
                        <= 170141183460469231731687303715884105727,
            ;
        }
        true
    }
}

/// `round_div_nat(a, 10^k)`, for a magnitude `a`.
fn round_magnitude(a: u128, k: u32) -> (r: u128)
    requires
        k > 0,
    ensures
        r == round_div_nat(a as int, pow10(k as nat) as int),
{
    if k > 38 {
        proof {
            lemma_pow10_monotone(39, k as nat);
            reveal_with_fuel(pow10, 40);
            let d = pow10(k as nat);
            lemma_small_mod(a as nat, d);
            lemma_fundamental_div_mod(a as int, d as int);
            assert(a as int / d as int == 0) by (nonlinear_arith)
                requires
                    a == d * (a as int / d as int) + a,
                    d > 0,
            ;
        }
        0
    } else {
        proof {
            lemma_pow10_monotone(k as nat, 38);
            lemma_pow10_38();
            lemma_pow10_positive(k as nat);
        }
        let d = pow10_i128(k) as u128;
        let q = a / d;
        let rem = a % d;
        if rem >= d - rem {
            proof {
                lemma_fundamental_div_mod(a as int, d as int);
                assert(q < a || a == 0 || d == 1) by (nonlinear_arith)
                    requires
                        a == d * q + rem,
                        0 <= rem < d,
                        d >= 1,
                ;
            }
            q + 1
        } else {
            q
        }
    }
}

/// `scaled_units(m, s, p)`, for a decimal within range and a valid precision.
fn units_at_precision(m: i128, s: u32, p: u8) -> (r: i128)
    requires
        value_in_range(m as int, s as nat),
        valid_precision(p as int),
    ensures
        r == scaled_units(m as int, s as nat, p as nat),
        PRICE_MIN * pow10(p as nat) <= r <= PRICE_MAX * pow10(p as nat),
{
    proof {
        reveal_with_fuel(pow10, 10);
        lemma_pow10_monotone(p as nat, 9);
    }
    if p as u32 >= s {
        proof {
            lemma_units_bound_exact(m as int, s as nat, p as nat);
        }
        let f = pow10_i128(p as u32 - s);
        m * f
    } else {
        proof {
            lemma_units_bound_rounded(m as int, s as nat, p as nat);
        }
        let k = s - p as u32;
        let a: u128 = if m >= 0 {
            m as u128
        } else {
            ((-(m + 1)) as u128) + 1
        };
        let mag = round_magnitude(a, k);
        if m >= 0 {
            mag as i128
        } else {
            -(mag as i128)
        }
    }
}

impl Price {
    /// Whether `precision` is within bounds.
    pub open spec fn wf(&self) -> bool {
        valid_precision(self.precision as int)
    }

    /// Builds a price of `precision` decimal places from the decimal
    /// `mantissa / 10^scale`, rounding half away from zero to that precision.
    ///
    /// Fails with `RangeViolation` when the value is outside
    /// `[PRICE_MIN, PRICE_MAX]`, and otherwise with `PrecisionViolation` when
    /// `precision` exceeds `FIXED_PRECISION`.
    pub fn new_checked(mantissa: i128, scale: u32, precision: u8) -> (r: Result<Price, PriceError>)
        ensures
            constructs(mantissa as int, scale as nat, precision as nat, r),
    {
        if !decimal_in_range(mantissa, scale) {
            return Err(PriceError::RangeViolation);
        }
        if check_fixed_precision(precision).is_err() {
            return Err(PriceError::PrecisionViolation);
        }
        proof {
            lemma_scaled_raw_bound(mantissa as int, scale as nat, precision as nat);
        }
        let units = units_at_precision(mantissa, scale, precision);
        proof {
            lemma_pow10_monotone(precision as nat, 9);
            reveal_with_fuel(pow10, 10);
            let x = pow10(precision as nat);
            assert(PRICE_MIN * 1_000_000_000 <= PRICE_MIN * x) by (nonlinear_arith)
                requires
                    x <= 1_000_000_000,
            ;
            assert(PRICE_MAX * x <= PRICE_MAX * 1_000_000_000) by (nonlinear_arith)
                requires
                    x <= 1_000_000_000,
            ;
        }
        let e = pow10_i64((FIXED_PRECISION - precision) as u32);
        assert(units * e == scaled_raw(mantissa as int, scale as nat, precision as nat));
        let raw = (units as i64) * e;
        Ok(Price { raw, precision })
    }

    /// Builds a price as `new_checked` does, for inputs that it accepts.
    pub fn new(mantissa: i128, scale: u32, precision: u8) -> (r: Price)
        requires
            value_in_range(mantissa as int, scale as nat),
            valid_precision(precision as int),
        ensures
            r.raw == scaled_raw(mantissa as int, scale as nat, precision as nat),
            r.precision == precision,
    {
        match Price::new_checked(mantissa, scale, precision) {
            Ok(p) => p,
            Err(_) => {
                proof {
                    assert(false);
                }
                Price { raw: 0, precision }
            },
        }
    }
}

/// What combining a raw result with precision `p` gives: the price when the raw
/// value fits `i64`, else `Overflow`.
pub open spec fn fitted(raw: int, p: u8) -> Result<Price, PriceError> {
    if i64::MIN <= raw <= i64::MAX {
        Ok(Price { raw: raw as i64, precision: p })
    } else {
        Err(PriceError::Overflow)
    }
}

/// The checked sum of two prices: a finer right operand is refused, the raw
/// values are added, and the left operand's precision is kept.
pub open spec fn sum_of(a: Price, b: Price) -> Result<Price, PriceError> {
    if a.precision < b.precision {
        Err(PriceError::PrecisionMismatch)
    } else {
        fitted(a.raw + b.raw, a.precision)
    }
}

/// The checked difference of two prices, on the terms of `sum_of`.
pub open spec fn difference_of(a: Price, b: Price) -> Result<Price, PriceError> {
    if a.precision < b.precision {
        Err(PriceError::PrecisionMismatch)
    } else {
        fitted(a.raw - b.raw, a.precision)
    }
}

impl Price {
    /// Builds a price from a raw value that is already scaled, checking only the
    /// precision; this is how the sentinels are built.
    pub fn from_raw(raw: i64, precision: u8) -> (r: Price)
        requires
            valid_precision(precision as int),
        ensures
            r.raw == raw,
            r.precision == precision,
    {
        Price { raw, precision }
    }

    /// A zero price of the given precision.
    pub fn zero(precision: u8) -> (r: Price)
        requires
            valid_precision(precision as int),
        ensures
            r.raw == 0,
            r.precision == precision,
    {
        Price { raw: 0, precision }
    }

    /// The largest valid price, at the given precision.
    pub fn max(precision: u8) -> (r: Price)
        requires
            valid_precision(precision as int),
        ensures
            r.raw == PRICE_RAW_MAX,
            r.precision == precision,
    {
        Price { raw: PRICE_RAW_MAX, precision }
    }

    /// The smallest valid price, at the given precision.
    pub fn min(precision: u8) -> (r: Price)
        requires
            valid_precision(precision as int),
        ensures
            r.raw == PRICE_RAW_MIN,
            r.precision == precision,
    {
        Price { raw: PRICE_RAW_MIN, precision }
    }

    /// Whether the price holds the unset sentinel.
    pub fn is_undefined(&self) -> (r: bool)
        ensures
            r == (self.raw == PRICE_UNDEF),
    {
        self.raw == PRICE_UNDEF
    }

    /// Whether the price is zero.
    pub fn is_zero(&self) -> (r: bool)
        ensures
            r == (self.raw == 0),
    {
        self.raw == 0
    }

    /// The sum of two prices, at the precision of `self`.
    ///
    /// Fails with `PrecisionMismatch` when `rhs` is finer than `self`, and with
    /// `Overflow` when the raw sum does not fit `i64`.
    pub fn checked_add(self, rhs: Price) -> (r: Result<Price, PriceError>)
        ensures
            r == sum_of(self, rhs),
    {
        if self.precision < rhs.precision {
            return Err(PriceError::PrecisionMismatch);
        }
        match self.raw.checked_add(rhs.raw) {
            Some(raw) => Ok(Price { raw, precision: self.precision }),
            None => Err(PriceError::Overflow),
        }
    }

    /// The difference of two prices, at the precision of `self`.
    ///
    /// Fails with `PrecisionMismatch` when `rhs` is finer than `self`, and with
    /// `Overflow` when the raw difference does not fit `i64`.
    pub fn checked_sub(self, rhs: Price) -> (r: Result<Price, PriceError>)
        ensures
            r == difference_of(self, rhs),
    {
        if self.precision < rhs.precision {
            return Err(PriceError::PrecisionMismatch);
        }
        match self.raw.checked_sub(rhs.raw) {
            Some(raw) => Ok(Price { raw, precision: self.precision }),
            None => Err(PriceError::Overflow),
        }
    }

    /// The sum of two prices, at the precision of `self`, where `rhs` is no
    /// finer than `self` and the sum fits.
    pub fn add(self, rhs: Price) -> (r: Price)
        requires
            self.precision >= rhs.precision,
            i64::MIN <= self.raw + rhs.raw <= i64::MAX,
        ensures
            r.raw == self.raw + rhs.raw,
            r.precision == self.precision,
    {
        Price { raw: self.raw + rhs.raw, precision: self.precision }
    }

    /// The difference of two prices, at the precision of `self`, where `rhs` is
    /// no finer than `self` and the difference fits.
    pub fn sub(self, rhs: Price) -> (r: Price)
        requires
            self.precision >= rhs.precision,
            i64::MIN <= self.raw - rhs.raw <= i64::MAX,
        ensures
            r.raw == self.raw - rhs.raw,
            r.precision == self.precision,
    {
        Price { raw: self.raw - rhs.raw, precision: self.precision }
    }

    /// Adds `other` to this price in place, under the conditions of `add`.
    pub fn add_assign(&mut self, other: Price)
        requires
            old(self).precision >= other.precision,
            i64::MIN <= old(self).raw + other.raw <= i64::MAX,
        ensures
            final(self).raw == old(self).raw + other.raw,
            final(self).precision == old(self).precision,
    {
        self.raw = self.raw + other.raw;
    }

    /// Subtracts `other` from this price in place, under the conditions of `sub`.
    pub fn sub_assign(&mut self, other: Price)
        requires
            old(self).precision >= other.precision,
            i64::MIN <= old(self).raw - other.raw <= i64::MAX,
        ensures
            final(self).raw == old(self).raw - other.raw,
            final(self).precision == old(self).precision,
    {
        self.raw = self.raw - other.raw;
    }

    /// The price with its sign flipped, at the same precision.
    pub fn neg(self) -> (r: Price)
        requires
            self.raw != PRICE_ERROR,
        ensures
            r.raw == -self.raw,
            r.precision == self.precision,
    {
        Price { raw: -self.raw, precision: self.precision }
    }
}

impl PartialEq for Price {
    fn eq(&self, other: &Price) -> (r: bool)
        ensures
            r == (self.raw == other.raw),
    {
        self.raw == other.raw
    }
}

impl vstd::std_specs::cmp::PartialEqSpecImpl for Price {
    open spec fn obeys_eq_spec() -> bool {
        true
    }

    open spec fn eq_spec(&self, other: &Price) -> bool {
        self.raw == other.raw
    }
}

impl Eq for Price {

}

impl PartialOrd for Price {
    fn partial_cmp(&self, other: &Price) -> (r: Option<core::cmp::Ordering>)
        ensures
            r == Some(raw_ordering(self.raw, other.raw)),
    {
        if self.raw < other.raw {
            Some(core::cmp::Ordering::Less)
        } else if self.raw > other.raw {
            Some(core::cmp::Ordering::Greater)
        } else {
            Some(core::cmp::Ordering::Equal)
        }
    }
}

/// How two raw values compare.
pub open spec fn raw_ordering(a: i64, b: i64) -> core::cmp::Ordering {
    if a < b {
        core::cmp::Ordering::Less
    } else if a > b {
        core::cmp::Ordering::Greater
    } else {
        core::cmp::Ordering::Equal
    }
}

impl vstd::std_specs::cmp::PartialOrdSpecImpl for Price {
    open spec fn obeys_partial_cmp_spec() -> bool {
        true
    }

    open spec fn partial_cmp_spec(&self, other: &Price) -> Option<core::cmp::Ordering> {
        Some(raw_ordering(self.raw, other.raw))
    }
}

impl core::hash::Hash for Price {
    fn hash<H: core::hash::Hasher>(&self, state: &mut H) {
        self.raw.hash(state);
    }
}

impl core::ops::Deref for Price {
    type Target = i64;

    fn deref(&self) -> (r: &i64)
        ensures
            *r == self.raw,
    {
        &self.raw
    }
}

impl Default for Price {
    fn default() -> (r: Price)
        ensures
            r.raw == 0,
            r.precision == 0,
    {
        Price { raw: 0, precision: 0 }
    }
}

/// A raw price taken from the 64-bit wire form; with a 64-bit raw type it is
/// already scaled by `FIXED_SCALAR`.
pub fn decode_raw_price_i64(value: i64) -> (r: i64)
    ensures
        r == value,
{
    value
}

/// Checks that a raw price is strictly positive; `_param` names the checked
/// value for the caller's own reporting.
pub fn check_positive_price(value: i64, _param: &str) -> (r: Result<(), PriceError>)
    ensures
        r is Ok <==> value > 0,
        r is Err ==> r == Err::<(), PriceError>(PriceError::NotPositive),
{
    if value > 0 {
        Ok(())
    } else {
        Err(PriceError::NotPositive)
    }
}

/// `n / d` rounded toward zero.
pub open spec fn trunc_div(n: int, d: int) -> int {
    if n >= 0 {
        n / d
    } else {
        -((-n) / d)
    }
}

/// The text of the raw value `raw` shown with `p` decimal places, rounded to
/// the nearest value at that precision with halves away from zero; a negative
/// raw value keeps its sign.
pub open spec fn price_text(raw: int, p: nat) -> Seq<char> {
    let mag = if raw < 0 {
        -raw
    } else {
        raw
    };
    let a = round_div_nat(mag, pow10((FIXED_PRECISION - p) as nat) as int);
    let sign = if raw < 0 {
        seq!['-']
    } else {
        Seq::<char>::empty()
    };
    let fraction = if p == 0 {
        Seq::<char>::empty()
    } else {
        seq!['.'] + padded_text((a % pow10(p) as int) as nat, p)
    };
    sign + nat_text((a / pow10(p) as int) as nat) + fraction
}

impl Price {
    /// The price in ordinary decimal notation with `precision` decimal places.
    pub fn to_string(&self) -> (r: String)
        requires
            self.wf(),
        ensures
            r@ == price_text(self.raw as int, self.precision as nat),
    {
        let p = self.precision;
        let raw = self.raw;
        proof {
            lemma_pow10_monotone((FIXED_PRECISION - p) as nat, 9);
            lemma_pow10_monotone(p as nat, 9);
            lemma_pow10_positive((FIXED_PRECISION - p) as nat);
            lemma_pow10_positive(p as nat);
            reveal_with_fuel(pow10, 10);
        }
        let d = pow10_i64((FIXED_PRECISION - p) as u32) as u64;
        let scale = pow10_i64(p as u32) as u64;
        let mag: u64 = if raw >= 0 {
            raw as u64
        } else {
            ((-(raw + 1)) as u64) + 1
        };
        let q0 = mag / d;
        let rem = mag % d;
        assert(q0 <= mag) by (nonlinear_arith)
            requires
                q0 == mag / d,
                d >= 1,
                mag >= 0,
        ;
        let q = if rem >= d - rem {
            q0 + 1
        } else {
            q0
        };
        let mut out = String::new();
        if raw < 0 {
            proof {
                reveal_strlit("-");
            }
            out.append("-");
        }
        push_nat(&mut out, q / scale);
        if p > 0 {
            proof {
                reveal_strlit(".");
            }
            out.append(".");
            push_padded(&mut out, q % scale, p as u32);
        }
        assert(out@ =~= price_text(raw as int, p as nat));
        out
    }
}

/// What building a price of precision `p` from `m * 10^shift` gives.
pub open spec fn constructs_shifted(m: int, shift: int, p: nat, r: Result<Price, PriceError>) -> bool {
    if shift >= 0 {
        constructs(m * pow10(shift as nat), 0, p, r)
    } else {
        constructs(m, (-shift) as nat, p, r)
    }
}

/// What parsing the number text `t` gives: the value that `t` denotes, at the
/// precision that it asks for, built as `constructs` says.
pub open spec fn parses(t: Seq<char>, r: Result<Price, PriceError>) -> bool {
    if !is_number_text(t) || !within_limits(t) {
        r == Err::<Price, PriceError>(PriceError::ParseFailure)
    } else {
        constructs_shifted(
            text_sign(t) * number_mantissa(t),
            number_shift(t),
            number_precision(t),
            r,
        )
    }
}

/// Any precision beyond `FIXED_PRECISION` builds alike.
proof fn lemma_constructs_coarse_precision(m: int, s: nat, p: nat, q: nat, r: Result<Price, PriceError>)
    requires
        p > FIXED_PRECISION,
        q > FIXED_PRECISION,
    ensures
        constructs(m, s, p, r) == constructs(m, s, q, r),
{
}

/// Parses a number text that holds no `_`.
#[verifier::rlimit(80)]
fn parse_number(t: &Vec<char>) -> (r: Result<Price, PriceError>)
    ensures
        parses(t@, r),
{
    let ghost tv = t@;
    let n = t.len();
    let neg = n > 0 && t[0] == '-';
    let sl: usize = if n > 0 && (t[0] == '-' || t[0] == '+') {
        1
    } else {
        0
    };
    assert(sl == sign_len(tv));
    let ie = digits_end_exec(t, sl);
    let point = ie < n && t[ie] == '.';
    let fs = if point {
        ie + 1
    } else {
        ie
    };
    let fe = digits_end_exec(t, fs);
    let exp = fe < n && (t[fe] == 'e' || t[fe] == 'E');
    let esl: usize = if exp && fe + 1 < n && (t[fe + 1] == '-' || t[fe + 1] == '+') {
        1
    } else {
        0
    };
    let eneg = esl == 1 && t[fe + 1] == '-';
    let es = if exp {
        fe + 1 + esl
    } else {
        fe
    };
    let ee = digits_end_exec(t, es);
    assert(ie == int_end(tv) && fs == frac_start(tv) && fe == frac_end(tv));
    assert(exp == has_exponent(tv) && esl == exp_sign_len(tv) && es == exp_start(tv));
    assert(ee == exp_end(tv) && eneg == exp_negative(tv));
    if !((ie > sl || fe > fs) && ee == n && (!exp || ee > es)) {
        return Err(PriceError::ParseFailure);
    }
    read_number(t, neg, eneg, sl, ie, fs, fe, es, ee)
}

/// Reads the values of a well-formed number text from its layout.
#[verifier::rlimit(60)]
fn read_number(
    t: &Vec<char>,
    neg: bool,
    eneg: bool,
    sl: usize,
    ie: usize,
    fs: usize,
    fe: usize,
    es: usize,
    ee: usize,
) -> (r: Result<Price, PriceError>)
    requires
        is_number_text(t@),
        sl == sign_len(t@),
        neg == (text_sign(t@) == -1),
        ie == int_end(t@),
        fs == frac_start(t@),
        fe == frac_end(t@),
        es == exp_start(t@),
        ee == exp_end(t@),
        eneg == exp_negative(t@),
        sl <= ie <= t.len(),
        fs <= fe <= t.len(),
        es <= ee <= t.len(),
        all_digits(t@.subrange(sl as int, ie as int)),
        all_digits(t@.subrange(fs as int, fe as int)),
        all_digits(t@.subrange(es as int, ee as int)),
    ensures
        parses(t@, r),
{
    let ghost tv = t@;
    let cap: u128 = 10_000_000_000_000_000_000_000_000_000_000_000_000;
    proof {
        lemma_pow10_38();
        assert(pow10(38) == 10 * pow10(37));
    }
    let ghost id = int_digits(tv);
    let ghost fd = frac_digits(tv);
    let digs = join_ranges(t, sl, ie, fs, fe);
    assert(digs@ == id + fd);
    assert(all_digits(digs@)) by {
        assert forall|x: int| 0 <= x < digs@.len() implies is_digit(#[trigger] digs@[x]) by {
            if x < id.len() {
                assert(digs@[x] == id[x]);
            } else {
                assert(digs@[x] == fd[x - id.len()]);
            }
        }
    }
    let tl = trimmed_len(&digs);
    proof {
        lemma_trim_trailing_zeros(digs@);
        assert(digs@.subrange(0, tl as int) =~= mantissa_digits(tv));
        assert(all_digits(mantissa_digits(tv))) by {
            assert forall|x: int| 0 <= x < tl implies is_digit(#[trigger] mantissa_digits(tv)[x]) by {
                assert(mantissa_digits(tv)[x] == digs@[x]);
            }
        }
        lemma_digits_value_bound(mantissa_digits(tv));
    }
    let mant = accumulate_digits(&digs, 0, tl, 0, cap, Ghost(0));
    assert(0 * pow10(tl as nat) == 0);
    assert(mant == capped(number_mantissa(tv), cap as int));
    let zeros = digs.len() - tl;
    let ev = accumulate_digits(t, es, ee, 0, 100_000, Ghost(0));
    assert(0 * pow10((ee - es) as nat) == 0);
    proof {
        lemma_digits_value_bound(exp_digits(tv));
    }
    assert(ev == capped(digits_value(exp_digits(tv)), 100_000));
    let flen = fe - fs;
    if mant >= cap || ev >= 100_000 || flen >= 100_000 {
        return Err(PriceError::ParseFailure);
    }
    let p: u128 = flen as u128;
    let pp: u8 = if p > 255 {
        255
    } else {
        p as u8
    };
    let e_signed: i128 = if eneg {
        -(ev as i128)
    } else {
        ev as i128
    };
    let shift: i128 = e_signed - flen as i128 + zeros as i128;
    assert(mant == number_mantissa(tv));
    assert(shift == number_shift(tv));
    let r = build_shifted(neg, mant, shift, pp);
    proof {
        let m = text_sign(tv) * number_mantissa(tv);
        if p > 255 {
            if shift >= 0 {
                lemma_constructs_coarse_precision(
                    m * pow10(shift as nat),
                    0,
                    p as nat,
                    pp as nat,
                    r,
                );
            } else {
                lemma_constructs_coarse_precision(m, (-shift) as nat, p as nat, pp as nat, r);
            }
        }
    }
    r
}

/// Builds a price of precision `p` from `±mant * 10^shift`.
#[verifier::rlimit(40)]
fn build_shifted(neg: bool, mant: u128, shift: i128, p: u8) -> (r: Result<Price, PriceError>)
    requires
        mant < pow10(37),
        -200_000 <= shift <= 1_000_000_000_000_000_000_000,
    ensures
        constructs_shifted(if neg { -mant } else { mant as int }, shift as int, p as nat, r),
{
    proof {
        lemma_pow10_38();
        assert(pow10(38) == 10 * pow10(37));
    }
    let sg_m: i128 = if neg {
        -(mant as i128)
    } else {
        mant as i128
    };
    if shift < 0 {
        return Price::new_checked(sg_m, (-shift) as u32, p);
    }
    if mant == 0 {
        assert(sg_m * pow10(shift as nat) == 0) by (nonlinear_arith)
            requires
                sg_m == 0,
        ;
        return Price::new_checked(0, 0, p);
    }
    let ghost pw = pow10(shift as nat);
    proof {
        lemma_pow10_positive(shift as nat);
        assert(sg_m * pw == if neg { -(mant * pw) } else { mant * pw }) by (nonlinear_arith)
            requires
                sg_m == if neg { -mant } else { mant as int },
        ;
        assert(pow10(0) == 1);
    }
    if shift > 10 || mant > PRICE_MAX as u128 {
        proof {
            if shift > 10 {
                lemma_pow10_monotone(11, shift as nat);
                reveal_with_fuel(pow10, 12);
            }
            assert(mant * pw >= mant) by (nonlinear_arith)
                requires
                    pw >= 1,
                    mant >= 1,
            ;
            assert(mant * pw >= pw) by (nonlinear_arith)
                requires
                    pw >= 1,
                    mant >= 1,
            ;
        }
        return Err(PriceError::RangeViolation);
    }
    proof {
        lemma_pow10_monotone(shift as nat, 10);
        reveal_with_fuel(pow10, 11);
        assert(mant * pw <= PRICE_MAX * 10_000_000_000) by (nonlinear_arith)
            requires
                pw <= 10_000_000_000,
                mant <= PRICE_MAX,
        ;
    }
    let m = sg_m * pow10_i128(shift as u32);
    Price::new_checked(m, 0, p)
}

impl Price {
    /// Parses a price from a number text, ignoring every `_`: an optional sign,
    /// digits with an optional `.`, and an optional exponent `e` or `E`.
    ///
    /// The precision is the number of digits after the `.`, and 0 without one. Fails with `ParseFailure` on any other text and beyond
    /// the sizes of `within_limits`, and otherwise as `new_checked` does.
    pub fn from_str(value: &str) -> (r: Result<Price, PriceError>)
        ensures
            parses(strip_underscores(value@), r),
    {
        let t = strip_underscores_exec(value);
        parse_number(&t)
    }
}

impl Price {
    /// The value in units of the price's own precision, digits past it dropped.
    pub fn units(&self) -> (r: i128)
        requires
            self.wf(),
        ensures
            r == trunc_div(self.raw as int, pow10((FIXED_PRECISION - self.precision) as nat) as int),
            -9223372036854775808 <= r <= 9223372036854775808,
    {
        proof {
            lemma_pow10_monotone((FIXED_PRECISION - self.precision) as nat, 9);
            lemma_pow10_positive((FIXED_PRECISION - self.precision) as nat);
            reveal_with_fuel(pow10, 10);
        }
        let d = pow10_i64((FIXED_PRECISION - self.precision) as u32) as u64;
        let raw = self.raw;
        let mag: u64 = if raw >= 0 {
            raw as u64
        } else {
            ((-(raw + 1)) as u64) + 1
        };
        let q = mag / d;
        assert(q <= mag) by (nonlinear_arith)
            requires
                q == mag / d,
                d >= 1,
                mag >= 0,
        ;
        if raw >= 0 {
            q as i128
        } else {
            -(q as i128)
        }
    }

    /// The exact decimal value at the price's own precision.
    pub fn as_decimal(&self) -> (r: Decimal)
        requires
            self.wf(),
        ensures
            r == decimal_from_parts(
                trunc_div(self.raw as int, pow10((FIXED_PRECISION - self.precision) as nat) as int),
                self.precision as int,
            ),
    {
        let u = self.units();
        decimal_from_i128_with_scale(u, self.precision as u32)
    }

    /// The text of `to_string` with `_` between groups of three integer digits.
    pub fn to_formatted_string(&self) -> (r: String)
        requires
            self.wf(),
        ensures
            r@ == underscore_separated(price_text(self.raw as int, self.precision as nat)),
    {
        let s = self.to_string();
        separate_with_underscores(s.as_str())
    }
}

} // verus!
