use vstd::prelude::*;

verus! {

/// Why a price could not be built or combined.
#[derive(Clone, Copy, Debug, PartialEq, Eq, Structural)]
pub enum PriceError {
    /// The value lies outside `[PRICE_MIN, PRICE_MAX]`.
    RangeViolation,
    /// The precision exceeds `FIXED_PRECISION`.
    PrecisionViolation,
    /// The text is not a well-formed decimal number.
    ParseFailure,
    /// The right operand has a finer precision than the left one.
    PrecisionMismatch,
    /// The raw result does not fit the raw integer type.
    Overflow,
    /// A value that must be strictly positive is not.
    NotPositive,
}

impl PriceError {
    /// A description that names the offending parameter and its bounds.
    pub fn message(&self) -> (r: String)
        ensures
            *self == PriceError::RangeViolation ==> r@ == "invalid `value`: not in range [-9223372036, 9223372036]"@,
            *self == PriceError::PrecisionViolation ==> r@ == "invalid `precision`: exceeded maximum `FIXED_PRECISION` 9"@,
            *self == PriceError::ParseFailure ==> r@ == "invalid `input`: not a decimal number"@,
            *self == PriceError::PrecisionMismatch ==> r@ == "precision mismatch: the right operand is finer than the left one (precision loss)"@,
            *self == PriceError::Overflow ==> r@ == "overflow: the raw result does not fit i64"@,
            *self == PriceError::NotPositive ==> r@ == "invalid `value`: not positive (> 0)"@,
    {
        match self {
            PriceError::RangeViolation => {
                proof {
                    reveal_strlit("invalid `value`: not in range [-9223372036, 9223372036]");
                }
                String::from_str("invalid `value`: not in range [-9223372036, 9223372036]")
            },
            PriceError::PrecisionViolation => {
                proof {
                    reveal_strlit("invalid `precision`: exceeded maximum `FIXED_PRECISION` 9");
                }
                String::from_str("invalid `precision`: exceeded maximum `FIXED_PRECISION` 9")
            },
            PriceError::ParseFailure => {
                proof {
                    reveal_strlit("invalid `input`: not a decimal number");
                }
                String::from_str("invalid `input`: not a decimal number")
            },
            PriceError::PrecisionMismatch => {
                proof {
                    reveal_strlit("precision mismatch: the right operand is finer than the left one (precision loss)");
                }
                String::from_str("precision mismatch: the right operand is finer than the left one (precision loss)")
            },
            PriceError::Overflow => {
                proof {
                    reveal_strlit("overflow: the raw result does not fit i64");
                }
                String::from_str("overflow: the raw result does not fit i64")
            },
            PriceError::NotPositive => {
                proof {
                    reveal_strlit("invalid `value`: not positive (> 0)");
                }
                String::from_str("invalid `value`: not positive (> 0)")
            },
        }
    }
}

} // verus!
