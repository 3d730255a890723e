//! The calls into outside crates, each behind a contract that its source shows.
use rust_decimal::Decimal;
use thousands::Separable;
use vstd::prelude::*;

use crate::text::is_digit;

verus! {

#[verifier::external_type_specification]
#[verifier::external_body]
pub struct ExDecimal(Decimal);

/// The exact decimal `num * 10^-scale` as `Decimal::from_i128_with_scale` builds it.
pub uninterp spec fn decimal_from_parts(num: int, scale: int) -> Decimal;

/// Relies on `rust_decimal::Decimal::from_i128_with_scale`, which builds the
/// decimal `num * 10^-scale` from its arguments alone, and panics when `scale`
/// exceeds 28 or `num` needs more than 96 bits.
#[verifier::external_body]
pub(crate) fn decimal_from_i128_with_scale(num: i128, scale: u32) -> (r: Decimal)
    requires
        scale <= 28,
        -79228162514264337593543950335 <= num <= 79228162514264337593543950335,
    ensures
        r == decimal_from_parts(num as int, scale as int),
{
    Decimal::from_i128_with_scale(num, scale)
}

/// The number of characters before the first ASCII digit of `s`.
pub open spec fn leading_non_digits(s: Seq<char>) -> nat
    decreases s.len(),
{
    if s.len() == 0 || is_digit(s[0]) {
        0
    } else {
        1 + leading_non_digits(s.skip(1))
    }
}

/// The length of the run of ASCII digits at the start of `s`.
pub open spec fn leading_digits(s: Seq<char>) -> nat
    decreases s.len(),
{
    if s.len() == 0 || !is_digit(s[0]) {
        0
    } else {
        1 + leading_digits(s.skip(1))
    }
}

/// A run of digits with `_` between groups of three, counted from the right.
pub open spec fn group_by_three(d: Seq<char>) -> Seq<char>
    decreases d.len(),
{
    if d.len() <= 3 {
        d
    } else {
        group_by_three(d.take(d.len() - 3)) + seq!['_'] + d.skip(d.len() - 3)
    }
}

/// `s` with its first run of ASCII digits grouped by three.
pub open spec fn underscore_separated(s: Seq<char>) -> Seq<char> {
    let a = leading_non_digits(s);
    let rest = s.skip(a as int);
    let l = leading_digits(rest);
    s.take(a as int) + group_by_three(rest.take(l as int)) + rest.skip(l as int)
}

/// Relies on `thousands::Separable::separate_with_underscores` for `str`: the
/// text before the first ASCII digit and after the run of digits that starts
/// there is kept, and that run gets a `_` between groups of three from the right.
#[verifier::external_body]
pub(crate) fn separate_with_underscores(s: &str) -> (r: String)
    ensures
        r@ == underscore_separated(s@),
{
    s.separate_with_underscores()
}

/// Relies on `Hash for i64`: it feeds the integer to the hasher. Nothing is
/// claimed of the hasher's state.
pub assume_specification<H: core::hash::Hasher>[ <i64 as core::hash::Hash>::hash::<H> ](
    value: &i64,
    state: &mut H,
);

} // verus!
