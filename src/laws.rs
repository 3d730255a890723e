//! Laws that relate the operations on prices.
use vstd::arithmetic::div_mod::lemma_fundamental_div_mod_converse;
use vstd::prelude::*;
use vstd::std_specs::cmp::PartialEqSpec;

use crate::error::PriceError;
use crate::fixed::{
    lemma_pow10_add, lemma_pow10_monotone, lemma_pow10_positive, pow10, round_div_nat,
    FIXED_PRECISION,
};
use crate::price::{
    constructs, constructs_shifted, difference_of, lemma_scaled_raw_bound, parses, price_text, scaled_units, sum_of,
    value_in_range, Price, PRICE_ERROR, PRICE_RAW_MAX, PRICE_UNDEF,
};
use crate::text::{
    all_digits, digits_value, exp_digits, frac_digits, frac_end, has_exponent, int_digits, int_end,
    is_digit, is_number_text, lemma_digits_end_at, lemma_digits_value_bound,
    lemma_digits_value_concat, lemma_nat_text_digits, lemma_nat_text_of_digits, lemma_padded_digits,
    lemma_padded_len, lemma_padded_of_digits, lemma_trim_trailing_zeros, mantissa_digits, nat_text,
    number_mantissa, number_precision, number_shift, padded_text, sign_len, text_sign,
    within_limits,
};

verus! {

/// Adding or subtracting a finer right operand is refused; otherwise a result
/// that fits keeps the precision of the left operand.
pub proof fn lemma_precision_guard(a: Price, b: Price)
    ensures
        a.precision < b.precision ==> sum_of(a, b) == Err::<Price, PriceError>(
            PriceError::PrecisionMismatch,
        ) && difference_of(a, b) == Err::<Price, PriceError>(PriceError::PrecisionMismatch),
        a.precision >= b.precision && i64::MIN <= a.raw + b.raw <= i64::MAX ==> sum_of(a, b) is Ok
            && sum_of(a, b)->Ok_0.precision == a.precision,
        a.precision >= b.precision && i64::MIN <= a.raw - b.raw <= i64::MAX ==> difference_of(
            a,
            b,
        ) is Ok && difference_of(a, b)->Ok_0.precision == a.precision,
{
}

/// Adding a positive price whose sum with the largest valid price leaves
/// `i64` to that largest price fails with `Overflow`; it never wraps.
pub proof fn lemma_overflow_guard(a: Price, b: Price)
    requires
        a.raw == PRICE_RAW_MAX,
        b.precision <= a.precision,
        b.raw > i64::MAX - PRICE_RAW_MAX,
    ensures
        sum_of(a, b) == Err::<Price, PriceError>(PriceError::Overflow),
{
}

/// No price that a constructor accepts holds a sentinel raw value.
pub proof fn lemma_constructed_not_sentinel(
    m: int,
    s: nat,
    p: nat,
    r: Result<Price, PriceError>,
)
    requires
        constructs(m, s, p, r),
        r is Ok,
    ensures
        r->Ok_0.raw != PRICE_UNDEF,
        r->Ok_0.raw != PRICE_ERROR,
{
    lemma_scaled_raw_bound(m, s, p);
}

/// No price that parsing accepts holds a sentinel raw value.
pub proof fn lemma_parsed_not_sentinel(t: Seq<char>, r: Result<Price, PriceError>)
    requires
        parses(t, r),
        r is Ok,
    ensures
        r->Ok_0.raw != PRICE_UNDEF,
        r->Ok_0.raw != PRICE_ERROR,
{
    let m = text_sign(t) * number_mantissa(t);
    let x = number_shift(t);
    let p = number_precision(t);
    if x >= 0 {
        lemma_constructed_not_sentinel(m * pow10(x as nat), 0, p, r);
    } else {
        lemma_constructed_not_sentinel(m, (-x) as nat, p, r);
    }
}

/// Where the point stands in `price_text(raw, p)`: with decimals, `p` digits
/// follow a `.`; without, the text holds no `.`.
proof fn lemma_text_tail(raw: int, p: nat)
    requires
        p <= FIXED_PRECISION,
    ensures
        p > 0 ==> ({
            let t = price_text(raw, p);
            &&& t.len() >= p + 1
            &&& t[t.len() - p - 1] == '.'
            &&& forall|j: int| t.len() - p <= j < t.len() ==> is_digit(#[trigger] t[j])
        }),
        p == 0 ==> forall|j: int|
            0 <= j < price_text(raw, p).len() ==> #[trigger] price_text(raw, p)[j] != '.',
{
    let t = price_text(raw, p);
    let mag = if raw < 0 {
        -raw
    } else {
        raw
    };
    let a = round_div_nat(mag, pow10((FIXED_PRECISION - p) as nat) as int);
    let sign = if raw < 0 {
        seq!['-']
    } else {
        Seq::<char>::empty()
    };
    lemma_pow10_positive((FIXED_PRECISION - p) as nat);
    lemma_pow10_positive(p);
    let whole = nat_text((a / pow10(p) as int) as nat);
    lemma_nat_text_digits((a / pow10(p) as int) as nat);
    let head = sign + whole;
    if p == 0 {
        assert(t =~= head + Seq::<char>::empty());
        assert forall|j: int| 0 <= j < t.len() implies #[trigger] t[j] != '.' by {
            if j >= sign.len() {
                assert(t[j] == whole[j - sign.len()]);
            }
        }
    } else {
        let digits = padded_text((a % pow10(p) as int) as nat, p);
        lemma_padded_digits((a % pow10(p) as int) as nat, p);
        lemma_padded_len((a % pow10(p) as int) as nat, p);
        assert(t =~= head + (seq!['.'] + digits));
        assert(t[head.len() as int] == '.');
        assert forall|j: int| t.len() - p <= j < t.len() implies is_digit(#[trigger] t[j]) by {
            assert(t[j] == digits[j - head.len() - 1]);
        }
    }
}

/// Equality looks at the raw value alone: two prices with one raw value and
/// different precisions are equal, yet their texts differ.
pub proof fn lemma_equality_ignores_precision(a: Price, b: Price)
    requires
        a.raw == b.raw,
        a.wf(),
        b.wf(),
        a.precision != b.precision,
    ensures
        a.eq_spec(&b),
        price_text(a.raw as int, a.precision as nat) != price_text(b.raw as int, b.precision as nat),
{
    let raw = a.raw as int;
    let (lo, hi) = if a.precision < b.precision {
        (a.precision as nat, b.precision as nat)
    } else {
        (b.precision as nat, a.precision as nat)
    };
    lemma_text_tail(raw, lo);
    lemma_text_tail(raw, hi);
    let tl = price_text(raw, lo);
    let th = price_text(raw, hi);
    if tl == th {
        let k = th.len() - hi - 1;
        assert(th[k] == '.');
        if lo > 0 {
            let j = tl.len() - lo - 1;
            assert(tl[j] == '.');
            assert(is_digit(th[j]));
        } else {
            assert(tl[k] != '.');
        }
    }
}

/// The text `-?int(.frac)?`, with the point only where `frac` is nonempty.
pub open spec fn decimal_text(neg: bool, int_digits: Seq<char>, frac_digits: Seq<char>) -> Seq<
    char,
> {
    let sign = if neg {
        seq!['-']
    } else {
        Seq::<char>::empty()
    };
    if frac_digits.len() == 0 {
        sign + int_digits
    } else {
        sign + int_digits + seq!['.'] + frac_digits
    }
}

/// A decimal text with no redundant leading zero, no sign on zero, at most
/// `FIXED_PRECISION` decimals and a value in range parses, and the price
/// prints back as the same text.
pub proof fn lemma_text_round_trip(
    neg: bool,
    int_digits: Seq<char>,
    frac_digits: Seq<char>,
    r: Result<Price, PriceError>,
)
    requires
        all_digits(int_digits),
        int_digits.len() >= 1,
        int_digits.len() == 1 || int_digits[0] != '0',
        all_digits(frac_digits),
        frac_digits.len() <= FIXED_PRECISION,
        neg ==> digits_value(int_digits + frac_digits) != 0,
        value_in_range(digits_value(int_digits + frac_digits), frac_digits.len()),
        parses(decimal_text(neg, int_digits, frac_digits), r),
    ensures
        r is Ok,
        price_text(r->Ok_0.raw as int, r->Ok_0.precision as nat) == decimal_text(
            neg,
            int_digits,
            frac_digits,
        ),
{
    let t = decimal_text(neg, int_digits, frac_digits);
    let p = frac_digits.len();
    let m = digits_value(int_digits + frac_digits);
    let sg = if neg {
        -1int
    } else {
        1int
    };
    assert(is_digit(int_digits[0]));
    if neg {
        assert(t[0] == '-');
    } else {
        assert(t[0] == int_digits[0]);
    }
    assert(sign_len(t) == if neg {
        1int
    } else {
        0int
    });
    assert(text_sign(t) == sg);
    lemma_digits_value_concat(int_digits, frac_digits);
    lemma_digits_value_bound(int_digits);
    lemma_digits_value_bound(frac_digits);
    lemma_pow10_positive(p);
    assert(0 <= m) by (nonlinear_arith)
        requires
            m == digits_value(int_digits) * pow10(p) + digits_value(frac_digits),
            digits_value(int_digits) >= 0,
            digits_value(frac_digits) >= 0,
            pow10(p) >= 1,
    ;
    assert(value_in_range(sg * m, p));
    let s0 = if neg {
        1int
    } else {
        0int
    };
    let ie = s0 + int_digits.len();
    assert forall|x: int| s0 <= x < ie implies is_digit(#[trigger] t[x]) by {
        assert(t[x] == int_digits[x - s0]);
    }
    if p == 0 {
        assert(t.len() == ie);
        lemma_digits_end_at(t, s0, ie);
    } else {
        assert(t[ie] == '.');
        lemma_digits_end_at(t, s0, ie);
        assert forall|x: int| ie + 1 <= x < t.len() implies is_digit(#[trigger] t[x]) by {
            assert(t[x] == frac_digits[x - ie - 1]);
        }
        lemma_digits_end_at(t, ie + 1, t.len() as int);
    }
    assert(int_end(t) == ie);
    assert(frac_end(t) == t.len());
    assert(!has_exponent(t));
    lemma_digits_end_at(t, t.len() as int, t.len() as int);
    assert(is_number_text(t));
    assert(crate::text::int_digits(t) =~= int_digits);
    assert(crate::text::frac_digits(t) =~= frac_digits);
    assert(exp_digits(t) =~= Seq::<char>::empty());
    assert(digits_value(exp_digits(t)) == 0);
    let all = int_digits + frac_digits;
    assert(all_digits(all)) by {
        assert forall|x: int| 0 <= x < all.len() implies is_digit(#[trigger] all[x]) by {
            if x < int_digits.len() {
                assert(all[x] == int_digits[x]);
            } else {
                assert(all[x] == frac_digits[x - int_digits.len()]);
            }
        }
    }
    lemma_trim_trailing_zeros(all);
    let core = number_mantissa(t);
    let z = (all.len() - mantissa_digits(t).len()) as nat;
    lemma_digits_value_bound(mantissa_digits(t));
    assert(m == core * pow10(z));
    assert(number_shift(t) == z - p);
    assert(number_precision(t) == p);
    proof_limits(m, p);
    lemma_pow10_positive(z);
    assert(core <= m) by (nonlinear_arith)
        requires
            m == core * pow10(z),
            core >= 0,
            pow10(z) >= 1,
    ;
    assert(within_limits(t));
    lemma_constructs_shifted_eq(sg * core, z, p, r);
    assert((sg * core) * pow10(z) == sg * m) by (nonlinear_arith)
        requires
            m == core * pow10(z),
    ;
    assert(constructs(sg * m, p, p, r));
    assert(r is Ok);
    let price = r->Ok_0;
    assert(price.precision == p);
    let e = (FIXED_PRECISION - p) as nat;
    lemma_pow10_positive(e);
    assert(pow10(0) == 1);
    assert((p - p) as nat == 0nat);
    assert(scaled_units(sg * m, p, p) == (sg * m) * pow10(0));
    let sm = sg * m;
    assert(sm * 1int == sm) by (nonlinear_arith);
    assert(scaled_units(sm, p, p) == sm);
    assert(price.raw == (sg * m) * pow10(e));
    let pe = pow10(e) as int;
    assert((sg * m) * pe == if neg { -(m * pe) } else { m * pe }) by (nonlinear_arith)
        requires
            sg == if neg { -1int } else { 1int },
    ;
    assert(neg ==> m * pe > 0) by (nonlinear_arith)
        requires
            neg ==> m != 0,
            m >= 0,
            pe >= 1,
    ;
    assert(m * pe >= 0) by (nonlinear_arith)
        requires
            m >= 0,
            pe >= 1,
    ;
    lemma_fundamental_div_mod_converse(m * pe, pe, m, 0);
    let a = round_div_nat(m * pe, pe);
    assert(a == m);
    lemma_fundamental_div_mod_converse(
        m,
        pow10(p) as int,
        digits_value(int_digits),
        digits_value(frac_digits),
    );
    lemma_nat_text_of_digits(int_digits);
    lemma_padded_of_digits(frac_digits);
    assert(price.raw < 0 <==> neg);
    if p == 0 {
        assert(price_text(price.raw as int, 0) =~= t);
    } else {
        assert(price_text(price.raw as int, p) =~= t);
    }
}

/// Adding or subtracting never wraps: a sum or difference of compatible
/// prices that leaves `i64` fails with `Overflow`, and one that fits is exact.
pub proof fn lemma_never_wraps(a: Price, b: Price)
    requires
        a.precision >= b.precision,
    ensures
        !(i64::MIN <= a.raw + b.raw <= i64::MAX) ==> sum_of(a, b) == Err::<Price, PriceError>(
            PriceError::Overflow,
        ),
        i64::MIN <= a.raw + b.raw <= i64::MAX ==> sum_of(a, b) is Ok && sum_of(a, b)->Ok_0.raw
            == a.raw + b.raw,
        !(i64::MIN <= a.raw - b.raw <= i64::MAX) ==> difference_of(a, b) == Err::<
            Price,
            PriceError,
        >(PriceError::Overflow),
        i64::MIN <= a.raw - b.raw <= i64::MAX ==> difference_of(a, b) is Ok && difference_of(
            a,
            b,
        )->Ok_0.raw == a.raw - b.raw,
{
}

proof fn proof_limits(m: int, p: nat)
    requires
        value_in_range(m, p),
        p <= FIXED_PRECISION,
        m >= 0,
    ensures
        m < pow10(37),
{
    lemma_pow10_monotone(p, 9);
    crate::fixed::lemma_pow10_38();
    assert(pow10(38) == 10 * pow10(37));
    reveal_with_fuel(pow10, 10);
    let x = pow10(p);
    assert(crate::price::PRICE_MAX * x <= crate::price::PRICE_MAX * 1_000_000_000) by (nonlinear_arith)
        requires
            x <= 1_000_000_000,
    ;
}

/// `c * 10^(z - f)` builds at precision `f` as `c * 10^z / 10^f` does.
proof fn lemma_constructs_shifted_eq(c: int, z: nat, f: nat, r: Result<Price, PriceError>)
    ensures
        constructs_shifted(c, z - f, f, r) == constructs(c * pow10(z), f, f, r),
{
    let lo = crate::price::PRICE_MIN as int;
    let hi = crate::price::PRICE_MAX as int;
    let v = c * pow10(z);
    assert(pow10(0) == 1);
    assert(scaled_units(v, f, f) == v * pow10(0));
    assert(v * pow10(0) == v) by (nonlinear_arith)
        requires
            pow10(0) == 1,
    ;
    if z >= f {
        let k = (z - f) as nat;
        lemma_pow10_add(k, f);
        assert(k + f == z);
        let a = c * pow10(k);
        let pf = pow10(f);
        lemma_pow10_positive(f);
        assert(v == a * pf) by (nonlinear_arith)
            requires
                v == c * pow10(z),
                pow10(z) == pow10(k) * pf,
                a == c * pow10(k),
        ;
        assert((lo <= a <= hi) <==> (lo * pf <= a * pf <= hi * pf)) by (nonlinear_arith)
            requires
                pf >= 1,
        ;
        assert(value_in_range(a, 0) == (lo * 1 <= a <= hi * 1));
        assert(scaled_units(a, 0, f) == a * pf);
    } else {
        let k = (f - z) as nat;
        lemma_pow10_add(k, z);
        assert(k + z == f);
        let pk = pow10(k);
        let pz = pow10(z);
        lemma_pow10_positive(z);
        assert((lo * pk <= c <= hi * pk) <==> (lo * (pk * pz) <= c * pz <= hi * (pk * pz)))
            by (nonlinear_arith)
            requires
                pz >= 1,
        ;
        assert((f - k) as nat == z);
        assert(scaled_units(c, k, f) == c * pz);
    }
}

} // verus!
