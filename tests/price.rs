use std::cmp::Ordering;
use std::hash::{Hash, Hasher};

use nautilus_price::error::PriceError;
use nautilus_price::fixed::check_fixed_precision;
use nautilus_price::price::{
    check_positive_price, decode_raw_price_i64, Price, PRICE_ERROR, PRICE_MAX, PRICE_RAW_MAX,
    PRICE_RAW_MIN, PRICE_UNDEF,
};
use rust_decimal::Decimal;

fn parse(text: &str) -> Price {
    Price::from_str(text).unwrap()
}

#[test]
fn test_invalid_precision_new() {
    assert_eq!(Price::new_checked(1, 0, 10), Err(PriceError::PrecisionViolation));
}

#[test]
fn test_invalid_precision_checks() {
    assert_eq!(check_fixed_precision(10), Err(PriceError::PrecisionViolation));
    assert_eq!(check_fixed_precision(9), Ok(()));
    assert_eq!(check_fixed_precision(0), Ok(()));
}

#[test]
fn test_new() {
    let price = Price::new(812, 5, 8);
    assert_eq!(price, price);
    assert_eq!(price.raw, 8_120_000);
    assert_eq!(price.precision, 8);
    assert_eq!(price.to_string(), "0.00812000");
    assert!(!price.is_zero());
    assert_eq!(price.as_decimal(), Decimal::new(812_000, 8));
    assert_eq!(price.as_decimal().scale(), 8);
}

#[test]
fn test_with_maximum_value() {
    let price = Price::new(PRICE_MAX as i128, 0, 9);
    assert_eq!(price.raw, 9_223_372_036_000_000_000);
    assert_eq!(price.as_decimal(), Decimal::new(9_223_372_036, 0));
    assert_eq!(price.to_string(), "9223372036.000000000");
    assert_eq!(price.to_formatted_string(), "9_223_372_036.000000000");
}

#[test]
fn test_with_minimum_positive_value() {
    let price = Price::new(1, 9, 9);
    assert_eq!(price.raw, 1);
    assert_eq!(price.as_decimal(), Decimal::new(1, 9));
    assert_eq!(price.to_string(), "0.000000001");
}

#[test]
fn test_with_minimum_value() {
    let price = Price::new(-9_223_372_036, 0, 9);
    assert_eq!(price.raw, -9_223_372_036_000_000_000);
    assert_eq!(price.as_decimal(), Decimal::new(-9_223_372_036, 0));
    assert_eq!(price.to_string(), "-9223372036.000000000");
    assert_eq!(price.to_formatted_string(), "-9_223_372_036.000000000");
}

#[test]
fn test_max() {
    let price = Price::max(9);
    assert_eq!(price.raw, 9_223_372_036_000_000_000);
    assert_eq!(price.as_decimal(), Decimal::new(9_223_372_036, 0));
    assert_eq!(price.to_string(), "9223372036.000000000");
    assert_eq!(price.to_formatted_string(), "9_223_372_036.000000000");
}

#[test]
fn test_min() {
    let price = Price::min(9);
    assert_eq!(price.raw, -9_223_372_036_000_000_000);
    assert_eq!(price.as_decimal(), Decimal::new(-9_223_372_036, 0));
    assert_eq!(price.to_string(), "-9223372036.000000000");
}

#[test]
fn test_undefined() {
    let price = Price::from_raw(PRICE_UNDEF, 0);
    assert_eq!(price.raw, PRICE_UNDEF);
    assert!(price.is_undefined());
    assert!(!Price::from_raw(PRICE_ERROR, 0).is_undefined());
}

#[test]
fn test_zero() {
    let price = Price::zero(0);
    assert_eq!(price.raw, 0);
    assert_eq!(price.to_string(), "0");
    assert!(price.is_zero());
}

#[test]
fn test_is_zero() {
    let price = Price::new(0, 0, 8);
    assert_eq!(price, price);
    assert_eq!(price.raw, 0);
    assert_eq!(price.precision, 8);
    assert_eq!(price.to_string(), "0.00000000");
    assert!(price.is_zero());
}

#[test]
fn test_precision() {
    let price = Price::new(1001, 3, 2);
    assert_eq!(price.raw, 1_000_000_000);
    assert_eq!(price.to_string(), "1.00");
}

#[test]
fn test_rounding_half_away_from_zero() {
    assert_eq!(Price::new(1005, 3, 2).raw, 1_010_000_000);
    assert_eq!(Price::new(-1005, 3, 2).raw, -1_010_000_000);
    assert_eq!(Price::new(1004, 3, 2).raw, 1_000_000_000);
    assert_eq!(Price::new(-1004, 3, 2).raw, -1_000_000_000);
    assert_eq!(Price::new(5, 1, 0).raw, 1_000_000_000);
    assert_eq!(Price::new(4, 1, 0).raw, 0);
    assert_eq!(Price::new(7, 40, 9).raw, 0);
    assert_eq!(Price::new(15, 0, 3).raw, 15_000_000_000);
}

#[test]
fn test_new_from_str() {
    let price = parse("0.00812000");
    assert_eq!(price, price);
    assert_eq!(price.raw, 8_120_000);
    assert_eq!(price.precision, 8);
    assert_eq!(price.to_string(), "0.00812000");
}

#[test]
fn test_from_str_valid_input() {
    let result = parse("10.5");
    let expected_price = Price::new(105, 1, 1);
    assert_eq!(result, expected_price);
    assert_eq!(result.precision, 1);
    assert_eq!(result.raw, 10_500_000_000);
}

#[test]
fn test_from_str_invalid_input() {
    assert_eq!(Price::from_str("invalid"), Err(PriceError::ParseFailure));
}

#[test]
fn test_from_str_malformed_texts() {
    for text in ["", "-", "+", ".", "e5", ".e1", "1e", "1e+", "1e-", "+-1", "1.2.3", "--1", "1-", "1e5.0", " 1", "1 "] {
        assert_eq!(Price::from_str(text), Err(PriceError::ParseFailure), "{text}");
    }
}

#[test]
fn test_from_str_float_forms() {
    let plus = parse("+1");
    assert_eq!((plus.raw, plus.precision), (1_000_000_000, 0));
    let trailing_point = parse("1.");
    assert_eq!((trailing_point.raw, trailing_point.precision), (1_000_000_000, 0));
    let leading_point = parse(".5");
    assert_eq!((leading_point.raw, leading_point.precision), (500_000_000, 1));
    assert_eq!(leading_point.to_string(), "0.5");
    let negative_point = parse("-.25");
    assert_eq!((negative_point.raw, negative_point.precision), (-250_000_000, 2));
    let exponent = parse("1e5");
    assert_eq!((exponent.raw, exponent.precision), (100_000_000_000_000, 0));
    assert_eq!(exponent.to_string(), "100000");
    let scaled = parse("2.5E+2");
    assert_eq!((scaled.raw, scaled.precision), (250_000_000_000, 1));
    assert_eq!(scaled.to_string(), "250.0");
    let small = parse("1e-8");
    assert_eq!((small.raw, small.precision), (0, 0));
    assert_eq!(small.to_string(), "0");
    let rounded = parse("1.25e-1");
    assert_eq!((rounded.raw, rounded.precision), (130_000_000, 2));
    let rounded_up = parse("5e-1");
    assert_eq!((rounded_up.raw, rounded_up.precision), (1_000_000_000, 0));
    let kept = parse("12.5e-1");
    assert_eq!((kept.raw, kept.precision), (1_300_000_000, 1));
    assert_eq!(kept.to_string(), "1.3");
    assert_eq!(parse("0e999").raw, 0);
    assert_eq!(Price::from_str("1e400"), Err(PriceError::RangeViolation));
    assert_eq!(parse("1e-400").raw, 0);
    assert_eq!(parse("1e-10").precision, 0);
    assert_eq!(Price::from_str("1.0000000000e-1"), Err(PriceError::PrecisionViolation));
    assert_eq!(parse("9.223372036e9").raw, PRICE_RAW_MAX);
    assert_eq!(Price::from_str("9.223372037e9"), Err(PriceError::RangeViolation));
}

#[test]
fn test_from_str_size_limits() {
    let long = "1".repeat(40);
    assert_eq!(Price::from_str(&long), Err(PriceError::ParseFailure));
    assert_eq!(Price::from_str("1e100000"), Err(PriceError::ParseFailure));
    let zeros = format!("0.{}1", "0".repeat(30));
    assert_eq!(Price::from_str(&zeros), Err(PriceError::PrecisionViolation));
    let trailing = format!("1{}e-38", "0".repeat(40));
    let hundred = parse(&trailing);
    assert_eq!((hundred.raw, hundred.precision), (100_000_000_000, 0));
    let huge = format!("1{}", "0".repeat(50));
    assert_eq!(Price::from_str(&huge), Err(PriceError::RangeViolation));
    let long_fraction = format!("1.{}e-5", "0".repeat(37));
    assert_eq!(Price::from_str(&long_fraction), Err(PriceError::PrecisionViolation));
    let kept_zeros = format!("{}.50", "0".repeat(60));
    let half = parse(&kept_zeros);
    assert_eq!((half.raw, half.precision), (500_000_000, 2));
    assert_eq!(half.to_string(), "0.50");
}

#[test]
fn test_error_messages() {
    assert!(PriceError::RangeViolation.message().contains("9223372036"));
    assert!(PriceError::PrecisionViolation.message().contains("precision"));
    assert!(PriceError::ParseFailure.message().contains("input"));
    assert!(PriceError::PrecisionMismatch.message().contains("precision mismatch"));
    assert!(PriceError::Overflow.message().contains("overflow"));
    assert!(PriceError::NotPositive.message().contains("positive"));
}

#[test]
fn test_from_str_underscores() {
    let price = parse("1_234_567.89");
    assert_eq!(price.raw, 1_234_567_890_000_000);
    assert_eq!(price.precision, 2);
    assert_eq!(price.to_string(), "1234567.89");
    assert_eq!(price.to_formatted_string(), "1_234_567.89");
}

#[test]
fn test_from_str_range_and_precision() {
    assert_eq!(Price::from_str("9223372036.5"), Err(PriceError::RangeViolation));
    assert_eq!(Price::from_str("-9223372037"), Err(PriceError::RangeViolation));
    assert_eq!(
        Price::from_str("123456789012345678901234567890"),
        Err(PriceError::RangeViolation)
    );
    assert_eq!(Price::from_str("+9223372036.5"), Err(PriceError::RangeViolation));
    assert_eq!(Price::from_str("1.0000000001"), Err(PriceError::PrecisionViolation));
    assert_eq!(
        Price::from_str("9223372036.0000000000"),
        Err(PriceError::PrecisionViolation)
    );
    assert_eq!(
        Price::from_str("9223372036.0000000001"),
        Err(PriceError::RangeViolation)
    );
    assert_eq!(parse("-9223372036").raw, PRICE_RAW_MIN);
    assert_eq!(parse("9223372036.000000000").raw, PRICE_RAW_MAX);
}

#[test]
fn test_equality() {
    assert_eq!(parse("1.0"), parse("1.0"));
    assert_ne!(parse("1.1"), parse("1.0"));
    assert!(parse("1.0") <= parse("1.0"));
    assert!(parse("1.1") > parse("1.0"));
    assert!(parse("1.0") >= parse("1.0"));
    assert!(parse("0.9") < parse("1.0"));
    assert!(parse("0.9") <= parse("1.0"));
    assert_eq!(parse("0.9").partial_cmp(&parse("1.0")), Some(Ordering::Less));
    assert_eq!(parse("1.00").partial_cmp(&parse("1.0")), Some(Ordering::Equal));
}

#[test]
fn test_add() {
    let price1 = Price::new(1000, 3, 3);
    let price2 = Price::new(1011, 3, 3);
    let price3 = price1.add(price2);
    assert_eq!(price3.raw, parse("2.011").raw);
    assert_eq!(price3, parse("2.011"));
}

#[test]
fn test_sub() {
    let price1 = Price::new(1011, 3, 3);
    let price2 = Price::new(1000, 3, 3);
    let price3 = price1.sub(price2);
    assert_eq!(price3.raw, parse("0.011").raw);
}

#[test]
fn test_add_assign() {
    let mut price = Price::new(1000, 3, 3);
    price.add_assign(Price::new(1011, 3, 3));
    assert_eq!(price.raw, parse("2.011").raw);
    assert_eq!(price.precision, 3);
}

#[test]
fn test_sub_assign() {
    let mut price = Price::new(1000, 3, 3);
    price.sub_assign(Price::new(11, 3, 3));
    assert_eq!(price, Price::new(989, 3, 3));
}

#[test]
fn test_neg() {
    let price = parse("12.5").neg();
    assert_eq!(price.raw, -12_500_000_000);
    assert_eq!(price.precision, 1);
    assert_eq!(price.to_string(), "-12.5");
}

#[test]
fn test_display() {
    assert_eq!(parse("44.12").to_string(), "44.12");
}

#[test]
fn test_text_round_trip() {
    for text in ["0.00812000", "-12.5", "7", "0", "123456.78", "-0.001", "9223372036.000000000"] {
        assert_eq!(parse(text).to_string(), text);
    }
    assert_eq!(parse("1_000.5_0").to_string(), "1000.50");
    assert_eq!(parse("1._").to_string(), "1");
}

#[test]
fn test_equality_ignores_precision() {
    let a = Price::from_raw(100, 2);
    let b = Price::from_raw(100, 5);
    assert_eq!(a, b);
    assert_eq!(a.to_string(), "0.00");
    assert_eq!(b.to_string(), "0.00000");
    assert_ne!(a.to_string(), b.to_string());
    let c = Price::from_raw(1_000_000_000, 2);
    let d = Price::from_raw(1_000_000_000, 5);
    assert_eq!(c, d);
    assert_eq!(c.to_string(), "1.00");
    assert_eq!(d.to_string(), "1.00000");
}

#[test]
fn test_precision_mismatch_guard() {
    let coarse = parse("1.00");
    let fine = parse("1.000");
    assert_eq!(coarse.checked_add(fine), Err(PriceError::PrecisionMismatch));
    assert_eq!(coarse.checked_sub(fine), Err(PriceError::PrecisionMismatch));
    let sum = fine.checked_add(coarse).unwrap();
    assert_eq!(sum.precision, 3);
    assert_eq!(sum.raw, 2_000_000_000);
    let difference = fine.checked_sub(coarse).unwrap();
    assert_eq!(difference.precision, 3);
    assert!(difference.is_zero());
}

#[test]
fn test_overflow_guard() {
    assert_eq!(Price::max(2).checked_add(parse("1.00")), Err(PriceError::Overflow));
    assert_eq!(
        Price::max(2).checked_add(Price::from_raw(854_775_808, 2)),
        Err(PriceError::Overflow)
    );
    assert_eq!(Price::min(2).checked_sub(parse("1.00")), Err(PriceError::Overflow));
    assert_eq!(
        Price::from_raw(PRICE_UNDEF, 0).checked_add(Price::from_raw(1, 0)),
        Err(PriceError::Overflow)
    );
}

#[test]
fn test_sentinel_isolation() {
    for text in ["9223372036", "-9223372036", "9223372036.000000000", "-9223372036.000000000"] {
        let price = parse(text);
        assert_ne!(price.raw, PRICE_UNDEF);
        assert_ne!(price.raw, PRICE_ERROR);
        assert!(!price.is_undefined());
    }
    let high = Price::new(i128::MAX, 29, 9);
    assert_ne!(high.raw, PRICE_UNDEF);
}

#[test]
fn test_bounds_rejection() {
    assert_eq!(
        Price::new_checked(PRICE_MAX as i128 + 1, 0, 0),
        Err(PriceError::RangeViolation)
    );
    assert_eq!(Price::new_checked(0, 0, 10), Err(PriceError::PrecisionViolation));
    assert_eq!(
        Price::new_checked(-(PRICE_MAX as i128) - 1, 0, 0),
        Err(PriceError::RangeViolation)
    );
    assert_eq!(
        Price::new_checked(PRICE_MAX as i128 + 1, 0, 10),
        Err(PriceError::RangeViolation)
    );
    assert_eq!(
        Price::new_checked(i128::MIN, 0, 0),
        Err(PriceError::RangeViolation)
    );
}

#[test]
fn test_worked_examples() {
    let first = Price::new(812, 5, 8);
    assert_eq!(first.raw, 8_120_000);
    assert_eq!(first.precision, 8);
    assert_eq!(first.to_string(), "0.00812000");
    assert_eq!(parse("10.5"), Price::new(105, 1, 1));
    assert_eq!(Price::new(1000, 3, 3).add(Price::new(1011, 3, 3)), parse("2.011"));
    assert!(Price::from_raw(PRICE_UNDEF, 0).is_undefined());
    assert_eq!(Price::zero(0).to_string(), "0");
    assert!(Price::zero(0).is_zero());
    assert_eq!(Price::new(1001, 3, 2).to_string(), "1.00");
}

#[test]
fn test_rounding_display_of_raw_values() {
    assert_eq!(Price::from_raw(1_999_999_999, 2).to_string(), "2.00");
    assert_eq!(Price::from_raw(1_994_999_999, 2).to_string(), "1.99");
    assert_eq!(Price::from_raw(1_995_000_000, 2).to_string(), "2.00");
    assert_eq!(Price::from_raw(9_999_999_999, 0).to_string(), "10");
    assert_eq!(Price::from_raw(-1, 2).to_string(), "-0.00");
    assert_eq!(Price::from_raw(-10_000_000, 2).to_string(), "-0.01");
    assert_eq!(Price::from_raw(-5_000_000, 2).to_string(), "-0.01");
    assert_eq!(Price::from_raw(4_999_999, 2).to_string(), "0.00");
    assert_eq!(Price::from_raw(PRICE_ERROR, 9).to_string(), "-9223372036.854775808");
    assert_eq!(Price::from_raw(PRICE_ERROR, 0).to_string(), "-9223372037");
    assert_eq!(Price::from_raw(PRICE_ERROR, 9).as_decimal(), Decimal::new(i64::MIN, 9));
    assert_eq!(Price::from_raw(1_999_999_999, 2).as_decimal(), Decimal::new(199, 2));
}

#[test]
fn test_positive_check() {
    assert_eq!(check_positive_price(1, "price"), Ok(()));
    assert_eq!(check_positive_price(0, "price"), Err(PriceError::NotPositive));
    assert_eq!(check_positive_price(-5, "price"), Err(PriceError::NotPositive));
}

#[test]
fn test_decode_and_default() {
    assert_eq!(decode_raw_price_i64(123), 123);
    let price = Price::default();
    assert_eq!(price.raw, 0);
    assert_eq!(price.precision, 0);
}

fn hash_of(price: &Price) -> u64 {
    let mut hasher = std::collections::hash_map::DefaultHasher::new();
    price.hash(&mut hasher);
    hasher.finish()
}

#[test]
fn test_hash_follows_equality() {
    let a = Price::from_raw(100, 2);
    let b = Price::from_raw(100, 5);
    assert_eq!(a, b);
    assert_eq!(hash_of(&a), hash_of(&b));
    let mut set = std::collections::HashSet::new();
    set.insert(a);
    assert!(set.contains(&b));
}

#[test]
fn test_deref_gives_raw() {
    let price = parse("1.5");
    assert_eq!(*price, 1_500_000_000);
    assert_eq!(price.units(), 15);
    assert_eq!(parse("-2.25").units(), -225);
}
