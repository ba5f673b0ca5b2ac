use rust_decimal::etna::{
    parse_decimal, property_abs_sub_difference, property_checked_div_no_panic,
    property_checked_ln_no_panic, property_from_scientific_no_panic,
    property_is_integer_matches_string, property_round_dp_preserves_when_dp_exceeds_scale,
    property_scientific_fmt_roundtrip, to_opt, PropertyResult,
};
use rust_decimal::{Decimal, DecimalError};

fn dec(s: &str) -> Decimal {
    Decimal::from_str(s).unwrap()
}

fn is_pass(r: PropertyResult) -> bool {
    matches!(r, PropertyResult::Pass)
}

fn is_discard(r: PropertyResult) -> bool {
    matches!(r, PropertyResult::Discard)
}

// ---------------------------------------------------------------------------
// Construction and the plain form.

#[test]
fn plain_form_pads_and_signs() {
    assert_eq!(Decimal::new(-5, 2).to_string(), "-0.05");
    assert_eq!(Decimal::new(4_000_000_000, 10).to_string(), "0.4000000000");
    assert_eq!(Decimal::new(1234, 0).to_string(), "1234");
    assert_eq!(Decimal::new(0, 3).to_string(), "0.000");
    assert_eq!(Decimal::new(i64::MIN, 0).to_string(), "-9223372036854775808");
}

#[test]
fn accessors_report_parts() {
    let d = Decimal::new(-1234, 3);
    assert_eq!(d.scale(), 3);
    assert_eq!(d.mantissa(), -1234);
    assert_eq!(d.unsigned_mantissa(), 1234);
    assert!(d.is_sign_negative());
    assert!(!d.is_zero());
    assert!(Decimal::zero().is_zero());
}

#[test]
fn is_integer_follows_trailing_digits() {
    assert!(Decimal::new(1200, 2).is_integer());
    assert!(!Decimal::new(4_000_000_000, 10).is_integer());
    assert!(Decimal::new(0, 20).is_integer());
    assert!(Decimal::new(-7, 0).is_integer());
}

#[test]
fn equality_and_order_ignore_scale() {
    assert!(Decimal::new(100, 2) == Decimal::new(1, 0));
    assert!(Decimal::new(-100, 2) != Decimal::new(1, 0));
    assert!(Decimal::new(0, 5) == Decimal::new(0, 0));
    assert!(Decimal::new(15, 1).le(&Decimal::new(2, 0)));
    assert!(!Decimal::new(25, 1).le(&Decimal::new(2, 0)));
    assert!(Decimal::new(-3, 0).le(&Decimal::new(-25, 1)));
    assert!(Decimal::new(2, 0).le(&Decimal::new(2000, 3)));
}

#[test]
fn from_i128_range() {
    assert!(Decimal::from_i128(i128::MIN).is_none());
    assert!(Decimal::from_i128(i128::MAX).is_none());
    let max = (1i128 << 96) - 1;
    assert_eq!(Decimal::from_i128(max).unwrap().to_string(), "79228162514264337593543950335");
    assert_eq!(Decimal::from_i128(-max).unwrap().to_string(), "-79228162514264337593543950335");
    assert!(Decimal::from_i128(1i128 << 96).is_none());
    assert!(Decimal::from_i128(-(1i128 << 96)).is_none());
    assert_eq!(Decimal::from_i128(-42).unwrap().mantissa(), -42);
}

// ---------------------------------------------------------------------------
// Rounding.

#[test]
fn round_dp_half_to_even() {
    assert_eq!(Decimal::new(125, 2).round_dp(1).to_string(), "1.2");
    assert_eq!(Decimal::new(135, 2).round_dp(1).to_string(), "1.4");
    assert_eq!(Decimal::new(-125, 2).round_dp(1).to_string(), "-1.2");
    assert_eq!(Decimal::new(126, 2).round_dp(0).to_string(), "1");
    assert_eq!(Decimal::new(-4, 1).round_dp(0).to_string(), "0");
    assert!(!Decimal::new(-4, 1).round_dp(0).is_sign_negative());
}

#[test]
fn round_dp_keeps_scale_when_dp_is_larger() {
    let d = Decimal::new(0, 5);
    let r = d.round_dp(15);
    assert_eq!(r.scale(), 5);
    assert!(r == d);
    let e = Decimal::new(1234, 4).round_dp(10);
    assert_eq!(e.scale(), 4);
    assert_eq!(e.to_string(), "0.1234");
}

// ---------------------------------------------------------------------------
// Addition and subtraction.

#[test]
fn sub_and_add_align_scales() {
    let a = Decimal::new(15, 1);
    let b = Decimal::new(25, 2);
    assert_eq!(a.checked_sub(&b).unwrap().to_string(), "1.25");
    assert_eq!(a.checked_add(&b).unwrap().to_string(), "1.75");
    assert_eq!(b.checked_sub(&a).unwrap().to_string(), "-1.25");
    assert_eq!(a.sub(&a).to_string(), "0.0");
    assert!(!a.sub(&a).is_sign_negative());
}

#[test]
fn sub_rounds_off_digits_that_do_not_fit() {
    let a = Decimal::new(i64::MAX, 0);
    let b = Decimal::new(1, 10);
    let d = a.checked_sub(&b).unwrap();
    assert_eq!(d.scale(), 9);
    assert_eq!(d.to_string(), "9223372036854775807.000000000");
}

#[test]
fn add_overflows_to_none() {
    let max = Decimal::from_i128((1i128 << 96) - 1).unwrap();
    assert!(max.checked_add(&Decimal::new(1, 0)).is_none());
    assert!(max.checked_sub(&Decimal::new(-1, 0)).is_none());
    assert_eq!(max.checked_add(&Decimal::new(-1, 0)).unwrap().to_string(), "79228162514264337593543950334");
}

#[test]
fn abs_sub_is_difference_or_zero() {
    assert_eq!(Decimal::new(123, 0).abs_sub(&Decimal::new(122, 0)).to_string(), "1");
    assert_eq!(Decimal::new(-123, 0).abs_sub(&Decimal::new(-124, 0)).to_string(), "1");
    assert!(Decimal::new(1, 0).abs_sub(&Decimal::new(2, 0)).is_zero());
    assert!(Decimal::new(5, 1).abs_sub(&Decimal::new(50, 2)).is_zero());
}

// ---------------------------------------------------------------------------
// Division.

#[test]
fn division_exact_keeps_scale_difference() {
    assert_eq!(Decimal::new(1, 0).checked_div(&Decimal::new(4, 0)).unwrap().to_string(), "0.25");
    assert_eq!(Decimal::new(10, 0).checked_div(&Decimal::new(4, 0)).unwrap().to_string(), "2.5");
    assert_eq!(Decimal::new(100, 2).checked_div(&Decimal::new(1, 0)).unwrap().to_string(), "1.00");
    assert_eq!(Decimal::new(100, 2).checked_div(&Decimal::new(10, 1)).unwrap().to_string(), "1.0");
    assert_eq!(dec("10").checked_div(&dec("0.1")).unwrap().to_string(), "100");
    assert_eq!(Decimal::new(-6, 0).checked_div(&Decimal::new(3, 0)).unwrap().to_string(), "-2");
    assert_eq!(Decimal::new(0, 5).checked_div(&Decimal::new(3, 0)).unwrap().to_string(), "0");
}

#[test]
fn division_rounds_at_scale_28() {
    assert_eq!(
        Decimal::new(1, 0).checked_div(&Decimal::new(3, 0)).unwrap().to_string(),
        "0.3333333333333333333333333333"
    );
    assert_eq!(
        Decimal::new(2, 0).checked_div(&Decimal::new(3, 0)).unwrap().to_string(),
        "0.6666666666666666666666666667"
    );
    assert_eq!(
        Decimal::new(1, 0).checked_div(&Decimal::new(7, 0)).unwrap().to_string(),
        "0.1428571428571428571428571429"
    );
}

#[test]
fn division_by_zero_or_overflow_is_none() {
    assert!(Decimal::new(1, 0).checked_div(&Decimal::new(0, 3)).is_none());
    let max = Decimal::from_i128((1i128 << 96) - 1).unwrap();
    assert!(max.checked_div(&Decimal::new(1, 1)).is_none());
    assert_eq!(max.checked_div(&Decimal::new(1, 0)).unwrap().to_string(), "79228162514264337593543950335");
}

#[test]
fn division_of_wide_operands() {
    let q = dec("-79228157791897.854723898738431").checked_div(&dec("184512476.73336922111")).unwrap();
    assert_eq!(q.to_string(), "-429391.87200000000002327170816");
    assert_eq!(q.scale(), 23);
}

// ---------------------------------------------------------------------------
// Parsing the plain form.

#[test]
fn from_str_accepts_plain_forms() {
    assert_eq!(dec("1.5").to_string(), "1.5");
    assert_eq!(dec("+5").to_string(), "5");
    assert_eq!(dec(".5").to_string(), "0.5");
    assert_eq!(dec("5.").to_string(), "5");
    assert_eq!(dec("-0.00").to_string(), "0.00");
    assert!(!dec("-0").is_sign_negative());
    assert_eq!(dec("-79228157791897.854723898738431").scale(), 15);
}

#[test]
fn from_str_errors() {
    assert_eq!(Decimal::from_str("").unwrap_err(), DecimalError::InvalidFormat);
    assert_eq!(Decimal::from_str("-").unwrap_err(), DecimalError::InvalidFormat);
    assert_eq!(Decimal::from_str(".").unwrap_err(), DecimalError::InvalidFormat);
    assert_eq!(Decimal::from_str("1.2.3").unwrap_err(), DecimalError::InvalidFormat);
    assert_eq!(Decimal::from_str("12a").unwrap_err(), DecimalError::InvalidFormat);
    assert_eq!(Decimal::from_str("1e5").unwrap_err(), DecimalError::InvalidFormat);
    assert_eq!(
        Decimal::from_str("79228162514264337593543950336").unwrap_err(),
        DecimalError::ExceedsMaximumPossibleValue
    );
    assert_eq!(
        Decimal::from_str("79228162514264337593543950335.5").unwrap_err(),
        DecimalError::ExceedsMaximumPossibleValue
    );
    assert_eq!(Decimal::from_str("_1").unwrap_err(), DecimalError::InvalidFormat);
    assert_eq!(Decimal::from_str("-_1").unwrap_err(), DecimalError::InvalidFormat);
    assert_eq!(Decimal::from_str("_").unwrap_err(), DecimalError::InvalidFormat);
    assert!(Decimal::from_str("79228162514264337593543950335").is_ok());
}

#[test]
fn from_str_skips_separators() {
    assert_eq!(dec("1_000").to_string(), "1000");
    assert_eq!(dec("1_000.000_1").to_string(), "1000.0001");
    assert_eq!(dec("-1__2_").to_string(), "-12");
    assert_eq!(dec("._5").to_string(), "0.5");
}

#[test]
fn from_str_rounds_digits_that_do_not_fit() {
    // Beyond scale 28 the next digit rounds, half up.
    assert_eq!(
        dec("0.00000000000000000000000000001").to_string(),
        "0.0000000000000000000000000000"
    );
    assert_eq!(
        dec("0.00000000000000000000000000005").to_string(),
        "0.0000000000000000000000000001"
    );
    assert_eq!(
        dec("1.00000000000000000000000000049").to_string(),
        "1.0000000000000000000000000005"
    );
    assert_eq!(
        dec("-1.23456789012345678901234567890123").to_string(),
        "-1.2345678901234567890123456789"
    );
    // Beyond 96 bits the next digit rounds; rounding up to 2^96 keeps one digit fewer.
    assert_eq!(
        dec("7.92281625142643375935439503354").to_string(),
        "7.9228162514264337593543950335"
    );
    assert_eq!(
        dec("7.92281625142643375935439503356").to_string(),
        "7.922816251426433759354395034"
    );
    assert_eq!(
        dec("79228162514264337593543950335.4").to_string(),
        "79228162514264337593543950335"
    );
}

#[test]
fn parse_decimal_is_from_str_ok() {
    assert_eq!(parse_decimal("12.50").unwrap().to_string(), "12.50");
    assert!(parse_decimal("twelve").is_none());
}

// ---------------------------------------------------------------------------
// The scientific form.

#[test]
fn scientific_form() {
    assert_eq!(Decimal::zero().to_scientific_string(), "0e0");
    assert_eq!(Decimal::new(0, 5).to_scientific_string(), "0e0");
    assert_eq!(Decimal::new(1234, 2).to_scientific_string(), "1.234e1");
    assert_eq!(Decimal::new(1000, 0).to_scientific_string(), "1e3");
    assert_eq!(Decimal::new(1010, 0).to_scientific_string(), "1.010e3");
    assert_eq!(Decimal::new(-5, 3).to_scientific_string(), "-5e-3");
    assert_eq!(Decimal::new(7, 0).to_scientific_string(), "7e0");
}

#[test]
fn from_scientific_exact_values() {
    assert_eq!(Decimal::from_scientific_exact("1.5e2").unwrap().to_string(), "150");
    assert_eq!(Decimal::from_scientific_exact("1.25e1").unwrap().to_string(), "12.5");
    assert_eq!(Decimal::from_scientific_exact("-5e-3").unwrap().to_string(), "-0.005");
    assert_eq!(Decimal::from_scientific_exact("1E+2").unwrap().to_string(), "100");
    assert_eq!(Decimal::from_scientific_exact("0e99").unwrap().to_string(), "0");
    assert_eq!(Decimal::from_scientific_exact("1e-28").unwrap().scale(), 28);
}

#[test]
fn from_scientific_exact_errors() {
    assert_eq!(Decimal::from_scientific_exact("1e-29").unwrap_err(), DecimalError::ScaleExceedsMaximumPrecision);
    assert_eq!(
        Decimal::from_scientific_exact("1.1e-4294967295").unwrap_err(),
        DecimalError::ScaleExceedsMaximumPrecision
    );
    assert_eq!(Decimal::from_scientific_exact("1e29").unwrap_err(), DecimalError::ExceedsMaximumPossibleValue);
    assert_eq!(
        Decimal::from_scientific_exact("1.1e4294967295").unwrap_err(),
        DecimalError::ExceedsMaximumPossibleValue
    );
    assert_eq!(Decimal::from_scientific_exact("12").unwrap_err(), DecimalError::InvalidFormat);
    assert_eq!(Decimal::from_scientific_exact("1e").unwrap_err(), DecimalError::InvalidFormat);
    assert_eq!(Decimal::from_scientific_exact("e5").unwrap_err(), DecimalError::InvalidFormat);
    assert_eq!(Decimal::from_scientific_exact("1e4294967296").unwrap_err(), DecimalError::InvalidFormat);
    assert_eq!(Decimal::from_scientific_exact("1e2e3").unwrap_err(), DecimalError::InvalidFormat);
}

#[test]
fn scientific_roundtrip_examples() {
    for (n, s) in [(0i64, 0u32), (0, 5), (1, 0), (-1, 9), (1234, 2), (1000, 3), (i64::MAX, 9), (i64::MIN, 0)] {
        let d = Decimal::new(n, s);
        let back = Decimal::from_scientific_exact(&d.to_scientific_string()).unwrap();
        assert!(back == d);
    }
}

// ---------------------------------------------------------------------------
// Multiplication and negation.

#[test]
fn multiplication_adds_scales() {
    assert_eq!(dec("1.5").checked_mul(&dec("2.25")).unwrap().to_string(), "3.375");
    assert_eq!(dec("-0.1").checked_mul(&dec("0.2")).unwrap().to_string(), "-0.02");
    assert_eq!(dec("-3").checked_mul(&dec("0")).unwrap().to_string(), "0");
    assert_eq!(
        dec("100000000000000").checked_mul(&dec("100000000000000")).unwrap().to_string(),
        "10000000000000000000000000000"
    );
}

#[test]
fn multiplication_rounds_beyond_scale_28() {
    // 10^-20 * 10^-20 rounds to zero at scale 28.
    let tiny = Decimal::new(1, 20);
    assert_eq!(tiny.checked_mul(&tiny).unwrap().to_string(), "0.0000000000000000000000000000");
    // Ties go to the even neighbour: 5e-29 -> 0, 1.5e-28 -> 2e-28.
    let tenth = dec("0.1");
    assert!(Decimal::new(5, 28).checked_mul(&tenth).unwrap().is_zero());
    assert_eq!(Decimal::new(15, 28).checked_mul(&tenth).unwrap(), Decimal::new(2, 28));
    // The largest mantissa squared, at scale 28 each, keeps 27 places.
    let big = dec("7.9228162514264337593543950335");
    assert_eq!(big.checked_mul(&big).unwrap().to_string(), "62.771017353866807638357894230");
}

#[test]
fn multiplication_overflows_to_none() {
    let max = dec("79228162514264337593543950335");
    assert!(max.checked_mul(&dec("2")).is_none());
    assert_eq!(
        max.checked_mul(&dec("0.1")).unwrap().to_string(),
        "7922816251426433759354395033.5"
    );
}

#[test]
fn negation_flips_sign_but_not_zero() {
    assert_eq!(dec("1.25").neg().to_string(), "-1.25");
    assert_eq!(dec("-3").neg().to_string(), "3");
    assert!(!dec("0.00").neg().is_sign_negative());
}

// ---------------------------------------------------------------------------
// The natural logarithm.

fn close_to(got: Decimal, want: &str, tolerance: &str) -> bool {
    let diff = got.checked_sub(&dec(want)).unwrap();
    let tol = dec(tolerance);
    diff.le(&tol) && tol.neg().le(&diff)
}

#[test]
fn ln_of_zero_negative_and_one() {
    assert!(Decimal::zero().checked_ln().is_none());
    assert!(Decimal::new(0, 7).checked_ln().is_none());
    assert!(dec("-2").checked_ln().is_none());
    assert!(dec("-0.0001").checked_ln().is_none());
    assert_eq!(dec("1").checked_ln().unwrap(), Decimal::zero());
    assert_eq!(dec("1.000").checked_ln().unwrap(), Decimal::zero());
}

#[test]
fn ln_defined_for_every_positive_value() {
    let mantissas: [i64; 6] = [1, 2, 9, 367_879, 999_999_999_999, i64::MAX];
    for m in mantissas {
        for scale in [0u32, 1, 5, 14, 27, 28] {
            let d = Decimal::new(m, scale);
            assert!(d.checked_ln().is_some(), "ln({}) must exist", d.to_string());
            assert!(d.neg().checked_ln().is_none());
        }
    }
    assert!(dec("79228162514264337593543950335").checked_ln().is_some());
    assert!(dec("0.0000000000000000000000000001").checked_ln().is_some());
}

#[test]
fn ln_approximates_known_values() {
    let tol = "0.00000000000000000001";
    assert!(close_to(dec("2").checked_ln().unwrap(), "0.6931471805599453094172321215", tol));
    assert!(close_to(dec("10").checked_ln().unwrap(), "2.3025850929940456840179914547", tol));
    assert!(close_to(dec("0.1").checked_ln().unwrap(), "-2.3025850929940456840179914547", tol));
    assert!(close_to(
        dec("2.7182818284590452353602874714").checked_ln().unwrap(),
        "1",
        tol
    ));
}

#[test]
fn ln_at_the_ends_of_the_range() {
    let tol = "0.000000000000000001";
    assert!(close_to(
        dec("79228162514264337593543950335").checked_ln().unwrap(),
        "66.54212933375474970405428366",
        tol
    ));
    assert!(close_to(
        Decimal::new(1, 28).checked_ln().unwrap(),
        "-64.47238260383327915250376073",
        tol
    ));
}

// ---------------------------------------------------------------------------
// The properties.

#[test]
fn properties_discard_out_of_domain_inputs() {
    assert!(is_discard(property_abs_sub_difference(1, 11, 1, 0)));
    assert!(is_discard(property_abs_sub_difference(1, 0, 1, 11)));
    assert!(is_discard(property_is_integer_matches_string(1, 21)));
}

#[test]
fn properties_pass_on_extremes() {
    assert!(is_pass(property_abs_sub_difference(i64::MAX, 0, i64::MIN, 10)));
    assert!(is_pass(property_abs_sub_difference(i64::MIN, 10, i64::MAX, 0)));
    assert!(is_pass(property_is_integer_matches_string(i64::MIN, 20)));
    assert!(is_pass(property_round_dp_preserves_when_dp_exceeds_scale(i64::MIN, 255, 255)));
    assert!(is_pass(property_scientific_fmt_roundtrip(0, 0)));
    assert!(is_pass(property_scientific_fmt_roundtrip(0, 5)));
    assert!(is_pass(property_scientific_fmt_roundtrip(i64::MIN, 9)));
    assert!(is_pass(property_from_scientific_no_panic(0, 1, 1)));
    assert!(is_pass(property_from_scientific_no_panic(3, 7, 0)));
    assert!(is_pass(property_checked_div_no_panic(-79228157791897, 15, 1, 0, 0)));
    assert!(is_pass(property_checked_div_no_panic(1, 3, 0, 2, 1)));
    assert!(is_pass(property_checked_div_no_panic(i64::MAX, 0, 1, 0, 2)));
    assert!(is_pass(property_checked_div_no_panic(5, 0, 0, 0, 3)));
    assert!(is_pass(property_checked_ln_no_panic(0, 0)));
    assert!(is_pass(property_checked_ln_no_panic(-7, 3)));
    assert!(is_pass(property_checked_ln_no_panic(i64::MAX, 9)));
    assert!(is_pass(property_checked_ln_no_panic(1, 9)));
}

#[test]
fn to_opt_maps_outcomes() {
    assert_eq!(to_opt(PropertyResult::Pass), Some(true));
    assert_eq!(to_opt(PropertyResult::Fail(String::from("x"))), Some(false));
    assert_eq!(to_opt(PropertyResult::Discard), None);
}
