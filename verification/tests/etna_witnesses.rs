// Deterministic witness tests: each calls a `property_<name>` directly with frozen inputs.

use rust_decimal::etna::{
    property_abs_sub_difference, property_checked_ln_no_panic, property_from_i128_extremes,
    property_from_i128_no_panic,
    property_is_integer_matches_string, property_round_dp_preserves_when_dp_exceeds_scale,
    PropertyResult,
};

fn expect_pass(r: PropertyResult, what: &str) {
    match r {
        PropertyResult::Pass => (),
        PropertyResult::Fail(m) => panic!("{what}: property failed: {m}"),
        PropertyResult::Discard => panic!("{what}: unexpected discard"),
    }
}

// abs_sub(a, b) is the difference when a > b: for a=123, b=122 it is 1, not 123.
#[test]
fn witness_abs_sub_difference_case_123_122() {
    expect_pass(
        property_abs_sub_difference(123, 0, 122, 0),
        "abs_sub(123, 122) must equal 1",
    );
}

#[test]
fn witness_abs_sub_difference_case_neg123_neg124() {
    // -123 - (-124) = 1, but |-123| = 123.
    expect_pass(
        property_abs_sub_difference(-123, 0, -124, 0),
        "abs_sub(-123, -124) must equal 1",
    );
}

// is_integer must see a non-zero digit far past the first nine fractional digits.
#[test]
fn witness_is_integer_matches_string_case_scale_10_nonzero_tail() {
    // 0.4000000000 -> scale = 10; not a whole number.
    expect_pass(
        property_is_integer_matches_string(4_000_000_000, 10),
        "is_integer(0.4000000000) must be false",
    );
}

#[test]
fn witness_is_integer_matches_string_case_scale_19_nonzero_tail() {
    // 0.4000000000000000001, scale 19.
    expect_pass(
        property_is_integer_matches_string(4_000_000_000_000_000_001, 19),
        "is_integer(0.4000000000000000001) must be false",
    );
}

// from_i128 must not panic on any i128 value, i128::MIN included.
#[test]
fn witness_from_i128_no_panic_case_i128_min() {
    expect_pass(
        property_from_i128_extremes(0),
        "from_i128(i128::MIN) must not panic",
    );
}

#[test]
fn witness_from_i128_no_panic_case_i128_min_plus_1() {
    expect_pass(
        property_from_i128_extremes(1),
        "from_i128(i128::MIN + 1) must not panic",
    );
}

// Small i64 value round-trips; kept as a sanity check for the positive case.
#[test]
fn witness_from_i128_no_panic_case_small_positive() {
    expect_pass(
        property_from_i128_no_panic(42),
        "from_i128(42) must not panic",
    );
}

// Rounding to more places than a decimal has keeps it as it is, scale included.
#[test]
fn witness_round_dp_preserves_case_zero_scale_28_dp_32() {
    // scale=28, dp = 28 + 4 = 32.
    expect_pass(
        property_round_dp_preserves_when_dp_exceeds_scale(0, 28, 4),
        "round_dp(0e-28, 32) must preserve the input",
    );
}

#[test]
fn witness_round_dp_preserves_case_small_scale_4_dp_10() {
    expect_pass(
        property_round_dp_preserves_when_dp_exceeds_scale(1234, 4, 6),
        "round_dp(0.1234, 10) must return 0.1234 with scale 4",
    );
}

// checked_ln must not panic; zero is answered with None rather than an endless reduction.
#[test]
fn witness_checked_ln_no_panic_case_zero() {
    expect_pass(
        property_checked_ln_no_panic(0, 0),
        "Decimal::ZERO.checked_ln() must not panic",
    );
}

#[test]
fn witness_checked_ln_no_panic_case_one() {
    expect_pass(
        property_checked_ln_no_panic(1, 0),
        "Decimal::ONE.checked_ln() must not panic",
    );
}
