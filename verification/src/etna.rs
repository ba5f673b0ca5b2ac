//! Property checks over decimals. Each `property_*` takes plain inputs, builds the decimals
//! it needs and reports whether the property held (`Pass`), did not (`Fail`, with a
//! message), or does not apply to the inputs (`Discard`).
use vstd::prelude::*;
use vstd::string::StringExecFns;
use vstd::arithmetic::div_mod::lemma_div_is_ordered;
use crate::arith::{pow10, lemma_pow10_pos, lemma_pow10_values,
    lemma_pow10_monotone, lemma_round_half_even_bounds, lemma_mul_pow10_div};
use crate::model::{
    DecimalModel, signed_model, fits_after_dropping, common_scale, difference_numerator,
    sub_model,
};
use crate::decimal::Decimal;
use crate::digits::u128_digits;
use crate::ops::opt_model;
use crate::bounds::lemma_fewest_dropped_exists;
use crate::parse::{parse_rounded_model, lemma_exact_text_reads_the_same};
use crate::text::{
    DecimalError, fraction_is_zero, parse_decimal_model, lemma_is_integer_matches_display,
    lemma_scientific_roundtrip, chars_string, str_chars,
};

verus! {

/// The outcome of a property check.
pub enum PropertyResult {
    /// The property held.
    Pass,
    /// The property did not hold; the message says how.
    Fail(String),
    /// The inputs are outside the property's domain.
    Discard,
}

/// `Some(true)` for a pass, `Some(false)` for a failure, `None` for a discard.
pub fn to_opt(r: PropertyResult) -> (o: Option<bool>)
    ensures
        o == (match r {
            PropertyResult::Pass => Some(true),
            PropertyResult::Fail(_) => Some(false),
            PropertyResult::Discard => None,
        }),
{
    match r {
        PropertyResult::Pass => Some(true),
        PropertyResult::Fail(_) => Some(false),
        PropertyResult::Discard => None,
    }
}

// ---------------------------------------------------------------------------
// Message helpers.

/// The decimal digits of `n`.
pub(crate) fn u128_string(n: u128) -> (s: String)
    ensures
        s@ == crate::digits::nat_digits(n as nat),
{
    let v = u128_digits(n);
    chars_string(&v)
}

/// `"true"` or `"false"`.
fn bool_str(b: bool) -> (s: &'static str)
    ensures
        s@ == (if b { "true"@ } else { "false"@ }),
{
    if b {
        "true"
    } else {
        "false"
    }
}

// ---------------------------------------------------------------------------
// Facts the properties rest on.

/// The difference of two decimals built from `i64` mantissas at scales of at most 10 is
/// always representable.
proof fn lemma_small_difference_fits(a: DecimalModel, b: DecimalModel)
    requires
        a.mantissa <= 0x8000_0000_0000_0000,
        b.mantissa <= 0x8000_0000_0000_0000,
        a.scale <= 10,
        b.scale <= 10,
    ensures
        sub_model(a, b) is Some,
{
    let s = common_scale(a, b);
    let num = difference_numerator(a, b);
    let n = (if num < 0 { -num } else { num }) as nat;
    let p = pow10(s);
    let pa = pow10((s - a.scale) as nat);
    let pb = pow10((s - b.scale) as nat);
    lemma_pow10_monotone((s - a.scale) as nat, s);
    lemma_pow10_monotone((s - b.scale) as nat, s);
    lemma_pow10_pos(s);
    lemma_pow10_pos((s - a.scale) as nat);
    lemma_pow10_pos((s - b.scale) as nat);
    let c: nat = 0x1_0000_0000_0000_0000;
    assert(n <= c * p) by (nonlinear_arith)
        requires
            num == a.signed() * pa - b.signed() * pb,
            n == (if num < 0 { -num } else { num }),
            -0x8000_0000_0000_0000 <= a.signed() <= 0x8000_0000_0000_0000,
            -0x8000_0000_0000_0000 <= b.signed() <= 0x8000_0000_0000_0000,
            0 < pa <= p,
            0 < pb <= p,
            c == 0x1_0000_0000_0000_0000,
    ;
    lemma_div_is_ordered(n as int, (c * p) as int, p as int);
    lemma_mul_pow10_div(c, s);
    lemma_round_half_even_bounds(n, p);
    lemma_pow10_values();
    assert(fits_after_dropping(n, s));
    lemma_fewest_dropped_exists(n, 0, s, s);
}

/// There is no `'.'` in `s`, or only `'0'` follows the first `'.'`.
fn fraction_is_zero_exec(s: &Vec<char>) -> (b: bool)
    ensures
        b == fraction_is_zero(s@),
{
    let mut i: usize = 0;
    while i < s.len() && s[i] != '.'
        invariant
            i <= s.len(),
            forall|k: int| 0 <= k < i ==> s@[k] != '.',
        decreases s.len() - i,
    {
        i = i + 1;
    }
    if i == s.len() {
        return true;
    }
    let dot = i;
    let mut j: usize = dot + 1;
    while j < s.len()
        invariant
            dot < j <= s.len(),
            s@[dot as int] == '.',
            forall|k: int| 0 <= k < dot ==> s@[k] != '.',
            forall|k: int| dot < k < j ==> s@[k] == '0',
        decreases s.len() - j,
    {
        if s[j] != '0' {
            return false;
        }
        j = j + 1;
    }
    proof {
        assert forall|a: int| 0 <= a < s@.len() && s@[a] == '.' implies (forall|k: int|
            a < k < s@.len() ==> #[trigger] s@[k] == '0') by {
            if a > dot {
                assert(s@[a] == '0');
            }
        }
    }
    true
}

// ---------------------------------------------------------------------------
// The properties.

/// `abs_sub(a, b)` equals `max(a - b, 0)`: the difference when `a > b`, zero otherwise.
/// Inputs with a scale above 10 are discarded.
pub fn property_abs_sub_difference(a_num: i64, a_scale: u32, b_num: i64, b_scale: u32) -> (r:
    PropertyResult)
    ensures
        (a_scale > 10 || b_scale > 10) <==> r is Discard,
        !(a_scale > 10 || b_scale > 10) <==> r is Pass,
{
    if a_scale > 10 || b_scale > 10 {
        return PropertyResult::Discard;
    }
    let a = Decimal::new(a_num, a_scale);
    let b = Decimal::new(b_num, b_scale);
    a.ensure_representable();
    b.ensure_representable();
    proof {
        lemma_small_difference_fits(a@, b@);
    }
    let got = a.abs_sub(&b);
    let expected = if a.le(&b) {
        Decimal::zero()
    } else {
        a.sub(&b)
    };
    if got == expected {
        PropertyResult::Pass
    } else {
        let mut m = String::new();
        m.append("abs_sub(");
        m.append(a.to_string().as_str());
        m.append(", ");
        m.append(b.to_string().as_str());
        m.append(") = ");
        m.append(got.to_string().as_str());
        m.append(", expected ");
        m.append(expected.to_string().as_str());
        PropertyResult::Fail(m)
    }
}

/// `is_integer()` agrees with the plain form: true exactly when no digit other than `0`
/// follows the point. Inputs with a scale above 20 are discarded.
pub fn property_is_integer_matches_string(num: i64, scale: u32) -> (r: PropertyResult)
    ensures
        scale > 20 <==> r is Discard,
        scale <= 20 <==> r is Pass,
{
    if scale > 20 {
        return PropertyResult::Discard;
    }
    let d = Decimal::new(num, scale);
    let s = d.to_string();
    let chars = str_chars(s.as_str());
    let expected = fraction_is_zero_exec(&chars);
    let got = d.is_integer();
    d.ensure_representable();
    proof {
        lemma_is_integer_matches_display(d@);
    }
    if got == expected {
        PropertyResult::Pass
    } else {
        let mut m = String::new();
        m.append("is_integer(");
        m.append(s.as_str());
        m.append(") = ");
        m.append(bool_str(got));
        m.append(", expected ");
        m.append(bool_str(expected));
        m.append(" (string: ");
        m.append(s.as_str());
        m.append(")");
        PropertyResult::Fail(m)
    }
}

/// `from_i128(n)` never panics, on any `i64` input widened to `i128`.
pub fn property_from_i128_no_panic(n: i64) -> (r: PropertyResult)
    ensures
        r is Pass,
{
    let big = n as i128;
    let _ = Decimal::from_i128(big);
    PropertyResult::Pass
}

/// `from_i128` never panics on the extremes of `i128`; all of them are out of range.
pub fn property_from_i128_extremes(choice: u8) -> (r: PropertyResult)
    ensures
        r is Pass,
{
    let big: i128 = match choice % 6 {
        0 => i128::MIN,
        1 => i128::MIN + 1,
        2 => i128::MAX,
        3 => -0x1_0000_0000_0000_0000_0000_0000i128,
        4 => 0x1_0000_0000_0000_0000_0000_0000i128,
        _ => -(choice as i128) * 10_000_000_000_000_000_000_000_000_000i128,
    };
    let _ = Decimal::from_i128(big);
    PropertyResult::Pass
}

/// `round_dp(dp)` leaves a decimal unchanged, scale included, when `dp` is at least its
/// scale.
pub fn property_round_dp_preserves_when_dp_exceeds_scale(num: i64, scale: u8, extra_dp: u8) -> (r:
    PropertyResult)
    ensures
        r is Pass,
{
    let scale = scale as u32 % 28;
    let dp = scale + (extra_dp as u32 % 12);
    let d = Decimal::new(num, scale);
    let rounded = d.round_dp(dp);
    if rounded == d && rounded.scale() == scale {
        PropertyResult::Pass
    } else {
        let mut m = String::new();
        m.append("round_dp(");
        m.append(d.to_string().as_str());
        m.append(", dp=");
        m.append(u128_string(dp as u128).as_str());
        m.append(") = ");
        m.append(rounded.to_string().as_str());
        m.append(" (scale ");
        m.append(u128_string(rounded.scale() as u128).as_str());
        m.append("), expected ");
        m.append(d.to_string().as_str());
        m.append(" (scale ");
        m.append(u128_string(scale as u128).as_str());
        m.append(")");
        PropertyResult::Fail(m)
    }
}

/// `checked_ln` never panics, whatever the decimal; it answers `None` for zero and for
/// negative numbers.
pub fn property_checked_ln_no_panic(num: i64, scale: u8) -> (r: PropertyResult)
    ensures
        r is Pass,
{
    let scale = scale as u32 % 10;
    let d = Decimal::new(num, scale);
    let _ = d.checked_ln();
    PropertyResult::Pass
}

/// The decimal a plain text stands for, if any.
pub fn parse_decimal(s: &str) -> (d: Option<Decimal>)
    ensures
        opt_model(d) == (match parse_rounded_model(s@) {
            Ok(m) => Some(m),
            Err(_) => None,
        }),
{
    match Decimal::from_str(s) {
        Ok(d) => Some(d),
        Err(_) => None,
    }
}

/// The scientific form of every decimal reads back, exactly, as the same number.
pub fn property_scientific_fmt_roundtrip(num: i64, scale: u8) -> (r: PropertyResult)
    ensures
        r is Pass,
{
    let scale = scale as u32 % 10;
    let d = Decimal::new(num, scale);
    let s = d.to_scientific_string();
    let parsed = Decimal::from_scientific_exact(s.as_str());
    d.ensure_representable();
    proof {
        lemma_scientific_roundtrip(d@);
    }
    match parsed {
        Ok(p) => {
            if p == d {
                PropertyResult::Pass
            } else {
                let mut m = String::new();
                m.append("format(\"{:e}\", ");
                m.append(d.to_string().as_str());
                m.append(") = \"");
                m.append(s.as_str());
                m.append("\", re-parses to ");
                m.append(p.to_string().as_str());
                m.append(" (!= ");
                m.append(d.to_string().as_str());
                m.append(")");
                PropertyResult::Fail(m)
            }
        },
        Err(e) => {
            let mut m = String::new();
            m.append("format(\"{:e}\", ");
            m.append(d.to_string().as_str());
            m.append(") = \"");
            m.append(s.as_str());
            m.append("\", fails to re-parse: ");
            m.append(e.description());
            PropertyResult::Fail(m)
        },
    }
}

/// `from_scientific_exact` never panics, even on exponents near `u32::MAX`.
pub fn property_from_scientific_no_panic(exp_bump: u8, base_digit: u8, neg_exp: u8) -> (r:
    PropertyResult)
    ensures
        r is Pass,
{
    let exp_val: u32 = u32::MAX - (exp_bump as u32 % 32);
    let negative = neg_exp & 1 == 1;
    let digit = (base_digit % 10) as u128;
    let mut v: Vec<char> = Vec::new();
    let c = crate::digits::digit_to_char(digit);
    v.push(c);
    v.push('.');
    v.push(c);
    v.push('e');
    if negative {
        v.push('-');
    }
    let e = u128_digits(exp_val as u128);
    crate::text::append_chars(&mut v, &e);
    let s = chars_string(&v);
    let _ = Decimal::from_scientific_exact(s.as_str());
    PropertyResult::Pass
}

/// The text `-79228157791897.854723898738431` is a decimal.
proof fn lemma_wide_dividend_text_exact()
    ensures
        parse_decimal_model("-79228157791897.854723898738431"@) == Ok::<DecimalModel, DecimalError>(
            signed_model(true, 79228157791897854723898738431, 15),
        ),
{
    reveal_strlit("-79228157791897.854723898738431");
    let s = "-79228157791897.854723898738431"@;
    let b = s.skip(1);
    assert(crate::text::split_sign(s) == (true, b));
    assert(crate::text::is_point_split(b, 14)) by {
        assert forall|i: int| 0 <= i < b.take(14).len() implies crate::digits::is_digit(
            #[trigger] b.take(14)[i],
        ) by {}
        assert forall|i: int| 0 <= i < b.skip(15).len() implies crate::digits::is_digit(
            #[trigger] b.skip(15)[i],
        ) by {}
    }
    crate::text::lemma_body_digits_point(b, 14);
    let d = b.take(14) + b.skip(15);
    assert(d =~= seq![
        '7', '9', '2', '2', '8', '1', '5', '7', '7', '9', '1', '8', '9', '7', '8',
        '5', '4', '7', '2', '3', '8', '9', '8', '7', '3', '8', '4', '3', '1',
    ]);
    reveal_with_fuel(crate::digits::digits_value, 30);
    assert(crate::digits::digits_value(d) == 79228157791897854723898738431);
    lemma_pow10_values();
}

/// The text -79228157791897.854723898738431 is read by `from_str` as a decimal.
proof fn lemma_wide_dividend_text()
    ensures
        parse_rounded_model("-79228157791897.854723898738431"@) == Ok::<DecimalModel, DecimalError>(
            signed_model(true, 79228157791897854723898738431, 15),
        ),
{
    lemma_wide_dividend_text_exact();
    reveal_strlit("-79228157791897.854723898738431");
    let t = "-79228157791897.854723898738431"@;
    assert forall|i: int| 0 <= i < t.len() implies t[i] != '_' by {}
    lemma_exact_text_reads_the_same(t);
}

/// The text `184512476.73336922111` is a decimal.
proof fn lemma_divisor_text_exact()
    ensures
        parse_decimal_model("184512476.73336922111"@) == Ok::<DecimalModel, DecimalError>(
            signed_model(false, 18451247673336922111, 11),
        ),
{
    reveal_strlit("184512476.73336922111");
    let b = "184512476.73336922111"@;
    assert(crate::text::split_sign(b) == (false, b));
    assert(crate::text::is_point_split(b, 9)) by {
        assert forall|i: int| 0 <= i < b.take(9).len() implies crate::digits::is_digit(
            #[trigger] b.take(9)[i],
        ) by {}
        assert forall|i: int| 0 <= i < b.skip(10).len() implies crate::digits::is_digit(
            #[trigger] b.skip(10)[i],
        ) by {}
    }
    crate::text::lemma_body_digits_point(b, 9);
    let d = b.take(9) + b.skip(10);
    assert(d =~= seq![
        '1', '8', '4', '5', '1', '2', '4', '7', '6', '7', '3', '3', '3', '6', '9',
        '2', '2', '1', '1', '1',
    ]);
    reveal_with_fuel(crate::digits::digits_value, 21);
    assert(crate::digits::digits_value(d) == 18451247673336922111);
    lemma_pow10_values();
}

/// The text 184512476.73336922111 is read by `from_str` as a decimal.
proof fn lemma_divisor_text()
    ensures
        parse_rounded_model("184512476.73336922111"@) == Ok::<DecimalModel, DecimalError>(
            signed_model(false, 18451247673336922111, 11),
        ),
{
    lemma_divisor_text_exact();
    reveal_strlit("184512476.73336922111");
    let t = "184512476.73336922111"@;
    assert forall|i: int| 0 <= i < t.len() implies t[i] != '_' by {}
    lemma_exact_text_reads_the_same(t);
}

/// The text `0.00000000001` is a decimal.
proof fn lemma_tiny_divisor_text_exact()
    ensures
        parse_decimal_model("0.00000000001"@) == Ok::<DecimalModel, DecimalError>(
            signed_model(false, 1, 11),
        ),
{
    reveal_strlit("0.00000000001");
    let b = "0.00000000001"@;
    assert(crate::text::split_sign(b) == (false, b));
    assert(crate::text::is_point_split(b, 1)) by {
        assert(crate::digits::all_digits(b.take(1)));
        assert forall|i: int| 0 <= i < b.skip(2).len() implies crate::digits::is_digit(
            #[trigger] b.skip(2)[i],
        ) by {}
    }
    crate::text::lemma_body_digits_point(b, 1);
    let d = b.take(1) + b.skip(2);
    assert(d =~= seq!['0', '0', '0', '0', '0', '0', '0', '0', '0', '0', '0', '1']);
    reveal_with_fuel(crate::digits::digits_value, 13);
    assert(crate::digits::digits_value(d) == 1);
    lemma_pow10_values();
}

/// The text 0.00000000001 is read by `from_str` as a decimal.
proof fn lemma_tiny_divisor_text()
    ensures
        parse_rounded_model("0.00000000001"@) == Ok::<DecimalModel, DecimalError>(
            signed_model(false, 1, 11),
        ),
{
    lemma_tiny_divisor_text_exact();
    reveal_strlit("0.00000000001");
    let t = "0.00000000001"@;
    assert forall|i: int| 0 <= i < t.len() implies t[i] != '_' by {}
    lemma_exact_text_reads_the_same(t);
}

/// `checked_div` never panics; it returns `None` when the quotient does not fit. The
/// operands include the wide dividend and divisor that exercise long division.
pub fn property_checked_div_no_panic(a_num: i64, a_scale: u8, b_num: i64, b_scale: u8, mix: u8) -> (r:
    PropertyResult)
    ensures
        r is Pass,
{
    let a_scale = a_scale as u32 % 15;
    let b_scale = b_scale as u32 % 12;
    proof {
        lemma_wide_dividend_text();
        lemma_divisor_text();
        lemma_tiny_divisor_text();
    }
    let (a, b) = match mix % 4 {
        0 => (
            Decimal::from_str("-79228157791897.854723898738431").unwrap(),
            Decimal::from_str("184512476.73336922111").unwrap(),
        ),
        1 => (
            Decimal::from_str("-79228157791897.854723898738431").unwrap(),
            Decimal::new(if b_num > 1 { b_num } else { 1 }, b_scale),
        ),
        2 => (Decimal::new(a_num, a_scale), Decimal::from_str("0.00000000001").unwrap()),
        _ => (Decimal::new(a_num, a_scale), Decimal::new(b_num, b_scale)),
    };
    let _ = a.checked_div(&b);
    PropertyResult::Pass
}

} // verus!
