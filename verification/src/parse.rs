//! Reading the plain form as `from_str` does: `_` separators after the first character
//! of the body are skipped, and fraction digits beyond what fits (a scale of 28, a
//! 96-bit mantissa) are rounded off at the first digit that does not fit, half up.
use vstd::prelude::*;
use crate::arith::{mantissa_bound, lemma_pow10_values};
use crate::digits::{digits_value, digit_value, all_digits, char_to_digit};
use crate::model::{DecimalModel, MAX_SCALE, signed_model};
use crate::decimal::Decimal;
use crate::text::{
    DecimalError, split_sign, body_digits, parse_decimal_model, result_model, sign_at, split_body,
    lemma_body_digits_are_digits, lemma_digits_prefix_le, str_chars, display_chars,
    is_numeric_char, lemma_text_forms_numeric, lemma_display_parses_exactly,
};

verus! {

/// `s` with every `_` removed.
pub open spec fn without_separators(s: Seq<char>) -> Seq<char>
    decreases s.len(),
{
    if s.len() == 0 {
        s
    } else if s.last() == '_' {
        without_separators(s.drop_last())
    } else {
        without_separators(s.drop_last()).push(s.last())
    }
}

/// How many of the digits `ds` are kept, counting from `k`, when the first `whole` of
/// them come before the point: a further digit is kept while the scale stays at most 28
/// and the mantissa below `2^96`.
pub open spec fn kept_digits(ds: Seq<char>, whole: nat, k: nat) -> nat
    decreases ds.len() - k,
{
    if k >= ds.len() || k >= whole + MAX_SCALE || digits_value(ds.take((k + 1) as int)) >= mantissa_bound() {
        k
    } else {
        kept_digits(ds, whole, k + 1)
    }
}

/// `m` at scale `scale`, rounded at the next digit `next` (when there is one) half up;
/// when rounding up leaves 96 bits, one digit fewer is kept.
pub open spec fn round_at_digit(negative: bool, m: nat, scale: nat, next: Option<nat>) -> Result<
    DecimalModel,
    DecimalError,
> {
    match next {
        None => Ok(signed_model(negative, m, scale)),
        Some(d) => if d < 5 {
            Ok(signed_model(negative, m, scale))
        } else if m + 1 < mantissa_bound() {
            Ok(signed_model(negative, m + 1, scale))
        } else if scale == 0 {
            Err(DecimalError::ExceedsMaximumPossibleValue)
        } else {
            Ok(signed_model(negative, (m + 5) / 10, (scale - 1) as nat))
        },
    }
}

/// The decimal spelled by the digits `ds`, the last `scale` of them after the point:
/// the whole part must fit in 96 bits, and fraction digits that do not fit are rounded
/// off.
pub open spec fn rounded_from_digits(negative: bool, ds: Seq<char>, scale: nat) -> Result<
    DecimalModel,
    DecimalError,
> {
    let whole = (ds.len() - scale) as nat;
    if digits_value(ds.take(whole as int)) >= mantissa_bound() {
        Err(DecimalError::ExceedsMaximumPossibleValue)
    } else {
        let k = kept_digits(ds, whole, whole);
        let next = if k < ds.len() {
            Some(digit_value(ds[k as int]))
        } else {
            None
        };
        round_at_digit(negative, digits_value(ds.take(k as int)), (k - whole) as nat, next)
    }
}

/// The decimal `from_str` reads from a plain text: an optional sign, then digits with at
/// most one point and at least one digit, where `_` may stand anywhere but first and is
/// skipped. The whole part must fit in 96 bits; fraction digits that do not fit are
/// rounded off.
pub open spec fn parse_rounded_model(s: Seq<char>) -> Result<DecimalModel, DecimalError> {
    let (negative, b) = split_sign(s);
    if b.len() == 0 || b[0] == '_' {
        Err(DecimalError::InvalidFormat)
    } else {
        match body_digits(without_separators(b)) {
            None => Err(DecimalError::InvalidFormat),
            Some((ds, scale)) => rounded_from_digits(negative, ds, scale),
        }
    }
}

/// The value of one more digit.
proof fn lemma_take_next(ds: Seq<char>, k: int)
    requires
        0 <= k < ds.len(),
    ensures
        digits_value(ds.take(k + 1)) == digits_value(ds.take(k)) * 10 + digit_value(ds[k]),
{
    assert(ds.take(k + 1).drop_last() =~= ds.take(k));
}

/// Copies `v[lo..hi]` without its `_` characters.
fn copy_without_separators(v: &Vec<char>, lo: usize, hi: usize) -> (w: Vec<char>)
    requires
        lo <= hi <= v.len(),
    ensures
        w@ == without_separators(v@.subrange(lo as int, hi as int)),
{
    let mut w: Vec<char> = Vec::new();
    let mut i: usize = lo;
    while i < hi
        invariant
            lo <= i <= hi <= v.len(),
            w@ == without_separators(v@.subrange(lo as int, i as int)),
        decreases hi - i,
    {
        proof {
            assert(v@.subrange(lo as int, i + 1).drop_last() =~= v@.subrange(lo as int, i as int));
        }
        if v[i] != '_' {
            w.push(v[i]);
        }
        i = i + 1;
    }
    w
}

const MANTISSA_MAX: u128 = 0xffff_ffff_ffff_ffff_ffff_ffff;

/// Parses `v` as `from_str` does.
pub(crate) fn parse_rounded(v: &Vec<char>) -> (r: Result<Decimal, DecimalError>)
    ensures
        result_model(r) == parse_rounded_model(v@),
{
    proof {
        assert(v@.subrange(0, v@.len() as int) =~= v@);
        lemma_pow10_values();
    }
    let (negative, start) = sign_at(v, 0, v.len());
    if start == v.len() || v[start] == '_' {
        return Err(DecimalError::InvalidFormat);
    }
    let w = copy_without_separators(v, start, v.len());
    let (ds, scale) = match split_body(&w, 0, w.len()) {
        None => {
            proof {
                assert(w@.subrange(0, w@.len() as int) =~= w@);
            }
            return Err(DecimalError::InvalidFormat);
        },
        Some(p) => p,
    };
    proof {
        assert(w@.subrange(0, w@.len() as int) =~= w@);
        lemma_body_digits_are_digits(w@);
    }
    round_digits(negative, &ds, scale)
}

/// The value of the first `whole` digits of `ds`, when it is below `2^96`.
fn whole_value(ds: &Vec<char>, whole: usize) -> (r: Option<u128>)
    requires
        whole <= ds.len(),
        all_digits(ds@),
    ensures
        r is Some <==> digits_value(ds@.take(whole as int)) < mantissa_bound(),
        r matches Some(m) ==> m == digits_value(ds@.take(whole as int)),
{
    proof {
        lemma_pow10_values();
    }
    let mut m: u128 = 0;
    let mut k: usize = 0;
    while k < whole
        invariant
            k <= whole <= ds.len(),
            all_digits(ds@),
            m == digits_value(ds@.take(k as int)),
            m < mantissa_bound(),
        decreases whole - k,
    {
        proof {
            lemma_take_next(ds@, k as int);
        }
        let d = char_to_digit(ds[k]);
        if m > (MANTISSA_MAX - d) / 10 {
            proof {
                assert(m * 10 + d > MANTISSA_MAX);
                assert(ds@.take(whole as int).take(k + 1) =~= ds@.take(k + 1));
                lemma_digits_prefix_le(ds@.take(whole as int), k + 1);
            }
            return None;
        }
        m = m * 10 + d;
        k = k + 1;
    }
    proof {
        assert(ds@.take(whole as int) =~= ds@.take(k as int));
    }
    Some(m)
}

/// The decimal spelled by the digits `ds`, the last `scale` of them after the point.
fn round_digits(negative: bool, ds: &Vec<char>, scale: usize) -> (r: Result<Decimal, DecimalError>)
    requires
        scale <= ds.len(),
        all_digits(ds@),
    ensures
        result_model(r) == rounded_from_digits(negative, ds@, scale as nat),
{
    proof {
        lemma_pow10_values();
    }
    let whole = ds.len() - scale;
    let mut m = match whole_value(ds, whole) {
        None => {
            return Err(DecimalError::ExceedsMaximumPossibleValue);
        },
        Some(m) => m,
    };
    let mut k: usize = whole;
    // The fraction digits that fit.
    while k < ds.len() && k - whole < 28
        invariant
            whole <= k <= ds.len(),
            k - whole <= 28,
            whole == ds@.len() - scale,
            all_digits(ds@),
            m == digits_value(ds@.take(k as int)),
            m < mantissa_bound(),
            kept_digits(ds@, whole as nat, whole as nat) == kept_digits(ds@, whole as nat, k as nat),
        ensures
            whole <= k <= ds.len(),
            k - whole <= 28,
            m == digits_value(ds@.take(k as int)),
            m < mantissa_bound(),
            kept_digits(ds@, whole as nat, whole as nat) == k as nat,
        decreases ds.len() - k,
    {
        proof {
            lemma_take_next(ds@, k as int);
        }
        let d = char_to_digit(ds[k]);
        if m > (MANTISSA_MAX - d) / 10 {
            proof {
                assert(m * 10 + d > MANTISSA_MAX);
            }
            break;
        }
        m = m * 10 + d;
        k = k + 1;
    }
    let frac = (k - whole) as u32;
    if k == ds.len() {
        return Ok(Decimal::from_parts(negative, m, frac));
    }
    let d = char_to_digit(ds[k]);
    if d < 5 {
        Ok(Decimal::from_parts(negative, m, frac))
    } else if m < MANTISSA_MAX {
        Ok(Decimal::from_parts(negative, m + 1, frac))
    } else if frac == 0 {
        Err(DecimalError::ExceedsMaximumPossibleValue)
    } else {
        Ok(Decimal::from_parts(negative, (m + 5) / 10, frac - 1))
    }
}

impl Decimal {
    /// Parses the plain form: an optional `-` or `+`, then digits with at most one `.` and
    /// at least one digit, with `_` separators skipped after the first character. Fraction
    /// digits beyond a scale of 28 or a 96-bit mantissa are rounded off half up; a whole
    /// part beyond 96 bits is an error.
    pub fn from_str(s: &str) -> (r: Result<Decimal, DecimalError>)
        ensures
            result_model(r) == parse_rounded_model(s@),
    {
        let v = str_chars(s);
        parse_rounded(&v)
    }
}

// ---------------------------------------------------------------------------
// Texts that need no separator skipping and no rounding.

/// Removing separators from a text without any leaves it as it is.
proof fn lemma_no_separators(b: Seq<char>)
    requires
        forall|i: int| 0 <= i < b.len() ==> b[i] != '_',
    ensures
        without_separators(b) == b,
    decreases b.len(),
{
    if b.len() > 0 {
        lemma_no_separators(b.drop_last());
        assert(b.drop_last().push(b.last()) =~= b);
    }
}

/// When every digit fits, all of them are kept.
proof fn lemma_all_kept(ds: Seq<char>, whole: nat, k: nat)
    requires
        whole <= k <= ds.len(),
        ds.len() <= whole + MAX_SCALE,
        digits_value(ds) < mantissa_bound(),
    ensures
        kept_digits(ds, whole, k) == ds.len(),
    decreases ds.len() - k,
{
    if k < ds.len() {
        lemma_digits_prefix_le(ds, (k + 1) as int);
        lemma_all_kept(ds, whole, k + 1);
    }
}

/// A text without `_` that the exact parser accepts is read the same way, with nothing
/// rounded.
pub proof fn lemma_exact_text_reads_the_same(s: Seq<char>)
    requires
        forall|i: int| 0 <= i < s.len() ==> s[i] != '_',
        parse_decimal_model(s) is Ok,
    ensures
        parse_rounded_model(s) == parse_decimal_model(s),
{
    let (negative, b) = split_sign(s);
    assert forall|i: int| 0 <= i < b.len() implies b[i] != '_' by {
        if s.len() > 0 && (s[0] == '-' || s[0] == '+') {
            assert(b[i] == s[i + 1]);
        }
    }
    lemma_no_separators(b);
    let (ds, scale) = body_digits(b)->0;
    lemma_body_digits_are_digits(b);
    let whole = (ds.len() - scale) as nat;
    lemma_digits_prefix_le(ds, whole as int);
    lemma_all_kept(ds, whole, whole);
    assert(ds.take(ds.len() as int) =~= ds);
}

/// The plain form of every decimal reads back, through `from_str`, as exactly that
/// decimal, scale included.
pub proof fn lemma_display_roundtrip(m: DecimalModel)
    requires
        m.wf(),
    ensures
        parse_rounded_model(display_chars(m)) == Ok::<DecimalModel, DecimalError>(m),
{
    lemma_display_parses_exactly(m);
    lemma_text_forms_numeric(m);
    let s = display_chars(m);
    assert forall|i: int| 0 <= i < s.len() implies s[i] != '_' by {
        assert(is_numeric_char(s[i]));
    }
    lemma_exact_text_reads_the_same(s);
}

} // verus!
