//! Text forms of decimals: the plain form (`-12.340`), the scientific form (`-1.234e1`),
//! and parsing of both.
use vstd::prelude::*;
use vstd::string::StringExecFns;
use crate::arith::{pow10, mantissa_bound, lemma_pow10_pos, lemma_pow10_values, lemma_pow10_adds};
use crate::digits::{
    is_digit, all_digits, all_zeros, digits_value, nat_digits, padded_digits, lemma_nat_digits,
    lemma_padded_digits, lemma_digits_split, u128_digits, u128_padded_digits,
};
use crate::model::{DecimalModel, MAX_SCALE, signed_model};
use crate::decimal::Decimal;

verus! {

/// `"-"` for a negative number, nothing otherwise.
pub open spec fn sign_prefix(negative: bool) -> Seq<char> {
    if negative {
        seq!['-']
    } else {
        Seq::empty()
    }
}

/// The plain form: the mantissa's digits with a point before the last `scale` of them,
/// zero-padded so that at least one digit stands before the point.
pub open spec fn display_chars(m: DecimalModel) -> Seq<char> {
    if m.scale == 0 {
        sign_prefix(m.negative) + nat_digits(m.mantissa)
    } else {
        let p = padded_digits(m.mantissa, m.scale + 1);
        let k = p.len() - m.scale;
        sign_prefix(m.negative) + p.take(k) + seq!['.'] + p.skip(k)
    }
}

/// The digits before the exponent in the scientific form: the leading digit alone when
/// all others are zero, otherwise the leading digit, a point and the other digits.
pub open spec fn scientific_mantissa_chars(digits: Seq<char>) -> Seq<char> {
    if digits.len() > 1 && all_zeros(digits.skip(1)) {
        seq![digits[0]]
    } else if digits.len() > 1 {
        seq![digits[0], '.'] + digits.skip(1)
    } else {
        digits
    }
}

/// The digits of an integer, with a leading `-` when it is negative.
pub open spec fn int_chars(i: int) -> Seq<char> {
    if i < 0 {
        seq!['-'] + nat_digits((-i) as nat)
    } else {
        nat_digits(i as nat)
    }
}

/// The scientific form: `0e0` for zero, otherwise the sign, the mantissa's digits with a
/// point after the first, `e`, and the power of ten that makes it equal to the value.
pub open spec fn scientific_chars(m: DecimalModel) -> Seq<char> {
    if m.mantissa == 0 {
        seq!['0', 'e', '0']
    } else {
        let d = nat_digits(m.mantissa);
        sign_prefix(m.negative) + scientific_mantissa_chars(d) + seq!['e'] + int_chars(
            d.len() - 1 - m.scale,
        )
    }
}

/// There is no `'.'` in `s`, or every character after the first `'.'` is `'0'`.
pub open spec fn fraction_is_zero(s: Seq<char>) -> bool {
    forall|i: int|
        0 <= i < s.len() && s[i] == '.' ==> (forall|j: int| i < j < s.len() ==> #[trigger] s[j]
            == '0')
}

// ---------------------------------------------------------------------------
// Building text.

/// The plain form of `d` as characters.
pub fn display_vec(d: &Decimal) -> (v: Vec<char>)
    ensures
        v@ == display_chars(d@),
{
    d.ensure_representable();
    let m = d.unsigned_mantissa();
    let scale = d.scale();
    let mut v: Vec<char> = Vec::new();
    if d.is_sign_negative() {
        v.push('-');
    }
    proof {
        assert(v@ == sign_prefix(d@.negative));
    }
    if scale == 0 {
        let ds = u128_digits(m);
        append_chars(&mut v, &ds);
        v
    } else {
        let p = u128_padded_digits(m, (scale + 1) as usize);
        proof {
            lemma_padded_digits(m as nat, (scale + 1) as nat);
        }
        let k = p.len() - scale as usize;
        let mut i: usize = 0;
        while i < p.len()
            invariant
                i <= p.len(),
                k == p.len() - scale,
                k >= 1,
                scale >= 1,
                v@ == (if i <= k {
                    sign_prefix(d@.negative) + p@.take(i as int)
                } else {
                    sign_prefix(d@.negative) + p@.take(k as int) + seq!['.'] + p@.subrange(k as int, i as int)
                }),
            decreases p.len() - i,
        {
            if i == k {
                v.push('.');
                proof {
                    assert(p@.subrange(k as int, k as int) =~= Seq::<char>::empty());
                }
            }
            let ghost before = v@;
            v.push(p[i]);
            proof {
                if i < k {
                    assert(p@.take(i + 1) =~= p@.take(i as int).push(p@[i as int]));
                    assert(v@ =~= sign_prefix(d@.negative) + p@.take(i + 1));
                } else {
                    assert(p@.subrange(k as int, i + 1) =~= p@.subrange(k as int, i as int).push(p@[i as int]));
                    assert(v@ =~= sign_prefix(d@.negative) + p@.take(k as int) + seq!['.'] + p@.subrange(k as int, i + 1));
                }
            }
            i = i + 1;
        }
        proof {
            assert(p@.subrange(k as int, p.len() as int) =~= p@.skip(k as int));
        }
        v
    }
}

/// The number of digits of a mantissa is at most 29.
pub proof fn lemma_mantissa_digit_count(m: nat)
    requires
        m < mantissa_bound(),
    ensures
        nat_digits(m).len() <= 29,
{
    lemma_nat_digits(m);
    lemma_pow10_values();
    let n = nat_digits(m).len();
    if n > 29 {
        crate::arith::lemma_pow10_monotone(29, (n - 1) as nat);
    }
}

/// All characters after index 0 of `v` are `'0'`.
fn rest_is_zeros(v: &Vec<char>) -> (b: bool)
    requires
        v.len() >= 1,
    ensures
        b == all_zeros(v@.skip(1)),
{
    let mut i: usize = 1;
    while i < v.len()
        invariant
            1 <= i <= v.len(),
            forall|j: int| 1 <= j < i ==> v@[j] == '0',
        decreases v.len() - i,
    {
        if v[i] != '0' {
            proof {
                assert(v@.skip(1)[i - 1] == v@[i as int]);
            }
            return false;
        }
        i = i + 1;
    }
    proof {
        assert forall|j: int| 0 <= j < v@.skip(1).len() implies v@.skip(1)[j] == '0' by {
            assert(v@.skip(1)[j] == v@[j + 1]);
        }
    }
    true
}

/// The scientific form of `d` as characters.
pub fn scientific_vec(d: &Decimal) -> (v: Vec<char>)
    ensures
        v@ == scientific_chars(d@),
{
    d.ensure_representable();
    let m = d.unsigned_mantissa();
    if m == 0 {
        let v = vec!['0', 'e', '0'];
        proof {
            assert(v@ =~= seq!['0', 'e', '0']);
        }
        return v;
    }
    let mut v: Vec<char> = Vec::new();
    if d.is_sign_negative() {
        v.push('-');
    }
    proof {
        assert(v@ =~= sign_prefix(d@.negative));
    }
    let ds = u128_digits(m);
    proof {
        lemma_nat_digits(m as nat);
        lemma_mantissa_digit_count(m as nat);
    }
    let n = ds.len();
    let ghost prefix = v@;
    v.push(ds[0]);
    if n > 1 {
        if rest_is_zeros(&ds) {
            proof {
                assert(v@ =~= prefix + scientific_mantissa_chars(ds@));
            }
        } else {
            v.push('.');
            let mut i: usize = 1;
            while i < n
                invariant
                    1 <= i <= n,
                    n == ds.len(),
                    v@ == prefix + seq![ds@[0], '.'] + ds@.subrange(1, i as int),
                decreases n - i,
            {
                v.push(ds[i]);
                proof {
                    assert(ds@.subrange(1, i + 1) =~= ds@.subrange(1, i as int).push(ds@[i as int]));
                    assert(v@ =~= prefix + seq![ds@[0], '.'] + ds@.subrange(1, i + 1));
                }
                i = i + 1;
            }
            proof {
                assert(ds@.subrange(1, n as int) =~= ds@.skip(1));
                assert(v@ =~= prefix + scientific_mantissa_chars(ds@));
            }
        }
    } else {
        proof {
            assert(v@ =~= prefix + scientific_mantissa_chars(ds@));
        }
    }
    v.push('e');
    let ghost before_exp = v@;
    let top = (n - 1) as u32;
    let scale = d.scale();
    if top >= scale {
        let e = u128_digits((top - scale) as u128);
        append_chars(&mut v, &e);
        proof {
            assert(int_chars(n - 1 - d@.scale) == nat_digits((top - scale) as nat));
        }
    } else {
        v.push('-');
        let e = u128_digits((scale - top) as u128);
        append_chars(&mut v, &e);
        proof {
            assert(int_chars(n - 1 - d@.scale) == seq!['-'] + nat_digits((scale - top) as nat));
            assert(v@ =~= before_exp + (seq!['-'] + nat_digits((scale - top) as nat)));
        }
    }
    v
}

/// The characters the text forms of a decimal are made of.
pub open spec fn is_numeric_char(c: char) -> bool {
    is_digit(c) || c == '.' || c == '-' || c == '+' || c == 'e' || c == 'E'
}

/// Every character of `s` is one the text forms are made of.
pub open spec fn numeric_text(s: Seq<char>) -> bool {
    forall|i: int| 0 <= i < s.len() ==> #[trigger] is_numeric_char(s[i])
}

proof fn lemma_numeric_concat(a: Seq<char>, b: Seq<char>)
    requires
        numeric_text(a),
        numeric_text(b),
    ensures
        numeric_text(a + b),
{
    assert forall|i: int| 0 <= i < (a + b).len() implies is_numeric_char((a + b)[i]) by {
        if i < a.len() {
            assert((a + b)[i] == a[i]);
        } else {
            assert((a + b)[i] == b[i - a.len()]);
        }
    }
}

proof fn lemma_digits_numeric(a: Seq<char>)
    requires
        all_digits(a),
    ensures
        numeric_text(a),
        forall|k: int| 0 <= k <= a.len() ==> numeric_text(#[trigger] a.take(k)),
        forall|k: int| 0 <= k <= a.len() ==> numeric_text(#[trigger] a.skip(k)),
{
    assert forall|i: int| 0 <= i < a.len() implies is_numeric_char(a[i]) by {
        assert(is_digit(a[i]));
    }
    assert forall|k: int| 0 <= k <= a.len() implies numeric_text(#[trigger] a.take(k)) by {
        assert forall|i: int| 0 <= i < a.take(k).len() implies is_numeric_char(a.take(k)[i]) by {
            assert(a.take(k)[i] == a[i]);
            assert(is_digit(a[i]));
        }
    }
    assert forall|k: int| 0 <= k <= a.len() implies numeric_text(#[trigger] a.skip(k)) by {
        assert forall|i: int| 0 <= i < a.skip(k).len() implies is_numeric_char(a.skip(k)[i]) by {
            assert(a.skip(k)[i] == a[i + k]);
            assert(is_digit(a[i + k]));
        }
    }
}

/// Both text forms are made of numeric characters.
pub proof fn lemma_text_forms_numeric(m: DecimalModel)
    ensures
        numeric_text(display_chars(m)),
        numeric_text(scientific_chars(m)),
{
    let sp = sign_prefix(m.negative);
    assert(numeric_text(sp));
    assert(numeric_text(seq!['.']));
    assert(numeric_text(seq!['e']));
    assert(numeric_text(seq!['-']));
    lemma_nat_digits(m.mantissa);
    let d = nat_digits(m.mantissa);
    lemma_digits_numeric(d);
    if m.scale == 0 {
        lemma_numeric_concat(sp, d);
    } else {
        let p = padded_digits(m.mantissa, m.scale + 1);
        lemma_padded_digits(m.mantissa, m.scale + 1);
        lemma_digits_numeric(p);
        let k = p.len() - m.scale;
        lemma_numeric_concat(sp, p.take(k));
        lemma_numeric_concat(sp + p.take(k), seq!['.']);
        lemma_numeric_concat(sp + p.take(k) + seq!['.'], p.skip(k));
    }
    if m.mantissa == 0 {
        assert(numeric_text(seq!['0', 'e', '0']));
    } else {
        let mc = scientific_mantissa_chars(d);
        assert(is_numeric_char(d[0])) by {
            assert(is_digit(d[0]));
        }
        if d.len() > 1 && all_zeros(d.skip(1)) {
            assert(numeric_text(mc));
        } else if d.len() > 1 {
            assert(numeric_text(seq![d[0], '.']));
            lemma_numeric_concat(seq![d[0], '.'], d.skip(1));
        }
        let e = d.len() - 1 - m.scale;
        let ec = int_chars(e);
        if e < 0 {
            lemma_nat_digits((-e) as nat);
            lemma_digits_numeric(nat_digits((-e) as nat));
            lemma_numeric_concat(seq!['-'], nat_digits((-e) as nat));
        } else {
            lemma_nat_digits(e as nat);
            lemma_digits_numeric(nat_digits(e as nat));
        }
        lemma_numeric_concat(sp, mc);
        lemma_numeric_concat(sp + mc, seq!['e']);
        lemma_numeric_concat(sp + mc + seq!['e'], ec);
    }
}

/// `String::push`: appends one character to the string.
#[verifier::external_body]
pub(crate) fn push_char(s: &mut String, c: char)
    ensures
        final(s)@ == old(s)@.push(c),
{
    s.push(c);
}

/// The string of the characters `v`.
pub fn chars_string(v: &Vec<char>) -> (s: String)
    ensures
        s@ == v@,
{
    let mut s = String::new();
    let mut i: usize = 0;
    while i < v.len()
        invariant
            i <= v.len(),
            s@ == v@.take(i as int),
        decreases v.len() - i,
    {
        push_char(&mut s, v[i]);
        proof {
            assert(v@.take(i + 1) =~= v@.take(i as int).push(v@[i as int]));
        }
        i = i + 1;
    }
    proof {
        assert(v@.take(v.len() as int) =~= v@);
    }
    s
}

/// The characters of `s`.
pub fn str_chars(s: &str) -> (v: Vec<char>)
    ensures
        v@ == s@,
{
    let mut v: Vec<char> = Vec::new();
    for c in it: s.chars()
        invariant
            v@ == it.seq().take(it.index() as int),
    {
        v.push(c);
    }
    v
}

impl Decimal {
    /// The plain form, such as `-12.340`.
    pub fn to_string(&self) -> (s: String)
        ensures
            s@ == display_chars(self@),
    {
        let v = display_vec(self);
        chars_string(&v)
    }

    /// The scientific form, such as `-1.234e1`.
    pub fn to_scientific_string(&self) -> (s: String)
        ensures
            s@ == scientific_chars(self@),
    {
        let v = scientific_vec(self);
        chars_string(&v)
    }
}

// ---------------------------------------------------------------------------
// Parsing.

/// Why a text is not a decimal.
#[derive(Clone, Copy, Debug, PartialEq, Eq, Structural)]
pub enum DecimalError {
    /// The text is not of the form the parser accepts.
    InvalidFormat,
    /// The mantissa needs more than 96 bits.
    ExceedsMaximumPossibleValue,
    /// The scale would exceed 28.
    ScaleExceedsMaximumPrecision,
}

impl DecimalError {
    /// A short description.
    pub fn description(&self) -> (s: &'static str)
        ensures
            s@ == (match self {
                DecimalError::InvalidFormat => "invalid decimal"@,
                DecimalError::ExceedsMaximumPossibleValue => "value exceeds the maximum"@,
                DecimalError::ScaleExceedsMaximumPrecision => "scale exceeds the maximum precision"@,
            }),
    {
        match self {
            DecimalError::InvalidFormat => "invalid decimal",
            DecimalError::ExceedsMaximumPossibleValue => "value exceeds the maximum",
            DecimalError::ScaleExceedsMaximumPrecision => "scale exceeds the maximum precision",
        }
    }
}

/// The model of a parse result.
pub open spec fn result_model(r: Result<Decimal, DecimalError>) -> Result<DecimalModel, DecimalError> {
    match r {
        Ok(d) => Ok(d@),
        Err(e) => Err(e),
    }
}

/// A leading `-` or `+` and the rest of `s`.
pub open spec fn split_sign(s: Seq<char>) -> (bool, Seq<char>) {
    if s.len() > 0 && s[0] == '-' {
        (true, s.skip(1))
    } else if s.len() > 0 && s[0] == '+' {
        (false, s.skip(1))
    } else {
        (false, s)
    }
}

/// `b` is digits with a single point at `p` and at least one digit.
pub open spec fn is_point_split(b: Seq<char>, p: int) -> bool {
    &&& 0 <= p < b.len()
    &&& b[p] == '.'
    &&& all_digits(b.take(p))
    &&& all_digits(b.skip(p + 1))
    &&& b.len() >= 2
}

/// For a body made of digits and at most one point, with at least one digit: its
/// digits with the point removed, and how many of them follow the point.
pub open spec fn body_digits(b: Seq<char>) -> Option<(Seq<char>, nat)> {
    if b.len() > 0 && all_digits(b) {
        Some((b, 0))
    } else if exists|p: int| is_point_split(b, p) {
        let p = choose|p: int| is_point_split(b, p);
        Some((b.take(p) + b.skip(p + 1), (b.len() - p - 1) as nat))
    } else {
        None
    }
}

/// The decimal a plain text stands for: an optional sign, digits, an optional point.
pub open spec fn parse_decimal_model(s: Seq<char>) -> Result<DecimalModel, DecimalError> {
    let (negative, b) = split_sign(s);
    match body_digits(b) {
        None => Err(DecimalError::InvalidFormat),
        Some((ds, scale)) => if digits_value(ds) >= mantissa_bound() {
            Err(DecimalError::ExceedsMaximumPossibleValue)
        } else if scale > MAX_SCALE {
            Err(DecimalError::ScaleExceedsMaximumPrecision)
        } else {
            Ok(signed_model(negative, digits_value(ds), scale))
        },
    }
}

/// `e` or `E`.
pub open spec fn is_exponent_marker(c: char) -> bool {
    c == 'e' || c == 'E'
}

/// `p` is the position of the first exponent marker of `s`.
pub open spec fn is_first_marker(s: Seq<char>, p: int) -> bool {
    &&& 0 <= p < s.len()
    &&& is_exponent_marker(s[p])
    &&& forall|q: int| 0 <= q < p ==> !is_exponent_marker(#[trigger] s[q])
}

/// The exponent a text stands for: an optional sign and digits, at most `u32::MAX`.
pub open spec fn exponent_model(s: Seq<char>) -> Option<(bool, nat)> {
    let (negative, b) = split_sign(s);
    if b.len() > 0 && all_digits(b) && digits_value(b) <= u32::MAX {
        Some((negative, digits_value(b)))
    } else {
        None
    }
}

/// `m * 10^(±e)`, exactly, with the scale moved rather than the mantissa wherever
/// possible.
pub open spec fn scale_by_power(m: DecimalModel, negative_exponent: bool, e: nat) -> Result<
    DecimalModel,
    DecimalError,
> {
    if negative_exponent {
        if m.scale + e > MAX_SCALE {
            Err(DecimalError::ScaleExceedsMaximumPrecision)
        } else {
            Ok(DecimalModel { scale: (m.scale + e) as nat, ..m })
        }
    } else if e <= m.scale {
        Ok(DecimalModel { scale: (m.scale - e) as nat, ..m })
    } else if m.mantissa == 0 {
        Ok(signed_model(false, 0, 0))
    } else if m.mantissa * pow10((e - m.scale) as nat) < mantissa_bound() {
        Ok(signed_model(m.negative, m.mantissa * pow10((e - m.scale) as nat), 0))
    } else {
        Err(DecimalError::ExceedsMaximumPossibleValue)
    }
}

/// The decimal a scientific text stands for: a plain decimal, `e` or `E`, and an exponent.
pub open spec fn parse_scientific_model(s: Seq<char>) -> Result<DecimalModel, DecimalError> {
    if exists|p: int| is_first_marker(s, p) {
        let p = choose|p: int| is_first_marker(s, p);
        match parse_decimal_model(s.take(p)) {
            Err(e) => Err(e),
            Ok(m) => match exponent_model(s.skip(p + 1)) {
                None => Err(DecimalError::InvalidFormat),
                Some((negative, e)) => scale_by_power(m, negative, e),
            },
        }
    } else {
        Err(DecimalError::InvalidFormat)
    }
}

/// The number spelled by the digits `ds`, if it is below `limit`.
fn digits_below(ds: &Vec<char>, limit: u128) -> (r: Option<u128>)
    requires
        all_digits(ds@),
        0 < limit <= mantissa_bound(),
    ensures
        r is Some <==> digits_value(ds@) < limit,
        r matches Some(v) ==> v == digits_value(ds@),
{
    let mut v: u128 = 0;
    let mut i: usize = 0;
    while i < ds.len()
        invariant
            i <= ds.len(),
            all_digits(ds@),
            0 < limit <= mantissa_bound(),
            v == digits_value(ds@.take(i as int)),
            v < limit,
        decreases ds.len() - i,
    {
        let d = crate::digits::char_to_digit(ds[i]);
        proof {
            assert(ds@.take(i + 1).drop_last() =~= ds@.take(i as int));
            assert(ds@.take(i + 1).last() == ds@[i as int]);
            assert(is_digit(ds@[i as int]));
        }
        let w = v * 10 + d;
        if w >= limit {
            proof {
                lemma_digits_prefix_le(ds@, i + 1);
            }
            return None;
        }
        v = w;
        i = i + 1;
    }
    proof {
        assert(ds@.take(ds.len() as int) =~= ds@);
    }
    Some(v)
}

/// A prefix of a digit string spells at most what the whole string spells.
pub(crate) proof fn lemma_digits_prefix_le(s: Seq<char>, k: int)
    requires
        0 <= k <= s.len(),
    ensures
        digits_value(s.take(k)) <= digits_value(s),
{
    let a = s.take(k);
    let b = s.skip(k);
    assert(a + b =~= s);
    crate::digits::lemma_digits_value_append(a, b);
    lemma_pow10_pos(b.len());
    assert(digits_value(a) * pow10(b.len()) >= digits_value(a)) by (nonlinear_arith)
        requires
            pow10(b.len()) >= 1,
    ;
}

/// Splits `v[lo..hi]` into its digits with the point removed and the count of digits
/// after the point.
pub(crate) fn split_body(v: &Vec<char>, lo: usize, hi: usize) -> (r: Option<(Vec<char>, usize)>)
    requires
        lo <= hi <= v.len(),
    ensures
        match (r, body_digits(v@.subrange(lo as int, hi as int))) {
            (Some((ds, k)), Some((sds, sk))) => ds@ == sds && k == sk,
            (None, None) => true,
            _ => false,
        },
{
    let ghost b = v@.subrange(lo as int, hi as int);
    let mut ds: Vec<char> = Vec::new();
    let mut point: Option<usize> = None;
    let mut i: usize = lo;
    while i < hi
        invariant
            lo <= i <= hi <= v.len(),
            b == v@.subrange(lo as int, hi as int),
            match point {
                None => {
                    &&& forall|k: int| lo <= k < i ==> is_digit(#[trigger] v@[k])
                    &&& ds@ == v@.subrange(lo as int, i as int)
                },
                Some(p) => {
                    &&& lo <= p < i
                    &&& v@[p as int] == '.'
                    &&& forall|k: int| lo <= k < i && k != p ==> is_digit(#[trigger] v@[k])
                    &&& ds@ == v@.subrange(lo as int, p as int) + v@.subrange(p + 1, i as int)
                },
            },
        decreases hi - i,
    {
        let c = v[i];
        if c == '.' {
            if let Some(p) = point {
                proof {
                    lemma_no_split_with_two_points(b, p - lo, i - lo);
                    assert(b[p - lo] == '.' && !is_digit(b[p - lo]));
                }
                return None;
            }
            point = Some(i);
            proof {
                assert(ds@ =~= v@.subrange(lo as int, i as int) + v@.subrange(i + 1, i + 1));
            }
        } else if '0' <= c && c <= '9' {
            ds.push(c);
            proof {
                match point {
                    None => {
                        assert(ds@ =~= v@.subrange(lo as int, i + 1));
                    },
                    Some(p) => {
                        assert(ds@ =~= v@.subrange(lo as int, p as int) + v@.subrange(p + 1, i + 1));
                    },
                }
            }
        } else {
            proof {
                lemma_no_split_with_stray(b, i - lo);
            }
            return None;
        }
        i = i + 1;
    }
    proof {
        assert(b.len() == hi - lo);
    }
    match point {
        None => {
            if hi == lo {
                proof {
                    assert(!(exists|p: int| is_point_split(b, p)));
                }
                None
            } else {
                proof {
                    assert(all_digits(b)) by {
                        assert forall|k: int| 0 <= k < b.len() implies is_digit(b[k]) by {
                            assert(b[k] == v@[lo + k]);
                        }
                    }
                    assert(ds@ =~= b);
                }
                Some((ds, 0))
            }
        },
        Some(p) => {
            if hi - lo < 2 {
                proof {
                    assert(!(exists|q: int| is_point_split(b, q)));
                    assert(!all_digits(b)) by {
                        assert(b[p - lo] == '.');
                        assert(!is_digit(b[p - lo]));
                    }
                }
                None
            } else {
                proof {
                    let rp = p - lo;
                    assert(is_point_split(b, rp)) by {
                        assert forall|k: int| 0 <= k < b.take(rp).len() implies is_digit(#[trigger] b.take(rp)[k]) by {
                            assert(b.take(rp)[k] == v@[lo + k]);
                        }
                        assert forall|k: int| 0 <= k < b.skip(rp + 1).len() implies is_digit(#[trigger] b.skip(rp + 1)[k]) by {
                            assert(b.skip(rp + 1)[k] == v@[lo + rp + 1 + k]);
                        }
                    }
                    assert(!all_digits(b)) by {
                        assert(b[rp] == '.');
                        assert(!is_digit(b[rp]));
                    }
                    let q = choose|q: int| is_point_split(b, q);
                    assert(q == rp) by {
                        if q != rp {
                            if q < rp {
                                assert(b.skip(q + 1)[rp - q - 1] == b[rp]);
                            } else {
                                assert(b.take(rp + 1 + (q - rp - 1))[q] == b[q]);
                                assert(b.skip(rp + 1)[q - rp - 1] == b[q]);
                            }
                        }
                    }
                    assert(ds@ =~= b.take(rp) + b.skip(rp + 1));
                }
                Some((ds, hi - p - 1))
            }
        },
    }
}

/// A body with two points has no point split.
proof fn lemma_no_split_with_two_points(b: Seq<char>, p1: int, p2: int)
    requires
        0 <= p1 < p2 < b.len(),
        b[p1] == '.',
        b[p2] == '.',
    ensures
        body_digits(b) is None,
{
    assert(!all_digits(b)) by {
        assert(!is_digit(b[p1]));
    }
    assert forall|p: int| !is_point_split(b, p) by {
        if is_point_split(b, p) {
            if p != p1 {
                if p1 < p {
                    assert(b.take(p)[p1] == b[p1]);
                    assert(is_digit(b.take(p)[p1]));
                } else {
                    assert(b.skip(p + 1)[p1 - p - 1] == b[p1]);
                    assert(is_digit(b.skip(p + 1)[p1 - p - 1]));
                }
            } else {
                assert(b.skip(p + 1)[p2 - p - 1] == b[p2]);
                assert(is_digit(b.skip(p + 1)[p2 - p - 1]));
            }
        }
    }
}

/// A body with a character that is neither a digit nor a point has no point split.
proof fn lemma_no_split_with_stray(b: Seq<char>, k: int)
    requires
        0 <= k < b.len(),
        b[k] != '.',
        !is_digit(b[k]),
    ensures
        body_digits(b) is None,
{
    assert forall|p: int| !is_point_split(b, p) by {
        if is_point_split(b, p) {
            if k < p {
                assert(b.take(p)[k] == b[k]);
                assert(is_digit(b.take(p)[k]));
            } else {
                assert(b.skip(p + 1)[k - p - 1] == b[k]);
                assert(is_digit(b.skip(p + 1)[k - p - 1]));
            }
        }
    }
}

/// The digits a body yields are digits.
pub(crate) proof fn lemma_body_digits_are_digits(b: Seq<char>)
    requires
        body_digits(b) is Some,
    ensures
        (match body_digits(b) {
            Some((ds, k)) => all_digits(ds) && k <= ds.len(),
            None => true,
        }),
{
    if !(b.len() > 0 && all_digits(b)) {
        let p = choose|p: int| is_point_split(b, p);
        let x = b.take(p);
        let y = b.skip(p + 1);
        assert forall|i: int| 0 <= i < (x + y).len() implies is_digit(#[trigger] (x + y)[i]) by {
            if i < x.len() {
                assert((x + y)[i] == x[i]);
            } else {
                assert((x + y)[i] == y[i - x.len()]);
            }
        }
    }
}

/// `2^96` as an exec value.
const MANTISSA_LIMIT: u128 = 0x1_0000_0000_0000_0000_0000_0000;

/// A leading sign of `v[lo..hi]`: whether it is `-`, and where the rest starts.
pub(crate) fn sign_at(v: &Vec<char>, lo: usize, hi: usize) -> (r: (bool, usize))
    requires
        lo <= hi <= v.len(),
    ensures
        lo <= r.1 <= hi,
        split_sign(v@.subrange(lo as int, hi as int)) == (r.0, v@.subrange(r.1 as int, hi as int)),
{
    let ghost s = v@.subrange(lo as int, hi as int);
    if lo < hi && v[lo] == '-' {
        proof {
            assert(s.skip(1) =~= v@.subrange(lo + 1, hi as int));
        }
        (true, lo + 1)
    } else if lo < hi && v[lo] == '+' {
        proof {
            assert(s.skip(1) =~= v@.subrange(lo + 1, hi as int));
        }
        (false, lo + 1)
    } else {
        (false, lo)
    }
}

/// Parses `v[lo..hi]` as a plain decimal.
fn parse_plain(v: &Vec<char>, lo: usize, hi: usize) -> (r: Result<Decimal, DecimalError>)
    requires
        lo <= hi <= v.len(),
    ensures
        result_model(r) == parse_decimal_model(v@.subrange(lo as int, hi as int)),
{
    let (negative, start) = sign_at(v, lo, hi);
    match split_body(v, start, hi) {
        None => Err(DecimalError::InvalidFormat),
        Some((ds, k)) => {
            proof {
                lemma_body_digits_are_digits(v@.subrange(start as int, hi as int));
                lemma_pow10_values();
            }
            match digits_below(&ds, MANTISSA_LIMIT) {
                None => Err(DecimalError::ExceedsMaximumPossibleValue),
                Some(m) => {
                    if k > 28 {
                        Err(DecimalError::ScaleExceedsMaximumPrecision)
                    } else {
                        Ok(Decimal::from_parts(negative, m, k as u32))
                    }
                },
            }
        },
    }
}

/// Parses `v[lo..hi]` as an exponent: a sign and the digits of at most `u32::MAX`.
fn parse_exponent(v: &Vec<char>, lo: usize, hi: usize) -> (r: Option<(bool, u128)>)
    requires
        lo <= hi <= v.len(),
    ensures
        match (r, exponent_model(v@.subrange(lo as int, hi as int))) {
            (Some((n, e)), Some((sn, se))) => n == sn && e == se,
            (None, None) => true,
            _ => false,
        },
        r matches Some((n, e)) ==> e <= u32::MAX,
{
    let (negative, start) = sign_at(v, lo, hi);
    let ghost b = v@.subrange(start as int, hi as int);
    if start == hi {
        return None;
    }
    let mut ds: Vec<char> = Vec::new();
    let mut i: usize = start;
    while i < hi
        invariant
            lo <= start <= i <= hi <= v.len(),
            b == v@.subrange(start as int, hi as int),
            split_sign(v@.subrange(lo as int, hi as int)) == (negative, b),
            ds@ == v@.subrange(start as int, i as int),
            all_digits(ds@),
        decreases hi - i,
    {
        let c = v[i];
        if !('0' <= c && c <= '9') {
            proof {
                assert(b[i - start] == c);
                assert(!is_digit(b[i - start]));
                assert(!all_digits(b));
                assert(split_sign(v@.subrange(lo as int, hi as int)).1 == b);
            }
            return None;
        }
        ds.push(c);
        proof {
            assert(ds@ =~= v@.subrange(start as int, i + 1));
            assert(forall|k: int| 0 <= k < ds@.len() - 1 ==> ds@[k] == ds@.drop_last()[k]);
            assert forall|k: int| 0 <= k < ds@.len() implies is_digit(#[trigger] ds@[k]) by {
                if k < ds@.len() - 1 {
                    assert(ds@[k] == v@.subrange(start as int, i as int)[k]);
                }
            }
        }
        i = i + 1;
    }
    proof {
        assert(ds@ == b);
        lemma_pow10_values();
    }
    match digits_below(&ds, 0x1_0000_0000u128) {
        None => None,
        Some(e) => Some((negative, e)),
    }
}

/// `m * 10^(±e)` exactly.
fn scale_by_power_exec(m: &Decimal, negative_exponent: bool, e: u128) -> (r: Result<
    Decimal,
    DecimalError,
>)
    requires
        e <= u32::MAX,
    ensures
        result_model(r) == scale_by_power(m@, negative_exponent, e as nat),
{
    m.ensure_representable();
    let scale = m.scale() as u128;
    let mantissa = m.unsigned_mantissa();
    if negative_exponent {
        if scale + e > 28 {
            Err(DecimalError::ScaleExceedsMaximumPrecision)
        } else {
            let d = Decimal::from_parts(m.is_sign_negative(), mantissa, (scale + e) as u32);
            proof {
                assert(d@ == DecimalModel { scale: (m@.scale + e) as nat, ..m@ });
            }
            Ok(d)
        }
    } else if e <= scale {
        let d = Decimal::from_parts(m.is_sign_negative(), mantissa, (scale - e) as u32);
        proof {
            assert(d@ == DecimalModel { scale: (m@.scale - e) as nat, ..m@ });
        }
        Ok(d)
    } else if mantissa == 0 {
        proof {
            lemma_pow10_values();
        }
        Ok(Decimal::from_parts(false, 0, 0))
    } else {
        let k = e - scale;
        proof {
            lemma_pow10_values();
        }
        if k > 28 {
            proof {
                crate::arith::lemma_pow10_monotone(29, k as nat);
                assert(mantissa * pow10(k as nat) >= pow10(k as nat)) by (nonlinear_arith)
                    requires
                        mantissa >= 1,
                        pow10(k as nat) >= 0,
                ;
            }
            Err(DecimalError::ExceedsMaximumPossibleValue)
        } else {
            let p = crate::arith::pow10_u128(k as u32);
            proof {
                lemma_pow10_pos(k as nat);
            }
            if mantissa <= 0xffff_ffff_ffff_ffff_ffff_ffffu128 / p {
                proof {
                    assert(mantissa * p <= 0xffff_ffff_ffff_ffff_ffff_ffffu128) by (nonlinear_arith)
                        requires
                            mantissa <= 0xffff_ffff_ffff_ffff_ffff_ffffu128 / p,
                            p > 0,
                    {
                        vstd::arithmetic::div_mod::lemma_fundamental_div_mod(
                            0xffff_ffff_ffff_ffff_ffff_ffffu128 as int,
                            p as int,
                        );
                        vstd::arithmetic::div_mod::lemma_mod_bound(
                            0xffff_ffff_ffff_ffff_ffff_ffffu128 as int,
                            p as int,
                        );
                    }
                }
                Ok(Decimal::from_parts(m.is_sign_negative(), mantissa * p, 0))
            } else {
                proof {
                    assert(mantissa * p >= 0x1_0000_0000_0000_0000_0000_0000u128) by (nonlinear_arith)
                        requires
                            mantissa >= 0xffff_ffff_ffff_ffff_ffff_ffffu128 / p + 1,
                            p > 0,
                    {
                        vstd::arithmetic::div_mod::lemma_fundamental_div_mod(
                            0xffff_ffff_ffff_ffff_ffff_ffffu128 as int,
                            p as int,
                        );
                        vstd::arithmetic::div_mod::lemma_mod_bound(
                            0xffff_ffff_ffff_ffff_ffff_ffffu128 as int,
                            p as int,
                        );
                    }
                }
                Err(DecimalError::ExceedsMaximumPossibleValue)
            }
        }
    }
}

impl Decimal {
    /// Parses the scientific form `<plain decimal>e<exponent>` (or `E`), exactly: an error
    /// when the value needs a scale above 28 or a mantissa above 96 bits.
    pub fn from_scientific_exact(s: &str) -> (r: Result<Decimal, DecimalError>)
        ensures
            result_model(r) == parse_scientific_model(s@),
    {
        let v = str_chars(s);
        let mut i: usize = 0;
        while i < v.len() && v[i] != 'e' && v[i] != 'E'
            invariant
                i <= v.len(),
                forall|q: int| 0 <= q < i ==> !is_exponent_marker(#[trigger] v@[q]),
            decreases v.len() - i,
        {
            i = i + 1;
        }
        if i == v.len() {
            proof {
                assert forall|p: int| !is_first_marker(v@, p) by {
                    if 0 <= p < v@.len() {
                        assert(!is_exponent_marker(v@[p]));
                    }
                }
            }
            return Err(DecimalError::InvalidFormat);
        }
        proof {
            assert(is_first_marker(v@, i as int));
            let p = choose|p: int| is_first_marker(v@, p);
            assert(p == i) by {
                if p < i {
                    assert(!is_exponent_marker(v@[p]));
                } else if p > i {
                    assert(!is_exponent_marker(v@[i as int]));
                }
            }
            assert(v@.take(i as int) =~= v@.subrange(0, i as int));
            assert(v@.skip(i + 1) =~= v@.subrange(i + 1, v@.len() as int));
        }
        match parse_plain(&v, 0, i) {
            Err(e) => Err(e),
            Ok(m) => match parse_exponent(&v, i + 1, v.len()) {
                None => Err(DecimalError::InvalidFormat),
                Some((negative, e)) => scale_by_power_exec(&m, negative, e),
            },
        }
    }
}

/// Appends `src` to `dst`.
pub fn append_chars(dst: &mut Vec<char>, src: &Vec<char>)
    ensures
        final(dst)@ == old(dst)@ + src@,
{
    let mut i: usize = 0;
    while i < src.len()
        invariant
            i <= src.len(),
            dst@ == old(dst)@ + src@.take(i as int),
        decreases src.len() - i,
    {
        dst.push(src[i]);
        proof {
            assert(src@.take(i + 1) =~= src@.take(i as int).push(src@[i as int]));
            assert(dst@ =~= old(dst)@ + src@.take(i + 1));
        }
        i = i + 1;
    }
    proof {
        assert(src@.take(src.len() as int) =~= src@);
    }
}

} // verus!

verus! {

// ---------------------------------------------------------------------------
// Laws of the text forms.

/// A decimal is a whole number exactly when no digit other than `0` follows the point
/// in its plain form.
pub proof fn lemma_is_integer_matches_display(m: DecimalModel)
    requires
        m.wf(),
    ensures
        fraction_is_zero(display_chars(m)) == m.is_integer(),
{
    let s = display_chars(m);
    let sp = sign_prefix(m.negative);
    if m.scale == 0 {
        lemma_nat_digits(m.mantissa);
        let d = nat_digits(m.mantissa);
        assert forall|i: int| 0 <= i < s.len() implies s[i] != '.' by {
            if i < sp.len() {
                assert(s[i] == sp[i]);
            } else {
                assert(s[i] == d[i - sp.len()]);
                assert(is_digit(d[i - sp.len()]));
            }
        }
        assert(pow10(0) == 1);
        assert(m.mantissa % 1 == 0);
    } else {
        let p = padded_digits(m.mantissa, m.scale + 1);
        lemma_padded_digits(m.mantissa, m.scale + 1);
        let k = p.len() - m.scale;
        let head = p.take(k);
        let tail = p.skip(k);
        let dot = sp.len() + k;
        assert(s == sp + head + seq!['.'] + tail);
        assert(s[dot] == '.');
        assert forall|j: int| dot < j < s.len() implies s[j] == tail[j - dot - 1] by {}
        assert forall|i: int| 0 <= i < s.len() && s[i] == '.' implies i == dot by {
            if i < sp.len() {
                assert(s[i] == sp[i]);
            } else if i < dot {
                assert(s[i] == p[i - sp.len()]);
                assert(is_digit(p[i - sp.len()]));
            } else if i > dot {
                assert(s[i] == p[i - sp.len() - 1]);
                assert(is_digit(p[i - sp.len() - 1]));
            }
        }
        lemma_digits_split(p, m.scale);
        assert(all_digits(tail)) by {
            assert forall|j: int| 0 <= j < tail.len() implies is_digit(#[trigger] tail[j]) by {
                assert(tail[j] == p[j + k]);
            }
        }
        crate::digits::lemma_digits_value_zero(tail);
        if fraction_is_zero(s) {
            assert(all_zeros(tail)) by {
                assert forall|j: int| 0 <= j < tail.len() implies tail[j] == '0' by {
                    assert(s[dot + 1 + j] == tail[j]);
                }
            }
        }
        if m.is_integer() {
            assert(all_zeros(tail));
            assert forall|i: int| 0 <= i < s.len() && s[i] == '.' implies (forall|j: int|
                i < j < s.len() ==> #[trigger] s[j] == '0') by {
                assert(i == dot);
                assert forall|j: int| i < j < s.len() implies #[trigger] s[j] == '0' by {
                    assert(s[j] == tail[j - dot - 1]);
                }
            }
        }
    }
}

} // verus!

verus! {

/// Two decimals of the same sign whose magnitudes agree stand for the same number.
proof fn lemma_same_value_from_magnitudes(a: DecimalModel, b: DecimalModel)
    requires
        a.negative == b.negative,
        a.mantissa * pow10(b.scale) == b.mantissa * pow10(a.scale),
    ensures
        a.same_value(b),
{
    let x = a.mantissa as int;
    let y = b.mantissa as int;
    let p = pow10(b.scale) as int;
    let q = pow10(a.scale) as int;
    assert((-x) * p == -(x * p)) by (nonlinear_arith);
    assert((-y) * q == -(y * q)) by (nonlinear_arith);
}

/// A body with its only point at `p` yields the digits around the point.
pub proof fn lemma_body_digits_point(b: Seq<char>, p: int)
    requires
        is_point_split(b, p),
    ensures
        body_digits(b) == Some((b.take(p) + b.skip(p + 1), (b.len() - p - 1) as nat)),
{
    assert(!all_digits(b)) by {
        assert(!is_digit(b[p]));
    }
    let q = choose|q: int| is_point_split(b, q);
    assert(q == p) by {
        if q < p {
            assert(b.take(p)[q] == b[q]);
            assert(is_digit(b.take(p)[q]));
        } else if q > p {
            assert(b.skip(p + 1)[q - p - 1] == b[q]);
            assert(is_digit(b.skip(p + 1)[q - p - 1]));
        }
    }
}

/// The parts of the scientific form of a non-zero decimal: the marker stands right
/// after the mantissa part.
proof fn lemma_scientific_parts(m: DecimalModel)
    requires
        m.wf(),
        m.mantissa != 0,
    ensures
        ({
            let d = nat_digits(m.mantissa);
            let s = scientific_chars(m);
            let head = sign_prefix(m.negative) + scientific_mantissa_chars(d);
            &&& is_first_marker(s, head.len() as int)
            &&& s.take(head.len() as int) == head
            &&& s.skip(head.len() as int + 1) == int_chars(d.len() - 1 - m.scale)
        }),
{
    lemma_nat_digits(m.mantissa);
    let d = nat_digits(m.mantissa);
    let sp = sign_prefix(m.negative);
    let mc = scientific_mantissa_chars(d);
    let head = sp + mc;
    let ec = int_chars(d.len() - 1 - m.scale);
    let s = scientific_chars(m);
    assert(s == head + seq!['e'] + ec);
    assert(s[head.len() as int] == 'e');
    assert forall|q: int| 0 <= q < head.len() implies !is_exponent_marker(#[trigger] s[q]) by {
        assert(s[q] == head[q]);
        if q < sp.len() {
            assert(head[q] == sp[q]);
        } else {
            let r = q - sp.len();
            assert(head[q] == mc[r]);
            if d.len() > 1 && all_zeros(d.skip(1)) {
                assert(mc[r] == d[0]);
                assert(is_digit(d[0]));
            } else if d.len() > 1 {
                if r == 0 {
                    assert(is_digit(d[0]));
                } else if r >= 2 {
                    assert(mc[r] == d.skip(1)[r - 2]);
                    assert(d.skip(1)[r - 2] == d[r - 1]);
                    assert(is_digit(d[r - 1]));
                }
            } else {
                assert(is_digit(d[r]));
            }
        }
    }
    assert(s.take(head.len() as int) =~= head);
    assert(s.skip(head.len() as int + 1) =~= ec);
}

/// The exponent part of the scientific form reads back as the exponent.
proof fn lemma_exponent_roundtrip(e: int)
    requires
        -28 <= e <= 28,
    ensures
        exponent_model(int_chars(e)) == Some((e < 0, (if e < 0 { -e } else { e }) as nat)),
{
    let mag = (if e < 0 { -e } else { e }) as nat;
    lemma_nat_digits(mag);
    let d = nat_digits(mag);
    assert(is_digit(d[0]));
    if e < 0 {
        assert((seq!['-'] + d).skip(1) =~= d);
        assert((seq!['-'] + d)[0] == '-');
    } else {
        assert(d[0] != '-' && d[0] != '+');
    }
}

/// The leading digit stands alone in the scientific form: all other digits are zeros.
pub open spec fn sci_trimmed(d: Seq<char>) -> bool {
    d.len() > 1 && all_zeros(d.skip(1))
}

/// The decimal the mantissa part of the scientific form of `m` reads as.
pub open spec fn sci_parsed(m: DecimalModel) -> DecimalModel {
    let d = nat_digits(m.mantissa);
    if sci_trimmed(d) {
        signed_model(m.negative, crate::digits::digit_value(d[0]), 0)
    } else {
        signed_model(m.negative, m.mantissa, (d.len() - 1) as nat)
    }
}

/// The mantissa part of the scientific form of a non-zero decimal reads as `sci_parsed`,
/// which is the decimal itself, or its leading digit when the rest are zeros.
proof fn lemma_sci_mantissa_part(m: DecimalModel)
    requires
        m.wf(),
        m.mantissa != 0,
    ensures
        ({
            let d = nat_digits(m.mantissa);
            let n = d.len();
            let head = sign_prefix(m.negative) + scientific_mantissa_chars(d);
            let q = sci_parsed(m);
            &&& parse_decimal_model(head) == Ok::<DecimalModel, DecimalError>(q)
            &&& q.negative == m.negative
            &&& 1 <= n <= 29
            &&& sci_trimmed(d) ==> (q.scale == 0 && 0 < q.mantissa < 10 && m.mantissa == q.mantissa
                * pow10((n - 1) as nat))
            &&& !sci_trimmed(d) ==> (q.scale == n - 1 && q.mantissa == m.mantissa)
        }),
{
    lemma_pow10_values();
    lemma_nat_digits(m.mantissa);
    crate::text::lemma_mantissa_digit_count(m.mantissa);
    let d = nat_digits(m.mantissa);
    let n = d.len();
    let sp = sign_prefix(m.negative);
    let mc = scientific_mantissa_chars(d);
    let head = sp + mc;
    assert(is_digit(d[0]));
    assert(mc[0] == d[0]);
    assert(split_sign(head) == (m.negative, mc)) by {
        if m.negative {
            assert(head.skip(1) =~= mc);
            assert(head[0] == '-');
        } else {
            assert(head =~= mc);
        }
    }
    if sci_trimmed(d) {
        let k = crate::digits::digit_value(d[0]);
        assert(mc == seq![d[0]]);
        assert(all_digits(mc));
        assert(mc.drop_last() =~= Seq::<char>::empty());
        assert(digits_value(Seq::<char>::empty()) == 0);
        assert(digits_value(mc) == digits_value(mc.drop_last()) * 10 + crate::digits::digit_value(mc.last()));
        assert(digits_value(mc) == k);
        assert(body_digits(mc) == Some((mc, 0nat)));
        let rest = d.skip(1);
        assert(seq![d[0]] + rest =~= d);
        crate::digits::lemma_digits_value_append(seq![d[0]], rest);
        assert(all_digits(rest)) by {
            assert forall|i: int| 0 <= i < rest.len() implies is_digit(#[trigger] rest[i]) by {
                assert(rest[i] == d[i + 1]);
            }
        }
        crate::digits::lemma_digits_value_zero(rest);
        assert(rest.len() == n - 1);
        assert(m.mantissa == k * pow10((n - 1) as nat));
        assert(k != 0) by {
            assert(d[0] != '0');
        }
    } else if n > 1 {
        assert(mc == seq![d[0], '.'] + d.skip(1));
        assert(is_point_split(mc, 1)) by {
            assert(mc.take(1) =~= seq![d[0]]);
            assert(mc.skip(2) =~= d.skip(1));
            assert forall|i: int| 0 <= i < mc.take(1).len() implies is_digit(#[trigger] mc.take(1)[i]) by {}
            assert forall|i: int| 0 <= i < mc.skip(2).len() implies is_digit(#[trigger] mc.skip(2)[i]) by {
                assert(mc.skip(2)[i] == d[i + 1]);
            }
        }
        lemma_body_digits_point(mc, 1);
        assert(mc.take(1) + mc.skip(2) =~= d);
        assert(body_digits(mc) == Some((d, (n - 1) as nat)));
    } else {
        assert(mc == d);
        assert(body_digits(mc) == Some((d, 0nat)));
    }
}

/// Applying the exponent of the scientific form to its mantissa part gives back the
/// number.
proof fn lemma_sci_exponent_applied(m: DecimalModel)
    requires
        m.wf(),
        m.mantissa != 0,
    ensures
        ({
            let n = nat_digits(m.mantissa).len();
            let e = n - 1 - m.scale;
            scale_by_power(sci_parsed(m), e < 0, (if e < 0 { -e } else { e }) as nat) matches Ok(r)
                && r.wf() && r.same_value(m)
        }),
{
    lemma_sci_mantissa_part(m);
    lemma_pow10_values();
    let d = nat_digits(m.mantissa);
    let n = d.len();
    let e = n - 1 - m.scale;
    let mag = (if e < 0 { -e } else { e }) as nat;
    let q = sci_parsed(m);
    let k = q.mantissa;
    let t = q.scale;
    let r = scale_by_power(q, e < 0, mag);
    if e < 0 {
        let rm = DecimalModel { scale: (t + mag) as nat, ..q };
        assert(r == Ok::<DecimalModel, DecimalError>(rm));
        if sci_trimmed(d) {
            assert(rm.scale + (n - 1) == m.scale);
            lemma_pow10_adds((n - 1) as nat, rm.scale);
            assert(k * pow10(m.scale) == m.mantissa * pow10(rm.scale)) by (nonlinear_arith)
                requires
                    m.mantissa == k * pow10((n - 1) as nat),
                    pow10(m.scale) == pow10((n - 1) as nat) * pow10(rm.scale),
            ;
            lemma_same_value_from_magnitudes(rm, m);
        } else {
            assert(rm == m);
            lemma_same_value_from_magnitudes(rm, m);
        }
    } else if sci_trimmed(d) {
        if mag == 0 {
            let rm = DecimalModel { scale: 0, ..q };
            assert(r == Ok::<DecimalModel, DecimalError>(rm));
            assert(m.scale == n - 1);
            assert(k * pow10(m.scale) == m.mantissa * pow10(0));
            lemma_same_value_from_magnitudes(rm, m);
        } else {
            lemma_pow10_adds(mag, m.scale);
            lemma_pow10_pos(mag);
            crate::arith::lemma_pow10_monotone(mag, (n - 1) as nat);
            assert(k * pow10(mag) <= k * pow10((n - 1) as nat)) by (nonlinear_arith)
                requires
                    pow10(mag) <= pow10((n - 1) as nat),
            ;
            assert(k * pow10(mag) > 0) by (nonlinear_arith)
                requires
                    k > 0,
                    pow10(mag) >= 1,
            ;
            let rm = signed_model(m.negative, k * pow10(mag), 0);
            assert(r == Ok::<DecimalModel, DecimalError>(rm));
            assert(mag + m.scale == n - 1);
            assert((k * pow10(mag)) * pow10(m.scale) == m.mantissa * pow10(0)) by (nonlinear_arith)
                requires
                    m.mantissa == k * pow10((n - 1) as nat),
                    pow10((n - 1) as nat) == pow10(mag) * pow10(m.scale),
                    pow10(0) == 1,
            ;
            lemma_same_value_from_magnitudes(rm, m);
        }
    } else {
        let rm = DecimalModel { scale: (t - mag) as nat, ..q };
        assert(r == Ok::<DecimalModel, DecimalError>(rm));
        assert(rm == m);
        lemma_same_value_from_magnitudes(rm, m);
    }
}

/// The scientific form of every decimal reads back, exactly, as the same number.
pub proof fn lemma_scientific_roundtrip(m: DecimalModel)
    requires
        m.wf(),
    ensures
        parse_scientific_model(scientific_chars(m)) matches Ok(r) && r.wf() && r.same_value(m),
{
    lemma_pow10_values();
    let s = scientific_chars(m);
    if m.mantissa == 0 {
        assert(is_first_marker(s, 1));
        let p = choose|p: int| is_first_marker(s, p);
        assert(p == 1) by {
            if p == 0 {
                assert(s[0] == '0');
            } else if p == 2 {
                assert(s[1] == 'e');
            }
        }
        let z = seq!['0'];
        assert(s.take(1) =~= z);
        assert(s.skip(2) =~= z);
        assert(split_sign(z) == (false, z));
        assert(all_digits(z));
        assert(z.drop_last() =~= Seq::<char>::empty());
        assert(digits_value(Seq::<char>::empty()) == 0);
        assert(digits_value(z) == digits_value(z.drop_last()) * 10 + crate::digits::digit_value(z.last()));
        assert(digits_value(z) == 0);
        let r = signed_model(false, 0, 0);
        assert(body_digits(z) == Some((z, 0nat)));
        assert(r.same_value(m)) by {
            assert(0 * pow10(0) == 0);
            assert(0 * pow10(m.scale) == 0);
        }
    } else {
        lemma_scientific_parts(m);
        lemma_sci_mantissa_part(m);
        lemma_sci_exponent_applied(m);
        let d = nat_digits(m.mantissa);
        let head = sign_prefix(m.negative) + scientific_mantissa_chars(d);
        let p = choose|p: int| is_first_marker(s, p);
        assert(p == head.len()) by {
            let h = head.len() as int;
            if p < h {
                assert(!is_exponent_marker(s[p]));
            } else if p > h {
                assert(!is_exponent_marker(s[h]));
            }
        }
        lemma_exponent_roundtrip(d.len() - 1 - m.scale);
    }
}

} // verus!

verus! {

/// A plain decimal text holds no exponent marker.
proof fn lemma_plain_text_has_no_marker(s: Seq<char>)
    requires
        parse_decimal_model(s) is Ok,
    ensures
        forall|i: int| 0 <= i < s.len() ==> !is_exponent_marker(#[trigger] s[i]),
{
    let (negative, b) = split_sign(s);
    let off: int = if b.len() == s.len() { 0 } else { 1 };
    assert(b == s.skip(off));
    assert forall|i: int| 0 <= i < b.len() implies !is_exponent_marker(#[trigger] b[i]) by {
        if !(b.len() > 0 && all_digits(b)) {
            let p = choose|p: int| is_point_split(b, p);
            if i < p {
                assert(b.take(p)[i] == b[i]);
                assert(is_digit(b.take(p)[i]));
            } else if i > p {
                assert(b.skip(p + 1)[i - p - 1] == b[i]);
                assert(is_digit(b.skip(p + 1)[i - p - 1]));
            }
        } else {
            assert(is_digit(b[i]));
        }
    }
    assert forall|i: int| 0 <= i < s.len() implies !is_exponent_marker(#[trigger] s[i]) by {
        if i >= off {
            assert(s[i] == b[i - off]);
        }
    }
}

/// A scientific text whose negative exponent would take the scale past 28 is refused with
/// `ScaleExceedsMaximumPrecision`, however large the exponent.
pub proof fn lemma_scale_overflow_refused(s: Seq<char>, e: nat)
    requires
        parse_decimal_model(s) matches Ok(m) && m.scale + e > MAX_SCALE,
        e <= u32::MAX,
    ensures
        parse_scientific_model(s + seq!['e', '-'] + nat_digits(e)) == Err::<DecimalModel, DecimalError>(
            DecimalError::ScaleExceedsMaximumPrecision,
        ),
{
    lemma_plain_text_has_no_marker(s);
    lemma_nat_digits(e);
    let t = s + seq!['e', '-'] + nat_digits(e);
    let k = s.len() as int;
    assert(t[k] == 'e');
    assert forall|q: int| 0 <= q < k implies !is_exponent_marker(#[trigger] t[q]) by {
        assert(t[q] == s[q]);
    }
    assert(is_first_marker(t, k));
    let p = choose|p: int| is_first_marker(t, p);
    assert(p == k) by {
        if p < k {
            assert(t[p] == s[p]);
        } else if p > k {
            assert(!is_exponent_marker(t[k]));
        }
    }
    assert(t.take(k) =~= s);
    let x = t.skip(k + 1);
    assert(x =~= seq!['-'] + nat_digits(e));
    assert(x[0] == '-');
    assert(x.skip(1) =~= nat_digits(e));
}

} // verus!

verus! {

/// The plain form of every decimal is read by the exact parser as that decimal, scale
/// included.
pub(crate) proof fn lemma_display_parses_exactly(m: DecimalModel)
    requires
        m.wf(),
    ensures
        parse_decimal_model(display_chars(m)) == Ok::<DecimalModel, DecimalError>(m),
{
    let sp = sign_prefix(m.negative);
    let s = display_chars(m);
    lemma_pow10_values();
    if m.scale == 0 {
        lemma_nat_digits(m.mantissa);
        let d = nat_digits(m.mantissa);
        assert(is_digit(d[0]));
        assert(split_sign(s) == (m.negative, d)) by {
            if m.negative {
                assert(s.skip(1) =~= d);
            } else {
                assert(s =~= d);
            }
        }
        assert(body_digits(d) == Some((d, 0nat)));
    } else {
        let p = padded_digits(m.mantissa, m.scale + 1);
        lemma_padded_digits(m.mantissa, m.scale + 1);
        let k = p.len() - m.scale;
        let b = p.take(k) + seq!['.'] + p.skip(k);
        assert(s == sp + b);
        assert(is_digit(p[0]));
        assert(b[0] == p[0]);
        assert(split_sign(s) == (m.negative, b)) by {
            if m.negative {
                assert(s.skip(1) =~= b);
            } else {
                assert(s =~= b);
            }
        }
        assert(is_point_split(b, k)) by {
            assert(b.take(k) =~= p.take(k));
            assert(b.skip(k + 1) =~= p.skip(k));
            assert forall|i: int| 0 <= i < b.take(k).len() implies is_digit(#[trigger] b.take(k)[i]) by {
                assert(b.take(k)[i] == p[i]);
            }
            assert forall|i: int| 0 <= i < b.skip(k + 1).len() implies is_digit(#[trigger] b.skip(k + 1)[i]) by {
                assert(b.skip(k + 1)[i] == p[i + k]);
            }
        }
        lemma_body_digits_point(b, k);
        assert(b.take(k) + b.skip(k + 1) =~= p);
        assert(b.len() - k - 1 == m.scale);
    }
}

} // verus!
