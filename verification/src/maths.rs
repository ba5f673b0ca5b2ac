//! The natural logarithm of a decimal.
//!
//! A positive decimal is written `m * 10^k` with `m` free of trailing zeros, which depends
//! on its value alone; its logarithm is `ln(m) + k * ln(10)`. `ln(1)` is zero; for
//! another whole number `m`, it is first brought into `(1/e, 1)` by multiplying by `1/e`
//! (and, should rounding land it at or below `1/e`, by `e`), each step counted; then
//! `ln(1 - u)` is summed as `-(u + u^2/2 + u^3/3 + ...)`, term by term in decimal
//! arithmetic, until the sum stops changing or a hundred terms are in. Every step is one
//! of the library's own rounded operations, so the model below is the computation
//! itself, written over the models of those operations; the laws at the end state what
//! it satisfies as a logarithm.
use vstd::prelude::*;
use crate::arith::{
    pow10, mantissa_bound, round_half_even, lemma_pow10_pos, lemma_pow10_adds, lemma_pow10_values,
    lemma_pow10_monotone,
};
use crate::model::{
    DecimalModel, MAX_SCALE, model_of_int, zero_model, sub_model, add_model, fits_after_dropping,
    fewest_dropped, common_scale, difference_numerator,
};
use crate::decimal::Decimal;
use crate::ops::opt_model;
use crate::mul::{mul_model, neg_model};
use crate::div::div_model;
use crate::bounds::{
    at_most, units, lemma_fit_exact_error, lemma_aligned_within, lemma_mul_within, lemma_fit_product_within, lemma_fewest_dropped_found,
    lemma_round_near, lemma_round_at_least_one, lemma_round_at_most, lemma_fit_exact_within,
    lemma_add_within, lemma_sub_within, lemma_div_by_whole_within,
};

verus! {

/// Steps allowed for each range reduction. Each step at least halves (or doubles) the
/// argument, so a 96-bit mantissa needs at most 96 of them.
pub const REDUCTION_STEPS: u32 = 128;

/// Terms summed at most in the series.
pub const SERIES_TERMS: u32 = 100;

/// One.
pub open spec fn one_model() -> DecimalModel {
    DecimalModel { negative: false, mantissa: 1, scale: 0 }
}

/// `e` to 28 places.
pub open spec fn e_model() -> DecimalModel {
    DecimalModel { negative: false, mantissa: 27182818284590452353602874714, scale: 28 }
}

/// `1/e` to 28 places.
pub open spec fn e_inverse_model() -> DecimalModel {
    DecimalModel { negative: false, mantissa: 3678794411714423215955237702, scale: 28 }
}

/// `ln(10)` to 27 places, so that every multiple by up to 28 is exact.
pub open spec fn ln10_model() -> DecimalModel {
    DecimalModel { negative: false, mantissa: 2302585092994045684017991455, scale: 27 }
}

/// `m` without its trailing zeros.
pub open spec fn stripped(m: nat) -> nat
    decreases m,
{
    if m > 0 && m % 10 == 0 {
        stripped(m / 10)
    } else {
        m
    }
}

/// How many trailing zeros `m` has.
pub open spec fn trailing_zeros(m: nat) -> nat
    decreases m,
{
    if m > 0 && m % 10 == 0 {
        1 + trailing_zeros(m / 10)
    } else {
        0
    }
}

/// The power of ten in `d = stripped(mantissa) * 10^k`.
pub open spec fn ten_exponent(d: DecimalModel) -> int {
    trailing_zeros(d.mantissa) - d.scale
}

/// The whole number `m` as a decimal.
pub open spec fn whole_model(m: nat) -> DecimalModel {
    DecimalModel { negative: false, mantissa: m, scale: 0 }
}

/// While `x >= 1`, multiply it by `1/e` and count up; `None` when a product does not fit
/// or the steps run out.
pub open spec fn reduce_from_above(x: DecimalModel, count: int, steps: nat) -> Option<
    (DecimalModel, int),
>
    decreases steps,
{
    if !one_model().value_le(x) {
        Some((x, count))
    } else if steps == 0 {
        None
    } else {
        match mul_model(x, e_inverse_model()) {
            Some(y) => reduce_from_above(y, count + 1, (steps - 1) as nat),
            None => None,
        }
    }
}

/// While `x <= 1/e`, multiply it by `e` and count down; `None` when a product does not
/// fit or the steps run out.
pub open spec fn reduce_from_below(x: DecimalModel, count: int, steps: nat) -> Option<
    (DecimalModel, int),
>
    decreases steps,
{
    if !x.value_le(e_inverse_model()) {
        Some((x, count))
    } else if steps == 0 {
        None
    } else {
        match mul_model(x, e_model()) {
            Some(y) => reduce_from_below(y, count - 1, (steps - 1) as nat),
            None => None,
        }
    }
}

/// The series `u + u^2/2 + u^3/3 + ...` from term `k` on: `power` is `u^k`, `sum` the
/// sum so far and `last` the sum one term before. It stops when the sum no longer changes
/// or after the last term allowed.
pub open spec fn ln_series(
    u: DecimalModel,
    power: DecimalModel,
    sum: DecimalModel,
    last: DecimalModel,
    k: nat,
) -> Option<DecimalModel>
    decreases SERIES_TERMS - k,
{
    if sum.same_value(last) || k >= SERIES_TERMS {
        Some(sum)
    } else {
        match mul_model(power, u) {
            None => None,
            Some(next_power) => match div_model(next_power, model_of_int((k + 1) as int)) {
                None => None,
                Some(term) => match add_model(sum, term) {
                    None => None,
                    Some(next_sum) => ln_series(u, next_power, next_sum, sum, k + 1),
                },
            },
        }
    }
}

/// The logarithm of a reduced argument `x` in `(1/e, 1)`, plus `count`.
pub open spec fn ln_reduced(x: DecimalModel, count: int) -> Option<DecimalModel> {
    match sub_model(x, one_model()) {
        None => None,
        Some(t) => if t.mantissa == 0 {
            Some(model_of_int(count))
        } else {
            match ln_series(neg_model(t), one_model(), zero_model(), one_model(), 0) {
                None => None,
                Some(s) => sub_model(model_of_int(count), s),
            }
        },
    }
}

/// The logarithm of a positive whole number `m`.
pub open spec fn ln_whole(m: nat) -> Option<DecimalModel> {
    if m == 1 {
        Some(zero_model())
    } else {
        ln_series_of_whole(m)
    }
}

/// The logarithm of a whole number other than one, by range reduction and the series.
pub open spec fn ln_series_of_whole(m: nat) -> Option<DecimalModel> {
    match reduce_from_above(whole_model(m), 0, REDUCTION_STEPS as nat) {
        None => None,
        Some((x, c)) => match reduce_from_below(x, c, REDUCTION_STEPS as nat) {
            None => None,
            Some((y, c2)) => ln_reduced(y, c2),
        },
    }
}

/// The natural logarithm as this library computes it: `None` for zero and for negative
/// numbers; for `d = m * 10^k` with `m` free of trailing zeros, `ln(m) + k * ln(10)`,
/// which depends on the value of `d` alone.
pub open spec fn ln_model(d: DecimalModel) -> Option<DecimalModel> {
    if d.negative || d.mantissa == 0 {
        None
    } else {
        match ln_whole(stripped(d.mantissa)) {
            None => None,
            Some(l) => {
                let k = ten_exponent(d);
                if k == 0 {
                    Some(l)
                } else {
                    match mul_model(model_of_int(k), ln10_model()) {
                        None => None,
                        Some(shift) => add_model(l, shift),
                    }
                }
            },
        }
    }
}

/// The model of an optional decimal paired with a count.
pub open spec fn opt_counted(o: Option<(Decimal, i64)>) -> Option<(DecimalModel, int)> {
    match o {
        Some((d, c)) => Some((d@, c as int)),
        None => None,
    }
}

/// One, at scale 0.
fn one() -> (d: Decimal)
    ensures
        d@ == one_model(),
{
    Decimal::from_parts(false, 1, 0)
}

/// `e` to 28 places.
fn e() -> (d: Decimal)
    ensures
        d@ == e_model(),
{
    Decimal::from_parts(false, 27182818284590452353602874714, 28)
}

/// `1/e` to 28 places.
fn e_inverse() -> (d: Decimal)
    ensures
        d@ == e_inverse_model(),
{
    Decimal::from_parts(false, 3678794411714423215955237702, 28)
}

/// `ln(10)` to 27 places.
fn ln10() -> (d: Decimal)
    ensures
        d@ == ln10_model(),
{
    Decimal::from_parts(false, 2302585092994045684017991455, 27)
}

/// Brings `x` below one by multiplying by `1/e`, counting the steps.
fn reduce_above(start: Decimal) -> (r: Option<(Decimal, i64)>)
    ensures
        opt_counted(r) == reduce_from_above(start@, 0, REDUCTION_STEPS as nat),
        r matches Some((_, c)) ==> 0 <= c <= REDUCTION_STEPS,
{
    let one = one();
    let e_inv = e_inverse();
    let mut x = start;
    let mut count: i64 = 0;
    let mut i: u32 = 0;
    while one.le(&x)
        invariant
            one@ == one_model(),
            e_inv@ == e_inverse_model(),
            0 <= count == i <= REDUCTION_STEPS,
            reduce_from_above(start@, 0, REDUCTION_STEPS as nat) == reduce_from_above(
                x@,
                count as int,
                (REDUCTION_STEPS - i) as nat,
            ),
        decreases REDUCTION_STEPS - i,
    {
        if i == REDUCTION_STEPS {
            return None;
        }
        match x.checked_mul(&e_inv) {
            Some(y) => {
                x = y;
            },
            None => {
                return None;
            },
        }
        count = count + 1;
        i = i + 1;
    }
    Some((x, count))
}

/// Brings `x` above `1/e` by multiplying by `e`, counting the steps down from `count`.
fn reduce_below(start: Decimal, count: i64) -> (r: Option<(Decimal, i64)>)
    requires
        0 <= count <= REDUCTION_STEPS,
    ensures
        opt_counted(r) == reduce_from_below(start@, count as int, REDUCTION_STEPS as nat),
        r matches Some((_, c)) ==> -(REDUCTION_STEPS as int) <= c <= REDUCTION_STEPS,
{
    let e = e();
    let e_inv = e_inverse();
    let mut x = start;
    let mut c: i64 = count;
    let mut i: u32 = 0;
    while x.le(&e_inv)
        invariant
            e@ == e_model(),
            e_inv@ == e_inverse_model(),
            i <= REDUCTION_STEPS,
            c == count - i,
            0 <= count <= REDUCTION_STEPS,
            reduce_from_below(start@, count as int, REDUCTION_STEPS as nat) == reduce_from_below(
                x@,
                c as int,
                (REDUCTION_STEPS - i) as nat,
            ),
        decreases REDUCTION_STEPS - i,
    {
        if i == REDUCTION_STEPS {
            return None;
        }
        match x.checked_mul(&e) {
            Some(y) => {
                x = y;
            },
            None => {
                return None;
            },
        }
        c = c - 1;
        i = i + 1;
    }
    Some((x, c))
}

/// Sums the series for `ln(1 - u)`, negated.
fn sum_series(u: Decimal) -> (r: Option<Decimal>)
    ensures
        opt_model(r) == ln_series(u@, one_model(), zero_model(), one_model(), 0),
{
    let mut power = one();
    let mut sum = Decimal::zero();
    let mut last = one();
    let mut k: u32 = 0;
    while !sum.value_eq(&last) && k < SERIES_TERMS
        invariant
            k <= SERIES_TERMS,
            ln_series(u@, one_model(), zero_model(), one_model(), 0) == ln_series(
                u@,
                power@,
                sum@,
                last@,
                k as nat,
            ),
        decreases SERIES_TERMS - k,
    {
        let next_power = match power.checked_mul(&u) {
            Some(p) => p,
            None => {
                return None;
            },
        };
        let divisor = Decimal::new((k + 1) as i64, 0);
        proof {
            assert(divisor@ == model_of_int((k + 1) as int));
        }
        let term = match next_power.checked_div(&divisor) {
            Some(t) => t,
            None => {
                return None;
            },
        };
        let next_sum = match sum.checked_add(&term) {
            Some(s) => s,
            None => {
                return None;
            },
        };
        last = sum;
        sum = next_sum;
        power = next_power;
        k = k + 1;
    }
    Some(sum)
}

/// The logarithm of a positive whole number below `2^96`.
fn ln_of_whole(m: u128) -> (r: Option<Decimal>)
    requires
        m < crate::arith::mantissa_bound(),
    ensures
        opt_model(r) == ln_whole(m as nat),
{
    if m == 1 {
        return Some(Decimal::zero());
    }
    let one = one();
    let start = Decimal::from_parts(false, m, 0);
    proof {
        assert(start@ == whole_model(m as nat));
    }
    let (x, count) = match reduce_above(start) {
        Some(p) => p,
        None => {
            return None;
        },
    };
    let (y, count) = match reduce_below(x, count) {
        Some(p) => p,
        None => {
            return None;
        },
    };
    let t = match y.checked_sub(&one) {
        Some(t) => t,
        None => {
            return None;
        },
    };
    let whole = Decimal::new(count, 0);
    proof {
        assert(whole@ == model_of_int(count as int));
    }
    if t.is_zero() {
        return Some(whole);
    }
    match sum_series(t.neg()) {
        Some(s) => whole.checked_sub(&s),
        None => None,
    }
}

/// Stripping one trailing zero keeps what is left and counts one zero fewer.
proof fn lemma_strip_step(m: nat)
    requires
        m > 0,
        m % 10 == 0,
    ensures
        m / 10 > 0,
        m / 10 < m,
        stripped(m) == stripped(m / 10),
        trailing_zeros(m) == 1 + trailing_zeros(m / 10),
{
}

/// A mantissa below `2^96` has at most 28 trailing zeros.
proof fn lemma_trailing_zeros_bound(m: nat)
    requires
        0 < m < mantissa_bound(),
    ensures
        trailing_zeros(m) <= 28,
{
    lemma_strip(m);
    lemma_pow10_values();
    if trailing_zeros(m) > 28 {
        lemma_pow10_monotone(29, trailing_zeros(m));
        assert(stripped(m) * pow10(trailing_zeros(m)) >= pow10(29)) by (nonlinear_arith)
            requires
                stripped(m) >= 1,
                pow10(trailing_zeros(m)) >= pow10(29),
        ;
    }
}

/// `m` is what is left after stripping, times ten to the number of zeros stripped; what is
/// left has no trailing zero.
pub proof fn lemma_strip(m: nat)
    requires
        m > 0,
    ensures
        stripped(m) * pow10(trailing_zeros(m)) == m,
        stripped(m) >= 1,
        stripped(m) % 10 != 0,
        stripped(m) <= m,
    decreases m,
{
    if m % 10 == 0 {
        lemma_strip(m / 10);
        assert(m == 10 * (m / 10));
        let z = trailing_zeros(m / 10);
        assert(pow10(z + 1) == 10 * pow10(z));
        assert(stripped(m / 10) * (10 * pow10(z)) == 10 * (stripped(m / 10) * pow10(z)))
            by (nonlinear_arith);
        assert(trailing_zeros(m) == z + 1);
        assert(stripped(m) == stripped(m / 10));
        assert(stripped(m) * pow10(trailing_zeros(m)) == stripped(m / 10) * (10 * pow10(z)));
    } else {
        assert(pow10(0) == 1);
        assert(stripped(m) == m && trailing_zeros(m) == 0);
        assert(m * pow10(0) == m * 1);
    }
}

impl Decimal {
    /// The natural logarithm: `None` for zero and for negative numbers, and exactly zero
    /// for one. For `m * 10^k`, `m` free of trailing zeros, it is `ln(m) + k * ln(10)`,
    /// with `ln(m)` summed as a series once `m` is reduced into `(1/e, 1)`.
    pub fn checked_ln(&self) -> (r: Option<Decimal>)
        ensures
            opt_model(r) == ln_model(self@),
            r is Some <==> (!self@.negative && self@.mantissa > 0),
            self@.same_value(one_model()) ==> opt_model(r) == Some(zero_model()),
    {
        self.ensure_representable();
        proof {
            if !self@.negative && self@.mantissa > 0 {
                lemma_ln_defined_for_positive(self@);
            }
            lemma_ln_of_one(self@);
            crate::arith::lemma_pow10_pos(self@.scale);
            assert(crate::arith::pow10(0) == 1);
        }
        if self.is_sign_negative() || self.is_zero() {
            proof {
                assert(self@.signed() <= 0);
                assert(self@.signed() * crate::arith::pow10(0) == self@.signed());
                assert(one_model().signed() * crate::arith::pow10(self@.scale) >= 1);
            }
            return None;
        }
        let mut m = self.unsigned_mantissa();
        let mut zeros: u32 = 0;
        proof {
            lemma_trailing_zeros_bound(self@.mantissa);
        }
        while m % 10 == 0
            invariant
                m > 0,
                m <= self@.mantissa,
                self@.mantissa > 0,
                stripped(self@.mantissa) == stripped(m as nat),
                trailing_zeros(self@.mantissa) == zeros + trailing_zeros(m as nat),
                trailing_zeros(self@.mantissa) <= 28,
            decreases m,
        {
            proof {
                lemma_strip_step(m as nat);
            }
            m = m / 10;
            zeros = zeros + 1;
        }
        proof {
            assert(stripped(m as nat) == m);
            assert(trailing_zeros(m as nat) == 0);
        }
        let l = match ln_of_whole(m) {
            Some(l) => l,
            None => {
                return None;
            },
        };
        let k: i64 = zeros as i64 - self.scale() as i64;
        if k == 0 {
            return Some(l);
        }
        let places = Decimal::new(k, 0);
        proof {
            assert(places@ == model_of_int(k as int));
        }
        match places.checked_mul(&ln10()) {
            Some(shift) => l.checked_add(&shift),
            None => None,
        }
    }
}

} // verus!

verus! {

// ---------------------------------------------------------------------------
// Every positive decimal has a logarithm: no step of the computation fails.

/// `2^n`.
pub open spec fn two_to(n: nat) -> nat
    decreases n,
{
    if n == 0 {
        1
    } else {
        2 * two_to((n - 1) as nat)
    }
}

proof fn lemma_two_to_pos(n: nat)
    ensures
        two_to(n) >= 1,
    decreases n,
{
    if n > 0 {
        lemma_two_to_pos((n - 1) as nat);
    }
}

proof fn lemma_two_to_values()
    ensures
        two_to(94) == 19807040628566084398385987584,
        two_to(96) == crate::arith::mantissa_bound(),
{
    reveal_with_fuel(two_to, 97);
}

/// For a non-negative decimal, the comparisons with one and with `1/e`, written over
/// its mantissa.
proof fn lemma_compare_positive(x: DecimalModel)
    requires
        !x.negative,
    ensures
        one_model().value_le(x) <==> pow10(x.scale) <= x.mantissa,
        x.value_le(e_inverse_model()) <==> x.mantissa * pow10(28) <= 3678794411714423215955237702
            * pow10(x.scale),
        x.signed() == x.mantissa,
{
    assert(pow10(0) == 1);
    let m = x.mantissa as int;
    assert(m * 1 == m);
    assert(1 * pow10(x.scale) == pow10(x.scale));
}

/// Multiplying a decimal of at least one by `1/e` gives a positive decimal of at most
/// half its value.
proof fn lemma_halving(x: DecimalModel)
    requires
        x.wf(),
        !x.negative,
        pow10(x.scale) <= x.mantissa,
    ensures
        mul_model(x, e_inverse_model()) matches Some(y) && y.wf() && !y.negative && y.mantissa >= 1
            && 2 * y.mantissa * pow10(x.scale) <= x.mantissa * pow10(y.scale),
{
    let ei = e_inverse_model();
    lemma_compare_positive(x);
    let me: nat = 3678794411714423215955237702;
    let k: nat = 2642411176571153568089524596;
    let mb = mantissa_bound();
    lemma_pow10_values();
    lemma_pow10_pos(x.scale);
    assert(at_most(x, (mb - 1) as nat)) by (nonlinear_arith)
        requires
            x.mantissa < mb,
            pow10(x.scale) >= 1,
    ;
    assert(at_most(ei, 1));
    lemma_mul_within(x, ei, (mb - 1) as nat, 1);
    let y = mul_model(x, ei)->0;
    let s = x.scale + 28;
    let least = if s > MAX_SCALE { (s - MAX_SCALE) as nat } else { 0nat };
    assert(least == x.scale);
    let p = x.mantissa * me;
    assert(x.signed() * ei.signed() == p);
    lemma_fewest_dropped_found(p, least, s);
    let j = fewest_dropped(p, least, s)->0;
    assert(y.mantissa == round_half_even(p, pow10(j)) && y.scale == s - j);
    lemma_pow10_pos(j);
    lemma_round_near(p, pow10(j));
    // In both cases `10^j <= x.mantissa * k`, and the product is at least `10^j`.
    if j == x.scale {
        assert(pow10(j) <= x.mantissa * k) by (nonlinear_arith)
            requires
                pow10(j) <= x.mantissa,
                k >= 1,
        ;
        assert(p >= pow10(j)) by (nonlinear_arith)
            requires
                pow10(j) <= x.mantissa,
                p == x.mantissa * me,
                me >= 1,
        ;
    } else {
        let below = (j - 1) as nat;
        lemma_pow10_pos(below);
        assert(pow10(j) == 10 * pow10(below));
        lemma_round_near(p, pow10(below));
        let r = round_half_even(p, pow10(below));
        assert(r >= mb);
        assert(2 * mb * pow10(below) <= 2 * p + pow10(below)) by (nonlinear_arith)
            requires
                2 * r * pow10(below) <= 2 * p + pow10(below),
                r >= mb,
        ;
        assert(pow10(j) <= x.mantissa * k && p >= pow10(j)) by (nonlinear_arith)
            requires
                2 * mb * pow10(below) <= 2 * p + pow10(below),
                pow10(j) == 10 * pow10(below),
                p == x.mantissa * me,
                mb == 79228162514264337593543950336,
                me == 3678794411714423215955237702,
                k == 2642411176571153568089524596,
                pow10(below) >= 1,
        ;
    }
    lemma_round_at_least_one(p, pow10(j));
    lemma_pow10_adds(28, x.scale);
    lemma_pow10_adds(y.scale, j);
    assert(2 * y.mantissa * pow10(x.scale) <= x.mantissa * pow10(y.scale)) by (nonlinear_arith)
        requires
            2 * y.mantissa * pow10(j) <= 2 * p + pow10(j),
            pow10(j) <= x.mantissa * k,
            p == x.mantissa * me,
            me == 3678794411714423215955237702,
            k == 2642411176571153568089524596,
            pow10(s) == pow10(28) * pow10(x.scale),
            pow10(s) == pow10(y.scale) * pow10(j),
            pow10(28) == 10_000_000_000_000_000_000_000_000_000,
            pow10(j) >= 1,
    ;
}

/// Multiplying a positive decimal of at most `1/e` by `e` gives a decimal of at least
/// twice its value and at most two.
proof fn lemma_doubling(x: DecimalModel)
    requires
        x.wf(),
        !x.negative,
        x.mantissa >= 1,
        x.value_le(e_inverse_model()),
    ensures
        mul_model(x, e_model()) matches Some(y) && y.wf() && !y.negative && at_most(y, 2)
            && y.mantissa >= 1 && y.mantissa * pow10(x.scale) >= 2 * x.mantissa * pow10(y.scale),
{
    let e = e_model();
    lemma_compare_positive(x);
    let mi: nat = 3678794411714423215955237702;
    let me: nat = 27182818284590452353602874714;
    lemma_pow10_values();
    lemma_pow10_pos(x.scale);
    lemma_pow10_monotone(x.scale, 28);
    let s = x.scale + 28;
    lemma_pow10_adds(28, x.scale);
    let p = x.mantissa * me;
    assert(x.signed() * e.signed() == p);
    assert(x.mantissa * pow10(28) <= mi * pow10(x.scale));
    assert(p <= 2 * pow10(s)) by (nonlinear_arith)
        requires
            x.mantissa * pow10(28) <= mi * pow10(x.scale),
            p == x.mantissa * me,
            pow10(s) == pow10(28) * pow10(x.scale),
            pow10(28) == 10_000_000_000_000_000_000_000_000_000,
            mi == 3678794411714423215955237702,
            me == 27182818284590452353602874714,
    ;
    lemma_fit_product_within(p as int, s, 2);
    let y = mul_model(x, e)->0;
    // The rounding at scale 28 already fits, so exactly `x.scale` digits are dropped.
    assert(p <= 2 * pow10(28) * pow10(x.scale)) by (nonlinear_arith)
        requires
            p <= 2 * pow10(s),
            pow10(s) == pow10(28) * pow10(x.scale),
    ;
    lemma_round_at_most(p, pow10(x.scale), 2 * pow10(28));
    assert(fits_after_dropping(p, x.scale));
    assert(y.mantissa == round_half_even(p, pow10(x.scale)) && y.scale == 28);
    lemma_round_near(p, pow10(x.scale));
    assert(y.mantissa * pow10(x.scale) >= 2 * x.mantissa * pow10(y.scale)) by (nonlinear_arith)
        requires
            2 * p <= 2 * y.mantissa * pow10(x.scale) + pow10(x.scale),
            p == x.mantissa * me,
            me == 27182818284590452353602874714,
            pow10(y.scale) == 10_000_000_000_000_000_000_000_000_000,
            pow10(x.scale) <= 10_000_000_000_000_000_000_000_000_000,
            x.mantissa >= 1,
    ;
    assert(y.mantissa >= 1) by (nonlinear_arith)
        requires
            y.mantissa * pow10(x.scale) >= 2 * x.mantissa * pow10(y.scale),
            x.mantissa >= 1,
            pow10(y.scale) >= 1,
    ;
}


/// Reducing from above succeeds within `t` steps when `x < 2^t`, and ends on a positive
/// decimal below one, having counted at most `steps` steps.
proof fn lemma_reduce_above_some(x: DecimalModel, c: int, steps: nat, t: nat)
    requires
        x.wf(),
        !x.negative,
        x.mantissa >= 1,
        x.mantissa < two_to(t) * pow10(x.scale),
        t <= steps,
    ensures
        reduce_from_above(x, c, steps) matches Some((y, c2)) && y.wf() && !y.negative && y.mantissa
            >= 1 && y.mantissa < pow10(y.scale) && c <= c2 <= c + steps,
    decreases steps,
{
    lemma_pow10_pos(x.scale);
    lemma_compare_positive(x);
    if one_model().value_le(x) {
        assert(pow10(x.scale) <= x.mantissa);
        if t == 0 {
            assert(two_to(0) == 1);
            assert(1 * pow10(x.scale) == pow10(x.scale));
            assert(false);
        }
        lemma_halving(x);
        let y = mul_model(x, e_inverse_model())->0;
        let half = two_to((t - 1) as nat);
        lemma_pow10_pos(y.scale);
        assert(y.mantissa < half * pow10(y.scale)) by (nonlinear_arith)
            requires
                2 * y.mantissa * pow10(x.scale) <= x.mantissa * pow10(y.scale),
                x.mantissa < 2 * half * pow10(x.scale),
                pow10(x.scale) >= 1,
                pow10(y.scale) >= 1,
        ;
        lemma_reduce_above_some(y, c + 1, (steps - 1) as nat, (t - 1) as nat);
    } else {
        assert(x.mantissa < pow10(x.scale));
    }
}

/// Reducing from below succeeds within `t` steps when `x * 2^t > 1/e`, and ends on a
/// positive decimal of at most two, having counted down at most `steps` steps.
proof fn lemma_reduce_below_some(x: DecimalModel, c: int, steps: nat, t: nat)
    requires
        x.wf(),
        !x.negative,
        x.mantissa >= 1,
        at_most(x, 2),
        x.mantissa * two_to(t) * pow10(28) > 3678794411714423215955237702 * pow10(x.scale),
        t <= steps,
    ensures
        reduce_from_below(x, c, steps) matches Some((y, c2)) && y.wf() && !y.negative && y.mantissa
            >= 1 && at_most(y, 2) && c - steps <= c2 <= c,
    decreases steps,
{
    lemma_pow10_pos(x.scale);
    lemma_pow10_values();
    lemma_compare_positive(x);
    if x.value_le(e_inverse_model()) {
        assert(x.mantissa * pow10(28) <= 3678794411714423215955237702 * pow10(x.scale));
        if t == 0 {
            assert(two_to(0) == 1);
            assert(x.mantissa * 1 == x.mantissa);
            assert(false);
        }
        lemma_doubling(x);
        let y = mul_model(x, e_model())->0;
        let half = two_to((t - 1) as nat);
        lemma_two_to_pos((t - 1) as nat);
        lemma_pow10_pos(y.scale);
        assert(y.mantissa * half * pow10(28) > 3678794411714423215955237702 * pow10(y.scale))
            by (nonlinear_arith)
            requires
                y.mantissa * pow10(x.scale) >= 2 * x.mantissa * pow10(y.scale),
                x.mantissa * (2 * half) * pow10(28) > 3678794411714423215955237702 * pow10(
                    x.scale,
                ),
                pow10(x.scale) >= 1,
                pow10(y.scale) >= 1,
                half >= 1,
                pow10(28) >= 1,
        {
            assert(y.mantissa * pow10(x.scale) * half * pow10(28) >= 2 * x.mantissa * pow10(
                y.scale,
            ) * half * pow10(28));
            assert(2 * x.mantissa * pow10(y.scale) * half * pow10(28) == (x.mantissa * (2 * half)
                * pow10(28)) * pow10(y.scale));
            assert((x.mantissa * (2 * half) * pow10(28)) * pow10(y.scale) > (
            3678794411714423215955237702 * pow10(x.scale)) * pow10(y.scale));
        }
        lemma_reduce_below_some(y, c - 1, (steps - 1) as nat, (t - 1) as nat);
    }
}

/// The series succeeds when `|u| <= 1`: every power stays at most one, every term at most
/// one, and the sum after `k` terms at most `k`.
proof fn lemma_series_some(
    u: DecimalModel,
    power: DecimalModel,
    sum: DecimalModel,
    last: DecimalModel,
    k: nat,
)
    requires
        u.wf(),
        power.wf(),
        sum.wf(),
        at_most(u, 1),
        at_most(power, 1),
        at_most(sum, k),
        k <= SERIES_TERMS,
    ensures
        ln_series(u, power, sum, last, k) matches Some(s) && s.wf() && at_most(
            s,
            SERIES_TERMS as nat,
        ),
    decreases SERIES_TERMS - k,
{
    lemma_pow10_values();
    if sum.same_value(last) || k >= SERIES_TERMS {
        assert(sum.mantissa <= 100 * pow10(sum.scale)) by (nonlinear_arith)
            requires
                sum.mantissa <= k * pow10(sum.scale),
                k <= 100,
        ;
    } else {
        lemma_mul_within(power, u, 1, 1);
        let next_power = mul_model(power, u)->0;
        lemma_div_by_whole_within(next_power, k + 1);
        let term = div_model(next_power, model_of_int((k + 1) as int))->0;
        lemma_add_within(sum, term, k, 1);
        let next_sum = add_model(sum, term)->0;
        lemma_series_some(u, next_power, next_sum, sum, k + 1);
    }
}

/// The logarithm of a reduced argument of at most two, with a count of at most 128 either
/// way, succeeds and is at most 228.
proof fn lemma_ln_reduced_some(y: DecimalModel, c: int)
    requires
        y.wf(),
        !y.negative,
        at_most(y, 2),
        -128 <= c <= 128,
    ensures
        ln_reduced(y, c) matches Some(l) && l.wf() && at_most(l, 228),
{
    lemma_pow10_values();
    lemma_pow10_pos(y.scale);
    assert(pow10(0) == 1);
    let one = one_model();
    let num = difference_numerator(y, one);
    assert(common_scale(y, one) == y.scale);
    lemma_compare_positive(y);
    assert((y.scale - y.scale) as nat == 0);
    assert(y.signed() * pow10(0) == y.mantissa);
    assert(one.signed() * pow10(y.scale) == pow10(y.scale));
    assert(num == y.mantissa - pow10(y.scale));
    lemma_fit_exact_within(num, y.scale, 1);
    let t = sub_model(y, one)->0;
    let whole = model_of_int(c);
    assert(whole.wf() && at_most(whole, 128));
    if t.mantissa != 0 {
        let u = neg_model(t);
        assert(at_most(one, 1) && at_most(zero_model(), 0));
        lemma_series_some(u, one, zero_model(), one, 0);
        let s = ln_series(u, one, zero_model(), one, 0)->0;
        lemma_sub_within(whole, s, 128, 100);
    }
}

/// The logarithm of a positive whole number below `2^96` succeeds and is at most 228.
proof fn lemma_ln_whole_some(m: nat)
    requires
        1 <= m < mantissa_bound(),
    ensures
        ln_whole(m) matches Some(l) && l.wf() && at_most(l, 228),
{
    if m == 1 {
        lemma_pow10_values();
        assert(at_most(zero_model(), 228));
    } else {
        lemma_ln_series_of_whole_some(m);
    }
}

/// The series computation for a whole number succeeds and is at most 228.
proof fn lemma_ln_series_of_whole_some(m: nat)
    requires
        1 <= m < mantissa_bound(),
    ensures
        ln_series_of_whole(m) matches Some(l) && l.wf() && at_most(l, 228),
{
    lemma_two_to_values();
    lemma_pow10_values();
    assert(pow10(0) == 1);
    let start = whole_model(m);
    lemma_reduce_above_some(start, 0, REDUCTION_STEPS as nat, 96);
    let (x, c) = reduce_from_above(start, 0, REDUCTION_STEPS as nat)->0;
    lemma_pow10_monotone(x.scale, 28);
    assert(x.mantissa * two_to(94) * pow10(28) > 3678794411714423215955237702 * pow10(x.scale))
        by (nonlinear_arith)
        requires
            x.mantissa >= 1,
            two_to(94) == 19807040628566084398385987584,
            pow10(28) == 10_000_000_000_000_000_000_000_000_000,
            pow10(x.scale) <= pow10(28),
    ;
    lemma_reduce_below_some(x, c, REDUCTION_STEPS as nat, 94);
    let (y, c2) = reduce_from_below(x, c, REDUCTION_STEPS as nat)->0;
    lemma_ln_reduced_some(y, c2);
}

/// Every positive decimal has a logarithm: zero and the negative numbers are the only
/// arguments on which it fails.
pub proof fn lemma_ln_defined_for_positive(d: DecimalModel)
    requires
        d.wf(),
        !d.negative,
        d.mantissa > 0,
    ensures
        ln_model(d) is Some,
{
    lemma_strip(d.mantissa);
    lemma_ln_whole_some(stripped(d.mantissa));
    let l = ln_whole(stripped(d.mantissa))->0;
    let k = ten_exponent(d);
    if k != 0 {
        lemma_pow10_values();
        lemma_trailing_zeros_bound(d.mantissa);
        let places = model_of_int(k);
        assert(places.wf() && at_most(places, 28));
        assert(at_most(ln10_model(), 3));
        lemma_mul_within(places, ln10_model(), 28, 3);
        let shift = mul_model(places, ln10_model())->0;
        lemma_add_within(l, shift, 228, 84);
    }
}


// ---------------------------------------------------------------------------
// The logarithm depends on the value alone.

/// Scaling by `10^k` adds `k` trailing zeros and keeps what is left after stripping.
proof fn lemma_strip_times_pow10(m: nat, k: nat)
    requires
        m > 0,
    ensures
        stripped(m * pow10(k)) == stripped(m),
        trailing_zeros(m * pow10(k)) == trailing_zeros(m) + k,
    decreases k,
{
    if k == 0 {
        assert(pow10(0) == 1);
        assert(m * 1 == m);
    } else {
        lemma_strip_times_pow10(m, (k - 1) as nat);
        let n = m * pow10((k - 1) as nat);
        lemma_pow10_pos((k - 1) as nat);
        assert(n > 0) by (nonlinear_arith)
            requires
                n == m * pow10((k - 1) as nat),
                m > 0,
                pow10((k - 1) as nat) >= 1,
        ;
        assert(pow10(k) == 10 * pow10((k - 1) as nat));
        assert(m * pow10(k) == 10 * n) by (nonlinear_arith)
            requires
                n == m * pow10((k - 1) as nat),
                pow10(k) == 10 * pow10((k - 1) as nat),
        ;
        assert((10 * n) % 10 == 0 && (10 * n) / 10 == n);
        lemma_strip_step(10 * n);
    }
}

/// Decimals of the same value have the same logarithm: `checked_ln` depends on the number
/// only, not on the scale it is written at.
pub proof fn lemma_ln_depends_on_value(a: DecimalModel, b: DecimalModel)
    requires
        a.wf(),
        b.wf(),
        a.same_value(b),
    ensures
        ln_model(a) == ln_model(b),
{
    lemma_pow10_pos(a.scale);
    lemma_pow10_pos(b.scale);
    let pa = pow10(a.scale) as int;
    let pb = pow10(b.scale) as int;
    let x = a.signed();
    let y = b.signed();
    assert(x * pb == y * pa);
    assert((x > 0) == (y > 0) && (x == 0) == (y == 0)) by (nonlinear_arith)
        requires
            x * pb == y * pa,
            pa >= 1,
            pb >= 1,
    ;
    if !a.negative && a.mantissa > 0 {
        assert(!b.negative && b.mantissa > 0);
        lemma_strip_times_pow10(a.mantissa, b.scale);
        lemma_strip_times_pow10(b.mantissa, a.scale);
        assert(a.mantissa * pow10(b.scale) == b.mantissa * pow10(a.scale));
    } else {
        assert(b.negative || b.mantissa == 0);
    }
}

/// The logarithm of any decimal of value one is exactly zero.
pub proof fn lemma_ln_of_one(d: DecimalModel)
    requires
        d.wf(),
    ensures
        d.same_value(one_model()) ==> ln_model(d) == Some(zero_model()),
{
    if d.same_value(one_model()) {
        assert(one_model().same_value(d)) by {
            assert(d.signed() * pow10(0) == one_model().signed() * pow10(d.scale));
        }
        lemma_pow10_values();
        lemma_ln_depends_on_value(one_model(), d);
        assert(stripped(1) == 1);
        assert(trailing_zeros(1) == 0);
    }
}

// ---------------------------------------------------------------------------
// Ten times a number has a logarithm larger by ln(10).

/// `l + k * ln(10)` as the logarithm computes it.
pub open spec fn shifted_ln(l: DecimalModel, k: int) -> Option<DecimalModel> {
    if k == 0 {
        Some(l)
    } else {
        match mul_model(model_of_int(k), ln10_model()) {
            None => None,
            Some(shift) => add_model(l, shift),
        }
    }
}

/// `k * ln(10)`, for `|k| <= 28`, is exact at scale 27.
proof fn lemma_shift_exact(k: int)
    requires
        -28 <= k <= 28,
        k != 0,
    ensures
        mul_model(model_of_int(k), ln10_model()) matches Some(shift) && shift.wf() && shift.scale
            == 27 && shift.signed() == k * 2302585092994045684017991455 && at_most(shift, 65),
{
    lemma_pow10_values();
    let c: int = 2302585092994045684017991455;
    let num = model_of_int(k).signed() * ln10_model().signed();
    assert(model_of_int(k).signed() == k);
    assert(num == k * c);
    let n = crate::bounds::magnitude(num);
    assert(n <= 28 * c) by (nonlinear_arith)
        requires
            num == k * c,
            -28 <= k <= 28,
            c > 0,
            n == (if num < 0 { -num } else { num }),
    ;
    assert(pow10(0) == 1);
    crate::arith::lemma_round_half_even_bounds(n, 1);
    assert(fits_after_dropping(n, 0));
    assert(fewest_dropped(n, 0, 27) == Some(0nat));
    let shift = mul_model(model_of_int(k), ln10_model())->0;
    assert(shift.mantissa == n && shift.scale == 27);
    assert(pow10(27) == 1_000_000_000_000_000_000_000_000_000) by {
        assert(pow10(28) == 10 * pow10(27));
    }
}

/// `l + k * ln(10)`, for `|l| <= 228` and `|k| <= 28`, succeeds and is within 50 units
/// of `10^-28` of the exact sum.
proof fn lemma_shifted_ln_error(l: DecimalModel, k: int)
    requires
        l.wf(),
        at_most(l, 228),
        -28 <= k <= 28,
    ensures
        shifted_ln(l, k) matches Some(r) && -50 <= units(r) - units(l) - k
            * 23025850929940456840179914550 <= 50,
{
    lemma_pow10_values();
    if k != 0 {
        lemma_shift_exact(k);
        let shift = mul_model(model_of_int(k), ln10_model())->0;
        let s = common_scale(l, shift);
        let num = crate::model::sum_numerator(l, shift);
        let pl = pow10((s - l.scale) as nat);
        let ps = pow10((s - 27) as nat);
        lemma_aligned_within(l.mantissa, l.scale, s, 228);
        lemma_aligned_within(shift.mantissa, 27, s, 65);
        assert(crate::bounds::magnitude(num) <= l.mantissa * pl + shift.mantissa * ps) by (nonlinear_arith)
            requires
                num == l.signed() * pl + shift.signed() * ps,
                l.signed() == (if l.negative { -(l.mantissa as int) } else { l.mantissa as int }),
                shift.signed() == (if shift.negative { -(shift.mantissa as int) } else { shift.mantissa as int }),
                crate::bounds::magnitude(num) == (if num < 0 { -num } else { num }),
                pl >= 0,
                ps >= 0,
        ;
        assert(228 * pow10(s) + 65 * pow10(s) == 293 * pow10(s));
        lemma_fit_exact_error(num, s, 293);
        let f = pow10((MAX_SCALE - s) as nat);
        lemma_pow10_adds((MAX_SCALE - s) as nat, (s - l.scale) as nat);
        lemma_pow10_adds((MAX_SCALE - s) as nat, (s - 27) as nat);
        assert(((MAX_SCALE - s) + (s - l.scale)) as nat == (MAX_SCALE - l.scale) as nat);
        assert(((MAX_SCALE - s) + (s - 27)) as nat == 1);
        assert(pow10(1) == 10);
        assert(num * f == units(l) + k * 23025850929940456840179914550) by (nonlinear_arith)
            requires
                num == l.signed() * pl + shift.signed() * ps,
                shift.signed() == k * 2302585092994045684017991455,
                units(l) == l.signed() * pow10((MAX_SCALE - l.scale) as nat),
                pow10((MAX_SCALE - l.scale) as nat) == f * pl,
                10 == f * ps,
        ;
    }
}

/// A decimal ten times a positive `a` has a logarithm larger by `ln(10)`, to within
/// `10^-25`: with both logarithms in units of `10^-28`,
/// `|ln(10 * a) - ln(a) - ln(10)| <= 1000`, `ln(10)` taken to 28 places.
pub proof fn lemma_ln_of_ten_times(a: DecimalModel, b: DecimalModel)
    requires
        a.wf(),
        b.wf(),
        !a.negative,
        a.mantissa > 0,
        b.signed() * pow10(a.scale) == 10 * a.signed() * pow10(b.scale),
    ensures
        ln_model(a) matches Some(x) && ln_model(b) matches Some(y) && -1000 <= units(y) - units(x)
            - 23025850929940456840179914547 <= 1000,
{
    lemma_pow10_pos(a.scale);
    lemma_pow10_pos(b.scale);
    let pa = pow10(a.scale) as int;
    let pb = pow10(b.scale) as int;
    assert(a.signed() == a.mantissa);
    assert(b.signed() > 0) by (nonlinear_arith)
        requires
            b.signed() * pa == 10 * a.signed() * pb,
            a.signed() > 0,
            pa >= 1,
            pb >= 1,
    ;
    assert(!b.negative && b.mantissa > 0 && b.signed() == b.mantissa);
    // Both have the same stripped mantissa, and b's power of ten is one more.
    lemma_strip_times_pow10(b.mantissa, a.scale);
    lemma_strip_times_pow10(a.mantissa, b.scale + 1);
    lemma_pow10_adds(b.scale, 1);
    assert(pow10(1) == 10);
    assert(a.mantissa * pow10(b.scale + 1) == b.mantissa * pow10(a.scale)) by (nonlinear_arith)
        requires
            b.mantissa * pa == 10 * a.mantissa * pb,
            pow10(b.scale + 1) == pb * 10,
            pa == pow10(a.scale),
    ;
    assert(stripped(a.mantissa) == stripped(b.mantissa));
    assert(ten_exponent(b) == ten_exponent(a) + 1);
    lemma_trailing_zeros_bound(a.mantissa);
    lemma_trailing_zeros_bound(b.mantissa);
    lemma_strip(a.mantissa);
    lemma_ln_whole_some(stripped(a.mantissa));
    let l = ln_whole(stripped(a.mantissa))->0;
    lemma_shifted_ln_error(l, ten_exponent(a));
    lemma_shifted_ln_error(l, ten_exponent(b));
    assert(ln_model(a) == shifted_ln(l, ten_exponent(a)));
    assert(ln_model(b) == shifted_ln(l, ten_exponent(b)));
}

} // verus!
