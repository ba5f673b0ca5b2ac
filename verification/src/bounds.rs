//! Bounds on rounded results: when the exact result of an operation is at most some
//! whole number, the operation succeeds and its rounded result obeys the same bound.
use vstd::prelude::*;
use vstd::arithmetic::div_mod::{lemma_fundamental_div_mod, lemma_mod_bound};
use crate::arith::{
    pow10, mantissa_bound, round_half_even, lemma_pow10_pos, lemma_pow10_adds, lemma_pow10_monotone,
};
use crate::model::{
    DecimalModel, MAX_SCALE, fits_after_dropping, fewest_dropped, fit_exact, common_scale,
    sum_numerator, difference_numerator, add_model, sub_model,
};
use crate::mul::{fit_product, mul_model};
use crate::div::{
    div_model, quotient_rounded, quotient_fits, largest_fitting_scale, first_exact_scale,
    quotient_numerator, quotient_denominator, starting_scale,
};
use crate::model::model_of_int;

verus! {

/// Rounding never passes a whole bound of the exact quotient.
pub proof fn lemma_round_at_most(n: nat, d: nat, bound: nat)
    requires
        d > 0,
        n <= bound * d,
    ensures
        round_half_even(n, d) <= bound,
{
    lemma_fundamental_div_mod(n as int, d as int);
    lemma_mod_bound(n as int, d as int);
    let q = n / d;
    let r = n % d;
    assert(q <= bound) by (nonlinear_arith)
        requires
            n == d * q + r,
            r >= 0,
            n <= bound * d,
            d > 0,
    ;
    if q == bound {
        assert(r == 0) by (nonlinear_arith)
            requires
                n == d * q + r,
                n <= bound * d,
                q == bound,
                r >= 0,
        ;
    }
}

/// Rounding lands within half a unit of the exact quotient.
pub proof fn lemma_round_near(n: nat, d: nat)
    requires
        d > 0,
    ensures
        2 * round_half_even(n, d) * d <= 2 * n + d,
        2 * n <= 2 * round_half_even(n, d) * d + d,
{
    lemma_fundamental_div_mod(n as int, d as int);
    lemma_mod_bound(n as int, d as int);
    let q = n / d;
    let r = n % d;
    let rounded = round_half_even(n, d);
    if rounded == q + 1 {
        assert(2 * r >= d);
        assert(2 * rounded * d <= 2 * n + d && 2 * n <= 2 * rounded * d + d) by (nonlinear_arith)
            requires
                n == d * q + r,
                rounded == q + 1,
                2 * r >= d,
                r < d,
        ;
    } else {
        assert(2 * r <= d);
        assert(2 * rounded * d <= 2 * n + d && 2 * n <= 2 * rounded * d + d) by (nonlinear_arith)
            requires
                n == d * q + r,
                rounded == q,
                2 * r <= d,
                r >= 0,
        ;
    }
}

/// Rounding a quotient of at least one gives at least one.
pub proof fn lemma_round_at_least_one(n: nat, d: nat)
    requires
        d > 0,
        n >= d,
    ensures
        round_half_even(n, d) >= 1,
{
    lemma_fundamental_div_mod(n as int, d as int);
    lemma_mod_bound(n as int, d as int);
    let q = n / d;
    let r = n % d;
    assert(q >= 1) by (nonlinear_arith)
        requires
            n == d * q + r,
            r < d,
            n >= d,
    ;
}

/// Rounding that fits at some `j <= s` means the fewest dropped digits exist.
pub proof fn lemma_fewest_dropped_exists(n: nat, i: nat, j: nat, s: nat)
    requires
        i <= j <= s,
        fits_after_dropping(n, j),
    ensures
        fewest_dropped(n, i, s) is Some,
    decreases j - i,
{
    if !fits_after_dropping(n, i) {
        lemma_fewest_dropped_exists(n, i + 1, j, s);
    }
}

/// What the fewest dropped digits are: they lie in `i..=s`, the rounding fits there, and
/// one digit fewer (when that is still at least `i`) does not fit.
pub proof fn lemma_fewest_dropped_found(n: nat, i: nat, s: nat)
    ensures
        fewest_dropped(n, i, s) matches Some(j) ==> i <= j <= s && fits_after_dropping(n, j) && (j
            > i ==> !fits_after_dropping(n, (j - 1) as nat)),
    decreases s + 1 - i,
{
    if i <= s && !fits_after_dropping(n, i) {
        lemma_fewest_dropped_found(n, i + 1, s);
    }
}

/// When `n <= bound * 10^s` for a bound that fits, the fewest dropped digits from
/// `least` exist, and the rounded value keeps the bound at the scale that is left.
pub proof fn lemma_dropped_within(n: nat, least: nat, s: nat, bound: nat)
    requires
        least <= s,
        n <= bound * pow10(s),
        bound < mantissa_bound(),
    ensures
        fewest_dropped(n, least, s) matches Some(j) && least <= j <= s && round_half_even(
            n,
            pow10(j),
        ) <= bound * pow10((s - j) as nat) && round_half_even(n, pow10(j)) < mantissa_bound(),
{
    lemma_pow10_pos(s);
    lemma_round_at_most(n, pow10(s), bound);
    lemma_fewest_dropped_exists(n, least, s, s);
    lemma_fewest_dropped_found(n, least, s);
    let j = fewest_dropped(n, least, s)->0;
    lemma_pow10_adds((s - j) as nat, j);
    lemma_pow10_pos(j);
    assert(n <= (bound * pow10((s - j) as nat)) * pow10(j)) by (nonlinear_arith)
        requires
            n <= bound * pow10(s),
            pow10(s) == pow10((s - j) as nat) * pow10(j),
    ;
    lemma_round_at_most(n, pow10(j), bound * pow10((s - j) as nat));
}

/// The magnitude of an integer.
pub open spec fn magnitude(num: int) -> nat {
    (if num < 0 { -num } else { num }) as nat
}

/// A decimal whose magnitude is at most `bound`.
pub open spec fn at_most(d: DecimalModel, bound: nat) -> bool {
    d.mantissa <= bound * pow10(d.scale)
}

/// An exact sum or difference of magnitude at most `bound` is representable, with the
/// same bound.
pub proof fn lemma_fit_exact_within(num: int, s: nat, bound: nat)
    requires
        s <= MAX_SCALE,
        magnitude(num) <= bound * pow10(s),
        bound < mantissa_bound(),
    ensures
        fit_exact(num, s) matches Some(c) && c.wf() && at_most(c, bound) && c.negative == (num
            < 0 && c.mantissa != 0),
{
    lemma_dropped_within(magnitude(num), 0, s, bound);
}

/// An exact product of magnitude at most `bound` is representable, with the same bound.
pub proof fn lemma_fit_product_within(num: int, s: nat, bound: nat)
    requires
        s <= 2 * MAX_SCALE,
        magnitude(num) <= bound * pow10(s),
        bound < mantissa_bound(),
    ensures
        fit_product(num, s) matches Some(c) && c.wf() && at_most(c, bound) && c.negative == (num
            < 0 && c.mantissa != 0),
{
    let least = if s > MAX_SCALE { (s - MAX_SCALE) as nat } else { 0 };
    lemma_dropped_within(magnitude(num), least, s, bound);
}

/// The product of decimals of magnitudes at most `x` and `y`, with `x * y` fitting, is
/// representable and at most `x * y`.
pub proof fn lemma_mul_within(a: DecimalModel, b: DecimalModel, x: nat, y: nat)
    requires
        a.wf(),
        b.wf(),
        at_most(a, x),
        at_most(b, y),
        x * y < mantissa_bound(),
    ensures
        mul_model(a, b) matches Some(c) && c.wf() && at_most(c, x * y) && c.negative == (a.negative
            != b.negative && c.mantissa != 0),
{
    let num = a.signed() * b.signed();
    let s = a.scale + b.scale;
    lemma_pow10_adds(a.scale, b.scale);
    assert(magnitude(num) == a.mantissa * b.mantissa) by (nonlinear_arith)
        requires
            num == a.signed() * b.signed(),
            a.signed() == (if a.negative { -(a.mantissa as int) } else { a.mantissa as int }),
            b.signed() == (if b.negative { -(b.mantissa as int) } else { b.mantissa as int }),
            magnitude(num) == (if num < 0 { -num } else { num }),
    ;
    assert(a.mantissa * b.mantissa <= (x * y) * pow10(s)) by (nonlinear_arith)
        requires
            a.mantissa <= x * pow10(a.scale),
            b.mantissa <= y * pow10(b.scale),
            pow10(s) == pow10(a.scale) * pow10(b.scale),
    ;
    lemma_fit_product_within(num, s, x * y);
    if num == 0 {
        lemma_fit_product_within(num, s, 0);
    } else {
        assert((num < 0) == (a.negative != b.negative)) by (nonlinear_arith)
            requires
                num == a.signed() * b.signed(),
                num != 0,
                a.signed() == (if a.negative { -(a.mantissa as int) } else { a.mantissa as int }),
                b.signed() == (if b.negative { -(b.mantissa as int) } else { b.mantissa as int }),
        ;
    }
}

/// A term `m * 10^(s - t)` of a numerator over `10^s`, for a decimal at scale `t` of
/// magnitude at most `x`, is at most `x * 10^s`.
pub proof fn lemma_aligned_within(m: nat, t: nat, s: nat, x: nat)
    requires
        t <= s,
        m <= x * pow10(t),
    ensures
        m * pow10((s - t) as nat) <= x * pow10(s),
{
    lemma_pow10_adds((s - t) as nat, t);
    assert(m * pow10((s - t) as nat) <= x * pow10(s)) by (nonlinear_arith)
        requires
            m <= x * pow10(t),
            pow10(s) == pow10((s - t) as nat) * pow10(t),
    ;
}

/// The sum of decimals of magnitudes at most `x` and `y`, with `x + y` fitting, is
/// representable and at most `x + y`.
pub proof fn lemma_add_within(a: DecimalModel, b: DecimalModel, x: nat, y: nat)
    requires
        a.wf(),
        b.wf(),
        at_most(a, x),
        at_most(b, y),
        x + y < mantissa_bound(),
    ensures
        add_model(a, b) matches Some(c) && c.wf() && at_most(c, (x + y) as nat),
{
    let s = common_scale(a, b);
    let pa = pow10((s - a.scale) as nat);
    let pb = pow10((s - b.scale) as nat);
    lemma_aligned_within(a.mantissa, a.scale, s, x);
    lemma_aligned_within(b.mantissa, b.scale, s, y);
    let num = sum_numerator(a, b);
    assert(magnitude(num) <= a.mantissa * pa + b.mantissa * pb) by (nonlinear_arith)
        requires
            num == a.signed() * pa + b.signed() * pb,
            a.signed() == (if a.negative { -(a.mantissa as int) } else { a.mantissa as int }),
            b.signed() == (if b.negative { -(b.mantissa as int) } else { b.mantissa as int }),
            magnitude(num) == (if num < 0 { -num } else { num }),
            pa >= 0,
            pb >= 0,
    ;
    assert(x * pow10(s) + y * pow10(s) == (x + y) * pow10(s)) by (nonlinear_arith);
    lemma_fit_exact_within(num, s, (x + y) as nat);
}

/// The difference of decimals of magnitudes at most `x` and `y`, with `x + y` fitting,
/// is representable and at most `x + y`.
pub proof fn lemma_sub_within(a: DecimalModel, b: DecimalModel, x: nat, y: nat)
    requires
        a.wf(),
        b.wf(),
        at_most(a, x),
        at_most(b, y),
        x + y < mantissa_bound(),
    ensures
        sub_model(a, b) matches Some(c) && c.wf() && at_most(c, (x + y) as nat),
{
    let s = common_scale(a, b);
    let pa = pow10((s - a.scale) as nat);
    let pb = pow10((s - b.scale) as nat);
    lemma_aligned_within(a.mantissa, a.scale, s, x);
    lemma_aligned_within(b.mantissa, b.scale, s, y);
    let num = difference_numerator(a, b);
    assert(magnitude(num) <= a.mantissa * pa + b.mantissa * pb) by (nonlinear_arith)
        requires
            num == a.signed() * pa - b.signed() * pb,
            a.signed() == (if a.negative { -(a.mantissa as int) } else { a.mantissa as int }),
            b.signed() == (if b.negative { -(b.mantissa as int) } else { b.mantissa as int }),
            magnitude(num) == (if num < 0 { -num } else { num }),
            pa >= 0,
            pb >= 0,
    ;
    assert(x * pow10(s) + y * pow10(s) == (x + y) * pow10(s)) by (nonlinear_arith);
    lemma_fit_exact_within(num, s, (x + y) as nat);
}

/// The first exact scale from `i` up to `top`, when there is one, lies in `i..=top`.
pub proof fn lemma_first_exact_within(a: DecimalModel, b: DecimalModel, i: nat, top: nat)
    ensures
        first_exact_scale(a, b, i, top) matches Some(t) ==> i <= t <= top,
    decreases top + 1 - i,
{
    if i <= top {
        lemma_first_exact_within(a, b, i + 1, top);
    }
}

/// At any scale `t`, the rounded quotient of a decimal of magnitude at most one by a
/// positive whole number is at most `10^t`.
proof fn lemma_quotient_by_whole_within(a: DecimalModel, k: nat, t: nat)
    requires
        at_most(a, 1),
        k >= 1,
    ensures
        quotient_rounded(a, model_of_int(k as int), t) <= pow10(t),
{
    let b = model_of_int(k as int);
    lemma_pow10_pos(a.scale);
    lemma_pow10_pos(t);
    assert(b.scale == 0 && b.mantissa == k);
    let n = quotient_numerator(a, b, t);
    let d = quotient_denominator(a, b);
    assert(n <= pow10(t) * d) by (nonlinear_arith)
        requires
            n == a.mantissa * pow10(t),
            d == k * pow10(a.scale),
            a.mantissa <= 1 * pow10(a.scale),
            k >= 1,
            pow10(t) >= 1,
    ;
    assert(d > 0) by (nonlinear_arith)
        requires
            d == k * pow10(a.scale),
            k >= 1,
            pow10(a.scale) >= 1,
    ;
    lemma_round_at_most(n, d, pow10(t));
}

/// A decimal of magnitude at most one divided by a positive whole number below `2^96`
/// is representable and of magnitude at most one.
pub proof fn lemma_div_by_whole_within(a: DecimalModel, k: nat)
    requires
        a.wf(),
        at_most(a, 1),
        1 <= k < mantissa_bound(),
    ensures
        div_model(a, model_of_int(k as int)) matches Some(c) && c.wf() && at_most(c, 1),
{
    let b = model_of_int(k as int);
    crate::arith::lemma_pow10_values();
    lemma_quotient_by_whole_within(a, k, MAX_SCALE as nat);
    assert(quotient_fits(a, b, MAX_SCALE as nat));
    assert(largest_fitting_scale(a, b, MAX_SCALE as nat) == Some(MAX_SCALE as nat));
    let t0 = starting_scale(a, b);
    lemma_first_exact_within(a, b, t0, MAX_SCALE as nat);
    let t = match first_exact_scale(a, b, t0, MAX_SCALE as nat) {
        Some(t) => t,
        None => MAX_SCALE as nat,
    };
    lemma_quotient_by_whole_within(a, k, t);
    lemma_pow10_monotone(t, MAX_SCALE as nat);
    assert(1 * pow10(t) == pow10(t));
}

/// The fewest dropped digits are no more than any count that fits.
pub proof fn lemma_fewest_dropped_at_most(n: nat, i: nat, s: nat, k: nat)
    requires
        i <= k <= s,
        fits_after_dropping(n, k),
    ensures
        fewest_dropped(n, i, s) matches Some(j) && i <= j <= k,
    decreases k - i,
{
    if !fits_after_dropping(n, i) {
        lemma_fewest_dropped_at_most(n, i + 1, s, k);
    }
}

/// A decimal in units of `10^-28`.
pub open spec fn units(d: DecimalModel) -> int {
    d.signed() * pow10((MAX_SCALE - d.scale) as nat)
}

/// An exact sum or difference `num / 10^s` of magnitude at most `bound <= 790`, at a
/// scale `s` of 27 or 28, is representable and rounded within half a unit of
/// `10^-26`: in units of `10^-28` it is within 50 of the exact value.
pub proof fn lemma_fit_exact_error(num: int, s: nat, bound: nat)
    requires
        27 <= s <= MAX_SCALE,
        magnitude(num) <= bound * pow10(s),
        bound <= 790,
    ensures
        fit_exact(num, s) matches Some(c) && c.wf() && -50 <= units(c) - num * pow10(
            (MAX_SCALE - s) as nat,
        ) <= 50,
{
    crate::arith::lemma_pow10_values();
    let n = magnitude(num);
    let jc = (s - 26) as nat;
    lemma_pow10_adds((s - jc) as nat, jc);
    lemma_pow10_pos(jc);
    assert(pow10(26) * 100 == pow10(28)) by {
        lemma_pow10_adds(26, 2);
        assert(pow10(2) == 100) by {
            reveal_with_fuel(pow10, 3);
        }
    }
    assert(n <= (bound * pow10(26)) * pow10(jc)) by (nonlinear_arith)
        requires
            n <= bound * pow10(s),
            pow10(s) == pow10(26) * pow10(jc),
    ;
    lemma_round_at_most(n, pow10(jc), bound * pow10(26));
    assert(bound * pow10(26) < mantissa_bound()) by (nonlinear_arith)
        requires
            bound <= 790,
            pow10(26) * 100 == pow10(28),
            pow10(28) == 10_000_000_000_000_000_000_000_000_000,
            mantissa_bound() == 79228162514264337593543950336,
    ;
    lemma_fewest_dropped_at_most(n, 0, s, jc);
    lemma_fewest_dropped_found(n, 0, s);
    let j = fewest_dropped(n, 0, s)->0;
    let c = fit_exact(num, s)->0;
    let r = round_half_even(n, pow10(j));
    assert(c.mantissa == r && c.scale == s - j);
    assert(c.wf());
    lemma_pow10_pos(j);
    lemma_round_near(n, pow10(j));
    let q = c.signed();
    assert(q == (if num < 0 { -(r as int) } else { r as int }));
    assert(-(pow10(j) as int) <= 2 * q * pow10(j) - 2 * num <= pow10(j)) by (nonlinear_arith)
        requires
            2 * r * pow10(j) <= 2 * n + pow10(j),
            2 * n <= 2 * r * pow10(j) + pow10(j),
            q == (if num < 0 { -(r as int) } else { r as int }),
            n == (if num < 0 { -num } else { num }),
    ;
    let f = pow10((MAX_SCALE - s) as nat);
    let g = pow10((MAX_SCALE - c.scale) as nat);
    lemma_pow10_adds((MAX_SCALE - s) as nat, j);
    assert((MAX_SCALE - s) as nat + j == (MAX_SCALE - c.scale) as nat);
    assert(g == f * pow10(j));
    assert(units(c) == q * g);
    if j == 0 {
        assert(pow10(0) == 1);
        crate::arith::lemma_round_half_even_bounds(n, 1);
        assert(q == num);
        assert(units(c) == num * f);
    } else {
        assert(j <= 2);
        crate::arith::lemma_pow10_monotone((MAX_SCALE - c.scale) as nat, 2);
        assert(pow10(2) == 100) by {
            reveal_with_fuel(pow10, 3);
        }
        assert(-(g as int) <= 2 * units(c) - 2 * (num * f) <= g) by (nonlinear_arith)
            requires
                -(pow10(j) as int) <= 2 * q * pow10(j) - 2 * num <= pow10(j),
                units(c) == q * g,
                g == f * pow10(j),
                f >= 1,
        ;
        assert(g <= 100);
        assert(-50 <= units(c) - num * f <= 50);
    }
    assert(-50 <= units(c) - num * f <= 50);
}

} // verus!
