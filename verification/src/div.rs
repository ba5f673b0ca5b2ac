//! Division of decimals.
//!
//! The quotient keeps at least the scale of the dividend less that of the divisor: it is
//! given at the smallest scale from there at which it is exact, or else rounded (half to
//! even) at the largest scale up to 28 at which it fits in 96 bits. Zero divided by
//! anything non-zero is zero.
use vstd::prelude::*;
use vstd::arithmetic::div_mod::{
    lemma_fundamental_div_mod, lemma_fundamental_div_mod_converse, lemma_mod_bound,
    lemma_div_is_ordered,
};
use crate::arith::{
    pow10, mantissa_bound, round_half_even, lemma_pow10_pos, lemma_pow10_adds, lemma_pow10_values,
    lemma_round_half_even_bounds, lemma_pow10_monotone,
};
use crate::model::{DecimalModel, MAX_SCALE, signed_model, zero_model};
use crate::decimal::Decimal;
use crate::ops::opt_model;

verus! {

/// The numerator of `|a / b| * 10^t`.
pub open spec fn quotient_numerator(a: DecimalModel, b: DecimalModel, t: nat) -> nat {
    a.mantissa * pow10(b.scale + t)
}

/// The denominator of `|a / b| * 10^t`.
pub open spec fn quotient_denominator(a: DecimalModel, b: DecimalModel) -> nat {
    b.mantissa * pow10(a.scale)
}

/// `|a / b| * 10^t` rounded half to even.
pub open spec fn quotient_rounded(a: DecimalModel, b: DecimalModel, t: nat) -> nat {
    round_half_even(quotient_numerator(a, b, t), quotient_denominator(a, b))
}

/// The rounded quotient at scale `t` fits in 96 bits.
pub open spec fn quotient_fits(a: DecimalModel, b: DecimalModel, t: nat) -> bool {
    quotient_rounded(a, b, t) < mantissa_bound()
}

/// The quotient is exact at scale `t`.
pub open spec fn quotient_exact(a: DecimalModel, b: DecimalModel, t: nat) -> bool {
    quotient_numerator(a, b, t) % quotient_denominator(a, b) == 0
}

/// The largest scale of at most `t` at which the rounded quotient fits.
pub open spec fn largest_fitting_scale(a: DecimalModel, b: DecimalModel, t: nat) -> Option<nat>
    decreases t,
{
    if quotient_fits(a, b, t) {
        Some(t)
    } else if t == 0 {
        None
    } else {
        largest_fitting_scale(a, b, (t - 1) as nat)
    }
}

/// The smallest scale in `t..=top` at which the quotient is exact.
pub open spec fn first_exact_scale(a: DecimalModel, b: DecimalModel, t: nat, top: nat) -> Option<
    nat,
>
    decreases top + 1 - t,
{
    if t > top {
        None
    } else if quotient_exact(a, b, t) {
        Some(t)
    } else {
        first_exact_scale(a, b, t + 1, top)
    }
}

/// The scale a quotient starts from: the dividend's scale less the divisor's, or 0.
pub open spec fn starting_scale(a: DecimalModel, b: DecimalModel) -> nat {
    if a.scale > b.scale {
        (a.scale - b.scale) as nat
    } else {
        0
    }
}

/// `a / b`: `None` when `b` is zero or the quotient does not fit even at scale 0; zero
/// when `a` is zero; otherwise the quotient at the smallest scale from
/// `starting_scale(a, b)` at which it is exact, or else rounded at the largest scale that
/// fits.
pub open spec fn div_model(a: DecimalModel, b: DecimalModel) -> Option<DecimalModel> {
    if b.mantissa == 0 {
        None
    } else if a.mantissa == 0 {
        Some(zero_model())
    } else {
        match largest_fitting_scale(a, b, MAX_SCALE as nat) {
            None => None,
            Some(top) => {
                let t = match first_exact_scale(a, b, starting_scale(a, b), top) {
                    Some(t) => t,
                    None => top,
                };
                Some(signed_model(a.negative != b.negative, quotient_rounded(a, b, t), t))
            },
        }
    }
}

/// A quotient times the divisor lies within half a unit of the quotient's last place
/// (times the divisor) of the dividend: with `a = x / 10^sa`, `b = y / 10^sb` and
/// `c = q / 10^t`, `|2 * q * y * 10^sa - 2 * x * 10^(sb + t)| <= |y| * 10^sa`. In
/// particular a non-zero quotient is negative exactly when the operands' signs differ.
pub proof fn lemma_quotient_within_half_unit(a: DecimalModel, b: DecimalModel)
    requires
        a.wf(),
        b.wf(),
    ensures
        div_model(a, b) matches Some(c) ==> {
            &&& b.mantissa > 0
            &&& c.wf()
            &&& (c.mantissa != 0 ==> c.negative == (a.negative != b.negative))
            &&& -(b.mantissa * pow10(a.scale)) <= 2 * c.signed() * b.signed() * pow10(a.scale) - 2
                * a.signed() * pow10(b.scale + c.scale) <= b.mantissa * pow10(a.scale)
        },
{
    if let Some(c) = div_model(a, b) {
        if a.mantissa != 0 {
            let top = largest_fitting_scale(a, b, MAX_SCALE as nat)->0;
            lemma_largest_within(a, b, MAX_SCALE as nat);
            crate::bounds::lemma_first_exact_within(a, b, starting_scale(a, b), top);
            let t = c.scale;
            assert(t <= top);
            if !quotient_fits(a, b, t) {
                lemma_no_fit_beyond(a, b, t, top);
            }
            let n = quotient_numerator(a, b, t);
            let d = quotient_denominator(a, b);
            let r = quotient_rounded(a, b, t);
            lemma_pow10_pos(a.scale);
            assert(d > 0) by (nonlinear_arith)
                requires
                    d == b.mantissa * pow10(a.scale),
                    b.mantissa > 0,
                    pow10(a.scale) >= 1,
            ;
            crate::bounds::lemma_round_near(n, d);
            let x = a.signed();
            let y = b.signed();
            let q = c.signed();
            let neg = a.negative != b.negative;
            assert(q == (if neg { -(r as int) } else { r as int }));
            assert(x == (if a.negative { -(a.mantissa as int) } else { a.mantissa as int }));
            assert(y == (if b.negative { -(b.mantissa as int) } else { b.mantissa as int }));
            let p = pow10(a.scale) as int;
            let e = pow10(b.scale + t) as int;
            assert(-(b.mantissa * p) <= 2 * q * y * p - 2 * x * e <= b.mantissa * p) by (nonlinear_arith)
                requires
                    2 * r * d <= 2 * n + d,
                    2 * n <= 2 * r * d + d,
                    d == b.mantissa * p,
                    n == a.mantissa * e,
                    q == (if neg { -(r as int) } else { r as int }),
                    x == (if a.negative { -(a.mantissa as int) } else { a.mantissa as int }),
                    y == (if b.negative { -(b.mantissa as int) } else { b.mantissa as int }),
                    neg == (a.negative != b.negative),
            ;
            assert(c.wf()) by {
                lemma_pow10_values();
            }
            assert(b.mantissa > 0);
            assert(c.mantissa != 0 ==> c.negative == (a.negative != b.negative));
            assert(2 * c.signed() * b.signed() * pow10(a.scale) == 2 * q * y * p);
            assert(2 * a.signed() * pow10(b.scale + c.scale) == 2 * x * e);
        } else {
            assert(c.signed() == 0);
            assert(a.signed() == 0);
            let u = c.signed() * b.signed() * pow10(a.scale);
            let v = a.signed() * pow10(b.scale + c.scale);
            assert(u == 0) by (nonlinear_arith)
                requires
                    u == c.signed() * b.signed() * pow10(a.scale),
                    c.signed() == 0,
            ;
            assert(v == 0) by (nonlinear_arith)
                requires
                    v == a.signed() * pow10(b.scale + c.scale),
                    a.signed() == 0,
            ;
            assert(c.wf()) by {
                lemma_pow10_values();
            }
        }
    }
}

// ---------------------------------------------------------------------------
// Facts about scaled quotients.

/// Scaling dividend and divisor by the same factor keeps the quotient and the rounding,
/// and scales the remainder.
pub proof fn lemma_scaled_division(x: nat, y: nat, c: nat)
    requires
        y > 0,
        c > 0,
    ensures
        (x * c) / (y * c) == x / y,
        (x * c) % (y * c) == (x % y) * c,
        round_half_even(x * c, y * c) == round_half_even(x, y),
{
    lemma_fundamental_div_mod(x as int, y as int);
    lemma_mod_bound(x as int, y as int);
    let q = x / y;
    let r = x % y;
    assert(x * c == (y * c) * q + r * c) by (nonlinear_arith)
        requires
            x == y * q + r,
    ;
    assert(0 <= r * c < y * c) by (nonlinear_arith)
        requires
            0 <= r < y,
            c > 0,
    ;
    lemma_fundamental_div_mod_converse((x * c) as int, (y * c) as int, q as int, (r * c) as int);
    assert((2 * (r * c) > y * c) <==> (2 * r > y)) by (nonlinear_arith)
        requires
            c > 0,
    ;
    assert((2 * (r * c) == y * c) <==> (2 * r == y)) by (nonlinear_arith)
        requires
            c > 0,
    ;
}

/// Multiplying a dividend by ten at least multiplies the floor quotient by ten, and the
/// long-division step computes the new quotient and remainder.
pub proof fn lemma_division_step(x: nat, y: nat)
    requires
        y > 0,
    ensures
        (10 * x) / y == 10 * (x / y) + (10 * (x % y)) / y,
        (10 * x) % y == (10 * (x % y)) % y,
        (10 * x) / y >= 10 * (x / y),
{
    lemma_fundamental_div_mod(x as int, y as int);
    lemma_mod_bound(x as int, y as int);
    let q = x / y;
    let r = x % y;
    let r10 = 10 * r;
    lemma_fundamental_div_mod(r10 as int, y as int);
    lemma_mod_bound(r10 as int, y as int);
    let q2 = r10 / y;
    let r2 = r10 % y;
    assert(10 * x == y * (10 * q + q2) + r2) by (nonlinear_arith)
        requires
            x == y * q + r,
            r10 == y * q2 + r2,
            r10 == 10 * r,
    ;
    lemma_fundamental_div_mod_converse((10 * x) as int, y as int, (10 * q + q2) as int, r2 as int);
    assert(q2 >= 0) by {
        vstd::arithmetic::div_mod::lemma_div_pos_is_pos(r10 as int, y as int);
    }
}

/// The quotient at scale `t + 1` has ten times the numerator of scale `t`.
pub proof fn lemma_numerator_next(a: DecimalModel, b: DecimalModel, t: nat)
    ensures
        quotient_numerator(a, b, t + 1) == 10 * quotient_numerator(a, b, t),
{
    assert(pow10(b.scale + t + 1) == 10 * pow10(b.scale + t));
    assert(a.mantissa * (10 * pow10(b.scale + t)) == 10 * (a.mantissa * pow10(b.scale + t)))
        by (nonlinear_arith);
}

/// Once the rounded quotient does not fit, it does not fit at a larger scale either.
pub proof fn lemma_no_fit_next(a: DecimalModel, b: DecimalModel, t: nat)
    requires
        b.mantissa > 0,
        !quotient_fits(a, b, t),
    ensures
        !quotient_fits(a, b, t + 1),
{
    let d = quotient_denominator(a, b);
    lemma_pow10_pos(a.scale);
    assert(d > 0) by (nonlinear_arith)
        requires
            b.mantissa > 0,
            pow10(a.scale) > 0,
            d == b.mantissa * pow10(a.scale),
    ;
    let n = quotient_numerator(a, b, t);
    lemma_numerator_next(a, b, t);
    lemma_round_half_even_bounds(n, d);
    lemma_round_half_even_bounds(10 * n, d);
    lemma_division_step(n, d);
}

/// No scale at or above `t` fits once `t` does not.
pub proof fn lemma_no_fit_beyond(a: DecimalModel, b: DecimalModel, t: nat, u: nat)
    requires
        b.mantissa > 0,
        !quotient_fits(a, b, t),
        t <= u,
    ensures
        !quotient_fits(a, b, u),
    decreases u - t,
{
    if t < u {
        lemma_no_fit_beyond(a, b, t, (u - 1) as nat);
        lemma_no_fit_next(a, b, (u - 1) as nat);
    }
}

/// The largest fitting scale up to `u` is `t`, when `t` fits and no scale in `t+1..=u` does.
pub proof fn lemma_largest_is(a: DecimalModel, b: DecimalModel, t: nat, u: nat)
    requires
        t <= u,
        quotient_fits(a, b, t),
        forall|v: nat| t < v <= u ==> !#[trigger] quotient_fits(a, b, v),
    ensures
        largest_fitting_scale(a, b, u) == Some(t),
    decreases u,
{
    if t < u {
        assert(!quotient_fits(a, b, u));
        lemma_largest_is(a, b, t, (u - 1) as nat);
    }
}

/// When scale `t` fits, the largest fitting scale up to `u >= t` exists and is at least `t`.
pub proof fn lemma_largest_at_least(a: DecimalModel, b: DecimalModel, t: nat, u: nat)
    requires
        t <= u,
        quotient_fits(a, b, t),
    ensures
        largest_fitting_scale(a, b, u) matches Some(top) && t <= top <= u,
    decreases u,
{
    if t < u && !quotient_fits(a, b, u) {
        lemma_largest_at_least(a, b, t, (u - 1) as nat);
    }
}

/// The largest fitting scale up to `u`, when there is one, is at most `u` and fits.
pub proof fn lemma_largest_within(a: DecimalModel, b: DecimalModel, u: nat)
    ensures
        largest_fitting_scale(a, b, u) matches Some(top) ==> top <= u && quotient_fits(a, b, top),
    decreases u,
{
    if !quotient_fits(a, b, u) && u > 0 {
        lemma_largest_within(a, b, (u - 1) as nat);
    }
}

/// Nothing fits up to `u` when scale 0 does not fit.
pub proof fn lemma_largest_none(a: DecimalModel, b: DecimalModel, u: nat)
    requires
        b.mantissa > 0,
        !quotient_fits(a, b, 0),
    ensures
        largest_fitting_scale(a, b, u) is None,
    decreases u,
{
    lemma_no_fit_beyond(a, b, 0, u);
    if u > 0 {
        lemma_largest_none(a, b, (u - 1) as nat);
    }
}

/// The first exact scale from `i` is `t` when `t` is exact, no scale in `i..t` is, and
/// `t <= top`.
pub proof fn lemma_first_exact_is(a: DecimalModel, b: DecimalModel, i: nat, t: nat, top: nat)
    requires
        i <= t <= top,
        quotient_exact(a, b, t),
        forall|j: nat| i <= j < t ==> !#[trigger] quotient_exact(a, b, j),
    ensures
        first_exact_scale(a, b, i, top) == Some(t),
    decreases t - i,
{
    if i < t {
        lemma_first_exact_is(a, b, i + 1, t, top);
    }
}

/// There is no first exact scale from `i` when no scale in `i..=top` is exact.
pub proof fn lemma_first_exact_none(a: DecimalModel, b: DecimalModel, i: nat, top: nat)
    requires
        forall|j: nat| i <= j <= top ==> !#[trigger] quotient_exact(a, b, j),
    ensures
        first_exact_scale(a, b, i, top) is None,
    decreases top + 1 - i,
{
    if i <= top {
        lemma_first_exact_none(a, b, i + 1, top);
    }
}

/// The dividend of the long division at scale `t`, when `b.scale + t >= a.scale`.
pub open spec fn long_dividend(a: DecimalModel, b: DecimalModel, t: nat) -> nat {
    a.mantissa * pow10((b.scale + t - a.scale) as nat)
}

/// At a scale where the quotient is shifted left, rounding and exactness are those of
/// `long_dividend / b.mantissa`.
pub proof fn lemma_quotient_shifted_left(a: DecimalModel, b: DecimalModel, t: nat)
    requires
        b.mantissa > 0,
        a.scale <= b.scale + t,
    ensures
        quotient_rounded(a, b, t) == round_half_even(long_dividend(a, b, t), b.mantissa),
        quotient_exact(a, b, t) <==> long_dividend(a, b, t) % b.mantissa == 0,
{
    let e = (b.scale + t - a.scale) as nat;
    let c = pow10(a.scale);
    let x = long_dividend(a, b, t);
    lemma_pow10_adds(e, a.scale);
    lemma_pow10_pos(a.scale);
    assert(quotient_numerator(a, b, t) == x * c) by (nonlinear_arith)
        requires
            quotient_numerator(a, b, t) == a.mantissa * pow10(b.scale + t),
            pow10(b.scale + t) == pow10(e) * c,
            x == a.mantissa * pow10(e),
    ;
    lemma_scaled_division(x, b.mantissa, c);
    let rm = x % b.mantissa;
    assert((rm * c == 0) <==> (rm == 0)) by (nonlinear_arith)
        requires
            c > 0,
            rm >= 0,
    ;
}

/// The floor quotient of `ma * 10^e` by `mb` grows with `e`.
proof fn lemma_long_dividend_grows(ma: nat, mb: nat, e1: nat, e2: nat)
    requires
        mb > 0,
        e1 <= e2,
    ensures
        (ma * pow10(e1)) / mb <= (ma * pow10(e2)) / mb,
{
    lemma_pow10_monotone(e1, e2);
    assert(ma * pow10(e1) <= ma * pow10(e2)) by (nonlinear_arith)
        requires
            pow10(e1) <= pow10(e2),
    ;
    lemma_div_is_ordered((ma * pow10(e1)) as int, (ma * pow10(e2)) as int, mb as int);
}

const MANTISSA_MAX: u128 = 0xffff_ffff_ffff_ffff_ffff_ffff;

/// Rounds the quotient `q` with remainder `r` by `d` half to even.
fn round_quotient(q: u128, r: u128, d: u128, x: Ghost<nat>) -> (rounded: u128)
    requires
        d > 0,
        q <= MANTISSA_MAX,
        q == x@ / (d as nat),
        r == x@ % (d as nat),
    ensures
        rounded == round_half_even(x@, d as nat),
{
    proof {
        lemma_mod_bound(x@ as int, d as int);
    }
    if r > d - r || (r == d - r && q % 2 == 1) {
        q + 1
    } else {
        q
    }
}

impl Decimal {
    /// `self / other`, or `None` when `other` is zero or the quotient's whole part needs
    /// more than 96 bits.
    pub fn checked_div(&self, other: &Decimal) -> (r: Option<Decimal>)
        ensures
            opt_model(r) == div_model(self@, other@),
            r matches Some(c) ==> {
                &&& c@.mantissa != 0 ==> c@.negative == (self@.negative != other@.negative)
                &&& -(other@.mantissa * pow10(self@.scale)) <= 2 * c@.signed() * other@.signed()
                    * pow10(self@.scale) - 2 * self@.signed() * pow10(other@.scale + c@.scale)
                    <= other@.mantissa * pow10(self@.scale)
            },
    {
        self.ensure_representable();
        other.ensure_representable();
        proof {
            lemma_quotient_within_half_unit(self@, other@);
        }
        self.divide(other)
    }

    /// The quotient as `div_model` describes it.
    fn divide(&self, other: &Decimal) -> (r: Option<Decimal>)
        ensures
            opt_model(r) == div_model(self@, other@),
    {
        self.ensure_representable();
        other.ensure_representable();
        let ma = self.unsigned_mantissa();
        let mb = other.unsigned_mantissa();
        let sa = self.scale();
        let sb = other.scale();
        let ghost a = self@;
        let ghost b = other@;
        if mb == 0 {
            return None;
        }
        if ma == 0 {
            return Some(Decimal::zero());
        }
        proof {
            lemma_pow10_values();
            assert(MAX_SCALE as nat == 28);
            lemma_fundamental_div_mod(ma as int, mb as int);
            lemma_mod_bound(ma as int, mb as int);
            assert(ma / mb <= ma) by (nonlinear_arith)
                requires
                    ma == mb * (ma / mb) + ma % mb,
                    mb >= 1,
                    ma % mb >= 0,
                    ma / mb >= 0,
            ;
        }
        let negative = self.is_sign_negative() != other.is_sign_negative();
        let q0 = ma / mb;
        let r0 = ma % mb;
        let t0: u32 = if sa > sb {
            sa - sb
        } else {
            0
        };
        let mut t: u32 = t0;
        // The long division starts at the dividend of scale `t0`.
        let mut q = q0;
        let mut r = r0;
        proof {
            assert(pow10(0) == 1);
            assert((ma as nat) * pow10(0) == ma);
            assert(MAX_SCALE as nat == 28);
        }
        if sb > sa {
            let g = sb - sa;
            let mut i: u32 = 0;
            while i < g
                invariant
                    i <= g,
                    g == sb - sa,
                    a == self@,
                    b == other@,
                    sa == a.scale,
                    sb == b.scale,
                    ma == a.mantissa,
                    mb == b.mantissa,
                    mb > 0,
                    ma > 0,
                    a.wf(),
                    b.wf(),
                    t == 0,
                    q == ((ma as nat) * pow10(i as nat)) / (mb as nat),
                    r == ((ma as nat) * pow10(i as nat)) % (mb as nat),
                    q <= MANTISSA_MAX,
                decreases g - i,
            {
                let ghost x = (ma as nat) * pow10(i as nat);
                proof {
                    lemma_division_step(x, mb as nat);
                    lemma_mod_bound(x as int, mb as int);
                    assert(pow10((i + 1) as nat) == 10 * pow10(i as nat));
                    assert((ma as nat) * (10 * pow10(i as nat)) == 10 * x) by (nonlinear_arith)
                        requires
                            x == (ma as nat) * pow10(i as nat),
                    ;
                }
                let q2 = 10 * q + (10 * r) / mb;
                let r2 = (10 * r) % mb;
                if q2 > MANTISSA_MAX {
                    proof {
                        lemma_long_dividend_grows(ma as nat, mb as nat, (i + 1) as nat, g as nat);
                        assert(long_dividend(a, b, 0) == (ma as nat) * pow10(g as nat));
                        lemma_quotient_shifted_left(a, b, 0);
                        lemma_round_half_even_bounds(long_dividend(a, b, 0), mb as nat);
                        lemma_largest_none(a, b, 28);
                    }
                    return None;
                }
                q = q2;
                r = r2;
                i = i + 1;
            }
            proof {
                assert(long_dividend(a, b, 0) == (ma as nat) * pow10(g as nat));
            }
        } else {
            proof {
                assert(long_dividend(a, b, t as nat) == (ma as nat) * pow10(0));
            }
        }
        let mut has_prev = false;
        let mut qp: u128 = 0;
        let mut rp: u128 = 0;
        loop
            invariant
                t0 <= t <= 28,
                t0 == (if sa > sb { sa - sb } else { 0 }),
                a == self@,
                b == other@,
                sa == a.scale,
                sb == b.scale,
                a.wf(),
                b.wf(),
                ma == a.mantissa,
                mb == b.mantissa,
                mb > 0,
                ma > 0,
                q0 == ma / mb,
                r0 == ma % mb,
                negative == (a.negative != b.negative),
                sa <= sb + t,
                q == long_dividend(a, b, t as nat) / (mb as nat),
                r == long_dividend(a, b, t as nat) % (mb as nat),
                q <= MANTISSA_MAX,
                forall|j: nat| t0 <= j < t ==> !#[trigger] quotient_exact(a, b, j),
                has_prev ==> {
                    &&& t >= 1
                    &&& t - 1 >= t0
                    &&& qp == long_dividend(a, b, (t - 1) as nat) / (mb as nat)
                    &&& rp == long_dividend(a, b, (t - 1) as nat) % (mb as nat)
                    &&& qp <= MANTISSA_MAX
                    &&& quotient_fits(a, b, (t - 1) as nat)
                },
                !has_prev ==> (t == t0 && (t0 > 0 ==> q == q0 && r == r0)),
            decreases 28 - t,
        {
            proof {
                lemma_quotient_shifted_left(a, b, t as nat);
                lemma_mod_bound(long_dividend(a, b, t as nat) as int, mb as int);
            }
            if r == 0 {
                proof {
                    lemma_round_half_even_bounds(long_dividend(a, b, t as nat), mb as nat);
                    assert(round_half_even(long_dividend(a, b, t as nat), mb as nat) == q);
                    lemma_largest_at_least(a, b, t as nat, 28);
                    let top = largest_fitting_scale(a, b, 28)->0;
                    lemma_first_exact_is(a, b, t0 as nat, t as nat, top);
                }
                return Some(Decimal::from_parts(negative, q, t));
            }
            let ghost x = long_dividend(a, b, t as nat);
            let mut advanced = false;
            if t < 28 {
                proof {
                    lemma_division_step(x, mb as nat);
                    lemma_numerator_next(a, b, t as nat);
                    assert(pow10((sb + t + 1 - sa) as nat) == 10 * pow10((sb + t - sa) as nat));
                    assert((ma as nat) * (10 * pow10((sb + t - sa) as nat)) == 10 * x) by (nonlinear_arith)
                        requires
                            x == (ma as nat) * pow10((sb + t - sa) as nat),
                    ;
                    assert(long_dividend(a, b, (t + 1) as nat) == 10 * x);
                }
                let q2 = 10 * q + (10 * r) / mb;
                let r2 = (10 * r) % mb;
                if q2 <= MANTISSA_MAX {
                    proof {
                        lemma_round_half_even_bounds(x, mb as nat);
                        assert(q <= MANTISSA_MAX / 10);
                    }
                    has_prev = true;
                    qp = q;
                    rp = r;
                    q = q2;
                    r = r2;
                    t = t + 1;
                    advanced = true;
                } else {
                    proof {
                        lemma_quotient_shifted_left(a, b, (t + 1) as nat);
                        lemma_round_half_even_bounds(10 * x, mb as nat);
                        assert(!quotient_fits(a, b, (t + 1) as nat));
                    }
                }
            }
            if !advanced {
                let rounded = round_quotient(q, r, mb, Ghost(x));
                proof {
                    assert forall|v: nat| t < v <= 28 implies !#[trigger] quotient_fits(a, b, v) by {
                        lemma_no_fit_beyond(a, b, (t + 1) as nat, v);
                    }
                }
                if rounded <= MANTISSA_MAX {
                    proof {
                        lemma_largest_is(a, b, t as nat, 28);
                        lemma_first_exact_none(a, b, t0 as nat, t as nat);
                    }
                    return Some(Decimal::from_parts(negative, rounded, t));
                }
                if has_prev {
                    proof {
                        lemma_quotient_shifted_left(a, b, (t - 1) as nat);
                        lemma_mod_bound(long_dividend(a, b, (t - 1) as nat) as int, mb as int);
                        assert forall|v: nat| t - 1 < v <= 28 implies !#[trigger] quotient_fits(a, b, v) by {
                            if v > t {
                                lemma_no_fit_beyond(a, b, (t + 1) as nat, v);
                            }
                        }
                        lemma_largest_is(a, b, (t - 1) as nat, 28);
                        lemma_first_exact_none(a, b, t0 as nat, (t - 1) as nat);
                    }
                    let rounded_prev = round_quotient(
                        qp,
                        rp,
                        mb,
                        Ghost(long_dividend(a, b, (t - 1) as nat)),
                    );
                    return Some(Decimal::from_parts(negative, rounded_prev, t - 1));
                }
                proof {
                    if t0 > 0 {
                        // Here the quotient is `ma / mb` with a non-zero remainder, so `mb >= 2`
                        // and the rounded quotient is below `2^95 + 1`.
                        assert(mb >= 2);
                        assert(q0 <= ma / 2) by {
                            lemma_fundamental_div_mod(ma as int, mb as int);
                            assert(q0 * 2 <= ma) by (nonlinear_arith)
                                requires
                                    ma == mb * q0 + r0,
                                    mb >= 2,
                                    r0 >= 0,
                                    q0 >= 0,
                            ;
                        }
                        assert(false);
                    }
                    lemma_largest_none(a, b, 28);
                }
                return None;
            }
        }
    }
}

} // verus!
