//! Multiplication and negation of decimals.
//!
//! The exact product carries the sum of the two scales, up to 56. It is made
//! representable by rounding off digits half to even: at least enough to bring the
//! scale down to 28, and as many more as the 96-bit mantissa needs. The product of two
//! mantissas is held as `hi * 10^28 + lo`.
use vstd::prelude::*;
use vstd::arithmetic::div_mod::{
    lemma_fundamental_div_mod, lemma_fundamental_div_mod_converse, lemma_mod_bound,
};
use crate::arith::{
    pow10, mantissa_bound, round_half_even, lemma_pow10_pos, lemma_pow10_adds, lemma_pow10_values,
    pow10_u128,
};
use crate::model::{DecimalModel, MAX_SCALE, signed_model, fits_after_dropping, fewest_dropped};
use crate::ops::{
    wide_base, wide_value, opt_model, drop_digits, num_is_negative, WIDE_BASE, MANTISSA_MAX,
};
use crate::decimal::Decimal;

verus! {

/// The exact number `num / 10^s` made representable at a scale of at most 28: at least
/// `s - 28` digits are rounded off (half to even), and as few more as the mantissa needs;
/// `None` when even scale 0 does not fit.
pub open spec fn fit_product(num: int, s: nat) -> Option<DecimalModel> {
    let n = (if num < 0 { -num } else { num }) as nat;
    let least = if s > MAX_SCALE { (s - MAX_SCALE) as nat } else { 0 };
    match fewest_dropped(n, least, s) {
        Some(j) => Some(signed_model(num < 0, round_half_even(n, pow10(j)), (s - j) as nat)),
        None => None,
    }
}

/// `a * b`, or `None` when the whole part of the product does not fit.
pub open spec fn mul_model(a: DecimalModel, b: DecimalModel) -> Option<DecimalModel> {
    fit_product(a.signed() * b.signed(), a.scale + b.scale)
}

/// `-a`: the same mantissa and scale with the other sign; zero stays unsigned.
pub open spec fn neg_model(a: DecimalModel) -> DecimalModel {
    signed_model(!a.negative, a.mantissa, a.scale)
}

/// `10^14`, half the digits of the wide base.
const HALF_BASE: u128 = 100_000_000_000_000;

/// The largest high half of a mantissa split at `10^14`.
const HALF_HIGH_MAX: u128 = 792_281_625_142_643;

/// A mantissa split as `high * 10^14 + low`.
fn split_mantissa(m: u128) -> (r: (u128, u128))
    requires
        m < mantissa_bound(),
    ensures
        m == r.0 * HALF_BASE + r.1,
        r.0 <= HALF_HIGH_MAX,
        r.1 < HALF_BASE,
{
    let high = m / HALF_BASE;
    let low = m % HALF_BASE;
    proof {
        lemma_fundamental_div_mod(m as int, HALF_BASE as int);
        lemma_mod_bound(m as int, HALF_BASE as int);
    }
    (high, low)
}

/// The product of two mantissas as a wide magnitude.
fn wide_product(a: u128, b: u128) -> (r: (u128, u128))
    requires
        a < mantissa_bound(),
        b < mantissa_bound(),
    ensures
        wide_value(r.0 as nat, r.1 as nat) == a * b,
        r.1 < wide_base(),
{
    let (a1, a0) = split_mantissa(a);
    let (b1, b0) = split_mantissa(b);
    proof {
        assert(a1 * b1 <= HALF_HIGH_MAX * HALF_HIGH_MAX) by (nonlinear_arith)
            requires
                a1 <= HALF_HIGH_MAX,
                b1 <= HALF_HIGH_MAX,
        ;
        assert(a1 * b0 <= HALF_HIGH_MAX * HALF_BASE) by (nonlinear_arith)
            requires
                a1 <= HALF_HIGH_MAX,
                b0 < HALF_BASE,
        ;
        assert(a0 * b1 <= HALF_HIGH_MAX * HALF_BASE) by (nonlinear_arith)
            requires
                b1 <= HALF_HIGH_MAX,
                a0 < HALF_BASE,
        ;
        assert(a0 * b0 < HALF_BASE * HALF_BASE) by (nonlinear_arith)
            requires
                a0 < HALF_BASE,
                b0 < HALF_BASE,
        ;
    }
    let high = a1 * b1;
    let middle = a1 * b0 + a0 * b1;
    let low = a0 * b0;
    let mid_high = middle / HALF_BASE;
    let mid_low = middle % HALF_BASE;
    proof {
        lemma_fundamental_div_mod(middle as int, HALF_BASE as int);
        lemma_mod_bound(middle as int, HALF_BASE as int);
        assert(a * b == high * (HALF_BASE * HALF_BASE) + middle * HALF_BASE + low)
            by (nonlinear_arith)
            requires
                a == a1 * HALF_BASE + a0,
                b == b1 * HALF_BASE + b0,
                high == a1 * b1,
                middle == a1 * b0 + a0 * b1,
                low == a0 * b0,
        ;
        assert(middle * HALF_BASE == mid_high * (HALF_BASE * HALF_BASE) + mid_low * HALF_BASE)
            by (nonlinear_arith)
            requires
                middle == HALF_BASE * mid_high + mid_low,
        ;
        assert(mid_low * HALF_BASE < HALF_BASE * HALF_BASE) by (nonlinear_arith)
            requires
                mid_low < HALF_BASE,
        ;
    }
    let low_sum = mid_low * HALF_BASE + low;
    if low_sum >= WIDE_BASE {
        (high + mid_high + 1, low_sum - WIDE_BASE)
    } else {
        (high + mid_high, low_sum)
    }
}

/// Rounds `hi * 10^28 + lo` with `j` digits dropped, `j` beyond 28, half to even; `None`
/// when the result does not fit in 96 bits.
fn drop_digits_far(hi: u128, lo: u128, j: u32) -> (r: Option<u128>)
    requires
        lo < wide_base(),
        MAX_SCALE < j <= 2 * MAX_SCALE,
    ensures
        r is Some <==> fits_after_dropping(wide_value(hi as nat, lo as nat), j as nat),
        r matches Some(m) ==> m == round_half_even(wide_value(hi as nat, lo as nat), pow10(j as nat)),
{
    let k = j - MAX_SCALE;
    let e = pow10_u128(k);
    proof {
        lemma_pow10_values();
        lemma_pow10_pos(k as nat);
        lemma_pow10_adds(k as nat, 28);
        assert(pow10(k as nat) == 10 * pow10((k - 1) as nat));
        lemma_pow10_pos((k - 1) as nat);
    }
    let q = hi / e;
    let rh = hi % e;
    let n: Ghost<nat> = Ghost(wide_value(hi as nat, lo as nat));
    proof {
        let b = wide_base() as int;
        let half = pow10((k - 1) as nat) as int;
        lemma_fundamental_div_mod(hi as int, e as int);
        lemma_mod_bound(hi as int, e as int);
        assert(10 * q <= hi) by (nonlinear_arith)
            requires
                hi == e * q + rh,
                e >= 10,
                rh >= 0,
                q >= 0,
        ;
        assert(n@ == (e * b) * q + (rh * b + lo)) by (nonlinear_arith)
            requires
                n@ == hi * b + lo,
                hi == e * q + rh,
        ;
        assert(rh * b + lo < e * b) by (nonlinear_arith)
            requires
                rh + 1 <= e,
                lo < b,
                b > 0,
        ;
        assert(pow10(j as nat) == e * b);
        lemma_fundamental_div_mod_converse(n@ as int, (e * b) as int, q as int, (rh * b + lo) as int);
        let rem = rh * b + lo;
        assert(e == 2 * (5 * half));
        if 2 * rh > e {
            assert(2 * rem > e * b) by (nonlinear_arith)
                requires
                    2 * rh >= e + 1,
                    rem == rh * b + lo,
                    lo >= 0,
                    b > 0,
            ;
        } else if 2 * rh == e {
            assert(2 * rem == e * b + 2 * lo) by (nonlinear_arith)
                requires
                    2 * rh == e,
                    rem == rh * b + lo,
            ;
        } else {
            assert(2 * rh <= e - 2);
            assert(2 * rem < e * b) by (nonlinear_arith)
                requires
                    2 * rh <= e - 2,
                    rem == rh * b + lo,
                    lo < b,
            ;
        }
    }
    let up = rh > e - rh || (rh == e - rh && (lo > 0 || q % 2 == 1));
    let rounded = if up {
        q + 1
    } else {
        q
    };
    if rounded <= MANTISSA_MAX {
        Some(rounded)
    } else {
        None
    }
}

/// The decimal `±(hi * 10^28 + lo) / 10^s` for a scale of up to 56, brought to a scale of
/// at most 28 with as few digits dropped as needed to fit.
fn fit_wide_product(neg: bool, hi: u128, lo: u128, s: u32) -> (r: Option<Decimal>)
    requires
        lo < wide_base(),
        s <= 2 * MAX_SCALE,
    ensures
        opt_model(r) == fit_product(
            (if neg { -(wide_value(hi as nat, lo as nat) as int) } else { wide_value(hi as nat, lo as nat) as int }),
            s as nat,
        ),
{
    let n: Ghost<nat> = Ghost(wide_value(hi as nat, lo as nat));
    let num: Ghost<int> = Ghost(if neg { -(n@ as int) } else { n@ as int });
    let least: u32 = if s > MAX_SCALE {
        s - MAX_SCALE
    } else {
        0
    };
    proof {
        assert(((if num@ < 0 { -num@ } else { num@ }) as nat) == n@);
    }
    let mut j: u32 = least;
    while j <= s
        invariant
            least <= j <= s + 1,
            s <= 2 * MAX_SCALE,
            least as nat == (if s > MAX_SCALE { (s - MAX_SCALE) as nat } else { 0nat }),
            lo < wide_base(),
            n@ == wide_value(hi as nat, lo as nat),
            fewest_dropped(n@, least as nat, s as nat) == fewest_dropped(n@, j as nat, s as nat),
        decreases s + 1 - j,
    {
        let dropped = if j <= MAX_SCALE {
            drop_digits(hi, lo, j)
        } else {
            drop_digits_far(hi, lo, j)
        };
        match dropped {
            Some(m) => {
                proof {
                    lemma_pow10_values();
                    assert(fewest_dropped(n@, j as nat, s as nat) == Some(j as nat));
                }
                return Some(Decimal::from_parts(neg && num_is_negative(hi, lo), m, s - j));
            },
            None => {
                proof {
                    assert(fewest_dropped(n@, j as nat, s as nat) == fewest_dropped(
                        n@,
                        (j + 1) as nat,
                        s as nat,
                    ));
                }
                j = j + 1;
            },
        }
    }
    proof {
        assert(fewest_dropped(n@, j as nat, s as nat) is None);
    }
    None
}

impl Decimal {
    /// `self * other`, rounded half to even to at most 28 places, or `None` when the whole
    /// part of the product needs more than 96 bits.
    pub fn checked_mul(&self, other: &Decimal) -> (r: Option<Decimal>)
        ensures
            opt_model(r) == mul_model(self@, other@),
    {
        self.ensure_representable();
        other.ensure_representable();
        let ma = self.unsigned_mantissa();
        let mb = other.unsigned_mantissa();
        let (hi, lo) = wide_product(ma, mb);
        let neg = self.is_sign_negative() != other.is_sign_negative();
        proof {
            let a = self@;
            let b = other@;
            let p = (ma * mb) as int;
            assert(a.signed() * b.signed() == (if neg { -p } else { p })) by (nonlinear_arith)
                requires
                    p == ma * mb,
                    a.signed() == (if a.negative { -(ma as int) } else { ma as int }),
                    b.signed() == (if b.negative { -(mb as int) } else { mb as int }),
                    neg == (a.negative != b.negative),
            ;
        }
        fit_wide_product(neg, hi, lo, self.scale() + other.scale())
    }

    /// `-self`.
    pub fn neg(&self) -> (r: Decimal)
        ensures
            r@ == neg_model(self@),
    {
        self.ensure_representable();
        Decimal::from_parts(!self.is_sign_negative(), self.unsigned_mantissa(), self.scale())
    }
}

} // verus!
